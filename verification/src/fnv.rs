//! FNV-1a, the 64-bit hash that names a glyph bitmap.

use vstd::prelude::*;

verus! {

/// Hash of the empty byte string.
pub const FNV_OFFSET: u64 = 0xcbf2_9ce4_8422_2325;

/// Multiplier applied after each byte is mixed in.
pub const FNV_PRIME: u64 = 0x0000_0100_0000_01b3;

/// One step of the hash: xor the byte in, multiply by the prime modulo 2^64.
pub open spec fn mixed(hash: u64, byte: u8) -> u64 {
    (((hash ^ (byte as u64)) * FNV_PRIME) % 0x1_0000_0000_0000_0000) as u64
}

/// The hash of a byte string, started from `hash`.
pub open spec fn hash_from(hash: u64, bytes: Seq<u8>) -> u64
    decreases bytes.len(),
{
    if bytes.len() == 0 {
        hash
    } else {
        mixed(hash_from(hash, bytes.drop_last()), bytes.last())
    }
}

/// The hash of a byte string.
pub open spec fn hash_of(bytes: Seq<u8>) -> u64 {
    hash_from(FNV_OFFSET, bytes)
}

/// Hash state before any byte.
pub fn fnv_init() -> (hash: u64)
    ensures
        hash == hash_of(Seq::empty()),
        hash == FNV_OFFSET,
{
    FNV_OFFSET
}

/// Mix one byte into a running hash.
pub fn fnv_mix(hash: u64, byte: u8) -> (mixed_hash: u64)
    ensures
        mixed_hash == mixed(hash, byte),
{
    (hash ^ (byte as u64)).wrapping_mul(FNV_PRIME)
}

/// Hashing a string and then one more byte is one step from the string's hash.
pub proof fn law_hash_extends(bytes: Seq<u8>, byte: u8)
    ensures
        hash_of(bytes.push(byte)) == mixed(hash_of(bytes), byte),
{
    assert(bytes.push(byte).drop_last() =~= bytes);
}

/// Hashing a string in two parts is hashing it whole.
pub proof fn law_hash_of_two_parts(hash: u64, a: Seq<u8>, b: Seq<u8>)
    ensures
        hash_from(hash_from(hash, a), b) == hash_from(hash, a + b),
    decreases b.len(),
{
    if b.len() == 0 {
        assert(a + b =~= a);
    } else {
        law_hash_of_two_parts(hash, a, b.drop_last());
        assert((a + b).drop_last() =~= a + b.drop_last());
    }
}

/// The hash is 64-bit FNV-1a: from the offset basis on, each byte is xored in before
/// the multiplication by the prime, and the product wraps.
pub proof fn law_hash_is_fnv_1a(bytes: Seq<u8>, byte: u8)
    ensures
        hash_of(Seq::empty()) == 14695981039346656037,
        ({
            let h = hash_of(bytes) ^ (byte as u64);
            exists|q: int|
                hash_of(bytes.push(byte)) + #[trigger] (q * 18446744073709551616) == h
                    * 1099511628211
        }),
{
    law_hash_extends(bytes, byte);
    let h = hash_of(bytes) ^ (byte as u64);
    let product = h * FNV_PRIME;
    let q = product / 18446744073709551616;
    assert(product == product % 18446744073709551616 + q * 18446744073709551616);
}

} // verus!
