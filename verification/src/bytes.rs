//! Little-endian integers in byte sequences.

use vstd::prelude::*;

verus! {

/// The two bytes of `x`, least significant first.
pub open spec fn le16(x: u16) -> Seq<u8> {
    seq![(x % 256) as u8, (x / 256) as u8]
}

/// The four bytes of `x`, least significant first.
pub open spec fn le32(x: u32) -> Seq<u8> {
    seq![(x % 256) as u8, (x / 256 % 256) as u8, (x / 65536 % 256) as u8, (x / 16777216) as u8]
}

/// The 16-bit integer whose bytes start at `off`.
pub open spec fn half_at(s: Seq<u8>, off: int) -> u16 {
    (s[off] + 256 * s[off + 1]) as u16
}

/// The 32-bit integer whose bytes start at `off`.
pub open spec fn word_at(s: Seq<u8>, off: int) -> u32 {
    (s[off] + 256 * s[off + 1] + 65536 * s[off + 2] + 16777216 * s[off + 3]) as u32
}

/// The bytes of a list of 32-bit integers, one after the other.
pub open spec fn le32s(words: Seq<u32>) -> Seq<u8>
    decreases words.len(),
{
    if words.len() == 0 {
        Seq::empty()
    } else {
        le32s(words.drop_last()) + le32(words.last())
    }
}

/// The 32-bit integers that lie one after the other in `s`; up to three
/// trailing bytes are left over.
pub open spec fn words(s: Seq<u8>) -> Seq<u32> {
    Seq::new(s.len() / 4, |i: int| word_at(s, 4 * i))
}

pub proof fn lemma_half_of_le16(s: Seq<u8>, off: int, x: u16)
    requires
        0 <= off,
        off + 2 <= s.len(),
        s.subrange(off, off + 2) == le16(x),
    ensures
        half_at(s, off) == x,
{
    let t = s.subrange(off, off + 2);
    assert(t[0] == s[off] && t[1] == s[off + 1]);
}

pub proof fn lemma_word_of_le32(s: Seq<u8>, off: int, x: u32)
    requires
        0 <= off,
        off + 4 <= s.len(),
        s.subrange(off, off + 4) == le32(x),
    ensures
        word_at(s, off) == x,
{
    let t = s.subrange(off, off + 4);
    assert(t[0] == s[off] && t[1] == s[off + 1] && t[2] == s[off + 2] && t[3] == s[off + 3]);
}

pub proof fn lemma_le32s_len(ws: Seq<u32>)
    ensures
        le32s(ws).len() == 4 * ws.len(),
    decreases ws.len(),
{
    if ws.len() > 0 {
        lemma_le32s_len(ws.drop_last());
    }
}

/// Word `i` of the bytes of a list is its element `i`.
pub proof fn lemma_le32s_word(ws: Seq<u32>, i: int)
    requires
        0 <= i < ws.len(),
    ensures
        le32s(ws).len() == 4 * ws.len(),
        le32s(ws).subrange(4 * i, 4 * i + 4) == le32(ws[i]),
        word_at(le32s(ws), 4 * i) == ws[i],
    decreases ws.len(),
{
    lemma_le32s_len(ws);
    lemma_le32s_len(ws.drop_last());
    if i < ws.len() - 1 {
        lemma_le32s_word(ws.drop_last(), i);
        assert(le32s(ws).subrange(4 * i, 4 * i + 4) =~= le32s(ws.drop_last()).subrange(
            4 * i,
            4 * i + 4,
        ));
    } else {
        assert(le32s(ws).subrange(4 * i, 4 * i + 4) =~= le32(ws[i]));
    }
    lemma_word_of_le32(le32s(ws), 4 * i, ws[i]);
}

pub proof fn lemma_le32s_push(ws: Seq<u32>, w: u32)
    ensures
        le32s(ws.push(w)) == le32s(ws) + le32(w),
{
    assert(ws.push(w).drop_last() =~= ws);
}

pub proof fn lemma_le32s_concat(a: Seq<u32>, b: Seq<u32>)
    ensures
        le32s(a + b) == le32s(a) + le32s(b),
    decreases b.len(),
{
    if b.len() == 0 {
        assert(a + b =~= a);
        assert(le32s(a) + le32s(b) =~= le32s(a));
    } else {
        lemma_le32s_concat(a, b.drop_last());
        assert((a + b).drop_last() =~= a + b.drop_last());
        assert(le32s(a + b) =~= le32s(a) + le32s(b));
    }
}

/// The 16-bit integer whose bytes start at `off`.
pub fn read_u16(buf: &[u8], off: usize) -> (x: u16)
    requires
        off + 2 <= buf.len(),
    ensures
        x == half_at(buf@, off as int),
{
    buf[off] as u16 + 256 * (buf[off + 1] as u16)
}

/// The 32-bit integer whose bytes start at `off`.
pub fn read_u32(buf: &[u8], off: usize) -> (x: u32)
    requires
        off + 4 <= buf.len(),
    ensures
        x == word_at(buf@, off as int),
{
    buf[off] as u32 + 256 * (buf[off + 1] as u32) + 65536 * (buf[off + 2] as u32) + 16777216 * (
    buf[off + 3] as u32)
}

/// The two bytes of `x`, least significant first.
pub fn split_u16(x: u16) -> (b: [u8; 2])
    ensures
        b@ == le16(x),
{
    [(x % 256) as u8, (x / 256) as u8]
}

/// The four bytes of `x`, least significant first.
pub fn split_u32(x: u32) -> (b: [u8; 4])
    ensures
        b@ == le32(x),
{
    [(x % 256) as u8, (x / 256 % 256) as u8, (x / 65536 % 256) as u8, (x / 16777216) as u8]
}

/// Integers lie in bytes with the least significant first: the bytes, weighed by
/// the powers of 256 in their order, add up to the integer.
pub proof fn law_the_least_significant_byte_is_first(x: u16, y: u32)
    ensures
        le16(x).len() == 2,
        x == le16(x)[0] + 256 * le16(x)[1],
        le32(y).len() == 4,
        y == le32(y)[0] + 256 * le32(y)[1] + 65536 * le32(y)[2] + 16777216 * le32(y)[3],
{
}

/// Reading an integer weighs the bytes at its place by the powers of 256 in their
/// order.
pub proof fn law_the_bytes_at_a_place_are_read(s: Seq<u8>, off: int)
    ensures
        half_at(s, off) == s[off] + 256 * s[off + 1],
        word_at(s, off) == s[off] + 256 * s[off + 1] + 65536 * s[off + 2] + 16777216 * s[off + 3],
{
}

/// The integer at a place has the bytes there.
pub proof fn lemma_bytes_of_word(s: Seq<u8>, off: int)
    requires
        0 <= off,
        off + 4 <= s.len(),
    ensures
        le32(word_at(s, off)) == s.subrange(off, off + 4),
{
    let a = s[off] as int;
    let b = s[off + 1] as int;
    let c = s[off + 2] as int;
    let d = s[off + 3] as int;
    let x = word_at(s, off);
    assert(x == a + 256 * b + 65536 * c + 16777216 * d);
    assert(x % 256 == a);
    assert(x / 256 == b + 256 * c + 65536 * d);
    assert(x / 256 % 256 == b);
    assert(x / 65536 == c + 256 * d);
    assert(x / 65536 % 256 == c);
    assert(x / 16777216 == d);
    assert(le32(x) =~= s.subrange(off, off + 4));
}

pub proof fn lemma_bytes_of_half(s: Seq<u8>, off: int)
    requires
        0 <= off,
        off + 2 <= s.len(),
    ensures
        le16(half_at(s, off)) == s.subrange(off, off + 2),
{
    let x = half_at(s, off);
    assert(x == s[off] + 256 * s[off + 1]);
    assert(x % 256 == s[off]);
    assert(x / 256 == s[off + 1]);
    assert(le16(x) =~= s.subrange(off, off + 2));
}

proof fn lemma_words_front(s: Seq<u8>, n: int)
    requires
        0 <= n,
        n + 4 == s.len(),
        n % 4 == 0,
    ensures
        words(s) == words(s.take(n)).push(word_at(s, n)),
{
    let front = s.take(n);
    assert forall|i: int| 0 <= i < n / 4 implies word_at(s, 4 * i) == #[trigger] word_at(
        front,
        4 * i,
    ) by {}
    assert(words(s) =~= words(front).push(word_at(s, n)));
}

/// A list of bytes that holds whole integers is the bytes of the integers in it.
pub proof fn law_words_are_their_bytes(s: Seq<u8>)
    requires
        s.len() % 4 == 0,
    ensures
        words(s).len() * 4 == s.len(),
        le32s(words(s)) == s,
    decreases s.len(),
{
    if s.len() > 0 {
        let n = s.len() - 4;
        law_words_are_their_bytes(s.take(n));
        lemma_words_front(s, n);
        lemma_le32s_push(words(s.take(n)), word_at(s, n));
        lemma_bytes_of_word(s, n);
        assert(s.take(n) + s.subrange(n, n + 4) =~= s);
    } else {
        assert(words(s) =~= Seq::<u32>::empty());
        assert(le32s(words(s)) =~= s);
    }
}

} // verus!
