//! Collections of fixed capacity, from the `heapless` crate.

use vstd::prelude::*;

verus! {

/// `heapless::Vec`, a list of at most `N` items, held in place.
#[verifier::external_type_specification]
#[verifier::external_body]
#[verifier::reject_recursive_types(T)]
pub struct ExVec<T, const N: usize>(heapless::Vec<T, N>);

/// `heapless::String`, a text of at most `N` bytes, held in place.
#[verifier::external_type_specification]
#[verifier::external_body]
pub struct ExString<const N: usize>(heapless::String<N>);

/// `heapless::Deque`, a ring of at most `N` items, held in place.
#[verifier::external_type_specification]
#[verifier::external_body]
#[verifier::reject_recursive_types(T)]
pub struct ExDeque<T, const N: usize>(heapless::Deque<T, N>);

/// What a list of up to 4096 words holds.
pub uninterp spec fn words4096(v: heapless::Vec<u16, 4096>) -> Seq<u16>;

/// `heapless::Vec::new`: an empty list.
#[verifier::external_body]
pub(crate) fn words_new() -> (v: heapless::Vec<u16, 4096>)
    ensures
        words4096(v) == Seq::<u16>::empty(),
{
    heapless::Vec::new()
}

/// `heapless::Vec::push`: appends a word; a full list stays as it was, and the
/// result is false.
#[verifier::external_body]
pub(crate) fn words_push(v: &mut heapless::Vec<u16, 4096>, word: u16) -> (pushed: bool)
    ensures
        pushed == (words4096(*old(v)).len() < 4096),
        words4096(*final(v)) == if words4096(*old(v)).len() < 4096 {
            words4096(*old(v)).push(word)
        } else {
            words4096(*old(v))
        },
{
    v.push(word).is_ok()
}

/// What a text of up to 16 bytes says.
pub uninterp spec fn text16(s: heapless::String<16>) -> Seq<char>;

/// `heapless::String::new`: an empty text.
#[verifier::external_body]
pub(crate) fn text16_new() -> (s: heapless::String<16>)
    ensures
        text16(s) == Seq::<char>::empty(),
{
    heapless::String::new()
}

/// `heapless::String::push_str`: appends all of a text, or nothing where its bytes
/// do not fit.
#[verifier::external_body]
pub(crate) fn text16_push_str(s: &mut heapless::String<16>, t: &str) -> (pushed: bool)
    ensures
        pushed == (vstd::utf8::encode_utf8(text16(*old(s))).len() + vstd::utf8::encode_utf8(t@).len()
            <= 16),
        text16(*final(s)) == if vstd::utf8::encode_utf8(text16(*old(s))).len()
            + vstd::utf8::encode_utf8(t@).len() <= 16 {
            text16(*old(s)) + t@
        } else {
            text16(*old(s))
        },
{
    s.push_str(t).is_ok()
}

/// `heapless::String::as_str`: what a text says; it is never longer than its
/// capacity.
#[verifier::external_body]
pub(crate) fn text16_str(s: &heapless::String<16>) -> (t: &str)
    ensures
        t@ == text16(*s),
        vstd::utf8::encode_utf8(t@).len() <= 16,
{
    s.as_str()
}

/// What a text of up to 64 bytes says.
pub uninterp spec fn text64(s: heapless::String<64>) -> Seq<char>;

/// `heapless::String::new`: an empty text.
#[verifier::external_body]
pub(crate) fn text64_new() -> (s: heapless::String<64>)
    ensures
        text64(s) == Seq::<char>::empty(),
{
    heapless::String::new()
}

/// `heapless::String::push_str`: appends all of a text, or nothing where its bytes
/// do not fit.
#[verifier::external_body]
pub(crate) fn text64_push_str(s: &mut heapless::String<64>, t: &str) -> (pushed: bool)
    ensures
        pushed == (vstd::utf8::encode_utf8(text64(*old(s))).len() + vstd::utf8::encode_utf8(t@).len()
            <= 64),
        text64(*final(s)) == if vstd::utf8::encode_utf8(text64(*old(s))).len()
            + vstd::utf8::encode_utf8(t@).len() <= 64 {
            text64(*old(s)) + t@
        } else {
            text64(*old(s))
        },
{
    s.push_str(t).is_ok()
}

/// `heapless::String::as_str`: what a text says; it is never longer than its
/// capacity.
#[verifier::external_body]
pub(crate) fn text64_str(s: &heapless::String<64>) -> (t: &str)
    ensures
        t@ == text64(*s),
        vstd::utf8::encode_utf8(t@).len() <= 64,
{
    s.as_str()
}

/// What a text of up to 256 bytes says.
pub uninterp spec fn text256(s: heapless::String<256>) -> Seq<char>;

/// `heapless::String::new`: an empty text.
#[verifier::external_body]
pub(crate) fn text256_new() -> (s: heapless::String<256>)
    ensures
        text256(s) == Seq::<char>::empty(),
{
    heapless::String::new()
}

/// `heapless::String::clear`: empties a text.
#[verifier::external_body]
pub(crate) fn text256_clear(s: &mut heapless::String<256>)
    ensures
        text256(*final(s)) == Seq::<char>::empty(),
{
    s.clear();
}

/// `heapless::String::push_str`: appends all of a text, or nothing where its bytes
/// do not fit.
#[verifier::external_body]
pub(crate) fn text256_push_str(s: &mut heapless::String<256>, t: &str) -> (pushed: bool)
    ensures
        pushed == (vstd::utf8::encode_utf8(text256(*old(s))).len() + vstd::utf8::encode_utf8(t@).len()
            <= 256),
        text256(*final(s)) == if vstd::utf8::encode_utf8(text256(*old(s))).len()
            + vstd::utf8::encode_utf8(t@).len() <= 256 {
            text256(*old(s)) + t@
        } else {
            text256(*old(s))
        },
{
    s.push_str(t).is_ok()
}

/// `heapless::String::push`: appends a character, or nothing where its bytes do
/// not fit.
#[verifier::external_body]
pub(crate) fn text256_push(s: &mut heapless::String<256>, c: char) -> (pushed: bool)
    ensures
        pushed == (vstd::utf8::encode_utf8(text256(*old(s))).len() + vstd::utf8::encode_utf8(
            seq![c],
        ).len() <= 256),
        text256(*final(s)) == if vstd::utf8::encode_utf8(text256(*old(s))).len()
            + vstd::utf8::encode_utf8(seq![c]).len() <= 256 {
            text256(*old(s)).push(c)
        } else {
            text256(*old(s))
        },
{
    s.push(c).is_ok()
}

/// `heapless::String::as_str`: what a text says; it is never longer than its
/// capacity.
#[verifier::external_body]
pub(crate) fn text256_str(s: &heapless::String<256>) -> (t: &str)
    ensures
        t@ == text256(*s),
        vstd::utf8::encode_utf8(t@).len() <= 256,
{
    s.as_str()
}

/// What a ring of up to 4096 bytes holds, from the oldest to the newest.
pub uninterp spec fn ring4096(d: heapless::Deque<u8, 4096>) -> Seq<u8>;

/// `heapless::Deque::new`: an empty ring.
#[verifier::external_body]
pub(crate) fn ring_new() -> (d: heapless::Deque<u8, 4096>)
    ensures
        ring4096(d) == Seq::<u8>::empty(),
{
    heapless::Deque::new()
}

/// `heapless::Deque::is_full`: whether the ring holds as many bytes as it can.
#[verifier::external_body]
pub(crate) fn ring_is_full(d: &heapless::Deque<u8, 4096>) -> (full: bool)
    ensures
        full ==> ring4096(*d).len() == 4096,
        !full ==> ring4096(*d).len() < 4096,
{
    d.is_full()
}

/// `heapless::Deque::push_back`: appends a byte; a full ring stays as it was, and
/// the result is false.
#[verifier::external_body]
pub(crate) fn ring_push_back(d: &mut heapless::Deque<u8, 4096>, b: u8) -> (pushed: bool)
    ensures
        pushed == (ring4096(*old(d)).len() < 4096),
        ring4096(*final(d)) == if ring4096(*old(d)).len() < 4096 {
            ring4096(*old(d)).push(b)
        } else {
            ring4096(*old(d))
        },
{
    d.push_back(b).is_ok()
}

/// `heapless::Deque::pop_front`: takes the oldest byte, if there is one.
#[verifier::external_body]
pub(crate) fn ring_pop_front(d: &mut heapless::Deque<u8, 4096>) -> (b: Option<u8>)
    ensures
        match b {
            Some(x) => ring4096(*old(d)).len() > 0 && x == ring4096(*old(d))[0] && ring4096(
                *final(d),
            ) == ring4096(*old(d)).skip(1),
            None => ring4096(*old(d)).len() == 0 && ring4096(*final(d)) == ring4096(*old(d)),
        },
{
    d.pop_front()
}

/// `heapless::Deque::as_slices`: the bytes of the ring, in order, in two parts.
#[verifier::external_body]
pub(crate) fn ring_slices(d: &heapless::Deque<u8, 4096>) -> (parts: (&[u8], &[u8]))
    ensures
        parts.0@ + parts.1@ == ring4096(*d),
{
    d.as_slices()
}

} // verus!
