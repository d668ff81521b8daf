//! The log ring: recent lines, for whoever listens.
//!
//! A line is built in a text of fixed capacity and its bytes are put into a ring;
//! the oldest bytes give way. A listener takes whole lines off the ring.

use vstd::prelude::*;

use crate::fixed;
use crate::text;

verus! {

/// Capacity of the ring.
pub const CAP: usize = 4096;

/// Capacity of a line.
pub const LINE_CAP: usize = 256;

/// The newest bytes, as many as the ring holds.
pub open spec fn newest(s: Seq<u8>) -> Seq<u8> {
    if s.len() <= CAP {
        s
    } else {
        s.skip(s.len() - CAP)
    }
}

/// A ring with nothing in it.
pub fn new_ring() -> (ring: heapless::Deque<u8, 4096>)
    ensures
        fixed::ring4096(ring) == Seq::<u8>::empty(),
{
    fixed::ring_new()
}

/// Puts bytes into the ring; the oldest give way.
pub fn append(ring: &mut heapless::Deque<u8, 4096>, line: &[u8])
    ensures
        fixed::ring4096(*final(ring)) == newest(fixed::ring4096(*old(ring)) + line@),
{
    // A ring never holds more than it can.
    let _ = fixed::ring_is_full(ring);
    let ghost start = fixed::ring4096(*ring);
    let mut i: usize = 0;
    assert(start + line@.take(0) =~= start);
    while i < line.len()
        invariant
            i <= line.len(),
            start.len() <= CAP,
            fixed::ring4096(*ring) == newest(start + line@.take(i as int)),
            fixed::ring4096(*ring).len() <= CAP,
        decreases line.len() - i,
    {
        let ghost before = fixed::ring4096(*ring);
        let b: u8 = line[i];
        if fixed::ring_is_full(ring) {
            let _ = fixed::ring_pop_front(ring);
        }
        let _ = fixed::ring_push_back(ring, b);
        proof {
            let all = start + line@.take(i as int);
            assert(start + line@.take(i + 1) =~= all.push(b));
            assert(fixed::ring4096(*ring) =~= newest(all.push(b)));
        }
        i += 1;
    }
    assert(line@.take(i as int) =~= line@);
}

/// How many bytes come before the first line end.
pub open spec fn line_len(s: Seq<u8>) -> nat
    decreases s.len(),
{
    if s.len() == 0 || s[0] == 10 {
        0
    } else {
        1 + line_len(s.skip(1))
    }
}

/// The text that a line makes of bytes: each byte is a character, and one that
/// does not fit is left out.
pub open spec fn gathered(s: Seq<u8>) -> Seq<char>
    decreases s.len(),
{
    if s.len() == 0 {
        Seq::empty()
    } else {
        let t = gathered(s.drop_last());
        let c = s.last() as char;
        if vstd::utf8::encode_utf8(t).len() + vstd::utf8::encode_utf8(seq![c]).len() <= LINE_CAP {
            t.push(c)
        } else {
            t
        }
    }
}

/// Whether a list of bytes has a line end.
fn has_newline(s: &[u8]) -> (found: bool)
    ensures
        found == s@.contains(10u8),
{
    let mut i: usize = 0;
    while i < s.len()
        invariant
            i <= s.len(),
            forall|j: int| 0 <= j < i ==> #[trigger] s@[j] != 10,
        decreases s.len() - i,
    {
        if s[i] == 10 {
            assert(s@[i as int] == 10);
            return true;
        }
        i += 1;
    }
    false
}

/// Takes one whole line off the ring, without its end. Returns false, and takes
/// nothing, where the ring has no whole line.
pub fn pop_line(ring: &mut heapless::Deque<u8, 4096>, line: &mut heapless::String<256>) -> (found:
    bool)
    ensures
        found == fixed::ring4096(*old(ring)).contains(10u8),
        ({
            let s = fixed::ring4096(*old(ring));
            let n = line_len(s) as int;
            if found {
                &&& fixed::text256(*final(line)) == gathered(s.take(n))
                &&& fixed::ring4096(*final(ring)) == s.skip(n + 1)
            } else {
                &&& fixed::text256(*final(line)) == Seq::<char>::empty()
                &&& fixed::ring4096(*final(ring)) == s
            }
        }),
{
    let ghost s = fixed::ring4096(*ring);
    fixed::text256_clear(line);
    let (front, back) = fixed::ring_slices(ring);
    let found: bool = has_newline(front) || has_newline(back);
    proof {
        lemma_contains_concat(front@, back@);
    }
    if !found {
        return false;
    }
    let ghost mut n: int = 0;
    proof {
        lemma_line_len(s);
        assert(s.skip(0) =~= s);
        assert(s.take(0) =~= Seq::<u8>::empty());
    }
    loop
        invariant
            s == fixed::ring4096(*old(ring)),
            0 <= n <= line_len(s) < s.len(),
            s[line_len(s) as int] == 10,
            forall|j: int| 0 <= j < line_len(s) ==> #[trigger] s[j] != 10,
            fixed::ring4096(*ring) == s.skip(n),
            fixed::text256(*line) == gathered(s.take(n)),
        decreases line_len(s) - n,
    {
        let b: u8 = match fixed::ring_pop_front(ring) {
            None => {
                return true;
            },
            Some(b) => b,
        };
        proof {
            assert(s.skip(n)[0] == s[n]);
            assert(s.skip(n).skip(1) =~= s.skip(n + 1));
        }
        if b == 10 {
            return true;
        }
        // What does not fit is left out; the line end is still consumed.
        let _ = fixed::text256_push(line, b as char);
        proof {
            assert(s.take(n + 1).drop_last() =~= s.take(n));
            n = n + 1;
        }
    }
}

proof fn lemma_contains_concat(a: Seq<u8>, b: Seq<u8>)
    ensures
        (a + b).contains(10u8) == (a.contains(10u8) || b.contains(10u8)),
{
    let s = a + b;
    if a.contains(10u8) {
        assert(s[a.index_of(10u8)] == 10);
    }
    if b.contains(10u8) {
        assert(s[a.len() + b.index_of(10u8)] == 10);
    }
    if s.contains(10u8) {
        let i = s.index_of(10u8);
        if i < a.len() {
            assert(a[i] == 10);
        } else {
            assert(b[i - a.len()] == 10);
        }
    }
}

proof fn lemma_line_len(s: Seq<u8>)
    requires
        s.contains(10u8),
    ensures
        line_len(s) < s.len(),
        s[line_len(s) as int] == 10,
        forall|j: int| 0 <= j < line_len(s) ==> #[trigger] s[j] != 10,
    decreases s.len(),
{
    let i = s.index_of(10u8);
    assert(s[i] == 10);
    if s[0] != 10 {
        let rest = s.skip(1);
        assert(rest[i - 1] == 10);
        lemma_line_len(rest);
        assert(rest[line_len(rest) as int] == s[line_len(s) as int]);
        assert forall|j: int| 0 <= j < line_len(s) implies #[trigger] s[j] != 10 by {
            if j > 0 {
                assert(rest[j - 1] == s[j]);
            }
        }
    }
}

/// The text that pieces make, written one after the other into a line, and
/// whether all fit. After the first that does not, no more are written.
pub open spec fn written(pieces: Seq<Seq<char>>) -> (Seq<char>, bool)
    decreases pieces.len(),
{
    if pieces.len() == 0 {
        (Seq::empty(), true)
    } else {
        let (t, ok) = written(pieces.drop_last());
        if ok && vstd::utf8::encode_utf8(t).len() + vstd::utf8::encode_utf8(pieces.last()).len()
            <= LINE_CAP {
            (t + pieces.last(), true)
        } else {
            (t, false)
        }
    }
}

/// The pieces of a log line: level, milliseconds since the start, message.
pub open spec fn line_pieces(level: Seq<char>, ts: u64, message: Seq<Seq<char>>) -> Seq<Seq<char>> {
    (seq![level, " ("@, text::decimal(ts as nat), ") - "@] + message).push("\n"@)
}

/// What texts say.
pub open spec fn said(pieces: Seq<String>) -> Seq<Seq<char>> {
    pieces.map_values(|p: String| p@)
}

/// Writes one more piece into a line, unless one before it did not fit.
fn write_piece(line: &mut heapless::String<256>, ok: bool, piece: &str, done: Ghost<Seq<Seq<char>>>)
    -> (ok_now: bool)
    requires
        (fixed::text256(*old(line)), ok) == written(done@),
    ensures
        (fixed::text256(*final(line)), ok_now) == written(done@.push(piece@)),
{
    assert(done@.push(piece@).drop_last() =~= done@);
    if ok {
        fixed::text256_push_str(line, piece)
    } else {
        false
    }
}

/// Builds a log line. The message comes in the pieces in which it is formatted.
pub fn format_line(level: &str, ts: u64, message: &Vec<String>) -> (line: heapless::String<256>)
    ensures
        fixed::text256(line) == written(line_pieces(level@, ts, said(message@))).0,
{
    let mut line = fixed::text256_new();
    let mut digits: String = String::new();
    text::push_decimal(&mut digits, ts);
    assert(digits@ =~= text::decimal(ts as nat));
    let ghost p0 = Seq::<Seq<char>>::empty();
    let ghost p1 = p0.push(level@);
    let ghost p2 = p1.push(" ("@);
    let ghost p3 = p2.push(digits@);
    let ghost p4 = p3.push(") - "@);
    let mut ok: bool = write_piece(&mut line, true, level, Ghost(p0));
    ok = write_piece(&mut line, ok, " (", Ghost(p1));
    ok = write_piece(&mut line, ok, digits.as_str(), Ghost(p2));
    ok = write_piece(&mut line, ok, ") - ", Ghost(p3));
    let ghost texts = said(message@);
    let mut i: usize = 0;
    assert(p4 + texts.take(0) =~= p4);
    while i < message.len()
        invariant
            i <= message.len(),
            texts == said(message@),
            (fixed::text256(line), ok) == written(p4 + texts.take(i as int)),
        decreases message.len() - i,
    {
        let ghost done = p4 + texts.take(i as int);
        ok = write_piece(&mut line, ok, message[i].as_str(), Ghost(done));
        assert(p4 + texts.take(i + 1) =~= done.push(texts[i as int]));
        i += 1;
    }
    assert(texts.take(i as int) =~= texts);
    let _ = write_piece(&mut line, ok, "\n", Ghost(p4 + texts));
    assert((p4 + texts).push("\n"@) =~= line_pieces(level@, ts, texts));
    line
}

/// Logs a line: builds it and puts it into the ring.
pub fn log(ring: &mut heapless::Deque<u8, 4096>, level: &str, ts: u64, message: &Vec<String>)
    ensures
        fixed::ring4096(*final(ring)) == newest(
            fixed::ring4096(*old(ring)) + vstd::utf8::encode_utf8(
                written(line_pieces(level@, ts, said(message@))).0,
            ),
        ),
{
    let line = format_line(level, ts, message);
    append(ring, fixed::text256_str(&line).as_bytes());
}

proof fn lemma_gathered_ascii(s: Seq<char>)
    requires
        vstd::utf8::is_ascii_chars(s),
        s.len() <= LINE_CAP,
    ensures
        gathered(vstd::utf8::encode_utf8(s)) == s,
    decreases s.len(),
{
    let b = vstd::utf8::encode_utf8(s);
    vstd::utf8::is_ascii_chars_encode_utf8(s);
    if s.len() > 0 {
        let t = s.drop_last();
        assert(vstd::utf8::is_ascii_chars(t));
        vstd::utf8::is_ascii_chars_encode_utf8(t);
        assert(b.drop_last() =~= vstd::utf8::encode_utf8(t));
        lemma_gathered_ascii(t);
        let c = s.last();
        assert(vstd::utf8::is_ascii_chars(seq![c]));
        vstd::utf8::is_ascii_chars_encode_utf8(seq![c]);
        assert(b.last() as char == c);
        assert(t.push(c) =~= s);
    } else {
        assert(gathered(b) =~= s);
    }
}

/// A line that was put into the ring comes back as it was, when it is its turn:
/// a line of ASCII, not too long and without a line end in it.
pub proof fn law_logged_line_comes_back(line: Seq<char>, rest: Seq<u8>)
    requires
        vstd::utf8::is_ascii_chars(line),
        line.len() <= LINE_CAP,
        !line.contains('\n'),
    ensures
        ({
            let s = vstd::utf8::encode_utf8(line).push(10) + rest;
            let n = line_len(s) as int;
            &&& s.contains(10u8)
            &&& gathered(s.take(n)) == line
            &&& s.skip(n + 1) == rest
        }),
{
    let b = vstd::utf8::encode_utf8(line);
    let s = b.push(10) + rest;
    vstd::utf8::is_ascii_chars_encode_utf8(line);
    let at = b.len() as int;
    assert(s[at] == 10);
    lemma_line_len(s);
    assert forall|j: int| 0 <= j < at implies s[j] != 10 by {
        assert(b[j] == line[j] as u8);
        if line[j] == '\n' {
            assert(line.contains('\n'));
        }
    }
    assert(line_len(s) == at);
    assert(s.take(at) =~= b);
    assert(s.skip(at + 1) =~= rest);
    lemma_gathered_ascii(line);
}

/// The ring keeps the newest bytes: as many as it can, up to 4096, and none before
/// them.
pub proof fn law_the_ring_keeps_the_newest(s: Seq<u8>)
    ensures
        newest(s).is_suffix_of(s),
        newest(s).len() == if s.len() < 4096 {
            s.len()
        } else {
            4096
        },
{
}

/// What was given up stays given up: putting two lines into the ring is putting
/// them in as one.
pub proof fn law_lines_join(s: Seq<u8>, a: Seq<u8>, b: Seq<u8>)
    ensures
        newest(newest(s + a) + b) == newest(s + (a + b)),
{
    assert(newest(newest(s + a) + b) =~= newest(s + (a + b)));
}

/// Pieces, one after the other.
pub open spec fn concat(pieces: Seq<Seq<char>>) -> Seq<char>
    decreases pieces.len(),
{
    if pieces.len() == 0 {
        Seq::empty()
    } else {
        concat(pieces.drop_last()) + pieces.last()
    }
}

proof fn lemma_encode_longer(a: Seq<char>, b: Seq<char>)
    ensures
        vstd::utf8::encode_utf8(a + b).len() == vstd::utf8::encode_utf8(a).len()
            + vstd::utf8::encode_utf8(b).len(),
{
    text::lemma_encode_concat(a, b);
}

/// A line holds the pieces that fit into 256 bytes, from the first on: all of them
/// where all fit together, else those before the first that does not.
pub proof fn law_a_line_holds_what_fits(pieces: Seq<Seq<char>>) -> (n: int)
    ensures
        0 <= n <= pieces.len(),
        written(pieces).0 == concat(pieces.take(n)),
        written(pieces).1 <==> n == pieces.len(),
        vstd::utf8::encode_utf8(concat(pieces.take(n))).len() <= 256,
        n < pieces.len() ==> vstd::utf8::encode_utf8(concat(pieces.take(n + 1))).len() > 256,
    decreases pieces.len(),
{
    if pieces.len() == 0 {
        assert(pieces.take(0) =~= pieces);
        0
    } else {
        let front = pieces.drop_last();
        let m = law_a_line_holds_what_fits(front);
        if m < front.len() {
            assert(pieces.take(m) =~= front.take(m));
            assert(pieces.take(m + 1) =~= front.take(m + 1));
            m
        } else {
            assert(front.take(m) =~= front);
            assert(pieces.take(m) =~= front);
            assert(pieces.take(m + 1) =~= pieces);
            lemma_encode_longer(concat(front), pieces.last());
            if written(pieces).1 {
                m + 1
            } else {
                m
            }
        }
    }
}

/// A line starts with its level, tells the milliseconds in brackets, then the message,
/// and ends with a line end.
pub proof fn law_a_line_is_laid_out(level: Seq<char>, ts: u64, message: Seq<Seq<char>>) -> (digits:
    Seq<char>)
    ensures
        concat(line_pieces(level, ts, message)) == level + " ("@ + digits + ") - "@ + concat(message)
            + "\n"@,
        text::writes(10, digits, ts as int),
    decreases message.len(),
{
    text::law_numbers_are_written(ts as nat, 0);
    let digits = text::decimal(ts as nat);
    let head = seq![level, " ("@, digits, ") - "@];
    let all = line_pieces(level, ts, message);
    assert(all.drop_last() =~= head + message);
    lemma_concat_join(head, message);
    reveal_with_fuel(concat, 5);
    assert(head.drop_last() =~= seq![level, " ("@, digits]);
    assert(head.drop_last().drop_last() =~= seq![level, " ("@]);
    assert(head.drop_last().drop_last().drop_last() =~= seq![level]);
    assert(head.drop_last().drop_last().drop_last().drop_last() =~= Seq::<Seq<char>>::empty());
    assert(concat(seq![level]) =~= level);
    assert(concat(head) =~= level + " ("@ + digits + ") - "@);
    digits
}

proof fn lemma_concat_join(a: Seq<Seq<char>>, b: Seq<Seq<char>>)
    ensures
        concat(a + b) == concat(a) + concat(b),
    decreases b.len(),
{
    if b.len() == 0 {
        assert(a + b =~= a);
        assert(concat(a) + concat(b) =~= concat(a));
    } else {
        lemma_concat_join(a, b.drop_last());
        assert((a + b).drop_last() =~= a + b.drop_last());
        assert(concat(a + b) =~= concat(a) + concat(b));
    }
}

/// What calls of [`append`] and [`pop_line`] do: a line of ASCII with its end, put into an
/// empty ring, comes back as it was, and the ring is empty again; another one after that
/// is not there.
pub proof fn law_a_line_goes_through_the_ring(
    ring: &mut heapless::Deque<u8, 4096>,
    bytes: &[u8],
    ring_then: &mut heapless::Deque<u8, 4096>,
    line: &mut heapless::String<256>,
    found: bool,
    ring_last: &mut heapless::Deque<u8, 4096>,
    again: &mut heapless::String<256>,
    found_again: bool,
    text: Seq<char>,
)
    requires
        vstd::utf8::is_ascii_chars(text),
        text.len() <= 256,
        !text.contains('\n'),
        bytes@ == vstd::utf8::encode_utf8(text).push(10),
        fixed::ring4096(*old(ring)).len() == 0,
        call_ensures(append, (ring, bytes), ()),
        *old(ring_then) == *final(ring),
        call_ensures(pop_line, (ring_then, line), found),
        *old(ring_last) == *final(ring_then),
        call_ensures(pop_line, (ring_last, again), found_again),
    ensures
        found,
        fixed::text256(*final(line)) == text,
        !found_again,
        fixed::ring4096(*final(ring_then)).len() == 0,
{
    let none = Seq::<u8>::empty();
    assert(fixed::ring4096(*old(ring)) =~= none);
    assert(none + bytes@ =~= bytes@);
    vstd::utf8::is_ascii_chars_encode_utf8(text);
    law_logged_line_comes_back(text, none);
    assert(bytes@ + none =~= bytes@);
    assert(vstd::utf8::encode_utf8(text).push(10) + none =~= bytes@);
    assert(!none.contains(10u8));
}

/// Of a line of ASCII that is too long, the first 256 characters come back.
pub proof fn law_long_lines_are_cut(s: Seq<u8>)
    requires
        forall|i: int| 0 <= i < s.len() ==> #[trigger] s[i] < 128,
    ensures
        gathered(s).len() == if s.len() < 256 {
            s.len()
        } else {
            256
        },
        forall|i: int| 0 <= i < gathered(s).len() ==> #[trigger] gathered(s)[i] == s[i] as char,
        vstd::utf8::is_ascii_chars(gathered(s)),
    decreases s.len(),
{
    if s.len() > 0 {
        let before = s.drop_last();
        assert forall|i: int| 0 <= i < before.len() implies #[trigger] before[i] < 128 by {
            assert(before[i] == s[i]);
        }
        law_long_lines_are_cut(before);
        let t = gathered(before);
        let c = s.last() as char;
        assert(s.last() == s[s.len() - 1]);
        assert(vstd::utf8::is_ascii_chars(seq![c]));
        text::lemma_ascii_len(t);
        text::lemma_ascii_len(seq![c]);
        assert forall|i: int| 0 <= i < gathered(s).len() implies #[trigger] gathered(s)[i]
            == s[i] as char by {
            if i < t.len() {
                assert(gathered(s)[i] == t[i]);
                assert(before[i] == s[i]);
            }
        }
        assert(vstd::utf8::is_ascii_chars(gathered(s)));
    }
}

} // verus!
