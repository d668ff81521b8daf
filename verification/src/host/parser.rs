//! The capture program's text dump, line by line.
//!
//! ```text
//! captured 4096 samples, dumping all:
//! [0000] 00000 00000 00000 00000 00000 28000 00000 08000
//! [0008] 00000 24000 2c000 00000 28000 04000 18000 30000
//! dump done
//! ```
//!
//! Chatter is passed over; what counts is the 5-digit hexadecimal tokens behind
//! an `[NNNN]` marker. In the dump bit 16 is DC and bit 17 is CS.

use vstd::prelude::*;

use crate::host::sample::Sample;
use crate::text;

verus! {

/// The length of the leading stretch without white space.
pub open spec fn word_len(s: Seq<char>) -> nat
    decreases s.len(),
{
    if s.len() == 0 || text::white(s[0]) {
        0
    } else {
        1 + word_len(s.skip(1))
    }
}

pub proof fn lemma_word_len(s: Seq<char>)
    ensures
        word_len(s) <= s.len(),
    decreases s.len(),
{
    if s.len() > 0 && !text::white(s[0]) {
        lemma_word_len(s.skip(1));
    }
}

/// The stretches between white space.
pub open spec fn words(s: Seq<char>) -> Seq<Seq<char>>
    decreases s.len(),
{
    if s.len() == 0 {
        Seq::empty()
    } else if text::white(s[0]) {
        words(s.skip(1))
    } else {
        proof {
            lemma_word_len(s);
        }
        seq![s.take(word_len(s) as int)] + words(s.skip(word_len(s) as int))
    }
}

/// The first `]`.
pub open spec fn bracket(s: Seq<char>) -> Option<nat>
    decreases s.len(),
{
    if s.len() == 0 {
        None
    } else if s[0] == ']' {
        Some(0)
    } else {
        match bracket(s.skip(1)) {
            Some(k) => Some(k + 1),
            None => None,
        }
    }
}

/// The number that five hexadecimal digits write.
pub open spec fn token(s: Seq<char>) -> Option<u32> {
    match (
        text::hex_digit(s[0]),
        text::hex_digit(s[1]),
        text::hex_digit(s[2]),
        text::hex_digit(s[3]),
        text::hex_digit(s[4]),
    ) {
        (Some(a), Some(b), Some(c), Some(d), Some(e)) => if s.len() == 5 {
            Some((65536 * a + 4096 * b + 256 * c + 16 * d + e) as u32)
        } else {
            None
        },
        _ => None,
    }
}

/// A sample as the dump writes it.
pub open spec fn dumped(raw: u32) -> Sample {
    Sample {
        data: (raw % 65536) as u16,
        dc: raw / 65536 % 2 == 1,
        cs: raw / 131072 % 2 == 1,
    }
}

/// The samples of a list of tokens, where all of them are numbers.
pub open spec fn samples_of(tokens: Seq<Seq<char>>) -> Option<Seq<Sample>> {
    if forall|i: int| 0 <= i < tokens.len() ==> token(#[trigger] tokens[i]) is Some {
        Some(tokens.map_values(|t: Seq<char>| dumped(token(t)->0)))
    } else {
        None
    }
}

/// The samples of a line.
pub open spec fn line_samples(line: Seq<char>) -> Option<Seq<Sample>> {
    let t = text::trimmed(line);
    if t.len() == 0 || t[0] != '[' {
        None
    } else {
        match bracket(t.skip(1)) {
            None => None,
            Some(k) => samples_of(words(t.skip(k as int + 2))),
        }
    }
}

/// The first `]` at or after `from`, before `to`.
fn find_bracket(s: &[char], from: usize, to: usize) -> (at: Option<usize>)
    requires
        from <= to <= s.len(),
    ensures
        match at {
            Some(k) => from <= k < to && bracket(s@.subrange(from as int, to as int)) == Some(
                (k - from) as nat,
            ),
            None => bracket(s@.subrange(from as int, to as int)) is None,
        },
{
    let mut i: usize = from;
    while i < to
        invariant
            from <= i <= to <= s.len(),
            match bracket(s@.subrange(i as int, to as int)) {
                Some(k) => bracket(s@.subrange(from as int, to as int)) == Some(
                    (i - from + k) as nat,
                ),
                None => bracket(s@.subrange(from as int, to as int)) is None,
            },
        decreases to - i,
    {
        let ghost rest = s@.subrange(i as int, to as int);
        assert(rest.skip(1) =~= s@.subrange(i + 1, to as int));
        if s[i] == ']' {
            return Some(i);
        }
        i += 1;
    }
    None
}

/// The number in `s[from..to]`, where it is five hexadecimal digits.
fn read_token(s: &[char], from: usize, to: usize) -> (raw: Option<u32>)
    requires
        from <= to <= s.len(),
    ensures
        raw == token(s@.subrange(from as int, to as int)),
{
    if to - from != 5 {
        return None;
    }
    let a: u32 = match text::hex_digit_value(s[from]) {
        Some(v) => v,
        None => return None,
    };
    let b: u32 = match text::hex_digit_value(s[from + 1]) {
        Some(v) => v,
        None => return None,
    };
    let c: u32 = match text::hex_digit_value(s[from + 2]) {
        Some(v) => v,
        None => return None,
    };
    let d: u32 = match text::hex_digit_value(s[from + 3]) {
        Some(v) => v,
        None => return None,
    };
    let e: u32 = match text::hex_digit_value(s[from + 4]) {
        Some(v) => v,
        None => return None,
    };
    Some(65536 * a + 4096 * b + 256 * c + 16 * d + e)
}

/// The end of the word that starts at `from`.
fn word_end(s: &[char], from: usize, to: usize) -> (end: usize)
    requires
        from <= to <= s.len(),
    ensures
        from <= end <= to,
        end - from == word_len(s@.subrange(from as int, to as int)),
{
    let mut i: usize = from;
    while i < to && !text::is_white(s[i])
        invariant
            from <= i <= to <= s.len(),
            word_len(s@.subrange(from as int, to as int)) == i - from + word_len(
                s@.subrange(i as int, to as int),
            ),
        decreases to - i,
    {
        assert(s@.subrange(i as int, to as int).skip(1) =~= s@.subrange(i + 1, to as int));
        i += 1;
    }
    i
}

/// The samples of one line, or `None` where it is not an `[NNNN]` line of 5-digit
/// tokens.
#[verifier::rlimit(60)]
pub fn parse_line(line: &str) -> (samples: Option<Vec<Sample>>)
    ensures
        match samples {
            Some(v) => line_samples(line@) == Some(v@),
            None => line_samples(line@) is None,
        },
{
    let chars: Vec<char> = text::chars_of(line);
    let s: &[char] = chars.as_slice();
    let (from, to) = text::trim(s);
    let ghost t = text::trimmed(line@);
    if from == to || s[from] != '[' {
        return None;
    }
    assert(t.skip(1) =~= s@.subrange(from + 1, to as int));
    let close: usize = match find_bracket(s, from + 1, to) {
        Some(k) => k,
        None => return None,
    };
    let ghost payload = s@.subrange(close + 1, to as int);
    assert(payload =~= t.skip(close - from + 1));
    let mut samples: Vec<Sample> = Vec::new();
    let mut i: usize = close + 1;
    let ghost mut done = Seq::<Seq<char>>::empty();
    proof {
        assert(done + words(payload) =~= words(payload));
        assert(done.map_values(|t: Seq<char>| dumped(token(t)->0)) =~= samples@);
    }
    while i < to
        invariant
            close < i <= to <= s.len(),
            payload == s@.subrange(close + 1, to as int),
            words(payload) == done + words(s@.subrange(i as int, to as int)),
            forall|j: int| 0 <= j < done.len() ==> token(#[trigger] done[j]) is Some,
            samples@ == done.map_values(|t: Seq<char>| dumped(token(t)->0)),
            line_samples(line@) == samples_of(words(payload)),
        decreases to - i,
    {
        let ghost rest = s@.subrange(i as int, to as int);
        if text::is_white(s[i]) {
            assert(rest.skip(1) =~= s@.subrange(i + 1, to as int));
            i += 1;
        } else {
            let end: usize = word_end(s, i, to);
            let ghost word = s@.subrange(i as int, end as int);
            proof {
                assert(word_len(rest) == 1 + word_len(rest.skip(1)));
                assert(rest.take(end - i) =~= word);
                assert(rest.skip(end - i) =~= s@.subrange(end as int, to as int));
                assert(words(payload) =~= done.push(word) + words(
                    s@.subrange(end as int, to as int),
                ));
                assert(words(payload)[done.len() as int] == word);
            }
            match read_token(s, i, end) {
                Some(raw) => {
                    samples.push(
                        Sample {
                            data: (raw % 65536) as u16,
                            dc: raw / 65536 % 2 == 1,
                            cs: raw / 131072 % 2 == 1,
                        },
                    );
                },
                None => return None,
            }
            proof {
                let next = done.push(word);
                assert(next.map_values(|t: Seq<char>| dumped(token(t)->0)) =~= samples@);
                done = next;
            }
            i = end;
        }
    }
    assert(words(s@.subrange(i as int, to as int)) =~= Seq::<Seq<char>>::empty());
    assert(words(payload) =~= done);
    Some(samples)
}

/// A raw sample as the dump writes it: five hexadecimal digits.
pub open spec fn dump_token(raw: u32) -> Seq<char> {
    seq![
        text::digit_char((raw / 65536 % 16) as nat),
        text::digit_char((raw / 4096 % 16) as nat),
        text::digit_char((raw / 256 % 16) as nat),
        text::digit_char((raw / 16 % 16) as nat),
        text::digit_char((raw % 16) as nat),
    ]
}

/// Raw samples as a line of the dump has them, each with a space before it.
pub open spec fn dump_tokens(raws: Seq<u32>) -> Seq<char>
    decreases raws.len(),
{
    if raws.len() == 0 {
        Seq::empty()
    } else {
        seq![' '] + dump_token(raws[0]) + dump_tokens(raws.skip(1))
    }
}

proof fn lemma_token(raw: u32)
    requires
        raw < 0x10_0000,
    ensures
        token(dump_token(raw)) == Some(raw),
{
    let s = dump_token(raw);
    lemma_digit((raw / 65536 % 16) as nat);
    lemma_digit((raw / 4096 % 16) as nat);
    lemma_digit((raw / 256 % 16) as nat);
    lemma_digit((raw / 16 % 16) as nat);
    lemma_digit((raw % 16) as nat);
    lemma_token_of(
        s,
        (raw / 65536 % 16) as u32,
        (raw / 4096 % 16) as u32,
        (raw / 256 % 16) as u32,
        (raw / 16 % 16) as u32,
        (raw % 16) as u32,
    );
    lemma_five_digits(raw);
}

proof fn lemma_token_of(s: Seq<char>, a: u32, b: u32, c: u32, d: u32, e: u32)
    requires
        s.len() == 5,
        text::hex_digit(s[0]) == Some(a),
        text::hex_digit(s[1]) == Some(b),
        text::hex_digit(s[2]) == Some(c),
        text::hex_digit(s[3]) == Some(d),
        text::hex_digit(s[4]) == Some(e),
    ensures
        token(s) == Some((65536 * a + 4096 * b + 256 * c + 16 * d + e) as u32),
{
}

proof fn lemma_five_digits(raw: u32)
    requires
        raw < 0x10_0000,
    ensures
        65536 * (raw / 65536 % 16) + 4096 * (raw / 4096 % 16) + 256 * (raw / 256 % 16) + 16 * (raw
            / 16 % 16) + raw % 16 == raw,
{
    let (p, q, r, s) = (raw / 16, raw / 256, raw / 4096, raw / 65536);
    assert(q == p / 16);
    assert(r == q / 16);
    assert(s == r / 16);
    assert(raw == 16 * p + raw % 16);
    assert(p == 16 * q + p % 16);
    assert(q == 16 * r + q % 16);
    assert(r == 16 * s + r % 16);
    assert(s < 16);
}

proof fn lemma_token_is_visible(raw: u32)
    ensures
        dump_token(raw).len() == 5,
        forall|i: int| 0 <= i < 5 ==> !text::white(#[trigger] dump_token(raw)[i]),
{
    let s = dump_token(raw);
    lemma_digit((raw / 65536 % 16) as nat);
    lemma_digit((raw / 4096 % 16) as nat);
    lemma_digit((raw / 256 % 16) as nat);
    lemma_digit((raw / 16 % 16) as nat);
    lemma_digit((raw % 16) as nat);
    assert forall|i: int| 0 <= i < 5 implies !text::white(#[trigger] s[i]) by {
        if i == 0 {
        } else if i == 1 {
        } else if i == 2 {
        } else if i == 3 {
        } else {
        }
    }
}

/// A text without white space at its ends is not cut.
proof fn lemma_uncut(s: Seq<char>)
    requires
        s.len() > 0,
        !text::white(s[0]),
        !text::white(s.last()),
    ensures
        text::trimmed(s) == s,
{
    let _ = text::law_only_white_space_is_cut_off(s);
}

proof fn lemma_digit(d: nat)
    requires
        d < 16,
    ensures
        text::hex_digit(text::digit_char(d)) == Some(d as u32),
        !text::white(text::digit_char(d)),
{
}

proof fn lemma_word(t: Seq<char>, rest: Seq<char>)
    requires
        forall|i: int| 0 <= i < t.len() ==> !text::white(#[trigger] t[i]),
        rest.len() == 0 || text::white(rest[0]),
    ensures
        word_len(t + rest) == t.len(),
    decreases t.len(),
{
    let s = t + rest;
    if t.len() > 0 {
        assert forall|i: int| 0 <= i < t.skip(1).len() implies !text::white(
            #[trigger] t.skip(1)[i],
        ) by {
            assert(t[i + 1] == t.skip(1)[i]);
        }
        lemma_word(t.skip(1), rest);
        assert(s.skip(1) =~= t.skip(1) + rest);
        assert(s[0] == t[0]);
    } else {
        assert(s =~= rest);
    }
}

proof fn lemma_dump_words(raws: Seq<u32>)
    requires
        forall|i: int| 0 <= i < raws.len() ==> #[trigger] raws[i] < 0x10_0000,
    ensures
        words(dump_tokens(raws)) == raws.map_values(|r: u32| dump_token(r)),
    decreases raws.len(),
{
    let s = dump_tokens(raws);
    let want = raws.map_values(|r: u32| dump_token(r));
    if raws.len() > 0 {
        let t = dump_token(raws[0]);
        let rest = dump_tokens(raws.skip(1));
        assert forall|i: int| 0 <= i < raws.skip(1).len() implies #[trigger] raws.skip(1)[i]
            < 0x10_0000 by {
            assert(raws[i + 1] == raws.skip(1)[i]);
        }
        lemma_dump_words(raws.skip(1));
        lemma_token_is_visible(raws[0]);
        lemma_word(t, rest);
        assert(s.skip(1) =~= t + rest);
        let u = t + rest;
        assert(u[0] == t[0]);
        assert(u.take(5) =~= t);
        assert(u.skip(5) =~= rest);
        assert(words(s) == words(u));
        assert(words(u) == seq![t] + words(rest));
        assert(words(s) =~= want);
    } else {
        assert(words(s) =~= want);
    }
}

proof fn lemma_bracket(a: Seq<char>, b: Seq<char>)
    requires
        !a.contains(']'),
    ensures
        bracket(a + seq![']'] + b) == Some(a.len()),
    decreases a.len(),
{
    let s = a + seq![']'] + b;
    if a.len() > 0 {
        assert(a.contains(a[0]));
        if a.skip(1).contains(']') {
            let j = a.skip(1).index_of(']');
            assert(a[j + 1] == ']');
        }
        lemma_bracket(a.skip(1), b);
        assert(s.skip(1) =~= a.skip(1) + seq![']'] + b);
    }
}

proof fn lemma_ends_visible(raws: Seq<u32>)
    requires
        raws.len() > 0,
        forall|i: int| 0 <= i < raws.len() ==> #[trigger] raws[i] < 0x10_0000,
    ensures
        dump_tokens(raws).len() > 0,
        !text::white(dump_tokens(raws).last()),
    decreases raws.len(),
{
    lemma_token_is_visible(raws[0]);
    if raws.len() > 1 {
        assert forall|i: int| 0 <= i < raws.skip(1).len() implies #[trigger] raws.skip(1)[i]
            < 0x10_0000 by {
            assert(raws[i + 1] == raws.skip(1)[i]);
        }
        lemma_ends_visible(raws.skip(1));
        assert(dump_tokens(raws).last() == dump_tokens(raws.skip(1)).last());
    } else {
        assert(dump_tokens(raws.skip(1)) =~= Seq::<char>::empty());
        assert(dump_tokens(raws).last() == dump_token(raws[0])[4]);
    }
}

/// A line of the dump reads back: behind its marker, each five digits are one sample,
/// with the bus word in the low 16 bits, DC in the next and CS in the one above.
pub proof fn law_dump_lines_read_back(marker: Seq<char>, raws: Seq<u32>, i: int)
    requires
        !marker.contains(']'),
        0 <= i < raws.len(),
        forall|j: int| 0 <= j < raws.len() ==> #[trigger] raws[j] < 0x4_0000,
    ensures
        ({
            let line = seq!['['] + marker + seq![']'] + dump_tokens(raws);
            let got = line_samples(line);
            &&& got is Some
            &&& got->0.len() == raws.len()
            &&& got->0[i].data == raws[i] % 65536
            &&& got->0[i].dc == (raws[i] / 65536 == 1 || raws[i] / 65536 == 3)
            &&& got->0[i].cs == (raws[i] / 65536 >= 2)
        }),
{
    let line = seq!['['] + marker + seq![']'] + dump_tokens(raws);
    lemma_ends_visible(raws);
    assert(line.last() == dump_tokens(raws).last());
    lemma_uncut(line);
    assert(line.skip(1) =~= marker + seq![']'] + dump_tokens(raws));
    lemma_bracket(marker, dump_tokens(raws));
    assert(line.skip(marker.len() as int + 2) =~= dump_tokens(raws));
    lemma_dump_samples(raws, i);
}

proof fn lemma_dump_samples(raws: Seq<u32>, i: int)
    requires
        0 <= i < raws.len(),
        forall|j: int| 0 <= j < raws.len() ==> #[trigger] raws[j] < 0x4_0000,
    ensures
        ({
            let got = samples_of(words(dump_tokens(raws)));
            &&& got is Some
            &&& got->0.len() == raws.len()
            &&& got->0[i] == dumped(raws[i])
        }),
{
    lemma_dump_words(raws);
    let tokens = words(dump_tokens(raws));
    assert forall|j: int| 0 <= j < tokens.len() implies token(#[trigger] tokens[j]) == Some(
        raws[j],
    ) by {
        assert(tokens[j] == dump_token(raws[j]));
        lemma_token(raws[j]);
    }
    assert(token(tokens[i]) == Some(raws[i]));
}

/// Anything that does not start with a marker is chatter, and a line with a word that
/// is no such token is passed over too.
pub proof fn law_chatter_is_passed_over(line: Seq<char>)
    requires
        line.len() > 0,
        !text::white(line[0]),
        line[0] != '[',
    ensures
        line_samples(line) is None,
{
    let at = text::law_only_white_space_is_cut_off(line);
    let t = text::trimmed(line);
    if t.len() > 0 {
        if at > 0 {
            assert(text::white(line[0]));
        }
        assert(t[0] == line[0]);
    }
}

/// What a call of [`parse_line`] gives for a line of a dump: one sample for each token,
/// in order, with the token's data and control bits.
pub proof fn law_a_dump_line_is_read(
    line: &str,
    samples: Option<Vec<Sample>>,
    marker: Seq<char>,
    raws: Seq<u32>,
    i: int,
)
    requires
        call_ensures(parse_line, (line,), samples),
        line@ == seq!['['] + marker + seq![']'] + dump_tokens(raws),
        !marker.contains(']'),
        0 <= i < raws.len(),
        forall|j: int| 0 <= j < raws.len() ==> #[trigger] raws[j] < 0x4_0000,
    ensures
        samples is Some,
        samples->0@.len() == raws.len(),
        samples->0@[i].data == raws[i] % 65536,
        samples->0@[i].dc == (raws[i] / 65536 == 1 || raws[i] / 65536 == 3),
        samples->0@[i].cs == (raws[i] / 65536 >= 2),
{
    law_dump_lines_read_back(marker, raws, i);
}

/// A token is a number if and only if it is five hexadecimal digits, of either case.
pub proof fn law_tokens_have_five_digits(s: Seq<char>)
    requires
        s.len() > 0,
    ensures
        token(s) is Some ==> s.len() == 5 && forall|i: int|
            0 <= i < 5 ==> 0 <= text::ascii_digit(#[trigger] s[i]) || 65 <= s[i] as int <= 70,
        s.len() == 5 && (forall|i: int|
            0 <= i < 5 ==> 0 <= text::ascii_digit(#[trigger] s[i]) || 65 <= s[i] as int <= 70)
            ==> token(s) is Some,
        token(s) is Some ==> token(s)->0 < 0x10_0000,
{
    text::law_hexadecimal_digits_have_their_value(s[0]);
    text::law_hexadecimal_digits_have_their_value(s[1]);
    text::law_hexadecimal_digits_have_their_value(s[2]);
    text::law_hexadecimal_digits_have_their_value(s[3]);
    text::law_hexadecimal_digits_have_their_value(s[4]);
    if token(s) is Some {
        assert forall|i: int| 0 <= i < 5 implies 0 <= text::ascii_digit(#[trigger] s[i]) || 65
            <= s[i] as int <= 70 by {
            text::law_hexadecimal_digits_have_their_value(s[i]);
        }
    }
}

/// One token that is no number spoils its line, and a list of numbers gives as many
/// samples.
pub proof fn law_a_bad_token_spoils_the_line(tokens: Seq<Seq<char>>, i: int)
    ensures
        0 <= i < tokens.len() && token(tokens[i]) is None ==> samples_of(tokens) is None,
        samples_of(tokens) matches Some(samples) ==> samples.len() == tokens.len(),
{
}

} // verus!
