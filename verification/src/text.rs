//! Text: what std knows of UTF-8, and numbers in hexadecimal and decimal.

use vstd::prelude::*;

verus! {

/// `core::str::from_utf8`: the text that `bytes` encode, or `None` where they
/// are not valid UTF-8.
#[verifier::external_body]
pub(crate) fn utf8_text(bytes: &[u8]) -> (text: Option<&str>)
    ensures
        match text {
            Some(t) => vstd::utf8::valid_utf8(bytes@) && t@ == vstd::utf8::decode_utf8(bytes@),
            None => !vstd::utf8::valid_utf8(bytes@),
        },
{
    core::str::from_utf8(bytes).ok()
}

/// What `String::from_utf8_lossy` makes of bytes.
pub uninterp spec fn lossy(bytes: Seq<u8>) -> Seq<char>;

/// `String::from_utf8_lossy`: the text that `bytes` encode, where they are valid
/// UTF-8. How invalid stretches are replaced is left unsaid; it depends on the
/// bytes alone.
#[verifier::external_body]
pub(crate) fn lossy_text(bytes: &[u8]) -> (text: String)
    ensures
        text@ == lossy(bytes@),
        vstd::utf8::valid_utf8(bytes@) ==> text@ == vstd::utf8::decode_utf8(bytes@),
{
    String::from_utf8_lossy(bytes).into_owned()
}

/// What std's `Debug` makes of a text: in double quotes, with escapes.
pub uninterp spec fn quoted(s: Seq<char>) -> Seq<char>;

/// `format!` with `{:?}` on a text: in double quotes, with what needs it escaped.
/// The escaping itself is left unsaid; it depends on the text alone.
#[verifier::external_body]
pub(crate) fn quote(s: &str) -> (q: String)
    ensures
        q@ == quoted(s@),
{
    format!("{:?}", s)
}

/// `String::push`: appends one character.
#[verifier::external_body]
pub(crate) fn push_char(s: &mut String, c: char)
    ensures
        final(s)@ == old(s)@.push(c),
{
    s.push(c);
}

/// The characters of `s`.
pub fn chars_of(s: &str) -> (chars: Vec<char>)
    ensures
        chars@ == s@,
{
    let mut chars: Vec<char> = Vec::new();
    for c in it: s.chars()
        invariant
            it.seq() == s@,
            chars@ == s@.take(it.index()),
    {
        chars.push(c);
        assert(chars@ =~= s@.take(it.index() + 1));
    }
    assert(s@.take(s@.len() as int) =~= s@);
    chars
}

/// Whether two byte lists are equal.
pub fn same_bytes(a: &[u8], b: &[u8]) -> (same: bool)
    ensures
        same == (a@ == b@),
{
    if a.len() != b.len() {
        return false;
    }
    let mut i: usize = 0;
    while i < a.len()
        invariant
            a.len() == b.len(),
            i <= a.len(),
            forall|j: int| 0 <= j < i ==> a@[j] == b@[j],
        decreases a.len() - i,
    {
        if a[i] != b[i] {
            return false;
        }
        i += 1;
    }
    assert(a@ =~= b@);
    true
}

/// Whether two character lists are equal.
pub fn same_chars(a: &[char], b: &[char]) -> (same: bool)
    ensures
        same == (a@ == b@),
{
    if a.len() != b.len() {
        return false;
    }
    let mut i: usize = 0;
    while i < a.len()
        invariant
            a.len() == b.len(),
            i <= a.len(),
            a@.take(i as int) == b@.take(i as int),
        decreases a.len() - i,
    {
        if a[i] != b[i] {
            return false;
        }
        assert(a@.take(i + 1) =~= a@.take(i as int).push(a@[i as int]));
        assert(b@.take(i + 1) =~= b@.take(i as int).push(b@[i as int]));
        i += 1;
    }
    assert(a@.take(i as int) =~= a@);
    assert(b@.take(i as int) =~= b@);
    true
}

/// Whether two texts are equal.
pub fn same_text(a: &str, b: &str) -> (same: bool)
    ensures
        same == (a@ == b@),
{
    proof {
        vstd::utf8::encode_utf8_decode_utf8(a@);
        vstd::utf8::encode_utf8_decode_utf8(b@);
    }
    same_bytes(a.as_bytes(), b.as_bytes())
}

/// Characters with the Unicode property White_Space.
pub open spec fn white(c: char) -> bool {
    ||| '\u{9}' <= c <= '\u{d}'
    ||| c == ' '
    ||| c == '\u{85}'
    ||| c == '\u{a0}'
    ||| c == '\u{1680}'
    ||| '\u{2000}' <= c <= '\u{200a}'
    ||| c == '\u{2028}'
    ||| c == '\u{2029}'
    ||| c == '\u{202f}'
    ||| c == '\u{205f}'
    ||| c == '\u{3000}'
}

/// Whether `c` has the Unicode property White_Space.
pub fn is_white(c: char) -> (b: bool)
    ensures
        b == white(c),
{
    ('\u{9}' <= c && c <= '\u{d}') || c == ' ' || c == '\u{85}' || c == '\u{a0}' || c
        == '\u{1680}' || ('\u{2000}' <= c && c <= '\u{200a}') || c == '\u{2028}' || c == '\u{2029}'
        || c == '\u{202f}' || c == '\u{205f}' || c == '\u{3000}'
}

/// The text without white space at its ends.
pub open spec fn trimmed(s: Seq<char>) -> Seq<char>
    decreases s.len(),
{
    if s.len() == 0 {
        s
    } else if white(s.first()) {
        trimmed(s.drop_first())
    } else if white(s.last()) {
        trimmed(s.drop_last())
    } else {
        s
    }
}

/// The part of `s` without white space at its ends, by its bounds.
pub fn trim(s: &[char]) -> (bounds: (usize, usize))
    ensures
        bounds.0 <= bounds.1 <= s.len(),
        s@.subrange(bounds.0 as int, bounds.1 as int) == trimmed(s@),
{
    let mut from: usize = 0;
    let mut to: usize = s.len();
    assert(s@.subrange(0, s.len() as int) =~= s@);
    while from < to && is_white(s[from])
        invariant
            from <= to <= s.len(),
            trimmed(s@.subrange(from as int, to as int)) == trimmed(s@),
        decreases to - from,
    {
        assert(s@.subrange(from as int, to as int).drop_first() =~= s@.subrange(
            from + 1,
            to as int,
        ));
        from += 1;
    }
    while from < to && is_white(s[to - 1])
        invariant
            from <= to <= s.len(),
            from < to ==> !white(s@[from as int]),
            trimmed(s@.subrange(from as int, to as int)) == trimmed(s@),
        decreases to - from,
    {
        assert(s@.subrange(from as int, to as int).drop_last() =~= s@.subrange(
            from as int,
            to - 1,
        ));
        to -= 1;
    }
    (from, to)
}

/// The value of an ASCII hexadecimal digit.
pub open spec fn hex_digit(c: char) -> Option<u32> {
    if '0' <= c <= '9' {
        Some((c as u32 - '0' as u32) as u32)
    } else if 'a' <= c <= 'f' {
        Some((c as u32 - 'a' as u32 + 10) as u32)
    } else if 'A' <= c <= 'F' {
        Some((c as u32 - 'A' as u32 + 10) as u32)
    } else {
        None
    }
}

/// The value of an ASCII hexadecimal digit.
pub fn hex_digit_value(c: char) -> (value: Option<u32>)
    ensures
        value == hex_digit(c),
        value matches Some(v) ==> v < 16,
{
    if '0' <= c && c <= '9' {
        Some(c as u32 - '0' as u32)
    } else if 'a' <= c && c <= 'f' {
        Some(c as u32 - 'a' as u32 + 10)
    } else if 'A' <= c && c <= 'F' {
        Some(c as u32 - 'A' as u32 + 10)
    } else {
        None
    }
}

/// The character of a digit below 16.
pub open spec fn digit_char(d: nat) -> char {
    if d < 10 {
        ('0' as u32 + d) as char
    } else {
        ('a' as u32 + d - 10) as char
    }
}

/// A number in decimal.
pub open spec fn decimal(n: nat) -> Seq<char>
    decreases n,
{
    if n < 10 {
        seq![digit_char(n)]
    } else {
        decimal(n / 10).push(digit_char(n % 10))
    }
}

/// A number in hexadecimal, in lower case.
pub open spec fn hexadecimal(n: nat) -> Seq<char>
    decreases n,
{
    if n < 16 {
        seq![digit_char(n)]
    } else {
        hexadecimal(n / 16).push(digit_char(n % 16))
    }
}

/// `t` with as many `fill` before it as make it `width` long.
pub open spec fn padded(fill: char, width: nat, t: Seq<char>) -> Seq<char> {
    if t.len() >= width {
        t
    } else {
        Seq::new((width - t.len()) as nat, |i: int| fill) + t
    }
}

/// The character of a digit below 16.
pub fn digit(d: u8) -> (c: char)
    requires
        d < 16,
    ensures
        c == digit_char(d as nat),
{
    if d < 10 {
        (48 + d) as char
    } else {
        (97 + (d - 10)) as char
    }
}

fn decimal_digits(n: u64) -> (v: Vec<char>)
    ensures
        v@ == decimal(n as nat),
    decreases n,
{
    if n < 10 {
        let mut v: Vec<char> = Vec::new();
        v.push(digit(n as u8));
        assert(v@ =~= decimal(n as nat));
        v
    } else {
        let mut v: Vec<char> = decimal_digits(n / 10);
        v.push(digit((n % 10) as u8));
        v
    }
}

fn hexadecimal_digits(n: u64) -> (v: Vec<char>)
    ensures
        v@ == hexadecimal(n as nat),
    decreases n,
{
    if n < 16 {
        let mut v: Vec<char> = Vec::new();
        v.push(digit(n as u8));
        assert(v@ =~= hexadecimal(n as nat));
        v
    } else {
        let mut v: Vec<char> = hexadecimal_digits(n / 16);
        v.push(digit((n % 16) as u8));
        v
    }
}

/// Appends characters.
pub fn push_chars(s: &mut String, chars: &[char])
    ensures
        final(s)@ == old(s)@ + chars@,
{
    let mut i: usize = 0;
    assert(old(s)@ + chars@.take(0) =~= old(s)@);
    while i < chars.len()
        invariant
            i <= chars.len(),
            s@ == old(s)@ + chars@.take(i as int),
        decreases chars.len() - i,
    {
        push_char(s, chars[i]);
        i += 1;
        assert(s@ =~= old(s)@ + chars@.take(i as int));
    }
    assert(chars@.take(i as int) =~= chars@);
}

fn push_padded(s: &mut String, fill: char, width: usize, chars: &[char])
    ensures
        final(s)@ == old(s)@ + padded(fill, width as nat, chars@),
{
    let mut n: usize = chars.len();
    assert(old(s)@ + Seq::new(0, |k: int| fill) =~= old(s)@);
    while n < width
        invariant
            chars.len() <= n,
            n <= width || n == chars.len(),
            s@ == old(s)@ + Seq::new((n - chars.len()) as nat, |k: int| fill),
        decreases width - n,
    {
        push_char(s, fill);
        n += 1;
        assert(s@ =~= old(s)@ + Seq::new((n - chars.len()) as nat, |k: int| fill));
    }
    push_chars(s, chars);
    assert(s@ =~= old(s)@ + padded(fill, width as nat, chars@));
}

/// Appends a number in decimal.
pub fn push_decimal(s: &mut String, n: u64)
    ensures
        final(s)@ == old(s)@ + decimal(n as nat),
{
    push_chars(s, &decimal_digits(n));
}

/// Appends a number in decimal, padded to a width.
pub fn push_decimal_padded(s: &mut String, fill: char, width: usize, n: u64)
    ensures
        final(s)@ == old(s)@ + padded(fill, width as nat, decimal(n as nat)),
{
    push_padded(s, fill, width, &decimal_digits(n));
}

/// Appends a number in hexadecimal, with leading zeros up to a width.
pub fn push_hex(s: &mut String, width: usize, n: u64)
    ensures
        final(s)@ == old(s)@ + padded('0', width as nat, hexadecimal(n as nat)),
{
    push_padded(s, '0', width, &hexadecimal_digits(n));
}

/// ASCII takes one byte a character.
pub proof fn lemma_ascii_len(s: Seq<char>)
    requires
        vstd::utf8::is_ascii_chars(s),
    ensures
        vstd::utf8::encode_utf8(s).len() == s.len(),
{
    vstd::utf8::is_ascii_chars_encode_utf8(s);
}

proof fn lemma_decimal_digits(n: nat, k: nat)
    requires
        n < vstd::arithmetic::power::pow(10, k),
        k > 0,
    ensures
        1 <= decimal(n).len() <= k,
        vstd::utf8::is_ascii_chars(decimal(n)),
    decreases k,
{
    reveal(vstd::arithmetic::power::pow);
    if n >= 10 {
        if k == 1 {
            assert(vstd::arithmetic::power::pow(10, 0) == 1);
        }
        assert(n / 10 < vstd::arithmetic::power::pow(10, (k - 1) as nat));
        lemma_decimal_digits(n / 10, (k - 1) as nat);
    }
}

/// A 32-bit number has at most ten digits.
pub proof fn lemma_decimal_short(n: nat)
    requires
        n <= u32::MAX,
    ensures
        1 <= decimal(n).len() <= 10,
        vstd::utf8::is_ascii_chars(decimal(n)),
{
    reveal_with_fuel(vstd::arithmetic::power::pow, 11);
    assert(vstd::arithmetic::power::pow(10, 10) == 10_000_000_000);
    lemma_decimal_digits(n, 10);
}

/// The bytes of two texts, one after the other, are the bytes of each.
pub proof fn lemma_encode_concat(a: Seq<char>, b: Seq<char>)
    ensures
        vstd::utf8::encode_utf8(a + b) == vstd::utf8::encode_utf8(a) + vstd::utf8::encode_utf8(b),
    decreases a.len(),
{
    if a.len() == 0 {
        assert(a + b =~= b);
        assert(vstd::utf8::encode_utf8(a) + vstd::utf8::encode_utf8(b)
            =~= vstd::utf8::encode_utf8(b));
    } else {
        lemma_encode_concat(a.drop_first(), b);
        assert((a + b).drop_first() =~= a.drop_first() + b);
        assert(vstd::utf8::encode_utf8(a + b) =~= vstd::utf8::encode_utf8(a)
            + vstd::utf8::encode_utf8(b));
    }
}

/// ASCII without a zero in it.
pub open spec fn plain(t: Seq<char>) -> bool {
    vstd::utf8::is_ascii_chars(t) && !t.contains('\0')
}

pub proof fn lemma_plain_concat(a: Seq<char>, b: Seq<char>)
    requires
        plain(a),
        plain(b),
    ensures
        plain(a + b),
{
    let s = a + b;
    if s.contains('\0') {
        let j = s.index_of('\0');
        if j < a.len() {
            assert(a[j] == '\0');
        } else {
            assert(b[j - a.len()] == '\0');
        }
    }
}

/// A 32-bit number in decimal is plain.
pub proof fn lemma_decimal_plain(n: nat)
    requires
        n <= u32::MAX,
    ensures
        plain(decimal(n)),
    decreases n,
{
    lemma_decimal_short(n);
    let s = decimal(n);
    if s.contains('\0') {
        let j = s.index_of('\0');
        assert(s[j] == '\0');
        if n >= 10 && j < s.len() - 1 {
            lemma_decimal_plain(n / 10);
            assert(decimal(n / 10)[j] == '\0');
        }
    }
}

/// A number below a power of 16 in hexadecimal, with leading zeros up to as many
/// digits, is plain and has just so many.
pub proof fn lemma_hex_plain(n: nat, width: nat)
    requires
        n < vstd::arithmetic::power::pow(16, width),
        width > 0,
    ensures
        plain(padded('0', width, hexadecimal(n))),
        padded('0', width, hexadecimal(n)).len() == width,
{
    lemma_hexadecimal_plain(n, width);
    let t = hexadecimal(n);
    let zeros = Seq::new((width - t.len()) as nat, |i: int| '0');
    if t.len() < width {
        lemma_plain_concat(zeros, t);
    }
}

proof fn lemma_hexadecimal_plain(n: nat, width: nat)
    requires
        n < vstd::arithmetic::power::pow(16, width),
        width > 0,
    ensures
        plain(hexadecimal(n)),
        1 <= hexadecimal(n).len() <= width,
    decreases width,
{
    reveal(vstd::arithmetic::power::pow);
    let s = hexadecimal(n);
    if n >= 16 {
        if width == 1 {
            assert(vstd::arithmetic::power::pow(16, 0) == 1);
        }
        assert(n / 16 < vstd::arithmetic::power::pow(16, (width - 1) as nat));
        lemma_hexadecimal_plain(n / 16, (width - 1) as nat);
        let one = seq![digit_char(n % 16)];
        assert(!one.contains('\0'));
        lemma_plain_concat(hexadecimal(n / 16), one);
        assert(s =~= hexadecimal(n / 16) + one);
    } else {
        assert(!s.contains('\0'));
    }
}

/// The value of a digit, by its place among the ASCII characters; -1 of any other.
pub open spec fn ascii_digit(c: char) -> int {
    let code = c as int;
    if 48 <= code <= 57 {
        code - 48
    } else if 97 <= code <= 102 {
        code - 87
    } else {
        -1
    }
}

/// The number that digits write in a base, the last one counting once.
pub open spec fn number_in(base: int, s: Seq<char>) -> int
    decreases s.len(),
{
    if s.len() == 0 {
        0
    } else {
        base * number_in(base, s.drop_last()) + ascii_digit(s.last())
    }
}

/// A number in decimal reads as that number: it has digits only, and no zero in front
/// unless it is zero.
pub proof fn law_decimal_reads_back(n: nat)
    ensures
        number_in(10, decimal(n)) == n,
        decimal(n).len() > 0,
        forall|i: int| 0 <= i < decimal(n).len() ==> 48 <= (#[trigger] decimal(n)[i]) as int <= 57,
        n > 0 ==> decimal(n)[0] as int != 48,
    decreases n,
{
    let s = decimal(n);
    if n < 10 {
        assert(s.drop_last() =~= Seq::<char>::empty());
        assert(number_in(10, s.drop_last()) == 0);
    } else {
        law_decimal_reads_back(n / 10);
        assert(s.drop_last() =~= decimal(n / 10));
        assert forall|i: int| 0 <= i < s.len() implies 48 <= (#[trigger] s[i]) as int <= 57 by {
            if i < s.len() - 1 {
                assert(s[i] == decimal(n / 10)[i]);
            }
        }
        assert(s[0] == decimal(n / 10)[0]);
    }
}

/// A number in hexadecimal reads as that number: it has digits and the letters `a` to
/// `f` only, and no zero in front unless it is zero.
pub proof fn law_hexadecimal_reads_back(n: nat)
    ensures
        number_in(16, hexadecimal(n)) == n,
        hexadecimal(n).len() > 0,
        forall|i: int|
            0 <= i < hexadecimal(n).len() ==> 0 <= ascii_digit(#[trigger] hexadecimal(n)[i]) < 16,
        n > 0 ==> hexadecimal(n)[0] as int != 48,
    decreases n,
{
    let s = hexadecimal(n);
    if n < 16 {
        assert(s.drop_last() =~= Seq::<char>::empty());
        assert(number_in(16, s.drop_last()) == 0);
    } else {
        law_hexadecimal_reads_back(n / 16);
        assert(s.drop_last() =~= hexadecimal(n / 16));
        assert forall|i: int| 0 <= i < s.len() implies 0 <= ascii_digit(#[trigger] s[i]) < 16 by {
            if i < s.len() - 1 {
                assert(s[i] == hexadecimal(n / 16)[i]);
            }
        }
        assert(s[0] == hexadecimal(n / 16)[0]);
    }
}

/// Digits of either case have their value, and nothing else has one.
pub proof fn law_hexadecimal_digits_have_their_value(c: char)
    ensures
        hex_digit(c) matches Some(v) ==> v < 16 && (v == ascii_digit(c) || 65 <= c as int <= 70 && v
            == c as int - 55),
        hex_digit(c) is None <==> ascii_digit(c) < 0 && !(65 <= c as int <= 70),
{
}

/// Filling up changes nothing behind the fill: the text is at the end, the fill before
/// it, and the whole is as long as asked for, or as the text where that is longer.
pub proof fn law_filling_up_keeps_the_text(fill: char, width: nat, t: Seq<char>, i: int)
    ensures
        ({
            let s = padded(fill, width, t);
            &&& s.len() == if t.len() >= width {
                t.len()
            } else {
                width
            }
            &&& 0 <= i < t.len() ==> s[s.len() - t.len() + i] == t[i]
            &&& 0 <= i < s.len() - t.len() ==> s[i] == fill
        }),
{
}

/// What is left of a text without the white space at its ends: it neither starts nor
/// ends with any, and only white space is gone. A text without any at its ends stays.
pub proof fn law_only_white_space_is_cut_off(s: Seq<char>) -> (at: int)
    ensures
        ({
            let t = trimmed(s);
            &&& 0 <= at && at + t.len() <= s.len()
            &&& t == s.subrange(at, at + t.len())
            &&& forall|i: int|
                0 <= i < at || at + t.len() <= i < s.len() ==> white(#[trigger] s[i])
            &&& t.len() > 0 ==> !white(t[0]) && !white(t.last())
            &&& s.len() > 0 && !white(s[0]) && !white(s.last()) ==> t == s
        }),
    decreases s.len(),
{
    if s.len() == 0 {
        assert(s.subrange(0, 0) =~= s);
        0
    } else if white(s.first()) {
        let rest = s.drop_first();
        let k = law_only_white_space_is_cut_off(rest);
        let t = trimmed(s);
        assert(s.subrange(k + 1, k + 1 + t.len()) =~= rest.subrange(k, k + t.len()));
        assert forall|i: int|
            0 <= i < k + 1 || k + 1 + t.len() <= i < s.len() implies white(#[trigger] s[i]) by {
            if i > 0 {
                assert(rest[i - 1] == s[i]);
            }
        }
        k + 1
    } else if white(s.last()) {
        let rest = s.drop_last();
        let k = law_only_white_space_is_cut_off(rest);
        let t = trimmed(s);
        assert(s.subrange(k, k + t.len()) =~= rest.subrange(k, k + t.len()));
        assert forall|i: int|
            0 <= i < k || k + t.len() <= i < s.len() implies white(#[trigger] s[i]) by {
            if i < s.len() - 1 {
                assert(rest[i] == s[i]);
            }
        }
        k
    } else {
        assert(s.subrange(0, s.len() as int) =~= s);
        0
    }
}

/// Spaces, tabs and line ends are white space; digits, letters and other visible ASCII
/// characters are not.
pub proof fn law_visible_characters_are_not_white(c: char)
    ensures
        white(' ') && white('\t') && white('\n') && white('\r'),
        33 <= c as int <= 126 ==> !white(c),
{
}

/// Whether a text is digits of a base that write a number.
pub open spec fn writes(base: int, t: Seq<char>, n: int) -> bool {
    &&& t.len() > 0
    &&& forall|i: int| 0 <= i < t.len() ==> 0 <= ascii_digit(#[trigger] t[i]) < base
    &&& number_in(base, t) == n
}

proof fn lemma_zeros_count_nothing(base: int, k: nat, t: Seq<char>)
    ensures
        number_in(base, Seq::new(k, |i: int| '0') + t) == number_in(base, t),
    decreases k + t.len(),
{
    let zeros = Seq::new(k, |i: int| '0');
    let s = zeros + t;
    if t.len() > 0 {
        lemma_zeros_count_nothing(base, k, t.drop_last());
        assert(s.drop_last() =~= zeros + t.drop_last());
    } else if k > 0 {
        let fewer = (k - 1) as nat;
        lemma_zeros_count_nothing(base, fewer, t);
        assert(s.drop_last() =~= Seq::new(fewer, |i: int| '0') + t);
        assert(base * 0 == 0) by (nonlinear_arith);
    } else {
        assert(s =~= t);
    }
}

/// A number in decimal or in hexadecimal, filled up with zeros or not, is digits that
/// write the number.
pub proof fn law_numbers_are_written(n: nat, width: nat)
    ensures
        writes(10, decimal(n), n as int),
        writes(10, padded('0', width, decimal(n)), n as int),
        writes(16, hexadecimal(n), n as int),
        writes(16, padded('0', width, hexadecimal(n)), n as int),
{
    law_decimal_reads_back(n);
    law_hexadecimal_reads_back(n);
    let d = decimal(n);
    assert forall|i: int| 0 <= i < d.len() implies 0 <= ascii_digit(#[trigger] d[i]) < 10 by {}
    let e = padded('0', width, d);
    if d.len() < width {
        let k = (width - d.len()) as nat;
        lemma_zeros_count_nothing(10, k, d);
        assert forall|i: int| 0 <= i < e.len() implies 0 <= ascii_digit(#[trigger] e[i]) < 10 by {
            if i >= k {
                assert(e[i] == d[i - k]);
            }
        }
    }
    let t = hexadecimal(n);
    let s = padded('0', width, t);
    if t.len() < width {
        let k = (width - t.len()) as nat;
        lemma_zeros_count_nothing(16, k, t);
        assert forall|i: int| 0 <= i < s.len() implies 0 <= ascii_digit(#[trigger] s[i]) < 16 by {
            if i >= k {
                assert(s[i] == t[i - k]);
            }
        }
    }
}

} // verus!
