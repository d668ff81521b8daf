//! Sizes as the names of template directories spell them: `WxH`.

use vstd::prelude::*;

use crate::text;

verus! {

/// The number that decimal digits spell.
pub open spec fn digits_value(s: Seq<char>) -> nat
    decreases s.len(),
{
    if s.len() == 0 {
        0
    } else {
        10 * digits_value(s.drop_last()) + (s.last() as nat - '0' as nat) as nat
    }
}

/// Whether a text is decimal digits, at least one.
pub open spec fn is_digits(s: Seq<char>) -> bool {
    s.len() > 0 && forall|i: int| 0 <= i < s.len() ==> '0' <= #[trigger] s[i] <= '9'
}

/// A number of 16 bits in decimal, with or without a plus in front.
pub open spec fn number(s: Seq<char>) -> Option<u16> {
    let digits = if s.len() > 0 && s[0] == '+' {
        s.skip(1)
    } else {
        s
    };
    if is_digits(digits) && digits_value(digits) <= 65535 {
        Some(digits_value(digits) as u16)
    } else {
        None
    }
}

/// Where the first `x` is; the length where there is none.
pub open spec fn first_x(s: Seq<char>) -> nat
    decreases s.len(),
{
    if s.len() == 0 || s[0] == 'x' {
        0
    } else {
        1 + first_x(s.skip(1))
    }
}

/// Width and height as a name spells them: two numbers around the first `x`.
pub open spec fn size_of(s: Seq<char>) -> Option<(u16, u16)> {
    let n = first_x(s) as int;
    if n == s.len() {
        None
    } else {
        match (number(s.take(n)), number(s.skip(n + 1))) {
            (Some(w), Some(h)) => Some((w, h)),
            _ => None,
        }
    }
}

proof fn lemma_value_grows(s: Seq<char>, n: int)
    requires
        0 <= n <= s.len(),
        is_digits(s),
    ensures
        digits_value(s.take(n)) <= digits_value(s),
    decreases s.len() - n,
{
    if n < s.len() {
        lemma_value_grows(s, n + 1);
        assert(s.take(n + 1).drop_last() =~= s.take(n));
        assert(s.take(n + 1).last() == s[n]);
    } else {
        assert(s.take(n) =~= s);
    }
}

/// Reads a number out of `chars[from..to]`.
fn read_number(chars: &Vec<char>, from: usize, to: usize) -> (n: Option<u16>)
    requires
        from <= to <= chars@.len(),
    ensures
        n == number(chars@.subrange(from as int, to as int)),
{
    let ghost s = chars@.subrange(from as int, to as int);
    let start: usize = if from < to && chars[from] == '+' {
        from + 1
    } else {
        from
    };
    let ghost digits = chars@.subrange(start as int, to as int);
    proof {
        if start > from {
            assert(s.skip(1) =~= digits);
        }
    }
    if start == to {
        return None;
    }
    let mut value: u32 = 0;
    let mut i: usize = start;
    assert(digits.take(0) =~= Seq::<char>::empty());
    while i < to
        invariant
            start <= i <= to <= chars@.len(),
            start < to,
            digits == chars@.subrange(start as int, to as int),
            number(s) == (if is_digits(digits) && digits_value(digits) <= 65535 {
                Some(digits_value(digits) as u16)
            } else {
                None
            }),
            s == chars@.subrange(from as int, to as int),
            forall|j: int| 0 <= j < i - start ==> '0' <= #[trigger] digits[j] <= '9',
            value == digits_value(digits.take(i - start)),
            value <= 65535,
        decreases to - i,
    {
        let c: char = chars[i];
        assert(digits[i - start] == c);
        if !('0' <= c && c <= '9') {
            return None;
        }
        value = 10 * value + (c as u32 - '0' as u32);
        proof {
            assert(digits.take(i + 1 - start).drop_last() =~= digits.take(i - start));
            assert(digits.take(i + 1 - start).last() == c);
        }
        i += 1;
        if value > 65535 {
            proof {
                if is_digits(digits) {
                    lemma_value_grows(digits, i - start);
                }
            }
            return None;
        }
    }
    assert(digits.take(i - start) =~= digits);
    Some(value as u16)
}

/// Width and height as a directory's name spells them.
pub fn parse_size(name: &str) -> (size: Option<(u16, u16)>)
    ensures
        size == size_of(name@),
{
    let chars: Vec<char> = text::chars_of(name);
    let mut x: usize = 0;
    assert(chars@.skip(0) =~= chars@);
    while x < chars.len() && chars[x] != 'x'
        invariant
            x <= chars.len(),
            first_x(chars@) == x + first_x(chars@.skip(x as int)),
        decreases chars.len() - x,
    {
        assert(chars@.skip(x as int).skip(1) =~= chars@.skip(x + 1));
        x += 1;
    }
    assert(first_x(chars@) == x);
    if x == chars.len() {
        return None;
    }
    proof {
        assert(chars@.subrange(0, x as int) =~= chars@.take(x as int));
        assert(chars@.subrange(x + 1, chars@.len() as int) =~= chars@.skip(x + 1));
    }
    match (read_number(&chars, 0, x), read_number(&chars, x + 1, chars.len())) {
        (Some(w), Some(h)) => Some((w, h)),
        _ => None,
    }
}

proof fn lemma_decimal_value(s: Seq<char>)
    requires
        forall|i: int| 0 <= i < s.len() ==> 48 <= (#[trigger] s[i]) as int <= 57,
    ensures
        digits_value(s) == text::number_in(10, s),
    decreases s.len(),
{
    if s.len() > 0 {
        lemma_decimal_value(s.drop_last());
    }
}

proof fn lemma_first_x(a: Seq<char>, b: Seq<char>)
    requires
        !a.contains('x'),
    ensures
        first_x(a + seq!['x'] + b) == a.len(),
    decreases a.len(),
{
    let s = a + seq!['x'] + b;
    if a.len() > 0 {
        let rest = a.skip(1);
        assert(a[0] != 'x') by {
            assert(a.contains(a[0]));
        }
        if rest.contains('x') {
            let j = rest.index_of('x');
            assert(a[j + 1] == 'x');
        }
        lemma_first_x(rest, b);
        assert(s.skip(1) =~= rest + seq!['x'] + b);
    }
}

/// A size reads back from its name: width and height in decimal, with an `x` between
/// them.
pub proof fn law_sizes_read_back(w: u16, h: u16)
    ensures
        size_of(text::decimal(w as nat) + seq!['x'] + text::decimal(h as nat)) == Some((w, h)),
{
    let a = text::decimal(w as nat);
    let b = text::decimal(h as nat);
    let s = a + seq!['x'] + b;
    text::law_decimal_reads_back(w as nat);
    text::law_decimal_reads_back(h as nat);
    lemma_decimal_value(a);
    lemma_decimal_value(b);
    if a.contains('x') {
        let j = a.index_of('x');
        assert(48 <= a[j] as int <= 57);
    }
    lemma_first_x(a, b);
    assert(s.take(a.len() as int) =~= a);
    assert(s.skip(a.len() as int + 1) =~= b);
    assert(a[0] != '+' && b[0] != '+');
}

/// A name without an `x`, or with anything but digits around the first one, is no
/// size.
pub proof fn law_other_names_are_no_sizes(a: Seq<char>, b: Seq<char>, i: int)
    requires
        !a.contains('x'),
        0 <= i < b.len() && !('0' <= b[i] <= '9') && (i > 0 || b[i] != '+') || b.len() == 0,
    ensures
        size_of(a) is None,
        size_of(a + seq!['x'] + b) is None,
{
    let s = a + seq!['x'] + b;
    lemma_no_x(a);
    lemma_first_x(a, b);
    assert(s.skip(a.len() as int + 1) =~= b);
    if b.len() > 0 {
        if b[0] == '+' {
            assert(b.skip(1)[i - 1] == b[i]);
        }
    }
}

proof fn lemma_no_x(a: Seq<char>)
    requires
        !a.contains('x'),
    ensures
        first_x(a) == a.len(),
    decreases a.len(),
{
    if a.len() > 0 {
        assert(a.contains(a[0]));
        if a.skip(1).contains('x') {
            let j = a.skip(1).index_of('x');
            assert(a[j + 1] == 'x');
        }
        lemma_no_x(a.skip(1));
    }
}

/// What a call of [`parse_size`] gives for a width and a height with an x between them:
/// these two.
pub proof fn law_a_written_size_is_read(name: &str, w: u16, h: u16, size: Option<(u16, u16)>)
    requires
        call_ensures(parse_size, (name,), size),
        name@ == text::decimal(w as nat) + seq!['x'] + text::decimal(h as nat),
    ensures
        size == Some((w, h)),
{
    law_sizes_read_back(w, h);
}

/// Numbers of more than 16 bits are no sizes; a plus and zeros in front change nothing.
pub proof fn law_numbers_fit_16_bits(n: nat)
    ensures
        n > 65535 ==> number(text::decimal(n)) is None,
        n <= 65535 ==> number(text::decimal(n)) == Some(n as u16),
        n <= 65535 ==> number(seq!['+'] + text::decimal(n)) == Some(n as u16),
{
    text::law_decimal_reads_back(n);
    let s = text::decimal(n);
    lemma_digits_value(s);
    assert((seq!['+'] + s).skip(1) =~= s);
}

proof fn lemma_digits_value(s: Seq<char>)
    requires
        forall|i: int| 0 <= i < s.len() ==> 48 <= (#[trigger] s[i]) as int <= 57,
    ensures
        digits_value(s) == text::number_in(10, s),
        s.len() > 0 ==> is_digits(s),
    decreases s.len(),
{
    if s.len() > 0 {
        lemma_digits_value(s.drop_last());
    }
}

} // verus!
