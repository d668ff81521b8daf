//! The gateway's settings, from a file of `KEY=value` lines.

use vstd::prelude::*;

use crate::text;

verus! {

/// Characters before the first line end.
pub open spec fn line_len(s: Seq<char>) -> nat
    decreases s.len(),
{
    if s.len() == 0 || s[0] == '\n' {
        0
    } else {
        1 + line_len(s.skip(1))
    }
}

/// Characters before the first `=`; all of them where there is none.
pub open spec fn key_len(s: Seq<char>) -> nat
    decreases s.len(),
{
    if s.len() == 0 || s[0] == '=' {
        0
    } else {
        1 + key_len(s.skip(1))
    }
}

/// Key and value of a line, without white space around them. Comments and lines
/// without a `=` have none.
pub open spec fn setting(line: Seq<char>) -> Option<(Seq<char>, Seq<char>)> {
    let t = text::trimmed(line);
    let n = key_len(line) as int;
    if t.len() > 0 && t[0] == '#' || n == line.len() {
        None
    } else {
        Some((text::trimmed(line.take(n)), text::trimmed(line.skip(n + 1))))
    }
}

/// What a file says of a key: its last line with that key counts, and `so_far`
/// where there is none.
pub open spec fn value_in(s: Seq<char>, key: Seq<char>, so_far: Seq<char>) -> Seq<char>
    decreases s.len(),
{
    let n = line_len(s) as int;
    let now = match setting(s.take(n)) {
        Some((k, v)) => if k == key {
            v
        } else {
            so_far
        },
        None => so_far,
    };
    if n >= s.len() {
        now
    } else {
        value_in(s.skip(n + 1), key, now)
    }
}

proof fn lemma_line_of_joined(a: Seq<char>, b: Seq<char>)
    ensures
        line_len(a.push('\n') + b) == line_len(a) <= a.len(),
    decreases a.len(),
{
    let joined = a.push('\n') + b;
    if a.len() > 0 && a[0] != '\n' {
        lemma_line_of_joined(a.skip(1), b);
        assert(joined.skip(1) =~= a.skip(1).push('\n') + b);
    }
}

/// A file read after another one, on new lines, overrides it key by key.
pub proof fn law_later_lines_override(
    a: Seq<char>,
    b: Seq<char>,
    key: Seq<char>,
    so_far: Seq<char>,
)
    ensures
        value_in(a.push('\n') + b, key, so_far) == value_in(b, key, value_in(a, key, so_far)),
    decreases a.len(),
{
    let joined = a.push('\n') + b;
    let n = line_len(a) as int;
    lemma_line_of_joined(a, b);
    assert(joined.take(n) =~= a.take(n));
    if n == a.len() {
        assert(joined.skip(n + 1) =~= b);
    } else {
        let now = match setting(a.take(n)) {
            Some((k, v)) => if k == key {
                v
            } else {
                so_far
            },
            None => so_far,
        };
        law_later_lines_override(a.skip(n + 1), b, key, now);
        assert(joined.skip(n + 1) =~= a.skip(n + 1).push('\n') + b);
    }
}

/// The value of a line, if it has the key.
fn line_value(line: &[char], key: &[char]) -> (value: Option<Vec<char>>)
    ensures
        value matches Some(v) ==> setting(line@) == Some((key@, v@)),
        value is None ==> (setting(line@) matches Some((k, _)) ==> k != key@),
{
    let (from, to) = text::trim(line);
    if from < to && line[from] == '#' {
        return None;
    }
    let mut n: usize = 0;
    assert(line@.skip(0) =~= line@);
    while n < line.len() && line[n] != '='
        invariant
            n <= line.len(),
            key_len(line@) == n + key_len(line@.skip(n as int)),
        decreases line.len() - n,
    {
        assert(line@.skip(n as int).skip(1) =~= line@.skip(n + 1));
        n += 1;
    }
    assert(key_len(line@) == n);
    proof {
        if from < to {
            assert(text::trimmed(line@)[0] == line@[from as int]);
        }
    }
    if n == line.len() {
        return None;
    }
    let left = vstd::slice::slice_subrange(line, 0, n);
    let right = vstd::slice::slice_subrange(line, n + 1, line.len());
    assert(left@ =~= line@.take(n as int));
    assert(right@ =~= line@.skip(n + 1));
    let (kf, kt) = text::trim(left);
    let (vf, vt) = text::trim(right);
    if text::same_chars(vstd::slice::slice_subrange(left, kf, kt), key) {
        Some(vstd::slice::slice_to_vec(vstd::slice::slice_subrange(right, vf, vt)))
    } else {
        None
    }
}

/// The value of a key in a file; empty where the file does not have it.
pub fn secret(file: &str, key: &str) -> (value: String)
    ensures
        value@ == value_in(file@, key@, Seq::empty()),
{
    let chars: Vec<char> = text::chars_of(file);
    let wanted: Vec<char> = text::chars_of(key);
    let s: &[char] = chars.as_slice();
    let mut value: Vec<char> = Vec::new();
    let mut pos: usize = 0;
    let mut done: bool = false;
    assert(s@.skip(0) =~= s@);
    assert(value@ =~= Seq::<char>::empty());
    while !done
        invariant
            s@ == file@,
            wanted@ == key@,
            pos <= s.len(),
            !done ==> value_in(s@.skip(pos as int), key@, value@) == value_in(
                file@,
                key@,
                Seq::empty(),
            ),
            done ==> value@ == value_in(file@, key@, Seq::empty()),
        decreases (if done { 0 } else { s.len() - pos + 1 }),
    {
        let ghost rest = s@.skip(pos as int);
        let mut end: usize = pos;
        while end < s.len() && s[end] != '\n'
            invariant
                pos <= end <= s.len(),
                rest == s@.skip(pos as int),
                line_len(rest) == end - pos + line_len(s@.skip(end as int)),
            decreases s.len() - end,
        {
            assert(s@.skip(end as int).skip(1) =~= s@.skip(end + 1));
            end += 1;
        }
        assert(line_len(rest) == end - pos);
        let line = vstd::slice::slice_subrange(s, pos, end);
        assert(line@ =~= rest.take(end - pos));
        if let Some(v) = line_value(line, wanted.as_slice()) {
            value = v;
        }
        if end == s.len() {
            done = true;
        } else {
            assert(rest.skip(end - pos + 1) =~= s@.skip(end + 1));
            pos = end + 1;
        }
    }
    let mut out: String = String::new();
    text::push_chars(&mut out, value.as_slice());
    assert(out@ =~= value@);
    out
}

/// The name that this unit's topics start with: what the file says, or `aq`.
pub fn unit_id(file: &str) -> (id: String)
    ensures
        id@ == {
            let given = value_in(file@, "AQ_ID"@, Seq::empty());
            if given.len() == 0 {
                "aq"@
            } else {
                given
            }
        },
{
    let given: String = secret(file, "AQ_ID");
    if text::same_text(given.as_str(), "") {
        proof {
            reveal_strlit("");
        }
        "aq".to_owned()
    } else {
        proof {
            reveal_strlit("");
            if given@.len() == 0 {
                assert(given@ =~= ""@);
            }
        }
        given
    }
}

/// The byte that two characters write in hexadecimal, or one with a plus before
/// it; 0 for anything else.
pub open spec fn pair_value(a: u8, b: u8) -> u8 {
    let hi = text::hex_digit(a as char);
    let lo = text::hex_digit(b as char);
    if a == 43 && lo is Some {
        lo->0 as u8
    } else if hi is Some && lo is Some {
        (16 * hi->0 + lo->0) as u8
    } else {
        0
    }
}

/// The key that hexadecimal digits write: 32 bytes. What is missing is 0, and what
/// is too much is cut off.
pub open spec fn key_bytes(hex: Seq<u8>) -> Seq<u8> {
    Seq::new(
        32,
        |i: int|
            if 2 * i + 1 < hex.len() {
                pair_value(hex[2 * i], hex[2 * i + 1])
            } else {
                0
            },
    )
}

/// The public key for updates, out of its hexadecimal digits.
pub fn update_key(hex: &str) -> (key: [u8; 32])
    requires
        vstd::utf8::encode_utf8(hex@).len() % 2 == 0,
        forall|i: int|
            0 <= i <= vstd::utf8::encode_utf8(hex@).len() && i % 2 == 0
                ==> #[trigger] vstd::utf8::is_char_boundary(vstd::utf8::encode_utf8(hex@), i),
    ensures
        key@ == key_bytes(vstd::utf8::encode_utf8(hex@)),
{
    let digits: &[u8] = hex.as_bytes();
    let mut key: [u8; 32] = [0u8; 32];
    let mut i: usize = 0;
    while i < 32 && 2 * i + 1 < digits.len()
        invariant
            i <= 32,
            key@.len() == 32,
            forall|j: int| 0 <= j < i ==> #[trigger] key@[j] == key_bytes(digits@)[j],
            forall|j: int| i <= j < 32 ==> #[trigger] key@[j] == 0,
            i > 0 ==> 2 * i - 1 < digits.len(),
        decreases 32 - i,
    {
        let a: u8 = digits[2 * i];
        let b: u8 = digits[2 * i + 1];
        let hi: Option<u32> = text::hex_digit_value(a as char);
        let lo: Option<u32> = text::hex_digit_value(b as char);
        key[i] = match (hi, lo) {
            (Some(h), Some(l)) => (16 * h + l) as u8,
            (None, Some(l)) => if a == 43 {
                l as u8
            } else {
                0
            },
            _ => 0,
        };
        i += 1;
    }
    assert(key@ =~= key_bytes(digits@));
    key
}

/// Numbers with a comma and a space between them.
pub open spec fn listed(bytes: Seq<u8>) -> Seq<char>
    decreases bytes.len(),
{
    if bytes.len() == 0 {
        Seq::empty()
    } else if bytes.len() == 1 {
        text::decimal(bytes[0] as nat)
    } else {
        listed(bytes.drop_last()) + ", "@ + text::decimal(bytes.last() as nat)
    }
}

/// The source line that gives the firmware its key for updates.
pub fn key_source(key: &[u8; 32]) -> (line: String)
    ensures
        line@ == "pub const OTA_PUBKEY: [u8; 32] = ["@ + listed(key@) + "];\n"@,
{
    let mut line: String = "pub const OTA_PUBKEY: [u8; 32] = [".to_owned();
    let ghost start = line@;
    text::push_decimal(&mut line, key[0] as u64);
    assert(key@.take(1)[0] == key@[0]);
    let mut i: usize = 1;
    while i < 32
        invariant
            1 <= i <= 32,
            line@ == start + listed(key@.take(i as int)),
        decreases 32 - i,
    {
        line.append(", ");
        text::push_decimal(&mut line, key[i] as u64);
        assert(key@.take(i + 1).drop_last() =~= key@.take(i as int));
        i += 1;
    }
    assert(key@.take(32) =~= key@);
    line.append("];\n");
    line
}

/// Whether a text has no white space at its ends.
pub open spec fn tight(s: Seq<char>) -> bool {
    s.len() > 0 ==> !text::white(s[0]) && !text::white(s.last())
}

proof fn lemma_key_len(key: Seq<char>, rest: Seq<char>)
    requires
        !key.contains('='),
    ensures
        key_len(key + seq!['='] + rest) == key.len(),
    decreases key.len(),
{
    let s = key + seq!['='] + rest;
    if key.len() > 0 {
        assert(key[0] == s[0]);
        assert(key.contains(key[0]));
        let k = key.skip(1);
        if k.contains('=') {
            assert(key[k.index_of('=') + 1] == '=');
        }
        lemma_key_len(k, rest);
        assert(s.skip(1) =~= k + seq!['='] + rest);
    }
}

proof fn lemma_no_key(s: Seq<char>)
    requires
        !s.contains('='),
    ensures
        key_len(s) == s.len(),
    decreases s.len(),
{
    if s.len() > 0 {
        assert(s.contains(s[0]));
        let k = s.skip(1);
        if k.contains('=') {
            assert(s[k.index_of('=') + 1] == '=');
        }
        lemma_no_key(k);
    }
}

/// A line `KEY=value` sets the key to the value, whatever the value holds: also where
/// there is a `=` in it.
pub proof fn law_a_line_sets_its_key(key: Seq<char>, value: Seq<char>)
    requires
        key.len() > 0,
        tight(key),
        tight(value),
        key[0] != '#',
        !key.contains('='),
    ensures
        setting(key + seq!['='] + value) == Some((key, value)),
{
    let line = key + seq!['='] + value;
    lemma_key_len(key, value);
    assert(line.take(key.len() as int) =~= key);
    assert(line.skip(key.len() as int + 1) =~= value);
    let _ = text::law_only_white_space_is_cut_off(key);
    let at = text::law_only_white_space_is_cut_off(value);
    if value.len() == 0 {
        assert(text::trimmed(value) =~= value);
    }
    let at = text::law_only_white_space_is_cut_off(line);
    if at > 0 {
        assert(text::white(line[0]));
    }
    if text::trimmed(line).len() == 0 {
        assert(text::white(line[0]));
    }
    assert(line[0] == key[0]);
}

/// A line without a `=`, and one that starts with a hash behind white space, set
/// nothing.
pub proof fn law_other_lines_set_nothing(line: Seq<char>, at: int)
    requires
        !line.contains('=') || (0 <= at < line.len() && line[at] == '#' && forall|i: int|
            0 <= i < at ==> text::white(#[trigger] line[i])),
    ensures
        setting(line) is None,
{
    if !line.contains('=') {
        lemma_no_key(line);
    } else {
        let from = text::law_only_white_space_is_cut_off(line);
        let t = text::trimmed(line);
        if at < from || from + t.len() <= at {
            assert(text::white(line[at]));
        }
        if from < at {
            assert(text::white(line[from]));
            assert(t[0] == line[from]);
        }
        assert(t[0] == line[at]);
    }
}

/// A file of one line tells what the line sets, and of other keys nothing.
pub proof fn law_a_file_of_one_line_tells_it(
    key: Seq<char>,
    value: Seq<char>,
    asked: Seq<char>,
    so_far: Seq<char>,
)
    requires
        key.len() > 0,
        tight(key),
        tight(value),
        key[0] != '#',
        !key.contains('='),
        !key.contains('\n'),
        !value.contains('\n'),
    ensures
        value_in(key + seq!['='] + value, asked, so_far) == if asked == key {
            value
        } else {
            so_far
        },
{
    let line = key + seq!['='] + value;
    law_a_line_sets_its_key(key, value);
    assert(!line.contains('\n')) by {
        if line.contains('\n') {
            let i = line.index_of('\n');
            assert(line[i] == '\n');
            if i < key.len() {
                assert(key[i] == '\n');
            } else if i > key.len() {
                assert(value[i - key.len() - 1] == '\n');
            }
        }
    }
    lemma_one_line(line);
    assert(line.take(line.len() as int) =~= line);
}

proof fn lemma_one_line(s: Seq<char>)
    requires
        !s.contains('\n'),
    ensures
        line_len(s) == s.len(),
    decreases s.len(),
{
    if s.len() > 0 {
        assert(s.contains(s[0]));
        let k = s.skip(1);
        if k.contains('\n') {
            assert(s[k.index_of('\n') + 1] == '\n');
        }
        lemma_one_line(k);
    }
}

/// Two hexadecimal digits write the byte of the key at their place: the digits of a key
/// give the key back. What is missing is 0.
pub proof fn law_digits_give_the_key_back(hex: Seq<u8>, key: Seq<u8>)
    requires
        key.len() == 32,
        hex.len() == 64,
        forall|i: int|
            0 <= i < 32 ==> text::writes(
                16,
                seq![hex[2 * i] as char, hex[2 * i + 1] as char],
                (#[trigger] key[i]) as int,
            ),
    ensures
        key_bytes(hex) == key,
        key_bytes(Seq::empty()) == Seq::new(32, |i: int| 0u8),
{
    assert forall|i: int| 0 <= i < 32 implies #[trigger] key_bytes(hex)[i] == key[i] by {
        let a = hex[2 * i] as char;
        let b = hex[2 * i + 1] as char;
        let t = seq![a, b];
        assert(t.drop_last() =~= seq![a]);
        assert(seq![a].drop_last() =~= Seq::<char>::empty());
        reveal_with_fuel(text::number_in, 3);
        assert(text::number_in(16, t) == 16 * text::ascii_digit(a) + text::ascii_digit(b));
        assert(text::writes(16, t, key[i] as int));
        assert(0 <= text::ascii_digit(t[0]) < 16);
        assert(0 <= text::ascii_digit(t[1]) < 16);
        text::law_hexadecimal_digits_have_their_value(a);
        text::law_hexadecimal_digits_have_their_value(b);
    }
    assert(key_bytes(hex) =~= key);
    assert(key_bytes(Seq::empty()) =~= Seq::new(32, |i: int| 0u8));
}

/// Lists of bytes join in the text, and one byte is written in decimal.
pub proof fn law_listed_bytes_join(a: Seq<u8>, b: Seq<u8>, x: u8)
    requires
        a.len() > 0,
        b.len() > 0,
    ensures
        listed(a + b) == listed(a) + ", "@ + listed(b),
        text::writes(10, listed(seq![x]), x as int),
    decreases b.len(),
{
    text::law_numbers_are_written(x as nat, 0);
    let s = a + b;
    if b.len() == 1 {
        assert(s.drop_last() =~= a);
    } else {
        law_listed_bytes_join(a, b.drop_last(), x);
        assert(s.drop_last() =~= a + b.drop_last());
    }
    assert(listed(s) =~= listed(a) + ", "@ + listed(b));
}

/// What a call of [`secret`] gives for a file of one line `KEY=value`: the value of that
/// key, and nothing for any other.
pub proof fn law_a_secret_is_read(
    file: &str,
    key: &str,
    found: String,
    name: Seq<char>,
    value: Seq<char>,
)
    requires
        call_ensures(secret, (file, key), found),
        file@ == name + seq!['='] + value,
        name.len() > 0,
        tight(name),
        tight(value),
        name[0] != '#',
        !name.contains('='),
        !name.contains('\n'),
        !value.contains('\n'),
    ensures
        key@ == name ==> found@ == value,
        key@ != name ==> found@.len() == 0,
{
    law_a_file_of_one_line_tells_it(name, value, key@, Seq::empty());
}

/// What a call of [`update_key`] gives for 64 hexadecimal digits: the bytes that they
/// write.
pub proof fn law_a_key_is_read(hex: &str, key: [u8; 32], bytes: Seq<u8>)
    requires
        call_ensures(update_key, (hex,), key),
        bytes.len() == 32,
        vstd::utf8::encode_utf8(hex@).len() == 64,
        forall|i: int|
            0 <= i < 32 ==> text::writes(
                16,
                seq![
                    vstd::utf8::encode_utf8(hex@)[2 * i] as char,
                    vstd::utf8::encode_utf8(hex@)[2 * i + 1] as char,
                ],
                (#[trigger] bytes[i]) as int,
            ),
    ensures
        key@ == bytes,
{
    law_digits_give_the_key_back(vstd::utf8::encode_utf8(hex@), bytes);
}

/// What a call of [`unit_id`] gives: the id in the file, or `aq` where there is none.
pub proof fn law_a_unit_has_an_id(file: &str, id: String, value: Seq<char>)
    requires
        call_ensures(unit_id, (file,), id),
        tight(value),
        !value.contains('\n'),
        file@ == "AQ_ID"@ + seq!['='] + value || file@.len() == 0,
    ensures
        file@.len() == 0 ==> id@ == "aq"@,
        file@ == "AQ_ID"@ + seq!['='] + value && value.len() > 0 ==> id@ == value,
        file@ == "AQ_ID"@ + seq!['='] + value && value.len() == 0 ==> id@ == "aq"@,
{
    reveal_strlit("AQ_ID");
    let key = "AQ_ID"@;
    if file@.len() == 0 {
        assert(file@.take(0) =~= file@);
        law_other_lines_set_nothing(file@, 0);
    } else {
        assert(!key.contains('=') && !key.contains('\n'));
        law_a_file_of_one_line_tells_it(key, value, key, Seq::empty());
    }
}

/// What a call of [`key_source`] gives: a line that lists the key's bytes.
pub proof fn law_the_source_lists_the_key(key: [u8; 32], line: String)
    requires
        call_ensures(key_source, (&key,), line),
    ensures
        line@ == "pub const OTA_PUBKEY: [u8; 32] = ["@ + listed(key@) + "];\n"@,
{
}

} // verus!
