//! The latest value of each row.

use vstd::prelude::*;

use crate::fixed;
use crate::host::decoder as glyph;
use crate::text;

verus! {

/// A value that was read: the row's name, and what it shows.
pub struct RowUpdate {
    pub name: &'static str,
    pub value: heapless::String<16>,
}

/// A value that was read, as a mathematical value.
pub struct Update {
    pub name: Seq<char>,
    pub value: Seq<char>,
}

impl View for RowUpdate {
    type V = Update;

    open spec fn view(&self) -> Update {
        Update { name: self.name@, value: fixed::text16(self.value) }
    }
}

/// What a text of 16 bytes takes of a value: all of it, or nothing where it does
/// not fit.
pub open spec fn short(value: Seq<char>) -> Seq<char> {
    if vstd::utf8::encode_utf8(value).len() <= 16 {
        value
    } else {
        Seq::empty()
    }
}

/// A value in 16 bytes.
pub fn short_value(value: &str) -> (v: heapless::String<16>)
    ensures
        fixed::text16(v) == short(value@),
{
    let mut v = fixed::text16_new();
    assert(Seq::<char>::empty() + value@ =~= value@);
    let _ = fixed::text16_push_str(&mut v, value);
    v
}

/// The row that has a name.
pub open spec fn row_of(name: Seq<char>) -> Option<int> {
    let names = glyph::row_names();
    if name == names[0] {
        Some(0)
    } else if name == names[1] {
        Some(1)
    } else if name == names[2] {
        Some(2)
    } else if name == names[3] {
        Some(3)
    } else if name == names[4] {
        Some(4)
    } else {
        None
    }
}

/// No two rows have the same name.
pub proof fn law_row_names_differ(i: int, j: int)
    requires
        0 <= i < glyph::ROWS_LEN,
        0 <= j < glyph::ROWS_LEN,
        glyph::row_names()[i] == glyph::row_names()[j],
    ensures
        i == j,
{
    reveal_strlit("pm25");
    reveal_strlit("tvoc");
    reveal_strlit("co2");
    reveal_strlit("temp");
    reveal_strlit("humidity");
    let names = glyph::row_names();
    assert(names[0][0] == 'p' && names[1][1] == 'v' && names[3][1] == 'e');
    assert(names[2].len() == 3 && names[4].len() == 8);
}

/// Finds a row by its name.
pub fn row_index(name: &str) -> (row: Option<usize>)
    ensures
        match row {
            Some(i) => i < glyph::ROWS_LEN && row_of(name@) == Some(i as int),
            None => row_of(name@) is None,
        },
{
    let ghost names = glyph::row_names();
    let mut i: usize = 0;
    while i < glyph::ROWS_LEN
        invariant
            i <= glyph::ROWS_LEN,
            names == glyph::row_names(),
            names.len() == glyph::ROWS_LEN,
            forall|j: int| 0 <= j < i ==> #[trigger] names[j] != name@,
        decreases glyph::ROWS_LEN - i,
    {
        if text::same_text(glyph::row_name(i), name) {
            assert(names[i as int] == name@);
            return Some(i);
        }
        i += 1;
    }
    None
}

/// The latest value of each row, in the order of the rows; empty where none was
/// seen yet.
pub struct LatestValues {
    values: Vec<heapless::String<16>>,
}

/// What short texts say.
pub open spec fn says(values: Seq<heapless::String<16>>) -> Seq<Seq<char>> {
    values.map_values(|v: heapless::String<16>| fixed::text16(v))
}

impl View for LatestValues {
    type V = Seq<Seq<char>>;

    closed spec fn view(&self) -> Seq<Seq<char>> {
        says(self.values@)
    }
}

/// As many empty texts as there are rows.
pub fn empty_texts() -> (texts: Vec<heapless::String<16>>)
    ensures
        texts@.len() == glyph::ROWS_LEN,
        says(texts@) == Seq::new(glyph::ROWS_LEN as nat, |i: int| Seq::<char>::empty()),
{
    let mut texts: Vec<heapless::String<16>> = Vec::new();
    let mut i: usize = 0;
    while i < glyph::ROWS_LEN
        invariant
            i <= glyph::ROWS_LEN,
            texts@.len() == i,
            forall|j: int| 0 <= j < i ==> #[trigger] fixed::text16(texts@[j]) == Seq::<char>::empty(),
        decreases glyph::ROWS_LEN - i,
    {
        texts.push(fixed::text16_new());
        i += 1;
    }
    assert(says(texts@) =~= Seq::new(glyph::ROWS_LEN as nat, |i: int| Seq::<char>::empty()));
    texts
}

/// Puts a text in the place of another.
pub fn set_text(texts: &mut Vec<heapless::String<16>>, i: usize, t: &str)
    requires
        i < old(texts)@.len(),
    ensures
        final(texts)@.len() == old(texts)@.len(),
        says(final(texts)@) == says(old(texts)@).update(i as int, short(t@)),
{
    let ghost before = texts@;
    texts.set(i, short_value(t));
    assert(says(texts@) =~= says(before).update(i as int, short(t@)));
}

impl LatestValues {
    /// There is one for each row.
    pub closed spec fn wf(&self) -> bool {
        self.values@.len() == glyph::ROWS_LEN
    }

    /// No value seen yet.
    pub fn new() -> (latest: Self)
        ensures
            latest.wf(),
            latest@ == Seq::new(glyph::ROWS_LEN as nat, |i: int| Seq::<char>::empty()),
    {
        LatestValues { values: empty_texts() }
    }

    /// The latest value of a row.
    pub fn get(&self, i: usize) -> (value: &str)
        requires
            self.wf(),
            i < glyph::ROWS_LEN,
        ensures
            value@ == self@[i as int],
            vstd::utf8::encode_utf8(value@).len() <= 16,
    {
        fixed::text16_str(&self.values[i])
    }
}

/// Records a value by its row's name; a name that there is no row for changes
/// nothing.
pub fn record_value(latest: &mut LatestValues, name: &str, value: &str)
    requires
        old(latest).wf(),
    ensures
        final(latest).wf(),
        final(latest)@ == match row_of(name@) {
            Some(i) => old(latest)@.update(i, short(value@)),
            None => old(latest)@,
        },
{
    if let Some(i) = row_index(name) {
        set_text(&mut latest.values, i, value);
    }
}

/// What was recorded under a row's name is there until something else is; the
/// other rows keep theirs.
pub proof fn law_recorded_value_is_latest(latest: Seq<Seq<char>>, i: int, value: Seq<char>, j: int)
    requires
        latest.len() == glyph::ROWS_LEN,
        0 <= i < glyph::ROWS_LEN,
        0 <= j < glyph::ROWS_LEN,
    ensures
        row_of(glyph::row_names()[i]) == Some(i),
        latest.update(i, short(value))[j] == if i == j {
            short(value)
        } else {
            latest[j]
        },
{
    law_row_names_differ(row_of(glyph::row_names()[i])->0, i);
}

/// The five rows are found by their names, and by nothing else.
pub proof fn law_rows_are_found_by_name(name: Seq<char>)
    ensures
        row_of(name) == Some(0int) <==> name == "pm25"@,
        row_of(name) == Some(1int) <==> name == "tvoc"@,
        row_of(name) == Some(2int) <==> name == "co2"@,
        row_of(name) == Some(3int) <==> name == "temp"@,
        row_of(name) == Some(4int) <==> name == "humidity"@,
        row_of(name) matches Some(i) ==> 0 <= i < 5,
{
    if let Some(i) = row_of(name) {
        law_row_names_differ(i, i);
    }
    assert forall|i: int, j: int|
        0 <= i < 5 && 0 <= j < 5 && #[trigger] glyph::row_names()[i]
            == #[trigger] glyph::row_names()[j] implies i == j by {
        law_row_names_differ(i, j);
    }
    let names = glyph::row_names();
    assert(names[0] == "pm25"@ && names[1] == "tvoc"@ && names[2] == "co2"@ && names[3] == "temp"@
        && names[4] == "humidity"@);
}

/// A value of up to 16 bytes is kept whole; a longer one is not kept at all.
pub proof fn law_short_values_are_kept_whole(value: Seq<char>)
    ensures
        vstd::utf8::encode_utf8(value).len() <= 16 ==> short(value) == value,
        vstd::utf8::encode_utf8(value).len() > 16 ==> short(value).len() == 0,
{
}

/// What calls of [`record_value`] and [`LatestValues::get`] do: a short value recorded
/// under a row's name is what the row gives, and the other rows give what they gave.
pub proof fn law_a_recorded_value_is_given(
    latest: &mut LatestValues,
    name: &str,
    value: &str,
    i: usize,
    given: &str,
)
    requires
        old(latest).wf(),
        vstd::utf8::encode_utf8(value@).len() <= 16,
        call_ensures(record_value, (latest, name, value), ()),
        i < 5,
        call_ensures(LatestValues::get, (&*final(latest), i), given),
    ensures
        i == 0 && name@ == "pm25"@ ==> given@ == value@,
        i == 1 && name@ == "tvoc"@ ==> given@ == value@,
        i == 2 && name@ == "co2"@ ==> given@ == value@,
        i == 3 && name@ == "temp"@ ==> given@ == value@,
        i == 4 && name@ == "humidity"@ ==> given@ == value@,
        name@ != glyph::row_names()[i as int] ==> given@ == old(latest)@[i as int],
{
    law_rows_are_found_by_name(name@);
    law_rows_are_found_by_name(glyph::row_names()[i as int]);
    assert(old(latest)@.len() == 5);
}

} // verus!
