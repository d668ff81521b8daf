//! What goes out over a whole connection to the broker.

use vstd::prelude::*;

use crate::firmware_esp32::mqtt;
use crate::firmware_esp32::mqtt::DEBOUNCE_US;
use crate::firmware_esp32::values;
use crate::host::decoder as glyph;

verus! {

/// What happens over a connection, each with its time in microseconds.
pub enum Happening {
    /// A value was read.
    Told { name: Seq<char>, value: Seq<char>, at: u64 },
    /// The pending value of a sensor was published.
    Published { row: int, at: u64 },
}

/// When something happened.
pub open spec fn time_of(e: Happening) -> u64 {
    match e {
        Happening::Told { at, .. } => at,
        Happening::Published { at, .. } => at,
    }
}

/// Whether a value was read of a row.
pub open spec fn tells(e: Happening, row: int) -> bool {
    e matches Happening::Told { name, .. } && values::row_of(name) == Some(row)
}

/// Whether a value was published of a row.
pub open spec fn publishes(e: Happening, row: int) -> bool {
    e matches Happening::Published { row: r, .. } && r == row
}

/// The sensors after what happened over a connection.
pub open spec fn stages_after(h: Seq<Happening>) -> Seq<mqtt::Stage>
    decreases h.len(),
{
    if h.len() == 0 {
        Seq::new(glyph::ROWS_LEN as nat, |i: int| mqtt::unknown())
    } else {
        let before = stages_after(h.drop_last());
        match h.last() {
            Happening::Told { name, value, at } => match values::row_of(name) {
                Some(i) => before.update(i, mqtt::noted(before[i], value, at)),
                None => before,
            },
            Happening::Published { row, .. } => before.update(row, mqtt::sent(before[row])),
        }
    }
}

/// A connection as it can happen: time does not run back, and only what is due is
/// published.
pub open spec fn proper(h: Seq<Happening>) -> bool {
    &&& forall|i: int, j: int|
        0 <= i <= j < h.len() ==> time_of(#[trigger] h[i]) <= time_of(#[trigger] h[j])
    &&& forall|i: int| 0 <= i < h.len() ==> time_of(#[trigger] h[i]) + DEBOUNCE_US <= u64::MAX
    &&& forall|k: int|
        0 <= k < h.len() ==> ((#[trigger] h[k]) matches Happening::Published { row, at } ==> 0
            <= row < glyph::ROWS_LEN && mqtt::due(stages_after(h.take(k))[row], at))
}

/// The value that publish `k` carried.
pub open spec fn carried(h: Seq<Happening>, k: int) -> Seq<char> {
    stages_after(h.take(k))[h[k]->Published_row].pending
}

/// The value of a row that was published last; empty where none was.
pub open spec fn last_out(h: Seq<Happening>, row: int) -> Seq<char>
    decreases h.len(),
{
    if h.len() == 0 {
        Seq::empty()
    } else if publishes(h.last(), row) {
        carried(h, h.len() - 1)
    } else {
        last_out(h.drop_last(), row)
    }
}

/// Whether what waits of a row was read at `j` and nothing else of the row since.
spec fn stands_since(h: Seq<Happening>, row: int, j: int) -> bool {
    let s = stages_after(h)[row];
    &&& 0 <= j < h.len()
    &&& tells(h[j], row)
    &&& h[j]->Told_value == s.pending
    &&& s.deadline == Some((time_of(h[j]) + DEBOUNCE_US) as u64)
    &&& forall|i: int|
        j <= i < h.len() && tells(#[trigger] h[i], row) ==> h[i]->Told_value == s.pending
}

proof fn lemma_prefix_is_proper(h: Seq<Happening>, n: int)
    requires
        proper(h),
        0 <= n <= h.len(),
    ensures
        proper(h.take(n)),
{
    let p = h.take(n);
    assert forall|i: int, j: int| 0 <= i <= j < p.len() implies time_of(#[trigger] p[i]) <= time_of(
        #[trigger] p[j],
    ) by {
        assert(p[i] == h[i] && p[j] == h[j]);
    }
    assert forall|i: int| 0 <= i < p.len() implies time_of(#[trigger] p[i]) + DEBOUNCE_US
        <= u64::MAX by {
        assert(p[i] == h[i]);
    }
    assert forall|k: int| 0 <= k < p.len() implies ((#[trigger] p[k]) matches Happening::Published {
        row,
        at,
    } ==> 0 <= row < glyph::ROWS_LEN && mqtt::due(stages_after(p.take(k))[row], at)) by {
        assert(p[k] == h[k]);
        assert(p.take(k) =~= h.take(k));
    }
}

/// What the sensors know of a connection.
proof fn lemma_stage(h: Seq<Happening>, row: int) -> (j: int)
    requires
        proper(h),
        0 <= row < glyph::ROWS_LEN,
    ensures
        stages_after(h).len() == glyph::ROWS_LEN,
        stages_after(h)[row].last == last_out(h, row),
        stages_after(h)[row].deadline is Some ==> stands_since(h, row, j) && stages_after(
            h,
        )[row].pending != stages_after(h)[row].last,
    decreases h.len(),
{
    if h.len() == 0 {
        0
    } else {
        let n = h.len() - 1;
        let before = h.drop_last();
        let e = h.last();
        assert(h.take(n) =~= before);
        lemma_prefix_is_proper(h, n);
        let j = lemma_stage(before, row);
        let was = stages_after(before)[row];
        let now = stages_after(h)[row];
        assert(h[n] == e);
        if tells(e, row) && was.last != e->Told_value && was.pending != e->Told_value {
            assert(stands_since(h, row, n));
            n
        } else {
            if now.deadline is Some {
                assert(now == was);
                assert forall|i: int| j <= i < h.len() && tells(#[trigger] h[i], row) implies h[i]
                    ->Told_value == now.pending by {
                    if i < n {
                        assert(before[i] == h[i]);
                    }
                }
                assert(before[j] == h[j]);
                assert(stands_since(h, row, j));
            }
            j
        }
    }
}

/// Over a whole connection, a value is published only once it has stood: it was read
/// half a second before or earlier, and nothing else was read of its row since. So
/// no other value of the row was read in the half second before, and values of
/// unknown rows never go out.
pub proof fn law_what_goes_out_has_stood(h: Seq<Happening>, k: int) -> (j: int)
    requires
        proper(h),
        0 <= k < h.len(),
        h[k] is Published,
    ensures
        ({
            let row = h[k]->Published_row;
            let at = time_of(h[k]);
            &&& 0 <= j < k
            &&& tells(h[j], row)
            &&& h[j]->Told_value == carried(h, k)
            &&& time_of(h[j]) + DEBOUNCE_US <= at
            &&& forall|i: int|
                j <= i < k && tells(#[trigger] h[i], row) ==> h[i]->Told_value == carried(h, k)
            &&& forall|i: int|
                0 <= i < k && tells(#[trigger] h[i], row) && at < time_of(h[i]) + DEBOUNCE_US
                    ==> h[i]->Told_value == carried(h, k)
        }),
{
    let row = h[k]->Published_row;
    let at = time_of(h[k]);
    let before = h.take(k);
    lemma_prefix_is_proper(h, k);
    let j = lemma_stage(before, row);
    assert(mqtt::due(stages_after(before)[row], at));
    assert(before[j] == h[j]);
    assert forall|i: int| j <= i < k && tells(#[trigger] h[i], row) implies h[i]->Told_value
        == carried(h, k) by {
        assert(before[i] == h[i]);
    }
    assert forall|i: int|
        0 <= i < k && tells(#[trigger] h[i], row) && at < time_of(h[i]) + DEBOUNCE_US implies h[i]
        ->Told_value == carried(h, k) by {
        if i < j {
            assert(time_of(h[i]) <= time_of(h[j]));
        }
    }
    j
}

proof fn lemma_last_out(h: Seq<Happening>, row: int, l: int)
    requires
        0 <= l < h.len(),
        publishes(h[l], row),
        forall|i: int| l < i < h.len() ==> !publishes(#[trigger] h[i], row),
    ensures
        last_out(h, row) == carried(h, l),
    decreases h.len(),
{
    if l < h.len() - 1 {
        let before = h.drop_last();
        assert(!publishes(h[h.len() - 1], row));
        assert(before[l] == h[l]);
        assert forall|i: int| l < i < before.len() implies !publishes(#[trigger] before[i], row) by {
            assert(before[i] == h[i]);
        }
        lemma_last_out(before, row, l);
        assert(before.take(l) =~= h.take(l));
    }
}

/// Over a whole connection, two publishes of a row in a row never carry the same
/// value.
pub proof fn law_no_value_goes_out_twice_in_a_row(h: Seq<Happening>, l: int, k: int, row: int)
    requires
        proper(h),
        0 <= l < k < h.len(),
        publishes(h[l], row),
        publishes(h[k], row),
        forall|i: int| l < i < k ==> !publishes(#[trigger] h[i], row),
    ensures
        carried(h, l) != carried(h, k),
{
    let before = h.take(k);
    lemma_prefix_is_proper(h, k);
    let _ = lemma_stage(before, row);
    assert(mqtt::due(stages_after(before)[row], time_of(h[k])));
    assert(before[l] == h[l]);
    assert forall|i: int| l < i < before.len() implies !publishes(#[trigger] before[i], row) by {
        assert(before[i] == h[i]);
    }
    lemma_last_out(before, row, l);
    assert(before.take(l) =~= h.take(l));
}

/// A row that is back at the value that was published last, or has not changed from
/// it, has nothing to publish; neither has a row of which nothing was read.
pub proof fn law_a_row_that_is_back_has_nothing_due(h: Seq<Happening>, row: int, j: int, at: u64)
    requires
        proper(h),
        0 <= row < glyph::ROWS_LEN,
        0 <= j < h.len() && tells(h[j], row) && h[j]->Told_value == last_out(h, row) && (
        forall|i: int| j < i < h.len() ==> !tells(#[trigger] h[i], row)) || (forall|i: int|
            0 <= i < h.len() ==> !tells(#[trigger] h[i], row)),
    ensures
        !mqtt::due(stages_after(h)[row], at),
{
    let s = stages_after(h)[row];
    let k = lemma_stage(h, row);
    if s.deadline is Some {
        assert(tells(h[k], row));
        if k <= j {
            assert(tells(h[j], row));
        }
    }
}

/// What is read of a name that there is no sensor for changes nothing.
pub proof fn law_unknown_rows_change_nothing(
    h: Seq<Happening>,
    name: Seq<char>,
    value: Seq<char>,
    at: u64,
)
    requires
        values::row_of(name) is None,
    ensures
        stages_after(h.push(Happening::Told { name, value, at })) == stages_after(h),
{
    assert(h.push(Happening::Told { name, value, at }).drop_last() =~= h);
}

} // verus!
