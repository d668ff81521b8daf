//! When the gateway's program was built, as a date.

use vstd::prelude::*;

use crate::text;

verus! {

/// Whether a year has a leap day.
pub open spec fn is_leap(y: int) -> bool {
    y % 4 == 0 && (y % 100 != 0 || y % 400 == 0)
}

/// Days of a month.
pub open spec fn month_len(y: int, m: int) -> int {
    if m == 2 {
        if is_leap(y) {
            29
        } else {
            28
        }
    } else if m == 4 || m == 6 || m == 9 || m == 11 {
        30
    } else {
        31
    }
}

/// Days of a year before a month.
pub open spec fn days_before_month(y: int, m: int) -> int
    decreases m,
{
    if m <= 1 {
        0
    } else {
        days_before_month(y, m - 1) + month_len(y, m - 1)
    }
}

/// Days from the start of year 0 to the start of a year: 365 for each, and one
/// more for each leap year before it.
pub open spec fn days_before_year(y: int) -> int {
    365 * y + (y + 3) / 4 - (y + 99) / 100 + (y + 399) / 400
}

/// Days from 1970-01-01 to a date.
pub open spec fn day_number(y: int, m: int, d: int) -> int {
    days_before_year(y) - days_before_year(1970) + days_before_month(y, m) + d - 1
}

/// Whether there is such a date.
pub open spec fn is_date(y: int, m: int, d: int) -> bool {
    1 <= m <= 12 && 1 <= d <= month_len(y, m)
}

/// A year is as long as its days: the closed form counts leap years right.
pub proof fn law_years_follow(y: int)
    requires
        0 <= y,
    ensures
        days_before_year(y + 1) == days_before_year(y) + 365 + if is_leap(y) {
            1int
        } else {
            0int
        },
{
}

/// Days from the start of a 400-year cycle, which starts in March, to the start of
/// a year of it.
spec fn cycle_start(yoe: int) -> int {
    365 * yoe + yoe / 4 - yoe / 100
}

/// The year of the cycle that a day is in.
spec fn cycle_year(doe: int) -> int {
    (doe - doe / 1460 + doe / 36524 - doe / 146096) / 365
}

proof fn lemma_cycle_year(doe: int)
    requires
        0 <= doe < 146097,
    ensures
        0 <= cycle_year(doe) <= 399,
        cycle_start(cycle_year(doe)) <= doe,
        doe - cycle_start(cycle_year(doe)) <= 365,
        doe - cycle_start(cycle_year(doe)) == 365 ==> is_leap(cycle_year(doe) + 1),
{
    let q = doe / 36524;
    if q >= 4 {
        assert(doe == 146096);
        assert(cycle_year(doe) == 399);
    } else {
        let r = doe % 36524;
        let k = r / 1461;
        let t = r % 1461;
        lemma_cycle_parts(doe, q, k, t);
    }
}

/// Century `q`, group of four years `k`, day `t` of the group.
proof fn lemma_cycle_parts(doe: int, q: int, k: int, t: int)
    requires
        0 <= q <= 3,
        0 <= k <= 24,
        0 <= t < 1461,
        k == 24 ==> t < 1460,
        doe == 36524 * q + 1461 * k + t,
    ensures
        0 <= cycle_year(doe) <= 399,
        cycle_start(cycle_year(doe)) <= doe,
        doe - cycle_start(cycle_year(doe)) <= 365,
        doe - cycle_start(cycle_year(doe)) == 365 ==> is_leap(cycle_year(doe) + 1),
{
    let e = (24 * q + k + t) / 1460;
    assert(0 <= e <= 1);
    assert(doe / 1460 == 25 * q + k + e);
    assert(doe / 36524 == q);
    assert(doe / 146096 == 0);
    let j = (t - e) / 365;
    assert(0 <= j <= 3);
    assert(365 * j <= t <= 365 * j + 365);
    let yoe = 100 * q + 4 * k + j;
    assert(cycle_year(doe) == yoe);
    assert(yoe / 4 == 25 * q + k);
    assert(yoe / 100 == q);
    assert(cycle_start(yoe) == 36524 * q + 1461 * k + 365 * j);
    if t - 365 * j == 365 {
        assert(j == 3 && t == 1460);
        assert((yoe + 1) % 4 == 0);
        assert((yoe + 1) % 100 == 4 * k + 4);
    }
}

/// Days from March to a month, counted from March as 0.
spec fn march_offset(mp: int) -> int {
    (153 * mp + 2) / 5
}

proof fn lemma_month(doy: int, mp: int)
    requires
        0 <= doy <= 365,
        mp == (5 * doy + 2) / 153,
    ensures
        0 <= mp <= 11,
        march_offset(mp) <= doy,
        doy < march_offset(mp + 1) || mp == 11,
{
}

/// The months from March on, in a year and the next.
proof fn lemma_months(y: int)
    ensures
        days_before_month(y, 1) == 0,
        days_before_month(y, 2) == 31,
        forall|mp: int|
            0 <= mp <= 9 ==> #[trigger] days_before_month(y, mp + 3) == march_offset(mp) + 59 + (
            month_len(y, 2) - 28),
{
    reveal_with_fuel(days_before_month, 13);
    assert forall|mp: int| 0 <= mp <= 9 implies #[trigger] days_before_month(y, mp + 3)
        == march_offset(mp) + 59 + (month_len(y, 2) - 28) by {
        if mp == 0 {
        } else if mp == 1 {
        } else if mp == 2 {
        } else if mp == 3 {
        } else if mp == 4 {
        } else if mp == 5 {
        } else if mp == 6 {
        } else if mp == 7 {
        } else if mp == 8 {
        } else {
        }
    }
}

/// Years a number of cycles apart have the same remainders.
proof fn lemma_cycles_apart(era: int, y: int)
    ensures
        (400 * era + y) / 4 == 100 * era + y / 4,
        (400 * era + y) / 100 == 4 * era + y / 100,
        (400 * era + y) / 400 == era + y / 400,
        is_leap(400 * era + y) == is_leap(y),
{
    assert((400 * era + y) / 4 == 100 * era + y / 4);
    assert((400 * era + y) / 100 == 4 * era + y / 100);
    assert((400 * era + y) / 400 == era + y / 400);
}

/// A year of the first cycle, counted from January and from March.
proof fn lemma_first_cycle(yoe: int)
    requires
        0 <= yoe <= 399,
    ensures
        days_before_year(yoe) + (month_len(yoe, 2) - 28) == cycle_start(yoe) + 1,
{
    if yoe > 0 {
        let q = yoe / 100;
        let r = yoe % 100;
        assert((yoe + 399) / 400 == 1);
        assert((yoe + 99) / 100 == q + if r > 0 {
            1int
        } else {
            0int
        });
        assert(yoe % 4 == r % 4);
        assert((yoe + 3) / 4 == yoe / 4 + if yoe % 4 > 0 {
            1int
        } else {
            0int
        });
    }
}

/// A year of a cycle, among all years.
proof fn lemma_year_in_cycle(era: int, yoe: int)
    requires
        0 <= era,
        0 <= yoe <= 399,
    ensures
        ({
            let y = 400 * era + yoe;
            &&& days_before_year(y) + (month_len(y, 2) - 28) == 146097 * era + cycle_start(yoe) + 1
            &&& days_before_year(y + 1) == 146097 * era + cycle_start(yoe) + 366
            &&& is_leap(yoe + 1) == is_leap(y + 1)
        }),
{
    lemma_cycles_apart(era, yoe);
    lemma_cycles_apart(era, yoe + 1);
    lemma_cycles_apart(era, yoe + 3);
    lemma_cycles_apart(era, yoe + 99);
    lemma_cycles_apart(era, yoe + 399);
    lemma_first_cycle(yoe);
    law_years_follow(400 * era + yoe);
}

/// The date of a day, counted from 1970-01-01: year, month and day of the month.
pub fn days_to_ymd(days: u64) -> (date: (u64, u64, u64))
    requires
        days + 719468 <= u64::MAX,
    ensures
        is_date(date.0 as int, date.1 as int, date.2 as int),
        day_number(date.0 as int, date.1 as int, date.2 as int) == days,
{
    // Counted from the first of March of year 0, leap days come last.
    let z: u64 = days + 719468;
    let era: u64 = z / 146097;
    let doe: u64 = z % 146097;
    proof {
        lemma_cycle_year(doe as int);
    }
    let yoe: u64 = (doe - doe / 1460 + doe / 36524 - doe / 146096) / 365;
    let y: u64 = yoe + era * 400;
    let doy: u64 = doe - (365 * yoe + yoe / 4 - yoe / 100);
    let mp: u64 = (5 * doy + 2) / 153;
    proof {
        lemma_month(doy as int, mp as int);
    }
    let d: u64 = doy - (153 * mp + 2) / 5 + 1;
    let mo: u64 = if mp < 10 {
        mp + 3
    } else {
        mp - 9
    };
    let year: u64 = if mo <= 2 {
        y + 1
    } else {
        y
    };
    proof {
        lemma_year_in_cycle(era as int, yoe as int);
        lemma_months(y as int);
        lemma_months(y + 1);
        lemma_day(year as int, mo as int, d as int, doy as int, mp as int);
        if mp < 10 {
            assert(days_before_month(y as int, mp + 3) == march_offset(mp as int) + 59 + (
            month_len(y as int, 2) - 28));
        }
        assert(days_before_year(1970) == 719528);
    }
    (year, mo, d)
}

/// The day is one of its month.
proof fn lemma_day(year: int, mo: int, d: int, doy: int, mp: int)
    requires
        0 <= doy <= 365,
        doy == 365 ==> is_leap(year),
        mp == (5 * doy + 2) / 153,
        mo == if mp < 10 {
            mp + 3
        } else {
            mp - 9
        },
        d == doy - march_offset(mp) + 1,
    ensures
        is_date(year, mo, d),
{
    lemma_month(doy, mp);
    if mp == 0 {
    } else if mp == 1 {
    } else if mp == 2 {
    } else if mp == 3 {
    } else if mp == 4 {
    } else if mp == 5 {
    } else if mp == 6 {
    } else if mp == 7 {
    } else if mp == 8 {
    } else if mp == 9 {
    } else if mp == 10 {
    } else {
    }
}

/// A moment, in seconds from 1970 on, as `YYYY-MM-DD HH:MM:SS UTC`.
pub open spec fn spells(stamp: Seq<char>, secs: u64) -> bool {
    exists|y: u64, m: u64, d: u64| #[trigger]
        spells_date(stamp, secs, y, m, d) && is_date(y as int, m as int, d as int) && day_number(
            y as int,
            m as int,
            d as int,
        ) == secs / 86400
}

/// A moment as text, with its date given.
pub open spec fn spells_date(stamp: Seq<char>, secs: u64, y: u64, m: u64, d: u64) -> bool {
    stamp == text::padded('0', 4, text::decimal(y as nat)) + "-"@ + text::padded(
        '0',
        2,
        text::decimal(m as nat),
    ) + "-"@ + text::padded('0', 2, text::decimal(d as nat)) + " "@ + text::padded(
        '0',
        2,
        text::decimal((secs / 3600 % 24) as nat),
    ) + ":"@ + text::padded('0', 2, text::decimal((secs / 60 % 60) as nat)) + ":"@ + text::padded(
        '0',
        2,
        text::decimal((secs % 60) as nat),
    ) + " UTC"@
}

/// A moment, in seconds from 1970 on, as `YYYY-MM-DD HH:MM:SS UTC`.
pub fn build_timestamp(secs: u64) -> (stamp: String)
    ensures
        spells(stamp@, secs),
{
    let (y, mo, d) = days_to_ymd(secs / 86400);
    let mut stamp: String = String::new();
    text::push_decimal_padded(&mut stamp, '0', 4, y);
    stamp.append("-");
    text::push_decimal_padded(&mut stamp, '0', 2, mo);
    stamp.append("-");
    text::push_decimal_padded(&mut stamp, '0', 2, d);
    stamp.append(" ");
    text::push_decimal_padded(&mut stamp, '0', 2, secs / 3600 % 24);
    stamp.append(":");
    text::push_decimal_padded(&mut stamp, '0', 2, secs / 60 % 60);
    stamp.append(":");
    text::push_decimal_padded(&mut stamp, '0', 2, secs % 60);
    stamp.append(" UTC");
    proof {
        let none = Seq::<char>::empty();
        assert(none + text::padded('0', 4, text::decimal(y as nat)) =~= text::padded(
            '0',
            4,
            text::decimal(y as nat),
        ));
        assert(spells_date(stamp@, secs, y, mo, d));
    }
    stamp
}

/// No two dates have the same number: a day is one date only.
pub proof fn law_dates_differ(y: int, m: int, d: int, y2: int, m2: int, d2: int)
    requires
        0 <= y,
        0 <= y2,
        is_date(y, m, d),
        is_date(y2, m2, d2),
        day_number(y, m, d) == day_number(y2, m2, d2),
    ensures
        y == y2,
        m == m2,
        d == d2,
{
    lemma_in_year(y, m, d);
    lemma_in_year(y2, m2, d2);
    if y < y2 {
        lemma_years_grow(y + 1, y2);
    }
    if y2 < y {
        lemma_years_grow(y2 + 1, y);
    }
    if m < m2 {
        lemma_months_grow(y, m + 1, m2);
    }
    if m2 < m {
        lemma_months_grow(y, m2 + 1, m);
    }
}

proof fn lemma_years_grow(a: int, b: int)
    requires
        0 <= a <= b,
    ensures
        days_before_year(a) <= days_before_year(b),
    decreases b - a,
{
    if a < b {
        law_years_follow(a);
        lemma_years_grow(a + 1, b);
    }
}

proof fn lemma_months_grow(y: int, a: int, b: int)
    requires
        1 <= a <= b,
    ensures
        days_before_month(y, a) <= days_before_month(y, b),
    decreases b - a,
{
    if a < b {
        lemma_months_grow(y, a, b - 1);
    }
}

/// A date is within its year.
proof fn lemma_in_year(y: int, m: int, d: int)
    requires
        0 <= y,
        is_date(y, m, d),
    ensures
        0 <= days_before_month(y, m) + d - 1,
        days_before_year(y) + days_before_month(y, m) + d <= days_before_year(y + 1),
{
    law_years_follow(y);
    lemma_months_grow(y, 1, m);
    lemma_months_grow(y, m + 1, 13);
    reveal_with_fuel(days_before_month, 14);
}

/// The calendar: four hundred years are 146097 days, and a year has 366 days where it
/// is divisible by 4, but of the hundreds only those divisible by 400, and else 365.
pub proof fn law_the_calendar_comes_round(y: int)
    requires
        0 <= y,
    ensures
        days_before_year(y + 400) == days_before_year(y) + 146097,
        days_before_year(y + 1) - days_before_year(y) == if y % 400 == 0 || (y % 4 == 0 && y % 100
            != 0) {
            366int
        } else {
            365int
        },
        days_before_month(y, 13) == days_before_year(y + 1) - days_before_year(y),
        day_number(1970, 1, 1) == 0,
{
    law_years_follow(y);
    lemma_400_years(y);
    lemma_whole_year(y);
    lemma_epoch();
}

proof fn lemma_400_years(y: int)
    ensures
        days_before_year(y + 400) == days_before_year(y) + 146097,
{
    assert((y + 400 + 3) / 4 == 100 + (y + 3) / 4);
    assert((y + 400 + 99) / 100 == 4 + (y + 99) / 100);
    assert((y + 400 + 399) / 400 == 1 + (y + 399) / 400);
}

proof fn lemma_whole_year(y: int)
    ensures
        days_before_month(y, 13) == 337 + month_len(y, 2),
{
    reveal_with_fuel(days_before_month, 14);
}

proof fn lemma_epoch()
    ensures
        day_number(1970, 1, 1) == 0,
{
}

/// Days follow each other: the day after a date is the next of its month, or the first
/// of the next month, or New Year. No month has more than 31 days, only February fewer
/// than 30, and two neighbours have 31 only at the ends of July and December.
pub proof fn law_days_follow(y: int, m: int, d: int)
    requires
        0 <= y,
        is_date(y, m, d),
    ensures
        is_date(y, m, d + 1) ==> day_number(y, m, d + 1) == day_number(y, m, d) + 1,
        !is_date(y, m, d + 1) && m < 12 ==> is_date(y, m + 1, 1) && day_number(y, m + 1, 1)
            == day_number(y, m, d) + 1,
        !is_date(y, m, d + 1) && m == 12 ==> is_date(y + 1, 1, 1) && day_number(y + 1, 1, 1)
            == day_number(y, m, d) + 1,
        28 <= month_len(y, m) <= 31,
        month_len(y, m) < 30 <==> m == 2,
        m < 12 ==> (month_len(y, m) == 31 && month_len(y, m + 1) == 31 <==> m == 7),
        month_len(y, 1) == 31 && month_len(y, 12) == 31,
{
    law_the_calendar_comes_round(y);
    reveal_with_fuel(days_before_month, 14);
}

/// A stamp tells the moment: the time of the day and the day give back the seconds, and
/// each number is written in decimal, in at least two digits, and four for the year.
pub proof fn law_a_stamp_tells_its_moment(stamp: Seq<char>, secs: u64) -> (p: (
    (int, int, int),
    Seq<Seq<char>>,
))
    requires
        spells(stamp, secs),
    ensures
        ({
            let (y, m, d) = p.0;
            let t = p.1;
            &&& is_date(y, m, d)
            &&& t.len() == 6
            &&& stamp == t[0] + "-"@ + t[1] + "-"@ + t[2] + " "@ + t[3] + ":"@ + t[4] + ":"@ + t[5]
                + " UTC"@
            &&& text::writes(10, t[0], y) && text::writes(10, t[1], m) && text::writes(10, t[2], d)
            &&& t[0].len() >= 4
            &&& forall|i: int| 1 <= i < 6 ==> (#[trigger] t[i]).len() == 2
            &&& exists|h: int, mi: int, s: int|
                0 <= h < 24 && 0 <= mi < 60 && 0 <= s < 60 && #[trigger] text::writes(10, t[3], h)
                    && #[trigger] text::writes(10, t[4], mi) && #[trigger] text::writes(10, t[5], s)
                    && secs == day_number(y, m, d) * 86400 + h * 3600 + mi * 60 + s
        }),
{
    let (y, m, d): (u64, u64, u64) = choose|y: u64, m: u64, d: u64| #[trigger]
        spells_date(stamp, secs, y, m, d) && is_date(y as int, m as int, d as int) && day_number(
            y as int,
            m as int,
            d as int,
        ) == secs / 86400;
    let h = (secs / 3600 % 24) as nat;
    let mi = (secs / 60 % 60) as nat;
    let s = (secs % 60) as nat;
    text::law_numbers_are_written(y as nat, 4);
    text::law_filling_up_keeps_the_text('0', 4, text::decimal(y as nat), 0);
    lemma_two_digits(m as nat);
    lemma_two_digits(d as nat);
    lemma_two_digits(h);
    lemma_two_digits(mi);
    lemma_two_digits(s);
    let t = seq![
        text::padded('0', 4, text::decimal(y as nat)),
        text::padded('0', 2, text::decimal(m as nat)),
        text::padded('0', 2, text::decimal(d as nat)),
        text::padded('0', 2, text::decimal(h)),
        text::padded('0', 2, text::decimal(mi)),
        text::padded('0', 2, text::decimal(s)),
    ];
    assert(secs == secs / 86400 * 86400 + h * 3600 + mi * 60 + s) by {
        assert(secs / 3600 / 24 == secs / 86400);
        assert(secs / 60 / 60 == secs / 3600);
    }
    assert(text::writes(10, t[3], h as int) && text::writes(10, t[4], mi as int) && text::writes(
        10,
        t[5],
        s as int,
    ));
    ((y as int, m as int, d as int), t)
}

proof fn lemma_two_digits(n: nat)
    requires
        n < 100,
    ensures
        text::padded('0', 2, text::decimal(n)).len() == 2,
        text::writes(10, text::padded('0', 2, text::decimal(n)), n as int),
{
    text::law_numbers_are_written(n, 2);
    reveal_with_fuel(text::decimal, 3);
    text::law_filling_up_keeps_the_text('0', 2, text::decimal(n), 0);
}

/// What a call of [`days_to_ymd`] gives: the one date with that number, so the day after
/// has the next one.
pub proof fn law_a_day_has_its_date(days: u64, date: (u64, u64, u64), y: int, m: int, d: int)
    requires
        days + 719468 <= u64::MAX,
        call_ensures(days_to_ymd, (days,), date),
        0 <= y,
        is_date(y, m, d),
        day_number(y, m, d) == days,
    ensures
        date.0 == y,
        date.1 == m,
        date.2 == d,
{
    law_dates_differ(date.0 as int, date.1 as int, date.2 as int, y, m, d);
}

} // verus!
