//! Calendar facts about Unix millisecond timestamps, taken from `chrono`
//! (proleptic Gregorian calendar, UTC).
use vstd::prelude::*;

use chrono::{Datelike, TimeZone};

verus! {

/// The UTC (year, month) that `chrono` gives a Unix millisecond timestamp,
/// or `None` when the timestamp is outside `chrono`'s range.
pub uninterp spec fn utc_year_month(ms: i64) -> Option<(i32, u32)>;

/// The Unix millisecond timestamp of 1 January of `year`, 00:00:00 UTC, as
/// `chrono` computes it, or `None` when the year is outside its range.
pub uninterp spec fn utc_new_year_millis(year: i32) -> Option<i64>;

/// Calls `chrono::DateTime::from_timestamp_millis` and reads the year and the
/// month of the result (`Datelike::year`, `Datelike::month`).
///
/// Trusted: the result is the named `utc_year_month(ms)`. There is one
/// exactly when `ms` falls within chrono's dates (1 January of
/// `min_calendar_year()` to the end of `max_calendar_year()`, the bounds of
/// `NaiveDate`), and then it is the proleptic Gregorian year and month whose
/// span of Unix milliseconds holds `ms`, the month in 1..=12 as
/// `Datelike::month` documents.
#[verifier::external_body]
pub(crate) fn year_month_of_millis(ms: i64) -> (r: Option<(i32, u32)>)
    ensures
        r == utc_year_month(ms),
        r is Some <==> days_to_new_year(min_calendar_year()) * millis_per_day() <= ms
            < days_to_new_year(max_calendar_year() + 1) * millis_per_day(),
        r matches Some(ym) ==> 1 <= ym.1 <= 12 && min_calendar_year() <= ym.0 <= max_calendar_year(),
        r matches Some(ym) ==> days_to_new_year(ym.0 as int) * millis_per_day() <= ms
            < days_to_new_year(ym.0 + 1) * millis_per_day(),
        r matches Some(ym) ==> days_to_month_start(ym.0 as int, ym.1 as int) * millis_per_day() <= ms
            < (days_to_month_start(ym.0 as int, ym.1 as int) + month_length(ym.0 as int, ym.1 as int))
            * millis_per_day(),
{
    match chrono::DateTime::from_timestamp_millis(ms) {
        Some(dt) => Some((dt.year(), dt.month())),
        None => None,
    }
}

/// The first year of chrono's dates.
pub open spec fn min_calendar_year() -> int {
    -262143
}

/// The last year of chrono's dates.
pub open spec fn max_calendar_year() -> int {
    262142
}

/// A leap year of the proleptic Gregorian calendar.
pub open spec fn is_leap_year(year: int) -> bool {
    year % 4 == 0 && (year % 100 != 0 || year % 400 == 0)
}

/// Days of the year before month `month` (1-based) begins.
pub open spec fn days_before_month(year: int, month: int) -> int {
    let common: int = if month <= 1 {
        0
    } else if month == 2 {
        31
    } else if month == 3 {
        59
    } else if month == 4 {
        90
    } else if month == 5 {
        120
    } else if month == 6 {
        151
    } else if month == 7 {
        181
    } else if month == 8 {
        212
    } else if month == 9 {
        243
    } else if month == 10 {
        273
    } else if month == 11 {
        304
    } else {
        334
    };
    if month > 2 && is_leap_year(year) {
        common + 1
    } else {
        common
    }
}

/// Days in month `month` (1-based) of `year`.
pub open spec fn month_length(year: int, month: int) -> int {
    if month == 2 {
        if is_leap_year(year) {
            29
        } else {
            28
        }
    } else if month == 4 || month == 6 || month == 9 || month == 11 {
        30
    } else {
        31
    }
}

/// Days from 1 January 1970 to the first day of `month` of `year`.
pub open spec fn days_to_month_start(year: int, month: int) -> int {
    days_to_new_year(year) + days_before_month(year, month)
}

/// Leap years (divisible by 4, and not by 100 unless by 400) counted in a
/// way whose differences give the leap years between two years.
pub open spec fn leap_count_before(year: int) -> int {
    (year - 1) / 4 - (year - 1) / 100 + (year - 1) / 400
}

/// Days from 1 January 1970 to 1 January of `year` in the proleptic
/// Gregorian calendar; negative for earlier years.
pub open spec fn days_to_new_year(year: int) -> int {
    365 * (year - 1970) + leap_count_before(year) - leap_count_before(1970)
}

/// Milliseconds in a day.
pub open spec fn millis_per_day() -> int {
    86_400_000
}

/// Calls `chrono::Utc.with_ymd_and_hms(year, 1, 1, 0, 0, 0)`, takes its
/// single result and reads `timestamp_millis` of it.
///
/// Trusted: the result is the named `utc_new_year_millis(year)`. There is
/// one exactly when `year` is within chrono's years (`NaiveDate::from_ymd_opt`
/// checks `MIN_YEAR..=MAX_YEAR`; UTC adds no offset), and it is the Unix time
/// of 1 January of `year` in the proleptic Gregorian calendar, which chrono
/// reads back as January of `year` (`from_timestamp_millis` round-trips with
/// `timestamp_millis`).
#[verifier::external_body]
pub(crate) fn new_year_millis(year: i32) -> (r: Option<i64>)
    ensures
        r == utc_new_year_millis(year),
        r is Some <==> min_calendar_year() <= year <= max_calendar_year(),
        r matches Some(t) ==> t == days_to_new_year(year as int) * millis_per_day(),
        r matches Some(t) ==> utc_year_month(t) == Some((year, 1u32)),
{
    match chrono::Utc.with_ymd_and_hms(year, 1, 1, 0, 0, 0).single() {
        Some(dt) => Some(dt.timestamp_millis()),
        None => None,
    }
}

/// The years a timestamp axis from `min_ms` to `max_ms` spans: the year of
/// each end, falling back to 2000 and 2030 when `chrono` cannot place it.
pub open spec fn year_span(min_ms: i64, max_ms: i64) -> (i32, i32) {
    (
        match utc_year_month(min_ms) {
            Some(ym) => ym.0,
            None => 2000i32,
        },
        match utc_year_month(max_ms) {
            Some(ym) => ym.0,
            None => 2030i32,
        },
    )
}

/// The first years of `start..=end` in order, those `chrono` can place.
pub open spec fn new_year_ticks(start: int, end: int) -> Seq<i64>
    decreases end - start + 1,
{
    if end < start {
        Seq::empty()
    } else {
        let rest = new_year_ticks(start, end - 1);
        match utc_new_year_millis(end as i32) {
            Some(t) => rest.push(t),
            None => rest,
        }
    }
}

/// The year of the first end of a span, given what `chrono` said of it.
pub fn span_start_year(year_month: Option<(i32, u32)>) -> (r: i32)
    ensures
        r == match year_month {
            Some(ym) => ym.0,
            None => 2000i32,
        },
{
    match year_month {
        Some(ym) => ym.0,
        None => 2000,
    }
}

/// The year of the last end of a span, given what `chrono` said of it.
pub fn span_end_year(year_month: Option<(i32, u32)>) -> (r: i32)
    ensures
        r == match year_month {
            Some(ym) => ym.0,
            None => 2030i32,
        },
{
    match year_month {
        Some(ym) => ym.0,
        None => 2030,
    }
}

/// Stepping from `year - 1` to `year` raises `year / c` by one exactly when
/// `c` divides `year`.
proof fn lemma_floor_step(year: int, c: int)
    requires
        c > 0,
    ensures
        year / c - (year - 1) / c == if year % c == 0 {
            1int
        } else {
            0int
        },
{
    vstd::arithmetic::div_mod::lemma_fundamental_div_mod(year, c);
    vstd::arithmetic::div_mod::lemma_mod_bound(year, c);
    let q = year / c;
    let r = year % c;
    if r == 0 {
        assert(year - 1 == (q - 1) * c + (c - 1)) by (nonlinear_arith)
            requires
                year == c * q + r,
                r == 0,
        ;
        vstd::arithmetic::div_mod::lemma_fundamental_div_mod_converse(year - 1, c, q - 1, c - 1);
    } else {
        assert(year - 1 == q * c + (r - 1)) by (nonlinear_arith)
            requires
                year == c * q + r,
        ;
        vstd::arithmetic::div_mod::lemma_fundamental_div_mod_converse(year - 1, c, q, r - 1);
    }
}

/// Each year starts 365 or 366 days after the one before.
proof fn lemma_new_year_step(year: int)
    ensures
        days_to_new_year(year) + 365 <= days_to_new_year(year + 1) <= days_to_new_year(year) + 366,
{
    lemma_floor_step(year, 4);
    lemma_floor_step(year, 100);
    lemma_floor_step(year, 400);
    if year % 400 == 0 {
        assert(year % 100 == 0) by {
            vstd::arithmetic::div_mod::lemma_fundamental_div_mod(year, 400);
            vstd::arithmetic::div_mod::lemma_fundamental_div_mod_converse(year, 100, 4 * (year / 400), 0);
        }
    }
    if year % 100 == 0 {
        assert(year % 4 == 0) by {
            vstd::arithmetic::div_mod::lemma_fundamental_div_mod(year, 100);
            vstd::arithmetic::div_mod::lemma_fundamental_div_mod_converse(year, 4, 25 * (year / 100), 0);
        }
    }
}

/// Later years start later.
proof fn lemma_new_year_ascending(a: int, b: int)
    requires
        a < b,
    ensures
        days_to_new_year(a) < days_to_new_year(b),
    decreases b - a,
{
    lemma_new_year_step(b - 1);
    if a < b - 1 {
        lemma_new_year_ascending(a, b - 1);
    }
}

/// Year-boundary ticks (Unix milliseconds of each 1 January, UTC) for a time
/// axis whose domain runs from `min_ms` to `max_ms`: one per year of the
/// span, in increasing order.
pub fn year_start_ticks(min_ms: i64, max_ms: i64) -> (r: Vec<i64>)
    ensures
        r@ == new_year_ticks(year_span(min_ms, max_ms).0 as int, year_span(min_ms, max_ms).1 as int),
        r@.len() == if year_span(min_ms, max_ms).0 <= year_span(min_ms, max_ms).1 {
            year_span(min_ms, max_ms).1 - year_span(min_ms, max_ms).0 + 1
        } else {
            0
        },
        forall|i: int|
            0 <= i < r@.len() ==> #[trigger] r@[i] == days_to_new_year(year_span(min_ms, max_ms).0 + i)
                * millis_per_day(),
        forall|i: int, j: int| 0 <= i < j < r@.len() ==> r@[i] < r@[j],
        forall|i: int| 0 <= i < r@.len() ==> ((#[trigger] utc_year_month(r@[i])) matches Some(ym) && ym.1 == 1),
        utc_year_month(min_ms) is Some && r@.len() > 0 ==> r@[0] <= min_ms,
        utc_year_month(max_ms) is Some && r@.len() > 0 ==> r@[r@.len() - 1] <= max_ms,
{
    let start = span_start_year(year_month_of_millis(min_ms));
    let end = span_end_year(year_month_of_millis(max_ms));
    let mut out: Vec<i64> = Vec::new();
    let mut y: i64 = start as i64;
    while y <= end as i64
        invariant
            start as int <= y <= end as int + 1 || (end < start && y == start),
            min_calendar_year() <= start <= max_calendar_year(),
            min_calendar_year() <= end <= max_calendar_year(),
            out@ == new_year_ticks(start as int, y - 1),
            out@.len() == y - start,
            forall|i: int| 0 <= i < out@.len() ==> #[trigger] out@[i] == days_to_new_year(start + i) * millis_per_day(),
            forall|i: int, j: int| 0 <= i < j < out@.len() ==> out@[i] < out@[j],
            forall|i: int| 0 <= i < out@.len() ==> ((#[trigger] utc_year_month(out@[i])) matches Some(ym) && ym.1 == 1),
        decreases end as int + 1 - y,
    {
        match new_year_millis(y as i32) {
            Some(t) => {
                let ghost o0 = out@;
                out.push(t);
                proof {
                    assert forall|i: int, j: int| 0 <= i < j < out@.len() implies out@[i] < out@[j] by {
                        lemma_new_year_ascending(start + i, start + j);
                        lemma_scale_day(days_to_new_year(start + i), days_to_new_year(start + j));
                    }
                }
            },
            None => {
                assert(false);
            },
        }
        y = y + 1;
    }
    proof {
        if end < start {
            assert(new_year_ticks(start as int, end as int) == Seq::<i64>::empty());
        }
    }
    out
}

/// Multiplying by the length of a day keeps the order of day numbers.
proof fn lemma_scale_day(a: int, b: int)
    requires
        a < b,
    ensures
        a * millis_per_day() < b * millis_per_day(),
{
    assert(a * 86_400_000 < b * 86_400_000) by (nonlinear_arith)
        requires
            a < b,
    ;
}

} // verus!
