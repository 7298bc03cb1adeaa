//! Where hours, days and periods of a local clock begin and end.

use vstd::prelude::*;

use crate::calendar;
use crate::calendar::LocalTime;
use crate::calendar::Lookups;
use crate::calendar::PeriodScope;

verus! {

proof fn lemma_floored(local: int, unit: int)
    requires
        unit > 0,
    ensures
        calendar::floored(local, unit) % unit == 0,
        calendar::floored(local, unit) <= local < calendar::floored(local, unit) + unit,
{
    let q = local / unit;
    assert(local == unit * q + local % unit && 0 <= local % unit < unit) by (nonlinear_arith)
        requires
            unit > 0,
            q == local / unit,
    ;
    vstd::arithmetic::div_mod::lemma_mod_multiples_basic(q, unit);
    assert(q * unit == unit * q) by (nonlinear_arith);
}

proof fn lemma_window(ts_ms: u64, unit: int, w: (u64, u64))
    requires
        unit > 0,
        calendar::can_be_window(ts_ms, unit, w),
        calendar::representable(calendar::signed(ts_ms)),
        w != (0u64, 0u64),
    ensures
        exists|now: int, a: int, b: int|
            {
                let first = calendar::signed(w.0) + a * 1000;
                let last = calendar::signed(w.1) + b * 1000;
                &&& #[trigger] calendar::is_offset(now)
                &&& #[trigger] calendar::is_offset(a)
                &&& #[trigger] calendar::is_offset(b)
                &&& first % unit == 0
                &&& last == first + unit - 1
                &&& first <= calendar::signed(ts_ms) + now * 1000 <= last
            },
{
    let (offset_s, first, last) = choose|offset_s: int, first: LocalTime, last: LocalTime|
        calendar::window_from(ts_ms, unit, w, offset_s, first, last);
    let (from, to) = calendar::unit_bounds(ts_ms, offset_s, unit);
    lemma_floored(calendar::shown_at(ts_ms, offset_s), unit);
    match (first, last) {
        (LocalTime::Single(a), LocalTime::Single(b)) => {
            calendar::lemma_signed_bits(0, a);
            calendar::lemma_signed_bits(0, b);
            let s = choose|s: int| calendar::is_offset(s) && a as int == from - #[trigger] (s * 1000);
            let t = choose|t: int| calendar::is_offset(t) && b as int == to - #[trigger] (t * 1000);
            assert(calendar::is_offset(offset_s) && calendar::is_offset(s) && calendar::is_offset(t));
        },
        _ => {},
    }
}

/// The hour around a time begins when the clock shows a full hour and ends a millisecond before it
/// shows the next one, and the clock shows the time in between.
pub proof fn lemma_hour_window(ts_ms: u64, w: (u64, u64))
    requires
        calendar::can_be_hour(ts_ms, w),
        calendar::representable(calendar::signed(ts_ms)),
        w != (0u64, 0u64),
    ensures
        exists|now: int, a: int, b: int|
            {
                let first = calendar::signed(w.0) + a * 1000;
                let last = calendar::signed(w.1) + b * 1000;
                &&& #[trigger] calendar::is_offset(now)
                &&& #[trigger] calendar::is_offset(a)
                &&& #[trigger] calendar::is_offset(b)
                &&& first % 3_600_000 == 0
                &&& last == first + 3_600_000 - 1
                &&& first <= calendar::signed(ts_ms) + now * 1000 <= last
            },
{
    lemma_window(ts_ms, 3_600_000, w);
}

/// The day around a time begins when the clock shows midnight and ends a millisecond before it shows
/// the next one, and the clock shows the time in between.
pub proof fn lemma_day_window(ts_ms: u64, w: (u64, u64))
    requires
        calendar::can_be_day(ts_ms, w),
        calendar::representable(calendar::signed(ts_ms)),
        w != (0u64, 0u64),
    ensures
        exists|now: int, a: int, b: int|
            {
                let first = calendar::signed(w.0) + a * 1000;
                let last = calendar::signed(w.1) + b * 1000;
                &&& #[trigger] calendar::is_offset(now)
                &&& #[trigger] calendar::is_offset(a)
                &&& #[trigger] calendar::is_offset(b)
                &&& first % 86_400_000 == 0
                &&& last == first + 86_400_000 - 1
                &&& first <= calendar::signed(ts_ms) + now * 1000 <= last
            },
{
    lemma_window(ts_ms, 86_400_000, w);
}

/// A week is the seven days from a Monday on. The fifth of January 1970 was one.
pub proof fn lemma_weeks(day: int, first: int)
    ensures
        calendar::is_period_first(PeriodScope::Week, day, first) <==> first <= day < first + 7 && (
        first - 4) % 7 == 0,
{
}

/// Today begins with the day itself.
pub proof fn lemma_today(day: int, first: int)
    ensures
        calendar::is_period_first(PeriodScope::Today, day, first) <==> first == day,
{
}

/// A month begins with a day that lies in the same month, and the day before it lies in another one.
/// A year begins with a day that lies in the same year and is the first of January of it, and the day
/// before it lies in another one.
pub proof fn lemma_months_and_years(day: int, first: int)
    ensures
        calendar::is_period_first(PeriodScope::Month, day, first) ==> exists|y: int, m: int| #[trigger]
            calendar::in_month(day, y, m) && calendar::in_month(first, y, m) && !calendar::in_month(
                first - 1,
                y,
                m,
            ) && first <= day,
        calendar::is_period_first(PeriodScope::Year, day, first) ==> exists|y: int| #[trigger]
            calendar::in_year(day, y) && calendar::in_year(first, y) && !calendar::in_year(
                first - 1,
                y,
            ) && calendar::in_month(first, y, 1) && first <= day,
{
    if calendar::is_period_first(PeriodScope::Month, day, first) {
        let (y, m) = choose|y: int, m: int| #[trigger]
            calendar::in_month(day, y, m) && first == calendar::month_first(y, m);
        assert(calendar::in_month(first, y, m));
    }
    if calendar::is_period_first(PeriodScope::Year, day, first) {
        let y = choose|y: int| #[trigger]
            calendar::in_year(day, y) && first == calendar::year_first(y);
        assert(calendar::in_month(first, y, 1));
    }
}

/// Years are counted from 1970, and are 366 days long where they can be divided by four, but not by a
/// hundred unless by four hundred, and 365 days else.
pub proof fn lemma_years(y: int)
    ensures
        calendar::year_first(1970) == 0,
        calendar::year_first(y + 1) - calendar::year_first(y) == (if y % 400 == 0 || (y % 4 == 0 && y
            % 100 != 0) {
            366int
        } else {
            365
        }),
{
    calendar::lemma_year_length(y);
}

/// January, March, May, July, August, October and December have 31 days, April, June, September and
/// November 30, and February 28, or 29 in a year of 366 days. They fill the year.
pub proof fn lemma_months(y: int, m: int)
    requires
        1 <= m <= 12,
    ensures
        calendar::month_first(y, 1) == calendar::year_first(y),
        calendar::month_first(y, 13) == calendar::year_first(y + 1),
        ({
            let days = calendar::month_first(y, m + 1) - calendar::month_first(y, m);
            &&& m == 4 || m == 6 || m == 9 || m == 11 ==> days == 30
            &&& m == 1 || m == 3 || m == 5 || m == 7 || m == 8 || m == 10 || m == 12 ==> days == 31
            &&& m == 2 ==> days == calendar::year_first(y + 1) - calendar::year_first(y) - 337
        }),
{
    calendar::lemma_year_length(y);
}

/// The beginning of a period is zero, or a time at which the clock shows the midnight with which the
/// first day of the period around now begins.
pub proof fn lemma_period_begins(scope: PeriodScope, now_ms: u64, start: u64)
    requires
        calendar::can_be_period_start(scope, now_ms, start),
        start != 0,
    ensures
        exists|now: int, a: int, day: int, first: int|
            {
                &&& #[trigger] calendar::is_offset(now)
                &&& #[trigger] calendar::is_offset(a)
                &&& day * 86_400_000 <= calendar::signed(now_ms) + now * 1000 < (day + 1)
                    * 86_400_000
                &&& #[trigger] calendar::is_period_first(scope, day, first)
                &&& calendar::signed(start) + a * 1000 == first * 86_400_000
            },
{
    let (offset_s, first, t) = choose|offset_s: int, first: int, t: LocalTime|
        calendar::period_start_from(scope, now_ms, start, offset_s, first, t);
    let local = calendar::shown_at(now_ms, offset_s);
    let day = calendar::shown_day(now_ms, offset_s);
    assert(day * 86_400_000 <= local < (day + 1) * 86_400_000);
    match t {
        LocalTime::Single(a) => {
            calendar::lemma_signed_bits(0, a);
            let s = choose|s: int| calendar::is_offset(s) && a as int == first * 86_400_000
                - #[trigger] (s * 1000);
            assert(calendar::is_offset(offset_s) && calendar::is_offset(s));
            assert(calendar::is_period_first(scope, day, first));
        },
        _ => {},
    }
}

/// An hour that was looked up in a calendar of local time begins when the clock shows a full hour and
/// ends a millisecond before it shows the next one, and the clock shows the time in between. A time
/// that cannot be told has none.
pub proof fn lemma_hour_looked_up(c: Lookups, ts_ms: u64)
    requires
        calendar::is_local(c),
        c.hours.contains_key(ts_ms),
        c.hours[ts_ms] != (0u64, 0u64),
    ensures
        calendar::representable(calendar::signed(ts_ms)),
        exists|now: int, a: int, b: int|
            {
                let first = calendar::signed(c.hours[ts_ms].0) + a * 1000;
                let last = calendar::signed(c.hours[ts_ms].1) + b * 1000;
                &&& #[trigger] calendar::is_offset(now)
                &&& #[trigger] calendar::is_offset(a)
                &&& #[trigger] calendar::is_offset(b)
                &&& first % 3_600_000 == 0
                &&& last == first + 3_600_000 - 1
                &&& first <= calendar::signed(ts_ms) + now * 1000 <= last
            },
{
    lemma_hour_window(ts_ms, c.hours[ts_ms]);
}

/// A day that was looked up in a calendar of local time begins when the clock shows midnight and ends
/// a millisecond before it shows the next one, and the clock shows the time in between. A time that
/// cannot be told has none.
pub proof fn lemma_day_looked_up(c: Lookups, ts_ms: u64)
    requires
        calendar::is_local(c),
        c.days.contains_key(ts_ms),
        c.days[ts_ms] != (0u64, 0u64),
    ensures
        calendar::representable(calendar::signed(ts_ms)),
        exists|now: int, a: int, b: int|
            {
                let first = calendar::signed(c.days[ts_ms].0) + a * 1000;
                let last = calendar::signed(c.days[ts_ms].1) + b * 1000;
                &&& #[trigger] calendar::is_offset(now)
                &&& #[trigger] calendar::is_offset(a)
                &&& #[trigger] calendar::is_offset(b)
                &&& first % 86_400_000 == 0
                &&& last == first + 86_400_000 - 1
                &&& first <= calendar::signed(ts_ms) + now * 1000 <= last
            },
{
    lemma_day_window(ts_ms, c.days[ts_ms]);
}

} // verus!
