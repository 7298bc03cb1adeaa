//! Hours, days and longer periods of the machine's local time.

use std::collections::HashMap;

use chrono::Datelike;
use chrono::TimeZone;
use vstd::prelude::*;

verus! {

/// Milliseconds in an hour.
pub const HOUR_MS: i64 = 3_600_000;

/// Milliseconds in a day.
pub const DAY_MS: i64 = 86_400_000;

/// The first millisecond that the date library represents: midnight of 1 January -262143.
pub const FIRST_MS: i64 = -8_334_601_228_800_000;

/// The last millisecond that the date library represents: the end of 31 December 262142.
pub const LAST_MS: i64 = 8_210_266_876_799_999;

/// The number whose two's complement the bits of `n` are.
pub open spec fn signed(n: u64) -> int {
    if n <= i64::MAX {
        n as int
    } else {
        n - 0x1_0000_0000_0000_0000
    }
}

/// The bits of the two's complement of `n`.
pub open spec fn unsigned(n: i64) -> u64 {
    if n >= 0 {
        n as u64
    } else {
        (n + 0x1_0000_0000_0000_0000) as u64
    }
}

/// The number whose two's complement the bits of `n` are.
pub fn to_signed(n: u64) -> (r: i64)
    ensures
        r == signed(n),
{
    if n <= 0x7fff_ffff_ffff_ffff {
        n as i64
    } else {
        -((u64::MAX - n) as i64) - 1
    }
}

/// The bits of the two's complement of `n`.
pub fn to_unsigned(n: i64) -> (r: u64)
    ensures
        r == unsigned(n),
{
    if n >= 0 {
        n as u64
    } else {
        u64::MAX - (-(n + 1)) as u64
    }
}

/// Reading bits as a signed number and writing it back gives the same bits.
pub proof fn lemma_signed_bits(n: u64, m: i64)
    ensures
        unsigned(signed(n) as i64) == n,
        signed(unsigned(m)) == m,
{
}

/// What a local time on the clock means.
#[derive(Debug, Clone, Copy, PartialEq, Eq, Structural)]
pub enum LocalTime {
    /// The clock never shows it: it was skipped, or lies outside what the date library represents.
    Skipped,
    /// The clock shows it once, this many milliseconds after the epoch.
    Single(i64),
    /// The clock shows it twice, at these two times.
    Ambiguous(i64, i64),
}

/// Whether the date library represents a number of milliseconds since the epoch.
pub open spec fn representable(ms: int) -> bool {
    FIRST_MS <= ms <= LAST_MS
}

/// Whether a number of seconds can be the distance of a local clock from universal time.
pub open spec fn is_offset(seconds: int) -> bool {
    -86_400 < seconds < 86_400
}

/// Whether `t` is a meaning that a clock showing `local` milliseconds can have: each time that it
/// names lies a whole number of seconds, less than a day, away.
pub open spec fn can_mean(local: int, t: LocalTime) -> bool {
    match t {
        LocalTime::Skipped => true,
        LocalTime::Single(a) => representable(local) && shifted(local, a as int),
        LocalTime::Ambiguous(a, b) => representable(local) && shifted(local, a as int) && shifted(
            local,
            b as int,
        ),
    }
}

/// Whether `utc` lies where a clock that shows `local` could have been read.
pub open spec fn shifted(local: int, utc: int) -> bool {
    representable(utc) && exists|s: int| is_offset(s) && utc == local - #[trigger] (s * 1000)
}

/// `chrono::Local.timestamp_millis_opt`: the offset of the local clock from universal time, in
/// seconds, at the given millisecond. Claimed: there is one exactly for the times that the date
/// library represents, and it is less than a day. Which one it is depends on the time zone of the
/// machine. The call panics only where the zone data of the machine holds an offset of a day or
/// more.
#[verifier::external_body]
fn local_offset(ts_ms: i64) -> (r: Option<i32>)
    ensures
        match r {
            Some(s) => representable(ts_ms as int) && is_offset(s as int),
            None => !representable(ts_ms as int),
        },
{
    match chrono::Local.timestamp_millis_opt(ts_ms) {
        chrono::LocalResult::Single(t) => Some(t.offset().local_minus_utc()),
        chrono::LocalResult::None => None,
        chrono::LocalResult::Ambiguous(_, _) => None,
    }
}

/// `chrono::Local.from_local_datetime`: what the local clock means where it shows the given number
/// of milliseconds since the beginning of 1970. Claimed: every time that is named is represented
/// and differs from what the clock shows by whole seconds, less than a day; a clock reading that
/// the date library does not represent means nothing. Which times are named depends on the time
/// zone of the machine.
#[verifier::external_body]
fn local_meaning(local_ms: i64) -> (r: LocalTime)
    ensures
        can_mean(local_ms as int, r),
{
    let Some(shown) = chrono::DateTime::from_timestamp_millis(local_ms) else {
        return LocalTime::Skipped;
    };
    match chrono::Local.from_local_datetime(&shown.naive_utc()) {
        chrono::LocalResult::Single(a) => LocalTime::Single(a.timestamp_millis()),
        chrono::LocalResult::None => LocalTime::Skipped,
        chrono::LocalResult::Ambiguous(a, b) => {
            LocalTime::Ambiguous(a.timestamp_millis(), b.timestamp_millis())
        },
    }
}

/// What the clock shows at a time, in milliseconds since the beginning of 1970.
pub open spec fn shown_at(ts_ms: u64, offset_s: int) -> int {
    signed(ts_ms) + offset_s * 1000
}

/// The beginning of the hour or day of length `unit` in which `local` lies.
pub open spec fn floored(local: int, unit: int) -> int {
    local - local % unit
}

/// What the clock shows in the first and the last millisecond of the unit around a time.
pub open spec fn unit_bounds(ts_ms: u64, offset_s: int, unit: int) -> (int, int) {
    let first = floored(shown_at(ts_ms, offset_s), unit);
    (first, first + unit - 1)
}

/// The window between two clock readings. A reading that the clock does not show exactly once
/// leaves no window, written as two zeros.
pub open spec fn window_of(first: LocalTime, last: LocalTime) -> (u64, u64) {
    match (first, last) {
        (LocalTime::Single(a), LocalTime::Single(b)) => (unsigned(a), unsigned(b)),
        _ => (0, 0),
    }
}

/// Whether `w` can be the window of length `unit` around a time. Times that the date library does
/// not represent have no window.
pub open spec fn can_be_window(ts_ms: u64, unit: int, w: (u64, u64)) -> bool {
    if representable(signed(ts_ms)) {
        exists|offset_s: int, first: LocalTime, last: LocalTime|
            window_from(ts_ms, unit, w, offset_s, first, last)
    } else {
        w == (0u64, 0u64)
    }
}

/// Whether `w` is the window that this offset and these clock meanings give.
pub open spec fn window_from(
    ts_ms: u64,
    unit: int,
    w: (u64, u64),
    offset_s: int,
    first: LocalTime,
    last: LocalTime,
) -> bool {
    &&& is_offset(offset_s)
    &&& can_mean(unit_bounds(ts_ms, offset_s, unit).0, first)
    &&& can_mean(unit_bounds(ts_ms, offset_s, unit).1, last)
    &&& w == window_of(first, last)
}

/// Whether `w` can be the local hour around a time.
pub open spec fn can_be_hour(ts_ms: u64, w: (u64, u64)) -> bool {
    can_be_window(ts_ms, HOUR_MS as int, w)
}

/// Whether `w` can be the local day around a time.
pub open spec fn can_be_day(ts_ms: u64, w: (u64, u64)) -> bool {
    can_be_window(ts_ms, DAY_MS as int, w)
}

/// What the clock shows in the first and the last millisecond of the hour or day around a time.
pub fn bounds_around(ts_ms: u64, offset_s: i32, unit: i64) -> (r: (i64, i64))
    requires
        representable(signed(ts_ms)),
        is_offset(offset_s as int),
        unit == HOUR_MS || unit == DAY_MS,
    ensures
        r.0 == unit_bounds(ts_ms, offset_s as int, unit as int).0,
        r.1 == unit_bounds(ts_ms, offset_s as int, unit as int).1,
{
    let shown: i64 = to_signed(ts_ms) + offset_s as i64 * 1000;
    let first: i64 = if shown >= 0 {
        shown - shown % unit
    } else {
        // Counted from below, so that the remainder never crosses zero.
        let low: i64 = shown + 120_000_000 * DAY_MS;
        shown - low % unit
    };
    proof {
        let u = unit as int;
        assert((shown + 120_000_000 * DAY_MS) % u == shown as int % u) by {
            if unit == HOUR_MS {
                vstd::arithmetic::div_mod::lemma_mod_multiples_vanish(
                    2_880_000_000int,
                    shown as int,
                    u,
                );
            } else {
                vstd::arithmetic::div_mod::lemma_mod_multiples_vanish(120_000_000int, shown as int, u);
            }
        }
    }
    (first, first + unit - 1)
}

/// The window between two clock readings; two zeros where a reading is not shown exactly once.
pub fn window(first: LocalTime, last: LocalTime) -> (r: (u64, u64))
    ensures
        r == window_of(first, last),
{
    match (first, last) {
        (LocalTime::Single(a), LocalTime::Single(b)) => (to_unsigned(a), to_unsigned(b)),
        _ => (0, 0),
    }
}

fn window_around(ts_ms: u64, unit: i64) -> (r: (u64, u64))
    requires
        unit == HOUR_MS || unit == DAY_MS,
    ensures
        can_be_window(ts_ms, unit as int, r),
{
    match local_offset(to_signed(ts_ms)) {
        Some(offset_s) => {
            let (from, to) = bounds_around(ts_ms, offset_s, unit);
            let first = local_meaning(from);
            let last = local_meaning(to);
            let w = window(first, last);
            assert(window_from(ts_ms, unit as int, w, offset_s as int, first, last));
            w
        },
        None => (0, 0),
    }
}

/// The first and last millisecond of the local hour around a time.
pub fn hourly_bucket_local(ts_ms: u64) -> (r: (u64, u64))
    ensures
        can_be_hour(ts_ms, r),
{
    window_around(ts_ms, HOUR_MS)
}

/// The first and last millisecond of the local day around a time.
pub fn daily_bucket_local(ts_ms: u64) -> (r: (u64, u64))
    ensures
        can_be_day(ts_ms, r),
{
    window_around(ts_ms, DAY_MS)
}

/// The window around a time where the clock keeps one offset over the whole unit.
pub open spec fn steady_window(ts_ms: u64, offset_s: int, unit: int) -> (u64, u64) {
    let (from, to) = unit_bounds(ts_ms, offset_s, unit);
    window_of(
        LocalTime::Single((from - offset_s * 1000) as i64),
        LocalTime::Single((to - offset_s * 1000) as i64),
    )
}

/// Where the clock keeps one offset over the whole unit, the window holds the time that it was
/// asked for, and is as long as the unit with both ends counted.
pub proof fn lemma_window_holds(ts_ms: u64, offset_s: int, unit: int)
    requires
        unit == HOUR_MS || unit == DAY_MS,
        is_offset(offset_s),
        0 <= ts_ms <= LAST_MS,
        unit_bounds(ts_ms, offset_s, unit).0 - offset_s * 1000 >= 0,
    ensures
        ({
            let w = steady_window(ts_ms, offset_s, unit);
            w.0 <= ts_ms <= w.1 && w.1 - w.0 == unit - 1
        }),
{
}

/// The window around a time where the clock keeps one offset is one that it can have.
pub proof fn lemma_steady_window_possible(ts_ms: u64, offset_s: int, unit: int)
    requires
        unit == HOUR_MS || unit == DAY_MS,
        is_offset(offset_s),
        representable(unit_bounds(ts_ms, offset_s, unit).0),
        representable(unit_bounds(ts_ms, offset_s, unit).1),
        representable(unit_bounds(ts_ms, offset_s, unit).0 - offset_s * 1000),
        representable(unit_bounds(ts_ms, offset_s, unit).1 - offset_s * 1000),
    ensures
        can_be_window(ts_ms, unit, steady_window(ts_ms, offset_s, unit)),
{
    let (from, to) = unit_bounds(ts_ms, offset_s, unit);
    let first = LocalTime::Single((from - offset_s * 1000) as i64);
    let last = LocalTime::Single((to - offset_s * 1000) as i64);
    assert(window_from(
        ts_ms,
        unit,
        steady_window(ts_ms, offset_s, unit),
        offset_s,
        first,
        last,
    ));
}

/// Where the clock keeps one offset, windows part the time: every time in a window, its ends among
/// them, has that very window, and a time outside has another one.
pub proof fn lemma_window_shared(ts_ms: u64, t: u64, offset_s: int, unit: int)
    requires
        unit == HOUR_MS || unit == DAY_MS,
        is_offset(offset_s),
        ts_ms <= LAST_MS,
        unit_bounds(ts_ms, offset_s, unit).0 - offset_s * 1000 >= 0,
    ensures
        ({
            let w = steady_window(ts_ms, offset_s, unit);
            &&& w.0 <= t <= w.1 ==> steady_window(t, offset_s, unit) == w
            &&& t <= LAST_MS && unit_bounds(t, offset_s, unit).0 - offset_s * 1000 >= 0 && !(w.0
                <= t <= w.1) ==> steady_window(t, offset_s, unit) != w
        }),
{
    let (from, to) = unit_bounds(ts_ms, offset_s, unit);
    let w = steady_window(ts_ms, offset_s, unit);
    lemma_window_holds(ts_ms, offset_s, unit);
    if w.0 <= t <= w.1 {
        let a = shown_at(ts_ms, offset_s);
        let b = shown_at(t, offset_s);
        assert(from == unit * (a / unit)) by {
            vstd::arithmetic::div_mod::lemma_fundamental_div_mod(a, unit);
        }
        assert(b - from == t - w.0);
        vstd::arithmetic::div_mod::lemma_fundamental_div_mod_converse(
            b,
            unit,
            a / unit,
            b - from,
        );
    } else if t <= LAST_MS && unit_bounds(t, offset_s, unit).0 - offset_s * 1000 >= 0 {
        lemma_window_holds(t, offset_s, unit);
    }
}

/// A local clock: how many seconds it is ahead of universal time at each millisecond, and what each
/// reading of it means.
pub struct Zone {
    pub offset: spec_fn(int) -> int,
    pub meaning: spec_fn(int) -> LocalTime,
}

/// Whether a time is one at which the clock shows a reading.
pub open spec fn shows(z: Zone, ms: int, local: int) -> bool {
    representable(ms) && representable(local) && is_offset((z.offset)(ms)) && ms + (z.offset)(ms)
        * 1000 == local
}

/// Whether the times that a reading means are times at which the clock shows it.
pub open spec fn is_clock(z: Zone) -> bool {
    &&& forall|ms: int| is_offset(#[trigger] (z.offset)(ms))
    &&& forall|local: int|
        match #[trigger] (z.meaning)(local) {
            LocalTime::Skipped => true,
            LocalTime::Single(a) => shows(z, a as int, local),
            LocalTime::Ambiguous(a, b) => shows(z, a as int, local) && shows(z, b as int, local),
        }
}

/// The window of length `unit` around a time that a clock gives.
pub open spec fn zone_window(z: Zone, ts_ms: u64, unit: int) -> (u64, u64) {
    if representable(signed(ts_ms)) {
        let (from, to) = unit_bounds(ts_ms, (z.offset)(signed(ts_ms)), unit);
        window_of((z.meaning)(from), (z.meaning)(to))
    } else {
        (0, 0)
    }
}

/// What a clock gives is a window that a time can have.
pub proof fn lemma_zone_window_possible(z: Zone, ts_ms: u64, unit: int)
    requires
        is_clock(z),
    ensures
        can_be_window(ts_ms, unit, zone_window(z, ts_ms, unit)),
{
    if representable(signed(ts_ms)) {
        let offset_s = (z.offset)(signed(ts_ms));
        let (from, to) = unit_bounds(ts_ms, offset_s, unit);
        lemma_meaning_possible(z, from);
        lemma_meaning_possible(z, to);
        assert(window_from(
            ts_ms,
            unit,
            zone_window(z, ts_ms, unit),
            offset_s,
            (z.meaning)(from),
            (z.meaning)(to),
        ));
    }
}

proof fn lemma_meaning_possible(z: Zone, local: int)
    requires
        is_clock(z),
    ensures
        can_mean(local, (z.meaning)(local)),
{
    match (z.meaning)(local) {
        LocalTime::Skipped => {},
        LocalTime::Single(a) => {
            assert(a == local - ((z.offset)(a as int)) * 1000);
        },
        LocalTime::Ambiguous(a, b) => {
            assert(a == local - ((z.offset)(a as int)) * 1000);
            assert(b == local - ((z.offset)(b as int)) * 1000);
        },
    }
}

/// Whatever the clock does, the beginning of a window has that window.
pub proof fn lemma_zone_window_begins(z: Zone, ts_ms: u64, unit: int)
    requires
        unit == HOUR_MS || unit == DAY_MS,
        is_clock(z),
        zone_window(z, ts_ms, unit) != (0u64, 0u64),
    ensures
        zone_window(z, zone_window(z, ts_ms, unit).0, unit) == zone_window(z, ts_ms, unit),
{
    let w = zone_window(z, ts_ms, unit);
    let local = shown_at(ts_ms, (z.offset)(signed(ts_ms)));
    let from = floored(local, unit);
    match (z.meaning)(from) {
        LocalTime::Single(a) => {
            lemma_signed_bits(w.0, a);
            assert(shows(z, a as int, from));
            assert(from == unit * (local / unit)) by {
                vstd::arithmetic::div_mod::lemma_fundamental_div_mod(local, unit);
            }
            vstd::arithmetic::div_mod::lemma_fundamental_div_mod_converse(
                from,
                unit,
                local / unit,
                0,
            );
        },
        _ => {},
    }
}

/// Whatever the clock does, windows that begin alike are the same.
pub proof fn lemma_zone_windows_begin_alike(z: Zone, t: u64, u: u64, unit: int)
    requires
        unit == HOUR_MS || unit == DAY_MS,
        is_clock(z),
        zone_window(z, t, unit) != (0u64, 0u64),
        zone_window(z, u, unit) != (0u64, 0u64),
        zone_window(z, t, unit).0 == zone_window(z, u, unit).0,
    ensures
        zone_window(z, t, unit) == zone_window(z, u, unit),
{
    lemma_zone_window_begins(z, t, unit);
    lemma_zone_window_begins(z, u, unit);
}

/// Whether a year of the Gregorian calendar has a 29 February.
pub open spec fn is_leap(y: int) -> bool {
    (y % 4 == 0 && y % 100 != 0) || y % 400 == 0
}

/// The day on which a year begins, counted from 1 January 1970.
pub open spec fn year_first(y: int) -> int {
    365 * (y - 1970) + (y - 1) / 4 - (y - 1) / 100 + (y - 1) / 400 - 477
}

/// The days of a year before a month of it; month 13 stands for the end of the year.
pub open spec fn days_before(y: int, m: int) -> int {
    let feb: int = if is_leap(y) {
        29
    } else {
        28
    };
    if m <= 1 {
        0
    } else if m == 2 {
        31
    } else if m == 3 {
        31 + feb
    } else if m == 4 {
        62 + feb
    } else if m == 5 {
        92 + feb
    } else if m == 6 {
        123 + feb
    } else if m == 7 {
        153 + feb
    } else if m == 8 {
        184 + feb
    } else if m == 9 {
        215 + feb
    } else if m == 10 {
        245 + feb
    } else if m == 11 {
        276 + feb
    } else if m == 12 {
        306 + feb
    } else {
        337 + feb
    }
}

/// The day on which a month begins, counted from 1 January 1970.
pub open spec fn month_first(y: int, m: int) -> int {
    year_first(y) + days_before(y, m)
}

/// Whether a day lies in a month.
pub open spec fn in_month(day: int, y: int, m: int) -> bool {
    1 <= m <= 12 && month_first(y, m) <= day < month_first(y, m + 1)
}

/// Whether a day lies in a year.
pub open spec fn in_year(day: int, y: int) -> bool {
    year_first(y) <= day < year_first(y + 1)
}

/// Whether the date library represents a day counted from 1 January 1970.
pub open spec fn representable_day(day: int) -> bool {
    representable(day * DAY_MS)
}

/// A year is as long as its twelve months.
pub proof fn lemma_year_length(y: int)
    ensures
        month_first(y, 13) == year_first(y + 1),
{
    assert(y / 4 - (y - 1) / 4 == if y % 4 == 0 { 1int } else { 0 });
    assert(y / 100 - (y - 1) / 100 == if y % 100 == 0 { 1int } else { 0 });
    assert(y / 400 - (y - 1) / 400 == if y % 400 == 0 { 1int } else { 0 });
    let c = y / 100;
    assert(y % 400 == 0 ==> y % 100 == 0) by {
        assert(y == 400 * (y / 400) + y % 400);
    }
    assert(y % 100 == 0 ==> y % 4 == 0) by {
        assert(y == 100 * c + y % 100);
    }
}

proof fn lemma_years_ordered(y: int, z: int)
    requires
        y < z,
    ensures
        year_first(y + 1) <= year_first(z),
    decreases z - y,
{
    if y + 1 < z {
        lemma_years_ordered(y, z - 1);
        lemma_year_length(z - 1);
    }
}

/// A day lies in one year only.
pub proof fn lemma_year_unique(day: int, y: int, z: int)
    requires
        in_year(day, y),
        in_year(day, z),
    ensures
        y == z,
{
    if y < z {
        lemma_years_ordered(y, z);
    } else if z < y {
        lemma_years_ordered(z, y);
    }
}

/// A day of a month lies in the year of the month, and in no other month.
pub proof fn lemma_month_unique(day: int, y: int, m: int, z: int, n: int)
    requires
        in_month(day, y, m),
        in_month(day, z, n),
    ensures
        in_year(day, y),
        y == z,
        m == n,
{
    lemma_year_length(y);
    lemma_year_length(z);
    lemma_year_unique(day, y, z);
}

/// Whether `f` is day `n` of the month, counted from one, in which a day lies.
pub open spec fn is_day_of_month(day: int, n: int, f: int) -> bool {
    exists|y: int, m: int| #[trigger]
        in_month(day, y, m) && in_month(f, y, m) && f == month_first(y, m) + n - 1
}

/// Whether `f` is the day of month `n`, counted from one, of the same year that has the same number
/// in its month as the given day.
pub open spec fn is_same_day_of(day: int, n: int, f: int) -> bool {
    exists|y: int, m: int| #[trigger]
        in_month(day, y, m) && in_month(f, y, n) && f - month_first(y, n) == day - month_first(y, m)
}

/// `chrono::NaiveDate::with_day`: the day with another number in the same month. Claimed: for a day
/// that the date library represents it is found exactly where the month has a day of that number.
/// Days are counted from 1 January 1970 on the way in and out.
#[verifier::external_body]
fn with_day(day: i32, n: u32) -> (r: Option<i32>)
    ensures
        match r {
            Some(f) => representable_day(day as int) && is_day_of_month(
                day as int,
                n as int,
                f as int,
            ),
            None => representable_day(day as int) ==> forall|f: int|
                !is_day_of_month(day as int, n as int, f),
        },
{
    let date = chrono::NaiveDate::from_epoch_days(day)?;
    date.with_day(n).map(|d| d.to_epoch_days())
}

/// `chrono::NaiveDate::with_month`: the day of the same number in another month of the same year.
/// Claimed: for a day that the date library represents it is found exactly where there is such a
/// month and it has a day of that number. Days are counted from 1 January 1970 on the way in and
/// out.
#[verifier::external_body]
fn with_month(day: i32, n: u32) -> (r: Option<i32>)
    ensures
        match r {
            Some(f) => representable_day(day as int) && is_same_day_of(
                day as int,
                n as int,
                f as int,
            ),
            None => representable_day(day as int) ==> forall|f: int|
                !is_same_day_of(day as int, n as int, f),
        },
{
    let date = chrono::NaiveDate::from_epoch_days(day)?;
    date.with_month(n).map(|d| d.to_epoch_days())
}

/// A period that ends now.
#[derive(Debug, Clone, Copy, PartialEq, Eq, Structural)]
pub enum PeriodScope {
    Today,
    Week,
    Month,
    Year,
}

/// Whether `first` is the first day of the period around a day. Weeks begin on Monday.
pub open spec fn is_period_first(scope: PeriodScope, day: int, first: int) -> bool {
    match scope {
        PeriodScope::Today => first == day,
        PeriodScope::Week => first == day - (day + 3) % 7,
        PeriodScope::Month => exists|y: int, m: int| #[trigger]
            in_month(day, y, m) && first == month_first(y, m),
        PeriodScope::Year => exists|y: int| #[trigger] in_year(day, y) && first == year_first(y),
    }
}

/// A period has one first day.
pub proof fn lemma_period_first_unique(scope: PeriodScope, day: int, a: int, b: int)
    requires
        is_period_first(scope, day, a),
        is_period_first(scope, day, b),
    ensures
        a == b,
{
    match scope {
        PeriodScope::Today => {},
        PeriodScope::Week => {},
        PeriodScope::Month => {
            let (y, m) = choose|y: int, m: int| #[trigger]
                in_month(day, y, m) && a == month_first(y, m);
            let (z, n) = choose|z: int, n: int| #[trigger]
                in_month(day, z, n) && b == month_first(z, n);
            lemma_month_unique(day, y, m, z, n);
        },
        PeriodScope::Year => {
            let y = choose|y: int| #[trigger] in_year(day, y) && a == year_first(y);
            let z = choose|z: int| #[trigger] in_year(day, z) && b == year_first(z);
            lemma_year_unique(day, y, z);
        },
    }
}

/// The first day of the period around a day; for months and years only where the date library
/// represents the day.
pub fn period_first_day(scope: PeriodScope, day: i32) -> (r: Option<i32>)
    requires
        -100_000_000 <= day <= 100_000_000,
    ensures
        match r {
            Some(f) => is_period_first(scope, day as int, f as int),
            None => !representable_day(day as int) && (scope is Month || scope is Year),
        },
        !representable_day(day as int) && (scope is Month || scope is Year) ==> r is None,
{
    match scope {
        PeriodScope::Today => Some(day),
        PeriodScope::Week => {
            // 100,000,008 is three more than a multiple of seven, and keeps the sum above zero.
            let past: i32 = (day + 100_000_008) % 7;
            Some(day - past)
        },
        PeriodScope::Month => first_of_month(day),
        PeriodScope::Year => {
            match january_of(day) {
                Some(january) => {
                    let first = first_of_month(january);
                    proof {
                        let (y, m) = choose|y: int, m: int| #[trigger]
                            in_month(day as int, y, m) && january == year_first(y) + day
                                - month_first(y, m);
                        let f = first.unwrap() as int;
                        let (z, n) = choose|z: int, n: int| #[trigger]
                            in_month(january as int, z, n) && f == month_first(z, n);
                        lemma_month_unique(january as int, y, 1, z, n);
                        lemma_month_unique(day as int, y, m, y, m);
                        assert(in_year(day as int, y) && f == year_first(y));
                    }
                    first
                },
                None => None,
            }
        },
    }
}

/// The first day of the month of a day, where the date library represents the day.
fn first_of_month(day: i32) -> (r: Option<i32>)
    ensures
        match r {
            Some(f) => representable_day(day as int) && exists|y: int, m: int| #[trigger]
                in_month(day as int, y, m) && f == month_first(y, m),
            None => !representable_day(day as int),
        },
{
    let r = with_day(day, 1);
    proof {
        if representable_day(day as int) {
            lemma_day_has_month(day as int);
            let (y, m) = choose|y: int, m: int| in_month(day as int, y, m);
            assert(in_month(month_first(y, m), y, m));
            assert(is_day_of_month(day as int, 1, month_first(y, m)));
        }
    }
    r
}

/// The day of January that has the same number in its month as a day, in the same year, where the
/// date library represents the day.
fn january_of(day: i32) -> (r: Option<i32>)
    ensures
        match r {
            Some(f) => representable_day(day as int) && representable_day(f as int)
                && exists|y: int, m: int| #[trigger]
                in_month(day as int, y, m) && in_month(f as int, y, 1) && f == year_first(y) + day
                    - month_first(y, m),
            None => !representable_day(day as int),
        },
{
    let r = with_month(day, 1);
    proof {
        if representable_day(day as int) {
            lemma_day_has_month(day as int);
            let (y, m) = choose|y: int, m: int| in_month(day as int, y, m);
            let f = year_first(y) + day - month_first(y, m);
            assert(in_month(f, y, 1));
            assert(is_same_day_of(day as int, 1, f));
            let g = r.unwrap() as int;
            let (z, n) = choose|z: int, n: int| #[trigger]
                in_month(day as int, z, n) && in_month(g, z, 1) && g - month_first(z, 1) == day
                    - month_first(z, n);
            lemma_january_represented(day as int, z, n);
        }
    }
    r
}

/// Every day lies in a month.
pub proof fn lemma_day_has_month(day: int)
    ensures
        exists|y: int, m: int| in_month(day, y, m),
{
    lemma_day_has_year(day, 1970);
    let y = choose|y: int| in_year(day, y);
    lemma_year_length(y);
    let d = day - year_first(y);
    let m: int = if d < days_before(y, 2) {
        1
    } else if d < days_before(y, 3) {
        2
    } else if d < days_before(y, 4) {
        3
    } else if d < days_before(y, 5) {
        4
    } else if d < days_before(y, 6) {
        5
    } else if d < days_before(y, 7) {
        6
    } else if d < days_before(y, 8) {
        7
    } else if d < days_before(y, 9) {
        8
    } else if d < days_before(y, 10) {
        9
    } else if d < days_before(y, 11) {
        10
    } else if d < days_before(y, 12) {
        11
    } else {
        12
    };
    assert(in_month(day, y, m));
}

proof fn lemma_day_has_year(day: int, y: int)
    ensures
        exists|z: int| in_year(day, z),
    decreases
            if day < year_first(y) {
                year_first(y) - day
            } else {
                day - year_first(y)
            },
{
    if day < year_first(y) {
        lemma_year_length(y - 1);
        if day >= year_first(y - 1) {
            assert(in_year(day, y - 1));
        } else {
            lemma_day_has_year(day, y - 1);
        }
    } else if day < year_first(y + 1) {
        assert(in_year(day, y));
    } else {
        lemma_year_length(y);
        lemma_day_has_year(day, y + 1);
    }
}

proof fn lemma_january_represented(day: int, y: int, m: int)
    requires
        in_month(day, y, m),
        representable_day(day),
    ensures
        representable_day(year_first(y) + day - month_first(y, m)),
{
    assert(year_first(-262143) * DAY_MS == FIRST_MS);
    lemma_year_length(y);
    if y < -262143 {
        lemma_years_ordered(y, -262143);
        assert(false);
    }
    if y > -262143 {
        lemma_years_ordered(-262143, y);
    }
    assert(year_first(y) >= year_first(-262143));
}

/// The time at which a clock reading was shown; zero where it was not shown exactly once.
pub open spec fn single_or_zero(t: LocalTime) -> u64 {
    match t {
        LocalTime::Single(a) => unsigned(a),
        _ => 0,
    }
}

/// The day that the clock shows, counted from 1 January 1970.
pub open spec fn shown_day(ts_ms: u64, offset_s: int) -> int {
    shown_at(ts_ms, offset_s) / (DAY_MS as int)
}

/// Whether `start` can be the beginning of the period up to now. Zero stands for a beginning that
/// the clock did not show exactly once, or that the date library does not represent.
pub open spec fn can_be_period_start(scope: PeriodScope, now_ms: u64, start: u64) -> bool {
    if representable(signed(now_ms)) {
        exists|offset_s: int, first: int, t: LocalTime|
            period_start_from(scope, now_ms, start, offset_s, first, t)
    } else {
        start == 0
    }
}

/// Whether this offset, first day and clock meaning give `start`.
pub open spec fn period_start_from(
    scope: PeriodScope,
    now_ms: u64,
    start: u64,
    offset_s: int,
    first: int,
    t: LocalTime,
) -> bool {
    let day = shown_day(now_ms, offset_s);
    &&& is_offset(offset_s)
    &&& is_period_first(scope, day, first) || (!representable_day(day) && t is Skipped)
    &&& can_mean(first * DAY_MS, t)
    &&& start == single_or_zero(t)
}

/// The beginning and the end of the period up to now.
pub fn period_range_ms(scope: PeriodScope, now_ms: u64) -> (r: (u64, u64))
    ensures
        can_be_period_start(scope, now_ms, r.0),
        r.1 == now_ms,
{
    let Some(offset_s) = local_offset(to_signed(now_ms)) else {
        return (0, now_ms);
    };
    let (from, _) = bounds_around(now_ms, offset_s, DAY_MS);
    let high: i64 = from + 120_000_000 * DAY_MS;
    let day: i32 = (high / DAY_MS - 120_000_000) as i32;
    assert(day == shown_day(now_ms, offset_s as int)) by {
        let n = shown_at(now_ms, offset_s as int);
        let d = DAY_MS as int;
        assert(from == n - n % d);
        assert(n == d * (n / d) + n % d);
    }
    let found = period_first_day(scope, day);
    let t = match found {
        Some(first) => local_meaning(first as i64 * DAY_MS),
        None => LocalTime::Skipped,
    };
    let start: u64 = match t {
        LocalTime::Single(a) => to_unsigned(a),
        _ => 0,
    };
    proof {
        let first: int = match found {
            Some(f) => f as int,
            None => 0,
        };
        assert(period_start_from(scope, now_ms, start, offset_s as int, first, t));
    }
    (start, now_ms)
}

/// Windows by the time that they were looked up for.
#[verifier::ext_equal]
pub struct Lookups {
    pub hours: Map<u64, (u64, u64)>,
    pub days: Map<u64, (u64, u64)>,
}

/// The hour that was looked up for a time; two zeros where none was.
pub open spec fn hour_at(c: Lookups, ts_ms: u64) -> (u64, u64) {
    if c.hours.contains_key(ts_ms) {
        c.hours[ts_ms]
    } else {
        (0, 0)
    }
}

/// The day that was looked up for a time; two zeros where none was.
pub open spec fn day_at(c: Lookups, ts_ms: u64) -> (u64, u64) {
    if c.days.contains_key(ts_ms) {
        c.days[ts_ms]
    } else {
        (0, 0)
    }
}

/// Whether every answer of a calendar is what one clock gives.
pub open spec fn follows(c: Lookups, z: Zone) -> bool {
    &&& forall|t: u64| #[trigger]
        c.hours.contains_key(t) ==> c.hours[t] == zone_window(z, t, HOUR_MS as int)
    &&& forall|t: u64| #[trigger]
        c.days.contains_key(t) ==> c.days[t] == zone_window(z, t, DAY_MS as int)
}

/// Whether a calendar gives the beginning of the hour around a time the window of that hour.
pub open spec fn steady_at(c: Lookups, ts_ms: u64) -> bool {
    hour_at(c, hour_at(c, ts_ms).0) == hour_at(c, ts_ms)
}

/// Whether everything that was looked up can be read off one of the clocks that the machine may
/// have.
pub open spec fn is_local(c: Lookups) -> bool {
    &&& forall|t: u64| #[trigger] c.hours.contains_key(t) ==> can_be_hour(t, c.hours[t])
    &&& forall|t: u64| #[trigger] c.days.contains_key(t) ==> can_be_day(t, c.days[t])
}

/// Whether `d` answers whatever `c` answers, and in the same way.
pub open spec fn extends(c: Lookups, d: Lookups) -> bool {
    &&& forall|t: u64| #[trigger]
        c.hours.contains_key(t) ==> d.hours.contains_key(t) && d.hours[t] == c.hours[t]
    &&& forall|t: u64| #[trigger]
        c.days.contains_key(t) ==> d.days.contains_key(t) && d.days[t] == c.days[t]
}

/// A calendar that follows a clock answers with windows that local time can have.
pub proof fn lemma_follows_is_local(c: Lookups, z: Zone)
    requires
        is_clock(z),
        follows(c, z),
    ensures
        is_local(c),
{
    assert forall|t: u64| #[trigger] c.hours.contains_key(t) implies can_be_hour(t, c.hours[t]) by {
        lemma_zone_window_possible(z, t, HOUR_MS as int);
    }
    assert forall|t: u64| #[trigger] c.days.contains_key(t) implies can_be_day(t, c.days[t]) by {
        lemma_zone_window_possible(z, t, DAY_MS as int);
    }
}

/// A calendar that follows a clock gives the beginning of every hour that it answers for the window
/// of that hour.
pub proof fn lemma_follows_steady(c: Lookups, z: Zone, ts_ms: u64)
    requires
        is_clock(z),
        follows(c, z),
        c.hours.contains_key(ts_ms),
        c.hours.contains_key(hour_at(c, ts_ms).0),
        hour_at(c, ts_ms) != (0u64, 0u64),
    ensures
        steady_at(c, ts_ms),
{
    lemma_zone_window_begins(z, ts_ms, HOUR_MS as int);
}

/// A calendar that follows a clock gives days that begin alike the same end.
pub proof fn lemma_follows_days(c: Lookups, z: Zone, t: u64, u: u64)
    requires
        is_clock(z),
        follows(c, z),
        c.days.contains_key(t),
        c.days.contains_key(u),
        day_at(c, t) != (0u64, 0u64),
        day_at(c, u) != (0u64, 0u64),
        day_at(c, t).0 == day_at(c, u).0,
    ensures
        day_at(c, t) == day_at(c, u),
{
    lemma_zone_windows_begin_alike(z, t, u, DAY_MS as int);
}

/// Hours and days that have been looked up, each once.
#[derive(Debug)]
pub struct Calendar {
    hours: HashMap<u64, (u64, u64)>,
    days: HashMap<u64, (u64, u64)>,
}

impl View for Calendar {
    type V = Lookups;

    closed spec fn view(&self) -> Lookups {
        Lookups { hours: self.hours@, days: self.days@ }
    }
}

impl Calendar {
    /// A calendar in which nothing has been looked up.
    pub fn new() -> (r: Self)
        ensures
            r@ == (Lookups { hours: Map::empty(), days: Map::empty() }),
    {
        broadcast use vstd::std_specs::hash::group_hash_axioms;

        Calendar { hours: HashMap::new(), days: HashMap::new() }
    }

    /// Writes down the hour around a time.
    pub fn set_hour(&mut self, ts_ms: u64, w: (u64, u64))
        ensures
            final(self)@ == (Lookups { hours: old(self)@.hours.insert(ts_ms, w), ..old(self)@ }),
    {
        broadcast use vstd::std_specs::hash::group_hash_axioms;

        self.hours.insert(ts_ms, w);
    }

    /// Writes down the day around a time.
    pub fn set_day(&mut self, ts_ms: u64, w: (u64, u64))
        ensures
            final(self)@ == (Lookups { days: old(self)@.days.insert(ts_ms, w), ..old(self)@ }),
    {
        broadcast use vstd::std_specs::hash::group_hash_axioms;

        self.days.insert(ts_ms, w);
    }

    /// The hour that was looked up for a time; two zeros where none was.
    pub fn hour(&self, ts_ms: u64) -> (r: (u64, u64))
        ensures
            r == hour_at(self@, ts_ms),
    {
        broadcast use vstd::std_specs::hash::group_hash_axioms;

        match self.hours.get(&ts_ms) {
            Some(w) => *w,
            None => (0, 0),
        }
    }

    /// The day that was looked up for a time; two zeros where none was.
    pub fn day(&self, ts_ms: u64) -> (r: (u64, u64))
        ensures
            r == day_at(self@, ts_ms),
    {
        broadcast use vstd::std_specs::hash::group_hash_axioms;

        match self.days.get(&ts_ms) {
            Some(w) => *w,
            None => (0, 0),
        }
    }

    /// Looks up the local hour around a time, unless it is known.
    pub fn look_up_hour(&mut self, ts_ms: u64) -> (r: (u64, u64))
        ensures
            final(self)@.hours.contains_key(ts_ms),
            r == hour_at(final(self)@, ts_ms),
            extends(old(self)@, final(self)@),
            final(self)@.days == old(self)@.days,
            is_local(old(self)@) ==> is_local(final(self)@),
    {
        broadcast use vstd::std_specs::hash::group_hash_axioms;

        if !self.hours.contains_key(&ts_ms) {
            let w = hourly_bucket_local(ts_ms);
            self.set_hour(ts_ms, w);
        }
        self.hour(ts_ms)
    }

    /// Looks up the local day around a time, unless it is known.
    pub fn look_up_day(&mut self, ts_ms: u64) -> (r: (u64, u64))
        ensures
            final(self)@.days.contains_key(ts_ms),
            r == day_at(final(self)@, ts_ms),
            extends(old(self)@, final(self)@),
            final(self)@.hours == old(self)@.hours,
            is_local(old(self)@) ==> is_local(final(self)@),
    {
        broadcast use vstd::std_specs::hash::group_hash_axioms;

        if !self.days.contains_key(&ts_ms) {
            let w = daily_bucket_local(ts_ms);
            self.set_day(ts_ms, w);
        }
        self.day(ts_ms)
    }
}

} // verus!
