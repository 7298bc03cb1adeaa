//! What the rates and bytes of an hour say of its samples, and those of a day of its hours.

use vstd::prelude::*;

use crate::calendar;
use crate::calendar::Lookups;
use crate::counters;
use crate::counters::AggregatedBucket;
use crate::counters::HistoryPoint;
use crate::histogram;
use crate::lists;
use crate::sorting;
use crate::stats;

verus! {

/// Whether these are the mean, the least, the greatest and the 95th percentile of some numbers. The
/// mean is the nearest whole number, the larger of two that are equally near. Least, greatest and
/// percentile are among the numbers. No more than 95 of a hundred numbers are less than the
/// percentile, and more than that are no greater.
pub open spec fn describes(s: Seq<u64>, avg: u64, min: u64, max: u64, p95: u64) -> bool {
    &&& s.contains(min)
    &&& s.contains(max)
    &&& s.contains(p95)
    &&& forall|i: int| 0 <= i < s.len() ==> min <= #[trigger] s[i] <= max
    &&& (2 * avg - 1) * s.len() <= 2 * stats::total(s) < (2 * avg + 1) * s.len()
    &&& 100 * lists::picked(s, |x: u64| x < p95).len() <= 95 * s.len()
    &&& 95 * s.len() < 100 * lists::picked(s, |x: u64| x <= p95).len()
}

proof fn lemma_percentile(s: Seq<u64>, k: int)
    requires
        0 <= k < s.len(),
    ensures
        lists::picked(s, |x: u64| x < sorting::ascending(s)[k]).len() <= k,
        k < lists::picked(s, |x: u64| x <= sorting::ascending(s)[k]).len(),
{
    sorting::lemma_ascending(s);
    let t = sorting::ascending(s);
    let v = t[k];
    let below = |x: u64| x < sorting::ascending(s)[k];
    let upto = |x: u64| x <= sorting::ascending(s)[k];
    lists::lemma_picked_reordered(s, t, below);
    lists::lemma_picked_reordered(s, t, upto);
    lists::picked(s, below).to_multiset_ensures();
    lists::picked(t, below).to_multiset_ensures();
    lists::picked(s, upto).to_multiset_ensures();
    lists::picked(t, upto).to_multiset_ensures();
    let a = t.take(k);
    let b = t.skip(k);
    assert(a + b =~= t);
    lists::lemma_picked_add(a, b, below);
    assert forall|i: int| 0 <= i < b.len() implies !below(#[trigger] b[i]) by {
        if i > 0 {
            assert(t[k] <= t[k + i]);
        }
    }
    lists::lemma_picked_none(b, below);
    lemma_picked_fewer(a, below);
    let c = t.take(k + 1);
    let d = t.skip(k + 1);
    assert(c + d =~= t);
    lists::lemma_picked_add(c, d, upto);
    assert forall|i: int| 0 <= i < c.len() implies upto(#[trigger] c[i]) by {
        if i < k {
            assert(t[i] <= t[k]);
        }
    }
    lists::lemma_picked_all(c, upto);
}

proof fn lemma_picked_fewer<T>(s: Seq<T>, p: spec_fn(T) -> bool)
    ensures
        lists::picked(s, p).len() <= s.len(),
    decreases s.len(),
{
    if s.len() > 0 {
        lemma_picked_fewer(s.drop_last(), p);
    }
}

/// The statistics of some numbers are what they are named after.
pub proof fn lemma_described(s: Seq<u64>)
    requires
        s.len() > 0,
    ensures
        ({
            let r = stats::rate_stats(s);
            describes(s, r.avg, r.min, r.max, r.p95)
        }),
{
    let r = stats::rate_stats(s);
    stats::lemma_rate_stats_order(s);
    stats::lemma_rate_stats_mean(s);
    stats::lemma_mean_rounded(s);
    let n = s.len() as int;
    let k = n * 95 / 100;
    assert(0 <= k < n);
    lemma_percentile(s, k);
    assert(stats::p95_place(s.len()) == k);
    assert((|x: u64| x < sorting::ascending(s)[k]) =~= (|x: u64| x < r.p95));
    assert((|x: u64| x <= sorting::ascending(s)[k]) =~= (|x: u64| x <= r.p95));
}

/// For each of the four counters, the bytes of an hour are those of its samples added up, and its
/// rates are mean, least, greatest and percentile of that counter's rates in the samples.
pub proof fn lemma_hour_described(start_ms: u64, end_ms: u64, points: Seq<HistoryPoint>)
    requires
        points.len() > 0,
    ensures
        ({
            let b = counters::points_bucket(start_ms, end_ms, points);
            &&& b.start_ts_ms == start_ms
            &&& b.end_ts_ms == end_ms
            &&& b.up_v4_bytes == stats::capped(
                stats::total(lists::numbers(points, |x: HistoryPoint| x.metrics.up_v4_bytes)),
            )
            &&& b.down_v4_bytes == stats::capped(
                stats::total(lists::numbers(points, |x: HistoryPoint| x.metrics.down_v4_bytes)),
            )
            &&& b.up_v6_bytes == stats::capped(
                stats::total(lists::numbers(points, |x: HistoryPoint| x.metrics.up_v6_bytes)),
            )
            &&& b.down_v6_bytes == stats::capped(
                stats::total(lists::numbers(points, |x: HistoryPoint| x.metrics.down_v6_bytes)),
            )
            &&& describes(
                lists::numbers(points, |x: HistoryPoint| x.metrics.up_v4_bps),
                b.up_v4_bps_avg,
                b.up_v4_bps_min,
                b.up_v4_bps_max,
                b.up_v4_bps_p95,
            )
            &&& describes(
                lists::numbers(points, |x: HistoryPoint| x.metrics.down_v4_bps),
                b.down_v4_bps_avg,
                b.down_v4_bps_min,
                b.down_v4_bps_max,
                b.down_v4_bps_p95,
            )
            &&& describes(
                lists::numbers(points, |x: HistoryPoint| x.metrics.up_v6_bps),
                b.up_v6_bps_avg,
                b.up_v6_bps_min,
                b.up_v6_bps_max,
                b.up_v6_bps_p95,
            )
            &&& describes(
                lists::numbers(points, |x: HistoryPoint| x.metrics.down_v6_bps),
                b.down_v6_bps_avg,
                b.down_v6_bps_min,
                b.down_v6_bps_max,
                b.down_v6_bps_p95,
            )
        }),
{
    let m = counters::metrics_of(points);
    let s = lists::numbers(points, |x: HistoryPoint| x.metrics.up_v4_bps);
    assert(counters::up_v4_bps_of(m) =~= s);
    lemma_described(s);
    assert(counters::up_v4_bytes_of(m) =~= lists::numbers(
        points,
        |x: HistoryPoint| x.metrics.up_v4_bytes,
    ));
    let s = lists::numbers(points, |x: HistoryPoint| x.metrics.down_v4_bps);
    assert(counters::down_v4_bps_of(m) =~= s);
    lemma_described(s);
    assert(counters::down_v4_bytes_of(m) =~= lists::numbers(
        points,
        |x: HistoryPoint| x.metrics.down_v4_bytes,
    ));
    let s = lists::numbers(points, |x: HistoryPoint| x.metrics.up_v6_bps);
    assert(counters::up_v6_bps_of(m) =~= s);
    lemma_described(s);
    assert(counters::up_v6_bytes_of(m) =~= lists::numbers(
        points,
        |x: HistoryPoint| x.metrics.up_v6_bytes,
    ));
    let s = lists::numbers(points, |x: HistoryPoint| x.metrics.down_v6_bps);
    assert(counters::down_v6_bps_of(m) =~= s);
    lemma_described(s);
    assert(counters::down_v6_bytes_of(m) =~= lists::numbers(
        points,
        |x: HistoryPoint| x.metrics.down_v6_bytes,
    ));
}

/// For each of the four counters, the greatest and the least rate of an hour and its percentile are
/// that counter's rate in some sample, and no sample has a greater or a smaller one.
pub proof fn lemma_hour_attained(start_ms: u64, end_ms: u64, points: Seq<HistoryPoint>)
    requires
        points.len() > 0,
    ensures
        ({
            let b = counters::points_bucket(start_ms, end_ms, points);
            &&& exists|i: int|
                0 <= i < points.len() && (#[trigger] points[i]).metrics.up_v4_bps == b.up_v4_bps_max
            &&& exists|i: int|
                0 <= i < points.len() && (#[trigger] points[i]).metrics.up_v4_bps == b.up_v4_bps_min
            &&& exists|i: int|
                0 <= i < points.len() && (#[trigger] points[i]).metrics.up_v4_bps == b.up_v4_bps_p95
            &&& forall|i: int|
                0 <= i < points.len() ==> b.up_v4_bps_min <= (#[trigger] points[i]).metrics.up_v4_bps
                    <= b.up_v4_bps_max
            &&& exists|i: int|
                0 <= i < points.len() && (#[trigger] points[i]).metrics.down_v4_bps == b.down_v4_bps_max
            &&& exists|i: int|
                0 <= i < points.len() && (#[trigger] points[i]).metrics.down_v4_bps == b.down_v4_bps_min
            &&& exists|i: int|
                0 <= i < points.len() && (#[trigger] points[i]).metrics.down_v4_bps == b.down_v4_bps_p95
            &&& forall|i: int|
                0 <= i < points.len() ==> b.down_v4_bps_min <= (#[trigger] points[i]).metrics.down_v4_bps
                    <= b.down_v4_bps_max
            &&& exists|i: int|
                0 <= i < points.len() && (#[trigger] points[i]).metrics.up_v6_bps == b.up_v6_bps_max
            &&& exists|i: int|
                0 <= i < points.len() && (#[trigger] points[i]).metrics.up_v6_bps == b.up_v6_bps_min
            &&& exists|i: int|
                0 <= i < points.len() && (#[trigger] points[i]).metrics.up_v6_bps == b.up_v6_bps_p95
            &&& forall|i: int|
                0 <= i < points.len() ==> b.up_v6_bps_min <= (#[trigger] points[i]).metrics.up_v6_bps
                    <= b.up_v6_bps_max
            &&& exists|i: int|
                0 <= i < points.len() && (#[trigger] points[i]).metrics.down_v6_bps == b.down_v6_bps_max
            &&& exists|i: int|
                0 <= i < points.len() && (#[trigger] points[i]).metrics.down_v6_bps == b.down_v6_bps_min
            &&& exists|i: int|
                0 <= i < points.len() && (#[trigger] points[i]).metrics.down_v6_bps == b.down_v6_bps_p95
            &&& forall|i: int|
                0 <= i < points.len() ==> b.down_v6_bps_min <= (#[trigger] points[i]).metrics.down_v6_bps
                    <= b.down_v6_bps_max
        }),
{
    let b = counters::points_bucket(start_ms, end_ms, points);
    lemma_hour_described(start_ms, end_ms, points);
    let s = lists::numbers(points, |x: HistoryPoint| x.metrics.up_v4_bps);
    assert(s.contains(b.up_v4_bps_max) && s.contains(b.up_v4_bps_min) && s.contains(b.up_v4_bps_p95));
    let i = choose|i: int| 0 <= i < s.len() && s[i] == b.up_v4_bps_max;
    assert(points[i].metrics.up_v4_bps == b.up_v4_bps_max);
    let i = choose|i: int| 0 <= i < s.len() && s[i] == b.up_v4_bps_min;
    assert(points[i].metrics.up_v4_bps == b.up_v4_bps_min);
    let i = choose|i: int| 0 <= i < s.len() && s[i] == b.up_v4_bps_p95;
    assert(points[i].metrics.up_v4_bps == b.up_v4_bps_p95);
    assert forall|i: int| 0 <= i < points.len() implies b.up_v4_bps_min <= (
    #[trigger] points[i]).metrics.up_v4_bps <= b.up_v4_bps_max by {
        assert(b.up_v4_bps_min <= s[i] <= b.up_v4_bps_max);
    }
    let s = lists::numbers(points, |x: HistoryPoint| x.metrics.down_v4_bps);
    assert(s.contains(b.down_v4_bps_max) && s.contains(b.down_v4_bps_min) && s.contains(b.down_v4_bps_p95));
    let i = choose|i: int| 0 <= i < s.len() && s[i] == b.down_v4_bps_max;
    assert(points[i].metrics.down_v4_bps == b.down_v4_bps_max);
    let i = choose|i: int| 0 <= i < s.len() && s[i] == b.down_v4_bps_min;
    assert(points[i].metrics.down_v4_bps == b.down_v4_bps_min);
    let i = choose|i: int| 0 <= i < s.len() && s[i] == b.down_v4_bps_p95;
    assert(points[i].metrics.down_v4_bps == b.down_v4_bps_p95);
    assert forall|i: int| 0 <= i < points.len() implies b.down_v4_bps_min <= (
    #[trigger] points[i]).metrics.down_v4_bps <= b.down_v4_bps_max by {
        assert(b.down_v4_bps_min <= s[i] <= b.down_v4_bps_max);
    }
    let s = lists::numbers(points, |x: HistoryPoint| x.metrics.up_v6_bps);
    assert(s.contains(b.up_v6_bps_max) && s.contains(b.up_v6_bps_min) && s.contains(b.up_v6_bps_p95));
    let i = choose|i: int| 0 <= i < s.len() && s[i] == b.up_v6_bps_max;
    assert(points[i].metrics.up_v6_bps == b.up_v6_bps_max);
    let i = choose|i: int| 0 <= i < s.len() && s[i] == b.up_v6_bps_min;
    assert(points[i].metrics.up_v6_bps == b.up_v6_bps_min);
    let i = choose|i: int| 0 <= i < s.len() && s[i] == b.up_v6_bps_p95;
    assert(points[i].metrics.up_v6_bps == b.up_v6_bps_p95);
    assert forall|i: int| 0 <= i < points.len() implies b.up_v6_bps_min <= (
    #[trigger] points[i]).metrics.up_v6_bps <= b.up_v6_bps_max by {
        assert(b.up_v6_bps_min <= s[i] <= b.up_v6_bps_max);
    }
    let s = lists::numbers(points, |x: HistoryPoint| x.metrics.down_v6_bps);
    assert(s.contains(b.down_v6_bps_max) && s.contains(b.down_v6_bps_min) && s.contains(b.down_v6_bps_p95));
    let i = choose|i: int| 0 <= i < s.len() && s[i] == b.down_v6_bps_max;
    assert(points[i].metrics.down_v6_bps == b.down_v6_bps_max);
    let i = choose|i: int| 0 <= i < s.len() && s[i] == b.down_v6_bps_min;
    assert(points[i].metrics.down_v6_bps == b.down_v6_bps_min);
    let i = choose|i: int| 0 <= i < s.len() && s[i] == b.down_v6_bps_p95;
    assert(points[i].metrics.down_v6_bps == b.down_v6_bps_p95);
    assert forall|i: int| 0 <= i < points.len() implies b.down_v6_bps_min <= (
    #[trigger] points[i]).metrics.down_v6_bps <= b.down_v6_bps_max by {
        assert(b.down_v6_bps_min <= s[i] <= b.down_v6_bps_max);
    }
}

proof fn lemma_rates_flat(parts: Seq<AggregatedBucket>)
    ensures
        counters::up_v4_rates(parts) == lists::flat(
            parts,
            |x: AggregatedBucket|
                seq![x.up_v4_bps_avg, x.up_v4_bps_max, x.up_v4_bps_min, x.up_v4_bps_p95],
        ),
        counters::up_v4_rates(parts).len() == 4 * parts.len(),
        counters::down_v4_rates(parts) == lists::flat(
            parts,
            |x: AggregatedBucket|
                seq![x.down_v4_bps_avg, x.down_v4_bps_max, x.down_v4_bps_min, x.down_v4_bps_p95],
        ),
        counters::down_v4_rates(parts).len() == 4 * parts.len(),
        counters::up_v6_rates(parts) == lists::flat(
            parts,
            |x: AggregatedBucket|
                seq![x.up_v6_bps_avg, x.up_v6_bps_max, x.up_v6_bps_min, x.up_v6_bps_p95],
        ),
        counters::up_v6_rates(parts).len() == 4 * parts.len(),
        counters::down_v6_rates(parts) == lists::flat(
            parts,
            |x: AggregatedBucket|
                seq![x.down_v6_bps_avg, x.down_v6_bps_max, x.down_v6_bps_min, x.down_v6_bps_p95],
        ),
        counters::down_v6_rates(parts).len() == 4 * parts.len(),
    decreases parts.len(),
{
    if parts.len() > 0 {
        lemma_rates_flat(parts.drop_last());
    }
}

/// A day begins and ends where the calendar says of its hours. For each of the four counters, its
/// bytes are those of all hours that begin in it added up, and its rates are mean, least, greatest
/// and percentile of the four rates that each of those hours shows.
pub proof fn lemma_day_described(h: Seq<AggregatedBucket>, cal: Lookups, i: int)
    requires
        0 <= i < histogram::daily(h, cal).len(),
    ensures
        ({
            let b = histogram::daily(h, cal)[i];
            let parts = lists::picked(
                h,
                |x: AggregatedBucket| calendar::day_at(cal, x.start_ts_ms).0 == b.start_ts_ms,
            );
            &&& parts.len() > 0
            &&& b.end_ts_ms == calendar::day_at(cal, parts[0].start_ts_ms).1
            &&& b.up_v4_bytes == stats::capped(
                stats::total(lists::numbers(parts, |x: AggregatedBucket| x.up_v4_bytes)),
            )
            &&& b.down_v4_bytes == stats::capped(
                stats::total(lists::numbers(parts, |x: AggregatedBucket| x.down_v4_bytes)),
            )
            &&& b.up_v6_bytes == stats::capped(
                stats::total(lists::numbers(parts, |x: AggregatedBucket| x.up_v6_bytes)),
            )
            &&& b.down_v6_bytes == stats::capped(
                stats::total(lists::numbers(parts, |x: AggregatedBucket| x.down_v6_bytes)),
            )
            &&& describes(
                lists::flat(
                    parts,
                    |x: AggregatedBucket|
                        seq![x.up_v4_bps_avg, x.up_v4_bps_max, x.up_v4_bps_min, x.up_v4_bps_p95],
                ),
                b.up_v4_bps_avg,
                b.up_v4_bps_min,
                b.up_v4_bps_max,
                b.up_v4_bps_p95,
            )
            &&& describes(
                lists::flat(
                    parts,
                    |x: AggregatedBucket|
                        seq![x.down_v4_bps_avg, x.down_v4_bps_max, x.down_v4_bps_min, x.down_v4_bps_p95],
                ),
                b.down_v4_bps_avg,
                b.down_v4_bps_min,
                b.down_v4_bps_max,
                b.down_v4_bps_p95,
            )
            &&& describes(
                lists::flat(
                    parts,
                    |x: AggregatedBucket|
                        seq![x.up_v6_bps_avg, x.up_v6_bps_max, x.up_v6_bps_min, x.up_v6_bps_p95],
                ),
                b.up_v6_bps_avg,
                b.up_v6_bps_min,
                b.up_v6_bps_max,
                b.up_v6_bps_p95,
            )
            &&& describes(
                lists::flat(
                    parts,
                    |x: AggregatedBucket|
                        seq![x.down_v6_bps_avg, x.down_v6_bps_max, x.down_v6_bps_min, x.down_v6_bps_p95],
                ),
                b.down_v6_bps_avg,
                b.down_v6_bps_min,
                b.down_v6_bps_max,
                b.down_v6_bps_p95,
            )
        }),
{
    let b = histogram::daily(h, cal)[i];
    let starts = histogram::days_of(h, cal);
    let days = lists::ascending_once(starts);
    let p = |x: AggregatedBucket| calendar::day_at(cal, x.start_ts_ms).0 == b.start_ts_ms;
    let parts = lists::picked(h, p);
    assert(histogram::day_test(cal, days[i]) =~= p);
    lists::lemma_ascending_once(starts);
    assert(days.contains(days[i]));
    assert(starts.contains(days[i]));
    let n = choose|n: int| 0 <= n < starts.len() && starts[n] == days[i];
    lists::lemma_picked_complete(h, p, n);
    lemma_rates_flat(parts);
    let q = counters::bytes_of(parts);
    let s = lists::flat(
        parts,
        |x: AggregatedBucket|
            seq![x.up_v4_bps_avg, x.up_v4_bps_max, x.up_v4_bps_min, x.up_v4_bps_p95],
    );
    assert(counters::up_v4_rates(parts) == s);
    assert(s.len() == 4 * parts.len());
    lemma_described(s);
    assert(counters::up_v4_bytes_of(q) =~= lists::numbers(
        parts,
        |x: AggregatedBucket| x.up_v4_bytes,
    ));
    let s = lists::flat(
        parts,
        |x: AggregatedBucket|
            seq![x.down_v4_bps_avg, x.down_v4_bps_max, x.down_v4_bps_min, x.down_v4_bps_p95],
    );
    assert(counters::down_v4_rates(parts) == s);
    assert(s.len() == 4 * parts.len());
    lemma_described(s);
    assert(counters::down_v4_bytes_of(q) =~= lists::numbers(
        parts,
        |x: AggregatedBucket| x.down_v4_bytes,
    ));
    let s = lists::flat(
        parts,
        |x: AggregatedBucket|
            seq![x.up_v6_bps_avg, x.up_v6_bps_max, x.up_v6_bps_min, x.up_v6_bps_p95],
    );
    assert(counters::up_v6_rates(parts) == s);
    assert(s.len() == 4 * parts.len());
    lemma_described(s);
    assert(counters::up_v6_bytes_of(q) =~= lists::numbers(
        parts,
        |x: AggregatedBucket| x.up_v6_bytes,
    ));
    let s = lists::flat(
        parts,
        |x: AggregatedBucket|
            seq![x.down_v6_bps_avg, x.down_v6_bps_max, x.down_v6_bps_min, x.down_v6_bps_p95],
    );
    assert(counters::down_v6_rates(parts) == s);
    assert(s.len() == 4 * parts.len());
    lemma_described(s);
    assert(counters::down_v6_bytes_of(q) =~= lists::numbers(
        parts,
        |x: AggregatedBucket| x.down_v6_bytes,
    ));
}

} // verus!
