//! What the rates of a day say of its hours, and that it does not matter how the hours come.

use vstd::prelude::*;

use crate::calendar;
use crate::calendar::Lookups;
use crate::calendar::Zone;
use crate::counters;
use crate::counters::AggregatedBucket;
use crate::histogram;
use crate::lists;
use crate::stats;
use crate::stats::RateStats;
use crate::sums;

verus! {

/// The rates of IPv4 sent, as they stand in a bucket.
pub open spec fn up_v4() -> spec_fn(AggregatedBucket) -> RateStats {
    |b: AggregatedBucket|
        RateStats {
            avg: b.up_v4_bps_avg,
            min: b.up_v4_bps_min,
            max: b.up_v4_bps_max,
            p95: b.up_v4_bps_p95,
        }
}

/// The rates of IPv4 received, as they stand in a bucket.
pub open spec fn down_v4() -> spec_fn(AggregatedBucket) -> RateStats {
    |b: AggregatedBucket|
        RateStats {
            avg: b.down_v4_bps_avg,
            min: b.down_v4_bps_min,
            max: b.down_v4_bps_max,
            p95: b.down_v4_bps_p95,
        }
}

/// The rates of IPv6 sent, as they stand in a bucket.
pub open spec fn up_v6() -> spec_fn(AggregatedBucket) -> RateStats {
    |b: AggregatedBucket|
        RateStats {
            avg: b.up_v6_bps_avg,
            min: b.up_v6_bps_min,
            max: b.up_v6_bps_max,
            p95: b.up_v6_bps_p95,
        }
}

/// The rates of IPv6 received, as they stand in a bucket.
pub open spec fn down_v6() -> spec_fn(AggregatedBucket) -> RateStats {
    |b: AggregatedBucket|
        RateStats {
            avg: b.down_v6_bps_avg,
            min: b.down_v6_bps_min,
            max: b.down_v6_bps_max,
            p95: b.down_v6_bps_p95,
        }
}

/// Whether mean and percentile lie between the least and the greatest rate.
pub open spec fn ranked_rates(r: RateStats) -> bool {
    r.min <= r.avg <= r.max && r.min <= r.p95 <= r.max
}

/// Whether mean and percentile lie between the least and the greatest rate, for every counter.
pub open spec fn ranked_bucket(b: AggregatedBucket) -> bool {
    &&& ranked_rates(up_v4()(b))
    &&& ranked_rates(down_v4()(b))
    &&& ranked_rates(up_v6()(b))
    &&& ranked_rates(down_v6()(b))
}

/// Whether `r` goes from the least to the greatest of some rates: no hour has a smaller least or a
/// larger greatest one, some hour has each of them, and mean and percentile lie between.
pub open spec fn spans(
    parts: Seq<AggregatedBucket>,
    of: spec_fn(AggregatedBucket) -> RateStats,
    r: RateStats,
) -> bool {
    &&& forall|i: int| 0 <= i < parts.len() ==> r.min <= of(#[trigger] parts[i]).min
    &&& forall|i: int| 0 <= i < parts.len() ==> of(#[trigger] parts[i]).max <= r.max
    &&& exists|i: int| 0 <= i < parts.len() && of(#[trigger] parts[i]).min == r.min
    &&& exists|i: int| 0 <= i < parts.len() && of(#[trigger] parts[i]).max == r.max
    &&& ranked_rates(r)
}

spec fn four(of: spec_fn(AggregatedBucket) -> RateStats) -> spec_fn(AggregatedBucket) -> Seq<u64> {
    |b: AggregatedBucket| seq![of(b).avg, of(b).max, of(b).min, of(b).p95]
}

proof fn lemma_rates_flat(parts: Seq<AggregatedBucket>)
    ensures
        counters::up_v4_rates(parts) == lists::flat(parts, four(up_v4())),
        counters::down_v4_rates(parts) == lists::flat(parts, four(down_v4())),
        counters::up_v6_rates(parts) == lists::flat(parts, four(up_v6())),
        counters::down_v6_rates(parts) == lists::flat(parts, four(down_v6())),
    decreases parts.len(),
{
    if parts.len() > 0 {
        lemma_rates_flat(parts.drop_last());
    }
}

proof fn lemma_spans(parts: Seq<AggregatedBucket>, of: spec_fn(AggregatedBucket) -> RateStats)
    requires
        parts.len() > 0,
        forall|i: int| 0 <= i < parts.len() ==> ranked_rates(of(#[trigger] parts[i])),
    ensures
        spans(parts, of, stats::rate_stats(lists::flat(parts, four(of)))),
{
    let s = lists::flat(parts, four(of));
    let r = stats::rate_stats(s);
    assert forall|i: int| 0 <= i < parts.len() implies s.contains(of(#[trigger] parts[i]).min)
        && s.contains(of(parts[i]).max) by {
        let q = four(of)(parts[i]);
        assert(q[1] == of(parts[i]).max && q[2] == of(parts[i]).min);
        lists::lemma_flat_complete(parts, four(of), i, of(parts[i]).min);
        lists::lemma_flat_complete(parts, four(of), i, of(parts[i]).max);
    }
    assert(s.contains(of(parts[0]).min));
    stats::lemma_rate_stats_order(s);
    stats::lemma_rate_stats_mean(s);
    assert forall|i: int| 0 <= i < parts.len() implies r.min <= of(#[trigger] parts[i]).min && of(
        parts[i],
    ).max <= r.max by {
        let a = choose|a: int| 0 <= a < s.len() && s[a] == of(parts[i]).min;
        let b = choose|b: int| 0 <= b < s.len() && s[b] == of(parts[i]).max;
        assert(r.min <= s[a] && s[b] <= r.max);
    }
    let i = lists::lemma_flat_member(parts, four(of), r.min);
    let j = lists::lemma_flat_member(parts, four(of), r.max);
    assert(ranked_rates(of(parts[i])) && ranked_rates(of(parts[j])));
    assert(of(parts[i]).min == r.min);
    assert(of(parts[j]).max == r.max);
}

/// For every counter, the bytes of a day are those of its hours added up, its greatest rate is the
/// greatest of its hours and its least rate the least of its hours, and mean and percentile lie
/// between them, where they do so in every hour.
pub proof fn lemma_daily_rates(h: Seq<AggregatedBucket>, cal: Lookups, i: int)
    requires
        0 <= i < histogram::daily(h, cal).len(),
        forall|n: int| 0 <= n < h.len() ==> ranked_bucket(#[trigger] h[n]),
    ensures
        ({
            let b = histogram::daily(h, cal)[i];
            let parts = histogram::of_day(h, cal, b.start_ts_ms);
            let q = counters::quad_total(counters::bytes_of(parts));
            &&& parts.len() > 0
            &&& b.up_v4_bytes == q.up_v4_bytes
            &&& b.down_v4_bytes == q.down_v4_bytes
            &&& b.up_v6_bytes == q.up_v6_bytes
            &&& b.down_v6_bytes == q.down_v6_bytes
            &&& spans(parts, up_v4(), up_v4()(b))
            &&& spans(parts, down_v4(), down_v4()(b))
            &&& spans(parts, up_v6(), up_v6()(b))
            &&& spans(parts, down_v6(), down_v6()(b))
        }),
{
    let starts = histogram::days_of(h, cal);
    let days = lists::ascending_once(starts);
    let day = days[i];
    let p = histogram::day_test(cal, day);
    let parts = histogram::of_day(h, cal, day);
    lists::lemma_ascending_once(starts);
    assert(days.contains(day));
    assert(starts.contains(day));
    let n = choose|n: int| 0 <= n < starts.len() && starts[n] == day;
    lists::lemma_picked_complete(h, p, n);
    assert(parts.len() > 0);
    assert forall|j: int| 0 <= j < parts.len() implies ranked_bucket(#[trigger] parts[j]) by {
        lists::lemma_picked_member(h, p, j);
        let m = choose|m: int| 0 <= m < h.len() && h[m] == parts[j];
        assert(ranked_bucket(h[m]));
    }
    lemma_rates_flat(parts);
    lemma_spans(parts, up_v4());
    lemma_spans(parts, down_v4());
    lemma_spans(parts, up_v6());
    lemma_spans(parts, down_v6());
}

/// Hours from samples have their mean and percentile between the least and the greatest rate.
pub proof fn lemma_points_ranked(
    start_ms: u64,
    end_ms: u64,
    points: Seq<counters::HistoryPoint>,
)
    ensures
        ranked_bucket(counters::points_bucket(start_ms, end_ms, points)),
{
    if points.len() > 0 {
        let m = counters::metrics_of(points);
        stats::lemma_rate_stats_order(counters::up_v4_bps_of(m));
        stats::lemma_rate_stats_mean(counters::up_v4_bps_of(m));
        stats::lemma_rate_stats_order(counters::down_v4_bps_of(m));
        stats::lemma_rate_stats_mean(counters::down_v4_bps_of(m));
        stats::lemma_rate_stats_order(counters::up_v6_bps_of(m));
        stats::lemma_rate_stats_mean(counters::up_v6_bps_of(m));
        stats::lemma_rate_stats_order(counters::down_v6_bps_of(m));
        stats::lemma_rate_stats_mean(counters::down_v6_bps_of(m));
    }
}

/// Whether the calendar gives all hours of one day the same day.
pub open spec fn steady_days(h: Seq<AggregatedBucket>, cal: Lookups) -> bool {
    forall|i: int, j: int|
        0 <= i < h.len() && 0 <= j < h.len() && calendar::day_at(
            cal,
            (#[trigger] h[i]).start_ts_ms,
        ).0 == calendar::day_at(cal, (#[trigger] h[j]).start_ts_ms).0 ==> calendar::day_at(
            cal,
            h[i].start_ts_ms,
        ) == calendar::day_at(cal, h[j].start_ts_ms)
}

proof fn lemma_merged_reordered(
    start_ms: u64,
    end_ms: u64,
    s: Seq<AggregatedBucket>,
    t: Seq<AggregatedBucket>,
)
    requires
        s.to_multiset() == t.to_multiset(),
    ensures
        counters::merged_bucket(start_ms, end_ms, s) == counters::merged_bucket(start_ms, end_ms, t),
{
    sums::lemma_bytes_reordered(s, t);
    lemma_rates_flat(s);
    lemma_rates_flat(t);
    lists::lemma_flat_reordered(s, t, four(up_v4()));
    lists::lemma_flat_reordered(s, t, four(down_v4()));
    lists::lemma_flat_reordered(s, t, four(up_v6()));
    lists::lemma_flat_reordered(s, t, four(down_v6()));
    stats::lemma_rate_stats_reordered(counters::up_v4_rates(s), counters::up_v4_rates(t));
    stats::lemma_rate_stats_reordered(counters::down_v4_rates(s), counters::down_v4_rates(t));
    stats::lemma_rate_stats_reordered(counters::up_v6_rates(s), counters::up_v6_rates(t));
    stats::lemma_rate_stats_reordered(counters::down_v6_rates(s), counters::down_v6_rates(t));
}

/// Days do not depend on the order in which their hours are given. Only the end of a day is taken
/// from the hour that comes first, and where the calendar gives all hours of one day the same day,
/// that does not depend on the order either.
pub proof fn lemma_daily_reordered(
    h: Seq<AggregatedBucket>,
    g: Seq<AggregatedBucket>,
    cal: Lookups,
)
    requires
        h.to_multiset() == g.to_multiset(),
    ensures
        histogram::daily(h, cal).len() == histogram::daily(g, cal).len(),
        forall|i: int|
            0 <= i < histogram::daily(h, cal).len() ==> #[trigger] histogram::daily(h, cal)[i] == (
            AggregatedBucket {
                end_ts_ms: histogram::daily(h, cal)[i].end_ts_ms,
                ..histogram::daily(g, cal)[i]
            }),
        steady_days(h, cal) ==> histogram::daily(h, cal) == histogram::daily(g, cal),
{
    let f = |b: AggregatedBucket| calendar::day_at(cal, b.start_ts_ms).0;
    let a = histogram::days_of(h, cal);
    let b = histogram::days_of(g, cal);
    assert(a =~= lists::numbers(h, f));
    assert(b =~= lists::numbers(g, f));
    lists::lemma_numbers_reordered(h, g, f);
    assert forall|x: u64| a.contains(x) <==> b.contains(x) by {
        a.to_multiset_ensures();
        b.to_multiset_ensures();
        assert(a.contains(x) <==> a.to_multiset().count(x) > 0);
        assert(b.contains(x) <==> b.to_multiset().count(x) > 0);
    }
    lists::lemma_ascending_once_same(a, b);
    let days = lists::ascending_once(a);
    lists::lemma_ascending_once(a);
    let x = histogram::daily(h, cal);
    let y = histogram::daily(g, cal);
    assert forall|i: int| 0 <= i < x.len() implies #[trigger] x[i] == (AggregatedBucket {
        end_ts_ms: x[i].end_ts_ms,
        ..y[i]
    }) && (steady_days(h, cal) ==> x[i] == y[i]) by {
        let day = days[i];
        let p = histogram::day_test(cal, day);
        let s = histogram::of_day(h, cal, day);
        let t = histogram::of_day(g, cal, day);
        lists::lemma_picked_reordered(h, g, p);
        lemma_merged_reordered(day, calendar::day_at(cal, s[0].start_ts_ms).1, s, t);
        assert(days.contains(day));
        assert(a.contains(day));
        let n = choose|n: int| 0 <= n < a.len() && a[n] == day;
        lists::lemma_picked_complete(h, p, n);
        s.to_multiset_ensures();
        t.to_multiset_ensures();
        assert(s.len() > 0 && t.len() > 0);
        lists::lemma_picked_member(h, p, 0);
        lists::lemma_picked_member(g, p, 0);
        h.to_multiset_ensures();
        g.to_multiset_ensures();
        assert(g.to_multiset().count(t[0]) > 0);
        assert(h.contains(t[0]));
        let u = choose|u: int| 0 <= u < h.len() && h[u] == s[0];
        let v = choose|v: int| 0 <= v < h.len() && h[v] == t[0];
        if steady_days(h, cal) {
            assert(calendar::day_at(cal, h[u].start_ts_ms) == calendar::day_at(
                cal,
                h[v].start_ts_ms,
            ));
        }
    }
    if steady_days(h, cal) {
        assert(x =~= y);
    }
}

/// By any one clock, days do not depend on the order in which their hours are given. Hours of days
/// that the clock does not show have no day, and are left out.
pub proof fn lemma_daily_reordered_by_clock(
    h: Seq<AggregatedBucket>,
    g: Seq<AggregatedBucket>,
    cal: Lookups,
    z: Zone,
)
    requires
        h.to_multiset() == g.to_multiset(),
        calendar::is_clock(z),
        calendar::follows(cal, z),
        histogram::covers_days(cal, h),
        forall|i: int|
            0 <= i < h.len() ==> calendar::day_at(cal, (#[trigger] h[i]).start_ts_ms) != (
            0u64,
            0u64,
            ),
    ensures
        histogram::daily(h, cal) == histogram::daily(g, cal),
{
    assert forall|i: int, j: int|
        0 <= i < h.len() && 0 <= j < h.len() && calendar::day_at(
            cal,
            (#[trigger] h[i]).start_ts_ms,
        ).0 == calendar::day_at(cal, (#[trigger] h[j]).start_ts_ms).0 implies calendar::day_at(
        cal,
        h[i].start_ts_ms,
    ) == calendar::day_at(cal, h[j].start_ts_ms) by {
        calendar::lemma_follows_days(cal, z, h[i].start_ts_ms, h[j].start_ts_ms);
    }
    lemma_daily_reordered(h, g, cal);
}

} // verus!
