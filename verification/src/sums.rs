//! What the hours and days of a histogram add up to, and what is left of a device that was removed.

use vstd::prelude::*;

use crate::calendar;
use crate::calendar::Lookups;
use crate::calendar::Zone;
use crate::counters;
use crate::counters::AggregatedBucket;
use crate::counters::CounterQuad;
use crate::counters::HistoryPoint;
use crate::histogram;
use crate::histogram::HistogramView;
use crate::hours;
use crate::hours::SeriesView;
use crate::lists;
use crate::sorting;
use crate::stats;
use crate::table;
use crate::text;

verus! {

/// One number of each bucket.
pub open spec fn amounts(s: Seq<AggregatedBucket>, f: spec_fn(AggregatedBucket) -> u64) -> Seq<u64> {
    Seq::new(s.len(), |i: int| f(s[i]))
}

/// What the given days add up to.
spec fn days_sum(
    h: Seq<AggregatedBucket>,
    cal: Lookups,
    days: Seq<u64>,
    f: spec_fn(AggregatedBucket) -> u64,
) -> nat
    decreases days.len(),
{
    if days.len() == 0 {
        0
    } else {
        days_sum(h, cal, days.drop_last(), f) + stats::total(
            amounts(histogram::of_day(h, cal, days.last()), f),
        )
    }
}

proof fn lemma_amounts_push(
    s: Seq<AggregatedBucket>,
    b: AggregatedBucket,
    f: spec_fn(AggregatedBucket) -> u64,
)
    ensures
        stats::total(amounts(s.push(b), f)) == stats::total(amounts(s, f)) + f(b),
{
    assert(amounts(s.push(b), f) =~= amounts(s, f).push(f(b)));
    stats::lemma_total_push(amounts(s, f), f(b));
}

proof fn lemma_days_sum_push(
    h: Seq<AggregatedBucket>,
    b: AggregatedBucket,
    cal: Lookups,
    days: Seq<u64>,
    f: spec_fn(AggregatedBucket) -> u64,
)
    requires
        days.no_duplicates(),
    ensures
        days_sum(h.push(b), cal, days, f) == days_sum(h, cal, days, f) + if days.contains(
            calendar::day_at(cal, b.start_ts_ms).0,
        ) {
            f(b) as nat
        } else {
            0
        },
    decreases days.len(),
{
    let day = calendar::day_at(cal, b.start_ts_ms).0;
    if days.len() > 0 {
        let rest = days.drop_last();
        assert(rest.no_duplicates());
        lemma_days_sum_push(h, b, cal, rest, f);
        let p = histogram::day_test(cal, days.last());
        lists::lemma_picked_push(h, b, p);
        lemma_amounts_push(histogram::of_day(h, cal, days.last()), b, f);
        if days.last() == day {
            assert(days[days.len() - 1] == day);
            if rest.contains(day) {
                let n = choose|n: int| 0 <= n < rest.len() && rest[n] == day;
                assert(days[n] == days[days.len() - 1]);
            }
        } else if days.contains(day) {
            let n = choose|n: int| 0 <= n < days.len() && days[n] == day;
            assert(rest[n] == day);
        } else if rest.contains(day) {
            let n = choose|n: int| 0 <= n < rest.len() && rest[n] == day;
            assert(days[n] == day);
        }
    }
}

proof fn lemma_days_sum(
    h: Seq<AggregatedBucket>,
    cal: Lookups,
    days: Seq<u64>,
    f: spec_fn(AggregatedBucket) -> u64,
)
    requires
        days.no_duplicates(),
        forall|i: int|
            0 <= i < h.len() ==> days.contains(
                calendar::day_at(cal, (#[trigger] h[i]).start_ts_ms).0,
            ),
    ensures
        days_sum(h, cal, days, f) == stats::total(amounts(h, f)),
    decreases h.len(),
{
    if h.len() == 0 {
        lemma_days_sum_nothing(h, cal, days, f);
    } else {
        let g = h.drop_last();
        assert forall|i: int| 0 <= i < g.len() implies days.contains(
            calendar::day_at(cal, (#[trigger] g[i]).start_ts_ms).0,
        ) by {
            assert(days.contains(calendar::day_at(cal, h[i].start_ts_ms).0));
        }
        lemma_days_sum(g, cal, days, f);
        assert(g.push(h.last()) =~= h);
        assert(days.contains(calendar::day_at(cal, h[h.len() - 1].start_ts_ms).0));
        lemma_days_sum_push(g, h.last(), cal, days, f);
        lemma_amounts_push(g, h.last(), f);
    }
}

proof fn lemma_days_sum_nothing(
    h: Seq<AggregatedBucket>,
    cal: Lookups,
    days: Seq<u64>,
    f: spec_fn(AggregatedBucket) -> u64,
)
    requires
        h.len() == 0,
    ensures
        days_sum(h, cal, days, f) == 0,
    decreases days.len(),
{
    if days.len() > 0 {
        lemma_days_sum_nothing(h, cal, days.drop_last(), f);
    }
}

proof fn lemma_days_sum_part(
    h: Seq<AggregatedBucket>,
    cal: Lookups,
    days: Seq<u64>,
    f: spec_fn(AggregatedBucket) -> u64,
    i: int,
)
    requires
        0 <= i < days.len(),
    ensures
        stats::total(amounts(histogram::of_day(h, cal, days[i]), f)) <= days_sum(h, cal, days, f),
    decreases days.len(),
{
    if i < days.len() - 1 {
        lemma_days_sum_part(h, cal, days.drop_last(), f, i);
    }
}

proof fn lemma_daily_prefix(
    h: Seq<AggregatedBucket>,
    cal: Lookups,
    days: Seq<u64>,
    out: Seq<AggregatedBucket>,
    f: spec_fn(AggregatedBucket) -> u64,
)
    requires
        out.len() == days.len(),
        forall|i: int|
            0 <= i < days.len() ==> f(#[trigger] out[i]) == stats::total(
                amounts(histogram::of_day(h, cal, days[i]), f),
            ),
    ensures
        stats::total(amounts(out, f)) == days_sum(h, cal, days, f),
    decreases days.len(),
{
    if days.len() > 0 {
        let o = out.drop_last();
        let d = days.drop_last();
        assert forall|i: int| 0 <= i < d.len() implies f(#[trigger] o[i]) == stats::total(
            amounts(histogram::of_day(h, cal, d[i]), f),
        ) by {
            assert(f(out[i]) == stats::total(amounts(histogram::of_day(h, cal, days[i]), f)));
        }
        lemma_daily_prefix(h, cal, d, o, f);
        assert(o.push(out.last()) =~= out);
        lemma_amounts_push(o, out.last(), f);
        assert(f(out[out.len() - 1]) == stats::total(
            amounts(histogram::of_day(h, cal, days[days.len() - 1]), f),
        ));
    }
}

proof fn lemma_daily_amount(
    h: Seq<AggregatedBucket>,
    cal: Lookups,
    f: spec_fn(AggregatedBucket) -> u64,
)
    requires
        stats::total(amounts(h, f)) <= u64::MAX,
        forall|day: u64|
            f(#[trigger] histogram::day_bucket(h, cal, day)) == stats::capped(
                stats::total(amounts(histogram::of_day(h, cal, day), f)),
            ),
    ensures
        stats::total(amounts(histogram::daily(h, cal), f)) == stats::total(amounts(h, f)),
{
    let starts = histogram::days_of(h, cal);
    let days = lists::ascending_once(starts);
    lists::lemma_ascending_once(starts);
    assert(days.no_duplicates()) by {
        assert forall|i: int, j: int| 0 <= i < days.len() && 0 <= j < days.len() && i != j implies days[i]
            != days[j] by {
            if i < j {
                assert(days[i] < days[j]);
            } else {
                assert(days[j] < days[i]);
            }
        }
    }
    assert forall|i: int| 0 <= i < h.len() implies days.contains(
        calendar::day_at(cal, (#[trigger] h[i]).start_ts_ms).0,
    ) by {
        assert(starts[i] == calendar::day_at(cal, h[i].start_ts_ms).0);
        assert(starts.contains(starts[i]));
    }
    lemma_days_sum(h, cal, days, f);
    let out = histogram::daily(h, cal);
    assert forall|i: int| 0 <= i < days.len() implies f(#[trigger] out[i]) == stats::total(
        amounts(histogram::of_day(h, cal, days[i]), f),
    ) by {
        lemma_days_sum_part(h, cal, days, f, i);
        assert(out[i] == histogram::day_bucket(h, cal, days[i]));
    }
    lemma_daily_prefix(h, cal, days, out, f);
}

proof fn lemma_daily_capped_prefix(
    h: Seq<AggregatedBucket>,
    cal: Lookups,
    days: Seq<u64>,
    out: Seq<AggregatedBucket>,
    f: spec_fn(AggregatedBucket) -> u64,
)
    requires
        out.len() == days.len(),
        forall|i: int|
            0 <= i < days.len() ==> f(#[trigger] out[i]) == stats::capped(
                stats::total(amounts(histogram::of_day(h, cal, days[i]), f)),
            ),
    ensures
        stats::capped(stats::total(amounts(out, f))) == stats::capped(days_sum(h, cal, days, f)),
    decreases days.len(),
{
    if days.len() > 0 {
        let o = out.drop_last();
        let d = days.drop_last();
        assert forall|i: int| 0 <= i < d.len() implies f(#[trigger] o[i]) == stats::capped(
            stats::total(amounts(histogram::of_day(h, cal, d[i]), f)),
        ) by {
            assert(f(out[i]) == stats::capped(
                stats::total(amounts(histogram::of_day(h, cal, days[i]), f)),
            ));
        }
        lemma_daily_capped_prefix(h, cal, d, o, f);
        assert(o.push(out.last()) =~= out);
        lemma_amounts_push(o, out.last(), f);
        assert(f(out[out.len() - 1]) == stats::capped(
            stats::total(amounts(histogram::of_day(h, cal, days[days.len() - 1]), f)),
        ));
    }
}

/// Gathering hours into days keeps what they add up to, up to the largest number that a counter
/// holds, for any number of which each day has the sum over its hours.
pub proof fn lemma_daily_capped(
    h: Seq<AggregatedBucket>,
    cal: Lookups,
    f: spec_fn(AggregatedBucket) -> u64,
)
    requires
        forall|day: u64|
            f(#[trigger] histogram::day_bucket(h, cal, day)) == stats::capped(
                stats::total(amounts(histogram::of_day(h, cal, day), f)),
            ),
    ensures
        stats::capped(stats::total(amounts(histogram::daily(h, cal), f))) == stats::capped(
            stats::total(amounts(h, f)),
        ),
{
    let starts = histogram::days_of(h, cal);
    let days = lists::ascending_once(starts);
    lists::lemma_ascending_once(starts);
    assert(days.no_duplicates()) by {
        assert forall|i: int, j: int| 0 <= i < days.len() && 0 <= j < days.len() && i != j implies days[i]
            != days[j] by {
            if i < j {
                assert(days[i] < days[j]);
            } else {
                assert(days[j] < days[i]);
            }
        }
    }
    assert forall|i: int| 0 <= i < h.len() implies days.contains(
        calendar::day_at(cal, (#[trigger] h[i]).start_ts_ms).0,
    ) by {
        assert(starts[i] == calendar::day_at(cal, h[i].start_ts_ms).0);
        assert(starts.contains(starts[i]));
    }
    lemma_days_sum(h, cal, days, f);
    let out = histogram::daily(h, cal);
    assert forall|i: int| 0 <= i < days.len() implies f(#[trigger] out[i]) == stats::capped(
        stats::total(amounts(histogram::of_day(h, cal, days[i]), f)),
    ) by {
        assert(out[i] == histogram::day_bucket(h, cal, days[i]));
    }
    lemma_daily_capped_prefix(h, cal, days, out, f);
}

/// Days come out strictly one after another, and a day is among them exactly where an hour lies in
/// it.
pub proof fn lemma_daily_in_order(h: Seq<AggregatedBucket>, cal: Lookups)
    ensures
        forall|i: int, j: int|
            0 <= i < j < histogram::daily(h, cal).len() ==> (#[trigger] histogram::daily(
                h,
                cal,
            )[i]).start_ts_ms < (#[trigger] histogram::daily(h, cal)[j]).start_ts_ms,
        forall|day: u64|
            histogram::days_of(h, cal).contains(day) <==> exists|i: int|
                0 <= i < histogram::daily(h, cal).len() && (#[trigger] histogram::daily(
                    h,
                    cal,
                )[i]).start_ts_ms == day,
{
    let starts = histogram::days_of(h, cal);
    let days = lists::ascending_once(starts);
    let out = histogram::daily(h, cal);
    lists::lemma_ascending_once(starts);
    assert forall|i: int, j: int| 0 <= i < j < out.len() implies (#[trigger] out[i]).start_ts_ms < (
    #[trigger] out[j]).start_ts_ms by {
        assert(days[i] < days[j]);
    }
    assert forall|day: u64| starts.contains(day) <==> exists|i: int|
        0 <= i < out.len() && (#[trigger] out[i]).start_ts_ms == day by {
        if starts.contains(day) {
            assert(days.contains(day));
            let n = choose|n: int| 0 <= n < days.len() && days[n] == day;
            assert(out[n].start_ts_ms == day);
        }
        if exists|i: int| 0 <= i < out.len() && (#[trigger] out[i]).start_ts_ms == day {
            let n = choose|n: int| 0 <= n < out.len() && (#[trigger] out[n]).start_ts_ms == day;
            assert(days[n] == day);
            assert(days.contains(day));
        }
    }
}

/// Gathering hours into days neither loses nor adds bytes, as long as the bytes of all hours fit
/// into a counter.
pub proof fn lemma_daily_keeps_bytes(h: Seq<AggregatedBucket>, cal: Lookups)
    requires
        stats::total(amounts(h, |b: AggregatedBucket| b.up_v4_bytes)) <= u64::MAX,
        stats::total(amounts(h, |b: AggregatedBucket| b.down_v4_bytes)) <= u64::MAX,
        stats::total(amounts(h, |b: AggregatedBucket| b.up_v6_bytes)) <= u64::MAX,
        stats::total(amounts(h, |b: AggregatedBucket| b.down_v6_bytes)) <= u64::MAX,
    ensures
        stats::total(amounts(histogram::daily(h, cal), |b: AggregatedBucket| b.up_v4_bytes))
            == stats::total(amounts(h, |b: AggregatedBucket| b.up_v4_bytes)),
        stats::total(amounts(histogram::daily(h, cal), |b: AggregatedBucket| b.down_v4_bytes))
            == stats::total(amounts(h, |b: AggregatedBucket| b.down_v4_bytes)),
        stats::total(amounts(histogram::daily(h, cal), |b: AggregatedBucket| b.up_v6_bytes))
            == stats::total(amounts(h, |b: AggregatedBucket| b.up_v6_bytes)),
        stats::total(amounts(histogram::daily(h, cal), |b: AggregatedBucket| b.down_v6_bytes))
            == stats::total(amounts(h, |b: AggregatedBucket| b.down_v6_bytes)),
{
    let a = |b: AggregatedBucket| b.up_v4_bytes;
    let b = |b: AggregatedBucket| b.down_v4_bytes;
    let c = |b: AggregatedBucket| b.up_v6_bytes;
    let d = |b: AggregatedBucket| b.down_v6_bytes;
    assert forall|day: u64| a(#[trigger] histogram::day_bucket(h, cal, day)) == stats::capped(
        stats::total(amounts(histogram::of_day(h, cal, day), a)),
    ) && b(histogram::day_bucket(h, cal, day)) == stats::capped(
        stats::total(amounts(histogram::of_day(h, cal, day), b)),
    ) && c(histogram::day_bucket(h, cal, day)) == stats::capped(
        stats::total(amounts(histogram::of_day(h, cal, day), c)),
    ) && d(histogram::day_bucket(h, cal, day)) == stats::capped(
        stats::total(amounts(histogram::of_day(h, cal, day), d)),
    ) by {
        let parts = histogram::of_day(h, cal, day);
        let q = counters::bytes_of(parts);
        assert(counters::up_v4_bytes_of(q) =~= amounts(parts, a));
        assert(counters::down_v4_bytes_of(q) =~= amounts(parts, b));
        assert(counters::up_v6_bytes_of(q) =~= amounts(parts, c));
        assert(counters::down_v6_bytes_of(q) =~= amounts(parts, d));
    }
    lemma_daily_amount(h, cal, a);
    lemma_daily_amount(h, cal, b);
    lemma_daily_amount(h, cal, c);
    lemma_daily_amount(h, cal, d);
}

/// The bytes of the closed hours of one interface.
pub open spec fn closed_bytes(h: HistogramView, ifindex: u32) -> Option<CounterQuad> {
    match table::lookup(h.ifaces.completed, ifindex) {
        Some(q) => Some(counters::quad_total(counters::bytes_of(q))),
        None => None,
    }
}

proof fn lemma_closed_totals(s: Seq<(u32, Seq<AggregatedBucket>)>, ifindex: u32)
    requires
        table::distinct(s),
    ensures
        histogram::closed_iface_totals(s).get(ifindex) == (match table::lookup(s, ifindex) {
            Some(q) => Some(counters::quad_total(counters::bytes_of(q))),
            None => None,
        }),
    decreases s.len(),
{
    if s.len() > 0 {
        table::lemma_lookup_last(s, ifindex);
        lemma_closed_totals(s.drop_last(), ifindex);
    } else {
        assert(!table::has_key(s, ifindex));
    }
}

proof fn lemma_open_totals(
    totals: Map<u32, CounterQuad>,
    s: Seq<(u32, (u64, Seq<HistoryPoint>))>,
    ifindex: u32,
)
    requires
        table::distinct(s),
    ensures
        histogram::with_open_ifaces(totals, s).get(ifindex) == (match table::lookup(s, ifindex) {
            Some(open) => if open.1.len() > 0 {
                Some(
                    counters::quad_sum(
                        counters::quad_under(totals, ifindex),
                        histogram::hour_bytes(open.1),
                    ),
                )
            } else {
                totals.get(ifindex)
            },
            None => totals.get(ifindex),
        }),
    decreases s.len(),
{
    if s.len() > 0 {
        table::lemma_lookup_last(s, ifindex);
        lemma_open_totals(totals, s.drop_last(), ifindex);
    } else {
        assert(!table::has_key(s, ifindex));
    }
}

/// The total of an interface is what its closed hours carried and what its open hour did; there is
/// one exactly where it has closed hours, or an open hour with samples.
pub proof fn lemma_iface_total(h: HistogramView, ifindex: u32)
    requires
        table::distinct(h.ifaces.completed),
        table::distinct(h.ifaces.current),
    ensures
        histogram::with_open_ifaces(
            histogram::closed_iface_totals(h.ifaces.completed),
            h.ifaces.current,
        ).get(ifindex) == (match table::lookup(h.ifaces.current, ifindex) {
            Some(open) => if open.1.len() > 0 {
                Some(
                    counters::quad_sum(
                        match closed_bytes(h, ifindex) {
                            Some(q) => q,
                            None => counters::zero_quad(),
                        },
                        histogram::hour_bytes(open.1),
                    ),
                )
            } else {
                closed_bytes(h, ifindex)
            },
            None => closed_bytes(h, ifindex),
        }),
{
    lemma_closed_totals(h.ifaces.completed, ifindex);
    lemma_open_totals(
        histogram::closed_iface_totals(h.ifaces.completed),
        h.ifaces.current,
        ifindex,
    );
}

/// The bytes of some buckets do not depend on their order.
pub proof fn lemma_bytes_reordered(s: Seq<AggregatedBucket>, t: Seq<AggregatedBucket>)
    requires
        s.to_multiset() == t.to_multiset(),
    ensures
        counters::quad_total(counters::bytes_of(s)) == counters::quad_total(counters::bytes_of(t)),
{
    let a = |b: AggregatedBucket| b.up_v4_bytes;
    let b = |b: AggregatedBucket| b.down_v4_bytes;
    let c = |b: AggregatedBucket| b.up_v6_bytes;
    let d = |b: AggregatedBucket| b.down_v6_bytes;
    let zero = |b: AggregatedBucket| 0u64;
    lemma_amount_reordered(s, t, a);
    lemma_amount_reordered(s, t, b);
    lemma_amount_reordered(s, t, c);
    lemma_amount_reordered(s, t, d);
    lemma_amount_reordered(s, t, zero);
    let q = counters::bytes_of(s);
    let r = counters::bytes_of(t);
    assert(counters::up_v4_bps_of(q) =~= amounts(s, zero));
    assert(counters::up_v4_bps_of(r) =~= amounts(t, zero));
    assert(counters::down_v4_bps_of(q) =~= amounts(s, zero));
    assert(counters::down_v4_bps_of(r) =~= amounts(t, zero));
    assert(counters::up_v6_bps_of(q) =~= amounts(s, zero));
    assert(counters::up_v6_bps_of(r) =~= amounts(t, zero));
    assert(counters::down_v6_bps_of(q) =~= amounts(s, zero));
    assert(counters::down_v6_bps_of(r) =~= amounts(t, zero));
    assert(counters::up_v4_bytes_of(q) =~= amounts(s, a));
    assert(counters::up_v4_bytes_of(r) =~= amounts(t, a));
    assert(counters::down_v4_bytes_of(q) =~= amounts(s, b));
    assert(counters::down_v4_bytes_of(r) =~= amounts(t, b));
    assert(counters::up_v6_bytes_of(q) =~= amounts(s, c));
    assert(counters::up_v6_bytes_of(r) =~= amounts(t, c));
    assert(counters::down_v6_bytes_of(q) =~= amounts(s, d));
    assert(counters::down_v6_bytes_of(r) =~= amounts(t, d));
}

proof fn lemma_bytes_no_rates(s: Seq<AggregatedBucket>)
    ensures
        counters::quad_total(counters::bytes_of(s)).up_v4_bps == 0,
        counters::quad_total(counters::bytes_of(s)).down_v4_bps == 0,
        counters::quad_total(counters::bytes_of(s)).up_v6_bps == 0,
        counters::quad_total(counters::bytes_of(s)).down_v6_bps == 0,
    decreases s.len(),
{
    let q = counters::bytes_of(s);
    if s.len() > 0 {
        let r = counters::bytes_of(s.drop_last());
        lemma_bytes_no_rates(s.drop_last());
        assert(q =~= r.push(counters::bucket_bytes(s.last())));
        counters::lemma_quad_total_push(r, counters::bucket_bytes(s.last()));
    } else {
        assert(q =~= Seq::<CounterQuad>::empty());
        counters::lemma_quad_total_empty();
    }
}

/// What some buckets add up to does not depend on their order.
pub proof fn lemma_amount_reordered(
    s: Seq<AggregatedBucket>,
    t: Seq<AggregatedBucket>,
    f: spec_fn(AggregatedBucket) -> u64,
)
    requires
        s.to_multiset() == t.to_multiset(),
    ensures
        stats::total(amounts(s, f)) == stats::total(amounts(t, f)),
{
    lists::lemma_numbers_reordered(s, t, f);
    assert(amounts(s, f) =~= lists::numbers(s, f));
    assert(amounts(t, f) =~= lists::numbers(t, f));
    stats::lemma_total_reordered(amounts(s, f), amounts(t, f));
}

/// The total of an interface is the bytes of all hours that a query for all times finds, without
/// rates, and there is one exactly where the query finds an hour.
pub proof fn lemma_iface_total_queried(h: HistogramView, ifindex: u32, cal: Lookups)
    requires
        table::distinct(h.ifaces.completed),
        table::distinct(h.ifaces.current),
        hours::rings_filled(h.ifaces),
    ensures
        histogram::with_open_ifaces(
            histogram::closed_iface_totals(h.ifaces.completed),
            h.ifaces.current,
        ).get(ifindex) == ({
            let found = histogram::queried_hours(h, ifindex, None, 0, u64::MAX, cal);
            if found.len() > 0 {
                Some(counters::quad_total(counters::bytes_of(found)))
            } else {
                None
            }
        }),
        ({
            let q = counters::quad_total(
                counters::bytes_of(histogram::queried_hours(h, ifindex, None, 0, u64::MAX, cal)),
            );
            q.up_v4_bps == 0 && q.down_v4_bps == 0 && q.up_v6_bps == 0 && q.down_v6_bps == 0
        }),
{
    let found = histogram::queried_hours(h, ifindex, None, 0, u64::MAX, cal);
    let all = hours::all_hours(h.ifaces, ifindex, cal);
    let ring = table::lookup_or(h.ifaces.completed, ifindex, Seq::empty());
    lemma_iface_total(h, ifindex);
    hours::lemma_hours_of_all_times(h.ifaces, ifindex, cal);
    sorting::lemma_sorted::<AggregatedBucket>(all);
    lemma_bytes_reordered(found, all);
    lemma_bytes_no_rates(found);
    counters::lemma_quad_total_empty();
    if table::lookup(h.ifaces.completed, ifindex) is Some {
        let n = table::place_of(h.ifaces.completed, ifindex);
        assert(table::is_place(h.ifaces.completed, ifindex, n));
        assert(h.ifaces.completed[n].1.len() > 0);
    } else {
        assert(counters::bytes_of(ring) =~= Seq::<CounterQuad>::empty());
    }
    if let Some(open) = table::lookup(h.ifaces.current, ifindex) {
        if open.1.len() > 0 {
            let b = hours::open_bucket(open, cal);
            assert(counters::bytes_of(all) =~= counters::bytes_of(ring).push(
                counters::bucket_bytes(b),
            ));
            counters::lemma_quad_total_push(counters::bytes_of(ring), counters::bucket_bytes(b));
            assert(counters::bucket_bytes(b) == histogram::hour_bytes(open.1));
        }
    }
}

/// Whether the open hour that a query asks for agrees with its bucket on some times.
pub open spec fn asked_told_alike(
    h: HistogramView,
    ifindex: u32,
    mac: Option<Seq<char>>,
    start_ms: u64,
    end_ms: u64,
    cal: Lookups,
) -> bool {
    if mac is Some && text::trimmed(mac.unwrap()).len() > 0 {
        match histogram::device_key(h.devices, ifindex, mac.unwrap()) {
            Some(k) => hours::told_alike(h.devices, k, start_ms, end_ms, cal),
            None => true,
        }
    } else {
        hours::told_alike(h.ifaces, ifindex, start_ms, end_ms, cal)
    }
}

/// A query finds hours in order of their beginning. For some times it finds exactly those of the
/// hours that a query for all times finds that have a moment in common with them, if and only if the
/// open hour agrees with its bucket on these times.
pub proof fn lemma_queried_within(
    h: HistogramView,
    ifindex: u32,
    mac: Option<Seq<char>>,
    start_ms: u64,
    end_ms: u64,
    cal: Lookups,
)
    ensures
        histogram::queried_hours(h, ifindex, mac, start_ms, end_ms, cal) == lists::picked(
            histogram::queried_hours(h, ifindex, mac, 0, u64::MAX, cal),
            hours::overlap_test(start_ms, end_ms),
        ) <==> asked_told_alike(h, ifindex, mac, start_ms, end_ms, cal),
        sorting::in_order::<AggregatedBucket>(
            histogram::queried_hours(h, ifindex, mac, start_ms, end_ms, cal),
        ),
{
    if mac is Some && text::trimmed(mac.unwrap()).len() > 0 {
        match histogram::device_key(h.devices, ifindex, mac.unwrap()) {
            Some(k) => {
                hours::lemma_hourly_within(h.devices, k, start_ms, end_ms, cal);
                hours::lemma_hourly(h.devices, k, start_ms, end_ms, cal);
            },
            None => {},
        }
    } else {
        hours::lemma_hourly_within(h.ifaces, ifindex, start_ms, end_ms, cal);
        hours::lemma_hourly(h.ifaces, ifindex, start_ms, end_ms, cal);
    }
}

/// The open hour of the series that a query asks for.
pub open spec fn asked_open(h: HistogramView, ifindex: u32, mac: Option<Seq<char>>) -> Option<
    (u64, Seq<HistoryPoint>),
> {
    if mac is Some && text::trimmed(mac.unwrap()).len() > 0 {
        match histogram::device_key(h.devices, ifindex, mac.unwrap()) {
            Some(k) => table::lookup(h.devices.current, k),
            None => None,
        }
    } else {
        table::lookup(h.ifaces.current, ifindex)
    }
}

/// By any one clock, a query for some times finds exactly those of the hours that a query for all
/// times finds that have a moment in common with them, in order of their beginning. An open hour
/// that the clock does not show has no window, and is left out.
pub proof fn lemma_queried_within_by_clock(
    h: HistogramView,
    ifindex: u32,
    mac: Option<Seq<char>>,
    start_ms: u64,
    end_ms: u64,
    cal: Lookups,
    z: Zone,
)
    requires
        calendar::is_clock(z),
        calendar::follows(cal, z),
        match asked_open(h, ifindex, mac) {
            Some(open) => {
                let w = calendar::hour_at(cal, open.0);
                cal.hours.contains_key(open.0) && cal.hours.contains_key(w.0) && w != (0u64, 0u64)
            },
            None => true,
        },
    ensures
        histogram::queried_hours(h, ifindex, mac, start_ms, end_ms, cal) == lists::picked(
            histogram::queried_hours(h, ifindex, mac, 0, u64::MAX, cal),
            hours::overlap_test(start_ms, end_ms),
        ),
        sorting::in_order::<AggregatedBucket>(
            histogram::queried_hours(h, ifindex, mac, start_ms, end_ms, cal),
        ),
{
    lemma_queried_within(h, ifindex, mac, start_ms, end_ms, cal);
    if let Some(open) = asked_open(h, ifindex, mac) {
        calendar::lemma_follows_steady(cal, z, open.0);
    }
}

proof fn lemma_without_first_key<A, B>(s: Seq<(A, B)>, p: spec_fn(A) -> bool)
    ensures
        table::first_key(table::without(s, p), p) is None,
{
    let t = table::without(s, p);
    assert forall|i: int| 0 <= i < t.len() implies !p((#[trigger] t[i]).0) by {
        table::lemma_without_member(s, p, i);
    }
    table::lemma_first_key(t, p);
}

/// The histogram without a device, as it is left by removing the device.
pub open spec fn without_device(h: HistogramView, ifindex: u32, mac: Seq<char>) -> HistogramView {
    HistogramView {
        devices: SeriesView {
            current: table::without(h.devices.current, histogram::device_test(ifindex, mac)),
            completed: table::without(h.devices.completed, histogram::device_test(ifindex, mac)),
        },
        ..h
    }
}

/// A device that was removed has no hours left, whatever case its address is written in.
pub proof fn lemma_removed_device_gone(
    h: HistogramView,
    ifindex: u32,
    mac: Seq<char>,
    asked: Seq<char>,
    start_ms: u64,
    end_ms: u64,
    cal: Lookups,
)
    requires
        text::same_ignoring_case(mac, asked),
        text::trimmed(asked).len() > 0,
    ensures
        histogram::queried_hours(
            without_device(h, ifindex, mac),
            ifindex,
            Some(asked),
            start_ms,
            end_ms,
            cal,
        ) == Seq::<AggregatedBucket>::empty(),
{
    let p = histogram::device_test(ifindex, mac);
    let q = histogram::device_test(ifindex, asked);
    assert forall|k: (u32, Seq<char>)| #[trigger] p(k) == q(k) by {
        text::lemma_same_case_alike(k.1, mac, asked);
    }
    assert(p =~= q);
    lemma_without_first_key(h.devices.current, p);
    lemma_without_first_key(h.devices.completed, p);
}

/// Removing a device leaves every interface, and every device that it does not name, as it was.
pub proof fn lemma_removed_device_others(
    h: HistogramView,
    ifindex: u32,
    mac: Seq<char>,
    other: (u32, Seq<char>),
)
    requires
        table::distinct(h.devices.current),
        table::distinct(h.devices.completed),
        !histogram::names_device(other, ifindex, mac),
    ensures
        without_device(h, ifindex, mac).ifaces == h.ifaces,
        table::lookup(without_device(h, ifindex, mac).devices.current, other) == table::lookup(
            h.devices.current,
            other,
        ),
        table::lookup(without_device(h, ifindex, mac).devices.completed, other) == table::lookup(
            h.devices.completed,
            other,
        ),
{
    let p = histogram::device_test(ifindex, mac);
    table::lemma_lookup_without(h.devices.current, p, other);
    table::lemma_lookup_without(h.devices.completed, p, other);
}

} // verus!
