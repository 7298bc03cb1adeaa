//! What the hours of a range of times carried, and who shows it.

use vstd::prelude::*;

use crate::api;
use crate::calendar;
use crate::calendar::Lookups;
use crate::counters;
use crate::counters::AggregateBucket;
use crate::counters::AggregatedBucket;
use crate::counters::HistoryPoint;
use crate::counters::HistoryTrafficType;
use crate::histogram;
use crate::histogram::HistogramView;
use crate::hours;
use crate::hours::SeriesView;
use crate::lists;
use crate::mac;
use crate::runtime::KnownView;
use crate::snapshot::DeviceView;
use crate::snapshot::InterfaceView;
use crate::sorting;
use crate::stats;
use crate::sums;
use crate::table;
use crate::text;
use crate::usage;
use crate::usage::UsageRankingItem;
use crate::usage::UsageView;

verus! {

/// What a series adds up to from one time to another: `f` of each closed hour that has a moment in
/// common with these times, and `g` of each sample of the open hour, where that hour has one.
pub open spec fn within(
    ring: Seq<AggregatedBucket>,
    open: Option<(u64, Seq<HistoryPoint>)>,
    from_ms: u64,
    to_ms: u64,
    cal: Lookups,
    f: spec_fn(AggregatedBucket) -> u64,
    g: spec_fn(HistoryPoint) -> u64,
) -> nat {
    stats::total(
        lists::numbers(
            lists::picked(
                ring,
                |b: AggregatedBucket| b.start_ts_ms <= to_ms && from_ms <= b.end_ts_ms,
            ),
            f,
        ),
    ) + (match open {
        Some((from, points)) => if calendar::hour_at(cal, from).0 <= to_ms && from_ms
            <= calendar::hour_at(cal, from).1 {
            stats::total(lists::numbers(points, g))
        } else {
            0
        },
        None => 0,
    })
}

/// An hour that ends before the times begin, or begins after they end, does not change what a series
/// adds up to in them; any other closed hour adds what it carried.
pub proof fn lemma_within_push(
    ring: Seq<AggregatedBucket>,
    b: AggregatedBucket,
    open: Option<(u64, Seq<HistoryPoint>)>,
    from_ms: u64,
    to_ms: u64,
    cal: Lookups,
    f: spec_fn(AggregatedBucket) -> u64,
    g: spec_fn(HistoryPoint) -> u64,
)
    ensures
        b.end_ts_ms < from_ms || to_ms < b.start_ts_ms ==> within(
            ring.push(b),
            open,
            from_ms,
            to_ms,
            cal,
            f,
            g,
        ) == within(ring, open, from_ms, to_ms, cal, f, g),
        from_ms <= b.end_ts_ms && b.start_ts_ms <= to_ms ==> within(
            ring.push(b),
            open,
            from_ms,
            to_ms,
            cal,
            f,
            g,
        ) == within(ring, open, from_ms, to_ms, cal, f, g) + f(b),
{
    let p = |b: AggregatedBucket| b.start_ts_ms <= to_ms && from_ms <= b.end_ts_ms;
    let s = lists::picked(ring, p);
    lists::lemma_picked_push(ring, b, p);
    assert(lists::numbers(s.push(b), f) =~= lists::numbers(s, f).push(f(b)));
    stats::lemma_total_push(lists::numbers(s, f), f(b));
}

proof fn lemma_hourly_figure<A>(
    s: SeriesView<A>,
    k: A,
    from_ms: u64,
    to_ms: u64,
    cal: Lookups,
    f: spec_fn(AggregatedBucket) -> u64,
    g: spec_fn(HistoryPoint) -> u64,
)
    requires
        forall|from: u64, to: u64, p: Seq<HistoryPoint>|
            f(#[trigger] counters::points_bucket(from, to, p)) == stats::capped(
                stats::total(lists::numbers(p, g)),
            ),
    ensures
        stats::capped(
            stats::total(lists::numbers(hours::hourly(s, k, from_ms, to_ms, cal), f)),
        ) == stats::capped(
            within(
                table::lookup_or(s.completed, k, Seq::empty()),
                table::lookup(s.current, k),
                from_ms,
                to_ms,
                cal,
                f,
                g,
            ),
        ),
{
    let all = hours::hours_between(s, k, from_ms, to_ms, cal);
    let out = hours::hourly(s, k, from_ms, to_ms, cal);
    sorting::lemma_sorted::<AggregatedBucket>(all);
    lists::lemma_numbers_reordered(out, all, f);
    stats::lemma_total_reordered(lists::numbers(out, f), lists::numbers(all, f));
    let ring = table::lookup_or(s.completed, k, Seq::empty());
    let p = |b: AggregatedBucket| b.start_ts_ms <= to_ms && from_ms <= b.end_ts_ms;
    assert(hours::overlap_test(from_ms, to_ms) =~= p);
    let done = lists::picked(ring, p);
    if let Some(open) = table::lookup(s.current, k) {
        let b = hours::open_bucket(open, cal);
        assert(lists::numbers(done.push(b), f) =~= lists::numbers(done, f).push(f(b)));
        stats::lemma_total_push(lists::numbers(done, f), f(b));
        if open.1.len() == 0 {
            assert(lists::numbers(open.1, g).len() == 0);
        }
    }
}

proof fn lemma_hourly_bytes<A>(s: SeriesView<A>, k: A, from_ms: u64, to_ms: u64, cal: Lookups)
    ensures
        stats::capped(
            stats::total(
                lists::numbers(
                    hours::hourly(s, k, from_ms, to_ms, cal),
                    |b: AggregatedBucket| b.up_v4_bytes,
                ),
            ),
        ) == stats::capped(
            within(
                table::lookup_or(s.completed, k, Seq::empty()),
                table::lookup(s.current, k),
                from_ms,
                to_ms,
                cal,
                |b: AggregatedBucket| b.up_v4_bytes,
                |p: HistoryPoint| p.metrics.up_v4_bytes,
            ),
        ),
        stats::capped(
            stats::total(
                lists::numbers(
                    hours::hourly(s, k, from_ms, to_ms, cal),
                    |b: AggregatedBucket| b.down_v4_bytes,
                ),
            ),
        ) == stats::capped(
            within(
                table::lookup_or(s.completed, k, Seq::empty()),
                table::lookup(s.current, k),
                from_ms,
                to_ms,
                cal,
                |b: AggregatedBucket| b.down_v4_bytes,
                |p: HistoryPoint| p.metrics.down_v4_bytes,
            ),
        ),
        stats::capped(
            stats::total(
                lists::numbers(
                    hours::hourly(s, k, from_ms, to_ms, cal),
                    |b: AggregatedBucket| b.up_v6_bytes,
                ),
            ),
        ) == stats::capped(
            within(
                table::lookup_or(s.completed, k, Seq::empty()),
                table::lookup(s.current, k),
                from_ms,
                to_ms,
                cal,
                |b: AggregatedBucket| b.up_v6_bytes,
                |p: HistoryPoint| p.metrics.up_v6_bytes,
            ),
        ),
        stats::capped(
            stats::total(
                lists::numbers(
                    hours::hourly(s, k, from_ms, to_ms, cal),
                    |b: AggregatedBucket| b.down_v6_bytes,
                ),
            ),
        ) == stats::capped(
            within(
                table::lookup_or(s.completed, k, Seq::empty()),
                table::lookup(s.current, k),
                from_ms,
                to_ms,
                cal,
                |b: AggregatedBucket| b.down_v6_bytes,
                |p: HistoryPoint| p.metrics.down_v6_bytes,
            ),
        ),
{
    let f = |b: AggregatedBucket| b.up_v4_bytes;
    let g = |p: HistoryPoint| p.metrics.up_v4_bytes;
    assert forall|from: u64, to: u64, p: Seq<HistoryPoint>| f(
        #[trigger] counters::points_bucket(from, to, p),
    ) == stats::capped(stats::total(lists::numbers(p, g))) by {
        assert(counters::up_v4_bytes_of(counters::metrics_of(p)) =~= lists::numbers(p, g));
    }
    lemma_hourly_figure(s, k, from_ms, to_ms, cal, f, g);
    let f = |b: AggregatedBucket| b.down_v4_bytes;
    let g = |p: HistoryPoint| p.metrics.down_v4_bytes;
    assert forall|from: u64, to: u64, p: Seq<HistoryPoint>| f(
        #[trigger] counters::points_bucket(from, to, p),
    ) == stats::capped(stats::total(lists::numbers(p, g))) by {
        assert(counters::down_v4_bytes_of(counters::metrics_of(p)) =~= lists::numbers(p, g));
    }
    lemma_hourly_figure(s, k, from_ms, to_ms, cal, f, g);
    let f = |b: AggregatedBucket| b.up_v6_bytes;
    let g = |p: HistoryPoint| p.metrics.up_v6_bytes;
    assert forall|from: u64, to: u64, p: Seq<HistoryPoint>| f(
        #[trigger] counters::points_bucket(from, to, p),
    ) == stats::capped(stats::total(lists::numbers(p, g))) by {
        assert(counters::up_v6_bytes_of(counters::metrics_of(p)) =~= lists::numbers(p, g));
    }
    lemma_hourly_figure(s, k, from_ms, to_ms, cal, f, g);
    let f = |b: AggregatedBucket| b.down_v6_bytes;
    let g = |p: HistoryPoint| p.metrics.down_v6_bytes;
    assert forall|from: u64, to: u64, p: Seq<HistoryPoint>| f(
        #[trigger] counters::points_bucket(from, to, p),
    ) == stats::capped(stats::total(lists::numbers(p, g))) by {
        assert(counters::down_v6_bytes_of(counters::metrics_of(p)) =~= lists::numbers(p, g));
    }
    lemma_hourly_figure(s, k, from_ms, to_ms, cal, f, g);
}

/// What some buckets carried together has no rates, and for each of the four counters the bytes of
/// that counter added up.
pub proof fn lemma_bytes_added(h: Seq<AggregatedBucket>)
    ensures
        counters::quad_total(counters::bytes_of(h)).up_v4_bytes == stats::capped(
            stats::total(lists::numbers(h, |b: AggregatedBucket| b.up_v4_bytes)),
        ),
        counters::quad_total(counters::bytes_of(h)).up_v4_bps == 0,
        counters::quad_total(counters::bytes_of(h)).down_v4_bytes == stats::capped(
            stats::total(lists::numbers(h, |b: AggregatedBucket| b.down_v4_bytes)),
        ),
        counters::quad_total(counters::bytes_of(h)).down_v4_bps == 0,
        counters::quad_total(counters::bytes_of(h)).up_v6_bytes == stats::capped(
            stats::total(lists::numbers(h, |b: AggregatedBucket| b.up_v6_bytes)),
        ),
        counters::quad_total(counters::bytes_of(h)).up_v6_bps == 0,
        counters::quad_total(counters::bytes_of(h)).down_v6_bytes == stats::capped(
            stats::total(lists::numbers(h, |b: AggregatedBucket| b.down_v6_bytes)),
        ),
        counters::quad_total(counters::bytes_of(h)).down_v6_bps == 0,
{
    let q = counters::bytes_of(h);
    lemma_nothing_adds(h);
    assert(counters::up_v4_bytes_of(q) =~= lists::numbers(h, |b: AggregatedBucket| b.up_v4_bytes));
    assert(counters::up_v4_bps_of(q) =~= lists::numbers(h, |b: AggregatedBucket| 0));
    assert(counters::down_v4_bytes_of(q) =~= lists::numbers(h, |b: AggregatedBucket| b.down_v4_bytes));
    assert(counters::down_v4_bps_of(q) =~= lists::numbers(h, |b: AggregatedBucket| 0));
    assert(counters::up_v6_bytes_of(q) =~= lists::numbers(h, |b: AggregatedBucket| b.up_v6_bytes));
    assert(counters::up_v6_bps_of(q) =~= lists::numbers(h, |b: AggregatedBucket| 0));
    assert(counters::down_v6_bytes_of(q) =~= lists::numbers(h, |b: AggregatedBucket| b.down_v6_bytes));
    assert(counters::down_v6_bps_of(q) =~= lists::numbers(h, |b: AggregatedBucket| 0));
}

proof fn lemma_nothing_adds(h: Seq<AggregatedBucket>)
    ensures
        stats::total(lists::numbers(h, |b: AggregatedBucket| 0)) == 0,
    decreases h.len(),
{
    if h.len() > 0 {
        lemma_nothing_adds(h.drop_last());
        let z = |b: AggregatedBucket| 0u64;
        assert(lists::numbers(h, z).drop_last() =~= lists::numbers(h.drop_last(), z));
    }
}

/// For each of the four counters, days carried together what their hours did.
pub proof fn lemma_days_carried(h: Seq<AggregatedBucket>, cal: Lookups)
    ensures
        stats::capped(
            stats::total(
                lists::numbers(histogram::daily(h, cal), |b: AggregatedBucket| b.up_v4_bytes),
            ),
        ) == stats::capped(stats::total(lists::numbers(h, |b: AggregatedBucket| b.up_v4_bytes))),
        stats::capped(
            stats::total(
                lists::numbers(histogram::daily(h, cal), |b: AggregatedBucket| b.down_v4_bytes),
            ),
        ) == stats::capped(stats::total(lists::numbers(h, |b: AggregatedBucket| b.down_v4_bytes))),
        stats::capped(
            stats::total(
                lists::numbers(histogram::daily(h, cal), |b: AggregatedBucket| b.up_v6_bytes),
            ),
        ) == stats::capped(stats::total(lists::numbers(h, |b: AggregatedBucket| b.up_v6_bytes))),
        stats::capped(
            stats::total(
                lists::numbers(histogram::daily(h, cal), |b: AggregatedBucket| b.down_v6_bytes),
            ),
        ) == stats::capped(stats::total(lists::numbers(h, |b: AggregatedBucket| b.down_v6_bytes))),
{
    let f = |b: AggregatedBucket| b.up_v4_bytes;
    assert forall|day: u64| f(#[trigger] histogram::day_bucket(h, cal, day)) == stats::capped(
        stats::total(sums::amounts(histogram::of_day(h, cal, day), f)),
    ) by {
        let parts = histogram::of_day(h, cal, day);
        assert(counters::up_v4_bytes_of(counters::bytes_of(parts)) =~= sums::amounts(parts, f));
    }
    sums::lemma_daily_capped(h, cal, f);
    assert(sums::amounts(h, f) =~= lists::numbers(h, f));
    assert(sums::amounts(histogram::daily(h, cal), f) =~= lists::numbers(
        histogram::daily(h, cal),
        f,
    ));
    let f = |b: AggregatedBucket| b.down_v4_bytes;
    assert forall|day: u64| f(#[trigger] histogram::day_bucket(h, cal, day)) == stats::capped(
        stats::total(sums::amounts(histogram::of_day(h, cal, day), f)),
    ) by {
        let parts = histogram::of_day(h, cal, day);
        assert(counters::down_v4_bytes_of(counters::bytes_of(parts)) =~= sums::amounts(parts, f));
    }
    sums::lemma_daily_capped(h, cal, f);
    assert(sums::amounts(h, f) =~= lists::numbers(h, f));
    assert(sums::amounts(histogram::daily(h, cal), f) =~= lists::numbers(
        histogram::daily(h, cal),
        f,
    ));
    let f = |b: AggregatedBucket| b.up_v6_bytes;
    assert forall|day: u64| f(#[trigger] histogram::day_bucket(h, cal, day)) == stats::capped(
        stats::total(sums::amounts(histogram::of_day(h, cal, day), f)),
    ) by {
        let parts = histogram::of_day(h, cal, day);
        assert(counters::up_v6_bytes_of(counters::bytes_of(parts)) =~= sums::amounts(parts, f));
    }
    sums::lemma_daily_capped(h, cal, f);
    assert(sums::amounts(h, f) =~= lists::numbers(h, f));
    assert(sums::amounts(histogram::daily(h, cal), f) =~= lists::numbers(
        histogram::daily(h, cal),
        f,
    ));
    let f = |b: AggregatedBucket| b.down_v6_bytes;
    assert forall|day: u64| f(#[trigger] histogram::day_bucket(h, cal, day)) == stats::capped(
        stats::total(sums::amounts(histogram::of_day(h, cal, day), f)),
    ) by {
        let parts = histogram::of_day(h, cal, day);
        assert(counters::down_v6_bytes_of(counters::bytes_of(parts)) =~= sums::amounts(parts, f));
    }
    sums::lemma_daily_capped(h, cal, f);
    assert(sums::amounts(h, f) =~= lists::numbers(h, f));
    assert(sums::amounts(histogram::daily(h, cal), f) =~= lists::numbers(
        histogram::daily(h, cal),
        f,
    ));
}

/// Whether a device has its hours under one key alone, which may write its address in another case.
pub open spec fn only_key(
    s: SeriesView<(u32, Seq<char>)>,
    ifindex: u32,
    mac: Seq<char>,
    key: (u32, Seq<char>),
) -> bool {
    &&& key.0 == ifindex
    &&& text::same_ignoring_case(key.1, mac)
    &&& forall|i: int|
        0 <= i < s.completed.len() && (#[trigger] s.completed[i]).0.0 == ifindex
            && text::same_ignoring_case(s.completed[i].0.1, mac) ==> s.completed[i].0 == key
    &&& forall|i: int|
        0 <= i < s.current.len() && (#[trigger] s.current[i]).0.0 == ifindex
            && text::same_ignoring_case(s.current[i].0.1, mac) ==> s.current[i].0 == key
}

/// A query for a device finds the hours that it has under its only key.
pub proof fn lemma_device_hours(
    h: HistogramView,
    ifindex: u32,
    mac: Seq<char>,
    key: (u32, Seq<char>),
    from_ms: u64,
    to_ms: u64,
    cal: Lookups,
)
    requires
        text::trimmed(mac).len() > 0,
        only_key(h.devices, ifindex, mac, key),
    ensures
        histogram::queried_hours(h, ifindex, Some(mac), from_ms, to_ms, cal) == hours::hourly(
            h.devices,
            key,
            from_ms,
            to_ms,
            cal,
        ),
{
    let s = h.devices;
    let p = histogram::device_test(ifindex, mac);
    table::lemma_first_key(s.completed, p);
    table::lemma_first_key(s.current, p);
    if table::first_key(s.completed, p) is None && table::first_key(s.current, p) is None {
        assert(!table::has_key(s.completed, key)) by {
            if table::has_key(s.completed, key) {
                let n = table::place_of(s.completed, key);
                assert(table::is_place(s.completed, key, n));
                assert(!p(s.completed[n].0));
            }
        }
        assert(!table::has_key(s.current, key)) by {
            if table::has_key(s.current, key) {
                let n = table::place_of(s.current, key);
                assert(table::is_place(s.current, key, n));
                assert(!p(s.current[n].0));
            }
        }
        assert(hours::hourly(s, key, from_ms, to_ms, cal) =~= Seq::<AggregatedBucket>::empty());
    }
}

/// With a period, the totals of a shown device are the bytes of exactly those of its hours that have
/// a moment in common with the times from `from_ms` to `to_ms`, counter by counter, without rates.
/// Nothing else of what is shown of it is touched.
pub proof fn lemma_device_period(
    s: Seq<DeviceView>,
    h: HistogramView,
    from_ms: u64,
    to_ms: u64,
    cal: Lookups,
    i: int,
    key: (u32, Seq<char>),
)
    requires
        0 <= i < s.len(),
        text::trimmed(s[i].mac).len() > 0,
        only_key(h.devices, s[i].ifindex, s[i].mac, key),
    ensures
        ({
            let x = api::devices_within(s, h, (from_ms, to_ms), cal)[i];
            let ring = table::lookup_or(h.devices.completed, key, Seq::empty());
            let open = table::lookup(h.devices.current, key);
            &&& api::devices_within(s, h, (from_ms, to_ms), cal).len() == s.len()
            &&& x == (DeviceView { cumulative: x.cumulative, ..s[i] })
            &&& x.cumulative.up_v4_bytes == stats::capped(
                within(
                    ring,
                    open,
                    from_ms,
                    to_ms,
                    cal,
                    |b: AggregatedBucket| b.up_v4_bytes,
                    |p: HistoryPoint| p.metrics.up_v4_bytes,
                ),
            )
            &&& x.cumulative.down_v4_bytes == stats::capped(
                within(
                    ring,
                    open,
                    from_ms,
                    to_ms,
                    cal,
                    |b: AggregatedBucket| b.down_v4_bytes,
                    |p: HistoryPoint| p.metrics.down_v4_bytes,
                ),
            )
            &&& x.cumulative.up_v6_bytes == stats::capped(
                within(
                    ring,
                    open,
                    from_ms,
                    to_ms,
                    cal,
                    |b: AggregatedBucket| b.up_v6_bytes,
                    |p: HistoryPoint| p.metrics.up_v6_bytes,
                ),
            )
            &&& x.cumulative.down_v6_bytes == stats::capped(
                within(
                    ring,
                    open,
                    from_ms,
                    to_ms,
                    cal,
                    |b: AggregatedBucket| b.down_v6_bytes,
                    |p: HistoryPoint| p.metrics.down_v6_bytes,
                ),
            )
            &&& x.cumulative.up_v4_bps == 0
            &&& x.cumulative.down_v4_bps == 0
            &&& x.cumulative.up_v6_bps == 0
            &&& x.cumulative.down_v6_bps == 0
        }),
{
    lemma_device_hours(h, s[i].ifindex, s[i].mac, key, from_ms, to_ms, cal);
    lemma_hourly_bytes(h.devices, key, from_ms, to_ms, cal);
    lemma_bytes_added(
        histogram::queried_hours(h, s[i].ifindex, Some(s[i].mac), from_ms, to_ms, cal),
    );
}

/// With a period, the totals of a shown interface are the bytes of exactly those of its hours that
/// have a moment in common with the times from `from_ms` to `to_ms`, counter by counter, without
/// rates. Nothing else of what is shown of it is touched.
pub proof fn lemma_iface_period(
    s: Seq<InterfaceView>,
    h: HistogramView,
    from_ms: u64,
    to_ms: u64,
    cal: Lookups,
    i: int,
)
    requires
        0 <= i < s.len(),
    ensures
        ({
            let x = api::ifaces_within(s, h, (from_ms, to_ms), cal)[i];
            let ring = table::lookup_or(h.ifaces.completed, s[i].ifindex, Seq::empty());
            let open = table::lookup(h.ifaces.current, s[i].ifindex);
            &&& api::ifaces_within(s, h, (from_ms, to_ms), cal).len() == s.len()
            &&& x == (InterfaceView { cumulative: x.cumulative, ..s[i] })
            &&& x.cumulative.up_v4_bytes == stats::capped(
                within(
                    ring,
                    open,
                    from_ms,
                    to_ms,
                    cal,
                    |b: AggregatedBucket| b.up_v4_bytes,
                    |p: HistoryPoint| p.metrics.up_v4_bytes,
                ),
            )
            &&& x.cumulative.down_v4_bytes == stats::capped(
                within(
                    ring,
                    open,
                    from_ms,
                    to_ms,
                    cal,
                    |b: AggregatedBucket| b.down_v4_bytes,
                    |p: HistoryPoint| p.metrics.down_v4_bytes,
                ),
            )
            &&& x.cumulative.up_v6_bytes == stats::capped(
                within(
                    ring,
                    open,
                    from_ms,
                    to_ms,
                    cal,
                    |b: AggregatedBucket| b.up_v6_bytes,
                    |p: HistoryPoint| p.metrics.up_v6_bytes,
                ),
            )
            &&& x.cumulative.down_v6_bytes == stats::capped(
                within(
                    ring,
                    open,
                    from_ms,
                    to_ms,
                    cal,
                    |b: AggregatedBucket| b.down_v6_bytes,
                    |p: HistoryPoint| p.metrics.down_v6_bytes,
                ),
            )
            &&& x.cumulative.up_v4_bps == 0
            &&& x.cumulative.down_v4_bps == 0
            &&& x.cumulative.up_v6_bps == 0
            &&& x.cumulative.down_v6_bps == 0
        }),
{
    lemma_hourly_bytes(h.ifaces, s[i].ifindex, from_ms, to_ms, cal);
    lemma_bytes_added(histogram::queried_hours(h, s[i].ifindex, None, from_ms, to_ms, cal));
}

proof fn lemma_pairs(a: Seq<u64>, b: Seq<u64>, c: Seq<u64>)
    requires
        a.len() == c.len(),
        b.len() == c.len(),
        forall|i: int|
            0 <= i < c.len() ==> #[trigger] c[i] == stats::capped((a[i] + b[i]) as nat),
    ensures
        stats::capped(stats::total(c)) == stats::capped(stats::total(a) + stats::total(b)),
    decreases c.len(),
{
    if c.len() > 0 {
        let d = c.drop_last();
        assert forall|i: int| 0 <= i < d.len() implies #[trigger] d[i] == stats::capped(
            (a.drop_last()[i] + b.drop_last()[i]) as nat,
        ) by {
            assert(c[i] == stats::capped((a[i] + b[i]) as nat));
        }
        lemma_pairs(a.drop_last(), b.drop_last(), d);
        assert(c[c.len() - 1] == stats::capped((a[c.len() - 1] + b[c.len() - 1]) as nat));
    }
}

proof fn lemma_carried(s: Seq<AggregatedBucket>, tt: HistoryTrafficType)
    ensures
        ({
            let up_v4 = stats::total(lists::numbers(s, |b: AggregatedBucket| b.up_v4_bytes));
            let down_v4 = stats::total(lists::numbers(s, |b: AggregatedBucket| b.down_v4_bytes));
            let up_v6 = stats::total(lists::numbers(s, |b: AggregatedBucket| b.up_v6_bytes));
            let down_v6 = stats::total(lists::numbers(s, |b: AggregatedBucket| b.down_v6_bytes));
            usage::carried(s, tt) == (match tt {
                HistoryTrafficType::All => (
                    stats::capped(up_v4 + up_v6),
                    stats::capped(down_v4 + down_v6),
                ),
                HistoryTrafficType::Ipv4 => (stats::capped(up_v4), stats::capped(down_v4)),
                HistoryTrafficType::Ipv6 => (stats::capped(up_v6), stats::capped(down_v6)),
            })
        }),
{
    let t = usage::typed(s, tt);
    let z = lists::numbers(s, |b: AggregatedBucket| 0);
    lemma_nothing_adds(s);
    let up_v4 = lists::numbers(s, |b: AggregatedBucket| b.up_v4_bytes);
    let down_v4 = lists::numbers(s, |b: AggregatedBucket| b.down_v4_bytes);
    let up_v6 = lists::numbers(s, |b: AggregatedBucket| b.up_v6_bytes);
    let down_v6 = lists::numbers(s, |b: AggregatedBucket| b.down_v6_bytes);
    match tt {
        HistoryTrafficType::All => {
            lemma_pairs(up_v4, up_v6, usage::ups(t));
            lemma_pairs(down_v4, down_v6, usage::downs(t));
        },
        HistoryTrafficType::Ipv4 => {
            lemma_pairs(up_v4, z, usage::ups(t));
            lemma_pairs(down_v4, z, usage::downs(t));
        },
        HistoryTrafficType::Ipv6 => {
            lemma_pairs(z, up_v6, usage::ups(t));
            lemma_pairs(z, down_v6, usage::downs(t));
        },
    }
}

/// What a device under a key carried up and down from one time to another.
spec fn carried_within(
    s: SeriesView<(u32, Seq<char>)>,
    key: (u32, Seq<char>),
    from_ms: u64,
    to_ms: u64,
    tt: HistoryTrafficType,
    cal: Lookups,
) -> (u64, u64) {
    let ring = table::lookup_or(s.completed, key, Seq::empty());
    let open = table::lookup(s.current, key);
    let up_v4 = within(
        ring,
        open,
        from_ms,
        to_ms,
        cal,
        |b: AggregatedBucket| b.up_v4_bytes,
        |p: HistoryPoint| p.metrics.up_v4_bytes,
    );
    let down_v4 = within(
        ring,
        open,
        from_ms,
        to_ms,
        cal,
        |b: AggregatedBucket| b.down_v4_bytes,
        |p: HistoryPoint| p.metrics.down_v4_bytes,
    );
    let up_v6 = within(
        ring,
        open,
        from_ms,
        to_ms,
        cal,
        |b: AggregatedBucket| b.up_v6_bytes,
        |p: HistoryPoint| p.metrics.up_v6_bytes,
    );
    let down_v6 = within(
        ring,
        open,
        from_ms,
        to_ms,
        cal,
        |b: AggregatedBucket| b.down_v6_bytes,
        |p: HistoryPoint| p.metrics.down_v6_bytes,
    );
    match tt {
        HistoryTrafficType::All => (stats::capped(up_v4 + up_v6), stats::capped(down_v4 + down_v6)),
        HistoryTrafficType::Ipv4 => (stats::capped(up_v4), stats::capped(down_v4)),
        HistoryTrafficType::Ipv6 => (stats::capped(up_v6), stats::capped(down_v6)),
    }
}

proof fn lemma_capped_pair(a: nat, b: nat, c: nat, d: nat)
    requires
        stats::capped(a) == stats::capped(c),
        stats::capped(b) == stats::capped(d),
    ensures
        stats::capped(a + b) == stats::capped(c + d),
{
}

proof fn lemma_device_carried(
    h: HistogramView,
    ifindex: u32,
    mac: Seq<char>,
    key: (u32, Seq<char>),
    range: (u64, u64),
    tt: HistoryTrafficType,
    cal: Lookups,
)
    requires
        text::trimmed(mac).len() > 0,
        only_key(h.devices, ifindex, mac, key),
    ensures
        usage::carried(
            histogram::aggregate(
                h,
                ifindex,
                Some(mac),
                range.0,
                range.1,
                AggregateBucket::Daily,
                cal,
            ),
            tt,
        ) == carried_within(h.devices, key, range.0, range.1, tt, cal),
{
    let found = hours::hourly(h.devices, key, range.0, range.1, cal);
    let days = histogram::daily(found, cal);
    lemma_device_hours(h, ifindex, mac, key, range.0, range.1, cal);
    lemma_hourly_bytes(h.devices, key, range.0, range.1, cal);
    lemma_days_carried(found, cal);
    lemma_carried(days, tt);
    let from_ms = range.0;
    let to_ms = range.1;
    let ring = table::lookup_or(h.devices.completed, key, Seq::empty());
    let open = table::lookup(h.devices.current, key);
    let up_v4 = within(
        ring,
        open,
        from_ms,
        to_ms,
        cal,
        |b: AggregatedBucket| b.up_v4_bytes,
        |p: HistoryPoint| p.metrics.up_v4_bytes,
    );
    let down_v4 = within(
        ring,
        open,
        from_ms,
        to_ms,
        cal,
        |b: AggregatedBucket| b.down_v4_bytes,
        |p: HistoryPoint| p.metrics.down_v4_bytes,
    );
    let up_v6 = within(
        ring,
        open,
        from_ms,
        to_ms,
        cal,
        |b: AggregatedBucket| b.up_v6_bytes,
        |p: HistoryPoint| p.metrics.up_v6_bytes,
    );
    let down_v6 = within(
        ring,
        open,
        from_ms,
        to_ms,
        cal,
        |b: AggregatedBucket| b.down_v6_bytes,
        |p: HistoryPoint| p.metrics.down_v6_bytes,
    );
    lemma_capped_pair(
        stats::total(lists::numbers(days, |b: AggregatedBucket| b.up_v4_bytes)),
        stats::total(lists::numbers(days, |b: AggregatedBucket| b.up_v6_bytes)),
        up_v4,
        up_v6,
    );
    lemma_capped_pair(
        stats::total(lists::numbers(days, |b: AggregatedBucket| b.down_v4_bytes)),
        stats::total(lists::numbers(days, |b: AggregatedBucket| b.down_v6_bytes)),
        down_v4,
        down_v6,
    );
}

proof fn lemma_mac_not_blank(m: Seq<u8>)
    ensures
        text::trimmed(mac::mac_text(m)).len() > 0,
{
    assert(mac::mac_text(m)[2] == ':');
    text::lemma_not_blank(mac::mac_text(m), 2);
}

/// Whether an entry of a ranking is that of a known device.
spec fn shows_known(
    registry: Seq<((u32, Seq<u8>), KnownView)>,
    h: HistogramView,
    ifindex: u32,
    iface: Seq<char>,
    range: (u64, u64),
    tt: HistoryTrafficType,
    cal: Lookups,
    u: UsageView,
    n: int,
) -> bool {
    let used = usage::carried(
        histogram::aggregate(
            h,
            ifindex,
            Some(mac::mac_text(registry[n].0.1)),
            range.0,
            range.1,
            AggregateBucket::Daily,
            cal,
        ),
        tt,
    );
    &&& 0 <= n < registry.len()
    &&& registry[n].0.0 == ifindex
    &&& u.mac == mac::mac_text(registry[n].0.1)
    &&& u.iface == iface
    &&& u.hostname == registry[n].1.hostname
    &&& u.ipv4 == registry[n].1.ipv4
    &&& u.ipv6 == registry[n].1.ipv6
    &&& (u.up_bytes, u.down_bytes) == used
    &&& u.total_bytes == stats::capped((used.0 + used.1) as nat)
    &&& u.total_bytes > 0
}

proof fn lemma_usages_known(
    registry: Seq<((u32, Seq<u8>), KnownView)>,
    h: HistogramView,
    ifindex: u32,
    iface: Seq<char>,
    range: (u64, u64),
    tt: HistoryTrafficType,
    cal: Lookups,
    i: int,
) -> (n: int)
    requires
        0 <= i < usage::usages(registry, h, ifindex, iface, range, tt, cal).len(),
    ensures
        shows_known(
            registry,
            h,
            ifindex,
            iface,
            range,
            tt,
            cal,
            usage::usages(registry, h, ifindex, iface, range, tt, cal)[i],
            n,
        ),
    decreases registry.len(),
{
    let rest = usage::usages(registry.drop_last(), h, ifindex, iface, range, tt, cal);
    if registry.len() > 0 && i < rest.len() {
        lemma_usages_known(registry.drop_last(), h, ifindex, iface, range, tt, cal, i)
    } else {
        registry.len() - 1
    }
}

proof fn lemma_known_listed(
    registry: Seq<((u32, Seq<u8>), KnownView)>,
    h: HistogramView,
    ifindex: u32,
    iface: Seq<char>,
    range: (u64, u64),
    tt: HistoryTrafficType,
    cal: Lookups,
    n: int,
) -> (i: int)
    requires
        0 <= n < registry.len(),
        registry[n].0.0 == ifindex,
        ({
            let used = usage::carried(
                histogram::aggregate(
                    h,
                    ifindex,
                    Some(mac::mac_text(registry[n].0.1)),
                    range.0,
                    range.1,
                    AggregateBucket::Daily,
                    cal,
                ),
                tt,
            );
            used.0 > 0 || used.1 > 0
        }),
    ensures
        0 <= i < usage::usages(registry, h, ifindex, iface, range, tt, cal).len(),
        usage::usages(registry, h, ifindex, iface, range, tt, cal)[i].mac == mac::mac_text(
            registry[n].0.1,
        ),
    decreases registry.len(),
{
    let rest = usage::usages(registry.drop_last(), h, ifindex, iface, range, tt, cal);
    if n < registry.len() - 1 {
        assert(registry.drop_last()[n] == registry[n]);
        lemma_known_listed(registry.drop_last(), h, ifindex, iface, range, tt, cal, n)
    } else {
        rest.len() as int
    }
}

/// Each entry of a ranking is that of a known device behind the interface. What it went up, came down
/// and carried together are the bytes of those of the hours of that device that have a moment in
/// common with the times asked for: of both families for all traffic, else of the family asked for.
pub proof fn lemma_ranked_bytes(
    registry: Seq<((u32, Seq<u8>), KnownView)>,
    h: HistogramView,
    ifindex: u32,
    iface: Seq<char>,
    from_ms: u64,
    to_ms: u64,
    tt: HistoryTrafficType,
    limit: Option<usize>,
    cal: Lookups,
    i: int,
    key: (u32, Seq<char>),
)
    requires
        0 <= i < usage::limited(
            sorting::sorted::<UsageRankingItem>(
                usage::usages(registry, h, ifindex, iface, (from_ms, to_ms), tt, cal),
            ),
            limit,
        ).len(),
        only_key(
            h.devices,
            ifindex,
            usage::limited(
                sorting::sorted::<UsageRankingItem>(
                    usage::usages(registry, h, ifindex, iface, (from_ms, to_ms), tt, cal),
                ),
                limit,
            )[i].mac,
            key,
        ),
    ensures
        ({
            let u = usage::limited(
                sorting::sorted::<UsageRankingItem>(
                    usage::usages(registry, h, ifindex, iface, (from_ms, to_ms), tt, cal),
                ),
                limit,
            )[i];
            let ring = table::lookup_or(h.devices.completed, key, Seq::empty());
            let open = table::lookup(h.devices.current, key);
            let up_v4 = within(
                ring,
                open,
                from_ms,
                to_ms,
                cal,
                |b: AggregatedBucket| b.up_v4_bytes,
                |p: HistoryPoint| p.metrics.up_v4_bytes,
            );
            let down_v4 = within(
                ring,
                open,
                from_ms,
                to_ms,
                cal,
                |b: AggregatedBucket| b.down_v4_bytes,
                |p: HistoryPoint| p.metrics.down_v4_bytes,
            );
            let up_v6 = within(
                ring,
                open,
                from_ms,
                to_ms,
                cal,
                |b: AggregatedBucket| b.up_v6_bytes,
                |p: HistoryPoint| p.metrics.up_v6_bytes,
            );
            let down_v6 = within(
                ring,
                open,
                from_ms,
                to_ms,
                cal,
                |b: AggregatedBucket| b.down_v6_bytes,
                |p: HistoryPoint| p.metrics.down_v6_bytes,
            );
            &&& exists|n: int|
                0 <= n < registry.len() && (#[trigger] registry[n]).0.0 == ifindex && u.mac
                    == mac::mac_text(registry[n].0.1) && u.hostname == registry[n].1.hostname
                    && u.ipv4 == registry[n].1.ipv4 && u.ipv6 == registry[n].1.ipv6
            &&& u.iface == iface
            &&& u.total_bytes > 0
            &&& tt == HistoryTrafficType::All ==> u.up_bytes == stats::capped(up_v4 + up_v6)
                && u.down_bytes == stats::capped(down_v4 + down_v6) && u.total_bytes
                == stats::capped(up_v4 + up_v6 + down_v4 + down_v6)
            &&& tt == HistoryTrafficType::Ipv4 ==> u.up_bytes == stats::capped(up_v4)
                && u.down_bytes == stats::capped(down_v4) && u.total_bytes == stats::capped(
                up_v4 + down_v4,
            )
            &&& tt == HistoryTrafficType::Ipv6 ==> u.up_bytes == stats::capped(up_v6)
                && u.down_bytes == stats::capped(down_v6) && u.total_bytes == stats::capped(
                up_v6 + down_v6,
            )
        }),
{
    let range = (from_ms, to_ms);
    let s = usage::usages(registry, h, ifindex, iface, range, tt, cal);
    let t = sorting::sorted::<UsageRankingItem>(s);
    let u = usage::limited(t, limit)[i];
    assert(t[i] == u);
    assert(t.contains(u));
    sorting::lemma_sorted_members::<UsageRankingItem>(s, u);
    let j = choose|j: int| 0 <= j < s.len() && s[j] == u;
    let n = lemma_usages_known(registry, h, ifindex, iface, range, tt, cal, j);
    lemma_mac_not_blank(registry[n].0.1);
    lemma_device_carried(h, ifindex, u.mac, key, range, tt, cal);
    assert(registry[n].0.0 == ifindex);
}

/// Every known device behind the interface that carried something of the traffic asked for stands in
/// the ranking without a limit.
pub proof fn lemma_ranked_all(
    registry: Seq<((u32, Seq<u8>), KnownView)>,
    h: HistogramView,
    ifindex: u32,
    iface: Seq<char>,
    from_ms: u64,
    to_ms: u64,
    tt: HistoryTrafficType,
    cal: Lookups,
    n: int,
    key: (u32, Seq<char>),
)
    requires
        0 <= n < registry.len(),
        registry[n].0.0 == ifindex,
        only_key(h.devices, ifindex, mac::mac_text(registry[n].0.1), key),
        ({
            let ring = table::lookup_or(h.devices.completed, key, Seq::empty());
            let open = table::lookup(h.devices.current, key);
            let up_v4 = within(
                ring,
                open,
                from_ms,
                to_ms,
                cal,
                |b: AggregatedBucket| b.up_v4_bytes,
                |p: HistoryPoint| p.metrics.up_v4_bytes,
            );
            let down_v4 = within(
                ring,
                open,
                from_ms,
                to_ms,
                cal,
                |b: AggregatedBucket| b.down_v4_bytes,
                |p: HistoryPoint| p.metrics.down_v4_bytes,
            );
            let up_v6 = within(
                ring,
                open,
                from_ms,
                to_ms,
                cal,
                |b: AggregatedBucket| b.up_v6_bytes,
                |p: HistoryPoint| p.metrics.up_v6_bytes,
            );
            let down_v6 = within(
                ring,
                open,
                from_ms,
                to_ms,
                cal,
                |b: AggregatedBucket| b.down_v6_bytes,
                |p: HistoryPoint| p.metrics.down_v6_bytes,
            );
            ||| tt != HistoryTrafficType::Ipv6 && up_v4 + down_v4 > 0
            ||| tt != HistoryTrafficType::Ipv4 && up_v6 + down_v6 > 0
        }),
    ensures
        ({
            let r = usage::limited(
                sorting::sorted::<UsageRankingItem>(
                    usage::usages(registry, h, ifindex, iface, (from_ms, to_ms), tt, cal),
                ),
                None,
            );
            exists|i: int|
                0 <= i < r.len() && (#[trigger] r[i]).mac == mac::mac_text(registry[n].0.1)
        }),
{
    let range = (from_ms, to_ms);
    let s = usage::usages(registry, h, ifindex, iface, range, tt, cal);
    let t = sorting::sorted::<UsageRankingItem>(s);
    lemma_mac_not_blank(registry[n].0.1);
    lemma_device_carried(h, ifindex, mac::mac_text(registry[n].0.1), key, range, tt, cal);
    let i = lemma_known_listed(registry, h, ifindex, iface, range, tt, cal, n);
    assert(s.contains(s[i]));
    sorting::lemma_sorted_members::<UsageRankingItem>(s, s[i]);
    let j = choose|j: int| 0 <= j < t.len() && t[j] == s[i];
    let r = usage::limited(t, None);
    assert(r[j].mac == mac::mac_text(registry[n].0.1));
}

/// A limit above zero leaves as many of the first entries of a ranking, all where there are no more;
/// without one, or with zero, all are left.
pub proof fn lemma_limited<T>(s: Seq<T>, limit: Option<usize>)
    ensures
        limit is None || limit == Some(0usize) ==> usage::limited(s, limit) == s,
        forall|n: usize|
            limit == Some(n) && n > 0 ==> (#[trigger] usage::limited(s, Some(n))).len() == (if n
                < s.len() {
                n as nat
            } else {
                s.len()
            }),
        forall|i: int|
            0 <= i < usage::limited(s, limit).len() ==> #[trigger] usage::limited(s, limit)[i] == s[i],
{
}

proof fn lemma_usages_once(
    registry: Seq<((u32, Seq<u8>), KnownView)>,
    h: HistogramView,
    ifindex: u32,
    iface: Seq<char>,
    range: (u64, u64),
    tt: HistoryTrafficType,
    cal: Lookups,
)
    requires
        table::distinct(registry),
        forall|n: int| 0 <= n < registry.len() ==> (#[trigger] registry[n]).0.1.len() == 6,
    ensures
        forall|i: int, j: int|
            0 <= i < j < usage::usages(registry, h, ifindex, iface, range, tt, cal).len() ==> (
            #[trigger] usage::usages(registry, h, ifindex, iface, range, tt, cal)[i]).mac != (
            #[trigger] usage::usages(registry, h, ifindex, iface, range, tt, cal)[j]).mac,
    decreases registry.len(),
{
    if registry.len() > 0 {
        let r = registry.drop_last();
        let all = usage::usages(registry, h, ifindex, iface, range, tt, cal);
        let rest = usage::usages(r, h, ifindex, iface, range, tt, cal);
        let k = registry[registry.len() - 1].0;
        assert forall|n: int| 0 <= n < r.len() implies (#[trigger] r[n]).0.1.len() == 6 by {
            assert(registry[n].0.1.len() == 6);
        }
        lemma_usages_once(r, h, ifindex, iface, range, tt, cal);
        assert forall|i: int, j: int| 0 <= i < j < all.len() implies (#[trigger] all[i]).mac != (
        #[trigger] all[j]).mac by {
            assert(all[i] == rest[i]);
            if j < rest.len() {
                assert(rest[i].mac != rest[j].mac);
            } else {
                let n = lemma_usages_known(r, h, ifindex, iface, range, tt, cal, i);
                assert(registry[n].0 != registry[registry.len() - 1].0);
                mac::lemma_mac_round_trip(registry[n].0.1);
                mac::lemma_mac_round_trip(k.1);
            }
        }
    }
}

/// No device stands twice in a ranking.
pub proof fn lemma_ranked_once(
    registry: Seq<((u32, Seq<u8>), KnownView)>,
    h: HistogramView,
    ifindex: u32,
    iface: Seq<char>,
    range: (u64, u64),
    tt: HistoryTrafficType,
    limit: Option<usize>,
    cal: Lookups,
    mac: Seq<char>,
)
    requires
        table::distinct(registry),
        forall|n: int| 0 <= n < registry.len() ==> (#[trigger] registry[n]).0.1.len() == 6,
    ensures
        lists::picked(
            usage::limited(
                sorting::sorted::<UsageRankingItem>(
                    usage::usages(registry, h, ifindex, iface, range, tt, cal),
                ),
                limit,
            ),
            |u: UsageView| u.mac == mac,
        ).len() <= 1,
{
    let s = usage::usages(registry, h, ifindex, iface, range, tt, cal);
    let t = sorting::sorted::<UsageRankingItem>(s);
    let r = usage::limited(t, limit);
    let p = |u: UsageView| u.mac == mac;
    lemma_usages_once(registry, h, ifindex, iface, range, tt, cal);
    lists::lemma_at_most_one(s, p);
    sorting::lemma_sorted::<UsageRankingItem>(s);
    lists::lemma_picked_reordered(s, t, p);
    lists::picked(s, p).to_multiset_ensures();
    lists::picked(t, p).to_multiset_ensures();
    lists::lemma_picked_add(r, t.skip(r.len() as int), p);
    assert(r + t.skip(r.len() as int) =~= t);
}
} // verus!
