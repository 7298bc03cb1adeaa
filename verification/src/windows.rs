//! What a request that names no device is answered, window by window.

use vstd::prelude::*;

use crate::calendar::Lookups;
use crate::counters;
use crate::counters::AggregateBucket;
use crate::counters::AggregatedBucket;
use crate::counters::HistoryTrafficType;
use crate::figures;
use crate::histogram;
use crate::histogram::HistogramView;
use crate::hours;
use crate::lists;
use crate::mac;
use crate::runtime::KnownView;
use crate::sorting;
use crate::sorting::Ranked;
use crate::stats;
use crate::sums;
use crate::table;
use crate::text;
use crate::usage;
use crate::usage::ByWindow;

verus! {

/// The window of a bucket.
pub open spec fn window_of(b: AggregatedBucket) -> (u64, u64) {
    (b.start_ts_ms, b.end_ts_ms)
}

/// The test for one window.
pub open spec fn window_test(w: (u64, u64)) -> spec_fn(AggregatedBucket) -> bool {
    |b: AggregatedBucket| window_of(b) == w
}

/// The buckets of one window.
pub open spec fn of_window(s: Seq<AggregatedBucket>, w: (u64, u64)) -> Seq<AggregatedBucket> {
    lists::picked(s, window_test(w))
}

/// One number of some buckets, added up, and stopping at the largest number.
pub open spec fn sum_of(s: Seq<AggregatedBucket>, f: spec_fn(AggregatedBucket) -> u64) -> u64 {
    stats::capped(stats::total(sums::amounts(s, f)))
}

/// Some buckets, added up number by number.
pub open spec fn bucket_total(w: (u64, u64), parts: Seq<AggregatedBucket>) -> AggregatedBucket {
    AggregatedBucket {
        start_ts_ms: w.0,
        end_ts_ms: w.1,
        up_v4_bytes: sum_of(parts, |b: AggregatedBucket| b.up_v4_bytes),
        down_v4_bytes: sum_of(parts, |b: AggregatedBucket| b.down_v4_bytes),
        up_v6_bytes: sum_of(parts, |b: AggregatedBucket| b.up_v6_bytes),
        down_v6_bytes: sum_of(parts, |b: AggregatedBucket| b.down_v6_bytes),
        up_v4_bps_avg: sum_of(parts, |b: AggregatedBucket| b.up_v4_bps_avg),
        up_v4_bps_max: sum_of(parts, |b: AggregatedBucket| b.up_v4_bps_max),
        up_v4_bps_min: sum_of(parts, |b: AggregatedBucket| b.up_v4_bps_min),
        up_v4_bps_p95: sum_of(parts, |b: AggregatedBucket| b.up_v4_bps_p95),
        down_v4_bps_avg: sum_of(parts, |b: AggregatedBucket| b.down_v4_bps_avg),
        down_v4_bps_max: sum_of(parts, |b: AggregatedBucket| b.down_v4_bps_max),
        down_v4_bps_min: sum_of(parts, |b: AggregatedBucket| b.down_v4_bps_min),
        down_v4_bps_p95: sum_of(parts, |b: AggregatedBucket| b.down_v4_bps_p95),
        up_v6_bps_avg: sum_of(parts, |b: AggregatedBucket| b.up_v6_bps_avg),
        up_v6_bps_max: sum_of(parts, |b: AggregatedBucket| b.up_v6_bps_max),
        up_v6_bps_min: sum_of(parts, |b: AggregatedBucket| b.up_v6_bps_min),
        up_v6_bps_p95: sum_of(parts, |b: AggregatedBucket| b.up_v6_bps_p95),
        down_v6_bps_avg: sum_of(parts, |b: AggregatedBucket| b.down_v6_bps_avg),
        down_v6_bps_max: sum_of(parts, |b: AggregatedBucket| b.down_v6_bps_max),
        down_v6_bps_min: sum_of(parts, |b: AggregatedBucket| b.down_v6_bps_min),
        down_v6_bps_p95: sum_of(parts, |b: AggregatedBucket| b.down_v6_bps_p95),
    }
}

proof fn lemma_sum_push(
    s: Seq<AggregatedBucket>,
    b: AggregatedBucket,
    f: spec_fn(AggregatedBucket) -> u64,
)
    ensures
        sum_of(s.push(b), f) == stats::capped((sum_of(s, f) + f(b)) as nat),
{
    assert(sums::amounts(s.push(b), f) =~= sums::amounts(s, f).push(f(b)));
    stats::lemma_capped_step(sums::amounts(s, f), f(b));
}

/// One more bucket is added to the sum of those before it.
pub proof fn lemma_bucket_total_push(
    w: (u64, u64),
    parts: Seq<AggregatedBucket>,
    b: AggregatedBucket,
)
    ensures
        bucket_total(w, parts.push(b)) == counters::bucket_sum(bucket_total(w, parts), b),
{
    lemma_sum_push(parts, b, |b: AggregatedBucket| b.up_v4_bytes);
    lemma_sum_push(parts, b, |b: AggregatedBucket| b.down_v4_bytes);
    lemma_sum_push(parts, b, |b: AggregatedBucket| b.up_v6_bytes);
    lemma_sum_push(parts, b, |b: AggregatedBucket| b.down_v6_bytes);
    lemma_sum_push(parts, b, |b: AggregatedBucket| b.up_v4_bps_avg);
    lemma_sum_push(parts, b, |b: AggregatedBucket| b.up_v4_bps_max);
    lemma_sum_push(parts, b, |b: AggregatedBucket| b.up_v4_bps_min);
    lemma_sum_push(parts, b, |b: AggregatedBucket| b.up_v4_bps_p95);
    lemma_sum_push(parts, b, |b: AggregatedBucket| b.down_v4_bps_avg);
    lemma_sum_push(parts, b, |b: AggregatedBucket| b.down_v4_bps_max);
    lemma_sum_push(parts, b, |b: AggregatedBucket| b.down_v4_bps_min);
    lemma_sum_push(parts, b, |b: AggregatedBucket| b.down_v4_bps_p95);
    lemma_sum_push(parts, b, |b: AggregatedBucket| b.up_v6_bps_avg);
    lemma_sum_push(parts, b, |b: AggregatedBucket| b.up_v6_bps_max);
    lemma_sum_push(parts, b, |b: AggregatedBucket| b.up_v6_bps_min);
    lemma_sum_push(parts, b, |b: AggregatedBucket| b.up_v6_bps_p95);
    lemma_sum_push(parts, b, |b: AggregatedBucket| b.down_v6_bps_avg);
    lemma_sum_push(parts, b, |b: AggregatedBucket| b.down_v6_bps_max);
    lemma_sum_push(parts, b, |b: AggregatedBucket| b.down_v6_bps_min);
    lemma_sum_push(parts, b, |b: AggregatedBucket| b.down_v6_bps_p95);
}

/// Whether the sums under windows are those of these buckets.
spec fn sums_up(acc: Seq<((u64, u64), AggregatedBucket)>, s: Seq<AggregatedBucket>) -> bool {
    &&& table::distinct(acc)
    &&& forall|w: (u64, u64)| #[trigger]
        table::lookup(acc, w) == (if of_window(s, w).len() > 0 {
            Some(bucket_total(w, of_window(s, w)))
        } else {
            None
        })
}

proof fn lemma_windows_added(
    acc: Seq<((u64, u64), AggregatedBucket)>,
    a: Seq<AggregatedBucket>,
    s: Seq<AggregatedBucket>,
)
    requires
        sums_up(acc, a),
    ensures
        sums_up(usage::windows_added(acc, s), a + s),
    decreases s.len(),
{
    if s.len() == 0 {
        assert(a + s =~= a);
    } else {
        let g = s.drop_last();
        let b = s.last();
        let k = window_of(b);
        lemma_windows_added(acc, a, g);
        let rest = usage::windows_added(acc, g);
        let v = counters::bucket_sum(
            table::lookup_or(rest, k, counters::blank_bucket(k.0, k.1)),
            b,
        );
        let all = a + g;
        let out = usage::windows_added(acc, s);
        assert(a + s =~= all.push(b));
        table::lemma_assigned_distinct(rest, k, v);
        assert forall|w: (u64, u64)| #[trigger] table::lookup(out, w) == (if of_window(
            a + s,
            w,
        ).len() > 0 {
            Some(bucket_total(w, of_window(a + s, w)))
        } else {
            None
        }) by {
            table::lemma_lookup_assigned(rest, k, v, w);
            lists::lemma_picked_push(all, b, window_test(w));
            assert(table::lookup(rest, w) == (if of_window(all, w).len() > 0 {
                Some(bucket_total(w, of_window(all, w)))
            } else {
                None
            }));
            if w == k {
                let parts = of_window(all, k);
                lemma_bucket_total_push(k, parts, b);
                if parts.len() == 0 {
                    assert(bucket_total(k, parts) == counters::blank_bucket(k.0, k.1));
                }
            }
        }
    }
}

proof fn lemma_windows_of(
    h: HistogramView,
    ifindex: u32,
    macs: Seq<Seq<char>>,
    range: (u64, u64),
    bucket: AggregateBucket,
    cal: Lookups,
)
    ensures
        sums_up(
            usage::windows_of(h, ifindex, macs, range, bucket, cal),
            usage::all_buckets(h, ifindex, macs, range, bucket, cal),
        ),
    decreases macs.len(),
{
    if macs.len() > 0 {
        lemma_windows_of(h, ifindex, macs.drop_last(), range, bucket, cal);
        lemma_windows_added(
            usage::windows_of(h, ifindex, macs.drop_last(), range, bucket, cal),
            usage::all_buckets(h, ifindex, macs.drop_last(), range, bucket, cal),
            histogram::aggregate(h, ifindex, Some(macs.last()), range.0, range.1, bucket, cal),
        );
    }
}

proof fn lemma_sums_of(acc: Seq<((u64, u64), AggregatedBucket)>, s: Seq<AggregatedBucket>)
    requires
        sums_up(acc, s),
    ensures
        forall|i: int|
            0 <= i < acc.len() ==> of_window(s, (#[trigger] acc[i]).0).len() > 0 && acc[i].1
                == bucket_total(acc[i].0, of_window(s, acc[i].0)),
        forall|w: (u64, u64)| #[trigger]
            of_window(s, w).len() > 0 ==> usage::sums_of(acc).contains(
                bucket_total(w, of_window(s, w)),
            ),
        usage::sums_of(acc).no_duplicates(),
{
    let out = usage::sums_of(acc);
    assert forall|i: int| 0 <= i < acc.len() implies of_window(s, (#[trigger] acc[i]).0).len() > 0
        && acc[i].1 == bucket_total(acc[i].0, of_window(s, acc[i].0)) by {
        let w = acc[i].0;
        table::lemma_has_key(acc, w, i);
        let n = table::place_of(acc, w);
        assert(table::is_place(acc, w, n));
        if i < n {
            assert(acc[i].0 != acc[n].0);
        } else if n < i {
            assert(acc[n].0 != acc[i].0);
        }
        assert(table::lookup(acc, w) == Some(acc[i].1));
    }
    assert forall|w: (u64, u64)| #[trigger] of_window(s, w).len() > 0 implies out.contains(
        bucket_total(w, of_window(s, w)),
    ) by {
        assert(table::lookup(acc, w) is Some);
        let n = table::place_of(acc, w);
        assert(table::is_place(acc, w, n));
        assert(out[n] == bucket_total(w, of_window(s, w)));
    }
    assert forall|i: int, j: int| 0 <= i < out.len() && 0 <= j < out.len() && i != j implies out[i]
        != out[j] by {
        assert(window_of(acc[i].1) == acc[i].0 && window_of(acc[j].1) == acc[j].0);
        if i < j {
            assert(acc[i].0 != acc[j].0);
        } else {
            assert(acc[j].0 != acc[i].0);
        }
    }
}

/// Where a request names no device, the windows that it is answered come strictly one after another.
/// They are those in which some known device behind the interface has a bucket, and every number in
/// them is the sum over those devices, narrowed to the IP family asked for.
pub proof fn lemma_windows_answered(
    h: HistogramView,
    registry: Seq<((u32, Seq<u8>), KnownView)>,
    ifindex: u32,
    range: (u64, u64),
    bucket: AggregateBucket,
    tt: HistoryTrafficType,
    cal: Lookups,
)
    ensures
        ({
            let each = usage::all_buckets(
                h,
                ifindex,
                usage::macs_behind(registry, ifindex),
                range,
                bucket,
                cal,
            );
            let out = usage::asked_buckets(h, registry, ifindex, None, range, bucket, tt, cal);
            &&& forall|i: int, j: int|
                0 <= i < j < out.len() ==> ByWindow::rank(#[trigger] out[i], #[trigger] out[j]) < 0
            &&& forall|i: int|
                0 <= i < out.len() ==> of_window(each, window_of(#[trigger] out[i])).len() > 0
                    && out[i] == counters::of_type(
                    bucket_total(window_of(out[i]), of_window(each, window_of(out[i]))),
                    tt,
                )
            &&& forall|w: (u64, u64)| #[trigger]
                of_window(each, w).len() > 0 ==> out.contains(
                    counters::of_type(bucket_total(w, of_window(each, w)), tt),
                )
        }),
{
    let macs = usage::macs_behind(registry, ifindex);
    let each = usage::all_buckets(h, ifindex, macs, range, bucket, cal);
    let acc = usage::windows_of(h, ifindex, macs, range, bucket, cal);
    let s = usage::sums_of(acc);
    let r = sorting::sorted::<ByWindow>(s);
    let out = usage::asked_buckets(h, registry, ifindex, None, range, bucket, tt, cal);
    lemma_windows_of(h, ifindex, macs, range, bucket, cal);
    lemma_sums_of(acc, each);
    sorting::lemma_sorted::<ByWindow>(s);
    assert(out.len() == r.len());
    assert forall|i: int| 0 <= i < out.len() implies #[trigger] out[i] == counters::of_type(r[i], tt)
        && of_window(each, window_of(r[i])).len() > 0 && r[i] == bucket_total(
        window_of(r[i]),
        of_window(each, window_of(r[i])),
    ) by {
        assert(r.contains(r[i]));
        sorting::lemma_sorted_members::<ByWindow>(s, r[i]);
        let n = choose|n: int| 0 <= n < s.len() && s[n] == r[i];
        assert(acc[n].1 == r[i]);
    }
    assert forall|i: int, j: int| 0 <= i < j < out.len() implies ByWindow::rank(
        #[trigger] out[i],
        #[trigger] out[j],
    ) < 0 by {
        assert(ByWindow::rank(r[i], r[j]) <= 0);
        sorting::lemma_sorted_members::<ByWindow>(s, r[i]);
        assert(out[i] == counters::of_type(r[i], tt) && out[j] == counters::of_type(r[j], tt));
        if ByWindow::rank(r[i], r[j]) == 0 {
            assert(window_of(r[i]) == window_of(r[j]));
            assert(r[i] == r[j]);
        }
    }
    assert forall|w: (u64, u64)| #[trigger] of_window(each, w).len() > 0 implies out.contains(
        counters::of_type(bucket_total(w, of_window(each, w)), tt),
    ) by {
        let b = bucket_total(w, of_window(each, w));
        sorting::lemma_sorted_members::<ByWindow>(s, b);
        let n = choose|n: int| 0 <= n < r.len() && r[n] == b;
        assert(out[n] == counters::of_type(b, tt));
    }
}

/// The buckets of the known devices behind an interface, one device after another.
proof fn lemma_each_device(
    h: HistogramView,
    registry: Seq<((u32, Seq<u8>), KnownView)>,
    ifindex: u32,
    range: (u64, u64),
    bucket: AggregateBucket,
    cal: Lookups,
)
    ensures
        usage::all_buckets(
            h,
            ifindex,
            usage::macs_behind(registry, ifindex),
            range,
            bucket,
            cal,
        ) == lists::flat(
            lists::picked(registry, |e: ((u32, Seq<u8>), KnownView)| e.0.0 == ifindex),
            |e: ((u32, Seq<u8>), KnownView)|
                histogram::aggregate(
                    h,
                    ifindex,
                    Some(mac::mac_text(e.0.1)),
                    range.0,
                    range.1,
                    bucket,
                    cal,
                ),
        ),
    decreases registry.len(),
{
    let p = |e: ((u32, Seq<u8>), KnownView)| e.0.0 == ifindex;
    if registry.len() > 0 {
        let r = registry.drop_last();
        lemma_each_device(h, r, ifindex, range, bucket, cal);
        if p(registry.last()) {
            let macs = usage::macs_behind(r, ifindex);
            let m = mac::mac_text(registry.last().0.1);
            assert(macs.push(m).drop_last() =~= macs);
            let t = lists::picked(r, p);
            assert(t.push(registry.last()).drop_last() =~= t);
        }
    }
}

/// Where a request names no device, each window that it is answered is one in which some known device
/// behind the interface has a bucket, and every number in it is the sum of that number over the
/// buckets of those devices that have this window. What belongs to the IP family that was not asked
/// for is zero. The windows come strictly one after another.
pub proof fn lemma_window_figures(
    h: HistogramView,
    registry: Seq<((u32, Seq<u8>), KnownView)>,
    ifindex: u32,
    mac: Option<Seq<char>>,
    from_ms: u64,
    to_ms: u64,
    bucket: AggregateBucket,
    tt: HistoryTrafficType,
    cal: Lookups,
    i: int,
)
    requires
        mac is None || text::trimmed(mac.unwrap()).len() == 0,
        0 <= i < usage::asked_buckets(
            h,
            registry,
            ifindex,
            mac,
            (from_ms, to_ms),
            bucket,
            tt,
            cal,
        ).len(),
    ensures
        ({
            let out = usage::asked_buckets(
                h,
                registry,
                ifindex,
                mac,
                (from_ms, to_ms),
                bucket,
                tt,
                cal,
            );
            let x = out[i];
            let parts = lists::picked(
                lists::flat(
                    lists::picked(registry, |e: ((u32, Seq<u8>), KnownView)| e.0.0 == ifindex),
                    |e: ((u32, Seq<u8>), KnownView)|
                        histogram::aggregate(
                            h,
                            ifindex,
                            Some(mac::mac_text(e.0.1)),
                            from_ms,
                            to_ms,
                            bucket,
                            cal,
                        ),
                ),
                |b: AggregatedBucket|
                    b.start_ts_ms == x.start_ts_ms && b.end_ts_ms == x.end_ts_ms,
            );
            &&& parts.len() > 0
            &&& i > 0 ==> out[i - 1].start_ts_ms < x.start_ts_ms || out[i - 1].start_ts_ms
                == x.start_ts_ms && out[i - 1].end_ts_ms < x.end_ts_ms
            &&& x.up_v4_bytes == (if tt == HistoryTrafficType::Ipv6 {
                0
            } else {
                stats::capped(stats::total(lists::numbers(parts, |b: AggregatedBucket| b.up_v4_bytes)))
            })
            &&& x.down_v4_bytes == (if tt == HistoryTrafficType::Ipv6 {
                0
            } else {
                stats::capped(stats::total(lists::numbers(parts, |b: AggregatedBucket| b.down_v4_bytes)))
            })
            &&& x.up_v6_bytes == (if tt == HistoryTrafficType::Ipv4 {
                0
            } else {
                stats::capped(stats::total(lists::numbers(parts, |b: AggregatedBucket| b.up_v6_bytes)))
            })
            &&& x.down_v6_bytes == (if tt == HistoryTrafficType::Ipv4 {
                0
            } else {
                stats::capped(stats::total(lists::numbers(parts, |b: AggregatedBucket| b.down_v6_bytes)))
            })
            &&& x.up_v4_bps_avg == (if tt == HistoryTrafficType::Ipv6 {
                0
            } else {
                stats::capped(stats::total(lists::numbers(parts, |b: AggregatedBucket| b.up_v4_bps_avg)))
            })
            &&& x.up_v4_bps_max == (if tt == HistoryTrafficType::Ipv6 {
                0
            } else {
                stats::capped(stats::total(lists::numbers(parts, |b: AggregatedBucket| b.up_v4_bps_max)))
            })
            &&& x.up_v4_bps_min == (if tt == HistoryTrafficType::Ipv6 {
                0
            } else {
                stats::capped(stats::total(lists::numbers(parts, |b: AggregatedBucket| b.up_v4_bps_min)))
            })
            &&& x.up_v4_bps_p95 == (if tt == HistoryTrafficType::Ipv6 {
                0
            } else {
                stats::capped(stats::total(lists::numbers(parts, |b: AggregatedBucket| b.up_v4_bps_p95)))
            })
            &&& x.down_v4_bps_avg == (if tt == HistoryTrafficType::Ipv6 {
                0
            } else {
                stats::capped(stats::total(lists::numbers(parts, |b: AggregatedBucket| b.down_v4_bps_avg)))
            })
            &&& x.down_v4_bps_max == (if tt == HistoryTrafficType::Ipv6 {
                0
            } else {
                stats::capped(stats::total(lists::numbers(parts, |b: AggregatedBucket| b.down_v4_bps_max)))
            })
            &&& x.down_v4_bps_min == (if tt == HistoryTrafficType::Ipv6 {
                0
            } else {
                stats::capped(stats::total(lists::numbers(parts, |b: AggregatedBucket| b.down_v4_bps_min)))
            })
            &&& x.down_v4_bps_p95 == (if tt == HistoryTrafficType::Ipv6 {
                0
            } else {
                stats::capped(stats::total(lists::numbers(parts, |b: AggregatedBucket| b.down_v4_bps_p95)))
            })
            &&& x.up_v6_bps_avg == (if tt == HistoryTrafficType::Ipv4 {
                0
            } else {
                stats::capped(stats::total(lists::numbers(parts, |b: AggregatedBucket| b.up_v6_bps_avg)))
            })
            &&& x.up_v6_bps_max == (if tt == HistoryTrafficType::Ipv4 {
                0
            } else {
                stats::capped(stats::total(lists::numbers(parts, |b: AggregatedBucket| b.up_v6_bps_max)))
            })
            &&& x.up_v6_bps_min == (if tt == HistoryTrafficType::Ipv4 {
                0
            } else {
                stats::capped(stats::total(lists::numbers(parts, |b: AggregatedBucket| b.up_v6_bps_min)))
            })
            &&& x.up_v6_bps_p95 == (if tt == HistoryTrafficType::Ipv4 {
                0
            } else {
                stats::capped(stats::total(lists::numbers(parts, |b: AggregatedBucket| b.up_v6_bps_p95)))
            })
            &&& x.down_v6_bps_avg == (if tt == HistoryTrafficType::Ipv4 {
                0
            } else {
                stats::capped(stats::total(lists::numbers(parts, |b: AggregatedBucket| b.down_v6_bps_avg)))
            })
            &&& x.down_v6_bps_max == (if tt == HistoryTrafficType::Ipv4 {
                0
            } else {
                stats::capped(stats::total(lists::numbers(parts, |b: AggregatedBucket| b.down_v6_bps_max)))
            })
            &&& x.down_v6_bps_min == (if tt == HistoryTrafficType::Ipv4 {
                0
            } else {
                stats::capped(stats::total(lists::numbers(parts, |b: AggregatedBucket| b.down_v6_bps_min)))
            })
            &&& x.down_v6_bps_p95 == (if tt == HistoryTrafficType::Ipv4 {
                0
            } else {
                stats::capped(stats::total(lists::numbers(parts, |b: AggregatedBucket| b.down_v6_bps_p95)))
            })
        }),
{
    let range = (from_ms, to_ms);
    let out = usage::asked_buckets(h, registry, ifindex, mac, range, bucket, tt, cal);
    assert(out == usage::asked_buckets(h, registry, ifindex, None, range, bucket, tt, cal));
    let x = out[i];
    lemma_windows_answered(h, registry, ifindex, range, bucket, tt, cal);
    lemma_each_device(h, registry, ifindex, range, bucket, cal);
    let each = usage::all_buckets(
        h,
        ifindex,
        usage::macs_behind(registry, ifindex),
        range,
        bucket,
        cal,
    );
    let p = |b: AggregatedBucket| b.start_ts_ms == x.start_ts_ms && b.end_ts_ms == x.end_ts_ms;
    assert(window_test(window_of(x)) =~= p);
    let parts = lists::picked(each, p);
    assert(x == counters::of_type(bucket_total(window_of(x), parts), tt));
    if i > 0 {
        assert(ByWindow::rank(out[i - 1], out[i]) < 0);
    }
    assert(sums::amounts(parts, |b: AggregatedBucket| b.up_v4_bytes) =~= lists::numbers(
        parts,
        |b: AggregatedBucket| b.up_v4_bytes,
    ));
    assert(sums::amounts(parts, |b: AggregatedBucket| b.down_v4_bytes) =~= lists::numbers(
        parts,
        |b: AggregatedBucket| b.down_v4_bytes,
    ));
    assert(sums::amounts(parts, |b: AggregatedBucket| b.up_v6_bytes) =~= lists::numbers(
        parts,
        |b: AggregatedBucket| b.up_v6_bytes,
    ));
    assert(sums::amounts(parts, |b: AggregatedBucket| b.down_v6_bytes) =~= lists::numbers(
        parts,
        |b: AggregatedBucket| b.down_v6_bytes,
    ));
    assert(sums::amounts(parts, |b: AggregatedBucket| b.up_v4_bps_avg) =~= lists::numbers(
        parts,
        |b: AggregatedBucket| b.up_v4_bps_avg,
    ));
    assert(sums::amounts(parts, |b: AggregatedBucket| b.up_v4_bps_max) =~= lists::numbers(
        parts,
        |b: AggregatedBucket| b.up_v4_bps_max,
    ));
    assert(sums::amounts(parts, |b: AggregatedBucket| b.up_v4_bps_min) =~= lists::numbers(
        parts,
        |b: AggregatedBucket| b.up_v4_bps_min,
    ));
    assert(sums::amounts(parts, |b: AggregatedBucket| b.up_v4_bps_p95) =~= lists::numbers(
        parts,
        |b: AggregatedBucket| b.up_v4_bps_p95,
    ));
    assert(sums::amounts(parts, |b: AggregatedBucket| b.down_v4_bps_avg) =~= lists::numbers(
        parts,
        |b: AggregatedBucket| b.down_v4_bps_avg,
    ));
    assert(sums::amounts(parts, |b: AggregatedBucket| b.down_v4_bps_max) =~= lists::numbers(
        parts,
        |b: AggregatedBucket| b.down_v4_bps_max,
    ));
    assert(sums::amounts(parts, |b: AggregatedBucket| b.down_v4_bps_min) =~= lists::numbers(
        parts,
        |b: AggregatedBucket| b.down_v4_bps_min,
    ));
    assert(sums::amounts(parts, |b: AggregatedBucket| b.down_v4_bps_p95) =~= lists::numbers(
        parts,
        |b: AggregatedBucket| b.down_v4_bps_p95,
    ));
    assert(sums::amounts(parts, |b: AggregatedBucket| b.up_v6_bps_avg) =~= lists::numbers(
        parts,
        |b: AggregatedBucket| b.up_v6_bps_avg,
    ));
    assert(sums::amounts(parts, |b: AggregatedBucket| b.up_v6_bps_max) =~= lists::numbers(
        parts,
        |b: AggregatedBucket| b.up_v6_bps_max,
    ));
    assert(sums::amounts(parts, |b: AggregatedBucket| b.up_v6_bps_min) =~= lists::numbers(
        parts,
        |b: AggregatedBucket| b.up_v6_bps_min,
    ));
    assert(sums::amounts(parts, |b: AggregatedBucket| b.up_v6_bps_p95) =~= lists::numbers(
        parts,
        |b: AggregatedBucket| b.up_v6_bps_p95,
    ));
    assert(sums::amounts(parts, |b: AggregatedBucket| b.down_v6_bps_avg) =~= lists::numbers(
        parts,
        |b: AggregatedBucket| b.down_v6_bps_avg,
    ));
    assert(sums::amounts(parts, |b: AggregatedBucket| b.down_v6_bps_max) =~= lists::numbers(
        parts,
        |b: AggregatedBucket| b.down_v6_bps_max,
    ));
    assert(sums::amounts(parts, |b: AggregatedBucket| b.down_v6_bps_min) =~= lists::numbers(
        parts,
        |b: AggregatedBucket| b.down_v6_bps_min,
    ));
    assert(sums::amounts(parts, |b: AggregatedBucket| b.down_v6_bps_p95) =~= lists::numbers(
        parts,
        |b: AggregatedBucket| b.down_v6_bps_p95,
    ));
}

/// Where a request names no device, every bucket that a known device behind the interface has in the
/// times asked for has its window among those that the request is answered.
pub proof fn lemma_windows_complete(
    h: HistogramView,
    registry: Seq<((u32, Seq<u8>), KnownView)>,
    ifindex: u32,
    mac: Option<Seq<char>>,
    from_ms: u64,
    to_ms: u64,
    bucket: AggregateBucket,
    tt: HistoryTrafficType,
    cal: Lookups,
    n: int,
    b: AggregatedBucket,
)
    requires
        mac is None || text::trimmed(mac.unwrap()).len() == 0,
        0 <= n < registry.len(),
        registry[n].0.0 == ifindex,
        histogram::aggregate(
            h,
            ifindex,
            Some(mac::mac_text(registry[n].0.1)),
            from_ms,
            to_ms,
            bucket,
            cal,
        ).contains(b),
    ensures
        ({
            let out = usage::asked_buckets(
                h,
                registry,
                ifindex,
                mac,
                (from_ms, to_ms),
                bucket,
                tt,
                cal,
            );
            exists|i: int|
                0 <= i < out.len() && (#[trigger] out[i]).start_ts_ms == b.start_ts_ms
                    && out[i].end_ts_ms == b.end_ts_ms
        }),
{
    let range = (from_ms, to_ms);
    let out = usage::asked_buckets(h, registry, ifindex, mac, range, bucket, tt, cal);
    assert(out == usage::asked_buckets(h, registry, ifindex, None, range, bucket, tt, cal));
    lemma_windows_answered(h, registry, ifindex, range, bucket, tt, cal);
    lemma_each_device(h, registry, ifindex, range, bucket, cal);
    let p = |e: ((u32, Seq<u8>), KnownView)| e.0.0 == ifindex;
    let g = |e: ((u32, Seq<u8>), KnownView)|
        histogram::aggregate(
            h,
            ifindex,
            Some(mac::mac_text(e.0.1)),
            range.0,
            range.1,
            bucket,
            cal,
        );
    let near = lists::picked(registry, p);
    lists::lemma_picked_complete(registry, p, n);
    let a = choose|a: int| 0 <= a < near.len() && near[a] == registry[n];
    lists::lemma_flat_complete(near, g, a, b);
    let each = lists::flat(near, g);
    let c = choose|c: int| 0 <= c < each.len() && each[c] == b;
    let w = window_of(b);
    lists::lemma_picked_complete(each, window_test(w), c);
    assert(of_window(each, w).len() > 0);
    let y = counters::of_type(bucket_total(w, of_window(each, w)), tt);
    assert(out.contains(y));
    let i = choose|i: int| 0 <= i < out.len() && out[i] == y;
    assert(out[i].start_ts_ms == b.start_ts_ms);
}

/// A request that names a device is answered with the buckets of that device behind the interface.
/// What belongs to the IP family that was not asked for is zero.
pub proof fn lemma_device_windows(
    h: HistogramView,
    registry: Seq<((u32, Seq<u8>), KnownView)>,
    ifindex: u32,
    mac: Seq<char>,
    from_ms: u64,
    to_ms: u64,
    bucket: AggregateBucket,
    tt: HistoryTrafficType,
    cal: Lookups,
    i: int,
)
    requires
        text::trimmed(mac).len() > 0,
        0 <= i < histogram::aggregate(
            h,
            ifindex,
            Some(mac),
            from_ms,
            to_ms,
            bucket,
            cal,
        ).len(),
    ensures
        ({
            let found = histogram::aggregate(
                h,
                ifindex,
                Some(mac),
                from_ms,
                to_ms,
                bucket,
                cal,
            );
            let out = usage::asked_buckets(
                h,
                registry,
                ifindex,
                Some(mac),
                (from_ms, to_ms),
                bucket,
                tt,
                cal,
            );
            let x = out[i];
            &&& out.len() == found.len()
            &&& x.start_ts_ms == found[i].start_ts_ms
            &&& x.end_ts_ms == found[i].end_ts_ms
            &&& x.up_v4_bytes == (if tt == HistoryTrafficType::Ipv6 {
                0
            } else {
                found[i].up_v4_bytes
            })
            &&& x.down_v4_bytes == (if tt == HistoryTrafficType::Ipv6 {
                0
            } else {
                found[i].down_v4_bytes
            })
            &&& x.up_v6_bytes == (if tt == HistoryTrafficType::Ipv4 {
                0
            } else {
                found[i].up_v6_bytes
            })
            &&& x.down_v6_bytes == (if tt == HistoryTrafficType::Ipv4 {
                0
            } else {
                found[i].down_v6_bytes
            })
            &&& x.up_v4_bps_avg == (if tt == HistoryTrafficType::Ipv6 {
                0
            } else {
                found[i].up_v4_bps_avg
            })
            &&& x.up_v4_bps_max == (if tt == HistoryTrafficType::Ipv6 {
                0
            } else {
                found[i].up_v4_bps_max
            })
            &&& x.up_v4_bps_min == (if tt == HistoryTrafficType::Ipv6 {
                0
            } else {
                found[i].up_v4_bps_min
            })
            &&& x.up_v4_bps_p95 == (if tt == HistoryTrafficType::Ipv6 {
                0
            } else {
                found[i].up_v4_bps_p95
            })
            &&& x.down_v4_bps_avg == (if tt == HistoryTrafficType::Ipv6 {
                0
            } else {
                found[i].down_v4_bps_avg
            })
            &&& x.down_v4_bps_max == (if tt == HistoryTrafficType::Ipv6 {
                0
            } else {
                found[i].down_v4_bps_max
            })
            &&& x.down_v4_bps_min == (if tt == HistoryTrafficType::Ipv6 {
                0
            } else {
                found[i].down_v4_bps_min
            })
            &&& x.down_v4_bps_p95 == (if tt == HistoryTrafficType::Ipv6 {
                0
            } else {
                found[i].down_v4_bps_p95
            })
            &&& x.up_v6_bps_avg == (if tt == HistoryTrafficType::Ipv4 {
                0
            } else {
                found[i].up_v6_bps_avg
            })
            &&& x.up_v6_bps_max == (if tt == HistoryTrafficType::Ipv4 {
                0
            } else {
                found[i].up_v6_bps_max
            })
            &&& x.up_v6_bps_min == (if tt == HistoryTrafficType::Ipv4 {
                0
            } else {
                found[i].up_v6_bps_min
            })
            &&& x.up_v6_bps_p95 == (if tt == HistoryTrafficType::Ipv4 {
                0
            } else {
                found[i].up_v6_bps_p95
            })
            &&& x.down_v6_bps_avg == (if tt == HistoryTrafficType::Ipv4 {
                0
            } else {
                found[i].down_v6_bps_avg
            })
            &&& x.down_v6_bps_max == (if tt == HistoryTrafficType::Ipv4 {
                0
            } else {
                found[i].down_v6_bps_max
            })
            &&& x.down_v6_bps_min == (if tt == HistoryTrafficType::Ipv4 {
                0
            } else {
                found[i].down_v6_bps_min
            })
            &&& x.down_v6_bps_p95 == (if tt == HistoryTrafficType::Ipv4 {
                0
            } else {
                found[i].down_v6_bps_p95
            })
        }),
{
}

/// A request that leaves the beginning open asks for the day up to now, or for all that there was of
/// it since the epoch; one that leaves the end open asks for the times up to now.
pub proof fn lemma_range_asked(start_ms: Option<u64>, end_ms: Option<u64>, now_ms: u64)
    ensures
        ({
            let (from, to) = usage::asked_range(start_ms, end_ms, now_ms);
            &&& start_ms is Some ==> from == start_ms.unwrap()
            &&& end_ms is Some ==> to == end_ms.unwrap()
            &&& end_ms is None ==> to == now_ms
            &&& start_ms is None && now_ms >= 24 * 60 * 60 * 1000 ==> now_ms - from == 24 * 60 * 60
                * 1000
            &&& start_ms is None && now_ms < 24 * 60 * 60 * 1000 ==> from == 0
        }),
{
}

/// A ranking that leaves the beginning open asks for the year of 365 days up to now; before such a
/// year has passed since the epoch, for a time so late that nothing is asked for. One that leaves the
/// end open asks for the times up to now.
pub proof fn lemma_range_ranked(start_ms: Option<u64>, end_ms: Option<u64>, now_ms: u64)
    ensures
        ({
            let (from, to) = usage::ranked_range(start_ms, end_ms, now_ms);
            let year = 365 * 24 * 60 * 60 * 1000;
            &&& start_ms is Some ==> from == start_ms.unwrap()
            &&& end_ms is Some ==> to == end_ms.unwrap()
            &&& end_ms is None ==> to == now_ms
            &&& start_ms is None && now_ms >= year ==> now_ms - from == year
            &&& start_ms is None && now_ms < year ==> from > now_ms && from - now_ms
                == 0x1_0000_0000_0000_0000 - year
        }),
{
}

/// A query for hours is answered with the hours of the series that it asks for, one for days with these
/// hours gathered into days. It asks for the interface where no address is given or a blank one.
pub proof fn lemma_widths(
    h: HistogramView,
    ifindex: u32,
    mac: Option<Seq<char>>,
    from_ms: u64,
    to_ms: u64,
    cal: Lookups,
)
    ensures
        histogram::aggregate(h, ifindex, mac, from_ms, to_ms, AggregateBucket::Daily, cal)
            == histogram::daily(
            histogram::aggregate(h, ifindex, mac, from_ms, to_ms, AggregateBucket::Hourly, cal),
            cal,
        ),
        mac is None || text::trimmed(mac.unwrap()).len() == 0 ==> histogram::aggregate(
            h,
            ifindex,
            mac,
            from_ms,
            to_ms,
            AggregateBucket::Hourly,
            cal,
        ) == hours::hourly(h.ifaces, ifindex, from_ms, to_ms, cal),
        forall|key: (u32, Seq<char>)|
            mac is Some && text::trimmed(mac.unwrap()).len() > 0 && #[trigger] figures::only_key(
                h.devices,
                ifindex,
                mac.unwrap(),
                key,
            ) ==> histogram::aggregate(
                h,
                ifindex,
                mac,
                from_ms,
                to_ms,
                AggregateBucket::Hourly,
                cal,
            ) == hours::hourly(h.devices, key, from_ms, to_ms, cal),
{
    assert forall|key: (u32, Seq<char>)|
        mac is Some && text::trimmed(mac.unwrap()).len() > 0 && #[trigger] figures::only_key(
            h.devices,
            ifindex,
            mac.unwrap(),
            key,
        ) implies histogram::aggregate(
        h,
        ifindex,
        mac,
        from_ms,
        to_ms,
        AggregateBucket::Hourly,
        cal,
    ) == hours::hourly(h.devices, key, from_ms, to_ms, cal) by {
        figures::lemma_device_hours(h, ifindex, mac.unwrap(), key, from_ms, to_ms, cal);
    }
}

} // verus!
