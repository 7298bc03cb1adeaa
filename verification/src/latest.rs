//! What the recent samples show, figure by figure.

use vstd::prelude::*;

use crate::api;
use crate::counters;
use crate::counters::HistoryPoint;
use crate::counters::HistoryTrafficType;
use crate::history;
use crate::history::HistoryView;
use crate::lists;
use crate::snapshot::DeviceView;
use crate::snapshot::InterfaceView;
use crate::snapshot::SnapshotView;
use crate::stats;
use crate::table;
use crate::text;

verus! {

/// Where no device is named, one sample is shown for each that was taken of the interface, in order.
/// Each figure is the rate, the bytes or the total of that same counter. What belongs to the IP family
/// that was not asked for is zero.
pub proof fn lemma_iface_samples(
    h: HistoryView,
    ifindex: u32,
    mac: Option<Seq<char>>,
    tt: HistoryTrafficType,
    i: int,
)
    requires
        mac is None || text::trimmed(mac.unwrap()).len() == 0,
        h.ifaces.contains_key(ifindex),
        0 <= i < h.ifaces[ifindex].len(),
    ensures
        ({
            let q = h.ifaces[ifindex];
            let x = api::asked_samples(h, ifindex, mac, tt)[i];
            &&& api::asked_samples(h, ifindex, mac, tt).len() == q.len()
            &&& x.ts_ms == q[i].ts_ms
            &&& x.up_v4_bps == (if tt == HistoryTrafficType::Ipv6 {
                0
            } else {
                q[i].metrics.up_v4_bps
            })
            &&& x.down_v4_bps == (if tt == HistoryTrafficType::Ipv6 {
                0
            } else {
                q[i].metrics.down_v4_bps
            })
            &&& x.up_v6_bps == (if tt == HistoryTrafficType::Ipv4 {
                0
            } else {
                q[i].metrics.up_v6_bps
            })
            &&& x.down_v6_bps == (if tt == HistoryTrafficType::Ipv4 {
                0
            } else {
                q[i].metrics.down_v6_bps
            })
            &&& x.up_v4_bytes == (if tt == HistoryTrafficType::Ipv6 {
                0
            } else {
                q[i].metrics.up_v4_bytes
            })
            &&& x.down_v4_bytes == (if tt == HistoryTrafficType::Ipv6 {
                0
            } else {
                q[i].metrics.down_v4_bytes
            })
            &&& x.up_v6_bytes == (if tt == HistoryTrafficType::Ipv4 {
                0
            } else {
                q[i].metrics.up_v6_bytes
            })
            &&& x.down_v6_bytes == (if tt == HistoryTrafficType::Ipv4 {
                0
            } else {
                q[i].metrics.down_v6_bytes
            })
            &&& x.up_v4_bytes_cumulative == (if tt == HistoryTrafficType::Ipv6 {
                0
            } else {
                q[i].cumulative.up_v4_bytes
            })
            &&& x.down_v4_bytes_cumulative == (if tt == HistoryTrafficType::Ipv6 {
                0
            } else {
                q[i].cumulative.down_v4_bytes
            })
            &&& x.up_v6_bytes_cumulative == (if tt == HistoryTrafficType::Ipv4 {
                0
            } else {
                q[i].cumulative.up_v6_bytes
            })
            &&& x.down_v6_bytes_cumulative == (if tt == HistoryTrafficType::Ipv4 {
                0
            } else {
                q[i].cumulative.down_v6_bytes
            })
        }),
{
}

/// An interface of which no sample was taken shows none.
pub proof fn lemma_iface_without_samples(
    h: HistoryView,
    ifindex: u32,
    mac: Option<Seq<char>>,
    tt: HistoryTrafficType,
)
    requires
        mac is None || text::trimmed(mac.unwrap()).len() == 0,
        !h.ifaces.contains_key(ifindex),
    ensures
        api::asked_samples(h, ifindex, mac, tt).len() == 0,
{
}

proof fn lemma_ifaces_last(
    m: Map<u32, Seq<HistoryPoint>>,
    items: Seq<InterfaceView>,
    ts_ms: u64,
    n: usize,
    i: int,
)
    requires
        n > 0,
        0 <= i < items.len(),
        forall|j: int| i < j < items.len() ==> (#[trigger] items[j]).ifindex != items[i].ifindex,
    ensures
        ({
            let q = history::ifaces_appended(m, items, ts_ms, n);
            let k = items[i].ifindex;
            &&& q.contains_key(k)
            &&& q[k].len() > 0
            &&& q[k].last() == (HistoryPoint {
                ts_ms,
                metrics: items[i].metrics,
                cumulative: items[i].cumulative,
            })
        }),
    decreases items.len(),
{
    let h = items.drop_last();
    if i < items.len() - 1 {
        assert forall|j: int| i < j < h.len() implies (#[trigger] h[j]).ifindex != h[i].ifindex by {
            assert(items[j].ifindex != items[i].ifindex);
        }
        lemma_ifaces_last(m, h, ts_ms, n, i);
        assert(items[items.len() - 1].ifindex != items[i].ifindex);
    } else {
        let rest = history::ifaces_appended(m, h, ts_ms, n);
        let q = lists::kept_last(
            history::points_under(rest, items[i].ifindex).push(
                history::iface_point(ts_ms, items[i]),
            ),
            n as nat,
        );
        assert(q.last() == history::iface_point(ts_ms, items[i]));
    }
}

/// After a snapshot has been taken in, the last sample that an interface of it shows is of the time of
/// the snapshot, and has figure by figure the rates, the bytes and the totals that the snapshot shows.
pub proof fn lemma_iface_latest(
    h: HistoryView,
    s: SnapshotView,
    mac: Option<Seq<char>>,
    i: int,
)
    requires
        mac is None || text::trimmed(mac.unwrap()).len() == 0,
        h.window_points > 0,
        0 <= i < s.interfaces.len(),
        forall|j: int|
            i < j < s.interfaces.len() ==> (#[trigger] s.interfaces[j]).ifindex
                != s.interfaces[i].ifindex,
    ensures
        ({
            let d = s.interfaces[i];
            let shown = api::asked_samples(
                history::snapshot_appended(h, s),
                d.ifindex,
                mac,
                HistoryTrafficType::All,
            );
            let x = shown.last();
            &&& shown.len() > 0
            &&& x.ts_ms == s.timestamp_ms
            &&& x.up_v4_bps == d.metrics.up_v4_bps
            &&& x.down_v4_bps == d.metrics.down_v4_bps
            &&& x.up_v6_bps == d.metrics.up_v6_bps
            &&& x.down_v6_bps == d.metrics.down_v6_bps
            &&& x.up_v4_bytes == d.metrics.up_v4_bytes
            &&& x.down_v4_bytes == d.metrics.down_v4_bytes
            &&& x.up_v6_bytes == d.metrics.up_v6_bytes
            &&& x.down_v6_bytes == d.metrics.down_v6_bytes
            &&& x.up_v4_bytes_cumulative == d.cumulative.up_v4_bytes
            &&& x.down_v4_bytes_cumulative == d.cumulative.down_v4_bytes
            &&& x.up_v6_bytes_cumulative == d.cumulative.up_v6_bytes
            &&& x.down_v6_bytes_cumulative == d.cumulative.down_v6_bytes
        }),
{
    lemma_ifaces_last(h.ifaces, s.interfaces, s.timestamp_ms, h.window_points, i);
}

proof fn lemma_ifaces_kept(
    m: Map<u32, Seq<HistoryPoint>>,
    items: Seq<InterfaceView>,
    ts_ms: u64,
    n: usize,
    k: u32,
)
    requires
        forall|j: int| 0 <= j < items.len() ==> (#[trigger] items[j]).ifindex != k,
    ensures
        history::ifaces_appended(m, items, ts_ms, n).get(k) == m.get(k),
    decreases items.len(),
{
    if items.len() > 0 {
        let h = items.drop_last();
        assert forall|j: int| 0 <= j < h.len() implies (#[trigger] h[j]).ifindex != k by {
            assert(items[j].ifindex != k);
        }
        lemma_ifaces_kept(m, h, ts_ms, n, k);
        assert(items[items.len() - 1].ifindex != k);
    }
}

/// After a snapshot has been taken in, an interface that stands in it once has one sample more, and
/// the samples that it had before come before it, of which the oldest are dropped beyond the room that
/// there is. An interface that does not stand in it has the samples that it had.
pub proof fn lemma_iface_samples_kept(h: HistoryView, s: SnapshotView, k: u32)
    requires
        h.window_points > 0,
    ensures
        history::snapshot_appended(h, s).window_points == h.window_points,
        (forall|j: int| 0 <= j < s.interfaces.len() ==> (#[trigger] s.interfaces[j]).ifindex != k)
            ==> history::snapshot_appended(h, s).ifaces.get(k) == h.ifaces.get(k),
        forall|i: int|
            0 <= i < s.interfaces.len() && (#[trigger] s.interfaces[i]).ifindex == k && (forall|
                j: int,
            |
                0 <= j < s.interfaces.len() && j != i ==> (#[trigger] s.interfaces[j]).ifindex
                    != k) ==> ({
                let was = if h.ifaces.contains_key(k) {
                    h.ifaces[k]
                } else {
                    Seq::empty()
                };
                let now = history::snapshot_appended(h, s).ifaces[k];
                let gone = was.len() + 1 - now.len();
                &&& now.len() == (if was.len() < h.window_points {
                    was.len() + 1
                } else {
                    h.window_points as nat
                })
                &&& forall|n: int| 0 <= n < now.len() - 1 ==> #[trigger] now[n] == was[n + gone]
                &&& now.last().ts_ms == s.timestamp_ms
                &&& now.last().metrics == s.interfaces[i].metrics
                &&& now.last().cumulative == s.interfaces[i].cumulative
            }),
{
    if forall|j: int| 0 <= j < s.interfaces.len() ==> (#[trigger] s.interfaces[j]).ifindex != k {
        lemma_ifaces_kept(h.ifaces, s.interfaces, s.timestamp_ms, h.window_points, k);
    }
    assert forall|i: int|
        0 <= i < s.interfaces.len() && (#[trigger] s.interfaces[i]).ifindex == k && (forall|j: int|
            0 <= j < s.interfaces.len() && j != i ==> (#[trigger] s.interfaces[j]).ifindex
                != k) implies ({
        let was = if h.ifaces.contains_key(k) {
            h.ifaces[k]
        } else {
            Seq::empty()
        };
        let now = history::snapshot_appended(h, s).ifaces[k];
        let gone = was.len() + 1 - now.len();
        &&& now.len() == (if was.len() < h.window_points {
            was.len() + 1
        } else {
            h.window_points as nat
        })
        &&& forall|n: int| 0 <= n < now.len() - 1 ==> #[trigger] now[n] == was[n + gone]
        &&& now.last().ts_ms == s.timestamp_ms
        &&& now.last().metrics == s.interfaces[i].metrics
        &&& now.last().cumulative == s.interfaces[i].cumulative
    }) by {
        let a = s.interfaces.take(i);
        let b = s.interfaces.take(i + 1);
        assert forall|j: int| 0 <= j < a.len() implies (#[trigger] a[j]).ifindex != k by {
            assert(s.interfaces[j].ifindex != k);
        }
        lemma_ifaces_kept(h.ifaces, a, s.timestamp_ms, h.window_points, k);
        assert(b.drop_last() =~= a);
        lemma_ifaces_tail(h.ifaces, s.interfaces, s.timestamp_ms, h.window_points, i + 1, k);
    }
}

proof fn lemma_ifaces_tail(
    m: Map<u32, Seq<HistoryPoint>>,
    items: Seq<InterfaceView>,
    ts_ms: u64,
    n: usize,
    i: int,
    k: u32,
)
    requires
        0 <= i <= items.len(),
        forall|j: int| i <= j < items.len() ==> (#[trigger] items[j]).ifindex != k,
    ensures
        history::ifaces_appended(m, items, ts_ms, n).get(k) == history::ifaces_appended(
            m,
            items.take(i),
            ts_ms,
            n,
        ).get(k),
    decreases items.len(),
{
    if i < items.len() {
        let h = items.drop_last();
        assert(items[items.len() - 1].ifindex != k);
        assert forall|j: int| i <= j < h.len() implies (#[trigger] h[j]).ifindex != k by {
            assert(items[j].ifindex != k);
        }
        lemma_ifaces_tail(m, h, ts_ms, n, i, k);
        assert(h.take(i) =~= items.take(i));
    } else {
        assert(items.take(i) =~= items);
    }
}

/// The samples of the devices that a request names, one device after another.
proof fn lemma_named(
    s: Seq<((u32, Seq<char>), Seq<HistoryPoint>)>,
    ifindex: Option<u32>,
    mac: Seq<char>,
)
    ensures
        history::named_points(s, ifindex, mac) == lists::flat(
            lists::picked(
                s,
                |e: ((u32, Seq<char>), Seq<HistoryPoint>)|
                    (ifindex is None || e.0.0 == ifindex.unwrap()) && text::same_ignoring_case(
                        e.0.1,
                        mac,
                    ),
            ),
            |e: ((u32, Seq<char>), Seq<HistoryPoint>)| e.1,
        ),
    decreases s.len(),
{
    let p = |e: ((u32, Seq<char>), Seq<HistoryPoint>)|
        (ifindex is None || e.0.0 == ifindex.unwrap()) && text::same_ignoring_case(e.0.1, mac);
    if s.len() > 0 {
        let h = s.drop_last();
        lemma_named(h, ifindex, mac);
        assert(h.push(s.last()) =~= s);
        lists::lemma_picked_push(h, s.last(), p);
        let t = lists::picked(h, p);
        assert(t.push(s.last()).drop_last() =~= t);
    }
}

/// Asked for a device, with the interface that it is behind or whichever it is behind, a sample is
/// shown for each time at which one was taken of it, in order of time. Each figure is the sum of that
/// same figure over the samples of the device of that time. What belongs to the IP family that was not
/// asked for is zero.
pub proof fn lemma_device_samples(
    s: Seq<((u32, Seq<char>), Seq<HistoryPoint>)>,
    ifindex: Option<u32>,
    mac: Seq<char>,
    tt: HistoryTrafficType,
    i: int,
)
    requires
        0 <= i < history::samples_of_type(
            history::sums_by_time(history::named_points(s, ifindex, mac)),
            tt,
        ).len(),
    ensures
        ({
            let r = history::samples_of_type(
                history::sums_by_time(history::named_points(s, ifindex, mac)),
                tt,
            );
            let x = r[i];
            let at = lists::picked(
                lists::flat(
                    lists::picked(
                        s,
                        |e: ((u32, Seq<char>), Seq<HistoryPoint>)|
                            (ifindex is None || e.0.0 == ifindex.unwrap())
                                && text::same_ignoring_case(e.0.1, mac),
                    ),
                    |e: ((u32, Seq<char>), Seq<HistoryPoint>)| e.1,
                ),
                |p: HistoryPoint| p.ts_ms == x.ts_ms,
            );
            &&& at.len() > 0
            &&& i > 0 ==> r[i - 1].ts_ms < x.ts_ms
            &&& x.up_v4_bps == (if tt == HistoryTrafficType::Ipv6 {
                0
            } else {
                stats::capped(stats::total(lists::numbers(at, |p: HistoryPoint| p.metrics.up_v4_bps)))
            })
            &&& x.down_v4_bps == (if tt == HistoryTrafficType::Ipv6 {
                0
            } else {
                stats::capped(stats::total(lists::numbers(at, |p: HistoryPoint| p.metrics.down_v4_bps)))
            })
            &&& x.up_v6_bps == (if tt == HistoryTrafficType::Ipv4 {
                0
            } else {
                stats::capped(stats::total(lists::numbers(at, |p: HistoryPoint| p.metrics.up_v6_bps)))
            })
            &&& x.down_v6_bps == (if tt == HistoryTrafficType::Ipv4 {
                0
            } else {
                stats::capped(stats::total(lists::numbers(at, |p: HistoryPoint| p.metrics.down_v6_bps)))
            })
            &&& x.up_v4_bytes == (if tt == HistoryTrafficType::Ipv6 {
                0
            } else {
                stats::capped(stats::total(lists::numbers(at, |p: HistoryPoint| p.metrics.up_v4_bytes)))
            })
            &&& x.down_v4_bytes == (if tt == HistoryTrafficType::Ipv6 {
                0
            } else {
                stats::capped(stats::total(lists::numbers(at, |p: HistoryPoint| p.metrics.down_v4_bytes)))
            })
            &&& x.up_v6_bytes == (if tt == HistoryTrafficType::Ipv4 {
                0
            } else {
                stats::capped(stats::total(lists::numbers(at, |p: HistoryPoint| p.metrics.up_v6_bytes)))
            })
            &&& x.down_v6_bytes == (if tt == HistoryTrafficType::Ipv4 {
                0
            } else {
                stats::capped(stats::total(lists::numbers(at, |p: HistoryPoint| p.metrics.down_v6_bytes)))
            })
            &&& x.up_v4_bytes_cumulative == (if tt == HistoryTrafficType::Ipv6 {
                0
            } else {
                stats::capped(stats::total(lists::numbers(at, |p: HistoryPoint| p.cumulative.up_v4_bytes)))
            })
            &&& x.down_v4_bytes_cumulative == (if tt == HistoryTrafficType::Ipv6 {
                0
            } else {
                stats::capped(stats::total(lists::numbers(at, |p: HistoryPoint| p.cumulative.down_v4_bytes)))
            })
            &&& x.up_v6_bytes_cumulative == (if tt == HistoryTrafficType::Ipv4 {
                0
            } else {
                stats::capped(stats::total(lists::numbers(at, |p: HistoryPoint| p.cumulative.up_v6_bytes)))
            })
            &&& x.down_v6_bytes_cumulative == (if tt == HistoryTrafficType::Ipv4 {
                0
            } else {
                stats::capped(stats::total(lists::numbers(at, |p: HistoryPoint| p.cumulative.down_v6_bytes)))
            })
        }),
{
    let q = history::named_points(s, ifindex, mac);
    let r = history::samples_of_type(history::sums_by_time(q), tt);
    let x = r[i];
    lemma_named(s, ifindex, mac);
    let times = lists::ascending_once(history::times_of(q));
    lists::lemma_ascending_once(history::times_of(q));
    assert(x.ts_ms == times[i]);
    let p = |p: HistoryPoint| p.ts_ms == x.ts_ms;
    assert(history::time_test(x.ts_ms) =~= p);
    let at = lists::picked(q, p);
    assert(times.contains(times[i]));
    assert(history::times_of(q).contains(times[i]));
    let n = choose|n: int|
        0 <= n < history::times_of(q).len() && history::times_of(q)[n] == times[i];
    lists::lemma_picked_complete(q, p, n);
    if i > 0 {
        assert(times[i - 1] < times[i]);
        assert(r[i - 1].ts_ms == times[i - 1]);
    }
    let m = counters::metrics_of(at);
    let c = counters::cumulative_of(at);
    assert(counters::up_v4_bps_of(m) =~= lists::numbers(at, |p: HistoryPoint| p.metrics.up_v4_bps));
    assert(counters::down_v4_bps_of(m) =~= lists::numbers(at, |p: HistoryPoint| p.metrics.down_v4_bps));
    assert(counters::up_v6_bps_of(m) =~= lists::numbers(at, |p: HistoryPoint| p.metrics.up_v6_bps));
    assert(counters::down_v6_bps_of(m) =~= lists::numbers(at, |p: HistoryPoint| p.metrics.down_v6_bps));
    assert(counters::up_v4_bytes_of(m) =~= lists::numbers(at, |p: HistoryPoint| p.metrics.up_v4_bytes));
    assert(counters::down_v4_bytes_of(m) =~= lists::numbers(at, |p: HistoryPoint| p.metrics.down_v4_bytes));
    assert(counters::up_v6_bytes_of(m) =~= lists::numbers(at, |p: HistoryPoint| p.metrics.up_v6_bytes));
    assert(counters::down_v6_bytes_of(m) =~= lists::numbers(at, |p: HistoryPoint| p.metrics.down_v6_bytes));
    assert(counters::up_v4_bytes_of(c) =~= lists::numbers(
        at,
        |p: HistoryPoint| p.cumulative.up_v4_bytes,
    ));
    assert(counters::down_v4_bytes_of(c) =~= lists::numbers(
        at,
        |p: HistoryPoint| p.cumulative.down_v4_bytes,
    ));
    assert(counters::up_v6_bytes_of(c) =~= lists::numbers(
        at,
        |p: HistoryPoint| p.cumulative.up_v6_bytes,
    ));
    assert(counters::down_v6_bytes_of(c) =~= lists::numbers(
        at,
        |p: HistoryPoint| p.cumulative.down_v6_bytes,
    ));
}

/// Every sample that was taken of a device has its time shown.
pub proof fn lemma_device_times(
    s: Seq<((u32, Seq<char>), Seq<HistoryPoint>)>,
    ifindex: Option<u32>,
    mac: Seq<char>,
    tt: HistoryTrafficType,
    i: int,
    n: int,
)
    requires
        0 <= i < s.len(),
        0 <= n < s[i].1.len(),
        ifindex is None || s[i].0.0 == ifindex.unwrap(),
        text::same_ignoring_case(s[i].0.1, mac),
    ensures
        exists|j: int|
            0 <= j < history::samples_of_type(
                history::sums_by_time(history::named_points(s, ifindex, mac)),
                tt,
            ).len() && (#[trigger] history::samples_of_type(
                history::sums_by_time(history::named_points(s, ifindex, mac)),
                tt,
            )[j]).ts_ms == s[i].1[n].ts_ms,
{
    let q = history::named_points(s, ifindex, mac);
    let r = history::samples_of_type(history::sums_by_time(q), tt);
    lemma_named(s, ifindex, mac);
    let p = |e: ((u32, Seq<char>), Seq<HistoryPoint>)|
        (ifindex is None || e.0.0 == ifindex.unwrap()) && text::same_ignoring_case(e.0.1, mac);
    let g = |e: ((u32, Seq<char>), Seq<HistoryPoint>)| e.1;
    let x = s[i].1[n];
    lists::lemma_picked_complete(s, p, i);
    let picked = lists::picked(s, p);
    let a = choose|a: int| 0 <= a < picked.len() && picked[a] == s[i];
    assert(g(picked[a]).contains(x));
    lists::lemma_flat_complete(picked, g, a, x);
    let b = choose|b: int| 0 <= b < q.len() && q[b] == x;
    let times = history::times_of(q);
    assert(times[b] == x.ts_ms);
    assert(times.contains(x.ts_ms));
    history::lemma_sums_in_order(q);
    let j = choose|j: int|
        0 <= j < history::sums_by_time(q).len() && (#[trigger] history::sums_by_time(q)[j]).ts_ms
            == x.ts_ms;
    assert(r[j].ts_ms == x.ts_ms);
}

/// A request that names a device and an interface is answered with the samples of that device behind
/// that interface.
pub proof fn lemma_device_asked(
    h: HistoryView,
    ifindex: u32,
    mac: Seq<char>,
    tt: HistoryTrafficType,
)
    requires
        text::trimmed(mac).len() > 0,
    ensures
        api::asked_samples(h, ifindex, Some(mac), tt) == history::samples_of_type(
            history::sums_by_time(history::named_points(h.devices, Some(ifindex), mac)),
            tt,
        ),
{
}

proof fn lemma_devices_tail(
    s: Seq<((u32, Seq<char>), Seq<HistoryPoint>)>,
    items: Seq<DeviceView>,
    ts_ms: u64,
    n: usize,
    i: int,
    k: (u32, Seq<char>),
)
    requires
        n > 0,
        0 <= i <= items.len(),
        forall|j: int| i <= j < items.len() ==> ((#[trigger] items[j]).ifindex, items[j].mac) != k,
    ensures
        table::lookup(history::devices_appended(s, items, ts_ms, n), k) == table::lookup(
            history::devices_appended(s, items.take(i), ts_ms, n),
            k,
        ),
    decreases items.len(),
{
    if i < items.len() {
        let h = items.drop_last();
        let d = items.last();
        assert((items[items.len() - 1].ifindex, items[items.len() - 1].mac) != k);
        assert forall|j: int| i <= j < h.len() implies ((#[trigger] h[j]).ifindex, h[j].mac) != k by {
            assert((items[j].ifindex, items[j].mac) != k);
        }
        lemma_devices_tail(s, h, ts_ms, n, i, k);
        assert(h.take(i) =~= items.take(i));
        let rest = history::devices_appended(s, h, ts_ms, n);
        history::lemma_appended_shown(
            rest,
            (d.ifindex, d.mac),
            history::device_point(ts_ms, d),
            n,
            k,
        );
    } else {
        assert(items.take(i) =~= items);
    }
}

/// After a snapshot has been taken in, a device that stands in it once has one sample more, with the
/// time of the snapshot and the metrics and totals that the snapshot shows of it. The samples that it
/// had before come before it, of which the oldest are dropped beyond the room that there is. A device
/// that does not stand in it has the samples that it had.
pub proof fn lemma_device_samples_kept(h: HistoryView, s: SnapshotView, k: (u32, Seq<char>))
    requires
        h.window_points > 0,
    ensures
        (forall|j: int|
            0 <= j < s.devices.len() ==> ((#[trigger] s.devices[j]).ifindex, s.devices[j].mac) != k)
            ==> table::lookup(history::snapshot_appended(h, s).devices, k) == table::lookup(
            h.devices,
            k,
        ),
        forall|i: int|
            0 <= i < s.devices.len() && ((#[trigger] s.devices[i]).ifindex, s.devices[i].mac) == k
                && (forall|j: int|
                0 <= j < s.devices.len() && j != i ==> (
                    (#[trigger] s.devices[j]).ifindex,
                    s.devices[j].mac,
                ) != k) ==> ({
                let was = table::lookup_or(h.devices, k, Seq::empty());
                let now = table::lookup_or(
                    history::snapshot_appended(h, s).devices,
                    k,
                    Seq::empty(),
                );
                let gone = was.len() + 1 - now.len();
                &&& now.len() == (if was.len() < h.window_points {
                    was.len() + 1
                } else {
                    h.window_points as nat
                })
                &&& forall|n: int| 0 <= n < now.len() - 1 ==> #[trigger] now[n] == was[n + gone]
                &&& now.last().ts_ms == s.timestamp_ms
                &&& now.last().metrics == s.devices[i].metrics
                &&& now.last().cumulative == s.devices[i].cumulative
            }),
{
    let n = h.window_points;
    let all = s.devices;
    let ts = s.timestamp_ms;
    assert(all.take(0) =~= Seq::<DeviceView>::empty());
    if forall|j: int| 0 <= j < all.len() ==> ((#[trigger] all[j]).ifindex, all[j].mac) != k {
        lemma_devices_tail(h.devices, all, ts, n, 0, k);
    }
    assert forall|i: int|
        0 <= i < all.len() && ((#[trigger] all[i]).ifindex, all[i].mac) == k && (forall|j: int|
            0 <= j < all.len() && j != i ==> ((#[trigger] all[j]).ifindex, all[j].mac)
                != k) implies ({
        let was = table::lookup_or(h.devices, k, Seq::empty());
        let now = table::lookup_or(history::snapshot_appended(h, s).devices, k, Seq::empty());
        let gone = was.len() + 1 - now.len();
        &&& now.len() == (if was.len() < h.window_points {
            was.len() + 1
        } else {
            h.window_points as nat
        })
        &&& forall|n: int| 0 <= n < now.len() - 1 ==> #[trigger] now[n] == was[n + gone]
        &&& now.last().ts_ms == s.timestamp_ms
        &&& now.last().metrics == all[i].metrics
        &&& now.last().cumulative == all[i].cumulative
    }) by {
        let a = all.take(i);
        let b = all.take(i + 1);
        assert forall|j: int| 0 <= j < a.len() implies ((#[trigger] a[j]).ifindex, a[j].mac) != k by {
            assert((all[j].ifindex, all[j].mac) != k);
        }
        assert(a.take(0) =~= Seq::<DeviceView>::empty());
        lemma_devices_tail(h.devices, a, ts, n, 0, k);
        assert(b.drop_last() =~= a);
        lemma_devices_tail(h.devices, all, ts, n, i + 1, k);
        let rest = history::devices_appended(h.devices, a, ts, n);
        let was = table::lookup_or(rest, k, Seq::empty());
        table::lemma_lookup_assigned(
            rest,
            k,
            lists::kept_last(was.push(history::device_point(ts, all[i])), n as nat),
            k,
        );
    }
}

} // verus!
