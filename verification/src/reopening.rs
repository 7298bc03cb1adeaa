//! What is left of open hours that are exported and restored one by one.

use vstd::prelude::*;

use crate::counters;
use crate::counters::AggregatedBucket;
use crate::counters::CurrentHourPointState;
use crate::counters::HistoryPoint;
use crate::histogram;
use crate::histogram::CurrentHourDeviceState;
use crate::histogram::CurrentHourIfaceState;
use crate::histogram::DeviceHourView;
use crate::histogram::HistogramView;
use crate::histogram::IfaceHourView;
use crate::hours;
use crate::hours::SeriesView;
use crate::recovery;
use crate::sorting;
use crate::sorting::Ranked;
use crate::table;

verus! {

/// Whether saved samples are of the hour in the window, and in order of time.
pub open spec fn of_hour(
    hour_start_ts_ms: u64,
    points: Seq<CurrentHourPointState>,
    w: (u64, u64),
) -> bool {
    &&& hour_start_ts_ms == w.0
    &&& points.len() > 0
    &&& forall|i: int| 0 <= i < points.len() ==> w.0 <= (#[trigger] points[i]).ts_ms <= w.1
    &&& forall|i: int, j: int|
        0 <= i < j < points.len() ==> (#[trigger] points[i]).ts_ms <= (#[trigger] points[j]).ts_ms
}

/// Whether every open hour with samples is the one in the window, its samples in order of time.
pub open spec fn all_of_hour<A>(s: Seq<(A, (u64, Seq<HistoryPoint>))>, w: (u64, u64)) -> bool {
    forall|i: int|
        0 <= i < s.len() && (#[trigger] s[i]).1.1.len() > 0 ==> of_hour(
            s[i].1.0,
            hours::saved_points(s[i].1.1),
            w,
        )
}

/// Whether samples come strictly one after another.
pub open spec fn strict(points: Seq<HistoryPoint>) -> bool {
    forall|i: int, j: int|
        0 <= i < j < points.len() ==> (#[trigger] points[i]).ts_ms < (#[trigger] points[j]).ts_ms
}

/// Whether the samples of every open hour come strictly one after another.
pub open spec fn all_strict<A>(s: Seq<(A, (u64, Seq<HistoryPoint>))>) -> bool {
    forall|i: int| 0 <= i < s.len() ==> strict((#[trigger] s[i]).1.1)
}

/// Saved samples as they are read.
pub open spec fn reread(points: Seq<CurrentHourPointState>) -> Seq<HistoryPoint> {
    Seq::new(points.len(), |i: int| hours::hour_point(points[i].ts_ms, points[i].metrics))
}

/// Of saved samples in order, the first of each time.
pub open spec fn once(points: Seq<CurrentHourPointState>) -> Seq<CurrentHourPointState> {
    hours::saved_points(hours::first_of_each(reread(points)))
}

proof fn lemma_hour_restored(points: Seq<CurrentHourPointState>, w: (u64, u64))
    requires
        of_hour(w.0, points, w),
    ensures
        hours::normalized(w.0, points, w) == Some((w.0, hours::first_of_each(reread(points)))),
        hours::first_of_each(reread(points)).len() > 0,
{
    let q = reread(points);
    assert(hours::saved_points(q) =~= points);
    assert forall|i: int, j: int| 0 <= i < j < q.len() implies HistoryPoint::rank(
        #[trigger] q[i],
        #[trigger] q[j],
    ) <= 0 by {
        assert(points[i].ts_ms <= points[j].ts_ms);
    }
    assert forall|i: int| 0 <= i < q.len() implies w.0 <= (#[trigger] q[i]).ts_ms <= w.1
        && q[i].cumulative == counters::zero_quad() by {
        assert(w.0 <= points[i].ts_ms <= w.1);
    }
    hours::lemma_saved_hour_restored(q, w);
}

proof fn lemma_strict_once(points: Seq<HistoryPoint>)
    requires
        strict(points),
    ensures
        once(hours::saved_points(points)) == hours::saved_points(points),
{
    let s = hours::saved_points(points);
    let q = reread(s);
    assert forall|i: int, j: int| 0 <= i < j < q.len() implies (#[trigger] q[i]).ts_ms < (
    #[trigger] q[j]).ts_ms by {
        assert(points[i].ts_ms < points[j].ts_ms);
    }
    hours::lemma_first_of_strict(q);
    assert(hours::saved_points(q) =~= s);
}

/// Saved hours of interfaces, with one sample for each time.
pub open spec fn ifaces_once(items: Seq<IfaceHourView>) -> Seq<IfaceHourView> {
    Seq::new(items.len(), |i: int| IfaceHourView { points: once(items[i].points), ..items[i] })
}

/// The open hours of interfaces after saved ones have been restored one by one.
pub open spec fn ifaces_reopened(
    s: SeriesView<u32>,
    items: Seq<IfaceHourView>,
    w: (u64, u64),
) -> SeriesView<u32>
    decreases items.len(),
{
    if items.len() == 0 {
        s
    } else {
        let x = items.last();
        histogram::reopened(
            ifaces_reopened(s, items.drop_last(), w),
            x.ifindex,
            hours::normalized(x.hour_start_ts_ms, x.points, w),
        )
    }
}

proof fn lemma_ifaces_reopened(items: Seq<IfaceHourView>, w: (u64, u64))
    requires
        forall|i: int|
            0 <= i < items.len() ==> of_hour(
                (#[trigger] items[i]).hour_start_ts_ms,
                items[i].points,
                w,
            ),
        forall|i: int, j: int|
            0 <= i < j < items.len() ==> (#[trigger] items[i]).ifindex != (#[trigger] items[j]).ifindex,
    ensures
        ({
            let r = ifaces_reopened(histogram::no_hours().ifaces, items, w);
            &&& r.completed == Seq::<(u32, Seq<AggregatedBucket>)>::empty()
            &&& r.current.len() == items.len()
            &&& forall|i: int|
                0 <= i < items.len() ==> (#[trigger] r.current[i]).0 == items[i].ifindex
            &&& histogram::saved_ifaces(r.current) == ifaces_once(items)
        }),
    decreases items.len(),
{
    if items.len() == 0 {
        assert(ifaces_once(items) =~= Seq::<IfaceHourView>::empty());
    } else {
        let rest = items.drop_last();
        let x = items.last();
        assert forall|i: int| 0 <= i < rest.len() implies of_hour(
            (#[trigger] rest[i]).hour_start_ts_ms,
            rest[i].points,
            w,
        ) by {
            assert(of_hour(items[i].hour_start_ts_ms, items[i].points, w));
        }
        assert forall|i: int, j: int| 0 <= i < j < rest.len() implies (#[trigger] rest[i]).ifindex
            != (#[trigger] rest[j]).ifindex by {
            assert(items[i].ifindex != items[j].ifindex);
        }
        lemma_ifaces_reopened(rest, w);
        let before = ifaces_reopened(histogram::no_hours().ifaces, rest, w);
        let after = ifaces_reopened(histogram::no_hours().ifaces, items, w);
        let q = hours::first_of_each(reread(x.points));
        assert(of_hour(items[items.len() - 1].hour_start_ts_ms, x.points, w));
        lemma_hour_restored(x.points, w);
        let k = x.ifindex;
        if table::has_key(before.current, k) {
            let n = table::place_of(before.current, k);
            assert(table::is_place(before.current, k, n));
            assert(items[n].ifindex != items[items.len() - 1].ifindex);
        }
        assert(after.current == before.current.push((k, (w.0, q))));
        assert(after.current.drop_last() =~= before.current);
        assert(histogram::saved_ifaces(after.current) =~= ifaces_once(items));
    }
}

proof fn lemma_ifaces_exported(
    s: Seq<(u32, (u64, Seq<HistoryPoint>))>,
    w: (u64, u64),
)
    requires
        table::distinct(s),
        all_of_hour(s, w),
    ensures
        ({
            let items = sorting::sorted::<CurrentHourIfaceState>(histogram::saved_ifaces(s));
            let r = ifaces_reopened(histogram::no_hours().ifaces, items, w);
            &&& r.completed == Seq::<(u32, Seq<AggregatedBucket>)>::empty()
            &&& sorting::sorted::<CurrentHourIfaceState>(histogram::saved_ifaces(r.current)) == ifaces_once(items)
            &&& all_strict(s) ==> ifaces_once(items) == items
        }),
{
    let all = histogram::saved_ifaces(s);
    let items = sorting::sorted::<CurrentHourIfaceState>(all);
    sorting::lemma_sorted::<CurrentHourIfaceState>(all);
    assert forall|i: int| 0 <= i < items.len() implies ({
        let x = #[trigger] items[i];
        let found = table::lookup(s, x.ifindex);
        &&& found is Some
        &&& x == recovery::saved_iface(x.ifindex, found.unwrap())
        &&& of_hour(x.hour_start_ts_ms, x.points, w)
        &&& all_strict(s) ==> once(x.points) == x.points
    }) by {
        let x = items[i];
        assert(items.contains(x));
        sorting::lemma_sorted_members::<CurrentHourIfaceState>(all, x);
        recovery::lemma_saved_ifaces(s, x);
        let n = table::place_of(s, x.ifindex);
        assert(table::is_place(s, x.ifindex, n));
        assert(s[n].1.1.len() > 0);
        assert(x.points =~= hours::saved_points(s[n].1.1));
        if all_strict(s) {
            lemma_strict_once(s[n].1.1);
        }
    }
    assert forall|i: int, j: int| 0 <= i < j < items.len() implies (#[trigger] items[i]).ifindex
        != (#[trigger] items[j]).ifindex by {
        recovery::lemma_saved_ifaces(s, items[i]);
        sorting::lemma_sorted_members::<CurrentHourIfaceState>(all, items[i]);
        assert(items[i] != items[j]);
    }
    lemma_ifaces_reopened(items, w);
    let kept = ifaces_once(items);
    assert forall|i: int, j: int| 0 <= i < j < kept.len() implies CurrentHourIfaceState::rank(
        #[trigger] kept[i],
        #[trigger] kept[j],
    ) <= 0 by {
        assert(CurrentHourIfaceState::rank(items[i], items[j]) <= 0);
    }
    sorting::lemma_sorted_already::<CurrentHourIfaceState>(kept);
    if all_strict(s) {
        assert forall|i: int| 0 <= i < items.len() implies #[trigger] kept[i] == items[i] by {
            assert(once(items[i].points) == items[i].points);
        }
        assert(kept =~= items);
    }
}

/// Saved hours of devices, with one sample for each time.
pub open spec fn devices_once(items: Seq<DeviceHourView>) -> Seq<DeviceHourView> {
    Seq::new(items.len(), |i: int| DeviceHourView { points: once(items[i].points), ..items[i] })
}

/// The open hours of devices after saved ones have been restored one by one.
pub open spec fn devices_reopened(
    s: SeriesView<(u32, Seq<char>)>,
    items: Seq<DeviceHourView>,
    w: (u64, u64),
) -> SeriesView<(u32, Seq<char>)>
    decreases items.len(),
{
    if items.len() == 0 {
        s
    } else {
        let x = items.last();
        histogram::reopened(
            devices_reopened(s, items.drop_last(), w),
            (x.ifindex, x.mac),
            hours::normalized(x.hour_start_ts_ms, x.points, w),
        )
    }
}

proof fn lemma_devices_reopened(items: Seq<DeviceHourView>, w: (u64, u64))
    requires
        forall|i: int|
            0 <= i < items.len() ==> of_hour(
                (#[trigger] items[i]).hour_start_ts_ms,
                items[i].points,
                w,
            ),
        forall|i: int, j: int|
            0 <= i < j < items.len() ==> ((#[trigger] items[i]).ifindex, items[i].mac) != ((#[trigger] items[j]).ifindex, items[j].mac),
    ensures
        ({
            let r = devices_reopened(histogram::no_hours().devices, items, w);
            &&& r.completed == Seq::<((u32, Seq<char>), Seq<AggregatedBucket>)>::empty()
            &&& r.current.len() == items.len()
            &&& forall|i: int|
                0 <= i < items.len() ==> (#[trigger] r.current[i]).0 == (items[i].ifindex, items[i].mac)
            &&& histogram::saved_devices(r.current) == devices_once(items)
        }),
    decreases items.len(),
{
    if items.len() == 0 {
        assert(devices_once(items) =~= Seq::<DeviceHourView>::empty());
    } else {
        let rest = items.drop_last();
        let x = items.last();
        assert forall|i: int| 0 <= i < rest.len() implies of_hour(
            (#[trigger] rest[i]).hour_start_ts_ms,
            rest[i].points,
            w,
        ) by {
            assert(of_hour(items[i].hour_start_ts_ms, items[i].points, w));
        }
        assert forall|i: int, j: int| 0 <= i < j < rest.len() implies ((#[trigger] rest[i]).ifindex, rest[i].mac)
            != ((#[trigger] rest[j]).ifindex, rest[j].mac) by {
            assert((items[i].ifindex, items[i].mac) != (items[j].ifindex, items[j].mac));
        }
        lemma_devices_reopened(rest, w);
        let before = devices_reopened(histogram::no_hours().devices, rest, w);
        let after = devices_reopened(histogram::no_hours().devices, items, w);
        let q = hours::first_of_each(reread(x.points));
        assert(of_hour(items[items.len() - 1].hour_start_ts_ms, x.points, w));
        lemma_hour_restored(x.points, w);
        let k = (x.ifindex, x.mac);
        if table::has_key(before.current, k) {
            let n = table::place_of(before.current, k);
            assert(table::is_place(before.current, k, n));
            assert((items[n].ifindex, items[n].mac) != (items[items.len() - 1].ifindex, items[items.len() - 1].mac));
        }
        assert(after.current == before.current.push((k, (w.0, q))));
        assert(after.current.drop_last() =~= before.current);
        assert(histogram::saved_devices(after.current) =~= devices_once(items));
    }
}

proof fn lemma_devices_exported(
    s: Seq<((u32, Seq<char>), (u64, Seq<HistoryPoint>))>,
    w: (u64, u64),
)
    requires
        table::distinct(s),
        all_of_hour(s, w),
    ensures
        ({
            let items = sorting::sorted::<CurrentHourDeviceState>(histogram::saved_devices(s));
            let r = devices_reopened(histogram::no_hours().devices, items, w);
            &&& r.completed == Seq::<((u32, Seq<char>), Seq<AggregatedBucket>)>::empty()
            &&& sorting::sorted::<CurrentHourDeviceState>(histogram::saved_devices(r.current)) == devices_once(items)
            &&& all_strict(s) ==> devices_once(items) == items
        }),
{
    let all = histogram::saved_devices(s);
    let items = sorting::sorted::<CurrentHourDeviceState>(all);
    sorting::lemma_sorted::<CurrentHourDeviceState>(all);
    assert forall|i: int| 0 <= i < items.len() implies ({
        let x = #[trigger] items[i];
        let found = table::lookup(s, (x.ifindex, x.mac));
        &&& found is Some
        &&& x == recovery::saved_device((x.ifindex, x.mac), found.unwrap())
        &&& of_hour(x.hour_start_ts_ms, x.points, w)
        &&& all_strict(s) ==> once(x.points) == x.points
    }) by {
        let x = items[i];
        assert(items.contains(x));
        sorting::lemma_sorted_members::<CurrentHourDeviceState>(all, x);
        recovery::lemma_saved_devices(s, x);
        let n = table::place_of(s, (x.ifindex, x.mac));
        assert(table::is_place(s, (x.ifindex, x.mac), n));
        assert(s[n].1.1.len() > 0);
        assert(x.points =~= hours::saved_points(s[n].1.1));
        if all_strict(s) {
            lemma_strict_once(s[n].1.1);
        }
    }
    assert forall|i: int, j: int| 0 <= i < j < items.len() implies ((#[trigger] items[i]).ifindex, items[i].mac)
        != ((#[trigger] items[j]).ifindex, items[j].mac) by {
        recovery::lemma_saved_devices(s, items[i]);
        sorting::lemma_sorted_members::<CurrentHourDeviceState>(all, items[i]);
        assert(items[i] != items[j]);
    }
    lemma_devices_reopened(items, w);
    let kept = devices_once(items);
    assert forall|i: int, j: int| 0 <= i < j < kept.len() implies CurrentHourDeviceState::rank(
        #[trigger] kept[i],
        #[trigger] kept[j],
    ) <= 0 by {
        assert(CurrentHourDeviceState::rank(items[i], items[j]) <= 0);
    }
    sorting::lemma_sorted_already::<CurrentHourDeviceState>(kept);
    if all_strict(s) {
        assert forall|i: int| 0 <= i < items.len() implies #[trigger] kept[i] == items[i] by {
            assert(once(items[i].points) == items[i].points);
        }
        assert(kept =~= items);
    }
}

/// The histogram that begins without hours and has every exported open hour restored into it.
pub open spec fn restored(h: HistogramView, w: (u64, u64)) -> HistogramView {
    HistogramView {
        ifaces: ifaces_reopened(
            histogram::no_hours().ifaces,
            sorting::sorted::<CurrentHourIfaceState>(histogram::saved_ifaces(h.ifaces.current)),
            w,
        ),
        devices: devices_reopened(
            histogram::no_hours().devices,
            sorting::sorted::<CurrentHourDeviceState>(histogram::saved_devices(h.devices.current)),
            w,
        ),
    }
}

/// Open hours that are exported, and restored one by one into a histogram without hours within the
/// same hour, are exported again as they were but for one sample of each time, and nothing is closed.
/// This holds where the samples of every open hour lie in that hour and are in order of time. Where
/// no two are of the same time, the hours are exported again just as they were.
pub proof fn lemma_export_restored(h: HistogramView, w: (u64, u64))
    requires
        table::distinct(h.ifaces.current),
        table::distinct(h.devices.current),
        all_of_hour(h.ifaces.current, w),
        all_of_hour(h.devices.current, w),
    ensures
        ({
            let ifaces = sorting::sorted::<CurrentHourIfaceState>(
                histogram::saved_ifaces(h.ifaces.current),
            );
            let devices = sorting::sorted::<CurrentHourDeviceState>(
                histogram::saved_devices(h.devices.current),
            );
            let r = restored(h, w);
            &&& sorting::sorted::<CurrentHourIfaceState>(histogram::saved_ifaces(r.ifaces.current))
                == ifaces_once(ifaces)
            &&& sorting::sorted::<CurrentHourDeviceState>(
                histogram::saved_devices(r.devices.current),
            ) == devices_once(devices)
            &&& all_strict(h.ifaces.current) ==> ifaces_once(ifaces) == ifaces
            &&& all_strict(h.devices.current) ==> devices_once(devices) == devices
            &&& r.ifaces.completed == histogram::no_hours().ifaces.completed
            &&& r.devices.completed == histogram::no_hours().devices.completed
        }),
{
    lemma_ifaces_exported(h.ifaces.current, w);
    lemma_devices_exported(h.devices.current, w);
}

} // verus!
