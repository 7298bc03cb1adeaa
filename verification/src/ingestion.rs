//! What becomes of samples: how they join hours, close them, and add up to totals.

use vstd::prelude::*;

use crate::calendar;
use crate::calendar::Lookups;
use crate::counters;
use crate::counters::AggregatedBucket;
use crate::counters::CounterQuad;
use crate::counters::CurrentHourPointState;
use crate::counters::HistoryPoint;
use crate::figures;
use crate::histogram;
use crate::histogram::HistogramView;
use crate::hours;
use crate::hours::SeriesView;
use crate::lists;
use crate::mac;
use crate::snapshot::CompletedView;
use crate::snapshot::DeviceView;
use crate::snapshot::InterfaceView;
use crate::snapshot::SnapshotView;
use crate::sorting;
use crate::stats;
use crate::sums;
use crate::table;

verus! {

/// A sample of the hour that is open joins it behind the samples that it has, and nothing is closed.
pub proof fn lemma_sample_joins<A>(
    s: SeriesView<A>,
    k: A,
    ts_ms: u64,
    metrics: CounterQuad,
    cal: Lookups,
    open: (u64, Seq<HistoryPoint>),
)
    requires
        table::lookup(s.current, k) == Some(open),
        calendar::hour_at(cal, open.0).0 == calendar::hour_at(cal, ts_ms).0,
    ensures
        table::lookup(hours::ingested(s, k, ts_ms, metrics, cal).current, k) == Some(
            (
                open.0,
                open.1.push(
                    HistoryPoint { ts_ms, metrics, cumulative: counters::zero_quad() },
                ),
            ),
        ),
        hours::ingested(s, k, ts_ms, metrics, cal).completed == s.completed,
        hours::closed_by(s, k, ts_ms, metrics, cal) is None,
{
    let p = hours::hour_point(ts_ms, metrics);
    table::lemma_lookup_assigned(s.current, k, (open.0, open.1.push(p)), k);
}

/// A sample of another hour closes the open one into the bucket of its samples and its window. The
/// bucket comes behind the closed hours that there are, of which the oldest is dropped where there is
/// a leap year of them already, and the sample alone begins the next hour.
pub proof fn lemma_sample_closes<A>(
    s: SeriesView<A>,
    k: A,
    ts_ms: u64,
    metrics: CounterQuad,
    cal: Lookups,
    open: (u64, Seq<HistoryPoint>),
)
    requires
        table::lookup(s.current, k) == Some(open),
        calendar::hour_at(cal, open.0).0 != calendar::hour_at(cal, ts_ms).0,
    ensures
        ({
            let from = calendar::hour_at(cal, open.0).0;
            let b = counters::points_bucket(from, calendar::hour_at(cal, from).1, open.1);
            let was = table::lookup_or(s.completed, k, Seq::empty());
            let now = table::lookup_or(
                hours::ingested(s, k, ts_ms, metrics, cal).completed,
                k,
                Seq::empty(),
            );
            &&& hours::closed_by(s, k, ts_ms, metrics, cal) == Some(b)
            &&& table::lookup(hours::ingested(s, k, ts_ms, metrics, cal).current, k) == Some(
                (
                    calendar::hour_at(cal, ts_ms).0,
                    seq![HistoryPoint { ts_ms, metrics, cumulative: counters::zero_quad() }],
                ),
            )
            &&& was.len() < 8784 ==> now == was.push(b)
            &&& was.len() == 8784 ==> now == was.drop_first().push(b)
        }),
{
    let p = hours::hour_point(ts_ms, metrics);
    let from = calendar::hour_at(cal, open.0).0;
    let b = counters::points_bucket(from, calendar::hour_at(cal, from).1, open.1);
    let was = table::lookup_or(s.completed, k, Seq::empty());
    table::lemma_lookup_assigned(
        s.current,
        k,
        (calendar::hour_at(cal, ts_ms).0, seq![p]),
        k,
    );
    lemma_ring(s, k, b);
    assert(hours::ingested(s, k, ts_ms, metrics, cal).completed == hours::closed(s, k, b).completed);
}

/// A series that begins with a sample has an open hour with that sample, which it counts twice.
pub proof fn lemma_sample_begins<A>(
    s: SeriesView<A>,
    k: A,
    ts_ms: u64,
    metrics: CounterQuad,
    cal: Lookups,
)
    requires
        table::lookup(s.current, k) is None,
        calendar::hour_at(cal, calendar::hour_at(cal, ts_ms).0).0 == calendar::hour_at(
            cal,
            ts_ms,
        ).0,
    ensures
        ({
            let p = HistoryPoint { ts_ms, metrics, cumulative: counters::zero_quad() };
            &&& table::lookup(hours::ingested(s, k, ts_ms, metrics, cal).current, k) == Some(
                (calendar::hour_at(cal, ts_ms).0, seq![p, p]),
            )
            &&& hours::ingested(s, k, ts_ms, metrics, cal).completed == s.completed
            &&& hours::closed_by(s, k, ts_ms, metrics, cal) is None
        }),
{
    let p = hours::hour_point(ts_ms, metrics);
    let from = calendar::hour_at(cal, ts_ms).0;
    assert(seq![p].push(p) =~= seq![p, p]);
    table::lemma_lookup_assigned(s.current, k, (from, seq![p].push(p)), k);
}

proof fn lemma_ring<A>(s: SeriesView<A>, k: A, b: AggregatedBucket)
    ensures
        ({
            let was = table::lookup_or(s.completed, k, Seq::empty());
            let now = table::lookup_or(hours::closed(s, k, b).completed, k, Seq::empty());
            &&& was.len() < 8784 ==> now == was.push(b)
            &&& was.len() == 8784 ==> now == was.drop_first().push(b)
        }),
{
    let was = table::lookup_or(s.completed, k, Seq::empty());
    let q = lists::kept_last(was.push(b), hours::HISTOGRAM_MAX_HOURS as nat);
    table::lemma_lookup_assigned(s.completed, k, q, k);
    if was.len() == 8784 {
        assert(q =~= was.drop_first().push(b));
    }
}

/// A bucket that is put back comes behind the closed hours that there are, of which the oldest is
/// dropped where there is a leap year of them already. The open hours, and those of other series, stay
/// as they are.
pub proof fn lemma_bucket_put_back<A>(s: SeriesView<A>, k: A, b: AggregatedBucket, other: A)
    ensures
        ({
            let was = table::lookup_or(s.completed, k, Seq::empty());
            let now = table::lookup_or(hours::closed(s, k, b).completed, k, Seq::empty());
            &&& was.len() < 8784 ==> now == was.push(b)
            &&& was.len() == 8784 ==> now == was.drop_first().push(b)
        }),
        hours::closed(s, k, b).current == s.current,
        other != k ==> table::lookup(hours::closed(s, k, b).completed, other) == table::lookup(
            s.completed,
            other,
        ),
{
    lemma_ring(s, k, b);
    hours::lemma_closed_lookup(s, k, b, other);
}

/// Two series hold the same under a key.
spec fn alike<A>(s: SeriesView<A>, t: SeriesView<A>, k: A) -> bool {
    &&& table::lookup(s.current, k) == table::lookup(t.current, k)
    &&& table::lookup(s.completed, k) == table::lookup(t.completed, k)
}

proof fn lemma_ingest_alike<A>(
    s: SeriesView<A>,
    t: SeriesView<A>,
    k: A,
    ts_ms: u64,
    metrics: CounterQuad,
    cal: Lookups,
)
    requires
        alike(s, t, k),
    ensures
        alike(hours::ingested(s, k, ts_ms, metrics, cal), hours::ingested(t, k, ts_ms, metrics, cal), k),
        hours::closed_by(s, k, ts_ms, metrics, cal) == hours::closed_by(t, k, ts_ms, metrics, cal),
{
    let p = hours::hour_point(ts_ms, metrics);
    let open = hours::open_hour(s, k, ts_ms, metrics, cal);
    match hours::closed_by(s, k, ts_ms, metrics, cal) {
        None => {
            table::lemma_lookup_assigned(s.current, k, (open.0, open.1.push(p)), k);
            table::lemma_lookup_assigned(t.current, k, (open.0, open.1.push(p)), k);
        },
        Some(b) => {
            let v = (calendar::hour_at(cal, ts_ms).0, seq![p]);
            table::lemma_lookup_assigned(s.current, k, v, k);
            table::lemma_lookup_assigned(t.current, k, v, k);
            let q = lists::kept_last(
                table::lookup_or(s.completed, k, Seq::empty()).push(b),
                hours::HISTOGRAM_MAX_HOURS as nat,
            );
            table::lemma_lookup_assigned(s.completed, k, q, k);
            table::lemma_lookup_assigned(t.completed, k, q, k);
        },
    }
}

proof fn lemma_ifaces_untouched(
    s: SeriesView<u32>,
    items: Seq<InterfaceView>,
    ts_ms: u64,
    cal: Lookups,
    k: u32,
)
    requires
        forall|j: int| 0 <= j < items.len() ==> (#[trigger] items[j]).ifindex != k,
    ensures
        alike(histogram::ifaces_ingested(s, items, ts_ms, cal), s, k),
    decreases items.len(),
{
    if items.len() > 0 {
        let h = items.drop_last();
        assert forall|j: int| 0 <= j < h.len() implies (#[trigger] h[j]).ifindex != k by {
            assert(items[j].ifindex != k);
        }
        lemma_ifaces_untouched(s, h, ts_ms, cal, k);
        assert(items[items.len() - 1].ifindex != k);
        hours::lemma_ingest_leaves_others(
            histogram::ifaces_ingested(s, h, ts_ms, cal),
            items.last().ifindex,
            ts_ms,
            items.last().metrics,
            cal,
            k,
        );
    }
}

proof fn lemma_iface_ingested(
    s: SeriesView<u32>,
    items: Seq<InterfaceView>,
    ts_ms: u64,
    cal: Lookups,
    i: int,
)
    requires
        0 <= i < items.len(),
        forall|j: int|
            0 <= j < items.len() && j != i ==> (#[trigger] items[j]).ifindex != items[i].ifindex,
    ensures
        alike(
            histogram::ifaces_ingested(s, items, ts_ms, cal),
            hours::ingested(s, items[i].ifindex, ts_ms, items[i].metrics, cal),
            items[i].ifindex,
        ),
    decreases items.len(),
{
    let h = items.drop_last();
    let k = items[i].ifindex;
    if i < h.len() {
        assert forall|j: int| 0 <= j < h.len() && j != i implies (#[trigger] h[j]).ifindex
            != h[i].ifindex by {
            assert(items[j].ifindex != items[i].ifindex);
        }
        lemma_iface_ingested(s, h, ts_ms, cal, i);
        assert(items[items.len() - 1].ifindex != k);
        hours::lemma_ingest_leaves_others(
            histogram::ifaces_ingested(s, h, ts_ms, cal),
            items.last().ifindex,
            ts_ms,
            items.last().metrics,
            cal,
            k,
        );
    } else {
        assert forall|j: int| 0 <= j < h.len() implies (#[trigger] h[j]).ifindex != k by {
            assert(items[j].ifindex != items[i].ifindex);
        }
        lemma_ifaces_untouched(s, h, ts_ms, cal, k);
        lemma_ingest_alike(
            histogram::ifaces_ingested(s, h, ts_ms, cal),
            s,
            k,
            ts_ms,
            items[i].metrics,
            cal,
        );
    }
}

proof fn lemma_devices_untouched(
    s: SeriesView<(u32, Seq<char>)>,
    items: Seq<DeviceView>,
    ts_ms: u64,
    cal: Lookups,
    k: (u32, Seq<char>),
)
    requires
        forall|j: int| 0 <= j < items.len() ==> ((#[trigger] items[j]).ifindex, items[j].mac) != k,
    ensures
        alike(histogram::devices_ingested(s, items, ts_ms, cal), s, k),
    decreases items.len(),
{
    if items.len() > 0 {
        let h = items.drop_last();
        let d = items[items.len() - 1];
        assert forall|j: int| 0 <= j < h.len() implies ((#[trigger] h[j]).ifindex, h[j].mac) != k by {
            assert((items[j].ifindex, items[j].mac) != k);
        }
        lemma_devices_untouched(s, h, ts_ms, cal, k);
        assert((d.ifindex, d.mac) != k);
        hours::lemma_ingest_leaves_others(
            histogram::devices_ingested(s, h, ts_ms, cal),
            (d.ifindex, d.mac),
            ts_ms,
            d.metrics,
            cal,
            k,
        );
    }
}

proof fn lemma_device_ingested(
    s: SeriesView<(u32, Seq<char>)>,
    items: Seq<DeviceView>,
    ts_ms: u64,
    cal: Lookups,
    i: int,
)
    requires
        0 <= i < items.len(),
        forall|j: int|
            0 <= j < items.len() && j != i ==> ((#[trigger] items[j]).ifindex, items[j].mac) != (
                items[i].ifindex,
                items[i].mac,
            ),
    ensures
        alike(
            histogram::devices_ingested(s, items, ts_ms, cal),
            hours::ingested(
                s,
                (items[i].ifindex, items[i].mac),
                ts_ms,
                items[i].metrics,
                cal,
            ),
            (items[i].ifindex, items[i].mac),
        ),
    decreases items.len(),
{
    let h = items.drop_last();
    let d = items[items.len() - 1];
    let k = (items[i].ifindex, items[i].mac);
    if i < h.len() {
        assert forall|j: int| 0 <= j < h.len() && j != i implies (
            (#[trigger] h[j]).ifindex,
            h[j].mac,
        ) != (h[i].ifindex, h[i].mac) by {
            assert((items[j].ifindex, items[j].mac) != k);
        }
        lemma_device_ingested(s, h, ts_ms, cal, i);
        assert((d.ifindex, d.mac) != k);
        hours::lemma_ingest_leaves_others(
            histogram::devices_ingested(s, h, ts_ms, cal),
            (d.ifindex, d.mac),
            ts_ms,
            d.metrics,
            cal,
            k,
        );
    } else {
        assert forall|j: int| 0 <= j < h.len() implies ((#[trigger] h[j]).ifindex, h[j].mac) != k by {
            assert((items[j].ifindex, items[j].mac) != k);
        }
        lemma_devices_untouched(s, h, ts_ms, cal, k);
        lemma_ingest_alike(
            histogram::devices_ingested(s, h, ts_ms, cal),
            s,
            k,
            ts_ms,
            items[i].metrics,
            cal,
        );
    }
}

/// A snapshot is taken in by taking in, for each interface that stands in it once, a sample of the
/// time of the snapshot with the metrics that it shows. An interface that does not stand in it keeps
/// its hours.
pub proof fn lemma_snapshot_ifaces(h: HistogramView, s: SnapshotView, cal: Lookups, k: u32)
    ensures
        ({
            let now = histogram::snapshot_ingested(h, s, cal).ifaces;
            &&& (forall|j: int|
                0 <= j < s.interfaces.len() ==> (#[trigger] s.interfaces[j]).ifindex != k)
                ==> table::lookup(now.current, k) == table::lookup(h.ifaces.current, k)
                && table::lookup(now.completed, k) == table::lookup(h.ifaces.completed, k)
            &&& forall|i: int|
                0 <= i < s.interfaces.len() && (#[trigger] s.interfaces[i]).ifindex == k && (forall|
                    j: int,
                |
                    0 <= j < s.interfaces.len() && j != i ==> (#[trigger] s.interfaces[j]).ifindex
                        != k) ==> {
                    let one = hours::ingested(
                        h.ifaces,
                        k,
                        s.timestamp_ms,
                        s.interfaces[i].metrics,
                        cal,
                    );
                    &&& table::lookup(now.current, k) == table::lookup(one.current, k)
                    &&& table::lookup(now.completed, k) == table::lookup(one.completed, k)
                }
        }),
{
    let now = histogram::snapshot_ingested(h, s, cal).ifaces;
    if forall|j: int| 0 <= j < s.interfaces.len() ==> (#[trigger] s.interfaces[j]).ifindex != k {
        lemma_ifaces_untouched(h.ifaces, s.interfaces, s.timestamp_ms, cal, k);
    }
    assert forall|i: int|
        0 <= i < s.interfaces.len() && (#[trigger] s.interfaces[i]).ifindex == k && (forall|j: int|
            0 <= j < s.interfaces.len() && j != i ==> (#[trigger] s.interfaces[j]).ifindex
                != k) implies ({
        let one = hours::ingested(h.ifaces, k, s.timestamp_ms, s.interfaces[i].metrics, cal);
        &&& table::lookup(now.current, k) == table::lookup(one.current, k)
        &&& table::lookup(now.completed, k) == table::lookup(one.completed, k)
    }) by {
        lemma_iface_ingested(h.ifaces, s.interfaces, s.timestamp_ms, cal, i);
    }
}

/// A snapshot is taken in by taking in, for each device that stands in it once, a sample of the time
/// of the snapshot with the metrics that it shows. A device that does not stand in it keeps its hours.
pub proof fn lemma_snapshot_devices(
    h: HistogramView,
    s: SnapshotView,
    cal: Lookups,
    k: (u32, Seq<char>),
)
    ensures
        ({
            let now = histogram::snapshot_ingested(h, s, cal).devices;
            &&& (forall|j: int|
                0 <= j < s.devices.len() ==> ((#[trigger] s.devices[j]).ifindex, s.devices[j].mac)
                    != k) ==> table::lookup(now.current, k) == table::lookup(h.devices.current, k)
                && table::lookup(now.completed, k) == table::lookup(h.devices.completed, k)
            &&& forall|i: int|
                0 <= i < s.devices.len() && (
                    (#[trigger] s.devices[i]).ifindex,
                    s.devices[i].mac,
                ) == k && (forall|j: int|
                    0 <= j < s.devices.len() && j != i ==> (
                        (#[trigger] s.devices[j]).ifindex,
                        s.devices[j].mac,
                    ) != k) ==> {
                    let one = hours::ingested(
                        h.devices,
                        k,
                        s.timestamp_ms,
                        s.devices[i].metrics,
                        cal,
                    );
                    &&& table::lookup(now.current, k) == table::lookup(one.current, k)
                    &&& table::lookup(now.completed, k) == table::lookup(one.completed, k)
                }
        }),
{
    let now = histogram::snapshot_ingested(h, s, cal).devices;
    if forall|j: int|
        0 <= j < s.devices.len() ==> ((#[trigger] s.devices[j]).ifindex, s.devices[j].mac) != k {
        lemma_devices_untouched(h.devices, s.devices, s.timestamp_ms, cal, k);
    }
    assert forall|i: int|
        0 <= i < s.devices.len() && ((#[trigger] s.devices[i]).ifindex, s.devices[i].mac) == k && (
        forall|j: int|
            0 <= j < s.devices.len() && j != i ==> (
                (#[trigger] s.devices[j]).ifindex,
                s.devices[j].mac,
            ) != k) implies ({
        let one = hours::ingested(h.devices, k, s.timestamp_ms, s.devices[i].metrics, cal);
        &&& table::lookup(now.current, k) == table::lookup(one.current, k)
        &&& table::lookup(now.completed, k) == table::lookup(one.completed, k)
    }) by {
        lemma_device_ingested(h.devices, s.devices, s.timestamp_ms, cal, i);
    }
}

/// A snapshot that shows each interface and each device once closes the hours that their samples
/// close: those of interfaces under the names that they are shown with, then those of devices under
/// the names of their interfaces and their addresses.
pub proof fn lemma_snapshot_closes(h: HistogramView, s: SnapshotView, cal: Lookups)
    requires
        forall|i: int, j: int|
            0 <= i < j < s.interfaces.len() ==> (#[trigger] s.interfaces[i]).ifindex != (
            #[trigger] s.interfaces[j]).ifindex,
        forall|i: int, j: int|
            0 <= i < j < s.devices.len() ==> (
                (#[trigger] s.devices[i]).ifindex,
                s.devices[i].mac,
            ) != ((#[trigger] s.devices[j]).ifindex, s.devices[j].mac),
    ensures
        histogram::snapshot_closed(h, s, cal) == lists::flat(
            s.interfaces,
            |x: InterfaceView|
                match hours::closed_by(h.ifaces, x.ifindex, s.timestamp_ms, x.metrics, cal) {
                    Some(bucket) => seq![CompletedView::Iface { iface: x.ifname, bucket }],
                    None => Seq::empty(),
                },
        ) + lists::flat(
            s.devices,
            |d: DeviceView|
                match hours::closed_by(
                    h.devices,
                    (d.ifindex, d.mac),
                    s.timestamp_ms,
                    d.metrics,
                    cal,
                ) {
                    Some(bucket) => seq![
                        CompletedView::Device { iface: d.logical_iface, mac: d.mac, bucket },
                    ],
                    None => Seq::empty(),
                },
        ),
{
    lemma_ifaces_close(h.ifaces, s.interfaces, s.timestamp_ms, cal);
    lemma_devices_close(h.devices, s.devices, s.timestamp_ms, cal);
}

proof fn lemma_ifaces_close(
    s: SeriesView<u32>,
    items: Seq<InterfaceView>,
    ts_ms: u64,
    cal: Lookups,
)
    requires
        forall|i: int, j: int|
            0 <= i < j < items.len() ==> (#[trigger] items[i]).ifindex != (
            #[trigger] items[j]).ifindex,
    ensures
        histogram::ifaces_closed(s, items, ts_ms, cal) == lists::flat(
            items,
            |x: InterfaceView|
                match hours::closed_by(s, x.ifindex, ts_ms, x.metrics, cal) {
                    Some(bucket) => seq![CompletedView::Iface { iface: x.ifname, bucket }],
                    None => Seq::empty(),
                },
        ),
    decreases items.len(),
{
    if items.len() > 0 {
        let h = items.drop_last();
        let x = items[items.len() - 1];
        assert forall|i: int, j: int| 0 <= i < j < h.len() implies (#[trigger] h[i]).ifindex != (
        #[trigger] h[j]).ifindex by {
            assert(items[i].ifindex != items[j].ifindex);
        }
        lemma_ifaces_close(s, h, ts_ms, cal);
        assert forall|j: int| 0 <= j < h.len() implies (#[trigger] h[j]).ifindex != x.ifindex by {
            assert(items[j].ifindex != items[items.len() - 1].ifindex);
        }
        lemma_ifaces_untouched(s, h, ts_ms, cal, x.ifindex);
        lemma_ingest_alike(
            histogram::ifaces_ingested(s, h, ts_ms, cal),
            s,
            x.ifindex,
            ts_ms,
            x.metrics,
            cal,
        );
        let rest = histogram::ifaces_closed(s, h, ts_ms, cal);
        match hours::closed_by(s, x.ifindex, ts_ms, x.metrics, cal) {
            Some(bucket) => {
                let b = CompletedView::Iface { iface: x.ifname, bucket };
                assert(rest.push(b) =~= rest + seq![b]);
            },
            None => {
                assert(rest =~= rest + Seq::<CompletedView>::empty());
            },
        }
    }
}

proof fn lemma_devices_close(
    s: SeriesView<(u32, Seq<char>)>,
    items: Seq<DeviceView>,
    ts_ms: u64,
    cal: Lookups,
)
    requires
        forall|i: int, j: int|
            0 <= i < j < items.len() ==> ((#[trigger] items[i]).ifindex, items[i].mac) != (
                (#[trigger] items[j]).ifindex,
                items[j].mac,
            ),
    ensures
        histogram::devices_closed(s, items, ts_ms, cal) == lists::flat(
            items,
            |d: DeviceView|
                match hours::closed_by(s, (d.ifindex, d.mac), ts_ms, d.metrics, cal) {
                    Some(bucket) => seq![
                        CompletedView::Device { iface: d.logical_iface, mac: d.mac, bucket },
                    ],
                    None => Seq::empty(),
                },
        ),
    decreases items.len(),
{
    if items.len() > 0 {
        let h = items.drop_last();
        let x = items[items.len() - 1];
        let k = (x.ifindex, x.mac);
        assert forall|i: int, j: int| 0 <= i < j < h.len() implies (
            (#[trigger] h[i]).ifindex,
            h[i].mac,
        ) != ((#[trigger] h[j]).ifindex, h[j].mac) by {
            assert((items[i].ifindex, items[i].mac) != (items[j].ifindex, items[j].mac));
        }
        lemma_devices_close(s, h, ts_ms, cal);
        assert forall|j: int| 0 <= j < h.len() implies ((#[trigger] h[j]).ifindex, h[j].mac) != k by {
            assert((items[j].ifindex, items[j].mac) != (
                items[items.len() - 1].ifindex,
                items[items.len() - 1].mac,
            ));
        }
        lemma_devices_untouched(s, h, ts_ms, cal, k);
        lemma_ingest_alike(
            histogram::devices_ingested(s, h, ts_ms, cal),
            s,
            k,
            ts_ms,
            x.metrics,
            cal,
        );
        let rest = histogram::devices_closed(s, h, ts_ms, cal);
        match hours::closed_by(s, k, ts_ms, x.metrics, cal) {
            Some(bucket) => {
                let b = CompletedView::Device { iface: x.logical_iface, mac: x.mac, bucket };
                assert(rest.push(b) =~= rest + seq![b]);
            },
            None => {
                assert(rest =~= rest + Seq::<CompletedView>::empty());
            },
        }
    }
}

/// A query of a series finds, in order of their beginning, exactly those of its closed hours that have
/// a moment in common with the times asked for, and the bucket of the samples of its open hour where
/// there are any and that hour has one.
pub proof fn lemma_hours_found<A>(
    s: SeriesView<A>,
    k: A,
    from_ms: u64,
    to_ms: u64,
    cal: Lookups,
)
    ensures
        ({
            let found = hours::hourly(s, k, from_ms, to_ms, cal);
            let done = lists::picked(
                table::lookup_or(s.completed, k, Seq::empty()),
                |b: AggregatedBucket| b.start_ts_ms <= to_ms && from_ms <= b.end_ts_ms,
            );
            &&& forall|i: int, j: int|
                0 <= i < j < found.len() ==> (#[trigger] found[i]).start_ts_ms <= (
                #[trigger] found[j]).start_ts_ms
            &&& found.to_multiset() == (match table::lookup(s.current, k) {
                Some((from, points)) => if points.len() > 0 && calendar::hour_at(cal, from).0
                    <= to_ms && from_ms <= calendar::hour_at(cal, from).1 {
                    done.push(
                        counters::points_bucket(
                            calendar::hour_at(cal, from).0,
                            calendar::hour_at(cal, calendar::hour_at(cal, from).0).1,
                            points,
                        ),
                    ).to_multiset()
                } else {
                    done.to_multiset()
                },
                None => done.to_multiset(),
            })
        }),
{
    let all = hours::hours_between(s, k, from_ms, to_ms, cal);
    let found = hours::hourly(s, k, from_ms, to_ms, cal);
    let p = |b: AggregatedBucket| b.start_ts_ms <= to_ms && from_ms <= b.end_ts_ms;
    assert(hours::overlap_test(from_ms, to_ms) =~= p);
    sorting::lemma_sorted::<AggregatedBucket>(all);
    assert forall|i: int, j: int| 0 <= i < j < found.len() implies (
    #[trigger] found[i]).start_ts_ms <= (#[trigger] found[j]).start_ts_ms by {
        assert(<AggregatedBucket as sorting::Ranked>::rank(found[i], found[j]) <= 0);
    }
}

/// Of saved samples those of the window are kept, one of each time and in order of time. Each that is
/// kept has the time and the metrics of the first saved sample of its time.
pub proof fn lemma_cleaned_samples(
    points: Seq<CurrentHourPointState>,
    from_ms: u64,
    to_ms: u64,
    i: int,
)
    requires
        0 <= i < hours::cleaned(points, (from_ms, to_ms)).len(),
    ensures
        ({
            let x = hours::cleaned(points, (from_ms, to_ms))[i];
            &&& from_ms <= x.ts_ms <= to_ms
            &&& x.cumulative == counters::zero_quad()
            &&& i > 0 ==> hours::cleaned(points, (from_ms, to_ms))[i - 1].ts_ms < x.ts_ms
            &&& exists|n: int|
                0 <= n < points.len() && (#[trigger] points[n]).ts_ms == x.ts_ms
                    && points[n].metrics == x.metrics && (forall|m: int|
                    0 <= m < n ==> (#[trigger] points[m]).ts_ms != x.ts_ms)
        }),
{
    let w = (from_ms, to_ms);
    let s = hours::points_within(points, w);
    let t = sorting::sorted::<HistoryPoint>(s);
    let c = hours::cleaned(points, w);
    let x = c[i];
    hours::lemma_cleaned(points, w);
    sorting::lemma_sorted::<HistoryPoint>(s);
    if i > 0 {
        assert(c[i - 1].ts_ms < c[i].ts_ms);
    }
    let test = |y: CurrentHourPointState| y.ts_ms == x.ts_ms;
    lemma_first_picked(t, i);
    sorting::lemma_sorted_members::<HistoryPoint>(s, x);
    lemma_same_time_in_order(s, x);
    lemma_within_picked(points, w, x.ts_ms);
    let q = lists::picked(points, test);
    assert(q.len() > 0);
    let n = lemma_first_place(points, test);
    assert(points[n] == q[0]);
    assert forall|m: int| 0 <= m < n implies (#[trigger] points[m]).ts_ms != x.ts_ms by {
        assert(!test(points[m]));
    }
}

proof fn lemma_first_place<T>(s: Seq<T>, p: spec_fn(T) -> bool) -> (n: int)
    requires
        lists::picked(s, p).len() > 0,
    ensures
        0 <= n < s.len(),
        p(s[n]),
        s[n] == lists::picked(s, p)[0],
        forall|m: int| 0 <= m < n ==> !p(#[trigger] s[m]),
    decreases s.len(),
{
    let h = s.drop_last();
    if lists::picked(h, p).len() > 0 {
        let n = lemma_first_place(h, p);
        assert forall|m: int| 0 <= m < n implies !p(#[trigger] s[m]) by {
            assert(!p(h[m]));
        }
        n
    } else {
        assert forall|m: int| 0 <= m < s.len() - 1 implies !p(#[trigger] s[m]) by {
            if p(s[m]) {
                assert(h[m] == s[m]);
                lists::lemma_picked_complete(h, p, m);
            }
        }
        s.len() - 1
    }
}

proof fn lemma_within_picked(points: Seq<CurrentHourPointState>, w: (u64, u64), ts_ms: u64)
    requires
        w.0 <= ts_ms <= w.1,
    ensures
        ({
            let a = lists::picked(
                hours::points_within(points, w),
                |y: HistoryPoint| y.ts_ms == ts_ms,
            );
            let b = lists::picked(points, |y: CurrentHourPointState| y.ts_ms == ts_ms);
            &&& a.len() == b.len()
            &&& forall|n: int|
                0 <= n < a.len() ==> (#[trigger] a[n]).metrics == b[n].metrics && a[n].cumulative
                    == counters::zero_quad()
        }),
    decreases points.len(),
{
    if points.len() > 0 {
        let h = points.drop_last();
        lemma_within_picked(h, w, ts_ms);
        let rest = hours::points_within(h, w);
        let y = points.last();
        lists::lemma_picked_push(
            rest,
            hours::hour_point(y.ts_ms, y.metrics),
            |y: HistoryPoint| y.ts_ms == ts_ms,
        );
        lists::lemma_picked_push(h, y, |y: CurrentHourPointState| y.ts_ms == ts_ms);
        assert(h.push(y) =~= points);
    }
}

/// Among samples in order, the one that is kept of a time is the first of that time.
proof fn lemma_first_picked(t: Seq<HistoryPoint>, i: int)
    requires
        sorting::in_order::<HistoryPoint>(t),
        0 <= i < hours::first_of_each(t).len(),
    ensures
        ({
            let x = hours::first_of_each(t)[i];
            let q = lists::picked(t, |y: HistoryPoint| y.ts_ms == x.ts_ms);
            &&& q.len() > 0
            &&& q[0] == x
            &&& t.contains(x)
        }),
    decreases t.len(),
{
    let x = hours::first_of_each(t)[i];
    let p = |y: HistoryPoint| y.ts_ms == x.ts_ms;
    let h = t.drop_last();
    assert forall|a: int, b: int| 0 <= a < b < h.len() implies <HistoryPoint as sorting::Ranked>::rank(
        #[trigger] h[a],
        #[trigger] h[b],
    ) <= 0 by {
        assert(<HistoryPoint as sorting::Ranked>::rank(t[a], t[b]) <= 0);
    }
    assert(h.push(t.last()) =~= t);
    lists::lemma_picked_push(h, t.last(), p);
    let rest = hours::first_of_each(h);
    if i < rest.len() {
        lemma_first_picked(h, i);
        assert(rest[i] == x);
        let n = choose|n: int| 0 <= n < h.len() && h[n] == x;
        assert(t[n] == x);
    } else {
        assert(x == t.last());
        assert(t[t.len() - 1] == x);
        assert forall|n: int| 0 <= n < h.len() implies !p(#[trigger] h[n]) by {
            if p(h[n]) {
                lemma_time_kept(h, n);
            }
        }
        lists::lemma_picked_none(h, p);
    }
}

/// In order, the last time that is kept is that of the last sample.
proof fn lemma_time_kept(t: Seq<HistoryPoint>, n: int)
    requires
        sorting::in_order::<HistoryPoint>(t),
        0 <= n < t.len(),
    ensures
        hours::first_of_each(t).len() > 0,
        hours::first_of_each(t).last().ts_ms == t.last().ts_ms,
        t[n].ts_ms <= t.last().ts_ms,
    decreases t.len(),
{
    let h = t.drop_last();
    if n < t.len() - 1 {
        assert(<HistoryPoint as sorting::Ranked>::rank(t[n], t[t.len() - 1]) <= 0);
    }
}

/// Putting samples in order keeps those of one time in the order in which they came.
proof fn lemma_same_time_in_order(s: Seq<HistoryPoint>, x: HistoryPoint)
    ensures
        ({
            let p = |y: HistoryPoint| y.ts_ms == x.ts_ms;
            lists::picked(sorting::sorted::<HistoryPoint>(s), p) == lists::picked(s, p)
        }),
{
    let p = |y: HistoryPoint| y.ts_ms == x.ts_ms;
    let q = lists::picked(s, p);
    lists::lemma_picked_sorted::<HistoryPoint>(s, p);
    assert forall|a: int, b: int| 0 <= a < b < q.len() implies <HistoryPoint as sorting::Ranked>::rank(
        #[trigger] q[a],
        #[trigger] q[b],
    ) <= 0 by {
        lists::lemma_picked_member(s, p, a);
        lists::lemma_picked_member(s, p, b);
    }
    sorting::lemma_sorted_already::<HistoryPoint>(q);
}

/// The bytes of some samples have no rates, and for each of the four counters the bytes of that
/// counter added up.
pub proof fn lemma_hour_bytes(points: Seq<HistoryPoint>)
    ensures
        histogram::hour_bytes(points).up_v4_bytes == stats::capped(
            stats::total(lists::numbers(points, |p: HistoryPoint| p.metrics.up_v4_bytes)),
        ),
        histogram::hour_bytes(points).up_v4_bps == 0,
        histogram::hour_bytes(points).down_v4_bytes == stats::capped(
            stats::total(lists::numbers(points, |p: HistoryPoint| p.metrics.down_v4_bytes)),
        ),
        histogram::hour_bytes(points).down_v4_bps == 0,
        histogram::hour_bytes(points).up_v6_bytes == stats::capped(
            stats::total(lists::numbers(points, |p: HistoryPoint| p.metrics.up_v6_bytes)),
        ),
        histogram::hour_bytes(points).up_v6_bps == 0,
        histogram::hour_bytes(points).down_v6_bytes == stats::capped(
            stats::total(lists::numbers(points, |p: HistoryPoint| p.metrics.down_v6_bytes)),
        ),
        histogram::hour_bytes(points).down_v6_bps == 0,
{
    assert(counters::up_v4_bytes_of(counters::metrics_of(points)) =~= lists::numbers(
        points,
        |p: HistoryPoint| p.metrics.up_v4_bytes,
    ));
    assert(counters::down_v4_bytes_of(counters::metrics_of(points)) =~= lists::numbers(
        points,
        |p: HistoryPoint| p.metrics.down_v4_bytes,
    ));
    assert(counters::up_v6_bytes_of(counters::metrics_of(points)) =~= lists::numbers(
        points,
        |p: HistoryPoint| p.metrics.up_v6_bytes,
    ));
    assert(counters::down_v6_bytes_of(counters::metrics_of(points)) =~= lists::numbers(
        points,
        |p: HistoryPoint| p.metrics.down_v6_bytes,
    ));
}

/// The total of an interface has no rates, and for each of the four counters the bytes of that counter
/// in its closed hours and in the samples of its open hour. There is one exactly where it has closed
/// hours, or an open hour with samples.
pub proof fn lemma_iface_total_bytes(h: HistogramView, ifindex: u32)
    requires
        table::distinct(h.ifaces.completed),
        table::distinct(h.ifaces.current),
    ensures
        ({
            let totals = histogram::with_open_ifaces(
                histogram::closed_iface_totals(h.ifaces.completed),
                h.ifaces.current,
            );
            let ring = table::lookup_or(h.ifaces.completed, ifindex, Seq::empty());
            let open = table::lookup_or(h.ifaces.current, ifindex, (0, Seq::empty()));
            let q = totals[ifindex];
            totals.contains_key(ifindex) == (table::has_key(h.ifaces.completed, ifindex)
                || open.1.len() > 0) && (totals.contains_key(ifindex) ==> {
            &&& q.up_v4_bytes == stats::capped(
                stats::total(lists::numbers(ring, |b: AggregatedBucket| b.up_v4_bytes))
                    + stats::total(lists::numbers(open.1, |p: HistoryPoint| p.metrics.up_v4_bytes)),
            )
            &&& q.up_v4_bps == 0
            &&& q.down_v4_bytes == stats::capped(
                stats::total(lists::numbers(ring, |b: AggregatedBucket| b.down_v4_bytes))
                    + stats::total(lists::numbers(open.1, |p: HistoryPoint| p.metrics.down_v4_bytes)),
            )
            &&& q.down_v4_bps == 0
            &&& q.up_v6_bytes == stats::capped(
                stats::total(lists::numbers(ring, |b: AggregatedBucket| b.up_v6_bytes))
                    + stats::total(lists::numbers(open.1, |p: HistoryPoint| p.metrics.up_v6_bytes)),
            )
            &&& q.up_v6_bps == 0
            &&& q.down_v6_bytes == stats::capped(
                stats::total(lists::numbers(ring, |b: AggregatedBucket| b.down_v6_bytes))
                    + stats::total(lists::numbers(open.1, |p: HistoryPoint| p.metrics.down_v6_bytes)),
            )
            &&& q.down_v6_bps == 0
            })
        }),
{
    let totals = histogram::with_open_ifaces(
        histogram::closed_iface_totals(h.ifaces.completed),
        h.ifaces.current,
    );
    let ring = table::lookup_or(h.ifaces.completed, ifindex, Seq::empty());
    let open = table::lookup_or(h.ifaces.current, ifindex, (0, Seq::empty()));
    sums::lemma_iface_total(h, ifindex);
    figures::lemma_bytes_added(ring);
    lemma_hour_bytes(open.1);
    assert(totals.get(ifindex) == (if totals.contains_key(ifindex) {
        Some(totals[ifindex])
    } else {
        None
    }));
}

/// Whether no other key than this one, in closed or in open hours, is the device with an address.
pub open spec fn only_mac_key(
    s: SeriesView<(u32, Seq<char>)>,
    id: (u32, Seq<u8>),
    key: (u32, Seq<char>),
) -> bool {
    &&& key.0 == id.0
    &&& mac::mac_of(key.1) == Some(id.1)
    &&& forall|i: int|
        0 <= i < s.completed.len() && (#[trigger] s.completed[i]).0.0 == id.0 && mac::mac_of(
            s.completed[i].0.1,
        ) == Some(id.1) ==> s.completed[i].0 == key
    &&& forall|i: int|
        0 <= i < s.current.len() && (#[trigger] s.current[i]).0.0 == id.0 && mac::mac_of(
            s.current[i].0.1,
        ) == Some(id.1) ==> s.current[i].0 == key
}

proof fn lemma_closed_device_totals(
    s: Seq<((u32, Seq<char>), Seq<AggregatedBucket>)>,
    id: (u32, Seq<u8>),
    key: (u32, Seq<char>),
)
    requires
        table::distinct(s),
        key.0 == id.0,
        mac::mac_of(key.1) == Some(id.1),
        forall|i: int|
            0 <= i < s.len() && (#[trigger] s[i]).0.0 == id.0 && mac::mac_of(s[i].0.1) == Some(
                id.1,
            ) ==> s[i].0 == key,
    ensures
        table::lookup(histogram::closed_device_totals(s), id) == (match table::lookup(s, key) {
            Some(q) => Some(counters::quad_total(counters::bytes_of(q))),
            None => None,
        }),
    decreases s.len(),
{
    if s.len() > 0 {
        let h = s.drop_last();
        assert forall|i: int|
            0 <= i < h.len() && (#[trigger] h[i]).0.0 == id.0 && mac::mac_of(h[i].0.1) == Some(
                id.1,
            ) implies h[i].0 == key by {
            assert(s[i].0 == h[i].0);
        }
        lemma_closed_device_totals(h, id, key);
        table::lemma_lookup_last(s, key);
        let e = s[s.len() - 1];
        let rest = histogram::closed_device_totals(h);
        if let Some(m) = mac::mac_of(e.0.1) {
            table::lemma_lookup_assigned(
                rest,
                (e.0.0, m),
                counters::quad_total(counters::bytes_of(e.1)),
                id,
            );
        }
    } else {
        assert(!table::has_key(s, key));
        assert(!table::has_key(histogram::closed_device_totals(s), id));
    }
}

proof fn lemma_open_device_totals(
    totals: Seq<((u32, Seq<u8>), CounterQuad)>,
    s: Seq<((u32, Seq<char>), (u64, Seq<HistoryPoint>))>,
    id: (u32, Seq<u8>),
    key: (u32, Seq<char>),
)
    requires
        table::distinct(s),
        key.0 == id.0,
        mac::mac_of(key.1) == Some(id.1),
        forall|i: int|
            0 <= i < s.len() && (#[trigger] s[i]).0.0 == id.0 && mac::mac_of(s[i].0.1) == Some(
                id.1,
            ) ==> s[i].0 == key,
    ensures
        table::lookup(histogram::with_open_devices(totals, s), id) == (match table::lookup(s, key) {
            Some(open) => if open.1.len() > 0 {
                Some(
                    counters::quad_sum(
                        table::lookup_or(totals, id, counters::zero_quad()),
                        histogram::hour_bytes(open.1),
                    ),
                )
            } else {
                table::lookup(totals, id)
            },
            None => table::lookup(totals, id),
        }),
    decreases s.len(),
{
    if s.len() > 0 {
        let h = s.drop_last();
        assert forall|i: int|
            0 <= i < h.len() && (#[trigger] h[i]).0.0 == id.0 && mac::mac_of(h[i].0.1) == Some(
                id.1,
            ) implies h[i].0 == key by {
            assert(s[i].0 == h[i].0);
        }
        lemma_open_device_totals(totals, h, id, key);
        table::lemma_lookup_last(s, key);
        let e = s[s.len() - 1];
        let rest = histogram::with_open_devices(totals, h);
        if let Some(m) = mac::mac_of(e.0.1) {
            table::lemma_lookup_assigned(
                rest,
                (e.0.0, m),
                counters::quad_sum(
                    table::lookup_or(rest, (e.0.0, m), counters::zero_quad()),
                    histogram::hour_bytes(e.1.1),
                ),
                id,
            );
        }
        if e.0 == key && table::has_key(h, key) {
            let p = table::place_of(h, key);
            assert(table::is_place(h, key, p));
            assert(s[p].0 != s[s.len() - 1].0);
        }
    } else {
        assert(!table::has_key(s, key));
    }
}

/// The total of a device has no rates, and for each of the four counters the bytes of that counter in
/// its closed hours and in the samples of its open hour. There is one exactly where it has closed
/// hours, or an open hour with samples.
pub proof fn lemma_device_total_bytes(
    h: HistogramView,
    id: (u32, Seq<u8>),
    key: (u32, Seq<char>),
)
    requires
        table::distinct(h.devices.completed),
        table::distinct(h.devices.current),
        only_mac_key(h.devices, id, key),
    ensures
        ({
            let totals = histogram::with_open_devices(
                histogram::closed_device_totals(h.devices.completed),
                h.devices.current,
            );
            let ring = table::lookup_or(h.devices.completed, key, Seq::empty());
            let open = table::lookup_or(h.devices.current, key, (0, Seq::empty()));
            let q = table::lookup_or(totals, id, counters::zero_quad());
            &&& table::has_key(totals, id) == (table::has_key(h.devices.completed, key)
                || open.1.len() > 0)
            &&& q.up_v4_bytes == stats::capped(
                stats::total(lists::numbers(ring, |b: AggregatedBucket| b.up_v4_bytes))
                    + stats::total(lists::numbers(open.1, |p: HistoryPoint| p.metrics.up_v4_bytes)),
            )
            &&& q.up_v4_bps == 0
            &&& q.down_v4_bytes == stats::capped(
                stats::total(lists::numbers(ring, |b: AggregatedBucket| b.down_v4_bytes))
                    + stats::total(lists::numbers(open.1, |p: HistoryPoint| p.metrics.down_v4_bytes)),
            )
            &&& q.down_v4_bps == 0
            &&& q.up_v6_bytes == stats::capped(
                stats::total(lists::numbers(ring, |b: AggregatedBucket| b.up_v6_bytes))
                    + stats::total(lists::numbers(open.1, |p: HistoryPoint| p.metrics.up_v6_bytes)),
            )
            &&& q.up_v6_bps == 0
            &&& q.down_v6_bytes == stats::capped(
                stats::total(lists::numbers(ring, |b: AggregatedBucket| b.down_v6_bytes))
                    + stats::total(lists::numbers(open.1, |p: HistoryPoint| p.metrics.down_v6_bytes)),
            )
            &&& q.down_v6_bps == 0
        }),
{
    let totals = histogram::closed_device_totals(h.devices.completed);
    let ring = table::lookup_or(h.devices.completed, key, Seq::empty());
    let open = table::lookup_or(h.devices.current, key, (0, Seq::empty()));
    lemma_closed_device_totals(h.devices.completed, id, key);
    lemma_open_device_totals(totals, h.devices.current, id, key);
    figures::lemma_bytes_added(ring);
    lemma_hour_bytes(open.1);
}

/// Every saved sample of the window has its time among those that are kept.
pub proof fn lemma_cleaned_times(
    points: Seq<CurrentHourPointState>,
    from_ms: u64,
    to_ms: u64,
    n: int,
)
    requires
        0 <= n < points.len(),
        from_ms <= points[n].ts_ms <= to_ms,
    ensures
        exists|i: int|
            0 <= i < hours::cleaned(points, (from_ms, to_ms)).len() && (#[trigger] hours::cleaned(
                points,
                (from_ms, to_ms),
            )[i]).ts_ms == points[n].ts_ms,
{
    let w = (from_ms, to_ms);
    let s = hours::points_within(points, w);
    let t = sorting::sorted::<HistoryPoint>(s);
    let x = points[n];
    lemma_within_picked(points, w, x.ts_ms);
    lists::lemma_picked_complete(points, |y: CurrentHourPointState| y.ts_ms == x.ts_ms, n);
    let a = lists::picked(s, |y: HistoryPoint| y.ts_ms == x.ts_ms);
    assert(a.len() > 0);
    lists::lemma_picked_member(s, |y: HistoryPoint| y.ts_ms == x.ts_ms, 0);
    sorting::lemma_sorted_members::<HistoryPoint>(s, a[0]);
    let m = choose|m: int| 0 <= m < t.len() && t[m] == a[0];
    lemma_each_time_kept(t, m);
    let i = choose|i: int|
        0 <= i < hours::first_of_each(t).len() && (#[trigger] hours::first_of_each(t)[i]).ts_ms
            == t[m].ts_ms;
    assert(hours::cleaned(points, w)[i].ts_ms == x.ts_ms);
}

proof fn lemma_each_time_kept(t: Seq<HistoryPoint>, n: int)
    requires
        0 <= n < t.len(),
    ensures
        exists|i: int|
            0 <= i < hours::first_of_each(t).len() && (#[trigger] hours::first_of_each(t)[i]).ts_ms
                == t[n].ts_ms,
    decreases t.len(),
{
    let h = t.drop_last();
    let rest = hours::first_of_each(h);
    let all = hours::first_of_each(t);
    if n < h.len() {
        lemma_each_time_kept(h, n);
        let i = choose|i: int| 0 <= i < rest.len() && (#[trigger] rest[i]).ts_ms == h[n].ts_ms;
        assert(all[i].ts_ms == t[n].ts_ms);
    } else {
        assert(all[all.len() - 1].ts_ms == t[n].ts_ms);
    }
}

} // verus!
