//! What is left of the open and closed hours after they have been saved and read again.

use vstd::prelude::*;

use crate::calendar;
use crate::calendar::Lookups;
use crate::counters::AggregatedBucket;
use crate::counters::CurrentHourPointState;
use crate::counters::HistoryPoint;
use crate::histogram;
use crate::histogram::CurrentHourDeviceState;
use crate::histogram::CurrentHourIfaceState;
use crate::histogram::DeviceHourView;
use crate::histogram::HistogramView;
use crate::histogram::IfaceHourView;
use crate::hours;
use crate::hours::SeriesView;
use crate::lists;
use crate::mac;
use crate::persistence;
use crate::persistence::Action;
use crate::persistence::BucketRowView;
use crate::persistence::PlannedView;
use crate::persistence::PointRowView;
use crate::persistence::SeriesId;
use crate::sorting;
use crate::table;
use crate::text;
use crate::topology;
use crate::topology::IfaceInfo;

verus! {

/// The samples of one series and hour in some rows.
pub open spec fn samples_under(rows: Seq<PointRowView>, key: SeriesId) -> Seq<
    CurrentHourPointState,
>
    decreases rows.len(),
{
    if rows.len() == 0 {
        Seq::empty()
    } else {
        let rest = samples_under(rows.drop_last(), key);
        if rows.last().key == key {
            rest.push(rows.last().point)
        } else {
            rest
        }
    }
}

/// Gathering rows puts the samples of each series and hour together, in the order of the rows.
pub proof fn lemma_gathered(rows: Seq<PointRowView>, key: SeriesId)
    ensures
        table::distinct(persistence::gathered_rows(rows)),
        table::lookup(persistence::gathered_rows(rows), key) == (if samples_under(rows, key).len()
            > 0 {
            Some(samples_under(rows, key))
        } else {
            None
        }),
    decreases rows.len(),
{
    if rows.len() == 0 {
        assert(!table::has_key(persistence::gathered_rows(rows), key));
    } else {
        let rest = persistence::gathered_rows(rows.drop_last());
        let r = rows.last();
        lemma_gathered(rows.drop_last(), key);
        lemma_gathered(rows.drop_last(), r.key);
        let v = table::lookup_or(rest, r.key, Seq::empty()).push(r.point);
        assert(table::lookup_or(rest, r.key, Seq::empty()) =~= samples_under(
            rows.drop_last(),
            r.key,
        ));
        table::lemma_assigned_distinct(rest, r.key, v);
        table::lemma_lookup_assigned(rest, r.key, v, key);
    }
}

proof fn lemma_samples_add(a: Seq<PointRowView>, b: Seq<PointRowView>, key: SeriesId)
    ensures
        samples_under(a + b, key) == samples_under(a, key) + samples_under(b, key),
    decreases b.len(),
{
    if b.len() == 0 {
        assert(a + b =~= a);
        assert(samples_under(a, key) + samples_under(b, key) =~= samples_under(a, key));
    } else {
        lemma_samples_add(a, b.drop_last(), key);
        assert((a + b).drop_last() =~= a + b.drop_last());
        assert(samples_under(a + b, key) =~= samples_under(a, key) + samples_under(b, key));
    }
}

proof fn lemma_samples_of_one(k: SeriesId, points: Seq<CurrentHourPointState>, key: SeriesId)
    ensures
        samples_under(persistence::rows_of(k, points), key) == (if k == key {
            points
        } else {
            Seq::empty()
        }),
    decreases points.len(),
{
    let rows = persistence::rows_of(k, points);
    if points.len() > 0 {
        lemma_samples_of_one(k, points.drop_last(), key);
        assert(rows.drop_last() =~= persistence::rows_of(k, points.drop_last()));
        assert(points.drop_last().push(points.last()) =~= points);
    } else {
        assert(points =~= Seq::<CurrentHourPointState>::empty());
    }
}

/// The rows of some series, one series after another.
pub open spec fn all_rows(s: Seq<(SeriesId, Seq<CurrentHourPointState>)>) -> Seq<PointRowView>
    decreases s.len(),
{
    if s.len() == 0 {
        Seq::empty()
    } else {
        all_rows(s.drop_last()) + persistence::rows_of(s.last().0, s.last().1)
    }
}

proof fn lemma_samples_of_all(s: Seq<(SeriesId, Seq<CurrentHourPointState>)>, key: SeriesId)
    requires
        table::distinct(s),
    ensures
        samples_under(all_rows(s), key) == table::lookup_or(s, key, Seq::empty()),
    decreases s.len(),
{
    if s.len() == 0 {
        assert(!table::has_key(s, key));
    } else {
        table::lemma_lookup_last(s, key);
        lemma_samples_of_all(s.drop_last(), key);
        let rest = all_rows(s.drop_last());
        let (k, points) = s.last();
        lemma_samples_add(rest, persistence::rows_of(k, points), key);
        lemma_samples_of_one(k, points, key);
        assert(samples_under(all_rows(s), key) =~= table::lookup_or(s, key, Seq::empty()));
    }
}

/// The rows in which the open hours of a histogram are saved.
pub open spec fn saved_rows(h: HistogramView, t: Seq<IfaceInfo>) -> Seq<PointRowView> {
    persistence::iface_rows(
        sorting::sorted::<CurrentHourIfaceState>(histogram::saved_ifaces(h.ifaces.current)),
        t,
    ) + persistence::device_rows(
        sorting::sorted::<CurrentHourDeviceState>(histogram::saved_devices(h.devices.current)),
        t,
    )
}

/// Whose rows the open hour of an interface is saved in.
pub open spec fn iface_key(x: IfaceHourView, name: Seq<char>) -> SeriesId {
    SeriesId {
        series_type: "iface"@,
        logical_iface: name,
        mac: ""@,
        hour_start_ts_ms: x.hour_start_ts_ms,
    }
}

/// Whose rows the open hour of a device is saved in.
pub open spec fn device_key(x: DeviceHourView, name: Seq<char>) -> SeriesId {
    SeriesId {
        series_type: "device"@,
        logical_iface: name,
        mac: x.mac,
        hour_start_ts_ms: x.hour_start_ts_ms,
    }
}

/// Whether an index has a name in the topology, and the name leads back to it.
pub open spec fn names_back(t: Seq<IfaceInfo>, ifindex: u32) -> bool {
    match topology::with_index(t, ifindex) {
        Some(x) => topology::index_named(t, x.name) == Some(ifindex),
        None => false,
    }
}

spec fn name_at(t: Seq<IfaceInfo>, ifindex: u32) -> Seq<char> {
    topology::with_index(t, ifindex).unwrap().name
}

spec fn iface_entries(items: Seq<IfaceHourView>, t: Seq<IfaceInfo>) -> Seq<
    (SeriesId, Seq<CurrentHourPointState>),
> {
    Seq::new(
        items.len(),
        |i: int| (iface_key(items[i], name_at(t, items[i].ifindex)), items[i].points),
    )
}

spec fn device_entries(items: Seq<DeviceHourView>, t: Seq<IfaceInfo>) -> Seq<
    (SeriesId, Seq<CurrentHourPointState>),
> {
    Seq::new(
        items.len(),
        |i: int| (device_key(items[i], name_at(t, items[i].ifindex)), items[i].points),
    )
}

proof fn lemma_iface_rows(items: Seq<IfaceHourView>, t: Seq<IfaceInfo>)
    requires
        forall|i: int| 0 <= i < items.len() ==> names_back(t, (#[trigger] items[i]).ifindex),
    ensures
        persistence::iface_rows(items, t) == all_rows(iface_entries(items, t)),
    decreases items.len(),
{
    let s = iface_entries(items, t);
    if items.len() > 0 {
        let h = items.drop_last();
        assert forall|i: int| 0 <= i < h.len() implies names_back(t, (#[trigger] h[i]).ifindex) by {
            assert(names_back(t, items[i].ifindex));
        }
        lemma_iface_rows(h, t);
        assert(s.drop_last() =~= iface_entries(h, t));
        assert(names_back(t, items[items.len() - 1].ifindex));
    }
}

proof fn lemma_device_rows(items: Seq<DeviceHourView>, t: Seq<IfaceInfo>)
    requires
        forall|i: int| 0 <= i < items.len() ==> names_back(t, (#[trigger] items[i]).ifindex),
    ensures
        persistence::device_rows(items, t) == all_rows(device_entries(items, t)),
    decreases items.len(),
{
    let s = device_entries(items, t);
    if items.len() > 0 {
        let h = items.drop_last();
        assert forall|i: int| 0 <= i < h.len() implies names_back(t, (#[trigger] h[i]).ifindex) by {
            assert(names_back(t, items[i].ifindex));
        }
        lemma_device_rows(h, t);
        assert(s.drop_last() =~= device_entries(h, t));
        assert(names_back(t, items[items.len() - 1].ifindex));
    }
}

proof fn lemma_all_rows_add(
    a: Seq<(SeriesId, Seq<CurrentHourPointState>)>,
    b: Seq<(SeriesId, Seq<CurrentHourPointState>)>,
)
    ensures
        all_rows(a + b) == all_rows(a) + all_rows(b),
    decreases b.len(),
{
    if b.len() == 0 {
        assert(a + b =~= a);
        assert(all_rows(a) + all_rows(b) =~= all_rows(a));
    } else {
        lemma_all_rows_add(a, b.drop_last());
        assert((a + b).drop_last() =~= a + b.drop_last());
        assert(all_rows(a + b) =~= all_rows(a) + all_rows(b));
    }
}

/// The open hour of an interface, as it is saved.
pub open spec fn saved_iface(ifindex: u32, open: (u64, Seq<HistoryPoint>)) -> IfaceHourView {
    IfaceHourView {
        ifindex,
        hour_start_ts_ms: open.0,
        points: hours::saved_points(open.1),
    }
}

/// The open hour of a device, as it is saved.
pub open spec fn saved_device(
    k: (u32, Seq<char>),
    open: (u64, Seq<HistoryPoint>),
) -> DeviceHourView {
    DeviceHourView {
        ifindex: k.0,
        mac: k.1,
        hour_start_ts_ms: open.0,
        points: hours::saved_points(open.1),
    }
}

/// The open hour of an interface is saved once, where it holds samples.
pub proof fn lemma_saved_ifaces(s: Seq<(u32, (u64, Seq<HistoryPoint>))>, x: IfaceHourView)
    requires
        table::distinct(s),
    ensures
        histogram::saved_ifaces(s).contains(x) <==> (match table::lookup(s, x.ifindex) {
            Some(open) => open.1.len() > 0 && x == saved_iface(x.ifindex, open),
            None => false,
        }),
        histogram::saved_ifaces(s).no_duplicates(),
    decreases s.len(),
{
    let all = histogram::saved_ifaces(s);
    if s.len() == 0 {
        assert(!table::has_key(s, x.ifindex));
    } else {
        let e = s.last();
        let rest = histogram::saved_ifaces(s.drop_last());
        table::lemma_lookup_last(s, x.ifindex);
        lemma_saved_ifaces(s.drop_last(), x);
        if e.1.1.len() > 0 {
            let y = saved_iface(e.0, e.1);
            assert(all == rest.push(y));
            table::lemma_lookup_last(s, e.0);
            lemma_saved_ifaces(s.drop_last(), y);
            assert(all.contains(x) <==> rest.contains(x) || x == y) by {
                if rest.contains(x) {
                    let i = choose|i: int| 0 <= i < rest.len() && rest[i] == x;
                    assert(all[i] == x);
                }
                assert(all[rest.len() as int] == y);
            }
            assert forall|i: int, j: int| 0 <= i < j < all.len() implies all[i] != all[j] by {
                if j == rest.len() {
                    assert(rest.contains(all[i]));
                }
            }
        }
    }
}

/// The open hour of a device is saved once, where it holds samples.
pub proof fn lemma_saved_devices(
    s: Seq<((u32, Seq<char>), (u64, Seq<HistoryPoint>))>,
    x: DeviceHourView,
)
    requires
        table::distinct(s),
    ensures
        histogram::saved_devices(s).contains(x) <==> (match table::lookup(s, (x.ifindex, x.mac)) {
            Some(open) => open.1.len() > 0 && x == saved_device((x.ifindex, x.mac), open),
            None => false,
        }),
        histogram::saved_devices(s).no_duplicates(),
    decreases s.len(),
{
    let all = histogram::saved_devices(s);
    if s.len() == 0 {
        assert(!table::has_key(s, (x.ifindex, x.mac)));
    } else {
        let e = s.last();
        let rest = histogram::saved_devices(s.drop_last());
        table::lemma_lookup_last(s, (x.ifindex, x.mac));
        lemma_saved_devices(s.drop_last(), x);
        if e.1.1.len() > 0 {
            let y = saved_device(e.0, e.1);
            assert(all == rest.push(y));
            table::lemma_lookup_last(s, e.0);
            lemma_saved_devices(s.drop_last(), y);
            assert(all.contains(x) <==> rest.contains(x) || x == y) by {
                if rest.contains(x) {
                    let i = choose|i: int| 0 <= i < rest.len() && rest[i] == x;
                    assert(all[i] == x);
                }
                assert(all[rest.len() as int] == y);
            }
            assert forall|i: int, j: int| 0 <= i < j < all.len() implies all[i] != all[j] by {
                if j == rest.len() {
                    assert(rest.contains(all[i]));
                }
            }
        }
    }
}

/// Whether the interface of every open hour that holds samples has a name that leads back to it.
pub open spec fn all_named(h: HistogramView, t: Seq<IfaceInfo>) -> bool {
    &&& forall|i: int|
        0 <= i < h.ifaces.current.len() && (#[trigger] h.ifaces.current[i]).1.1.len() > 0
            ==> names_back(t, h.ifaces.current[i].0)
    &&& forall|i: int|
        0 <= i < h.devices.current.len() && (#[trigger] h.devices.current[i]).1.1.len() > 0
            ==> names_back(t, h.devices.current[i].0.0)
}

spec fn sorted_ifaces(h: HistogramView) -> Seq<IfaceHourView> {
    sorting::sorted::<CurrentHourIfaceState>(histogram::saved_ifaces(h.ifaces.current))
}

spec fn sorted_devices(h: HistogramView) -> Seq<DeviceHourView> {
    sorting::sorted::<CurrentHourDeviceState>(histogram::saved_devices(h.devices.current))
}

spec fn entries(h: HistogramView, t: Seq<IfaceInfo>) -> Seq<
    (SeriesId, Seq<CurrentHourPointState>),
> {
    iface_entries(sorted_ifaces(h), t) + device_entries(sorted_devices(h), t)
}

proof fn lemma_iface_item(h: HistogramView, t: Seq<IfaceInfo>, i: int)
    requires
        table::distinct(h.ifaces.current),
        all_named(h, t),
        0 <= i < sorted_ifaces(h).len(),
    ensures
        ({
            let x = sorted_ifaces(h)[i];
            &&& names_back(t, x.ifindex)
            &&& table::lookup(h.ifaces.current, x.ifindex) is Some
            &&& table::lookup(h.ifaces.current, x.ifindex).unwrap().1.len() > 0
            &&& x == saved_iface(x.ifindex, table::lookup(h.ifaces.current, x.ifindex).unwrap())
        }),
        sorted_ifaces(h).no_duplicates(),
{
    let s = h.ifaces.current;
    let x = sorted_ifaces(h)[i];
    lemma_saved_ifaces(s, x);
    sorting::lemma_sorted_members::<CurrentHourIfaceState>(histogram::saved_ifaces(s), x);
    assert(sorted_ifaces(h).contains(x));
    let n = table::place_of(s, x.ifindex);
    assert(table::is_place(s, x.ifindex, n));
    assert(s[n].1.1.len() > 0);
}

proof fn lemma_device_item(h: HistogramView, t: Seq<IfaceInfo>, i: int)
    requires
        table::distinct(h.devices.current),
        all_named(h, t),
        0 <= i < sorted_devices(h).len(),
    ensures
        ({
            let x = sorted_devices(h)[i];
            let k = (x.ifindex, x.mac);
            &&& names_back(t, x.ifindex)
            &&& table::lookup(h.devices.current, k) is Some
            &&& table::lookup(h.devices.current, k).unwrap().1.len() > 0
            &&& x == saved_device(k, table::lookup(h.devices.current, k).unwrap())
        }),
        sorted_devices(h).no_duplicates(),
{
    let s = h.devices.current;
    let x = sorted_devices(h)[i];
    let k = (x.ifindex, x.mac);
    lemma_saved_devices(s, x);
    sorting::lemma_sorted_members::<CurrentHourDeviceState>(histogram::saved_devices(s), x);
    assert(sorted_devices(h).contains(x));
    let n = table::place_of(s, k);
    assert(table::is_place(s, k, n));
    assert(s[n].1.1.len() > 0);
}

proof fn lemma_entries(h: HistogramView, t: Seq<IfaceInfo>)
    requires
        table::distinct(h.ifaces.current),
        table::distinct(h.devices.current),
        all_named(h, t),
    ensures
        saved_rows(h, t) == all_rows(entries(h, t)),
        table::distinct(entries(h, t)),
{
    let a = sorted_ifaces(h);
    let b = sorted_devices(h);
    assert forall|i: int| 0 <= i < a.len() implies names_back(t, (#[trigger] a[i]).ifindex) by {
        lemma_iface_item(h, t, i);
    }
    assert forall|i: int| 0 <= i < b.len() implies names_back(t, (#[trigger] b[i]).ifindex) by {
        lemma_device_item(h, t, i);
    }
    lemma_iface_rows(a, t);
    lemma_device_rows(b, t);
    lemma_all_rows_add(iface_entries(a, t), device_entries(b, t));
    let s = entries(h, t);
    assert forall|i: int, j: int| 0 <= i < j < s.len() implies (#[trigger] s[i]).0 != (
    #[trigger] s[j]).0 by {
        reveal_strlit("iface");
        reveal_strlit("device");
        if j < a.len() {
            lemma_iface_item(h, t, i);
            lemma_iface_item(h, t, j);
            assert(a[i] != a[j]);
            if s[i].0 == s[j].0 {
                assert(name_at(t, a[i].ifindex) == name_at(t, a[j].ifindex));
                assert(a[i].ifindex == a[j].ifindex);
            }
        } else if i >= a.len() {
            let m = i - a.len();
            let n = j - a.len();
            lemma_device_item(h, t, m);
            lemma_device_item(h, t, n);
            assert(b[m] != b[n]);
            if s[i].0 == s[j].0 {
                assert(name_at(t, b[m].ifindex) == name_at(t, b[n].ifindex));
                assert(b[m].ifindex == b[n].ifindex);
            }
        } else {
            assert(s[i].0.series_type == "iface"@);
            assert(s[j].0.series_type == "device"@);
            assert(s[i].0.series_type.len() != s[j].0.series_type.len());
        }
    }
}

/// The histogram after saved hours have been dealt with, one after another.
pub open spec fn recovered_all(
    h: HistogramView,
    plan: Seq<PlannedView>,
    w: (u64, u64),
) -> HistogramView
    decreases plan.len(),
{
    if plan.len() == 0 {
        h
    } else {
        persistence::recovered(recovered_all(h, plan.drop_last(), w), plan.last(), w)
    }
}

/// The histogram after the rows of saved hours have been read, where the calendar gives the hours.
pub open spec fn recovered_from(
    h: HistogramView,
    rows: Seq<PointRowView>,
    t: Seq<IfaceInfo>,
    now_ms: u64,
    cal: Lookups,
) -> HistogramView {
    recovered_all(
        h,
        persistence::planned(persistence::gathered_rows(rows), t, now_ms, cal),
        calendar::hour_at(cal, now_ms),
    )
}

spec fn iface_test(t: Seq<IfaceInfo>, k: u32) -> spec_fn(SeriesId) -> bool {
    |key: SeriesId|
        key.series_type == "iface"@ && topology::index_named(t, key.logical_iface) == Some(k)
}

spec fn device_test(t: Seq<IfaceInfo>, k: (u32, Seq<char>)) -> spec_fn(SeriesId) -> bool {
    |key: SeriesId|
        key.series_type != "iface"@ && topology::index_named(t, key.logical_iface) == Some(k.0)
            && key.mac == k.1
}

/// The open hour that the last usable one of the saved hours that meet `p` goes on with.
spec fn outcome(
    s: Seq<(SeriesId, Seq<CurrentHourPointState>)>,
    p: spec_fn(SeriesId) -> bool,
    w: (u64, u64),
    before: Option<(u64, Seq<HistoryPoint>)>,
) -> Option<(u64, Seq<HistoryPoint>)>
    decreases s.len(),
{
    if s.len() == 0 {
        before
    } else {
        let (key, points) = s.last();
        match hours::normalized(key.hour_start_ts_ms, points, w) {
            Some(open) => if p(key) {
                Some(open)
            } else {
                outcome(s.drop_last(), p, w, before)
            },
            None => outcome(s.drop_last(), p, w, before),
        }
    }
}

proof fn lemma_outcome(
    h: HistogramView,
    s: Seq<(SeriesId, Seq<CurrentHourPointState>)>,
    t: Seq<IfaceInfo>,
    now_ms: u64,
    cal: Lookups,
    i: u32,
    d: (u32, Seq<char>),
)
    ensures
        ({
            let w = calendar::hour_at(cal, now_ms);
            let after = recovered_all(h, persistence::planned(s, t, now_ms, cal), w);
            &&& table::lookup(after.ifaces.current, i) == outcome(
                s,
                iface_test(t, i),
                w,
                table::lookup(h.ifaces.current, i),
            )
            &&& table::lookup(after.devices.current, d) == outcome(
                s,
                device_test(t, d),
                w,
                table::lookup(h.devices.current, d),
            )
        }),
    decreases s.len(),
{
    if s.len() > 0 {
        let w = calendar::hour_at(cal, now_ms);
        let (key, points) = s.last();
        let plan = persistence::planned(s.drop_last(), t, now_ms, cal);
        let before = recovered_all(h, plan, w);
        lemma_outcome(h, s.drop_last(), t, now_ms, cal, i, d);
        if let Some(ifindex) = topology::index_named(t, key.logical_iface) {
            let p = persistence::planned(s, t, now_ms, cal).last();
            assert(persistence::planned(s, t, now_ms, cal).drop_last() =~= plan);
            if let Some(open) = hours::normalized(key.hour_start_ts_ms, points, w) {
                assert(p.action is RestoreCurrent);
                table::lemma_lookup_assigned(before.ifaces.current, ifindex, open, i);
                table::lemma_lookup_assigned(before.devices.current, (ifindex, key.mac), open, d);
            }
        }
    }
}

proof fn lemma_outcome_of_one(
    s: Seq<(SeriesId, Seq<CurrentHourPointState>)>,
    p: spec_fn(SeriesId) -> bool,
    w: (u64, u64),
    before: Option<(u64, Seq<HistoryPoint>)>,
    key: SeriesId,
)
    requires
        table::distinct(s),
        p(key),
        forall|i: int| 0 <= i < s.len() && p((#[trigger] s[i]).0) ==> s[i].0 == key,
    ensures
        outcome(s, p, w, before) == (match table::lookup(s, key) {
            Some(points) => match hours::normalized(key.hour_start_ts_ms, points, w) {
                Some(open) => Some(open),
                None => before,
            },
            None => before,
        }),
    decreases s.len(),
{
    if s.len() == 0 {
        assert(!table::has_key(s, key));
    } else {
        let r = s.drop_last();
        table::lemma_lookup_last(s, key);
        assert forall|i: int| 0 <= i < r.len() && p((#[trigger] r[i]).0) implies r[i].0 == key by {
            assert(s[i].0 == r[i].0);
        }
        lemma_outcome_of_one(r, p, w, before, key);
        assert(p(s[s.len() - 1].0) ==> s[s.len() - 1].0 == key);
    }
}

proof fn lemma_outcome_of_none(
    s: Seq<(SeriesId, Seq<CurrentHourPointState>)>,
    p: spec_fn(SeriesId) -> bool,
    w: (u64, u64),
    before: Option<(u64, Seq<HistoryPoint>)>,
)
    requires
        forall|i: int| 0 <= i < s.len() ==> !p((#[trigger] s[i]).0),
    ensures
        outcome(s, p, w, before) == before,
    decreases s.len(),
{
    if s.len() > 0 {
        let r = s.drop_last();
        assert forall|i: int| 0 <= i < r.len() implies !p((#[trigger] r[i]).0) by {
            assert(s[i].0 == r[i].0);
        }
        lemma_outcome_of_none(r, p, w, before);
        assert(!p(s[s.len() - 1].0));
    }
}

/// Whether rows hold the same samples as others for every series and hour, whatever the order of
/// the series, and however often a sample stands.
pub open spec fn same_samples(a: Seq<PointRowView>, b: Seq<PointRowView>, w: (u64, u64)) -> bool {
    forall|key: SeriesId|
        {
            &&& (#[trigger] samples_under(a, key)).len() == 0 <==> samples_under(b, key).len() == 0
            &&& hours::cleaned(samples_under(a, key), w) == hours::cleaned(
                samples_under(b, key),
                w,
            )
        }
}

/// The open hour that a series goes on with: its own where it was saved and is not over, otherwise
/// the one that was there before.
pub open spec fn gone_on(
    saved: Option<(u64, Seq<HistoryPoint>)>,
    w: (u64, u64),
    before: Option<(u64, Seq<HistoryPoint>)>,
) -> Option<(u64, Seq<HistoryPoint>)> {
    match saved {
        Some(open) => match hours::normalized(open.0, hours::saved_points(open.1), w) {
            Some(o) => Some(o),
            None => before,
        },
        None => before,
    }
}

proof fn lemma_empty_hour(start: u64, w: (u64, u64), points: Seq<HistoryPoint>)
    requires
        points.len() == 0,
    ensures
        hours::normalized(start, hours::saved_points(points), w) is None,
{
    hours::lemma_cleaned(hours::saved_points(points), w);
}

/// An entry of gathered rows is one of the saved series.
proof fn lemma_gathered_entry(
    g: HistogramView,
    rows: Seq<PointRowView>,
    t: Seq<IfaceInfo>,
    w: (u64, u64),
    i: int,
)
    requires
        table::distinct(g.ifaces.current),
        table::distinct(g.devices.current),
        all_named(g, t),
        same_samples(rows, saved_rows(g, t), w),
        0 <= i < persistence::gathered_rows(rows).len(),
    ensures
        ({
            let key = persistence::gathered_rows(rows)[i].0;
            let s = entries(g, t);
            let n = table::place_of(s, key);
            table::is_place(s, key, n)
        }),
{
    let e = persistence::gathered_rows(rows)[i];
    lemma_gathered(rows, e.0);
    table::lemma_has_key(persistence::gathered_rows(rows), e.0, i);
    assert(samples_under(rows, e.0).len() > 0);
    assert(samples_under(saved_rows(g, t), e.0).len() > 0);
    lemma_entries(g, t);
    lemma_samples_of_all(entries(g, t), e.0);
    assert(table::has_key(entries(g, t), e.0));
}

proof fn lemma_gathered_lookup(
    g: HistogramView,
    rows: Seq<PointRowView>,
    t: Seq<IfaceInfo>,
    w: (u64, u64),
    key: SeriesId,
    n: int,
)
    requires
        table::distinct(g.ifaces.current),
        table::distinct(g.devices.current),
        all_named(g, t),
        same_samples(rows, saved_rows(g, t), w),
        0 <= n < entries(g, t).len(),
        entries(g, t)[n].0 == key,
        entries(g, t)[n].1.len() > 0,
    ensures
        ({
            let found = table::lookup(persistence::gathered_rows(rows), key);
            &&& found is Some
            &&& hours::cleaned(found.unwrap(), w) == hours::cleaned(entries(g, t)[n].1, w)
        }),
        table::distinct(persistence::gathered_rows(rows)),
{
    let s = entries(g, t);
    lemma_entries(g, t);
    lemma_samples_of_all(s, key);
    table::lemma_has_key(s, key, n);
    let p = table::place_of(s, key);
    assert(table::is_place(s, key, p));
    if p != n {
        assert(p < n);
        assert(s[p].0 != s[n].0);
    }
    assert(samples_under(saved_rows(g, t), key) == s[n].1);
    assert(samples_under(rows, key).len() > 0);
    lemma_gathered(rows, key);
}

/// Open hours that were saved and are read again within the hour go on where they were: with the
/// samples that they held, in order of time, one for each time. An hour that is over by then does
/// not go on, and a series that was not saved goes on with what was there.
pub proof fn lemma_open_hours_recovered(
    g: HistogramView,
    h: HistogramView,
    rows: Seq<PointRowView>,
    t: Seq<IfaceInfo>,
    now_ms: u64,
    cal: Lookups,
    i: u32,
    d: (u32, Seq<char>),
)
    requires
        table::distinct(g.ifaces.current),
        table::distinct(g.devices.current),
        all_named(g, t),
        same_samples(rows, saved_rows(g, t), calendar::hour_at(cal, now_ms)),
    ensures
        table::lookup(recovered_from(h, rows, t, now_ms, cal).ifaces.current, i) == gone_on(
            table::lookup(g.ifaces.current, i),
            calendar::hour_at(cal, now_ms),
            table::lookup(h.ifaces.current, i),
        ),
        table::lookup(recovered_from(h, rows, t, now_ms, cal).devices.current, d) == gone_on(
            table::lookup(g.devices.current, d),
            calendar::hour_at(cal, now_ms),
            table::lookup(h.devices.current, d),
        ),
{
    let w = calendar::hour_at(cal, now_ms);
    let s = persistence::gathered_rows(rows);
    lemma_outcome(h, s, t, now_ms, cal, i, d);
    lemma_iface_recovered(g, rows, t, w, table::lookup(h.ifaces.current, i), i);
    lemma_device_recovered(g, rows, t, w, table::lookup(h.devices.current, d), d);
}

proof fn lemma_iface_recovered(
    g: HistogramView,
    rows: Seq<PointRowView>,
    t: Seq<IfaceInfo>,
    w: (u64, u64),
    before: Option<(u64, Seq<HistoryPoint>)>,
    k: u32,
)
    requires
        table::distinct(g.ifaces.current),
        table::distinct(g.devices.current),
        all_named(g, t),
        same_samples(rows, saved_rows(g, t), w),
    ensures
        outcome(persistence::gathered_rows(rows), iface_test(t, k), w, before) == gone_on(
            table::lookup(g.ifaces.current, k),
            w,
            before,
        ),
{
    reveal_strlit("iface");
    reveal_strlit("device");
    let s = persistence::gathered_rows(rows);
    let p = iface_test(t, k);
    let a = sorted_ifaces(g);
    // Whatever meets the test is the series of the interface itself.
    assert forall|j: int| 0 <= j < s.len() && p((#[trigger] s[j]).0) implies ({
        let open = table::lookup(g.ifaces.current, k);
        open is Some && open.unwrap().1.len() > 0 && s[j].0 == iface_key(
            saved_iface(k, open.unwrap()),
            name_at(t, k),
        )
    }) by {
        lemma_gathered_entry(g, rows, t, w, j);
        let n = table::place_of(entries(g, t), s[j].0);
        assert(table::is_place(entries(g, t), s[j].0, n));
        if n < a.len() {
            lemma_iface_item(g, t, n);
            assert(a[n].ifindex == k);
        } else {
            assert(entries(g, t)[n].0.series_type == "device"@);
            assert("iface"@.len() != "device"@.len());
        }
    }
    match table::lookup(g.ifaces.current, k) {
        Some(open) if open.1.len() > 0 => {
            let x = saved_iface(k, open);
            let key = iface_key(x, name_at(t, k));
            lemma_saved_ifaces(g.ifaces.current, x);
            sorting::lemma_sorted_members::<CurrentHourIfaceState>(
                histogram::saved_ifaces(g.ifaces.current),
                x,
            );
            let n = choose|n: int| 0 <= n < a.len() && a[n] == x;
            assert(a.contains(x));
            lemma_iface_item(g, t, n);
            assert(entries(g, t)[n] == (key, x.points));
            lemma_gathered_lookup(g, rows, t, w, key, n);
            assert(p(key));
            lemma_outcome_of_one(s, p, w, before, key);
        },
        Some(open) => {
            lemma_empty_hour(open.0, w, open.1);
            lemma_outcome_of_none(s, p, w, before);
        },
        None => {
            lemma_outcome_of_none(s, p, w, before);
        },
    }
}

proof fn lemma_device_recovered(
    g: HistogramView,
    rows: Seq<PointRowView>,
    t: Seq<IfaceInfo>,
    w: (u64, u64),
    before: Option<(u64, Seq<HistoryPoint>)>,
    k: (u32, Seq<char>),
)
    requires
        table::distinct(g.ifaces.current),
        table::distinct(g.devices.current),
        all_named(g, t),
        same_samples(rows, saved_rows(g, t), w),
    ensures
        outcome(persistence::gathered_rows(rows), device_test(t, k), w, before) == gone_on(
            table::lookup(g.devices.current, k),
            w,
            before,
        ),
{
    reveal_strlit("iface");
    reveal_strlit("device");
    let s = persistence::gathered_rows(rows);
    let p = device_test(t, k);
    let a = sorted_ifaces(g);
    let b = sorted_devices(g);
    // Whatever meets the test is the series of the device itself.
    assert forall|j: int| 0 <= j < s.len() && p((#[trigger] s[j]).0) implies ({
        let open = table::lookup(g.devices.current, k);
        open is Some && open.unwrap().1.len() > 0 && s[j].0 == device_key(
            saved_device(k, open.unwrap()),
            name_at(t, k.0),
        )
    }) by {
        lemma_gathered_entry(g, rows, t, w, j);
        let n = table::place_of(entries(g, t), s[j].0);
        assert(table::is_place(entries(g, t), s[j].0, n));
        if n < a.len() {
            assert(entries(g, t)[n].0.series_type == "iface"@);
        } else {
            lemma_device_item(g, t, n - a.len());
            assert((b[n - a.len()].ifindex, b[n - a.len()].mac) == k);
        }
    }
    match table::lookup(g.devices.current, k) {
        Some(open) if open.1.len() > 0 => {
            let x = saved_device(k, open);
            let key = device_key(x, name_at(t, k.0));
            lemma_saved_devices(g.devices.current, x);
            sorting::lemma_sorted_members::<CurrentHourDeviceState>(
                histogram::saved_devices(g.devices.current),
                x,
            );
            let n = choose|n: int| 0 <= n < b.len() && b[n] == x;
            assert(b.contains(x));
            lemma_device_item(g, t, n);
            assert(entries(g, t)[a.len() + n] == (key, x.points));
            lemma_gathered_lookup(g, rows, t, w, key, a.len() + n);
            assert("iface"@.len() != "device"@.len());
            assert(p(key));
            lemma_outcome_of_one(s, p, w, before, key);
        },
        Some(open) => {
            lemma_empty_hour(open.0, w, open.1);
            lemma_outcome_of_none(s, p, w, before);
        },
        None => {
            lemma_outcome_of_none(s, p, w, before);
        },
    }
}

/// A saved hour that is over, and in which samples lie, is a closed hour of its series once it has
/// been dealt with.
pub proof fn lemma_stale_hour_closed(
    h: HistogramView,
    key: SeriesId,
    points: Seq<CurrentHourPointState>,
    ifindex: u32,
    now_start: u64,
    cal: Lookups,
    w: (u64, u64),
)
    requires
        key.hour_start_ts_ms < now_start,
        calendar::hour_at(cal, key.hour_start_ts_ms).0 == key.hour_start_ts_ms,
        hours::points_within(points, calendar::hour_at(cal, key.hour_start_ts_ms)).len() > 0,
    ensures
        ({
            let hour = calendar::hour_at(cal, key.hour_start_ts_ms);
            let action = persistence::action_for(key.hour_start_ts_ms, points, now_start, hour);
            let after = persistence::recovered(
                h,
                PlannedView { key, ifindex, points, action },
                w,
            );
            if key.series_type == "iface"@ {
                histogram::begins_at(
                    table::lookup_or(after.ifaces.completed, ifindex, Seq::empty()),
                    key.hour_start_ts_ms,
                )
            } else {
                persistence::device_has_hour(after, ifindex, key.mac, key.hour_start_ts_ms)
            }
        }),
{
    let hour = calendar::hour_at(cal, key.hour_start_ts_ms);
    hours::lemma_cleaned(points, hour);
    let b = hours::promoted(key.hour_start_ts_ms, points, hour).unwrap();
    let action = persistence::action_for(key.hour_start_ts_ms, points, now_start, hour);
    assert(action == Action::Promote(b));
    let k = (ifindex, key.mac);
    hours::lemma_closed_lookup(h.ifaces, ifindex, b, ifindex);
    hours::lemma_closed_lookup(h.devices, k, b, k);
    let q = table::lookup(hours::closed(h.ifaces, ifindex, b).completed, ifindex).unwrap();
    assert(q[q.len() - 1].start_ts_ms == key.hour_start_ts_ms);
    let c = hours::closed(h.devices, k, b).completed;
    let n = table::place_of(c, k);
    assert(table::is_place(c, k, n));
    assert(c[n].1[c[n].1.len() - 1].start_ts_ms == key.hour_start_ts_ms);
    assert(histogram::begins_at(c[n].1, key.hour_start_ts_ms));
    assert(histogram::names_device(c[n].0, ifindex, key.mac));
    assert(b.start_ts_ms == key.hour_start_ts_ms);
    let after = persistence::recovered(h, PlannedView { key, ifindex, points, action }, w);
    if key.series_type == "iface"@ {
        assert(histogram::begins_at(q, key.hour_start_ts_ms));
    } else if !persistence::device_has_hour(h, ifindex, key.mac, b.start_ts_ms) {
        assert(after.devices.completed == c);
        assert(persistence::device_has_hour(after, ifindex, key.mac, key.hour_start_ts_ms));
    }
}

/// The closed hours of an interface in some rows.
pub open spec fn iface_buckets(rows: Seq<BucketRowView>, t: Seq<IfaceInfo>, k: u32) -> Seq<
    AggregatedBucket,
>
    decreases rows.len(),
{
    if rows.len() == 0 {
        Seq::empty()
    } else {
        let rest = iface_buckets(rows.drop_last(), t, k);
        let r = rows.last();
        if r.series_type == "iface"@ && topology::index_named(t, r.logical_iface) == Some(k) {
            rest.push(r.bucket)
        } else {
            rest
        }
    }
}

/// The closed hours of a device in some rows.
pub open spec fn device_buckets(
    rows: Seq<BucketRowView>,
    t: Seq<IfaceInfo>,
    k: (u32, Seq<char>),
) -> Seq<AggregatedBucket>
    decreases rows.len(),
{
    if rows.len() == 0 {
        Seq::empty()
    } else {
        let rest = device_buckets(rows.drop_last(), t, k);
        let r = rows.last();
        if r.series_type != "iface"@ && topology::index_named(t, r.logical_iface) == Some(k.0)
            && r.mac == k.1 {
            rest.push(r.bucket)
        } else {
            rest
        }
    }
}

proof fn lemma_ring_push(s: Seq<AggregatedBucket>, b: AggregatedBucket, n: nat)
    requires
        n > 0,
    ensures
        lists::kept_last(lists::kept_last(s, n).push(b), n) == lists::kept_last(s.push(b), n),
{
    assert(lists::kept_last(lists::kept_last(s, n).push(b), n) =~= lists::kept_last(s.push(b), n));
}

proof fn lemma_ring_closed<A>(
    s: SeriesView<A>,
    k: A,
    b: AggregatedBucket,
    other: A,
    listed: Seq<AggregatedBucket>,
)
    requires
        table::lookup_or(s.completed, other, Seq::empty()) == lists::kept_last(
            listed,
            hours::HISTOGRAM_MAX_HOURS as nat,
        ),
    ensures
        table::lookup_or(hours::closed(s, k, b).completed, other, Seq::empty())
            == lists::kept_last(
            if other == k {
                listed.push(b)
            } else {
                listed
            },
            hours::HISTOGRAM_MAX_HOURS as nat,
        ),
{
    let n = hours::HISTOGRAM_MAX_HOURS as nat;
    let q = lists::kept_last(table::lookup_or(s.completed, k, Seq::empty()).push(b), n);
    table::lemma_lookup_assigned(s.completed, k, q, other);
    lemma_ring_push(listed, b, n);
}

/// Closed hours that are read from rows follow those that were there, in the order of the rows; of
/// each series the latest are kept.
pub proof fn lemma_buckets_restored(
    h: HistogramView,
    rows: Seq<BucketRowView>,
    t: Seq<IfaceInfo>,
    i: u32,
    d: (u32, Seq<char>),
)
    requires
        table::lookup_or(h.ifaces.completed, i, Seq::empty()).len() <= hours::HISTOGRAM_MAX_HOURS,
        table::lookup_or(h.devices.completed, d, Seq::empty()).len() <= hours::HISTOGRAM_MAX_HOURS,
    ensures
        table::lookup_or(persistence::with_rows(h, rows, t).ifaces.completed, i, Seq::empty())
            == lists::kept_last(
            table::lookup_or(h.ifaces.completed, i, Seq::empty()) + iface_buckets(rows, t, i),
            hours::HISTOGRAM_MAX_HOURS as nat,
        ),
        table::lookup_or(persistence::with_rows(h, rows, t).devices.completed, d, Seq::empty())
            == lists::kept_last(
            table::lookup_or(h.devices.completed, d, Seq::empty()) + device_buckets(rows, t, d),
            hours::HISTOGRAM_MAX_HOURS as nat,
        ),
        persistence::with_rows(h, rows, t).ifaces.current == h.ifaces.current,
        persistence::with_rows(h, rows, t).devices.current == h.devices.current,
    decreases rows.len(),
{
    let n = hours::HISTOGRAM_MAX_HOURS as nat;
    let a = table::lookup_or(h.ifaces.completed, i, Seq::empty());
    let b = table::lookup_or(h.devices.completed, d, Seq::empty());
    if rows.len() == 0 {
        assert(lists::kept_last(a + iface_buckets(rows, t, i), n) =~= a);
        assert(lists::kept_last(b + device_buckets(rows, t, d), n) =~= b);
    } else {
        let rest = persistence::with_rows(h, rows.drop_last(), t);
        let r = rows.last();
        lemma_buckets_restored(h, rows.drop_last(), t, i, d);
        if let Some(ifindex) = topology::index_named(t, r.logical_iface) {
            let x = iface_buckets(rows.drop_last(), t, i);
            let y = device_buckets(rows.drop_last(), t, d);
            if r.series_type == "iface"@ {
                lemma_ring_closed(rest.ifaces, ifindex, r.bucket, i, a + x);
                assert((a + x).push(r.bucket) =~= a + x.push(r.bucket));
            } else {
                lemma_ring_closed(rest.devices, (ifindex, r.mac), r.bucket, d, b + y);
                assert((b + y).push(r.bucket) =~= b + y.push(r.bucket));
            }
        }
    }
}

/// Whether the devices of all rows have their addresses in small letters.
pub open spec fn rows_in_small(rows: Seq<BucketRowView>) -> bool {
    forall|i: int|
        0 <= i < rows.len() && (#[trigger] rows[i]).series_type != "iface"@ ==> text::ascii_lower(
            rows[i].mac,
        ) == rows[i].mac
}

proof fn lemma_keys_in_small(rows: Seq<BucketRowView>, t: Seq<IfaceInfo>)
    requires
        rows_in_small(rows),
    ensures
        forall|i: int|
            0 <= i < persistence::with_rows(histogram::no_hours(), rows, t).devices.completed.len()
                ==> text::ascii_lower(
                (#[trigger] persistence::with_rows(
                    histogram::no_hours(),
                    rows,
                    t,
                ).devices.completed[i]).0.1,
            ) == persistence::with_rows(
                histogram::no_hours(),
                rows,
                t,
            ).devices.completed[i].0.1,
    decreases rows.len(),
{
    if rows.len() > 0 {
        let g = rows.drop_last();
        let r = rows.last();
        assert forall|i: int| 0 <= i < g.len() && (#[trigger] g[i]).series_type != "iface"@ implies
            text::ascii_lower(g[i].mac) == g[i].mac by {
            assert(rows[i].series_type != "iface"@);
        }
        lemma_keys_in_small(g, t);
        assert(rows[rows.len() - 1].series_type != "iface"@ ==> text::ascii_lower(r.mac) == r.mac);
        let before = persistence::with_rows(histogram::no_hours(), g, t).devices.completed;
        let after = persistence::with_rows(histogram::no_hours(), rows, t).devices.completed;
        assert forall|i: int| 0 <= i < after.len() implies text::ascii_lower(
            (#[trigger] after[i]).0.1,
        ) == after[i].0.1 by {
            if let Some(ifindex) = topology::index_named(t, r.logical_iface) {
                let k = (ifindex, r.mac);
                if table::has_key(before, k) {
                    assert(table::is_place(before, k, table::place_of(before, k)));
                }
            }
            if i < before.len() {
                assert(text::ascii_lower(before[i].0.1) == before[i].0.1);
            }
        }
    }
}

proof fn lemma_device_bucket_gathered(
    rows: Seq<BucketRowView>,
    t: Seq<IfaceInfo>,
    k: (u32, Seq<char>),
    n: int,
)
    requires
        0 <= n < rows.len(),
        rows[n].series_type != "iface"@,
        topology::index_named(t, rows[n].logical_iface) == Some(k.0),
        rows[n].mac == k.1,
    ensures
        device_buckets(rows, t, k).contains(rows[n].bucket),
    decreases rows.len(),
{
    let rest = device_buckets(rows.drop_last(), t, k);
    if n < rows.len() - 1 {
        lemma_device_bucket_gathered(rows.drop_last(), t, k, n);
        let i = choose|i: int| 0 <= i < rest.len() && rest[i] == rows[n].bucket;
        assert(device_buckets(rows, t, k)[i] == rows[n].bucket);
    } else {
        assert(device_buckets(rows, t, k)[rest.len() as int] == rows[n].bucket);
    }
}

proof fn lemma_address_not_blank(mac: Seq<char>, asked: Seq<char>)
    requires
        persistence::mac_hex(mac) is Some,
        text::same_ignoring_case(mac, asked),
    ensures
        text::trimmed(asked).len() > 0,
{
    let digits = persistence::without_colons(mac);
    let compact = text::ascii_lower(digits);
    assert(mac::hex_digit(compact[0]) is Some);
    lists::lemma_picked_member(mac, |c: char| c != ':', 0);
    let i = choose|i: int| 0 <= i < mac.len() && mac[i] == digits[0];
    assert(compact[0] == text::lower_char(mac[i]));
    assert(text::folded(mac[i]) == text::folded(asked[i]));
    text::lemma_not_blank(asked, i);
}

/// A bucket of a device that is kept under its address in small letters is found again after all
/// rows have been read, by every query that it overlaps, in whatever case the address is asked for.
/// This holds as long as the device has no more buckets than are kept.
pub proof fn lemma_kept_bucket_found(
    rows: Seq<BucketRowView>,
    t: Seq<IfaceInfo>,
    n: int,
    ifindex: u32,
    mac: Seq<char>,
    asked: Seq<char>,
    start_ms: u64,
    end_ms: u64,
    cal: Lookups,
)
    requires
        rows_in_small(rows),
        0 <= n < rows.len(),
        rows[n].series_type != "iface"@,
        rows[n].mac == text::ascii_lower(mac),
        topology::index_named(t, rows[n].logical_iface) == Some(ifindex),
        persistence::mac_hex(mac) is Some,
        text::same_ignoring_case(mac, asked),
        device_buckets(rows, t, (ifindex, text::ascii_lower(mac))).len()
            <= hours::HISTOGRAM_MAX_HOURS,
        hours::overlaps(rows[n].bucket, start_ms, end_ms),
    ensures
        histogram::queried_hours(
            persistence::with_rows(histogram::no_hours(), rows, t),
            ifindex,
            Some(asked),
            start_ms,
            end_ms,
            cal,
        ).contains(rows[n].bucket),
{
    let b = rows[n].bucket;
    let k = (ifindex, text::ascii_lower(mac));
    lemma_address_not_blank(mac, asked);
    let r = persistence::with_rows(histogram::no_hours(), rows, t);
    let none = histogram::no_hours();
    assert(!table::has_key(none.devices.completed, k));
    assert(!table::has_key(none.ifaces.completed, ifindex));
    lemma_buckets_restored(none, rows, t, ifindex, k);
    lemma_device_bucket_gathered(rows, t, k, n);
    let ring = table::lookup_or(r.devices.completed, k, Seq::empty());
    assert(Seq::<AggregatedBucket>::empty() + device_buckets(rows, t, k) =~= device_buckets(
        rows,
        t,
        k,
    ));
    assert(ring == device_buckets(rows, t, k));
    assert(table::has_key(r.devices.completed, k));
    let at = table::place_of(r.devices.completed, k);
    assert(table::is_place(r.devices.completed, k, at));
    let p = histogram::device_test(ifindex, asked);
    text::lemma_same_lower(mac, asked);
    assert(text::ascii_lower(k.1) == k.1) by {
        lemma_keys_in_small(rows, t);
    }
    text::lemma_same_lower(k.1, asked);
    assert(p(r.devices.completed[at].0));
    table::lemma_first_key(r.devices.completed, p);
    let first = table::first_key(r.devices.completed, p).unwrap();
    lemma_keys_in_small(rows, t);
    let i = choose|i: int|
        0 <= i < r.devices.completed.len() && (#[trigger] r.devices.completed[i]).0 == first;
    assert(text::ascii_lower(r.devices.completed[i].0.1) == r.devices.completed[i].0.1);
    text::lemma_same_lower(first.1, asked);
    assert(first == k);
    let j = choose|j: int| 0 <= j < ring.len() && ring[j] == b;
    let q = hours::overlap_test(start_ms, end_ms);
    lists::lemma_picked_complete(ring, q, j);
    let done = lists::picked(ring, q);
    let all = hours::hours_between(r.devices, k, start_ms, end_ms, cal);
    let m = choose|m: int| 0 <= m < done.len() && done[m] == b;
    assert(all[m] == b);
    sorting::lemma_sorted_members::<AggregatedBucket>(all, b);
}

} // verus!
