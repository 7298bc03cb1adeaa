//! The most recent samples of interfaces and devices.

use std::collections::HashMap;
use std::collections::VecDeque;

use vstd::prelude::*;

use crate::counters;
use crate::counters::CounterQuad;
use crate::counters::HistoryDirection;
use crate::counters::HistoryPoint;
use crate::counters::HistoryTrafficType;
use crate::histogram;
use crate::histogram::DeviceSeriesKey;
use crate::lists;
use crate::snapshot::DeviceListItem;
use crate::snapshot::DeviceView;
use crate::snapshot::InterfaceOverviewItem;
use crate::snapshot::InterfaceView;
use crate::snapshot::SnapshotData;
use crate::snapshot::SnapshotView;
use crate::sorting;
use crate::table;
use crate::table::Table;
use crate::table::TableKey;
use crate::text;

verus! {

/// One sample as it is shown.
#[derive(Debug, Clone, Copy, PartialEq, Eq)]
pub struct HistorySample {
    pub ts_ms: u64,
    pub up_v4_bps: u64,
    pub up_v6_bps: u64,
    pub down_v4_bps: u64,
    pub down_v6_bps: u64,
    pub up_v4_bytes: u64,
    pub up_v6_bytes: u64,
    pub down_v4_bytes: u64,
    pub down_v6_bytes: u64,
    pub up_v4_bytes_cumulative: u64,
    pub up_v6_bytes_cumulative: u64,
    pub down_v4_bytes_cumulative: u64,
    pub down_v6_bytes_cumulative: u64,
}

/// The sample of a time at which `m` was counted, and `c` in all.
pub open spec fn sample_of(ts_ms: u64, m: CounterQuad, c: CounterQuad) -> HistorySample {
    HistorySample {
        ts_ms,
        up_v4_bps: m.up_v4_bps,
        up_v6_bps: m.up_v6_bps,
        down_v4_bps: m.down_v4_bps,
        down_v6_bps: m.down_v6_bps,
        up_v4_bytes: m.up_v4_bytes,
        up_v6_bytes: m.up_v6_bytes,
        down_v4_bytes: m.down_v4_bytes,
        down_v6_bytes: m.down_v6_bytes,
        up_v4_bytes_cumulative: c.up_v4_bytes,
        up_v6_bytes_cumulative: c.up_v6_bytes,
        down_v4_bytes_cumulative: c.down_v4_bytes,
        down_v6_bytes_cumulative: c.down_v6_bytes,
    }
}

fn new_sample(ts_ms: u64, m: &CounterQuad, c: &CounterQuad) -> (r: HistorySample)
    ensures
        r == sample_of(ts_ms, *m, *c),
{
    HistorySample {
        ts_ms,
        up_v4_bps: m.up_v4_bps,
        up_v6_bps: m.up_v6_bps,
        down_v4_bps: m.down_v4_bps,
        down_v6_bps: m.down_v6_bps,
        up_v4_bytes: m.up_v4_bytes,
        up_v6_bytes: m.up_v6_bytes,
        down_v4_bytes: m.down_v4_bytes,
        down_v6_bytes: m.down_v6_bytes,
        up_v4_bytes_cumulative: c.up_v4_bytes,
        up_v6_bytes_cumulative: c.up_v6_bytes,
        down_v4_bytes_cumulative: c.down_v4_bytes,
        down_v6_bytes_cumulative: c.down_v6_bytes,
    }
}

/// Samples as they are shown.
pub open spec fn samples(s: Seq<HistoryPoint>) -> Seq<HistorySample> {
    Seq::new(s.len(), |i: int| sample_of(s[i].ts_ms, s[i].metrics, s[i].cumulative))
}

/// Samples as they are shown.
pub fn series_to_samples(series: &VecDeque<HistoryPoint>) -> (r: Vec<HistorySample>)
    ensures
        r@ == samples(series@),
{
    let mut r: Vec<HistorySample> = Vec::new();
    for i in 0..series.len()
        invariant
            r@ =~= samples(series@).take(i as int),
    {
        let p = series[i];
        r.push(new_sample(p.ts_ms, &p.metrics, &p.cumulative));
    }
    r
}

/// A sample narrowed to an IP family: whatever is about the other one is zero.
pub open spec fn sample_of_type(x: HistorySample, tt: HistoryTrafficType) -> HistorySample {
    match tt {
        HistoryTrafficType::All => x,
        HistoryTrafficType::Ipv4 => HistorySample {
            up_v6_bps: 0,
            down_v6_bps: 0,
            up_v6_bytes: 0,
            down_v6_bytes: 0,
            up_v6_bytes_cumulative: 0,
            down_v6_bytes_cumulative: 0,
            ..x
        },
        HistoryTrafficType::Ipv6 => HistorySample {
            up_v4_bps: 0,
            down_v4_bps: 0,
            up_v4_bytes: 0,
            down_v4_bytes: 0,
            up_v4_bytes_cumulative: 0,
            down_v4_bytes_cumulative: 0,
            ..x
        },
    }
}

/// Samples narrowed to an IP family.
pub open spec fn samples_of_type(s: Seq<HistorySample>, tt: HistoryTrafficType) -> Seq<
    HistorySample,
> {
    s.map_values(|x: HistorySample| sample_of_type(x, tt))
}

impl HistorySample {
    /// Keeps what is about the IP family asked for and sets the rest to zero.
    pub fn with_traffic_type(self, tt: HistoryTrafficType) -> (r: Self)
        ensures
            r == sample_of_type(self, tt),
    {
        let mut x = self;
        match tt {
            HistoryTrafficType::All => {},
            HistoryTrafficType::Ipv4 => {
                x.up_v6_bps = 0;
                x.down_v6_bps = 0;
                x.up_v6_bytes = 0;
                x.down_v6_bytes = 0;
                x.up_v6_bytes_cumulative = 0;
                x.down_v6_bytes_cumulative = 0;
            },
            HistoryTrafficType::Ipv6 => {
                x.up_v4_bps = 0;
                x.down_v4_bps = 0;
                x.up_v4_bytes = 0;
                x.down_v4_bytes = 0;
                x.up_v4_bytes_cumulative = 0;
                x.down_v4_bytes_cumulative = 0;
            },
        }
        x
    }
}

fn narrow_samples(v: Vec<HistorySample>, tt: HistoryTrafficType) -> (r: Vec<HistorySample>)
    ensures
        r@ == samples_of_type(v@, tt),
{
    let mut r: Vec<HistorySample> = Vec::new();
    for i in 0..v.len()
        invariant
            r@ =~= samples_of_type(v@, tt).take(i as int),
    {
        r.push(v[i].with_traffic_type(tt));
    }
    r
}

/// Samples that are asked for whatever their IP family are shown as they are; narrowed to one
/// family they keep their times, and nothing is left of them once narrowed to both.
pub proof fn lemma_samples_of_type(s: Seq<HistorySample>, tt: HistoryTrafficType)
    ensures
        samples_of_type(s, HistoryTrafficType::All) == s,
        samples_of_type(s, tt).len() == s.len(),
        samples_of_type(samples_of_type(s, tt), tt) == samples_of_type(s, tt),
        forall|i: int|
            0 <= i < s.len() ==> (#[trigger] samples_of_type(s, tt)[i]).ts_ms == s[i].ts_ms,
        forall|i: int|
            0 <= i < s.len() ==> #[trigger] samples_of_type(
                samples_of_type(s, HistoryTrafficType::Ipv4),
                HistoryTrafficType::Ipv6,
            )[i] == sample_of(s[i].ts_ms, counters::zero_quad(), counters::zero_quad()),
{
    assert(samples_of_type(s, HistoryTrafficType::All) =~= s);
    assert(samples_of_type(samples_of_type(s, tt), tt) =~= samples_of_type(s, tt));
}

/// Drops the oldest samples until no more than `max_points` are left.
pub fn trim_history_queue(queue: &mut VecDeque<HistoryPoint>, max_points: usize)
    ensures
        final(queue)@ == lists::kept_last(old(queue)@, max_points as nat),
{
    lists::trim_front(queue, max_points);
}

/// The recent samples, by interface and by device.
#[verifier::ext_equal]
pub struct HistoryView {
    pub window_points: usize,
    pub ifaces: Map<u32, Seq<HistoryPoint>>,
    pub devices: Seq<((u32, Seq<char>), Seq<HistoryPoint>)>,
}

/// The samples under keys after one more under a key, of which the last `n` are kept.
pub open spec fn appended<A>(
    s: Seq<(A, Seq<HistoryPoint>)>,
    k: A,
    p: HistoryPoint,
    n: usize,
) -> Seq<(A, Seq<HistoryPoint>)> {
    table::assigned(
        s,
        k,
        lists::kept_last(table::lookup_or(s, k, Seq::empty()).push(p), n as nat),
    )
}

/// The samples of an interface; none where none were taken.
pub open spec fn points_under(m: Map<u32, Seq<HistoryPoint>>, ifindex: u32) -> Seq<HistoryPoint> {
    if m.contains_key(ifindex) {
        m[ifindex]
    } else {
        Seq::empty()
    }
}

/// The samples of interfaces after one more of an interface, of which the last `n` are kept.
pub open spec fn iface_appended(
    m: Map<u32, Seq<HistoryPoint>>,
    ifindex: u32,
    p: HistoryPoint,
    n: usize,
) -> Map<u32, Seq<HistoryPoint>> {
    m.insert(ifindex, lists::kept_last(points_under(m, ifindex).push(p), n as nat))
}

/// The sample that a snapshot holds of an interface.
pub open spec fn iface_point(ts_ms: u64, d: InterfaceView) -> HistoryPoint {
    HistoryPoint { ts_ms, metrics: d.metrics, cumulative: d.cumulative }
}

/// The sample that a snapshot holds of a device.
pub open spec fn device_point(ts_ms: u64, d: DeviceView) -> HistoryPoint {
    HistoryPoint { ts_ms, metrics: d.metrics, cumulative: d.cumulative }
}

/// The samples of interfaces after those of a snapshot, one after another.
pub open spec fn ifaces_appended(
    m: Map<u32, Seq<HistoryPoint>>,
    items: Seq<InterfaceView>,
    ts_ms: u64,
    n: usize,
) -> Map<u32, Seq<HistoryPoint>>
    decreases items.len(),
{
    if items.len() == 0 {
        m
    } else {
        iface_appended(
            ifaces_appended(m, items.drop_last(), ts_ms, n),
            items.last().ifindex,
            iface_point(ts_ms, items.last()),
            n,
        )
    }
}

/// The samples of devices after those of a snapshot, one after another.
pub open spec fn devices_appended(
    s: Seq<((u32, Seq<char>), Seq<HistoryPoint>)>,
    items: Seq<DeviceView>,
    ts_ms: u64,
    n: usize,
) -> Seq<((u32, Seq<char>), Seq<HistoryPoint>)>
    decreases items.len(),
{
    if items.len() == 0 {
        s
    } else {
        appended(
            devices_appended(s, items.drop_last(), ts_ms, n),
            (items.last().ifindex, items.last().mac),
            device_point(ts_ms, items.last()),
            n,
        )
    }
}

/// The recent samples after those of a snapshot.
pub open spec fn snapshot_appended(h: HistoryView, s: SnapshotView) -> HistoryView {
    HistoryView {
        ifaces: ifaces_appended(h.ifaces, s.interfaces, s.timestamp_ms, h.window_points),
        devices: devices_appended(h.devices, s.devices, s.timestamp_ms, h.window_points),
        ..h
    }
}

/// Whether a key is a device with this address, ignoring case, behind this interface, or behind any
/// where none is given.
pub open spec fn names_any(k: (u32, Seq<char>), ifindex: Option<u32>, mac: Seq<char>) -> bool {
    &&& match ifindex {
        Some(x) => k.0 == x,
        None => true,
    }
    &&& text::same_ignoring_case(k.1, mac)
}

/// The samples of the devices that a query names.
pub open spec fn named_points(
    s: Seq<((u32, Seq<char>), Seq<HistoryPoint>)>,
    ifindex: Option<u32>,
    mac: Seq<char>,
) -> Seq<HistoryPoint>
    decreases s.len(),
{
    if s.len() == 0 {
        Seq::empty()
    } else {
        let rest = named_points(s.drop_last(), ifindex, mac);
        if names_any(s.last().0, ifindex, mac) {
            rest + s.last().1
        } else {
            rest
        }
    }
}

/// The times of samples.
pub open spec fn times_of(s: Seq<HistoryPoint>) -> Seq<u64> {
    Seq::new(s.len(), |i: int| s[i].ts_ms)
}

/// The test for one time, as a function of samples.
pub open spec fn time_test(ts_ms: u64) -> spec_fn(HistoryPoint) -> bool {
    |p: HistoryPoint| p.ts_ms == ts_ms
}

/// The sum of the samples of one time.
pub open spec fn sum_at(s: Seq<HistoryPoint>, ts_ms: u64) -> HistorySample {
    let at = lists::picked(s, time_test(ts_ms));
    sample_of(
        ts_ms,
        counters::quad_total(counters::metrics_of(at)),
        counters::quad_total(counters::cumulative_of(at)),
    )
}

/// The sums of the samples of each time, in order of time.
pub open spec fn sums_by_time(s: Seq<HistoryPoint>) -> Seq<HistorySample> {
    let times = lists::ascending_once(times_of(s));
    Seq::new(times.len(), |i: int| sum_at(s, times[i]))
}

fn sum_points_at(v: &Vec<HistoryPoint>, ts_ms: u64) -> (r: HistorySample)
    ensures
        r == sum_at(v@, ts_ms),
{
    let ghost p = time_test(ts_ms);
    let mut metrics = CounterQuad::default();
    let mut cumulative = CounterQuad::default();
    proof {
        counters::lemma_quad_total_empty();
        assert(v@.take(0) =~= Seq::<HistoryPoint>::empty());
        assert(counters::metrics_of(Seq::<HistoryPoint>::empty()) =~= Seq::<CounterQuad>::empty());
        assert(counters::cumulative_of(Seq::<HistoryPoint>::empty()) =~= Seq::<
            CounterQuad,
        >::empty());
    }
    for i in 0..v.len()
        invariant
            p == time_test(ts_ms),
            metrics == counters::quad_total(
                counters::metrics_of(lists::picked(v@.take(i as int), p)),
            ),
            cumulative == counters::quad_total(
                counters::cumulative_of(lists::picked(v@.take(i as int), p)),
            ),
    {
        let x = v[i];
        proof {
            let s = v@.take(i as int);
            assert(v@.take(i + 1) =~= s.push(x));
            lists::lemma_picked_push(s, x, p);
            let at = lists::picked(s, p);
            counters::lemma_quad_total_push(counters::metrics_of(at), x.metrics);
            counters::lemma_quad_total_push(counters::cumulative_of(at), x.cumulative);
            assert(counters::metrics_of(at.push(x)) =~= counters::metrics_of(at).push(x.metrics));
            assert(counters::cumulative_of(at.push(x)) =~= counters::cumulative_of(at).push(
                x.cumulative,
            ));
        }
        if x.ts_ms == ts_ms {
            counters::add_quad(&mut metrics, &x.metrics);
            counters::add_quad(&mut cumulative, &x.cumulative);
        }
    }
    assert(v@.take(v@.len() as int) =~= v@);
    new_sample(ts_ms, &metrics, &cumulative)
}

/// The sums of the samples of each time, in order of time.
pub fn sum_by_time(v: &Vec<HistoryPoint>) -> (r: Vec<HistorySample>)
    ensures
        r@ == sums_by_time(v@),
{
    let mut times: Vec<u64> = Vec::new();
    for i in 0..v.len()
        invariant
            times@ =~= times_of(v@).take(i as int),
    {
        times.push(v[i].ts_ms);
    }
    assert(times@ =~= times_of(v@));
    let times = lists::sort_once(&times);
    let mut r: Vec<HistorySample> = Vec::new();
    for i in 0..times.len()
        invariant
            times@ == lists::ascending_once(times_of(v@)),
            r@ =~= sums_by_time(v@).take(i as int),
    {
        r.push(sum_points_at(v, times[i]));
    }
    r
}

fn append_point<K: TableKey>(
    t: &mut Table<K, VecDeque<HistoryPoint>>,
    k: K,
    p: HistoryPoint,
    n: usize,
)
    ensures
        final(t)@ == appended(old(t)@, k@, p, n),
        old(t).wf() ==> final(t).wf(),
{
    proof {
        if t.wf() {
            table::lemma_assigned_distinct(
                t@,
                k@,
                lists::kept_last(table::lookup_or(t@, k@, Seq::empty()).push(p), n as nat),
            );
        }
    }
    match t.find(&k) {
        Some(i) => {
            let q = t.value_at_mut(i);
            q.push_back(p);
            trim_history_queue(q, n);
        },
        None => {
            let mut q: VecDeque<HistoryPoint> = VecDeque::new();
            q.push_back(p);
            trim_history_queue(&mut q, n);
            assert(Seq::<HistoryPoint>::empty().push(p) =~= seq![p]);
            t.insert(k, q);
        },
    }
}

/// The samples of each interface, as sequences.
pub open spec fn points_of(m: Map<u32, VecDeque<HistoryPoint>>) -> Map<u32, Seq<HistoryPoint>> {
    m.map_values(|q: VecDeque<HistoryPoint>| q@)
}

fn append_iface_point(
    m: &mut HashMap<u32, VecDeque<HistoryPoint>>,
    ifindex: u32,
    p: HistoryPoint,
    n: usize,
)
    ensures
        points_of(final(m)@) == iface_appended(points_of(old(m)@), ifindex, p, n),
{
    broadcast use vstd::std_specs::hash::group_hash_axioms;

    let ghost before = m@;
    let mut q = match m.remove(&ifindex) {
        Some(q) => q,
        None => VecDeque::new(),
    };
    assert(q@ == points_under(points_of(before), ifindex));
    q.push_back(p);
    trim_history_queue(&mut q, n);
    m.insert(ifindex, q);
    assert(points_of(m@) =~= iface_appended(points_of(before), ifindex, p, n));
}

/// The recent samples of interfaces and devices.
#[derive(Debug)]
pub struct TrafficHistory {
    window_points: usize,
    iface_series: HashMap<u32, VecDeque<HistoryPoint>>,
    device_series: Table<DeviceSeriesKey, VecDeque<HistoryPoint>>,
}

impl View for TrafficHistory {
    type V = HistoryView;

    closed spec fn view(&self) -> HistoryView {
        HistoryView {
            window_points: self.window_points,
            ifaces: points_of(self.iface_series@),
            devices: self.device_series@,
        }
    }
}

impl TrafficHistory {
    /// No device is listed twice.
    pub open spec fn wf(&self) -> bool {
        table::distinct(self@.devices)
    }

    /// No samples yet, and room for `window_points` of each series, at least one.
    pub fn new(window_points: usize) -> (r: Self)
        ensures
            r@ == (HistoryView {
                window_points: if window_points < 1 {
                    1
                } else {
                    window_points
                },
                ifaces: Map::empty(),
                devices: Seq::empty(),
            }),
            r.wf(),
    {
        let r = TrafficHistory {
            window_points: if window_points < 1 {
                1
            } else {
                window_points
            },
            iface_series: HashMap::new(),
            device_series: Table::new(),
        };
        assert(r@.ifaces =~= Map::<u32, Seq<HistoryPoint>>::empty());
        r
    }

    /// Forgets the samples of one device, ignoring case; says whether there were any.
    pub fn remove_device(&mut self, ifindex: u32, mac: &str) -> (removed: bool)
        ensures
            final(self)@ == (HistoryView {
                devices: table::without(
                    old(self)@.devices,
                    histogram::device_test(ifindex, mac@),
                ),
                ..old(self)@
            }),
            removed == table::some_key(
                old(self)@.devices,
                histogram::device_test(ifindex, mac@),
            ),
            old(self).wf() ==> final(self).wf(),
    {
        let f = |k: &DeviceSeriesKey| -> (b: bool)
            ensures
                b == histogram::names_device(k@, ifindex, mac@),
            { k.ifindex == ifindex && text::eq_ignore_ascii_case(k.mac.as_str(), mac) };
        self.device_series.remove_if(&f, Ghost(histogram::device_test(ifindex, mac@)))
    }

    fn ingest_interfaces(&mut self, items: &Vec<InterfaceOverviewItem>, ts_ms: u64)
        ensures
            final(self)@ == (HistoryView {
                ifaces: ifaces_appended(
                    old(self)@.ifaces,
                    sorting::views(items@),
                    ts_ms,
                    old(self)@.window_points,
                ),
                ..old(self)@
            }),
            old(self).wf() ==> final(self).wf(),
    {
        let ghost h = self@;
        let ghost was = self.wf();
        let ghost all = sorting::views(items@);
        assert(all.take(0) =~= Seq::<InterfaceView>::empty());
        for i in 0..items.len()
            invariant
                all == sorting::views(items@),
                self@.window_points == h.window_points,
                self@.devices == h.devices,
                self@.ifaces == ifaces_appended(
                    h.ifaces,
                    all.take(i as int),
                    ts_ms,
                    h.window_points,
                ),
                was ==> self.wf(),
        {
            let item = &items[i];
            assert(all.take(i + 1).drop_last() =~= all.take(i as int));
            assert(all.take(i + 1).last() == item@);
            let p = HistoryPoint { ts_ms, metrics: item.metrics, cumulative: item.cumulative };
            append_iface_point(&mut self.iface_series, item.ifindex, p, self.window_points);
        }
        assert(all.take(all.len() as int) =~= all);
    }

    fn ingest_devices(&mut self, items: &Vec<DeviceListItem>, ts_ms: u64)
        ensures
            final(self)@ == (HistoryView {
                devices: devices_appended(
                    old(self)@.devices,
                    sorting::views(items@),
                    ts_ms,
                    old(self)@.window_points,
                ),
                ..old(self)@
            }),
            old(self).wf() ==> final(self).wf(),
    {
        let ghost h = self@;
        let ghost was = self.wf();
        let ghost all = sorting::views(items@);
        assert(all.take(0) =~= Seq::<DeviceView>::empty());
        for i in 0..items.len()
            invariant
                all == sorting::views(items@),
                self@.window_points == h.window_points,
                self@.ifaces == h.ifaces,
                self@.devices == devices_appended(
                    h.devices,
                    all.take(i as int),
                    ts_ms,
                    h.window_points,
                ),
                was ==> self.wf(),
        {
            let item = &items[i];
            assert(all.take(i + 1).drop_last() =~= all.take(i as int));
            assert(all.take(i + 1).last() == item@);
            let p = HistoryPoint { ts_ms, metrics: item.metrics, cumulative: item.cumulative };
            let k = DeviceSeriesKey { ifindex: item.ifindex, mac: item.mac.clone() };
            append_point(&mut self.device_series, k, p, self.window_points);
        }
        assert(all.take(all.len() as int) =~= all);
    }

    /// Takes in the samples of a snapshot.
    pub fn ingest_snapshot(&mut self, snapshot: &SnapshotData)
        ensures
            final(self)@ == snapshot_appended(old(self)@, snapshot@),
            old(self).wf() ==> final(self).wf(),
    {
        self.ingest_interfaces(&snapshot.interfaces, snapshot.timestamp_ms);
        self.ingest_devices(&snapshot.devices, snapshot.timestamp_ms);
    }

    /// The recent samples of an interface, narrowed to the IP family asked for. The direction does
    /// not narrow them.
    pub fn query_iface(
        &self,
        ifindex: u32,
        traffic_type: HistoryTrafficType,
        _direction: HistoryDirection,
    ) -> (r: Vec<HistorySample>)
        ensures
            r@ == samples_of_type(
                samples(points_under(self@.ifaces, ifindex)),
                traffic_type,
            ),
    {
        broadcast use vstd::std_specs::hash::group_hash_axioms;

        match self.iface_series.get(&ifindex) {
            Some(series) => narrow_samples(series_to_samples(series), traffic_type),
            None => {
                let r: Vec<HistorySample> = Vec::new();
                assert(r@ =~= samples_of_type(samples(Seq::empty()), traffic_type));
                r
            },
        }
    }

    /// The recent samples of a device, summed over the interfaces that it is behind, or of one
    /// interface, narrowed to the IP family asked for. The direction does not narrow them.
    pub fn query_device(
        &self,
        ifindex: Option<u32>,
        mac: &str,
        traffic_type: HistoryTrafficType,
        _direction: HistoryDirection,
    ) -> (r: Vec<HistorySample>)
        ensures
            r@ == samples_of_type(
                sums_by_time(named_points(self@.devices, ifindex, mac@)),
                traffic_type,
            ),
    {
        let t = &self.device_series;
        let mut points: Vec<HistoryPoint> = Vec::new();
        assert(t@.take(0) =~= Seq::<((u32, Seq<char>), Seq<HistoryPoint>)>::empty());
        let n: usize = t.len();
        for i in 0..n
            invariant
                n == t@.len(),
                points@ == named_points(t@.take(i as int), ifindex, mac@),
        {
            assert(t@.take(i + 1).drop_last() =~= t@.take(i as int));
            let k = t.key_at(i);
            let here = match ifindex {
                Some(x) => k.ifindex == x,
                None => true,
            };
            if here && text::eq_ignore_ascii_case(k.mac.as_str(), mac) {
                append_all(&mut points, t.value_at(i));
            }
        }
        assert(t@.take(t@.len() as int) =~= t@);
        narrow_samples(sum_by_time(&points), traffic_type)
    }
}

fn append_all(v: &mut Vec<HistoryPoint>, q: &VecDeque<HistoryPoint>)
    ensures
        final(v)@ == old(v)@ + q@,
{
    let ghost before = v@;
    for i in 0..q.len()
        invariant
            v@ =~= before + q@.take(i as int),
    {
        v.push(q[i]);
    }
}

/// No series holds more samples than the window has room for.
pub open spec fn within_window<A>(s: Seq<(A, Seq<HistoryPoint>)>, n: usize) -> bool {
    forall|i: int| 0 <= i < s.len() ==> (#[trigger] s[i]).1.len() <= n
}

proof fn lemma_appended_window<A>(s: Seq<(A, Seq<HistoryPoint>)>, k: A, p: HistoryPoint, n: usize)
    requires
        within_window(s, n),
    ensures
        within_window(appended(s, k, p, n), n),
{
    let t = appended(s, k, p, n);
    assert forall|i: int| 0 <= i < t.len() implies (#[trigger] t[i]).1.len() <= n by {
        if table::has_key(s, k) {
            assert(table::is_place(s, k, table::place_of(s, k)));
            if i != table::place_of(s, k) {
                assert(s[i].1.len() <= n);
            }
        } else if i < s.len() {
            assert(s[i].1.len() <= n);
        }
    }
}

/// No interface has more samples than the window has room for.
pub open spec fn ifaces_within_window(m: Map<u32, Seq<HistoryPoint>>, n: usize) -> bool {
    forall|k: u32| #[trigger] m.contains_key(k) ==> m[k].len() <= n
}

/// Taking in a snapshot keeps every series within the window.
pub proof fn lemma_snapshot_window(h: HistoryView, s: SnapshotView)
    requires
        ifaces_within_window(h.ifaces, h.window_points),
        within_window(h.devices, h.window_points),
    ensures
        ifaces_within_window(snapshot_appended(h, s).ifaces, h.window_points),
        within_window(snapshot_appended(h, s).devices, h.window_points),
{
    lemma_ifaces_window(h.ifaces, s.interfaces, s.timestamp_ms, h.window_points);
    lemma_devices_window(h.devices, s.devices, s.timestamp_ms, h.window_points);
}

proof fn lemma_ifaces_window(
    m: Map<u32, Seq<HistoryPoint>>,
    items: Seq<InterfaceView>,
    ts_ms: u64,
    n: usize,
)
    requires
        ifaces_within_window(m, n),
    ensures
        ifaces_within_window(ifaces_appended(m, items, ts_ms, n), n),
    decreases items.len(),
{
    if items.len() > 0 {
        lemma_ifaces_window(m, items.drop_last(), ts_ms, n);
        let rest = ifaces_appended(m, items.drop_last(), ts_ms, n);
        assert forall|k: u32| #[trigger]
            ifaces_appended(m, items, ts_ms, n).contains_key(k) implies ifaces_appended(
            m,
            items,
            ts_ms,
            n,
        )[k].len() <= n by {
            if k != items.last().ifindex {
                assert(rest.contains_key(k));
            }
        }
    }
}

proof fn lemma_devices_window(
    s: Seq<((u32, Seq<char>), Seq<HistoryPoint>)>,
    items: Seq<DeviceView>,
    ts_ms: u64,
    n: usize,
)
    requires
        within_window(s, n),
    ensures
        within_window(devices_appended(s, items, ts_ms, n), n),
    decreases items.len(),
{
    if items.len() > 0 {
        lemma_devices_window(s, items.drop_last(), ts_ms, n);
        lemma_appended_window(
            devices_appended(s, items.drop_last(), ts_ms, n),
            (items.last().ifindex, items.last().mac),
            device_point(ts_ms, items.last()),
            n,
        );
    }
}

/// The sample of an interface that was taken in last is the last one that a query of it shows, and
/// the other interfaces show what they did before.
pub proof fn lemma_iface_appended_shown(
    m: Map<u32, Seq<HistoryPoint>>,
    ifindex: u32,
    p: HistoryPoint,
    n: usize,
    other: u32,
)
    requires
        n > 0,
    ensures
        ({
            let shown = samples(points_under(iface_appended(m, ifindex, p, n), ifindex));
            shown.len() > 0 && shown.last() == sample_of(p.ts_ms, p.metrics, p.cumulative)
        }),
        other != ifindex ==> points_under(iface_appended(m, ifindex, p, n), other) == points_under(
            m,
            other,
        ),
{
    let q = lists::kept_last(points_under(m, ifindex).push(p), n as nat);
    assert(q.last() == p);
}

/// The sample that was taken in last is the last one of its series, and the other series hold what
/// they did before.
pub proof fn lemma_appended_shown<A>(
    s: Seq<(A, Seq<HistoryPoint>)>,
    k: A,
    p: HistoryPoint,
    n: usize,
    other: A,
)
    requires
        n > 0,
    ensures
        ({
            let shown = samples(table::lookup_or(appended(s, k, p, n), k, Seq::empty()));
            shown.len() > 0 && shown.last() == sample_of(p.ts_ms, p.metrics, p.cumulative)
        }),
        other != k ==> table::lookup(appended(s, k, p, n), other) == table::lookup(s, other),
{
    let q = lists::kept_last(table::lookup_or(s, k, Seq::empty()).push(p), n as nat);
    table::lemma_lookup_assigned(s, k, q, k);
    table::lemma_lookup_assigned(s, k, q, other);
    assert(q.last() == p);
}

/// The samples of a device come out strictly one after another, and a time is among them exactly
/// where some sample was taken then.
pub proof fn lemma_sums_in_order(s: Seq<HistoryPoint>)
    ensures
        forall|i: int, j: int|
            0 <= i < j < sums_by_time(s).len() ==> (#[trigger] sums_by_time(s)[i]).ts_ms < (
            #[trigger] sums_by_time(s)[j]).ts_ms,
        forall|t: u64|
            times_of(s).contains(t) <==> exists|i: int|
                0 <= i < sums_by_time(s).len() && (#[trigger] sums_by_time(s)[i]).ts_ms == t,
{
    let times = lists::ascending_once(times_of(s));
    let out = sums_by_time(s);
    lists::lemma_ascending_once(times_of(s));
    assert forall|i: int, j: int| 0 <= i < j < out.len() implies (#[trigger] out[i]).ts_ms < (
    #[trigger] out[j]).ts_ms by {
        assert(times[i] < times[j]);
    }
    assert forall|t: u64| times_of(s).contains(t) <==> exists|i: int|
        0 <= i < out.len() && (#[trigger] out[i]).ts_ms == t by {
        if times_of(s).contains(t) {
            assert(times.contains(t));
            let n = choose|n: int| 0 <= n < times.len() && times[n] == t;
            assert(out[n].ts_ms == t);
        }
        if exists|i: int| 0 <= i < out.len() && (#[trigger] out[i]).ts_ms == t {
            let n = choose|n: int| 0 <= n < out.len() && (#[trigger] out[n]).ts_ms == t;
            assert(times[n] == t);
            assert(times.contains(t));
        }
    }
}

/// A device that was removed has no samples left behind its interface, whatever case its address is
/// written in.
pub proof fn lemma_removed_samples_gone(
    h: HistoryView,
    ifindex: u32,
    mac: Seq<char>,
    asked: Seq<char>,
)
    requires
        text::same_ignoring_case(mac, asked),
    ensures
        sums_by_time(
            named_points(
                table::without(h.devices, histogram::device_test(ifindex, mac)),
                Some(ifindex),
                asked,
            ),
        ) == Seq::<HistorySample>::empty(),
{
    lemma_none_named(h.devices, ifindex, mac, asked);
    lemma_sums_in_order(Seq::empty());
    let out = sums_by_time(Seq::empty());
    if out.len() > 0 {
        assert(exists|i: int| 0 <= i < out.len() && (#[trigger] out[i]).ts_ms == out[0].ts_ms);
        assert(times_of(Seq::empty()).contains(out[0].ts_ms));
    }
    assert(out =~= Seq::<HistorySample>::empty());
}

proof fn lemma_none_named(
    s: Seq<((u32, Seq<char>), Seq<HistoryPoint>)>,
    ifindex: u32,
    mac: Seq<char>,
    asked: Seq<char>,
)
    requires
        text::same_ignoring_case(mac, asked),
    ensures
        named_points(
            table::without(s, histogram::device_test(ifindex, mac)),
            Some(ifindex),
            asked,
        ) == Seq::<HistoryPoint>::empty(),
    decreases s.len(),
{
    let p = histogram::device_test(ifindex, mac);
    if s.len() > 0 {
        lemma_none_named(s.drop_last(), ifindex, mac, asked);
        let rest = table::without(s.drop_last(), p);
        if !p(s.last().0) {
            text::lemma_same_case_alike(s.last().0.1, mac, asked);
            assert(rest.push(s.last()).drop_last() =~= rest);
        }
    }
}

/// Removing a device leaves the samples of every query that does not name it.
pub proof fn lemma_removed_samples_others(
    s: Seq<((u32, Seq<char>), Seq<HistoryPoint>)>,
    ifindex: u32,
    mac: Seq<char>,
    other_ifindex: Option<u32>,
    other: Seq<char>,
)
    requires
        other_ifindex is Some && other_ifindex != Some(ifindex) || !text::same_ignoring_case(
            mac,
            other,
        ),
    ensures
        named_points(
            table::without(s, histogram::device_test(ifindex, mac)),
            other_ifindex,
            other,
        ) == named_points(s, other_ifindex, other),
    decreases s.len(),
{
    let p = histogram::device_test(ifindex, mac);
    if s.len() > 0 {
        lemma_removed_samples_others(s.drop_last(), ifindex, mac, other_ifindex, other);
        let rest = table::without(s.drop_last(), p);
        if p(s.last().0) {
            if text::same_ignoring_case(s.last().0.1, other) {
                text::lemma_same_case_chain(s.last().0.1, mac, other);
            }
        } else {
            assert(rest.push(s.last()).drop_last() =~= rest);
        }
    }
}

} // verus!
