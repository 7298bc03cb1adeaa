//! Hourly and daily traffic of interfaces and devices.

use std::collections::HashMap;

use vstd::prelude::*;

use crate::calendar;
use crate::calendar::Calendar;
use crate::calendar::Lookups;
use crate::counters;
use crate::counters::AggregateBucket;
use crate::counters::AggregatedBucket;
use crate::counters::BucketAccum;
use crate::counters::CounterQuad;
use crate::counters::CurrentHourPointState;
use crate::counters::HistoryPoint;
use crate::hours;
use crate::hours::HourSeries;
use crate::hours::SeriesView;
use crate::lists;
use crate::mac;
use crate::snapshot::CompletedAggregate;
use crate::snapshot::CompletedView;
use crate::snapshot::DeviceListItem;
use crate::snapshot::DeviceView;
use crate::snapshot::InterfaceOverviewItem;
use crate::snapshot::InterfaceView;
use crate::snapshot::SnapshotData;
use crate::snapshot::SnapshotView;
use crate::sorting;
use crate::sorting::Ranked;
use crate::table;
use crate::table::Table;
use crate::table::TableKey;
use crate::text;

verus! {

/// A device behind an interface, by the text of its address.
#[derive(Debug, Clone)]
pub struct DeviceSeriesKey {
    pub ifindex: u32,
    pub mac: String,
}

impl View for DeviceSeriesKey {
    type V = (u32, Seq<char>);

    open spec fn view(&self) -> (u32, Seq<char>) {
        (self.ifindex, self.mac@)
    }
}

impl TableKey for DeviceSeriesKey {
    fn same(&self, other: &DeviceSeriesKey) -> (r: bool) {
        self.ifindex == other.ifindex && self.mac == other.mac
    }

    fn copied(&self) -> (r: DeviceSeriesKey) {
        DeviceSeriesKey { ifindex: self.ifindex, mac: self.mac.clone() }
    }
}

/// A device behind an interface, by its address.
impl TableKey for (u32, [u8; 6]) {
    fn same(&self, other: &(u32, [u8; 6])) -> (r: bool) {
        let a = &self.1;
        let b = &other.1;
        let r = self.0 == other.0 && a[0] == b[0] && a[1] == b[1] && a[2] == b[2] && a[3] == b[3]
            && a[4] == b[4] && a[5] == b[5];
        assert(r ==> a@ =~= b@);
        r
    }

    fn copied(&self) -> (r: (u32, [u8; 6])) {
        *self
    }
}

/// Whether a key is the device with this address behind this interface, ignoring case.
pub open spec fn names_device(k: (u32, Seq<char>), ifindex: u32, mac: Seq<char>) -> bool {
    k.0 == ifindex && text::same_ignoring_case(k.1, mac)
}

/// The test for one device, as a function of keys.
pub open spec fn device_test(ifindex: u32, mac: Seq<char>) -> spec_fn((u32, Seq<char>)) -> bool {
    |k: (u32, Seq<char>)| names_device(k, ifindex, mac)
}

/// The hours of interfaces and of devices.
#[verifier::ext_equal]
pub struct HistogramView {
    pub ifaces: SeriesView<u32>,
    pub devices: SeriesView<(u32, Seq<char>)>,
}

/// The interfaces after the samples of a snapshot have been taken in, one after another.
pub open spec fn ifaces_ingested(
    s: SeriesView<u32>,
    items: Seq<InterfaceView>,
    ts_ms: u64,
    cal: Lookups,
) -> SeriesView<u32>
    decreases items.len(),
{
    if items.len() == 0 {
        s
    } else {
        hours::ingested(
            ifaces_ingested(s, items.drop_last(), ts_ms, cal),
            items.last().ifindex,
            ts_ms,
            items.last().metrics,
            cal,
        )
    }
}

/// The buckets that the interfaces of a snapshot close, in their order.
pub open spec fn ifaces_closed(
    s: SeriesView<u32>,
    items: Seq<InterfaceView>,
    ts_ms: u64,
    cal: Lookups,
) -> Seq<CompletedView>
    decreases items.len(),
{
    if items.len() == 0 {
        Seq::empty()
    } else {
        let before = ifaces_ingested(s, items.drop_last(), ts_ms, cal);
        let rest = ifaces_closed(s, items.drop_last(), ts_ms, cal);
        match hours::closed_by(before, items.last().ifindex, ts_ms, items.last().metrics, cal) {
            Some(bucket) => rest.push(
                CompletedView::Iface { iface: items.last().ifname, bucket },
            ),
            None => rest,
        }
    }
}

/// The devices after the samples of a snapshot have been taken in, one after another.
pub open spec fn devices_ingested(
    s: SeriesView<(u32, Seq<char>)>,
    items: Seq<DeviceView>,
    ts_ms: u64,
    cal: Lookups,
) -> SeriesView<(u32, Seq<char>)>
    decreases items.len(),
{
    if items.len() == 0 {
        s
    } else {
        hours::ingested(
            devices_ingested(s, items.drop_last(), ts_ms, cal),
            (items.last().ifindex, items.last().mac),
            ts_ms,
            items.last().metrics,
            cal,
        )
    }
}

/// The buckets that the devices of a snapshot close, in their order.
pub open spec fn devices_closed(
    s: SeriesView<(u32, Seq<char>)>,
    items: Seq<DeviceView>,
    ts_ms: u64,
    cal: Lookups,
) -> Seq<CompletedView>
    decreases items.len(),
{
    if items.len() == 0 {
        Seq::empty()
    } else {
        let before = devices_ingested(s, items.drop_last(), ts_ms, cal);
        let rest = devices_closed(s, items.drop_last(), ts_ms, cal);
        let d = items.last();
        match hours::closed_by(before, (d.ifindex, d.mac), ts_ms, d.metrics, cal) {
            Some(bucket) => rest.push(
                CompletedView::Device { iface: d.logical_iface, mac: d.mac, bucket },
            ),
            None => rest,
        }
    }
}

/// The histogram after a snapshot has been taken in.
pub open spec fn snapshot_ingested(
    h: HistogramView,
    s: SnapshotView,
    cal: Lookups,
) -> HistogramView {
    HistogramView {
        ifaces: ifaces_ingested(h.ifaces, s.interfaces, s.timestamp_ms, cal),
        devices: devices_ingested(h.devices, s.devices, s.timestamp_ms, cal),
    }
}

/// The buckets that a snapshot closes: those of interfaces, followed by those of devices.
pub open spec fn snapshot_closed(
    h: HistogramView,
    s: SnapshotView,
    cal: Lookups,
) -> Seq<CompletedView> {
    ifaces_closed(h.ifaces, s.interfaces, s.timestamp_ms, cal) + devices_closed(
        h.devices,
        s.devices,
        s.timestamp_ms,
        cal,
    )
}

/// Whether the calendar answers for every open hour.
pub open spec fn covers_histogram(cal: Lookups, h: HistogramView) -> bool {
    hours::covers_open(cal, h.ifaces.current) && hours::covers_open(cal, h.devices.current)
}

/// Whether some bucket begins at a time.
pub open spec fn begins_at(q: Seq<AggregatedBucket>, start_ts_ms: u64) -> bool {
    exists|i: int| 0 <= i < q.len() && (#[trigger] q[i]).start_ts_ms == start_ts_ms
}

/// The day of each bucket.
pub open spec fn days_of(h: Seq<AggregatedBucket>, cal: Lookups) -> Seq<u64> {
    Seq::new(h.len(), |i: int| calendar::day_at(cal, h[i].start_ts_ms).0)
}

/// The test for one day, as a function of buckets.
pub open spec fn day_test(cal: Lookups, day: u64) -> spec_fn(AggregatedBucket) -> bool {
    |b: AggregatedBucket| calendar::day_at(cal, b.start_ts_ms).0 == day
}

/// The buckets of one day.
pub open spec fn of_day(
    h: Seq<AggregatedBucket>,
    cal: Lookups,
    day: u64,
) -> Seq<AggregatedBucket> {
    lists::picked(h, day_test(cal, day))
}

/// The bucket of one day, which ends where the day of its first hour does.
pub open spec fn day_bucket(h: Seq<AggregatedBucket>, cal: Lookups, day: u64) -> AggregatedBucket {
    let parts = of_day(h, cal, day);
    counters::merged_bucket(day, calendar::day_at(cal, parts[0].start_ts_ms).1, parts)
}

/// Hourly buckets gathered into daily ones, in order.
pub open spec fn daily(h: Seq<AggregatedBucket>, cal: Lookups) -> Seq<AggregatedBucket> {
    let days = lists::ascending_once(days_of(h, cal));
    Seq::new(days.len(), |i: int| day_bucket(h, cal, days[i]))
}

/// The key under which a device is found: among the closed hours, else among the open ones.
pub open spec fn device_key(
    s: SeriesView<(u32, Seq<char>)>,
    ifindex: u32,
    mac: Seq<char>,
) -> Option<(u32, Seq<char>)> {
    match table::first_key(s.completed, device_test(ifindex, mac)) {
        Some(k) => Some(k),
        None => table::first_key(s.current, device_test(ifindex, mac)),
    }
}

/// The hours that a query asks for: those of a device where a text that is not blank names one, else
/// those of the interface.
pub open spec fn queried_hours(
    h: HistogramView,
    ifindex: u32,
    mac: Option<Seq<char>>,
    start_ms: u64,
    end_ms: u64,
    cal: Lookups,
) -> Seq<AggregatedBucket> {
    if mac is Some && text::trimmed(mac.unwrap()).len() > 0 {
        match device_key(h.devices, ifindex, mac.unwrap()) {
            Some(k) => hours::hourly(h.devices, k, start_ms, end_ms, cal),
            None => Seq::empty(),
        }
    } else {
        hours::hourly(h.ifaces, ifindex, start_ms, end_ms, cal)
    }
}

/// The buckets that a query asks for.
pub open spec fn aggregate(
    h: HistogramView,
    ifindex: u32,
    mac: Option<Seq<char>>,
    start_ms: u64,
    end_ms: u64,
    bucket: AggregateBucket,
    cal: Lookups,
) -> Seq<AggregatedBucket> {
    let found = queried_hours(h, ifindex, mac, start_ms, end_ms, cal);
    match bucket {
        AggregateBucket::Hourly => found,
        AggregateBucket::Daily => daily(found, cal),
    }
}

/// The characters of a text that may be missing.
pub open spec fn opt_str(s: Option<&str>) -> Option<Seq<char>> {
    match s {
        Some(t) => Some(t@),
        None => None,
    }
}

/// Whether a calendar answers for the days of some buckets.
pub open spec fn covers_days(cal: Lookups, h: Seq<AggregatedBucket>) -> bool {
    forall|i: int| 0 <= i < h.len() ==> cal.days.contains_key((#[trigger] h[i]).start_ts_ms)
}

/// Hourly buckets gathered into daily ones, by the days of a calendar.
pub fn merge_hourly_within(hourly: &[AggregatedBucket], cal: &Calendar) -> (r: Vec<AggregatedBucket>)
    ensures
        r@ == daily(hourly@, cal@),
{
    let mut starts: Vec<u64> = Vec::new();
    for i in 0..hourly.len()
        invariant
            starts@ =~= days_of(hourly@, cal@).take(i as int),
    {
        starts.push(cal.day(hourly[i].start_ts_ms).0);
    }
    assert(starts@ =~= days_of(hourly@, cal@));
    let days = lists::sort_once(&starts);
    let mut r: Vec<AggregatedBucket> = Vec::new();
    for i in 0..days.len()
        invariant
            days@ == lists::ascending_once(days_of(hourly@, cal@)),
            r@ =~= daily(hourly@, cal@).take(i as int),
    {
        proof {
            lists::lemma_ascending_once(days_of(hourly@, cal@));
            assert(days@.contains(days@[i as int]));
        }
        let b = merge_day(hourly, cal, days[i]);
        r.push(b);
    }
    r
}

fn merge_day(hourly: &[AggregatedBucket], cal: &Calendar, day: u64) -> (r: AggregatedBucket)
    requires
        days_of(hourly@, cal@).contains(day),
    ensures
        r == day_bucket(hourly@, cal@, day),
{
    let ghost p = day_test(cal@, day);
    let mut accum = BucketAccum::new(day, 0);
    let mut any: bool = false;
    proof {
        counters::lemma_quad_total_empty();
        assert(hourly@.take(0) =~= Seq::<AggregatedBucket>::empty());
        assert(counters::bytes_of(Seq::<AggregatedBucket>::empty()) =~= Seq::<
            CounterQuad,
        >::empty());
    }
    for i in 0..hourly.len()
        invariant
            p == day_test(cal@, day),
            any == (lists::picked(hourly@.take(i as int), p).len() > 0),
            accum.start_ts_ms == day,
            any ==> accum.end_ts_ms == calendar::day_at(
                cal@,
                lists::picked(hourly@.take(i as int), p)[0].start_ts_ms,
            ).1,
            holds_parts(accum, lists::picked(hourly@.take(i as int), p)),
    {
        let ghost h = hourly@.take(i as int);
        let b = hourly[i];
        proof {
            assert(hourly@.take(i + 1) =~= h.push(b));
            lists::lemma_picked_push(h, b, p);
        }
        let w = cal.day(b.start_ts_ms);
        if w.0 == day {
            if !any {
                accum.end_ts_ms = w.1;
                any = true;
            }
            proof {
                lemma_parts_push(lists::picked(h, p), b);
            }
            accum.add_bucket(&b);
        }
    }
    proof {
        assert(hourly@.take(hourly@.len() as int) =~= hourly@);
        let n = choose|n: int| 0 <= n < hourly@.len() && days_of(hourly@, cal@)[n] == day;
        lists::lemma_picked_complete(hourly@, p, n);
    }
    counters::bucket_accum_to_aggregated(accum)
}

/// Whether an accumulator is filled with these buckets.
spec fn holds_parts(a: BucketAccum, parts: Seq<AggregatedBucket>) -> bool {
    a.holds(
        counters::quad_total(counters::bytes_of(parts)),
        counters::up_v4_rates(parts),
        counters::down_v4_rates(parts),
        counters::up_v6_rates(parts),
        counters::down_v6_rates(parts),
    )
}

proof fn lemma_parts_push(s: Seq<AggregatedBucket>, b: AggregatedBucket)
    ensures
        counters::quad_total(counters::bytes_of(s.push(b))) == counters::quad_sum(
            counters::quad_total(counters::bytes_of(s)),
            counters::bucket_bytes(b),
        ),
        counters::up_v4_rates(s.push(b)) == counters::up_v4_rates(s) + seq![
            b.up_v4_bps_avg,
            b.up_v4_bps_max,
            b.up_v4_bps_min,
            b.up_v4_bps_p95,
        ],
        counters::down_v4_rates(s.push(b)) == counters::down_v4_rates(s) + seq![
            b.down_v4_bps_avg,
            b.down_v4_bps_max,
            b.down_v4_bps_min,
            b.down_v4_bps_p95,
        ],
        counters::up_v6_rates(s.push(b)) == counters::up_v6_rates(s) + seq![
            b.up_v6_bps_avg,
            b.up_v6_bps_max,
            b.up_v6_bps_min,
            b.up_v6_bps_p95,
        ],
        counters::down_v6_rates(s.push(b)) == counters::down_v6_rates(s) + seq![
            b.down_v6_bps_avg,
            b.down_v6_bps_max,
            b.down_v6_bps_min,
            b.down_v6_bps_p95,
        ],
{
    assert(s.push(b).drop_last() =~= s);
    assert(counters::bytes_of(s.push(b)) =~= counters::bytes_of(s).push(
        counters::bucket_bytes(b),
    ));
    counters::lemma_quad_total_push(counters::bytes_of(s), counters::bucket_bytes(b));
}

/// Looks up the days of some buckets.
pub fn look_up_days(hourly: &[AggregatedBucket], cal: &mut Calendar)
    ensures
        covers_days(final(cal)@, hourly@),
        calendar::extends(old(cal)@, final(cal)@),
        final(cal)@.hours == old(cal)@.hours,
        calendar::is_local(old(cal)@) ==> calendar::is_local(final(cal)@),
{
    let ghost first = cal@;
    for i in 0..hourly.len()
        invariant
            calendar::extends(first, cal@),
            cal@.hours == first.hours,
            calendar::is_local(first) ==> calendar::is_local(cal@),
            forall|j: int|
                0 <= j < i ==> cal@.days.contains_key((#[trigger] hourly@[j]).start_ts_ms),
    {
        let _ = cal.look_up_day(hourly[i].start_ts_ms);
    }
}

/// Hourly buckets gathered into those of local days.
pub fn merge_hourly_to_daily(hourly: &[AggregatedBucket]) -> (r: Vec<AggregatedBucket>)
    ensures
        exists|cal: Lookups| #[trigger]
            calendar::is_local(cal) && covers_days(cal, hourly@) && r@ == daily(hourly@, cal),
{
    let mut cal = Calendar::new();
    look_up_days(hourly, &mut cal);
    let r = merge_hourly_within(hourly, &cal);
    assert(calendar::is_local(cal@) && covers_days(cal@, hourly@) && r@ == daily(hourly@, cal@));
    r
}

fn save_points(v: &Vec<HistoryPoint>) -> (r: Vec<CurrentHourPointState>)
    ensures
        r@ == hours::saved_points(v@),
{
    let mut r: Vec<CurrentHourPointState> = Vec::new();
    for i in 0..v.len()
        invariant
            r@ =~= hours::saved_points(v@).take(i as int),
    {
        r.push(CurrentHourPointState { ts_ms: v[i].ts_ms, metrics: v[i].metrics });
    }
    r
}

/// The open hour of an interface, as it is saved.
#[derive(Debug, Clone)]
pub struct CurrentHourIfaceState {
    pub ifindex: u32,
    pub hour_start_ts_ms: u64,
    pub points: Vec<CurrentHourPointState>,
}

/// The open hour of an interface, with the samples as a sequence.
#[verifier::ext_equal]
pub struct IfaceHourView {
    pub ifindex: u32,
    pub hour_start_ts_ms: u64,
    pub points: Seq<CurrentHourPointState>,
}

impl View for CurrentHourIfaceState {
    type V = IfaceHourView;

    open spec fn view(&self) -> IfaceHourView {
        IfaceHourView {
            ifindex: self.ifindex,
            hour_start_ts_ms: self.hour_start_ts_ms,
            points: self.points@,
        }
    }
}

/// Saved interfaces are put in order by their index.
impl Ranked for CurrentHourIfaceState {
    open spec fn rank(a: IfaceHourView, b: IfaceHourView) -> int {
        u32::rank(a.ifindex, b.ifindex)
    }

    fn ranked_against(&self, other: &CurrentHourIfaceState) -> (r: i8) {
        self.ifindex.ranked_against(&other.ifindex)
    }

    proof fn law_flip(a: IfaceHourView, b: IfaceHourView) {
    }

    proof fn law_chain(a: IfaceHourView, b: IfaceHourView, c: IfaceHourView) {
    }
}

/// The open hour of a device, as it is saved.
#[derive(Debug, Clone)]
pub struct CurrentHourDeviceState {
    pub ifindex: u32,
    pub mac: String,
    pub hour_start_ts_ms: u64,
    pub points: Vec<CurrentHourPointState>,
}

/// The open hour of a device, with the samples as a sequence.
#[verifier::ext_equal]
pub struct DeviceHourView {
    pub ifindex: u32,
    pub mac: Seq<char>,
    pub hour_start_ts_ms: u64,
    pub points: Seq<CurrentHourPointState>,
}

impl View for CurrentHourDeviceState {
    type V = DeviceHourView;

    open spec fn view(&self) -> DeviceHourView {
        DeviceHourView {
            ifindex: self.ifindex,
            mac: self.mac@,
            hour_start_ts_ms: self.hour_start_ts_ms,
            points: self.points@,
        }
    }
}

/// Saved devices are put in order by their interface and by the text of their address.
impl Ranked for CurrentHourDeviceState {
    open spec fn rank(a: DeviceHourView, b: DeviceHourView) -> int {
        if a.ifindex != b.ifindex {
            u32::rank(a.ifindex, b.ifindex)
        } else {
            text::text_rank(a.mac, b.mac)
        }
    }

    fn ranked_against(&self, other: &CurrentHourDeviceState) -> (r: i8) {
        if self.ifindex != other.ifindex {
            self.ifindex.ranked_against(&other.ifindex)
        } else {
            text::rank_texts(self.mac.as_str(), other.mac.as_str())
        }
    }

    proof fn law_flip(a: DeviceHourView, b: DeviceHourView) {
        text::lemma_text_rank(a.mac, b.mac);
    }

    proof fn law_chain(a: DeviceHourView, b: DeviceHourView, c: DeviceHourView) {
        if a.ifindex == b.ifindex && b.ifindex == c.ifindex {
            text::lemma_text_rank_chain(a.mac, b.mac, c.mac);
        }
    }
}

/// The open hours, as they are saved.
#[derive(Debug, Clone)]
pub struct CurrentHourState {
    pub iface: Vec<CurrentHourIfaceState>,
    pub device: Vec<CurrentHourDeviceState>,
}

impl Default for CurrentHourState {
    fn default() -> (r: CurrentHourState)
        ensures
            r.iface@ == Seq::<CurrentHourIfaceState>::empty(),
            r.device@ == Seq::<CurrentHourDeviceState>::empty(),
    {
        CurrentHourState { iface: Vec::new(), device: Vec::new() }
    }
}

/// The open hours of interfaces that hold samples.
pub open spec fn saved_ifaces(s: Seq<(u32, (u64, Seq<HistoryPoint>))>) -> Seq<IfaceHourView>
    decreases s.len(),
{
    if s.len() == 0 {
        Seq::empty()
    } else {
        let rest = saved_ifaces(s.drop_last());
        let e = s.last();
        if e.1.1.len() == 0 {
            rest
        } else {
            rest.push(
                IfaceHourView {
                    ifindex: e.0,
                    hour_start_ts_ms: e.1.0,
                    points: hours::saved_points(e.1.1),
                },
            )
        }
    }
}

/// The open hours of devices that hold samples.
pub open spec fn saved_devices(
    s: Seq<((u32, Seq<char>), (u64, Seq<HistoryPoint>))>,
) -> Seq<DeviceHourView>
    decreases s.len(),
{
    if s.len() == 0 {
        Seq::empty()
    } else {
        let rest = saved_devices(s.drop_last());
        let e = s.last();
        if e.1.1.len() == 0 {
            rest
        } else {
            rest.push(
                DeviceHourView {
                    ifindex: e.0.0,
                    mac: e.0.1,
                    hour_start_ts_ms: e.1.0,
                    points: hours::saved_points(e.1.1),
                },
            )
        }
    }
}

/// The bytes of some samples, with no rates.
pub open spec fn hour_bytes(points: Seq<HistoryPoint>) -> CounterQuad {
    counters::bucket_bytes(counters::points_bucket(0, 0, points))
}

/// The bytes of the closed hours of each interface.
pub open spec fn closed_iface_totals(
    s: Seq<(u32, Seq<AggregatedBucket>)>,
) -> Map<u32, CounterQuad>
    decreases s.len(),
{
    if s.len() == 0 {
        Map::empty()
    } else {
        closed_iface_totals(s.drop_last()).insert(
            s.last().0,
            counters::quad_total(counters::bytes_of(s.last().1)),
        )
    }
}

/// The bytes of the closed hours of each device whose address can be read.
pub open spec fn closed_device_totals(
    s: Seq<((u32, Seq<char>), Seq<AggregatedBucket>)>,
) -> Seq<((u32, Seq<u8>), CounterQuad)>
    decreases s.len(),
{
    if s.len() == 0 {
        Seq::empty()
    } else {
        let rest = closed_device_totals(s.drop_last());
        match mac::mac_of(s.last().0.1) {
            Some(m) => table::assigned(
                rest,
                (s.last().0.0, m),
                counters::quad_total(counters::bytes_of(s.last().1)),
            ),
            None => rest,
        }
    }
}

/// Totals under keys, with some bytes added under one of them.
pub open spec fn added_under<A>(
    totals: Seq<(A, CounterQuad)>,
    k: A,
    bytes: CounterQuad,
) -> Seq<(A, CounterQuad)> {
    table::assigned(
        totals,
        k,
        counters::quad_sum(table::lookup_or(totals, k, counters::zero_quad()), bytes),
    )
}

/// Totals of interfaces with the bytes of their open hours added.
pub open spec fn with_open_ifaces(
    totals: Map<u32, CounterQuad>,
    s: Seq<(u32, (u64, Seq<HistoryPoint>))>,
) -> Map<u32, CounterQuad>
    decreases s.len(),
{
    if s.len() == 0 {
        totals
    } else {
        let rest = with_open_ifaces(totals, s.drop_last());
        let k = s.last().0;
        if s.last().1.1.len() == 0 {
            rest
        } else {
            rest.insert(
                k,
                counters::quad_sum(counters::quad_under(rest, k), hour_bytes(s.last().1.1)),
            )
        }
    }
}

/// Totals of devices with the bytes of their open hours added.
pub open spec fn with_open_devices(
    totals: Seq<((u32, Seq<u8>), CounterQuad)>,
    s: Seq<((u32, Seq<char>), (u64, Seq<HistoryPoint>))>,
) -> Seq<((u32, Seq<u8>), CounterQuad)>
    decreases s.len(),
{
    if s.len() == 0 {
        totals
    } else {
        let rest = with_open_devices(totals, s.drop_last());
        if s.last().1.1.len() == 0 {
            rest
        } else {
            match mac::mac_of(s.last().0.1) {
                Some(m) => added_under(rest, (s.last().0.0, m), hour_bytes(s.last().1.1)),
                None => rest,
            }
        }
    }
}

/// Adds bytes to the total under a key.
fn add_under<K: TableKey>(totals: &mut Table<K, CounterQuad>, k: K, bucket: &AggregatedBucket)
    ensures
        final(totals)@ == added_under(old(totals)@, k@, counters::bucket_bytes(*bucket)),
        old(totals).wf() ==> final(totals).wf(),
{
    let mut sum = match totals.get(&k) {
        Some(q) => *q,
        None => CounterQuad::default(),
    };
    counters::add_bucket_bytes(&mut sum, bucket);
    totals.insert(k, sum);
}

fn ring_bytes(q: &std::collections::VecDeque<AggregatedBucket>) -> (r: CounterQuad)
    ensures
        r == counters::quad_total(counters::bytes_of(q@)),
{
    let mut r = CounterQuad::default();
    proof {
        counters::lemma_quad_total_empty();
        assert(counters::bytes_of(q@.take(0)) =~= Seq::<CounterQuad>::empty());
    }
    for i in 0..q.len()
        invariant
            r == counters::quad_total(counters::bytes_of(q@.take(i as int))),
    {
        proof {
            let s = counters::bytes_of(q@.take(i as int));
            counters::lemma_quad_total_push(s, counters::bucket_bytes(q@[i as int]));
            assert(counters::bytes_of(q@.take(i + 1)) =~= s.push(
                counters::bucket_bytes(q@[i as int]),
            ));
        }
        counters::add_bucket_bytes(&mut r, &q[i]);
    }
    assert(q@.take(q@.len() as int) =~= q@);
    r
}

fn ring_begins_at(
    q: &std::collections::VecDeque<AggregatedBucket>,
    start_ts_ms: u64,
) -> (r: bool)
    ensures
        r == begins_at(q@, start_ts_ms),
{
    for i in 0..q.len()
        invariant
            forall|j: int| 0 <= j < i ==> (#[trigger] q@[j]).start_ts_ms != start_ts_ms,
    {
        if q[i].start_ts_ms == start_ts_ms {
            assert(q@[i as int].start_ts_ms == start_ts_ms);
            return true;
        }
    }
    false
}

/// The open and closed hours of interfaces and devices.
#[derive(Debug)]
pub struct HistogramHistory {
    ifaces: HourSeries<u32>,
    devices: HourSeries<DeviceSeriesKey>,
}

impl View for HistogramHistory {
    type V = HistogramView;

    closed spec fn view(&self) -> HistogramView {
        HistogramView { ifaces: self.ifaces@, devices: self.devices@ }
    }
}

/// A histogram without hours.
pub open spec fn no_hours() -> HistogramView {
    HistogramView {
        ifaces: SeriesView { current: Seq::empty(), completed: Seq::empty() },
        devices: SeriesView { current: Seq::empty(), completed: Seq::empty() },
    }
}

impl Default for HistogramHistory {
    fn default() -> (r: HistogramHistory)
        ensures
            r@ == no_hours(),
            r.wf(),
    {
        HistogramHistory { ifaces: HourSeries::new(), devices: HourSeries::new() }
    }
}

impl HistogramHistory {
    /// No interface and no device is listed twice, and no list of closed hours is empty.
    pub open spec fn wf(&self) -> bool {
        &&& table::distinct(self@.ifaces.current)
        &&& table::distinct(self@.ifaces.completed)
        &&& table::distinct(self@.devices.current)
        &&& table::distinct(self@.devices.completed)
        &&& hours::rings_filled(self@.ifaces)
        &&& hours::rings_filled(self@.devices)
    }

    /// A histogram without hours.
    pub fn new() -> (r: Self)
        ensures
            r@ == no_hours(),
            r.wf(),
    {
        Self::default()
    }

    /// Forgets the open and closed hours of one device, ignoring case; says whether there were any.
    pub fn remove_device(&mut self, ifindex: u32, mac: &str) -> (removed: bool)
        ensures
            final(self)@ == (HistogramView {
                devices: SeriesView {
                    current: table::without(old(self)@.devices.current, device_test(ifindex, mac@)),
                    completed: table::without(
                        old(self)@.devices.completed,
                        device_test(ifindex, mac@),
                    ),
                },
                ..old(self)@
            }),
            removed == (table::some_key(old(self)@.devices.current, device_test(ifindex, mac@))
                || table::some_key(old(self)@.devices.completed, device_test(ifindex, mac@))),
            old(self).wf() ==> final(self).wf(),
    {
        let f = |k: &DeviceSeriesKey| -> (b: bool)
            ensures
                b == names_device(k@, ifindex, mac@),
            { k.ifindex == ifindex && text::eq_ignore_ascii_case(k.mac.as_str(), mac) };
        self.devices.remove_if(&f, Ghost(device_test(ifindex, mac@)))
    }

    /// Takes in a sample of an interface; gives back the bucket that it closed.
    pub fn ingest_iface(
        &mut self,
        ifindex: u32,
        ts_ms: u64,
        metrics: &CounterQuad,
        cal: &Calendar,
    ) -> (r: Option<AggregatedBucket>)
        ensures
            final(self)@ == (HistogramView {
                ifaces: hours::ingested(old(self)@.ifaces, ifindex, ts_ms, *metrics, cal@),
                ..old(self)@
            }),
            r == hours::closed_by(old(self)@.ifaces, ifindex, ts_ms, *metrics, cal@),
            old(self).wf() ==> final(self).wf(),
    {
        self.ifaces.ingest(&ifindex, ts_ms, metrics, cal)
    }

    /// Takes in a sample of a device; gives back the bucket that it closed.
    pub fn ingest_device(
        &mut self,
        key: &DeviceSeriesKey,
        ts_ms: u64,
        metrics: &CounterQuad,
        cal: &Calendar,
    ) -> (r: Option<AggregatedBucket>)
        ensures
            final(self)@ == (HistogramView {
                devices: hours::ingested(old(self)@.devices, key@, ts_ms, *metrics, cal@),
                ..old(self)@
            }),
            r == hours::closed_by(old(self)@.devices, key@, ts_ms, *metrics, cal@),
            old(self).wf() ==> final(self).wf(),
    {
        self.devices.ingest(key, ts_ms, metrics, cal)
    }

    fn ingest_interfaces(
        &mut self,
        items: &Vec<InterfaceOverviewItem>,
        ts_ms: u64,
        cal: &Calendar,
        done: &mut Vec<CompletedAggregate>,
    )
        ensures
            final(self)@ == (HistogramView {
                ifaces: ifaces_ingested(old(self)@.ifaces, sorting::views(items@), ts_ms, cal@),
                ..old(self)@
            }),
            sorting::views(final(done)@) == sorting::views(old(done)@) + ifaces_closed(
                old(self)@.ifaces,
                sorting::views(items@),
                ts_ms,
                cal@,
            ),
            old(self).wf() ==> final(self).wf(),
    {
        let ghost h = self@;
        let ghost was = self.wf();
        let ghost before = sorting::views(done@);
        let ghost all = sorting::views(items@);
        assert(all.take(0) =~= Seq::<InterfaceView>::empty());
        assert(before + ifaces_closed(h.ifaces, all.take(0), ts_ms, cal@) =~= before);
        for i in 0..items.len()
            invariant
                all == sorting::views(items@),
                self@.devices == h.devices,
                self@.ifaces == ifaces_ingested(h.ifaces, all.take(i as int), ts_ms, cal@),
                sorting::views(done@) == before + ifaces_closed(
                    h.ifaces,
                    all.take(i as int),
                    ts_ms,
                    cal@,
                ),
                was ==> self.wf(),
        {
            let item = &items[i];
            assert(all.take(i + 1).drop_last() =~= all.take(i as int));
            assert(all.take(i + 1).last() == item@);
            let ghost listed = sorting::views(done@);
            if let Some(bucket) = self.ingest_iface(item.ifindex, ts_ms, &item.metrics, cal) {
                done.push(CompletedAggregate::Iface { iface: item.ifname.clone(), bucket });
                assert(sorting::views(done@) =~= listed.push(
                    CompletedView::Iface { iface: item.ifname@, bucket },
                ));
            }
        }
        assert(all.take(all.len() as int) =~= all);
    }

    fn ingest_devices(
        &mut self,
        items: &Vec<DeviceListItem>,
        ts_ms: u64,
        cal: &Calendar,
        done: &mut Vec<CompletedAggregate>,
    )
        ensures
            final(self)@ == (HistogramView {
                devices: devices_ingested(old(self)@.devices, sorting::views(items@), ts_ms, cal@),
                ..old(self)@
            }),
            sorting::views(final(done)@) == sorting::views(old(done)@) + devices_closed(
                old(self)@.devices,
                sorting::views(items@),
                ts_ms,
                cal@,
            ),
            old(self).wf() ==> final(self).wf(),
    {
        let ghost h = self@;
        let ghost was = self.wf();
        let ghost before = sorting::views(done@);
        let ghost all = sorting::views(items@);
        assert(all.take(0) =~= Seq::<DeviceView>::empty());
        assert(before + devices_closed(h.devices, all.take(0), ts_ms, cal@) =~= before);
        for i in 0..items.len()
            invariant
                all == sorting::views(items@),
                self@.ifaces == h.ifaces,
                self@.devices == devices_ingested(h.devices, all.take(i as int), ts_ms, cal@),
                sorting::views(done@) == before + devices_closed(
                    h.devices,
                    all.take(i as int),
                    ts_ms,
                    cal@,
                ),
                was ==> self.wf(),
        {
            let item = &items[i];
            assert(all.take(i + 1).drop_last() =~= all.take(i as int));
            assert(all.take(i + 1).last() == item@);
            let ghost listed = sorting::views(done@);
            let key = DeviceSeriesKey { ifindex: item.ifindex, mac: item.mac.clone() };
            if let Some(bucket) = self.ingest_device(&key, ts_ms, &item.metrics, cal) {
                done.push(
                    CompletedAggregate::Device {
                        iface: item.logical_iface.clone(),
                        mac: item.mac.clone(),
                        bucket,
                    },
                );
                assert(sorting::views(done@) =~= listed.push(
                    CompletedView::Device { iface: item.logical_iface@, mac: item.mac@, bucket },
                ));
            }
        }
        assert(all.take(all.len() as int) =~= all);
    }

    /// Takes in a snapshot, by the hours of a calendar; gives back the buckets that it closed.
    pub fn ingest_snapshot_within(&mut self, snapshot: &SnapshotData, cal: &Calendar) -> (r: Vec<
        CompletedAggregate,
    >)
        ensures
            final(self)@ == snapshot_ingested(old(self)@, snapshot@, cal@),
            sorting::views(r@) == snapshot_closed(old(self)@, snapshot@, cal@),
            old(self).wf() ==> final(self).wf(),
    {
        let mut done: Vec<CompletedAggregate> = Vec::new();
        assert(sorting::views(done@) =~= Seq::<CompletedView>::empty());
        self.ingest_interfaces(&snapshot.interfaces, snapshot.timestamp_ms, cal, &mut done);
        self.ingest_devices(&snapshot.devices, snapshot.timestamp_ms, cal, &mut done);
        assert(sorting::views(done@) =~= snapshot_closed(old(self)@, snapshot@, cal@));
        done
    }

    /// Takes in a snapshot, by the local hours; gives back the buckets that it closed.
    pub fn ingest_snapshot_collect_completed(&mut self, snapshot: &SnapshotData) -> (r: Vec<
        CompletedAggregate,
    >)
        ensures
            exists|cal: Lookups| #[trigger]
                calendar::is_local(cal) && covers_histogram(cal, old(self)@) && hours::covers_time(
                    cal,
                    snapshot@.timestamp_ms,
                ) && final(self)@ == snapshot_ingested(old(self)@, snapshot@, cal) && sorting::views(
                    r@,
                ) == snapshot_closed(old(self)@, snapshot@, cal),
            old(self).wf() ==> final(self).wf(),
    {
        let mut cal = self.open_hours();
        let ghost before = cal@;
        hours::look_up_time(&mut cal, snapshot.timestamp_ms);
        proof {
            lemma_covers_extends(before, cal@, self@);
        }
        let r = self.ingest_snapshot_within(snapshot, &cal);
        assert(calendar::is_local(cal@));
        r
    }

    /// Takes in a snapshot, by the local hours.
    pub fn ingest_snapshot(&mut self, snapshot: &SnapshotData)
        ensures
            exists|cal: Lookups| #[trigger]
                calendar::is_local(cal) && covers_histogram(cal, old(self)@) && hours::covers_time(
                    cal,
                    snapshot@.timestamp_ms,
                ) && final(self)@ == snapshot_ingested(old(self)@, snapshot@, cal),
            old(self).wf() ==> final(self).wf(),
    {
        let _ = self.ingest_snapshot_collect_completed(snapshot);
    }

    /// A calendar of the open hours.
    pub fn open_hours(&self) -> (r: Calendar)
        ensures
            calendar::is_local(r@),
            covers_histogram(r@, self@),
    {
        let mut cal = Calendar::new();
        self.ifaces.look_up_open(&mut cal);
        let ghost before = cal@;
        self.devices.look_up_open(&mut cal);
        proof {
            hours::lemma_covers_open_extends(before, cal@, self.ifaces@.current);
        }
        cal
    }

    /// Adds a closed hour of an interface.
    pub fn restore_iface_bucket(&mut self, ifindex: u32, bucket: AggregatedBucket)
        ensures
            final(self)@ == (HistogramView {
                ifaces: hours::closed(old(self)@.ifaces, ifindex, bucket),
                ..old(self)@
            }),
            old(self).wf() ==> final(self).wf(),
    {
        self.ifaces.close(&ifindex, bucket);
    }

    /// Adds a closed hour of a device.
    pub fn restore_device_bucket(&mut self, ifindex: u32, mac: String, bucket: AggregatedBucket)
        ensures
            final(self)@ == (HistogramView {
                devices: hours::closed(old(self)@.devices, (ifindex, mac@), bucket),
                ..old(self)@
            }),
            old(self).wf() ==> final(self).wf(),
    {
        self.devices.close(&DeviceSeriesKey { ifindex, mac }, bucket);
    }

    /// Whether a closed hour of an interface begins at a time.
    pub fn has_completed_iface_bucket(&self, ifindex: u32, start_ts_ms: u64) -> (r: bool)
        ensures
            r == begins_at(
                table::lookup_or(self@.ifaces.completed, ifindex, Seq::empty()),
                start_ts_ms,
            ),
    {
        match self.ifaces.completed().get(&ifindex) {
            Some(q) => ring_begins_at(q, start_ts_ms),
            None => false,
        }
    }

    /// Whether a closed hour of a device, ignoring case, begins at a time.
    pub fn has_completed_device_bucket(&self, ifindex: u32, mac: &str, start_ts_ms: u64) -> (r: bool)
        ensures
            r == exists|i: int|
                0 <= i < self@.devices.completed.len() && names_device(
                    (#[trigger] self@.devices.completed[i]).0,
                    ifindex,
                    mac@,
                ) && begins_at(self@.devices.completed[i].1, start_ts_ms),
    {
        let t = self.devices.completed();
        let n: usize = t.len();
        for i in 0..n
            invariant
                n == t@.len(),
                t@ == self@.devices.completed,
                forall|j: int|
                    0 <= j < i ==> !(names_device((#[trigger] t@[j]).0, ifindex, mac@) && begins_at(
                        t@[j].1,
                        start_ts_ms,
                    )),
        {
            let k = t.key_at(i);
            if k.ifindex == ifindex && text::eq_ignore_ascii_case(k.mac.as_str(), mac)
                && ring_begins_at(t.value_at(i), start_ts_ms) {
                assert(names_device(t@[i as int].0, ifindex, mac@));
                return true;
            }
        }
        false
    }

    /// The open hours that hold samples, in order.
    pub fn export_current_hour_state(&self) -> (r: CurrentHourState)
        ensures
            sorting::views(r.iface@) == sorting::sorted::<CurrentHourIfaceState>(
                saved_ifaces(self@.ifaces.current),
            ),
            sorting::views(r.device@) == sorting::sorted::<CurrentHourDeviceState>(
                saved_devices(self@.devices.current),
            ),
    {
        let a = self.ifaces.current();
        let mut iface: Vec<CurrentHourIfaceState> = Vec::new();
        assert(a@.take(0) =~= Seq::<(u32, (u64, Seq<HistoryPoint>))>::empty());
        assert(sorting::views(iface@) =~= Seq::<IfaceHourView>::empty());
        let n: usize = a.len();
        for i in 0..n
            invariant
                n == a@.len(),
                sorting::views(iface@) == saved_ifaces(a@.take(i as int)),
        {
            assert(a@.take(i + 1).drop_last() =~= a@.take(i as int));
            let open = a.value_at(i);
            let ghost listed = sorting::views(iface@);
            if open.points.len() > 0 {
                let item = CurrentHourIfaceState {
                    ifindex: *a.key_at(i),
                    hour_start_ts_ms: open.start_ts_ms,
                    points: save_points(&open.points),
                };
                iface.push(item);
                assert(sorting::views(iface@) =~= listed.push(item@));
            }
        }
        assert(a@.take(a@.len() as int) =~= a@);
        let b = self.devices.current();
        let mut device: Vec<CurrentHourDeviceState> = Vec::new();
        assert(b@.take(0) =~= Seq::<((u32, Seq<char>), (u64, Seq<HistoryPoint>))>::empty());
        assert(sorting::views(device@) =~= Seq::<DeviceHourView>::empty());
        let n: usize = b.len();
        for i in 0..n
            invariant
                n == b@.len(),
                sorting::views(device@) == saved_devices(b@.take(i as int)),
        {
            assert(b@.take(i + 1).drop_last() =~= b@.take(i as int));
            let open = b.value_at(i);
            let ghost listed = sorting::views(device@);
            if open.points.len() > 0 {
                let key = b.key_at(i);
                let item = CurrentHourDeviceState {
                    ifindex: key.ifindex,
                    mac: key.mac.clone(),
                    hour_start_ts_ms: open.start_ts_ms,
                    points: save_points(&open.points),
                };
                device.push(item);
                assert(sorting::views(device@) =~= listed.push(item@));
            }
        }
        assert(b@.take(b@.len() as int) =~= b@);
        CurrentHourState {
            iface: sorting::sort_ranked(iface),
            device: sorting::sort_ranked(device),
        }
    }
}

/// An open hour set under a key, if there is one to set.
pub open spec fn reopened<A>(
    s: SeriesView<A>,
    k: A,
    open: Option<(u64, Seq<HistoryPoint>)>,
) -> SeriesView<A> {
    match open {
        Some(o) => SeriesView { current: table::assigned(s.current, k, o), ..s },
        None => s,
    }
}

/// A calendar that answers more still answers for the open hours.
pub proof fn lemma_covers_extends(c: Lookups, d: Lookups, h: HistogramView)
    requires
        covers_histogram(c, h),
        calendar::extends(c, d),
    ensures
        covers_histogram(d, h),
{
    hours::lemma_covers_open_extends(c, d, h.ifaces.current);
    hours::lemma_covers_open_extends(c, d, h.devices.current);
}

impl HistogramHistory {
    /// Sets the open hour of an interface from saved samples, if it is the hour in the window.
    pub fn restore_iface_points_within(
        &mut self,
        ifindex: u32,
        hour_start_ts_ms: u64,
        points: &[CurrentHourPointState],
        w: (u64, u64),
    )
        ensures
            final(self)@ == (HistogramView {
                ifaces: reopened(
                    old(self)@.ifaces,
                    ifindex,
                    hours::normalized(hour_start_ts_ms, points@, w),
                ),
                ..old(self)@
            }),
            old(self).wf() ==> final(self).wf(),
    {
        if let Some(open) = hours::normalize_points_within(hour_start_ts_ms, points, w) {
            self.ifaces.reopen(ifindex, open);
        }
    }

    /// Sets the open hour of a device from saved samples, if it is the hour in the window.
    pub fn restore_device_points_within(
        &mut self,
        ifindex: u32,
        mac: String,
        hour_start_ts_ms: u64,
        points: &[CurrentHourPointState],
        w: (u64, u64),
    )
        ensures
            final(self)@ == (HistogramView {
                devices: reopened(
                    old(self)@.devices,
                    (ifindex, mac@),
                    hours::normalized(hour_start_ts_ms, points@, w),
                ),
                ..old(self)@
            }),
            old(self).wf() ==> final(self).wf(),
    {
        if let Some(open) = hours::normalize_points_within(hour_start_ts_ms, points, w) {
            self.devices.reopen(DeviceSeriesKey { ifindex, mac }, open);
        }
    }

    /// Sets the open hour of an interface from saved samples, if it is the local hour of `now_ms`.
    pub fn restore_current_hour_iface_state(
        &mut self,
        ifindex: u32,
        hour_start_ts_ms: u64,
        points: Vec<CurrentHourPointState>,
        now_ms: u64,
    )
        ensures
            exists|w: (u64, u64)| #[trigger]
                calendar::can_be_hour(now_ms, w) && final(self)@ == (HistogramView {
                    ifaces: reopened(
                        old(self)@.ifaces,
                        ifindex,
                        hours::normalized(hour_start_ts_ms, points@, w),
                    ),
                    ..old(self)@
                }),
            old(self).wf() ==> final(self).wf(),
    {
        let w = calendar::hourly_bucket_local(now_ms);
        self.restore_iface_points_within(ifindex, hour_start_ts_ms, &points, w);
        assert(calendar::can_be_hour(now_ms, w));
    }

    /// Sets the open hour of a device from saved samples, if it is the local hour of `now_ms`.
    pub fn restore_current_hour_device_state(
        &mut self,
        ifindex: u32,
        mac: String,
        hour_start_ts_ms: u64,
        points: Vec<CurrentHourPointState>,
        now_ms: u64,
    )
        ensures
            exists|w: (u64, u64)| #[trigger]
                calendar::can_be_hour(now_ms, w) && final(self)@ == (HistogramView {
                    devices: reopened(
                        old(self)@.devices,
                        (ifindex, mac@),
                        hours::normalized(hour_start_ts_ms, points@, w),
                    ),
                    ..old(self)@
                }),
            old(self).wf() ==> final(self).wf(),
    {
        let w = calendar::hourly_bucket_local(now_ms);
        self.restore_device_points_within(ifindex, mac, hour_start_ts_ms, &points, w);
        assert(calendar::can_be_hour(now_ms, w));
    }

    /// The hours of an interface from `start_ms` to `end_ms`, in order.
    pub fn query_iface_hourly(&self, ifindex: u32, start_ms: u64, end_ms: u64, cal: &Calendar) -> (r:
        Vec<AggregatedBucket>)
        ensures
            r@ == hours::hourly(self@.ifaces, ifindex, start_ms, end_ms, cal@),
    {
        self.ifaces.query_hourly(&ifindex, start_ms, end_ms, cal)
    }

    /// The hours of a device from `start_ms` to `end_ms`, in order.
    pub fn query_device_hourly(
        &self,
        key: &DeviceSeriesKey,
        start_ms: u64,
        end_ms: u64,
        cal: &Calendar,
    ) -> (r: Vec<AggregatedBucket>)
        ensures
            r@ == hours::hourly(self@.devices, key@, start_ms, end_ms, cal@),
    {
        self.devices.query_hourly(key, start_ms, end_ms, cal)
    }

    fn find_device(&self, ifindex: u32, mac: &str) -> (r: Option<DeviceSeriesKey>)
        ensures
            match r {
                Some(k) => device_key(self@.devices, ifindex, mac@) == Some(k@),
                None => device_key(self@.devices, ifindex, mac@) is None,
            },
    {
        let f = |k: &DeviceSeriesKey| -> (b: bool)
            ensures
                b == names_device(k@, ifindex, mac@),
            { k.ifindex == ifindex && text::eq_ignore_ascii_case(k.mac.as_str(), mac) };
        let done = self.devices.completed();
        if let Some(i) = done.find_if(&f, Ghost(device_test(ifindex, mac@))) {
            return Some(done.key_at(i).copied());
        }
        let open = self.devices.current();
        if let Some(i) = open.find_if(&f, Ghost(device_test(ifindex, mac@))) {
            return Some(open.key_at(i).copied());
        }
        None
    }

    /// The hours that a query asks for, by the hours of a calendar.
    pub fn query_hours_within(
        &self,
        ifindex: u32,
        mac: Option<&str>,
        start_ms: u64,
        end_ms: u64,
        cal: &Calendar,
    ) -> (r: Vec<AggregatedBucket>)
        ensures
            r@ == queried_hours(self@, ifindex, opt_str(mac), start_ms, end_ms, cal@),
    {
        if let Some(m) = mac {
            if !text::trim(m).is_empty() {
                return match self.find_device(ifindex, m) {
                    Some(k) => self.query_device_hourly(&k, start_ms, end_ms, cal),
                    None => Vec::new(),
                };
            }
        }
        self.query_iface_hourly(ifindex, start_ms, end_ms, cal)
    }

    /// The buckets that a query asks for, by the hours and days of a calendar.
    pub fn query_aggregate_within(
        &self,
        ifindex: u32,
        mac: Option<&str>,
        start_ms: u64,
        end_ms: u64,
        bucket: AggregateBucket,
        cal: &Calendar,
    ) -> (r: Vec<AggregatedBucket>)
        ensures
            r@ == aggregate(self@, ifindex, opt_str(mac), start_ms, end_ms, bucket, cal@),
    {
        let found = self.query_hours_within(ifindex, mac, start_ms, end_ms, cal);
        match bucket {
            AggregateBucket::Hourly => found,
            AggregateBucket::Daily => merge_hourly_within(&found, cal),
        }
    }

    /// The buckets that a query asks for, by the local hours and days.
    pub fn query_aggregate(
        &self,
        ifindex: u32,
        mac: Option<&str>,
        start_ms: u64,
        end_ms: u64,
        bucket: AggregateBucket,
    ) -> (r: Vec<AggregatedBucket>)
        ensures
            exists|cal: Lookups| #[trigger]
                calendar::is_local(cal) && covers_query(
                    cal,
                    self@,
                    ifindex,
                    opt_str(mac),
                    start_ms,
                    end_ms,
                ) && r@ == aggregate(self@, ifindex, opt_str(mac), start_ms, end_ms, bucket, cal),
    {
        let cal = self.query_calendar(ifindex, mac, start_ms, end_ms);
        let r = self.query_aggregate_within(ifindex, mac, start_ms, end_ms, bucket, &cal);
        assert(calendar::is_local(cal@));
        r
    }

    /// A calendar that answers for a query.
    pub fn query_calendar(&self, ifindex: u32, mac: Option<&str>, start_ms: u64, end_ms: u64) -> (r:
        Calendar)
        ensures
            calendar::is_local(r@),
            covers_query(r@, self@, ifindex, opt_str(mac), start_ms, end_ms),
    {
        let mut cal = self.open_hours();
        let found = self.query_hours_within(ifindex, mac, start_ms, end_ms, &cal);
        let ghost before = cal@;
        look_up_days(&found, &mut cal);
        proof {
            lemma_covers_extends(before, cal@, self@);
            lemma_queried_same(self@, ifindex, opt_str(mac), start_ms, end_ms, before, cal@);
        }
        cal
    }

    /// The bytes of the closed hours of each interface, and of each device whose address can be
    /// read.
    pub fn cumulative_from_completed(&self) -> (r: (
        HashMap<u32, CounterQuad>,
        Table<(u32, [u8; 6]), CounterQuad>,
    ))
        ensures
            r.0@ == closed_iface_totals(self@.ifaces.completed),
            r.1@ == closed_device_totals(self@.devices.completed),
            r.1.wf(),
    {
        broadcast use vstd::std_specs::hash::group_hash_axioms;

        let a = self.ifaces.completed();
        let mut iface: HashMap<u32, CounterQuad> = HashMap::new();
        assert(a@.take(0) =~= Seq::<(u32, Seq<AggregatedBucket>)>::empty());
        let n: usize = a.len();
        for i in 0..n
            invariant
                n == a@.len(),
                iface@ == closed_iface_totals(a@.take(i as int)),
        {
            assert(a@.take(i + 1).drop_last() =~= a@.take(i as int));
            iface.insert(*a.key_at(i), ring_bytes(a.value_at(i)));
        }
        assert(a@.take(a@.len() as int) =~= a@);
        let b = self.devices.completed();
        let mut device: Table<(u32, [u8; 6]), CounterQuad> = Table::new();
        assert(b@.take(0) =~= Seq::<((u32, Seq<char>), Seq<AggregatedBucket>)>::empty());
        let n: usize = b.len();
        for i in 0..n
            invariant
                n == b@.len(),
                device@ == closed_device_totals(b@.take(i as int)),
                device.wf(),
        {
            assert(b@.take(i + 1).drop_last() =~= b@.take(i as int));
            let k = b.key_at(i);
            if let Ok(m) = mac::from_str(k.mac.as_str()) {
                device.insert((k.ifindex, m), ring_bytes(b.value_at(i)));
            }
        }
        assert(b@.take(b@.len() as int) =~= b@);
        (iface, device)
    }

    /// The bytes of the closed and open hours of each interface, and of each device whose address
    /// can be read.
    pub fn cumulative_from_all(&self) -> (r: (
        HashMap<u32, CounterQuad>,
        Table<(u32, [u8; 6]), CounterQuad>,
    ))
        ensures
            r.0@ == with_open_ifaces(
                closed_iface_totals(self@.ifaces.completed),
                self@.ifaces.current,
            ),
            r.1@ == with_open_devices(
                closed_device_totals(self@.devices.completed),
                self@.devices.current,
            ),
            r.1.wf(),
    {
        broadcast use vstd::std_specs::hash::group_hash_axioms;

        let (mut iface, mut device) = self.cumulative_from_completed();
        let ghost iface_first = iface@;
        let ghost device_first = device@;
        let a = self.ifaces.current();
        assert(a@.take(0) =~= Seq::<(u32, (u64, Seq<HistoryPoint>))>::empty());
        let n: usize = a.len();
        for i in 0..n
            invariant
                n == a@.len(),
                iface@ == with_open_ifaces(iface_first, a@.take(i as int)),
        {
            assert(a@.take(i + 1).drop_last() =~= a@.take(i as int));
            let open = a.value_at(i);
            if open.points.len() > 0 {
                let b = counters::points_to_bucket_within(0, 0, &open.points);
                let k: u32 = *a.key_at(i);
                let mut sum = counters::get_quad(&iface, k);
                counters::add_bucket_bytes(&mut sum, &b);
                iface.insert(k, sum);
            }
        }
        assert(a@.take(a@.len() as int) =~= a@);
        let b = self.devices.current();
        assert(b@.take(0) =~= Seq::<((u32, Seq<char>), (u64, Seq<HistoryPoint>))>::empty());
        let n: usize = b.len();
        for i in 0..n
            invariant
                n == b@.len(),
                device@ == with_open_devices(device_first, b@.take(i as int)),
                device.wf(),
        {
            assert(b@.take(i + 1).drop_last() =~= b@.take(i as int));
            let k = b.key_at(i);
            let open = b.value_at(i);
            if open.points.len() > 0 {
                if let Ok(m) = mac::from_str(k.mac.as_str()) {
                    let sum = counters::points_to_bucket_within(0, 0, &open.points);
                    add_under(&mut device, (k.ifindex, m), &sum);
                }
            }
        }
        assert(b@.take(b@.len() as int) =~= b@);
        (iface, device)
    }
}

/// Whether a calendar answers for everything that a query looks at.
pub open spec fn covers_query(
    cal: Lookups,
    h: HistogramView,
    ifindex: u32,
    mac: Option<Seq<char>>,
    start_ms: u64,
    end_ms: u64,
) -> bool {
    covers_histogram(cal, h) && covers_days(
        cal,
        queried_hours(h, ifindex, mac, start_ms, end_ms, cal),
    )
}

/// A query is answered from the hours of a calendar alone.
pub proof fn lemma_queried_same(
    h: HistogramView,
    ifindex: u32,
    mac: Option<Seq<char>>,
    start_ms: u64,
    end_ms: u64,
    c: Lookups,
    d: Lookups,
)
    requires
        c.hours == d.hours,
    ensures
        queried_hours(h, ifindex, mac, start_ms, end_ms, c) == queried_hours(
            h,
            ifindex,
            mac,
            start_ms,
            end_ms,
            d,
        ),
{
    assert forall|t: u64| #[trigger] calendar::hour_at(c, t) == calendar::hour_at(d, t) by {}
}

} // verus!
