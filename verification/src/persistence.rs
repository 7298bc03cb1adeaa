//! What is kept in the database, as rows of plain values, and what is made of rows that are read.

use vstd::prelude::*;

use crate::calendar;
use crate::calendar::Calendar;
use crate::calendar::Lookups;
use crate::command;
use crate::counters::AggregatedBucket;
use crate::counters::CounterQuad;
use crate::counters::CurrentHourPointState;
use crate::histogram;
use crate::histogram::CurrentHourDeviceState;
use crate::histogram::CurrentHourIfaceState;
use crate::histogram::DeviceHourView;
use crate::histogram::HistogramHistory;
use crate::histogram::HistogramView;
use crate::histogram::IfaceHourView;
use crate::hours;
use crate::lists;
use crate::mac;
use crate::runtime;
use crate::runtime::MonitorRuntime;
use crate::runtime::MonitorRuntimeState;
use crate::runtime::PersistedKnownDevice;
use crate::runtime::PersistedView;
use crate::sorting;
use crate::table;
use crate::table::Table;
use crate::table::TableKey;
use crate::text;
use crate::topology;
use crate::topology::IfaceInfo;
use crate::topology::TopologySnapshot;

verus! {

/// The version of the saved policy.
pub const POLICY_SCHEMA_VERSION: u32 = 1;

/// The version of the saved devices.
pub const DEVICES_SCHEMA_VERSION: u32 = 1;

/// The version of the database.
pub const DB_USER_VERSION: i32 = 1;

/// The numbers of a bucket in the order of the columns.
pub open spec fn bucket_numbers(b: AggregatedBucket) -> Seq<i64> {
    seq![
        calendar::signed(b.start_ts_ms) as i64,
        calendar::signed(b.end_ts_ms) as i64,
        calendar::signed(b.up_v4_bytes) as i64,
        calendar::signed(b.down_v4_bytes) as i64,
        calendar::signed(b.up_v6_bytes) as i64,
        calendar::signed(b.down_v6_bytes) as i64,
        calendar::signed(b.up_v4_bps_avg) as i64,
        calendar::signed(b.up_v4_bps_max) as i64,
        calendar::signed(b.up_v4_bps_min) as i64,
        calendar::signed(b.up_v4_bps_p95) as i64,
        calendar::signed(b.down_v4_bps_avg) as i64,
        calendar::signed(b.down_v4_bps_max) as i64,
        calendar::signed(b.down_v4_bps_min) as i64,
        calendar::signed(b.down_v4_bps_p95) as i64,
        calendar::signed(b.up_v6_bps_avg) as i64,
        calendar::signed(b.up_v6_bps_max) as i64,
        calendar::signed(b.up_v6_bps_min) as i64,
        calendar::signed(b.up_v6_bps_p95) as i64,
        calendar::signed(b.down_v6_bps_avg) as i64,
        calendar::signed(b.down_v6_bps_max) as i64,
        calendar::signed(b.down_v6_bps_min) as i64,
        calendar::signed(b.down_v6_bps_p95) as i64,
    ]
}

/// The bucket that numbers in the order of the columns stand for.
pub open spec fn numbers_bucket(n: Seq<i64>) -> AggregatedBucket {
    AggregatedBucket {
        start_ts_ms: calendar::unsigned(n[0]),
        end_ts_ms: calendar::unsigned(n[1]),
        up_v4_bytes: calendar::unsigned(n[2]),
        down_v4_bytes: calendar::unsigned(n[3]),
        up_v6_bytes: calendar::unsigned(n[4]),
        down_v6_bytes: calendar::unsigned(n[5]),
        up_v4_bps_avg: calendar::unsigned(n[6]),
        up_v4_bps_max: calendar::unsigned(n[7]),
        up_v4_bps_min: calendar::unsigned(n[8]),
        up_v4_bps_p95: calendar::unsigned(n[9]),
        down_v4_bps_avg: calendar::unsigned(n[10]),
        down_v4_bps_max: calendar::unsigned(n[11]),
        down_v4_bps_min: calendar::unsigned(n[12]),
        down_v4_bps_p95: calendar::unsigned(n[13]),
        up_v6_bps_avg: calendar::unsigned(n[14]),
        up_v6_bps_max: calendar::unsigned(n[15]),
        up_v6_bps_min: calendar::unsigned(n[16]),
        up_v6_bps_p95: calendar::unsigned(n[17]),
        down_v6_bps_avg: calendar::unsigned(n[18]),
        down_v6_bps_max: calendar::unsigned(n[19]),
        down_v6_bps_min: calendar::unsigned(n[20]),
        down_v6_bps_p95: calendar::unsigned(n[21]),
    }
}

/// The numbers of a bucket in the order of the columns.
pub fn bucket_to_numbers(b: &AggregatedBucket) -> (r: [i64; 22])
    ensures
        r@ == bucket_numbers(*b),
{
    let r = [
        calendar::to_signed(b.start_ts_ms),
        calendar::to_signed(b.end_ts_ms),
        calendar::to_signed(b.up_v4_bytes),
        calendar::to_signed(b.down_v4_bytes),
        calendar::to_signed(b.up_v6_bytes),
        calendar::to_signed(b.down_v6_bytes),
        calendar::to_signed(b.up_v4_bps_avg),
        calendar::to_signed(b.up_v4_bps_max),
        calendar::to_signed(b.up_v4_bps_min),
        calendar::to_signed(b.up_v4_bps_p95),
        calendar::to_signed(b.down_v4_bps_avg),
        calendar::to_signed(b.down_v4_bps_max),
        calendar::to_signed(b.down_v4_bps_min),
        calendar::to_signed(b.down_v4_bps_p95),
        calendar::to_signed(b.up_v6_bps_avg),
        calendar::to_signed(b.up_v6_bps_max),
        calendar::to_signed(b.up_v6_bps_min),
        calendar::to_signed(b.up_v6_bps_p95),
        calendar::to_signed(b.down_v6_bps_avg),
        calendar::to_signed(b.down_v6_bps_max),
        calendar::to_signed(b.down_v6_bps_min),
        calendar::to_signed(b.down_v6_bps_p95),
    ];
    assert(r@ =~= bucket_numbers(*b));
    r
}

/// The bucket that numbers in the order of the columns stand for.
pub fn numbers_to_bucket(n: &[i64; 22]) -> (r: AggregatedBucket)
    ensures
        r == numbers_bucket(n@),
{
    AggregatedBucket {
        start_ts_ms: calendar::to_unsigned(n[0]),
        end_ts_ms: calendar::to_unsigned(n[1]),
        up_v4_bytes: calendar::to_unsigned(n[2]),
        down_v4_bytes: calendar::to_unsigned(n[3]),
        up_v6_bytes: calendar::to_unsigned(n[4]),
        down_v6_bytes: calendar::to_unsigned(n[5]),
        up_v4_bps_avg: calendar::to_unsigned(n[6]),
        up_v4_bps_max: calendar::to_unsigned(n[7]),
        up_v4_bps_min: calendar::to_unsigned(n[8]),
        up_v4_bps_p95: calendar::to_unsigned(n[9]),
        down_v4_bps_avg: calendar::to_unsigned(n[10]),
        down_v4_bps_max: calendar::to_unsigned(n[11]),
        down_v4_bps_min: calendar::to_unsigned(n[12]),
        down_v4_bps_p95: calendar::to_unsigned(n[13]),
        up_v6_bps_avg: calendar::to_unsigned(n[14]),
        up_v6_bps_max: calendar::to_unsigned(n[15]),
        up_v6_bps_min: calendar::to_unsigned(n[16]),
        up_v6_bps_p95: calendar::to_unsigned(n[17]),
        down_v6_bps_avg: calendar::to_unsigned(n[18]),
        down_v6_bps_max: calendar::to_unsigned(n[19]),
        down_v6_bps_min: calendar::to_unsigned(n[20]),
        down_v6_bps_p95: calendar::to_unsigned(n[21]),
    }
}

/// A bucket is read back as it was written, whatever its numbers are.
pub proof fn lemma_bucket_round_trip(b: AggregatedBucket)
    ensures
        numbers_bucket(bucket_numbers(b)) == b,
{
    calendar::lemma_signed_bits(b.start_ts_ms, 0);
    calendar::lemma_signed_bits(b.end_ts_ms, 0);
    calendar::lemma_signed_bits(b.up_v4_bytes, 0);
    calendar::lemma_signed_bits(b.down_v4_bytes, 0);
    calendar::lemma_signed_bits(b.up_v6_bytes, 0);
    calendar::lemma_signed_bits(b.down_v6_bytes, 0);
    calendar::lemma_signed_bits(b.up_v4_bps_avg, 0);
    calendar::lemma_signed_bits(b.up_v4_bps_max, 0);
    calendar::lemma_signed_bits(b.up_v4_bps_min, 0);
    calendar::lemma_signed_bits(b.up_v4_bps_p95, 0);
    calendar::lemma_signed_bits(b.down_v4_bps_avg, 0);
    calendar::lemma_signed_bits(b.down_v4_bps_max, 0);
    calendar::lemma_signed_bits(b.down_v4_bps_min, 0);
    calendar::lemma_signed_bits(b.down_v4_bps_p95, 0);
    calendar::lemma_signed_bits(b.up_v6_bps_avg, 0);
    calendar::lemma_signed_bits(b.up_v6_bps_max, 0);
    calendar::lemma_signed_bits(b.up_v6_bps_min, 0);
    calendar::lemma_signed_bits(b.up_v6_bps_p95, 0);
    calendar::lemma_signed_bits(b.down_v6_bps_avg, 0);
    calendar::lemma_signed_bits(b.down_v6_bps_max, 0);
    calendar::lemma_signed_bits(b.down_v6_bps_min, 0);
    calendar::lemma_signed_bits(b.down_v6_bps_p95, 0);
}

/// The counters of a sample in the order of the columns.
pub open spec fn quad_numbers(q: CounterQuad) -> Seq<i64> {
    seq![
        calendar::signed(q.up_v4_bytes) as i64,
        calendar::signed(q.down_v4_bytes) as i64,
        calendar::signed(q.up_v6_bytes) as i64,
        calendar::signed(q.down_v6_bytes) as i64,
        calendar::signed(q.up_v4_bps) as i64,
        calendar::signed(q.down_v4_bps) as i64,
        calendar::signed(q.up_v6_bps) as i64,
        calendar::signed(q.down_v6_bps) as i64,
    ]
}

/// The counters that numbers in the order of the columns stand for.
pub open spec fn numbers_quad(n: Seq<i64>) -> CounterQuad {
    CounterQuad {
        up_v4_bytes: calendar::unsigned(n[0]),
        down_v4_bytes: calendar::unsigned(n[1]),
        up_v6_bytes: calendar::unsigned(n[2]),
        down_v6_bytes: calendar::unsigned(n[3]),
        up_v4_bps: calendar::unsigned(n[4]),
        down_v4_bps: calendar::unsigned(n[5]),
        up_v6_bps: calendar::unsigned(n[6]),
        down_v6_bps: calendar::unsigned(n[7]),
    }
}

/// The counters of a sample in the order of the columns.
pub fn quad_to_numbers(q: &CounterQuad) -> (r: [i64; 8])
    ensures
        r@ == quad_numbers(*q),
{
    let r = [
        calendar::to_signed(q.up_v4_bytes),
        calendar::to_signed(q.down_v4_bytes),
        calendar::to_signed(q.up_v6_bytes),
        calendar::to_signed(q.down_v6_bytes),
        calendar::to_signed(q.up_v4_bps),
        calendar::to_signed(q.down_v4_bps),
        calendar::to_signed(q.up_v6_bps),
        calendar::to_signed(q.down_v6_bps),
    ];
    assert(r@ =~= quad_numbers(*q));
    r
}

/// The counters that numbers in the order of the columns stand for.
pub fn numbers_to_quad(n: &[i64; 8]) -> (r: CounterQuad)
    ensures
        r == numbers_quad(n@),
{
    CounterQuad {
        up_v4_bytes: calendar::to_unsigned(n[0]),
        down_v4_bytes: calendar::to_unsigned(n[1]),
        up_v6_bytes: calendar::to_unsigned(n[2]),
        down_v6_bytes: calendar::to_unsigned(n[3]),
        up_v4_bps: calendar::to_unsigned(n[4]),
        down_v4_bps: calendar::to_unsigned(n[5]),
        up_v6_bps: calendar::to_unsigned(n[6]),
        down_v6_bps: calendar::to_unsigned(n[7]),
    }
}

/// The counters of a sample are read back as they were written, whatever they are.
pub proof fn lemma_quad_round_trip(q: CounterQuad)
    ensures
        numbers_quad(quad_numbers(q)) == q,
{
    calendar::lemma_signed_bits(q.up_v4_bytes, 0);
    calendar::lemma_signed_bits(q.down_v4_bytes, 0);
    calendar::lemma_signed_bits(q.up_v6_bytes, 0);
    calendar::lemma_signed_bits(q.down_v6_bytes, 0);
    calendar::lemma_signed_bits(q.up_v4_bps, 0);
    calendar::lemma_signed_bits(q.down_v4_bps, 0);
    calendar::lemma_signed_bits(q.up_v6_bps, 0);
    calendar::lemma_signed_bits(q.down_v6_bps, 0);
}

/// Whose rows they are.
#[derive(Debug)]
pub struct SeriesKey {
    pub series_type: String,
    pub logical_iface: String,
    pub mac: String,
    pub hour_start_ts_ms: u64,
}

/// Whose rows they are, with texts as characters.
#[verifier::ext_equal]
pub struct SeriesId {
    pub series_type: Seq<char>,
    pub logical_iface: Seq<char>,
    pub mac: Seq<char>,
    pub hour_start_ts_ms: u64,
}

impl View for SeriesKey {
    type V = SeriesId;

    open spec fn view(&self) -> SeriesId {
        SeriesId {
            series_type: self.series_type@,
            logical_iface: self.logical_iface@,
            mac: self.mac@,
            hour_start_ts_ms: self.hour_start_ts_ms,
        }
    }
}

impl TableKey for SeriesKey {
    fn same(&self, other: &SeriesKey) -> (r: bool) {
        self.series_type == other.series_type && self.logical_iface == other.logical_iface
            && self.mac == other.mac && self.hour_start_ts_ms == other.hour_start_ts_ms
    }

    fn copied(&self) -> (r: SeriesKey) {
        SeriesKey {
            series_type: self.series_type.clone(),
            logical_iface: self.logical_iface.clone(),
            mac: self.mac.clone(),
            hour_start_ts_ms: self.hour_start_ts_ms,
        }
    }
}

/// A row of the samples of the open hours.
#[derive(Debug)]
pub struct PointRow {
    pub key: SeriesKey,
    pub point: CurrentHourPointState,
}

/// A row of the samples of the open hours, with texts as characters.
#[verifier::ext_equal]
pub struct PointRowView {
    pub key: SeriesId,
    pub point: CurrentHourPointState,
}

impl View for PointRow {
    type V = PointRowView;

    open spec fn view(&self) -> PointRowView {
        PointRowView { key: self.key@, point: self.point }
    }
}

/// The rows of some samples of one series.
pub open spec fn rows_of(key: SeriesId, points: Seq<CurrentHourPointState>) -> Seq<PointRowView> {
    Seq::new(points.len(), |i: int| PointRowView { key, point: points[i] })
}

/// The rows of the open hours of interfaces that exist.
pub open spec fn iface_rows(items: Seq<IfaceHourView>, t: Seq<IfaceInfo>) -> Seq<PointRowView>
    decreases items.len(),
{
    if items.len() == 0 {
        Seq::empty()
    } else {
        let rest = iface_rows(items.drop_last(), t);
        let x = items.last();
        match topology::with_index(t, x.ifindex) {
            Some(info) => rest + rows_of(
                SeriesId {
                    series_type: "iface"@,
                    logical_iface: info.name,
                    mac: ""@,
                    hour_start_ts_ms: x.hour_start_ts_ms,
                },
                x.points,
            ),
            None => rest,
        }
    }
}

/// The rows of the open hours of devices whose interfaces exist.
pub open spec fn device_rows(items: Seq<DeviceHourView>, t: Seq<IfaceInfo>) -> Seq<PointRowView>
    decreases items.len(),
{
    if items.len() == 0 {
        Seq::empty()
    } else {
        let rest = device_rows(items.drop_last(), t);
        let x = items.last();
        match topology::with_index(t, x.ifindex) {
            Some(info) => rest + rows_of(
                SeriesId {
                    series_type: "device"@,
                    logical_iface: info.name,
                    mac: x.mac,
                    hour_start_ts_ms: x.hour_start_ts_ms,
                },
                x.points,
            ),
            None => rest,
        }
    }
}

fn push_rows(rows: &mut Vec<PointRow>, key: &SeriesKey, points: &Vec<CurrentHourPointState>)
    ensures
        sorting::views(final(rows)@) == sorting::views(old(rows)@) + rows_of(key@, points@),
{
    let ghost before = sorting::views(rows@);
    assert(before + rows_of(key@, points@).take(0) =~= before);
    for i in 0..points.len()
        invariant
            sorting::views(rows@) == before + rows_of(key@, points@).take(i as int),
    {
        let ghost listed = sorting::views(rows@);
        let row = PointRow { key: key.copied(), point: points[i] };
        rows.push(row);
        assert(sorting::views(rows@) =~= listed.push(row@));
        assert(rows_of(key@, points@).take(i + 1) =~= rows_of(key@, points@).take(i as int).push(
            row@,
        ));
        assert(sorting::views(rows@) =~= before + rows_of(key@, points@).take(i + 1));
    }
    assert(rows_of(key@, points@).take(points@.len() as int) =~= rows_of(key@, points@));
}

/// The rows in which the open hours are saved: those of interfaces, followed by those of devices.
pub fn current_hour_rows(histogram: &HistogramHistory, topology: &TopologySnapshot) -> (r: Vec<
    PointRow,
>)
    ensures
        sorting::views(r@) == iface_rows(
            sorting::sorted::<CurrentHourIfaceState>(
                histogram::saved_ifaces(histogram@.ifaces.current),
            ),
            topology@,
        ) + device_rows(
            sorting::sorted::<CurrentHourDeviceState>(
                histogram::saved_devices(histogram@.devices.current),
            ),
            topology@,
        ),
{
    let state = histogram.export_current_hour_state();
    let mut rows: Vec<PointRow> = Vec::new();
    let ghost a = sorting::views(state.iface@);
    let ghost b = sorting::views(state.device@);
    assert(a.take(0) =~= Seq::<IfaceHourView>::empty());
    assert(sorting::views(rows@) =~= Seq::<PointRowView>::empty());
    for i in 0..state.iface.len()
        invariant
            a == sorting::views(state.iface@),
            sorting::views(rows@) == iface_rows(a.take(i as int), topology@),
    {
        let x = &state.iface[i];
        assert(a.take(i + 1).drop_last() =~= a.take(i as int));
        assert(a.take(i + 1).last() == x@);
        if let Some(info) = topology.by_ifindex(x.ifindex) {
            let key = SeriesKey {
                series_type: "iface".to_owned(),
                logical_iface: info.name.clone(),
                mac: "".to_owned(),
                hour_start_ts_ms: x.hour_start_ts_ms,
            };
            push_rows(&mut rows, &key, &x.points);
        }
    }
    assert(a.take(a.len() as int) =~= a);
    let ghost first = sorting::views(rows@);
    assert(b.take(0) =~= Seq::<DeviceHourView>::empty());
    assert(first + device_rows(b.take(0), topology@) =~= first);
    for i in 0..state.device.len()
        invariant
            b == sorting::views(state.device@),
            sorting::views(rows@) == first + device_rows(b.take(i as int), topology@),
    {
        let x = &state.device[i];
        assert(b.take(i + 1).drop_last() =~= b.take(i as int));
        assert(b.take(i + 1).last() == x@);
        if let Some(info) = topology.by_ifindex(x.ifindex) {
            let key = SeriesKey {
                series_type: "device".to_owned(),
                logical_iface: info.name.clone(),
                mac: x.mac.clone(),
                hour_start_ts_ms: x.hour_start_ts_ms,
            };
            let ghost before = device_rows(b.take(i as int), topology@);
            push_rows(&mut rows, &key, &x.points);
            assert(sorting::views(rows@) =~= first + (before + rows_of(key@, x.points@)));
        }
    }
    assert(b.take(b.len() as int) =~= b);
    rows
}

/// Rows gathered by series and hour.
pub open spec fn gathered_rows(
    rows: Seq<PointRowView>,
) -> Seq<(SeriesId, Seq<CurrentHourPointState>)>
    decreases rows.len(),
{
    if rows.len() == 0 {
        Seq::empty()
    } else {
        let rest = gathered_rows(rows.drop_last());
        let r = rows.last();
        table::assigned(rest, r.key, table::lookup_or(rest, r.key, Seq::empty()).push(r.point))
    }
}

fn gather_rows(rows: Vec<PointRow>) -> (r: Table<SeriesKey, Vec<CurrentHourPointState>>)
    ensures
        r@ == gathered_rows(sorting::views(rows@)),
        r.wf(),
{
    let ghost all = sorting::views(rows@);
    let ghost given = rows@;
    let mut r: Table<SeriesKey, Vec<CurrentHourPointState>> = Table::new();
    assert(all.take(0) =~= Seq::<PointRowView>::empty());
    for row in it: rows
        invariant
            it.seq() == given,
            all == sorting::views(given),
            r@ == gathered_rows(all.take(it.index() as int)),
            r.wf(),
    {
        let ghost i = it.index() as int;
        assert(all.take(i + 1).drop_last() =~= all.take(i));
        assert(all.take(i + 1).last() == row@);
        proof {
            table::lemma_assigned_distinct(
                r@,
                row.key@,
                table::lookup_or(r@, row.key@, Seq::empty()).push(row.point),
            );
        }
        match r.find(&row.key) {
            Some(p) => {
                let points = r.value_at_mut(p);
                points.push(row.point);
            },
            None => {
                let mut points: Vec<CurrentHourPointState> = Vec::new();
                points.push(row.point);
                assert(points@ =~= Seq::<CurrentHourPointState>::empty().push(row.point));
                r.insert(row.key, points);
            },
        }
    }
    assert(all.take(all.len() as int) =~= all);
    r
}

/// What becomes of the samples of a saved hour.
#[derive(Debug, Clone, Copy)]
pub enum Action {
    /// The hour is not over: it goes on.
    RestoreCurrent,
    /// The hour is over: it is closed into a bucket.
    Promote(AggregatedBucket),
    /// The samples are of no use.
    DropOnly,
}

/// What becomes of the samples of a saved hour, where the hour around now begins at `now_start` and
/// the hour around the saved beginning is `w`.
pub open spec fn action_for(
    hour_start_ts_ms: u64,
    points: Seq<CurrentHourPointState>,
    now_start: u64,
    w: (u64, u64),
) -> Action {
    if hour_start_ts_ms == now_start {
        Action::RestoreCurrent
    } else if hour_start_ts_ms > now_start {
        Action::DropOnly
    } else {
        match hours::promoted(hour_start_ts_ms, points, w) {
            Some(b) => Action::Promote(b),
            None => Action::DropOnly,
        }
    }
}

/// What becomes of the samples of a saved hour.
pub fn choose_action(
    hour_start_ts_ms: u64,
    points: &[CurrentHourPointState],
    now_start: u64,
    w: (u64, u64),
) -> (r: Action)
    ensures
        r == action_for(hour_start_ts_ms, points@, now_start, w),
{
    if hour_start_ts_ms == now_start {
        Action::RestoreCurrent
    } else if hour_start_ts_ms > now_start {
        Action::DropOnly
    } else {
        match hours::promote_points_within(hour_start_ts_ms, points, w) {
            Some(b) => Action::Promote(b),
            None => Action::DropOnly,
        }
    }
}

/// One saved hour, and what becomes of it.
#[derive(Debug)]
pub struct Planned {
    pub key: SeriesKey,
    pub ifindex: u32,
    pub points: Vec<CurrentHourPointState>,
    pub action: Action,
}

/// One saved hour, and what becomes of it, with texts as characters.
#[verifier::ext_equal]
pub struct PlannedView {
    pub key: SeriesId,
    pub ifindex: u32,
    pub points: Seq<CurrentHourPointState>,
    pub action: Action,
}

impl View for Planned {
    type V = PlannedView;

    open spec fn view(&self) -> PlannedView {
        PlannedView {
            key: self.key@,
            ifindex: self.ifindex,
            points: self.points@,
            action: self.action,
        }
    }
}

/// What becomes of saved hours whose interfaces exist; the others are left alone.
pub open spec fn planned(
    s: Seq<(SeriesId, Seq<CurrentHourPointState>)>,
    t: Seq<IfaceInfo>,
    now_ms: u64,
    cal: Lookups,
) -> Seq<PlannedView>
    decreases s.len(),
{
    if s.len() == 0 {
        Seq::empty()
    } else {
        let rest = planned(s.drop_last(), t, now_ms, cal);
        let (key, points) = s.last();
        match topology::index_named(t, key.logical_iface) {
            Some(ifindex) => rest.push(
                PlannedView {
                    key,
                    ifindex,
                    points,
                    action: action_for(
                        key.hour_start_ts_ms,
                        points,
                        calendar::hour_at(cal, now_ms).0,
                        calendar::hour_at(cal, key.hour_start_ts_ms),
                    ),
                },
            ),
            None => rest,
        }
    }
}

/// Whether a calendar answers for now and for the beginning of every saved hour.
pub open spec fn covers_rows(cal: Lookups, rows: Seq<PointRowView>, now_ms: u64) -> bool {
    &&& cal.hours.contains_key(now_ms)
    &&& forall|i: int|
        0 <= i < rows.len() ==> cal.hours.contains_key((#[trigger] rows[i]).key.hour_start_ts_ms)
}

/// A copy of samples.
fn copy_points(v: &Vec<CurrentHourPointState>) -> (r: Vec<CurrentHourPointState>)
    ensures
        r@ == v@,
{
    let mut r: Vec<CurrentHourPointState> = Vec::new();
    for i in 0..v.len()
        invariant
            r@ =~= v@.take(i as int),
    {
        r.push(v[i]);
    }
    r
}

/// What becomes of saved hours, by the hours of a calendar.
pub fn plan_recovery_within(
    rows: Vec<PointRow>,
    topology: &TopologySnapshot,
    now_ms: u64,
    cal: &Calendar,
) -> (r: Vec<Planned>)
    ensures
        sorting::views(r@) == planned(
            gathered_rows(sorting::views(rows@)),
            topology@,
            now_ms,
            cal@,
        ),
{
    let now_start: u64 = cal.hour(now_ms).0;
    let t = gather_rows(rows);
    let mut r: Vec<Planned> = Vec::new();
    assert(t@.take(0) =~= Seq::<(SeriesId, Seq<CurrentHourPointState>)>::empty());
    assert(sorting::views(r@) =~= Seq::<PlannedView>::empty());
    let n: usize = t.len();
    for i in 0..n
        invariant
            n == t@.len(),
            now_start == calendar::hour_at(cal@, now_ms).0,
            sorting::views(r@) == planned(t@.take(i as int), topology@, now_ms, cal@),
    {
        assert(t@.take(i + 1).drop_last() =~= t@.take(i as int));
        let key = t.key_at(i);
        let points = t.value_at(i);
        if let Some(ifindex) = topology.ifindex_by_name(key.logical_iface.as_str()) {
            let w = cal.hour(key.hour_start_ts_ms);
            let ghost before = sorting::views(r@);
            let item = Planned {
                key: key.copied(),
                ifindex,
                points: copy_points(points),
                action: choose_action(key.hour_start_ts_ms, points, now_start, w),
            };
            r.push(item);
            assert(sorting::views(r@) =~= before.push(item@));
        }
    }
    assert(t@.take(t@.len() as int) =~= t@);
    r
}

/// A calendar of now and of the beginnings of saved hours.
pub fn recovery_calendar(rows: &Vec<PointRow>, now_ms: u64) -> (r: Calendar)
    ensures
        calendar::is_local(r@),
        covers_rows(r@, sorting::views(rows@), now_ms),
{
    let mut cal = Calendar::new();
    let _ = cal.look_up_hour(now_ms);
    for i in 0..rows.len()
        invariant
            calendar::is_local(cal@),
            cal@.hours.contains_key(now_ms),
            forall|j: int|
                0 <= j < i ==> cal@.hours.contains_key(
                    (#[trigger] rows@[j]).key.hour_start_ts_ms,
                ),
    {
        let _ = cal.look_up_hour(rows[i].key.hour_start_ts_ms);
    }
    assert forall|j: int| 0 <= j < rows@.len() implies cal@.hours.contains_key(
        (#[trigger] sorting::views(rows@)[j]).key.hour_start_ts_ms,
    ) by {
        assert(cal@.hours.contains_key(rows@[j].key.hour_start_ts_ms));
    }
    cal
}

/// What becomes of saved hours, by the local hours, and the local hour around now.
pub fn plan_recovery(rows: Vec<PointRow>, topology: &TopologySnapshot, now_ms: u64) -> (r: (
    Vec<Planned>,
    (u64, u64),
))
    ensures
        exists|cal: Lookups| #[trigger]
            calendar::is_local(cal) && covers_rows(cal, sorting::views(rows@), now_ms)
                && sorting::views(r.0@) == planned(
                gathered_rows(sorting::views(rows@)),
                topology@,
                now_ms,
                cal,
            ) && r.1 == calendar::hour_at(cal, now_ms),
{
    let cal = recovery_calendar(&rows, now_ms);
    let w = cal.hour(now_ms);
    let plan = plan_recovery_within(rows, topology, now_ms, &cal);
    assert(calendar::is_local(cal@));
    (plan, w)
}

/// Whether some closed hour of a device, ignoring case, begins at a time.
pub open spec fn device_has_hour(
    h: HistogramView,
    ifindex: u32,
    mac: Seq<char>,
    start_ts_ms: u64,
) -> bool {
    exists|i: int|
        0 <= i < h.devices.completed.len() && histogram::names_device(
            (#[trigger] h.devices.completed[i]).0,
            ifindex,
            mac,
        ) && histogram::begins_at(h.devices.completed[i].1, start_ts_ms)
}

/// The histogram after a saved hour has been dealt with, where `w` is the hour around now. A closed
/// hour is added unless one with the same beginning is there.
pub open spec fn recovered(h: HistogramView, p: PlannedView, w: (u64, u64)) -> HistogramView {
    let of_iface = p.key.series_type == "iface"@;
    match p.action {
        Action::RestoreCurrent => {
            let open = hours::normalized(p.key.hour_start_ts_ms, p.points, w);
            if of_iface {
                HistogramView {
                    ifaces: histogram::reopened(h.ifaces, p.ifindex, open),
                    ..h
                }
            } else {
                HistogramView {
                    devices: histogram::reopened(h.devices, (p.ifindex, p.key.mac), open),
                    ..h
                }
            }
        },
        Action::Promote(b) => if of_iface {
            if histogram::begins_at(
                table::lookup_or(h.ifaces.completed, p.ifindex, Seq::empty()),
                b.start_ts_ms,
            ) {
                h
            } else {
                HistogramView { ifaces: hours::closed(h.ifaces, p.ifindex, b), ..h }
            }
        } else if device_has_hour(h, p.ifindex, p.key.mac, b.start_ts_ms) {
            h
        } else {
            HistogramView {
                devices: hours::closed(h.devices, (p.ifindex, p.key.mac), b),
                ..h
            }
        },
        Action::DropOnly => h,
    }
}

/// Deals with a saved hour in the histogram, where `w` is the hour around now.
pub fn apply_recovery(histogram: &mut HistogramHistory, p: Planned, w: (u64, u64))
    ensures
        final(histogram)@ == recovered(old(histogram)@, p@, w),
        old(histogram).wf() ==> final(histogram).wf(),
{
    let of_iface = text::same_text(p.key.series_type.as_str(), "iface");
    match p.action {
        Action::RestoreCurrent => {
            if of_iface {
                histogram.restore_iface_points_within(
                    p.ifindex,
                    p.key.hour_start_ts_ms,
                    &p.points,
                    w,
                );
            } else {
                histogram.restore_device_points_within(
                    p.ifindex,
                    p.key.mac,
                    p.key.hour_start_ts_ms,
                    &p.points,
                    w,
                );
            }
        },
        Action::Promote(b) => {
            if of_iface {
                if !histogram.has_completed_iface_bucket(p.ifindex, b.start_ts_ms) {
                    histogram.restore_iface_bucket(p.ifindex, b);
                }
            } else if !histogram.has_completed_device_bucket(
                p.ifindex,
                p.key.mac.as_str(),
                b.start_ts_ms,
            ) {
                histogram.restore_device_bucket(p.ifindex, p.key.mac, b);
            }
        },
        Action::DropOnly => {},
    }
}

/// A row of the closed hours.
#[derive(Debug)]
pub struct BucketRow {
    pub series_type: String,
    pub logical_iface: String,
    pub mac: String,
    pub bucket: AggregatedBucket,
}

/// A row of the closed hours, with texts as characters.
#[verifier::ext_equal]
pub struct BucketRowView {
    pub series_type: Seq<char>,
    pub logical_iface: Seq<char>,
    pub mac: Seq<char>,
    pub bucket: AggregatedBucket,
}

impl View for BucketRow {
    type V = BucketRowView;

    open spec fn view(&self) -> BucketRowView {
        BucketRowView {
            series_type: self.series_type@,
            logical_iface: self.logical_iface@,
            mac: self.mac@,
            bucket: self.bucket,
        }
    }
}

/// The histogram after the closed hours in some rows have been added, those of unknown interfaces
/// left out.
pub open spec fn with_rows(
    h: HistogramView,
    rows: Seq<BucketRowView>,
    t: Seq<IfaceInfo>,
) -> HistogramView
    decreases rows.len(),
{
    if rows.len() == 0 {
        h
    } else {
        let rest = with_rows(h, rows.drop_last(), t);
        let r = rows.last();
        match topology::index_named(t, r.logical_iface) {
            Some(ifindex) => if r.series_type == "iface"@ {
                HistogramView { ifaces: hours::closed(rest.ifaces, ifindex, r.bucket), ..rest }
            } else {
                HistogramView {
                    devices: hours::closed(rest.devices, (ifindex, r.mac), r.bucket),
                    ..rest
                }
            },
            None => rest,
        }
    }
}

/// Adds the closed hours in some rows to the histogram.
pub fn restore_buckets(
    histogram: &mut HistogramHistory,
    rows: Vec<BucketRow>,
    topology: &TopologySnapshot,
)
    ensures
        final(histogram)@ == with_rows(old(histogram)@, sorting::views(rows@), topology@),
        old(histogram).wf() ==> final(histogram).wf(),
{
    let ghost first = histogram@;
    let ghost was = histogram.wf();
    let ghost all = sorting::views(rows@);
    let ghost given = rows@;
    assert(all.take(0) =~= Seq::<BucketRowView>::empty());
    for row in it: rows
        invariant
            it.seq() == given,
            all == sorting::views(given),
            histogram@ == with_rows(first, all.take(it.index() as int), topology@),
            was ==> histogram.wf(),
    {
        let ghost i = it.index() as int;
        assert(all.take(i + 1).drop_last() =~= all.take(i));
        assert(all.take(i + 1).last() == row@);
        if let Some(ifindex) = topology.ifindex_by_name(row.logical_iface.as_str()) {
            if text::same_text(row.series_type.as_str(), "iface") {
                histogram.restore_iface_bucket(ifindex, row.bucket);
            } else {
                histogram.restore_device_bucket(ifindex, row.mac, row.bucket);
            }
        }
    }
    assert(all.take(all.len() as int) =~= all);
}

/// The JSON text of a list of texts.
pub uninterp spec fn json_text(v: Seq<Seq<char>>) -> Seq<char>;

/// The list of texts that a JSON text stands for, if it does.
pub uninterp spec fn json_list(s: Seq<char>) -> Option<Seq<Seq<char>>>;

/// The texts of a list that may be missing.
pub open spec fn opt_texts(v: Option<Vec<String>>) -> Option<Seq<Seq<char>>> {
    match v {
        Some(x) => Some(lists::texts(x@)),
        None => None,
    }
}

/// `serde_json::to_string` of a list of texts. Claimed: it succeeds, the text depends on the list
/// alone, and it stands for the list.
#[verifier::external_body]
fn encode_texts(v: &Vec<String>) -> (r: Option<String>)
    ensures
        r is Some,
        r.unwrap()@ == json_text(lists::texts(v@)),
        json_list(r.unwrap()@) == Some(lists::texts(v@)),
{
    serde_json::to_string(v).ok()
}

/// `serde_json::from_str` into a list of texts. Claimed: the outcome depends on the text alone.
#[verifier::external_body]
fn decode_texts(s: &str) -> (r: Option<Vec<String>>)
    ensures
        opt_texts(r) == json_list(s@),
{
    serde_json::from_str(s).ok()
}

/// A row of the known devices.
#[derive(Debug)]
pub struct DeviceRow {
    pub logical_iface: String,
    pub mac: String,
    pub ipv4: String,
    pub ipv6: String,
    pub hostname: String,
    pub subnet: String,
    pub last_seen_ms: i64,
}

/// A row of the known devices, with texts as characters.
#[verifier::ext_equal]
pub struct DeviceRowView {
    pub logical_iface: Seq<char>,
    pub mac: Seq<char>,
    pub ipv4: Seq<char>,
    pub ipv6: Seq<char>,
    pub hostname: Seq<char>,
    pub subnet: Seq<char>,
    pub last_seen_ms: i64,
}

impl View for DeviceRow {
    type V = DeviceRowView;

    open spec fn view(&self) -> DeviceRowView {
        DeviceRowView {
            logical_iface: self.logical_iface@,
            mac: self.mac@,
            ipv4: self.ipv4@,
            ipv6: self.ipv6@,
            hostname: self.hostname@,
            subnet: self.subnet@,
            last_seen_ms: self.last_seen_ms,
        }
    }
}

/// The row of a known device, where its lists of addresses have been written as text.
pub open spec fn row_with(d: PersistedView, ipv4: Seq<char>, ipv6: Seq<char>) -> DeviceRowView {
    DeviceRowView {
        logical_iface: d.logical_iface,
        mac: d.mac,
        ipv4,
        ipv6,
        hostname: d.hostname,
        subnet: d.subnet,
        last_seen_ms: calendar::signed(d.last_seen_ms) as i64,
    }
}

/// The known device in a row, where its lists of addresses have been read. A list that cannot be
/// read is empty, and a time before the epoch is the epoch.
pub open spec fn device_with(
    r: DeviceRowView,
    ipv4: Option<Seq<Seq<char>>>,
    ipv6: Option<Seq<Seq<char>>>,
) -> PersistedView {
    PersistedView {
        logical_iface: r.logical_iface,
        mac: r.mac,
        ipv4: match ipv4 {
            Some(v) => v,
            None => Seq::empty(),
        },
        ipv6: match ipv6 {
            Some(v) => v,
            None => Seq::empty(),
        },
        hostname: r.hostname,
        subnet: r.subnet,
        last_seen_ms: if r.last_seen_ms > 0 {
            r.last_seen_ms as u64
        } else {
            0
        },
    }
}

/// The known device in a row.
pub open spec fn device_in(r: DeviceRowView) -> PersistedView {
    device_with(r, json_list(r.ipv4), json_list(r.ipv6))
}

/// The row of a known device, where its lists of addresses have been written as text.
pub fn row_from_parts(d: &PersistedKnownDevice, ipv4: String, ipv6: String) -> (r: DeviceRow)
    ensures
        r@ == row_with(d@, ipv4@, ipv6@),
{
    DeviceRow {
        logical_iface: d.logical_iface.clone(),
        mac: d.mac.clone(),
        ipv4,
        ipv6,
        hostname: d.hostname.clone(),
        subnet: d.subnet.clone(),
        last_seen_ms: calendar::to_signed(d.last_seen_ms),
    }
}

/// The known device in a row, where its lists of addresses have been read.
pub fn device_from_parts(
    r: DeviceRow,
    ipv4: Option<Vec<String>>,
    ipv6: Option<Vec<String>>,
) -> (d: PersistedKnownDevice)
    ensures
        d@ == device_with(r@, opt_texts(ipv4), opt_texts(ipv6)),
{
    let ipv4 = match ipv4 {
        Some(v) => v,
        None => {
            let v: Vec<String> = Vec::new();
            assert(lists::texts(v@) =~= Seq::<Seq<char>>::empty());
            v
        },
    };
    let ipv6 = match ipv6 {
        Some(v) => v,
        None => {
            let v: Vec<String> = Vec::new();
            assert(lists::texts(v@) =~= Seq::<Seq<char>>::empty());
            v
        },
    };
    PersistedKnownDevice {
        logical_iface: r.logical_iface,
        mac: r.mac,
        ipv4,
        ipv6,
        hostname: r.hostname,
        subnet: r.subnet,
        last_seen_ms: if r.last_seen_ms > 0 {
            r.last_seen_ms as u64
        } else {
            0
        },
    }
}

/// The row of a known device. A device that was last seen at a time that a row can hold is read
/// back from it as it was.
pub fn device_to_row(d: &PersistedKnownDevice) -> (r: DeviceRow)
    ensures
        r@ == row_with(d@, json_text(d@.ipv4), json_text(d@.ipv6)),
        d@.last_seen_ms <= i64::MAX ==> device_in(r@) == d@,
{
    let ipv4 = encode_texts(&d.ipv4).unwrap();
    let ipv6 = encode_texts(&d.ipv6).unwrap();
    row_from_parts(d, ipv4, ipv6)
}

/// The known device in a row.
pub fn row_to_device(r: DeviceRow) -> (d: PersistedKnownDevice)
    ensures
        d@ == device_in(r@),
{
    let ipv4 = decode_texts(r.ipv4.as_str());
    let ipv6 = decode_texts(r.ipv6.as_str());
    device_from_parts(r, ipv4, ipv6)
}

/// Whether rows are those of some devices, one for each.
pub open spec fn rows_hold(rows: Seq<DeviceRowView>, devices: Seq<PersistedView>) -> bool {
    &&& rows.len() == devices.len()
    &&& forall|i: int|
        0 <= i < rows.len() ==> #[trigger] rows[i] == row_with(
            devices[i],
            json_text(devices[i].ipv4),
            json_text(devices[i].ipv6),
        )
}

/// The rows in which the known devices are saved, in order.
pub fn known_device_rows(runtime: &MonitorRuntime, topology: &TopologySnapshot) -> (r: Vec<
    DeviceRow,
>)
    ensures
        rows_hold(sorting::views(r@), runtime::exported(runtime@.registry, topology@)),
        forall|i: int|
            0 <= i < r@.len() && runtime::exported(runtime@.registry, topology@)[i].last_seen_ms
                <= i64::MAX ==> device_in((#[trigger] r@[i])@) == runtime::exported(
                runtime@.registry,
                topology@,
            )[i],
{
    let state = runtime::export_runtime_state(runtime, topology);
    let v = &state.known_devices;
    let ghost all = runtime::exported(runtime@.registry, topology@);
    let mut r: Vec<DeviceRow> = Vec::new();
    for i in 0..v.len()
        invariant
            all == sorting::views(v@),
            r@.len() == i,
            forall|j: int|
                0 <= j < i ==> (#[trigger] r@[j])@ == row_with(
                    all[j],
                    json_text(all[j].ipv4),
                    json_text(all[j].ipv6),
                ),
            forall|j: int|
                0 <= j < i && all[j].last_seen_ms <= i64::MAX ==> device_in((#[trigger] r@[j])@)
                    == all[j],
    {
        assert(all[i as int] == v@[i as int]@);
        r.push(device_to_row(&v[i]));
    }
    r
}

/// The known devices in some rows.
pub open spec fn devices_in(rows: Seq<DeviceRowView>) -> Seq<PersistedView> {
    Seq::new(rows.len(), |i: int| device_in(rows[i]))
}

/// Replaces the known devices by those in some rows.
pub fn restore_known_devices(
    runtime: &mut MonitorRuntime,
    rows: Vec<DeviceRow>,
    topology: &TopologySnapshot,
) -> (r: Result<(), String>)
    ensures
        r is Ok,
        final(runtime)@ == (runtime::RuntimeView {
            registry: runtime::imported(devices_in(sorting::views(rows@)), topology@),
            ..old(runtime)@
        }),
        old(runtime).wf() ==> final(runtime).wf(),
{
    let ghost given = rows@;
    let mut known_devices: Vec<PersistedKnownDevice> = Vec::new();
    for row in it: rows
        invariant
            it.seq() == given,
            known_devices@.len() == it.index(),
            forall|j: int|
                0 <= j < known_devices@.len() ==> (#[trigger] known_devices@[j])@ == device_in(
                    given[j]@,
                ),
    {
        known_devices.push(row_to_device(row));
    }
    assert(sorting::views(known_devices@) =~= devices_in(sorting::views(given)));
    runtime::import_runtime_state(runtime, MonitorRuntimeState { known_devices }, topology)
}

/// What is to be done to a database of some version.
#[derive(Debug, Clone, Copy, PartialEq, Eq, Structural)]
pub enum Migration {
    UpToDate,
    CreateTables,
    Unsupported,
}

/// What is to be done to a database of some version: the current one is left alone, and a fresh one
/// gets its tables.
pub fn migration_for(version: i32) -> (r: Migration)
    ensures
        r == (if version == DB_USER_VERSION {
            Migration::UpToDate
        } else if version == 0 {
            Migration::CreateTables
        } else {
            Migration::Unsupported
        }),
{
    if version == DB_USER_VERSION {
        Migration::UpToDate
    } else if version == 0 {
        Migration::CreateTables
    } else {
        Migration::Unsupported
    }
}

/// Whether a saved policy of some version can be read.
pub fn policy_schema_supported(version: u32) -> (r: bool)
    ensures
        r == (version == POLICY_SCHEMA_VERSION),
{
    version == POLICY_SCHEMA_VERSION
}

/// The time before which closed hours are deleted; none where zero days are to be kept.
pub fn prune_cutoff(retention_days: u32, now_ms: u64) -> (r: Option<i64>)
    ensures
        retention_days == 0 <==> r is None,
        retention_days > 0 ==> r == Some(
            calendar::signed(
                (if now_ms >= retention_days * 86_400_000 {
                    now_ms - retention_days * 86_400_000
                } else {
                    0
                }) as u64,
            ) as i64,
        ),
{
    if retention_days == 0 {
        return None;
    }
    let retention_ms: u64 = retention_days as u64 * 86_400_000;
    Some(calendar::to_signed(now_ms.saturating_sub(retention_ms)))
}

/// The statement that gives free pages of the database back; none where no pages are asked for.
pub fn vacuum_statement(pages: i64) -> (r: Option<String>)
    ensures
        match r {
            Some(s) => pages > 0 && s@ == "PRAGMA incremental_vacuum("@ + command::decimal_text(
                pages as nat,
            ) + ");"@,
            None => pages <= 0,
        },
{
    if pages <= 0 {
        return None;
    }
    let mut s = "PRAGMA incremental_vacuum(".to_owned();
    command::push_decimal(&mut s, pages as u64);
    s.append(");");
    Some(s)
}

/// The characters of a text that are not colons.
pub open spec fn without_colons(s: Seq<char>) -> Seq<char> {
    lists::picked(s, |c: char| c != ':')
}

/// The twelve digits of an address in small letters, wherever colons stand, if it has twelve.
pub open spec fn mac_hex(s: Seq<char>) -> Option<Seq<char>> {
    let compact = text::ascii_lower(without_colons(s));
    if compact.len() == 12 && (forall|i: int|
        0 <= i < compact.len() ==> mac::hex_digit(#[trigger] compact[i]) is Some) {
        Some(compact)
    } else {
        None
    }
}

/// The twelve digits of an address in small letters, wherever colons stand, if it has twelve.
pub fn normalize_mac_hex(s: &str) -> (r: Option<String>)
    ensures
        match r {
            Some(t) => mac_hex(s@) == Some(t@),
            None => mac_hex(s@) is None,
        },
{
    let ghost p = |c: char| c != ':';
    let v = text::chars_of(s);
    let mut compact: Vec<char> = Vec::new();
    assert(v@.take(0) =~= Seq::<char>::empty());
    assert(compact@ =~= text::ascii_lower(lists::picked(v@.take(0), p)));
    for i in 0..v.len()
        invariant
            p == (|c: char| c != ':'),
            compact@ == text::ascii_lower(lists::picked(v@.take(i as int), p)),
    {
        let c = v[i];
        proof {
            assert(v@.take(i + 1) =~= v@.take(i as int).push(c));
            lists::lemma_picked_push(v@.take(i as int), c, p);
        }
        if c != ':' {
            let ghost before = lists::picked(v@.take(i as int), p);
            compact.push(text::to_lower_char(c));
            assert(compact@ =~= text::ascii_lower(before.push(c)));
        }
    }
    assert(v@.take(v@.len() as int) =~= v@);
    assert(compact@ == text::ascii_lower(without_colons(s@)));
    if compact.len() != 12 {
        return None;
    }
    for i in 0..compact.len()
        invariant
            compact@ == text::ascii_lower(without_colons(s@)),
            forall|j: int| 0 <= j < i ==> mac::hex_digit(#[trigger] compact@[j]) is Some,
    {
        if mac::char_digit(compact[i]).is_none() {
            assert(mac::hex_digit(compact@[i as int]) is None);
            return None;
        }
    }
    Some(text::text_of(&compact))
}

/// The address under which the hours of a device are kept: the text in small letters, if it has
/// twelve digits.
pub fn bucket_mac(s: &str) -> (r: Option<String>)
    ensures
        match r {
            Some(t) => mac_hex(s@) is Some && t@ == text::ascii_lower(s@),
            None => mac_hex(s@) is None,
        },
{
    match normalize_mac_hex(s) {
        Some(_) => Some(text::to_lower(s)),
        None => None,
    }
}

/// Every written form of a hardware address has twelve digits.
pub proof fn lemma_mac_text_kept(s: Seq<char>)
    requires
        mac::is_mac_text(s),
    ensures
        mac_hex(s) is Some,
{
    let p = |c: char| c != ':';
    let c = without_colons(s);
    lemma_picked_len(s, 17);
    assert forall|i: int| 0 <= i < c.len() implies mac::hex_digit(
        #[trigger] text::ascii_lower(c)[i],
    ) is Some by {
        lists::lemma_picked_member(s, p, i);
        let j = choose|j: int| 0 <= j < s.len() && s[j] == c[i];
        assert(s[j] != ':');
        assert(mac::hex_digit(s[j]) is Some);
    }
}

proof fn lemma_picked_len(s: Seq<char>, n: int)
    requires
        mac::is_mac_text(s),
        0 <= n <= 17,
    ensures
        lists::picked(s.take(n), |c: char| c != ':').len() == n - n / 3,
        n == 17 ==> without_colons(s).len() == 12,
    decreases n,
{
    let p = |c: char| c != ':';
    if n > 0 {
        lemma_picked_len(s, n - 1);
        assert(s.take(n) =~= s.take(n - 1).push(s[n - 1]));
        lists::lemma_picked_push(s.take(n - 1), s[n - 1], p);
        if (n - 1) % 3 == 2 {
            assert(s[n - 1] == ':');
        } else {
            assert(mac::hex_digit(s[n - 1]) is Some);
            assert(s[n - 1] != ':');
        }
    }
    if n == 17 {
        assert(s.take(17) =~= s);
    }
}

/// Dealing with the same saved hour again changes nothing more.
pub proof fn lemma_recovery_repeats(h: HistogramView, p: PlannedView, w: (u64, u64))
    ensures
        recovered(recovered(h, p, w), p, w) == recovered(h, p, w),
{
    let g = recovered(h, p, w);
    match p.action {
        Action::RestoreCurrent => {
            if let Some(o) = hours::normalized(p.key.hour_start_ts_ms, p.points, w) {
                if p.key.series_type == "iface"@ {
                    table::lemma_assigned_twice(h.ifaces.current, p.ifindex, o);
                } else {
                    table::lemma_assigned_twice(h.devices.current, (p.ifindex, p.key.mac), o);
                }
            }
        },
        Action::Promote(b) => {
            if p.key.series_type == "iface"@ {
                hours::lemma_closed_lookup(h.ifaces, p.ifindex, b, p.ifindex);
                let q = table::lookup_or(
                    hours::closed(h.ifaces, p.ifindex, b).completed,
                    p.ifindex,
                    Seq::empty(),
                );
                assert(q[q.len() - 1].start_ts_ms == b.start_ts_ms);
            } else {
                let k = (p.ifindex, p.key.mac);
                hours::lemma_closed_lookup(h.devices, k, b, k);
                let c = hours::closed(h.devices, k, b).completed;
                let n = table::place_of(c, k);
                assert(table::is_place(c, k, n));
                let q = c[n].1;
                assert(q[q.len() - 1].start_ts_ms == b.start_ts_ms);
                assert(histogram::names_device(c[n].0, p.ifindex, p.key.mac));
            }
        },
        Action::DropOnly => {},
    }
}

} // verus!
