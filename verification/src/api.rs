//! What the requests of the interface ask for, and what they are answered.

use vstd::prelude::*;

use crate::calendar;
use crate::calendar::Calendar;
use crate::calendar::Lookups;
use crate::calendar::PeriodScope;
use crate::counters;
use crate::counters::AggregateBucket;
use crate::counters::CounterQuad;
use crate::counters::HistoryDirection;
use crate::counters::HistoryTrafficType;
use crate::histogram;
use crate::histogram::HistogramHistory;
use crate::histogram::HistogramView;
use crate::history;
use crate::history::HistorySample;
use crate::history::HistoryView;
use crate::history::TrafficHistory;
use crate::lists;
use crate::mac;
use crate::snapshot;
use crate::snapshot::DeviceListItem;
use crate::snapshot::DeviceView;
use crate::snapshot::InterfaceOverviewItem;
use crate::snapshot::InterfaceView;
use crate::snapshot::SnapshotData;
use crate::sorting;
use crate::table;
use crate::text;
use crate::topology;
use crate::topology::IfaceInfo;
use crate::topology::TopologySnapshot;

verus! {

/// An answer: whether the request was met, what was asked for, and what went wrong.
#[derive(Debug)]
pub struct ApiEnvelope<T> {
    pub ok: bool,
    pub data: T,
    pub error: Option<String>,
}

/// The answer to a request that was met.
pub fn ok_reply<T>(data: T) -> (r: ApiEnvelope<T>)
    ensures
        r.ok,
        r.data == data,
        r.error is None,
{
    ApiEnvelope { ok: true, data, error: None }
}

/// The answer to a request that was not met.
pub fn error_reply<T>(data: T, error: String) -> (r: ApiEnvelope<T>)
    ensures
        !r.ok,
        r.data == data,
        snapshot::opt_text(r.error) == Some(error@),
{
    ApiEnvelope { ok: false, data, error: Some(error) }
}

/// A reading of the clock.
#[verifier::external_type_specification]
#[verifier::external_body]
pub struct ExSystemTime(std::time::SystemTime);

/// That a reading of the clock lies before another one.
#[verifier::external_type_specification]
#[verifier::external_body]
pub struct ExSystemTimeError(std::time::SystemTimeError);

/// `std::time::SystemTime::now`: a reading of the clock. Nothing is claimed of it.
pub assume_specification[ std::time::SystemTime::now ]() -> (r: std::time::SystemTime)
;

/// `std::time::SystemTime::duration_since` for the epoch: the time from there to a reading of the
/// clock, or an error where the reading lies before. Which of the two it is depends on the clock,
/// and nothing is claimed of it.
#[verifier::external_body]
fn since_epoch(t: std::time::SystemTime) -> (r: Result<
    std::time::Duration,
    std::time::SystemTimeError,
>) {
    t.duration_since(std::time::UNIX_EPOCH)
}

/// `std::time::Duration::as_millis`: the whole milliseconds of a span of time. The span comes from
/// the clock alone, and nothing is claimed of the number.
pub assume_specification[ std::time::Duration::as_millis ](d: &std::time::Duration) -> (r: u128)
;

/// The low half of a number of milliseconds.
pub fn low_half(ms: u128) -> (r: u64)
    ensures
        r == ms % 0x1_0000_0000_0000_0000,
{
    (ms % 0x1_0000_0000_0000_0000) as u64
}

/// The milliseconds since the epoch; zero for a clock that shows a time before it.
pub fn epoch_millis(since: Option<u128>) -> (r: u64)
    ensures
        r == (match since {
            Some(ms) => ms % 0x1_0000_0000_0000_0000,
            None => 0,
        }),
{
    match since {
        Some(ms) => low_half(ms),
        None => 0,
    }
}

/// The milliseconds since the epoch.
pub fn now_millis() -> u64 {
    match since_epoch(std::time::SystemTime::now()) {
        Ok(d) => epoch_millis(Some(d.as_millis())),
        Err(_) => epoch_millis(None),
    }
}

/// The text of a request field that is there and not blank.
pub open spec fn filled_in(s: Option<Seq<char>>) -> Option<Seq<char>> {
    match s {
        Some(t) if text::trimmed(t).len() > 0 => Some(t),
        _ => None,
    }
}

/// The text of a request field that is there and not blank.
pub fn fill_in<'a>(s: Option<&'a str>) -> (r: Option<&'a str>)
    ensures
        histogram::opt_str(r) == filled_in(histogram::opt_str(s)),
{
    match s {
        Some(t) => if text::trim(t).is_empty() {
            None
        } else {
            Some(t)
        },
        None => None,
    }
}

/// A text that may be missing, by reference.
pub fn as_text(s: &Option<String>) -> (r: Option<&str>)
    ensures
        histogram::opt_str(r) == snapshot::opt_text(*s),
{
    match s {
        Some(t) => Some(t.as_str()),
        None => None,
    }
}

/// The period that a text names, ignoring case and white space around it. No text, a blank one and
/// `all` stand for no period.
pub open spec fn period_named(s: Option<Seq<char>>) -> Result<Option<PeriodScope>, Seq<char>> {
    match s {
        None => Ok(None),
        Some(raw) => {
            let t = text::ascii_lower(text::trimmed(raw));
            if t.len() == 0 || t == "all"@ {
                Ok(None)
            } else if t == "today"@ {
                Ok(Some(PeriodScope::Today))
            } else if t == "week"@ {
                Ok(Some(PeriodScope::Week))
            } else if t == "month"@ {
                Ok(Some(PeriodScope::Month))
            } else if t == "year"@ {
                Ok(Some(PeriodScope::Year))
            } else {
                Err("invalid period, expected one of: all, today, week, month, year"@)
            }
        },
    }
}

/// A result with its error as characters.
pub open spec fn outcome<T>(r: Result<T, String>) -> Result<T, Seq<char>> {
    match r {
        Ok(v) => Ok(v),
        Err(e) => Err(e@),
    }
}

/// The period that a text names.
pub fn parse_period_scope(input: Option<&str>) -> (r: Result<Option<PeriodScope>, String>)
    ensures
        outcome(r) == period_named(histogram::opt_str(input)),
{
    let Some(raw) = input else {
        return Ok(None);
    };
    let t = text::to_lower(text::trim(raw));
    let s = t.as_str();
    if s.is_empty() || text::same_text(s, "all") {
        Ok(None)
    } else if text::same_text(s, "today") {
        Ok(Some(PeriodScope::Today))
    } else if text::same_text(s, "week") {
        Ok(Some(PeriodScope::Week))
    } else if text::same_text(s, "month") {
        Ok(Some(PeriodScope::Month))
    } else if text::same_text(s, "year") {
        Ok(Some(PeriodScope::Year))
    } else {
        Err("invalid period, expected one of: all, today, week, month, year".to_owned())
    }
}

/// The IP family that a text names, ignoring case; any other text, or none, stands for all.
pub open spec fn type_named(s: Option<Seq<char>>) -> HistoryTrafficType {
    match s {
        Some(t) => if text::ascii_lower(t) == "ipv4"@ {
            HistoryTrafficType::Ipv4
        } else if text::ascii_lower(t) == "ipv6"@ {
            HistoryTrafficType::Ipv6
        } else {
            HistoryTrafficType::All
        },
        None => HistoryTrafficType::All,
    }
}

/// The IP family that a text names.
pub fn parse_traffic_type(input: Option<&str>) -> (r: HistoryTrafficType)
    ensures
        r == type_named(histogram::opt_str(input)),
{
    let Some(raw) = input else {
        return HistoryTrafficType::All;
    };
    let t = text::to_lower(raw);
    if text::same_text(t.as_str(), "ipv4") {
        HistoryTrafficType::Ipv4
    } else if text::same_text(t.as_str(), "ipv6") {
        HistoryTrafficType::Ipv6
    } else {
        HistoryTrafficType::All
    }
}

/// The direction that a text names, ignoring case; any other text, or none, stands for both.
pub open spec fn direction_named(s: Option<Seq<char>>) -> HistoryDirection {
    match s {
        Some(t) => if text::ascii_lower(t) == "up"@ {
            HistoryDirection::Up
        } else if text::ascii_lower(t) == "down"@ {
            HistoryDirection::Down
        } else {
            HistoryDirection::Both
        },
        None => HistoryDirection::Both,
    }
}

/// The direction that a text names.
pub fn parse_direction(input: Option<&str>) -> (r: HistoryDirection)
    ensures
        r == direction_named(histogram::opt_str(input)),
{
    let Some(raw) = input else {
        return HistoryDirection::Both;
    };
    let t = text::to_lower(raw);
    if text::same_text(t.as_str(), "up") {
        HistoryDirection::Up
    } else if text::same_text(t.as_str(), "down") {
        HistoryDirection::Down
    } else {
        HistoryDirection::Both
    }
}

/// The width of buckets that a text names, ignoring case; any other text, or none, stands for
/// hours.
pub open spec fn bucket_named(s: Option<Seq<char>>) -> AggregateBucket {
    match s {
        Some(t) => if text::ascii_lower(t) == "daily"@ {
            AggregateBucket::Daily
        } else {
            AggregateBucket::Hourly
        },
        None => AggregateBucket::Hourly,
    }
}

/// The width of buckets that a text names.
pub fn parse_bucket(input: Option<&str>) -> (r: AggregateBucket)
    ensures
        r == bucket_named(histogram::opt_str(input)),
{
    let Some(raw) = input else {
        return AggregateBucket::Hourly;
    };
    if text::same_text(text::to_lower(raw).as_str(), "daily") {
        AggregateBucket::Daily
    } else {
        AggregateBucket::Hourly
    }
}

/// The index of the first shown interface with a name.
pub open spec fn shown_index(items: Seq<InterfaceView>, name: Seq<char>) -> Option<u32>
    decreases items.len(),
{
    if items.len() == 0 {
        None
    } else if items[0].ifname == name {
        Some(items[0].ifindex)
    } else {
        shown_index(items.drop_first(), name)
    }
}

/// The index of the interface that a request names: by the topology, else by what is shown.
pub open spec fn resolved(
    t: Seq<IfaceInfo>,
    s: Seq<InterfaceView>,
    iface: Option<Seq<char>>,
) -> Result<u32, Seq<char>> {
    match filled_in(iface) {
        None => Err("iface is required"@),
        Some(raw) => {
            let name = text::trimmed(raw);
            match topology::index_named(t, name) {
                Some(ifindex) => Ok(ifindex),
                None => match shown_index(s, name) {
                    Some(ifindex) => Ok(ifindex),
                    None => Err("unknown iface: "@ + name),
                },
            }
        },
    }
}

/// What is said of a name that no interface has.
pub fn unknown_iface(name: &str) -> (r: String)
    ensures
        r@ == "unknown iface: "@ + name@,
{
    let mut r = "unknown iface: ".to_owned();
    r.append(name);
    r
}

fn find_shown(items: &Vec<InterfaceOverviewItem>, name: &str) -> (r: Option<u32>)
    ensures
        r == shown_index(sorting::views(items@), name@),
{
    let ghost all = sorting::views(items@);
    assert(all.skip(0) =~= all);
    for i in 0..items.len()
        invariant
            all == sorting::views(items@),
            shown_index(all, name@) == shown_index(all.skip(i as int), name@),
    {
        assert(all.skip(i as int)[0] == items@[i as int]@);
        assert(all.skip(i as int).drop_first() =~= all.skip(i + 1));
        if text::same_text(items[i].ifname.as_str(), name) {
            return Some(items[i].ifindex);
        }
    }
    None
}

/// The index of the interface that a request names.
pub fn resolve_query_iface_to_ifindex(
    topology: &TopologySnapshot,
    snapshot: &SnapshotData,
    iface: Option<&str>,
) -> (r: Result<u32, String>)
    ensures
        outcome(r) == resolved(topology@, snapshot@.interfaces, histogram::opt_str(iface)),
{
    let Some(raw) = fill_in(iface) else {
        return Err("iface is required".to_owned());
    };
    let name = text::trim(raw);
    if let Some(ifindex) = topology.ifindex_by_name(name) {
        return Ok(ifindex);
    }
    match find_shown(&snapshot.interfaces, name) {
        Some(ifindex) => Ok(ifindex),
        None => Err(unknown_iface(name)),
    }
}

/// What is asked of the overview.
#[derive(Debug, Default)]
pub struct OverviewQuery {
    pub period: Option<String>,
}

/// What is asked of the devices.
#[derive(Debug, Default)]
pub struct DevicesQuery {
    pub iface: Option<String>,
    pub period: Option<String>,
}

/// The bytes of a series within a range of times, by the hour.
pub open spec fn bytes_within(
    h: HistogramView,
    ifindex: u32,
    mac: Option<Seq<char>>,
    range: (u64, u64),
    cal: Lookups,
) -> CounterQuad {
    counters::quad_total(
        counters::bytes_of(
            histogram::aggregate(
                h,
                ifindex,
                mac,
                range.0,
                range.1,
                AggregateBucket::Hourly,
                cal,
            ),
        ),
    )
}

/// Shown interfaces with the bytes of a range of times as their totals.
pub open spec fn ifaces_within(
    s: Seq<InterfaceView>,
    h: HistogramView,
    range: (u64, u64),
    cal: Lookups,
) -> Seq<InterfaceView> {
    Seq::new(
        s.len(),
        |i: int|
            InterfaceView {
                cumulative: bytes_within(h, s[i].ifindex, None, range, cal),
                ..s[i]
            },
    )
}

/// Shown devices with the bytes of a range of times as their totals.
pub open spec fn devices_within(
    s: Seq<DeviceView>,
    h: HistogramView,
    range: (u64, u64),
    cal: Lookups,
) -> Seq<DeviceView> {
    Seq::new(
        s.len(),
        |i: int|
            DeviceView {
                cumulative: bytes_within(h, s[i].ifindex, Some(s[i].mac), range, cal),
                ..s[i]
            },
    )
}

/// Sets the totals of shown interfaces to the bytes of a range of times.
pub fn set_ifaces_within(
    items: &mut Vec<InterfaceOverviewItem>,
    histogram: &HistogramHistory,
    range: (u64, u64),
    cal: &Calendar,
)
    ensures
        sorting::views(final(items)@) == ifaces_within(
            sorting::views(old(items)@),
            histogram@,
            range,
            cal@,
        ),
{
    let ghost first = sorting::views(items@);
    let n: usize = items.len();
    for i in 0..n
        invariant
            n == first.len(),
            items@.len() == n,
            forall|j: int|
                0 <= j < i ==> (#[trigger] items@[j])@ == ifaces_within(
                    first,
                    histogram@,
                    range,
                    cal@,
                )[j],
            forall|j: int| i <= j < n ==> (#[trigger] items@[j])@ == first[j],
    {
        let ifindex: u32 = items[i].ifindex;
        assert(items@[i as int]@ == first[i as int]);
        let found = histogram.query_aggregate_within(
            ifindex,
            None,
            range.0,
            range.1,
            AggregateBucket::Hourly,
            cal,
        );
        items[i].cumulative = counters::cumulative_from_buckets(&found);
    }
    assert(sorting::views(items@) =~= ifaces_within(first, histogram@, range, cal@));
}

/// Sets the totals of shown devices to the bytes of a range of times.
pub fn set_devices_within(
    items: &mut Vec<DeviceListItem>,
    histogram: &HistogramHistory,
    range: (u64, u64),
    cal: &Calendar,
)
    ensures
        sorting::views(final(items)@) == devices_within(
            sorting::views(old(items)@),
            histogram@,
            range,
            cal@,
        ),
{
    let ghost first = sorting::views(items@);
    let n: usize = items.len();
    for i in 0..n
        invariant
            n == first.len(),
            items@.len() == n,
            forall|j: int|
                0 <= j < i ==> (#[trigger] items@[j])@ == devices_within(
                    first,
                    histogram@,
                    range,
                    cal@,
                )[j],
            forall|j: int| i <= j < n ==> (#[trigger] items@[j])@ == first[j],
    {
        assert(items@[i as int]@ == first[i as int]);
        let found = histogram.query_aggregate_within(
            items[i].ifindex,
            Some(items[i].mac.as_str()),
            range.0,
            range.1,
            AggregateBucket::Hourly,
            cal,
        );
        items[i].cumulative = counters::cumulative_from_buckets(&found);
    }
    assert(sorting::views(items@) =~= devices_within(first, histogram@, range, cal@));
}

/// The answer to a request for the overview: the shown interfaces, with the totals of a period
/// where one is named.
pub fn overview(
    snapshot: &SnapshotData,
    histogram: &HistogramHistory,
    q: &OverviewQuery,
    now_ms: u64,
) -> (r: ApiEnvelope<Vec<InterfaceOverviewItem>>)
    ensures
        match period_named(snapshot::opt_text(q.period)) {
            Err(e) => !r.ok && r.data@.len() == 0 && snapshot::opt_text(r.error) == Some(e),
            Ok(None) => r.ok && r.error is None && sorting::views(r.data@) == snapshot@.interfaces,
            Ok(Some(scope)) => r.ok && r.error is None && exists|cal: Lookups, start: u64|
                calendar::is_local(cal) && histogram::covers_histogram(cal, histogram@)
                    && #[trigger] calendar::can_be_period_start(scope, now_ms, start)
                    && sorting::views(r.data@) == #[trigger] ifaces_within(
                    snapshot@.interfaces,
                    histogram@,
                    (start, now_ms),
                    cal,
                ),
        },
{
    let period = match parse_period_scope(as_text(&q.period)) {
        Ok(p) => p,
        Err(e) => {
            return error_reply(Vec::new(), e);
        },
    };
    let mut data = snapshot::copy_interfaces(&snapshot.interfaces);
    if let Some(scope) = period {
        let range = calendar::period_range_ms(scope, now_ms);
        let cal = histogram.open_hours();
        set_ifaces_within(&mut data, histogram, range, &cal);
        assert(calendar::is_local(cal@) && histogram::covers_histogram(cal@, histogram@)
            && calendar::can_be_period_start(scope, now_ms, range.0) && sorting::views(data@)
            == ifaces_within(snapshot@.interfaces, histogram@, (range.0, now_ms), cal@));
    }
    ok_reply(data)
}

/// Whether a device is behind the interface that a request names; where it names none, every one
/// is.
pub open spec fn is_behind(d: DeviceView, iface: Option<Seq<char>>) -> bool {
    match iface {
        Some(name) => name.len() == 0 || d.logical_iface == name,
        None => true,
    }
}

/// The test for an interface, as a function of devices.
pub open spec fn behind_test(iface: Option<Seq<char>>) -> spec_fn(DeviceView) -> bool {
    |d: DeviceView| is_behind(d, iface)
}

/// The devices behind the interface that a request names.
pub open spec fn behind(s: Seq<DeviceView>, iface: Option<Seq<char>>) -> Seq<DeviceView> {
    lists::picked(s, behind_test(iface))
}

fn devices_behind(items: &Vec<DeviceListItem>, iface: &Option<String>) -> (r: Vec<DeviceListItem>)
    ensures
        sorting::views(r@) == lists::picked(
            sorting::views(items@),
            behind_test(snapshot::opt_text(*iface)),
        ),
{
    let ghost all = sorting::views(items@);
    let ghost p = behind_test(snapshot::opt_text(*iface));
    let mut r: Vec<DeviceListItem> = Vec::new();
    assert(all.take(0) =~= Seq::<DeviceView>::empty());
    assert(sorting::views(r@) =~= Seq::<DeviceView>::empty());
    for i in 0..items.len()
        invariant
            all == sorting::views(items@),
            p == behind_test(snapshot::opt_text(*iface)),
            sorting::views(r@) == lists::picked(all.take(i as int), p),
    {
        let d = &items[i];
        proof {
            assert(all.take(i + 1) =~= all.take(i as int).push(d@));
            lists::lemma_picked_push(all.take(i as int), d@, p);
        }
        let keep = match iface {
            Some(name) => name.as_str().is_empty() || d.logical_iface == *name,
            None => true,
        };
        if keep {
            let ghost before = sorting::views(r@);
            let x = d.clone();
            r.push(x);
            assert(sorting::views(r@) =~= before.push(d@));
        }
    }
    assert(all.take(all.len() as int) =~= all);
    r
}

/// The answer to a request for the devices: those behind an interface where one is named, with the
/// totals of a period where one is named.
pub fn devices(
    snapshot: &SnapshotData,
    histogram: &HistogramHistory,
    q: &DevicesQuery,
    now_ms: u64,
) -> (r: ApiEnvelope<Vec<DeviceListItem>>)
    ensures
        match period_named(snapshot::opt_text(q.period)) {
            Err(e) => !r.ok && r.data@.len() == 0 && snapshot::opt_text(r.error) == Some(e),
            Ok(None) => r.ok && r.error is None && sorting::views(r.data@) == behind(
                snapshot@.devices,
                snapshot::opt_text(q.iface),
            ),
            Ok(Some(scope)) => r.ok && r.error is None && exists|cal: Lookups, start: u64|
                calendar::is_local(cal) && histogram::covers_histogram(cal, histogram@)
                    && #[trigger] calendar::can_be_period_start(scope, now_ms, start)
                    && sorting::views(r.data@) == #[trigger] devices_within(
                    behind(snapshot@.devices, snapshot::opt_text(q.iface)),
                    histogram@,
                    (start, now_ms),
                    cal,
                ),
        },
{
    let period = match parse_period_scope(as_text(&q.period)) {
        Ok(p) => p,
        Err(e) => {
            return error_reply(Vec::new(), e);
        },
    };
    let mut data = devices_behind(&snapshot.devices, &q.iface);
    if let Some(scope) = period {
        let range = calendar::period_range_ms(scope, now_ms);
        let cal = histogram.open_hours();
        set_devices_within(&mut data, histogram, range, &cal);
        assert(calendar::is_local(cal@) && histogram::covers_histogram(cal@, histogram@)
            && calendar::can_be_period_start(scope, now_ms, range.0) && sorting::views(data@)
            == devices_within(
            behind(snapshot@.devices, snapshot::opt_text(q.iface)),
            histogram@,
            (range.0, now_ms),
            cal@,
        ));
    }
    ok_reply(data)
}

/// What is asked of the recent samples.
#[derive(Debug, Default)]
pub struct HistoryQuery {
    /// The name of an interface.
    pub iface: Option<String>,
    pub mac: Option<String>,
    /// `all`, `ipv4` or `ipv6`: what is about the other IP family is zero in the answer.
    pub traffic_type: Option<String>,
    pub direction: Option<String>,
}

/// The samples that a request asks for: those of a device where one is named, else those of the
/// interface, narrowed to an IP family.
pub open spec fn asked_samples(
    h: HistoryView,
    ifindex: u32,
    mac: Option<Seq<char>>,
    tt: HistoryTrafficType,
) -> Seq<HistorySample> {
    history::samples_of_type(
        match filled_in(mac) {
            Some(m) => history::sums_by_time(history::named_points(h.devices, Some(ifindex), m)),
            None => history::samples(history::points_under(h.ifaces, ifindex)),
        },
        tt,
    )
}

/// The answer to a request for recent samples, narrowed to the IP family that it names.
pub fn trend(
    topology: &TopologySnapshot,
    snapshot: &SnapshotData,
    history: &TrafficHistory,
    q: &HistoryQuery,
) -> (r: ApiEnvelope<Vec<HistorySample>>)
    ensures
        match resolved(topology@, snapshot@.interfaces, snapshot::opt_text(q.iface)) {
            Ok(ifindex) => r.ok && r.error is None && r.data@ == asked_samples(
                history@,
                ifindex,
                snapshot::opt_text(q.mac),
                type_named(snapshot::opt_text(q.traffic_type)),
            ),
            Err(e) => !r.ok && r.data@.len() == 0 && snapshot::opt_text(r.error) == Some(e),
        },
{
    let ifindex = match resolve_query_iface_to_ifindex(topology, snapshot, as_text(&q.iface)) {
        Ok(i) => i,
        Err(e) => {
            return error_reply(Vec::new(), e);
        },
    };
    let traffic_type = parse_traffic_type(as_text(&q.traffic_type));
    let direction = parse_direction(as_text(&q.direction));
    let data = match fill_in(as_text(&q.mac)) {
        Some(m) => history.query_device(Some(ifindex), m, traffic_type, direction),
        None => history.query_iface(ifindex, traffic_type, direction),
    };
    ok_reply(data)
}

} // verus!
