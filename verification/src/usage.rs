//! Requests for the traffic of ranges of times, and for the devices that carried most of it.

use vstd::prelude::*;

use crate::api;
use crate::api::ApiEnvelope;
use crate::calendar;
use crate::calendar::Calendar;
use crate::calendar::Lookups;
use crate::counters;
use crate::counters::AggregateBucket;
use crate::counters::AggregatedBucket;
use crate::counters::HistoryTrafficType;
use crate::histogram;
use crate::histogram::HistogramHistory;
use crate::histogram::HistogramView;
use crate::lists;
use crate::mac;
use crate::runtime::KnownDevice;
use crate::runtime::KnownView;
use crate::runtime::MonitorRuntime;
use crate::snapshot;
use crate::snapshot::InterfaceView;
use crate::snapshot::SnapshotData;
use crate::sorting;
use crate::sorting::Ranked;
use crate::stats;
use crate::sums;
use crate::table;
use crate::table::Table;
use crate::table::TableKey;
use crate::text;
use crate::topology::IfaceInfo;
use crate::topology::TopologySnapshot;

verus! {

/// What is asked of the hours and days.
#[derive(Debug, Default)]
pub struct AggregateQuery {
    /// The name of an interface.
    pub iface: Option<String>,
    pub mac: Option<String>,
    /// `all`, `ipv4` or `ipv6`.
    pub traffic_type: Option<String>,
    pub start_ms: Option<u64>,
    pub end_ms: Option<u64>,
    pub bucket: Option<String>,
}

/// The range of times that a request asks for: the day up to now, where it leaves an end open.
pub open spec fn asked_range(start_ms: Option<u64>, end_ms: Option<u64>, now_ms: u64) -> (u64, u64) {
    (
        match start_ms {
            Some(t) => t,
            None => if now_ms >= 86_400_000 {
                (now_ms - 86_400_000) as u64
            } else {
                0
            },
        },
        match end_ms {
            Some(t) => t,
            None => now_ms,
        },
    )
}

/// The written addresses of the known devices behind an interface.
pub open spec fn macs_behind(
    registry: Seq<((u32, Seq<u8>), KnownView)>,
    ifindex: u32,
) -> Seq<Seq<char>>
    decreases registry.len(),
{
    if registry.len() == 0 {
        Seq::empty()
    } else {
        let rest = macs_behind(registry.drop_last(), ifindex);
        let k = registry.last().0;
        if k.0 == ifindex {
            rest.push(mac::mac_text(k.1))
        } else {
            rest
        }
    }
}

/// The devices that a request asks for: the one that it names, else all behind the interface.
pub open spec fn asked_macs(
    registry: Seq<((u32, Seq<u8>), KnownView)>,
    ifindex: u32,
    mac: Option<Seq<char>>,
) -> Seq<Seq<char>> {
    match api::filled_in(mac) {
        Some(m) => seq![m],
        None => macs_behind(registry, ifindex),
    }
}

/// Buckets narrowed to an IP family.
pub open spec fn typed(s: Seq<AggregatedBucket>, tt: HistoryTrafficType) -> Seq<AggregatedBucket> {
    Seq::new(s.len(), |i: int| counters::of_type(s[i], tt))
}

/// Sums under windows with some buckets added, each under its own window.
pub open spec fn windows_added(
    acc: Seq<((u64, u64), AggregatedBucket)>,
    s: Seq<AggregatedBucket>,
) -> Seq<((u64, u64), AggregatedBucket)>
    decreases s.len(),
{
    if s.len() == 0 {
        acc
    } else {
        let rest = windows_added(acc, s.drop_last());
        let b = s.last();
        let k = (b.start_ts_ms, b.end_ts_ms);
        table::assigned(
            rest,
            k,
            counters::bucket_sum(
                table::lookup_or(rest, k, counters::blank_bucket(k.0, k.1)),
                b,
            ),
        )
    }
}

/// The buckets of some devices summed under their windows.
pub open spec fn windows_of(
    h: HistogramView,
    ifindex: u32,
    macs: Seq<Seq<char>>,
    range: (u64, u64),
    bucket: AggregateBucket,
    cal: Lookups,
) -> Seq<((u64, u64), AggregatedBucket)>
    decreases macs.len(),
{
    if macs.len() == 0 {
        Seq::empty()
    } else {
        windows_added(
            windows_of(h, ifindex, macs.drop_last(), range, bucket, cal),
            histogram::aggregate(
                h,
                ifindex,
                Some(macs.last()),
                range.0,
                range.1,
                bucket,
                cal,
            ),
        )
    }
}

/// The sums under windows, as they come.
pub open spec fn sums_of(s: Seq<((u64, u64), AggregatedBucket)>) -> Seq<AggregatedBucket> {
    Seq::new(s.len(), |i: int| s[i].1)
}

/// A sum in a list that is ordered by window.
#[derive(Debug, Clone, Copy)]
pub struct ByWindow {
    pub bucket: AggregatedBucket,
}

impl View for ByWindow {
    type V = AggregatedBucket;

    open spec fn view(&self) -> AggregatedBucket {
        self.bucket
    }
}

impl Ranked for ByWindow {
    open spec fn rank(a: AggregatedBucket, b: AggregatedBucket) -> int {
        if a.start_ts_ms != b.start_ts_ms {
            u64::rank(a.start_ts_ms, b.start_ts_ms)
        } else {
            u64::rank(a.end_ts_ms, b.end_ts_ms)
        }
    }

    fn ranked_against(&self, other: &ByWindow) -> (r: i8) {
        if self.bucket.start_ts_ms != other.bucket.start_ts_ms {
            self.bucket.start_ts_ms.ranked_against(&other.bucket.start_ts_ms)
        } else {
            self.bucket.end_ts_ms.ranked_against(&other.bucket.end_ts_ms)
        }
    }

    proof fn law_flip(a: AggregatedBucket, b: AggregatedBucket) {
    }

    proof fn law_chain(a: AggregatedBucket, b: AggregatedBucket, c: AggregatedBucket) {
    }
}

impl TableKey for (u64, u64) {
    fn same(&self, other: &(u64, u64)) -> (r: bool) {
        self.0 == other.0 && self.1 == other.1
    }

    fn copied(&self) -> (r: (u64, u64)) {
        *self
    }
}

/// The buckets that a request asks for. Where it names no device, the devices behind the interface
/// are summed window by window, so that traffic of no device is left out.
pub open spec fn asked_buckets(
    h: HistogramView,
    registry: Seq<((u32, Seq<u8>), KnownView)>,
    ifindex: u32,
    mac: Option<Seq<char>>,
    range: (u64, u64),
    bucket: AggregateBucket,
    tt: HistoryTrafficType,
    cal: Lookups,
) -> Seq<AggregatedBucket> {
    typed(
        match api::filled_in(mac) {
            Some(m) => histogram::aggregate(
                h,
                ifindex,
                Some(m),
                range.0,
                range.1,
                bucket,
                cal,
            ),
            None => sorting::sorted::<ByWindow>(
                sums_of(
                    windows_of(h, ifindex, macs_behind(registry, ifindex), range, bucket, cal),
                ),
            ),
        },
        tt,
    )
}

fn type_all(v: Vec<AggregatedBucket>, tt: HistoryTrafficType) -> (r: Vec<AggregatedBucket>)
    ensures
        r@ == typed(v@, tt),
{
    let mut r: Vec<AggregatedBucket> = Vec::new();
    for i in 0..v.len()
        invariant
            r@ =~= typed(v@, tt).take(i as int),
    {
        r.push(v[i].with_traffic_type(tt));
    }
    r
}

fn list_macs(registry: &Table<(u32, [u8; 6]), KnownDevice>, ifindex: u32) -> (r: Vec<String>)
    ensures
        lists::texts(r@) == macs_behind(registry@, ifindex),
{
    let mut r: Vec<String> = Vec::new();
    assert(registry@.take(0) =~= Seq::<((u32, Seq<u8>), KnownView)>::empty());
    assert(lists::texts(r@) =~= Seq::<Seq<char>>::empty());
    let n: usize = registry.len();
    for i in 0..n
        invariant
            n == registry@.len(),
            lists::texts(r@) == macs_behind(registry@.take(i as int), ifindex),
    {
        assert(registry@.take(i + 1).drop_last() =~= registry@.take(i as int));
        let k = registry.key_at(i);
        if k.0 == ifindex {
            let ghost before = lists::texts(r@);
            let m = mac::to_string(&k.1);
            r.push(m);
            assert(lists::texts(r@) =~= before.push(mac::mac_text(k.1@)));
        }
    }
    assert(registry@.take(registry@.len() as int) =~= registry@);
    r
}

fn add_windows(acc: &mut Table<(u64, u64), AggregatedBucket>, s: &Vec<AggregatedBucket>)
    ensures
        final(acc)@ == windows_added(old(acc)@, s@),
        old(acc).wf() ==> final(acc).wf(),
{
    let ghost first = acc@;
    let ghost was = acc.wf();
    assert(s@.take(0) =~= Seq::<AggregatedBucket>::empty());
    for i in 0..s.len()
        invariant
            acc@ == windows_added(first, s@.take(i as int)),
            was ==> acc.wf(),
    {
        assert(s@.take(i + 1).drop_last() =~= s@.take(i as int));
        let b = s[i];
        let k = (b.start_ts_ms, b.end_ts_ms);
        let mut sum = match acc.get(&k) {
            Some(x) => *x,
            None => counters::empty_bucket(k.0, k.1),
        };
        counters::accumulate_bucket(&mut sum, &b);
        acc.insert(k, sum);
    }
    assert(s@.take(s@.len() as int) =~= s@);
}

fn sum_windows(
    histogram: &HistogramHistory,
    ifindex: u32,
    macs: &Vec<String>,
    range: (u64, u64),
    bucket: AggregateBucket,
    cal: &Calendar,
) -> (r: Vec<AggregatedBucket>)
    ensures
        r@ == sorting::sorted::<ByWindow>(
            sums_of(
                windows_of(histogram@, ifindex, lists::texts(macs@), range, bucket, cal@),
            ),
        ),
{
    let ghost all = lists::texts(macs@);
    let mut acc: Table<(u64, u64), AggregatedBucket> = Table::new();
    assert(all.take(0) =~= Seq::<Seq<char>>::empty());
    for i in 0..macs.len()
        invariant
            all == lists::texts(macs@),
            acc@ == windows_of(histogram@, ifindex, all.take(i as int), range, bucket, cal@),
    {
        assert(all.take(i + 1).drop_last() =~= all.take(i as int));
        assert(all.take(i + 1).last() == macs@[i as int]@);
        let found = histogram.query_aggregate_within(
            ifindex,
            Some(macs[i].as_str()),
            range.0,
            range.1,
            bucket,
            cal,
        );
        add_windows(&mut acc, &found);
    }
    assert(all.take(all.len() as int) =~= all);
    let mut list: Vec<ByWindow> = Vec::new();
    let n: usize = acc.len();
    for i in 0..n
        invariant
            n == acc@.len(),
            list@.len() == i,
            forall|j: int| 0 <= j < i ==> (#[trigger] list@[j])@ == acc@[j].1,
    {
        list.push(ByWindow { bucket: *acc.value_at(i) });
    }
    assert(sorting::views(list@) =~= sums_of(acc@));
    let ordered = sorting::sort_ranked(list);
    let mut r: Vec<AggregatedBucket> = Vec::new();
    for i in 0..ordered.len()
        invariant
            r@.len() == i,
            forall|j: int| 0 <= j < i ==> #[trigger] r@[j] == ordered@[j]@,
    {
        r.push(ordered[i].bucket);
    }
    assert(r@ =~= sorting::views(ordered@));
    r
}

/// The buckets that a request asks for, by the hours and days of a calendar.
pub fn buckets_within(
    runtime: &MonitorRuntime,
    histogram: &HistogramHistory,
    ifindex: u32,
    mac: Option<&str>,
    range: (u64, u64),
    bucket: AggregateBucket,
    tt: HistoryTrafficType,
    cal: &Calendar,
) -> (r: Vec<AggregatedBucket>)
    ensures
        r@ == asked_buckets(
            histogram@,
            runtime@.registry,
            ifindex,
            histogram::opt_str(mac),
            range,
            bucket,
            tt,
            cal@,
        ),
{
    let found = match api::fill_in(mac) {
        Some(m) => histogram.query_aggregate_within(
            ifindex,
            Some(m),
            range.0,
            range.1,
            bucket,
            cal,
        ),
        None => {
            let macs = list_macs(&runtime.device_registry.entries, ifindex);
            sum_windows(histogram, ifindex, &macs, range, bucket, cal)
        },
    };
    type_all(found, tt)
}

/// Whether a calendar answers for queries of some devices.
pub open spec fn covers_macs(
    cal: Lookups,
    h: HistogramView,
    ifindex: u32,
    macs: Seq<Seq<char>>,
    range: (u64, u64),
) -> bool {
    &&& histogram::covers_histogram(cal, h)
    &&& forall|i: int|
        0 <= i < macs.len() ==> histogram::covers_days(
            cal,
            histogram::queried_hours(
                h,
                ifindex,
                Some(#[trigger] macs[i]),
                range.0,
                range.1,
                cal,
            ),
        )
}

/// A calendar that answers for queries of some devices.
pub fn calendar_for(
    histogram: &HistogramHistory,
    ifindex: u32,
    macs: &Vec<String>,
    range: (u64, u64),
) -> (r: Calendar)
    ensures
        calendar::is_local(r@),
        covers_macs(r@, histogram@, ifindex, lists::texts(macs@), range),
{
    let mut cal = histogram.open_hours();
    let ghost first = cal@;
    let ghost all = lists::texts(macs@);
    for i in 0..macs.len()
        invariant
            all == lists::texts(macs@),
            calendar::is_local(cal@),
            cal@.hours == first.hours,
            histogram::covers_histogram(cal@, histogram@),
            forall|j: int|
                0 <= j < i ==> histogram::covers_days(
                    cal@,
                    histogram::queried_hours(
                        histogram@,
                        ifindex,
                        Some(#[trigger] all[j]),
                        range.0,
                        range.1,
                        first,
                    ),
                ),
    {
        let ghost before = cal@;
        let found = histogram.query_hours_within(
            ifindex,
            Some(macs[i].as_str()),
            range.0,
            range.1,
            &cal,
        );
        histogram::look_up_days(&found, &mut cal);
        proof {
            histogram::lemma_covers_extends(before, cal@, histogram@);
            histogram::lemma_queried_same(
                histogram@,
                ifindex,
                Some(all[i as int]),
                range.0,
                range.1,
                before,
                first,
            );
            assert(all[i as int] == macs@[i as int]@);
        }
    }
    proof {
        assert forall|i: int| 0 <= i < all.len() implies histogram::covers_days(
            cal@,
            histogram::queried_hours(
                histogram@,
                ifindex,
                Some(#[trigger] all[i]),
                range.0,
                range.1,
                cal@,
            ),
        ) by {
            histogram::lemma_queried_same(
                histogram@,
                ifindex,
                Some(all[i]),
                range.0,
                range.1,
                first,
                cal@,
            );
        }
    }
    cal
}

fn list_asked(registry: &Table<(u32, [u8; 6]), KnownDevice>, ifindex: u32, mac: Option<&str>) -> (r:
    Vec<String>)
    ensures
        lists::texts(r@) == asked_macs(registry@, ifindex, histogram::opt_str(mac)),
{
    match api::fill_in(mac) {
        Some(m) => {
            let mut r: Vec<String> = Vec::new();
            r.push(m.to_owned());
            assert(lists::texts(r@) =~= seq![m@]);
            r
        },
        None => list_macs(registry, ifindex),
    }
}

/// The answer to a request for hours or days.
pub fn histogram_reply(
    topology: &TopologySnapshot,
    snapshot: &SnapshotData,
    runtime: &MonitorRuntime,
    histogram: &HistogramHistory,
    q: &AggregateQuery,
    now_ms: u64,
) -> (r: ApiEnvelope<Vec<AggregatedBucket>>)
    ensures
        match api::resolved(topology@, snapshot@.interfaces, snapshot::opt_text(q.iface)) {
            Ok(ifindex) => r.ok && r.error is None && exists|cal: Lookups| #[trigger]
                calendar::is_local(cal) && covers_macs(
                    cal,
                    histogram@,
                    ifindex,
                    asked_macs(runtime@.registry, ifindex, snapshot::opt_text(q.mac)),
                    asked_range(q.start_ms, q.end_ms, now_ms),
                ) && r.data@ == asked_buckets(
                    histogram@,
                    runtime@.registry,
                    ifindex,
                    snapshot::opt_text(q.mac),
                    asked_range(q.start_ms, q.end_ms, now_ms),
                    api::bucket_named(snapshot::opt_text(q.bucket)),
                    api::type_named(snapshot::opt_text(q.traffic_type)),
                    cal,
                ),
            Err(e) => !r.ok && r.data@.len() == 0 && snapshot::opt_text(r.error) == Some(e),
        },
{
    let ifindex = match api::resolve_query_iface_to_ifindex(
        topology,
        snapshot,
        api::as_text(&q.iface),
    ) {
        Ok(i) => i,
        Err(e) => {
            return api::error_reply(Vec::new(), e);
        },
    };
    let start_ms: u64 = match q.start_ms {
        Some(t) => t,
        None => now_ms.saturating_sub(86_400_000),
    };
    let end_ms: u64 = match q.end_ms {
        Some(t) => t,
        None => now_ms,
    };
    let range = (start_ms, end_ms);
    let mac = api::as_text(&q.mac);
    let macs = list_asked(&runtime.device_registry.entries, ifindex, mac);
    let cal = calendar_for(histogram, ifindex, &macs, range);
    let data = buckets_within(
        runtime,
        histogram,
        ifindex,
        mac,
        range,
        api::parse_bucket(api::as_text(&q.bucket)),
        api::parse_traffic_type(api::as_text(&q.traffic_type)),
        &cal,
    );
    assert(calendar::is_local(cal@));
    api::ok_reply(data)
}

/// What is asked of the ranking.
#[derive(Debug, Default)]
pub struct UsageRankingQuery {
    /// The name of an interface.
    pub iface: Option<String>,
    /// `all`, `ipv4` or `ipv6`.
    pub traffic_type: Option<String>,
    pub start_ms: Option<u64>,
    pub end_ms: Option<u64>,
    /// The number of devices to show; zero shows all.
    pub limit: Option<usize>,
}

/// What a device carried.
#[derive(Debug, Clone)]
pub struct UsageRankingItem {
    pub iface: String,
    pub mac: String,
    pub hostname: String,
    pub ipv4: Vec<String>,
    pub ipv6: Vec<String>,
    pub up_bytes: u64,
    pub down_bytes: u64,
    pub total_bytes: u64,
}

/// What a device carried, with texts as characters.
#[verifier::ext_equal]
pub struct UsageView {
    pub iface: Seq<char>,
    pub mac: Seq<char>,
    pub hostname: Seq<char>,
    pub ipv4: Seq<Seq<char>>,
    pub ipv6: Seq<Seq<char>>,
    pub up_bytes: u64,
    pub down_bytes: u64,
    pub total_bytes: u64,
}

impl View for UsageRankingItem {
    type V = UsageView;

    open spec fn view(&self) -> UsageView {
        UsageView {
            iface: self.iface@,
            mac: self.mac@,
            hostname: self.hostname@,
            ipv4: lists::texts(self.ipv4@),
            ipv6: lists::texts(self.ipv6@),
            up_bytes: self.up_bytes,
            down_bytes: self.down_bytes,
            total_bytes: self.total_bytes,
        }
    }
}

/// Devices that carried more come first, those that carried the same by their addresses.
impl Ranked for UsageRankingItem {
    open spec fn rank(a: UsageView, b: UsageView) -> int {
        if a.total_bytes != b.total_bytes {
            u64::rank(b.total_bytes, a.total_bytes)
        } else {
            text::text_rank(a.mac, b.mac)
        }
    }

    fn ranked_against(&self, other: &UsageRankingItem) -> (r: i8) {
        if self.total_bytes != other.total_bytes {
            other.total_bytes.ranked_against(&self.total_bytes)
        } else {
            text::rank_texts(self.mac.as_str(), other.mac.as_str())
        }
    }

    proof fn law_flip(a: UsageView, b: UsageView) {
        text::lemma_text_rank(a.mac, b.mac);
    }

    proof fn law_chain(a: UsageView, b: UsageView, c: UsageView) {
        if a.total_bytes == b.total_bytes && b.total_bytes == c.total_bytes {
            text::lemma_text_rank_chain(a.mac, b.mac, c.mac);
        }
    }
}

/// The bytes that went up in each bucket.
pub open spec fn ups(s: Seq<AggregatedBucket>) -> Seq<u64> {
    Seq::new(s.len(), |i: int| stats::capped((s[i].up_v4_bytes + s[i].up_v6_bytes) as nat))
}

/// The bytes that came down in each bucket.
pub open spec fn downs(s: Seq<AggregatedBucket>) -> Seq<u64> {
    Seq::new(s.len(), |i: int| stats::capped((s[i].down_v4_bytes + s[i].down_v6_bytes) as nat))
}

/// What a device carried up and down in some buckets.
pub open spec fn carried(s: Seq<AggregatedBucket>, tt: HistoryTrafficType) -> (u64, u64) {
    (
        stats::capped(stats::total(ups(typed(s, tt)))),
        stats::capped(stats::total(downs(typed(s, tt)))),
    )
}

/// What a device is shown to have carried.
pub open spec fn usage_item(
    iface: Seq<char>,
    k: (u32, Seq<u8>),
    d: KnownView,
    used: (u64, u64),
) -> UsageView {
    UsageView {
        iface,
        mac: mac::mac_text(k.1),
        hostname: d.hostname,
        ipv4: d.ipv4,
        ipv6: d.ipv6,
        up_bytes: used.0,
        down_bytes: used.1,
        total_bytes: stats::capped((used.0 + used.1) as nat),
    }
}

/// What the known devices behind an interface carried, by the day; those that carried nothing are
/// left out.
pub open spec fn usages(
    registry: Seq<((u32, Seq<u8>), KnownView)>,
    h: HistogramView,
    ifindex: u32,
    iface: Seq<char>,
    range: (u64, u64),
    tt: HistoryTrafficType,
    cal: Lookups,
) -> Seq<UsageView>
    decreases registry.len(),
{
    if registry.len() == 0 {
        Seq::empty()
    } else {
        let rest = usages(registry.drop_last(), h, ifindex, iface, range, tt, cal);
        let (k, d) = registry.last();
        if k.0 != ifindex {
            rest
        } else {
            let item = usage_item(
                iface,
                k,
                d,
                carried(
                    histogram::aggregate(
                        h,
                        ifindex,
                        Some(mac::mac_text(k.1)),
                        range.0,
                        range.1,
                        AggregateBucket::Daily,
                        cal,
                    ),
                    tt,
                ),
            );
            if item.total_bytes == 0 {
                rest
            } else {
                rest.push(item)
            }
        }
    }
}

/// The first of a list, all where there is no limit or the limit is zero.
pub open spec fn limited<T>(s: Seq<T>, limit: Option<usize>) -> Seq<T> {
    match limit {
        Some(n) => if n > 0 && n < s.len() {
            s.take(n as int)
        } else {
            s
        },
        None => s,
    }
}

fn sum_carried(s: &Vec<AggregatedBucket>, tt: HistoryTrafficType) -> (r: (u64, u64))
    ensures
        r == carried(s@, tt),
{
    let ghost t = typed(s@, tt);
    let mut up: u64 = 0;
    let mut down: u64 = 0;
    assert(ups(t).take(0) =~= Seq::<u64>::empty());
    assert(downs(t).take(0) =~= Seq::<u64>::empty());
    for i in 0..s.len()
        invariant
            t == typed(s@, tt),
            up == stats::capped(stats::total(ups(t).take(i as int))),
            down == stats::capped(stats::total(downs(t).take(i as int))),
    {
        let b = s[i].with_traffic_type(tt);
        proof {
            assert(t[i as int] == b);
            assert(ups(t).take(i + 1) =~= ups(t).take(i as int).push(ups(t)[i as int]));
            assert(downs(t).take(i + 1) =~= downs(t).take(i as int).push(downs(t)[i as int]));
            stats::lemma_capped_step(ups(t).take(i as int), ups(t)[i as int]);
            stats::lemma_capped_step(downs(t).take(i as int), downs(t)[i as int]);
        }
        up = stats::add_capped(up, stats::add_capped(b.up_v4_bytes, b.up_v6_bytes));
        down = stats::add_capped(down, stats::add_capped(b.down_v4_bytes, b.down_v6_bytes));
    }
    assert(ups(t).take(s@.len() as int) =~= ups(t));
    assert(downs(t).take(s@.len() as int) =~= downs(t));
    (up, down)
}

/// What the known devices behind an interface carried, by the days of a calendar: most first.
pub fn rank_usage_within(
    runtime: &MonitorRuntime,
    histogram: &HistogramHistory,
    ifindex: u32,
    iface: &str,
    range: (u64, u64),
    tt: HistoryTrafficType,
    limit: Option<usize>,
    cal: &Calendar,
) -> (r: Vec<UsageRankingItem>)
    ensures
        sorting::views(r@) == limited(
            sorting::sorted::<UsageRankingItem>(
                usages(runtime@.registry, histogram@, ifindex, iface@, range, tt, cal@),
            ),
            limit,
        ),
{
    let t = &runtime.device_registry.entries;
    let mut items: Vec<UsageRankingItem> = Vec::new();
    assert(t@.take(0) =~= Seq::<((u32, Seq<u8>), KnownView)>::empty());
    assert(sorting::views(items@) =~= Seq::<UsageView>::empty());
    let n: usize = t.len();
    for i in 0..n
        invariant
            n == t@.len(),
            sorting::views(items@) == usages(
                t@.take(i as int),
                histogram@,
                ifindex,
                iface@,
                range,
                tt,
                cal@,
            ),
    {
        assert(t@.take(i + 1).drop_last() =~= t@.take(i as int));
        let k = t.key_at(i);
        let d = t.value_at(i);
        if k.0 == ifindex {
            let m = mac::to_string(&k.1);
            let found = histogram.query_aggregate_within(
                ifindex,
                Some(m.as_str()),
                range.0,
                range.1,
                AggregateBucket::Daily,
                cal,
            );
            let (up_bytes, down_bytes) = sum_carried(&found, tt);
            let total_bytes: u64 = stats::add_capped(up_bytes, down_bytes);
            if total_bytes > 0 {
                let ghost before = sorting::views(items@);
                let item = UsageRankingItem {
                    iface: iface.to_owned(),
                    mac: m,
                    hostname: d.hostname.clone(),
                    ipv4: lists::copy_texts(&d.ipv4),
                    ipv6: lists::copy_texts(&d.ipv6),
                    up_bytes,
                    down_bytes,
                    total_bytes,
                };
                items.push(item);
                assert(sorting::views(items@) =~= before.push(item@));
            }
        }
    }
    assert(t@.take(t@.len() as int) =~= t@);
    let mut ranked = sorting::sort_ranked(items);
    if let Some(n) = limit {
        if n > 0 && n < ranked.len() {
            let ghost before = sorting::views(ranked@);
            ranked.truncate(n);
            assert(sorting::views(ranked@) =~= before.take(n as int));
        }
    }
    ranked
}

/// The milliseconds of a common year.
pub const YEAR_MS: u64 = 31_536_000_000;

/// The range of times that a ranking asks for: the year up to now, where it leaves an end open. A
/// year before the epoch is the two's complement of a negative number.
pub open spec fn ranked_range(
    start_ms: Option<u64>,
    end_ms: Option<u64>,
    now_ms: u64,
) -> (u64, u64) {
    (
        match start_ms {
            Some(t) => t,
            None => if now_ms >= YEAR_MS {
                (now_ms - YEAR_MS) as u64
            } else {
                (now_ms - YEAR_MS + 0x1_0000_0000_0000_0000) as u64
            },
        },
        match end_ms {
            Some(t) => t,
            None => now_ms,
        },
    )
}

/// A request that cannot be understood.
#[derive(Debug, Clone, Copy, PartialEq, Eq, Structural)]
pub struct BadRequest;

/// The interface, its index and the range of times of a ranking, if they can be understood.
pub open spec fn ranking_asked(
    t: Seq<IfaceInfo>,
    s: Seq<InterfaceView>,
    q: UsageRankingQuery,
    now_ms: u64,
) -> Option<(Seq<char>, u32, (u64, u64))> {
    let range = ranked_range(q.start_ms, q.end_ms, now_ms);
    match (
        api::filled_in(snapshot::opt_text(q.iface)),
        api::resolved(t, s, snapshot::opt_text(q.iface)),
    ) {
        (Some(iface), Ok(ifindex)) => if range.1 < range.0 {
            None
        } else {
            Some((iface, ifindex, range))
        },
        _ => None,
    }
}

/// The answer to a request for the ranking.
pub fn usage_ranking(
    topology: &TopologySnapshot,
    snapshot: &SnapshotData,
    runtime: &MonitorRuntime,
    histogram: &HistogramHistory,
    q: &UsageRankingQuery,
    now_ms: u64,
) -> (r: Result<ApiEnvelope<Vec<UsageRankingItem>>, BadRequest>)
    ensures
        match (ranking_asked(topology@, snapshot@.interfaces, *q, now_ms), r) {
            (Some((iface, ifindex, range)), Ok(e)) => e.ok && e.error is None && exists|
                cal: Lookups,
            | #[trigger]
                calendar::is_local(cal) && covers_macs(
                    cal,
                    histogram@,
                    ifindex,
                    macs_behind(runtime@.registry, ifindex),
                    range,
                ) && sorting::views(e.data@) == limited(
                    sorting::sorted::<UsageRankingItem>(
                        usages(
                            runtime@.registry,
                            histogram@,
                            ifindex,
                            iface,
                            range,
                            api::type_named(snapshot::opt_text(q.traffic_type)),
                            cal,
                        ),
                    ),
                    q.limit,
                ),
            (None, Err(_)) => true,
            _ => false,
        },
{
    let Some(iface) = api::fill_in(api::as_text(&q.iface)) else {
        return Err(BadRequest);
    };
    let start_ms: u64 = match q.start_ms {
        Some(t) => t,
        None => now_ms.wrapping_sub(YEAR_MS),
    };
    let end_ms: u64 = match q.end_ms {
        Some(t) => t,
        None => now_ms,
    };
    if end_ms < start_ms {
        return Err(BadRequest);
    }
    let ifindex = match api::resolve_query_iface_to_ifindex(
        topology,
        snapshot,
        api::as_text(&q.iface),
    ) {
        Ok(i) => i,
        Err(_) => {
            return Err(BadRequest);
        },
    };
    let range = (start_ms, end_ms);
    let macs = list_macs(&runtime.device_registry.entries, ifindex);
    let cal = calendar_for(histogram, ifindex, &macs, range);
    let data = rank_usage_within(
        runtime,
        histogram,
        ifindex,
        iface,
        range,
        api::parse_traffic_type(api::as_text(&q.traffic_type)),
        q.limit,
        &cal,
    );
    assert(calendar::is_local(cal@));
    Ok(api::ok_reply(data))
}

proof fn lemma_usages_carried(
    registry: Seq<((u32, Seq<u8>), KnownView)>,
    h: HistogramView,
    ifindex: u32,
    iface: Seq<char>,
    range: (u64, u64),
    tt: HistoryTrafficType,
    cal: Lookups,
)
    ensures
        forall|i: int|
            0 <= i < usages(registry, h, ifindex, iface, range, tt, cal).len() ==> (
            #[trigger] usages(registry, h, ifindex, iface, range, tt, cal)[i]).total_bytes > 0,
    decreases registry.len(),
{
    if registry.len() > 0 {
        lemma_usages_carried(registry.drop_last(), h, ifindex, iface, range, tt, cal);
        let rest = usages(registry.drop_last(), h, ifindex, iface, range, tt, cal);
        let all = usages(registry, h, ifindex, iface, range, tt, cal);
        assert forall|i: int| 0 <= i < all.len() implies (#[trigger] all[i]).total_bytes > 0 by {
            if i < rest.len() {
                assert(rest[i].total_bytes > 0);
            }
        }
    }
}

/// A ranking shows no device that carried nothing, none before one that carried more, and no more
/// devices than the limit allows.
pub proof fn lemma_ranking(
    registry: Seq<((u32, Seq<u8>), KnownView)>,
    h: HistogramView,
    ifindex: u32,
    iface: Seq<char>,
    range: (u64, u64),
    tt: HistoryTrafficType,
    limit: Option<usize>,
    cal: Lookups,
)
    ensures
        ({
            let r = limited(
                sorting::sorted::<UsageRankingItem>(
                    usages(registry, h, ifindex, iface, range, tt, cal),
                ),
                limit,
            );
            &&& forall|i: int| 0 <= i < r.len() ==> (#[trigger] r[i]).total_bytes > 0
            &&& forall|i: int, j: int|
                0 <= i < j < r.len() ==> (#[trigger] r[i]).total_bytes >= (
                #[trigger] r[j]).total_bytes
            &&& limit is Some && limit.unwrap() > 0 ==> r.len() <= limit.unwrap()
        }),
{
    broadcast use vstd::multiset::group_multiset_axioms;
    broadcast use vstd::seq_lib::group_to_multiset_ensures;

    let s = usages(registry, h, ifindex, iface, range, tt, cal);
    let t = sorting::sorted::<UsageRankingItem>(s);
    let r = limited(t, limit);
    lemma_usages_carried(registry, h, ifindex, iface, range, tt, cal);
    sorting::lemma_sorted::<UsageRankingItem>(s);
    assert forall|i: int| 0 <= i < r.len() implies (#[trigger] r[i]).total_bytes > 0 by {
        assert(t[i] == r[i]);
        assert(t.contains(t[i]));
        assert(t.to_multiset().count(t[i]) > 0);
        assert(s.to_multiset().count(t[i]) > 0);
        assert(s.contains(t[i]));
        let n = choose|n: int| 0 <= n < s.len() && s[n] == t[i];
        assert(s[n].total_bytes > 0);
    }
    assert forall|i: int, j: int| 0 <= i < j < r.len() implies (#[trigger] r[i]).total_bytes >= (
    #[trigger] r[j]).total_bytes by {
        assert(t[i] == r[i] && t[j] == r[j]);
        assert(UsageRankingItem::rank(t[i], t[j]) <= 0);
    }
}

/// The buckets of some devices, one device after another.
pub open spec fn all_buckets(
    h: HistogramView,
    ifindex: u32,
    macs: Seq<Seq<char>>,
    range: (u64, u64),
    bucket: AggregateBucket,
    cal: Lookups,
) -> Seq<AggregatedBucket>
    decreases macs.len(),
{
    if macs.len() == 0 {
        Seq::empty()
    } else {
        all_buckets(h, ifindex, macs.drop_last(), range, bucket, cal) + histogram::aggregate(
            h,
            ifindex,
            Some(macs.last()),
            range.0,
            range.1,
            bucket,
            cal,
        )
    }
}

/// Whether a number of buckets is one that sums of buckets add up.
spec fn adds_up(f: spec_fn(AggregatedBucket) -> u64) -> bool {
    &&& forall|a: AggregatedBucket, b: AggregatedBucket|
        f(#[trigger] counters::bucket_sum(a, b)) == stats::capped((f(a) + f(b)) as nat)
    &&& forall|s: u64, e: u64| f(#[trigger] counters::blank_bucket(s, e)) == 0
}

proof fn lemma_total_update(s: Seq<u64>, i: int, x: u64)
    requires
        0 <= i < s.len(),
    ensures
        stats::total(s.update(i, x)) == stats::total(s) - s[i] + x,
        s[i] <= stats::total(s),
    decreases s.len(),
{
    if i == s.len() - 1 {
        assert(s.update(i, x).drop_last() =~= s.drop_last());
    } else {
        lemma_total_update(s.drop_last(), i, x);
        assert(s.update(i, x).drop_last() =~= s.drop_last().update(i, x));
    }
}

proof fn lemma_windows_added_total(
    acc: Seq<((u64, u64), AggregatedBucket)>,
    s: Seq<AggregatedBucket>,
    f: spec_fn(AggregatedBucket) -> u64,
)
    requires
        adds_up(f),
        stats::total(sums::amounts(sums_of(acc), f)) + stats::total(sums::amounts(s, f)) <= u64::MAX,
    ensures
        stats::total(sums::amounts(sums_of(windows_added(acc, s)), f)) == stats::total(
            sums::amounts(sums_of(acc), f),
        ) + stats::total(sums::amounts(s, f)),
    decreases s.len(),
{
    if s.len() > 0 {
        let g = s.drop_last();
        let b = s.last();
        let k = (b.start_ts_ms, b.end_ts_ms);
        assert(sums::amounts(s, f) =~= sums::amounts(g, f).push(f(b)));
        stats::lemma_total_push(sums::amounts(g, f), f(b));
        lemma_windows_added_total(acc, g, f);
        let rest = windows_added(acc, g);
        let v = counters::bucket_sum(
            table::lookup_or(rest, k, counters::blank_bucket(k.0, k.1)),
            b,
        );
        let before = sums::amounts(sums_of(rest), f);
        let after = sums::amounts(sums_of(windows_added(acc, s)), f);
        if table::has_key(rest, k) {
            let p = table::place_of(rest, k);
            assert(table::is_place(rest, k, p));
            lemma_total_update(before, p, f(v));
            assert(after =~= before.update(p, f(v)));
        } else {
            assert(after =~= before.push(f(v)));
            stats::lemma_total_push(before, f(v));
        }
    }
}

proof fn lemma_windows_of_total(
    h: HistogramView,
    ifindex: u32,
    macs: Seq<Seq<char>>,
    range: (u64, u64),
    bucket: AggregateBucket,
    cal: Lookups,
    f: spec_fn(AggregatedBucket) -> u64,
)
    requires
        adds_up(f),
        stats::total(sums::amounts(all_buckets(h, ifindex, macs, range, bucket, cal), f))
            <= u64::MAX,
    ensures
        stats::total(
            sums::amounts(sums_of(windows_of(h, ifindex, macs, range, bucket, cal)), f),
        ) == stats::total(sums::amounts(all_buckets(h, ifindex, macs, range, bucket, cal), f)),
    decreases macs.len(),
{
    if macs.len() == 0 {
        assert(sums::amounts(sums_of(windows_of(h, ifindex, macs, range, bucket, cal)), f) =~= Seq::<
            u64,
        >::empty());
        assert(sums::amounts(all_buckets(h, ifindex, macs, range, bucket, cal), f) =~= Seq::<
            u64,
        >::empty());
    } else {
        let rest = all_buckets(h, ifindex, macs.drop_last(), range, bucket, cal);
        let last = histogram::aggregate(
            h,
            ifindex,
            Some(macs.last()),
            range.0,
            range.1,
            bucket,
            cal,
        );
        assert(sums::amounts(rest + last, f) =~= sums::amounts(rest, f) + sums::amounts(last, f));
        stats::lemma_total_add(sums::amounts(rest, f), sums::amounts(last, f));
        lemma_windows_of_total(h, ifindex, macs.drop_last(), range, bucket, cal, f);
        lemma_windows_added_total(
            windows_of(h, ifindex, macs.drop_last(), range, bucket, cal),
            last,
            f,
        );
    }
}

proof fn lemma_asked_total(
    h: HistogramView,
    registry: Seq<((u32, Seq<u8>), KnownView)>,
    ifindex: u32,
    range: (u64, u64),
    bucket: AggregateBucket,
    cal: Lookups,
    f: spec_fn(AggregatedBucket) -> u64,
)
    requires
        adds_up(f),
        stats::total(
            sums::amounts(
                all_buckets(h, ifindex, macs_behind(registry, ifindex), range, bucket, cal),
                f,
            ),
        ) <= u64::MAX,
    ensures
        stats::total(
            sums::amounts(
                asked_buckets(
                    h,
                    registry,
                    ifindex,
                    None,
                    range,
                    bucket,
                    HistoryTrafficType::All,
                    cal,
                ),
                f,
            ),
        ) == stats::total(
            sums::amounts(
                all_buckets(h, ifindex, macs_behind(registry, ifindex), range, bucket, cal),
                f,
            ),
        ),
{
    let macs = macs_behind(registry, ifindex);
    let s = sums_of(windows_of(h, ifindex, macs, range, bucket, cal));
    lemma_windows_of_total(h, ifindex, macs, range, bucket, cal, f);
    sorting::lemma_sorted::<ByWindow>(s);
    sums::lemma_amount_reordered(sorting::sorted::<ByWindow>(s), s, f);
    assert(typed(sorting::sorted::<ByWindow>(s), HistoryTrafficType::All) =~= sorting::sorted::<
        ByWindow,
    >(s));
}

/// Where a request names no device, the bytes that it is answered add up to those of all known
/// devices behind the interface, as long as these fit into a counter.
pub proof fn lemma_all_devices_add_up(
    h: HistogramView,
    registry: Seq<((u32, Seq<u8>), KnownView)>,
    ifindex: u32,
    range: (u64, u64),
    bucket: AggregateBucket,
    cal: Lookups,
)
    requires
        ({
            let each = all_buckets(
                h,
                ifindex,
                macs_behind(registry, ifindex),
                range,
                bucket,
                cal,
            );
            &&& stats::total(sums::amounts(each, |b: AggregatedBucket| b.up_v4_bytes)) <= u64::MAX
            &&& stats::total(sums::amounts(each, |b: AggregatedBucket| b.down_v4_bytes)) <= u64::MAX
            &&& stats::total(sums::amounts(each, |b: AggregatedBucket| b.up_v6_bytes)) <= u64::MAX
            &&& stats::total(sums::amounts(each, |b: AggregatedBucket| b.down_v6_bytes)) <= u64::MAX
        }),
    ensures
        ({
            let each = all_buckets(
                h,
                ifindex,
                macs_behind(registry, ifindex),
                range,
                bucket,
                cal,
            );
            let sum = asked_buckets(
                h,
                registry,
                ifindex,
                None,
                range,
                bucket,
                HistoryTrafficType::All,
                cal,
            );
            &&& stats::total(sums::amounts(sum, |b: AggregatedBucket| b.up_v4_bytes))
                == stats::total(sums::amounts(each, |b: AggregatedBucket| b.up_v4_bytes))
            &&& stats::total(sums::amounts(sum, |b: AggregatedBucket| b.down_v4_bytes))
                == stats::total(sums::amounts(each, |b: AggregatedBucket| b.down_v4_bytes))
            &&& stats::total(sums::amounts(sum, |b: AggregatedBucket| b.up_v6_bytes))
                == stats::total(sums::amounts(each, |b: AggregatedBucket| b.up_v6_bytes))
            &&& stats::total(sums::amounts(sum, |b: AggregatedBucket| b.down_v6_bytes))
                == stats::total(sums::amounts(each, |b: AggregatedBucket| b.down_v6_bytes))
        }),
{
    let a = |b: AggregatedBucket| b.up_v4_bytes;
    let b = |b: AggregatedBucket| b.down_v4_bytes;
    let c = |b: AggregatedBucket| b.up_v6_bytes;
    let d = |b: AggregatedBucket| b.down_v6_bytes;
    assert(adds_up(a) && adds_up(b) && adds_up(c) && adds_up(d));
    lemma_asked_total(h, registry, ifindex, range, bucket, cal, a);
    lemma_asked_total(h, registry, ifindex, range, bucket, cal, b);
    lemma_asked_total(h, registry, ifindex, range, bucket, cal, c);
    lemma_asked_total(h, registry, ifindex, range, bucket, cal, d);
}

} // verus!
