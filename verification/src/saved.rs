//! What is saved of devices and hours, column by column, and what is made of it again.

use vstd::prelude::*;

use crate::calendar;
use crate::calendar::Lookups;
use crate::counters;
use crate::counters::AggregatedBucket;
use crate::counters::CounterQuad;
use crate::counters::CurrentHourPointState;
use crate::counters::HistoryPoint;
use crate::histogram::CurrentHourDeviceState;
use crate::histogram::CurrentHourIfaceState;
use crate::histogram::DeviceHourView;
use crate::histogram::HistogramView;
use crate::histogram::IfaceHourView;
use crate::hours;
use crate::lists;
use crate::mac;
use crate::persistence;
use crate::persistence::Action;
use crate::persistence::DeviceRowView;
use crate::persistence::PlannedView;
use crate::persistence::PointRowView;
use crate::persistence::SeriesId;
use crate::runtime;
use crate::runtime::ByAddress;
use crate::runtime::DeviceCounter;
use crate::runtime::KnownView;
use crate::runtime::PersistedKnownDevice;
use crate::runtime::PersistedView;
use crate::runtime::RuntimeView;
use crate::snapshot::DeviceView;
use crate::sorting;
use crate::table;
use crate::text;
use crate::topology;
use crate::topology::IfaceInfo;

verus! {

/// Whether a column and a number have the same bits.
pub open spec fn same_bits(n: i64, u: u64) -> bool {
    n == u || n + 0x1_0000_0000_0000_0000 == u
}

/// Each column of a bucket holds the number that it is named after, and each number of a bucket is
/// read from the column that is named after it: first the window, then the bytes, then mean, greatest,
/// least rate and percentile of each counter.
pub proof fn lemma_bucket_columns(b: AggregatedBucket, n: Seq<i64>)
    requires
        n.len() == 22,
    ensures
        persistence::bucket_numbers(b).len() == 22,
        same_bits(persistence::bucket_numbers(b)[0], b.start_ts_ms),
        same_bits(persistence::bucket_numbers(b)[1], b.end_ts_ms),
        same_bits(persistence::bucket_numbers(b)[2], b.up_v4_bytes),
        same_bits(persistence::bucket_numbers(b)[3], b.down_v4_bytes),
        same_bits(persistence::bucket_numbers(b)[4], b.up_v6_bytes),
        same_bits(persistence::bucket_numbers(b)[5], b.down_v6_bytes),
        same_bits(persistence::bucket_numbers(b)[6], b.up_v4_bps_avg),
        same_bits(persistence::bucket_numbers(b)[7], b.up_v4_bps_max),
        same_bits(persistence::bucket_numbers(b)[8], b.up_v4_bps_min),
        same_bits(persistence::bucket_numbers(b)[9], b.up_v4_bps_p95),
        same_bits(persistence::bucket_numbers(b)[10], b.down_v4_bps_avg),
        same_bits(persistence::bucket_numbers(b)[11], b.down_v4_bps_max),
        same_bits(persistence::bucket_numbers(b)[12], b.down_v4_bps_min),
        same_bits(persistence::bucket_numbers(b)[13], b.down_v4_bps_p95),
        same_bits(persistence::bucket_numbers(b)[14], b.up_v6_bps_avg),
        same_bits(persistence::bucket_numbers(b)[15], b.up_v6_bps_max),
        same_bits(persistence::bucket_numbers(b)[16], b.up_v6_bps_min),
        same_bits(persistence::bucket_numbers(b)[17], b.up_v6_bps_p95),
        same_bits(persistence::bucket_numbers(b)[18], b.down_v6_bps_avg),
        same_bits(persistence::bucket_numbers(b)[19], b.down_v6_bps_max),
        same_bits(persistence::bucket_numbers(b)[20], b.down_v6_bps_min),
        same_bits(persistence::bucket_numbers(b)[21], b.down_v6_bps_p95),
        same_bits(n[0], persistence::numbers_bucket(n).start_ts_ms),
        same_bits(n[1], persistence::numbers_bucket(n).end_ts_ms),
        same_bits(n[2], persistence::numbers_bucket(n).up_v4_bytes),
        same_bits(n[3], persistence::numbers_bucket(n).down_v4_bytes),
        same_bits(n[4], persistence::numbers_bucket(n).up_v6_bytes),
        same_bits(n[5], persistence::numbers_bucket(n).down_v6_bytes),
        same_bits(n[6], persistence::numbers_bucket(n).up_v4_bps_avg),
        same_bits(n[7], persistence::numbers_bucket(n).up_v4_bps_max),
        same_bits(n[8], persistence::numbers_bucket(n).up_v4_bps_min),
        same_bits(n[9], persistence::numbers_bucket(n).up_v4_bps_p95),
        same_bits(n[10], persistence::numbers_bucket(n).down_v4_bps_avg),
        same_bits(n[11], persistence::numbers_bucket(n).down_v4_bps_max),
        same_bits(n[12], persistence::numbers_bucket(n).down_v4_bps_min),
        same_bits(n[13], persistence::numbers_bucket(n).down_v4_bps_p95),
        same_bits(n[14], persistence::numbers_bucket(n).up_v6_bps_avg),
        same_bits(n[15], persistence::numbers_bucket(n).up_v6_bps_max),
        same_bits(n[16], persistence::numbers_bucket(n).up_v6_bps_min),
        same_bits(n[17], persistence::numbers_bucket(n).up_v6_bps_p95),
        same_bits(n[18], persistence::numbers_bucket(n).down_v6_bps_avg),
        same_bits(n[19], persistence::numbers_bucket(n).down_v6_bps_max),
        same_bits(n[20], persistence::numbers_bucket(n).down_v6_bps_min),
        same_bits(n[21], persistence::numbers_bucket(n).down_v6_bps_p95),
{
    calendar::lemma_signed_bits(b.start_ts_ms, n[0]);
    calendar::lemma_signed_bits(b.end_ts_ms, n[1]);
    calendar::lemma_signed_bits(b.up_v4_bytes, n[2]);
    calendar::lemma_signed_bits(b.down_v4_bytes, n[3]);
    calendar::lemma_signed_bits(b.up_v6_bytes, n[4]);
    calendar::lemma_signed_bits(b.down_v6_bytes, n[5]);
    calendar::lemma_signed_bits(b.up_v4_bps_avg, n[6]);
    calendar::lemma_signed_bits(b.up_v4_bps_max, n[7]);
    calendar::lemma_signed_bits(b.up_v4_bps_min, n[8]);
    calendar::lemma_signed_bits(b.up_v4_bps_p95, n[9]);
    calendar::lemma_signed_bits(b.down_v4_bps_avg, n[10]);
    calendar::lemma_signed_bits(b.down_v4_bps_max, n[11]);
    calendar::lemma_signed_bits(b.down_v4_bps_min, n[12]);
    calendar::lemma_signed_bits(b.down_v4_bps_p95, n[13]);
    calendar::lemma_signed_bits(b.up_v6_bps_avg, n[14]);
    calendar::lemma_signed_bits(b.up_v6_bps_max, n[15]);
    calendar::lemma_signed_bits(b.up_v6_bps_min, n[16]);
    calendar::lemma_signed_bits(b.up_v6_bps_p95, n[17]);
    calendar::lemma_signed_bits(b.down_v6_bps_avg, n[18]);
    calendar::lemma_signed_bits(b.down_v6_bps_max, n[19]);
    calendar::lemma_signed_bits(b.down_v6_bps_min, n[20]);
    calendar::lemma_signed_bits(b.down_v6_bps_p95, n[21]);
}

/// Each column of a sample holds the counter that it is named after, and each counter is read from the
/// column that is named after it: first the bytes, then the rates.
pub proof fn lemma_quad_columns(q: CounterQuad, n: Seq<i64>)
    requires
        n.len() == 8,
    ensures
        persistence::quad_numbers(q).len() == 8,
        same_bits(persistence::quad_numbers(q)[0], q.up_v4_bytes),
        same_bits(persistence::quad_numbers(q)[1], q.down_v4_bytes),
        same_bits(persistence::quad_numbers(q)[2], q.up_v6_bytes),
        same_bits(persistence::quad_numbers(q)[3], q.down_v6_bytes),
        same_bits(persistence::quad_numbers(q)[4], q.up_v4_bps),
        same_bits(persistence::quad_numbers(q)[5], q.down_v4_bps),
        same_bits(persistence::quad_numbers(q)[6], q.up_v6_bps),
        same_bits(persistence::quad_numbers(q)[7], q.down_v6_bps),
        same_bits(n[0], persistence::numbers_quad(n).up_v4_bytes),
        same_bits(n[1], persistence::numbers_quad(n).down_v4_bytes),
        same_bits(n[2], persistence::numbers_quad(n).up_v6_bytes),
        same_bits(n[3], persistence::numbers_quad(n).down_v6_bytes),
        same_bits(n[4], persistence::numbers_quad(n).up_v4_bps),
        same_bits(n[5], persistence::numbers_quad(n).down_v4_bps),
        same_bits(n[6], persistence::numbers_quad(n).up_v6_bps),
        same_bits(n[7], persistence::numbers_quad(n).down_v6_bps),
{
    calendar::lemma_signed_bits(q.up_v4_bytes, n[0]);
    calendar::lemma_signed_bits(q.down_v4_bytes, n[1]);
    calendar::lemma_signed_bits(q.up_v6_bytes, n[2]);
    calendar::lemma_signed_bits(q.down_v6_bytes, n[3]);
    calendar::lemma_signed_bits(q.up_v4_bps, n[4]);
    calendar::lemma_signed_bits(q.down_v4_bps, n[5]);
    calendar::lemma_signed_bits(q.up_v6_bps, n[6]);
    calendar::lemma_signed_bits(q.down_v6_bps, n[7]);
}

/// Each column of a known device holds what it is named after: IPv4 and IPv6 addresses as texts of
/// their own, the other texts as they are, and the bits of the time it was last seen. Read again, a
/// list that cannot be read is empty, and a time before the epoch is the epoch.
pub proof fn lemma_device_columns(
    d: PersistedView,
    ipv4: Seq<char>,
    ipv6: Seq<char>,
    r: DeviceRowView,
    v4: Option<Seq<Seq<char>>>,
    v6: Option<Seq<Seq<char>>>,
)
    ensures
        ({
            let row = persistence::row_with(d, ipv4, ipv6);
            &&& row.logical_iface == d.logical_iface
            &&& row.mac == d.mac
            &&& row.ipv4 == ipv4
            &&& row.ipv6 == ipv6
            &&& row.hostname == d.hostname
            &&& row.subnet == d.subnet
            &&& same_bits(row.last_seen_ms, d.last_seen_ms)
        }),
        ({
            let x = persistence::device_with(r, v4, v6);
            &&& x.logical_iface == r.logical_iface
            &&& x.mac == r.mac
            &&& v4 is Some ==> x.ipv4 == v4.unwrap()
            &&& v4 is None ==> x.ipv4.len() == 0
            &&& v6 is Some ==> x.ipv6 == v6.unwrap()
            &&& v6 is None ==> x.ipv6.len() == 0
            &&& x.hostname == r.hostname
            &&& x.subnet == r.subnet
            &&& r.last_seen_ms >= 0 ==> x.last_seen_ms == r.last_seen_ms
            &&& r.last_seen_ms < 0 ==> x.last_seen_ms == 0
        }),
        persistence::device_in(r) == persistence::device_with(
            r,
            persistence::json_list(r.ipv4),
            persistence::json_list(r.ipv6),
        ),
{
    calendar::lemma_signed_bits(d.last_seen_ms, 0);
}

/// Whether a saved device is what is known of a device: under the name of the first interface with its
/// index, or under the name that was remembered where there is none.
pub open spec fn saves(
    p: PersistedView,
    k: (u32, Seq<u8>),
    d: KnownView,
    t: Seq<IfaceInfo>,
) -> bool {
    &&& p.mac == mac::mac_text(k.1)
    &&& p.ipv4 == d.ipv4
    &&& p.ipv6 == d.ipv6
    &&& p.hostname == d.hostname
    &&& p.subnet == d.subnet
    &&& p.last_seen_ms == d.last_seen_ms
    &&& forall|e: int|
        0 <= e < t.len() && (#[trigger] t[e]).ifindex == k.0 && (forall|f: int|
            0 <= f < e ==> (#[trigger] t[f]).ifindex != k.0) ==> p.logical_iface == t[e].name
    &&& (forall|e: int| 0 <= e < t.len() ==> (#[trigger] t[e]).ifindex != k.0) ==> p.logical_iface
        == d.logical_iface
}

proof fn lemma_persisted(k: (u32, Seq<u8>), d: KnownView, t: Seq<IfaceInfo>)
    ensures
        saves(runtime::persisted((k, d), t), k, d, t),
{
    topology::lemma_with_index(t, k.0);
    assert forall|e: int|
        0 <= e < t.len() && (#[trigger] t[e]).ifindex == k.0 && (forall|f: int|
            0 <= f < e ==> (#[trigger] t[f]).ifindex != k.0) implies runtime::iface_name(k, d, t)
        == t[e].name by {
        topology::lemma_first_index(t, e);
    }
    if forall|e: int| 0 <= e < t.len() ==> (#[trigger] t[e]).ifindex != k.0 {
        if let Some(x) = topology::with_index(t, k.0) {
            let e = choose|e: int| 0 <= e < t.len() && t[e] == x;
            assert(t[e].ifindex != k.0);
        }
    }
}

proof fn lemma_first_name(t: Seq<IfaceInfo>, e: int)
    requires
        0 <= e < t.len(),
        forall|f: int| 0 <= f < e ==> (#[trigger] t[f]).name != t[e].name,
    ensures
        topology::index_named(t, t[e].name) == Some(t[e].ifindex),
    decreases t.len(),
{
    if e > 0 {
        let r = t.drop_first();
        assert(t[0].name != t[e].name);
        assert(r[e - 1] == t[e]);
        assert forall|f: int| 0 <= f < e - 1 implies (#[trigger] r[f]).name != r[e - 1].name by {
            assert(t[f + 1].name != t[e].name);
        }
        lemma_first_name(r, e - 1);
    }
}

proof fn lemma_no_name(t: Seq<IfaceInfo>, name: Seq<char>)
    requires
        forall|e: int| 0 <= e < t.len() ==> (#[trigger] t[e]).name != name,
    ensures
        topology::index_named(t, name) is None,
    decreases t.len(),
{
    if t.len() > 0 {
        let r = t.drop_first();
        assert(t[0].name != name);
        assert forall|e: int| 0 <= e < r.len() implies (#[trigger] r[e]).name != name by {
            assert(t[e + 1].name != name);
        }
        lemma_no_name(r, name);
    }
}

/// An interface is found by its index as the first of the topology that has it, and a name leads to
/// the index of the first that bears it; where none does, nothing is found.
pub proof fn lemma_topology_found(t: Seq<IfaceInfo>, ifindex: u32, name: Seq<char>)
    ensures
        forall|e: int|
            0 <= e < t.len() && (#[trigger] t[e]).ifindex == ifindex && (forall|f: int|
                0 <= f < e ==> (#[trigger] t[f]).ifindex != ifindex) ==> topology::with_index(
                t,
                ifindex,
            ) == Some(t[e]),
        (forall|e: int| 0 <= e < t.len() ==> (#[trigger] t[e]).ifindex != ifindex)
            ==> topology::with_index(t, ifindex) is None,
        forall|e: int|
            0 <= e < t.len() && (#[trigger] t[e]).name == name && (forall|f: int|
                0 <= f < e ==> (#[trigger] t[f]).name != name) ==> topology::index_named(t, name)
                == Some(t[e].ifindex),
        (forall|e: int| 0 <= e < t.len() ==> (#[trigger] t[e]).name != name)
            ==> topology::index_named(t, name) is None,
{
    assert forall|e: int|
        0 <= e < t.len() && (#[trigger] t[e]).ifindex == ifindex && (forall|f: int|
            0 <= f < e ==> (#[trigger] t[f]).ifindex != ifindex) implies topology::with_index(
        t,
        ifindex,
    ) == Some(t[e]) by {
        topology::lemma_first_index(t, e);
    }
    assert forall|e: int|
        0 <= e < t.len() && (#[trigger] t[e]).name == name && (forall|f: int|
            0 <= f < e ==> (#[trigger] t[f]).name != name) implies topology::index_named(t, name)
        == Some(t[e].ifindex) by {
        lemma_first_name(t, e);
    }
    topology::lemma_with_index(t, ifindex);
    if forall|e: int| 0 <= e < t.len() ==> (#[trigger] t[e]).ifindex != ifindex {
        if let Some(x) = topology::with_index(t, ifindex) {
            let e = choose|e: int| 0 <= e < t.len() && t[e] == x;
            assert(t[e].ifindex != ifindex);
        }
    }
    if forall|e: int| 0 <= e < t.len() ==> (#[trigger] t[e]).name != name {
        lemma_no_name(t, name);
    }
}

/// As many devices are saved as are known, each of them what is known of one, and every device that is
/// known is saved. They come in the order of their interfaces, and those of one interface in that of
/// their addresses.
pub proof fn lemma_exported(
    s: Seq<((u32, Seq<u8>), KnownView)>,
    t: Seq<IfaceInfo>,
    i: int,
    j: int,
)
    requires
        0 <= i < s.len(),
        0 <= j < s.len(),
    ensures
        ({
            let out = runtime::exported(s, t);
            &&& out.len() == s.len()
            &&& exists|n: int|
                0 <= n < s.len() && saves(out[i], (#[trigger] s[n]).0, s[n].1, t)
            &&& exists|n: int| 0 <= n < out.len() && saves(#[trigger] out[n], s[i].0, s[i].1, t)
            &&& i < j ==> text::text_rank(out[i].logical_iface, out[j].logical_iface) <= 0
            &&& i < j && out[i].logical_iface == out[j].logical_iface ==> text::text_rank(
                out[i].mac,
                out[j].mac,
            ) <= 0
        }),
{
    let all = runtime::persisted_all(s, t);
    let out = runtime::exported(s, t);
    sorting::lemma_sorted::<PersistedKnownDevice>(all);
    all.to_multiset_ensures();
    out.to_multiset_ensures();
    assert(out.contains(out[i]));
    sorting::lemma_sorted_members::<PersistedKnownDevice>(all, out[i]);
    let n = choose|n: int| 0 <= n < all.len() && all[n] == out[i];
    lemma_persisted(s[n].0, s[n].1, t);
    assert(saves(out[i], s[n].0, s[n].1, t));
    assert(all.contains(all[i]));
    sorting::lemma_sorted_members::<PersistedKnownDevice>(all, all[i]);
    let m = choose|m: int| 0 <= m < out.len() && out[m] == all[i];
    lemma_persisted(s[i].0, s[i].1, t);
    assert(saves(out[m], s[i].0, s[i].1, t));
    if i < j {
        assert(<PersistedKnownDevice as sorting::Ranked>::rank(out[i], out[j]) <= 0);
        text::lemma_text_rank(out[i].logical_iface, out[j].logical_iface);
    }
}

/// Whether a saved device is placed behind an interface, under an address.
pub open spec fn placed(p: PersistedView, t: Seq<IfaceInfo>, id: (u32, Seq<u8>)) -> bool {
    topology::index_named(t, p.logical_iface) == Some(id.0) && mac::mac_of(p.mac) == Some(id.1)
}

/// A device is known again as it was saved last under a name that leads to its interface and with its
/// address; where it was not, it is not known.
pub proof fn lemma_imported(items: Seq<PersistedView>, t: Seq<IfaceInfo>, id: (u32, Seq<u8>))
    ensures
        forall|n: int|
            0 <= n < items.len() && placed(#[trigger] items[n], t, id) && (forall|m: int|
                n < m < items.len() ==> !placed(#[trigger] items[m], t, id)) ==> table::lookup(
                runtime::imported(items, t),
                id,
            ) == Some(
                KnownView {
                    ifindex: id.0,
                    mac: id.1,
                    ipv4: items[n].ipv4,
                    ipv6: items[n].ipv6,
                    hostname: items[n].hostname,
                    logical_iface: items[n].logical_iface,
                    subnet: items[n].subnet,
                    last_seen_ms: items[n].last_seen_ms,
                },
            ),
        (forall|n: int| 0 <= n < items.len() ==> !placed(#[trigger] items[n], t, id))
            ==> table::lookup(runtime::imported(items, t), id) is None,
    decreases items.len(),
{
    if items.len() > 0 {
        let h = items.drop_last();
        let p = items[items.len() - 1];
        lemma_imported(h, t, id);
        let rest = runtime::imported(h, t);
        match (topology::index_named(t, p.logical_iface), mac::mac_of(p.mac)) {
            (Some(ifindex), Some(m)) => {
                table::lemma_lookup_assigned(
                    rest,
                    (ifindex, m),
                    runtime::recalled(p, ifindex, m),
                    id,
                );
            },
            _ => {},
        }
        assert forall|n: int|
            0 <= n < items.len() && placed(#[trigger] items[n], t, id) && (forall|m: int|
                n < m < items.len() ==> !placed(#[trigger] items[m], t, id)) implies table::lookup(
            runtime::imported(items, t),
            id,
        ) == Some(
            KnownView {
                ifindex: id.0,
                mac: id.1,
                ipv4: items[n].ipv4,
                ipv6: items[n].ipv6,
                hostname: items[n].hostname,
                logical_iface: items[n].logical_iface,
                subnet: items[n].subnet,
                last_seen_ms: items[n].last_seen_ms,
            },
        ) by {
            if n < h.len() {
                assert(!placed(items[items.len() - 1], t, id));
                assert(h[n] == items[n]);
                assert forall|m: int| n < m < h.len() implies !placed(#[trigger] h[m], t, id) by {
                    assert(!placed(items[m], t, id));
                }
            }
        }
        if forall|n: int| 0 <= n < items.len() ==> !placed(#[trigger] items[n], t, id) {
            assert(!placed(items[items.len() - 1], t, id));
            assert forall|n: int| 0 <= n < h.len() implies !placed(#[trigger] h[n], t, id) by {
                assert(!placed(items[n], t, id));
            }
        }
    } else {
        assert(!table::has_key(runtime::imported(items, t), id));
    }
}

/// Once a device is forgotten, its counters are, and all others are remembered as they were.
pub proof fn lemma_counters_forgotten(
    r: RuntimeView,
    ifindex: u32,
    mac: Seq<u8>,
    k: DeviceCounter,
)
    requires
        table::distinct(r.prev_device_bytes),
    ensures
        k.ifindex == ifindex && k.mac == mac ==> table::lookup(
            runtime::without_known(r, ifindex, mac).prev_device_bytes,
            k,
        ) is None,
        k.ifindex != ifindex || k.mac != mac ==> table::lookup(
            runtime::without_known(r, ifindex, mac).prev_device_bytes,
            k,
        ) == table::lookup(r.prev_device_bytes, k),
        runtime::without_known(r, ifindex, mac).prev_iface_bytes == r.prev_iface_bytes,
        runtime::without_known(r, ifindex, mac).cumulative_iface == r.cumulative_iface,
        runtime::without_known(r, ifindex, mac).last_snapshot_ms == r.last_snapshot_ms,
{
    let p = runtime::counter_test(ifindex, mac);
    if k.ifindex == ifindex && k.mac == mac {
        let w = table::without(r.prev_device_bytes, p);
        if table::has_key(w, k) {
            let n = table::place_of(w, k);
            assert(table::is_place(w, k, n));
            table::lemma_without_member(r.prev_device_bytes, p, n);
        }
    } else {
        table::lemma_lookup_without(r.prev_device_bytes, p, k);
    }
}

proof fn lemma_recovered_below(m: Map<u32, CounterQuad>, t: Seq<IfaceInfo>, n: nat)
    requires
        n <= 0x1_0000_0000,
    ensures
        ({
            let out = runtime::recovered_below(m, t, n);
            &&& forall|i: int, j: int|
                0 <= i < j < out.len() ==> (#[trigger] out[i]).ifindex < (
                #[trigger] out[j]).ifindex
            &&& forall|i: int|
                0 <= i < out.len() ==> {
                    let x = #[trigger] out[i];
                    &&& x.ifindex < n
                    &&& m.contains_key(x.ifindex)
                    &&& x.cumulative == m[x.ifindex]
                    &&& x.metrics == counters::zero_quad()
                    &&& topology::with_index(t, x.ifindex) is Some
                    &&& x.ifname == topology::with_index(t, x.ifindex).unwrap().name
                    &&& x.zone == topology::with_index(t, x.ifindex).unwrap().zone
                }
            &&& forall|k: u32|
                k < n && m.contains_key(k) && #[trigger] topology::with_index(t, k) is Some
                    ==> exists|i: int| 0 <= i < out.len() && (#[trigger] out[i]).ifindex == k
        }),
    decreases n,
{
    if n > 0 {
        lemma_recovered_below(m, t, (n - 1) as nat);
        let rest = runtime::recovered_below(m, t, (n - 1) as nat);
        let out = runtime::recovered_below(m, t, n);
        let last = (n - 1) as u32;
        assert forall|k: u32|
            k < n && m.contains_key(k) && #[trigger] topology::with_index(
                t,
                k,
            ) is Some implies exists|i: int| 0 <= i < out.len() && (#[trigger] out[i]).ifindex == k by {
            if k == last {
                assert(out[rest.len() as int].ifindex == k);
            } else {
                let i = choose|i: int| 0 <= i < rest.len() && (#[trigger] rest[i]).ifindex == k;
                assert(out[i].ifindex == k);
            }
        }
        assert forall|i: int, j: int| 0 <= i < j < out.len() implies (#[trigger] out[i]).ifindex < (
        #[trigger] out[j]).ifindex by {
            assert(out[i] == rest[i]);
            if j < rest.len() {
                assert(rest[i].ifindex < rest[j].ifindex);
            }
        }
        assert forall|i: int| 0 <= i < out.len() implies ({
            let x = #[trigger] out[i];
            &&& x.ifindex < n
            &&& m.contains_key(x.ifindex)
            &&& x.cumulative == m[x.ifindex]
            &&& x.metrics == counters::zero_quad()
            &&& topology::with_index(t, x.ifindex) is Some
            &&& x.ifname == topology::with_index(t, x.ifindex).unwrap().name
            &&& x.zone == topology::with_index(t, x.ifindex).unwrap().zone
        }) by {
            if i < rest.len() {
                assert(out[i] == rest[i]);
            }
        }
    }
}

/// Before anything is read, the interfaces are shown that have a total and still exist, in order of
/// their index: under the name and in the zone that the topology has for the index, with their total
/// and without traffic.
pub proof fn lemma_ifaces_recovered(m: Map<u32, CounterQuad>, t: Seq<IfaceInfo>, k: u32)
    ensures
        ({
            let out = runtime::recovered_ifaces(m, t);
            &&& forall|i: int, j: int|
                0 <= i < j < out.len() ==> (#[trigger] out[i]).ifindex < (
                #[trigger] out[j]).ifindex
            &&& forall|e: int|
                0 <= e < t.len() && (#[trigger] t[e]).ifindex == k && (forall|f: int|
                    0 <= f < e ==> (#[trigger] t[f]).ifindex != k) ==> forall|i: int|
                    0 <= i < out.len() && (#[trigger] out[i]).ifindex == k ==> out[i].ifname
                        == t[e].name && out[i].zone == t[e].zone && m.contains_key(k)
                        && out[i].cumulative == m[k] && out[i].metrics == counters::zero_quad()
            &&& (exists|i: int| 0 <= i < out.len() && (#[trigger] out[i]).ifindex == k) <==> (
            m.contains_key(k) && exists|e: int| 0 <= e < t.len() && (#[trigger] t[e]).ifindex == k)
        }),
{
    let out = runtime::recovered_ifaces(m, t);
    lemma_recovered_below(m, t, 0x1_0000_0000);
    topology::lemma_with_index(t, k);
    assert forall|e: int|
        0 <= e < t.len() && (#[trigger] t[e]).ifindex == k && (forall|f: int|
            0 <= f < e ==> (#[trigger] t[f]).ifindex != k) implies topology::with_index(t, k)
        == Some(t[e]) by {
        topology::lemma_first_index(t, e);
    }
    if let Some(x) = topology::with_index(t, k) {
        let e = choose|e: int| 0 <= e < t.len() && t[e] == x;
        assert(t[e].ifindex == k);
    }
}

/// Before anything is read, all known devices are shown, as they are known, with the totals that they
/// have, without traffic, and as not there. They come in the order of their interfaces, then of their
/// IPv4 and IPv6 addresses, then of their hardware addresses.
pub proof fn lemma_devices_recovered(r: RuntimeView, i: int, j: int)
    requires
        0 <= i < r.registry.len(),
        0 <= j < r.registry.len(),
    ensures
        ({
            let out = sorting::sorted::<ByAddress>(runtime::recovered_devices(r));
            &&& out.len() == r.registry.len()
            &&& exists|n: int|
                0 <= n < r.registry.len() && shows_known(out[i], #[trigger] r.registry[n], r)
            &&& exists|n: int|
                0 <= n < out.len() && shows_known(#[trigger] out[n], r.registry[i], r)
            &&& i < j ==> text::text_rank(out[i].logical_iface, out[j].logical_iface) <= 0
            &&& i < j && out[i].logical_iface == out[j].logical_iface ==> text::list_rank(
                out[i].ipv4,
                out[j].ipv4,
            ) <= 0
            &&& i < j && out[i].logical_iface == out[j].logical_iface && out[i].ipv4 == out[j].ipv4
                ==> text::list_rank(out[i].ipv6, out[j].ipv6) <= 0
            &&& i < j && out[i].logical_iface == out[j].logical_iface && out[i].ipv4 == out[j].ipv4
                && out[i].ipv6 == out[j].ipv6 ==> text::text_rank(out[i].mac, out[j].mac) <= 0
        }),
{
    let all = runtime::recovered_devices(r);
    let out = sorting::sorted::<ByAddress>(all);
    sorting::lemma_sorted::<ByAddress>(all);
    all.to_multiset_ensures();
    out.to_multiset_ensures();
    assert(out.contains(out[i]));
    sorting::lemma_sorted_members::<ByAddress>(all, out[i]);
    let n = choose|n: int| 0 <= n < all.len() && all[n] == out[i];
    assert(shows_known(out[i], r.registry[n], r));
    assert(all.contains(all[i]));
    sorting::lemma_sorted_members::<ByAddress>(all, all[i]);
    let m = choose|m: int| 0 <= m < out.len() && out[m] == all[i];
    assert(shows_known(out[m], r.registry[i], r));
    if i < j {
        assert(<ByAddress as sorting::Ranked>::rank(out[i], out[j]) <= 0);
        runtime::lemma_place_rank_flip(out[i], out[j]);
        text::lemma_text_rank(out[i].logical_iface, out[j].logical_iface);
        text::lemma_list_rank(out[i].ipv4, out[j].ipv4);
        text::lemma_list_rank(out[i].ipv6, out[j].ipv6);
    }
}

/// Whether a known device is shown as it is known, with the totals that it has, and as not there.
pub open spec fn shows_known(
    x: DeviceView,
    e: ((u32, Seq<u8>), KnownView),
    r: RuntimeView,
) -> bool {
    &&& x.ifindex == e.0.0
    &&& x.mac == mac::mac_text(e.0.1)
    &&& x.logical_iface == e.1.logical_iface
    &&& x.subnet == e.1.subnet
    &&& x.ipv4 == e.1.ipv4
    &&& x.ipv6 == e.1.ipv6
    &&& x.hostname == e.1.hostname
    &&& x.last_seen_ms == e.1.last_seen_ms
    &&& !x.online
    &&& x.neighbor_state is None
    &&& x.metrics == counters::zero_quad()
    &&& x.cumulative == table::lookup_or(r.cumulative_device, e.0, counters::zero_quad())
}

/// The samples of an open hour are saved one for one, each with its time and its metrics.
pub proof fn lemma_samples_saved(s: Seq<HistoryPoint>)
    ensures
        hours::saved_points(s).len() == s.len(),
        forall|i: int|
            0 <= i < s.len() ==> (#[trigger] hours::saved_points(s)[i]).ts_ms == s[i].ts_ms
                && hours::saved_points(s)[i].metrics == s[i].metrics,
{
}

/// The rows of an open hour of an interface that exists say that it is one of an interface, which, and
/// when it began, one row for each sample. An interface that does not exist has none.
pub proof fn lemma_iface_rows(items: Seq<IfaceHourView>, t: Seq<IfaceInfo>)
    ensures
        persistence::iface_rows(items, t) == lists::flat(
            items,
            |x: IfaceHourView|
                match topology::with_index(t, x.ifindex) {
                    Some(info) => x.points.map_values(
                        |p: CurrentHourPointState|
                            PointRowView {
                                key: persistence::SeriesId {
                                    series_type: "iface"@,
                                    logical_iface: info.name,
                                    mac: Seq::empty(),
                                    hour_start_ts_ms: x.hour_start_ts_ms,
                                },
                                point: p,
                            },
                    ),
                    None => Seq::empty(),
                },
        ),
    decreases items.len(),
{
    if items.len() > 0 {
        let h = items.drop_last();
        lemma_iface_rows(h, t);
        let x = items.last();
        let rest = persistence::iface_rows(h, t);
        reveal_strlit("");
        assert(""@ =~= Seq::<char>::empty());
        match topology::with_index(t, x.ifindex) {
            Some(info) => {
                let key = persistence::SeriesId {
                    series_type: "iface"@,
                    logical_iface: info.name,
                    mac: ""@,
                    hour_start_ts_ms: x.hour_start_ts_ms,
                };
                assert(persistence::rows_of(key, x.points) =~= x.points.map_values(
                    |p: CurrentHourPointState|
                        PointRowView {
                            key: persistence::SeriesId {
                                series_type: "iface"@,
                                logical_iface: info.name,
                                mac: Seq::empty(),
                                hour_start_ts_ms: x.hour_start_ts_ms,
                            },
                            point: p,
                        },
                ));
            },
            None => {
                assert(rest + Seq::<PointRowView>::empty() =~= rest);
            },
        }
    }
}

/// The rows of an open hour of a device whose interface exists say that it is one of a device, behind
/// which interface, with which address, and when it began, one row for each sample. A device whose
/// interface does not exist has none.
pub proof fn lemma_device_rows(items: Seq<DeviceHourView>, t: Seq<IfaceInfo>)
    ensures
        persistence::device_rows(items, t) == lists::flat(
            items,
            |x: DeviceHourView|
                match topology::with_index(t, x.ifindex) {
                    Some(info) => x.points.map_values(
                        |p: CurrentHourPointState|
                            PointRowView {
                                key: persistence::SeriesId {
                                    series_type: "device"@,
                                    logical_iface: info.name,
                                    mac: x.mac,
                                    hour_start_ts_ms: x.hour_start_ts_ms,
                                },
                                point: p,
                            },
                    ),
                    None => Seq::empty(),
                },
        ),
    decreases items.len(),
{
    if items.len() > 0 {
        let h = items.drop_last();
        lemma_device_rows(h, t);
        let x = items.last();
        let rest = persistence::device_rows(h, t);
        match topology::with_index(t, x.ifindex) {
            Some(info) => {
                let key = persistence::SeriesId {
                    series_type: "device"@,
                    logical_iface: info.name,
                    mac: x.mac,
                    hour_start_ts_ms: x.hour_start_ts_ms,
                };
                assert(persistence::rows_of(key, x.points) =~= x.points.map_values(
                    |p: CurrentHourPointState|
                        PointRowView {
                            key: persistence::SeriesId {
                                series_type: "device"@,
                                logical_iface: info.name,
                                mac: x.mac,
                                hour_start_ts_ms: x.hour_start_ts_ms,
                            },
                            point: p,
                        },
                ));
            },
            None => {
                assert(rest + Seq::<PointRowView>::empty() =~= rest);
            },
        }
    }
}

/// A saved hour that is still the hour around now goes on, and one that lies ahead is dropped. One
/// that is over is closed into the bucket of its samples, where it begins as an hour does and has a
/// sample in its window, and is dropped else.
pub proof fn lemma_action_chosen(
    hour_ms: u64,
    points: Seq<CurrentHourPointState>,
    now_start: u64,
    w: (u64, u64),
)
    ensures
        ({
            let a = persistence::action_for(hour_ms, points, now_start, w);
            let some = exists|i: int|
                0 <= i < points.len() && w.0 <= (#[trigger] points[i]).ts_ms <= w.1;
            &&& hour_ms == now_start ==> a == Action::RestoreCurrent
            &&& hour_ms > now_start ==> a == Action::DropOnly
            &&& hour_ms < now_start && hour_ms == w.0 && some ==> a == Action::Promote(
                counters::points_bucket(hour_ms, w.1, hours::cleaned(points, w)),
            )
            &&& hour_ms < now_start && (hour_ms != w.0 || !some) ==> a == Action::DropOnly
        }),
{
    hours::lemma_cleaned(points, w);
    lemma_within_some(points, w);
}

proof fn lemma_within_some(points: Seq<CurrentHourPointState>, w: (u64, u64))
    ensures
        hours::points_within(points, w).len() > 0 <==> exists|i: int|
            0 <= i < points.len() && w.0 <= (#[trigger] points[i]).ts_ms <= w.1,
    decreases points.len(),
{
    if points.len() > 0 {
        let h = points.drop_last();
        lemma_within_some(h, w);
        if exists|i: int| 0 <= i < points.len() && w.0 <= (#[trigger] points[i]).ts_ms <= w.1 {
            let i = choose|i: int|
                0 <= i < points.len() && w.0 <= (#[trigger] points[i]).ts_ms <= w.1;
            if i < h.len() {
                assert(w.0 <= h[i].ts_ms <= w.1);
            }
        }
        if hours::points_within(h, w).len() > 0 {
            let i = choose|i: int| 0 <= i < h.len() && w.0 <= (#[trigger] h[i]).ts_ms <= w.1;
            assert(w.0 <= points[i].ts_ms <= w.1);
        } else if w.0 <= points.last().ts_ms <= w.1 {
            assert(w.0 <= points[points.len() - 1].ts_ms <= w.1);
        }
    }
}

/// A saved hour that goes on becomes the open hour of its series, with the cleaned samples, where it is
/// the hour around now and has a sample in its window; all else stays as it was.
pub proof fn lemma_hour_goes_on(h: HistogramView, p: PlannedView, w: (u64, u64))
    requires
        p.action == Action::RestoreCurrent,
    ensures
        ({
            let now = persistence::recovered(h, p, w);
            let goes = p.key.hour_start_ts_ms == w.0 && exists|i: int|
                0 <= i < p.points.len() && w.0 <= (#[trigger] p.points[i]).ts_ms <= w.1;
            let open = (p.key.hour_start_ts_ms, hours::cleaned(p.points, w));
            &&& !goes ==> now == h
            &&& now.ifaces.completed == h.ifaces.completed
            &&& now.devices.completed == h.devices.completed
            &&& goes && p.key.series_type == "iface"@ ==> now.devices == h.devices && table::lookup(
                now.ifaces.current,
                p.ifindex,
            ) == Some(open)
            &&& goes && p.key.series_type != "iface"@ ==> now.ifaces == h.ifaces && table::lookup(
                now.devices.current,
                (p.ifindex, p.key.mac),
            ) == Some(open)
        }),
{
    hours::lemma_cleaned(p.points, w);
    lemma_within_some(p.points, w);
    let open = (p.key.hour_start_ts_ms, hours::cleaned(p.points, w));
    table::lemma_lookup_assigned(h.ifaces.current, p.ifindex, open, p.ifindex);
    table::lemma_lookup_assigned(
        h.devices.current,
        (p.ifindex, p.key.mac),
        open,
        (p.ifindex, p.key.mac),
    );
}

/// A saved hour that is over comes behind the closed hours of its series, unless a closed hour of that
/// interface or device begins with it already; all else stays as it was.
pub proof fn lemma_hour_is_over(
    h: HistogramView,
    p: PlannedView,
    w: (u64, u64),
    b: AggregatedBucket,
)
    requires
        p.action == Action::Promote(b),
    ensures
        ({
            let now = persistence::recovered(h, p, w);
            let ring = table::lookup_or(h.ifaces.completed, p.ifindex, Seq::empty());
            let there = if p.key.series_type == "iface"@ {
                exists|i: int|
                    0 <= i < ring.len() && (#[trigger] ring[i]).start_ts_ms == b.start_ts_ms
            } else {
                exists|i: int, n: int|
                    0 <= i < h.devices.completed.len() && h.devices.completed[i].0.0 == p.ifindex
                        && text::same_ignoring_case(h.devices.completed[i].0.1, p.key.mac) && 0 <= n
                        < h.devices.completed[i].1.len() && (
                    #[trigger] h.devices.completed[i].1[n]).start_ts_ms == b.start_ts_ms
            };
            &&& there ==> now == h
            &&& !there && p.key.series_type == "iface"@ ==> now.devices == h.devices && now.ifaces
                == hours::closed(h.ifaces, p.ifindex, b)
            &&& !there && p.key.series_type != "iface"@ ==> now.ifaces == h.ifaces && now.devices
                == hours::closed(h.devices, (p.ifindex, p.key.mac), b)
        }),
{
    let s = h.devices.completed;
    if persistence::device_has_hour(h, p.ifindex, p.key.mac, b.start_ts_ms) {
        let i = choose|i: int|
            0 <= i < s.len() && crate::histogram::names_device(
                (#[trigger] s[i]).0,
                p.ifindex,
                p.key.mac,
            ) && crate::histogram::begins_at(s[i].1, b.start_ts_ms);
        let q = s[i].1;
        let n = choose|n: int| 0 <= n < q.len() && (#[trigger] q[n]).start_ts_ms == b.start_ts_ms;
        assert(s[i].1[n].start_ts_ms == b.start_ts_ms);
    }
    if exists|i: int, n: int|
        0 <= i < s.len() && s[i].0.0 == p.ifindex && text::same_ignoring_case(s[i].0.1, p.key.mac)
            && 0 <= n < s[i].1.len() && (#[trigger] s[i].1[n]).start_ts_ms == b.start_ts_ms {
        let (i, n) = choose|i: int, n: int|
            0 <= i < s.len() && s[i].0.0 == p.ifindex && text::same_ignoring_case(
                s[i].0.1,
                p.key.mac,
            ) && 0 <= n < s[i].1.len() && (#[trigger] s[i].1[n]).start_ts_ms == b.start_ts_ms;
        assert(crate::histogram::begins_at(s[i].1, b.start_ts_ms));
    }
}

/// For each saved hour whose interface exists something is planned, in the order of the hours: for its
/// own series and samples, behind the interface that its name leads to, by where the hour around now
/// and the hour around its own beginning lie. The others are left alone.
pub proof fn lemma_hours_planned(
    s: Seq<(SeriesId, Seq<CurrentHourPointState>)>,
    t: Seq<IfaceInfo>,
    now_ms: u64,
    cal: Lookups,
)
    ensures
        persistence::planned(s, t, now_ms, cal) == lists::flat(
            s,
            |e: (SeriesId, Seq<CurrentHourPointState>)|
                match topology::index_named(t, e.0.logical_iface) {
                    Some(ifindex) => seq![
                        PlannedView {
                            key: e.0,
                            ifindex,
                            points: e.1,
                            action: persistence::action_for(
                                e.0.hour_start_ts_ms,
                                e.1,
                                calendar::hour_at(cal, now_ms).0,
                                calendar::hour_at(cal, e.0.hour_start_ts_ms),
                            ),
                        },
                    ],
                    None => Seq::empty(),
                },
        ),
    decreases s.len(),
{
    if s.len() > 0 {
        lemma_hours_planned(s.drop_last(), t, now_ms, cal);
        let rest = persistence::planned(s.drop_last(), t, now_ms, cal);
        let (key, points) = s.last();
        match topology::index_named(t, key.logical_iface) {
            Some(ifindex) => {
                let p = PlannedView {
                    key,
                    ifindex,
                    points,
                    action: persistence::action_for(
                        key.hour_start_ts_ms,
                        points,
                        calendar::hour_at(cal, now_ms).0,
                        calendar::hour_at(cal, key.hour_start_ts_ms),
                    ),
                };
                assert(rest.push(p) =~= rest + seq![p]);
            },
            None => {
                assert(rest =~= rest + Seq::<PlannedView>::empty());
            },
        }
    }
}

/// Open hours are saved in the order of their interfaces, those of the devices of one interface in
/// that of their addresses.
pub proof fn lemma_hours_saved_in_order(
    a: Seq<IfaceHourView>,
    b: Seq<DeviceHourView>,
    i: int,
    j: int,
)
    requires
        0 <= i < j,
    ensures
        ({
            let x = sorting::sorted::<CurrentHourIfaceState>(a);
            j < x.len() ==> x[i].ifindex <= x[j].ifindex
        }),
        ({
            let x = sorting::sorted::<CurrentHourDeviceState>(b);
            j < x.len() ==> x[i].ifindex < x[j].ifindex || x[i].ifindex == x[j].ifindex
                && text::text_rank(x[i].mac, x[j].mac) <= 0
        }),
{
    let x = sorting::sorted::<CurrentHourIfaceState>(a);
    let y = sorting::sorted::<CurrentHourDeviceState>(b);
    sorting::lemma_sorted::<CurrentHourIfaceState>(a);
    sorting::lemma_sorted::<CurrentHourDeviceState>(b);
    if j < x.len() {
        assert(<CurrentHourIfaceState as sorting::Ranked>::rank(x[i], x[j]) <= 0);
    }
    if j < y.len() {
        assert(<CurrentHourDeviceState as sorting::Ranked>::rank(y[i], y[j]) <= 0);
    }
}

/// Whatever becomes of a saved hour of one series, the open hours of every other series stay.
pub proof fn lemma_other_hours_stay(
    h: HistogramView,
    p: PlannedView,
    w: (u64, u64),
    i: u32,
    d: (u32, Seq<char>),
)
    ensures
        ({
            let now = persistence::recovered(h, p, w);
            let of_iface = p.key.series_type == "iface"@;
            &&& !of_iface || i != p.ifindex ==> table::lookup(now.ifaces.current, i)
                == table::lookup(h.ifaces.current, i) && table::lookup(now.ifaces.completed, i)
                == table::lookup(h.ifaces.completed, i)
            &&& of_iface || d != (p.ifindex, p.key.mac) ==> table::lookup(now.devices.current, d)
                == table::lookup(h.devices.current, d) && table::lookup(now.devices.completed, d)
                == table::lookup(h.devices.completed, d)
        }),
{
    match p.action {
        Action::RestoreCurrent => {
            if let Some(open) = hours::normalized(p.key.hour_start_ts_ms, p.points, w) {
                table::lemma_lookup_assigned(h.ifaces.current, p.ifindex, open, i);
                table::lemma_lookup_assigned(
                    h.devices.current,
                    (p.ifindex, p.key.mac),
                    open,
                    d,
                );
            }
        },
        Action::Promote(b) => {
            hours::lemma_closed_lookup(h.ifaces, p.ifindex, b, i);
            hours::lemma_closed_lookup(h.devices, (p.ifindex, p.key.mac), b, d);
        },
        Action::DropOnly => {},
    }
}

/// The digits of an address are the same whatever the case of the text, and wherever a colon is put
/// into it. A text without colons that has twelve digits is kept but for its case, and every text
/// that is kept has twelve digits.
pub proof fn lemma_address_digits(s: Seq<char>, t: Seq<char>, a: Seq<char>, b: Seq<char>)
    requires
        text::same_ignoring_case(s, t),
    ensures
        persistence::mac_hex(s) == persistence::mac_hex(t),
        persistence::mac_hex(a.push(':') + b) == persistence::mac_hex(a + b),
        s.len() == 12 && (forall|i: int|
            0 <= i < 12 ==> #[trigger] s[i] != ':' && mac::hex_digit(s[i]) is Some)
            ==> persistence::mac_hex(s) is Some && text::same_ignoring_case(
            persistence::mac_hex(s).unwrap(),
            s,
        ),
        persistence::mac_hex(s) is Some ==> persistence::mac_hex(s).unwrap().len() == 12 && forall|
            i: int,
        |
            0 <= i < 12 ==> mac::hex_digit(#[trigger] persistence::mac_hex(s).unwrap()[i]) is Some
                && !(65 <= persistence::mac_hex(s).unwrap()[i] as int <= 90),
{
    let p = |c: char| c != ':';
    lemma_colons_alike(s, t);
    lists::lemma_picked_add(a.push(':'), b, p);
    lists::lemma_picked_add(a, b, p);
    lists::lemma_picked_push(a, ':', p);
    if s.len() == 12 && (forall|i: int|
        0 <= i < 12 ==> #[trigger] s[i] != ':' && mac::hex_digit(s[i]) is Some) {
        assert forall|i: int| 0 <= i < s.len() implies p(#[trigger] s[i]) by {
            assert(s[i] != ':');
        }
        lists::lemma_picked_all(s, p);
        let c = text::ascii_lower(s);
        assert forall|i: int| 0 <= i < c.len() implies mac::hex_digit(#[trigger] c[i]) is Some by {
            assert(s[i] != ':' && mac::hex_digit(s[i]) is Some);
        }
        assert forall|i: int| 0 <= i < c.len() implies text::folded(#[trigger] c[i])
            == text::folded(s[i]) by {}
    }
}

proof fn lemma_colons_alike(s: Seq<char>, t: Seq<char>)
    requires
        text::same_ignoring_case(s, t),
    ensures
        text::ascii_lower(persistence::without_colons(s)) == text::ascii_lower(
            persistence::without_colons(t),
        ),
    decreases s.len(),
{
    let p = |c: char| c != ':';
    if s.len() > 0 {
        let n = s.len() - 1;
        assert(text::folded(s[n]) == text::folded(t[n]));
        let a = s.drop_last();
        let b = t.drop_last();
        assert forall|i: int| 0 <= i < a.len() implies text::folded(#[trigger] a[i])
            == text::folded(b[i]) by {
            assert(text::folded(s[i]) == text::folded(t[i]));
        }
        lemma_colons_alike(a, b);
        let x = lists::picked(a, p);
        let y = lists::picked(b, p);
        assert(text::ascii_lower(x.push(s[n])) =~= text::ascii_lower(x).push(
            text::lower_char(s[n]),
        ));
        assert(text::ascii_lower(y.push(t[n])) =~= text::ascii_lower(y).push(
            text::lower_char(t[n]),
        ));
        assert(text::lower_char(s[n]) == text::lower_char(t[n]));
        assert(s[n] == ':' <==> t[n] == ':');
    } else {
        assert(t =~= s);
    }
}
} // verus!
