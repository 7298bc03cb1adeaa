//! Which interfaces and devices a snapshot shows, what it says of them, and what is remembered.

use vstd::prelude::*;

use crate::collect;
use crate::collect::AddressesView;
use crate::collect::NeighborView;
use crate::collect::Readings;
use crate::counters;
use crate::counters::CounterQuad;
use crate::lists;
use crate::mac;
use crate::runtime::DeviceCounter;
use crate::runtime::DeviceTrafficKey;
use crate::runtime::InterfaceTrafficKey;
use crate::runtime::KnownView;
use crate::runtime::RuntimeView;
use crate::snapshot::DeviceListItem;
use crate::snapshot::DeviceView;
use crate::sorting;
use crate::table;
use crate::text;
use crate::topology;
use crate::topology::IfaceInfo;

verus! {

/// Texts as they come, each only the first time.
pub open spec fn each_once(s: Seq<Seq<char>>) -> Seq<Seq<char>>
    decreases s.len(),
{
    if s.len() == 0 {
        s
    } else if s.drop_last().contains(s.last()) {
        each_once(s.drop_last())
    } else {
        each_once(s.drop_last()).push(s.last())
    }
}

proof fn lemma_each_once(s: Seq<Seq<char>>, x: Seq<char>)
    ensures
        each_once(s).contains(x) <==> s.contains(x),
        each_once(s).len() > 0 <==> s.len() > 0,
    decreases s.len(),
{
    if s.len() > 0 {
        let h = s.drop_last();
        lemma_each_once(h, x);
        if s.contains(x) {
            let n = choose|n: int| 0 <= n < s.len() && s[n] == x;
            if n < h.len() {
                assert(h[n] == x);
            }
        }
        if h.contains(x) {
            let n = choose|n: int| 0 <= n < h.len() && h[n] == x;
            assert(s[n] == x);
        }
        if each_once(h).contains(x) {
            let n = choose|n: int| 0 <= n < each_once(h).len() && each_once(h)[n] == x;
            assert(each_once(s)[n] == x);
        }
        if h.contains(s.last()) {
            assert(h.len() > 0);
            if each_once(s).contains(x) {
                assert(each_once(h).contains(x));
            }
        } else {
            assert(each_once(s)[each_once(h).len() as int] == s.last());
            if each_once(s).contains(x) {
                let n = choose|n: int| 0 <= n < each_once(s).len() && each_once(s)[n] == x;
                if n < each_once(h).len() {
                    assert(each_once(h)[n] == x);
                } else {
                    assert(s[s.len() - 1] == x);
                }
            }
        }
    }
}

/// Whether every interface was read under one name with one index.
pub open spec fn read_once(s: Seq<(String, u32)>) -> bool {
    forall|i: int, j: int|
        0 <= i < j < s.len() ==> (#[trigger] s[i]).0@ != (#[trigger] s[j]).0@ && s[i].1 != s[j].1
}

proof fn lemma_index_in(s: Seq<(String, u32)>, name: Seq<char>)
    ensures
        match collect::index_in(s, name) {
            Some(x) => exists|j: int|
                0 <= j < s.len() && (#[trigger] s[j]).0@ == name && s[j].1 == x,
            None => forall|j: int| 0 <= j < s.len() ==> (#[trigger] s[j]).0@ != name,
        },
    decreases s.len(),
{
    if s.len() > 0 && s.last().0@ != name {
        let h = s.drop_last();
        lemma_index_in(h, name);
        if let Some(x) = collect::index_in(h, name) {
            let j = choose|j: int| 0 <= j < h.len() && (#[trigger] h[j]).0@ == name && h[j].1 == x;
            assert(s[j].0@ == name && s[j].1 == x);
        } else {
            assert forall|j: int| 0 <= j < s.len() implies (#[trigger] s[j]).0@ != name by {
                if j < h.len() {
                    assert(h[j].0@ != name);
                }
            }
        }
    } else if s.len() > 0 {
        assert(s[s.len() - 1].0@ == name);
    }
}

proof fn lemma_index_of(s: Seq<(String, u32)>, j: int, name: Seq<char>)
    requires
        read_once(s),
        0 <= j < s.len(),
    ensures
        collect::index_in(s, name) == Some(s[j].1) <==> name == s[j].0@,
{
    lemma_index_in(s, name);
    if let Some(x) = collect::index_in(s, name) {
        let n = choose|n: int| 0 <= n < s.len() && (#[trigger] s[n]).0@ == name && s[n].1 == x;
        if n < j {
            assert(s[n].0@ != s[j].0@ && s[n].1 != s[j].1);
        } else if j < n {
            assert(s[j].0@ != s[n].0@ && s[j].1 != s[n].1);
        }
    }
}

spec fn sighting(k: (Seq<char>, Seq<u8>)) -> spec_fn(NeighborView) -> bool {
    |n: NeighborView| n.dev == k.0 && n.mac == k.1
}

spec fn sighting_v4(k: (Seq<char>, Seq<u8>)) -> spec_fn(NeighborView) -> bool {
    |n: NeighborView| n.dev == k.0 && n.mac == k.1 && !n.ip.contains(':')
}

spec fn sighting_v6(k: (Seq<char>, Seq<u8>)) -> spec_fn(NeighborView) -> bool {
    |n: NeighborView| n.dev == k.0 && n.mac == k.1 && n.ip.contains(':')
}

spec fn ips(s: Seq<NeighborView>) -> Seq<Seq<char>> {
    s.map_values(|n: NeighborView| n.ip)
}

spec fn is_gathered(s: Seq<NeighborView>, k: (Seq<char>, Seq<u8>), a: AddressesView) -> bool {
    &&& a.ipv4 == each_once(ips(lists::picked(s, sighting_v4(k))))
    &&& a.ipv6 == each_once(ips(lists::picked(s, sighting_v6(k))))
    &&& exists|n: int|
        0 <= n < s.len() && (#[trigger] s[n]).dev == k.0 && s[n].mac == k.1 && s[n].state == a.state
    &&& forall|n: int|
        0 <= n < s.len() && (#[trigger] s[n]).dev == k.0 && s[n].mac == k.1 ==> collect::state_rank(
            s[n].state,
        ) <= collect::state_rank(a.state)
}

proof fn lemma_ips_push(s: Seq<NeighborView>, n: NeighborView)
    ensures
        each_once(ips(s.push(n))) == collect::with_text(each_once(ips(s)), n.ip),
{
    assert(ips(s.push(n)) =~= ips(s).push(n.ip));
    assert(ips(s).push(n.ip).drop_last() =~= ips(s));
    lemma_each_once(ips(s), n.ip);
}

proof fn lemma_blank_state()
    ensures
        collect::state_rank(Seq::empty()) == 0,
{
    reveal_strlit("REACHABLE");
    reveal_strlit("STALE");
    reveal_strlit("DELAY");
    reveal_strlit("PROBE");
    assert("REACHABLE"@.len() > 0 && "STALE"@.len() > 0 && "DELAY"@.len() > 0 && "PROBE"@.len()
        > 0);
}

proof fn lemma_gathered(s: Seq<NeighborView>, k: (Seq<char>, Seq<u8>))
    ensures
        table::distinct(collect::gathered(s)),
        match table::lookup(collect::gathered(s), k) {
            Some(a) => is_gathered(s, k, a),
            None => forall|n: int|
                0 <= n < s.len() ==> !((#[trigger] s[n]).dev == k.0 && s[n].mac == k.1),
        },
    decreases s.len(),
{
    if s.len() > 0 {
        let h = s.drop_last();
        let n = s.last();
        lemma_gathered(h, k);
        assert(h.push(n) =~= s);
        let rest = collect::gathered(h);
        let id = (n.dev, n.mac);
        let was = table::lookup_or(rest, id, collect::no_addresses());
        let now = collect::sighted(was, n);
        table::lemma_lookup_assigned(rest, id, now, k);
        table::lemma_assigned_distinct(rest, id, now);
        let v4 = lists::picked(h, sighting_v4(k));
        let v6 = lists::picked(h, sighting_v6(k));
        lists::lemma_picked_push(h, n, sighting_v4(k));
        lists::lemma_picked_push(h, n, sighting_v6(k));
        lemma_ips_push(v4, n);
        lemma_ips_push(v6, n);
        if id == k {
            collect::lemma_best_state(was.state, n.state);
            lemma_blank_state();
            if table::lookup(rest, k) is None {
                lists::lemma_picked_none(h, sighting_v4(k));
                lists::lemma_picked_none(h, sighting_v6(k));
                assert(ips(v4) =~= Seq::empty());
                assert(ips(v6) =~= Seq::empty());
                assert(was.ipv4 =~= each_once(ips(v4)));
                assert(was.ipv6 =~= each_once(ips(v6)));
                assert(now.state == n.state);
            } else {
                if was.state.len() == 0 {
                    assert(was.state =~= Seq::empty());
                }
            }
            assert(now.ipv4 == each_once(ips(lists::picked(s, sighting_v4(k)))));
            assert(now.ipv6 == each_once(ips(lists::picked(s, sighting_v6(k)))));
            if now.state == n.state {
                assert(s[s.len() - 1].state == now.state);
            } else {
                let p = choose|p: int|
                    0 <= p < h.len() && (#[trigger] h[p]).dev == k.0 && h[p].mac == k.1 && h[p].state
                        == was.state;
                assert(s[p].state == now.state);
            }
            assert forall|p: int|
                0 <= p < s.len() && (#[trigger] s[p]).dev == k.0 && s[p].mac
                    == k.1 implies collect::state_rank(s[p].state) <= collect::state_rank(
                now.state,
            ) by {
                if p < h.len() {
                    assert(h[p] == s[p]);
                    assert(table::lookup(rest, k) is Some);
                    assert(collect::state_rank(h[p].state) <= collect::state_rank(was.state));
                }
            }
        } else {
            match table::lookup(rest, k) {
                Some(a) => {
                    let p = choose|p: int|
                        0 <= p < h.len() && (#[trigger] h[p]).dev == k.0 && h[p].mac == k.1
                            && h[p].state == a.state;
                    assert(s[p].state == a.state);
                    assert forall|p: int|
                        0 <= p < s.len() && (#[trigger] s[p]).dev == k.0 && s[p].mac
                            == k.1 implies collect::state_rank(s[p].state) <= collect::state_rank(
                        a.state,
                    ) by {
                        assert(h[p] == s[p]);
                    }
                },
                None => {
                    assert forall|p: int| 0 <= p < s.len() implies !((#[trigger] s[p]).dev == k.0
                        && s[p].mac == k.1) by {
                        if p < h.len() {
                            assert(h[p] == s[p]);
                        }
                    }
                },
            }
        }
    } else {
        assert(!table::has_key(collect::gathered(s), k));
    }
}

/// What is shown of a device that is there.
spec fn here_as(
    s: Seq<((Seq<char>, Seq<u8>), AddressesView)>,
    registry: Seq<((u32, Seq<u8>), KnownView)>,
    names: Seq<Seq<char>>,
    rd: Readings,
    t: Seq<IfaceInfo>,
    now_ms: u64,
    dev: Seq<char>,
    id: (u32, Seq<u8>),
) -> Option<DeviceView> {
    match (table::lookup(s, (dev, id.1)), topology::with_index(t, id.0)) {
        (Some(a), Some(x)) => if a.ipv4.len() > 0 && (names.len() == 0 || names.contains(x.name)) {
            Some(collect::online_device(registry, id.0, x, id.1, a, rd, now_ms))
        } else {
            None
        },
        _ => None,
    }
}

proof fn lemma_online(
    s: Seq<((Seq<char>, Seq<u8>), AddressesView)>,
    registry: Seq<((u32, Seq<u8>), KnownView)>,
    names: Seq<Seq<char>>,
    rd: Readings,
    t: Seq<IfaceInfo>,
    now_ms: u64,
    id: (u32, Seq<u8>),
    j: int,
)
    requires
        table::distinct(s),
        read_once(rd.ifindexes@),
        0 <= j < rd.ifindexes@.len(),
        rd.ifindexes@[j].1 == id.0,
    ensures
        table::lookup(collect::devices_online(s, registry, names, rd, t, now_ms), id) == here_as(
            s,
            registry,
            names,
            rd,
            t,
            now_ms,
            rd.ifindexes@[j].0@,
            id,
        ),
    decreases s.len(),
{
    let dev = rd.ifindexes@[j].0@;
    if s.len() > 0 {
        let h = s.drop_last();
        lemma_online(h, registry, names, rd, t, now_ms, id, j);
        let rest = collect::devices_online(h, registry, names, rd, t, now_ms);
        let (k, a) = s.last();
        table::lemma_lookup_last(s, (dev, id.1));
        lemma_index_of(rd.ifindexes@, j, k.0);
        if let Some((ifindex, x)) = collect::watched_iface(k.0, names, rd, t) {
            table::lemma_lookup_assigned(
                rest,
                (ifindex, k.1),
                collect::online_device(registry, ifindex, x, k.1, a, rd, now_ms),
                id,
            );
        }
        if k == (dev, id.1) && table::has_key(h, k) {
            let p = table::place_of(h, k);
            assert(table::is_place(h, k, p));
            assert(s[p].0 != s[s.len() - 1].0);
        }
    } else {
        assert(!table::has_key(s, (dev, id.1)));
        assert(!table::has_key(
            collect::devices_online(s, registry, names, rd, t, now_ms),
            id,
        ));
    }
}

proof fn lemma_online_read(
    s: Seq<((Seq<char>, Seq<u8>), AddressesView)>,
    registry: Seq<((u32, Seq<u8>), KnownView)>,
    names: Seq<Seq<char>>,
    rd: Readings,
    t: Seq<IfaceInfo>,
    now_ms: u64,
    id: (u32, Seq<u8>),
)
    requires
        forall|i: int| 0 <= i < s.len() ==> (#[trigger] s[i]).0.1.len() == 6,
    ensures
        table::distinct(collect::devices_online(s, registry, names, rd, t, now_ms)),
        match table::lookup(collect::devices_online(s, registry, names, rd, t, now_ms), id) {
            Some(d) => {
                &&& d.ifindex == id.0
                &&& d.mac == mac::mac_text(id.1)
                &&& id.1.len() == 6
                &&& d.online
                &&& exists|j: int| 0 <= j < rd.ifindexes@.len() && #[trigger] rd.ifindexes@[j].1 == id.0
            },
            None => true,
        },
    decreases s.len(),
{
    if s.len() > 0 {
        let h = s.drop_last();
        assert forall|i: int| 0 <= i < h.len() implies (#[trigger] h[i]).0.1.len() == 6 by {
            assert(s[i].0.1.len() == 6);
        }
        lemma_online_read(h, registry, names, rd, t, now_ms, id);
        let rest = collect::devices_online(h, registry, names, rd, t, now_ms);
        let (k, a) = s[s.len() - 1];
        lemma_index_in(rd.ifindexes@, k.0);
        if let Some((ifindex, x)) = collect::watched_iface(k.0, names, rd, t) {
            let d = collect::online_device(registry, ifindex, x, k.1, a, rd, now_ms);
            table::lemma_lookup_assigned(rest, (ifindex, k.1), d, id);
            table::lemma_assigned_distinct(rest, (ifindex, k.1), d);
            let j = choose|j: int|
                0 <= j < rd.ifindexes@.len() && (#[trigger] rd.ifindexes@[j]).0@ == k.0
                    && rd.ifindexes@[j].1 == ifindex;
            assert(rd.ifindexes@[j].1 == ifindex);
        }
    } else {
        assert(!table::has_key(
            collect::devices_online(s, registry, names, rd, t, now_ms),
            id,
        ));
    }
}

proof fn lemma_read_keeps(
    prev: Seq<(DeviceCounter, u64)>,
    group: Seq<((u32, Seq<u8>), DeviceView)>,
    counted: Seq<(DeviceTrafficKey, u64)>,
    elapsed_ms: u64,
    id: (u32, Seq<u8>),
)
    requires
        table::distinct(group),
    ensures
        table::distinct(collect::devices_read(prev, group, counted, elapsed_ms).1),
        match (
            table::lookup(group, id),
            table::lookup(collect::devices_read(prev, group, counted, elapsed_ms).1, id),
        ) {
            (Some(a), Some(b)) => b == (DeviceView { metrics: b.metrics, ..a }),
            (None, None) => true,
            _ => false,
        },
    decreases counted.len(),
{
    if counted.len() > 0 {
        let h = counted.drop_last();
        let e = counted.last();
        lemma_read_keeps(prev, group, h, elapsed_ms, id);
        let (p, g) = collect::devices_read(prev, group, h, elapsed_ms);
        let other = (e.0.ifindex, e.0.mac@);
        if let Some(d) = table::lookup(g, other) {
            let q = collect::filled(
                e.0.ip_version,
                e.0.direction,
                d.metrics,
                counters::growth(e.1, table::lookup_or(p, e.0@, 0)),
                elapsed_ms,
            );
            table::lemma_lookup_assigned(g, other, DeviceView { metrics: q, ..d }, id);
            table::lemma_assigned_distinct(g, other, DeviceView { metrics: q, ..d });
        }
    }
}

proof fn lemma_seen_macs(s: Seq<NeighborView>)
    requires
        forall|i: int| 0 <= i < s.len() ==> (#[trigger] s[i]).mac.len() == 6,
    ensures
        forall|i: int|
            0 <= i < collect::gathered(s).len() ==> (#[trigger] collect::gathered(s)[i]).0.1.len()
                == 6,
{
    let all = collect::gathered(s);
    assert forall|i: int| 0 <= i < all.len() implies (#[trigger] all[i]).0.1.len() == 6 by {
        lemma_gathered(s, all[i].0);
        table::lemma_lookup_at(all, i);
        let k = all[i].0;
        let a = all[i].1;
        let n = choose|n: int|
            0 <= n < s.len() && (#[trigger] s[n]).dev == k.0 && s[n].mac == k.1 && s[n].state
                == a.state;
        assert(s[n].mac.len() == 6);
    }
}

spec fn near(rd: Readings) -> Seq<((Seq<char>, Seq<u8>), AddressesView)> {
    collect::gathered(sorting::views(rd.neighbors@))
}

spec fn first_seen(
    r: RuntimeView,
    names: Seq<Seq<char>>,
    rd: Readings,
    t: Seq<IfaceInfo>,
    now_ms: u64,
) -> Seq<((u32, Seq<u8>), DeviceView)> {
    collect::devices_online(near(rd), r.registry, names, rd, t, now_ms)
}

spec fn group(
    r: RuntimeView,
    names: Seq<Seq<char>>,
    rd: Readings,
    t: Seq<IfaceInfo>,
    now_ms: u64,
    elapsed_ms: u64,
) -> Seq<((u32, Seq<u8>), DeviceView)> {
    collect::group_of(r, names, rd, t, now_ms, elapsed_ms).1
}

proof fn lemma_group(
    r: RuntimeView,
    names: Seq<Seq<char>>,
    rd: Readings,
    t: Seq<IfaceInfo>,
    now_ms: u64,
    elapsed_ms: u64,
    id: (u32, Seq<u8>),
)
    ensures
        table::distinct(group(r, names, rd, t, now_ms, elapsed_ms)),
        table::distinct(near(rd)),
        match (
            table::lookup(first_seen(r, names, rd, t, now_ms), id),
            table::lookup(group(r, names, rd, t, now_ms, elapsed_ms), id),
        ) {
            (Some(a), Some(b)) => {
                &&& b == (DeviceView { metrics: b.metrics, ..a })
                &&& b.ifindex == id.0
                &&& b.mac == mac::mac_text(id.1)
                &&& id.1.len() == 6
                &&& b.online
                &&& exists|j: int| 0 <= j < rd.ifindexes@.len() && #[trigger] rd.ifindexes@[j].1 == id.0
            },
            (None, None) => true,
            _ => false,
        },
{
    let seen = sorting::views(rd.neighbors@);
    assert forall|j: int| 0 <= j < seen.len() implies (#[trigger] seen[j]).mac.len() == 6 by {}
    lemma_seen_macs(seen);
    lemma_gathered(seen, (Seq::empty(), id.1));
    lemma_online_read(near(rd), r.registry, names, rd, t, now_ms, id);
    lemma_read_keeps(
        r.prev_device_bytes,
        first_seen(r, names, rd, t, now_ms),
        rd.device_stats@,
        elapsed_ms,
        id,
    );
}

spec fn here(
    r: RuntimeView,
    names: Seq<Seq<char>>,
    rd: Readings,
    t: Seq<IfaceInfo>,
    now_ms: u64,
    elapsed_ms: u64,
) -> Seq<((u32, Seq<u8>), DeviceView)> {
    collect::with_totals(
        r.cumulative_device,
        group(r, names, rd, t, now_ms, elapsed_ms),
    )
}

spec fn gone(
    r: RuntimeView,
    names: Seq<Seq<char>>,
    rd: Readings,
    t: Seq<IfaceInfo>,
    now_ms: u64,
    elapsed_ms: u64,
) -> Seq<DeviceView> {
    let after = collect::remembered_after(r, names, rd, t, now_ms, elapsed_ms);
    collect::devices_offline(
        after.registry,
        after.cumulative_device,
        here(r, names, rd, t, now_ms, elapsed_ms),
        names,
        t,
    )
}

spec fn listed(
    r: RuntimeView,
    names: Seq<Seq<char>>,
    rd: Readings,
    t: Seq<IfaceInfo>,
    now_ms: u64,
    elapsed_ms: u64,
) -> Seq<DeviceView> {
    collect::values_of(here(r, names, rd, t, now_ms, elapsed_ms)) + gone(
        r,
        names,
        rd,
        t,
        now_ms,
        elapsed_ms,
    )
}

/// A device that is shown stands among those that are there, or among those that are not.
proof fn lemma_listed(
    r: RuntimeView,
    names: Seq<Seq<char>>,
    rd: Readings,
    t: Seq<IfaceInfo>,
    now_ms: u64,
    elapsed_ms: u64,
    d: DeviceView,
)
    ensures
        collect::shown(r, names, rd, t, now_ms, elapsed_ms).devices.contains(d) <==> listed(
            r,
            names,
            rd,
            t,
            now_ms,
            elapsed_ms,
        ).contains(d),
        collect::shown(r, names, rd, t, now_ms, elapsed_ms).devices
            == sorting::sorted::<DeviceListItem>(listed(r, names, rd, t, now_ms, elapsed_ms)),
{
    sorting::lemma_sorted_members::<DeviceListItem>(
        listed(r, names, rd, t, now_ms, elapsed_ms),
        d,
    );
}

proof fn lemma_here(
    r: RuntimeView,
    names: Seq<Seq<char>>,
    rd: Readings,
    t: Seq<IfaceInfo>,
    now_ms: u64,
    elapsed_ms: u64,
    id: (u32, Seq<u8>),
)
    ensures
        table::distinct(here(r, names, rd, t, now_ms, elapsed_ms)),
        match (
            table::lookup(group(r, names, rd, t, now_ms, elapsed_ms), id),
            table::lookup(here(r, names, rd, t, now_ms, elapsed_ms), id),
        ) {
            (Some(a), Some(b)) => b == (DeviceView { cumulative: b.cumulative, ..a }),
            (None, None) => true,
            _ => false,
        },
{
    let g = group(r, names, rd, t, now_ms, elapsed_ms);
    let h = here(r, names, rd, t, now_ms, elapsed_ms);
    lemma_group(r, names, rd, t, now_ms, elapsed_ms, id);
    assert forall|i: int, j: int| 0 <= i < j < h.len() implies (#[trigger] h[i]).0 != (
    #[trigger] h[j]).0 by {
        assert(g[i].0 != g[j].0);
    }
    if table::has_key(g, id) {
        let n = table::place_of(g, id);
        assert(table::is_place(g, id, n));
        table::lemma_lookup_at(g, n);
        assert(h[n].0 == id);
        table::lemma_lookup_at(h, n);
    }
    if table::has_key(h, id) {
        let n = table::place_of(h, id);
        assert(table::is_place(h, id, n));
        assert(g[n].0 == id);
        table::lemma_has_key(g, id, n);
    }
}

proof fn lemma_offline(
    registry: Seq<((u32, Seq<u8>), KnownView)>,
    totals: Seq<((u32, Seq<u8>), CounterQuad)>,
    group: Seq<((u32, Seq<u8>), DeviceView)>,
    names: Seq<Seq<char>>,
    t: Seq<IfaceInfo>,
    i: int,
) -> (n: int)
    requires
        0 <= i < collect::devices_offline(registry, totals, group, names, t).len(),
    ensures
        0 <= n < registry.len(),
        !table::has_key(group, registry[n].0),
        collect::is_watched(registry[n].1, names, t),
        ({
            let d = registry[n].1;
            let x = collect::devices_offline(registry, totals, group, names, t)[i];
            &&& x.ifindex == d.ifindex
            &&& x.logical_iface == d.logical_iface
            &&& x.subnet == d.subnet
            &&& x.ipv4 == d.ipv4
            &&& x.ipv6 == d.ipv6
            &&& x.mac == mac::mac_text(d.mac)
            &&& x.hostname == d.hostname
            &&& x.metrics == counters::zero_quad()
            &&& x.cumulative == table::lookup_or(totals, registry[n].0, counters::zero_quad())
            &&& !x.online
            &&& x.last_seen_ms == d.last_seen_ms
            &&& x.neighbor_state is None
        }),
    decreases registry.len(),
{
    let rest = collect::devices_offline(registry.drop_last(), totals, group, names, t);
    if registry.len() > 0 && i < rest.len() {
        lemma_offline(registry.drop_last(), totals, group, names, t, i)
    } else {
        registry.len() - 1
    }
}

proof fn lemma_offline_all(
    registry: Seq<((u32, Seq<u8>), KnownView)>,
    totals: Seq<((u32, Seq<u8>), CounterQuad)>,
    group: Seq<((u32, Seq<u8>), DeviceView)>,
    names: Seq<Seq<char>>,
    t: Seq<IfaceInfo>,
    n: int,
) -> (i: int)
    requires
        0 <= n < registry.len(),
        !table::has_key(group, registry[n].0),
        collect::is_watched(registry[n].1, names, t),
    ensures
        0 <= i < collect::devices_offline(registry, totals, group, names, t).len(),
        collect::devices_offline(registry, totals, group, names, t)[i].ifindex
            == registry[n].1.ifindex,
        collect::devices_offline(registry, totals, group, names, t)[i].mac == mac::mac_text(
            registry[n].1.mac,
        ),
    decreases registry.len(),
{
    let rest = collect::devices_offline(registry.drop_last(), totals, group, names, t);
    if n < registry.len() - 1 {
        assert(registry.drop_last()[n] == registry[n]);
        lemma_offline_all(registry.drop_last(), totals, group, names, t, n)
    } else {
        rest.len() as int
    }
}

proof fn lemma_registered_place(
    registry: Seq<((u32, Seq<u8>), KnownView)>,
    group: Seq<((u32, Seq<u8>), DeviceView)>,
    now_ms: u64,
    n: int,
)
    ensures
        registry.len() <= collect::registered(registry, group, now_ms).len(),
        0 <= n < registry.len() && !table::has_key(group, registry[n].0)
            ==> collect::registered(registry, group, now_ms)[n] == registry[n],
        0 <= n < collect::registered(registry, group, now_ms).len() && !table::has_key(
            group,
            collect::registered(registry, group, now_ms)[n].0,
        ) ==> n < registry.len() && collect::registered(registry, group, now_ms)[n] == registry[n],
    decreases group.len(),
{
    if group.len() > 0 {
        let h = group.drop_last();
        lemma_registered_place(registry, h, now_ms, n);
        let rest = collect::registered(registry, h, now_ms);
        let all = collect::registered(registry, group, now_ms);
        let k = group.last().0;
        table::lemma_has_key(group, k, group.len() - 1);
        if 0 <= n < all.len() {
            let id = all[n].0;
            if !table::has_key(group, id) && table::has_key(h, id) {
                let p = table::place_of(h, id);
                assert(table::is_place(h, id, p));
                assert(group[p].0 == id);
                table::lemma_has_key(group, id, p);
            }
        }
        if 0 <= n < registry.len() {
            let id = registry[n].0;
            if !table::has_key(group, id) && table::has_key(h, id) {
                let p = table::place_of(h, id);
                assert(table::is_place(h, id, p));
                assert(group[p].0 == id);
                table::lemma_has_key(group, id, p);
            }
        }
        if table::has_key(rest, k) {
            let p = table::place_of(rest, k);
            assert(table::is_place(rest, k, p));
        }
    }
}

/// Where an online device of a snapshot stands.
proof fn lemma_online_entry(
    r: RuntimeView,
    names: Seq<Seq<char>>,
    rd: Readings,
    t: Seq<IfaceInfo>,
    now_ms: u64,
    elapsed_ms: u64,
    i: int,
    m: Seq<u8>,
)
    requires
        0 <= i < collect::shown(r, names, rd, t, now_ms, elapsed_ms).devices.len(),
        collect::shown(r, names, rd, t, now_ms, elapsed_ms).devices[i].online,
        collect::shown(r, names, rd, t, now_ms, elapsed_ms).devices[i].mac == mac::mac_text(m),
        m.len() == 6,
    ensures
        ({
            let d = collect::shown(r, names, rd, t, now_ms, elapsed_ms).devices[i];
            table::lookup(here(r, names, rd, t, now_ms, elapsed_ms), (d.ifindex, m)) == Some(d)
        }),
{
    let d = collect::shown(r, names, rd, t, now_ms, elapsed_ms).devices[i];
    let h = here(r, names, rd, t, now_ms, elapsed_ms);
    let all = listed(r, names, rd, t, now_ms, elapsed_ms);
    let after = collect::remembered_after(r, names, rd, t, now_ms, elapsed_ms);
    lemma_listed(r, names, rd, t, now_ms, elapsed_ms, d);
    assert(collect::shown(r, names, rd, t, now_ms, elapsed_ms).devices.contains(d));
    let n = choose|n: int| 0 <= n < all.len() && all[n] == d;
    if n >= h.len() {
        let _ = lemma_offline(
            after.registry,
            after.cumulative_device,
            h,
            names,
            t,
            n - h.len(),
        );
    }
    let id = h[n].0;
    lemma_here(r, names, rd, t, now_ms, elapsed_ms, id);
    lemma_group(r, names, rd, t, now_ms, elapsed_ms, id);
    table::lemma_lookup_at(h, n);
    mac::lemma_mac_round_trip(id.1);
    mac::lemma_mac_round_trip(m);
    assert(h[n].1 == d);
}

/// A device that is there is behind an interface that was read.
pub proof fn lemma_online_behind_read(
    r: RuntimeView,
    names: Seq<Seq<char>>,
    rd: Readings,
    t: Seq<IfaceInfo>,
    now_ms: u64,
    elapsed_ms: u64,
    i: int,
    m: Seq<u8>,
)
    requires
        0 <= i < collect::shown(r, names, rd, t, now_ms, elapsed_ms).devices.len(),
        collect::shown(r, names, rd, t, now_ms, elapsed_ms).devices[i].online,
        collect::shown(r, names, rd, t, now_ms, elapsed_ms).devices[i].mac == mac::mac_text(m),
        m.len() == 6,
    ensures
        exists|j: int|
            0 <= j < rd.ifindexes@.len() && #[trigger] rd.ifindexes@[j].1 == collect::shown(
                r,
                names,
                rd,
                t,
                now_ms,
                elapsed_ms,
            ).devices[i].ifindex,
{
    let d = collect::shown(r, names, rd, t, now_ms, elapsed_ms).devices[i];
    lemma_online_entry(r, names, rd, t, now_ms, elapsed_ms, i, m);
    lemma_here(r, names, rd, t, now_ms, elapsed_ms, (d.ifindex, m));
    lemma_group(r, names, rd, t, now_ms, elapsed_ms, (d.ifindex, m));
}

/// A device that is there was sighted just now. Its IPv4 addresses are those without a colon under
/// which a neighbour with its hardware address was sighted behind its interface, its IPv6 addresses
/// those with one, each once and in the order of the sightings; it has at least one IPv4 address. Its
/// state is the surest in which it was sighted.
pub proof fn lemma_online_addresses(
    r: RuntimeView,
    names: Seq<Seq<char>>,
    rd: Readings,
    t: Seq<IfaceInfo>,
    now_ms: u64,
    elapsed_ms: u64,
    i: int,
    m: Seq<u8>,
    j: int,
)
    requires
        read_once(rd.ifindexes@),
        0 <= i < collect::shown(r, names, rd, t, now_ms, elapsed_ms).devices.len(),
        collect::shown(r, names, rd, t, now_ms, elapsed_ms).devices[i].online,
        collect::shown(r, names, rd, t, now_ms, elapsed_ms).devices[i].mac == mac::mac_text(m),
        m.len() == 6,
        0 <= j < rd.ifindexes@.len(),
        rd.ifindexes@[j].1 == collect::shown(
            r,
            names,
            rd,
            t,
            now_ms,
            elapsed_ms,
        ).devices[i].ifindex,
    ensures
        ({
            let d = collect::shown(r, names, rd, t, now_ms, elapsed_ms).devices[i];
            let dev = rd.ifindexes@[j].0@;
            let seen = sorting::views(rd.neighbors@);
            &&& d.last_seen_ms == now_ms
            &&& d.ipv4.len() > 0
            &&& d.ipv4 == each_once(
                lists::picked(
                    seen,
                    |n: NeighborView| n.dev == dev && n.mac == m && !n.ip.contains(':'),
                ).map_values(|n: NeighborView| n.ip),
            )
            &&& d.ipv6 == each_once(
                lists::picked(
                    seen,
                    |n: NeighborView| n.dev == dev && n.mac == m && n.ip.contains(':'),
                ).map_values(|n: NeighborView| n.ip),
            )
            &&& exists|n: int|
                0 <= n < seen.len() && (#[trigger] seen[n]).dev == dev && seen[n].mac == m
                    && d.neighbor_state == Some(seen[n].state)
            &&& forall|n: int|
                0 <= n < seen.len() && (#[trigger] seen[n]).dev == dev && seen[n].mac == m
                    ==> collect::state_rank(seen[n].state) <= collect::state_rank(
                    d.neighbor_state.unwrap(),
                )
        }),
{
    let d = collect::shown(r, names, rd, t, now_ms, elapsed_ms).devices[i];
    let dev = rd.ifindexes@[j].0@;
    let id = (d.ifindex, m);
    let seen = sorting::views(rd.neighbors@);
    lemma_online_entry(r, names, rd, t, now_ms, elapsed_ms, i, m);
    lemma_here(r, names, rd, t, now_ms, elapsed_ms, id);
    lemma_group(r, names, rd, t, now_ms, elapsed_ms, id);
    lemma_online(near(rd), r.registry, names, rd, t, now_ms, id, j);
    lemma_gathered(seen, (dev, m));
    assert(sighting_v4((dev, m)) =~= (|n: NeighborView|
        n.dev == dev && n.mac == m && !n.ip.contains(':')));
    assert(sighting_v6((dev, m)) =~= (|n: NeighborView|
        n.dev == dev && n.mac == m && n.ip.contains(':')));
    let a = table::lookup(near(rd), (dev, m)).unwrap();
    let n = choose|n: int|
        0 <= n < seen.len() && (#[trigger] seen[n]).dev == dev && seen[n].mac == m && seen[n].state
            == a.state;
    assert(d.neighbor_state == Some(seen[n].state));
}

/// A device that is there is shown behind the interface of the topology that has its index, which is
/// watched. Its subnet is the first IPv4 range of the interface that its first address lies in; where
/// it lies in none, the first IPv4 range, else the first IPv6 range, else a dash.
pub proof fn lemma_online_place(
    r: RuntimeView,
    names: Seq<Seq<char>>,
    rd: Readings,
    t: Seq<IfaceInfo>,
    now_ms: u64,
    elapsed_ms: u64,
    i: int,
    m: Seq<u8>,
)
    requires
        read_once(rd.ifindexes@),
        0 <= i < collect::shown(r, names, rd, t, now_ms, elapsed_ms).devices.len(),
        collect::shown(r, names, rd, t, now_ms, elapsed_ms).devices[i].online,
        collect::shown(r, names, rd, t, now_ms, elapsed_ms).devices[i].mac == mac::mac_text(m),
        m.len() == 6,
    ensures
        ({
            let d = collect::shown(r, names, rd, t, now_ms, elapsed_ms).devices[i];
            exists|e: int|
                {
                    &&& 0 <= e < t.len()
                    &&& (#[trigger] t[e]).ifindex == d.ifindex
                    &&& d.logical_iface == t[e].name
                    &&& names.len() == 0 || names.contains(t[e].name)
                    &&& forall|c: int|
                        0 <= c < t[e].ipv4_cidrs.len() && topology::in_cidr(
                            d.ipv4[0],
                            #[trigger] t[e].ipv4_cidrs[c],
                        ) && (forall|b: int|
                            0 <= b < c ==> !topology::in_cidr(
                                d.ipv4[0],
                                #[trigger] t[e].ipv4_cidrs[b],
                            )) ==> d.subnet == t[e].ipv4_cidrs[c]
                    &&& (forall|c: int|
                        0 <= c < t[e].ipv4_cidrs.len() ==> !topology::in_cidr(
                            d.ipv4[0],
                            #[trigger] t[e].ipv4_cidrs[c],
                        )) ==> d.subnet == (if t[e].ipv4_cidrs.len() > 0 {
                        t[e].ipv4_cidrs[0]
                    } else if t[e].ipv6_cidrs.len() > 0 {
                        t[e].ipv6_cidrs[0]
                    } else {
                        "-"@
                    })
                }
        }),
{
    let d = collect::shown(r, names, rd, t, now_ms, elapsed_ms).devices[i];
    let id = (d.ifindex, m);
    lemma_online_entry(r, names, rd, t, now_ms, elapsed_ms, i, m);
    lemma_here(r, names, rd, t, now_ms, elapsed_ms, id);
    lemma_group(r, names, rd, t, now_ms, elapsed_ms, id);
    let j = choose|j: int| 0 <= j < rd.ifindexes@.len() && #[trigger] rd.ifindexes@[j].1 == id.0;
    lemma_online(near(rd), r.registry, names, rd, t, now_ms, id, j);
    topology::lemma_with_index(t, id.0);
    let x = topology::with_index(t, id.0).unwrap();
    let e = choose|e: int| 0 <= e < t.len() && t[e] == x;
    assert(t[e].ifindex == d.ifindex);
    lemma_range_of(x.ipv4_cidrs, d.ipv4[0]);
}

proof fn lemma_range_of(cidrs: Seq<Seq<char>>, ip: Seq<char>)
    ensures
        forall|c: int|
            0 <= c < cidrs.len() && topology::in_cidr(ip, #[trigger] cidrs[c]) && (forall|b: int|
                0 <= b < c ==> !topology::in_cidr(ip, #[trigger] cidrs[b])) ==> collect::range_of(
                cidrs,
                ip,
            ) == Some(cidrs[c]),
        (forall|c: int| 0 <= c < cidrs.len() ==> !topology::in_cidr(ip, #[trigger] cidrs[c])) ==> (
        collect::range_of(cidrs, ip) is None),
    decreases cidrs.len(),
{
    if cidrs.len() > 0 {
        let r = cidrs.drop_first();
        lemma_range_of(r, ip);
        assert forall|c: int|
            0 <= c < cidrs.len() && topology::in_cidr(ip, #[trigger] cidrs[c]) && (forall|b: int|
                0 <= b < c ==> !topology::in_cidr(
                    ip,
                    #[trigger] cidrs[b],
                )) implies collect::range_of(cidrs, ip) == Some(cidrs[c]) by {
            if c > 0 {
                assert(!topology::in_cidr(ip, cidrs[0]));
                assert(r[c - 1] == cidrs[c]);
                assert forall|b: int| 0 <= b < c - 1 implies !topology::in_cidr(
                    ip,
                    #[trigger] r[b],
                ) by {
                    assert(!topology::in_cidr(ip, cidrs[b + 1]));
                }
            }
        }
        if forall|c: int| 0 <= c < cidrs.len() ==> !topology::in_cidr(ip, #[trigger] cidrs[c]) {
            assert(!topology::in_cidr(ip, cidrs[0]));
            assert forall|c: int| 0 <= c < r.len() implies !topology::in_cidr(
                ip,
                #[trigger] r[c],
            ) by {
                assert(!topology::in_cidr(ip, cidrs[c + 1]));
            }
        }
    }
}

/// A device that is there keeps the host name that is remembered of it, where that is neither blank
/// nor a dash. Else it has the one that was read last for its hardware address, and a dash where none
/// was.
pub proof fn lemma_online_hostname(
    r: RuntimeView,
    names: Seq<Seq<char>>,
    rd: Readings,
    t: Seq<IfaceInfo>,
    now_ms: u64,
    elapsed_ms: u64,
    i: int,
    m: Seq<u8>,
)
    requires
        read_once(rd.ifindexes@),
        0 <= i < collect::shown(r, names, rd, t, now_ms, elapsed_ms).devices.len(),
        collect::shown(r, names, rd, t, now_ms, elapsed_ms).devices[i].online,
        collect::shown(r, names, rd, t, now_ms, elapsed_ms).devices[i].mac == mac::mac_text(m),
        m.len() == 6,
    ensures
        ({
            let d = collect::shown(r, names, rd, t, now_ms, elapsed_ms).devices[i];
            let known = table::lookup(r.registry, (d.ifindex, m));
            let kept = known is Some && text::trimmed(known.unwrap().hostname).len() > 0
                && text::trimmed(known.unwrap().hostname) != "-"@;
            &&& kept ==> d.hostname == known.unwrap().hostname
            &&& forall|n: int|
                !kept && 0 <= n < rd.hostnames@.len() && (#[trigger] rd.hostnames@[n]).0@ == m && (
                forall|b: int|
                    n < b < rd.hostnames@.len() ==> (#[trigger] rd.hostnames@[b]).0@ != m)
                    ==> d.hostname == rd.hostnames@[n].1@
            &&& !kept && (forall|n: int|
                0 <= n < rd.hostnames@.len() ==> (#[trigger] rd.hostnames@[n]).0@ != m)
                ==> d.hostname == "-"@
        }),
{
    let d = collect::shown(r, names, rd, t, now_ms, elapsed_ms).devices[i];
    let id = (d.ifindex, m);
    lemma_online_entry(r, names, rd, t, now_ms, elapsed_ms, i, m);
    lemma_here(r, names, rd, t, now_ms, elapsed_ms, id);
    lemma_group(r, names, rd, t, now_ms, elapsed_ms, id);
    let j = choose|j: int| 0 <= j < rd.ifindexes@.len() && #[trigger] rd.ifindexes@[j].1 == id.0;
    lemma_online(near(rd), r.registry, names, rd, t, now_ms, id, j);
    lemma_host_in(rd.hostnames@, m);
}

proof fn lemma_host_in(s: Seq<([u8; 6], String)>, m: Seq<u8>)
    ensures
        forall|n: int|
            0 <= n < s.len() && (#[trigger] s[n]).0@ == m && (forall|b: int|
                n < b < s.len() ==> (#[trigger] s[b]).0@ != m) ==> collect::host_in(s, m) == Some(
                s[n].1@,
            ),
        (forall|n: int| 0 <= n < s.len() ==> (#[trigger] s[n]).0@ != m) ==> collect::host_in(
            s,
            m,
        ) is None,
    decreases s.len(),
{
    if s.len() > 0 {
        let h = s.drop_last();
        lemma_host_in(h, m);
        assert forall|n: int|
            0 <= n < s.len() && (#[trigger] s[n]).0@ == m && (forall|b: int|
                n < b < s.len() ==> (#[trigger] s[b]).0@ != m) implies collect::host_in(s, m)
            == Some(s[n].1@) by {
            if n < h.len() {
                assert(s[s.len() - 1].0@ != m);
                assert(h[n] == s[n]);
                assert forall|b: int| n < b < h.len() implies (#[trigger] h[b]).0@ != m by {
                    assert(s[b].0@ != m);
                }
            }
        }
        if forall|n: int| 0 <= n < s.len() ==> (#[trigger] s[n]).0@ != m {
            assert(s[s.len() - 1].0@ != m);
            assert forall|n: int| 0 <= n < h.len() implies (#[trigger] h[n]).0@ != m by {
                assert(s[n].0@ != m);
            }
        }
    }
}

/// Every neighbour that was sighted under an IPv4 address behind an interface that was read, is known
/// to the topology and is watched, is shown to be there.
pub proof fn lemma_sighted_shown(
    r: RuntimeView,
    names: Seq<Seq<char>>,
    rd: Readings,
    t: Seq<IfaceInfo>,
    now_ms: u64,
    elapsed_ms: u64,
    n: int,
    j: int,
    e: int,
)
    requires
        read_once(rd.ifindexes@),
        0 <= n < rd.neighbors@.len(),
        !rd.neighbors@[n].ip@.contains(':'),
        0 <= j < rd.ifindexes@.len(),
        rd.ifindexes@[j].0@ == rd.neighbors@[n].dev@,
        0 <= e < t.len(),
        t[e].ifindex == rd.ifindexes@[j].1,
        forall|f: int| 0 <= f < e ==> (#[trigger] t[f]).ifindex != t[e].ifindex,
        names.len() == 0 || names.contains(t[e].name),
    ensures
        ({
            let d = collect::shown(r, names, rd, t, now_ms, elapsed_ms).devices;
            exists|i: int| {
                &&& 0 <= i < d.len()
                &&& (#[trigger] d[i]).online
                &&& d[i].ifindex == rd.ifindexes@[j].1
                &&& d[i].mac == mac::mac_text(rd.neighbors@[n].mac@)
            }
        }),
{
    let seen = sorting::views(rd.neighbors@);
    let m = seen[n].mac;
    let dev = seen[n].dev;
    let id = (rd.ifindexes@[j].1, m);
    lemma_gathered(seen, (dev, m));
    lists::lemma_picked_complete(seen, sighting_v4((dev, m)), n);
    let v4 = lists::picked(seen, sighting_v4((dev, m)));
    assert(v4.len() > 0);
    lemma_each_once(ips(v4), Seq::empty());
    lemma_online(near(rd), r.registry, names, rd, t, now_ms, id, j);
    topology::lemma_first_index(t, e);
    lemma_group(r, names, rd, t, now_ms, elapsed_ms, id);
    lemma_here(r, names, rd, t, now_ms, elapsed_ms, id);
    let h = here(r, names, rd, t, now_ms, elapsed_ms);
    let p = table::place_of(h, id);
    assert(table::is_place(h, id, p));
    let d = h[p].1;
    let all = listed(r, names, rd, t, now_ms, elapsed_ms);
    assert(all[p] == d);
    lemma_listed(r, names, rd, t, now_ms, elapsed_ms, d);
    let out = collect::shown(r, names, rd, t, now_ms, elapsed_ms).devices;
    let i = choose|i: int| 0 <= i < out.len() && out[i] == d;
    assert(out[i].online);
}

/// Whether what is known of each device says the interface and the address under which it is known.
pub open spec fn known_alike(registry: Seq<((u32, Seq<u8>), KnownView)>) -> bool {
    forall|n: int|
        0 <= n < registry.len() ==> (#[trigger] registry[n]).1.ifindex == registry[n].0.0
            && registry[n].1.mac == registry[n].0.1 && registry[n].0.1.len() == 6
}

/// A device that is not there is shown as it is known, without traffic and with the totals that it
/// had. It is watched, and the snapshot does not show it to be there as well.
pub proof fn lemma_offline_shown(
    r: RuntimeView,
    names: Seq<Seq<char>>,
    rd: Readings,
    t: Seq<IfaceInfo>,
    now_ms: u64,
    elapsed_ms: u64,
    i: int,
)
    requires
        known_alike(r.registry),
        0 <= i < collect::shown(r, names, rd, t, now_ms, elapsed_ms).devices.len(),
        !collect::shown(r, names, rd, t, now_ms, elapsed_ms).devices[i].online,
    ensures
        ({
            let x = collect::shown(r, names, rd, t, now_ms, elapsed_ms).devices[i];
            exists|n: int|
                {
                    &&& 0 <= n < r.registry.len()
                    &&& (#[trigger] r.registry[n]).0.0 == x.ifindex
                    &&& mac::mac_text(r.registry[n].0.1) == x.mac
                    &&& x.logical_iface == r.registry[n].1.logical_iface
                    &&& x.subnet == r.registry[n].1.subnet
                    &&& x.ipv4 == r.registry[n].1.ipv4
                    &&& x.ipv6 == r.registry[n].1.ipv6
                    &&& x.hostname == r.registry[n].1.hostname
                    &&& x.last_seen_ms == r.registry[n].1.last_seen_ms
                    &&& x.neighbor_state is None
                    &&& x.metrics == counters::zero_quad()
                    &&& x.cumulative == table::lookup_or(
                        r.cumulative_device,
                        r.registry[n].0,
                        counters::zero_quad(),
                    )
                    &&& names.len() == 0 || exists|e: int|
                        0 <= e < t.len() && (#[trigger] t[e]).ifindex == x.ifindex && names.contains(
                            t[e].name,
                        )
                }
        }),
        forall|j: int|
            0 <= j < collect::shown(r, names, rd, t, now_ms, elapsed_ms).devices.len() && (
            #[trigger] collect::shown(r, names, rd, t, now_ms, elapsed_ms).devices[j]).online
                ==> collect::shown(r, names, rd, t, now_ms, elapsed_ms).devices[j].ifindex
                != collect::shown(r, names, rd, t, now_ms, elapsed_ms).devices[i].ifindex
                || collect::shown(r, names, rd, t, now_ms, elapsed_ms).devices[j].mac
                != collect::shown(r, names, rd, t, now_ms, elapsed_ms).devices[i].mac,
{
    let out = collect::shown(r, names, rd, t, now_ms, elapsed_ms).devices;
    let x = out[i];
    let h = here(r, names, rd, t, now_ms, elapsed_ms);
    let g = group(r, names, rd, t, now_ms, elapsed_ms);
    let all = listed(r, names, rd, t, now_ms, elapsed_ms);
    let after = collect::remembered_after(r, names, rd, t, now_ms, elapsed_ms);
    lemma_listed(r, names, rd, t, now_ms, elapsed_ms, x);
    assert(out.contains(x));
    let a = choose|a: int| 0 <= a < all.len() && all[a] == x;
    if a < h.len() {
        let id = h[a].0;
        lemma_here(r, names, rd, t, now_ms, elapsed_ms, id);
        lemma_group(r, names, rd, t, now_ms, elapsed_ms, id);
        table::lemma_lookup_at(h, a);
    }
    let n = lemma_offline(
        after.registry,
        after.cumulative_device,
        h,
        names,
        t,
        a - h.len(),
    );
    lemma_registered_place(r.registry, h, now_ms, n);
    let k = r.registry[n].0;
    assert(r.registry[n].1.ifindex == k.0);
    lemma_here(r, names, rd, t, now_ms, elapsed_ms, k);
    lemma_group(r, names, rd, t, now_ms, elapsed_ms, k);
    collect::lemma_device_totals(r.cumulative_device, g, k);
    topology::lemma_with_index(t, k.0);
    if names.len() > 0 {
        let w = topology::with_index(t, k.0).unwrap();
        let e = choose|e: int| 0 <= e < t.len() && t[e] == w;
        assert(t[e].ifindex == x.ifindex);
    }
    assert forall|j: int| 0 <= j < out.len() && (#[trigger] out[j]).online implies out[j].ifindex
        != out[i].ifindex || out[j].mac != out[i].mac by {
        if out[j].ifindex == out[i].ifindex && out[j].mac == out[i].mac {
            lemma_online_entry(r, names, rd, t, now_ms, elapsed_ms, j, k.1);
        }
    }
}

/// Every known device is shown that is behind a watched interface, whether it is there or not.
pub proof fn lemma_known_shown(
    r: RuntimeView,
    names: Seq<Seq<char>>,
    rd: Readings,
    t: Seq<IfaceInfo>,
    now_ms: u64,
    elapsed_ms: u64,
    n: int,
    e: int,
)
    requires
        known_alike(r.registry),
        0 <= n < r.registry.len(),
        names.len() > 0 ==> 0 <= e < t.len() && t[e].ifindex == r.registry[n].0.0 && (forall|f: int|
            0 <= f < e ==> (#[trigger] t[f]).ifindex != t[e].ifindex) && names.contains(t[e].name),
    ensures
        ({
            let d = collect::shown(r, names, rd, t, now_ms, elapsed_ms).devices;
            exists|i: int| {
                &&& 0 <= i < d.len()
                &&& (#[trigger] d[i]).ifindex == r.registry[n].0.0
                &&& d[i].mac == mac::mac_text(r.registry[n].0.1)
            }
        }),
{
    let out = collect::shown(r, names, rd, t, now_ms, elapsed_ms).devices;
    let h = here(r, names, rd, t, now_ms, elapsed_ms);
    let all = listed(r, names, rd, t, now_ms, elapsed_ms);
    let after = collect::remembered_after(r, names, rd, t, now_ms, elapsed_ms);
    let k = r.registry[n].0;
    assert(r.registry[n].1.ifindex == k.0);
    lemma_here(r, names, rd, t, now_ms, elapsed_ms, k);
    lemma_group(r, names, rd, t, now_ms, elapsed_ms, k);
    let a = if table::has_key(h, k) {
        let p = table::place_of(h, k);
        assert(table::is_place(h, k, p));
        p
    } else {
        lemma_registered_place(r.registry, h, now_ms, n);
        if names.len() > 0 {
            topology::lemma_first_index(t, e);
        }
        h.len() + lemma_offline_all(
            after.registry,
            after.cumulative_device,
            h,
            names,
            t,
            n,
        )
    };
    let x = all[a];
    assert(all.contains(x));
    lemma_listed(r, names, rd, t, now_ms, elapsed_ms, x);
    let i = choose|i: int| 0 <= i < out.len() && out[i] == x;
    assert(out[i].ifindex == k.0);
}

/// Afterwards a device that is there is known as it is shown, with now as the time it was last seen.
/// What is known of any other device stays as it was.
pub proof fn lemma_known_after(
    r: RuntimeView,
    names: Seq<Seq<char>>,
    rd: Readings,
    t: Seq<IfaceInfo>,
    now_ms: u64,
    elapsed_ms: u64,
    id: (u32, Seq<u8>),
)
    requires
        id.1.len() == 6,
    ensures
        ({
            let out = collect::shown(r, names, rd, t, now_ms, elapsed_ms).devices;
            let after = collect::remembered_after(r, names, rd, t, now_ms, elapsed_ms);
            &&& forall|i: int|
                0 <= i < out.len() && (#[trigger] out[i]).online && out[i].ifindex == id.0
                    && out[i].mac == mac::mac_text(id.1) ==> table::lookup(after.registry, id)
                    == Some(
                    KnownView {
                        ifindex: id.0,
                        mac: id.1,
                        ipv4: out[i].ipv4,
                        ipv6: out[i].ipv6,
                        hostname: out[i].hostname,
                        logical_iface: out[i].logical_iface,
                        subnet: out[i].subnet,
                        last_seen_ms: now_ms,
                    },
                )
            &&& (forall|i: int|
                0 <= i < out.len() && (#[trigger] out[i]).online ==> out[i].ifindex != id.0
                    || out[i].mac != mac::mac_text(id.1)) ==> table::lookup(after.registry, id)
                == table::lookup(r.registry, id) && table::lookup(after.cumulative_device, id)
                == table::lookup(r.cumulative_device, id)
            &&& after.last_snapshot_ms == r.last_snapshot_ms
        }),
{
    let out = collect::shown(r, names, rd, t, now_ms, elapsed_ms).devices;
    let h = here(r, names, rd, t, now_ms, elapsed_ms);
    let g = group(r, names, rd, t, now_ms, elapsed_ms);
    lemma_here(r, names, rd, t, now_ms, elapsed_ms, id);
    lemma_group(r, names, rd, t, now_ms, elapsed_ms, id);
    collect::lemma_registered(r.registry, h, now_ms, id);
    collect::lemma_device_totals(r.cumulative_device, g, id);
    assert forall|i: int|
        0 <= i < out.len() && (#[trigger] out[i]).online && out[i].ifindex == id.0 && out[i].mac
            == mac::mac_text(id.1) implies table::lookup(h, id) == Some(out[i]) by {
        lemma_online_entry(r, names, rd, t, now_ms, elapsed_ms, i, id.1);
    }
    if table::has_key(h, id) {
        let p = table::place_of(h, id);
        assert(table::is_place(h, id, p));
        let d = h[p].1;
        let all = listed(r, names, rd, t, now_ms, elapsed_ms);
        assert(all[p] == d);
        lemma_listed(r, names, rd, t, now_ms, elapsed_ms, d);
        let i = choose|i: int| 0 <= i < out.len() && out[i] == d;
        assert(out[i].online);
    }
}

proof fn lemma_counters_after(
    prev: Seq<(DeviceCounter, u64)>,
    group: Seq<((u32, Seq<u8>), DeviceView)>,
    counted: Seq<(DeviceTrafficKey, u64)>,
    elapsed_ms: u64,
    k: DeviceCounter,
)
    requires
        table::distinct(group),
    ensures
        forall|i: int|
            0 <= i < counted.len() && (#[trigger] counted[i]).0@ == k && (forall|j: int|
                i < j < counted.len() ==> (#[trigger] counted[j]).0@ != k) ==> table::lookup(
                collect::devices_read(prev, group, counted, elapsed_ms).0,
                k,
            ) == (if table::has_key(group, (k.ifindex, k.mac)) {
                Some(counted[i].1)
            } else {
                table::lookup(prev, k)
            }),
        (forall|i: int| 0 <= i < counted.len() ==> (#[trigger] counted[i]).0@ != k) ==> table::lookup(
            collect::devices_read(prev, group, counted, elapsed_ms).0,
            k,
        ) == table::lookup(prev, k),
        !table::has_key(group, (k.ifindex, k.mac)) ==> table::lookup(
            collect::devices_read(prev, group, counted, elapsed_ms).0,
            k,
        ) == table::lookup(prev, k),
    decreases counted.len(),
{
    if counted.len() > 0 {
        let h = counted.drop_last();
        let e = counted.last();
        lemma_counters_after(prev, group, h, elapsed_ms, k);
        let (p, g) = collect::devices_read(prev, group, h, elapsed_ms);
        let other = (e.0.ifindex, e.0.mac@);
        lemma_read_keeps(prev, group, h, elapsed_ms, other);
        table::lemma_lookup_assigned(p, e.0@, e.1, k);
        if forall|i: int| 0 <= i < counted.len() ==> (#[trigger] counted[i]).0@ != k {
            assert(counted[counted.len() - 1].0@ != k);
            assert forall|i: int| 0 <= i < h.len() implies (#[trigger] h[i]).0@ != k by {
                assert(counted[i].0@ != k);
            }
        }
        assert forall|i: int|
            0 <= i < counted.len() && (#[trigger] counted[i]).0@ == k && (forall|j: int|
                i < j < counted.len() ==> (#[trigger] counted[j]).0@ != k) implies table::lookup(
            collect::devices_read(prev, group, counted, elapsed_ms).0,
            k,
        ) == (if table::has_key(group, (k.ifindex, k.mac)) {
            Some(counted[i].1)
        } else {
            table::lookup(prev, k)
        }) by {
            if i < h.len() {
                assert(counted[counted.len() - 1].0@ != k);
                assert(h[i] == counted[i]);
                assert forall|j: int| i < j < h.len() implies (#[trigger] h[j]).0@ != k by {
                    assert(counted[j].0@ != k);
                }
            }
        }
    }
}

/// Afterwards the counters of the devices that are there are remembered as they were read, so that
/// what they grow by is counted once. Those of other devices, and those that were not read, are
/// remembered as they were.
pub proof fn lemma_device_counters_after(
    r: RuntimeView,
    names: Seq<Seq<char>>,
    rd: Readings,
    t: Seq<IfaceInfo>,
    now_ms: u64,
    elapsed_ms: u64,
    n: int,
    k: DeviceCounter,
)
    requires
        k.mac.len() == 6,
        0 <= n < rd.device_stats@.len() ==> rd.device_stats@[n].0@ == k && (forall|j: int|
            n < j < rd.device_stats@.len() ==> (#[trigger] rd.device_stats@[j]).0@ != k),
        !(0 <= n < rd.device_stats@.len()) ==> forall|j: int|
            0 <= j < rd.device_stats@.len() ==> (#[trigger] rd.device_stats@[j]).0@ != k,
    ensures
        ({
            let out = collect::shown(r, names, rd, t, now_ms, elapsed_ms).devices;
            let after = collect::remembered_after(r, names, rd, t, now_ms, elapsed_ms);
            &&& forall|i: int|
                0 <= i < out.len() && (#[trigger] out[i]).online && out[i].ifindex == k.ifindex
                    && out[i].mac == mac::mac_text(k.mac) && 0 <= n < rd.device_stats@.len()
                    ==> table::lookup(after.prev_device_bytes, k) == Some(rd.device_stats@[n].1)
            &&& (forall|i: int|
                0 <= i < out.len() && (#[trigger] out[i]).online ==> out[i].ifindex != k.ifindex
                    || out[i].mac != mac::mac_text(k.mac)) || !(0 <= n < rd.device_stats@.len())
                ==> table::lookup(after.prev_device_bytes, k) == table::lookup(
                r.prev_device_bytes,
                k,
            )
        }),
{
    let out = collect::shown(r, names, rd, t, now_ms, elapsed_ms).devices;
    let h = here(r, names, rd, t, now_ms, elapsed_ms);
    let first = first_seen(r, names, rd, t, now_ms);
    let id = (k.ifindex, k.mac);
    let seen = sorting::views(rd.neighbors@);
    lemma_here(r, names, rd, t, now_ms, elapsed_ms, id);
    lemma_group(r, names, rd, t, now_ms, elapsed_ms, id);
    assert forall|j: int| 0 <= j < seen.len() implies (#[trigger] seen[j]).mac.len() == 6 by {}
    lemma_seen_macs(seen);
    lemma_online_read(near(rd), r.registry, names, rd, t, now_ms, id);
    lemma_counters_after(r.prev_device_bytes, first, rd.device_stats@, elapsed_ms, k);
    assert forall|i: int|
        0 <= i < out.len() && (#[trigger] out[i]).online && out[i].ifindex == id.0 && out[i].mac
            == mac::mac_text(id.1) implies table::lookup(h, id) == Some(out[i]) by {
        lemma_online_entry(r, names, rd, t, now_ms, elapsed_ms, i, id.1);
    }
    if table::has_key(h, id) {
        let p = table::place_of(h, id);
        assert(table::is_place(h, id, p));
        let d = h[p].1;
        let all = listed(r, names, rd, t, now_ms, elapsed_ms);
        assert(all[p] == d);
        lemma_listed(r, names, rd, t, now_ms, elapsed_ms, d);
        let i = choose|i: int| 0 <= i < out.len() && out[i] == d;
        assert(out[i].online);
    }
}

proof fn lemma_index_last(s: Seq<(String, u32)>, name: Seq<char>)
    ensures
        forall|j: int|
            0 <= j < s.len() && (#[trigger] s[j]).0@ == name && (forall|b: int|
                j < b < s.len() ==> (#[trigger] s[b]).0@ != name) ==> collect::index_in(s, name)
                == Some(s[j].1),
        (forall|j: int| 0 <= j < s.len() ==> (#[trigger] s[j]).0@ != name) ==> collect::index_in(
            s,
            name,
        ) is None,
    decreases s.len(),
{
    if s.len() > 0 {
        let h = s.drop_last();
        lemma_index_last(h, name);
        assert forall|j: int|
            0 <= j < s.len() && (#[trigger] s[j]).0@ == name && (forall|b: int|
                j < b < s.len() ==> (#[trigger] s[b]).0@ != name) implies collect::index_in(s, name)
            == Some(s[j].1) by {
            if j < h.len() {
                assert(s[s.len() - 1].0@ != name);
                assert(h[j] == s[j]);
                assert forall|b: int| j < b < h.len() implies (#[trigger] h[b]).0@ != name by {
                    assert(s[b].0@ != name);
                }
            }
        }
        if forall|j: int| 0 <= j < s.len() ==> (#[trigger] s[j]).0@ != name {
            assert(s[s.len() - 1].0@ != name);
            assert forall|j: int| 0 <= j < h.len() implies (#[trigger] h[j]).0@ != name by {
                assert(s[j].0@ != name);
            }
        }
    }
}

/// Whether a shown interface stands at a place of the names that were asked for, and at none before.
pub open spec fn first_named(names: Seq<Seq<char>>, name: Seq<char>, a: int) -> bool {
    &&& 0 <= a < names.len()
    &&& names[a] == name
    &&& forall|b: int| 0 <= b < a ==> #[trigger] names[b] != name
}

/// Each interface that is shown was asked for by its name, and has the index that was read last for
/// that name. Its zone is that of the interface of the topology with its index, `unknown` where there
/// is none.
pub proof fn lemma_iface_shown(
    r: RuntimeView,
    names: Seq<Seq<char>>,
    rd: Readings,
    t: Seq<IfaceInfo>,
    now_ms: u64,
    elapsed_ms: u64,
    i: int,
)
    requires
        0 <= i < collect::shown(r, names, rd, t, now_ms, elapsed_ms).interfaces.len(),
    ensures
        ({
            let x = collect::shown(r, names, rd, t, now_ms, elapsed_ms).interfaces[i];
            &&& exists|a: int| #[trigger] first_named(names, x.ifname, a)
            &&& exists|j: int|
                0 <= j < rd.ifindexes@.len() && (#[trigger] rd.ifindexes@[j]).0@ == x.ifname
            &&& forall|j: int|
                0 <= j < rd.ifindexes@.len() && (#[trigger] rd.ifindexes@[j]).0@ == x.ifname && (
                forall|b: int|
                    j < b < rd.ifindexes@.len() ==> (#[trigger] rd.ifindexes@[b]).0@ != x.ifname)
                    ==> x.ifindex == rd.ifindexes@[j].1
            &&& forall|e: int|
                0 <= e < t.len() && (#[trigger] t[e]).ifindex == x.ifindex && (forall|f: int|
                    0 <= f < e ==> (#[trigger] t[f]).ifindex != x.ifindex) ==> x.zone == t[e].zone
            &&& (forall|e: int| 0 <= e < t.len() ==> (#[trigger] t[e]).ifindex != x.ifindex)
                ==> x.zone == "unknown"@
        }),
    decreases names.len(),
{
    let h = names.drop_last();
    let rest = collect::ifaces_read(r, h, rd, t, elapsed_ms);
    let x = collect::shown(r, names, rd, t, now_ms, elapsed_ms).interfaces[i];
    if names.len() > 0 && i < rest.items.len() {
        assert(collect::shown(r, h, rd, t, now_ms, elapsed_ms).interfaces[i] == x);
        lemma_iface_shown(r, h, rd, t, now_ms, elapsed_ms, i);
        let a = choose|a: int| #[trigger] first_named(h, x.ifname, a);
        assert forall|b: int| 0 <= b < a implies #[trigger] names[b] != x.ifname by {
            assert(h[b] != x.ifname);
        }
        assert(first_named(names, x.ifname, a));
    } else {
        let a = names.len() - 1;
        assert forall|b: int| 0 <= b < a implies #[trigger] names[b] != x.ifname by {
            if names[b] == x.ifname {
                assert(h[b] == x.ifname);
            }
        }
        assert(first_named(names, x.ifname, a));
        lemma_index_in(rd.ifindexes@, x.ifname);
        lemma_index_last(rd.ifindexes@, x.ifname);
        topology::lemma_with_index(t, x.ifindex);
        assert forall|e: int|
            0 <= e < t.len() && (#[trigger] t[e]).ifindex == x.ifindex && (forall|f: int|
                0 <= f < e ==> (#[trigger] t[f]).ifindex != x.ifindex) implies x.zone
            == t[e].zone by {
            topology::lemma_first_index(t, e);
        }
        if forall|e: int| 0 <= e < t.len() ==> (#[trigger] t[e]).ifindex != x.ifindex {
            if let Some(w) = topology::with_index(t, x.ifindex) {
                let e = choose|e: int| 0 <= e < t.len() && t[e] == w;
                assert(t[e].ifindex != x.ifindex);
            }
        }
    }
}

proof fn lemma_item_named(
    r: RuntimeView,
    names: Seq<Seq<char>>,
    rd: Readings,
    t: Seq<IfaceInfo>,
    elapsed_ms: u64,
    i: int,
    a: int,
)
    requires
        0 <= i < collect::ifaces_read(r, names, rd, t, elapsed_ms).items.len(),
        0 <= a < names.len(),
        forall|b: int|
            0 <= b < a ==> #[trigger] names[b] != collect::ifaces_read(
                r,
                names,
                rd,
                t,
                elapsed_ms,
            ).items[i].ifname,
        names[a] == collect::ifaces_read(r, names, rd, t, elapsed_ms).items[i].ifname,
    ensures
        i < collect::ifaces_read(r, names.take(a + 1), rd, t, elapsed_ms).items.len(),
        i >= collect::ifaces_read(r, names.take(a), rd, t, elapsed_ms).items.len(),
    decreases names.len(),
{
    let h = names.drop_last();
    let rest = collect::ifaces_read(r, h, rd, t, elapsed_ms).items;
    let x = collect::ifaces_read(r, names, rd, t, elapsed_ms).items[i];
    if a < h.len() {
        assert(h[a] == x.ifname);
        assert(h.take(a + 1) =~= names.take(a + 1));
        assert(h.take(a) =~= names.take(a));
        assert(i < rest.len());
        assert(rest[i] == x);
        assert forall|b: int| 0 <= b < a implies #[trigger] h[b] != x.ifname by {
            assert(names[b] != x.ifname);
        }
        lemma_item_named(r, h, rd, t, elapsed_ms, i, a);
    } else {
        assert(names.take(a + 1) =~= names);
        assert(names.take(a) =~= h);
        if i < rest.len() {
            assert(rest[i] == x);
            let b = lemma_item_asked(r, h, rd, t, elapsed_ms, i);
            assert(names[b] == x.ifname);
        }
    }
}

proof fn lemma_item_asked(
    r: RuntimeView,
    names: Seq<Seq<char>>,
    rd: Readings,
    t: Seq<IfaceInfo>,
    elapsed_ms: u64,
    i: int,
) -> (b: int)
    requires
        0 <= i < collect::ifaces_read(r, names, rd, t, elapsed_ms).items.len(),
    ensures
        0 <= b < names.len(),
        names[b] == collect::ifaces_read(r, names, rd, t, elapsed_ms).items[i].ifname,
    decreases names.len(),
{
    let h = names.drop_last();
    let rest = collect::ifaces_read(r, h, rd, t, elapsed_ms).items;
    if names.len() > 0 && i < rest.len() {
        assert(collect::ifaces_read(r, names, rd, t, elapsed_ms).items[i] == rest[i]);
        lemma_item_asked(r, h, rd, t, elapsed_ms, i)
    } else {
        names.len() - 1
    }
}

proof fn lemma_items_grow(
    r: RuntimeView,
    names: Seq<Seq<char>>,
    rd: Readings,
    t: Seq<IfaceInfo>,
    elapsed_ms: u64,
    a: int,
)
    requires
        0 <= a <= names.len(),
    ensures
        collect::ifaces_read(r, names.take(a), rd, t, elapsed_ms).items.len()
            <= collect::ifaces_read(r, names, rd, t, elapsed_ms).items.len(),
    decreases names.len(),
{
    if a < names.len() {
        let h = names.drop_last();
        assert(h.take(a) =~= names.take(a));
        lemma_items_grow(r, h, rd, t, elapsed_ms, a);
    } else {
        assert(names.take(a) =~= names);
    }
}

/// Interfaces are shown in the order in which they are asked for, each name once.
pub proof fn lemma_ifaces_in_order(
    r: RuntimeView,
    names: Seq<Seq<char>>,
    rd: Readings,
    t: Seq<IfaceInfo>,
    now_ms: u64,
    elapsed_ms: u64,
    i: int,
    j: int,
    a: int,
    b: int,
)
    requires
        0 <= i < j < collect::shown(r, names, rd, t, now_ms, elapsed_ms).interfaces.len(),
        first_named(
            names,
            collect::shown(r, names, rd, t, now_ms, elapsed_ms).interfaces[i].ifname,
            a,
        ),
        first_named(
            names,
            collect::shown(r, names, rd, t, now_ms, elapsed_ms).interfaces[j].ifname,
            b,
        ),
    ensures
        a < b,
{
    lemma_item_named(r, names, rd, t, elapsed_ms, i, a);
    lemma_item_named(r, names, rd, t, elapsed_ms, j, b);
    if b <= a {
        let upto = names.take(a + 1);
        assert(upto.take(b + 1) =~= names.take(b + 1));
        if b < a {
            let before = names.take(a);
            assert(before.take(b + 1) =~= names.take(b + 1));
            lemma_items_grow(r, before, rd, t, elapsed_ms, b + 1);
        } else {
            assert(upto.drop_last() =~= names.take(a));
        }
    }
}

/// Every interface that is asked for and was read is shown.
pub proof fn lemma_iface_asked_shown(
    r: RuntimeView,
    names: Seq<Seq<char>>,
    rd: Readings,
    t: Seq<IfaceInfo>,
    now_ms: u64,
    elapsed_ms: u64,
    a: int,
    j: int,
)
    requires
        0 <= a < names.len(),
        0 <= j < rd.ifindexes@.len(),
        rd.ifindexes@[j].0@ == names[a],
    ensures
        ({
            let out = collect::shown(r, names, rd, t, now_ms, elapsed_ms).interfaces;
            exists|i: int| 0 <= i < out.len() && (#[trigger] out[i]).ifname == names[a]
        }),
    decreases names.len(),
{
    let h = names.drop_last();
    let out = collect::shown(r, names, rd, t, now_ms, elapsed_ms).interfaces;
    let before = collect::shown(r, h, rd, t, now_ms, elapsed_ms).interfaces;
    lemma_index_in(rd.ifindexes@, names[a]);
    if a < h.len() || h.contains(names[a]) {
        let b = if a < h.len() {
            a
        } else {
            choose|b: int| 0 <= b < h.len() && h[b] == names[a]
        };
        lemma_iface_asked_shown(r, h, rd, t, now_ms, elapsed_ms, b, j);
        let i = choose|i: int| 0 <= i < before.len() && (#[trigger] before[i]).ifname == names[a];
        assert(out[i].ifname == names[a]);
    } else {
        assert(out[before.len() as int].ifname == names[a]);
    }
}

/// Afterwards the counters of the interfaces that are shown are remembered as they were read, so that
/// what they grow by is counted once. Those of other interfaces, and those that were not read, are
/// remembered as they were, and the totals of other interfaces stay.
pub proof fn lemma_iface_counters_after(
    r: RuntimeView,
    names: Seq<Seq<char>>,
    rd: Readings,
    t: Seq<IfaceInfo>,
    now_ms: u64,
    elapsed_ms: u64,
    k: InterfaceTrafficKey,
)
    requires
        table::distinct(rd.iface_stats@),
    ensures
        ({
            let out = collect::shown(r, names, rd, t, now_ms, elapsed_ms).interfaces;
            let after = collect::remembered_after(r, names, rd, t, now_ms, elapsed_ms);
            let read = exists|i: int| 0 <= i < out.len() && (#[trigger] out[i]).ifindex == k.ifindex;
            &&& forall|n: int|
                read && 0 <= n < rd.iface_stats@.len() && (#[trigger] rd.iface_stats@[n]).0 == k
                    ==> table::lookup(after.prev_iface_bytes, k) == Some(rd.iface_stats@[n].1)
            &&& !read || (forall|n: int|
                0 <= n < rd.iface_stats@.len() ==> (#[trigger] rd.iface_stats@[n]).0 != k)
                ==> table::lookup(after.prev_iface_bytes, k) == table::lookup(r.prev_iface_bytes, k)
            &&& !read ==> after.cumulative_iface.get(k.ifindex) == r.cumulative_iface.get(k.ifindex)
        }),
    decreases names.len(),
{
    let out = collect::shown(r, names, rd, t, now_ms, elapsed_ms).interfaces;
    let counted = rd.iface_stats@;
    if names.len() > 0 {
        let h = names.drop_last();
        let before = collect::shown(r, h, rd, t, now_ms, elapsed_ms).interfaces;
        let rest = collect::ifaces_read(r, h, rd, t, elapsed_ms);
        lemma_iface_counters_after(r, h, rd, t, now_ms, elapsed_ms, k);
        assert forall|i: int| 0 <= i < before.len() implies #[trigger] before[i] == out[i] by {}
        if exists|i: int| 0 <= i < before.len() && (#[trigger] before[i]).ifindex == k.ifindex {
            let i = choose|i: int| 0 <= i < before.len() && (#[trigger] before[i]).ifindex
                == k.ifindex;
            assert(out[i].ifindex == k.ifindex);
        }
        if out.len() > before.len() {
            let y = out[before.len() as int];
            collect::lemma_iface_read_lookup(rest.prev, counted, y.ifindex, elapsed_ms, k);
            assert(out[before.len() as int].ifindex == y.ifindex);
        }
        if exists|i: int| 0 <= i < out.len() && (#[trigger] out[i]).ifindex == k.ifindex {
            let i = choose|i: int| 0 <= i < out.len() && (#[trigger] out[i]).ifindex == k.ifindex;
            if i < before.len() {
                assert(before[i].ifindex == k.ifindex);
            }
        }
        assert forall|n: int| 0 <= n < counted.len() && (#[trigger] counted[n]).0 == k implies
            table::lookup(counted, k) == Some(counted[n].1) by {
            table::lemma_lookup_at(counted, n);
        }
        if forall|n: int| 0 <= n < counted.len() ==> (#[trigger] counted[n]).0 != k {
            if table::has_key(counted, k) {
                let n = table::place_of(counted, k);
                assert(table::is_place(counted, k, n));
                assert(counted[n].0 != k);
            }
        }
    }
}

spec fn is_shown_as(id: (u32, Seq<u8>)) -> spec_fn(DeviceView) -> bool {
    |d: DeviceView| d.ifindex == id.0 && d.mac == mac::mac_text(id.1)
}

proof fn lemma_offline_once(
    registry: Seq<((u32, Seq<u8>), KnownView)>,
    totals: Seq<((u32, Seq<u8>), CounterQuad)>,
    group: Seq<((u32, Seq<u8>), DeviceView)>,
    names: Seq<Seq<char>>,
    t: Seq<IfaceInfo>,
    id: (u32, Seq<u8>),
)
    requires
        table::distinct(registry),
        id.1.len() == 6,
        forall|n: int|
            0 <= n < registry.len() && !table::has_key(group, (#[trigger] registry[n]).0)
                ==> registry[n].1.ifindex == registry[n].0.0 && registry[n].1.mac
                == registry[n].0.1 && registry[n].0.1.len() == 6,
    ensures
        lists::picked(
            collect::devices_offline(registry, totals, group, names, t),
            is_shown_as(id),
        ).len() <= (if table::has_key(registry, id) && !table::has_key(group, id) {
            1int
        } else {
            0
        }),
    decreases registry.len(),
{
    if registry.len() > 0 {
        let h = registry.drop_last();
        let (k, d) = registry[registry.len() - 1];
        assert forall|n: int|
            0 <= n < h.len() && !table::has_key(group, (#[trigger] h[n]).0) implies h[n].1.ifindex
            == h[n].0.0 && h[n].1.mac == h[n].0.1 && h[n].0.1.len() == 6 by {
            assert(registry[n] == h[n]);
        }
        lemma_offline_once(h, totals, group, names, t, id);
        let rest = collect::devices_offline(h, totals, group, names, t);
        table::lemma_lookup_last(registry, id);
        if !(table::has_key(group, k) || !collect::is_watched(d, names, t)) {
            let x = collect::devices_offline(registry, totals, group, names, t).last();
            lists::lemma_picked_push(rest, x, is_shown_as(id));
            mac::lemma_mac_round_trip(id.1);
            mac::lemma_mac_round_trip(k.1);
            if is_shown_as(id)(x) {
                assert(k == id);
                if table::has_key(h, id) {
                    let p = table::place_of(h, id);
                    assert(table::is_place(h, id, p));
                    assert(registry[p].0 != registry[registry.len() - 1].0);
                }
            }
        }
    }
}

/// No device is shown twice.
pub proof fn lemma_devices_once(
    r: RuntimeView,
    names: Seq<Seq<char>>,
    rd: Readings,
    t: Seq<IfaceInfo>,
    now_ms: u64,
    elapsed_ms: u64,
    id: (u32, Seq<u8>),
)
    requires
        table::distinct(r.registry),
        known_alike(r.registry),
        id.1.len() == 6,
    ensures
        lists::picked(
            collect::shown(r, names, rd, t, now_ms, elapsed_ms).devices,
            |d: DeviceView| d.ifindex == id.0 && d.mac == mac::mac_text(id.1),
        ).len() <= 1,
{
    let out = collect::shown(r, names, rd, t, now_ms, elapsed_ms).devices;
    let h = here(r, names, rd, t, now_ms, elapsed_ms);
    let all = listed(r, names, rd, t, now_ms, elapsed_ms);
    let after = collect::remembered_after(r, names, rd, t, now_ms, elapsed_ms);
    let p = is_shown_as(id);
    assert(p =~= (|d: DeviceView| d.ifindex == id.0 && d.mac == mac::mac_text(id.1)));
    sorting::lemma_sorted::<DeviceListItem>(all);
    lists::lemma_picked_reordered(out, all, p);
    lists::picked(out, p).to_multiset_ensures();
    lists::picked(all, p).to_multiset_ensures();
    let v = collect::values_of(h);
    lists::lemma_picked_add(v, gone(r, names, rd, t, now_ms, elapsed_ms), p);
    lemma_here(r, names, rd, t, now_ms, elapsed_ms, id);
    assert forall|a: int| 0 <= a < v.len() && p(#[trigger] v[a]) implies h[a].0 == id by {
        let k = h[a].0;
        lemma_here(r, names, rd, t, now_ms, elapsed_ms, k);
        lemma_group(r, names, rd, t, now_ms, elapsed_ms, k);
        table::lemma_lookup_at(h, a);
        mac::lemma_mac_round_trip(id.1);
        mac::lemma_mac_round_trip(k.1);
    }
    assert forall|a: int, b: int| 0 <= a < b < v.len() && p(#[trigger] v[a]) implies !p(
        #[trigger] v[b],
    ) by {
        assert(h[a].0 != h[b].0);
    }
    lists::lemma_at_most_one(v, p);
    if !table::has_key(h, id) {
        assert forall|a: int| 0 <= a < v.len() implies !p(#[trigger] v[a]) by {
            if p(v[a]) {
                table::lemma_has_key(h, id, a);
            }
        }
        lists::lemma_picked_none(v, p);
    }
    lemma_registered_distinct(r.registry, h, now_ms);
    assert forall|n: int|
        0 <= n < after.registry.len() && !table::has_key(
            h,
            (#[trigger] after.registry[n]).0,
        ) implies after.registry[n].1.ifindex == after.registry[n].0.0 && after.registry[n].1.mac
        == after.registry[n].0.1 && after.registry[n].0.1.len() == 6 by {
        lemma_registered_place(r.registry, h, now_ms, n);
        assert(r.registry[n].1.ifindex == r.registry[n].0.0);
    }
    lemma_offline_once(after.registry, after.cumulative_device, h, names, t, id);
}

proof fn lemma_registered_distinct(
    registry: Seq<((u32, Seq<u8>), KnownView)>,
    group: Seq<((u32, Seq<u8>), DeviceView)>,
    now_ms: u64,
)
    requires
        table::distinct(registry),
    ensures
        table::distinct(collect::registered(registry, group, now_ms)),
    decreases group.len(),
{
    if group.len() > 0 {
        lemma_registered_distinct(registry, group.drop_last(), now_ms);
        let (k, d) = group.last();
        table::lemma_assigned_distinct(
            collect::registered(registry, group.drop_last(), now_ms),
            k,
            collect::remembered(k, d, now_ms),
        );
    }
}

/// Devices are shown in the order of their interfaces, those of one interface in that of their IPv4
/// addresses, and those that share them in that of their IPv6 addresses.
pub proof fn lemma_devices_in_order(
    r: RuntimeView,
    names: Seq<Seq<char>>,
    rd: Readings,
    t: Seq<IfaceInfo>,
    now_ms: u64,
    elapsed_ms: u64,
    i: int,
    j: int,
)
    requires
        0 <= i < j < collect::shown(r, names, rd, t, now_ms, elapsed_ms).devices.len(),
    ensures
        ({
            let a = collect::shown(r, names, rd, t, now_ms, elapsed_ms).devices[i];
            let b = collect::shown(r, names, rd, t, now_ms, elapsed_ms).devices[j];
            &&& text::text_rank(a.logical_iface, b.logical_iface) <= 0
            &&& a.logical_iface == b.logical_iface ==> text::list_rank(a.ipv4, b.ipv4) <= 0
            &&& a.logical_iface == b.logical_iface && a.ipv4 == b.ipv4 ==> text::list_rank(
                a.ipv6,
                b.ipv6,
            ) <= 0
        }),
{
    let out = collect::shown(r, names, rd, t, now_ms, elapsed_ms).devices;
    sorting::lemma_sorted::<DeviceListItem>(listed(r, names, rd, t, now_ms, elapsed_ms));
    assert(<DeviceListItem as sorting::Ranked>::rank(out[i], out[j]) <= 0);
    text::lemma_text_rank(out[i].logical_iface, out[j].logical_iface);
    text::lemma_list_rank(out[i].ipv4, out[j].ipv4);
}

/// A reachable neighbour is surer than a stale one, that one than a delayed one, that one than one
/// that is probed for, and that one than any other; between equally sure states the first stays.
pub proof fn lemma_states_ranked(s: Seq<char>)
    ensures
        s.len() > 0 ==> collect::best_state(s, "REACHABLE"@) == "REACHABLE"@,
        collect::best_state("REACHABLE"@, s) == "REACHABLE"@,
        s != "REACHABLE"@ ==> collect::best_state("STALE"@, s) == "STALE"@,
        s != "REACHABLE"@ ==> collect::best_state(s, "STALE"@) == "STALE"@,
        s != "REACHABLE"@ && s != "STALE"@ ==> collect::best_state("DELAY"@, s) == "DELAY"@
            && collect::best_state(s, "DELAY"@) == "DELAY"@,
        s != "REACHABLE"@ && s != "STALE"@ && s != "DELAY"@ ==> collect::best_state("PROBE"@, s)
            == "PROBE"@ && collect::best_state(s, "PROBE"@) == "PROBE"@,
        collect::best_state(Seq::empty(), s) == s,
        forall|u: Seq<char>|
            s.len() > 0 && s != "REACHABLE"@ && s != "STALE"@ && s != "DELAY"@ && s != "PROBE"@ && u
                != "REACHABLE"@ && u != "STALE"@ && u != "DELAY"@ && u != "PROBE"@
                ==> #[trigger] collect::best_state(s, u) == s,
{
    reveal_strlit("REACHABLE");
    reveal_strlit("STALE");
    reveal_strlit("DELAY");
    reveal_strlit("PROBE");
    assert("STALE"@[0] == 'S' && "DELAY"@[0] == 'D' && "PROBE"@[0] == 'P' && "REACHABLE"@[0]
        == 'R');
}

/// A reading covers the time since the one before: after readings at two times, the second covers
/// what lies between them, and one that goes back in time, or comes at the same time, covers a
/// millisecond. The first one covers the interval, but no less than a second.
pub proof fn lemma_time_covered(last_ms: u64, now_ms: u64, interval_ms: u64)
    ensures
        now_ms > last_ms ==> last_ms + collect::covered_ms(Some(last_ms), now_ms, interval_ms)
            == now_ms,
        now_ms <= last_ms ==> collect::covered_ms(Some(last_ms), now_ms, interval_ms) == 1,
        interval_ms >= 1000 ==> collect::covered_ms(None, now_ms, interval_ms) == interval_ms,
        interval_ms <= 1000 ==> collect::covered_ms(None, now_ms, interval_ms) == 1000,
{
}
} // verus!
