//! From counters and neighbours to a snapshot.

use std::collections::HashMap;

use vstd::prelude::*;

use crate::counters;
use crate::counters::CounterQuad;
use crate::lists;
use crate::mac;
use crate::runtime;
use crate::runtime::DeviceCounter;
use crate::runtime::DeviceTrafficKey;
use crate::runtime::InterfaceTrafficKey;
use crate::runtime::KnownDevice;
use crate::runtime::KnownView;
use crate::runtime::MonitorRuntime;
use crate::runtime::RuntimeView;
use crate::snapshot::DeviceListItem;
use crate::snapshot::DeviceView;
use crate::snapshot::InterfaceOverviewItem;
use crate::snapshot::InterfaceView;
use crate::snapshot::SnapshotData;
use crate::snapshot::SnapshotView;
use crate::sorting;
use crate::sorting::Ranked;
use crate::stats;
use crate::table;
use crate::table::Table;
use crate::table::TableKey;
use crate::text;
use crate::topology;
use crate::topology::IfaceInfo;
use crate::topology::Interface;
use crate::topology::TopologySnapshot;

verus! {

/// The mark of a counter of IPv4 traffic.
pub const IP_V4: u8 = 4;

/// The mark of a counter of IPv6 traffic.
pub const IP_V6: u8 = 6;

/// The mark of a counter of what comes into the machine: what its devices send up.
pub const INGRESS: u8 = 0;

/// The mark of a counter of what leaves the machine: what its devices get down.
pub const EGRESS: u8 = 1;

/// The milliseconds that a reading covers: those since the one before, at least one; for the first
/// reading those of the interval, at least a second.
pub open spec fn covered_ms(last_snapshot_ms: Option<u64>, now_ms: u64, interval_ms: u64) -> u64 {
    match last_snapshot_ms {
        Some(last) => if now_ms > last {
            (now_ms - last) as u64
        } else {
            1
        },
        None => if interval_ms > 1000 {
            interval_ms
        } else {
            1000
        },
    }
}

/// The bits per second of some bytes, rounded to the nearest whole number, halves upwards.
pub open spec fn bit_rate(bytes: u64, elapsed_ms: u64) -> u64 {
    stats::capped(stats::rounded_ratio((bytes * 8000) as nat, elapsed_ms as nat))
}

/// A quad with some bytes added to the counter of one family and direction, and their rate to its
/// rate; any other marks change nothing.
pub open spec fn filled(
    ip_version: u8,
    direction: u8,
    q: CounterQuad,
    bytes: u64,
    elapsed_ms: u64,
) -> CounterQuad {
    let rate = bit_rate(bytes, elapsed_ms);
    if ip_version == IP_V4 && direction == INGRESS {
        CounterQuad {
            up_v4_bps: stats::capped((q.up_v4_bps + rate) as nat),
            up_v4_bytes: stats::capped((q.up_v4_bytes + bytes) as nat),
            ..q
        }
    } else if ip_version == IP_V4 && direction == EGRESS {
        CounterQuad {
            down_v4_bps: stats::capped((q.down_v4_bps + rate) as nat),
            down_v4_bytes: stats::capped((q.down_v4_bytes + bytes) as nat),
            ..q
        }
    } else if ip_version == IP_V6 && direction == INGRESS {
        CounterQuad {
            up_v6_bps: stats::capped((q.up_v6_bps + rate) as nat),
            up_v6_bytes: stats::capped((q.up_v6_bytes + bytes) as nat),
            ..q
        }
    } else if ip_version == IP_V6 && direction == EGRESS {
        CounterQuad {
            down_v6_bps: stats::capped((q.down_v6_bps + rate) as nat),
            down_v6_bytes: stats::capped((q.down_v6_bytes + bytes) as nat),
            ..q
        }
    } else {
        q
    }
}

/// The bits per second of some bytes.
pub fn rate_of(bytes: u64, elapsed_ms: u64) -> (r: u64)
    requires
        elapsed_ms > 0,
    ensures
        r == bit_rate(bytes, elapsed_ms),
{
    let bits: u128 = bytes as u128 * 8000;
    let ms: u128 = elapsed_ms as u128;
    let whole: u128 = bits / ms;
    let rest: u128 = bits % ms;
    proof {
        assert(whole <= bits) by (nonlinear_arith)
            requires
                whole == bits / ms,
                ms > 0,
        ;
    }
    let rounded: u128 = if 2 * rest >= ms {
        whole + 1
    } else {
        whole
    };
    if rounded > u64::MAX as u128 {
        u64::MAX
    } else {
        rounded as u64
    }
}

/// Adds some bytes to the counter of one family and direction, and their rate to its rate.
pub fn fill_quad(
    ip_version: u8,
    direction: u8,
    quad: &mut CounterQuad,
    delta_bytes: u64,
    elapsed_ms: u64,
)
    requires
        elapsed_ms > 0,
    ensures
        *final(quad) == filled(ip_version, direction, *old(quad), delta_bytes, elapsed_ms),
{
    let rate: u64 = rate_of(delta_bytes, elapsed_ms);
    if ip_version == IP_V4 && direction == INGRESS {
        quad.up_v4_bps = stats::add_capped(quad.up_v4_bps, rate);
        quad.up_v4_bytes = stats::add_capped(quad.up_v4_bytes, delta_bytes);
    } else if ip_version == IP_V4 && direction == EGRESS {
        quad.down_v4_bps = stats::add_capped(quad.down_v4_bps, rate);
        quad.down_v4_bytes = stats::add_capped(quad.down_v4_bytes, delta_bytes);
    } else if ip_version == IP_V6 && direction == INGRESS {
        quad.up_v6_bps = stats::add_capped(quad.up_v6_bps, rate);
        quad.up_v6_bytes = stats::add_capped(quad.up_v6_bytes, delta_bytes);
    } else if ip_version == IP_V6 && direction == EGRESS {
        quad.down_v6_bps = stats::add_capped(quad.down_v6_bps, rate);
        quad.down_v6_bytes = stats::add_capped(quad.down_v6_bytes, delta_bytes);
    }
}

/// How sure a neighbour state is of the neighbour.
pub open spec fn state_rank(s: Seq<char>) -> int {
    if s == "REACHABLE"@ {
        4
    } else if s == "STALE"@ {
        3
    } else if s == "DELAY"@ {
        2
    } else if s == "PROBE"@ {
        1
    } else {
        0
    }
}

/// The surer of two neighbour states, the first where they are equally sure. An empty first state
/// always gives way.
pub open spec fn best_state(a: Seq<char>, b: Seq<char>) -> Seq<char> {
    if a.len() == 0 || state_rank(b) > state_rank(a) {
        b
    } else {
        a
    }
}

fn rank_state(s: &str) -> (r: u8)
    ensures
        r == state_rank(s@),
{
    if text::same_text(s, "REACHABLE") {
        4
    } else if text::same_text(s, "STALE") {
        3
    } else if text::same_text(s, "DELAY") {
        2
    } else if text::same_text(s, "PROBE") {
        1
    } else {
        0
    }
}

/// The surer of two neighbour states, the first where they are equally sure. An empty first state
/// always gives way.
pub fn pick_best_neighbor_state(a: &str, b: &str) -> (r: String)
    ensures
        r@ == best_state(a@, b@),
{
    if a.is_empty() || rank_state(b) > rank_state(a) {
        b.to_owned()
    } else {
        a.to_owned()
    }
}

/// The surer of two states is one of them, and neither is surer than it; an empty first state does
/// not count.
pub proof fn lemma_best_state(a: Seq<char>, b: Seq<char>)
    ensures
        state_rank(best_state(a, b)) >= state_rank(b),
        a.len() > 0 ==> state_rank(best_state(a, b)) >= state_rank(a),
        best_state(a, b) == a || best_state(a, b) == b,
{
}

/// A neighbour of the machine.
#[derive(Debug)]
pub struct Neighbor {
    pub dev: String,
    pub mac: [u8; 6],
    pub ip: String,
    pub state: String,
}

/// A neighbour of the machine, with texts as characters.
#[verifier::ext_equal]
pub struct NeighborView {
    pub dev: Seq<char>,
    pub mac: Seq<u8>,
    pub ip: Seq<char>,
    pub state: Seq<char>,
}

impl View for Neighbor {
    type V = NeighborView;

    open spec fn view(&self) -> NeighborView {
        NeighborView { dev: self.dev@, mac: self.mac@, ip: self.ip@, state: self.state@ }
    }
}

/// What is read from the machine for one snapshot.
#[derive(Debug)]
pub struct Readings {
    /// The counters of interfaces, each once.
    pub iface_stats: Vec<(InterfaceTrafficKey, u64)>,
    /// The counters of devices, each once.
    pub device_stats: Vec<(DeviceTrafficKey, u64)>,
    /// The names of interfaces with their indexes.
    pub ifindexes: Vec<(String, u32)>,
    pub neighbors: Vec<Neighbor>,
    pub hostnames: Vec<([u8; 6], String)>,
}

/// The index that was read for a name.
pub open spec fn index_in(s: Seq<(String, u32)>, name: Seq<char>) -> Option<u32>
    decreases s.len(),
{
    if s.len() == 0 {
        None
    } else if s.last().0@ == name {
        Some(s.last().1)
    } else {
        index_in(s.drop_last(), name)
    }
}

/// The host name that was read for an address.
pub open spec fn host_in(s: Seq<([u8; 6], String)>, m: Seq<u8>) -> Option<Seq<char>>
    decreases s.len(),
{
    if s.len() == 0 {
        None
    } else if s.last().0@ == m {
        Some(s.last().1@)
    } else {
        host_in(s.drop_last(), m)
    }
}

fn find_index(v: &Vec<(String, u32)>, name: &str) -> (r: Option<u32>)
    ensures
        r == index_in(v@, name@),
{
    let mut i: usize = v.len();
    assert(v@.take(v@.len() as int) =~= v@);
    while i > 0
        invariant
            i <= v@.len(),
            index_in(v@, name@) == index_in(v@.take(i as int), name@),
        decreases i,
    {
        i = i - 1;
        assert(v@.take(i + 1).drop_last() =~= v@.take(i as int));
        if text::same_text(v[i].0.as_str(), name) {
            return Some(v[i].1);
        }
    }
    None
}

fn find_host(v: &Vec<([u8; 6], String)>, m: &[u8; 6]) -> (r: Option<String>)
    ensures
        match r {
            Some(h) => host_in(v@, m@) == Some(h@),
            None => host_in(v@, m@) is None,
        },
{
    let mut i: usize = v.len();
    assert(v@.take(v@.len() as int) =~= v@);
    while i > 0
        invariant
            i <= v@.len(),
            host_in(v@, m@) == host_in(v@.take(i as int), m@),
        decreases i,
    {
        i = i - 1;
        assert(v@.take(i + 1).drop_last() =~= v@.take(i as int));
        let a = (0u32, v[i].0);
        let b = (0u32, *m);
        if a.same(&b) {
            return Some(v[i].1.clone());
        }
    }
    None
}

/// The counters of one interface read against what they were: what they are now, and what grew.
pub open spec fn iface_read(
    prev: Seq<(InterfaceTrafficKey, u64)>,
    counted: Seq<(InterfaceTrafficKey, u64)>,
    ifindex: u32,
    elapsed_ms: u64,
) -> (Seq<(InterfaceTrafficKey, u64)>, CounterQuad)
    decreases counted.len(),
{
    if counted.len() == 0 {
        (prev, counters::zero_quad())
    } else {
        let (p, q) = iface_read(prev, counted.drop_last(), ifindex, elapsed_ms);
        let (k, bytes) = counted.last();
        if k.ifindex != ifindex {
            (p, q)
        } else {
            (
                table::assigned(p, k, bytes),
                filled(
                    k.ip_version,
                    k.direction,
                    q,
                    counters::growth(bytes, table::lookup_or(p, k, 0)),
                    elapsed_ms,
                ),
            )
        }
    }
}

fn read_iface(
    prev: &mut Table<InterfaceTrafficKey, u64>,
    counted: &Vec<(InterfaceTrafficKey, u64)>,
    ifindex: u32,
    elapsed_ms: u64,
) -> (r: CounterQuad)
    requires
        elapsed_ms > 0,
    ensures
        final(prev)@ == iface_read(old(prev)@, counted@, ifindex, elapsed_ms).0,
        r == iface_read(old(prev)@, counted@, ifindex, elapsed_ms).1,
        old(prev).wf() ==> final(prev).wf(),
{
    let ghost first = prev@;
    let ghost was = prev.wf();
    let mut q = CounterQuad::default();
    assert(counted@.take(0) =~= Seq::<(InterfaceTrafficKey, u64)>::empty());
    for i in 0..counted.len()
        invariant
            elapsed_ms > 0,
            prev@ == iface_read(first, counted@.take(i as int), ifindex, elapsed_ms).0,
            q == iface_read(first, counted@.take(i as int), ifindex, elapsed_ms).1,
            was ==> prev.wf(),
    {
        assert(counted@.take(i + 1).drop_last() =~= counted@.take(i as int));
        let (k, bytes) = counted[i];
        if k.ifindex == ifindex {
            let last: u64 = match prev.get(&k) {
                Some(b) => *b,
                None => 0,
            };
            let delta: u64 = counters::delta_bytes(bytes, last);
            prev.insert(k, bytes);
            fill_quad(k.ip_version, k.direction, &mut q, delta, elapsed_ms);
        }
    }
    assert(counted@.take(counted@.len() as int) =~= counted@);
    q
}

/// The zone of an interface, `unknown` where the interface is.
pub open spec fn zone_of(t: Seq<IfaceInfo>, ifindex: u32) -> Seq<char> {
    match topology::with_index(t, ifindex) {
        Some(x) => x.zone,
        None => "unknown"@,
    }
}

/// What has been read of the interfaces.
#[verifier::ext_equal]
pub struct IfacesRead {
    pub prev: Seq<(InterfaceTrafficKey, u64)>,
    pub cumulative: Map<u32, CounterQuad>,
    pub items: Seq<InterfaceView>,
}

/// The watched interfaces read one after another, each name once, names without an index left out.
pub open spec fn ifaces_read(
    r: RuntimeView,
    names: Seq<Seq<char>>,
    rd: Readings,
    t: Seq<IfaceInfo>,
    elapsed_ms: u64,
) -> IfacesRead
    decreases names.len(),
{
    if names.len() == 0 {
        IfacesRead {
            prev: r.prev_iface_bytes,
            cumulative: r.cumulative_iface,
            items: Seq::empty(),
        }
    } else {
        let rest = ifaces_read(r, names.drop_last(), rd, t, elapsed_ms);
        let name = names.last();
        match index_in(rd.ifindexes@, name) {
            Some(ifindex) if !names.drop_last().contains(name) => {
                let (prev, metrics) = iface_read(
                    rest.prev,
                    rd.iface_stats@,
                    ifindex,
                    elapsed_ms,
                );
                let cumulative = counters::quad_sum(
                    counters::quad_under(rest.cumulative, ifindex),
                    metrics,
                );
                IfacesRead {
                    prev,
                    cumulative: rest.cumulative.insert(ifindex, cumulative),
                    items: rest.items.push(
                        InterfaceView {
                            ifindex,
                            ifname: name,
                            zone: zone_of(t, ifindex),
                            metrics,
                            cumulative,
                        },
                    ),
                }
            },
            _ => rest,
        }
    }
}

/// Adds what grew to the total of an interface, and gives back the total.
fn add_iface_total(t: &mut HashMap<u32, CounterQuad>, ifindex: u32, metrics: &CounterQuad) -> (r:
    CounterQuad)
    ensures
        r == counters::quad_sum(counters::quad_under(old(t)@, ifindex), *metrics),
        final(t)@ == old(t)@.insert(ifindex, r),
{
    broadcast use vstd::std_specs::hash::group_hash_axioms;

    let mut sum = counters::get_quad(t, ifindex);
    counters::add_quad(&mut sum, metrics);
    t.insert(ifindex, sum);
    sum
}

/// Adds what grew to the total under a key, and gives back the total.
fn add_total<K: TableKey>(t: &mut Table<K, CounterQuad>, k: K, metrics: &CounterQuad) -> (r:
    CounterQuad)
    ensures
        r == counters::quad_sum(table::lookup_or(old(t)@, k@, counters::zero_quad()), *metrics),
        final(t)@ == table::assigned(old(t)@, k@, r),
        old(t).wf() ==> final(t).wf(),
{
    let mut sum = match t.get(&k) {
        Some(q) => *q,
        None => CounterQuad::default(),
    };
    counters::add_quad(&mut sum, metrics);
    t.insert(k, sum);
    sum
}

fn read_ifaces(
    runtime: &mut MonitorRuntime,
    names: &Vec<String>,
    rd: &Readings,
    topology: &TopologySnapshot,
    elapsed_ms: u64,
) -> (r: Vec<InterfaceOverviewItem>)
    requires
        elapsed_ms > 0,
    ensures
        ({
            let done = ifaces_read(
                old(runtime)@,
                lists::texts(names@),
                *rd,
                topology@,
                elapsed_ms,
            );
            &&& final(runtime)@ == (RuntimeView {
                prev_iface_bytes: done.prev,
                cumulative_iface: done.cumulative,
                ..old(runtime)@
            })
            &&& sorting::views(r@) == done.items
        }),
        old(runtime).wf() ==> final(runtime).wf(),
{
    let ghost first = runtime@;
    let ghost was = runtime.wf();
    let ghost all = lists::texts(names@);
    let mut r: Vec<InterfaceOverviewItem> = Vec::new();
    assert(all.take(0) =~= Seq::<Seq<char>>::empty());
    assert(sorting::views(r@) =~= Seq::<InterfaceView>::empty());
    let mut seen: Vec<String> = Vec::new();
    assert(lists::texts(seen@) =~= all.take(0));
    for i in 0..names.len()
        invariant
            elapsed_ms > 0,
            all == lists::texts(names@),
            lists::texts(seen@) == all.take(i as int),
            runtime@ == (RuntimeView {
                prev_iface_bytes: ifaces_read(
                    first,
                    all.take(i as int),
                    *rd,
                    topology@,
                    elapsed_ms,
                ).prev,
                cumulative_iface: ifaces_read(
                    first,
                    all.take(i as int),
                    *rd,
                    topology@,
                    elapsed_ms,
                ).cumulative,
                ..first
            }),
            sorting::views(r@) == ifaces_read(
                first,
                all.take(i as int),
                *rd,
                topology@,
                elapsed_ms,
            ).items,
            was ==> runtime.wf(),
    {
        let name = &names[i];
        assert(all.take(i + 1).drop_last() =~= all.take(i as int));
        assert(all.take(i + 1).last() == name@);
        let again = lists::holds_text(&seen, name.as_str());
        if !again {
            if let Some(ifindex) = find_index(&rd.ifindexes, name.as_str()) {
                let metrics = read_iface(
                    &mut runtime.prev_iface_bytes,
                    &rd.iface_stats,
                    ifindex,
                    elapsed_ms,
                );
                let zone = match topology.by_ifindex(ifindex) {
                    Some(x) => x.zone_name().to_owned(),
                    None => "unknown".to_owned(),
                };
                let cumulative = add_iface_total(&mut runtime.cumulative_iface, ifindex, &metrics);
                let ghost before = sorting::views(r@);
                let item = InterfaceOverviewItem {
                    ifindex,
                    ifname: name.clone(),
                    zone,
                    metrics,
                    cumulative,
                };
                r.push(item);
                assert(sorting::views(r@) =~= before.push(item@));
            }
        }
        let ghost before = lists::texts(seen@);
        seen.push(name.clone());
        assert(lists::texts(seen@) =~= before.push(name@));
        assert(all.take(i + 1) =~= all.take(i as int).push(name@));
    }
    assert(all.take(all.len() as int) =~= all);
    r
}

/// A neighbour by the device that it was seen on and its address.
#[derive(Debug)]
pub struct NeighborKey {
    pub dev: String,
    pub mac: [u8; 6],
}

impl View for NeighborKey {
    type V = (Seq<char>, Seq<u8>);

    open spec fn view(&self) -> (Seq<char>, Seq<u8>) {
        (self.dev@, self.mac@)
    }
}

impl TableKey for NeighborKey {
    fn same(&self, other: &NeighborKey) -> (r: bool) {
        self.dev == other.dev && (0u32, self.mac).same(&(0u32, other.mac))
    }

    fn copied(&self) -> (r: NeighborKey) {
        NeighborKey { dev: self.dev.clone(), mac: self.mac }
    }
}

/// The addresses of one neighbour, and the surest of its states.
#[derive(Debug)]
pub struct Addresses {
    pub ipv4: Vec<String>,
    pub ipv6: Vec<String>,
    pub state: String,
}

/// The addresses of one neighbour, with texts as characters.
#[verifier::ext_equal]
pub struct AddressesView {
    pub ipv4: Seq<Seq<char>>,
    pub ipv6: Seq<Seq<char>>,
    pub state: Seq<char>,
}

impl View for Addresses {
    type V = AddressesView;

    open spec fn view(&self) -> AddressesView {
        AddressesView {
            ipv4: lists::texts(self.ipv4@),
            ipv6: lists::texts(self.ipv6@),
            state: self.state@,
        }
    }
}

/// A list with a text that it may hold already.
pub open spec fn with_text(s: Seq<Seq<char>>, x: Seq<char>) -> Seq<Seq<char>> {
    if s.contains(x) {
        s
    } else {
        s.push(x)
    }
}

/// The addresses of a neighbour after one more sighting. An address with a colon is an IPv6 one.
pub open spec fn sighted(a: AddressesView, n: NeighborView) -> AddressesView {
    let state = best_state(a.state, n.state);
    if n.ip.contains(':') {
        AddressesView { ipv6: with_text(a.ipv6, n.ip), state, ..a }
    } else {
        AddressesView { ipv4: with_text(a.ipv4, n.ip), state, ..a }
    }
}

/// The addresses of a neighbour that has not been sighted.
pub open spec fn no_addresses() -> AddressesView {
    AddressesView { ipv4: Seq::empty(), ipv6: Seq::empty(), state: Seq::empty() }
}

/// The sightings gathered by neighbour.
pub open spec fn gathered(s: Seq<NeighborView>) -> Seq<((Seq<char>, Seq<u8>), AddressesView)>
    decreases s.len(),
{
    if s.len() == 0 {
        Seq::empty()
    } else {
        let rest = gathered(s.drop_last());
        let n = s.last();
        let k = (n.dev, n.mac);
        table::assigned(rest, k, sighted(table::lookup_or(rest, k, no_addresses()), n))
    }
}

fn has_colon(s: &str) -> (r: bool)
    ensures
        r == s@.contains(':'),
{
    let v = text::chars_of(s);
    for i in 0..v.len()
        invariant
            v@ == s@,
            forall|j: int| 0 <= j < i ==> v@[j] != ':',
    {
        if v[i] == ':' {
            return true;
        }
    }
    false
}

fn add_text(v: &mut Vec<String>, x: &String)
    ensures
        lists::texts(final(v)@) == with_text(lists::texts(old(v)@), x@),
{
    if !lists::holds_text(v, x.as_str()) {
        let ghost before = lists::texts(v@);
        v.push(x.clone());
        assert(lists::texts(v@) =~= before.push(x@));
    }
}

fn add_sighting(a: &mut Addresses, n: &Neighbor)
    ensures
        final(a)@ == sighted(old(a)@, n@),
{
    if has_colon(n.ip.as_str()) {
        add_text(&mut a.ipv6, &n.ip);
    } else {
        add_text(&mut a.ipv4, &n.ip);
    }
    a.state = pick_best_neighbor_state(a.state.as_str(), n.state.as_str());
}

fn gather(neighbors: &Vec<Neighbor>) -> (r: Table<NeighborKey, Addresses>)
    ensures
        r@ == gathered(sorting::views(neighbors@)),
        r.wf(),
{
    let ghost all = sorting::views(neighbors@);
    let mut r: Table<NeighborKey, Addresses> = Table::new();
    assert(all.take(0) =~= Seq::<NeighborView>::empty());
    for i in 0..neighbors.len()
        invariant
            all == sorting::views(neighbors@),
            r@ == gathered(all.take(i as int)),
            r.wf(),
    {
        let n = &neighbors[i];
        assert(all.take(i + 1).drop_last() =~= all.take(i as int));
        assert(all.take(i + 1).last() == n@);
        let k = NeighborKey { dev: n.dev.clone(), mac: n.mac };
        proof {
            table::lemma_assigned_distinct(
                r@,
                k@,
                sighted(table::lookup_or(r@, k@, no_addresses()), n@),
            );
        }
        match r.find(&k) {
            Some(p) => {
                let a = r.value_at_mut(p);
                add_sighting(a, n);
            },
            None => {
                let mut a = Addresses {
                    ipv4: Vec::new(),
                    ipv6: Vec::new(),
                    state: String::new(),
                };
                assert(a@ =~= no_addresses());
                add_sighting(&mut a, n);
                r.insert(k, a);
            },
        }
    }
    assert(all.take(all.len() as int) =~= all);
    r
}

/// The first of some ranges that an address lies in.
pub open spec fn range_of(cidrs: Seq<Seq<char>>, ip: Seq<char>) -> Option<Seq<char>>
    decreases cidrs.len(),
{
    if cidrs.len() == 0 {
        None
    } else if topology::in_cidr(ip, cidrs[0]) {
        Some(cidrs[0])
    } else {
        range_of(cidrs.drop_first(), ip)
    }
}

/// The subnet of a device: the range of the interface that its address lies in, else the first
/// range of the interface, else a dash.
pub open spec fn subnet_of(x: IfaceInfo, ip: Seq<char>) -> Seq<char> {
    match range_of(x.ipv4_cidrs, ip) {
        Some(c) => c,
        None => if x.ipv4_cidrs.len() > 0 {
            x.ipv4_cidrs[0]
        } else if x.ipv6_cidrs.len() > 0 {
            x.ipv6_cidrs[0]
        } else {
            "-"@
        },
    }
}

/// Whether a text stands for a host name: it is neither blank nor a dash.
pub open spec fn is_hostname(s: Seq<char>) -> bool {
    text::trimmed(s).len() > 0 && text::trimmed(s) != "-"@
}

/// The host name of a device: the one that is remembered, else the one that was read, else a dash.
pub open spec fn hostname_of(
    registry: Seq<((u32, Seq<u8>), KnownView)>,
    id: (u32, Seq<u8>),
    hosts: Seq<([u8; 6], String)>,
) -> Seq<char> {
    match table::lookup(registry, id) {
        Some(d) if is_hostname(d.hostname) => d.hostname,
        _ => match host_in(hosts, id.1) {
            Some(h) => h,
            None => "-"@,
        },
    }
}

/// The interface that a neighbour is behind, where its device has an index that the topology knows
/// and the interface is watched. With no names every interface is watched.
pub open spec fn watched_iface(
    dev: Seq<char>,
    names: Seq<Seq<char>>,
    rd: Readings,
    t: Seq<IfaceInfo>,
) -> Option<(u32, IfaceInfo)> {
    match index_in(rd.ifindexes@, dev) {
        Some(ifindex) => match topology::with_index(t, ifindex) {
            Some(x) => if names.len() == 0 || names.contains(x.name) {
                Some((ifindex, x))
            } else {
                None
            },
            None => None,
        },
        None => None,
    }
}

/// A device that is there now, before its traffic is known.
pub open spec fn online_device(
    registry: Seq<((u32, Seq<u8>), KnownView)>,
    ifindex: u32,
    x: IfaceInfo,
    m: Seq<u8>,
    a: AddressesView,
    rd: Readings,
    now_ms: u64,
) -> DeviceView {
    DeviceView {
        ifindex,
        logical_iface: x.name,
        subnet: subnet_of(x, a.ipv4[0]),
        ipv4: a.ipv4,
        ipv6: a.ipv6,
        mac: mac::mac_text(m),
        hostname: hostname_of(registry, (ifindex, m), rd.hostnames@),
        metrics: counters::zero_quad(),
        cumulative: counters::zero_quad(),
        online: true,
        last_seen_ms: now_ms,
        neighbor_state: Some(a.state),
    }
}

/// The devices that are there now: the neighbours with an IPv4 address behind watched interfaces.
pub open spec fn devices_online(
    s: Seq<((Seq<char>, Seq<u8>), AddressesView)>,
    registry: Seq<((u32, Seq<u8>), KnownView)>,
    names: Seq<Seq<char>>,
    rd: Readings,
    t: Seq<IfaceInfo>,
    now_ms: u64,
) -> Seq<((u32, Seq<u8>), DeviceView)>
    decreases s.len(),
{
    if s.len() == 0 {
        Seq::empty()
    } else {
        let rest = devices_online(s.drop_last(), registry, names, rd, t, now_ms);
        let (k, a) = s.last();
        match watched_iface(k.0, names, rd, t) {
            Some((ifindex, x)) if a.ipv4.len() > 0 => table::assigned(
                rest,
                (ifindex, k.1),
                online_device(registry, ifindex, x, k.1, a, rd, now_ms),
            ),
            _ => rest,
        }
    }
}

fn find_range(cidrs: &Vec<String>, ip: &str) -> (r: Option<String>)
    ensures
        match r {
            Some(c) => range_of(lists::texts(cidrs@), ip@) == Some(c@),
            None => range_of(lists::texts(cidrs@), ip@) is None,
        },
{
    let ghost all = lists::texts(cidrs@);
    assert(all.skip(0) =~= all);
    for i in 0..cidrs.len()
        invariant
            all == lists::texts(cidrs@),
            range_of(all, ip@) == range_of(all.skip(i as int), ip@),
    {
        assert(all.skip(i as int)[0] == cidrs@[i as int]@);
        assert(all.skip(i as int).drop_first() =~= all.skip(i + 1));
        if topology::ipv4_in_cidr(ip, cidrs[i].as_str()) {
            return Some(cidrs[i].clone());
        }
    }
    None
}

fn pick_subnet(x: &Interface, ip: &str) -> (r: String)
    ensures
        r@ == subnet_of(x@, ip@),
{
    if let Some(c) = find_range(&x.ipv4_cidrs, ip) {
        return c;
    }
    if x.ipv4_cidrs.len() > 0 {
        x.ipv4_cidrs[0].clone()
    } else if x.ipv6_cidrs.len() > 0 {
        x.ipv6_cidrs[0].clone()
    } else {
        "-".to_owned()
    }
}

fn pick_hostname(
    registry: &Table<(u32, [u8; 6]), KnownDevice>,
    id: &(u32, [u8; 6]),
    hosts: &Vec<([u8; 6], String)>,
) -> (r: String)
    ensures
        r@ == hostname_of(registry@, id@, hosts@),
{
    if let Some(d) = registry.get(id) {
        let h = text::trim(d.hostname.as_str());
        if !h.is_empty() && !text::same_text(h, "-") {
            return d.hostname.clone();
        }
    }
    match find_host(hosts, &id.1) {
        Some(h) => h,
        None => "-".to_owned(),
    }
}

fn find_watched<'a>(
    dev: &str,
    names: &Vec<String>,
    rd: &Readings,
    topology: &'a TopologySnapshot,
) -> (r: Option<(u32, &'a Interface)>)
    ensures
        match r {
            Some((ifindex, x)) => watched_iface(dev@, lists::texts(names@), *rd, topology@) == Some(
                (ifindex, x@),
            ),
            None => watched_iface(dev@, lists::texts(names@), *rd, topology@) is None,
        },
{
    let Some(ifindex) = find_index(&rd.ifindexes, dev) else {
        return None;
    };
    let Some(x) = topology.by_ifindex(ifindex) else {
        return None;
    };
    if names.len() > 0 && !lists::holds_text(names, x.name.as_str()) {
        return None;
    }
    Some((ifindex, x))
}

fn list_online(
    groups: &Table<NeighborKey, Addresses>,
    registry: &Table<(u32, [u8; 6]), KnownDevice>,
    names: &Vec<String>,
    rd: &Readings,
    topology: &TopologySnapshot,
    now_ms: u64,
) -> (r: Table<(u32, [u8; 6]), DeviceListItem>)
    ensures
        r@ == devices_online(
            groups@,
            registry@,
            lists::texts(names@),
            *rd,
            topology@,
            now_ms,
        ),
        r.wf(),
{
    let mut r: Table<(u32, [u8; 6]), DeviceListItem> = Table::new();
    assert(groups@.take(0) =~= Seq::<((Seq<char>, Seq<u8>), AddressesView)>::empty());
    let n: usize = groups.len();
    for i in 0..n
        invariant
            n == groups@.len(),
            r@ == devices_online(
                groups@.take(i as int),
                registry@,
                lists::texts(names@),
                *rd,
                topology@,
                now_ms,
            ),
            r.wf(),
    {
        assert(groups@.take(i + 1).drop_last() =~= groups@.take(i as int));
        let k = groups.key_at(i);
        let a = groups.value_at(i);
        if let Some((ifindex, x)) = find_watched(k.dev.as_str(), names, rd, topology) {
            if a.ipv4.len() > 0 {
                let id = (ifindex, k.mac);
                assert(a@.ipv4[0] == a.ipv4@[0]@);
                r.insert(
                    id,
                    DeviceListItem {
                        ifindex,
                        logical_iface: x.name.clone(),
                        subnet: pick_subnet(x, a.ipv4[0].as_str()),
                        ipv4: lists::copy_texts(&a.ipv4),
                        ipv6: lists::copy_texts(&a.ipv6),
                        mac: mac::to_string(&k.mac),
                        hostname: pick_hostname(registry, &id, &rd.hostnames),
                        metrics: CounterQuad::default(),
                        cumulative: CounterQuad::default(),
                        online: true,
                        last_seen_ms: now_ms,
                        neighbor_state: Some(a.state.clone()),
                    },
                );
            }
        }
    }
    assert(groups@.take(groups@.len() as int) =~= groups@);
    r
}

/// The counters of the devices that are there, read against what they were.
pub open spec fn devices_read(
    prev: Seq<(DeviceCounter, u64)>,
    group: Seq<((u32, Seq<u8>), DeviceView)>,
    counted: Seq<(DeviceTrafficKey, u64)>,
    elapsed_ms: u64,
) -> (Seq<(DeviceCounter, u64)>, Seq<((u32, Seq<u8>), DeviceView)>)
    decreases counted.len(),
{
    if counted.len() == 0 {
        (prev, group)
    } else {
        let (p, g) = devices_read(prev, group, counted.drop_last(), elapsed_ms);
        let (key, bytes) = counted.last();
        let k = key@;
        match table::lookup(g, (k.ifindex, k.mac)) {
            Some(d) => (
                table::assigned(p, k, bytes),
                table::assigned(
                    g,
                    (k.ifindex, k.mac),
                    DeviceView {
                        metrics: filled(
                            k.ip_version,
                            k.direction,
                            d.metrics,
                            counters::growth(bytes, table::lookup_or(p, k, 0)),
                            elapsed_ms,
                        ),
                        ..d
                    },
                ),
            ),
            None => (p, g),
        }
    }
}

fn read_devices(
    prev: &mut Table<DeviceTrafficKey, u64>,
    group: &mut Table<(u32, [u8; 6]), DeviceListItem>,
    counted: &Vec<(DeviceTrafficKey, u64)>,
    elapsed_ms: u64,
)
    requires
        elapsed_ms > 0,
    ensures
        final(prev)@ == devices_read(old(prev)@, old(group)@, counted@, elapsed_ms).0,
        final(group)@ == devices_read(old(prev)@, old(group)@, counted@, elapsed_ms).1,
        old(prev).wf() ==> final(prev).wf(),
        old(group).wf() ==> final(group).wf(),
{
    let ghost prev0 = prev@;
    let ghost group0 = group@;
    let ghost was_prev = prev.wf();
    let ghost was_group = group.wf();
    assert(counted@.take(0) =~= Seq::<(DeviceTrafficKey, u64)>::empty());
    for i in 0..counted.len()
        invariant
            elapsed_ms > 0,
            prev@ == devices_read(prev0, group0, counted@.take(i as int), elapsed_ms).0,
            group@ == devices_read(prev0, group0, counted@.take(i as int), elapsed_ms).1,
            was_prev ==> prev.wf(),
            was_group ==> group.wf(),
    {
        assert(counted@.take(i + 1).drop_last() =~= counted@.take(i as int));
        let (k, bytes) = counted[i];
        if let Some(p) = group.find(&(k.ifindex, k.mac)) {
            let last: u64 = match prev.get(&k) {
                Some(b) => *b,
                None => 0,
            };
            let delta: u64 = counters::delta_bytes(bytes, last);
            prev.insert(k, bytes);
            let ghost before = group@;
            let d = group.value_at_mut(p);
            fill_quad(k.ip_version, k.direction, &mut d.metrics, delta, elapsed_ms);
            proof {
                if was_group {
                    table::lemma_assigned_distinct(
                        before,
                        (k.ifindex, k.mac@),
                        group@[p as int].1,
                    );
                }
            }
        }
    }
    assert(counted@.take(counted@.len() as int) =~= counted@);
}

/// The totals of devices with what each of some devices grew by added, one after another.
pub open spec fn totals_added(
    totals: Seq<((u32, Seq<u8>), CounterQuad)>,
    group: Seq<((u32, Seq<u8>), DeviceView)>,
) -> Seq<((u32, Seq<u8>), CounterQuad)>
    decreases group.len(),
{
    if group.len() == 0 {
        totals
    } else {
        let rest = totals_added(totals, group.drop_last());
        let (k, d) = group.last();
        table::assigned(
            rest,
            k,
            counters::quad_sum(table::lookup_or(rest, k, counters::zero_quad()), d.metrics),
        )
    }
}

/// The devices with their totals.
pub open spec fn with_totals(
    totals: Seq<((u32, Seq<u8>), CounterQuad)>,
    group: Seq<((u32, Seq<u8>), DeviceView)>,
) -> Seq<((u32, Seq<u8>), DeviceView)> {
    Seq::new(
        group.len(),
        |i: int|
            (
                group[i].0,
                DeviceView {
                    cumulative: counters::quad_sum(
                        table::lookup_or(
                            totals_added(totals, group.take(i)),
                            group[i].0,
                            counters::zero_quad(),
                        ),
                        group[i].1.metrics,
                    ),
                    ..group[i].1
                },
            ),
    )
}

fn add_totals(
    totals: &mut Table<(u32, [u8; 6]), CounterQuad>,
    group: &mut Table<(u32, [u8; 6]), DeviceListItem>,
)
    ensures
        final(totals)@ == totals_added(old(totals)@, old(group)@),
        final(group)@ == with_totals(old(totals)@, old(group)@),
        old(totals).wf() ==> final(totals).wf(),
        old(group).wf() ==> final(group).wf(),
{
    let ghost totals0 = totals@;
    let ghost group0 = group@;
    let ghost was = totals.wf();
    let ghost goal = with_totals(totals0, group0);
    assert(group0.take(0) =~= Seq::<((u32, Seq<u8>), DeviceView)>::empty());
    let n: usize = group.len();
    for i in 0..n
        invariant
            n == group0.len(),
            group@.len() == n,
            goal == with_totals(totals0, group0),
            totals@ == totals_added(totals0, group0.take(i as int)),
            forall|j: int| 0 <= j < i ==> #[trigger] group@[j] == goal[j],
            forall|j: int| i <= j < n ==> #[trigger] group@[j] == group0[j],
            was ==> totals.wf(),
    {
        assert(group0.take(i + 1).drop_last() =~= group0.take(i as int));
        let k = *group.key_at(i);
        assert(group@[i as int] == group0[i as int]);
        let d = group.value_at_mut(i);
        let metrics = d.metrics;
        let sum = add_total(totals, k, &metrics);
        d.cumulative = sum;
        assert(group@[i as int] == goal[i as int]);
    }
    assert(group0.take(n as int) =~= group0);
    assert(group@ =~= goal);
    assert(table::distinct(group0) ==> table::distinct(goal)) by {
        if table::distinct(group0) {
            assert forall|i: int, j: int| 0 <= i < j < goal.len() implies (#[trigger] goal[i]).0 != (
            #[trigger] goal[j]).0 by {
                assert(group0[i].0 != group0[j].0);
            }
        }
    }
}

/// What is remembered of a device that is there now.
pub open spec fn remembered(k: (u32, Seq<u8>), d: DeviceView, now_ms: u64) -> KnownView {
    KnownView {
        ifindex: d.ifindex,
        mac: k.1,
        ipv4: d.ipv4,
        ipv6: d.ipv6,
        hostname: d.hostname,
        logical_iface: d.logical_iface,
        subnet: d.subnet,
        last_seen_ms: now_ms,
    }
}

/// The known devices with those that are there now.
pub open spec fn registered(
    registry: Seq<((u32, Seq<u8>), KnownView)>,
    group: Seq<((u32, Seq<u8>), DeviceView)>,
    now_ms: u64,
) -> Seq<((u32, Seq<u8>), KnownView)>
    decreases group.len(),
{
    if group.len() == 0 {
        registry
    } else {
        let (k, d) = group.last();
        table::assigned(
            registered(registry, group.drop_last(), now_ms),
            k,
            remembered(k, d, now_ms),
        )
    }
}

fn register(
    registry: &mut Table<(u32, [u8; 6]), KnownDevice>,
    group: &Table<(u32, [u8; 6]), DeviceListItem>,
    now_ms: u64,
)
    ensures
        final(registry)@ == registered(old(registry)@, group@, now_ms),
        old(registry).wf() ==> final(registry).wf(),
{
    let ghost first = registry@;
    let ghost was = registry.wf();
    assert(group@.take(0) =~= Seq::<((u32, Seq<u8>), DeviceView)>::empty());
    let n: usize = group.len();
    for i in 0..n
        invariant
            n == group@.len(),
            registry@ == registered(first, group@.take(i as int), now_ms),
            was ==> registry.wf(),
    {
        assert(group@.take(i + 1).drop_last() =~= group@.take(i as int));
        let k = *group.key_at(i);
        let d = group.value_at(i);
        registry.insert(
            k,
            KnownDevice {
                ifindex: d.ifindex,
                mac: k.1,
                ipv4: lists::copy_texts(&d.ipv4),
                ipv6: lists::copy_texts(&d.ipv6),
                hostname: d.hostname.clone(),
                logical_iface: d.logical_iface.clone(),
                subnet: d.subnet.clone(),
                last_seen_ms: now_ms,
            },
        );
    }
    assert(group@.take(group@.len() as int) =~= group@);
}

/// Whether a known device is behind an interface that is watched. With no names every one is.
pub open spec fn is_watched(d: KnownView, names: Seq<Seq<char>>, t: Seq<IfaceInfo>) -> bool {
    names.len() == 0 || match topology::with_index(t, d.ifindex) {
        Some(x) => names.contains(x.name),
        None => false,
    }
}

/// The known devices behind watched interfaces that are not there now.
pub open spec fn devices_offline(
    registry: Seq<((u32, Seq<u8>), KnownView)>,
    totals: Seq<((u32, Seq<u8>), CounterQuad)>,
    group: Seq<((u32, Seq<u8>), DeviceView)>,
    names: Seq<Seq<char>>,
    t: Seq<IfaceInfo>,
) -> Seq<DeviceView>
    decreases registry.len(),
{
    if registry.len() == 0 {
        Seq::empty()
    } else {
        let rest = devices_offline(registry.drop_last(), totals, group, names, t);
        let (k, d) = registry.last();
        if table::has_key(group, k) || !is_watched(d, names, t) {
            rest
        } else {
            rest.push(
                runtime::offline_device(
                    d.ifindex,
                    d.mac,
                    d,
                    table::lookup_or(totals, k, counters::zero_quad()),
                ),
            )
        }
    }
}

fn list_offline(
    registry: &Table<(u32, [u8; 6]), KnownDevice>,
    totals: &Table<(u32, [u8; 6]), CounterQuad>,
    group: &Table<(u32, [u8; 6]), DeviceListItem>,
    names: &Vec<String>,
    topology: &TopologySnapshot,
) -> (r: Vec<DeviceListItem>)
    ensures
        sorting::views(r@) == devices_offline(
            registry@,
            totals@,
            group@,
            lists::texts(names@),
            topology@,
        ),
{
    let mut r: Vec<DeviceListItem> = Vec::new();
    assert(registry@.take(0) =~= Seq::<((u32, Seq<u8>), KnownView)>::empty());
    assert(sorting::views(r@) =~= Seq::<DeviceView>::empty());
    let n: usize = registry.len();
    for i in 0..n
        invariant
            n == registry@.len(),
            sorting::views(r@) == devices_offline(
                registry@.take(i as int),
                totals@,
                group@,
                lists::texts(names@),
                topology@,
            ),
    {
        assert(registry@.take(i + 1).drop_last() =~= registry@.take(i as int));
        let k = registry.key_at(i);
        let d = registry.value_at(i);
        let watched = names.len() == 0 || match topology.by_ifindex(d.ifindex) {
            Some(x) => lists::holds_text(names, x.name.as_str()),
            None => false,
        };
        if !group.contains_key(k) && watched {
            let cumulative = match totals.get(k) {
                Some(q) => *q,
                None => CounterQuad::default(),
            };
            let ghost before = sorting::views(r@);
            let item = runtime::offline_item(d.ifindex, &d.mac, d, cumulative);
            r.push(item);
            assert(sorting::views(r@) =~= before.push(item@));
        }
    }
    assert(registry@.take(registry@.len() as int) =~= registry@);
    r
}

/// Shown devices are put in order by interface and addresses.
impl Ranked for DeviceListItem {
    open spec fn rank(a: DeviceView, b: DeviceView) -> int {
        runtime::place_rank(a, b)
    }

    fn ranked_against(&self, other: &DeviceListItem) -> (r: i8) {
        runtime::rank_places(self, other)
    }

    proof fn law_flip(a: DeviceView, b: DeviceView) {
        runtime::lemma_place_rank_flip(a, b);
    }

    proof fn law_chain(a: DeviceView, b: DeviceView, c: DeviceView) {
        runtime::lemma_place_rank_chain(a, b, c);
    }
}

/// The devices of a table, as they come.
pub open spec fn values_of(s: Seq<((u32, Seq<u8>), DeviceView)>) -> Seq<DeviceView> {
    Seq::new(s.len(), |i: int| s[i].1)
}

fn list_values(group: &Table<(u32, [u8; 6]), DeviceListItem>) -> (r: Vec<DeviceListItem>)
    ensures
        sorting::views(r@) == values_of(group@),
{
    let mut r: Vec<DeviceListItem> = Vec::new();
    let n: usize = group.len();
    for i in 0..n
        invariant
            n == group@.len(),
            r@.len() == i,
            forall|j: int| 0 <= j < i ==> (#[trigger] r@[j])@ == group@[j].1,
    {
        r.push(group.value_at(i).clone());
    }
    assert(sorting::views(r@) =~= values_of(group@));
    r
}

/// The devices that are there, with what they grew by and their totals, and the counters as they
/// are now.
pub open spec fn group_of(
    r: RuntimeView,
    names: Seq<Seq<char>>,
    rd: Readings,
    t: Seq<IfaceInfo>,
    now_ms: u64,
    elapsed_ms: u64,
) -> (Seq<(DeviceCounter, u64)>, Seq<((u32, Seq<u8>), DeviceView)>) {
    devices_read(
        r.prev_device_bytes,
        devices_online(
            gathered(sorting::views(rd.neighbors@)),
            r.registry,
            names,
            rd,
            t,
            now_ms,
        ),
        rd.device_stats@,
        elapsed_ms,
    )
}

/// What is remembered after a snapshot.
pub open spec fn remembered_after(
    r: RuntimeView,
    names: Seq<Seq<char>>,
    rd: Readings,
    t: Seq<IfaceInfo>,
    now_ms: u64,
    elapsed_ms: u64,
) -> RuntimeView {
    let done = ifaces_read(r, names, rd, t, elapsed_ms);
    let (prev, group) = group_of(r, names, rd, t, now_ms, elapsed_ms);
    RuntimeView {
        prev_iface_bytes: done.prev,
        cumulative_iface: done.cumulative,
        prev_device_bytes: prev,
        cumulative_device: totals_added(r.cumulative_device, group),
        registry: registered(r.registry, with_totals(r.cumulative_device, group), now_ms),
        ..r
    }
}

/// What a snapshot shows: the watched interfaces as they are named, and the devices in order, those
/// that are there and those that are not.
pub open spec fn shown(
    r: RuntimeView,
    names: Seq<Seq<char>>,
    rd: Readings,
    t: Seq<IfaceInfo>,
    now_ms: u64,
    elapsed_ms: u64,
) -> SnapshotView {
    let (prev, group) = group_of(r, names, rd, t, now_ms, elapsed_ms);
    let after = remembered_after(r, names, rd, t, now_ms, elapsed_ms);
    let here = with_totals(r.cumulative_device, group);
    SnapshotView {
        timestamp_ms: now_ms,
        interfaces: ifaces_read(r, names, rd, t, elapsed_ms).items,
        devices: sorting::sorted::<DeviceListItem>(
            values_of(here) + devices_offline(
                after.registry,
                after.cumulative_device,
                here,
                names,
                t,
            ),
        ),
    }
}

impl MonitorRuntime {
    /// Notes that a reading is made, and gives back the milliseconds that it covers.
    pub fn begin_reading(&mut self, now_ms: u64, interval_ms: u64) -> (elapsed_ms: u64)
        ensures
            elapsed_ms == covered_ms(old(self)@.last_snapshot_ms, now_ms, interval_ms),
            elapsed_ms > 0,
            final(self)@ == (RuntimeView { last_snapshot_ms: Some(now_ms), ..old(self)@ }),
            old(self).wf() ==> final(self).wf(),
    {
        let elapsed_ms: u64 = match self.last_snapshot_ms {
            Some(last) => if now_ms > last {
                now_ms - last
            } else {
                1
            },
            None => if interval_ms > 1000 {
                interval_ms
            } else {
                1000
            },
        };
        self.last_snapshot_ms = Some(now_ms);
        elapsed_ms
    }
}

/// Turns what was read into a snapshot, and remembers it.
pub fn collect_snapshot(
    readings: &Readings,
    topology: &TopologySnapshot,
    runtime: &mut MonitorRuntime,
    now_ms: u64,
    elapsed_ms: u64,
    monitor_ifaces: &Vec<String>,
) -> (r: SnapshotData)
    requires
        elapsed_ms > 0,
    ensures
        r@ == shown(
            old(runtime)@,
            lists::texts(monitor_ifaces@),
            *readings,
            topology@,
            now_ms,
            elapsed_ms,
        ),
        final(runtime)@ == remembered_after(
            old(runtime)@,
            lists::texts(monitor_ifaces@),
            *readings,
            topology@,
            now_ms,
            elapsed_ms,
        ),
        old(runtime).wf() ==> final(runtime).wf(),
{
    let interfaces = read_ifaces(runtime, monitor_ifaces, readings, topology, elapsed_ms);
    let groups = gather(&readings.neighbors);
    let mut group = list_online(
        &groups,
        &runtime.device_registry.entries,
        monitor_ifaces,
        readings,
        topology,
        now_ms,
    );
    read_devices(
        &mut runtime.prev_device_bytes,
        &mut group,
        &readings.device_stats,
        elapsed_ms,
    );
    add_totals(&mut runtime.cumulative_device, &mut group);
    register(&mut runtime.device_registry.entries, &group, now_ms);
    let mut devices = list_values(&group);
    let mut absent = list_offline(
        &runtime.device_registry.entries,
        &runtime.cumulative_device,
        &group,
        monitor_ifaces,
        topology,
    );
    let ghost here = sorting::views(devices@);
    let ghost gone = sorting::views(absent@);
    devices.append(&mut absent);
    assert(sorting::views(devices@) =~= here + gone);
    SnapshotData { timestamp_ms: now_ms, interfaces, devices: sorting::sort_ranked(devices) }
}

/// Reading the counters of an interface remembers what each of them shows now, and leaves what is
/// remembered of every other counter.
pub proof fn lemma_iface_read_lookup(
    prev: Seq<(InterfaceTrafficKey, u64)>,
    counted: Seq<(InterfaceTrafficKey, u64)>,
    ifindex: u32,
    elapsed_ms: u64,
    k: InterfaceTrafficKey,
)
    requires
        table::distinct(counted),
    ensures
        table::lookup(iface_read(prev, counted, ifindex, elapsed_ms).0, k) == (
        match table::lookup(counted, k) {
            Some(bytes) if k.ifindex == ifindex => Some(bytes),
            _ => table::lookup(prev, k),
        }),
    decreases counted.len(),
{
    if counted.len() > 0 {
        table::lemma_lookup_last(counted, k);
        lemma_iface_read_lookup(prev, counted.drop_last(), ifindex, elapsed_ms, k);
        let (key, bytes) = counted.last();
        if key.ifindex == ifindex {
            table::lemma_lookup_assigned(
                iface_read(prev, counted.drop_last(), ifindex, elapsed_ms).0,
                key,
                bytes,
                k,
            );
        }
    } else {
        assert(!table::has_key(counted, k));
    }
}

proof fn lemma_nothing_grew(
    prev: Seq<(InterfaceTrafficKey, u64)>,
    counted: Seq<(InterfaceTrafficKey, u64)>,
    ifindex: u32,
    elapsed_ms: u64,
)
    requires
        elapsed_ms > 0,
        table::distinct(counted),
        forall|i: int|
            0 <= i < counted.len() && (#[trigger] counted[i]).0.ifindex == ifindex ==> table::lookup(
                prev,
                counted[i].0,
            ) == Some(counted[i].1),
    ensures
        iface_read(prev, counted, ifindex, elapsed_ms).1 == counters::zero_quad(),
    decreases counted.len(),
{
    if counted.len() > 0 {
        let h = counted.drop_last();
        let n = counted.len() - 1;
        let (k, bytes) = counted[n];
        table::lemma_lookup_last(counted, k);
        assert forall|i: int|
            0 <= i < h.len() && (#[trigger] h[i]).0.ifindex == ifindex implies table::lookup(
            prev,
            h[i].0,
        ) == Some(h[i].1) by {
            assert(counted[i].0.ifindex == ifindex);
        }
        lemma_nothing_grew(prev, h, ifindex, elapsed_ms);
        lemma_iface_read_lookup(prev, h, ifindex, elapsed_ms, k);
        assert(bit_rate(0, elapsed_ms) == 0) by {
            assert(0int / elapsed_ms as int == 0 && 0int % elapsed_ms as int == 0) by (nonlinear_arith)
                requires
                    elapsed_ms > 0,
            ;
        }
    }
}

/// Counters that are read again unchanged show no traffic, however much they showed before.
pub proof fn lemma_unchanged_counters(
    prev: Seq<(InterfaceTrafficKey, u64)>,
    counted: Seq<(InterfaceTrafficKey, u64)>,
    ifindex: u32,
    first_ms: u64,
    second_ms: u64,
)
    requires
        second_ms > 0,
        table::distinct(counted),
    ensures
        iface_read(
            iface_read(prev, counted, ifindex, first_ms).0,
            counted,
            ifindex,
            second_ms,
        ).1 == counters::zero_quad(),
{
    let after = iface_read(prev, counted, ifindex, first_ms).0;
    assert forall|i: int|
        0 <= i < counted.len() && (#[trigger] counted[i]).0.ifindex == ifindex implies table::lookup(
        after,
        counted[i].0,
    ) == Some(counted[i].1) by {
        let k = counted[i].0;
        lemma_iface_read_lookup(prev, counted, ifindex, first_ms, k);
        table::lemma_has_key(counted, k, i);
        let p = table::place_of(counted, k);
        assert(table::is_place(counted, k, p));
        if p < i {
            assert(counted[p].0 != counted[i].0);
        } else if i < p {
            assert(counted[i].0 != counted[p].0);
        }
    }
    lemma_nothing_grew(after, counted, ifindex, second_ms);
}

proof fn lemma_totals_added(
    totals: Seq<((u32, Seq<u8>), CounterQuad)>,
    group: Seq<((u32, Seq<u8>), DeviceView)>,
    k: (u32, Seq<u8>),
)
    requires
        table::distinct(group),
    ensures
        table::lookup(totals_added(totals, group), k) == (match table::lookup(group, k) {
            Some(d) => Some(
                counters::quad_sum(
                    table::lookup_or(totals, k, counters::zero_quad()),
                    d.metrics,
                ),
            ),
            None => table::lookup(totals, k),
        }),
    decreases group.len(),
{
    if group.len() > 0 {
        table::lemma_lookup_last(group, k);
        lemma_totals_added(totals, group.drop_last(), k);
        let rest = totals_added(totals, group.drop_last());
        let (id, d) = group.last();
        table::lemma_lookup_assigned(
            rest,
            id,
            counters::quad_sum(table::lookup_or(rest, id, counters::zero_quad()), d.metrics),
            k,
        );
    } else {
        assert(!table::has_key(group, k));
    }
}

/// The total of a device grows by what the device grew by, and is what the device shows; the totals
/// of devices that are not there stay as they are.
pub proof fn lemma_device_totals(
    totals: Seq<((u32, Seq<u8>), CounterQuad)>,
    group: Seq<((u32, Seq<u8>), DeviceView)>,
    k: (u32, Seq<u8>),
)
    requires
        table::distinct(group),
    ensures
        table::lookup(totals_added(totals, group), k) == (match table::lookup(group, k) {
            Some(d) => Some(
                counters::quad_sum(
                    table::lookup_or(totals, k, counters::zero_quad()),
                    d.metrics,
                ),
            ),
            None => table::lookup(totals, k),
        }),
        forall|i: int|
            0 <= i < group.len() && (#[trigger] group[i]).0 == k ==> table::lookup(
                totals_added(totals, group),
                k,
            ) == Some(with_totals(totals, group)[i].1.cumulative),
{
    lemma_totals_added(totals, group, k);
    assert forall|i: int| 0 <= i < group.len() && (#[trigger] group[i]).0 == k implies table::lookup(
        totals_added(totals, group),
        k,
    ) == Some(with_totals(totals, group)[i].1.cumulative) by {
        table::lemma_has_key(group, k, i);
        let p = table::place_of(group, k);
        assert(table::is_place(group, k, p));
        if p < i {
            assert(group[p].0 != group[i].0);
        } else if i < p {
            assert(group[i].0 != group[p].0);
        }
        let before = group.take(i);
        assert forall|a: int, b: int| 0 <= a < b < before.len() implies (#[trigger] before[a]).0 != (
        #[trigger] before[b]).0 by {
            assert(group[a].0 != group[b].0);
        }
        lemma_totals_added(totals, before, k);
        if table::has_key(before, k) {
            let q = table::place_of(before, k);
            assert(table::is_place(before, k, q));
            assert(group[q].0 != group[i].0);
        }
    }
}

/// Every device that was known stays known, every device that is there is known afterwards as it
/// is shown now, and no other device is.
pub proof fn lemma_registered(
    registry: Seq<((u32, Seq<u8>), KnownView)>,
    group: Seq<((u32, Seq<u8>), DeviceView)>,
    now_ms: u64,
    k: (u32, Seq<u8>),
)
    requires
        table::distinct(group),
    ensures
        table::lookup(registered(registry, group, now_ms), k) == (match table::lookup(group, k) {
            Some(d) => Some(remembered(k, d, now_ms)),
            None => table::lookup(registry, k),
        }),
    decreases group.len(),
{
    if group.len() > 0 {
        table::lemma_lookup_last(group, k);
        lemma_registered(registry, group.drop_last(), now_ms, k);
        let (id, d) = group.last();
        table::lemma_lookup_assigned(
            registered(registry, group.drop_last(), now_ms),
            id,
            remembered(id, d, now_ms),
            k,
        );
    } else {
        assert(!table::has_key(group, k));
    }
}

/// Bytes that were counted without a reset add up: what a counter showed before and what it grew by
/// make what it shows now.
pub proof fn lemma_growth_adds_up(current: u64, previous: u64)
    ensures
        current >= previous ==> previous + counters::growth(current, previous) == current,
        current < previous ==> counters::growth(current, previous) == current,
{
}

} // verus!
