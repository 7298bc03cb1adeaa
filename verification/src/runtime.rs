//! What the monitor remembers between two readings, and how it is saved.

use std::collections::HashMap;

use vstd::prelude::*;

use crate::counters;
use crate::counters::CounterQuad;
use crate::lists;
use crate::mac;
use crate::snapshot::DeviceListItem;
use crate::snapshot::DeviceView;
use crate::snapshot::InterfaceOverviewItem;
use crate::snapshot::InterfaceView;
use crate::snapshot::SnapshotData;
use crate::sorting;
use crate::sorting::Ranked;
use crate::table;
use crate::table::Table;
use crate::table::TableKey;
use crate::text;
use crate::topology;
use crate::topology::IfaceInfo;
use crate::topology::TopologySnapshot;

verus! {

/// A counter of an interface: one IP family, one direction.
#[derive(Debug, Clone, Copy, PartialEq, Eq, Structural)]
pub struct InterfaceTrafficKey {
    pub ifindex: u32,
    pub ip_version: u8,
    pub direction: u8,
}

impl View for InterfaceTrafficKey {
    type V = InterfaceTrafficKey;

    open spec fn view(&self) -> InterfaceTrafficKey {
        *self
    }
}

impl TableKey for InterfaceTrafficKey {
    fn same(&self, other: &InterfaceTrafficKey) -> (r: bool) {
        *self == *other
    }

    fn copied(&self) -> (r: InterfaceTrafficKey) {
        *self
    }
}

/// A counter of a device: one IP family, one direction.
#[derive(Debug, Clone, Copy)]
pub struct DeviceTrafficKey {
    pub ifindex: u32,
    pub mac: [u8; 6],
    pub ip_version: u8,
    pub direction: u8,
}

/// A counter of a device, with the address as a sequence.
#[verifier::ext_equal]
pub struct DeviceCounter {
    pub ifindex: u32,
    pub mac: Seq<u8>,
    pub ip_version: u8,
    pub direction: u8,
}

impl View for DeviceTrafficKey {
    type V = DeviceCounter;

    open spec fn view(&self) -> DeviceCounter {
        DeviceCounter {
            ifindex: self.ifindex,
            mac: self.mac@,
            ip_version: self.ip_version,
            direction: self.direction,
        }
    }
}

impl TableKey for DeviceTrafficKey {
    fn same(&self, other: &DeviceTrafficKey) -> (r: bool) {
        (self.ifindex, self.mac).same(&(other.ifindex, other.mac)) && self.ip_version
            == other.ip_version && self.direction == other.direction
    }

    fn copied(&self) -> (r: DeviceTrafficKey) {
        *self
    }
}

/// What is remembered of a device.
#[derive(Debug)]
pub struct KnownDevice {
    pub ifindex: u32,
    pub mac: [u8; 6],
    pub ipv4: Vec<String>,
    pub ipv6: Vec<String>,
    pub hostname: String,
    pub logical_iface: String,
    pub subnet: String,
    pub last_seen_ms: u64,
}

/// What is remembered of a device, with texts as characters.
#[verifier::ext_equal]
pub struct KnownView {
    pub ifindex: u32,
    pub mac: Seq<u8>,
    pub ipv4: Seq<Seq<char>>,
    pub ipv6: Seq<Seq<char>>,
    pub hostname: Seq<char>,
    pub logical_iface: Seq<char>,
    pub subnet: Seq<char>,
    pub last_seen_ms: u64,
}

impl View for KnownDevice {
    type V = KnownView;

    open spec fn view(&self) -> KnownView {
        KnownView {
            ifindex: self.ifindex,
            mac: self.mac@,
            ipv4: lists::texts(self.ipv4@),
            ipv6: lists::texts(self.ipv6@),
            hostname: self.hostname@,
            logical_iface: self.logical_iface@,
            subnet: self.subnet@,
            last_seen_ms: self.last_seen_ms,
        }
    }
}

impl Clone for KnownDevice {
    fn clone(&self) -> (r: Self)
        ensures
            r@ == self@,
    {
        KnownDevice {
            ifindex: self.ifindex,
            mac: self.mac,
            ipv4: lists::copy_texts(&self.ipv4),
            ipv6: lists::copy_texts(&self.ipv6),
            hostname: self.hostname.clone(),
            logical_iface: self.logical_iface.clone(),
            subnet: self.subnet.clone(),
            last_seen_ms: self.last_seen_ms,
        }
    }
}

/// The devices that have been seen.
#[derive(Debug)]
pub struct DeviceRegistry {
    pub entries: Table<(u32, [u8; 6]), KnownDevice>,
}

/// What the monitor remembers between two readings.
#[derive(Debug)]
pub struct MonitorRuntime {
    pub prev_iface_bytes: Table<InterfaceTrafficKey, u64>,
    pub prev_device_bytes: Table<DeviceTrafficKey, u64>,
    pub cumulative_iface: HashMap<u32, CounterQuad>,
    pub cumulative_device: Table<(u32, [u8; 6]), CounterQuad>,
    pub last_snapshot_ms: Option<u64>,
    pub device_registry: DeviceRegistry,
}

/// What the monitor remembers, as sequences and a map.
#[verifier::ext_equal]
pub struct RuntimeView {
    pub prev_iface_bytes: Seq<(InterfaceTrafficKey, u64)>,
    pub prev_device_bytes: Seq<(DeviceCounter, u64)>,
    pub cumulative_iface: Map<u32, CounterQuad>,
    pub cumulative_device: Seq<((u32, Seq<u8>), CounterQuad)>,
    pub last_snapshot_ms: Option<u64>,
    pub registry: Seq<((u32, Seq<u8>), KnownView)>,
}

impl View for MonitorRuntime {
    type V = RuntimeView;

    open spec fn view(&self) -> RuntimeView {
        RuntimeView {
            prev_iface_bytes: self.prev_iface_bytes@,
            prev_device_bytes: self.prev_device_bytes@,
            cumulative_iface: self.cumulative_iface@,
            cumulative_device: self.cumulative_device@,
            last_snapshot_ms: self.last_snapshot_ms,
            registry: self.device_registry.entries@,
        }
    }
}

/// Nothing remembered.
pub open spec fn nothing_known() -> RuntimeView {
    RuntimeView {
        prev_iface_bytes: Seq::empty(),
        prev_device_bytes: Seq::empty(),
        cumulative_iface: Map::empty(),
        cumulative_device: Seq::empty(),
        last_snapshot_ms: None,
        registry: Seq::empty(),
    }
}

impl Default for DeviceRegistry {
    fn default() -> (r: DeviceRegistry)
        ensures
            r.entries@ == Seq::<((u32, Seq<u8>), KnownView)>::empty(),
            r.entries.wf(),
    {
        DeviceRegistry { entries: Table::new() }
    }
}

impl Default for MonitorRuntime {
    fn default() -> (r: MonitorRuntime)
        ensures
            r@ == nothing_known(),
            r.wf(),
    {
        MonitorRuntime {
            prev_iface_bytes: Table::new(),
            prev_device_bytes: Table::new(),
            cumulative_iface: HashMap::new(),
            cumulative_device: Table::new(),
            last_snapshot_ms: None,
            device_registry: DeviceRegistry::default(),
        }
    }
}

/// The test for one device, as a function of keys.
pub open spec fn id_test(ifindex: u32, mac: Seq<u8>) -> spec_fn((u32, Seq<u8>)) -> bool {
    |k: (u32, Seq<u8>)| k == (ifindex, mac)
}

/// The test for the counters of one device, as a function of keys.
pub open spec fn counter_test(ifindex: u32, mac: Seq<u8>) -> spec_fn(DeviceCounter) -> bool {
    |k: DeviceCounter| k.ifindex == ifindex && k.mac == mac
}

/// What is remembered once a device is forgotten.
pub open spec fn without_known(r: RuntimeView, ifindex: u32, mac: Seq<u8>) -> RuntimeView {
    RuntimeView {
        registry: table::without(r.registry, id_test(ifindex, mac)),
        cumulative_device: table::without(r.cumulative_device, id_test(ifindex, mac)),
        prev_device_bytes: table::without(r.prev_device_bytes, counter_test(ifindex, mac)),
        ..r
    }
}

impl MonitorRuntime {
    /// Nothing is remembered twice.
    pub open spec fn wf(&self) -> bool {
        &&& table::distinct(self@.prev_iface_bytes)
        &&& table::distinct(self@.prev_device_bytes)
        &&& table::distinct(self@.cumulative_device)
        &&& table::distinct(self@.registry)
    }

    /// Forgets everything about one device behind one interface; says whether there was anything.
    pub fn remove_device(&mut self, ifindex: u32, mac: [u8; 6]) -> (removed: bool)
        ensures
            final(self)@ == without_known(old(self)@, ifindex, mac@),
            removed == (table::some_key(old(self)@.registry, id_test(ifindex, mac@))
                || table::some_key(old(self)@.cumulative_device, id_test(ifindex, mac@))
                || table::some_key(old(self)@.prev_device_bytes, counter_test(ifindex, mac@))),
            old(self).wf() ==> final(self).wf(),
    {
        let id = (ifindex, mac);
        let f = |k: &(u32, [u8; 6])| -> (b: bool)
            ensures
                b == (k@ == (ifindex, mac@)),
            { k.same(&id) };
        let g = |k: &DeviceTrafficKey| -> (b: bool)
            ensures
                b == (k@.ifindex == ifindex && k@.mac == mac@),
            { (k.ifindex, k.mac).same(&id) };
        let a = self.device_registry.entries.remove_if(&f, Ghost(id_test(ifindex, mac@)));
        let b = self.cumulative_device.remove_if(&f, Ghost(id_test(ifindex, mac@)));
        let c = self.prev_device_bytes.remove_if(&g, Ghost(counter_test(ifindex, mac@)));
        a || b || c
    }
}

/// What is saved of a device.
#[derive(Debug, Clone)]
pub struct PersistedKnownDevice {
    pub logical_iface: String,
    pub mac: String,
    pub ipv4: Vec<String>,
    pub ipv6: Vec<String>,
    pub hostname: String,
    pub subnet: String,
    pub last_seen_ms: u64,
}

/// What is saved of a device, with texts as characters.
#[verifier::ext_equal]
pub struct PersistedView {
    pub logical_iface: Seq<char>,
    pub mac: Seq<char>,
    pub ipv4: Seq<Seq<char>>,
    pub ipv6: Seq<Seq<char>>,
    pub hostname: Seq<char>,
    pub subnet: Seq<char>,
    pub last_seen_ms: u64,
}

impl View for PersistedKnownDevice {
    type V = PersistedView;

    open spec fn view(&self) -> PersistedView {
        PersistedView {
            logical_iface: self.logical_iface@,
            mac: self.mac@,
            ipv4: lists::texts(self.ipv4@),
            ipv6: lists::texts(self.ipv6@),
            hostname: self.hostname@,
            subnet: self.subnet@,
            last_seen_ms: self.last_seen_ms,
        }
    }
}

/// Saved devices are put in order by their interface and by their address.
impl Ranked for PersistedKnownDevice {
    open spec fn rank(a: PersistedView, b: PersistedView) -> int {
        if a.logical_iface != b.logical_iface {
            text::text_rank(a.logical_iface, b.logical_iface)
        } else {
            text::text_rank(a.mac, b.mac)
        }
    }

    fn ranked_against(&self, other: &PersistedKnownDevice) -> (r: i8) {
        let r: i8 = text::rank_texts(self.logical_iface.as_str(), other.logical_iface.as_str());
        proof {
            text::lemma_text_rank(self.logical_iface@, other.logical_iface@);
        }
        if r != 0 {
            r
        } else {
            text::rank_texts(self.mac.as_str(), other.mac.as_str())
        }
    }

    proof fn law_flip(a: PersistedView, b: PersistedView) {
        text::lemma_text_rank(a.logical_iface, b.logical_iface);
        text::lemma_text_rank(a.mac, b.mac);
    }

    proof fn law_chain(a: PersistedView, b: PersistedView, c: PersistedView) {
        text::lemma_text_rank(a.logical_iface, b.logical_iface);
        text::lemma_text_rank(b.logical_iface, c.logical_iface);
        text::lemma_text_rank(a.logical_iface, c.logical_iface);
        if a.logical_iface == b.logical_iface && b.logical_iface == c.logical_iface {
            text::lemma_text_rank_chain(a.mac, b.mac, c.mac);
        } else if a.logical_iface != b.logical_iface && b.logical_iface != c.logical_iface {
            text::lemma_text_rank_chain(a.logical_iface, b.logical_iface, c.logical_iface);
        }
    }
}

/// What is saved of the monitor.
#[derive(Debug, Clone)]
pub struct MonitorRuntimeState {
    pub known_devices: Vec<PersistedKnownDevice>,
}

impl Default for MonitorRuntimeState {
    fn default() -> (r: MonitorRuntimeState)
        ensures
            r.known_devices@ == Seq::<PersistedKnownDevice>::empty(),
    {
        MonitorRuntimeState { known_devices: Vec::new() }
    }
}

/// The name under which a device is saved: that of its interface where there is one, else the name
/// that was remembered.
pub open spec fn iface_name(k: (u32, Seq<u8>), d: KnownView, t: Seq<IfaceInfo>) -> Seq<char> {
    match topology::with_index(t, k.0) {
        Some(x) => x.name,
        None => d.logical_iface,
    }
}

/// What is saved of one device.
pub open spec fn persisted(
    e: ((u32, Seq<u8>), KnownView),
    t: Seq<IfaceInfo>,
) -> PersistedView {
    PersistedView {
        logical_iface: iface_name(e.0, e.1, t),
        mac: mac::mac_text(e.0.1),
        ipv4: e.1.ipv4,
        ipv6: e.1.ipv6,
        hostname: e.1.hostname,
        subnet: e.1.subnet,
        last_seen_ms: e.1.last_seen_ms,
    }
}

/// What is saved of each device.
pub open spec fn persisted_all(
    s: Seq<((u32, Seq<u8>), KnownView)>,
    t: Seq<IfaceInfo>,
) -> Seq<PersistedView> {
    Seq::new(s.len(), |i: int| persisted(s[i], t))
}

/// What is saved of the devices, in order.
pub open spec fn exported(
    s: Seq<((u32, Seq<u8>), KnownView)>,
    t: Seq<IfaceInfo>,
) -> Seq<PersistedView> {
    sorting::sorted::<PersistedKnownDevice>(persisted_all(s, t))
}

/// The known devices as they are saved.
pub fn export_runtime_state(runtime: &MonitorRuntime, topology: &TopologySnapshot) -> (r:
    MonitorRuntimeState)
    ensures
        sorting::views(r.known_devices@) == exported(runtime@.registry, topology@),
{
    let entries = &runtime.device_registry.entries;
    let mut known: Vec<PersistedKnownDevice> = Vec::new();
    let ghost all = persisted_all(entries@, topology@);
    assert(sorting::views(known@) =~= all.take(0));
    let n: usize = entries.len();
    for i in 0..n
        invariant
            n == entries@.len(),
            all == persisted_all(entries@, topology@),
            sorting::views(known@) == all.take(i as int),
    {
        let k = entries.key_at(i);
        let d = entries.value_at(i);
        let logical_iface = match topology.by_ifindex(k.0) {
            Some(x) => x.name.clone(),
            None => d.logical_iface.clone(),
        };
        let item = PersistedKnownDevice {
            logical_iface,
            mac: mac::to_string(&k.1),
            ipv4: lists::copy_texts(&d.ipv4),
            ipv6: lists::copy_texts(&d.ipv6),
            hostname: d.hostname.clone(),
            subnet: d.subnet.clone(),
            last_seen_ms: d.last_seen_ms,
        };
        let ghost before = sorting::views(known@);
        known.push(item);
        assert(item@ == all[i as int]);
        assert(sorting::views(known@) =~= before.push(item@));
        assert(all.take(i + 1) =~= all.take(i as int).push(all[i as int]));
    }
    assert(all.take(all.len() as int) =~= all);
    MonitorRuntimeState { known_devices: sorting::sort_ranked(known) }
}

/// What is remembered of a saved device.
pub open spec fn recalled(p: PersistedView, ifindex: u32, m: Seq<u8>) -> KnownView {
    KnownView {
        ifindex,
        mac: m,
        ipv4: p.ipv4,
        ipv6: p.ipv6,
        hostname: p.hostname,
        logical_iface: p.logical_iface,
        subnet: p.subnet,
        last_seen_ms: p.last_seen_ms,
    }
}

/// The devices that are remembered of saved ones: those whose interface exists and whose address
/// can be read.
pub open spec fn imported(
    items: Seq<PersistedView>,
    t: Seq<IfaceInfo>,
) -> Seq<((u32, Seq<u8>), KnownView)>
    decreases items.len(),
{
    if items.len() == 0 {
        Seq::empty()
    } else {
        let rest = imported(items.drop_last(), t);
        let p = items.last();
        match (topology::index_named(t, p.logical_iface), mac::mac_of(p.mac)) {
            (Some(ifindex), Some(m)) => table::assigned(
                rest,
                (ifindex, m),
                recalled(p, ifindex, m),
            ),
            _ => rest,
        }
    }
}

/// Replaces the known devices by saved ones. Those that cannot be placed are left out, so that it
/// never fails.
pub fn import_runtime_state(
    runtime: &mut MonitorRuntime,
    state: MonitorRuntimeState,
    topology: &TopologySnapshot,
) -> (r: Result<(), String>)
    ensures
        r is Ok,
        final(runtime)@ == (RuntimeView {
            registry: imported(sorting::views(state.known_devices@), topology@),
            ..old(runtime)@
        }),
        old(runtime).wf() ==> final(runtime).wf(),
{
    let ghost before = runtime@;
    let ghost was = runtime.wf();
    runtime.device_registry.entries.clear();
    let ghost all = sorting::views(state.known_devices@);
    let ghost given = state.known_devices@;
    assert(all.take(0) =~= Seq::<PersistedView>::empty());
    for item in it: state.known_devices
        invariant
            it.seq() == given,
            all == sorting::views(given),
            runtime@ == (RuntimeView {
                registry: imported(all.take(it.index() as int), topology@),
                ..before
            }),
            was ==> runtime.wf(),
    {
        let ghost i = it.index() as int;
        assert(all.take(i + 1).drop_last() =~= all.take(i));
        assert(all.take(i + 1).last() == item@);
        let found = topology.ifindex_by_name(item.logical_iface.as_str());
        let read = mac::from_str(item.mac.as_str());
        if let (Some(ifindex), Ok(m)) = (found, read) {
            runtime.device_registry.entries.insert(
                (ifindex, m),
                KnownDevice {
                    ifindex,
                    mac: m,
                    ipv4: item.ipv4,
                    ipv6: item.ipv6,
                    hostname: item.hostname,
                    logical_iface: item.logical_iface,
                    subnet: item.subnet,
                    last_seen_ms: item.last_seen_ms,
                },
            );
        }
    }
    assert(all.take(all.len() as int) =~= all);
    Ok(())
}

/// The device that a saved item is about.
spec fn item_id(p: PersistedView, t: Seq<IfaceInfo>) -> Option<(u32, Seq<u8>)> {
    match (topology::index_named(t, p.logical_iface), mac::mac_of(p.mac)) {
        (Some(ifindex), Some(m)) => Some((ifindex, m)),
        _ => None,
    }
}

proof fn lemma_imported_lookup(
    items: Seq<PersistedView>,
    t: Seq<IfaceInfo>,
    k: (u32, Seq<u8>),
    d: KnownView,
)
    requires
        forall|i: int|
            0 <= i < items.len() && item_id(#[trigger] items[i], t) == Some(k) ==> recalled(
                items[i],
                k.0,
                k.1,
            ) == d,
    ensures
        table::lookup(imported(items, t), k) == (if exists|i: int|
            0 <= i < items.len() && item_id(#[trigger] items[i], t) == Some(k) {
            Some(d)
        } else {
            None
        }),
    decreases items.len(),
{
    if items.len() == 0 {
        assert(!table::has_key(imported(items, t), k));
    } else {
        let h = items.drop_last();
        let n = items.len() - 1;
        assert forall|i: int| 0 <= i < h.len() && item_id(#[trigger] h[i], t) == Some(k) implies recalled(
            h[i],
            k.0,
            k.1,
        ) == d by {
            assert(item_id(items[i], t) == Some(k));
        }
        lemma_imported_lookup(h, t, k, d);
        if item_id(items[n], t) is Some {
            let id = item_id(items[n], t).unwrap();
            table::lemma_lookup_assigned(imported(h, t), id, recalled(items[n], id.0, id.1), k);
        }
        if exists|i: int| 0 <= i < h.len() && item_id(#[trigger] h[i], t) == Some(k) {
            let i = choose|i: int| 0 <= i < h.len() && item_id(#[trigger] h[i], t) == Some(k);
            assert(item_id(items[i], t) == Some(k));
        }
        if exists|i: int| 0 <= i < items.len() && item_id(#[trigger] items[i], t) == Some(k) {
            let i = choose|i: int|
                0 <= i < items.len() && item_id(#[trigger] items[i], t) == Some(k);
            if i < n {
                assert(item_id(h[i], t) == Some(k));
            }
        }
    }
}

/// A device that was saved is remembered exactly where the name that it was saved under leads back
/// to its interface; it then bears that name, and is otherwise as it was. This holds of a device
/// unless another one with the same address was saved under a name that leads to that interface.
pub proof fn lemma_saved_device_restored(
    s: Seq<((u32, Seq<u8>), KnownView)>,
    t: Seq<IfaceInfo>,
    k: (u32, Seq<u8>),
)
    requires
        table::distinct(s),
        forall|i: int|
            0 <= i < s.len() ==> {
                let e = #[trigger] s[i];
                &&& e.0.1.len() == 6
                &&& e.1.ifindex == e.0.0
                &&& e.1.mac == e.0.1
            },
        forall|i: int|
            0 <= i < s.len() && (#[trigger] s[i]).0 != k && s[i].0.1 == k.1 ==> topology::index_named(
                t,
                iface_name(s[i].0, s[i].1, t),
            ) != Some(k.0),
    ensures
        table::lookup(imported(exported(s, t), t), k) == (match table::lookup(s, k) {
            Some(d) => if topology::index_named(t, iface_name(k, d, t)) == Some(k.0) {
                Some(KnownView { logical_iface: iface_name(k, d, t), ..d })
            } else {
                None
            },
            None => None,
        }),
{
    let all = persisted_all(s, t);
    let items = exported(s, t);
    assert forall|p: PersistedView| items.contains(p) <==> all.contains(p) by {
        sorting::lemma_sorted_members::<PersistedKnownDevice>(all, p);
    }
    assert forall|i: int| 0 <= i < all.len() && item_id(#[trigger] all[i], t) == Some(k) implies s[i].0
        == k by {
        mac::lemma_mac_round_trip(s[i].0.1);
    }
    let n = table::place_of(s, k);
    let d = KnownView { logical_iface: iface_name(k, s[n].1, t), ..s[n].1 };
    assert forall|i: int|
        0 <= i < items.len() && item_id(#[trigger] items[i], t) == Some(k) implies table::has_key(s, k)
        && items[i] == all[n] && recalled(items[i], k.0, k.1) == d by {
        assert(items.contains(items[i]));
        assert(all.contains(items[i]));
        let j = choose|j: int| 0 <= j < all.len() && all[j] == items[i];
        assert(item_id(all[j], t) == Some(k));
        table::lemma_has_key(s, k, j);
        assert(table::is_place(s, k, n));
        if j < n {
            assert(s[j].0 != s[n].0);
        } else if n < j {
            assert(s[n].0 != s[j].0);
        }
        assert(recalled(all[n], k.0, k.1) =~= d);
    }
    lemma_imported_lookup(items, t, k, d);
    if table::has_key(s, k) {
        assert(table::is_place(s, k, n));
        mac::lemma_mac_round_trip(s[n].0.1);
        assert(all.contains(all[n]));
        assert(items.contains(all[n]));
        let i = choose|i: int| 0 <= i < items.len() && items[i] == all[n];
        assert(item_id(items[i], t) == (if topology::index_named(t, iface_name(k, s[n].1, t)) is Some {
            Some((topology::index_named(t, iface_name(k, s[n].1, t)).unwrap(), k.1))
        } else {
            None
        }));
    }
}

/// Whether every interface has a name of its own.
pub open spec fn names_unique(t: Seq<IfaceInfo>) -> bool {
    forall|i: int|
        0 <= i < t.len() ==> topology::index_named(t, (#[trigger] t[i]).name) == Some(t[i].ifindex)
}

proof fn lemma_with_index_member(t: Seq<IfaceInfo>, ifindex: u32)
    ensures
        topology::with_index(t, ifindex) is Some <==> exists|i: int|
            0 <= i < t.len() && (#[trigger] t[i]).ifindex == ifindex,
        topology::with_index(t, ifindex) is Some ==> t.contains(
            topology::with_index(t, ifindex).unwrap(),
        ) && topology::with_index(t, ifindex).unwrap().ifindex == ifindex,
    decreases t.len(),
{
    if t.len() > 0 {
        let r = t.drop_first();
        lemma_with_index_member(r, ifindex);
        if exists|i: int| 0 <= i < r.len() && (#[trigger] r[i]).ifindex == ifindex {
            let i = choose|i: int| 0 <= i < r.len() && (#[trigger] r[i]).ifindex == ifindex;
            assert(t[i + 1].ifindex == ifindex);
        }
        if t[0].ifindex != ifindex {
            if exists|i: int| 0 <= i < t.len() && (#[trigger] t[i]).ifindex == ifindex {
                let i = choose|i: int| 0 <= i < t.len() && (#[trigger] t[i]).ifindex == ifindex;
                assert(r[i - 1].ifindex == ifindex);
            }
            if topology::with_index(t, ifindex) is Some {
                let x = topology::with_index(r, ifindex).unwrap();
                let i = choose|i: int| 0 <= i < r.len() && r[i] == x;
                assert(t[i + 1] == x);
            }
        } else {
            assert(t.contains(t[0]));
        }
    }
}

proof fn lemma_index_named_member(t: Seq<IfaceInfo>, name: Seq<char>)
    ensures
        match topology::index_named(t, name) {
            Some(n) => exists|i: int| 0 <= i < t.len() && (#[trigger] t[i]).ifindex == n,
            None => true,
        },
    decreases t.len(),
{
    if t.len() > 0 {
        let r = t.drop_first();
        lemma_index_named_member(r, name);
        if t[0].name == name {
            assert(t[0].ifindex == topology::index_named(t, name).unwrap());
        } else if let Some(n) = topology::index_named(r, name) {
            let i = choose|i: int| 0 <= i < r.len() && (#[trigger] r[i]).ifindex == n;
            assert(t[i + 1].ifindex == n);
        }
    }
}

/// Where interfaces have names of their own, every device of an interface that exists is remembered
/// again after it has been saved, and then bears the name of its interface; of an interface that
/// does not exist none is. This holds of a device unless one of an interface that does not exist has
/// the same address and bears the name of that device's interface.
pub proof fn lemma_export_import(
    s: Seq<((u32, Seq<u8>), KnownView)>,
    t: Seq<IfaceInfo>,
    k: (u32, Seq<u8>),
)
    requires
        table::distinct(s),
        names_unique(t),
        forall|i: int|
            0 <= i < s.len() ==> {
                let e = #[trigger] s[i];
                &&& e.0.1.len() == 6
                &&& e.1.ifindex == e.0.0
                &&& e.1.mac == e.0.1
            },
        forall|i: int|
            0 <= i < s.len() && topology::with_index(t, (#[trigger] s[i]).0.0) is None && s[i].0.1
                == k.1 ==> topology::index_named(t, s[i].1.logical_iface) != Some(k.0),
    ensures
        table::lookup(imported(exported(s, t), t), k) == (match table::lookup(s, k) {
            Some(d) => match topology::with_index(t, k.0) {
                Some(x) => Some(KnownView { logical_iface: x.name, ..d }),
                None => None,
            },
            None => None,
        }),
{
    assert forall|ifindex: u32| #[trigger] topology::with_index(t, ifindex) is Some implies
        topology::index_named(t, topology::with_index(t, ifindex).unwrap().name) == Some(ifindex) by {
        lemma_with_index_member(t, ifindex);
        let x = topology::with_index(t, ifindex).unwrap();
        let n = choose|n: int| 0 <= n < t.len() && t[n] == x;
        assert(topology::index_named(t, t[n].name) == Some(t[n].ifindex));
    }
    lemma_saved_device_restored(s, t, k);
    if let Some(d) = table::lookup(s, k) {
        if topology::with_index(t, k.0) is None {
            lemma_with_index_member(t, k.0);
            lemma_index_named_member(t, d.logical_iface);
        }
    }
}

/// Once a device is forgotten, nothing is found of it, and everything else is as it was.
pub proof fn lemma_without_known(r: RuntimeView, ifindex: u32, mac: Seq<u8>, other: (u32, Seq<u8>))
    requires
        table::distinct(r.registry),
        table::distinct(r.cumulative_device),
    ensures
        other == (ifindex, mac) ==> {
            &&& table::lookup(without_known(r, ifindex, mac).registry, other) is None
            &&& table::lookup(without_known(r, ifindex, mac).cumulative_device, other) is None
        },
        other != (ifindex, mac) ==> {
            &&& table::lookup(without_known(r, ifindex, mac).registry, other) == table::lookup(
                r.registry,
                other,
            )
            &&& table::lookup(without_known(r, ifindex, mac).cumulative_device, other)
                == table::lookup(r.cumulative_device, other)
        },
{
    let p = id_test(ifindex, mac);
    if other == (ifindex, mac) {
        lemma_without_lookup_none(r.registry, p, other);
        lemma_without_lookup_none(r.cumulative_device, p, other);
    } else {
        table::lemma_lookup_without(r.registry, p, other);
        table::lemma_lookup_without(r.cumulative_device, p, other);
    }
}

proof fn lemma_without_lookup_none<A, B>(s: Seq<(A, B)>, p: spec_fn(A) -> bool, k: A)
    requires
        p(k),
    ensures
        table::lookup(table::without(s, p), k) is None,
{
    let w = table::without(s, p);
    if table::has_key(w, k) {
        let n = table::place_of(w, k);
        assert(table::is_place(w, k, n));
        table::lemma_without_member(s, p, n);
    }
}

/// The interfaces with an index below `n` that have a total and still exist, in order.
pub open spec fn recovered_below(
    m: Map<u32, CounterQuad>,
    t: Seq<IfaceInfo>,
    n: nat,
) -> Seq<InterfaceView>
    decreases n,
{
    if n == 0 {
        Seq::empty()
    } else {
        let rest = recovered_below(m, t, (n - 1) as nat);
        let k = (n - 1) as u32;
        match topology::with_index(t, k) {
            Some(x) if m.contains_key(k) => rest.push(
                InterfaceView {
                    ifindex: k,
                    ifname: x.name,
                    zone: x.zone,
                    metrics: counters::zero_quad(),
                    cumulative: m[k],
                },
            ),
            _ => rest,
        }
    }
}

/// The interfaces that can be shown before anything is read: those with a total that still exist,
/// in order of their index.
pub open spec fn recovered_ifaces(
    m: Map<u32, CounterQuad>,
    t: Seq<IfaceInfo>,
) -> Seq<InterfaceView> {
    recovered_below(m, t, 0x1_0000_0000)
}

proof fn lemma_recovered_gap(m: Map<u32, CounterQuad>, t: Seq<IfaceInfo>, a: nat, b: nat)
    requires
        a <= b <= 0x1_0000_0000,
        forall|k: u32| a <= k < b ==> !#[trigger] m.contains_key(k),
    ensures
        recovered_below(m, t, a) == recovered_below(m, t, b),
    decreases b,
{
    if a < b {
        assert(!m.contains_key((b - 1) as u32));
        lemma_recovered_gap(m, t, a, (b - 1) as nat);
    }
}

/// A device that was seen before and is not there now.
pub open spec fn offline_device(
    ifindex: u32,
    m: Seq<u8>,
    d: KnownView,
    cumulative: CounterQuad,
) -> DeviceView {
    DeviceView {
        ifindex,
        logical_iface: d.logical_iface,
        subnet: d.subnet,
        ipv4: d.ipv4,
        ipv6: d.ipv6,
        mac: mac::mac_text(m),
        hostname: d.hostname,
        metrics: counters::zero_quad(),
        cumulative,
        online: false,
        last_seen_ms: d.last_seen_ms,
        neighbor_state: None,
    }
}

/// The devices that can be shown before anything is read: all that are known.
pub open spec fn recovered_devices(r: RuntimeView) -> Seq<DeviceView> {
    Seq::new(
        r.registry.len(),
        |i: int|
            offline_device(
                r.registry[i].0.0,
                r.registry[i].0.1,
                r.registry[i].1,
                table::lookup_or(r.cumulative_device, r.registry[i].0, counters::zero_quad()),
            ),
    )
}

/// Shown interfaces are put in order by their index.
impl Ranked for InterfaceOverviewItem {
    open spec fn rank(a: InterfaceView, b: InterfaceView) -> int {
        u32::rank(a.ifindex, b.ifindex)
    }

    fn ranked_against(&self, other: &InterfaceOverviewItem) -> (r: i8) {
        self.ifindex.ranked_against(&other.ifindex)
    }

    proof fn law_flip(a: InterfaceView, b: InterfaceView) {
    }

    proof fn law_chain(a: InterfaceView, b: InterfaceView, c: InterfaceView) {
    }
}

/// The order of devices by interface and addresses.
pub open spec fn place_rank(a: DeviceView, b: DeviceView) -> int {
    if a.logical_iface != b.logical_iface {
        text::text_rank(a.logical_iface, b.logical_iface)
    } else if a.ipv4 != b.ipv4 {
        text::list_rank(a.ipv4, b.ipv4)
    } else {
        text::list_rank(a.ipv6, b.ipv6)
    }
}

/// Swapping two devices changes the sign.
pub proof fn lemma_place_rank_flip(a: DeviceView, b: DeviceView)
    ensures
        place_rank(a, b) == -place_rank(b, a),
        -1 <= place_rank(a, b) <= 1,
        place_rank(a, b) == 0 <==> a.logical_iface == b.logical_iface && a.ipv4 == b.ipv4 && a.ipv6
            == b.ipv6,
{
    text::lemma_text_rank(a.logical_iface, b.logical_iface);
    text::lemma_list_rank(a.ipv4, b.ipv4);
    text::lemma_list_rank(a.ipv6, b.ipv6);
}

/// The order of devices is transitive.
pub proof fn lemma_place_rank_chain(a: DeviceView, b: DeviceView, c: DeviceView)
    requires
        place_rank(a, b) <= 0,
        place_rank(b, c) <= 0,
    ensures
        place_rank(a, c) <= 0,
        place_rank(a, b) < 0 || place_rank(b, c) < 0 ==> place_rank(a, c) < 0,
{
    text::lemma_text_rank(a.logical_iface, b.logical_iface);
    text::lemma_text_rank(b.logical_iface, c.logical_iface);
    text::lemma_text_rank(a.logical_iface, c.logical_iface);
    text::lemma_list_rank(a.ipv4, b.ipv4);
    text::lemma_list_rank(b.ipv4, c.ipv4);
    text::lemma_list_rank(a.ipv4, c.ipv4);
    if a.logical_iface == b.logical_iface && b.logical_iface == c.logical_iface {
        if a.ipv4 == b.ipv4 && b.ipv4 == c.ipv4 {
            text::lemma_list_rank_chain(a.ipv6, b.ipv6, c.ipv6);
        } else if a.ipv4 != b.ipv4 && b.ipv4 != c.ipv4 {
            text::lemma_list_rank_chain(a.ipv4, b.ipv4, c.ipv4);
        }
    } else if a.logical_iface != b.logical_iface && b.logical_iface != c.logical_iface {
        text::lemma_text_rank_chain(a.logical_iface, b.logical_iface, c.logical_iface);
    }
}

/// Which of two devices comes first, by interface and addresses.
pub fn rank_places(a: &DeviceListItem, b: &DeviceListItem) -> (r: i8)
    ensures
        r == place_rank(a@, b@),
{
    proof {
        text::lemma_text_rank(a.logical_iface@, b.logical_iface@);
        text::lemma_list_rank(a@.ipv4, b@.ipv4);
    }
    let r: i8 = text::rank_texts(a.logical_iface.as_str(), b.logical_iface.as_str());
    if r != 0 {
        return r;
    }
    let r: i8 = text::rank_lists(&a.ipv4, &b.ipv4);
    if r != 0 {
        return r;
    }
    text::rank_lists(&a.ipv6, &b.ipv6)
}

/// A device in a list that is ordered by interface, addresses and hardware address.
#[derive(Debug)]
pub struct ByAddress {
    pub item: DeviceListItem,
}

impl View for ByAddress {
    type V = DeviceView;

    open spec fn view(&self) -> DeviceView {
        self.item@
    }
}

impl Ranked for ByAddress {
    open spec fn rank(a: DeviceView, b: DeviceView) -> int {
        if place_rank(a, b) != 0 {
            place_rank(a, b)
        } else {
            text::text_rank(a.mac, b.mac)
        }
    }

    fn ranked_against(&self, other: &ByAddress) -> (r: i8) {
        let r: i8 = rank_places(&self.item, &other.item);
        if r != 0 {
            r
        } else {
            text::rank_texts(self.item.mac.as_str(), other.item.mac.as_str())
        }
    }

    proof fn law_flip(a: DeviceView, b: DeviceView) {
        lemma_place_rank_flip(a, b);
        text::lemma_text_rank(a.mac, b.mac);
    }

    proof fn law_chain(a: DeviceView, b: DeviceView, c: DeviceView) {
        lemma_place_rank_flip(a, b);
        lemma_place_rank_flip(b, c);
        lemma_place_rank_flip(a, c);
        lemma_place_rank_chain(a, b, c);
        if place_rank(a, b) == 0 && place_rank(b, c) == 0 {
            text::lemma_text_rank_chain(a.mac, b.mac, c.mac);
        }
    }
}

/// A device that was seen before and is not there now.
pub fn offline_item(ifindex: u32, m: &[u8; 6], d: &KnownDevice, cumulative: CounterQuad) -> (r:
    DeviceListItem)
    ensures
        r@ == offline_device(ifindex, m@, d@, cumulative),
{
    DeviceListItem {
        ifindex,
        logical_iface: d.logical_iface.clone(),
        subnet: d.subnet.clone(),
        ipv4: lists::copy_texts(&d.ipv4),
        ipv6: lists::copy_texts(&d.ipv6),
        mac: mac::to_string(m),
        hostname: d.hostname.clone(),
        metrics: CounterQuad::default(),
        cumulative,
        online: false,
        last_seen_ms: d.last_seen_ms,
        neighbor_state: None,
    }
}

fn recover_ifaces(runtime: &MonitorRuntime, topology: &TopologySnapshot) -> (r: Vec<
    InterfaceOverviewItem,
>)
    ensures
        sorting::views(r@) == recovered_ifaces(runtime@.cumulative_iface, topology@),
{
    let m = &runtime.cumulative_iface;
    let keys = lists::ascending_keys(m);
    let mut r: Vec<InterfaceOverviewItem> = Vec::new();
    assert(sorting::views(r@) =~= Seq::<InterfaceView>::empty());
    let ghost mut from: nat = 0;
    for i in 0..keys.len()
        invariant
            from <= 0x1_0000_0000,
            lists::lists_keys(keys@, m@),
            forall|j: int| 0 <= j < i ==> #[trigger] keys@[j] < from,
            forall|j: int| i <= j < keys@.len() ==> from <= #[trigger] keys@[j],
            sorting::views(r@) == recovered_below(m@, topology@, from),
    {
        let ifindex: u32 = keys[i];
        proof {
            assert forall|k: u32| from <= k < ifindex implies !#[trigger] m@.contains_key(k) by {
                if m@.contains_key(k) {
                    assert(keys@.contains(k));
                    let j = choose|j: int| 0 <= j < keys@.len() && keys@[j] == k;
                    assert(keys@[j] < keys@[i as int]);
                }
            }
            lemma_recovered_gap(m@, topology@, from, ifindex as nat);
            assert(keys@.contains(ifindex));
        }
        if let Some(x) = topology.by_ifindex(ifindex) {
            let ghost before = sorting::views(r@);
            let item = InterfaceOverviewItem {
                ifindex,
                ifname: x.name.clone(),
                zone: x.zone_name().to_owned(),
                metrics: CounterQuad::default(),
                cumulative: counters::get_quad(m, ifindex),
            };
            r.push(item);
            assert(sorting::views(r@) =~= before.push(item@));
        }
        proof {
            from = (ifindex + 1) as nat;
            assert forall|j: int| i + 1 <= j < keys@.len() implies from <= #[trigger] keys@[j] by {
                assert(keys@[i as int] < keys@[j]);
            }
            assert forall|j: int| 0 <= j < i + 1 implies #[trigger] keys@[j] < from by {
                if j < i {
                    assert(keys@[j] < keys@[i as int]);
                }
            }
        }
    }
    proof {
        assert forall|k: u32| from <= k < 0x1_0000_0000 implies !#[trigger] m@.contains_key(k) by {
            if m@.contains_key(k) {
                assert(keys@.contains(k));
            }
        }
        lemma_recovered_gap(m@, topology@, from, 0x1_0000_0000);
    }
    r
}

fn recover_devices(runtime: &MonitorRuntime) -> (r: Vec<DeviceListItem>)
    ensures
        sorting::views(r@) == sorting::sorted::<ByAddress>(recovered_devices(runtime@)),
{
    let t = &runtime.device_registry.entries;
    let mut all: Vec<ByAddress> = Vec::new();
    let ghost goal = recovered_devices(runtime@);
    let n: usize = t.len();
    for i in 0..n
        invariant
            n == t@.len(),
            t@ == runtime@.registry,
            goal == recovered_devices(runtime@),
            all@.len() == i,
            forall|j: int| 0 <= j < i ==> (#[trigger] all@[j])@ == goal[j],
    {
        let k = t.key_at(i);
        let cumulative = match runtime.cumulative_device.get(k) {
            Some(q) => *q,
            None => CounterQuad::default(),
        };
        let item = offline_item(k.0, &k.1, t.value_at(i), cumulative);
        all.push(ByAddress { item });
    }
    assert(sorting::views(all@) =~= goal);
    let ordered = sorting::sort_ranked(all);
    let mut r: Vec<DeviceListItem> = Vec::new();
    let ghost given = ordered@;
    for x in it: ordered
        invariant
            it.seq() == given,
            r@.len() == it.index(),
            forall|j: int| 0 <= j < r@.len() ==> (#[trigger] r@[j])@ == given[j]@,
    {
        r.push(x.item);
    }
    assert(sorting::views(r@) =~= sorting::views(given));
    r
}

/// What can be shown before anything is read: totals and known devices, none of them online.
pub fn build_recovered_snapshot(
    runtime: &MonitorRuntime,
    topology: &TopologySnapshot,
    now_ms: u64,
) -> (r: SnapshotData)
    ensures
        r@.timestamp_ms == now_ms,
        r@.interfaces == recovered_ifaces(runtime@.cumulative_iface, topology@),
        r@.devices == sorting::sorted::<ByAddress>(recovered_devices(runtime@)),
{
    SnapshotData {
        timestamp_ms: now_ms,
        interfaces: recover_ifaces(runtime, topology),
        devices: recover_devices(runtime),
    }
}

} // verus!
