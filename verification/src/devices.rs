//! Requests that name a device, to rename it or to forget it, and the answers to requests that are
//! carried out elsewhere.

use vstd::prelude::*;

use crate::api;
use crate::api::ApiEnvelope;
use crate::histogram;
use crate::histogram::HistogramHistory;
use crate::history::HistoryView;
use crate::history::TrafficHistory;
use crate::lists;
use crate::mac;
use crate::runtime;
use crate::runtime::KnownDevice;
use crate::runtime::KnownView;
use crate::runtime::MonitorRuntime;
use crate::runtime::RuntimeView;
use crate::snapshot;
use crate::snapshot::DeviceListItem;
use crate::snapshot::DeviceView;
use crate::snapshot::SnapshotData;
use crate::snapshot::SnapshotView;
use crate::sorting;
use crate::sums;
use crate::table;
use crate::text;
use crate::topology;
use crate::topology::IfaceInfo;
use crate::topology::TopologySnapshot;

verus! {

/// A new name for a device.
#[derive(Debug)]
pub struct SetDeviceHostnameRequest {
    pub iface: String,
    pub mac: String,
    pub hostname: String,
}

/// A device to be forgotten.
#[derive(Debug)]
pub struct DeleteDeviceRequest {
    pub iface: String,
    pub mac: String,
}

/// What was forgotten with a device.
#[derive(Debug, Clone, Copy, PartialEq, Eq, Structural)]
pub struct DeleteDeviceResult {
    pub device_state_deleted: bool,
    pub traffic_data_deleted: bool,
    pub rate_limit_configs_deleted: usize,
}

/// A switch to be set.
#[derive(Debug, Clone, Copy, PartialEq, Eq, Structural)]
pub struct SetEnabledRequest {
    pub enabled: bool,
}

/// The device and the name in a request, or what is wrong with it.
pub open spec fn rename_asked(
    req: SetDeviceHostnameRequest,
    t: Seq<IfaceInfo>,
) -> Result<(u32, Seq<u8>, Seq<char>), Seq<char>> {
    let iface = text::trimmed(req.iface@);
    let mac = text::trimmed(req.mac@);
    let hostname = text::trimmed(req.hostname@);
    if iface.len() == 0 {
        Err("iface is required"@)
    } else if mac.len() == 0 {
        Err("mac is required"@)
    } else if hostname.len() == 0 {
        Err("hostname is required"@)
    } else {
        match topology::index_named(t, iface) {
            None => Err("unknown iface: "@ + iface),
            Some(ifindex) => match mac::mac_of(mac) {
                None => Err("invalid mac format"@),
                Some(m) => Ok((ifindex, m, hostname)),
            },
        }
    }
}

/// Reads the device and the name in a request.
pub fn read_rename(req: &SetDeviceHostnameRequest, topology: &TopologySnapshot) -> (r: Result<
    (u32, [u8; 6], String),
    String,
>)
    ensures
        match r {
            Ok((ifindex, m, hostname)) => rename_asked(*req, topology@) == Ok::<
                (u32, Seq<u8>, Seq<char>),
                Seq<char>,
            >((ifindex, m@, hostname@)),
            Err(e) => rename_asked(*req, topology@) == Err::<(u32, Seq<u8>, Seq<char>), Seq<char>>(
                e@,
            ),
        },
{
    let iface = text::trim(req.iface.as_str());
    if iface.is_empty() {
        return Err("iface is required".to_owned());
    }
    let mac = text::trim(req.mac.as_str());
    if mac.is_empty() {
        return Err("mac is required".to_owned());
    }
    let hostname = text::trim(req.hostname.as_str());
    if hostname.is_empty() {
        return Err("hostname is required".to_owned());
    }
    let Some(ifindex) = topology.ifindex_by_name(iface) else {
        return Err(api::unknown_iface(iface));
    };
    match mac::from_str(mac) {
        Ok(m) => Ok((ifindex, m, hostname.to_owned())),
        Err(_) => Err("invalid mac format".to_owned()),
    }
}

/// Whether a shown device is the one with this written address behind this interface, ignoring
/// case.
pub open spec fn is_device(d: DeviceView, ifindex: u32, mac: Seq<char>) -> bool {
    d.ifindex == ifindex && text::same_ignoring_case(d.mac, mac)
}

/// Shown devices with a new name for one of them.
pub open spec fn renamed(
    s: Seq<DeviceView>,
    ifindex: u32,
    mac: Seq<char>,
    hostname: Seq<char>,
) -> Seq<DeviceView> {
    Seq::new(
        s.len(),
        |i: int|
            if is_device(s[i], ifindex, mac) {
                DeviceView { hostname, ..s[i] }
            } else {
                s[i]
            },
    )
}

/// The last shown device with this address behind this interface.
pub open spec fn last_shown(s: Seq<DeviceView>, ifindex: u32, mac: Seq<char>) -> Option<DeviceView>
    decreases s.len(),
{
    if s.len() == 0 {
        None
    } else if is_device(s.last(), ifindex, mac) {
        Some(s.last())
    } else {
        last_shown(s.drop_last(), ifindex, mac)
    }
}

/// What is remembered of a device that is shown and was not known.
pub open spec fn known_from_shown(
    d: DeviceView,
    ifindex: u32,
    m: Seq<u8>,
    hostname: Seq<char>,
    now_ms: u64,
) -> KnownView {
    KnownView {
        ifindex,
        mac: m,
        ipv4: d.ipv4,
        ipv6: d.ipv6,
        hostname,
        logical_iface: d.logical_iface,
        subnet: d.subnet,
        last_seen_ms: now_ms,
    }
}

/// The known devices with a new name for one of them; none where the device is neither known nor
/// shown.
pub open spec fn registry_renamed(
    registry: Seq<((u32, Seq<u8>), KnownView)>,
    shown: Seq<DeviceView>,
    ifindex: u32,
    m: Seq<u8>,
    hostname: Seq<char>,
    now_ms: u64,
) -> Option<Seq<((u32, Seq<u8>), KnownView)>> {
    let k = (ifindex, m);
    match table::lookup(registry, k) {
        Some(d) => Some(table::assigned(registry, k, KnownView { hostname, ..d })),
        None => match last_shown(shown, ifindex, mac::mac_text(m)) {
            Some(d) => Some(
                table::assigned(
                    registry,
                    k,
                    known_from_shown(d, ifindex, m, hostname, now_ms),
                ),
            ),
            None => None,
        },
    }
}

/// Renames a shown device; says where the last one that has the address stands.
fn rename_shown(
    items: &mut Vec<DeviceListItem>,
    ifindex: u32,
    mac: &str,
    hostname: &String,
) -> (r: Option<usize>)
    ensures
        sorting::views(final(items)@) == renamed(
            sorting::views(old(items)@),
            ifindex,
            mac@,
            hostname@,
        ),
        match r {
            Some(i) => i < old(items)@.len() && last_shown(
                sorting::views(old(items)@),
                ifindex,
                mac@,
            ) == Some(old(items)@[i as int]@) && is_device(old(items)@[i as int]@, ifindex, mac@),
            None => last_shown(sorting::views(old(items)@), ifindex, mac@) is None,
        },
{
    let ghost first = items@;
    let ghost all = sorting::views(items@);
    let ghost goal = renamed(all, ifindex, mac@, hostname@);
    let mut found: Option<usize> = None;
    assert(all.take(0) =~= Seq::<DeviceView>::empty());
    let n: usize = items.len();
    for i in 0..n
        invariant
            n == all.len(),
            all == sorting::views(first),
            items@.len() == n,
            goal == renamed(all, ifindex, mac@, hostname@),
            forall|j: int| 0 <= j < i ==> (#[trigger] items@[j])@ == goal[j],
            forall|j: int| i <= j < n ==> (#[trigger] items@[j])@ == all[j],
            match found {
                Some(p) => p < i && last_shown(all.take(i as int), ifindex, mac@) == Some(
                    all[p as int],
                ) && is_device(all[p as int], ifindex, mac@),
                None => last_shown(all.take(i as int), ifindex, mac@) is None,
            },
    {
        assert(all.take(i + 1).drop_last() =~= all.take(i as int));
        assert(items@[i as int]@ == all[i as int]);
        if items[i].ifindex == ifindex && text::eq_ignore_ascii_case(items[i].mac.as_str(), mac) {
            items[i].hostname = hostname.clone();
            found = Some(i);
        }
        assert(items@[i as int]@ == goal[i as int]);
    }
    assert(all.take(all.len() as int) =~= all);
    assert(sorting::views(items@) =~= goal);
    found
}

/// Gives a device a new name, wherever it is shown or known. A device that is shown and not known
/// becomes known. Where it is neither, nothing changes.
pub fn rename_device(
    snapshot: &mut SnapshotData,
    runtime: &mut MonitorRuntime,
    ifindex: u32,
    m: [u8; 6],
    hostname: String,
    now_ms: u64,
) -> (found: bool)
    ensures
        final(snapshot)@ == (SnapshotView {
            devices: renamed(old(snapshot)@.devices, ifindex, mac::mac_text(m@), hostname@),
            ..old(snapshot)@
        }),
        found == (registry_renamed(
            old(runtime)@.registry,
            old(snapshot)@.devices,
            ifindex,
            m@,
            hostname@,
            now_ms,
        ) is Some),
        final(runtime)@ == (RuntimeView {
            registry: match registry_renamed(
                old(runtime)@.registry,
                old(snapshot)@.devices,
                ifindex,
                m@,
                hostname@,
                now_ms,
            ) {
                Some(registry) => registry,
                None => old(runtime)@.registry,
            },
            ..old(runtime)@
        }),
        old(runtime).wf() ==> final(runtime).wf(),
{
    let text = mac::to_string(&m);
    let ghost shown = snapshot@.devices;
    let place = rename_shown(&mut snapshot.devices, ifindex, text.as_str(), &hostname);
    assert(sorting::views(snapshot.devices@).len() == shown.len());
    let k = (ifindex, m);
    let ghost before = runtime@.registry;
    match runtime.device_registry.entries.find(&k) {
        Some(i) => {
            proof {
                if runtime.wf() {
                    table::lemma_assigned_distinct(
                        before,
                        k@,
                        KnownView { hostname: hostname@, ..before[i as int].1 },
                    );
                }
            }
            let d = runtime.device_registry.entries.value_at_mut(i);
            d.hostname = hostname;
            true
        },
        None => match place {
            Some(i) => {
                let d = &snapshot.devices[i];
                assert(sorting::views(snapshot.devices@)[i as int] == d@);
                runtime.device_registry.entries.insert(
                    k,
                    KnownDevice {
                        ifindex,
                        mac: m,
                        ipv4: lists::copy_texts(&d.ipv4),
                        ipv6: lists::copy_texts(&d.ipv6),
                        hostname,
                        logical_iface: d.logical_iface.clone(),
                        subnet: d.subnet.clone(),
                        last_seen_ms: now_ms,
                    },
                );
                true
            },
            None => false,
        },
    }
}

/// Carries out a request for a new name, up to saving the devices: gives back what is wrong with it,
/// if anything.
pub fn set_device_hostname(
    snapshot: &mut SnapshotData,
    runtime: &mut MonitorRuntime,
    topology: &TopologySnapshot,
    req: &SetDeviceHostnameRequest,
    now_ms: u64,
) -> (r: Result<(), String>)
    ensures
        match rename_asked(*req, topology@) {
            Err(e) => api::outcome(r) == Err::<(), Seq<char>>(e) && final(snapshot)@ == old(snapshot)@ && final(runtime)@ == old(runtime)@,
            Ok((ifindex, m, hostname)) => {
                let registry = registry_renamed(
                    old(runtime)@.registry,
                    old(snapshot)@.devices,
                    ifindex,
                    m,
                    hostname,
                    now_ms,
                );
                &&& final(snapshot)@ == (SnapshotView {
                    devices: renamed(
                        old(snapshot)@.devices,
                        ifindex,
                        mac::mac_text(m),
                        hostname,
                    ),
                    ..old(snapshot)@
                })
                &&& match registry {
                    Some(after) => r is Ok && final(runtime)@ == (RuntimeView {
                        registry: after,
                        ..old(runtime)@
                    }),
                    None => api::outcome(r) == Err::<(), Seq<char>>("device not found"@) && final(runtime)@ == old(runtime)@,
                }
            },
        },
        old(runtime).wf() ==> final(runtime).wf(),
{
    let (ifindex, m, hostname) = match read_rename(req, topology) {
        Ok(x) => x,
        Err(e) => {
            return Err(e);
        },
    };
    if rename_device(snapshot, runtime, ifindex, m, hostname, now_ms) {
        Ok(())
    } else {
        Err("device not found".to_owned())
    }
}

/// A prefix and a text.
fn prefixed(prefix: &str, e: &String) -> (r: String)
    ensures
        r@ == prefix@ + e@,
{
    let mut r = prefix.to_owned();
    r.append(e.as_str());
    r
}

/// The error of a step, and that of saving where the step went well.
pub open spec fn step_error(
    step: Result<(), Seq<char>>,
    saved: Result<(), Seq<char>>,
    prefix: Seq<char>,
) -> Option<Seq<char>> {
    match step {
        Err(e) => Some(e),
        Ok(_) => match saved {
            Err(e) => Some(prefix + e),
            Ok(_) => None,
        },
    }
}

/// The answer to a request that is met without data, or not met.
pub open spec fn simple_envelope(r: ApiEnvelope<&'static str>, error: Option<Seq<char>>) -> bool {
    &&& r.ok == (error is None)
    &&& r.data@ == if error is None {
        "ok"@
    } else {
        "error"@
    }
    &&& snapshot::opt_text(r.error) == error
}

fn simple_answer(error: Option<String>) -> (r: ApiEnvelope<&'static str>)
    ensures
        simple_envelope(r, snapshot::opt_text(error)),
{
    match error {
        None => api::ok_reply("ok"),
        Some(e) => api::error_reply("error", e),
    }
}

fn first_error(step: Result<(), String>, saved: Result<(), String>, prefix: &str) -> (r: Option<
    String,
>)
    ensures
        snapshot::opt_text(r) == step_error(api::outcome(step), api::outcome(saved), prefix@),
{
    match step {
        Err(e) => Some(e),
        Ok(_) => match saved {
            Err(e) => Some(prefixed(prefix, &e)),
            Ok(_) => None,
        },
    }
}

/// The answer to a request for a new name, by how it went and whether the devices were saved.
pub fn rename_reply(step: Result<(), String>, saved: Result<(), String>) -> (r: ApiEnvelope<
    &'static str,
>)
    ensures
        simple_envelope(
            r,
            step_error(
                api::outcome(step),
                api::outcome(saved),
                "persist devices state failed: "@,
            ),
        ),
{
    simple_answer(first_error(step, saved, "persist devices state failed: "))
}

/// The answer to a request that changes the policy, by how the change went and whether the policy
/// was saved.
pub fn policy_reply(step: Result<(), String>, saved: Result<(), String>) -> (r: ApiEnvelope<
    &'static str,
>)
    ensures
        simple_envelope(
            r,
            step_error(api::outcome(step), api::outcome(saved), "persist policy failed: "@),
        ),
{
    simple_answer(first_error(step, saved, "persist policy failed: "))
}

/// The status of an answer that was met.
pub const STATUS_OK: u16 = 200;

/// The status of an answer to a request that cannot be met.
pub const STATUS_BAD_REQUEST: u16 = 400;

/// The status of an answer to a request that could not be carried through.
pub const STATUS_INTERNAL: u16 = 500;

/// The answer to a request that makes or changes something, and its status, by how that went and
/// whether the policy was saved. What was not made is answered with a blank.
pub fn change_reply<T>(step: Result<T, String>, saved: Result<(), String>, blank: T) -> (r: (
    u16,
    ApiEnvelope<T>,
))
    ensures
        match (step, saved) {
            (Err(e), _) => r.0 == STATUS_BAD_REQUEST && !r.1.ok && r.1.data == blank
                && snapshot::opt_text(r.1.error) == Some(e@),
            (Ok(_), Err(e)) => r.0 == STATUS_INTERNAL && !r.1.ok && r.1.data == blank
                && snapshot::opt_text(r.1.error) == Some("persist policy failed: "@ + e@),
            (Ok(v), Ok(_)) => r.0 == STATUS_OK && r.1.ok && r.1.data == v && r.1.error is None,
        },
{
    match step {
        Err(e) => (STATUS_BAD_REQUEST, api::error_reply(blank, e)),
        Ok(v) => match saved {
            Err(e) => (
                STATUS_INTERNAL,
                api::error_reply(blank, prefixed("persist policy failed: ", &e)),
            ),
            Ok(_) => (STATUS_OK, api::ok_reply(v)),
        },
    }
}

/// When in a week a schedule holds.
#[derive(Debug)]
pub struct TimeSlot {
    pub start: String,
    pub end: String,
    pub days: Vec<u8>,
}

/// A limit on the rates of a device that holds by a schedule.
#[derive(Debug)]
pub struct ScheduledRule {
    pub id: String,
    pub iface: String,
    pub mac: String,
    pub time_slot: TimeSlot,
    pub down_v4_kbps: u64,
    pub down_v6_kbps: u64,
    pub up_v4_kbps: u64,
    pub up_v6_kbps: u64,
}

/// Whether nothing is filled in.
pub open spec fn is_blank_schedule(x: ScheduledRule) -> bool {
    &&& x.id@ == Seq::<char>::empty()
    &&& x.iface@ == Seq::<char>::empty()
    &&& x.mac@ == Seq::<char>::empty()
    &&& x.time_slot.start@ == Seq::<char>::empty()
    &&& x.time_slot.end@ == Seq::<char>::empty()
    &&& x.time_slot.days@ == Seq::<u8>::empty()
    &&& x.down_v4_kbps == 0
    &&& x.down_v6_kbps == 0
    &&& x.up_v4_kbps == 0
    &&& x.up_v6_kbps == 0
}

/// A schedule with nothing filled in.
pub fn blank_schedule() -> (r: ScheduledRule)
    ensures
        is_blank_schedule(r),
{
    ScheduledRule {
        id: String::new(),
        iface: String::new(),
        mac: String::new(),
        time_slot: TimeSlot { start: String::new(), end: String::new(), days: Vec::new() },
        down_v4_kbps: 0,
        down_v6_kbps: 0,
        up_v4_kbps: 0,
        up_v6_kbps: 0,
    }
}

/// The answer to a request that makes or changes a schedule, and its status, by how that went and
/// whether the policy was saved. Where it did not go through, the answer holds a blank schedule.
pub fn schedule_reply(step: Result<ScheduledRule, String>, saved: Result<(), String>) -> (r: (
    u16,
    ApiEnvelope<ScheduledRule>,
))
    ensures
        match (step, saved) {
            (Err(e), _) => r.0 == STATUS_BAD_REQUEST && !r.1.ok && is_blank_schedule(r.1.data)
                && snapshot::opt_text(r.1.error) == Some(e@),
            (Ok(_), Err(e)) => r.0 == STATUS_INTERNAL && !r.1.ok && is_blank_schedule(r.1.data)
                && snapshot::opt_text(r.1.error) == Some("persist policy failed: "@ + e@),
            (Ok(v), Ok(_)) => r.0 == STATUS_OK && r.1.ok && r.1.data == v && r.1.error is None,
        },
{
    change_reply(step, saved, blank_schedule())
}

/// The device in a request, or what is wrong with it.
pub open spec fn deletion_asked(
    req: DeleteDeviceRequest,
    t: Seq<IfaceInfo>,
) -> Result<(u32, Seq<u8>), Seq<char>> {
    let iface = text::trimmed(req.iface@);
    if iface.len() == 0 {
        Err("iface is required"@)
    } else {
        match mac::mac_of(text::trimmed(req.mac@)) {
            None => Err("invalid mac format"@),
            Some(m) => match topology::index_named(t, iface) {
                None => Err("unknown iface: "@ + iface),
                Some(ifindex) => Ok((ifindex, m)),
            },
        }
    }
}

/// Reads the device in a request.
pub fn read_deletion(req: &DeleteDeviceRequest, topology: &TopologySnapshot) -> (r: Result<
    (u32, [u8; 6]),
    String,
>)
    ensures
        match r {
            Ok((ifindex, m)) => deletion_asked(*req, topology@) == Ok::<
                (u32, Seq<u8>),
                Seq<char>,
            >((ifindex, m@)),
            Err(e) => deletion_asked(*req, topology@) == Err::<(u32, Seq<u8>), Seq<char>>(e@),
        },
{
    let iface = text::trim(req.iface.as_str());
    if iface.is_empty() {
        return Err("iface is required".to_owned());
    }
    let m = match mac::from_str(text::trim(req.mac.as_str())) {
        Ok(m) => m,
        Err(_) => {
            return Err("invalid mac format".to_owned());
        },
    };
    match topology.ifindex_by_name(iface) {
        Some(ifindex) => Ok((ifindex, m)),
        None => Err(api::unknown_iface(iface)),
    }
}

/// The test for shown devices that are not the one with this address, as a function of devices.
pub open spec fn other_test(ifindex: u32, mac: Seq<char>) -> spec_fn(DeviceView) -> bool {
    |d: DeviceView| !is_device(d, ifindex, mac)
}

/// The shown devices without one of them.
pub open spec fn without_shown(
    s: Seq<DeviceView>,
    ifindex: u32,
    mac: Seq<char>,
) -> Seq<DeviceView> {
    lists::picked(s, other_test(ifindex, mac))
}

fn drop_shown(snapshot: &mut SnapshotData, ifindex: u32, mac: &str) -> (removed: bool)
    ensures
        final(snapshot)@ == (SnapshotView {
            devices: without_shown(old(snapshot)@.devices, ifindex, mac@),
            ..old(snapshot)@
        }),
        removed == (last_shown(old(snapshot)@.devices, ifindex, mac@) is Some),
{
    let ghost p = other_test(ifindex, mac@);
    let ghost all = sorting::views(snapshot.devices@);
    let mut items: Vec<DeviceListItem> = Vec::new();
    std::mem::swap(&mut items, &mut snapshot.devices);
    let ghost given = items@;
    let mut removed: bool = false;
    assert(all.take(0) =~= Seq::<DeviceView>::empty());
    assert(sorting::views(snapshot.devices@) =~= Seq::<DeviceView>::empty());
    for d in it: items
        invariant
            it.seq() == given,
            all == sorting::views(given),
            p == other_test(ifindex, mac@),
            snapshot.timestamp_ms == old(snapshot).timestamp_ms,
            snapshot.interfaces == old(snapshot).interfaces,
            sorting::views(snapshot.devices@) == lists::picked(all.take(it.index() as int), p),
            removed == (last_shown(all.take(it.index() as int), ifindex, mac@) is Some),
    {
        let ghost i = it.index() as int;
        proof {
            assert(all.take(i + 1) =~= all.take(i).push(d@));
            lists::lemma_picked_push(all.take(i), d@, p);
            assert(all.take(i + 1).drop_last() =~= all.take(i));
        }
        if d.ifindex == ifindex && text::eq_ignore_ascii_case(d.mac.as_str(), mac) {
            removed = true;
        } else {
            let ghost before = sorting::views(snapshot.devices@);
            snapshot.devices.push(d);
            assert(sorting::views(snapshot.devices@) =~= before.push(d@));
        }
    }
    assert(all.take(all.len() as int) =~= all);
    removed
}

/// What was forgotten of a device, apart from its limits and what is on disk.
#[derive(Debug, Clone, Copy, PartialEq, Eq, Structural)]
pub struct Forgotten {
    pub device_state: bool,
    pub traffic_data: bool,
}

/// Forgets a device, wherever it is shown, known or counted.
pub fn forget_device(
    snapshot: &mut SnapshotData,
    runtime: &mut MonitorRuntime,
    history: &mut TrafficHistory,
    histogram: &mut HistogramHistory,
    ifindex: u32,
    m: [u8; 6],
) -> (r: Forgotten)
    ensures
        final(snapshot)@ == (SnapshotView {
            devices: without_shown(old(snapshot)@.devices, ifindex, mac::mac_text(m@)),
            ..old(snapshot)@
        }),
        final(runtime)@ == runtime::without_known(old(runtime)@, ifindex, m@),
        final(history)@ == (HistoryView {
            devices: table::without(
                old(history)@.devices,
                histogram::device_test(ifindex, mac::mac_text(m@)),
            ),
            ..old(history)@
        }),
        final(histogram)@ == sums::without_device(
            old(histogram)@,
            ifindex,
            mac::mac_text(m@),
        ),
        r.device_state == (last_shown(
            old(snapshot)@.devices,
            ifindex,
            mac::mac_text(m@),
        ) is Some || table::some_key(old(runtime)@.registry, runtime::id_test(ifindex, m@))
            || table::some_key(old(runtime)@.cumulative_device, runtime::id_test(ifindex, m@))
            || table::some_key(
            old(runtime)@.prev_device_bytes,
            runtime::counter_test(ifindex, m@),
        )),
        r.traffic_data == (table::some_key(
            old(history)@.devices,
            histogram::device_test(ifindex, mac::mac_text(m@)),
        ) || table::some_key(
            old(histogram)@.devices.current,
            histogram::device_test(ifindex, mac::mac_text(m@)),
        ) || table::some_key(
            old(histogram)@.devices.completed,
            histogram::device_test(ifindex, mac::mac_text(m@)),
        )),
        old(runtime).wf() ==> final(runtime).wf(),
        old(history).wf() ==> final(history).wf(),
        old(histogram).wf() ==> final(histogram).wf(),
{
    let text = mac::to_string(&m);
    let shown = drop_shown(snapshot, ifindex, text.as_str());
    let known = runtime.remove_device(ifindex, m);
    let recent = history.remove_device(ifindex, text.as_str());
    let kept = histogram.remove_device(ifindex, text.as_str());
    Forgotten { device_state: shown || known, traffic_data: recent || kept }
}

/// What a request to forget a device is answered, by what was wrong with it, what was forgotten,
/// how many limits were, whether traffic on disk was, and whether the rest was saved.
pub open spec fn deletion_error(
    asked: Result<(), Seq<char>>,
    on_disk: Result<bool, Seq<char>>,
    saved: Result<(), Seq<char>>,
) -> Option<Seq<char>> {
    match (asked, on_disk, saved) {
        (Err(e), _, _) => Some(e),
        (_, Err(e), _) => Some("delete device traffic failed: "@ + e),
        (_, _, Err(e)) => Some("persist device deletion failed: "@ + e),
        _ => None,
    }
}

/// The answer to a request to forget a device.
pub fn deletion_reply(
    asked: Result<Forgotten, String>,
    rate_limit_configs_deleted: usize,
    on_disk: Result<bool, String>,
    saved: Result<(), String>,
) -> (r: ApiEnvelope<DeleteDeviceResult>)
    ensures
        snapshot::opt_text(r.error) == deletion_error(
            match asked {
                Ok(_) => Ok(()),
                Err(e) => Err(e@),
            },
            api::outcome(on_disk),
            api::outcome(saved),
        ),
        r.ok == (r.error is None),
        match (asked, on_disk) {
            (Ok(f), Ok(d)) if r.ok => r.data == (DeleteDeviceResult {
                device_state_deleted: f.device_state,
                traffic_data_deleted: f.traffic_data || d,
                rate_limit_configs_deleted,
            }),
            _ => r.data == (DeleteDeviceResult {
                device_state_deleted: false,
                traffic_data_deleted: false,
                rate_limit_configs_deleted: 0,
            }),
        },
{
    let forgotten = match asked {
        Ok(f) => f,
        Err(e) => {
            return delete_device_error(e);
        },
    };
    let disk = match on_disk {
        Ok(d) => d,
        Err(e) => {
            return delete_device_error(prefixed("delete device traffic failed: ", &e));
        },
    };
    if let Err(e) = saved {
        return delete_device_error(prefixed("persist device deletion failed: ", &e));
    }
    api::ok_reply(
        DeleteDeviceResult {
            device_state_deleted: forgotten.device_state,
            traffic_data_deleted: forgotten.traffic_data || disk,
            rate_limit_configs_deleted,
        },
    )
}

/// The answer to a request to forget a device that went wrong.
pub fn delete_device_error(message: String) -> (r: ApiEnvelope<DeleteDeviceResult>)
    ensures
        !r.ok,
        r.data == (DeleteDeviceResult {
            device_state_deleted: false,
            traffic_data_deleted: false,
            rate_limit_configs_deleted: 0,
        }),
        snapshot::opt_text(r.error) == Some(message@),
{
    api::error_reply(
        DeleteDeviceResult {
            device_state_deleted: false,
            traffic_data_deleted: false,
            rate_limit_configs_deleted: 0,
        },
        message,
    )
}

proof fn lemma_last_shown_none(s: Seq<DeviceView>, ifindex: u32, mac: Seq<char>)
    ensures
        last_shown(without_shown(s, ifindex, mac), ifindex, mac) is None,
    decreases s.len(),
{
    if s.len() > 0 {
        lemma_last_shown_none(s.drop_last(), ifindex, mac);
        let t = without_shown(s.drop_last(), ifindex, mac);
        if !is_device(s.last(), ifindex, mac) {
            assert(t.push(s.last()).drop_last() =~= t);
        }
    }
}

/// A device that was forgotten is not shown any more, and cannot be renamed until it is seen again.
pub proof fn lemma_forgotten_device(
    r: RuntimeView,
    s: SnapshotView,
    ifindex: u32,
    m: Seq<u8>,
    hostname: Seq<char>,
    now_ms: u64,
)
    requires
        table::distinct(r.registry),
        table::distinct(r.cumulative_device),
    ensures
        last_shown(
            without_shown(s.devices, ifindex, mac::mac_text(m)),
            ifindex,
            mac::mac_text(m),
        ) is None,
        registry_renamed(
            runtime::without_known(r, ifindex, m).registry,
            without_shown(s.devices, ifindex, mac::mac_text(m)),
            ifindex,
            m,
            hostname,
            now_ms,
        ) is None,
{
    lemma_last_shown_none(s.devices, ifindex, mac::mac_text(m));
    runtime::lemma_without_known(r, ifindex, m, (ifindex, m));
}

/// After a device has been renamed it is known under the new name, and every other known device is
/// as it was.
pub proof fn lemma_renamed(
    registry: Seq<((u32, Seq<u8>), KnownView)>,
    shown: Seq<DeviceView>,
    ifindex: u32,
    m: Seq<u8>,
    hostname: Seq<char>,
    now_ms: u64,
    other: (u32, Seq<u8>),
)
    ensures
        match registry_renamed(registry, shown, ifindex, m, hostname, now_ms) {
            Some(after) => {
                &&& table::lookup(after, (ifindex, m)) is Some
                &&& table::lookup(after, (ifindex, m)).unwrap().hostname == hostname
                &&& other != (ifindex, m) ==> table::lookup(after, other) == table::lookup(
                    registry,
                    other,
                )
            },
            None => table::lookup(registry, (ifindex, m)) is None,
        },
{
    let k = (ifindex, m);
    match table::lookup(registry, k) {
        Some(d) => {
            let v = KnownView { hostname, ..d };
            table::lemma_lookup_assigned(registry, k, v, k);
            table::lemma_lookup_assigned(registry, k, v, other);
        },
        None => {
            if let Some(d) = last_shown(shown, ifindex, mac::mac_text(m)) {
                let v = known_from_shown(d, ifindex, m, hostname, now_ms);
                table::lemma_lookup_assigned(registry, k, v, k);
                table::lemma_lookup_assigned(registry, k, v, other);
            }
        },
    }
}

} // verus!
