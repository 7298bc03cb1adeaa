//! What requests and options mean, and what renaming and forgetting a device do.

use vstd::prelude::*;

use crate::api;
use crate::calendar::PeriodScope;
use crate::command;
use crate::command::ArgumentProblem;
use crate::counters::AggregateBucket;
use crate::counters::HistoryDirection;
use crate::counters::HistoryPoint;
use crate::counters::HistoryTrafficType;
use crate::devices;
use crate::devices::DeleteDeviceRequest;
use crate::devices::SetDeviceHostnameRequest;
use crate::histogram;
use crate::histogram::HistogramView;
use crate::lists;
use crate::mac;
use crate::options;
use crate::options::LogLevel;
use crate::options::OptionsView;
use crate::options::TcBackend;
use crate::options::TcOrder;
use crate::runtime;
use crate::runtime::DeviceCounter;
use crate::runtime::KnownView;
use crate::runtime::RuntimeView;
use crate::snapshot;
use crate::snapshot::DeviceView;
use crate::snapshot::InterfaceView;
use crate::sorting;
use crate::sums;
use crate::table;
use crate::text;
use crate::topology;
use crate::topology::IfaceInfo;
use crate::usage;
use crate::usage::UsageRankingItem;
use crate::usage::UsageRankingQuery;
use crate::usage::UsageView;

verus! {

/// A renamed device bears the new name wherever it is shown, in whatever case its address is written,
/// and is otherwise shown as it was; every other device is shown as it was.
pub proof fn lemma_renamed_shown(
    s: Seq<DeviceView>,
    ifindex: u32,
    mac: Seq<char>,
    hostname: Seq<char>,
    i: int,
)
    requires
        0 <= i < s.len(),
    ensures
        ({
            let x = devices::renamed(s, ifindex, mac, hostname)[i];
            let it = s[i].ifindex == ifindex && text::same_ignoring_case(s[i].mac, mac);
            &&& devices::renamed(s, ifindex, mac, hostname).len() == s.len()
            &&& it ==> x.hostname == hostname
            &&& it ==> x == (DeviceView { hostname: x.hostname, ..s[i] })
            &&& !it ==> x == s[i]
        }),
{
}

/// A known device that is renamed is known as it was but for its name. One that is not known and is
/// shown becomes known as it is shown last, with now as the time it was seen. One that is neither
/// cannot be renamed.
pub proof fn lemma_renamed_known(
    registry: Seq<((u32, Seq<u8>), KnownView)>,
    shown: Seq<DeviceView>,
    ifindex: u32,
    m: Seq<u8>,
    hostname: Seq<char>,
    now_ms: u64,
)
    ensures
        ({
            let after = devices::registry_renamed(registry, shown, ifindex, m, hostname, now_ms);
            let k = (ifindex, m);
            &&& forall|d: KnownView| #[trigger]
                table::lookup(registry, k) == Some(d) ==> after is Some && table::lookup(
                    after.unwrap(),
                    k,
                ) == Some(
                    KnownView {
                        ifindex: d.ifindex,
                        mac: d.mac,
                        ipv4: d.ipv4,
                        ipv6: d.ipv6,
                        hostname,
                        logical_iface: d.logical_iface,
                        subnet: d.subnet,
                        last_seen_ms: d.last_seen_ms,
                    },
                )
            &&& forall|i: int|
                table::lookup(registry, k) is None && 0 <= i < shown.len() && (
                #[trigger] shown[i]).ifindex == ifindex && text::same_ignoring_case(
                    shown[i].mac,
                    mac::mac_text(m),
                ) && (forall|j: int|
                    i < j < shown.len() ==> (#[trigger] shown[j]).ifindex != ifindex
                        || !text::same_ignoring_case(shown[j].mac, mac::mac_text(m))) ==> after
                    is Some && table::lookup(after.unwrap(), k) == Some(
                    KnownView {
                        ifindex,
                        mac: m,
                        ipv4: shown[i].ipv4,
                        ipv6: shown[i].ipv6,
                        hostname,
                        logical_iface: shown[i].logical_iface,
                        subnet: shown[i].subnet,
                        last_seen_ms: now_ms,
                    },
                )
            &&& table::lookup(registry, k) is None && (forall|i: int|
                0 <= i < shown.len() ==> (#[trigger] shown[i]).ifindex != ifindex
                    || !text::same_ignoring_case(shown[i].mac, mac::mac_text(m))) ==> after is None
        }),
{
    let k = (ifindex, m);
    lemma_last_shown(shown, ifindex, mac::mac_text(m));
    match table::lookup(registry, k) {
        Some(d) => {
            table::lemma_lookup_assigned(registry, k, KnownView { hostname, ..d }, k);
        },
        None => {
            if let Some(d) = devices::last_shown(shown, ifindex, mac::mac_text(m)) {
                table::lemma_lookup_assigned(
                    registry,
                    k,
                    devices::known_from_shown(d, ifindex, m, hostname, now_ms),
                    k,
                );
            }
        },
    }
}

proof fn lemma_last_shown(s: Seq<DeviceView>, ifindex: u32, mac: Seq<char>)
    ensures
        forall|i: int|
            0 <= i < s.len() && (#[trigger] s[i]).ifindex == ifindex && text::same_ignoring_case(
                s[i].mac,
                mac,
            ) && (forall|j: int|
                i < j < s.len() ==> (#[trigger] s[j]).ifindex != ifindex
                    || !text::same_ignoring_case(s[j].mac, mac)) ==> devices::last_shown(
                s,
                ifindex,
                mac,
            ) == Some(s[i]),
        devices::last_shown(s, ifindex, mac) is Some <==> exists|i: int|
            0 <= i < s.len() && (#[trigger] s[i]).ifindex == ifindex && text::same_ignoring_case(
                s[i].mac,
                mac,
            ),
    decreases s.len(),
{
    if s.len() > 0 {
        let h = s.drop_last();
        lemma_last_shown(h, ifindex, mac);
        let n = s.len() - 1;
        assert forall|i: int|
            0 <= i < s.len() && (#[trigger] s[i]).ifindex == ifindex && text::same_ignoring_case(
                s[i].mac,
                mac,
            ) && (forall|j: int|
                i < j < s.len() ==> (#[trigger] s[j]).ifindex != ifindex
                    || !text::same_ignoring_case(s[j].mac, mac)) implies devices::last_shown(
            s,
            ifindex,
            mac,
        ) == Some(s[i]) by {
            if i < n {
                assert(s[n].ifindex != ifindex || !text::same_ignoring_case(s[n].mac, mac));
                assert(h[i] == s[i]);
                assert forall|j: int| i < j < h.len() implies (#[trigger] h[j]).ifindex != ifindex
                    || !text::same_ignoring_case(h[j].mac, mac) by {
                    assert(s[j].ifindex != ifindex || !text::same_ignoring_case(s[j].mac, mac));
                }
            }
        }
        if exists|i: int|
            0 <= i < s.len() && (#[trigger] s[i]).ifindex == ifindex && text::same_ignoring_case(
                s[i].mac,
                mac,
            ) {
            let i = choose|i: int|
                0 <= i < s.len() && (#[trigger] s[i]).ifindex == ifindex
                    && text::same_ignoring_case(s[i].mac, mac);
            if i < n {
                assert(h[i].ifindex == ifindex);
            }
        }
        if devices::last_shown(h, ifindex, mac) is Some {
            let i = choose|i: int|
                0 <= i < h.len() && (#[trigger] h[i]).ifindex == ifindex
                    && text::same_ignoring_case(h[i].mac, mac);
            assert(s[i].ifindex == ifindex);
        } else if devices::is_device(s.last(), ifindex, mac) {
            assert(s[n].ifindex == ifindex);
        }
    }
}

/// A request for a new name is understood exactly where interface, address and name are not blank, the
/// interface is one of the topology and the address can be read, all of them without the white space
/// around them. Of several things that are wrong with it, the blank ones are told first, in that order,
/// then the interface.
pub proof fn lemma_rename_asked(req: SetDeviceHostnameRequest, t: Seq<IfaceInfo>)
    ensures
        ({
            let iface = text::trimmed(req.iface@);
            let mac = text::trimmed(req.mac@);
            let hostname = text::trimmed(req.hostname@);
            let asked = devices::rename_asked(req, t);
            let filled = iface.len() > 0 && mac.len() > 0 && hostname.len() > 0;
            let index = topology::index_named(t, iface);
            let bytes = mac::mac_of(mac);
            &&& asked is Ok <==> filled && index is Some && bytes is Some
            &&& asked is Ok ==> asked->Ok_0.0 == index.unwrap()
            &&& asked is Ok ==> asked->Ok_0.1 == bytes.unwrap()
            &&& asked is Ok ==> asked->Ok_0.2 == hostname
            &&& iface.len() == 0 ==> asked->Err_0 == "iface is required"@
            &&& iface.len() > 0 && mac.len() == 0 ==> asked->Err_0 == "mac is required"@
            &&& iface.len() > 0 && mac.len() > 0 && hostname.len() == 0 ==> asked->Err_0
                == "hostname is required"@
            &&& filled && index is None ==> asked->Err_0 == "unknown iface: "@ + iface
            &&& filled && index is Some && bytes is None ==> asked->Err_0 == "invalid mac format"@
        }),
{
}

/// A request to forget a device is understood exactly where the interface is not blank and one of the
/// topology, and the address can be read, both without the white space around them. Of several things
/// that are wrong with it, a blank interface is told first, then the address.
pub proof fn lemma_deletion_asked(req: DeleteDeviceRequest, t: Seq<IfaceInfo>)
    ensures
        ({
            let iface = text::trimmed(req.iface@);
            let bytes = mac::mac_of(text::trimmed(req.mac@));
            let index = topology::index_named(t, iface);
            let asked = devices::deletion_asked(req, t);
            &&& asked is Ok <==> iface.len() > 0 && index is Some && bytes is Some
            &&& asked is Ok ==> asked->Ok_0.0 == index.unwrap()
            &&& asked is Ok ==> asked->Ok_0.1 == bytes.unwrap()
            &&& iface.len() == 0 ==> asked->Err_0 == "iface is required"@
            &&& iface.len() > 0 && bytes is None ==> asked->Err_0 == "invalid mac format"@
            &&& iface.len() > 0 && bytes is Some && index is None ==> asked->Err_0
                == "unknown iface: "@ + iface
        }),
{
}

/// A request is answered with what went wrong with it; where nothing did, with what went wrong with
/// saving, behind a text that says so; and where neither did, with no error.
pub proof fn lemma_errors_told(
    step: Result<(), Seq<char>>,
    saved: Result<(), Seq<char>>,
    prefix: Seq<char>,
    on_disk: Result<bool, Seq<char>>,
)
    ensures
        ({
            let e = devices::step_error(step, saved, prefix);
            &&& step is Err ==> e == Some(step->Err_0)
            &&& step is Ok && saved is Err ==> e == Some(prefix + saved->Err_0)
            &&& step is Ok && saved is Ok ==> e is None
        }),
        ({
            let e = devices::deletion_error(step, on_disk, saved);
            &&& step is Err ==> e == Some(step->Err_0)
            &&& step is Ok && on_disk is Err ==> e == Some(
                "delete device traffic failed: "@ + on_disk->Err_0,
            )
            &&& step is Ok && on_disk is Ok && saved is Err ==> e == Some(
                "persist device deletion failed: "@ + saved->Err_0,
            )
            &&& step is Ok && on_disk is Ok && saved is Ok ==> e is None
        }),
{
}

/// A device that is forgotten is not shown any more, in whatever case its address is written; the
/// others are shown as they were, in the same order.
pub proof fn lemma_forgotten_shown(s: Seq<DeviceView>, ifindex: u32, mac: Seq<char>)
    ensures
        devices::without_shown(s, ifindex, mac) == lists::picked(
            s,
            |d: DeviceView| d.ifindex != ifindex || !text::same_ignoring_case(d.mac, mac),
        ),
        devices::last_shown(s, ifindex, mac) is Some <==> exists|i: int|
            0 <= i < s.len() && (#[trigger] s[i]).ifindex == ifindex && text::same_ignoring_case(
                s[i].mac,
                mac,
            ),
{
    assert(devices::other_test(ifindex, mac) =~= (|d: DeviceView|
        d.ifindex != ifindex || !text::same_ignoring_case(d.mac, mac)));
    lemma_last_shown(s, ifindex, mac);
}

proof fn lemma_removed<B>(
    s: Seq<((u32, Seq<char>), B)>,
    ifindex: u32,
    mac: Seq<char>,
    k: (u32, Seq<char>),
)
    requires
        table::distinct(s),
    ensures
        ({
            let left = table::without(s, histogram::device_test(ifindex, mac));
            let it = k.0 == ifindex && text::same_ignoring_case(k.1, mac);
            &&& it ==> table::lookup(left, k) is None
            &&& !it ==> table::lookup(left, k) == table::lookup(s, k)
        }),
        table::some_key(s, histogram::device_test(ifindex, mac)) <==> exists|i: int|
            0 <= i < s.len() && (#[trigger] s[i]).0.0 == ifindex && text::same_ignoring_case(
                s[i].0.1,
                mac,
            ),
{
    let p = histogram::device_test(ifindex, mac);
    if k.0 == ifindex && text::same_ignoring_case(k.1, mac) {
        let w = table::without(s, p);
        if table::has_key(w, k) {
            let n = table::place_of(w, k);
            assert(table::is_place(w, k, n));
            table::lemma_without_member(s, p, n);
        }
    } else {
        table::lemma_lookup_without(s, p, k);
    }
    if exists|i: int|
        0 <= i < s.len() && (#[trigger] s[i]).0.0 == ifindex && text::same_ignoring_case(
            s[i].0.1,
            mac,
        ) {
        let i = choose|i: int|
            0 <= i < s.len() && (#[trigger] s[i]).0.0 == ifindex && text::same_ignoring_case(
                s[i].0.1,
                mac,
            );
        assert(p(s[i].0));
    }
}

/// A device that is forgotten has no samples left behind that interface, in whatever case its address
/// is written; the others keep theirs. It is told whether there were any.
pub proof fn lemma_forgotten_samples(
    s: Seq<((u32, Seq<char>), Seq<HistoryPoint>)>,
    ifindex: u32,
    mac: Seq<char>,
    k: (u32, Seq<char>),
)
    requires
        table::distinct(s),
    ensures
        ({
            let left = table::without(s, histogram::device_test(ifindex, mac));
            let it = k.0 == ifindex && text::same_ignoring_case(k.1, mac);
            &&& it ==> table::lookup(left, k) is None
            &&& !it ==> table::lookup(left, k) == table::lookup(s, k)
        }),
        table::some_key(s, histogram::device_test(ifindex, mac)) <==> exists|i: int|
            0 <= i < s.len() && (#[trigger] s[i]).0.0 == ifindex && text::same_ignoring_case(
                s[i].0.1,
                mac,
            ),
{
    lemma_removed(s, ifindex, mac, k);
}

/// A device that is forgotten has no hours left behind that interface, in whatever case its address is
/// written; the others, and the interfaces, keep theirs. It is told whether there were any.
pub proof fn lemma_forgotten_hours(
    h: HistogramView,
    ifindex: u32,
    mac: Seq<char>,
    k: (u32, Seq<char>),
)
    requires
        table::distinct(h.devices.current),
        table::distinct(h.devices.completed),
    ensures
        ({
            let left = sums::without_device(h, ifindex, mac);
            let it = k.0 == ifindex && text::same_ignoring_case(k.1, mac);
            &&& left.ifaces == h.ifaces
            &&& it ==> table::lookup(left.devices.current, k) is None && table::lookup(
                left.devices.completed,
                k,
            ) is None
            &&& !it ==> table::lookup(left.devices.current, k) == table::lookup(
                h.devices.current,
                k,
            ) && table::lookup(left.devices.completed, k) == table::lookup(h.devices.completed, k)
        }),
        table::some_key(h.devices.current, histogram::device_test(ifindex, mac)) <==> exists|i: int|
            0 <= i < h.devices.current.len() && (#[trigger] h.devices.current[i]).0.0 == ifindex
                && text::same_ignoring_case(h.devices.current[i].0.1, mac),
        table::some_key(h.devices.completed, histogram::device_test(ifindex, mac)) <==> exists|
            i: int,
        |
            0 <= i < h.devices.completed.len() && (#[trigger] h.devices.completed[i]).0.0 == ifindex
                && text::same_ignoring_case(h.devices.completed[i].0.1, mac),
{
    lemma_removed(h.devices.current, ifindex, mac, k);
    lemma_removed(h.devices.completed, ifindex, mac, k);
}

/// It is told whether anything was known of a device that is forgotten: the device itself, its totals,
/// or a counter of it.
pub proof fn lemma_forgotten_told(r: RuntimeView, ifindex: u32, m: Seq<u8>)
    ensures
        table::some_key(r.registry, runtime::id_test(ifindex, m)) <==> exists|i: int|
            0 <= i < r.registry.len() && (#[trigger] r.registry[i]).0.0 == ifindex
                && r.registry[i].0.1 == m,
        table::some_key(r.cumulative_device, runtime::id_test(ifindex, m)) <==> exists|i: int|
            0 <= i < r.cumulative_device.len() && (#[trigger] r.cumulative_device[i]).0.0 == ifindex
                && r.cumulative_device[i].0.1 == m,
        table::some_key(r.prev_device_bytes, runtime::counter_test(ifindex, m)) <==> exists|i: int|
            0 <= i < r.prev_device_bytes.len() && (#[trigger] r.prev_device_bytes[i]).0.ifindex
                == ifindex && r.prev_device_bytes[i].0.mac == m,
{
    let p = runtime::id_test(ifindex, m);
    let q = runtime::counter_test(ifindex, m);
    assert forall|k: (u32, Seq<u8>)| #[trigger] p(k) <==> k.0 == ifindex && k.1 == m by {}
    assert forall|k: DeviceCounter| #[trigger] q(k) <==> k.ifindex == ifindex && k.mac == m by {}
    if exists|i: int|
        0 <= i < r.registry.len() && (#[trigger] r.registry[i]).0.0 == ifindex && r.registry[i].0.1
            == m {
        let i = choose|i: int|
            0 <= i < r.registry.len() && (#[trigger] r.registry[i]).0.0 == ifindex
                && r.registry[i].0.1 == m;
        assert(p(r.registry[i].0));
    }
    let c = r.cumulative_device;
    if exists|i: int| 0 <= i < c.len() && (#[trigger] c[i]).0.0 == ifindex && c[i].0.1 == m {
        let i = choose|i: int|
            0 <= i < c.len() && (#[trigger] c[i]).0.0 == ifindex && c[i].0.1 == m;
        assert(p(c[i].0));
    }
    let b = r.prev_device_bytes;
    if exists|i: int| 0 <= i < b.len() && (#[trigger] b[i]).0.ifindex == ifindex && b[i].0.mac == m {
        let i = choose|i: int|
            0 <= i < b.len() && (#[trigger] b[i]).0.ifindex == ifindex && b[i].0.mac == m;
        assert(q(b[i].0));
    }
}

/// A request that names an interface is answered with the devices behind it, in the order in which
/// they are shown; one that names none, or an empty name, with all.
pub proof fn lemma_devices_behind(s: Seq<DeviceView>, iface: Option<Seq<char>>)
    ensures
        iface is None || iface.unwrap().len() == 0 ==> api::behind(s, iface) == s,
        iface is Some && iface.unwrap().len() > 0 ==> api::behind(s, iface) == lists::picked(
            s,
            |d: DeviceView| d.logical_iface == iface.unwrap(),
        ),
{
    if iface is None || iface.unwrap().len() == 0 {
        lists::lemma_picked_all(s, api::behind_test(iface));
    } else {
        assert(api::behind_test(iface) =~= (|d: DeviceView| d.logical_iface == iface.unwrap()));
    }
}

/// The name of an interface in a request leads, without the white space around it, to the index of
/// the first interface of the topology that bears it; where none does, to that of the first interface
/// shown under it. A blank name, and one that no interface has, are told as such.
pub proof fn lemma_iface_resolved(
    t: Seq<IfaceInfo>,
    s: Seq<InterfaceView>,
    iface: Option<Seq<char>>,
)
    ensures
        ({
            let r = api::resolved(t, s, iface);
            let name = text::trimmed(iface.unwrap());
            let given = iface is Some && name.len() > 0;
            let unknown = forall|e: int| 0 <= e < t.len() ==> (#[trigger] t[e]).name != name;
            &&& !given ==> r == Err::<u32, Seq<char>>("iface is required"@)
            &&& forall|e: int|
                given && 0 <= e < t.len() && (#[trigger] t[e]).name == name && (forall|f: int|
                    0 <= f < e ==> (#[trigger] t[f]).name != name) ==> r == Ok::<u32, Seq<char>>(
                    t[e].ifindex,
                )
            &&& forall|i: int|
                given && unknown && 0 <= i < s.len() && (#[trigger] s[i]).ifname == name && (forall|
                    j: int,
                |
                    0 <= j < i ==> (#[trigger] s[j]).ifname != name) ==> r == Ok::<u32, Seq<char>>(
                    s[i].ifindex,
                )
            &&& given && unknown && (forall|i: int|
                0 <= i < s.len() ==> (#[trigger] s[i]).ifname != name) ==> r == Err::<
                u32,
                Seq<char>,
            >("unknown iface: "@ + name)
        }),
{
    if iface is Some {
        let name = text::trimmed(iface.unwrap());
        crate::saved::lemma_topology_found(t, 0, name);
        lemma_shown_index(s, name);
    }
}

proof fn lemma_shown_index(s: Seq<InterfaceView>, name: Seq<char>)
    ensures
        forall|i: int|
            0 <= i < s.len() && (#[trigger] s[i]).ifname == name && (forall|j: int|
                0 <= j < i ==> (#[trigger] s[j]).ifname != name) ==> api::shown_index(s, name)
                == Some(s[i].ifindex),
        (forall|i: int| 0 <= i < s.len() ==> (#[trigger] s[i]).ifname != name)
            ==> api::shown_index(s, name) is None,
    decreases s.len(),
{
    if s.len() > 0 {
        let r = s.drop_first();
        lemma_shown_index(r, name);
        assert forall|i: int|
            0 <= i < s.len() && (#[trigger] s[i]).ifname == name && (forall|j: int|
                0 <= j < i ==> (#[trigger] s[j]).ifname != name) implies api::shown_index(s, name)
            == Some(s[i].ifindex) by {
            if i > 0 {
                assert(s[0].ifname != name);
                assert(r[i - 1] == s[i]);
                assert forall|j: int| 0 <= j < i - 1 implies (#[trigger] r[j]).ifname != name by {
                    assert(s[j + 1].ifname != name);
                }
            }
        }
        if forall|i: int| 0 <= i < s.len() ==> (#[trigger] s[i]).ifname != name {
            assert(s[0].ifname != name);
            assert forall|i: int| 0 <= i < r.len() implies (#[trigger] r[i]).ifname != name by {
                assert(s[i + 1].ifname != name);
            }
        }
    }
}

proof fn lemma_lower_is(s: Seq<char>, word: Seq<char>)
    requires
        text::ascii_lower(word) == word,
    ensures
        text::ascii_lower(s) == word <==> text::same_ignoring_case(s, word),
{
    text::lemma_same_lower(s, word);
}

/// The words `ipv4` and `ipv6` name an IP family, whatever their case; nothing else does.
pub proof fn lemma_type_words(s: Seq<char>)
    ensures
        api::type_named(Some(s)) == HistoryTrafficType::Ipv4 <==> text::same_ignoring_case(
            s,
            "ipv4"@,
        ),
        api::type_named(Some(s)) == HistoryTrafficType::Ipv6 <==> text::same_ignoring_case(
            s,
            "ipv6"@,
        ),
        api::type_named(None) == HistoryTrafficType::All,
{
    reveal_strlit("ipv4");
    reveal_strlit("ipv6");
    assert(text::ascii_lower("ipv4"@) =~= "ipv4"@);
    assert(text::ascii_lower("ipv6"@) =~= "ipv6"@);
    assert("ipv4"@[3] != "ipv6"@[3]);
    lemma_lower_is(s, "ipv4"@);
    lemma_lower_is(s, "ipv6"@);
}

/// The words `up` and `down` name a direction, whatever their case; nothing else does.
pub proof fn lemma_direction_words(s: Seq<char>)
    ensures
        api::direction_named(Some(s)) == HistoryDirection::Up <==> text::same_ignoring_case(
            s,
            "up"@,
        ),
        api::direction_named(Some(s)) == HistoryDirection::Down <==> text::same_ignoring_case(
            s,
            "down"@,
        ),
        api::direction_named(None) == HistoryDirection::Both,
{
    reveal_strlit("up");
    reveal_strlit("down");
    assert(text::ascii_lower("up"@) =~= "up"@);
    assert(text::ascii_lower("down"@) =~= "down"@);
    assert("up"@.len() != "down"@.len());
    lemma_lower_is(s, "up"@);
    lemma_lower_is(s, "down"@);
}

/// The word `daily` names days, whatever its case; everything else names hours.
pub proof fn lemma_bucket_words(s: Seq<char>)
    ensures
        api::bucket_named(Some(s)) == AggregateBucket::Daily <==> text::same_ignoring_case(
            s,
            "daily"@,
        ),
        api::bucket_named(None) == AggregateBucket::Hourly,
{
    reveal_strlit("daily");
    assert(text::ascii_lower("daily"@) =~= "daily"@);
    lemma_lower_is(s, "daily"@);
}

/// The words `today`, `week`, `month` and `year` name a period, whatever their case and the white
/// space around them. No word, a blank one and `all` name none, and any other is refused.
pub proof fn lemma_period_words(raw: Seq<char>)
    ensures
        ({
            let s = text::trimmed(raw);
            let r = api::period_named(Some(raw));
            &&& r == Ok::<Option<PeriodScope>, Seq<char>>(Some(PeriodScope::Today))
                <==> text::same_ignoring_case(s, "today"@)
            &&& r == Ok::<Option<PeriodScope>, Seq<char>>(Some(PeriodScope::Week))
                <==> text::same_ignoring_case(s, "week"@)
            &&& r == Ok::<Option<PeriodScope>, Seq<char>>(Some(PeriodScope::Month))
                <==> text::same_ignoring_case(s, "month"@)
            &&& r == Ok::<Option<PeriodScope>, Seq<char>>(Some(PeriodScope::Year))
                <==> text::same_ignoring_case(s, "year"@)
            &&& r == Ok::<Option<PeriodScope>, Seq<char>>(None) <==> s.len() == 0
                || text::same_ignoring_case(s, "all"@)
        }),
        api::period_named(None) == Ok::<Option<PeriodScope>, Seq<char>>(None),
{
    let s = text::trimmed(raw);
    reveal_strlit("all");
    reveal_strlit("today");
    reveal_strlit("week");
    reveal_strlit("month");
    reveal_strlit("year");
    assert(text::ascii_lower("all"@) =~= "all"@);
    assert(text::ascii_lower("today"@) =~= "today"@);
    assert(text::ascii_lower("week"@) =~= "week"@);
    assert(text::ascii_lower("month"@) =~= "month"@);
    assert(text::ascii_lower("year"@) =~= "year"@);
    assert("all"@[0] == 'a' && "today"@[0] == 't' && "week"@[0] == 'w' && "month"@[0] == 'm'
        && "year"@[0] == 'y');
    lemma_lower_is(s, "all"@);
    lemma_lower_is(s, "today"@);
    lemma_lower_is(s, "week"@);
    lemma_lower_is(s, "month"@);
    lemma_lower_is(s, "year"@);
}

/// Each order, backend and level is named by its own word in small letters, and by no other.
pub proof fn lemma_option_words(s: Seq<char>)
    ensures
        options::order_named(s) == Some(TcOrder::First) <==> s == "first"@,
        options::order_named(s) == Some(TcOrder::Default) <==> s == "default"@,
        options::order_named(s) == Some(TcOrder::Last) <==> s == "last"@,
        options::order_named(s) == Some(TcOrder::Before) <==> s == "before"@,
        options::order_named(s) == Some(TcOrder::After) <==> s == "after"@,
        options::backend_named(s) == Some(TcBackend::Auto) <==> s == "auto"@,
        options::backend_named(s) == Some(TcBackend::Tcx) <==> s == "tcx"@,
        options::backend_named(s) == Some(TcBackend::Netlink) <==> s == "netlink"@,
        options::level_named(s) == Some(LogLevel::Trace) <==> s == "trace"@,
        options::level_named(s) == Some(LogLevel::Debug) <==> s == "debug"@,
        options::level_named(s) == Some(LogLevel::Info) <==> s == "info"@,
        options::level_named(s) == Some(LogLevel::Warn) <==> s == "warn"@,
        options::level_named(s) == Some(LogLevel::Error) <==> s == "error"@,
{
    reveal_strlit("first");
    reveal_strlit("default");
    reveal_strlit("last");
    reveal_strlit("before");
    reveal_strlit("after");
    assert("first"@[0] == 'f' && "default"@[0] == 'd' && "last"@[0] == 'l' && "before"@[0] == 'b'
        && "after"@[0] == 'a');
    reveal_strlit("auto");
    reveal_strlit("tcx");
    reveal_strlit("netlink");
    assert("auto"@[0] == 'a' && "tcx"@[0] == 't' && "netlink"@[0] == 'n');
    reveal_strlit("trace");
    reveal_strlit("debug");
    reveal_strlit("info");
    reveal_strlit("warn");
    reveal_strlit("error");
    assert("trace"@[0] == 't' && "debug"@[0] == 'd' && "info"@[0] == 'i' && "warn"@[0] == 'w'
        && "error"@[0] == 'e');
}

/// Options are refused for the first thing that is wrong with them. Where traffic is measured, an
/// interface is needed that can be used, an order and a backend that are known, no priority with `tcx`,
/// an anchor exactly where the order is relative to one, and no `netlink` then. A host is needed in any
/// case.
pub proof fn lemma_options_checked(
    o: OptionsView,
    rejected: Option<Seq<char>>,
    order: Option<TcOrder>,
    backend: Option<TcBackend>,
)
    ensures
        ({
            let p = command::argument_problem(o, rejected, order, backend);
            let relative = order == Some(TcOrder::Before) || order == Some(TcOrder::After);
            let anchored = o.tcx_anchor_ingress_id is Some || o.tcx_anchor_egress_id is Some;
            let usable = o.iface.len() > 0 && rejected is None;
            let named = order is Some && backend is Some;
            let clash = o.netlink_priority is Some && backend == Some(TcBackend::Tcx);
            let fits = usable && named && !clash;
            let on = o.enable_traffic;
            let host = text::trimmed(o.host).len() > 0;
            &&& p is None <==> host && (on ==> fits && relative == anchored && !(relative && backend
                == Some(TcBackend::Netlink)))
            &&& p == Some(ArgumentProblem::IfaceRequired) <==> on && o.iface.len() == 0
            &&& on && o.iface.len() > 0 && rejected is Some ==> p == Some(
                ArgumentProblem::IfaceRejected(rejected.unwrap()),
            )
            &&& on && usable && order is None ==> p == Some(
                ArgumentProblem::InvalidTcOrder(o.tc_order),
            )
            &&& on && usable && order is Some && backend is None ==> p == Some(
                ArgumentProblem::InvalidTcBackend(o.tc_backend),
            )
            &&& on && usable && named && clash ==> p == Some(ArgumentProblem::PriorityWithTcx)
            &&& on && fits && relative && !anchored ==> p == Some(ArgumentProblem::AnchorRequired)
            &&& on && fits && relative && anchored && backend == Some(TcBackend::Netlink) ==> p
                == Some(ArgumentProblem::OrderNeedsTcx)
            &&& on && fits && !relative && anchored ==> p == Some(
                ArgumentProblem::AnchorWithoutOrder,
            )
            &&& !host && (on ==> fits && relative == anchored && !(relative && backend == Some(
                TcBackend::Netlink,
            ))) ==> p == Some(ArgumentProblem::EmptyHost)
        }),
{
}

/// The program runs with the level that was named, and serves exactly where traffic is measured. A
/// problem with the options is told before a level that is not known.
pub proof fn lemma_run_planned(
    o: OptionsView,
    problem: Option<ArgumentProblem>,
    level: Option<LogLevel>,
)
    ensures
        ({
            let r = command::run_plan(o, problem, level);
            &&& r is Ok <==> problem is None && level is Some
            &&& r is Ok ==> r->Ok_0.log_level == level.unwrap() && r->Ok_0.serve == o.enable_traffic
            &&& problem is Some ==> r->Err_0 == problem.unwrap()
            &&& problem is None && level is None ==> r->Err_0 == ArgumentProblem::InvalidLogLevel(
                o.log_level,
            )
        }),
{
}

/// It is time to save again a minute after the last saving, and a saving counts only where everything
/// was saved.
pub proof fn lemma_savings(now_ms: u64, last_ms: u64, a: bool, b: bool)
    ensures
        command::interval_over(now_ms, last_ms) <==> now_ms >= last_ms + 60 * 1000,
        a && b ==> command::last_saved(now_ms, last_ms, a, b) == now_ms,
        !a || !b ==> command::last_saved(now_ms, last_ms, a, b) == last_ms,
{
}

/// A ranking is answered exactly where the name of an interface is given that leads to one, and the
/// times asked for do not end before they begin. It bears the name as it was given.
pub proof fn lemma_ranking_understood(
    t: Seq<IfaceInfo>,
    s: Seq<InterfaceView>,
    q: UsageRankingQuery,
    now_ms: u64,
)
    ensures
        ({
            let asked = usage::ranking_asked(t, s, q, now_ms);
            let index = api::resolved(t, s, snapshot::opt_text(q.iface));
            let range = usage::ranked_range(q.start_ms, q.end_ms, now_ms);
            &&& asked is Some <==> index is Ok && range.0 <= range.1
            &&& asked is Some ==> Some(asked.unwrap().0) == snapshot::opt_text(q.iface)
            &&& asked is Some ==> asked.unwrap().1 == index->Ok_0
            &&& asked is Some ==> asked.unwrap().2 == range
        }),
{
}

/// Of the devices that carried as much, the one whose address comes first is ranked first.
pub proof fn lemma_ranked_ties(s: Seq<UsageView>, i: int, j: int)
    requires
        0 <= i < j < s.len(),
    ensures
        ({
            let r = sorting::sorted::<UsageRankingItem>(s);
            &&& r.len() == s.len()
            &&& r[i].total_bytes > r[j].total_bytes || r[i].total_bytes == r[j].total_bytes
                && text::text_rank(r[i].mac, r[j].mac) <= 0
        }),
{
    let r = sorting::sorted::<UsageRankingItem>(s);
    sorting::lemma_sorted::<UsageRankingItem>(s);
    s.to_multiset_ensures();
    r.to_multiset_ensures();
    assert(<UsageRankingItem as sorting::Ranked>::rank(r[i], r[j]) <= 0);
}

/// In the beginning nothing is known, nothing was counted and no hour is kept.
pub proof fn lemma_beginning()
    ensures
        ({
            let r = runtime::nothing_known();
            &&& r.registry.len() == 0
            &&& r.prev_iface_bytes.len() == 0
            &&& r.prev_device_bytes.len() == 0
            &&& r.cumulative_device.len() == 0
            &&& r.cumulative_iface =~= Map::empty()
            &&& r.last_snapshot_ms is None
        }),
        ({
            let h = histogram::no_hours();
            &&& h.ifaces.current.len() == 0
            &&& h.ifaces.completed.len() == 0
            &&& h.devices.current.len() == 0
            &&& h.devices.completed.len() == 0
        }),
{
}

} // verus!
