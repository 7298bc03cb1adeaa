use bandix_plus::collect::{
    collect_snapshot, fill_quad, pick_best_neighbor_state, rate_of, Neighbor, Readings, EGRESS,
    INGRESS, IP_V4, IP_V6,
};
use bandix_plus::counters::CounterQuad;
use bandix_plus::runtime::{DeviceTrafficKey, InterfaceTrafficKey, MonitorRuntime};
use bandix_plus::snapshot::SnapshotData;
use bandix_plus::topology::{Interface, TopologySnapshot};

const PHONE: [u8; 6] = [0xaa, 0, 0, 0, 0, 1];
const LAPTOP: [u8; 6] = [0xaa, 0, 0, 0, 0, 2];

fn topology() -> TopologySnapshot {
    TopologySnapshot::from_interfaces(vec![
        Interface {
            ifindex: 1,
            name: "br-lan".to_string(),
            zone: "lan".to_string(),
            parent_ifindex: None,
            ipv4_cidrs: vec!["10.0.0.1/8".to_string(), "192.168.1.1/24".to_string()],
            ipv6_cidrs: vec!["fd00::1/64".to_string()],
        },
        Interface {
            ifindex: 2,
            name: "guest".to_string(),
            zone: "guest".to_string(),
            parent_ifindex: None,
            ipv4_cidrs: vec![],
            ipv6_cidrs: vec!["fd01::1/64".to_string()],
        },
    ])
}

fn neighbor(dev: &str, mac: [u8; 6], ip: &str, state: &str) -> Neighbor {
    Neighbor { dev: dev.to_string(), mac, ip: ip.to_string(), state: state.to_string() }
}

fn iface_key(ifindex: u32, ip_version: u8, direction: u8) -> InterfaceTrafficKey {
    InterfaceTrafficKey { ifindex, ip_version, direction }
}

fn device_key(mac: [u8; 6], ip_version: u8, direction: u8) -> DeviceTrafficKey {
    DeviceTrafficKey { ifindex: 1, mac, ip_version, direction }
}

fn readings(phone_up: u64) -> Readings {
    Readings {
        iface_stats: vec![
            (iface_key(1, IP_V4, INGRESS), phone_up),
            (iface_key(1, IP_V6, EGRESS), 40),
            (iface_key(5, IP_V4, INGRESS), 999),
        ],
        device_stats: vec![
            (device_key(PHONE, IP_V4, INGRESS), phone_up),
            (device_key(LAPTOP, IP_V4, INGRESS), 7),
        ],
        ifindexes: vec![("br-lan".to_string(), 1), ("guest".to_string(), 2)],
        neighbors: vec![
            neighbor("br-lan", PHONE, "192.168.1.7", "STALE"),
            neighbor("br-lan", PHONE, "fe80::7", "REACHABLE"),
            neighbor("br-lan", PHONE, "192.168.1.7", "DELAY"),
            neighbor("br-lan", LAPTOP, "fe80::8", "REACHABLE"),
            neighbor("tun0", LAPTOP, "10.0.0.8", "REACHABLE"),
        ],
        hostnames: vec![(PHONE, "phone".to_string())],
    }
}

fn collect(
    readings: &Readings,
    runtime: &mut MonitorRuntime,
    now_ms: u64,
    monitored: &[&str],
) -> SnapshotData {
    let elapsed = runtime.begin_reading(now_ms, 1000);
    let names: Vec<String> = monitored.iter().map(|s| s.to_string()).collect();
    collect_snapshot(readings, &topology(), runtime, now_ms, elapsed, &names)
}

#[test]
fn rates_are_bits_per_second() {
    assert_eq!(rate_of(1000, 1000), 8000);
    assert_eq!(rate_of(1, 3000), 3);
    assert_eq!(rate_of(1, 16_000), 1);
    assert_eq!(rate_of(1, 16_001), 0);
    assert_eq!(rate_of(u64::MAX, 1), u64::MAX);
}

#[test]
fn quads_are_filled_by_family_and_direction() {
    let mut q = CounterQuad::default();
    fill_quad(4, 0, &mut q, 1, 1000);
    fill_quad(4, 1, &mut q, 2, 1000);
    fill_quad(6, 0, &mut q, 3, 1000);
    fill_quad(6, 1, &mut q, 4, 1000);
    fill_quad(5, 0, &mut q, 100, 1000);
    fill_quad(4, 2, &mut q, 100, 1000);
    assert_eq!(
        q,
        CounterQuad {
            up_v4_bps: 8,
            down_v4_bps: 16,
            up_v6_bps: 24,
            down_v6_bps: 32,
            up_v4_bytes: 1,
            down_v4_bytes: 2,
            up_v6_bytes: 3,
            down_v6_bytes: 4,
        }
    );
}

#[test]
fn surer_states_win() {
    assert_eq!(pick_best_neighbor_state("", "FAILED"), "FAILED");
    assert_eq!(pick_best_neighbor_state("STALE", "REACHABLE"), "REACHABLE");
    assert_eq!(pick_best_neighbor_state("REACHABLE", "STALE"), "REACHABLE");
    assert_eq!(pick_best_neighbor_state("PROBE", "DELAY"), "DELAY");
    assert_eq!(pick_best_neighbor_state("FAILED", "INCOMPLETE"), "FAILED");
}

#[test]
fn readings_cover_the_time_since_the_last() {
    let mut runtime = MonitorRuntime::default();
    assert_eq!(runtime.begin_reading(5_000, 200), 1_000);
    assert_eq!(runtime.begin_reading(7_500, 200), 2_500);
    assert_eq!(runtime.begin_reading(7_500, 200), 1);
    assert_eq!(runtime.begin_reading(7_000, 200), 1);
    assert_eq!(MonitorRuntime::default().begin_reading(1, 3_000), 3_000);
}

#[test]
fn a_snapshot_shows_interfaces_and_devices() {
    let mut runtime = MonitorRuntime::default();
    let s = collect(&readings(100), &mut runtime, 5_000, &["br-lan", "br-lan", "none"]);
    assert_eq!(s.timestamp_ms, 5_000);
    assert_eq!(s.interfaces.len(), 1);
    let lan = &s.interfaces[0];
    assert_eq!((lan.ifindex, lan.ifname.as_str(), lan.zone.as_str()), (1, "br-lan", "lan"));
    assert_eq!((lan.metrics.up_v4_bytes, lan.metrics.up_v4_bps), (100, 800));
    assert_eq!(lan.metrics.down_v6_bytes, 40);

    // The laptop has no IPv4 address on a monitored interface.
    assert_eq!(s.devices.len(), 1);
    let d = &s.devices[0];
    assert_eq!((d.mac.as_str(), d.hostname.as_str()), ("aa:00:00:00:00:01", "phone"));
    assert_eq!(d.subnet, "192.168.1.1/24");
    assert_eq!(d.ipv4, vec!["192.168.1.7".to_string()]);
    assert_eq!(d.ipv6, vec!["fe80::7".to_string()]);
    assert_eq!(d.neighbor_state.as_deref(), Some("REACHABLE"));
    assert_eq!((d.metrics.up_v4_bytes, d.cumulative.up_v4_bytes), (100, 100));
    assert!(d.online);
    assert_eq!(d.last_seen_ms, 5_000);
    assert!(runtime.device_registry.entries.contains_key(&(1, PHONE)));
}

#[test]
fn counters_that_stand_still_show_no_traffic() {
    let mut runtime = MonitorRuntime::default();
    collect(&readings(100), &mut runtime, 5_000, &["br-lan"]);
    let again = collect(&readings(100), &mut runtime, 6_000, &["br-lan"]);
    assert_eq!(again.interfaces[0].metrics, CounterQuad::default());
    assert_eq!(again.devices[0].metrics, CounterQuad::default());
    assert_eq!(again.devices[0].cumulative.up_v4_bytes, 100);
    let grown = collect(&readings(150), &mut runtime, 8_000, &["br-lan"]);
    assert_eq!(grown.interfaces[0].metrics.up_v4_bytes, 50);
    assert_eq!(grown.interfaces[0].metrics.up_v4_bps, 200);
    assert_eq!(grown.interfaces[0].cumulative.up_v4_bytes, 150);
    let reset = collect(&readings(30), &mut runtime, 9_000, &["br-lan"]);
    assert_eq!(reset.devices[0].metrics.up_v4_bytes, 30);
    assert_eq!(reset.devices[0].cumulative.up_v4_bytes, 180);
}

#[test]
fn devices_that_left_are_shown_offline() {
    let mut runtime = MonitorRuntime::default();
    collect(&readings(100), &mut runtime, 5_000, &["br-lan"]);
    let mut empty = readings(100);
    empty.neighbors.clear();
    let s = collect(&empty, &mut runtime, 6_000, &["br-lan"]);
    assert_eq!(s.devices.len(), 1);
    assert!(!s.devices[0].online);
    assert_eq!(s.devices[0].last_seen_ms, 5_000);
    assert_eq!(s.devices[0].cumulative.up_v4_bytes, 100);
    let other = collect(&empty, &mut runtime, 7_000, &["guest"]);
    assert!(other.devices.is_empty());
    assert!(runtime.device_registry.entries.contains_key(&(1, PHONE)));
}

#[test]
fn given_host_names_stay() {
    let mut runtime = MonitorRuntime::default();
    collect(&readings(1), &mut runtime, 1_000, &["br-lan"]);
    let mut renamed = readings(2);
    renamed.hostnames = vec![(PHONE, "other".to_string())];
    let s = collect(&renamed, &mut runtime, 2_000, &["br-lan"]);
    assert_eq!(s.devices[0].hostname, "phone");
}

#[test]
fn nameless_devices_get_a_dash() {
    let mut runtime = MonitorRuntime::default();
    let mut r = readings(1);
    r.hostnames.clear();
    r.neighbors = vec![neighbor("guest", LAPTOP, "172.16.0.9", "PROBE")];
    let s = collect(&r, &mut runtime, 1_000, &[]);
    assert!(s.interfaces.is_empty());
    assert_eq!(s.devices[0].hostname, "-");
    assert_eq!(s.devices[0].subnet, "fd01::1/64");
    let mut named = readings(1);
    named.hostnames = vec![(LAPTOP, "laptop".to_string())];
    named.neighbors = vec![neighbor("guest", LAPTOP, "172.16.0.9", "PROBE")];
    let s = collect(&named, &mut runtime, 2_000, &[]);
    assert_eq!(s.devices[0].hostname, "laptop");
}

#[test]
fn devices_stand_in_order_of_place() {
    let mut runtime = MonitorRuntime::default();
    let mut r = readings(1);
    r.neighbors = vec![
        neighbor("guest", PHONE, "172.16.0.1", "STALE"),
        neighbor("br-lan", LAPTOP, "192.168.1.9", "STALE"),
        neighbor("br-lan", PHONE, "192.168.1.10", "STALE"),
    ];
    let s = collect(&r, &mut runtime, 1_000, &[]);
    let order: Vec<(&str, &str)> =
        s.devices.iter().map(|d| (d.logical_iface.as_str(), d.ipv4[0].as_str())).collect();
    assert_eq!(
        order,
        vec![("br-lan", "192.168.1.10"), ("br-lan", "192.168.1.9"), ("guest", "172.16.0.1")]
    );
}

#[test]
fn forgetting_a_device_forgets_its_counters() {
    let mut runtime = MonitorRuntime::default();
    collect(&readings(100), &mut runtime, 5_000, &["br-lan"]);
    assert!(runtime.remove_device(1, PHONE));
    assert!(!runtime.remove_device(1, PHONE));
    assert_eq!(runtime.prev_device_bytes.len(), 0);
    assert!(!runtime.cumulative_device.contains_key(&(1, PHONE)));
    assert_eq!(runtime.cumulative_iface.get(&1).unwrap().up_v4_bytes, 100);
}
