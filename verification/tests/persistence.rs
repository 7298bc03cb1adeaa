use bandix_plus::calendar::{hourly_bucket_local, Calendar};
use bandix_plus::command::push_decimal;
use bandix_plus::counters::{
    empty_bucket, AggregateBucket, AggregatedBucket, CounterQuad, CurrentHourPointState,
};
use bandix_plus::histogram::HistogramHistory;
use bandix_plus::mac;
use bandix_plus::persistence::{
    apply_recovery, bucket_mac, bucket_to_numbers, choose_action, current_hour_rows, device_to_row,
    known_device_rows, migration_for, normalize_mac_hex, numbers_to_bucket, numbers_to_quad,
    plan_recovery, plan_recovery_within, policy_schema_supported, prune_cutoff, quad_to_numbers,
    restore_buckets, restore_known_devices, row_to_device, vacuum_statement, Action, BucketRow,
    DeviceRow, Migration, PointRow, SeriesKey,
};
use bandix_plus::runtime::{
    build_recovered_snapshot, export_runtime_state, import_runtime_state, KnownDevice,
    MonitorRuntime, PersistedKnownDevice,
};
use bandix_plus::topology::{Interface, TopologySnapshot};
use chrono::{Local, TimeZone};

fn sample_bucket(start: u64) -> AggregatedBucket {
    AggregatedBucket {
        start_ts_ms: start,
        end_ts_ms: start + 3_599_999,
        up_v4_bytes: 1,
        down_v4_bytes: 2,
        up_v6_bytes: 3,
        down_v6_bytes: 4,
        up_v4_bps_avg: 5,
        up_v4_bps_max: 6,
        up_v4_bps_min: 7,
        up_v4_bps_p95: 8,
        down_v4_bps_avg: 9,
        down_v4_bps_max: 10,
        down_v4_bps_min: 11,
        down_v4_bps_p95: 12,
        up_v6_bps_avg: 13,
        up_v6_bps_max: 14,
        up_v6_bps_min: 15,
        up_v6_bps_p95: 16,
        down_v6_bps_avg: 17,
        down_v6_bps_max: 18,
        down_v6_bps_min: 19,
        down_v6_bps_p95: 20,
    }
}

fn topology() -> TopologySnapshot {
    let iface = |ifindex: u32, name: &str, zone: &str, cidrs: Vec<String>| Interface {
        ifindex,
        name: name.to_string(),
        zone: zone.to_string(),
        parent_ifindex: None,
        ipv4_cidrs: cidrs,
        ipv6_cidrs: vec![],
    };
    TopologySnapshot::from_interfaces(vec![
        iface(1, "br-lan", "lan", vec!["192.168.1.1/24".to_string()]),
        iface(2, "eth0", "unknown", vec![]),
    ])
}

fn up(bytes: u64) -> CounterQuad {
    CounterQuad { up_v4_bytes: bytes, ..CounterQuad::default() }
}

fn row(series: &str, iface: &str, mac: &str, hour: u64, ts_ms: u64, bytes: u64) -> PointRow {
    PointRow {
        key: SeriesKey {
            series_type: series.to_string(),
            logical_iface: iface.to_string(),
            mac: mac.to_string(),
            hour_start_ts_ms: hour,
        },
        point: CurrentHourPointState { ts_ms, metrics: up(bytes) },
    }
}

fn recover(h: &mut HistogramHistory, rows: Vec<PointRow>, now: u64) -> usize {
    let (plan, w) = plan_recovery(rows, &topology(), now);
    let n = plan.len();
    for p in plan {
        apply_recovery(h, p, w);
    }
    n
}

fn local(d: u32, h: u32, m: u32) -> u64 {
    Local.with_ymd_and_hms(2024, 1, d, h, m, 0).unwrap().timestamp_millis() as u64
}

fn known(ifindex: u32, mac: [u8; 6], host: &str) -> KnownDevice {
    KnownDevice {
        ifindex,
        mac,
        ipv4: vec!["192.168.1.2".to_string()],
        ipv6: vec!["fe80::1".to_string(), "a\"b".to_string()],
        hostname: host.to_string(),
        logical_iface: "old-name".to_string(),
        subnet: "-".to_string(),
        last_seen_ms: 77,
    }
}

#[test]
fn buckets_come_back_from_their_numbers() {
    let mut b = sample_bucket(1_000);
    let n = bucket_to_numbers(&b);
    assert_eq!(n[0], 1_000);
    assert_eq!(n[5], 4);
    assert_eq!(n[21], 20);
    assert_eq!(numbers_to_bucket(&n), b);
    b.up_v4_bytes = u64::MAX;
    assert_eq!(bucket_to_numbers(&b)[2], -1);
    assert_eq!(numbers_to_bucket(&bucket_to_numbers(&b)), b);
}

#[test]
fn quads_come_back_from_their_numbers() {
    let q = CounterQuad {
        up_v4_bytes: 1,
        down_v4_bytes: 2,
        up_v6_bytes: 3,
        down_v6_bytes: 4,
        up_v4_bps: 5,
        down_v4_bps: 6,
        up_v6_bps: u64::MAX,
        down_v6_bps: 8,
    };
    assert_eq!(quad_to_numbers(&q), [1, 2, 3, 4, 5, 6, -1, 8]);
    assert_eq!(numbers_to_quad(&quad_to_numbers(&q)), q);
}

#[test]
fn a_saved_hour_that_is_over_is_closed() {
    let now = local(15, 11, 5);
    let old = local(15, 10, 5);
    let (old_start, _) = hourly_bucket_local(old);
    let mut saved = HistogramHistory::new();
    saved.restore_current_hour_iface_state(
        1,
        old_start,
        vec![CurrentHourPointState { ts_ms: old, metrics: up(99) }],
        old,
    );

    let mut h = HistogramHistory::new();
    assert_eq!(recover(&mut h, current_hour_rows(&saved, &topology()), now), 1);
    let all = h.query_aggregate(1, None, 0, u64::MAX, AggregateBucket::Hourly);
    assert_eq!(all.len(), 1);
    assert_eq!(all[0].up_v4_bytes, 99);
    assert_eq!(all[0].start_ts_ms, old_start);

    // Dealing with the same rows again does not count them twice.
    recover(&mut h, current_hour_rows(&saved, &topology()), now + 3_600_000);
    let (totals, _) = h.cumulative_from_all();
    assert_eq!(totals.get(&1).unwrap().up_v4_bytes, 99);
}

#[test]
fn a_saved_hour_that_is_not_over_goes_on() {
    let now = local(15, 10, 30);
    let (start, _) = hourly_bucket_local(now);
    let mut saved = HistogramHistory::new();
    saved.restore_current_hour_iface_state(
        1,
        start,
        vec![CurrentHourPointState { ts_ms: now, metrics: up(7) }],
        now,
    );
    saved.restore_current_hour_device_state(
        2,
        "aa:bb:cc:dd:ee:ff".to_string(),
        start,
        vec![
            CurrentHourPointState { ts_ms: start, metrics: up(3) },
            CurrentHourPointState { ts_ms: now, metrics: up(4) },
        ],
        now,
    );
    let mut rows = current_hour_rows(&saved, &topology());
    assert_eq!(rows.len(), 3);
    assert_eq!(rows[0].key.series_type, "iface");
    assert_eq!(rows[1].key.series_type, "device");
    assert_eq!(rows[1].key.logical_iface, "eth0");
    // The order of the series does not matter.
    rows.rotate_left(1);

    let mut h = HistogramHistory::new();
    assert_eq!(recover(&mut h, rows, now), 2);
    let (ifaces, devices) = h.cumulative_from_all();
    assert_eq!(ifaces.get(&1).unwrap().up_v4_bytes, 7);
    let m = mac::from_str("aa:bb:cc:dd:ee:ff").unwrap();
    assert_eq!(devices.get(&(2, m)).unwrap().up_v4_bytes, 7);
    let state = h.export_current_hour_state();
    assert_eq!(state.device[0].points, saved.export_current_hour_state().device[0].points);
    assert!(!h.has_completed_iface_bucket(1, start));
}

#[test]
fn a_saved_hour_of_the_future_is_dropped() {
    let now = local(15, 10, 0);
    let future = now + 3_600_000;
    let (future_start, _) = hourly_bucket_local(future);
    let rows = vec![row("iface", "br-lan", "", future_start, future, 5)];
    let (plan, _) = plan_recovery(rows, &topology(), now);
    assert_eq!(plan.len(), 1);
    assert!(matches!(plan[0].action, Action::DropOnly));
    let mut h = HistogramHistory::new();
    let rows = vec![row("iface", "br-lan", "", future_start, future, 5)];
    recover(&mut h, rows, now);
    assert!(h.query_aggregate(1, None, 0, u64::MAX, AggregateBucket::Hourly).is_empty());
}

#[test]
fn rows_of_unknown_interfaces_are_left_alone() {
    let rows = vec![row("iface", "wan", "", 0, 5, 5)];
    let (plan, _) = plan_recovery(rows, &topology(), local(15, 10, 0));
    assert!(plan.is_empty());
}

#[test]
fn rows_are_gathered_by_series_and_hour() {
    let mut cal = Calendar::new();
    for t in 0..100u64 {
        cal.set_hour(t, (t - t % 10, t - t % 10 + 9));
    }
    let rows = vec![
        row("device", "eth0", "m", 20, 21, 1),
        row("device", "eth0", "m", 10, 11, 2),
        row("device", "eth0", "m", 20, 22, 4),
        row("device", "eth0", "m", 30, 31, 8),
        row("device", "eth0", "m", 15, 16, 16),
    ];
    let plan = plan_recovery_within(rows, &topology(), 25, &cal);
    assert_eq!(plan.len(), 4);
    assert_eq!(plan[0].points.len(), 2);
    assert_eq!(plan[0].ifindex, 2);
    assert!(matches!(plan[0].action, Action::RestoreCurrent));
    assert!(matches!(plan[1].action, Action::Promote(b) if b.up_v4_bytes == 2 && b.end_ts_ms == 19));
    assert!(matches!(plan[2].action, Action::DropOnly));
    assert!(matches!(plan[3].action, Action::DropOnly));
    let mut h = HistogramHistory::new();
    for p in plan {
        apply_recovery(&mut h, p, (20, 29));
    }
    assert!(h.has_completed_device_bucket(2, "M", 10));
    assert_eq!(h.export_current_hour_state().device[0].points.len(), 2);
}

#[test]
fn empty_stale_hours_are_dropped() {
    assert!(matches!(choose_action(10, &[], 20, (10, 19)), Action::DropOnly));
    assert!(matches!(choose_action(20, &[], 20, (20, 29)), Action::RestoreCurrent));
}

#[test]
fn closed_hours_come_back_from_rows() {
    let bucket_row = |series: &str, iface: &str, mac: &str, start: u64| BucketRow {
        series_type: series.to_string(),
        logical_iface: iface.to_string(),
        mac: mac.to_string(),
        bucket: sample_bucket(start),
    };
    let mut h = HistogramHistory::new();
    let rows = vec![
        bucket_row("iface", "br-lan", "", 1_000),
        bucket_row("device", "eth0", "aa:bb:cc:dd:ee:ff", 10_000),
        bucket_row("iface", "gone", "", 1_000),
        bucket_row("iface", "br-lan", "", 2_000),
    ];
    restore_buckets(&mut h, rows, &topology());
    let lan = h.query_aggregate(1, None, 0, u64::MAX, AggregateBucket::Hourly);
    assert_eq!(lan.iter().map(|b| b.start_ts_ms).collect::<Vec<u64>>(), vec![1_000, 2_000]);
    let dev = h.query_aggregate(
        2,
        Some("AA:BB:CC:DD:EE:FF"),
        0,
        u64::MAX,
        AggregateBucket::Hourly,
    );
    assert_eq!(dev.len(), 1);
    assert_eq!(dev[0].up_v4_bytes, 1);
}

#[test]
fn devices_come_back_from_rows() {
    let d = PersistedKnownDevice {
        logical_iface: "eth0".to_string(),
        mac: "aa:bb:cc:dd:ee:ff".to_string(),
        ipv4: vec!["192.168.1.2".to_string(), "a\"b".to_string()],
        ipv6: vec![],
        hostname: "phone".to_string(),
        subnet: "-".to_string(),
        last_seen_ms: 5,
    };
    let r = device_to_row(&d);
    assert_eq!(r.ipv4, "[\"192.168.1.2\",\"a\\\"b\"]");
    assert_eq!(r.ipv6, "[]");
    assert_eq!(r.last_seen_ms, 5);
    let back = row_to_device(r);
    assert_eq!(back.ipv4, d.ipv4);
    assert_eq!(back.ipv6, d.ipv6);
    assert_eq!((back.hostname, back.mac, back.last_seen_ms), (d.hostname, d.mac, 5));
}

#[test]
fn unreadable_lists_are_empty() {
    let r = DeviceRow {
        logical_iface: "eth0".to_string(),
        mac: "m".to_string(),
        ipv4: "not a list".to_string(),
        ipv6: "[1]".to_string(),
        hostname: "h".to_string(),
        subnet: "s".to_string(),
        last_seen_ms: -4,
    };
    let d = row_to_device(r);
    assert!(d.ipv4.is_empty());
    assert!(d.ipv6.is_empty());
    assert_eq!(d.last_seen_ms, 0);
    assert_eq!(d.subnet, "s");
}

#[test]
fn known_devices_survive_a_restart() {
    let a: [u8; 6] = [1, 2, 3, 4, 5, 6];
    let b: [u8; 6] = [0xaa, 0, 0, 0, 0, 1];
    let mut runtime = MonitorRuntime::default();
    runtime.device_registry.entries.insert((2, b), known(2, b, "b"));
    runtime.device_registry.entries.insert((1, a), known(1, a, "a"));
    let rows = known_device_rows(&runtime, &topology());
    assert_eq!(rows.len(), 2);
    assert_eq!((rows[0].logical_iface.as_str(), rows[0].hostname.as_str()), ("br-lan", "a"));
    assert_eq!(rows[1].mac, "aa:00:00:00:00:01");

    let mut again = MonitorRuntime::default();
    again.device_registry.entries.insert((9, a), known(9, a, "stray"));
    restore_known_devices(&mut again, rows, &topology()).unwrap();
    assert_eq!(again.device_registry.entries.len(), 2);
    let d = again.device_registry.entries.get(&(1, a)).unwrap();
    assert_eq!(d.logical_iface, "br-lan");
    assert_eq!(d.ipv6, vec!["fe80::1".to_string(), "a\"b".to_string()]);
    assert_eq!(d.last_seen_ms, 77);
    assert!(!again.device_registry.entries.contains_key(&(9, a)));
}

#[test]
fn devices_that_cannot_be_placed_are_forgotten() {
    let m: [u8; 6] = [1, 2, 3, 4, 5, 6];
    let mut runtime = MonitorRuntime::default();
    runtime.device_registry.entries.insert((7, m), known(7, m, "a"));
    let mut state = export_runtime_state(&runtime, &topology());
    assert_eq!(state.known_devices[0].logical_iface, "old-name");
    state.known_devices.push(PersistedKnownDevice {
        logical_iface: "eth0".to_string(),
        mac: "bad".to_string(),
        ipv4: vec![],
        ipv6: vec![],
        hostname: String::new(),
        subnet: String::new(),
        last_seen_ms: 0,
    });
    import_runtime_state(&mut runtime, state, &topology()).unwrap();
    assert_eq!(runtime.device_registry.entries.len(), 0);
}

#[test]
fn recovered_snapshot_shows_known_devices_offline() {
    let m: [u8; 6] = [1, 2, 3, 4, 5, 6];
    let mut runtime = MonitorRuntime::default();
    runtime.device_registry.entries.insert((1, m), known(1, m, "a"));
    runtime.cumulative_device.insert((1, m), up(5));
    runtime.cumulative_iface.insert(2, up(6));
    runtime.cumulative_iface.insert(1, up(7));
    runtime.cumulative_iface.insert(9, up(8));
    let s = build_recovered_snapshot(&runtime, &topology(), 1234);
    assert_eq!(s.timestamp_ms, 1234);
    assert_eq!(s.interfaces.len(), 2);
    assert_eq!((s.interfaces[0].ifname.as_str(), s.interfaces[0].zone.as_str()), ("br-lan", "lan"));
    assert_eq!(s.interfaces[1].cumulative.up_v4_bytes, 6);
    assert_eq!(s.devices.len(), 1);
    assert!(!s.devices[0].online);
    assert_eq!(s.devices[0].cumulative.up_v4_bytes, 5);
    assert_eq!(s.devices[0].mac, "01:02:03:04:05:06");
    assert_eq!(s.devices[0].neighbor_state, None);
}

#[test]
fn old_hours_are_pruned_by_days() {
    let now = 1_700_000_000_000u64;
    assert_eq!(prune_cutoff(0, now), None);
    assert_eq!(prune_cutoff(366, now), Some(1_668_377_600_000));
    assert_eq!(prune_cutoff(u32::MAX, now), Some(0));
    assert_eq!(prune_cutoff(1, u64::MAX), Some(-86_400_001));
}

#[test]
fn pages_are_given_back_on_request() {
    assert_eq!(vacuum_statement(0), None);
    assert_eq!(vacuum_statement(-3), None);
    assert_eq!(vacuum_statement(100).unwrap(), "PRAGMA incremental_vacuum(100);");
    let mut s = "n=".to_string();
    push_decimal(&mut s, 0);
    assert_eq!(s, "n=0");
}

#[test]
fn addresses_of_buckets_have_twelve_digits() {
    assert_eq!(normalize_mac_hex("AA:BB:CC:DD:EE:0f").unwrap(), "aabbccddee0f");
    assert_eq!(normalize_mac_hex("aabb:ccdd:ee0f").unwrap(), "aabbccddee0f");
    assert_eq!(normalize_mac_hex("aa:bb:cc:dd:ee"), None);
    assert_eq!(normalize_mac_hex("aa:bb:cc:dd:ee:0x"), None);
    assert_eq!(bucket_mac("AA:BB:CC:DD:EE:FF").unwrap(), "aa:bb:cc:dd:ee:ff");
    assert_eq!(bucket_mac("AA-BB-CC-DD-EE-FF"), None);
}

#[test]
fn databases_of_other_versions_are_refused() {
    assert_eq!(migration_for(1), Migration::UpToDate);
    assert_eq!(migration_for(0), Migration::CreateTables);
    assert_eq!(migration_for(2), Migration::Unsupported);
    assert!(policy_schema_supported(1));
    assert!(!policy_schema_supported(2));
}

#[test]
fn blank_buckets_count_nothing() {
    assert_eq!(numbers_to_bucket(&[0; 22]), empty_bucket(0, 0));
}
