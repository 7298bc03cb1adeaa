use bandix_plus::api::{trend, HistoryQuery};
use bandix_plus::calendar::{bounds_around, hourly_bucket_local, Calendar, HOUR_MS};
use bandix_plus::counters::{
    empty_bucket, AggregateBucket, AggregatedBucket, CounterQuad, CurrentHourPointState,
    HistoryDirection, HistoryTrafficType,
};
use bandix_plus::histogram::{merge_hourly_to_daily, merge_hourly_within, HistogramHistory};
use bandix_plus::history::{HistorySample, TrafficHistory};
use bandix_plus::persistence::{bucket_mac, restore_buckets, BucketRow};
use bandix_plus::runtime::{
    export_runtime_state, import_runtime_state, KnownDevice, MonitorRuntime,
};
use bandix_plus::snapshot::{DeviceListItem, InterfaceOverviewItem, SnapshotData};
use bandix_plus::topology::{Interface, TopologySnapshot};
use bandix_plus::usage::buckets_within;
use chrono::{Local, TimeZone};

const MAC: &str = "aa:bb:cc:dd:ee:ff";

fn topology() -> TopologySnapshot {
    let iface = |ifindex: u32, name: &str| Interface {
        ifindex,
        name: name.to_string(),
        zone: "lan".to_string(),
        parent_ifindex: None,
        ipv4_cidrs: vec![],
        ipv6_cidrs: vec![],
    };
    TopologySnapshot::from_interfaces(vec![iface(1, "br-lan"), iface(2, "eth0")])
}

fn quad(v4: u64, v6: u64) -> CounterQuad {
    CounterQuad {
        up_v4_bps: v4,
        down_v4_bps: v4 + 1,
        up_v6_bps: v6,
        down_v6_bps: v6 + 1,
        up_v4_bytes: v4 + 2,
        down_v4_bytes: v4 + 3,
        up_v6_bytes: v6 + 2,
        down_v6_bytes: v6 + 3,
    }
}

fn device(ifindex: u32, mac: &str, metrics: CounterQuad) -> DeviceListItem {
    DeviceListItem {
        ifindex,
        logical_iface: "br-lan".to_string(),
        subnet: "-".to_string(),
        ipv4: vec![],
        ipv6: vec![],
        mac: mac.to_string(),
        hostname: String::new(),
        metrics,
        cumulative: quad(900, 800),
        online: true,
        last_seen_ms: 1,
        neighbor_state: None,
    }
}

fn snapshot(ts: u64, devices: Vec<DeviceListItem>) -> SnapshotData {
    SnapshotData {
        timestamp_ms: ts,
        interfaces: vec![InterfaceOverviewItem {
            ifindex: 1,
            ifname: "br-lan".to_string(),
            zone: "lan".to_string(),
            metrics: quad(10, 20),
            cumulative: quad(100, 200),
        }],
        devices,
    }
}

fn small_calendar() -> Calendar {
    let mut cal = Calendar::new();
    for t in 0..1000u64 {
        cal.set_hour(t, (t - t % 10, t - t % 10 + 9));
        cal.set_day(t, (t - t % 100, t - t % 100 + 99));
    }
    cal
}

fn hour(start: u64, up_v4: u64, down_v6: u64) -> AggregatedBucket {
    AggregatedBucket { up_v4_bytes: up_v4, down_v6_bytes: down_v6, ..empty_bucket(start, start + 9) }
}

fn only_v4(s: &HistorySample) -> HistorySample {
    HistorySample {
        up_v6_bps: 0,
        down_v6_bps: 0,
        up_v6_bytes: 0,
        down_v6_bytes: 0,
        up_v6_bytes_cumulative: 0,
        down_v6_bytes_cumulative: 0,
        ..*s
    }
}

fn only_v6(s: &HistorySample) -> HistorySample {
    HistorySample {
        up_v4_bps: 0,
        down_v4_bps: 0,
        up_v4_bytes: 0,
        down_v4_bytes: 0,
        up_v4_bytes_cumulative: 0,
        down_v4_bytes_cumulative: 0,
        ..*s
    }
}

#[test]
fn trend_keeps_the_ip_family_asked_for() {
    let shot = snapshot(5, vec![device(1, MAC, quad(30, 40))]);
    let mut history = TrafficHistory::new(60);
    history.ingest_snapshot(&shot);
    let ask = |mac: Option<&str>, traffic_type: Option<&str>| {
        let q = HistoryQuery {
            iface: Some("br-lan".to_string()),
            mac: mac.map(|m| m.to_string()),
            traffic_type: traffic_type.map(|t| t.to_string()),
            direction: None,
        };
        let r = trend(&topology(), &shot, &history, &q);
        assert!(r.ok);
        assert_eq!(r.data.len(), 1);
        r.data[0]
    };
    let all = ask(None, None);
    assert_eq!((all.up_v4_bps, all.down_v4_bytes), (10, 13));
    assert_eq!((all.up_v6_bps, all.down_v6_bytes), (20, 23));
    let v4 = ask(None, Some("ipv4"));
    assert_eq!((v4.up_v4_bps, v4.down_v4_bps, v4.up_v4_bytes, v4.down_v4_bytes), (10, 11, 12, 13));
    assert_eq!((v4.up_v6_bps, v4.down_v6_bps, v4.up_v6_bytes, v4.down_v6_bytes), (0, 0, 0, 0));
    assert_eq!(v4, only_v4(&all));
    let v6 = ask(None, Some("ipv6"));
    assert_eq!((v6.up_v4_bps, v6.down_v4_bps, v6.up_v4_bytes, v6.down_v4_bytes), (0, 0, 0, 0));
    assert_eq!((v6.up_v6_bps, v6.down_v6_bps, v6.up_v6_bytes, v6.down_v6_bytes), (20, 21, 22, 23));
    assert_eq!(v6, only_v6(&all));
    let phone = ask(Some(MAC), None);
    assert_eq!((phone.up_v4_bytes, phone.up_v6_bytes), (32, 42));
    assert_eq!(ask(Some(MAC), Some("ipv4")), only_v4(&phone));
    assert_eq!(ask(Some(MAC), Some("ipv6")), only_v6(&phone));
}

#[test]
fn samples_are_narrowed_to_an_ip_family() {
    let mut h = TrafficHistory::new(60);
    h.ingest_snapshot(&snapshot(5, vec![device(1, MAC, quad(30, 40)), device(2, MAC, quad(1, 2))]));
    let both = HistoryDirection::Both;
    let iface = h.query_iface(1, HistoryTrafficType::All, both)[0];
    assert_eq!(h.query_iface(1, HistoryTrafficType::Ipv4, both), vec![only_v4(&iface)]);
    assert_eq!(h.query_iface(1, HistoryTrafficType::Ipv6, both), vec![only_v6(&iface)]);
    let phone = h.query_device(None, MAC, HistoryTrafficType::All, both)[0];
    assert_eq!((phone.up_v4_bps, phone.up_v6_bps), (31, 42));
    assert_eq!(h.query_device(None, MAC, HistoryTrafficType::Ipv4, both), vec![only_v4(&phone)]);
    let up = HistoryDirection::Up;
    assert_eq!(h.query_device(None, MAC, HistoryTrafficType::Ipv6, up), vec![only_v6(&phone)]);
    assert_eq!(phone.with_traffic_type(HistoryTrafficType::All), phone);
    let none = only_v4(&phone).with_traffic_type(HistoryTrafficType::Ipv6);
    assert_eq!((none.ts_ms, none.up_v4_bytes, none.up_v6_bytes), (5, 0, 0));
}

#[test]
fn every_time_of_a_window_has_that_window() {
    let first = bounds_around(18_000_001, 19_800, HOUR_MS);
    let utc = |local: i64| (local - 19_800_000) as u64;
    for t in [utc(first.0), utc(first.0) + 1, 18_000_001, utc(first.1)] {
        assert_eq!(bounds_around(t, 19_800, HOUR_MS), first);
    }
    assert_ne!(bounds_around(utc(first.1) + 1, 19_800, HOUR_MS), first);
    let noon = Local.with_ymd_and_hms(2024, 5, 15, 12, 20, 0).unwrap().timestamp_millis() as u64;
    let (s, e) = hourly_bucket_local(noon);
    for t in [s, s + 1, noon, e] {
        assert_eq!(hourly_bucket_local(t), (s, e));
    }
}

#[test]
fn a_range_shows_the_hours_it_overlaps() {
    let cal = small_calendar();
    let mut h = HistogramHistory::new();
    for start in [40, 10, 20, 70] {
        h.restore_iface_bucket(1, hour(start, start, 0));
    }
    h.ingest_snapshot_within(&snapshot(55, vec![]), &cal);
    let ask = |from: u64, to: u64| {
        h.query_aggregate_within(1, None, from, to, AggregateBucket::Hourly, &cal)
    };
    let all = ask(0, u64::MAX);
    assert_eq!(all.iter().map(|b| b.start_ts_ms).collect::<Vec<u64>>(), vec![10, 20, 40, 50, 70]);
    for (from, to) in [(0, 9), (19, 40), (15, 55), (59, 59), (60, 69), (80, 5)] {
        let expected: Vec<AggregatedBucket> = all
            .iter()
            .filter(|b| b.start_ts_ms <= to && b.end_ts_ms >= from)
            .copied()
            .collect();
        assert_eq!(ask(from, to), expected);
    }
}

#[test]
fn totals_are_the_bytes_of_all_hours() {
    let cal = small_calendar();
    let mut h = HistogramHistory::new();
    assert!(h.cumulative_from_all().0.get(&1).is_none());
    h.restore_iface_bucket(1, hour(30, 5, 7));
    h.restore_iface_bucket(1, hour(10, u64::MAX - 20, 1));
    h.restore_iface_bucket(3, hour(10, 4, 0));
    h.ingest_snapshot_within(&snapshot(55, vec![]), &cal);
    let (totals, _) = h.cumulative_from_all();
    for ifindex in [1, 2, 3] {
        let found =
            h.query_aggregate_within(ifindex, None, 0, u64::MAX, AggregateBucket::Hourly, &cal);
        let up = found.iter().fold(0u64, |a, b| a.saturating_add(b.up_v4_bytes));
        let down = found.iter().fold(0u64, |a, b| a.saturating_add(b.down_v6_bytes));
        match totals.get(&ifindex) {
            Some(q) => {
                assert!(!found.is_empty());
                assert_eq!((q.up_v4_bytes, q.down_v6_bytes, q.up_v4_bps), (up, down, 0));
            }
            None => assert!(found.is_empty()),
        }
    }
    assert_eq!(totals.get(&1).unwrap().up_v4_bytes, u64::MAX);
    assert_eq!(totals.get(&1).unwrap().down_v6_bytes, 54);
}

#[test]
fn exported_hours_are_restored_one_by_one() {
    let cal = small_calendar();
    let mut h = HistogramHistory::new();
    let p = |ts: u64| CurrentHourPointState { ts_ms: ts, metrics: quad(ts, 0) };
    h.restore_iface_points_within(2, 50, &[p(51), p(52)], (50, 59));
    h.restore_device_points_within(1, "bb".to_string(), 50, &[p(53)], (50, 59));
    h.restore_device_points_within(1, "aa".to_string(), 50, &[p(50), p(59)], (50, 59));
    h.restore_iface_points_within(1, 50, &[p(57)], (50, 59));
    let state = h.export_current_hour_state();
    let mut again = HistogramHistory::new();
    for x in &state.iface {
        again.restore_iface_points_within(x.ifindex, x.hour_start_ts_ms, &x.points, (50, 59));
    }
    for x in &state.device {
        again.restore_device_points_within(
            x.ifindex,
            x.mac.clone(),
            x.hour_start_ts_ms,
            &x.points,
            (50, 59),
        );
    }
    let twice = again.export_current_hour_state();
    assert_eq!(format!("{:?}", twice), format!("{:?}", state));
    assert_eq!((twice.iface.len(), twice.device.len()), (2, 2));
    assert_eq!(twice.device[0].points, vec![p(50), p(59)]);
    assert_eq!(again.cumulative_from_completed().0.len(), 0);

    // The first sample of a series is counted twice, and restored once.
    let mut doubled = HistogramHistory::new();
    doubled.ingest_snapshot_within(&snapshot(55, vec![]), &cal);
    let saved = doubled.export_current_hour_state();
    assert_eq!(saved.iface[0].points.len(), 2);
    let mut once = HistogramHistory::new();
    once.restore_iface_points_within(1, 50, &saved.iface[0].points, (50, 59));
    assert_eq!(once.export_current_hour_state().iface[0].points, saved.iface[0].points[..1].to_vec());
}

#[test]
fn days_hold_the_extremes_of_their_hours_in_any_order() {
    let cal = small_calendar();
    let rated = |start: u64, min: u64, avg: u64, p95: u64, max: u64| AggregatedBucket {
        up_v4_bps_min: min,
        up_v4_bps_avg: avg,
        up_v4_bps_p95: p95,
        up_v4_bps_max: max,
        ..hour(start, start, 1)
    };
    let a = rated(110, 3, 5, 8, 9);
    let b = rated(150, 2, 4, 6, 7);
    let c = rated(120, 4, 6, 20, 30);
    let d = rated(210, 1, 1, 1, 1);
    let days = merge_hourly_within(&[a, b, c, d], &cal);
    assert_eq!(days.len(), 2);
    assert_eq!((days[0].start_ts_ms, days[0].end_ts_ms), (100, 199));
    assert_eq!((days[0].up_v4_bps_min, days[0].up_v4_bps_max), (2, 30));
    assert_eq!((days[0].up_v4_bps_avg, days[0].up_v4_bps_p95), (9, 30));
    assert_eq!((days[0].up_v4_bytes, days[0].down_v6_bytes), (380, 3));
    for other in [[d, c, b, a], [b, d, a, c], [c, a, d, b]] {
        assert_eq!(merge_hourly_within(&other, &cal), days);
    }
}

#[test]
fn samples_behind_all_interfaces_add_up() {
    let mut h = TrafficHistory::new(60);
    h.ingest_snapshot(&snapshot(1, vec![device(1, "A:b", quad(1, 2))]));
    h.ingest_snapshot(&snapshot(
        2,
        vec![device(1, "A:b", quad(u64::MAX - 9, 5)), device(2, "a:B", quad(70, 6))],
    ));
    h.ingest_snapshot(&snapshot(3, vec![device(2, "a:B", quad(8, 9)), device(2, "c", quad(1, 1))]));
    let ask = |ifindex: Option<u32>, mac: &str| {
        h.query_device(ifindex, mac, HistoryTrafficType::All, HistoryDirection::Both)
    };
    let all = ask(None, "a:b");
    assert_eq!(all, ask(None, "A:B"));
    assert_eq!(all.iter().map(|x| x.ts_ms).collect::<Vec<u64>>(), vec![1, 2, 3]);
    for x in &all {
        let each: Vec<HistorySample> = [ask(Some(1), "a:b"), ask(Some(2), "a:b")]
            .concat()
            .into_iter()
            .filter(|y| y.ts_ms == x.ts_ms)
            .collect();
        assert!(!each.is_empty());
        let sum = |f: fn(&HistorySample) -> u64| {
            each.iter().fold(0u64, |a, y| a.saturating_add(f(y)))
        };
        assert_eq!(x.up_v4_bps, sum(|y| y.up_v4_bps));
        assert_eq!(x.down_v6_bytes, sum(|y| y.down_v6_bytes));
        assert_eq!(x.up_v6_bytes_cumulative, sum(|y| y.up_v6_bytes_cumulative));
    }
    assert_eq!(all[1].up_v4_bps, u64::MAX);
    assert_eq!(all[1].up_v6_bps, 11);
}

fn known(ifindex: u32, mac: [u8; 6], logical_iface: &str) -> KnownDevice {
    KnownDevice {
        ifindex,
        mac,
        ipv4: vec![],
        ipv6: vec![],
        hostname: format!("host-{}", ifindex),
        logical_iface: logical_iface.to_string(),
        subnet: "-".to_string(),
        last_seen_ms: 1,
    }
}

#[test]
fn devices_of_lost_interfaces_do_not_stop_the_others() {
    let a: [u8; 6] = [1, 2, 3, 4, 5, 6];
    let b: [u8; 6] = [1, 2, 3, 4, 5, 7];
    let mut runtime = MonitorRuntime::default();
    runtime.device_registry.entries.insert((9, a), known(9, a, "wan9"));
    runtime.device_registry.entries.insert((1, a), known(1, a, "old-name"));
    runtime.device_registry.entries.insert((2, b), known(2, b, "eth0"));
    runtime.device_registry.entries.insert((8, b), known(8, b, "br-lan"));
    let state = export_runtime_state(&runtime, &topology());
    let mut again = MonitorRuntime::default();
    import_runtime_state(&mut again, state, &topology()).unwrap();
    let found = &again.device_registry.entries;
    assert_eq!(found.get(&(1, a)).unwrap().hostname, "host-1");
    assert_eq!(found.get(&(1, a)).unwrap().logical_iface, "br-lan");
    assert_eq!(found.get(&(2, b)).unwrap().hostname, "host-2");
    assert!(!found.contains_key(&(9, a)));
    assert!(!found.contains_key(&(8, b)));
    // One that bears the name of a known interface comes back behind that one.
    assert_eq!(found.get(&(1, b)).unwrap().hostname, "host-8");
    assert_eq!(found.len(), 3);
}

#[test]
fn windows_are_summed_over_devices() {
    let cal = small_calendar();
    let a: [u8; 6] = [0, 0, 0, 0, 0, 1];
    let b: [u8; 6] = [0, 0, 0, 0, 0, 2];
    let mut runtime = MonitorRuntime::default();
    runtime.device_registry.entries.insert((1, a), known(1, a, "br-lan"));
    runtime.device_registry.entries.insert((1, b), known(1, b, "br-lan"));
    let mut h = HistogramHistory::new();
    h.restore_device_bucket(1, "00:00:00:00:00:01".to_string(), hour(30, 1, 2));
    h.restore_device_bucket(1, "00:00:00:00:00:01".to_string(), hour(10, u64::MAX, 4));
    h.restore_device_bucket(1, "00:00:00:00:00:02".to_string(), hour(10, 8, 16));
    h.restore_device_bucket(1, "00:00:00:00:00:02".to_string(), hour(20, 32, 64));
    h.restore_iface_bucket(1, hour(10, 999, 999));
    let ask = |tt: HistoryTrafficType| {
        buckets_within(&runtime, &h, 1, None, (0, 99), AggregateBucket::Hourly, tt, &cal)
    };
    let all = ask(HistoryTrafficType::All);
    let seen: Vec<(u64, u64, u64)> =
        all.iter().map(|x| (x.start_ts_ms, x.up_v4_bytes, x.down_v6_bytes)).collect();
    assert_eq!(seen, vec![(10, u64::MAX, 20), (20, 32, 64), (30, 1, 2)]);
    let v6: Vec<(u64, u64, u64)> = ask(HistoryTrafficType::Ipv6)
        .iter()
        .map(|x| (x.start_ts_ms, x.up_v4_bytes, x.down_v6_bytes))
        .collect();
    assert_eq!(v6, vec![(10, 0, 20), (20, 0, 64), (30, 0, 2)]);
}

#[test]
fn kept_buckets_are_found_in_any_case() {
    assert!(bucket_mac("AA:BB:CC:DD:EE").is_none());
    let kept = bucket_mac("AA:BB:CC:DD:EE:FF").unwrap();
    assert_eq!(kept, MAC);
    let mut h = HistogramHistory::new();
    let row = BucketRow {
        series_type: "device".to_string(),
        logical_iface: "eth0".to_string(),
        mac: kept,
        bucket: hour(10, 3, 4),
    };
    restore_buckets(&mut h, vec![row], &topology());
    for asked in ["aa:bb:cc:dd:ee:ff", "AA:BB:CC:DD:EE:FF", "aA:bB:cC:dD:eE:fF"] {
        let found = h.query_aggregate(2, Some(asked), 0, 99, AggregateBucket::Hourly);
        assert_eq!(found, vec![hour(10, 3, 4)]);
    }
    assert!(h.query_aggregate(2, Some(MAC), 20, 99, AggregateBucket::Hourly).is_empty());
}

#[test]
fn the_local_clock_is_one_clock() {
    let noon = Local.with_ymd_and_hms(2024, 5, 15, 12, 20, 0).unwrap().timestamp_millis() as u64;
    let hour_ms: u64 = 3_600_000;
    let local = |ts: u64, up: u64| {
        let (s, e) = hourly_bucket_local(ts);
        AggregatedBucket { up_v4_bytes: up, ..empty_bucket(s, e) }
    };
    let mut h = HistogramHistory::new();
    for i in [30, 3, 7, 1] {
        h.restore_iface_bucket(1, local(noon - i * hour_ms, i));
    }
    h.ingest_snapshot(&snapshot(noon, vec![]));
    let ask = |from: u64, to: u64| h.query_aggregate(1, None, from, to, AggregateBucket::Hourly);
    let all = ask(0, u64::MAX);
    assert_eq!(all.len(), 5);
    assert!(all.windows(2).all(|w| w[0].start_ts_ms <= w[1].start_ts_ms));
    for (from, to) in [(0, noon), (noon - 3 * hour_ms, noon - hour_ms), (noon, noon), (noon, 5)] {
        let expected: Vec<AggregatedBucket> = all
            .iter()
            .filter(|b| b.start_ts_ms <= to && b.end_ts_ms >= from)
            .copied()
            .collect();
        assert_eq!(ask(from, to), expected);
    }
    let days = merge_hourly_to_daily(&all);
    assert_eq!(days.len(), 2);
    let mut reversed = all.clone();
    reversed.reverse();
    assert_eq!(merge_hourly_to_daily(&reversed), days);
}
