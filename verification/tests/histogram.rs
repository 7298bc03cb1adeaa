use bandix_plus::calendar::{daily_bucket_local, hourly_bucket_local, Calendar};
use bandix_plus::counters::{
    AggregateBucket, AggregatedBucket, CounterQuad, CurrentHourPointState, HistoryTrafficType,
};
use bandix_plus::histogram::{merge_hourly_to_daily, merge_hourly_within, HistogramHistory};
use bandix_plus::hours::promote_stale_points_to_bucket;
use bandix_plus::snapshot::{
    CompletedAggregate, DeviceListItem, InterfaceOverviewItem, SnapshotData,
};
use chrono::{Local, TimeZone};

fn bucket(start: u64, end: u64) -> AggregatedBucket {
    AggregatedBucket {
        start_ts_ms: start,
        end_ts_ms: end,
        up_v4_bytes: 1,
        down_v4_bytes: 1,
        up_v6_bytes: 1,
        down_v6_bytes: 1,
        up_v4_bps_avg: 1,
        up_v4_bps_max: 1,
        up_v4_bps_min: 1,
        up_v4_bps_p95: 1,
        down_v4_bps_avg: 1,
        down_v4_bps_max: 1,
        down_v4_bps_min: 1,
        down_v4_bps_p95: 1,
        up_v6_bps_avg: 1,
        up_v6_bps_max: 1,
        up_v6_bps_min: 1,
        up_v6_bps_p95: 1,
        down_v6_bps_avg: 1,
        down_v6_bps_max: 1,
        down_v6_bps_min: 1,
        down_v6_bps_p95: 1,
    }
}

fn sample(up: u64) -> CounterQuad {
    CounterQuad { up_v4_bytes: up, up_v4_bps: up * 8, ..CounterQuad::default() }
}

fn iface_snapshot(ts: u64, up: u64) -> SnapshotData {
    SnapshotData {
        timestamp_ms: ts,
        interfaces: vec![InterfaceOverviewItem {
            ifindex: 1,
            ifname: "br-lan".to_string(),
            zone: "lan".to_string(),
            metrics: sample(up),
            cumulative: CounterQuad::default(),
        }],
        devices: vec![],
    }
}

fn device_snapshot(ts: u64, mac: &str, up: u64) -> SnapshotData {
    SnapshotData {
        timestamp_ms: ts,
        interfaces: vec![],
        devices: vec![DeviceListItem {
            ifindex: 1,
            logical_iface: "br-lan".to_string(),
            subnet: "-".to_string(),
            ipv4: vec![],
            ipv6: vec![],
            mac: mac.to_string(),
            hostname: "-".to_string(),
            metrics: sample(up),
            cumulative: CounterQuad::default(),
            online: true,
            last_seen_ms: ts,
            neighbor_state: None,
        }],
    }
}

/// Hours of ten milliseconds and days of a hundred, up to a thousand.
fn small_calendar() -> Calendar {
    let mut cal = Calendar::new();
    for t in 0..1000u64 {
        cal.set_hour(t, (t - t % 10, t - t % 10 + 9));
        cal.set_day(t, (t - t % 100, t - t % 100 + 99));
    }
    cal
}

#[test]
fn with_traffic_type_ipv4_clears_v6() {
    let b = AggregatedBucket {
        start_ts_ms: 0,
        end_ts_ms: 1,
        up_v4_bytes: 10,
        down_v4_bytes: 20,
        up_v6_bytes: 30,
        down_v6_bytes: 40,
        up_v4_bps_avg: 1,
        up_v4_bps_max: 2,
        up_v4_bps_min: 0,
        up_v4_bps_p95: 2,
        down_v4_bps_avg: 3,
        down_v4_bps_max: 4,
        down_v4_bps_min: 0,
        down_v4_bps_p95: 4,
        up_v6_bps_avg: 5,
        up_v6_bps_max: 6,
        up_v6_bps_min: 0,
        up_v6_bps_p95: 6,
        down_v6_bps_avg: 7,
        down_v6_bps_max: 8,
        down_v6_bps_min: 0,
        down_v6_bps_p95: 8,
    }
    .with_traffic_type(HistoryTrafficType::Ipv4);
    assert_eq!(b.up_v4_bytes, 10);
    assert_eq!(b.up_v6_bytes, 0);
    assert_eq!(b.up_v6_bps_avg, 0);
}

#[test]
fn with_traffic_type_ipv6_clears_v4() {
    let b = AggregatedBucket {
        start_ts_ms: 0,
        end_ts_ms: 1,
        up_v4_bytes: 10,
        down_v4_bytes: 20,
        up_v6_bytes: 30,
        down_v6_bytes: 40,
        up_v4_bps_avg: 1,
        up_v4_bps_max: 2,
        up_v4_bps_min: 0,
        up_v4_bps_p95: 2,
        down_v4_bps_avg: 3,
        down_v4_bps_max: 4,
        down_v4_bps_min: 0,
        down_v4_bps_p95: 4,
        up_v6_bps_avg: 5,
        up_v6_bps_max: 6,
        up_v6_bps_min: 0,
        up_v6_bps_p95: 6,
        down_v6_bps_avg: 7,
        down_v6_bps_max: 8,
        down_v6_bps_min: 0,
        down_v6_bps_p95: 8,
    }
    .with_traffic_type(HistoryTrafficType::Ipv6);
    assert_eq!(b.up_v6_bytes, 30);
    assert_eq!(b.up_v4_bytes, 0);
}

#[test]
fn hourly_bucket_uses_closed_end_235959999() {
    let ts = Local.with_ymd_and_hms(2024, 1, 15, 10, 0, 0).unwrap().timestamp_millis() as u64;
    let (_, end) = hourly_bucket_local(ts);
    let expected =
        Local.with_ymd_and_hms(2024, 1, 15, 10, 59, 59).unwrap().timestamp_millis() as u64 + 999;
    assert_eq!(end, expected);
}

#[test]
fn daily_bucket_uses_closed_end_235959999() {
    let ts = Local.with_ymd_and_hms(2024, 1, 15, 0, 0, 0).unwrap().timestamp_millis() as u64;
    let (_, end) = daily_bucket_local(ts);
    let expected =
        Local.with_ymd_and_hms(2024, 1, 15, 23, 59, 59).unwrap().timestamp_millis() as u64 + 999;
    assert_eq!(end, expected);
}

#[test]
fn query_aggregate_matches_closed_boundary() {
    let mut h = HistogramHistory::new();
    let ts = Local.with_ymd_and_hms(2024, 1, 15, 10, 0, 0).unwrap().timestamp_millis() as u64;
    let (start, end) = hourly_bucket_local(ts);
    h.restore_iface_bucket(1, bucket(start, end));

    let at_end = h.query_aggregate(1, None, end, end, AggregateBucket::Hourly);
    assert_eq!(at_end.len(), 1);

    let after_end = h.query_aggregate(1, None, end + 1, end + 1, AggregateBucket::Hourly);
    assert!(after_end.is_empty());
}

#[test]
fn cumulative_from_completed_prefers_ring_bytes_as_source() {
    let mut h = HistogramHistory::new();
    let ts = Local.with_ymd_and_hms(2024, 1, 15, 10, 0, 0).unwrap().timestamp_millis() as u64;
    let (start, end) = hourly_bucket_local(ts);

    let mut iface_bucket = bucket(start, end);
    iface_bucket.up_v4_bytes = 100;
    iface_bucket.down_v4_bytes = 200;
    iface_bucket.up_v6_bytes = 300;
    iface_bucket.down_v6_bytes = 400;
    h.restore_iface_bucket(1, iface_bucket.clone());

    let mut device_bucket = bucket(start, end);
    device_bucket.up_v4_bytes = 11;
    device_bucket.down_v4_bytes = 22;
    device_bucket.up_v6_bytes = 33;
    device_bucket.down_v6_bytes = 44;
    h.restore_device_bucket(2, "aa:bb:cc:dd:ee:ff".to_string(), device_bucket.clone());

    let (iface, device) = h.cumulative_from_completed();
    let iface_cum = iface.get(&1).unwrap();
    assert_eq!(iface_cum.up_v4_bytes, 100);
    assert_eq!(iface_cum.down_v4_bytes, 200);
    assert_eq!(iface_cum.up_v6_bytes, 300);
    assert_eq!(iface_cum.down_v6_bytes, 400);

    let dev_cum = device.get(&(2, [0xaa, 0xbb, 0xcc, 0xdd, 0xee, 0xff])).unwrap();
    assert_eq!(dev_cum.up_v4_bytes, 11);
    assert_eq!(dev_cum.down_v4_bytes, 22);
    assert_eq!(dev_cum.up_v6_bytes, 33);
    assert_eq!(dev_cum.down_v6_bytes, 44);
}

#[test]
fn restore_current_hour_state_hits_closed_end_boundary() {
    let mut h = HistogramHistory::new();
    let now = Local.with_ymd_and_hms(2024, 1, 15, 10, 30, 0).unwrap().timestamp_millis() as u64;
    let (start, end) = hourly_bucket_local(now);

    h.restore_current_hour_iface_state(
        3,
        start,
        vec![
            CurrentHourPointState {
                ts_ms: start,
                metrics: CounterQuad { up_v4_bytes: 10, ..CounterQuad::default() },
            },
            CurrentHourPointState {
                ts_ms: end,
                metrics: CounterQuad { up_v4_bytes: 20, ..CounterQuad::default() },
            },
        ],
        now,
    );

    let at_end = h.query_aggregate(3, None, end, end, AggregateBucket::Hourly);
    assert_eq!(at_end.len(), 1);
    assert_eq!(at_end[0].up_v4_bytes, 30);

    let (iface_cum, _) = h.cumulative_from_all();
    assert_eq!(iface_cum.get(&3).map(|x| x.up_v4_bytes), Some(30));
}

#[test]
fn restore_current_hour_state_ignores_non_current_hour() {
    let mut h = HistogramHistory::new();
    let now = Local.with_ymd_and_hms(2024, 1, 15, 11, 5, 0).unwrap().timestamp_millis() as u64;
    let old = Local.with_ymd_and_hms(2024, 1, 15, 10, 5, 0).unwrap().timestamp_millis() as u64;
    let (old_start, old_end) = hourly_bucket_local(old);

    h.restore_current_hour_iface_state(
        7,
        old_start,
        vec![CurrentHourPointState {
            ts_ms: old_end,
            metrics: CounterQuad { up_v4_bytes: 99, ..CounterQuad::default() },
        }],
        now,
    );

    // Direct restore only accepts the current hour; stale hours must go through promote.
    let all = h.query_aggregate(7, None, 0, u64::MAX, AggregateBucket::Hourly);
    assert!(all.is_empty());

    let (iface_cum, _) = h.cumulative_from_all();
    assert!(iface_cum.get(&7).is_none());
}

#[test]
fn promote_stale_points_builds_completed_bucket() {
    let now = Local.with_ymd_and_hms(2024, 1, 15, 11, 5, 0).unwrap().timestamp_millis() as u64;
    let old = Local.with_ymd_and_hms(2024, 1, 15, 10, 5, 0).unwrap().timestamp_millis() as u64;
    let (old_start, old_end) = hourly_bucket_local(old);

    let bucket = promote_stale_points_to_bucket(
        old_start,
        &[CurrentHourPointState {
            ts_ms: old_end,
            metrics: CounterQuad { up_v4_bytes: 99, ..CounterQuad::default() },
        }],
    )
    .expect("stale hour should promote");

    assert_eq!(bucket.start_ts_ms, old_start);
    assert_eq!(bucket.end_ts_ms, old_end);
    assert_eq!(bucket.up_v4_bytes, 99);

    let mut h = HistogramHistory::new();
    h.restore_iface_bucket(7, bucket.clone());
    let all = h.query_aggregate(7, None, 0, u64::MAX, AggregateBucket::Hourly);
    assert_eq!(all.len(), 1);
    assert_eq!(all[0].up_v4_bytes, 99);

    // Dedup path
    assert!(h.has_completed_iface_bucket(7, bucket.start_ts_ms));
    assert!(!h.has_completed_iface_bucket(7, bucket.start_ts_ms + 1));
    let _ = now;
}

#[test]
fn first_sample_of_a_series_is_counted_twice() {
    let cal = small_calendar();
    let mut h = HistogramHistory::new();
    assert!(h.ingest_snapshot_within(&iface_snapshot(11, 5), &cal).is_empty());
    assert!(h.ingest_snapshot_within(&iface_snapshot(15, 7), &cal).is_empty());
    let hours = h.query_aggregate_within(1, None, 0, 999, AggregateBucket::Hourly, &cal);
    assert_eq!(hours.len(), 1);
    assert_eq!((hours[0].start_ts_ms, hours[0].end_ts_ms), (10, 19));
    assert_eq!(hours[0].up_v4_bytes, 17);
    assert_eq!(hours[0].up_v4_bps_avg, 45);
    assert_eq!(hours[0].up_v4_bps_min, 40);
    assert_eq!(hours[0].up_v4_bps_max, 56);
    assert_eq!(hours[0].up_v4_bps_p95, 56);
}

#[test]
fn a_sample_of_the_next_hour_closes_the_hour() {
    let cal = small_calendar();
    let mut h = HistogramHistory::new();
    h.ingest_snapshot_within(&iface_snapshot(11, 5), &cal);
    let done = h.ingest_snapshot_within(&iface_snapshot(23, 2), &cal);
    assert_eq!(done.len(), 1);
    match &done[0] {
        CompletedAggregate::Iface { iface, bucket } => {
            assert_eq!(iface, "br-lan");
            assert_eq!((bucket.start_ts_ms, bucket.end_ts_ms), (10, 19));
            assert_eq!(bucket.up_v4_bytes, 10);
        }
        CompletedAggregate::Device { .. } => panic!("not a device"),
    }
    let (totals, _) = h.cumulative_from_all();
    assert_eq!(totals.get(&1).unwrap().up_v4_bytes, 12);
    assert_eq!(totals.get(&1).unwrap().up_v4_bps, 0);
    assert!(h.has_completed_iface_bucket(1, 10));
}

#[test]
fn devices_are_found_in_any_case() {
    let cal = small_calendar();
    let mut h = HistogramHistory::new();
    h.ingest_snapshot_within(&device_snapshot(11, "AA:BB:CC:DD:EE:FF", 5), &cal);
    let done = h.ingest_snapshot_within(&device_snapshot(21, "AA:BB:CC:DD:EE:FF", 3), &cal);
    assert!(matches!(&done[0], CompletedAggregate::Device { mac, .. } if mac == "AA:BB:CC:DD:EE:FF"));
    let mac = "aa:bb:cc:dd:ee:ff";
    let hours = h.query_aggregate_within(1, Some(mac), 0, 999, AggregateBucket::Hourly, &cal);
    assert_eq!(hours.len(), 2);
    assert!(h.has_completed_device_bucket(1, mac, 10));
    assert!(!h.has_completed_device_bucket(2, mac, 10));
    assert!(!h.has_completed_device_bucket(1, mac, 20));
    let blank = h.query_aggregate_within(1, Some("  "), 0, 999, AggregateBucket::Hourly, &cal);
    assert!(blank.is_empty());
    assert!(h.remove_device(1, mac));
    assert!(!h.remove_device(1, mac));
    let gone = h.query_aggregate_within(1, Some(mac), 0, 999, AggregateBucket::Hourly, &cal);
    assert!(gone.is_empty());
}

#[test]
fn hours_add_up_to_days() {
    let cal = small_calendar();
    let hourly = vec![bucket(110, 119), bucket(20, 29), bucket(30, 39)];
    let days = merge_hourly_within(&hourly, &cal);
    assert_eq!(days.len(), 2);
    assert_eq!((days[0].start_ts_ms, days[0].end_ts_ms), (0, 99));
    assert_eq!(days[0].up_v4_bytes, 2);
    assert_eq!(days[0].up_v4_bps_p95, 1);
    assert_eq!((days[1].start_ts_ms, days[1].end_ts_ms), (100, 199));
    assert_eq!(days[1].down_v6_bytes, 1);
    assert!(merge_hourly_within(&[], &cal).is_empty());
}

#[test]
fn local_days_hold_local_hours() {
    let ten = Local.with_ymd_and_hms(2024, 1, 15, 10, 0, 0).unwrap().timestamp_millis() as u64;
    let next = Local.with_ymd_and_hms(2024, 1, 16, 3, 0, 0).unwrap().timestamp_millis() as u64;
    let (a, b) = hourly_bucket_local(ten);
    let (c, d) = hourly_bucket_local(next);
    assert_eq!(a, ten);
    let days = merge_hourly_to_daily(&[bucket(a, b), bucket(c, d)]);
    assert_eq!(days.len(), 2);
    assert_eq!((days[0].start_ts_ms, days[0].end_ts_ms), daily_bucket_local(ten));
    assert_eq!((days[1].start_ts_ms, days[1].end_ts_ms), daily_bucket_local(next));
}

#[test]
fn times_out_of_range_have_no_window() {
    assert_eq!(hourly_bucket_local(i64::MAX as u64), (0, 0));
    assert_eq!(daily_bucket_local(i64::MAX as u64), (0, 0));
}

#[test]
fn samples_before_the_epoch_keep_their_hour() {
    let (start, end) = hourly_bucket_local(u64::MAX);
    assert!(start <= end);
    assert_eq!(end - start, 3_599_999);
    assert!(start <= u64::MAX && u64::MAX - start < 3_600_000);
}

#[test]
fn rings_keep_one_leap_year() {
    let mut h = HistogramHistory::new();
    for i in 0..8790u64 {
        h.restore_iface_bucket(1, bucket(i * 10, i * 10 + 9));
    }
    assert!(!h.has_completed_iface_bucket(1, 50));
    assert!(h.has_completed_iface_bucket(1, 60));
    assert!(h.has_completed_iface_bucket(1, 87890));
    let (totals, _) = h.cumulative_from_completed();
    assert_eq!(totals.get(&1).unwrap().up_v4_bytes, 8784);
}

#[test]
fn open_hours_are_exported_in_order() {
    let cal = small_calendar();
    let mut h = HistogramHistory::new();
    h.ingest_snapshot_within(&device_snapshot(11, "bb:bb:bb:bb:bb:bb", 5), &cal);
    h.ingest_snapshot_within(&device_snapshot(12, "aa:aa:aa:aa:aa:aa", 6), &cal);
    h.ingest_snapshot_within(&iface_snapshot(13, 7), &cal);
    let state = h.export_current_hour_state();
    assert_eq!(state.iface.len(), 1);
    assert_eq!(state.iface[0].hour_start_ts_ms, 10);
    assert_eq!(state.iface[0].points.len(), 2);
    assert_eq!(state.device.len(), 2);
    assert_eq!(state.device[0].mac, "aa:aa:aa:aa:aa:aa");
    assert_eq!(state.device[1].mac, "bb:bb:bb:bb:bb:bb");
    assert_eq!(state.device[1].points[0].ts_ms, 11);
}

#[test]
fn saved_samples_are_cleaned_and_restored() {
    let mut h = HistogramHistory::new();
    let p = |ts: u64, up: u64| CurrentHourPointState { ts_ms: ts, metrics: sample(up) };
    let points = vec![p(15, 1), p(12, 2), p(15, 4), p(25, 8), p(9, 16)];
    h.restore_iface_points_within(1, 10, &points, (10, 19));
    let state = h.export_current_hour_state();
    let kept: Vec<(u64, u64)> =
        state.iface[0].points.iter().map(|x| (x.ts_ms, x.metrics.up_v4_bytes)).collect();
    assert_eq!(kept, vec![(12, 2), (15, 1)]);
    let mut again = HistogramHistory::new();
    again.restore_iface_points_within(1, 10, &state.iface[0].points, (10, 19));
    let twice = again.export_current_hour_state();
    assert_eq!(twice.iface[0].points, state.iface[0].points);
    again.restore_iface_points_within(2, 11, &points, (10, 19));
    assert_eq!(again.export_current_hour_state().iface.len(), 1);
}

#[test]
fn local_ingestion_closes_local_hours() {
    let ten = Local.with_ymd_and_hms(2024, 1, 15, 10, 30, 0).unwrap().timestamp_millis() as u64;
    let mut h = HistogramHistory::new();
    assert!(h.ingest_snapshot_collect_completed(&iface_snapshot(ten, 5)).is_empty());
    let done = h.ingest_snapshot_collect_completed(&iface_snapshot(ten + 3_600_000, 1));
    assert_eq!(done.len(), 1);
    match &done[0] {
        CompletedAggregate::Iface { bucket, .. } => {
            assert_eq!((bucket.start_ts_ms, bucket.end_ts_ms), hourly_bucket_local(ten));
            assert_eq!(bucket.up_v4_bytes, 10);
        }
        CompletedAggregate::Device { .. } => panic!("not a device"),
    }
    h.ingest_snapshot(&iface_snapshot(ten + 3_600_001, 2));
    let day = h.query_aggregate(1, None, 0, u64::MAX, AggregateBucket::Daily);
    assert_eq!(day.len(), 1);
    assert_eq!(day[0].up_v4_bytes, 13);
}

#[test]
fn hours_with_one_beginning_stay_as_they_came() {
    let cal = small_calendar();
    let mut h = HistogramHistory::new();
    for (start, up) in [(20u64, 1u64), (10, 2), (20, 3), (10, 4)] {
        let mut b = bucket(start, start + 9);
        b.up_v4_bytes = up;
        h.restore_iface_bucket(1, b);
    }
    let hours = h.query_aggregate_within(1, None, 0, 99, AggregateBucket::Hourly, &cal);
    assert_eq!(hours.iter().map(|b| b.up_v4_bytes).collect::<Vec<u64>>(), vec![2, 4, 1, 3]);
}
