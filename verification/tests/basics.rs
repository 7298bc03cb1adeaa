use std::collections::VecDeque;

use bandix_plus::calendar::{
    bounds_around, daily_bucket_local, period_first_day, period_range_ms, to_signed, to_unsigned,
    window, Calendar, LocalTime, PeriodScope, DAY_MS, HOUR_MS,
};
use bandix_plus::counters::{
    accumulate_bucket, add_quad, bucket_accum_to_aggregated, cumulative_from_buckets, delta_bytes,
    empty_bucket, points_to_bucket_within, AggregatedBucket, BucketAccum, CounterQuad,
    CurrentHourPointState, HistoryDirection, HistoryPoint, HistoryTrafficType,
};
use bandix_plus::history::{series_to_samples, sum_by_time, trim_history_queue, TrafficHistory};
use bandix_plus::hours::{
    clean_points, normalize_points_within, promote_points_within, trim_histogram_completed,
};
use bandix_plus::lists::sort_once;
use bandix_plus::mac;
use bandix_plus::snapshot::{DeviceListItem, InterfaceOverviewItem, SnapshotData};
use bandix_plus::sorting::sort_numbers;
use bandix_plus::stats::{add_capped, bps_stats};
use bandix_plus::table::Table;
use bandix_plus::text;
use bandix_plus::topology::{ipv4_in_cidr, Interface, TopologySnapshot};
use chrono::{Local, TimeZone};

fn quad(up_v4: u64) -> CounterQuad {
    CounterQuad { up_v4_bytes: up_v4, up_v4_bps: 8 * up_v4, ..CounterQuad::default() }
}

fn point(ts_ms: u64, up_v4: u64) -> HistoryPoint {
    HistoryPoint { ts_ms, metrics: quad(up_v4), cumulative: quad(100 * up_v4) }
}

fn device(ifindex: u32, mac: &str, up_v4: u64) -> DeviceListItem {
    DeviceListItem {
        ifindex,
        logical_iface: "lan".to_string(),
        subnet: "-".to_string(),
        ipv4: vec![],
        ipv6: vec![],
        mac: mac.to_string(),
        hostname: "-".to_string(),
        metrics: quad(up_v4),
        cumulative: quad(2 * up_v4),
        online: true,
        last_seen_ms: 0,
        neighbor_state: None,
    }
}

#[test]
fn no_rates_give_zeros() {
    assert_eq!(bps_stats(&[]), (0, 0, 0, 0));
}

#[test]
fn halves_round_up() {
    assert_eq!(bps_stats(&[1, 2]), (2, 1, 2, 2));
    assert_eq!(bps_stats(&[4, 1, 2]), (2, 1, 4, 4));
    assert_eq!(bps_stats(&[7]), (7, 7, 7, 7));
}

#[test]
fn percentile_is_taken_below_the_end() {
    let twenty: Vec<u64> = (1..=20).rev().collect();
    assert_eq!(bps_stats(&twenty), (11, 1, 20, 20));
    let forty: Vec<u64> = (1..=40).collect();
    assert_eq!(bps_stats(&forty), (21, 1, 40, 39));
}

#[test]
fn mean_of_large_rates_is_exact() {
    assert_eq!(bps_stats(&[u64::MAX, u64::MAX - 2]).0, u64::MAX - 1);
}

#[test]
fn sums_stop_at_the_largest_number() {
    assert_eq!(add_capped(1, 2), 3);
    assert_eq!(add_capped(u64::MAX, 2), u64::MAX);
    let mut a = quad(u64::MAX - 1);
    a.up_v4_bps = 3;
    add_quad(&mut a, &CounterQuad { up_v4_bytes: 5, down_v6_bps: 9, ..CounterQuad::default() });
    assert_eq!(a.up_v4_bytes, u64::MAX);
    assert_eq!(a.up_v4_bps, 3);
    assert_eq!(a.down_v6_bps, 9);
}

#[test]
fn counters_may_begin_anew() {
    assert_eq!(delta_bytes(10, 4), 6);
    assert_eq!(delta_bytes(4, 4), 0);
    assert_eq!(delta_bytes(3, 4), 3);
}

#[test]
fn samples_fill_a_bucket() {
    let b = points_to_bucket_within(10, 19, &[point(11, 1), point(12, 4)]);
    assert_eq!((b.start_ts_ms, b.end_ts_ms), (10, 19));
    assert_eq!(b.up_v4_bytes, 5);
    assert_eq!((b.up_v4_bps_avg, b.up_v4_bps_min), (20, 8));
    assert_eq!((b.up_v4_bps_max, b.up_v4_bps_p95), (32, 32));
    assert_eq!(b.down_v6_bytes, 0);
}

#[test]
fn accumulators_close_into_buckets() {
    let mut a = BucketAccum::new(1, 2);
    a.add_metrics(&quad(3));
    a.add_metrics(&quad(5));
    let b = bucket_accum_to_aggregated(a);
    assert_eq!((b.up_v4_bytes, b.up_v4_bps_avg, b.up_v4_bps_p95), (8, 32, 40));
}

#[test]
fn buckets_add_up() {
    let mut a = empty_bucket(0, 9);
    assert_eq!(a, empty_bucket(0, 9));
    let b = AggregatedBucket { up_v4_bytes: 2, down_v6_bps_p95: 7, ..empty_bucket(5, 6) };
    accumulate_bucket(&mut a, &b);
    accumulate_bucket(&mut a, &b);
    assert_eq!((a.start_ts_ms, a.end_ts_ms), (0, 9));
    assert_eq!((a.up_v4_bytes, a.down_v6_bps_p95), (4, 14));
    let total = cumulative_from_buckets(&[a, b]);
    assert_eq!(total, CounterQuad { up_v4_bytes: 6, ..CounterQuad::default() });
}

#[test]
fn filtering_twice_changes_nothing_more() {
    let b = AggregatedBucket { up_v4_bytes: 2, up_v6_bytes: 3, ..empty_bucket(0, 1) };
    let v4 = b.with_traffic_type(HistoryTrafficType::Ipv4);
    let v6 = b.with_traffic_type(HistoryTrafficType::Ipv6);
    assert_eq!(v4.with_traffic_type(HistoryTrafficType::Ipv4), v4);
    assert_eq!(v4.up_v4_bytes + v6.up_v6_bytes, 5);
    assert_eq!(b.with_traffic_type(HistoryTrafficType::All), b);
}

#[test]
fn saved_samples_are_sorted_and_kept_once() {
    let p = |ts_ms: u64, up: u64| CurrentHourPointState { ts_ms, metrics: quad(up) };
    let saved = [p(19, 1), p(10, 2), p(19, 3), p(20, 4), p(9, 5)];
    let kept = clean_points(&saved, (10, 19));
    let seen: Vec<(u64, u64)> = kept.iter().map(|x| (x.ts_ms, x.metrics.up_v4_bytes)).collect();
    assert_eq!(seen, vec![(10, 2), (19, 1)]);
    assert!(normalize_points_within(11, &saved, (10, 19)).is_none());
    assert!(normalize_points_within(30, &saved, (30, 39)).is_none());
    assert_eq!(normalize_points_within(10, &saved, (10, 19)).unwrap().points, kept);
    assert!(promote_points_within(11, &saved, (10, 19)).is_none());
    let b = promote_points_within(10, &saved, (10, 19)).unwrap();
    assert_eq!((b.end_ts_ms, b.up_v4_bytes), (19, 3));
}

#[test]
fn queues_lose_the_oldest() {
    let mut q: VecDeque<AggregatedBucket> = VecDeque::new();
    for i in 0..5u64 {
        q.push_back(empty_bucket(i, i));
    }
    trim_histogram_completed(&mut q, 2);
    assert_eq!(q.iter().map(|b| b.start_ts_ms).collect::<Vec<u64>>(), vec![3, 4]);
    let mut p: VecDeque<HistoryPoint> = VecDeque::new();
    p.push_back(point(1, 1));
    p.push_back(point(2, 1));
    trim_history_queue(&mut p, 1);
    assert_eq!(series_to_samples(&p).len(), 1);
    assert_eq!(series_to_samples(&p)[0].ts_ms, 2);
    assert_eq!(series_to_samples(&p)[0].up_v4_bytes_cumulative, 100);
}

#[test]
fn samples_of_one_time_add_up() {
    let sums = sum_by_time(&vec![point(5, 1), point(3, 2), point(5, 4)]);
    assert_eq!(sums.iter().map(|s| s.ts_ms).collect::<Vec<u64>>(), vec![3, 5]);
    assert_eq!((sums[1].up_v4_bytes, sums[1].up_v4_bps), (5, 40));
    assert_eq!(sums[1].up_v4_bytes_cumulative, 500);
}

#[test]
fn history_keeps_its_window() {
    let mut h = TrafficHistory::new(2);
    for ts in 1..=3u64 {
        h.ingest_snapshot(&SnapshotData {
            timestamp_ms: ts,
            interfaces: vec![InterfaceOverviewItem {
                ifindex: 1,
                ifname: "lan".to_string(),
                zone: "lan".to_string(),
                metrics: quad(ts),
                cumulative: quad(10 * ts),
            }],
            devices: vec![device(1, "AA:bb", ts), device(2, "aa:BB", 10 * ts)],
        });
    }
    let all = HistoryTrafficType::All;
    let both = HistoryDirection::Both;
    let iface = h.query_iface(1, all, both);
    assert_eq!(iface.iter().map(|s| s.ts_ms).collect::<Vec<u64>>(), vec![2, 3]);
    assert_eq!(iface[1].up_v4_bytes_cumulative, 30);
    assert!(h.query_iface(9, all, both).is_empty());
    let merged = h.query_device(None, "aa:bb", all, both);
    assert_eq!(merged.iter().map(|s| s.up_v4_bytes).collect::<Vec<u64>>(), vec![22, 33]);
    let one = h.query_device(Some(2), "AA:BB", all, both);
    assert_eq!(one[1].up_v4_bytes, 30);
    assert!(h.remove_device(1, "aa:bb"));
    assert!(!h.remove_device(1, "aa:bb"));
    assert!(h.query_device(Some(1), "aa:bb", all, both).is_empty());
    assert_eq!(h.query_device(Some(2), "aa:bb", all, both).len(), 2);
}

#[test]
fn a_window_holds_at_least_one_sample() {
    let mut h = TrafficHistory::new(0);
    let shot = |ts: u64| SnapshotData {
        timestamp_ms: ts,
        interfaces: vec![],
        devices: vec![device(1, "a", 1)],
    };
    h.ingest_snapshot(&shot(1));
    h.ingest_snapshot(&shot(2));
    let all = h.query_device(None, "A", HistoryTrafficType::All, HistoryDirection::Both);
    assert_eq!(all.len(), 1);
    assert_eq!(all[0].ts_ms, 2);
}

#[test]
fn numbers_are_sorted() {
    assert_eq!(sort_numbers(&[3, 1, 2, 1]), vec![1, 1, 2, 3]);
    assert_eq!(sort_once(&vec![3, 1, 2, 1]), vec![1, 2, 3]);
}

#[test]
fn tables_keep_one_value_under_a_key() {
    let mut t: Table<u32, u64> = Table::new();
    t.insert(7, 1);
    t.insert(3, 2);
    t.insert(7, 5);
    assert_eq!(t.len(), 2);
    assert_eq!((*t.key_at(0), *t.value_at(0)), (7, 5));
    assert_eq!(t.get(&3), Some(&2));
    assert!(!t.contains_key(&4));
    t.clear();
    assert_eq!(t.len(), 0);
}

#[test]
fn signed_numbers_keep_their_bits() {
    assert_eq!(to_signed(u64::MAX), -1);
    assert_eq!(to_signed(5), 5);
    assert_eq!(to_signed(1 << 63), i64::MIN);
    assert_eq!(to_unsigned(-1), u64::MAX);
    assert_eq!(to_unsigned(i64::MIN), 1 << 63);
    assert_eq!(to_unsigned(i64::MAX), i64::MAX as u64);
}

#[test]
fn bounds_follow_the_offset() {
    assert_eq!(bounds_around(18_000_001, 0, HOUR_MS), (18_000_000, 21_599_999));
    assert_eq!(bounds_around(18_000_001, 1800, HOUR_MS), (18_000_000, 21_599_999));
    assert_eq!(bounds_around(0, -1, HOUR_MS), (-3_600_000, -1));
    assert_eq!(bounds_around(0, -1, DAY_MS), (-86_400_000, -1));
    assert_eq!(bounds_around(u64::MAX, 0, DAY_MS), (-86_400_000, -1));
}

#[test]
fn only_clear_readings_make_a_window() {
    assert_eq!(window(LocalTime::Single(3), LocalTime::Single(9)), (3, 9));
    assert_eq!(window(LocalTime::Skipped, LocalTime::Single(9)), (0, 0));
    assert_eq!(window(LocalTime::Single(3), LocalTime::Ambiguous(8, 9)), (0, 0));
}

#[test]
fn periods_begin_on_calendar_days() {
    assert_eq!(period_first_day(PeriodScope::Today, 19858), Some(19858));
    assert_eq!(period_first_day(PeriodScope::Week, 19858), Some(19856));
    assert_eq!(period_first_day(PeriodScope::Week, 0), Some(-3));
    assert_eq!(period_first_day(PeriodScope::Month, 19858), Some(19844));
    assert_eq!(period_first_day(PeriodScope::Year, 19858), Some(19723));
    assert_eq!(period_first_day(PeriodScope::Month, 19782), Some(19754));
    assert_eq!(period_first_day(PeriodScope::Year, -1), Some(-365));
    assert_eq!(period_first_day(PeriodScope::Month, 99_999_999), None);
    assert_eq!(period_first_day(PeriodScope::Year, 99_999_999), None);
}

#[test]
fn periods_begin_at_local_midnight() {
    let at = |y: i32, m: u32, d: u32, h: u32| {
        Local.with_ymd_and_hms(y, m, d, h, 0, 0).unwrap().timestamp_millis() as u64
    };
    let now = at(2024, 5, 15, 13);
    assert_eq!(period_range_ms(PeriodScope::Today, now), (at(2024, 5, 15, 0), now));
    assert_eq!(period_range_ms(PeriodScope::Week, now), (at(2024, 5, 13, 0), now));
    assert_eq!(period_range_ms(PeriodScope::Month, now), (at(2024, 5, 1, 0), now));
    assert_eq!(period_range_ms(PeriodScope::Year, now), (at(2024, 1, 1, 0), now));
    assert_eq!(period_range_ms(PeriodScope::Year, i64::MAX as u64), (0, i64::MAX as u64));
    assert_eq!(daily_bucket_local(now).0, at(2024, 5, 15, 0));
}

#[test]
fn calendars_answer_what_was_written_down() {
    let mut cal = Calendar::new();
    assert_eq!(cal.hour(5), (0, 0));
    cal.set_hour(5, (1, 9));
    cal.set_day(5, (0, 99));
    assert_eq!(cal.hour(5), (1, 9));
    assert_eq!(cal.day(5), (0, 99));
    assert_eq!(cal.look_up_hour(5), (1, 9));
    let ten = Local.with_ymd_and_hms(2024, 1, 15, 10, 0, 0).unwrap().timestamp_millis() as u64;
    assert_eq!(cal.look_up_hour(ten + 1).0, ten);
    assert_eq!(cal.hour(ten + 1).0, ten);
    assert_eq!(cal.look_up_day(ten), daily_bucket_local(ten));
}

#[test]
fn text_is_trimmed_and_compared() {
    assert_eq!(text::trim(" \u{3000}a b\t\u{85}"), "a b");
    assert_eq!(text::trim("\u{200b}x"), "\u{200b}x");
    assert_eq!(text::trim("  "), "");
    assert!(text::eq_ignore_ascii_case("aB\u{e9}", "Ab\u{e9}"));
    assert!(!text::eq_ignore_ascii_case("\u{c9}", "\u{e9}"));
    assert!(!text::eq_ignore_ascii_case("a", "ab"));
    assert_eq!(text::to_lower("ABC\u{c9}z"), "abc\u{c9}z");
    assert_eq!(text::rank_texts("a", "ab"), -1);
    assert_eq!(text::rank_texts("b", "ab"), 1);
    assert_eq!(text::rank_texts("ab", "ab"), 0);
    let l = |v: &[&str]| v.iter().map(|s| s.to_string()).collect::<Vec<String>>();
    assert_eq!(text::rank_lists(&l(&["a", "b"]), &l(&["a", "c"])), -1);
    assert_eq!(text::rank_lists(&l(&["a"]), &l(&[])), 1);
}

#[test]
fn addresses_are_written_and_read() {
    let m: [u8; 6] = [0, 1, 0xab, 0xff, 0x10, 9];
    assert_eq!(mac::to_string(&m), "00:01:ab:ff:10:09");
    assert_eq!(mac::from_str("00:01:AB:ff:10:09"), Ok(m));
    assert!(mac::from_str("00:01:ab:ff:10").is_err());
    assert!(mac::from_str("00-01-ab-ff-10-09").is_err());
    assert!(mac::from_str("00:01:ab:ff:10:0g").is_err());
    assert!(mac::from_str("").is_err());
}

#[test]
fn addresses_lie_in_ranges() {
    assert!(ipv4_in_cidr("192.168.1.7", "192.168.1.1/24"));
    assert!(!ipv4_in_cidr("192.168.2.7", "192.168.1.1/24"));
    assert!(ipv4_in_cidr("8.8.8.8", "1.2.3.4/0"));
    assert!(ipv4_in_cidr("1.2.3.4", "1.2.3.4/32"));
    assert!(!ipv4_in_cidr("1.2.3.5", "1.2.3.4/32"));
    assert!(!ipv4_in_cidr("1.2.3.4", "1.2.3.4/33"));
    assert!(!ipv4_in_cidr("1.2.3.4", "1.2.3.4"));
    assert!(!ipv4_in_cidr("1.2.3", "1.2.3.4/8"));
    assert!(!ipv4_in_cidr("1.2.3.256", "1.2.3.4/8"));
}

#[test]
fn interfaces_are_found_by_index_and_name() {
    let iface = |ifindex: u32, name: &str| Interface {
        ifindex,
        name: name.to_string(),
        zone: "lan".to_string(),
        parent_ifindex: None,
        ipv4_cidrs: vec![],
        ipv6_cidrs: vec![],
    };
    let t = TopologySnapshot::from_interfaces(vec![iface(1, "a"), iface(2, "b"), iface(2, "c")]);
    assert_eq!(t.by_ifindex(2).unwrap().name, "b");
    assert!(t.by_ifindex(3).is_none());
    assert_eq!(t.ifindex_by_name("c"), Some(2));
    assert_eq!(t.ifindex_by_name("d"), None);
    assert_eq!(t.clone().interfaces().len(), 3);
    assert_eq!(t.interfaces()[0].zone_name(), "lan");
}
