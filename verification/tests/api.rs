use bandix_plus::api::{
    devices, epoch_millis, error_reply, low_half, now_millis, ok_reply, overview, parse_bucket, parse_direction,
    parse_period_scope, parse_traffic_type, resolve_query_iface_to_ifindex, trend, DevicesQuery,
    HistoryQuery, OverviewQuery,
};
use bandix_plus::calendar::PeriodScope;
use bandix_plus::counters::{
    empty_bucket, AggregateBucket, AggregatedBucket, CounterQuad, HistoryDirection,
    HistoryTrafficType,
};
use bandix_plus::devices::{
    blank_schedule, change_reply, delete_device_error, deletion_reply, forget_device, policy_reply,
    read_deletion, rename_reply, schedule_reply, set_device_hostname, DeleteDeviceRequest,
    DeleteDeviceResult, Forgotten, ScheduledRule, SetDeviceHostnameRequest, TimeSlot,
    STATUS_BAD_REQUEST, STATUS_INTERNAL, STATUS_OK,
};
use bandix_plus::histogram::HistogramHistory;
use bandix_plus::history::TrafficHistory;
use bandix_plus::mac;
use bandix_plus::runtime::{DeviceTrafficKey, KnownDevice, MonitorRuntime};
use bandix_plus::snapshot::{DeviceListItem, InterfaceOverviewItem, SnapshotData};
use bandix_plus::topology::{Interface, TopologySnapshot};
use bandix_plus::usage::{
    histogram_reply, usage_ranking, AggregateQuery, BadRequest, UsageRankingQuery,
};
use chrono::{Local, TimeZone};

const MAC: &str = "aa:bb:cc:dd:ee:ff";
const HOUR: u64 = 3_600_000;

fn topology() -> TopologySnapshot {
    let iface = |ifindex: u32, name: &str, zone: &str| Interface {
        ifindex,
        name: name.to_string(),
        zone: zone.to_string(),
        parent_ifindex: None,
        ipv4_cidrs: vec![],
        ipv6_cidrs: vec![],
    };
    TopologySnapshot::from_interfaces(vec![iface(1, "eth0", "unknown"), iface(2, "guest0", "guest")])
}

fn device(ifindex: u32, iface: &str, mac: &str) -> DeviceListItem {
    DeviceListItem {
        ifindex,
        logical_iface: iface.to_string(),
        subnet: "-".to_string(),
        ipv4: vec!["192.168.1.2".to_string()],
        ipv6: vec![],
        mac: mac.to_string(),
        hostname: "old-name".to_string(),
        metrics: CounterQuad { up_v4_bytes: 100, ..CounterQuad::default() },
        cumulative: CounterQuad { up_v4_bytes: 900, ..CounterQuad::default() },
        online: true,
        last_seen_ms: 1,
        neighbor_state: Some("REACHABLE".to_string()),
    }
}

fn snapshot() -> SnapshotData {
    SnapshotData {
        timestamp_ms: 1,
        interfaces: vec![InterfaceOverviewItem {
            ifindex: 7,
            ifname: "wan".to_string(),
            zone: "wan".to_string(),
            metrics: CounterQuad::default(),
            cumulative: CounterQuad { up_v4_bytes: 5, ..CounterQuad::default() },
        }],
        devices: vec![device(1, "eth0", MAC), device(2, "guest0", MAC)],
    }
}

fn known(ifindex: u32, mac: [u8; 6], host: &str) -> KnownDevice {
    KnownDevice {
        ifindex,
        mac,
        ipv4: vec![],
        ipv6: vec![],
        hostname: host.to_string(),
        logical_iface: "eth0".to_string(),
        subnet: "-".to_string(),
        last_seen_ms: 1,
    }
}

fn noon() -> u64 {
    Local.with_ymd_and_hms(2024, 5, 15, 12, 0, 0).unwrap().timestamp_millis() as u64
}

fn hour(start: u64, up_v4: u64, down_v6: u64) -> AggregatedBucket {
    AggregatedBucket {
        up_v4_bytes: up_v4,
        down_v6_bytes: down_v6,
        ..empty_bucket(start, start + HOUR - 1)
    }
}

fn text(s: &str) -> Option<String> {
    Some(s.to_string())
}

#[test]
fn periods_are_parsed() {
    assert_eq!(parse_period_scope(None), Ok(None));
    assert_eq!(parse_period_scope(Some("  ")), Ok(None));
    assert_eq!(parse_period_scope(Some(" ALL ")), Ok(None));
    assert_eq!(parse_period_scope(Some("Today")), Ok(Some(PeriodScope::Today)));
    assert_eq!(parse_period_scope(Some("week")), Ok(Some(PeriodScope::Week)));
    assert_eq!(parse_period_scope(Some("month")), Ok(Some(PeriodScope::Month)));
    assert_eq!(parse_period_scope(Some("year")), Ok(Some(PeriodScope::Year)));
    assert_eq!(
        parse_period_scope(Some("invalid")),
        Err("invalid period, expected one of: all, today, week, month, year".to_string())
    );
}

#[test]
fn filters_are_parsed() {
    assert_eq!(parse_traffic_type(Some("IPv4")), HistoryTrafficType::Ipv4);
    assert_eq!(parse_traffic_type(Some("ipv6")), HistoryTrafficType::Ipv6);
    assert_eq!(parse_traffic_type(Some(" ipv6")), HistoryTrafficType::All);
    assert_eq!(parse_traffic_type(None), HistoryTrafficType::All);
    assert_eq!(parse_direction(Some("UP")), HistoryDirection::Up);
    assert_eq!(parse_direction(Some("down")), HistoryDirection::Down);
    assert_eq!(parse_direction(None), HistoryDirection::Both);
    assert_eq!(parse_bucket(Some("Daily")), AggregateBucket::Daily);
    assert_eq!(parse_bucket(Some("weekly")), AggregateBucket::Hourly);
    assert_eq!(parse_bucket(None), AggregateBucket::Hourly);
}

#[test]
fn replies_carry_data_or_an_error() {
    let ok = ok_reply(5u8);
    assert!(ok.ok && ok.data == 5 && ok.error.is_none());
    let bad = error_reply(6u8, "no".to_string());
    assert!(!bad.ok && bad.data == 6);
    assert_eq!(bad.error.as_deref(), Some("no"));
}

#[test]
fn the_clock_counts_milliseconds() {
    assert!(now_millis() > 1_700_000_000_000);
    assert_eq!(low_half(5), 5);
    assert_eq!(low_half((1u128 << 64) + 7), 7);
    assert_eq!(epoch_millis(Some((1u128 << 64) + 8)), 8);
    assert_eq!(epoch_millis(None), 0);
}

#[test]
fn interfaces_are_resolved() {
    let t = topology();
    let s = snapshot();
    assert_eq!(resolve_query_iface_to_ifindex(&t, &s, Some(" eth0 ")), Ok(1));
    assert_eq!(resolve_query_iface_to_ifindex(&t, &s, Some("wan")), Ok(7));
    let none = resolve_query_iface_to_ifindex(&t, &s, None);
    assert_eq!(none, Err("iface is required".to_string()));
    let blank = resolve_query_iface_to_ifindex(&t, &s, Some(" "));
    assert_eq!(blank, Err("iface is required".to_string()));
    let unknown = resolve_query_iface_to_ifindex(&t, &s, Some(" x "));
    assert_eq!(unknown, Err("unknown iface: x".to_string()));
}

#[test]
fn overview_counts_a_period() {
    let now = noon();
    let mut h = HistogramHistory::new();
    h.restore_iface_bucket(7, hour(now - 2 * HOUR, 10, 0));
    h.restore_iface_bucket(7, hour(now - 20 * HOUR, 100, 0));
    let all = overview(&snapshot(), &h, &OverviewQuery { period: None }, now);
    assert!(all.ok);
    assert_eq!(all.data[0].cumulative.up_v4_bytes, 5);
    let today = overview(&snapshot(), &h, &OverviewQuery { period: text("today") }, now);
    assert_eq!(today.data[0].cumulative.up_v4_bytes, 10);
    let year = overview(&snapshot(), &h, &OverviewQuery { period: text("year") }, now);
    assert_eq!(year.data[0].cumulative.up_v4_bytes, 110);
    let bad = overview(&snapshot(), &h, &OverviewQuery { period: text("now") }, now);
    assert!(!bad.ok && bad.data.is_empty());
    assert!(bad.error.unwrap().contains("period"));
}

#[test]
fn devices_are_filtered_and_counted() {
    let now = noon();
    let mut h = HistogramHistory::new();
    h.restore_device_bucket(1, MAC.to_uppercase(), hour(now - 2 * HOUR, 10, 0));
    let empty = HistogramHistory::new();
    let q = |iface: Option<String>, period: Option<String>| DevicesQuery { iface, period };
    assert_eq!(devices(&snapshot(), &empty, &q(None, None), now).data.len(), 2);
    assert_eq!(devices(&snapshot(), &empty, &q(text(""), text("all")), now).data.len(), 2);
    let eth = devices(&snapshot(), &h, &q(text("eth0"), text("week")), now);
    assert!(eth.ok);
    assert_eq!(eth.data.len(), 1);
    assert_eq!(eth.data[0].cumulative.up_v4_bytes, 10);
    assert!(devices(&snapshot(), &empty, &q(text(" eth0"), None), now).data.is_empty());
    let bad = devices(&snapshot(), &empty, &q(None, text("invalid")), now);
    assert!(!bad.ok);
    assert!(bad.error.unwrap().contains("period"));
}

#[test]
fn trend_asks_for_an_interface() {
    let mut history = TrafficHistory::new(60);
    history.ingest_snapshot(&snapshot());
    let missing = trend(&topology(), &snapshot(), &history, &HistoryQuery::default());
    assert!(!missing.ok);
    assert!(missing.error.unwrap().contains("iface"));
    let q = |iface: &str, mac: Option<String>| HistoryQuery {
        iface: text(iface),
        mac,
        traffic_type: None,
        direction: None,
    };
    let none = trend(&topology(), &snapshot(), &history, &q("eth0", None));
    assert!(none.ok && none.data.is_empty());
    let wan = trend(&topology(), &snapshot(), &history, &q("wan", text(" ")));
    assert_eq!(wan.data[0].up_v4_bytes_cumulative, 5);
    let phone = trend(&topology(), &snapshot(), &history, &q("eth0", text("AA:BB:CC:DD:EE:FF")));
    assert_eq!(phone.data.len(), 1);
    assert_eq!(phone.data[0].up_v4_bytes, 100);
}

#[test]
fn histogram_sums_the_known_devices() {
    let now = noon();
    let a = mac::from_str(MAC).unwrap();
    let b = mac::from_str("00:00:00:00:00:01").unwrap();
    let mut runtime = MonitorRuntime::default();
    runtime.device_registry.entries.insert((1, a), known(1, a, "a"));
    runtime.device_registry.entries.insert((1, b), known(1, b, "b"));
    runtime.device_registry.entries.insert((2, a), known(2, a, "c"));
    let mut h = HistogramHistory::new();
    h.restore_device_bucket(1, MAC.to_string(), hour(now - HOUR, 1, 2));
    h.restore_device_bucket(1, "00:00:00:00:00:01".to_string(), hour(now - HOUR, 10, 20));
    h.restore_device_bucket(1, "00:00:00:00:00:01".to_string(), hour(now - 2 * HOUR, 100, 0));
    h.restore_device_bucket(1, "00:00:00:00:00:01".to_string(), hour(now - 40 * HOUR, 1000, 0));
    h.restore_device_bucket(1, "00:00:00:00:00:09".to_string(), hour(now - HOUR, 5, 5));
    h.restore_iface_bucket(1, hour(now - HOUR, 7777, 0));
    let ask = |q: &AggregateQuery| {
        histogram_reply(&topology(), &snapshot(), &runtime, &h, q, now)
    };
    let missing = ask(&AggregateQuery::default());
    assert!(!missing.ok);
    assert!(missing.error.unwrap().contains("iface"));

    let all = ask(&AggregateQuery { iface: text("eth0"), ..AggregateQuery::default() });
    assert!(all.ok);
    assert_eq!(all.data.len(), 2);
    assert_eq!(all.data[0].up_v4_bytes, 100);
    assert_eq!((all.data[1].up_v4_bytes, all.data[1].down_v6_bytes), (11, 22));

    let v4 = ask(&AggregateQuery {
        iface: text("eth0"),
        traffic_type: text("ipv4"),
        bucket: text("daily"),
        start_ms: Some(0),
        end_ms: Some(now),
        ..AggregateQuery::default()
    });
    assert_eq!(v4.data.len(), 2);
    assert_eq!((v4.data[0].up_v4_bytes, v4.data[1].up_v4_bytes), (1000, 111));
    assert_eq!(v4.data[1].down_v6_bytes, 0);

    let one = ask(&AggregateQuery {
        iface: text("eth0"),
        mac: text("00:00:00:00:00:09"),
        ..AggregateQuery::default()
    });
    assert_eq!(one.data.len(), 1);
    assert_eq!(one.data[0].up_v4_bytes, 5);
}

#[test]
fn rankings_put_the_busiest_first() {
    let now = noon();
    let mut runtime = MonitorRuntime::default();
    let mut h = HistogramHistory::new();
    let macs = ["00:00:00:00:00:02", "00:00:00:00:00:01", "00:00:00:00:00:03", "00:00:00:00:00:04"];
    let bytes = [5u64, 5, 9, 0];
    for i in 0..4 {
        let m = mac::from_str(macs[i]).unwrap();
        runtime.device_registry.entries.insert((1, m), known(1, m, "host"));
        h.restore_device_bucket(1, macs[i].to_string(), hour(now - HOUR, bytes[i], bytes[i]));
    }
    let ask = |q: &UsageRankingQuery| {
        usage_ranking(&topology(), &snapshot(), &runtime, &h, q, now)
    };
    let all = ask(&UsageRankingQuery { iface: text("eth0"), ..UsageRankingQuery::default() });
    let all = all.unwrap();
    assert!(all.ok);
    let order: Vec<&str> = all.data.iter().map(|x| x.mac.as_str()).collect();
    assert_eq!(order, vec![macs[2], macs[1], macs[0]]);
    assert_eq!((all.data[0].up_bytes, all.data[0].down_bytes, all.data[0].total_bytes), (9, 9, 18));
    assert_eq!((all.data[0].iface.as_str(), all.data[0].hostname.as_str()), ("eth0", "host"));

    let two = ask(&UsageRankingQuery {
        iface: text("eth0"),
        traffic_type: text("ipv6"),
        limit: Some(2),
        ..UsageRankingQuery::default()
    });
    let two = two.unwrap();
    assert_eq!(two.data.len(), 2);
    assert_eq!((two.data[0].up_bytes, two.data[0].total_bytes), (0, 9));
    let unlimited = ask(&UsageRankingQuery {
        iface: text("eth0"),
        limit: Some(0),
        ..UsageRankingQuery::default()
    });
    assert_eq!(unlimited.unwrap().data.len(), 3);
    let early = ask(&UsageRankingQuery {
        iface: text("eth0"),
        start_ms: Some(0),
        end_ms: Some(5),
        ..UsageRankingQuery::default()
    });
    assert!(early.unwrap().data.is_empty());
}

#[test]
fn rankings_refuse_bad_requests() {
    let runtime = MonitorRuntime::default();
    let h = HistogramHistory::new();
    let ask = |q: &UsageRankingQuery| {
        usage_ranking(&topology(), &snapshot(), &runtime, &h, q, noon()).unwrap_err()
    };
    assert_eq!(ask(&UsageRankingQuery::default()), BadRequest);
    assert_eq!(
        ask(&UsageRankingQuery { iface: text(" "), ..UsageRankingQuery::default() }),
        BadRequest
    );
    assert_eq!(
        ask(&UsageRankingQuery { iface: text("nope"), ..UsageRankingQuery::default() }),
        BadRequest
    );
    assert_eq!(
        ask(&UsageRankingQuery {
            iface: text("eth0"),
            start_ms: Some(9),
            end_ms: Some(8),
            ..UsageRankingQuery::default()
        }),
        BadRequest
    );
}

fn rename(iface: &str, mac: &str, hostname: &str) -> SetDeviceHostnameRequest {
    SetDeviceHostnameRequest {
        iface: iface.to_string(),
        mac: mac.to_string(),
        hostname: hostname.to_string(),
    }
}

#[test]
fn a_shown_device_is_renamed() {
    let mut s = snapshot();
    let mut runtime = MonitorRuntime::default();
    let req = rename(" eth0", " AA:BB:CC:DD:EE:FF ", " my-phone ");
    assert_eq!(set_device_hostname(&mut s, &mut runtime, &topology(), &req, 50), Ok(()));
    assert_eq!(s.devices[0].hostname, "my-phone");
    assert_eq!(s.devices[1].hostname, "old-name");
    let m = mac::from_str(MAC).unwrap();
    let d = runtime.device_registry.entries.get(&(1, m)).unwrap();
    assert_eq!((d.hostname.as_str(), d.last_seen_ms), ("my-phone", 50));
    assert_eq!(d.ipv4, vec!["192.168.1.2".to_string()]);
    let again = rename("eth0", MAC, "tablet");
    assert_eq!(set_device_hostname(&mut s, &mut runtime, &topology(), &again, 60), Ok(()));
    let d = runtime.device_registry.entries.get(&(1, m)).unwrap();
    assert_eq!((d.hostname.as_str(), d.last_seen_ms), ("tablet", 50));
}

#[test]
fn bad_renamings_are_refused() {
    let mut runtime = MonitorRuntime::default();
    let mut try_it = |req: SetDeviceHostnameRequest| {
        let mut s = SnapshotData::default();
        set_device_hostname(&mut s, &mut runtime, &topology(), &req, 0).unwrap_err()
    };
    assert_eq!(try_it(rename(" ", MAC, "x")), "iface is required");
    assert_eq!(try_it(rename("eth0", "", "x")), "mac is required");
    assert_eq!(try_it(rename("eth0", MAC, " ")), "hostname is required");
    assert_eq!(try_it(rename("not-exist", MAC, "x")), "unknown iface: not-exist");
    assert_eq!(try_it(rename("eth0", "aa", "x")), "invalid mac format");
    assert_eq!(try_it(rename("eth0", MAC, "x")), "device not found");
}

#[test]
fn a_deleted_device_leaves_nothing_behind() {
    let m = mac::from_str(MAC).unwrap();
    let mut s = snapshot();
    let mut history = TrafficHistory::new(60);
    let mut h = HistogramHistory::new();
    history.ingest_snapshot(&s);
    h.ingest_snapshot(&s);
    let mut runtime = MonitorRuntime::default();
    runtime.device_registry.entries.insert((1, m), known(1, m, "phone"));
    runtime.cumulative_device.insert((1, m), CounterQuad::default());
    let key = DeviceTrafficKey { ifindex: 1, mac: m, ip_version: 4, direction: 1 };
    runtime.prev_device_bytes.insert(key, 100);

    let req = DeleteDeviceRequest { iface: " eth0 ".to_string(), mac: MAC.to_string() };
    assert_eq!(read_deletion(&req, &topology()), Ok((1, m)));
    let done = forget_device(&mut s, &mut runtime, &mut history, &mut h, 1, m);
    assert_eq!(done, Forgotten { device_state: true, traffic_data: true });
    assert_eq!(s.devices.len(), 1);
    assert_eq!(s.devices[0].ifindex, 2);
    assert!(!runtime.device_registry.entries.contains_key(&(1, m)));
    assert!(!runtime.cumulative_device.contains_key(&(1, m)));
    assert_eq!(runtime.prev_device_bytes.len(), 0);
    let all = HistoryTrafficType::All;
    assert!(history.query_device(Some(1), MAC, all, HistoryDirection::Both).is_empty());
    assert_eq!(history.query_device(Some(2), MAC, all, HistoryDirection::Both).len(), 1);
    assert!(h.query_aggregate(1, Some(MAC), 0, u64::MAX, AggregateBucket::Hourly).is_empty());
    assert_eq!(h.query_aggregate(2, Some(MAC), 0, u64::MAX, AggregateBucket::Hourly).len(), 1);
    let again = forget_device(&mut s, &mut runtime, &mut history, &mut h, 1, m);
    assert_eq!(again, Forgotten { device_state: false, traffic_data: false });

    let reply = deletion_reply(Ok(done), 3, Ok(false), Ok(()));
    assert!(reply.ok);
    assert_eq!(
        reply.data,
        DeleteDeviceResult {
            device_state_deleted: true,
            traffic_data_deleted: true,
            rate_limit_configs_deleted: 3,
        }
    );
}

#[test]
fn bad_deletions_are_refused() {
    let req = |iface: &str, mac: &str| DeleteDeviceRequest {
        iface: iface.to_string(),
        mac: mac.to_string(),
    };
    let refused = |r: DeleteDeviceRequest| read_deletion(&r, &topology()).unwrap_err();
    assert_eq!(refused(req("", MAC)), "iface is required");
    assert_eq!(refused(req("eth0", "zz")), "invalid mac format");
    assert_eq!(refused(req("nope", MAC)), "unknown iface: nope");
    let nothing = Forgotten { device_state: false, traffic_data: false };
    let disk = deletion_reply(Ok(nothing), 0, Err("io".to_string()), Ok(()));
    assert_eq!(disk.error.as_deref(), Some("delete device traffic failed: io"));
    let save = deletion_reply(Ok(nothing), 0, Ok(true), Err("full".to_string()));
    assert_eq!(save.error.as_deref(), Some("persist device deletion failed: full"));
    assert!(deletion_reply(Ok(nothing), 0, Ok(true), Ok(())).data.traffic_data_deleted);
    let bad = delete_device_error("why".to_string());
    assert!(!bad.ok && !bad.data.device_state_deleted);
    assert_eq!(bad.error.as_deref(), Some("why"));
}

#[test]
fn replies_say_which_step_failed() {
    let ok = rename_reply(Ok(()), Ok(()));
    assert!(ok.ok && ok.data == "ok");
    let bad = rename_reply(Err("no".to_string()), Ok(()));
    assert!(!bad.ok && bad.data == "error");
    let unsaved = rename_reply(Ok(()), Err("full".to_string()));
    assert_eq!(unsaved.error.as_deref(), Some("persist devices state failed: full"));
    let policy = policy_reply(Ok(()), Err("full".to_string()));
    assert_eq!(policy.error.as_deref(), Some("persist policy failed: full"));
    assert_eq!(change_reply(Ok(5), Ok(()), 0).0, STATUS_OK);
    let (status, reply) = change_reply(Ok(5), Err("full".to_string()), 0);
    assert_eq!((status, reply.data), (STATUS_INTERNAL, 0));
    assert_eq!(reply.error.as_deref(), Some("persist policy failed: full"));
    let (status, reply) = change_reply(Err("bad time".to_string()), Ok(()), 0);
    assert_eq!((status, reply.error.as_deref()), (STATUS_BAD_REQUEST, Some("bad time")));
}

#[test]
fn schedules_that_do_not_go_through_are_answered_blank() {
    let rule = || ScheduledRule {
        id: "1".to_string(),
        iface: "eth0".to_string(),
        mac: MAC.to_string(),
        time_slot: TimeSlot {
            start: "09:00".to_string(),
            end: "18:00".to_string(),
            days: vec![1, 2, 3, 4, 5],
        },
        down_v4_kbps: 100,
        down_v6_kbps: 101,
        up_v4_kbps: 102,
        up_v6_kbps: 103,
    };
    let (status, made) = schedule_reply(Ok(rule()), Ok(()));
    assert!(status == STATUS_OK && made.ok && made.error.is_none());
    assert_eq!(format!("{:?}", made.data), format!("{:?}", rule()));
    let is_blank = |x: &ScheduledRule| {
        assert_eq!((x.id.as_str(), x.iface.as_str(), x.mac.as_str()), ("", "", ""));
        assert_eq!((x.time_slot.start.as_str(), x.time_slot.end.as_str()), ("", ""));
        assert!(x.time_slot.days.is_empty());
        assert_eq!((x.down_v4_kbps, x.down_v6_kbps, x.up_v4_kbps, x.up_v6_kbps), (0, 0, 0, 0));
    };
    is_blank(&blank_schedule());
    let (status, refused) = schedule_reply(Err("bad time".to_string()), Ok(()));
    assert!(status == STATUS_BAD_REQUEST && !refused.ok);
    assert_eq!(refused.error.as_deref(), Some("bad time"));
    is_blank(&refused.data);
    let (status, unsaved) = schedule_reply(Ok(rule()), Err("full".to_string()));
    assert!(status == STATUS_INTERNAL && !unsaved.ok);
    assert_eq!(unsaved.error.as_deref(), Some("persist policy failed: full"));
    is_blank(&unsaved.data);
}

#[test]
fn totals_are_taken_over_from_the_hours() {
    let mut h = HistogramHistory::new();
    h.restore_iface_bucket(1, hour(0, 10, 1));
    h.restore_iface_bucket(1, hour(HOUR, 20, 2));
    h.restore_device_bucket(1, MAC.to_string(), hour(0, 3, 4));
    h.restore_device_bucket(1, "no address".to_string(), hour(0, 5, 6));
    let mut runtime = MonitorRuntime::default();
    runtime.cumulative_iface.insert(9, CounterQuad::default());
    runtime.adopt_totals(&h);
    assert_eq!(runtime.cumulative_iface.len(), 1);
    assert_eq!(runtime.cumulative_iface.get(&1).unwrap().up_v4_bytes, 30);
    assert_eq!(runtime.cumulative_device.len(), 1);
    let m = mac::from_str(MAC).unwrap();
    assert_eq!(runtime.cumulative_device.get(&(1, m)).unwrap().down_v6_bytes, 4);
}
