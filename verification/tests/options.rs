use bandix_plus::command::{
    bind_address, history_points, last_persist_after, persist_due, plan_run, validate_arguments,
    validate_parsed, ArgumentError, RunPlan,
};
use bandix_plus::options::{LogLevel, Options, TcBackend, TcOrder};

fn options() -> Options {
    Options {
        enable_traffic: true,
        traffic_enable_storage: false,
        traffic_retention_days: 366,
        iface: vec!["br-lan".to_string()],
        log_level: "info".to_string(),
        tc_order: "default".to_string(),
        tc_backend: "auto".to_string(),
        netlink_priority: None,
        tcx_anchor_ingress_id: None,
        tcx_anchor_egress_id: None,
        history_window_minutes: 10,
        host: "127.0.0.1".to_string(),
        port: 8787,
        data_dir: "/tmp".to_string(),
    }
}

fn problem(o: &Options) -> String {
    validate_arguments(o, None).unwrap_err().message()
}

#[test]
fn tc_order_parse_first() {
    assert_eq!(TcOrder::parse("first"), Some(TcOrder::First));
    assert_eq!(TcOrder::parse("FIRST"), Some(TcOrder::First));
}

#[test]
fn tc_order_parse_default() {
    assert_eq!(TcOrder::parse("default"), Some(TcOrder::Default));
}

#[test]
fn tc_order_parse_last() {
    assert_eq!(TcOrder::parse("last"), Some(TcOrder::Last));
}

#[test]
fn tc_order_parse_before() {
    assert_eq!(TcOrder::parse("before"), Some(TcOrder::Before));
}

#[test]
fn tc_order_parse_after() {
    assert_eq!(TcOrder::parse("after"), Some(TcOrder::After));
}

#[test]
fn tc_order_parse_invalid() {
    assert_eq!(TcOrder::parse("invalid"), None);
}

#[test]
fn tc_backend_parse_auto() {
    assert_eq!(TcBackend::parse("auto"), Some(TcBackend::Auto));
    assert_eq!(TcBackend::parse("AUTO"), Some(TcBackend::Auto));
}

#[test]
fn tc_backend_parse_tcx() {
    assert_eq!(TcBackend::parse("tcx"), Some(TcBackend::Tcx));
}

#[test]
fn tc_backend_parse_netlink() {
    assert_eq!(TcBackend::parse("netlink"), Some(TcBackend::Netlink));
}

#[test]
fn tc_backend_parse_invalid() {
    assert_eq!(TcBackend::parse("invalid"), None);
}

#[test]
fn kelvin_sign_is_a_small_k() {
    assert_eq!(TcBackend::parse("netlin\u{212a}"), Some(TcBackend::Netlink));
    assert_eq!(TcBackend::from_lowercase("NETLINK"), None);
}

#[test]
fn log_levels_in_any_case() {
    assert_eq!(LogLevel::parse("trace"), Some(LogLevel::Trace));
    assert_eq!(LogLevel::parse("Debug"), Some(LogLevel::Debug));
    assert_eq!(LogLevel::parse("INFO"), Some(LogLevel::Info));
    assert_eq!(LogLevel::parse("warn"), Some(LogLevel::Warn));
    assert_eq!(LogLevel::parse("error"), Some(LogLevel::Error));
    assert_eq!(LogLevel::parse("loud"), None);
}

#[test]
fn good_options_pass() {
    assert!(validate_arguments(&options(), None).is_ok());
    let plan = plan_run(&options(), None).unwrap();
    assert_eq!(plan, RunPlan { log_level: LogLevel::Info, serve: true });
}

#[test]
fn no_interface_is_a_problem() {
    let mut o = options();
    o.iface = vec![];
    assert_eq!(problem(&o), "at least one --iface is required when --enable-traffic=true");
}

#[test]
fn rejected_interface_is_a_problem() {
    let e = validate_arguments(&options(), Some("interface br-lan not found".to_string()));
    assert_eq!(e.unwrap_err().message(), "interface br-lan not found");
}

#[test]
fn bad_order_and_backend_are_problems() {
    let mut o = options();
    o.tc_order = "middle".to_string();
    assert_eq!(
        problem(&o),
        "Invalid tc-order: middle. Valid: first, default, last, before, after"
    );
    o.tc_order = "Last".to_string();
    o.tc_backend = "xdp".to_string();
    assert_eq!(problem(&o), "Invalid tc-backend: xdp. Valid: auto, tcx, netlink");
}

#[test]
fn priority_does_not_go_with_tcx() {
    let mut o = options();
    o.netlink_priority = Some(5);
    assert!(validate_arguments(&o, None).is_ok());
    o.tc_backend = "TCX".to_string();
    assert_eq!(problem(&o), "--netlink-priority cannot be used with --tc-backend=tcx");
}

#[test]
fn anchors_go_with_before_and_after_only() {
    let mut o = options();
    o.tc_order = "before".to_string();
    assert_eq!(
        problem(&o),
        "anchor program id is required when --tc-order is before/after; use --tcx-anchor-ingress-id/--tcx-anchor-egress-id"
    );
    o.tcx_anchor_egress_id = Some(7);
    assert!(validate_arguments(&o, None).is_ok());
    o.tc_backend = "netlink".to_string();
    assert_eq!(problem(&o), "--tc-order=before/after is only supported with tcx backend");
    o.tc_order = "first".to_string();
    assert_eq!(
        problem(&o),
        "--tcx-anchor-ingress-id and --tcx-anchor-egress-id can only be used when --tc-order is before/after"
    );
}

#[test]
fn blank_host_is_a_problem_even_when_idle() {
    let mut o = options();
    o.enable_traffic = false;
    o.iface = vec![];
    o.tc_order = "nonsense".to_string();
    assert!(validate_arguments(&o, None).is_ok());
    o.host = " \t ".to_string();
    assert_eq!(problem(&o), "--host cannot be empty");
}

#[test]
fn bad_log_level_stops_the_run() {
    let mut o = options();
    o.log_level = "noisy".to_string();
    let e = plan_run(&o, None).unwrap_err();
    assert_eq!(
        e.message(),
        "Invalid log level: noisy. Valid values: trace, debug, info, warn, error"
    );
}

#[test]
fn idle_run_does_not_serve() {
    let mut o = options();
    o.enable_traffic = false;
    assert!(!plan_run(&o, None).unwrap().serve);
}

#[test]
fn parsed_arguments_decide() {
    let o = options();
    assert!(validate_parsed(&o, None, Some(TcOrder::Last), Some(TcBackend::Tcx)).is_ok());
    let e = validate_parsed(&o, None, None, Some(TcBackend::Tcx)).unwrap_err();
    assert!(matches!(e, ArgumentError::InvalidTcOrder(s) if s == "default"));
}

#[test]
fn windows_have_at_least_one_sample() {
    assert_eq!(history_points(0), 1);
    assert_eq!(history_points(10), 600);
}

#[test]
fn saving_is_due_once_a_minute() {
    assert!(persist_due(60_000, 0));
    assert!(!persist_due(59_999, 0));
    assert!(!persist_due(5, 10));
    assert_eq!(last_persist_after(70_000, 1_000, true, true), 70_000);
    assert_eq!(last_persist_after(70_000, 1_000, true, false), 1_000);
    assert_eq!(last_persist_after(70_000, 1_000, false, true), 1_000);
}

#[test]
fn address_is_host_and_port() {
    assert_eq!(bind_address("127.0.0.1", 8787), "127.0.0.1:8787");
    assert_eq!(bind_address("::", 0), ":::0");
    assert_eq!(bind_address("h", 65535), "h:65535");
}
