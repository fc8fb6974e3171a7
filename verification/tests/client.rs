use curb::client::{
    expect_app_limits, expect_apps, expect_limiter, expect_pong, expect_quotas, expect_status,
    host_request, parse_direction, parse_period, parse_scope, HostError, Reply,
};
use curb::config::DaemonConfig;
use curb::daemon::{
    app_limits_reply, dispatch, limiter_reply, services, status, Action, ENGINE_UNAVAILABLE,
    MONITOR_UNAVAILABLE, QUOTA_UNAVAILABLE,
};
use curb::display::{format_status, print_limiter, render_table};
use curb::proto::{
    socket_path, AppStat, AppStatus, Direction, HostLimit, HostTotals, LimiterState,
    MonitorSnapshot, QuotaPeriod, Request, Response, Scope, ScopedCap, PROTOCOL_VERSION,
};
use curb::rate::RateError;

#[test]
fn words_name_scopes_directions_and_periods() {
    assert_eq!(parse_scope("lan"), Scope::Lan);
    assert_eq!(parse_scope("internet"), Scope::Internet);
    assert_eq!(parse_scope("both"), Scope::Both);
    assert_eq!(parse_scope("LAN"), Scope::Both);
    assert_eq!(parse_direction("down"), Direction::Down);
    assert_eq!(parse_direction("up"), Direction::Up);
    assert_eq!(parse_direction("both"), Direction::Both);
    assert_eq!(parse_period("hourly"), QuotaPeriod::Hourly);
    assert_eq!(parse_period("daily"), QuotaPeriod::Daily);
    assert_eq!(parse_period("weekly"), QuotaPeriod::Weekly);
    assert_eq!(parse_period("monthly"), QuotaPeriod::Monthly);
    assert_eq!(parse_period("total"), QuotaPeriod::Total);
    assert_eq!(parse_period("never"), QuotaPeriod::Daily);
}

#[test]
fn host_caps_need_one_direction() {
    match host_request(Some("10mbit"), None).unwrap() {
        Request::SetHostLimit { down_bps, up_bps, lan_down_bps, inet_up_bps, .. } => {
            assert_eq!((down_bps, up_bps), (Some(1_250_000), None));
            assert_eq!((lan_down_bps, inet_up_bps), (None, None));
        }
        other => panic!("{other:?}"),
    }
    assert_eq!(host_request(None, None).unwrap_err(), HostError::Missing);
    assert_eq!(
        host_request(Some("x"), Some("-1b")).unwrap_err(),
        HostError::Down(RateError::Unrecognized)
    );
    assert_eq!(
        host_request(None, Some("-1b")).unwrap_err(),
        HostError::Up(RateError::Negative)
    );
}

fn refusal(a: Action) -> String {
    match a {
        Action::Answer(Response::Error { message }) => message,
        other => panic!("{other:?}"),
    }
}

#[test]
fn requests_to_missing_parts_are_refused() {
    let none = services(false, false);
    assert!(matches!(dispatch(Request::Ping, &none), Action::Answer(Response::Pong)));
    assert!(matches!(dispatch(Request::GetStatus, &none), Action::Status));
    assert_eq!(refusal(dispatch(Request::ListApps, &none)), MONITOR_UNAVAILABLE);
    assert_eq!(refusal(dispatch(Request::GetLimiter, &none)), ENGINE_UNAVAILABLE);
    assert_eq!(refusal(dispatch(Request::SetLimiterEnabled(true), &none)), ENGINE_UNAVAILABLE);
    assert_eq!(refusal(dispatch(Request::ListAppLimits, &none)), ENGINE_UNAVAILABLE);
    let clear = Request::ClearAppLimit { exe: "/a".to_string() };
    assert_eq!(refusal(dispatch(clear, &none)), ENGINE_UNAVAILABLE);
    assert_eq!(refusal(dispatch(Request::ListQuotas, &none)), QUOTA_UNAVAILABLE);
    let clear = Request::ClearQuota { exe: "/a".to_string() };
    assert_eq!(refusal(dispatch(clear, &none)), QUOTA_UNAVAILABLE);
    match dispatch(Request::ListConnections, &none) {
        Action::Answer(Response::Connections(v)) => assert!(v.is_empty()),
        other => panic!("{other:?}"),
    }
    // Quotas need both the monitor and the limiter.
    assert_eq!(refusal(dispatch(Request::ListQuotas, &services(true, false))), QUOTA_UNAVAILABLE);
    assert!(matches!(dispatch(Request::ListQuotas, &services(true, true)), Action::ListQuotas));
    assert!(matches!(dispatch(Request::ListApps, &services(true, false)), Action::Apps));
}

#[test]
fn requests_carry_their_values() {
    let all = services(true, true);
    let req = Request::SetHostLimit {
        down_bps: Some(1),
        up_bps: Some(2),
        lan_down_bps: Some(3),
        lan_up_bps: Some(4),
        inet_down_bps: Some(5),
        inet_up_bps: Some(6),
    };
    match dispatch(req, &all) {
        Action::SetHostLimit(h) => {
            assert_eq!((h.down_bps, h.up_bps), (Some(1), Some(2)));
            assert_eq!((h.lan.down_bps, h.lan.up_bps), (Some(3), Some(4)));
            assert_eq!((h.internet.down_bps, h.internet.up_bps), (Some(5), Some(6)));
        }
        other => panic!("{other:?}"),
    }
    let req = Request::SetQuota {
        exe: "/a".to_string(),
        budget_bytes: 9,
        period: QuotaPeriod::Weekly,
        direction: Direction::Up,
    };
    match dispatch(req, &all) {
        Action::SetQuota { exe, budget_bytes, period, direction } => {
            assert_eq!(exe, "/a");
            assert_eq!((budget_bytes, period, direction), (9, QuotaPeriod::Weekly, Direction::Up));
        }
        other => panic!("{other:?}"),
    }
    assert!(matches!(dispatch(Request::SetLimiterEnabled(false), &all), Action::SetEnabled(false)));
}

fn limiter(enabled: bool) -> LimiterState {
    LimiterState {
        enabled,
        host: HostLimit {
            down_bps: Some(1_250_000),
            up_bps: None,
            lan: ScopedCap::default(),
            internet: ScopedCap::default(),
        },
        interface: "eno1".to_string(),
    }
}

#[test]
fn outcomes_become_answers() {
    assert!(matches!(limiter_reply(Ok(limiter(true))), Response::Limiter(s) if s.enabled));
    assert!(
        matches!(limiter_reply(Err("no".to_string())), Response::Error { message } if message == "no")
    );
    assert!(matches!(app_limits_reply(Ok(Vec::new())), Response::AppLimits(v) if v.is_empty()));
    assert!(
        matches!(app_limits_reply(Err("x".to_string())), Response::Error { message } if message == "x")
    );
}

#[test]
fn answers_are_read() {
    assert!(matches!(expect_pong(Response::Pong), Reply::Value(())));
    assert!(matches!(expect_pong(Response::Done), Reply::Unexpected(Response::Done)));
    let error = || Response::Error { message: "m".to_string() };
    assert!(matches!(expect_pong(error()), Reply::Unexpected(Response::Error { .. })));
    assert!(matches!(expect_apps(error()), Reply::Refused(m) if m == "m"));
    assert!(matches!(expect_limiter(error()), Reply::Refused(m) if m == "m"));
    assert!(matches!(expect_app_limits(Response::Pong), Reply::Unexpected(Response::Pong)));
    assert!(matches!(expect_quotas(Response::Quotas(Vec::new())), Reply::Value(v) if v.is_empty()));
    assert!(matches!(expect_limiter(Response::Limiter(limiter(false))), Reply::Value(s) if !s.enabled));
    let s = status("1.2.3", 7, 61, None);
    assert!(matches!(expect_status(Response::Status(s)), Reply::Value(s) if s.pid == 7));
}

#[test]
fn status_lines() {
    let s = status("1.2.3", 7, 61, Some(true));
    assert_eq!(s.protocol_version, PROTOCOL_VERSION);
    assert_eq!(
        format_status(&s),
        "curbd v1.2.3  (pid 7)\n  protocol : v1\n  uptime   : 1m 1s\n  limiter  : on\n"
    );
    assert!(!status("1", 1, 1, None).limiter_enabled);
    assert_eq!(
        print_limiter(&limiter(false)),
        "limiter  : OFF   (interface eno1)\n  ↓ down : 10.0 Mbit\n  ↑ up   : unlimited\n"
    );
}

#[test]
fn caps_and_paths() {
    assert!(ScopedCap::default().is_empty());
    assert!(!ScopedCap { down_bps: Some(1), up_bps: None }.is_empty());
    assert_eq!(socket_path(None), "/run/curbd.sock");
    assert_eq!(socket_path(Some("/tmp/x".to_string())), "/tmp/x");
    let auto = DaemonConfig::default();
    assert_eq!(auto.shaping_interface(Some("eno1".to_string())), Some("eno1".to_string()));
    let fixed = DaemonConfig::with_interface("wlan0");
    assert_eq!(fixed.shaping_interface(Some("eno1".to_string())), Some("wlan0".to_string()));
    assert_eq!(DaemonConfig::default().shaping_interface(None), None);
}

#[test]
fn table_of_applications() {
    let app = |name: &str, down_bps: u64| AppStat {
        exe: "/x".to_string(),
        name: name.to_string(),
        pids: 2,
        down_bps,
        up_bps: 0,
        down_total: 2048,
        up_total: 12,
        down_spark: Vec::new(),
        up_spark: Vec::new(),
        status: AppStatus::Watching,
        lan_down_bps: 0,
        lan_up_bps: 0,
        inet_down_bps: 0,
        inet_up_bps: 0,
    };
    let mut snap = MonitorSnapshot {
        apps: Vec::new(),
        host: HostTotals { down_bps: 125, down_total: 1024, ..HostTotals::default() },
        timestamp_ms: 0,
    };
    let head = format!(
        "  HOST   ↓ {:>11}  ↑ {:>11}     (total ↓ 1.0 KB / ↑ 0 B)\n  {:<28} {:>3}  {:>11}  {:>11}  {:>9}  {:>9}\n  {}\n",
        "1.0 Kbit", "0 bit", "APPLICATION", "PID", "↓ RATE", "↑ RATE", "↓ TOTAL", "↑ TOTAL",
        "─".repeat(80)
    );
    assert_eq!(render_table(&snap, 25), format!("{head}  (no traffic observed yet)\n"));
    snap.apps.push(app("firefox", 125));
    snap.apps.push(app("a-name-that-is-longer-than-the-column", 0));
    let first = format!(
        "  {:<28} {:>3}  {:>11}  {:>11}  {:>9}  {:>9}\n",
        "firefox", 2, "1.0 Kbit", "0 bit", "2.0 KB", "12 B"
    );
    let second = format!(
        "  {:<28} {:>3}  {:>11}  {:>11}  {:>9}  {:>9}\n",
        "a-name-that-is-longer-than-…", 2, "0 bit", "0 bit", "2.0 KB", "12 B"
    );
    assert_eq!(render_table(&snap, usize::MAX), format!("{head}{first}{second}"));
    assert_eq!(render_table(&snap, 1), format!("{head}{first}"));
    assert_eq!(render_table(&snap, 0), head);
}
