use overwatchd::api::client_api;
use overwatchd::control::{hist_tier, maintenance_due, plan_request, Params, Request};
use overwatchd::history::HistTier;
use overwatchd::snapshot::ClientView;

fn no_params() -> Params {
    Params { top_n: None, tier: None, client: None, from: None, to: None, max_points: None, limit: None }
}

#[test]
fn history_defaults_apply() {
    let mut p = no_params();
    p.tier = Some("realtime".to_string());
    let r = plan_request("history", &p, 50).unwrap();
    match r {
        Request::History { tier, client, from, to, max_points } => {
            assert_eq!(tier, HistTier::Realtime);
            assert_eq!(client, None);
            assert_eq!(from, 0);
            assert_eq!(to, i64::MAX);
            assert_eq!(max_points, 500);
        },
        other => panic!("unexpected {other:?}"),
    }
    p.tier = Some("century".to_string());
    assert_eq!(plan_request("history", &p, 50).unwrap_err(), "missing or invalid tier");
    assert_eq!(plan_request("history", &no_params(), 50).unwrap_err(), "missing or invalid tier");
}

#[test]
fn unknown_method_errors() {
    assert_eq!(plan_request("bogus", &no_params(), 50).unwrap_err(), "unknown method");
}

#[test]
fn limits_are_capped_and_defaults_come_from_config() {
    let mut p = no_params();
    p.top_n = Some(1_000_000);
    assert!(matches!(plan_request("summary", &p, 50), Ok(Request::Summary { top_n: 10_000 })));
    assert!(matches!(plan_request("summary", &no_params(), 50), Ok(Request::Summary { top_n: 5 })));
    match plan_request("dns_top", &no_params(), 42).unwrap() {
        Request::DnsTop { limit, from, to, client } => {
            assert_eq!(limit, 42);
            assert_eq!(from, 0);
            assert_eq!(to, i64::MAX);
            assert_eq!(client, None);
        },
        other => panic!("unexpected {other:?}"),
    }
    let mut q = no_params();
    q.limit = Some(99_999);
    q.client = Some("aa".to_string());
    q.from = Some(-5);
    match plan_request("dns_top", &q, 42).unwrap() {
        Request::DnsTop { limit, from, client, .. } => {
            assert_eq!(limit, 10_000);
            assert_eq!(from, -5);
            assert_eq!(client, Some("aa".to_string()));
        },
        other => panic!("unexpected {other:?}"),
    }
    let mut h = no_params();
    h.tier = Some("month".to_string());
    h.max_points = Some(200_000);
    assert!(matches!(
        plan_request("history", &h, 1),
        Ok(Request::History { tier: HistTier::Month, max_points: 100_000, .. })
    ));
    assert!(matches!(plan_request("clients", &no_params(), 1), Ok(Request::Clients)));
    assert!(matches!(plan_request("status", &no_params(), 1), Ok(Request::Status)));
}

#[test]
fn tier_names_and_maintenance_interval() {
    assert_eq!(hist_tier("day"), Some(HistTier::Day));
    assert_eq!(hist_tier("week"), Some(HistTier::Week));
    assert_eq!(hist_tier("Week"), None);
    assert!(!maintenance_due(299, 0));
    assert!(maintenance_due(300, 0));
    assert!(maintenance_due(i64::MAX, i64::MIN));
}

#[test]
fn clients_method_returns_bits() {
    let view = |mac: &str, rx_bps: u64| ClientView {
        mac: mac.to_string(),
        ip: "192.168.1.5".to_string(),
        host: String::new(),
        rx_bps,
        tx_bps: 0,
        rx_total: rx_bps,
        tx_total: 0,
        conns_tcp: 0,
        conns_udp: 0,
    };
    let clients = vec![view("aa", 1000), view("bb", 50)];
    assert!(matches!(plan_request("clients", &no_params(), 50), Ok(Request::Clients)));
    let arr: Vec<_> = clients.iter().map(client_api).collect();
    assert_eq!(arr.len(), 2);
    let aa = arr.iter().find(|c| c.mac == "aa").unwrap();
    assert_eq!(aa.rx_bps, 8000);
}
