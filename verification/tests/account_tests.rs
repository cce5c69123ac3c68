use overwatchd::account::{Accountant, ClientStats};
use overwatchd::classify::{IpNet, LanClassifier};
use overwatchd::flow::{Flow, Proto};
use overwatchd::ip::{parse_ip, IpAddress};

fn ip(s: &str) -> IpAddress {
    parse_ip(s).unwrap()
}

fn flow(key: u64, src: &str, dst: &str, ob: u64, rb: u64, proto: Proto) -> Flow {
    Flow { proto, orig_src: ip(src), orig_dst: ip(dst), orig_bytes: ob, reply_bytes: rb, flow_key: key }
}

fn accountant() -> Accountant {
    Accountant::new(LanClassifier::new(vec![IpNet { addr: ip("192.168.1.0"), prefix_len: 24 }]))
}

fn stats_of(a: &Accountant, client: IpAddress) -> ClientStats {
    a.stats().into_iter().find(|(k, _)| *k == client).map(|(_, v)| v).expect("client known")
}

#[test]
fn accumulates_deltas_across_scans() {
    let mut a = accountant();
    let client = ip("192.168.1.10");
    a.update(&[flow(1, "192.168.1.10", "9.9.9.9", 100, 1000, Proto::Tcp)], 0);
    assert_eq!(stats_of(&a, client).tx_total, 100);
    assert_eq!(stats_of(&a, client).rx_total, 1000);
    a.update(&[flow(1, "192.168.1.10", "9.9.9.9", 300, 5000, Proto::Tcp)], 2000);
    assert_eq!(stats_of(&a, client).tx_total, 300);
    assert_eq!(stats_of(&a, client).rx_total, 5000);
    assert_eq!(stats_of(&a, client).rx_bps, 2000);
    assert_eq!(stats_of(&a, client).tx_bps, 100);
}

#[test]
fn new_flow_after_old_closes_does_not_regress() {
    let mut a = accountant();
    let client = ip("192.168.1.10");
    a.update(&[flow(1, "192.168.1.10", "9.9.9.9", 0, 8000, Proto::Tcp)], 0);
    assert_eq!(stats_of(&a, client).rx_total, 8000);
    a.update(&[flow(2, "192.168.1.10", "9.9.9.9", 0, 500, Proto::Tcp)], 2000);
    assert_eq!(stats_of(&a, client).rx_total, 8500);
}

#[test]
fn counts_active_connections_by_proto() {
    let mut a = accountant();
    let client = ip("192.168.1.10");
    a.update(
        &[
            flow(1, "192.168.1.10", "9.9.9.9", 1, 1, Proto::Tcp),
            flow(2, "192.168.1.10", "8.8.8.8", 1, 1, Proto::Udp),
            flow(3, "192.168.1.10", "1.1.1.1", 1, 1, Proto::Tcp),
        ],
        0,
    );
    assert_eq!(stats_of(&a, client).conns_tcp, 2);
    assert_eq!(stats_of(&a, client).conns_udp, 1);
}

#[test]
fn shrinking_counters_add_nothing_and_idle_clients_drop_to_zero_rate() {
    let mut a = accountant();
    let c1 = ip("192.168.1.10");
    let c2 = ip("192.168.1.20");
    a.update(
        &[flow(1, "192.168.1.10", "9.9.9.9", 100, 1000, Proto::Tcp), flow(2, "9.9.9.9", "192.168.1.20", 40, 4, Proto::Udp)],
        1000,
    );
    // first scan: no rates yet
    assert_eq!(stats_of(&a, c1).rx_bps, 0);
    assert_eq!(stats_of(&a, c2).rx_total, 40);
    assert_eq!(stats_of(&a, c2).tx_total, 4);
    // the counter of flow 1 went backwards: no bytes added; client 2 had no flows
    a.update(&[flow(1, "192.168.1.10", "9.9.9.9", 50, 500, Proto::Tcp)], 3000);
    assert_eq!(stats_of(&a, c1).rx_total, 1000);
    assert_eq!(stats_of(&a, c1).tx_total, 100);
    assert_eq!(stats_of(&a, c1).rx_bps, 0);
    assert_eq!(stats_of(&a, c2).rx_total, 40);
    assert_eq!(stats_of(&a, c2).rx_bps, 0);
    assert_eq!(stats_of(&a, c2).conns_udp, 0);
    // flows between two non-LAN hosts are ignored
    a.update(&[flow(9, "8.8.8.8", "1.1.1.1", 5, 5, Proto::Tcp)], 4000);
    assert_eq!(a.stats().len(), 2);
}

#[test]
fn scan_fit_check_and_last_update() {
    let mut a = accountant();
    assert_eq!(a.last_update_ms(), None);
    let big = [flow(1, "192.168.1.10", "9.9.9.9", u64::MAX, 5, Proto::Tcp)];
    assert!(a.scan_fits(&big));
    a.update(&big, 1000);
    assert_eq!(a.last_update_ms(), Some(1000));
    // a new flow for the same client would push its upload total past u64::MAX
    let more = [flow(1, "192.168.1.10", "9.9.9.9", u64::MAX, 5, Proto::Tcp), flow(2, "192.168.1.10", "9.9.9.9", 1, 0, Proto::Udp)];
    assert!(!a.scan_fits(&more));
    // the same counters again add nothing
    assert!(a.scan_fits(&big));
}
