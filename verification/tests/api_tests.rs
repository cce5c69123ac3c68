use overwatchd::api::{api_point, client_api, status_api, summary};
use overwatchd::probe::ProbeStatus;
use overwatchd::sample::Sample;
use overwatchd::snapshot::ClientView;

fn view(mac: &str, rx_bps: u64, tx_bps: u64, rx_total: u64, tx_total: u64) -> ClientView {
    ClientView {
        mac: mac.to_string(),
        ip: "192.168.1.5".to_string(),
        host: "h".to_string(),
        rx_bps,
        tx_bps,
        rx_total,
        tx_total,
        conns_tcp: 1,
        conns_udp: 2,
    }
}

#[test]
fn client_api_converts_bps_to_bits() {
    let a = client_api(&view("aa", 1000, 500, 10, 20));
    assert_eq!(a.rx_bps, 8000);
    assert_eq!(a.tx_bps, 4000);
    assert_eq!(a.rx_total, 10);
}

#[test]
fn summary_totals_and_top_n_descending() {
    let clients = vec![view("aa", 0, 0, 100, 10), view("bb", 0, 0, 50, 500), view("cc", 0, 0, 5, 5)];
    let s = summary(&clients, 2);
    assert_eq!(s.total_rx_bytes, 155);
    assert_eq!(s.total_tx_bytes, 515);
    assert_eq!(s.top.len(), 2);
    assert_eq!(s.top[0].mac, "bb");
    assert_eq!(s.top[1].mac, "aa");
}

#[test]
fn api_point_peaks_to_bits() {
    let p = api_point(&Sample { ts: 60, rx_bytes: 1000, tx_bytes: 100, rx_peak: 200, tx_peak: 20, conns: 3 });
    assert_eq!(p.ts, 60);
    assert_eq!(p.rx_bytes, 1000);
    assert_eq!(p.tx_bytes, 100);
    assert_eq!(p.rx_peak_bits, 1600);
    assert_eq!(p.tx_peak_bits, 160);
    assert_eq!(p.conns, 3);
}

#[test]
fn summary_ties_keep_input_order_and_top_n_caps() {
    let clients = vec![view("aa", 0, 0, 10, 0), view("bb", 0, 0, 5, 5), view("cc", 0, 0, 30, 0)];
    let s = summary(&clients, 10);
    assert_eq!(s.top.len(), 3);
    assert_eq!(s.top[0].mac, "cc");
    assert_eq!(s.top[1].mac, "aa");
    assert_eq!(s.top[2].mac, "bb");
    let none = summary(&clients, 0);
    assert!(none.top.is_empty());
    assert_eq!(none.total_rx_bytes, 45);
}

#[test]
fn bits_saturate_and_status_copies_probes() {
    let a = client_api(&view("aa", u64::MAX, 3, 0, 0));
    assert_eq!(a.rx_bps, u64::MAX);
    assert_eq!(a.tx_bps, 24);
    let p = ProbeStatus { conntrack_acct: true, btf: false, clsact: true, hw_stats_advancing: Some(false) };
    let st = status_api(true, &p, "1.2.3");
    assert!(st.enabled);
    assert!(st.conntrack_acct);
    assert!(!st.btf);
    assert!(st.clsact);
    assert_eq!(st.hw_stats_advancing, Some(false));
    assert_eq!(st.version, "1.2.3");
}
