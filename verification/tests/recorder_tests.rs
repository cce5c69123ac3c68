use overwatchd::recorder::Recorder;
use overwatchd::snapshot::ClientView;

fn view(mac: &str, rx_bps: u64, tx_bps: u64, conns_tcp: u32, conns_udp: u32) -> ClientView {
    ClientView {
        mac: mac.to_string(),
        ip: "192.168.1.10".to_string(),
        host: String::new(),
        rx_bps,
        tx_bps,
        rx_total: 0,
        tx_total: 0,
        conns_tcp,
        conns_udp,
    }
}

#[test]
fn first_tick_contributes_no_bytes_but_records_speed() {
    let mut r = Recorder::new(300, 1440);
    let finalized = r.record(&[view("aa", 1000, 100, 1, 0)], 100);
    assert!(finalized.is_empty());
    let rt = r.realtime("aa");
    assert_eq!(rt.len(), 1);
    assert_eq!(rt[0].rx_bytes, 0);
    assert_eq!(rt[0].rx_peak, 1000);
    assert_eq!(rt[0].conns, 1);
}

#[test]
fn second_tick_uses_elapsed_interval_for_bytes() {
    let mut r = Recorder::new(300, 1440);
    r.record(&[view("aa", 1000, 100, 0, 0)], 100);
    r.record(&[view("aa", 1000, 100, 0, 0)], 102);
    let rt = r.realtime("aa");
    assert_eq!(rt.len(), 2);
    assert_eq!(rt[1].rx_bytes, 2000);
    assert_eq!(rt[1].tx_bytes, 200);
}

#[test]
fn minute_rollover_emits_aggregated_sample() {
    let mut r = Recorder::new(300, 1440);
    r.record(&[view("aa", 1000, 0, 2, 0)], 60);
    r.record(&[view("aa", 1000, 0, 5, 0)], 62);
    let finalized = r.record(&[view("aa", 0, 0, 0, 0)], 120);
    assert_eq!(finalized.len(), 1);
    let (mac, sample) = &finalized[0];
    assert_eq!(mac, "aa");
    assert_eq!(sample.ts, 60);
    assert_eq!(sample.rx_bytes, 2000);
    assert_eq!(sample.conns, 5);
    assert_eq!(r.minutes("aa").len(), 1);
}

#[test]
fn unknown_client_has_empty_series() {
    let mut r = Recorder::new(300, 1440);
    r.record(&[view("aa", 1, 1, 0, 0)], 10);
    assert!(r.realtime("zz").is_empty());
    assert!(r.minutes("zz").is_empty());
    assert_eq!(r.macs(), vec!["aa".to_string()]);
}

#[test]
fn realtime_ring_is_bounded_by_capacity() {
    let mut r = Recorder::new(3, 10);
    for t in 0..10 {
        r.record(&[view("aa", 100, 0, 0, 0)], t);
    }
    let rt = r.realtime("aa");
    assert_eq!(rt.len(), 3);
    assert_eq!(rt[0].ts, 7);
    assert_eq!(rt[2].ts, 9);
}

#[test]
fn macs_are_listed_in_order_first_seen() {
    let mut r = Recorder::new(10, 10);
    r.record(&[view("bb", 1, 0, 0, 0), view("aa", 1, 0, 0, 0)], 5);
    r.record(&[view("cc", 1, 0, 0, 0), view("aa", 1, 0, 0, 0)], 6);
    assert_eq!(r.macs(), vec!["bb".to_string(), "aa".to_string(), "cc".to_string()]);
}

#[test]
fn last_tick_is_reported() {
    let mut r = Recorder::new(3, 3);
    assert_eq!(r.last_tick_ts(), None);
    r.record(&[view("aa", 1, 1, 0, 0)], 42);
    assert_eq!(r.last_tick_ts(), Some(42));
}
