use overwatchd::dns_capture::{day_start, flush_due, observe_packet, CaptureState, CARDINALITY_CAP};
use overwatchd::names::NameTable;

#[test]
fn record_accumulates_counts_per_mac_domain() {
    let mut s = CaptureState::new();
    s.record("aa".to_string(), "example.com".to_string());
    s.record("aa".to_string(), "example.com".to_string());
    s.record("aa".to_string(), "other.com".to_string());
    s.record("bb".to_string(), "example.com".to_string());
    let mut out = s.drain();
    out.sort();
    assert_eq!(
        out,
        vec![
            ("aa".to_string(), "example.com".to_string(), 2),
            ("aa".to_string(), "other.com".to_string(), 1),
            ("bb".to_string(), "example.com".to_string(), 1),
        ]
    );
}

#[test]
fn drain_clears_state_for_next_window() {
    let mut s = CaptureState::new();
    s.record("aa".to_string(), "example.com".to_string());
    assert_eq!(s.drain().len(), 1);
    assert_eq!(s.drain().len(), 0);
}

#[test]
fn cardinality_cap_folds_overflow_domains_into_other_bucket() {
    let mut s = CaptureState::new();
    for i in 0..CARDINALITY_CAP {
        s.record("aa".to_string(), format!("host{i}.example"));
    }
    s.record("aa".to_string(), "overflow.example".to_string());
    let out = s.drain();
    assert_eq!(out.len(), CARDINALITY_CAP + 1);
    let other = out.iter().find(|(mac, d, _)| mac == "aa" && d == "__other__");
    assert_eq!(other.map(|(_, _, c)| *c), Some(1));
}

#[test]
fn already_seen_domain_stays_itself_even_after_cap_reached() {
    let mut s = CaptureState::new();
    s.record("aa".to_string(), "first.example".to_string());
    for i in 0..CARDINALITY_CAP {
        s.record("bb".to_string(), format!("filler{i}.example"));
    }
    s.record("aa".to_string(), "first.example".to_string());
    let out = s.drain();
    let first = out.iter().find(|(mac, d, _)| mac == "aa" && d == "first.example");
    assert_eq!(first.map(|(_, _, c)| *c), Some(2));
}

fn query_packet(src: [u8; 4], labels: &[&str]) -> Vec<u8> {
    let mut dns = vec![0u8; 12];
    for l in labels {
        dns.push(l.len() as u8);
        dns.extend_from_slice(l.as_bytes());
    }
    dns.push(0);
    let mut udp = Vec::new();
    udp.extend_from_slice(&1234u16.to_be_bytes());
    udp.extend_from_slice(&53u16.to_be_bytes());
    udp.extend_from_slice(&((8 + dns.len()) as u16).to_be_bytes());
    udp.extend_from_slice(&0u16.to_be_bytes());
    udp.extend_from_slice(&dns);
    let mut ip = vec![0u8; 20];
    ip[0] = 0x45;
    ip[2..4].copy_from_slice(&((20 + udp.len()) as u16).to_be_bytes());
    ip[9] = 17;
    ip[12..16].copy_from_slice(&src);
    ip[16..20].copy_from_slice(&[192, 168, 1, 1]);
    ip.extend_from_slice(&udp);
    ip
}

#[test]
fn observed_queries_count_only_known_clients() {
    let names = NameTable::from_text("1 AA:BB:CC:DD:EE:01 192.168.1.10 laptop x\n", "header\n");
    let mut s = CaptureState::new();
    observe_packet(&mut s, &names, &query_packet([192, 168, 1, 10], &["example", "com"]));
    observe_packet(&mut s, &names, &query_packet([192, 168, 1, 10], &["example", "com"]));
    observe_packet(&mut s, &names, &query_packet([192, 168, 1, 77], &["example", "com"]));
    observe_packet(&mut s, &names, &[1, 2, 3]);
    let out = s.drain();
    assert_eq!(out, vec![("aa:bb:cc:dd:ee:01".to_string(), "example.com".to_string(), 2)]);
}

#[test]
fn flush_timing_and_day_buckets() {
    assert!(!flush_due(159, 100, 60));
    assert!(flush_due(160, 100, 60));
    assert!(flush_due(100, 100, 0));
    assert_eq!(day_start(86400 * 3 + 5000), 86400 * 3);
    assert_eq!(day_start(86399), 0);
    assert_eq!(day_start(-1), 0);
}

#[test]
fn counts_stay_below_limit_in_normal_windows() {
    let mut s = CaptureState::new();
    assert!(s.counts_below_max());
    s.record("aa".to_string(), "x.example".to_string());
    assert!(s.counts_below_max());
}
