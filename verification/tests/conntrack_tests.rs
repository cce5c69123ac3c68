use overwatchd::conntrack::{parse_all, ProcConntrack};

const SAMPLE: &str = "ipv4     2 tcp      6 431999 ESTABLISHED src=192.168.1.10 dst=93.184.216.34 sport=52000 dport=443 packets=12 bytes=1500 src=93.184.216.34 dst=192.168.1.10 sport=443 dport=52000 packets=10 bytes=24000 [ASSURED] mark=0 use=1
ipv4     2 tcp      6 60 SYN_SENT src=192.168.1.10 dst=10.0.0.5 sport=53001 dport=80 [UNREPLIED] src=10.0.0.5 dst=192.168.1.10 sport=80 dport=53001 mark=0 use=1
ipv4     2 udp      17 29 src=192.168.1.22 dst=8.8.8.8 sport=41000 dport=53 packets=2 bytes=140 src=8.8.8.8 dst=192.168.1.22 sport=53 dport=41000 packets=2 bytes=300 mark=0 use=1
";

#[test]
fn parse_all_keeps_only_accounted_flows() {
    let flows = parse_all(SAMPLE);
    assert_eq!(flows.len(), 2);
}

#[test]
fn parse_all_keeps_line_order_and_default_path() {
    let flows = parse_all(SAMPLE);
    assert_eq!(flows[0].orig_bytes, 1500);
    assert_eq!(flows[1].orig_bytes, 140);
    assert!(parse_all("").is_empty());
    assert_eq!(ProcConntrack::new().path, "/proc/net/nf_conntrack");
}
