use overwatchd::flow::{compute_flow_key, Flow, Proto};
use overwatchd::ip::{parse_ip, IpAddress};

fn ip(s: &str) -> IpAddress {
    parse_ip(s).unwrap()
}

#[test]
fn proto_parse_known_and_unknown() {
    assert_eq!(Proto::parse("tcp"), Proto::Tcp);
    assert_eq!(Proto::parse("udp"), Proto::Udp);
    assert_eq!(Proto::parse("icmp"), Proto::Other);
}

#[test]
fn parse_accounted_tcp_line() {
    let line = "ipv4     2 tcp      6 431999 ESTABLISHED src=192.168.1.10 dst=93.184.216.34 sport=52000 dport=443 packets=12 bytes=1500 src=93.184.216.34 dst=192.168.1.10 sport=443 dport=52000 packets=10 bytes=24000 [ASSURED] mark=0 use=1";
    let f = Flow::parse_line(line).expect("should parse");
    assert_eq!(f.proto, Proto::Tcp);
    assert_eq!(f.orig_src, ip("192.168.1.10"));
    assert_eq!(f.orig_dst, ip("93.184.216.34"));
    assert_eq!(f.orig_bytes, 1500);
    assert_eq!(f.reply_bytes, 24000);
}

#[test]
fn parse_skips_unaccounted_line() {
    let line = "ipv4     2 tcp      6 60 SYN_SENT src=192.168.1.10 dst=10.0.0.5 sport=53001 dport=80 [UNREPLIED] src=10.0.0.5 dst=192.168.1.10 sport=80 dport=53001 mark=0 use=1";
    assert_eq!(Flow::parse_line(line), None);
}

#[test]
fn flow_key_is_direction_stable() {
    let line = "ipv4     2 udp      17 29 src=192.168.1.22 dst=8.8.8.8 sport=41000 dport=53 packets=2 bytes=140 src=8.8.8.8 dst=192.168.1.22 sport=53 dport=41000 packets=2 bytes=300 mark=0 use=1";
    let f = Flow::parse_line(line).unwrap();
    assert_ne!(f.flow_key, 0);
}

#[test]
fn flow_key_same_for_both_directions() {
    let a = "ipv4 2 udp 17 29 src=192.168.1.22 dst=8.8.8.8 sport=41000 dport=53 packets=2 bytes=140 src=8.8.8.8 dst=192.168.1.22 sport=53 dport=41000 packets=2 bytes=300";
    let b = "ipv4 2 udp 17 29 src=8.8.8.8 dst=192.168.1.22 sport=53 dport=41000 packets=2 bytes=300 src=192.168.1.22 dst=8.8.8.8 sport=41000 dport=53 packets=2 bytes=140";
    let fa = Flow::parse_line(a).unwrap();
    let fb = Flow::parse_line(b).unwrap();
    assert_eq!(fa.flow_key, fb.flow_key);
    let c = "ipv4 2 udp 17 29 src=192.168.1.22 dst=8.8.8.8 sport=41001 dport=53 packets=2 bytes=140 src=8.8.8.8 dst=192.168.1.22 sport=53 dport=41001 packets=2 bytes=300";
    assert_ne!(Flow::parse_line(c).unwrap().flow_key, fa.flow_key);
}

#[test]
fn parse_ipv6_flow_and_rejects_garbage() {
    let line = "ipv6 10 udp 17 30 src=fe80::1 dst=2001:db8::2 sport=5353 dport=53 packets=1 bytes=90 src=2001:db8::2 dst=fe80::1 sport=53 dport=5353 packets=1 bytes=120 mark=0";
    let f = Flow::parse_line(line).unwrap();
    assert_eq!(f.proto, Proto::Udp);
    assert_eq!(f.orig_src, ip("fe80::1"));
    assert_eq!(f.orig_dst, ip("2001:db8::2"));
    assert_eq!(f.orig_bytes, 90);
    assert_eq!(f.reply_bytes, 120);
    assert_eq!(Flow::parse_line(""), None);
    assert_eq!(Flow::parse_line("ipv4 2 tcp 6 1 src=1.2.3.4 bytes=x"), None);
}

#[test]
fn compute_flow_key_ignores_direction() {
    let a = ip("192.168.1.2");
    let b = ip("2001:db8::1");
    assert_eq!(compute_flow_key(a, 10, b, 20, Proto::Tcp), compute_flow_key(b, 20, a, 10, Proto::Tcp));
    assert_ne!(compute_flow_key(a, 10, b, 20, Proto::Tcp), compute_flow_key(a, 10, b, 20, Proto::Udp));
}
