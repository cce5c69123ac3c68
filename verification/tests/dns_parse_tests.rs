use overwatchd::dns_parse::parse_dns_query;
use overwatchd::ip::parse_ip;

fn encode_qname(labels: &[&str]) -> Vec<u8> {
    let mut out = Vec::new();
    for l in labels {
        out.push(l.len() as u8);
        out.extend_from_slice(l.as_bytes());
    }
    out.push(0);
    out
}

fn build_ipv4_udp_dns(proto: u8, dst_port: u16, dns_body: &[u8]) -> Vec<u8> {
    let mut dns = vec![0u8; 12];
    dns.extend_from_slice(dns_body);
    let mut l4 = Vec::new();
    if proto == 17 {
        l4.extend_from_slice(&1234u16.to_be_bytes());
        l4.extend_from_slice(&dst_port.to_be_bytes());
        let udp_len = (8 + dns.len()) as u16;
        l4.extend_from_slice(&udp_len.to_be_bytes());
        l4.extend_from_slice(&0u16.to_be_bytes());
        l4.extend_from_slice(&dns);
    } else {
        l4.extend_from_slice(&[0u8; 20]);
        l4.extend_from_slice(&dns);
    }
    let mut ip = vec![0u8; 20];
    ip[0] = 0x45;
    let total_len = (20 + l4.len()) as u16;
    ip[2..4].copy_from_slice(&total_len.to_be_bytes());
    ip[9] = proto;
    ip[12..16].copy_from_slice(&[192, 168, 1, 50]);
    ip[16..20].copy_from_slice(&[192, 168, 1, 1]);
    ip.extend_from_slice(&l4);
    ip
}

fn build_ipv6_udp_dns(dst_port: u16, dns_body: &[u8]) -> Vec<u8> {
    let mut dns = vec![0u8; 12];
    dns.extend_from_slice(dns_body);
    let mut udp = Vec::new();
    udp.extend_from_slice(&1234u16.to_be_bytes());
    udp.extend_from_slice(&dst_port.to_be_bytes());
    let udp_len = (8 + dns.len()) as u16;
    udp.extend_from_slice(&udp_len.to_be_bytes());
    udp.extend_from_slice(&0u16.to_be_bytes());
    udp.extend_from_slice(&dns);
    let mut ip = vec![0u8; 40];
    ip[0] = 0x60;
    let payload_len = udp.len() as u16;
    ip[4..6].copy_from_slice(&payload_len.to_be_bytes());
    ip[6] = 17;
    ip[8..24].copy_from_slice(&[0xfe, 0x80, 0, 0, 0, 0, 0, 0, 0, 0, 0, 0, 0, 0, 0, 1]);
    ip[24..40].copy_from_slice(&[0xfe, 0x80, 0, 0, 0, 0, 0, 0, 0, 0, 0, 0, 0, 0, 0, 2]);
    ip.extend_from_slice(&udp);
    ip
}

#[test]
fn parses_valid_ipv4_udp53_query() {
    let body = encode_qname(&["example", "com"]);
    let pkt = build_ipv4_udp_dns(17, 53, &body);
    let (ip, domain) = parse_dns_query(&pkt).unwrap();
    assert_eq!(ip, parse_ip("192.168.1.50").unwrap());
    assert_eq!(domain, "example.com");
}

#[test]
fn parses_valid_ipv6_udp53_query() {
    let body = encode_qname(&["example", "org"]);
    let pkt = build_ipv6_udp_dns(53, &body);
    let (ip, domain) = parse_dns_query(&pkt).unwrap();
    assert_eq!(ip, parse_ip("fe80::1").unwrap());
    assert_eq!(domain, "example.org");
}

#[test]
fn multi_label_domain_joins_with_dots() {
    let body = encode_qname(&["a", "b", "c", "example", "net"]);
    let pkt = build_ipv4_udp_dns(17, 53, &body);
    let (_, domain) = parse_dns_query(&pkt).unwrap();
    assert_eq!(domain, "a.b.c.example.net");
}

#[test]
fn root_domain_yields_empty_string() {
    let body = encode_qname(&[]);
    let pkt = build_ipv4_udp_dns(17, 53, &body);
    let (_, domain) = parse_dns_query(&pkt).unwrap();
    assert_eq!(domain, "");
}

#[test]
fn non_53_destination_port_is_ignored() {
    let body = encode_qname(&["example", "com"]);
    let pkt = build_ipv4_udp_dns(17, 80, &body);
    assert!(parse_dns_query(&pkt).is_none());
}

#[test]
fn tcp_53_is_ignored() {
    let body = encode_qname(&["example", "com"]);
    let pkt = build_ipv4_udp_dns(6, 53, &body);
    assert!(parse_dns_query(&pkt).is_none());
}

#[test]
fn truncated_packet_returns_none_not_panic() {
    let body = encode_qname(&["example", "com"]);
    let pkt = build_ipv4_udp_dns(17, 53, &body);
    for cut in [0, 1, 10, 20, 27, pkt.len() - 1] {
        assert!(parse_dns_query(&pkt[..cut]).is_none(), "cut at {cut} should not panic/parse");
    }
}

#[test]
fn malformed_forward_pointing_compression_pointer_does_not_loop() {
    let dns_body = vec![0xC0, 0x0C];
    let pkt = build_ipv4_udp_dns(17, 53, &dns_body);
    assert!(parse_dns_query(&pkt).is_none());
}

#[test]
fn backward_pointer_is_followed_and_bad_utf8_rejected() {
    // question name "www" followed by a pointer back to "com", written into
    // the (otherwise unread) header bytes at DNS offset 2
    let body = vec![3u8, b'w', b'w', b'w', 0xC0, 2];
    let mut pkt = build_ipv4_udp_dns(17, 53, &body);
    let dns = 28;
    pkt[dns + 2..dns + 7].copy_from_slice(&[3, b'c', b'o', b'm', 0]);
    let (_, domain) = parse_dns_query(&pkt).unwrap();
    assert_eq!(domain, "www.com");
    let bad = vec![2u8, 0xff, 0xfe, 0];
    let pkt = build_ipv4_udp_dns(17, 53, &bad);
    assert!(parse_dns_query(&pkt).is_none());
    // reserved length bits
    let reserved = vec![0x40u8, 0];
    let pkt = build_ipv4_udp_dns(17, 53, &reserved);
    assert!(parse_dns_query(&pkt).is_none());
}
