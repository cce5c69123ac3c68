use overwatchd::classify::{IpNet, LanClassifier};
use overwatchd::flow::{Flow, Proto};
use overwatchd::ip::{parse_ip, IpAddress};

fn ip(s: &str) -> IpAddress {
    parse_ip(s).unwrap()
}

fn lan() -> LanClassifier {
    LanClassifier::new(vec![IpNet { addr: ip("192.168.1.0"), prefix_len: 24 }])
}

#[test]
fn client_is_originator_when_orig_src_is_lan() {
    let f = Flow {
        proto: Proto::Tcp,
        orig_src: ip("192.168.1.10"),
        orig_dst: ip("93.184.216.34"),
        orig_bytes: 1500,
        reply_bytes: 24000,
        flow_key: 1,
    };
    let d = lan().attribute(&f).unwrap();
    assert_eq!(d.client, ip("192.168.1.10"));
    assert_eq!(d.tx, 1500);
    assert_eq!(d.rx, 24000);
}

#[test]
fn client_is_responder_when_orig_dst_is_lan() {
    let f = Flow {
        proto: Proto::Tcp,
        orig_src: ip("93.184.216.34"),
        orig_dst: ip("192.168.1.10"),
        orig_bytes: 1500,
        reply_bytes: 24000,
        flow_key: 1,
    };
    let d = lan().attribute(&f).unwrap();
    assert_eq!(d.client, ip("192.168.1.10"));
    assert_eq!(d.rx, 1500);
    assert_eq!(d.tx, 24000);
}

#[test]
fn non_lan_flow_is_skipped() {
    let f = Flow {
        proto: Proto::Udp,
        orig_src: ip("8.8.8.8"),
        orig_dst: ip("1.1.1.1"),
        orig_bytes: 100,
        reply_bytes: 200,
        flow_key: 1,
    };
    assert!(lan().attribute(&f).is_none());
}

#[test]
fn prefix_containment_edges() {
    let n = IpNet { addr: ip("10.0.0.0"), prefix_len: 8 };
    assert!(n.contains(ip("10.255.255.255")));
    assert!(!n.contains(ip("11.0.0.0")));
    let all = IpNet { addr: ip("1.2.3.4"), prefix_len: 0 };
    assert!(all.contains(ip("200.1.1.1")));
    let host = IpNet { addr: ip("1.2.3.4"), prefix_len: 32 };
    assert!(host.contains(ip("1.2.3.4")));
    assert!(!host.contains(ip("1.2.3.5")));
    // families never mix
    assert!(!n.contains(ip("::ffff:10.0.0.1")));
    let v6 = IpNet { addr: ip("fd00::"), prefix_len: 8 };
    assert!(v6.contains(ip("fd12:3456::1")));
    assert!(!v6.contains(ip("fe80::1")));
    // an over-long length is treated as a full-length match
    let long = IpNet { addr: ip("1.2.3.4"), prefix_len: 40 };
    assert!(long.contains(ip("1.2.3.4")));
    assert!(!long.contains(ip("1.2.3.5")));
}
