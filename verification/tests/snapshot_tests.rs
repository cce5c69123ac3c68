use overwatchd::account::ClientStats;
use overwatchd::ip::{parse_ip, IpAddress};
use overwatchd::names::NameTable;
use overwatchd::snapshot::build_snapshot;

fn names() -> NameTable {
    NameTable::from_text(
        "1719628800 aa:bb:cc:dd:ee:01 192.168.1.10 johns-laptop x\n",
        "IP address HW type Flags HW address Mask Device\n",
    )
}

fn ip(s: &str) -> IpAddress {
    parse_ip(s).unwrap()
}

#[test]
fn builds_view_joined_with_names() {
    let stats = vec![(
        ip("192.168.1.10"),
        ClientStats { rx_total: 5000, tx_total: 300, rx_bps: 2000, tx_bps: 100, conns_tcp: 2, conns_udp: 1 },
    )];
    let views = build_snapshot(&stats, &names());
    assert_eq!(views.len(), 1);
    let v = &views[0];
    assert_eq!(v.mac, "aa:bb:cc:dd:ee:01");
    assert_eq!(v.ip, "192.168.1.10");
    assert_eq!(v.host, "johns-laptop");
    assert_eq!(v.rx_bps, 2000);
    assert_eq!(v.conns_tcp, 2);
}

#[test]
fn sorted_by_total_speed_desc() {
    let stats = vec![
        (ip("192.168.1.10"), ClientStats { rx_bps: 100, tx_bps: 0, ..Default::default() }),
        (ip("192.168.1.22"), ClientStats { rx_bps: 900, tx_bps: 50, ..Default::default() }),
    ];
    let views = build_snapshot(&stats, &names());
    assert_eq!(views[0].ip, "192.168.1.22");
    assert_eq!(views[1].ip, "192.168.1.10");
}

#[test]
fn unknown_mac_falls_back_to_ip_identity() {
    let stats = vec![(ip("192.168.1.99"), ClientStats::default())];
    let views = build_snapshot(&stats, &names());
    assert_eq!(views[0].mac, "192.168.1.99");
    assert_eq!(views[0].host, "");
}

#[test]
fn ipv6_clients_show_canonical_text_and_ties_keep_order() {
    let stats = vec![
        (ip("fe80::0:0:1"), ClientStats { rx_bps: 5, ..Default::default() }),
        (ip("2001:db8::1"), ClientStats { tx_bps: 5, ..Default::default() }),
        (ip("10.0.0.1"), ClientStats { rx_bps: 7, ..Default::default() }),
    ];
    let views = build_snapshot(&stats, &names());
    assert_eq!(views[0].ip, "10.0.0.1");
    assert_eq!(views[1].ip, "fe80::1");
    assert_eq!(views[2].ip, "2001:db8::1");
    assert_eq!(views[1].mac, "fe80::1");
}
