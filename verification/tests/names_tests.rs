use overwatchd::ip::{parse_ip, IpAddress};
use overwatchd::names::NameTable;

const LEASES: &str = "1719628800 aa:bb:cc:dd:ee:01 192.168.1.10 johns-laptop 01:aa:bb:cc:dd:ee:01
1719628800 AA:BB:CC:DD:EE:02 192.168.1.22 * 01:aa:bb:cc:dd:ee:02
";

const ARP: &str = "IP address       HW type     Flags       HW address            Mask     Device
192.168.1.55     0x1         0x2         aa:bb:cc:dd:ee:09     *        br-lan
192.168.1.10     0x1         0x2         11:22:33:44:55:66     *        br-lan
192.168.1.77     0x1         0x0         00:00:00:00:00:00     *        br-lan
";

fn ip(s: &str) -> IpAddress {
    parse_ip(s).unwrap()
}

#[test]
fn resolves_hostname_from_lease() {
    let nt = NameTable::from_text(LEASES, ARP);
    assert_eq!(nt.mac_for(ip("192.168.1.10")), Some("aa:bb:cc:dd:ee:01"));
    assert_eq!(nt.host_for_mac("aa:bb:cc:dd:ee:01"), Some("johns-laptop"));
}

#[test]
fn star_hostname_is_treated_as_absent() {
    let nt = NameTable::from_text(LEASES, ARP);
    assert_eq!(nt.host_for_mac("aa:bb:cc:dd:ee:02"), None);
}

#[test]
fn arp_supplements_ip_to_mac_for_non_dhcp_host() {
    let nt = NameTable::from_text(LEASES, ARP);
    assert_eq!(nt.mac_for(ip("192.168.1.55")), Some("aa:bb:cc:dd:ee:09"));
}

#[test]
fn mac_is_normalized_lowercase() {
    let nt = NameTable::from_text(LEASES, ARP);
    assert_eq!(nt.mac_for(ip("192.168.1.22")), Some("aa:bb:cc:dd:ee:02"));
}

#[test]
fn lease_wins_over_arp_and_incomplete_arp_entries_are_skipped() {
    let nt = NameTable::from_text(LEASES, ARP);
    assert_eq!(nt.mac_for(ip("192.168.1.10")), Some("aa:bb:cc:dd:ee:01"));
    assert_eq!(nt.mac_for(ip("192.168.1.77")), None);
    // the ARP header line is never read as an entry, and short lines are skipped
    let nt2 = NameTable::from_text("1 2 3\n", "10.0.0.1 0x1 0x2 aa:aa:aa:aa:aa:aa * br\n");
    assert_eq!(nt2.mac_for(ip("10.0.0.1")), None);
    assert_eq!(nt2.host_for_mac("2"), None);
}
