use overwatchd::ip::{ip_to_string, parse_ip, IpAddress};

#[test]
fn parses_and_prints_addresses_like_std() {
    assert_eq!(parse_ip("192.168.1.10"), Some(IpAddress::V4(0xc0a8_010a)));
    assert_eq!(parse_ip("::1"), Some(IpAddress::V6(1)));
    assert_eq!(parse_ip("1.2.3"), None);
    assert_eq!(parse_ip("256.1.1.1"), None);
    assert_eq!(parse_ip("01.2.3.4"), None);
    assert_eq!(parse_ip(""), None);
    assert_eq!(parse_ip("1::2::3"), None);
    let cases = [
        ("0.0.0.0", "0.0.0.0"),
        ("10.0.0.1", "10.0.0.1"),
        ("fe80:0:0:0:0:0:0:1", "fe80::1"),
        ("2001:DB8::1", "2001:db8::1"),
        ("::", "::"),
        ("1:0:0:1:0:0:0:1", "1:0:0:1::1"),
        ("::ffff:1.2.3.4", "::ffff:1.2.3.4"),
        ("1:2:3:4:5:6:7:8", "1:2:3:4:5:6:7:8"),
        ("1:0:2:3:4:5:6:7", "1:0:2:3:4:5:6:7"),
    ];
    for (input, text) in cases {
        let ours = parse_ip(input).unwrap();
        assert_eq!(ip_to_string(&ours), text, "text of {input}");
    }
}
