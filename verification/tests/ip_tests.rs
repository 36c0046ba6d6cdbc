use dyfi_client::ip::IpAddress;
use dyfi_client::ip::parse_ip;
use dyfi_client::types::parse_public_ip_body;

#[test]
fn test_parse_ipv4() {
    assert_eq!(parse_ip("203.0.113.5"), Some(IpAddress::V4(203, 0, 113, 5)));
    assert_eq!(parse_ip("0.0.0.0"), Some(IpAddress::V4(0, 0, 0, 0)));
    assert_eq!(parse_ip("255.255.255.255"), Some(IpAddress::V4(255, 255, 255, 255)));
}

#[test]
fn test_parse_ipv4_rejects() {
    assert_eq!(parse_ip(""), None);
    assert_eq!(parse_ip("256.1.1.1"), None);
    assert_eq!(parse_ip("1.2.3"), None);
    assert_eq!(parse_ip("1.2.3.4.5"), None);
    assert_eq!(parse_ip("1.2.3.04"), None);
    assert_eq!(parse_ip("1.2..4"), None);
    assert_eq!(parse_ip("a.b.c.d"), None);
    assert_eq!(parse_ip("1.2.3.4 "), None);
}

#[test]
fn test_parse_ipv6_full() {
    assert_eq!(
        parse_ip("1:2:3:4:5:6:7:8"),
        Some(IpAddress::V6(1, 2, 3, 4, 5, 6, 7, 8))
    );
    assert_eq!(
        parse_ip("2001:db8:0:0:0:0:0:1"),
        Some(IpAddress::V6(0x2001, 0xdb8, 0, 0, 0, 0, 0, 1))
    );
    assert_eq!(
        parse_ip("ABCD:ef01:0:0:0:0:0:0"),
        Some(IpAddress::V6(0xabcd, 0xef01, 0, 0, 0, 0, 0, 0))
    );
}

#[test]
fn test_parse_ipv6_compressed() {
    assert_eq!(parse_ip("::"), Some(IpAddress::V6(0, 0, 0, 0, 0, 0, 0, 0)));
    assert_eq!(parse_ip("::1"), Some(IpAddress::V6(0, 0, 0, 0, 0, 0, 0, 1)));
    assert_eq!(parse_ip("1::"), Some(IpAddress::V6(1, 0, 0, 0, 0, 0, 0, 0)));
    assert_eq!(
        parse_ip("2001:db8::1"),
        Some(IpAddress::V6(0x2001, 0xdb8, 0, 0, 0, 0, 0, 1))
    );
    assert_eq!(
        parse_ip("1:2:3:4:5:6:7::"),
        Some(IpAddress::V6(1, 2, 3, 4, 5, 6, 7, 0))
    );
}

#[test]
fn test_parse_ipv6_embedded_ipv4() {
    assert_eq!(
        parse_ip("::ffff:1.2.3.4"),
        Some(IpAddress::V6(0, 0, 0, 0, 0, 0xffff, 0x0102, 0x0304))
    );
    assert_eq!(
        parse_ip("1:2:3:4:5:6:7.8.9.10"),
        Some(IpAddress::V6(1, 2, 3, 4, 5, 6, 0x0708, 0x090a))
    );
}

#[test]
fn test_parse_ipv6_rejects() {
    assert_eq!(parse_ip(":"), None);
    assert_eq!(parse_ip(":::"), None);
    assert_eq!(parse_ip("1:2:3:4:5:6:7"), None);
    assert_eq!(parse_ip("1:2:3:4:5:6:7:8:9"), None);
    assert_eq!(parse_ip("1:2:3:4:5:6:7:8::"), None);
    assert_eq!(parse_ip("1::2::3"), None);
    assert_eq!(parse_ip("1:::2"), None);
    assert_eq!(parse_ip("12345::"), None);
    assert_eq!(parse_ip("g::1"), None);
    assert_eq!(parse_ip("1.2.3.4::"), None);
}

#[test]
fn test_parse_public_ip_body_trims() {
    let r = parse_public_ip_body("  203.0.113.5\n");
    assert_eq!(r.unwrap(), IpAddress::V4(203, 0, 113, 5));
}

#[test]
fn test_parse_public_ip_body_rejects() {
    let r = parse_public_ip_body("<html>nope</html>");
    assert!(r.is_err());
    assert_eq!(r.unwrap_err().0, "Error parsing current IP");
}
