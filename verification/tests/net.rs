use hpx::net::{ip_to_string, ipv4_to_string, ipv6_to_string, parse_socket_addr, parse_socket_address, IpAddr, Ipv4Addr, Ipv6Addr, SocketAddress};

fn parse(s: &str) -> Option<SocketAddress> {
    let v: Vec<char> = s.chars().collect();
    let r = parse_socket_addr(&v);
    assert_eq!(parse_socket_address(s), r);
    r
}

fn octets(g: [u16; 8]) -> [u8; 16] {
    let mut o = [0u8; 16];
    for i in 0..8 {
        o[2 * i] = (g[i] >> 8) as u8;
        o[2 * i + 1] = (g[i] & 0xff) as u8;
    }
    o
}

fn v4(a: u8, b: u8, c: u8, d: u8, port: u16) -> Option<SocketAddress> {
    Some(SocketAddress::V4(Ipv4Addr::new(a, b, c, d), port))
}

fn v6(g: [u16; 8], port: u16, scope: u32) -> Option<SocketAddress> {
    Some(SocketAddress::V6(Ipv6Addr::from_octets(octets(g)), port, scope))
}

#[test]
fn ipv4_socket_addresses() {
    assert_eq!(parse("0.0.0.0:443"), v4(0, 0, 0, 0, 443));
    assert_eq!(parse("127.0.0.1:8080"), v4(127, 0, 0, 1, 8080));
    assert_eq!(parse("255.255.255.255:65535"), v4(255, 255, 255, 255, 65535));
    assert_eq!(parse("0.0.0.0:0080"), v4(0, 0, 0, 0, 80));
    for bad in [
        "256.0.0.1:80", "1.2.3:80", "1.2.3.4", "1.2.3.4:", "1.2.3.4:65536", "01.2.3.4:80", "1.2.3.4:+80",
        " 1.2.3.4:80", "1.2.3.4:80 ", "1.2.3.4:99999", "", "localhost:80", "1.2.3.4.5:80",
    ] {
        assert_eq!(parse(bad), None, "{bad}");
    }
}

#[test]
fn ipv6_socket_addresses() {
    assert_eq!(parse("[::1]:80"), v6([0, 0, 0, 0, 0, 0, 0, 1], 80, 0));
    assert_eq!(parse("[::]:443"), v6([0; 8], 443, 0));
    assert_eq!(parse("[2001:db8::1]:8443"), v6([0x2001, 0xdb8, 0, 0, 0, 0, 0, 1], 8443, 0));
    assert_eq!(parse("[2001:db8:0:0:0:0:0:1]:1"), v6([0x2001, 0xdb8, 0, 0, 0, 0, 0, 1], 1, 0));
    assert_eq!(parse("[::ffff:192.168.1.1]:80"), v6([0, 0, 0, 0, 0, 0xffff, 0xc0a8, 0x0101], 80, 0));
    assert_eq!(parse("[1:2:3:4:5:6:7:8]:9"), v6([1, 2, 3, 4, 5, 6, 7, 8], 9, 0));
    assert_eq!(parse("[1:2:3:4:5:6:7::]:9"), v6([1, 2, 3, 4, 5, 6, 7, 0], 9, 0));
    assert_eq!(parse("[::1:2:3:4:5:6:7]:9"), v6([0, 1, 2, 3, 4, 5, 6, 7], 9, 0));
    assert_eq!(parse("[fe80::1%2]:80"), v6([0xfe80, 0, 0, 0, 0, 0, 0, 1], 80, 2));
    assert_eq!(parse("[fe80::1%4294967295]:80"), v6([0xfe80, 0, 0, 0, 0, 0, 0, 1], 80, u32::MAX));
    assert_eq!(parse("[0000:0000::1]:80"), v6([0, 0, 0, 0, 0, 0, 0, 1], 80, 0));
    assert_eq!(parse("[::1.2.3.4]:80"), v6([0, 0, 0, 0, 0, 0, 0x0102, 0x0304], 80, 0));
    assert_eq!(parse("[1:2:3:4:5:6:1.2.3.4]:80"), v6([1, 2, 3, 4, 5, 6, 0x0102, 0x0304], 80, 0));
    assert_eq!(parse("[ABCD:ef01::]:80"), v6([0xabcd, 0xef01, 0, 0, 0, 0, 0, 0], 80, 0));
    for bad in [
        "[1:2:3:4:5:6:7:8:9]:9", "[1::2::3]:9", "[fe80::1%]:80", "[fe80::1%4294967296]:80", "[12345::1]:80",
        "[1.2.3.4::]:80", "[1:2:3:4:5:6:7:1.2.3.4]:80", "::1:80", "[::1]", "[::1]80", "[::1]:", "[:1]:80",
    ] {
        assert_eq!(parse(bad), None, "{bad}");
    }
}

#[test]
fn socket_addr_port() {
    assert_eq!(parse("10.0.0.1:8443").unwrap().port(), 8443);
    assert_eq!(parse("[::1]:53").unwrap().port(), 53);
}

#[test]
fn ipv4_text() {
    assert_eq!(ipv4_to_string(&[1, 2, 3, 4]), "1.2.3.4");
    assert_eq!(ipv4_to_string(&[0, 10, 200, 255]), "0.10.200.255");
    assert_eq!(ip_to_string(&IpAddr::V4(Ipv4Addr::new(192, 168, 0, 1))), "192.168.0.1");
}

#[test]
fn ipv6_text() {
    let cases: Vec<([u16; 8], &str)> = vec![
        ([0, 0, 0, 0, 0, 0, 0, 0], "::"),
        ([0, 0, 0, 0, 0, 0, 0, 1], "::1"),
        ([0x2001, 0xdb8, 0, 0, 0, 0, 0, 1], "2001:db8::1"),
        ([0x2001, 0xdb8, 0, 0, 1, 0, 0, 1], "2001:db8::1:0:0:1"),
        ([0x2001, 0xdb8, 0, 1, 0, 0, 0, 1], "2001:db8:0:1::1"),
        ([1, 0, 2, 0, 3, 0, 4, 0], "1:0:2:0:3:0:4:0"),
        ([0, 0, 0, 0, 0, 0xffff, 0xc0a8, 0x0101], "::ffff:192.168.1.1"),
        ([0, 0, 0, 0, 0, 0, 0xc0a8, 0x0101], "::c0a8:101"),
        ([0xfe80, 0, 0, 0, 0x1234, 0x5678, 0x9abc, 0xdef0], "fe80::1234:5678:9abc:def0"),
        ([1, 2, 3, 4, 5, 6, 7, 8], "1:2:3:4:5:6:7:8"),
        ([0, 1, 0, 0, 2, 0, 0, 0], "0:1:0:0:2::"),
        ([1, 0, 0, 0, 0, 0, 0, 0], "1::"),
        ([0xffff; 8], "ffff:ffff:ffff:ffff:ffff:ffff:ffff:ffff"),
    ];
    for (g, text) in cases {
        assert_eq!(ipv6_to_string(&octets(g)), text, "{g:?}");
        assert_eq!(ip_to_string(&IpAddr::V6(Ipv6Addr::from_octets(octets(g)))), text);
    }
}
