use bytes::BytesMut;
use hpx::net::{IpAddr, Ipv4Addr, Ipv6Addr};
use hpx::vless::{parse_header, try_parse, DestAddr, VlessError};

fn base(uuid: [u8; 16]) -> Vec<u8> {
    let mut v = Vec::new();
    v.push(0);
    v.extend_from_slice(&uuid);
    v.push(0);
    v.push(0x01);
    v.extend_from_slice(&80u16.to_be_bytes());
    v
}

#[test]
fn parse_ipv4() {
    let uuid = [7u8; 16];
    let mut v = base(uuid);
    v.push(0x01);
    v.extend_from_slice(&[1, 2, 3, 4]);
    v.extend_from_slice(b"hello");

    let buf = BytesMut::from(&v[..]);
    let (h, n) = try_parse(&buf).unwrap().unwrap();
    assert_eq!(n, 18 + 0 + 4 + 4);
    assert_eq!(h.user_id, uuid);
    assert_eq!(h.command, 0x01);
    assert_eq!(h.destination.port, 80);
    assert_eq!(h.destination.address, DestAddr::Ip(IpAddr::V4(Ipv4Addr::new(1, 2, 3, 4))));
}

#[test]
fn parse_domain() {
    let uuid = [9u8; 16];
    let mut v = base(uuid);
    v.push(0x02);
    v.push(3);
    v.extend_from_slice(b"abc");
    let buf = BytesMut::from(&v[..]);
    let (h, n) = try_parse(&buf).unwrap().unwrap();
    assert_eq!(n, 26);
    assert_eq!(h.destination.address, DestAddr::Domain("abc".to_string()));
}

#[test]
fn parse_ipv6() {
    let uuid = [1u8; 16];
    let mut v = base(uuid);
    v.push(0x03);
    v.extend_from_slice(&[0x20, 0x01, 0x0d, 0xb8, 0, 0, 0, 0, 0, 0, 0, 0, 0, 0, 0, 1]);
    let buf = BytesMut::from(&v[..]);
    let (h, n) = try_parse(&buf).unwrap().unwrap();
    assert_eq!(n, 18 + 0 + 4 + 16);
    match h.destination.address {
        DestAddr::Ip(IpAddr::V6(_)) => {}
        _ => panic!("expected v6"),
    }
}

#[test]
fn partial() {
    let uuid = [7u8; 16];
    let mut v = base(uuid);
    v.push(0x01);
    v.extend_from_slice(&[1, 2, 3, 4]);
    let buf = BytesMut::from(&v[..10]);
    assert!(try_parse(&buf).unwrap().is_none());
}

#[test]
fn ipv6_octets_and_version_kept() {
    let mut v = vec![5u8];
    v.extend_from_slice(&[2u8; 16]);
    v.push(0);
    v.push(0x01);
    v.extend_from_slice(&443u16.to_be_bytes());
    v.push(0x03);
    let octets = [0x20, 0x01, 0x0d, 0xb8, 0, 0, 0, 0, 0, 0, 0, 0, 0, 0, 0, 1];
    v.extend_from_slice(&octets);
    let (h, n) = parse_header(&v).unwrap().unwrap();
    assert_eq!(n, 38);
    assert_eq!(h.version, 5);
    assert_eq!(h.destination.port, 443);
    assert_eq!(h.destination.address, DestAddr::Ip(IpAddr::V6(Ipv6Addr::from_octets(octets))));
}

#[test]
fn addons_are_skipped() {
    let mut v = vec![0u8];
    v.extend_from_slice(&[3u8; 16]);
    v.push(3);
    v.extend_from_slice(&[0xaa, 0xbb, 0xcc]);
    v.push(0x01);
    v.extend_from_slice(&[0x1f, 0x90]);
    v.push(0x01);
    v.extend_from_slice(&[10, 0, 0, 1]);
    let (h, n) = parse_header(&v).unwrap().unwrap();
    assert_eq!(n, 18 + 3 + 4 + 4);
    assert_eq!(h.destination.port, 8080);
    assert_eq!(h.destination.address, DestAddr::Ip(IpAddr::V4(Ipv4Addr::new(10, 0, 0, 1))));
}

#[test]
fn unknown_addr_type_is_an_error() {
    let mut v = base([0u8; 16]);
    v.push(0x07);
    assert_eq!(parse_header(&v), Err(VlessError::UnknownAddrType(0x07)));
}

#[test]
fn invalid_domain_utf8_is_an_error() {
    let mut v = base([0u8; 16]);
    v.push(0x02);
    v.push(2);
    v.extend_from_slice(&[0xff, 0xfe]);
    assert_eq!(parse_header(&v), Err(VlessError::InvalidDomainUtf8));
}

#[test]
fn every_proper_prefix_asks_for_more() {
    let mut v = base([4u8; 16]);
    v.push(0x02);
    v.push(11);
    v.extend_from_slice(b"example.com");
    let (_, n) = parse_header(&v).unwrap().unwrap();
    assert_eq!(n, v.len());
    for k in 0..n {
        assert_eq!(parse_header(&v[..k]), Ok(None), "prefix of length {k}");
    }
}

#[test]
fn trailing_bytes_do_not_change_the_header() {
    let mut v = base([4u8; 16]);
    v.push(0x01);
    v.extend_from_slice(&[127, 0, 0, 1]);
    let first = parse_header(&v).unwrap().unwrap();
    v.extend_from_slice(b"GET / HTTP/1.1\r\n");
    let second = parse_header(&v).unwrap().unwrap();
    assert_eq!(first, second);
}

#[test]
fn unknown_type_needs_only_the_fixed_part() {
    let mut v = base([0u8; 16]);
    v.push(0x09);
    assert_eq!(parse_header(&v[..v.len() - 1]), Ok(None));
    assert!(parse_header(&v).is_err());
}

#[test]
fn domain_utf8_multibyte() {
    let mut v = base([0u8; 16]);
    let name = "bücher.de";
    v.push(0x02);
    v.push(name.len() as u8);
    v.extend_from_slice(name.as_bytes());
    let (h, _) = parse_header(&v).unwrap().unwrap();
    assert_eq!(h.destination.address, DestAddr::Domain(name.to_string()));
}
