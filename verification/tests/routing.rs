use hpx::net::{IpAddr, Ipv4Addr, Ipv6Addr};
use hpx::routing::{
    alpn_is_h2, authority_of, check_header, dest_to_string, next_send_step, response_prefix, route_stream,
    HeaderVerdict, SendStep, StreamRoute,
};
use hpx::routing::{decide_admission, next_connect_step, Admission, ConnectStep, ResetReason};
use hpx::settings::Config;
use hpx::vless::VlessError;
use hpx::vless::{DestAddr, Destination, Header};

fn config() -> Config {
    Config {
        hosts: vec!["example.com".to_string(), "b.example".to_string()],
        path: "/path".to_string(),
        users: vec![[7u8; 16]],
        connect_timeout_ms: 5000,
        idle_timeout_s: 300,
        sub_path: Some("/sub".to_string()),
        sub_token: None,
        public_host: "example.com".to_string(),
        public_port: 443,
    }
}

fn s(x: &str) -> Option<String> {
    Some(x.to_string())
}

#[test]
fn routes() {
    let c = config();
    assert_eq!(route_stream(&c, true, "/sub", &None), StreamRoute::Subscription);
    assert_eq!(route_stream(&c, false, "/sub", &s("example.com")), StreamRoute::Reject { status: 404 });
    assert_eq!(route_stream(&c, true, "/other", &s("example.com")), StreamRoute::Reject { status: 404 });
    assert_eq!(route_stream(&c, false, "/path", &None), StreamRoute::Reject { status: 421 });
    assert_eq!(route_stream(&c, false, "/path", &s("evil.com")), StreamRoute::Reject { status: 421 });
    assert_eq!(route_stream(&c, false, "/path", &s("b.example")), StreamRoute::Proxy);
    assert_eq!(route_stream(&c, true, "/path", &s("example.com")), StreamRoute::Proxy);
}

#[test]
fn authority() {
    assert_eq!(authority_of(Some("Example.COM:443"), Some("other")), s("example.com:443"));
    assert_eq!(authority_of(None, Some("HOST.Example")), s("host.example"));
    assert_eq!(authority_of(None, None), None);
}

#[test]
fn alpn() {
    assert!(alpn_is_h2(Some(b"h2")));
    assert!(!alpn_is_h2(Some(b"http/1.1")));
    assert!(!alpn_is_h2(Some(b"h2c")));
    assert!(!alpn_is_h2(None));
}

fn header(command: u8, user: [u8; 16]) -> Header {
    Header {
        version: 3,
        user_id: user,
        command,
        destination: Destination { address: DestAddr::Domain("x".to_string()), port: 1 },
    }
}

#[test]
fn header_verdicts() {
    let c = config();
    assert_eq!(check_header(&c, &header(2, [7u8; 16])), HeaderVerdict::UnsupportedCommand);
    assert_eq!(check_header(&c, &header(1, [8u8; 16])), HeaderVerdict::UnknownUser);
    assert_eq!(check_header(&c, &header(1, [7u8; 16])), HeaderVerdict::Connect);
    assert_eq!(response_prefix(&header(1, [7u8; 16])), [3, 0]);
}

#[test]
fn send_steps() {
    assert_eq!(next_send_step(0, 10, true), SendStep::Done);
    assert_eq!(next_send_step(5, 0, true), SendStep::Wait { reserve: 5 });
    assert_eq!(next_send_step(5, 3, true), SendStep::Send { len: 3, end_stream: false });
    assert_eq!(next_send_step(5, 9, true), SendStep::Send { len: 5, end_stream: true });
    assert_eq!(next_send_step(5, 5, false), SendStep::Send { len: 5, end_stream: false });
    // a whole buffer through a sequence of windows
    let mut remaining = 10usize;
    let mut sent = Vec::new();
    for cap in [0usize, 4, 0, 4, 4, 4] {
        match next_send_step(remaining, cap, true) {
            SendStep::Done => break,
            SendStep::Wait { reserve } => assert_eq!(reserve, remaining),
            SendStep::Send { len, end_stream } => {
                remaining -= len;
                sent.push((len, end_stream));
            }
        }
    }
    assert_eq!(sent, vec![(4, false), (4, false), (2, true)]);
}

#[test]
fn destination_text() {
    let d = |address, port| Destination { address, port };
    assert_eq!(dest_to_string(&d(DestAddr::Domain("example.com".to_string()), 443)), "example.com:443");
    assert_eq!(dest_to_string(&d(DestAddr::Ip(IpAddr::V4(Ipv4Addr::new(1, 2, 3, 4))), 80)), "1.2.3.4:80");
    let v6 = [0x20, 0x01, 0x0d, 0xb8, 0, 0, 0, 0, 0, 0, 0, 0, 0, 0, 0, 1];
    assert_eq!(dest_to_string(&d(DestAddr::Ip(IpAddr::V6(Ipv6Addr::from_octets(v6))), 8080)), "2001:db8::1:8080");
}

fn request(command: u8, user: [u8; 16], addr_type: u8) -> Vec<u8> {
    let mut v = vec![9u8];
    v.extend_from_slice(&user);
    v.push(0);
    v.push(command);
    v.extend_from_slice(&[0, 80]);
    v.push(addr_type);
    v.extend_from_slice(&[1, 2, 3, 4]);
    v
}

#[test]
fn admission_decisions() {
    let c = config();
    let ok = request(1, [7u8; 16], 1);
    match decide_admission(&c, &ok) {
        Admission::Connect { header, consumed, reply } => {
            assert_eq!(consumed, ok.len());
            assert_eq!(reply, [9, 0]);
            assert_eq!(header.destination.address, DestAddr::Ip(IpAddr::V4(Ipv4Addr::new(1, 2, 3, 4))));
        }
        other => panic!("unexpected {other:?}"),
    }
    assert_eq!(decide_admission(&c, &ok[..20]), Admission::NeedMore);
    assert_eq!(
        decide_admission(&c, &request(2, [7u8; 16], 1)),
        Admission::Reject { reason: ResetReason::ProtocolError }
    );
    assert_eq!(
        decide_admission(&c, &request(1, [8u8; 16], 1)),
        Admission::Reject { reason: ResetReason::RefusedStream }
    );
    assert_eq!(
        decide_admission(&c, &request(1, [7u8; 16], 5)),
        Admission::Malformed { error: VlessError::UnknownAddrType(5) }
    );
    let mut more = ok.clone();
    more.extend_from_slice(b"payload");
    assert_eq!(decide_admission(&c, &more), decide_admission(&c, &ok));
}

#[test]
fn connect_steps() {
    assert_eq!(next_connect_step(0, 0, false), ConnectStep::NoAddress);
    assert_eq!(next_connect_step(3, 0, false), ConnectStep::Try { index: 0 });
    assert_eq!(next_connect_step(3, 1, false), ConnectStep::Try { index: 1 });
    assert_eq!(next_connect_step(3, 2, true), ConnectStep::Connected);
    assert_eq!(next_connect_step(3, 3, false), ConnectStep::FailLast);
    assert_eq!(next_connect_step(3, 3, true), ConnectStep::Connected);
    // every address fails: each is tried once, in order, then the last failure
    let mut tried = 0usize;
    let mut order = Vec::new();
    loop {
        match next_connect_step(4, tried, false) {
            ConnectStep::Try { index } => {
                order.push(index);
                tried += 1;
            }
            other => {
                assert_eq!(other, ConnectStep::FailLast);
                break;
            }
        }
    }
    assert_eq!(order, vec![0, 1, 2, 3]);
}
