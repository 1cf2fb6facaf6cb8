use hpx::file_config::parse_str;
use hpx::net::{Ipv4Addr, SocketAddress};
use hpx::settings::{build_settings, merge_settings, normalize_path, CliArgs, SettingsError};

const U1: &str = "00000000-0000-0000-0000-000000000001";
const U2: &str = "00000000-0000-0000-0000-000000000002";

fn cli() -> CliArgs {
    CliArgs {
        listen: None,
        cert: Some("c.pem".to_string()),
        key: Some("k.pem".to_string()),
        hosts: vec!["Example.COM".to_string()],
        path: None,
        uuids: vec![U1.to_string()],
        connect_timeout_ms: None,
        idle_timeout_s: None,
    }
}

fn id(n: u8) -> [u8; 16] {
    let mut b = [0u8; 16];
    b[15] = n;
    b
}

#[test]
fn defaults() {
    let s = build_settings(None, cli()).unwrap();
    assert_eq!(s.listen, SocketAddress::V4(Ipv4Addr::new(0, 0, 0, 0), 443));
    assert_eq!(s.cert, "c.pem");
    assert_eq!(s.key, "k.pem");
    assert_eq!(s.config.hosts, vec!["example.com".to_string()]);
    assert_eq!(s.config.path, "/");
    assert_eq!(s.config.users, vec![id(1)]);
    assert_eq!(s.config.connect_timeout_ms, 5000);
    assert_eq!(s.config.idle_timeout_s, 300);
    assert_eq!(s.config.sub_path, None);
    assert_eq!(s.config.sub_token, None);
    assert_eq!(s.config.public_host, "Example.COM");
    assert_eq!(s.config.public_port, 443);
}

#[test]
fn command_line_overrides_file_and_lists_merge() {
    let file = parse_str(&format!(
        "listen=127.0.0.1:8443\ncert=f.pem\nkey=fk.pem\nhost=a.com,B.com\npath=file\nuuid={U2}\nconnect_timeout_ms=1\nidle_timeout_s=2\nsub_path=sub\nsub_token=t\npublic_port=9443"
    ))
    .unwrap();
    let mut a = cli();
    a.listen = Some(SocketAddress::V4(Ipv4Addr::new(10, 0, 0, 1), 443));
    a.path = Some("/cli".to_string());
    a.connect_timeout_ms = Some(7);
    a.hosts = vec!["b.COM".to_string(), "c.com".to_string()];
    a.uuids = vec![U1.to_string(), U2.to_string()];
    let s = build_settings(Some(file), a).unwrap();
    assert_eq!(s.listen, SocketAddress::V4(Ipv4Addr::new(10, 0, 0, 1), 443));
    assert_eq!(s.cert, "c.pem");
    assert_eq!(s.config.path, "/cli");
    assert_eq!(s.config.connect_timeout_ms, 7);
    assert_eq!(s.config.idle_timeout_s, 2);
    assert_eq!(s.config.hosts, vec!["a.com".to_string(), "b.com".to_string(), "c.com".to_string()]);
    assert_eq!(s.config.users, vec![id(2), id(1)]);
    assert_eq!(s.config.sub_path.as_deref(), Some("/sub"));
    assert_eq!(s.config.sub_token.as_deref(), Some("t"));
    assert_eq!(s.config.public_host, "a.com");
    assert_eq!(s.config.public_port, 9443);
}

#[test]
fn file_values_used_when_command_line_is_silent() {
    let file = parse_str("listen=[::1]:8443\npath=p\nidle_timeout_s=9\npublic_host=pub.example").unwrap();
    let s = build_settings(Some(file), cli()).unwrap();
    assert_eq!(s.listen.port(), 8443);
    assert_eq!(s.config.path, "/p");
    assert_eq!(s.config.idle_timeout_s, 9);
    assert_eq!(s.config.public_host, "pub.example");
    assert_eq!(s.config.public_port, 8443);
}

#[test]
fn errors_in_order() {
    let mut a = cli();
    a.cert = None;
    a.key = None;
    assert_eq!(build_settings(None, a).map(|_| ()), Err(SettingsError::MissingCert));
    let mut a = cli();
    a.key = None;
    assert_eq!(build_settings(None, a).map(|_| ()), Err(SettingsError::MissingKey));
    let mut a = cli();
    a.hosts = vec![];
    a.uuids = vec!["bad".to_string()];
    assert_eq!(build_settings(None, a).map(|_| ()), Err(SettingsError::MissingHost));
    let mut a = cli();
    a.uuids = vec![U1.to_string(), "not-a-uuid".to_string(), "also bad".to_string()];
    assert_eq!(
        build_settings(None, a).map(|_| ()),
        Err(SettingsError::InvalidUuid { uuid: "not-a-uuid".to_string() })
    );
    let mut a = cli();
    a.uuids = vec![];
    assert_eq!(build_settings(None, a).map(|_| ()), Err(SettingsError::MissingUuid));
    let mut a = cli();
    a.hosts = vec![String::new()];
    assert_eq!(build_settings(None, a).map(|_| ()), Err(SettingsError::NoPublicHost));
}

#[test]
fn uuid_forms_accepted() {
    let mut a = cli();
    a.uuids = vec![
        "00000000000000000000000000000001".to_string(),
        "{00000000-0000-0000-0000-000000000002}".to_string(),
        "urn:uuid:00000000-0000-0000-0000-000000000001".to_string(),
    ];
    let s = build_settings(None, a).unwrap();
    assert_eq!(s.config.users, vec![id(1), id(2)]);
}

#[test]
fn merge_with_given_parse_results() {
    let mut a = cli();
    a.uuids = vec!["x".to_string(), "y".to_string(), "z".to_string()];
    let s = merge_settings(None, a.clone(), vec![Some(id(3)), Some(id(3)), Some(id(4))]).unwrap();
    assert_eq!(s.config.users, vec![id(3), id(4)]);
    assert_eq!(
        merge_settings(None, a, vec![Some(id(3)), None, None]).map(|_| ()),
        Err(SettingsError::InvalidUuid { uuid: "y".to_string() })
    );
}

#[test]
fn normalize_path_examples() {
    assert_eq!(normalize_path(""), "/");
    assert_eq!(normalize_path("/"), "/");
    assert_eq!(normalize_path("path"), "/path");
    assert_eq!(normalize_path("/path"), "/path");
    assert_eq!(normalize_path(&normalize_path("x")), "/x");
}

#[test]
fn uuid_bytes_and_refused_forms() {
    let mut a = cli();
    a.uuids = vec![
        "F9168C5E-CEB2-4faa-B6BF-329BF39FA1E4".to_string(),
        "URN:Uuid:0102030405060708090a0b0c0d0e0f10".to_string(),
    ];
    assert!(matches!(build_settings(None, a.clone()), Err(SettingsError::InvalidUuid { .. })));
    a.uuids = vec!["F9168C5E-CEB2-4faa-B6BF-329BF39FA1E4".to_string(), "Urn:UUID:01020304-0506-0708-090a-0b0c0d0e0f10".to_string()];
    let s = build_settings(None, a.clone()).unwrap();
    assert_eq!(
        s.config.users,
        vec![
            [0xf9, 0x16, 0x8c, 0x5e, 0xce, 0xb2, 0x4f, 0xaa, 0xb6, 0xbf, 0x32, 0x9b, 0xf3, 0x9f, 0xa1, 0xe4],
            [1, 2, 3, 4, 5, 6, 7, 8, 9, 10, 11, 12, 13, 14, 15, 16],
        ]
    );
    for bad in [
        "0000000000000000000000000000000g",
        "00000000-0000-0000-0000-00000000000",
        "00000000-0000-0000-00000-00000000000",
        "{00000000-0000-0000-0000-000000000001",
        "urn:uid:00000000-0000-0000-0000-0000000000001",
        " 00000000-0000-0000-0000-000000000001",
    ] {
        a.uuids = vec![bad.to_string()];
        assert!(matches!(build_settings(None, a.clone()), Err(SettingsError::InvalidUuid { .. })), "{bad}");
    }
}
