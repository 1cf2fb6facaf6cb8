use hpx::file_config::{parse_str, split_list, ConfigFileError, IntErrorKind, NumberKey};
use hpx::net::{Ipv4Addr, SocketAddress};

#[test]
fn readme_example() {
    let text = "listen=0.0.0.0:443\ncert=/etc/hpx/fullchain.pem\nkey=/etc/hpx/privkey.pem\nhost=example.com\npath=/path\nuuid=00000000-0000-0000-0000-000000000000\nconnect_timeout_ms=5000\nidle_timeout_s=1800\nsub_path=/sub\nsub_token=change_me\npublic_host=example.com\npublic_port=443\n";
    let c = parse_str(text).unwrap();
    assert_eq!(c.listen, Some(SocketAddress::V4(Ipv4Addr::new(0, 0, 0, 0), 443)));
    assert_eq!(c.cert.as_deref(), Some("/etc/hpx/fullchain.pem"));
    assert_eq!(c.key.as_deref(), Some("/etc/hpx/privkey.pem"));
    assert_eq!(c.hosts, vec!["example.com".to_string()]);
    assert_eq!(c.path.as_deref(), Some("/path"));
    assert_eq!(c.uuids, vec!["00000000-0000-0000-0000-000000000000".to_string()]);
    assert_eq!(c.connect_timeout_ms, Some(5000));
    assert_eq!(c.idle_timeout_s, Some(1800));
    assert_eq!(c.sub_path.as_deref(), Some("/sub"));
    assert_eq!(c.sub_token.as_deref(), Some("change_me"));
    assert_eq!(c.public_host.as_deref(), Some("example.com"));
    assert_eq!(c.public_port, Some(443));
}

#[test]
fn multi_value_forms_agree() {
    let a = parse_str("host=a.com,b.com\nuuid=uuid1,uuid2").unwrap();
    let b = parse_str("host=a.com\nhost=b.com\nuuid=uuid1\nuuid=uuid2").unwrap();
    assert_eq!(a.hosts, b.hosts);
    assert_eq!(a.uuids, b.uuids);
    assert_eq!(a.hosts, vec!["a.com".to_string(), "b.com".to_string()]);
    let c = parse_str("hosts = a.com , ,b.com,\nuuids=x").unwrap();
    assert_eq!(c.hosts, vec!["a.com".to_string(), "b.com".to_string()]);
    assert_eq!(c.uuids, vec!["x".to_string()]);
}

#[test]
fn comments_blank_lines_case_and_quotes() {
    let text = "# a comment\n\n   \r\n  PATH = \"/p q\" \r\n\tCert='c.pem'\n  # another\nkey=\"'k'\"\nsub_token=\"\nsub_path=/x=y\n";
    let c = parse_str(text).unwrap();
    assert_eq!(c.path.as_deref(), Some("/p q"));
    assert_eq!(c.cert.as_deref(), Some("c.pem"));
    assert_eq!(c.key.as_deref(), Some("k"));
    assert_eq!(c.sub_token.as_deref(), Some("\""));
    assert_eq!(c.sub_path.as_deref(), Some("/x=y"));
}

#[test]
fn later_lines_override_earlier() {
    let c = parse_str("path=/a\npath=/b\npublic_port=1\npublic_port=2").unwrap();
    assert_eq!(c.path.as_deref(), Some("/b"));
    assert_eq!(c.public_port, Some(2));
}

#[test]
fn unicode_whitespace_is_trimmed() {
    let c = parse_str("\u{3000}host\u{a0}=\u{2003}h.example\u{85}").unwrap();
    assert_eq!(c.hosts, vec!["h.example".to_string()]);
}

#[test]
fn empty_text_is_empty_config() {
    let c = parse_str("").unwrap();
    assert!(c.listen.is_none() && c.cert.is_none() && c.hosts.is_empty() && c.uuids.is_empty());
    assert!(c.public_port.is_none());
}

#[test]
fn missing_equals() {
    assert_eq!(parse_str("host=a\n\nnot a pair\n").map(|_| ()), Err(ConfigFileError::MissingEquals { line: 3 }));
}

#[test]
fn unknown_key_is_reported_in_lower_case() {
    match parse_str("# x\nFoo_Bar = 1") {
        Err(ConfigFileError::UnknownKey { name, line }) => {
            assert_eq!(name, "foo_bar");
            assert_eq!(line, 2);
        }
        other => panic!("unexpected {other:?}"),
    }
}

#[test]
fn first_error_wins() {
    match parse_str("bogus=1\nalso bad") {
        Err(ConfigFileError::UnknownKey { line, .. }) => assert_eq!(line, 1),
        other => panic!("unexpected {other:?}"),
    }
}

#[test]
fn number_errors() {
    let kind = |t: &str| match parse_str(t) {
        Err(ConfigFileError::InvalidNumber { kind, .. }) => kind,
        other => panic!("unexpected {other:?}"),
    };
    assert_eq!(kind("connect_timeout_ms="), IntErrorKind::Empty);
    assert_eq!(kind("connect_timeout_ms=+"), IntErrorKind::InvalidDigit);
    assert_eq!(kind("connect_timeout_ms=-5"), IntErrorKind::InvalidDigit);
    assert_eq!(kind("idle_timeout_s=12x"), IntErrorKind::InvalidDigit);
    assert_eq!(kind("idle_timeout_s=99999999999999999999"), IntErrorKind::PosOverflow);
    assert_eq!(kind("idle_timeout_s=99999999999999999999x"), IntErrorKind::PosOverflow);
    assert_eq!(kind("public_port=65536"), IntErrorKind::PosOverflow);
    match parse_str("public_port=x") {
        Err(ConfigFileError::InvalidNumber { key, line, .. }) => {
            assert_eq!(key, NumberKey::PublicPort);
            assert_eq!(line, 1);
        }
        other => panic!("unexpected {other:?}"),
    }
    let c = parse_str("public_port=+65535\nconnect_timeout_ms=18446744073709551615").unwrap();
    assert_eq!(c.public_port, Some(65535));
    assert_eq!(c.connect_timeout_ms, Some(u64::MAX));
}

#[test]
fn numbers_agree_with_std() {
    for t in ["0", "+0", "007", "4294967296", "18446744073709551616", "1 2", "", "+", "-1", "٣"] {
        let text = format!("idle_timeout_s={t}");
        let ours = parse_str(&text).map(|c| c.idle_timeout_s.unwrap());
        match t.trim().parse::<u64>() {
            Ok(v) => assert_eq!(ours.unwrap(), v, "{t}"),
            Err(_) => assert!(ours.is_err(), "{t}"),
        }
    }
}

#[test]
fn bad_listen() {
    assert_eq!(
        parse_str("listen=localhost:443").map(|_| ()),
        Err(ConfigFileError::InvalidListen { line: 1 })
    );
}

#[test]
fn split_list_examples() {
    assert_eq!(split_list("a,b"), vec!["a".to_string(), "b".to_string()]);
    assert_eq!(split_list(" a , , b ,"), vec!["a".to_string(), "b".to_string()]);
    assert!(split_list("").is_empty());
    assert!(split_list(" , ,").is_empty());
    assert_eq!(split_list("x"), vec!["x".to_string()]);
    let joined: Vec<String> = split_list("a, b").into_iter().chain(split_list("c")).collect();
    assert_eq!(split_list("a, b,c"), joined);
}

#[test]
fn joined_texts_combine() {
    let a = "host=a.com\npath=/a\nsub_token=t";
    let b = "host=b.com\npath=/b\npublic_port=8443";
    let ca = parse_str(a).unwrap();
    let cb = parse_str(b).unwrap();
    let c = parse_str(&format!("{a}\n{b}")).unwrap();
    let mut hosts = ca.hosts.clone();
    hosts.extend(cb.hosts.clone());
    assert_eq!(c.hosts, hosts);
    assert_eq!(c.path, cb.path);
    assert_eq!(c.sub_token, ca.sub_token);
    assert_eq!(c.public_port, Some(8443));
    assert!(parse_str(&format!("{a}\nbogus=1")).is_err());
    assert!(matches!(parse_str(&format!("nope\n{b}")), Err(ConfigFileError::MissingEquals { line: 1 })));
}

#[test]
fn refused_lines_fail_the_text() {
    assert!(parse_str("# only a comment\n\n   ").is_ok());
    assert!(parse_str("host=a\n public_port = 70000 ").is_err());
    assert!(parse_str("listen=not-an-address").is_err());
    assert!(parse_str("LISTEN = 127.0.0.1:80\nIdle_Timeout_S=5").is_ok());
}

#[test]
fn split_list_items_are_clean() {
    for item in split_list(" a , ,b\t,, c d ,") {
        assert!(!item.is_empty());
        assert_eq!(item.trim(), item);
        assert!(!item.contains(','));
    }
    assert_eq!(split_list(" a , ,b\t,, c d ,"), vec!["a".to_string(), "b".to_string(), "c d".to_string()]);
}
