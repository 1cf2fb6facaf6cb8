use hpx::settings::Config;
use hpx::subscription::{build_clash_yaml, build_vless_links, parse_sub_query, subscription_reply, SubscriptionReply};

fn id(n: u8) -> [u8; 16] {
    let mut b = [0u8; 16];
    b[15] = n;
    b
}

fn config(token: Option<&str>) -> Config {
    Config {
        hosts: vec!["example.com".to_string()],
        path: "/path".to_string(),
        users: vec![id(1), [0xab; 16]],
        connect_timeout_ms: 5000,
        idle_timeout_s: 300,
        sub_path: Some("/sub".to_string()),
        sub_token: token.map(|t| t.to_string()),
        public_host: "pub.example.com".to_string(),
        public_port: 8443,
    }
}

fn s(x: &str) -> Option<String> {
    Some(x.to_string())
}

#[test]
fn query_parsing() {
    assert_eq!(parse_sub_query(None), (None, None));
    assert_eq!(parse_sub_query(Some("")), (None, None));
    assert_eq!(parse_sub_query(Some("token=change_me&fmt=clash")), (s("clash"), s("change_me")));
    assert_eq!(parse_sub_query(Some("format=vless&&token")), (s("vless"), s("")));
    assert_eq!(parse_sub_query(Some("fmt=a&fmt=b&x=1&token=t=u")), (s("b"), s("t=u")));
    assert_eq!(parse_sub_query(Some("FMT=vless&tok=1")), (None, None));
}

#[test]
fn clash_yaml_text() {
    let c = config(None);
    let entry = |n: u32, uuid: &str| {
        format!(
            "  - name: hpx-{n}\n    type: vless\n    server: pub.example.com\n    port: 8443\n    uuid: {uuid}\n    udp: false\n    tls: true\n    servername: pub.example.com\n    network: h2\n    h2-opts:\n      host:\n        - pub.example.com\n      path: /path\n"
        )
    };
    let expected = format!(
        "proxies:\n{}{}",
        entry(1, "00000000-0000-0000-0000-000000000001"),
        entry(2, "abababab-abab-abab-abab-abababababab")
    );
    assert_eq!(build_clash_yaml(&c), expected);
}

#[test]
fn vless_links_text() {
    let c = config(None);
    let expected = "vless://00000000-0000-0000-0000-000000000001@pub.example.com:8443?encryption=none&security=tls&type=http&host=pub.example.com&path=/path&sni=pub.example.com#hpx-1\n\
vless://abababab-abab-abab-abab-abababababab@pub.example.com:8443?encryption=none&security=tls&type=http&host=pub.example.com&path=/path&sni=pub.example.com#hpx-2\n";
    assert_eq!(build_vless_links(&c), expected);
}

#[test]
fn replies() {
    let c = config(Some("change_me"));
    assert_eq!(subscription_reply(&c, None, Some("token=change_me")), SubscriptionReply::NotFound);
    assert_eq!(subscription_reply(&c, s("other.com"), Some("token=change_me")), SubscriptionReply::NotFound);
    assert_eq!(subscription_reply(&c, s("example.com"), Some("token=wrong")), SubscriptionReply::NotFound);
    assert_eq!(subscription_reply(&c, s("example.com"), None), SubscriptionReply::NotFound);
    match subscription_reply(&c, s("example.com"), Some("token=change_me&fmt=vless")) {
        SubscriptionReply::Document { content_type, body } => {
            assert_eq!(content_type, "text/plain; charset=utf-8");
            assert_eq!(body, build_vless_links(&c));
        }
        other => panic!("unexpected {other:?}"),
    }
    for f in ["uri", "links"] {
        let q = format!("fmt={f}&token=change_me");
        assert!(matches!(subscription_reply(&c, s("example.com"), Some(&q)),
            SubscriptionReply::Document { ref content_type, .. } if content_type == "text/plain; charset=utf-8"));
    }
    match subscription_reply(&c, s("example.com"), Some("token=change_me&fmt=clash")) {
        SubscriptionReply::Document { content_type, body } => {
            assert_eq!(content_type, "text/yaml; charset=utf-8");
            assert_eq!(body, build_clash_yaml(&c));
        }
        other => panic!("unexpected {other:?}"),
    }
    let open = config(None);
    assert!(matches!(subscription_reply(&open, s("example.com"), None), SubscriptionReply::Document { .. }));
}

#[test]
fn joined_queries_later_wins() {
    assert_eq!(parse_sub_query(Some("fmt=clash&token=a&fmt=vless")), (s("vless"), s("a")));
    let (f1, t1) = parse_sub_query(Some("fmt=clash&token=a"));
    let (f2, t2) = parse_sub_query(Some("x=1&token=b"));
    assert_eq!(parse_sub_query(Some("fmt=clash&token=a&x=1&token=b")), (f2.or(f1), t2.or(t1)));
}
