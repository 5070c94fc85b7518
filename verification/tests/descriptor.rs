use cdn_optimizer::link::{generate_node_link, parse_node_link, LinkError, NodeConfig};

#[test]
fn parse_basic_link() {
    let c = parse_node_link("vless://uuid-123@example.com:443?security=tls&type=ws#MyNode")
        .expect("link should parse");
    assert_eq!(c.protocol, "vless");
    assert_eq!(c.address, "example.com");
    assert_eq!(c.port, 443);
    assert_eq!(c.uuid, "uuid-123");
    assert_eq!(c.fragment, "MyNode");
    assert_eq!(
        c.params,
        vec![
            ("security".to_string(), "tls".to_string()),
            ("type".to_string(), "ws".to_string()),
        ]
    );
}

#[test]
fn parse_ip_host_no_query_no_fragment() {
    let c = parse_node_link("vless://u@10.0.0.1:8443").expect("link should parse");
    assert_eq!(c.address, "10.0.0.1");
    assert_eq!(c.port, 8443);
    assert_eq!(c.uuid, "u");
    assert_eq!(c.fragment, "");
    assert!(c.params.is_empty());
}

#[test]
fn parse_rejects_bad_syntax() {
    assert_eq!(parse_node_link("not a link"), Err(LinkError::BadSyntax));
    assert_eq!(parse_node_link(""), Err(LinkError::BadSyntax));
}

#[test]
fn parse_rejects_missing_host() {
    assert_eq!(parse_node_link("vless:opaque-data"), Err(LinkError::MissingHost));
}

#[test]
fn parse_rejects_missing_port() {
    assert_eq!(parse_node_link("vless://u@example.com"), Err(LinkError::InvalidPort));
}

#[test]
fn parse_rejects_port_zero() {
    assert_eq!(parse_node_link("vless://u@example.com:0"), Err(LinkError::InvalidPort));
}

#[test]
fn parse_keeps_last_value_of_repeated_key() {
    let c = parse_node_link("vless://u@h:1?a=1&b=2&a=3").expect("link should parse");
    assert_eq!(
        c.params,
        vec![("a".to_string(), "3".to_string()), ("b".to_string(), "2".to_string())]
    );
}

#[test]
fn generate_without_params() {
    let c = parse_node_link("vless://uuid@1.2.3.4:443#Node").expect("link should parse");
    assert_eq!(generate_node_link(&c, "5.6.7.8"), "vless://uuid@5.6.7.8:443#Node");
}

#[test]
fn generate_percent_encodes_values() {
    let c = parse_node_link("vless://u@h:443?path=%2Fws").expect("link should parse");
    assert_eq!(c.params, vec![("path".to_string(), "/ws".to_string())]);
    assert_eq!(generate_node_link(&c, "9.9.9.9"), "vless://u@9.9.9.9:443?path=%2Fws");
}

#[test]
fn generate_encodes_space_as_plus() {
    let c = NodeConfig {
        protocol: "vless".to_string(),
        address: "h".to_string(),
        port: 65535,
        uuid: "u".to_string(),
        params: vec![("note".to_string(), "a b".to_string())],
        fragment: "".to_string(),
    };
    assert_eq!(generate_node_link(&c, "2.3.4.5"), "vless://u@2.3.4.5:65535?note=a+b");
}

#[test]
fn rewrite_then_reparse_only_changes_host() {
    let original =
        parse_node_link("vless://uuid@1.2.3.4:443?security=tls&path=%2Fws#Node").unwrap();
    let rewritten = generate_node_link(&original, "8.8.8.8");
    let reparsed = parse_node_link(&rewritten).expect("rewritten link should parse");
    assert_eq!(reparsed.address, "8.8.8.8");
    assert_eq!(reparsed.protocol, original.protocol);
    assert_eq!(reparsed.port, original.port);
    assert_eq!(reparsed.uuid, original.uuid);
    assert_eq!(reparsed.params, original.params);
    assert_eq!(reparsed.fragment, original.fragment);
}

#[test]
fn rewrite_ipv6_host_round_trips() {
    let original = parse_node_link("vless://uuid@1.2.3.4:443#V6").unwrap();
    let rewritten = generate_node_link(&original, "[2001:db8::1]");
    let reparsed = parse_node_link(&rewritten).expect("rewritten link should parse");
    assert_eq!(reparsed.address, "[2001:db8::1]");
    assert_eq!(reparsed.port, original.port);
}
