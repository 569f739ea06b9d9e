use flowroute::config::{
    apply_detected_port, settings_after_probe, build_dns_hosts, build_dns_policy, build_inline_rules,
    build_local_direct_dns_policy, build_local_direct_rules, build_sniffer_skip_domains,
    detect_upstream_port, format_dns_hosts, host_port_address, local_direct_domains, parent_suffix,
    AppSettings, ProxyType, UpstreamProxy, UserRule, API_PORT, API_SECRET,
    AUTO_DETECT_UPSTREAM_PORTS, MIXED_PORT,
};

fn rule(domain: &str, action: &str) -> UserRule {
    UserRule { domain: domain.to_string(), action: action.to_string() }
}

fn chars(s: &str) -> Vec<char> {
    s.chars().collect()
}

fn text(v: Option<Vec<char>>) -> Option<String> {
    v.map(|c| c.into_iter().collect())
}

#[test]
fn constants_match_the_core_setup() {
    assert_eq!(MIXED_PORT, 17890);
    assert_eq!(API_PORT, 19090);
    assert_eq!(API_SECRET, "flowroute-local");
    assert_eq!(AUTO_DETECT_UPSTREAM_PORTS, [7897, 7890]);
}

#[test]
fn defaults_point_at_a_local_socks5_proxy() {
    assert_eq!(ProxyType::default(), ProxyType::Socks5);
    let up = UpstreamProxy::default();
    assert_eq!(up.proxy_type, ProxyType::Socks5);
    assert_eq!(up.host, "127.0.0.1");
    assert_eq!(up.port, 7897);
    assert_eq!(AppSettings::default().upstream, up);
}

#[test]
fn inline_rules_one_line_per_rule() {
    let rules = vec![
        rule("*.example.com", "proxy"),
        rule("foo.org", "direct"),
        rule("bar.net", "other"),
    ];
    assert_eq!(
        build_inline_rules(&rules),
        "  - DOMAIN-SUFFIX,example.com,PROXY\n  - DOMAIN-SUFFIX,foo.org,DIRECT\n  - DOMAIN-SUFFIX,bar.net,DIRECT"
    );
}

#[test]
fn inline_rules_empty_without_rules() {
    assert_eq!(build_inline_rules(&[]), "");
}

#[test]
fn inline_rules_strip_every_leading_wildcard() {
    let rules = vec![rule("*.*.deep.example", "proxy")];
    assert_eq!(build_inline_rules(&rules), "  - DOMAIN-SUFFIX,deep.example,PROXY");
}

#[test]
fn parent_suffix_is_the_last_two_labels() {
    assert_eq!(text(parent_suffix(&chars("a.b.example.com"))), Some("example.com".to_string()));
    assert_eq!(text(parent_suffix(&chars("*.*.a.example.com"))), Some("example.com".to_string()));
    assert_eq!(text(parent_suffix(&chars("example.com"))), None);
    assert_eq!(text(parent_suffix(&chars("localhost"))), None);
    assert_eq!(text(parent_suffix(&chars("a.."))), Some(".".to_string()));
}

#[test]
fn dns_policy_sorted_and_deduplicated() {
    let rules = vec![
        rule("*.a.example.com", "direct"),
        rule("example.com", "direct"),
        rule("x.io", "proxy"),
    ];
    assert_eq!(
        build_dns_policy(&rules),
        "    '+.a.example.com': [system]\n    '+.example.com': [system]\n"
    );
}

#[test]
fn dns_policy_empty_without_direct_rules() {
    assert_eq!(build_dns_policy(&[rule("x.io", "proxy")]), "");
    assert_eq!(build_dns_policy(&[]), "");
}

#[test]
fn sniffer_skips_local_names_without_rules() {
    assert_eq!(
        build_sniffer_skip_domains(&[]),
        "  skip-domain:\n    - '*.local'\n    - '+.local'\n    - 'localhost'\n"
    );
}

#[test]
fn sniffer_skips_direct_domains_and_parents() {
    let rules = vec![rule("b.example.org", "direct"), rule("p.net", "proxy")];
    assert_eq!(
        build_sniffer_skip_domains(&rules),
        "  skip-domain:\n    - '*.local'\n    - '+.b.example.org'\n    - '+.example.org'\n    - '+.local'\n    - 'localhost'\n"
    );
}

#[test]
fn dns_hosts_only_for_resolved_direct_rules() {
    let rules = vec![
        rule("*.corp.example", "direct"),
        rule("p.com", "proxy"),
        rule("n.com", "direct"),
    ];
    let resolved = vec![Some("10.0.0.1".to_string()), Some("1.1.1.1".to_string()), None];
    assert_eq!(
        build_dns_hosts(&rules, &resolved),
        vec!["    'localhost': 127.0.0.1".to_string(), "    'corp.example': 10.0.0.1".to_string()]
    );
}

#[test]
fn dns_hosts_localhost_alone() {
    assert_eq!(build_dns_hosts(&[], &[]), vec!["    'localhost': 127.0.0.1".to_string()]);
    let rules = vec![rule("n.com", "direct")];
    assert_eq!(build_dns_hosts(&rules, &[]), vec!["    'localhost': 127.0.0.1".to_string()]);
}

#[test]
fn format_dns_hosts_block() {
    assert_eq!(format_dns_hosts(&[]), "");
    let lines = vec!["    'localhost': 127.0.0.1".to_string(), "    'a.b': 1.2.3.4".to_string()];
    assert_eq!(
        format_dns_hosts(&lines),
        "  hosts:\n    'localhost': 127.0.0.1\n    'a.b': 1.2.3.4\n"
    );
}

#[test]
fn local_direct_names() {
    assert_eq!(local_direct_domains(), vec!["localhost", "+.local", "*.local"]);
    assert_eq!(
        build_local_direct_dns_policy(),
        "    'localhost': [system]\n    '+.local': [system]\n    '*.local': [system]\n"
    );
}

#[test]
fn local_direct_rules_cover_private_ranges() {
    let expected = r#"  - DOMAIN,localhost,DIRECT
  - DOMAIN-SUFFIX,local,DIRECT
  - IP-CIDR,127.0.0.0/8,DIRECT,no-resolve
  - IP-CIDR,10.0.0.0/8,DIRECT,no-resolve
  - IP-CIDR,172.16.0.0/12,DIRECT,no-resolve
  - IP-CIDR,192.168.0.0/16,DIRECT,no-resolve
  - IP-CIDR,169.254.0.0/16,DIRECT,no-resolve
  - IP-CIDR,100.64.0.0/10,DIRECT,no-resolve
  - IP-CIDR6,::1/128,DIRECT,no-resolve
  - IP-CIDR6,fc00::/7,DIRECT,no-resolve
  - IP-CIDR6,fe80::/10,DIRECT,no-resolve
"#;
    assert_eq!(build_local_direct_rules(), expected);
}

#[test]
fn detect_port_takes_first_answering_candidate() {
    assert_eq!(detect_upstream_port(&[]), None);
    assert_eq!(detect_upstream_port(&[true]), Some(7897));
    assert_eq!(detect_upstream_port(&[false, true]), Some(7890));
    assert_eq!(detect_upstream_port(&[false, false]), None);
    assert_eq!(detect_upstream_port(&[false]), None);
}

#[test]
fn detected_port_replaces_the_configured_one() {
    let settings = AppSettings::default();
    let (s, save) = apply_detected_port(settings.clone(), Some(7890));
    assert!(save);
    assert_eq!(s.upstream.port, 7890);
    assert_eq!(s.upstream.host, "127.0.0.1");
    let (s, save) = apply_detected_port(settings.clone(), None);
    assert!(!save);
    assert_eq!(s, settings);
}

#[test]
fn probe_address_trims_host_and_appends_port() {
    assert_eq!(host_port_address(" 127.0.0.1 ", 7897), "127.0.0.1:7897");
    assert_eq!(host_port_address("proxy.lan", 0), "proxy.lan:0");
    assert_eq!(host_port_address("h", 65535), "h:65535");
}

#[test]
fn reachable_upstream_keeps_stored_settings() {
    let settings = AppSettings::default();
    let (s, save) = settings_after_probe(settings.clone(), true, Some(7890));
    assert!(!save);
    assert_eq!(s, settings);
    let (s, save) = settings_after_probe(settings.clone(), false, Some(7890));
    assert!(save);
    assert_eq!(s.upstream.port, 7890);
    let (s, save) = settings_after_probe(settings.clone(), false, None);
    assert!(!save);
    assert_eq!(s, settings);
}

#[test]
fn sniffer_skips_every_policy_domain() {
    let rules = vec![rule("*.a.example.com", "direct"), rule("x.io", "direct"), rule("p.net", "proxy")];
    let policy = build_dns_policy(&rules);
    let sniffer = build_sniffer_skip_domains(&rules);
    let skipped: Vec<&str> = sniffer.lines().collect();
    for line in policy.lines() {
        let q = line.strip_suffix(": [system]").unwrap().trim_start();
        assert!(skipped.contains(&format!("    - {q}").as_str()), "{q}");
    }
}
