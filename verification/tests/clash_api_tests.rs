use flowroute::clash_api::{
    add_rule_result, needs_resolution_check, validate_domain, validate_rule_input, is_valid_action, remove_domain_rules, upsert_rule, collect_connections, domain_host_of, extract_domain, normalize_domain,
    remove_user_rule, upsert_user_rule, ConnectionItem, RawConnection,
};
use flowroute::config::UserRule;

fn rule(domain: &str, action: &str) -> UserRule {
    UserRule { domain: domain.to_string(), action: action.to_string() }
}

fn conn(host: &str, rule: &str, payload: &str) -> RawConnection {
    RawConnection {
        host: host.to_string(),
        network: "tcp".to_string(),
        rule: rule.to_string(),
        chains: vec!["DIRECT".to_string()],
        rule_payload: payload.to_string(),
    }
}

#[test]
fn normalize_url_to_lowercase_host() {
    assert_eq!(
        normalize_domain("  https://Www.Example.com:8443/path?q=1 "),
        Some("www.example.com".to_string())
    );
    assert_eq!(normalize_domain("http://GitHub.com"), Some("github.com".to_string()));
    assert_eq!(normalize_domain("example.org"), Some("example.org".to_string()));
}

#[test]
fn normalize_lowercases_beyond_ascii() {
    assert_eq!(normalize_domain("ÄBC.de"), Some("äbc.de".to_string()));
}

#[test]
fn normalize_rejects_blank_and_spaced_input() {
    assert_eq!(normalize_domain(""), None);
    assert_eq!(normalize_domain("   \t"), None);
    assert_eq!(normalize_domain("foo bar.com"), None);
    assert_eq!(normalize_domain("https:///path"), None);
    assert_eq!(normalize_domain(":8080"), None);
}

#[test]
fn normalize_strips_repeated_schemes_in_order() {
    assert_eq!(normalize_domain("https://https://x.com"), Some("x.com".to_string()));
    assert_eq!(normalize_domain("https://http://x.com"), Some("x.com".to_string()));
    // `http://` is stripped after `https://`, so a later `https://` stays
    assert_eq!(normalize_domain("http://https://x.com"), Some("https".to_string()));
}

#[test]
fn host_keeps_case_before_lowercasing() {
    assert_eq!(domain_host_of("HTTPS://X"), Some("HTTPS".to_string()));
    assert_eq!(normalize_domain("HTTPS://X"), Some("https".to_string()));
    assert_eq!(domain_host_of(" Mixed.Case.ORG/x "), Some("Mixed.Case.ORG".to_string()));
}

#[test]
fn extract_domain_drops_port() {
    assert_eq!(extract_domain("example.com:443"), "example.com");
    assert_eq!(extract_domain("example.com"), "example.com");
    assert_eq!(extract_domain("[::1]:80"), "[");
}

#[test]
fn upsert_puts_rule_first_and_replaces_same_domain() {
    let rules = vec![rule("a.com", "proxy"), rule("b.com", "direct"), rule("c.com", "direct")];
    let out = upsert_user_rule(rules, "https://B.com/x", "proxy", true).unwrap().rules;
    assert_eq!(out, vec![rule("b.com", "proxy"), rule("a.com", "proxy"), rule("c.com", "direct")]);
}

#[test]
fn upsert_into_empty_list() {
    let out = upsert_user_rule(Vec::new(), "new.io", "direct", true).unwrap().rules;
    assert_eq!(out, vec![rule("new.io", "direct")]);
}

#[test]
fn upsert_refuses_invalid_domain_before_action() {
    let err = upsert_user_rule(vec![rule("a.com", "proxy")], "  ", "bogus", true).unwrap_err();
    assert_eq!(err, "域名无效");
}

#[test]
fn upsert_refuses_unknown_action() {
    let err = upsert_user_rule(vec![], "a.com", "block", true).unwrap_err();
    assert_eq!(err, "action 只能是 proxy 或 direct");
}

#[test]
fn remove_drops_every_rule_for_domain() {
    let rules = vec![rule("a.com", "proxy"), rule("b.com", "direct"), rule("a.com", "direct")];
    let out = remove_user_rule(rules, "A.COM").unwrap();
    assert_eq!(out, vec![rule("b.com", "direct")]);
}

#[test]
fn remove_refuses_invalid_domain() {
    assert_eq!(remove_user_rule(vec![], "").unwrap_err(), "域名无效");
}

#[test]
fn remove_after_upsert_is_remove() {
    let rules = vec![rule("a.com", "proxy"), rule("b.com", "direct")];
    let after = upsert_user_rule(rules.clone(), "b.com", "proxy", true).unwrap().rules;
    assert_eq!(remove_user_rule(after, "b.com").unwrap(), remove_user_rule(rules, "b.com").unwrap());
}

#[test]
fn upsert_twice_last_action_wins() {
    let rules = vec![rule("a.com", "proxy"), rule("b.com", "direct")];
    let once = upsert_user_rule(rules.clone(), "a.com", "direct", true).unwrap().rules;
    let twice = upsert_user_rule(
        upsert_user_rule(rules.clone(), "a.com", "proxy", true).unwrap().rules,
        "a.com",
        "direct",
        true,
    )
    .unwrap()
    .rules;
    assert_eq!(once, twice);
    let again = upsert_user_rule(once.clone(), "a.com", "direct", true).unwrap().rules;
    assert_eq!(again, once);
}

#[test]
fn connections_first_per_host_with_rule_payload() {
    let conns = vec![
        conn("a.com:443", "DomainSuffix", "a.com"),
        conn("", "Match", ""),
        conn("a.com:443", "Match", ""),
        conn("b.org", "Match", ""),
    ];
    let items = collect_connections(&conns);
    assert_eq!(
        items,
        vec![
            ConnectionItem {
                domain: "a.com".to_string(),
                host: "a.com:443".to_string(),
                network: "tcp".to_string(),
                rule: "DomainSuffix / a.com".to_string(),
                chains: vec!["DIRECT".to_string()],
            },
            ConnectionItem {
                domain: "b.org".to_string(),
                host: "b.org".to_string(),
                network: "tcp".to_string(),
                rule: "Match".to_string(),
                chains: vec!["DIRECT".to_string()],
            },
        ]
    );
}

#[test]
fn connections_capped_at_thirty() {
    let conns: Vec<RawConnection> =
        (0..45).map(|i| conn(&format!("h{i}.net"), "Match", "")).collect();
    let items = collect_connections(&conns);
    assert_eq!(items.len(), 30);
    assert_eq!(items[0].host, "h0.net");
    assert_eq!(items[29].host, "h29.net");
}

#[test]
fn connections_none_for_empty_input() {
    assert!(collect_connections(&[]).is_empty());
}

#[test]
fn warning_only_when_direct_domain_unresolvable() {
    let rules = vec![rule("intra.corp", "direct")];
    let r = add_rule_result(rules.clone(), "intra.corp", "direct", false);
    assert_eq!(r.rules, rules);
    assert_eq!(
        r.warning,
        Some("规则已生效，但 intra.corp 当前无法解析。这通常是公司内网域名，需要先连接公司 VPN 或检查 hosts。".to_string())
    );
    assert!(r.warning.unwrap().contains("intra.corp"));
    assert_eq!(add_rule_result(rules.clone(), "intra.corp", "direct", true).warning, None);
    assert_eq!(add_rule_result(rules, "intra.corp", "proxy", false).warning, None);
}

#[test]
fn only_direct_rules_are_looked_up() {
    assert!(needs_resolution_check("direct"));
    assert!(!needs_resolution_check("proxy"));
}

#[test]
fn validation_errors_in_order() {
    assert_eq!(validate_rule_input("https://A.com/x", "proxy"), Ok("a.com".to_string()));
    assert_eq!(validate_rule_input(" ", "bogus"), Err("域名无效".to_string()));
    assert_eq!(
        validate_rule_input("a.com", "bogus"),
        Err("action 只能是 proxy 或 direct".to_string())
    );
    assert_eq!(validate_domain("http://B.org:80"), Ok("b.org".to_string()));
    assert_eq!(validate_domain(""), Err("域名无效".to_string()));
}

#[test]
fn upsert_rule_takes_domain_as_given() {
    let rules = vec![rule("A.com", "proxy"), rule("b.com", "direct"), rule("A.com", "direct")];
    let out = upsert_rule(rules, "A.com", "whatever");
    assert_eq!(out, vec![rule("A.com", "whatever"), rule("b.com", "direct")]);
}

#[test]
fn remove_domain_rules_exact_match() {
    let rules = vec![rule("a.com", "proxy"), rule("A.com", "direct"), rule("a.com.cn", "direct")];
    assert_eq!(
        remove_domain_rules(rules, "a.com"),
        vec![rule("A.com", "direct"), rule("a.com.cn", "direct")]
    );
}

#[test]
fn valid_actions() {
    assert!(is_valid_action("proxy"));
    assert!(is_valid_action("direct"));
    assert!(!is_valid_action("Proxy"));
    assert!(!is_valid_action(""));
}

#[test]
fn upsert_warns_for_unresolvable_direct_domain() {
    let r = upsert_user_rule(vec![rule("a.com", "proxy")], "http://Intra.Corp/x", "direct", false).unwrap();
    assert_eq!(r.rules, vec![rule("intra.corp", "direct"), rule("a.com", "proxy")]);
    let w = r.warning.unwrap();
    assert!(w.contains("intra.corp"));
    assert_eq!(upsert_user_rule(vec![], "intra.corp", "direct", true).unwrap().warning, None);
    assert_eq!(upsert_user_rule(vec![], "intra.corp", "proxy", false).unwrap().warning, None);
}
