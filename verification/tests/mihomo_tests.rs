use flowroute::config::{AppSettings, ProxyType, UpstreamProxy, UserRule};
use flowroute::mihomo::{bundled_core_names, core_args, mihomo_binary, mihomo_config_yaml, stale_mihomo_pids};

fn rule(domain: &str, action: &str) -> UserRule {
    UserRule { domain: domain.to_string(), action: action.to_string() }
}

#[test]
fn core_program_prefers_development_build() {
    assert_eq!(mihomo_binary(Some("/dev/m".to_string()), Some("/app/m".to_string())), Ok("/dev/m".to_string()));
    assert_eq!(mihomo_binary(None, Some("/app/m".to_string())), Ok("/app/m".to_string()));
    assert_eq!(
        mihomo_binary(None, None),
        Err("找不到 mihomo 核心，请在项目目录运行: npm run setup".to_string())
    );
}

#[test]
fn core_arguments() {
    assert_eq!(core_args("/d/config.yaml", "/d"), vec!["-f", "/d/config.yaml", "-d", "/d"]);
}

#[test]
fn stale_processes_are_those_with_our_config() {
    let out = "123 /bin/mihomo -f /data/config.yaml -d /data\n456 /bin/mihomo -f /other.yaml\n  789 mihomo -f /data/config.yaml\n";
    assert_eq!(stale_mihomo_pids(out, "/data/config.yaml"), vec!["123", "789"]);
    assert!(stale_mihomo_pids("", "/data/config.yaml").is_empty());
    assert!(stale_mihomo_pids("   \n", "").is_empty());
}

fn expected_yaml(
    proxy_type: &str,
    server: &str,
    port: u16,
    sniffer_skip: &str,
    dns_policy: &str,
    dns_hosts: &str,
    user_rules: &str,
    gfw_cache: &str,
) -> String {
    format!(
        r#"mixed-port: {mixed_port}
allow-lan: false
mode: rule
log-level: warning
external-controller: 127.0.0.1:{api_port}
secret: {secret}
ipv6: false

sniffer:
  enable: true
  force-dns-mapping: true
  parse-pure-ip: true
  override-destination: true
{sniffer_skip}  sniff:
    TLS:
      ports: [443, 8443]
    HTTP:
      ports: [80, 8080-8880]

dns:
  enable: true
  listen: 0.0.0.0:0
  enhanced-mode: redir-host
  default-nameserver:
    - 223.5.5.5
    - 119.29.29.29
  nameserver:
    - https://doh.pub/dns-query
    - https://dns.alidns.com/dns-query
  direct-nameserver:
    - system
  direct-nameserver-follow-policy: true
  proxy-server-nameserver:
    - https://dns.google/dns-query
    - https://cloudflare-dns.com/dns-query
    - 8.8.8.8
  nameserver-policy:
    '+.google.com': [https://dns.google/dns-query, 8.8.8.8]
    '+.google.com.hk': [https://dns.google/dns-query, 8.8.8.8]
    '+.google.cn': [https://dns.google/dns-query, 8.8.8.8]
{dns_policy}{dns_hosts}proxies:
  - name: UPSTREAM
    type: {proxy_type}
    server: {server}
    port: {port}

proxy-groups:
  - name: PROXY
    type: select
    proxies:
      - UPSTREAM

rule-providers:
  gfwlist:
    type: http
    behavior: domain
    format: yaml
    url: https://cdn.jsdelivr.net/gh/Loyalsoldier/clash-rules@release/gfw.txt
    path: {gfw_cache}
    interval: 86400

rules:
{user_rules}{google_rules}
  - RULE-SET,gfwlist,PROXY
  - GEOIP,CN,DIRECT,no-resolve
  - MATCH,DIRECT
"#,
        mixed_port = 17890,
        api_port = 19090,
        secret = "flowroute-local",
        google_rules = r#"  - DOMAIN-SUFFIX,google.com,PROXY
  - DOMAIN-SUFFIX,google.com.hk,PROXY
  - DOMAIN-SUFFIX,google.cn,PROXY
  - DOMAIN-SUFFIX,googleapis.com,PROXY
  - DOMAIN-SUFFIX,gstatic.com,PROXY
  - DOMAIN-SUFFIX,ggpht.com,PROXY
  - DOMAIN-SUFFIX,googleusercontent.com,PROXY
"#,
    )
}

#[test]
fn config_without_rules() {
    let settings = AppSettings::default();
    let yaml = mihomo_config_yaml(&settings, &[], &[], "/data/rules/gfw-remote.txt");
    let expected = expected_yaml(
        "socks5",
        "127.0.0.1",
        7897,
        "  skip-domain:\n    - '*.local'\n    - '+.local'\n    - 'localhost'\n",
        "",
        "  hosts:\n    'localhost': 127.0.0.1\n",
        "",
        "/data/rules/gfw-remote.txt",
    );
    assert_eq!(yaml, expected);
}

#[test]
fn config_with_rules_and_http_upstream() {
    let settings = AppSettings {
        upstream: UpstreamProxy { proxy_type: ProxyType::Http, host: "10.0.0.2".to_string(), port: 8080 },
    };
    let rules = vec![rule("intra.corp.example", "direct"), rule("*.video.site", "proxy")];
    let resolved = vec![Some("10.9.8.7".to_string()), None];
    let yaml = mihomo_config_yaml(&settings, &rules, &resolved, "/c/gfw.txt");
    let expected = expected_yaml(
        "http",
        "10.0.0.2",
        8080,
        "  skip-domain:\n    - '*.local'\n    - '+.corp.example'\n    - '+.intra.corp.example'\n    - '+.local'\n    - 'localhost'\n",
        "    '+.corp.example': [system]\n    '+.intra.corp.example': [system]\n",
        "  hosts:\n    'localhost': 127.0.0.1\n    'intra.corp.example': 10.9.8.7\n",
        "  - DOMAIN-SUFFIX,intra.corp.example,DIRECT\n  - DOMAIN-SUFFIX,video.site,PROXY\n",
        "/c/gfw.txt",
    );
    assert_eq!(yaml, expected);
}

#[test]
fn bundled_program_names_in_order() {
    assert_eq!(bundled_core_names(), vec!["mihomo", "mihomo-x86_64-apple-darwin", "mihomo-aarch64-apple-darwin"]);
}
