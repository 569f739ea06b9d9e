//! The proxy core: where its program is, the configuration it is started
//! with, and which of its processes are left over from an earlier run.
use vstd::prelude::*;

use crate::config::{
    API_PORT, API_SECRET, AppSettings, MIXED_PORT, ProxyType, RuleView, UserRule, build_dns_hosts,
    build_dns_policy, build_inline_rules, build_sniffer_skip_domains, dns_host_lines,
    dns_hosts_text, dns_policy_text, format_dns_hosts, inline_rules_text, resolved_views,
    rule_views, sniffer_skip_text,
};
use crate::text::{
    chars_of, contains_chars, contains_seq, decimal, decimal_chars, first_token,
    first_token_chars, lines, push_chars, push_str, split_lines, string_of, string_views, views,
};

verus! {

/// Message returned when the core's program cannot be found.
pub open spec fn missing_core_message() -> Seq<char> {
    "找不到 mihomo 核心，请在项目目录运行: npm run setup"@
}

/// The core's program: the development build when it exists (`dev`), else
/// the one shipped with the application (`bundled`) when it was found.
pub fn mihomo_binary(dev: Option<String>, bundled: Option<String>) -> (r: Result<String, String>)
    ensures
        dev matches Some(d) ==> r == Ok::<String, String>(d),
        dev is None ==> (bundled matches Some(b) ==> r == Ok::<String, String>(b)),
        dev is None ==> (bundled is None ==> (r matches Err(e) && e@ == missing_core_message())),
{
    match dev {
        Some(d) => Ok(d),
        None => match bundled {
            Some(b) => Ok(b),
            None => Err("找不到 mihomo 核心，请在项目目录运行: npm run setup".to_owned()),
        },
    }
}

/// The names under which the core's program is looked for beside the
/// application's executable, in order.
pub fn bundled_core_names() -> (r: Vec<&'static str>)
    ensures
        r@.map_values(|s: &str| s@) == seq![
            "mihomo"@,
            "mihomo-x86_64-apple-darwin"@,
            "mihomo-aarch64-apple-darwin"@,
        ],
{
    let r = vec!["mihomo", "mihomo-x86_64-apple-darwin", "mihomo-aarch64-apple-darwin"];
    assert(r@.map_values(|s: &str| s@) =~= seq![
        "mihomo"@,
        "mihomo-x86_64-apple-darwin"@,
        "mihomo-aarch64-apple-darwin"@,
    ]);
    r
}

/// The arguments that start the core with the configuration file
/// `config_path` and the working directory `work_dir`.
pub fn core_args(config_path: &str, work_dir: &str) -> (r: Vec<String>)
    ensures
        string_views(r@) == seq!["-f"@, config_path@, "-d"@, work_dir@],
{
    let mut args: Vec<String> = Vec::new();
    args.push("-f".to_owned());
    args.push(config_path.to_owned());
    args.push("-d".to_owned());
    args.push(work_dir.to_owned());
    assert(string_views(args@) =~= seq!["-f"@, config_path@, "-d"@, work_dir@]);
    args
}

// ---------------------------------------------------------------------
// Leftover processes
// ---------------------------------------------------------------------

/// The process ids on the lines of `ls` (as `pgrep -lf` prints them) that
/// mention the configuration path `config`: each such line's first token.
pub open spec fn stale_pids(ls: Seq<Seq<char>>, config: Seq<char>) -> Seq<Seq<char>>
    decreases ls.len(),
{
    if ls.len() == 0 {
        Seq::empty()
    } else {
        stale_pids(ls.drop_last(), config) + if contains_seq(ls.last(), config) {
            match first_token(ls.last()) {
                Some(p) => seq![p],
                None => Seq::empty(),
            }
        } else {
            Seq::empty()
        }
    }
}

/// The ids of the core's processes that run with the configuration file
/// `config_path`, from the answer of `pgrep -lf mihomo`.
pub fn stale_mihomo_pids(pgrep_output: &str, config_path: &str) -> (r: Vec<String>)
    ensures
        string_views(r@) == stale_pids(lines(pgrep_output@), config_path@),
{
    let chars = chars_of(pgrep_output);
    let config = chars_of(config_path);
    let ls = split_lines(&chars);
    let ghost all = views(ls@);
    let mut pids: Vec<String> = Vec::new();
    let mut i: usize = 0;
    assert(all.take(0) =~= Seq::<Seq<char>>::empty());
    while i < ls.len()
        invariant
            i <= ls@.len(),
            all == views(ls@),
            config@ == config_path@,
            string_views(pids@) == stale_pids(all.take(i as int), config@),
        decreases ls@.len() - i,
    {
        let ghost before = string_views(pids@);
        assert(all.take(i + 1).drop_last() =~= all.take(i as int));
        assert(all.take(i + 1).last() == ls@[i as int]@);
        if contains_chars(&ls[i], &config) {
            match first_token_chars(&ls[i]) {
                Some(p) => {
                    pids.push(string_of(&p));
                    assert(string_views(pids@) =~= before.push(p@));
                },
                None => {
                    assert(stale_pids(all.take(i + 1), config@) =~= before);
                },
            }
        } else {
            assert(stale_pids(all.take(i + 1), config@) =~= before);
        }
        i += 1;
    }
    assert(all.take(ls@.len() as int) =~= all);
    pids
}

// ---------------------------------------------------------------------
// The configuration file
// ---------------------------------------------------------------------

/// Start of the configuration, up to the mixed port.
pub const CONFIG_HEAD: &'static str = "mixed-port: ";

/// General settings, up to the control API's port.
pub const CONFIG_CONTROLLER: &'static str = "\nallow-lan: false\nmode: rule\nlog-level: warning\nexternal-controller: 127.0.0.1:";

/// Up to the control API's secret.
pub const CONFIG_SECRET: &'static str = "\nsecret: ";

/// IPv6 off and the sniffer settings, up to its exceptions.
pub const CONFIG_SNIFFER: &'static str = "\nipv6: false\n\nsniffer:\n  enable: true\n  force-dns-mapping: true\n  parse-pure-ip: true\n  override-destination: true\n";

/// What the sniffer sniffs and the name server settings, up to the policy for direct rules.
pub const CONFIG_DNS: &'static str = "  sniff:\n    TLS:\n      ports: [443, 8443]\n    HTTP:\n      ports: [80, 8080-8880]\n\ndns:\n  enable: true\n  listen: 0.0.0.0:0\n  enhanced-mode: redir-host\n  default-nameserver:\n    - 223.5.5.5\n    - 119.29.29.29\n  nameserver:\n    - https://doh.pub/dns-query\n    - https://dns.alidns.com/dns-query\n  direct-nameserver:\n    - system\n  direct-nameserver-follow-policy: true\n  proxy-server-nameserver:\n    - https://dns.google/dns-query\n    - https://cloudflare-dns.com/dns-query\n    - 8.8.8.8\n  nameserver-policy:\n    '+.google.com': [https://dns.google/dns-query, 8.8.8.8]\n    '+.google.com.hk': [https://dns.google/dns-query, 8.8.8.8]\n    '+.google.cn': [https://dns.google/dns-query, 8.8.8.8]\n";

/// The upstream proxy, up to its type.
pub const CONFIG_PROXIES: &'static str = "proxies:\n  - name: UPSTREAM\n    type: ";

/// Up to the upstream server.
pub const CONFIG_SERVER: &'static str = "\n    server: ";

/// Up to the upstream port.
pub const CONFIG_PORT: &'static str = "\n    port: ";

/// The proxy group and the rule provider, up to the provider's cache path.
pub const CONFIG_PROVIDERS: &'static str = "\n\nproxy-groups:\n  - name: PROXY\n    type: select\n    proxies:\n      - UPSTREAM\n\nrule-providers:\n  gfwlist:\n    type: http\n    behavior: domain\n    format: yaml\n    url: https://cdn.jsdelivr.net/gh/Loyalsoldier/clash-rules@release/gfw.txt\n    path: ";

/// The provider's interval and the start of the rules.
pub const CONFIG_RULES: &'static str = "\n    interval: 86400\n\nrules:\n";

/// The rules that follow the user's and the built-in ones.
pub const CONFIG_TAIL: &'static str = "\n  - RULE-SET,gfwlist,PROXY\n  - GEOIP,CN,DIRECT,no-resolve\n  - MATCH,DIRECT\n";

/// Built-in rules that send Google services through the proxy.
pub const GOOGLE_RULES: &'static str = "  - DOMAIN-SUFFIX,google.com,PROXY\n  - DOMAIN-SUFFIX,google.com.hk,PROXY\n  - DOMAIN-SUFFIX,google.cn,PROXY\n  - DOMAIN-SUFFIX,googleapis.com,PROXY\n  - DOMAIN-SUFFIX,gstatic.com,PROXY\n  - DOMAIN-SUFFIX,ggpht.com,PROXY\n  - DOMAIN-SUFFIX,googleusercontent.com,PROXY\n";

/// The name of an upstream proxy type in the configuration.
pub open spec fn proxy_type_text(t: ProxyType) -> Seq<char> {
    match t {
        ProxyType::Http => "http"@,
        ProxyType::Socks5 => "socks5"@,
    }
}

/// The user's routing lines followed by a newline, or nothing without rules.
pub open spec fn user_rules_block(rules: Seq<RuleView>) -> Seq<char> {
    let r = inline_rules_text(rules);
    if r.len() == 0 {
        Seq::empty()
    } else {
        r + "\n"@
    }
}

/// The core's configuration: the fixed settings with the mixed port, the
/// control API's port and secret; the sniffer's exceptions, the name server
/// policy and host entries derived from the rules (`ips[i]` being what rule
/// `i`'s domain resolved to); the upstream proxy of the settings; the rule
/// provider cached at `gfw_cache`; then the user's rules, the built-in
/// ones, and the final rules.
pub open spec fn mihomo_config_text(
    proxy_type: ProxyType,
    host: Seq<char>,
    port: u16,
    rules: Seq<RuleView>,
    ips: Seq<Option<Seq<char>>>,
    gfw_cache: Seq<char>,
) -> Seq<char> {
    CONFIG_HEAD@ + decimal(MIXED_PORT as nat) + CONFIG_CONTROLLER@ + decimal(API_PORT as nat)
        + CONFIG_SECRET@ + API_SECRET@ + CONFIG_SNIFFER@ + sniffer_skip_text(rules) + CONFIG_DNS@
        + dns_policy_text(rules) + dns_hosts_text(dns_host_lines(rules, ips)) + CONFIG_PROXIES@
        + proxy_type_text(proxy_type) + CONFIG_SERVER@ + host + CONFIG_PORT@ + decimal(port as nat)
        + CONFIG_PROVIDERS@ + gfw_cache + CONFIG_RULES@ + user_rules_block(rules) + GOOGLE_RULES@
        + CONFIG_TAIL@
}

/// The core's configuration for `settings` and `rules`; `resolved[i]` is
/// the address that rule `i`'s bare domain resolved to, and `gfw_cache` the
/// path of the rule provider's cache file.
pub fn mihomo_config_yaml(
    settings: &AppSettings,
    rules: &[UserRule],
    resolved: &[Option<String>],
    gfw_cache: &str,
) -> (r: String)
    ensures
        r@ == mihomo_config_text(
            settings.upstream.proxy_type,
            settings.upstream.host@,
            settings.upstream.port,
            rule_views(rules@),
            resolved_views(resolved@),
            gfw_cache@,
        ),
{
    let user_rules = build_inline_rules(rules);
    let dns_policy = build_dns_policy(rules);
    let host_lines = build_dns_hosts(rules, resolved);
    let dns_hosts = format_dns_hosts(&host_lines);
    let sniffer_skip = build_sniffer_skip_domains(rules);
    let mixed = decimal_chars(MIXED_PORT as u64);
    let api = decimal_chars(API_PORT as u64);
    let port = decimal_chars(settings.upstream.port as u64);
    let mut out: Vec<char> = Vec::new();
    push_str(&mut out, CONFIG_HEAD);
    push_chars(&mut out, &mixed);
    push_str(&mut out, CONFIG_CONTROLLER);
    push_chars(&mut out, &api);
    push_str(&mut out, CONFIG_SECRET);
    push_str(&mut out, API_SECRET);
    push_str(&mut out, CONFIG_SNIFFER);
    push_str(&mut out, sniffer_skip.as_str());
    push_str(&mut out, CONFIG_DNS);
    push_str(&mut out, dns_policy.as_str());
    push_str(&mut out, dns_hosts.as_str());
    push_str(&mut out, CONFIG_PROXIES);
    match settings.upstream.proxy_type {
        ProxyType::Http => push_str(&mut out, "http"),
        ProxyType::Socks5 => push_str(&mut out, "socks5"),
    }
    push_str(&mut out, CONFIG_SERVER);
    push_str(&mut out, settings.upstream.host.as_str());
    push_str(&mut out, CONFIG_PORT);
    push_chars(&mut out, &port);
    push_str(&mut out, CONFIG_PROVIDERS);
    push_str(&mut out, gfw_cache);
    push_str(&mut out, CONFIG_RULES);
    let ur = chars_of(user_rules.as_str());
    if ur.len() > 0 {
        push_chars(&mut out, &ur);
        push_str(&mut out, "\n");
    }
    push_str(&mut out, GOOGLE_RULES);
    push_str(&mut out, CONFIG_TAIL);
    string_of(&out)
}

} // verus!
