//! Settings and user rules, and the pieces of the proxy core's
//! configuration that are derived from the user rules.
use vstd::prelude::*;

use crate::sorted::{
    SortedStrings, law_sorted_elements, lemma_sorted_elements, sorted_elements, strictly_sorted,
};
use crate::text::{
    chars_of, concat_wrapped, copy_range, decimal, decimal_chars, join, last_index_of,
    lemma_concat_wrapped_take, lemma_join_take, lemma_last_index_of, push_chars, push_str,
    rfind_char, str_eq, string_of, string_views, strip_all_prefix, strip_all_prefix_chars, trim,
    trim_chars,
};

verus! {

/// Port of the proxy core's mixed (HTTP and SOCKS) listener.
pub const MIXED_PORT: u16 = 17890;

/// Port of the proxy core's control API.
pub const API_PORT: u16 = 19090;

/// Secret that the control API expects.
pub const API_SECRET: &'static str = "flowroute-local";

/// Ports on which an upstream proxy is looked for, in order.
pub const AUTO_DETECT_UPSTREAM_PORTS: [u16; 2] = [7897, 7890];

/// Kind of the upstream proxy.
#[derive(Debug, Clone, Copy, PartialEq, Eq)]
pub enum ProxyType {
    Http,
    Socks5,
}

impl Default for ProxyType {
    fn default() -> (r: Self)
        ensures
            r == ProxyType::Socks5,
    {
        ProxyType::Socks5
    }
}

/// The upstream proxy that the core forwards proxied traffic to.
#[derive(Debug, Clone, PartialEq, Eq)]
pub struct UpstreamProxy {
    pub proxy_type: ProxyType,
    pub host: String,
    pub port: u16,
}

impl Default for UpstreamProxy {
    fn default() -> (r: Self)
        ensures
            r.proxy_type == ProxyType::Socks5,
            r.host@ == "127.0.0.1"@,
            r.port == 7897,
    {
        UpstreamProxy { proxy_type: ProxyType::Socks5, host: "127.0.0.1".to_owned(), port: 7897 }
    }
}

/// Everything the user can configure.
#[derive(Debug, Clone, PartialEq, Eq)]
pub struct AppSettings {
    pub upstream: UpstreamProxy,
}

impl Default for AppSettings {
    fn default() -> (r: Self)
        ensures
            r.upstream.proxy_type == ProxyType::Socks5,
            r.upstream.host@ == "127.0.0.1"@,
            r.upstream.port == 7897,
    {
        AppSettings { upstream: UpstreamProxy::default() }
    }
}

/// A routing rule: traffic to `domain` (and its subdomains) goes out
/// through the proxy when `action` is `"proxy"`, directly otherwise.
#[derive(Debug, Clone, PartialEq, Eq)]
pub struct UserRule {
    pub domain: String,
    pub action: String,
}

/// A rule as plain text.
pub struct RuleView {
    pub domain: Seq<char>,
    pub action: Seq<char>,
}

impl View for UserRule {
    type V = RuleView;

    open spec fn view(&self) -> RuleView {
        RuleView { domain: self.domain@, action: self.action@ }
    }
}

/// The views of a sequence of rules.
pub open spec fn rule_views(rules: Seq<UserRule>) -> Seq<RuleView> {
    rules.map_values(|r: UserRule| r@)
}

/// The settings with the upstream port that detection found, if it found
/// one; the second result says whether they changed and are to be saved.
pub fn apply_detected_port(settings: AppSettings, detected: Option<u16>) -> (r: (
    AppSettings,
    bool,
))
    ensures
        r.0.upstream.proxy_type == settings.upstream.proxy_type,
        r.0.upstream.host == settings.upstream.host,
        r.0.upstream.port == (match detected {
            Some(p) => p,
            None => settings.upstream.port,
        }),
        r.1 == detected is Some,
{
    let mut settings = settings;
    match detected {
        Some(port) => {
            settings.upstream.port = port;
            (settings, true)
        },
        None => (settings, false),
    }
}

/// The stored settings after their upstream was probed: kept as they are
/// when the upstream answered (`reachable`); otherwise with the port that
/// detection found, if any (`detected`, not consulted when the upstream
/// answered). The second result says whether they changed and are to be saved.
pub fn settings_after_probe(settings: AppSettings, reachable: bool, detected: Option<u16>) -> (r: (
    AppSettings,
    bool,
))
    ensures
        r.0.upstream.proxy_type == settings.upstream.proxy_type,
        r.0.upstream.host == settings.upstream.host,
        r.0.upstream.port == (if reachable {
            settings.upstream.port
        } else {
            match detected {
                Some(p) => p,
                None => settings.upstream.port,
            }
        }),
        r.1 == (!reachable && detected is Some),
{
    if reachable {
        (settings, false)
    } else {
        apply_detected_port(settings, detected)
    }
}

/// The first of `AUTO_DETECT_UPSTREAM_PORTS` whose probe answered:
/// `probed[i]` is the outcome of probing the `i`-th port; probing stops at
/// the first success, so `probed` may be shorter than the list.
pub fn detect_upstream_port(probed: &[bool]) -> (r: Option<u16>)
    ensures
        r == detected_port(probed@),
{
    let mut i: usize = 0;
    while i < probed.len() && i < 2
        invariant
            i <= 2,
            i <= probed@.len(),
            forall|j: int| 0 <= j < i ==> !probed@[j],
        decreases 2 - i,
    {
        if probed[i] {
            return Some(AUTO_DETECT_UPSTREAM_PORTS[i]);
        }
        i += 1;
    }
    None
}

/// The candidate port at position `i` of `AUTO_DETECT_UPSTREAM_PORTS`.
pub open spec fn candidate_port(i: int) -> u16 {
    AUTO_DETECT_UPSTREAM_PORTS@[i]
}

/// The first candidate port whose probe succeeded (probes after the second are not read).
pub open spec fn detected_port(probed: Seq<bool>) -> Option<u16> {
    if probed.len() > 0 && probed[0] {
        Some(candidate_port(0))
    } else if probed.len() > 1 && probed[1] {
        Some(candidate_port(1))
    } else {
        None
    }
}

// ---------------------------------------------------------------------
// Domains of rules
// ---------------------------------------------------------------------

/// `domain` without its leading `*.` wildcards.
pub open spec fn bare_domain(domain: Seq<char>) -> Seq<char> {
    strip_all_prefix(domain, "*."@)
}

/// The last two dot-separated labels of the bare domain, when it has more
/// than two (`a.b.example.com` gives `example.com`; `example.com` gives none).
pub open spec fn parent_suffix_of(domain: Seq<char>) -> Option<Seq<char>> {
    let t = bare_domain(domain);
    let last = last_index_of(t, '.');
    if last < 0 {
        None
    } else {
        let prev = last_index_of(t.take(last), '.');
        if prev < 0 {
            None
        } else {
            Some(t.skip(prev + 1))
        }
    }
}

/// The parent suffix is the end of the bare domain after a dot, and holds
/// exactly one dot: it is the last two labels.
pub proof fn law_parent_suffix_is_last_two_labels(domain: Seq<char>)
    ensures
        parent_suffix_of(domain) matches Some(p) ==> {
            let t = bare_domain(domain);
            &&& p.len() < t.len()
            &&& t == t.take(t.len() - p.len() - 1) + "."@ + p
            &&& p.contains('.')
            &&& forall|i: int, j: int| 0 <= i < j < p.len() && p[i] == '.' ==> p[j] != '.'
        },
{
    let t = bare_domain(domain);
    let last = last_index_of(t, '.');
    lemma_last_index_of(t, '.');
    if last >= 0 {
        let u = t.take(last);
        let prev = last_index_of(u, '.');
        lemma_last_index_of(u, '.');
        if prev >= 0 {
            let p = t.skip(prev + 1);
            assert(u[prev] == t[prev]);
            assert(t =~= t.take(t.len() - p.len() - 1) + "."@ + p) by {
                reveal_strlit(".");
            }
            assert(p[last - prev - 1] == '.');
            assert forall|i: int, j: int| 0 <= i < j < p.len() && p[i] == '.' implies p[j] != '.' by {
                assert(p[i] == t[i + prev + 1]);
                assert(p[j] == t[j + prev + 1]);
                if i + prev + 1 < last {
                    assert(u[i + prev + 1] == t[i + prev + 1]);
                }
            }
        }
    }
}

/// A domain has a parent suffix exactly when its bare form holds at least
/// two dots, that is more than two labels.
pub proof fn law_parent_suffix_exists_iff_two_dots(domain: Seq<char>)
    ensures
        (parent_suffix_of(domain) is Some) <==> exists|i: int, j: int|
            0 <= i < j < bare_domain(domain).len() && #[trigger] bare_domain(domain)[i] == '.'
                && #[trigger] bare_domain(domain)[j] == '.',
{
    let t = bare_domain(domain);
    let last = last_index_of(t, '.');
    lemma_last_index_of(t, '.');
    if exists|i: int, j: int| 0 <= i < j < t.len() && #[trigger] t[i] == '.' && #[trigger] t[j] == '.' {
        let (i, j) = choose|i: int, j: int| 0 <= i < j < t.len() && #[trigger] t[i] == '.' && #[trigger] t[j] == '.';
        assert(j <= last);
        let u = t.take(last);
        lemma_last_index_of(u, '.');
        assert(u[i] == '.');
        assert(i <= last_index_of(u, '.'));
    }
    if parent_suffix_of(domain) is Some {
        let u = t.take(last);
        lemma_last_index_of(u, '.');
        let prev = last_index_of(u, '.');
        assert(t[prev] == u[prev]);
        assert(0 <= prev < last < t.len() && t[prev] == '.' && t[last] == '.');
    }
}

/// `domain` without its leading `*.` wildcards.
pub fn bare_domain_chars(domain: &[char]) -> (r: Vec<char>)
    ensures
        r@ == bare_domain(domain@),
{
    let wildcard = chars_of("*.");
    strip_all_prefix_chars(domain, &wildcard)
}

/// `domain` without its leading `*.` wildcards.
pub fn bare_domain_of(domain: &str) -> (r: String)
    ensures
        r@ == bare_domain(domain@),
{
    let d = chars_of(domain);
    let b = bare_domain_chars(&d);
    string_of(&b)
}

/// The last two labels of the bare domain when it has more than two.
pub fn parent_suffix(domain: &[char]) -> (r: Option<Vec<char>>)
    ensures
        r matches Some(v) ==> parent_suffix_of(domain@) == Some(v@),
        r is None ==> parent_suffix_of(domain@) is None,
{
    let t = bare_domain_chars(domain);
    match rfind_char(&t, '.', t.len()) {
        None => {
            assert(t@.take(t@.len() as int) =~= t@);
            None
        },
        Some(last) => {
            assert(t@.take(t@.len() as int) =~= t@);
            match rfind_char(&t, '.', last) {
                None => None,
                Some(prev) => {
                    let r = copy_range(&t, prev + 1, t.len());
                    assert(r@ =~= t@.skip(prev + 1));
                    Some(r)
                },
            }
        },
    }
}

/// Whether a rule sends its domain out directly.
pub open spec fn is_direct(r: RuleView) -> bool {
    r.action == "direct"@
}

/// Whether `rule` sends its domain out directly.
pub fn rule_is_direct(rule: &UserRule) -> (b: bool)
    ensures
        b == is_direct(rule@),
{
    str_eq(rule.action.as_str(), "direct")
}

// ---------------------------------------------------------------------
// Inline routing rules
// ---------------------------------------------------------------------

/// The outbound that a rule's action selects.
pub open spec fn outbound_of(action: Seq<char>) -> Seq<char> {
    if action == "proxy"@ {
        "PROXY"@
    } else {
        "DIRECT"@
    }
}

/// The routing line of one rule.
pub open spec fn inline_rule_line(r: RuleView) -> Seq<char> {
    "  - DOMAIN-SUFFIX,"@ + bare_domain(r.domain) + ","@ + outbound_of(r.action)
}

/// The routing lines of all rules, one per rule in order, joined by newlines.
pub open spec fn inline_rules_text(rules: Seq<RuleView>) -> Seq<char> {
    join(rules.map_values(|r: RuleView| inline_rule_line(r)), "\n"@)
}

fn inline_rule_line_chars(rule: &UserRule) -> (r: Vec<char>)
    ensures
        r@ == inline_rule_line(rule@),
{
    let domain = chars_of(rule.domain.as_str());
    let bare = bare_domain_chars(&domain);
    let mut line: Vec<char> = Vec::new();
    push_str(&mut line, "  - DOMAIN-SUFFIX,");
    push_chars(&mut line, &bare);
    push_str(&mut line, ",");
    if str_eq(rule.action.as_str(), "proxy") {
        push_str(&mut line, "PROXY");
    } else {
        push_str(&mut line, "DIRECT");
    }
    line
}

/// The routing lines for the rules, in rule order: each rule's bare domain
/// and subdomains go to `PROXY` when its action is `proxy`, else to `DIRECT`.
pub fn build_inline_rules(rules: &[UserRule]) -> (r: String)
    ensures
        r@ == inline_rules_text(rule_views(rules@)),
{
    let ghost lines = rule_views(rules@).map_values(|r: RuleView| inline_rule_line(r));
    let mut out: Vec<char> = Vec::new();
    let mut i: usize = 0;
    while i < rules.len()
        invariant
            i <= rules@.len(),
            lines.len() == rules@.len(),
            lines == rule_views(rules@).map_values(|r: RuleView| inline_rule_line(r)),
            out@ == join(lines.take(i as int), "\n"@),
        decreases rules@.len() - i,
    {
        let line = inline_rule_line_chars(&rules[i]);
        proof {
            lemma_join_take(lines, "\n"@, i as int);
            assert(lines[i as int] == line@);
        }
        if i > 0 {
            push_str(&mut out, "\n");
        }
        push_chars(&mut out, &line);
        i += 1;
    }
    assert(lines.take(rules@.len() as int) =~= lines);
    string_of(&out)
}

// ---------------------------------------------------------------------
// Name server policy and sniffer exceptions
// ---------------------------------------------------------------------

/// `pre + d + post`.
pub open spec fn wrapped(d: Seq<char>, pre: Seq<char>, post: Seq<char>) -> Seq<char> {
    pre + d + post
}

/// The patterns that one direct rule contributes: its bare domain and, when
/// it has one, its parent suffix, each wrapped in `pre` and `post`.
pub open spec fn rule_patterns(r: RuleView, pre: Seq<char>, post: Seq<char>) -> Seq<Seq<char>> {
    if is_direct(r) {
        let d = bare_domain(r.domain);
        match parent_suffix_of(d) {
            Some(p) => seq![wrapped(d, pre, post), wrapped(p, pre, post)],
            None => seq![wrapped(d, pre, post)],
        }
    } else {
        Seq::empty()
    }
}

/// The patterns of all rules, in rule order.
pub open spec fn rules_patterns(rules: Seq<RuleView>, pre: Seq<char>, post: Seq<char>) -> Seq<
    Seq<char>,
>
    decreases rules.len(),
{
    if rules.len() == 0 {
        Seq::empty()
    } else {
        rules_patterns(rules.drop_last(), pre, post) + rule_patterns(rules.last(), pre, post)
    }
}

proof fn lemma_push_to_set(s: Seq<Seq<char>>, a: Seq<char>)
    ensures
        s.push(a).to_set() == s.to_set().insert(a),
{
    assert forall|x: Seq<char>| s.push(a).to_set().contains(x) <==> s.to_set().insert(a).contains(
        x,
    ) by {
        if s.push(a).to_set().contains(x) {
            let k = choose|k: int| 0 <= k < s.push(a).len() && s.push(a)[k] == x;
            if k < s.len() {
                assert(s[k] == x);
            }
        }
        if s.to_set().contains(x) {
            let k = choose|k: int| 0 <= k < s.len() && s[k] == x;
            assert(s.push(a)[k] == x);
        }
        if x == a {
            assert(s.push(a)[s.len() as int] == x);
        }
    }
    assert(s.push(a).to_set() =~= s.to_set().insert(a));
}

/// `pre + d + post`.
fn wrapped_chars(d: &[char], pre: &str, post: &str) -> (r: Vec<char>)
    ensures
        r@ == wrapped(d@, pre@, post@),
{
    let mut r: Vec<char> = Vec::new();
    push_str(&mut r, pre);
    push_chars(&mut r, d);
    push_str(&mut r, post);
    assert(r@ =~= pre@ + d@ + post@);
    r
}

/// Adds the patterns of every rule to `set`.
fn insert_rules_patterns(set: &mut SortedStrings, base: Ghost<Seq<Seq<char>>>, rules: &[UserRule], pre: &str, post: &str)
    requires
        strictly_sorted(old(set)@),
        old(set)@.to_set() == base@.to_set(),
    ensures
        strictly_sorted(final(set)@),
        final(set)@.to_set() == (base@ + rules_patterns(rule_views(rules@), pre@, post@)).to_set(),
{
    let ghost rv = rule_views(rules@);
    let mut i: usize = 0;
    assert(base@ + rules_patterns(rv.take(0), pre@, post@) =~= base@);
    while i < rules.len()
        invariant
            i <= rules@.len(),
            rv == rule_views(rules@),
            strictly_sorted(set@),
            set@.to_set() == (base@ + rules_patterns(rv.take(i as int), pre@, post@)).to_set(),
        decreases rules@.len() - i,
    {
        let ghost before = base@ + rules_patterns(rv.take(i as int), pre@, post@);
        let ghost r = rv[i as int];
        assert(rv.take(i + 1).drop_last() =~= rv.take(i as int));
        assert(rules_patterns(rv.take(i + 1), pre@, post@) == rules_patterns(rv.take(i as int), pre@, post@) + rule_patterns(r, pre@, post@));
        if rule_is_direct(&rules[i]) {
            let domain = chars_of(rules[i].domain.as_str());
            let d = bare_domain_chars(&domain);
            let pd = wrapped_chars(&d, pre, post);
            set.insert(pd);
            proof {
                lemma_push_to_set(before, pd@);
            }
            match parent_suffix(&d) {
                Some(p) => {
                    let pp = wrapped_chars(&p, pre, post);
                    set.insert(pp);
                    proof {
                        lemma_push_to_set(before.push(pd@), pp@);
                        assert(before + rule_patterns(r, pre@, post@) =~= before.push(pd@).push(pp@));
                    }
                },
                None => {
                    proof {
                        assert(before + rule_patterns(r, pre@, post@) =~= before.push(pd@));
                    }
                },
            }
        } else {
            assert(before + rule_patterns(r, pre@, post@) =~= before);
        }
        assert(base@ + rules_patterns(rv.take(i + 1), pre@, post@) =~= before + rule_patterns(r, pre@, post@));
        i += 1;
    }
    assert(rv.take(rules@.len() as int) =~= rv);
}

/// `p` is a pattern that the rule `r` contributes.
pub open spec fn pattern_of_rule(r: RuleView, pre: Seq<char>, post: Seq<char>, p: Seq<char>) -> bool {
    &&& is_direct(r)
    &&& {
        ||| p == wrapped(bare_domain(r.domain), pre, post)
        ||| (parent_suffix_of(bare_domain(r.domain)) matches Some(q) && p == wrapped(q, pre, post))
    }
}

proof fn lemma_concat_contains(a: Seq<Seq<char>>, b: Seq<Seq<char>>, p: Seq<char>)
    ensures
        (a + b).contains(p) <==> (a.contains(p) || b.contains(p)),
{
    if (a + b).contains(p) {
        let k = choose|k: int| 0 <= k < (a + b).len() && (a + b)[k] == p;
        if k < a.len() {
            assert(a[k] == p);
        } else {
            assert(b[k - a.len()] == p);
        }
    }
    if a.contains(p) {
        let k = choose|k: int| 0 <= k < a.len() && a[k] == p;
        assert((a + b)[k] == p);
    }
    if b.contains(p) {
        let k = choose|k: int| 0 <= k < b.len() && b[k] == p;
        assert((a + b)[k + a.len()] == p);
    }
}

/// The patterns of the rules are exactly those that some direct rule contributes.
proof fn lemma_rules_patterns_contains(rules: Seq<RuleView>, pre: Seq<char>, post: Seq<char>, p: Seq<char>)
    ensures
        rules_patterns(rules, pre, post).contains(p) <==> exists|i: int|
            0 <= i < rules.len() && pattern_of_rule(#[trigger] rules[i], pre, post, p),
    decreases rules.len(),
{
    if rules.len() > 0 {
        let init = rules.drop_last();
        let r = rules.last();
        lemma_rules_patterns_contains(init, pre, post, p);
        lemma_concat_contains(rules_patterns(init, pre, post), rule_patterns(r, pre, post), p);
        let own = rule_patterns(r, pre, post);
        assert(own.contains(p) <==> pattern_of_rule(r, pre, post, p)) by {
            if own.contains(p) {
                let k = choose|k: int| 0 <= k < own.len() && own[k] == p;
            }
            if pattern_of_rule(r, pre, post, p) {
                if p == wrapped(bare_domain(r.domain), pre, post) {
                    assert(own[0] == p);
                } else {
                    assert(own[1] == p);
                }
            }
        }
        if exists|i: int| 0 <= i < rules.len() && pattern_of_rule(#[trigger] rules[i], pre, post, p) {
            let i = choose|i: int| 0 <= i < rules.len() && pattern_of_rule(#[trigger] rules[i], pre, post, p);
            if i < init.len() {
                assert(init[i] == rules[i]);
            }
        }
        if exists|i: int| 0 <= i < init.len() && pattern_of_rule(#[trigger] init[i], pre, post, p) {
            let i = choose|i: int| 0 <= i < init.len() && pattern_of_rule(#[trigger] init[i], pre, post, p);
            assert(rules[i] == init[i]);
        }
        if pattern_of_rule(r, pre, post, p) {
            assert(rules[rules.len() - 1] == r);
        }
    }
}

/// The name server policy names, once each and in increasing order, exactly
/// the bare domains of the direct rules and their parent suffixes.
pub proof fn law_dns_policy_lists_direct_domains(rules: Seq<RuleView>, p: Seq<char>)
    ensures
        strictly_sorted(sorted_elements(dns_patterns(rules).to_set())),
        sorted_elements(dns_patterns(rules).to_set()).contains(p) <==> exists|i: int|
            0 <= i < rules.len() && pattern_of_rule(#[trigger] rules[i], "'+."@, "'"@, p),
{
    let ps = dns_patterns(rules);
    law_sorted_elements(ps);
    lemma_rules_patterns_contains(rules, "'+."@, "'"@, p);
    let qs = sorted_elements(ps.to_set());
    assert(qs.contains(p) <==> qs.to_set().contains(p));
    assert(ps.contains(p) <==> ps.to_set().contains(p));
}

/// The sniffer's exceptions name, once each and in increasing order, the
/// local names and exactly the bare domains of the direct rules and their
/// parent suffixes.
pub proof fn law_sniffer_skips_local_and_direct_domains(rules: Seq<RuleView>, p: Seq<char>)
    ensures
        strictly_sorted(sorted_elements(sniffer_patterns(rules).to_set())),
        sorted_elements(sniffer_patterns(rules).to_set()).contains(p) <==> (local_skip_patterns().contains(p)
            || exists|i: int|
            0 <= i < rules.len() && pattern_of_rule(#[trigger] rules[i], "    - '+."@, "'"@, p)),
{
    let ps = sniffer_patterns(rules);
    law_sorted_elements(ps);
    lemma_rules_patterns_contains(rules, "    - '+."@, "'"@, p);
    lemma_concat_contains(local_skip_patterns(), rules_patterns(rules, "    - '+."@, "'"@), p);
    let qs = sorted_elements(ps.to_set());
    assert(qs.contains(p) <==> qs.to_set().contains(p));
    assert(ps.contains(p) <==> ps.to_set().contains(p));
}

/// Every domain that the name server policy sends to the system resolver is
/// also an exception of the sniffer: for each pattern `q` of the policy, the
/// sniffer lists `    - ` followed by `q`.
pub proof fn law_sniffer_skips_policy_domains(rules: Seq<RuleView>, q: Seq<char>)
    ensures
        sorted_elements(dns_patterns(rules).to_set()).contains(q) ==> sorted_elements(
            sniffer_patterns(rules).to_set(),
        ).contains("    - "@ + q),
{
    law_dns_policy_lists_direct_domains(rules, q);
    if sorted_elements(dns_patterns(rules).to_set()).contains(q) {
        let i = choose|i: int| 0 <= i < rules.len() && pattern_of_rule(#[trigger] rules[i], "'+."@, "'"@, q);
        let x = if q == wrapped(bare_domain(rules[i].domain), "'+."@, "'"@) {
            bare_domain(rules[i].domain)
        } else {
            parent_suffix_of(bare_domain(rules[i].domain))->Some_0
        };
        assert(q == wrapped(x, "'+."@, "'"@));
        assert("    - "@ + q =~= wrapped(x, "    - '+."@, "'"@)) by {
            reveal_strlit("    - ");
            reveal_strlit("'+.");
            reveal_strlit("    - '+.");
        }
        assert(pattern_of_rule(rules[i], "    - '+."@, "'"@, "    - "@ + q));
        law_sniffer_skips_local_and_direct_domains(rules, "    - "@ + q);
    }
}

/// Patterns of the name server policy for a bare domain.
pub open spec fn dns_patterns(rules: Seq<RuleView>) -> Seq<Seq<char>> {
    rules_patterns(rules, "'+."@, "'"@)
}

/// The name server policy: one line per distinct pattern, in increasing
/// order, sending the direct rules' domains (and their parent suffixes)
/// to the system resolver.
pub open spec fn dns_policy_text(rules: Seq<RuleView>) -> Seq<char> {
    concat_wrapped(sorted_elements(dns_patterns(rules).to_set()), "    "@, ": [system]\n"@)
}

/// The name server policy lines for the direct rules.
pub fn build_dns_policy(rules: &[UserRule]) -> (r: String)
    ensures
        r@ == dns_policy_text(rule_views(rules@)),
{
    let mut set = SortedStrings::new();
    assert(set@.to_set() =~= Seq::<Seq<char>>::empty().to_set());
    insert_rules_patterns(&mut set, Ghost(Seq::empty()), rules, "'+.", "'");
    assert(Seq::<Seq<char>>::empty() + dns_patterns(rule_views(rules@)) =~= dns_patterns(rule_views(rules@)));
    let ghost ps = set@;
    proof {
        lemma_sorted_elements(ps);
    }
    let mut out: Vec<char> = Vec::new();
    let mut k: usize = 0;
    while k < set.len()
        invariant
            ps == set@,
            k <= ps.len(),
            out@ == concat_wrapped(ps.take(k as int), "    "@, ": [system]\n"@),
        decreases ps.len() - k,
    {
        proof {
            lemma_concat_wrapped_take(ps, "    "@, ": [system]\n"@, k as int);
        }
        push_str(&mut out, "    ");
        push_chars(&mut out, set.get(k));
        push_str(&mut out, ": [system]\n");
        k += 1;
    }
    assert(ps.take(ps.len() as int) =~= ps);
    string_of(&out)
}

/// The names that always reach the system resolver and the direct outbound.
pub open spec fn local_direct_domain_list() -> Seq<Seq<char>> {
    seq!["localhost"@, "+.local"@, "*.local"@]
}

/// The names that always go direct: `localhost`, `+.local` and `*.local`.
pub fn local_direct_domains() -> (r: Vec<&'static str>)
    ensures
        r@.map_values(|s: &str| s@) == local_direct_domain_list(),
{
    let r = vec!["localhost", "+.local", "*.local"];
    assert(r@.map_values(|s: &str| s@) =~= local_direct_domain_list());
    r
}

/// The sniffer's exception list: a local name as `    - '<name>'`.
pub open spec fn local_skip_patterns() -> Seq<Seq<char>> {
    local_direct_domain_list().map_values(|d: Seq<char>| wrapped(d, "    - '"@, "'"@))
}

/// Patterns of the sniffer's exceptions for the direct rules.
pub open spec fn sniffer_patterns(rules: Seq<RuleView>) -> Seq<Seq<char>> {
    local_skip_patterns() + rules_patterns(rules, "    - '+."@, "'"@)
}

/// The sniffer's exception block: its header and one line per distinct
/// pattern in increasing order (the local names are always there).
pub open spec fn sniffer_skip_text(rules: Seq<RuleView>) -> Seq<char> {
    "  skip-domain:\n"@ + join(sorted_elements(sniffer_patterns(rules).to_set()), "\n"@) + "\n"@
}

/// The sniffer's exception block for the local names and the direct rules.
pub fn build_sniffer_skip_domains(rules: &[UserRule]) -> (r: String)
    ensures
        r@ == sniffer_skip_text(rule_views(rules@)),
{
    let locals = local_direct_domains();
    let mut set = SortedStrings::new();
    let ghost lp = local_skip_patterns();
    let mut i: usize = 0;
    assert(set@.to_set() =~= lp.take(0).to_set());
    while i < locals.len()
        invariant
            i <= 3,
            locals@.map_values(|s: &str| s@) == local_direct_domain_list(),
            lp == local_skip_patterns(),
            strictly_sorted(set@),
            set@.to_set() == lp.take(i as int).to_set(),
        decreases 3 - i,
    {
        let d = chars_of(locals[i]);
        let p = wrapped_chars(&d, "    - '", "'");
        assert(locals@.map_values(|s: &str| s@)[i as int] == locals@[i as int]@);
        set.insert(p);
        proof {
            lemma_push_to_set(lp.take(i as int), p@);
            assert(lp.take(i + 1) =~= lp.take(i as int).push(p@));
        }
        i += 1;
    }
    assert(lp.take(3) =~= lp);
    insert_rules_patterns(&mut set, Ghost(lp), rules, "    - '+.", "'");
    let ghost ps = set@;
    proof {
        lemma_sorted_elements(ps);
    }
    let mut out: Vec<char> = Vec::new();
    push_str(&mut out, "  skip-domain:\n");
    let ghost head = out@;
    let mut k: usize = 0;
    while k < set.len()
        invariant
            ps == set@,
            k <= ps.len(),
            head == "  skip-domain:\n"@,
            out@ == head + join(ps.take(k as int), "\n"@),
        decreases ps.len() - k,
    {
        proof {
            lemma_join_take(ps, "\n"@, k as int);
        }
        if k > 0 {
            push_str(&mut out, "\n");
        }
        push_chars(&mut out, set.get(k));
        k += 1;
    }
    assert(ps.take(ps.len() as int) =~= ps);
    push_str(&mut out, "\n");
    string_of(&out)
}

/// The name server policy lines for the local names.
pub open spec fn local_dns_policy_text() -> Seq<char> {
    concat_wrapped(local_direct_domain_list(), "    '"@, "': [system]\n"@)
}

/// The name server policy lines that send the local names to the system resolver.
pub fn build_local_direct_dns_policy() -> (r: String)
    ensures
        r@ == local_dns_policy_text(),
{
    let locals = local_direct_domains();
    let ghost ds = local_direct_domain_list();
    let mut out: Vec<char> = Vec::new();
    let mut i: usize = 0;
    while i < locals.len()
        invariant
            i <= 3,
            locals@.map_values(|s: &str| s@) == ds,
            ds == local_direct_domain_list(),
            out@ == concat_wrapped(ds.take(i as int), "    '"@, "': [system]\n"@),
        decreases 3 - i,
    {
        proof {
            lemma_concat_wrapped_take(ds, "    '"@, "': [system]\n"@, i as int);
            assert(ds[i as int] == locals@[i as int]@);
        }
        push_str(&mut out, "    '");
        push_str(&mut out, locals[i]);
        push_str(&mut out, "': [system]\n");
        i += 1;
    }
    assert(ds.take(3) =~= ds);
    string_of(&out)
}

/// Routing lines that keep local names and private address ranges direct.
pub const LOCAL_DIRECT_RULES: &'static str = "  - DOMAIN,localhost,DIRECT
  - DOMAIN-SUFFIX,local,DIRECT
  - IP-CIDR,127.0.0.0/8,DIRECT,no-resolve
  - IP-CIDR,10.0.0.0/8,DIRECT,no-resolve
  - IP-CIDR,172.16.0.0/12,DIRECT,no-resolve
  - IP-CIDR,192.168.0.0/16,DIRECT,no-resolve
  - IP-CIDR,169.254.0.0/16,DIRECT,no-resolve
  - IP-CIDR,100.64.0.0/10,DIRECT,no-resolve
  - IP-CIDR6,::1/128,DIRECT,no-resolve
  - IP-CIDR6,fc00::/7,DIRECT,no-resolve
  - IP-CIDR6,fe80::/10,DIRECT,no-resolve
";

/// The routing lines for local names and private address ranges.
pub fn build_local_direct_rules() -> (r: String)
    ensures
        r@ == LOCAL_DIRECT_RULES@,
{
    LOCAL_DIRECT_RULES.to_owned()
}

// ---------------------------------------------------------------------
// Static host entries
// ---------------------------------------------------------------------

/// The views of the resolved addresses.
pub open spec fn resolved_views(ips: Seq<Option<String>>) -> Seq<Option<Seq<char>>> {
    ips.map_values(
        |o: Option<String>|
            match o {
                Some(s) => Some(s@),
                None => None,
            },
    )
}

/// The address resolved for rule `i`, if any.
pub open spec fn resolved_at(ips: Seq<Option<Seq<char>>>, i: int) -> Option<Seq<char>> {
    if 0 <= i < ips.len() {
        ips[i]
    } else {
        None
    }
}

/// The host entry that a rule contributes: only a direct rule whose bare
/// domain resolved does.
pub open spec fn dns_host_entry(r: RuleView, ip: Option<Seq<char>>) -> Seq<Seq<char>> {
    match ip {
        Some(a) => if is_direct(r) {
            seq!["    '"@ + bare_domain(r.domain) + "': "@ + a]
        } else {
            Seq::empty()
        },
        None => Seq::empty(),
    }
}

/// The host entry of `localhost`.
pub open spec fn localhost_entry() -> Seq<char> {
    "    'localhost': 127.0.0.1"@
}

/// The host entries: `localhost` first, then one for each direct rule whose
/// bare domain resolved, in rule order; `ips[i]` is what rule `i` resolved to.
pub open spec fn dns_host_lines(rules: Seq<RuleView>, ips: Seq<Option<Seq<char>>>) -> Seq<Seq<char>>
    decreases rules.len(),
{
    if rules.len() == 0 {
        seq![localhost_entry()]
    } else {
        dns_host_lines(rules.drop_last(), ips) + dns_host_entry(
            rules.last(),
            resolved_at(ips, rules.len() - 1),
        )
    }
}

/// The host entries start with `localhost`; every direct rule whose bare
/// domain resolved has its entry, whatever the other rules resolved to; and
/// every other entry is that of some direct rule that resolved.
pub proof fn law_dns_host_entries(rules: Seq<RuleView>, ips: Seq<Option<Seq<char>>>)
    ensures
        dns_host_lines(rules, ips).len() >= 1,
        dns_host_lines(rules, ips)[0] == "    'localhost': 127.0.0.1"@,
        forall|i: int|
            0 <= i < rules.len() && is_direct(rules[i]) && #[trigger] resolved_at(ips, i) is Some
                ==> dns_host_lines(rules, ips).contains(
                "    '"@ + bare_domain(rules[i].domain) + "': "@ + resolved_at(ips, i)->Some_0,
            ),
        forall|k: int|
            1 <= k < dns_host_lines(rules, ips).len() ==> exists|i: int|
                0 <= i < rules.len() && is_direct(rules[i]) && resolved_at(ips, i) is Some && (
                #[trigger] dns_host_lines(rules, ips)[k]) == "    '"@ + bare_domain(rules[i].domain)
                    + "': "@ + resolved_at(ips, i)->Some_0,
    decreases rules.len(),
{
    let out = dns_host_lines(rules, ips);
    if rules.len() > 0 {
        let init = rules.drop_last();
        let n = rules.len() - 1;
        law_dns_host_entries(init, ips);
        let p = dns_host_lines(init, ips);
        let e = dns_host_entry(rules.last(), resolved_at(ips, n));
        assert(out == p + e);
        assert(p.len() >= 1);
        assert(out[0] == p[0]);
        assert forall|i: int|
            0 <= i < rules.len() && is_direct(rules[i]) && #[trigger] resolved_at(ips, i) is Some
                implies out.contains(
                "    '"@ + bare_domain(rules[i].domain) + "': "@ + resolved_at(ips, i)->Some_0,
            ) by {
            let line = "    '"@ + bare_domain(rules[i].domain) + "': "@ + resolved_at(ips, i)->Some_0;
            if i < n {
                assert(init[i] == rules[i]);
                assert(p.contains(line));
                let k = choose|k: int| 0 <= k < p.len() && p[k] == line;
                assert(out[k] == line);
            } else {
                assert(e == seq![line]);
                assert(out[p.len() as int] == line);
            }
        }
        assert forall|k: int| 1 <= k < out.len() implies exists|i: int|
            0 <= i < rules.len() && is_direct(rules[i]) && resolved_at(ips, i) is Some && (
            #[trigger] out[k]) == "    '"@ + bare_domain(rules[i].domain) + "': "@ + resolved_at(
                ips,
                i,
            )->Some_0 by {
            if k < p.len() {
                assert(out[k] == p[k]);
                let i = choose|i: int|
                    0 <= i < init.len() && is_direct(init[i]) && resolved_at(ips, i) is Some && (
                    #[trigger] p[k]) == "    '"@ + bare_domain(init[i].domain) + "': "@ + resolved_at(
                        ips,
                        i,
                    )->Some_0;
                assert(rules[i] == init[i]);
            } else {
                assert(out[k] == e[k - p.len()]);
                assert(rules[n] == rules.last());
            }
        }
    }
}

/// The static host entries: `resolved[i]` is the address that the bare
/// domain of rule `i` resolved to (looked up for direct rules only).
pub fn build_dns_hosts(rules: &[UserRule], resolved: &[Option<String>]) -> (r: Vec<String>)
    ensures
        string_views(r@) == dns_host_lines(rule_views(rules@), resolved_views(resolved@)),
{
    let ghost rv = rule_views(rules@);
    let ghost ips = resolved_views(resolved@);
    let mut lines: Vec<String> = Vec::new();
    lines.push("    'localhost': 127.0.0.1".to_owned());
    assert(string_views(lines@) =~= dns_host_lines(rv.take(0), ips));
    let mut i: usize = 0;
    while i < rules.len()
        invariant
            i <= rules@.len(),
            rv == rule_views(rules@),
            ips == resolved_views(resolved@),
            string_views(lines@) == dns_host_lines(rv.take(i as int), ips),
        decreases rules@.len() - i,
    {
        let ghost before = string_views(lines@);
        assert(rv.take(i + 1).drop_last() =~= rv.take(i as int));
        assert(dns_host_lines(rv.take(i + 1), ips) == before + dns_host_entry(rv[i as int], resolved_at(ips, i as int)));
        if i < resolved.len() {
            match &resolved[i] {
                Some(ip) => {
                    if rule_is_direct(&rules[i]) {
                        let domain = chars_of(rules[i].domain.as_str());
                        let d = bare_domain_chars(&domain);
                        let mut line: Vec<char> = Vec::new();
                        push_str(&mut line, "    '");
                        push_chars(&mut line, &d);
                        push_str(&mut line, "': ");
                        push_str(&mut line, ip.as_str());
                        lines.push(string_of(&line));
                        assert(string_views(lines@) =~= before + dns_host_entry(rv[i as int], resolved_at(ips, i as int)));
                    } else {
                        assert(before + dns_host_entry(rv[i as int], resolved_at(ips, i as int)) =~= before);
                    }
                },
                None => {
                    assert(before + dns_host_entry(rv[i as int], resolved_at(ips, i as int)) =~= before);
                },
            }
        } else {
            assert(before + dns_host_entry(rv[i as int], resolved_at(ips, i as int)) =~= before);
        }
        i += 1;
    }
    assert(rv.take(rules@.len() as int) =~= rv);
    lines
}

/// The `hosts` block of the name server section: empty without entries,
/// else its header, the entries joined by newlines, and a final newline.
pub open spec fn dns_hosts_text(lines: Seq<Seq<char>>) -> Seq<char> {
    if lines.len() == 0 {
        Seq::empty()
    } else {
        "  hosts:\n"@ + join(lines, "\n"@) + "\n"@
    }
}

/// The `hosts` block for the given host entries.
pub fn format_dns_hosts(lines: &[String]) -> (r: String)
    ensures
        r@ == dns_hosts_text(string_views(lines@)),
{
    let ghost ls = string_views(lines@);
    if lines.len() == 0 {
        return String::new();
    }
    let mut out: Vec<char> = Vec::new();
    push_str(&mut out, "  hosts:\n");
    let ghost head = out@;
    let mut k: usize = 0;
    while k < lines.len()
        invariant
            ls == string_views(lines@),
            k <= lines@.len(),
            head == "  hosts:\n"@,
            out@ == head + join(ls.take(k as int), "\n"@),
        decreases lines@.len() - k,
    {
        proof {
            lemma_join_take(ls, "\n"@, k as int);
        }
        if k > 0 {
            push_str(&mut out, "\n");
        }
        push_str(&mut out, lines[k].as_str());
        k += 1;
    }
    assert(ls.take(ls.len() as int) =~= ls);
    push_str(&mut out, "\n");
    string_of(&out)
}

/// `host` trimmed, a colon and `port` in decimal: the address that the
/// reachability probe connects to.
pub open spec fn host_port_address_text(host: Seq<char>, port: u16) -> Seq<char> {
    trim(host) + ":"@ + decimal(port as nat)
}

/// The address that the reachability probe of `host` and `port` connects to.
pub fn host_port_address(host: &str, port: u16) -> (r: String)
    ensures
        r@ == host_port_address_text(host@, port),
{
    let h = chars_of(host);
    let t = trim_chars(&h);
    let digits = decimal_chars(port as u64);
    let mut out = t;
    push_str(&mut out, ":");
    push_chars(&mut out, &digits);
    string_of(&out)
}

} // verus!
