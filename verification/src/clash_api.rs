//! Rules edited by the user, and the connection list shown to the user.
use vstd::prelude::*;

use crate::config::{RuleView, UserRule, rule_views};
use crate::text::{
    contains_seq, has_prefix, is_ws, lemma_index_of_unique, occurs_at, trim_end, trim_start,
    lemma_before_char, lemma_trim_keeps_chars, before_char, before_char_chars, chars_of, has_char, lowercase, push_chars, push_str,
    string_of, string_views, strip_all_prefix, strip_all_prefix_chars, to_lowercase_chars, trim,
    trim_chars,
};

verus! {

// ---------------------------------------------------------------------
// Domains typed or pasted by the user
// ---------------------------------------------------------------------

/// The host named by `input` before it is lower-cased: `input` trimmed,
/// without leading `https://` and then `http://` prefixes, cut at the first
/// `/` and then at the first `:`, and trimmed again; none when `input` is
/// blank or the host is empty or holds a space.
pub open spec fn domain_host(input: Seq<char>) -> Option<Seq<char>> {
    let t = trim(input);
    if t.len() == 0 {
        None
    } else {
        let w = strip_all_prefix(strip_all_prefix(t, "https://"@), "http://"@);
        let h = trim(before_char(before_char(w, '/'), ':'));
        if h.len() == 0 || h.contains(' ') {
            None
        } else {
            Some(h)
        }
    }
}

/// The domain that `input` names: its host in lower case.
pub open spec fn normalized_domain(input: Seq<char>) -> Option<Seq<char>> {
    match domain_host(input) {
        Some(h) => Some(lowercase(h)),
        None => None,
    }
}

fn domain_host_chars(input: &str) -> (r: Option<Vec<char>>)
    ensures
        r matches Some(v) ==> domain_host(input@) == Some(v@),
        r is None ==> domain_host(input@) is None,
{
    let s = chars_of(input);
    let t = trim_chars(&s);
    if t.len() == 0 {
        return None;
    }
    let https = chars_of("https://");
    let http = chars_of("http://");
    let w1 = strip_all_prefix_chars(&t, &https);
    let w = strip_all_prefix_chars(&w1, &http);
    let a = before_char_chars(&w, '/');
    let b = before_char_chars(&a, ':');
    let h = trim_chars(&b);
    if h.len() == 0 || has_char(&h, ' ') {
        None
    } else {
        Some(h)
    }
}

/// The host that `input` names, before lower-casing.
pub fn domain_host_of(input: &str) -> (r: Option<String>)
    ensures
        r matches Some(s) ==> domain_host(input@) == Some(s@),
        r is None ==> domain_host(input@) is None,
{
    match domain_host_chars(input) {
        Some(h) => Some(string_of(&h)),
        None => None,
    }
}

/// The domain that a URL or host name typed by the user names, in lower
/// case; none when there is no usable host in it.
pub fn normalize_domain(input: &str) -> (r: Option<String>)
    ensures
        r matches Some(s) ==> normalized_domain(input@) == Some(s@),
        r is None ==> normalized_domain(input@) is None,
{
    match domain_host_chars(input) {
        Some(h) => {
            let l = to_lowercase_chars(&h);
            Some(string_of(&l))
        },
        None => None,
    }
}

/// The host of a connection without its port: the text before the first `:`.
pub fn extract_domain(host: &str) -> (r: String)
    ensures
        r@ == before_char(host@, ':'),
{
    let h = chars_of(host);
    let d = before_char_chars(&h, ':');
    string_of(&d)
}

// ---------------------------------------------------------------------
// Connections
// ---------------------------------------------------------------------

/// A connection as the proxy core's control API reports it.
#[derive(Debug, Clone, PartialEq, Eq)]
pub struct RawConnection {
    pub host: String,
    pub network: String,
    pub rule: String,
    pub chains: Vec<String>,
    pub rule_payload: String,
}

/// A connection as plain text.
pub struct RawConnectionView {
    pub host: Seq<char>,
    pub network: Seq<char>,
    pub rule: Seq<char>,
    pub chains: Seq<Seq<char>>,
    pub rule_payload: Seq<char>,
}

impl View for RawConnection {
    type V = RawConnectionView;

    open spec fn view(&self) -> RawConnectionView {
        RawConnectionView {
            host: self.host@,
            network: self.network@,
            rule: self.rule@,
            chains: string_views(self.chains@),
            rule_payload: self.rule_payload@,
        }
    }
}

/// A connection as the user sees it in the list.
#[derive(Debug, Clone, PartialEq, Eq)]
pub struct ConnectionItem {
    pub domain: String,
    pub host: String,
    pub network: String,
    pub rule: String,
    pub chains: Vec<String>,
}

/// A listed connection as plain text.
pub struct ConnectionItemView {
    pub domain: Seq<char>,
    pub host: Seq<char>,
    pub network: Seq<char>,
    pub rule: Seq<char>,
    pub chains: Seq<Seq<char>>,
}

impl View for ConnectionItem {
    type V = ConnectionItemView;

    open spec fn view(&self) -> ConnectionItemView {
        ConnectionItemView {
            domain: self.domain@,
            host: self.host@,
            network: self.network@,
            rule: self.rule@,
            chains: string_views(self.chains@),
        }
    }
}

/// Most connections that the list shows.
pub const MAX_LISTED_CONNECTIONS: usize = 30;

/// Some connection before position `i` has the host of connection `i`.
pub open spec fn seen_before(s: Seq<RawConnectionView>, i: int) -> bool {
    exists|j: int| 0 <= j < i && (#[trigger] s[j]).host == s[i].host
}

/// The connections with a non-empty host that no earlier connection had, in order.
pub open spec fn first_sightings(s: Seq<RawConnectionView>) -> Seq<RawConnectionView>
    decreases s.len(),
{
    if s.len() == 0 {
        Seq::empty()
    } else {
        let p = first_sightings(s.drop_last());
        if s.last().host.len() > 0 && !seen_before(s, s.len() - 1) {
            p.push(s.last())
        } else {
            p
        }
    }
}

/// The rule text of a connection: the rule, and ` / ` and the payload when there is one.
pub open spec fn rule_text(rule: Seq<char>, payload: Seq<char>) -> Seq<char> {
    if payload.len() == 0 {
        rule
    } else {
        rule + " / "@ + payload
    }
}

/// How a connection is listed.
pub open spec fn connection_item(c: RawConnectionView) -> ConnectionItemView {
    ConnectionItemView {
        domain: before_char(c.host, ':'),
        host: c.host,
        network: c.network,
        rule: rule_text(c.rule, c.rule_payload),
        chains: c.chains,
    }
}

/// How each first sighting is listed.
pub open spec fn listed(s: Seq<RawConnectionView>) -> Seq<ConnectionItemView> {
    first_sightings(s).map_values(|c: RawConnectionView| connection_item(c))
}

/// The listed connections: one per distinct non-empty host, the first
/// connection to it, in order, at most `MAX_LISTED_CONNECTIONS` of them.
pub open spec fn connection_list(s: Seq<RawConnectionView>) -> Seq<ConnectionItemView> {
    let items = listed(s);
    if items.len() > MAX_LISTED_CONNECTIONS {
        items.take(MAX_LISTED_CONNECTIONS as int)
    } else {
        items
    }
}

/// The views of a sequence of connections.
pub open spec fn raw_views(s: Seq<RawConnection>) -> Seq<RawConnectionView> {
    s.map_values(|c: RawConnection| c@)
}

/// The views of a sequence of listed connections.
pub open spec fn item_views(s: Seq<ConnectionItem>) -> Seq<ConnectionItemView> {
    s.map_values(|c: ConnectionItem| c@)
}

/// A host was seen among the first `n` connections exactly when one of
/// their first sightings has it.
proof fn lemma_sighted(s: Seq<RawConnectionView>, n: int, h: Seq<char>)
    requires
        0 <= n <= s.len(),
        h.len() > 0,
    ensures
        (exists|j: int| 0 <= j < n && (#[trigger] s[j]).host == h) <==> (exists|k: int|
            0 <= k < first_sightings(s.take(n)).len() && (#[trigger] first_sightings(
                s.take(n),
            )[k]).host == h),
    decreases n,
{
    let t = s.take(n);
    let f = first_sightings(t);
    if n > 0 {
        lemma_sighted(s, n - 1, h);
        assert(t.drop_last() =~= s.take(n - 1));
        let p = first_sightings(s.take(n - 1));
        let last = s[n - 1];
        assert(t.last() == last);
        assert(seen_before(t, n - 1) == seen_before(s, n - 1)) by {
            if seen_before(s, n - 1) {
                let j = choose|j: int| 0 <= j < n - 1 && (#[trigger] s[j]).host == s[n - 1].host;
                assert(t[j] == s[j]);
            }
            if seen_before(t, n - 1) {
                let j = choose|j: int| 0 <= j < n - 1 && (#[trigger] t[j]).host == t[n - 1].host;
                assert(t[j] == s[j]);
            }
        }
        if exists|j: int| 0 <= j < n && (#[trigger] s[j]).host == h {
            let j = choose|j: int| 0 <= j < n && (#[trigger] s[j]).host == h;
            if j < n - 1 {
                let k = choose|k: int| 0 <= k < p.len() && (#[trigger] p[k]).host == h;
                assert(f[k] == p[k]);
            } else if !seen_before(s, n - 1) {
                assert(f[p.len() as int] == last);
            } else {
                let j2 = choose|j2: int| 0 <= j2 < n - 1 && (#[trigger] s[j2]).host == s[n - 1].host;
                let k = choose|k: int| 0 <= k < p.len() && (#[trigger] p[k]).host == h;
                assert(f[k] == p[k]);
            }
        }
        if exists|k: int| 0 <= k < f.len() && (#[trigger] f[k]).host == h {
            let k = choose|k: int| 0 <= k < f.len() && (#[trigger] f[k]).host == h;
            if k < p.len() {
                assert(f[k] == p[k]);
            } else {
                assert(s[n - 1].host == h);
            }
        }
    }
}

/// Copies of the strings of `v`.
fn clone_strings(v: &Vec<String>) -> (r: Vec<String>)
    ensures
        string_views(r@) == string_views(v@),
{
    let mut r: Vec<String> = Vec::new();
    let mut i: usize = 0;
    while i < v.len()
        invariant
            i <= v@.len(),
            string_views(r@) == string_views(v@).take(i as int),
        decreases v@.len() - i,
    {
        let c = v[i].clone();
        let ghost before = string_views(r@);
        r.push(c);
        assert(string_views(r@) =~= before.push(v@[i as int]@));
        assert(string_views(r@) =~= string_views(v@).take(i + 1));
        i += 1;
    }
    assert(string_views(v@).take(v@.len() as int) =~= string_views(v@));
    r
}

/// The listed form of one connection.
fn make_connection_item(c: &RawConnection) -> (r: ConnectionItem)
    ensures
        r@ == connection_item(c@),
{
    let payload = chars_of(c.rule_payload.as_str());
    let rule = if payload.len() == 0 {
        c.rule.clone()
    } else {
        let mut t = chars_of(c.rule.as_str());
        push_str(&mut t, " / ");
        push_chars(&mut t, &payload);
        string_of(&t)
    };
    ConnectionItem {
        domain: extract_domain(c.host.as_str()),
        host: c.host.clone(),
        network: c.network.clone(),
        rule,
        chains: clone_strings(&c.chains),
    }
}

/// The connections to list: the first connection to each distinct non-empty
/// host, in order, at most `MAX_LISTED_CONNECTIONS` of them, each with its
/// host without the port as its domain and the rule payload after the rule.
pub fn collect_connections(conns: &[RawConnection]) -> (r: Vec<ConnectionItem>)
    ensures
        item_views(r@) == connection_list(raw_views(conns@)),
{
    let ghost s = raw_views(conns@);
    let mut items: Vec<ConnectionItem> = Vec::new();
    let mut i: usize = 0;
    while i < conns.len()
        invariant
            i <= conns@.len(),
            s == raw_views(conns@),
            item_views(items@) == listed(s.take(i as int)),
        decreases conns@.len() - i,
    {
        let ghost t = s.take(i + 1);
        let ghost f = first_sightings(s.take(i as int));
        assert(t.drop_last() =~= s.take(i as int));
        assert(t.last() == s[i as int]);
        let conn = &conns[i];
        if conn.host.as_str().is_empty() {
            i += 1;
            continue;
        }
        assert(item_views(items@).len() == items@.len());
        assert(listed(s.take(i as int)).len() == f.len());
        let mut seen = false;
        let mut k: usize = 0;
        while k < items.len()
            invariant
                k <= items@.len(),
                item_views(items@) == listed(s.take(i as int)),
                f == first_sightings(s.take(i as int)),
                f.len() == items@.len(),
                seen == exists|m: int| 0 <= m < k && (#[trigger] f[m]).host == conn.host@,
            decreases items@.len() - k,
        {
            assert(item_views(items@)[k as int] == items@[k as int]@);
            assert(listed(s.take(i as int))[k as int] == connection_item(f[k as int]));
            if items[k].host == conn.host {
                seen = true;
            }
            k += 1;
        }
        proof {
            assert(f.len() == items@.len());
            lemma_sighted(s, i as int, conn.host@);
            assert(seen_before(t, i as int) == seen) by {
                if seen_before(t, i as int) {
                    let j = choose|j: int| 0 <= j < i && (#[trigger] t[j]).host == t[i as int].host;
                    assert(s[j] == t[j]);
                }
                if seen {
                    let j = choose|j: int| 0 <= j < i && (#[trigger] s[j]).host == conn.host@;
                    assert(s[j] == t[j]);
                }
            }
        }
        if !seen {
            let item = make_connection_item(conn);
            items.push(item);
            assert(first_sightings(t) == f.push(s[i as int]));
            assert(listed(t) =~= listed(s.take(i as int)).push(connection_item(s[i as int])));
            assert(item_views(items@) =~= listed(t));
        }
        i += 1;
    }
    assert(s.take(conns@.len() as int) =~= s);
    items.truncate(MAX_LISTED_CONNECTIONS);
    let ghost all = listed(s);
    assert(item_views(items@) =~= (if all.len() > MAX_LISTED_CONNECTIONS {
        all.take(MAX_LISTED_CONNECTIONS as int)
    } else {
        all
    }));
    items
}

// ---------------------------------------------------------------------
// Adding and removing rules
// ---------------------------------------------------------------------

/// Message returned when the domain names no usable host.
pub open spec fn invalid_domain_message() -> Seq<char> {
    "域名无效"@
}

/// Message returned when the action is neither `proxy` nor `direct`.
pub open spec fn invalid_action_message() -> Seq<char> {
    "action 只能是 proxy 或 direct"@
}

/// An action that a rule may carry.
pub open spec fn valid_action(action: Seq<char>) -> bool {
    action == "proxy"@ || action == "direct"@
}

/// `rules` without the rules for `domain`, the others in their order.
pub open spec fn without_domain(rules: Seq<RuleView>, domain: Seq<char>) -> Seq<RuleView> {
    rules.filter(|r: RuleView| r.domain != domain)
}

/// `rules` with the rule `domain -> action` in front and no other rule for `domain`.
pub open spec fn upserted(rules: Seq<RuleView>, domain: Seq<char>, action: Seq<char>) -> Seq<
    RuleView,
> {
    seq![RuleView { domain, action }] + without_domain(rules, domain)
}

/// The rules whose domain is not `domain`, in their order.
pub fn remove_domain_rules(rules: Vec<UserRule>, domain: &str) -> (r: Vec<UserRule>)
    ensures
        rule_views(r@) == without_domain(rule_views(rules@), domain@),
{
    let ghost rv = rule_views(rules@);
    let ghost pred = |r: RuleView| r.domain != domain@;
    let mut kept: Vec<UserRule> = Vec::new();
    let mut i: usize = 0;
    while i < rules.len()
        invariant
            i <= rules@.len(),
            rv == rule_views(rules@),
            pred == (|r: RuleView| r.domain != domain@),
            rule_views(kept@) == rv.take(i as int).filter(pred),
        decreases rules@.len() - i,
    {
        proof {
            reveal_with_fuel(Seq::filter, 1);
            assert(rv.take(i + 1).drop_last() =~= rv.take(i as int));
        }
        let ghost before = rule_views(kept@);
        if !crate::text::str_eq(rules[i].domain.as_str(), domain) {
            let copy = UserRule { domain: rules[i].domain.clone(), action: rules[i].action.clone() };
            kept.push(copy);
            assert(rule_views(kept@) =~= before.push(rv[i as int]));
        }
        i += 1;
    }
    assert(rv.take(rules@.len() as int) =~= rv);
    kept
}

/// `rules` with the rule `domain -> action` in front and no other rule for
/// `domain`; `domain` is taken as it is.
pub fn upsert_rule(rules: Vec<UserRule>, domain: &str, action: &str) -> (r: Vec<UserRule>)
    ensures
        rule_views(r@) == upserted(rule_views(rules@), domain@, action@),
{
    let mut kept = remove_domain_rules(rules, domain);
    let ghost rest = rule_views(kept@);
    let rule = UserRule { domain: domain.to_owned(), action: action.to_owned() };
    let ghost first = rule@;
    kept.insert(0, rule);
    assert(rule_views(kept@) =~= seq![first] + rest);
    kept
}

/// Whether `action` is one that a rule may carry.
pub fn is_valid_action(action: &str) -> (b: bool)
    ensures
        b == valid_action(action@),
{
    crate::text::str_eq(action, "proxy") || crate::text::str_eq(action, "direct")
}

/// The domain that `domain` names, or the error for a domain that names none.
pub fn validate_domain(domain: &str) -> (r: Result<String, String>)
    ensures
        normalized_domain(domain@) is None ==> (r matches Err(e) && e@ == invalid_domain_message()),
        normalized_domain(domain@) matches Some(d) ==> (r matches Ok(s) && s@ == d),
{
    match normalize_domain(domain) {
        Some(d) => Ok(d),
        None => Err("域名无效".to_owned()),
    }
}

/// The domain of a new rule `domain -> action`, or the error that refuses it:
/// first an invalid domain, then an action other than `proxy` or `direct`.
pub fn validate_rule_input(domain: &str, action: &str) -> (r: Result<String, String>)
    ensures
        normalized_domain(domain@) is None ==> (r matches Err(e) && e@ == invalid_domain_message()),
        normalized_domain(domain@) is Some && !valid_action(action@) ==> (r matches Err(e) && e@
            == invalid_action_message()),
        normalized_domain(domain@) matches Some(d) ==> (valid_action(action@) ==> (r matches Ok(s)
            && s@ == d)),
{
    let domain = validate_domain(domain)?;
    if !is_valid_action(action) {
        return Err("action 只能是 proxy 或 direct".to_owned());
    }
    Ok(domain)
}

/// Adds the rule `domain -> action` in front of `rules`, replacing any rule
/// for the same domain; the domain is normalized first, and an invalid
/// domain or an action other than `proxy` or `direct` is refused. The
/// answer carries the new rules and, when the rule is direct and its domain
/// did not resolve (`resolvable`, the resolver's answer for the normalized
/// domain, not consulted for a rule that is not direct), a warning naming it.
pub fn upsert_user_rule(rules: Vec<UserRule>, domain: &str, action: &str, resolvable: bool) -> (r:
    Result<AddRuleResult, String>)
    ensures
        normalized_domain(domain@) is None ==> (r matches Err(e) && e@ == invalid_domain_message()),
        normalized_domain(domain@) is Some && !valid_action(action@) ==> (r matches Err(e) && e@
            == invalid_action_message()),
        normalized_domain(domain@) matches Some(d) ==> (valid_action(action@) ==> (r matches Ok(a)
            && rule_views(a.rules@) == upserted(rule_views(rules@), d, action@)
            && ((a.warning is Some) <==> (action@ == "direct"@ && !resolvable))
            && (a.warning matches Some(w) ==> w@ == unresolvable_warning(d)))),
{
    let domain = match validate_rule_input(domain, action) {
        Ok(d) => d,
        Err(e) => return Err(e),
    };
    let rules = upsert_rule(rules, domain.as_str(), action);
    Ok(add_rule_result(rules, domain.as_str(), action, resolvable))
}

/// Removes every rule for `domain` (normalized first) from `rules`.
pub fn remove_user_rule(rules: Vec<UserRule>, domain: &str) -> (r: Result<Vec<UserRule>, String>)
    ensures
        normalized_domain(domain@) is None ==> (r matches Err(e) && e@ == invalid_domain_message()),
        normalized_domain(domain@) matches Some(d) ==> (r matches Ok(v) && rule_views(v@)
            == without_domain(rule_views(rules@), d)),
{
    let domain = match validate_domain(domain) {
        Ok(d) => d,
        Err(e) => return Err(e),
    };
    Ok(remove_domain_rules(rules, domain.as_str()))
}

/// What adding a rule answers: the rules as they now stand and, when the
/// domain of a direct rule did not resolve, a warning.
#[derive(Debug, Clone, PartialEq, Eq)]
pub struct AddRuleResult {
    pub rules: Vec<UserRule>,
    pub warning: Option<String>,
}

/// The warning given when the domain of a new direct rule does not resolve.
pub open spec fn unresolvable_warning(domain: Seq<char>) -> Seq<char> {
    "规则已生效，但 "@ + domain + " 当前无法解析。这通常是公司内网域名，需要先连接公司 VPN 或检查 hosts。"@
}

/// Whether a new rule with `action` needs its domain looked up: only a
/// direct rule's domain is, for the warning of `add_rule_result`.
pub fn needs_resolution_check(action: &str) -> (b: bool)
    ensures
        b == (action@ == "direct"@),
{
    crate::text::str_eq(action, "direct")
}

/// The answer to adding the rule `domain -> action`: the rules as they now
/// stand, and a warning naming the domain exactly when the rule is direct
/// and its domain did not resolve (`resolvable`, the resolver's answer; for
/// a rule that is not direct it is not consulted).
pub fn add_rule_result(rules: Vec<UserRule>, domain: &str, action: &str, resolvable: bool) -> (r:
    AddRuleResult)
    ensures
        r.rules == rules,
        (r.warning is Some) <==> (action@ == "direct"@ && !resolvable),
        r.warning matches Some(w) ==> w@ == unresolvable_warning(domain@),
{
    let warning = if needs_resolution_check(action) && !resolvable {
        let mut w: Vec<char> = Vec::new();
        push_str(&mut w, "规则已生效，但 ");
        push_str(&mut w, domain);
        push_str(&mut w, " 当前无法解析。这通常是公司内网域名，需要先连接公司 VPN 或检查 hosts。");
        Some(string_of(&w))
    } else {
        None
    };
    AddRuleResult { rules, warning }
}

/// The warning names the domain it is about.
pub proof fn law_warning_names_domain(domain: Seq<char>)
    ensures
        contains_seq(unresolvable_warning(domain), domain),
{
    let pre = "规则已生效，但 "@;
    let w = unresolvable_warning(domain);
    assert(w.subrange(pre.len() as int, (pre.len() + domain.len()) as int) =~= domain);
    assert(occurs_at(w, domain, pre.len() as int));
}

/// A domain taken from user input is a bare host name: not empty, and
/// without spaces, path (`/`) or port (`:`).
pub proof fn law_domain_host_is_bare(input: Seq<char>)
    ensures
        domain_host(input) matches Some(h) ==> {
            &&& h.len() > 0
            &&& !h.contains(' ')
            &&& !h.contains('/')
            &&& !h.contains(':')
        },
{
    let t = trim(input);
    let w = strip_all_prefix(strip_all_prefix(t, "https://"@), "http://"@);
    let a = before_char(w, '/');
    let b = before_char(a, ':');
    lemma_before_char(w, '/', '/');
    lemma_before_char(a, ':', '/');
    lemma_trim_keeps_chars(b, '/');
    lemma_trim_keeps_chars(b, ':');
}

proof fn lemma_trim_unchanged(s: Seq<char>)
    requires
        forall|k: int| 0 <= k < s.len() ==> !is_ws(#[trigger] s[k]),
    ensures
        trim(s) == s,
{
    assert(trim_start(s) == s);
    assert(trim_end(s) == s);
}

proof fn lemma_no_scheme(x: Seq<char>, h: Seq<char>, r: Seq<char>)
    requires
        x == h + r,
        forall|k: int| 0 <= k < h.len() ==> #[trigger] h[k] != '/' && h[k] != ':',
        r.len() == 0 || r[0] == '/',
    ensures
        !has_prefix(x, "https://"@),
        !has_prefix(x, "http://"@),
{
    reveal_strlit("https://");
    reveal_strlit("http://");
    if has_prefix(x, "https://"@) {
        assert(x.take(8)[5] == ':');
        if h.len() > 5 {
            assert(x[5] == h[5]);
        } else {
            assert(x[h.len() as int] == r[0]);
            assert(x.take(8)[h.len() as int] == x[h.len() as int]);
        }
    }
    if has_prefix(x, "http://"@) {
        assert(x.take(7)[4] == ':');
        if h.len() > 4 {
            assert(x[4] == h[4]);
        } else {
            assert(x[h.len() as int] == r[0]);
            assert(x.take(7)[h.len() as int] == x[h.len() as int]);
        }
    }
}

proof fn lemma_strip_one(scheme: Seq<char>, y: Seq<char>)
    requires
        scheme.len() > 0,
        !has_prefix(y, scheme),
    ensures
        strip_all_prefix(scheme + y, scheme) == y,
{
    let x = scheme + y;
    assert(x.take(scheme.len() as int) =~= scheme);
    assert(x.skip(scheme.len() as int) =~= y);
    assert(strip_all_prefix(y, scheme) == y);
}

/// A URL made of an optional `http://` or `https://`, a host and a path
/// (starting with `/`, without white space) names that host: its domain is
/// the host in lower case. A host may hold any characters but white space,
/// `/` and `:` (dashes, digits, dots, non-ASCII letters).
pub proof fn law_url_names_its_host(scheme: Seq<char>, h: Seq<char>, path: Seq<char>)
    requires
        scheme == ""@ || scheme == "http://"@ || scheme == "https://"@,
        h.len() > 0,
        forall|k: int| 0 <= k < h.len() ==> !is_ws(#[trigger] h[k]) && h[k] != '/' && h[k] != ':',
        path.len() == 0 || path[0] == '/',
        forall|k: int| 0 <= k < path.len() ==> !is_ws(#[trigger] path[k]),
    ensures
        domain_host(scheme + h + path) == Some(h),
        normalized_domain(scheme + h + path) == Some(lowercase(h)),
{
    reveal_strlit("https://");
    reveal_strlit("http://");
    reveal_strlit("");
    let x = h + path;
    let input = scheme + h + path;
    assert(input =~= scheme + x);
    assert forall|k: int| 0 <= k < input.len() implies !is_ws(#[trigger] input[k]) by {
        if k < scheme.len() {
        } else if k < scheme.len() + h.len() {
            assert(input[k] == h[k - scheme.len()]);
        } else {
            assert(input[k] == path[k - scheme.len() - h.len()]);
        }
    }
    lemma_trim_unchanged(input);
    lemma_no_scheme(x, h, path);
    let w1 = strip_all_prefix(input, "https://"@);
    if scheme == "https://"@ {
        lemma_strip_one(scheme, x);
        assert(w1 == x);
    } else if scheme == "http://"@ {
        assert(!has_prefix(input, "https://"@)) by {
            assert(input.take(8)[4] == input[4]);
        }
        assert(w1 == input);
    } else {
        assert(input =~= x);
        assert(w1 == x);
    }
    let w = strip_all_prefix(w1, "http://"@);
    if scheme == "http://"@ {
        lemma_strip_one(scheme, x);
    }
    assert(w == x);
    assert forall|j: int| 0 <= j < h.len() implies x[j] != '/' by {
        assert(x[j] == h[j]);
    }
    lemma_index_of_unique(x, '/', h.len() as int);
    assert(before_char(x, '/') =~= h);
    lemma_index_of_unique(h, ':', h.len() as int);
    assert(before_char(h, ':') =~= h);
    lemma_trim_unchanged(h);
    assert(!h.contains(' ')) by {
        if h.contains(' ') {
            let k = choose|k: int| 0 <= k < h.len() && h[k] == ' ';
            assert(!is_ws(h[k]));
        }
    }
}

/// Every listed connection has a non-empty host of its own, and at most
/// `MAX_LISTED_CONNECTIONS` are listed.
pub proof fn law_listed_hosts_distinct(s: Seq<RawConnectionView>)
    ensures
        connection_list(s).len() <= MAX_LISTED_CONNECTIONS,
        forall|i: int| 0 <= i < connection_list(s).len() ==> (#[trigger] connection_list(s)[i]).host.len() > 0,
        forall|i: int, j: int|
            0 <= i < j < connection_list(s).len() ==> (#[trigger] connection_list(s)[i]).host
                != (#[trigger] connection_list(s)[j]).host,
{
    lemma_first_sightings(s);
    let f = first_sightings(s);
    let items = listed(s);
    assert forall|i: int| 0 <= i < connection_list(s).len() implies (#[trigger] connection_list(s)[i]).host.len() > 0 by {
        assert(connection_list(s)[i] == items[i]);
        assert(items[i] == connection_item(f[i]));
    }
    assert forall|i: int, j: int| 0 <= i < j < connection_list(s).len() implies (#[trigger] connection_list(s)[i]).host
        != (#[trigger] connection_list(s)[j]).host by {
        assert(connection_list(s)[i] == items[i] && connection_list(s)[j] == items[j]);
        assert(items[i] == connection_item(f[i]) && items[j] == connection_item(f[j]));
    }
}

/// The distinct non-empty hosts of the connections before position `i`.
pub open spec fn hosts_before(s: Seq<RawConnectionView>, i: int) -> Set<Seq<char>> {
    Set::new(|h: Seq<char>| h.len() > 0 && exists|j: int| 0 <= j < i && (#[trigger] s[j]).host == h)
}

/// The first sightings of a prefix are a prefix of the first sightings.
proof fn lemma_first_sightings_prefix(s: Seq<RawConnectionView>, n: int)
    requires
        0 <= n <= s.len(),
    ensures
        first_sightings(s.take(n)).len() <= first_sightings(s).len(),
        forall|k: int|
            0 <= k < first_sightings(s.take(n)).len() ==> #[trigger] first_sightings(s.take(n))[k]
                == first_sightings(s)[k],
    decreases s.len(),
{
    if n == s.len() {
        assert(s.take(n) =~= s);
    } else {
        let init = s.drop_last();
        assert(init.take(n) =~= s.take(n));
        lemma_first_sightings_prefix(init, n);
        let p = first_sightings(init);
        let f = first_sightings(s);
        assert forall|k: int| 0 <= k < p.len() implies p[k] == f[k] by {}
    }
}

/// A connection whose host is non-empty and new is listed, in its listed
/// form, whenever fewer than `MAX_LISTED_CONNECTIONS` distinct non-empty
/// hosts came before it in the whole input.
pub proof fn law_new_host_listed_below_cap(s: Seq<RawConnectionView>, i: int)
    requires
        0 <= i < s.len(),
        s[i].host.len() > 0,
        forall|j: int| 0 <= j < i ==> (#[trigger] s[j]).host != s[i].host,
        hosts_before(s, i).len() < MAX_LISTED_CONNECTIONS,
    ensures
        exists|k: int|
            0 <= k < connection_list(s).len() && #[trigger] connection_list(s)[k] == connection_item(
                s[i],
            ),
        exists|k: int|
            0 <= k < connection_list(s).len() && (#[trigger] connection_list(s)[k]).host == s[i].host,
{
    let fi = first_sightings(s.take(i));
    let hs = fi.map_values(|c: RawConnectionView| c.host);
    lemma_first_sightings(s.take(i));
    // the hosts listed for the prefix are distinct, and are the hosts seen before `i`
    assert(hs.no_duplicates()) by {
        assert forall|a: int, b: int| 0 <= a < hs.len() && 0 <= b < hs.len() && a != b implies hs[a] != hs[b] by {
            if a < b {
                assert(fi[a].host != fi[b].host);
            } else {
                assert(fi[b].host != fi[a].host);
            }
        }
    }
    assert forall|h: Seq<char>| hs.to_set().contains(h) <==> hosts_before(s, i).contains(h) by {
        if h.len() > 0 {
            lemma_sighted(s, i, h);
        }
        if hs.to_set().contains(h) {
            let k = choose|k: int| 0 <= k < hs.len() && hs[k] == h;
            assert(fi[k].host == h);
            assert(h.len() > 0);
            lemma_sighted(s, i, h);
        }
        if hosts_before(s, i).contains(h) {
            let k = choose|k: int| 0 <= k < fi.len() && (#[trigger] fi[k]).host == h;
            assert(hs[k] == h);
        }
    }
    assert(hs.to_set() =~= hosts_before(s, i));
    hs.unique_seq_to_set();
    assert(fi.len() < MAX_LISTED_CONNECTIONS);
    // the connection at `i` is the next first sighting
    let t = s.take(i + 1);
    assert(t.drop_last() =~= s.take(i));
    assert(t.last() == s[i]);
    assert(!seen_before(t, i)) by {
        if seen_before(t, i) {
            let j = choose|j: int| 0 <= j < i && (#[trigger] t[j]).host == t[i].host;
            assert(t[j] == s[j]);
        }
    }
    assert(first_sightings(t) == fi.push(s[i]));
    lemma_first_sightings_prefix(s, i + 1);
    let f = first_sightings(s);
    let k = fi.len() as int;
    assert(first_sightings(t)[k] == s[i]);
    assert(f[k] == s[i]);
    let l = listed(s);
    assert(l[k] == connection_item(s[i]));
    assert(connection_list(s)[k] == l[k]);
}

proof fn lemma_first_sightings(s: Seq<RawConnectionView>)
    ensures
        forall|i: int| 0 <= i < first_sightings(s).len() ==> (#[trigger] first_sightings(s)[i]).host.len() > 0,
        forall|i: int| 0 <= i < first_sightings(s).len() ==> exists|j: int| 0 <= j < s.len() && (#[trigger] s[j]).host == (#[trigger] first_sightings(s)[i]).host,
        forall|i: int, j: int|
            0 <= i < j < first_sightings(s).len() ==> (#[trigger] first_sightings(s)[i]).host
                != (#[trigger] first_sightings(s)[j]).host,
    decreases s.len(),
{
    if s.len() > 0 {
        let init = s.drop_last();
        lemma_first_sightings(init);
        let p = first_sightings(init);
        let f = first_sightings(s);
        assert forall|i: int| 0 <= i < f.len() implies exists|j: int| 0 <= j < s.len() && (#[trigger] s[j]).host == (#[trigger] f[i]).host by {
            if i < p.len() {
                assert(f[i] == p[i]);
                let j = choose|j: int| 0 <= j < init.len() && (#[trigger] init[j]).host == p[i].host;
                assert(s[j] == init[j]);
            } else {
                assert(f[i] == s[s.len() - 1]);
            }
        }
        assert forall|i: int, j: int| 0 <= i < j < f.len() implies (#[trigger] f[i]).host != (#[trigger] f[j]).host by {
            if j < p.len() {
                assert(f[i] == p[i] && f[j] == p[j]);
            } else {
                assert(f[i] == p[i]);
                assert(f[j] == s.last());
                let k = choose|k: int| 0 <= k < init.len() && (#[trigger] init[k]).host == p[i].host;
                assert(s[k] == init[k]);
            }
        }
        assert forall|i: int| 0 <= i < f.len() implies (#[trigger] f[i]).host.len() > 0 by {
            if i < p.len() {
                assert(f[i] == p[i]);
            }
        }
    }
}

// ---------------------------------------------------------------------
// Laws of adding and removing rules
// ---------------------------------------------------------------------

/// No two rules of `rules` name the same domain.
pub open spec fn domains_distinct(rules: Seq<RuleView>) -> bool {
    forall|i: int, j: int|
        0 <= i < j < rules.len() ==> (#[trigger] rules[i]).domain != (#[trigger] rules[j]).domain
}

proof fn lemma_filter_keeps_all(s: Seq<RuleView>, pred: spec_fn(RuleView) -> bool)
    requires
        forall|i: int| 0 <= i < s.len() ==> pred(#[trigger] s[i]),
    ensures
        s.filter(pred) == s,
    decreases s.len(),
{
    reveal_with_fuel(Seq::filter, 1);
    if s.len() > 0 {
        lemma_filter_keeps_all(s.drop_last(), pred);
        assert(s.drop_last().push(s.last()) =~= s);
    }
}

proof fn lemma_filter_all_pass(s: Seq<RuleView>, pred: spec_fn(RuleView) -> bool)
    ensures
        forall|i: int| 0 <= i < s.filter(pred).len() ==> pred(#[trigger] s.filter(pred)[i]),
{
    assert forall|i: int| 0 <= i < s.filter(pred).len() implies pred(#[trigger] s.filter(pred)[i]) by {
        s.lemma_filter_pred(pred, i);
    }
}

proof fn lemma_filter_of_filter(s: Seq<RuleView>, p: spec_fn(RuleView) -> bool, q: spec_fn(RuleView) -> bool)
    requires
        forall|r: RuleView| #[trigger] q(r) ==> p(r),
    ensures
        s.filter(p).filter(q) == s.filter(q),
    decreases s.len(),
{
    reveal_with_fuel(Seq::filter, 1);
    if s.len() > 0 {
        lemma_filter_of_filter(s.drop_last(), p, q);
        let sub = s.drop_last().filter(p);
        if p(s.last()) {
            assert(sub.push(s.last()).drop_last() =~= sub);
        }
    }
}

proof fn lemma_filter_single(x: RuleView, pred: spec_fn(RuleView) -> bool)
    ensures
        seq![x].filter(pred) == if pred(x) {
            seq![x]
        } else {
            Seq::<RuleView>::empty()
        },
{
    reveal_with_fuel(Seq::filter, 2);
    assert(seq![x].drop_last() =~= Seq::<RuleView>::empty());
}

proof fn lemma_filter_distinct(s: Seq<RuleView>, pred: spec_fn(RuleView) -> bool)
    requires
        domains_distinct(s),
    ensures
        domains_distinct(s.filter(pred)),
    decreases s.len(),
{
    reveal_with_fuel(Seq::filter, 1);
    if s.len() > 0 {
        let init = s.drop_last();
        assert(domains_distinct(init)) by {
            assert forall|i: int, j: int| 0 <= i < j < init.len() implies (#[trigger] init[i]).domain
                != (#[trigger] init[j]).domain by {
                assert(init[i] == s[i] && init[j] == s[j]);
            }
        }
        lemma_filter_distinct(init, pred);
        let sub = init.filter(pred);
        if pred(s.last()) {
            let out = sub.push(s.last());
            assert forall|i: int, j: int| 0 <= i < j < out.len() implies (#[trigger] out[i]).domain
                != (#[trigger] out[j]).domain by {
                if j == out.len() - 1 {
                    assert(out[i] == sub[i]);
                    assert(sub.contains(sub[i]));
                    init.lemma_filter_contains_rev(pred, sub[i]);
                    let k = choose|k: int| 0 <= k < init.len() && init[k] == sub[i];
                    assert(s[k] == init[k]);
                    assert(s[k].domain != s[s.len() - 1].domain);
                } else {
                    assert(out[i] == sub[i] && out[j] == sub[j]);
                }
            }
        }
    }
}

/// Reading back a write: after adding `domain -> action`, the first rule is
/// exactly that rule and no later rule names `domain`.
pub proof fn law_upsert_reads_back(rules: Seq<RuleView>, domain: Seq<char>, action: Seq<char>)
    ensures
        upserted(rules, domain, action)[0] == (RuleView { domain, action }),
        forall|i: int|
            1 <= i < upserted(rules, domain, action).len() ==> (#[trigger] upserted(
                rules,
                domain,
                action,
            )[i]).domain != domain,
{
    let pred = |r: RuleView| r.domain != domain;
    lemma_filter_all_pass(rules, pred);
    let u = upserted(rules, domain, action);
    assert forall|i: int| 1 <= i < u.len() implies (#[trigger] u[i]).domain != domain by {
        assert(u[i] == rules.filter(pred)[i - 1]);
    }
}

/// Removing a domain right after adding a rule for it leaves what removing
/// it alone leaves.
pub proof fn law_remove_undoes_upsert(rules: Seq<RuleView>, domain: Seq<char>, action: Seq<char>)
    ensures
        without_domain(upserted(rules, domain, action), domain) == without_domain(rules, domain),
{
    let pred = |r: RuleView| r.domain != domain;
    let x = RuleView { domain, action };
    let rest = rules.filter(pred);
    Seq::filter_distributes_over_add(seq![x], rest, pred);
    lemma_filter_single(x, pred);
    lemma_filter_all_pass(rules, pred);
    lemma_filter_keeps_all(rest, pred);
    assert(Seq::<RuleView>::empty() + rest =~= rest);
}

/// The last write wins: adding a rule for a domain twice leaves the second
/// action, as if the first had never been added; adding the same rule twice
/// is the same as adding it once.
pub proof fn law_upsert_last_wins(
    rules: Seq<RuleView>,
    domain: Seq<char>,
    first: Seq<char>,
    second: Seq<char>,
)
    ensures
        upserted(upserted(rules, domain, first), domain, second) == upserted(
            rules,
            domain,
            second,
        ),
        upserted(upserted(rules, domain, second), domain, second) == upserted(
            rules,
            domain,
            second,
        ),
{
    law_remove_undoes_upsert(rules, domain, first);
    law_remove_undoes_upsert(rules, domain, second);
}

/// Removing a domain twice is removing it once.
pub proof fn law_remove_idempotent(rules: Seq<RuleView>, domain: Seq<char>)
    ensures
        without_domain(without_domain(rules, domain), domain) == without_domain(rules, domain),
{
    let pred = |r: RuleView| r.domain != domain;
    lemma_filter_all_pass(rules, pred);
    lemma_filter_keeps_all(rules.filter(pred), pred);
}

/// Adding or removing a rule for one domain leaves the rules for any other
/// domain as they were, in their order.
pub proof fn law_other_domains_untouched(
    rules: Seq<RuleView>,
    domain: Seq<char>,
    action: Seq<char>,
    other: Seq<char>,
)
    requires
        other != domain,
    ensures
        upserted(rules, domain, action).filter(|r: RuleView| r.domain == other) == rules.filter(
            |r: RuleView| r.domain == other,
        ),
        without_domain(rules, domain).filter(|r: RuleView| r.domain == other) == rules.filter(
            |r: RuleView| r.domain == other,
        ),
{
    let p = |r: RuleView| r.domain != domain;
    let q = |r: RuleView| r.domain == other;
    let x = RuleView { domain, action };
    lemma_filter_of_filter(rules, p, q);
    Seq::filter_distributes_over_add(seq![x], rules.filter(p), q);
    lemma_filter_single(x, q);
    assert(Seq::<RuleView>::empty() + rules.filter(p).filter(q) =~= rules.filter(p).filter(q));
}

/// Rules that name each domain at most once keep doing so when a rule is
/// added or removed.
pub proof fn law_domains_stay_distinct(rules: Seq<RuleView>, domain: Seq<char>, action: Seq<char>)
    requires
        domains_distinct(rules),
    ensures
        domains_distinct(upserted(rules, domain, action)),
        domains_distinct(without_domain(rules, domain)),
{
    let pred = |r: RuleView| r.domain != domain;
    lemma_filter_distinct(rules, pred);
    law_upsert_reads_back(rules, domain, action);
    let u = upserted(rules, domain, action);
    let rest = rules.filter(pred);
    assert forall|i: int, j: int| 0 <= i < j < u.len() implies (#[trigger] u[i]).domain != (
    #[trigger] u[j]).domain by {
        if i > 0 {
            assert(u[i] == rest[i - 1] && u[j] == rest[j - 1]);
        }
    }
}

} // verus!
