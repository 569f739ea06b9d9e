//! The system proxy of the machine's network service: which service it is,
//! read from the answers of `route` and `networksetup`, and the
//! `networksetup` invocations that switch its web proxies.
use vstd::prelude::*;

use crate::config::MIXED_PORT;
use crate::text::{
    chars_of, contains_chars, contains_seq, copy_range, decimal, decimal_chars,
    first_prefixed_value, first_prefixed_value_of, has_char, has_prefix, index_of, lines,
    push_str, split_lines, starts_with, string_of, string_views, trim, trim_chars,
    views, before_char, before_char_chars, find_char, lemma_index_of,
};

verus! {

// ---------------------------------------------------------------------
// Network services
// ---------------------------------------------------------------------

/// The service a line of `networksetup -listallnetworkservices` names:
/// the line trimmed, unless it is empty, starts with `*` (a disabled
/// service) or mentions `Serial Port`.
pub open spec fn service_name(line: Seq<char>) -> Option<Seq<char>> {
    let t = trim(line);
    if t.len() == 0 || has_prefix(t, "*"@) || contains_seq(t, "Serial Port"@) {
        None
    } else {
        Some(t)
    }
}

/// The services named by the lines `ls`, in order.
pub open spec fn service_names(ls: Seq<Seq<char>>) -> Seq<Seq<char>>
    decreases ls.len(),
{
    if ls.len() == 0 {
        Seq::empty()
    } else {
        service_names(ls.drop_last()) + match service_name(ls.last()) {
            Some(n) => seq![n],
            None => Seq::empty(),
        }
    }
}

/// The services in the answer of `networksetup -listallnetworkservices`,
/// whose first line is a notice and is skipped.
pub open spec fn listed_services(output: Seq<char>) -> Seq<Seq<char>> {
    let ls = lines(output);
    if ls.len() == 0 {
        Seq::empty()
    } else {
        service_names(ls.skip(1))
    }
}

/// Message returned when no usable network service is listed.
pub open spec fn no_service_message() -> Seq<char> {
    "未找到可用网络服务"@
}

/// The usable network services in the answer of
/// `networksetup -listallnetworkservices`; an error when there is none.
pub fn parse_network_services(output: &str) -> (r: Result<Vec<String>, String>)
    ensures
        listed_services(output@).len() == 0 ==> (r matches Err(e) && e@ == no_service_message()),
        listed_services(output@).len() > 0 ==> (r matches Ok(v) && string_views(v@)
            == listed_services(output@)),
{
    let chars = chars_of(output);
    let ls = split_lines(&chars);
    let ghost all = views(ls@);
    let star = chars_of("*");
    let serial = chars_of("Serial Port");
    let mut services: Vec<String> = Vec::new();
    if ls.len() > 0 {
        let ghost body = all.skip(1);
        let mut i: usize = 1;
        assert(body.take(0) =~= Seq::<Seq<char>>::empty());
        while i < ls.len()
            invariant
                1 <= i <= ls@.len(),
                all == views(ls@),
                body == all.skip(1),
                star@ == "*"@,
                serial@ == "Serial Port"@,
                string_views(services@) == service_names(body.take(i - 1)),
            decreases ls@.len() - i,
        {
            let ghost before = string_views(services@);
            assert(body.take(i as int).drop_last() =~= body.take(i - 1));
            assert(body.take(i as int).last() == ls@[i as int]@);
            let t = trim_chars(&ls[i]);
            if !(t.len() == 0 || starts_with(&t, &star) || contains_chars(&t, &serial)) {
                services.push(string_of(&t));
                assert(string_views(services@) =~= before.push(t@));
                assert(string_views(services@) =~= service_names(body.take(i as int)));
            } else {
                assert(service_names(body.take(i as int)) =~= before);
            }
            i += 1;
        }
        assert(body.take(ls@.len() - 1) =~= body);
    }
    if services.len() == 0 {
        return Err("未找到可用网络服务".to_owned());
    }
    Ok(services)
}

/// The interface of the default route in the answer of `route -n get default`.
pub open spec fn default_interface_of(output: Seq<char>) -> Option<Seq<char>> {
    first_prefixed_value(lines(output), "interface:"@)
}

/// The interface of the default route, from the answer of `route -n get default`.
pub fn parse_default_interface(output: &str) -> (r: Option<String>)
    ensures
        r matches Some(i) ==> default_interface_of(output@) == Some(i@),
        r is None ==> default_interface_of(output@) is None,
{
    first_prefixed_value_of(output, "interface:")
}

/// The name on a heading line `(n) Name` of `networksetup -listnetworkserviceorder`:
/// the text after the first `)` up to the next one, trimmed.
pub open spec fn heading_name(t: Seq<char>) -> Seq<char> {
    trim(before_char(t.skip(index_of(t, ')') + 1), ')'))
}

/// Whether a trimmed line of the service order is a heading line.
pub open spec fn is_heading(t: Seq<char>) -> bool {
    has_prefix(t, "("@) && t.contains(')')
}

/// Reading the service order from the line list `ls` on, the service last
/// named by a heading being `current`: the current service at the first
/// line that mentions `Device:` and `iface`; none when no line does.
pub open spec fn service_scan(ls: Seq<Seq<char>>, iface: Seq<char>, current: Option<Seq<char>>) -> Option<
    Seq<char>,
>
    decreases ls.len(),
{
    if ls.len() == 0 {
        None
    } else {
        let t = trim(ls[0]);
        if is_heading(t) {
            service_scan(ls.drop_first(), iface, Some(heading_name(t)))
        } else if contains_seq(t, "Device:"@) && contains_seq(t, iface) {
            current
        } else {
            service_scan(ls.drop_first(), iface, current)
        }
    }
}

/// The service of the interface `iface` in the answer of
/// `networksetup -listnetworkserviceorder`.
pub open spec fn service_for_interface_of(output: Seq<char>, iface: Seq<char>) -> Option<Seq<char>> {
    service_scan(lines(output), iface, None)
}

fn heading_name_chars(t: &[char]) -> (r: Vec<char>)
    requires
        t@.contains(')'),
    ensures
        r@ == heading_name(t@),
{
    let k = find_char(t, ')');
    proof {
        lemma_index_of(t@, ')');
        let w = choose|w: int| 0 <= w < t@.len() && t@[w] == ')';
        assert(k <= w);
    }
    let n = t.len();
    let rest = copy_range(t, k + 1, n);
    assert(rest@ =~= t@.skip(k + 1));
    let name = before_char_chars(&rest, ')');
    trim_chars(&name)
}

/// The service of the interface `iface`, from the answer of
/// `networksetup -listnetworkserviceorder`.
pub fn parse_service_for_interface(output: &str, iface: &str) -> (r: Option<String>)
    ensures
        r matches Some(s) ==> service_for_interface_of(output@, iface@) == Some(s@),
        r is None ==> service_for_interface_of(output@, iface@) is None,
{
    let chars = chars_of(output);
    let ls = split_lines(&chars);
    let ghost all = views(ls@);
    let open_paren = chars_of("(");
    let device = chars_of("Device:");
    let want = chars_of(iface);
    let mut current: Option<Vec<char>> = None;
    let mut i: usize = 0;
    assert(all.skip(0) =~= all);
    while i < ls.len()
        invariant
            i <= ls@.len(),
            all == views(ls@),
            all == lines(output@),
            open_paren@ == "("@,
            device@ == "Device:"@,
            want@ == iface@,
            service_scan(all.skip(i as int), iface@, match current {
                Some(c) => Some(c@),
                None => None,
            }) == service_for_interface_of(output@, iface@),
        decreases ls@.len() - i,
    {
        let ghost rest = all.skip(i as int);
        assert(rest[0] == ls@[i as int]@);
        assert(rest.drop_first() =~= all.skip(i + 1));
        let t = trim_chars(&ls[i]);
        if starts_with(&t, &open_paren) && has_char(&t, ')') {
            let name = heading_name_chars(&t);
            current = Some(name);
        } else if contains_chars(&t, &device) && contains_chars(&t, &want) {
            return match current {
                Some(c) => Some(string_of(&c)),
                None => None,
            };
        }
        i += 1;
    }
    assert(all.skip(i as int) =~= Seq::<Seq<char>>::empty());
    None
}

/// Message returned when no network service can be chosen.
pub open spec fn no_primary_service_message() -> Seq<char> {
    "未找到主网络服务"@
}

/// The service whose proxy is switched: the service of the default route's
/// interface when it was found, else the first listed service.
pub fn primary_network_service(
    default_service: Option<String>,
    listed: Result<Vec<String>, String>,
) -> (r: Result<String, String>)
    ensures
        default_service matches Some(s) ==> r == Ok::<String, String>(s),
        default_service is None ==> match listed {
            Err(e) => r == Err::<String, String>(e),
            Ok(v) => if v@.len() > 0 {
                r matches Ok(s) && s@ == v@[0]@
            } else {
                r matches Err(e) && e@ == no_primary_service_message()
            },
        },
{
    if let Some(service) = default_service {
        return Ok(service);
    }
    match listed {
        Err(e) => Err(e),
        Ok(v) => {
            if v.len() > 0 {
                Ok(v[0].clone())
            } else {
                Err("未找到主网络服务".to_owned())
            }
        },
    }
}

// ---------------------------------------------------------------------
// Switching the web proxies
// ---------------------------------------------------------------------

/// One `networksetup` invocation; when `checked`, its failure stops the
/// switch with `proxy_failure_message`, else only a failure to run it does.
#[derive(Debug, Clone, PartialEq, Eq)]
pub struct ProxyCommand {
    pub args: Vec<String>,
    pub checked: bool,
}

/// A `networksetup` invocation as plain text.
pub struct ProxyCommandView {
    pub args: Seq<Seq<char>>,
    pub checked: bool,
}

impl View for ProxyCommand {
    type V = ProxyCommandView;

    open spec fn view(&self) -> ProxyCommandView {
        ProxyCommandView { args: string_views(self.args@), checked: self.checked }
    }
}

/// The message of a failed switch of `service`.
pub open spec fn proxy_failure_text(service: Seq<char>) -> Seq<char> {
    "设置 "@ + service + " 代理失败"@
}

/// The message of a failed switch of `service`.
pub fn proxy_failure_message(service: &str) -> (r: String)
    ensures
        r@ == proxy_failure_text(service@),
{
    let mut m: Vec<char> = Vec::new();
    push_str(&mut m, "设置 ");
    push_str(&mut m, service);
    push_str(&mut m, " 代理失败");
    string_of(&m)
}

/// What one invocation's outcome means for the switch of `service`:
/// `outcome` is `Err` with the message of a failure to run it, or `Ok` with
/// whether it exited successfully. A checked invocation stops the switch with
/// `proxy_failure_text` (and the run failure after `: `) when it could not run
/// or failed; an unchecked one only when it could not run, with that message.
pub fn command_outcome(checked: bool, service: &str, outcome: Result<bool, String>) -> (r: Result<
    (),
    String,
>)
    ensures
        checked ==> match outcome {
            Err(e) => r matches Err(m) && m@ == proxy_failure_text(service@) + ": "@ + e@,
            Ok(true) => r is Ok,
            Ok(false) => r matches Err(m) && m@ == proxy_failure_text(service@),
        },
        !checked ==> match outcome {
            Err(e) => r == Err::<(), String>(e),
            Ok(_) => r is Ok,
        },
{
    if checked {
        match outcome {
            Err(e) => {
                let mut m: Vec<char> = Vec::new();
                push_str(&mut m, "设置 ");
                push_str(&mut m, service);
                push_str(&mut m, " 代理失败");
                push_str(&mut m, ": ");
                push_str(&mut m, e.as_str());
                Err(string_of(&m))
            },
            Ok(true) => Ok(()),
            Ok(false) => Err(proxy_failure_message(service)),
        }
    } else {
        match outcome {
            Err(e) => Err(e),
            Ok(_) => Ok(()),
        }
    }
}

/// The invocations that switch the web proxies of `service`: to turn them
/// on, point the web and secure web proxy at the mixed port (checked), then
/// turn both on; to turn them off, turn both off.
pub open spec fn proxy_plan(service: Seq<char>, enabled: bool) -> Seq<ProxyCommandView> {
    let state = if enabled {
        "on"@
    } else {
        "off"@
    };
    let switches = seq![
        ProxyCommandView { args: seq!["-setwebproxystate"@, service, state], checked: false },
        ProxyCommandView {
            args: seq!["-setsecurewebproxystate"@, service, state],
            checked: false,
        },
    ];
    if enabled {
        seq![
            ProxyCommandView {
                args: seq!["-setwebproxy"@, service, "127.0.0.1"@, decimal(MIXED_PORT as nat)],
                checked: true,
            },
            ProxyCommandView {
                args: seq!["-setsecurewebproxy"@, service, "127.0.0.1"@, decimal(MIXED_PORT as nat)],
                checked: true,
            },
        ] + switches
    } else {
        switches
    }
}

/// The `networksetup` invocations that switch the web proxies of `service`.
pub fn proxy_commands(service: &str, enabled: bool) -> (r: Vec<ProxyCommand>)
    ensures
        r@.map_values(|c: ProxyCommand| c@) == proxy_plan(service@, enabled),
{
    let port = decimal_chars(MIXED_PORT as u64);
    let mut cmds: Vec<ProxyCommand> = Vec::new();
    if enabled {
        let mut a: Vec<String> = Vec::new();
        a.push("-setwebproxy".to_owned());
        a.push(service.to_owned());
        a.push("127.0.0.1".to_owned());
        a.push(string_of(&port));
        let mut b: Vec<String> = Vec::new();
        b.push("-setsecurewebproxy".to_owned());
        b.push(service.to_owned());
        b.push("127.0.0.1".to_owned());
        b.push(string_of(&port));
        assert(string_views(a@) =~= seq!["-setwebproxy"@, service@, "127.0.0.1"@, decimal(MIXED_PORT as nat)]);
        assert(string_views(b@) =~= seq!["-setsecurewebproxy"@, service@, "127.0.0.1"@, decimal(MIXED_PORT as nat)]);
        cmds.push(ProxyCommand { args: a, checked: true });
        cmds.push(ProxyCommand { args: b, checked: true });
    }
    let state = if enabled {
        "on"
    } else {
        "off"
    };
    let mut c: Vec<String> = Vec::new();
    c.push("-setwebproxystate".to_owned());
    c.push(service.to_owned());
    c.push(state.to_owned());
    let mut d: Vec<String> = Vec::new();
    d.push("-setsecurewebproxystate".to_owned());
    d.push(service.to_owned());
    d.push(state.to_owned());
    let ghost st = if enabled {
        "on"@
    } else {
        "off"@
    };
    assert(string_views(c@) =~= seq!["-setwebproxystate"@, service@, st]);
    assert(string_views(d@) =~= seq!["-setsecurewebproxystate"@, service@, st]);
    cmds.push(ProxyCommand { args: c, checked: false });
    cmds.push(ProxyCommand { args: d, checked: false });
    assert(cmds@.map_values(|c: ProxyCommand| c@) =~= proxy_plan(service@, enabled));
    cmds
}

} // verus!
