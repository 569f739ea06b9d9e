//! The browsers that are launched through the proxy, and what is passed to them.
use vstd::prelude::*;

use crate::clash_api::{normalize_domain, normalized_domain};
use crate::config::MIXED_PORT;
use crate::text::{
    chars_of, decimal, decimal_chars, has_prefix, push_chars, push_str, starts_with, string_of,
    string_views, trim, trim_chars,
};

verus! {

/// A browser that can be launched with the proxy.
#[derive(Debug, Clone, Copy, PartialEq, Eq)]
pub enum BrowserKind {
    Edge,
    Chrome,
}

impl BrowserKind {
    /// The application name of the browser.
    pub open spec fn label_text(self) -> Seq<char> {
        match self {
            BrowserKind::Edge => "Microsoft Edge"@,
            BrowserKind::Chrome => "Google Chrome"@,
        }
    }

    /// The bundle identifier of the browser.
    pub open spec fn bundle_id_text(self) -> Seq<char> {
        match self {
            BrowserKind::Edge => "com.microsoft.edgemac"@,
            BrowserKind::Chrome => "com.google.Chrome"@,
        }
    }

    /// The name of the browser's own profile directory.
    pub open spec fn profile_dir_text(self) -> Seq<char> {
        match self {
            BrowserKind::Edge => "edge"@,
            BrowserKind::Chrome => "chrome"@,
        }
    }

    /// The script that asks the browser for the URL of its active tab.
    pub open spec fn current_tab_script_text(self) -> Seq<char> {
        "tell application \""@ + self.label_text()
            + "\" to if (count of windows) > 0 then return URL of active tab of front window"@
    }

    /// The application name of the browser.
    pub fn label(self) -> (r: &'static str)
        ensures
            r@ == self.label_text(),
    {
        match self {
            BrowserKind::Edge => "Microsoft Edge",
            BrowserKind::Chrome => "Google Chrome",
        }
    }

    /// The bundle identifier of the browser.
    pub fn bundle_id(self) -> (r: &'static str)
        ensures
            r@ == self.bundle_id_text(),
    {
        match self {
            BrowserKind::Edge => "com.microsoft.edgemac",
            BrowserKind::Chrome => "com.google.Chrome",
        }
    }

    /// The script that asks the browser for the URL of its active tab.
    pub fn current_tab_script(self) -> (r: String)
        ensures
            r@ == self.current_tab_script_text(),
    {
        let mut s: Vec<char> = Vec::new();
        push_str(&mut s, "tell application \"");
        push_str(&mut s, self.label());
        push_str(
            &mut s,
            "\" to if (count of windows) > 0 then return URL of active tab of front window",
        );
        string_of(&s)
    }

    /// The name of the browser's own profile directory.
    pub fn profile_dir_name(self) -> (r: &'static str)
        ensures
            r@ == self.profile_dir_text(),
    {
        match self {
            BrowserKind::Edge => "edge",
            BrowserKind::Chrome => "chrome",
        }
    }
}

/// The browsers that can be launched, in the order they are asked for their active tab.
pub fn supported_browsers() -> (r: Vec<BrowserKind>)
    ensures
        r@ == seq![BrowserKind::Edge, BrowserKind::Chrome],
{
    let r = vec![BrowserKind::Edge, BrowserKind::Chrome];
    assert(r@ =~= seq![BrowserKind::Edge, BrowserKind::Chrome]);
    r
}

/// What the answer of a browser to the active-tab script decides: none
/// when the answer is blank (ask the next browser), else the domain of the
/// answer, if it names one.
pub fn tab_domain(answer: &str) -> (r: Option<Option<String>>)
    ensures
        trim(answer@).len() == 0 ==> r is None,
        trim(answer@).len() > 0 ==> (r matches Some(o) && (o matches Some(d) ==> normalized_domain(
            trim(answer@),
        ) == Some(d@)) && (o is None ==> normalized_domain(trim(answer@)) is None)),
{
    let a = chars_of(answer);
    let t = trim_chars(&a);
    if t.len() == 0 {
        None
    } else {
        let url = string_of(&t);
        Some(normalize_domain(url.as_str()))
    }
}

/// What one browser's run of the active-tab script decides: none when the
/// script failed (`succeeded` false) or answered blank, so the next browser
/// is asked; else the domain of the answer, if it names one.
pub fn page_step(succeeded: bool, answer: &str) -> (r: Option<Option<String>>)
    ensures
        !succeeded ==> r is None,
        succeeded && trim(answer@).len() == 0 ==> r is None,
        succeeded && trim(answer@).len() > 0 ==> (r matches Some(o) && (o matches Some(d)
            ==> normalized_domain(trim(answer@)) == Some(d@)) && (o is None ==> normalized_domain(
            trim(answer@),
        ) is None)),
{
    if !succeeded {
        return None;
    }
    tab_domain(answer)
}

/// The views of an optional string.
pub open spec fn opt_view(o: Option<&str>) -> Option<Seq<char>> {
    match o {
        Some(s) => Some(s@),
        None => None,
    }
}

/// The page to open: none for a missing or blank target; a target that
/// starts with `http://` or `https://` as it is, after trimming; any other
/// with `https://` in front.
pub open spec fn target_args(target: Option<Seq<char>>) -> Seq<Seq<char>> {
    match target {
        None => Seq::empty(),
        Some(t) => {
            let u = trim(t);
            if u.len() == 0 {
                Seq::empty()
            } else if has_prefix(u, "http://"@) || has_prefix(u, "https://"@) {
                seq![u]
            } else {
                seq!["https://"@ + u]
            }
        },
    }
}

/// The arguments of `open` that start a new instance of the browser with its
/// own profile, using the proxy's mixed port, on the target page if any.
pub open spec fn launch_args_text(
    browser: BrowserKind,
    profile_dir: Seq<char>,
    target: Option<Seq<char>>,
) -> Seq<Seq<char>> {
    seq![
        "-n"@,
        "-b"@,
        browser.bundle_id_text(),
        "--args"@,
        "--proxy-server=http://127.0.0.1:"@ + decimal(MIXED_PORT as nat),
        "--user-data-dir="@ + profile_dir,
        "--no-first-run"@,
        "--new-window"@,
    ] + target_args(target)
}

/// The launch arguments are the same eight fixed ones whatever the target,
/// followed by the page: nothing for a missing or blank target; the trimmed
/// target itself when it already starts with `http://` or `https://`; else
/// the trimmed target with `https://` in front.
pub proof fn law_launch_target(browser: BrowserKind, profile_dir: Seq<char>, t: Seq<char>)
    ensures
        launch_args_text(browser, profile_dir, None).len() == 8,
        launch_args_text(browser, profile_dir, None)[2] == browser.bundle_id_text(),
        launch_args_text(browser, profile_dir, None)[5] == "--user-data-dir="@ + profile_dir,
        forall|k: int|
            0 <= k < 8 ==> #[trigger] launch_args_text(browser, profile_dir, Some(t))[k]
                == launch_args_text(browser, profile_dir, None)[k],
        trim(t).len() == 0 ==> launch_args_text(browser, profile_dir, Some(t)).len() == 8,
        has_prefix(trim(t), "http://"@) || has_prefix(trim(t), "https://"@) ==> {
            &&& launch_args_text(browser, profile_dir, Some(t)).len() == 9
            &&& launch_args_text(browser, profile_dir, Some(t))[8] == trim(t)
        },
        trim(t).len() > 0 && !has_prefix(trim(t), "http://"@) && !has_prefix(trim(t), "https://"@)
            ==> {
            &&& launch_args_text(browser, profile_dir, Some(t)).len() == 9
            &&& launch_args_text(browser, profile_dir, Some(t))[8] == "https://"@ + trim(t)
        },
{
    if has_prefix(trim(t), "http://"@) || has_prefix(trim(t), "https://"@) {
        assert(trim(t).len() > 0) by {
            reveal_strlit("http://");
            reveal_strlit("https://");
        }
    }
}

/// The arguments of `open` that launch `browser` with its profile
/// directory `profile_dir`, on `target` if given.
pub fn launch_args(browser: BrowserKind, profile_dir: &str, target: Option<&str>) -> (r: Vec<
    String,
>)
    ensures
        string_views(r@) == launch_args_text(browser, profile_dir@, opt_view(target)),
{
    let mut args: Vec<String> = Vec::new();
    args.push("-n".to_owned());
    args.push("-b".to_owned());
    args.push(browser.bundle_id().to_owned());
    args.push("--args".to_owned());
    let mut proxy: Vec<char> = Vec::new();
    push_str(&mut proxy, "--proxy-server=http://127.0.0.1:");
    let port = decimal_chars(MIXED_PORT as u64);
    push_chars(&mut proxy, &port);
    args.push(string_of(&proxy));
    let mut profile: Vec<char> = Vec::new();
    push_str(&mut profile, "--user-data-dir=");
    push_str(&mut profile, profile_dir);
    args.push(string_of(&profile));
    args.push("--no-first-run".to_owned());
    args.push("--new-window".to_owned());
    let ghost fixed = string_views(args@);
    assert(fixed =~= launch_args_text(browser, profile_dir@, None));
    match target {
        None => {
            assert(string_views(args@) =~= launch_args_text(browser, profile_dir@, opt_view(target)));
        },
        Some(url) => {
            let u = chars_of(url);
            let t = trim_chars(&u);
            if t.len() == 0 {
                assert(string_views(args@) =~= launch_args_text(browser, profile_dir@, opt_view(target)));
            } else {
                let http = chars_of("http://");
                let https = chars_of("https://");
                if starts_with(&t, &http) || starts_with(&t, &https) {
                    args.push(string_of(&t));
                } else {
                    let mut full: Vec<char> = Vec::new();
                    push_str(&mut full, "https://");
                    push_chars(&mut full, &t);
                    args.push(string_of(&full));
                }
                assert(string_views(args@) =~= launch_args_text(browser, profile_dir@, opt_view(target)));
            }
        },
    }
    args
}

} // verus!
