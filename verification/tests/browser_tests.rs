use flowroute::browser::{launch_args, page_step, supported_browsers, tab_domain, BrowserKind};

#[test]
fn browser_names() {
    assert_eq!(BrowserKind::Edge.label(), "Microsoft Edge");
    assert_eq!(BrowserKind::Chrome.label(), "Google Chrome");
    assert_eq!(BrowserKind::Edge.bundle_id(), "com.microsoft.edgemac");
    assert_eq!(BrowserKind::Chrome.bundle_id(), "com.google.Chrome");
    assert_eq!(BrowserKind::Edge.profile_dir_name(), "edge");
    assert_eq!(BrowserKind::Chrome.profile_dir_name(), "chrome");
}

#[test]
fn supported_browsers_edge_then_chrome() {
    assert_eq!(supported_browsers(), vec![BrowserKind::Edge, BrowserKind::Chrome]);
}

#[test]
fn active_tab_script_names_the_browser() {
    assert_eq!(
        BrowserKind::Chrome.current_tab_script(),
        r#"tell application "Google Chrome" to if (count of windows) > 0 then return URL of active tab of front window"#
    );
}

#[test]
fn tab_answer_decides() {
    assert_eq!(tab_domain("  \n"), None);
    assert_eq!(tab_domain(""), None);
    assert_eq!(tab_domain("https://GitHub.com/rust-lang\n"), Some(Some("github.com".to_string())));
    assert_eq!(tab_domain("not a url"), Some(None));
}

fn fixed(bundle: &str, profile: &str) -> Vec<String> {
    vec![
        "-n".to_string(),
        "-b".to_string(),
        bundle.to_string(),
        "--args".to_string(),
        "--proxy-server=http://127.0.0.1:17890".to_string(),
        format!("--user-data-dir={profile}"),
        "--no-first-run".to_string(),
        "--new-window".to_string(),
    ]
}

#[test]
fn launch_without_target() {
    assert_eq!(launch_args(BrowserKind::Edge, "/d/edge", None), fixed("com.microsoft.edgemac", "/d/edge"));
    assert_eq!(launch_args(BrowserKind::Edge, "/d/edge", Some("   ")), fixed("com.microsoft.edgemac", "/d/edge"));
}

#[test]
fn launch_with_target_adds_scheme_when_missing() {
    let mut expected = fixed("com.google.Chrome", "/p");
    expected.push("https://example.com".to_string());
    assert_eq!(launch_args(BrowserKind::Chrome, "/p", Some(" example.com ")), expected);
    let mut expected = fixed("com.google.Chrome", "/p");
    expected.push("http://x.org/a".to_string());
    assert_eq!(launch_args(BrowserKind::Chrome, "/p", Some(" http://x.org/a\n")), expected);
}

#[test]
fn failed_script_asks_next_browser() {
    assert_eq!(page_step(false, "https://x.com"), None);
    assert_eq!(page_step(true, "  "), None);
    assert_eq!(page_step(true, "https://X.com/a"), Some(Some("x.com".to_string())));
}
