use flowroute::dns_check::parse_resolved_ipv4;
use flowroute::sysproxy::{
    parse_default_interface, parse_network_services, parse_service_for_interface,
    command_outcome, primary_network_service, proxy_commands, proxy_failure_message, ProxyCommand,
};

fn strings(v: &[&str]) -> Vec<String> {
    v.iter().map(|s| s.to_string()).collect()
}

#[test]
fn resolved_address_first_non_empty_line() {
    let out = "name: example.com\nip_address: 93.184.216.34\nip_address: 1.2.3.4\n";
    assert_eq!(parse_resolved_ipv4(out), Some("93.184.216.34".to_string()));
    let out = "  ip_address:    \r\n  ip_address: 10.1.2.3 \r\n";
    assert_eq!(parse_resolved_ipv4(out), Some("10.1.2.3".to_string()));
    assert_eq!(parse_resolved_ipv4(""), None);
    assert_eq!(parse_resolved_ipv4("name: nowhere.invalid\n"), None);
}

#[test]
fn network_services_skip_header_disabled_and_serial() {
    let out = "An asterisk (*) denotes that a network service is disabled.\nWi-Fi\n*Bluetooth PAN\nUSB 10/100 Serial Port\n\n  Thunderbolt Bridge  \n";
    assert_eq!(parse_network_services(out), Ok(strings(&["Wi-Fi", "Thunderbolt Bridge"])));
}

#[test]
fn network_services_error_when_none() {
    let msg = "未找到可用网络服务".to_string();
    assert_eq!(parse_network_services(""), Err(msg.clone()));
    assert_eq!(parse_network_services("Wi-Fi\n"), Err(msg.clone()));
    assert_eq!(parse_network_services("header\n*Off\n"), Err(msg));
}

#[test]
fn default_interface_from_route() {
    let out = "   route to: default\ndestination: default\n  interface: en0\n      flags: <UP,GATEWAY>\n";
    assert_eq!(parse_default_interface(out), Some("en0".to_string()));
    assert_eq!(parse_default_interface("route: writing to routing socket: not in table\n"), None);
}

#[test]
fn service_for_interface_follows_headings() {
    let out = "(1) Wi-Fi\n  Device: en0\n(2) Ethernet\n  Device: en1\n";
    assert_eq!(parse_service_for_interface(out, "en1"), Some("Ethernet".to_string()));
    assert_eq!(parse_service_for_interface(out, "en0"), Some("Wi-Fi".to_string()));
    assert_eq!(parse_service_for_interface(out, "en9"), None);
    assert_eq!(parse_service_for_interface("Device: en0\n", "en0"), None);
}

#[test]
fn service_lines_in_parentheses_count_as_headings() {
    // `networksetup` prints the device inside parentheses; such a line is read
    // as a heading, so it never matches the interface.
    let out = "(1) Wi-Fi\n(Hardware Port: Wi-Fi, Device: en0)\n";
    assert_eq!(parse_service_for_interface(out, "en0"), None);
}

#[test]
fn primary_service_choice() {
    assert_eq!(
        primary_network_service(Some("Ethernet".to_string()), Err("x".to_string())),
        Ok("Ethernet".to_string())
    );
    assert_eq!(
        primary_network_service(None, Ok(strings(&["Wi-Fi", "USB"]))),
        Ok("Wi-Fi".to_string())
    );
    assert_eq!(primary_network_service(None, Err("boom".to_string())), Err("boom".to_string()));
    assert_eq!(primary_network_service(None, Ok(vec![])), Err("未找到主网络服务".to_string()));
}

#[test]
fn proxy_commands_enable_and_disable() {
    assert_eq!(
        proxy_commands("Wi-Fi", true),
        vec![
            ProxyCommand { args: strings(&["-setwebproxy", "Wi-Fi", "127.0.0.1", "17890"]), checked: true },
            ProxyCommand { args: strings(&["-setsecurewebproxy", "Wi-Fi", "127.0.0.1", "17890"]), checked: true },
            ProxyCommand { args: strings(&["-setwebproxystate", "Wi-Fi", "on"]), checked: false },
            ProxyCommand { args: strings(&["-setsecurewebproxystate", "Wi-Fi", "on"]), checked: false },
        ]
    );
    assert_eq!(
        proxy_commands("Wi-Fi", false),
        vec![
            ProxyCommand { args: strings(&["-setwebproxystate", "Wi-Fi", "off"]), checked: false },
            ProxyCommand { args: strings(&["-setsecurewebproxystate", "Wi-Fi", "off"]), checked: false },
        ]
    );
    assert_eq!(proxy_failure_message("Wi-Fi"), "设置 Wi-Fi 代理失败");
}

#[test]
fn command_outcomes() {
    assert_eq!(command_outcome(true, "Wi-Fi", Ok(true)), Ok(()));
    assert_eq!(command_outcome(true, "Wi-Fi", Ok(false)), Err("设置 Wi-Fi 代理失败".to_string()));
    assert_eq!(
        command_outcome(true, "Wi-Fi", Err("no such file".to_string())),
        Err("设置 Wi-Fi 代理失败: no such file".to_string())
    );
    assert_eq!(command_outcome(false, "Wi-Fi", Ok(false)), Ok(()));
    assert_eq!(command_outcome(false, "Wi-Fi", Err("e".to_string())), Err("e".to_string()));
}
