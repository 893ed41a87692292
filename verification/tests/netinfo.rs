use netto::netinfo::{
    collect, default_route, dns_servers, local_ip_for, parse_default_route, parse_dns_servers,
    CommandOutput,
};

fn printed(text: &str) -> Option<CommandOutput> {
    Some(CommandOutput { success: true, stdout: text.as_bytes().to_vec() })
}

#[test]
fn collects_route_address_and_servers() {
    let info = collect(
        &printed("   route to: default\n    gateway: 10.0.0.1\r\n  interface: en0\n"),
        &printed("10.0.0.17\n"),
        &printed("DNS configuration\n\nresolver #1\n  nameserver[0] : 10.0.0.1\n  nameserver[1] : fe80::1%en0\n  nameserver[2] : 10.0.0.1\nresolver #2\n  nameserver[0] : 9.9.9.9\n"),
    );
    assert_eq!(info.local_v4, Some("10.0.0.17".to_string()));
    assert_eq!(info.router_v4, Some("10.0.0.1".to_string()));
    assert_eq!(info.dns_ips, vec!["10.0.0.1".to_string(), "fe80::1%en0".to_string()]);
    assert_eq!(info.local_v6, None);
    assert_eq!(info.router_v6, None);
    assert_eq!(info.vpn_interface, None);
}

#[test]
fn failed_tools_leave_nothing() {
    let failed = Some(CommandOutput { success: false, stdout: b"gateway: 1.1.1.1".to_vec() });
    let info = collect(&failed, &printed("10.0.0.17"), &None);
    assert_eq!(info.local_v4, None);
    assert_eq!(info.router_v4, None);
    assert!(info.dns_ips.is_empty());
}

#[test]
fn local_address_needs_an_interface() {
    let info = collect(&printed("gateway: 10.0.0.1\n"), &printed("10.0.0.17\n"), &None);
    assert_eq!(info.router_v4, Some("10.0.0.1".to_string()));
    assert_eq!(info.local_v4, None);
    let info = collect(&printed("interface: en0\n"), &printed(" \n"), &None);
    assert_eq!(info.local_v4, None);
}

#[test]
fn last_route_line_wins() {
    let (interface, gateway) = default_route(&printed("gateway: a\ninterface: b\ngateway: c\n"));
    assert_eq!(interface, Some("b".to_string()));
    assert_eq!(gateway, Some("c".to_string()));
    assert_eq!(parse_default_route("xgateway: a"), (None, None));
}

#[test]
fn invalid_bytes_are_replaced() {
    let out = Some(CommandOutput { success: true, stdout: b"10.0.0.\xff\n".to_vec() });
    assert_eq!(local_ip_for(&out), Some("10.0.0.\u{fffd}".to_string()));
}

#[test]
fn servers_outside_the_first_resolver_are_ignored() {
    assert!(parse_dns_servers("nameserver[0] : 1.1.1.1\n").is_empty());
    assert!(parse_dns_servers("resolver #12\n  nameserver[0] : 1.1.1.1\n").is_empty());
    assert!(parse_dns_servers("resolver #1\n  nameserver[0] 1.1.1.1\n  nameserver[1] :  \n").is_empty());
    let back = parse_dns_servers("resolver #2\nnameserver[0] : 2.2.2.2\nresolver # 1\nnameserver[0] : 1.1.1.1");
    assert_eq!(back, vec!["1.1.1.1".to_string()]);
    assert!(dns_servers(&None).is_empty());
}
