use lgview_ng::cidr::validate_cidr_prefix;
use lgview_ng::config::LookingGlassConfig;

fn lg(template: Option<&str>, cmd: Option<&str>, pager: Option<&str>) -> LookingGlassConfig {
    LookingGlassConfig {
        name: "Route Views".to_string(),
        host: "route-views.routeviews.org".to_string(),
        username: None,
        password: None,
        prompt_suffix: None,
        template: template.map(|s| s.to_string()),
        cmd_template: cmd.map(|s| s.to_string()),
        pager_cmd: pager.map(|s| s.to_string()),
        is_route_views: false,
    }
}

#[test]
fn cmd_template_override_wins() {
    let c = lg(Some("juniper"), Some("sh bgp {prefix} detail"), None);
    assert_eq!(c.resolve_cmd_template(), "sh bgp {prefix} detail");
}

#[test]
fn cmd_template_per_family() {
    assert_eq!(lg(Some("cisco_ipv6"), None, None).resolve_cmd_template(), "show bgp ipv6 unicast {prefix}");
    assert_eq!(lg(Some("juniper"), None, None).resolve_cmd_template(), "show route protocol bgp {prefix}");
    assert_eq!(lg(Some("juniper_ipv4"), None, None).resolve_cmd_template(), "show route protocol bgp {prefix}");
    assert_eq!(lg(Some("juniper_ipv6"), None, None).resolve_cmd_template(), "show route protocol bgp {prefix}");
    assert_eq!(lg(Some("cisco_ipv4"), None, None).resolve_cmd_template(), "show ip bgp {prefix}");
    assert_eq!(lg(Some("cisco"), None, None).resolve_cmd_template(), "show ip bgp {prefix}");
}

#[test]
fn cmd_template_falls_back_to_cisco_ipv4() {
    assert_eq!(lg(None, None, None).resolve_cmd_template(), "show ip bgp {prefix}");
    assert_eq!(lg(Some("alice"), None, None).resolve_cmd_template(), "show ip bgp {prefix}");
    assert_eq!(lg(Some("Juniper"), None, None).resolve_cmd_template(), "show ip bgp {prefix}");
}

#[test]
fn pager_override_wins() {
    assert_eq!(lg(Some("cisco"), None, Some("no page")).resolve_pager_cmd(), Some("no page".to_string()));
}

#[test]
fn pager_per_family() {
    assert_eq!(lg(Some("juniper_ipv6"), None, None).resolve_pager_cmd(), Some("set cli screen-length 0".to_string()));
    assert_eq!(lg(Some("cisco_ipv6"), None, None).resolve_pager_cmd(), Some("terminal length 0".to_string()));
    assert_eq!(lg(Some("cisco_ipv4"), None, None).resolve_pager_cmd(), Some("terminal length 0".to_string()));
    assert_eq!(lg(Some("cisco"), None, None).resolve_pager_cmd(), Some("terminal length 0".to_string()));
}

#[test]
fn pager_falls_back_to_cisco_terminal_length() {
    assert_eq!(lg(Some("bird"), None, None).resolve_pager_cmd(), Some("terminal length 0".to_string()));
    assert_eq!(lg(Some("alice"), None, None).resolve_pager_cmd(), Some("terminal length 0".to_string()));
    assert_eq!(lg(None, None, None).resolve_pager_cmd(), Some("terminal length 0".to_string()));
}

#[test]
fn ipv4_prefixes_accepted() {
    assert!(validate_cidr_prefix("177.11.98.0/24"));
    assert!(validate_cidr_prefix("209.61.8.0/24"));
    assert!(validate_cidr_prefix("0.0.0.0/0"));
    assert!(validate_cidr_prefix("255.255.255.255/32"));
}

#[test]
fn ipv4_prefix_length_rules() {
    assert!(!validate_cidr_prefix("10.0.0.0/33"));
    assert!(!validate_cidr_prefix("10.0.0.0/+24"));
    assert!(!validate_cidr_prefix("192.0.2.0/+24"));
    assert!(validate_cidr_prefix("10.0.0.0/0024"));
    assert!(!validate_cidr_prefix("10.0.0.0/256"));
    assert!(!validate_cidr_prefix("10.0.0.0/-1"));
    assert!(!validate_cidr_prefix("10.0.0.0/+"));
    assert!(!validate_cidr_prefix("10.0.0.0/"));
    assert!(!validate_cidr_prefix("10.0.0.0/2a"));
}

#[test]
fn malformed_ipv4_rejected() {
    assert!(!validate_cidr_prefix("010.0.0.0/24"));
    assert!(!validate_cidr_prefix("256.0.0.0/8"));
    assert!(!validate_cidr_prefix("1.2.3/8"));
    assert!(!validate_cidr_prefix("1.2.3.4.5/8"));
    assert!(!validate_cidr_prefix("1.2.3.4"));
    assert!(!validate_cidr_prefix("1.2.3.4/24/1"));
    assert!(!validate_cidr_prefix("1.2.3.4 /24"));
    assert!(!validate_cidr_prefix("1..3.4/24"));
    assert!(!validate_cidr_prefix("/24"));
    assert!(!validate_cidr_prefix(""));
}

#[test]
fn ipv6_prefixes_accepted() {
    assert!(validate_cidr_prefix("2001:db8::/32"));
    assert!(validate_cidr_prefix("2001:DB8:1234::/48"));
    assert!(validate_cidr_prefix("::/0"));
    assert!(validate_cidr_prefix("::1/128"));
    assert!(validate_cidr_prefix("1:2:3:4:5:6:7:8/128"));
    assert!(validate_cidr_prefix("1:2:3:4:5:6:7::/128"));
    assert!(validate_cidr_prefix("::2:3:4:5:6:7:8/128"));
    assert!(validate_cidr_prefix("::ffff:1.2.3.4/96"));
    assert!(validate_cidr_prefix("1:2:3:4:5:6:1.2.3.4/128"));
    assert!(validate_cidr_prefix("0000:0:0:0:0:0:0:0001/128"));
}

#[test]
fn malformed_ipv6_rejected() {
    assert!(!validate_cidr_prefix("1:2:3:4:5:6:7:8:9/64"));
    assert!(!validate_cidr_prefix("1:2:3:4:5:6:7/64"));
    assert!(!validate_cidr_prefix("1::2::3/64"));
    assert!(!validate_cidr_prefix("1:2:3:4:5:1.2.3.4/128"));
    assert!(!validate_cidr_prefix("1:2:3:4:5:6:7:1.2.3.4/128"));
    assert!(!validate_cidr_prefix("1.2.3.4::/64"));
    assert!(!validate_cidr_prefix("12345::/16"));
    assert!(!validate_cidr_prefix("g::/16"));
    assert!(!validate_cidr_prefix(":::/16"));
    assert!(!validate_cidr_prefix("1:::2/16"));
    assert!(!validate_cidr_prefix(":1::/16"));
    assert!(!validate_cidr_prefix("1::2:/16"));
    assert!(!validate_cidr_prefix("1:2:3:4:5:6:7:8::/128"));
    assert!(!validate_cidr_prefix("::1.2.3.04/96"));
    assert!(!validate_cidr_prefix("2001:db8::/129"));
}

#[test]
fn shell_and_control_characters_rejected() {
    assert!(!validate_cidr_prefix("1.2.3.4/24;ls"));
    assert!(!validate_cidr_prefix("1.2.3.4/24\n"));
    assert!(!validate_cidr_prefix("1.2.3.4/2$4"));
    assert!(!validate_cidr_prefix("`1.2.3.4/24"));
    assert!(!validate_cidr_prefix("1.2.3.4/24\u{85}"));
    assert!(!validate_cidr_prefix("1.2.3.4/24~"));
}
