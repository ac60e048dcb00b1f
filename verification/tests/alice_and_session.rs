use lgview_ng::alice::{
    alice_hosts, alice_query_result, into_routes, lookup_url, multi_lg_hosts, response_size_ok,
    uses_alice_api, AliceBgp, AliceImported, AliceLookupResponse, AliceRoute, AliceRouteServer,
    MAX_HTTP_RESPONSE_BYTES,
};
use lgview_ng::config::LookingGlassConfig;
use lgview_ng::session::{
    negotiation_reply, Phase, SessionEvent, SessionStep, TelnetAction, TelnetSession,
};

fn lg(name: &str, host: &str, template: Option<&str>) -> LookingGlassConfig {
    LookingGlassConfig {
        name: name.to_string(),
        host: host.to_string(),
        username: None,
        password: None,
        prompt_suffix: None,
        template: template.map(|s| s.to_string()),
        cmd_template: None,
        pager_cmd: None,
        is_route_views: false,
    }
}

fn route(path: Option<Vec<u32>>, rs: Option<Option<&str>>) -> AliceRoute {
    AliceRoute {
        bgp: Some(AliceBgp { as_path: path }),
        routeserver: rs.map(|n| AliceRouteServer { name: n.map(|s| s.to_string()) }),
    }
}

#[test]
fn response_size_limit_is_50_mb() {
    assert_eq!(MAX_HTTP_RESPONSE_BYTES, 50 * 1024 * 1024);
    assert!(response_size_ok(MAX_HTTP_RESPONSE_BYTES));
    assert!(!response_size_ok(MAX_HTTP_RESPONSE_BYTES + 1));
    assert!(response_size_ok(0));
}

#[test]
fn routes_of_a_lookup_answer() {
    let full = AliceLookupResponse {
        imported: Some(AliceImported { routes: Some(vec![route(Some(vec![1, 2]), None)]) }),
    };
    assert_eq!(into_routes(full).len(), 1);
    let no_routes = AliceLookupResponse { imported: Some(AliceImported { routes: None }) };
    assert_eq!(into_routes(no_routes).len(), 0);
    assert_eq!(into_routes(AliceLookupResponse { imported: None }).len(), 0);
}

#[test]
fn lookup_urls_https_first() {
    let urls = lgview_ng::alice::lookup_urls("lg.ix.br", "177.11.98.0/24");
    assert_eq!(urls.len(), 2);
    assert_eq!(urls[0], "https://lg.ix.br/api/v1/lookup/prefix?q=177.11.98.0/24");
    assert_eq!(urls[1], "http://lg.ix.br/api/v1/lookup/prefix?q=177.11.98.0/24");
}

#[test]
fn only_2xx_statuses_succeed() {
    assert!(lgview_ng::alice::status_is_success(200));
    assert!(lgview_ng::alice::status_is_success(204));
    assert!(lgview_ng::alice::status_is_success(299));
    assert!(!lgview_ng::alice::status_is_success(199));
    assert!(!lgview_ng::alice::status_is_success(300));
    assert!(!lgview_ng::alice::status_is_success(429));
    assert!(!lgview_ng::alice::status_is_success(500));
}

#[test]
fn lookup_urls() {
    assert_eq!(
        lookup_url(true, "lg.ix.br", "177.11.98.0/24"),
        "https://lg.ix.br/api/v1/lookup/prefix?q=177.11.98.0/24"
    );
    assert_eq!(lookup_url(false, "lg.ix.br", "2001:db8::/32"), "http://lg.ix.br/api/v1/lookup/prefix?q=2001:db8::/32");
}

#[test]
fn alice_hosts_are_unique() {
    let lgs = vec![
        lg("IX.br São Paulo", "lg.ix.br", Some("alice")),
        lg("Route Views", "route-views.routeviews.org", None),
        lg("IX.br Rio de Janeiro", "lg.ix.br", Some("alice")),
        lg("DE-CIX", "lg.de-cix.net", Some("alice")),
        lg("Other", "telnet.example", Some("cisco")),
    ];
    assert!(uses_alice_api(&lgs[0]));
    assert!(!uses_alice_api(&lgs[1]));
    let hosts = alice_hosts(&lgs);
    assert_eq!(hosts, vec!["lg.de-cix.net".to_string(), "lg.ix.br".to_string()]);
    assert_eq!(multi_lg_hosts(&lgs), vec!["lg.ix.br".to_string()]);
}

#[test]
fn shared_host_filters_by_route_server_name() {
    let lgs = vec![
        lg("IX.br São Paulo", "lg.ix.br", Some("alice")),
        lg("IX.br Rio de Janeiro", "lg.ix.br", Some("alice")),
    ];
    let multi = multi_lg_hosts(&lgs);
    let routes = vec![
        route(Some(vec![3257, 53427, 53158]), Some(Some("  ix.br SÃO PAULO "))),
        route(Some(vec![1299, 53158]), Some(Some("IX.br Rio de Janeiro"))),
        route(Some(vec![174, 53158]), Some(None)),
        route(Some(vec![6939, 53158]), None),
        route(Some(vec![6939, 53158]), None),
        route(Some(vec![53158, 3257]), Some(Some("IX.br São Paulo"))),
        route(Some(vec![]), Some(Some("IX.br São Paulo"))),
        route(None, Some(Some("IX.br São Paulo"))),
    ];
    let res = alice_query_result(&lgs[0], &multi, Some(Ok(routes)), 53158);
    assert_eq!(res.lg_name, "IX.br São Paulo");
    assert_eq!(res.error, None);
    assert_eq!(res.as_paths, vec![vec![174, 53158], vec![3257, 53427, 53158], vec![6939, 53158]]);
}

#[test]
fn single_host_accepts_every_route() {
    let lgs = vec![lg("DE-CIX", "lg.de-cix.net", Some("alice"))];
    let multi = multi_lg_hosts(&lgs);
    let routes = vec![
        route(Some(vec![3257, 53158]), Some(Some("rs1.fra"))),
        route(Some(vec![1299, 53158]), Some(Some("rs2.fra"))),
    ];
    let res = alice_query_result(&lgs[0], &multi, Some(Ok(routes)), 53158);
    assert_eq!(res.as_paths, vec![vec![1299, 53158], vec![3257, 53158]]);
}

#[test]
fn alice_lookup_errors_become_result_errors() {
    let l = lg("DE-CIX", "lg.de-cix.net", Some("alice"));
    let res = alice_query_result(&l, &vec![], Some(Err("HTTP status error: 429".to_string())), 1);
    assert_eq!(res.error, Some("HTTP status error: 429".to_string()));
    assert!(res.as_paths.is_empty());
    let res = alice_query_result(&l, &vec![], None, 1);
    assert_eq!(res.error, Some("Host result not cached".to_string()));
}

#[test]
fn negotiations_are_refused() {
    assert!(matches!(negotiation_reply(&TelnetAction::Do), Some(TelnetAction::Wont)));
    assert!(matches!(negotiation_reply(&TelnetAction::Will), Some(TelnetAction::Dont)));
    assert!(negotiation_reply(&TelnetAction::Wont).is_none());
    assert!(negotiation_reply(&TelnetAction::Dont).is_none());
}

fn data(s: &str) -> SessionEvent {
    SessionEvent::Data(s.as_bytes().to_vec())
}

fn sent(step: SessionStep) -> String {
    match step {
        SessionStep::Send(t) => t,
        _ => panic!("expected a line to send"),
    }
}

#[test]
fn full_session_with_login_and_pager() {
    let mut cfg = lg("Route Views", "route-views.routeviews.org", Some("cisco"));
    cfg.username = Some("rviews".to_string());
    cfg.password = Some("secret".to_string());
    cfg.prompt_suffix = Some("route-views>".to_string());
    let mut s = TelnetSession::new(&cfg, "177.11.98.0/24", 262875);
    assert!(matches!(s.phase, Phase::Username));
    assert_eq!(s.command, "show ip bgp 177.11.98.0/24\n");
    assert!(matches!(s.step(data("Welcome\r\nUser")), SessionStep::Poll));
    assert!(matches!(s.step(SessionEvent::Idle), SessionStep::Sleep));
    assert_eq!(sent(s.step(data("NAME:  \r\n"))), "rviews\n");
    assert!(matches!(s.phase, Phase::Password));
    assert_eq!(sent(s.step(data("Password: "))), "secret\n");
    assert!(matches!(s.phase, Phase::Prompt));
    assert_eq!(sent(s.step(data("route-views>"))), "terminal length 0\n");
    assert!(matches!(s.phase, Phase::Pager));
    assert_eq!(sent(s.step(data("route-views>"))), "show ip bgp 177.11.98.0/24\n");
    assert!(matches!(s.phase, Phase::Query));
    assert!(matches!(s.step(data("*> 177.11.98.0/24 1.1.1.1 0 0 3257 263009 262875 i\n")), SessionStep::Poll));
    match s.step(data("*  177.11.98.0/24 2.2.2.2 0 0 174 262875 i\nroute-views>")) {
        SessionStep::Finish(r) => {
            assert_eq!(r.lg_name, "Route Views");
            assert_eq!(r.error, None);
            assert_eq!(r.as_paths, vec![vec![174, 262875], vec![3257, 263009, 262875]]);
        }
        _ => panic!("expected the session to finish"),
    }
    assert!(matches!(s.phase, Phase::Done));
}

#[test]
fn login_prompt_variant_and_custom_prompt() {
    let mut cfg = lg("Juniper LG", "lg.example", Some("juniper"));
    cfg.username = Some("guest".to_string());
    cfg.prompt_suffix = Some("$ ".to_string());
    let mut s = TelnetSession::new(&cfg, "2001:db8::/32", 65010);
    assert_eq!(s.command, "show route protocol bgp 2001:db8::/32\n");
    assert_eq!(sent(s.step(data("login:"))), "guest\n");
    assert!(matches!(s.phase, Phase::Prompt));
    assert!(matches!(s.step(data("guest@lg>")), SessionStep::Poll));
    assert_eq!(sent(s.step(data("$ "))), "set cli screen-length 0\n");
}

#[test]
fn session_without_credentials_or_pager_override() {
    let mut cfg = lg("Bird", "lg.example", Some("bird"));
    cfg.cmd_template = Some("show route for {prefix} all; # {prefix}".to_string());
    cfg.pager_cmd = Some("".to_string());
    let mut s = TelnetSession::new(&cfg, "10.0.0.0/8", 65010);
    assert!(matches!(s.phase, Phase::Prompt));
    assert_eq!(s.command, "show route for 10.0.0.0/8 all; # 10.0.0.0/8\n");
    assert_eq!(sent(s.step(data(">"))), "\n");
    assert!(matches!(s.phase, Phase::Pager));
    assert_eq!(sent(s.step(data(">"))), "show route for 10.0.0.0/8 all; # 10.0.0.0/8\n");
    assert!(matches!(s.phase, Phase::Query));
}

#[test]
fn route_views_logs_in_as_rviews() {
    let mut cfg = lg("Route Views", "route-views.routeviews.org", None);
    cfg.is_route_views = true;
    let mut s = TelnetSession::new(&cfg, "209.61.8.0/24", 53158);
    assert!(matches!(s.phase, Phase::Username));
    assert_eq!(sent(s.step(data("User Access Verification\r\n\r\nUsername: "))), "rviews\n");
    assert!(matches!(s.phase, Phase::Prompt));
    assert_eq!(sent(s.step(data("route-views>"))), "terminal length 0\n");

    // A configured user name wins over the Route Views default.
    cfg.username = Some("guest".to_string());
    let mut s = TelnetSession::new(&cfg, "209.61.8.0/24", 53158);
    assert_eq!(sent(s.step(data("login:"))), "guest\n");

    // Without the flag and a user name there is no login.
    cfg.username = None;
    cfg.is_route_views = false;
    let s = TelnetSession::new(&cfg, "209.61.8.0/24", 53158);
    assert!(matches!(s.phase, Phase::Prompt));
}

#[test]
fn invalid_utf8_is_tolerated() {
    let cfg = lg("Bird", "lg.example", Some("bird"));
    let mut s = TelnetSession::new(&cfg, "10.0.0.0/8", 65010);
    assert!(matches!(s.step(SessionEvent::Data(vec![0xff, 0xfe])), SessionStep::Poll));
    assert_eq!(sent(s.step(data("router>"))), "terminal length 0\n");
}

#[test]
fn timeouts_and_read_errors() {
    let mut cfg = lg("A", "h", Some("cisco"));
    cfg.username = Some("u".to_string());
    cfg.password = Some("p".to_string());
    let mut s = TelnetSession::new(&cfg, "10.0.0.0/8", 1);
    match s.step(SessionEvent::Expired) {
        SessionStep::Finish(r) => assert_eq!(r.error, Some("Failed to reach login prompt".to_string())),
        _ => panic!(),
    }

    let mut s = TelnetSession::new(&cfg, "10.0.0.0/8", 1);
    let _ = s.step(data("Username:"));
    match s.step(SessionEvent::Expired) {
        SessionStep::Finish(r) => assert_eq!(r.error, Some("Failed to reach password prompt".to_string())),
        _ => panic!(),
    }

    let mut s = TelnetSession::new(&cfg, "10.0.0.0/8", 1);
    match s.step(SessionEvent::ReadFailed("Telnet read error: reset".to_string())) {
        SessionStep::Finish(r) => assert_eq!(r.error, Some("Telnet read error: reset".to_string())),
        _ => panic!(),
    }

    cfg.username = None;
    cfg.password = None;
    let mut s = TelnetSession::new(&cfg, "10.0.0.0/8", 1);
    match s.step(SessionEvent::Expired) {
        SessionStep::Finish(r) => assert_eq!(
            r.error,
            Some("Failed to reach prompt: Timeout reading from Telnet. Expected suffix: '>'".to_string())
        ),
        _ => panic!(),
    }

    let mut s = TelnetSession::new(&cfg, "10.0.0.0/8", 1);
    match s.step(SessionEvent::ReadFailed("Telnet read error: eof".to_string())) {
        SessionStep::Finish(r) => assert_eq!(r.error, Some("Failed to reach prompt: Telnet read error: eof".to_string())),
        _ => panic!(),
    }

    // The pager's prompt is optional: a timeout or an error moves on to the query.
    let mut s = TelnetSession::new(&cfg, "10.0.0.0/8", 1);
    let _ = s.step(data(">"));
    assert!(matches!(s.phase, Phase::Pager));
    assert_eq!(sent(s.step(SessionEvent::Expired)), "show ip bgp 10.0.0.0/8\n");
    match s.step(SessionEvent::Expired) {
        SessionStep::Finish(r) => assert_eq!(
            r.error,
            Some("Query read timeout/error: Timeout reading from Telnet. Expected suffix: '>'".to_string())
        ),
        _ => panic!(),
    }

    let mut s = TelnetSession::new(&cfg, "10.0.0.0/8", 1);
    let _ = s.step(data(">"));
    assert_eq!(sent(s.step(SessionEvent::ReadFailed("e".to_string()))), "show ip bgp 10.0.0.0/8\n");
    match s.step(SessionEvent::ReadFailed("Telnet read error: x".to_string())) {
        SessionStep::Finish(r) => assert_eq!(r.error, Some("Query read timeout/error: Telnet read error: x".to_string())),
        _ => panic!(),
    }
}

#[test]
fn phase_time_limits() {
    let mut cfg = lg("A", "h", Some("cisco"));
    cfg.username = Some("u".to_string());
    let mut s = TelnetSession::new(&cfg, "10.0.0.0/8", 1);
    assert!(!s.expired(14_999_999_999));
    assert!(s.expired(15_000_000_000));
    let _ = s.step(data("Username:"));
    assert!(matches!(s.phase, Phase::Prompt));
    assert!(!s.expired(10_000_000_000));
    assert!(s.expired(10_000_000_001));
    let _ = s.step(data(">"));
    assert!(matches!(s.phase, Phase::Pager));
    assert!(!s.expired(3_000_000_000));
    assert!(s.expired(3_000_000_001));
    let _ = s.step(data(">"));
    assert!(matches!(s.phase, Phase::Query));
    assert!(!s.expired(15_000_000_000));
    assert!(s.expired(15_000_000_001));
}

#[test]
fn query_for_a_valid_prefix_is_one_line() {
    let cfg = lg("A", "h", Some("cisco_ipv6"));
    let prefix = "2001:db8:1234::/48";
    assert!(lgview_ng::cidr::validate_cidr_prefix(prefix));
    let s = TelnetSession::new(&cfg, prefix, 1);
    assert_eq!(s.command, "show bgp ipv6 unicast 2001:db8:1234::/48\n");
    assert_eq!(s.command.matches('\n').count(), 1);
    assert!(s.command.ends_with('\n'));
}

#[test]
fn default_prompt_matches_any_greater_than_sign() {
    // With the default `>` prompt, the first chunk holding a `>` ends the query output.
    let cfg = lg("A", "h", Some("bird"));
    let mut s = TelnetSession::new(&cfg, "10.0.0.0/8", 65010);
    let _ = s.step(data(">"));
    let _ = s.step(data(">"));
    assert!(matches!(s.phase, Phase::Query));
    match s.step(data("*> 10.0.0.0/8 1.1.1.1 0 0 3257 65010 i\n")) {
        SessionStep::Finish(r) => assert_eq!(r.as_paths, vec![vec![3257, 65010]]),
        _ => panic!("expected the session to finish"),
    }
}
