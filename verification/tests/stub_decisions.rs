use dns_shared::ipv4::Ipv4;
use dns_shared::packet::{DNSPacket, DNSRequestID, QueryType, ResultCode};
use dns_shared::resolver::{RequestOutcome, Resolution, ResolverCache, ResolverStep, handle_request};
use dns_shared::server::{ConfigValue, answer, server_config};
use dns_shared::stub::{
    ProxyRoute, RESOLVE_FAILURE_BODY, ResponseError, StubCommand, WEB_SERVER_PORT, parse_command, prepare_query, qualify_domain,
    response_ip, route_after_resolution, socket_authority, wants_local_resolution,
};

#[test]
fn domain_gets_root_dot_once() {
    let mut d = "router.telematik".to_string();
    qualify_domain(&mut d);
    assert_eq!(d, "router.telematik.");
    qualify_domain(&mut d);
    assert_eq!(d, "router.telematik.");
    let mut e = String::new();
    qualify_domain(&mut e);
    assert_eq!(e, ".");
}

#[test]
fn query_asks_for_recursion() {
    let mut d = "a.fuberlin".to_string();
    let q = prepare_query(DNSRequestID(42), &mut d);
    assert_eq!(d, "a.fuberlin.");
    assert_eq!(q.id, DNSRequestID(42));
    assert!(q.flags_rec_desired);
    assert!(!q.flags_response);
    assert!(!q.flags_authorative);
    assert_eq!(q.flags_result_code, ResultCode::NOERROR);
    assert_eq!(q.qry_name, "a.fuberlin.");
    assert_eq!(q.qry_type, QueryType::A);
    assert_eq!(q.answer_a, None);
    assert_eq!(q.answer_ns, None);
    assert_eq!(q.resp_ttl, None);
}

fn reply(id: u32, response: bool, a: Option<Ipv4>, rc: ResultCode) -> DNSPacket {
    DNSPacket {
        id: DNSRequestID(id),
        flags_response: response,
        flags_rec_desired: true,
        flags_result_code: rc,
        flags_authorative: false,
        qry_name: "x.".to_string(),
        qry_type: QueryType::A,
        answer_a: a,
        answer_ns: None,
        resp_ttl: None,
    }
}

#[test]
fn response_reading() {
    let id = DNSRequestID(1);
    assert_eq!(response_ip(id, &reply(1, true, Some(Ipv4(1, 2, 3, 4)), ResultCode::NOERROR)), Ok(Ipv4(1, 2, 3, 4)));
    assert_eq!(response_ip(id, &reply(1, false, Some(Ipv4(1, 2, 3, 4)), ResultCode::NOERROR)), Err(ResponseError::NotAResponse));
    assert_eq!(response_ip(id, &reply(2, true, Some(Ipv4(1, 2, 3, 4)), ResultCode::NOERROR)), Err(ResponseError::OtherRequest));
    assert_eq!(response_ip(id, &reply(1, true, None, ResultCode::NOERROR)), Err(ResponseError::NoRecordWithoutError));
    assert_eq!(response_ip(id, &reply(1, true, None, ResultCode::NXDOMAIN)), Err(ResponseError::NoSuchDomain));
    assert_eq!(response_ip(id, &reply(1, true, None, ResultCode::SERVFAIL)), Err(ResponseError::UnhandledResultCode));
    assert_eq!(response_ip(id, &reply(1, true, Some(Ipv4(5, 5, 5, 5)), ResultCode::SERVFAIL)), Ok(Ipv4(5, 5, 5, 5)));
}

#[test]
fn error_messages() {
    assert_eq!(ResponseError::NotAResponse.message(), "received packet was not a response :(");
    assert_eq!(ResponseError::OtherRequest.message(), "response was not for the request we send last");
    assert_eq!(ResponseError::NoRecordWithoutError.message(), "no A record but also NOERROR code, wtf???");
    assert_eq!(ResponseError::NoSuchDomain.message(), "NXDOMAIN: no ip exists for this domain");
    assert_eq!(ResponseError::UnhandledResultCode.message(), "unhandled result code in packet, no A record present");
    assert_eq!(RESOLVE_FAILURE_BODY, "failed to resolve");
}

#[test]
fn interactive_commands() {
    assert!(matches!(parse_command("exit\n"), StubCommand::Exit));
    assert!(matches!(parse_command("  ExIT \r\n"), StubCommand::Exit));
    match parse_command("  router.telematik \n") {
        StubCommand::Resolve(d) => assert_eq!(d, "router.telematik"),
        StubCommand::Exit => panic!("not an exit"),
    }
    match parse_command("exits\n") {
        StubCommand::Resolve(d) => assert_eq!(d, "exits"),
        StubCommand::Exit => panic!("not an exit"),
    }
}

#[test]
fn proxy_routing() {
    assert!(wants_local_resolution(Some("router.telematik")));
    assert!(wants_local_resolution(Some("www.fuberlin.de")));
    assert!(!wants_local_resolution(Some("telematik")));
    assert!(!wants_local_resolution(Some("example.com")));
    assert!(!wants_local_resolution(None));
}

#[test]
fn proxy_target_authority() {
    assert_eq!(socket_authority(Ipv4(127, 0, 0, 80), WEB_SERVER_PORT), "127.0.0.80:8000");
    assert_eq!(socket_authority(Ipv4(1, 2, 3, 4), 0), "1.2.3.4:0");
}

#[test]
fn stub_reads_the_servers_answer() {
    let config = server_config(
        "127.0.0.11",
        vec![("router.telematik.".to_string(), ConfigValue::Text("127.0.0.80".to_string()))],
        vec![],
    );
    let mut d = "router.telematik".to_string();
    let q = prepare_query(DNSRequestID(9), &mut d);
    assert_eq!(response_ip(DNSRequestID(9), &answer(&config, q)), Ok(Ipv4(127, 0, 0, 80)));
    let mut d = "nowhere.telematik".to_string();
    let q = prepare_query(DNSRequestID(9), &mut d);
    assert_eq!(response_ip(DNSRequestID(9), &answer(&config, q)), Err(ResponseError::NoRecordWithoutError));
}

#[test]
fn stub_reads_the_resolvers_cached_answer() {
    let mut cache = ResolverCache::new();
    cache.insert("router.telematik.".to_string(), Ipv4(127, 0, 0, 80), 10);
    let mut d = "router.telematik".to_string();
    let q = prepare_query(DNSRequestID(5), &mut d);
    match handle_request(&cache, q, 3, Ipv4(127, 0, 0, 100)) {
        RequestOutcome::Answer(p) => assert_eq!(response_ip(DNSRequestID(5), &p), Ok(Ipv4(127, 0, 0, 80))),
        RequestOutcome::Resolve(_) => panic!("expected a cached answer"),
    }
}

#[test]
fn stub_reads_the_servers_answer_through_the_resolver() {
    let config = server_config(
        "127.0.0.100",
        vec![("router.telematik.".to_string(), ConfigValue::Text("127.0.0.80".to_string()))],
        vec![],
    );
    let mut d = "router.telematik".to_string();
    let q = prepare_query(DNSRequestID(8), &mut d);
    let mut cache = ResolverCache::new();
    let mut r = Resolution::start(q, Ipv4(127, 0, 0, 100));
    let sent = DNSPacket {
        id: r.query.id,
        flags_response: r.query.flags_response,
        flags_rec_desired: r.query.flags_rec_desired,
        flags_result_code: r.query.flags_result_code,
        flags_authorative: r.query.flags_authorative,
        qry_name: r.query.qry_name.clone(),
        qry_type: r.query.qry_type,
        answer_a: r.query.answer_a,
        answer_ns: r.query.answer_ns,
        resp_ttl: r.query.resp_ttl,
    };
    match r.on_response(&mut cache, answer(&config, sent), 0) {
        ResolverStep::Reply(p) => assert_eq!(response_ip(DNSRequestID(8), &p), Ok(Ipv4(127, 0, 0, 80))),
        ResolverStep::Ask => panic!("expected a reply"),
    }
}

#[test]
fn proxy_route_after_resolution() {
    match route_after_resolution(Some(Ipv4(127, 0, 0, 80))) {
        ProxyRoute::Forward(a) => assert_eq!(a, "127.0.0.80:8000"),
        ProxyRoute::Fail => panic!("expected forwarding"),
    }
    assert!(matches!(route_after_resolution(None), ProxyRoute::Fail));
}

#[test]
fn exit_between_whitespace_of_any_kind() {
    assert!(matches!(parse_command("\u{3000}eXiT\u{a0}"), StubCommand::Exit));
    match parse_command("\u{2003}a.telematik\t") {
        StubCommand::Resolve(d) => assert_eq!(d, "a.telematik"),
        StubCommand::Exit => panic!("not an exit"),
    }
}
