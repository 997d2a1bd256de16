use dns_shared::ipv4::Ipv4;
use dns_shared::packet::{DNSPacket, DNSRequestID, QueryType, ResultCode};
use dns_shared::resolver::{RequestOutcome, Resolution, ResolverCache, ResolverStep, handle_request};

const ROOT: Ipv4 = Ipv4(127, 0, 0, 100);

fn packet(id: u32, name: &str) -> DNSPacket {
    DNSPacket {
        id: DNSRequestID(id),
        flags_response: false,
        flags_rec_desired: true,
        flags_result_code: ResultCode::NOERROR,
        flags_authorative: false,
        qry_name: name.to_string(),
        qry_type: QueryType::A,
        answer_a: None,
        answer_ns: None,
        resp_ttl: None,
    }
}

fn response(id: u32, name: &str, a: Option<Ipv4>, ns: Option<Ipv4>, rc: ResultCode, ttl: Option<u32>) -> DNSPacket {
    let mut p = packet(id, name);
    p.flags_response = true;
    p.flags_rec_desired = false;
    p.answer_a = a;
    p.answer_ns = ns;
    p.flags_result_code = rc;
    p.resp_ttl = ttl;
    p
}

#[test]
fn cache_read_after_write() {
    let mut cache = ResolverCache::new();
    let name = "router.telematik.".to_string();
    assert_eq!(cache.lookup(&name, 0), None);
    cache.insert(name.clone(), Ipv4(1, 2, 3, 4), 100);
    assert_eq!(cache.lookup(&name, 99), Some(Ipv4(1, 2, 3, 4)));
    assert_eq!(cache.lookup(&name, 100), None);
    assert_eq!(cache.lookup(&"other.".to_string(), 5), None);
    cache.insert(name.clone(), Ipv4(5, 6, 7, 8), 200);
    assert_eq!(cache.lookup(&name, 150), Some(Ipv4(5, 6, 7, 8)));
    cache.insert("other.".to_string(), Ipv4(9, 9, 9, 9), 10);
    assert_eq!(cache.lookup(&name, 150), Some(Ipv4(5, 6, 7, 8)));
    assert_eq!(cache.lookup(&"other.".to_string(), 5), Some(Ipv4(9, 9, 9, 9)));
}

#[test]
fn cached_name_is_answered_from_cache() {
    let mut cache = ResolverCache::new();
    cache.insert("a.".to_string(), Ipv4(10, 0, 0, 1), 50);
    match handle_request(&cache, packet(3, "a."), 20, ROOT) {
        RequestOutcome::Answer(p) => {
            assert!(p.flags_response);
            assert_eq!(p.flags_result_code, ResultCode::NOERROR);
            assert_eq!(p.answer_a, Some(Ipv4(10, 0, 0, 1)));
            assert_eq!(p.id, DNSRequestID(3));
            assert!(p.flags_rec_desired);
        }
        RequestOutcome::Resolve(_) => panic!("expected a cached answer"),
    }
}

#[test]
fn expired_or_unknown_name_is_resolved_from_root() {
    let mut cache = ResolverCache::new();
    cache.insert("a.".to_string(), Ipv4(10, 0, 0, 1), 50);
    for (name, now) in [("a.", 50), ("b.", 0)] {
        match handle_request(&cache, packet(4, name), now, ROOT) {
            RequestOutcome::Resolve(r) => {
                assert_eq!(r.nameserver, ROOT);
                assert!(!r.query.flags_rec_desired);
                assert_eq!(r.query.id, DNSRequestID(4));
                assert_eq!(r.query.qry_name, name);
            }
            RequestOutcome::Answer(_) => panic!("expected a resolution"),
        }
    }
}

#[test]
fn response_to_other_request_asks_again() {
    let mut cache = ResolverCache::new();
    let mut r = Resolution::start(packet(1, "x."), ROOT);
    let step = r.on_response(&mut cache, response(2, "x.", Some(Ipv4(1, 1, 1, 1)), None, ResultCode::NOERROR, Some(5)), 0);
    assert!(matches!(step, ResolverStep::Ask));
    assert_eq!(r.nameserver, ROOT);
    assert_eq!(cache.lookup(&"x.".to_string(), 0), None);
}

#[test]
fn delegation_is_followed() {
    let mut cache = ResolverCache::new();
    let mut r = Resolution::start(packet(1, "x.telematik."), ROOT);
    let step = r.on_response(&mut cache, response(1, "x.telematik.", Some(Ipv4(4, 4, 4, 4)), Some(Ipv4(127, 0, 0, 11)), ResultCode::NOERROR, None), 0);
    assert!(matches!(step, ResolverStep::Ask));
    assert_eq!(r.nameserver, Ipv4(127, 0, 0, 11));
    assert_eq!(r.query.qry_name, "x.telematik.");
}

#[test]
fn address_answer_is_cached_and_passed_on() {
    let mut cache = ResolverCache::new();
    let mut r = Resolution::start(packet(1, "x."), ROOT);
    let step = r.on_response(&mut cache, response(1, "x.", Some(Ipv4(1, 2, 3, 4)), None, ResultCode::NOERROR, Some(30)), 100);
    match step {
        ResolverStep::Reply(p) => assert_eq!(p.answer_a, Some(Ipv4(1, 2, 3, 4))),
        ResolverStep::Ask => panic!("expected a reply"),
    }
    assert_eq!(cache.lookup(&"x.".to_string(), 129), Some(Ipv4(1, 2, 3, 4)));
    assert_eq!(cache.lookup(&"x.".to_string(), 130), None);
}

#[test]
fn answer_without_ttl_is_not_cached() {
    let mut cache = ResolverCache::new();
    let mut r = Resolution::start(packet(1, "x."), ROOT);
    let step = r.on_response(&mut cache, response(1, "x.", Some(Ipv4(1, 2, 3, 4)), None, ResultCode::NOERROR, None), 100);
    assert!(matches!(step, ResolverStep::Reply(_)));
    assert_eq!(cache.lookup(&"x.".to_string(), 100), None);
}

#[test]
fn error_response_ends_resolution() {
    let mut cache = ResolverCache::new();
    let mut r = Resolution::start(packet(1, "x."), ROOT);
    let step = r.on_response(&mut cache, response(1, "x.", None, Some(Ipv4(2, 2, 2, 2)), ResultCode::NXDOMAIN, Some(9)), 0);
    match step {
        ResolverStep::Reply(p) => assert_eq!(p.flags_result_code, ResultCode::NXDOMAIN),
        ResolverStep::Ask => panic!("expected a reply"),
    }
    assert_eq!(r.nameserver, ROOT);
    let step = r.on_response(&mut cache, response(1, "x.", None, None, ResultCode::NOERROR, None), 0);
    assert!(matches!(step, ResolverStep::Reply(_)));
}

#[test]
fn cached_answer_serves_a_later_request_until_it_expires() {
    let mut cache = ResolverCache::new();
    let mut r = Resolution::start(packet(1, "web.telematik."), ROOT);
    let step = r.on_response(&mut cache, response(1, "web.telematik.", Some(Ipv4(127, 0, 0, 80)), None, ResultCode::NOERROR, Some(60)), 1000);
    assert!(matches!(step, ResolverStep::Reply(_)));
    match handle_request(&cache, packet(2, "web.telematik."), 1059, ROOT) {
        RequestOutcome::Answer(p) => {
            assert_eq!(p.answer_a, Some(Ipv4(127, 0, 0, 80)));
            assert_eq!(p.id, DNSRequestID(2));
        }
        RequestOutcome::Resolve(_) => panic!("expected a cached answer"),
    }
    assert!(matches!(handle_request(&cache, packet(3, "web.telematik."), 1060, ROOT), RequestOutcome::Resolve(_)));
}
