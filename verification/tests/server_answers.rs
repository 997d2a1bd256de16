use dns_shared::ipv4::Ipv4;
use dns_shared::packet::{DNSPacket, DNSRequestID, QueryType, ResultCode};
use dns_shared::server::{ConfigValue, ServerConfig, answer, config_records, is_json_config_name, server_config, server_name};

fn query(id: u32, name: &str) -> DNSPacket {
    DNSPacket {
        id: DNSRequestID(id),
        flags_response: false,
        flags_rec_desired: false,
        flags_result_code: ResultCode::NOERROR,
        flags_authorative: false,
        qry_name: name.to_string(),
        qry_type: QueryType::A,
        answer_a: Some(Ipv4(9, 9, 9, 9)),
        answer_ns: Some(Ipv4(8, 8, 8, 8)),
        resp_ttl: None,
    }
}

fn text(s: &str) -> ConfigValue {
    ConfigValue::Text(s.to_string())
}

fn telematik() -> ServerConfig {
    server_config(
        "127.0.0.11",
        vec![
            ("router.telematik.".to_string(), text("127.0.0.80")),
            ("switch.telematik.".to_string(), text("127.0.0.81")),
            ("router.telematik.".to_string(), text("127.0.0.82")),
        ],
        vec![
            ("fuberlin.".to_string(), text("127.0.0.12")),
            ("mi.fuberlin.".to_string(), text("127.0.0.13")),
        ],
    )
}

#[test]
fn config_keeps_only_address_texts_in_order() {
    let records = config_records(vec![
        ("a.".to_string(), text("1.2.3.4")),
        ("b.".to_string(), ConfigValue::Other),
        ("c.".to_string(), text("not an ip")),
        ("d.".to_string(), text("5.6.7.8")),
    ]);
    assert_eq!(records, vec![("a.".to_string(), Ipv4(1, 2, 3, 4)), ("d.".to_string(), Ipv4(5, 6, 7, 8))]);
    assert!(config_records(vec![]).is_empty());
}

#[test]
fn config_binds_its_address() {
    let config = telematik();
    assert_eq!(config.ip, Ipv4(127, 0, 0, 11));
    assert_eq!(config.zone.len(), 3);
    assert_eq!(config.delegated.len(), 2);
}

#[test]
fn zone_name_gets_first_address() {
    let r = answer(&telematik(), query(5, "router.telematik."));
    assert!(r.flags_response);
    assert_eq!(r.id, DNSRequestID(5));
    assert_eq!(r.qry_name, "router.telematik.");
    assert_eq!(r.answer_a, Some(Ipv4(127, 0, 0, 80)));
    assert_eq!(r.answer_ns, None);
    assert_eq!(r.flags_result_code, ResultCode::NOERROR);
    assert!(!r.flags_rec_desired);
}

#[test]
fn delegated_name_gets_last_matching_server() {
    let r = answer(&telematik(), query(6, "www.mi.fuberlin."));
    assert_eq!(r.answer_a, None);
    assert_eq!(r.answer_ns, Some(Ipv4(127, 0, 0, 13)));
    let r = answer(&telematik(), query(6, "www.fuberlin."));
    assert_eq!(r.answer_ns, Some(Ipv4(127, 0, 0, 12)));
}

#[test]
fn unknown_name_gets_nothing() {
    let r = answer(&telematik(), query(7, "example.com."));
    assert!(r.flags_response);
    assert_eq!(r.answer_a, None);
    assert_eq!(r.answer_ns, None);
    assert_eq!(r.flags_result_code, ResultCode::NOERROR);
}

#[test]
fn zone_answer_wins_over_delegation() {
    let config = server_config(
        "1.1.1.1",
        vec![("a.zone.".to_string(), text("2.2.2.2"))],
        vec![("zone.".to_string(), text("3.3.3.3"))],
    );
    let r = answer(&config, query(1, "a.zone."));
    assert_eq!(r.answer_a, Some(Ipv4(2, 2, 2, 2)));
    assert_eq!(r.answer_ns, None);
    let r = answer(&config, query(1, "b.zone."));
    assert_eq!(r.answer_a, None);
    assert_eq!(r.answer_ns, Some(Ipv4(3, 3, 3, 3)));
}

#[test]
fn config_file_names() {
    assert!(is_json_config_name("root.json"));
    assert!(is_json_config_name(".json"));
    assert!(!is_json_config_name("root.jsn"));
    assert!(!is_json_config_name("json"));
    assert_eq!(server_name("root.json"), "root");
    assert_eq!(server_name("telematik.json"), "telematik");
    assert_eq!(server_name(".json"), "");
}
