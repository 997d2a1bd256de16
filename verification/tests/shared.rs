use dns_shared::ipv4::{Ipv4, ipv4_to_string, parse_ipv4};
use dns_shared::packet::{DNSPacket, DNSRequestID, QueryType, ResultCode, PORT, RECURSIVE_RESOLVER_ADDR, ROOT_SERVER_ADDR};

#[test]
fn it_works() {
    assert_eq!(2 + 2, 4);
}

fn request(id: u32, name: &str) -> DNSPacket {
    DNSPacket {
        id: DNSRequestID(id),
        flags_response: false,
        flags_rec_desired: true,
        flags_result_code: ResultCode::NOERROR,
        flags_authorative: false,
        qry_name: name.to_string(),
        qry_type: QueryType::A,
        answer_a: None,
        answer_ns: None,
        resp_ttl: None,
    }
}

#[test]
fn parses_dotted_decimal_addresses() {
    assert_eq!(parse_ipv4("127.0.0.100"), Some(Ipv4(127, 0, 0, 100)));
    assert_eq!(parse_ipv4("0.0.0.0"), Some(Ipv4(0, 0, 0, 0)));
    assert_eq!(parse_ipv4("255.255.255.255"), Some(Ipv4(255, 255, 255, 255)));
    assert_eq!(parse_ipv4("10.20.30.40"), Some(Ipv4::new(10, 20, 30, 40)));
}

#[test]
fn rejects_malformed_addresses() {
    for text in [
        "", "1.2.3", "1.2.3.4.5", "1..3.4", "01.2.3.4", "1.2.3.00", "256.1.1.1", "1.2.3.999",
        "1234.1.1.1", "a.b.c.d", " 1.2.3.4", "1.2.3.4 ", "1.2.3.4.", "-1.2.3.4", "1.2.3.+4",
        "１.2.3.4",
    ] {
        assert_eq!(parse_ipv4(text), None, "{:?}", text);
    }
}

#[test]
fn the_fixed_addresses_parse() {
    assert_eq!(parse_ipv4(RECURSIVE_RESOLVER_ADDR), Some(Ipv4(127, 0, 0, 10)));
    assert_eq!(parse_ipv4(ROOT_SERVER_ADDR), Some(Ipv4(127, 0, 0, 100)));
    assert_eq!(PORT, 53053);
}

#[test]
fn address_text_round_trips() {
    for ip in [Ipv4(0, 0, 0, 0), Ipv4(1, 22, 133, 255), Ipv4(127, 0, 0, 1), Ipv4(9, 10, 99, 100)] {
        let text = ipv4_to_string(ip);
        assert_eq!(parse_ipv4(&text), Some(ip));
    }
    assert_eq!(ipv4_to_string(Ipv4(192, 168, 0, 17)), "192.168.0.17");
    for text in ["8.8.4.4", "100.0.10.255"] {
        assert_eq!(ipv4_to_string(parse_ipv4(text).unwrap()), text);
    }
}

#[test]
fn octets_in_order() {
    assert_eq!(Ipv4(1, 2, 3, 4).octets(), [1, 2, 3, 4]);
}

#[test]
fn result_code_values() {
    assert_eq!(ResultCode::NOERROR.value(), 0);
    assert_eq!(ResultCode::FORMERR.value(), 1);
    assert_eq!(ResultCode::SERVFAIL.value(), 2);
    assert_eq!(ResultCode::NXDOMAIN.value(), 3);
    assert_eq!(ResultCode::NOTIMP.value(), 4);
    assert_eq!(ResultCode::REFUSED.value(), 5);
}

#[test]
fn packet_fields_carry_over() {
    let p = request(7, "a.telematik.");
    assert_eq!(p.id, DNSRequestID(7));
    assert_eq!(p.qry_type, QueryType::A);
    assert!(!p.flags_response);
}
