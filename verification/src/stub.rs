//! The stub resolver: the query it sends to the recursive resolver, how it
//! reads the response, the commands of its interactive mode, and the routing
//! decisions of its HTTP proxy.

use vstd::prelude::*;
use crate::ipv4::{Ipv4, ipv4_text, push_ipv4};
use crate::packet::{DNSPacket, DNSRequestID, QueryType, ResultCode};
use crate::text::{
    chars_of,
    contains,
    decimal,
    eq_ignore_ascii_case,
    equal_ignoring_ascii_case,
    has_substring,
    push_decimal,
    string_of,
    trim,
    trimmed,
    law_equal_ignoring_case,
    occurs_at,
};

verus! {

/// The body of the proxy's reply when a name could not be resolved.
pub const RESOLVE_FAILURE_BODY: &'static str = "failed to resolve";

/// The port of the web servers that the proxy forwards to.
pub const WEB_SERVER_PORT: u16 = 8000;

/// `domain` with the root dot at its end, added when missing.
pub open spec fn qualified(domain: Seq<char>) -> Seq<char> {
    if domain.len() > 0 && domain.last() == '.' {
        domain
    } else {
        domain.push('.')
    }
}

/// `q` is the stub's query with identifier `id` for the address of `name`.
pub open spec fn is_stub_query(q: DNSPacket, id: DNSRequestID, name: Seq<char>) -> bool {
    &&& q.id == id
    &&& q.flags_rec_desired
    &&& !q.flags_response
    &&& q.flags_result_code == ResultCode::NOERROR
    &&& !q.flags_authorative
    &&& q.qry_name@ == name
    &&& q.qry_type == QueryType::A
    &&& q.answer_a is None
    &&& q.answer_ns is None
    &&& q.resp_ttl is None
}

/// Why a response gives the stub no address.
#[derive(Clone, Copy, Debug, PartialEq, Eq, Structural)]
pub enum ResponseError {
    /// The packet is not a response.
    NotAResponse,
    /// The response is for another request.
    OtherRequest,
    /// No address, although the result code reports no error.
    NoRecordWithoutError,
    /// The name does not exist.
    NoSuchDomain,
    /// No address, with a result code the stub does not handle.
    UnhandledResultCode,
}

/// What the stub makes of `response` to its request `id`.
pub open spec fn response_result(id: DNSRequestID, response: DNSPacket) -> Result<Ipv4, ResponseError> {
    if !response.flags_response {
        Err(ResponseError::NotAResponse)
    } else if response.id != id {
        Err(ResponseError::OtherRequest)
    } else {
        match response.answer_a {
            Some(ip) => Ok(ip),
            None => Err(
                match response.flags_result_code {
                    ResultCode::NOERROR => ResponseError::NoRecordWithoutError,
                    ResultCode::NXDOMAIN => ResponseError::NoSuchDomain,
                    _ => ResponseError::UnhandledResultCode,
                },
            ),
        }
    }
}

/// The message that the stub shows for each error.
pub open spec fn error_message(e: ResponseError) -> Seq<char> {
    match e {
        ResponseError::NotAResponse => "received packet was not a response :("@,
        ResponseError::OtherRequest => "response was not for the request we send last"@,
        ResponseError::NoRecordWithoutError => "no A record but also NOERROR code, wtf???"@,
        ResponseError::NoSuchDomain => "NXDOMAIN: no ip exists for this domain"@,
        ResponseError::UnhandledResultCode => "unhandled result code in packet, no A record present"@,
    }
}

impl ResponseError {
    /// The message that the stub shows for this error.
    pub fn message(&self) -> (m: &'static str)
        ensures
            m@ == error_message(*self),
    {
        match self {
            ResponseError::NotAResponse => "received packet was not a response :(",
            ResponseError::OtherRequest => "response was not for the request we send last",
            ResponseError::NoRecordWithoutError => "no A record but also NOERROR code, wtf???",
            ResponseError::NoSuchDomain => "NXDOMAIN: no ip exists for this domain",
            ResponseError::UnhandledResultCode => "unhandled result code in packet, no A record present",
        }
    }
}

/// Adds the root dot to the end of `domain` when it is missing.
pub fn qualify_domain(domain: &mut String)
    ensures
        final(domain)@ == qualified(old(domain)@),
{
    let chars = chars_of(domain.as_str());
    let n = chars.len();
    if n == 0 || chars[n - 1] != '.' {
        domain.push('.');
    }
}

/// The query for the address of `domain`, which gets its root dot first.
pub fn prepare_query(id: DNSRequestID, domain: &mut String) -> (query: DNSPacket)
    ensures
        final(domain)@ == qualified(old(domain)@),
        is_stub_query(query, id, final(domain)@),
{
    qualify_domain(domain);
    let name = domain.clone();
    DNSPacket {
        id,
        flags_rec_desired: true,
        flags_response: false,
        flags_result_code: ResultCode::NOERROR,
        flags_authorative: false,
        qry_name: name,
        qry_type: QueryType::A,
        answer_a: None,
        answer_ns: None,
        resp_ttl: None,
    }
}

/// The address in `response` to the request `id`, or why it has none.
pub fn response_ip(id: DNSRequestID, response: &DNSPacket) -> (r: Result<Ipv4, ResponseError>)
    ensures
        r == response_result(id, *response),
{
    if !response.flags_response {
        return Err(ResponseError::NotAResponse);
    }
    if response.id != id {
        return Err(ResponseError::OtherRequest);
    }
    match response.answer_a {
        Some(ip) => Ok(ip),
        None => Err(
            match response.flags_result_code {
                ResultCode::NOERROR => ResponseError::NoRecordWithoutError,
                ResultCode::NXDOMAIN => ResponseError::NoSuchDomain,
                _ => ResponseError::UnhandledResultCode,
            },
        ),
    }
}

/// A line entered in the stub's interactive mode.
pub enum StubCommand {
    /// Leave interactive mode.
    Exit,
    /// Resolve this domain.
    Resolve(String),
}

/// The command that `line` gives: `exit` in any ASCII case, between any
/// leading and trailing whitespace, leaves; any other line, without its
/// leading and trailing whitespace, is a domain to resolve.
pub fn parse_command(line: &str) -> (c: StubCommand)
    ensures
        match c {
            StubCommand::Exit => equal_ignoring_ascii_case(trimmed(line@), "exit"@),
            StubCommand::Resolve(domain) => !equal_ignoring_ascii_case(trimmed(line@), "exit"@)
                && domain@ == trimmed(line@),
        },
{
    let chars = trim(chars_of(line).as_slice());
    let exit = chars_of("exit");
    if eq_ignore_ascii_case(chars.as_slice(), exit.as_slice()) {
        StubCommand::Exit
    } else {
        StubCommand::Resolve(string_of(chars.as_slice()))
    }
}

/// The proxy resolves a host through the DNS system when its name contains
/// `.telematik` or `.fuberlin`.
pub open spec fn resolves_locally(host: Option<Seq<char>>) -> bool {
    match host {
        Some(h) => has_substring(h, ".telematik"@) || has_substring(h, ".fuberlin"@),
        None => false,
    }
}

/// Whether the proxy resolves `host` through the DNS system rather than
/// passing the request on unchanged.
pub fn wants_local_resolution(host: Option<&str>) -> (b: bool)
    ensures
        b == resolves_locally(
            match host {
                Some(h) => Some(h@),
                None => None,
            },
        ),
{
    match host {
        Some(h) => {
            let chars = chars_of(h);
            let telematik = chars_of(".telematik");
            let fuberlin = chars_of(".fuberlin");
            contains(chars.as_slice(), telematik.as_slice()) || contains(
                chars.as_slice(),
                fuberlin.as_slice(),
            )
        },
        None => false,
    }
}

/// The authority `ip:port` of a socket address.
pub open spec fn socket_text(ip: Ipv4, port: u16) -> Seq<char> {
    ipv4_text(ip) + seq![':'] + decimal(port as nat)
}

/// The authority `ip:port` that the proxy sends a resolved request to.
pub fn socket_authority(ip: Ipv4, port: u16) -> (s: String)
    ensures
        s@ == socket_text(ip, port),
{
    let mut s = String::new();
    push_ipv4(&mut s, ip);
    s.push(':');
    push_decimal(&mut s, port as u64);
    assert(s@ =~= socket_text(ip, port));
    s
}

/// Where the proxy sends a request once the name's resolution is over.
#[derive(Debug)]
pub enum ProxyRoute {
    /// Forward the request to the web server at this authority (`ip:port`).
    Forward(String),
    /// Answer with `RESOLVE_FAILURE_BODY`.
    Fail,
}

/// The proxy's route after resolving the requested host to `resolved` (no
/// address when the resolution failed): the web server port at the address,
/// or the failure answer.
pub fn route_after_resolution(resolved: Option<Ipv4>) -> (route: ProxyRoute)
    ensures
        match resolved {
            Some(ip) => route matches ProxyRoute::Forward(a) && a@ == socket_text(ip, WEB_SERVER_PORT),
            None => route is Fail,
        },
{
    match resolved {
        Some(ip) => ProxyRoute::Forward(socket_authority(ip, WEB_SERVER_PORT)),
        None => ProxyRoute::Fail,
    }
}

/// Adding the root dot is done once: a qualified domain stays as it is, and
/// always ends with the dot.
pub proof fn law_qualify_idempotent(domain: Seq<char>)
    ensures
        qualified(qualified(domain)) == qualified(domain),
        qualified(domain).last() == '.',
        qualified(domain).len() > 0,
{
}

/// A line leaves the interactive mode only when, without its surrounding
/// whitespace, it is exactly the four letters e, x, i, t, each in either case.
pub proof fn law_exit_word(t: Seq<char>)
    ensures
        equal_ignoring_ascii_case(t, "exit"@) <==> (t.len() == 4 && (t[0] == 'e' || t[0] == 'E') && (
        t[1] == 'x' || t[1] == 'X') && (t[2] == 'i' || t[2] == 'I') && (t[3] == 't' || t[3] == 'T')),
{
    reveal_strlit("exit");
    law_equal_ignoring_case(t, "exit"@);
    let w = "exit"@;
    assert(w =~= seq!['e', 'x', 'i', 't']);
    if t.len() == 4 {
        assert(t[0] as int == 'e' as int ==> t[0] == 'e');
        assert(t[0] as int == 'E' as int ==> t[0] == 'E');
        assert(t[1] as int == 'x' as int ==> t[1] == 'x');
        assert(t[1] as int == 'X' as int ==> t[1] == 'X');
        assert(t[2] as int == 'i' as int ==> t[2] == 'i');
        assert(t[2] as int == 'I' as int ==> t[2] == 'I');
        assert(t[3] as int == 't' as int ==> t[3] == 't');
        assert(t[3] as int == 'T' as int ==> t[3] == 'T');
        if equal_ignoring_ascii_case(t, w) {
            assert(t[0] as int == w[0] as int || ('A' <= t[0] <= 'Z' && t[0] as int + 32 == w[0] as int)
                || ('A' <= w[0] <= 'Z' && w[0] as int + 32 == t[0] as int));
            assert(t[1] as int == w[1] as int || ('A' <= t[1] <= 'Z' && t[1] as int + 32 == w[1] as int)
                || ('A' <= w[1] <= 'Z' && w[1] as int + 32 == t[1] as int));
            assert(t[2] as int == w[2] as int || ('A' <= t[2] <= 'Z' && t[2] as int + 32 == w[2] as int)
                || ('A' <= w[2] <= 'Z' && w[2] as int + 32 == t[2] as int));
            assert(t[3] as int == w[3] as int || ('A' <= t[3] <= 'Z' && t[3] as int + 32 == w[3] as int)
                || ('A' <= w[3] <= 'Z' && w[3] as int + 32 == t[3] as int));
        }
        if (t[0] == 'e' || t[0] == 'E') && (t[1] == 'x' || t[1] == 'X') && (t[2] == 'i' || t[2] == 'I')
            && (t[3] == 't' || t[3] == 'T') {
            assert forall|i: int| 0 <= i < t.len() implies (#[trigger] t[i] as int == w[i] as int || (
            'A' <= t[i] <= 'Z' && t[i] as int + 32 == w[i] as int) || ('A' <= w[i] <= 'Z' && w[i] as int
                + 32 == t[i] as int)) by {
                if i == 0 {} else if i == 1 {} else if i == 2 {} else {}
            }
        }
    }
}

/// The proxy resolves through the DNS system exactly the hosts in which the
/// text `.telematik` or `.fuberlin` occurs, anywhere, at the end too.
pub proof fn law_local_hosts(h: Seq<char>)
    ensures
        resolves_locally(Some(h)) <==> ((exists|i: int|
            0 <= i && i + 10 <= h.len() && #[trigger] h.subrange(i, i + 10) == seq![
                '.',
                't',
                'e',
                'l',
                'e',
                'm',
                'a',
                't',
                'i',
                'k',
            ]) || (exists|i: int|
            0 <= i && i + 9 <= h.len() && #[trigger] h.subrange(i, i + 9) == seq![
                '.',
                'f',
                'u',
                'b',
                'e',
                'r',
                'l',
                'i',
                'n',
            ])),
        !resolves_locally(None),
{
    reveal_strlit(".telematik");
    reveal_strlit(".fuberlin");
    let tel = seq!['.', 't', 'e', 'l', 'e', 'm', 'a', 't', 'i', 'k'];
    let fub = seq!['.', 'f', 'u', 'b', 'e', 'r', 'l', 'i', 'n'];
    assert(".telematik"@ =~= tel);
    assert(".fuberlin"@ =~= fub);
    if has_substring(h, tel) {
        let i = choose|i: int| occurs_at(h, tel, i);
        assert(h.subrange(i, i + 10) == tel);
    }
    if exists|i: int| 0 <= i && i + 10 <= h.len() && #[trigger] h.subrange(i, i + 10) == tel {
        let i = choose|i: int| 0 <= i && i + 10 <= h.len() && #[trigger] h.subrange(i, i + 10) == tel;
        assert(occurs_at(h, tel, i));
    }
    if has_substring(h, fub) {
        let i = choose|i: int| occurs_at(h, fub, i);
        assert(h.subrange(i, i + 9) == fub);
    }
    if exists|i: int| 0 <= i && i + 9 <= h.len() && #[trigger] h.subrange(i, i + 9) == fub {
        let i = choose|i: int| 0 <= i && i + 9 <= h.len() && #[trigger] h.subrange(i, i + 9) == fub;
        assert(occurs_at(h, fub, i));
    }
}

/// The stub takes an address from a response exactly when the packet is a
/// response to its request and carries an address, and then takes that one.
pub proof fn law_response_ip(id: DNSRequestID, response: DNSPacket)
    ensures
        response_result(id, response) is Ok <==> (response.flags_response && response.id == id
            && response.answer_a is Some),
        response_result(id, response) is Ok ==> response_result(id, response)->Ok_0
            == response.answer_a->0,
{
}

/// Adding the root dot leaves a domain that ends with a dot as it is, and
/// otherwise appends exactly one dot.
pub proof fn law_qualified_domain(domain: Seq<char>)
    ensures
        domain.len() > 0 && domain.last() == '.' ==> qualified(domain) == domain,
        !(domain.len() > 0 && domain.last() == '.') ==> qualified(domain) == domain + seq!['.'],
{
    assert(domain.push('.') =~= domain + seq!['.']);
}

} // verus!
