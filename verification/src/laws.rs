//! Laws that tie the parts of the system together: what the stub makes of
//! the answers that the name servers and the recursive resolver give.

use vstd::prelude::*;
use crate::ipv4::Ipv4;
use crate::packet::{DNSPacket, DNSRequestID};
use crate::resolver::{cached_response, iterative_query};
use crate::server::{ServerConfig, record_views, server_answer, zone_answer};
use crate::stub::{ResponseError, is_stub_query, response_result};

verus! {

/// The stub's query, answered by a name server (directly, or through the
/// resolver, which asks without recursion and passes the response on), gives
/// the stub the zone's address for the name; when the zone has none, the
/// stub reports a missing record without error code.
pub proof fn law_stub_reads_server_answer(
    config: &ServerConfig,
    query: DNSPacket,
    id: DNSRequestID,
    name: Seq<char>,
)
    requires
        is_stub_query(query, id, name),
    ensures
        response_result(id, server_answer(config, query)) == match zone_answer(
            record_views(config.zone@),
            name,
        ) {
            Some(ip) => Ok(ip),
            None => Err(ResponseError::NoRecordWithoutError),
        },
        response_result(id, server_answer(config, iterative_query(query))) == match zone_answer(
            record_views(config.zone@),
            name,
        ) {
            Some(ip) => Ok(ip),
            None => Err(ResponseError::NoRecordWithoutError),
        },
{
}

/// An answer from the resolver's cache to the stub's request gives the stub
/// the cached address.
pub proof fn law_stub_reads_cached_answer(request: DNSPacket, ip: Ipv4, id: DNSRequestID)
    requires
        request.id == id,
    ensures
        response_result(id, cached_response(request, ip)) == Ok::<Ipv4, ResponseError>(ip),
{
}

} // verus!
