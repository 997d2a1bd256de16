//! The DNS packet that every part of the system exchanges, and the fixed
//! addresses of the system.

use vstd::prelude::*;
use crate::ipv4::Ipv4;

verus! {

/// Address of the recursive resolver.
pub const RECURSIVE_RESOLVER_ADDR: &'static str = "127.0.0.10";

/// Address of the root name server.
pub const ROOT_SERVER_ADDR: &'static str = "127.0.0.100";

/// Port on which every server of the system listens.
pub const PORT: u16 = 53053;

/// Identifies a request; a response carries the identifier of its request.
#[derive(Clone, Copy, Debug, PartialEq, Eq, Structural)]
pub struct DNSRequestID(pub u32);

/// The kind of record a query asks for.
#[derive(Clone, Copy, Debug, PartialEq, Eq, Structural)]
pub enum QueryType {
    A,
}

/// The result code of a response.
#[derive(Clone, Copy, Debug, PartialEq, Eq, Structural)]
pub enum ResultCode {
    NOERROR,
    FORMERR,
    SERVFAIL,
    NXDOMAIN,
    NOTIMP,
    REFUSED,
}

/// The numeric value of a result code on the wire.
pub open spec fn result_code_value(rc: ResultCode) -> u8 {
    match rc {
        ResultCode::NOERROR => 0,
        ResultCode::FORMERR => 1,
        ResultCode::SERVFAIL => 2,
        ResultCode::NXDOMAIN => 3,
        ResultCode::NOTIMP => 4,
        ResultCode::REFUSED => 5,
    }
}

impl ResultCode {
    /// The numeric value of the result code.
    pub fn value(&self) -> (v: u8)
        ensures
            v == result_code_value(*self),
    {
        match self {
            ResultCode::NOERROR => 0,
            ResultCode::FORMERR => 1,
            ResultCode::SERVFAIL => 2,
            ResultCode::NXDOMAIN => 3,
            ResultCode::NOTIMP => 4,
            ResultCode::REFUSED => 5,
        }
    }
}

/// A DNS query or response.
#[derive(Debug)]
pub struct DNSPacket {
    pub id: DNSRequestID,
    /// The packet is a response.
    pub flags_response: bool,
    /// The sender asks for recursive resolution.
    pub flags_rec_desired: bool,
    pub flags_result_code: ResultCode,
    /// The answer comes from a server authoritative for the name.
    pub flags_authorative: bool,
    /// The name asked about.
    pub qry_name: String,
    pub qry_type: QueryType,
    /// The address of the name, when the response has one.
    pub answer_a: Option<Ipv4>,
    /// The address of a name server to ask next, when the response delegates.
    pub answer_ns: Option<Ipv4>,
    /// How long, in seconds, the address answer may be kept.
    pub resp_ttl: Option<u32>,
}

} // verus!
