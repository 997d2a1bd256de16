//! Shared library of a small DNS system: the packet exchanged between the
//! stub resolver, the recursive resolver and the authoritative servers, and
//! the decisions each of those programs takes.

pub mod text;
pub mod ipv4;
pub mod packet;
pub mod server;
pub mod resolver;
pub mod stub;
pub mod laws;
