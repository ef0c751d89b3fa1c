//! Host resolution planning.
//!
//! A host that is a dotted-quad literal resolves without any network round
//! trip; everything else goes to the system resolver, whose first answer
//! wins. The resolver itself lives outside; this module decides which path
//! a host takes and what its answer yields.

use vstd::prelude::*;
use crate::net::{Ipv4, IpRepr, SockAddr, parse_ipv4, spec_parse_ipv4};

verus! {

#[derive(Clone, Copy, PartialEq, Eq, Structural, Debug)]
pub enum DnsError {
    /// The host has no address record.
    AddrNotAvailable,
}

/// How a host is resolved.
#[derive(Clone, Copy, PartialEq, Eq, Structural, Debug)]
pub enum ResolvePlan {
    /// A literal address: the socket address is already known.
    Literal(SockAddr),
    /// Ask the system resolver.
    Lookup,
}

/// The fast path: a dotted-quad host never reaches the resolver.
pub fn resolve_plan(host: &str, port: u16) -> (r: ResolvePlan)
    ensures
        r == (match spec_parse_ipv4(host@) {
            Some(v) => ResolvePlan::Literal(
                SockAddr { ip: IpRepr::V4(Ipv4(v)), port },
            ),
            None => ResolvePlan::Lookup,
        }),
{
    match parse_ipv4(host) {
        Some(ip) => ResolvePlan::Literal(SockAddr { ip: IpRepr::V4(ip), port }),
        None => ResolvePlan::Lookup,
    }
}

/// What a lookup's answer yields: the first resolved address, or a
/// resolution error when there is none.
pub fn resolve_finish(first: Option<SockAddr>) -> (r: Result<SockAddr, DnsError>)
    ensures
        r == (match first {
            Some(a) => Ok::<SockAddr, DnsError>(a),
            None => Err::<SockAddr, DnsError>(DnsError::AddrNotAvailable),
        }),
{
    match first {
        Some(a) => Ok(a),
        None => Err(DnsError::AddrNotAvailable),
    }
}

} // verus!
