//! HTTP connection decisions.
//!
//! The surrounding task parses, resolves, dials and relays; this module
//! decides whether a request authenticates and which reply each step
//! failure earns.

use vstd::prelude::*;
use crate::auth_manager::{AuthManager, spec_check_credentials, spec_check_whitelist};
use crate::cache::{AuthCacheValue, EntryModel};
use crate::http_response::HttpResponse;
use crate::net::Ipv4;

verus! {

/// Whether a request authenticates against the entry for the listen IP:
/// without an entry nobody passes; a credential-mode entry demands a valid
/// parsed credential; a whitelist-mode entry demands a known peer address,
/// no credential offered, and the address listed.
pub open spec fn spec_http_auth(
    entry: Option<EntryModel>,
    auth: Option<(Seq<char>, Seq<char>)>,
    peer: Option<Ipv4>,
    now: int,
) -> bool {
    match entry {
        None => false,
        Some(e) => if e.use_credentials {
            match auth {
                Some(c) => spec_check_credentials(e, c.0, c.1, now),
                None => false,
            }
        } else {
            match peer {
                Some(ip) => auth is None && spec_check_whitelist(e, ip.0, now),
                None => false,
            }
        },
    }
}

/// Decide a request's authentication, given the resolved entry, the parsed
/// `Proxy-Authorization` credential, and the TCP peer address if known.
pub fn handle_authentication(
    mgr: &AuthManager,
    entry: Option<&AuthCacheValue>,
    auth_data: &Option<(String, String)>,
    peer_ip: Option<Ipv4>,
    now: i64,
) -> (r: bool)
    ensures
        r == spec_http_auth(
            match entry {
                Some(e) => Some(e.model()),
                None => None,
            },
            match *auth_data {
                Some(c) => Some((c.0@, c.1@)),
                None => None,
            },
            peer_ip,
            now as int,
        ),
{
    match entry {
        None => false,
        Some(e) => {
            if e.use_credentials {
                match auth_data {
                    Some(c) => mgr.check_credentials(e, c.0.as_str(), c.1.as_str(), now),
                    None => false,
                }
            } else {
                match peer_ip {
                    Some(ip) => {
                        if auth_data.is_some() {
                            false
                        } else {
                            mgr.check_whitelist(e, ip, now)
                        }
                    },
                    None => false,
                }
            }
        },
    }
}

/// One step outcome of the per-connection pipeline.
#[derive(Clone, Copy, PartialEq, Eq, Structural, Debug)]
pub enum HttpStep {
    /// The request did not parse.
    ParseFailed,
    /// Authentication failed.
    AuthFailed,
    /// The target host did not resolve.
    ResolveFailed,
    /// The outbound dial failed.
    DialFailed,
    /// A CONNECT request authenticated and dialed.
    ConnectEstablished,
    /// Writing the forwarded request failed.
    ForwardWriteFailed,
    /// Writing the forwarded request timed out.
    ForwardWriteTimeout,
    /// The bidirectional relay hit its idle bound.
    RelayTimeout,
    /// The relay finished.
    RelayDone,
}

/// The reply each step earns, if any; `None` closes without a reply.
pub open spec fn spec_reply_for(step: HttpStep) -> Option<HttpResponse> {
    match step {
        HttpStep::ParseFailed => None,
        HttpStep::AuthFailed => Some(HttpResponse::ProxyAuthenticationRequired),
        HttpStep::ResolveFailed => Some(HttpResponse::InternalServerError),
        HttpStep::DialFailed => Some(HttpResponse::InternalServerError),
        HttpStep::ConnectEstablished => Some(HttpResponse::OkEstablished),
        HttpStep::ForwardWriteFailed => Some(HttpResponse::BadGateway),
        HttpStep::ForwardWriteTimeout => Some(HttpResponse::GatewayTimeout),
        HttpStep::RelayTimeout => Some(HttpResponse::GatewayTimeout),
        HttpStep::RelayDone => None,
    }
}

pub fn reply_for(step: HttpStep) -> (r: Option<HttpResponse>)
    ensures
        r == spec_reply_for(step),
{
    match step {
        HttpStep::ParseFailed => None,
        HttpStep::AuthFailed => Some(HttpResponse::ProxyAuthenticationRequired),
        HttpStep::ResolveFailed => Some(HttpResponse::InternalServerError),
        HttpStep::DialFailed => Some(HttpResponse::InternalServerError),
        HttpStep::ConnectEstablished => Some(HttpResponse::OkEstablished),
        HttpStep::ForwardWriteFailed => Some(HttpResponse::BadGateway),
        HttpStep::ForwardWriteTimeout => Some(HttpResponse::GatewayTimeout),
        HttpStep::RelayTimeout => Some(HttpResponse::GatewayTimeout),
        HttpStep::RelayDone => None,
    }
}

} // verus!
