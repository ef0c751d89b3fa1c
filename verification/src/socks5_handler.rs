//! SOCKS5 handshake decisions.
//!
//! The surrounding task reads and writes the wire messages; everything the
//! protocol decides — whether the offered methods are acceptable, which
//! method to answer, whether a credential or a client address authenticates
//! — is decided here against the authorization entry for the listen IP.

use vstd::prelude::*;
use crate::auth::utf8_of;
use crate::auth_manager::{
    AuthManager, spec_check_credentials, spec_check_whitelist,
};
use crate::cache::AuthCacheValue;
use crate::net::Ipv4;
use crate::socks5_msg::{
    Command, METHOD_NONE, METHOD_PASSWORD, METHOD_UNACCEPTABLE,
};
use crate::text::str_eq;

verus! {

#[derive(Clone, Copy, PartialEq, Eq, Structural, Debug)]
pub enum Socks5HandlerError {
    Socks5Proto,
    PeerAddrError,
    OutboundError,
    StreamReadError,
    StreamWriteError,
    AuthenticationError,
    ClosedConnection,
    StreamReadTimeout,
    StreamWriteTimeout,
    DnsResolutionError,
    BindUdpSocketError,
    AssociationError,
    SocketLimitReached,
    Unknown,
}

/// The client's method offer is acceptable when it includes either no-auth
/// or username/password.
pub open spec fn spec_methods_acceptable(ms: Seq<u8>) -> bool {
    ms.contains(METHOD_NONE) || ms.contains(METHOD_PASSWORD)
}

/// Whether the offered methods allow the negotiation to continue.
pub fn check_methods(methods: &Vec<u8>) -> (r: bool)
    ensures
        r == spec_methods_acceptable(methods@),
{
    let n = methods.len();
    let mut i: usize = 0;
    while i < n
        invariant
            0 <= i <= n,
            n == methods@.len(),
            forall|j: int| 0 <= j < i ==> methods@[j] != METHOD_NONE && methods@[j]
                != METHOD_PASSWORD,
        decreases n - i,
    {
        let m = methods[i];
        if m == METHOD_NONE || m == METHOD_PASSWORD {
            return true;
        }
        i = i + 1;
    }
    proof {
        if spec_methods_acceptable(methods@) {
            if methods@.contains(METHOD_NONE) {
                let j = choose|j: int| 0 <= j < methods@.len() && methods@[j] == METHOD_NONE;
                assert(false);
            } else {
                let j = choose|j: int|
                    0 <= j < methods@.len() && methods@[j] == METHOD_PASSWORD;
                assert(false);
            }
        }
    }
    false
}

/// What the handshake answers once the methods are acceptable.
#[derive(Clone, Copy, PartialEq, Eq, Structural, Debug)]
pub enum AuthDecision {
    /// No entry for the listen IP, or the whitelist rejects the client:
    /// answer unacceptable and close.
    Reject,
    /// Credential mode: answer the password method and await the
    /// sub-negotiation.
    NeedPassword,
    /// Whitelist mode and the client's address is listed: answer no-auth.
    AcceptNone,
}

/// The method decision for the entry resolved for the listen IP: reject
/// without an entry, demand a password in credential mode, and in whitelist
/// mode admit exactly the listed client addresses.
pub fn auth_decision(
    mgr: &AuthManager,
    entry: Option<&AuthCacheValue>,
    peer_ip: Ipv4,
    now: i64,
) -> (r: AuthDecision)
    ensures
        r == (match entry {
            None => AuthDecision::Reject,
            Some(e) => if e.model().use_credentials {
                AuthDecision::NeedPassword
            } else if spec_check_whitelist(e.model(), peer_ip.0, now as int) {
                AuthDecision::AcceptNone
            } else {
                AuthDecision::Reject
            },
        }),
{
    match entry {
        None => AuthDecision::Reject,
        Some(e) => {
            if e.use_credentials {
                AuthDecision::NeedPassword
            } else if mgr.check_whitelist(e, peer_ip, now) {
                AuthDecision::AcceptNone
            } else {
                AuthDecision::Reject
            }
        },
    }
}

/// The method byte answered for a decision.
pub fn method_for_decision(d: AuthDecision) -> (r: u8)
    ensures
        r == (match d {
            AuthDecision::Reject => METHOD_UNACCEPTABLE,
            AuthDecision::NeedPassword => METHOD_PASSWORD,
            AuthDecision::AcceptNone => METHOD_NONE,
        }),
{
    match d {
        AuthDecision::Reject => METHOD_UNACCEPTABLE,
        AuthDecision::NeedPassword => METHOD_PASSWORD,
        AuthDecision::AcceptNone => METHOD_NONE,
    }
}

/// Check a sub-negotiation credential against the entry: the wire bytes
/// must be text, both strings must match, and the entry must be unexpired.
pub fn check_password_bytes(
    mgr: &AuthManager,
    entry: &AuthCacheValue,
    username: Vec<u8>,
    password: Vec<u8>,
    now: i64,
) -> (r: bool)
    ensures
        r == (match (utf8_of(username@), utf8_of(password@)) {
            (Some(u), Some(p)) => spec_check_credentials(entry.model(), u, p, now as int),
            _ => false,
        }),
{
    let u = match crate::auth::utf8_to_string(username) {
        Some(u) => u,
        None => {
            return false;
        },
    };
    let p = match crate::auth::utf8_to_string(password) {
        Some(p) => p,
        None => {
            return false;
        },
    };
    mgr.check_credentials(entry, u.as_str(), p.as_str(), now)
}

/// What a command dispatches to.
#[derive(Clone, Copy, PartialEq, Eq, Structural, Debug)]
pub enum CommandPlan {
    /// Dial the target and relay.
    DoConnect,
    /// Admit, bind a UDP socket and run the association.
    DoAssociate,
    /// Unsupported: answer `CommandNotSupported` and close.
    RejectBind,
}

pub fn plan_command(cmd: Command) -> (r: CommandPlan)
    ensures
        r == (match cmd {
            Command::Connect => CommandPlan::DoConnect,
            Command::Associate => CommandPlan::DoAssociate,
            Command::Bind => CommandPlan::RejectBind,
        }),
{
    match cmd {
        Command::Connect => CommandPlan::DoConnect,
        Command::Associate => CommandPlan::DoAssociate,
        Command::Bind => CommandPlan::RejectBind,
    }
}

} // verus!
