//! An authenticating forward-proxy core: credential cache and hydration,
//! HTTP request parsing and rewriting, SOCKS5 negotiation and UDP relay
//! bookkeeping, and fleet bring-up planning.

pub mod associate;
pub mod auth;
pub mod auth_manager;
pub mod cache;
pub mod event_manager;
pub mod config;
pub mod dns;
pub mod fleet;
pub mod http_handler;
pub mod http_parser;
pub mod http_response;
pub mod models;
pub mod net;
pub mod socket_state;
pub mod socks5_handler;
pub mod socks5_msg;
pub mod text;

use vstd::prelude::*;

verus! {

} // verus!
