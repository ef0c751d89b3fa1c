//! Records of the external document store, held as plain values.
//!
//! Identifiers are carried as text and timestamps as milliseconds since the
//! epoch; nothing here depends on the store's driver.

use vstd::prelude::*;

verus! {

/// A tenant's order: owner, product, embedded proxy descriptor and expiry.
#[derive(Clone, Debug)]
pub struct UserOrder {
    pub _id: String,
    pub uuid: String,
    pub user_id: String,
    pub product_name: String,
    pub product_slug: String,
    pub proxy: UserOrderProxy,
    pub counters: UserOrderCounters,
    /// Expiration timestamp, milliseconds since the epoch.
    pub expiration: i64,
}

#[derive(Clone, Debug)]
pub struct UserOrderCounters {
    pub requests_limit: u64,
    pub requests_usage: u64,
}

/// The proxy descriptor embedded in an order. `username` and `password` are
/// either both of length one (a single shared credential) or both of length
/// `count` (one credential per sibling proxy).
#[derive(Clone, Debug)]
pub struct UserOrderProxy {
    pub count: u64,
    pub username: Vec<String>,
    pub password: Vec<String>,
    pub whitelist: Vec<String>,
    pub use_credentials: bool,
}

/// A stock row: one public address and the order using it, if any.
#[derive(Clone, Debug)]
pub struct Stock {
    pub subnet: String,
    pub provider: String,
    pub public: bool,
    pub address: String,
    pub used_by: Option<String>,
    pub used_in_order: Option<String>,
    /// Milliseconds since the epoch, if bounded.
    pub used_until: Option<i64>,
}

/// An order uses one credential pair per sibling exactly when neither the
/// username list nor the password list is a single shared entry.
pub open spec fn spec_multi_credentials(proxy: UserOrderProxy) -> bool {
    proxy.username@.len() != 1 && proxy.password@.len() != 1
}

impl UserOrderProxy {
    pub fn multi_credentials(&self) -> (r: bool)
        ensures
            r == spec_multi_credentials(*self),
    {
        self.username.len() != 1 && self.password.len() != 1
    }
}

} // verus!
