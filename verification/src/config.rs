//! Configuration records, as plain values. Durations are milliseconds.

use vstd::prelude::*;
use crate::net::{Ipv4, Subnet};

verus! {

#[derive(Clone, Debug)]
pub struct GlobalConfig {
    pub proxy: ProxyConfig,
    pub cache: CacheConfigContainer,
    pub mongodb: MongoDBConfig,
    pub log4rs: Log4rsConfig,
}

#[derive(Clone, Debug)]
pub struct CacheConfigContainer {
    pub dns: DnsCacheConfig,
    pub auth: AuthCacheConfig,
}

#[derive(Clone, Debug)]
pub struct MongoDBConfig {
    pub uri: String,
    pub database: String,
}

#[derive(Clone, Debug)]
pub struct ProxyConfig {
    pub ports: ProxyConfigPorts,
    pub preload: ProxyConfigPreload,
    pub backlog: u32,
    pub udp: ProxyConfigUdpSocket,
}

#[derive(Clone, Copy, Debug)]
pub struct ProxyConfigUdpSocket {
    /// Idle timeout of a UDP association, in milliseconds.
    pub stale_ttl: u64,
    /// Fleet-wide ceiling on concurrent UDP associations.
    pub max_sockets: usize,
}

#[derive(Clone, Copy, Debug)]
pub struct ProxyConfigPorts {
    pub http: u16,
    pub socks: u16,
}

#[derive(Clone, Debug)]
pub struct ProxyConfigPreload {
    /// Bind-concurrency limit.
    pub tasks: usize,
    pub subnets: Option<Vec<Subnet>>,
    pub addrs: Option<Vec<Ipv4>>,
}

#[derive(Clone, Copy, Debug)]
pub struct AuthCacheConfig {
    pub max_size: u64,
    /// Entry time-to-live from insertion, in milliseconds.
    pub time_to_live: u64,
}

#[derive(Clone, Copy, Debug)]
pub struct DnsCacheConfig {
    pub max_size: usize,
    /// Resolution timeout, in milliseconds.
    pub resolution_timeout: u64,
}

#[derive(Clone, Debug)]
pub struct Log4rsConfig {
    pub location: String,
}

} // verus!
