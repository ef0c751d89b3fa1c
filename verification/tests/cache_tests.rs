use lampo::auth_manager::AuthManager;
use lampo::cache::{AuthCache, AuthCacheValue};
use lampo::config::AuthCacheConfig;
use lampo::event_manager::{handle_delete, handle_insert, handle_update};
use lampo::models::{UserOrder, UserOrderCounters, UserOrderProxy};
use lampo::net::{parse_ipv4, Ipv4};

fn order(use_credentials: bool, usernames: Vec<&str>, passwords: Vec<&str>) -> UserOrder {
    UserOrder {
        _id: String::from("o1"),
        uuid: String::from("u-1"),
        user_id: String::from("tenant"),
        product_name: String::from("ISP"),
        product_slug: String::from("isp"),
        proxy: UserOrderProxy {
            count: usernames.len() as u64,
            username: usernames.iter().map(|s| s.to_string()).collect(),
            password: passwords.iter().map(|s| s.to_string()).collect(),
            whitelist: Vec::new(),
            use_credentials,
        },
        counters: UserOrderCounters { requests_limit: 0, requests_usage: 0 },
        expiration: 10_000,
    }
}

fn cache(max: u64, ttl: u64) -> AuthCache {
    AuthCache::new(AuthCacheConfig { max_size: max, time_to_live: ttl })
}

#[test]
fn get_serves_fresh_entries_only() {
    let mut c = cache(8, 1_000);
    let o = order(true, vec!["user"], vec!["pass"]);
    c.insert(Ipv4(1), &o, 0, 100);
    assert!(c.get(Ipv4(1), 500).is_some());
    // At or past insertion + TTL the entry no longer serves.
    assert!(c.get(Ipv4(1), 1_100).is_none());
    assert!(c.get(Ipv4(2), 500).is_none());
}

#[test]
fn insert_materializes_entry() {
    let mut c = cache(8, 1_000);
    let o = order(true, vec!["user"], vec!["pass"]);
    let v = c.insert(Ipv4(1), &o, 0, 100);
    assert_eq!(v.username, "user");
    assert_eq!(v.password, "pass");
    assert!(v.use_credentials);
    assert_eq!(v.expiration, 10_000);
}

#[test]
fn eviction_drops_oldest() {
    let mut c = cache(2, 1_000);
    let o = order(true, vec!["user"], vec!["pass"]);
    c.insert(Ipv4(1), &o, 0, 100);
    c.insert(Ipv4(2), &o, 0, 100);
    c.insert(Ipv4(3), &o, 0, 100);
    assert!(c.get(Ipv4(1), 100).is_none());
    assert!(c.get(Ipv4(2), 100).is_some());
    assert!(c.get(Ipv4(3), 100).is_some());
    assert_eq!(c.len(), 2);
}

// A zero capacity is honored as retaining nothing: every lookup misses and
// hydration still hands the caller its entry.
#[test]
fn zero_capacity_retains_nothing() {
    let mut c = cache(0, 1_000);
    let o = order(true, vec!["user"], vec!["pass"]);
    let v = c.insert(Ipv4(1), &o, 0, 100);
    assert_eq!(v.username, "user");
    assert!(c.get(Ipv4(1), 100).is_none());
    assert_eq!(c.len(), 0);

    let mut mgr = AuthManager::new(cache(0, 1_000));
    let siblings = vec!["10.0.0.1".to_string()];
    let got = mgr.hydrate(parse_ipv4("10.0.0.1").unwrap(), &o, &siblings, 100);
    assert!(got.is_some());
    assert!(mgr.lookup(parse_ipv4("10.0.0.1").unwrap(), 100).is_none());
}

#[test]
fn delete_removes_entry() {
    let mut c = cache(8, 1_000);
    let o = order(true, vec!["user"], vec!["pass"]);
    c.insert(Ipv4(1), &o, 0, 100);
    c.delete(Ipv4(1));
    assert!(c.get(Ipv4(1), 100).is_none());
}

// A single hydration primes the cache for the listen IP; the next lookup
// hits and no further hydration is needed.
#[test]
fn one_hydration_then_hits() {
    let mut mgr = AuthManager::new(cache(8, 1_000));
    let o = order(true, vec!["user"], vec!["pass"]);
    let siblings = vec!["10.0.0.1".to_string(), "10.0.0.2".to_string()];
    let listen = parse_ipv4("10.0.0.2").unwrap();
    assert!(mgr.lookup(listen, 100).is_none());
    let got = mgr.hydrate(listen, &o, &siblings, 100);
    assert!(got.is_some());
    // Hit from here on, until TTL or eviction.
    assert!(mgr.lookup(listen, 500).is_some());
    assert!(mgr.lookup(parse_ipv4("10.0.0.1").unwrap(), 500).is_some());
}

// With multi-credentials, sibling i carries pair i; with a single shared
// pair, every sibling carries pair 0.
#[test]
fn sibling_credentials_by_position() {
    let mut mgr = AuthManager::new(cache(8, 1_000));
    let multi = order(true, vec!["u0", "u1", "u2"], vec!["p0", "p1", "p2"]);
    let siblings = vec![
        "10.0.0.1".to_string(),
        "10.0.0.2".to_string(),
        "10.0.0.3".to_string(),
    ];
    mgr.hydrate(parse_ipv4("10.0.0.1").unwrap(), &multi, &siblings, 100);
    let e1 = mgr.lookup(parse_ipv4("10.0.0.2").unwrap(), 100).unwrap();
    assert_eq!(e1.username, "u1");
    assert_eq!(e1.password, "p1");
    let e2 = mgr.lookup(parse_ipv4("10.0.0.3").unwrap(), 100).unwrap();
    assert_eq!(e2.username, "u2");

    let mut mgr2 = AuthManager::new(cache(8, 1_000));
    let shared = order(true, vec!["only"], vec!["one"]);
    mgr2.hydrate(parse_ipv4("10.0.0.1").unwrap(), &shared, &siblings, 100);
    for a in ["10.0.0.1", "10.0.0.2", "10.0.0.3"] {
        let e = mgr2.lookup(parse_ipv4(a).unwrap(), 100).unwrap();
        assert_eq!(e.username, "only");
        assert_eq!(e.password, "one");
    }
}

#[test]
fn hydrate_returns_entry_for_listen_ip() {
    let mut mgr = AuthManager::new(cache(8, 1_000));
    let o = order(true, vec!["u0", "u1"], vec!["p0", "p1"]);
    let siblings = vec!["10.0.0.1".to_string(), "10.0.0.2".to_string()];
    let got = mgr.hydrate(parse_ipv4("10.0.0.2").unwrap(), &o, &siblings, 100).unwrap();
    assert_eq!(got.username, "u1");
    let none = mgr.hydrate(parse_ipv4("10.9.9.9").unwrap(), &o, &siblings, 100);
    assert!(none.is_none());
}

// Two consecutive updates with identical documents produce identical cache
// state.
#[test]
fn repeated_update_is_idempotent() {
    let mut c = cache(8, 1_000);
    let o = order(true, vec!["u0", "u1"], vec!["p0", "p1"]);
    let siblings = vec!["10.0.0.1".to_string(), "10.0.0.2".to_string()];
    handle_update(&mut c, &o, &siblings, 100);
    let first: Vec<Option<AuthCacheValue>> = ["10.0.0.1", "10.0.0.2"]
        .iter()
        .map(|a| c.get(parse_ipv4(a).unwrap(), 100).map(|v| v.duplicate()))
        .collect();
    handle_update(&mut c, &o, &siblings, 100);
    for (i, a) in ["10.0.0.1", "10.0.0.2"].iter().enumerate() {
        let v = c.get(parse_ipv4(a).unwrap(), 100).unwrap();
        let w = first[i].as_ref().unwrap();
        assert_eq!(v.username, w.username);
        assert_eq!(v.password, w.password);
        assert_eq!(v.expiration, w.expiration);
    }
    assert_eq!(c.len(), 2);
}

#[test]
fn non_isp_orders_are_ignored() {
    let mut c = cache(8, 1_000);
    let mut o = order(true, vec!["user"], vec!["pass"]);
    o.product_slug = String::from("datacenter");
    let siblings = vec!["10.0.0.1".to_string()];
    handle_insert(&mut c, &o, &siblings, 100);
    assert!(c.get(parse_ipv4("10.0.0.1").unwrap(), 100).is_none());
}

// Change-stream delete: order with siblings [a, b, c] deleted; afterwards
// every sibling lookup is empty.
#[test]
fn delete_event_clears_all_siblings() {
    let mut c = cache(8, 1_000);
    let o = order(true, vec!["user"], vec!["pass"]);
    let siblings = vec![
        "10.0.0.1".to_string(),
        "10.0.0.2".to_string(),
        "10.0.0.3".to_string(),
    ];
    handle_insert(&mut c, &o, &siblings, 100);
    assert_eq!(c.len(), 3);
    handle_delete(&mut c, &o, &siblings);
    assert!(c.get(parse_ipv4("10.0.0.1").unwrap(), 100).is_none());
    assert!(c.get(parse_ipv4("10.0.0.2").unwrap(), 100).is_none());
    assert!(c.get(parse_ipv4("10.0.0.3").unwrap(), 100).is_none());
}
