use lampo::auth::parse_credentials;
use lampo::auth_manager::AuthManager;
use lampo::cache::{AuthCache, AuthCacheValue};
use lampo::config::AuthCacheConfig;
use lampo::net::{parse_ipv4, Ipv4};

fn mgr() -> AuthManager {
    AuthManager::new(AuthCache::new(AuthCacheConfig { max_size: 8, time_to_live: 1_000 }))
}

fn entry(use_credentials: bool, whitelist: Vec<&str>, expiration: i64) -> AuthCacheValue {
    AuthCacheValue {
        use_credentials,
        username: String::from("user"),
        password: String::from("pass"),
        whitelist: whitelist.iter().map(|s| s.to_string()).collect(),
        expiration,
    }
}

// `dXNlcjpwYXNz` is the base64 of `user:pass`; the decoder must really run
// for this to come back split.
#[test]
fn parses_basic_credential() {
    let got = parse_credentials("Basic dXNlcjpwYXNz");
    assert_eq!(got, Some((String::from("user"), String::from("pass"))));
}

#[test]
fn password_may_contain_colon() {
    // `dTpwOnc=` is `u:p:w`: split at the first colon only.
    let got = parse_credentials("Basic dTpwOnc=");
    assert_eq!(got, Some((String::from("u"), String::from("p:w"))));
}

#[test]
fn rejects_non_basic_and_bad_encodings() {
    assert_eq!(parse_credentials("Bearer abc"), None);
    assert_eq!(parse_credentials("Basic !!!"), None);
    // `dXNlcnBhc3M=` is `userpass`: no colon.
    assert_eq!(parse_credentials("Basic dXNlcnBhc3M="), None);
    // `OnBhc3M=` is `:pass`: empty username.
    assert_eq!(parse_credentials("Basic OnBhc3M="), None);
    // `dXNlcjo=` is `user:`: empty password.
    assert_eq!(parse_credentials("Basic dXNlcjo="), None);
    assert_eq!(parse_credentials("Basic"), None);
}

#[test]
fn credentials_must_match_exactly() {
    let m = mgr();
    let e = entry(true, vec![], 10_000);
    assert!(m.check_credentials(&e, "user", "pass", 100));
    assert!(!m.check_credentials(&e, "user", "wrong", 100));
    assert!(!m.check_credentials(&e, "User", "pass", 100));
    // A whitelist-mode entry never authenticates by credentials.
    let w = entry(false, vec![], 10_000);
    assert!(!m.check_credentials(&w, "user", "pass", 100));
}

#[test]
fn whitelist_checks_client_ip() {
    let m = mgr();
    let e = entry(false, vec!["198.51.100.5"], 10_000);
    assert!(m.check_whitelist(&e, parse_ipv4("198.51.100.5").unwrap(), 100));
    assert!(!m.check_whitelist(&e, parse_ipv4("198.51.100.9").unwrap(), 100));
    // A credential-mode entry ignores its whitelist.
    let c = entry(true, vec!["198.51.100.5"], 10_000);
    assert!(!m.check_whitelist(&c, parse_ipv4("198.51.100.5").unwrap(), 100));
}

// An entry whose expiration has passed authenticates nobody, whatever is
// presented.
#[test]
fn expired_entry_rejects_everyone() {
    let m = mgr();
    let e = entry(true, vec![], 100);
    assert!(!m.check_credentials(&e, "user", "pass", 100));
    assert!(!m.check_credentials(&e, "user", "pass", 200));
    let w = entry(false, vec!["198.51.100.5"], 100);
    assert!(!m.check_whitelist(&w, parse_ipv4("198.51.100.5").unwrap(), 100));
    // Strictly before the expiry both still work.
    let fresh = entry(true, vec![], 101);
    assert!(m.check_credentials(&fresh, "user", "pass", 100));
}

#[test]
fn lookup_miss_is_not_cached() {
    let m = mgr();
    assert!(m.lookup(Ipv4(1), 100).is_none());
    // Still a miss; nothing negative was stored.
    assert!(m.lookup(Ipv4(1), 101).is_none());
}
