use lampo::auth_manager::AuthManager;
use lampo::cache::{AuthCache, AuthCacheValue};
use lampo::config::AuthCacheConfig;
use lampo::http_handler::{handle_authentication, reply_for, HttpStep};
use lampo::http_parser::{head_complete, parse_request, HttpParserError, HttpRequestData};
use lampo::http_response::HttpResponse;
use lampo::net::parse_ipv4;

fn parse(s: &str) -> Result<HttpRequestData, HttpParserError> {
    parse_request(&s.as_bytes().to_vec())
}

fn mgr() -> AuthManager {
    AuthManager::new(AuthCache::new(AuthCacheConfig { max_size: 8, time_to_live: 60_000 }))
}

// HTTP CONNECT happy path: the request parses with the CONNECT target, the
// credential authenticates against the tenant entry, and the established
// reply has its exact wire form.
#[test]
fn connect_happy_path() {
    let d = parse(
        "CONNECT example.com:443 HTTP/1.1\r\nHost: example.com:443\r\nProxy-Authorization: Basic dXNlcjpwYXNz\r\n\r\n",
    )
    .unwrap();
    assert_eq!(d.method, b"CONNECT".to_vec());
    assert_eq!(d.host.0, b"example.com".to_vec());
    assert_eq!(d.host.1, 443);
    assert_eq!(
        d.authentication,
        Some((String::from("user"), String::from("pass")))
    );
    let entry = AuthCacheValue {
        use_credentials: true,
        username: String::from("user"),
        password: String::from("pass"),
        whitelist: Vec::new(),
        expiration: 3_600_000,
    };
    let m = mgr();
    let peer = parse_ipv4("198.51.100.5");
    assert!(handle_authentication(&m, Some(&entry), &d.authentication, peer, 0));
    assert_eq!(
        reply_for(HttpStep::ConnectEstablished),
        Some(HttpResponse::OkEstablished)
    );
    assert_eq!(
        HttpResponse::OkEstablished.as_bytes(),
        b"HTTP/1.1 200 Connection Established\r\n\r\n"
    );
}

// Whitelist rejection: a client off the whitelist gets the full 407
// challenge.
#[test]
fn whitelist_rejection() {
    let d = parse("GET http://example.com/ HTTP/1.1\r\nHost: example.com\r\n\r\n").unwrap();
    let entry = AuthCacheValue {
        use_credentials: false,
        username: String::new(),
        password: String::new(),
        whitelist: vec![String::from("198.51.100.5")],
        expiration: 3_600_000,
    };
    let m = mgr();
    let peer = parse_ipv4("198.51.100.9");
    assert!(!handle_authentication(&m, Some(&entry), &d.authentication, peer, 0));
    assert_eq!(
        reply_for(HttpStep::AuthFailed),
        Some(HttpResponse::ProxyAuthenticationRequired)
    );
    assert_eq!(
        HttpResponse::ProxyAuthenticationRequired.as_bytes(),
        b"HTTP/1.1 407 Proxy Authentication Required\r\nProxy-Authenticate: Basic realm=\"Leastslow Network\"\r\n\r\nAccess Denied".as_slice()
    );
    // The listed client passes.
    assert!(handle_authentication(
        &m,
        Some(&entry),
        &d.authentication,
        parse_ipv4("198.51.100.5"),
        0
    ));
}

// Absolute-URI rewrite: the upstream request starts in origin form.
#[test]
fn absolute_uri_rewrite() {
    let d = parse("GET http://example.com/foo?bar=1 HTTP/1.1\r\nUser-Agent: t\r\n\r\n").unwrap();
    let out = d.into_request();
    let text = String::from_utf8(out).unwrap();
    assert!(text.starts_with("GET /foo?bar=1 HTTP/1.1\r\nUser-Agent: t\r\n\r\n"));
}

#[test]
fn rewrite_defaults_empty_path_to_slash() {
    let d = parse("GET http://example.com HTTP/1.1\r\nHost: example.com\r\n\r\n").unwrap();
    let out = d.into_request();
    let text = String::from_utf8(out).unwrap();
    assert!(text.starts_with("GET / HTTP/1.1\r\n"));
}

#[test]
fn host_from_absolute_uri() {
    let d = parse("GET http://example.com:8080/x HTTP/1.1\r\n\r\n").unwrap();
    assert_eq!(d.host.0, b"example.com".to_vec());
    assert_eq!(d.host.1, 8080);
    let d2 = parse("GET https://example.com/x HTTP/1.1\r\n\r\n").unwrap();
    assert_eq!(d2.host.1, 443);
}

#[test]
fn host_from_header_fallback() {
    let d = parse("GET /x HTTP/1.1\r\nHost: example.com:99\r\n\r\n").unwrap();
    assert_eq!(d.host.0, b"example.com".to_vec());
    assert_eq!(d.host.1, 99);
    let d2 = parse("GET /x HTTP/1.0\r\nHost: example.com\r\n\r\n").unwrap();
    assert_eq!(d2.host.1, 80);
    assert_eq!(d2.version, b"1.0".to_vec());
}

#[test]
fn connect_port_defaults() {
    let d = parse("CONNECT example.com HTTP/1.1\r\n\r\n").unwrap();
    assert_eq!(d.host.1, 443);
    let d2 = parse("CONNECT example.com:99999 HTTP/1.1\r\n\r\n").unwrap();
    assert_eq!(d2.host.1, 443);
}

// Proxy-Authorization is consumed: it reaches authentication but never the
// forwarded headers.
#[test]
fn proxy_authorization_never_forwarded() {
    let d = parse(
        "GET /x HTTP/1.1\r\nHost: h\r\nProxy-Authorization: Basic dXNlcjpwYXNz\r\nAccept: */*\r\n\r\n",
    )
    .unwrap();
    assert!(d.authentication.is_some());
    for h in &d.headers {
        let name = String::from_utf8(h.name.clone()).unwrap().to_ascii_lowercase();
        assert_ne!(name, "proxy-authorization");
    }
    let out = String::from_utf8(d.into_request()).unwrap();
    assert!(!out.to_ascii_lowercase().contains("proxy-authorization"));
    assert!(out.contains("Accept: */*\r\n"));
    assert!(out.contains("Host: h\r\n"));
}

// Round trip: serializing a parsed request and parsing again yields the
// same record, minus the consumed credential.
#[test]
fn serialize_then_reparse() {
    let d = parse(
        "GET /x?q=1 HTTP/1.1\r\nHost: h:8080\r\nProxy-Authorization: Basic dXNlcjpwYXNz\r\nAccept: */*\r\n\r\n",
    )
    .unwrap();
    let out = d.into_request();
    let d2 = parse_request(&out).unwrap();
    assert_eq!(d2.method, d.method);
    assert_eq!(d2.path, d.path);
    assert_eq!(d2.version, d.version);
    assert_eq!(d2.host.0, d.host.0);
    assert_eq!(d2.host.1, d.host.1);
    assert_eq!(d2.headers.len(), d.headers.len());
    assert!(d2.authentication.is_none());
    assert!(d2.body.is_empty());
}

#[test]
fn parse_error_variants() {
    assert!(matches!(parse("nonsense"), Err(HttpParserError::Unknown)));
    assert!(matches!(
        parse(" / HTTP/1.1\r\n\r\n"),
        Err(HttpParserError::MissingMethod)
    ));
    assert!(matches!(
        parse("GET  HTTP/1.1\r\n\r\n"),
        Err(HttpParserError::MissingPath)
    ));
    assert!(matches!(
        parse("GET / HTTP/2.0\r\n\r\n"),
        Err(HttpParserError::InvalidVersion)
    ));
    assert!(matches!(
        parse("GET /x HTTP/1.1\r\n\r\n"),
        Err(HttpParserError::MissingHost)
    ));
    let huge = format!("GET /x HTTP/1.1\r\nHost: h\r\nA: {}\r\n\r\n", "y".repeat(17_000));
    assert!(matches!(
        parse(&huge),
        Err(HttpParserError::BufferLimitExceeded)
    ));
}

#[test]
fn header_whitespace_is_trimmed() {
    let d = parse("GET /x HTTP/1.1\r\nHost:    h\r\n\r\n").unwrap();
    assert_eq!(d.host.0, b"h".to_vec());
    assert_eq!(d.headers[0].value, b"h".to_vec());
}

#[test]
fn head_completeness_by_empty_line() {
    assert!(!head_complete(&b"GET /x HTTP/1.1\r\nHost: h\r\n".to_vec()));
    assert!(head_complete(&b"GET /x HTTP/1.1\r\nHost: h\r\n\r\n".to_vec()));
    assert!(head_complete(&b"GET /x HTTP/1.1\r\n\r\nbody".to_vec()));
    assert!(!head_complete(&b"\r\n".to_vec()));
}

#[test]
fn body_tail_is_kept() {
    let d = parse("POST /x HTTP/1.1\r\nHost: h\r\n\r\nhello").unwrap();
    assert_eq!(d.body, b"hello".to_vec());
}

#[test]
fn response_table_wire_forms() {
    assert_eq!(HttpResponse::StatusOk.as_bytes(), b"HTTP/1.1 200 OK\r\n\r\n");
    assert_eq!(
        HttpResponse::InternalServerError.as_bytes(),
        b"HTTP/1.1 500 Internal Server Error\r\n\r\n"
    );
    assert_eq!(
        HttpResponse::BadGateway.as_bytes(),
        b"HTTP/1.1 502 Bad Gateway\r\n\r\n"
    );
    assert_eq!(
        HttpResponse::GatewayTimeout.as_bytes(),
        b"HTTP/1.1 504 Gateway Timeout\r\n\r\n"
    );
}

#[test]
fn step_replies() {
    assert_eq!(reply_for(HttpStep::ParseFailed), None);
    assert_eq!(
        reply_for(HttpStep::ResolveFailed),
        Some(HttpResponse::InternalServerError)
    );
    assert_eq!(
        reply_for(HttpStep::DialFailed),
        Some(HttpResponse::InternalServerError)
    );
    assert_eq!(
        reply_for(HttpStep::ForwardWriteFailed),
        Some(HttpResponse::BadGateway)
    );
    assert_eq!(
        reply_for(HttpStep::RelayTimeout),
        Some(HttpResponse::GatewayTimeout)
    );
    assert_eq!(reply_for(HttpStep::RelayDone), None);
}

// Whitelist mode also requires that the request carried no credential.
#[test]
fn whitelist_mode_rejects_offered_credentials() {
    let m = mgr();
    let entry = AuthCacheValue {
        use_credentials: false,
        username: String::new(),
        password: String::new(),
        whitelist: vec![String::from("198.51.100.5")],
        expiration: 3_600_000,
    };
    let auth = Some((String::from("user"), String::from("pass")));
    assert!(!handle_authentication(
        &m,
        Some(&entry),
        &auth,
        parse_ipv4("198.51.100.5"),
        0
    ));
    // And with no entry at all, nobody passes.
    assert!(!handle_authentication(&m, None, &None, parse_ipv4("198.51.100.5"), 0));
}
