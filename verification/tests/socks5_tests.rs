use lampo::associate::{AssociationSocketHelper, AssociationSocketError, ClassifyOutcome};
use lampo::auth_manager::AuthManager;
use lampo::cache::{AuthCache, AuthCacheValue};
use lampo::config::AuthCacheConfig;
use lampo::dns::{resolve_finish, resolve_plan, DnsError, ResolvePlan};
use lampo::fleet::FleetBarrier;
use lampo::net::{parse_ipv4, IpRepr, Ipv4, SockAddr};
use lampo::socket_state::SocketState;
use lampo::socks5_handler::{
    auth_decision, check_methods, check_password_bytes, method_for_decision, plan_command,
    AuthDecision, CommandPlan,
};
use lampo::socks5_msg::{
    encode_handshake_response, encode_password_response, encode_response, parse_handshake_request,
    parse_password_request, parse_request_msg, parse_udp_header, Address, Command, Parsed, Reply,
    UdpHeader,
};

fn sock(ip: &str, port: u16) -> SockAddr {
    SockAddr { ip: IpRepr::V4(parse_ipv4(ip).unwrap()), port }
}

fn entry_with_credentials(u: &str, p: &str) -> AuthCacheValue {
    AuthCacheValue {
        use_credentials: true,
        username: u.to_string(),
        password: p.to_string(),
        whitelist: Vec::new(),
        expiration: 3_600_000,
    }
}

fn mgr() -> AuthManager {
    AuthManager::new(AuthCache::new(AuthCacheConfig { max_size: 8, time_to_live: 60_000 }))
}

// SOCKS5 password auth: offer [NONE, PASSWORD], server answers 05 02, the
// sub-negotiation `01 01 'u' 01 'p'` succeeds with 01 00.
#[test]
fn password_auth_sequence() {
    let offer = vec![5u8, 2, 0, 2];
    let parsed = parse_handshake_request(&offer);
    let methods = match parsed {
        Parsed::Done(m, consumed) => {
            assert_eq!(consumed, 4);
            m
        },
        _ => panic!("handshake should parse"),
    };
    assert!(check_methods(&methods));
    let m = mgr();
    let e = entry_with_credentials("u", "p");
    let d = auth_decision(&m, Some(&e), parse_ipv4("198.51.100.5").unwrap(), 0);
    assert_eq!(d, AuthDecision::NeedPassword);
    assert_eq!(encode_handshake_response(method_for_decision(d)), vec![5u8, 2]);
    let sub = vec![1u8, 1, b'u', 1, b'p'];
    let (user, pass) = match parse_password_request(&sub) {
        Parsed::Done(up, consumed) => {
            assert_eq!(consumed, 5);
            up
        },
        _ => panic!("sub-negotiation should parse"),
    };
    assert!(check_password_bytes(&m, &e, user, pass, 0));
    assert_eq!(encode_password_response(true), vec![1u8, 0]);
    assert_eq!(encode_password_response(false), vec![1u8, 1]);
}

#[test]
fn method_offer_must_include_known_method() {
    assert!(!check_methods(&vec![1u8, 3, 0x80]));
    assert!(check_methods(&vec![0u8]));
    assert_eq!(
        method_for_decision(AuthDecision::Reject),
        0xFF
    );
}

#[test]
fn wrong_password_fails() {
    let m = mgr();
    let e = entry_with_credentials("u", "p");
    assert!(!check_password_bytes(&m, &e, vec![b'u'], vec![b'x'], 0));
    // Invalid UTF-8 in the username also fails.
    assert!(!check_password_bytes(&m, &e, vec![0xFF, 0xFE], vec![b'p'], 0));
}

#[test]
fn request_parses_each_address_form() {
    // CONNECT to 1.2.3.4:99.
    let req = vec![5u8, 1, 0, 1, 1, 2, 3, 4, 0, 99];
    match parse_request_msg(&req) {
        Parsed::Done((cmd, Address::Socket(sa)), consumed) => {
            assert_eq!(cmd, Command::Connect);
            assert_eq!(sa, sock("1.2.3.4", 99));
            assert_eq!(consumed, 10);
        },
        _ => panic!("v4 request should parse"),
    }
    // ASSOCIATE with a domain.
    let mut req2 = vec![5u8, 3, 0, 3, 7];
    req2.extend_from_slice(b"example");
    req2.extend_from_slice(&[0, 53]);
    match parse_request_msg(&req2) {
        Parsed::Done((cmd, Address::Domain(d, port)), _) => {
            assert_eq!(cmd, Command::Associate);
            assert_eq!(d, b"example".to_vec());
            assert_eq!(port, 53);
        },
        _ => panic!("domain request should parse"),
    }
    // Bad version.
    assert!(matches!(
        parse_request_msg(&vec![4u8, 1, 0, 1, 1, 2, 3, 4, 0, 99]),
        Parsed::Malformed
    ));
    // Truncated.
    assert!(matches!(
        parse_request_msg(&vec![5u8, 1, 0, 1, 1]),
        Parsed::Incomplete
    ));
}

#[test]
fn command_dispatch() {
    assert_eq!(plan_command(Command::Connect), CommandPlan::DoConnect);
    assert_eq!(plan_command(Command::Associate), CommandPlan::DoAssociate);
    assert_eq!(plan_command(Command::Bind), CommandPlan::RejectBind);
    // BIND's refusal wire form: 05 07 00 and the unspecified address.
    let bytes = encode_response(Reply::CommandNotSupported, &Address::unspecified());
    assert_eq!(bytes, vec![5u8, 7, 0, 1, 0, 0, 0, 0, 0, 0]);
}

#[test]
fn success_reply_wire_form() {
    let bytes = encode_response(
        Reply::Succeeded,
        &Address::Socket(sock("203.0.113.7", 4000)),
    );
    assert_eq!(bytes, vec![5u8, 0, 0, 1, 203, 0, 113, 7, 15, 160]);
}

fn assoc(client: &str) -> AssociationSocketHelper {
    AssociationSocketHelper::new(sock(client, 40000), 30_000, 65_535, 10_000)
}

// UDP ASSOCIATE affinity: a datagram from a stranger (not in the target
// cache, different IP than the control client) kills the association.
#[test]
fn datagram_from_stranger_is_fatal() {
    let mut a = assoc("198.51.100.5");
    let pkt = vec![0u8, 0, 0, 1, 1, 2, 3, 4, 0, 53, 9, 9];
    let got = a.classify(sock("198.51.100.9", 7777), &pkt);
    assert!(matches!(
        got,
        Err(AssociationSocketError::SrcAddrMismatchCTSError)
    ));
}

// Client->server: the relay header is stripped and nothing is prepended;
// the target is learned. Server->client: the forwarded datagram carries a
// header with fragment 0 naming the observed server source.
#[test]
fn relay_strips_and_adds_headers() {
    let mut a = assoc("198.51.100.5");
    // Header: rsv rsv frag=0 atyp=1 1.2.3.4:53, then payload "hi".
    let pkt = vec![0u8, 0, 0, 1, 1, 2, 3, 4, 0, 53, b'h', b'i'];
    let client_src = sock("198.51.100.5", 50000);
    let out = a.classify(client_src, &pkt).unwrap();
    let (dest, payload_from) = match out {
        ClassifyOutcome::ToServer { dest, payload_from } => (dest, payload_from),
        _ => panic!("expected a server-bound packet"),
    };
    assert_eq!(dest, sock("1.2.3.4", 53));
    let to_server = a.build_to_server(&pkt, payload_from).unwrap();
    assert_eq!(to_server, b"hi".to_vec());

    // Now a reply from that server goes back to the learned client with a
    // fresh header.
    let reply = vec![b'o', b'k'];
    let out2 = a.classify(sock("1.2.3.4", 53), &reply).unwrap();
    let dest2 = match out2 {
        ClassifyOutcome::ToClient { dest } => dest,
        _ => panic!("expected a client-bound packet"),
    };
    assert_eq!(dest2, client_src);
    let to_client = a.build_to_client(sock("1.2.3.4", 53), &reply).unwrap();
    assert_eq!(to_client, vec![0u8, 0, 0, 1, 1, 2, 3, 4, 0, 53, b'o', b'k']);
}

// Learning a second target keeps the first: both servers' replies still
// route back to the client.
#[test]
fn learning_preserves_other_targets() {
    let mut a = assoc("198.51.100.5");
    let client_src = sock("198.51.100.5", 50000);
    let pkt1 = vec![0u8, 0, 0, 1, 1, 2, 3, 4, 0, 53, b'x'];
    let pkt2 = vec![0u8, 0, 0, 1, 5, 6, 7, 8, 0, 80, b'y'];
    a.classify(client_src, &pkt1).unwrap();
    a.classify(client_src, &pkt2).unwrap();
    let reply = vec![b'r'];
    assert!(matches!(
        a.classify(sock("1.2.3.4", 53), &reply).unwrap(),
        ClassifyOutcome::ToClient { .. }
    ));
    assert!(matches!(
        a.classify(sock("5.6.7.8", 80), &reply).unwrap(),
        ClassifyOutcome::ToClient { .. }
    ));
}

#[test]
fn fragmented_datagrams_are_dropped_not_fatal() {
    let mut a = assoc("198.51.100.5");
    let pkt = vec![0u8, 0, 1, 1, 1, 2, 3, 4, 0, 53, b'h', b'i'];
    let out = a.classify(sock("198.51.100.5", 50000), &pkt).unwrap();
    assert!(matches!(out, ClassifyOutcome::Fragmented));
}

// Even a fragmented datagram learns its target before being dropped, so a
// reply from that server already routes back.
#[test]
fn fragmented_datagram_still_learns_target() {
    let mut a = assoc("198.51.100.5");
    let pkt = vec![0u8, 0, 7, 1, 1, 2, 3, 4, 0, 53, b'h'];
    let out = a.classify(sock("198.51.100.5", 50000), &pkt).unwrap();
    assert!(matches!(out, ClassifyOutcome::Fragmented));
    let reply = vec![b'r'];
    assert!(matches!(
        a.classify(sock("1.2.3.4", 53), &reply).unwrap(),
        ClassifyOutcome::ToClient { .. }
    ));
}

#[test]
fn domain_targets_need_resolution() {
    let mut a = assoc("198.51.100.5");
    let mut pkt = vec![0u8, 0, 0, 3, 7];
    pkt.extend_from_slice(b"example");
    pkt.extend_from_slice(&[0, 53, b'h', b'i']);
    let src = sock("198.51.100.5", 50000);
    let out = a.classify(src, &pkt).unwrap();
    let (domain, port, frag, payload_from) = match out {
        ClassifyOutcome::NeedsDns { domain, port, frag, payload_from } => {
            (domain, port, frag, payload_from)
        },
        _ => panic!("expected a resolution request"),
    };
    assert_eq!(domain, b"example".to_vec());
    assert_eq!(port, 53);
    assert_eq!(frag, 0);
    let resolved = sock("9.9.9.9", 53);
    let done = a.resolved_target(resolved, src, frag, payload_from);
    match done {
        ClassifyOutcome::ToServer { dest, payload_from: pf } => {
            assert_eq!(dest, resolved);
            assert_eq!(a.build_to_server(&pkt, pf).unwrap(), b"hi".to_vec());
        },
        _ => panic!("expected a server-bound packet"),
    }
}

#[test]
fn udp_header_parses() {
    let pkt = vec![0u8, 0, 5, 1, 10, 0, 0, 1, 0, 80, 1, 2];
    match parse_udp_header(&pkt) {
        Parsed::Done(h, consumed) => {
            assert_eq!(h.frag, 5);
            assert_eq!(consumed, 10);
        },
        _ => panic!("header should parse"),
    }
    assert!(matches!(parse_udp_header(&vec![0u8, 0]), Parsed::Incomplete));
    assert!(matches!(
        parse_udp_header(&vec![0u8, 0, 0, 9, 1, 1]),
        Parsed::Malformed
    ));
    let mut out = Vec::new();
    UdpHeader::new(0, Address::Socket(sock("10.0.0.1", 80))).write_bytes(&mut out);
    assert_eq!(out, vec![0u8, 0, 0, 1, 10, 0, 0, 1, 0, 80]);
}

// The admission counter never exceeds its ceiling, and every successful
// admission is handed back exactly once through its ticket.
#[test]
fn admission_counter_ceiling() {
    let mut s = SocketState::new(2);
    assert!(s.try_incr());
    assert!(s.try_incr());
    assert!(!s.try_incr());
    assert_eq!(s.current(), 2);
    s.decr();
    assert!(s.try_incr());
    s.decr();
    s.decr();
    assert_eq!(s.current(), 0);

    let mut t = SocketState::new(1);
    let ticket = t.try_admit().unwrap();
    assert!(t.try_admit().is_none());
    t.release(ticket);
    assert_eq!(t.current(), 0);
    assert!(t.try_admit().is_some());
}

// No listener accepts before the whole fleet has reported: the barrier
// releases only after every bind outcome, successes and failures alike.
#[test]
fn barrier_releases_after_every_report() {
    let mut b = FleetBarrier::new(3);
    assert!(!b.released());
    b.on_bound();
    b.on_bound();
    assert!(!b.released());
    b.on_bind_failure();
    assert!(b.released());
}

#[test]
fn dns_fast_path_and_finish() {
    assert_eq!(
        resolve_plan("10.0.0.1", 53),
        ResolvePlan::Literal(sock("10.0.0.1", 53))
    );
    assert_eq!(resolve_plan("example.com", 53), ResolvePlan::Lookup);
    assert_eq!(resolve_finish(Some(sock("9.9.9.9", 53))), Ok(sock("9.9.9.9", 53)));
    assert_eq!(resolve_finish(None), Err(DnsError::AddrNotAvailable));
}

#[test]
fn oversized_datagrams_fail() {
    let a = AssociationSocketHelper::new(sock("198.51.100.5", 40000), 30_000, 4, 16);
    let pkt = vec![1u8, 2, 3];
    assert!(matches!(
        a.build_to_client(sock("1.2.3.4", 53), &pkt),
        Err(AssociationSocketError::SendBufferOverflow)
    ));
}
