use lampo::net::{
    ipv4_to_string, is_loopback, make_subnet_vec, outbound_bind_addr, parse_ipv4, parse_subnet,
    IpRepr, Ipv4, SockAddr, Subnet,
};

#[test]
fn parses_dotted_quad() {
    assert_eq!(parse_ipv4("203.0.113.7"), Some(Ipv4(0xCB007107)));
    assert_eq!(parse_ipv4("0.0.0.0"), Some(Ipv4(0)));
    assert_eq!(parse_ipv4("255.255.255.255"), Some(Ipv4(0xFFFFFFFF)));
    assert_eq!(parse_ipv4("127.0.0.1"), Some(Ipv4(0x7F000001)));
}

#[test]
fn rejects_malformed_quads() {
    assert_eq!(parse_ipv4(""), None);
    assert_eq!(parse_ipv4("1.2.3"), None);
    assert_eq!(parse_ipv4("1.2.3.4.5"), None);
    assert_eq!(parse_ipv4("256.0.0.1"), None);
    assert_eq!(parse_ipv4("01.2.3.4"), None);
    assert_eq!(parse_ipv4("1.2.3.x"), None);
    assert_eq!(parse_ipv4("example.com"), None);
    assert_eq!(parse_ipv4("1.2.3."), None);
}

#[test]
fn formats_canonical_text() {
    assert_eq!(ipv4_to_string(Ipv4(0xCB007107)), "203.0.113.7");
    assert_eq!(ipv4_to_string(Ipv4(0)), "0.0.0.0");
    assert_eq!(ipv4_to_string(Ipv4(0xFFFFFFFF)), "255.255.255.255");
}

#[test]
fn loopback_is_exact() {
    assert!(is_loopback(Ipv4(0x7F000001)));
    assert!(!is_loopback(Ipv4(0x7F000002)));
}

#[test]
fn outbound_bind_pins_source_ip() {
    let listen = Ipv4(0xCB007107);
    let bind = outbound_bind_addr(listen);
    assert_eq!(bind, SockAddr { ip: IpRepr::V4(listen), port: 0 });
}

#[test]
fn parses_cidr() {
    assert_eq!(
        parse_subnet("198.51.100.0/24"),
        Some(Subnet { addr: Ipv4(0xC6336400), prefix: 24 })
    );
    assert_eq!(parse_subnet("198.51.100.0"), None);
    assert_eq!(parse_subnet("198.51.100.0/33"), None);
    assert_eq!(parse_subnet("198.51.100.0/ab"), None);
}

#[test]
fn expands_slash_30() {
    // Network first, then the usable hosts; broadcast excluded.
    let s = Subnet { addr: Ipv4(0xC6336400), prefix: 30 };
    let v = make_subnet_vec(s);
    assert_eq!(
        v,
        vec![Ipv4(0xC6336400), Ipv4(0xC6336401), Ipv4(0xC6336402)]
    );
}

#[test]
fn expands_small_prefixes() {
    let s31 = Subnet { addr: Ipv4(0xC6336400), prefix: 31 };
    assert_eq!(
        make_subnet_vec(s31),
        vec![Ipv4(0xC6336400), Ipv4(0xC6336400), Ipv4(0xC6336401)]
    );
    let s32 = Subnet { addr: Ipv4(0xC6336405), prefix: 32 };
    assert_eq!(make_subnet_vec(s32), vec![Ipv4(0xC6336405), Ipv4(0xC6336405)]);
}

#[test]
fn expansion_masks_host_bits() {
    let s = Subnet { addr: Ipv4(0xC6336403), prefix: 30 };
    let v = make_subnet_vec(s);
    assert_eq!(v[0], Ipv4(0xC6336400));
}
