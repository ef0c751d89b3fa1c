//! SOCKS5 wire messages: method negotiation, username/password
//! sub-negotiation, requests, replies, and the UDP relay header.
//!
//! Each message's byte form is specified and the encoders and parsers are
//! proved against it. Parsers take a buffer and report how many bytes one
//! message consumed, or that more bytes are needed, or that the message is
//! malformed.

use vstd::prelude::*;
use crate::net::{Ipv4, IpRepr, SockAddr, oct_a, oct_b, oct_c, oct_d};

verus! {

/// No authentication.
pub const METHOD_NONE: u8 = 0;

/// Username/password authentication.
pub const METHOD_PASSWORD: u8 = 2;

/// No acceptable method.
pub const METHOD_UNACCEPTABLE: u8 = 255;

#[derive(Clone, Copy, PartialEq, Eq, Structural, Debug)]
pub enum Command {
    Connect,
    Bind,
    Associate,
}

#[derive(Clone, Copy, PartialEq, Eq, Structural, Debug)]
pub enum Reply {
    Succeeded,
    GeneralFailure,
    ConnectionNotAllowed,
    NetworkUnreachable,
    HostUnreachable,
    ConnectionRefused,
    TtlExpired,
    CommandNotSupported,
    AddressTypeNotSupported,
}

/// A SOCKS5 address: a literal socket address or a domain name with a port.
#[derive(Clone, Debug)]
pub enum Address {
    Socket(SockAddr),
    Domain(Vec<u8>, u16),
}

impl Reply {
    pub open spec fn spec_code(self) -> u8 {
        match self {
            Reply::Succeeded => 0,
            Reply::GeneralFailure => 1,
            Reply::ConnectionNotAllowed => 2,
            Reply::NetworkUnreachable => 3,
            Reply::HostUnreachable => 4,
            Reply::ConnectionRefused => 5,
            Reply::TtlExpired => 6,
            Reply::CommandNotSupported => 7,
            Reply::AddressTypeNotSupported => 8,
        }
    }

    pub fn code(self) -> (r: u8)
        ensures
            r == self.spec_code(),
    {
        match self {
            Reply::Succeeded => 0,
            Reply::GeneralFailure => 1,
            Reply::ConnectionNotAllowed => 2,
            Reply::NetworkUnreachable => 3,
            Reply::HostUnreachable => 4,
            Reply::ConnectionRefused => 5,
            Reply::TtlExpired => 6,
            Reply::CommandNotSupported => 7,
            Reply::AddressTypeNotSupported => 8,
        }
    }
}

/// Big-endian bytes of `x`, `n` bytes long.
pub open spec fn be_bytes(x: int, n: nat) -> Seq<u8>
    decreases n,
{
    if n == 0 {
        Seq::empty()
    } else {
        be_bytes(x / 256, (n - 1) as nat) + seq![(x % 256) as u8]
    }
}

/// The value big-endian bytes stand for.
pub open spec fn be_val(s: Seq<u8>) -> int
    decreases s.len(),
{
    if s.len() == 0 {
        0
    } else {
        be_val(s.drop_last()) * 256 + s.last()
    }
}

pub proof fn lemma_be_bytes_len(x: int, n: nat)
    ensures
        be_bytes(x, n).len() == n,
    decreases n,
{
    if n > 0 {
        lemma_be_bytes_len(x / 256, (n - 1) as nat);
    }
}


pub open spec fn pow256(n: nat) -> int
    decreases n,
{
    if n == 0 {
        1
    } else {
        256 * pow256((n - 1) as nat)
    }
}

/// The port's two wire bytes.
pub open spec fn spec_port_bytes(p: u16) -> Seq<u8> {
    seq![(p / 256) as u8, (p % 256) as u8]
}

/// The wire form of an address: type octet, address octets, port.
pub open spec fn spec_addr_bytes(a: Address) -> Seq<u8> {
    match a {
        Address::Socket(sa) => match sa.ip {
            IpRepr::V4(ip) => seq![1u8, oct_a(ip.0) as u8, oct_b(ip.0) as u8, oct_c(ip.0) as u8,
                oct_d(ip.0) as u8] + spec_port_bytes(sa.port),
            IpRepr::V6(x) => seq![4u8] + be_bytes(x as int, 16) + spec_port_bytes(sa.port),
        },
        Address::Domain(d, p) => seq![3u8, d@.len() as u8] + d@ + spec_port_bytes(p),
    }
}

/// An address that fits the wire: a domain name of at most 255 bytes.
pub open spec fn addr_wf(a: Address) -> bool {
    match a {
        Address::Socket(_) => true,
        Address::Domain(d, _) => d@.len() <= 255,
    }
}

impl Address {
    /// The all-zero address, used where a reply's bound address does not
    /// matter.
    pub fn unspecified() -> (r: Address)
        ensures
            r == Address::Socket(SockAddr { ip: IpRepr::V4(Ipv4(0)), port: 0u16 }),
    {
        Address::Socket(SockAddr { ip: IpRepr::V4(Ipv4(0)), port: 0 })
    }

    /// Append this address's wire bytes.
    pub fn write_bytes(&self, out: &mut Vec<u8>)
        requires
            addr_wf(*self),
        ensures
            final(out)@ == old(out)@ + spec_addr_bytes(*self),
    {
        match self {
            Address::Socket(sa) => {
                match sa.ip {
                    IpRepr::V4(ip) => {
                        out.push(1);
                        out.push((ip.0 / 0x1000000) as u8);
                        out.push(((ip.0 / 0x10000) % 256) as u8);
                        out.push(((ip.0 / 0x100) % 256) as u8);
                        out.push((ip.0 % 256) as u8);
                        out.push((sa.port / 256) as u8);
                        out.push((sa.port % 256) as u8);
                        proof {
                            assert(final(out)@ =~= old(out)@ + spec_addr_bytes(*self));
                        }
                    },
                    IpRepr::V6(x) => {
                        out.push(4);
                        let bytes = be_bytes_exec(x, 16);
                        let m = bytes.len();
                        let mut j: usize = 0;
                        let ghost base = out@;
                        while j < m
                            invariant
                                0 <= j <= m,
                                m == bytes@.len(),
                                out@ == base + bytes@.subrange(0, j as int),
                            decreases m - j,
                        {
                            let b = bytes[j];
                            out.push(b);
                            proof {
                                assert(out@ =~= base + bytes@.subrange(0, j + 1));
                            }
                            j = j + 1;
                        }
                        out.push((sa.port / 256) as u8);
                        out.push((sa.port % 256) as u8);
                        proof {
                            assert(bytes@.subrange(0, m as int) =~= bytes@);
                            assert(final(out)@ =~= old(out)@ + spec_addr_bytes(*self));
                        }
                    },
                }
            },
            Address::Domain(d, p) => {
                out.push(3);
                out.push(d.len() as u8);
                let m = d.len();
                let mut j: usize = 0;
                let ghost base = out@;
                while j < m
                    invariant
                        0 <= j <= m,
                        m == d@.len(),
                        out@ == base + d@.subrange(0, j as int),
                    decreases m - j,
                {
                    let b = d[j];
                    out.push(b);
                    proof {
                        assert(out@ =~= base + d@.subrange(0, j + 1));
                    }
                    j = j + 1;
                }
                out.push((*p / 256) as u8);
                out.push((*p % 256) as u8);
                proof {
                    assert(d@.subrange(0, m as int) =~= d@);
                    assert(final(out)@ =~= old(out)@ + spec_addr_bytes(*self));
                }
            },
        }
    }
}

/// Big-endian bytes of `x`, `n` bytes wide, by repeated division.
fn be_bytes_exec(x: u128, n: usize) -> (r: Vec<u8>)
    requires
        n <= 16,
    ensures
        r@ == be_bytes(x as int, n as nat),
    decreases n,
{
    if n == 0 {
        let v: Vec<u8> = Vec::new();
        proof {
            assert(v@ =~= be_bytes(x as int, 0));
        }
        v
    } else {
        let mut v = be_bytes_exec(x / 256, n - 1);
        v.push((x % 256) as u8);
        proof {
            assert(v@ =~= be_bytes(x as int, n as nat));
        }
        v
    }
}


/// The inverse of `be_val`: a byte string is the big-endian form of its
/// value.
pub proof fn lemma_be_inverse(s: Seq<u8>)
    ensures
        be_bytes(be_val(s), s.len()) == s,
        be_val(s) >= 0,
    decreases s.len(),
{
    if s.len() > 0 {
        lemma_be_inverse(s.drop_last());
        assert(be_val(s) == be_val(s.drop_last()) * 256 + s.last());
        assert(be_val(s) / 256 == be_val(s.drop_last()));
        assert(be_val(s) % 256 == s.last());
        assert(be_bytes(be_val(s), s.len()) =~= s);
    } else {
        assert(be_bytes(0, 0) =~= s);
    }
}

/// What one parse attempt yields: a value and the bytes it consumed, a
/// request for more bytes, or a protocol violation.
pub enum Parsed<T> {
    Done(T, usize),
    Incomplete,
    Malformed,
}

/// An address encoding begins at `at` with a known type and all its bytes
/// present.
pub open spec fn addr_complete_at(s: Seq<u8>, at: int) -> bool {
    &&& 0 <= at < s.len()
    &&& if s[at] == 1 {
        at + 7 <= s.len()
    } else if s[at] == 4 {
        at + 19 <= s.len()
    } else if s[at] == 3 {
        at + 1 < s.len() && at + 4 + s[at + 1] <= s.len()
    } else {
        false
    }
}

/// The byte at `at` names no address type.
pub open spec fn addr_malformed_at(s: Seq<u8>, at: int) -> bool {
    0 <= at < s.len() && s[at] != 1 && s[at] != 3 && s[at] != 4
}

/// Parse one address starting at `at`: the result is exactly the address
/// whose wire form occupies `[at, c)`.
#[verifier::rlimit(60)]
#[verifier::spinoff_prover]
pub fn parse_addr_at(buf: &Vec<u8>, at: usize) -> (r: Parsed<Address>)
    requires
        at <= buf@.len(),
    ensures
        match r {
            Parsed::Done(addr, c) => addr_complete_at(buf@, at as int) && addr_wf(addr)
                && at < c <= buf@.len() && spec_addr_bytes(addr) == buf@.subrange(
                at as int,
                c as int,
            ),
            Parsed::Incomplete => !addr_complete_at(buf@, at as int) && !addr_malformed_at(
                buf@,
                at as int,
            ),
            Parsed::Malformed => addr_malformed_at(buf@, at as int),
        },
{
    let n = buf.len();
    if at >= n {
        return Parsed::Incomplete;
    }
    let atyp = buf[at];
    if atyp == 1 {
        if n - at < 7 {
            return Parsed::Incomplete;
        }
        let b0 = buf[at + 1];
        let b1 = buf[at + 2];
        let b2 = buf[at + 3];
        let b3 = buf[at + 4];
        let ip: u32 = (b0 as u32) * 0x1000000 + (b1 as u32) * 0x10000 + (b2 as u32) * 0x100 + (
        b3 as u32);
        let port: u16 = (buf[at + 5] as u16) * 256 + (buf[at + 6] as u16);
        let addr = Address::Socket(SockAddr { ip: IpRepr::V4(Ipv4(ip)), port });
        proof {
            assert(oct_a(ip) == b0 as int);
            assert(oct_b(ip) == b1 as int);
            assert(oct_c(ip) == b2 as int);
            assert(oct_d(ip) == b3 as int);
            assert(port as int / 256 == buf@[at + 5]);
            assert(port as int % 256 == buf@[at + 6]);
            assert(spec_addr_bytes(addr) =~= buf@.subrange(at as int, at + 7));
        }
        Parsed::Done(addr, at + 7)
    } else if atyp == 4 {
        if n - at < 19 {
            return Parsed::Incomplete;
        }
        let mut x: u128 = 0;
        let mut j: usize = 0;
        while j < 16
            invariant
                0 <= j <= 16,
                at + 19 <= n == buf@.len(),
                x == be_val(buf@.subrange(at as int + 1, at as int + 1 + j as int)),
                x < pow256(j as nat),
            decreases 16 - j,
        {
            proof {
                lemma_pow256_mono(j as nat, 15);
                lemma_pow256_table();
            }
            let b = buf[at + 1 + j];
            proof {
                let t = buf@.subrange(at as int + 1, at as int + 2 + j as int);
                assert(t.drop_last() =~= buf@.subrange(at as int + 1, at as int + 1 + j as int));
                assert(t.last() == b);
            }
            x = x * 256 + (b as u128);
            j = j + 1;
        }
        let port: u16 = (buf[at + 17] as u16) * 256 + (buf[at + 18] as u16);
        let addr = Address::Socket(SockAddr { ip: IpRepr::V6(x), port });
        proof {
            let ipb = buf@.subrange(at as int + 1, at as int + 17);
            lemma_be_inverse(ipb);
            assert(x as int == be_val(ipb));
            assert(be_bytes(x as int, 16) == ipb);
            assert(port as int / 256 == buf@[at + 17]);
            assert(port as int % 256 == buf@[at + 18]);
            assert(spec_addr_bytes(addr) =~= buf@.subrange(at as int, at + 19));
        }
        Parsed::Done(addr, at + 19)
    } else if atyp == 3 {
        if n - at < 2 {
            return Parsed::Incomplete;
        }
        let dlen = buf[at + 1] as usize;
        if n - at < 4 + dlen {
            return Parsed::Incomplete;
        }
        let mut d: Vec<u8> = Vec::new();
        let mut j: usize = 0;
        while j < dlen
            invariant
                0 <= j <= dlen,
                at + 4 + dlen <= n == buf@.len(),
                d@ == buf@.subrange(at as int + 2, at as int + 2 + j as int),
            decreases dlen - j,
        {
            let b = buf[at + 2 + j];
            d.push(b);
            proof {
                assert(d@ =~= buf@.subrange(at as int + 2, at as int + 2 + j + 1));
            }
            j = j + 1;
        }
        let port: u16 = (buf[at + 2 + dlen] as u16) * 256 + (buf[at + 3 + dlen] as u16);
        let ghost dv = d@;
        let addr = Address::Domain(d, port);
        proof {
            assert(port as int / 256 == buf@[at + 2 + dlen]);
            assert(port as int % 256 == buf@[at + 3 + dlen]);
            assert(dv.len() == dlen);
            assert(spec_addr_bytes(addr) =~= buf@.subrange(at as int, at as int + 4 + dlen));
        }
        Parsed::Done(addr, at + 4 + dlen)
    } else {
        Parsed::Malformed
    }
}

/// The powers of 256 up to the width of an address, spelled out.
proof fn lemma_pow256_table()
    ensures
        pow256(15) == 0x1000000000000000000000000000000,
        pow256(16) == 0x100000000000000000000000000000000,
{
    assert(pow256(0) == 1);
    assert(pow256(1) == 256);
    assert(pow256(2) == 0x10000);
    assert(pow256(3) == 0x1000000);
    assert(pow256(4) == 0x100000000);
    assert(pow256(5) == 0x10000000000);
    assert(pow256(6) == 0x1000000000000);
    assert(pow256(7) == 0x100000000000000);
    assert(pow256(8) == 0x10000000000000000);
    assert(pow256(9) == 0x1000000000000000000);
    assert(pow256(10) == 0x100000000000000000000);
    assert(pow256(11) == 0x10000000000000000000000);
    assert(pow256(12) == 0x1000000000000000000000000);
    assert(pow256(13) == 0x100000000000000000000000000);
    assert(pow256(14) == 0x10000000000000000000000000000);
    assert(pow256(15) == 0x1000000000000000000000000000000);
    assert(pow256(16) == 0x100000000000000000000000000000000);
}

proof fn lemma_pow256_mono(a: nat, b: nat)
    requires
        a <= b,
    ensures
        pow256(a) <= pow256(b),
        pow256(a) >= 1,
    decreases b,
{
    if a == b {
        lemma_pow256_pos(a);
    } else {
        lemma_pow256_mono(a, (b - 1) as nat);
    }
}

proof fn lemma_pow256_pos(a: nat)
    ensures
        pow256(a) >= 1,
    decreases a,
{
    if a > 0 {
        lemma_pow256_pos((a - 1) as nat);
    }
}

/// The method-negotiation request: version 5, a method count, the methods.
pub fn parse_handshake_request(buf: &Vec<u8>) -> (r: Parsed<Vec<u8>>)
    ensures
        match r {
            Parsed::Done(methods, c) => buf@.len() >= 2 && buf@[0] == 5 && methods@.len()
                == buf@[1] && c == 2 + buf@[1] && c <= buf@.len() && methods@ == buf@.subrange(
                2,
                c as int,
            ),
            Parsed::Incomplete => buf@.len() < 2 || (buf@[0] == 5 && buf@.len() < 2 + buf@[1]),
            Parsed::Malformed => buf@.len() >= 2 && buf@[0] != 5,
        },
{
    let n = buf.len();
    if n < 2 {
        return Parsed::Incomplete;
    }
    if buf[0] != 5 {
        return Parsed::Malformed;
    }
    let count = buf[1] as usize;
    if n < 2 + count {
        return Parsed::Incomplete;
    }
    let methods = copy_bytes(buf, 2, 2 + count);
    Parsed::Done(methods, 2 + count)
}

/// The method-negotiation reply: version 5 and the chosen method.
pub fn encode_handshake_response(method: u8) -> (r: Vec<u8>)
    ensures
        r@ == seq![5u8, method],
{
    let mut out: Vec<u8> = Vec::new();
    out.push(5);
    out.push(method);
    proof {
        assert(out@ =~= seq![5u8, method]);
    }
    out
}

/// The username/password sub-negotiation request: version 1, then both
/// length-prefixed strings.
pub fn parse_password_request(buf: &Vec<u8>) -> (r: Parsed<(Vec<u8>, Vec<u8>)>)
    ensures
        match r {
            Parsed::Done(up, c) => {
                let ulen = buf@[1] as int;
                &&& buf@.len() >= 2
                &&& buf@[0] == 1
                &&& 2 + ulen < buf@.len()
                &&& up.0@ == buf@.subrange(2, 2 + ulen)
                &&& c == 3 + ulen + buf@[2 + ulen]
                &&& c <= buf@.len()
                &&& up.1@ == buf@.subrange(3 + ulen, c as int)
            },
            Parsed::Incomplete => buf@.len() < 2 || (buf@[0] == 1 && (2 + buf@[1] >= buf@.len()
                || buf@.len() < 3 + buf@[1] + buf@[2 + buf@[1]])),
            Parsed::Malformed => buf@.len() >= 2 && buf@[0] != 1,
        },
{
    let n = buf.len();
    if n < 2 {
        return Parsed::Incomplete;
    }
    if buf[0] != 1 {
        return Parsed::Malformed;
    }
    let ulen = buf[1] as usize;
    if 2 + ulen >= n {
        return Parsed::Incomplete;
    }
    let plen = buf[2 + ulen] as usize;
    if n < 3 + ulen + plen {
        return Parsed::Incomplete;
    }
    let user = copy_bytes(buf, 2, 2 + ulen);
    let pass = copy_bytes(buf, 3 + ulen, 3 + ulen + plen);
    Parsed::Done((user, pass), 3 + ulen + plen)
}

/// The sub-negotiation reply: version 1, then success (0) or failure (1).
pub fn encode_password_response(authorized: bool) -> (r: Vec<u8>)
    ensures
        r@ == seq![1u8, if authorized { 0u8 } else { 1u8 }],
{
    let mut out: Vec<u8> = Vec::new();
    out.push(1);
    if authorized {
        out.push(0);
    } else {
        out.push(1);
    }
    proof {
        assert(out@ =~= seq![1u8, if authorized { 0u8 } else { 1u8 }]);
    }
    out
}

/// A command request: version 5, the command, a reserved octet, the target
/// address.
pub fn parse_request_msg(buf: &Vec<u8>) -> (r: Parsed<(Command, Address)>)
    ensures
        match r {
            Parsed::Done(ca, c) => {
                &&& buf@.len() >= 3
                &&& buf@[0] == 5
                &&& (buf@[1] == 1 || buf@[1] == 2 || buf@[1] == 3)
                &&& ca.0 == (if buf@[1] == 1 {
                    Command::Connect
                } else if buf@[1] == 2 {
                    Command::Bind
                } else {
                    Command::Associate
                })
                &&& addr_wf(ca.1)
                &&& 3 < c <= buf@.len()
                &&& spec_addr_bytes(ca.1) == buf@.subrange(3, c as int)
            },
            Parsed::Incomplete => buf@.len() < 3 || (buf@[0] == 5 && (buf@[1] == 1 || buf@[1]
                == 2 || buf@[1] == 3) && !addr_complete_at(buf@, 3) && !addr_malformed_at(
                buf@,
                3,
            )),
            Parsed::Malformed => buf@.len() >= 3 && (buf@[0] != 5 || (buf@[1] != 1 && buf@[1]
                != 2 && buf@[1] != 3) || addr_malformed_at(buf@, 3)),
        },
{
    let n = buf.len();
    if n < 3 {
        return Parsed::Incomplete;
    }
    if buf[0] != 5 {
        return Parsed::Malformed;
    }
    let cb = buf[1];
    if cb != 1 && cb != 2 && cb != 3 {
        return Parsed::Malformed;
    }
    let cmd = if cb == 1 {
        Command::Connect
    } else if cb == 2 {
        Command::Bind
    } else {
        Command::Associate
    };
    match parse_addr_at(buf, 3) {
        Parsed::Done(addr, c) => Parsed::Done((cmd, addr), c),
        Parsed::Incomplete => Parsed::Incomplete,
        Parsed::Malformed => Parsed::Malformed,
    }
}

/// A command reply: version 5, the reply code, a zero reserved octet, the
/// bound address.
pub fn encode_response(reply: Reply, addr: &Address) -> (r: Vec<u8>)
    requires
        addr_wf(*addr),
    ensures
        r@ == seq![5u8, reply.spec_code(), 0u8] + spec_addr_bytes(*addr),
{
    let mut out: Vec<u8> = Vec::new();
    out.push(5);
    out.push(reply.code());
    out.push(0);
    proof {
        assert(out@ =~= seq![5u8, reply.spec_code(), 0u8]);
    }
    addr.write_bytes(&mut out);
    out
}

/// The relay header in front of every client-side UDP datagram: two
/// reserved octets, the fragment number, the target address.
#[derive(Clone, Debug)]
pub struct UdpHeader {
    pub frag: u8,
    pub address: Address,
}

pub open spec fn spec_udp_header_bytes(h: UdpHeader) -> Seq<u8> {
    seq![0u8, 0u8, h.frag] + spec_addr_bytes(h.address)
}

impl UdpHeader {
    pub fn new(frag: u8, address: Address) -> (r: UdpHeader)
        ensures
            r.frag == frag,
            r.address == address,
    {
        UdpHeader { frag, address }
    }

    /// Append this header's wire bytes.
    pub fn write_bytes(&self, out: &mut Vec<u8>)
        requires
            addr_wf(self.address),
        ensures
            final(out)@ == old(out)@ + spec_udp_header_bytes(*self),
    {
        out.push(0);
        out.push(0);
        out.push(self.frag);
        let ghost mid = out@;
        proof {
            assert(mid =~= old(out)@ + seq![0u8, 0u8, self.frag]);
        }
        self.address.write_bytes(out);
        proof {
            assert(old(out)@ + seq![0u8, 0u8, self.frag] + spec_addr_bytes(self.address)
                =~= old(out)@ + spec_udp_header_bytes(*self));
        }
    }
}

/// Parse the relay header off the front of a datagram. The reserved octets
/// are not inspected; the header is exactly the bytes `[0, c)` rewritten
/// with zero reserved octets.
pub fn parse_udp_header(buf: &Vec<u8>) -> (r: Parsed<UdpHeader>)
    ensures
        match r {
            Parsed::Done(h, c) => buf@.len() >= 3 && addr_complete_at(buf@, 3) && h.frag
                == buf@[2] && addr_wf(h.address) && 3 < c <= buf@.len() && spec_addr_bytes(
                h.address,
            ) == buf@.subrange(3, c as int),
            Parsed::Incomplete => buf@.len() < 3 || (!addr_complete_at(buf@, 3)
                && !addr_malformed_at(buf@, 3)),
            Parsed::Malformed => buf@.len() >= 3 && addr_malformed_at(buf@, 3),
        },
{
    let n = buf.len();
    if n < 3 {
        return Parsed::Incomplete;
    }
    let frag = buf[2];
    match parse_addr_at(buf, 3) {
        Parsed::Done(addr, c) => Parsed::Done(UdpHeader { frag, address: addr }, c),
        Parsed::Incomplete => Parsed::Incomplete,
        Parsed::Malformed => Parsed::Malformed,
    }
}

/// The bytes in `[from, to)`, as their own vector.
fn copy_bytes(buf: &Vec<u8>, from: usize, to: usize) -> (r: Vec<u8>)
    requires
        from <= to <= buf@.len(),
    ensures
        r@ == buf@.subrange(from as int, to as int),
{
    let mut r: Vec<u8> = Vec::new();
    let mut j = from;
    while j < to
        invariant
            from <= j <= to <= buf@.len(),
            r@ == buf@.subrange(from as int, j as int),
        decreases to - j,
    {
        let x = buf[j];
        r.push(x);
        proof {
            assert(r@ =~= buf@.subrange(from as int, j + 1));
        }
        j = j + 1;
    }
    r
}

} // verus!
