//! Address values and the address grammar.
//!
//! Listen addresses are IPv4; relay peers may be IPv4 or IPv6. The dotted-quad
//! grammar (four decimal octets, no leading zeros) is specified here and the
//! executable parser and formatter are proved against it, as is the expansion
//! of a subnet into its listenable host addresses.

use vstd::prelude::*;

verus! {

/// An IPv4 address as its 32-bit big-endian value.
#[derive(Clone, Copy, PartialEq, Eq, Structural, Debug, Hash)]
pub struct Ipv4(pub u32);

/// An address of either family. Only IPv4 addresses ever listen; IPv6 shows
/// up as a relay peer or SOCKS5 target.
#[derive(Clone, Copy, PartialEq, Eq, Structural, Debug, Hash)]
pub enum IpRepr {
    V4(Ipv4),
    V6(u128),
}

/// A socket address: an IP of either family and a port.
#[derive(Clone, Copy, PartialEq, Eq, Structural, Debug, Hash)]
pub struct SockAddr {
    pub ip: IpRepr,
    pub port: u16,
}

/// An IPv4 subnet: a base address (host bits may be set) and a prefix length.
#[derive(Clone, Copy, PartialEq, Eq, Structural, Debug)]
pub struct Subnet {
    pub addr: Ipv4,
    pub prefix: u8,
}

pub open spec fn is_digit(c: char) -> bool {
    '0' <= c && c <= '9'
}

pub open spec fn digit_val(c: char) -> int {
    c as int - 48
}

/// First occurrence of `c` in `s` at or after `from`.
pub open spec fn find_char(s: Seq<char>, c: char, from: int) -> Option<int>
    decreases s.len() - from,
{
    if from < 0 || from >= s.len() {
        None
    } else if s[from] == c {
        Some(from)
    } else {
        find_char(s, c, from + 1)
    }
}

pub open spec fn all_digits(s: Seq<char>) -> bool {
    forall|i: int| 0 <= i < s.len() ==> is_digit(#[trigger] s[i])
}

/// Decimal value of a digit string, most significant first.
pub open spec fn dec_val(s: Seq<char>) -> int
    decreases s.len(),
{
    if s.len() == 0 {
        0
    } else {
        dec_val(s.drop_last()) * 10 + digit_val(s.last())
    }
}

/// The text of one dotted-quad octet: one to three digits, no leading zero,
/// value at most 255.
pub open spec fn is_octet_text(s: Seq<char>) -> bool {
    &&& 1 <= s.len() <= 3
    &&& all_digits(s)
    &&& (s.len() > 1 ==> s[0] != '0')
    &&& dec_val(s) <= 255
}

pub open spec fn ipv4_of_octets(a: int, b: int, c: int, d: int) -> u32 {
    (a * 0x1000000 + b * 0x10000 + c * 0x100 + d) as u32
}

/// The dotted-quad grammar: `A.B.C.D` where each component is an octet text
/// and there is no further dot.
pub open spec fn spec_parse_ipv4(s: Seq<char>) -> Option<u32> {
    match find_char(s, '.', 0) {
        None => None,
        Some(i) => match find_char(s, '.', i + 1) {
            None => None,
            Some(j) => match find_char(s, '.', j + 1) {
                None => None,
                Some(k) => {
                    let a = s.subrange(0, i);
                    let b = s.subrange(i + 1, j);
                    let c = s.subrange(j + 1, k);
                    let d = s.subrange(k + 1, s.len() as int);
                    if is_octet_text(a) && is_octet_text(b) && is_octet_text(c)
                        && is_octet_text(d) && find_char(s, '.', k + 1) is None {
                        Some(ipv4_of_octets(dec_val(a), dec_val(b), dec_val(c), dec_val(d)))
                    } else {
                        None
                    }
                },
            },
        },
    }
}

pub open spec fn oct_a(ip: u32) -> int { ip as int / 0x1000000 }

pub open spec fn oct_b(ip: u32) -> int { (ip as int / 0x10000) % 256 }

pub open spec fn oct_c(ip: u32) -> int { (ip as int / 0x100) % 256 }

pub open spec fn oct_d(ip: u32) -> int { ip as int % 256 }

pub open spec fn digit_char(d: int) -> char {
    if d == 0 { '0' }
    else if d == 1 { '1' }
    else if d == 2 { '2' }
    else if d == 3 { '3' }
    else if d == 4 { '4' }
    else if d == 5 { '5' }
    else if d == 6 { '6' }
    else if d == 7 { '7' }
    else if d == 8 { '8' }
    else { '9' }
}

/// Shortest decimal text of `n` for `0 <= n <= 255`.
pub open spec fn dec_text(n: int) -> Seq<char> {
    if n < 10 {
        seq![digit_char(n)]
    } else if n < 100 {
        seq![digit_char(n / 10), digit_char(n % 10)]
    } else {
        seq![digit_char(n / 100), digit_char((n / 10) % 10), digit_char(n % 10)]
    }
}

/// The canonical dotted-quad text of an address.
pub open spec fn spec_ipv4_string(ip: u32) -> Seq<char> {
    dec_text(oct_a(ip)) + seq!['.'] + dec_text(oct_b(ip)) + seq!['.'] + dec_text(oct_c(ip))
        + seq!['.'] + dec_text(oct_d(ip))
}

/// First dot of `s` at or after `from`, by scan.
fn find_dot(s: &str, from: usize, n: usize) -> (r: Option<usize>)
    requires
        from <= n,
        n == s@.len(),
    ensures
        match r {
            Some(u) => find_char(s@, '.', from as int) == Some(u as int) && from <= u < n,
            None => find_char(s@, '.', from as int) is None,
        },
{
    let mut j = from;
    while j < n
        invariant
            from <= j <= n,
            n == s@.len(),
            find_char(s@, '.', from as int) == find_char(s@, '.', j as int),
        decreases n - j,
    {
        if s.get_char(j) == '.' {
            return Some(j);
        }
        j = j + 1;
    }
    None
}

/// Parse the characters in `[start, end)` as one octet text.
fn parse_octet(s: &str, start: usize, end: usize) -> (r: Option<u8>)
    requires
        start <= end <= s@.len(),
    ensures
        match r {
            Some(v) => is_octet_text(s@.subrange(start as int, end as int))
                && dec_val(s@.subrange(start as int, end as int)) == v as int,
            None => !is_octet_text(s@.subrange(start as int, end as int)),
        },
{
    let ghost t = s@.subrange(start as int, end as int);
    let len = end - start;
    if len == 0 || len > 3 {
        return None;
    }
    if len > 1 && s.get_char(start) == '0' {
        return None;
    }
    let mut acc: u32 = 0;
    let mut i: usize = 0;
    while i < len
        invariant
            0 <= i <= len,
            len == end - start,
            1 <= len <= 3,
            start + len <= s@.len(),
            t == s@.subrange(start as int, end as int),
            all_digits(t.subrange(0, i as int)),
            acc as int == dec_val(t.subrange(0, i as int)),
            i == 0 ==> acc == 0,
            i == 1 ==> acc <= 9,
            i == 2 ==> acc <= 99,
            i == 3 ==> acc <= 999,
        decreases len - i,
    {
        let c = s.get_char(start + i);
        if c < '0' || c > '9' {
            assert(t[i as int] == c);
            assert(!is_digit(t[i as int]));
            return None;
        }
        proof {
            assert(t.subrange(0, i + 1).drop_last() =~= t.subrange(0, i as int));
            assert(t.subrange(0, i + 1).last() == t[i as int]);
            assert(t[i as int] == c);
        }
        acc = acc * 10 + (c as u32 - 48);
        i = i + 1;
    }
    proof {
        assert(t.subrange(0, len as int) =~= t);
    }
    if acc > 255 {
        return None;
    }
    Some(acc as u8)
}

/// Parse a dotted-quad IPv4 literal; exactly the strings of the grammar above
/// are accepted.
pub fn parse_ipv4(host: &str) -> (r: Option<Ipv4>)
    ensures
        match r {
            Some(ip) => spec_parse_ipv4(host@) == Some(ip.0),
            None => spec_parse_ipv4(host@) is None,
        },
{
    let n = host.unicode_len();
    let i = match find_dot(host, 0, n) {
        Some(i) => i,
        None => { return None; },
    };
    let j = match find_dot(host, i + 1, n) {
        Some(j) => j,
        None => { return None; },
    };
    let k = match find_dot(host, j + 1, n) {
        Some(k) => k,
        None => { return None; },
    };
    if find_dot(host, k + 1, n).is_some() {
        return None;
    }
    let a = match parse_octet(host, 0, i) {
        Some(v) => v,
        None => { return None; },
    };
    let b = match parse_octet(host, i + 1, j) {
        Some(v) => v,
        None => { return None; },
    };
    let c = match parse_octet(host, j + 1, k) {
        Some(v) => v,
        None => { return None; },
    };
    let d = match parse_octet(host, k + 1, n) {
        Some(v) => v,
        None => { return None; },
    };
    Some(Ipv4(
        (a as u32) * 0x1000000 + (b as u32) * 0x10000 + (c as u32) * 0x100 + (d as u32),
    ))
}

/// The one-character string of a decimal digit.
fn digit_str(d: u8) -> (r: &'static str)
    requires
        d <= 9,
    ensures
        r@ == seq![digit_char(d as int)],
{
    proof {
        reveal_strlit("0");
        reveal_strlit("1");
        reveal_strlit("2");
        reveal_strlit("3");
        reveal_strlit("4");
        reveal_strlit("5");
        reveal_strlit("6");
        reveal_strlit("7");
        reveal_strlit("8");
        reveal_strlit("9");
    }
    match d {
        0 => "0",
        1 => "1",
        2 => "2",
        3 => "3",
        4 => "4",
        5 => "5",
        6 => "6",
        7 => "7",
        8 => "8",
        _ => {
            assert(d == 9);
            "9"
        },
    }
}

/// Append the shortest decimal text of `n` to `out`.
fn append_dec(out: &mut String, n: u8)
    ensures
        final(out)@ == old(out)@ + dec_text(n as int),
{
    if n < 10 {
        out.append(digit_str(n));
    } else if n < 100 {
        out.append(digit_str(n / 10));
        out.append(digit_str(n % 10));
    } else {
        out.append(digit_str(n / 100));
        out.append(digit_str((n / 10) % 10));
        out.append(digit_str(n % 10));
    }
    proof {
        if n < 10 {
            assert(old(out)@ + seq![digit_char(n as int)] =~= old(out)@ + dec_text(n as int));
        } else if n < 100 {
            assert(old(out)@ + seq![digit_char(n as int / 10)] + seq![digit_char(n as int % 10)]
                =~= old(out)@ + dec_text(n as int));
        } else {
            assert(old(out)@ + seq![digit_char(n as int / 100)]
                + seq![digit_char((n as int / 10) % 10)] + seq![digit_char(n as int % 10)]
                =~= old(out)@ + dec_text(n as int));
        }
    }
}

/// The canonical dotted-quad text of an address.
pub fn ipv4_to_string(ip: Ipv4) -> (r: String)
    ensures
        r@ == spec_ipv4_string(ip.0),
{
    let v = ip.0;
    let a = (v / 0x1000000) as u8;
    let b = ((v / 0x10000) % 256) as u8;
    let c = ((v / 0x100) % 256) as u8;
    let d = (v % 256) as u8;
    let mut out = String::new();
    append_dec(&mut out, a);
    out.append(".");
    append_dec(&mut out, b);
    out.append(".");
    append_dec(&mut out, c);
    out.append(".");
    append_dec(&mut out, d);
    proof {
        reveal_strlit(".");
        assert(Seq::<char>::empty() + dec_text(oct_a(ip.0)) + "."@ + dec_text(oct_b(ip.0)) + "."@
            + dec_text(oct_c(ip.0)) + "."@ + dec_text(oct_d(ip.0))
            =~= spec_ipv4_string(ip.0));
    }
    out
}

pub open spec fn pow2i(k: int) -> int
    decreases k,
{
    if k <= 0 {
        1
    } else {
        2 * pow2i(k - 1)
    }
}

proof fn lemma_pow2i_pos(k: int)
    ensures
        pow2i(k) >= 1,
    decreases k,
{
    if k > 0 {
        lemma_pow2i_pos(k - 1);
    }
}

/// `2^a * 2^b == 2^(a+b)`.
proof fn lemma_pow2i_add(a: int, b: int)
    requires
        a >= 0,
        b >= 0,
    ensures
        pow2i(a + b) == pow2i(a) * pow2i(b),
    decreases a,
{
    if a > 0 {
        lemma_pow2i_add(a - 1, b);
        assert(pow2i(a + b) == 2 * pow2i(a - 1 + b));
        assert(2 * (pow2i(a - 1) * pow2i(b)) == (2 * pow2i(a - 1)) * pow2i(b)) by (
        nonlinear_arith);
    }
}

/// Powers of two are monotone.
proof fn lemma_pow2i_le(a: int, b: int)
    requires
        a <= b,
    ensures
        pow2i(a) <= pow2i(b),
    decreases b - a,
{
    lemma_pow2i_pos(a);
    if a < b {
        lemma_pow2i_le(a, b - 1);
        lemma_pow2i_pos(b - 1);
    }
}

/// The base address as a mathematical integer.
pub open spec fn addr64x(s: Subnet) -> int {
    s.addr.0 as int
}

/// The number of addresses a prefix spans.
pub open spec fn spec_block_size(prefix: int) -> int {
    pow2i(32 - prefix)
}

/// The subnet's network address: the base with its host bits cleared.
pub open spec fn spec_network(s: Subnet) -> int {
    s.addr.0 - (s.addr.0 as int % spec_block_size(s.prefix as int))
}

/// The listenable addresses of a subnet, as the fleet enumerates them: the
/// network address first, then every host address — which for prefixes of
/// 31 and 32 includes the network address again.
pub open spec fn spec_subnet_seq(s: Subnet) -> Seq<Ipv4> {
    let net = spec_network(s);
    let size = spec_block_size(s.prefix as int);
    if s.prefix <= 30 {
        seq![Ipv4(net as u32)] + Seq::new((size - 2) as nat, |i: int| Ipv4((net + 1 + i) as u32))
    } else if s.prefix == 31 {
        seq![Ipv4(net as u32), Ipv4(net as u32), Ipv4((net + 1) as u32)]
    } else {
        seq![Ipv4(net as u32), Ipv4(net as u32)]
    }
}

/// Expand a subnet into the addresses the fleet listens on.
pub fn make_subnet_vec(subnet: Subnet) -> (r: Vec<Ipv4>)
    requires
        subnet.prefix <= 32,
    ensures
        r@ == spec_subnet_seq(subnet),
{
    let q: u32 = 32 - subnet.prefix as u32;
    let mut block: u64 = 1;
    let mut t: u32 = 0;
    while t < q
        invariant
            0 <= t <= q <= 32,
            block as int == pow2i(t as int),
        decreases q - t,
    {
        proof {
            lemma_pow2i_le(t as int, 31);
            lemma_pow2i_table();
        }
        block = block * 2;
        t = t + 1;
    }
    proof {
        lemma_pow2i_pos(q as int);
        lemma_pow2i_le(q as int, 32);
        lemma_pow2i_table();
        assert((addr64x(subnet) / block as int) * block as int <= addr64x(subnet)) by (
        nonlinear_arith)
            requires
                block as int >= 1,
                addr64x(subnet) >= 0,
        ;
    }
    let addr64: u64 = subnet.addr.0 as u64;
    let net64: u64 = addr64 / block * block;
    proof {
        assert(net64 as int == addr64 as int - addr64 as int % (block as int)) by (
        nonlinear_arith)
            requires
                block as int >= 1,
                net64 as int == (addr64 as int / block as int) * (block as int),
        ;
        assert(net64 as int == spec_network(subnet));
        assert(net64 as int % (block as int) == 0) by (nonlinear_arith)
            requires
                block as int >= 1,
                net64 as int == (addr64 as int / block as int) * (block as int),
        ;
        lemma_pow2i_add(q as int, 32 - q as int);
        lemma_pow2i_pos(32 - q as int);
        assert(0x100000000int == block as int * pow2i(32 - q as int));
        assert((block as int * pow2i(32 - q as int)) % (block as int) == 0) by (nonlinear_arith)
            requires
                block as int >= 1,
        ;
        assert(net64 as int + block as int <= 0x100000000) by (nonlinear_arith)
            requires
                block as int >= 1,
                net64 as int % (block as int) == 0,
                net64 as int <= 0xffffffff,
                0x100000000int % (block as int) == 0,
        ;
    }
    let net: u32 = (net64) as u32;
    let mut out: Vec<Ipv4> = Vec::new();
    out.push(Ipv4(net));
    if subnet.prefix <= 30 {
        proof {
            assert(pow2i(1) == 2);
            assert(pow2i(2) == 4);
            lemma_pow2i_le(2, q as int);
        }
        let count: u64 = block - 2;
        let mut i: u64 = 0;
        while i < count
            invariant
                0 <= i <= count,
                count == block - 2,
                net64 as int + block as int <= 0x100000000,
                net as int == net64 as int,
                net64 == addr64 / block * block,
                block >= 4,
                out@ == seq![Ipv4(net)] + Seq::new(i as nat, |k: int| Ipv4((net + 1 + k) as u32)),
            decreases count - i,
        {
            out.push(Ipv4(net + 1 + i as u32));
            proof {
                assert(out@ =~= seq![Ipv4(net)] + Seq::new(
                    (i + 1) as nat,
                    |k: int| Ipv4((net + 1 + k) as u32),
                ));
            }
            i = i + 1;
        }
        proof {
            assert(out@ =~= spec_subnet_seq(subnet));
        }
    } else if subnet.prefix == 31 {
        out.push(Ipv4(net));
        out.push(Ipv4(net + 1));
        proof {
            assert(out@ =~= spec_subnet_seq(subnet));
        }
    } else {
        out.push(Ipv4(net));
        proof {
            assert(block == 1);
            assert(out@ =~= spec_subnet_seq(subnet));
        }
    }
    out
}

proof fn lemma_pow2i_table()
    ensures
        pow2i(31) == 0x80000000,
        pow2i(32) == 0x100000000,
{
    assert(pow2i(0) == 1);
    assert(pow2i(1) == 2);
    assert(pow2i(2) == 4);
    assert(pow2i(3) == 8);
    assert(pow2i(4) == 16);
    assert(pow2i(8) == 256) by {
        assert(pow2i(5) == 32);
        assert(pow2i(6) == 64);
        assert(pow2i(7) == 128);
    }
    assert(pow2i(16) == 0x10000) by {
        assert(pow2i(9) == 512);
        assert(pow2i(10) == 1024);
        assert(pow2i(11) == 2048);
        assert(pow2i(12) == 4096);
        assert(pow2i(13) == 8192);
        assert(pow2i(14) == 16384);
        assert(pow2i(15) == 32768);
    }
    assert(pow2i(24) == 0x1000000) by {
        assert(pow2i(17) == 0x20000);
        assert(pow2i(18) == 0x40000);
        assert(pow2i(19) == 0x80000);
        assert(pow2i(20) == 0x100000);
        assert(pow2i(21) == 0x200000);
        assert(pow2i(22) == 0x400000);
        assert(pow2i(23) == 0x800000);
    }
    assert(pow2i(25) == 0x2000000);
    assert(pow2i(26) == 0x4000000);
    assert(pow2i(27) == 0x8000000);
    assert(pow2i(28) == 0x10000000);
    assert(pow2i(29) == 0x20000000);
    assert(pow2i(30) == 0x40000000);
    assert(pow2i(31) == 0x80000000);
}

/// A prefix text: decimal digits naming a prefix length of at most 32.
pub open spec fn spec_parse_prefix(s: Seq<char>) -> Option<u8> {
    if s.len() >= 1 && s.len() <= 3 && all_digits(s) && dec_val(s) <= 32 {
        Some(dec_val(s) as u8)
    } else {
        None
    }
}

/// The subnet grammar: a dotted quad, a slash, and a prefix length.
pub open spec fn spec_parse_subnet(s: Seq<char>) -> Option<Subnet> {
    match find_char(s, '/', 0) {
        None => None,
        Some(i) => match spec_parse_ipv4(s.subrange(0, i)) {
            None => None,
            Some(v) => match spec_parse_prefix(s.subrange(i + 1, s.len() as int)) {
                None => None,
                Some(p) => Some(Subnet { addr: Ipv4(v), prefix: p }),
            },
        },
    }
}

/// First slash of `text` at or after `from`, by scan.
fn find_char_pos(text: &str, from: usize, n: usize) -> (r: Option<usize>)
    requires
        from <= n,
        n == text@.len(),
    ensures
        match r {
            Some(u) => find_char(text@, '/', from as int) == Some(u as int) && from <= u < n,
            None => find_char(text@, '/', from as int) is None,
        },
{
    let mut j = from;
    while j < n
        invariant
            from <= j <= n,
            n == text@.len(),
            find_char(text@, '/', from as int) == find_char(text@, '/', j as int),
        decreases n - j,
    {
        if text.get_char(j) == '/' {
            return Some(j);
        }
        j = j + 1;
    }
    None
}

/// Parse a subnet in CIDR notation; host bits may be set in the base
/// address.
#[verifier::loop_isolation(false)]
pub fn parse_subnet(text: &str) -> (r: Option<Subnet>)
    ensures
        r == spec_parse_subnet(text@),
{
    let n = text.unicode_len();
    let slash = match find_char_pos(text, 0, n) {
        Some(i) => i,
        None => {
            return None;
        },
    };
    let left = text.substring_char(0, slash);
    let ip = match parse_ipv4(left) {
        Some(ip) => ip,
        None => {
            return None;
        },
    };
    let right = text.substring_char(slash + 1, n);
    proof {
        assert(left@ == text@.subrange(0, slash as int));
        assert(right@ == text@.subrange(slash as int + 1, n as int));
    }
    let m = right.unicode_len();
    if m < 1 || m > 3 {
        return None;
    }
    let mut acc: u32 = 0;
    let mut j: usize = 0;
    while j < m
        invariant
            0 <= j <= m,
            1 <= m <= 3,
            m == right@.len(),
            all_digits(right@.subrange(0, j as int)),
            acc as int == dec_val(right@.subrange(0, j as int)),
            j == 0 ==> acc == 0,
            j == 1 ==> acc <= 9,
            j == 2 ==> acc <= 99,
            j == 3 ==> acc <= 999,
        decreases m - j,
    {
        let c = right.get_char(j);
        if c < '0' || c > '9' {
            assert(right@[j as int] == c);
            assert(!is_digit(right@[j as int]));
            return None;
        }
        proof {
            assert(right@.subrange(0, j + 1).drop_last() =~= right@.subrange(0, j as int));
            assert(right@.subrange(0, j + 1).last() == right@[j as int]);
            assert(right@[j as int] == c);
        }
        acc = acc * 10 + (c as u32 - 48);
        j = j + 1;
    }
    proof {
        assert(right@.subrange(0, m as int) =~= right@);
    }
    if acc > 32 {
        return None;
    }
    Some(Subnet { addr: ip, prefix: acc as u8 })
}

/// The loopback listen address `127.0.0.1`, which binds and connects without
/// the reuse-address path.
pub open spec fn spec_is_loopback(ip: Ipv4) -> bool {
    ip.0 == 0x7f000001u32
}

pub fn is_loopback(ip: Ipv4) -> (r: bool)
    ensures
        r == spec_is_loopback(ip),
{
    ip.0 == 0x7f000001
}

/// The address an outbound socket is bound to before connecting: the tenant's
/// listen IP with an ephemeral port. This is what pins the source IP of every
/// relayed byte to the listen IP that accepted the client.
pub fn outbound_bind_addr(listen_ip: Ipv4) -> (r: SockAddr)
    ensures
        r.ip == IpRepr::V4(listen_ip),
        r.port == 0,
{
    SockAddr { ip: IpRepr::V4(listen_ip), port: 0 }
}

} // verus!
