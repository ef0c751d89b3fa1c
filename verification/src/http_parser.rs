//! The HTTP request grammar and its parser.
//!
//! A request is a start line `METHOD SP PATH SP HTTP/1.x CRLF`, a block of
//! `Name: value` header lines closed by an empty line, and the remaining
//! bytes as the body tail. Host extraction follows the proxy's rules: the
//! CONNECT target, else an absolute-URI authority, else the `Host` header.
//! The `Proxy-Authorization` header is consumed for authentication and never
//! kept among the forwarded headers.

use vstd::prelude::*;
use vstd::seq_lib::*;
use vstd::string::StringSliceAdditionalSpecFns;
use crate::auth::{spec_parse_credentials, utf8_of, utf8_to_string, parse_credentials};

verus! {

pub const CR: u8 = 13;

pub const LF: u8 = 10;

pub const SP: u8 = 32;

pub const HT: u8 = 9;

pub const COLON: u8 = 58;

/// Largest accepted header buffer: 16 KiB.
pub const MAX_BUF: usize = 16384;

/// First occurrence of `b` in `s` at or after `from`.
pub open spec fn find_byte(s: Seq<u8>, b: u8, from: int) -> Option<int>
    decreases s.len() - from,
{
    if from < 0 || from >= s.len() {
        None
    } else if s[from] == b {
        Some(from)
    } else {
        find_byte(s, b, from + 1)
    }
}

/// What `find_byte` returns: the first occurrence, or nothing.
pub proof fn lemma_find_byte_props(s: Seq<u8>, b: u8, from: int)
    requires
        from >= 0,
    ensures
        match find_byte(s, b, from) {
            Some(i) => from <= i < s.len() && s[i] == b && (forall|j: int|
                from <= j < i ==> s[j] != b),
            None => forall|j: int| from <= j < s.len() ==> s[j] != b,
        },
    decreases s.len() - from,
{
    if from < s.len() && s[from] != b {
        lemma_find_byte_props(s, b, from + 1);
    }
}

/// Last occurrence of `b` in `s`.
pub open spec fn find_last_byte(s: Seq<u8>, b: u8) -> Option<int>
    decreases s.len(),
{
    if s.len() == 0 {
        None
    } else if s.last() == b {
        Some(s.len() - 1)
    } else {
        find_last_byte(s.drop_last(), b)
    }
}

/// What `find_last_byte` returns: the last occurrence, or nothing.
pub proof fn lemma_find_last_byte_props(s: Seq<u8>, b: u8)
    ensures
        match find_last_byte(s, b) {
            Some(i) => 0 <= i < s.len() && s[i] == b && (forall|j: int|
                i < j < s.len() ==> s[j] != b),
            None => forall|j: int| 0 <= j < s.len() ==> s[j] != b,
        },
    decreases s.len(),
{
    if s.len() > 0 && s.last() != b {
        lemma_find_last_byte_props(s.drop_last(), b);
        assert forall|j: int| 0 <= j < s.len() - 1 implies s.drop_last()[j] == s[j] by {}
    }
}

/// Split off the first CRLF-terminated line; the line may contain neither a
/// carriage return nor a bare line feed.
pub open spec fn split_line(s: Seq<u8>) -> Option<(Seq<u8>, Seq<u8>)> {
    match find_byte(s, CR, 0) {
        None => None,
        Some(i) => if i + 1 < s.len() && s[i + 1] == LF && find_byte(s.subrange(0, i), LF, 0)
            is None {
            Some((s.subrange(0, i), s.subrange(i + 2, s.len() as int)))
        } else {
            None
        },
    }
}

/// The three space-separated parts of the start line; exactly two spaces.
pub open spec fn request_line_parts(line: Seq<u8>) -> Option<(Seq<u8>, Seq<u8>, Seq<u8>)> {
    match find_byte(line, SP, 0) {
        None => None,
        Some(i) => match find_byte(line, SP, i + 1) {
            None => None,
            Some(j) => if find_byte(line, SP, j + 1) is None {
                Some(
                    (
                        line.subrange(0, i),
                        line.subrange(i + 1, j),
                        line.subrange(j + 1, line.len() as int),
                    ),
                )
            } else {
                None
            },
        },
    }
}

/// The bytes of `HTTP/1.`.
pub open spec fn http1_prefix() -> Seq<u8> {
    seq![72u8, 84u8, 84u8, 80u8, 47u8, 49u8, 46u8]
}

/// Only `HTTP/1.0` and `HTTP/1.1` are served.
pub open spec fn valid_version(ver: Seq<u8>) -> bool {
    ver.len() == 8 && ver.subrange(0, 7) == http1_prefix() && (ver[7] == 48 || ver[7] == 49)
}

/// The stored version text: `1.0` or `1.1`.
pub open spec fn version_text(ver: Seq<u8>) -> Seq<u8> {
    seq![49u8, 46u8, ver[7]]
}

/// One parsed header: name and value bytes.
pub struct HeaderPair {
    pub name: Seq<u8>,
    pub value: Seq<u8>,
}

/// Header names are visible ASCII without the colon.
pub open spec fn is_name_byte(b: u8) -> bool {
    33 <= b <= 126 && b != COLON
}

pub open spec fn valid_name(n: Seq<u8>) -> bool {
    n.len() >= 1 && forall|i: int| 0 <= i < n.len() ==> is_name_byte(#[trigger] n[i])
}

/// Drop leading spaces and horizontal tabs.
pub open spec fn skip_ows(s: Seq<u8>) -> Seq<u8>
    decreases s.len(),
{
    if s.len() > 0 && (s[0] == SP || s[0] == HT) {
        skip_ows(s.drop_first())
    } else {
        s
    }
}

/// A header line: name, colon, then the value with leading whitespace
/// dropped.
pub open spec fn header_of_line(line: Seq<u8>) -> Option<HeaderPair> {
    match find_byte(line, COLON, 0) {
        None => None,
        Some(c) => {
            let name = line.subrange(0, c);
            let value = skip_ows(line.subrange(c + 1, line.len() as int));
            if valid_name(name) {
                Some(HeaderPair { name, value })
            } else {
                None
            }
        },
    }
}

/// The header block: lines up to the empty line, and the bytes after it.
pub open spec fn parse_header_block(s: Seq<u8>) -> Option<(Seq<HeaderPair>, Seq<u8>)>
    decreases s.len(),
{
    if s.len() >= 2 && s[0] == CR && s[1] == LF {
        Some((Seq::empty(), s.subrange(2, s.len() as int)))
    } else {
        match split_line(s) {
            None => None,
            Some((line, rest)) => if rest.len() < s.len() {
                match header_of_line(line) {
                    None => None,
                    Some(h) => match parse_header_block(rest) {
                        None => None,
                        Some((hs, body)) => Some((seq![h] + hs, body)),
                    },
                }
            } else {
                None
            },
        }
    }
}

pub open spec fn lower_byte(b: u8) -> u8 {
    if 65 <= b <= 90 {
        (b + 32) as u8
    } else {
        b
    }
}

pub open spec fn lower_bytes(s: Seq<u8>) -> Seq<u8> {
    Seq::new(s.len(), |i: int| lower_byte(s[i]))
}

/// `CONNECT`
pub open spec fn connect_name() -> Seq<u8> {
    seq![67u8, 79u8, 78u8, 78u8, 69u8, 67u8, 84u8]
}

/// `host`
pub open spec fn host_name() -> Seq<u8> {
    seq![104u8, 111u8, 115u8, 116u8]
}

/// `proxy-authorization`
pub open spec fn proxy_auth_name() -> Seq<u8> {
    seq![
        112u8, 114u8, 111u8, 120u8, 121u8, 45u8, 97u8, 117u8, 116u8, 104u8, 111u8, 114u8, 105u8,
        122u8, 97u8, 116u8, 105u8, 111u8, 110u8,
    ]
}

/// `http://`
pub open spec fn http_scheme() -> Seq<u8> {
    seq![104u8, 116u8, 116u8, 112u8, 58u8, 47u8, 47u8]
}

/// `https://`
pub open spec fn https_scheme() -> Seq<u8> {
    seq![104u8, 116u8, 116u8, 112u8, 115u8, 58u8, 47u8, 47u8]
}

/// The value of the last header with this (lowercase) name, matching names
/// case-insensitively; the last occurrence wins.
pub open spec fn last_header(hs: Seq<HeaderPair>, name: Seq<u8>) -> Option<Seq<u8>>
    decreases hs.len(),
{
    if hs.len() == 0 {
        None
    } else if lower_bytes(hs.last().name) == name {
        Some(hs.last().value)
    } else {
        last_header(hs.drop_last(), name)
    }
}

pub open spec fn is_digit_byte(b: u8) -> bool {
    48 <= b <= 57
}

pub open spec fn all_digit_bytes(s: Seq<u8>) -> bool {
    forall|i: int| 0 <= i < s.len() ==> is_digit_byte(#[trigger] s[i])
}

/// Decimal value of a digit-byte string, most significant first.
pub open spec fn digits_val(s: Seq<u8>) -> int
    decreases s.len(),
{
    if s.len() == 0 {
        0
    } else {
        digits_val(s.drop_last()) * 10 + (s.last() - 48)
    }
}

/// A port text: non-empty digits whose value fits a port.
pub open spec fn parse_port(s: Seq<u8>) -> Option<u16> {
    if s.len() >= 1 && all_digit_bytes(s) && digits_val(s) <= 65535 {
        Some(digits_val(s) as u16)
    } else {
        None
    }
}

/// The CONNECT target: split at the first colon; a missing or malformed
/// port falls back to 443.
pub open spec fn connect_host(p: Seq<u8>) -> (Seq<u8>, u16) {
    match find_byte(p, COLON, 0) {
        None => (p, 443u16),
        Some(i) => (
            p.subrange(0, i),
            match parse_port(p.subrange(i + 1, p.len() as int)) {
                Some(v) => v,
                None => 443u16,
            },
        ),
    }
}

/// First index at or after `from` holding `/`, `?` or `#`, else the length:
/// where a URI's authority ends.
pub open spec fn find_delim(s: Seq<u8>, from: int) -> int
    decreases s.len() - from,
{
    if from < 0 || from >= s.len() {
        s.len() as int
    } else if s[from] == 47 || s[from] == 63 || s[from] == 35 {
        from
    } else {
        find_delim(s, from + 1)
    }
}


/// The authority after any userinfo: everything past the last `@`.
pub open spec fn strip_userinfo(a: Seq<u8>) -> Seq<u8> {
    match find_last_byte(a, 64) {
        Some(i) => a.subrange(i + 1, a.len() as int),
        None => a,
    }
}

/// Host and port of an authority: a non-empty host (a bracketed form kept
/// whole), then an optional `:port`; an empty port text falls back to the
/// default, a malformed one fails.
pub open spec fn host_port_of_authority(a: Seq<u8>, default_port: u16) -> Option<(Seq<u8>, u16)> {
    let hp = strip_userinfo(a);
    if hp.len() == 0 {
        None
    } else if hp[0] == 91 {
        match find_byte(hp, 93, 0) {
            None => None,
            Some(j) => {
                let host = hp.subrange(0, j + 1);
                let restp = hp.subrange(j + 1, hp.len() as int);
                if restp.len() == 0 {
                    Some((host, default_port))
                } else if restp[0] == COLON {
                    let ptxt = restp.subrange(1, restp.len() as int);
                    if ptxt.len() == 0 {
                        Some((host, default_port))
                    } else {
                        match parse_port(ptxt) {
                            Some(v) => Some((host, v)),
                            None => None,
                        }
                    }
                } else {
                    None
                }
            },
        }
    } else {
        match find_byte(hp, COLON, 0) {
            None => Some((hp, default_port)),
            Some(i) => {
                let host = hp.subrange(0, i);
                let ptxt = hp.subrange(i + 1, hp.len() as int);
                if host.len() == 0 {
                    None
                } else if ptxt.len() == 0 {
                    Some((host, default_port))
                } else {
                    match parse_port(ptxt) {
                        Some(v) => Some((host, v)),
                        None => None,
                    }
                }
            },
        }
    }
}

pub open spec fn seq_starts_with(s: Seq<u8>, p: Seq<u8>) -> bool {
    s.len() >= p.len() && s.subrange(0, p.len() as int) == p
}

/// Host extraction, in order: the CONNECT target, an absolute URI's
/// authority (default port by scheme), else the last `Host` header treated
/// as an authority with default port 80.
pub open spec fn host_of(m: Seq<u8>, p: Seq<u8>, hs: Seq<HeaderPair>) -> Option<(Seq<u8>, u16)> {
    if m == connect_name() {
        Some(connect_host(p))
    } else if seq_starts_with(p, http_scheme()) {
        host_port_of_authority(p.subrange(7, find_delim(p, 7)), 80)
    } else if seq_starts_with(p, https_scheme()) {
        host_port_of_authority(p.subrange(8, find_delim(p, 8)), 443)
    } else {
        match last_header(hs, host_name()) {
            None => None,
            Some(v) => host_port_of_authority(v.subrange(0, find_delim(v, 0)), 80),
        }
    }
}

/// The fully parsed request.
pub struct ReqModel {
    pub method: Seq<u8>,
    pub path: Seq<u8>,
    pub version: Seq<u8>,
    pub host: Seq<u8>,
    pub port: u16,
    pub headers: Seq<HeaderPair>,
    pub body: Seq<u8>,
}

#[derive(Clone, Copy, Debug, PartialEq, Eq, Structural)]
pub enum HttpParserError {
    MissingVersion,
    InvalidVersion,
    MissingMethod,
    MissingHost,
    MissingPath,
    BufferLimitExceeded,
    StreamReadError,
    ClosedConnection,
    StreamReadTimeout,
    Unknown,
}

/// The whole request grammar, with the error each failure yields.
pub open spec fn spec_parse_request(s: Seq<u8>) -> Result<ReqModel, HttpParserError> {
    if s.len() > MAX_BUF {
        Err(HttpParserError::BufferLimitExceeded)
    } else {
        match split_line(s) {
            None => Err(HttpParserError::Unknown),
            Some((line, rest)) => match request_line_parts(line) {
                None => Err(HttpParserError::Unknown),
                Some((m, p, ver)) => if m.len() == 0 {
                    Err(HttpParserError::MissingMethod)
                } else if p.len() == 0 {
                    Err(HttpParserError::MissingPath)
                } else if !valid_version(ver) {
                    Err(HttpParserError::InvalidVersion)
                } else {
                    match parse_header_block(rest) {
                        None => Err(HttpParserError::Unknown),
                        Some((hs, body)) => match host_of(m, p, hs) {
                            None => Err(HttpParserError::MissingHost),
                            Some((h, pt)) => Ok(
                                ReqModel {
                                    method: m,
                                    path: p,
                                    version: version_text(ver),
                                    host: h,
                                    port: pt,
                                    headers: hs,
                                    body,
                                },
                            ),
                        },
                    }
                },
            },
        }
    }
}

/// The credential the `Proxy-Authorization` value bytes yield, if any.
pub open spec fn spec_auth_from(v: Option<Seq<u8>>) -> Option<(Seq<char>, Seq<char>)> {
    match v {
        None => None,
        Some(bytes) => match utf8_of(bytes) {
            None => None,
            Some(s) => spec_parse_credentials(s),
        },
    }
}

/// A header kept for forwarding: anything but `Proxy-Authorization`.
pub open spec fn keeps_header(h: HeaderPair) -> bool {
    lower_bytes(h.name) != proxy_auth_name()
}

/// The forwarded headers: all but `Proxy-Authorization`.
pub open spec fn strip_proxy_auth(hs: Seq<HeaderPair>) -> Seq<HeaderPair> {
    hs.filter(|h: HeaderPair| keeps_header(h))
}

/// `Proxy-Authorization` never appears among the forwarded headers: every
/// header kept after stripping has some other name.
pub proof fn lemma_no_proxy_authorization_kept(hs: Seq<HeaderPair>, i: int)
    requires
        0 <= i < strip_proxy_auth(hs).len(),
    ensures
        lower_bytes(strip_proxy_auth(hs)[i].name) != proxy_auth_name(),
{
    broadcast use vstd::seq_lib::group_filter_ensures;

}

/// The header section is complete once the bytes hold an empty line: the
/// reader accumulates until this holds (or the buffer limit passes), then
/// parses once.
pub open spec fn spec_head_complete(s: Seq<u8>) -> bool {
    exists|i: int|
        0 <= i <= s.len() - 4 && #[trigger] s[i] == CR && s[i + 1] == LF && s[i + 2] == CR && s[i
            + 3] == LF
}

pub fn head_complete(buf: &Vec<u8>) -> (r: bool)
    ensures
        r == spec_head_complete(buf@),
{
    let n = buf.len();
    if n < 4 {
        assert(!spec_head_complete(buf@));
        return false;
    }
    let mut i: usize = 0;
    while i <= n - 4
        invariant
            4 <= n == buf@.len(),
            0 <= i <= n - 3,
            forall|j: int|
                0 <= j < i ==> !(#[trigger] buf@[j] == CR && buf@[j + 1] == LF && buf@[j + 2] == CR
                    && buf@[j + 3] == LF),
        decreases n - i,
    {
        if buf[i] == CR && buf[i + 1] == LF && buf[i + 2] == CR && buf[i + 3] == LF {
            assert(spec_head_complete(buf@));
            return true;
        }
        i = i + 1;
    }
    proof {
        if spec_head_complete(buf@) {
            let j = choose|j: int|
                0 <= j <= buf@.len() - 4 && #[trigger] buf@[j] == CR && buf@[j + 1] == LF && buf@[j
                    + 2] == CR && buf@[j + 3] == LF;
            assert(false);
        }
    }
    false
}

/// First occurrence of `b` at or after `from`, by scan.
fn find_u8(buf: &Vec<u8>, b: u8, from: usize) -> (r: Option<usize>)
    requires
        from <= buf@.len(),
    ensures
        match r {
            Some(i) => find_byte(buf@, b, from as int) == Some(i as int) && from <= i
                < buf@.len(),
            None => find_byte(buf@, b, from as int) is None,
        },
{
    let n = buf.len();
    let mut j = from;
    while j < n
        invariant
            from <= j <= n,
            n == buf@.len(),
            find_byte(buf@, b, from as int) == find_byte(buf@, b, j as int),
        decreases n - j,
    {
        if buf[j] == b {
            return Some(j);
        }
        j = j + 1;
    }
    None
}

/// The bytes in `[from, to)`, as their own vector.
fn copy_range(buf: &Vec<u8>, from: usize, to: usize) -> (r: Vec<u8>)
    requires
        from <= to <= buf@.len(),
    ensures
        r@ == buf@.subrange(from as int, to as int),
{
    let mut r: Vec<u8> = Vec::new();
    let mut j = from;
    while j < to
        invariant
            from <= j <= to <= buf@.len(),
            r@ == buf@.subrange(from as int, j as int),
        decreases to - j,
    {
        let x = buf[j];
        r.push(x);
        proof {
            assert(r@ =~= buf@.subrange(from as int, j + 1));
        }
        j = j + 1;
    }
    r
}

fn lower_u8(b: u8) -> (r: u8)
    ensures
        r == lower_byte(b),
{
    if 65 <= b && b <= 90 {
        b + 32
    } else {
        b
    }
}

/// Whether the name, lowered, equals the (lowercase) target bytes.
fn name_eq_lower(name: &Vec<u8>, target: &[u8]) -> (r: bool)
    ensures
        r == (lower_bytes(name@) == target@),
{
    let n = name.len();
    if n != target.len() {
        assert(lower_bytes(name@).len() != target@.len());
        return false;
    }
    let mut j: usize = 0;
    while j < n
        invariant
            0 <= j <= n,
            n == name@.len(),
            n == target@.len(),
            forall|k: int| 0 <= k < j ==> lower_bytes(name@)[k] == target@[k],
        decreases n - j,
    {
        if lower_u8(name[j]) != target[j] {
            assert(lower_bytes(name@)[j as int] != target@[j as int]);
            return false;
        }
        j = j + 1;
    }
    proof {
        assert(lower_bytes(name@) =~= target@);
    }
    true
}

/// Whether two byte strings are equal.
fn bytes_eq(a: &Vec<u8>, b: &[u8]) -> (r: bool)
    ensures
        r == (a@ == b@),
{
    let n = a.len();
    if n != b.len() {
        assert(a@.len() != b@.len());
        return false;
    }
    let mut j: usize = 0;
    while j < n
        invariant
            0 <= j <= n,
            n == a@.len(),
            n == b@.len(),
            forall|k: int| 0 <= k < j ==> a@[k] == b@[k],
        decreases n - j,
    {
        if a[j] != b[j] {
            return false;
        }
        j = j + 1;
    }
    proof {
        assert(a@ =~= b@);
    }
    true
}

/// Skipping leading whitespace is taking the suffix from the first
/// non-whitespace position.
proof fn lemma_skip_ows_at(v: Seq<u8>, k: int)
    requires
        0 <= k <= v.len(),
        forall|j: int| 0 <= j < k ==> v[j] == SP || v[j] == HT,
        k < v.len() ==> !(v[k] == SP || v[k] == HT),
    ensures
        skip_ows(v) == v.subrange(k, v.len() as int),
    decreases k,
{
    if k == 0 {
        if v.len() > 0 && (v[0] == SP || v[0] == HT) {
            assert(false);
        }
        assert(v.subrange(0, v.len() as int) =~= v);
    } else {
        assert(v[0] == SP || v[0] == HT);
        let w = v.drop_first();
        assert forall|j: int| 0 <= j < k - 1 implies w[j] == SP || w[j] == HT by {
            assert(w[j] == v[j + 1]);
        }
        lemma_skip_ows_at(w, k - 1);
        assert(w.subrange(k - 1, w.len() as int) =~= v.subrange(k, v.len() as int));
    }
}

/// Digit text in `[from, to)` as a port number, if it is one.
fn parse_port_range(buf: &Vec<u8>, from: usize, to: usize) -> (r: Option<u16>)
    requires
        from <= to <= buf@.len(),
    ensures
        r == parse_port(buf@.subrange(from as int, to as int)),
{
    let ghost t = buf@.subrange(from as int, to as int);
    if from == to {
        return None;
    }
    let mut acc: u32 = 0;
    let mut j = from;
    while j < to
        invariant
            from <= j <= to <= buf@.len(),
            t == buf@.subrange(from as int, to as int),
            all_digit_bytes(t.subrange(0, j - from)),
            acc as int == digits_val(t.subrange(0, j - from)),
            acc <= 65535,
        decreases to - j,
    {
        let b = buf[j];
        if b < 48 || b > 57 {
            assert(t[j - from] == b);
            assert(!is_digit_byte(t[j - from]));
            return None;
        }
        proof {
            assert(t.subrange(0, j - from + 1).drop_last() =~= t.subrange(0, j - from));
            assert(t.subrange(0, j - from + 1).last() == t[j - from]);
            assert(t[j - from] == b);
        }
        let next: u32 = acc * 10 + (b as u32 - 48);
        if next > 65535 {
            proof {
                if all_digit_bytes(t) {
                    lemma_digits_val_monotone(t, j - from + 1);
                }
            }
            return None;
        }
        acc = next;
        j = j + 1;
    }
    proof {
        assert(t.subrange(0, to - from) =~= t);
    }
    Some(acc as u16)
}

/// The value of a digit string only grows with more digits.
proof fn lemma_digits_val_monotone(s: Seq<u8>, k: int)
    requires
        0 <= k <= s.len(),
        all_digit_bytes(s),
    ensures
        digits_val(s) >= digits_val(s.subrange(0, k)),
    decreases s.len() - k,
{
    if k < s.len() {
        lemma_digits_val_monotone(s, k + 1);
        assert(s.subrange(0, k + 1).drop_last() =~= s.subrange(0, k));
        assert(digits_val(s.subrange(0, k + 1)) == digits_val(s.subrange(0, k)) * 10 + (
        s.subrange(0, k + 1).last() - 48));
        assert(digits_val(s.subrange(0, k)) >= 0) by {
            lemma_digits_val_nonneg(s.subrange(0, k));
        }
    } else {
        assert(s.subrange(0, s.len() as int) =~= s);
    }
}

proof fn lemma_digits_val_nonneg(s: Seq<u8>)
    requires
        all_digit_bytes(s),
    ensures
        digits_val(s) >= 0,
    decreases s.len(),
{
    if s.len() > 0 {
        assert(all_digit_bytes(s.drop_last())) by {
            assert(forall|i: int| 0 <= i < s.len() - 1 ==> s.drop_last()[i] == s[i]);
        }
        lemma_digits_val_nonneg(s.drop_last());
    }
}

/// Last `@` in `[from, to)`, by scan from the end.
fn find_last_at(buf: &Vec<u8>, from: usize, to: usize) -> (r: Option<usize>)
    requires
        from <= to <= buf@.len(),
    ensures
        match r {
            Some(i) => from <= i < to && buf@[i as int] == 64 && (forall|j: int|
                i < j < to ==> buf@[j] != 64),
            None => forall|j: int| from <= j < to ==> buf@[j] != 64,
        },
{
    let mut j = to;
    while j > from
        invariant
            from <= j <= to <= buf@.len(),
            forall|k: int| j <= k < to ==> buf@[k] != 64,
        decreases j,
    {
        j = j - 1;
        if buf[j] == 64 {
            return Some(j);
        }
    }
    None
}

/// First `/`, `?` or `#` in `[from, len)`, else the length.
fn find_delim_exec(buf: &Vec<u8>, from: usize) -> (r: usize)
    requires
        from <= buf@.len(),
    ensures
        r as int == find_delim(buf@, from as int),
        from <= r <= buf@.len(),
{
    let n = buf.len();
    let mut j = from;
    while j < n
        invariant
            from <= j <= n,
            n == buf@.len(),
            find_delim(buf@, from as int) == find_delim(buf@, j as int),
        decreases n - j,
    {
        let b = buf[j];
        if b == 47 || b == 63 || b == 35 {
            return j;
        }
        j = j + 1;
    }
    n
}

/// Host and port of the authority bytes, per `host_port_of_authority`.
#[verifier::rlimit(60)]
fn host_port_exec(a: &Vec<u8>, default_port: u16) -> (r: Option<(Vec<u8>, u16)>)
    ensures
        match r {
            Some(hp) => host_port_of_authority(a@, default_port) == Some((hp.0@, hp.1)),
            None => host_port_of_authority(a@, default_port) is None,
        },
{
    let n = a.len();
    let start = match find_last_at(a, 0, n) {
        Some(i) => i + 1,
        None => 0,
    };
    let ghost hp = strip_userinfo(a@);
    proof {
        lemma_find_last_byte_props(a@, 64);
        match find_last_byte(a@, 64) {
            Some(i) => {
                assert(i == start - 1);
            },
            None => {
                assert(start == 0);
            },
        }
        assert(hp =~= a@.subrange(start as int, n as int));
    }
    if start == n {
        return None;
    }
    if a[start] == 91 {
        // Bracketed host: keep the brackets, port after `]:`.
        let close = match find_u8(a, 93, start) {
            Some(j) => j,
            None => {
                proof {
                    lemma_find_byte_props(a@, 93, start as int);
                    lemma_find_byte_props(hp, 93, 0);
                    if find_byte(hp, 93, 0) is Some {
                        let j = find_byte(hp, 93, 0)->Some_0;
                        assert(a@[start + j] == 93);
                    }
                }
                return None;
            },
        };
        proof {
            lemma_find_byte_props(a@, 93, start as int);
            lemma_find_byte_props(hp, 93, 0);
            if find_byte(hp, 93, 0) is Some {
                let j = find_byte(hp, 93, 0)->Some_0;
                assert(a@[start + j] == 93);
                assert(close - start <= j);
            }
            assert(hp[close - start] == 93);
            assert(find_byte(hp, 93, 0) == Some(close as int - start as int));
        }
        let host = copy_range(a, start, close + 1);
        proof {
            assert(host@ =~= hp.subrange(0, close - start + 1));
        }
        if close + 1 == n {
            proof {
                assert(hp.subrange(close - start + 1, hp.len() as int) =~= Seq::<u8>::empty());
            }
            return Some((host, default_port));
        }
        if a[close + 1] != COLON {
            assert(hp.subrange(close - start + 1, hp.len() as int)[0] == a@[close + 1]);
            return None;
        }
        assert(hp.subrange(close - start + 1, hp.len() as int)[0] == a@[close + 1]);
        if close + 2 == n {
            proof {
                assert(hp.subrange(close - start + 1, hp.len() as int).subrange(
                    1,
                    hp.subrange(close - start + 1, hp.len() as int).len() as int,
                ) =~= Seq::<u8>::empty());
            }
            return Some((host, default_port));
        }
        let port = match parse_port_range(a, close + 2, n) {
            Some(v) => v,
            None => {
                proof {
                    assert(hp.subrange(close - start + 1, hp.len() as int).subrange(
                        1,
                        hp.subrange(close - start + 1, hp.len() as int).len() as int,
                    ) =~= a@.subrange(close + 2, n as int));
                }
                return None;
            },
        };
        proof {
            assert(hp.subrange(close - start + 1, hp.len() as int).subrange(
                1,
                hp.subrange(close - start + 1, hp.len() as int).len() as int,
            ) =~= a@.subrange(close + 2, n as int));
        }
        Some((host, port))
    } else {
        let col = match find_u8(a, COLON, start) {
            Some(j) => j,
            None => {
                let host = copy_range(a, start, n);
                proof {
                    lemma_find_byte_props(a@, COLON, start as int);
                    lemma_find_byte_props(hp, COLON, 0);
                    if find_byte(hp, COLON, 0) is Some {
                        let j = find_byte(hp, COLON, 0)->Some_0;
                        assert(a@[start + j] == COLON);
                    }
                    assert(host@ =~= hp);
                }
                return Some((host, default_port));
            },
        };
        proof {
            lemma_find_byte_props(a@, COLON, start as int);
            lemma_find_byte_props(hp, COLON, 0);
            if find_byte(hp, COLON, 0) is Some {
                let j = find_byte(hp, COLON, 0)->Some_0;
                assert(a@[start + j] == COLON);
                assert(col - start <= j);
            }
            assert(hp[col - start] == COLON);
            assert(find_byte(hp, COLON, 0) == Some(col as int - start as int));
        }
        if col == start {
            return None;
        }
        let host = copy_range(a, start, col);
        proof {
            assert(host@ =~= hp.subrange(0, col - start));
        }
        if col + 1 == n {
            proof {
                assert(hp.subrange(col - start + 1, hp.len() as int) =~= Seq::<u8>::empty());
            }
            return Some((host, default_port));
        }
        let port = match parse_port_range(a, col + 1, n) {
            Some(v) => v,
            None => {
                proof {
                    assert(hp.subrange(col - start + 1, hp.len() as int) =~= a@.subrange(
                        col + 1,
                        n as int,
                    ));
                }
                return None;
            },
        };
        proof {
            assert(hp.subrange(col - start + 1, hp.len() as int) =~= a@.subrange(
                col + 1,
                n as int,
            ));
        }
        Some((host, port))
    }
}

fn connect_bytes() -> (r: &'static [u8])
    ensures
        r@ == connect_name(),
{
    broadcast use vstd::string::is_ascii_spec_bytes;

    let s = "CONNECT";
    proof {
        reveal_strlit("CONNECT");
        assert(s.is_ascii());
        assert(s.spec_bytes() =~= connect_name());
    }
    s.as_bytes()
}

fn http_scheme_bytes() -> (r: &'static [u8])
    ensures
        r@ == http_scheme(),
{
    broadcast use vstd::string::is_ascii_spec_bytes;

    let s = "http://";
    proof {
        reveal_strlit("http://");
        assert(s.is_ascii());
        assert(s.spec_bytes() =~= http_scheme());
    }
    s.as_bytes()
}

fn https_scheme_bytes() -> (r: &'static [u8])
    ensures
        r@ == https_scheme(),
{
    broadcast use vstd::string::is_ascii_spec_bytes;

    let s = "https://";
    proof {
        reveal_strlit("https://");
        assert(s.is_ascii());
        assert(s.spec_bytes() =~= https_scheme());
    }
    s.as_bytes()
}

fn host_lc_bytes() -> (r: &'static [u8])
    ensures
        r@ == host_name(),
{
    broadcast use vstd::string::is_ascii_spec_bytes;

    let s = "host";
    proof {
        reveal_strlit("host");
        assert(s.is_ascii());
        assert(s.spec_bytes() =~= host_name());
    }
    s.as_bytes()
}

fn proxy_auth_lc_bytes() -> (r: &'static [u8])
    ensures
        r@ == proxy_auth_name(),
{
    broadcast use vstd::string::is_ascii_spec_bytes;

    let s = "proxy-authorization";
    proof {
        reveal_strlit("proxy-authorization");
        assert(s.is_ascii());
        assert(s.spec_bytes() =~= proxy_auth_name());
    }
    s.as_bytes()
}

fn starts_with_bytes(v: &Vec<u8>, p: &[u8]) -> (r: bool)
    ensures
        r == seq_starts_with(v@, p@),
{
    let m = p.len();
    if v.len() < m {
        return false;
    }
    let mut j: usize = 0;
    while j < m
        invariant
            0 <= j <= m,
            m == p@.len(),
            m <= v@.len(),
            forall|k: int| 0 <= k < j ==> v@[k] == p@[k],
        decreases m - j,
    {
        if v[j] != p[j] {
            assert(v@.subrange(0, m as int)[j as int] != p@[j as int]);
            return false;
        }
        j = j + 1;
    }
    proof {
        assert(v@.subrange(0, m as int) =~= p@);
    }
    true
}

/// One forwarded header field.
pub struct HeaderField {
    pub name: Vec<u8>,
    pub value: Vec<u8>,
}

impl HeaderField {
    pub open spec fn model(self) -> HeaderPair {
        HeaderPair { name: self.name@, value: self.value@ }
    }
}

pub open spec fn fields_model(v: Seq<HeaderField>) -> Seq<HeaderPair> {
    Seq::new(v.len(), |i: int| v[i].model())
}

/// A parsed request, ready to authenticate and forward: the target host, the
/// headers to forward (`Proxy-Authorization` removed), the body tail, and
/// the credential the `Proxy-Authorization` header carried, if a valid one.
pub struct HttpRequestData {
    pub method: Vec<u8>,
    pub path: Vec<u8>,
    /// `1.0` or `1.1`.
    pub version: Vec<u8>,
    /// Target hostname (or bracketed address) and port.
    pub host: (Vec<u8>, u16),
    pub headers: Vec<HeaderField>,
    pub body: Vec<u8>,
    pub authentication: Option<(String, String)>,
}

impl HttpRequestData {
    pub fn new(
        method: Vec<u8>,
        path: Vec<u8>,
        version: Vec<u8>,
        headers: Vec<HeaderField>,
        body: Vec<u8>,
        host: (Vec<u8>, u16),
        authentication: Option<(String, String)>,
    ) -> (r: HttpRequestData)
        ensures
            r.method == method,
            r.path == path,
            r.version == version,
            r.headers == headers,
            r.body == body,
            r.host == host,
            r.authentication == authentication,
    {
        HttpRequestData { method, path, version, host, headers, body, authentication }
    }
}

/// How a successfully parsed record relates to the request model: wire
/// fields verbatim, headers with `Proxy-Authorization` removed, and the
/// credential derived from that header's last value.
pub open spec fn parsed_to(d: HttpRequestData, m: ReqModel) -> bool {
    &&& d.method@ == m.method
    &&& d.path@ == m.path
    &&& d.version@ == m.version
    &&& d.host.0@ == m.host
    &&& d.host.1 == m.port
    &&& fields_model(d.headers@) == strip_proxy_auth(m.headers)
    &&& d.body@ == m.body
    &&& ({
        let auth = spec_auth_from(last_header(m.headers, proxy_auth_name()));
        match d.authentication {
            Some(c) => auth == Some((c.0@, c.1@)),
            None => auth is None,
        }
    })
}

/// If the first occurrence of `b` at or after `from` lies in `[from, end)`,
/// it is also the first at or after `from - base` in the window
/// `s.subrange(base, end)`.
proof fn lemma_find_some_in_window(s: Seq<u8>, b: u8, base: int, end: int, from: int, w: int)
    requires
        0 <= base <= from <= end <= s.len(),
        find_byte(s, b, from) == Some(w),
        from <= w < end,
    ensures
        find_byte(s.subrange(base, end), b, from - base) == Some(w - base),
{
    lemma_find_byte_props(s, b, from);
    let t = s.subrange(base, end);
    assert(t[w - base] == s[w]);
    lemma_find_byte_props(t, b, from - base);
    match find_byte(t, b, from - base) {
        Some(x) => {
            assert(t[x] == b);
            assert(s[base + x] == b);
            if x > w - base {
                assert(t[w - base] != b);
                assert(false);
            }
            if x < w - base {
                assert(from <= base + x < w);
                assert(s[base + x] != b);
                assert(false);
            }
        },
        None => {
            assert(t[w - base] != b);
            assert(false);
        },
    }
}

/// If no occurrence of `b` at or after `from` lies before `end`, the window
/// `s.subrange(base, end)` holds none at or after `from - base`.
proof fn lemma_find_none_in_window(s: Seq<u8>, b: u8, base: int, end: int, from: int)
    requires
        0 <= base <= from <= end <= s.len(),
        match find_byte(s, b, from) {
            Some(w) => w >= end,
            None => true,
        },
    ensures
        find_byte(s.subrange(base, end), b, from - base) is None,
{
    lemma_find_byte_props(s, b, from);
    let t = s.subrange(base, end);
    lemma_find_byte_props(t, b, from - base);
    match find_byte(t, b, from - base) {
        Some(x) => {
            assert(t[x] == b);
            assert(s[base + x] == b);
            assert(from <= base + x < end);
            match find_byte(s, b, from) {
                Some(w) => {
                    assert(base + x < w);
                    assert(s[base + x] != b);
                },
                None => {},
            }
            assert(false);
        },
        None => {},
    }
}

/// Parse a complete request out of the bytes read from the client.
#[verifier::loop_isolation(false)]
#[verifier::rlimit(100)]
#[verifier::spinoff_prover]
pub fn parse_request(buf: &Vec<u8>) -> (r: Result<HttpRequestData, HttpParserError>)
    ensures
        match r {
            Ok(d) => spec_parse_request(buf@) is Ok && parsed_to(
                d,
                spec_parse_request(buf@)->Ok_0,
            ),
            Err(e) => spec_parse_request(buf@) == Err::<ReqModel, HttpParserError>(e),
        },
{
    broadcast use vstd::seq_lib::group_filter_ensures;

    let ghost s = buf@;
    let n = buf.len();
    if n > MAX_BUF {
        return Err(HttpParserError::BufferLimitExceeded);
    }
    // Start line.
    let cr = match find_u8(buf, CR, 0) {
        Some(i) => i,
        None => {
            return Err(HttpParserError::Unknown);
        },
    };
    if cr + 1 >= n || buf[cr + 1] != LF {
        return Err(HttpParserError::Unknown);
    }
    let lf = match find_u8(buf, LF, 0) {
        Some(i) => i,
        None => {
            proof {
                lemma_find_byte_props(s, LF, 0);
            }
            assert(false);
            return Err(HttpParserError::Unknown);
        },
    };
    let ghost line = s.subrange(0, cr as int);
    let ghost rest0 = s.subrange(cr as int + 2, n as int);
    if lf < cr {
        proof {
            lemma_find_some_in_window(s, LF, 0, cr as int, 0, lf as int);
        }
        return Err(HttpParserError::Unknown);
    }
    proof {
        lemma_find_none_in_window(s, LF, 0, cr as int, 0);
        assert(split_line(s) == Some((line, rest0)));
    }
    // Method, path, version.
    let sp1 = match find_u8(buf, SP, 0) {
        Some(i) => i,
        None => {
            proof {
                lemma_find_none_in_window(s, SP, 0, cr as int, 0);
            }
            return Err(HttpParserError::Unknown);
        },
    };
    if sp1 >= cr {
        proof {
            lemma_find_none_in_window(s, SP, 0, cr as int, 0);
        }
        return Err(HttpParserError::Unknown);
    }
    proof {
        lemma_find_some_in_window(s, SP, 0, cr as int, 0, sp1 as int);
        assert(find_byte(line, SP, 0) == Some(sp1 as int));
    }
    let sp2 = match find_u8(buf, SP, sp1 + 1) {
        Some(i) => i,
        None => {
            proof {
                lemma_find_none_in_window(s, SP, 0, cr as int, sp1 as int + 1);
            }
            return Err(HttpParserError::Unknown);
        },
    };
    if sp2 >= cr {
        proof {
            lemma_find_none_in_window(s, SP, 0, cr as int, sp1 as int + 1);
        }
        return Err(HttpParserError::Unknown);
    }
    proof {
        lemma_find_some_in_window(s, SP, 0, cr as int, sp1 as int + 1, sp2 as int);
    }
    match find_u8(buf, SP, sp2 + 1) {
        Some(sp3) => {
            if sp3 < cr {
                proof {
                    lemma_find_some_in_window(s, SP, 0, cr as int, sp2 as int + 1, sp3 as int);
                }
                return Err(HttpParserError::Unknown);
            }
            proof {
                lemma_find_none_in_window(s, SP, 0, cr as int, sp2 as int + 1);
            }
        },
        None => {
            proof {
                lemma_find_none_in_window(s, SP, 0, cr as int, sp2 as int + 1);
            }
        },
    }
    let ghost mspec = line.subrange(0, sp1 as int);
    let ghost pspec = line.subrange(sp1 as int + 1, sp2 as int);
    let ghost vspec = line.subrange(sp2 as int + 1, cr as int);
    proof {
        assert(request_line_parts(line) == Some((mspec, pspec, vspec)));
        assert(mspec =~= s.subrange(0, sp1 as int));
        assert(pspec =~= s.subrange(sp1 as int + 1, sp2 as int));
        assert(vspec =~= s.subrange(sp2 as int + 1, cr as int));
    }
    if sp1 == 0 {
        return Err(HttpParserError::MissingMethod);
    }
    if sp2 == sp1 + 1 {
        return Err(HttpParserError::MissingPath);
    }
    // Version: exactly `HTTP/1.0` or `HTTP/1.1`.
    if cr - (sp2 + 1) != 8 {
        return Err(HttpParserError::InvalidVersion);
    }
    let vp = http1_prefix_bytes();
    let mut vj: usize = 0;
    let mut vbad = false;
    while vj < 7
        invariant
            0 <= vj <= 7,
            !vbad ==> forall|k: int| 0 <= k < vj ==> vspec[k] == http1_prefix()[k],
            vbad ==> !valid_version(vspec),
        decreases 7 - vj,
    {
        if buf[sp2 + 1 + vj] != vp[vj] {
            proof {
                assert(vspec[vj as int] == s[sp2 + 1 + vj]);
                assert(vspec.subrange(0, 7)[vj as int] == vspec[vj as int]);
                assert(vspec.subrange(0, 7) != http1_prefix());
            }
            vbad = true;
        }
        vj = vj + 1;
    }
    let vd = buf[sp2 + 8];
    if vbad || (vd != 48 && vd != 49) {
        proof {
            if !vbad {
                assert(vspec[7] == vd);
            }
        }
        return Err(HttpParserError::InvalidVersion);
    }
    proof {
        assert(vspec.subrange(0, 7) =~= http1_prefix());
        assert(vspec[7] == vd);
        assert(valid_version(vspec));
    }
    let method = copy_range(buf, 0, sp1);
    let path = copy_range(buf, sp1 + 1, sp2);
    let mut version: Vec<u8> = Vec::new();
    version.push(49);
    version.push(46);
    version.push(vd);
    proof {
        assert(version@ =~= version_text(vspec));
    }
    // Header block.
    let mut pos: usize = cr + 2;
    let mut fields: Vec<HeaderField> = Vec::new();
    let ghost mut all: Seq<HeaderPair> = Seq::empty();
    let mut host_val: Option<Vec<u8>> = None;
    let mut pa_val: Option<Vec<u8>> = None;
    let body_start: usize;
    proof {
        assert(s.subrange(pos as int, n as int) =~= rest0);
        assert(strip_proxy_auth(all) =~= fields_model(fields@)) by {
            reveal(Seq::filter);
        }
    }
    loop
        invariant
            cr + 2 <= pos <= n,
            match parse_header_block(s.subrange(pos as int, n as int)) {
                Some(p) => parse_header_block(rest0) == Some((all + p.0, p.1)),
                None => parse_header_block(rest0) is None,
            },
            fields_model(fields@) == strip_proxy_auth(all),
            match host_val {
                Some(v) => last_header(all, host_name()) == Some(v@),
                None => last_header(all, host_name()) is None,
            },
            match pa_val {
                Some(v) => last_header(all, proxy_auth_name()) == Some(v@),
                None => last_header(all, proxy_auth_name()) is None,
            },
        decreases n - pos,
    {
        let ghost sub = s.subrange(pos as int, n as int);
        if pos + 1 < n && buf[pos] == CR && buf[pos + 1] == LF {
            proof {
                assert(sub.len() >= 2 && sub[0] == CR && sub[1] == LF);
                assert(sub.subrange(2, sub.len() as int) =~= s.subrange(pos + 2, n as int));
            }
            body_start = pos + 2;
            break ;
        }
        proof {
            assert(!(sub.len() >= 2 && sub[0] == CR && sub[1] == LF));
        }
        // One header line.
        let hcr = match find_u8(buf, CR, pos) {
            Some(i) => i,
            None => {
                proof {
                    lemma_find_none_in_window(s, CR, pos as int, n as int, pos as int);
                    assert(sub =~= s.subrange(pos as int, n as int));
                }
                return Err(HttpParserError::Unknown);
            },
        };
        proof {
            lemma_find_some_in_window(s, CR, pos as int, n as int, pos as int, hcr as int);
        }
        if hcr + 1 >= n || buf[hcr + 1] != LF {
            return Err(HttpParserError::Unknown);
        }
        let ghost hline = s.subrange(pos as int, hcr as int);
        let ghost hrest = s.subrange(hcr as int + 2, n as int);
        let lf2 = match find_u8(buf, LF, pos) {
            Some(i) => i,
            None => {
                proof {
                    lemma_find_byte_props(s, LF, pos as int);
                }
                assert(false);
                return Err(HttpParserError::Unknown);
            },
        };
        proof {
            assert(sub.subrange(0, hcr as int - pos as int) =~= hline);
        }
        if lf2 < hcr {
            proof {
                lemma_find_some_in_window(s, LF, pos as int, hcr as int, pos as int, lf2 as int);
            }
            return Err(HttpParserError::Unknown);
        }
        proof {
            lemma_find_none_in_window(s, LF, pos as int, hcr as int, pos as int);
            assert(split_line(sub) == Some(
                (sub.subrange(0, hcr as int - pos as int), sub.subrange(
                    hcr as int - pos as int + 2,
                    sub.len() as int,
                )),
            ));
            assert(sub.subrange(hcr as int - pos as int + 2, sub.len() as int) =~= hrest);
        }
        // Colon and name.
        let col = match find_u8(buf, COLON, pos) {
            Some(i) => i,
            None => {
                proof {
                    lemma_find_none_in_window(s, COLON, pos as int, hcr as int, pos as int);
                }
                return Err(HttpParserError::Unknown);
            },
        };
        if col >= hcr {
            proof {
                lemma_find_none_in_window(s, COLON, pos as int, hcr as int, pos as int);
            }
            return Err(HttpParserError::Unknown);
        }
        proof {
            lemma_find_some_in_window(s, COLON, pos as int, hcr as int, pos as int, col as int);
            assert(find_byte(hline, COLON, 0) == Some(col as int - pos as int));
        }
        let ghost namespec = hline.subrange(0, col as int - pos as int);
        if col == pos {
            assert(!valid_name(namespec));
            return Err(HttpParserError::Unknown);
        }
        let mut nj = pos;
        while nj < col
            invariant
                pos <= nj <= col,
                forall|k: int| pos <= k < nj ==> is_name_byte(#[trigger] s[k]),
            decreases col - nj,
        {
            let b = buf[nj];
            if b < 33 || b > 126 || b == COLON {
                assert(namespec[nj - pos] == s[nj as int]);
                assert(!valid_name(namespec));
                return Err(HttpParserError::Unknown);
            }
            nj = nj + 1;
        }
        proof {
            assert forall|k: int| 0 <= k < namespec.len() implies is_name_byte(
                #[trigger] namespec[k],
            ) by {
                assert(namespec[k] == s[pos + k]);
            }
            assert(valid_name(namespec));
        }
        // Value, with leading whitespace dropped.
        let mut vstart = col + 1;
        while vstart < hcr && (buf[vstart] == SP || buf[vstart] == HT)
            invariant
                col + 1 <= vstart <= hcr,
                forall|k: int| col + 1 <= k < vstart ==> s[k] == SP || s[k] == HT,
            decreases hcr - vstart,
        {
            vstart = vstart + 1;
        }
        let ghost rawval = hline.subrange(col as int - pos as int + 1, hline.len() as int);
        let ghost valspec = s.subrange(vstart as int, hcr as int);
        proof {
            assert forall|k: int| 0 <= k < vstart - col - 1 implies rawval[k] == SP || rawval[k]
                == HT by {
                assert(rawval[k] == s[col + 1 + k]);
            }
            if vstart < hcr {
                assert(rawval[vstart - col - 1] == s[vstart as int]);
            }
            lemma_skip_ows_at(rawval, vstart as int - col as int - 1);
            assert(rawval.subrange(vstart as int - col as int - 1, rawval.len() as int)
                =~= valspec);
            assert(header_of_line(hline) == Some(HeaderPair { name: namespec, value: valspec }));
        }
        let name = copy_range(buf, pos, col);
        let value = copy_range(buf, vstart, hcr);
        let ghost h = HeaderPair { name: namespec, value: valspec };
        let ghost allp = all.push(h);
        // Track the `Host` and `Proxy-Authorization` headers; the latter is
        // consumed, every other header is forwarded.
        proof {
            assert(name@ =~= namespec);
            assert(value@ =~= valspec);
            assert(allp.drop_last() =~= all);
            assert(allp.last() == h);
        }
        if name_eq_lower(&name, proxy_auth_lc_bytes()) {
            pa_val = Some(value);
            proof {
                reveal(Seq::filter);
                assert(!keeps_header(h));
                assert(strip_proxy_auth(allp) == strip_proxy_auth(allp.drop_last()));
                assert(strip_proxy_auth(allp) == strip_proxy_auth(all));
            }
        } else {
            if name_eq_lower(&name, host_lc_bytes()) {
                host_val = Some(value.clone());
            }
            let ghost fields0 = fields@;
            fields.push(HeaderField { name, value });
            proof {
                reveal(Seq::filter);
                assert(keeps_header(h));
                assert(strip_proxy_auth(allp) == strip_proxy_auth(allp.drop_last()).push(
                    allp.last(),
                ));
                assert(strip_proxy_auth(allp) == strip_proxy_auth(all).push(h));
                assert(fields@ == fields0.push(HeaderField { name, value }));
                assert(fields@[fields@.len() - 1].model() == h);
                assert forall|k: int| 0 <= k < fields0.len() implies fields_model(fields@)[k]
                    == fields_model(fields0)[k] by {
                    assert(fields@[k] == fields0[k]);
                }
                assert(fields_model(fields@) =~= strip_proxy_auth(all).push(h));
            }
        }
        proof {
            all = allp;
        }
        pos = hcr + 2;
        proof {
            assert(s.subrange(pos as int, n as int) =~= hrest);
        }
    }
    // End of headers reached.
    let ghost hs = all;
    let ghost bodyspec = s.subrange(body_start as int, n as int);
    proof {
        assert(parse_header_block(rest0) == Some((all + Seq::<HeaderPair>::empty(), bodyspec)));
        assert(all + Seq::<HeaderPair>::empty() =~= all);
    }
    let body = copy_range(buf, body_start, n);
    // Host extraction.
    let host_pair: (Vec<u8>, u16);
    if bytes_eq(&method, connect_bytes()) {
        match find_u8(&path, COLON, 0) {
            None => {
                let hv = copy_range(&path, 0, path.len());
                proof {
                    assert(hv@ =~= pspec);
                }
                host_pair = (hv, 443);
            },
            Some(ci) => {
                let hv = copy_range(&path, 0, ci);
                let pt = match parse_port_range(&path, ci + 1, path.len()) {
                    Some(v) => v,
                    None => 443,
                };
                proof {
                    assert(path@.subrange(ci + 1, path@.len() as int) =~= pspec.subrange(
                        ci + 1,
                        pspec.len() as int,
                    ));
                    assert(hv@ =~= pspec.subrange(0, ci as int));
                }
                host_pair = (hv, pt);
            },
        }
    } else if starts_with_bytes(&path, http_scheme_bytes()) {
        let d = find_delim_exec(&path, 7);
        let a = copy_range(&path, 7, d);
        match host_port_exec(&a, 80) {
            Some(hp) => {
                host_pair = hp;
            },
            None => {
                return Err(HttpParserError::MissingHost);
            },
        }
    } else if starts_with_bytes(&path, https_scheme_bytes()) {
        let d = find_delim_exec(&path, 8);
        let a = copy_range(&path, 8, d);
        match host_port_exec(&a, 443) {
            Some(hp) => {
                host_pair = hp;
            },
            None => {
                return Err(HttpParserError::MissingHost);
            },
        }
    } else {
        match host_val {
            Some(v) => {
                let d = find_delim_exec(&v, 0);
                let a = copy_range(&v, 0, d);
                match host_port_exec(&a, 80) {
                    Some(hp) => {
                        host_pair = hp;
                    },
                    None => {
                        return Err(HttpParserError::MissingHost);
                    },
                }
            },
            None => {
                return Err(HttpParserError::MissingHost);
            },
        }
    }
    // Authentication, from the consumed header.
    let authentication: Option<(String, String)> = match pa_val {
        Some(v) => match utf8_to_string(v) {
            Some(t) => parse_credentials(t.as_str()),
            None => None,
        },
        None => None,
    };
    Ok(
        HttpRequestData {
            method,
            path,
            version,
            host: host_pair,
            headers: fields,
            body,
            authentication,
        },
    )
}

pub open spec fn crlf() -> Seq<u8> {
    seq![13u8, 10u8]
}

/// `HTTP/`
pub open spec fn http_slash() -> Seq<u8> {
    seq![72u8, 84u8, 84u8, 80u8, 47u8]
}

/// One serialized header line: `name: value` and the line break.
pub open spec fn line_of(h: HeaderPair) -> Seq<u8> {
    h.name + seq![COLON, SP] + h.value + crlf()
}

/// The serialized header block, in order.
pub open spec fn ser_headers(hs: Seq<HeaderPair>) -> Seq<u8>
    decreases hs.len(),
{
    if hs.len() == 0 {
        Seq::empty()
    } else {
        ser_headers(hs.drop_last()) + line_of(hs.last())
    }
}

/// The origin form of an absolute URI: its path and query, with `/` when the
/// path is empty and the fragment dropped. A path that is not an absolute
/// URI has no origin form.
pub open spec fn origin_form(p: Seq<u8>) -> Option<Seq<u8>> {
    if seq_starts_with(p, http_scheme()) {
        Some(origin_of(p, 7))
    } else if seq_starts_with(p, https_scheme()) {
        Some(origin_of(p, 8))
    } else {
        None
    }
}

pub open spec fn origin_of(p: Seq<u8>, scheme_len: int) -> Seq<u8> {
    let a_end = find_delim(p, scheme_len);
    let f = match find_byte(p, 35, a_end) {
        Some(x) => x,
        None => p.len() as int,
    };
    let pq = p.subrange(a_end, f);
    if pq.len() == 0 {
        seq![47u8]
    } else if pq[0] == 63 {
        seq![47u8] + pq
    } else {
        pq
    }
}

/// The path as forwarded upstream: origin form for an absolute URI, else
/// unchanged.
pub open spec fn rewritten_path(p: Seq<u8>) -> Seq<u8> {
    match origin_form(p) {
        Some(q) => q,
        None => p,
    }
}

/// The upstream wire form: start line with the rewritten path, the kept
/// headers, then the body tail — or a bare line break when the tail is
/// empty, closing the head.
pub open spec fn spec_into_request(
    method: Seq<u8>,
    path: Seq<u8>,
    version: Seq<u8>,
    headers: Seq<HeaderPair>,
    body: Seq<u8>,
) -> Seq<u8> {
    method + seq![SP] + rewritten_path(path) + seq![SP] + http_slash() + version + crlf()
        + ser_headers(headers) + (if body.len() == 0 {
        crlf()
    } else {
        body
    })
}

/// Append all of `src`.
fn push_all(out: &mut Vec<u8>, src: &[u8])
    ensures
        final(out)@ == old(out)@ + src@,
{
    let m = src.len();
    let mut j: usize = 0;
    while j < m
        invariant
            0 <= j <= m,
            m == src@.len(),
            out@ == old(out)@ + src@.subrange(0, j as int),
        decreases m - j,
    {
        let b = src[j];
        out.push(b);
        proof {
            assert(out@ =~= old(out)@ + src@.subrange(0, j + 1));
        }
        j = j + 1;
    }
    proof {
        assert(src@.subrange(0, m as int) =~= src@);
    }
}

impl HttpRequestData {
    /// The upstream path: the origin form of an absolute URI, else the path
    /// unchanged.
    fn upstream_path(&self) -> (r: Vec<u8>)
        ensures
            r@ == rewritten_path(self.path@),
    {
        let scheme_len: usize;
        if starts_with_bytes(&self.path, http_scheme_bytes()) {
            scheme_len = 7;
        } else if starts_with_bytes(&self.path, https_scheme_bytes()) {
            scheme_len = 8;
        } else {
            let r = copy_range(&self.path, 0, self.path.len());
            proof {
                assert(r@ =~= self.path@);
            }
            return r;
        }
        let a_end = find_delim_exec(&self.path, scheme_len);
        let f = match find_u8(&self.path, 35, a_end) {
            Some(x) => x,
            None => self.path.len(),
        };
        let mut out: Vec<u8> = Vec::new();
        if a_end == f {
            out.push(47);
            proof {
                assert(self.path@.subrange(a_end as int, f as int) =~= Seq::<u8>::empty());
                assert(out@ =~= origin_of(self.path@, scheme_len as int));
            }
            return out;
        }
        if self.path[a_end] == 63 {
            out.push(47);
        }
        let ghost pre = out@;
        let mut j = a_end;
        while j < f
            invariant
                a_end <= j <= f <= self.path@.len(),
                out@ == pre + self.path@.subrange(a_end as int, j as int),
            decreases f - j,
        {
            let b = self.path[j];
            out.push(b);
            proof {
                assert(out@ =~= pre + self.path@.subrange(a_end as int, j + 1));
            }
            j = j + 1;
        }
        proof {
            let pq = self.path@.subrange(a_end as int, f as int);
            if self.path@[a_end as int] == 63 {
                assert(out@ =~= seq![47u8] + pq);
            } else {
                assert(out@ =~= pq);
            }
        }
        out
    }

    /// The wire form to forward upstream: rewritten start line, kept
    /// headers, and the body tail (a bare line break when the tail is
    /// empty).
    pub fn into_request(&self) -> (r: Vec<u8>)
        ensures
            r@ == spec_into_request(
                self.method@,
                self.path@,
                self.version@,
                fields_model(self.headers@),
                self.body@,
            ),
    {
        let mut out: Vec<u8> = Vec::new();
        push_all(&mut out, self.method.as_slice());
        out.push(SP);
        let up = self.upstream_path();
        push_all(&mut out, up.as_slice());
        out.push(SP);
        push_all(&mut out, http_slash_bytes());
        push_all(&mut out, self.version.as_slice());
        out.push(CR);
        out.push(LF);
        let ghost start_part = self.method@ + seq![SP] + rewritten_path(self.path@) + seq![SP]
            + http_slash() + self.version@ + crlf();
        proof {
            assert(out@ =~= start_part);
            assert(fields_model(self.headers@.subrange(0, 0)) =~= Seq::<HeaderPair>::empty());
        }
        let nh = self.headers.len();
        let mut i: usize = 0;
        while i < nh
            invariant
                0 <= i <= nh,
                nh == self.headers@.len(),
                out@ == start_part + ser_headers(fields_model(self.headers@.subrange(0, i as int))),
            decreases nh - i,
        {
            push_all(&mut out, self.headers[i].name.as_slice());
            out.push(COLON);
            out.push(SP);
            push_all(&mut out, self.headers[i].value.as_slice());
            out.push(CR);
            out.push(LF);
            proof {
                let hm = fields_model(self.headers@.subrange(0, i + 1));
                assert(hm.drop_last() =~= fields_model(self.headers@.subrange(0, i as int)));
                assert(hm.last() == self.headers@[i as int].model());
                assert(out@ =~= start_part + (ser_headers(hm.drop_last()) + line_of(hm.last())));
            }
            i = i + 1;
        }
        proof {
            assert(self.headers@.subrange(0, nh as int) =~= self.headers@);
        }
        if self.body.len() == 0 {
            out.push(CR);
            out.push(LF);
            proof {
                assert(out@ =~= spec_into_request(
                    self.method@,
                    self.path@,
                    self.version@,
                    fields_model(self.headers@),
                    self.body@,
                ));
            }
        } else {
            push_all(&mut out, self.body.as_slice());
            proof {
                assert(out@ =~= spec_into_request(
                    self.method@,
                    self.path@,
                    self.version@,
                    fields_model(self.headers@),
                    self.body@,
                ));
            }
        }
        out
    }
}

fn http_slash_bytes() -> (r: &'static [u8])
    ensures
        r@ == http_slash(),
{
    broadcast use vstd::string::is_ascii_spec_bytes;

    let s = "HTTP/";
    proof {
        reveal_strlit("HTTP/");
        assert(s.is_ascii());
        assert(s.spec_bytes() =~= http_slash());
    }
    s.as_bytes()
}

fn http1_prefix_bytes() -> (r: &'static [u8])
    ensures
        r@ == http1_prefix(),
{
    broadcast use vstd::string::is_ascii_spec_bytes;

    let s = "HTTP/1.";
    proof {
        reveal_strlit("HTTP/1.");
        assert(s.is_ascii());
        assert(s.spec_bytes() =~= http1_prefix());
    }
    s.as_bytes()
}


pub open spec fn no_byte(s: Seq<u8>, b: u8) -> bool {
    forall|i: int| 0 <= i < s.len() ==> s[i] != b
}

/// A start-line token: non-empty, with no space and no line break.
pub open spec fn wf_token(s: Seq<u8>) -> bool {
    s.len() >= 1 && no_byte(s, SP) && no_byte(s, CR) && no_byte(s, LF)
}

/// A header as the parser produces it: a valid name, a value free of line
/// breaks that does not start with skippable whitespace.
pub open spec fn wf_header(h: HeaderPair) -> bool {
    &&& valid_name(h.name)
    &&& no_byte(h.value, CR)
    &&& no_byte(h.value, LF)
    &&& (h.value.len() > 0 ==> h.value[0] != SP && h.value[0] != HT)
}

pub open spec fn wf_headers(hs: Seq<HeaderPair>) -> bool {
    forall|i: int| 0 <= i < hs.len() ==> wf_header(#[trigger] hs[i])
}

proof fn lemma_find_byte_is(s: Seq<u8>, b: u8, from: int, w: int)
    requires
        0 <= from <= w < s.len(),
        s[w] == b,
        forall|j: int| from <= j < w ==> s[j] != b,
    ensures
        find_byte(s, b, from) == Some(w),
{
    lemma_find_byte_props(s, b, from);
    match find_byte(s, b, from) {
        Some(x) => {
            if x < w {
                assert(s[x] != b);
                assert(false);
            }
            if x > w {
                assert(s[w] != b);
                assert(false);
            }
        },
        None => {
            assert(s[w] != b);
            assert(false);
        },
    }
}

proof fn lemma_find_byte_none(s: Seq<u8>, b: u8, from: int)
    requires
        from >= 0,
        forall|j: int| from <= j < s.len() ==> s[j] != b,
    ensures
        find_byte(s, b, from) is None,
{
    lemma_find_byte_props(s, b, from);
    match find_byte(s, b, from) {
        Some(x) => {
            assert(s[x] != b);
            assert(false);
        },
        None => {},
    }
}

/// Skipping whitespace off a line keeps it free of line breaks and never
/// leaves leading whitespace.
proof fn lemma_skip_ows_wf(v: Seq<u8>)
    ensures
        no_byte(v, CR) ==> no_byte(skip_ows(v), CR),
        no_byte(v, LF) ==> no_byte(skip_ows(v), LF),
        skip_ows(v).len() > 0 ==> skip_ows(v)[0] != SP && skip_ows(v)[0] != HT,
    decreases v.len(),
{
    if v.len() > 0 && (v[0] == SP || v[0] == HT) {
        lemma_skip_ows_wf(v.drop_first());
        assert forall|i: int| 0 <= i < v.drop_first().len() implies v.drop_first()[i] == v[i
            + 1] by {}
    }
}

/// Every header a parsed block yields is well-formed.
proof fn lemma_header_block_wf(s: Seq<u8>)
    ensures
        match parse_header_block(s) {
            Some(p) => wf_headers(p.0),
            None => true,
        },
    decreases s.len(),
{
    if s.len() >= 2 && s[0] == CR && s[1] == LF {
    } else {
        match split_line(s) {
            None => {},
            Some((line, rest)) => {
                if rest.len() < s.len() {
                    match header_of_line(line) {
                        None => {},
                        Some(h) => {
                            lemma_header_block_wf(rest);
                            match parse_header_block(rest) {
                                None => {},
                                Some((hs, _body)) => {
                                    // The line holds no CR (it ends at the
                                    // first) and no LF (checked), so both
                                    // name and value are clean.
                                    lemma_find_byte_props(s, CR, 0);
                                    let cr = find_byte(s, CR, 0)->Some_0;
                                    assert(line == s.subrange(0, cr));
                                    assert(no_byte(line, CR));
                                    lemma_find_byte_props(line, LF, 0);
                                    assert(no_byte(line, LF));
                                    lemma_find_byte_props(line, COLON, 0);
                                    let c = find_byte(line, COLON, 0)->Some_0;
                                    let rawv = line.subrange(c + 1, line.len() as int);
                                    assert(no_byte(rawv, CR)) by {
                                        assert forall|i: int| 0 <= i < rawv.len() implies rawv[i]
                                            != CR by {
                                            assert(rawv[i] == line[c + 1 + i]);
                                        }
                                    }
                                    assert(no_byte(rawv, LF)) by {
                                        assert forall|i: int| 0 <= i < rawv.len() implies rawv[i]
                                            != LF by {
                                            assert(rawv[i] == line[c + 1 + i]);
                                        }
                                    }
                                    lemma_skip_ows_wf(rawv);
                                    assert(wf_header(h));
                                    assert forall|i: int| 0 <= i < (seq![h] + hs).len() implies
                                        wf_header(#[trigger] (seq![h] + hs)[i]) by {
                                        if i > 0 {
                                            assert((seq![h] + hs)[i] == hs[i - 1]);
                                        }
                                    }
                                },
                            }
                        },
                    }
                }
            },
        }
    }
}

/// What a successful parse guarantees of its pieces: clean tokens, a
/// concrete version text, well-formed headers.
proof fn lemma_parse_request_wf(s: Seq<u8>, m: ReqModel)
    requires
        spec_parse_request(s) == Ok::<ReqModel, HttpParserError>(m),
    ensures
        wf_token(m.method),
        wf_token(m.path),
        m.version.len() == 3 && m.version[0] == 49 && m.version[1] == 46 && (m.version[2] == 48
            || m.version[2] == 49),
        wf_headers(m.headers),
{
    lemma_find_byte_props(s, CR, 0);
    let cr = find_byte(s, CR, 0)->Some_0;
    let line = s.subrange(0, cr);
    assert(no_byte(line, CR));
    lemma_find_byte_props(line, LF, 0);
    assert(no_byte(line, LF));
    lemma_find_byte_props(line, SP, 0);
    let i = find_byte(line, SP, 0)->Some_0;
    lemma_find_byte_props(line, SP, i + 1);
    let j = find_byte(line, SP, i + 1)->Some_0;
    assert(no_byte(m.method, SP)) by {
        assert forall|k: int| 0 <= k < m.method.len() implies m.method[k] != SP by {
            assert(m.method[k] == line[k]);
        }
    }
    assert(no_byte(m.method, CR)) by {
        assert forall|k: int| 0 <= k < m.method.len() implies m.method[k] != CR by {
            assert(m.method[k] == line[k]);
        }
    }
    assert(no_byte(m.method, LF)) by {
        assert forall|k: int| 0 <= k < m.method.len() implies m.method[k] != LF by {
            assert(m.method[k] == line[k]);
        }
    }
    assert(no_byte(m.path, SP)) by {
        assert forall|k: int| 0 <= k < m.path.len() implies m.path[k] != SP by {
            assert(m.path[k] == line[i + 1 + k]);
        }
    }
    assert(no_byte(m.path, CR)) by {
        assert forall|k: int| 0 <= k < m.path.len() implies m.path[k] != CR by {
            assert(m.path[k] == line[i + 1 + k]);
        }
    }
    assert(no_byte(m.path, LF)) by {
        assert forall|k: int| 0 <= k < m.path.len() implies m.path[k] != LF by {
            assert(m.path[k] == line[i + 1 + k]);
        }
    }
    let rest = s.subrange(cr + 2, s.len() as int);
    lemma_header_block_wf(rest);
}

/// A clean line followed by a break splits back off.
proof fn lemma_split_line_concat(a: Seq<u8>, b: Seq<u8>)
    requires
        no_byte(a, CR),
        no_byte(a, LF),
    ensures
        split_line(a + crlf() + b) == Some((a, b)),
{
    let s = a + crlf() + b;
    assert(s[a.len() as int] == CR);
    assert forall|k: int| 0 <= k < a.len() implies s[k] != CR by {
        assert(s[k] == a[k]);
    }
    lemma_find_byte_is(s, CR, 0, a.len() as int);
    assert(s[a.len() as int + 1] == LF);
    assert(s.subrange(0, a.len() as int) =~= a);
    lemma_find_byte_none(a, LF, 0);
    assert(s.subrange(a.len() as int + 2, s.len() as int) =~= b);
}

/// The serialized header block decomposes from the front.
proof fn lemma_ser_headers_front(hs: Seq<HeaderPair>)
    requires
        hs.len() > 0,
    ensures
        ser_headers(hs) == line_of(hs[0]) + ser_headers(hs.drop_first()),
    decreases hs.len(),
{
    if hs.len() == 1 {
        assert(hs.drop_last() =~= Seq::<HeaderPair>::empty());
        assert(hs.drop_first() =~= Seq::<HeaderPair>::empty());
        assert(ser_headers(hs) == ser_headers(hs.drop_last()) + line_of(hs.last()));
        assert(Seq::<u8>::empty() + line_of(hs[0]) =~= line_of(hs[0]));
        assert(line_of(hs[0]) + Seq::<u8>::empty() =~= line_of(hs[0]));
    } else {
        let front = hs.drop_last();
        lemma_ser_headers_front(front);
        assert(front[0] == hs[0]);
        assert(front.drop_first() =~= hs.drop_first().drop_last());
        assert(ser_headers(hs) == ser_headers(front) + line_of(hs.last()));
        assert(ser_headers(hs.drop_first()) == ser_headers(hs.drop_first().drop_last())
            + line_of(hs.drop_first().last()));
        assert(hs.drop_first().last() == hs.last());
        assert((line_of(hs[0]) + ser_headers(hs.drop_first().drop_last())) + line_of(hs.last())
            =~= line_of(hs[0]) + (ser_headers(hs.drop_first().drop_last()) + line_of(
            hs.last(),
        )));
    }
}

/// One serialized header line parses back to the header.
proof fn lemma_header_line_round_trip(h: HeaderPair)
    requires
        wf_header(h),
    ensures
        header_of_line(h.name + seq![COLON, SP] + h.value) == Some(h),
        no_byte(h.name + seq![COLON, SP] + h.value, CR),
        no_byte(h.name + seq![COLON, SP] + h.value, LF),
{
    let line = h.name + seq![COLON, SP] + h.value;
    assert forall|k: int| 0 <= k < line.len() implies line[k] != CR && line[k] != LF by {
        if k < h.name.len() {
            assert(line[k] == h.name[k]);
            assert(is_name_byte(h.name[k]));
        } else if k >= h.name.len() + 2 {
            assert(line[k] == h.value[k - h.name.len() - 2]);
        }
    }
    assert(line[h.name.len() as int] == COLON);
    assert forall|k: int| 0 <= k < h.name.len() implies line[k] != COLON by {
        assert(line[k] == h.name[k]);
        assert(is_name_byte(h.name[k]));
    }
    lemma_find_byte_is(line, COLON, 0, h.name.len() as int);
    assert(line.subrange(0, h.name.len() as int) =~= h.name);
    let rawv = line.subrange(h.name.len() as int + 1, line.len() as int);
    assert(rawv =~= seq![SP] + h.value);
    assert(rawv[0] == SP);
    assert(rawv.drop_first() =~= h.value);
    assert(skip_ows(rawv) == skip_ows(h.value));
    assert(skip_ows(h.value) == h.value);
}

/// A serialized header block parses back to its headers, with the bytes
/// after the closing break as the body.
proof fn lemma_parse_ser_headers(hs: Seq<HeaderPair>, body: Seq<u8>)
    requires
        wf_headers(hs),
    ensures
        parse_header_block(ser_headers(hs) + crlf() + body) == Some((hs, body)),
    decreases hs.len(),
{
    let x = ser_headers(hs) + crlf() + body;
    if hs.len() == 0 {
        assert(ser_headers(hs) == Seq::<u8>::empty());
        assert(x =~= crlf() + body);
        assert(x[0] == CR && x[1] == LF);
        assert(x.subrange(2, x.len() as int) =~= body);
        assert(parse_header_block(x) == Some((Seq::<HeaderPair>::empty(), body)));
    } else {
        let h = hs[0];
        assert(wf_header(h));
        lemma_ser_headers_front(hs);
        let line = h.name + seq![COLON, SP] + h.value;
        assert(line_of(h) =~= line + crlf());
        let tail = ser_headers(hs.drop_first()) + crlf() + body;
        assert(x =~= line + crlf() + tail);
        lemma_header_line_round_trip(h);
        lemma_split_line_concat(line, tail);
        assert(x[0] == h.name[0]);
        assert(is_name_byte(h.name[0]));
        assert(!(x.len() >= 2 && x[0] == CR && x[1] == LF));
        assert(tail.len() < x.len());
        assert(wf_headers(hs.drop_first())) by {
            assert forall|i: int| 0 <= i < hs.drop_first().len() implies wf_header(
                #[trigger] hs.drop_first()[i],
            ) by {
                assert(hs.drop_first()[i] == hs[i + 1]);
            }
        }
        lemma_parse_ser_headers(hs.drop_first(), body);
        assert(parse_header_block(x) == Some((seq![h] + hs.drop_first(), body)));
        assert(seq![h] + hs.drop_first() =~= hs);
    }
}

/// Stripping a well-formed header list leaves a well-formed list.
proof fn lemma_strip_keeps_wf(hs: Seq<HeaderPair>)
    requires
        wf_headers(hs),
    ensures
        wf_headers(strip_proxy_auth(hs)),
    decreases hs.len(),
{
    reveal(Seq::filter);
    if hs.len() > 0 {
        assert(wf_headers(hs.drop_last())) by {
            assert forall|i: int| 0 <= i < hs.drop_last().len() implies wf_header(
                #[trigger] hs.drop_last()[i],
            ) by {
                assert(hs.drop_last()[i] == hs[i]);
            }
        }
        lemma_strip_keeps_wf(hs.drop_last());
        let st = strip_proxy_auth(hs);
        let stp = strip_proxy_auth(hs.drop_last());
        if keeps_header(hs.last()) {
            assert(st == stp.push(hs.last()));
            assert forall|i: int| 0 <= i < st.len() implies wf_header(#[trigger] st[i]) by {
                if i < st.len() - 1 {
                    assert(st[i] == stp[i]);
                } else {
                    assert(st[i] == hs.last());
                    assert(wf_header(hs[hs.len() - 1]));
                }
            }
        } else {
            assert(st == stp);
        }
    }
}

/// Stripping only removes `Proxy-Authorization`: the last `Host` header is
/// untouched, and no `Proxy-Authorization` survives.
proof fn lemma_strip_headers_lookup(hs: Seq<HeaderPair>)
    ensures
        last_header(strip_proxy_auth(hs), host_name()) == last_header(hs, host_name()),
        last_header(strip_proxy_auth(hs), proxy_auth_name()) is None,
    decreases hs.len(),
{
    reveal(Seq::filter);
    if hs.len() > 0 {
        lemma_strip_headers_lookup(hs.drop_last());
        let h = hs.last();
        if keeps_header(h) {
            assert(strip_proxy_auth(hs) == strip_proxy_auth(hs.drop_last()).push(h));
            let st = strip_proxy_auth(hs);
            assert(st.last() == h);
            assert(st.drop_last() =~= strip_proxy_auth(hs.drop_last()));
            assert(host_name() != proxy_auth_name()) by {
                assert(host_name().len() == 4);
                assert(proxy_auth_name().len() == 19);
            }
        } else {
            assert(strip_proxy_auth(hs) == strip_proxy_auth(hs.drop_last()));
            assert(lower_bytes(h.name) == proxy_auth_name());
            assert(lower_bytes(h.name) != host_name()) by {
                assert(proxy_auth_name().len() == 19);
                assert(host_name().len() == 4);
            }
        }
    }
}

/// Round trip: parsing a well-formed request and serializing the record
/// yields bytes that parse back to the same record, with the
/// `Proxy-Authorization` header gone. Stated for requests whose body tail
/// is empty (a non-empty tail is forwarded without the closing break, so
/// its first line would re-parse as a header) and whose path is not an
/// absolute URI (an absolute path is rewritten to origin form, after which
/// the target host is re-derived from the `Host` header instead); the
/// serialized form must also still fit the header buffer.
pub proof fn lemma_parse_into_request_round_trip(s: Seq<u8>, m: ReqModel)
    requires
        spec_parse_request(s) == Ok::<ReqModel, HttpParserError>(m),
        m.body.len() == 0,
        origin_form(m.path) is None,
        spec_into_request(m.method, m.path, m.version, strip_proxy_auth(m.headers), m.body).len()
            <= MAX_BUF,
    ensures
        ({
            let out = spec_into_request(
                m.method,
                m.path,
                m.version,
                strip_proxy_auth(m.headers),
                m.body,
            );
            &&& spec_parse_request(out) is Ok
            &&& ({
                let m2 = spec_parse_request(out)->Ok_0;
                &&& m2.method == m.method
                &&& m2.path == m.path
                &&& m2.version == m.version
                &&& m2.headers == strip_proxy_auth(m.headers)
                &&& m2.body == m.body
                &&& m2.host == m.host
                &&& m2.port == m.port
                &&& spec_auth_from(last_header(m2.headers, proxy_auth_name())) is None
            })
        }),
{
    broadcast use vstd::seq_lib::group_filter_ensures;

    lemma_parse_request_wf(s, m);
    let stripped = strip_proxy_auth(m.headers);
    lemma_strip_keeps_wf(m.headers);
    let vtok = http_slash() + m.version;
    let line2 = m.method + seq![SP] + m.path + seq![SP] + vtok;
    let hblock = ser_headers(stripped) + crlf() + m.body;
    let out = spec_into_request(m.method, m.path, m.version, stripped, m.body);
    assert(rewritten_path(m.path) == m.path);
    assert(out =~= line2 + crlf() + (ser_headers(stripped) + crlf()));
    assert(hblock =~= ser_headers(stripped) + crlf());
    assert(out =~= line2 + crlf() + hblock);
    // The start line is clean, so the line splits back off.
    assert(no_byte(vtok, CR) && no_byte(vtok, LF) && no_byte(vtok, SP)) by {
        assert forall|k: int| 0 <= k < vtok.len() implies vtok[k] != CR && vtok[k] != LF
            && vtok[k] != SP by {
            if k >= 5 {
                assert(vtok[k] == m.version[k - 5]);
            }
        }
    }
    assert(no_byte(line2, CR) && no_byte(line2, LF)) by {
        assert forall|k: int| 0 <= k < line2.len() implies line2[k] != CR && line2[k] != LF by {
            if k < m.method.len() {
                assert(line2[k] == m.method[k]);
            } else if k == m.method.len() {
                assert(line2[k] == SP);
            } else if k < m.method.len() + 1 + m.path.len() {
                assert(line2[k] == m.path[k - m.method.len() - 1]);
            } else if k == m.method.len() + 1 + m.path.len() {
                assert(line2[k] == SP);
            } else {
                assert(line2[k] == vtok[k - m.method.len() - 2 - m.path.len()]);
            }
        }
    }
    lemma_split_line_concat(line2, hblock);
    // The two spaces are the only ones.
    let i2 = m.method.len() as int;
    let j2 = m.method.len() as int + 1 + m.path.len() as int;
    assert(line2[i2] == SP);
    assert forall|k: int| 0 <= k < i2 implies line2[k] != SP by {
        assert(line2[k] == m.method[k]);
    }
    lemma_find_byte_is(line2, SP, 0, i2);
    assert(line2[j2] == SP);
    assert forall|k: int| i2 + 1 <= k < j2 implies line2[k] != SP by {
        assert(line2[k] == m.path[k - i2 - 1]);
    }
    lemma_find_byte_is(line2, SP, i2 + 1, j2);
    assert forall|k: int| j2 + 1 <= k < line2.len() implies line2[k] != SP by {
        assert(line2[k] == vtok[k - j2 - 1]);
    }
    lemma_find_byte_none(line2, SP, j2 + 1);
    assert(request_line_parts(line2) == Some(
        (line2.subrange(0, i2), line2.subrange(i2 + 1, j2), line2.subrange(
            j2 + 1,
            line2.len() as int,
        )),
    ));
    assert(line2.subrange(0, i2) =~= m.method);
    assert(line2.subrange(i2 + 1, j2) =~= m.path);
    assert(line2.subrange(j2 + 1, line2.len() as int) =~= vtok);
    // The version token is exactly `HTTP/1.x`.
    assert(valid_version(vtok)) by {
        assert(vtok.len() == 8);
        assert(vtok.subrange(0, 7) =~= http1_prefix()) by {
            assert(vtok[0] == 72);
            assert(vtok[1] == 84);
            assert(vtok[2] == 84);
            assert(vtok[3] == 80);
            assert(vtok[4] == 47);
            assert(vtok[5] == m.version[0]);
            assert(vtok[6] == m.version[1]);
            assert(vtok.subrange(0, 7)[5] == vtok[5]);
        }
        assert(vtok[7] == m.version[2]);
    }
    assert(version_text(vtok) =~= m.version);
    // The header block parses back.
    lemma_parse_ser_headers(stripped, m.body);
    // Host re-derivation agrees.
    lemma_strip_headers_lookup(m.headers);
    assert(out.len() <= MAX_BUF);
    let m2 = spec_parse_request(out)->Ok_0;
    assert(m2.headers == stripped);
    assert(host_of(m.method, m.path, stripped) == host_of(m.method, m.path, m.headers)) by {
        if m.method == connect_name() {
        } else {
            assert(!seq_starts_with(m.path, http_scheme()));
            assert(!seq_starts_with(m.path, https_scheme()));
        }
    }
    assert(spec_auth_from(last_header(m2.headers, proxy_auth_name())) is None);
}

} // verus!
