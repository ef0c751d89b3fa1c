//! The UDP association relay.
//!
//! Each association owns one UDP socket (held by the surrounding task), the
//! TCP client's address, and a bounded target-learning cache mapping a
//! server address to the client address that asked for it. Every received
//! datagram is classified by its source: a cached source is a server packet
//! and is wrapped in a relay header for the client; anything else must come
//! from the client itself, carries a relay header naming the target, and is
//! forwarded stripped. Both directions enforce client affinity, which
//! defeats off-path datagrams injected into the association's port.

use vstd::prelude::*;
use crate::net::SockAddr;
use crate::socks5_msg::{
    Address, Parsed, UdpHeader, addr_complete_at, addr_wf, parse_udp_header, spec_addr_bytes,
    spec_udp_header_bytes,
};

verus! {

/// First learned client for a target address, scanning oldest first.
pub open spec fn cache_lookup(s: Seq<(SockAddr, SockAddr)>, k: SockAddr) -> Option<SockAddr>
    decreases s.len(),
{
    if s.len() == 0 {
        None
    } else if s[0].0 == k {
        Some(s[0].1)
    } else {
        cache_lookup(s.drop_first(), k)
    }
}

/// Position of the first entry for a target, if any.
pub open spec fn first_key_index(s: Seq<(SockAddr, SockAddr)>, k: SockAddr) -> Option<int>
    decreases s.len(),
{
    if s.len() == 0 {
        None
    } else if s[0].0 == k {
        Some(0)
    } else {
        match first_key_index(s.drop_first(), k) {
            Some(i) => Some(i + 1),
            None => None,
        }
    }
}

/// What learning `k -> v` does to the cache: a known target is replaced in
/// place; a new one is appended, the oldest entry leaving at capacity. Every
/// other learned entry is untouched.
pub open spec fn spec_cache_insert(
    s: Seq<(SockAddr, SockAddr)>,
    cap: int,
    k: SockAddr,
    v: SockAddr,
) -> Seq<(SockAddr, SockAddr)> {
    match first_key_index(s, k) {
        Some(i) => s.update(i, (k, v)),
        None => if s.len() < cap {
            s.push((k, v))
        } else {
            s.drop_first().push((k, v))
        },
    }
}

proof fn lemma_first_key_index_at(s: Seq<(SockAddr, SockAddr)>, k: SockAddr, i: int)
    requires
        0 <= i < s.len(),
        s[i].0 == k,
        forall|j: int| 0 <= j < i ==> (#[trigger] s[j]).0 != k,
    ensures
        first_key_index(s, k) == Some(i),
    decreases i,
{
    if i > 0 {
        assert(s[0].0 != k);
        assert(s.drop_first()[i - 1] == s[i]);
        assert forall|j: int| 0 <= j < i - 1 implies (#[trigger] s.drop_first()[j]).0 != k by {
            assert(s.drop_first()[j] == s[j + 1]);
        }
        lemma_first_key_index_at(s.drop_first(), k, i - 1);
    }
}

proof fn lemma_first_key_index_none(s: Seq<(SockAddr, SockAddr)>, k: SockAddr)
    requires
        forall|j: int| 0 <= j < s.len() ==> (#[trigger] s[j]).0 != k,
    ensures
        first_key_index(s, k) is None,
    decreases s.len(),
{
    if s.len() > 0 {
        assert forall|j: int| 0 <= j < s.drop_first().len() implies (
        #[trigger] s.drop_first()[j]).0 != k by {
            assert(s.drop_first()[j] == s[j + 1]);
        }
        lemma_first_key_index_none(s.drop_first(), k);
    }
}

/// Bounded map from target server address to the client that asked for it;
/// at capacity, the oldest entry leaves.
pub struct TargetCache {
    entries: Vec<(SockAddr, SockAddr)>,
    cap: usize,
}

impl TargetCache {
    pub closed spec fn view_spec(self) -> Seq<(SockAddr, SockAddr)> {
        self.entries@
    }

    pub closed spec fn cap_spec(self) -> int {
        self.cap as int
    }

    pub closed spec fn wf(self) -> bool {
        self.cap >= 1 && self.entries@.len() <= self.cap
    }

    pub fn new(cap: usize) -> (r: TargetCache)
        requires
            cap >= 1,
        ensures
            r.wf(),
            r.view_spec() == Seq::<(SockAddr, SockAddr)>::empty(),
            r.cap_spec() == cap as int,
    {
        TargetCache { entries: Vec::new(), cap }
    }

    /// The client learned for this target, if any.
    pub fn get(&self, k: SockAddr) -> (r: Option<SockAddr>)
        ensures
            r == cache_lookup(self.view_spec(), k),
    {
        let n = self.entries.len();
        proof {
            assert(self.entries@.skip(0) =~= self.entries@);
        }
        let mut i: usize = 0;
        while i < n
            invariant
                0 <= i <= n,
                n == self.entries@.len(),
                cache_lookup(self.entries@, k) == cache_lookup(
                    self.entries@.skip(i as int),
                    k,
                ),
            decreases n - i,
        {
            let e = self.entries[i];
            proof {
                assert(self.entries@.skip(i as int)[0] == self.entries@[i as int]);
                assert(self.entries@.skip(i as int).drop_first() =~= self.entries@.skip(i + 1));
            }
            if e.0 == k {
                return Some(e.1);
            }
            i = i + 1;
        }
        proof {
            assert(self.entries@.skip(n as int).len() == 0);
        }
        None
    }

    /// Learn `k -> v`: replace the entry for a known target in place, else
    /// append, the oldest entry leaving at capacity; nothing else moves.
    pub fn insert(&mut self, k: SockAddr, v: SockAddr)
        requires
            old(self).wf(),
        ensures
            final(self).wf(),
            final(self).cap_spec() == old(self).cap_spec(),
            final(self).view_spec() == spec_cache_insert(
                old(self).view_spec(),
                old(self).cap_spec(),
                k,
                v,
            ),
            cache_lookup(final(self).view_spec(), k) == Some(v),
    {
        let n = self.entries.len();
        let mut i: usize = 0;
        while i < n
            invariant
                0 <= i <= n,
                n == self.entries@.len(),
                forall|j: int| 0 <= j < i ==> (#[trigger] self.entries@[j]).0 != k,
                *self == *old(self),
                old(self).wf(),
            decreases n - i,
        {
            let e = self.entries[i];
            if e.0 == k {
                self.entries[i] = (k, v);
                proof {
                    lemma_first_key_index_at(old(self).entries@, k, i as int);
                    lemma_lookup_update(old(self).entries@, self.entries@, k, v, i as int);
                    assert(self.entries@.len() == old(self).entries@.len());
                    assert(self.cap == old(self).cap);
                    assert(self.wf());
                }
                return ;
            }
            i = i + 1;
        }
        proof {
            lemma_first_key_index_none(self.entries@, k);
        }
        if self.entries.len() >= self.cap {
            self.entries.remove(0);
            proof {
                assert forall|j: int| 0 <= j < self.entries@.len() implies (
                #[trigger] self.entries@[j]).0 != k by {
                    assert(self.entries@[j] == old(self).entries@[j + 1]);
                }
                assert(self.entries@ =~= old(self).entries@.drop_first());
            }
            self.entries.push((k, v));
            proof {
                assert(self.entries@ =~= old(self).entries@.drop_first().push((k, v)));
                lemma_lookup_pushed(self.entries@, k, v);
            }
        } else {
            self.entries.push((k, v));
            proof {
                assert(self.entries@ =~= old(self).entries@.push((k, v)));
                lemma_lookup_pushed(self.entries@, k, v);
            }
        }
    }
}

/// Updating the first entry for a key makes lookups of that key find the
/// new value.
proof fn lemma_lookup_update(
    pre: Seq<(SockAddr, SockAddr)>,
    post: Seq<(SockAddr, SockAddr)>,
    k: SockAddr,
    v: SockAddr,
    i: int,
)
    requires
        0 <= i < pre.len(),
        post == pre.update(i, (k, v)),
        forall|j: int| 0 <= j < i ==> (#[trigger] pre[j]).0 != k,
    ensures
        cache_lookup(post, k) == Some(v),
    decreases i,
{
    if i == 0 {
        assert(post[0] == (k, v));
    } else {
        assert(post[0] == pre[0]);
        assert(post.drop_first() =~= pre.drop_first().update(i - 1, (k, v)));
        assert forall|j: int| 0 <= j < i - 1 implies (#[trigger] pre.drop_first()[j]).0 != k by {
            assert(pre.drop_first()[j] == pre[j + 1]);
        }
        lemma_lookup_update(pre.drop_first(), post.drop_first(), k, v, i - 1);
    }
}

/// A key with no earlier entry resolves to the value just appended.
proof fn lemma_lookup_pushed(s: Seq<(SockAddr, SockAddr)>, k: SockAddr, v: SockAddr)
    requires
        s.len() >= 1,
        s.last() == (k, v),
        forall|j: int| 0 <= j < s.len() - 1 ==> (#[trigger] s[j]).0 != k,
    ensures
        cache_lookup(s, k) == Some(v),
    decreases s.len(),
{
    if s.len() == 1 {
        assert(s[0] == (k, v));
    } else {
        assert(s[0].0 != k);
        assert(s.drop_first().last() == (k, v));
        assert forall|j: int| 0 <= j < s.drop_first().len() - 1 implies (
        #[trigger] s.drop_first()[j]).0 != k by {
            assert(s.drop_first()[j] == s[j + 1]);
        }
        lemma_lookup_pushed(s.drop_first(), k, v);
    }
}

#[derive(Clone, Copy, PartialEq, Eq, Structural, Debug)]
pub enum AssociationSocketError {
    RecvBufferOverflow,
    SendBufferOverflow,
    DnsResolutionError,
    UdpHeaderParseError,
    SocketReadError,
    SocketWriteError,
    SocketTTLError,
    SrcAddrMismatchCTSError,
    SrcAddrMismatchSTCError,
}

/// What to do with one received datagram.
pub enum ClassifyOutcome {
    /// A server packet: wrap it in a relay header and send it to the
    /// association's client.
    ToClient { dest: SockAddr },
    /// A client packet for a literal target: send the bytes from
    /// `payload_from` on, with no header prepended.
    ToServer { dest: SockAddr, payload_from: usize },
    /// A fragmented client packet: fragmentation is unsupported, the
    /// datagram is dropped and the association lives on.
    Fragmented,
    /// A client packet naming its target by domain: resolve it, then hand
    /// the resolved address to `resolved_target`.
    NeedsDns { domain: Vec<u8>, port: u16, frag: u8, payload_from: usize },
}

/// Per-association relay state.
pub struct AssociationSocketHelper {
    /// Idle timeout of the association, milliseconds; the surrounding task
    /// tears the association down when it elapses without a datagram.
    socket_ttl: u64,
    /// Largest datagram accepted or sent.
    max_capacity: usize,
    /// The TCP control connection's peer: the only lawful datagram source
    /// on the client side, and the only lawful delivery target.
    client_addr: SockAddr,
    target_cache: TargetCache,
}

impl AssociationSocketHelper {
    pub closed spec fn cache_view(self) -> Seq<(SockAddr, SockAddr)> {
        self.target_cache.view_spec()
    }

    pub closed spec fn wf(self) -> bool {
        self.target_cache.wf()
    }

    pub closed spec fn cache_cap(self) -> int {
        self.target_cache.cap_spec()
    }

    pub closed spec fn spec_client(self) -> SockAddr {
        self.client_addr
    }

    pub closed spec fn spec_ttl(self) -> u64 {
        self.socket_ttl
    }

    pub closed spec fn spec_capacity(self) -> int {
        self.max_capacity as int
    }

    /// The association's idle timeout, for the surrounding task's timer.
    pub fn ttl_millis(&self) -> (r: u64)
        ensures
            r == self.spec_ttl(),
    {
        self.socket_ttl
    }

    /// The receive buffer size the surrounding task should use.
    pub fn capacity(&self) -> (r: usize)
        ensures
            r as int == self.spec_capacity(),
    {
        self.max_capacity
    }

    pub fn new(client_addr: SockAddr, socket_ttl: u64, max_capacity: usize, cache_size: usize) -> (r:
        AssociationSocketHelper)
        requires
            cache_size >= 1,
        ensures
            r.wf(),
            r.spec_client() == client_addr,
            r.spec_ttl() == socket_ttl,
            r.spec_capacity() == max_capacity as int,
            r.cache_view() == Seq::<(SockAddr, SockAddr)>::empty(),
    {
        AssociationSocketHelper {
            socket_ttl,
            max_capacity,
            client_addr,
            target_cache: TargetCache::new(cache_size),
        }
    }

    /// Classify one received datagram by its source address and decide the
    /// relay step, enforcing client affinity in both directions.
    pub fn classify(&mut self, src: SockAddr, pkt: &Vec<u8>) -> (r: Result<
        ClassifyOutcome,
        AssociationSocketError,
    >)
        requires
            old(self).wf(),
        ensures
            final(self).wf(),
            final(self).spec_client() == old(self).spec_client(),
            final(self).spec_ttl() == old(self).spec_ttl(),
            final(self).spec_capacity() == old(self).spec_capacity(),
            final(self).cache_cap() == old(self).cache_cap(),
            pkt@.len() > old(self).spec_capacity() ==> r == Err::<
                ClassifyOutcome,
                AssociationSocketError,
            >(AssociationSocketError::RecvBufferOverflow),
            ({
                let cached = cache_lookup(old(self).cache_view(), src);
                pkt@.len() <= old(self).spec_capacity() ==> match cached {
                    Some(client) => {
                        if client.ip != old(self).spec_client().ip {
                            r == Err::<ClassifyOutcome, AssociationSocketError>(
                                AssociationSocketError::SrcAddrMismatchSTCError,
                            ) && *final(self) == *old(self)
                        } else {
                            r == Ok::<ClassifyOutcome, AssociationSocketError>(
                                ClassifyOutcome::ToClient { dest: client },
                            ) && *final(self) == *old(self)
                        }
                    },
                    None => {
                        if src.ip != old(self).spec_client().ip {
                            r == Err::<ClassifyOutcome, AssociationSocketError>(
                                AssociationSocketError::SrcAddrMismatchCTSError,
                            ) && *final(self) == *old(self)
                        } else if !(pkt@.len() >= 3 && addr_complete_at(pkt@, 3)) {
                            // No complete relay header in front: this, and
                            // only this, is a header-parse failure.
                            r == Err::<ClassifyOutcome, AssociationSocketError>(
                                AssociationSocketError::UdpHeaderParseError,
                            ) && *final(self) == *old(self)
                        } else if pkt@[3] == 3 {
                            // A domain target: hand it to the resolver.
                            match r {
                                Ok(
                                    ClassifyOutcome::NeedsDns { domain, port, frag, payload_from },
                                ) => {
                                    &&& spec_addr_bytes(
                                        Address::Domain(domain, port),
                                    ) == pkt@.subrange(3, payload_from as int)
                                    &&& frag == pkt@[2]
                                    &&& 3 < payload_from <= pkt@.len()
                                    &&& *final(self) == *old(self)
                                },
                                _ => false,
                            }
                        } else if pkt@[2] == 0 {
                            // A literal target, unfragmented: learn it and
                            // forward the stripped payload.
                            match r {
                                Ok(ClassifyOutcome::ToServer { dest, payload_from }) => {
                                    &&& spec_addr_bytes(Address::Socket(dest)) == pkt@.subrange(
                                        3,
                                        payload_from as int,
                                    )
                                    &&& 3 < payload_from <= pkt@.len()
                                    &&& final(self).cache_view() == spec_cache_insert(
                                        old(self).cache_view(),
                                        old(self).cache_cap(),
                                        dest,
                                        src,
                                    )
                                },
                                _ => false,
                            }
                        } else {
                            // A fragmented literal target: the target is
                            // still learned, the datagram is dropped.
                            match r {
                                Ok(ClassifyOutcome::Fragmented) => exists|dest: SockAddr, c: int|
                                    #![auto]
                                    {
                                        &&& 3 < c <= pkt@.len()
                                        &&& spec_addr_bytes(
                                            Address::Socket(dest),
                                        ) == pkt@.subrange(3, c)
                                        &&& final(self).cache_view() == spec_cache_insert(
                                            old(self).cache_view(),
                                            old(self).cache_cap(),
                                            dest,
                                            src,
                                        )
                                    },
                                _ => false,
                            }
                        }
                    },
                }
            }),
    {
        if pkt.len() > self.max_capacity {
            return Err(AssociationSocketError::RecvBufferOverflow);
        }
        match self.target_cache.get(src) {
            Some(client) => {
                // Server -> client. The learned client must be this
                // association's client.
                if !ip_eq(client, self.client_addr) {
                    return Err(AssociationSocketError::SrcAddrMismatchSTCError);
                }
                Ok(ClassifyOutcome::ToClient { dest: client })
            },
            None => {
                // Client -> server. Only the association's client may send.
                if !ip_eq(src, self.client_addr) {
                    return Err(AssociationSocketError::SrcAddrMismatchCTSError);
                }
                match parse_udp_header(pkt) {
                    Parsed::Done(h, c) => {
                        proof {
                            assert(pkt@.subrange(3, c as int)[0] == pkt@[3]);
                        }
                        match h.address {
                            Address::Socket(target) => {
                                proof {
                                    assert(spec_addr_bytes(h.address)[0] != 3);
                                }
                                self.target_cache.insert(target, src);
                                if h.frag != 0 {
                                    proof {
                                        assert(3 < c as int <= pkt@.len());
                                        assert(spec_addr_bytes(Address::Socket(target))
                                            == pkt@.subrange(3, c as int));
                                        assert(self.target_cache.view_spec() == spec_cache_insert(
                                            old(self).cache_view(),
                                            old(self).cache_cap(),
                                            target,
                                            src,
                                        ));
                                    }
                                    Ok(ClassifyOutcome::Fragmented)
                                } else {
                                    Ok(
                                        ClassifyOutcome::ToServer {
                                            dest: target,
                                            payload_from: c,
                                        },
                                    )
                                }
                            },
                            Address::Domain(d, p) => {
                                proof {
                                    assert(spec_addr_bytes(h.address)[0] == 3);
                                }
                                Ok(
                                    ClassifyOutcome::NeedsDns {
                                        domain: d,
                                        port: p,
                                        frag: h.frag,
                                        payload_from: c,
                                    },
                                )
                            },
                        }
                    },
                    Parsed::Incomplete => Err(AssociationSocketError::UdpHeaderParseError),
                    Parsed::Malformed => {
                        proof {
                            assert(!addr_complete_at(pkt@, 3));
                        }
                        Err(AssociationSocketError::UdpHeaderParseError)
                    },
                }
            },
        }
    }

    /// Continue a client packet whose target came back from the resolver:
    /// learn the target, then forward unless fragmented.
    pub fn resolved_target(&mut self, target: SockAddr, src: SockAddr, frag: u8, payload_from:
        usize) -> (r: ClassifyOutcome)
        requires
            old(self).wf(),
        ensures
            final(self).wf(),
            final(self).spec_client() == old(self).spec_client(),
            final(self).spec_ttl() == old(self).spec_ttl(),
            final(self).spec_capacity() == old(self).spec_capacity(),
            final(self).cache_cap() == old(self).cache_cap(),
            final(self).cache_view() == spec_cache_insert(
                old(self).cache_view(),
                old(self).cache_cap(),
                target,
                src,
            ),
            cache_lookup(final(self).cache_view(), target) == Some(src),
            r == if frag == 0 {
                ClassifyOutcome::ToServer { dest: target, payload_from }
            } else {
                ClassifyOutcome::Fragmented
            },
    {
        self.target_cache.insert(target, src);
        if frag == 0 {
            ClassifyOutcome::ToServer { dest: target, payload_from }
        } else {
            ClassifyOutcome::Fragmented
        }
    }

    /// The bytes sent to the client for a server packet: a relay header
    /// with fragment 0 naming the observed server source, then the payload
    /// verbatim.
    pub fn build_to_client(&self, src: SockAddr, pkt: &Vec<u8>) -> (r: Result<
        Vec<u8>,
        AssociationSocketError,
    >)
        ensures
            match r {
                Ok(b) => b@ == spec_udp_header_bytes(
                    UdpHeader { frag: 0, address: Address::Socket(src) },
                ) + pkt@ && b@.len() <= self.spec_capacity(),
                Err(e) => e == AssociationSocketError::SendBufferOverflow
                    && spec_udp_header_bytes(
                    UdpHeader { frag: 0, address: Address::Socket(src) },
                ).len() + pkt@.len() > self.spec_capacity(),
            },
    {
        let header = UdpHeader { frag: 0, address: Address::Socket(src) };
        let mut out: Vec<u8> = Vec::new();
        header.write_bytes(&mut out);
        let m = pkt.len();
        let mut j: usize = 0;
        let ghost base = out@;
        while j < m
            invariant
                0 <= j <= m,
                m == pkt@.len(),
                out@ == base + pkt@.subrange(0, j as int),
            decreases m - j,
        {
            let b = pkt[j];
            out.push(b);
            proof {
                assert(out@ =~= base + pkt@.subrange(0, j + 1));
            }
            j = j + 1;
        }
        proof {
            assert(pkt@.subrange(0, m as int) =~= pkt@);
        }
        if out.len() > self.max_capacity {
            return Err(AssociationSocketError::SendBufferOverflow);
        }
        Ok(out)
    }

    /// The bytes sent to the server for a client packet: the payload after
    /// the relay header, with nothing prepended.
    pub fn build_to_server(&self, pkt: &Vec<u8>, payload_from: usize) -> (r: Result<
        Vec<u8>,
        AssociationSocketError,
    >)
        requires
            payload_from <= pkt@.len(),
        ensures
            match r {
                Ok(b) => b@ == pkt@.subrange(payload_from as int, pkt@.len() as int) && b@.len()
                    <= self.spec_capacity(),
                Err(e) => e == AssociationSocketError::SendBufferOverflow && pkt@.len()
                    - payload_from > self.spec_capacity(),
            },
    {
        let n = pkt.len();
        let mut out: Vec<u8> = Vec::new();
        let mut j = payload_from;
        while j < n
            invariant
                payload_from <= j <= n,
                n == pkt@.len(),
                out@ == pkt@.subrange(payload_from as int, j as int),
            decreases n - j,
        {
            let b = pkt[j];
            out.push(b);
            proof {
                assert(out@ =~= pkt@.subrange(payload_from as int, j + 1));
            }
            j = j + 1;
        }
        if out.len() > self.max_capacity {
            return Err(AssociationSocketError::SendBufferOverflow);
        }
        Ok(out)
    }
}

/// Whether two socket addresses share an IP.
fn ip_eq(a: SockAddr, b: SockAddr) -> (r: bool)
    ensures
        r == (a.ip == b.ip),
{
    a.ip == b.ip
}

} // verus!
