//! Fleet bring-up: the listen set and the bind barrier.
//!
//! The configured subnets expand into host addresses and join the explicit
//! addresses; one dual proxy is spawned per listen IP. A barrier holds every
//! listener at "bound but not accepting" until each listener has reported
//! its bind outcome — counting failures too, so one failed bind removes that
//! IP without deadlocking the rest of the fleet.

use vstd::prelude::*;
use crate::net::{Ipv4, Subnet, make_subnet_vec, spec_subnet_seq};

verus! {

/// The host addresses of every subnet, in order.
pub open spec fn spec_expand_subnets(subnets: Seq<Subnet>, upto: int) -> Seq<Ipv4>
    decreases upto,
{
    if upto <= 0 {
        Seq::empty()
    } else {
        spec_expand_subnets(subnets, upto - 1) + spec_subnet_seq(subnets[upto - 1])
    }
}

/// The fleet's listen set: the explicit addresses, then every subnet's
/// addresses in configuration order.
pub fn expand_listen_ips(addrs: &Vec<Ipv4>, subnets: &Vec<Subnet>) -> (r: Vec<Ipv4>)
    requires
        forall|i: int| 0 <= i < subnets@.len() ==> (#[trigger] subnets@[i]).prefix <= 32,
    ensures
        r@ == addrs@ + spec_expand_subnets(subnets@, subnets@.len() as int),
{
    let mut out: Vec<Ipv4> = Vec::new();
    let n = addrs.len();
    let mut i: usize = 0;
    while i < n
        invariant
            0 <= i <= n,
            n == addrs@.len(),
            out@ == addrs@.subrange(0, i as int),
        decreases n - i,
    {
        let a = addrs[i];
        out.push(a);
        proof {
            assert(out@ =~= addrs@.subrange(0, i + 1));
        }
        i = i + 1;
    }
    proof {
        assert(addrs@.subrange(0, n as int) =~= addrs@);
        assert(out@ + spec_expand_subnets(subnets@, 0) =~= out@);
    }
    let m = subnets.len();
    let mut j: usize = 0;
    while j < m
        invariant
            0 <= j <= m,
            m == subnets@.len(),
            forall|k: int| 0 <= k < m ==> (#[trigger] subnets@[k]).prefix <= 32,
            out@ == addrs@ + spec_expand_subnets(subnets@, j as int),
        decreases m - j,
    {
        let hosts = make_subnet_vec(subnets[j]);
        let hn = hosts.len();
        let mut k: usize = 0;
        while k < hn
            invariant
                0 <= k <= hn,
                hn == hosts@.len(),
                j < m == subnets@.len(),
                hosts@ == spec_subnet_seq(subnets@[j as int]),
                out@ == addrs@ + spec_expand_subnets(subnets@, j as int) + hosts@.subrange(
                    0,
                    k as int,
                ),
            decreases hn - k,
        {
            let h = hosts[k];
            out.push(h);
            proof {
                assert(out@ =~= addrs@ + spec_expand_subnets(subnets@, j as int)
                    + hosts@.subrange(0, k + 1));
            }
            k = k + 1;
        }
        proof {
            assert(hosts@.subrange(0, hn as int) =~= hosts@);
            assert(out@ =~= addrs@ + spec_expand_subnets(subnets@, j + 1));
        }
        j = j + 1;
    }
    out
}

/// The bind barrier: every listener reports once — a successful bind or a
/// failure — and nobody may accept until all reports are in.
pub struct FleetBarrier {
    total: usize,
    bound: usize,
    failed: usize,
}

impl FleetBarrier {
    pub closed spec fn spec_total(self) -> int {
        self.total as int
    }

    pub closed spec fn spec_bound(self) -> int {
        self.bound as int
    }

    pub closed spec fn spec_failed(self) -> int {
        self.failed as int
    }

    pub closed spec fn wf(self) -> bool {
        self.bound + self.failed <= self.total
    }

    /// Released exactly when every listener has reported.
    pub open spec fn spec_released(self) -> bool {
        self.spec_bound() + self.spec_failed() == self.spec_total()
    }

    pub fn new(total: usize) -> (r: FleetBarrier)
        ensures
            r.wf(),
            r.spec_total() == total as int,
            r.spec_bound() == 0,
            r.spec_failed() == 0,
    {
        FleetBarrier { total, bound: 0, failed: 0 }
    }

    /// One listener bound its sockets.
    pub fn on_bound(&mut self)
        requires
            old(self).wf(),
            old(self).spec_bound() + old(self).spec_failed() < old(self).spec_total(),
        ensures
            final(self).wf(),
            final(self).spec_total() == old(self).spec_total(),
            final(self).spec_bound() == old(self).spec_bound() + 1,
            final(self).spec_failed() == old(self).spec_failed(),
    {
        self.bound = self.bound + 1;
    }

    /// One listener failed to bind; it reports and leaves the fleet, so the
    /// rest are not held forever.
    pub fn on_bind_failure(&mut self)
        requires
            old(self).wf(),
            old(self).spec_bound() + old(self).spec_failed() < old(self).spec_total(),
        ensures
            final(self).wf(),
            final(self).spec_total() == old(self).spec_total(),
            final(self).spec_bound() == old(self).spec_bound(),
            final(self).spec_failed() == old(self).spec_failed() + 1,
    {
        self.failed = self.failed + 1;
    }

    /// Whether the fleet may start accepting.
    pub fn released(&self) -> (r: bool)
        requires
            self.wf(),
        ensures
            r == self.spec_released(),
    {
        self.bound + self.failed == self.total
    }
}

/// No listener accepts before every listener has bound or been removed:
/// the barrier releases only when the reports cover the whole fleet, and
/// when no bind failed, that means every listener in the fleet has bound.
pub proof fn lemma_no_accept_before_fleet_bound(b: FleetBarrier)
    requires
        b.wf(),
        b.spec_released(),
    ensures
        b.spec_bound() + b.spec_failed() == b.spec_total(),
        b.spec_failed() == 0 ==> b.spec_bound() == b.spec_total(),
{
}

} // verus!
