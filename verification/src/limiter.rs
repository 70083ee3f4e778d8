//! Bounding how many probes run at once.
//!
//! The naive traversal dispatches one task per entry with no cap. The
//! limiter is what a careful traversal consults before starting an
//! external probe: a slot must be acquired first and is given back
//! when the probe ends, so no more than the configured number of
//! probes are ever in flight together.

use vstd::prelude::*;

verus! {

/// The bound on simultaneous probe subprocesses.
pub struct Limiter {
    /// The configured ceiling on probes in flight.
    pub limit: usize,
    /// How many acquired slots have not been released yet.
    pub in_flight: usize,
}

impl Limiter {
    /// The limiter's invariant: in-flight probes never outnumber the
    /// ceiling. Constructed limiters satisfy it and every operation
    /// preserves it.
    pub open spec fn respects_limit(self) -> bool {
        self.in_flight <= self.limit && self.limit >= 1
    }

    /// A fresh limiter for the configured concurrency limit. A ceiling of
    /// zero could never run any probe at all, so it is raised to one.
    pub fn new(limit: usize) -> (l: Limiter)
        ensures
            l.limit == if limit == 0 {
                1usize
            } else {
                limit
            },
            l.in_flight == 0,
            l.respects_limit(),
    {
        let limit = if limit == 0 {
            1
        } else {
            limit
        };
        Limiter { limit, in_flight: 0 }
    }

    /// Ask for a slot. A slot is granted exactly when one is free; a
    /// grant takes the slot, a refusal changes nothing. Either way the
    /// ceiling stands.
    pub fn try_acquire(&mut self) -> (granted: bool)
        requires
            old(self).respects_limit(),
        ensures
            final(self).limit == old(self).limit,
            granted == (old(self).in_flight < old(self).limit),
            granted ==> final(self).in_flight == old(self).in_flight + 1,
            !granted ==> final(self).in_flight == old(self).in_flight,
            final(self).respects_limit(),
    {
        if self.in_flight < self.limit {
            self.in_flight = self.in_flight + 1;
            true
        } else {
            false
        }
    }

    /// Give a slot back when its probe has finished.
    pub fn release(&mut self)
        requires
            old(self).respects_limit(),
            old(self).in_flight > 0,
        ensures
            final(self).limit == old(self).limit,
            final(self).in_flight == old(self).in_flight - 1,
            final(self).respects_limit(),
    {
        self.in_flight = self.in_flight - 1;
    }
}

/// The concurrency bound itself: whatever sequence of acquisitions
/// and releases a well-formed limiter has seen, it never has more
/// probes in flight than its configured limit allows.
pub proof fn lemma_limit_never_exceeded(l: Limiter)
    requires
        l.respects_limit(),
    ensures
        l.in_flight <= l.limit,
{
}

} // verus!
