//! Loop bookkeeping shared by the rejection samplers: candidates are drawn
//! until the requested number is accepted, with a safety limit of
//! `100 * target` attempts after which the sampler gives up.

use vstd::prelude::*;

verus! {

/// The counters of a rejection sampler's loop.
pub struct BudgetView {
    /// Number of samples requested.
    pub target: nat,
    /// Number of candidates accepted so far.
    pub accepted: nat,
    /// Number of candidates tried so far.
    pub attempts: nat,
}

impl BudgetView {
    /// Whether the sampler draws another candidate: fewer than `target`
    /// accepted and the safety limit of `100 * target` attempts not passed.
    pub open spec fn running(self) -> bool {
        self.accepted < self.target && self.attempts <= 100 * self.target
    }
}

/// Counters of a rejection sampler's loop, with its safety limit.
pub struct RejectionBudget {
    target: usize,
    accepted: usize,
    attempts: usize,
}

impl View for RejectionBudget {
    type V = BudgetView;

    closed spec fn view(&self) -> BudgetView {
        BudgetView {
            target: self.target as nat,
            accepted: self.accepted as nat,
            attempts: self.attempts as nat,
        }
    }
}

impl RejectionBudget {
    #[verifier::type_invariant]
    spec fn counters_consistent(self) -> bool {
        &&& self.target <= usize::MAX / 100
        &&& self.accepted <= self.target
        &&& self.accepted <= self.attempts
        &&& self.attempts <= 100 * self.target + 1
    }

    /// Counters for a sampler that wants `target` samples; nothing tried yet.
    pub fn new(target: usize) -> (r: Self)
        requires
            target <= usize::MAX / 100,
        ensures
            r@ == (BudgetView { target: target as nat, accepted: 0, attempts: 0 }),
    {
        RejectionBudget { target, accepted: 0, attempts: 0 }
    }

    /// Whether to draw another candidate. When the loop stops, either all
    /// requested samples were accepted or the attempt limit was passed.
    pub fn keep_going(&self) -> (r: bool)
        ensures
            r == self@.running(),
            r == (self@.accepted < self@.target && self@.attempts <= 100 * self@.target),
            !r ==> (self@.accepted == self@.target || self@.attempts == 100 * self@.target + 1),
    {
        proof {
            use_type_invariant(self);
        }
        self.accepted < self.target && self.attempts <= 100 * self.target
    }

    /// Count one attempt, and one acceptance if `hit`.
    pub fn record(&mut self, hit: bool)
        requires
            old(self)@.running(),
        ensures
            final(self)@.target == old(self)@.target,
            final(self)@.attempts == old(self)@.attempts + 1,
            final(self)@.accepted == old(self)@.accepted + if hit { 1nat } else { 0nat },
    {
        proof {
            use_type_invariant(&*self);
            assert(usize::MAX % 100 != 0);
        }
        self.attempts = self.attempts + 1;
        if hit {
            self.accepted = self.accepted + 1;
        }
    }

    /// Number of candidates accepted so far; never more than were tried,
    /// so the acceptance rate lies in `[0, 1]`.
    pub fn accepted(&self) -> (r: usize)
        ensures
            r == self@.accepted,
            r <= self@.attempts,
            r <= self@.target,
    {
        proof {
            use_type_invariant(self);
        }
        self.accepted
    }

    /// Number of candidates tried so far; never more than `100 * target + 1`.
    pub fn attempts(&self) -> (r: usize)
        ensures
            r == self@.attempts,
            r <= 100 * self@.target + 1,
    {
        proof {
            use_type_invariant(self);
        }
        self.attempts
    }

    /// Number of samples requested.
    pub fn target(&self) -> (r: usize)
        ensures
            r == self@.target,
    {
        self.target
    }
}

} // verus!
