//! The shared pool: a single signed balance.
//!
//! Every handler and the observer share one pool.  The pool itself offers
//! only individual read / credit / debit / signed-apply operations; it is the
//! barrier pair, not the pool, that keeps the distribute-phase debits of a
//! round apart from its collect-phase credits.  A debit may drive the balance
//! negative: that is documented behaviour, not an error.

use vstd::prelude::*;

verus! {

/// The single shared numeric resource being distributed and replenished.
pub struct Pool {
    /// The current balance.  Signed: participants may withdraw more than
    /// they were given, and debits are not bounds-checked.
    pub balance: i64,
}

impl Pool {
    /// Creates a pool holding `initial`.
    pub fn new(initial: i64) -> (p: Pool)
        ensures
            p.balance == initial,
    {
        Pool { balance: initial }
    }

    /// Reads the current balance.
    pub fn read(&self) -> (b: i64)
        ensures
            b == self.balance,
    {
        self.balance
    }

    /// Adds a non-negative amount to the balance.
    pub fn credit(&mut self, amount: i64)
        requires
            0 <= amount,
            old(self).balance + amount <= i64::MAX,
        ensures
            final(self).balance == old(self).balance + amount,
    {
        self.balance = self.balance + amount;
    }

    /// Subtracts an amount from the balance, without a bounds check: the
    /// balance may go negative.  The amount is non-negative in normal
    /// operation; the floor share of a negative balance is itself negative,
    /// and debiting it folds its magnitude back.
    pub fn debit(&mut self, amount: i64)
        requires
            i64::MIN <= old(self).balance - amount <= i64::MAX,
        ensures
            final(self).balance == old(self).balance - amount,
    {
        self.balance = self.balance - amount;
    }

    /// Applies a signed adjustment to the balance: a negative `delta` is a
    /// net withdrawal by a participant.
    pub fn apply(&mut self, delta: i64)
        requires
            i64::MIN <= old(self).balance + delta <= i64::MAX,
        ensures
            final(self).balance == old(self).balance + delta,
    {
        self.balance = self.balance + delta;
    }
}

} // verus!
