//! A reusable counting rendezvous barrier with a generation number.
//!
//! All `expected` tasks must arrive before any of them may proceed past the
//! rendezvous; the arrival that completes the count releases the round and
//! resets the barrier for the next one.  The generation number distinguishes
//! rounds, so a task arriving for round `k + 1` is never grouped with
//! stragglers from round `k`: a task that arrived for round `k` may proceed
//! exactly when the generation has moved past `k`.
//!
//! The counter only ever counts arrivals; if a task exits and never arrives,
//! the generation never advances and every remaining task waits forever.
//! That liveness gap is deliberate (the participant set is fixed for the life
//! of a run) and is documented rather than papered over.

use vstd::prelude::*;

verus! {

/// One rendezvous point, reusable across unboundedly many rounds.
pub struct Barrier {
    /// How many tasks must arrive before the barrier releases.  Fixed at
    /// construction.
    pub expected: usize,
    /// How many tasks have arrived for the generation currently forming.
    pub arrived: usize,
    /// How many times the barrier has released so far.
    pub generation: u64,
}

impl Barrier {
    /// A barrier is well-formed when it awaits at least one task and the
    /// forming generation is still incomplete (completion resets the count
    /// in the same operation that releases the round).
    pub open spec fn wf(self) -> bool {
        1 <= self.expected && self.arrived < self.expected
    }

    /// Creates a barrier for `expected` tasks, with no arrivals yet.
    pub fn new(expected: usize) -> (b: Barrier)
        requires
            1 <= expected,
        ensures
            b.wf(),
            b.expected == expected,
            b.arrived == 0,
            b.generation == 0,
    {
        Barrier { expected, arrived: 0, generation: 0 }
    }

    /// Records one arrival.  The arrival that completes the count releases
    /// the round: the generation advances and the count resets.
    pub fn arrive(&mut self) -> (released: bool)
        requires
            old(self).wf(),
            old(self).generation < u64::MAX,
        ensures
            final(self).wf(),
            final(self).expected == old(self).expected,
            released == (old(self).arrived + 1 == old(self).expected),
            released ==> final(self).arrived == 0 && final(self).generation == old(
                self,
            ).generation + 1,
            !released ==> final(self).arrived == old(self).arrived + 1 && final(self).generation
                == old(self).generation,
    {
        if self.arrived + 1 == self.expected {
            self.arrived = 0;
            self.generation = self.generation + 1;
            true
        } else {
            self.arrived = self.arrived + 1;
            false
        }
    }

    /// Whether a task that arrived for round `round` has been released: the
    /// generation has moved past that round.
    pub fn is_open(&self, round: u64) -> (b: bool)
        ensures
            b == (round < self.generation),
    {
        round < self.generation
    }
}

} // verus!
