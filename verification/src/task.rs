//! Per-connection handler tasks and the observer, as data.
//!
//! One task runs per accepted connection, plus one optional observer that
//! joins the barrier rendezvous purely to read and report the pool.  A task's
//! progress through a round is its phase; the phases of one round, in order:
//!
//! `AwaitDistribute -> SendShare -> AwaitCollect -> DebitShare ->
//! ReceiveReturn -> CreditReturn -> (next round's AwaitDistribute)`
//!
//! A handler whose connection fails while sending or whose read returns an
//! error or a malformed line goes dead (`live == false`) in the phase where
//! it failed, and never arrives at another rendezvous.
//!
//! This module also provides the summation toolkit used by the system
//! invariant to account for every debit and credit of the current round.

use vstd::arithmetic::mul::lemma_mul_is_distributive_add;
use vstd::prelude::*;

verus! {

/// What a task does each round: an investor runs the full protocol; the
/// observer only reads the balance between the two rendezvous points.
#[derive(Clone, Copy, Debug, PartialEq, Eq, Structural)]
pub enum Role {
    Investor,
    Observer,
}

/// A task's position inside its current round.
#[derive(Clone, Copy, Debug, PartialEq, Eq, Structural)]
pub enum Phase {
    /// Arrived at the distribute rendezvous; waiting for the round to open.
    AwaitDistribute,
    /// Released; the share is computed and is going out on the wire.
    SendShare,
    /// The share is on the wire; arrived at the collect rendezvous.
    AwaitCollect,
    /// Released; about to subtract the sent share from the pool.
    DebitShare,
    /// Share debited; reading the participant's returned amount.
    ReceiveReturn,
    /// Return parsed; about to fold it back into the pool.
    CreditReturn,
}

/// Order of the phases within one round.
pub open spec fn phase_idx(p: Phase) -> int {
    match p {
        Phase::AwaitDistribute => 0,
        Phase::SendShare => 1,
        Phase::AwaitCollect => 2,
        Phase::DebitShare => 3,
        Phase::ReceiveReturn => 4,
        Phase::CreditReturn => 5,
    }
}

/// One handler task (or the observer).
#[derive(Clone, Copy)]
pub struct Task {
    /// Investor handler or observer.
    pub role: Role,
    /// False once the task's connection has failed; a dead task keeps the
    /// round and phase in which it failed and never moves again.
    pub live: bool,
    /// The round the task is currently in, starting at 0.
    pub round: u64,
    /// The task's position inside that round.
    pub phase: Phase,
    /// The share for the task's current round, valid from `SendShare` on.
    pub share: i64,
    /// The amount the participant sent back this round, valid in
    /// `CreditReturn` and later.
    pub ret: i64,
    /// Ghost record of every credit the task applied, one entry per round.
    pub ledger: Ghost<Seq<int>>,
}

pub open spec fn is_investor(t: Task) -> bool {
    t.role is Investor
}

/// Whether the task has already debited its round-`cur` share from the pool:
/// it is past `DebitShare` in round `cur`, or already into round `cur + 1`.
pub open spec fn has_debited(t: Task, cur: int) -> bool {
    is_investor(t) && ((t.round == cur && phase_idx(t.phase) >= 4) || t.round == cur + 1)
}

/// The task's contribution to the debits of round `cur` applied so far.
pub open spec fn debit_contrib(t: Task, cur: int) -> int {
    if has_debited(t, cur) {
        t.share as int
    } else {
        0
    }
}

/// The task's contribution to the credits of round `cur` applied so far:
/// a task credits its return in the step that moves it into round `cur + 1`.
pub open spec fn credit_contrib(t: Task, cur: int) -> int {
    if is_investor(t) && t.round == cur + 1 {
        t.ret as int
    } else {
        0
    }
}

/// The task's recorded return for round `k` of its history.
pub open spec fn return_contrib(t: Task, k: int) -> int {
    if is_investor(t) {
        t.ledger@[k]
    } else {
        0
    }
}

/// One for an investor, zero for the observer.
pub open spec fn investor_contrib(t: Task) -> int {
    if is_investor(t) {
        1
    } else {
        0
    }
}

/// One if the task is in round `r`.
pub open spec fn round_contrib(t: Task, r: int) -> int {
    if t.round == r {
        1
    } else {
        0
    }
}

/// One if the task is waiting at the collect rendezvous of round `r`.
pub open spec fn collect_contrib(t: Task, r: int) -> int {
    if t.round == r && t.phase is AwaitCollect {
        1
    } else {
        0
    }
}

/// Sum of `f` over a sequence of tasks.
pub open spec fn sum_by(ts: Seq<Task>, f: spec_fn(Task) -> int) -> int
    decreases ts.len(),
{
    if ts.len() == 0 {
        0
    } else {
        sum_by(ts.drop_last(), f) + f(ts.last())
    }
}

/// Replacing one task changes the sum by the difference of its contributions.
pub proof fn lemma_sum_update(ts: Seq<Task>, i: int, t: Task, f: spec_fn(Task) -> int)
    requires
        0 <= i < ts.len(),
    ensures
        sum_by(ts.update(i, t), f) == sum_by(ts, f) - f(ts[i]) + f(t),
    decreases ts.len(),
{
    if i == ts.len() - 1 {
        assert(ts.update(i, t).drop_last() =~= ts.drop_last());
        assert(ts.update(i, t).last() == t);
    } else {
        assert(ts.update(i, t).drop_last() =~= ts.drop_last().update(i, t));
        assert(ts.update(i, t).last() == ts.last());
        lemma_sum_update(ts.drop_last(), i, t, f);
    }
}

/// Appending a task adds its contribution.
pub proof fn lemma_sum_push(ts: Seq<Task>, t: Task, f: spec_fn(Task) -> int)
    ensures
        sum_by(ts.push(t), f) == sum_by(ts, f) + f(t),
{
    assert(ts.push(t).drop_last() =~= ts);
    assert(ts.push(t).last() == t);
}

/// A sum of vanishing contributions vanishes.
pub proof fn lemma_sum_zero(ts: Seq<Task>, f: spec_fn(Task) -> int)
    requires
        forall|j: int| 0 <= j < ts.len() ==> #[trigger] f(ts[j]) == 0,
    ensures
        sum_by(ts, f) == 0,
    decreases ts.len(),
{
    if ts.len() > 0 {
        assert(forall|j: int|
            0 <= j < ts.drop_last().len() ==> #[trigger] f(ts.drop_last()[j]) == f(ts[j]));
        lemma_sum_zero(ts.drop_last(), f);
        assert(f(ts.last()) == f(ts[ts.len() - 1]));
    }
}

/// Pointwise equal contributions give equal sums.
pub proof fn lemma_sum_congruent(ts: Seq<Task>, f: spec_fn(Task) -> int, g: spec_fn(Task) -> int)
    requires
        forall|j: int| 0 <= j < ts.len() ==> #[trigger] f(ts[j]) == g(ts[j]),
    ensures
        sum_by(ts, f) == sum_by(ts, g),
    decreases ts.len(),
{
    if ts.len() > 0 {
        assert(forall|j: int|
            0 <= j < ts.drop_last().len() ==> #[trigger] f(ts.drop_last()[j]) == f(ts[j]));
        lemma_sum_congruent(ts.drop_last(), f, g);
        assert(f(ts.last()) == f(ts[ts.len() - 1]));
        assert(g(ts.last()) == g(ts[ts.len() - 1]));
    }
}

/// If every task contributes `v` times its `g`-contribution to `f`, the
/// `f`-sum is `v` times the `g`-sum.
pub proof fn lemma_sum_scaled(
    ts: Seq<Task>,
    f: spec_fn(Task) -> int,
    g: spec_fn(Task) -> int,
    v: int,
)
    requires
        forall|j: int| 0 <= j < ts.len() ==> #[trigger] f(ts[j]) == v * g(ts[j]),
    ensures
        sum_by(ts, f) == v * sum_by(ts, g),
    decreases ts.len(),
{
    if ts.len() == 0 {
        assert(v * 0 == 0) by (nonlinear_arith);
    } else {
        assert(forall|j: int|
            0 <= j < ts.drop_last().len() ==> #[trigger] f(ts.drop_last()[j]) == f(ts[j]));
        lemma_sum_scaled(ts.drop_last(), f, g, v);
        assert(f(ts.last()) == f(ts[ts.len() - 1]));
        assert(g(ts.last()) == g(ts[ts.len() - 1]));
        lemma_mul_is_distributive_add(v, sum_by(ts.drop_last(), g), g(ts.last()));
    }
}

/// A sum of contributions each between zero and one is between zero and the
/// length, and reaches the length exactly when every task contributes one.
pub proof fn lemma_sum_zero_one(ts: Seq<Task>, f: spec_fn(Task) -> int)
    requires
        forall|j: int| 0 <= j < ts.len() ==> 0 <= #[trigger] f(ts[j]) <= 1,
    ensures
        0 <= sum_by(ts, f) <= ts.len(),
        sum_by(ts, f) == ts.len() <==> (forall|j: int|
            0 <= j < ts.len() ==> #[trigger] f(ts[j]) == 1),
    decreases ts.len(),
{
    if ts.len() > 0 {
        assert(forall|j: int|
            0 <= j < ts.drop_last().len() ==> #[trigger] f(ts.drop_last()[j]) == f(ts[j]));
        lemma_sum_zero_one(ts.drop_last(), f);
        assert(f(ts.last()) == f(ts[ts.len() - 1]));
        if sum_by(ts, f) == ts.len() {
            assert(sum_by(ts.drop_last(), f) == ts.drop_last().len());
            assert(forall|j: int|
                0 <= j < ts.len() - 1 ==> #[trigger] f(ts[j]) == f(ts.drop_last()[j]));
        }
        if forall|j: int| 0 <= j < ts.len() ==> #[trigger] f(ts[j]) == 1 {
            assert(forall|j: int|
                0 <= j < ts.drop_last().len() ==> #[trigger] f(ts.drop_last()[j]) == 1);
            assert(sum_by(ts.drop_last(), f) == ts.drop_last().len());
        }
    }
}

} // verus!
