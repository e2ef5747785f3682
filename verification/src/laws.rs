//! Protocol-wide laws, proved over the system invariant.
//!
//! Every step method of [`System`] preserves [`System::wf`], so each law here
//! holds in every reachable state, whatever order the embedding program
//! interleaves the handlers' steps in.

use crate::math::lemma_shares_within_balance;
use crate::system::{
    balance_at, count_at_collect, count_at_round, investor_count, lemma_collect_count_full,
    lemma_round_count_full, lemma_sums_zero, round_return_sum, task_wf, System,
};
use crate::task::{has_debited, investor_contrib, is_investor, lemma_sum_zero_one, phase_idx, Task};
use vstd::prelude::*;

verus! {

/// The total paid out in the distribute phases of the rounds before `k`: one
/// floor share per investor per round.
pub open spec fn total_shares(init: int, n: int, ts: Seq<Task>, k: int) -> int
    decreases k,
{
    if k <= 0 {
        0
    } else {
        total_shares(init, n, ts, k - 1) + investor_count(ts) * (balance_at(init, n, ts, k - 1)
            / n)
    }
}

/// The total folded back in the collect phases of the rounds before `k`.
pub open spec fn total_returns(ts: Seq<Task>, k: int) -> int
    decreases k,
{
    if k <= 0 {
        0
    } else {
        total_returns(ts, k - 1) + round_return_sum(ts, k - 1)
    }
}

/// The balance recursion is plain conservation: the round-`k` start balance
/// is the initial balance, plus everything folded back, minus every floor
/// share debited, over the rounds before `k`.
pub proof fn lemma_balance_is_initial_plus_flows(init: int, n: int, ts: Seq<Task>, k: int)
    ensures
        balance_at(init, n, ts, k) == init + total_returns(ts, k) - total_shares(init, n, ts, k),
    decreases k,
{
    if k > 0 {
        lemma_balance_is_initial_plus_flows(init, n, ts, k - 1);
    }
}

/// Determinism of outcome despite concurrency: in any reachable quiescent
/// state — every task waiting at the distribute rendezvous of the same round
/// — the pool balance equals the initial balance plus the sum of all returns
/// folded back minus the sum of all floor-divided shares.  Nothing about the
/// interleaving of the handlers appears on the right-hand side: any schedule
/// of the same per-round returns reaches the same balance.
pub proof fn lemma_outcome_deterministic(s: System)
    requires
        s.wf(),
        forall|j: int|
            0 <= j < s.n() ==> (#[trigger] s.tasks@[j]).round == s.cur()
                && s.tasks@[j].phase is AwaitDistribute,
    ensures
        s.pool.balance == balance_at(s.initial@, s.n(), s.tasks@, s.cur()),
        s.pool.balance == s.initial@ + total_returns(s.tasks@, s.cur()) - total_shares(
            s.initial@,
            s.n(),
            s.tasks@,
            s.cur(),
        ),
{
    let ts = s.tasks@;
    let cur = s.cur();
    assert forall|j: int| 0 <= j < ts.len() implies !has_debited(#[trigger] ts[j], cur) by {
        assert(ts[j].round == cur && phase_idx(ts[j].phase) == 0);
    }
    assert(forall|j: int| 0 <= j < ts.len() ==> (#[trigger] ts[j]).round != cur + 1);
    lemma_sums_zero(ts, cur);
    lemma_balance_is_initial_plus_flows(s.initial@, s.n(), ts, cur);
}

/// The distribute phase never over-pays: when the round-start balance is
/// non-negative, the sum of the shares actually sent (one per investor, with
/// the denominator counting the observer too) is at most that balance, and
/// what a full attendance of investors would leave behind is exactly the
/// floor-division remainder, which stays in the pool.
pub proof fn lemma_round_distribution_bounded(s: System)
    requires
        s.wf(),
        0 <= s.base@,
    ensures
        0 <= investor_count(s.tasks@) * (s.base@ / s.n()) <= s.base@,
        s.base@ - s.n() * (s.base@ / s.n()) == s.base@ % s.n(),
        0 <= s.base@ % s.n() < s.n(),
{
    let m = investor_count(s.tasks@);
    let f = |t: Task| investor_contrib(t);
    assert(forall|j: int| 0 <= j < s.tasks@.len() ==> 0 <= #[trigger] f(s.tasks@[j]) <= 1);
    lemma_sum_zero_one(s.tasks@, f);
    if m == 0 {
        assert(0 * (s.base@ / s.n()) == 0) by (nonlinear_arith);
        lemma_shares_within_balance(s.base@, s.n(), s.n());
    } else {
        lemma_shares_within_balance(s.base@, s.n(), m);
        lemma_shares_within_balance(s.base@, s.n(), s.n());
    }
}

/// Strict round alternation (the happens-before guarantee): once any task has
/// passed the distribute rendezvous of its round, every task has entered that
/// round — so every investor has completed, and recorded, the credit steps of
/// all earlier rounds.  No handler is ever issued a round-`k + 1` share
/// before every handler's round-`k` credit is in the pool.
pub proof fn lemma_no_early_distribution(s: System, i: int, j: int)
    requires
        s.wf(),
        0 <= i < s.n(),
        0 <= j < s.n(),
        !(s.tasks@[i].phase is AwaitDistribute),
    ensures
        s.tasks@[j].round >= s.tasks@[i].round,
        is_investor(s.tasks@[j]) ==> s.tasks@[j].ledger@.len() >= s.tasks@[i].round,
{
    let ts = s.tasks@;
    let cur = s.cur();
    assert(task_wf(ts[i], cur, s.base@, s.n()));
    assert(task_wf(ts[j], cur, s.base@, s.n()));
    assert(ts[i].round == cur);
}

/// All share computations of a round agree: any two investors that have
/// computed a share for the current round hold the same value, the floor
/// share of the round-start balance — even though each read the pool at its
/// own moment.
pub proof fn lemma_shares_agree(s: System, i: int, j: int)
    requires
        s.wf(),
        0 <= i < s.n(),
        0 <= j < s.n(),
        is_investor(s.tasks@[i]),
        is_investor(s.tasks@[j]),
        phase_idx(s.tasks@[i].phase) >= 1 || s.tasks@[i].round == s.cur() + 1,
        phase_idx(s.tasks@[j].phase) >= 1 || s.tasks@[j].round == s.cur() + 1,
    ensures
        s.tasks@[i].share == s.tasks@[j].share,
        s.tasks@[i].share == s.base@ / s.n(),
{
    let ts = s.tasks@;
    let cur = s.cur();
    assert(task_wf(ts[i], cur, s.base@, s.n()));
    assert(task_wf(ts[j], cur, s.base@, s.n()));
}

/// The collect rendezvous really separates the phases: once any investor is
/// at (or past) its debit step, every task of that round has finished sending
/// — so no share computation of the round can have observed a partially
/// debited pool.
pub proof fn lemma_no_early_debit(s: System, i: int, j: int)
    requires
        s.wf(),
        0 <= i < s.n(),
        0 <= j < s.n(),
        phase_idx(s.tasks@[i].phase) >= 3,
    ensures
        s.tasks@[j].round > s.tasks@[i].round || (s.tasks@[j].round == s.tasks@[i].round
            && phase_idx(s.tasks@[j].phase) >= 2),
{
    let ts = s.tasks@;
    let cur = s.cur();
    assert(task_wf(ts[i], cur, s.base@, s.n()));
    assert(task_wf(ts[j], cur, s.base@, s.n()));
    assert(ts[i].round == cur);
    if s.coll.generation == cur {
        assert(ts[i].round == cur && phase_idx(ts[i].phase) <= 2);
    }
}

/// Deadlock freedom: while every task is live, some task can always take its
/// next step, so a well-behaved participant set produces an unbounded
/// sequence of rounds.  (How long a step takes is the peers' I/O latency;
/// only the existence of a next step is a property of the engine.)
pub proof fn lemma_progress(s: System)
    requires
        s.wf(),
        forall|j: int| 0 <= j < s.n() ==> (#[trigger] s.tasks@[j]).live,
    ensures
        exists|i: int| 0 <= i < s.n() && s.step_enabled(i),
{
    let ts = s.tasks@;
    let n = s.n();
    let cur = s.cur();
    if forall|i: int| 0 <= i < n ==> !(#[trigger] s.step_enabled(i)) {
        assert forall|j: int| 0 <= j < n implies (#[trigger] ts[j]).phase is AwaitDistribute
            || ts[j].phase is AwaitCollect by {
            assert(task_wf(ts[j], cur, s.base@, n));
            assert(!s.step_enabled(j));
        }
        if s.coll.generation == cur {
            // Nothing has passed the collect rendezvous: everyone is still in
            // the current round, so a task at the distribute rendezvous could
            // step; hence all must be waiting to collect — but then the
            // collect rendezvous is full and would have released.
            assert forall|j: int| 0 <= j < n implies (#[trigger] ts[j]).round == cur
                && ts[j].phase is AwaitCollect by {
                assert(ts[j].round == cur && phase_idx(ts[j].phase) <= 2);
                assert(!s.step_enabled(j));
            }
            lemma_collect_count_full(ts, cur);
            assert(count_at_collect(ts, cur) == n);
            assert(false);
        } else {
            // The collect rendezvous has released: a task waiting there could
            // step; hence all must be waiting at the next distribute
            // rendezvous — but then it is full and would have released.
            assert forall|j: int| 0 <= j < n implies (#[trigger] ts[j]).round == cur + 1 by {
                assert(task_wf(ts[j], cur, s.base@, n));
                assert(!s.step_enabled(j));
                if ts[j].phase is AwaitCollect {
                    assert(ts[j].round >= s.coll.generation);
                }
            }
            lemma_round_count_full(ts, cur + 1);
            assert(count_at_round(ts, cur + 1) == n);
            assert(false);
        }
    }
}

/// The acknowledged liveness gap: once a handler is dead, every peer that has
/// moved past the dead handler's position and is waiting at a rendezvous is
/// not enabled — the missing arrival keeps the rendezvous closed, and (since
/// a dead task never arrives again) it stays closed forever.
pub proof fn lemma_dead_task_stalls_peers(s: System, i: int, j: int)
    requires
        s.wf(),
        0 <= i < s.n(),
        0 <= j < s.n(),
        !s.tasks@[i].live,
        s.tasks@[j].phase is AwaitDistribute || s.tasks@[j].phase is AwaitCollect,
        s.tasks@[j].round > s.tasks@[i].round || (s.tasks@[j].round == s.tasks@[i].round
            && phase_idx(s.tasks@[j].phase) > phase_idx(s.tasks@[i].phase)),
    ensures
        !s.step_enabled(j),
{
    let ts = s.tasks@;
    let cur = s.cur();
    let n = s.n();
    assert(task_wf(ts[i], cur, s.base@, n));
    assert(task_wf(ts[j], cur, s.base@, n));
    assert(ts[i].round == cur);
    if ts[j].phase is AwaitCollect {
        if s.coll.generation == cur + 1 {
            assert(phase_idx(ts[i].phase) >= 2);
            assert(ts[j].round == cur + 1);
        }
    }
}

} // verus!
