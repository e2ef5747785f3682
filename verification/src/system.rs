//! The coordinator's round engine: the shared pool, the two rendezvous
//! barriers, and one task per connection, as a single state machine.
//!
//! Each public step method is one protocol event of one task.  The embedding
//! program may interleave the steps of its concurrent handler tasks in any
//! order it likes: every method preserves the invariant [`System::wf`], and
//! the laws of [`crate::laws`] hold in every reachable state, so the
//! round-by-round outcome is independent of the interleaving.
//!
//! A round of an investor handler `i`:
//! - [`System::begin_round`], once the distribute rendezvous of its round has
//!   released: computes the share from the stable round-start balance;
//! - [`System::record_send`]: the share was written (or the write failed and
//!   the handler is dead); a successful send arrives at the collect
//!   rendezvous;
//! - [`System::pass_collect`], once the collect rendezvous has released;
//! - [`System::apply_debit`]: subtracts the sent share from the pool;
//! - [`System::receive_line`] / [`System::record_return`]: the participant's
//!   returned amount was read and parsed (or the handler is dead);
//! - [`System::apply_credit`]: folds the return into the pool, enters the
//!   next round, and arrives at its distribute rendezvous.
//!
//! The observer's round is [`System::observe`] (pass the distribute
//! rendezvous, read the balance, arrive at the collect rendezvous) and
//! [`System::pass_collect`] (enter the next round).
//!
//! A dead task never arrives at another rendezvous, so its barrier never
//! releases again and every peer eventually blocks forever: the original
//! design's liveness gap is kept deliberately (the participant set is fixed
//! for the life of a run) rather than resized away; see
//! [`crate::laws::lemma_dead_task_stalls_peers`].

use crate::barrier::Barrier;
use crate::math::floor_div;
use crate::pool::Pool;
use crate::task::{
    collect_contrib, credit_contrib, debit_contrib, has_debited, investor_contrib, is_investor,
    lemma_sum_congruent, lemma_sum_push, lemma_sum_scaled, lemma_sum_update, lemma_sum_zero,
    lemma_sum_zero_one, phase_idx, return_contrib, round_contrib, sum_by, Phase, Role, Task,
};
use crate::wire;
use vstd::prelude::*;
use vstd::string::StringSliceAdditionalSpecFns;

verus! {

/// Sum of the round-`cur` shares already debited from the pool.
pub open spec fn debited_sum(ts: Seq<Task>, cur: int) -> int {
    sum_by(ts, |t: Task| debit_contrib(t, cur))
}

/// Sum of the round-`cur` returns already folded back into the pool.
pub open spec fn credited_sum(ts: Seq<Task>, cur: int) -> int {
    sum_by(ts, |t: Task| credit_contrib(t, cur))
}

/// Sum of the returns every investor recorded for round `k`.
pub open spec fn round_return_sum(ts: Seq<Task>, k: int) -> int {
    sum_by(ts, |t: Task| return_contrib(t, k))
}

/// How many tasks are in round `r`.
pub open spec fn count_at_round(ts: Seq<Task>, r: int) -> int {
    sum_by(ts, |t: Task| round_contrib(t, r))
}

/// How many tasks are waiting at the collect rendezvous of round `r`.
pub open spec fn count_at_collect(ts: Seq<Task>, r: int) -> int {
    sum_by(ts, |t: Task| collect_contrib(t, r))
}

/// How many of the tasks are investors.
pub open spec fn investor_count(ts: Seq<Task>) -> int {
    sum_by(ts, |t: Task| investor_contrib(t))
}

/// The pool balance at the start of round `k`, as determined by the initial
/// balance, the divisor `n`, and the recorded returns alone: each round pays
/// one floor share per investor out and folds the round's returns back in.
pub open spec fn balance_at(init: int, n: int, ts: Seq<Task>, k: int) -> int
    decreases k,
{
    if k <= 0 {
        init
    } else {
        let b = balance_at(init, n, ts, k - 1);
        b - investor_count(ts) * (b / n) + round_return_sum(ts, k - 1)
    }
}

/// Per-task well-formedness within the window of the current round `cur`
/// (divisor `n`, round-start balance `base`).
pub open spec fn task_wf(t: Task, cur: int, base: int, n: int) -> bool {
    &&& (t.round == cur || t.round == cur + 1)
    &&& (t.round == cur + 1 ==> t.phase is AwaitDistribute && t.live)
    &&& (!is_investor(t) ==> t.live && (t.phase is AwaitDistribute || t.phase is AwaitCollect)
        && t.ledger@.len() == 0)
    &&& (!t.live ==> is_investor(t) && (t.phase is SendShare || t.phase is ReceiveReturn))
    &&& (is_investor(t) && ((t.round == cur && phase_idx(t.phase) >= 1) || t.round == cur + 1)
        ==> t.share == base / n)
    &&& (is_investor(t) ==> t.ledger@.len() == t.round)
    &&& (is_investor(t) && t.round == cur + 1 ==> t.ret == t.ledger@[cur])
}

/// The whole coordinator: pool, barrier pair, and one task per connection.
pub struct System {
    /// The shared pool.
    pub pool: Pool,
    /// The distribute rendezvous: releases a round for share computation.
    pub dist: Barrier,
    /// The collect rendezvous: separates the sends of a round from its
    /// debits.
    pub coll: Barrier,
    /// The handler tasks, plus the observer (if any) as the last task.
    pub tasks: Vec<Task>,
    /// The pool balance at the start of the current round.
    pub base: Ghost<int>,
    /// The pool balance the system was created with.
    pub initial: Ghost<int>,
}

impl System {
    /// The number of tasks attending each rendezvous: the equal-division
    /// denominator.
    pub open spec fn n(self) -> int {
        self.tasks@.len() as int
    }

    /// The current round: the distribute rendezvous has released exactly the
    /// rounds before `cur`, plus `cur` itself.
    pub open spec fn cur(self) -> int {
        self.dist.generation - 1
    }

    /// The system invariant, preserved by every step method.
    pub open spec fn wf(self) -> bool {
        let ts = self.tasks@;
        let n = self.n();
        let cur = self.cur();
        &&& self.dist.wf()
        &&& self.coll.wf()
        &&& self.dist.expected == ts.len()
        &&& self.coll.expected == ts.len()
        &&& 1 <= n <= 0x7fff_ffff_ffff_ffff
        &&& 1 <= self.dist.generation
        &&& i64::MIN <= self.base@ <= i64::MAX
        &&& (forall|j: int| 0 <= j < n ==> task_wf(#[trigger] ts[j], cur, self.base@, n))
        &&& self.dist.arrived == count_at_round(ts, cur + 1)
        &&& (self.coll.generation == cur || self.coll.generation == cur + 1)
        &&& (self.coll.generation == cur ==> {
            &&& self.coll.arrived == count_at_collect(ts, cur)
            &&& (forall|j: int|
                0 <= j < n ==> (#[trigger] ts[j]).round == cur && phase_idx(ts[j].phase) <= 2)
        })
        &&& (self.coll.generation == cur + 1 ==> {
            &&& self.coll.arrived == 0
            &&& (forall|j: int|
                0 <= j < n && (#[trigger] ts[j]).round == cur ==> phase_idx(ts[j].phase) >= 2)
        })
        &&& self.pool.balance == self.base@ - debited_sum(ts, cur) + credited_sum(ts, cur)
        &&& self.base@ == balance_at(self.initial@, n, ts, cur)
    }

    /// Whether task `i`'s next step is currently possible: a task at a
    /// rendezvous must wait until its round's generation has released.
    pub open spec fn step_enabled(self, i: int) -> bool {
        let t = self.tasks@[i];
        t.live && match t.phase {
            Phase::AwaitDistribute => t.round < self.dist.generation,
            Phase::AwaitCollect => t.round < self.coll.generation,
            _ => true,
        }
    }
}

/// Replacing one task changes each accounting sum by the difference of the
/// task's contributions.
pub proof fn lemma_sums_update(ts: Seq<Task>, i: int, t2: Task, cur: int, r: int, k: int)
    requires
        0 <= i < ts.len(),
    ensures
        debited_sum(ts.update(i, t2), cur) == debited_sum(ts, cur) - debit_contrib(ts[i], cur)
            + debit_contrib(t2, cur),
        credited_sum(ts.update(i, t2), cur) == credited_sum(ts, cur) - credit_contrib(ts[i], cur)
            + credit_contrib(t2, cur),
        count_at_round(ts.update(i, t2), r) == count_at_round(ts, r) - round_contrib(ts[i], r)
            + round_contrib(t2, r),
        count_at_collect(ts.update(i, t2), r) == count_at_collect(ts, r) - collect_contrib(
            ts[i],
            r,
        ) + collect_contrib(t2, r),
        investor_count(ts.update(i, t2)) == investor_count(ts) - investor_contrib(ts[i])
            + investor_contrib(t2),
        round_return_sum(ts.update(i, t2), k) == round_return_sum(ts, k) - return_contrib(ts[i], k)
            + return_contrib(t2, k),
{
    lemma_sum_update(ts, i, t2, |t: Task| debit_contrib(t, cur));
    lemma_sum_update(ts, i, t2, |t: Task| credit_contrib(t, cur));
    lemma_sum_update(ts, i, t2, |t: Task| round_contrib(t, r));
    lemma_sum_update(ts, i, t2, |t: Task| collect_contrib(t, r));
    lemma_sum_update(ts, i, t2, |t: Task| investor_contrib(t));
    lemma_sum_update(ts, i, t2, |t: Task| return_contrib(t, k));
}

/// Appending a task adds its contributions to each accounting sum.
pub proof fn lemma_sums_push(ts: Seq<Task>, t2: Task, cur: int, r: int, k: int)
    ensures
        debited_sum(ts.push(t2), cur) == debited_sum(ts, cur) + debit_contrib(t2, cur),
        credited_sum(ts.push(t2), cur) == credited_sum(ts, cur) + credit_contrib(t2, cur),
        count_at_round(ts.push(t2), r) == count_at_round(ts, r) + round_contrib(t2, r),
        count_at_collect(ts.push(t2), r) == count_at_collect(ts, r) + collect_contrib(t2, r),
        investor_count(ts.push(t2)) == investor_count(ts) + investor_contrib(t2),
        round_return_sum(ts.push(t2), k) == round_return_sum(ts, k) + return_contrib(t2, k),
{
    lemma_sum_push(ts, t2, |t: Task| debit_contrib(t, cur));
    lemma_sum_push(ts, t2, |t: Task| credit_contrib(t, cur));
    lemma_sum_push(ts, t2, |t: Task| round_contrib(t, r));
    lemma_sum_push(ts, t2, |t: Task| collect_contrib(t, r));
    lemma_sum_push(ts, t2, |t: Task| investor_contrib(t));
    lemma_sum_push(ts, t2, |t: Task| return_contrib(t, k));
}

/// In a state where no task has yet debited or ledger for round `cur`, both
/// accounting sums vanish.
pub proof fn lemma_sums_zero(ts: Seq<Task>, cur: int)
    requires
        forall|j: int| 0 <= j < ts.len() ==> !has_debited(#[trigger] ts[j], cur),
        forall|j: int| 0 <= j < ts.len() ==> (#[trigger] ts[j]).round != cur + 1,
    ensures
        debited_sum(ts, cur) == 0,
        credited_sum(ts, cur) == 0,
{
    let f = |t: Task| debit_contrib(t, cur);
    let g = |t: Task| credit_contrib(t, cur);
    assert forall|j: int| 0 <= j < ts.len() implies #[trigger] f(ts[j]) == 0 by {
        assert(!has_debited(ts[j], cur));
    }
    assert forall|j: int| 0 <= j < ts.len() implies #[trigger] g(ts[j]) == 0 by {
        assert(ts[j].round != cur + 1);
    }
    lemma_sum_zero(ts, f);
    lemma_sum_zero(ts, g);
}

/// No task is in round `r`: the round count vanishes.
pub proof fn lemma_round_count_zero(ts: Seq<Task>, r: int)
    requires
        forall|j: int| 0 <= j < ts.len() ==> (#[trigger] ts[j]).round != r,
    ensures
        count_at_round(ts, r) == 0,
{
    let f = |t: Task| round_contrib(t, r);
    assert forall|j: int| 0 <= j < ts.len() implies #[trigger] f(ts[j]) == 0 by {
        assert(ts[j].round != r);
    }
    lemma_sum_zero(ts, f);
}

/// No task is waiting at the collect rendezvous of round `r`.
pub proof fn lemma_collect_count_zero(ts: Seq<Task>, r: int)
    requires
        forall|j: int| 0 <= j < ts.len() ==> !((#[trigger] ts[j]).round == r
            && ts[j].phase is AwaitCollect),
    ensures
        count_at_collect(ts, r) == 0,
{
    let f = |t: Task| collect_contrib(t, r);
    assert forall|j: int| 0 <= j < ts.len() implies #[trigger] f(ts[j]) == 0 by {
        assert(!(ts[j].round == r && ts[j].phase is AwaitCollect));
    }
    lemma_sum_zero(ts, f);
}

/// The round count is at most the number of tasks, and reaches it exactly
/// when every task is in round `r`.
pub proof fn lemma_round_count_full(ts: Seq<Task>, r: int)
    ensures
        0 <= count_at_round(ts, r) <= ts.len(),
        count_at_round(ts, r) == ts.len() <==> (forall|j: int|
            0 <= j < ts.len() ==> (#[trigger] ts[j]).round == r),
{
    let f = |t: Task| round_contrib(t, r);
    assert(forall|j: int| 0 <= j < ts.len() ==> 0 <= #[trigger] f(ts[j]) <= 1);
    lemma_sum_zero_one(ts, f);
    assert forall|j: int| 0 <= j < ts.len() && f(ts[j]) == 1 implies (#[trigger] ts[j]).round == r
        by {}
    if forall|j: int| 0 <= j < ts.len() ==> (#[trigger] ts[j]).round == r {
        assert(forall|j: int| 0 <= j < ts.len() ==> #[trigger] f(ts[j]) == 1);
    }
}

/// The collect count is at most the number of tasks, and reaches it exactly
/// when every task is waiting at the collect rendezvous of round `r`.
pub proof fn lemma_collect_count_full(ts: Seq<Task>, r: int)
    ensures
        0 <= count_at_collect(ts, r) <= ts.len(),
        count_at_collect(ts, r) == ts.len() <==> (forall|j: int|
            0 <= j < ts.len() ==> (#[trigger] ts[j]).round == r && ts[j].phase is AwaitCollect),
{
    let f = |t: Task| collect_contrib(t, r);
    assert(forall|j: int| 0 <= j < ts.len() ==> 0 <= #[trigger] f(ts[j]) <= 1);
    lemma_sum_zero_one(ts, f);
    assert forall|j: int| 0 <= j < ts.len() && f(ts[j]) == 1 implies (#[trigger] ts[j]).round == r
        && ts[j].phase is AwaitCollect by {}
    if forall|j: int| 0 <= j < ts.len() ==> (#[trigger] ts[j]).round == r
        && ts[j].phase is AwaitCollect {
        assert(forall|j: int| 0 <= j < ts.len() ==> #[trigger] f(ts[j]) == 1);
    }
}

/// The round-start balance recursion only reads the investor count and the
/// per-round return sums before `k`; states that agree on those agree on it.
pub proof fn lemma_balance_at_congruent(init: int, n: int, ts1: Seq<Task>, ts2: Seq<Task>, k: int)
    requires
        investor_count(ts1) == investor_count(ts2),
        forall|k2: int| 0 <= k2 < k ==> #[trigger] round_return_sum(ts1, k2) == round_return_sum(
            ts2,
            k2,
        ),
    ensures
        balance_at(init, n, ts1, k) == balance_at(init, n, ts2, k),
    decreases k,
{
    if k > 0 {
        lemma_balance_at_congruent(init, n, ts1, ts2, k - 1);
    }
}

/// Replacing a task without touching its role or its recorded history (or
/// only appending to the history) leaves the balance recursion unchanged up
/// to the length of the untouched prefix.
pub proof fn lemma_balance_at_update(init: int, n: int, ts: Seq<Task>, i: int, t2: Task, k: int)
    requires
        0 <= i < ts.len(),
        is_investor(t2) == is_investor(ts[i]),
        forall|k2: int| 0 <= k2 < k ==> t2.ledger@[k2] == ts[i].ledger@[k2],
    ensures
        balance_at(init, n, ts.update(i, t2), k) == balance_at(init, n, ts, k),
{
    assert forall|k2: int| 0 <= k2 < k implies #[trigger] round_return_sum(ts.update(i, t2), k2)
        == round_return_sum(ts, k2) by {
        lemma_sums_update(ts, i, t2, 0, 0, k2);
        assert(return_contrib(t2, k2) == return_contrib(ts[i], k2));
    }
    lemma_sums_update(ts, i, t2, 0, 0, 0);
    lemma_balance_at_congruent(init, n, ts.update(i, t2), ts, k);
}

/// When the last task of a window enters the next round, the new round-start
/// balance obeys the balance recursion, whatever order the round's debits and
/// credits were applied in.
pub proof fn lemma_window_advance(
    pool: int,
    base: int,
    init: int,
    n: int,
    ts2: Seq<Task>,
    cur: int,
)
    requires
        1 <= n,
        0 <= cur,
        ts2.len() == n,
        forall|j: int| 0 <= j < n ==> task_wf(#[trigger] ts2[j], cur, base, n),
        forall|j: int| 0 <= j < n ==> (#[trigger] ts2[j]).round == cur + 1,
        pool == base - debited_sum(ts2, cur) + credited_sum(ts2, cur),
        base == balance_at(init, n, ts2, cur),
    ensures
        pool == balance_at(init, n, ts2, cur + 1),
        debited_sum(ts2, cur + 1) == 0,
        credited_sum(ts2, cur + 1) == 0,
        count_at_round(ts2, cur + 2) == 0,
        count_at_collect(ts2, cur + 1) == 0,
        forall|j: int| 0 <= j < n ==> task_wf(#[trigger] ts2[j], cur + 1, pool, n),
{
    let fd = |t: Task| debit_contrib(t, cur);
    let fc = |t: Task| credit_contrib(t, cur);
    let fr = |t: Task| return_contrib(t, cur);
    let fi = |t: Task| investor_contrib(t);
    let q = base / n;
    // Every investor has debited exactly one share of the round-start balance.
    assert forall|j: int| 0 <= j < ts2.len() implies #[trigger] fd(ts2[j]) == q * fi(ts2[j]) by {
        assert(task_wf(ts2[j], cur, base, n));
        if is_investor(ts2[j]) {
            assert(has_debited(ts2[j], cur));
            assert(q * 1 == q) by (nonlinear_arith);
        } else {
            assert(q * 0 == 0) by (nonlinear_arith);
        }
    }
    lemma_sum_scaled(ts2, fd, fi, q);
    // Every investor has ledger exactly the return it recorded for `cur`.
    assert forall|j: int| 0 <= j < ts2.len() implies #[trigger] fc(ts2[j]) == fr(ts2[j]) by {
        assert(task_wf(ts2[j], cur, base, n));
    }
    lemma_sum_congruent(ts2, fc, fr);
    assert(debited_sum(ts2, cur) == q * investor_count(ts2));
    assert(credited_sum(ts2, cur) == round_return_sum(ts2, cur));
    assert(balance_at(init, n, ts2, cur + 1) == base - investor_count(ts2) * q + round_return_sum(
        ts2,
        cur,
    ));
    assert(q * investor_count(ts2) == investor_count(ts2) * q) by (nonlinear_arith);
    // The new window starts with nothing debited, ledger, or ahead.
    assert forall|j: int| 0 <= j < ts2.len() implies !has_debited(#[trigger] ts2[j], cur + 1) by {
        assert(task_wf(ts2[j], cur, base, n));
    }
    lemma_sums_zero(ts2, cur + 1);
    lemma_round_count_zero(ts2, cur + 2);
    lemma_collect_count_zero(ts2, cur + 1);
    assert forall|j: int| 0 <= j < n implies task_wf(#[trigger] ts2[j], cur + 1, pool, n) by {
        assert(task_wf(ts2[j], cur, base, n));
    }
}

impl System {
    /// Creates a coordinator for `investors` participant connections, an
    /// optional observer (which attends both rendezvous and so raises the
    /// division denominator by one), and an initial pool balance.  Every task
    /// starts in round 0 at the distribute rendezvous, which is released from
    /// the start: the whole participant set is present at creation.
    pub fn new(investors: usize, with_observer: bool, initial: i64) -> (s: System)
        requires
            1 <= investors + (if with_observer {
                1int
            } else {
                0int
            }) <= 0x7fff_ffff_ffff_ffff,
            investors < usize::MAX,
        ensures
            s.wf(),
            s.pool.balance == initial,
            s.initial@ == initial,
            s.base@ == initial,
            s.cur() == 0,
            s.n() == investors + (if with_observer {
                1int
            } else {
                0int
            }),
            investor_count(s.tasks@) == investors,
            forall|j: int|
                0 <= j < s.n() ==> (#[trigger] s.tasks@[j]).round == 0
                    && s.tasks@[j].phase is AwaitDistribute && s.tasks@[j].live,
            forall|j: int| 0 <= j < investors ==> is_investor(#[trigger] s.tasks@[j]),
            with_observer ==> !is_investor(s.tasks@[s.n() - 1]),
    {
        let n: usize = if with_observer {
            investors + 1
        } else {
            investors
        };
        let mut tasks: Vec<Task> = Vec::new();
        let mut k: usize = 0;
        while k < investors
            invariant
                k <= investors,
                tasks@.len() == k,
                forall|j: int|
                    0 <= j < k ==> is_investor(#[trigger] tasks@[j]) && tasks@[j].live
                        && tasks@[j].round == 0 && tasks@[j].phase is AwaitDistribute
                        && tasks@[j].ledger@.len() == 0,
                investor_count(tasks@) == k,
                count_at_round(tasks@, 1) == 0,
                count_at_collect(tasks@, 0) == 0,
                debited_sum(tasks@, 0) == 0,
                credited_sum(tasks@, 0) == 0,
            decreases investors - k,
        {
            let t = Task {
                role: Role::Investor,
                live: true,
                round: 0,
                phase: Phase::AwaitDistribute,
                share: 0,
                ret: 0,
                ledger: Ghost(Seq::empty()),
            };
            let ghost ts0 = tasks@;
            tasks.push(t);
            proof {
                lemma_sums_push(ts0, t, 0, 1, 0);
                lemma_sums_push(ts0, t, 0, 0, 0);
            }
            k = k + 1;
        }
        if with_observer {
            let t = Task {
                role: Role::Observer,
                live: true,
                round: 0,
                phase: Phase::AwaitDistribute,
                share: 0,
                ret: 0,
                ledger: Ghost(Seq::empty()),
            };
            let ghost ts0 = tasks@;
            tasks.push(t);
            proof {
                lemma_sums_push(ts0, t, 0, 1, 0);
                lemma_sums_push(ts0, t, 0, 0, 0);
            }
        }
        let s = System {
            pool: Pool::new(initial),
            dist: Barrier { expected: n, arrived: 0, generation: 1 },
            coll: Barrier { expected: n, arrived: 0, generation: 0 },
            tasks,
            base: Ghost(initial as int),
            initial: Ghost(initial as int),
        };
        proof {
            assert forall|j: int| 0 <= j < s.n() implies task_wf(
                #[trigger] s.tasks@[j],
                0,
                initial as int,
                s.n(),
            ) by {}
        }
        s
    }

    /// Reads the current pool balance.
    pub fn balance(&self) -> (b: i64)
        ensures
            b == self.pool.balance,
    {
        self.pool.read()
    }

    /// The fixed number of rendezvous attendees: the equal-division
    /// denominator.
    pub fn participant_count(&self) -> (c: usize)
        ensures
            c == self.tasks@.len(),
    {
        self.tasks.len()
    }

    /// Whether task `i` may pass the distribute rendezvous: it is waiting
    /// there and its round has been released.
    pub fn can_pass_distribute(&self, i: usize) -> (b: bool)
        requires
            i < self.tasks@.len(),
        ensures
            b == (self.tasks@[i as int].live && self.tasks@[i as int].phase is AwaitDistribute
                && self.tasks@[i as int].round < self.dist.generation),
    {
        let t = &self.tasks[i];
        t.live && matches!(t.phase, Phase::AwaitDistribute) && self.dist.is_open(t.round)
    }

    /// Whether task `i` may pass the collect rendezvous.
    pub fn can_pass_collect(&self, i: usize) -> (b: bool)
        requires
            i < self.tasks@.len(),
        ensures
            b == (self.tasks@[i as int].live && self.tasks@[i as int].phase is AwaitCollect
                && self.tasks@[i as int].round < self.coll.generation),
    {
        let t = &self.tasks[i];
        t.live && matches!(t.phase, Phase::AwaitCollect) && self.coll.is_open(t.round)
    }

    /// Investor `i` passes the released distribute rendezvous and computes
    /// its share for the round: the floor of the round-start balance divided
    /// by the participant count.  Every task of the round computes the same
    /// share, because no debit or credit of the round can precede the collect
    /// rendezvous: the balance read here is exactly the round-start balance.
    pub fn begin_round(&mut self, i: usize) -> (share: i64)
        requires
            old(self).wf(),
            i < old(self).tasks@.len(),
            is_investor(old(self).tasks@[i as int]),
            old(self).tasks@[i as int].phase is AwaitDistribute,
            old(self).step_enabled(i as int),
        ensures
            final(self).wf(),
            share == old(self).base@ / old(self).n(),
            final(self).tasks@ == old(self).tasks@.update(
                i as int,
                (Task { phase: Phase::SendShare, share: share, ..old(self).tasks@[i as int] }),
            ),
            final(self).pool == old(self).pool,
            final(self).dist == old(self).dist,
            final(self).coll == old(self).coll,
            final(self).base == old(self).base,
            final(self).initial == old(self).initial,
    {
        let ghost ts = self.tasks@;
        let ghost cur = self.cur();
        let ghost n = self.n();
        let ghost base = self.base@;
        proof {
            assert(task_wf(ts[i as int], cur, base, n));
            if self.coll.generation == cur + 1 {
                assert(phase_idx(ts[i as int].phase) >= 2);
            }
            assert(self.coll.generation == cur);
            assert forall|j: int| 0 <= j < n implies !has_debited(#[trigger] ts[j], cur) by {
                assert(ts[j].round == cur && phase_idx(ts[j].phase) <= 2);
            }
            lemma_sums_zero(ts, cur);
            assert(self.pool.balance == base);
        }
        let n64: i64 = self.dist.expected as i64;
        let share = floor_div(self.pool.read(), n64);
        let t = self.tasks[i];
        let t2 = Task { phase: Phase::SendShare, share: share, ..t };
        self.tasks[i] = t2;
        proof {
            let ts2 = self.tasks@;
            lemma_sums_update(ts, i as int, t2, cur, cur + 1, 0);
            lemma_sums_update(ts, i as int, t2, cur, cur, 0);
            lemma_balance_at_update(self.initial@, n, ts, i as int, t2, cur);
            assert forall|j: int| 0 <= j < n implies task_wf(#[trigger] ts2[j], cur, base, n) by {
                if j != i as int {
                    assert(task_wf(ts[j], cur, base, n));
                }
            }
        }
        share
    }

    /// The observer passes the released distribute rendezvous, reads the
    /// round-start balance for reporting, and arrives at the collect
    /// rendezvous.  It mutates nothing but the rendezvous count.
    pub fn observe(&mut self, i: usize) -> (b: i64)
        requires
            old(self).wf(),
            i < old(self).tasks@.len(),
            !is_investor(old(self).tasks@[i as int]),
            old(self).tasks@[i as int].phase is AwaitDistribute,
            old(self).step_enabled(i as int),
        ensures
            final(self).wf(),
            b == old(self).base@,
            b == old(self).pool.balance,
            final(self).tasks@ == old(self).tasks@.update(
                i as int,
                (Task { phase: Phase::AwaitCollect, ..old(self).tasks@[i as int] }),
            ),
            final(self).pool == old(self).pool,
            final(self).dist == old(self).dist,
            final(self).base == old(self).base,
            final(self).initial == old(self).initial,
            final(self).cur() == old(self).cur(),
    {
        let ghost ts = self.tasks@;
        let ghost cur = self.cur();
        let ghost n = self.n();
        let ghost base = self.base@;
        proof {
            assert(task_wf(ts[i as int], cur, base, n));
            if self.coll.generation == cur + 1 {
                assert(phase_idx(ts[i as int].phase) >= 2);
            }
            assert(self.coll.generation == cur);
            assert forall|j: int| 0 <= j < n implies !has_debited(#[trigger] ts[j], cur) by {
                assert(ts[j].round == cur && phase_idx(ts[j].phase) <= 2);
            }
            lemma_sums_zero(ts, cur);
            assert(self.pool.balance == base);
        }
        let b = self.pool.read();
        let t = self.tasks[i];
        let t2 = Task { phase: Phase::AwaitCollect, ..t };
        self.tasks[i] = t2;
        let released = self.coll.arrive();
        proof {
            let ts2 = self.tasks@;
            lemma_sums_update(ts, i as int, t2, cur, cur + 1, 0);
            lemma_sums_update(ts, i as int, t2, cur, cur, 0);
            lemma_balance_at_update(self.initial@, n, ts, i as int, t2, cur);
            assert forall|j: int| 0 <= j < n implies task_wf(#[trigger] ts2[j], cur, base, n) by {
                if j != i as int {
                    assert(task_wf(ts[j], cur, base, n));
                }
            }
            if released {
                assert(count_at_collect(ts2, cur) == self.coll.expected);
                lemma_collect_count_full(ts2, cur);
            }
        }
        b
    }

    /// Investor `i` has finished writing its share line: on success it
    /// arrives at the collect rendezvous; on a write failure the handler is
    /// dead and will never arrive anywhere again.
    pub fn record_send(&mut self, i: usize, ok: bool)
        requires
            old(self).wf(),
            i < old(self).tasks@.len(),
            old(self).tasks@[i as int].live,
            is_investor(old(self).tasks@[i as int]),
            old(self).tasks@[i as int].phase is SendShare,
        ensures
            final(self).wf(),
            ok ==> final(self).tasks@ == old(self).tasks@.update(
                i as int,
                (Task { phase: Phase::AwaitCollect, ..old(self).tasks@[i as int] }),
            ),
            !ok ==> final(self).tasks@ == old(self).tasks@.update(
                i as int,
                (Task { live: false, ..old(self).tasks@[i as int] }),
            ),
            final(self).pool == old(self).pool,
            final(self).dist == old(self).dist,
            final(self).base == old(self).base,
            final(self).initial == old(self).initial,
            final(self).cur() == old(self).cur(),
    {
        let ghost ts = self.tasks@;
        let ghost cur = self.cur();
        let ghost n = self.n();
        let ghost base = self.base@;
        proof {
            assert(task_wf(ts[i as int], cur, base, n));
            if self.coll.generation == cur + 1 {
                assert(phase_idx(ts[i as int].phase) >= 2);
            }
            assert(self.coll.generation == cur);
        }
        let t = self.tasks[i];
        if ok {
            let t2 = Task { phase: Phase::AwaitCollect, ..t };
            self.tasks[i] = t2;
            let released = self.coll.arrive();
            proof {
                let ts2 = self.tasks@;
                lemma_sums_update(ts, i as int, t2, cur, cur + 1, 0);
                lemma_sums_update(ts, i as int, t2, cur, cur, 0);
                lemma_balance_at_update(self.initial@, n, ts, i as int, t2, cur);
                assert forall|j: int| 0 <= j < n implies task_wf(
                    #[trigger] ts2[j],
                    cur,
                    base,
                    n,
                ) by {
                    if j != i as int {
                        assert(task_wf(ts[j], cur, base, n));
                    }
                }
                if released {
                    assert(count_at_collect(ts2, cur) == self.coll.expected);
                    lemma_collect_count_full(ts2, cur);
                }
            }
        } else {
            let t2 = Task { live: false, ..t };
            self.tasks[i] = t2;
            proof {
                let ts2 = self.tasks@;
                lemma_sums_update(ts, i as int, t2, cur, cur + 1, 0);
                lemma_sums_update(ts, i as int, t2, cur, cur, 0);
                lemma_balance_at_update(self.initial@, n, ts, i as int, t2, cur);
                assert forall|j: int| 0 <= j < n implies task_wf(
                    #[trigger] ts2[j],
                    cur,
                    base,
                    n,
                ) by {
                    if j != i as int {
                        assert(task_wf(ts[j], cur, base, n));
                    }
                }
            }
        }
    }

    /// Task `i` passes the released collect rendezvous.  An investor goes on
    /// to debit the share it sent; the observer is done with the round, so it
    /// enters the next round and arrives at the distribute rendezvous (the
    /// arrival that completes the attendance opens the next round and fixes
    /// its round-start balance).
    pub fn pass_collect(&mut self, i: usize)
        requires
            old(self).wf(),
            i < old(self).tasks@.len(),
            old(self).tasks@[i as int].phase is AwaitCollect,
            old(self).step_enabled(i as int),
            old(self).dist.generation < u64::MAX,
        ensures
            final(self).wf(),
            final(self).pool == old(self).pool,
            final(self).initial == old(self).initial,
            is_investor(old(self).tasks@[i as int]) ==> {
                &&& final(self).tasks@ == old(self).tasks@.update(
                    i as int,
                    (Task { phase: Phase::DebitShare, ..old(self).tasks@[i as int] }),
                )
                &&& final(self).dist == old(self).dist
                &&& final(self).base == old(self).base
                &&& final(self).cur() == old(self).cur()
            },
            !is_investor(old(self).tasks@[i as int]) ==> {
                &&& final(self).tasks@ == old(self).tasks@.update(
                    i as int,
                    (Task {
                        round: (old(self).tasks@[i as int].round + 1) as u64,
                        phase: Phase::AwaitDistribute,
                        ..old(self).tasks@[i as int]
                    }),
                )
                &&& if count_at_round(old(self).tasks@, old(self).cur() + 1) + 1 == old(self).n() {
                    final(self).cur() == old(self).cur() + 1 && final(self).base@ == final(self).pool.balance
                } else {
                    final(self).cur() == old(self).cur() && final(self).base == old(self).base
                }
            },
    {
        let ghost ts = self.tasks@;
        let ghost cur = self.cur();
        let ghost n = self.n();
        let ghost base = self.base@;
        proof {
            assert(task_wf(ts[i as int], cur, base, n));
            if self.coll.generation == cur {
                assert(ts[i as int].round == cur && phase_idx(ts[i as int].phase) <= 2);
            }
            assert(self.coll.generation == cur + 1);
            assert(ts[i as int].round == cur);
        }
        let t = self.tasks[i];
        match t.role {
            Role::Investor => {
                let t2 = Task { phase: Phase::DebitShare, ..t };
                self.tasks[i] = t2;
                proof {
                    let ts2 = self.tasks@;
                    lemma_sums_update(ts, i as int, t2, cur, cur + 1, 0);
                    lemma_sums_update(ts, i as int, t2, cur, cur, 0);
                    lemma_balance_at_update(self.initial@, n, ts, i as int, t2, cur);
                    assert forall|j: int| 0 <= j < n implies task_wf(
                        #[trigger] ts2[j],
                        cur,
                        base,
                        n,
                    ) by {
                        if j != i as int {
                            assert(task_wf(ts[j], cur, base, n));
                        }
                    }
                }
            },
            Role::Observer => {
                let t2 = Task { round: t.round + 1, phase: Phase::AwaitDistribute, ..t };
                self.tasks[i] = t2;
                let released = self.dist.arrive();
                proof {
                    let ts2 = self.tasks@;
                    lemma_sums_update(ts, i as int, t2, cur, cur + 1, 0);
                    lemma_sums_update(ts, i as int, t2, cur, cur, 0);
                    lemma_balance_at_update(self.initial@, n, ts, i as int, t2, cur);
                    assert forall|j: int| 0 <= j < n implies task_wf(
                        #[trigger] ts2[j],
                        cur,
                        base,
                        n,
                    ) by {
                        if j != i as int {
                            assert(task_wf(ts[j], cur, base, n));
                        }
                    }
                    if released {
                        assert(count_at_round(ts2, cur + 1) == n);
                        lemma_round_count_full(ts2, cur + 1);
                        lemma_window_advance(
                            self.pool.balance as int,
                            base,
                            self.initial@,
                            n,
                            ts2,
                            cur,
                        );
                    }
                }
                if released {
                    self.base = Ghost(self.pool.balance as int);
                }
            },
        }
    }

    /// Investor `i` subtracts the share it sent from the pool.  The debits of
    /// a round happen only after every task has arrived at the collect
    /// rendezvous, so no share computation of the round can have observed a
    /// partially debited balance.
    pub fn apply_debit(&mut self, i: usize)
        requires
            old(self).wf(),
            i < old(self).tasks@.len(),
            old(self).tasks@[i as int].live,
            is_investor(old(self).tasks@[i as int]),
            old(self).tasks@[i as int].phase is DebitShare,
            i64::MIN <= old(self).pool.balance - old(self).tasks@[i as int].share <= i64::MAX,
        ensures
            final(self).wf(),
            final(self).pool.balance == old(self).pool.balance - old(self).tasks@[i as int].share,
            final(self).tasks@ == old(self).tasks@.update(
                i as int,
                (Task { phase: Phase::ReceiveReturn, ..old(self).tasks@[i as int] }),
            ),
            final(self).dist == old(self).dist,
            final(self).coll == old(self).coll,
            final(self).base == old(self).base,
            final(self).initial == old(self).initial,
            final(self).cur() == old(self).cur(),
    {
        let ghost ts = self.tasks@;
        let ghost cur = self.cur();
        let ghost n = self.n();
        let ghost base = self.base@;
        proof {
            assert(task_wf(ts[i as int], cur, base, n));
            if self.coll.generation == cur {
                assert(ts[i as int].round == cur && phase_idx(ts[i as int].phase) <= 2);
            }
            assert(self.coll.generation == cur + 1);
        }
        let t = self.tasks[i];
        self.pool.debit(t.share);
        let t2 = Task { phase: Phase::ReceiveReturn, ..t };
        self.tasks[i] = t2;
        proof {
            let ts2 = self.tasks@;
            lemma_sums_update(ts, i as int, t2, cur, cur + 1, 0);
            lemma_sums_update(ts, i as int, t2, cur, cur, 0);
            lemma_balance_at_update(self.initial@, n, ts, i as int, t2, cur);
            assert forall|j: int| 0 <= j < n implies task_wf(#[trigger] ts2[j], cur, base, n) by {
                if j != i as int {
                    assert(task_wf(ts[j], cur, base, n));
                }
            }
        }
    }

    /// Investor `i` has finished reading its participant's line: a parsed
    /// return moves it on to the credit step; a read failure or a malformed
    /// line kills the handler, exactly like a write failure.
    pub fn record_return(&mut self, i: usize, outcome: Option<i64>)
        requires
            old(self).wf(),
            i < old(self).tasks@.len(),
            old(self).tasks@[i as int].live,
            is_investor(old(self).tasks@[i as int]),
            old(self).tasks@[i as int].phase is ReceiveReturn,
        ensures
            final(self).wf(),
            (match outcome {
                Some(d) => final(self).tasks@ == old(self).tasks@.update(
                    i as int,
                    (Task { phase: Phase::CreditReturn, ret: d, ..old(self).tasks@[i as int] }),
                ),
                None => final(self).tasks@ == old(self).tasks@.update(
                    i as int,
                    (Task { live: false, ..old(self).tasks@[i as int] }),
                ),
            }),
            final(self).pool == old(self).pool,
            final(self).dist == old(self).dist,
            final(self).coll == old(self).coll,
            final(self).base == old(self).base,
            final(self).initial == old(self).initial,
            final(self).cur() == old(self).cur(),
    {
        let ghost ts = self.tasks@;
        let ghost cur = self.cur();
        let ghost n = self.n();
        let ghost base = self.base@;
        proof {
            assert(task_wf(ts[i as int], cur, base, n));
            if self.coll.generation == cur {
                assert(ts[i as int].round == cur && phase_idx(ts[i as int].phase) <= 2);
            }
            assert(self.coll.generation == cur + 1);
        }
        let t = self.tasks[i];
        let t2 = match outcome {
            Some(d) => Task { phase: Phase::CreditReturn, ret: d, ..t },
            None => Task { live: false, ..t },
        };
        self.tasks[i] = t2;
        proof {
            let ts2 = self.tasks@;
            lemma_sums_update(ts, i as int, t2, cur, cur + 1, 0);
            lemma_sums_update(ts, i as int, t2, cur, cur, 0);
            lemma_balance_at_update(self.initial@, n, ts, i as int, t2, cur);
            assert forall|j: int| 0 <= j < n implies task_wf(#[trigger] ts2[j], cur, base, n) by {
                if j != i as int {
                    assert(task_wf(ts[j], cur, base, n));
                }
            }
        }
    }

    /// Investor `i` folds the parsed return into the pool (a negative return
    /// is a net withdrawal), completes its round, and arrives at the next
    /// round's distribute rendezvous.  No rendezvous separates a credit from
    /// the next round: a fast handler may wait at the next round's rendezvous
    /// while a slow peer is still reading, but the rendezvous cannot release
    /// until every handler's credit is in.
    pub fn apply_credit(&mut self, i: usize)
        requires
            old(self).wf(),
            i < old(self).tasks@.len(),
            old(self).tasks@[i as int].live,
            is_investor(old(self).tasks@[i as int]),
            old(self).tasks@[i as int].phase is CreditReturn,
            i64::MIN <= old(self).pool.balance + old(self).tasks@[i as int].ret <= i64::MAX,
            old(self).dist.generation < u64::MAX,
        ensures
            final(self).wf(),
            final(self).pool.balance == old(self).pool.balance + old(self).tasks@[i as int].ret,
            final(self).tasks@ == old(self).tasks@.update(
                i as int,
                (Task {
                    round: (old(self).tasks@[i as int].round + 1) as u64,
                    phase: Phase::AwaitDistribute,
                    ledger: Ghost(
                        old(self).tasks@[i as int].ledger@.push(
                            old(self).tasks@[i as int].ret as int,
                        ),
                    ),
                    ..old(self).tasks@[i as int]
                }),
            ),
            final(self).initial == old(self).initial,
            if count_at_round(old(self).tasks@, old(self).cur() + 1) + 1 == old(self).n() {
                final(self).cur() == old(self).cur() + 1 && final(self).base@ == final(self).pool.balance
            } else {
                final(self).cur() == old(self).cur() && final(self).base == old(self).base
            },
    {
        let ghost ts = self.tasks@;
        let ghost cur = self.cur();
        let ghost n = self.n();
        let ghost base = self.base@;
        proof {
            assert(task_wf(ts[i as int], cur, base, n));
            if self.coll.generation == cur {
                assert(ts[i as int].round == cur && phase_idx(ts[i as int].phase) <= 2);
            }
            assert(self.coll.generation == cur + 1);
            assert(ts[i as int].round == cur);
        }
        let t = self.tasks[i];
        self.pool.apply(t.ret);
        let t2 = Task {
            round: t.round + 1,
            phase: Phase::AwaitDistribute,
            ledger: Ghost(t.ledger@.push(t.ret as int)),
            ..t
        };
        self.tasks[i] = t2;
        let released = self.dist.arrive();
        proof {
            let ts2 = self.tasks@;
            lemma_sums_update(ts, i as int, t2, cur, cur + 1, 0);
            lemma_sums_update(ts, i as int, t2, cur, cur, 0);
            lemma_balance_at_update(self.initial@, n, ts, i as int, t2, cur);
            assert forall|j: int| 0 <= j < n implies task_wf(#[trigger] ts2[j], cur, base, n) by {
                if j != i as int {
                    assert(task_wf(ts[j], cur, base, n));
                }
            }
            if released {
                assert(count_at_round(ts2, cur + 1) == n);
                lemma_round_count_full(ts2, cur + 1);
                lemma_window_advance(self.pool.balance as int, base, self.initial@, n, ts2, cur);
            }
        }
        if released {
            self.base = Ghost(self.pool.balance as int);
        }
    }

    /// Investor `i` has read one raw line from its connection: parse it as a
    /// signed return and record the outcome.  A malformed or out-of-range
    /// line kills the handler, exactly as the protocol demands; a valid line
    /// moves it on to the credit step with the parsed value.
    pub fn receive_line(&mut self, i: usize, line: &str) -> (ok: bool)
        requires
            old(self).wf(),
            i < old(self).tasks@.len(),
            old(self).tasks@[i as int].live,
            is_investor(old(self).tasks@[i as int]),
            old(self).tasks@[i as int].phase is ReceiveReturn,
        ensures
            final(self).wf(),
            ok == wire::valid_return_line(line.spec_bytes()),
            ok ==> final(self).tasks@ == old(self).tasks@.update(
                i as int,
                (Task {
                    phase: Phase::CreditReturn,
                    ret: (wire::return_line_value(line.spec_bytes()) as i64),
                    ..old(self).tasks@[i as int]
                }),
            ),
            !ok ==> final(self).tasks@ == old(self).tasks@.update(
                i as int,
                (Task { live: false, ..old(self).tasks@[i as int] }),
            ),
            final(self).pool == old(self).pool,
            final(self).dist == old(self).dist,
            final(self).coll == old(self).coll,
            final(self).base == old(self).base,
            final(self).initial == old(self).initial,
            final(self).cur() == old(self).cur(),
    {
        match wire::parse_return(line) {
            Ok(d) => {
                self.record_return(i, Some(d));
                true
            },
            Err(_) => {
                self.record_return(i, None);
                false
            },
        }
    }
}

} // verus!
