//! The ledger's global guarantees, proved once over the mathematical model
//! that every operation's contract is stated in: conservation of funds over
//! arbitrary operation sequences, at-most-once crediting of external
//! transactions, and the exactness of pool withdrawals.

use vstd::prelude::*;

use crate::assoc::bal;
use crate::assoc::lemma_map_remove;
use crate::assoc::lemma_map_remove_sum;
use crate::assoc::lemma_map_set;
use crate::assoc::lemma_map_set_sum;
use crate::assoc::map_at;
use crate::assoc::map_contains;
use crate::assoc::map_distinct;
use crate::assoc::map_remove;
use crate::assoc::map_set;
use crate::assoc::map_sum;
use crate::ledger::deduct_one;
use crate::ledger::funding_total;
use crate::ledger::outcome_applied;
use crate::ledger::greedy_take;
use crate::ledger::lemma_deduct_one;
use crate::ledger::lemma_greedy_applicable;
use crate::ledger::lemma_greedy_sum;
use crate::ledger::plan_applicable;
use crate::ledger::pool_deducted;
use crate::ledger::pool_sorted;
use crate::ledger::reconcile_accepts;
use crate::ledger::reconcile_drained;
use crate::ledger::reconcile_unclaimed;
use crate::types::alloc_total;
use crate::types::lemma_lex_irrefl;
use crate::types::lex_lt;
use crate::types::L2Account;

verus! {

// ---------------------------------------------------------------------------
// Conservation
// ---------------------------------------------------------------------------

/// One operation on the holdings map, as the operations' contracts describe
/// it: a deposit credits an amount to a funding key (and is refused, changing
/// nothing, when the balance would no longer fit the amount type); a
/// withdrawal removes a funding's entry, paying out its whole balance; a
/// registration overwrites a channel's holdings with a settled allocation,
/// and is applied only when the channel's funding covers that allocation.
pub enum HoldingsOp {
    Deposit { key: (Seq<u8>, Seq<u8>), amount: u64 },
    Withdraw { key: (Seq<u8>, Seq<u8>) },
    Register { ck: Seq<u8>, ps: Seq<L2Account>, alloc: Seq<u64> },
}

/// Registrations carry pairwise distinct participants; the other operations
/// have no such side condition.
pub open spec fn op_wf(op: HoldingsOp) -> bool {
    match op {
        HoldingsOp::Register { ck, ps, alloc } => forall|i: int, j: int|
            0 <= i < j < ps.len() ==> ps[i].0@ != ps[j].0@,
        _ => true,
    }
}

/// The holdings map after one operation.
pub open spec fn apply_holdings_op(
    hv: Seq<((Seq<u8>, Seq<u8>), u64)>,
    op: HoldingsOp,
) -> Seq<((Seq<u8>, Seq<u8>), u64)> {
    match op {
        HoldingsOp::Deposit { key, amount } => if bal(hv, key) + amount <= u64::MAX {
            map_set(hv, key, (bal(hv, key) + amount) as u64)
        } else {
            hv
        },
        HoldingsOp::Withdraw { key } => map_remove(hv, key),
        HoldingsOp::Register { ck, ps, alloc } => if ps.len() == alloc.len() && funding_total(
            hv,
            ck,
            ps,
        ) >= alloc_total(alloc) {
            outcome_applied(hv, ck, ps, alloc, ps.len() as int)
        } else {
            hv
        },
    }
}

/// The holdings map after a sequence of operations, applied in order.
pub open spec fn apply_holdings_ops(
    hv: Seq<((Seq<u8>, Seq<u8>), u64)>,
    ops: Seq<HoldingsOp>,
) -> Seq<((Seq<u8>, Seq<u8>), u64)>
    decreases ops.len(),
{
    if ops.len() == 0 {
        hv
    } else {
        apply_holdings_ops(apply_holdings_op(hv, ops[0]), ops.drop_first())
    }
}

/// The total amount the run credits: each deposit that is accepted at the
/// state it meets contributes its amount.
pub open spec fn credited(hv: Seq<((Seq<u8>, Seq<u8>), u64)>, ops: Seq<HoldingsOp>) -> nat
    decreases ops.len(),
{
    if ops.len() == 0 {
        0
    } else {
        let now: nat = match ops[0] {
            HoldingsOp::Deposit { key, amount } => if bal(hv, key) + amount <= u64::MAX {
                amount as nat
            } else {
                0
            },
            _ => 0,
        };
        now + credited(apply_holdings_op(hv, ops[0]), ops.drop_first())
    }
}

/// The total amount the run pays out: each withdrawal contributes the
/// balance its key holds at the state it meets.
pub open spec fn withdrawn(hv: Seq<((Seq<u8>, Seq<u8>), u64)>, ops: Seq<HoldingsOp>) -> nat
    decreases ops.len(),
{
    if ops.len() == 0 {
        0
    } else {
        let now: nat = match ops[0] {
            HoldingsOp::Withdraw { key } => bal(hv, key) as nat,
            _ => 0,
        };
        now + withdrawn(apply_holdings_op(hv, ops[0]), ops.drop_first())
    }
}

/// What one well-formed operation does to distinctness and to the sum: a
/// deposit adds what it credits, a withdrawal removes what it pays out, and
/// a registration never increases the sum, since it is applied only when the
/// channel's funding covers the allocation it writes.
pub proof fn lemma_holdings_op(hv: Seq<((Seq<u8>, Seq<u8>), u64)>, op: HoldingsOp)
    requires
        map_distinct(hv),
        op_wf(op),
    ensures
        map_distinct(apply_holdings_op(hv, op)),
        ({
            let s1 = map_sum(apply_holdings_op(hv, op));
            match op {
                HoldingsOp::Deposit { key, amount } => if bal(hv, key) + amount <= u64::MAX {
                    s1 == map_sum(hv) + amount
                } else {
                    s1 == map_sum(hv)
                },
                HoldingsOp::Withdraw { key } => s1 + bal(hv, key) == map_sum(hv),
                HoldingsOp::Register { ck, ps, alloc } => s1 <= map_sum(hv),
            }
        }),
{
    match op {
        HoldingsOp::Deposit { key, amount } => {
            if bal(hv, key) + amount <= u64::MAX {
                lemma_map_set(hv, key, (bal(hv, key) + amount) as u64);
                lemma_map_set_sum(hv, key, (bal(hv, key) + amount) as u64);
            }
        },
        HoldingsOp::Withdraw { key } => {
            lemma_map_remove(hv, key);
            lemma_map_remove_sum(hv, key);
        },
        HoldingsOp::Register { ck, ps, alloc } => {
            if ps.len() == alloc.len() && funding_total(hv, ck, ps) >= alloc_total(alloc) {
                lemma_register_conservation(hv, ck, ps, alloc);
            }
        },
    }
}

/// Conservation: over any sequence of deposits and withdrawals, the funds
/// now held plus the funds withdrawn so far equal the funds held at the
/// start plus the deposits credited so far. Each step of the sequence is
/// exactly what the contracts of `CanisterState::deposit` and
/// `CanisterState::withdraw_and_clear` say those operations do to the
/// holdings model.
pub proof fn lemma_conservation(hv: Seq<((Seq<u8>, Seq<u8>), u64)>, ops: Seq<HoldingsOp>)
    requires
        map_distinct(hv),
        forall|i: int| 0 <= i < ops.len() ==> !((#[trigger] ops[i]) is Register),
    ensures
        map_distinct(apply_holdings_ops(hv, ops)),
        map_sum(apply_holdings_ops(hv, ops)) + withdrawn(hv, ops) == map_sum(hv) + credited(
            hv,
            ops,
        ),
    decreases ops.len(),
{
    if ops.len() > 0 {
        let hv1 = apply_holdings_op(hv, ops[0]);
        lemma_holdings_op(hv, ops[0]);
        assert forall|i: int|
            0 <= i < ops.drop_first().len() implies !((#[trigger] ops.drop_first()[i])
            is Register) by {
            assert(ops.drop_first()[i] == ops[i + 1]);
        }
        lemma_conservation(hv1, ops.drop_first());
    }
}

/// Conservation bound over arbitrary runs: with registrations interleaved,
/// exact equality can be lost, since a fully funded registration discards
/// any funding above its allocation total; what always holds is that the
/// ledger never creates funds: the funds now held plus the funds withdrawn
/// never exceed the funds held at the start plus the deposits credited.
pub proof fn lemma_conservation_bound(hv: Seq<((Seq<u8>, Seq<u8>), u64)>, ops: Seq<HoldingsOp>)
    requires
        map_distinct(hv),
        forall|i: int| 0 <= i < ops.len() ==> op_wf(#[trigger] ops[i]),
    ensures
        map_distinct(apply_holdings_ops(hv, ops)),
        map_sum(apply_holdings_ops(hv, ops)) + withdrawn(hv, ops) <= map_sum(hv) + credited(
            hv,
            ops,
        ),
    decreases ops.len(),
{
    if ops.len() > 0 {
        let hv1 = apply_holdings_op(hv, ops[0]);
        lemma_holdings_op(hv, ops[0]);
        assert forall|i: int|
            0 <= i < ops.drop_first().len() implies op_wf(#[trigger] ops.drop_first()[i]) by {
            assert(ops.drop_first()[i] == ops[i + 1]);
        }
        lemma_conservation_bound(hv1, ops.drop_first());
    }
}

// ---------------------------------------------------------------------------
// No double-credit
// ---------------------------------------------------------------------------

/// No double-credit: once a transaction reference has been consumed by an
/// accepted processing step, processing the same reference again changes
/// neither the unclaimed deposits nor the drained set, and credits nothing,
/// whatever amount, memo or verification outcome the second attempt claims.
/// Each step is exactly what the contract of
/// `CanisterState::process_icrc_tx` says that operation does.
pub proof fn lemma_no_double_credit(
    drained: Seq<u64>,
    uv: Seq<(u64, u64)>,
    tx: u64,
    amount1: u64,
    memo1: u64,
    amount2: u64,
    memo2: u64,
    verified2: bool,
)
    requires
        reconcile_accepts(drained, uv, tx, amount1, memo1, true),
    ensures
        ({
            let uv1 = reconcile_unclaimed(drained, uv, tx, amount1, memo1, true);
            let dr1 = reconcile_drained(drained, uv, tx, amount1, memo1, true);
            &&& !reconcile_accepts(dr1, uv1, tx, amount2, memo2, verified2)
            &&& reconcile_unclaimed(dr1, uv1, tx, amount2, memo2, verified2) == uv1
            &&& reconcile_drained(dr1, uv1, tx, amount2, memo2, verified2) == dr1
        }),
{
    let dr1 = reconcile_drained(drained, uv, tx, amount1, memo1, true);
    assert(dr1 == drained.push(tx));
    assert(dr1[dr1.len() - 1] == tx);
    assert(dr1.contains(tx));
}

/// Settlement gating, exactly-once half: clearing a funding pays out its
/// whole balance and leaves the key absent, so a further withdrawal of the
/// same funding pays exactly 0 and changes nothing. Each step is what the
/// contract of `CanisterState::withdraw_and_clear` says it does.
pub proof fn lemma_withdraw_idempotent(hv: Seq<((Seq<u8>, Seq<u8>), u64)>, k: (Seq<u8>, Seq<u8>))
    requires
        map_distinct(hv),
    ensures
        bal(map_remove(hv, k), k) == 0,
        map_remove(map_remove(hv, k), k) == map_remove(hv, k),
{
    lemma_map_remove(hv, k);
}

// ---------------------------------------------------------------------------
// Pool-withdrawal exactness
// ---------------------------------------------------------------------------

/// Deducting an applicable plan keeps the pool sorted, removes exactly the
/// plan's total, reduces each planned account by exactly its planned take,
/// and touches no other account.
pub proof fn lemma_pool_deducted(pv: Seq<(Seq<u8>, u64)>, plan: Seq<(Seq<u8>, u64)>)
    requires
        pool_sorted(pv),
        plan_applicable(pv, plan),
    ensures
        pool_sorted(pool_deducted(pv, plan)),
        map_sum(pool_deducted(pv, plan)) + map_sum(plan) == map_sum(pv),
        forall|k2: Seq<u8>|
            !map_contains(plan, k2) ==> #[trigger] bal(pool_deducted(pv, plan), k2) == bal(pv, k2),
        forall|i: int|
            0 <= i < plan.len() ==> bal(pool_deducted(pv, plan), (#[trigger] plan[i]).0) == bal(
                pv,
                plan[i].0,
            ) - plan[i].1,
    decreases plan.len(),
{
    if plan.len() > 0 {
        let k = plan[0].0;
        let t = plan[0].1;
        assert(plan[0].1 > 0 && plan[0].1 <= bal(pv, plan[0].0));
        assert(map_contains(pv, k));
        lemma_deduct_one(pv, k, t);
        let pv1 = deduct_one(pv, k, t);
        let rest = plan.drop_first();
        assert forall|j: int| 0 <= j < rest.len() implies (#[trigger] rest[j]).0 != k by {
            assert(rest[j] == plan[j + 1]);
            assert(lex_lt(plan[0].0, plan[j + 1].0));
            lemma_lex_irrefl(rest[j].0);
        }
        assert forall|j: int|
            0 <= j < rest.len() implies (#[trigger] rest[j]).1 > 0 && rest[j].1 <= bal(
            pv1,
            rest[j].0,
        ) by {
            assert(rest[j] == plan[j + 1]);
        }
        assert forall|a: int, b: int| 0 <= a < b < rest.len() implies lex_lt(
            (#[trigger] rest[a]).0,
            (#[trigger] rest[b]).0,
        ) by {
            assert(rest[a] == plan[a + 1]);
            assert(rest[b] == plan[b + 1]);
        }
        lemma_pool_deducted(pv1, rest);
        assert(map_sum(plan) == t + map_sum(rest)) by {
            assert(plan.drop_first() == rest);
        }
        assert forall|k2: Seq<u8>|
            !map_contains(plan, k2) implies #[trigger] bal(pool_deducted(pv, plan), k2) == bal(
            pv,
            k2,
        ) by {
            if k2 == k {
                assert(plan[0].0 == k2);
                assert(map_contains(plan, k2));
            } else {
                if map_contains(rest, k2) {
                    let j = map_at(rest, k2);
                    assert(rest[j] == plan[j + 1]);
                    assert(map_contains(plan, k2));
                }
                assert(!map_contains(rest, k2));
            }
        }
        assert forall|i: int|
            0 <= i < plan.len() implies bal(pool_deducted(pv, plan), (#[trigger] plan[i]).0)
            == bal(pv, plan[i].0) - plan[i].1 by {
            if i == 0 {
                if map_contains(rest, k) {
                    let j = map_at(rest, k);
                    assert(rest[j].0 == k);
                    assert(false);
                }
                assert(bal(pool_deducted(pv1, rest), k) == bal(pv1, k));
            } else {
                assert(plan[i] == rest[i - 1]);
                assert(bal(pool_deducted(pv1, rest), rest[i - 1].0) == bal(pv1, rest[i - 1].0)
                    - rest[i - 1].1);
            }
        }
    }
}

/// Pool-withdrawal exactness: when the pool in total can cover a request,
/// the plan the coordinator computes sums to exactly the requested amount,
/// still fits the pool it was computed from, and committing it removes
/// exactly that amount from the pool. Together with the contract of
/// `CanisterState::withdraw_from_liq_pool` — which leaves the pool untouched
/// on a failed transfer — this is the atomicity of pool withdrawals.
pub proof fn lemma_pool_withdrawal_exact(pv: Seq<(Seq<u8>, u64)>, amount: u64)
    requires
        pool_sorted(pv),
        map_sum(pv) >= amount,
    ensures
        ({
            let plan = greedy_take(pv, amount as nat);
            &&& map_sum(plan) == amount
            &&& plan_applicable(pv, plan)
            &&& map_sum(pool_deducted(pv, plan)) + amount == map_sum(pv)
            &&& pool_sorted(pool_deducted(pv, plan))
        }),
{
    lemma_greedy_sum(pv, amount as nat);
    lemma_greedy_applicable(pv, amount as nat);
    lemma_pool_deducted(pv, greedy_take(pv, amount as nat));
}


// ---------------------------------------------------------------------------
// Registration conservation
// ---------------------------------------------------------------------------

/// Whether `k2` is one of the first `n` holdings keys a channel outcome
/// writes: the channel id paired with one of the first `n` participants.
pub open spec fn outcome_writes(ck: Seq<u8>, ps: Seq<L2Account>, n: int, k2: (Seq<u8>, Seq<u8>))
    -> bool {
    exists|i: int| 0 <= i < n && k2 == (ck, ps[i].0@)
}

/// A funding total over one more participant adds that participant's balance.
pub proof fn lemma_funding_total_snoc(
    hv: Seq<((Seq<u8>, Seq<u8>), u64)>,
    ck: Seq<u8>,
    ps: Seq<L2Account>,
    p: L2Account,
)
    ensures
        funding_total(hv, ck, ps.push(p)) == funding_total(hv, ck, ps) + bal(hv, (ck, p.0@)),
    decreases ps.len(),
{
    if ps.len() == 0 {
        assert(ps.push(p)[0] == p);
        assert(ps.push(p).drop_first() =~= ps);
    } else {
        assert(ps.push(p)[0] == ps[0]);
        assert(ps.push(p).drop_first() =~= ps.drop_first().push(p));
        lemma_funding_total_snoc(hv, ck, ps.drop_first(), p);
    }
}

/// An allocation total over one more entry adds that entry.
pub proof fn lemma_alloc_total_snoc(a: Seq<u64>, x: u64)
    ensures
        alloc_total(a.push(x)) == alloc_total(a) + x,
    decreases a.len(),
{
    if a.len() == 0 {
        assert(a.push(x)[0] == x);
        assert(a.push(x).drop_first() =~= a);
    } else {
        assert(a.push(x)[0] == a[0]);
        assert(a.push(x).drop_first() =~= a.drop_first().push(x));
        lemma_alloc_total_snoc(a.drop_first(), x);
    }
}

/// When a map holds exactly an allocation at a channel's participant keys,
/// the channel's funding total is the allocation's total.
pub proof fn lemma_funding_total_of_alloc(
    t: Seq<((Seq<u8>, Seq<u8>), u64)>,
    ck: Seq<u8>,
    ps: Seq<L2Account>,
    alloc: Seq<u64>,
)
    requires
        ps.len() == alloc.len(),
        forall|i: int| 0 <= i < ps.len() ==> bal(t, (ck, (#[trigger] ps[i]).0@)) == alloc[i],
    ensures
        funding_total(t, ck, ps) == alloc_total(alloc),
    decreases ps.len(),
{
    if ps.len() > 0 {
        assert forall|i: int|
            0 <= i < ps.drop_first().len() implies bal(
            t,
            (ck, (#[trigger] ps.drop_first()[i]).0@),
        ) == alloc.drop_first()[i] by {
            assert(ps.drop_first()[i] == ps[i + 1]);
            assert(alloc.drop_first()[i] == alloc[i + 1]);
        }
        lemma_funding_total_of_alloc(t, ck, ps.drop_first(), alloc.drop_first());
    }
}

/// What writing a channel outcome into the holdings does, participant by
/// participant: each written key holds exactly its allocation entry, every
/// other key is untouched, and the sum shifts by the allocation total minus
/// what the written keys held before.
pub proof fn lemma_outcome_applied(
    hv: Seq<((Seq<u8>, Seq<u8>), u64)>,
    ck: Seq<u8>,
    ps: Seq<L2Account>,
    alloc: Seq<u64>,
    n: int,
)
    requires
        map_distinct(hv),
        0 <= n <= ps.len(),
        ps.len() == alloc.len(),
        forall|i: int, j: int| 0 <= i < j < ps.len() ==> ps[i].0@ != ps[j].0@,
    ensures
        ({
            let t = outcome_applied(hv, ck, ps, alloc, n);
            &&& map_distinct(t)
            &&& forall|i: int| 0 <= i < n ==> bal(t, (ck, (#[trigger] ps[i]).0@)) == alloc[i]
            &&& forall|k2: (Seq<u8>, Seq<u8>)|
                !outcome_writes(ck, ps, n, k2) ==> #[trigger] bal(t, k2) == bal(hv, k2)
            &&& map_sum(t) + funding_total(hv, ck, ps.take(n)) == map_sum(hv) + alloc_total(
                alloc.take(n),
            )
        }),
    decreases n,
{
    if n == 0 {
        assert(ps.take(0) =~= Seq::<L2Account>::empty());
        assert(alloc.take(0) =~= Seq::<u64>::empty());
    } else {
        lemma_outcome_applied(hv, ck, ps, alloc, n - 1);
        let t0 = outcome_applied(hv, ck, ps, alloc, n - 1);
        let key = (ck, ps[n - 1].0@);
        let t = outcome_applied(hv, ck, ps, alloc, n);
        assert(t == map_set(t0, key, alloc[n - 1]));
        lemma_map_set(t0, key, alloc[n - 1]);
        lemma_map_set_sum(t0, key, alloc[n - 1]);
        if outcome_writes(ck, ps, n - 1, key) {
            let i = choose|i: int| 0 <= i < n - 1 && key == (ck, ps[i].0@);
            assert(ps[i].0@ != ps[n - 1].0@);
            assert(false);
        }
        assert(bal(t0, key) == bal(hv, key));
        assert forall|i: int| 0 <= i < n implies bal(t, (ck, (#[trigger] ps[i]).0@))
            == alloc[i] by {
            if i < n - 1 {
                assert(ps[i].0@ != ps[n - 1].0@);
                assert((ck, ps[i].0@) != key);
            }
        }
        assert forall|k2: (Seq<u8>, Seq<u8>)|
            !outcome_writes(ck, ps, n, k2) implies #[trigger] bal(t, k2) == bal(hv, k2) by {
            if k2 == key {
                assert(0 <= n - 1 < n && k2 == (ck, ps[n - 1].0@));
                assert(outcome_writes(ck, ps, n, k2));
            }
            if outcome_writes(ck, ps, n - 1, k2) {
                let i = choose|i: int| 0 <= i < n - 1 && k2 == (ck, ps[i].0@);
                assert(0 <= i < n && k2 == (ck, ps[i].0@));
                assert(outcome_writes(ck, ps, n, k2));
            }
            assert(k2 != key);
            assert(bal(t, k2) == bal(t0, k2));
        }
        assert(ps.take(n) =~= ps.take(n - 1).push(ps[n - 1]));
        assert(alloc.take(n) =~= alloc.take(n - 1).push(alloc[n - 1]));
        lemma_funding_total_snoc(hv, ck, ps.take(n - 1), ps[n - 1]);
        lemma_alloc_total_snoc(alloc.take(n - 1), alloc[n - 1]);
    }
}

/// Registration conservation: a fully funded registration with pairwise
/// distinct participants overwrites the channel's funding total with exactly
/// the state's allocation total, touches no other funding, and never creates
/// funds: the global sum changes by the allocation total minus what the
/// channel held, which a fully funded registration keeps non-positive. This
/// is the registration step of the conservation story; deposits and
/// withdrawals are covered by `lemma_conservation`.
pub proof fn lemma_register_conservation(
    hv: Seq<((Seq<u8>, Seq<u8>), u64)>,
    ck: Seq<u8>,
    ps: Seq<L2Account>,
    alloc: Seq<u64>,
)
    requires
        map_distinct(hv),
        ps.len() == alloc.len(),
        forall|i: int, j: int| 0 <= i < j < ps.len() ==> ps[i].0@ != ps[j].0@,
    ensures
        ({
            let t = outcome_applied(hv, ck, ps, alloc, ps.len() as int);
            &&& map_distinct(t)
            &&& funding_total(t, ck, ps) == alloc_total(alloc)
            &&& forall|k2: (Seq<u8>, Seq<u8>)|
                !outcome_writes(ck, ps, ps.len() as int, k2) ==> #[trigger] bal(t, k2) == bal(
                    hv,
                    k2,
                )
            &&& map_sum(t) + funding_total(hv, ck, ps) == map_sum(hv) + alloc_total(alloc)
        }),
{
    let n = ps.len() as int;
    lemma_outcome_applied(hv, ck, ps, alloc, n);
    assert(ps.take(n) =~= ps);
    assert(alloc.take(n) =~= alloc);
    let t = outcome_applied(hv, ck, ps, alloc, n);
    lemma_funding_total_of_alloc(t, ck, ps, alloc);
}

} // verus!
