//! The ledger's state: the holdings map, the channel registry, the shared
//! liquidity pool, and the deposit-reconciliation bookkeeping, together with
//! every operation that mutates or queries them.

use vstd::prelude::*;

use crate::assoc::bal;
use crate::assoc::lemma_map_at_unique;
use crate::assoc::lemma_map_insert;
use crate::assoc::lemma_map_remove;
use crate::assoc::lemma_map_set;
use crate::assoc::lemma_sum_insert;
use crate::assoc::lemma_sum_push;
use crate::assoc::lemma_sum_remove;
use crate::assoc::lemma_sum_update;
use crate::assoc::map_at;
use crate::assoc::map_contains;
use crate::assoc::map_distinct;
use crate::assoc::map_get;
use crate::assoc::map_remove;
use crate::assoc::map_set;
use crate::assoc::map_sum;
use crate::error::Error;
use crate::types::bytes_eq;
use crate::types::bytes_lt;
use crate::types::fkey;
use crate::types::lemma_lex_connex;
use crate::types::lemma_lex_irrefl;
use crate::types::lemma_lex_trans;
use crate::types::lex_lt;
use crate::types::memo_of;
use crate::types::Amount;
use crate::types::ChannelId;
use crate::types::Funding;
use crate::types::L1Account;
use crate::types::L2Account;
use crate::types::alloc_total;
use crate::types::channel_id_of;
use crate::types::Params;
use crate::types::RegisteredState;
use crate::types::State;
use crate::types::Timestamp;
use crate::types::WithdrawalRequest;

verus! {

// ---------------------------------------------------------------------------
// Views: the mathematical model of the ledger's maps
// ---------------------------------------------------------------------------

/// The model of the holdings map: funding keys to amounts.
pub open spec fn holdings_view(s: Seq<(Funding, Amount)>) -> Seq<((Seq<u8>, Seq<u8>), u64)> {
    Seq::new(s.len(), |i: int| (fkey(s[i].0), s[i].1))
}

/// The model of the liquidity pool: account bytes to amounts.
pub open spec fn pool_view(s: Seq<(L1Account, Amount)>) -> Seq<(Seq<u8>, u64)> {
    Seq::new(s.len(), |i: int| (s[i].0.0@, s[i].1))
}

/// The model of one registered state: version, allocation, finalized flag
/// and dispute timeout.
pub open spec fn rs_view(r: RegisteredState) -> (u64, Seq<u64>, bool, u64) {
    (r.state.version, r.state.allocation@, r.state.finalized, r.timeout)
}

/// The model of the channel registry: channel id bytes to registered states.
pub open spec fn channels_view(s: Seq<RegisteredState>) -> Seq<(
    Seq<u8>,
    (u64, Seq<u64>, bool, u64),
)> {
    Seq::new(s.len(), |i: int| (s[i].state.channel.0@, rs_view(s[i])))
}

/// Whether a registered-state model is settled at time `now`: finalized, or
/// past its timeout.
pub open spec fn view_settled(v: (u64, Seq<u64>, bool, u64), now: Timestamp) -> bool {
    v.2 || now >= v.3
}

/// The pool is kept sorted by strictly ascending account bytes, so that
/// withdrawal planning walks it in a fixed, deterministic order.
pub open spec fn pool_sorted(pv: Seq<(Seq<u8>, u64)>) -> bool {
    forall|i: int, j: int| 0 <= i < j < pv.len() ==> lex_lt(pv[i].0, pv[j].0)
}

/// A sorted pool has pairwise distinct keys.
pub proof fn lemma_pool_sorted_distinct(pv: Seq<(Seq<u8>, u64)>)
    requires
        pool_sorted(pv),
    ensures
        map_distinct(pv),
{
    assert forall|i: int, j: int| 0 <= i < j < pv.len() implies pv[i].0 != pv[j].0 by {
        lemma_lex_irrefl(pv[i].0);
    }
}

// ---------------------------------------------------------------------------
// The ledger state
// ---------------------------------------------------------------------------

/// The ledger's state: all currently registered channels, all deposits and
/// withdrawable balances, the shared liquidity pool, and the bookkeeping that
/// keeps external deposits credited at most once.
#[derive(Debug)]
pub struct CanisterState {
    /// Tracks all deposits for unregistered channels. For registered
    /// channels, tracks withdrawable balances instead.
    pub user_holdings: Vec<(Funding, Amount)>,
    /// Tracks all registered channels, keyed by the state's channel id.
    pub channels: Vec<RegisteredState>,
    /// The shared liquidity pool, sorted by strictly ascending account bytes.
    pub liq_pool_holdings: Vec<(L1Account, Amount)>,
    /// Verified external deposits, keyed by memo, not yet credited to a
    /// funding.
    pub unclaimed: Vec<(u64, Amount)>,
    /// External transaction references that have already been consumed; a
    /// reference listed here is never credited again.
    pub drained_txs: Vec<u64>,
}

impl CanisterState {
    /// The state's invariant: every map carries distinct keys, and the pool
    /// is sorted by account bytes.
    pub open spec fn wf(&self) -> bool {
        &&& map_distinct(holdings_view(self.user_holdings@))
        &&& map_distinct(channels_view(self.channels@))
        &&& pool_sorted(pool_view(self.liq_pool_holdings@))
        &&& map_distinct(self.unclaimed@)
    }

    /// A fresh ledger: empty maps, nothing registered, nothing drained.
    pub fn new() -> (r: Self)
        ensures
            r.wf(),
            r.user_holdings@.len() == 0,
            r.channels@.len() == 0,
            r.liq_pool_holdings@.len() == 0,
            r.unclaimed@.len() == 0,
            r.drained_txs@.len() == 0,
    {
        CanisterState {
            user_holdings: Vec::new(),
            channels: Vec::new(),
            liq_pool_holdings: Vec::new(),
            unclaimed: Vec::new(),
            drained_txs: Vec::new(),
        }
    }
}

// ---------------------------------------------------------------------------
// Finders
// ---------------------------------------------------------------------------

/// Finds the index of a funding's entry in the holdings map.
fn find_holding(v: &Vec<(Funding, Amount)>, f: &Funding) -> (r: Option<usize>)
    requires
        map_distinct(holdings_view(v@)),
    ensures
        match r {
            Some(i) => i < v@.len() && map_contains(holdings_view(v@), fkey(*f)) && map_at(
                holdings_view(v@),
                fkey(*f),
            ) == i,
            None => !map_contains(holdings_view(v@), fkey(*f)),
        },
{
    let ghost hv = holdings_view(v@);
    let ghost k = fkey(*f);
    let n = v.len();
    let mut i: usize = 0;
    while i < n
        invariant
            i <= n,
            n == v@.len(),
            map_distinct(hv),
            hv == holdings_view(v@),
            k == fkey(*f),
            forall|j: int| 0 <= j < i ==> hv[j].0 != k,
        decreases n - i,
    {
        let e = &v[i];
        if e.0.same_key(f) {
            proof {
                assert(hv[i as int].0 == k);
                lemma_map_at_unique(hv, i as int);
            }
            return Some(i);
        }
        proof {
            assert(hv[i as int].0 == fkey(v@[i as int].0));
        }
        i += 1;
    }
    proof {
        if map_contains(hv, k) {
            let j = map_at(hv, k);
            assert(hv[j].0 == k);
            assert(false);
        }
    }
    None
}

/// Finds the index of an account's entry in the liquidity pool.
fn find_pool(v: &Vec<(L1Account, Amount)>, a: &L1Account) -> (r: Option<usize>)
    requires
        pool_sorted(pool_view(v@)),
    ensures
        match r {
            Some(i) => i < v@.len() && map_contains(pool_view(v@), a.0@) && map_at(
                pool_view(v@),
                a.0@,
            ) == i,
            None => !map_contains(pool_view(v@), a.0@),
        },
{
    let ghost pv = pool_view(v@);
    let ghost k = a.0@;
    proof {
        lemma_pool_sorted_distinct(pv);
    }
    let n = v.len();
    let mut i: usize = 0;
    while i < n
        invariant
            i <= n,
            n == v@.len(),
            map_distinct(pv),
            pv == pool_view(v@),
            k == a.0@,
            forall|j: int| 0 <= j < i ==> pv[j].0 != k,
        decreases n - i,
    {
        let e = &v[i];
        if bytes_eq(&e.0.0, &a.0) {
            proof {
                assert(pv[i as int].0 == k);
                lemma_map_at_unique(pv, i as int);
            }
            return Some(i);
        }
        proof {
            assert(pv[i as int].0 == v@[i as int].0.0@);
        }
        i += 1;
    }
    proof {
        if map_contains(pv, k) {
            let j = map_at(pv, k);
            assert(pv[j].0 == k);
            assert(false);
        }
    }
    None
}

/// Finds the index of a channel's entry in the registry.
fn find_channel(v: &Vec<RegisteredState>, id: &ChannelId) -> (r: Option<usize>)
    requires
        map_distinct(channels_view(v@)),
    ensures
        match r {
            Some(i) => i < v@.len() && map_contains(channels_view(v@), id.0@) && map_at(
                channels_view(v@),
                id.0@,
            ) == i,
            None => !map_contains(channels_view(v@), id.0@),
        },
{
    let ghost cv = channels_view(v@);
    let ghost k = id.0@;
    let n = v.len();
    let mut i: usize = 0;
    while i < n
        invariant
            i <= n,
            n == v@.len(),
            map_distinct(cv),
            cv == channels_view(v@),
            k == id.0@,
            forall|j: int| 0 <= j < i ==> cv[j].0 != k,
        decreases n - i,
    {
        let e = &v[i];
        if bytes_eq(&e.state.channel.0, &id.0) {
            proof {
                assert(cv[i as int].0 == k);
                lemma_map_at_unique(cv, i as int);
            }
            return Some(i);
        }
        proof {
            assert(cv[i as int].0 == v@[i as int].state.channel.0@);
        }
        i += 1;
    }
    proof {
        if map_contains(cv, k) {
            let j = map_at(cv, k);
            assert(cv[j].0 == k);
            assert(false);
        }
    }
    None
}

/// Finds the index of a memo's entry in the unclaimed-deposits map.
fn find_unclaimed(v: &Vec<(u64, Amount)>, memo: u64) -> (r: Option<usize>)
    requires
        map_distinct(v@),
    ensures
        match r {
            Some(i) => i < v@.len() && map_contains(v@, memo) && map_at(v@, memo) == i,
            None => !map_contains(v@, memo),
        },
{
    let n = v.len();
    let mut i: usize = 0;
    while i < n
        invariant
            i <= n,
            n == v@.len(),
            map_distinct(v@),
            forall|j: int| 0 <= j < i ==> v@[j].0 != memo,
        decreases n - i,
    {
        if v[i].0 == memo {
            proof {
                lemma_map_at_unique(v@, i as int);
            }
            return Some(i);
        }
        i += 1;
    }
    proof {
        if map_contains(v@, memo) {
            let j = map_at(v@, memo);
            assert(v@[j].0 == memo);
            assert(false);
        }
    }
    None
}

// ---------------------------------------------------------------------------
// Queries
// ---------------------------------------------------------------------------

impl CanisterState {
    /// Returns the funds deposited for a channel's specified participant, if
    /// any.
    pub fn query_holdings(&self, funding: Funding) -> (r: Option<Amount>)
        requires
            self.wf(),
        ensures
            ({
                let hv = holdings_view(self.user_holdings@);
                let k = fkey(funding);
                match r {
                    Some(a) => map_contains(hv, k) && a == map_get(hv, k),
                    None => !map_contains(hv, k),
                }
            }),
    {
        match find_holding(&self.user_holdings, &funding) {
            Some(i) => Some(self.user_holdings[i].1),
            None => None,
        }
    }

    /// Returns an account's balance in the liquidity pool, if any.
    pub fn query_liq_holdings(&self, depositor: L1Account) -> (r: Option<Amount>)
        requires
            self.wf(),
        ensures
            ({
                let pv = pool_view(self.liq_pool_holdings@);
                let k = depositor.0@;
                match r {
                    Some(a) => map_contains(pv, k) && a == map_get(pv, k),
                    None => !map_contains(pv, k),
                }
            }),
    {
        match find_pool(&self.liq_pool_holdings, &depositor) {
            Some(i) => Some(self.liq_pool_holdings[i].1),
            None => None,
        }
    }

    /// Queries the latest registered state for a channel and its dispute
    /// timeout.
    pub fn state(&self, id: &ChannelId) -> (r: Option<RegisteredState>)
        requires
            self.wf(),
        ensures
            ({
                let cv = channels_view(self.channels@);
                match r {
                    Some(rs) => map_contains(cv, id.0@) && rs_view(rs) == map_get(cv, id.0@)
                        && rs.state.channel.0@ == id.0@,
                    None => !map_contains(cv, id.0@),
                }
            }),
    {
        match find_channel(&self.channels, id) {
            Some(i) => {
                let rs = self.channels[i].clone();
                proof {
                    assert(channels_view(self.channels@)[i as int].1 == rs_view(
                        self.channels@[i as int],
                    ));
                }
                Some(rs)
            },
            None => None,
        }
    }
}

// ---------------------------------------------------------------------------
// Deposits
// ---------------------------------------------------------------------------

impl CanisterState {
    /// Credits `amount` to `funding`, creating the entry if absent. Fails
    /// only when the balance would no longer fit the amount type; nothing is
    /// changed then.
    pub fn deposit(&mut self, funding: Funding, amount: Amount) -> (r: Result<(), Error>)
        requires
            old(self).wf(),
        ensures
            final(self).wf(),
            final(self).channels@ == old(self).channels@,
            final(self).liq_pool_holdings@ == old(self).liq_pool_holdings@,
            final(self).unclaimed@ == old(self).unclaimed@,
            final(self).drained_txs@ == old(self).drained_txs@,
            ({
                let hv = holdings_view(old(self).user_holdings@);
                let nv = holdings_view(final(self).user_holdings@);
                let k = fkey(funding);
                if bal(hv, k) + amount <= u64::MAX {
                    &&& r == Ok::<(), Error>(())
                    &&& nv == map_set(hv, k, (bal(hv, k) + amount) as u64)
                    &&& map_contains(nv, k)
                    &&& bal(nv, k) == bal(hv, k) + amount
                    &&& forall|k2: (Seq<u8>, Seq<u8>)|
                        k2 != k ==> #[trigger] bal(nv, k2) == bal(hv, k2) && map_contains(nv, k2)
                            == map_contains(hv, k2)
                    &&& map_sum(nv) == map_sum(hv) + amount
                } else {
                    &&& r == Err::<(), Error>(Error::InvalidInput)
                    &&& final(self).user_holdings@ == old(self).user_holdings@
                }
            }),
    {
        let ghost hv = holdings_view(old(self).user_holdings@);
        let ghost k = fkey(funding);
        match find_holding(&self.user_holdings, &funding) {
            Some(i) => {
                let cur = self.user_holdings[i].1;
                proof {
                    assert(hv[i as int].1 == cur);
                    assert(bal(hv, k) == cur);
                }
                if amount > u64::MAX - cur {
                    return Err(Error::InvalidInput);
                }
                let newv = cur + amount;
                self.user_holdings.set(i, (funding, newv));
                proof {
                    let nv = holdings_view(self.user_holdings@);
                    assert(nv =~= hv.update(i as int, (k, newv)));
                    lemma_map_set(hv, k, newv);
                    lemma_sum_update(hv, i as int, (k, newv));
                }
                Ok(())
            },
            None => {
                proof {
                    assert(bal(hv, k) == 0);
                }
                self.user_holdings.push((funding, amount));
                proof {
                    let nv = holdings_view(self.user_holdings@);
                    assert(nv =~= hv.push((k, amount)));
                    lemma_map_set(hv, k, amount);
                    lemma_sum_push(hv, (k, amount));
                }
                Ok(())
            },
        }
    }
}


// ---------------------------------------------------------------------------
// Liquidity-pool deposits
// ---------------------------------------------------------------------------

/// Finds the position at which `key` belongs in the sorted pool: the first
/// index whose account does not precede `key`.
fn pool_position(v: &Vec<(L1Account, Amount)>, key: &L1Account) -> (r: usize)
    requires
        pool_sorted(pool_view(v@)),
    ensures
        r <= v@.len(),
        forall|j: int| 0 <= j < r ==> lex_lt(pool_view(v@)[j].0, key.0@),
        r < v@.len() ==> !lex_lt(pool_view(v@)[r as int].0, key.0@),
{
    let n = v.len();
    let mut i: usize = 0;
    while i < n
        invariant
            i <= n,
            n == v@.len(),
            forall|j: int| 0 <= j < i ==> lex_lt(pool_view(v@)[j].0, key.0@),
        decreases n - i,
    {
        let e = &v[i];
        let lt = bytes_lt(&e.0.0, &key.0);
        proof {
            assert(pool_view(v@)[i as int].0 == v@[i as int].0.0@);
        }
        if !lt {
            return i;
        }
        i += 1;
    }
    i
}

impl CanisterState {
    /// Credits `amount` of pooled liquidity to `depositor`, creating the
    /// entry at its sorted position if absent. Fails only when the balance
    /// would no longer fit the amount type; nothing is changed then. The
    /// `funding` reference is recorded by the caller and does not influence
    /// the pool entry.
    pub fn deposit_liq_pool(&mut self, funding: u64, amount: Amount, depositor: L1Account) -> (r:
        Result<(), Error>)
        requires
            old(self).wf(),
        ensures
            final(self).wf(),
            final(self).user_holdings@ == old(self).user_holdings@,
            final(self).channels@ == old(self).channels@,
            final(self).unclaimed@ == old(self).unclaimed@,
            final(self).drained_txs@ == old(self).drained_txs@,
            ({
                let pv = pool_view(old(self).liq_pool_holdings@);
                let nv = pool_view(final(self).liq_pool_holdings@);
                let k = depositor.0@;
                if bal(pv, k) + amount <= u64::MAX {
                    &&& r == Ok::<(), Error>(())
                    &&& map_contains(nv, k)
                    &&& bal(nv, k) == bal(pv, k) + amount
                    &&& forall|k2: Seq<u8>|
                        k2 != k ==> #[trigger] bal(nv, k2) == bal(pv, k2) && map_contains(nv, k2)
                            == map_contains(pv, k2)
                    &&& map_sum(nv) == map_sum(pv) + amount
                } else {
                    &&& r == Err::<(), Error>(Error::InvalidInput)
                    &&& final(self).liq_pool_holdings@ == old(self).liq_pool_holdings@
                }
            }),
    {
        let ghost pv = pool_view(old(self).liq_pool_holdings@);
        let ghost k = depositor.0@;
        proof {
            lemma_pool_sorted_distinct(pv);
        }
        match find_pool(&self.liq_pool_holdings, &depositor) {
            Some(i) => {
                let cur = self.liq_pool_holdings[i].1;
                proof {
                    assert(pv[i as int].1 == cur);
                    assert(bal(pv, k) == cur);
                }
                if amount > u64::MAX - cur {
                    return Err(Error::InvalidInput);
                }
                let newv = cur + amount;
                self.liq_pool_holdings.set(i, (depositor, newv));
                proof {
                    let nv = pool_view(self.liq_pool_holdings@);
                    assert(nv =~= pv.update(i as int, (k, newv)));
                    lemma_map_set(pv, k, newv);
                    lemma_sum_update(pv, i as int, (k, newv));
                    assert forall|a: int, b: int| 0 <= a < b < nv.len() implies lex_lt(
                        nv[a].0,
                        nv[b].0,
                    ) by {
                        assert(nv[a].0 == pv[a].0);
                        assert(nv[b].0 == pv[b].0);
                    }
                }
                Ok(())
            },
            None => {
                proof {
                    assert(bal(pv, k) == 0);
                }
                let i = pool_position(&self.liq_pool_holdings, &depositor);
                let n = self.liq_pool_holdings.len();
                proof {
                    if (i as int) < pv.len() {
                        if !lex_lt(k, pv[i as int].0) {
                            lemma_lex_connex(pv[i as int].0, k);
                            assert(pv[i as int].0 == k);
                            assert(map_contains(pv, k));
                            assert(false);
                        }
                    }
                    assert forall|j: int| i <= j < pv.len() implies lex_lt(
                        k,
                        #[trigger] pv[j].0,
                    ) by {
                        if j > i {
                            lemma_lex_trans(k, pv[i as int].0, pv[j].0);
                        }
                    }
                }
                self.liq_pool_holdings.insert(i, (depositor, amount));
                proof {
                    let nv = pool_view(self.liq_pool_holdings@);
                    assert(nv =~= pv.insert(i as int, (k, amount)));
                    lemma_map_insert(pv, i as int, (k, amount));
                    lemma_sum_insert(pv, i as int, (k, amount));
                    pv.insert_ensures(i as int, (k, amount));
                    assert forall|a: int, b: int| 0 <= a < b < nv.len() implies lex_lt(
                        nv[a].0,
                        nv[b].0,
                    ) by {
                        let ii = i as int;
                        if b < ii {
                            assert(nv[a] == pv[a]);
                            assert(nv[b] == pv[b]);
                        } else if a == ii {
                            assert(nv[b] == pv[b - 1]);
                        } else if b == ii {
                            assert(nv[a] == pv[a]);
                        } else if a < ii && b > ii {
                            assert(nv[a] == pv[a]);
                            assert(nv[b] == pv[b - 1]);
                            lemma_lex_trans(pv[a].0, k, pv[b - 1].0);
                        } else {
                            assert(nv[a] == pv[a - 1]);
                            assert(nv[b] == pv[b - 1]);
                        }
                    }
                }
                Ok(())
            },
        }
    }
}

// ---------------------------------------------------------------------------
// Channel funding totals and registration
// ---------------------------------------------------------------------------

/// The total funds held for channel `ck` by the participants `ps`, missing
/// entries counting as 0.
pub open spec fn funding_total(
    hv: Seq<((Seq<u8>, Seq<u8>), u64)>,
    ck: Seq<u8>,
    ps: Seq<L2Account>,
) -> nat
    decreases ps.len(),
{
    if ps.len() == 0 {
        0
    } else {
        (bal(hv, (ck, ps[0].0@)) + funding_total(hv, ck, ps.drop_first())) as nat
    }
}

/// The holdings map after a settled outcome is pushed into it: for each of
/// the first `n` participants, the holding of `(ck, participant)` is
/// overwritten with the corresponding allocation entry.
pub open spec fn outcome_applied(
    hv: Seq<((Seq<u8>, Seq<u8>), u64)>,
    ck: Seq<u8>,
    ps: Seq<L2Account>,
    alloc: Seq<u64>,
    n: int,
) -> Seq<((Seq<u8>, Seq<u8>), u64)>
    decreases n,
{
    if n <= 0 {
        hv
    } else {
        map_set(outcome_applied(hv, ck, ps, alloc, n - 1), (ck, ps[n - 1].0@), alloc[n - 1])
    }
}

impl CanisterState {
    /// Calculates the total funds held in a channel. If the channel is
    /// unknown and there are no deposited funds for it, returns 0.
    pub fn holdings_total(&self, params: &Params) -> (r: u128)
        requires
            self.wf(),
        ensures
            r as nat == funding_total(
                holdings_view(self.user_holdings@),
                channel_id_of(*params),
                params.participants@,
            ),
    {
        let id = params.id();
        let ghost hv = holdings_view(self.user_holdings@);
        let ghost ck = channel_id_of(*params);
        let ghost ps = params.participants@;
        let n = params.participants.len();
        let mut acc: u128 = 0;
        let mut i: usize = 0;
        proof {
            assert(ps.skip(0) =~= ps);
        }
        while i < n
            invariant
                i <= n,
                n == ps.len(),
                self.wf(),
                hv == holdings_view(self.user_holdings@),
                ck == channel_id_of(*params),
                ps == params.participants@,
                id.0@ == ck,
                acc as nat + funding_total(hv, ck, ps.skip(i as int)) == funding_total(hv, ck, ps),
                acc as nat <= i * (u64::MAX as nat),
            decreases n - i,
        {
            let f = Funding::new(id.clone(), params.participants[i].clone());
            proof {
                assert(fkey(f) == (ck, ps[i as int].0@));
                let rest = ps.skip(i as int);
                assert(rest.drop_first() =~= ps.skip(i as int + 1));
                assert(rest[0] == ps[i as int]);
            }
            let b: u64 = match find_holding(&self.user_holdings, &f) {
                Some(j) => {
                    proof {
                        assert(hv[map_at(hv, fkey(f))].1 == map_get(hv, fkey(f)));
                    }
                    self.user_holdings[j].1
                },
                None => 0,
            };
            proof {
                assert(b == bal(hv, (ck, ps[i as int].0@)));
            }
            acc = acc + (b as u128);
            i += 1;
        }
        acc
    }

    /// Pushes a state's funding allocation into the channel's holdings: each
    /// participant's holding is overwritten with the adjudicated amount.
    fn update_holdings(&mut self, params: &Params, state: &State)
        requires
            old(self).wf(),
            state.allocation@.len() == params.participants@.len(),
        ensures
            final(self).wf(),
            final(self).channels@ == old(self).channels@,
            final(self).liq_pool_holdings@ == old(self).liq_pool_holdings@,
            final(self).unclaimed@ == old(self).unclaimed@,
            final(self).drained_txs@ == old(self).drained_txs@,
            holdings_view(final(self).user_holdings@) == outcome_applied(
                holdings_view(old(self).user_holdings@),
                state.channel.0@,
                params.participants@,
                state.allocation@,
                params.participants@.len() as int,
            ),
    {
        let ghost hv0 = holdings_view(old(self).user_holdings@);
        let ghost ck = state.channel.0@;
        let ghost ps = params.participants@;
        let ghost alloc = state.allocation@;
        let n = params.participants.len();
        let mut i: usize = 0;
        while i < n
            invariant
                i <= n,
                n == ps.len(),
                n == alloc.len(),
                ps == params.participants@,
                alloc == state.allocation@,
                ck == state.channel.0@,
                map_distinct(holdings_view(self.user_holdings@)),
                self.channels@ == old(self).channels@,
                self.liq_pool_holdings@ == old(self).liq_pool_holdings@,
                self.unclaimed@ == old(self).unclaimed@,
                self.drained_txs@ == old(self).drained_txs@,
                map_distinct(channels_view(self.channels@)),
                pool_sorted(pool_view(self.liq_pool_holdings@)),
                map_distinct(self.unclaimed@),
                holdings_view(self.user_holdings@) == outcome_applied(hv0, ck, ps, alloc, i as int),
            decreases n - i,
        {
            let ghost hv = holdings_view(self.user_holdings@);
            let f = Funding::new(state.channel.clone(), params.participants[i].clone());
            let ghost k = fkey(f);
            proof {
                assert(k == (ck, ps[i as int].0@));
            }
            let v = state.allocation[i];
            match find_holding(&self.user_holdings, &f) {
                Some(j) => {
                    self.user_holdings.set(j, (f, v));
                    proof {
                        assert(holdings_view(self.user_holdings@) =~= hv.update(j as int, (k, v)));
                        lemma_map_set(hv, k, v);
                    }
                },
                None => {
                    self.user_holdings.push((f, v));
                    proof {
                        assert(holdings_view(self.user_holdings@) =~= hv.push((k, v)));
                        lemma_map_set(hv, k, v);
                    }
                },
            }
            i += 1;
        }
    }

    /// Validates and registers a channel state. The state's channel id must
    /// equal the id derived from the parameters; a version not above the
    /// currently registered one is rejected; a state allocating more than
    /// the channel holds is admitted only as an initial, unfinalized state,
    /// and then without touching the holdings. A fully funded state
    /// overwrites the channel's holdings with its allocation.
    pub fn register_channel(&mut self, params: &Params, state: RegisteredState) -> (r: Result<
        (),
        Error,
    >)
        requires
            old(self).wf(),
        ensures
            final(self).wf(),
            final(self).liq_pool_holdings@ == old(self).liq_pool_holdings@,
            final(self).unclaimed@ == old(self).unclaimed@,
            final(self).drained_txs@ == old(self).drained_txs@,
            ({
                let hv = holdings_view(old(self).user_holdings@);
                let cv = channels_view(old(self).channels@);
                let cid = channel_id_of(*params);
                let k = state.state.channel.0@;
                let total = funding_total(hv, cid, params.participants@);
                let alloc_t = alloc_total(state.state.allocation@);
                let underfunded_ok = state.state.version == 0 && !state.state.finalized;
                if k != cid || state.state.allocation@.len() != params.participants@.len() {
                    &&& r == Err::<(), Error>(Error::InvalidInput)
                    &&& final(self).user_holdings@ == old(self).user_holdings@
                    &&& final(self).channels@ == old(self).channels@
                } else if map_contains(cv, k) && state.state.version <= map_get(cv, k).0 {
                    &&& r == Err::<(), Error>(Error::OutdatedState)
                    &&& final(self).user_holdings@ == old(self).user_holdings@
                    &&& final(self).channels@ == old(self).channels@
                } else if total < alloc_t && !underfunded_ok {
                    &&& r == Err::<(), Error>(Error::InsufficientFunding)
                    &&& final(self).user_holdings@ == old(self).user_holdings@
                    &&& final(self).channels@ == old(self).channels@
                } else {
                    &&& r == Ok::<(), Error>(())
                    &&& channels_view(final(self).channels@) == map_set(cv, k, rs_view(state))
                    &&& (total < alloc_t ==> final(self).user_holdings@ == old(
                        self,
                    ).user_holdings@)
                    &&& (total >= alloc_t ==> holdings_view(final(self).user_holdings@)
                        == outcome_applied(
                        hv,
                        k,
                        params.participants@,
                        state.state.allocation@,
                        params.participants@.len() as int,
                    ))
                }
            }),
    {
        let ghost cv = channels_view(old(self).channels@);
        let ghost k = state.state.channel.0@;
        let id = params.id();
        if !bytes_eq(&state.state.channel.0, &id.0) {
            return Err(Error::InvalidInput);
        }
        if state.state.allocation.len() != params.participants.len() {
            return Err(Error::InvalidInput);
        }
        match find_channel(&self.channels, &id) {
            Some(i) => {
                proof {
                    assert(cv[i as int].1 == map_get(cv, k));
                }
                let existing_version = self.channels[i].state.version;
                if state.state.version <= existing_version {
                    return Err(Error::OutdatedState);
                }
            },
            None => {},
        }
        let total = self.holdings_total(params);
        let st_total = state.state.total();
        if total < st_total {
            if !state.state.may_be_underfunded() {
                return Err(Error::InsufficientFunding);
            }
        } else {
            self.update_holdings(params, &state.state);
        }
        let ghost cv2 = channels_view(self.channels@);
        proof {
            assert(cv2 == cv);
        }
        match find_channel(&self.channels, &id) {
            Some(i) => {
                self.channels.set(i, state);
                proof {
                    assert(channels_view(self.channels@) =~= cv.update(
                        i as int,
                        (k, rs_view(state)),
                    ));
                    lemma_map_set(cv, k, rs_view(state));
                }
            },
            None => {
                self.channels.push(state);
                proof {
                    assert(channels_view(self.channels@) =~= cv.push((k, rs_view(state))));
                    lemma_map_set(cv, k, rs_view(state));
                }
            },
        }
        Ok(())
    }
}

// ---------------------------------------------------------------------------
// Direct withdrawal
// ---------------------------------------------------------------------------

impl CanisterState {
    /// Removes and returns a funding's balance, or 0 if it has no entry: a
    /// second withdrawal of the same funding finds nothing and returns 0.
    pub fn withdraw_and_clear(&mut self, funding: &Funding) -> (r: Amount)
        requires
            old(self).wf(),
        ensures
            final(self).wf(),
            final(self).channels@ == old(self).channels@,
            final(self).liq_pool_holdings@ == old(self).liq_pool_holdings@,
            final(self).unclaimed@ == old(self).unclaimed@,
            final(self).drained_txs@ == old(self).drained_txs@,
            ({
                let hv = holdings_view(old(self).user_holdings@);
                let nv = holdings_view(final(self).user_holdings@);
                let k = fkey(*funding);
                &&& r == bal(hv, k)
                &&& nv == map_remove(hv, k)
                &&& !map_contains(nv, k)
                &&& forall|k2: (Seq<u8>, Seq<u8>)|
                    k2 != k ==> #[trigger] bal(nv, k2) == bal(hv, k2) && map_contains(nv, k2)
                        == map_contains(hv, k2)
                &&& map_sum(nv) + r == map_sum(hv)
            }),
    {
        let ghost hv = holdings_view(old(self).user_holdings@);
        let ghost k = fkey(*funding);
        proof {
            lemma_map_remove(hv, k);
        }
        match find_holding(&self.user_holdings, funding) {
            Some(i) => {
                let e = self.user_holdings.remove(i);
                proof {
                    assert(holdings_view(self.user_holdings@) =~= hv.remove(i as int));
                    assert(hv[i as int].1 == e.1);
                    lemma_sum_remove(hv, i as int);
                    assert forall|k2: (Seq<u8>, Seq<u8>)| k2 != k implies #[trigger] bal(
                        holdings_view(self.user_holdings@),
                        k2,
                    ) == bal(hv, k2) by {}
                }
                e.1
            },
            None => {
                0
            },
        }
    }

    /// Withdraws a participant's funds from a settled channel: the funding's
    /// whole balance is removed and returned. Fails `NotFinalized` when the
    /// channel has no registered state, or its challenge window has not
    /// elapsed and its state is not finalized.
    pub fn withdraw(&mut self, req: &WithdrawalRequest, now: Timestamp) -> (r: Result<
        Amount,
        Error,
    >)
        requires
            old(self).wf(),
        ensures
            final(self).wf(),
            final(self).channels@ == old(self).channels@,
            final(self).liq_pool_holdings@ == old(self).liq_pool_holdings@,
            final(self).unclaimed@ == old(self).unclaimed@,
            final(self).drained_txs@ == old(self).drained_txs@,
            ({
                let hv = holdings_view(old(self).user_holdings@);
                let cv = channels_view(old(self).channels@);
                let ck = req.funding.channel.0@;
                let hk = fkey(req.funding);
                if !map_contains(cv, ck) || !view_settled(map_get(cv, ck), now) {
                    &&& r == Err::<u64, Error>(Error::NotFinalized)
                    &&& final(self).user_holdings@ == old(self).user_holdings@
                } else {
                    &&& r == Ok::<u64, Error>(bal(hv, hk))
                    &&& holdings_view(final(self).user_holdings@) == map_remove(hv, hk)
                    &&& map_sum(holdings_view(final(self).user_holdings@)) + bal(hv, hk)
                        == map_sum(hv)
                }
            }),
    {
        match find_channel(&self.channels, &req.funding.channel) {
            Some(i) => {
                proof {
                    assert(channels_view(self.channels@)[i as int].1 == map_get(
                        channels_view(self.channels@),
                        req.funding.channel.0@,
                    ));
                }
                let is_settled = self.channels[i].settled(now);
                if !is_settled {
                    return Err(Error::NotFinalized);
                }
                let a = self.withdraw_and_clear(&req.funding);
                Ok(a)
            },
            None => Err(Error::NotFinalized),
        }
    }
}


// ---------------------------------------------------------------------------
// Pool-withdrawal planning: specification
// ---------------------------------------------------------------------------

/// The deduction plan a pool withdrawal computes: walking the pool in its
/// sorted order, greedily take from each account the smaller of its balance
/// and what is still needed, until nothing is needed; accounts with nothing
/// to give contribute no plan entry.
pub open spec fn greedy_take(pv: Seq<(Seq<u8>, u64)>, needed: nat) -> Seq<(Seq<u8>, u64)>
    decreases pv.len(),
{
    if needed == 0 || pv.len() == 0 {
        Seq::empty()
    } else {
        let av = pv[0].1 as nat;
        let t: nat = if av <= needed {
            av
        } else {
            needed
        };
        if t > 0 {
            seq![(pv[0].0, t as u64)] + greedy_take(pv.drop_first(), (needed - t) as nat)
        } else {
            greedy_take(pv.drop_first(), needed)
        }
    }
}

/// The plan takes exactly what was needed, or everything the pool holds if
/// that is less.
pub proof fn lemma_greedy_sum(pv: Seq<(Seq<u8>, u64)>, needed: nat)
    ensures
        map_sum(greedy_take(pv, needed)) == if map_sum(pv) <= needed {
            map_sum(pv)
        } else {
            needed
        },
    decreases pv.len(),
{
    if needed == 0 || pv.len() == 0 {
    } else {
        let av = pv[0].1 as nat;
        let t: nat = if av <= needed {
            av
        } else {
            needed
        };
        if t > 0 {
            lemma_greedy_sum(pv.drop_first(), (needed - t) as nat);
            let g = greedy_take(pv.drop_first(), (needed - t) as nat);
            let whole = seq![(pv[0].0, t as u64)] + g;
            assert(whole.drop_first() =~= g);
            assert(whole[0] == (pv[0].0, t as u64));
        } else {
            lemma_greedy_sum(pv.drop_first(), needed);
        }
    }
}

/// Whether a plan can be deducted from the pool as it stands: its accounts
/// are strictly ascending, and each deduction is positive and within the
/// account's current balance.
pub open spec fn plan_applicable(pv: Seq<(Seq<u8>, u64)>, plan: Seq<(Seq<u8>, u64)>) -> bool {
    &&& pool_sorted(plan)
    &&& forall|i: int|
        0 <= i < plan.len() ==> (#[trigger] plan[i]).1 > 0 && plan[i].1 <= bal(pv, plan[i].0)
}

/// Dropping the pool's first entry keeps its order.
pub proof fn lemma_pool_tail_sorted(pv: Seq<(Seq<u8>, u64)>)
    requires
        pool_sorted(pv),
        pv.len() > 0,
    ensures
        pool_sorted(pv.drop_first()),
{
    let t = pv.drop_first();
    assert forall|a: int, b: int| 0 <= a < b < t.len() implies lex_lt(t[a].0, t[b].0) by {
        assert(t[a] == pv[a + 1]);
        assert(t[b] == pv[b + 1]);
    }
}

/// A key other than the head's is held by the tail exactly as by the whole
/// pool.
pub proof fn lemma_bal_tail(pv: Seq<(Seq<u8>, u64)>, k: Seq<u8>)
    requires
        pool_sorted(pv),
        pv.len() > 0,
        k != pv[0].0,
    ensures
        map_contains(pv.drop_first(), k) == map_contains(pv, k),
        bal(pv.drop_first(), k) == bal(pv, k),
{
    let t = pv.drop_first();
    lemma_pool_sorted_distinct(pv);
    lemma_pool_tail_sorted(pv);
    lemma_pool_sorted_distinct(t);
    if map_contains(t, k) {
        let j = map_at(t, k);
        assert(0 <= j < t.len() && t[j].0 == k);
        assert(t[j] == pv[j + 1]);
        assert(map_contains(pv, k));
        lemma_map_at_unique(pv, j + 1);
        lemma_map_at_unique(t, j);
        assert(bal(pv, k) == pv[j + 1].1);
    } else if map_contains(pv, k) {
        let j = map_at(pv, k);
        assert(0 <= j < pv.len() && pv[j].0 == k);
        assert(j != 0);
        assert(t[j - 1] == pv[j]);
        assert(map_contains(t, k));
        assert(false);
    }
}

/// The greedy plan is applicable to the pool it was computed from, and every
/// account it names is a pool account.
pub proof fn lemma_greedy_applicable(pv: Seq<(Seq<u8>, u64)>, needed: nat)
    requires
        pool_sorted(pv),
    ensures
        plan_applicable(pv, greedy_take(pv, needed)),
        forall|i: int|
            0 <= i < greedy_take(pv, needed).len() ==> map_contains(
                pv,
                (#[trigger] greedy_take(pv, needed)[i]).0,
            ),
    decreases pv.len(),
{
    let plan = greedy_take(pv, needed);
    if needed == 0 || pv.len() == 0 {
        assert(plan.len() == 0);
    } else {
        let tailpv = pv.drop_first();
        lemma_pool_tail_sorted(pv);
        lemma_pool_sorted_distinct(pv);
        lemma_pool_sorted_distinct(tailpv);
        let av = pv[0].1 as nat;
        let t: nat = if av <= needed {
            av
        } else {
            needed
        };
        if t > 0 {
            lemma_greedy_applicable(tailpv, (needed - t) as nat);
            let tp = greedy_take(tailpv, (needed - t) as nat);
            assert(plan == seq![(pv[0].0, t as u64)] + tp);
            assert(plan[0] == (pv[0].0, t as u64));
            lemma_map_at_unique(pv, 0);
            assert(bal(pv, pv[0].0) == pv[0].1);
            assert forall|i: int|
                0 <= i < plan.len() implies (#[trigger] plan[i]).1 > 0 && plan[i].1 <= bal(
                pv,
                plan[i].0,
            ) && map_contains(pv, plan[i].0) by {
                if i > 0 {
                    assert(plan[i] == tp[i - 1]);
                    let k = plan[i].0;
                    assert(map_contains(tailpv, k));
                    let j = map_at(tailpv, k);
                    assert(0 <= j < tailpv.len() && tailpv[j].0 == k);
                    assert(tailpv[j] == pv[j + 1]);
                    assert(lex_lt(pv[0].0, k));
                    lemma_lex_irrefl(k);
                    lemma_bal_tail(pv, k);
                }
            }
            assert forall|a: int, b: int| 0 <= a < b < plan.len() implies lex_lt(
                plan[a].0,
                plan[b].0,
            ) by {
                if a == 0 {
                    let k = plan[b].0;
                    assert(plan[b] == tp[b - 1]);
                    assert(map_contains(tailpv, k));
                    let j = map_at(tailpv, k);
                    assert(tailpv[j] == pv[j + 1]);
                    assert(lex_lt(pv[0].0, k));
                } else {
                    assert(plan[a] == tp[a - 1]);
                    assert(plan[b] == tp[b - 1]);
                }
            }
        } else {
            lemma_greedy_applicable(tailpv, needed);
            assert(plan == greedy_take(tailpv, needed));
            assert forall|i: int|
                0 <= i < plan.len() implies (#[trigger] plan[i]).1 > 0 && plan[i].1 <= bal(
                pv,
                plan[i].0,
            ) && map_contains(pv, plan[i].0) by {
                let k = plan[i].0;
                assert(map_contains(tailpv, k));
                let j = map_at(tailpv, k);
                assert(0 <= j < tailpv.len() && tailpv[j].0 == k);
                assert(tailpv[j] == pv[j + 1]);
                assert(lex_lt(pv[0].0, k));
                lemma_lex_irrefl(k);
                lemma_bal_tail(pv, k);
            }
        }
    }
}

/// The pool after one planned deduction: the account's balance is reduced,
/// and its entry removed when the balance reaches exactly 0.
pub open spec fn deduct_one(pv: Seq<(Seq<u8>, u64)>, k: Seq<u8>, t: u64) -> Seq<(Seq<u8>, u64)> {
    if map_contains(pv, k) {
        let i = map_at(pv, k);
        if pv[i].1 == t {
            pv.remove(i)
        } else {
            pv.update(i, (k, (pv[i].1 - t) as u64))
        }
    } else {
        pv
    }
}

/// What one applicable deduction does to the pool.
pub proof fn lemma_deduct_one(pv: Seq<(Seq<u8>, u64)>, k: Seq<u8>, t: u64)
    requires
        pool_sorted(pv),
        map_contains(pv, k),
        0 < t <= bal(pv, k),
    ensures
        ({
            let nv = deduct_one(pv, k, t);
            &&& pool_sorted(nv)
            &&& bal(nv, k) == bal(pv, k) - t
            &&& map_contains(nv, k) == (bal(pv, k) > t)
            &&& forall|k2: Seq<u8>|
                k2 != k ==> #[trigger] bal(nv, k2) == bal(pv, k2) && map_contains(nv, k2)
                    == map_contains(pv, k2)
            &&& map_sum(nv) + t == map_sum(pv)
        }),
{
    lemma_pool_sorted_distinct(pv);
    let i = map_at(pv, k);
    assert(0 <= i < pv.len() && pv[i].0 == k);
    assert(bal(pv, k) == pv[i].1);
    let nv = deduct_one(pv, k, t);
    if pv[i].1 == t {
        lemma_map_remove(pv, k);
        lemma_sum_remove(pv, i);
        assert forall|a: int, b: int| 0 <= a < b < nv.len() implies lex_lt(nv[a].0, nv[b].0) by {
            let a0 = if a < i {
                a
            } else {
                a + 1
            };
            let b0 = if b < i {
                b
            } else {
                b + 1
            };
            assert(nv[a] == pv[a0]);
            assert(nv[b] == pv[b0]);
        }
        assert forall|k2: Seq<u8>| k2 != k implies #[trigger] bal(nv, k2) == bal(pv, k2)
            && map_contains(nv, k2) == map_contains(pv, k2) by {}
    } else {
        let newv = (pv[i].1 - t) as u64;
        assert(nv == pv.update(i, (k, newv)));
        assert(nv == map_set(pv, k, newv));
        lemma_map_set(pv, k, newv);
        lemma_sum_update(pv, i, (k, newv));
        assert forall|a: int, b: int| 0 <= a < b < nv.len() implies lex_lt(nv[a].0, nv[b].0) by {
            assert(nv[a].0 == pv[a].0);
            assert(nv[b].0 == pv[b].0);
        }
        assert forall|k2: Seq<u8>| k2 != k implies #[trigger] bal(nv, k2) == bal(pv, k2)
            && map_contains(nv, k2) == map_contains(pv, k2) by {}
    }
}

/// The pool after a whole plan is deducted, entry by entry in plan order.
pub open spec fn pool_deducted(pv: Seq<(Seq<u8>, u64)>, plan: Seq<(Seq<u8>, u64)>) -> Seq<
    (Seq<u8>, u64),
>
    decreases plan.len(),
{
    if plan.len() == 0 {
        pv
    } else {
        pool_deducted(deduct_one(pv, plan[0].0, plan[0].1), plan.drop_first())
    }
}


// ---------------------------------------------------------------------------
// Pool withdrawal: plan, commit, and conclusion
// ---------------------------------------------------------------------------

impl CanisterState {
    /// Plan phase of a pool withdrawal: computes, without mutating anything,
    /// which deductions cover `amount`, walking the pool in its fixed sorted
    /// order. Returns the planned total (always exactly `amount`) and the
    /// deduction list, or fails `InsufficientLiquidity` when the pool in
    /// total holds less than `amount`.
    pub fn calculate_required_deductions(&self, amount: Amount) -> (r: Result<
        (u64, Vec<(L1Account, Amount)>),
        Error,
    >)
        requires
            self.wf(),
        ensures
            ({
                let pv = pool_view(self.liq_pool_holdings@);
                if map_sum(pv) >= amount {
                    &&& r matches Ok(p) && p.0 == amount && pool_view(p.1@) == greedy_take(
                        pv,
                        amount as nat,
                    ) && map_sum(pool_view(p.1@)) == amount && plan_applicable(
                        pv,
                        pool_view(p.1@),
                    )
                } else {
                    r == Err::<(u64, Vec<(L1Account, Amount)>), Error>(
                        Error::InsufficientLiquidity,
                    )
                }
            }),
    {
        let ghost pv = pool_view(self.liq_pool_holdings@);
        let mut needed: u64 = amount;
        let mut to_deduct: Vec<(L1Account, Amount)> = Vec::new();
        let n = self.liq_pool_holdings.len();
        let mut i: usize = 0;
        proof {
            assert(pv.skip(0) =~= pv);
            assert(pool_view(to_deduct@) =~= Seq::<(Seq<u8>, u64)>::empty());
            assert(pool_view(to_deduct@) + greedy_take(pv.skip(0), needed as nat) =~= greedy_take(
                pv,
                amount as nat,
            ));
        }
        while i < n
            invariant
                i <= n,
                n == self.liq_pool_holdings@.len(),
                pv == pool_view(self.liq_pool_holdings@),
                needed <= amount,
                map_sum(pool_view(to_deduct@)) + needed == amount,
                pool_view(to_deduct@) + greedy_take(pv.skip(i as int), needed as nat)
                    == greedy_take(pv, amount as nat),
            decreases n - i,
        {
            let ghost rest = pv.skip(i as int);
            proof {
                assert(rest.drop_first() =~= pv.skip(i as int + 1));
                assert(rest[0] == pv[i as int]);
            }
            let e = &self.liq_pool_holdings[i];
            let av = e.1;
            let t = if av <= needed {
                av
            } else {
                needed
            };
            proof {
                assert(pv[i as int] == (self.liq_pool_holdings@[i as int].0.0@, av));
            }
            if t > 0 {
                let acc = e.0.clone();
                let ghost before = pool_view(to_deduct@);
                to_deduct.push((acc, t));
                proof {
                    assert(pool_view(to_deduct@) =~= before.push((pv[i as int].0, t)));
                    lemma_sum_push(before, (pv[i as int].0, t));
                    assert(before.push((pv[i as int].0, t)) + greedy_take(
                        pv.skip(i as int + 1),
                        (needed - t) as nat,
                    ) =~= before + (seq![(pv[i as int].0, t)] + greedy_take(
                        pv.skip(i as int + 1),
                        (needed - t) as nat,
                    )));
                }
                needed = needed - t;
            }
            i += 1;
        }
        proof {
            assert(pv.skip(n as int) =~= Seq::<(Seq<u8>, u64)>::empty());
            assert(pool_view(to_deduct@) + Seq::<(Seq<u8>, u64)>::empty() =~= pool_view(
                to_deduct@,
            ));
            lemma_greedy_sum(pv, amount as nat);
            lemma_greedy_applicable(pv, amount as nat);
        }
        if needed > 0 {
            return Err(Error::InsufficientLiquidity);
        }
        Ok((amount, to_deduct))
    }

    /// Re-validates a deduction plan against the pool as it stands now:
    /// ascending accounts, and every deduction positive and within the
    /// account's current balance.
    fn deductions_applicable(&self, plan: &Vec<(L1Account, Amount)>) -> (r: bool)
        requires
            self.wf(),
        ensures
            r == plan_applicable(pool_view(self.liq_pool_holdings@), pool_view(plan@)),
    {
        let ghost pv = pool_view(self.liq_pool_holdings@);
        let ghost pl = pool_view(plan@);
        let n = plan.len();
        let mut i: usize = 0;
        while i < n
            invariant
                i <= n,
                n == plan@.len(),
                self.wf(),
                pv == pool_view(self.liq_pool_holdings@),
                pl == pool_view(plan@),
                forall|a: int, b: int| 0 <= a < b < i ==> lex_lt(pl[a].0, pl[b].0),
                forall|j: int| 0 <= j < i ==> (#[trigger] pl[j]).1 > 0 && pl[j].1 <= bal(pv, pl[j].0),
            decreases n - i,
        {
            let e = &plan[i];
            proof {
                assert(pl[i as int] == (plan@[i as int].0.0@, plan@[i as int].1));
            }
            if i > 0 {
                let prev = &plan[i - 1];
                if !bytes_lt(&prev.0.0, &e.0.0) {
                    proof {
                        assert(!lex_lt(pl[i as int - 1].0, pl[i as int].0));
                        assert(!pool_sorted(pl));
                    }
                    return false;
                }
            }
            if e.1 == 0 {
                return false;
            }
            let ok = match find_pool(&self.liq_pool_holdings, &e.0) {
                Some(j) => {
                    proof {
                        assert(pv[map_at(pv, pl[i as int].0)].1 == map_get(pv, pl[i as int].0));
                    }
                    self.liq_pool_holdings[j].1 >= e.1
                },
                None => false,
            };
            if !ok {
                proof {
                    assert(pl[i as int].1 > bal(pv, pl[i as int].0));
                }
                return false;
            }
            proof {
                assert forall|a: int| 0 <= a < i implies lex_lt(pl[a].0, pl[i as int].0) by {
                    if a < i - 1 {
                        lemma_lex_trans(pl[a].0, pl[i as int - 1].0, pl[i as int].0);
                    }
                }
            }
            i += 1;
        }
        true
    }

    /// Commit phase of a pool withdrawal: re-validates the plan against the
    /// current pool and, only if every deduction still fits, applies all of
    /// them, removing entries whose balance reaches exactly 0. A stale or
    /// malformed plan changes nothing and fails `InsufficientLiquidity`.
    pub fn apply_deductions(&mut self, to_deduct: &Vec<(L1Account, Amount)>) -> (r: Result<
        (),
        Error,
    >)
        requires
            old(self).wf(),
        ensures
            final(self).wf(),
            final(self).user_holdings@ == old(self).user_holdings@,
            final(self).channels@ == old(self).channels@,
            final(self).unclaimed@ == old(self).unclaimed@,
            final(self).drained_txs@ == old(self).drained_txs@,
            ({
                let pv = pool_view(old(self).liq_pool_holdings@);
                let plan = pool_view(to_deduct@);
                if plan_applicable(pv, plan) {
                    &&& r == Ok::<(), Error>(())
                    &&& pool_view(final(self).liq_pool_holdings@) == pool_deducted(pv, plan)
                    &&& map_sum(pool_view(final(self).liq_pool_holdings@)) + map_sum(plan)
                        == map_sum(pv)
                } else {
                    &&& r == Err::<(), Error>(Error::InsufficientLiquidity)
                    &&& final(self).liq_pool_holdings@ == old(self).liq_pool_holdings@
                }
            }),
    {
        let ghost pv = pool_view(old(self).liq_pool_holdings@);
        let ghost plan = pool_view(to_deduct@);
        if !self.deductions_applicable(to_deduct) {
            return Err(Error::InsufficientLiquidity);
        }
        let n = to_deduct.len();
        let mut j: usize = 0;
        proof {
            assert(plan.skip(0) =~= plan);
        }
        while j < n
            invariant
                j <= n,
                n == to_deduct@.len(),
                plan == pool_view(to_deduct@),
                self.user_holdings@ == old(self).user_holdings@,
                self.channels@ == old(self).channels@,
                self.unclaimed@ == old(self).unclaimed@,
                self.drained_txs@ == old(self).drained_txs@,
                map_distinct(holdings_view(self.user_holdings@)),
                map_distinct(channels_view(self.channels@)),
                map_distinct(self.unclaimed@),
                pool_sorted(pool_view(self.liq_pool_holdings@)),
                plan_applicable(pool_view(self.liq_pool_holdings@), plan.skip(j as int)),
                pool_deducted(pool_view(self.liq_pool_holdings@), plan.skip(j as int))
                    == pool_deducted(pv, plan),
                map_sum(pool_view(self.liq_pool_holdings@)) + map_sum(plan) == map_sum(pv)
                    + map_sum(plan.skip(j as int)),
                pool_sorted(plan),
            decreases n - j,
        {
            let ghost cur = pool_view(self.liq_pool_holdings@);
            let ghost rest = plan.skip(j as int);
            proof {
                assert(rest.drop_first() =~= plan.skip(j as int + 1));
                assert(rest[0] == plan[j as int]);
            }
            let acc = to_deduct[j].0.clone();
            let t = to_deduct[j].1;
            let ghost k = plan[j as int].0;
            proof {
                assert(plan[j as int] == (to_deduct@[j as int].0.0@, t));
                assert(acc.0@ == k);
                assert(rest[0].1 > 0 && rest[0].1 <= bal(cur, rest[0].0));
                lemma_deduct_one(cur, k, t);
            }
            match find_pool(&self.liq_pool_holdings, &acc) {
                Some(idx) => {
                    let curv = self.liq_pool_holdings[idx].1;
                    proof {
                        assert(cur[idx as int].1 == curv);
                        assert(bal(cur, k) == curv);
                    }
                    if curv == t {
                        self.liq_pool_holdings.remove(idx);
                        proof {
                            assert(pool_view(self.liq_pool_holdings@) =~= cur.remove(idx as int));
                            assert(pool_view(self.liq_pool_holdings@) =~= deduct_one(cur, k, t));
                        }
                    } else {
                        self.liq_pool_holdings.set(idx, (acc, curv - t));
                        proof {
                            assert(pool_view(self.liq_pool_holdings@) =~= cur.update(
                                idx as int,
                                (k, (curv - t) as u64),
                            ));
                            assert(pool_view(self.liq_pool_holdings@) =~= deduct_one(cur, k, t));
                        }
                    }
                },
                None => {
                    proof {
                        assert(bal(cur, k) == 0);
                        assert(false);
                    }
                },
            }
            proof {
                let nv = pool_view(self.liq_pool_holdings@);
                assert(nv == deduct_one(cur, k, t));
                assert forall|jj: int|
                    0 <= jj < plan.skip(j as int + 1).len() implies (#[trigger] plan.skip(
                    j as int + 1,
                )[jj]).1 > 0 && plan.skip(j as int + 1)[jj].1 <= bal(
                    nv,
                    plan.skip(j as int + 1)[jj].0,
                ) by {
                    let entry = plan.skip(j as int + 1)[jj];
                    assert(entry == plan[j as int + 1 + jj]);
                    assert(entry == rest[jj + 1]);
                    assert(lex_lt(rest[0].0, rest[jj + 1].0));
                    lemma_lex_irrefl(entry.0);
                    assert(entry.0 != k);
                }
                assert forall|a: int, b: int|
                    0 <= a < b < plan.skip(j as int + 1).len() implies lex_lt(
                    (#[trigger] plan.skip(j as int + 1)[a]).0,
                    (#[trigger] plan.skip(j as int + 1)[b]).0,
                ) by {
                    assert(plan.skip(j as int + 1)[a] == plan[j as int + 1 + a]);
                    assert(plan.skip(j as int + 1)[b] == plan[j as int + 1 + b]);
                }
            }
            j += 1;
        }
        proof {
            assert(plan.skip(n as int) =~= Seq::<(Seq<u8>, u64)>::empty());
        }
        Ok(())
    }
}

/// The outcome of the asynchronous external transfer a pool withdrawal
/// hinges on: the ledger's block height on completion, or failure. An
/// abandoned or unconfirmed call must be treated as `Failed`.
#[derive(Debug, Clone, Copy, PartialEq, Eq, Structural)]
pub enum TransferOutcome {
    Completed(u64),
    Failed,
}

impl CanisterState {
    /// Concludes a pool withdrawal, given the plan computed before the
    /// external transfer and the transfer's outcome. If and only if the
    /// transfer completed and the plan still fits the pool, the deductions
    /// are applied; a failed transfer, or a plan outdated by interleaved
    /// operations, leaves the pool exactly as it was.
    pub fn withdraw_from_liq_pool(
        &mut self,
        to_deduct: &Vec<(L1Account, Amount)>,
        outcome: TransferOutcome,
    ) -> (r: Result<u64, Error>)
        requires
            old(self).wf(),
        ensures
            final(self).wf(),
            final(self).user_holdings@ == old(self).user_holdings@,
            final(self).channels@ == old(self).channels@,
            final(self).unclaimed@ == old(self).unclaimed@,
            final(self).drained_txs@ == old(self).drained_txs@,
            ({
                let pv = pool_view(old(self).liq_pool_holdings@);
                let plan = pool_view(to_deduct@);
                match outcome {
                    TransferOutcome::Failed => r == Err::<u64, Error>(Error::LedgerError)
                        && final(self).liq_pool_holdings@ == old(self).liq_pool_holdings@,
                    TransferOutcome::Completed(h) => if plan_applicable(pv, plan) {
                        r == Ok::<u64, Error>(h) && pool_view(final(self).liq_pool_holdings@)
                            == pool_deducted(pv, plan) && map_sum(
                            pool_view(final(self).liq_pool_holdings@),
                        ) + map_sum(plan) == map_sum(pv)
                    } else {
                        r == Err::<u64, Error>(Error::InsufficientLiquidity)
                            && final(self).liq_pool_holdings@ == old(self).liq_pool_holdings@
                    },
                }
            }),
    {
        match outcome {
            TransferOutcome::Failed => Err(Error::LedgerError),
            TransferOutcome::Completed(h) => {
                match self.apply_deductions(to_deduct) {
                    Ok(()) => Ok(h),
                    Err(e) => Err(e),
                }
            },
        }
    }
}


// ---------------------------------------------------------------------------
// Deposit reconciliation
// ---------------------------------------------------------------------------

/// Whether a vector of transaction references holds `x`.
fn contains_u64(v: &Vec<u64>, x: u64) -> (r: bool)
    ensures
        r == v@.contains(x),
{
    let n = v.len();
    let mut i: usize = 0;
    while i < n
        invariant
            i <= n,
            n == v@.len(),
            forall|j: int| 0 <= j < i ==> v@[j] != x,
        decreases n - i,
    {
        if v[i] == x {
            assert(v@.contains(x));
            return true;
        }
        i += 1;
    }
    proof {
        if v@.contains(x) {
            let j = choose|j: int| 0 <= j < v@.len() && v@[j] == x;
            assert(false);
        }
    }
    false
}

/// Whether a claimed external transaction is accepted for crediting: its
/// verification succeeded, its reference was never consumed before, and the
/// accumulated amount under the memo still fits the amount type.
pub open spec fn reconcile_accepts(
    drained: Seq<u64>,
    uv: Seq<(u64, u64)>,
    tx: u64,
    amount: u64,
    memo: u64,
    verified: bool,
) -> bool {
    verified && !drained.contains(tx) && bal(uv, memo) + amount <= u64::MAX
}

/// The unclaimed-deposits map after a transaction is processed: credited
/// under its memo when accepted, untouched otherwise.
pub open spec fn reconcile_unclaimed(
    drained: Seq<u64>,
    uv: Seq<(u64, u64)>,
    tx: u64,
    amount: u64,
    memo: u64,
    verified: bool,
) -> Seq<(u64, u64)> {
    if reconcile_accepts(drained, uv, tx, amount, memo, verified) {
        map_set(uv, memo, (bal(uv, memo) + amount) as u64)
    } else {
        uv
    }
}

/// The drained-references set after a transaction is processed: extended by
/// the reference when accepted, untouched otherwise.
pub open spec fn reconcile_drained(
    drained: Seq<u64>,
    uv: Seq<(u64, u64)>,
    tx: u64,
    amount: u64,
    memo: u64,
    verified: bool,
) -> Seq<u64> {
    if reconcile_accepts(drained, uv, tx, amount, memo, verified) {
        drained.push(tx)
    } else {
        drained
    }
}

impl CanisterState {
    /// Records an externally verified deposit transaction under the memo of
    /// its funding. `verified` is the outcome of the external-ledger
    /// verification performed by the caller: the transaction exists, pays
    /// this ledger `amount`, and carries the funding's memo. A transaction
    /// reference that was consumed before is never credited again; on any
    /// failure nothing is recorded.
    pub fn process_icrc_tx(&mut self, tx: u64, amount: Amount, funding: Funding, verified: bool)
        -> (r: Option<u64>)
        requires
            old(self).wf(),
        ensures
            final(self).wf(),
            final(self).user_holdings@ == old(self).user_holdings@,
            final(self).channels@ == old(self).channels@,
            final(self).liq_pool_holdings@ == old(self).liq_pool_holdings@,
            ({
                let uv = old(self).unclaimed@;
                let dr = old(self).drained_txs@;
                let k = memo_of(funding);
                &&& final(self).unclaimed@ == reconcile_unclaimed(dr, uv, tx, amount, k, verified)
                &&& final(self).drained_txs@ == reconcile_drained(dr, uv, tx, amount, k, verified)
                &&& r == if reconcile_accepts(dr, uv, tx, amount, k, verified) {
                    Some(amount)
                } else {
                    Option::<u64>::None
                }
                &&& (reconcile_accepts(dr, uv, tx, amount, k, verified) ==> bal(
                    final(self).unclaimed@,
                    k,
                ) == bal(uv, k) + amount && final(self).drained_txs@.contains(tx))
            }),
    {
        if !verified {
            return None;
        }
        if contains_u64(&self.drained_txs, tx) {
            return None;
        }
        let memo = funding.memo();
        let ghost uv = self.unclaimed@;
        let ghost k = memo_of(funding);
        match find_unclaimed(&self.unclaimed, memo) {
            Some(i) => {
                let cur = self.unclaimed[i].1;
                proof {
                    assert(bal(uv, k) == cur);
                }
                if amount > u64::MAX - cur {
                    return None;
                }
                self.unclaimed.set(i, (memo, cur + amount));
                proof {
                    assert(self.unclaimed@ =~= uv.update(i as int, (k, (cur + amount) as u64)));
                    lemma_map_set(uv, k, (cur + amount) as u64);
                }
            },
            None => {
                proof {
                    assert(bal(uv, k) == 0);
                }
                self.unclaimed.push((memo, amount));
                proof {
                    assert(self.unclaimed@ =~= uv.push((k, amount)));
                    lemma_map_set(uv, k, amount);
                }
            },
        }
        self.drained_txs.push(tx);
        proof {
            assert(self.drained_txs@[self.drained_txs@.len() - 1] == tx);
            assert(self.drained_txs@.contains(tx));
        }
        Some(amount)
    }

    /// Credits to `funding` everything that verified external transactions
    /// have accumulated under its memo, and clears that accumulation: the
    /// drain-and-credit step of deposit reconciliation. Fails, changing
    /// nothing, only when the funding's balance would no longer fit the
    /// amount type.
    pub fn deposit_icrc(&mut self, _time: Timestamp, funding: Funding) -> (r: Result<(), Error>)
        requires
            old(self).wf(),
        ensures
            final(self).wf(),
            final(self).channels@ == old(self).channels@,
            final(self).liq_pool_holdings@ == old(self).liq_pool_holdings@,
            final(self).drained_txs@ == old(self).drained_txs@,
            ({
                let uv = old(self).unclaimed@;
                let k = memo_of(funding);
                let a = bal(uv, k);
                let hv = holdings_view(old(self).user_holdings@);
                let fk = fkey(funding);
                if bal(hv, fk) + a <= u64::MAX {
                    &&& r == Ok::<(), Error>(())
                    &&& final(self).unclaimed@ == map_remove(uv, k)
                    &&& !map_contains(final(self).unclaimed@, k)
                    &&& holdings_view(final(self).user_holdings@) == map_set(
                        hv,
                        fk,
                        (bal(hv, fk) + a) as u64,
                    )
                    &&& bal(holdings_view(final(self).user_holdings@), fk) == bal(hv, fk) + a
                    &&& map_sum(holdings_view(final(self).user_holdings@)) == map_sum(hv) + a
                } else {
                    &&& r == Err::<(), Error>(Error::InvalidInput)
                    &&& final(self).unclaimed@ == old(self).unclaimed@
                    &&& final(self).user_holdings@ == old(self).user_holdings@
                }
            }),
    {
        let memo = funding.memo();
        let ghost uv = self.unclaimed@;
        let ghost k = memo_of(funding);
        let ghost hv = holdings_view(self.user_holdings@);
        let ghost fk = fkey(funding);
        let a: u64 = match find_unclaimed(&self.unclaimed, memo) {
            Some(i) => self.unclaimed[i].1,
            None => 0,
        };
        proof {
            assert(a == bal(uv, k));
        }
        let cur: u64 = match find_holding(&self.user_holdings, &funding) {
            Some(j) => {
                proof {
                    assert(hv[map_at(hv, fk)].1 == map_get(hv, fk));
                }
                self.user_holdings[j].1
            },
            None => 0,
        };
        proof {
            assert(cur == bal(hv, fk));
        }
        if a > u64::MAX - cur {
            return Err(Error::InvalidInput);
        }
        match find_unclaimed(&self.unclaimed, memo) {
            Some(i) => {
                self.unclaimed.remove(i);
                proof {
                    assert(self.unclaimed@ =~= uv.remove(i as int));
                    lemma_map_remove(uv, k);
                }
            },
            None => {
                proof {
                    lemma_map_remove(uv, k);
                }
            },
        }
        match self.deposit(funding, a) {
            Ok(()) => Ok(()),
            Err(e) => Err(e),
        }
    }
}

// ---------------------------------------------------------------------------
// Plain withdrawal result codes
// ---------------------------------------------------------------------------

/// How an external ledger transfer can fail, as the plain-withdrawal path
/// reports it: one case for each error of the external transfer interface,
/// and one for a call that was not answered at all.
#[derive(Debug, Clone, Copy, PartialEq, Eq, Structural)]
pub enum TransferFailure {
    BadFee,
    BadBurn,
    InsufficientFunds,
    TooOld,
    CreatedInFuture,
    Duplicate,
    TemporarilyUnavailable,
    GenericError,
    CallRejected,
}

/// The numeric result a plain withdrawal reports upward: the ledger's block
/// height when the transfer succeeded, or a fixed diagnostic code for each
/// kind of failure.
pub fn simple_withdraw_code(outcome: Result<u64, TransferFailure>) -> (r: u64)
    ensures
        match outcome {
            Ok(h) => r == h,
            Err(f) => r == match f {
                TransferFailure::BadFee => 111u64,
                TransferFailure::BadBurn => 112u64,
                TransferFailure::InsufficientFunds => 222u64,
                TransferFailure::TooOld => 333u64,
                TransferFailure::CreatedInFuture => 444u64,
                TransferFailure::Duplicate => 555u64,
                TransferFailure::TemporarilyUnavailable => 666u64,
                TransferFailure::GenericError => 777u64,
                TransferFailure::CallRejected => 999u64,
            },
        },
{
    match outcome {
        Ok(h) => h,
        Err(TransferFailure::BadFee) => 111,
        Err(TransferFailure::BadBurn) => 112,
        Err(TransferFailure::InsufficientFunds) => 222,
        Err(TransferFailure::TooOld) => 333,
        Err(TransferFailure::CreatedInFuture) => 444,
        Err(TransferFailure::Duplicate) => 555,
        Err(TransferFailure::TemporarilyUnavailable) => 666,
        Err(TransferFailure::GenericError) => 777,
        Err(TransferFailure::CallRejected) => 999,
    }
}

} // verus!
