use perun_ledger::error::Error;
use perun_ledger::ledger::CanisterState;
use perun_ledger::ledger::TransferOutcome;
use perun_ledger::types::ChannelId;
use perun_ledger::types::Funding;
use perun_ledger::types::L1Account;
use perun_ledger::types::L2Account;
use perun_ledger::types::Nonce;
use perun_ledger::types::Params;
use perun_ledger::types::RegisteredState;
use perun_ledger::types::State;

fn single_party_params() -> Params {
    Params {
        nonce: Nonce(vec![7u8; 32]),
        participants: vec![L2Account(vec![1u8; 33])],
        challenge_duration: 1_000,
    }
}

fn funding_of(params: &Params) -> Funding {
    Funding::new(params.id(), params.participants[0].clone())
}

fn registered(channel: ChannelId, version: u64, allocation: Vec<u64>, finalized: bool, timeout: u64) -> RegisteredState {
    RegisteredState {
        state: State { channel, version, allocation, finalized },
        timeout,
    }
}

#[test]
fn deposit_then_holdings_total() {
    // Depositing 100 to a channel with a single participant makes that
    // channel's funding total 100.
    let params = single_party_params();
    let mut st = CanisterState::new();
    let f = funding_of(&params);
    assert_eq!(st.query_holdings(f.clone()), None);
    st.deposit(f.clone(), 100).unwrap();
    assert_eq!(st.query_holdings(f.clone()), Some(100));
    assert_eq!(st.holdings_total(&params), 100);
}

#[test]
fn register_overwrites_holdings() {
    // Registering a fully funded state overwrites the holdings with the
    // adjudicated allocation: 100 deposited, allocation [80] -> balance 80.
    let params = single_party_params();
    let mut st = CanisterState::new();
    let f = funding_of(&params);
    st.deposit(f.clone(), 100).unwrap();
    let rs = registered(params.id(), 1, vec![80], false, 5_000);
    st.register_channel(&params, rs).unwrap();
    assert_eq!(st.query_holdings(f.clone()), Some(80));
    assert_eq!(st.holdings_total(&params), 80);
    let stored = st.state(&params.id()).unwrap();
    assert_eq!(stored.state.version, 1);
    assert_eq!(stored.timeout, 5_000);
}

#[test]
fn register_underfunded_non_initial_fails() {
    // A version-1 state allocating 120 against holdings of 100 is refused,
    // and neither holdings nor registry change.
    let params = single_party_params();
    let mut st = CanisterState::new();
    let f = funding_of(&params);
    st.deposit(f.clone(), 100).unwrap();
    let rs = registered(params.id(), 1, vec![120], false, 5_000);
    assert_eq!(st.register_channel(&params, rs), Err(Error::InsufficientFunding));
    assert_eq!(st.query_holdings(f.clone()), Some(100));
    assert!(st.state(&params.id()).is_none());
}

#[test]
fn register_underfunded_initial_keeps_holdings() {
    // A version-0, unfinalized state may be underfunded: it is stored, and
    // the holdings are not touched.
    let params = single_party_params();
    let mut st = CanisterState::new();
    let f = funding_of(&params);
    st.deposit(f.clone(), 10).unwrap();
    let rs = registered(params.id(), 0, vec![120], false, 5_000);
    st.register_channel(&params, rs).unwrap();
    assert_eq!(st.query_holdings(f.clone()), Some(10));
    let stored = st.state(&params.id()).unwrap();
    assert_eq!(stored.state.version, 0);
}

#[test]
fn register_outdated_version_fails() {
    // Registering a version not above the stored one fails OutdatedState and
    // leaves registry and ledger unchanged.
    let params = single_party_params();
    let mut st = CanisterState::new();
    let f = funding_of(&params);
    st.deposit(f.clone(), 100).unwrap();
    st.register_channel(&params, registered(params.id(), 2, vec![60], false, 5_000)).unwrap();
    assert_eq!(st.query_holdings(f.clone()), Some(60));
    let again = registered(params.id(), 2, vec![50], false, 9_000);
    assert_eq!(st.register_channel(&params, again), Err(Error::OutdatedState));
    let lower = registered(params.id(), 1, vec![40], false, 9_000);
    assert_eq!(st.register_channel(&params, lower), Err(Error::OutdatedState));
    assert_eq!(st.query_holdings(f.clone()), Some(60));
    let stored = st.state(&params.id()).unwrap();
    assert_eq!(stored.state.version, 2);
    assert_eq!(stored.state.allocation, vec![60]);
}

#[test]
fn register_wrong_channel_id_fails() {
    // The state's channel id must equal the id derived from the parameters.
    let params = single_party_params();
    let mut st = CanisterState::new();
    let rs = registered(ChannelId(vec![9u8; 32]), 0, vec![0], false, 5_000);
    assert_eq!(st.register_channel(&params, rs), Err(Error::InvalidInput));
}

#[test]
fn register_wrong_allocation_length_fails() {
    // The allocation must be parallel to the participant list.
    let params = single_party_params();
    let mut st = CanisterState::new();
    let rs = registered(params.id(), 0, vec![1, 2], false, 5_000);
    assert_eq!(st.register_channel(&params, rs), Err(Error::InvalidInput));
}

#[test]
fn settlement_gates_withdrawal() {
    // Before settlement a withdrawal fails NotFinalized; after the timeout it
    // succeeds; a second withdrawal of the same funding returns 0.
    let params = single_party_params();
    let mut st = CanisterState::new();
    let f = funding_of(&params);
    st.deposit(f.clone(), 100).unwrap();
    let rs = registered(params.id(), 1, vec![100], false, 5_000);
    st.register_channel(&params, rs).unwrap();

    let req = perun_ledger::types::WithdrawalRequest {
        funding: f.clone(),
        amount: 100,
        participant: params.participants[0].clone(),
        time: 0,
        receiver: L1Account(vec![3u8; 29]),
    };
    // Challenge window still open, state not finalized.
    assert_eq!(st.withdraw(&req, 4_999), Err(Error::NotFinalized));
    assert_eq!(st.query_holdings(f.clone()), Some(100));
    // Window elapsed.
    assert_eq!(st.withdraw(&req, 5_000), Ok(100));
    assert_eq!(st.query_holdings(f.clone()), None);
    // Idempotent removal: a second withdrawal returns 0, not an error.
    assert_eq!(st.withdraw(&req, 5_000), Ok(0));
}

#[test]
fn finalized_state_is_settled_immediately() {
    let params = single_party_params();
    let mut st = CanisterState::new();
    let f = funding_of(&params);
    st.deposit(f.clone(), 40).unwrap();
    let rs = registered(params.id(), 1, vec![40], true, u64::MAX);
    st.register_channel(&params, rs).unwrap();
    let stored = st.state(&params.id()).unwrap();
    assert!(stored.settled(0));
    let req = perun_ledger::types::WithdrawalRequest {
        funding: f.clone(),
        amount: 40,
        participant: params.participants[0].clone(),
        time: 0,
        receiver: L1Account(vec![3u8; 29]),
    };
    assert_eq!(st.withdraw(&req, 0), Ok(40));
}

#[test]
fn withdraw_unregistered_channel_fails() {
    let params = single_party_params();
    let mut st = CanisterState::new();
    let f = funding_of(&params);
    st.deposit(f.clone(), 10).unwrap();
    let req = perun_ledger::types::WithdrawalRequest {
        funding: f.clone(),
        amount: 10,
        participant: params.participants[0].clone(),
        time: 0,
        receiver: L1Account(vec![3u8; 29]),
    };
    assert_eq!(st.withdraw(&req, u64::MAX), Err(Error::NotFinalized));
    assert_eq!(st.query_holdings(f), Some(10));
}

#[test]
fn pool_withdrawal_plan_and_commit() {
    // Pool {A:30, B:50}; withdrawing 40 plans 30 from A and 10 from B, in
    // ascending account order; after a completed transfer the pool is {B:40}
    // and A's entry is removed.
    let a = L1Account(vec![1u8; 29]);
    let b = L1Account(vec![2u8; 29]);
    let mut st = CanisterState::new();
    st.deposit_liq_pool(0, 50, b.clone()).unwrap();
    st.deposit_liq_pool(0, 30, a.clone()).unwrap();
    let (total, plan) = st.calculate_required_deductions(40).unwrap();
    assert_eq!(total, 40);
    assert_eq!(plan.len(), 2);
    assert_eq!(plan[0].0, a);
    assert_eq!(plan[0].1, 30);
    assert_eq!(plan[1].0, b);
    assert_eq!(plan[1].1, 10);
    let r = st.withdraw_from_liq_pool(&plan, TransferOutcome::Completed(77));
    assert_eq!(r, Ok(77));
    assert_eq!(st.query_liq_holdings(a.clone()), None);
    assert_eq!(st.query_liq_holdings(b.clone()), Some(40));
}

#[test]
fn pool_withdrawal_failed_transfer_changes_nothing() {
    // Same pool, withdrawing 40, but the transfer fails: the pool stays
    // exactly {A:30, B:50}.
    let a = L1Account(vec![1u8; 29]);
    let b = L1Account(vec![2u8; 29]);
    let mut st = CanisterState::new();
    st.deposit_liq_pool(0, 30, a.clone()).unwrap();
    st.deposit_liq_pool(0, 50, b.clone()).unwrap();
    let (_, plan) = st.calculate_required_deductions(40).unwrap();
    let r = st.withdraw_from_liq_pool(&plan, TransferOutcome::Failed);
    assert_eq!(r, Err(Error::LedgerError));
    assert_eq!(st.query_liq_holdings(a.clone()), Some(30));
    assert_eq!(st.query_liq_holdings(b.clone()), Some(50));
}

#[test]
fn pool_withdrawal_insufficient_liquidity() {
    let a = L1Account(vec![1u8; 29]);
    let mut st = CanisterState::new();
    st.deposit_liq_pool(0, 30, a.clone()).unwrap();
    assert_eq!(st.calculate_required_deductions(31).unwrap_err(), Error::InsufficientLiquidity);
    // The pool itself is untouched by a failed planning step.
    assert_eq!(st.query_liq_holdings(a), Some(30));
}

#[test]
fn pool_commit_rejects_stale_plan() {
    // A plan computed against an earlier pool is re-validated at commit: if
    // an interleaved withdrawal drained a planned account, the commit aborts
    // and the pool is left as it stands.
    let a = L1Account(vec![1u8; 29]);
    let b = L1Account(vec![2u8; 29]);
    let mut st = CanisterState::new();
    st.deposit_liq_pool(0, 30, a.clone()).unwrap();
    st.deposit_liq_pool(0, 50, b.clone()).unwrap();
    let (_, plan) = st.calculate_required_deductions(40).unwrap();
    // An interleaved operation consumes A's whole balance.
    let (_, other_plan) = st.calculate_required_deductions(80).unwrap();
    st.withdraw_from_liq_pool(&other_plan, TransferOutcome::Completed(1)).unwrap();
    // The stale plan no longer fits.
    let r = st.withdraw_from_liq_pool(&plan, TransferOutcome::Completed(2));
    assert_eq!(r, Err(Error::InsufficientLiquidity));
    assert_eq!(st.query_liq_holdings(a), None);
    assert_eq!(st.query_liq_holdings(b), None);
}

#[test]
fn reconcile_credits_exactly_once() {
    // Draining the same external transaction reference twice credits the
    // ledger exactly once.
    let params = single_party_params();
    let mut st = CanisterState::new();
    let f = funding_of(&params);
    assert_eq!(st.process_icrc_tx(42, 100, f.clone(), true), Some(100));
    // The same reference again: no credit, whatever is claimed.
    assert_eq!(st.process_icrc_tx(42, 100, f.clone(), true), None);
    assert_eq!(st.process_icrc_tx(42, 999, f.clone(), true), None);
    st.deposit_icrc(0, f.clone()).unwrap();
    assert_eq!(st.query_holdings(f.clone()), Some(100));
    // Draining again finds nothing more.
    st.deposit_icrc(0, f.clone()).unwrap();
    assert_eq!(st.query_holdings(f.clone()), Some(100));
}

#[test]
fn reconcile_rejects_unverified() {
    let params = single_party_params();
    let mut st = CanisterState::new();
    let f = funding_of(&params);
    assert_eq!(st.process_icrc_tx(7, 100, f.clone(), false), None);
    st.deposit_icrc(0, f.clone()).unwrap();
    // Nothing was credited: draining an empty memo credits 0, and a zero
    // balance is equivalent to no balance.
    assert_eq!(st.query_holdings(f), Some(0));
}

#[test]
fn deposit_overflow_is_rejected() {
    let params = single_party_params();
    let mut st = CanisterState::new();
    let f = funding_of(&params);
    st.deposit(f.clone(), u64::MAX).unwrap();
    assert_eq!(st.deposit(f.clone(), 1), Err(Error::InvalidInput));
    assert_eq!(st.query_holdings(f), Some(u64::MAX));
}

#[test]
fn conservation_over_a_run() {
    // Deposits minus withdrawals accounts for every balance over a run of
    // operations on several fundings of one channel.
    let params = Params {
        nonce: Nonce(vec![7u8; 32]),
        participants: vec![L2Account(vec![1u8; 33]), L2Account(vec![2u8; 33])],
        challenge_duration: 1_000,
    };
    let mut st = CanisterState::new();
    let f1 = Funding::new(params.id(), params.participants[0].clone());
    let f2 = Funding::new(params.id(), params.participants[1].clone());
    st.deposit(f1.clone(), 60).unwrap();
    st.deposit(f2.clone(), 40).unwrap();
    st.deposit(f1.clone(), 5).unwrap();
    assert_eq!(st.holdings_total(&params), 105);
    let rs = registered(params.id(), 1, vec![70, 35], true, 0);
    st.register_channel(&params, rs).unwrap();
    assert_eq!(st.holdings_total(&params), 105);
    let req = perun_ledger::types::WithdrawalRequest {
        funding: f1.clone(),
        amount: 70,
        participant: params.participants[0].clone(),
        time: 0,
        receiver: L1Account(vec![3u8; 29]),
    };
    assert_eq!(st.withdraw(&req, 1), Ok(70));
    assert_eq!(st.holdings_total(&params), 35);
    assert_eq!(st.query_holdings(f2), Some(35));
}

#[test]
fn withdraw_and_clear_pays_once() {
    let params = single_party_params();
    let mut st = CanisterState::new();
    let f = funding_of(&params);
    st.deposit(f.clone(), 25).unwrap();
    assert_eq!(st.withdraw_and_clear(&f), 25);
    assert_eq!(st.query_holdings(f.clone()), None);
    assert_eq!(st.withdraw_and_clear(&f), 0);
}

#[test]
fn pool_plan_walks_accounts_in_ascending_order() {
    // Whatever order deposits arrive in, the plan walks accounts in
    // ascending byte order of their identifiers.
    let a = L1Account(vec![1u8; 29]);
    let b = L1Account(vec![2u8; 29]);
    let c = L1Account(vec![3u8; 29]);
    let mut st = CanisterState::new();
    st.deposit_liq_pool(0, 10, c.clone()).unwrap();
    st.deposit_liq_pool(0, 10, a.clone()).unwrap();
    st.deposit_liq_pool(0, 10, b.clone()).unwrap();
    let (total, plan) = st.calculate_required_deductions(25).unwrap();
    assert_eq!(total, 25);
    assert_eq!(plan.len(), 3);
    assert_eq!((plan[0].0.clone(), plan[0].1), (a.clone(), 10));
    assert_eq!((plan[1].0.clone(), plan[1].1), (b.clone(), 10));
    assert_eq!((plan[2].0.clone(), plan[2].1), (c.clone(), 5));
    // A second deposit to an existing account accumulates.
    st.deposit_liq_pool(0, 7, b.clone()).unwrap();
    assert_eq!(st.query_liq_holdings(b), Some(17));
}
