use perun_ledger::ctl::BlockPos;
use perun_ledger::deq::CtlMsg;
use perun_ledger::deq::Deq;
use perun_ledger::deq::Txid;
use perun_ledger::error::Error;
use perun_ledger::ledger::simple_withdraw_code;
use perun_ledger::ledger::TransferFailure;
use perun_ledger::msg::SimpleCtlMsg;

#[test]
fn test_deq_struct() {
    let mut deq = Deq::new();

    deq.enqueue("msg1".to_string());
    deq.enqueue("msg2".to_string());

    assert_eq!(deq.size(), 2);
    assert_eq!(deq.peek(), Some(&"msg1".to_string()));

    assert_eq!(deq.dequeue(), Some("msg1".to_string()));
    assert_eq!(deq.dequeue(), Some("msg2".to_string()));
    assert_eq!(deq.dequeue(), None);

    deq.enqueue("msg3".to_string());
    deq.clear();
    assert_eq!(deq.size(), 0);
    assert_eq!(deq.peek(), None);
}

#[test]
fn queue_keeps_fifo_order() {
    let mut deq = Deq::new();
    assert_eq!(deq.size(), 0);
    assert_eq!(deq.peek(), None);
    deq.enqueue("a".to_string());
    deq.enqueue("b".to_string());
    deq.enqueue("c".to_string());
    assert_eq!(deq.size(), 3);
    assert_eq!(deq.dequeue(), Some("a".to_string()));
    assert_eq!(deq.peek(), Some(&"b".to_string()));
    assert_eq!(deq.dequeue(), Some("b".to_string()));
    assert_eq!(deq.dequeue(), Some("c".to_string()));
    assert_eq!(deq.dequeue(), None);
}

#[test]
fn track_message_carries_its_fields() {
    let txid: Txid = [1u8; 32];
    let msg = SimpleCtlMsg::new_track(txid, 3);
    match msg {
        SimpleCtlMsg::Track { txid: t, depth } => {
            assert_eq!(t, txid);
            assert_eq!(depth, 3);
        }
        SimpleCtlMsg::Hello => panic!("expected a tracking request"),
    }
    let queue_msg = CtlMsg::Track { txid, depth: 3 };
    match queue_msg {
        CtlMsg::Track { txid: t, depth } => {
            assert_eq!(t, txid);
            assert_eq!(depth, 3);
        }
        CtlMsg::Hello => panic!("expected a tracking request"),
    }
}

#[test]
fn block_pos_fields() {
    let p = BlockPos { depth: 1, height: 800_000, pos: 2 };
    let q = p;
    assert_eq!(p, q);
    assert_eq!(q.depth, 1);
    assert_eq!(q.height, 800_000);
    assert_eq!(q.pos, 2);
}

#[test]
fn withdraw_codes_per_failure() {
    assert_eq!(simple_withdraw_code(Ok(123_456)), 123_456);
    assert_eq!(simple_withdraw_code(Err(TransferFailure::BadFee)), 111);
    assert_eq!(simple_withdraw_code(Err(TransferFailure::BadBurn)), 112);
    assert_eq!(simple_withdraw_code(Err(TransferFailure::InsufficientFunds)), 222);
    assert_eq!(simple_withdraw_code(Err(TransferFailure::TooOld)), 333);
    assert_eq!(simple_withdraw_code(Err(TransferFailure::CreatedInFuture)), 444);
    assert_eq!(simple_withdraw_code(Err(TransferFailure::Duplicate)), 555);
    assert_eq!(simple_withdraw_code(Err(TransferFailure::TemporarilyUnavailable)), 666);
    assert_eq!(simple_withdraw_code(Err(TransferFailure::GenericError)), 777);
    assert_eq!(simple_withdraw_code(Err(TransferFailure::CallRejected)), 999);
}

#[test]
fn error_kinds_are_distinct() {
    let all = [
        Error::Authentication,
        Error::NotFinalized,
        Error::AlreadyConcluded,
        Error::InvalidInput,
        Error::InsufficientFunding,
        Error::InsufficientLiquidity,
        Error::OutdatedState,
        Error::LedgerError,
        Error::ConfirmationError,
    ];
    for (i, a) in all.iter().enumerate() {
        for (j, b) in all.iter().enumerate() {
            assert_eq!(a == b, i == j);
        }
    }
}
