use perun_ledger::types::bytes_eq;
use perun_ledger::types::bytes_lt;
use perun_ledger::types::to_nanoseconds;
use perun_ledger::types::u64_from_first8;
use perun_ledger::types::u64_to_le_bytes;
use perun_ledger::types::ChannelId;
use perun_ledger::types::Funding;
use perun_ledger::types::L2Account;
use perun_ledger::types::Nonce;
use perun_ledger::types::Params;
use perun_ledger::types::RegisteredState;
use perun_ledger::types::State;

#[test]
fn digest_is_sha512() {
    // SHA-512 of the empty message starts cf 83 e1 35 and is 64 bytes long;
    // a digest that echoed its input would return nothing here.
    let h = perun_ledger::types::Hash::digest(&[]);
    assert_eq!(h.0.len(), 64);
    assert_eq!(h.0[0], 0xcf);
    assert_eq!(h.0[1], 0x83);
    assert_eq!(h.0[2], 0xe1);
    assert_eq!(h.0[3], 0x35);
    // Distinct inputs give distinct digests.
    let h2 = perun_ledger::types::Hash::digest(b"abc");
    assert_ne!(h.0, h2.0);
    assert_eq!(h2.0.len(), 64);
    // SHA-512 of "abc" starts dd af 35 a1.
    assert_eq!(h2.0[0], 0xdd);
    assert_eq!(h2.0[1], 0xaf);
    assert_eq!(h2.0[2], 0x35);
    assert_eq!(h2.0[3], 0xa1);
}

#[test]
fn memo_matches_digest_prefix() {
    // The memo is the first 8 bytes, little-endian, of the digest of the
    // channel id and participant key bytes.
    let f = Funding::new(ChannelId(vec![5u8; 32]), L2Account(vec![9u8; 33]));
    let mut data = f.channel.0.clone();
    data.extend_from_slice(&f.participant.0);
    let h = perun_ledger::types::Hash::digest(&data);
    let expected = u64::from_le_bytes([
        h.0[0], h.0[1], h.0[2], h.0[3], h.0[4], h.0[5], h.0[6], h.0[7],
    ]);
    assert_eq!(f.memo(), expected);
    // Memos are deterministic.
    assert_eq!(f.memo(), f.memo());
}

#[test]
fn params_id_is_deterministic_and_32_bytes() {
    let params = Params {
        nonce: Nonce(vec![7u8; 32]),
        participants: vec![L2Account(vec![1u8; 33]), L2Account(vec![2u8; 33])],
        challenge_duration: 60,
    };
    let id1 = params.id();
    let id2 = params.id();
    assert_eq!(id1.0.len(), 32);
    assert_eq!(id1, id2);
    // A different nonce gives a different id.
    let other = Params {
        nonce: Nonce(vec![8u8; 32]),
        participants: params.participants.clone(),
        challenge_duration: 60,
    };
    assert_ne!(params.id(), other.id());
    // A different challenge duration gives a different id.
    let third = Params {
        nonce: Nonce(vec![7u8; 32]),
        participants: params.participants.clone(),
        challenge_duration: 61,
    };
    assert_ne!(params.id(), third.id());
}

#[test]
fn le_bytes_round_trip() {
    let x: u64 = 0x0102_0304_0506_0708;
    let b = u64_to_le_bytes(x);
    assert_eq!(b, vec![0x08, 0x07, 0x06, 0x05, 0x04, 0x03, 0x02, 0x01]);
    assert_eq!(u64_from_first8(&b), x);
    let zero = u64_to_le_bytes(0);
    assert_eq!(zero, vec![0u8; 8]);
    let max = u64_to_le_bytes(u64::MAX);
    assert_eq!(max, vec![0xffu8; 8]);
    assert_eq!(u64_from_first8(&max), u64::MAX);
}

#[test]
fn byte_order_helpers() {
    assert!(bytes_eq(&vec![1, 2, 3], &vec![1, 2, 3]));
    assert!(!bytes_eq(&vec![1, 2, 3], &vec![1, 2, 4]));
    assert!(!bytes_eq(&vec![1, 2], &vec![1, 2, 3]));
    assert!(bytes_lt(&vec![1, 2], &vec![1, 3]));
    assert!(bytes_lt(&vec![1, 2], &vec![1, 2, 0]));
    assert!(!bytes_lt(&vec![1, 3], &vec![1, 2]));
    assert!(!bytes_lt(&vec![2], &vec![2]));
}

#[test]
fn id_from_bytes_validates_length() {
    assert!(ChannelId::from_bytes(vec![0u8; 32]).is_ok());
    assert!(ChannelId::from_bytes(vec![0u8; 31]).is_err());
    assert!(Nonce::from_bytes(vec![0u8; 32]).is_ok());
    assert!(Nonce::from_bytes(vec![0u8; 33]).is_err());
}

#[test]
fn state_total_and_underfunded() {
    let s = State {
        channel: ChannelId::default(),
        version: 0,
        allocation: vec![10, 20, 30],
        finalized: false,
    };
    assert_eq!(s.total(), 60);
    assert!(s.may_be_underfunded());
    let s2 = State { version: 1, ..s };
    assert!(!s2.may_be_underfunded());
    let s3 = State {
        channel: ChannelId::default(),
        version: 0,
        allocation: vec![u64::MAX, u64::MAX],
        finalized: true,
    };
    assert!(!s3.may_be_underfunded());
    assert_eq!(s3.total(), (u64::MAX as u128) * 2);
}

#[test]
fn settled_gating() {
    let rs = RegisteredState {
        state: State {
            channel: ChannelId::default(),
            version: 1,
            allocation: vec![1],
            finalized: false,
        },
        timeout: 100,
    };
    assert!(!rs.settled(99));
    assert!(rs.settled(100));
    assert!(rs.settled(101));
    let fin = RegisteredState {
        state: State { finalized: true, ..rs.state },
        timeout: 100,
    };
    assert!(fin.settled(0));
}

#[test]
fn nanosecond_conversion() {
    assert_eq!(to_nanoseconds(0), 0);
    assert_eq!(to_nanoseconds(3), 3_000_000_000);
}
