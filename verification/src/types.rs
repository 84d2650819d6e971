//! Value types of the channel ledger: identifiers, amounts, channel
//! parameters and states, and the digest-derived channel id and deposit memo.

use vstd::prelude::*;
use vstd::arithmetic::div_mod::lemma_div_denominator;

verus! {

/// An amount of currency, in the ledger's smallest unit.
pub type Amount = u64;

/// Duration in nanoseconds.
pub type Duration = u64;

/// Timestamp in nanoseconds.
pub type Timestamp = u64;

/// Channel state version identifier.
pub type Version = u64;

// ---------------------------------------------------------------------------
// Byte-sequence helpers
// ---------------------------------------------------------------------------

/// Compares two byte vectors for equality of their contents.
pub fn bytes_eq(a: &Vec<u8>, b: &Vec<u8>) -> (r: bool)
    ensures
        r == (a@ == b@),
{
    if a.len() != b.len() {
        assert(a@ != b@);
        return false;
    }
    let n = a.len();
    let mut i: usize = 0;
    while i < n
        invariant
            n == a@.len() == b@.len(),
            i <= n,
            forall|j: int| 0 <= j < i ==> a@[j] == b@[j],
        decreases n - i,
    {
        if a[i] != b[i] {
            return false;
        }
        i += 1;
    }
    proof {
        assert(a@ =~= b@);
    }
    true
}

/// Strict lexicographic order on byte sequences; a proper prefix precedes
/// its extensions.
pub open spec fn lex_lt(a: Seq<u8>, b: Seq<u8>) -> bool
    decreases a.len(),
{
    if a.len() == 0 {
        b.len() > 0
    } else if b.len() == 0 {
        false
    } else if a[0] != b[0] {
        a[0] < b[0]
    } else {
        lex_lt(a.drop_first(), b.drop_first())
    }
}

/// Sequences that agree on their first `i` elements compare as their tails do.
pub proof fn lemma_lex_skip(a: Seq<u8>, b: Seq<u8>, i: int)
    requires
        0 <= i <= a.len(),
        i <= b.len(),
        forall|j: int| 0 <= j < i ==> a[j] == b[j],
    ensures
        lex_lt(a, b) == lex_lt(a.skip(i), b.skip(i)),
    decreases i,
{
    if i > 0 {
        assert(a.drop_first().skip(i - 1) =~= a.skip(i));
        assert(b.drop_first().skip(i - 1) =~= b.skip(i));
        lemma_lex_skip(a.drop_first(), b.drop_first(), i - 1);
    } else {
        assert(a.skip(0) =~= a);
        assert(b.skip(0) =~= b);
    }
}

/// The order is connex: two sequences that are not strictly ordered either
/// way are equal.
pub proof fn lemma_lex_connex(a: Seq<u8>, b: Seq<u8>)
    requires
        !lex_lt(a, b),
        !lex_lt(b, a),
    ensures
        a == b,
    decreases a.len(),
{
    if a.len() > 0 && b.len() > 0 {
        assert(a[0] == b[0]);
        lemma_lex_connex(a.drop_first(), b.drop_first());
        assert forall|j: int| 0 <= j < a.len() implies a[j] == b[j] by {
            if j > 0 {
                assert(a.drop_first()[j - 1] == b.drop_first()[j - 1]);
            }
        }
        assert(a =~= b);
    } else {
        assert(a =~= b);
    }
}

/// The order is irreflexive.
pub proof fn lemma_lex_irrefl(a: Seq<u8>)
    ensures
        !lex_lt(a, a),
    decreases a.len(),
{
    if a.len() > 0 {
        lemma_lex_irrefl(a.drop_first());
    }
}

/// The order is transitive.
pub proof fn lemma_lex_trans(a: Seq<u8>, b: Seq<u8>, c: Seq<u8>)
    requires
        lex_lt(a, b),
        lex_lt(b, c),
    ensures
        lex_lt(a, c),
    decreases a.len(),
{
    if a.len() > 0 && b.len() > 0 && c.len() > 0 && a[0] == b[0] && b[0] == c[0] {
        lemma_lex_trans(a.drop_first(), b.drop_first(), c.drop_first());
    }
}

/// Decides the strict lexicographic order on two byte vectors.
pub fn bytes_lt(a: &Vec<u8>, b: &Vec<u8>) -> (r: bool)
    ensures
        r == lex_lt(a@, b@),
{
    let an = a.len();
    let bn = b.len();
    let n = if an < bn { an } else { bn };
    let mut i: usize = 0;
    while i < n
        invariant
            n <= a@.len(),
            n <= b@.len(),
            n == if a@.len() < b@.len() { a@.len() } else { b@.len() },
            i <= n,
            forall|j: int| 0 <= j < i ==> a@[j] == b@[j],
        decreases n - i,
    {
        if a[i] != b[i] {
            proof {
                lemma_lex_skip(a@, b@, i as int);
            }
            return a[i] < b[i];
        }
        i += 1;
    }
    proof {
        lemma_lex_skip(a@, b@, n as int);
    }
    an < bn
}

// ---------------------------------------------------------------------------
// Little-endian codecs
// ---------------------------------------------------------------------------

/// 256 to the power `n`.
pub open spec fn pow256(n: nat) -> nat
    decreases n,
{
    if n == 0 {
        1
    } else {
        256 * pow256((n - 1) as nat)
    }
}

pub proof fn lemma_pow256_mono(a: nat, b: nat)
    requires
        a <= b,
    ensures
        pow256(a) <= pow256(b),
        pow256(a) >= 1,
    decreases b,
{
    if b > 0 {
        if a <= b - 1 {
            lemma_pow256_mono(a, (b - 1) as nat);
        } else {
            lemma_pow256_mono((a - 1) as nat, (b - 1) as nat);
        }
    }
}

/// The little-endian byte `i` of `x`.
pub open spec fn le_byte(x: u64, i: int) -> u8 {
    ((x as nat / pow256(i as nat)) % 256) as u8
}

/// The 8 little-endian bytes of a 64-bit integer.
pub open spec fn le_bytes_of_u64(x: u64) -> Seq<u8> {
    Seq::new(8, |i: int| le_byte(x, i))
}

/// Encodes a 64-bit integer as its 8 little-endian bytes.
pub fn u64_to_le_bytes(x: u64) -> (r: Vec<u8>)
    ensures
        r@ == le_bytes_of_u64(x),
{
    let mut r: Vec<u8> = Vec::new();
    let mut cur: u64 = x;
    let mut i: usize = 0;
    proof {
        assert(pow256(0) == 1);
        assert(x as nat / 1 == x as nat);
    }
    while i < 8
        invariant
            i <= 8,
            r@.len() == i,
            cur as nat == x as nat / pow256(i as nat),
            forall|j: int| 0 <= j < i ==> r@[j] == le_byte(x, j),
        decreases 8 - i,
    {
        r.push((cur % 256) as u8);
        proof {
            lemma_pow256_mono(0, i as nat);
            lemma_div_denominator(x as int, pow256(i as nat) as int, 256);
            assert(pow256(i as nat) * 256 == 256 * pow256(i as nat));
            assert((i + 1) as nat == i as nat + 1);
            assert(pow256(i as nat + 1) == 256 * pow256(i as nat));
        }
        cur = cur / 256;
        i += 1;
    }
    proof {
        assert(r@ =~= le_bytes_of_u64(x));
    }
    r
}

/// The value of a little-endian byte sequence.
pub open spec fn le_val(b: Seq<u8>) -> nat
    decreases b.len(),
{
    if b.len() == 0 {
        0
    } else {
        (b[0] + 256 * le_val(b.drop_first())) as nat
    }
}

pub proof fn lemma_le_val_bound(b: Seq<u8>)
    ensures
        le_val(b) < pow256(b.len()),
    decreases b.len(),
{
    if b.len() > 0 {
        lemma_le_val_bound(b.drop_first());
    }
}

/// The value of 256 to the eighth power, unfolded.
pub proof fn lemma_pow256_unfold8()
    ensures
        pow256(8) == 0x1_0000_0000_0000_0000,
{
    assert(pow256(0) == 1);
    assert(pow256(1) == 256 * pow256(0));
    assert(pow256(2) == 256 * pow256(1));
    assert(pow256(3) == 256 * pow256(2));
    assert(pow256(4) == 256 * pow256(3));
    assert(pow256(5) == 256 * pow256(4));
    assert(pow256(6) == 256 * pow256(5));
    assert(pow256(7) == 256 * pow256(6));
    assert(pow256(8) == 256 * pow256(7));
}

/// Reads the first 8 bytes of `h` as a little-endian 64-bit integer.
pub fn u64_from_first8(h: &Vec<u8>) -> (r: u64)
    requires
        h@.len() >= 8,
    ensures
        r as nat == le_val(h@.take(8)),
{
    let mut acc: u64 = 0;
    let mut i: usize = 8;
    while i > 0
        invariant
            i <= 8,
            h@.len() >= 8,
            acc as nat == le_val(h@.subrange(i as int, 8)),
            (acc as nat) < pow256((8 - i) as nat),
        decreases i,
    {
        proof {
            lemma_pow256_mono((8 - i) as nat, 7);
            assert(pow256(7) == 256 * pow256(6));
            assert(pow256(6) == 256 * pow256(5));
            assert(pow256(5) == 256 * pow256(4));
            assert(pow256(4) == 256 * pow256(3));
            assert(pow256(3) == 256 * pow256(2));
            assert(pow256(2) == 256 * pow256(1));
            assert(pow256(1) == 256 * pow256(0));
            assert(pow256(0) == 1);
            assert(acc as nat <= pow256(7) - 1);
        }
        i -= 1;
        let b = h[i];
        proof {
            let tail = h@.subrange(i as int + 1, 8);
            let cur = h@.subrange(i as int, 8);
            assert(cur.drop_first() =~= tail);
            assert(cur[0] == h@[i as int]);
        }
        acc = acc * 256 + (b as u64);
    }
    proof {
        assert(h@.subrange(0, 8) =~= h@.take(8));
    }
    acc
}

// ---------------------------------------------------------------------------
// Identifiers
// ---------------------------------------------------------------------------

/// Unique channel identifier: 32 bytes derived from the channel parameters.
#[derive(Debug, PartialEq, Eq, Hash)]
pub struct ChannelId(pub Vec<u8>);

impl ChannelId {
    /// A channel id is exactly 32 bytes long.
    pub open spec fn wf(&self) -> bool {
        self.0@.len() == 32
    }

    /// Validates and adopts raw bytes as a channel id; the bytes must be
    /// exactly 32 long, as a wrongly sized identifier is malformed input.
    pub fn from_bytes(bytes: Vec<u8>) -> (r: Result<ChannelId, crate::error::Error>)
        ensures
            bytes@.len() == 32 ==> (r matches Ok(c) && c.0@ == bytes@),
            bytes@.len() != 32 ==> (r matches Err(e) && e == crate::error::Error::InvalidInput),
    {
        if bytes.len() == 32 {
            Ok(ChannelId(bytes))
        } else {
            Err(crate::error::Error::InvalidInput)
        }
    }
}

impl Clone for ChannelId {
    fn clone(&self) -> (r: Self)
        ensures
            r.0@ == self.0@,
    {
        ChannelId(clone_bytes(&self.0))
    }
}

impl Default for ChannelId {
    /// The all-zero channel id.
    fn default() -> (r: Self)
        ensures
            r.0@ == Seq::new(32, |i: int| 0u8),
    {
        let v: Vec<u8> = zero_bytes(32);
        ChannelId(v)
    }
}

/// A channel's unique nonce: 32 bytes protecting against replay.
#[derive(Debug, PartialEq, Eq, Hash)]
pub struct Nonce(pub Vec<u8>);

impl Nonce {
    /// A nonce is exactly 32 bytes long.
    pub open spec fn wf(&self) -> bool {
        self.0@.len() == 32
    }

    /// Validates and adopts raw bytes as a nonce; the bytes must be exactly
    /// 32 long, as a wrongly sized nonce is malformed input.
    pub fn from_bytes(bytes: Vec<u8>) -> (r: Result<Nonce, crate::error::Error>)
        ensures
            bytes@.len() == 32 ==> (r matches Ok(c) && c.0@ == bytes@),
            bytes@.len() != 32 ==> (r matches Err(e) && e == crate::error::Error::InvalidInput),
    {
        if bytes.len() == 32 {
            Ok(Nonce(bytes))
        } else {
            Err(crate::error::Error::InvalidInput)
        }
    }
}

impl Clone for Nonce {
    fn clone(&self) -> (r: Self)
        ensures
            r.0@ == self.0@,
    {
        Nonce(clone_bytes(&self.0))
    }
}

impl Default for Nonce {
    /// The all-zero nonce.
    fn default() -> (r: Self)
        ensures
            r.0@ == Seq::new(32, |i: int| 0u8),
    {
        Nonce(zero_bytes(32))
    }
}

/// A layer-2 account identifier: the raw bytes of a participant's public
/// key, compared byte for byte. Signature checks on it are performed by an
/// upstream authority, not by this ledger.
#[derive(Debug, PartialEq, Eq, Hash)]
pub struct L2Account(pub Vec<u8>);

impl Clone for L2Account {
    fn clone(&self) -> (r: Self)
        ensures
            r.0@ == self.0@,
    {
        L2Account(clone_bytes(&self.0))
    }
}

impl Default for L2Account {
    /// The all-zero 33-byte key, a placeholder value.
    fn default() -> (r: Self)
        ensures
            r.0@ == Seq::new(33, |i: int| 0u8),
    {
        L2Account(zero_bytes(33))
    }
}

/// An external-ledger account identifier (a principal's raw bytes):
/// destination of withdrawals, source of deposits.
#[derive(Debug, PartialEq, Eq, Hash)]
pub struct L1Account(pub Vec<u8>);

impl Clone for L1Account {
    fn clone(&self) -> (r: Self)
        ensures
            r.0@ == self.0@,
    {
        L1Account(clone_bytes(&self.0))
    }
}

/// Copies a byte vector, preserving its contents.
pub fn clone_bytes(v: &Vec<u8>) -> (r: Vec<u8>)
    ensures
        r@ == v@,
{
    let r = v.clone();
    proof {
        assert(r@ =~= v@);
    }
    r
}

/// A vector of `n` zero bytes.
pub fn zero_bytes(n: usize) -> (r: Vec<u8>)
    ensures
        r@ == Seq::new(n as nat, |i: int| 0u8),
{
    let mut r: Vec<u8> = Vec::new();
    let mut i: usize = 0;
    while i < n
        invariant
            i <= n,
            r@.len() == i,
            forall|j: int| 0 <= j < i ==> r@[j] == 0u8,
        decreases n - i,
    {
        r.push(0u8);
        i += 1;
    }
    proof {
        assert(r@ =~= Seq::new(n as nat, |i: int| 0u8));
    }
    r
}

/// The first `n` bytes of `v`.
pub fn bytes_prefix(v: &Vec<u8>, n: usize) -> (r: Vec<u8>)
    requires
        n <= v@.len(),
    ensures
        r@ == v@.take(n as int),
{
    let mut r: Vec<u8> = Vec::new();
    let mut i: usize = 0;
    while i < n
        invariant
            i <= n,
            n <= v@.len(),
            r@.len() == i,
            forall|j: int| 0 <= j < i ==> r@[j] == v@[j],
        decreases n - i,
    {
        r.push(v[i]);
        i += 1;
    }
    proof {
        assert(r@ =~= v@.take(n as int));
    }
    r
}

// ---------------------------------------------------------------------------
// Digest
// ---------------------------------------------------------------------------

/// The SHA-512 digest of a byte sequence, a function of the bytes alone.
pub uninterp spec fn sha512_of(data: Seq<u8>) -> Seq<u8>;

/// A hash as used by the signature scheme: a 64-byte SHA-512 output.
#[derive(Debug, PartialEq, Eq, Hash)]
pub struct Hash(pub Vec<u8>);

impl Hash {
    /// A hash is exactly 64 bytes long.
    pub open spec fn wf(&self) -> bool {
        self.0@.len() == 64
    }

    /// Relies on SHA-512 from the `sha2` crate (re-exported by
    /// `ed25519_dalek`, driven through the `digest` traits): the 64-byte
    /// digest of `msg`, determined by the input bytes alone.
    #[verifier::external_body]
    pub fn digest(msg: &[u8]) -> (r: Hash)
        ensures
            r.0@ == sha512_of(msg@),
            r.0@.len() == 64,
    {
        let mut h = ed25519_dalek::Sha512::default();
        digest::Update::update(&mut h, msg);
        let mut out = digest::Output::<ed25519_dalek::Sha512>::default();
        digest::FixedOutputDirty::finalize_into_dirty(&mut h, &mut out);
        Hash(out.to_vec())
    }
}

impl Clone for Hash {
    fn clone(&self) -> (r: Self)
        ensures
            r.0@ == self.0@,
    {
        Hash(clone_bytes(&self.0))
    }
}

// ---------------------------------------------------------------------------
// Funding
// ---------------------------------------------------------------------------

/// Identifies the funds belonging to a certain layer-2 identity within a
/// certain channel: the primary key of the holdings ledger.
#[derive(Debug, PartialEq, Eq, Hash)]
pub struct Funding {
    /// The channel's unique identifier.
    pub channel: ChannelId,
    /// The funds' owner's layer-2 identity within the channel.
    pub participant: L2Account,
}

/// The mathematical key of a funding: its channel and participant bytes.
pub open spec fn fkey(f: Funding) -> (Seq<u8>, Seq<u8>) {
    (f.channel.0@, f.participant.0@)
}

/// The deposit memo of a funding: the first 8 bytes, read little-endian, of
/// the digest of channel id and participant key. The value of 8 bytes always
/// fits the result type.
pub open spec fn memo_of(f: Funding) -> u64 {
    le_val(sha512_of(f.channel.0@ + f.participant.0@).take(8)) as u64
}

impl Funding {
    pub fn new(channel: ChannelId, participant: L2Account) -> (r: Self)
        ensures
            r.channel.0@ == channel.0@,
            r.participant.0@ == participant.0@,
    {
        Self { channel, participant }
    }

    /// Whether two fundings identify the same claim.
    pub fn same_key(&self, other: &Funding) -> (r: bool)
        ensures
            r == (fkey(*self) == fkey(*other)),
    {
        let c = bytes_eq(&self.channel.0, &other.channel.0);
        let p = bytes_eq(&self.participant.0, &other.participant.0);
        c && p
    }

    /// The deterministic memo a depositor must attach to an external-ledger
    /// transfer so it can be matched to this funding.
    pub fn memo(&self) -> (r: u64)
        ensures
            r == memo_of(*self),
    {
        let mut data = clone_bytes(&self.channel.0);
        let mut part = clone_bytes(&self.participant.0);
        data.append(&mut part);
        let h = Hash::digest(data.as_slice());
        let r = u64_from_first8(&h.0);
        proof {
            let b = h.0@.take(8);
            lemma_le_val_bound(b);
            lemma_pow256_unfold8();
        }
        r
    }
}

impl Clone for Funding {
    fn clone(&self) -> (r: Self)
        ensures
            fkey(r) == fkey(*self),
    {
        Funding { channel: self.channel.clone(), participant: self.participant.clone() }
    }
}

/// Identifies a deposit into the shared liquidity pool.
#[derive(Debug, PartialEq, Eq, Hash)]
pub struct PoolFunding {
    /// The funds' owner's layer-2 identity.
    pub participant: L2Account,
    /// The layer-1 identity the funds came from.
    pub depositor: L1Account,
}

// ---------------------------------------------------------------------------
// Channel parameters and state
// ---------------------------------------------------------------------------

/// The immutable parameters of a channel.
#[derive(Debug, PartialEq, Eq)]
pub struct Params {
    /// The channel's unique nonce, to protect against replay attacks.
    pub nonce: Nonce,
    /// The channel's participants' layer-2 identities.
    pub participants: Vec<L2Account>,
    /// When a dispute occurs, how long to wait for responses.
    pub challenge_duration: Duration,
}

/// The first `n` participant keys of `ps`, concatenated.
pub open spec fn keys_concat(ps: Seq<L2Account>, n: int) -> Seq<u8>
    decreases n,
{
    if n <= 0 {
        Seq::empty()
    } else {
        keys_concat(ps, n - 1) + ps[n - 1].0@
    }
}

/// The byte encoding of channel parameters: nonce, participant keys, and the
/// little-endian challenge duration.
pub open spec fn params_encoding(p: Params) -> Seq<u8> {
    p.nonce.0@ + keys_concat(p.participants@, p.participants@.len() as int) + le_bytes_of_u64(
        p.challenge_duration,
    )
}

/// The channel id of channel parameters: the first 32 bytes of the digest of
/// their encoding.
pub open spec fn channel_id_of(p: Params) -> Seq<u8> {
    sha512_of(params_encoding(p)).take(32)
}

impl Params {
    /// Derives the channel's unique identifier from its parameters.
    pub fn id(&self) -> (r: ChannelId)
        ensures
            r.0@ == channel_id_of(*self),
            r.wf(),
    {
        let mut buf = clone_bytes(&self.nonce.0);
        let n = self.participants.len();
        let mut i: usize = 0;
        while i < n
            invariant
                i <= n,
                n == self.participants@.len(),
                buf@ == self.nonce.0@ + keys_concat(self.participants@, i as int),
            decreases n - i,
        {
            let mut part = clone_bytes(&self.participants[i].0);
            buf.append(&mut part);
            i += 1;
        }
        let mut tail = u64_to_le_bytes(self.challenge_duration);
        buf.append(&mut tail);
        assert(buf@ == params_encoding(*self));
        let h = Hash::digest(buf.as_slice());
        let id = bytes_prefix(&h.0, 32);
        ChannelId(id)
    }
}

/// The mutable state of a channel.
#[derive(Debug, PartialEq, Eq)]
pub struct State {
    /// The channel's unique identifier.
    pub channel: ChannelId,
    /// The channel's current state revision number.
    pub version: Version,
    /// The channel's asset allocation: each participant's current balance in
    /// the order of the channel parameters' participant list.
    pub allocation: Vec<Amount>,
    /// Whether the channel is finalized: no more updates can be made and
    /// funds can be withdrawn immediately.
    pub finalized: bool,
}

/// The sum of an allocation's amounts.
pub open spec fn alloc_total(a: Seq<u64>) -> nat
    decreases a.len(),
{
    if a.len() == 0 {
        0
    } else {
        (a[0] + alloc_total(a.drop_first())) as nat
    }
}

impl State {
    /// The total amount the state allocates.
    pub open spec fn total_spec(&self) -> nat {
        alloc_total(self.allocation@)
    }

    /// Sums the state's allocation.
    pub fn total(&self) -> (r: u128)
        ensures
            r as nat == self.total_spec(),
    {
        let n = self.allocation.len();
        let mut acc: u128 = 0;
        let mut i: usize = 0;
        proof {
            assert(self.allocation@.skip(0) =~= self.allocation@);
        }
        while i < n
            invariant
                i <= n,
                n == self.allocation@.len(),
                acc as nat + alloc_total(self.allocation@.skip(i as int)) == self.total_spec(),
                acc as nat <= i * (u64::MAX as nat),
            decreases n - i,
        {
            proof {
                let rest = self.allocation@.skip(i as int);
                assert(rest.drop_first() =~= self.allocation@.skip(i as int + 1));
                assert(rest[0] == self.allocation@[i as int]);
            }
            acc = acc + (self.allocation[i] as u128);
            i += 1;
        }
        acc
    }

    /// Channels in their initial state may not yet be fully funded, but may
    /// be registered already for disputes.
    pub fn may_be_underfunded(&self) -> (r: bool)
        ensures
            r == (self.version == 0 && !self.finalized),
    {
        self.version == 0 && !self.finalized
    }
}

impl Clone for State {
    fn clone(&self) -> (r: Self)
        ensures
            r.channel.0@ == self.channel.0@,
            r.version == self.version,
            r.allocation@ == self.allocation@,
            r.finalized == self.finalized,
    {
        let alloc = self.allocation.clone();
        proof {
            assert(alloc@ =~= self.allocation@);
        }
        State {
            channel: self.channel.clone(),
            version: self.version,
            allocation: alloc,
            finalized: self.finalized,
        }
    }
}

/// A registered channel state together with its dispute timeout; what the
/// registry stores after a dispute registration.
#[derive(Debug, PartialEq, Eq)]
pub struct RegisteredState {
    /// The channel's state, containing version, outcome allocation, and
    /// whether the channel is already finalized.
    pub state: State,
    /// The challenge timeout after which the registered state becomes
    /// available for withdrawing. Ignored for finalized channels.
    pub timeout: Timestamp,
}

/// Whether a registered state is settled at time `now`: it is finalized, or
/// its challenge window has elapsed.
pub open spec fn settled_at(r: RegisteredState, now: Timestamp) -> bool {
    r.state.finalized || now >= r.timeout
}

impl RegisteredState {
    /// Whether the state is withdrawable at time `now`: the instant a state
    /// is finalized, or wall-clock time passes its dispute timeout, the
    /// registered outcome is authoritative.
    pub fn settled(&self, now: Timestamp) -> (r: bool)
        ensures
            r == settled_at(*self, now),
    {
        self.state.finalized || now >= self.timeout
    }
}

impl Clone for RegisteredState {
    fn clone(&self) -> (r: Self)
        ensures
            r.state.channel.0@ == self.state.channel.0@,
            r.state.version == self.state.version,
            r.state.allocation@ == self.state.allocation@,
            r.state.finalized == self.state.finalized,
            r.timeout == self.timeout,
    {
        RegisteredState { state: self.state.clone(), timeout: self.timeout }
    }
}

/// The payload of a request to withdraw a participant's funds from a
/// registered channel. Its authorization signature is checked upstream.
#[derive(Debug, PartialEq, Eq)]
pub struct WithdrawalRequest {
    /// The funds to be withdrawn.
    pub funding: Funding,
    pub amount: Amount,
    pub participant: L2Account,
    pub time: Timestamp,
    /// The layer-1 identity to send the funds to.
    pub receiver: L1Account,
}

/// Converts a duration in seconds to nanoseconds.
pub fn to_nanoseconds(seconds: u64) -> (r: u64)
    requires
        seconds * 1_000_000_000 <= u64::MAX,
    ensures
        r == seconds * 1_000_000_000,
{
    seconds * 1_000_000_000
}

} // verus!
