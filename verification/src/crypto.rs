//! Key generation, signing and signature verification, plus the transaction
//! factory.
//!
//! Ed25519 keys, signatures and verification come from the `ring` crate and
//! are reached through trusted wrappers. A keypair is represented by its
//! 32-byte secret seed together with the public key that `ring` derives from
//! it; both signing and the derived public key are deterministic functions of
//! the seed, so their results are given names that the contracts share.

use vstd::prelude::*;

use crate::errors::LedgerError;
use crate::txn::{Transaction, TxStatus, TxView};

verus! {

/// The public key that `ring` derives from a 32-byte Ed25519 seed.
pub uninterp spec fn ed25519_public_key(seed: Seq<u8>) -> Seq<u8>;

/// The Ed25519 signature that `ring` produces for a message under the keypair
/// grown from `seed`. Ed25519 signing is deterministic, so this is a function
/// of seed and message alone.
pub uninterp spec fn ed25519_sign(seed: Seq<u8>, msg: Seq<u8>) -> Seq<u8>;

/// Whether `ring`'s Ed25519 verification accepts `sig` as a signature of
/// `msg` under `public_key`.
pub uninterp spec fn ed25519_verifies(public_key: Seq<u8>, msg: Seq<u8>, sig: Seq<u8>) -> bool;

/// An Ed25519 keypair: the secret seed and the public key derived from it.
///
/// The fields are private so that every keypair handed out by this module
/// satisfies [`Keypair::wf`].
pub struct Keypair {
    seed: Vec<u8>,
    public_key: Vec<u8>,
}

impl Keypair {
    /// The seed bytes.
    pub closed spec fn seed_view(self) -> Seq<u8> {
        self.seed@
    }

    /// The public key bytes.
    pub closed spec fn pk_view(self) -> Seq<u8> {
        self.public_key@
    }

    /// A well-formed keypair holds a 32-byte seed and the public key that
    /// `ring` derives from it.
    pub open spec fn wf(self) -> bool {
        &&& self.seed_view().len() == 32
        &&& self.pk_view() == ed25519_public_key(self.seed_view())
    }

    /// The public key carried with the keypair.
    pub fn public_key_bytes(&self) -> (r: &Vec<u8>)
        ensures
            r@ == self.pk_view(),
    {
        &self.public_key
    }
}

/// Relies on ring's `SystemRandom::fill`: fills the buffer with bytes from
/// the system's secure random source, or reports that the source is
/// unavailable. Nothing is promised of the drawn bytes beyond their count.
#[verifier::external_body]
fn fill_random_seed() -> (r: Option<Vec<u8>>)
    ensures
        r matches Some(v) ==> v@.len() == 32,
{
    let rng = ring::rand::SystemRandom::new();
    let mut seed = vec![0u8; 32];
    match ring::rand::SecureRandom::fill(&rng, &mut seed) {
        Ok(()) => Some(seed),
        Err(_) => None,
    }
}

/// Relies on ring's `Ed25519KeyPair::from_seed_unchecked` (which accepts any
/// 32-byte seed) and `KeyPair::public_key`: builds the keypair deterministically
/// from the seed and hands back its public key bytes.
#[verifier::external_body]
fn keypair_from_seed(seed: Vec<u8>) -> (r: Keypair)
    requires
        seed@.len() == 32,
    ensures
        r.seed_view() == seed@,
        r.pk_view() == ed25519_public_key(seed@),
{
    let kp = ring::signature::Ed25519KeyPair::from_seed_unchecked(&seed)
        .expect("seed is 32 bytes");
    let public_key = ring::signature::KeyPair::public_key(&kp).as_ref().to_vec();
    Keypair { seed, public_key }
}

/// Relies on ring's `Ed25519KeyPair::sign`: produces the deterministic
/// Ed25519 signature of `msg` under the keypair grown from the seed. A
/// signature so produced verifies under the derived public key.
#[verifier::external_body]
fn sign_bytes(key_pair: &Keypair, msg: &[u8]) -> (r: Vec<u8>)
    requires
        key_pair.seed_view().len() == 32,
    ensures
        r@ == ed25519_sign(key_pair.seed_view(), msg@),
        ed25519_verifies(ed25519_public_key(key_pair.seed_view()), msg@, r@),
{
    let kp = ring::signature::Ed25519KeyPair::from_seed_unchecked(&key_pair.seed)
        .expect("seed is 32 bytes");
    kp.sign(msg).as_ref().to_vec()
}

/// Relies on ring's `UnparsedPublicKey::verify` with the `ED25519` algorithm:
/// a deterministic check of `sig` against `msg` under `public_key`.
#[verifier::external_body]
fn verify_bytes(public_key: &Vec<u8>, msg: &[u8], sig: &Vec<u8>) -> (r: bool)
    ensures
        r == ed25519_verifies(public_key@, msg@, sig@),
{
    let pk = ring::signature::UnparsedPublicKey::new(&ring::signature::ED25519, public_key);
    pk.verify(msg, sig).is_ok()
}

/// Relies on uuid's `Uuid::new_v4` and its `Display` form (36 hyphenated
/// lowercase hexadecimal characters), prefixed through `format!`: a fresh
/// random identifier of the shape `tx-` followed by the identifier text.
/// Nothing is promised of the random part's value. Like key generation,
/// drawing the identifier stops the process if the operating system's
/// random source fails.
#[verifier::external_body]
pub fn generate_transaction_id() -> (r: String)
    ensures
        r@.len() == 39,
        r@.subrange(0, 3) == "tx-"@,
{
    format!("tx-{}", uuid::Uuid::new_v4())
}

/// Relies on uuid's `Uuid::new_v4` and its `Display` form (36 hyphenated
/// lowercase hexadecimal characters): a fresh random identifier. Nothing is
/// promised of its value beyond that length, and drawing it stops the
/// process if the operating system's random source fails.
#[verifier::external_body]
pub(crate) fn fresh_uuid_string() -> (r: String)
    ensures
        r@.len() == 36,
{
    uuid::Uuid::new_v4().to_string()
}

/// Relies on chrono's `Utc::now().timestamp()`: the current time in seconds
/// since the epoch. Nothing is promised of its value.
#[verifier::external_body]
fn current_unix_time() -> (r: u64) {
    chrono::Utc::now().timestamp() as u64
}

/// The sixteen lowercase hexadecimal digits.
pub open spec fn hex_digit(n: u8) -> char
    recommends
        n < 16,
{
    seq!['0', '1', '2', '3', '4', '5', '6', '7', '8', '9', 'a', 'b', 'c', 'd', 'e', 'f'][n as int]
}

/// Lowercase hexadecimal rendering of a byte sequence, high nibble first.
pub open spec fn spec_hex_lower(b: Seq<u8>) -> Seq<char>
    decreases b.len(),
{
    if b.len() == 0 {
        Seq::empty()
    } else {
        seq![hex_digit(b.first() / 16), hex_digit(b.first() % 16)] + spec_hex_lower(b.drop_first())
    }
}

/// Relies on hex's `encode`: lowercase hexadecimal, two digits per byte, high
/// nibble first.
#[verifier::external_body]
fn hex_encode(b: &Vec<u8>) -> (r: String)
    ensures
        r@ == spec_hex_lower(b@),
{
    hex::encode(b)
}

/// Generates a fresh Ed25519 keypair from the system's secure random source.
///
/// Fails with [`LedgerError::KeyGenerationFailure`] exactly when the random
/// source is unavailable; callers must treat that as fatal and must never
/// substitute fixed or zero seeds.
pub fn generate_key_pair() -> (r: Result<Keypair, LedgerError>)
    ensures
        r matches Ok(kp) ==> kp.wf(),
        r is Err ==> r == Err::<Keypair, LedgerError>(LedgerError::KeyGenerationFailure),
{
    match fill_random_seed() {
        Some(seed) => Ok(keypair_from_seed(seed)),
        None => Err(LedgerError::KeyGenerationFailure),
    }
}

/// The byte message covered by a transaction's signature.
///
/// The signature covers the UTF-8 bytes of the transaction id alone. The id
/// is unpredictable, which resists forgery, but sender, receiver, amount and
/// parents are not bound to the signature; the narrow scope is kept for wire
/// compatibility with previously signed artifacts.
pub open spec fn signed_message(t: TxView) -> Seq<u8> {
    vstd::utf8::encode_utf8(t.id)
}

/// Whether the transaction's carried signature verifies against its carried
/// public key over the required message.
pub open spec fn signature_ok(t: TxView) -> bool {
    ed25519_verifies(t.public_key, signed_message(t), t.signature)
}

/// Verifies the cryptographic signature of a transaction using the public
/// key it carries.
pub fn verify_transaction_signature(tx: &Transaction) -> (r: bool)
    ensures
        r == signature_ok(tx@),
{
    verify_bytes(&tx.public_key, tx.id.as_str().as_bytes(), &tx.signature)
}

/// Builds a fully formed, signed transaction from caller intent: generates a
/// unique id, stamps the current time, derives the sender from the public
/// key, signs per [`signed_message`], and returns it with status `Valid` and
/// no contract attached. Pure construction; no shared state is touched.
pub fn create_signed_transaction(
    key_pair: &Keypair,
    receiver: String,
    amount: u64,
    parents: Vec<String>,
    priority: u8,
) -> (tx: Transaction)
    requires
        key_pair.wf(),
    ensures
        tx@.receiver == receiver@,
        tx@.amount == amount,
        tx@.parents == parents.deep_view(),
        tx@.priority == priority,
        tx@.status == TxStatus::Valid,
        tx@.contract is None,
        tx@.public_key == key_pair.pk_view(),
        tx@.sender == spec_hex_lower(key_pair.pk_view()),
        tx@.id.len() == 39,
        tx@.id.subrange(0, 3) == "tx-"@,
        tx@.signature == ed25519_sign(key_pair.seed_view(), signed_message(tx@)),
        signature_ok(tx@),
{
    let id = generate_transaction_id();
    let timestamp = current_unix_time();
    let sender = hex_encode(key_pair.public_key_bytes());
    let public_key = crate::txn::clone_bytes(key_pair.public_key_bytes());
    let signature = sign_bytes(key_pair, id.as_str().as_bytes());
    Transaction {
        id,
        timestamp,
        sender,
        receiver,
        amount,
        signature,
        parents,
        public_key,
        status: TxStatus::Valid,
        priority,
        contract: None,
    }
}

} // verus!
