//! Ed25519 keys and signatures, the registry of public keys, and the
//! verification of signed messages.
use std::collections::HashMap;

use ed25519_dalek::{Signer, Verifier};
use vstd::prelude::*;
use vstd::string::StringExecFns;

use crate::codec;
use crate::encode::put_bytes;
use crate::octets;
use crate::octets::put_le;
use crate::roundtrip;
use crate::text;
use crate::text::decimal_text;
use crate::types::{ConsensusMessage, MessageView, NodeId, SignedMessage, SignedView};

verus! {

broadcast use vstd::std_specs::hash::group_hash_axioms;

// ---------------------------------------------------------------------------
// The outside signature scheme
// ---------------------------------------------------------------------------

/// The Ed25519 public key of a seed.
pub uninterp spec fn ed25519_public_key(seed: Seq<u8>) -> Seq<u8>;

/// The Ed25519 signature that a seed makes of a message.
pub uninterp spec fn ed25519_signature(seed: Seq<u8>, message: Seq<u8>) -> Seq<u8>;

/// Whether bytes are an Ed25519 public key.
pub uninterp spec fn ed25519_is_key(bytes: Seq<u8>) -> bool;

/// Whether a signature of a message verifies under a public key.
pub uninterp spec fn ed25519_accepts(key: Seq<u8>, message: Seq<u8>, signature: Seq<u8>) -> bool;

/// `ed25519_dalek::SigningKey::from_bytes` and `verifying_key`: the public key
/// of a seed, which is a function of the seed and a valid key.
#[verifier::external_body]
fn dalek_public_key(seed: &[u8; 32]) -> (key: [u8; 32])
    ensures
        key@ == ed25519_public_key(seed@),
        ed25519_is_key(key@),
{
    ed25519_dalek::SigningKey::from_bytes(seed).verifying_key().to_bytes()
}

/// `ed25519_dalek::SigningKey::sign`: the signature of a message, 64 bytes. It
/// is a function of seed and message, and it verifies under the public key of
/// the seed.
#[verifier::external_body]
fn dalek_sign(seed: &[u8; 32], message: &[u8]) -> (signature: Vec<u8>)
    ensures
        signature@ == ed25519_signature(seed@, message@),
        signature@.len() == 64,
        ed25519_accepts(ed25519_public_key(seed@), message@, signature@),
{
    ed25519_dalek::SigningKey::from_bytes(seed).sign(message).to_bytes().to_vec()
}

/// `ed25519_dalek::VerifyingKey::from_bytes`: whether bytes are a public key,
/// and otherwise what the error says, which is always the same.
#[verifier::external_body]
fn dalek_check_key(bytes: &[u8; 32]) -> (result: Result<(), String>)
    ensures
        match result {
            Ok(_) => ed25519_is_key(bytes@),
            Err(reason) => !ed25519_is_key(bytes@) && reason@ == bad_key_text(),
        },
{
    ed25519_dalek::VerifyingKey::from_bytes(bytes).map(|_| ()).map_err(|e| e.to_string())
}

/// `ed25519_dalek::Signature::from_slice`: whether bytes have the length of a
/// signature, and otherwise what the error says, which is always the same.
#[verifier::external_body]
fn dalek_check_signature(bytes: &[u8]) -> (result: Result<(), String>)
    ensures
        match result {
            Ok(_) => bytes@.len() == 64,
            Err(reason) => bytes@.len() != 64 && reason@ == bad_signature_text(),
        },
{
    ed25519_dalek::Signature::from_slice(bytes).map(|_| ()).map_err(|e| e.to_string())
}

/// `ed25519_dalek::VerifyingKey::verify`: whether a signature of a message
/// verifies under a public key. It is a function of the three.
#[verifier::external_body]
fn dalek_verify(key: &[u8; 32], message: &[u8], signature: &[u8]) -> (accepted: bool)
    requires
        ed25519_is_key(key@),
        signature@.len() == 64,
    ensures
        accepted == ed25519_accepts(key@, message@, signature@),
{
    let key = ed25519_dalek::VerifyingKey::from_bytes(key).expect("the key is valid");
    let signature = ed25519_dalek::Signature::from_slice(signature).expect("64 bytes");
    key.verify(message, &signature).is_ok()
}

/// `ed25519_dalek::SigningKey::generate` with `rand::rngs::OsRng`: a seed from
/// the operating system's random numbers. Nothing is known of it.
#[verifier::external_body]
fn dalek_random_seed() -> (seed: [u8; 32])
{
    ed25519_dalek::SigningKey::generate(&mut rand::rngs::OsRng).to_bytes()
}

/// What is said of bytes that are no public key.
pub open spec fn bad_key_text() -> Seq<char> {
    "signature error: Cannot decompress Edwards point"@
}

/// What is said of bytes that are no signature.
pub open spec fn bad_signature_text() -> Seq<char> {
    "signature error"@
}

// ---------------------------------------------------------------------------
// Errors
// ---------------------------------------------------------------------------

/// Errors of cryptographic operations.
#[derive(Debug, PartialEq, Eq, Clone)]
pub enum CryptoError {
    /// The sender's key is not registered.
    UnknownSender { node_id: NodeId },
    /// The public key bytes are no key.
    InvalidPublicKey { node_id: NodeId, reason: String },
    /// The signature bytes are no signature.
    MalformedSignature { reason: String },
    /// The signature does not verify.
    InvalidSignature,
    /// The payload does not decode.
    DeserializationFailed { reason: String },
    /// The task that verified the signature did not finish.
    TaskJoinError { reason: String },
}

/// What a `CryptoError` stands for.
pub enum CryptoErrorView {
    UnknownSender { node_id: NodeId },
    InvalidPublicKey { node_id: NodeId, reason: Seq<char> },
    MalformedSignature { reason: Seq<char> },
    InvalidSignature,
    DeserializationFailed { reason: Seq<char> },
    TaskJoinError { reason: Seq<char> },
}

impl View for CryptoError {
    type V = CryptoErrorView;

    open spec fn view(&self) -> CryptoErrorView {
        match *self {
            CryptoError::UnknownSender { node_id } => CryptoErrorView::UnknownSender { node_id },
            CryptoError::InvalidPublicKey { node_id, reason } => CryptoErrorView::InvalidPublicKey {
                node_id,
                reason: reason@,
            },
            CryptoError::MalformedSignature { reason } => CryptoErrorView::MalformedSignature {
                reason: reason@,
            },
            CryptoError::InvalidSignature => CryptoErrorView::InvalidSignature,
            CryptoError::DeserializationFailed { reason } =>
                CryptoErrorView::DeserializationFailed { reason: reason@ },
            CryptoError::TaskJoinError { reason } => CryptoErrorView::TaskJoinError {
                reason: reason@,
            },
        }
    }
}

/// What is said of a cryptographic error.
pub open spec fn crypto_text(error: CryptoErrorView) -> Seq<char> {
    match error {
        CryptoErrorView::UnknownSender { node_id } => "unknown sender: node "@ + text::decimal(
            node_id as nat,
        ),
        CryptoErrorView::InvalidPublicKey { node_id, reason } => "invalid public key for node "@
            + text::decimal(node_id as nat) + ": "@ + reason,
        CryptoErrorView::MalformedSignature { reason } => "malformed signature: "@ + reason,
        CryptoErrorView::InvalidSignature => "signature verification failed"@,
        CryptoErrorView::DeserializationFailed { reason } => "payload deserialization failed: "@
            + reason,
        CryptoErrorView::TaskJoinError { reason } => "blocking task failed: "@ + reason,
    }
}

impl CryptoError {
    /// What is said of this error.
    pub fn describe(&self) -> (message: String)
        ensures
            message@ == crypto_text(self@),
    {
        match self {
            CryptoError::UnknownSender { node_id } => {
                let mut message = String::from_str("unknown sender: node ");
                message.append(decimal_text(*node_id).as_str());
                message
            },
            CryptoError::InvalidPublicKey { node_id, reason } => {
                let mut message = String::from_str("invalid public key for node ");
                message.append(decimal_text(*node_id).as_str());
                message.append(": ");
                message.append(reason.as_str());
                message
            },
            CryptoError::MalformedSignature { reason } => {
                let mut message = String::from_str("malformed signature: ");
                message.append(reason.as_str());
                message
            },
            CryptoError::InvalidSignature => String::from_str("signature verification failed"),
            CryptoError::DeserializationFailed { reason } => {
                let mut message = String::from_str("payload deserialization failed: ");
                message.append(reason.as_str());
                message
            },
            CryptoError::TaskJoinError { reason } => {
                let mut message = String::from_str("blocking task failed: ");
                message.append(reason.as_str());
                message
            },
        }
    }
}

// ---------------------------------------------------------------------------
// Keys
// ---------------------------------------------------------------------------

/// A public key.
#[derive(Debug, PartialEq, Eq, Clone, Copy)]
pub struct VerifyingKey {
    bytes: [u8; 32],
}

impl View for VerifyingKey {
    type V = Seq<u8>;

    closed spec fn view(&self) -> Seq<u8> {
        self.bytes@
    }
}

impl VerifyingKey {
    #[verifier::type_invariant]
    spec fn valid(&self) -> bool {
        ed25519_is_key(self.bytes@)
    }

    /// Takes bytes for a public key, if they are one.
    pub fn from_bytes(bytes: &[u8; 32]) -> (result: Result<Self, String>)
        ensures
            match result {
                Ok(key) => ed25519_is_key(bytes@) && key@ == bytes@,
                Err(reason) => !ed25519_is_key(bytes@) && reason@ == bad_key_text(),
            },
    {
        match dalek_check_key(bytes) {
            Ok(_) => Ok(VerifyingKey { bytes: *bytes }),
            Err(reason) => Err(reason),
        }
    }

    /// The bytes of this key.
    pub fn to_bytes(&self) -> (bytes: [u8; 32])
        ensures
            bytes@ == self@,
    {
        self.bytes
    }
}

/// The key pair of a node. The seed stays private; the public key is shared.
pub struct NodeKeyPair {
    pub node_id: NodeId,
    seed: [u8; 32],
    pub verifying_key: VerifyingKey,
}

/// What a signature with context covers: the chain with the length of its name
/// in front, the view and the payload.
pub open spec fn signing_input(chain_id: Seq<char>, view: u64, payload: Seq<u8>) -> Seq<u8> {
    codec::enc_bytes(vstd::utf8::encode_utf8(chain_id)) + octets::le_bytes(view as nat, 8)
        + payload
}

/// The bytes that a signature with context covers.
fn make_signing_input(chain_id: &str, view: u64, payload: &[u8]) -> (input: Vec<u8>)
    ensures
        input@ == signing_input(chain_id@, view, payload@),
{
    let mut input: Vec<u8> = Vec::new();
    put_bytes(&mut input, chain_id.as_bytes());
    put_le(&mut input, view, 8);
    input.extend_from_slice(payload);
    assert(input@ =~= signing_input(chain_id@, view, payload@));
    input
}

/// What is signed determines the chain, the view and the payload: a signature
/// made for one chain and view says nothing of any other.
pub proof fn law_signing_input_binds(
    chain_a: Seq<char>,
    view_a: u64,
    payload_a: Seq<u8>,
    chain_b: Seq<char>,
    view_b: u64,
    payload_b: Seq<u8>,
)
    requires
        roundtrip::short(vstd::utf8::encode_utf8(chain_a)),
        roundtrip::short(vstd::utf8::encode_utf8(chain_b)),
        signing_input(chain_a, view_a, payload_a) == signing_input(chain_b, view_b, payload_b),
    ensures
        chain_a == chain_b,
        view_a == view_b,
        payload_a == payload_b,
{
    let a = vstd::utf8::encode_utf8(chain_a);
    let b = vstd::utf8::encode_utf8(chain_b);
    let rest_a = octets::le_bytes(view_a as nat, 8) + payload_a;
    let rest_b = octets::le_bytes(view_b as nat, 8) + payload_b;
    assert(signing_input(chain_a, view_a, payload_a) =~= codec::enc_bytes(a) + rest_a);
    assert(signing_input(chain_b, view_b, payload_b) =~= codec::enc_bytes(b) + rest_b);
    roundtrip::lemma_bytes(a, rest_a);
    roundtrip::lemma_bytes(b, rest_b);
    roundtrip::lemma_u64(view_a, payload_a);
    roundtrip::lemma_u64(view_b, payload_b);
    vstd::utf8::encode_utf8_decode_utf8(chain_a);
    vstd::utf8::encode_utf8_decode_utf8(chain_b);
}

/// A signed message for which every registry that knows the signer's key
/// returns the message that was signed.
pub open spec fn verifies(signed: SignedView, input: Seq<u8>, key: Seq<u8>, msg: MessageView) -> bool {
    forall|keys: Map<NodeId, Seq<u8>>|
        keys.contains_key(signed.sender) && keys[signed.sender] == key ==> #[trigger] verdict(
            keys,
            signed,
            input,
        ) == Ok::<MessageView, CryptoErrorView>(msg)
}

impl NodeKeyPair {
    /// The seed that this key pair comes from.
    pub closed spec fn seed(&self) -> Seq<u8> {
        self.seed@
    }

    /// The node that this key pair belongs to.
    pub closed spec fn id(&self) -> NodeId {
        self.node_id
    }

    /// The public key.
    pub closed spec fn public_key(&self) -> Seq<u8> {
        self.verifying_key@
    }

    /// The node that this key pair belongs to.
    pub fn node_id(&self) -> (node_id: NodeId)
        ensures
            node_id == self.id(),
    {
        self.node_id
    }

    /// The public key.
    pub fn verifying_key(&self) -> (key: VerifyingKey)
        ensures
            key@ == self.public_key(),
    {
        self.verifying_key
    }

    /// A key pair from random numbers.
    pub fn generate(node_id: NodeId) -> (pair: Self)
        ensures
            pair.id() == node_id,
            pair.public_key() == ed25519_public_key(pair.seed()),
    {
        let seed: [u8; 32] = dalek_random_seed();
        NodeKeyPair::from_seed(node_id, &seed)
    }

    /// The key pair of a seed.
    pub fn from_seed(node_id: NodeId, seed: &[u8; 32]) -> (pair: Self)
        ensures
            pair.id() == node_id,
            pair.seed() == seed@,
            pair.public_key() == ed25519_public_key(seed@),
    {
        let verifying_key = VerifyingKey { bytes: dalek_public_key(seed) };
        NodeKeyPair { node_id, seed: *seed, verifying_key }
    }

    /// The signature of a message, 64 bytes. It verifies under the public key.
    pub fn sign(&self, message: &[u8]) -> (signature: Vec<u8>)
        ensures
            signature@ == ed25519_signature(self.seed(), message@),
            signature@.len() == 64,
            ed25519_accepts(ed25519_public_key(self.seed()), message@, signature@),
    {
        dalek_sign(&self.seed, message)
    }

    /// Signs a consensus message. Whoever knows the public key gets the message
    /// back from the signed one.
    pub fn sign_consensus(&self, msg: &ConsensusMessage) -> (signed: SignedMessage)
        ensures
            signed@ == sign_plain(self.id(), self.seed(), msg@),
            verifies(signed@, signed@.payload, ed25519_public_key(self.seed()), msg@),
    {
        let payload = msg.to_bytes();
        let signature = self.sign(&payload);
        proof {
            roundtrip::lemma_message_fits(*msg);
            roundtrip::law_message_roundtrip(msg@, Seq::empty());
            assert(payload@ + Seq::<u8>::empty() =~= payload@);
        }
        SignedMessage { sender: self.node_id, payload, signature }
    }

    /// Signs a consensus message for a chain and a view. Whoever knows the
    /// public key, the chain and the view gets the message back.
    pub fn sign_consensus_with_context(
        &self,
        msg: &ConsensusMessage,
        chain_id: &str,
        view: u64,
    ) -> (signed: SignedMessage)
        ensures
            signed@ == sign_for(self.id(), self.seed(), msg@, chain_id@, view),
            verifies(
                signed@,
                signing_input(chain_id@, view, signed@.payload),
                ed25519_public_key(self.seed()),
                msg@,
            ),
    {
        let payload = msg.to_bytes();
        let input = make_signing_input(chain_id, view, &payload);
        let signature = self.sign(&input);
        proof {
            roundtrip::lemma_message_fits(*msg);
            roundtrip::law_message_roundtrip(msg@, Seq::empty());
            assert(payload@ + Seq::<u8>::empty() =~= payload@);
        }
        SignedMessage { sender: self.node_id, payload, signature }
    }

    /// The public key as bytes.
    pub fn public_key_bytes(&self) -> (bytes: [u8; 32])
        ensures
            bytes@ == self.public_key(),
    {
        self.verifying_key.to_bytes()
    }
}

/// A message signed without context.
pub open spec fn sign_plain(sender: NodeId, seed: Seq<u8>, msg: MessageView) -> SignedView {
    SignedView {
        sender,
        payload: codec::enc_message(msg),
        signature: ed25519_signature(seed, codec::enc_message(msg)),
    }
}

/// A message signed for a chain and a view.
pub open spec fn sign_for(
    sender: NodeId,
    seed: Seq<u8>,
    msg: MessageView,
    chain_id: Seq<char>,
    view: u64,
) -> SignedView {
    SignedView {
        sender,
        payload: codec::enc_message(msg),
        signature: ed25519_signature(
            seed,
            signing_input(chain_id, view, codec::enc_message(msg)),
        ),
    }
}

// ---------------------------------------------------------------------------
// The registry
// ---------------------------------------------------------------------------

/// A public key as it is exchanged.
#[derive(Debug, Clone)]
pub struct PublicKeyInfo {
    pub node_id: NodeId,
    pub key_bytes: [u8; 32],
}

/// Registry of the public keys of the cluster.
#[derive(Debug)]
pub struct KeyStore {
    keys: HashMap<NodeId, VerifyingKey>,
}

impl View for KeyStore {
    type V = Map<NodeId, Seq<u8>>;

    closed spec fn view(&self) -> Map<NodeId, Seq<u8>> {
        self.keys@.map_values(|key: VerifyingKey| key@)
    }
}

/// The registry that public keys make, taken in order.
pub open spec fn registry(infos: Seq<PublicKeyInfo>) -> Map<NodeId, Seq<u8>>
    decreases infos.len(),
{
    if infos.len() == 0 {
        Map::empty()
    } else {
        registry(infos.drop_last()).insert(infos.last().node_id, infos.last().key_bytes@)
    }
}

/// The entry at a position is the first that is no public key.
pub open spec fn first_invalid(infos: Seq<PublicKeyInfo>, at: int) -> bool {
    &&& 0 <= at < infos.len()
    &&& !ed25519_is_key(infos[at].key_bytes@)
    &&& forall|i: int| 0 <= i < at ==> ed25519_is_key((#[trigger] infos[i]).key_bytes@)
}

impl KeyStore {
    /// An empty registry.
    pub fn new() -> (store: Self)
        ensures
            store@ == Map::<NodeId, Seq<u8>>::empty(),
    {
        let store = KeyStore { keys: HashMap::new() };
        assert(store@ =~= Map::<NodeId, Seq<u8>>::empty());
        store
    }

    /// The registry of public keys. The first entry that is no key is reported.
    pub fn from_public_keys(infos: &[PublicKeyInfo]) -> (result: Result<Self, CryptoError>)
        ensures
            match result {
                Ok(store) => store@ == registry(infos@) && forall|i: int|
                    0 <= i < infos@.len() ==> ed25519_is_key((#[trigger] infos@[i]).key_bytes@),
                Err(error) => exists|at: int| #[trigger]
                    first_invalid(infos@, at) && error@ == (CryptoErrorView::InvalidPublicKey {
                        node_id: infos@[at].node_id,
                        reason: bad_key_text(),
                    }),
            },
    {
        let mut store = KeyStore::new();
        let mut i: usize = 0;
        while i < infos.len()
            invariant
                i <= infos@.len(),
                store@ == registry(infos@.take(i as int)),
                forall|j: int| 0 <= j < i ==> ed25519_is_key((#[trigger] infos@[j]).key_bytes@),
            decreases infos@.len() - i,
        {
            match VerifyingKey::from_bytes(&infos[i].key_bytes) {
                Ok(key) => store.insert(infos[i].node_id, key),
                Err(reason) => {
                    assert(first_invalid(infos@, i as int));
                    return Err(
                        CryptoError::InvalidPublicKey { node_id: infos[i].node_id, reason },
                    );
                },
            }
            assert(infos@.take(i + 1).drop_last() =~= infos@.take(i as int));
            i = i + 1;
        }
        assert(infos@.take(i as int) =~= infos@);
        Ok(store)
    }

    /// Registers a node's public key.
    pub fn insert(&mut self, node_id: NodeId, key: VerifyingKey)
        ensures
            final(self)@ == old(self)@.insert(node_id, key@),
    {
        self.keys.insert(node_id, key);
        assert(self@ =~= old(self)@.insert(node_id, key@));
    }

    /// A node's public key.
    pub fn get(&self, node_id: NodeId) -> (key: Option<&VerifyingKey>)
        ensures
            match key {
                Some(key) => self@.contains_key(node_id) && key@ == self@[node_id],
                None => !self@.contains_key(node_id),
            },
    {
        self.keys.get(&node_id)
    }

    /// The number of registered keys.
    pub fn len(&self) -> (n: usize)
        ensures
            n == self@.dom().len(),
    {
        assert(self@.dom() =~= self.keys@.dom());
        self.keys.len()
    }

    /// Whether no key is registered.
    pub fn is_empty(&self) -> (empty: bool)
        ensures
            empty == (self@ == Map::<NodeId, Seq<u8>>::empty()),
    {
        let empty = self.keys.is_empty();
        proof {
            assert(self@.dom() =~= self.keys@.dom());
            if empty {
                assert(self@ =~= Map::<NodeId, Seq<u8>>::empty());
            } else if self@ == Map::<NodeId, Seq<u8>>::empty() {
                assert(self.keys@ =~= Map::<NodeId, VerifyingKey>::empty());
            }
        }
        empty
    }
}

impl Default for KeyStore {
    fn default() -> (store: Self)
        ensures
            store@ == Map::<NodeId, Seq<u8>>::empty(),
    {
        KeyStore::new()
    }
}

impl Clone for KeyStore {
    fn clone(&self) -> (copy: Self)
        ensures
            copy@ == self@,
    {
        KeyStore { keys: self.keys.clone() }
    }
}

// ---------------------------------------------------------------------------
// Verification
// ---------------------------------------------------------------------------

/// What a signature of a message is, held against a public key.
pub open spec fn signature_verdict(
    key: Seq<u8>,
    message: Seq<u8>,
    signature: Seq<u8>,
) -> Result<(), CryptoErrorView> {
    if signature.len() != 64 {
        Err(CryptoErrorView::MalformedSignature { reason: bad_signature_text() })
    } else if !ed25519_accepts(key, message, signature) {
        Err(CryptoErrorView::InvalidSignature)
    } else {
        Ok(())
    }
}

/// What a payload is whose signature verifies.
pub open spec fn payload_verdict(payload: Seq<u8>) -> Result<MessageView, CryptoErrorView> {
    match codec::dec_message(payload) {
        Ok((msg, _)) => Ok(msg),
        Err(e) => Err(CryptoErrorView::DeserializationFailed { reason: codec::decode_text(e) }),
    }
}

/// What a signed message is whose signature covers `input`: the message, or
/// the first thing that is wrong with it. The sender has to be known, the
/// signature has to be one and to verify, and the payload has to decode.
pub open spec fn verdict(
    keys: Map<NodeId, Seq<u8>>,
    signed: SignedView,
    input: Seq<u8>,
) -> Result<MessageView, CryptoErrorView> {
    if !keys.contains_key(signed.sender) {
        Err(CryptoErrorView::UnknownSender { node_id: signed.sender })
    } else {
        match signature_verdict(keys[signed.sender], input, signed.signature) {
            Err(e) => Err(e),
            Ok(_) => payload_verdict(signed.payload),
        }
    }
}

/// A signature is in order exactly where it has 64 bytes and verifies. Fewer or
/// more bytes are no signature, and 64 bytes that do not verify are a wrong one.
pub proof fn law_signature_in_order(key: Seq<u8>, message: Seq<u8>, signature: Seq<u8>)
    ensures
        signature_verdict(key, message, signature) is Ok <==> signature.len() == 64
            && ed25519_accepts(key, message, signature),
        signature.len() != 64 ==> signature_verdict(key, message, signature)
            == Err::<(), CryptoErrorView>(
            CryptoErrorView::MalformedSignature { reason: "signature error"@ },
        ),
        signature.len() == 64 && !ed25519_accepts(key, message, signature) ==> signature_verdict(
            key,
            message,
            signature,
        ) == Err::<(), CryptoErrorView>(CryptoErrorView::InvalidSignature),
{
}

/// A signed message is accepted exactly where its sender has a key, its signature
/// has 64 bytes and verifies under that key, and its payload is a message, and it
/// is that message. Otherwise the first of these that fails is reported.
pub proof fn law_message_is_judged(keys: Map<NodeId, Seq<u8>>, signed: SignedView, input: Seq<u8>)
    ensures
        ({
            let result = verdict(keys, signed, input);
            let known = keys.contains_key(signed.sender);
            let key = keys[signed.sender];
            let signature = signed.signature;
            let accepted = signature.len() == 64 && ed25519_accepts(key, input, signature);
            let parsed = codec::dec_message(signed.payload);
            &&& !known ==> result == Err::<MessageView, CryptoErrorView>(
                CryptoErrorView::UnknownSender { node_id: signed.sender },
            )
            &&& known && signature.len() != 64 ==> result == Err::<MessageView, CryptoErrorView>(
                CryptoErrorView::MalformedSignature { reason: "signature error"@ },
            )
            &&& known && signature.len() == 64 && !accepted ==> result == Err::<
                MessageView,
                CryptoErrorView,
            >(CryptoErrorView::InvalidSignature)
            &&& known && accepted && parsed is Ok ==> result == Ok::<MessageView, CryptoErrorView>(
                parsed->Ok_0.0,
            )
            &&& known && accepted && parsed is Err ==> result == Err::<
                MessageView,
                CryptoErrorView,
            >(
                CryptoErrorView::DeserializationFailed {
                    reason: codec::decode_text(parsed->Err_0),
                },
            )
        }),
{
}

/// A signed message names its sender and holds the message in full. Its signature
/// is made with the sender's seed, of the message alone or of the message with its
/// chain and view.
pub proof fn law_signing_covers_the_message(
    sender: NodeId,
    seed: Seq<u8>,
    msg: MessageView,
    chain_id: Seq<char>,
    view: u64,
)
    ensures
        ({
            let plain = sign_plain(sender, seed, msg);
            let bound = sign_for(sender, seed, msg, chain_id, view);
            let payload = codec::enc_message(msg);
            &&& plain.sender == sender == bound.sender
            &&& plain.payload == payload
            &&& bound.payload == payload
            &&& plain.signature == ed25519_signature(seed, payload)
            &&& bound.signature == ed25519_signature(
                seed,
                signing_input(chain_id, view, payload),
            )
        }),
{
}

/// Where the parts of what is signed stand: the length of the chain's name in
/// eight bytes, the name, the view in eight bytes, the payload.
pub proof fn law_signing_input_layout(chain_id: Seq<char>, view: u64, payload: Seq<u8>)
    ensures
        ({
            let name = vstd::utf8::encode_utf8(chain_id);
            let n = name.len() as int;
            let input = signing_input(chain_id, view, payload);
            &&& input.len() == 16 + n + payload.len()
            &&& n <= u64::MAX ==> octets::le_value(input.take(8)) == n
            &&& input.subrange(8, 8 + n) == name
            &&& octets::le_value(input.subrange(8 + n, 16 + n)) == view
            &&& input.skip(16 + n) == payload
        }),
{
    let name = vstd::utf8::encode_utf8(chain_id);
    let n = name.len() as int;
    let input = signing_input(chain_id, view, payload);
    octets::lemma_pow256_values();
    octets::lemma_le_bytes_len(name.len(), 8);
    octets::lemma_le_bytes_len(view as nat, 8);
    octets::lemma_le_value_of_bytes(view as nat, 8);
    assert(input.take(8) =~= octets::le_bytes(name.len(), 8));
    if n <= u64::MAX {
        octets::lemma_le_value_of_bytes(name.len(), 8);
    }
    assert(input.subrange(8, 8 + n) =~= name);
    assert(input.subrange(8 + n, 16 + n) =~= octets::le_bytes(view as nat, 8));
    assert(input.skip(16 + n) =~= payload);
}

/// A node is registered exactly where one of the keys is its own, with the last of
/// these.
pub proof fn law_last_key_is_registered(infos: Seq<PublicKeyInfo>, at: int, node: NodeId)
    requires
        -1 <= at < infos.len(),
        at >= 0 ==> infos[at].node_id == node,
        forall|i: int| at < i < infos.len() ==> (#[trigger] infos[i]).node_id != node,
    ensures
        registry(infos).contains_key(node) <==> at >= 0,
        at >= 0 ==> registry(infos)[node] == infos[at].key_bytes@,
    decreases infos.len(),
{
    if infos.len() > 0 {
        let last = infos.len() - 1;
        if at < last {
            assert(infos[last].node_id != node);
            assert forall|i: int| at < i < last implies (#[trigger] infos.drop_last()[i]).node_id
                != node by {
                assert(infos.drop_last()[i] == infos[i]);
            }
            law_last_key_is_registered(infos.drop_last(), at, node);
        }
    }
}

/// A signed message that verifies under a key is accepted, as that message, by
/// every node that has registered the key for its sender.
pub proof fn law_verifying_message_is_accepted(
    signed: SignedView,
    input: Seq<u8>,
    key: Seq<u8>,
    msg: MessageView,
    keys: Map<NodeId, Seq<u8>>,
)
    requires
        verifies(signed, input, key, msg),
        keys.contains_key(signed.sender),
        keys[signed.sender] == key,
    ensures
        verdict(keys, signed, input) == Ok::<MessageView, CryptoErrorView>(msg),
{
}

/// The key that is reported is the first one that is none, and what is said of it
/// is that it is no point of the curve.
pub proof fn law_first_bad_key_is_reported(infos: Seq<PublicKeyInfo>, at: int, i: int)
    ensures
        first_invalid(infos, at) ==> 0 <= at < infos.len() && !ed25519_is_key(infos[at].key_bytes@),
        first_invalid(infos, at) && 0 <= i < at ==> ed25519_is_key(infos[i].key_bytes@),
        bad_key_text() == "signature error: Cannot decompress Edwards point"@,
        bad_signature_text() == "signature error"@,
{
}

/// What is said of an error names its kind and then everything that it holds.
pub proof fn law_crypto_errors_are_told(node_id: NodeId, reason: Seq<char>)
    ensures
        crypto_text(CryptoErrorView::UnknownSender { node_id }) == "unknown sender: node "@
            + text::decimal(node_id as nat),
        crypto_text(CryptoErrorView::InvalidPublicKey { node_id, reason })
            == "invalid public key for node "@ + text::decimal(node_id as nat) + ": "@ + reason,
        crypto_text(CryptoErrorView::MalformedSignature { reason }) == "malformed signature: "@
            + reason,
        crypto_text(CryptoErrorView::InvalidSignature) == "signature verification failed"@,
        crypto_text(CryptoErrorView::DeserializationFailed { reason })
            == "payload deserialization failed: "@ + reason,
        crypto_text(CryptoErrorView::TaskJoinError { reason }) == "blocking task failed: "@
            + reason,
{
}

/// An error stands for its own kind and what it holds.
pub proof fn law_crypto_error_stands_for_itself(error: CryptoError)
    ensures
        match error {
            CryptoError::UnknownSender { node_id } => error@ == (CryptoErrorView::UnknownSender {
                node_id,
            }),
            CryptoError::InvalidPublicKey { node_id, reason } => error@ == (
            CryptoErrorView::InvalidPublicKey { node_id, reason: reason@ }),
            CryptoError::MalformedSignature { reason } => error@ == (
            CryptoErrorView::MalformedSignature { reason: reason@ }),
            CryptoError::InvalidSignature => error@ == CryptoErrorView::InvalidSignature,
            CryptoError::DeserializationFailed { reason } => error@ == (
            CryptoErrorView::DeserializationFailed { reason: reason@ }),
            CryptoError::TaskJoinError { reason } => error@ == (CryptoErrorView::TaskJoinError {
                reason: reason@,
            }),
        },
{
}

/// A result agrees with what it should be exactly where it is the same message,
/// or the same error.
pub proof fn law_agreeing_result_is_the_same(
    result: Result<ConsensusMessage, CryptoError>,
    expected: Result<MessageView, CryptoErrorView>,
)
    ensures
        agrees(result, expected) <==> match (result, expected) {
            (Ok(msg), Ok(should)) => msg@ == should,
            (Err(e), Err(should)) => e@ == should,
            _ => false,
        },
{
}

/// A result held against what it should be.
pub open spec fn agrees(
    result: Result<ConsensusMessage, CryptoError>,
    expected: Result<MessageView, CryptoErrorView>,
) -> bool {
    match result {
        Ok(msg) => expected == Ok::<MessageView, CryptoErrorView>(msg@),
        Err(e) => expected == Err::<MessageView, CryptoErrorView>(e@),
    }
}

/// Verifies a signature of a message.
pub fn verify_signature(
    verifying_key: &VerifyingKey,
    message: &[u8],
    signature_bytes: &[u8],
) -> (result: Result<(), CryptoError>)
    ensures
        match result {
            Ok(_) => signature_verdict(verifying_key@, message@, signature_bytes@) is Ok,
            Err(e) => signature_verdict(verifying_key@, message@, signature_bytes@) == Err::<
                (),
                CryptoErrorView,
            >(e@),
        },
{
    proof {
        use_type_invariant(verifying_key);
    }
    match dalek_check_signature(signature_bytes) {
        Err(reason) => Err(CryptoError::MalformedSignature { reason }),
        Ok(_) => accepted_or_not(dalek_verify(&verifying_key.bytes, message, signature_bytes)),
    }
}

/// What the outcome of a verification means.
pub fn accepted_or_not(accepted: bool) -> (result: Result<(), CryptoError>)
    ensures
        match result {
            Ok(_) => accepted,
            Err(e) => !accepted && e@ == CryptoErrorView::InvalidSignature,
        },
{
    if accepted {
        Ok(())
    } else {
        Err(CryptoError::InvalidSignature)
    }
}

/// Opens a payload whose signature verifies.
pub fn open_payload(payload: &[u8]) -> (result: Result<ConsensusMessage, CryptoError>)
    ensures
        agrees(result, payload_verdict(payload@)),
{
    match ConsensusMessage::from_bytes(payload) {
        Ok(msg) => Ok(msg),
        Err(e) => Err(CryptoError::DeserializationFailed { reason: e.describe() }),
    }
}

/// Verifies a signed message whose signature covers `input`.
fn verify_over(key_store: &KeyStore, signed: &SignedMessage, input: &[u8]) -> (result: Result<
    ConsensusMessage,
    CryptoError,
>)
    ensures
        agrees(result, verdict(key_store@, signed@, input@)),
{
    match key_store.get(signed.sender) {
        None => Err(CryptoError::UnknownSender { node_id: signed.sender }),
        Some(key) => match verify_signature(key, input, &signed.signature) {
            Err(e) => Err(e),
            Ok(_) => open_payload(&signed.payload),
        },
    }
}

/// Verifies a signature of a message for a chain and a view.
pub fn verify_message_signature(
    key_store: &KeyStore,
    node_id: NodeId,
    msg: &ConsensusMessage,
    chain_id: &str,
    view: u64,
    signature: &[u8],
) -> (valid: bool)
    ensures
        valid == (key_store@.contains_key(node_id) && signature_verdict(
            key_store@[node_id],
            signing_input(chain_id@, view, codec::enc_message(msg@)),
            signature@,
        ) is Ok),
{
    match key_store.get(node_id) {
        None => false,
        Some(key) => {
            let payload = msg.to_bytes();
            let input = make_signing_input(chain_id, view, &payload);
            verify_signature(key, &input, signature).is_ok()
        },
    }
}

/// Verifies a signed message whose signature covers its payload.
pub fn verify_signed_message(key_store: &KeyStore, signed: &SignedMessage) -> (result: Result<
    ConsensusMessage,
    CryptoError,
>)
    ensures
        agrees(result, verdict(key_store@, signed@, signed@.payload)),
{
    verify_over(key_store, signed, &signed.payload)
}

/// Verifies a signed message whose signature covers chain, view and payload.
pub fn verify_signed_message_with_context(
    key_store: &KeyStore,
    signed: &SignedMessage,
    chain_id: &str,
    view: u64,
) -> (result: Result<ConsensusMessage, CryptoError>)
    ensures
        agrees(
            result,
            verdict(key_store@, signed@, signing_input(chain_id@, view, signed@.payload)),
        ),
{
    let input = make_signing_input(chain_id, view, &signed.payload);
    verify_over(key_store, signed, &input)
}

} // verus!
