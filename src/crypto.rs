//! Ed25519 signatures over canonical message bytes, and their verification
//! against a static map from replica id to public key.

use vstd::prelude::*;
use std::collections::HashMap;
use ring::signature::{Ed25519KeyPair, KeyPair};
use crate::message::{Canonical, PBFTMessage, SignedMessage};

verus! {

broadcast use vstd::std_specs::hash::group_hash_axioms;

/// Whether `pkcs8` is a PKCS#8 v2 Ed25519 key document that ring accepts.
pub uninterp spec fn ed25519_pkcs8_valid(pkcs8: Seq<u8>) -> bool;

/// The Ed25519 signature of `msg` by the key that `pkcs8` holds.
pub uninterp spec fn ed25519_signature(pkcs8: Seq<u8>, msg: Seq<u8>) -> Seq<u8>;

/// The public key of the key pair that `pkcs8` holds.
pub uninterp spec fn ed25519_public(pkcs8: Seq<u8>) -> Seq<u8>;

/// Whether `sig` is a valid Ed25519 signature of `msg` under the public key `pk`.
pub uninterp spec fn ed25519_accepts(pk: Seq<u8>, msg: Seq<u8>, sig: Seq<u8>) -> bool;

/// Relies on ring's `Ed25519KeyPair::from_pkcs8`: whether it accepts the document.
#[verifier::external_body]
fn ed25519_pkcs8_check(pkcs8: &[u8]) -> (r: bool)
    ensures
        r == ed25519_pkcs8_valid(pkcs8@),
{
    Ed25519KeyPair::from_pkcs8(pkcs8).is_ok()
}

/// Relies on ring's `Ed25519KeyPair::from_pkcs8` and `Ed25519KeyPair::sign`:
/// the signature, 64 bytes, which depends on the key and the message alone
/// (the nonce is derived from the private key and the message).
#[verifier::external_body]
fn ed25519_sign(pkcs8: &[u8], msg: &[u8]) -> (r: Vec<u8>)
    requires
        ed25519_pkcs8_valid(pkcs8@),
    ensures
        r@ == ed25519_signature(pkcs8@, msg@),
        r@.len() == 64,
{
    match Ed25519KeyPair::from_pkcs8(pkcs8) {
        Ok(keypair) => keypair.sign(msg).as_ref().to_vec(),
        Err(_) => Vec::new(),
    }
}

/// Relies on ring's `Ed25519KeyPair::from_pkcs8` and `KeyPair::public_key`:
/// the 32 bytes of the public key.
#[verifier::external_body]
fn ed25519_public_key(pkcs8: &[u8]) -> (r: Vec<u8>)
    requires
        ed25519_pkcs8_valid(pkcs8@),
    ensures
        r@ == ed25519_public(pkcs8@),
        r@.len() == 32,
{
    match Ed25519KeyPair::from_pkcs8(pkcs8) {
        Ok(keypair) => keypair.public_key().as_ref().to_vec(),
        Err(_) => Vec::new(),
    }
}

/// Relies on ring's `UnparsedPublicKey::verify` with `ED25519`: whether `sig`
/// signs `msg` under `pk`, which it never is unless the key has 32 bytes and
/// the signature 64.
#[verifier::external_body]
fn ed25519_verify(pk: &[u8], msg: &[u8], sig: &[u8]) -> (r: bool)
    ensures
        r == ed25519_accepts(pk@, msg@, sig@),
        r ==> pk@.len() == 32 && sig@.len() == 64,
{
    ring::signature::UnparsedPublicKey::new(&ring::signature::ED25519, pk).verify(msg, sig).is_ok()
}

/// Whether `sig` signs `bytes` under the key that `keys` holds for `signer`.
pub open spec fn signed_by(keys: Map<u32, Seq<u8>>, signer: u32, bytes: Seq<u8>, sig: Seq<u8>) -> bool {
    keys.contains_key(signer) && ed25519_accepts(keys[signer], bytes, sig)
}

/// Whether the envelope carries a valid signature of its signer over its message.
pub open spec fn envelope_valid<T: Canonical>(keys: Map<u32, Seq<u8>>, m: SignedMessage<T>) -> bool {
    signed_by(keys, m.signer_id, m.message.canonical(), m.signature@)
}

/// Whether the message passes signature verification under `keys`.
pub open spec fn message_valid(keys: Map<u32, Seq<u8>>, m: PBFTMessage) -> bool {
    match m {
        PBFTMessage::Request(s) => envelope_valid(keys, s),
        PBFTMessage::PrePrepare(s) => envelope_valid(keys, s),
        PBFTMessage::Prepare(s) => envelope_valid(keys, s),
        PBFTMessage::Commit(s) => envelope_valid(keys, s),
        PBFTMessage::Reply(s) => envelope_valid(keys, s),
    }
}

/// A replica's signing key (a PKCS#8 document), its id, and the public
/// keys of the others.
pub struct Crypto {
    pkcs8: Vec<u8>,
    id: u32,
    peer_public_keys: HashMap<u32, Vec<u8>>,
}

impl Crypto {
    #[verifier::type_invariant]
    closed spec fn inv(&self) -> bool {
        ed25519_pkcs8_valid(self.pkcs8@)
    }

    /// The id that this signer puts on its envelopes.
    pub closed spec fn id(&self) -> u32 {
        self.id
    }

    /// The PKCS#8 document of the signing key.
    pub closed spec fn key(&self) -> Seq<u8> {
        self.pkcs8@
    }

    /// The public key known for each signer id.
    pub closed spec fn peer_keys(&self) -> Map<u32, Seq<u8>> {
        self.peer_public_keys@.map_values(|v: Vec<u8>| v@)
    }

    /// A signer with the key that `pkcs8` holds, or `None` if ring does not
    /// accept the document.
    pub fn new(pkcs8: Vec<u8>, id: u32, peer_public_keys: HashMap<u32, Vec<u8>>) -> (r: Option<Self>)
        ensures
            r is Some <==> ed25519_pkcs8_valid(pkcs8@),
            r is Some ==> r->Some_0.key() == pkcs8@ && r->Some_0.id() == id
                && r->Some_0.peer_keys() == peer_public_keys@.map_values(|v: Vec<u8>| v@),
    {
        if !ed25519_pkcs8_check(pkcs8.as_slice()) {
            return None;
        }
        Some(Crypto { pkcs8, id, peer_public_keys })
    }

    /// The 32 bytes of this signer's public key.
    pub fn get_pub_key(&self) -> (r: Vec<u8>)
        ensures
            r@ == ed25519_public(self.key()),
            r@.len() == 32,
    {
        proof {
            use_type_invariant(self);
        }
        ed25519_public_key(self.pkcs8.as_slice())
    }

    /// The signature of the message's canonical bytes.
    pub fn sign<T: Canonical>(&self, message: &T) -> (r: Vec<u8>)
        ensures
            r@ == ed25519_signature(self.key(), message.canonical()),
            r@.len() == 64,
    {
        proof {
            use_type_invariant(self);
        }
        let bytes = message.canonical_bytes();
        ed25519_sign(self.pkcs8.as_slice(), bytes.as_slice())
    }

    /// The message in an envelope signed by this signer.
    pub fn create_signed_message<T: Canonical>(&self, message: T) -> (r: SignedMessage<T>)
        ensures
            r.message == message,
            r.signer_id == self.id(),
            r.signature@ == ed25519_signature(self.key(), message.canonical()),
            r.signature@.len() == 64,
    {
        let signature = self.sign(&message);
        SignedMessage { message, signature, signer_id: self.id }
    }

    /// Whether the envelope's signer is known and its signature is valid over
    /// the canonical bytes of its message.
    pub fn verify_signed_message<T: Canonical>(&self, signed_msg: &SignedMessage<T>) -> (r: bool)
        ensures
            r == envelope_valid(self.peer_keys(), *signed_msg),
    {
        let pk = match self.peer_public_keys.get(&signed_msg.signer_id) {
            Some(pk) => pk,
            None => {
                return false;
            },
        };
        let bytes = signed_msg.message.canonical_bytes();
        ed25519_verify(pk.as_slice(), bytes.as_slice(), signed_msg.signature.as_slice())
    }

    /// Whether the envelope inside the message, whatever its kind, verifies.
    pub fn verify_pbft_message(&self, message: &PBFTMessage) -> (r: bool)
        ensures
            r == message_valid(self.peer_keys(), *message),
    {
        match message {
            PBFTMessage::Request(m) => self.verify_signed_message(m),
            PBFTMessage::PrePrepare(m) => self.verify_signed_message(m),
            PBFTMessage::Prepare(m) => self.verify_signed_message(m),
            PBFTMessage::Commit(m) => self.verify_signed_message(m),
            PBFTMessage::Reply(m) => self.verify_signed_message(m),
        }
    }
}

} // verus!
