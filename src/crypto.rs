//! A keyed-digest signature scheme over 64-bit keys.
//!
//! A secret key and its public key share one 64-bit value; a signature is the
//! digest of that value followed by the message. It is deterministic and easy to
//! forge, which suits simulations and tests of the protocol, not production.
use crate::encoding::{le_bytes, push_le};
use vstd::prelude::*;

verus! {

/// A member's identity: the key its votes are checked against.
#[derive(Clone, Copy, Debug, PartialEq, Eq, PartialOrd, Ord, Hash, Default, Structural)]
pub struct PublicKey(pub u64);

/// The signing half of a key pair.
#[derive(Debug, PartialEq, Eq, Structural)]
pub struct SecretKey(pub u64);

/// A signature over a message, checked against a `PublicKey`.
#[derive(Clone, Copy, Debug, PartialEq, Eq, PartialOrd, Ord, Hash, Default, Structural)]
pub struct Signature(pub u64);

/// Why a signature was refused.
#[derive(Clone, Copy, Debug, PartialEq, Eq, Structural)]
pub enum SignatureError {
    FailedVerification,
}

/// The lowercase hex digit of `n`, for `n < 16`.
pub open spec fn hex_digit(n: nat) -> char {
    seq!['0', '1', '2', '3', '4', '5', '6', '7', '8', '9', 'a', 'b', 'c', 'd', 'e', 'f'][n as int]
}

/// Each byte as two lowercase hex digits, high half first.
pub open spec fn hex_of(bytes: Seq<u8>) -> Seq<char>
    decreases bytes.len(),
{
    if bytes.len() == 0 {
        Seq::empty()
    } else {
        hex_of(bytes.drop_last()) + seq![
            hex_digit(bytes.last() as nat / 16),
            hex_digit(bytes.last() as nat % 16),
        ]
    }
}

/// Relies on `hex::encode`: each byte becomes two lowercase hex digits, the high
/// half first, in the order of the bytes.
#[verifier::external_body]
fn hex_encode(bytes: &[u8]) -> (r: String)
    ensures
        r@ == hex_of(bytes@),
{
    hex::encode(bytes)
}

/// The 64-bit digest of a key value followed by a message.
pub uninterp spec fn keyed_digest(key: u64, msg: Seq<u8>) -> u64;

/// Relies on std's `BuildHasher::hash_one` with `DefaultHasher`: the pair of the
/// key and the message is hashed by a hasher made by `default`, and std documents
/// that all such hashers are the same, so within one build of std the digest
/// depends on the key and the message alone. (std may change the algorithm
/// between its releases.)
#[verifier::external_body]
fn digest(key: u64, msg: &[u8]) -> (r: u64)
    ensures
        r == keyed_digest(key, msg@),
{
    let build = std::hash::BuildHasherDefault::<std::collections::hash_map::DefaultHasher>::default();
    std::hash::BuildHasher::hash_one(&build, (key, msg))
}

/// Whether `sig` is the signature of `msg` under the key `pk`.
pub open spec fn signature_matches(pk: PublicKey, msg: Seq<u8>, sig: Signature) -> bool {
    sig.0 == keyed_digest(pk.0, msg)
}

impl PublicKey {
    /// The short form of this key that logs show: its three low bytes in hex,
    /// least significant first.
    pub fn short_hex(&self) -> (r: String)
        ensures
            r@ == hex_of(le_bytes(self.0 as nat, 3)),
    {
        let mut bytes: Vec<u8> = Vec::new();
        push_le(&mut bytes, self.0, 3);
        proof {
            assert(bytes@ =~= le_bytes(self.0 as nat, 3));
        }
        hex_encode(bytes.as_slice())
    }

    /// Checks that `signature` was made over `msg` by the holder of this key.
    pub fn verify(&self, msg: &[u8], signature: &Signature) -> (r: Result<(), SignatureError>)
        ensures
            r is Ok <==> signature_matches(*self, msg@, *signature),
    {
        if digest(self.0, msg) == signature.0 {
            Ok(())
        } else {
            Err(SignatureError::FailedVerification)
        }
    }
}

impl SecretKey {
    /// The secret key whose value is `value`.
    pub fn new(value: u64) -> (r: SecretKey)
        ensures
            r.0 == value,
    {
        SecretKey(value)
    }

    /// The public key that checks this key's signatures.
    pub fn public_key(&self) -> (r: PublicKey)
        ensures
            r.0 == self.0,
    {
        PublicKey(self.0)
    }

    /// Signs `msg`.
    pub fn sign(&self, msg: &[u8]) -> (r: Signature)
        ensures
            signature_matches(PublicKey(self.0), msg@, r),
            r.0 == keyed_digest(self.0, msg@),
    {
        Signature(digest(self.0, msg))
    }
}

} // verus!
