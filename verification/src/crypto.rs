//! The cryptographic primitives the core relies on: SHA-256 (`sha2`), Ed25519 (`ed25519-dalek`),
//! X25519 (`x25519-dalek`), secret erasure (`zeroize`) and the OS random source (`rand`).
//!
//! Each primitive is a function of its arguments alone and is named here by an uninterpreted spec
//! function; the wrappers below tie the outside call to that name. Nothing here re-implements a
//! primitive.

use vstd::prelude::*;

use ed25519_dalek::{Signature, Signer, SigningKey, Verifier, VerifyingKey};
use rand::RngCore;
use sha2::{Digest, Sha256};
use x25519_dalek::{PublicKey as XPublic, StaticSecret as XSecret};
use zeroize::Zeroize;

verus! {

/// SHA-256 of a byte string.
pub uninterp spec fn sha256(data: Seq<u8>) -> Seq<u8>;

/// The Ed25519 public key belonging to a 32-byte secret key.
pub uninterp spec fn ed25519_public(secret: Seq<u8>) -> Seq<u8>;

/// The Ed25519 signature of `msg` under a 32-byte secret key (Ed25519 signing is deterministic).
pub uninterp spec fn ed25519_signature(secret: Seq<u8>, msg: Seq<u8>) -> Seq<u8>;

/// Whether the Ed25519 verifier accepts `sig` over `msg` for the encoded public key `public`.
pub uninterp spec fn ed25519_accepts(public: Seq<u8>, msg: Seq<u8>, sig: Seq<u8>) -> bool;

/// The X25519 public key belonging to a 32-byte static secret.
pub uninterp spec fn x25519_public(secret: Seq<u8>) -> Seq<u8>;

/// Calls `sha2::Sha256::digest`. Claimed: the 32-byte result is `sha256(data)`.
#[verifier::external_body]
pub(crate) fn sha256_digest(data: &[u8]) -> (h: [u8; 32])
    ensures
        h@ == sha256(data@),
{
    Sha256::digest(data).into()
}

/// Calls `ed25519_dalek::SigningKey::verifying_key` on the key built from `secret`. Claimed: the
/// encoded key is `ed25519_public(secret)`.
#[verifier::external_body]
pub(crate) fn ed25519_public_key(secret: &[u8; 32]) -> (pk: [u8; 32])
    ensures
        pk@ == ed25519_public(secret@),
{
    SigningKey::from_bytes(secret).verifying_key().to_bytes()
}

/// Calls `ed25519_dalek::SigningKey::sign` with the key built from `secret`. Claimed: the encoded
/// signature is `ed25519_signature(secret, msg)`.
#[verifier::external_body]
pub(crate) fn ed25519_sign(secret: &[u8; 32], msg: &[u8]) -> (sig: [u8; 64])
    ensures
        sig@ == ed25519_signature(secret@, msg@),
{
    SigningKey::from_bytes(secret).sign(msg).to_bytes()
}

/// Calls `ed25519_dalek::VerifyingKey::verify`, after `VerifyingKey::from_bytes` (a public key that
/// does not decode is treated as a rejection). Claimed: the answer is
/// `ed25519_accepts(public, msg, sig)`, and a signature produced by the matching secret key over
/// the same message is accepted (Ed25519 correctness).
#[verifier::external_body]
pub(crate) fn ed25519_verify(public: &[u8; 32], msg: &[u8], sig: &[u8; 64]) -> (ok: bool)
    ensures
        ok == ed25519_accepts(public@, msg@, sig@),
        forall|secret: Seq<u8>|
            secret.len() == 32 && public@ == #[trigger] ed25519_public(secret) && sig@
                == ed25519_signature(secret, msg@) ==> ok,
{
    match VerifyingKey::from_bytes(public) {
        Ok(vk) => vk.verify(msg, &Signature::from_bytes(sig)).is_ok(),
        Err(_) => false,
    }
}

/// Calls `x25519_dalek::PublicKey::from` on the static secret built from `secret`. Claimed: the
/// encoded key is `x25519_public(secret)`.
#[verifier::external_body]
pub(crate) fn x25519_public_key(secret: &[u8; 32]) -> (pk: [u8; 32])
    ensures
        pk@ == x25519_public(secret@),
{
    XPublic::from(&XSecret::from(*secret)).to_bytes()
}

/// Calls `zeroize::Zeroize::zeroize`. Claimed: every byte is zero afterwards.
#[verifier::external_body]
pub(crate) fn wipe32(secret: &mut [u8; 32])
    ensures
        forall|i: int| 0 <= i < 32 ==> final(secret)@[i] == 0,
{
    secret.zeroize();
}

/// Calls `rand::rngs::OsRng::fill_bytes`. Nothing is claimed of the bytes: they come from the
/// operating system's random source.
#[verifier::external_body]
pub(crate) fn os_random_32() -> (out: [u8; 32]) {
    let mut out = [0u8; 32];
    rand::rngs::OsRng.fill_bytes(&mut out);
    out
}

} // verus!
