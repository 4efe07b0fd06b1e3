//! Cryptographic identity: a long-term Ed25519 signing key + X25519 agreement key, a stable
//! fingerprint, a rotating ephemeral wire ID, and a hashcash proof-of-work used as anti-sybil
//! friction when minting an identity.
//!
//! The OS-level BLE MAC is useless as an identity (randomized every few minutes), so identity is
//! entirely app-layer: peers learn the `eph_id → static key` binding from a *signed* Announce.
//! The ephemeral ID is random per rotation, so it cannot be linked back to the fingerprint by an
//! observer.

pub mod pow;

use vstd::prelude::*;

use crate::bytes::append_bytes;
use crate::crypto::{
    ed25519_public, ed25519_public_key, os_random_32, sha256, sha256_digest, wipe32, x25519_public,
    x25519_public_key,
};
use crate::random::draw_bytes8;
use crate::wire::EphId;
use rand::rngs::StdRng;

verus! {

/// SHA-256 of the Ed25519 public key. The stable, verifiable identity of a node.
pub type Fingerprint = [u8; 32];

/// The domain label under which the X25519 secret is derived from the seed.
pub open spec fn dh_label() -> Seq<u8> {
    seq![99u8, 111, 99, 107, 114, 111, 97, 99, 104, 47, 100, 104, 47, 118, 49]
}

/// The domain label under which the first ephemeral id is derived from the seed.
pub open spec fn eph_label() -> Seq<u8> {
    seq![99u8, 111, 99, 107, 114, 111, 97, 99, 104, 47, 101, 112, 104, 47, 118, 49]
}

/// Domain-separated key derivation: SHA-256 over the seed followed by the label.
pub open spec fn spec_derive(seed: Seq<u8>, label: Seq<u8>) -> Seq<u8> {
    sha256(seed + label)
}

/// The fingerprint of an identity whose Ed25519 secret key is `secret`.
pub open spec fn fingerprint_of(secret: Seq<u8>) -> Seq<u8> {
    sha256(ed25519_public(secret))
}

fn derive(seed: &[u8; 32], label: &[u8]) -> (out: [u8; 32])
    ensures
        out@ == spec_derive(seed@, label@),
{
    let mut buf: Vec<u8> = Vec::new();
    append_bytes(&mut buf, seed);
    append_bytes(&mut buf, label);
    sha256_digest(buf.as_slice())
}

pub struct LocalIdentity {
    signing: [u8; 32],
    dh_secret: [u8; 32],
    eph_id: EphId,
}

impl LocalIdentity {
    /// The 32-byte Ed25519 secret key.
    pub closed spec fn signing_secret(&self) -> Seq<u8> {
        self.signing@
    }

    /// The 32-byte X25519 static secret.
    pub closed spec fn dh_secret_bytes(&self) -> Seq<u8> {
        self.dh_secret@
    }

    /// The current ephemeral wire id.
    pub closed spec fn eph(&self) -> Seq<u8> {
        self.eph_id@
    }

    pub closed spec fn wf(&self) -> bool {
        self.signing@.len() == 32 && self.dh_secret@.len() == 32 && self.eph_id@.len() == 8
    }

    /// Fresh random identity from the OS CSPRNG. Use on real devices.
    pub fn generate() -> (id: Self)
        ensures
            id.wf(),
            exists|seed: Seq<u8>|
                seed.len() == 32 && id.signing_secret() == seed && id.dh_secret_bytes()
                    == spec_derive(seed, dh_label()) && id.eph() == spec_derive(
                    seed,
                    eph_label(),
                ).subrange(0, 8),
    {
        let mut seed = os_random_32();
        let id = Self::from_seed(&seed);
        wipe32(&mut seed);
        id
    }

    /// Deterministic identity from a 32-byte seed. Use in tests and the simulator so runs are
    /// reproducible.
    pub fn from_seed(seed: &[u8; 32]) -> (id: Self)
        ensures
            id.wf(),
            id.signing_secret() == seed@,
            id.dh_secret_bytes() == spec_derive(seed@, dh_label()),
            id.eph() == spec_derive(seed@, eph_label()).subrange(0, 8),
    {
        let dh_label_bytes: [u8; 15] = [99u8, 111, 99, 107, 114, 111, 97, 99, 104, 47, 100, 104, 47, 118, 49];
        let eph_label_bytes: [u8; 16] = [99u8, 111, 99, 107, 114, 111, 97, 99, 104, 47, 101, 112, 104, 47, 118, 49];
        assert(dh_label_bytes@ =~= dh_label());
        assert(eph_label_bytes@ =~= eph_label());
        let dh_secret = derive(seed, &dh_label_bytes);
        let eph_full = derive(seed, &eph_label_bytes);
        let eph = crate::bytes::read_array8(&eph_full, 0);
        LocalIdentity { signing: *seed, dh_secret, eph_id: eph }
    }

    pub fn fingerprint(&self) -> (fp: [u8; 32])
        requires
            self.wf(),
        ensures
            fp@ == fingerprint_of(self.signing_secret()),
    {
        let pk = ed25519_public_key(&self.signing);
        sha256_digest(&pk)
    }

    /// The encoded Ed25519 public key.
    pub fn verifying_key(&self) -> (pk: [u8; 32])
        ensures
            pk@ == ed25519_public(self.signing_secret()),
    {
        ed25519_public_key(&self.signing)
    }

    /// The Ed25519 secret key, for signing packets.
    pub fn signing_key(&self) -> (k: &[u8; 32])
        ensures
            k@ == self.signing_secret(),
    {
        &self.signing
    }

    /// The encoded X25519 public key.
    pub fn dh_public(&self) -> (pk: [u8; 32])
        ensures
            pk@ == x25519_public(self.dh_secret_bytes()),
    {
        x25519_public_key(&self.dh_secret)
    }

    /// The X25519 static secret, for the Noise handshake.
    pub fn dh_private_bytes(&self) -> (k: [u8; 32])
        ensures
            k@ == self.dh_secret_bytes(),
    {
        self.dh_secret
    }

    pub fn eph_id(&self) -> (e: EphId)
        ensures
            e@ == self.eph(),
    {
        self.eph_id
    }

    /// Rotate the ephemeral wire ID (call in lock-step with BLE MAC rotation). The long-term keys,
    /// and so the fingerprint, are unaffected.
    pub fn rotate_eph(&mut self, rng: &mut StdRng)
        requires
            old(self).wf(),
        ensures
            final(self).wf(),
            final(self).signing_secret() == old(self).signing_secret(),
            final(self).dh_secret_bytes() == old(self).dh_secret_bytes(),
    {
        self.eph_id = draw_bytes8(rng);
    }
}

} // verus!
