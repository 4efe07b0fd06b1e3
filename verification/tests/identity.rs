use meshcore::identity::pow;
use meshcore::{LocalIdentity, MsgType, Packet};
use rand::rngs::StdRng;
use rand::SeedableRng;
use sha2::{Digest, Sha256};

#[test]
fn deterministic_from_seed() {
    let a = LocalIdentity::from_seed(&[7u8; 32]);
    let b = LocalIdentity::from_seed(&[7u8; 32]);
    assert_eq!(a.fingerprint(), b.fingerprint());
    assert_eq!(a.eph_id(), b.eph_id());
    assert_eq!(a.dh_public(), b.dh_public());
}

#[test]
fn distinct_seeds_differ() {
    let a = LocalIdentity::from_seed(&[1u8; 32]);
    let b = LocalIdentity::from_seed(&[2u8; 32]);
    assert_ne!(a.fingerprint(), b.fingerprint());
}

#[test]
fn sign_and_verify_roundtrip() {
    let id = LocalIdentity::from_seed(&[5u8; 32]);
    let mut p = Packet::new(MsgType::Announce, 7, 1, id.eph_id(), None, vec![1, 2, 3]);
    p.sign(id.signing_key());
    p.verify(&id.verifying_key()).unwrap();
}

#[test]
fn eph_rotation_changes_id() {
    let mut id = LocalIdentity::from_seed(&[9u8; 32]);
    let before = id.eph_id();
    let fp = id.fingerprint();
    let mut rng = StdRng::seed_from_u64(1);
    id.rotate_eph(&mut rng);
    assert_ne!(id.eph_id(), before);
    // Fingerprint (long-term identity) is unaffected by rotation.
    assert_eq!(id.fingerprint(), fp);
}

#[test]
fn pow_mint_then_verify() {
    let pk = [0xABu8; 32];
    let bits = 8; // small for a fast test
    let nonce = pow::mint(&pk, bits);
    assert!(pow::verify(&pk, nonce, bits));
    assert!(!pow::verify(&pk, nonce.wrapping_add(1), 24));
}

#[test]
fn fingerprint_is_sha256_of_the_public_key() {
    let id = LocalIdentity::from_seed(&[3u8; 32]);
    let expected: [u8; 32] = Sha256::digest(id.verifying_key()).into();
    assert_eq!(id.fingerprint(), expected);
    let sk = ed25519_dalek::SigningKey::from_bytes(&[3u8; 32]);
    assert_eq!(id.verifying_key(), sk.verifying_key().to_bytes());
}

#[test]
fn derived_keys_follow_the_labels() {
    let seed = [4u8; 32];
    let id = LocalIdentity::from_seed(&seed);
    let mut h = Sha256::new();
    h.update(seed);
    h.update(b"cockroach/dh/v1");
    let dh: [u8; 32] = h.finalize().into();
    assert_eq!(id.dh_private_bytes(), dh);
    let mut h = Sha256::new();
    h.update(seed);
    h.update(b"cockroach/eph/v1");
    let eph: [u8; 32] = h.finalize().into();
    assert_eq!(&id.eph_id()[..], &eph[..8]);
    let xs = x25519_dalek::StaticSecret::from(dh);
    assert_eq!(id.dh_public(), x25519_dalek::PublicKey::from(&xs).to_bytes());
}

#[test]
fn minted_nonce_is_the_least_valid_one() {
    let pk = [0x11u8; 32];
    let nonce = pow::mint(&pk, 6);
    assert!(pow::verify(&pk, nonce, 6));
    for n in 0..nonce {
        assert!(!pow::verify(&pk, n, 6));
    }
}

#[test]
fn zero_bits_accepts_nonce_zero() {
    assert_eq!(pow::mint(&[1u8; 32], 0), 0);
    assert!(pow::verify(&[1u8; 32], 12345, 0));
}

#[test]
fn generated_identities_differ() {
    let a = LocalIdentity::generate();
    let b = LocalIdentity::generate();
    assert_ne!(a.fingerprint(), b.fingerprint());
}
