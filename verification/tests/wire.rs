use ed25519_dalek::{Signer, SigningKey};
use sha2::{Digest, Sha256};
use meshcore::error::WireError;
use meshcore::wire::MIN_HEADER;
use meshcore::{EphId, MsgType, Packet};
use rand::rngs::OsRng;

fn key() -> SigningKey {
    SigningKey::generate(&mut OsRng)
}

fn sample(recipient: Option<EphId>) -> Packet {
    Packet::new(
        MsgType::ChannelMessage,
        7,
        1_700_000_000_000,
        [1, 2, 3, 4, 5, 6, 7, 8],
        recipient,
        b"hello mesh".to_vec(),
    )
}

#[test]
fn roundtrip_broadcast() {
    let sk = key();
    let mut p = sample(None);
    p.sign(&sk.to_bytes());
    let bytes = p.encode();
    let d = Packet::decode(&bytes).unwrap();
    assert_eq!(d, p);
    d.verify(&sk.verifying_key().to_bytes()).unwrap();
}

#[test]
fn roundtrip_directed() {
    let sk = key();
    let mut p = sample(Some([9, 9, 9, 9, 9, 9, 9, 9]));
    p.sign(&sk.to_bytes());
    let d = Packet::decode(&p.encode()).unwrap();
    assert_eq!(d.recipient, Some([9; 8]));
    d.verify(&sk.verifying_key().to_bytes()).unwrap();
}

#[test]
fn ttl_excluded_from_signature() {
    // A relay decrements TTL; the signature must still verify.
    let sk = key();
    let mut p = sample(None);
    p.sign(&sk.to_bytes());
    let mut relayed = Packet::decode(&p.encode()).unwrap();
    relayed.ttl -= 1;
    relayed.verify(&sk.verifying_key().to_bytes()).unwrap();
    // Digest is stable across the TTL change.
    assert_eq!(relayed.digest(), p.digest());
}

#[test]
fn tampered_payload_fails_verify() {
    let sk = key();
    let mut p = sample(None);
    p.sign(&sk.to_bytes());
    let mut bytes = p.encode();
    // Flip a payload byte (payload starts after the fixed header).
    let idx = MIN_HEADER + 2;
    bytes[idx] ^= 0xff;
    let d = Packet::decode(&bytes).unwrap();
    assert!(d.verify(&sk.verifying_key().to_bytes()).is_err());
}

#[test]
fn unknown_type_preserved() {
    let sk = key();
    let mut p = Packet::new(MsgType::Unknown(0x7f), 3, 1, [0; 8], None, vec![1, 2, 3]);
    p.sign(&sk.to_bytes());
    let d = Packet::decode(&p.encode()).unwrap();
    assert_eq!(d.msg_type, MsgType::Unknown(0x7f));
    assert!(!d.msg_type.is_known());
}

#[test]
fn bad_version_rejected() {
    let sk = key();
    let mut p = sample(None);
    p.sign(&sk.to_bytes());
    let mut bytes = p.encode();
    bytes[0] = 0xEE;
    assert_eq!(Packet::decode(&bytes), Err(WireError::BadVersion(0xEE)));
}

#[test]
fn short_buffer_rejected_not_panic() {
    for n in 0..40 {
        let sk = key();
        let mut p = sample(None);
        p.sign(&sk.to_bytes());
        let bytes = p.encode();
        let truncated = &bytes[..n.min(bytes.len())];
        // Must be an error, never a panic.
        let _ = Packet::decode(truncated);
    }
}

#[test]
fn trailing_bytes_rejected() {
    let sk = key();
    let mut p = sample(None);
    p.sign(&sk.to_bytes());
    let mut bytes = p.encode();
    bytes.push(0x00);
    assert_eq!(Packet::decode(&bytes), Err(WireError::Trailing(1)));
}

#[test]
fn oversized_length_rejected() {
    let sk = key();
    let mut p = sample(None);
    p.sign(&sk.to_bytes());
    let mut bytes = p.encode();
    // Corrupt payload_len to a huge value. Locate the payload_len field.
    let len_off = MIN_HEADER - 2; // no recipient
    bytes[len_off] = 0xff;
    bytes[len_off + 1] = 0xff;
    assert!(matches!(Packet::decode(&bytes), Err(WireError::BadLength { .. })));
}

#[test]
fn short_header_reports_what_it_needs() {
    assert_eq!(Packet::decode(&[1u8; 10]), Err(WireError::Short { need: 22, have: 10 }));
}

#[test]
fn signature_is_ed25519_over_the_region_with_ttl_zero() {
    let sk = SigningKey::from_bytes(&[8u8; 32]);
    let mut p = sample(None);
    p.sign(&sk.to_bytes());
    let mut region = p.encode();
    region.truncate(region.len() - 64);
    region[3] = 0; // TTL position
    assert_eq!(p.signature, sk.sign(&region).to_bytes());
    assert_eq!(p.signed_region(), region);
}

#[test]
fn digest_is_sha256_prefix_of_the_signature() {
    let mut p = sample(None);
    p.sign(&[6u8; 32]);
    let h = Sha256::digest(p.signature);
    assert_eq!(&p.digest()[..], &h[..8]);
}

#[test]
fn message_type_codes_roundtrip() {
    for b in 0u8..=255 {
        assert_eq!(MsgType::from_u8(b).to_u8(), b);
    }
    assert_eq!(MsgType::from_u8(0x02), MsgType::ChannelMessage);
    assert!(MsgType::from_u8(0x13).is_known());
    assert!(!MsgType::from_u8(0x08).is_known());
}
