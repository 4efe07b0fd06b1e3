use meshcore::noise::NoiseSession;
use meshcore::LocalIdentity;

/// Run the full XX handshake between two fresh sessions, returning them in transport mode.
fn establish() -> (NoiseSession, NoiseSession, LocalIdentity, LocalIdentity) {
    let alice_id = LocalIdentity::from_seed(&[1u8; 32]);
    let bob_id = LocalIdentity::from_seed(&[2u8; 32]);
    let mut a = NoiseSession::new_initiator(&alice_id.dh_private_bytes()).unwrap();
    let mut b = NoiseSession::new_responder(&bob_id.dh_private_bytes()).unwrap();

    let m1 = a.write_handshake().unwrap(); // -> e
    b.read_handshake(&m1).unwrap();
    let m2 = b.write_handshake().unwrap(); // <- e, ee, s, es
    a.read_handshake(&m2).unwrap();
    let m3 = a.write_handshake().unwrap(); // -> s, se
    b.read_handshake(&m3).unwrap();

    assert!(a.is_ready() && b.is_ready());
    (a, b, alice_id, bob_id)
}

#[test]
fn handshake_then_bidirectional_messages() {
    let (mut a, mut b, _, _) = establish();

    let ct = a.encrypt(b"meet at the north gate").unwrap();
    assert_ne!(&ct[..], b"meet at the north gate"); // actually encrypted
    assert_eq!(b.decrypt(&ct).unwrap(), b"meet at the north gate");

    let ct2 = b.encrypt(b"on my way").unwrap();
    assert_eq!(a.decrypt(&ct2).unwrap(), b"on my way");
}

#[test]
fn remote_static_binds_to_identity() {
    // Each side's Noise remote static must equal the peer's announced X25519 key — this is the
    // hook the node uses to reject a MITM.
    let (a, b, alice_id, bob_id) = establish();
    assert_eq!(a.remote_static().unwrap(), bob_id.dh_public());
    assert_eq!(b.remote_static().unwrap(), alice_id.dh_public());
}

#[test]
fn third_party_cannot_decrypt() {
    let (mut a, _b, _, _) = establish();
    let ct = a.encrypt(b"secret").unwrap();

    // Eve completes her own handshake with a fresh peer and tries to read Alice's ciphertext.
    let (_, mut eve, _, _) = establish();
    assert!(eve.decrypt(&ct).is_err());
}

#[test]
fn tampered_ciphertext_rejected() {
    let (mut a, mut b, _, _) = establish();
    let mut ct = a.encrypt(b"authentic").unwrap();
    ct[0] ^= 0xff;
    assert!(b.decrypt(&ct).is_err());
}

#[test]
fn encrypt_before_ready_errors() {
    let id = LocalIdentity::from_seed(&[9u8; 32]);
    let mut s = NoiseSession::new_initiator(&id.dh_private_bytes()).unwrap();
    assert!(s.encrypt(b"nope").is_err());
    assert!(s.is_handshaking());
}

#[test]
fn ciphertext_carries_a_sixteen_byte_tag() {
    let (mut a, mut b, _, _) = establish();
    let ct = a.encrypt(b"0123456789").unwrap();
    assert_eq!(ct.len(), 10 + 16);
    assert_eq!(b.decrypt(&ct).unwrap().len(), 10);
}

#[test]
fn handshake_calls_refused_after_the_handshake() {
    let (mut a, _, _, _) = establish();
    assert!(a.write_handshake().is_err());
    assert!(a.read_handshake(&[0u8; 48]).is_err());
    assert!(a.is_ready());
}
