use meshcore::node::{keys_bind, MeshEvent, MeshNode, DM_HANDSHAKE_RETRY_MS};
use meshcore::payload::{decode_channel, encode_channel};
use meshcore::store::{MemoryStore, PeerRecord, Store};
use meshcore::{LocalIdentity, ManualClock, TransportEvent, Tunables};

fn store() -> MemoryStore {
    MemoryStore::new(1000, 6 * 3_600_000, 24 * 3_600_000, 100)
}

fn node(seed: u8) -> MeshNode<ManualClock, MemoryStore> {
    MeshNode::new(
        LocalIdentity::from_seed(&[seed; 32]),
        Tunables::default(),
        ManualClock::new(1000),
        store(),
        "tester".to_string(),
        seed as u64,
    )
}

/// Drain (and clear) a node's outbound frames.
fn drain(n: &mut MeshNode<ManualClock, MemoryStore>) -> Vec<Vec<u8>> {
    n.take_outbound().into_iter().map(|(_, f)| f).collect()
}

fn link_up(n: &mut MeshNode<ManualClock, MemoryStore>) {
    n.on_transport_event(TransportEvent::LinkUp { link: 1, mtu: 182, peer_hint: None });
}

fn feed(n: &mut MeshNode<ManualClock, MemoryStore>, frames: Vec<Vec<u8>>) {
    for f in frames {
        n.on_transport_event(TransportEvent::FrameReceived { link: 1, frame: f });
    }
}

#[test]
fn announce_roundtrip_between_two_nodes() {
    let mut a = node(1);
    let mut b = node(2);
    // a gets a link; it announces. Capture a's announce frames and feed them to b.
    link_up(&mut a);
    let a_frames = drain(&mut a);
    link_up(&mut b);
    feed(&mut b, a_frames);
    let evs = b.take_events();
    assert!(
        evs.iter().any(|e| matches!(e, MeshEvent::PeerAppeared { .. })),
        "b should have learned a's identity, got {evs:?}"
    );
}

/// A DM must still deliver when the recipient had not yet learned the sender's announce when the
/// first Noise handshake arrived: the initiator re-drives the handshake from `tick`.
#[test]
fn dm_retries_until_recipient_learns_sender() {
    let mut a = node(1);
    let mut b = node(2);
    link_up(&mut a);
    link_up(&mut b);

    // A learns B (deliver B's announce to A) — but B is NOT told about A yet.
    let from_b = drain(&mut b);
    feed(&mut a, from_b);
    let b_fp = a
        .take_events()
        .iter()
        .find_map(|e| match e {
            MeshEvent::PeerAppeared { fingerprint, .. } => Some(*fingerprint),
            _ => None,
        })
        .expect("A should have learned B's identity");
    let _ = drain(&mut a); // discard A's own announce so B stays ignorant of A

    // A sends a DM: it begins the handshake. B receives it but can't identify A → drops it.
    a.send_dm(b_fp, "north gate clear");
    let from_a = drain(&mut a);
    feed(&mut b, from_a);
    assert!(
        !b.take_events().iter().any(|e| matches!(e, MeshEvent::DmReceived { .. })),
        "B can't decrypt a DM from a sender it hasn't learned yet"
    );

    // Now B learns A (A's announce finally propagates).
    a.announce();
    let from_a = drain(&mut a);
    feed(&mut b, from_a);
    let _ = b.take_events();

    // Advance past the retry interval and tick A: it re-drives the handshake. Shuttle frames
    // both ways to completion.
    a.clock_mut().advance(DM_HANDSHAKE_RETRY_MS + 1);
    a.tick();
    for _ in 0..8 {
        let from_a = drain(&mut a);
        feed(&mut b, from_a);
        let from_b = drain(&mut b);
        feed(&mut a, from_b);
    }

    assert!(
        b.take_events()
            .iter()
            .any(|e| matches!(e, MeshEvent::DmReceived { text, .. } if text == "north gate clear")),
        "the retried handshake should deliver the DM once B has learned A"
    );
}

/// Verifying a peer starts a message-less session so both ends flip to a bound `DmSession`
/// immediately — no chat message required, and none is delivered.
#[test]
fn start_dm_session_binds_both_ends_without_a_message() {
    let mut a = node(1);
    let mut b = node(2);
    link_up(&mut a);
    link_up(&mut b);
    // Exchange announces both ways.
    let from_a = drain(&mut a);
    feed(&mut b, from_a);
    let from_b = drain(&mut b);
    feed(&mut a, from_b);
    let b_fp = a
        .take_events()
        .iter()
        .find_map(|e| match e {
            MeshEvent::PeerAppeared { fingerprint, .. } => Some(*fingerprint),
            _ => None,
        })
        .expect("A should have learned B");
    let _ = b.take_events();

    a.start_dm_session(b_fp);
    for _ in 0..8 {
        let from_a = drain(&mut a);
        feed(&mut b, from_a);
        let from_b = drain(&mut b);
        feed(&mut a, from_b);
    }

    let b_evs = b.take_events();
    assert!(
        b_evs.iter().any(|e| matches!(e, MeshEvent::DmSession { verified: true, .. })),
        "B should see a bound session (→ verified) purely from A verifying B"
    );
    assert!(
        !b_evs.iter().any(|e| matches!(e, MeshEvent::DmReceived { .. })),
        "no chat message should be delivered by starting a session"
    );
}

#[test]
fn channel_message_encode_decode() {
    let cfg = Tunables::default();
    let enc = encode_channel("#general", "hello world", &cfg);
    let (chan, text) = decode_channel(&enc, &cfg).unwrap();
    assert_eq!(chan, "#general");
    assert_eq!(text, "hello world");
}

#[test]
fn compressed_channel_message_roundtrips() {
    let cfg = Tunables::default();
    let long = "safe route north gate ".repeat(20);
    let enc = encode_channel("#north", &long, &cfg);
    assert_eq!(enc[0], 1, "long body should be compressed");
    let (_, text) = decode_channel(&enc, &cfg).unwrap();
    assert_eq!(text, long);
}

#[test]
fn own_message_marked_seen_and_stored() {
    let mut a = node(3);
    a.send_channel_message("#general", "hi");
    assert_eq!(a.store().channel_history("#general", 10).len(), 1);
}

#[test]
fn panic_wipe_clears_store() {
    let mut a = node(4);
    a.send_channel_message("#general", "secret");
    a.panic_wipe();
    assert!(a.store().channel_history("#general", 10).is_empty());
}

#[test]
fn verify_and_petname_persist_and_survive_announce() {
    let mut a = node(5);
    let fp = [0x42u8; 32];
    assert!(!a.peer_verified(&fp));

    a.verify_peer(fp);
    a.set_petname(fp, "ava");
    assert!(a.peer_verified(&fp));
    assert_eq!(a.peer_petname(&fp), Some("ava".to_string()));

    // A fresh announce for this identity must not downgrade verification or drop the petname.
    let existing = a.store().get_peer(&fp).unwrap();
    assert!(existing.verified);
    a.store_mut().upsert_peer(PeerRecord {
        fingerprint: fp,
        petname: existing.petname.clone(),
        verified: existing.verified,
        last_eph: [9; 8],
        last_seen_ms: 1,
    });
    assert!(a.peer_verified(&fp));
    assert_eq!(a.peer_petname(&fp), Some("ava".to_string()));

    // Clearing the petname works.
    a.set_petname(fp, "");
    assert_eq!(a.peer_petname(&fp), None);
}

#[test]
fn duplicate_frame_is_delivered_once() {
    let mut a = node(6);
    let mut b = node(7);
    link_up(&mut a);
    link_up(&mut b);
    let from_a = drain(&mut a);
    feed(&mut b, from_a);
    let _ = drain(&mut b);
    let _ = b.take_events();
    a.send_channel_message("#general", "once");
    let frames = drain(&mut a);
    feed(&mut b, frames.clone());
    feed(&mut b, frames);
    let evs = b.take_events();
    let delivered = evs
        .iter()
        .filter(|e| matches!(e, MeshEvent::MessageReceived { body, .. } if body == "once"))
        .count();
    assert_eq!(delivered, 1);
    let verified = evs
        .iter()
        .any(|e| matches!(e, MeshEvent::MessageReceived { verified: true, .. }));
    assert!(verified);
}

#[test]
fn link_events_update_links_and_report_losses() {
    let mut a = node(8);
    a.on_transport_event(TransportEvent::LinkUp { link: 4, mtu: 182, peer_hint: None });
    a.on_transport_event(TransportEvent::LinkUp { link: 5, mtu: 182, peer_hint: None });
    assert_eq!(a.link_count(), 2);
    a.on_transport_event(TransportEvent::MtuChanged { link: 4, mtu: 517 });
    a.on_transport_event(TransportEvent::LinkDown { link: 5 });
    assert_eq!(a.link_count(), 1);
    assert_eq!(a.take_events(), vec![MeshEvent::PeerLost { link: 5 }]);
    assert_eq!(a.tick(), 250);
}

#[test]
fn unsubscribed_channel_is_stored_but_not_shown() {
    let mut a = node(9);
    let mut b = node(10);
    link_up(&mut a);
    link_up(&mut b);
    let _ = drain(&mut b);
    let _ = drain(&mut a);
    a.send_channel_message("#ops", "quiet");
    let frames = drain(&mut a);
    feed(&mut b, frames);
    assert_eq!(b.store().channel_history("#ops", 10).len(), 1);
    assert!(!b.take_events().iter().any(|e| matches!(e, MeshEvent::MessageReceived { .. })));
    b.join_channel("OPS");
    a.send_channel_message("#ops", "now shown");
    let frames = drain(&mut a);
    feed(&mut b, frames);
    assert!(b
        .take_events()
        .iter()
        .any(|e| matches!(e, MeshEvent::MessageReceived { body, .. } if body == "now shown")));
}

#[test]
fn session_binding_needs_both_keys_equal() {
    let k = [9u8; 32];
    let mut other = k;
    other[31] = 8;
    assert!(keys_bind(Some(k), Some(k)));
    assert!(!keys_bind(Some(k), Some(other)));
    assert!(!keys_bind(None, Some(k)));
    assert!(!keys_bind(Some(k), None));
}

/// A DM to a peer nobody has heard from is held in the store, and handed over once the peer
/// announces: the handshake runs and the held text is delivered.
#[test]
fn dm_to_unknown_peer_is_held_until_it_announces() {
    let mut a = node(1);
    let mut b = node(2);
    let b_fp = LocalIdentity::from_seed(&[2; 32]).fingerprint();
    a.send_dm(b_fp, "held for you");
    assert!(drain(&mut a).is_empty(), "nothing can be sent to an unknown peer");
    link_up(&mut a);
    link_up(&mut b);
    let from_a = drain(&mut a);
    feed(&mut b, from_a);
    let from_b = drain(&mut b);
    feed(&mut a, from_b);
    for _ in 0..8 {
        let from_a = drain(&mut a);
        feed(&mut b, from_a);
        let from_b = drain(&mut b);
        feed(&mut a, from_b);
    }
    assert!(
        b.take_events()
            .iter()
            .any(|e| matches!(e, MeshEvent::DmReceived { text, .. } if text == "held for you")),
        "the held DM should be delivered once the peer announced"
    );
}
