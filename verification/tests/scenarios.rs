//! Mesh scenario tests. Every one is deterministic (seeded); a failure is replayable by rerunning
//! with the same seed.

use meshcore::sim::scenarios;

#[test]
fn two_nodes_hello() {
    for seed in [1, 2, 3] {
        assert!(scenarios::two_nodes_hello(seed), "two-node delivery failed for seed {seed}");
    }
}

#[test]
fn multi_hop_line_relay() {
    // 6 hops: the two ends are far out of radio range and rely entirely on relays.
    let r = scenarios::line_relay(6, 3);
    assert!(r.reached_far_end, "message did not survive {} hops", r.hops);
}

#[test]
fn partition_heals_without_duplicates() {
    for seed in [5, 6] {
        let r = scenarios::partition_heal(seed);
        assert!(r.converged, "rooms did not converge after heal (seed {seed})");
        assert_eq!(
            r.duplicate_ui_events, 0,
            "reconciliation delivered a duplicate to the UI (seed {seed})"
        );
    }
}

#[test]
fn duplicate_storm_is_suppressed() {
    let r = scenarios::duplicate_storm(9);
    assert!(r.delivered, "storm message not delivered to all nodes");
    // Eight nodes echoing the same packet must collapse to a handful of rebroadcasts, not a storm.
    assert!(
        r.relay_tx < 20,
        "duplicate storm produced {} transmissions — suppression failed",
        r.relay_tx
    );
}

#[test]
fn encrypted_dm_relays_and_eavesdropper_is_blind() {
    let r = scenarios::direct_message(7);
    assert!(r.delivered, "recipient did not decrypt the DM");
    assert!(r.text_ok, "DM plaintext did not match");
    assert!(
        r.eavesdropper_blind,
        "the relaying middle node decrypted the DM — E2E encryption broken"
    );
}

#[test]
fn dm_survives_redundant_links() {
    // The regression that broke DMs on real phones: ~5 links to one peer falsely greylisted it.
    for seed in [1, 2, 3, 7] {
        assert!(
            scenarios::dm_over_redundant_links(seed),
            "DM failed over redundant links (seed {seed}) — duplicate copies greylisted the peer"
        );
    }
}

#[test]
fn malicious_flooder_is_contained() {
    let r = scenarios::malicious_flooder(11);
    assert!(r.honest_delivered, "honest message lost during flood");
    assert!(
        r.attacker_greylisted_effect,
        "flooder was not rate-limited — too much spam propagated"
    );
}

#[test]
fn redundant_links_collapse_to_one() {
    let r = scenarios::link_dedup(4);
    assert_eq!(r.links_after, 1);
    assert!(r.delivered);
}

fn delivery(sender: u8, ts: u64) -> meshcore::MeshEvent {
    meshcore::MeshEvent::MessageReceived {
        channel: "#general".to_string(),
        sender: [sender; 8],
        body: "x".to_string(),
        timestamp_ms: ts,
        verified: false,
    }
}

#[test]
fn duplicate_deliveries_counts_repeats_only() {
    let events = vec![
        delivery(1, 10),
        delivery(2, 10),
        meshcore::MeshEvent::PeerLost { link: 0 },
        delivery(1, 10),
        delivery(1, 11),
        delivery(1, 10),
    ];
    assert_eq!(scenarios::duplicate_deliveries(&events), 2);
    assert_eq!(scenarios::duplicate_deliveries(&[]), 0);
}

#[test]
fn received_dms_keeps_order() {
    let fp = [7u8; 32];
    let events = vec![
        meshcore::MeshEvent::DmReceived { sender_fp: fp, from_eph: [1; 8], text: "one".to_string() },
        delivery(1, 10),
        meshcore::MeshEvent::DmReceived { sender_fp: fp, from_eph: [1; 8], text: "two".to_string() },
    ];
    assert_eq!(scenarios::received_dms(&events), vec!["one".to_string(), "two".to_string()]);
}
