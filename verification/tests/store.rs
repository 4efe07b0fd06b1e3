use meshcore::store::{MemoryStore, PeerRecord, Store, StoredMessage};

fn store() -> MemoryStore {
    MemoryStore::new(1000, 6 * 3_600_000, 24 * 3_600_000, 100)
}

fn msg(digest: u8, channel: &str, ts: u64) -> StoredMessage {
    StoredMessage {
        digest: [digest; 8],
        channel: channel.to_string(),
        sender: [1; 8],
        timestamp_ms: ts,
        body: b"hi".to_vec(),
        raw: vec![],
    }
}

#[test]
fn stores_and_dedups() {
    let mut s = store();
    s.put_channel_message(msg(1, "#general", 100));
    s.put_channel_message(msg(1, "#general", 100)); // dup
    assert_eq!(s.channel_history("#general", 10).len(), 1);
    assert!(s.has_message(&[1; 8]));
}

#[test]
fn store_history_capped_by_count() {
    let mut s = MemoryStore::new(2, 0, 0, 100);
    for i in 1..=5u8 {
        s.put_channel_message(msg(i, "#c", i as u64));
    }
    let h = s.channel_history("#c", 10);
    assert_eq!(h.len(), 2);
    // Newest two survive.
    assert_eq!(h[1].digest, [5; 8]);
}

#[test]
fn envelopes_queue_and_drain() {
    let mut s = store();
    let fp = [7u8; 32];
    s.queue_envelope(fp, vec![1, 2, 3], 0);
    s.queue_envelope(fp, vec![4, 5, 6], 0);
    let drained = s.take_envelopes(&fp);
    assert_eq!(drained.len(), 2);
    assert!(s.take_envelopes(&fp).is_empty());
}

#[test]
fn envelopes_expire() {
    let mut s = MemoryStore::new(1000, 0, 1000, 100);
    let fp = [8u8; 32];
    s.queue_envelope(fp, vec![1], 0);
    s.queue_envelope(fp, vec![2], 2000); // triggers expiry of the first
    let drained = s.take_envelopes(&fp);
    assert_eq!(drained, vec![vec![2u8]]);
}

#[test]
fn panic_wipe_leaves_nothing() {
    let mut s = store();
    s.put_channel_message(msg(1, "#general", 100));
    s.queue_envelope([9; 32], vec![1], 0);
    s.panic_wipe();
    assert!(s.channel_history("#general", 10).is_empty());
    assert!(!s.has_message(&[1; 8]));
    assert!(s.take_envelopes(&[9; 32]).is_empty());
}

#[test]
fn history_is_kept_in_time_order() {
    let mut s = store();
    s.put_channel_message(msg(3, "#c", 300));
    s.put_channel_message(msg(1, "#c", 100));
    s.put_channel_message(msg(2, "#c", 200));
    let h = s.channel_history("#c", 10);
    let ts: Vec<u64> = h.iter().map(|m| m.timestamp_ms).collect();
    assert_eq!(ts, vec![100, 200, 300]);
    assert_eq!(s.channel_digests("#c"), vec![[1; 8], [2; 8], [3; 8]]);
    // The limit keeps the newest.
    let last = s.channel_history("#c", 1);
    assert_eq!(last[0].digest, [3; 8]);
}

#[test]
fn stale_messages_leave_the_window() {
    let mut s = MemoryStore::new(1000, 1000, 0, 100);
    s.put_channel_message(msg(1, "#c", 0));
    s.put_channel_message(msg(2, "#c", 5000)); // the first is now 5 s old: dropped
    let h = s.channel_history("#c", 10);
    assert_eq!(h.len(), 1);
    assert_eq!(h[0].digest, [2; 8]);
    // A window-pruned message is no longer reported as held.
    assert!(!s.has_message(&[1; 8]));
}

#[test]
fn peers_read_back_as_written() {
    let mut s = store();
    let fp = [3u8; 32];
    assert!(s.get_peer(&fp).is_none());
    s.upsert_peer(PeerRecord {
        fingerprint: fp,
        petname: Some("ava".to_string()),
        verified: true,
        last_eph: [2; 8],
        last_seen_ms: 9,
    });
    let p = s.get_peer(&fp).unwrap();
    assert_eq!(p.petname.as_deref(), Some("ava"));
    assert!(p.verified);
    assert_eq!(p.last_seen_ms, 9);
}

#[test]
fn message_lookup_by_digest() {
    let mut s = store();
    s.put_channel_message(msg(4, "#a", 10));
    s.put_channel_message(msg(5, "#b", 20));
    assert_eq!(s.message_by_digest(&[5; 8]).unwrap().channel, "#b");
    assert!(s.message_by_digest(&[6; 8]).is_none());
}

#[test]
fn envelope_queue_is_capped_per_peer() {
    let mut s = MemoryStore::new(1000, 0, 1_000_000, 2);
    let fp = [1u8; 32];
    s.queue_envelope(fp, vec![1], 0);
    s.queue_envelope(fp, vec![2], 1);
    s.queue_envelope(fp, vec![3], 2);
    assert_eq!(s.take_envelopes(&fp), vec![vec![2u8], vec![3u8]]);
}

#[test]
fn age_pruned_message_is_no_longer_reported_held() {
    let mut s = MemoryStore::new(1000, 100, 0, 100);
    s.put_channel_message(msg(1, "#c", 0));
    s.put_channel_message(msg(2, "#c", 1000));
    let h = s.channel_history("#c", 10);
    assert_eq!(h.len(), 1);
    assert_eq!(h[0].digest, [2; 8]);
    assert!(!s.has_message(&[1; 8]));
    assert!(s.has_message(&[2; 8]));
}
