//! Reusable scenario runners, shared by the integration tests and the simulator CLI. Each returns
//! a result struct so callers can assert (tests) or print (CLI).

use vstd::prelude::*;

use crate::bytes::be_u64_of;
use crate::config::Tunables;
use crate::node::MeshEvent;
use crate::sim::{numbered, topology, World};
use crate::store::Store;

verus! {

pub const MTU: usize = 182;

pub const LINK_LATENCY_MS: u64 = 15;

/// A crowd dense enough that the whole cluster is within a handful of hops. The TTL is lifted so
/// a single broadcast can traverse the entire connected graph, and rebroadcast probability is kept
/// high so counter-based suppression does the thinning: a low-degree cut vertex that rolled a miss
/// would otherwise cut off a whole sub-crowd.
pub fn crowd_cfg() -> (cfg: Tunables)
    ensures
        cfg == (Tunables {
            ttl_default: 24,
            ttl_dense_clamp: 24,
            relay_prob_sparse: 1_000_000,
            relay_prob_mid: 1_000_000,
            relay_prob_dense: 850_000,
            ..Tunables::spec_default()
        }),
{
    let d = Tunables::default();
    Tunables {
        ttl_default: 24,
        ttl_dense_clamp: 24,
        relay_prob_sparse: 1_000_000,
        relay_prob_mid: 1_000_000,
        relay_prob_dense: 850_000,
        ..d
    }
}

/// Whether node `i` of `w` holds a message with digest `d`.
pub open spec fn holds(w: World, i: int, d: [u8; 8]) -> bool {
    w.node_at(i).store_value().digest_keys().contains(be_u64_of(d@))
}

/// `n`, capped at `usize::MAX`.
pub open spec fn capped(n: nat) -> nat {
    if n > usize::MAX {
        usize::MAX as nat
    } else {
        n
    }
}

/// The shape of a finished run: a well-formed world of `n` nodes and `e` edges, at least `t`
/// milliseconds of virtual time in.
pub open spec fn ran(w: World, n: nat, e: nat, t: int) -> bool {
    &&& w.wf()
    &&& w.size() == n
    &&& w.edge_count() == e
    &&& w.time() >= t
}

/// What [`two_nodes_hello`] reports of its final world `w`, where `d` is the message sent.
pub open spec fn hello_outcome(w: World, d: [u8; 8], r: bool) -> bool {
    &&& ran(w, 2, 1, 2000)
    &&& r == (w.holders(be_u64_of(d@), 2) == 2)
}

/// Two nodes, one link: a message from A must reach B. Reports whether both nodes hold it after
/// the run, whatever the random draws along the way were.
pub fn two_nodes_hello(seed: u64) -> (r: bool)
    ensures
        exists|w: World, d: [u8; 8]| #[trigger] hello_outcome(w, d, r),
{
    let mut world = World::new(2, crowd_cfg(), seed);
    world.link(0, 1, LINK_LATENCY_MS, 0, MTU);
    world.bootstrap();
    world.run_for(1000);
    let digest = world.node_mut(0).send_channel_message("#general", "hi B");
    world.run_for(1000);
    let r = world.count_with_message(&digest) == 2;
    assert(hello_outcome(world, digest, r));
    r
}

pub struct RelayResult {
    pub reached_far_end: bool,
    pub hops: usize,
}

/// Line A—B—…—Z where the ends are out of radio range: the message must relay end to end.
pub fn line_relay(hops: usize, seed: u64) -> (r: RelayResult)
    requires
        hops < usize::MAX,
    ensures
        r.hops == hops,
        exists|w: World, d: [u8; 8]|
            #![trigger ran(w, (hops + 1) as nat, hops as nat, 4000), holds(w, hops as int, d)]
            ran(w, (hops + 1) as nat, hops as nat, 4000) && r.reached_far_end == holds(w, hops as int, d),
{
    let n = hops + 1;
    let g = topology::line(n);
    let mut world = World::new(n, crowd_cfg(), seed);
    let mut e: usize = 0;
    while e < g.edges.len()
        invariant
            world.wf(),
            world.size() == n,
            g.edges@.len() == n - 1,
            forall|i: int| 0 <= i < g.edges@.len() ==> #[trigger] g.edges@[i] == (i as usize, (i + 1) as usize),
            world.edge_count() == e,
            world.time() == 0,
            e <= g.edges@.len(),
        decreases g.edges@.len() - e,
    {
        let (a, b) = g.edges[e];
        world.link(a, b, LINK_LATENCY_MS, 0, MTU);
        e = e + 1;
    }
    world.bootstrap();
    world.run_for(1000);
    let digest = world.node_mut(0).send_channel_message("#general", "relay me");
    world.run_for(3000);
    let r = RelayResult { reached_far_end: world.node(n - 1).store().has_message(&digest), hops };
    assert(ran(world, (hops + 1) as nat, hops as nat, 4000) && r.reached_far_end == holds(world, hops as int, digest));
    r
}

pub struct PartitionResult {
    pub converged: bool,
    pub duplicate_ui_events: usize,
}

/// Repeated channel deliveries, summed over the first `k` nodes of `w`.
pub open spec fn repeats_upto(w: World, k: int) -> nat
    decreases k,
{
    if k <= 0 {
        0
    } else {
        repeats_upto(w, k - 1) + repeat_count(w.events_of(k - 1))
    }
}

/// What [`partition_heal`] reports of its final world `w`, where `d_a` and `d_b` are the two
/// rooms' messages: convergence is every node holding both, and the duplicates are the repeated
/// deliveries over all six nodes' UI events.
pub open spec fn partition_outcome(w: World, d_a: [u8; 8], d_b: [u8; 8], r: PartitionResult) -> bool {
    &&& ran(w, 6, 7, 7000)
    &&& r.converged == (forall|i: int| 0 <= i < 6 ==> holds(w, i, d_a) && holds(w, i, d_b))
    &&& r.duplicate_ui_events == capped(repeats_upto(w, 6))
}

/// Two rooms joined by a single door link. The door closes, each room chats, then the door
/// reopens; set-reconciliation must converge both rooms with no duplicate UI deliveries.
pub fn partition_heal(seed: u64) -> (r: PartitionResult)
    ensures
        exists|w: World, d_a: [u8; 8], d_b: [u8; 8]| #[trigger] partition_outcome(w, d_a, d_b, r),
{
    // 6 nodes: {0,1,2} room A (clique), {3,4,5} room B (clique), door = edge 2—3.
    let mut world = World::new(6, crowd_cfg(), seed);
    world.link(0, 1, LINK_LATENCY_MS, 0, MTU);
    world.link(1, 2, LINK_LATENCY_MS, 0, MTU);
    world.link(0, 2, LINK_LATENCY_MS, 0, MTU);
    world.link(3, 4, LINK_LATENCY_MS, 0, MTU);
    world.link(4, 5, LINK_LATENCY_MS, 0, MTU);
    world.link(3, 5, LINK_LATENCY_MS, 0, MTU);
    let door = world.link(2, 3, LINK_LATENCY_MS, 0, MTU);
    world.bootstrap();
    world.run_for(1000);
    // Close the door; each room speaks.
    world.set_edge_up(door, false);
    let d_a = world.node_mut(0).send_channel_message("#general", "from room A");
    let d_b = world.node_mut(5).send_channel_message("#general", "from room B");
    world.run_for(2000);
    // Reopen; reconciliation should carry each message across.
    world.set_edge_up(door, true);
    world.run_for(4000);
    let mut converged = true;
    let mut i: usize = 0;
    while i < 6
        invariant
            world.size() == 6,
            i <= 6,
            converged == (forall|j: int| 0 <= j < i ==> holds(world, j, d_a) && holds(world, j, d_b)),
        decreases 6 - i,
    {
        let s = world.node(i).store();
        let ha = s.has_message(&d_a);
        let hb = s.has_message(&d_b);
        assert(ha == holds(world, i as int, d_a) && hb == holds(world, i as int, d_b));
        if !(ha && hb) {
            converged = false;
        }
        i = i + 1;
    }
    // No node should have delivered the same message to the UI twice.
    let mut duplicate_ui_events: usize = 0;
    let mut k: usize = 0;
    while k < 6
        invariant
            world.size() == 6,
            k <= 6,
            duplicate_ui_events == capped(repeats_upto(world, k as int)),
        decreases 6 - k,
    {
        duplicate_ui_events = duplicate_ui_events.saturating_add(duplicate_deliveries(world.events(k)));
        k = k + 1;
    }
    let r = PartitionResult { converged, duplicate_ui_events };
    assert(partition_outcome(world, d_a, d_b, r));
    r
}

/// The sender and timestamp that identify a channel delivery; other events have none.
pub open spec fn delivery_key(e: MeshEvent) -> Option<(Seq<u8>, u64)> {
    match e {
        MeshEvent::MessageReceived { sender, timestamp_ms, .. } => Some((sender@, timestamp_ms)),
        _ => None,
    }
}

/// Some delivery among `events` has the key `k`.
pub open spec fn delivered_before(events: Seq<MeshEvent>, k: (Seq<u8>, u64)) -> bool {
    exists|j: int| 0 <= j < events.len() && delivery_key(#[trigger] events[j]) == Some(k)
}

/// How many deliveries of `events` repeat the key of an earlier one.
pub open spec fn repeat_count(events: Seq<MeshEvent>) -> nat
    decreases events.len(),
{
    if events.len() == 0 {
        0
    } else {
        repeat_count(events.drop_last()) + match delivery_key(events.last()) {
            Some(k) => if delivered_before(events.drop_last(), k) {
                1nat
            } else {
                0nat
            },
            None => 0nat,
        }
    }
}

spec fn seen_has(seen: Seq<([u8; 8], u64)>, k: (Seq<u8>, u64)) -> bool {
    exists|t: int| 0 <= t < seen.len() && (#[trigger] seen[t]).0@ == k.0 && seen[t].1 == k.1
}

/// How many channel deliveries repeat an earlier one (same sender and timestamp).
pub fn duplicate_deliveries(events: &[MeshEvent]) -> (n: usize)
    ensures
        n == repeat_count(events@),
{
    let mut seen: Vec<([u8; 8], u64)> = Vec::new();
    let mut dups: usize = 0;
    let mut i: usize = 0;
    while i < events.len()
        invariant
            i <= events@.len(),
            dups <= i,
            dups == repeat_count(events@.subrange(0, i as int)),
            forall|k: (Seq<u8>, u64)|
                seen_has(seen@, k) <==> delivered_before(events@.subrange(0, i as int), k),
        decreases events@.len() - i,
    {
        let ghost pre = events@.subrange(0, i as int);
        let ghost post = events@.subrange(0, i + 1);
        proof {
            assert(post.drop_last() =~= pre);
            assert(post.last() == events@[i as int]);
        }
        match &events[i] {
            MeshEvent::MessageReceived { sender, timestamp_ms, .. } => {
                let ghost key = (sender@, *timestamp_ms);
                let mut found = false;
                let mut j: usize = 0;
                while j < seen.len()
                    invariant
                        j <= seen@.len(),
                        found <==> exists|t: int|
                            0 <= t < j && (#[trigger] seen@[t]).0@ == key.0 && seen@[t].1 == key.1,
                        key == (sender@, *timestamp_ms),
                    decreases seen@.len() - j,
                {
                    let (s, t) = seen[j];
                    if crate::bytes::bytes_eq(&s, sender) && t == *timestamp_ms {
                        found = true;
                    }
                    j = j + 1;
                }
                assert(found == seen_has(seen@, key));
                assert forall|k: (Seq<u8>, u64)|
                    delivered_before(post, k) <==> (delivered_before(pre, k) || key == k) by {
                    if delivered_before(post, k) {
                        let j = choose|j: int| 0 <= j < post.len() && delivery_key(#[trigger] post[j]) == Some(k);
                        if j < pre.len() {
                            assert(pre[j] == post[j]);
                        }
                    }
                    if delivered_before(pre, k) {
                        let j = choose|j: int| 0 <= j < pre.len() && delivery_key(#[trigger] pre[j]) == Some(k);
                        assert(post[j] == pre[j]);
                    }
                    if key == k {
                        assert(post[i as int] == events@[i as int]);
                    }
                }
                if found {
                    assert forall|k: (Seq<u8>, u64)|
                        seen_has(seen@, k) <==> delivered_before(post, k) by {
                        assert(seen_has(seen@, k) <==> delivered_before(pre, k));
                        assert(seen_has(seen@, key) <==> delivered_before(pre, key));
                    }
                    dups = dups + 1;
                } else {
                    let ghost old_seen = seen@;
                    seen.push((*sender, *timestamp_ms));
                    assert forall|k: (Seq<u8>, u64)|
                        seen_has(seen@, k) <==> (seen_has(old_seen, k) || key == k) by {
                        if seen_has(seen@, k) {
                            let t = choose|t: int|
                                0 <= t < seen@.len() && (#[trigger] seen@[t]).0@ == k.0 && seen@[t].1 == k.1;
                            if t < old_seen.len() {
                                assert(old_seen[t] == seen@[t]);
                            }
                        }
                        if seen_has(old_seen, k) {
                            let t = choose|t: int|
                                0 <= t < old_seen.len() && (#[trigger] old_seen[t]).0@ == k.0 && old_seen[t].1 == k.1;
                            assert(seen@[t] == old_seen[t]);
                        }
                        if key == k {
                            assert(seen@[old_seen.len() as int] == (*sender, *timestamp_ms));
                        }
                    }
                    assert forall|k: (Seq<u8>, u64)|
                        seen_has(seen@, k) <==> delivered_before(post, k) by {
                        assert(seen_has(old_seen, k) <==> delivered_before(pre, k));
                    }
                }
            },
            _ => {
                assert forall|k: (Seq<u8>, u64)|
                    delivered_before(post, k) <==> delivered_before(pre, k) by {
                    if delivered_before(post, k) {
                        let j = choose|j: int| 0 <= j < post.len() && delivery_key(#[trigger] post[j]) == Some(k);
                        if j < pre.len() {
                            assert(pre[j] == post[j]);
                        }
                    }
                    if delivered_before(pre, k) {
                        let j = choose|j: int| 0 <= j < pre.len() && delivery_key(#[trigger] pre[j]) == Some(k);
                        assert(post[j] == pre[j]);
                    }
                }
            },
        }
        i = i + 1;
    }
    assert(events@.subrange(0, events@.len() as int) =~= events@);
    dups
}

pub struct StormResult {
    pub delivered: bool,
    pub relay_tx: u64,
}

/// A duplicate storm: the same message arrives many times; dedup + suppression must keep total
/// rebroadcasts near zero while still delivering once.
/// What [`duplicate_storm`] reports of its final world `w`, where `d` is the message sent: whether
/// all eight nodes hold it, and the frames transmitted since the counter was reset.
pub open spec fn storm_outcome(w: World, d: [u8; 8], r: StormResult) -> bool {
    &&& ran(w, 8, 7, 4000)
    &&& r.delivered == (w.holders(be_u64_of(d@), 8) == 8)
    &&& r.relay_tx == w.frames_sent()
}

pub fn duplicate_storm(seed: u64) -> (r: StormResult)
    ensures
        exists|w: World, d: [u8; 8]| #[trigger] storm_outcome(w, d, r),
{
    // Star: node 0 in the middle, leaves that will all echo the same packet.
    let n: usize = 8;
    let mut world = World::new(n, crowd_cfg(), seed);
    let mut i: usize = 1;
    while i < n
        invariant
            1 <= i <= n,
            world.wf(),
            world.size() == n,
            world.edge_count() == i - 1,
            world.time() == 0,
        decreases n - i,
    {
        world.link(0, i, LINK_LATENCY_MS, 0, MTU);
        i = i + 1;
    }
    world.bootstrap();
    world.run_for(1000);
    world.reset_tx();
    let digest = world.node_mut(1).send_channel_message("#general", "storm");
    world.run_for(3000);
    let r = StormResult { delivered: world.count_with_message(&digest) == n, relay_tx: world.tx_frames() };
    assert(storm_outcome(world, digest, r));
    r
}

pub struct DmResult {
    /// The recipient decrypted the DM.
    pub delivered: bool,
    /// The plaintext matched.
    pub text_ok: bool,
    /// The relaying middle node never decrypted it.
    pub eavesdropper_blind: bool,
}

/// The texts of the direct messages among `events`, in order.
pub open spec fn dm_texts(events: Seq<MeshEvent>) -> Seq<String>
    decreases events.len(),
{
    if events.len() == 0 {
        Seq::empty()
    } else {
        match events.last() {
            MeshEvent::DmReceived { text, .. } => dm_texts(events.drop_last()).push(text),
            _ => dm_texts(events.drop_last()),
        }
    }
}

/// The texts of the direct messages a node decrypted.
pub fn received_dms(events: &[MeshEvent]) -> (out: Vec<String>)
    ensures
        out@ == dm_texts(events@),
{
    let mut out: Vec<String> = Vec::new();
    let mut i: usize = 0;
    while i < events.len()
        invariant
            i <= events@.len(),
            out@ == dm_texts(events@.subrange(0, i as int)),
        decreases events@.len() - i,
    {
        proof {
            assert(events@.subrange(0, i + 1).drop_last() =~= events@.subrange(0, i as int));
        }
        match &events[i] {
            MeshEvent::DmReceived { text, .. } => out.push(text.clone()),
            _ => {},
        }
        i = i + 1;
    }
    assert(events@.subrange(0, events@.len() as int) =~= events@);
    out
}

/// Whether any of `texts` equals `want`.
fn any_equals(texts: &Vec<String>, want: &str) -> (b: bool)
    ensures
        b == exists|i: int| 0 <= i < texts@.len() && (#[trigger] texts@[i])@ == want@,
{
    let w = want.to_owned();
    let mut i: usize = 0;
    while i < texts.len()
        invariant
            i <= texts@.len(),
            w@ == want@,
            forall|j: int| 0 <= j < i ==> (#[trigger] texts@[j])@ != want@,
        decreases texts@.len() - i,
    {
        if texts[i] == w {
            return true;
        }
        i = i + 1;
    }
    false
}

/// Line A — Eve — B (A and B out of direct range). A sends an encrypted DM to B; the Noise
/// handshake and ciphertext must relay through Eve, who forwards but cannot read them.
/// Whether some of `texts` reads `want`.
pub open spec fn has_text(texts: Seq<String>, want: Seq<char>) -> bool {
    exists|i: int| 0 <= i < texts.len() && (#[trigger] texts[i])@ == want
}

/// What [`direct_message`] reports of its final world `w`: whether the far node decrypted any DM,
/// whether one read the text sent, and whether the middle node decrypted none.
pub open spec fn dm_outcome(w: World, r: DmResult) -> bool {
    &&& ran(w, 3, 2, 7500)
    &&& r.delivered == (dm_texts(w.events_of(2)).len() > 0)
    &&& r.text_ok == has_text(dm_texts(w.events_of(2)), "meet at the safehouse"@)
    &&& r.eavesdropper_blind == (dm_texts(w.events_of(1)).len() == 0)
}

pub fn direct_message(seed: u64) -> (r: DmResult)
    ensures
        r.text_ok ==> r.delivered,
        exists|w: World| #[trigger] dm_outcome(w, r),
{
    let mut world = World::new(3, crowd_cfg(), seed);
    world.link(0, 1, LINK_LATENCY_MS, 0, MTU);
    world.link(1, 2, LINK_LATENCY_MS, 0, MTU);
    world.bootstrap();
    world.run_for(2500);  // let announces (with X25519 keys) propagate end-to-end
    let b_fp = world.node_fingerprint(2);
    world.node_mut(0).send_dm(b_fp, "meet at the safehouse");
    world.run_for(5000);  // XX handshake (3 messages) relays A<->B, then the DM
    let b_msgs = received_dms(world.events(2));
    let eve_msgs = received_dms(world.events(1));
    let r = DmResult {
        delivered: b_msgs.len() > 0,
        text_ok: any_equals(&b_msgs, "meet at the safehouse"),
        eavesdropper_blind: eve_msgs.len() == 0,
    };
    assert(dm_outcome(world, r));
    r
}

/// A DM between two phones joined by several redundant BLE links — the real two-phone setup, where
/// both sides advertise + scan + connect. Duplicate copies of a message across those links must not
/// falsely greylist the peer and kill the Noise handshake.
/// What [`dm_over_redundant_links`] reports of its final world `w`: whether node 1 decrypted the
/// text sent.
pub open spec fn redundant_dm_outcome(w: World, r: bool) -> bool {
    &&& ran(w, 2, 5, 8000)
    &&& r == has_text(dm_texts(w.events_of(1)), "north gate clear"@)
}

pub fn dm_over_redundant_links(seed: u64) -> (r: bool)
    ensures
        exists|w: World| #[trigger] redundant_dm_outcome(w, r),
{
    let mut world = World::new(2, crowd_cfg(), seed);
    let mut k: usize = 0;
    while k < 5
        invariant
            world.wf(),
            world.size() == 2,
            world.edge_count() == k,
            world.time() == 0,
            k <= 5,
        decreases 5 - k,
    {
        world.link(0, 1, LINK_LATENCY_MS, 0, MTU);
        k = k + 1;
    }
    world.bootstrap();
    world.run_for(3000);
    let b_fp = world.node_fingerprint(1);
    world.node_mut(0).send_dm(b_fp, "north gate clear");
    world.run_for(5000);
    let r = any_equals(&received_dms(world.events(1)), "north gate clear");
    assert(redundant_dm_outcome(world, r));
    r
}

pub struct DedupResult {
    pub links_after: usize,
    pub delivered: bool,
}

/// Two phones joined by 5 redundant BLE links. Once each learns the other's identity from its
/// announce, the mesh should collapse to a single link per peer — and messaging must still work.
/// What [`link_dedup`] reports: node 0's link count in the world `w1` reached once announces have
/// flowed, and whether both nodes of the final world `w2` hold the message `d` sent after that.
pub open spec fn dedup_outcome(w1: World, w2: World, d: [u8; 8], r: DedupResult) -> bool {
    &&& ran(w1, 2, 5, 3000)
    &&& ran(w2, 2, 5, 4500)
    &&& r.links_after == w1.node_at(0).link_map().dom().len()
    &&& r.delivered == (w2.holders(be_u64_of(d@), 2) == 2)
}

pub fn link_dedup(seed: u64) -> (r: DedupResult)
    ensures
        exists|w1: World, w2: World, d: [u8; 8]| #[trigger] dedup_outcome(w1, w2, d, r),
{
    let mut world = World::new(2, crowd_cfg(), seed);
    let mut k: usize = 0;
    while k < 5
        invariant
            world.wf(),
            world.size() == 2,
            world.edge_count() == k,
            world.time() == 0,
            k <= 5,
        decreases 5 - k,
    {
        world.link(0, 1, LINK_LATENCY_MS, 0, MTU);
        k = k + 1;
    }
    world.bootstrap();
    world.run_for(3000);  // announces flow; redundant links get closed
    let links_after = world.link_count(0);
    let ghost w1 = world;
    let digest = world.node_mut(0).send_channel_message("#general", "still works");
    world.run_for(1500);
    let r = DedupResult { links_after, delivered: world.count_with_message(&digest) == 2 };
    assert(dedup_outcome(w1, world, digest, r));
    r
}

pub struct FloodResult {
    pub honest_delivered: bool,
    pub attacker_greylisted_effect: bool,
}

/// A malicious node floods; the honest message must still get through, and the flooder's packets
/// must be rate-limited (only a bounded number of them propagate).
/// What [`malicious_flooder`] reports of its final world `w`, where `honest` is the honest
/// message: whether the victim holds it, and whether the victim holds fewer than 50 messages of
/// the flooded channel.
pub open spec fn flood_outcome(w: World, honest: [u8; 8], r: FloodResult) -> bool {
    &&& ran(w, 4, 3, 6000)
    &&& r.honest_delivered == holds(w, 2, honest)
    &&& r.attacker_greylisted_effect == (w.node_at(2).store_value().log("#spam"@).len() < 50)
}

pub fn malicious_flooder(seed: u64) -> (r: FloodResult)
    ensures
        exists|w: World, honest: [u8; 8]| #[trigger] flood_outcome(w, honest, r),
{
    // line: honest(0) — relay(1) — victim(2), attacker(3) also on relay(1).
    let mut world = World::new(4, crowd_cfg(), seed);
    world.link(0, 1, LINK_LATENCY_MS, 0, MTU);
    world.link(1, 2, LINK_LATENCY_MS, 0, MTU);
    world.link(1, 3, LINK_LATENCY_MS, 0, MTU);
    world.bootstrap();
    world.run_for(1000);
    // The attacker floods 100 distinct messages rapidly.
    let mut k: u64 = 0;
    while k < 100
        invariant
            world.wf(),
            world.size() == 4,
            world.edge_count() == 3,
            k <= 100,
            world.time() >= 1000 + 20 * k,
        decreases 100 - k,
    {
        let text = numbered("flood ", k);
        world.node_mut(3).send_channel_message("#spam", text.as_str());
        world.run_for(20);
        k = k + 1;
    }
    // Honest message during the flood.
    let honest = world.node_mut(0).send_channel_message("#general", "help");
    world.run_for(3000);
    let honest_delivered = world.node(2).store().has_message(&honest);
    // The relay's rate limiter should have dropped a large share of the flood: the victim holds
    // far fewer than 100 spam messages.
    let hist = world.node(2).store().channel_history("#spam", 1000);
    let spam_at_victim = hist.len();
    proof {
        assert(crate::store::msg_views(hist@).len() == hist@.len());
    }
    let r = FloodResult { honest_delivered, attacker_greylisted_effect: spam_at_victim < 50 };
    assert(flood_outcome(world, honest, r));
    r
}

} // verus!
