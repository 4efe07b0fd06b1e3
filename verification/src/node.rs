//! [`MeshNode`] — the sans-IO orchestrator. It owns the identity, the flood-control machinery,
//! the store, and the set of live links, and it turns transport events + user commands into
//! outbound frames + [`MeshEvent`]s. It never touches the clock or the network directly: time
//! comes from [`Clock`], and the frames it wants sent (and the links it wants closed) are
//! collected for the platform to drain with [`MeshNode::take_outbound`] and
//! [`MeshNode::take_closed_links`]. That is what lets the simulator run it deterministically.

use vstd::prelude::*;

use crate::bytes::{be_u64_of, copy_bytes};
use crate::channels::{normalize, spec_normalize, SyncFilter, DEFAULT_CHANNEL};
use crate::clock::{Clock, Millis};
use crate::config::Tunables;
use crate::crypto::sha256_digest;
use crate::fpmap::{views32, FpMap};
use crate::frag::{frames_view, spec_ingest, spec_split, split, u64_key, Reassembler};
use crate::identity::{Fingerprint, LocalIdentity};
use crate::noise::{NoiseSession, Phase};
use crate::payload::{decode_announce, decode_channel, decode_sync, encode_announce, encode_channel, encode_sync};
use crate::random::seeded_rng;
use crate::relay::{
    is_due, is_released, relay_delay, should_relay, RateLimiter, RelayScheduler, SeenCache, SeenEntry,
};
use crate::store::{
    decisions_kept, holds_digest, log_of, message_with_digest, MessageModel, PeerModel, PeerRecord, Store, StoredMessage,
};
use crate::text::{from_utf8_lossy, utf8_lossy};
use vstd::string::StringSliceAdditionalSpecFns;
use crate::transport::{LinkId, TransportEvent};
use crate::wire::{spec_decode, EphId, MsgType, Packet, PacketModel, PROTOCOL_VERSION};
use rand::rngs::StdRng;
use std::collections::BTreeMap;

verus! {

/// A session's handshake transcript, sealed plaintexts and opened ciphertexts, each in order.
pub type SessionLog = (Seq<Seq<u8>>, Seq<Seq<u8>>, Seq<Seq<u8>>);

/// `log` with `m` appended to the sealed plaintexts.
pub open spec fn log_sealed(log: SessionLog, m: Seq<u8>) -> SessionLog {
    (log.0, log.1.push(m), log.2)
}

/// The UTF-8 encodings of `texts`, in order.
pub open spec fn utf8_all(texts: Seq<Seq<char>>) -> Seq<Seq<u8>> {
    Seq::new(texts.len(), |i: int| vstd::utf8::encode_utf8(texts[i]))
}

/// The value `m` holds for `k`, or the empty sequence.
pub open spec fn held_or_empty<T>(m: Map<Seq<u8>, Seq<T>>, k: Seq<u8>) -> Seq<T> {
    if m.contains_key(k) {
        m[k]
    } else {
        Seq::empty()
    }
}

/// Each of `held`, read as UTF-8 with invalid sequences replaced.
pub open spec fn lossy_all(held: Seq<Seq<u8>>) -> Seq<Seq<char>> {
    Seq::new(held.len(), |i: int| crate::text::utf8_lossy(held[i]))
}

/// `log` with `c` appended to the opened ciphertexts.
pub open spec fn log_opened(log: SessionLog, c: Seq<u8>) -> SessionLog {
    (log.0, log.1, log.2.push(c))
}


broadcast use vstd::std_specs::btree::group_btree_axioms;

/// Something the UI should react to. The core accumulates these; the caller drains them with
/// [`MeshNode::take_events`] (the FFI layer forwards them to a platform listener).
#[derive(Debug, Clone, PartialEq, Eq)]
pub enum MeshEvent {
    /// A channel message was delivered to us.
    MessageReceived {
        channel: String,
        sender: EphId,
        body: String,
        timestamp_ms: u64,
        /// True iff we knew the sender's key and the signature checked out.
        verified: bool,
    },
    /// We learned (or refreshed) a peer's identity from a signed announce.
    PeerAppeared { fingerprint: Fingerprint, eph: EphId, petname: Option<String> },
    /// An end-to-end encrypted direct message was decrypted for us. A DM only reaches this point
    /// after a mutually-authenticated Noise session whose remote static key matched the sender's
    /// announced identity.
    DmReceived { sender_fp: Fingerprint, from_eph: EphId, text: String },
    /// A Noise session with a peer became ready (or was rejected). `verified` distinguishes an
    /// identity-bound session from a rejected/mismatched one.
    DmSession { peer_fp: Fingerprint, verified: bool },
    /// A link dropped.
    PeerLost { link: LinkId },
    /// Periodic counters for the "Mesh Active" UI / debug screen.
    Stats { links: usize, seen: usize, pending_relays: usize },
}

/// What the node knows about one live link.
#[derive(Debug, Clone, Copy)]
pub struct LinkState {
    pub mtu: usize,
    pub peer_eph: Option<EphId>,
    /// The peer's stable identity on this link, once learned from its announce. Used to detect
    /// and drop redundant links to the same peer (both phones advertise+scan+connect).
    pub peer_fp: Option<Fingerprint>,
}

/// How long to wait before re-sending a stalled initiator handshake, and how many times to try.
pub const DM_HANDSHAKE_RETRY_MS: Millis = 2000;
pub const DM_HANDSHAKE_MAX_ATTEMPTS: u32 = 12;

/// The delay `tick` asks to be called again after.
pub const TICK_MS: Millis = 250;

/// How many early ciphertexts are held per peer while its session completes.
pub const MAX_EARLY_DMS: usize = 32;

/// The queued frames as plain bytes, with their links.
pub open spec fn outbound_view(s: Seq<(LinkId, Vec<u8>)>) -> Seq<(LinkId, Seq<u8>)> {
    s.map_values(|e: (LinkId, Vec<u8>)| (e.0, e.1@))
}

/// The frames a packet's bytes become on `link` at `mtu`; none when the packet cannot be framed.
pub open spec fn link_frames(bytes: Seq<u8>, digest: Seq<u8>, mtu: usize, link: LinkId) -> Seq<(LinkId, Seq<u8>)> {
    match spec_split(bytes, digest, mtu) {
        Ok(fs) => fs.map_values(|f: Seq<u8>| (link, f)),
        Err(_) => Seq::empty(),
    }
}

/// The frames a sync reply re-sends for the digests `ds`, in order: for each, the raw signed bytes
/// of the held message with that digest, framed for `link` at `mtu`; nothing for a digest not held,
/// or held without raw bytes.
pub open spec fn resend_frames(
    ds: Seq<[u8; 8]>,
    h: Map<Seq<char>, Seq<MessageModel>>,
    mtu: usize,
    link: LinkId,
) -> Seq<(LinkId, Seq<u8>)>
    decreases ds.len(),
{
    if ds.len() == 0 {
        Seq::empty()
    } else {
        let d = ds.last();
        let m = message_with_digest(h, d@);
        resend_frames(ds.drop_last(), h, mtu, link) + (if holds_digest(h, d@) && m.raw.len() > 0 {
            link_frames(m.raw, d@, mtu, link)
        } else {
            Seq::empty()
        })
    }
}

/// The order a sync reply answers in: by increasing digest key, each digest held locally and not
/// by the asker exactly once.
pub open spec fn sync_reply_order(ms: Seq<[u8; 8]>, local: Seq<[u8; 8]>, remote: Set<u64>) -> bool {
    &&& crate::channels::strictly_sorted(ms)
    &&& crate::channels::keys(ms).to_set() == crate::channels::keys(local).to_set().difference(remote)
}

/// A sync reply's order is determined: two digest lists that both answer the same local digests
/// and the same asker in reply order are the same list.
pub proof fn law_sync_reply_order_unique(a: Seq<[u8; 8]>, b: Seq<[u8; 8]>, local: Seq<[u8; 8]>, remote: Set<u64>)
    requires
        sync_reply_order(a, local, remote),
        sync_reply_order(b, local, remote),
    ensures
        a == b,
{
    crate::channels::lemma_sorted_keys_determine(a, b);
}

/// The form a channel packet `p`, decoded to channel `c` and text `t`, is stored in: its digest,
/// sender and timestamp, the UTF-8 bytes of `t` as body, and its own encoding as raw bytes.
pub open spec fn is_stored_form(m: MessageModel, p: PacketModel, c: Seq<char>, t: Seq<char>) -> bool {
    &&& m.digest@ == p.digest()
    &&& m.channel == c
    &&& m.sender@ == p.sender
    &&& m.timestamp_ms == p.timestamp_ms
    &&& m.body == vstd::utf8::encode_utf8(t)
    &&& m.raw == p.encoding()
}

/// A history after storing the channel packet `p` (channel `c`, text `t`) with a digest not held
/// before: `c`'s log holds it in its stored form, or retention dropped it on arrival (nothing with
/// its digest is held, and everything left in `c` is no older).
pub open spec fn stored_channel_packet(h: Map<Seq<char>, Seq<MessageModel>>, p: PacketModel, c: Seq<char>, t: Seq<char>) -> bool {
    let l = log_of(h, c);
    ||| exists|i: int| 0 <= i < l.len() && is_stored_form(#[trigger] l[i], p, c, t)
    ||| !holds_digest(h, p.digest()) && forall|i: int|
        0 <= i < l.len() ==> p.timestamp_ms <= #[trigger] l[i].timestamp_ms
}

/// Link ids are integers, so the link table walks them in their own order.
proof fn lemma_link_ids_ordered()
    ensures
        vstd::std_specs::btree::key_obeys_cmp_spec::<LinkId>(),
{
    broadcast use vstd::laws_cmp::group_laws_cmp;
}

/// `ts` lists each link of `lm` but the excluded one exactly once, with its MTU.
pub open spec fn fan_targets(ts: Seq<(LinkId, usize)>, lm: Map<LinkId, LinkState>, exclude: Option<LinkId>) -> bool {
    &&& forall|i: int, j: int| 0 <= i < j < ts.len() ==> #[trigger] ts[i].0 != #[trigger] ts[j].0
    &&& forall|i: int|
        0 <= i < ts.len() ==> lm.contains_key(#[trigger] ts[i].0) && exclude != Some(ts[i].0) && ts[i].1
            == lm[ts[i].0].mtu
    &&& forall|k: LinkId|
        lm.contains_key(k) && exclude != Some(k) ==> exists|i: int| 0 <= i < ts.len() && #[trigger] ts[i].0 == k
}

/// The frames of one packet on each target link, link after link.
pub open spec fn fan_frames(ts: Seq<(LinkId, usize)>, bytes: Seq<u8>, digest: Seq<u8>) -> Seq<(LinkId, Seq<u8>)>
    decreases ts.len(),
{
    if ts.len() == 0 {
        Seq::empty()
    } else {
        fan_frames(ts.drop_last(), bytes, digest) + link_frames(bytes, digest, ts.last().1, ts.last().0)
    }
}

/// `e` delivers the channel message `t` on channel `c` carried by `p`, marked `verified`.
pub open spec fn channel_delivery(e: MeshEvent, c: Seq<char>, t: Seq<char>, p: PacketModel, verified: bool) -> bool {
    match e {
        MeshEvent::MessageReceived { channel, sender, body, timestamp_ms, verified: v } => {
            &&& channel@ == c
            &&& body@ == t
            &&& sender@ == p.sender
            &&& timestamp_ms == p.timestamp_ms
            &&& v == verified
        },
        _ => false,
    }
}

/// `e` reports that the identity `fp` appeared under the ephemeral id `eph`, showing `nick`
/// (nothing when it is empty).
pub open spec fn peer_appearance(e: MeshEvent, fp: Seq<u8>, eph: Seq<u8>, nick: Seq<char>) -> bool {
    match e {
        MeshEvent::PeerAppeared { fingerprint, eph: e2, petname } => {
            &&& fingerprint@ == fp
            &&& e2@ == eph
            &&& (if nick.len() == 0 {
                petname is None
            } else {
                petname matches Some(n) && n@ == nick
            })
        },
        _ => false,
    }
}

/// The frames of each packet of `ps` on `link` at `mtu`, packet after packet.
pub open spec fn packets_frames(ps: Seq<PacketModel>, mtu: usize, link: LinkId) -> Seq<(LinkId, Seq<u8>)>
    decreases ps.len(),
{
    if ps.len() == 0 {
        Seq::empty()
    } else {
        packets_frames(ps.drop_last(), mtu, link) + link_frames(ps.last().encoding(), ps.last().digest(), mtu, link)
    }
}

/// The session with `k` is the same in `b` as in `a` (or absent from both).
pub open spec fn session_kept(a: Map<Seq<u8>, Phase>, b: Map<Seq<u8>, Phase>, k: Seq<u8>) -> bool {
    &&& b.contains_key(k) == a.contains_key(k)
    &&& a.contains_key(k) ==> b[k] == a[k]
}

/// Some fingerprint among the first `n` of `s` is `k`.
pub open spec fn fp_listed(s: Seq<Fingerprint>, n: int, k: Seq<u8>) -> bool {
    exists|q: int| 0 <= q < n && #[trigger] s[q]@ == k
}

/// `d` is a relay delay in the configured jitter window.
pub open spec fn in_jitter(cfg: Tunables, d: Millis) -> bool {
    if cfg.jitter_max_ms <= cfg.jitter_min_ms {
        d == cfg.jitter_min_ms
    } else {
        cfg.jitter_min_ms <= d <= cfg.jitter_max_ms
    }
}

/// `e` is a decrypted direct message from the peer `fp`.
pub open spec fn is_dm_from(e: MeshEvent, fp: Fingerprint) -> bool {
    e matches MeshEvent::DmReceived { sender_fp, .. } && sender_fp == fp
}

/// The packet types the node parses and acts on; every other type is only relayed.
pub open spec fn handled_type(t: MsgType) -> bool {
    ||| t is Announce
    ||| t is ChannelMessage
    ||| t is SyncRequest
    ||| t is NoiseHandshake
    ||| t is DirectMessage
}

/// Every ready session has a binding whose two keys agree.
pub open spec fn all_bound(sessions: Map<Seq<u8>, Phase>, bindings: Map<Seq<u8>, (Seq<u8>, Seq<u8>)>) -> bool {
    forall|fp: Seq<u8>|
        #[trigger] sessions.contains_key(fp) && sessions[fp] == Phase::Transport
            ==> bindings.contains_key(fp) && bindings[fp].0 == bindings[fp].1
}

proof fn lemma_all_bound_remove(
    sessions: Map<Seq<u8>, Phase>,
    bindings: Map<Seq<u8>, (Seq<u8>, Seq<u8>)>,
    k: Seq<u8>,
)
    requires
        all_bound(sessions, bindings),
    ensures
        all_bound(sessions.remove(k), bindings),
{
    assert forall|fp: Seq<u8>|
        #[trigger] sessions.remove(k).contains_key(fp) && sessions.remove(k)[fp] == Phase::Transport
            implies bindings.contains_key(fp) && bindings[fp].0 == bindings[fp].1 by {
        assert(sessions.contains_key(fp));
    }
}

proof fn lemma_all_bound_insert(
    sessions: Map<Seq<u8>, Phase>,
    bindings: Map<Seq<u8>, (Seq<u8>, Seq<u8>)>,
    k: Seq<u8>,
    ph: Phase,
)
    requires
        all_bound(sessions, bindings),
        ph != Phase::Transport || (bindings.contains_key(k) && bindings[k].0 == bindings[k].1),
    ensures
        all_bound(sessions.insert(k, ph), bindings),
{
    assert forall|fp: Seq<u8>|
        #[trigger] sessions.insert(k, ph).contains_key(fp) && sessions.insert(k, ph)[fp]
            == Phase::Transport implies bindings.contains_key(fp) && bindings[fp].0
            == bindings[fp].1 by {
        if fp != k {
            assert(sessions.contains_key(fp));
        }
    }
}

/// The identity binding of a Noise session: the remote static key the session reports must be
/// present and equal to the X25519 key the peer announced.
/// Whether a session's reported remote static key is the key the peer announced.
pub open spec fn keys_match(remote: Option<[u8; 32]>, announced: Option<[u8; 32]>) -> bool {
    remote is Some && announced is Some && remote->Some_0@ == announced->Some_0@
}

pub fn keys_bind(remote: Option<[u8; 32]>, announced: Option<[u8; 32]>) -> (b: bool)
    ensures
        b == keys_match(remote, announced),
{
    match (remote, announced) {
        (Some(r), Some(k)) => crate::bytes::bytes_eq(&r, &k),
        _ => false,
    }
}

pub struct MeshNode<C: Clock, S: Store> {
    identity: LocalIdentity,
    cfg: Tunables,
    clock: C,
    store: S,
    seen: SeenCache,
    rate: RateLimiter,
    scheduler: RelayScheduler,
    reassembler: Reassembler,
    rng: StdRng,
    links: BTreeMap<LinkId, LinkState>,
    /// Ed25519 public key announced for each ephemeral id (keyed big-endian).
    eph_keys: BTreeMap<u64, [u8; 32]>,
    subscribed: Vec<String>,
    events: Vec<MeshEvent>,
    outbound: Vec<(LinkId, Vec<u8>)>,
    closed_links: Vec<LinkId>,
    nickname: String,
    relays_fired: u64,
    /// Per-peer Noise sessions, keyed by the peer's stable fingerprint.
    noise_sessions: FpMap<NoiseSession>,
    /// DMs queued while a session is still being established.
    pending_dms: FpMap<Vec<String>>,
    /// The peer's current ephemeral wire id (for addressing directed packets).
    fp_to_eph: FpMap<EphId>,
    /// The peer's announced X25519 static key, used to bind the Noise session to its identity.
    peer_static_dh: FpMap<[u8; 32]>,
    /// Ciphertexts that arrived before the session was ready (a DM can overtake the final
    /// handshake message over a relay); drained when the session completes.
    pending_inbound_dms: FpMap<Vec<Vec<u8>>>,
    /// Initiator handshake retry bookkeeping: last (re)send time and attempt count per peer.
    handshake_last_ms: FpMap<Millis>,
    handshake_attempts: FpMap<u32>,
    /// For each peer whose session is ready: the remote static key the session reported when it
    /// became ready, and the X25519 key the peer had announced at that moment.
    bindings: Ghost<Map<Seq<u8>, (Seq<u8>, Seq<u8>)>>,
}

impl<C: Clock, S: Store> MeshNode<C, S> {
    pub closed spec fn wf(&self) -> bool {
        &&& self.identity.wf()
        &&& self.seen.wf()
        &&& self.seen.config() == self.cfg
        &&& self.rate.wf()
        &&& self.rate.config() == self.cfg
        &&& self.scheduler.config() == self.cfg
        &&& self.reassembler.wf()
        &&& self.reassembler.config() == self.cfg
        &&& self.noise_sessions.wf()
        &&& self.pending_dms.wf()
        &&& self.fp_to_eph.wf()
        &&& self.peer_static_dh.wf()
        &&& self.pending_inbound_dms.wf()
        &&& self.handshake_last_ms.wf()
        &&& self.handshake_attempts.wf()
        &&& all_bound(self.sessions(), self.bindings@)
    }

    /// The live links and what is known of them.
    pub closed spec fn link_map(&self) -> Map<LinkId, LinkState> {
        self.links@
    }

    /// The UI events not yet taken.
    pub closed spec fn pending_events(&self) -> Seq<MeshEvent> {
        self.events@
    }

    /// The `(link, frame)` sends not yet taken.
    pub closed spec fn pending_outbound(&self) -> Seq<(LinkId, Vec<u8>)> {
        self.outbound@
    }

    /// The links asked to be closed, not yet taken.
    pub closed spec fn pending_closes(&self) -> Seq<LinkId> {
        self.closed_links@
    }

    /// The dedup cache.
    pub closed spec fn seen_map(&self) -> Map<u64, SeenEntry> {
        self.seen.view_map()
    }

    /// The scheduled rebroadcasts.
    pub closed spec fn scheduled(&self) -> Map<u64, crate::relay::PendingModel> {
        self.scheduler.view_map()
    }

    /// The channels delivered to the UI, normalized.
    pub closed spec fn subscriptions(&self) -> Seq<Seq<char>> {
        Seq::new(self.subscribed@.len(), |i: int| self.subscribed@[i]@)
    }

    /// The phase of the Noise session with each peer.
    pub closed spec fn sessions(&self) -> Map<Seq<u8>, Phase> {
        self.noise_sessions.view().map_values(|n: NoiseSession| n.phase())
    }

    /// The handshake retry state: how many attempts each peer's handshake has had.
    pub closed spec fn retry_attempts(&self) -> Map<Seq<u8>, u32> {
        self.handshake_attempts.view()
    }

    /// The handshake retry state: when each peer's last handshake attempt went out.
    pub closed spec fn retry_last(&self) -> Map<Seq<u8>, Millis> {
        self.handshake_last_ms.view()
    }

    /// The X25519 key peer `fp` announced, if any.
    pub open spec fn announced_key(n: Self, fp: Seq<u8>) -> Option<[u8; 32]> {
        if n.announced_dh().contains_key(fp) {
            Some(n.announced_dh()[fp])
        } else {
            None
        }
    }

    /// For each peer's session: its handshake transcript, the plaintexts it was asked to encrypt
    /// and the ciphertexts it was asked to decrypt.
    pub closed spec fn session_logs(&self) -> Map<Seq<u8>, SessionLog> {
        self.noise_sessions.view().map_values(|n: NoiseSession| (n.transcript(), n.sealed(), n.opened()))
    }

    /// For each peer with a session: the plaintexts its transport decryption has given back, in
    /// order.
    pub closed spec fn session_plaintexts(&self) -> Map<Seq<u8>, Seq<Seq<u8>>> {
        self.noise_sessions.view().map_values(|n: NoiseSession| n.recovered())
    }

    /// For each peer whose session became ready: the remote static key the session reported
    /// then, and the X25519 key the peer had announced then.
    pub closed spec fn session_bindings(&self) -> Map<Seq<u8>, (Seq<u8>, Seq<u8>)> {
        self.bindings@
    }

    /// A session is ready for direct messages only if it is bound to the peer's identity: the
    /// remote static key it reported when it became ready equals the X25519 key the peer had
    /// announced in its signed announce.
    pub proof fn law_ready_sessions_are_bound(&self, fp: Seq<u8>)
        requires
            self.wf(),
            self.sessions().contains_key(fp),
            self.sessions()[fp] == Phase::Transport,
        ensures
            self.session_bindings().contains_key(fp),
            self.session_bindings()[fp].0 == self.session_bindings()[fp].1,
    {
    }

    /// Where each known peer can be reached (its current ephemeral id).
    pub closed spec fn reachable(&self) -> Map<Seq<u8>, EphId> {
        self.fp_to_eph.view()
    }

    /// The direct messages waiting for each peer's session to complete, oldest first.
    pub closed spec fn queued_dms(&self) -> Map<Seq<u8>, Seq<Seq<char>>> {
        self.pending_dms.view().map_values(|q: Vec<String>| Seq::new(q@.len(), |i: int| q@[i]@))
    }

    /// The peer records in the store, by fingerprint.
    pub closed spec fn peer_records(&self) -> Map<Seq<u8>, PeerModel> {
        self.store.peer_view()
    }

    /// The MTU frames for `link` are cut to: the link's own, or the default for an unknown link.
    pub closed spec fn mtu_for(&self, link: LinkId) -> usize {
        if self.links@.contains_key(link) {
            self.links@[link].mtu
        } else {
            self.cfg.default_mtu
        }
    }

    /// The fingerprint of the identity that announced the ephemeral id `eph`.
    pub closed spec fn peer_of(&self, eph: Seq<u8>) -> Seq<u8> {
        crate::crypto::sha256(self.eph_key(eph))
    }

    /// The Ed25519 key announced for the ephemeral id `eph`.
    pub closed spec fn eph_key(&self, eph: Seq<u8>) -> Seq<u8> {
        self.eph_keys@[be_u64_of(eph)]@
    }

    /// Whether some identity has announced the ephemeral id `eph`.
    pub closed spec fn knows_eph(&self, eph: Seq<u8>) -> bool {
        self.eph_keys@.contains_key(be_u64_of(eph))
    }

    /// Direct-message ciphertexts held per peer until its session is ready.
    pub closed spec fn early_dms(&self) -> Map<Seq<u8>, Seq<Seq<u8>>> {
        self.pending_inbound_dms.view().map_values(|q: Vec<Vec<u8>>| Seq::new(q@.len(), |i: int| q@[i]@))
    }

    /// The peer `fp` has a handshake of ours that has not completed, is reachable, has attempts
    /// left, and was last driven at least the retry interval before `now`.
    pub closed spec fn stalled(&self, fp: Seq<u8>, now: Millis) -> bool {
        let last = if self.handshake_last_ms.view().contains_key(fp) {
            self.handshake_last_ms.view()[fp]
        } else {
            0
        };
        &&& self.handshake_attempts.view().contains_key(fp)
        &&& !(self.sessions().contains_key(fp) && self.sessions()[fp] == Phase::Transport)
        &&& self.fp_to_eph.view().contains_key(fp)
        &&& self.handshake_attempts.view()[fp] < DM_HANDSHAKE_MAX_ATTEMPTS
        &&& (if now >= last { now - last } else { 0 }) >= DM_HANDSHAKE_RETRY_MS
    }

    /// The nickname this node announces.
    pub closed spec fn nick(&self) -> Seq<char> {
        self.nickname@
    }

    /// `p` is a packet of ours: current version, no flags, our ephemeral id, signed by our key.
    pub open spec fn signed_by_us(&self, p: PacketModel) -> bool {
        &&& p.version == PROTOCOL_VERSION
        &&& p.flags == 0
        &&& p.sender == self.ident().eph()
        &&& p.signature == crate::crypto::ed25519_signature(self.ident().signing_secret(), p.signed_region())
    }

    /// `p` is our one-hop sync request for `channel`, listing some digests.
    pub open spec fn sync_request_for(&self, p: PacketModel, channel: Seq<char>) -> bool {
        &&& self.signed_by_us(p)
        &&& p.msg_type == MsgType::SyncRequest
        &&& p.ttl == 1
        &&& p.recipient is None
        &&& exists|ds: Seq<[u8; 8]>| p.payload == #[trigger] crate::payload::sync_payload(vstd::utf8::encode_utf8(channel), ds)
    }

    /// `ps` holds one sync request per subscribed channel, in order.
    pub open spec fn sync_batch(&self, ps: Seq<PacketModel>) -> bool {
        &&& ps.len() == self.subscriptions().len()
        &&& forall|i: int| 0 <= i < ps.len() ==> self.sync_request_for(#[trigger] ps[i], self.subscriptions()[i])
    }

    /// Going from `before` to `after`, packet `p` was marked seen at time `t` and its frames were
    /// queued on every live link.
    pub open spec fn flooded(before: Self, after: Self, p: PacketModel, t: Millis) -> bool {
        &&& after.seen_map() == crate::relay::spec_observe(
            before.seen_map(),
            before.config().seen_cache_capacity,
            be_u64_of(p.digest()),
            t,
        ).0
        &&& exists|ts: Seq<(LinkId, usize)>|
            #[trigger] fan_targets(ts, before.link_map(), None) && outbound_view(after.pending_outbound())
                == outbound_view(before.pending_outbound()) + fan_frames(ts, p.encoding(), p.digest())
    }

    /// What handling the channel packet `p` does, from `before` to `after`: one delivery when it
    /// decodes to a subscribed channel, nothing otherwise.
    pub open spec fn channel_outcome(before: Self, after: Self, p: PacketModel) -> bool {
        match crate::payload::spec_decode_channel(p.payload, before.config()) {
            Some((c, t)) if before.subscriptions().contains(c) => {
                &&& after.pending_events().len() == before.pending_events().len() + 1
                &&& after.pending_events().drop_last() == before.pending_events()
                &&& channel_delivery(
                    after.pending_events().last(),
                    c,
                    t,
                    p,
                    before.knows_eph(p.sender) && crate::crypto::ed25519_accepts(
                        before.eph_key(p.sender),
                        p.signed_region(),
                        p.signature,
                    ),
                )
            },
            _ => after.pending_events() == before.pending_events(),
        }
    }

    /// What handling the channel packet `p` does to the store: a payload that decodes to channel
    /// `c` and text `t` is stored (see [`stored_channel_packet`]) unless a message with `p`'s digest
    /// is already held, which leaves the store as it was; so does any other payload.
    pub open spec fn channel_store_outcome(before: Self, after: Self, p: PacketModel) -> bool {
        let h0 = before.store_value().history_view();
        let h1 = after.store_value().history_view();
        match crate::payload::spec_decode_channel(p.payload, before.config()) {
            Some((c, t)) => if holds_digest(h0, p.digest()) {
                h1 == h0
            } else {
                stored_channel_packet(h1, p, c, t)
            },
            None => h1 == h0,
        }
    }

    /// What handling the announce `p` does: a well-formed announce signed by the key it carries
    /// binds its ephemeral id to that key, makes the identity reachable there, records its X25519
    /// key, refreshes the peer record (keeping the user's decisions) and reports the peer; any other
    /// announce changes none of these.
    /// The fingerprint a link leads to, as far as `n` can tell: the one it was tagged with, else
    /// the one behind the ephemeral id heard on it, if that id has announced.
    pub open spec fn link_peer(n: Self, l: LinkState) -> Option<Seq<u8>> {
        match l.peer_fp {
            Some(f) => Some(f@),
            None => match l.peer_eph {
                Some(e) => if n.knows_eph(e@) {
                    Some(n.peer_of(e@))
                } else {
                    None
                },
                None => None,
            },
        }
    }

    /// Whether link `k` of `n` is redundant: its peer is known and a lower-numbered link of `n`
    /// leads to the same peer.
    pub open spec fn shadowed(n: Self, k: LinkId) -> bool {
        &&& Self::link_peer(n, n.link_map()[k]) is Some
        &&& exists|k2: LinkId|
            #![trigger n.link_map()[k2]]
            n.link_map().contains_key(k2) && k2 < k && Self::link_peer(n, n.link_map()[k2]) == Self::link_peer(
                n,
                n.link_map()[k],
            )
    }

    /// A handshake with peer `fp` was started from `before` to `after`: a fresh session holds our
    /// first message, a handshake packet carrying it went out toward the peer (if reachable; else
    /// nothing was sent), and an attempt was counted.
    pub open spec fn handshake_started(before: Self, after: Self, fp: Seq<u8>) -> bool {
        &&& !before.sessions().contains_key(fp)
        &&& after.sessions() == before.sessions().insert(fp, Phase::Handshake)
        &&& after.session_logs().contains_key(fp)
        &&& after.session_logs()[fp].0.len() == 1
        &&& after.retry_attempts().contains_key(fp)
        &&& before.reachable().contains_key(fp) ==> exists|p: PacketModel, t: Millis|
            #[trigger] Self::flooded(before, after, p, t) && before.signed_by_us(p) && p.msg_type
                == MsgType::NoiseHandshake && p.recipient == Some(before.reachable()[fp]@) && p.payload
                == after.session_logs()[fp].0[0]
        &&& !before.reachable().contains_key(fp) ==> after.pending_outbound() == before.pending_outbound()
    }

    /// `texts` went to peer `fp` as direct messages: sealed by its ready session, in order, or,
    /// without one, queued behind the messages already waiting for the handshake.
    pub open spec fn forwarded(before: Self, after: Self, fp: Seq<u8>, texts: Seq<Seq<char>>) -> bool {
        if before.sessions().contains_key(fp) && before.sessions()[fp] == Phase::Transport {
            let b = before.session_logs()[fp];
            &&& after.session_logs().contains_key(fp)
            &&& after.session_logs()[fp] == (b.0, b.1 + utf8_all(texts), b.2)
        } else {
            held_or_empty(after.queued_dms(), fp) == held_or_empty(before.queued_dms(), fp) + texts
        }
    }

    pub open spec fn announce_outcome(before: Self, after: Self, p: PacketModel) -> bool {
        match crate::payload::spec_decode_announce(p.payload) {
            Some((pk, dh, nick)) if crate::crypto::ed25519_accepts(pk, p.signed_region(), p.signature) => {
                let fp = crate::crypto::sha256(pk);
                &&& after.pending_events().len() == before.pending_events().len() + 1
                &&& after.pending_events().drop_last() == before.pending_events()
                &&& peer_appearance(after.pending_events().last(), fp, p.sender, nick)
                &&& after.reachable().contains_key(fp)
                &&& after.reachable()[fp]@ == p.sender
                &&& after.reachable().remove(fp) == before.reachable().remove(fp)
                &&& after.knows_eph(p.sender) && after.eph_key(p.sender) == pk
                &&& after.announced_dh().contains_key(fp) && after.announced_dh()[fp]@ == dh
                &&& after.peer_records().contains_key(fp)
                &&& after.peer_records()[fp].fingerprint == fp
                &&& after.peer_records()[fp].last_eph@ == p.sender
                &&& after.peer_records()[fp].last_seen_ms == p.timestamp_ms
                &&& after.peer_records()[fp].verified == (before.peer_records().contains_key(fp)
                    && before.peer_records()[fp].verified)
                &&& after.peer_records()[fp].petname == (if before.peer_records().contains_key(fp) {
                    before.peer_records()[fp].petname
                } else {
                    None
                })
                &&& after.peer_records().remove(fp) == before.peer_records().remove(fp)
                &&& after.store_value().envelope_view() == before.store_value().envelope_view().remove(fp)
                &&& Self::forwarded(
                    before,
                    after,
                    fp,
                    lossy_all(crate::store::held_for(before.store_value().envelope_view(), fp)),
                )
            },
            _ => {
                &&& after.pending_events() == before.pending_events()
                &&& after.reachable() == before.reachable()
                &&& after.peer_records() == before.peer_records()
                &&& after.eph_table() == before.eph_table()
                &&& after.announced_dh() == before.announced_dh()
                &&& after.sessions() == before.sessions()
                &&& after.store_value() == before.store_value()
                &&& after.link_map() == before.link_map()
                &&& after.pending_outbound() == before.pending_outbound()
            },
        }
    }

    /// What considering `p` (arrived on `link`) for relay does to the schedule: nothing, or, when
    /// it has hops left and is not yet scheduled, it is scheduled with one hop less, excluding the
    /// link it came on, to go out after a delay in the jitter window.
    pub open spec fn relay_outcome(
        before: Map<u64, crate::relay::PendingModel>,
        after: Map<u64, crate::relay::PendingModel>,
        p: PacketModel,
        link: LinkId,
        cfg: Tunables,
    ) -> bool {
        ||| after == before
        ||| {
            let p2 = PacketModel { ttl: (p.ttl - 1) as u8, ..p };
            let k = be_u64_of(p2.digest());
            &&& p.ttl > 1
            &&& !before.contains_key(k)
            &&& exists|t: Millis, d: Millis|
                in_jitter(cfg, d) && after == #[trigger] before.insert(
                    k,
                    crate::relay::PendingModel { packet: p2, send_at_ms: crate::relay::sat_add(t, d), exclude_link: link },
                )
        }
    }

    /// The Ed25519 key announced for each ephemeral id (keyed big-endian).
    pub closed spec fn eph_table(&self) -> Map<u64, [u8; 32]> {
        self.eph_keys@
    }

    /// What a copy of an already seen packet `p` does: it is counted once more as heard, and
    /// nothing else that the node decides changes.
    pub open spec fn duplicate_outcome(before: Self, after: Self, p: PacketModel) -> bool {
        &&& after.sessions() == before.sessions()
        &&& after.store_value() == before.store_value()
        &&& after.rate_view() == before.rate_view()
        &&& after.peer_records() == before.peer_records()
        &&& after.pending_events() == before.pending_events()
        &&& after.scheduled() == before.scheduled()
        &&& exists|t: Millis|
            after.seen_map() == #[trigger] crate::relay::spec_observe(
                before.seen_map(),
                before.config().seen_cache_capacity,
                be_u64_of(p.digest()),
                t,
            ).0
    }

    /// What a packet `p` not seen before does, for some clock reading.
    pub open spec fn new_packet_outcome(before: Self, after: Self, p: PacketModel, link: LinkId) -> bool {
        exists|t: Millis| #[trigger] Self::admitted_outcome(before, after, p, link, t)
    }

    /// What a new packet `p`, arrived on `link` and completed at time `t`, does from `before` to
    /// `after`: the sender's token bucket is charged; a refused packet changes nothing else; an
    /// admitted one is handled by its type and considered for relay.
    pub open spec fn admitted_outcome(before: Self, after: Self, p: PacketModel, link: LinkId, t: Millis) -> bool {
        let (buckets, ok) = crate::relay::spec_allow(before.rate_view(), before.config(), be_u64_of(p.sender), t);
        &&& after.rate_view() == buckets
        &&& !ok ==> {
            &&& after.pending_events() == before.pending_events()
            &&& after.sessions() == before.sessions()
            &&& after.store_value() == before.store_value()
            &&& after.peer_records() == before.peer_records()
            &&& after.scheduled() == before.scheduled()
        }
        &&& ok ==> Self::relay_outcome(before.scheduled(), after.scheduled(), p, link, after.config())
        &&& ok && p.msg_type is ChannelMessage ==> Self::channel_outcome(before, after, p)
        &&& ok && p.msg_type is Announce ==> Self::announce_outcome(before, after, p)
        &&& ok && p.msg_type is NoiseHandshake ==> Self::handshake_outcome(before, after, p)
        &&& ok && p.msg_type is DirectMessage ==> Self::dm_outcome(before, after, p)
    }

    /// What a direct-message packet `p` does: nothing to events or held ciphertexts unless it is
    /// addressed to us by a peer whose identity we know; then, with a ready session, its payload is
    /// handed to that session to decrypt and at most one `DmReceived` from the peer is reported;
    /// without one, the payload is held (up to the cap) until the session is ready.
    pub open spec fn dm_outcome(before: Self, after: Self, p: PacketModel) -> bool {
        if p.recipient != Some(before.ident().eph()) || !before.knows_eph(p.sender) {
            &&& after.pending_events() == before.pending_events()
            &&& after.early_dms() == before.early_dms()
        } else {
            let fp = before.peer_of(p.sender);
            let held = held_or_empty(before.early_dms(), fp);
            if before.sessions().contains_key(fp) && before.sessions()[fp] == Phase::Transport {
                &&& after.early_dms() == before.early_dms()
                &&& after.session_logs() == before.session_logs().insert(fp, log_opened(before.session_logs()[fp], p.payload))
                &&& (after.pending_events() == before.pending_events() || (after.pending_events().drop_last()
                    == before.pending_events() && after.pending_events().len() == before.pending_events().len() + 1
                    && after.pending_events().last()->DmReceived_sender_fp@ == fp))
            } else {
                &&& after.pending_events() == before.pending_events()
                &&& after.early_dms() == before.early_dms().insert(
                    fp,
                    if held.len() < MAX_EARLY_DMS {
                        held.push(p.payload)
                    } else {
                        held
                    },
                )
            }
        }
    }

    /// What a Noise handshake packet `p` does: nothing to sessions or events unless it is
    /// addressed to us by a peer whose identity we know; then only that peer's session may change,
    /// not at all if it is ready, and a session kept for the peer has taken in `p`'s payload after
    /// the messages it had already handled.
    pub open spec fn handshake_outcome(before: Self, after: Self, p: PacketModel) -> bool {
        if p.recipient != Some(before.ident().eph()) || !before.knows_eph(p.sender) {
            &&& after.sessions() == before.sessions()
            &&& after.pending_events() == before.pending_events()
        } else {
            let fp = before.peer_of(p.sender);
            let ready = before.sessions().contains_key(fp) && before.sessions()[fp] == Phase::Transport;
            &&& after.sessions().remove(fp) == before.sessions().remove(fp)
            &&& ready ==> after.sessions() == before.sessions() && after.pending_events() == before.pending_events()
            &&& !ready && after.sessions().contains_key(fp) ==> held_or_empty(
                before.session_logs().map_values(|l: SessionLog| l.0),
                fp,
            ).push(p.payload).is_prefix_of(after.session_logs()[fp].0)
        }
    }

    /// The X25519 key each identity announced.
    pub closed spec fn announced_dh(&self) -> Map<Seq<u8>, [u8; 32]> {
        self.peer_static_dh.view()
    }

    /// The per-sender token buckets.
    pub closed spec fn rate_view(&self) -> Map<u64, crate::relay::Bucket> {
        self.rate.view_map()
    }

    /// The injected store.
    pub closed spec fn store_value(&self) -> S {
        self.store
    }

    /// The injected clock.
    pub closed spec fn clock_value(&self) -> C {
        self.clock
    }

    pub closed spec fn relay_count(&self) -> u64 {
        self.relays_fired
    }

    pub closed spec fn config(&self) -> Tunables {
        self.cfg
    }

    /// The node's identity.
    pub closed spec fn ident(&self) -> LocalIdentity {
        self.identity
    }

    /// The reassembly slots of the link layer.
    pub closed spec fn reassembly(&self) -> Map<u64, crate::frag::PartialModel> {
        self.reassembler.view_slots()
    }

    pub fn new(
        identity: LocalIdentity,
        cfg: Tunables,
        clock: C,
        store: S,
        nickname: String,
        rng_seed: u64,
    ) -> (n: Self)
        requires
            identity.wf(),
        ensures
            n.wf(),
            n.ident() == identity,
            n.config() == cfg,
            n.clock_value() == clock,
            n.link_map() == Map::<LinkId, LinkState>::empty(),
            n.pending_events() == Seq::<MeshEvent>::empty(),
            n.pending_outbound() == Seq::<(LinkId, Vec<u8>)>::empty(),
            n.pending_closes() == Seq::<LinkId>::empty(),
            n.seen_map() == Map::<u64, SeenEntry>::empty(),
            n.relay_count() == 0,
            n.subscriptions() == seq![spec_normalize("#general"@)],
    {
        let mut subscribed: Vec<String> = Vec::new();
        subscribed.push(normalize(DEFAULT_CHANNEL));
        let n = MeshNode {
            identity,
            seen: SeenCache::new(cfg),
            rate: RateLimiter::new(cfg),
            scheduler: RelayScheduler::new(cfg),
            reassembler: Reassembler::new(cfg),
            rng: seeded_rng(rng_seed),
            cfg,
            clock,
            store,
            links: BTreeMap::new(),
            eph_keys: BTreeMap::new(),
            subscribed,
            events: Vec::new(),
            outbound: Vec::new(),
            closed_links: Vec::new(),
            nickname,
            relays_fired: 0,
            noise_sessions: FpMap::new(),
            pending_dms: FpMap::new(),
            fp_to_eph: FpMap::new(),
            peer_static_dh: FpMap::new(),
            pending_inbound_dms: FpMap::new(),
            handshake_last_ms: FpMap::new(),
            handshake_attempts: FpMap::new(),
            bindings: Ghost(Map::empty()),
        };
        assert(n.subscriptions() =~= seq![spec_normalize("#general"@)]);
        n
    }

    // --- introspection ---

    pub fn eph_id(&self) -> (e: EphId)
        ensures
            e@ == self.ident().eph(),
    {
        self.identity.eph_id()
    }

    pub fn fingerprint(&self) -> (fp: Fingerprint)
        requires
            self.wf(),
        ensures
            fp@ == crate::identity::fingerprint_of(self.ident().signing_secret()),
    {
        self.identity.fingerprint()
    }

    pub fn link_count(&self) -> (n: usize)
        ensures
            n == self.link_map().dom().len(),
    {
        self.links.len()
    }

    /// How many times this node has rebroadcast a packet (fired a scheduled relay). The mesh-wide
    /// sum over one message is the flooding cost; suppression keeps it well below the node count.
    pub fn relays_fired(&self) -> (n: u64)
        ensures
            n == self.relay_count(),
    {
        self.relays_fired
    }

    /// Reset the rebroadcast counter (used by the simulator to measure a single message).
    pub fn reset_relays_fired(&mut self)
        requires
            old(self).wf(),
        ensures
            final(self).clock_value() == old(self).clock_value(),
            final(self).wf(),
            final(self).peer_records() == old(self).peer_records(),
            final(self).relay_count() == 0,
            final(self).link_map() == old(self).link_map(),
            final(self).pending_events() == old(self).pending_events(),
    {
        self.relays_fired = 0;
    }

    /// Hand the accumulated UI events to the caller.
    pub fn take_events(&mut self) -> (evs: Vec<MeshEvent>)
        requires
            old(self).wf(),
        ensures
            final(self).clock_value() == old(self).clock_value(),
            final(self).wf(),
            final(self).peer_records() == old(self).peer_records(),
            evs@ == old(self).pending_events(),
            final(self).pending_events() == Seq::<MeshEvent>::empty(),
            final(self).link_map() == old(self).link_map(),
            final(self).pending_outbound() == old(self).pending_outbound(),
    {
        let mut out: Vec<MeshEvent> = Vec::new();
        std::mem::swap(&mut out, &mut self.events);
        out
    }

    /// Hand the frames waiting to be sent, as `(link, frame)`, to the platform.
    pub fn take_outbound(&mut self) -> (sends: Vec<(LinkId, Vec<u8>)>)
        requires
            old(self).wf(),
        ensures
            final(self).clock_value() == old(self).clock_value(),
            final(self).wf(),
            final(self).peer_records() == old(self).peer_records(),
            sends@ == old(self).pending_outbound(),
            final(self).pending_outbound() == Seq::<(LinkId, Vec<u8>)>::empty(),
            final(self).pending_events() == old(self).pending_events(),
            final(self).link_map() == old(self).link_map(),
    {
        let mut out: Vec<(LinkId, Vec<u8>)> = Vec::new();
        std::mem::swap(&mut out, &mut self.outbound);
        out
    }

    /// Hand the links the node dropped as redundant to the platform, to tear down.
    pub fn take_closed_links(&mut self) -> (links: Vec<LinkId>)
        requires
            old(self).wf(),
        ensures
            final(self).clock_value() == old(self).clock_value(),
            final(self).wf(),
            final(self).peer_records() == old(self).peer_records(),
            links@ == old(self).pending_closes(),
            final(self).pending_closes() == Seq::<LinkId>::empty(),
            final(self).pending_events() == old(self).pending_events(),
            final(self).pending_outbound() == old(self).pending_outbound(),
            final(self).link_map() == old(self).link_map(),
    {
        let mut out: Vec<LinkId> = Vec::new();
        std::mem::swap(&mut out, &mut self.closed_links);
        out
    }

    /// The store, to read what it holds.
    pub fn store(&self) -> (st: &S)
        ensures
            *st == self.store_value(),
    {
        &self.store
    }

    /// The store, to record what the user decides about peers outside the protocol.
    pub fn store_mut(&mut self) -> (st: &mut S)
        ensures
            final(self).clock_value() == old(self).clock_value(),
            *st == old(self).store_value(),
            *final(st) == final(self).store_value(),
            old(self).wf() ==> final(self).wf(),
            final(self).link_map() == old(self).link_map(),
            final(self).pending_events() == old(self).pending_events(),
    {
        &mut self.store
    }

    /// The clock, so the platform (or the simulator) can move time.
    pub fn clock_mut(&mut self) -> (c: &mut C)
        ensures
            *c == old(self).clock_value(),
            *final(c) == final(self).clock_value(),
            old(self).wf() ==> final(self).wf(),
            final(self).link_map() == old(self).link_map(),
            final(self).pending_events() == old(self).pending_events(),
            final(self).pending_outbound() == old(self).pending_outbound(),
            final(self).seen_map() == old(self).seen_map(),
            final(self).relay_count() == old(self).relay_count(),
    {
        &mut self.clock
    }

    // --- commands ---

    fn is_subscribed(&self, channel: &String) -> (b: bool)
        ensures
            b == self.subscriptions().contains(channel@),
    {
        let mut i: usize = 0;
        while i < self.subscribed.len()
            invariant
                i <= self.subscribed@.len(),
                forall|j: int| 0 <= j < i ==> self.subscribed@[j]@ != channel@,
            decreases self.subscribed@.len() - i,
        {
            if self.subscribed[i] == *channel {
                assert(self.subscriptions()[i as int] == channel@);
                return true;
            }
            i = i + 1;
        }
        proof {
            if self.subscriptions().contains(channel@) {
                let j = choose|j: int| 0 <= j < self.subscriptions().len() && self.subscriptions()[j] == channel@;
                assert(self.subscribed@[j]@ == channel@);
            }
        }
        false
    }

    fn subscribe(&mut self, channel: String)
        requires
            old(self).wf(),
        ensures
            final(self).clock_value() == old(self).clock_value(),
            final(self).wf(),
            final(self).peer_records() == old(self).peer_records(),
            final(self).subscriptions().contains(channel@),
            forall|c: Seq<char>| old(self).subscriptions().contains(c) ==> #[trigger] final(self).subscriptions().contains(c),
            final(self).link_map() == old(self).link_map(),
            final(self).pending_events() == old(self).pending_events(),
            final(self).pending_outbound() == old(self).pending_outbound(),
            final(self).seen_map() == old(self).seen_map(),
            final(self).cfg == old(self).cfg,
            final(self).identity == old(self).identity,
            final(self).seen == old(self).seen,
            final(self).scheduled() == old(self).scheduled(),
            final(self).rate_view() == old(self).rate_view(),
    {
        if !self.is_subscribed(&channel) {
            let ghost before = self.subscriptions();
            self.subscribed.push(channel);
            proof {
                assert(self.subscriptions() =~= before.push(channel@));
                assert(self.subscriptions()[before.len() as int] == channel@);
                assert forall|c: Seq<char>| before.contains(c) implies #[trigger] self.subscriptions().contains(c) by {
                    let j = choose|j: int| 0 <= j < before.len() && before[j] == c;
                    assert(self.subscriptions()[j] == c);
                }
            }
        }
    }

    /// Start delivering a channel's messages to the UI.
    pub fn join_channel(&mut self, name: &str)
        requires
            old(self).wf(),
        ensures
            final(self).clock_value() == old(self).clock_value(),
            final(self).wf(),
            final(self).peer_records() == old(self).peer_records(),
            final(self).subscriptions().contains(spec_normalize(name@)),
            final(self).link_map() == old(self).link_map(),
            final(self).pending_events() == old(self).pending_events(),
    {
        let c = normalize(name);
        self.subscribe(c);
    }

    /// Originate a channel message: sign it, store it, and broadcast on every link. Returns the
    /// 8-byte digest so callers (and the simulator) can track its propagation. The node marks its
    /// own message seen, so an echo of it is never delivered or relayed, and delivers nothing of
    /// it to its own UI.
    pub fn send_channel_message(&mut self, channel: &str, text: &str) -> (digest: [u8; 8])
        requires
            old(self).wf(),
        ensures
            final(self).clock_value() == old(self).clock_value(),
            final(self).wf(),
            final(self).peer_records() == old(self).peer_records(),
            final(self).subscriptions().contains(spec_normalize(channel@)),
            final(self).seen_map().contains_key(be_u64_of(digest@)),
            final(self).pending_events() == old(self).pending_events(),
            final(self).link_map() == old(self).link_map(),
            exists|p: PacketModel, t: Millis|
                #[trigger] Self::flooded(*old(self), *final(self), p, t) && old(self).signed_by_us(p)
                    && p.msg_type == MsgType::ChannelMessage && p.recipient is None && p.timestamp_ms == t
                    && p.ttl == old(self).config().spec_origin_ttl(old(self).link_map().dom().len() as usize)
                    && digest@ == p.digest() && p.payload == crate::payload::channel_payload(
                    vstd::utf8::encode_utf8(spec_normalize(channel@)),
                    vstd::utf8::encode_utf8(text@),
                    old(self).config(),
                ),
    {
        let ghost o = *old(self);
        let channel = normalize(channel);
        self.subscribe(channel.clone());
        let now = self.clock.now_ms();
        let ttl = self.cfg.origin_ttl(self.links.len());
        let payload = encode_channel(channel.as_str(), text, &self.cfg);
        let mut pkt = Packet::new(MsgType::ChannelMessage, ttl, now, self.identity.eph_id(), None, payload);
        pkt.sign(self.identity.signing_key());
        let digest = pkt.digest();
        let raw = pkt.encode();
        // Store locally and mark seen so an echo of our own packet is not re-relayed.
        self.store.put_channel_message(
            StoredMessage {
                digest,
                channel,
                sender: self.identity.eph_id(),
                timestamp_ms: now,
                body: copy_bytes(text.as_bytes()),
                raw,
            },
        );
        let ghost pre = *self;
        self.seen.observe(digest, now);
        let ghost mid = *self;
        self.broadcast(&pkt, None);
        proof {
            assert(pre.link_map() == o.link_map());
            assert(pre.seen_map() == o.seen_map());
            assert(pre.pending_outbound() == o.pending_outbound());
            assert(mid.link_map() == pre.link_map());
            assert(mid.pending_outbound() == pre.pending_outbound());
            assert(self.seen_map() == mid.seen_map());
            assert(pre.seen.config() == pre.cfg);
            assert(Self::flooded(o, *self, pkt@, now));
        }
        digest
    }

    /// Send our signed announce on every link (peers learn our eph → key binding from it).
    pub fn announce(&mut self)
        requires
            old(self).wf(),
        ensures
            final(self).clock_value() == old(self).clock_value(),
            final(self).wf(),
            final(self).peer_records() == old(self).peer_records(),
            final(self).pending_events() == old(self).pending_events(),
            final(self).link_map() == old(self).link_map(),
            exists|p: PacketModel, t: Millis|
                #[trigger] Self::flooded(*old(self), *final(self), p, t) && old(self).signed_by_us(p)
                    && p.msg_type == MsgType::Announce && p.recipient is None && p.timestamp_ms == t
                    && p.ttl == old(self).config().spec_origin_ttl(old(self).link_map().dom().len() as usize)
                    && p.payload == crate::payload::announce_payload(
                    crate::crypto::ed25519_public(old(self).ident().signing_secret()),
                    crate::crypto::x25519_public(old(self).ident().dh_secret_bytes()),
                    vstd::utf8::encode_utf8(old(self).nick()),
                ),
    {
        let now = self.clock.now_ms();
        let payload = encode_announce(
            &self.identity.verifying_key(),
            &self.identity.dh_public(),
            self.nickname.as_str(),
        );
        let ttl = self.cfg.origin_ttl(self.links.len());
        let mut pkt = Packet::new(MsgType::Announce, ttl, now, self.identity.eph_id(), None, payload);
        pkt.sign(self.identity.signing_key());
        let ghost pre = *self;
        self.seen.observe(pkt.digest(), now);
        let ghost mid = *self;
        self.broadcast(&pkt, None);
        proof {
            assert(mid.link_map() == pre.link_map());
            assert(mid.pending_outbound() == pre.pending_outbound());
            assert(self.seen_map() == mid.seen_map());
            assert(pre.seen.config() == pre.cfg);
        }
        assert(Self::flooded(*old(self), *self, pkt@, now));
    }

    fn session_ready(&self, fp: &Fingerprint) -> (b: bool)
        requires
            self.wf(),
        ensures
            b == (self.sessions().contains_key(fp@) && self.sessions()[fp@] == Phase::Transport),
    {
        match self.noise_sessions.get(fp) {
            Some(s) => s.is_ready(),
            None => false,
        }
    }

    /// Send an end-to-end encrypted direct message to a peer (by fingerprint). On first use this
    /// establishes a Noise session, queuing the message until the handshake completes. A peer not
    /// currently reachable gets the message held in the store until it reappears.
    pub fn send_dm(&mut self, peer_fp: Fingerprint, text: &str)
        requires
            old(self).wf(),
        ensures
            final(self).clock_value() == old(self).clock_value(),
            final(self).wf(),
            final(self).peer_records() == old(self).peer_records(),
            final(self).reachable() == old(self).reachable(),
            final(self).pending_events() == old(self).pending_events(),
            old(self).sessions().contains_key(peer_fp@) && old(self).sessions()[peer_fp@]
                == Phase::Transport ==> final(self).queued_dms() == old(self).queued_dms()
                && final(self).sessions() == old(self).sessions(),
            !(old(self).sessions().contains_key(peer_fp@) && old(self).sessions()[peer_fp@]
                == Phase::Transport) && !old(self).reachable().contains_key(peer_fp@)
                ==> final(self).queued_dms() == old(self).queued_dms()
                && final(self).sessions() == old(self).sessions(),
            !(old(self).sessions().contains_key(peer_fp@) && old(self).sessions()[peer_fp@]
                == Phase::Transport) && old(self).reachable().contains_key(peer_fp@)
                ==> final(self).queued_dms() == old(self).queued_dms().insert(
                peer_fp@,
                (if old(self).queued_dms().contains_key(peer_fp@) {
                    old(self).queued_dms()[peer_fp@]
                } else {
                    Seq::empty()
                }).push(text@),
            ),
            old(self).reachable().contains_key(peer_fp@) ==> final(self).store_value() == old(self).store_value(),
            old(self).sessions().contains_key(peer_fp@) && old(self).sessions()[peer_fp@] == Phase::Transport
                ==> final(self).session_logs() == old(self).session_logs().insert(
                peer_fp@,
                log_sealed(old(self).session_logs()[peer_fp@], text.spec_bytes()),
            ),
            !(old(self).sessions().contains_key(peer_fp@) && old(self).sessions()[peer_fp@]
                == Phase::Transport) ==> !(final(self).sessions().contains_key(peer_fp@)
                && final(self).sessions()[peer_fp@] == Phase::Transport),
            old(self).sessions().contains_key(peer_fp@) && old(self).sessions()[peer_fp@] == Phase::Transport
                ==> (final(self).pending_outbound() == old(self).pending_outbound() && final(self).seen_map()
                == old(self).seen_map()) || exists|p: PacketModel, t: Millis|
                #[trigger] Self::flooded(*old(self), *final(self), p, t) && old(self).signed_by_us(p)
                    && p.msg_type == MsgType::DirectMessage && old(self).reachable().contains_key(peer_fp@)
                    && p.recipient == Some(old(self).reachable()[peer_fp@]@) && p.payload.len()
                    == text.spec_bytes().len() + crate::noise::TAG_LEN,
            !old(self).sessions().contains_key(peer_fp@) && old(self).reachable().contains_key(peer_fp@) ==> (
            final(self).sessions() == old(self).sessions() && final(self).pending_outbound()
                == old(self).pending_outbound()) || Self::handshake_started(*old(self), *final(self), peer_fp@),
            final(self).reassembly() == old(self).reassembly(),
            final(self).scheduled() == old(self).scheduled(),
            final(self).rate_view() == old(self).rate_view(),
            final(self).announced_dh() == old(self).announced_dh(),
            final(self).eph_table() == old(self).eph_table(),
    {
        if self.session_ready(&peer_fp) {
            self.encrypt_and_send_dm(peer_fp, text);
            return;
        }
        // Not reachable right now: hold it in the store (store-and-forward).
        if !self.fp_to_eph.contains_key(&peer_fp) {
            let now = self.clock.now_ms();
            self.store.queue_envelope(peer_fp, copy_bytes(text.as_bytes()), now);
            return;
        }
        // Reachable: queue the message during the handshake and kick it off.
        let mut queue = match self.pending_dms.remove(&peer_fp) {
            Some(q) => q,
            None => Vec::new(),
        };
        let ghost q0 = queue@;
        queue.push(text.to_owned());
        self.pending_dms.insert(peer_fp, queue);
        proof {
            assert(Seq::new(queue@.len(), |i: int| queue@[i]@) =~= (if old(self).queued_dms().contains_key(peer_fp@) {
                old(self).queued_dms()[peer_fp@]
            } else {
                Seq::empty()
            }).push(text@));
            assert(self.queued_dms() =~= old(self).queued_dms().insert(
                peer_fp@,
                (if old(self).queued_dms().contains_key(peer_fp@) {
                    old(self).queued_dms()[peer_fp@]
                } else {
                    Seq::empty()
                }).push(text@),
            ));
        }
        if !self.noise_sessions.contains_key(&peer_fp) {
            let ghost mid = *self;
            self.begin_handshake(peer_fp);
            proof {
                assert(mid.sessions() == old(self).sessions());
                assert(mid.session_logs() == old(self).session_logs());
                assert(mid.seen_map() == old(self).seen_map());
                assert(mid.link_map() == old(self).link_map());
                assert(mid.pending_outbound() == old(self).pending_outbound());
                assert(mid.config() == old(self).config());
                assert(mid.reachable() == old(self).reachable());
                assert(mid.ident() == old(self).ident());
                if self.sessions() != mid.sessions() {
                    assert(Self::handshake_started(mid, *self, peer_fp@));
                    if old(self).reachable().contains_key(peer_fp@) {
                        let (p, t) = choose|p: PacketModel, t: Millis|
                            #[trigger] Self::flooded(mid, *self, p, t) && mid.signed_by_us(p) && p.msg_type
                                == MsgType::NoiseHandshake && p.recipient == Some(mid.reachable()[peer_fp@]@)
                                && p.payload == self.session_logs()[peer_fp@].0[0];
                        assert(Self::flooded(*old(self), *self, p, t));
                    }
                    assert(Self::handshake_started(*old(self), *self, peer_fp@));
                }
            }
        } else {
            // A handshake is already in flight: a fresh send resets the retry budget so `tick`
            // re-drives it promptly.
            self.handshake_attempts.remove(&peer_fp);
            self.handshake_last_ms.remove(&peer_fp);
        }
    }

    fn peer_or_new(&self, fp: Fingerprint) -> (p: PeerRecord)
        ensures
            p.fingerprint == fp,
            self.peer_records().contains_key(fp@) ==> p@ == (PeerModel {
                fingerprint: fp@,
                ..self.peer_records()[fp@]
            }),
            !self.peer_records().contains_key(fp@) ==> p@.petname is None && !p@.verified,
    {
        match self.store.get_peer(&fp) {
            Some(p) => PeerRecord { fingerprint: fp, ..p },
            None => PeerRecord {
                fingerprint: fp,
                petname: None,
                verified: false,
                last_eph: [0u8; 8],
                last_seen_ms: self.clock.now_ms(),
            },
        }
    }

    /// Mark a peer verified after an in-person QR fingerprint match. Persisted, and preserved
    /// across future announces (never silently downgraded).
    pub fn verify_peer(&mut self, fp: Fingerprint)
        requires
            old(self).wf(),
        ensures
            final(self).clock_value() == old(self).clock_value(),
            final(self).wf(),
            final(self).pending_events() == old(self).pending_events(),
            final(self).peer_records().contains_key(fp@),
            final(self).peer_records()[fp@].verified,
            final(self).peer_records()[fp@].petname == (if old(self).peer_records().contains_key(fp@) {
                old(self).peer_records()[fp@].petname
            } else {
                None
            }),
            final(self).peer_records().remove(fp@) == old(self).peer_records().remove(fp@),
    {
        let mut p = self.peer_or_new(fp);
        p.verified = true;
        self.store.upsert_peer(p);
    }

    /// Establish an encrypted session with a peer without sending a message, so the other device
    /// flips to "verified" as soon as the session completes.
    pub fn start_dm_session(&mut self, peer_fp: Fingerprint)
        requires
            old(self).wf(),
        ensures
            final(self).clock_value() == old(self).clock_value(),
            final(self).wf(),
            final(self).peer_records() == old(self).peer_records(),
            old(self).sessions().contains_key(peer_fp@) && old(self).sessions()[peer_fp@]
                == Phase::Transport ==> final(self).pending_events() == old(self).pending_events().push(
                MeshEvent::DmSession { peer_fp, verified: true },
            ) && final(self).sessions() == old(self).sessions(),
            !(old(self).sessions().contains_key(peer_fp@) && old(self).sessions()[peer_fp@]
                == Phase::Transport) ==> final(self).pending_events() == old(self).pending_events(),
            !old(self).reachable().contains_key(peer_fp@) || old(self).sessions().contains_key(peer_fp@)
                ==> final(self).sessions() == old(self).sessions(),
    {
        if self.session_ready(&peer_fp) {
            // Already established: re-surface it so the UI reflects the verified state.
            self.events.push(MeshEvent::DmSession { peer_fp, verified: true });
            return;
        }
        if !self.fp_to_eph.contains_key(&peer_fp) {
            return;  // not reachable yet; verification is still recorded locally
        }
        if !self.noise_sessions.contains_key(&peer_fp) {
            self.begin_handshake(peer_fp);
        }
    }

    /// Set (or clear, if empty) a local petname for a peer. Persisted.
    pub fn set_petname(&mut self, fp: Fingerprint, name: &str)
        requires
            old(self).wf(),
        ensures
            final(self).clock_value() == old(self).clock_value(),
            final(self).wf(),
            final(self).pending_events() == old(self).pending_events(),
            final(self).peer_records().contains_key(fp@),
            final(self).peer_records()[fp@].petname == (if name@.len() == 0 {
                None
            } else {
                Some(name@)
            }),
            final(self).peer_records()[fp@].verified == (old(self).peer_records().contains_key(fp@)
                && old(self).peer_records()[fp@].verified),
            final(self).peer_records().remove(fp@) == old(self).peer_records().remove(fp@),
    {
        let mut p = self.peer_or_new(fp);
        p.petname = if name.is_empty() {
            None
        } else {
            Some(name.to_owned())
        };
        self.store.upsert_peer(p);
    }

    /// Whether a peer has been verified in person.
    pub fn peer_verified(&self, fp: &Fingerprint) -> (v: bool)
        ensures
            v == (self.peer_records().contains_key(fp@) && self.peer_records()[fp@].verified),
    {
        match self.store.get_peer(fp) {
            Some(p) => p.verified,
            None => false,
        }
    }

    /// A peer's local petname, if set.
    pub fn peer_petname(&self, fp: &Fingerprint) -> (name: Option<String>)
        ensures
            name is Some <==> self.peer_records().contains_key(fp@)
                && self.peer_records()[fp@].petname is Some,
            name matches Some(n) ==> self.peer_records()[fp@].petname == Some(n@),
    {
        match self.store.get_peer(fp) {
            Some(p) => p.petname,
            None => None,
        }
    }

    /// Destroy every secret the node holds about its peers and conversations.
    pub fn panic_wipe(&mut self)
        requires
            old(self).wf(),
        ensures
            final(self).clock_value() == old(self).clock_value(),
            final(self).wf(),
            final(self).pending_events() == Seq::<MeshEvent>::empty(),
            final(self).peer_records() == Map::<Seq<u8>, PeerModel>::empty(),
            final(self).sessions() == Map::<Seq<u8>, Phase>::empty(),
            final(self).reachable() == Map::<Seq<u8>, EphId>::empty(),
            final(self).queued_dms() == Map::<Seq<u8>, Seq<Seq<char>>>::empty(),
    {
        self.store.panic_wipe();
        self.eph_keys.clear();
        self.noise_sessions.clear();
        assert(self.sessions() =~= Map::<Seq<u8>, Phase>::empty());
        self.pending_dms.clear();
        self.fp_to_eph.clear();
        self.peer_static_dh.clear();
        self.pending_inbound_dms.clear();
        self.handshake_last_ms.clear();
        self.handshake_attempts.clear();
        self.events.clear();
    }

    // --- direct-message internals ---

    fn eph_to_fp(&self, eph: EphId) -> (fp: Option<Fingerprint>)
        ensures
            fp is Some <==> self.eph_keys@.contains_key(be_u64_of(eph@)),
            fp matches Some(f) ==> f@ == self.peer_of(eph@),
    {
        match self.eph_keys.get(&u64_key(&eph)) {
            Some(pk) => Some(sha256_digest(pk)),
            None => None,
        }
    }

    fn begin_handshake(&mut self, peer_fp: Fingerprint)
        requires
            old(self).wf(),
        ensures
            final(self).clock_value() == old(self).clock_value(),
            final(self).store == old(self).store,
            final(self).wf(),
            final(self).peer_records() == old(self).peer_records(),
            final(self).relays_fired == old(self).relays_fired,
            final(self).pending_dms == old(self).pending_dms,
            final(self).fp_to_eph == old(self).fp_to_eph,
            final(self).pending_events() == old(self).pending_events(),
            final(self).link_map() == old(self).link_map(),
            final(self).scheduler == old(self).scheduler,
            final(self).reassembly() == old(self).reassembly(),
            final(self).sessions() == old(self).sessions() || final(self).sessions() == old(
                self,
            ).sessions().insert(peer_fp@, Phase::Handshake),
            final(self).scheduled() == old(self).scheduled(),
            final(self).rate_view() == old(self).rate_view(),
            final(self).announced_dh() == old(self).announced_dh(),
            final(self).eph_table() == old(self).eph_table(),
            !old(self).sessions().contains_key(peer_fp@) && final(self).sessions() == old(self).sessions()
                ==> final(self).pending_outbound() == old(self).pending_outbound(),
            !old(self).sessions().contains_key(peer_fp@) && final(self).sessions() != old(self).sessions()
                ==> Self::handshake_started(*old(self), *final(self), peer_fp@),
    {
        let priv_bytes = self.identity.dh_private_bytes();
        let mut session = match NoiseSession::new_initiator(&priv_bytes) {
            Ok(s) => s,
            Err(_) => return,
        };
        let msg = match session.write_handshake() {
            Ok(m) => m,
            Err(_) => return,
        };
        if session.is_ready() {
            // An exchange cannot complete on its first message; such a session is refused.
            return;
        }
        let ghost s0 = self.sessions();
        let ghost ph = session.phase();
        self.noise_sessions.insert(peer_fp, session);
        proof {
            assert(ph == Phase::Handshake);
            lemma_all_bound_insert(s0, self.bindings@, peer_fp@, ph);
            assert(self.sessions() =~= s0.insert(peer_fp@, ph));
        }
        proof {
            assert(self.session_logs() =~= old(self).session_logs().insert(
                peer_fp@,
                (session.transcript(), session.sealed(), session.opened()),
            ));
        }
        let ghost mid = *self;
        self.send_directed(MsgType::NoiseHandshake, peer_fp, msg);
        let ghost sent = *self;
        let now = self.clock.now_ms();
        self.handshake_last_ms.insert(peer_fp, now);
        let attempts = match self.handshake_attempts.get(&peer_fp) {
            Some(a) => *a,
            None => 0,
        };
        self.handshake_attempts.insert(peer_fp, attempts.saturating_add(1));
        proof {
            assert(mid.seen_map() == old(self).seen_map());
            assert(mid.link_map() == old(self).link_map());
            assert(mid.pending_outbound() == old(self).pending_outbound());
            assert(mid.config() == old(self).config());
            assert(mid.reachable() == old(self).reachable());
            assert(mid.ident() == old(self).ident());
            assert(self.session_logs()[peer_fp@].0 == seq![msg@]);
            if old(self).reachable().contains_key(peer_fp@) {
                let (p, t) = choose|p: PacketModel, t: Millis|
                    #[trigger] Self::flooded(mid, sent, p, t) && mid.signed_by_us(p) && p.msg_type
                        == MsgType::NoiseHandshake && p.recipient == Some(mid.reachable()[peer_fp@]@)
                        && p.timestamp_ms == t && p.ttl == mid.config().spec_origin_ttl(
                        mid.link_map().dom().len() as usize,
                    ) && p.payload == msg@;
                assert(Self::flooded(*old(self), *self, p, t));
            } else {
                assert(self.pending_outbound() == old(self).pending_outbound());
            }
        }
    }

    fn handle_noise_handshake(&mut self, pkt: &Packet)
        requires
            old(self).wf(),
        ensures
            final(self).clock_value() == old(self).clock_value(),
            final(self).wf(),
            final(self).peer_records() == old(self).peer_records(),
            final(self).reassembly() == old(self).reassembly(),
            pkt@.recipient != Some(old(self).ident().eph()) || !old(self).knows_eph(pkt@.sender)
                ==> final(self).sessions() == old(self).sessions()
                && final(self).pending_events() == old(self).pending_events()
                && final(self).pending_outbound() == old(self).pending_outbound(),
            pkt@.recipient == Some(old(self).ident().eph()) && old(self).knows_eph(pkt@.sender) ==> {
                let fp = old(self).peer_of(pkt@.sender);
                &&& old(self).sessions().contains_key(fp) && old(self).sessions()[fp] == Phase::Transport
                    ==> final(self).sessions() == old(self).sessions() && final(self).pending_events()
                    == old(self).pending_events()
                &&& final(self).sessions().remove(fp) == old(self).sessions().remove(fp)
                &&& !(old(self).sessions().contains_key(fp) && old(self).sessions()[fp] == Phase::Transport)
                    && final(self).sessions().contains_key(fp) ==> held_or_empty(
                    old(self).session_logs().map_values(|l: SessionLog| l.0),
                    fp,
                ).push(pkt@.payload).is_prefix_of(final(self).session_logs()[fp].0)
            },
            final(self).scheduled() == old(self).scheduled(),
            final(self).rate_view() == old(self).rate_view(),
    {
        match pkt.recipient {
            Some(r) => {
                if !crate::bytes::bytes_eq(&r, &self.identity.eph_id()) {
                    return;  // not addressed to us; relaying is handled separately
                }
            },
            None => return,
        }
        let fp = match self.eph_to_fp(pkt.sender) {
            Some(fp) => fp,
            None => return,  // we haven't learned this peer's identity yet
        };
        if self.session_ready(&fp) {
            return;  // already established; ignore a stray/late handshake
        }
        // Responder path: create the session on the first handshake packet.
        let ghost s0 = self.sessions();
        let ghost t0 = held_or_empty(old(self).session_logs().map_values(|l: SessionLog| l.0), fp@);
        let taken = self.noise_sessions.remove(&fp);
        proof {
            lemma_all_bound_remove(s0, self.bindings@, fp@);
            assert(self.sessions() =~= s0.remove(fp@));
        }
        let mut session = match taken {
            Some(s) => {
                assert(old(self).session_logs().contains_key(fp@));
                assert(s.transcript() == t0);
                s
            },
            None => {
                assert(!old(self).session_logs().contains_key(fp@));
                let priv_bytes = self.identity.dh_private_bytes();
                match NoiseSession::new_responder(&priv_bytes) {
                    Ok(s) => s,
                    Err(_) => return,
                }
            },
        };
        if session.read_handshake(pkt.payload.as_slice()).is_err() {
            return;  // the broken session is dropped
        }
        assert(session.transcript() == t0.push(pkt@.payload));
        self.advance_handshake(fp, session);
        proof {
            if self.sessions().contains_key(fp@) {
                let t = self.session_logs()[fp@].0;
                assert(t0.push(pkt@.payload).is_prefix_of(t)) by {
                    if session.phase() == Phase::Handshake {
                        assert(t.subrange(0, session.transcript().len() as int) =~= t.drop_last());
                    } else {
                        assert(t.subrange(0, t.len() as int) =~= t);
                    }
                }
            }
        }
    }

    /// Take the session one step: write our next handshake message if it is our turn, and once
    /// the exchange is complete, keep the session only if it is bound to the peer's identity.
    fn advance_handshake(&mut self, fp: Fingerprint, session: NoiseSession)
        requires
            old(self).wf(),
            !old(self).noise_sessions.view().contains_key(fp@),
            session.phase() != Phase::Poisoned,
        ensures
            final(self).clock_value() == old(self).clock_value(),
            final(self).wf(),
            final(self).peer_records() == old(self).peer_records(),
            final(self).reassembly() == old(self).reassembly(),
            final(self).sessions() == old(self).sessions() && (final(self).pending_events() == old(
                self,
            ).pending_events() || final(self).pending_events() == old(self).pending_events().push(
                MeshEvent::DmSession { peer_fp: fp, verified: false },
            )) || final(self).sessions() == old(self).sessions().insert(fp@, Phase::Handshake)
                && final(self).pending_events() == old(self).pending_events() || final(self).sessions()
                == old(self).sessions().insert(fp@, Phase::Transport) && final(self).pending_events().len()
                > old(self).pending_events().len() && final(self).pending_events().take(
                old(self).pending_events().len() + 1 as int,
            ) == old(self).pending_events().push(MeshEvent::DmSession { peer_fp: fp, verified: true }),
            final(self).scheduled() == old(self).scheduled(),
            final(self).rate_view() == old(self).rate_view(),
            final(self).sessions().contains_key(fp@) ==> {
                let t = final(self).session_logs()[fp@].0;
                ||| session.phase() == Phase::Transport && t == session.transcript()
                ||| session.phase() == Phase::Handshake && t.len() == session.transcript().len() + 1
                    && t.drop_last() == session.transcript()
            },
    {
        let mut session = session;
        let outbound = if session.is_ready() {
            None
        } else {
            match session.write_handshake() {
                Ok(m) => Some(m),
                Err(_) => return,  // the broken session is dropped
            }
        };
        let remote = if session.is_ready() {
            session.remote_static()
        } else {
            None
        };
        self.settle_session(fp, session, outbound, remote);
    }

    /// Keep a session that has taken its latest handshake step, whose reply (if any) is
    /// `outbound` and whose peer static key (if it reported one) is `remote`. A session still
    /// handshaking is kept and its reply sent. A finished one is kept only when it is bound to the
    /// peer's identity (`remote` equals the X25519 key the peer announced), and then the queued
    /// messages flow; otherwise it is a man-in-the-middle and everything held for the peer goes.
    fn settle_session(
        &mut self,
        fp: Fingerprint,
        session: NoiseSession,
        outbound: Option<Vec<u8>>,
        remote: Option<[u8; 32]>,
    )
        requires
            old(self).wf(),
            !old(self).noise_sessions.view().contains_key(fp@),
            session.phase() != Phase::Poisoned,
        ensures
            final(self).clock_value() == old(self).clock_value(),
            final(self).wf(),
            final(self).peer_records() == old(self).peer_records(),
            final(self).reassembly() == old(self).reassembly(),
            final(self).scheduled() == old(self).scheduled(),
            final(self).rate_view() == old(self).rate_view(),
            session.phase() == Phase::Handshake ==> {
                &&& final(self).sessions() == old(self).sessions().insert(fp@, Phase::Handshake)
                &&& final(self).session_logs() == old(self).session_logs().insert(
                    fp@,
                    (session.transcript(), session.sealed(), session.opened()),
                )
                &&& final(self).pending_events() == old(self).pending_events()
                &&& final(self).queued_dms() == old(self).queued_dms()
                &&& (outbound is None || !old(self).reachable().contains_key(fp@)) ==> final(self).pending_outbound()
                    == old(self).pending_outbound()
                &&& (outbound is Some && old(self).reachable().contains_key(fp@)) ==> exists|p: PacketModel, t: Millis|
                    #[trigger] Self::flooded(*old(self), *final(self), p, t) && old(self).signed_by_us(p)
                        && p.msg_type == MsgType::NoiseHandshake && p.recipient == Some(old(self).reachable()[fp@]@)
                        && p.payload == outbound->Some_0@
            },
            session.phase() == Phase::Transport && keys_match(remote, Self::announced_key(*old(self), fp@)) ==> {
                &&& final(self).sessions() == old(self).sessions().insert(fp@, Phase::Transport)
                &&& final(self).pending_events().len() > old(self).pending_events().len()
                &&& final(self).pending_events().take(old(self).pending_events().len() + 1 as int)
                    == old(self).pending_events().push(MeshEvent::DmSession { peer_fp: fp, verified: true })
                &&& forall|i: int|
                    old(self).pending_events().len() < i < final(self).pending_events().len()
                        ==> is_dm_from(#[trigger] final(self).pending_events()[i], fp)
                &&& final(self).session_logs().contains_key(fp@)
                &&& final(self).session_logs()[fp@] == (
                    session.transcript(),
                    session.sealed() + utf8_all(held_or_empty(old(self).queued_dms(), fp@)),
                    session.opened() + held_or_empty(old(self).early_dms(), fp@),
                )
                &&& final(self).queued_dms() == old(self).queued_dms().remove(fp@)
                &&& final(self).early_dms() == old(self).early_dms().remove(fp@)
                &&& final(self).retry_attempts() == old(self).retry_attempts().remove(fp@)
                &&& final(self).retry_last() == old(self).retry_last().remove(fp@)
            },
            session.phase() == Phase::Transport && !keys_match(remote, Self::announced_key(*old(self), fp@)) ==> {
                &&& final(self).sessions() == old(self).sessions()
                &&& final(self).pending_events() == old(self).pending_events().push(
                    MeshEvent::DmSession { peer_fp: fp, verified: false },
                )
                &&& final(self).queued_dms() == old(self).queued_dms().remove(fp@)
                &&& final(self).retry_attempts() == old(self).retry_attempts().remove(fp@)
                &&& final(self).retry_last() == old(self).retry_last().remove(fp@)
            },
    {
        if !session.is_ready() {
            let ghost ph = session.phase();
            let ghost pre = *self;
            self.noise_sessions.insert(fp, session);
            proof {
                lemma_all_bound_insert(old(self).sessions(), self.bindings@, fp@, ph);
                assert(self.sessions() =~= old(self).sessions().insert(fp@, ph));
                assert(self.session_logs() =~= old(self).session_logs().insert(
                    fp@,
                    (session.transcript(), session.sealed(), session.opened()),
                ));
            }
            let ghost mid = *self;
            match outbound {
                Some(msg) => {
                    self.send_directed(MsgType::NoiseHandshake, fp, msg);
                    proof {
                        assert(mid.seen_map() == old(self).seen_map());
                        assert(mid.link_map() == old(self).link_map());
                        assert(mid.pending_outbound() == old(self).pending_outbound());
                        assert(mid.config() == old(self).config());
                        assert(mid.reachable() == old(self).reachable());
                        assert(mid.ident() == old(self).ident());
                        if old(self).reachable().contains_key(fp@) {
                            let (p, t) = choose|p: PacketModel, t: Millis|
                                #[trigger] Self::flooded(mid, *self, p, t) && mid.signed_by_us(p) && p.msg_type
                                    == MsgType::NoiseHandshake && p.recipient == Some(mid.reachable()[fp@]@)
                                    && p.timestamp_ms == t && p.ttl == mid.config().spec_origin_ttl(
                                    mid.link_map().dom().len() as usize,
                                ) && p.payload == msg@;
                            assert(Self::flooded(*old(self), *self, p, t));
                        }
                    }
                },
                None => {},
            }
            return;
        }
        // Bind the encrypted channel to the peer's signed identity: the Noise remote static must
        // equal the X25519 key the peer announced. Otherwise it is a man-in-the-middle.
        let announced = match self.peer_static_dh.get(&fp) {
            Some(k) => Some(*k),
            None => None,
        };
        assert(announced == Self::announced_key(*old(self), fp@));
        let bound = keys_bind(remote, announced);
        if bound {
            let ghost pair = (remote->Some_0@, announced->Some_0@);
            let ghost ph = session.phase();
            let ghost b0 = self.bindings@;
            self.noise_sessions.insert(fp, session);
            self.bindings = Ghost(b0.insert(fp@, pair));
            proof {
                assert(all_bound(old(self).sessions(), self.bindings@)) by {
                    assert forall|k: Seq<u8>|
                        #[trigger] old(self).sessions().contains_key(k) && old(self).sessions()[k]
                            == Phase::Transport implies self.bindings@.contains_key(k)
                            && self.bindings@[k].0 == self.bindings@[k].1 by {
                        assert(k != fp@);
                    }
                }
                lemma_all_bound_insert(old(self).sessions(), self.bindings@, fp@, ph);
                assert(self.sessions() =~= old(self).sessions().insert(fp@, ph));
                assert(self.session_logs() =~= old(self).session_logs().insert(
                    fp@,
                    (session.transcript(), session.sealed(), session.opened()),
                ));
            }
        } else {
            proof {
                assert(old(self).sessions().remove(fp@) =~= old(self).sessions());
            }
        }
        match outbound {
            Some(msg) => self.send_directed(MsgType::NoiseHandshake, fp, msg),
            None => {},
        }
        if bound {
            self.finish_session(fp);
        } else {
            self.reject_session(fp);
        }
    }

    /// Drop everything held for a peer whose session failed the identity binding.
    fn reject_session(&mut self, fp: Fingerprint)
        requires
            old(self).wf(),
        ensures
            final(self).clock_value() == old(self).clock_value(),
            final(self).wf(),
            final(self).peer_records() == old(self).peer_records(),
            final(self).sessions() == old(self).sessions().remove(fp@),
            final(self).queued_dms() == old(self).queued_dms().remove(fp@),
            final(self).retry_attempts() == old(self).retry_attempts().remove(fp@),
            final(self).retry_last() == old(self).retry_last().remove(fp@),
            final(self).pending_events() == old(self).pending_events().push(
                MeshEvent::DmSession { peer_fp: fp, verified: false },
            ),
            final(self).link_map() == old(self).link_map(),
            final(self).pending_outbound() == old(self).pending_outbound(),
            final(self).reassembly() == old(self).reassembly(),
            final(self).scheduled() == old(self).scheduled(),
            final(self).rate_view() == old(self).rate_view(),
    {
        let ghost s0 = self.sessions();
        self.noise_sessions.remove(&fp);
        proof {
            lemma_all_bound_remove(s0, self.bindings@, fp@);
            assert(self.sessions() =~= s0.remove(fp@));
        }
        self.pending_dms.remove(&fp);
        self.handshake_last_ms.remove(&fp);
        self.handshake_attempts.remove(&fp);
        self.events.push(MeshEvent::DmSession { peer_fp: fp, verified: false });
    }

    /// A session bound to the peer's identity is ready: report it and drain the direct messages
    /// queued in both directions while it was being established.
    fn finish_session(&mut self, fp: Fingerprint)
        requires
            old(self).wf(),
            old(self).sessions().contains_key(fp@),
            old(self).sessions()[fp@] == Phase::Transport,
        ensures
            final(self).clock_value() == old(self).clock_value(),
            final(self).wf(),
            final(self).session_logs() == old(self).session_logs().insert(
                fp@,
                (
                    old(self).session_logs()[fp@].0,
                    old(self).session_logs()[fp@].1 + utf8_all(held_or_empty(old(self).queued_dms(), fp@)),
                    old(self).session_logs()[fp@].2 + held_or_empty(old(self).early_dms(), fp@),
                ),
            ),
            final(self).early_dms() == old(self).early_dms().remove(fp@),
            final(self).retry_attempts() == old(self).retry_attempts().remove(fp@),
            final(self).retry_last() == old(self).retry_last().remove(fp@),
            final(self).peer_records() == old(self).peer_records(),
            final(self).sessions() == old(self).sessions(),
            final(self).queued_dms() == old(self).queued_dms().remove(fp@),
            final(self).pending_events().len() > old(self).pending_events().len(),
            final(self).pending_events().take(old(self).pending_events().len() + 1 as int)
                == old(self).pending_events().push(MeshEvent::DmSession { peer_fp: fp, verified: true }),
            forall|i: int|
                old(self).pending_events().len() < i < final(self).pending_events().len()
                    ==> is_dm_from(#[trigger] final(self).pending_events()[i], fp),
            final(self).reassembly() == old(self).reassembly(),
            final(self).scheduled() == old(self).scheduled(),
            final(self).rate_view() == old(self).rate_view(),
    {
        self.handshake_last_ms.remove(&fp);
        self.handshake_attempts.remove(&fp);
        self.events.push(MeshEvent::DmSession { peer_fp: fp, verified: true });
        // Drain outbound DMs queued during the handshake.
        let pending = match self.pending_dms.remove(&fp) {
            Some(q) => q,
            None => Vec::new(),
        };
        let ghost pd1 = self.pending_dms;
        let ghost ev1 = self.pending_events();
        let ghost l0 = old(self).session_logs()[fp@];
        let ghost texts = held_or_empty(old(self).queued_dms(), fp@);
        let ghost ed0 = self.early_dms();
        assert(ev1 == old(self).pending_events().push(MeshEvent::DmSession { peer_fp: fp, verified: true }));
        assert(self.session_logs() == old(self).session_logs());
        assert(Seq::new(pending@.len(), |k: int| pending@[k]@) =~= texts);
        let mut i: usize = 0;
        while i < pending.len()
            invariant
                self.clock_value() == old(self).clock_value(),
                self.rate_view() == old(self).rate_view(),
                self.scheduled() == old(self).scheduled(),
                self.reassembly() == old(self).reassembly(),
                i <= pending@.len(),
                self.wf(),
                self.peer_records() == old(self).peer_records(),
                self.sessions() == old(self).sessions(),
                old(self).sessions().contains_key(fp@),
                old(self).sessions()[fp@] == Phase::Transport,
                self.pending_dms == pd1,
                self.retry_attempts() == old(self).retry_attempts().remove(fp@),
                self.retry_last() == old(self).retry_last().remove(fp@),
                self.pending_events() == ev1,
                self.early_dms() == ed0,
                texts.len() == pending@.len(),
                forall|k: int| 0 <= k < texts.len() ==> #[trigger] texts[k] == pending@[k]@,
                self.session_logs() == old(self).session_logs().insert(
                    fp@,
                    (l0.0, l0.1 + utf8_all(texts.take(i as int)), l0.2),
                ),
            decreases pending@.len() - i,
        {
            let ghost lb = self.session_logs();
            self.encrypt_and_send_dm(fp, pending[i].as_str());
            proof {
                assert(utf8_all(texts.take(i + 1)) =~= utf8_all(texts.take(i as int)).push(
                    vstd::utf8::encode_utf8(pending@[i as int]@),
                ));
                assert(self.session_logs() =~= old(self).session_logs().insert(
                    fp@,
                    (l0.0, l0.1 + utf8_all(texts.take(i + 1)), l0.2),
                ));
            }
            i = i + 1;
        }
        assert(texts.take(pending@.len() as int) =~= texts);
        // Drain inbound DMs that overtook the final handshake message.
        let inbound = match self.pending_inbound_dms.remove(&fp) {
            Some(q) => q,
            None => Vec::new(),
        };
        let ghost l1 = self.session_logs()[fp@];
        let ghost cts = held_or_empty(old(self).early_dms(), fp@);
        proof {
            assert(Seq::new(inbound@.len(), |k: int| inbound@[k]@) =~= cts);
            assert(self.early_dms() =~= old(self).early_dms().remove(fp@));
            assert(self.session_logs() == old(self).session_logs().insert(fp@, l1));
        }
        let mut j: usize = 0;
        while j < inbound.len()
            invariant
                self.clock_value() == old(self).clock_value(),
                self.rate_view() == old(self).rate_view(),
                self.scheduled() == old(self).scheduled(),
                self.reassembly() == old(self).reassembly(),
                j <= inbound@.len(),
                self.wf(),
                self.peer_records() == old(self).peer_records(),
                self.sessions() == old(self).sessions(),
                old(self).sessions().contains_key(fp@),
                old(self).sessions()[fp@] == Phase::Transport,
                self.early_dms() == old(self).early_dms().remove(fp@),
                cts.len() == inbound@.len(),
                forall|k: int| 0 <= k < cts.len() ==> #[trigger] cts[k] == inbound@[k]@,
                self.session_logs() == old(self).session_logs().insert(fp@, (l1.0, l1.1, l1.2 + cts.take(j as int))),
                self.pending_dms == pd1,
                self.retry_attempts() == old(self).retry_attempts().remove(fp@),
                self.retry_last() == old(self).retry_last().remove(fp@),
                self.pending_events().len() >= ev1.len(),
                self.pending_events().take(ev1.len() as int) == ev1,
                ev1.len() == old(self).pending_events().len() + 1,
                forall|k: int|
                    ev1.len() <= k < self.pending_events().len() ==> is_dm_from(#[trigger] self.pending_events()[k], fp),
            decreases inbound@.len() - j,
        {
            let ghost evb = self.pending_events();
            self.decrypt_and_emit(fp, inbound[j].as_slice());
            proof {
                assert(cts.take(j + 1) =~= cts.take(j as int).push(inbound@[j as int]@));
                assert(self.session_logs() =~= old(self).session_logs().insert(
                    fp@,
                    (l1.0, l1.1, l1.2 + cts.take(j + 1)),
                ));
                if self.pending_events() != evb {
                    assert(self.pending_events().drop_last() == evb);
                    assert(self.pending_events().take(ev1.len() as int) =~= evb.take(ev1.len() as int));
                    assert forall|k: int|
                        ev1.len() <= k < self.pending_events().len() implies is_dm_from(#[trigger] self.pending_events()[k], fp) by {
                        if k < evb.len() {
                            assert(self.pending_events()[k] == evb[k]);
                        }
                    }
                }
            }
            j = j + 1;
        }
        assert(self.pending_events().take(old(self).pending_events().len() + 1 as int) == ev1);
        assert(self.queued_dms() =~= old(self).queued_dms().remove(fp@));
        assert(cts.take(inbound@.len() as int) =~= cts);
    }

    fn encrypt_and_send_dm(&mut self, fp: Fingerprint, text: &str)
        requires
            old(self).wf(),
        ensures
            final(self).handshake_attempts == old(self).handshake_attempts,
            final(self).handshake_last_ms == old(self).handshake_last_ms,
            final(self).clock_value() == old(self).clock_value(),
            final(self).store == old(self).store,
            final(self).wf(),
            final(self).peer_records() == old(self).peer_records(),
            final(self).sessions() == old(self).sessions(),
            final(self).pending_dms == old(self).pending_dms,
            final(self).fp_to_eph == old(self).fp_to_eph,
            final(self).early_dms() == old(self).early_dms(),
            final(self).pending_events() == old(self).pending_events(),
            final(self).link_map() == old(self).link_map(),
            final(self).session_logs() == (if old(self).sessions().contains_key(fp@) && old(self).sessions()[fp@]
                == Phase::Transport {
                old(self).session_logs().insert(fp@, log_sealed(old(self).session_logs()[fp@], text.spec_bytes()))
            } else {
                old(self).session_logs()
            }),
            !(old(self).sessions().contains_key(fp@) && old(self).sessions()[fp@] == Phase::Transport)
                ==> final(self).pending_outbound() == old(self).pending_outbound() && final(self).seen_map()
                == old(self).seen_map(),
            (final(self).pending_outbound() == old(self).pending_outbound() && final(self).seen_map()
                == old(self).seen_map()) || exists|p: PacketModel, t: Millis|
                #[trigger] Self::flooded(*old(self), *final(self), p, t) && old(self).signed_by_us(p)
                    && p.msg_type == MsgType::DirectMessage && old(self).reachable().contains_key(fp@)
                    && p.recipient == Some(old(self).reachable()[fp@]@) && p.payload.len()
                    == text.spec_bytes().len() + crate::noise::TAG_LEN,
            final(self).reassembly() == old(self).reassembly(),
            final(self).scheduled() == old(self).scheduled(),
            final(self).rate_view() == old(self).rate_view(),
            final(self).announced_dh() == old(self).announced_dh(),
            final(self).eph_table() == old(self).eph_table(),
    {
        let ghost before = self.noise_sessions.view();
        let mut session = match self.noise_sessions.remove(&fp) {
            Some(s) => s,
            None => {
                assert(self.sessions() =~= old(self).sessions());
                return;
            },
        };
        let result = session.encrypt(text.as_bytes());
        self.noise_sessions.insert(fp, session);
        assert(self.sessions() =~= old(self).sessions());
        assert(self.session_logs() =~= (if old(self).sessions()[fp@] == Phase::Transport {
            old(self).session_logs().insert(fp@, log_sealed(old(self).session_logs()[fp@], text.spec_bytes()))
        } else {
            old(self).session_logs()
        }));
        match result {
            Ok(ciphertext) => {
                let ghost mid = *self;
                let ghost clen = ciphertext@.len();
                self.send_directed(MsgType::DirectMessage, fp, ciphertext);
                proof {
                    assert(mid.link_map() == old(self).link_map());
                    assert(mid.seen_map() == old(self).seen_map());
                    assert(mid.pending_outbound() == old(self).pending_outbound());
                    assert(mid.config() == old(self).config());
                    assert(mid.reachable() == old(self).reachable());
                    assert(mid.ident() == old(self).ident());
                    if mid.reachable().contains_key(fp@) {
                        let (p, t) = choose|p: PacketModel, t: Millis|
                            #[trigger] Self::flooded(mid, *self, p, t) && mid.signed_by_us(p) && p.msg_type
                                == MsgType::DirectMessage && p.recipient == Some(mid.reachable()[fp@]@)
                                && p.timestamp_ms == t && p.ttl == mid.config().spec_origin_ttl(
                                mid.link_map().dom().len() as usize,
                            ) && p.payload.len() == clen;
                        assert(Self::flooded(*old(self), *self, p, t));
                    }
                }
            },
            Err(_) => {},
        }
    }

    fn handle_direct_message(&mut self, pkt: &Packet)
        requires
            old(self).wf(),
        ensures
            final(self).clock_value() == old(self).clock_value(),
            final(self).wf(),
            final(self).peer_records() == old(self).peer_records(),
            final(self).sessions() == old(self).sessions(),
            final(self).link_map() == old(self).link_map(),
            final(self).pending_outbound() == old(self).pending_outbound(),
            pkt@.recipient != Some(old(self).ident().eph()) || !old(self).knows_eph(pkt@.sender)
                ==> final(self).pending_events() == old(self).pending_events() && final(self).early_dms()
                == old(self).early_dms(),
            pkt@.recipient == Some(old(self).ident().eph()) && old(self).knows_eph(pkt@.sender) ==> {
                let fp = old(self).peer_of(pkt@.sender);
                let held = if old(self).early_dms().contains_key(fp) {
                    old(self).early_dms()[fp]
                } else {
                    Seq::empty()
                };
                if old(self).sessions().contains_key(fp) && old(self).sessions()[fp] == Phase::Transport {
                    &&& final(self).early_dms() == old(self).early_dms()
                    &&& final(self).session_logs() == old(self).session_logs().insert(
                        fp,
                        log_opened(old(self).session_logs()[fp], pkt@.payload),
                    )
                    &&& (final(self).pending_events() == old(self).pending_events() || (
                        final(self).pending_events().drop_last() == old(self).pending_events()
                        && final(self).pending_events().len() == old(self).pending_events().len() + 1
                        && final(self).pending_events().last()->DmReceived_sender_fp@ == fp))
                } else {
                    &&& final(self).pending_events() == old(self).pending_events()
                    &&& final(self).early_dms() == old(self).early_dms().insert(
                        fp,
                        if held.len() < MAX_EARLY_DMS {
                            held.push(pkt@.payload)
                        } else {
                            held
                        },
                    )
                }
            },
            final(self).reassembly() == old(self).reassembly(),
            final(self).scheduled() == old(self).scheduled(),
            final(self).rate_view() == old(self).rate_view(),
    {
        match pkt.recipient {
            Some(r) => {
                if !crate::bytes::bytes_eq(&r, &self.identity.eph_id()) {
                    return;
                }
            },
            None => return,
        }
        let fp = match self.eph_to_fp(pkt.sender) {
            Some(fp) => fp,
            None => return,
        };
        if !self.session_ready(&fp) {
            // The DM overtook the final handshake message; hold it until the session is ready.
            let mut buf = match self.pending_inbound_dms.remove(&fp) {
                Some(b) => b,
                None => Vec::new(),
            };
            let ghost b0 = Seq::new(buf@.len(), |i: int| buf@[i]@);
            proof {
                let held = if old(self).early_dms().contains_key(fp@) {
                    old(self).early_dms()[fp@]
                } else {
                    Seq::empty()
                };
                assert(b0 =~= held);
            }
            if buf.len() < MAX_EARLY_DMS {
                buf.push(copy_bytes(pkt.payload.as_slice()));
                assert(Seq::new(buf@.len(), |i: int| buf@[i]@) =~= b0.push(pkt@.payload));
            }
            self.pending_inbound_dms.insert(fp, buf);
            assert(self.early_dms() =~= old(self).early_dms().insert(fp@, Seq::new(buf@.len(), |i: int| buf@[i]@)));
            return;
        }
        self.decrypt_and_emit(fp, pkt.payload.as_slice());
    }

    fn decrypt_and_emit(&mut self, fp: Fingerprint, ciphertext: &[u8])
        requires
            old(self).wf(),
        ensures
            final(self).handshake_attempts == old(self).handshake_attempts,
            final(self).handshake_last_ms == old(self).handshake_last_ms,
            final(self).clock_value() == old(self).clock_value(),
            final(self).wf(),
            final(self).peer_records() == old(self).peer_records(),
            final(self).sessions() == old(self).sessions(),
            final(self).pending_dms == old(self).pending_dms,
            final(self).link_map() == old(self).link_map(),
            final(self).pending_outbound() == old(self).pending_outbound(),
            final(self).early_dms() == old(self).early_dms(),
            final(self).session_logs() == (if old(self).sessions().contains_key(fp@) && old(self).sessions()[fp@]
                == Phase::Transport {
                old(self).session_logs().insert(fp@, log_opened(old(self).session_logs()[fp@], ciphertext@))
            } else {
                old(self).session_logs()
            }),
            final(self).pending_events() == old(self).pending_events() || ({
                &&& old(self).sessions().contains_key(fp@)
                &&& old(self).sessions()[fp@] == Phase::Transport
                &&& final(self).pending_events().len() == old(self).pending_events().len() + 1
                &&& final(self).pending_events().drop_last() == old(self).pending_events()
                &&& is_dm_from(final(self).pending_events().last(), fp)
                &&& old(self).reachable().contains_key(fp@) ==> final(self).pending_events().last()->DmReceived_from_eph
                    == old(self).reachable()[fp@]
            }),
            final(self).pending_events() == old(self).pending_events() <==> final(self).session_plaintexts()
                == old(self).session_plaintexts(),
            final(self).pending_events() != old(self).pending_events() ==> {
                let pts = final(self).session_plaintexts()[fp@];
                &&& old(self).session_plaintexts().contains_key(fp@)
                &&& final(self).session_plaintexts() == old(self).session_plaintexts().insert(fp@, pts)
                &&& pts.len() == old(self).session_plaintexts()[fp@].len() + 1
                &&& pts.drop_last() == old(self).session_plaintexts()[fp@]
                &&& final(self).pending_events().last()->DmReceived_text@ == utf8_lossy(pts.last())
            },
            final(self).reassembly() == old(self).reassembly(),
            final(self).scheduled() == old(self).scheduled(),
            final(self).rate_view() == old(self).rate_view(),
    {
        let mut session = match self.noise_sessions.remove(&fp) {
            Some(s) => s,
            None => {
                assert(self.sessions() =~= old(self).sessions());
                assert(self.session_plaintexts() =~= old(self).session_plaintexts());
                return;
            },
        };
        let ghost pts0 = session.recovered();
        let result = session.decrypt(ciphertext);
        let ghost pts1 = session.recovered();
        self.noise_sessions.insert(fp, session);
        assert(self.sessions() =~= old(self).sessions());
        assert(old(self).session_plaintexts().contains_key(fp@) && old(self).session_plaintexts()[fp@] == pts0);
        assert(self.session_plaintexts() =~= old(self).session_plaintexts().insert(fp@, pts1));
        assert(self.session_logs() =~= (if old(self).sessions()[fp@] == Phase::Transport {
            old(self).session_logs().insert(fp@, log_opened(old(self).session_logs()[fp@], ciphertext@))
        } else {
            old(self).session_logs()
        }));
        let plaintext = match result {
            Ok(p) => p,
            Err(_) => {
                assert(self.session_plaintexts() =~= old(self).session_plaintexts());
                return;
            },
        };
        let from_eph = match self.fp_to_eph.get(&fp) {
            Some(e) => *e,
            None => [0u8; 8],
        };
        let text = from_utf8_lossy(plaintext.as_slice());
        self.events.push(MeshEvent::DmReceived { sender_fp: fp, from_eph, text });
        proof {
            assert(pts1 == pts0.push(plaintext@));
            assert(pts1.drop_last() =~= pts0);
            assert(self.session_plaintexts()[fp@] == pts1);
            assert(self.session_plaintexts()[fp@].len() != old(self).session_plaintexts()[fp@].len());
            assert(self.pending_events().len() != old(self).pending_events().len());
        }
    }

    /// Build, sign, and flood a directed packet (DM or handshake) toward `peer_fp`'s current eph.
    fn send_directed(&mut self, msg_type: MsgType, peer_fp: Fingerprint, payload: Vec<u8>)
        requires
            old(self).wf(),
        ensures
            final(self).handshake_attempts == old(self).handshake_attempts,
            final(self).handshake_last_ms == old(self).handshake_last_ms,
            final(self).clock_value() == old(self).clock_value(),
            final(self).store == old(self).store,
            final(self).wf(),
            final(self).peer_records() == old(self).peer_records(),
            final(self).pending_events() == old(self).pending_events(),
            final(self).link_map() == old(self).link_map(),
            final(self).noise_sessions == old(self).noise_sessions,
            final(self).relays_fired == old(self).relays_fired,
            final(self).pending_dms == old(self).pending_dms,
            final(self).pending_inbound_dms == old(self).pending_inbound_dms,
            final(self).fp_to_eph == old(self).fp_to_eph,
            final(self).scheduler == old(self).scheduler,
            !old(self).reachable().contains_key(peer_fp@) ==> *final(self) == *old(self),
            old(self).reachable().contains_key(peer_fp@) ==> exists|p: PacketModel, t: Millis|
                #[trigger] Self::flooded(*old(self), *final(self), p, t) && old(self).signed_by_us(p)
                    && p.msg_type == msg_type && p.recipient == Some(old(self).reachable()[peer_fp@]@)
                    && p.timestamp_ms == t && p.ttl == old(self).config().spec_origin_ttl(
                    old(self).link_map().dom().len() as usize,
                ) && p.payload == payload@,
            final(self).reassembly() == old(self).reassembly(),
            final(self).scheduled() == old(self).scheduled(),
            final(self).rate_view() == old(self).rate_view(),
            final(self).announced_dh() == old(self).announced_dh(),
            final(self).eph_table() == old(self).eph_table(),
    {
        let recipient = match self.fp_to_eph.get(&peer_fp) {
            Some(e) => *e,
            None => return,  // we don't know where this peer is right now
        };
        let now = self.clock.now_ms();
        let ttl = self.cfg.origin_ttl(self.links.len());
        let mut pkt = Packet::new(msg_type, ttl, now, self.identity.eph_id(), Some(recipient), payload);
        pkt.sign(self.identity.signing_key());
        let ghost pre = *self;
        self.seen.observe(pkt.digest(), now);
        let ghost mid = *self;
        self.broadcast(&pkt, None);
        proof {
            assert(mid.link_map() == pre.link_map());
            assert(mid.pending_outbound() == pre.pending_outbound());
            assert(self.seen_map() == mid.seen_map());
            assert(pre.seen.config() == pre.cfg);
        }
        assert(Self::flooded(*old(self), *self, pkt@, now));
    }

    // --- transport plumbing ---

    /// Feed one platform event. A new link is greeted with our announce and a sync request per
    /// channel; a dropped link is forgotten and reported; a frame is reassembled, decoded, deduped,
    /// rate-limited, handled and considered for relay. A frame that completes a packet already
    /// seen changes no UI event and schedules no relay: every message is delivered at most once.
    /// A packet of a type the node does not handle is never parsed: it is at most relayed.
    pub fn on_transport_event(&mut self, ev: TransportEvent)
        requires
            old(self).wf(),
        ensures
            final(self).clock_value() == old(self).clock_value(),
            final(self).wf(),
            decisions_kept(old(self).peer_records(), final(self).peer_records()),
            ev matches TransportEvent::LinkUp { link, mtu, .. } ==> final(self).link_map()
                == old(self).link_map().insert(link, LinkState { mtu, peer_eph: None, peer_fp: None })
                && final(self).pending_events() == old(self).pending_events(),
            ev matches TransportEvent::LinkDown { link } ==> final(self).link_map()
                == old(self).link_map().remove(link) && final(self).pending_events()
                == old(self).pending_events().push(MeshEvent::PeerLost { link }),
            ev matches TransportEvent::MtuChanged { link, mtu } ==> final(self).pending_events()
                == old(self).pending_events() && (old(self).link_map().contains_key(link)
                ==> final(self).link_map() == old(self).link_map().insert(
                link,
                LinkState { mtu, ..old(self).link_map()[link] },
            )) && (!old(self).link_map().contains_key(link) ==> final(self).link_map()
                == old(self).link_map()),
            ev matches TransportEvent::FrameReceived { link, frame } ==> ({
                let (_, got) = spec_ingest(
                    old(self).reassembly(),
                    old(self).config().reassembly_slots as nat,
                    old(self).config().reassembly_max_bytes as nat,
                    frame@,
                    0,
                );
                &&& (got matches Ok(Some(bytes)) && spec_decode(bytes) matches Ok(p)
                    && old(self).seen_map().contains_key(be_u64_of(p.digest()))
                    ==> final(self).pending_events() == old(self).pending_events()
                    && final(self).scheduled() == old(self).scheduled())
                &&& (got matches Ok(Some(bytes)) && spec_decode(bytes) matches Ok(p)
                    && !handled_type(p.msg_type) ==> final(self).pending_events()
                    == old(self).pending_events() && final(self).peer_records()
                    == old(self).peer_records() && final(self).sessions() == old(self).sessions())
                &&& match got {
                    Ok(Some(bytes)) => match spec_decode(bytes) {
                        Ok(p) => if old(self).seen_map().contains_key(be_u64_of(p.digest())) {
                            Self::duplicate_outcome(*old(self), *final(self), p)
                        } else {
                            Self::new_packet_outcome(*old(self), *final(self), p, link)
                        },
                        Err(_) => true,
                    },
                    _ => true,
                }
                &&& exists|t: Millis|
                    final(self).reassembly() == #[trigger] spec_ingest(
                        old(self).reassembly(),
                        old(self).config().reassembly_slots as nat,
                        old(self).config().reassembly_max_bytes as nat,
                        frame@,
                        t,
                    ).0
            }),
    {
        match ev {
            TransportEvent::LinkUp { link, mtu, .. } => {
                self.links.insert(link, LinkState { mtu, peer_eph: None, peer_fp: None });
                let ghost lm = self.links@;
                // Greet the new neighbour so they can verify our future traffic.
                self.announce();
                self.send_sync_requests(link);
                assert(self.links@ == lm);
            },
            TransportEvent::MtuChanged { link, mtu } => {
                match self.links.get(&link) {
                    Some(l) => {
                        let updated = LinkState { mtu, ..*l };
                        self.links.insert(link, updated);
                    },
                    None => {},
                }
            },
            TransportEvent::LinkDown { link } => {
                self.links.remove(&link);
                self.events.push(MeshEvent::PeerLost { link });
            },
            TransportEvent::FrameReceived { link, frame } => {
                self.on_frame(link, frame.as_slice());
            },
        }
    }

    /// What one tick did to the rebroadcast schedule, with the clock reading `t`: every
    /// rebroadcast due at `t` left the schedule; those still under the suppression threshold,
    /// the keys `ks`, each went out once and were counted (saturating).
    pub open spec fn tick_released(before: Self, after: Self, t: Millis, ks: Seq<u64>) -> bool {
        &&& after.scheduled() == before.scheduled().restrict(
            before.scheduled().dom().filter(|k: u64| !is_due(before.scheduled(), k, t)),
        )
        &&& ks.no_duplicates()
        &&& forall|k: u64|
            #[trigger] ks.contains(k) <==> is_released(
                before.scheduled(),
                before.seen_map(),
                before.config().suppression_threshold,
                k,
                t,
            )
        &&& after.relay_count() == (if before.relay_count() + ks.len() > u64::MAX {
            u64::MAX as int
        } else {
            before.relay_count() + ks.len()
        })
    }

    /// Advance timers: release due rebroadcasts, evict stale state, re-drive stalled handshakes.
    /// Returns the delay (ms) until the next wake, which the platform uses to set its timer.
    pub fn tick(&mut self) -> (next_ms: Millis)
        requires
            old(self).wf(),
        ensures
            final(self).clock_value() == old(self).clock_value(),
            final(self).wf(),
            final(self).peer_records() == old(self).peer_records(),
            next_ms == TICK_MS,
            final(self).pending_events() == old(self).pending_events(),
            final(self).link_map() == old(self).link_map(),
            final(self).relay_count() >= old(self).relay_count(),
            exists|t: Millis, ks: Seq<u64>| #[trigger] Self::tick_released(*old(self), *final(self), t, ks),
    {
        let now = self.clock.now_ms();
        let due = self.scheduler.due(now, &self.seen);
        let ghost sched_after = self.scheduler;
        let mut i: usize = 0;
        while i < due.len()
            invariant
                self.clock_value() == old(self).clock_value(),
                i <= due@.len(),
                self.wf(),
                self.events == old(self).events,
                self.links == old(self).links,
                self.peer_records() == old(self).peer_records(),
                self.relays_fired >= old(self).relays_fired,
                self.scheduler == sched_after,
                self.relays_fired == (if old(self).relays_fired + i > u64::MAX {
                    u64::MAX as int
                } else {
                    old(self).relays_fired + i
                }),
            decreases due@.len() - i,
        {
            self.relays_fired = self.relays_fired.saturating_add(1);
            self.broadcast(&due[i].packet, Some(due[i].exclude_link));
            i = i + 1;
        }
        self.seen.evict_expired(now);
        self.reassembler.evict_expired(now);
        self.retry_stalled_handshakes(now);
        proof {
            let m0 = old(self).scheduler.view_map();
            let seen0 = old(self).seen.view_map();
            let thr = old(self).scheduler.config().suppression_threshold;
            let w = choose|ks: Seq<u64>|
                {
                    &&& ks.len() == due@.len()
                    &&& ks.no_duplicates()
                    &&& forall|i: int|
                        0 <= i < ks.len() ==> is_released(m0, seen0, thr, #[trigger] ks[i], now)
                            && due@[i].packet@ == m0[ks[i]].packet && due@[i].exclude_link
                            == m0[ks[i]].exclude_link
                    &&& forall|k: u64| is_released(m0, seen0, thr, k, now) ==> #[trigger] ks.contains(k)
                };
            assert forall|k: u64| #[trigger] w.contains(k) <==> is_released(m0, seen0, thr, k, now) by {
                if w.contains(k) {
                    let i = choose|i: int| 0 <= i < w.len() && w[i] == k;
                    assert(is_released(m0, seen0, thr, w[i], now));
                }
            }
            assert(Self::tick_released(*old(self), *self, now, w));
        }
        TICK_MS
    }

    /// Re-drive Noise handshakes that have not completed: the recipient may not have held our
    /// announce when our first handshake arrived (and would silently have dropped it).
    fn retry_stalled_handshakes(&mut self, now: Millis)
        requires
            old(self).wf(),
        ensures
            final(self).clock_value() == old(self).clock_value(),
            final(self).wf(),
            final(self).peer_records() == old(self).peer_records(),
            final(self).relays_fired == old(self).relays_fired,
            final(self).pending_events() == old(self).pending_events(),
            final(self).link_map() == old(self).link_map(),
            final(self).scheduler == old(self).scheduler,
            forall|fp: Seq<u8>|
                !old(self).stalled(fp, now) ==> #[trigger] session_kept(old(self).sessions(), final(self).sessions(), fp),
            forall|fp: Seq<u8>|
                old(self).stalled(fp, now) ==> !#[trigger] final(self).sessions().contains_key(fp)
                    || final(self).sessions()[fp] == Phase::Handshake,
    {
        let candidates = self.handshake_attempts.keys();
        proof {
            self.handshake_attempts.law_keys_cover_domain();
        }
        let mut stalled: Vec<Fingerprint> = Vec::new();
        let mut i: usize = 0;
        while i < candidates.len()
            invariant
                self.clock_value() == old(self).clock_value(),
                i <= candidates@.len(),
                self.wf(),
                self.peer_records() == old(self).peer_records(),
                *self == *old(self),
                views32(candidates@) == old(self).handshake_attempts.key_order(),
                forall|k: Seq<u8>|
                    old(self).handshake_attempts.view().contains_key(k) <==> #[trigger] old(self).handshake_attempts.key_order().contains(k),
                forall|k: Seq<u8>|
                    #![trigger fp_listed(stalled@, stalled@.len() as int, k)]
                    #![trigger fp_listed(candidates@, i as int, k)]
                    fp_listed(stalled@, stalled@.len() as int, k) <==> fp_listed(candidates@, i as int, k)
                        && old(self).stalled(k, now),
            decreases candidates@.len() - i,
        {
            let ghost st0 = stalled@;
            let fp = candidates[i];
            let ready = self.session_ready(&fp);
            let reachable = self.fp_to_eph.contains_key(&fp);
            let attempts = match self.handshake_attempts.get(&fp) {
                Some(a) => *a,
                None => 0,
            };
            let last = match self.handshake_last_ms.get(&fp) {
                Some(t) => *t,
                None => 0,
            };
            if !ready && reachable && attempts < DM_HANDSHAKE_MAX_ATTEMPTS && now.saturating_sub(last)
                >= DM_HANDSHAKE_RETRY_MS {
                stalled.push(fp);
            }
            proof {
                assert(views32(candidates@)[i as int] == fp@);
                assert(old(self).handshake_attempts.key_order()[i as int] == fp@);
                assert(old(self).handshake_attempts.key_order().contains(fp@));
                assert(now.saturating_sub(last) == (if now >= last { now - last } else { 0 }));
                assert forall|k: Seq<u8>|
                    #![trigger fp_listed(stalled@, stalled@.len() as int, k)]
                    #![trigger fp_listed(candidates@, i + 1, k)]
                    fp_listed(stalled@, stalled@.len() as int, k) <==> fp_listed(candidates@, i + 1, k)
                        && old(self).stalled(k, now) by {
                    assert(fp_listed(st0, st0.len() as int, k) <==> fp_listed(candidates@, i as int, k)
                        && old(self).stalled(k, now));
                    if fp_listed(stalled@, stalled@.len() as int, k) {
                        let q = choose|q: int| 0 <= q < stalled@.len() && #[trigger] stalled@[q]@ == k;
                        if q < st0.len() {
                            assert(st0[q]@ == k);
                            assert(fp_listed(st0, st0.len() as int, k));
                            let r = choose|r: int| 0 <= r < i && #[trigger] candidates@[r]@ == k;
                            assert(candidates@[r]@ == k);
                        } else {
                            assert(candidates@[i as int]@ == k);
                        }
                    }
                    if fp_listed(candidates@, i + 1, k) && old(self).stalled(k, now) {
                        let r = choose|r: int| 0 <= r < i + 1 && #[trigger] candidates@[r]@ == k;
                        if r < i {
                            assert(fp_listed(candidates@, i as int, k));
                            let q = choose|q: int| 0 <= q < st0.len() && #[trigger] st0[q]@ == k;
                            assert(stalled@[q]@ == k);
                        } else {
                            assert(stalled@[st0.len() as int]@ == k);
                        }
                    }
                }
            }
            i = i + 1;
        }
        proof {
            assert forall|k: Seq<u8>| old(self).stalled(k, now) implies fp_listed(stalled@, stalled@.len() as int, k) by {
                assert(old(self).handshake_attempts.key_order().contains(k));
                let r = choose|r: int| 0 <= r < old(self).handshake_attempts.key_order().len() && old(self).handshake_attempts.key_order()[r] == k;
                assert(views32(candidates@)[r] == candidates@[r]@);
                assert(fp_listed(candidates@, candidates@.len() as int, k));
            }
        }
        let mut j: usize = 0;
        while j < stalled.len()
            invariant
                self.clock_value() == old(self).clock_value(),
                j <= stalled@.len(),
                self.wf(),
                self.pending_events() == old(self).pending_events(),
                self.link_map() == old(self).link_map(),
                self.peer_records() == old(self).peer_records(),
                self.relays_fired == old(self).relays_fired,
                self.scheduler == old(self).scheduler,
                forall|k: Seq<u8>| #[trigger] fp_listed(stalled@, stalled@.len() as int, k) <==> old(self).stalled(k, now),
                forall|k: Seq<u8>|
                    !fp_listed(stalled@, j as int, k) ==> #[trigger] session_kept(old(self).sessions(), self.sessions(), k),
                forall|k: Seq<u8>|
                    fp_listed(stalled@, j as int, k) ==> !#[trigger] self.sessions().contains_key(k)
                        || self.sessions()[k] == Phase::Handshake,
            decreases stalled@.len() - j,
        {
            let ghost sj = self.sessions();
            let ghost cur = stalled@[j as int]@;
            // Restart the XX exchange cleanly; the responder recreates its half on the next first
            // message it can identify.
            let ghost s0 = self.sessions();
            self.noise_sessions.remove(&stalled[j]);
            proof {
                lemma_all_bound_remove(s0, self.bindings@, stalled@[j as int]@);
                assert(self.sessions() =~= s0.remove(stalled@[j as int]@));
            }
            self.begin_handshake(stalled[j]);
            proof {
                assert forall|k: Seq<u8>|
                    !fp_listed(stalled@, j + 1, k) implies #[trigger] session_kept(old(self).sessions(), self.sessions(), k) by {
                    assert(session_kept(old(self).sessions(), sj, k));
                    assert(k != cur) by {
                        if k == cur {
                            assert(stalled@[j as int]@ == k);
                        }
                    }
                    if fp_listed(stalled@, j as int, k) {
                        let q = choose|q: int| 0 <= q < j && #[trigger] stalled@[q]@ == k;
                        assert(fp_listed(stalled@, j + 1, k));
                    }
                }
                assert forall|k: Seq<u8>|
                    fp_listed(stalled@, j + 1, k) implies !#[trigger] self.sessions().contains_key(k)
                        || self.sessions()[k] == Phase::Handshake by {
                    if k != cur {
                        let q = choose|q: int| 0 <= q < j + 1 && #[trigger] stalled@[q]@ == k;
                        assert(q < j);
                        assert(fp_listed(stalled@, j as int, k));
                    }
                }
            }
            j = j + 1;
        }
        proof {
            assert forall|k: Seq<u8>| !old(self).stalled(k, now) implies #[trigger] session_kept(old(self).sessions(), self.sessions(), k) by {
                assert(j == stalled@.len());
                assert(!fp_listed(stalled@, stalled@.len() as int, k));
                assert(!fp_listed(stalled@, j as int, k));
            }
            assert forall|k: Seq<u8>| old(self).stalled(k, now) implies !#[trigger] self.sessions().contains_key(k)
                    || self.sessions()[k] == Phase::Handshake by {
                assert(fp_listed(stalled@, stalled@.len() as int, k));
            }
        }
    }

    fn on_frame(&mut self, link: LinkId, frame: &[u8])
        requires
            old(self).wf(),
        ensures
            final(self).clock_value() == old(self).clock_value(),
            final(self).wf(),
            decisions_kept(old(self).peer_records(), final(self).peer_records()),
            ({
                let (_, got) = spec_ingest(
                    old(self).reassembly(),
                    old(self).config().reassembly_slots as nat,
                    old(self).config().reassembly_max_bytes as nat,
                    frame@,
                    0,
                );
                &&& (got matches Ok(Some(bytes)) && spec_decode(bytes) matches Ok(p)
                    && old(self).seen_map().contains_key(be_u64_of(p.digest()))
                    ==> final(self).pending_events() == old(self).pending_events()
                    && final(self).scheduled() == old(self).scheduled())
                &&& (got matches Ok(Some(bytes)) && spec_decode(bytes) matches Ok(p)
                    && !handled_type(p.msg_type) ==> final(self).pending_events()
                    == old(self).pending_events() && final(self).peer_records()
                    == old(self).peer_records() && final(self).sessions() == old(self).sessions())
                &&& match got {
                    Ok(Some(bytes)) => match spec_decode(bytes) {
                        Ok(p) => if old(self).seen_map().contains_key(be_u64_of(p.digest())) {
                            Self::duplicate_outcome(*old(self), *final(self), p)
                        } else {
                            Self::new_packet_outcome(*old(self), *final(self), p, link)
                        },
                        Err(_) => true,
                    },
                    _ => true,
                }
            }),
            exists|t: Millis|
                final(self).reassembly() == #[trigger] spec_ingest(
                    old(self).reassembly(),
                    old(self).config().reassembly_slots as nat,
                    old(self).config().reassembly_max_bytes as nat,
                    frame@,
                    t,
                ).0,
    {
        let now = self.clock.now_ms();
        proof {
            crate::frag::lemma_ingest_result_timeless(
                self.reassembler.view_slots(),
                self.cfg.reassembly_slots as nat,
                self.cfg.reassembly_max_bytes as nat,
                frame@,
                now,
                0,
            );
        }
        let ingested = self.reassembler.ingest(frame, now);
        proof {
            assert(self.reassembly() == spec_ingest(
                old(self).reassembly(),
                old(self).config().reassembly_slots as nat,
                old(self).config().reassembly_max_bytes as nat,
                frame@,
                now,
            ).0);
        }
        let packet_bytes = match ingested {
            Ok(Some(bytes)) => bytes,
            Ok(None) => return,
            Err(_) => return,  // malformed framing: drop, never panic
        };
        let pkt = match Packet::decode(packet_bytes.as_slice()) {
            Ok(p) => p,
            Err(_) => return,
        };
        let ghost pm = pkt@;
        let ghost s0 = *self;
        // Link-local identity tag: a SyncRequest is sent TTL=1 directly on the link and is never
        // relayed, so its sender is our direct neighbour. Tag before dedup, because the identical
        // per-link SyncRequests share a digest.
        if pkt.msg_type == MsgType::SyncRequest {
            self.note_link_identity(link, pkt.sender);
        }
        // Dedup: a message that arrives many times (relayed copies, or redundant links) is handled
        // once. observe() still bumps the suppression counter for every copy.
        let digest = pkt.digest();
        let ghost s1 = *self;
        proof {
            assert(s1.seen_map() == old(self).seen_map());
            assert(s1.seen.config() == s1.cfg);
        }
        let obs = self.seen.observe(digest, now);
        if !obs.is_new {
            proof {
                assert(old(self).seen_map().contains_key(be_u64_of(pm.digest())));
                assert(s1.config() == old(self).config());
                assert(self.seen_map() == crate::relay::spec_observe(
                    old(self).seen_map(),
                    old(self).config().seen_cache_capacity,
                    be_u64_of(pm.digest()),
                    now,
                ).0);
                assert(self.sessions() == old(self).sessions());
                assert(self.store_value() == old(self).store_value());
                assert(self.rate_view() == old(self).rate_view());
                assert(self.peer_records() == old(self).peer_records());
                assert(self.pending_events() == old(self).pending_events());
                assert(self.scheduled() == old(self).scheduled());
                assert(Self::duplicate_outcome(*old(self), *self, pm));
            }
            return;  // duplicate — already processed
        }
        // Rate-limit distinct messages by originating identity. Doing this after dedup means
        // duplicates are free, so redundant links cannot falsely greylist a well-behaved peer.
        let ghost s2 = *self;
        proof {
            assert(!old(self).seen_map().contains_key(be_u64_of(pm.digest())));
            assert(s2.rate_view() == old(self).rate_view());
            assert(s2.rate.config() == s2.cfg);
        }
        if !self.rate.allow(pkt.sender, now) {
            proof {
                assert(Self::admitted_outcome(*old(self), *self, pm, link, now));
            }
            return;
        }
        let ghost s3 = *self;
        match pkt.msg_type {
            MsgType::Announce => self.handle_announce(&pkt),
            MsgType::ChannelMessage => self.handle_channel(&pkt),
            MsgType::SyncRequest => self.handle_sync_request(link, &pkt),
            MsgType::NoiseHandshake => self.handle_noise_handshake(&pkt),
            MsgType::DirectMessage => self.handle_direct_message(&pkt),
            _ => {},  // unknown/other: relayed below, not parsed
        }
        let ghost s4 = *self;
        self.maybe_relay(link, pkt);
        proof {
            assert(s3.scheduled() == old(self).scheduled());
            assert(s4.scheduled() == s3.scheduled());
            if pm.msg_type is ChannelMessage {
                assert(Self::channel_outcome(s3, s4, pm));
                assert(s3.config() == old(self).config());
                assert(s3.subscriptions() == old(self).subscriptions());
                assert(s3.eph_table() == old(self).eph_table());
                assert(s3.pending_events() == old(self).pending_events());
                assert(Self::channel_outcome(*old(self), *self, pm));
            }
            if pm.msg_type is DirectMessage {
                assert(s3.sessions() == old(self).sessions());
                assert(s3.session_logs() == old(self).session_logs());
                assert(s3.pending_events() == old(self).pending_events());
                assert(s3.early_dms() == old(self).early_dms());
                assert(s3.ident() == old(self).ident());
                assert(s3.eph_keys == old(self).eph_keys);
                assert(self.session_logs() == s4.session_logs());
                assert(self.early_dms() == s4.early_dms());
                assert(Self::dm_outcome(*old(self), *self, pm));
            }
            if pm.msg_type is NoiseHandshake {
                assert(Self::handshake_outcome(s3, s4, pm));
                assert(s3.sessions() == old(self).sessions());
                assert(s3.session_logs() == old(self).session_logs());
                assert(s3.pending_events() == old(self).pending_events());
                assert(s3.ident() == old(self).ident());
                assert(s3.eph_keys == old(self).eph_keys);
                assert(self.session_logs() == s4.session_logs());
                assert(Self::handshake_outcome(*old(self), *self, pm));
            }
            if pm.msg_type is Announce {
                assert(Self::announce_outcome(s3, s4, pm));
                assert(s3.pending_events() == old(self).pending_events());
                assert(s3.store_value() == old(self).store_value());
                assert(s3.sessions() == old(self).sessions());
                assert(s3.session_logs() == old(self).session_logs());
                assert(s3.queued_dms() == old(self).queued_dms());
                assert(self.session_logs() == s4.session_logs());
                assert(self.queued_dms() == s4.queued_dms());
                assert(s3.link_map() == old(self).link_map());
                assert(s3.pending_outbound() == old(self).pending_outbound());
                assert(s3.eph_table() == old(self).eph_table());
                assert(s3.announced_dh() == old(self).announced_dh());
                assert(self.link_map() == s4.link_map());
                assert(self.pending_outbound() == s4.pending_outbound());
                assert(s3.reachable() == old(self).reachable());
                assert(s3.peer_records() == old(self).peer_records());
                assert(Self::announce_outcome(*old(self), *self, pm));
            }
            assert(Self::admitted_outcome(*old(self), *self, pm, link, now));
        }
    }

    fn maybe_relay(&mut self, arrived_link: LinkId, pkt: Packet)
        requires
            old(self).wf(),
        ensures
            final(self).links == old(self).links,
            final(self).outbound == old(self).outbound,
            final(self).clock_value() == old(self).clock_value(),
            final(self).pending_inbound_dms == old(self).pending_inbound_dms,
            final(self).pending_dms == old(self).pending_dms,
            final(self).noise_sessions == old(self).noise_sessions,
            final(self).wf(),
            final(self).peer_records() == old(self).peer_records(),
            final(self).pending_events() == old(self).pending_events(),
            final(self).sessions() == old(self).sessions(),
            final(self).reassembly() == old(self).reassembly(),
            pkt.ttl <= 1 ==> final(self).scheduled() == old(self).scheduled(),
            Self::relay_outcome(old(self).scheduled(), final(self).scheduled(), pkt@, arrived_link, old(self).config()),
            final(self).reachable() == old(self).reachable(),
            final(self).store_value() == old(self).store_value(),
            final(self).rate_view() == old(self).rate_view(),
            final(self).announced_dh() == old(self).announced_dh(),
            final(self).eph_table() == old(self).eph_table(),
            final(self).config() == old(self).config(),
            final(self).subscriptions() == old(self).subscriptions(),
    {
        if pkt.ttl <= 1 {
            return;  // no hops left
        }
        let degree = self.links.len();
        if !should_relay(degree, &self.cfg, &mut self.rng).0 {
            return;
        }
        let mut pkt = pkt;
        let ghost p0 = pkt@;
        pkt.ttl = pkt.ttl - 1;
        assert(pkt@ == PacketModel { ttl: (p0.ttl - 1) as u8, ..p0 });
        let delay = relay_delay(&self.cfg, &mut self.rng);
        let now = self.clock.now_ms();
        let digest = pkt.digest();
        let ghost pv = pkt@;
        self.scheduler.schedule(digest, pkt, arrived_link, delay, now);
        proof {
            let pm = crate::relay::PendingModel { packet: pv, send_at_ms: crate::relay::sat_add(now, delay), exclude_link: arrived_link };
            if !old(self).scheduled().contains_key(be_u64_of(pv.digest())) {
                assert(self.scheduled() == old(self).scheduled().insert(be_u64_of(pv.digest()), pm));
                assert(in_jitter(old(self).config(), delay));
            }
        }
    }

    /// Record which peer a link reaches, then drop redundant links to the same identity.
    fn note_link_identity(&mut self, link: LinkId, eph: EphId)
        requires
            old(self).wf(),
        ensures
            final(self).clock_value() == old(self).clock_value(),
            final(self).pending_dms == old(self).pending_dms,
            final(self).noise_sessions == old(self).noise_sessions,
            final(self).wf(),
            final(self).peer_records() == old(self).peer_records(),
            final(self).pending_events() == old(self).pending_events(),
            final(self).scheduled() == old(self).scheduled(),
            final(self).seen_map() == old(self).seen_map(),
            final(self).reassembly() == old(self).reassembly(),
            final(self).config() == old(self).config(),
            forall|k: LinkId| #[trigger] final(self).link_map().contains_key(k) ==> old(self).link_map().contains_key(k),
            final(self).link_map().contains_key(link) ==> final(self).link_map()[link].peer_eph == Some(eph),
            forall|a: LinkId, b: LinkId|
                #![trigger final(self).link_map()[a], final(self).link_map()[b]]
                final(self).link_map().contains_key(a) && final(self).link_map().contains_key(b) && a != b
                    && final(self).link_map()[a].peer_fp is Some && final(self).link_map()[b].peer_fp is Some
                    ==> final(self).link_map()[a].peer_fp->Some_0@ != final(self).link_map()[b].peer_fp->Some_0@,
            final(self).pending_closes().take(old(self).pending_closes().len() as int) == old(self).pending_closes(),
            final(self).pending_closes().len() >= old(self).pending_closes().len(),
            forall|k: LinkId|
                old(self).link_map().contains_key(k) && !final(self).link_map().contains_key(k)
                    <==> #[trigger] final(self).pending_closes().skip(old(self).pending_closes().len() as int).contains(k),
            final(self).scheduled() == old(self).scheduled(),
            final(self).rate_view() == old(self).rate_view(),
            final(self).store_value() == old(self).store_value(),
            final(self).sessions() == old(self).sessions(),
    {
        match self.links.get(&link) {
            Some(l) => {
                let same = match l.peer_eph {
                    Some(e) => crate::bytes::bytes_eq(&e, &eph),
                    None => false,
                };
                if !same {
                    // eph changed → re-resolve its fingerprint
                    let updated = LinkState { mtu: l.mtu, peer_eph: Some(eph), peer_fp: None };
                    self.links.insert(link, updated);
                }
            },
            None => {},
        }
        self.dedup_links();
    }

    /// Resolve link fingerprints from learned announces, then keep exactly one link per peer
    /// identity (the lowest `LinkId`), closing the rest so no battery, airtime or connection slots
    /// are spent on several links to the same phone.
    fn dedup_links(&mut self)
        requires
            old(self).wf(),
        ensures
            forall|k: LinkId|
                #[trigger] final(self).link_map().contains_key(k) <==> old(self).link_map().contains_key(k)
                    && !Self::shadowed(*old(self), k),
            forall|k: LinkId|
                #[trigger] final(self).link_map().contains_key(k) ==> (match final(self).link_map()[k].peer_fp {
                    Some(f) => Some(f@),
                    None => None,
                }) == Self::link_peer(*old(self), old(self).link_map()[k]),
            final(self).clock_value() == old(self).clock_value(),
            final(self).wf(),
            final(self).peer_records() == old(self).peer_records(),
            final(self).pending_events() == old(self).pending_events(),
            final(self).scheduled() == old(self).scheduled(),
            final(self).seen_map() == old(self).seen_map(),
            final(self).reassembly() == old(self).reassembly(),
            final(self).config() == old(self).config(),
            final(self).reachable() == old(self).reachable(),
            forall|k: LinkId|
                #[trigger] final(self).link_map().contains_key(k) ==> old(self).link_map().contains_key(k)
                    && final(self).link_map()[k].mtu == old(self).link_map()[k].mtu && final(self).link_map()[k].peer_eph
                    == old(self).link_map()[k].peer_eph,
            forall|a: LinkId, b: LinkId|
                #![trigger final(self).link_map()[a], final(self).link_map()[b]]
                final(self).link_map().contains_key(a) && final(self).link_map().contains_key(b) && a != b
                    && final(self).link_map()[a].peer_fp is Some && final(self).link_map()[b].peer_fp is Some
                    ==> final(self).link_map()[a].peer_fp->Some_0@ != final(self).link_map()[b].peer_fp->Some_0@,
            final(self).pending_closes().take(old(self).pending_closes().len() as int) == old(self).pending_closes(),
            final(self).pending_closes().len() >= old(self).pending_closes().len(),
            forall|k: LinkId|
                old(self).link_map().contains_key(k) && !final(self).link_map().contains_key(k)
                    <==> #[trigger] final(self).pending_closes().skip(old(self).pending_closes().len() as int).contains(k),
            final(self).scheduled() == old(self).scheduled(),
            final(self).rate_view() == old(self).rate_view(),
            final(self).announced_dh() == old(self).announced_dh(),
            final(self).eph_table() == old(self).eph_table(),
            final(self).store_value() == old(self).store_value(),
            final(self).sessions() == old(self).sessions(),
            final(self).noise_sessions == old(self).noise_sessions,
            forall|k: LinkId|
                #[trigger] old(self).link_map().contains_key(k) && !final(self).link_map().contains_key(k)
                    ==> Self::link_peer(*old(self), old(self).link_map()[k]) is Some && exists|k2: LinkId|
                    #![trigger final(self).link_map()[k2]]
                    final(self).link_map().contains_key(k2) && k2 < k && final(self).link_map()[k2].peer_fp is Some
                        && final(self).link_map()[k2].peer_fp->Some_0@ == Self::link_peer(
                        *old(self),
                        old(self).link_map()[k],
                    )->Some_0,
            final(self).pending_dms == old(self).pending_dms,
    {
        let mut unresolved: Vec<(LinkId, EphId)> = Vec::new();
        for (id, l) in it: self.links.iter()
            invariant
                self.clock_value() == old(self).clock_value(),
                self.links@ == old(self).links@,
                forall|j: int|
                    0 <= j < unresolved@.len() ==> old(self).links@.contains_key((#[trigger] unresolved@[j]).0)
                        && old(self).links@[unresolved@[j].0].peer_fp is None
                        && old(self).links@[unresolved@[j].0].peer_eph == Some(unresolved@[j].1),
                forall|j: int|
                    0 <= j < it.index() && (*(#[trigger] it.seq()[j]).1).peer_fp is None && (*it.seq()[j].1).peer_eph
                        is Some ==> exists|q: int| 0 <= q < unresolved@.len() && unresolved@[q].0 == *it.seq()[j].0,
        {
            assert(self.links@.contains_key(*id) && self.links@[*id] == *l);
            let ghost u0 = unresolved@;
            match (l.peer_fp, l.peer_eph) {
                (None, Some(e)) => unresolved.push((*id, e)),
                _ => {},
            }
            proof {
                assert forall|j: int|
                    0 <= j < it.index() + 1 && (*(#[trigger] it.seq()[j]).1).peer_fp is None && (*it.seq()[j].1).peer_eph
                        is Some implies exists|q: int| 0 <= q < unresolved@.len() && unresolved@[q].0 == *it.seq()[j].0 by {
                    if j < it.index() {
                        let q = choose|q: int| 0 <= q < u0.len() && u0[q].0 == *it.seq()[j].0;
                        assert(unresolved@[q] == u0[q]);
                    } else {
                        assert(unresolved@[u0.len() as int].0 == *id);
                    }
                }
            }
        }
        let ghost v = vstd::std_specs::iter::IteratorSpec::remaining(
            &vstd::std_specs::btree::spec_btree_map_iter(&self.links),
        );
        proof {
            assert forall|k: LinkId|
                #[trigger] old(self).links@.contains_key(k) && old(self).links@[k].peer_fp is None
                    && old(self).links@[k].peer_eph is Some implies exists|q: int|
                    0 <= q < unresolved@.len() && unresolved@[q].0 == k by {
                assert(v.contains((&k, &self.links@[k])));
                let j = choose|j: int| 0 <= j < v.len() && v[j] == (&k, &self.links@[k]);
                assert(*v[j].0 == k);
            }
        }
        let mut i: usize = 0;
        while i < unresolved.len()
            invariant
                self.clock_value() == old(self).clock_value(),
                self.store == old(self).store,
                self.noise_sessions == old(self).noise_sessions,
                self.pending_dms == old(self).pending_dms,
                self.announced_dh() == old(self).announced_dh(),
                self.eph_table() == old(self).eph_table(),
                self.rate_view() == old(self).rate_view(),
                self.scheduled() == old(self).scheduled(),
                i <= unresolved@.len(),
                self.wf(),
                self.peer_records() == old(self).peer_records(),
                self.events == old(self).events,
                self.scheduler == old(self).scheduler,
                self.seen == old(self).seen,
                self.reassembly() == old(self).reassembly(),
                self.cfg == old(self).cfg,
                self.fp_to_eph == old(self).fp_to_eph,
                self.closed_links == old(self).closed_links,
                self.eph_keys == old(self).eph_keys,
                forall|j: int|
                    0 <= j < unresolved@.len() ==> old(self).links@.contains_key((#[trigger] unresolved@[j]).0)
                        && old(self).links@[unresolved@[j].0].peer_fp is None
                        && old(self).links@[unresolved@[j].0].peer_eph == Some(unresolved@[j].1),
                forall|k: LinkId|
                    #[trigger] self.links@.contains_key(k) && self.links@[k].peer_fp is Some ==> Self::link_peer(
                        *old(self),
                        old(self).links@[k],
                    ) == Some(self.links@[k].peer_fp->Some_0@),
                forall|k: LinkId|
                    #[trigger] self.links@.contains_key(k) <==> old(self).links@.contains_key(k),
                forall|k: LinkId|
                    #[trigger] self.links@.contains_key(k) ==> self.links@[k].mtu == old(self).links@[k].mtu
                        && self.links@[k].peer_eph == old(self).links@[k].peer_eph,
                forall|k: LinkId|
                    #[trigger] self.links@.contains_key(k) && Self::link_peer(*old(self), old(self).links@[k]) is Some
                        && !(exists|q: int| i <= q < unresolved@.len() && unresolved@[q].0 == k)
                        ==> self.links@[k].peer_fp is Some,
            decreases unresolved@.len() - i,
        {
            let ghost lb = self.links@;
            let (id, eph) = unresolved[i];
            match self.eph_to_fp(eph) {
                Some(fp) => {
                    match self.links.get(&id) {
                        Some(l) => {
                            let updated = LinkState { mtu: l.mtu, peer_eph: l.peer_eph, peer_fp: Some(fp) };
                            self.links.insert(id, updated);
                        },
                        None => {},
                    }
                },
                None => {},
            }
            proof {
                assert forall|k: LinkId|
                    #[trigger] self.links@.contains_key(k) && Self::link_peer(*old(self), old(self).links@[k]) is Some
                        && !(exists|q: int| i + 1 <= q < unresolved@.len() && unresolved@[q].0 == k)
                        implies self.links@[k].peer_fp is Some by {
                    if k != id {
                        assert(self.links@[k] == lb[k]);
                        if exists|q: int| i <= q < unresolved@.len() && unresolved@[q].0 == k {
                            let q = choose|q: int| i <= q < unresolved@.len() && unresolved@[q].0 == k;
                            assert(q != i);
                        }
                    } else {
                        assert(old(self).links@[id].peer_eph == Some(eph));
                        assert(old(self).links@[id].peer_fp is None);
                    }
                }
            }
            i = i + 1;
        }
        proof {
            assert forall|k: LinkId| #[trigger] self.links@.contains_key(k) implies (match self.links@[k].peer_fp {
                Some(f) => Some(f@),
                None => None,
            }) == Self::link_peer(*old(self), old(self).links@[k]) by {
                if Self::link_peer(*old(self), old(self).links@[k]) is Some {
                    assert(self.links@[k].peer_fp is Some);
                }
            }
        }
        // Links are walked in ascending id order, so the first link seen per fingerprint stays.
        let ghost lm2 = self.links@;
        let ids = self.link_ids();
        let mut primaries: FpMap<LinkId> = FpMap::new();
        let mut redundant: Vec<LinkId> = Vec::new();
        let mut t: usize = 0;
        while t < ids.len()
            invariant
                self.clock_value() == old(self).clock_value(),
                self.store == old(self).store,
                self.noise_sessions == old(self).noise_sessions,
                self.pending_dms == old(self).pending_dms,
                self.announced_dh() == old(self).announced_dh(),
                self.eph_table() == old(self).eph_table(),
                self.rate_view() == old(self).rate_view(),
                self.scheduled() == old(self).scheduled(),
                primaries.wf(),
                self.links@ == lm2,
                t <= ids@.len(),
                ids@.no_duplicates(),
                forall|k: LinkId| #[trigger] ids@.contains(k) <==> lm2.contains_key(k),
                forall|f: Seq<u8>|
                    #[trigger] primaries.view().contains_key(f) ==> lm2.contains_key(primaries.view()[f])
                        && lm2[primaries.view()[f]].peer_fp is Some && lm2[primaries.view()[f]].peer_fp->Some_0@ == f
                        && !redundant@.contains(primaries.view()[f]) && ids@.take(t as int).contains(primaries.view()[f]),
                forall|j: int|
                    0 <= j < t && lm2[#[trigger] ids@[j]].peer_fp is Some ==> primaries.view().contains_key(
                        lm2[ids@[j]].peer_fp->Some_0@,
                    ) && (primaries.view()[lm2[ids@[j]].peer_fp->Some_0@] == ids@[j] || redundant@.contains(ids@[j])),
                forall|r: LinkId| #[trigger] redundant@.contains(r) ==> ids@.take(t as int).contains(r),
                redundant@.no_duplicates(),
                forall|a: int, b: int| 0 <= a < b < ids@.len() ==> ids@[a] < ids@[b],
                forall|j: int|
                    0 <= j < t && lm2[#[trigger] ids@[j]].peer_fp is Some ==> primaries.view()[lm2[ids@[j]].peer_fp->Some_0@]
                        <= ids@[j],
                forall|r: LinkId|
                    #[trigger] redundant@.contains(r) ==> lm2.contains_key(r) && lm2[r].peer_fp is Some
                        && primaries.view().contains_key(lm2[r].peer_fp->Some_0@) && primaries.view()[lm2[r].peer_fp->Some_0@]
                        < r,
            decreases ids@.len() - t,
        {
            let id = ids[t];
            let ghost r0 = redundant@;
            let ghost pv0 = primaries.view();
            proof {
                assert(ids@.contains(id));
                assert(!ids@.take(t as int).contains(id)) by {
                    if ids@.take(t as int).contains(id) {
                        let j = choose|j: int| 0 <= j < t && ids@.take(t as int)[j] == id;
                        assert(ids@[j] == ids@[t as int]);
                    }
                }
                assert(ids@.take(t + 1) =~= ids@.take(t as int).push(id));
            }
            match self.links.get(&id) {
                Some(l) => {
                    match l.peer_fp {
                        Some(fp) => {
                            if primaries.contains_key(&fp) {
                                redundant.push(id);
                            } else {
                                primaries.insert(fp, id);
                            }
                        },
                        None => {},
                    }
                },
                None => {},
            }
            proof {
                assert forall|f: Seq<u8>| #[trigger] primaries.view().contains_key(f) implies lm2.contains_key(primaries.view()[f])
                    && lm2[primaries.view()[f]].peer_fp is Some && lm2[primaries.view()[f]].peer_fp->Some_0@ == f
                    && !redundant@.contains(primaries.view()[f]) && ids@.take(t + 1).contains(primaries.view()[f]) by {
                    if pv0.contains_key(f) {
                        assert(ids@.take(t as int).contains(pv0[f]));
                        assert(pv0[f] != id);
                        if redundant@.contains(pv0[f]) {
                            assert(r0.contains(pv0[f]));
                        }
                    } else {
                        assert(primaries.view()[f] == id);
                        assert(!r0.contains(id));
                        assert(ids@.take(t + 1)[t as int] == id);
                    }
                }
                assert forall|r: LinkId| #[trigger] redundant@.contains(r) implies ids@.take(t + 1).contains(r) by {
                    if r0.contains(r) {
                        let j = choose|j: int| 0 <= j < t && ids@.take(t as int)[j] == r;
                        assert(ids@.take(t + 1)[j] == r);
                    } else {
                        assert(ids@.take(t + 1)[t as int] == id);
                    }
                }
                assert forall|j: int|
                    0 <= j < t + 1 && lm2[#[trigger] ids@[j]].peer_fp is Some implies primaries.view().contains_key(
                        lm2[ids@[j]].peer_fp->Some_0@,
                    ) && (primaries.view()[lm2[ids@[j]].peer_fp->Some_0@] == ids@[j] || redundant@.contains(ids@[j])) by {
                    if j < t {
                        let f = lm2[ids@[j]].peer_fp->Some_0@;
                        assert(pv0.contains_key(f));
                        assert(primaries.view().contains_key(f) && primaries.view()[f] == pv0[f]);
                        if r0.contains(ids@[j]) {
                            let q = choose|q: int| 0 <= q < r0.len() && r0[q] == ids@[j];
                            assert(redundant@[q] == r0[q]);
                            assert(redundant@.contains(ids@[j]));
                        }
                    } else {
                        assert(ids@[j] == id);
                        if redundant@ != r0 {
                            assert(redundant@[r0.len() as int] == id);
                        }
                    }
                }
                if redundant@ != r0 {
                    assert(redundant@ == r0.push(id));
                    assert(!r0.contains(id)) by {
                        if r0.contains(id) {
                            assert(ids@.take(t as int).contains(id));
                        }
                    }
                }
                assert forall|r: LinkId| #[trigger] redundant@.contains(r) implies lm2.contains_key(r)
                    && lm2[r].peer_fp is Some && primaries.view().contains_key(lm2[r].peer_fp->Some_0@)
                    && primaries.view()[lm2[r].peer_fp->Some_0@] < r by {
                    if r0.contains(r) {
                        assert(pv0.contains_key(lm2[r].peer_fp->Some_0@));
                        assert(primaries.view()[lm2[r].peer_fp->Some_0@] == pv0[lm2[r].peer_fp->Some_0@]);
                    } else {
                        let q = choose|q: int| 0 <= q < redundant@.len() && redundant@[q] == r;
                        assert(q == r0.len());
                        assert(r == id);
                        let f = lm2[id].peer_fp->Some_0@;
                        assert(pv0.contains_key(f));
                        assert(ids@.take(t as int).contains(pv0[f]));
                        let j0 = choose|j0: int| 0 <= j0 < t && ids@.take(t as int)[j0] == pv0[f];
                        assert(ids@[j0] < ids@[t as int]);
                    }
                }
            }
            t = t + 1;
        }
        proof {
            assert(ids@.take(ids@.len() as int) =~= ids@);
        }
        let ghost c0 = self.closed_links@;
        let mut j: usize = 0;
        while j < redundant.len()
            invariant
                self.clock_value() == old(self).clock_value(),
                self.store == old(self).store,
                self.noise_sessions == old(self).noise_sessions,
                self.pending_dms == old(self).pending_dms,
                self.announced_dh() == old(self).announced_dh(),
                self.eph_table() == old(self).eph_table(),
                self.rate_view() == old(self).rate_view(),
                self.scheduled() == old(self).scheduled(),
                j <= redundant@.len(),
                self.wf(),
                self.peer_records() == old(self).peer_records(),
                self.events == old(self).events,
                self.scheduler == old(self).scheduler,
                self.seen == old(self).seen,
                self.reassembly() == old(self).reassembly(),
                self.cfg == old(self).cfg,
                self.fp_to_eph == old(self).fp_to_eph,
                c0 == old(self).closed_links@,
                self.closed_links@ == c0 + redundant@.take(j as int),
                forall|k: LinkId|
                    #[trigger] self.links@.contains_key(k) <==> lm2.contains_key(k) && !redundant@.take(j as int).contains(k),
                forall|k: LinkId| #[trigger] self.links@.contains_key(k) ==> self.links@[k] == lm2[k],
            decreases redundant@.len() - j,
        {
            proof {
                assert(redundant@.take(j + 1) =~= redundant@.take(j as int).push(redundant@[j as int]));
            }
            let ghost l0 = self.links@;
            self.links.remove(&redundant[j]);
            self.closed_links.push(redundant[j]);
            proof {
                assert forall|k: LinkId|
                    #[trigger] self.links@.contains_key(k) <==> lm2.contains_key(k) && !redundant@.take(j + 1).contains(k) by {
                    if redundant@.take(j as int).contains(k) {
                        let q = choose|q: int| 0 <= q < j && #[trigger] redundant@.take(j as int)[q] == k;
                        assert(redundant@.take(j + 1)[q] == k);
                    }
                    if redundant@.take(j + 1).contains(k) && k != redundant@[j as int] {
                        let q = choose|q: int| 0 <= q < j + 1 && #[trigger] redundant@.take(j + 1)[q] == k;
                        assert(redundant@.take(j as int)[q] == k);
                    }
                    if k == redundant@[j as int] {
                        assert(redundant@.take(j + 1)[j as int] == k);
                    }
                }
            }
            j = j + 1;
        }
        proof {
            assert(redundant@.take(redundant@.len() as int) =~= redundant@);
            assert(self.closed_links@.skip(c0.len() as int) =~= redundant@);
            assert(self.closed_links@.take(c0.len() as int) =~= c0);
            assert forall|a: LinkId, b: LinkId|
                #![trigger self.link_map()[a], self.link_map()[b]]
                self.link_map().contains_key(a) && self.link_map().contains_key(b) && a != b
                    && self.link_map()[a].peer_fp is Some && self.link_map()[b].peer_fp is Some
                    implies self.link_map()[a].peer_fp->Some_0@ != self.link_map()[b].peer_fp->Some_0@ by {
                if self.link_map()[a].peer_fp->Some_0@ == self.link_map()[b].peer_fp->Some_0@ {
                    assert(ids@.contains(a));
                    assert(ids@.contains(b));
                    let ja = choose|ja: int| 0 <= ja < ids@.len() && ids@[ja] == a;
                    let jb = choose|jb: int| 0 <= jb < ids@.len() && ids@[jb] == b;
                    assert(lm2[ids@[ja]].peer_fp is Some);
                    assert(lm2[ids@[jb]].peer_fp is Some);
                    assert(!redundant@.contains(a));
                    assert(!redundant@.contains(b));
                }
            }
            assert forall|k: LinkId| #[trigger] lm2.contains_key(k) implies (redundant@.contains(k) <==> Self::shadowed(
                *old(self),
                k,
            )) by {
                assert(old(self).link_map().contains_key(k));
                if redundant@.contains(k) {
                    let f = lm2[k].peer_fp->Some_0@;
                    let k2 = primaries.view()[f];
                    assert(lm2.contains_key(k2));
                    assert(old(self).link_map().contains_key(k2));
                    assert(old(self).link_map()[k2] == old(self).links@[k2]);
                    assert(Self::shadowed(*old(self), k));
                }
                if Self::shadowed(*old(self), k) {
                    let k2 = choose|k2: LinkId|
                        #![trigger old(self).link_map()[k2]]
                        old(self).link_map().contains_key(k2) && k2 < k && Self::link_peer(
                            *old(self),
                            old(self).link_map()[k2],
                        ) == Self::link_peer(*old(self), old(self).link_map()[k]);
                    if !redundant@.contains(k) {
                        assert(ids@.contains(k));
                        let jk = choose|jk: int| 0 <= jk < ids@.len() && ids@[jk] == k;
                        assert(lm2[ids@[jk]].peer_fp is Some);
                        assert(ids@.contains(k2));
                        let j2 = choose|j2: int| 0 <= j2 < ids@.len() && ids@[j2] == k2;
                        assert(lm2[ids@[j2]].peer_fp is Some);
                        assert(lm2[k2].peer_fp->Some_0@ == lm2[k].peer_fp->Some_0@);
                        assert(primaries.view()[lm2[ids@[jk]].peer_fp->Some_0@] == k);
                        assert(primaries.view()[lm2[ids@[j2]].peer_fp->Some_0@] <= k2);
                    }
                }
            }
            assert forall|k: LinkId|
                #[trigger] old(self).link_map().contains_key(k) && !self.link_map().contains_key(k) implies Self::link_peer(
                    *old(self),
                    old(self).link_map()[k],
                ) is Some && exists|k2: LinkId|
                    #![trigger self.link_map()[k2]]
                    self.link_map().contains_key(k2) && k2 < k && self.link_map()[k2].peer_fp is Some
                        && self.link_map()[k2].peer_fp->Some_0@ == Self::link_peer(
                        *old(self),
                        old(self).link_map()[k],
                    )->Some_0 by {
                assert(lm2.contains_key(k));
                assert(redundant@.contains(k));
                let f = lm2[k].peer_fp->Some_0@;
                let k2 = primaries.view()[f];
                assert(primaries.view().contains_key(f));
                assert(!redundant@.contains(k2));
                assert(lm2.contains_key(k2));
                assert(self.link_map().contains_key(k2));
                assert(self.link_map()[k2] == lm2[k2]);
            }
        }
    }

    fn handle_announce(&mut self, pkt: &Packet)
        requires
            old(self).wf(),
        ensures
            final(self).clock_value() == old(self).clock_value(),
            final(self).wf(),
            decisions_kept(old(self).peer_records(), final(self).peer_records()),
            Self::announce_outcome(*old(self), *final(self), pkt@),
            final(self).reassembly() == old(self).reassembly(),
            final(self).scheduled() == old(self).scheduled(),
            final(self).rate_view() == old(self).rate_view(),
    {
        let (pubkey, dh_pub, nick) = match decode_announce(pkt.payload.as_slice()) {
            Some(t) => t,
            None => {
                assert(Self::announce_outcome(*old(self), *self, pkt@));
                return;
            },
        };
        if pkt.verify(&pubkey).is_err() {
            assert(Self::announce_outcome(*old(self), *self, pkt@));
            return;  // announce not signed by the key it carries: ignore
        }
        let ghost o = *old(self);
        self.eph_keys.insert(u64_key(&pkt.sender), pubkey);
        let fingerprint = sha256_digest(&pubkey);
        self.fp_to_eph.insert(fingerprint, pkt.sender);
        self.peer_static_dh.insert(fingerprint, dh_pub);
        // Preserve any in-person verification and petname set for this identity; a fresh announce
        // must never silently downgrade a peer verified face-to-face.
        let (petname, verified) = match self.store.get_peer(&fingerprint) {
            Some(p) => (p.petname, p.verified),
            None => (None, false),
        };
        self.store.upsert_peer(
            PeerRecord {
                fingerprint,
                petname,
                verified,
                last_eph: pkt.sender,
                last_seen_ms: pkt.timestamp_ms,
            },
        );
        let shown = if nick.as_str().is_empty() {
            None
        } else {
            Some(nick)
        };
        self.events.push(MeshEvent::PeerAppeared { fingerprint, eph: pkt.sender, petname: shown });
        // A newly-learned key may let us resolve (and dedup) links we couldn't identify yet.
        self.dedup_links();
        // Deliver any store-and-forward messages held while this peer was unreachable.
        let ghost env0 = self.store_value().envelope_view();
        assert(env0 == o.store_value().envelope_view());
        let held = self.store.take_envelopes(&fingerprint);
        let ghost texts = lossy_all(crate::store::held_for(env0, fingerprint@));
        let ghost ready = o.sessions().contains_key(fingerprint@) && o.sessions()[fingerprint@]
            == Phase::Transport;
        let ghost lg0 = o.session_logs();
        let ghost qd0 = o.queued_dms();
        assert(self.sessions() == o.sessions());
        assert(self.session_logs() == lg0);
        assert(self.queued_dms() == qd0);
        assert(texts.len() == held@.len());
        let ghost ev1 = self.pending_events();
        let ghost r1 = self.reachable();
        let ghost p1 = self.peer_records();
        let ghost d1 = self.announced_dh();
        let ghost e1 = self.eph_table();
        proof {
            assert(ev1.drop_last() == old(self).pending_events());
            assert(r1 == old(self).reachable().insert(fingerprint@, pkt.sender));
            assert(p1.contains_key(fingerprint@));
            assert(r1.remove(fingerprint@) =~= o.reachable().remove(fingerprint@));
            assert(p1.remove(fingerprint@) =~= o.peer_records().remove(fingerprint@));
        }
        let mut i: usize = 0;
        while i < held.len()
            invariant
                self.clock_value() == old(self).clock_value(),
                self.rate_view() == old(self).rate_view(),
                self.scheduled() == old(self).scheduled(),
                self.reassembly() == old(self).reassembly(),
                i <= held@.len(),
                self.wf(),
                decisions_kept(old(self).peer_records(), self.peer_records()),
                self.pending_events() == ev1,
                self.reachable() == r1,
                self.peer_records() == p1,
                self.announced_dh() == d1,
                self.eph_table() == e1,
                self.store_value().envelope_view() == env0.remove(fingerprint@),
                r1.contains_key(fingerprint@),
                texts.len() == held@.len(),
                forall|k: int| 0 <= k < held@.len() ==> #[trigger] texts[k] == crate::text::utf8_lossy(held@[k]@),
                ready == (self.sessions().contains_key(fingerprint@) && self.sessions()[fingerprint@]
                    == Phase::Transport),
                ready ==> self.session_logs().contains_key(fingerprint@) && self.session_logs()[fingerprint@]
                    == (lg0[fingerprint@].0, lg0[fingerprint@].1 + utf8_all(texts.take(i as int)), lg0[fingerprint@].2),
                !ready ==> held_or_empty(self.queued_dms(), fingerprint@) == held_or_empty(qd0, fingerprint@)
                    + texts.take(i as int),
            decreases held@.len() - i,
        {
            let text = from_utf8_lossy(held[i].as_slice());
            let ghost qb = self.queued_dms();
            self.send_dm(fingerprint, text.as_str());
            proof {
                assert(texts.take(i + 1) =~= texts.take(i as int).push(text@));
                assert(utf8_all(texts.take(i + 1)) =~= utf8_all(texts.take(i as int)).push(
                    vstd::utf8::encode_utf8(text@),
                ));
                if !ready {
                    assert(held_or_empty(self.queued_dms(), fingerprint@) =~= held_or_empty(qb, fingerprint@).push(
                        text@,
                    ));
                }
            }
            i = i + 1;
        }
        proof {
            assert(texts.take(held@.len() as int) =~= texts);
        }
        proof {
            let (pk, dh, nk) = crate::payload::spec_decode_announce(pkt@.payload)->Some_0;
            assert(pk == pubkey@ && dh == dh_pub@ && nk == nick@);
            assert(self.knows_eph(pkt@.sender));
            assert(self.eph_key(pkt@.sender) == pk);
            assert(self.announced_dh()[fingerprint@]@ == dh);
            assert(Self::announce_outcome(o, *self, pkt@));
        }
    }

    fn handle_channel(&mut self, pkt: &Packet)
        requires
            old(self).wf(),
        ensures
            final(self).clock_value() == old(self).clock_value(),
            final(self).wf(),
            final(self).peer_records() == old(self).peer_records(),
            final(self).sessions() == old(self).sessions(),
            final(self).link_map() == old(self).link_map(),
            final(self).pending_outbound() == old(self).pending_outbound(),
            Self::channel_outcome(*old(self), *final(self), pkt@),
            Self::channel_store_outcome(*old(self), *final(self), pkt@),
            final(self).reassembly() == old(self).reassembly(),
            final(self).scheduled() == old(self).scheduled(),
            final(self).rate_view() == old(self).rate_view(),
    {
        let (channel, text) = match decode_channel(pkt.payload.as_slice(), &self.cfg) {
            Some(t) => t,
            None => {
                assert(crate::payload::spec_decode_channel(pkt@.payload, old(self).config()) is None);
                assert(self.pending_events() == old(self).pending_events());
                assert(Self::channel_outcome(*old(self), *self, pkt@));
                return;
            },
        };
        let verified = match self.eph_keys.get(&u64_key(&pkt.sender)) {
            Some(pk) => pkt.verify(pk).is_ok(),
            None => false,
        };
        let digest = pkt.digest();
        let msg = StoredMessage {
            digest,
            channel: channel.clone(),
            sender: pkt.sender,
            timestamp_ms: pkt.timestamp_ms,
            body: copy_bytes(text.as_str().as_bytes()),
            raw: pkt.encode(),
        };
        let ghost mv = msg@;
        self.store.put_channel_message(msg);
        proof {
            let c = channel@;
            let t = text@;
            let h1 = self.store_value().history_view();
            assert(is_stored_form(mv, pkt@, c, t));
            if !holds_digest(old(self).store_value().history_view(), pkt@.digest()) {
                if log_of(h1, c).contains(mv) {
                    let i = choose|i: int| 0 <= i < log_of(h1, c).len() && log_of(h1, c)[i] == mv;
                    assert(is_stored_form(log_of(h1, c)[i], pkt@, c, t));
                }
                assert(stored_channel_packet(h1, pkt@, c, t));
            }
        }
        if self.is_subscribed(&channel) {
            self.events.push(
                MeshEvent::MessageReceived {
                    channel,
                    sender: pkt.sender,
                    body: text,
                    timestamp_ms: pkt.timestamp_ms,
                    verified,
                },
            );
        }
        proof {
            let c = channel@;
            let t = text@;
            assert(crate::payload::spec_decode_channel(pkt@.payload, old(self).config()) == Some((c, t)));
            assert(self.subscriptions().contains(c) == old(self).subscriptions().contains(c));
            if old(self).subscriptions().contains(c) {
                assert(self.pending_events().len() == old(self).pending_events().len() + 1);
                assert(self.pending_events().drop_last() == old(self).pending_events());
                assert(channel_delivery(
                    self.pending_events().last(),
                    c,
                    t,
                    pkt@,
                    old(self).knows_eph(pkt@.sender) && crate::crypto::ed25519_accepts(
                        old(self).eph_key(pkt@.sender),
                        pkt@.signed_region(),
                        pkt@.signature,
                    ),
                ));
            } else {
                assert(self.pending_events() == old(self).pending_events());
            }
            assert(Self::channel_outcome(*old(self), *self, pkt@));
        }
    }

    /// Every live link but the excluded one, once each, with its MTU.
    #[verifier::rlimit(60)]
    fn fan_out_targets(&self, exclude: Option<LinkId>) -> (targets: Vec<(LinkId, usize)>)
        ensures
            fan_targets(targets@, self.link_map(), exclude),
    {
        let ids = self.link_ids();
        let mut targets: Vec<(LinkId, usize)> = Vec::new();
        let ghost lm = self.links@;
        let mut t: usize = 0;
        while t < ids.len()
            invariant
                lm == self.links@,
                t <= ids@.len(),
                ids@.no_duplicates(),
                forall|k: LinkId| #[trigger] ids@.contains(k) <==> lm.contains_key(k),
                forall|j: int|
                    0 <= j < targets@.len() ==> lm.contains_key(#[trigger] targets@[j].0) && exclude != Some(
                        targets@[j].0,
                    ) && targets@[j].1 == lm[targets@[j].0].mtu,
                forall|i: int, j: int|
                    0 <= i < j < targets@.len() ==> #[trigger] targets@[i].0 != #[trigger] targets@[j].0,
                forall|j: int|
                    0 <= j < targets@.len() ==> exists|i: int| 0 <= i < t && ids@[i] == #[trigger] targets@[j].0,
                forall|i: int|
                    0 <= i < t && exclude != Some(ids@[i]) ==> exists|j: int|
                        0 <= j < targets@.len() && #[trigger] targets@[j].0 == ids@[i],
            decreases ids@.len() - t,
        {
            let id = ids[t];
            let skip = match exclude {
                Some(x) => id == x,
                None => false,
            };
            assert(ids@.contains(id));
            if !skip {
                let mtu = self.mtu_of(id);
                proof {
                    assert forall|j: int| 0 <= j < targets@.len() implies #[trigger] targets@[j].0 != id by {
                        let i = choose|i: int| 0 <= i < t && ids@[i] == targets@[j].0;
                    }
                }
                let ghost tg = targets@;
                targets.push((id, mtu));
                proof {
                    assert forall|j: int| 0 <= j < targets@.len() implies exists|i: int|
                        0 <= i < t + 1 && ids@[i] == #[trigger] targets@[j].0 by {
                        if j < tg.len() {
                            let i = choose|i: int| 0 <= i < t && ids@[i] == tg[j].0;
                            assert(ids@[i] == targets@[j].0);
                        } else {
                            assert(ids@[t as int] == targets@[j].0);
                        }
                    }
                    assert forall|i: int| 0 <= i < t + 1 && exclude != Some(ids@[i]) implies exists|j: int|
                        0 <= j < targets@.len() && #[trigger] targets@[j].0 == ids@[i] by {
                        if i < t {
                            let j = choose|j: int| 0 <= j < tg.len() && tg[j].0 == ids@[i];
                            assert(targets@[j] == tg[j]);
                        } else {
                            assert(targets@[tg.len() as int].0 == ids@[i]);
                        }
                    }
                }
            }
            t = t + 1;
        }
        proof {
            assert forall|k: LinkId| lm.contains_key(k) && exclude != Some(k) implies exists|i: int|
                0 <= i < targets@.len() && #[trigger] targets@[i].0 == k by {
                assert(ids@.contains(k));
                let i = choose|i: int| 0 <= i < ids@.len() && ids@[i] == k;
            }
            assert(fan_targets(targets@, lm, exclude));
        }
        targets
    }

    /// The ids of the live links, each once.
    fn link_ids(&self) -> (ids: Vec<LinkId>)
        ensures
            ids@.no_duplicates(),
            forall|i: int, j: int| 0 <= i < j < ids@.len() ==> ids@[i] < ids@[j],
            forall|k: LinkId| #[trigger] ids@.contains(k) <==> self.links@.contains_key(k),
    {
        proof {
            lemma_link_ids_ordered();
        }
        let mut ids: Vec<LinkId> = Vec::new();
        for (id, l) in it: self.links.iter()
            invariant
                ids@ == it.seq().take(it.index()).map_values(|kv: (&LinkId, &LinkState)| *kv.0),
        {
            proof {
                assert(it.seq().take(it.index() + 1).map_values(|kv: (&LinkId, &LinkState)| *kv.0)
                    =~= it.seq().take(it.index()).map_values(|kv: (&LinkId, &LinkState)| *kv.0).push(*id));
            }
            ids.push(*id);
        }
        let ghost v = vstd::std_specs::iter::IteratorSpec::remaining(
            &vstd::std_specs::btree::spec_btree_map_iter(&self.links),
        );
        assert(ids@ =~= v.map_values(|kv: (&LinkId, &LinkState)| *kv.0));
        proof {
            crate::relay::lemma_keys_increase(ids@);
            assert forall|i: int, j: int| 0 <= i < j < ids@.len() implies ids@[i] != ids@[j] by {
                if ids@[i] == ids@[j] {
                    assert(self.links@.contains_key(*v[i].0));
                    assert(self.links@.contains_key(*v[j].0));
                    assert(v[i] == v[j]);
                }
            }
            assert forall|k: LinkId| #[trigger] ids@.contains(k) <==> self.links@.contains_key(k) by {
                if self.links@.contains_key(k) {
                    assert(v.contains((&k, &self.links@[k])));
                    let i = choose|i: int| 0 <= i < v.len() && v[i] == (&k, &self.links@[k]);
                    assert(ids@[i] == k);
                }
                if ids@.contains(k) {
                    let i = choose|i: int| 0 <= i < ids@.len() && ids@[i] == k;
                    assert(self.links@.contains_key(*v[i].0));
                }
            }
        }
        ids
    }

    /// The MTU of a link (the default when the link is unknown).
    fn mtu_of(&self, link: LinkId) -> (m: usize)
        ensures
            m == self.mtu_for(link),
    {
        match self.links.get(&link) {
            Some(l) => l.mtu,
            None => self.cfg.default_mtu,
        }
    }

    /// A peer asked what we have for a channel; reply with whatever they're missing: the raw signed
    /// bytes of every message held for the channel whose digest the asker did not list, framed
    /// for the asking link, by increasing digest.
    fn handle_sync_request(&mut self, link: LinkId, pkt: &Packet)
        requires
            old(self).wf(),
        ensures
            final(self).clock_value() == old(self).clock_value(),
            final(self).wf(),
            final(self).peer_records() == old(self).peer_records(),
            final(self).reassembly() == old(self).reassembly(),
            final(self).pending_events() == old(self).pending_events(),
            final(self).link_map() == old(self).link_map(),
            final(self).sessions() == old(self).sessions(),
            crate::payload::spec_decode_sync(pkt@.payload) is None ==> final(self).pending_outbound()
                == old(self).pending_outbound(),
            crate::payload::spec_decode_sync(pkt@.payload) is Some ==> {
                let (c, chunks) = crate::payload::spec_decode_sync(pkt@.payload)->Some_0;
                let h = old(self).store_value().history_view();
                exists|ms: Seq<[u8; 8]>|
                    #[trigger] sync_reply_order(
                        ms,
                        crate::store::digests_in(log_of(h, c)),
                        crate::payload::chunk_keys(chunks).to_set(),
                    ) && outbound_view(final(self).pending_outbound()) == outbound_view(
                        old(self).pending_outbound(),
                    ) + resend_frames(ms, h, old(self).mtu_for(link), link)
            },
            final(self).store_value() == old(self).store_value(),
            final(self).scheduled() == old(self).scheduled(),
            final(self).rate_view() == old(self).rate_view(),
    {
        let remote = match decode_sync(pkt.payload.as_slice()) {
            Some(f) => f,
            None => return,
        };
        let local = self.store.channel_digests(remote.channel.as_str());
        let ghost h = old(self).store_value().history_view();
        let ghost local_v = local@;
        let mine = SyncFilter::new(remote.channel.clone(), local);
        let missing = mine.missing_from(&remote);
        proof {
            crate::channels::lemma_filter_not_held(mine.digests@, remote.digests@);
        }
        let ghost mtu0 = old(self).mtu_for(link);
        let mut i: usize = 0;
        while i < missing.len()
            invariant
                self.clock_value() == old(self).clock_value(),
                self.rate_view() == old(self).rate_view(),
                self.scheduled() == old(self).scheduled(),
                self.reassembly() == old(self).reassembly(),
                i <= missing@.len(),
                self.wf(),
                self.peer_records() == old(self).peer_records(),
                self.events == old(self).events,
                self.links == old(self).links,
                self.cfg == old(self).cfg,
                self.store == old(self).store,
                self.noise_sessions == old(self).noise_sessions,
                h == self.store_value().history_view(),
                mtu0 == self.mtu_for(link),
                outbound_view(self.outbound@) == outbound_view(old(self).outbound@) + resend_frames(
                    missing@.take(i as int),
                    h,
                    mtu0,
                    link,
                ),
            decreases missing@.len() - i,
        {
            let digest = missing[i];
            let ghost ob = outbound_view(self.outbound@);
            proof {
                assert(missing@.take(i + 1).drop_last() =~= missing@.take(i as int));
                assert(missing@.take(i + 1).last() == digest);
            }
            match self.store.message_by_digest(&digest) {
                Some(m) => {
                    // Resend the ORIGINAL signed bytes so the digest (and signature) are preserved.
                    if m.raw.len() > 0 {
                        let mtu = self.mtu_of(link);
                        self.send_bytes(link, m.raw.as_slice(), digest, mtu);
                    }
                },
                None => {},
            }
            proof {
                assert(outbound_view(self.outbound@) =~= outbound_view(old(self).outbound@) + resend_frames(
                    missing@.take(i + 1),
                    h,
                    mtu0,
                    link,
                ));
            }
            i = i + 1;
        }
        proof {
            let (c, chunks) = crate::payload::spec_decode_sync(pkt@.payload)->Some_0;
            assert(missing@.take(missing@.len() as int) =~= missing@);
            assert(remote.channel@ == c);
            assert(local_v == crate::store::digests_in(log_of(h, c)));
            assert(crate::channels::keys(remote.digests@).to_set() == crate::payload::chunk_keys(chunks).to_set());
            assert(sync_reply_order(missing@, local_v, crate::payload::chunk_keys(chunks).to_set()));
        }
    }

    fn send_sync_requests(&mut self, link: LinkId)
        requires
            old(self).wf(),
        ensures
            final(self).clock_value() == old(self).clock_value(),
            final(self).wf(),
            final(self).peer_records() == old(self).peer_records(),
            final(self).pending_events() == old(self).pending_events(),
            final(self).link_map() == old(self).link_map(),
            exists|ps: Seq<PacketModel>|
                #[trigger] old(self).sync_batch(ps) && outbound_view(final(self).pending_outbound())
                    == outbound_view(old(self).pending_outbound()) + packets_frames(ps, old(self).mtu_for(link), link),
    {
        let now = self.clock.now_ms();
        let ghost mut ps: Seq<PacketModel> = Seq::empty();
        let mut i: usize = 0;
        while i < self.subscribed.len()
            invariant
                self.clock_value() == old(self).clock_value(),
                i <= self.subscribed@.len(),
                self.wf(),
                self.peer_records() == old(self).peer_records(),
                self.events == old(self).events,
                self.links == old(self).links,
                self.subscribed == old(self).subscribed,
                self.identity == old(self).identity,
                self.cfg == old(self).cfg,
                ps.len() == i,
                forall|k: int| 0 <= k < i ==> old(self).sync_request_for(#[trigger] ps[k], old(self).subscriptions()[k]),
                outbound_view(self.outbound@) == outbound_view(old(self).outbound@) + packets_frames(ps, old(self).mtu_for(link), link),
            decreases self.subscribed@.len() - i,
        {
            let ghost ob = self.outbound@;
            let channel = self.subscribed[i].clone();
            let filter = SyncFilter::new(channel, self.store.channel_digests(self.subscribed[i].as_str()));
            let payload = encode_sync(&filter);
            // One hop: only the direct neighbour answers.
            let mut pkt = Packet::new(MsgType::SyncRequest, 1, now, self.identity.eph_id(), None, payload);
            pkt.sign(self.identity.signing_key());
            self.send_on_link(link, &pkt);
            proof {
                assert(pkt@.payload == crate::payload::sync_payload(vstd::utf8::encode_utf8(old(self).subscriptions()[i as int]), filter.digests@));
                assert(old(self).sync_request_for(pkt@, old(self).subscriptions()[i as int]));
                let ps2 = ps.push(pkt@);
                assert(ps2.drop_last() == ps);
                assert(packets_frames(ps2, old(self).mtu_for(link), link) == packets_frames(ps, old(self).mtu_for(link), link)
                    + link_frames(pkt@.encoding(), pkt@.digest(), old(self).mtu_for(link), link));
                assert(outbound_view(self.outbound@) =~= outbound_view(old(self).outbound@) + packets_frames(ps2, old(self).mtu_for(link), link));
                assert forall|k: int| 0 <= k < i + 1 implies old(self).sync_request_for(#[trigger] ps2[k], old(self).subscriptions()[k]) by {
                    if k < i {
                        assert(ps2[k] == ps[k]);
                    }
                }
                ps = ps2;
            }
            i = i + 1;
        }
        assert(old(self).sync_batch(ps));
    }

    // --- outbound fanout ---

    fn broadcast(&mut self, pkt: &Packet, exclude: Option<LinkId>)
        requires
            old(self).wf(),
        ensures
            final(self).handshake_attempts == old(self).handshake_attempts,
            final(self).handshake_last_ms == old(self).handshake_last_ms,
            final(self).clock_value() == old(self).clock_value(),
            final(self).store == old(self).store,
            final(self).wf(),
            final(self).peer_records() == old(self).peer_records(),
            final(self).events == old(self).events,
            final(self).links == old(self).links,
            final(self).noise_sessions == old(self).noise_sessions,
            final(self).pending_dms == old(self).pending_dms,
            final(self).pending_inbound_dms == old(self).pending_inbound_dms,
            final(self).fp_to_eph == old(self).fp_to_eph,
            final(self).seen == old(self).seen,
            final(self).scheduler == old(self).scheduler,
            final(self).relays_fired == old(self).relays_fired,
            final(self).subscribed == old(self).subscribed,
            exists|ts: Seq<(LinkId, usize)>|
                #[trigger] fan_targets(ts, old(self).link_map(), exclude) && outbound_view(final(self).pending_outbound())
                    == outbound_view(old(self).pending_outbound()) + fan_frames(ts, pkt@.encoding(), pkt@.digest()),
            final(self).reassembly() == old(self).reassembly(),
            final(self).scheduled() == old(self).scheduled(),
            final(self).rate_view() == old(self).rate_view(),
            final(self).announced_dh() == old(self).announced_dh(),
            final(self).eph_table() == old(self).eph_table(),
    {
        proof {
            lemma_link_ids_ordered();
        }
        let bytes = pkt.encode();
        let digest = pkt.digest();
        let targets = self.fan_out_targets(exclude);
        let ghost ob0 = self.outbound@;
        let mut i: usize = 0;
        while i < targets.len()
            invariant
                self.clock_value() == old(self).clock_value(),
                self.announced_dh() == old(self).announced_dh(),
                self.eph_table() == old(self).eph_table(),
                self.rate_view() == old(self).rate_view(),
                self.scheduled() == old(self).scheduled(),
                self.reassembly() == old(self).reassembly(),
                outbound_view(self.outbound@) == outbound_view(ob0) + fan_frames(targets@.take(i as int), bytes@, digest@),
                fan_targets(targets@, old(self).link_map(), exclude),
                ob0 == old(self).outbound@,
                bytes@ == pkt@.encoding(),
                digest@ == pkt@.digest(),
                i <= targets@.len(),
                self.wf(),
                self.peer_records() == old(self).peer_records(),
                self.events == old(self).events,
                self.links == old(self).links,
                self.noise_sessions == old(self).noise_sessions,
                self.pending_dms == old(self).pending_dms,
                self.pending_inbound_dms == old(self).pending_inbound_dms,
                self.store == old(self).store,
                self.handshake_attempts == old(self).handshake_attempts,
                self.handshake_last_ms == old(self).handshake_last_ms,
                self.fp_to_eph == old(self).fp_to_eph,
                self.seen == old(self).seen,
                self.scheduler == old(self).scheduler,
                self.relays_fired == old(self).relays_fired,
                self.subscribed == old(self).subscribed,
            decreases targets@.len() - i,
        {
            let (link, mtu) = targets[i];
            proof {
                assert(targets@.take(i + 1).drop_last() =~= targets@.take(i as int));
            }
            self.send_bytes(link, bytes.as_slice(), digest, mtu);
            i = i + 1;
        }
        assert(targets@.take(targets@.len() as int) =~= targets@);
    }

    fn send_on_link(&mut self, link: LinkId, pkt: &Packet)
        requires
            old(self).wf(),
        ensures
            final(self).handshake_attempts == old(self).handshake_attempts,
            final(self).handshake_last_ms == old(self).handshake_last_ms,
            final(self).clock_value() == old(self).clock_value(),
            final(self).store == old(self).store,
            final(self).wf(),
            final(self).peer_records() == old(self).peer_records(),
            final(self).events == old(self).events,
            final(self).links == old(self).links,
            final(self).subscribed == old(self).subscribed,
            final(self).noise_sessions == old(self).noise_sessions,
            final(self).seen == old(self).seen,
            final(self).scheduler == old(self).scheduler,
            final(self).identity == old(self).identity,
            final(self).cfg == old(self).cfg,
            outbound_view(final(self).pending_outbound()) == outbound_view(old(self).pending_outbound())
                + link_frames(pkt@.encoding(), pkt@.digest(), old(self).mtu_for(link), link),
            final(self).reassembly() == old(self).reassembly(),
            final(self).scheduled() == old(self).scheduled(),
            final(self).rate_view() == old(self).rate_view(),
            final(self).announced_dh() == old(self).announced_dh(),
            final(self).eph_table() == old(self).eph_table(),
    {
        let mtu = self.mtu_of(link);
        let bytes = pkt.encode();
        self.send_bytes(link, bytes.as_slice(), pkt.digest(), mtu);
    }

    /// Frame a packet for a link and queue the frames; a packet too large to frame is dropped.
    fn send_bytes(&mut self, link: LinkId, bytes: &[u8], digest: [u8; 8], mtu: usize)
        requires
            old(self).wf(),
        ensures
            final(self).handshake_attempts == old(self).handshake_attempts,
            final(self).handshake_last_ms == old(self).handshake_last_ms,
            final(self).clock_value() == old(self).clock_value(),
            final(self).store == old(self).store,
            final(self).wf(),
            final(self).peer_records() == old(self).peer_records(),
            final(self).events == old(self).events,
            final(self).links == old(self).links,
            final(self).noise_sessions == old(self).noise_sessions,
            final(self).pending_dms == old(self).pending_dms,
            final(self).pending_inbound_dms == old(self).pending_inbound_dms,
            final(self).fp_to_eph == old(self).fp_to_eph,
            final(self).seen == old(self).seen,
            final(self).scheduler == old(self).scheduler,
            final(self).relays_fired == old(self).relays_fired,
            final(self).subscribed == old(self).subscribed,
            final(self).pending_outbound().len() >= old(self).pending_outbound().len(),
            final(self).identity == old(self).identity,
            final(self).cfg == old(self).cfg,
            outbound_view(final(self).pending_outbound()) == outbound_view(old(self).pending_outbound())
                + link_frames(bytes@, digest@, mtu, link),
            final(self).reassembly() == old(self).reassembly(),
            final(self).scheduled() == old(self).scheduled(),
            final(self).rate_view() == old(self).rate_view(),
            final(self).announced_dh() == old(self).announced_dh(),
            final(self).eph_table() == old(self).eph_table(),
    {
        match split(bytes, digest, mtu) {
            Ok(frames) => {
                let mut frames = frames;
                let ghost all = frames_view(frames@);
                let ghost mut k: int = 0;
                while frames.len() > 0
                    invariant
                        self.clock_value() == old(self).clock_value(),
                        self.announced_dh() == old(self).announced_dh(),
                        self.eph_table() == old(self).eph_table(),
                        self.rate_view() == old(self).rate_view(),
                        self.scheduled() == old(self).scheduled(),
                        self.reassembly() == old(self).reassembly(),
                        self.wf(),
                        self.peer_records() == old(self).peer_records(),
                        self.events == old(self).events,
                        self.links == old(self).links,
                        self.noise_sessions == old(self).noise_sessions,
                        self.pending_dms == old(self).pending_dms,
                        self.pending_inbound_dms == old(self).pending_inbound_dms,
                        self.store == old(self).store,
                        self.handshake_attempts == old(self).handshake_attempts,
                        self.handshake_last_ms == old(self).handshake_last_ms,
                        self.fp_to_eph == old(self).fp_to_eph,
                        self.seen == old(self).seen,
                        self.scheduler == old(self).scheduler,
                        self.relays_fired == old(self).relays_fired,
                        self.subscribed == old(self).subscribed,
                        self.outbound@.len() >= old(self).outbound@.len(),
                        self.identity == old(self).identity,
                        self.cfg == old(self).cfg,
                        0 <= k <= all.len(),
                        frames_view(frames@) == all.skip(k),
                        outbound_view(self.outbound@) == outbound_view(old(self).outbound@) + all.take(k).map_values(
                            |f: Seq<u8>| (link, f),
                        ),
                    decreases frames@.len(),
                {
                    let ghost ob = self.outbound@;
                    let ghost fr = frames@;
                    proof {
                        assert(frames_view(fr).len() == fr.len());
                        assert(all.skip(k).len() == fr.len());
                        assert(frames_view(fr)[0] == fr[0]@);
                        assert(all.skip(k)[0] == all[k]);
                    }
                    let f = frames.remove(0);
                    proof {
                        assert(f@ == all[k]);
                        assert forall|j: int| 0 <= j < frames@.len() implies #[trigger] frames_view(frames@)[j] == all.skip(k + 1)[j] by {
                            assert(frames@[j] == fr[j + 1]);
                            assert(frames_view(fr)[j + 1] == all.skip(k)[j + 1]);
                        }
                        assert(frames_view(frames@) =~= all.skip(k + 1));
                    }
                    self.outbound.push((link, f));
                    proof {
                        assert(all.take(k + 1).map_values(|f: Seq<u8>| (link, f)) =~= all.take(k).map_values(
                            |f: Seq<u8>| (link, f),
                        ).push((link, all[k])));
                        assert(outbound_view(self.outbound@) =~= outbound_view(ob).push((link, all[k])));
                        k = k + 1;
                    }
                }
                assert(all.take(k) =~= all);
            },
            Err(_) => {
                assert(outbound_view(self.outbound@) =~= outbound_view(old(self).outbound@) + Seq::empty());
            },  // packet too large to frame: drop
        }
    }
}

} // verus!
