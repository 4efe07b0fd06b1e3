//! Persistence behind a trait. The core only ever touches [`Store`]; the SQLCipher-backed
//! implementation (ciphertext at rest) lives with the platform and slots in behind the same
//! interface. [`MemoryStore`] is the in-process implementation used by tests and the simulator.
//!
//! `panic_wipe` is a first-class operation: it must leave nothing recoverable.

use vstd::prelude::*;

use crate::bytes::be_u64_of;
use crate::clock::Millis;
use crate::fpmap::FpMap;
use crate::frag::{age, u64_key};
use crate::identity::Fingerprint;
use crate::wire::EphId;
use std::collections::BTreeSet;

verus! {

broadcast use vstd::std_specs::btree::group_btree_axioms;

#[derive(Debug, Clone, PartialEq, Eq)]
pub struct StoredMessage {
    pub digest: [u8; 8],
    pub channel: String,
    pub sender: EphId,
    pub timestamp_ms: u64,
    pub body: Vec<u8>,
    /// The original signed packet bytes, kept so set-reconciliation can resend a message
    /// verbatim (preserving its signature and therefore its digest) instead of re-signing it.
    pub raw: Vec<u8>,
}

/// What a stored message holds.
pub struct MessageModel {
    pub digest: [u8; 8],
    pub channel: Seq<char>,
    pub sender: EphId,
    pub timestamp_ms: u64,
    pub body: Seq<u8>,
    pub raw: Seq<u8>,
}

impl View for StoredMessage {
    type V = MessageModel;

    open spec fn view(&self) -> MessageModel {
        MessageModel {
            digest: self.digest,
            channel: self.channel@,
            sender: self.sender,
            timestamp_ms: self.timestamp_ms,
            body: self.body@,
            raw: self.raw@,
        }
    }
}

/// A field-by-field copy.
pub fn copy_message(m: &StoredMessage) -> (c: StoredMessage)
    ensures
        c@ == m@,
{
    StoredMessage {
        digest: m.digest,
        channel: m.channel.clone(),
        sender: m.sender,
        timestamp_ms: m.timestamp_ms,
        body: m.body.clone(),
        raw: m.raw.clone(),
    }
}

#[derive(Debug, Clone, PartialEq, Eq)]
pub struct PeerRecord {
    pub fingerprint: Fingerprint,
    pub petname: Option<String>,
    pub verified: bool,
    pub last_eph: EphId,
    pub last_seen_ms: Millis,
}

/// What a peer record holds.
pub struct PeerModel {
    pub fingerprint: Seq<u8>,
    pub petname: Option<Seq<char>>,
    pub verified: bool,
    pub last_eph: EphId,
    pub last_seen_ms: Millis,
}

impl View for PeerRecord {
    type V = PeerModel;

    open spec fn view(&self) -> PeerModel {
        PeerModel {
            fingerprint: self.fingerprint@,
            petname: match self.petname {
                Some(s) => Some(s@),
                None => None,
            },
            verified: self.verified,
            last_eph: self.last_eph,
            last_seen_ms: self.last_seen_ms,
        }
    }
}

/// A field-by-field copy.
pub fn copy_peer(p: &PeerRecord) -> (c: PeerRecord)
    ensures
        c@ == p@,
{
    PeerRecord {
        fingerprint: p.fingerprint,
        petname: match &p.petname {
            Some(s) => Some(s.clone()),
            None => None,
        },
        verified: p.verified,
        last_eph: p.last_eph,
        last_seen_ms: p.last_seen_ms,
    }
}

/// A payload queued for a peer that was offline when it was sent (store-and-forward).
struct Envelope {
    packet_bytes: Vec<u8>,
    queued_ms: Millis,
}

/// What a queued envelope holds: its bytes and when it was queued.
spec fn envelope_views(q: Seq<Envelope>) -> Seq<(Seq<u8>, Millis)> {
    Seq::new(q.len(), |i: int| (q[i].packet_bytes@, q[i].queued_ms))
}

/// Whether the user's decisions about every known peer (in-person verification, petname) are
/// unchanged from `before` to `after`; new peers may appear.
pub open spec fn decisions_kept(before: Map<Seq<u8>, PeerModel>, after: Map<Seq<u8>, PeerModel>) -> bool {
    forall|fp: Seq<u8>|
        #[trigger] before.contains_key(fp) ==> after.contains_key(fp) && after[fp].verified
            == before[fp].verified && after[fp].petname == before[fp].petname
}

/// The envelopes held for `fp` in `held`, or none.
pub open spec fn held_for(held: Map<Seq<u8>, Seq<Seq<u8>>>, fp: Seq<u8>) -> Seq<Seq<u8>> {
    if held.contains_key(fp) {
        held[fp]
    } else {
        Seq::empty()
    }
}

/// Persistence as the node sees it. Every implementation keeps peer records as a map from
/// fingerprint to record, which only `upsert_peer` and `panic_wipe` change, and the envelopes held
/// for offline peers as a map from fingerprint to their bytes, oldest first, which `take_envelopes`
/// hands over and clears.
pub trait Store {
    /// The peer records, by fingerprint.
    spec fn peer_view(&self) -> Map<Seq<u8>, PeerModel>;

    /// The store-and-forward envelopes held, by recipient fingerprint, oldest first.
    spec fn envelope_view(&self) -> Map<Seq<u8>, Seq<Seq<u8>>>;

    /// Each channel's history, oldest first.
    spec fn history_view(&self) -> Map<Seq<char>, Seq<MessageModel>>;

    /// Store a message unless one with its digest is already held. A new message is then held in
    /// its channel's log, unless retention dropped it on arrival (see [`kept_or_capped`]).
    fn put_channel_message(&mut self, msg: StoredMessage)
        ensures
            final(self).peer_view() == old(self).peer_view(),
            final(self).envelope_view() == old(self).envelope_view(),
            holds_digest(old(self).history_view(), msg.digest@) ==> final(self).history_view()
                == old(self).history_view(),
            !holds_digest(old(self).history_view(), msg.digest@) ==> kept_or_capped(
                final(self).history_view(),
                msg@,
            ),
    ;

    /// Whether a message with this digest is already stored (dedup at the storage layer).
    fn has_message(&self, digest: &[u8; 8]) -> (b: bool)
        ensures
            b == holds_digest(self.history_view(), digest@),
    ;

    /// Most-recent-first channel history, capped at `limit`.
    fn channel_history(&self, channel: &str, limit: usize) -> Vec<StoredMessage>;

    /// All digests currently held for a channel (for set-reconciliation on partition heal), in
    /// the order the channel's log holds them.
    fn channel_digests(&self, channel: &str) -> (v: Vec<[u8; 8]>)
        ensures
            v@ == digests_in(log_of(self.history_view(), channel@)),
    ;

    /// Look up a stored message by digest (to resend during sync).
    fn message_by_digest(&self, digest: &[u8; 8]) -> (r: Option<StoredMessage>)
        ensures
            r is Some <==> holds_digest(self.history_view(), digest@),
            r matches Some(m) ==> m@ == message_with_digest(self.history_view(), digest@),
    ;

    fn upsert_peer(&mut self, peer: PeerRecord)
        ensures
            final(self).peer_view() == old(self).peer_view().insert(peer.fingerprint@, peer@),
            final(self).envelope_view() == old(self).envelope_view(),
    ;

    fn get_peer(&self, fp: &Fingerprint) -> (r: Option<PeerRecord>)
        ensures
            r is Some <==> self.peer_view().contains_key(fp@),
            r matches Some(p) ==> p@ == self.peer_view()[fp@],
    ;

    fn queue_envelope(&mut self, recipient: Fingerprint, packet_bytes: Vec<u8>, now_ms: Millis)
        ensures
            final(self).peer_view() == old(self).peer_view(),
    ;

    /// Hand over, oldest first, and forget the envelopes held for `recipient`.
    fn take_envelopes(&mut self, recipient: &Fingerprint) -> (out: Vec<Vec<u8>>)
        ensures
            final(self).peer_view() == old(self).peer_view(),
            final(self).envelope_view() == old(self).envelope_view().remove(recipient@),
            bytes_views(out@) == held_for(old(self).envelope_view(), recipient@),
    ;

    /// Destroy everything. After this, no plaintext or key material remains.
    fn panic_wipe(&mut self)
        ensures
            final(self).peer_view() == Map::<Seq<u8>, PeerModel>::empty(),
            final(self).envelope_view() == Map::<Seq<u8>, Seq<Seq<u8>>>::empty(),
    ;
}

/// One channel's history, oldest first.
struct ChannelLog {
    name: String,
    msgs: Vec<StoredMessage>,
}

/// The messages of a log, as models.
pub open spec fn msg_views(v: Seq<StoredMessage>) -> Seq<MessageModel> {
    Seq::new(v.len(), |i: int| v[i]@)
}

/// The history of each channel an association list of logs holds.
spec fn logs_map(s: Seq<ChannelLog>) -> Map<Seq<char>, Seq<MessageModel>>
    decreases s.len(),
{
    if s.len() == 0 {
        Map::empty()
    } else {
        logs_map(s.drop_last()).insert(s.last().name@, msg_views(s.last().msgs@))
    }
}

spec fn distinct_names(s: Seq<ChannelLog>) -> bool {
    forall|i: int, j: int| 0 <= i < j < s.len() ==> s[i].name@ != s[j].name@
}

proof fn lemma_logs_contains(s: Seq<ChannelLog>, c: Seq<char>)
    requires
        distinct_names(s),
    ensures
        logs_map(s).contains_key(c) <==> exists|i: int| 0 <= i < s.len() && s[i].name@ == c,
        forall|i: int| 0 <= i < s.len() && s[i].name@ == c ==> logs_map(s)[c] == msg_views(s[i].msgs@),
    decreases s.len(),
{
    if s.len() > 0 {
        let t = s.drop_last();
        lemma_logs_contains(t, c);
        if exists|i: int| 0 <= i < s.len() && s[i].name@ == c {
            let i = choose|i: int| 0 <= i < s.len() && s[i].name@ == c;
            if i < s.len() - 1 {
                assert(t[i].name@ == c);
            }
        }
        if exists|i: int| 0 <= i < t.len() && t[i].name@ == c {
            let i = choose|i: int| 0 <= i < t.len() && t[i].name@ == c;
            assert(s[i].name@ == c);
        }
        assert forall|i: int| 0 <= i < s.len() && s[i].name@ == c implies logs_map(s)[c] == msg_views(s[i].msgs@) by {
            if i < s.len() - 1 {
                assert(t[i] == s[i]);
            }
        }
    }
}

proof fn lemma_logs_update(s: Seq<ChannelLog>, i: int, x: ChannelLog)
    requires
        distinct_names(s),
        0 <= i < s.len(),
        x.name@ == s[i].name@,
    ensures
        logs_map(s.update(i, x)) == logs_map(s).insert(x.name@, msg_views(x.msgs@)),
        distinct_names(s.update(i, x)),
    decreases s.len(),
{
    let u = s.update(i, x);
    if i == s.len() - 1 {
        assert(u.drop_last() =~= s.drop_last());
        assert(logs_map(u) =~= logs_map(s).insert(x.name@, msg_views(x.msgs@)));
    } else {
        let t = s.drop_last();
        assert(u.drop_last() =~= t.update(i, x));
        lemma_logs_update(t, i, x);
        assert(logs_map(u) =~= logs_map(s).insert(x.name@, msg_views(x.msgs@)));
    }
}

/// Sorted by timestamp, oldest first.
pub open spec fn sorted_by_time(l: Seq<MessageModel>) -> bool {
    forall|i: int, j: int| 0 <= i <= j < l.len() ==> l[i].timestamp_ms <= l[j].timestamp_ms
}

/// Where a message goes in a sorted log: after every message no newer than it.
pub open spec fn is_insert_point(l: Seq<MessageModel>, p: int, ts: u64) -> bool {
    &&& 0 <= p <= l.len()
    &&& forall|i: int| 0 <= i < p ==> l[i].timestamp_ms <= ts
    &&& forall|i: int| p <= i < l.len() ==> l[i].timestamp_ms > ts
}

/// Whether a message is too old to keep at `now` under a retention window (`0` keeps all).
pub open spec fn is_stale(m: MessageModel, now: Millis, window: Millis) -> bool {
    window > 0 && age(now, m.timestamp_ms) >= window
}

/// How many messages at the front of a log are too old.
pub open spec fn stale_prefix(l: Seq<MessageModel>, now: Millis, window: Millis) -> nat
    decreases l.len(),
{
    if l.len() > 0 && is_stale(l[0], now, window) {
        1 + stale_prefix(l.drop_first(), now, window)
    } else {
        0
    }
}

proof fn lemma_stale_prefix_le(l: Seq<MessageModel>, now: Millis, window: Millis)
    ensures
        stale_prefix(l, now, window) <= l.len(),
    decreases l.len(),
{
    if l.len() > 0 && is_stale(l[0], now, window) {
        lemma_stale_prefix_le(l.drop_first(), now, window);
    }
}

/// How many of the remaining messages exceed the count cap (the oldest go).
pub open spec fn excess(len: nat, cap: usize) -> nat {
    if len > cap {
        (len - cap) as nat
    } else {
        0
    }
}

/// The in-process store's contents.
struct MemoryState {
    logs: Vec<ChannelLog>,
    digests: BTreeSet<u64>,
    peers: FpMap<PeerRecord>,
    envelopes: FpMap<Vec<Envelope>>,
    history_max: usize,
    history_ms: Millis,
    envelope_ttl_ms: Millis,
    envelope_max_per_peer: usize,
}

impl MemoryState {
    /// Each channel's history, oldest first.
    spec fn history(&self) -> Map<Seq<char>, Seq<MessageModel>> {
        logs_map(self.logs@)
    }

    /// The history of one channel (empty if none).
    spec fn log(&self, channel: Seq<char>) -> Seq<MessageModel> {
        if self.history().contains_key(channel) {
            self.history()[channel]
        } else {
            Seq::empty()
        }
    }

    /// The digests the store answers `has_message` for, keyed big-endian.
    spec fn digest_keys(&self) -> Set<u64> {
        self.digests@
    }

    /// The peer records, by fingerprint.
    spec fn peers(&self) -> Map<Seq<u8>, PeerModel> {
        self.peers.view().map_values(|p: PeerRecord| p@)
    }

    /// The envelopes queued for each peer, as (bytes, queued at), oldest first.
    spec fn queues(&self) -> Map<Seq<u8>, Seq<(Seq<u8>, Millis)>> {
        self.envelopes.view().map_values(|q: Vec<Envelope>| envelope_views(q@))
    }

    spec fn limits(&self) -> (usize, Millis, Millis, usize) {
        (self.history_max, self.history_ms, self.envelope_ttl_ms, self.envelope_max_per_peer)
    }

    spec fn wf(&self) -> bool {
        &&& self.digests@ == history_keys(self.history())
        &&& keys_unique(self.history())
        &&& distinct_names(self.logs@)
        &&& self.peers.wf()
        &&& self.envelopes.wf()
        &&& forall|c: Seq<char>| #[trigger]
            self.history().contains_key(c) ==> sorted_by_time(self.history()[c])
    }

    fn new(
        history_max: usize,
        history_ms: Millis,
        envelope_ttl_ms: Millis,
        envelope_max_per_peer: usize,
    ) -> (s: Self)
        ensures
            s.wf(),
            s.history() == Map::<Seq<char>, Seq<MessageModel>>::empty(),
            s.digest_keys() == Set::<u64>::empty(),
            s.peers() == Map::<Seq<u8>, PeerModel>::empty(),
            s.queues() == Map::<Seq<u8>, Seq<(Seq<u8>, Millis)>>::empty(),
            s.limits() == (history_max, history_ms, envelope_ttl_ms, envelope_max_per_peer),
    {
        let s = MemoryState {
            logs: Vec::new(),
            digests: BTreeSet::new(),
            peers: FpMap::new(),
            envelopes: FpMap::new(),
            history_max,
            history_ms,
            envelope_ttl_ms,
            envelope_max_per_peer,
        };
        assert(s.history() =~= Map::<Seq<char>, Seq<MessageModel>>::empty());
        assert(history_keys(s.history()) =~= Set::<u64>::empty());
        assert(s.peers() =~= Map::<Seq<u8>, PeerModel>::empty());
        assert(s.queues() =~= Map::<Seq<u8>, Seq<(Seq<u8>, Millis)>>::empty());
        s
    }

    /// The index of a channel's log, if it has one.
    fn log_index(&self, channel: &str) -> (r: Option<usize>)
        requires
            distinct_names(self.logs@),
        ensures
            r matches Some(i) ==> i < self.logs@.len() && self.logs@[i as int].name@ == channel@,
            r is Some <==> self.history().contains_key(channel@),
    {
        let wanted: String = channel.to_owned();
        let mut i: usize = 0;
        while i < self.logs.len()
            invariant
                i <= self.logs@.len(),
                wanted@ == channel@,
                distinct_names(self.logs@),
                forall|j: int| 0 <= j < i ==> self.logs@[j].name@ != channel@,
            decreases self.logs@.len() - i,
        {
            if self.logs[i].name == wanted {
                proof {
                    lemma_logs_contains(self.logs@, channel@);
                }
                return Some(i);
            }
            i = i + 1;
        }
        proof {
            lemma_logs_contains(self.logs@, channel@);
        }
        None
    }
}

/// A message's digest, read big-endian.
pub open spec fn dkey(m: MessageModel) -> u64 {
    be_u64_of(m.digest@)
}

/// The keys of the digests of some messages.
pub open spec fn digest_key_set(l: Seq<MessageModel>) -> Set<u64> {
    Set::new(|k: u64| exists|i: int| 0 <= i < l.len() && #[trigger] dkey(l[i]) == k)
}

/// The digest keys of all messages a history holds.
pub open spec fn history_keys(h: Map<Seq<char>, Seq<MessageModel>>) -> Set<u64> {
    Set::new(
        |x: u64|
            exists|c: Seq<char>, i: int|
                #![trigger h[c][i]]
                h.contains_key(c) && 0 <= i < h[c].len() && dkey(h[c][i]) == x,
    )
}

/// No digest key is held twice anywhere in a history.
pub open spec fn keys_unique(h: Map<Seq<char>, Seq<MessageModel>>) -> bool {
    forall|c1: Seq<char>, i1: int, c2: Seq<char>, i2: int|
        #![trigger h[c1][i1], h[c2][i2]]
        h.contains_key(c1) && 0 <= i1 < h[c1].len() && h.contains_key(c2) && 0 <= i2 < h[c2].len() && dkey(
            h[c1][i1],
        ) == dkey(h[c2][i2]) ==> c1 == c2 && i1 == i2
}

/// No digest key occurs twice in a log.
pub open spec fn seq_keys_unique(l: Seq<MessageModel>) -> bool {
    forall|i: int, j: int| 0 <= i < j < l.len() ==> #[trigger] dkey(l[i]) != #[trigger] dkey(l[j])
}

/// The digest keys held outside channel `chan`.
pub open spec fn keys_elsewhere(h: Map<Seq<char>, Seq<MessageModel>>, chan: Seq<char>) -> Set<u64> {
    Set::new(
        |x: u64|
            exists|c: Seq<char>, i: int|
                #![trigger h[c][i]]
                c != chan && h.contains_key(c) && 0 <= i < h[c].len() && dkey(h[c][i]) == x,
    )
}

/// The log a history holds for `chan` (empty if none).
pub open spec fn log_of(h: Map<Seq<char>, Seq<MessageModel>>, chan: Seq<char>) -> Seq<MessageModel> {
    if h.contains_key(chan) {
        h[chan]
    } else {
        Seq::empty()
    }
}

proof fn lemma_keys_split(h: Map<Seq<char>, Seq<MessageModel>>, chan: Seq<char>, s: Seq<MessageModel>)
    ensures
        history_keys(h.insert(chan, s)) == keys_elsewhere(h, chan).union(digest_key_set(s)),
        history_keys(h) == keys_elsewhere(h, chan).union(digest_key_set(log_of(h, chan))),
        keys_unique(h) ==> keys_elsewhere(h, chan).disjoint(digest_key_set(log_of(h, chan))),
        keys_unique(h) ==> seq_keys_unique(log_of(h, chan)),
{
    let h2 = h.insert(chan, s);
    assert forall|x: u64| history_keys(h2).contains(x) == keys_elsewhere(h, chan).union(digest_key_set(s)).contains(x) by {
        if history_keys(h2).contains(x) {
            let (c, i) = choose|c: Seq<char>, i: int|
                #![trigger h2[c][i]]
                h2.contains_key(c) && 0 <= i < h2[c].len() && dkey(h2[c][i]) == x;
            if c == chan {
                assert(dkey(s[i]) == x);
            } else {
                assert(h[c][i] == h2[c][i]);
                assert(keys_elsewhere(h, chan).contains(x));
            }
        }
        if keys_elsewhere(h, chan).contains(x) {
            let (c, i) = choose|c: Seq<char>, i: int|
                #![trigger h[c][i]]
                c != chan && h.contains_key(c) && 0 <= i < h[c].len() && dkey(h[c][i]) == x;
            assert(h2[c][i] == h[c][i]);
        }
        if digest_key_set(s).contains(x) {
            let i = choose|i: int| 0 <= i < s.len() && #[trigger] dkey(s[i]) == x;
            assert(h2[chan][i] == s[i]);
        }
    }
    assert(history_keys(h2) =~= keys_elsewhere(h, chan).union(digest_key_set(s)));
    assert forall|x: u64| history_keys(h).contains(x) == keys_elsewhere(h, chan).union(digest_key_set(log_of(h, chan))).contains(x) by {
        if history_keys(h).contains(x) {
            let (c, i) = choose|c: Seq<char>, i: int|
                #![trigger h[c][i]]
                h.contains_key(c) && 0 <= i < h[c].len() && dkey(h[c][i]) == x;
            if c == chan {
                assert(dkey(log_of(h, chan)[i]) == x);
            }
        }
        if digest_key_set(log_of(h, chan)).contains(x) {
            let i = choose|i: int| 0 <= i < log_of(h, chan).len() && #[trigger] dkey(log_of(h, chan)[i]) == x;
            assert(h[chan][i] == log_of(h, chan)[i]);
        }
    }
    assert(history_keys(h) =~= keys_elsewhere(h, chan).union(digest_key_set(log_of(h, chan))));
    if keys_unique(h) {
        assert forall|x: u64| !(keys_elsewhere(h, chan).contains(x) && digest_key_set(log_of(h, chan)).contains(x)) by {
            if keys_elsewhere(h, chan).contains(x) && digest_key_set(log_of(h, chan)).contains(x) {
                let (c, i) = choose|c: Seq<char>, i: int|
                    #![trigger h[c][i]]
                    c != chan && h.contains_key(c) && 0 <= i < h[c].len() && dkey(h[c][i]) == x;
                let j = choose|j: int| 0 <= j < log_of(h, chan).len() && #[trigger] dkey(log_of(h, chan)[j]) == x;
                assert(h[chan][j] == log_of(h, chan)[j]);
                assert(dkey(h[c][i]) == dkey(h[chan][j]));
            }
        }
        assert forall|i: int, j: int| 0 <= i < j < log_of(h, chan).len() implies #[trigger] dkey(log_of(h, chan)[i])
            != #[trigger] dkey(log_of(h, chan)[j]) by {
            assert(h[chan][i] == log_of(h, chan)[i]);
            assert(h[chan][j] == log_of(h, chan)[j]);
        }
    }
}

/// Putting a message with a fresh key into channel `chan` and keeping `kept` of the result,
/// dropping `dropped`, leaves exactly the old keys plus the new one, less the dropped ones, each
/// still held once.
proof fn lemma_put_keys(
    h: Map<Seq<char>, Seq<MessageModel>>,
    chan: Seq<char>,
    p: int,
    m: MessageModel,
    dropped: Seq<MessageModel>,
    kept: Seq<MessageModel>,
)
    requires
        keys_unique(h),
        !history_keys(h).contains(dkey(m)),
        0 <= p <= log_of(h, chan).len(),
        dropped + kept == log_of(h, chan).insert(p, m),
    ensures
        history_keys(h.insert(chan, kept)) == history_keys(h).insert(dkey(m)).difference(digest_key_set(dropped)),
        keys_unique(h.insert(chan, kept)),
{
    let l0 = log_of(h, chan);
    let l1 = l0.insert(p, m);
    let k = dkey(m);
    lemma_keys_split(h, chan, kept);
    let oth = keys_elsewhere(h, chan);
    // The keys of the new log: the old ones and the new one, each once.
    assert forall|x: u64| digest_key_set(l1).contains(x) == digest_key_set(l0).insert(k).contains(x) by {
        if digest_key_set(l1).contains(x) {
            let i = choose|i: int| 0 <= i < l1.len() && #[trigger] dkey(l1[i]) == x;
            if i < p {
                assert(dkey(l0[i]) == x);
            } else if i > p {
                assert(l1[i] == l0[i - 1]);
                assert(dkey(l0[i - 1]) == x);
            }
        }
        if digest_key_set(l0).contains(x) {
            let i = choose|i: int| 0 <= i < l0.len() && #[trigger] dkey(l0[i]) == x;
            if i < p {
                assert(l1[i] == l0[i]);
            } else {
                assert(l1[i + 1] == l0[i]);
            }
        }
        if x == k {
            assert(l1[p] == m);
        }
    }
    assert(!digest_key_set(l0).contains(k));
    assert(seq_keys_unique(l1)) by {
        assert forall|i: int, j: int| 0 <= i < j < l1.len() implies #[trigger] dkey(l1[i]) != #[trigger] dkey(l1[j]) by {
            if i == p {
                let jj = if j < p { j } else { j - 1 };
                assert(l1[j] == l0[jj]);
            } else if j == p {
                assert(l1[i] == l0[i]);
            } else {
                let ii = if i < p { i } else { i - 1 };
                let jj = if j < p { j } else { j - 1 };
                assert(l1[i] == l0[ii]);
                assert(l1[j] == l0[jj]);
            }
        }
    }
    // Split of l1 into dropped and kept.
    let a = dropped.len() as int;
    assert forall|i: int| 0 <= i < dropped.len() implies #[trigger] dropped[i] == l1[i] by {}
    assert forall|i: int| 0 <= i < kept.len() implies #[trigger] kept[i] == l1[a + i] by {}
    assert forall|x: u64| digest_key_set(kept).contains(x) == digest_key_set(l1).difference(digest_key_set(dropped)).contains(x) by {
        if digest_key_set(kept).contains(x) {
            let i = choose|i: int| 0 <= i < kept.len() && #[trigger] dkey(kept[i]) == x;
            assert(dkey(l1[a + i]) == x);
            if digest_key_set(dropped).contains(x) {
                let j = choose|j: int| 0 <= j < dropped.len() && #[trigger] dkey(dropped[j]) == x;
                assert(dkey(l1[j]) == x);
            }
        }
        if digest_key_set(l1).contains(x) && !digest_key_set(dropped).contains(x) {
            let i = choose|i: int| 0 <= i < l1.len() && #[trigger] dkey(l1[i]) == x;
            if i < a {
                assert(dropped[i] == l1[i]);
            } else {
                assert(kept[i - a] == l1[i]);
            }
        }
    }
    assert(digest_key_set(kept) =~= digest_key_set(l1).difference(digest_key_set(dropped)));
    assert forall|x: u64| digest_key_set(dropped).contains(x) implies digest_key_set(l1).contains(x) by {
        let j = choose|j: int| 0 <= j < dropped.len() && #[trigger] dkey(dropped[j]) == x;
        assert(dkey(l1[j]) == x);
    }
    assert(history_keys(h.insert(chan, kept)) =~= history_keys(h).insert(k).difference(digest_key_set(dropped))) by {
        assert forall|x: u64| oth.contains(x) implies !digest_key_set(dropped).contains(x) by {
            if digest_key_set(dropped).contains(x) {
                assert(digest_key_set(l1).contains(x));
                assert(history_keys(h).contains(x));
            }
        }
    }
    // Uniqueness of the new history.
    let h2 = h.insert(chan, kept);
    assert forall|c1: Seq<char>, i1: int, c2: Seq<char>, i2: int|
        #![trigger h2[c1][i1], h2[c2][i2]]
        h2.contains_key(c1) && 0 <= i1 < h2[c1].len() && h2.contains_key(c2) && 0 <= i2 < h2[c2].len() && dkey(
            h2[c1][i1],
        ) == dkey(h2[c2][i2]) implies c1 == c2 && i1 == i2 by {
        if c1 == chan && c2 == chan {
            assert(kept[i1] == l1[a + i1]);
            assert(kept[i2] == l1[a + i2]);
            if i1 < i2 {
                assert(dkey(l1[a + i1]) != dkey(l1[a + i2]));
            } else if i2 < i1 {
                assert(dkey(l1[a + i2]) != dkey(l1[a + i1]));
            }
        } else if c1 == chan {
            let x = dkey(h2[c1][i1]);
            assert(digest_key_set(kept).contains(x)) by {
                assert(dkey(kept[i1]) == x);
            }
            assert(h2[c2][i2] == h[c2][i2]);
            assert(oth.contains(x));
            assert(digest_key_set(l1).contains(x));
        } else if c2 == chan {
            let x = dkey(h2[c2][i2]);
            assert(digest_key_set(kept).contains(x)) by {
                assert(dkey(kept[i2]) == x);
            }
            assert(h2[c1][i1] == h[c1][i1]);
            assert(oth.contains(x));
            assert(digest_key_set(l1).contains(x));
        } else {
            assert(h2[c1][i1] == h[c1][i1]);
            assert(h2[c2][i2] == h[c2][i2]);
        }
    }
}

/// The history of `channel` after a new message is stored at `now`, and what leaves it: the
/// message goes in after everything no newer, then the stale messages and the oldest beyond the
/// cap are dropped (in that order, oldest first).
pub open spec fn after_insert(l1: Seq<MessageModel>, now: Millis, window: Millis, cap: usize) -> (
    Seq<MessageModel>,
    Seq<MessageModel>,
) {
    let s = stale_prefix(l1, now, window);
    let l2 = l1.skip(s as int);
    let d = excess(l2.len(), cap);
    (l2.skip(d as int), l1.take((s + d) as int))
}

proof fn lemma_stale_prefix_step(l: Seq<MessageModel>, s: int, now: Millis, window: Millis)
    requires
        0 <= s < l.len(),
        is_stale(l[s], now, window),
    ensures
        stale_prefix(l.skip(s), now, window) == 1 + stale_prefix(l.skip(s + 1), now, window),
{
    assert(l.skip(s).drop_first() =~= l.skip(s + 1));
}

proof fn lemma_sorted_skip(l: Seq<MessageModel>, d: int)
    requires
        sorted_by_time(l),
        0 <= d <= l.len(),
    ensures
        sorted_by_time(l.skip(d)),
{
}

/// Retention keeps exactly the fresh messages: in a sorted history, every message past the stale
/// prefix is fresh.
pub proof fn law_retention_drops_only_stale(l: Seq<MessageModel>, now: Millis, window: Millis, i: int)
    requires
        sorted_by_time(l),
        0 <= i < l.len(),
    ensures
        i < stale_prefix(l, now, window) <==> is_stale(l[i], now, window),
    decreases l.len(),
{
    if l.len() > 0 && is_stale(l[0], now, window) {
        if i > 0 {
            assert(l.drop_first()[i - 1] == l[i]);
            law_retention_drops_only_stale(l.drop_first(), now, window, i - 1);
        }
    } else if i > 0 {
        // l[0] is fresh; every later message is at least as new, so fresh as well.
        assert(l[0].timestamp_ms <= l[i].timestamp_ms);
    }
}

/// Put `msg` after every message no newer than it.
fn insert_sorted(msgs: &mut Vec<StoredMessage>, msg: StoredMessage)
    requires
        sorted_by_time(msg_views(old(msgs)@)),
    ensures
        exists|p: int|
            #![trigger is_insert_point(msg_views(old(msgs)@), p, msg.timestamp_ms)]
            is_insert_point(msg_views(old(msgs)@), p, msg.timestamp_ms) && msg_views(final(msgs)@)
                == msg_views(old(msgs)@).insert(p, msg@),
        sorted_by_time(msg_views(final(msgs)@)),
{
    let ghost l0 = msg_views(msgs@);
    let now = msg.timestamp_ms;
    let mut p: usize = 0;
    while p < msgs.len() && msgs[p].timestamp_ms <= now
        invariant
            p <= msgs@.len(),
            msg_views(msgs@) == l0,
            sorted_by_time(l0),
            forall|i: int| 0 <= i < p ==> l0[i].timestamp_ms <= now,
        decreases msgs@.len() - p,
    {
        p = p + 1;
    }
    assert(is_insert_point(l0, p as int, now)) by {
        if p < msgs@.len() {
            assert(l0[p as int] == msgs@[p as int]@);
            assert forall|i: int| p <= i < l0.len() implies l0[i].timestamp_ms > now by {
                assert(l0[p as int].timestamp_ms <= l0[i].timestamp_ms);
            }
        }
    }
    let ghost mv = msg@;
    msgs.insert(p, msg);
    assert(msg_views(msgs@) =~= l0.insert(p as int, mv));
}

/// Split a sorted log into what retention keeps and what it drops: the messages too old for the
/// window, then the oldest beyond the count cap.
fn prune(msgs: Vec<StoredMessage>, now: Millis, window: Millis, cap: usize) -> (r: (
    Vec<StoredMessage>,
    Vec<StoredMessage>,
))
    requires
        sorted_by_time(msg_views(msgs@)),
    ensures
        (msg_views(r.0@), msg_views(r.1@)) == after_insert(msg_views(msgs@), now, window, cap),
        sorted_by_time(msg_views(r.0@)),
{
    let ghost l1 = msg_views(msgs@);
    let mut msgs = msgs;
    let mut s1: usize = 0;
    assert(l1.skip(0) =~= l1);
    while s1 < msgs.len() && window > 0 && now.saturating_sub(msgs[s1].timestamp_ms) >= window
        invariant
            s1 <= msgs@.len(),
            msg_views(msgs@) == l1,
            stale_prefix(l1, now, window) == s1 + stale_prefix(l1.skip(s1 as int), now, window),
        decreases msgs@.len() - s1,
    {
        proof {
            lemma_stale_prefix_step(l1, s1 as int, now, window);
        }
        s1 = s1 + 1;
    }
    assert(stale_prefix(l1.skip(s1 as int), now, window) == 0);
    let mut kept = msgs.split_off(s1);
    let ghost l2 = l1.skip(s1 as int);
    assert(msg_views(kept@) =~= l2);
    assert(msg_views(msgs@) =~= l1.take(s1 as int));
    proof { lemma_sorted_skip(l1, s1 as int); }
    let n = kept.len();
    if n > cap {
        let d2 = n - cap;
        let tail = kept.split_off(d2);
        assert(msg_views(kept@) =~= l2.take(d2 as int));
        assert(msg_views(tail@) =~= l2.skip(d2 as int));
        proof { lemma_sorted_skip(l2, d2 as int); }
        let ghost m0 = msgs@;
        let ghost k0 = kept@;
        msgs.append(&mut kept);
        assert(msg_views(msgs@) =~= l1.take(s1 + d2)) by {
            assert(msgs@ =~= m0 + k0);
        }
        (tail, msgs)
    } else {
        assert(l2.skip(0) =~= l2);
        assert(l1.take(s1 + 0) =~= l1.take(s1 as int));
        (kept, msgs)
    }
}

/// Remove the digests of `dropped` from `digests`.
fn forget_digests(digests: &mut BTreeSet<u64>, dropped: &Vec<StoredMessage>)
    ensures
        final(digests)@ == old(digests)@.difference(digest_key_set(msg_views(dropped@))),
{
    let ghost dk = msg_views(dropped@);
    let ghost d_before = digests@;
    assert(dk.take(0) =~= Seq::<MessageModel>::empty());
    assert(digest_key_set(Seq::<MessageModel>::empty()) =~= Set::<u64>::empty());
    assert(d_before.difference(Set::<u64>::empty()) =~= d_before);
    let mut j: usize = 0;
    while j < dropped.len()
        invariant
            j <= dropped@.len(),
            dk == msg_views(dropped@),
            digests@ == d_before.difference(digest_key_set(dk.take(j as int))),
        decreases dropped@.len() - j,
    {
        let kj = u64_key(&dropped[j].digest);
        digests.remove(&kj);
        proof {
            assert(dk[j as int].digest == dropped@[j as int].digest);
            assert forall|x: u64| #[trigger] digest_key_set(dk.take(j + 1)).contains(x) == (
            digest_key_set(dk.take(j as int)).contains(x) || x == kj) by {
                if digest_key_set(dk.take(j + 1)).contains(x) {
                    let i = choose|i: int| 0 <= i < dk.take(j + 1).len() && #[trigger] dkey(dk.take(j + 1)[i]) == x;
                    if i < j {
                        assert(dk.take(j as int)[i] == dk.take(j + 1)[i]);
                    }
                }
                if digest_key_set(dk.take(j as int)).contains(x) {
                    let i = choose|i: int| 0 <= i < dk.take(j as int).len() && #[trigger] dkey(dk.take(j as int)[i]) == x;
                    assert(dk.take(j + 1)[i] == dk.take(j as int)[i]);
                }
                if x == kj {
                    assert(dk.take(j + 1)[j as int] == dk[j as int]);
                    assert(dkey(dk.take(j + 1)[j as int]) == x);
                }
            }
            assert(digests@ =~= d_before.difference(digest_key_set(dk.take(j + 1))));
        }
        j = j + 1;
    }
    assert(dk.take(dropped@.len() as int) =~= dk);
}

impl MemoryState {
    fn put_message(&mut self, msg: StoredMessage)
        requires
            old(self).wf(),
        ensures
            final(self).wf(),
            final(self).limits() == old(self).limits(),
            final(self).peers() == old(self).peers(),
            final(self).queues() == old(self).queues(),
            old(self).digest_keys().contains(be_u64_of(msg.digest@)) ==> final(self).history()
                == old(self).history() && final(self).digest_keys() == old(self).digest_keys(),
            !old(self).digest_keys().contains(be_u64_of(msg.digest@)) ==> exists|p: int|
                #![trigger is_insert_point(old(self).log(msg.channel@), p, msg.timestamp_ms)]
                {
                    let l1 = old(self).log(msg.channel@).insert(p, msg@);
                    let (kept, dropped) = after_insert(
                        l1,
                        msg.timestamp_ms,
                        old(self).limits().1,
                        old(self).limits().0,
                    );
                    &&& is_insert_point(old(self).log(msg.channel@), p, msg.timestamp_ms)
                    &&& final(self).history() == old(self).history().insert(msg.channel@, kept)
                    &&& final(self).digest_keys() == old(self).digest_keys().insert(
                        be_u64_of(msg.digest@),
                    ).difference(digest_key_set(dropped))
                },
    {
        let k = u64_key(&msg.digest);
        if self.digests.contains(&k) {
            return;
        }
        self.digests.insert(k);
        let now = msg.timestamp_ms;
        let ghost chan = msg.channel@;
        let ghost l0 = self.log(chan);
        let ghost h0 = self.history();
        assert(sorted_by_time(l0)) by {
            assert(self.logs@ == old(self).logs@);
            if h0.contains_key(chan) {
                assert(old(self).history().contains_key(chan));
            }
        }
        let idx = self.log_index(msg.channel.as_str());
        let (name, mut msgs) = match idx {
            Some(i) => {
                proof {
                    lemma_logs_contains(self.logs@, chan);
                }
                let log = self.logs.remove(i);
                (log.name, log.msgs)
            },
            None => (msg.channel.clone(), Vec::new()),
        };
        assert(msg_views(msgs@) =~= l0);
        insert_sorted(&mut msgs, msg);
        let ghost l1 = msg_views(msgs@);
        let (kept, dropped) = prune(msgs, now, self.history_ms, self.history_max);
        forget_digests(&mut self.digests, &dropped);
        let ghost final_log = msg_views(kept@);
        let log = ChannelLog { name, msgs: kept };
        match idx {
            Some(i) => {
                let ghost before = self.logs@;
                self.logs.insert(i, log);
                proof {
                    assert(self.logs@ =~= old(self).logs@.update(i as int, log));
                    lemma_logs_update(old(self).logs@, i as int, log);
                }
            },
            None => {
                let ghost before = self.logs@;
                self.logs.push(log);
                proof {
                    lemma_logs_contains(before, chan);
                    assert(self.logs@.drop_last() =~= before);
                    assert forall|a: int, b: int| 0 <= a < b < self.logs@.len() implies self.logs@[a].name@
                        != self.logs@[b].name@ by {
                        if b == before.len() {
                            assert(self.logs@[a] == before[a]);
                        }
                    }
                }
            },
        }
        proof {
            assert(self.history() =~= h0.insert(chan, final_log));
            let p = choose|p: int|
                #![trigger is_insert_point(l0, p, now)]
                is_insert_point(l0, p, now) && l1 == l0.insert(p, msg@);
            assert(is_insert_point(old(self).log(chan), p, now));
            let (kv, dv) = after_insert(l1, now, old(self).limits().1, old(self).limits().0);
            lemma_stale_prefix_le(l1, now, old(self).limits().1);
            assert(dv + kv =~= l1);
            assert(l0 == log_of(h0, chan));
            assert(!history_keys(h0).contains(dkey(msg@)));
            lemma_put_keys(h0, chan, p, msg@, dv, kv);
            assert forall|c: Seq<char>| #[trigger] self.history().contains_key(c) implies sorted_by_time(
                self.history()[c],
            ) by {
                if c != chan {
                    assert(old(self).history().contains_key(c));
                }
            }
        }
    }
}

/// The predicate "queued less than `ttl` ago at `now`".
pub open spec fn envelope_fresh(now: Millis, ttl: Millis) -> spec_fn((Seq<u8>, Millis)) -> bool {
    |e: (Seq<u8>, Millis)| age(now, e.1) < ttl
}

/// A peer's queue after one more envelope: expired ones go, the new one joins at the back, and
/// the oldest beyond the per-peer cap are dropped.
pub open spec fn spec_queue(
    q: Seq<(Seq<u8>, Millis)>,
    bytes: Seq<u8>,
    now: Millis,
    ttl: Millis,
    cap: usize,
) -> Seq<(Seq<u8>, Millis)> {
    let g = q.filter(envelope_fresh(now, ttl)).push((bytes, now));
    g.skip(excess(g.len(), cap) as int)
}

/// Whether some stored message carries `digest`.
pub open spec fn holds_digest(h: Map<Seq<char>, Seq<MessageModel>>, digest: Seq<u8>) -> bool {
    exists|c: Seq<char>, i: int|
        h.contains_key(c) && 0 <= i < h[c].len() && #[trigger] h[c][i].digest@ == digest
}

/// The message a history holds with `digest` (meaningful where `holds_digest`).
pub open spec fn message_with_digest(h: Map<Seq<char>, Seq<MessageModel>>, digest: Seq<u8>) -> MessageModel {
    let (c, i) = choose|c: Seq<char>, i: int|
        h.contains_key(c) && 0 <= i < h[c].len() && #[trigger] h[c][i].digest@ == digest;
    h[c][i]
}

/// After storing a message with a digest not held before: its channel's log holds it, or it fell
/// to the count cap on arrival, in which case nothing with its digest is held and every message
/// left in its channel is no older than it.
pub open spec fn kept_or_capped(h: Map<Seq<char>, Seq<MessageModel>>, m: MessageModel) -> bool {
    let l = log_of(h, m.channel);
    ||| l.contains(m)
    ||| !holds_digest(h, m.digest@) && forall|i: int|
        0 <= i < l.len() ==> m.timestamp_ms <= #[trigger] l[i].timestamp_ms
}

/// A digest is held exactly when its big-endian key is among the history's keys.
proof fn lemma_holds_digest_key(h: Map<Seq<char>, Seq<MessageModel>>, digest: Seq<u8>)
    requires
        digest.len() == 8,
    ensures
        holds_digest(h, digest) <==> history_keys(h).contains(be_u64_of(digest)),
{
    let k = be_u64_of(digest);
    if holds_digest(h, digest) {
        let (c, i) = choose|c: Seq<char>, i: int|
            h.contains_key(c) && 0 <= i < h[c].len() && #[trigger] h[c][i].digest@ == digest;
        assert(dkey(h[c][i]) == k);
        assert(history_keys(h).contains(k));
    }
    if history_keys(h).contains(k) {
        let (c, i) = choose|c: Seq<char>, i: int|
            #![trigger h[c][i]]
            h.contains_key(c) && 0 <= i < h[c].len() && dkey(h[c][i]) == k;
        crate::bytes::lemma_be_u64_bytes_roundtrip(h[c][i].digest@);
        crate::bytes::lemma_be_u64_bytes_roundtrip(digest);
        assert(h[c][i].digest@ == digest);
    }
}

/// No stale message sits at or after a fresh one in the stale prefix.
proof fn lemma_stale_prefix_before(l: Seq<MessageModel>, now: Millis, window: Millis, i: int)
    requires
        0 <= i < l.len(),
        !is_stale(l[i], now, window),
    ensures
        stale_prefix(l, now, window) <= i,
    decreases i,
{
    if i > 0 && is_stale(l[0], now, window) {
        assert(l.drop_first()[i - 1] == l[i]);
        lemma_stale_prefix_before(l.drop_first(), now, window, i - 1);
    }
}

/// Inserting a message with a new digest at its insert point, then applying retention, leaves it
/// held or capped away.
proof fn lemma_insert_kept_or_capped(
    h: Map<Seq<char>, Seq<MessageModel>>,
    m: MessageModel,
    p: int,
    window: Millis,
    cap: usize,
)
    requires
        is_insert_point(log_of(h, m.channel), p, m.timestamp_ms),
        !holds_digest(h, m.digest@),
    ensures
        kept_or_capped(
            h.insert(
                m.channel,
                after_insert(log_of(h, m.channel).insert(p, m), m.timestamp_ms, window, cap).0,
            ),
            m,
        ),
{
    let c = m.channel;
    let l0 = log_of(h, c);
    let l1 = l0.insert(p, m);
    let now = m.timestamp_ms;
    let s = stale_prefix(l1, now, window);
    let l2 = l1.skip(s as int);
    let d = excess(l2.len(), cap);
    let kept = l2.skip(d as int);
    let h1 = h.insert(c, kept);
    assert(after_insert(l1, now, window, cap).0 == kept);
    assert(l1[p] == m);
    lemma_stale_prefix_before(l1, now, window, p);
    assert(log_of(h1, c) == kept);
    if p >= s + d {
        assert(kept[p - s - d] == m);
        assert(kept.contains(m));
    } else {
        assert forall|i: int| 0 <= i < kept.len() implies m.timestamp_ms <= #[trigger] kept[i].timestamp_ms by {
            assert(kept[i] == l1[s + d + i]);
            assert(l1[s + d + i] == l0[s + d + i - 1]);
        }
        if holds_digest(h1, m.digest@) {
            let (c2, i2) = choose|c2: Seq<char>, i2: int|
                h1.contains_key(c2) && 0 <= i2 < h1[c2].len() && #[trigger] h1[c2][i2].digest@ == m.digest@;
            if c2 == c {
                assert(h1[c2][i2] == l1[s + d + i2]);
                assert(l1[s + d + i2] == l0[s + d + i2 - 1]);
                assert(h.contains_key(c));
                assert(h[c][s + d + i2 - 1].digest@ == m.digest@);
            } else {
                assert(h[c2][i2] == h1[c2][i2]);
            }
            assert(false);
        }
    }
}

/// The bytes of each entry.
pub open spec fn bytes_views(v: Seq<Vec<u8>>) -> Seq<Seq<u8>> {
    Seq::new(v.len(), |i: int| v[i]@)
}

/// The bytes of each queued envelope.
pub open spec fn queue_bytes(q: Seq<(Seq<u8>, Millis)>) -> Seq<Seq<u8>> {
    Seq::new(q.len(), |i: int| q[i].0)
}

/// The digests of a history, in order.
pub open spec fn digests_in(l: Seq<MessageModel>) -> Seq<[u8; 8]> {
    Seq::new(l.len(), |i: int| l[i].digest)
}

impl MemoryState {
    fn message_by_digest(&self, digest: &[u8; 8]) -> (r: Option<StoredMessage>)
        requires
            self.wf(),
        ensures
            r is Some ==> r->Some_0@.digest@ == digest@ && exists|c: Seq<char>, i: int|
                self.history().contains_key(c) && 0 <= i < self.history()[c].len()
                    && #[trigger] self.history()[c][i] == r->Some_0@,
            r is None ==> !holds_digest(self.history(), digest@),
    {
        let want = u64_key(digest);
        let mut j: usize = 0;
        while j < self.logs.len()
            invariant
                j <= self.logs@.len(),
                self.wf(),
                want == be_u64_of(digest@),
                forall|a: int, i: int|
                    0 <= a < j && 0 <= i < self.logs@[a].msgs@.len() ==> #[trigger] self.logs@[a].msgs@[i].digest@
                        != digest@,
            decreases self.logs@.len() - j,
        {
            let msgs = &self.logs[j].msgs;
            let mut i: usize = 0;
            while i < msgs.len()
                invariant
                    i <= msgs@.len(),
                    j < self.logs@.len(),
                    self.wf(),
                    msgs == self.logs@[j as int].msgs,
                    want == be_u64_of(digest@),
                    forall|b: int| 0 <= b < i ==> #[trigger] msgs@[b].digest@ != digest@,
                decreases msgs@.len() - i,
            {
                if u64_key(&msgs[i].digest) == want {
                    proof {
                        crate::bytes::lemma_be_u64_bytes_roundtrip(msgs@[i as int].digest@);
                        crate::bytes::lemma_be_u64_bytes_roundtrip(digest@);
                        assert(msgs@[i as int].digest@ =~= digest@);
                        lemma_logs_contains(self.logs@, self.logs@[j as int].name@);
                        let c = self.logs@[j as int].name@;
                        assert(self.history()[c][i as int] == msgs@[i as int]@);
                    }
                    return Some(copy_message(&msgs[i]));
                }
                i = i + 1;
            }
            j = j + 1;
        }
        proof {
            if holds_digest(self.history(), digest@) {
                let (c, i) = choose|c: Seq<char>, i: int|
                    self.history().contains_key(c) && 0 <= i < self.history()[c].len()
                        && #[trigger] self.history()[c][i].digest@ == digest@;
                lemma_logs_contains(self.logs@, c);
                let a = choose|a: int| 0 <= a < self.logs@.len() && self.logs@[a].name@ == c;
                assert(self.logs@[a].msgs@[i].digest@ == digest@);
            }
        }
        None
    }

    fn history_of(&self, channel: &str, limit: usize) -> (v: Vec<StoredMessage>)
        requires
            self.wf(),
        ensures
            msg_views(v@) == (if self.log(channel@).len() > limit {
                self.log(channel@).skip(self.log(channel@).len() - limit)
            } else {
                self.log(channel@)
            }),
    {
        let mut out: Vec<StoredMessage> = Vec::new();
        match self.log_index(channel) {
            Some(j) => {
                proof {
                    lemma_logs_contains(self.logs@, channel@);
                }
                let msgs = &self.logs[j].msgs;
                let ghost l = self.log(channel@);
                assert(l == msg_views(msgs@));
                let start: usize = if msgs.len() > limit {
                    msgs.len() - limit
                } else {
                    0
                };
                let mut i: usize = start;
                while i < msgs.len()
                    invariant
                        start <= i <= msgs@.len(),
                        l == msg_views(msgs@),
                        msg_views(out@) == l.subrange(start as int, i as int),
                    decreases msgs@.len() - i,
                {
                    let ghost before = out@;
                    out.push(copy_message(&msgs[i]));
                    assert(msg_views(out@) =~= msg_views(before).push(msgs@[i as int]@));
                    i = i + 1;
                    assert(l.subrange(start as int, i as int) =~= l.subrange(start as int, i - 1).push(
                        l[i - 1],
                    ));
                }
                assert(l.subrange(start as int, msgs@.len() as int) =~= (if l.len() > limit {
                    l.skip(l.len() - limit)
                } else {
                    l
                }));
            },
            None => {
                assert(msg_views(out@) =~= Seq::<MessageModel>::empty());
            },
        }
        out
    }

    fn digests_of(&self, channel: &str) -> (v: Vec<[u8; 8]>)
        requires
            self.wf(),
        ensures
            v@ == digests_in(self.log(channel@)),
    {
        let mut out: Vec<[u8; 8]> = Vec::new();
        match self.log_index(channel) {
            Some(j) => {
                proof {
                    lemma_logs_contains(self.logs@, channel@);
                }
                let msgs = &self.logs[j].msgs;
                let ghost l = self.log(channel@);
                assert(l == msg_views(msgs@));
                let mut i: usize = 0;
                while i < msgs.len()
                    invariant
                        i <= msgs@.len(),
                        l == msg_views(msgs@),
                        out@ == digests_in(l.subrange(0, i as int)),
                    decreases msgs@.len() - i,
                {
                    out.push(msgs[i].digest);
                    i = i + 1;
                    assert(out@ =~= digests_in(l.subrange(0, i as int)));
                }
                assert(l.subrange(0, msgs@.len() as int) =~= l);
            },
            None => {
                assert(out@ =~= digests_in(self.log(channel@)));
            },
        }
        out
    }

    fn queue(&mut self, recipient: Fingerprint, packet_bytes: Vec<u8>, now_ms: Millis)
        requires
            old(self).wf(),
        ensures
            final(self).wf(),
            final(self).limits() == old(self).limits(),
            final(self).history() == old(self).history(),
            final(self).digest_keys() == old(self).digest_keys(),
            final(self).peers() == old(self).peers(),
            final(self).queues() == old(self).queues().insert(
                recipient@,
                spec_queue(
                    if old(self).queues().contains_key(recipient@) {
                        old(self).queues()[recipient@]
                    } else {
                        Seq::empty()
                    },
                    packet_bytes@,
                    now_ms,
                    old(self).limits().2,
                    old(self).limits().3,
                ),
            ),
    {
        let ttl = self.envelope_ttl_ms;
        let ghost q0v: Seq<(Seq<u8>, Millis)> = if self.queues().contains_key(recipient@) {
            self.queues()[recipient@]
        } else {
            Seq::empty()
        };
        let q = match self.envelopes.remove(&recipient) {
            Some(q) => q,
            None => Vec::new(),
        };
        assert(envelope_views(q@) =~= q0v);
        // Expire old envelopes first.
        let mut kept: Vec<Envelope> = Vec::new();
        let mut i: usize = 0;
        while i < q.len()
            invariant
                i <= q@.len(),
                envelope_views(q@) == q0v,
                envelope_views(kept@) == q0v.subrange(0, i as int).filter(envelope_fresh(now_ms, ttl)),
            decreases q@.len() - i,
        {
            proof {
                assert(q0v.subrange(0, i + 1) =~= q0v.subrange(0, i as int).push(q0v[i as int]));
                q0v.subrange(0, i as int).lemma_filter_push(q0v[i as int], envelope_fresh(now_ms, ttl));
            }
            if now_ms.saturating_sub(q[i].queued_ms) < ttl {
                let ghost before = kept@;
                kept.push(Envelope { packet_bytes: crate::bytes::copy_bytes(q[i].packet_bytes.as_slice()), queued_ms: q[i].queued_ms });
                assert(envelope_views(kept@) =~= envelope_views(before).push(q0v[i as int]));
            }
            i = i + 1;
        }
        assert(q0v.subrange(0, q@.len() as int) =~= q0v);
        let ghost g0 = envelope_views(kept@);
        kept.push(Envelope { packet_bytes, queued_ms: now_ms });
        let ghost g = envelope_views(kept@);
        assert(g =~= g0.push((packet_bytes@, now_ms)));
        // Bound the per-peer queue (the oldest go).
        let n = kept.len();
        let result = if n > self.envelope_max_per_peer {
            let d = n - self.envelope_max_per_peer;
            let tail = kept.split_off(d);
            assert(envelope_views(tail@) =~= g.skip(d as int));
            tail
        } else {
            assert(g.skip(0) =~= g);
            kept
        };
        let ghost qs0 = self.queues();
        self.envelopes.insert(recipient, result);
        proof {
            assert(self.logs@ == old(self).logs@);
            assert forall|c: Seq<char>| #[trigger] self.history().contains_key(c) implies sorted_by_time(
                self.history()[c],
            ) by {
                assert(old(self).history().contains_key(c));
            }
            assert(self.queues() =~= old(self).queues().insert(
                recipient@,
                spec_queue(q0v, packet_bytes@, now_ms, ttl, self.envelope_max_per_peer),
            ));
        }
    }

    fn take(&mut self, recipient: &Fingerprint) -> (out: Vec<Vec<u8>>)
        requires
            old(self).wf(),
        ensures
            final(self).wf(),
            final(self).limits() == old(self).limits(),
            final(self).history() == old(self).history(),
            final(self).digest_keys() == old(self).digest_keys(),
            final(self).peers() == old(self).peers(),
            final(self).queues() == old(self).queues().remove(recipient@),
            bytes_views(out@) == (if old(self).queues().contains_key(recipient@) {
                queue_bytes(old(self).queues()[recipient@])
            } else {
                Seq::empty()
            }),
    {
        let mut out: Vec<Vec<u8>> = Vec::new();
        let removed = self.envelopes.remove(recipient);
        proof {
            assert(self.queues() =~= old(self).queues().remove(recipient@));
            assert(self.logs@ == old(self).logs@);
            assert forall|c: Seq<char>| #[trigger] self.history().contains_key(c) implies sorted_by_time(
                self.history()[c],
            ) by {
                assert(old(self).history().contains_key(c));
            }
        }
        match removed {
            Some(q) => {
                let ghost qv = envelope_views(q@);
                let mut i: usize = 0;
                while i < q.len()
                    invariant
                        i <= q@.len(),
                        qv == envelope_views(q@),
                        bytes_views(out@) == queue_bytes(qv.subrange(0, i as int)),
                    decreases q@.len() - i,
                {
                    let ghost before = out@;
                    let b = crate::bytes::copy_bytes(q[i].packet_bytes.as_slice());
                    assert(b@ == qv[i as int].0);
                    out.push(b);
                    assert(bytes_views(out@) =~= bytes_views(before).push(qv[i as int].0));
                    assert(queue_bytes(qv.subrange(0, i + 1)) =~= queue_bytes(qv.subrange(0, i as int)).push(
                        qv[i as int].0,
                    ));
                    i = i + 1;
                }
                assert(qv.subrange(0, q@.len() as int) =~= qv);
            },
            None => {
                assert(bytes_views(out@) =~= Seq::<Seq<u8>>::empty());
            },
        }
        out
    }

    fn wipe(&mut self)
        ensures
            final(self).wf(),
            final(self).limits() == old(self).limits(),
            final(self).history() == Map::<Seq<char>, Seq<MessageModel>>::empty(),
            final(self).digest_keys() == Set::<u64>::empty(),
            final(self).peers() == Map::<Seq<u8>, PeerModel>::empty(),
            final(self).queues() == Map::<Seq<u8>, Seq<(Seq<u8>, Millis)>>::empty(),
    {
        self.logs.clear();
        self.digests.clear();
        self.peers.clear();
        self.envelopes.clear();
        assert(self.history() =~= Map::<Seq<char>, Seq<MessageModel>>::empty());
        assert(history_keys(self.history()) =~= Set::<u64>::empty());
        assert(self.peers() =~= Map::<Seq<u8>, PeerModel>::empty());
        assert(self.queues() =~= Map::<Seq<u8>, Seq<(Seq<u8>, Millis)>>::empty());
    }
}

impl MemoryState {
    fn upsert(&mut self, peer: PeerRecord)
        requires
            old(self).wf(),
        ensures
            final(self).wf(),
            final(self).limits() == old(self).limits(),
            final(self).history() == old(self).history(),
            final(self).digest_keys() == old(self).digest_keys(),
            final(self).queues() == old(self).queues(),
            final(self).peers() == old(self).peers().insert(peer.fingerprint@, peer@),
    {
        let ghost pv = peer@;
        self.peers.insert(peer.fingerprint, peer);
        proof {
            assert(self.peers() =~= old(self).peers().insert(pv.fingerprint, pv));
            assert(self.logs@ == old(self).logs@);
            assert forall|c: Seq<char>| #[trigger] self.history().contains_key(c) implies sorted_by_time(
                self.history()[c],
            ) by {
                assert(old(self).history().contains_key(c));
            }
        }
    }

    fn peer(&self, fp: &Fingerprint) -> (r: Option<PeerRecord>)
        requires
            self.wf(),
        ensures
            r is Some <==> self.peers().contains_key(fp@),
            r matches Some(p) ==> p@ == self.peers()[fp@],
    {
        match self.peers.get(fp) {
            Some(p) => Some(copy_peer(p)),
            None => None,
        }
    }
}

/// The in-process store. The simulator and tests use it; devices use the encrypted store.
pub struct MemoryStore {
    st: MemoryState,
}

impl MemoryStore {
    #[verifier::type_invariant]
    spec fn inv(&self) -> bool {
        self.st.wf()
    }

    /// Each channel's history, oldest first.
    pub closed spec fn history(&self) -> Map<Seq<char>, Seq<MessageModel>> {
        self.st.history()
    }

    /// The history of one channel (empty if none).
    pub open spec fn log(&self, channel: Seq<char>) -> Seq<MessageModel> {
        if self.history().contains_key(channel) {
            self.history()[channel]
        } else {
            Seq::empty()
        }
    }

    /// The digests `has_message` answers for, keyed big-endian.
    pub closed spec fn digest_keys(&self) -> Set<u64> {
        self.st.digest_keys()
    }

    /// The peer records, by fingerprint.
    pub closed spec fn peers(&self) -> Map<Seq<u8>, PeerModel> {
        self.st.peers()
    }

    /// The envelopes queued for each peer, as (bytes, queued at), oldest first.
    pub closed spec fn queues(&self) -> Map<Seq<u8>, Seq<(Seq<u8>, Millis)>> {
        self.st.queues()
    }

    /// (history cap, history window, envelope lifetime, envelopes per peer).
    pub closed spec fn limits(&self) -> (usize, Millis, Millis, usize) {
        self.st.limits()
    }

    pub fn new(
        history_max: usize,
        history_ms: Millis,
        envelope_ttl_ms: Millis,
        envelope_max_per_peer: usize,
    ) -> (s: Self)
        ensures
            s.history() == Map::<Seq<char>, Seq<MessageModel>>::empty(),
            s.digest_keys() == Set::<u64>::empty(),
            s.peers() == Map::<Seq<u8>, PeerModel>::empty(),
            s.queues() == Map::<Seq<u8>, Seq<(Seq<u8>, Millis)>>::empty(),
            s.limits() == (history_max, history_ms, envelope_ttl_ms, envelope_max_per_peer),
    {
        MemoryStore {
            st: MemoryState::new(history_max, history_ms, envelope_ttl_ms, envelope_max_per_peer),
        }
    }

    /// Move the contents out, leaving an empty store behind.
    fn take_state(&mut self) -> (st: MemoryState)
        ensures
            st == old(self).st,
            st.wf(),
    {
        proof {
            use_type_invariant(&*self);
        }
        let mut st = MemoryState::new(0, 0, 0, 0);
        std::mem::swap(&mut st, &mut self.st);
        st
    }
}

impl Store for MemoryStore {
    open spec fn peer_view(&self) -> Map<Seq<u8>, PeerModel> {
        self.peers()
    }

    open spec fn envelope_view(&self) -> Map<Seq<u8>, Seq<Seq<u8>>> {
        self.queues().map_values(|q: Seq<(Seq<u8>, Millis)>| queue_bytes(q))
    }

    open spec fn history_view(&self) -> Map<Seq<char>, Seq<MessageModel>> {
        self.history()
    }

    /// Store a message unless its digest is already held. It goes in after every message no newer;
    /// then the channel's messages older than the window (measured from this message) are dropped,
    /// and the oldest beyond the count cap; the digests of everything dropped are forgotten, so
    /// `has_message` answers only for messages still held.
    fn put_channel_message(&mut self, msg: StoredMessage)
        ensures
            final(self).limits() == old(self).limits(),
            final(self).peers() == old(self).peers(),
            final(self).queues() == old(self).queues(),
            old(self).digest_keys().contains(be_u64_of(msg.digest@)) ==> final(self).history()
                == old(self).history() && final(self).digest_keys() == old(self).digest_keys(),
            !old(self).digest_keys().contains(be_u64_of(msg.digest@)) ==> exists|p: int|
                #![trigger is_insert_point(old(self).log(msg.channel@), p, msg.timestamp_ms)]
                {
                    let l1 = old(self).log(msg.channel@).insert(p, msg@);
                    let (kept, dropped) = after_insert(
                        l1,
                        msg.timestamp_ms,
                        old(self).limits().1,
                        old(self).limits().0,
                    );
                    &&& is_insert_point(old(self).log(msg.channel@), p, msg.timestamp_ms)
                    &&& final(self).history() == old(self).history().insert(msg.channel@, kept)
                    &&& final(self).digest_keys() == old(self).digest_keys().insert(
                        be_u64_of(msg.digest@),
                    ).difference(digest_key_set(dropped))
                },
    {
        let ghost old_st = self.st;
        let ghost chan = msg.channel@;
        let ghost ts = msg.timestamp_ms;
        let ghost mv = msg@;
        let ghost k = be_u64_of(msg.digest@);
        proof {
            use_type_invariant(&*self);
            lemma_holds_digest_key(old_st.history(), msg.digest@);
        }
        let mut st = self.take_state();
        st.put_message(msg);
        self.st = st;
        proof {
            if !old_st.digest_keys().contains(k) {
                let p = choose|p: int|
                    #![trigger is_insert_point(old_st.log(chan), p, ts)]
                    {
                        let l1 = old_st.log(chan).insert(p, mv);
                        let (kept, dropped) = after_insert(l1, ts, old_st.limits().1, old_st.limits().0);
                        &&& is_insert_point(old_st.log(chan), p, ts)
                        &&& self.st.history() == old_st.history().insert(chan, kept)
                        &&& self.st.digest_keys() == old_st.digest_keys().insert(k).difference(
                            digest_key_set(dropped),
                        )
                    };
                assert(old(self).log(chan) == old_st.log(chan));
                assert(is_insert_point(old(self).log(chan), p, ts));
                assert(log_of(old_st.history(), chan) == old_st.log(chan));
                lemma_insert_kept_or_capped(old_st.history(), mv, p, old_st.limits().1, old_st.limits().0);
            }
        }
    }

    fn has_message(&self, digest: &[u8; 8]) -> (b: bool)
        ensures
            b == self.digest_keys().contains(be_u64_of(digest@)),
            b == holds_digest(self.history(), digest@),
    {
        proof {
            use_type_invariant(self);
            let h = self.history();
            let k = be_u64_of(digest@);
            if holds_digest(h, digest@) {
                let (c, i) = choose|c: Seq<char>, i: int|
                    h.contains_key(c) && 0 <= i < h[c].len() && #[trigger] h[c][i].digest@ == digest@;
                assert(dkey(h[c][i]) == k);
                assert(history_keys(h).contains(k));
            }
            if history_keys(h).contains(k) {
                let (c, i) = choose|c: Seq<char>, i: int|
                    #![trigger h[c][i]]
                    h.contains_key(c) && 0 <= i < h[c].len() && dkey(h[c][i]) == k;
                crate::bytes::lemma_be_u64_bytes_roundtrip(h[c][i].digest@);
                crate::bytes::lemma_be_u64_bytes_roundtrip(digest@);
                assert(h[c][i].digest@ == digest@);
            }
        }
        let k = u64_key(digest);
        self.st.digests.contains(&k)
    }

    /// The last `limit` messages of the channel, oldest first.
    fn channel_history(&self, channel: &str, limit: usize) -> (v: Vec<StoredMessage>)
        ensures
            msg_views(v@) == (if self.log(channel@).len() > limit {
                self.log(channel@).skip(self.log(channel@).len() - limit)
            } else {
                self.log(channel@)
            }),
            sorted_by_time(self.log(channel@)),
            sorted_by_time(msg_views(v@)),
    {
        proof {
            use_type_invariant(self);
        }
        let v = self.st.history_of(channel, limit);
        proof {
            let l = self.log(channel@);
            assert(sorted_by_time(l));
            let d = if l.len() > limit { l.len() - limit } else { 0 };
            assert(msg_views(v@) =~= l.skip(d as int));
        }
        v
    }

    fn channel_digests(&self, channel: &str) -> (v: Vec<[u8; 8]>)
        ensures
            v@ == digests_in(self.log(channel@)),
    {
        proof {
            use_type_invariant(self);
        }
        self.st.digests_of(channel)
    }

    fn message_by_digest(&self, digest: &[u8; 8]) -> (r: Option<StoredMessage>)
        ensures
            r is Some ==> r->Some_0@.digest@ == digest@ && exists|c: Seq<char>, i: int|
                self.history().contains_key(c) && 0 <= i < self.history()[c].len()
                    && #[trigger] self.history()[c][i] == r->Some_0@,
            r is None ==> !holds_digest(self.history(), digest@),
    {
        proof {
            use_type_invariant(self);
        }
        let r = self.st.message_by_digest(digest);
        proof {
            if r is Some {
                let h = self.history();
                let (c, i) = choose|c: Seq<char>, i: int|
                    self.st.history().contains_key(c) && 0 <= i < self.st.history()[c].len()
                        && #[trigger] self.st.history()[c][i] == r->Some_0@;
                assert(self.history()[c][i] == r->Some_0@);
                assert(h[c][i].digest@ == digest@);
                assert(holds_digest(h, digest@));
                let (c2, i2) = choose|c2: Seq<char>, i2: int|
                    h.contains_key(c2) && 0 <= i2 < h[c2].len() && #[trigger] h[c2][i2].digest@ == digest@;
                assert(dkey(h[c][i]) == dkey(h[c2][i2]));
                assert(message_with_digest(h, digest@) == h[c2][i2]);
            }
        }
        r
    }

    fn upsert_peer(&mut self, peer: PeerRecord)
        ensures
            final(self).limits() == old(self).limits(),
            final(self).history() == old(self).history(),
            final(self).digest_keys() == old(self).digest_keys(),
            final(self).queues() == old(self).queues(),
            final(self).peers() == old(self).peers().insert(peer.fingerprint@, peer@),
    {
        let mut st = self.take_state();
        st.upsert(peer);
        self.st = st;
    }

    fn get_peer(&self, fp: &Fingerprint) -> (r: Option<PeerRecord>)
        ensures
            r is Some <==> self.peers().contains_key(fp@),
            r matches Some(p) ==> p@ == self.peers()[fp@],
    {
        proof {
            use_type_invariant(self);
        }
        self.st.peer(fp)
    }

    /// Queue bytes for a peer: its expired envelopes go first, and its oldest beyond the per-peer
    /// cap are dropped.
    fn queue_envelope(&mut self, recipient: Fingerprint, packet_bytes: Vec<u8>, now_ms: Millis)
        ensures
            final(self).limits() == old(self).limits(),
            final(self).history() == old(self).history(),
            final(self).digest_keys() == old(self).digest_keys(),
            final(self).peers() == old(self).peers(),
            final(self).queues() == old(self).queues().insert(
                recipient@,
                spec_queue(
                    if old(self).queues().contains_key(recipient@) {
                        old(self).queues()[recipient@]
                    } else {
                        Seq::empty()
                    },
                    packet_bytes@,
                    now_ms,
                    old(self).limits().2,
                    old(self).limits().3,
                ),
            ),
    {
        let mut st = self.take_state();
        st.queue(recipient, packet_bytes, now_ms);
        self.st = st;
    }

    /// Hand over everything queued for a peer, oldest first, and forget it.
    fn take_envelopes(&mut self, recipient: &Fingerprint) -> (out: Vec<Vec<u8>>)
        ensures
            final(self).limits() == old(self).limits(),
            final(self).history() == old(self).history(),
            final(self).digest_keys() == old(self).digest_keys(),
            final(self).peers() == old(self).peers(),
            final(self).queues() == old(self).queues().remove(recipient@),
            bytes_views(out@) == (if old(self).queues().contains_key(recipient@) {
                queue_bytes(old(self).queues()[recipient@])
            } else {
                Seq::empty()
            }),
    {
        let mut st = self.take_state();
        let out = st.take(recipient);
        self.st = st;
        out
    }

    fn panic_wipe(&mut self)
        ensures
            final(self).limits() == old(self).limits(),
            final(self).history() == Map::<Seq<char>, Seq<MessageModel>>::empty(),
            final(self).digest_keys() == Set::<u64>::empty(),
            final(self).peers() == Map::<Seq<u8>, PeerModel>::empty(),
            final(self).queues() == Map::<Seq<u8>, Seq<(Seq<u8>, Millis)>>::empty(),
    {
        let mut st = self.take_state();
        st.wipe();
        self.st = st;
    }
}

/// A peer record reads back as it was written.
pub proof fn law_peer_read_back(s: Map<Seq<u8>, PeerModel>, p: PeerModel)
    ensures
        s.insert(p.fingerprint, p)[p.fingerprint] == p,
        s.insert(p.fingerprint, p).contains_key(p.fingerprint),
{
}

/// A channel's history never exceeds the count cap after a store.
pub proof fn law_history_capped(l1: Seq<MessageModel>, now: Millis, window: Millis, cap: usize)
    ensures
        after_insert(l1, now, window, cap).0.len() <= cap,
{
}

/// A peer's queue never exceeds the per-peer cap (when the cap allows at least one envelope).
pub proof fn law_queue_capped(
    q: Seq<(Seq<u8>, Millis)>,
    bytes: Seq<u8>,
    now: Millis,
    ttl: Millis,
    cap: usize,
)
    requires
        cap >= 1,
    ensures
        spec_queue(q, bytes, now, ttl, cap).len() <= cap,
        spec_queue(q, bytes, now, ttl, cap).last() == (bytes, now),
{
}

} // verus!
