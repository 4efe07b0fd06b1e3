//! Flood control: the machinery that lets a packet reach a whole crowd without melting the
//! 2.4 GHz band. Four cooperating pieces, all pure and clock-injected:
//!
//! * [`SeenCache`] — dedup + per-message hear counter (drives suppression).
//! * [`RateLimiter`] — per-sender token bucket + greylist (defeats a flooding node).
//! * [`RelayScheduler`] — holds jittered rebroadcasts and cancels them once enough copies
//!   have been overheard (counter-based suppression).
//! * free functions [`rebroadcast_probability`] / [`relay_delay`] — density-adaptive fanout.
//!
//! Digests and sender ids are keyed by their eight bytes read big-endian, which orders them as
//! the byte arrays order, so eviction tie-breaks (and therefore a whole simulation) are
//! deterministic.

use vstd::prelude::*;

use crate::bytes::be_u64_of;
use crate::clock::Millis;
use crate::config::{Tunables, PROB_SCALE};
use crate::frag::{age, u64_key};
use crate::random::{draw_below, draw_between};
use crate::transport::LinkId;
use crate::wire::{Packet, PacketModel};
use crate::bytes::u64_be;
use rand::rngs::StdRng;
use std::collections::BTreeMap;

verus! {

broadcast use vstd::std_specs::btree::group_btree_axioms;

/// What the [`SeenCache`] knows about a digest right now.
#[derive(Debug, Clone, Copy, PartialEq, Eq, Structural)]
pub struct Observation {
    /// True only the first time this digest is seen (i.e. deliver/relay this copy).
    pub is_new: bool,
    /// How many times this digest has been heard, including this observation.
    pub hear_count: u32,
}

/// One remembered digest.
#[derive(Debug, Clone, Copy, PartialEq, Eq, Structural)]
pub struct SeenEntry {
    pub first_seen_ms: Millis,
    pub hear_count: u32,
}

/// `n + 1`, saturating at `u32::MAX`.
pub open spec fn sat_inc(n: u32) -> u32 {
    if n == u32::MAX {
        n
    } else {
        (n + 1) as u32
    }
}

/// The entry to evict when the cache is full: first seen earliest, ties going to the smallest key.
pub open spec fn is_oldest_seen(m: Map<u64, SeenEntry>, k: u64) -> bool {
    &&& m.contains_key(k)
    &&& forall|k2: u64|
        #![trigger m.contains_key(k2)]
        m.contains_key(k2) ==> (m[k].first_seen_ms < m[k2].first_seen_ms || (m[k].first_seen_ms
            == m[k2].first_seen_ms && k <= k2))
}

pub open spec fn oldest_seen(m: Map<u64, SeenEntry>) -> u64 {
    choose|k: u64| is_oldest_seen(m, k)
}

/// The effect of one observation of the digest keyed `k` at `now`, and what it reports.
pub open spec fn spec_observe(m: Map<u64, SeenEntry>, capacity: usize, k: u64, now: Millis) -> (
    Map<u64, SeenEntry>,
    Observation,
) {
    if m.contains_key(k) {
        let c = sat_inc(m[k].hear_count);
        (
            m.insert(k, SeenEntry { first_seen_ms: m[k].first_seen_ms, hear_count: c }),
            Observation { is_new: false, hear_count: c },
        )
    } else {
        let room = if m.dom().len() >= capacity && m.dom().len() > 0 {
            m.remove(oldest_seen(m))
        } else {
            m
        };
        (
            room.insert(k, SeenEntry { first_seen_ms: now, hear_count: 1 }),
            Observation { is_new: true, hear_count: 1 },
        )
    }
}

/// The entries still fresh at `now`.
pub open spec fn fresh_seen(m: Map<u64, SeenEntry>, now: Millis, ttl: Millis) -> Set<u64> {
    m.dom().filter(|k: u64| age(now, m[k].first_seen_ms) < ttl)
}

/// The bound on how many digests the cache holds.
pub open spec fn seen_bound(capacity: usize) -> nat {
    if capacity > 0 {
        capacity as nat
    } else {
        1
    }
}

/// LRU-with-TTL dedup cache keyed on the 8-byte packet digest.
pub struct SeenCache {
    map: BTreeMap<u64, SeenEntry>,
    cfg: Tunables,
}

impl SeenCache {
    /// The remembered digests, keyed big-endian.
    pub closed spec fn view_map(&self) -> Map<u64, SeenEntry> {
        self.map@
    }

    pub closed spec fn config(&self) -> Tunables {
        self.cfg
    }

    pub closed spec fn wf(&self) -> bool {
        &&& self.map@.dom().finite()
        &&& self.map@.dom().len() <= seen_bound(self.cfg.seen_cache_capacity)
    }

    pub fn new(cfg: Tunables) -> (c: Self)
        ensures
            c.wf(),
            c.view_map() == Map::<u64, SeenEntry>::empty(),
            c.config() == cfg,
    {
        SeenCache { map: BTreeMap::new(), cfg }
    }

    /// Record one hearing of `digest`. Only the first hearing is new; every hearing counts.
    pub fn observe(&mut self, digest: [u8; 8], now_ms: Millis) -> (obs: Observation)
        requires
            old(self).wf(),
        ensures
            final(self).wf(),
            final(self).config() == old(self).config(),
            (final(self).view_map(), obs) == spec_observe(
                old(self).view_map(),
                old(self).config().seen_cache_capacity,
                be_u64_of(digest@),
                now_ms,
            ),
    {
        let k = u64_key(&digest);
        match self.map.get(&k) {
            Some(e) => {
                let c = e.hear_count.saturating_add(1);
                let entry = SeenEntry { first_seen_ms: e.first_seen_ms, hear_count: c };
                self.map.insert(k, entry);
                assert(self.map@.dom() =~= old(self).map@.dom());
                return Observation { is_new: false, hear_count: c };
            },
            None => {},
        }
        let ghost m0 = self.map@;
        if self.map.len() >= self.cfg.seen_cache_capacity {
            self.evict_oldest();
        }
        proof {
            if m0.dom().len() >= self.cfg.seen_cache_capacity && m0.dom().len() > 0 {
                assert(self.map@ == m0.remove(oldest_seen(m0)));
            } else {
                assert(self.map@ == m0);
            }
        }
        let ghost m1 = self.map@;
        self.map.insert(k, SeenEntry { first_seen_ms: now_ms, hear_count: 1 });
        proof {
            assert(!m1.contains_key(k));
            assert(self.map@.dom() =~= m1.dom().insert(k));
            if m0.dom().len() >= self.cfg.seen_cache_capacity && m0.dom().len() > 0 {
                assert(m1.dom() =~= m0.dom().remove(oldest_seen(m0)));
                assert(m1.dom().len() == m0.dom().len() - 1);
            }
        }
        Observation { is_new: true, hear_count: 1 }
    }

    /// How many times `digest` has been heard (zero if it is not remembered).
    pub fn hear_count(&self, digest: &[u8; 8]) -> (n: u32)
        ensures
            n == heard(self.view_map(), be_u64_of(digest@)),
    {
        let k = u64_key(digest);
        match self.map.get(&k) {
            Some(e) => e.hear_count,
            None => 0,
        }
    }

    pub fn len(&self) -> (n: usize)
        ensures
            n == self.view_map().dom().len(),
    {
        self.map.len()
    }

    pub fn is_empty(&self) -> (b: bool)
        ensures
            b == (self.view_map().dom().len() == 0),
    {
        self.map.len() == 0
    }

    /// Forget every digest first seen `seen_cache_ttl_ms` or longer ago. Returns how many went.
    pub fn evict_expired(&mut self, now_ms: Millis) -> (n: usize)
        requires
            old(self).wf(),
        ensures
            final(self).wf(),
            final(self).config() == old(self).config(),
            final(self).view_map() == old(self).view_map().restrict(
                fresh_seen(old(self).view_map(), now_ms, old(self).config().seen_cache_ttl_ms),
            ),
            n == old(self).view_map().dom().len() - final(self).view_map().dom().len(),
    {
        let ttl = self.cfg.seen_cache_ttl_ms;
        let ghost m0 = self.map@;
        let ghost keep = fresh_seen(m0, now_ms, ttl);
        let keys = self.keys();
        let before = self.map.len();
        let mut j: usize = 0;
        while j < keys.len()
            invariant
                j <= keys@.len(),
                self.cfg == old(self).cfg,
                self.map@.dom().finite(),
                forall|k: u64| m0.contains_key(k) ==> #[trigger] keys@.contains(k),
                keep == fresh_seen(m0, now_ms, ttl),
                ttl == self.cfg.seen_cache_ttl_ms,
                self.map@ == m0.restrict(
                    m0.dom().filter(|k: u64| keep.contains(k) || !keys@.subrange(0, j as int).contains(k)),
                ),
            decreases keys@.len() - j,
        {
            let k = keys[j];
            let ghost cur = self.map@;
            let ghost pre = keys@.subrange(0, j as int);
            let stale = match self.map.get(&k) {
                Some(e) => now_ms.saturating_sub(e.first_seen_ms) >= ttl,
                None => false,
            };
            if stale {
                self.map.remove(&k);
            }
            j = j + 1;
            proof {
                let post = keys@.subrange(0, j as int);
                assert(post =~= pre.push(k));
                let target = m0.restrict(
                    m0.dom().filter(|k2: u64| keep.contains(k2) || !post.contains(k2)),
                );
                assert forall|k2: u64| k2 != k implies (post.contains(k2) == pre.contains(k2)) by {
                    if post.contains(k2) {
                        let i = choose|i: int| 0 <= i < post.len() && post[i] == k2;
                        assert(pre[i] == k2);
                    }
                    if pre.contains(k2) {
                        let i = choose|i: int| 0 <= i < pre.len() && pre[i] == k2;
                        assert(post[i] == k2);
                    }
                }
                assert(post.contains(k)) by {
                    assert(post[post.len() - 1] == k);
                }
                if cur.contains_key(k) {
                    assert(cur[k] == m0[k]);
                    assert(keep.contains(k) == (age(now_ms, m0[k].first_seen_ms) < ttl));
                }
                assert(self.map@ =~= target);
            }
        }
        proof {
            assert(keys@.subrange(0, keys@.len() as int) =~= keys@);
            assert(m0.dom().filter(|k: u64| keep.contains(k) || !keys@.contains(k)) =~= keep);
            assert(self.map@ =~= m0.restrict(keep));
            vstd::set_lib::lemma_len_subset(self.map@.dom(), m0.dom());
        }
        before - self.map.len()
    }

    /// Every remembered key.
    fn keys(&self) -> (keys: Vec<u64>)
        ensures
            forall|k: u64| self.map@.contains_key(k) ==> #[trigger] keys@.contains(k),
    {
        let mut keys: Vec<u64> = Vec::new();
        for (k, _e) in it: self.map.iter()
            invariant
                keys@.len() == it.index(),
                forall|j: int| 0 <= j < it.index() ==> keys@[j] == *(#[trigger] it.seq()[j]).0,
        {
            keys.push(*k);
        }
        keys
    }

    /// Forget the digest seen first (ties: smallest key), if any.
    fn evict_oldest(&mut self)
        requires
            old(self).wf(),
        ensures
            old(self).map@.dom().len() > 0 ==> final(self).map@ == old(self).map@.remove(
                oldest_seen(old(self).map@),
            ),
            old(self).map@.dom().len() > 0 ==> old(self).map@.contains_key(
                oldest_seen(old(self).map@),
            ),
            old(self).map@.dom().len() == 0 ==> final(self).map@ == old(self).map@,
            final(self).cfg == old(self).cfg,
    {
        let ghost m = self.map@;
        let mut best: Option<(u64, Millis)> = None;
        for (k, e) in it: self.map.iter()
            invariant
                best matches Some((bk, bt)) ==> m.contains_key(bk) && m[bk].first_seen_ms == bt,
                forall|i: int|
                    0 <= i < it.index() ==> (best matches Some((bk, bt)) && (bt < m[*(#[trigger] it.seq()[i]).0].first_seen_ms || (bt
                        == m[*it.seq()[i].0].first_seen_ms && bk <= *it.seq()[i].0))),
                best is None <==> it.index() == 0,
                m == self.map@,
        {
            match best {
                Some((bk, bt)) => {
                    if e.first_seen_ms < bt || (e.first_seen_ms == bt && *k < bk) {
                        best = Some((*k, e.first_seen_ms));
                    }
                },
                None => {
                    best = Some((*k, e.first_seen_ms));
                },
            }
        }
        match best {
            Some((k, _)) => {
                proof {
                    assert(is_oldest_seen(m, k));
                    let o = oldest_seen(m);
                    assert(is_oldest_seen(m, o));
                    assert(m.contains_key(k) && m.contains_key(o));
                }
                self.map.remove(&k);
            },
            None => {
                assert(m.dom().len() == 0);
            },
        }
    }
}

/// Hearing the same digest twice: the second hearing is never new, and counts one more.
pub proof fn law_second_hearing_not_new(m: Map<u64, SeenEntry>, capacity: usize, k: u64, t1: Millis, t2: Millis)
    ensures
        ({
            let (m1, o1) = spec_observe(m, capacity, k, t1);
            let (m2, o2) = spec_observe(m1, capacity, k, t2);
            &&& !o2.is_new
            &&& o2.hear_count == sat_inc(o1.hear_count)
        }),
{
}

/// Token units per token: a bucket holds tokens in sixty-thousandths, so refilling at
/// `rate_sustained_per_min` tokens per minute adds exactly `rate_sustained_per_min` units per
/// millisecond.
pub const TOKEN_UNITS: u64 = 60_000;

/// One sender's token bucket.
#[derive(Debug, Clone, Copy, PartialEq, Eq, Structural)]
pub struct Bucket {
    /// Tokens held, in [`TOKEN_UNITS`] per token.
    pub tokens: u64,
    pub last_ms: Millis,
    pub greylist_until: Millis,
}

/// A full bucket's content, in units.
pub open spec fn full_bucket(cfg: Tunables) -> int {
    cfg.rate_burst * TOKEN_UNITS
}

/// The bucket a sender has before its first packet.
pub open spec fn fresh_bucket(cfg: Tunables, now: Millis) -> Bucket {
    Bucket { tokens: full_bucket(cfg) as u64, last_ms: now, greylist_until: 0 }
}

/// `a + b`, saturating at `u64::MAX`.
pub open spec fn sat_add(a: u64, b: u64) -> u64 {
    if a + b > u64::MAX {
        u64::MAX
    } else {
        (a + b) as u64
    }
}

/// The effect of one packet from the sender keyed `k` at `now`, and whether it is admitted.
pub open spec fn spec_allow(m: Map<u64, Bucket>, cfg: Tunables, k: u64, now: Millis) -> (
    Map<u64, Bucket>,
    bool,
) {
    let b = if m.contains_key(k) {
        m[k]
    } else {
        fresh_bucket(cfg, now)
    };
    if now < b.greylist_until {
        (m.insert(k, b), false)
    } else {
        let refilled = b.tokens + age(now, b.last_ms) * cfg.rate_sustained_per_min;
        let t = if refilled < full_bucket(cfg) {
            refilled
        } else {
            full_bucket(cfg)
        };
        if t >= TOKEN_UNITS {
            (
                m.insert(
                    k,
                    Bucket { tokens: (t - TOKEN_UNITS) as u64, last_ms: now, greylist_until: b.greylist_until },
                ),
                true,
            )
        } else {
            (
                m.insert(
                    k,
                    Bucket {
                        tokens: t as u64,
                        last_ms: now,
                        greylist_until: sat_add(now, cfg.greylist_ms),
                    },
                ),
                false,
            )
        }
    }
}

/// Per-sender token bucket. A node that exceeds its budget is denied and greylisted, which is
/// how a single malicious flooder is contained without central moderation.
pub struct RateLimiter {
    buckets: BTreeMap<u64, Bucket>,
    cfg: Tunables,
}

impl RateLimiter {
    /// Each known sender's bucket, keyed by its id read big-endian.
    pub closed spec fn view_map(&self) -> Map<u64, Bucket> {
        self.buckets@
    }

    pub closed spec fn config(&self) -> Tunables {
        self.cfg
    }

    pub closed spec fn wf(&self) -> bool {
        &&& forall|k: u64| #[trigger]
            self.buckets@.contains_key(k) ==> self.buckets@[k].tokens <= full_bucket(self.cfg)
    }

    pub fn new(cfg: Tunables) -> (r: Self)
        ensures
            r.wf(),
            r.view_map() == Map::<u64, Bucket>::empty(),
            r.config() == cfg,
    {
        RateLimiter { buckets: BTreeMap::new(), cfg }
    }

    /// Returns true if a packet from `sender` is admitted now.
    pub fn allow(&mut self, sender: [u8; 8], now_ms: Millis) -> (ok: bool)
        requires
            old(self).wf(),
        ensures
            final(self).wf(),
            final(self).config() == old(self).config(),
            (final(self).view_map(), ok) == spec_allow(
                old(self).view_map(),
                old(self).config(),
                be_u64_of(sender@),
                now_ms,
            ),
    {
        let k = u64_key(&sender);
        let burst_units: u64 = self.cfg.rate_burst as u64 * TOKEN_UNITS;
        let b = match self.buckets.get(&k) {
            Some(b) => *b,
            None => Bucket { tokens: burst_units, last_ms: now_ms, greylist_until: 0 },
        };
        if now_ms < b.greylist_until {
            self.buckets.insert(k, b);
            return false;
        }
        let elapsed = now_ms.saturating_sub(b.last_ms);
        let rate = self.cfg.rate_sustained_per_min;
        assert((elapsed as u128) * (rate as u128) <= 0xffff_ffff_ffff_ffffu128 * 0xffff_ffffu128)
            by (nonlinear_arith)
            requires
                elapsed <= 0xffff_ffff_ffff_ffffu64,
                rate <= 0xffff_ffffu32,
        ;
        let gain: u128 = (elapsed as u128) * (rate as u128);
        let refilled: u128 = b.tokens as u128 + gain;
        let t: u64 = if refilled < burst_units as u128 {
            refilled as u64
        } else {
            burst_units
        };
        if t >= TOKEN_UNITS {
            self.buckets.insert(
                k,
                Bucket { tokens: t - TOKEN_UNITS, last_ms: now_ms, greylist_until: b.greylist_until },
            );
            true
        } else {
            self.buckets.insert(
                k,
                Bucket {
                    tokens: t,
                    last_ms: now_ms,
                    greylist_until: now_ms.saturating_add(self.cfg.greylist_ms),
                },
            );
            false
        }
    }

    /// Whether `sender` is greylisted at `now_ms`.
    pub fn is_greylisted(&self, sender: &[u8; 8], now_ms: Millis) -> (g: bool)
        ensures
            g == (self.view_map().contains_key(be_u64_of(sender@)) && now_ms < self.view_map()[be_u64_of(
                sender@,
            )].greylist_until),
    {
        let k = u64_key(sender);
        match self.buckets.get(&k) {
            Some(b) => now_ms < b.greylist_until,
            None => false,
        }
    }
}

/// A denied sender is greylisted: a sender that was not greylisted and is refused stays greylisted
/// for `greylist_ms`, and every packet it sends before its greylist runs out is refused.
pub proof fn law_denied_sender_stays_denied(
    m: Map<u64, Bucket>,
    cfg: Tunables,
    k: u64,
    now: Millis,
    later: Millis,
)
    requires
        !spec_allow(m, cfg, k, now).1,
        now <= later,
        later < spec_allow(m, cfg, k, now).0[k].greylist_until,
    ensures
        !spec_allow(spec_allow(m, cfg, k, now).0, cfg, k, later).1,
        !(m.contains_key(k) && now < m[k].greylist_until) ==> spec_allow(m, cfg, k, now).0[k].greylist_until
            == sat_add(now, cfg.greylist_ms),
{
}

/// A sender's first packet is admitted whenever the burst allows at least one packet.
pub proof fn law_first_packet_admitted(m: Map<u64, Bucket>, cfg: Tunables, k: u64, now: Millis)
    requires
        !m.contains_key(k),
        cfg.rate_burst >= 1,
    ensures
        spec_allow(m, cfg, k, now).1,
{
}

/// A rebroadcast waiting out its jitter window.
pub struct Pending {
    packet: Packet,
    send_at_ms: Millis,
    exclude_link: LinkId,
}

/// What a pending rebroadcast holds.
pub struct PendingModel {
    pub packet: PacketModel,
    pub send_at_ms: Millis,
    pub exclude_link: LinkId,
}

impl Pending {
    pub closed spec fn view(&self) -> PendingModel {
        PendingModel { packet: self.packet@, send_at_ms: self.send_at_ms, exclude_link: self.exclude_link }
    }
}

/// A rebroadcast that is due to go out now (on every link except `exclude_link`).
#[derive(Debug, Clone)]
pub struct DueRelay {
    pub packet: Packet,
    pub exclude_link: LinkId,
}

/// Whether the pending rebroadcast keyed `k` is due at `now`.
pub open spec fn is_due(m: Map<u64, PendingModel>, k: u64, now: Millis) -> bool {
    m.contains_key(k) && m[k].send_at_ms <= now
}

/// Whether a due rebroadcast goes out, rather than being suppressed because enough neighbours
/// already carried it.
pub open spec fn is_released(
    m: Map<u64, PendingModel>,
    seen: Map<u64, SeenEntry>,
    threshold: u32,
    k: u64,
    now: Millis,
) -> bool {
    is_due(m, k, now) && heard(seen, k) < threshold
}

/// How many times the digest keyed `k` has been heard (zero if it is not remembered).
pub open spec fn heard(seen: Map<u64, SeenEntry>, k: u64) -> u32 {
    if seen.contains_key(k) {
        seen[k].hear_count
    } else {
        0
    }
}

/// Holds jittered rebroadcasts and releases or suppresses them on [`RelayScheduler::due`].
pub struct RelayScheduler {
    pending: BTreeMap<u64, Pending>,
    cfg: Tunables,
}

impl RelayScheduler {
    /// The rebroadcasts waiting, keyed by digest read big-endian.
    pub closed spec fn view_map(&self) -> Map<u64, PendingModel> {
        self.pending@.map_values(|p: Pending| p.view())
    }

    pub closed spec fn config(&self) -> Tunables {
        self.cfg
    }

    pub fn new(cfg: Tunables) -> (s: Self)
        ensures
            s.view_map() == Map::<u64, PendingModel>::empty(),
            s.config() == cfg,
    {
        let s = RelayScheduler { pending: BTreeMap::new(), cfg };
        assert(s.view_map() =~= Map::<u64, PendingModel>::empty());
        s
    }

    pub fn pending_count(&self) -> (n: usize)
        ensures
            n == self.view_map().dom().len(),
    {
        assert(self.view_map().dom() =~= self.pending@.dom());
        self.pending.len()
    }

    /// Schedule `packet` (already TTL-decremented) to rebroadcast after `delay_ms`, skipping the
    /// link it arrived on (split-horizon). A digest already waiting keeps its first schedule.
    pub fn schedule(
        &mut self,
        digest: [u8; 8],
        packet: Packet,
        exclude_link: LinkId,
        delay_ms: Millis,
        now_ms: Millis,
    )
        ensures
            final(self).config() == old(self).config(),
            final(self).view_map() == (if old(self).view_map().contains_key(be_u64_of(digest@)) {
                old(self).view_map()
            } else {
                old(self).view_map().insert(
                    be_u64_of(digest@),
                    PendingModel {
                        packet: packet@,
                        send_at_ms: sat_add(now_ms, delay_ms),
                        exclude_link,
                    },
                )
            }),
    {
        let k = u64_key(&digest);
        if self.pending.contains_key(&k) {
            return;
        }
        self.pending.insert(
            k,
            Pending { packet, send_at_ms: now_ms.saturating_add(delay_ms), exclude_link },
        );
        assert(self.view_map() =~= old(self).view_map().insert(
            k,
            PendingModel { packet: packet@, send_at_ms: sat_add(now_ms, delay_ms), exclude_link },
        ));
    }

    /// Release all rebroadcasts whose jitter has elapsed, dropping any that have since been
    /// overheard `suppression_threshold` times. Each due rebroadcast leaves the schedule, released
    /// or not, and each released one comes out exactly once.
    pub fn due(&mut self, now_ms: Millis, seen: &SeenCache) -> (out: Vec<DueRelay>)
        ensures
            final(self).config() == old(self).config(),
            final(self).view_map() == old(self).view_map().restrict(
                old(self).view_map().dom().filter(|k: u64| !is_due(old(self).view_map(), k, now_ms)),
            ),
            exists|ks: Seq<u64>|
                {
                    &&& ks.len() == out@.len()
                    &&& ks.no_duplicates()
                    &&& forall|a: int, b: int| 0 <= a < b < ks.len() ==> ks[a] < ks[b]
                    &&& forall|i: int|
                        0 <= i < ks.len() ==> is_released(
                            old(self).view_map(),
                            seen.view_map(),
                            old(self).config().suppression_threshold,
                            #[trigger] ks[i],
                            now_ms,
                        ) && out@[i].packet@ == old(self).view_map()[ks[i]].packet
                            && out@[i].exclude_link == old(self).view_map()[ks[i]].exclude_link
                    &&& forall|k: u64|
                        is_released(
                            old(self).view_map(),
                            seen.view_map(),
                            old(self).config().suppression_threshold,
                            k,
                            now_ms,
                        ) ==> #[trigger] ks.contains(k)
                },
    {
        let threshold = self.cfg.suppression_threshold;
        let ghost m0 = self.view_map();
        let ghost sv = seen.view_map();
        let keys = self.keys();
        let mut out: Vec<DueRelay> = Vec::new();
        let ghost mut ks: Seq<u64> = Seq::empty();
        let mut i: usize = 0;
        while i < keys.len()
            invariant
                i <= keys@.len(),
                self.cfg == old(self).cfg,
                threshold == self.cfg.suppression_threshold,
                m0 == old(self).view_map(),
                sv == seen.view_map(),
                forall|k: u64| m0.contains_key(k) ==> #[trigger] keys@.contains(k),
                self.view_map() == m0.restrict(
                    m0.dom().filter(
                        |k: u64| !(is_due(m0, k, now_ms) && keys@.subrange(0, i as int).contains(k)),
                    ),
                ),
                ks.len() == out@.len(),
                ks.no_duplicates(),
                forall|a: int, b: int| 0 <= a < b < ks.len() ==> ks[a] < ks[b],
                forall|a: int, b: int| 0 <= a < b < keys@.len() ==> keys@[a] < keys@[b],
                forall|a: int|
                    0 <= a < ks.len() ==> is_released(m0, sv, threshold, #[trigger] ks[a], now_ms)
                        && keys@.subrange(0, i as int).contains(ks[a]) && out@[a].packet@
                        == m0[ks[a]].packet && out@[a].exclude_link == m0[ks[a]].exclude_link,
                forall|a: int|
                    0 <= a < i && is_released(m0, sv, threshold, #[trigger] keys@[a], now_ms)
                        ==> ks.contains(keys@[a]),
            decreases keys@.len() - i,
        {
            let k = keys[i];
            let ghost cur = self.view_map();
            let ghost pre = keys@.subrange(0, i as int);
            let ghost ks0 = ks;
            let ghost pend0 = self.pending@;
            let mut is_due_now = false;
            match self.pending.get(&k) {
                Some(p) => {
                    assert(cur.contains_key(k) && cur[k] == p.view());
                    is_due_now = p.send_at_ms <= now_ms;
                },
                None => {
                    assert(!cur.contains_key(k));
                },
            }
            assert(is_due_now == is_due(cur, k, now_ms));
            if is_due_now {
                let digest = crate::bytes::u64_to_be_array(k);
                let count = seen.hear_count(&digest);
                assert(be_u64_of(digest@) == k);
                assert(sv.contains_key(k) ==> count == sv[k].hear_count);
                assert(!sv.contains_key(k) ==> count == 0);
                assert(count == heard(sv, k));
                let removed = self.pending.remove(&k);
                assert(self.pending@ == pend0.remove(k));
                assert(self.view_map() =~= cur.remove(k));
                match removed {
                    Some(p) => {
                        assert(p.view() == cur[k]);
                        if count < threshold {
                            out.push(DueRelay { packet: p.packet, exclude_link: p.exclude_link });
                            proof {
                                assert forall|a: int| 0 <= a < ks.len() implies ks[a] < k by {
                                    assert(pre.contains(ks[a]));
                                    let j = choose|j: int| 0 <= j < pre.len() && pre[j] == ks[a];
                                    assert(keys@[j] == ks[a]);
                                }
                                ks = ks.push(k);
                            }
                        }
                    },
                    None => {
                        assert(false);
                    },
                }
            }
            i = i + 1;
            proof {
                let post = keys@.subrange(0, i as int);
                assert(post =~= pre.push(k));
                assert forall|k2: u64| k2 != k implies (post.contains(k2) == pre.contains(k2)) by {
                    if post.contains(k2) {
                        let j = choose|j: int| 0 <= j < post.len() && post[j] == k2;
                        assert(pre[j] == k2);
                    }
                    if pre.contains(k2) {
                        let j = choose|j: int| 0 <= j < pre.len() && pre[j] == k2;
                        assert(post[j] == k2);
                    }
                }
                assert(post.contains(k)) by {
                    assert(post[post.len() - 1] == k);
                }
                // A key still held has not been released yet.
                assert forall|a: int| 0 <= a < ks0.len() implies !cur.contains_key(#[trigger] ks0[a]) by {
                    assert(is_due(m0, ks0[a], now_ms) && pre.contains(ks0[a]));
                }
                if is_due_now {
                    assert(cur.contains_key(k));
                    assert(!ks0.contains(k));
                }
                assert(self.view_map() =~= m0.restrict(
                    m0.dom().filter(|k2: u64| !(is_due(m0, k2, now_ms) && post.contains(k2))),
                ));
                assert forall|a: int|
                    0 <= a < i && is_released(m0, sv, threshold, #[trigger] keys@[a], now_ms)
                        implies ks.contains(keys@[a]) by {
                    if a == i - 1 {
                        if !cur.contains_key(k) {
                            // Released earlier, at an earlier copy of the same key.
                            assert(pre.contains(k));
                            let j = choose|j: int| 0 <= j < pre.len() && pre[j] == k;
                            assert(keys@[j] == k);
                            assert(ks0.contains(k));
                        } else {
                            assert(ks[ks.len() - 1] == k);
                        }
                    } else {
                        assert(ks0.contains(keys@[a]));
                        let j = choose|j: int| 0 <= j < ks0.len() && ks0[j] == keys@[a];
                        assert(ks[j] == keys@[a]);
                    }
                }
            }
        }
        proof {
            assert(keys@.subrange(0, keys@.len() as int) =~= keys@);
            assert forall|k: u64| is_released(m0, sv, threshold, k, now_ms) implies #[trigger] ks.contains(k) by {
                assert(keys@.contains(k));
                let j = choose|j: int| 0 <= j < keys@.len() && keys@[j] == k;
                assert(is_released(m0, sv, threshold, keys@[j], now_ms));
            }
            assert(self.view_map() =~= m0.restrict(
                m0.dom().filter(|k: u64| !is_due(m0, k, now_ms)),
            ));
        }
        out
    }

    /// Every waiting key.
    fn keys(&self) -> (keys: Vec<u64>)
        ensures
            forall|k: u64| self.view_map().contains_key(k) ==> #[trigger] keys@.contains(k),
            forall|i: int, j: int| 0 <= i < j < keys@.len() ==> keys@[i] < keys@[j],
    {
        proof {
            lemma_u64_keys_ordered();
        }
        let mut keys: Vec<u64> = Vec::new();
        for (k, _p) in it: self.pending.iter()
            invariant
                keys@.len() == it.index(),
                forall|j: int| 0 <= j < it.index() ==> keys@[j] == *(#[trigger] it.seq()[j]).0,
        {
            keys.push(*k);
        }
        let ghost v = vstd::std_specs::iter::IteratorSpec::remaining(
            &vstd::std_specs::btree::spec_btree_map_iter(&self.pending),
        );
        proof {
            assert(keys@ =~= v.map_values(|kv: (&u64, &Pending)| *kv.0));
            lemma_keys_increase(keys@);
        }
        keys
    }
}

/// Keys of a `BTreeMap<u64, _>` come out ordered.
proof fn lemma_u64_keys_ordered()
    ensures
        vstd::std_specs::btree::key_obeys_cmp_spec::<u64>(),
{
    broadcast use vstd::laws_cmp::group_laws_cmp;
}

/// An increasing sequence of `u64` keys is strictly ascending.
pub(crate) proof fn lemma_keys_increase(s: Seq<u64>)
    requires
        vstd::std_specs::btree::increasing_seq(s),
    ensures
        forall|i: int, j: int| 0 <= i < j < s.len() ==> s[i] < s[j],
{
    broadcast use vstd::laws_cmp::group_laws_cmp;

    assert forall|i: int, j: int| 0 <= i < j < s.len() implies s[i] < s[j] by {
        assert(vstd::std_specs::cmp::OrdSpec::cmp_spec(&s[i], &s[j]) is Less);
    }
}

/// Density-adaptive rebroadcast probability, in parts per million. In a dense crowd most
/// rebroadcasts are pure collision, so they are thinned as node degree rises.
pub open spec fn spec_rebroadcast_probability(degree: usize, cfg: Tunables) -> u32 {
    if degree <= cfg.relay_sparse_max {
        cfg.relay_prob_sparse
    } else if degree <= cfg.relay_mid_max {
        cfg.relay_prob_mid
    } else {
        cfg.relay_prob_dense
    }
}

pub fn rebroadcast_probability(degree: usize, cfg: &Tunables) -> (p: u32)
    ensures
        p == spec_rebroadcast_probability(degree, *cfg),
{
    if degree <= cfg.relay_sparse_max {
        cfg.relay_prob_sparse
    } else if degree <= cfg.relay_mid_max {
        cfg.relay_prob_mid
    } else {
        cfg.relay_prob_dense
    }
}

/// The coin flip for a uniform draw in `0..PROB_SCALE`: relay when the draw falls below the
/// probability.
pub open spec fn spec_relay_roll(degree: usize, cfg: Tunables, draw: u32) -> bool {
    draw < spec_rebroadcast_probability(degree, cfg)
}

pub fn relay_roll(degree: usize, cfg: &Tunables, draw: u32) -> (r: bool)
    ensures
        r == spec_relay_roll(degree, *cfg, draw),
{
    draw < rebroadcast_probability(degree, cfg)
}

/// Coin-flip whether to relay at all, given local degree: one uniform draw in `0..PROB_SCALE` is
/// taken, and the verdict is the roll of that draw, which is handed back beside it. Certain at
/// probability one (or more), never at zero.
pub fn should_relay(degree: usize, cfg: &Tunables, rng: &mut StdRng) -> (flip: (bool, u32))
    ensures
        flip.1 < PROB_SCALE,
        flip.0 == spec_relay_roll(degree, *cfg, flip.1),
        exists|draw: u32| draw < PROB_SCALE && flip.0 == spec_relay_roll(degree, *cfg, draw),
        spec_rebroadcast_probability(degree, *cfg) >= PROB_SCALE ==> flip.0,
        spec_rebroadcast_probability(degree, *cfg) == 0 ==> !flip.0,
{
    let draw = draw_below(rng, PROB_SCALE);
    (relay_roll(degree, cfg, draw), draw)
}

/// Above the mid-degree threshold the flip relays exactly the draws below the dense probability;
/// every draw at or above it is dropped, so a dense crowd is thinned.
pub proof fn law_dense_roll_thins(degree: usize, cfg: Tunables, draw: u32)
    requires
        degree > cfg.relay_sparse_max,
        degree > cfg.relay_mid_max,
    ensures
        spec_relay_roll(degree, cfg, draw) <==> draw < cfg.relay_prob_dense,
{
}

/// A random delay inside the configured jitter window.
pub fn relay_delay(cfg: &Tunables, rng: &mut StdRng) -> (d: Millis)
    ensures
        cfg.jitter_max_ms <= cfg.jitter_min_ms ==> d == cfg.jitter_min_ms,
        cfg.jitter_max_ms > cfg.jitter_min_ms ==> cfg.jitter_min_ms <= d <= cfg.jitter_max_ms,
{
    if cfg.jitter_max_ms <= cfg.jitter_min_ms {
        return cfg.jitter_min_ms;
    }
    draw_between(rng, cfg.jitter_min_ms, cfg.jitter_max_ms)
}

/// Rebroadcasts thin out as the crowd gets denser: with probabilities ordered sparse ≥ mid ≥ dense
/// and thresholds ordered, a higher degree never relays more often.
pub proof fn law_probability_thins_with_density(d1: usize, d2: usize, cfg: Tunables)
    requires
        d1 <= d2,
        cfg.relay_sparse_max <= cfg.relay_mid_max,
        cfg.relay_prob_sparse >= cfg.relay_prob_mid,
        cfg.relay_prob_mid >= cfg.relay_prob_dense,
    ensures
        spec_rebroadcast_probability(d2, cfg) <= spec_rebroadcast_probability(d1, cfg),
{
}

} // verus!
