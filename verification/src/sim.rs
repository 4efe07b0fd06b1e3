//! Deterministic mesh simulator.
//!
//! Because the core is sans-IO — time comes from a [`Clock`](crate::clock::Clock), frames leave
//! through the node's outbound queue — hundreds of real [`MeshNode`]s can run in one process
//! against an in-memory radio model with bit-for-bit reproducible results. Every scenario seeds
//! its random source, so a failure is always replayable.
//!
//! Radio model: each edge has a latency and a loss rate (parts per million); a node's outbound
//! frames are delivered to the peer on the other end of the edge after the latency, dropped at the
//! loss rate.

pub mod scenarios;
pub mod topology;
pub mod union_find;

use vstd::prelude::*;

use crate::clock::Clock;
use crate::config::{Tunables, PROB_SCALE};
use crate::identity::{Fingerprint, LocalIdentity};
use crate::node::{LinkState, MeshEvent, MeshNode};
use crate::random::{draw_below, seeded_rng};
use crate::store::{MemoryStore, Store};
use crate::text::{from_utf8_lossy, push_str, utf8_lossy};
use crate::transport::{LinkId, TransportEvent};
use rand::rngs::StdRng;

verus! {

/// A virtual-time clock: the world sets every node's clock to its own time before each step.
#[derive(Debug, Clone, Copy)]
pub struct SimClock {
    now: u64,
}

impl SimClock {
    pub closed spec fn reading(&self) -> u64 {
        self.now
    }

    pub fn new(start: u64) -> (c: Self)
        ensures
            c.reading() == start,
    {
        SimClock { now: start }
    }

    pub fn set(&mut self, t: u64)
        ensures
            final(self).reading() == t,
    {
        self.now = t;
    }
}

impl Clock for SimClock {
    fn now_ms(&self) -> (t: u64)
        ensures
            t == self.reading(),
    {
        self.now
    }
}

/// A node as the simulator runs it.
pub type SimMeshNode = MeshNode<SimClock, MemoryStore>;

struct SimNode {
    node: SimMeshNode,
    events: Vec<MeshEvent>,
}

/// One undirected radio link. Its index in the world's edge list is used as the [`LinkId`] on
/// both endpoints (an edge joins exactly two nodes, so the id is unambiguous per node).
#[derive(Debug, Clone, Copy)]
pub struct Edge {
    pub a: usize,
    pub b: usize,
    pub latency_ms: u64,
    /// Loss rate, in parts per million.
    pub loss_ppm: u32,
    pub mtu: usize,
    pub up: bool,
}

struct InFlight {
    deliver_at: u64,
    dest: usize,
    link: LinkId,
    frame: Vec<u8>,
}

/// A frame in flight: when it lands, at which node, over which link, and its bytes.
pub type FlightModel = (u64, usize, LinkId, Seq<u8>);

spec fn flight_view(f: InFlight) -> FlightModel {
    (f.deliver_at, f.dest, f.link, f.frame@)
}

spec fn flights(v: Seq<InFlight>) -> Seq<FlightModel> {
    Seq::new(v.len(), |i: int| flight_view(v[i]))
}

/// Moving the last of the first `pl` frames onto a reversed tail extends the tail by one.
proof fn lemma_reverse_step(p0: Seq<FlightModel>, pl: int, rv: Seq<FlightModel>)
    requires
        1 <= pl <= p0.len(),
        rv == p0.skip(pl).reverse(),
    ensures
        rv.push(p0[pl - 1]) == p0.skip(pl - 1).reverse(),
{
    assert(rv.push(p0[pl - 1]) =~= p0.skip(pl - 1).reverse());
}

/// Whether a frame has landed by time `now`.
pub open spec fn landed_by(now: u64) -> spec_fn(FlightModel) -> bool {
    |f: FlightModel| f.0 <= now
}

/// Whether a frame is still on its way at time `now`.
pub open spec fn lands_after(now: u64) -> spec_fn(FlightModel) -> bool {
    |f: FlightModel| f.0 > now
}

pub struct World {
    nodes: Vec<SimNode>,
    edges: Vec<Edge>,
    inflight: Vec<InFlight>,
    rng: StdRng,
    step_ms: u64,
    now: u64,
    tx_frames: u64,
    /// The frames handed to their destination nodes so far, in the order they were handed over.
    handed: Ghost<Seq<FlightModel>>,
}

/// The identity seed of simulated node `i`: its index as eight little-endian bytes, a marker
/// byte `0xC0`, then zeros.
pub open spec fn sim_seed(i: u64) -> Seq<u8> {
    Seq::new(
        32,
        |k: int|
            if k < 8 {
                crate::bytes::u64_be(i)[7 - k]
            } else if k == 8 {
                0xC0u8
            } else {
                0u8
            },
    )
}

/// The decimal digits of `n` as ASCII, most significant first, no leading zeros.
pub open spec fn decimal(n: nat) -> Seq<u8>
    decreases n,
{
    if n < 10 {
        seq![(48 + n) as u8]
    } else {
        decimal(n / 10).push((48 + n % 10) as u8)
    }
}

/// The decimal digits of `n`, most significant first.
fn decimal_digits(n: u64) -> (out: Vec<u8>)
    ensures
        out@ == decimal(n as nat),
    decreases n,
{
    if n < 10 {
        let mut v: Vec<u8> = Vec::new();
        v.push(48u8 + n as u8);
        v
    } else {
        let mut v = decimal_digits(n / 10);
        v.push(48u8 + (n % 10) as u8);
        v
    }
}

/// `prefix` followed by the decimal digits of `n`.
pub fn numbered(prefix: &str, n: u64) -> (s: String)
    ensures
        s@ == prefix@ + utf8_lossy(decimal(n as nat)),
{
    let digits = from_utf8_lossy(decimal_digits(n).as_slice());
    let mut s = String::new();
    push_str(&mut s, prefix);
    push_str(&mut s, digits.as_str());
    s
}

impl World {
    pub closed spec fn wf(&self) -> bool {
        &&& self.step_ms >= 1
        &&& forall|i: int| 0 <= i < self.nodes@.len() ==> (#[trigger] self.nodes@[i]).node.wf()
        &&& forall|e: int|
            0 <= e < self.edges@.len() ==> (#[trigger] self.edges@[e]).a < self.nodes@.len()
                && self.edges@[e].b < self.nodes@.len()
        &&& forall|f: int|
            0 <= f < self.inflight@.len() ==> (#[trigger] self.inflight@[f]).dest < self.nodes@.len()
    }

    /// How many nodes the world holds.
    pub closed spec fn size(&self) -> nat {
        self.nodes@.len()
    }

    /// Node `i`.
    pub closed spec fn node_at(&self, i: int) -> SimMeshNode {
        self.nodes@[i].node
    }

    /// The world's current time.
    pub closed spec fn time(&self) -> u64 {
        self.now
    }

    /// How many of the first `k` nodes hold a message under the digest key `key`.
    pub closed spec fn holders(&self, key: u64, k: int) -> nat
        decreases k,
    {
        if k <= 0 {
            0
        } else {
            self.holders(key, k - 1) + if self.node_at(k - 1).store_value().digest_keys().contains(
                key,
            ) {
                1nat
            } else {
                0nat
            }
        }
    }

    /// Rebroadcasts fired by the first `k` nodes together.
    pub closed spec fn relays_sum(&self, k: int) -> nat
        decreases k,
    {
        if k <= 0 {
            0
        } else {
            self.relays_sum(k - 1) + self.node_at(k - 1).relay_count() as nat
        }
    }

    /// Frames transmitted since the last reset.
    pub closed spec fn frames_sent(&self) -> u64 {
        self.tx_frames
    }

    /// The UI events node `i` has produced.
    pub closed spec fn events_of(&self, i: int) -> Seq<MeshEvent> {
        self.nodes@[i].events@
    }

    /// The frames in flight, in the order they were sent.
    pub closed spec fn in_flight(&self) -> Seq<FlightModel> {
        flights(self.inflight@)
    }

    /// The frames the world has handed to their destination nodes, in order.
    pub closed spec fn handed_over(&self) -> Seq<FlightModel> {
        self.handed@
    }

    /// Whether link `l` is an edge that is up.
    pub closed spec fn link_is_up(&self, l: LinkId) -> bool {
        l < self.edges@.len() && self.edges@[l as int].up
    }

    /// Whether a frame travels over a link that is up.
    pub open spec fn over_up_link(self) -> spec_fn(FlightModel) -> bool {
        |f: FlightModel| self.link_is_up(f.2)
    }

    /// Edge `e`'s latency.
    pub closed spec fn edge_latency(&self, e: int) -> u64 {
        self.edges@[e].latency_ms
    }

    /// How far one step moves time.
    pub closed spec fn step_size(&self) -> u64 {
        self.step_ms
    }

    /// Edge `e`'s endpoints and whether it is up.
    pub closed spec fn edge_at(&self, e: int) -> (usize, usize, bool) {
        (self.edges@[e].a, self.edges@[e].b, self.edges@[e].up)
    }

    /// How many edges the world holds.
    pub closed spec fn edge_count(&self) -> nat {
        self.edges@.len()
    }

    /// Build a world of `n` nodes (not yet linked), each with its own copy of `cfg`.
    pub fn new(n: usize, cfg: Tunables, seed: u64) -> (w: Self)
        ensures
            w.wf(),
            w.size() == n,
            w.edge_count() == 0,
            w.time() == 0,
            forall|i: int|
                0 <= i < n ==> {
                    &&& (#[trigger] w.node_at(i)).ident().signing_secret() == sim_seed(i as u64)
                    &&& w.node_at(i).ident().dh_secret_bytes() == crate::identity::spec_derive(
                        sim_seed(i as u64),
                        crate::identity::dh_label(),
                    )
                    &&& w.node_at(i).ident().eph() == crate::identity::spec_derive(
                        sim_seed(i as u64),
                        crate::identity::eph_label(),
                    ).subrange(0, 8)
                    &&& w.node_at(i).config() == cfg
                    &&& w.node_at(i).clock_value().reading() == 0
                    &&& w.node_at(i).link_map().dom().len() == 0
                    &&& w.events_of(i).len() == 0
                },
    {
        let mut nodes: Vec<SimNode> = Vec::new();
        let mut i: usize = 0;
        while i < n
            invariant
                i <= n,
                nodes@.len() == i,
                forall|j: int| 0 <= j < nodes@.len() ==> (#[trigger] nodes@[j]).node.wf(),
                forall|j: int|
                    0 <= j < nodes@.len() ==> {
                        &&& (#[trigger] nodes@[j]).node.ident().signing_secret() == sim_seed(j as u64)
                        &&& nodes@[j].node.ident().dh_secret_bytes() == crate::identity::spec_derive(
                            sim_seed(j as u64),
                            crate::identity::dh_label(),
                        )
                        &&& nodes@[j].node.ident().eph() == crate::identity::spec_derive(
                            sim_seed(j as u64),
                            crate::identity::eph_label(),
                        ).subrange(0, 8)
                        &&& nodes@[j].node.config() == cfg
                        &&& nodes@[j].node.clock_value().reading() == 0
                        &&& nodes@[j].node.link_map().dom().len() == 0
                        &&& nodes@[j].events@.len() == 0
                    },
            decreases n - i,
        {
            let mut id_seed = [0u8; 32];
            // The index, little-endian, then a fixed marker byte.
            let be = crate::bytes::u64_to_be_array(i as u64);
            let mut k: usize = 0;
            while k < 8
                invariant
                    k <= 8,
                    be@ == crate::bytes::u64_be(i as u64),
                    forall|j: int| 0 <= j < k ==> id_seed@[j] == be@[7 - j],
                    forall|j: int| k <= j < 32 ==> id_seed@[j] == 0,
                decreases 8 - k,
            {
                id_seed.set(k, be[7 - k]);
                k = k + 1;
            }
            id_seed.set(8, 0xC0);
            assert(id_seed@ =~= sim_seed(i as u64));
            let identity = LocalIdentity::from_seed(&id_seed);
            let store = MemoryStore::new(
                cfg.channel_history_max_msgs,
                cfg.channel_history_ms,
                cfg.envelope_ttl_ms,
                cfg.envelope_max_per_peer,
            );
            let node_seed = seed ^ (i as u64).wrapping_mul(0x9E3779B97F4A7C15u64);
            let node = MeshNode::new(
                identity,
                cfg,
                SimClock::new(0),
                store,
                numbered("node", i as u64),
                node_seed,
            );
            let ghost nodes0 = nodes@;
            nodes.push(SimNode { node, events: Vec::new() });
            proof {
                assert(node.link_map().dom() =~= Set::<LinkId>::empty());
                assert(nodes@[i as int].node == node);
                assert(nodes@[i as int].events@.len() == 0);
                assert forall|j: int| 0 <= j < nodes@.len() implies (#[trigger] nodes@[j]).node.wf() by {
                    if j < i {
                        assert(nodes@[j] == nodes0[j]);
                    }
                }
                assert forall|j: int| 0 <= j < i implies #[trigger] nodes@[j] == nodes0[j] by {}
            }
            i = i + 1;
        }
        World {
            nodes,
            edges: Vec::new(),
            inflight: Vec::new(),
            rng: seeded_rng(seed ^ 0xA5A5),
            step_ms: 10,
            now: 0,
            tx_frames: 0,
            handed: Ghost(Seq::empty()),
        }
    }

    pub fn node_count(&self) -> (n: usize)
        ensures
            n == self.size(),
    {
        self.nodes.len()
    }

    pub fn now(&self) -> (t: u64)
        ensures
            t == self.time(),
    {
        self.now
    }

    pub fn set_step_ms(&mut self, step: u64)
        requires
            old(self).wf(),
        ensures
            final(self).wf(),
            final(self).size() == old(self).size(),
            final(self).edge_count() == old(self).edge_count(),
            final(self).step_size() == (if step < 1 {
                1
            } else {
                step
            }),
            final(self).time() == old(self).time(),
            forall|i: int| 0 <= i < old(self).size() ==> #[trigger] final(self).node_at(i) == old(self).node_at(i),
    {
        self.step_ms = if step < 1 {
            1
        } else {
            step
        };
    }

    /// Add a bidirectional link between `a` and `b`. Returns its [`LinkId`].
    pub fn link(&mut self, a: usize, b: usize, latency_ms: u64, loss_ppm: u32, mtu: usize) -> (id: LinkId)
        requires
            old(self).wf(),
            a < old(self).size(),
            b < old(self).size(),
        ensures
            final(self).wf(),
            final(self).size() == old(self).size(),
            final(self).edge_count() == old(self).edge_count() + 1,
            id == old(self).edge_count(),
            final(self).time() == old(self).time(),
    {
        let id = self.edges.len() as LinkId;
        self.edges.push(Edge { a, b, latency_ms, loss_ppm, mtu, up: true });
        id
    }

    /// Deliver one transport event to node `i`.
    fn deliver(&mut self, i: usize, ev: TransportEvent)
        requires
            old(self).wf(),
            i < old(self).size(),
        ensures
            forall|j: int| 0 <= j < old(self).size() ==> #[trigger] final(self).node_at(j).clock_value() == old(self).node_at(j).clock_value(),
            final(self).inflight == old(self).inflight,
            final(self).handed == old(self).handed,
            final(self).wf(),
            final(self).size() == old(self).size(),
            final(self).edge_count() == old(self).edge_count(),
            final(self).edges == old(self).edges,
            final(self).step_ms == old(self).step_ms,
            final(self).now == old(self).now,
            final(self).tx_frames == old(self).tx_frames,
            forall|j: int| 0 <= j < old(self).size() && j != i ==> #[trigger] final(self).node_at(j) == old(self).node_at(j),
            forall|j: int| 0 <= j < old(self).size() ==> #[trigger] final(self).events_of(j) == old(self).events_of(j),
            ev matches TransportEvent::LinkUp { link, mtu, .. } ==> final(self).node_at(i as int).link_map()
                == old(self).node_at(i as int).link_map().insert(link, LinkState { mtu, peer_eph: None, peer_fp: None }),
            ev matches TransportEvent::LinkDown { link } ==> final(self).node_at(i as int).link_map()
                == old(self).node_at(i as int).link_map().remove(link),
    {
        assert(self.nodes@[i as int].node.wf());
        self.nodes[i].node.on_transport_event(ev);
        assert forall|j: int| 0 <= j < self.nodes@.len() implies (#[trigger] self.nodes@[j]).node.wf() by {
            if j != i {
                assert(self.nodes@[j] == old(self).nodes@[j]);
            }
        }
        assert forall|j: int| 0 <= j < old(self).size() && j != i implies #[trigger] self.node_at(j) == old(self).node_at(j) by {
            assert(self.nodes@[j] == old(self).nodes@[j]);
        }
        assert forall|j: int| 0 <= j < old(self).size() implies #[trigger] self.events_of(j) == old(self).events_of(j) by {
            if j != i {
                assert(self.nodes@[j] == old(self).nodes@[j]);
            }
        }
    }

    /// Bring every current edge up at both endpoints (drives the initial announces and syncs).
    pub fn bootstrap(&mut self)
        requires
            old(self).wf(),
        ensures
            final(self).wf(),
            final(self).size() == old(self).size(),
            final(self).edge_count() == old(self).edge_count(),
            final(self).time() == old(self).time(),
            forall|k: int| 0 <= k < old(self).edge_count() ==> #[trigger] final(self).edge_at(k) == old(self).edge_at(k),
            forall|k: int|
                0 <= k < old(self).edge_count() ==> {
                    let (a, b, _) = old(self).edge_at(k);
                    &&& final(self).node_at(a as int).link_map().contains_key(#[trigger] (k as u64))
                    &&& final(self).node_at(b as int).link_map().contains_key(k as u64)
                },
            forall|j: int|
                0 <= j < old(self).size() ==> (#[trigger] final(self).node_at(j)).pending_events() == Seq::<
                    MeshEvent,
                >::empty() && final(self).node_at(j).pending_outbound() == Seq::<(LinkId, Vec<u8>)>::empty(),
    {
        let mut e: usize = 0;
        while e < self.edges.len()
            invariant
                self.wf(),
                self.size() == old(self).size(),
                self.edge_count() == old(self).edge_count(),
                self.edges == old(self).edges,
                self.now == old(self).now,
                e <= self.edges@.len(),
                forall|k: int|
                    0 <= k < e ==> {
                        let (a, b, _) = old(self).edge_at(k);
                        &&& self.node_at(a as int).link_map().contains_key(#[trigger] (k as u64))
                        &&& self.node_at(b as int).link_map().contains_key(k as u64)
                    },
            decreases self.edges@.len() - e,
        {
            let edge = self.edges[e];
            let ghost w0 = *self;
            self.deliver(edge.a, TransportEvent::LinkUp { link: e as LinkId, mtu: edge.mtu, peer_hint: None });
            let ghost w1 = *self;
            self.deliver(edge.b, TransportEvent::LinkUp { link: e as LinkId, mtu: edge.mtu, peer_hint: None });
            proof {
                assert forall|k: int|
                    0 <= k < e + 1 implies {
                        let (a, b, _) = old(self).edge_at(k);
                        &&& self.node_at(a as int).link_map().contains_key(#[trigger] (k as u64))
                        &&& self.node_at(b as int).link_map().contains_key(k as u64)
                    } by {
                    let (a, b, _) = old(self).edge_at(k);
                    assert(old(self).edges@[k].a < self.size() && old(self).edges@[k].b < self.size());
                    if k < e {
                        assert(w0.node_at(a as int).link_map().contains_key(k as u64));
                        assert(w0.node_at(b as int).link_map().contains_key(k as u64));
                    }
                    if a as int != edge.a as int {
                        assert(w1.node_at(a as int) == w0.node_at(a as int));
                    }
                    if a as int != edge.b as int {
                        assert(self.node_at(a as int) == w1.node_at(a as int));
                    }
                    if b as int != edge.a as int {
                        assert(w1.node_at(b as int) == w0.node_at(b as int));
                    }
                    if b as int != edge.b as int {
                        assert(self.node_at(b as int) == w1.node_at(b as int));
                    }
                }
            }
            e = e + 1;
        }
        self.collect_and_route();
    }

    /// Set an edge up or down (used by partition scenarios).
    pub fn set_edge_up(&mut self, edge: LinkId, up: bool)
        requires
            old(self).wf(),
        ensures
            forall|j: int| 0 <= j < old(self).size() ==> #[trigger] final(self).node_at(j).clock_value() == old(self).node_at(j).clock_value(),
            final(self).in_flight() == old(self).in_flight(),
            final(self).handed_over() == old(self).handed_over(),
            forall|k: int| 0 <= k < old(self).edge_count() ==> #[trigger] final(self).edge_latency(k) == old(self).edge_latency(k),
            final(self).step_size() == old(self).step_size(),
            final(self).wf(),
            final(self).size() == old(self).size(),
            final(self).edge_count() == old(self).edge_count(),
            final(self).time() == old(self).time(),
            forall|k: int| 0 <= k < old(self).edge_count() && k != edge ==> #[trigger] final(self).edge_at(k) == old(self).edge_at(k),
            edge < old(self).edge_count() ==> final(self).edge_at(edge as int) == (
                old(self).edge_at(edge as int).0,
                old(self).edge_at(edge as int).1,
                up,
            ),
            edge < old(self).edge_count() && old(self).edge_at(edge as int).2 != up ==> {
                let (a, b, _) = old(self).edge_at(edge as int);
                &&& final(self).node_at(a as int).link_map().contains_key(edge) == up
                &&& final(self).node_at(b as int).link_map().contains_key(edge) == up
            },
            edge >= old(self).edge_count() || old(self).edge_at(edge as int).2 == up ==> forall|i: int|
                0 <= i < old(self).size() ==> #[trigger] final(self).node_at(i) == old(self).node_at(i),
    {
        if edge >= self.edges.len() as u64 {
            return;
        }
        let idx = edge as usize;
        let e = self.edges[idx];
        if e.up != up {
            self.edges.set(idx, Edge { up, ..e });
            assert(self.wf()) by {
                assert forall|k: int| 0 <= k < self.edges@.len() implies (#[trigger] self.edges@[k]).a < self.nodes@.len()
                    && self.edges@[k].b < self.nodes@.len() by {
                    assert(self.edges@[k].a == old(self).edges@[k].a);
                    assert(self.edges@[k].b == old(self).edges@[k].b);
                }
            }
            if up {
                self.deliver(e.a, TransportEvent::LinkUp { link: edge, mtu: e.mtu, peer_hint: None });
                let ghost mid = *self;
                self.deliver(e.b, TransportEvent::LinkUp { link: edge, mtu: e.mtu, peer_hint: None });
                if e.a != e.b {
                    assert(self.node_at(e.a as int) == mid.node_at(e.a as int));
                }
            } else {
                self.deliver(e.a, TransportEvent::LinkDown { link: edge });
                let ghost mid = *self;
                self.deliver(e.b, TransportEvent::LinkDown { link: edge });
                if e.a != e.b {
                    assert(self.node_at(e.a as int) == mid.node_at(e.a as int));
                }
            }
        }
    }

    /// Reset the transmission and rebroadcast counters (call right before the message to measure,
    /// so bootstrap announce traffic is excluded).
    pub fn reset_tx(&mut self)
        requires
            old(self).wf(),
        ensures
            final(self).wf(),
            final(self).size() == old(self).size(),
            final(self).edge_count() == old(self).edge_count(),
            final(self).time() == old(self).time(),
            final(self).frames_sent() == 0,
            final(self).relays_sum(final(self).size() as int) == 0,
    {
        self.tx_frames = 0;
        let mut i: usize = 0;
        while i < self.nodes.len()
            invariant
                self.wf(),
                self.size() == old(self).size(),
                self.edge_count() == old(self).edge_count(),
                self.now == old(self).now,
                self.tx_frames == 0,
                i <= self.nodes@.len(),
                forall|j: int| 0 <= j < i ==> (#[trigger] self.nodes@[j]).node.relay_count() == 0,
            decreases self.nodes@.len() - i,
        {
            assert(self.nodes@[i as int].node.wf());
            self.nodes[i].node.reset_relays_fired();
            proof {
                assert forall|j: int| 0 <= j < self.nodes@.len() implies (#[trigger] self.nodes@[j]).node.wf() by {
                    if j != i {
                        assert(self.nodes@[j] == self.nodes@[j]);
                    }
                }
            }
            i = i + 1;
        }
        proof {
            self.lemma_relays_sum_zero(self.size() as int);
        }
    }

    proof fn lemma_relays_sum_zero(&self, k: int)
        requires
            k <= self.size(),
            forall|j: int| 0 <= j < self.size() ==> (#[trigger] self.nodes@[j]).node.relay_count() == 0,
        ensures
            self.relays_sum(k) == 0,
        decreases k,
    {
        if k > 0 {
            assert(self.nodes@[k - 1].node.relay_count() == 0);
            self.lemma_relays_sum_zero(k - 1);
        }
    }

    /// Total frames transmitted since the last [`World::reset_tx`]. For small (single-frame)
    /// messages this equals the number of packet transmissions.
    pub fn tx_frames(&self) -> (n: u64)
        ensures
            n == self.frames_sent(),
    {
        self.tx_frames
    }

    /// Node `i`, to drive it directly.
    pub fn node_mut(&mut self, i: usize) -> (n: &mut SimMeshNode)
        requires
            old(self).wf(),
            i < old(self).size(),
        ensures
            *n == old(self).node_at(i as int),
            n.wf(),
            final(n).wf() ==> final(self).wf(),
            final(self).size() == old(self).size(),
            final(self).edge_count() == old(self).edge_count(),
            final(self).time() == old(self).time(),
    {
        &mut self.nodes[i].node
    }

    /// Node `i`, to inspect it.
    pub fn node(&self, i: usize) -> (n: &SimMeshNode)
        requires
            i < self.size(),
        ensures
            *n == self.node_at(i as int),
    {
        &self.nodes[i].node
    }

    /// A node's stable identity fingerprint (used to address DMs).
    pub fn node_fingerprint(&self, i: usize) -> (fp: Fingerprint)
        requires
            self.wf(),
            i < self.size(),
        ensures
            fp@ == crate::identity::fingerprint_of(self.node_at(i as int).ident().signing_secret()),
    {
        assert(self.nodes@[i as int].node.wf());
        self.nodes[i].node.fingerprint()
    }

    /// How many links a node currently holds (after redundant-link dedup).
    pub fn link_count(&self, i: usize) -> (n: usize)
        requires
            i < self.size(),
        ensures
            n == self.node_at(i as int).link_map().dom().len(),
    {
        self.nodes[i].node.link_count()
    }

    /// Total logical rebroadcasts across all nodes (the mesh-wide flooding cost of a message).
    /// Saturated at `u64::MAX`.
    pub fn total_relays_fired(&self) -> (n: u64)
        ensures
            n == (if self.relays_sum(self.size() as int) > u64::MAX {
                u64::MAX as nat
            } else {
                self.relays_sum(self.size() as int)
            }),
    {
        let mut total: u64 = 0;
        let mut i: usize = 0;
        while i < self.nodes.len()
            invariant
                i <= self.nodes@.len(),
                total == (if self.relays_sum(i as int) > u64::MAX {
                    u64::MAX as nat
                } else {
                    self.relays_sum(i as int)
                }),
            decreases self.nodes@.len() - i,
        {
            total = total.saturating_add(self.nodes[i].node.relays_fired());
            i = i + 1;
        }
        total
    }

    /// How many nodes hold the message with `digest`.
    pub fn count_with_message(&self, digest: &[u8; 8]) -> (n: usize)
        ensures
            n == self.holders(crate::bytes::be_u64_of(digest@), self.size() as int),
            n <= self.size(),
    {
        let ghost key = crate::bytes::be_u64_of(digest@);
        let mut n: usize = 0;
        let mut i: usize = 0;
        while i < self.nodes.len()
            invariant
                i <= self.nodes@.len(),
                n <= i,
                n == self.holders(key, i as int),
                key == crate::bytes::be_u64_of(digest@),
            decreases self.nodes@.len() - i,
        {
            if self.nodes[i].node.store().has_message(digest) {
                n = n + 1;
            }
            i = i + 1;
        }
        n
    }

    /// The UI events a node has produced so far.
    pub fn events(&self, i: usize) -> (ev: &[MeshEvent])
        requires
            i < self.size(),
        ensures
            ev@ == self.events_of(i as int),
    {
        self.nodes[i].events.as_slice()
    }

    /// Advance virtual time by `duration_ms`, stepping the world.
    pub fn run_for(&mut self, duration_ms: u64)
        requires
            old(self).wf(),
        ensures
            final(self).wf(),
            final(self).size() == old(self).size(),
            final(self).edge_count() == old(self).edge_count(),
            final(self).time() >= (if old(self).time() + duration_ms > u64::MAX {
                u64::MAX as int
            } else {
                old(self).time() + duration_ms
            }),
            final(self).step_size() == old(self).step_size(),
            old(self).handed_over().is_prefix_of(final(self).handed_over()),
            duration_ms > 0 && old(self).time() < u64::MAX ==> forall|f: int|
                0 <= f < final(self).in_flight().len() ==> (#[trigger] final(self).in_flight()[f]).0 >= final(self).time(),
            duration_ms > 0 && old(self).time() < u64::MAX ==> forall|j: int|
                0 <= j < final(self).size() ==> #[trigger] final(self).node_at(j).clock_value().reading() == final(self).time(),
    {
        let target = self.now.saturating_add(duration_ms);
        while self.now < target
            invariant
                self.wf(),
                self.size() == old(self).size(),
                self.edge_count() == old(self).edge_count(),
                target == (if old(self).now + duration_ms > u64::MAX {
                    u64::MAX as int
                } else {
                    old(self).now + duration_ms
                }),
                self.step_size() == old(self).step_size(),
                old(self).handed_over().is_prefix_of(self.handed_over()),
                self.now > old(self).now ==> forall|f: int|
                    0 <= f < self.in_flight().len() ==> (#[trigger] self.in_flight()[f]).0 >= self.time(),
                self.now > old(self).now ==> forall|j: int|
                    0 <= j < self.size() ==> #[trigger] self.node_at(j).clock_value().reading() == self.time(),
                self.now >= old(self).now,
            decreases (if self.now < target {
                target - self.now
            } else {
                0
            }),
        {
            let ghost hb = self.handed_over();
            self.step();
            proof {
                let ha = self.handed_over();
                assert(ha.subrange(0, hb.len() as int) =~= hb);
                assert(ha.subrange(0, old(self).handed_over().len() as int) =~= hb.subrange(
                    0,
                    old(self).handed_over().len() as int,
                ));
            }
        }
    }

    /// Advance time by one step: every node's clock is set to the new time; the frames in flight
    /// that have landed by then are handed to their nodes in the order they were sent (over links
    /// still up); every node ticks; the UI events are collected; the frames the nodes sent are put
    /// in flight to land after their link's latency; links dropped as redundant are torn down.
    fn step(&mut self)
        requires
            old(self).wf(),
            old(self).now < u64::MAX,
        ensures
            final(self).wf(),
            final(self).size() == old(self).size(),
            final(self).edge_count() == old(self).edge_count(),
            final(self).now > old(self).now,
            final(self).time() == crate::relay::sat_add(old(self).time(), old(self).step_size()),
            final(self).step_size() == old(self).step_size(),
            ({
                let kept = old(self).in_flight().filter(lands_after(final(self).time()));
                &&& final(self).in_flight().len() >= kept.len()
                &&& final(self).in_flight().take(kept.len() as int) == kept
                &&& forall|f: int| kept.len() <= f < final(self).in_flight().len() ==> {
                    let fl = #[trigger] final(self).in_flight()[f];
                    &&& fl.2 < final(self).edge_count()
                    &&& fl.0 == crate::relay::sat_add(final(self).time(), final(self).edge_latency(fl.2 as int))
                }
            }),
            forall|f: int| 0 <= f < final(self).in_flight().len() ==> (#[trigger] final(self).in_flight()[f]).0 >= final(self).time(),
            final(self).handed_over() == old(self).handed_over() + old(self).in_flight().filter(
                landed_by(final(self).time()),
            ).filter(old(self).over_up_link()),
            forall|j: int| 0 <= j < final(self).size() ==> #[trigger] final(self).node_at(j).clock_value().reading() == final(self).time(),
    {
        self.now = self.now.saturating_add(self.step_ms);
        let now = self.now;
        let ghost p0 = old(self).in_flight();
        let ghost keep = lands_after(now);
        // 0. Every node's clock reads the world's time.
        let mut c: usize = 0;
        while c < self.nodes.len()
            invariant
                self.wf(),
                self.size() == old(self).size(),
                self.edge_count() == old(self).edge_count(),
                self.now == now,
                self.inflight == old(self).inflight,
                self.edges == old(self).edges,
                self.step_ms == old(self).step_ms,
                self.handed == old(self).handed,
                forall|j: int| 0 <= j < c ==> #[trigger] self.node_at(j).clock_value().reading() == now,
                c <= self.nodes@.len(),
            decreases self.nodes@.len() - c,
        {
            assert(self.nodes@[c as int].node.wf());
            let ghost pre = self.nodes@;
            let ghost w = *self;
            self.nodes[c].node.clock_mut().set(now);
            assert(self.nodes@[c as int].node.clock_value().reading() == now);
            proof {
                assert forall|j: int| 0 <= j < c + 1 implies #[trigger] self.node_at(j).clock_value().reading() == now by {
                    if j < c {
                        assert(w.node_at(j).clock_value().reading() == now);
                        assert(self.nodes@[j] == pre[j]);
                    }
                }
                assert forall|j: int| 0 <= j < self.nodes@.len() implies (#[trigger] self.nodes@[j]).node.wf() by {
                    if j != c {
                        assert(self.nodes@[j] == self.nodes@[j]);
                    }
                }
            }
            c = c + 1;
        }
        let ghost w0 = *self;
        // 1. Deliver frames whose latency has elapsed, in the order they were sent.
        let mut pending: Vec<InFlight> = Vec::new();
        std::mem::swap(&mut pending, &mut self.inflight);
        assert(flights(pending@) == p0);
        let mut ready: Vec<InFlight> = Vec::new();
        let mut remaining: Vec<InFlight> = Vec::new();
        let mut rev: Vec<InFlight> = Vec::new();
        proof {
            assert(flights(pending@) =~= p0.take(pending@.len() as int));
            assert(flights(rev@) =~= p0.skip(pending@.len() as int).reverse());
        }
        while pending.len() > 0
            invariant
                forall|f: int| 0 <= f < pending@.len() ==> (#[trigger] pending@[f]).dest < self.nodes@.len(),
                forall|f: int| 0 <= f < rev@.len() ==> (#[trigger] rev@[f]).dest < self.nodes@.len(),
                pending@.len() <= p0.len(),
                flights(pending@) == p0.take(pending@.len() as int),
                flights(rev@) == p0.skip(pending@.len() as int).reverse(),
            decreases pending@.len(),
        {
            let ghost pl = pending@.len() as int;
            let ghost rv = rev@;
            let ghost pv = pending@;
            proof {
                assert(flights(pv)[pl - 1] == p0.take(pl)[pl - 1]);
            }
            let f = pending.pop().unwrap();
            rev.push(f);
            proof {
                assert(flight_view(f) == p0[pl - 1]);
                assert(flights(pending@) =~= p0.take(pl - 1));
                assert(flights(rev@) =~= flights(rv).push(flight_view(f)));
                lemma_reverse_step(p0, pl, flights(rv));
            }
        }
        proof {
            assert(p0.take(0) =~= Seq::<FlightModel>::empty());
            assert(p0.skip(0) =~= p0);
            assert(flights(ready@) =~= p0.take(0).filter(landed_by(now)));
            assert(flights(remaining@) =~= p0.take(0).filter(keep));
        }
        while rev.len() > 0
            invariant
                forall|f: int| 0 <= f < rev@.len() ==> (#[trigger] rev@[f]).dest < self.nodes@.len(),
                forall|f: int| 0 <= f < ready@.len() ==> (#[trigger] ready@[f]).dest < self.nodes@.len(),
                forall|f: int| 0 <= f < remaining@.len() ==> (#[trigger] remaining@[f]).dest < self.nodes@.len(),
                rev@.len() <= p0.len(),
                keep == lands_after(now),
                flights(rev@) == p0.skip(p0.len() - rev@.len()).reverse(),
                flights(ready@) == p0.take(p0.len() - rev@.len()).filter(landed_by(now)),
                flights(remaining@) == p0.take(p0.len() - rev@.len()).filter(keep),
            decreases rev@.len(),
        {
            let ghost m = p0.len() - rev@.len();
            let ghost rv = rev@;
            let ghost rd = ready@;
            let ghost rm = remaining@;
            proof {
                assert(flights(rv)[rv.len() - 1] == p0.skip(m).reverse()[rv.len() - 1]);
                assert(flights(rv)[rv.len() - 1] == p0[m]);
            }
            let f = rev.pop().unwrap();
            assert(flight_view(f) == p0[m]);
            let due = f.deliver_at <= now;
            if due {
                ready.push(f);
            } else {
                remaining.push(f);
            }
            proof {
                assert(p0.take(m + 1) =~= p0.take(m).push(p0[m]));
                p0.take(m).lemma_filter_push(p0[m], keep);
                p0.take(m).lemma_filter_push(p0[m], landed_by(now));
                assert forall|k: int| 0 <= k < rev@.len() implies #[trigger] flights(rev@)[k] == p0.skip(m + 1).reverse()[k] by {
                    assert(flights(rv)[k] == p0.skip(m).reverse()[k]);
                }
                assert(flights(rev@) =~= p0.skip(m + 1).reverse());
                if due {
                    assert(flights(ready@) =~= flights(rd).push(p0[m]));
                    assert(flights(remaining@) =~= flights(rm));
                } else {
                    assert(flights(remaining@) =~= flights(rm).push(p0[m]));
                    assert(flights(ready@) =~= flights(rd));
                }
            }
        }
        self.inflight = remaining;
        proof {
            assert(p0.take(p0.len() as int) =~= p0);
            assert(self.in_flight() == p0.filter(keep));
        }
        let ghost k1 = p0.filter(keep);
        let ghost d0 = p0.filter(landed_by(now));
        let ghost h0 = old(self).handed_over();
        let ghost up0 = old(self).over_up_link();
        proof {
            p0.filter_lemma(keep);
            assert(flights(ready@) == d0);
            assert(flights(ready@) =~= d0.take(ready@.len() as int));
        }
        let mut rrev: Vec<InFlight> = Vec::new();
        proof {
            assert(flights(rrev@) =~= d0.skip(ready@.len() as int).reverse());
        }
        while ready.len() > 0
            invariant
                forall|f: int| 0 <= f < ready@.len() ==> (#[trigger] ready@[f]).dest < self.nodes@.len(),
                forall|f: int| 0 <= f < rrev@.len() ==> (#[trigger] rrev@[f]).dest < self.nodes@.len(),
                ready@.len() <= d0.len(),
                flights(ready@) == d0.take(ready@.len() as int),
                flights(rrev@) == d0.skip(ready@.len() as int).reverse(),
            decreases ready@.len(),
        {
            let ghost pl = ready@.len() as int;
            let ghost rv = rrev@;
            let ghost pv = ready@;
            proof {
                assert(flights(pv)[pl - 1] == d0.take(pl)[pl - 1]);
            }
            let f = ready.pop().unwrap();
            rrev.push(f);
            proof {
                assert(flight_view(f) == d0[pl - 1]);
                assert(flights(ready@) =~= d0.take(pl - 1));
                assert(flights(rrev@) =~= flights(rv).push(flight_view(f)));
                lemma_reverse_step(d0, pl, flights(rv));
            }
        }
        proof {
            assert forall|j: int| 0 <= j < self.size() implies #[trigger] self.node_at(j).clock_value().reading() == now by {
                assert(w0.node_at(j).clock_value().reading() == now);
            }
            assert(d0.skip(0) =~= d0);
            assert(flights(rrev@).len() == rrev@.len());
            assert(rrev@.len() == d0.len());
            assert(d0.take(0) =~= Seq::<FlightModel>::empty());
            assert(h0 + d0.take(0).filter(up0) =~= h0);
            assert(self.handed_over() == h0);
        }
        while rrev.len() > 0
            invariant
                self.wf(),
                self.size() == old(self).size(),
                self.edge_count() == old(self).edge_count(),
                self.now == now,
                self.in_flight() == k1,
                self.edges == old(self).edges,
                self.step_ms == old(self).step_ms,
                forall|f: int| 0 <= f < rrev@.len() ==> (#[trigger] rrev@[f]).dest < self.nodes@.len(),
                rrev@.len() <= d0.len(),
                up0 == old(self).over_up_link(),
                forall|j: int| 0 <= j < self.size() ==> #[trigger] self.node_at(j).clock_value().reading() == now,
                flights(rrev@) == d0.skip(d0.len() - rrev@.len()).reverse(),
                self.handed_over() == h0 + d0.take(d0.len() - rrev@.len()).filter(up0),
            decreases rrev@.len(),
        {
            let ghost m = d0.len() - rrev@.len();
            let ghost rv = rrev@;
            let ghost hb = self.handed_over();
            proof {
                assert(flights(rv)[rv.len() - 1] == d0.skip(m).reverse()[rv.len() - 1]);
                assert(flights(rv)[rv.len() - 1] == d0[m]);
            }
            let f = rrev.pop().unwrap();
            let ghost fv = flight_view(f);
            assert(fv == d0[m]);
            let up = if (f.link as usize) < self.edges.len() && f.link < self.edges.len() as u64 {
                self.edges[f.link as usize].up
            } else {
                false
            };
            assert(up == old(self).link_is_up(fv.2));
            if up {
                let ghost w = *self;
                self.deliver(f.dest, TransportEvent::FrameReceived { link: f.link, frame: f.frame });
                let ghost w2 = *self;
                assert forall|j: int| 0 <= j < w2.size() implies #[trigger] w2.node_at(j).clock_value().reading() == now by {
                    assert(w.node_at(j).clock_value().reading() == now);
                }
                self.handed = Ghost(self.handed@.push(fv));
                assert forall|j: int| 0 <= j < self.size() implies #[trigger] self.node_at(j).clock_value().reading() == now by {
                    assert(w2.node_at(j).clock_value().reading() == now);
                }
            }
            proof {
                assert(d0.take(m + 1) =~= d0.take(m).push(d0[m]));
                d0.take(m).lemma_filter_push(d0[m], up0);
                assert forall|k: int| 0 <= k < rrev@.len() implies #[trigger] flights(rrev@)[k] == d0.skip(m + 1).reverse()[k] by {
                    assert(flights(rv)[k] == d0.skip(m).reverse()[k]);
                }
                assert(flights(rrev@) =~= d0.skip(m + 1).reverse());
                if up {
                    assert(self.handed_over() =~= h0 + d0.take(m + 1).filter(up0));
                } else {
                    assert(self.handed_over() =~= h0 + d0.take(m + 1).filter(up0));
                }
            }
        }
        proof {
            assert(d0.take(d0.len() as int) =~= d0);
        }
        let ghost h1 = self.handed_over();
        // 2. Tick all nodes (releases due rebroadcasts).
        let mut t: usize = 0;
        while t < self.nodes.len()
            invariant
                self.wf(),
                self.size() == old(self).size(),
                self.edge_count() == old(self).edge_count(),
                self.now == now,
                self.in_flight() == k1,
                self.edges == old(self).edges,
                self.step_ms == old(self).step_ms,
                self.handed_over() == h1,
                forall|j: int| 0 <= j < self.size() ==> #[trigger] self.node_at(j).clock_value().reading() == now,
            decreases self.nodes@.len() - t,
        {
            assert(self.nodes@[t as int].node.wf());
            let ghost pre = self.nodes@;
            let ghost w = *self;
            assert(w.node_at(t as int).clock_value().reading() == now);
            self.nodes[t].node.tick();
            proof {
                assert forall|j: int| 0 <= j < self.size() implies #[trigger] self.node_at(j).clock_value().reading() == now by {
                    assert(w.node_at(j).clock_value().reading() == now);
                    if j != t {
                        assert(self.nodes@[j] == pre[j]);
                    }
                }
                assert forall|j: int| 0 <= j < self.nodes@.len() implies (#[trigger] self.nodes@[j]).node.wf() by {
                    if j != t {
                        assert(self.nodes@[j] == self.nodes@[j]);
                    }
                }
            }
            t = t + 1;
        }
        // 3. Collect events and route outbound frames.
        self.collect_and_route();
        let ghost fl2 = self.in_flight();
        // 4. Honor link closes requested by dedup (tear the edge down on both ends).
        let mut i: usize = 0;
        while i < self.nodes.len()
            invariant
                self.wf(),
                self.size() == old(self).size(),
                self.edge_count() == old(self).edge_count(),
                self.now == now,
                self.in_flight() == fl2,
                self.step_ms == old(self).step_ms,
                self.handed_over() == h1,
                forall|j: int| 0 <= j < self.size() ==> #[trigger] self.node_at(j).clock_value().reading() == now,
                forall|e: int| 0 <= e < old(self).edge_count() ==> #[trigger] self.edge_latency(e) == old(self).edge_latency(e),
            decreases self.nodes@.len() - i,
        {
            assert(self.nodes@[i as int].node.wf());
            let ghost w0 = *self;
            let closed = self.nodes[i].node.take_closed_links();
            assert forall|j: int| 0 <= j < self.size() implies #[trigger] self.node_at(j).clock_value().reading() == now by {
                assert(w0.node_at(j).clock_value().reading() == now);
                if j != i {
                    assert(self.nodes@[j] == w0.nodes@[j]);
                }
            }
            assert forall|e: int| 0 <= e < old(self).edge_count() implies #[trigger] self.edge_latency(e)
                == old(self).edge_latency(e) by {
                assert(w0.edge_latency(e) == old(self).edge_latency(e));
            }
            proof {
                assert forall|j: int| 0 <= j < self.nodes@.len() implies (#[trigger] self.nodes@[j]).node.wf() by {
                    if j != i {
                        assert(self.nodes@[j] == self.nodes@[j]);
                    }
                }
            }
            let mut k: usize = 0;
            while k < closed.len()
                invariant
                    self.wf(),
                    self.size() == old(self).size(),
                    self.edge_count() == old(self).edge_count(),
                    self.now == now,
                    self.in_flight() == fl2,
                    self.step_ms == old(self).step_ms,
                    self.handed_over() == h1,
                    forall|j: int| 0 <= j < self.size() ==> #[trigger] self.node_at(j).clock_value().reading() == now,
                    forall|e: int| 0 <= e < old(self).edge_count() ==> #[trigger] self.edge_latency(e) == old(self).edge_latency(e),
                decreases closed@.len() - k,
            {
                self.set_edge_up(closed[k], false);
                k = k + 1;
            }
            i = i + 1;
        }
        proof {
            assert forall|f: int| 0 <= f < self.in_flight().len() implies (#[trigger] self.in_flight()[f]).0 >= now by {
                if f < k1.len() {
                    assert(fl2.take(k1.len() as int)[f] == k1[f]);
                    assert(keep(k1[f]));
                }
            }
        }
    }

    /// Move each node's UI events into its record and put the frames it sent in flight over
    /// the links that are up (each may be lost at the link's loss rate).
    #[verifier::spinoff_prover]
    fn collect_and_route(&mut self)
        requires
            old(self).wf(),
        ensures
            forall|j: int| 0 <= j < old(self).size() ==> #[trigger] final(self).node_at(j).clock_value() == old(self).node_at(j).clock_value(),
            final(self).handed_over() == old(self).handed_over(),
            final(self).in_flight().len() >= old(self).in_flight().len(),
            final(self).in_flight().take(old(self).in_flight().len() as int) == old(self).in_flight(),
            forall|f: int| old(self).in_flight().len() <= f < final(self).in_flight().len() ==> {
                let fl = #[trigger] final(self).in_flight()[f];
                &&& fl.2 < old(self).edge_count()
                &&& fl.0 == crate::relay::sat_add(old(self).time(), old(self).edge_latency(fl.2 as int))
            },
            final(self).wf(),
            final(self).size() == old(self).size(),
            final(self).edge_count() == old(self).edge_count(),
            final(self).now == old(self).now,
            final(self).edges == old(self).edges,
            final(self).step_ms == old(self).step_ms,
            forall|j: int|
                0 <= j < old(self).size() ==> {
                    &&& (#[trigger] final(self).node_at(j)).pending_events() == Seq::<MeshEvent>::empty()
                    &&& final(self).node_at(j).pending_outbound() == Seq::<(LinkId, Vec<u8>)>::empty()
                    &&& final(self).node_at(j).link_map() == old(self).node_at(j).link_map()
                    &&& final(self).events_of(j) == old(self).events_of(j) + old(self).node_at(j).pending_events()
                },
    {
        let now = self.now;
        let mut i: usize = 0;
        while i < self.nodes.len()
            invariant
                self.wf(),
                self.size() == old(self).size(),
                self.edge_count() == old(self).edge_count(),
                self.now == now,
                now == old(self).now,
                self.edges == old(self).edges,
                self.step_ms == old(self).step_ms,
                self.handed == old(self).handed,
                forall|j: int| 0 <= j < old(self).size() ==> #[trigger] self.node_at(j).clock_value() == old(self).node_at(j).clock_value(),
                self.in_flight().len() >= old(self).in_flight().len(),
                self.in_flight().take(old(self).in_flight().len() as int) == old(self).in_flight(),
                forall|f: int| old(self).in_flight().len() <= f < self.in_flight().len() ==> {
                    let fl = #[trigger] self.in_flight()[f];
                    &&& fl.2 < old(self).edge_count()
                    &&& fl.0 == crate::relay::sat_add(now, old(self).edge_latency(fl.2 as int))
                },
                forall|j: int|
                    0 <= j < i ==> {
                        &&& (#[trigger] self.node_at(j)).pending_events() == Seq::<MeshEvent>::empty()
                        &&& self.node_at(j).pending_outbound() == Seq::<(LinkId, Vec<u8>)>::empty()
                        &&& self.node_at(j).link_map() == old(self).node_at(j).link_map()
                        &&& self.events_of(j) == old(self).events_of(j) + old(self).node_at(j).pending_events()
                    },
                forall|j: int|
                    i <= j < self.nodes@.len() ==> #[trigger] self.nodes@[j] == old(self).nodes@[j],
            decreases self.nodes@.len() - i,
        {
            assert(self.nodes@[i as int] == old(self).nodes@[i as int]);
            assert(self.nodes@[i as int].node.wf());
            let ghost head = *self;
            let ghost before = self.nodes@;
            let mut evs = self.nodes[i].node.take_events();
            let ghost evs0 = evs@;
            let out = self.nodes[i].node.take_outbound();
            let ghost ev_before = self.nodes@[i as int].events@;
            self.nodes[i].events.append(&mut evs);
            assert(self.nodes@[i as int].events@ == ev_before + evs0);
            assert(evs0 == old(self).node_at(i as int).pending_events());
            assert(ev_before == old(self).events_of(i as int));
            proof {
                assert forall|j: int| 0 <= j < self.nodes@.len() implies (#[trigger] self.nodes@[j]).node.wf() by {
                    if j != i {
                        assert(self.nodes@[j] == before[j]);
                    }
                }
                assert forall|j: int| 0 <= j < self.nodes@.len() && j != i implies #[trigger] self.nodes@[j] == before[j] by {}
            }
            let ghost nodes_now = self.nodes@;
            assert forall|j: int| 0 <= j < old(self).size() implies #[trigger] nodes_now[j].node.clock_value()
                == old(self).node_at(j).clock_value() by {
                if j != i {
                    assert(nodes_now[j] == before[j]);
                    assert(before[j].node == head.node_at(j));
                }
            }
            let mut out = out;
            let mut rev: Vec<(LinkId, Vec<u8>)> = Vec::new();
            while out.len() > 0
                decreases out@.len(),
            {
                let s = out.pop().unwrap();
                rev.push(s);
            }
            while rev.len() > 0
                invariant
                    self.wf(),
                    self.size() == old(self).size(),
                    self.edge_count() == old(self).edge_count(),
                    self.now == now,
                    self.edges == old(self).edges,
                    self.step_ms == old(self).step_ms,
                    self.handed == old(self).handed,
                    forall|j: int| 0 <= j < old(self).size() ==> #[trigger] nodes_now[j].node.clock_value() == old(self).node_at(j).clock_value(),
                    self.nodes@ == nodes_now,
                    i < self.nodes@.len(),
                    now == old(self).now,
                    self.in_flight().len() >= old(self).in_flight().len(),
                    self.in_flight().take(old(self).in_flight().len() as int) == old(self).in_flight(),
                    forall|f: int| old(self).in_flight().len() <= f < self.in_flight().len() ==> {
                        let fl = #[trigger] self.in_flight()[f];
                        &&& fl.2 < old(self).edge_count()
                        &&& fl.0 == crate::relay::sat_add(now, old(self).edge_latency(fl.2 as int))
                    },

                decreases rev@.len(),
            {
                let (link, frame) = rev.pop().unwrap();
                if (link as usize) < self.edges.len() && link < self.edges.len() as u64 {
                    let edge = self.edges[link as usize];
                    if edge.up {
                        self.tx_frames = self.tx_frames.saturating_add(1);
                        let dropped = edge.loss_ppm > 0 && draw_below(&mut self.rng, PROB_SCALE) < edge.loss_ppm;
                        if !dropped {
                            let dest = if edge.a == i {
                                edge.b
                            } else {
                                edge.a
                            };
                            let ghost fl0 = self.in_flight();
                            self.inflight.push(
                                InFlight { deliver_at: now.saturating_add(edge.latency_ms), dest, link, frame },
                            );
                            proof {
                                assert(self.in_flight() =~= fl0.push(self.in_flight().last()));
                                assert(self.in_flight().take(old(self).in_flight().len() as int) =~= fl0.take(
                                    old(self).in_flight().len() as int,
                                ));
                            }
                        }
                    }
                }
            }
            assert(self.nodes@[i as int] == nodes_now[i as int]);
            assert forall|j: int| 0 <= j < i + 1 implies {
                &&& (#[trigger] self.node_at(j)).pending_events() == Seq::<MeshEvent>::empty()
                &&& self.node_at(j).pending_outbound() == Seq::<(LinkId, Vec<u8>)>::empty()
                &&& self.node_at(j).link_map() == old(self).node_at(j).link_map()
                &&& self.events_of(j) == old(self).events_of(j) + old(self).node_at(j).pending_events()
            } by {
                if j < i {
                    assert(self.nodes@[j] == before[j]);
                    assert(self.node_at(j) == head.node_at(j));
                    assert(self.events_of(j) == head.events_of(j));
                    assert(head.node_at(j).pending_events() == Seq::<MeshEvent>::empty());
                } else {
                    assert(self.node_at(j) == nodes_now[j].node);
                }
            }
            i = i + 1;
        }
    }
}

} // verus!
