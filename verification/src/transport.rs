//! The one surface the platform implements. Everything above this line is pure Rust; below it
//! is CoreBluetooth (iOS) or the Android BLE stack (or the simulator's in-memory radio).
//!
//! Outbound: the core collects `(link, frame)` sends and link closes; the platform drains them and
//! pushes them through its [`Transport`]. Inbound: the platform reports link up/down, received
//! frames, and MTU changes.

use vstd::prelude::*;

verus! {

/// An opaque handle to one active BLE connection. The platform assigns these; the core treats
/// them as opaque tokens.
pub type LinkId = u64;

/// Outbound side: how frames reach a specific link.
pub trait Transport {
    /// Enqueue `frame` for delivery on `link`. Best-effort; the platform may drop it if the
    /// link has since died (the core will hear a `LinkDown` and recover).
    fn send(&self, link: LinkId, frame: &[u8]);

    /// Tear down `link` (a redundant connection to a peer already reachable on another link).
    fn close(&self, link: LinkId);
}

/// Inbound side: events the platform feeds into the node.
#[derive(Debug, Clone, PartialEq, Eq)]
pub enum TransportEvent {
    /// A new BLE connection is up. `mtu` is the usable ATT payload; `peer_hint` is any
    /// platform-visible address (often randomized and useless — identity comes from the
    /// signed Announce, not this).
    LinkUp { link: LinkId, mtu: usize, peer_hint: Option<[u8; 6]> },
    /// A connection dropped.
    LinkDown { link: LinkId },
    /// A frame arrived on a link.
    FrameReceived { link: LinkId, frame: Vec<u8> },
    /// MTU renegotiated upward after connection (Android can reach 517).
    MtuChanged { link: LinkId, mtu: usize },
}

} // verus!
