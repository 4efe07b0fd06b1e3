//! Every tunable protocol constant lives here, in one struct, so the simulator can sweep them and
//! so there are no magic numbers scattered through the code.
//!
//! Probabilities are held as integer parts per million ([`PROB_SCALE`]): `1_000_000` is certainty.

use vstd::prelude::*;

use crate::clock::Millis;

verus! {

/// The denominator of every probability in [`Tunables`].
pub const PROB_SCALE: u32 = 1_000_000;

#[derive(Debug, Clone, Copy)]
pub struct Tunables {
    // --- link framing ---
    /// Usable ATT payload assumed before MTU negotiation completes (iOS 185 MTU − 3).
    pub default_mtu: usize,
    /// Max concurrent reassembly buffers.
    pub reassembly_slots: usize,
    /// Drop a partial reassembly after this long without completing.
    pub reassembly_timeout_ms: Millis,
    /// Hard cap on a single reassembled message.
    pub reassembly_max_bytes: usize,
    // --- relay / flood control ---
    /// Initial time-to-live (hops) for originated packets.
    pub ttl_default: u8,
    /// Clamp TTL to this when local node degree is high (dense crowd).
    pub ttl_dense_clamp: u8,
    /// Node degree at/above which the dense clamp applies.
    pub dense_degree: usize,
    /// Relay jitter window [min, max] ms before rebroadcast.
    pub jitter_min_ms: Millis,
    pub jitter_max_ms: Millis,
    /// Cancel a scheduled rebroadcast once this many copies have been heard.
    pub suppression_threshold: u32,
    /// Density-adaptive rebroadcast probability (parts per million). `sparse` applies at degree
    /// ≤ `relay_sparse_max`, `mid` up to `relay_mid_max`, `dense` beyond.
    pub relay_prob_sparse: u32,
    pub relay_prob_mid: u32,
    pub relay_prob_dense: u32,
    pub relay_sparse_max: usize,
    pub relay_mid_max: usize,
    /// Seen-cache capacity and entry lifetime.
    pub seen_cache_capacity: usize,
    pub seen_cache_ttl_ms: Millis,
    // --- rate limiting ---
    /// Token-bucket burst and sustained refill (packets per minute) per remote sender.
    pub rate_burst: u32,
    pub rate_sustained_per_min: u32,
    /// How long a sender that exceeds its budget is greylisted.
    pub greylist_ms: Millis,
    // --- identity proof-of-work ---
    /// Leading zero bits required when minting an identity.
    pub pow_bits: u32,
    // --- compression ---
    /// Only attempt LZ4 when the payload is longer than this.
    pub compress_min_bytes: usize,
    /// Reject anything claiming to decompress beyond this (the zip-bomb defense).
    pub decompress_max_bytes: usize,
    // --- retention ---
    pub channel_history_ms: Millis,
    pub channel_history_max_msgs: usize,
    pub envelope_ttl_ms: Millis,
    pub envelope_max_per_peer: usize,
}

impl Tunables {
    /// The protocol defaults.
    pub open spec fn spec_default() -> Tunables {
        Tunables {
            default_mtu: 182,
            reassembly_slots: 128,
            reassembly_timeout_ms: 30_000,
            reassembly_max_bytes: 1048576,
            ttl_default: 7,
            ttl_dense_clamp: 5,
            dense_degree: 6,
            jitter_min_ms: 10,
            jitter_max_ms: 220,
            suppression_threshold: 3,
            relay_prob_sparse: 1_000_000,
            relay_prob_mid: 700_000,
            relay_prob_dense: 450_000,
            relay_sparse_max: 3,
            relay_mid_max: 6,
            seen_cache_capacity: 1000,
            seen_cache_ttl_ms: 300_000,
            rate_burst: 10,
            rate_sustained_per_min: 30,
            greylist_ms: 60_000,
            pow_bits: 22,
            compress_min_bytes: 128,
            decompress_max_bytes: 4096,
            channel_history_ms: 21_600_000,
            channel_history_max_msgs: 1000,
            envelope_ttl_ms: 86_400_000,
            envelope_max_per_peer: 100,
        }
    }

    /// The TTL to originate with at a given local node degree.
    pub open spec fn spec_origin_ttl(self, degree: usize) -> u8 {
        if degree >= self.dense_degree && self.ttl_dense_clamp < self.ttl_default {
            self.ttl_dense_clamp
        } else {
            self.ttl_default
        }
    }

    /// The effective TTL to originate with, given the current local node degree: the default,
    /// clamped in a dense crowd.
    pub fn origin_ttl(&self, degree: usize) -> (t: u8)
        ensures
            t == self.spec_origin_ttl(degree),
    {
        if degree >= self.dense_degree {
            if self.ttl_dense_clamp < self.ttl_default {
                self.ttl_dense_clamp
            } else {
                self.ttl_default
            }
        } else {
            self.ttl_default
        }
    }
}

impl Default for Tunables {
    fn default() -> (t: Tunables)
        ensures
            t == Tunables::spec_default(),
    {
        Tunables {
            default_mtu: 182,
            reassembly_slots: 128,
            reassembly_timeout_ms: 30_000,
            reassembly_max_bytes: 1048576,
            ttl_default: 7,
            ttl_dense_clamp: 5,
            dense_degree: 6,
            jitter_min_ms: 10,
            jitter_max_ms: 220,
            suppression_threshold: 3,
            relay_prob_sparse: 1_000_000,
            relay_prob_mid: 700_000,
            relay_prob_dense: 450_000,
            relay_sparse_max: 3,
            relay_mid_max: 6,
            seen_cache_capacity: 1000,
            seen_cache_ttl_ms: 300_000,
            rate_burst: 10,
            rate_sustained_per_min: 30,
            greylist_ms: 60_000,
            pow_bits: 22,
            compress_min_bytes: 128,
            decompress_max_bytes: 4096,
            channel_history_ms: 21_600_000,
            channel_history_max_msgs: 1000,
            envelope_ttl_ms: 86_400_000,
            envelope_max_per_peer: 100,
        }
    }
}

} // verus!
