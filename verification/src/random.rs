//! The seeded pseudo-random source (`rand::rngs::StdRng`) that drives relay jitter and the
//! rebroadcast coin flip. Seeding it makes a whole simulated mesh reproducible.
//!
//! Nothing is claimed of the values drawn beyond the range they fall in.

use vstd::prelude::*;

use rand::rngs::StdRng;
use rand::{Rng, RngCore, SeedableRng};

verus! {

/// `rand::rngs::StdRng`, carried opaquely.
#[verifier::external_type_specification]
#[verifier::external_body]
pub struct ExStdRng(StdRng);

/// Calls `rand::SeedableRng::seed_from_u64` for `StdRng`.
#[verifier::external_body]
pub(crate) fn seeded_rng(seed: u64) -> StdRng {
    StdRng::seed_from_u64(seed)
}

/// Calls `rand::Rng::gen_range` on `0..n`. Claimed: the draw is below `n` (`gen_range` panics on
/// an empty range, so `n` is positive).
#[verifier::external_body]
pub(crate) fn draw_below(rng: &mut StdRng, n: u32) -> (r: u32)
    requires
        n > 0,
    ensures
        r < n,
{
    rng.gen_range(0..n)
}

/// Calls `rand::Rng::gen_range` on `lo..=hi`. Claimed: the draw lies in the range (`lo <= hi`, as
/// `gen_range` panics on an empty range).
#[verifier::external_body]
pub(crate) fn draw_between(rng: &mut StdRng, lo: u64, hi: u64) -> (r: u64)
    requires
        lo <= hi,
    ensures
        lo <= r <= hi,
{
    rng.gen_range(lo..=hi)
}

/// Calls `rand::RngCore::fill_bytes` on eight bytes. Nothing is claimed of the bytes.
#[verifier::external_body]
pub(crate) fn draw_bytes8(rng: &mut StdRng) -> [u8; 8] {
    let mut out = [0u8; 8];
    rng.fill_bytes(&mut out);
    out
}

} // verus!
