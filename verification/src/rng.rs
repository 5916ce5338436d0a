//! Seeded pseudo-random draws used to fill a fresh grid.

use vstd::prelude::*;
use rand_xoshiro::rand_core::RngCore;
use rand_xoshiro::rand_core::SeedableRng;

verus! {

/// The `i`-th 64-bit draw of a xoshiro256++ generator seeded from `seed`.
/// The whole stream is a function of the seed alone.
pub uninterp spec fn xoshiro_draw(seed: u64, i: int) -> u64;

/// Relies on `rand_xoshiro::Xoshiro256PlusPlus`: `seed_from_u64` expands the
/// seed with SplitMix64 and repeated `next_u64` runs the xoshiro256++ state
/// transition, so the draw sequence is a deterministic, portable function of
/// the seed. The per-draw calls cannot be split out, because the generator
/// state between draws is opaque to the caller.
#[verifier::external_body]
pub(crate) fn xoshiro_draws(seed: u64, n: usize) -> (r: Vec<u64>)
    ensures
        r@.len() == n,
        forall|i: int| 0 <= i < n ==> r@[i] == xoshiro_draw(seed, i),
{
    let mut rng = rand_xoshiro::Xoshiro256PlusPlus::seed_from_u64(seed);
    let mut out = Vec::with_capacity(n);
    for _ in 0..n {
        out.push(rng.next_u64());
    }
    out
}

} // verus!
