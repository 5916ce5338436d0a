//! Seed enumeration for experiment sweeps.

use vstd::prelude::*;

verus! {

/// The `n` consecutive seeds starting at `base`, one per run of a sweep.
pub fn generate_seeds(n: usize, base: u64) -> (r: Vec<u64>)
    requires
        base + n <= u64::MAX,
    ensures
        r@.len() == n,
        forall|i: int| 0 <= i < n ==> r@[i] == base + i,
{
    let mut seeds: Vec<u64> = Vec::new();
    let mut i: usize = 0;
    while i < n
        invariant
            i <= n,
            base + n <= u64::MAX,
            seeds@.len() == i,
            forall|j: int| 0 <= j < i ==> seeds@[j] == base + j,
        decreases n - i,
    {
        seeds.push(base + i as u64);
        i = i + 1;
    }
    seeds
}

} // verus!
