//! Stock neighborhoods and rule sets used by experiment sweeps.

use vstd::prelude::*;
use crate::neighborhood::{CANeighborhood, von_neumann_offsets, is_cube_offsets};
use crate::rule::CARule;

verus! {

/// The three neighborhoods a default sweep compares: von Neumann, Moore,
/// and extended Moore of radius 2.
pub fn neighbourhoods() -> (r: Vec<CANeighborhood>)
    ensures
        r@.len() == 3,
        r@[0]@ == von_neumann_offsets(),
        is_cube_offsets(r@[1]@, 1),
        is_cube_offsets(r@[2]@, 2),
{
    let mut r: Vec<CANeighborhood> = Vec::new();
    r.push(CANeighborhood::von_neumann());
    r.push(CANeighborhood::moore());
    r.push(CANeighborhood::extended_moore(2));
    r
}

fn counts3(a: usize, b: usize, c: usize) -> (r: Vec<usize>)
    ensures
        r@ =~= seq![a, b, c],
{
    let mut r: Vec<usize> = Vec::new();
    r.push(a);
    r.push(b);
    r.push(c);
    r
}

/// The two birth/survival rule sets a default sweep compares.
pub fn rulesets() -> (r: Vec<CARule>)
    ensures
        r@.len() == 2,
        r@[0].birth@ =~= seq![5usize, 6usize, 7usize],
        r@[0].survival@ =~= seq![4usize, 5usize, 6usize],
        r@[0].name@ == "B567_S456"@,
        r@[1].birth@ =~= seq![6usize, 7usize, 8usize],
        r@[1].survival@ =~= seq![5usize, 6usize, 7usize],
        r@[1].name@ == "B678_S567"@,
{
    let mut r: Vec<CARule> = Vec::new();
    r.push(CARule {
        name: "B567_S456".to_owned(),
        birth: counts3(5, 6, 7),
        survival: counts3(4, 5, 6),
    });
    r.push(CARule {
        name: "B678_S567".to_owned(),
        birth: counts3(6, 7, 8),
        survival: counts3(5, 6, 7),
    });
    r
}

} // verus!
