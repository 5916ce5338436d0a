//! Birth/survival rules: the automaton's transition thresholds.

use vstd::prelude::*;

verus! {

/// True when `s` holds the neighbor count `n`.
pub open spec fn rule_has(s: Seq<usize>, n: int) -> bool {
    exists|j: int| 0 <= j < s.len() && s[j] == n
}

/// A named automaton rule: neighbor counts that turn a solid cell alive
/// (birth) and neighbor counts that keep an alive cell alive (survival).
/// Membership is all that matters; order and duplicates do not.
pub struct CARule {
    pub name: String,
    pub birth: Vec<usize>,
    pub survival: Vec<usize>,
}

impl CARule {
    /// Whether `n` is a birth count.
    pub fn birth_contains(&self, n: usize) -> (r: bool)
        ensures
            r == rule_has(self.birth@, n as int),
    {
        contains_count(&self.birth, n)
    }

    /// Whether `n` is a survival count.
    pub fn survival_contains(&self, n: usize) -> (r: bool)
        ensures
            r == rule_has(self.survival@, n as int),
    {
        contains_count(&self.survival, n)
    }
}

fn contains_count(s: &Vec<usize>, n: usize) -> (r: bool)
    ensures
        r == rule_has(s@, n as int),
{
    let mut j: usize = 0;
    while j < s.len()
        invariant
            j <= s@.len(),
            forall|i: int| 0 <= i < j ==> s@[i] != n,
        decreases s@.len() - j,
    {
        if s[j] == n {
            return true;
        }
        j = j + 1;
    }
    false
}

impl Clone for CARule {
    fn clone(&self) -> (r: Self)
        ensures
            r.name@ == self.name@,
            r.birth@ == self.birth@,
            r.survival@ == self.survival@,
    {
        CARule {
            name: self.name.clone(),
            birth: clone_counts(&self.birth),
            survival: clone_counts(&self.survival),
        }
    }
}

fn clone_counts(s: &Vec<usize>) -> (r: Vec<usize>)
    ensures
        r@ == s@,
{
    let mut out: Vec<usize> = Vec::new();
    let mut i: usize = 0;
    while i < s.len()
        invariant
            i <= s@.len(),
            out@.len() == i,
            forall|j: int| 0 <= j < i ==> out@[j] == s@[j],
        decreases s@.len() - i,
    {
        out.push(s[i]);
        i = i + 1;
    }
    proof {
        assert(out@ =~= s@);
    }
    out
}

} // verus!
