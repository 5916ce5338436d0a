//! Connected-component labeling of alive cells under 6-connectivity.

use vstd::prelude::*;
use crate::grid::{CAContext, GridModel, lemma_pos_of_index, lemma_index_of_pos, spec_alive_count, alive_count_to};
use crate::cell::CACell;

verus! {

/// Absolute difference of two integers.
pub open spec fn absd(p: int, q: int) -> int {
    if p >= q {
        p - q
    } else {
        q - p
    }
}

/// Two flat indices are 6-adjacent: both in range and their coordinates
/// differ by one step along exactly one axis.
pub open spec fn adj6(g: GridModel, a: int, b: int) -> bool {
    &&& 0 <= a < g.cells.len()
    &&& 0 <= b < g.cells.len()
    &&& absd(g.pos_x(a), g.pos_x(b)) + absd(g.pos_y(a), g.pos_y(b)) + absd(
        g.pos_z(a),
        g.pos_z(b),
    ) == 1
}

/// `c` lists the flat index `b`.
pub open spec fn contains_idx(c: Seq<usize>, b: int) -> bool {
    exists|j: int| 0 <= j < c.len() && c[j] == b
}

/// A walk through alive cells: every entry is an in-bounds alive cell and
/// consecutive entries are 6-adjacent.
pub open spec fn is_path(g: GridModel, p: Seq<int>) -> bool {
    &&& p.len() >= 1
    &&& forall|k: int| 0 <= k < p.len() ==> 0 <= #[trigger] p[k] < g.cells.len() && g.alive(p[k])
    &&& forall|k: int| 0 <= k < p.len() - 1 ==> adj6(g, #[trigger] p[k], p[k + 1])
}

/// `b` is reachable from `a` through 6-adjacent alive cells.
pub open spec fn connected(g: GridModel, a: int, b: int) -> bool {
    exists|p: Seq<int>| is_path(g, p) && p.first() == a && p.last() == b
}

/// An alive cell reaches itself.
pub proof fn lemma_connected_refl(g: GridModel, a: int)
    requires
        0 <= a < g.cells.len(),
        g.alive(a),
    ensures
        connected(g, a, a),
{
    let p: Seq<int> = seq![a];
    assert(is_path(g, p));
    assert(p.first() == a && p.last() == a);
}

/// Reachability extends across one more adjacent alive cell.
pub proof fn lemma_connected_step(g: GridModel, a: int, b: int, c: int)
    requires
        connected(g, a, b),
        adj6(g, b, c),
        g.alive(c),
    ensures
        connected(g, a, c),
{
    let p = choose|p: Seq<int>| is_path(g, p) && p.first() == a && p.last() == b;
    let p2 = p.push(c);
    assert forall|k: int| 0 <= k < p2.len() - 1 implies adj6(g, #[trigger] p2[k], p2[k + 1]) by {
        if k < p.len() - 1 {
            assert(p2[k] == p[k] && p2[k + 1] == p[k + 1]);
        } else {
            assert(p2[k] == p.last() && p2[k + 1] == c);
        }
    }
    assert(is_path(g, p2));
    assert(p2.first() == a && p2.last() == c);
}

/// Members of one component: at least one cell, every member an alive cell
/// of the grid, no member listed twice.
pub open spec fn comp_members_ok(g: GridModel, c: Seq<usize>) -> bool {
    &&& c.len() >= 1
    &&& forall|j: int| 0 <= j < c.len() ==> (#[trigger] c[j]) < g.cells.len() && g.alive(c[j] as int)
    &&& forall|j1: int, j2: int| 0 <= j1 < j2 < c.len() ==> c[j1] != c[j2]
}

/// The component is closed under 6-adjacency through alive cells: every
/// alive neighbor of a member is itself a member.
pub open spec fn comp_closed(g: GridModel, c: Seq<usize>) -> bool {
    forall|j: int, b: int|
        0 <= j < c.len() && #[trigger] adj6(g, c[j] as int, b) && g.alive(b) ==> contains_idx(c, b)
}

/// Some listed component lists `i`.
pub open spec fn comps_has(comps: Seq<Vec<usize>>, i: int) -> bool {
    exists|c: int| 0 <= c < comps.len() && contains_idx(#[trigger] comps[c]@, i)
}

/// Every component is well-formed and closed, and no cell is listed by two
/// different components.
pub open spec fn comps_wf(g: GridModel, comps: Seq<Vec<usize>>) -> bool {
    &&& forall|c: int| 0 <= c < comps.len() ==> comp_members_ok(g, #[trigger] comps[c]@)
    &&& forall|c: int| 0 <= c < comps.len() ==> comp_closed(g, #[trigger] comps[c]@)
    &&& forall|c1: int, c2: int, j1: int, j2: int|
        0 <= c1 < c2 < comps.len() && 0 <= j1 < comps[c1]@.len() && 0 <= j2 < comps[c2]@.len()
            ==> comps[c1]@[j1] != comps[c2]@[j2]
}

/// Every alive cell of the grid is listed by some component.
pub open spec fn comps_cover(g: GridModel, comps: Seq<Vec<usize>>) -> bool {
    forall|i: int| 0 <= i < g.cells.len() && g.alive(i) ==> comps_has(comps, i)
}

/// Sum of the component sizes.
pub open spec fn sum_sizes(comps: Seq<Vec<usize>>) -> int
    decreases comps.len(),
{
    if comps.len() == 0 {
        0
    } else {
        sum_sizes(comps.drop_last()) + comps.last()@.len()
    }
}

/// Number of `true` entries among the first `k` of `s`.
pub open spec fn count_true(s: Seq<bool>, k: int) -> int
    decreases k,
{
    if k <= 0 {
        0
    } else {
        count_true(s, k - 1) + if s[k - 1] {
            1int
        } else {
            0int
        }
    }
}

proof fn lemma_count_true_bounds(s: Seq<bool>, k: int)
    requires
        0 <= k <= s.len(),
    ensures
        0 <= count_true(s, k) <= k,
    decreases k,
{
    if k > 0 {
        lemma_count_true_bounds(s, k - 1);
    }
}

proof fn lemma_count_true_update(s: Seq<bool>, i: int, k: int)
    requires
        0 <= i < s.len(),
        !s[i],
        0 <= k <= s.len(),
    ensures
        count_true(s.update(i, true), k) == count_true(s, k) + if i < k {
            1int
        } else {
            0int
        },
    decreases k,
{
    if k > 0 {
        lemma_count_true_update(s, i, k - 1);
    }
}

proof fn lemma_count_true_eq_alive(cells: Seq<CACell>, visited: Seq<bool>, k: int)
    requires
        0 <= k <= visited.len(),
        k <= cells.len(),
        forall|i: int| 0 <= i < k ==> (visited[i] <==> cells[i].spec_alive()),
    ensures
        count_true(visited, k) == alive_count_to(cells, k),
    decreases k,
{
    if k > 0 {
        lemma_count_true_eq_alive(cells, visited, k - 1);
    }
}

proof fn lemma_sum_sizes_push(comps: Seq<Vec<usize>>, c: Vec<usize>)
    ensures
        sum_sizes(comps.push(c)) == sum_sizes(comps) + c@.len(),
{
    assert(comps.push(c).drop_last() =~= comps);
    assert(comps.push(c).last() == c);
}

proof fn lemma_sum_sizes_nonneg(comps: Seq<Vec<usize>>)
    ensures
        sum_sizes(comps) >= 0,
    decreases comps.len(),
{
    if comps.len() > 0 {
        lemma_sum_sizes_nonneg(comps.drop_last());
    }
}

proof fn lemma_count_true_zero(s: Seq<bool>, k: int)
    requires
        0 <= k <= s.len(),
        forall|i: int| 0 <= i < k ==> !s[i],
    ensures
        count_true(s, k) == 0,
    decreases k,
{
    if k > 0 {
        lemma_count_true_zero(s, k - 1);
    }
}

/// Scan-time invariant: `visited` marks exactly the cells listed by `comps`,
/// all of them alive, and the component sizes add up to the visit count.
pub open spec fn scan_inv(g: GridModel, comps: Seq<Vec<usize>>, visited: Seq<bool>) -> bool {
    &&& visited.len() == g.cells.len()
    &&& forall|i: int| 0 <= i < visited.len() && #[trigger] visited[i] ==> g.alive(i)
    &&& comps_wf(g, comps)
    &&& forall|i: int| 0 <= i < visited.len() ==> (#[trigger] visited[i] <==> comps_has(comps, i))
    &&& sum_sizes(comps) == count_true(visited, visited.len() as int)
}

/// Flood-fill invariant while one component is being grown: `cur` collects
/// the new component, its first `head` members have all their alive
/// neighbors already collected.
spec fn bfs_inv(
    g: GridModel,
    comps: Seq<Vec<usize>>,
    visited: Seq<bool>,
    cur: Seq<usize>,
    head: int,
) -> bool {
    &&& visited.len() == g.cells.len()
    &&& forall|i: int| 0 <= i < visited.len() && #[trigger] visited[i] ==> g.alive(i)
    &&& comps_wf(g, comps)
    &&& forall|i: int|
        0 <= i < visited.len() ==> (#[trigger] visited[i] <==> comps_has(comps, i) || contains_idx(
            cur,
            i,
        ))
    &&& cur.len() >= 1
    &&& forall|j: int| 0 <= j < cur.len() ==> (#[trigger] cur[j]) < g.cells.len() && g.alive(cur[j] as int)
    &&& forall|j1: int, j2: int| 0 <= j1 < j2 < cur.len() ==> cur[j1] != cur[j2]
    &&& forall|j: int| 0 <= j < cur.len() ==> !comps_has(comps, #[trigger] cur[j] as int)
    &&& 0 <= head <= cur.len()
    &&& forall|j: int, b: int|
        0 <= j < head && #[trigger] adj6(g, cur[j] as int, b) && g.alive(b) ==> contains_idx(cur, b)
    &&& sum_sizes(comps) + cur.len() == count_true(visited, visited.len() as int)
}

/// Expand one candidate neighbor of the member `cur[head]` during flood
/// fill: if it is alive and not yet visited, mark it and append it to the
/// growing component. Afterwards an alive candidate is always a member.
fn visit_candidate(
    g: &CAContext,
    comps: &Vec<Vec<usize>>,
    visited: &mut Vec<bool>,
    cur: &mut Vec<usize>,
    head: usize,
    nb: usize,
    seed: Ghost<int>,
) -> (added: bool)
    requires
        g@.wf(),
        nb < g@.cells.len(),
        head < old(cur)@.len(),
        adj6(g@, old(cur)@[head as int] as int, nb as int),
        bfs_inv(g@, comps@, old(visited)@, old(cur)@, head as int),
        forall|j: int| 0 <= j < old(cur)@.len() ==> connected(g@, seed@, #[trigger] old(cur)@[j] as int),
    ensures
        forall|j: int| 0 <= j < final(cur)@.len() ==> connected(g@, seed@, #[trigger] final(cur)@[j] as int),
        bfs_inv(g@, comps@, final(visited)@, final(cur)@, head as int),
        final(cur)@.len() >= old(cur)@.len(),
        forall|j: int| 0 <= j < old(cur)@.len() ==> final(cur)@[j] == old(cur)@[j],
        forall|i: int|
            0 <= i < old(visited)@.len() && old(visited)@[i] ==> final(visited)@[i],
        forall|b: int| contains_idx(old(cur)@, b) ==> contains_idx(final(cur)@, b),
        g@.alive(nb as int) ==> contains_idx(final(cur)@, nb as int),
{
    let alive = g.cell_at(nb).is_alive();
    if alive && !visited[nb] {
        let ghost v0 = visited@;
        let ghost c0 = cur@;
        visited.set(nb, true);
        cur.push(nb);
        proof {
            lemma_connected_step(g@, seed@, c0[head as int] as int, nb as int);
            assert forall|j: int| 0 <= j < cur@.len() implies connected(
                g@,
                seed@,
                #[trigger] cur@[j] as int,
            ) by {
                if j < c0.len() {
                    assert(cur@[j] == c0[j]);
                }
            }
            lemma_count_true_update(v0, nb as int, v0.len() as int);
            assert forall|b: int| contains_idx(c0, b) implies contains_idx(cur@, b) by {
                let j = choose|j: int| 0 <= j < c0.len() && c0[j] == b;
                assert(cur@[j] == b);
            }
            assert(!contains_idx(c0, nb as int));
            assert(!comps_has(comps@, nb as int));
            assert(contains_idx(cur@, nb as int)) by {
                assert(cur@[c0.len() as int] == nb);
            }
            assert forall|i: int|
                0 <= i < visited@.len() implies (#[trigger] visited@[i] <==> comps_has(comps@, i)
                    || contains_idx(cur@, i)) by {
                if i == nb {
                } else {
                    assert(visited@[i] == v0[i]);
                    assert(contains_idx(c0, i) ==> contains_idx(cur@, i)) by {
                        if contains_idx(c0, i) {
                            let j = choose|j: int| 0 <= j < c0.len() && c0[j] == i;
                            assert(cur@[j] == i);
                        }
                    }
                    assert(contains_idx(cur@, i) ==> contains_idx(c0, i) || i == nb) by {
                        if contains_idx(cur@, i) {
                            let j = choose|j: int| 0 <= j < cur@.len() && cur@[j] == i;
                            if j < c0.len() {
                                assert(c0[j] == i);
                            }
                        }
                    }
                }
            }
            assert forall|j: int, b: int|
                0 <= j < head && #[trigger] adj6(g@, cur@[j] as int, b) && g@.alive(b)
                    implies contains_idx(cur@, b) by {
                assert(cur@[j] == c0[j]);
                assert(contains_idx(c0, b));
                let jj = choose|jj: int| 0 <= jj < c0.len() && c0[jj] == b;
                assert(cur@[jj] == b);
            }
        }
        true
    } else {
        proof {
            if g@.alive(nb as int) {
                // alive but already visited: it must already sit in the
                // growing component, never in a finished one, because a
                // finished component is closed and disjoint from `cur`.
                let m = cur@[head as int] as int;
                assert(visited@[nb as int]);
                if comps_has(comps@, nb as int) {
                    let c = choose|c: int|
                        0 <= c < comps@.len() && contains_idx(comps@[c]@, nb as int);
                    let j = choose|j: int| 0 <= j < comps@[c]@.len() && comps@[c]@[j] == nb as int;
                    assert(adj6(g@, nb as int, m));
                    assert(comp_closed(g@, comps@[c]@));
                    assert(adj6(g@, comps@[c]@[j] as int, m));
                    assert(contains_idx(comps@[c]@, m));
                    assert(comps_has(comps@, m));
                    assert(!comps_has(comps@, cur@[head as int] as int));
                    assert(false);
                }
                assert(contains_idx(cur@, nb as int));
            }
        }
        false
    }
}


/// Grow the component of `seed` by breadth-first flood fill: an array-backed
/// worklist whose entries are exactly the members found so far.
#[verifier::rlimit(100)]
fn flood_from(
    g: &CAContext,
    comps: &Vec<Vec<usize>>,
    visited: &mut Vec<bool>,
    seed: usize,
) -> (cur: Vec<usize>)
    requires
        g@.wf(),
        scan_inv(g@, comps@, old(visited)@),
        seed < g@.cells.len(),
        g@.alive(seed as int),
        !old(visited)@[seed as int],
    ensures
        final(visited)@.len() == old(visited)@.len(),
        forall|i: int| 0 <= i < old(visited)@.len() && old(visited)@[i] ==> final(visited)@[i],
        final(visited)@[seed as int],
        scan_inv(g@, comps@.push(cur), final(visited)@),
        contains_idx(cur@, seed as int),
        cur@[0] == seed,
        forall|j: int| 0 <= j < cur@.len() ==> connected(g@, seed as int, #[trigger] cur@[j] as int),
{
    let ghost v0 = visited@;
    let mut cur: Vec<usize> = Vec::new();
    visited.set(seed, true);
    cur.push(seed);
    proof {
        lemma_count_true_update(v0, seed as int, v0.len() as int);
        assert(!comps_has(comps@, seed as int));
        assert(contains_idx(cur@, seed as int)) by {
            assert(cur@[0] == seed);
        }
        assert forall|i: int|
            0 <= i < visited@.len() implies (#[trigger] visited@[i] <==> comps_has(comps@, i)
                || contains_idx(cur@, i)) by {
            if i != seed {
                assert(visited@[i] == v0[i]);
                if contains_idx(cur@, i) {
                    let j = choose|j: int| 0 <= j < cur@.len() && cur@[j] == i;
                    assert(false);
                }
            }
        }
        assert(bfs_inv(g@, comps@, visited@, cur@, 0));
        lemma_connected_refl(g@, seed as int);
        assert(cur@[0] == seed);
    }
    let mut head: usize = 0;
    while head < cur.len()
        invariant
            g@.wf(),
            bfs_inv(g@, comps@, visited@, cur@, head as int),
            visited@.len() == v0.len(),
            forall|i: int| 0 <= i < v0.len() && v0[i] ==> visited@[i],
            visited@[seed as int],
            contains_idx(cur@, seed as int),
            cur@[0] == seed,
            forall|j: int| 0 <= j < cur@.len() ==> connected(g@, seed as int, #[trigger] cur@[j] as int),
        decreases g@.cells.len() - head,
    {
        proof {
            lemma_sum_sizes_nonneg(comps@);
            lemma_count_true_bounds(visited@, visited@.len() as int);
        }
        let m = cur[head];
        let (x, y, z) = g.pos(m);
        let w = g.width();
        let h = g.height();
        let d = g.depth();
        let ghost gm = g@;
        let ghost mi = m as int;
        if x + 1 < w {
            let nb = g.idx(x + 1, y, z);
            proof {
                lemma_index_of_pos(gm, x + 1, y as int, z as int);
                assert(adj6(gm, mi, nb as int));
            }
            visit_candidate(g, comps, visited, &mut cur, head, nb, Ghost(seed as int));
        }
        proof {
            assert(x + 1 < gm.width ==> (gm.in_bounds(x + 1, y as int, z as int)
                && (gm.alive(gm.idx(x + 1, y as int, z as int)) ==> contains_idx(
                cur@,
                gm.idx(x + 1, y as int, z as int),
            ))));
        }
        if x > 0 {
            let nb = g.idx(x - 1, y, z);
            proof {
                lemma_index_of_pos(gm, x - 1, y as int, z as int);
                assert(adj6(gm, mi, nb as int));
            }
            visit_candidate(g, comps, visited, &mut cur, head, nb, Ghost(seed as int));
        }
        proof {
            assert(x > 0 ==> (gm.in_bounds(x - 1, y as int, z as int)
                && (gm.alive(gm.idx(x - 1, y as int, z as int)) ==> contains_idx(
                cur@,
                gm.idx(x - 1, y as int, z as int),
            ))));
        }
        if y + 1 < h {
            let nb = g.idx(x, y + 1, z);
            proof {
                lemma_index_of_pos(gm, x as int, y + 1, z as int);
                assert(adj6(gm, mi, nb as int));
            }
            visit_candidate(g, comps, visited, &mut cur, head, nb, Ghost(seed as int));
        }
        proof {
            assert(y + 1 < gm.height ==> (gm.in_bounds(x as int, y + 1, z as int)
                && (gm.alive(gm.idx(x as int, y + 1, z as int)) ==> contains_idx(
                cur@,
                gm.idx(x as int, y + 1, z as int),
            ))));
        }
        if y > 0 {
            let nb = g.idx(x, y - 1, z);
            proof {
                lemma_index_of_pos(gm, x as int, y - 1, z as int);
                assert(adj6(gm, mi, nb as int));
            }
            visit_candidate(g, comps, visited, &mut cur, head, nb, Ghost(seed as int));
        }
        proof {
            assert(y > 0 ==> (gm.in_bounds(x as int, y - 1, z as int)
                && (gm.alive(gm.idx(x as int, y - 1, z as int)) ==> contains_idx(
                cur@,
                gm.idx(x as int, y - 1, z as int),
            ))));
        }
        if z + 1 < d {
            let nb = g.idx(x, y, z + 1);
            proof {
                lemma_index_of_pos(gm, x as int, y as int, z + 1);
                assert(adj6(gm, mi, nb as int));
            }
            visit_candidate(g, comps, visited, &mut cur, head, nb, Ghost(seed as int));
        }
        proof {
            assert(z + 1 < gm.depth ==> (gm.in_bounds(x as int, y as int, z + 1)
                && (gm.alive(gm.idx(x as int, y as int, z + 1)) ==> contains_idx(
                cur@,
                gm.idx(x as int, y as int, z + 1),
            ))));
        }
        if z > 0 {
            let nb = g.idx(x, y, z - 1);
            proof {
                lemma_index_of_pos(gm, x as int, y as int, z - 1);
                assert(adj6(gm, mi, nb as int));
            }
            visit_candidate(g, comps, visited, &mut cur, head, nb, Ghost(seed as int));
        }
        proof {
            assert(z > 0 ==> (gm.in_bounds(x as int, y as int, z - 1)
                && (gm.alive(gm.idx(x as int, y as int, z - 1)) ==> contains_idx(
                cur@,
                gm.idx(x as int, y as int, z - 1),
            ))));
        }
        proof {
            assert forall|b: int| #[trigger] adj6(gm, mi, b) && gm.alive(b) implies contains_idx(
                cur@,
                b,
            ) by {
                lemma_pos_of_index(gm, b);
                let bx = gm.pos_x(b);
                let by = gm.pos_y(b);
                let bz = gm.pos_z(b);
                assert(absd(x as int, bx) + absd(y as int, by) + absd(z as int, bz) == 1);
                if bx == x + 1 && by == y as int && bz == z as int {
                    assert(b == gm.idx(x + 1, y as int, z as int));
                } else if bx == x - 1 && by == y as int && bz == z as int {
                    assert(b == gm.idx(x - 1, y as int, z as int));
                } else if bx == x as int && by == y + 1 && bz == z as int {
                    assert(b == gm.idx(x as int, y + 1, z as int));
                } else if bx == x as int && by == y - 1 && bz == z as int {
                    assert(b == gm.idx(x as int, y - 1, z as int));
                } else if bx == x as int && by == y as int && bz == z + 1 {
                    assert(b == gm.idx(x as int, y as int, z + 1));
                } else {
                    assert(bx == x as int && by == y as int && bz == z - 1);
                    assert(b == gm.idx(x as int, y as int, z - 1));
                }
            }
            assert forall|j: int, b: int|
                0 <= j < head + 1 && #[trigger] adj6(g@, cur@[j] as int, b) && g@.alive(b)
                    implies contains_idx(cur@, b) by {
                if j == head {
                    assert(cur@[j] == m);
                }
            }
        }
        head = head + 1;
    }
    proof {
        let cs = comps@.push(cur);
        lemma_sum_sizes_push(comps@, cur);
        assert(comp_closed(g@, cur@));
        assert forall|c: int| 0 <= c < cs.len() implies comp_members_ok(g@, #[trigger] cs[c]@)
            && comp_closed(g@, cs[c]@) by {
            if c < comps@.len() {
                assert(cs[c] == comps@[c]);
            } else {
                assert(cs[c] == cur);
            }
        }
        assert forall|c1: int, c2: int, j1: int, j2: int|
            0 <= c1 < c2 < cs.len() && 0 <= j1 < cs[c1]@.len() && 0 <= j2 < cs[c2]@.len()
                implies cs[c1]@[j1] != cs[c2]@[j2] by {
            if c2 < comps@.len() {
                assert(cs[c1] == comps@[c1] && cs[c2] == comps@[c2]);
            } else {
                assert(cs[c1] == comps@[c1] && cs[c2] == cur);
                assert(!comps_has(comps@, cur@[j2] as int));
                if comps@[c1]@[j1] == cur@[j2] {
                    assert(contains_idx(comps@[c1]@, cur@[j2] as int));
                    assert(comps_has(comps@, cur@[j2] as int));
                }
            }
        }
        assert forall|i: int|
            0 <= i < visited@.len() implies (#[trigger] visited@[i] <==> comps_has(cs, i)) by {
            if visited@[i] {
                if comps_has(comps@, i) {
                    let c = choose|c: int| 0 <= c < comps@.len() && contains_idx(comps@[c]@, i);
                    assert(cs[c] == comps@[c]);
                    assert(comps_has(cs, i));
                } else {
                    assert(contains_idx(cur@, i));
                    assert(cs[comps@.len() as int] == cur);
                    assert(comps_has(cs, i));
                }
            }
            if comps_has(cs, i) {
                let c = choose|c: int| 0 <= c < cs.len() && contains_idx(#[trigger] cs[c]@, i);
                if c < comps@.len() {
                    assert(cs[c] == comps@[c]);
                    assert(comps_has(comps@, i));
                } else {
                    assert(cs[c] == cur);
                }
            }
        }
        assert(scan_inv(g@, cs, visited@));
    }
    cur
}

/// All 6-connected components of alive cells, in the order their first cells
/// appear in a linear scan of the grid. Components partition the alive
/// cells: every alive cell is listed by exactly one component, and the
/// component sizes add up to the total number of alive cells.
pub fn components(g: &CAContext) -> (comps: Vec<Vec<usize>>)
    requires
        g@.wf(),
    ensures
        comps_wf(g@, comps@),
        comps_cover(g@, comps@),
        sum_sizes(comps@) == spec_alive_count(g@),
        forall|c: int, j: int|
            0 <= c < comps@.len() && 0 <= j < comps@[c]@.len() ==> connected(
                g@,
                comps@[c]@[0] as int,
                #[trigger] comps@[c]@[j] as int,
            ),
{
    let n = g.cell_count();
    let mut visited: Vec<bool> = Vec::new();
    let mut k: usize = 0;
    while k < n
        invariant
            k <= n,
            visited@.len() == k,
            forall|i: int| 0 <= i < k ==> !visited@[i],
        decreases n - k,
    {
        visited.push(false);
        k = k + 1;
    }
    let mut comps: Vec<Vec<usize>> = Vec::new();
    proof {
        lemma_count_true_zero(visited@, visited@.len() as int);
        assert(scan_inv(g@, comps@, visited@));
    }
    let mut i: usize = 0;
    while i < n
        invariant
            g@.wf(),
            n == g@.cells.len(),
            i <= n,
            scan_inv(g@, comps@, visited@),
            forall|j: int| 0 <= j < i && g@.alive(j) ==> visited@[j],
            forall|c: int, j: int|
                0 <= c < comps@.len() && 0 <= j < comps@[c]@.len() ==> connected(
                    g@,
                    comps@[c]@[0] as int,
                    #[trigger] comps@[c]@[j] as int,
                ),
        decreases n - i,
    {
        if g.cell_at(i).is_alive() && !visited[i] {
            let ghost comps0 = comps@;
            let cur = flood_from(g, &comps, &mut visited, i);
            comps.push(cur);
            proof {
                assert forall|c: int, j: int|
                    0 <= c < comps@.len() && 0 <= j < comps@[c]@.len() implies connected(
                        g@,
                        comps@[c]@[0] as int,
                        #[trigger] comps@[c]@[j] as int,
                    ) by {
                    if c < comps0.len() {
                        assert(comps@[c] == comps0[c]);
                    } else {
                        assert(comps@[c] == cur);
                    }
                }
            }
        }
        i = i + 1;
    }
    proof {
        assert forall|i2: int|
            0 <= i2 < visited@.len() implies (visited@[i2] <==> g@.cells[i2].spec_alive()) by {}
        lemma_count_true_eq_alive(g@.cells, visited@, visited@.len() as int);
    }
    comps
}

/// Reachability is symmetric: a path reverses, step by step.
pub proof fn lemma_connected_sym(g: GridModel, a: int, b: int)
    requires
        connected(g, a, b),
    ensures
        connected(g, b, a),
{
    let p = choose|p: Seq<int>| is_path(g, p) && p.first() == a && p.last() == b;
    let n = p.len() as int;
    let q = Seq::new(p.len(), |k: int| p[n - 1 - k]);
    assert forall|k: int| 0 <= k < q.len() - 1 implies adj6(g, #[trigger] q[k], q[k + 1]) by {
        assert(adj6(g, p[n - 2 - k], p[n - 1 - k]));
        assert(q[k] == p[n - 1 - k] && q[k + 1] == p[n - 2 - k]);
    }
    assert(is_path(g, q));
    assert(q.first() == b && q.last() == a);
}

/// Reachability is transitive: two paths join at their shared endpoint.
pub proof fn lemma_connected_trans(g: GridModel, a: int, b: int, c: int)
    requires
        connected(g, a, b),
        connected(g, b, c),
    ensures
        connected(g, a, c),
{
    let p1 = choose|p: Seq<int>| is_path(g, p) && p.first() == a && p.last() == b;
    let p2 = choose|p: Seq<int>| is_path(g, p) && p.first() == b && p.last() == c;
    let q = p1 + p2.subrange(1, p2.len() as int);
    assert(q.len() == p1.len() + p2.len() - 1);
    assert forall|k: int| 0 <= k < q.len() implies 0 <= #[trigger] q[k] < g.cells.len()
        && g.alive(q[k]) by {
        if k < p1.len() {
            assert(q[k] == p1[k]);
        } else {
            assert(q[k] == p2[k - p1.len() + 1]);
        }
    }
    assert forall|k: int| 0 <= k < q.len() - 1 implies adj6(g, #[trigger] q[k], q[k + 1]) by {
        if k + 1 < p1.len() {
            assert(q[k] == p1[k] && q[k + 1] == p1[k + 1]);
        } else if k == p1.len() - 1 {
            assert(q[k] == p1[k] && p1[k] == b && p2[0] == b);
            assert(q[k + 1] == p2[1]);
            assert(adj6(g, p2[0], p2[1]));
        } else {
            assert(q[k] == p2[k - p1.len() + 1] && q[k + 1] == p2[k - p1.len() + 2]);
            assert(adj6(g, p2[k - p1.len() + 1], p2[k - p1.len() + 2]));
        }
    }
    assert(is_path(g, q));
    assert(q.first() == a && q.last() == c);
}

/// A closed component that holds the start of a walk holds every cell of
/// the walk.
proof fn lemma_closed_absorbs_path(g: GridModel, c: Seq<usize>, p: Seq<int>, k: int)
    requires
        comp_closed(g, c),
        is_path(g, p),
        contains_idx(c, p.first()),
        0 <= k < p.len(),
    ensures
        contains_idx(c, p[k]),
    decreases k,
{
    if k > 0 {
        lemma_closed_absorbs_path(g, c, p, k - 1);
        let j = choose|j: int| 0 <= j < c.len() && c[j] == p[k - 1];
        assert(adj6(g, c[j] as int, p[k]));
        assert(g.alive(p[k]));
    }
}

/// A closed component that holds one endpoint of a connection holds the
/// other.
pub proof fn lemma_closed_absorbs_connected(g: GridModel, c: Seq<usize>, a: int, b: int)
    requires
        comp_closed(g, c),
        contains_idx(c, a),
        connected(g, a, b),
    ensures
        contains_idx(c, b),
{
    let p = choose|p: Seq<int>| is_path(g, p) && p.first() == a && p.last() == b;
    lemma_closed_absorbs_path(g, c, p, p.len() - 1);
}

/// `x` and `y` list the same set of cells.
pub open spec fn same_members(x: Seq<usize>, y: Seq<usize>) -> bool {
    forall|m: int| contains_idx(x, m) <==> contains_idx(y, m)
}

/// Some component of `b` lists exactly the cells of `x`.
pub open spec fn has_matching_component(b: Seq<Vec<usize>>, x: Seq<usize>) -> bool {
    exists|c2: int| 0 <= c2 < b.len() && same_members(x, #[trigger] b[c2]@)
}

/// The two lists of components partition the alive cells the same way:
/// each component of one lists exactly the cells of some component of the
/// other. So labeling the same grid twice yields componentwise-identical
/// partitions, whatever order either scan visited the cells in.
pub proof fn lemma_labeling_partition_unique(g: GridModel, a: Seq<Vec<usize>>, b: Seq<Vec<usize>>)
    requires
        g.wf(),
        comps_wf(g, a),
        comps_cover(g, a),
        comps_wf(g, b),
        comps_cover(g, b),
        forall|c: int, j: int|
            0 <= c < a.len() && 0 <= j < a[c]@.len() ==> connected(
                g,
                a[c]@[0] as int,
                #[trigger] a[c]@[j] as int,
            ),
        forall|c: int, j: int|
            0 <= c < b.len() && 0 <= j < b[c]@.len() ==> connected(
                g,
                b[c]@[0] as int,
                #[trigger] b[c]@[j] as int,
            ),
    ensures
        forall|c1: int| 0 <= c1 < a.len() ==> has_matching_component(b, #[trigger] a[c1]@),
{
    assert forall|c1: int| 0 <= c1 < a.len() implies has_matching_component(
        b,
        #[trigger] a[c1]@,
    ) by {
        assert(comp_members_ok(g, a[c1]@));
        let x = a[c1]@[0] as int;
        assert(contains_idx(a[c1]@, x)) by {
            assert(a[c1]@[0] == x);
        }
        assert(g.alive(x));
        assert(comps_has(b, x));
        let c2 = choose|c2: int| 0 <= c2 < b.len() && contains_idx(#[trigger] b[c2]@, x);
        assert(comp_members_ok(g, b[c2]@));
        assert(comp_closed(g, a[c1]@));
        assert(comp_closed(g, b[c2]@));
        let y = b[c2]@[0] as int;
        let jx = choose|j: int| 0 <= j < b[c2]@.len() && b[c2]@[j] == x;
        assert(connected(g, y, b[c2]@[jx] as int));
        assert forall|m: int| contains_idx(a[c1]@, m) implies contains_idx(b[c2]@, m) by {
            let jm = choose|j: int| 0 <= j < a[c1]@.len() && a[c1]@[j] == m;
            assert(connected(g, x, a[c1]@[jm] as int));
            lemma_closed_absorbs_connected(g, b[c2]@, x, m);
        }
        assert forall|m: int| contains_idx(b[c2]@, m) implies contains_idx(a[c1]@, m) by {
            let jm = choose|j: int| 0 <= j < b[c2]@.len() && b[c2]@[j] == m;
            assert(connected(g, y, b[c2]@[jm] as int));
            lemma_connected_sym(g, y, x);
            lemma_connected_trans(g, x, y, m);
            lemma_closed_absorbs_connected(g, a[c1]@, x, m);
        }
        assert(0 <= c2 < b.len() && same_members(a[c1]@, b[c2]@));
        assert(has_matching_component(b, a[c1]@));
    }
}

} // verus!
