//! Tunnel geometry: a multi-source breadth-first distance transform from
//! the surface of a component inward.
//!
//! Distances use `usize::MAX` for "not reached". The contract pins the
//! result as the unique fixpoint of the relaxation: surface cells hold 1,
//! every other reached cell is one more than some reached neighbor, and no
//! reached cell's neighbor is more than one further away. Together these
//! clauses say each reached cell holds exactly its 6-connected hop distance
//! to the nearest surface cell of the component.

use vstd::prelude::*;
use crate::grid::{CAContext, GridModel, lemma_index_of_pos, lemma_pos_of_index};
use crate::connectivity::{adj6, absd, contains_idx, comp_members_ok};
use crate::roughness::on_boundary;

verus! {

/// The in-bounds 6-neighbor of `i` at offset `(dx, dy, dz)` is solid.
pub open spec fn solid_bit(g: GridModel, i: int, dx: int, dy: int, dz: int) -> bool {
    let nx = g.pos_x(i) + dx;
    let ny = g.pos_y(i) + dy;
    let nz = g.pos_z(i) + dz;
    g.in_bounds(nx, ny, nz) && !g.alive(g.idx(nx, ny, nz))
}

/// Some in-bounds 6-neighbor of `i` is solid.
pub open spec fn solid_nbr6(g: GridModel, i: int) -> bool {
    ||| solid_bit(g, i, 1, 0, 0)
    ||| solid_bit(g, i, -1, 0, 0)
    ||| solid_bit(g, i, 0, 1, 0)
    ||| solid_bit(g, i, 0, -1, 0)
    ||| solid_bit(g, i, 0, 0, 1)
    ||| solid_bit(g, i, 0, 0, -1)
}

/// A surface cell of the tunnel: a member with an out-of-bounds or solid
/// 6-neighbor. An out-of-bounds 6-neighbor position exists exactly for
/// cells on an outer face of the grid.
pub open spec fn is_tunnel_seed(g: GridModel, comp: Seq<usize>, i: int) -> bool {
    &&& 0 <= i < g.cells.len()
    &&& contains_idx(comp, i)
    &&& (on_boundary(g, i) || solid_nbr6(g, i))
}

/// Number of reached (not `usize::MAX`) entries among the first `k`.
pub open spec fn fin_count_to(s: Seq<usize>, k: int) -> int
    decreases k,
{
    if k <= 0 {
        0
    } else {
        fin_count_to(s, k - 1) + if s[k - 1] != usize::MAX {
            1int
        } else {
            0int
        }
    }
}

/// Sum of the reached entries among the first `k`.
pub open spec fn fin_sum_to(s: Seq<usize>, k: int) -> int
    decreases k,
{
    if k <= 0 {
        0
    } else {
        fin_sum_to(s, k - 1) + if s[k - 1] != usize::MAX {
            s[k - 1] as int
        } else {
            0
        }
    }
}

/// Sum of the squares of the reached entries among the first `k`.
pub open spec fn fin_sqsum_to(s: Seq<usize>, k: int) -> int
    decreases k,
{
    if k <= 0 {
        0
    } else {
        fin_sqsum_to(s, k - 1) + if s[k - 1] != usize::MAX {
            (s[k - 1] as int) * (s[k - 1] as int)
        } else {
            0
        }
    }
}

/// Sum of all entries, reached or not; only used as a termination measure.
spec fn dist_sum_to(s: Seq<usize>, k: int) -> int
    decreases k,
{
    if k <= 0 {
        0
    } else {
        dist_sum_to(s, k - 1) + s[k - 1] as int
    }
}

proof fn lemma_fin_count_bounds(s: Seq<usize>, k: int)
    requires
        0 <= k <= s.len(),
    ensures
        0 <= fin_count_to(s, k) <= k,
    decreases k,
{
    if k > 0 {
        lemma_fin_count_bounds(s, k - 1);
    }
}

proof fn lemma_fin_count_missing(s: Seq<usize>, i: int, k: int)
    requires
        0 <= i < k <= s.len(),
        s[i] == usize::MAX,
    ensures
        fin_count_to(s, k) <= k - 1,
    decreases k,
{
    lemma_fin_count_bounds(s, k);
    if i == k - 1 {
        lemma_fin_count_bounds(s, k - 1);
    } else {
        lemma_fin_count_missing(s, i, k - 1);
    }
}

proof fn lemma_fin_count_update(s: Seq<usize>, i: int, v: usize, k: int)
    requires
        0 <= i < s.len(),
        v != usize::MAX,
        0 <= k <= s.len(),
    ensures
        fin_count_to(s.update(i, v), k) == fin_count_to(s, k) + if i < k && s[i] == usize::MAX {
            1int
        } else {
            0int
        },
    decreases k,
{
    if k > 0 {
        lemma_fin_count_update(s, i, v, k - 1);
    }
}

proof fn lemma_dist_sum_update(s: Seq<usize>, i: int, v: usize, k: int)
    requires
        0 <= i < s.len(),
        0 <= k <= s.len(),
    ensures
        dist_sum_to(s.update(i, v), k) == dist_sum_to(s, k) + if i < k {
            v - s[i]
        } else {
            0int
        },
    decreases k,
{
    if k > 0 {
        lemma_dist_sum_update(s, i, v, k - 1);
    }
}

/// Index of the first component of maximum size, or nothing when there are
/// no components. The first-of-maximum tie-break keeps the choice
/// deterministic for identical inputs.
pub fn largest_component(comps: &Vec<Vec<usize>>) -> (r: Option<usize>)
    ensures
        (r is None) <==> comps@.len() == 0,
        (r matches Some(k) ==> k < comps@.len() && (forall|c: int|
            0 <= c < comps@.len() ==> (#[trigger] comps@[c]@.len()) <= comps@[k as int]@.len())
            && (forall|c: int|
            0 <= c < k ==> (#[trigger] comps@[c]@.len()) < comps@[k as int]@.len())),
{
    if comps.len() == 0 {
        return None;
    }
    let mut best: usize = 0;
    let mut c: usize = 1;
    while c < comps.len()
        invariant
            comps@.len() >= 1,
            best < c <= comps@.len(),
            forall|c2: int| 0 <= c2 < c ==> (#[trigger] comps@[c2]@.len()) <= comps@[best as int]@.len(),
            forall|c2: int| 0 <= c2 < best ==> (#[trigger] comps@[c2]@.len()) < comps@[best as int]@.len(),
        decreases comps@.len() - c,
    {
        if comps[c].len() > comps[best].len() {
            best = c;
        }
        c = c + 1;
    }
    Some(best)
}

/// One candidate position has been relaxed: if it belongs to the
/// component, it is reached and no further than `d + 1`.
spec fn relaxed_at(comp: Seq<usize>, dist: Seq<usize>, nb: int, d: usize) -> bool {
    contains_idx(comp, nb) ==> 0 <= nb < dist.len() && dist[nb] != usize::MAX && dist[nb] <= d + 1
}

/// Invariant of the relaxation loop; see `tunnel_distances` for the
/// meaning of the clauses.
#[verifier::opaque]
spec fn relax_inv(
    g: GridModel,
    comp: Seq<usize>,
    dist: Seq<usize>,
    queue: Seq<usize>,
    head: int,
    set_count: int,
) -> bool {
    let n = g.cells.len() as int;
    &&& dist.len() == n
    &&& forall|i: int|
        0 <= i < n && #[trigger] dist[i] != usize::MAX ==> contains_idx(comp, i) && 1 <= dist[i]
            <= set_count
    &&& forall|i: int| is_tunnel_seed(g, comp, i) ==> #[trigger] dist[i] == 1
    &&& forall|i: int|
        0 <= i < n && #[trigger] dist[i] != usize::MAX && !is_tunnel_seed(g, comp, i) ==> dist[i]
            >= 2 && (exists|j: int|
            adj6(g, i, j) && contains_idx(comp, j) && #[trigger] dist[j] != usize::MAX && dist[j]
                <= dist[i] - 1)
    &&& forall|i: int|
        0 <= i < n && #[trigger] dist[i] != usize::MAX ==> (exists|q: int|
            head <= q < queue.len() && queue[q] == i) || (forall|j: int|
            #[trigger] adj6(g, i, j) && contains_idx(comp, j) ==> dist[j] != usize::MAX && dist[j]
                <= dist[i] + 1)
    &&& forall|q: int|
        0 <= q < queue.len() ==> (#[trigger] queue[q]) < n && dist[queue[q] as int] != usize::MAX
    &&& 0 <= head <= queue.len()
    &&& set_count == fin_count_to(dist, n)
}

/// Relax one 6-neighbor `nb` of the cell `m` being expanded, whose current
/// distance is `d`: set `dist[nb]` to `d + 1` when `nb` belongs to the
/// component and that strictly improves it. Afterwards a member candidate
/// is always reached, no further than `d + 1`.
#[verifier::rlimit(100)]
#[verifier::spinoff_prover]
fn relax_candidate(
    g: &CAContext,
    in_comp: &Vec<bool>,
    ghost_comp: Ghost<Seq<usize>>,
    dist: &mut Vec<usize>,
    queue: &mut Vec<usize>,
    head: usize,
    set_count: &mut usize,
    m: usize,
    d: usize,
    nb: usize,
) -> (changed: bool)
    requires
        g@.wf(),
        g@.cells.len() < usize::MAX,
        nb < g@.cells.len(),
        m < g@.cells.len(),
        in_comp@.len() == g@.cells.len(),
        forall|i: int| 0 <= i < in_comp@.len() ==> (in_comp@[i] <==> contains_idx(ghost_comp@, i)),
        adj6(g@, m as int, nb as int),
        old(dist)@[m as int] == d,
        d != usize::MAX,
        head < old(queue)@.len(),
        relax_inv(g@, ghost_comp@, old(dist)@, old(queue)@, head as int, *old(set_count) as int),
    ensures
        relax_inv(g@, ghost_comp@, final(dist)@, final(queue)@, head as int, *final(set_count) as int),
        final(dist)@.len() == old(dist)@.len(),
        forall|i: int| 0 <= i < old(dist)@.len() ==> final(dist)@[i] <= old(dist)@[i],
        final(dist)@[m as int] == d,
        forall|q: int| 0 <= q < old(queue)@.len() ==> final(queue)@[q] == old(queue)@[q],
        final(queue)@.len() >= old(queue)@.len(),
        contains_idx(ghost_comp@, nb as int) ==> final(dist)@[nb as int] != usize::MAX
            && final(dist)@[nb as int] <= d + 1,
        changed ==> dist_sum_to(final(dist)@, final(dist)@.len() as int) < dist_sum_to(
            old(dist)@,
            old(dist)@.len() as int,
        ),
        changed ==> final(queue)@.len() > old(queue)@.len(),
        !changed ==> final(dist)@ == old(dist)@ && final(queue)@ == old(queue)@,
{
    proof {
        reveal(relax_inv);
    }
    let ghost n = g@.cells.len() as int;
    let ghost comp = ghost_comp@;
    if !in_comp[nb] {
        return false;
    }
    let dn = dist[nb];
    let improves: bool = if dn == usize::MAX {
        true
    } else {
        // d + 1 < dn, phrased without overflow: dn >= 1 here
        d < dn - 1
    };
    if !improves {
        proof {
            if dn == usize::MAX {
                assert(false);
            }
            assert(dist@[nb as int] <= d + 1);
        }
        return false;
    }
    proof {
        if dn == usize::MAX {
            lemma_fin_count_missing(dist@, nb as int, n);
        }
        assert(d + 1 <= usize::MAX) by {
            assert(d <= *set_count);
            lemma_fin_count_bounds(dist@, n);
        }
    }
    let nd = d + 1;
    let ghost dist0 = dist@;
    let ghost q0 = queue@;
    let ghost sc0 = *set_count as int;
    dist.set(nb, nd);
    queue.push(nb);
    if dn == usize::MAX {
        *set_count = *set_count + 1;
    }
    proof {
        lemma_fin_count_update(dist0, nb as int, nd, n);
        lemma_dist_sum_update(dist0, nb as int, nd, n);
        let sc = *set_count as int;
        assert(nd < usize::MAX) by {
            assert(d <= sc0);
            if dn == usize::MAX {
                lemma_fin_count_missing(dist0, nb as int, n);
            }
            lemma_fin_count_bounds(dist0, n);
        }
        // range and membership of every reached cell
        assert forall|i: int|
            0 <= i < n && #[trigger] dist@[i] != usize::MAX implies contains_idx(comp, i)
                && 1 <= dist@[i] <= sc by {
            if i != nb {
                assert(dist@[i] == dist0[i]);
            }
        }
        // seeds keep distance 1: nd >= 2 never beats a seed's 1
        assert forall|i: int| is_tunnel_seed(g@, comp, i) implies #[trigger] dist@[i] == 1 by {
            if i != nb {
                assert(dist@[i] == dist0[i]);
            } else {
                assert(dist0[i] == dn);
                assert(dn == usize::MAX || d < dn - 1);
                assert(dist0[i] == 1);
                assert(false);
            }
        }
        // every reached non-seed has a reached neighbor one closer
        assert forall|i: int|
            0 <= i < n && #[trigger] dist@[i] != usize::MAX && !is_tunnel_seed(g@, comp, i)
                implies dist@[i] >= 2 && (exists|j: int|
                adj6(g@, i, j) && contains_idx(comp, j) && #[trigger] dist@[j] != usize::MAX
                    && dist@[j] <= dist@[i] - 1) by {
            if i == nb {
                assert(dist@[m as int] == d);
                assert(adj6(g@, nb as int, m as int));
                assert(contains_idx(comp, m as int));
                assert(dist@[nb as int] == d + 1);
            } else {
                assert(dist@[i] == dist0[i]);
                let j0 = choose|j: int|
                    adj6(g@, i, j) && contains_idx(comp, j) && #[trigger] dist0[j] != usize::MAX
                        && dist0[j] <= dist0[i] - 1;
                assert(dist@[j0] <= dist0[j0]);
                assert(adj6(g@, i, j0) && contains_idx(comp, j0) && dist@[j0] != usize::MAX
                    && dist@[j0] <= dist@[i] - 1);
            }
        }
        // every reached cell is pending or locally stable
        assert forall|i: int|
            0 <= i < n && #[trigger] dist@[i] != usize::MAX implies (exists|q: int|
                head as int <= q < queue@.len() && queue@[q] == i) || (forall|j: int|
                #[trigger] adj6(g@, i, j) && contains_idx(comp, j) ==> dist@[j] != usize::MAX
                    && dist@[j] <= dist@[i] + 1) by {
            if i == nb {
                assert(queue@[q0.len() as int] == nb);
            } else {
                assert(dist0[i] != usize::MAX);
                if exists|q: int| head as int <= q < q0.len() && q0[q] == i {
                    let q = choose|q: int| head as int <= q < q0.len() && q0[q] == i;
                    assert(queue@[q] == i);
                } else {
                    assert forall|j: int|
                        #[trigger] adj6(g@, i, j) && contains_idx(comp, j) implies dist@[j]
                            != usize::MAX && dist@[j] <= dist@[i] + 1 by {
                        assert(dist0[j] != usize::MAX && dist0[j] <= dist0[i] + 1);
                        assert(dist@[j] <= dist0[j]);
                    }
                }
            }
        }
        assert forall|q: int|
            0 <= q < queue@.len() implies (#[trigger] queue@[q]) < n && dist@[queue@[q] as int]
                != usize::MAX by {
            if q < q0.len() {
                assert(queue@[q] == q0[q]);
                if q0[q] == nb {
                } else {
                    assert(dist@[q0[q] as int] == dist0[q0[q] as int]);
                }
            } else {
                assert(queue@[q] == nb);
            }
        }
    }
    true
}


/// After the six neighbor positions of `m` have been relaxed, every
/// member 6-neighbor of `m` is reached and no further than `d + 1`.
#[verifier::spinoff_prover]
proof fn lemma_expand_stable(
    g: GridModel,
    comp: Seq<usize>,
    dist: Seq<usize>,
    m: int,
    d: usize,
    x: int,
    y: int,
    z: int,
)
    requires
        g.wf(),
        dist.len() == g.cells.len(),
        0 <= m < g.cells.len(),
        x == g.pos_x(m),
        y == g.pos_y(m),
        z == g.pos_z(m),
        x + 1 < g.width ==> relaxed_at(comp, dist, g.idx(x + 1, y, z), d),
        x > 0 ==> relaxed_at(comp, dist, g.idx(x - 1, y, z), d),
        y + 1 < g.height ==> relaxed_at(comp, dist, g.idx(x, y + 1, z), d),
        y > 0 ==> relaxed_at(comp, dist, g.idx(x, y - 1, z), d),
        z + 1 < g.depth ==> relaxed_at(comp, dist, g.idx(x, y, z + 1), d),
        z > 0 ==> relaxed_at(comp, dist, g.idx(x, y, z - 1), d),
    ensures
        forall|b: int|
            #[trigger] adj6(g, m, b) && contains_idx(comp, b) ==> dist[b] != usize::MAX && dist[b]
                <= d + 1,
{
    lemma_pos_of_index(g, m);
    assert forall|b: int| #[trigger] adj6(g, m, b) && contains_idx(comp, b) implies dist[b]
        != usize::MAX && dist[b] <= d + 1 by {
        lemma_pos_of_index(g, b);
        let bx = g.pos_x(b);
        let by = g.pos_y(b);
        let bz = g.pos_z(b);
        assert(absd(x, bx) + absd(y, by) + absd(z, bz) == 1);
        if bx == x + 1 && by == y && bz == z {
            assert(b == g.idx(x + 1, y, z));
        } else if bx == x - 1 && by == y && bz == z {
            assert(b == g.idx(x - 1, y, z));
        } else if bx == x && by == y + 1 && bz == z {
            assert(b == g.idx(x, y + 1, z));
        } else if bx == x && by == y - 1 && bz == z {
            assert(b == g.idx(x, y - 1, z));
        } else if bx == x && by == y && bz == z + 1 {
            assert(b == g.idx(x, y, z + 1));
        } else {
            assert(bx == x && by == y && bz == z - 1);
            assert(b == g.idx(x, y, z - 1));
        }
    }
}

/// Once the expanded cell is locally stable, the worklist head can move
/// past it.
#[verifier::spinoff_prover]
proof fn lemma_advance_head(
    g: GridModel,
    comp: Seq<usize>,
    dist: Seq<usize>,
    queue: Seq<usize>,
    head: int,
    sc: int,
    m: int,
)
    requires
        relax_inv(g, comp, dist, queue, head, sc),
        head < queue.len(),
        queue[head] == m,
        0 <= m < dist.len(),
        dist[m] != usize::MAX,
        forall|b: int|
            #[trigger] adj6(g, m, b) && contains_idx(comp, b) ==> dist[b] != usize::MAX && dist[b]
                <= dist[m] + 1,
    ensures
        relax_inv(g, comp, dist, queue, head + 1, sc),
{
    reveal(relax_inv);
    assert forall|i: int|
        0 <= i < dist.len() && #[trigger] dist[i] != usize::MAX implies (exists|q: int|
            head + 1 <= q < queue.len() && queue[q] == i) || (forall|j: int|
            #[trigger] adj6(g, i, j) && contains_idx(comp, j) ==> dist[j] != usize::MAX && dist[j]
                <= dist[i] + 1) by {
        if i == m {
        } else {
            if exists|q: int| head <= q < queue.len() && queue[q] == i {
                let q = choose|q: int| head <= q < queue.len() && queue[q] == i;
                if q == head {
                    assert(queue[q] == m);
                    assert(false);
                }
            }
        }
    }
}

/// The worklist entry at `head` is an in-range cell that has been reached.
proof fn lemma_queue_entry(
    g: GridModel,
    comp: Seq<usize>,
    dist: Seq<usize>,
    queue: Seq<usize>,
    head: int,
    sc: int,
)
    requires
        relax_inv(g, comp, dist, queue, head, sc),
        0 <= head < queue.len(),
    ensures
        queue[head] < g.cells.len(),
        dist.len() == g.cells.len(),
        dist[queue[head] as int] != usize::MAX,
{
    reveal(relax_inv);
}

proof fn lemma_dist_sum_nonneg(s: Seq<usize>, k: int)
    requires
        0 <= k <= s.len(),
    ensures
        dist_sum_to(s, k) >= 0,
    decreases k,
{
    if k > 0 {
        lemma_dist_sum_nonneg(s, k - 1);
    }
}

/// True when `(x, y, z)` is an in-bounds solid cell.
fn solid_probe(g: &CAContext, x: i64, y: i64, z: i64) -> (r: bool)
    requires
        g@.wf(),
    ensures
        r == (g@.in_bounds(x as int, y as int, z as int) && !g@.alive(
            g@.idx(x as int, y as int, z as int),
        )),
{
    if 0 <= x && x < g.width() as i64 && 0 <= y && y < g.height() as i64 && 0 <= z && z
        < g.depth() as i64 {
        !g.get(x as usize, y as usize, z as usize).is_alive()
    } else {
        false
    }
}

/// Multi-source breadth-first distance transform over the members of one
/// component: surface members ("seeds") start at distance 1, and a
/// neighbor's distance is improved to one more than the cell being
/// expanded whenever that is strictly smaller. `usize::MAX` marks cells
/// never reached (non-members, and members of a component with no surface).
#[verifier::rlimit(100)]
#[verifier::spinoff_prover]
pub fn tunnel_distances(g: &CAContext, comp: &Vec<usize>) -> (dist: Vec<usize>)
    requires
        g@.wf(),
        g@.cells.len() < usize::MAX,
        comp_members_ok(g@, comp@),
    ensures
        dist@.len() == g@.cells.len(),
        forall|i: int|
            0 <= i < dist@.len() && #[trigger] dist@[i] != usize::MAX ==> contains_idx(comp@, i)
                && 1 <= dist@[i],
        forall|i: int| is_tunnel_seed(g@, comp@, i) ==> #[trigger] dist@[i] == 1,
        forall|i: int|
            0 <= i < dist@.len() && #[trigger] dist@[i] != usize::MAX && !is_tunnel_seed(
                g@,
                comp@,
                i,
            ) ==> dist@[i] >= 2 && (exists|j: int|
                adj6(g@, i, j) && contains_idx(comp@, j) && #[trigger] dist@[j] != usize::MAX
                    && dist@[j] <= dist@[i] - 1),
        forall|i: int, j: int|
            0 <= i < dist@.len() && dist@[i] != usize::MAX && #[trigger] adj6(g@, i, j)
                && contains_idx(comp@, j) ==> dist@[j] != usize::MAX && dist@[j] <= dist@[i] + 1,
{
    let ghost gm = g@;
    let ghost cseq = comp@;
    let n = g.cell_count();
    let w = g.width();
    let h = g.height();
    let d_ = g.depth();

    // membership marker, one flag per cell
    let mut in_comp: Vec<bool> = Vec::new();
    let mut k: usize = 0;
    while k < n
        invariant
            k <= n,
            in_comp@.len() == k,
            forall|i: int| 0 <= i < k ==> !in_comp@[i],
        decreases n - k,
    {
        in_comp.push(false);
        k = k + 1;
    }
    let nm = comp.len();
    let mut j: usize = 0;
    while j < nm
        invariant
            gm.wf(),
            n == gm.cells.len(),
            comp_members_ok(gm, cseq),
            cseq == comp@,
            nm == cseq.len(),
            j <= nm,
            in_comp@.len() == n,
            forall|i: int|
                0 <= i < n ==> (#[trigger] in_comp@[i] <==> (exists|j2: int|
                    0 <= j2 < j && cseq[j2] == i)),
        decreases nm - j,
    {
        let m = comp[j];
        in_comp.set(m, true);
        j = j + 1;
    }
    proof {
        assert forall|i: int|
            0 <= i < n implies (#[trigger] in_comp@[i] <==> contains_idx(cseq, i)) by {}
    }

    // all distances start unreached
    let mut dist: Vec<usize> = Vec::new();
    let mut k2: usize = 0;
    while k2 < n
        invariant
            k2 <= n,
            dist@.len() == k2,
            forall|i: int| 0 <= i < k2 ==> dist@[i] == usize::MAX,
        decreases n - k2,
    {
        dist.push(usize::MAX);
        k2 = k2 + 1;
    }
    let mut queue: Vec<usize> = Vec::new();
    let mut set_count: usize = 0;
    proof {
        lemma_fin_count_zero(dist@, n as int);
    }

    // seed pass: surface members get distance 1
    let mut j2: usize = 0;
    while j2 < nm
        invariant
            gm.wf(),
            gm == g@,
            n == gm.cells.len(),
            n < usize::MAX,
            w == gm.width,
            h == gm.height,
            d_ == gm.depth,
            comp_members_ok(gm, cseq),
            cseq == comp@,
            nm == cseq.len(),
            j2 <= nm,
            dist@.len() == n,
            forall|i: int|
                0 <= i < n && #[trigger] dist@[i] != usize::MAX ==> is_tunnel_seed(gm, cseq, i)
                    && dist@[i] == 1 && 1 <= set_count,
            forall|j3: int|
                0 <= j3 < j2 && is_tunnel_seed(gm, cseq, #[trigger] cseq[j3] as int) ==> dist@[cseq[j3] as int] == 1,
            forall|i: int|
                0 <= i < n && #[trigger] dist@[i] != usize::MAX ==> (exists|q: int|
                    0 <= q < queue@.len() && queue@[q] == i),
            forall|q: int|
                0 <= q < queue@.len() ==> (#[trigger] queue@[q]) < n && dist@[queue@[q] as int]
                    != usize::MAX,
            set_count == fin_count_to(dist@, n as int),
        decreases nm - j2,
    {
        let m = comp[j2];
        let (x, y, z) = g.pos(m);
        let boundary = x == 0 || x == w - 1 || y == 0 || y == h - 1 || z == 0 || z == d_ - 1;
        let xi = x as i64;
        let yi = y as i64;
        let zi = z as i64;
        let solid = solid_probe(g, xi + 1, yi, zi) || solid_probe(g, xi - 1, yi, zi)
            || solid_probe(g, xi, yi + 1, zi) || solid_probe(g, xi, yi - 1, zi) || solid_probe(
            g,
            xi,
            yi,
            zi + 1,
        ) || solid_probe(g, xi, yi, zi - 1);
        proof {
            assert(contains_idx(cseq, m as int)) by {
                assert(cseq[j2 as int] == m);
            }
            assert((boundary || solid) == is_tunnel_seed(gm, cseq, m as int));
        }
        if (boundary || solid) && dist[m] == usize::MAX {
            let ghost dist0 = dist@;
            let ghost qold = queue@;
            proof {
                lemma_fin_count_missing(dist0, m as int, n as int);
            }
            dist.set(m, 1);
            queue.push(m);
            set_count = set_count + 1;
            proof {
                lemma_fin_count_update(dist0, m as int, 1, n as int);
                assert(queue@[qold.len() as int] == m);
                assert forall|i: int|
                    0 <= i < n && #[trigger] dist@[i] != usize::MAX implies (exists|q: int|
                        0 <= q < queue@.len() && queue@[q] == i) by {
                    if i != m {
                        assert(dist0[i] != usize::MAX);
                        let q = choose|q: int| 0 <= q < qold.len() && qold[q] == i;
                        assert(queue@[q] == i);
                    }
                }
            }
        }
        j2 = j2 + 1;
    }
    proof {
        assert forall|i: int| is_tunnel_seed(gm, cseq, i) implies #[trigger] dist@[i] == 1 by {
            let j3 = choose|j3: int| 0 <= j3 < cseq.len() && cseq[j3] == i;
        }
        assert(relax_inv(gm, cseq, dist@, queue@, 0, set_count as int)) by {
            reveal(relax_inv);
        }
    }

    // relaxation pass
    let mut head: usize = 0;
    while head < queue.len()
        invariant
            gm.wf(),
            gm == g@,
            n == gm.cells.len(),
            n < usize::MAX,
            comp_members_ok(gm, cseq),
            cseq == comp@,
            in_comp@.len() == n,
            forall|i: int| 0 <= i < n ==> (#[trigger] in_comp@[i] <==> contains_idx(cseq, i)),
            dist@.len() == n,
            head <= queue@.len(),
            relax_inv(gm, cseq, dist@, queue@, head as int, set_count as int),
        decreases dist_sum_to(dist@, dist@.len() as int), queue@.len() - head,
    {
        let ghost dist_s = dist@;
        let ghost queue_s = queue@;
        proof {
            lemma_dist_sum_nonneg(dist@, dist@.len() as int);
        }
        expand_cell(g, &in_comp, Ghost(cseq), &mut dist, &mut queue, head, &mut set_count);
        proof {
            lemma_dist_sum_nonneg(dist@, dist@.len() as int);
        }
        head = head + 1;
    }
    proof {
        reveal(relax_inv);
        assert forall|i: int, j3: int|
            0 <= i < dist@.len() && dist@[i] != usize::MAX && #[trigger] adj6(gm, i, j3)
                && contains_idx(cseq, j3) implies dist@[j3] != usize::MAX && dist@[j3] <= dist@[i]
                + 1 by {
            assert(!(exists|q: int| head as int <= q < queue@.len() && queue@[q] == i));
        }
    }
    dist
}


/// Expand the worklist entry at `head`: relax all six neighbor positions
/// of that cell, after which it is locally stable and the head can move
/// past it. The distance field never grows, and the worklist grows exactly
/// when some distance shrank.
#[verifier::rlimit(100)]
#[verifier::spinoff_prover]
fn expand_cell(
    g: &CAContext,
    in_comp: &Vec<bool>,
    ghost_comp: Ghost<Seq<usize>>,
    dist: &mut Vec<usize>,
    queue: &mut Vec<usize>,
    head: usize,
    set_count: &mut usize,
)
    requires
        g@.wf(),
        g@.cells.len() < usize::MAX,
        in_comp@.len() == g@.cells.len(),
        forall|i: int| 0 <= i < in_comp@.len() ==> (in_comp@[i] <==> contains_idx(ghost_comp@, i)),
        relax_inv(g@, ghost_comp@, old(dist)@, old(queue)@, head as int, *old(set_count) as int),
        head < old(queue)@.len(),
    ensures
        final(dist)@.len() == old(dist)@.len(),
        final(queue)@.len() >= old(queue)@.len(),
        relax_inv(
            g@,
            ghost_comp@,
            final(dist)@,
            final(queue)@,
            head as int + 1,
            *final(set_count) as int,
        ),
        dist_sum_to(final(dist)@, final(dist)@.len() as int) <= dist_sum_to(
            old(dist)@,
            old(dist)@.len() as int,
        ),
        final(queue)@.len() > old(queue)@.len() ==> dist_sum_to(
            final(dist)@,
            final(dist)@.len() as int,
        ) < dist_sum_to(old(dist)@, old(dist)@.len() as int),
        final(queue)@.len() == old(queue)@.len() ==> final(dist)@ == old(dist)@ && final(queue)@
            == old(queue)@,
{
    let ghost gm = g@;
    let ghost cseq = ghost_comp@;
    let ghost dist_s = dist@;
    let ghost queue_s = queue@;
    proof {
        lemma_queue_entry(gm, cseq, dist@, queue@, head as int, *set_count as int);
    }
    let w = g.width();
    let h = g.height();
    let d_ = g.depth();
    let m = queue[head];
    let d = dist[m];
    let (x, y, z) = g.pos(m);
    let ghost mi = m as int;
    let mut changed = false;

        if x + 1 < w {
            let nb = g.idx(x + 1, y, z);
            proof {
                lemma_index_of_pos(gm, x + 1, y as int, z as int);
                assert(adj6(gm, mi, nb as int));
            }
            let c1 = relax_candidate(g, in_comp, Ghost(cseq), dist, queue, head, set_count, m, d, nb);
            changed = changed || c1;
        }
        proof {
            assert(x + 1 < gm.width ==> relaxed_at(cseq, dist@, gm.idx(x + 1, y as int, z as int), d));
        }
        if x > 0 {
            let nb = g.idx(x - 1, y, z);
            proof {
                lemma_index_of_pos(gm, x - 1, y as int, z as int);
                assert(adj6(gm, mi, nb as int));
            }
            let c2 = relax_candidate(g, in_comp, Ghost(cseq), dist, queue, head, set_count, m, d, nb);
            changed = changed || c2;
        }
        proof {
            assert(x > 0 ==> relaxed_at(cseq, dist@, gm.idx(x - 1, y as int, z as int), d));
        }
        if y + 1 < h {
            let nb = g.idx(x, y + 1, z);
            proof {
                lemma_index_of_pos(gm, x as int, y + 1, z as int);
                assert(adj6(gm, mi, nb as int));
            }
            let c3 = relax_candidate(g, in_comp, Ghost(cseq), dist, queue, head, set_count, m, d, nb);
            changed = changed || c3;
        }
        proof {
            assert(y + 1 < gm.height ==> relaxed_at(cseq, dist@, gm.idx(x as int, y + 1, z as int), d));
        }
        if y > 0 {
            let nb = g.idx(x, y - 1, z);
            proof {
                lemma_index_of_pos(gm, x as int, y - 1, z as int);
                assert(adj6(gm, mi, nb as int));
            }
            let c4 = relax_candidate(g, in_comp, Ghost(cseq), dist, queue, head, set_count, m, d, nb);
            changed = changed || c4;
        }
        proof {
            assert(y > 0 ==> relaxed_at(cseq, dist@, gm.idx(x as int, y - 1, z as int), d));
        }
        if z + 1 < d_ {
            let nb = g.idx(x, y, z + 1);
            proof {
                lemma_index_of_pos(gm, x as int, y as int, z + 1);
                assert(adj6(gm, mi, nb as int));
            }
            let c5 = relax_candidate(g, in_comp, Ghost(cseq), dist, queue, head, set_count, m, d, nb);
            changed = changed || c5;
        }
        proof {
            assert(z + 1 < gm.depth ==> relaxed_at(cseq, dist@, gm.idx(x as int, y as int, z + 1), d));
        }
        if z > 0 {
            let nb = g.idx(x, y, z - 1);
            proof {
                lemma_index_of_pos(gm, x as int, y as int, z - 1);
                assert(adj6(gm, mi, nb as int));
            }
            let c6 = relax_candidate(g, in_comp, Ghost(cseq), dist, queue, head, set_count, m, d, nb);
            changed = changed || c6;
        }
        proof {
            assert(z > 0 ==> relaxed_at(cseq, dist@, gm.idx(x as int, y as int, z - 1), d));
        }

    proof {
        assert(dist@[mi] == d);
        lemma_expand_stable(gm, cseq, dist@, mi, d, x as int, y as int, z as int);
        lemma_advance_head(gm, cseq, dist@, queue@, head as int, *set_count as int, mi);
        if !changed {
            assert(dist@ == dist_s && queue@ == queue_s);
        }
        assert(changed ==> queue@.len() > queue_s.len());
    }
}

/// Count, sum and sum of squares of the reached (not `usize::MAX`) entries
/// of a distance field; mean and population standard deviation follow from
/// these, 0 for an empty set. The bounds keep the sums inside `u128`.
pub fn distance_stats(dist: &Vec<usize>) -> (r: (usize, u128, u128))
    requires
        dist@.len() <= 0xffff_ffff,
        forall|i: int|
            0 <= i < dist@.len() && #[trigger] dist@[i] != usize::MAX ==> dist@[i] <= 0xffff_ffff,
    ensures
        r.0 == fin_count_to(dist@, dist@.len() as int),
        r.1 == fin_sum_to(dist@, dist@.len() as int),
        r.2 == fin_sqsum_to(dist@, dist@.len() as int),
{
    let n = dist.len();
    let mut count: usize = 0;
    let mut sum: u128 = 0;
    let mut sqsum: u128 = 0;
    let mut i: usize = 0;
    while i < n
        invariant
            n == dist@.len(),
            n <= 0xffff_ffff,
            forall|i2: int|
                0 <= i2 < n && #[trigger] dist@[i2] != usize::MAX ==> dist@[i2] <= 0xffff_ffff,
            i <= n,
            count <= i,
            sum <= (i as int) * 0xffff_ffff,
            sqsum <= (i as int) * 0xffff_ffff * 0xffff_ffff,
            count == fin_count_to(dist@, i as int),
            sum == fin_sum_to(dist@, i as int),
            sqsum == fin_sqsum_to(dist@, i as int),
        decreases n - i,
    {
        let v = dist[i];
        if v != usize::MAX {
            count = count + 1;
            proof {
                assert((v as int) * (v as int) <= 0xffff_ffff * 0xffff_ffff) by (nonlinear_arith)
                    requires 0 <= v <= 0xffff_ffff;
                assert((i as int) * 0xffff_ffff + 0xffff_ffff == (i + 1) as int * 0xffff_ffff)
                    by (nonlinear_arith);
                assert((i as int) * 0xffff_ffff * 0xffff_ffff + 0xffff_ffff * 0xffff_ffff == (i
                    + 1) as int * 0xffff_ffff * 0xffff_ffff) by (nonlinear_arith);
                assert((i as int) * 0xffff_ffff * 0xffff_ffff <= 0xffff_ffff * 0xffff_ffff
                    * 0xffff_ffff) by (nonlinear_arith)
                    requires 0 <= i as int <= 0xffff_ffff;
            }
            sum = sum + v as u128;
            sqsum = sqsum + (v as u128) * (v as u128);
        } else {
            proof {
                assert((i as int) * 0xffff_ffff <= ((i + 1) as int) * 0xffff_ffff)
                    by (nonlinear_arith);
                assert((i as int) * 0xffff_ffff * 0xffff_ffff <= ((i + 1) as int) * 0xffff_ffff
                    * 0xffff_ffff) by (nonlinear_arith);
            }
        }
        i = i + 1;
    }
    (count, sum, sqsum)
}

proof fn lemma_fin_count_zero(s: Seq<usize>, k: int)
    requires
        0 <= k <= s.len(),
        forall|i: int| 0 <= i < k ==> s[i] == usize::MAX,
    ensures
        fin_count_to(s, k) == 0,
    decreases k,
{
    if k > 0 {
        lemma_fin_count_zero(s, k - 1);
    }
}

} // verus!
