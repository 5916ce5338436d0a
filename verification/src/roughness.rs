//! Surface roughness: per-surface-voxel counts of alive Moore neighbors.
//!
//! A surface voxel is a solid cell with at least one of its 26 Moore
//! neighbors alive or out of bounds. Its roughness is `1 - a/26` where `a`
//! is its number of alive in-bounds Moore neighbors; this module reports the
//! integer aggregates (voxel count, sum of `a`, sum of `a` squared) from
//! which callers derive mean and population standard deviation.

use vstd::prelude::*;
use crate::grid::{CAContext, GridModel, lemma_index_of_pos, lemma_pos_of_index};

verus! {

/// 1 when the Moore neighbor of `i` at offset `(dx, dy, dz)` is in bounds
/// and alive, else 0.
pub open spec fn moore_bit(g: GridModel, i: int, dx: int, dy: int, dz: int) -> int {
    let nx = g.pos_x(i) + dx;
    let ny = g.pos_y(i) + dy;
    let nz = g.pos_z(i) + dz;
    if g.in_bounds(nx, ny, nz) && g.alive(g.idx(nx, ny, nz)) {
        1
    } else {
        0
    }
}

/// Number of alive cells among the 26 Moore neighbors of `i`.
pub open spec fn alive26(g: GridModel, i: int) -> int {
    moore_bit(g, i, -1, -1, -1) + moore_bit(g, i, -1, -1, 0) + moore_bit(g, i, -1, -1, 1)
        + moore_bit(g, i, -1, 0, -1) + moore_bit(g, i, -1, 0, 0) + moore_bit(g, i, -1, 0, 1)
        + moore_bit(g, i, -1, 1, -1) + moore_bit(g, i, -1, 1, 0) + moore_bit(g, i, -1, 1, 1)
        + moore_bit(g, i, 0, -1, -1) + moore_bit(g, i, 0, -1, 0) + moore_bit(g, i, 0, -1, 1)
        + moore_bit(g, i, 0, 0, -1) + moore_bit(g, i, 0, 0, 1) + moore_bit(g, i, 0, 1, -1)
        + moore_bit(g, i, 0, 1, 0) + moore_bit(g, i, 0, 1, 1) + moore_bit(g, i, 1, -1, -1)
        + moore_bit(g, i, 1, -1, 0) + moore_bit(g, i, 1, -1, 1) + moore_bit(g, i, 1, 0, -1)
        + moore_bit(g, i, 1, 0, 0) + moore_bit(g, i, 1, 0, 1) + moore_bit(g, i, 1, 1, -1)
        + moore_bit(g, i, 1, 1, 0) + moore_bit(g, i, 1, 1, 1)
}

/// Cell `i` lies on an outer face of the grid, so at least one of its Moore
/// neighbor positions is out of bounds.
pub open spec fn on_boundary(g: GridModel, i: int) -> bool {
    ||| g.pos_x(i) == 0
    ||| g.pos_x(i) == g.width - 1
    ||| g.pos_y(i) == 0
    ||| g.pos_y(i) == g.height - 1
    ||| g.pos_z(i) == 0
    ||| g.pos_z(i) == g.depth - 1
}

/// A surface voxel: a solid cell with an alive or out-of-bounds Moore
/// neighbor. An out-of-bounds neighbor position exists exactly for boundary
/// cells, so interior solid cells qualify only through an alive neighbor.
pub open spec fn is_surface(g: GridModel, i: int) -> bool {
    &&& !g.alive(i)
    &&& (on_boundary(g, i) || alive26(g, i) > 0)
}

/// Number of surface voxels among the first `k` cells.
pub open spec fn surface_count_to(g: GridModel, k: int) -> int
    decreases k,
{
    if k <= 0 {
        0
    } else {
        surface_count_to(g, k - 1) + if is_surface(g, k - 1) {
            1int
        } else {
            0int
        }
    }
}

/// Sum of `alive26` over the surface voxels among the first `k` cells.
pub open spec fn surface_alive_sum_to(g: GridModel, k: int) -> int
    decreases k,
{
    if k <= 0 {
        0
    } else {
        surface_alive_sum_to(g, k - 1) + if is_surface(g, k - 1) {
            alive26(g, k - 1)
        } else {
            0
        }
    }
}

/// Sum of `alive26` squared over the surface voxels among the first `k`
/// cells.
pub open spec fn surface_alive_sqsum_to(g: GridModel, k: int) -> int
    decreases k,
{
    if k <= 0 {
        0
    } else {
        surface_alive_sqsum_to(g, k - 1) + if is_surface(g, k - 1) {
            alive26(g, k - 1) * alive26(g, k - 1)
        } else {
            0
        }
    }
}

/// Integer aggregates of the roughness survey. With `n = surface_count`,
/// `s = alive_sum` and `q = alive_sq_sum`, the mean roughness is
/// `1 - s/(26*n)` and the population variance is `(q/n - (s/n)^2) / 26^2`,
/// both 0 when `n == 0`.
pub struct RoughnessStats {
    pub surface_count: usize,
    pub alive_sum: u128,
    pub alive_sq_sum: u128,
}

/// 1 when `(x, y, z)` is an in-bounds alive cell, else 0.
fn probe(g: &CAContext, x: i64, y: i64, z: i64) -> (r: usize)
    requires
        g@.wf(),
    ensures
        r == (if g@.in_bounds(x as int, y as int, z as int) && g@.alive(
            g@.idx(x as int, y as int, z as int),
        ) {
            1int
        } else {
            0int
        }),
        0 <= r <= 1,
{
    if 0 <= x && x < g.width() as i64 && 0 <= y && y < g.height() as i64 && 0 <= z && z
        < g.depth() as i64 {
        if g.get(x as usize, y as usize, z as usize).is_alive() {
            1
        } else {
            0
        }
    } else {
        0
    }
}

/// Number of alive cells among the 26 Moore neighbors of the cell at
/// `(x, y, z)`.
#[verifier::rlimit(100)]
fn moore_alive(g: &CAContext, x: usize, y: usize, z: usize, i: usize) -> (r: usize)
    requires
        g@.wf(),
        i < g@.cells.len(),
        x == g@.pos_x(i as int),
        y == g@.pos_y(i as int),
        z == g@.pos_z(i as int),
    ensures
        r == alive26(g@, i as int),
        r <= 26,
{
    proof {
        lemma_pos_of_index(g@, i as int);
    }
    let xi = x as i64;
    let yi = y as i64;
    let zi = z as i64;
    let r = probe(g, xi - 1, yi - 1, zi - 1) + probe(g, xi - 1, yi - 1, zi) + probe(
        g,
        xi - 1,
        yi - 1,
        zi + 1,
    ) + probe(g, xi - 1, yi, zi - 1) + probe(g, xi - 1, yi, zi) + probe(g, xi - 1, yi, zi + 1)
        + probe(g, xi - 1, yi + 1, zi - 1) + probe(g, xi - 1, yi + 1, zi) + probe(
        g,
        xi - 1,
        yi + 1,
        zi + 1,
    ) + probe(g, xi, yi - 1, zi - 1) + probe(g, xi, yi - 1, zi) + probe(g, xi, yi - 1, zi + 1)
        + probe(g, xi, yi, zi - 1) + probe(g, xi, yi, zi + 1) + probe(g, xi, yi + 1, zi - 1)
        + probe(g, xi, yi + 1, zi) + probe(g, xi, yi + 1, zi + 1) + probe(g, xi + 1, yi - 1, zi - 1)
        + probe(g, xi + 1, yi - 1, zi) + probe(g, xi + 1, yi - 1, zi + 1) + probe(
        g,
        xi + 1,
        yi,
        zi - 1,
    ) + probe(g, xi + 1, yi, zi) + probe(g, xi + 1, yi, zi + 1) + probe(g, xi + 1, yi + 1, zi - 1)
        + probe(g, xi + 1, yi + 1, zi) + probe(g, xi + 1, yi + 1, zi + 1);
    r
}

/// Scan the whole grid for surface voxels and report how many there are,
/// the sum of their alive-Moore-neighbor counts, and the sum of the squares
/// of those counts.
pub fn roughness_stats(g: &CAContext) -> (r: RoughnessStats)
    requires
        g@.wf(),
    ensures
        r.surface_count == surface_count_to(g@, g@.cells.len() as int),
        r.alive_sum == surface_alive_sum_to(g@, g@.cells.len() as int),
        r.alive_sq_sum == surface_alive_sqsum_to(g@, g@.cells.len() as int),
{
    let n = g.cell_count();
    let w = g.width();
    let h = g.height();
    let d = g.depth();
    let mut count: usize = 0;
    let mut sum: u128 = 0;
    let mut sqsum: u128 = 0;
    let mut i: usize = 0;
    while i < n
        invariant
            g@.wf(),
            n == g@.cells.len(),
            w == g@.width,
            h == g@.height,
            d == g@.depth,
            i <= n,
            count <= i,
            sum <= 26 * (i as int),
            sqsum <= 676 * (i as int),
            count == surface_count_to(g@, i as int),
            sum == surface_alive_sum_to(g@, i as int),
            sqsum == surface_alive_sqsum_to(g@, i as int),
        decreases n - i,
    {
        let (x, y, z) = g.pos(i);
        if !g.cell_at(i).is_alive() {
            let a = moore_alive(g, x, y, z, i);
            let boundary = x == 0 || x == w - 1 || y == 0 || y == h - 1 || z == 0 || z == d - 1;
            proof {
                assert(a * a <= 676) by (nonlinear_arith)
                    requires 0 <= a <= 26;
            }
            if boundary || a > 0 {
                count = count + 1;
                sum = sum + a as u128;
                sqsum = sqsum + (a * a) as u128;
            }
        }
        i = i + 1;
    }
    RoughnessStats { surface_count: count, alive_sum: sum, alive_sq_sum: sqsum }
}

} // verus!
