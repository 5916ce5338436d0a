//! The dense 3-D cell grid and its coordinate/index mapping.

use vstd::prelude::*;
use vstd::arithmetic::div_mod::{
    lemma_fundamental_div_mod, lemma_fundamental_div_mod_converse, lemma_mod_bound,
    lemma_div_denominator,
};
use vstd::arithmetic::mul::lemma_mul_inequality;
use crate::cell::CACell;
use crate::neighborhood::CANeighborhood;
use crate::rng::{xoshiro_draw, xoshiro_draws};

verus! {

/// Mathematical model of a grid: three positive dimensions and a dense
/// sequence of cells in `x + width * (y + height * z)` order.
#[verifier::ext_equal]
pub struct GridModel {
    pub width: int,
    pub height: int,
    pub depth: int,
    pub cells: Seq<CACell>,
}

impl GridModel {
    /// Dimensions are positive, small enough for 32-bit offset arithmetic,
    /// and the cell sequence has exactly one cell per coordinate.
    pub open spec fn wf(self) -> bool {
        &&& 1 <= self.width <= 0x7fff_ffff
        &&& 1 <= self.height <= 0x7fff_ffff
        &&& 1 <= self.depth <= 0x7fff_ffff
        &&& self.cells.len() == self.width * self.height * self.depth
    }

    pub open spec fn in_bounds(self, x: int, y: int, z: int) -> bool {
        &&& 0 <= x < self.width
        &&& 0 <= y < self.height
        &&& 0 <= z < self.depth
    }

    /// Flat index of an in-bounds coordinate.
    pub open spec fn idx(self, x: int, y: int, z: int) -> int {
        x + self.width * (y + self.height * z)
    }

    pub open spec fn pos_x(self, i: int) -> int {
        i % self.width
    }

    pub open spec fn pos_y(self, i: int) -> int {
        (i / self.width) % self.height
    }

    pub open spec fn pos_z(self, i: int) -> int {
        i / (self.width * self.height)
    }

    pub open spec fn alive(self, i: int) -> bool {
        self.cells[i].spec_alive()
    }
}

/// A flat index decomposes into in-bounds coordinates that map back to it.
pub proof fn lemma_pos_of_index(g: GridModel, i: int)
    requires
        g.wf(),
        0 <= i < g.cells.len(),
    ensures
        g.in_bounds(g.pos_x(i), g.pos_y(i), g.pos_z(i)),
        g.idx(g.pos_x(i), g.pos_y(i), g.pos_z(i)) == i,
{
    let w = g.width;
    let h = g.height;
    let d = g.depth;
    let wh = w * h;
    assert(wh * d == w * h * d) by (nonlinear_arith)
        requires wh == w * h;
    assert(0 < wh) by (nonlinear_arith)
        requires 0 < w && 0 < h && wh == w * h;
    lemma_fundamental_div_mod(i, w);
    lemma_mod_bound(i, w);
    lemma_fundamental_div_mod(i / w, h);
    lemma_mod_bound(i / w, h);
    lemma_div_denominator(i, w, h);
    // z bound: if i / wh >= d then i >= wh * d, contradicting i < wh * d.
    lemma_fundamental_div_mod(i, wh);
    lemma_mod_bound(i, wh);
    if i / wh >= d {
        lemma_mul_inequality(d, i / wh, wh);
        assert(wh * d <= wh * (i / wh)) by (nonlinear_arith)
            requires d <= i / wh && 0 < wh;
        assert(false);
    }
    if i / wh < 0 {
        assert(false);
    }
    let x = i % w;
    let y = (i / w) % h;
    let z = (i / w) / h;
    assert(z == i / wh);
    // i == x + w * (i / w) and i / w == y + h * z, so:
    assert(x + w * (y + h * z) == x + w * (i / w)) by (nonlinear_arith)
        requires i / w == y + h * z;
    assert(x + w * (i / w) == i);
}

/// In-bounds coordinates map to a flat index inside the cell sequence, and
/// the index decomposes back to the same coordinates.
pub proof fn lemma_index_of_pos(g: GridModel, x: int, y: int, z: int)
    requires
        g.wf(),
        g.in_bounds(x, y, z),
    ensures
        0 <= g.idx(x, y, z) < g.cells.len(),
        g.pos_x(g.idx(x, y, z)) == x,
        g.pos_y(g.idx(x, y, z)) == y,
        g.pos_z(g.idx(x, y, z)) == z,
{
    let w = g.width;
    let h = g.height;
    let d = g.depth;
    let i = g.idx(x, y, z);
    assert(0 <= i < w * h * d) by (nonlinear_arith)
        requires 0 <= x < w && 0 <= y < h && 0 <= z < d && i == x + w * (y + h * z);
    // i == w * (y + h * z) + x with 0 <= x < w pins i % w and i / w.
    assert(i == (y + h * z) * w + x) by (nonlinear_arith)
        requires i == x + w * (y + h * z);
    lemma_fundamental_div_mod_converse(i, w, y + h * z, x);
    // i / w == y + h * z == z * h + y with 0 <= y < h.
    assert(y + h * z == z * h + y) by (nonlinear_arith);
    lemma_fundamental_div_mod_converse(i / w, h, z, y);
    lemma_div_denominator(i, w, h);
}

/// A dense 3-D grid of cells, addressed by `x + width * (y + height * z)`.
/// Coordinates are hard-bounded: nothing wraps or clamps.
pub struct CAContext {
    width: usize,
    height: usize,
    depth: usize,
    cells: Vec<CACell>,
}

impl View for CAContext {
    type V = GridModel;

    closed spec fn view(&self) -> GridModel {
        GridModel {
            width: self.width as int,
            height: self.height as int,
            depth: self.depth as int,
            cells: self.cells@,
        }
    }
}

impl CAContext {
    /// An all-solid grid of the given shape. Degenerate (zero) dimensions are
    /// a precondition violation: callers validate before constructing.
    pub fn new(width: usize, height: usize, depth: usize) -> (r: Self)
        requires
            1 <= width <= 0x7fff_ffff,
            1 <= height <= 0x7fff_ffff,
            1 <= depth <= 0x7fff_ffff,
            width * height * depth <= usize::MAX,
        ensures
            r@.wf(),
            r@.width == width,
            r@.height == height,
            r@.depth == depth,
            forall|i: int| 0 <= i < r@.cells.len() ==> r@.cells[i] == CACell(0),
    {
        proof {
            assert(width * height <= width * height * depth) by (nonlinear_arith)
                requires 1 <= depth && 0 <= width * height;
            assert(0 <= width * height) by (nonlinear_arith);
        }
        let n: usize = width * height * depth;
        let mut cells: Vec<CACell> = Vec::new();
        let mut i: usize = 0;
        while i < n
            invariant
                i <= n,
                cells@.len() == i,
                forall|j: int| 0 <= j < i ==> cells@[j] == CACell(0),
            decreases n - i,
        {
            cells.push(CACell(0));
            i = i + 1;
        }
        CAContext { width, height, depth, cells }
    }

    /// Number of cells in the grid.
    pub fn cell_count(&self) -> (r: usize)
        ensures
            r == self@.cells.len(),
    {
        self.cells.len()
    }

    pub fn width(&self) -> (r: usize)
        ensures
            r == self@.width,
    {
        self.width
    }

    pub fn height(&self) -> (r: usize)
        ensures
            r == self@.height,
    {
        self.height
    }

    pub fn depth(&self) -> (r: usize)
        ensures
            r == self@.depth,
    {
        self.depth
    }

    /// Flat index of an in-bounds coordinate.
    pub fn idx(&self, x: usize, y: usize, z: usize) -> (r: usize)
        requires
            self@.wf(),
            self@.in_bounds(x as int, y as int, z as int),
        ensures
            r == self@.idx(x as int, y as int, z as int),
            r < self@.cells.len(),
    {
        let n = self.cells.len();
        proof {
            let w = self@.width;
            let h = self@.height;
            lemma_index_of_pos(self@, x as int, y as int, z as int);
            assert(0 <= h * z) by (nonlinear_arith)
                requires 0 <= h && 0 <= z;
            assert(y + h * z <= w * (y + h * z)) by (nonlinear_arith)
                requires 1 <= w && 0 <= y + h * z;
        }
        x + self.width * (y + self.height * z)
    }

    /// Coordinates of a flat index, inverse of `idx`.
    pub fn pos(&self, index: usize) -> (r: (usize, usize, usize))
        requires
            self@.wf(),
            index < self@.cells.len(),
        ensures
            r.0 == self@.pos_x(index as int),
            r.1 == self@.pos_y(index as int),
            r.2 == self@.pos_z(index as int),
            self@.in_bounds(r.0 as int, r.1 as int, r.2 as int),
            self@.idx(r.0 as int, r.1 as int, r.2 as int) == index,
    {
        let n = self.cells.len();
        proof {
            lemma_pos_of_index(self@, index as int);
            assert(self@.width * self@.height <= n) by (nonlinear_arith)
                requires
                    n == self@.width * self@.height * self@.depth,
                    1 <= self@.depth,
                    0 <= self@.width * self@.height;
            assert(0 <= self@.width * self@.height) by (nonlinear_arith)
                requires 1 <= self@.width && 1 <= self@.height;
            lemma_div_denominator(index as int, self@.width as int, self@.height as int);
        }
        let wh: usize = self.width * self.height;
        let z = index / wh;
        let y = (index / self.width) % self.height;
        let x = index % self.width;
        (x, y, z)
    }

    /// The cell at an in-bounds coordinate.
    pub fn get(&self, x: usize, y: usize, z: usize) -> (r: CACell)
        requires
            self@.wf(),
            self@.in_bounds(x as int, y as int, z as int),
        ensures
            r == self@.cells[self@.idx(x as int, y as int, z as int)],
    {
        let i = self.idx(x, y, z);
        self.cells[i]
    }

    /// Overwrite the cell at an in-bounds coordinate.
    pub fn set(&mut self, x: usize, y: usize, z: usize, value: CACell)
        requires
            old(self)@.wf(),
            old(self)@.in_bounds(x as int, y as int, z as int),
        ensures
            final(self)@ == (GridModel {
                cells: old(self)@.cells.update(
                    old(self)@.idx(x as int, y as int, z as int),
                    value,
                ),
                ..old(self)@
            }),
            final(self)@.wf(),
    {
        let i = self.idx(x, y, z);
        self.cells[i] = value;
    }

    /// The cell at a flat index.
    pub fn cell_at(&self, index: usize) -> (r: CACell)
        requires
            index < self@.cells.len(),
        ensures
            r == self@.cells[index as int],
    {
        self.cells[index]
    }

    /// Overwrite the cell at a flat index.
    pub fn set_cell(&mut self, index: usize, value: CACell)
        requires
            index < old(self)@.cells.len(),
        ensures
            final(self)@ == (GridModel { cells: old(self)@.cells.update(index as int, value), ..old(self)@ }),
    {
        self.cells[index] = value;
    }

    /// Read-only access to the whole cell buffer.
    pub fn cells(&self) -> (r: &[CACell])
        ensures
            r@ == self@.cells,
    {
        self.cells.as_slice()
    }

    /// Mutable access to the whole cell buffer: the caller may rewrite cell
    /// states in place, and the dimensions stay as they are.
    pub fn cells_mut(&mut self) -> (r: &mut Vec<CACell>)
        ensures
            (*r)@ == old(self)@.cells,
            final(self)@ == (GridModel { cells: (*final(r))@, ..old(self)@ }),
    {
        &mut self.cells
    }
}

/// Contribution of one offset to a neighbor count: the byte value of the
/// cell it lands on, or 0 when it lands outside the grid.
pub open spec fn nbr_contrib(g: GridModel, x: int, y: int, z: int, o: (i32, i32, i32)) -> int {
    let nx = x + o.0;
    let ny = y + o.1;
    let nz = z + o.2;
    if g.in_bounds(nx, ny, nz) {
        g.cells[g.idx(nx, ny, nz)].0 as int
    } else {
        0
    }
}

/// Sum of the contributions of offsets `k..` of `offs`.
pub open spec fn count_air_from(
    g: GridModel,
    x: int,
    y: int,
    z: int,
    offs: Seq<(i32, i32, i32)>,
    k: int,
) -> int
    decreases offs.len() - k,
{
    if k < 0 || k >= offs.len() {
        0
    } else {
        nbr_contrib(g, x, y, z, offs[k]) + count_air_from(g, x, y, z, offs, k + 1)
    }
}

/// Neighbor count of `(x, y, z)` under the offsets `offs`: in-bounds offsets
/// contribute the cell's byte value, out-of-bounds offsets contribute 0.
pub open spec fn spec_count_air(
    g: GridModel,
    x: int,
    y: int,
    z: int,
    offs: Seq<(i32, i32, i32)>,
) -> int {
    count_air_from(g, x, y, z, offs, 0)
}

pub proof fn lemma_count_air_bounds(
    g: GridModel,
    x: int,
    y: int,
    z: int,
    offs: Seq<(i32, i32, i32)>,
    k: int,
)
    requires
        0 <= k <= offs.len(),
    ensures
        0 <= count_air_from(g, x, y, z, offs, k) <= 255 * (offs.len() - k),
    decreases offs.len() - k,
{
    if k < offs.len() {
        lemma_count_air_bounds(g, x, y, z, offs, k + 1);
    }
}

/// Number of alive cells among the first `k` of `cells`.
pub open spec fn alive_count_to(cells: Seq<CACell>, k: int) -> int
    decreases k,
{
    if k <= 0 {
        0
    } else {
        alive_count_to(cells, k - 1) + if cells[k - 1].spec_alive() {
            1int
        } else {
            0int
        }
    }
}

/// Total number of alive cells of a grid.
pub open spec fn spec_alive_count(g: GridModel) -> int {
    alive_count_to(g.cells, g.cells.len() as int)
}

impl CAContext {
    /// Grid of the given shape whose cells are set alive exactly where the
    /// seeded pseudo-random draw falls below `alive_threshold`, so each cell
    /// is alive with probability `alive_threshold / 2^64`. The same seed and
    /// threshold always reproduce the same grid.
    pub fn random(
        width: usize,
        height: usize,
        depth: usize,
        seed: u64,
        alive_threshold: u64,
    ) -> (r: Self)
        requires
            1 <= width <= 0x7fff_ffff,
            1 <= height <= 0x7fff_ffff,
            1 <= depth <= 0x7fff_ffff,
            width * height * depth <= usize::MAX,
        ensures
            r@.wf(),
            r@.width == width,
            r@.height == height,
            r@.depth == depth,
            forall|i: int|
                0 <= i < r@.cells.len() ==> r@.cells[i] == (if xoshiro_draw(seed, i)
                    < alive_threshold {
                    CACell(1u8)
                } else {
                    CACell(0u8)
                }),
    {
        proof {
            assert(width * height <= width * height * depth) by (nonlinear_arith)
                requires 1 <= depth && 0 <= width * height;
            assert(0 <= width * height) by (nonlinear_arith);
        }
        let n: usize = width * height * depth;
        let draws = xoshiro_draws(seed, n);
        let mut cells: Vec<CACell> = Vec::new();
        let mut i: usize = 0;
        while i < n
            invariant
                i <= n,
                draws@.len() == n,
                forall|j: int| 0 <= j < n ==> draws@[j] == xoshiro_draw(seed, j),
                cells@.len() == i,
                forall|j: int|
                    0 <= j < i ==> cells@[j] == (if xoshiro_draw(seed, j) < alive_threshold {
                        CACell(1u8)
                    } else {
                        CACell(0u8)
                    }),
            decreases n - i,
        {
            let alive = draws[i] < alive_threshold;
            cells.push(CACell(if alive { 1 } else { 0 }));
            i = i + 1;
        }
        CAContext { width, height, depth, cells }
    }

    /// Neighbor count of `(x, y, z)` under the given neighborhood: sums the
    /// byte values of all offsets that land in bounds and ignores the rest.
    /// Nothing outside the grid is ever read.
    pub fn count_air_neighbors(
        &self,
        x: usize,
        y: usize,
        z: usize,
        nb: &CANeighborhood,
    ) -> (r: usize)
        requires
            self@.wf(),
            self@.in_bounds(x as int, y as int, z as int),
            255 * nb@.len() <= usize::MAX,
        ensures
            r == spec_count_air(self@, x as int, y as int, z as int, nb@),
    {
        let m = nb.offset_count();
        let mut count: usize = 0;
        let mut k: usize = 0;
        while k < m
            invariant
                self@.wf(),
                self@.in_bounds(x as int, y as int, z as int),
                m == nb@.len(),
                255 * m <= usize::MAX,
                k <= m,
                count <= 255 * k,
                count + count_air_from(self@, x as int, y as int, z as int, nb@, k as int)
                    == spec_count_air(self@, x as int, y as int, z as int, nb@),
            decreases m - k,
        {
            proof {
                lemma_count_air_bounds(self@, x as int, y as int, z as int, nb@, k as int);
            }
            let (dx, dy, dz) = nb.offset_at(k);
            let nx = x as i64 + dx as i64;
            let ny = y as i64 + dy as i64;
            let nz = z as i64 + dz as i64;
            if 0 <= nx && nx < self.width as i64 && 0 <= ny && ny < self.height as i64 && 0 <= nz
                && nz < self.depth as i64 {
                let c = self.get(nx as usize, ny as usize, nz as usize);
                count = count + c.0 as usize;
            }
            k = k + 1;
        }
        count
    }

    /// Number of alive cells in the whole grid.
    pub fn total_air_cells(&self) -> (r: usize)
        ensures
            r == spec_alive_count(self@),
    {
        let n = self.cells.len();
        let mut count: usize = 0;
        let mut i: usize = 0;
        while i < n
            invariant
                i <= n,
                n == self@.cells.len(),
                count <= i,
                count == alive_count_to(self@.cells, i as int),
            decreases n - i,
        {
            if self.cells[i].is_alive() {
                count = count + 1;
            }
            i = i + 1;
        }
        count
    }
}

/// Determinism of random construction: the contract of `CAContext::random`
/// pins every cell, so two grids built from the same dimensions, seed and
/// threshold are identical.
pub proof fn lemma_random_deterministic(a: GridModel, b: GridModel, seed: u64, alive_threshold: u64)
    requires
        a.width == b.width,
        a.height == b.height,
        a.depth == b.depth,
        a.cells.len() == b.cells.len(),
        forall|i: int|
            0 <= i < a.cells.len() ==> a.cells[i] == (if xoshiro_draw(seed, i) < alive_threshold {
                CACell(1u8)
            } else {
                CACell(0u8)
            }),
        forall|i: int|
            0 <= i < b.cells.len() ==> b.cells[i] == (if xoshiro_draw(seed, i) < alive_threshold {
                CACell(1u8)
            } else {
                CACell(0u8)
            }),
    ensures
        a == b,
{
    assert(a.cells =~= b.cells);
    assert(a =~= b);
}

impl Clone for CAContext {
    fn clone(&self) -> (r: Self)
        ensures
            r@ == self@,
    {
        let mut cells: Vec<CACell> = Vec::new();
        let n = self.cells.len();
        let mut i: usize = 0;
        while i < n
            invariant
                i <= n,
                n == self@.cells.len(),
                cells@.len() == i,
                forall|j: int| 0 <= j < i ==> cells@[j] == self@.cells[j],
            decreases n - i,
        {
            cells.push(self.cells[i]);
            i = i + 1;
        }
        proof {
            assert(cells@ =~= self@.cells);
        }
        CAContext { width: self.width, height: self.height, depth: self.depth, cells }
    }
}

} // verus!
