//! The automaton engine: double-buffered stepping of a grid under a
//! neighborhood and a birth/survival rule.

use vstd::prelude::*;
use crate::cell::CACell;
use crate::grid::{CAContext, GridModel, spec_count_air};
use crate::neighborhood::CANeighborhood;
use crate::rule::{CARule, rule_has};

verus! {

/// Next state of cell `i`: an alive cell stays alive iff its neighbor count
/// is a survival count; a solid cell turns alive iff it is a birth count.
/// Counts are taken against `g` only, never against the grid being written.
pub open spec fn step_cell(
    g: GridModel,
    offs: Seq<(i32, i32, i32)>,
    birth: Seq<usize>,
    survival: Seq<usize>,
    i: int,
) -> CACell {
    let n = spec_count_air(g, g.pos_x(i), g.pos_y(i), g.pos_z(i), offs);
    let next = if g.alive(i) {
        rule_has(survival, n)
    } else {
        rule_has(birth, n)
    };
    if next {
        CACell(1u8)
    } else {
        CACell(0u8)
    }
}

/// One whole simulation step: every cell of the result is the transition of
/// the same cell of `g`, a pure function of the old grid alone.
pub open spec fn step_grid(
    g: GridModel,
    offs: Seq<(i32, i32, i32)>,
    birth: Seq<usize>,
    survival: Seq<usize>,
) -> GridModel {
    GridModel {
        cells: Seq::new(g.cells.len(), |i: int| step_cell(g, offs, birth, survival, i)),
        ..g
    }
}

/// `k` successive simulation steps.
pub open spec fn run_model(
    g: GridModel,
    offs: Seq<(i32, i32, i32)>,
    birth: Seq<usize>,
    survival: Seq<usize>,
    k: nat,
) -> GridModel
    decreases k,
{
    if k == 0 {
        g
    } else {
        step_grid(run_model(g, offs, birth, survival, (k - 1) as nat), offs, birth, survival)
    }
}

/// A neighborhood paired with a rule: one automaton configuration.
pub struct CAConfig {
    pub neighborhood: CANeighborhood,
    pub rule: CARule,
}

/// The engine owns the current grid and a same-shape scratch grid; a step
/// writes the scratch grid from the current one, then swaps the two.
pub struct CAEngine {
    pub config: CAConfig,
    pub context: CAContext,
    buffer: CAContext,
}

impl CAEngine {
    /// The current grid.
    pub closed spec fn grid(self) -> GridModel {
        self.context@
    }

    /// The scratch grid.
    pub closed spec fn buf(self) -> GridModel {
        self.buffer@
    }

    /// The configured neighborhood offsets.
    pub closed spec fn offs(self) -> Seq<(i32, i32, i32)> {
        self.config.neighborhood@
    }

    /// The configured birth counts.
    pub closed spec fn birth(self) -> Seq<usize> {
        self.config.rule.birth@
    }

    /// The configured survival counts.
    pub closed spec fn survival(self) -> Seq<usize> {
        self.config.rule.survival@
    }

    /// Both grids are well-formed and of the same shape, and neighbor counts
    /// cannot overflow a `usize`.
    pub open spec fn wf(self) -> bool {
        &&& self.grid().wf()
        &&& self.buf().wf()
        &&& self.buf().width == self.grid().width
        &&& self.buf().height == self.grid().height
        &&& self.buf().depth == self.grid().depth
        &&& 255 * self.offs().len() <= usize::MAX
    }

    pub fn new(config: CAConfig, context: CAContext) -> (r: Self)
        requires
            context@.wf(),
            255 * config.neighborhood@.len() <= usize::MAX,
        ensures
            r.wf(),
            r.grid() == context@,
            r.offs() == config.neighborhood@,
            r.birth() == config.rule.birth@,
            r.survival() == config.rule.survival@,
    {
        let buffer = context.clone();
        CAEngine { config, context, buffer }
    }

    /// Read-only access to the current grid.
    pub fn context_ref(&self) -> (r: &CAContext)
        ensures
            r@ == self.grid(),
    {
        &self.context
    }

    /// One step: every cell of the new current grid is the transition of the
    /// old current grid; the old grid survives as the scratch buffer. Only
    /// the two grids change; the configuration does not.
    pub fn run_iteration(&mut self)
        requires
            old(self).wf(),
        ensures
            final(self).wf(),
            final(self).offs() == old(self).offs(),
            final(self).birth() == old(self).birth(),
            final(self).survival() == old(self).survival(),
            final(self).grid() == step_grid(
                old(self).grid(),
                old(self).offs(),
                old(self).birth(),
                old(self).survival(),
            ),
            final(self).buf() == old(self).grid(),
    {
        let ghost g0 = self.grid();
        let ghost offs0 = self.offs();
        let ghost b0 = self.birth();
        let ghost s0 = self.survival();
        let n = self.context.cell_count();
        let mut i: usize = 0;
        while i < n
            invariant
                i <= n,
                n == g0.cells.len(),
                g0.wf(),
                255 * offs0.len() <= usize::MAX,
                self.grid() == g0,
                self.offs() == offs0,
                self.birth() == b0,
                self.survival() == s0,
                self.buf().wf(),
                self.buf().width == g0.width,
                self.buf().height == g0.height,
                self.buf().depth == g0.depth,
                forall|j: int| 0 <= j < i ==> self.buf().cells[j] == step_cell(g0, offs0, b0, s0, j),
            decreases n - i,
        {
            let (x, y, z) = self.context.pos(i);
            let count = self.context.count_air_neighbors(x, y, z, &self.config.neighborhood);
            let alive = self.context.cell_at(i).is_alive();
            let next = if alive {
                self.config.rule.survival_contains(count)
            } else {
                self.config.rule.birth_contains(count)
            };
            self.buffer.set_cell(i, CACell::new(if next { 1 } else { 0 }));
            i = i + 1;
        }
        proof {
            assert(self.buf().cells =~= step_grid(g0, offs0, b0, s0).cells);
            assert(self.buf() =~= step_grid(g0, offs0, b0, s0));
        }
        core::mem::swap(&mut self.context, &mut self.buffer);
    }

    /// `iterations` successive steps.
    pub fn run(&mut self, iterations: usize)
        requires
            old(self).wf(),
        ensures
            final(self).wf(),
            final(self).offs() == old(self).offs(),
            final(self).birth() == old(self).birth(),
            final(self).survival() == old(self).survival(),
            final(self).grid() == run_model(
                old(self).grid(),
                old(self).offs(),
                old(self).birth(),
                old(self).survival(),
                iterations as nat,
            ),
    {
        let ghost g0 = self.grid();
        let ghost offs0 = self.offs();
        let ghost b0 = self.birth();
        let ghost s0 = self.survival();
        let mut t: usize = 0;
        while t < iterations
            invariant
                t <= iterations,
                self.wf(),
                self.offs() == offs0,
                self.birth() == b0,
                self.survival() == s0,
                self.grid() == run_model(g0, offs0, b0, s0, t as nat),
            decreases iterations - t,
        {
            self.run_iteration();
            proof {
                assert(run_model(g0, offs0, b0, s0, (t + 1) as nat) == step_grid(
                    run_model(g0, offs0, b0, s0, t as nat),
                    offs0,
                    b0,
                    s0,
                ));
            }
            t = t + 1;
        }
    }
}

/// A rule with empty birth and survival sets collapses any grid to all-solid
/// after one step, and the grid stays all-solid for every later step.
pub proof fn lemma_empty_rule_all_solid(
    g: GridModel,
    offs: Seq<(i32, i32, i32)>,
    birth: Seq<usize>,
    survival: Seq<usize>,
    k: nat,
)
    requires
        g.wf(),
        birth.len() == 0,
        survival.len() == 0,
        k >= 1,
    ensures
        run_model(g, offs, birth, survival, k).cells.len() == g.cells.len(),
        forall|i: int|
            0 <= i < g.cells.len() ==> !run_model(g, offs, birth, survival, k).alive(i),
    decreases k,
{
    let prev = run_model(g, offs, birth, survival, (k - 1) as nat);
    if k > 1 {
        lemma_empty_rule_all_solid(g, offs, birth, survival, (k - 1) as nat);
    } else {
        assert(prev == g);
    }
    assert(run_model(g, offs, birth, survival, k) == step_grid(prev, offs, birth, survival));
    assert(prev.cells.len() == g.cells.len());
    assert forall|i: int| 0 <= i < g.cells.len() implies !run_model(
        g,
        offs,
        birth,
        survival,
        k,
    ).alive(i) by {
        assert(run_model(g, offs, birth, survival, k).cells[i] == step_cell(
            prev,
            offs,
            birth,
            survival,
            i,
        ));
        assert(!rule_has(birth, spec_count_air(prev, prev.pos_x(i), prev.pos_y(i), prev.pos_z(i), offs)));
        assert(!rule_has(survival, spec_count_air(prev, prev.pos_x(i), prev.pos_y(i), prev.pos_z(i), offs)));
    }
}

} // verus!
