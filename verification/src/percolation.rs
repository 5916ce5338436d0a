//! Axis-aligned percolation: does some component span a whole axis?

use vstd::prelude::*;
use crate::grid::{CAContext, GridModel, lemma_index_of_pos};
use crate::connectivity::{
    adj6, absd, comps_wf, comps_cover, comp_closed, comp_members_ok, contains_idx, comps_has,
};

verus! {

/// Some member of `c` has X coordinate `v`.
pub open spec fn comp_touches_x(g: GridModel, c: Seq<usize>, v: int) -> bool {
    exists|j: int| 0 <= j < c.len() && g.pos_x(#[trigger] c[j] as int) == v
}

/// Some member of `c` has Y coordinate `v`.
pub open spec fn comp_touches_y(g: GridModel, c: Seq<usize>, v: int) -> bool {
    exists|j: int| 0 <= j < c.len() && g.pos_y(#[trigger] c[j] as int) == v
}

/// Some member of `c` has Z coordinate `v`.
pub open spec fn comp_touches_z(g: GridModel, c: Seq<usize>, v: int) -> bool {
    exists|j: int| 0 <= j < c.len() && g.pos_z(#[trigger] c[j] as int) == v
}

/// Some component touches both X boundary faces.
pub open spec fn percolates_x(g: GridModel, comps: Seq<Vec<usize>>) -> bool {
    exists|c: int|
        0 <= c < comps.len() && comp_touches_x(g, #[trigger] comps[c]@, 0) && comp_touches_x(
            g,
            comps[c]@,
            g.width - 1,
        )
}

/// Some component touches both Y boundary faces.
pub open spec fn percolates_y(g: GridModel, comps: Seq<Vec<usize>>) -> bool {
    exists|c: int|
        0 <= c < comps.len() && comp_touches_y(g, #[trigger] comps[c]@, 0) && comp_touches_y(
            g,
            comps[c]@,
            g.height - 1,
        )
}

/// Some component touches both Z boundary faces.
pub open spec fn percolates_z(g: GridModel, comps: Seq<Vec<usize>>) -> bool {
    exists|c: int|
        0 <= c < comps.len() && comp_touches_z(g, #[trigger] comps[c]@, 0) && comp_touches_z(
            g,
            comps[c]@,
            g.depth - 1,
        )
}

/// The three percolation booleans, one per axis: whether any component
/// holds a cell on coordinate 0 and a cell on the maximum coordinate of
/// that axis.
pub fn percolation(g: &CAContext, comps: &Vec<Vec<usize>>) -> (r: (bool, bool, bool))
    requires
        g@.wf(),
        comps_wf(g@, comps@),
    ensures
        r.0 == percolates_x(g@, comps@),
        r.1 == percolates_y(g@, comps@),
        r.2 == percolates_z(g@, comps@),
{
    let w = g.width();
    let h = g.height();
    let d = g.depth();
    let mut px = false;
    let mut py = false;
    let mut pz = false;
    let nc = comps.len();
    let mut c: usize = 0;
    while c < nc
        invariant
            g@.wf(),
            comps_wf(g@, comps@),
            nc == comps@.len(),
            c <= nc,
            w == g@.width,
            h == g@.height,
            d == g@.depth,
            px == (exists|c2: int|
                0 <= c2 < c && comp_touches_x(g@, #[trigger] comps@[c2]@, 0) && comp_touches_x(
                    g@,
                    comps@[c2]@,
                    g@.width - 1,
                )),
            py == (exists|c2: int|
                0 <= c2 < c && comp_touches_y(g@, #[trigger] comps@[c2]@, 0) && comp_touches_y(
                    g@,
                    comps@[c2]@,
                    g@.height - 1,
                )),
            pz == (exists|c2: int|
                0 <= c2 < c && comp_touches_z(g@, #[trigger] comps@[c2]@, 0) && comp_touches_z(
                    g@,
                    comps@[c2]@,
                    g@.depth - 1,
                )),
        decreases nc - c,
    {
        let comp = &comps[c];
        let nm = comp.len();
        let mut tx0 = false;
        let mut txw = false;
        let mut ty0 = false;
        let mut tyh = false;
        let mut tz0 = false;
        let mut tzd = false;
        let mut j: usize = 0;
        while j < nm
            invariant
                g@.wf(),
                comps_wf(g@, comps@),
                c < comps@.len(),
                comp@ == comps@[c as int]@,
                nm == comp@.len(),
                j <= nm,
                w == g@.width,
                h == g@.height,
                d == g@.depth,
                tx0 == (exists|j2: int| 0 <= j2 < j && g@.pos_x(#[trigger] comp@[j2] as int) == 0),
                txw == (exists|j2: int|
                    0 <= j2 < j && g@.pos_x(#[trigger] comp@[j2] as int) == g@.width - 1),
                ty0 == (exists|j2: int| 0 <= j2 < j && g@.pos_y(#[trigger] comp@[j2] as int) == 0),
                tyh == (exists|j2: int|
                    0 <= j2 < j && g@.pos_y(#[trigger] comp@[j2] as int) == g@.height - 1),
                tz0 == (exists|j2: int| 0 <= j2 < j && g@.pos_z(#[trigger] comp@[j2] as int) == 0),
                tzd == (exists|j2: int|
                    0 <= j2 < j && g@.pos_z(#[trigger] comp@[j2] as int) == g@.depth - 1),
            decreases nm - j,
        {
            let m = comp[j];
            let (x, y, z) = g.pos(m);
            tx0 = tx0 || x == 0;
            txw = txw || x == w - 1;
            ty0 = ty0 || y == 0;
            tyh = tyh || y == h - 1;
            tz0 = tz0 || z == 0;
            tzd = tzd || z == d - 1;
            j = j + 1;
        }
        proof {
            assert(tx0 == comp_touches_x(g@, comps@[c as int]@, 0));
            assert(txw == comp_touches_x(g@, comps@[c as int]@, g@.width - 1));
            assert(ty0 == comp_touches_y(g@, comps@[c as int]@, 0));
            assert(tyh == comp_touches_y(g@, comps@[c as int]@, g@.height - 1));
            assert(tz0 == comp_touches_z(g@, comps@[c as int]@, 0));
            assert(tzd == comp_touches_z(g@, comps@[c as int]@, g@.depth - 1));
        }
        px = px || (tx0 && txw);
        py = py || (ty0 && tyh);
        pz = pz || (tz0 && tzd);
        c = c + 1;
    }
    (px, py, pz)
}

/// Walk a straight alive X-line: once a component holds the line's cell at
/// X coordinate 0, closure under adjacency forces it to hold the cell at
/// every X coordinate.
proof fn lemma_line_walk(g: GridModel, comps: Seq<Vec<usize>>, c: int, y0: int, z0: int, x: int)
    requires
        g.wf(),
        comps_wf(g, comps),
        0 <= y0 < g.height,
        0 <= z0 < g.depth,
        forall|i: int|
            0 <= i < g.cells.len() ==> (g.alive(i) <==> (g.pos_y(i) == y0 && g.pos_z(i) == z0)),
        0 <= c < comps.len(),
        contains_idx(comps[c]@, g.idx(0, y0, z0)),
        0 <= x < g.width,
    ensures
        contains_idx(comps[c]@, g.idx(x, y0, z0)),
    decreases x,
{
    if x > 0 {
        lemma_line_walk(g, comps, c, y0, z0, x - 1);
        let prev = g.idx(x - 1, y0, z0);
        let next = g.idx(x, y0, z0);
        lemma_index_of_pos(g, x - 1, y0, z0);
        lemma_index_of_pos(g, x, y0, z0);
        let j = choose|j: int| 0 <= j < comps[c]@.len() && comps[c]@[j] == prev;
        assert(adj6(g, comps[c]@[j] as int, next));
        assert(g.alive(next));
        assert(comp_closed(g, comps[c]@));
    }
}

/// A grid whose alive cells form one straight line spanning the X axis
/// percolates along X; if the grid is wider than one cell along Y (or Z),
/// it does not percolate along Y (or Z), because the line touches at most
/// one boundary face of that axis.
pub proof fn lemma_line_percolation(
    g: GridModel,
    comps: Seq<Vec<usize>>,
    y0: int,
    z0: int,
)
    requires
        g.wf(),
        comps_wf(g, comps),
        comps_cover(g, comps),
        0 <= y0 < g.height,
        0 <= z0 < g.depth,
        forall|i: int|
            0 <= i < g.cells.len() ==> (g.alive(i) <==> (g.pos_y(i) == y0 && g.pos_z(i) == z0)),
    ensures
        percolates_x(g, comps),
        g.height > 1 ==> !percolates_y(g, comps),
        g.depth > 1 ==> !percolates_z(g, comps),
{
    let i0 = g.idx(0, y0, z0);
    lemma_index_of_pos(g, 0, y0, z0);
    assert(g.alive(i0));
    assert(comps_has(comps, i0));
    let c = choose|c: int| 0 <= c < comps.len() && contains_idx(#[trigger] comps[c]@, i0);
    lemma_line_walk(g, comps, c, y0, z0, g.width - 1);
    let iw = g.idx(g.width - 1, y0, z0);
    lemma_index_of_pos(g, g.width - 1, y0, z0);
    assert(comp_touches_x(g, comps[c]@, 0)) by {
        let j = choose|j: int| 0 <= j < comps[c]@.len() && comps[c]@[j] == i0;
        assert(g.pos_x(comps[c]@[j] as int) == 0);
    }
    assert(comp_touches_x(g, comps[c]@, g.width - 1)) by {
        let j = choose|j: int| 0 <= j < comps[c]@.len() && comps[c]@[j] == iw;
        assert(g.pos_x(comps[c]@[j] as int) == g.width - 1);
    }
    assert(percolates_x(g, comps));
    // every member of every component lies on the line, so its Y coordinate
    // is y0 and its Z coordinate is z0
    assert forall|c2: int, j: int|
        0 <= c2 < comps.len() && 0 <= j < comps[c2]@.len() implies g.pos_y(
            #[trigger] comps[c2]@[j] as int,
        ) == y0 && g.pos_z(comps[c2]@[j] as int) == z0 by {
        assert(comp_members_ok(g, comps[c2]@));
        assert(g.alive(comps[c2]@[j] as int));
    }
    if g.height > 1 && percolates_y(g, comps) {
        let c2 = choose|c2: int|
            0 <= c2 < comps.len() && comp_touches_y(g, #[trigger] comps[c2]@, 0) && comp_touches_y(
                g,
                comps[c2]@,
                g.height - 1,
            );
        let j1 = choose|j: int| 0 <= j < comps[c2]@.len() && g.pos_y(#[trigger] comps[c2]@[j] as int) == 0;
        let j2 = choose|j: int|
            0 <= j < comps[c2]@.len() && g.pos_y(#[trigger] comps[c2]@[j] as int) == g.height - 1;
        assert(comp_members_ok(g, comps[c2]@));
        assert(g.alive(comps[c2]@[j1] as int));
        assert(g.alive(comps[c2]@[j2] as int));
        assert(y0 == 0 && y0 == g.height - 1);
        assert(false);
    }
    if g.depth > 1 && percolates_z(g, comps) {
        let c2 = choose|c2: int|
            0 <= c2 < comps.len() && comp_touches_z(g, #[trigger] comps[c2]@, 0) && comp_touches_z(
                g,
                comps[c2]@,
                g.depth - 1,
            );
        let j1 = choose|j: int| 0 <= j < comps[c2]@.len() && g.pos_z(#[trigger] comps[c2]@[j] as int) == 0;
        let j2 = choose|j: int|
            0 <= j < comps[c2]@.len() && g.pos_z(#[trigger] comps[c2]@[j] as int) == g.depth - 1;
        assert(comp_members_ok(g, comps[c2]@));
        assert(g.alive(comps[c2]@[j1] as int));
        assert(g.alive(comps[c2]@[j2] as int));
        assert(z0 == 0 && z0 == g.depth - 1);
        assert(false);
    }
}

} // verus!
