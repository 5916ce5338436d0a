//! Neighborhood shapes: fixed sets of relative 3-D offsets sampled around a
//! cell. Offsets are set at construction and never change.

use vstd::prelude::*;

verus! {

broadcast use vstd::seq_lib::group_seq_properties;

/// The six axis-aligned unit offsets, in the order they are sampled.
pub open spec fn von_neumann_offsets() -> Seq<(i32, i32, i32)> {
    seq![
        (1i32, 0i32, 0i32),
        (-1i32, 0i32, 0i32),
        (0i32, 1i32, 0i32),
        (0i32, -1i32, 0i32),
        (0i32, 0i32, 1i32),
        (0i32, 0i32, -1i32),
    ]
}

/// Offset lies in the cube of the given Chebyshev radius.
pub open spec fn in_cube(o: (i32, i32, i32), radius: int) -> bool {
    &&& -radius <= o.0 <= radius
    &&& -radius <= o.1 <= radius
    &&& -radius <= o.2 <= radius
}

/// `offs` lists each nonzero offset of the radius-`radius` cube exactly once.
pub open spec fn is_cube_offsets(offs: Seq<(i32, i32, i32)>, radius: int) -> bool {
    &&& offs.len() == (2 * radius + 1) * (2 * radius + 1) * (2 * radius + 1) - 1
    &&& forall|k: int|
        0 <= k < offs.len() ==> in_cube(#[trigger] offs[k], radius) && offs[k] != (0i32, 0i32, 0i32)
    &&& forall|k1: int, k2: int| 0 <= k1 < k2 < offs.len() ==> offs[k1] != offs[k2]
    &&& forall|o: (i32, i32, i32)|
        in_cube(o, radius) && o != (0i32, 0i32, 0i32) ==> offs.contains(o)
}

/// Strict lexicographic order on integer triples.
pub open spec fn lex_lt(a: (int, int, int), b: (int, int, int)) -> bool {
    ||| a.0 < b.0
    ||| (a.0 == b.0 && a.1 < b.1)
    ||| (a.0 == b.0 && a.1 == b.1 && a.2 < b.2)
}

/// Offset coordinates shifted into `[0, 2*radius]`.
pub open spec fn shift3(o: (i32, i32, i32), radius: int) -> (int, int, int) {
    (o.0 + radius, o.1 + radius, o.2 + radius)
}

/// Items collected by the cube scan up to (exclusive) scan position `cur`,
/// in shifted coordinates: exactly the nonzero cube offsets before `cur`.
spec fn cube_scan_inv(offs: Seq<(i32, i32, i32)>, radius: int, cur: (int, int, int)) -> bool {
    &&& forall|k: int|
        0 <= k < offs.len() ==> in_cube(#[trigger] offs[k], radius) && offs[k] != (0i32, 0i32, 0i32)
            && lex_lt(shift3(offs[k], radius), cur)
    &&& forall|k1: int, k2: int| 0 <= k1 < k2 < offs.len() ==> offs[k1] != offs[k2]
    &&& forall|o: (i32, i32, i32)|
        in_cube(o, radius) && o != (0i32, 0i32, 0i32) && lex_lt(shift3(o, radius), cur)
            ==> offs.contains(o)
}

/// Number of scan positions strictly before `cur`, minus one if the origin
/// was already passed.
spec fn cube_scan_len(radius: int, cur: (int, int, int)) -> int {
    let s = 2 * radius + 1;
    cur.0 * s * s + cur.1 * s + cur.2 - (if lex_lt((radius, radius, radius), cur) {
        1int
    } else {
        0int
    })
}

/// All nonzero offsets of the cube `[-radius, radius]^3`, in lexicographic
/// order.
fn cube_offsets(radius: i32) -> (offs: Vec<(i32, i32, i32)>)
    requires
        1 <= radius,
    ensures
        is_cube_offsets(offs@, radius as int),
{
    let r: i64 = radius as i64;
    let s: i64 = 2 * r + 1;
    let ghost ri: int = radius as int;
    let ghost si: int = 2 * ri + 1;
    let mut offs: Vec<(i32, i32, i32)> = Vec::new();
    let mut xi: i64 = 0;
    while xi < s
        invariant
            1 <= ri <= 0x7fff_ffff,
            r == ri,
            s == si,
            si == 2 * ri + 1,
            0 <= xi <= s,
            cube_scan_inv(offs@, ri, (xi as int, 0, 0)),
            offs@.len() == cube_scan_len(ri, (xi as int, 0, 0)),
        decreases s - xi,
    {
        let mut yi: i64 = 0;
        while yi < s
            invariant
                1 <= ri <= 0x7fff_ffff,
                r == ri,
                s == si,
                si == 2 * ri + 1,
                0 <= xi < s,
                0 <= yi <= s,
                cube_scan_inv(offs@, ri, (xi as int, yi as int, 0)),
                offs@.len() == cube_scan_len(ri, (xi as int, yi as int, 0)),
            decreases s - yi,
        {
            let mut zi: i64 = 0;
            while zi < s
                invariant
                    1 <= ri <= 0x7fff_ffff,
                    r == ri,
                    s == si,
                    si == 2 * ri + 1,
                    0 <= xi < s,
                    0 <= yi < s,
                    0 <= zi <= s,
                    cube_scan_inv(offs@, ri, (xi as int, yi as int, zi as int)),
                    offs@.len() == cube_scan_len(ri, (xi as int, yi as int, zi as int)),
                decreases s - zi,
            {
                let dx: i32 = (xi - r) as i32;
                let dy: i32 = (yi - r) as i32;
                let dz: i32 = (zi - r) as i32;
                proof {
                    assert(-ri <= xi - r <= ri);
                    assert(dx as int == xi - ri && dy as int == yi - ri && dz as int == zi - ri);
                }
                if !(dx == 0 && dy == 0 && dz == 0) {
                    let ghost prev = offs@;
                    offs.push((dx, dy, dz));
                    proof {
                        assert(shift3((dx, dy, dz), ri) == (xi as int, yi as int, zi as int));
                        assert(forall|o: (i32, i32, i32)|
                            in_cube(o, ri) && o != (0i32, 0i32, 0i32)
                                && lex_lt(shift3(o, ri), (xi as int, yi as int, zi + 1 as int))
                                && o != (dx, dy, dz) ==> lex_lt(
                                shift3(o, ri),
                                (xi as int, yi as int, zi as int),
                            ));
                        assert(offs@.last() == (dx, dy, dz));
                    }
                } else {
                    proof {
                        assert((xi as int, yi as int, zi as int) == (ri, ri, ri));
                        assert(forall|o: (i32, i32, i32)|
                            in_cube(o, ri) && o != (0i32, 0i32, 0i32)
                                && lex_lt(shift3(o, ri), (xi as int, yi as int, zi + 1 as int))
                                ==> lex_lt(shift3(o, ri), (xi as int, yi as int, zi as int)));
                    }
                }
                zi = zi + 1;
            }
            proof {
                // end of a z-row: positions before (xi, yi, s) are exactly
                // the positions before (xi, yi + 1, 0)
                assert(forall|o: (i32, i32, i32)|
                    in_cube(o, ri) ==> (lex_lt(shift3(o, ri), (xi as int, yi as int, si))
                        <==> lex_lt(shift3(o, ri), (xi as int, yi + 1 as int, 0))));
                assert(lex_lt((ri, ri, ri), (xi as int, yi as int, si)) <==> lex_lt(
                    (ri, ri, ri),
                    (xi as int, yi + 1 as int, 0),
                ));
                assert((yi + 1) * si == yi * si + si) by (nonlinear_arith);
                assert(cube_scan_len(ri, (xi as int, yi as int, si)) == cube_scan_len(
                    ri,
                    (xi as int, yi + 1 as int, 0),
                ));
            }
            yi = yi + 1;
        }
        proof {
            assert(forall|o: (i32, i32, i32)|
                in_cube(o, ri) ==> (lex_lt(shift3(o, ri), (xi as int, si, 0))
                    <==> lex_lt(shift3(o, ri), (xi + 1 as int, 0, 0))));
            assert(lex_lt((ri, ri, ri), (xi as int, si, 0)) <==> lex_lt(
                (ri, ri, ri),
                (xi + 1 as int, 0, 0),
            ));
            assert((xi + 1) * si * si == xi * si * si + si * si) by (nonlinear_arith);
            assert(cube_scan_len(ri, (xi as int, si, 0)) == cube_scan_len(
                ri,
                (xi + 1 as int, 0, 0),
            ));
        }
        xi = xi + 1;
    }
    proof {
        assert(forall|o: (i32, i32, i32)|
            in_cube(o, ri) ==> lex_lt(shift3(o, ri), (si, 0, 0)));
        assert(lex_lt((ri, ri, ri), (si, 0, 0)));
        assert(offs@.len() == si * si * si - 1);
        assert((2 * ri + 1) * (2 * ri + 1) * (2 * ri + 1) == si * si * si);
    }
    offs
}

/// An immutable, named set of relative offsets used to sample a cell's
/// surroundings.
pub struct CANeighborhood {
    pub name: String,
    offsets: Vec<(i32, i32, i32)>,
}

impl View for CANeighborhood {
    type V = Seq<(i32, i32, i32)>;

    closed spec fn view(&self) -> Seq<(i32, i32, i32)> {
        self.offsets@
    }
}

impl CANeighborhood {
    /// The display name given at construction.
    pub closed spec fn spec_name(&self) -> Seq<char> {
        self.name@
    }

    /// The 6 axis-aligned unit offsets.
    pub fn von_neumann() -> (r: Self)
        ensures
            r@ == von_neumann_offsets(),
            r.spec_name() == "von_neumann"@,
    {
        let mut offsets: Vec<(i32, i32, i32)> = Vec::new();
        offsets.push((1, 0, 0));
        offsets.push((-1, 0, 0));
        offsets.push((0, 1, 0));
        offsets.push((0, -1, 0));
        offsets.push((0, 0, 1));
        offsets.push((0, 0, -1));
        proof {
            assert(offsets@ =~= von_neumann_offsets());
        }
        CANeighborhood { name: "von_neumann".to_owned(), offsets }
    }

    /// All 26 offsets within Chebyshev distance 1, origin excluded.
    pub fn moore() -> (r: Self)
        ensures
            is_cube_offsets(r@, 1),
            r@.len() == 26,
            r.spec_name() == "moore"@,
    {
        let offsets = cube_offsets(1);
        proof {
            assert(offsets@.len() == (2 * 1 + 1) * (2 * 1 + 1) * (2 * 1 + 1) - 1);
            assert((2 * 1 + 1) * (2 * 1 + 1) * (2 * 1 + 1) - 1 == 26) by (nonlinear_arith);
        }
        CANeighborhood { name: "moore".to_owned(), offsets }
    }

    /// All offsets within the cube `[-radius, radius]^3`, origin excluded.
    pub fn extended_moore(radius: i32) -> (r: Self)
        requires
            1 <= radius,
        ensures
            is_cube_offsets(r@, radius as int),
            r.spec_name() == "extended_moore"@,
    {
        CANeighborhood { name: "extended_moore".to_owned(), offsets: cube_offsets(radius) }
    }

    /// Number of offsets.
    pub fn offset_count(&self) -> (r: usize)
        ensures
            r == self@.len(),
    {
        self.offsets.len()
    }

    /// The offset at position `k`.
    pub fn offset_at(&self, k: usize) -> (r: (i32, i32, i32))
        requires
            k < self@.len(),
        ensures
            r == self@[k as int],
    {
        self.offsets[k]
    }
}

impl Clone for CANeighborhood {
    fn clone(&self) -> (r: Self)
        ensures
            r@ == self@,
            r.spec_name() == self.spec_name(),
    {
        let mut offsets: Vec<(i32, i32, i32)> = Vec::new();
        let n = self.offsets.len();
        let mut i: usize = 0;
        while i < n
            invariant
                i <= n,
                n == self@.len(),
                offsets@.len() == i,
                forall|j: int| 0 <= j < i ==> offsets@[j] == self@[j],
            decreases n - i,
        {
            offsets.push(self.offsets[i]);
            i = i + 1;
        }
        proof {
            assert(offsets@ =~= self@);
        }
        CANeighborhood { name: self.name.clone(), offsets }
    }
}

} // verus!
