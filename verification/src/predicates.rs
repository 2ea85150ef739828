//! Exact geometric predicates on grid points.
//!
//! Every predicate is an integer whose sign is the answer. The executable
//! functions compute the same integers as the specification functions, in
//! 128-bit arithmetic that is proved not to overflow for coordinates within
//! `MAX_COORD`.
use vstd::prelude::*;
use crate::algebra::lemma_mul_bounded_by;

verus! {

/// A point of the integer grid.
pub type Point = (i64, i64);

/// Largest absolute value of a coordinate for which the predicates are exact.
pub const MAX_COORD: i64 = 536870912;

/// Both coordinates lie within `MAX_COORD` of the origin.
pub open spec fn in_range(p: Point) -> bool {
    -MAX_COORD <= p.0 <= MAX_COORD && -MAX_COORD <= p.1 <= MAX_COORD
}

/// Determinant of the two plane vectors `(ux, uy)` and `(vx, vy)`.
pub open spec fn det2(ux: int, uy: int, vx: int, vy: int) -> int {
    ux * vy - uy * vx
}

/// Twice the signed area of the triangle `a b c`: positive exactly when `c`
/// lies strictly to the left of the directed line from `a` to `b`.
pub open spec fn spec_orient2d(a: Point, b: Point, c: Point) -> int {
    det2(b.0 - a.0, b.1 - a.1, c.0 - a.0, c.1 - a.1)
}

/// Squared length of the vector `(x, y)`.
pub open spec fn sq_len(x: int, y: int) -> int {
    x * x + y * y
}

/// The in-circle determinant: positive exactly when `d` lies strictly inside
/// the circle through `a`, `b`, `c`, provided these wind counter-clockwise.
pub open spec fn spec_in_circle(a: Point, b: Point, c: Point, d: Point) -> int {
    let adx = a.0 - d.0;
    let ady = a.1 - d.1;
    let bdx = b.0 - d.0;
    let bdy = b.1 - d.1;
    let cdx = c.0 - d.0;
    let cdy = c.1 - d.1;
    sq_len(adx, ady) * det2(bdx, bdy, cdx, cdy) - sq_len(bdx, bdy) * det2(adx, ady, cdx, cdy)
        + sq_len(cdx, cdy) * det2(adx, ady, bdx, bdy)
}

/// Dot product of `b -> a` and `b -> c`: positive exactly when the angle at
/// `b` is strictly acute.
pub open spec fn spec_acute(a: Point, b: Point, c: Point) -> int {
    (a.0 - b.0) * (c.0 - b.0) + (a.1 - b.1) * (c.1 - b.1)
}

/// Squared Euclidean distance between `a` and `b`.
pub open spec fn spec_distance2(a: Point, b: Point) -> int {
    sq_len(a.0 - b.0, a.1 - b.1)
}

/// Evaluates `spec_orient2d` exactly.
pub fn orient2d(a: Point, b: Point, c: Point) -> (r: i128)
    requires
        in_range(a),
        in_range(b),
        in_range(c),
    ensures
        r == spec_orient2d(a, b, c),
{
    let ux: i128 = b.0 as i128 - a.0 as i128;
    let uy: i128 = b.1 as i128 - a.1 as i128;
    let vx: i128 = c.0 as i128 - a.0 as i128;
    let vy: i128 = c.1 as i128 - a.1 as i128;
    proof {
        lemma_mul_bounded_by(ux as int, vy as int, 0x4000_0000, 0x4000_0000);
        lemma_mul_bounded_by(uy as int, vx as int, 0x4000_0000, 0x4000_0000);
    }
    ux * vy - uy * vx
}

/// Evaluates `spec_in_circle` exactly.
pub fn in_circle(a: Point, b: Point, c: Point, d: Point) -> (r: i128)
    requires
        in_range(a),
        in_range(b),
        in_range(c),
        in_range(d),
    ensures
        r == spec_in_circle(a, b, c, d),
{
    let adx: i128 = a.0 as i128 - d.0 as i128;
    let ady: i128 = a.1 as i128 - d.1 as i128;
    let bdx: i128 = b.0 as i128 - d.0 as i128;
    let bdy: i128 = b.1 as i128 - d.1 as i128;
    let cdx: i128 = c.0 as i128 - d.0 as i128;
    let cdy: i128 = c.1 as i128 - d.1 as i128;
    let m: Ghost<int> = Ghost(0x4000_0000);
    proof {
        lemma_mul_bounded_by(adx as int, adx as int, m@, m@);
        lemma_mul_bounded_by(ady as int, ady as int, m@, m@);
        lemma_mul_bounded_by(bdx as int, bdx as int, m@, m@);
        lemma_mul_bounded_by(bdy as int, bdy as int, m@, m@);
        lemma_mul_bounded_by(cdx as int, cdx as int, m@, m@);
        lemma_mul_bounded_by(cdy as int, cdy as int, m@, m@);
        lemma_mul_bounded_by(bdx as int, cdy as int, m@, m@);
        lemma_mul_bounded_by(bdy as int, cdx as int, m@, m@);
        lemma_mul_bounded_by(adx as int, cdy as int, m@, m@);
        lemma_mul_bounded_by(ady as int, cdx as int, m@, m@);
        lemma_mul_bounded_by(adx as int, bdy as int, m@, m@);
        lemma_mul_bounded_by(ady as int, bdx as int, m@, m@);
    }
    let la: i128 = adx * adx + ady * ady;
    let lb: i128 = bdx * bdx + bdy * bdy;
    let lc: i128 = cdx * cdx + cdy * cdy;
    let dbc: i128 = bdx * cdy - bdy * cdx;
    let dac: i128 = adx * cdy - ady * cdx;
    let dab: i128 = adx * bdy - ady * bdx;
    proof {
        let w: int = 0x2000_0000_0000_0000;
        lemma_mul_bounded_by(la as int, dbc as int, w, w);
        lemma_mul_bounded_by(lb as int, dac as int, w, w);
        lemma_mul_bounded_by(lc as int, dab as int, w, w);
    }
    la * dbc - lb * dac + lc * dab
}

/// Evaluates `spec_acute` exactly.
pub fn acute(a: Point, b: Point, c: Point) -> (r: i128)
    requires
        in_range(a),
        in_range(b),
        in_range(c),
    ensures
        r == spec_acute(a, b, c),
{
    let ux: i128 = a.0 as i128 - b.0 as i128;
    let uy: i128 = a.1 as i128 - b.1 as i128;
    let vx: i128 = c.0 as i128 - b.0 as i128;
    let vy: i128 = c.1 as i128 - b.1 as i128;
    proof {
        lemma_mul_bounded_by(ux as int, vx as int, 0x4000_0000, 0x4000_0000);
        lemma_mul_bounded_by(uy as int, vy as int, 0x4000_0000, 0x4000_0000);
    }
    ux * vx + uy * vy
}

/// Evaluates `spec_distance2` exactly.
pub fn distance2(a: Point, b: Point) -> (r: i128)
    requires
        in_range(a),
        in_range(b),
    ensures
        r == spec_distance2(a, b),
{
    let ux: i128 = a.0 as i128 - b.0 as i128;
    let uy: i128 = a.1 as i128 - b.1 as i128;
    proof {
        lemma_mul_bounded_by(ux as int, ux as int, 0x4000_0000, 0x4000_0000);
        lemma_mul_bounded_by(uy as int, uy as int, 0x4000_0000, 0x4000_0000);
    }
    ux * ux + uy * uy
}

/// Six times the centroid of `a`, `b`, `c`: the sixfold keeps the centroid
/// of grid points on the grid.
pub open spec fn spec_centroid(a: Point, b: Point, c: Point) -> Point {
    ((2 * (a.0 + b.0 + c.0)) as i64, (2 * (a.1 + b.1 + c.1)) as i64)
}

/// Evaluates `spec_centroid`.
pub fn centroid(a: Point, b: Point, c: Point) -> (r: Point)
    requires
        in_range(a),
        in_range(b),
        in_range(c),
    ensures
        r == spec_centroid(a, b, c),
        r.0 == 2 * (a.0 + b.0 + c.0),
        r.1 == 2 * (a.1 + b.1 + c.1),
{
    (2 * (a.0 + b.0 + c.0), 2 * (a.1 + b.1 + c.1))
}

} // verus!
