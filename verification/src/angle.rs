//! The pseudo-angle: a surrogate for the angle of a direction that needs no
//! trigonometry. It walks the diamond `|x| + |y| = 1` instead of the circle,
//! grows counter-clockwise from the positive x-axis, and is reported as
//! one of a given number of equal sectors.
use vstd::prelude::*;
use crate::algebra::lemma_mul_bounded_by;
use crate::hull::{cross, dir_in_range, Dir};

verus! {

/// The quarter of the plane that holds the direction `d`, counted
/// counter-clockwise from the quarter that starts at the positive x-axis.
/// Each quarter holds the axis it starts at.
pub open spec fn quadrant(d: Dir) -> int {
    if d.1 >= 0 && d.0 > 0 {
        0
    } else if d.0 <= 0 && d.1 > 0 {
        1
    } else if d.1 <= 0 && d.0 < 0 {
        2
    } else {
        3
    }
}

/// The length of `d` along the diamond: `|x| + |y|`.
pub open spec fn diamond_len(d: Dir) -> int {
    (if d.0 >= 0 {
        d.0 as int
    } else {
        -d.0
    }) + (if d.1 >= 0 {
        d.1 as int
    } else {
        -d.1
    })
}

/// How far `d` has come within its quarter, as a part of `diamond_len`.
pub open spec fn quarter_part(d: Dir) -> int {
    if quadrant(d) == 0 {
        d.1 as int
    } else if quadrant(d) == 1 {
        -d.0
    } else if quadrant(d) == 2 {
        -d.1
    } else {
        d.0 as int
    }
}

/// The pseudo-angle of `d` in quarter turns is `turn_num(d) / diamond_len(d)`.
pub open spec fn turn_num(d: Dir) -> int {
    quadrant(d) * diamond_len(d) + quarter_part(d)
}

/// The sector of `d` when the full turn is cut into `sectors` equal parts
/// of pseudo-angle.
pub open spec fn pseudo_angle_of(d: Dir, sectors: int) -> int {
    (turn_num(d) * sectors) / (4 * diamond_len(d))
}

/// `u` does not come after `v` on the way counter-clockwise from the
/// positive x-axis.
pub open spec fn turns_before(u: Dir, v: Dir) -> bool {
    quadrant(u) < quadrant(v) || (quadrant(u) == quadrant(v) && cross(u, v) >= 0)
}

/// The pseudo-angle of a direction lies within the full turn.
pub proof fn lemma_turn_num_bounds(d: Dir)
    requires
        d != (0i64, 0i64),
    ensures
        diamond_len(d) > 0,
        0 <= quarter_part(d) < diamond_len(d),
        0 <= quadrant(d) <= 3,
        0 <= turn_num(d) < 4 * diamond_len(d),
{
    let q = quadrant(d);
    let l = diamond_len(d);
    assert(q * l + quarter_part(d) < 4 * l) by (nonlinear_arith)
        requires
            0 <= q <= 3,
            l > 0,
            0 <= quarter_part(d) < l,
    ;
    assert(q * l >= 0) by (nonlinear_arith)
        requires
            0 <= q,
            l > 0,
    ;
}

/// A quotient of non-negative numbers is below `c` when the numerator is
/// below `c` times the denominator.
pub proof fn lemma_div_below(a: int, b: int, c: int)
    by (nonlinear_arith)
    requires
        0 <= a < b * c,
        b > 0,
    ensures
        0 <= a / b < c,
{
}

/// Of two fractions with positive denominators, the smaller has the smaller
/// whole part.
pub proof fn lemma_div_ordered(a: int, b: int, c: int, d: int)
    requires
        0 <= a,
        0 <= c,
        b > 0,
        d > 0,
        a * d <= c * b,
    ensures
        a / b <= c / d,
{
    let x = a / b;
    let y = c / d;
    assert(b * x <= a && c < d * y + d) by (nonlinear_arith)
        requires
            x == a / b,
            y == c / d,
            b > 0,
            d > 0,
            0 <= a,
            0 <= c,
    ;
    if x > y {
        assert(false) by (nonlinear_arith)
            requires
                b * x <= a,
                c < d * y + d,
                x >= y + 1,
                a * d <= c * b,
                b > 0,
                d > 0,
        ;
    }
}

/// The pseudo-angle grows counter-clockwise: of two directions, the one
/// that comes first on the way round from the positive x-axis lies in no
/// later sector.
pub proof fn law_pseudo_angle_grows(u: Dir, v: Dir, sectors: int)
    requires
        u != (0i64, 0i64),
        v != (0i64, 0i64),
        sectors >= 1,
        turns_before(u, v),
    ensures
        pseudo_angle_of(u, sectors) <= pseudo_angle_of(v, sectors),
{
    lemma_turn_num_bounds(u);
    lemma_turn_num_bounds(v);
    let lu = diamond_len(u);
    let lv = diamond_len(v);
    let nu = quarter_part(u);
    let nv = quarter_part(v);
    let qu = quadrant(u);
    let qv = quadrant(v);
    let tu = turn_num(u);
    let tv = turn_num(v);
    let ux = u.0 as int;
    let uy = u.1 as int;
    let vx = v.0 as int;
    let vy = v.1 as int;
    assert(tu * lv <= tv * lu) by {
        if qu == qv {
            assert(nu * lv <= nv * lu) by (nonlinear_arith)
                requires
                    ux * vy - uy * vx >= 0,
                    (nu == uy && lu == ux + uy && nv == vy && lv == vx + vy) || (nu == -ux && lu
                        == uy - ux && nv == -vx && lv == vy - vx) || (nu == -uy && lu == -ux - uy
                        && nv == -vy && lv == -vx - vy) || (nu == ux && lu == ux - uy && nv == vx
                        && lv == vx - vy),
            ;
            assert(tu * lv <= tv * lu) by (nonlinear_arith)
                requires
                    tu == qu * lu + nu,
                    tv == qu * lv + nv,
                    nu * lv <= nv * lu,
            ;
        } else {
            assert(tu * lv <= tv * lu) by (nonlinear_arith)
                requires
                    tu == qu * lu + nu,
                    tv == qv * lv + nv,
                    0 <= nu < lu,
                    0 <= nv,
                    0 <= qu,
                    qu + 1 <= qv,
                    lv > 0,
            ;
        }
    }
    assert((tu * sectors) * (4 * lv) <= (tv * sectors) * (4 * lu)) by (nonlinear_arith)
        requires
            tu * lv <= tv * lu,
            sectors >= 1,
    ;
    assert(tu * sectors >= 0 && tv * sectors >= 0) by (nonlinear_arith)
        requires
            tu >= 0,
            tv >= 0,
            sectors >= 1,
    ;
    lemma_div_ordered(tu * sectors, 4 * lu, tv * sectors, 4 * lv);
}

/// The sector of the direction `d` among `sectors` equal parts of the full
/// turn.
pub fn pseudo_angle(d: Dir, sectors: usize) -> (r: usize)
    requires
        d != (0i64, 0i64),
        dir_in_range(d),
        sectors >= 1,
    ensures
        r == pseudo_angle_of(d, sectors as int),
        r < sectors,
{
    let x: i128 = d.0 as i128;
    let y: i128 = d.1 as i128;
    let ax: i128 = if x >= 0 {
        x
    } else {
        -x
    };
    let ay: i128 = if y >= 0 {
        y
    } else {
        -y
    };
    let len: i128 = ax + ay;
    let quarter: i128 = if y >= 0 && x > 0 {
        0
    } else if x <= 0 && y > 0 {
        1
    } else if y <= 0 && x < 0 {
        2
    } else {
        3
    };
    let part: i128 = if quarter == 0 {
        y
    } else if quarter == 1 {
        -x
    } else if quarter == 2 {
        -y
    } else {
        x
    };
    proof {
        lemma_turn_num_bounds(d);
        lemma_mul_bounded_by(quarter as int, len as int, 3, 0x4_0000_0000);
    }
    let num: i128 = quarter * len + part;
    proof {
        lemma_mul_bounded_by(num as int, sectors as int, 0x10_0000_0000, usize::MAX as int);
        assert(0 <= num * sectors && num * sectors < (4 * len) * sectors) by (nonlinear_arith)
            requires
                0 <= num < 4 * len,
                sectors >= 1,
        ;
        lemma_div_below(num * sectors, 4 * len as int, sectors as int);
    }
    let r: i128 = (num * (sectors as i128)) / (4 * len);
    r as usize
}

} // verus!
