//! Polynomial identities behind the geometric arguments.
//!
//! Everything here is stated on plain integer coordinates, so that each
//! proof step is a small identity that the arithmetic solver can check.
use vstd::prelude::*;
use crate::predicates::{det2, sq_len};

verus! {

/// Orientation determinant on coordinates.
pub open spec fn ori(ax: int, ay: int, bx: int, by: int, cx: int, cy: int) -> int {
    det2(bx - ax, by - ay, cx - ax, cy - ay)
}

/// In-circle determinant on coordinates, taken relative to `d`.
pub open spec fn inc(
    ax: int,
    ay: int,
    bx: int,
    by: int,
    cx: int,
    cy: int,
    dx: int,
    dy: int,
) -> int {
    sq_len(ax - dx, ay - dy) * det2(bx - dx, by - dy, cx - dx, cy - dy) - sq_len(bx - dx, by - dy)
        * det2(ax - dx, ay - dy, cx - dx, cy - dy) + sq_len(cx - dx, cy - dy) * det2(
        ax - dx,
        ay - dy,
        bx - dx,
        by - dy,
    )
}

/// In-circle determinant expanded along the column of squared lengths, with
/// every point taken relative to a common origin.
pub open spec fn inc_sym(
    ax: int,
    ay: int,
    bx: int,
    by: int,
    cx: int,
    cy: int,
    dx: int,
    dy: int,
) -> int {
    sq_len(ax, ay) * ori(bx, by, cx, cy, dx, dy) - sq_len(bx, by) * ori(ax, ay, cx, cy, dx, dy)
        + sq_len(cx, cy) * ori(ax, ay, bx, by, dx, dy) - sq_len(dx, dy) * ori(
        ax,
        ay,
        bx,
        by,
        cx,
        cy,
    )
}

/// The determinant of two vectors is antisymmetric and vanishes on equal
/// arguments; it is additive in each argument.
pub proof fn lemma_det2_linear(ux: int, uy: int, vx: int, vy: int, wx: int, wy: int)
    by (nonlinear_arith)
    ensures
        det2(ux, uy, vx, vy) == -det2(vx, vy, ux, uy),
        det2(ux, uy, ux, uy) == 0,
        det2(ux - wx, uy - wy, vx, vy) == det2(ux, uy, vx, vy) - det2(wx, wy, vx, vy),
        det2(ux, uy, vx - wx, vy - wy) == det2(ux, uy, vx, vy) - det2(ux, uy, wx, wy),
        det2(-ux, -uy, vx, vy) == -det2(ux, uy, vx, vy),
        det2(ux, uy, -vx, -vy) == -det2(ux, uy, vx, vy),
{
}

/// The orientation determinant in terms of the determinants of its corners
/// taken as vectors.
pub proof fn lemma_ori_expand(ax: int, ay: int, bx: int, by: int, cx: int, cy: int)
    ensures
        ori(ax, ay, bx, by, cx, cy) == det2(ax, ay, bx, by) + det2(bx, by, cx, cy) + det2(
            cx,
            cy,
            ax,
            ay,
        ),
{
    lemma_det2_linear(bx, by, cx - ax, cy - ay, ax, ay);
    lemma_det2_linear(bx, by, cx, cy, ax, ay);
    lemma_det2_linear(ax, ay, cx, cy, ax, ay);
    lemma_det2_linear(ax, ay, bx, by, ax, ay);
    lemma_det2_linear(cx, cy, ax, ay, ax, ay);
}

/// The three determinants of three plane vectors, weighted by one coordinate
/// of the remaining vector, cancel.
pub proof fn lemma_det2_cyclic(ux: int, uy: int, vx: int, vy: int, wx: int, wy: int)
    ensures
        ux * det2(vx, vy, wx, wy) + vx * det2(wx, wy, ux, uy) + wx * det2(ux, uy, vx, vy) == 0,
        uy * det2(vx, vy, wx, wy) + vy * det2(wx, wy, ux, uy) + wy * det2(ux, uy, vx, vy) == 0,
{
    lemma_times_det2(ux, vx, vy, wx, wy);
    lemma_times_det2(vx, wx, wy, ux, uy);
    lemma_times_det2(wx, ux, uy, vx, vy);
    lemma_times_det2(uy, vx, vy, wx, wy);
    lemma_times_det2(vy, wx, wy, ux, uy);
    lemma_times_det2(wy, ux, uy, vx, vy);
    lemma_mul3_rotate(ux, vx, wy);
    lemma_mul3_rotate(ux, vy, wx);
    lemma_mul3_rotate(vx, wx, uy);
    lemma_mul3_rotate(uy, vx, wy);
    lemma_mul3_rotate(uy, vy, wx);
    lemma_mul3_rotate(vy, wy, ux);
}

/// A factor times a determinant, term by term.
pub proof fn lemma_times_det2(k: int, vx: int, vy: int, wx: int, wy: int)
    by (nonlinear_arith)
    ensures
        k * det2(vx, vy, wx, wy) == k * vx * wy - k * vy * wx,
{
}

/// A product of three factors in its rotated orders.
pub proof fn lemma_mul3_rotate(x: int, y: int, z: int)
    by (nonlinear_arith)
    ensures
        x * y * z == y * z * x,
        x * y * z == z * x * y,
        x * y * z == y * x * z,
        x * y * z == x * z * y,
        x * y * z == z * y * x,
{
}

/// The squared length of a point in terms of its offset from `d`.
pub proof fn lemma_sq_len_shift(x: int, y: int, dx: int, dy: int)
    by (nonlinear_arith)
    ensures
        sq_len(x, y) == sq_len(x - dx, y - dy) + 2 * ((x - dx) * dx + (y - dy) * dy) + sq_len(
            dx,
            dy,
        ),
{
}

/// The two forms of the in-circle determinant agree.
pub proof fn lemma_inc_sym(
    ax: int,
    ay: int,
    bx: int,
    by: int,
    cx: int,
    cy: int,
    dx: int,
    dy: int,
)
    ensures
        inc(ax, ay, bx, by, cx, cy, dx, dy) == inc_sym(ax, ay, bx, by, cx, cy, dx, dy),
{
    let ux = ax - dx;
    let uy = ay - dy;
    let vx = bx - dx;
    let vy = by - dy;
    let wx = cx - dx;
    let wy = cy - dy;
    let dbc = det2(vx, vy, wx, wy);
    let dca = det2(wx, wy, ux, uy);
    let dab = det2(ux, uy, vx, vy);
    let na = sq_len(ux, uy);
    let nb = sq_len(vx, vy);
    let nc = sq_len(wx, wy);
    let nd = sq_len(dx, dy);
    let ea = ux * dx + uy * dy;
    let eb = vx * dx + vy * dy;
    let ec = wx * dx + wy * dy;
    lemma_det2_linear(ux, uy, wx, wy, 0, 0);
    assert(det2(ux, uy, wx, wy) == -dca);
    assert(inc(ax, ay, bx, by, cx, cy, dx, dy) == na * dbc - nb * (-dca) + nc * dab);
    assert(nb * (-dca) == -(nb * dca)) by (nonlinear_arith);
    // orientations in terms of the three determinants
    lemma_ori_expand(bx, by, cx, cy, dx, dy);
    lemma_ori_expand(vx, vy, wx, wy, 0, 0);
    assert(ori(bx, by, cx, cy, dx, dy) == ori(vx, vy, wx, wy, 0, 0));
    lemma_ori_rel(ax, ay, bx, by, cx, cy, dx, dy);
    let oa = ori(bx, by, cx, cy, dx, dy);
    let ob = ori(ax, ay, cx, cy, dx, dy);
    let oc = ori(ax, ay, bx, by, dx, dy);
    let od = ori(ax, ay, bx, by, cx, cy);
    assert(oa == dbc && ob == -dca && oc == dab && od == dbc + dca + dab);
    lemma_sq_len_shift(ax, ay, dx, dy);
    lemma_sq_len_shift(bx, by, dx, dy);
    lemma_sq_len_shift(cx, cy, dx, dy);
    let sa = sq_len(ax, ay);
    let sb = sq_len(bx, by);
    let sc = sq_len(cx, cy);
    assert(sa == na + 2 * ea + nd);
    assert(sb == nb + 2 * eb + nd);
    assert(sc == nc + 2 * ec + nd);
    assert(sa * oa == na * dbc + 2 * (ea * dbc) + nd * dbc) by (nonlinear_arith)
        requires
            sa == na + 2 * ea + nd,
            oa == dbc,
    ;
    assert(sb * ob == -(nb * dca) - 2 * (eb * dca) - nd * dca) by (nonlinear_arith)
        requires
            sb == nb + 2 * eb + nd,
            ob == -dca,
    ;
    assert(sc * oc == nc * dab + 2 * (ec * dab) + nd * dab) by (nonlinear_arith)
        requires
            sc == nc + 2 * ec + nd,
            oc == dab,
    ;
    assert(nd * od == nd * dbc + nd * dca + nd * dab) by (nonlinear_arith)
        requires
            od == dbc + dca + dab,
    ;
    lemma_det2_cyclic(ux, uy, vx, vy, wx, wy);
    lemma_dot_times(ux, uy, dx, dy, dbc);
    lemma_dot_times(vx, vy, dx, dy, dca);
    lemma_dot_times(wx, wy, dx, dy, dab);
    let gx = ux * dbc + vx * dca + wx * dab;
    let gy = uy * dbc + vy * dca + wy * dab;
    assert(dx * gx == dx * (ux * dbc) + dx * (vx * dca) + dx * (wx * dab)) by (nonlinear_arith)
        requires
            gx == ux * dbc + vx * dca + wx * dab,
    ;
    assert(dy * gy == dy * (uy * dbc) + dy * (vy * dca) + dy * (wy * dab)) by (nonlinear_arith)
        requires
            gy == uy * dbc + vy * dca + wy * dab,
    ;
    assert(ea * dbc + eb * dca + ec * dab == 0);
}

/// A dot product times a scalar, term by term.
pub proof fn lemma_dot_times(ux: int, uy: int, dx: int, dy: int, p: int)
    by (nonlinear_arith)
    ensures
        (ux * dx + uy * dy) * p == dx * (ux * p) + dy * (uy * p),
{
}

/// Orientations of the corners of a quadrilateral, relative to `d`.
pub proof fn lemma_ori_rel(
    ax: int,
    ay: int,
    bx: int,
    by: int,
    cx: int,
    cy: int,
    dx: int,
    dy: int,
)
    ensures
        ori(bx, by, cx, cy, dx, dy) == det2(bx - dx, by - dy, cx - dx, cy - dy),
        ori(ax, ay, cx, cy, dx, dy) == det2(ax - dx, ay - dy, cx - dx, cy - dy),
        ori(ax, ay, bx, by, dx, dy) == det2(ax - dx, ay - dy, bx - dx, by - dy),
        ori(ax, ay, bx, by, cx, cy) == det2(bx - dx, by - dy, cx - dx, cy - dy) + det2(
            cx - dx,
            cy - dy,
            ax - dx,
            ay - dy,
        ) + det2(ax - dx, ay - dy, bx - dx, by - dy),
{
    lemma_ori_shift(bx, by, cx, cy, dx, dy, dx, dy);
    lemma_ori_shift(ax, ay, cx, cy, dx, dy, dx, dy);
    lemma_ori_shift(ax, ay, bx, by, dx, dy, dx, dy);
    lemma_ori_shift(ax, ay, bx, by, cx, cy, dx, dy);
    lemma_ori_expand(bx - dx, by - dy, cx - dx, cy - dy, 0, 0);
    lemma_ori_expand(ax - dx, ay - dy, cx - dx, cy - dy, 0, 0);
    lemma_ori_expand(ax - dx, ay - dy, bx - dx, by - dy, 0, 0);
    lemma_ori_expand(ax - dx, ay - dy, bx - dx, by - dy, cx - dx, cy - dy);
    lemma_det2_zero(bx - dx, by - dy);
    lemma_det2_zero(cx - dx, cy - dy);
    lemma_det2_zero(ax - dx, ay - dy);
}

/// A determinant with a zero vector vanishes.
pub proof fn lemma_det2_zero(ux: int, uy: int)
    by (nonlinear_arith)
    ensures
        det2(ux, uy, 0, 0) == 0,
        det2(0, 0, ux, uy) == 0,
{
}

/// The orientation determinant does not change when all points are shifted
/// alike.
pub proof fn lemma_ori_shift(
    ax: int,
    ay: int,
    bx: int,
    by: int,
    cx: int,
    cy: int,
    tx: int,
    ty: int,
)
    ensures
        ori(ax, ay, bx, by, cx, cy) == ori(ax - tx, ay - ty, bx - tx, by - ty, cx - tx, cy - ty),
{
    assert((bx - tx) - (ax - tx) == bx - ax);
    assert((by - ty) - (ay - ty) == by - ay);
    assert((cx - tx) - (ax - tx) == cx - ax);
    assert((cy - ty) - (ay - ty) == cy - ay);
}

/// The orientation determinant is unchanged by rotating its arguments and
/// negated by exchanging two of them.
pub proof fn lemma_ori_permuted(ax: int, ay: int, bx: int, by: int, cx: int, cy: int)
    ensures
        ori(bx, by, cx, cy, ax, ay) == ori(ax, ay, bx, by, cx, cy),
        ori(cx, cy, ax, ay, bx, by) == ori(ax, ay, bx, by, cx, cy),
        ori(bx, by, ax, ay, cx, cy) == -ori(ax, ay, bx, by, cx, cy),
        ori(ax, ay, cx, cy, bx, by) == -ori(ax, ay, bx, by, cx, cy),
        ori(cx, cy, bx, by, ax, ay) == -ori(ax, ay, bx, by, cx, cy),
{
    lemma_ori_expand(ax, ay, bx, by, cx, cy);
    lemma_ori_expand(bx, by, cx, cy, ax, ay);
    lemma_ori_expand(cx, cy, ax, ay, bx, by);
    lemma_ori_expand(bx, by, ax, ay, cx, cy);
    lemma_ori_expand(ax, ay, cx, cy, bx, by);
    lemma_ori_expand(cx, cy, bx, by, ax, ay);
    lemma_det2_linear(ax, ay, bx, by, 0, 0);
    lemma_det2_linear(bx, by, cx, cy, 0, 0);
    lemma_det2_linear(cx, cy, ax, ay, 0, 0);
}

/// A product with a negated factor.
pub proof fn lemma_mul_neg(x: int, y: int)
    by (nonlinear_arith)
    ensures
        x * (-y) == -(x * y),
        (-x) * y == -(x * y),
{
}

/// Exchanging the diagonal of a quadrilateral negates the in-circle
/// determinant; seen from the twin edge, or from the next edge of the same
/// triangle, it is unchanged.
pub proof fn lemma_inc_permuted(
    ax: int,
    ay: int,
    bx: int,
    by: int,
    cx: int,
    cy: int,
    dx: int,
    dy: int,
)
    ensures
        inc(cx, cy, dx, dy, bx, by, ax, ay) == -inc(ax, ay, bx, by, cx, cy, dx, dy),
        inc(bx, by, ax, ay, dx, dy, cx, cy) == inc(ax, ay, bx, by, cx, cy, dx, dy),
{
    lemma_inc_sym(ax, ay, bx, by, cx, cy, dx, dy);
    lemma_inc_sym(cx, cy, dx, dy, bx, by, ax, ay);
    lemma_inc_sym(bx, by, ax, ay, dx, dy, cx, cy);
    let na = sq_len(ax, ay);
    let nb = sq_len(bx, by);
    let nc = sq_len(cx, cy);
    let nd = sq_len(dx, dy);
    let oa = ori(bx, by, cx, cy, dx, dy);
    let ob = ori(ax, ay, cx, cy, dx, dy);
    let oc = ori(ax, ay, bx, by, dx, dy);
    let od = ori(ax, ay, bx, by, cx, cy);
    lemma_ori_permuted(bx, by, cx, cy, dx, dy);
    lemma_ori_permuted(ax, ay, cx, cy, dx, dy);
    lemma_ori_permuted(ax, ay, bx, by, dx, dy);
    lemma_ori_permuted(ax, ay, bx, by, cx, cy);
    lemma_mul_neg(na, oa);
    lemma_mul_neg(nb, ob);
    lemma_mul_neg(nc, oc);
    lemma_mul_neg(nd, od);
    // inc_sym(c, d, b, a)
    assert(ori(dx, dy, bx, by, ax, ay) == -oc);
    assert(ori(cx, cy, bx, by, ax, ay) == -od);
    assert(ori(cx, cy, dx, dy, ax, ay) == ob);
    assert(ori(cx, cy, dx, dy, bx, by) == oa);
    // inc_sym(b, a, d, c)
    assert(ori(ax, ay, dx, dy, cx, cy) == -ob);
    assert(ori(bx, by, dx, dy, cx, cy) == -oa);
    assert(ori(bx, by, ax, ay, cx, cy) == -od);
    assert(ori(bx, by, ax, ay, dx, dy) == -oc);
}

/// The in-circle determinant does not change when all points are shifted
/// alike.
pub proof fn lemma_inc_shift(
    ax: int,
    ay: int,
    bx: int,
    by: int,
    cx: int,
    cy: int,
    dx: int,
    dy: int,
    tx: int,
    ty: int,
)
    ensures
        inc(ax, ay, bx, by, cx, cy, dx, dy) == inc(
            ax - tx,
            ay - ty,
            bx - tx,
            by - ty,
            cx - tx,
            cy - ty,
            dx - tx,
            dy - ty,
        ),
{
    assert((ax - tx) - (dx - tx) == ax - dx);
    assert((ay - ty) - (dy - ty) == ay - dy);
    assert((bx - tx) - (dx - tx) == bx - dx);
    assert((by - ty) - (dy - ty) == by - dy);
    assert((cx - tx) - (dx - tx) == cx - dx);
    assert((cy - ty) - (dy - ty) == cy - dy);
}

/// A squared length is never negative, and a product of a non-negative and a
/// positive number is not negative.
pub proof fn lemma_sq_len_nonneg(x: int, y: int)
    by (nonlinear_arith)
    ensures
        sq_len(x, y) >= 0,
        sq_len(x, y) == 0 ==> x == 0 && y == 0,
{
}

/// If `n * o` is positive and `n` is not negative, `o` is positive.
pub proof fn lemma_pos_factor(n: int, o: int)
    by (nonlinear_arith)
    requires
        n >= 0,
        n * o > 0,
    ensures
        o > 0,
{
}

/// A product of two non-negative numbers is not negative.
pub proof fn lemma_mul_nonneg(x: int, y: int)
    by (nonlinear_arith)
    requires
        x >= 0,
        y >= 0,
    ensures
        x * y >= 0,
{
}

/// With `a b c` and `b a d` both counter-clockwise and `d` strictly inside
/// the circle through `a`, `b`, `c`, the corner at `b` of the quadrilateral
/// `a d b c` is convex: `c d b` winds counter-clockwise.
pub proof fn lemma_flip_convex_at_b(
    ax: int,
    ay: int,
    bx: int,
    by: int,
    cx: int,
    cy: int,
    dx: int,
    dy: int,
)
    requires
        ori(ax, ay, bx, by, cx, cy) > 0,
        ori(bx, by, ax, ay, dx, dy) > 0,
        inc(ax, ay, bx, by, cx, cy, dx, dy) > 0,
    ensures
        ori(cx, cy, dx, dy, bx, by) > 0,
{
    let ux = ax - bx;
    let uy = ay - by;
    let wx = cx - bx;
    let wy = cy - by;
    let zx = dx - bx;
    let zy = dy - by;
    lemma_inc_shift(ax, ay, bx, by, cx, cy, dx, dy, bx, by);
    lemma_inc_sym(ux, uy, 0, 0, wx, wy, zx, zy);
    lemma_ori_shift(bx, by, cx, cy, dx, dy, bx, by);
    lemma_ori_shift(ax, ay, bx, by, dx, dy, bx, by);
    lemma_ori_shift(ax, ay, bx, by, cx, cy, bx, by);
    lemma_ori_permuted(bx, by, cx, cy, dx, dy);
    lemma_ori_permuted(ax, ay, bx, by, dx, dy);
    let o3 = ori(cx, cy, dx, dy, bx, by);
    let o2 = ori(bx, by, ax, ay, dx, dy);
    let o1 = ori(ax, ay, bx, by, cx, cy);
    let nu = sq_len(ux, uy);
    let nw = sq_len(wx, wy);
    let nz = sq_len(zx, zy);
    assert(ori(0, 0, wx, wy, zx, zy) == o3);
    assert(ori(ux, uy, 0, 0, zx, zy) == -o2);
    assert(ori(ux, uy, 0, 0, wx, wy) == o1);
    assert(sq_len(0, 0) == 0);
    assert(sq_len(0, 0) * ori(ux, uy, wx, wy, zx, zy) == 0) by (nonlinear_arith)
        requires
            sq_len(0, 0) == 0,
    ;
    lemma_mul_neg(nw, o2);
    assert(inc(ax, ay, bx, by, cx, cy, dx, dy) == nu * o3 - nw * o2 - nz * o1);
    lemma_sq_len_nonneg(ux, uy);
    lemma_sq_len_nonneg(wx, wy);
    lemma_sq_len_nonneg(zx, zy);
    lemma_mul_nonneg(nw, o2);
    lemma_mul_nonneg(nz, o1);
    lemma_pos_factor(nu, o3);
}

/// Under the conditions of `lemma_flip_convex_at_b`, both triangles that the
/// other diagonal makes wind counter-clockwise.
pub proof fn lemma_flip_convex(
    ax: int,
    ay: int,
    bx: int,
    by: int,
    cx: int,
    cy: int,
    dx: int,
    dy: int,
)
    requires
        ori(ax, ay, bx, by, cx, cy) > 0,
        ori(bx, by, ax, ay, dx, dy) > 0,
        inc(ax, ay, bx, by, cx, cy, dx, dy) > 0,
    ensures
        ori(cx, cy, dx, dy, bx, by) > 0,
        ori(dx, dy, cx, cy, ax, ay) > 0,
{
    lemma_flip_convex_at_b(ax, ay, bx, by, cx, cy, dx, dy);
    // The same quadrilateral seen from the twin edge `b a`, whose apex is `d`.
    lemma_inc_permuted(ax, ay, bx, by, cx, cy, dx, dy);
    lemma_flip_convex_at_b(bx, by, ax, ay, dx, dy, cx, cy);
}

/// Area of a triangle weighted by the squared lengths of its corners.
pub open spec fn wt(ax: int, ay: int, bx: int, by: int, cx: int, cy: int) -> int {
    ori(ax, ay, bx, by, cx, cy) * (sq_len(ax, ay) + sq_len(bx, by) + sq_len(cx, cy))
}

/// A product with a sum of three terms.
pub proof fn lemma_mul_sum3(o: int, x: int, y: int, z: int)
    by (nonlinear_arith)
    ensures
        o * (x + y + z) == x * o + y * o + z * o,
{
}

/// A sum of three terms times a factor.
pub proof fn lemma_sum3_mul(n: int, x: int, y: int, z: int)
    by (nonlinear_arith)
    ensures
        n * (x + y + z) == n * x + n * y + n * z,
{
}

/// Replacing the diagonal `a b` of a quadrilateral by `c d` lowers the summed
/// weight of its two triangles by exactly the in-circle determinant.
pub proof fn lemma_flip_weight(
    ax: int,
    ay: int,
    bx: int,
    by: int,
    cx: int,
    cy: int,
    dx: int,
    dy: int,
)
    ensures
        wt(ax, ay, bx, by, cx, cy) + wt(bx, by, ax, ay, dx, dy) - wt(cx, cy, dx, dy, bx, by) - wt(
            dx,
            dy,
            cx,
            cy,
            ax,
            ay,
        ) == inc(ax, ay, bx, by, cx, cy, dx, dy),
{
    let na = sq_len(ax, ay);
    let nb = sq_len(bx, by);
    let nc = sq_len(cx, cy);
    let nd = sq_len(dx, dy);
    let o1 = ori(ax, ay, bx, by, cx, cy);
    let o2 = ori(bx, by, ax, ay, dx, dy);
    let o3 = ori(cx, cy, dx, dy, bx, by);
    let o4 = ori(dx, dy, cx, cy, ax, ay);
    lemma_inc_sym(ax, ay, bx, by, cx, cy, dx, dy);
    lemma_ori_permuted(bx, by, cx, cy, dx, dy);
    lemma_ori_permuted(ax, ay, cx, cy, dx, dy);
    lemma_ori_permuted(ax, ay, bx, by, dx, dy);
    assert(ori(bx, by, cx, cy, dx, dy) == o3);
    assert(ori(ax, ay, cx, cy, dx, dy) == -o4);
    assert(ori(ax, ay, bx, by, dx, dy) == -o2);
    lemma_mul_neg(nb, o4);
    lemma_mul_neg(nc, o2);
    assert(inc(ax, ay, bx, by, cx, cy, dx, dy) == na * o3 + nb * o4 - nc * o2 - nd * o1);
    lemma_ori_expand(ax, ay, bx, by, cx, cy);
    lemma_ori_expand(bx, by, ax, ay, dx, dy);
    lemma_ori_expand(cx, cy, dx, dy, bx, by);
    lemma_ori_expand(dx, dy, cx, cy, ax, ay);
    lemma_det2_linear(ax, ay, bx, by, 0, 0);
    lemma_det2_linear(cx, cy, dx, dy, 0, 0);
    assert(o1 + o2 == o3 + o4);
    lemma_mul_sum3(o1, na, nb, nc);
    lemma_mul_sum3(o2, nb, na, nd);
    lemma_mul_sum3(o3, nc, nd, nb);
    lemma_mul_sum3(o4, nd, nc, na);
    lemma_sum3_mul(na, o1, o2, -o4);
    lemma_sum3_mul(nb, o1, o2, -o3);
    lemma_sum3_mul(nc, o1, -o3, -o4);
    lemma_sum3_mul(nd, o2, -o3, -o4);
    lemma_mul_neg(na, o4);
    lemma_mul_neg(nb, o3);
    lemma_mul_neg(nc, o3);
    lemma_mul_neg(nc, o4);
    lemma_mul_neg(nd, o3);
    lemma_mul_neg(nd, o4);
    assert(o1 + o2 - o4 == o3);
    assert(o1 + o2 - o3 == o4);
    assert(o1 - o3 - o4 == -o2);
    assert(o2 - o3 - o4 == -o1);
    lemma_mul_neg(nd, o1);
}

/// The quadratic relation between the six determinants of four plane
/// vectors.
pub proof fn lemma_det2_four(
    ux: int,
    uy: int,
    vx: int,
    vy: int,
    wx: int,
    wy: int,
    zx: int,
    zy: int,
)
    ensures
        det2(ux, uy, vx, vy) * det2(wx, wy, zx, zy) - det2(ux, uy, wx, wy) * det2(vx, vy, zx, zy)
            + det2(ux, uy, zx, zy) * det2(vx, vy, wx, wy) == 0,
{
    let k1 = det2(wx, wy, zx, zy);
    let k2 = det2(zx, zy, vx, vy);
    let k3 = det2(vx, vy, wx, wy);
    lemma_det2_cyclic(vx, vy, wx, wy, zx, zy);
    lemma_det2_linear(vx, vy, zx, zy, 0, 0);
    assert(k2 == -det2(vx, vy, zx, zy));
    let gx = vx * k1 + wx * k2 + zx * k3;
    let gy = vy * k1 + wy * k2 + zy * k3;
    assert(gx == 0 && gy == 0);
    lemma_det2_times(ux, uy, vx, vy, k1);
    lemma_det2_times(ux, uy, wx, wy, k2);
    lemma_det2_times(ux, uy, zx, zy, k3);
    lemma_sum3_mul(ux, vy * k1, wy * k2, zy * k3);
    lemma_sum3_mul(uy, vx * k1, wx * k2, zx * k3);
    assert(ux * gy == 0) by (nonlinear_arith)
        requires
            gy == 0,
    ;
    assert(uy * gx == 0) by (nonlinear_arith)
        requires
            gx == 0,
    ;
    lemma_mul_neg(det2(ux, uy, wx, wy), det2(vx, vy, zx, zy));
}

/// A determinant times a factor, term by term.
pub proof fn lemma_det2_times(ux: int, uy: int, vx: int, vy: int, k: int)
    by (nonlinear_arith)
    ensures
        det2(ux, uy, vx, vy) * k == ux * (vy * k) - uy * (vx * k),
{
}

/// The direction `d` lies in the wedge that opens counter-clockwise from `a`
/// to `b`: the wedge is narrower than a half turn, holds the ray through `a`
/// and leaves out the ray through `b`.
pub open spec fn in_wedge(ax: int, ay: int, bx: int, by: int, dx: int, dy: int) -> bool {
    &&& det2(ax, ay, bx, by) > 0
    &&& det2(ax, ay, dx, dy) >= 0
    &&& det2(dx, dy, bx, by) > 0
}

/// A product of two positive numbers is positive.
pub proof fn lemma_mul_pos(x: int, y: int)
    by (nonlinear_arith)
    requires
        x > 0,
        y > 0,
    ensures
        x * y > 0,
{
}

/// If `n * o` is not negative and `n` is positive, `o` is not negative.
pub proof fn lemma_nonneg_factor(n: int, o: int)
    by (nonlinear_arith)
    requires
        n > 0,
        n * o >= 0,
    ensures
        o >= 0,
{
}

/// A direction inside a wedge splits it in two; every direction of the
/// wedge lies in one of the parts.
pub proof fn lemma_wedge_split(
    ax: int,
    ay: int,
    bx: int,
    by: int,
    px: int,
    py: int,
    dx: int,
    dy: int,
)
    requires
        in_wedge(ax, ay, bx, by, px, py),
        in_wedge(ax, ay, bx, by, dx, dy),
    ensures
        in_wedge(ax, ay, px, py, dx, dy) || in_wedge(px, py, bx, by, dx, dy),
{
    if det2(px, py, dx, dy) < 0 {
        lemma_det2_linear(px, py, dx, dy, 0, 0);
        lemma_det2_linear(bx, by, px, py, 0, 0);
        assert(det2(dx, dy, px, py) > 0);
        if det2(ax, ay, px, py) == 0 {
            lemma_det2_four(ax, ay, bx, by, dx, dy, px, py);
            let x = det2(ax, ay, bx, by);
            let t = det2(ax, ay, px, py);
            assert(t * det2(bx, by, dx, dy) == 0) by (nonlinear_arith)
                requires
                    t == 0,
            ;
            lemma_mul_pos(x, det2(dx, dy, px, py));
            lemma_mul_neg(det2(ax, ay, dx, dy), det2(px, py, bx, by));
            lemma_mul_nonneg(det2(ax, ay, dx, dy), det2(px, py, bx, by));
            assert(false);
        }
    }
}

/// Two adjacent wedges whose union is narrower than a half turn merge into
/// one; every direction of either lies in the merged wedge.
pub proof fn lemma_wedge_merge(
    px: int,
    py: int,
    bx: int,
    by: int,
    qx: int,
    qy: int,
    dx: int,
    dy: int,
)
    requires
        det2(px, py, qx, qy) > 0,
        det2(px, py, bx, by) >= 0,
        det2(bx, by, qx, qy) >= 0,
        in_wedge(px, py, bx, by, dx, dy) || in_wedge(bx, by, qx, qy, dx, dy),
    ensures
        in_wedge(px, py, qx, qy, dx, dy),
{
    lemma_det2_four(px, py, bx, by, dx, dy, qx, qy);
    lemma_det2_linear(bx, by, dx, dy, 0, 0);
    let pb = det2(px, py, bx, by);
    let dq = det2(dx, dy, qx, qy);
    let pd = det2(px, py, dx, dy);
    let bq = det2(bx, by, qx, qy);
    let pq = det2(px, py, qx, qy);
    let db = det2(dx, dy, bx, by);
    lemma_mul_neg(pq, db);
    assert(pb * dq - pd * bq - pq * db == 0);
    if in_wedge(px, py, bx, by, dx, dy) {
        lemma_mul_nonneg(pd, bq);
        lemma_mul_pos(pq, db);
        lemma_pos_factor(pb, dq);
    } else {
        lemma_mul_nonneg(pb, dq);
        lemma_mul_neg(pq, db);
        lemma_mul_nonneg(pq, -db);
        lemma_mul_comm(bq, pd);
        lemma_nonneg_factor(bq, pd);
    }
}

/// Multiplication commutes.
pub proof fn lemma_mul_comm(x: int, y: int)
    by (nonlinear_arith)
    ensures
        x * y == y * x,
{
}

/// The three wedges between the corners of a triangle that holds the origin
/// strictly inside cover every direction.
pub proof fn lemma_wedge_seed(
    ax: int,
    ay: int,
    bx: int,
    by: int,
    cx: int,
    cy: int,
    dx: int,
    dy: int,
)
    requires
        det2(ax, ay, bx, by) > 0,
        det2(bx, by, cx, cy) > 0,
        det2(cx, cy, ax, ay) > 0,
        dx != 0 || dy != 0,
    ensures
        in_wedge(ax, ay, bx, by, dx, dy) || in_wedge(bx, by, cx, cy, dx, dy) || in_wedge(
            cx,
            cy,
            ax,
            ay,
            dx,
            dy,
        ),
{
    let d0 = det2(ax, ay, dx, dy);
    let d1 = det2(bx, by, dx, dy);
    let d2 = det2(cx, cy, dx, dy);
    let k0 = det2(bx, by, cx, cy);
    let k1 = det2(cx, cy, ax, ay);
    let k2 = det2(ax, ay, bx, by);
    lemma_det2_linear(dx, dy, ax, ay, 0, 0);
    lemma_det2_linear(dx, dy, bx, by, 0, 0);
    lemma_det2_linear(dx, dy, cx, cy, 0, 0);
    lemma_det2_linear(ax, ay, cx, cy, 0, 0);
    lemma_det2_four(dx, dy, ax, ay, bx, by, cx, cy);
    lemma_mul_neg(d0, k0);
    lemma_mul_neg(d1, k1);
    lemma_mul_neg(d2, k2);
    lemma_mul_neg(-d1, k1);
    assert(d0 * k0 + d1 * k1 + d2 * k2 == 0);
    if d0 < 0 && d1 < 0 && d2 < 0 {
        lemma_mul_pos(-d0, k0);
        lemma_mul_pos(-d1, k1);
        lemma_mul_pos(-d2, k2);
        assert(false);
    }
    if d0 >= 0 && d1 >= 0 && d2 >= 0 {
        lemma_mul_nonneg(d0, k0);
        lemma_mul_nonneg(d1, k1);
        lemma_mul_nonneg(d2, k2);
        if d0 > 0 {
            lemma_mul_pos(d0, k0);
        }
        if d1 > 0 {
            lemma_mul_pos(d1, k1);
        }
        assert(d0 == 0 && d1 == 0);
        lemma_det2_cyclic(dx, dy, ax, ay, bx, by);
        assert(ax * det2(bx, by, dx, dy) == 0 && ay * det2(bx, by, dx, dy) == 0)
            by (nonlinear_arith)
            requires
                det2(bx, by, dx, dy) == 0,
        ;
        assert(bx * det2(dx, dy, ax, ay) == 0 && by * det2(dx, dy, ax, ay) == 0)
            by (nonlinear_arith)
            requires
                det2(dx, dy, ax, ay) == 0,
        ;
        assert(dx * k2 == 0 && dy * k2 == 0);
        assert(false) by (nonlinear_arith)
            requires
                dx * k2 == 0,
                dy * k2 == 0,
                k2 > 0,
                dx != 0 || dy != 0,
        ;
    }
}

/// Offsets from a common center, each scaled by six, have thirty-six times
/// the orientation determinant of the points themselves.
pub proof fn lemma_ori_scaled(
    ax: int,
    ay: int,
    bx: int,
    by: int,
    cx: int,
    cy: int,
    ox: int,
    oy: int,
)
    ensures
        ori(6 * ax - ox, 6 * ay - oy, 6 * bx - ox, 6 * by - oy, 6 * cx - ox, 6 * cy - oy) == 36
            * ori(ax, ay, bx, by, cx, cy),
{
    let ux = bx - ax;
    let uy = by - ay;
    let vx = cx - ax;
    let vy = cy - ay;
    assert((6 * bx - ox) - (6 * ax - ox) == 6 * ux);
    assert((6 * by - oy) - (6 * ay - oy) == 6 * uy);
    assert((6 * cx - ox) - (6 * ax - ox) == 6 * vx);
    assert((6 * cy - oy) - (6 * ay - oy) == 6 * vy);
    assert(det2(6 * ux, 6 * uy, 6 * vx, 6 * vy) == 36 * det2(ux, uy, vx, vy))
        by (nonlinear_arith);
}

/// A point `p` whose direction lies in the wedge of `a` and `b`, which is at
/// least as far from the origin as both and is not `a` itself, lies strictly
/// beyond the line through `a` and `b`.
pub proof fn lemma_visible(ax: int, ay: int, bx: int, by: int, px: int, py: int)
    requires
        in_wedge(ax, ay, bx, by, px, py),
        sq_len(px, py) >= sq_len(ax, ay),
        sq_len(px, py) >= sq_len(bx, by),
        px != ax || py != ay,
    ensures
        det2(ax, ay, px, py) + det2(px, py, bx, by) > det2(ax, ay, bx, by),
{
    let x = det2(ax, ay, bx, by);
    let t = det2(ax, ay, px, py);
    let s = det2(px, py, bx, by);
    let m = sq_len(px, py);
    let a = sq_len(ax, ay);
    let b = sq_len(bx, by);
    let e = ax * bx + ay * by;
    let g = sq_len(ax - bx, ay - by);
    if s + t <= x {
        lemma_sq_len_nonneg(ax, ay);
        lemma_sq_len_nonneg(bx, by);
        lemma_sq_len_nonneg(ax - bx, ay - by);
        // x * p == s * a + t * b, coordinate by coordinate
        lemma_det2_cyclic(px, py, ax, ay, bx, by);
        lemma_det2_linear(bx, by, px, py, 0, 0);
        lemma_det2_linear(px, py, ax, ay, 0, 0);
        lemma_mul_neg(ax, s);
        lemma_mul_neg(bx, t);
        lemma_mul_neg(ay, s);
        lemma_mul_neg(by, t);
        assert(px * x == ax * s + bx * t);
        assert(py * x == ay * s + by * t);
        let qx = px * x;
        let qy = py * x;
        assert(qx * qx + qy * qy == (x * x) * m) by (nonlinear_arith)
            requires
                qx == px * x,
                qy == py * x,
                m == px * px + py * py,
        ;
        lemma_sq_sum(ax, s, bx, t);
        lemma_sq_sum(ay, s, by, t);
        lemma_mul_add(s * s, ax * ax, ay * ay);
        lemma_mul_add(s * t, ax * bx, ay * by);
        lemma_mul_add(t * t, bx * bx, by * by);
        assert(qx * qx + qy * qy == (s * s) * a + 2 * ((s * t) * e) + (t * t) * b);
        assert(g == a + b - 2 * e) by (nonlinear_arith)
            requires
                g == (ax - bx) * (ax - bx) + (ay - by) * (ay - by),
                a == ax * ax + ay * ay,
                b == bx * bx + by * by,
                e == ax * bx + ay * by,
        ;
        let st = s * t;
        assert(2 * (st * e) == st * a + st * b - st * g) by (nonlinear_arith)
            requires
                2 * e == a + b - g,
        ;
        lemma_mul_foil(s, t, s * a, t * b);
        lemma_mul_assoc(s, s, a);
        lemma_mul_assoc(s, t, b);
        lemma_mul_assoc(t, s, a);
        lemma_mul_assoc(t, t, b);
        lemma_mul_comm(s, t);
        assert((s + t) * (s * a + t * b) == (s * s) * a + st * b + st * a + (t * t) * b);
        assert((x * x) * m == (s + t) * (s * a + t * b) - st * g);
        assert((s + t) * (s * a + t * b) <= (x * x) * m) by (nonlinear_arith)
            requires
                s > 0,
                t >= 0,
                s + t <= x,
                0 <= a <= m,
                0 <= b <= m,
        ;
        assert(st * g <= 0);
        assert(g > 0) by {
            if g == 0 {
                assert(ax == bx && ay == by);
                lemma_det2_linear(ax, ay, bx, by, 0, 0);
            }
        }
        assert(t == 0) by (nonlinear_arith)
            requires
                st * g <= 0,
                st == s * t,
                s > 0,
                t >= 0,
                g > 0,
        ;
        assert(bx * t == 0 && by * t == 0 && st == 0) by (nonlinear_arith)
            requires
                t == 0,
                st == s * t,
        ;
        assert(st * g == 0) by (nonlinear_arith)
            requires
                st == 0,
        ;
        assert(a > 0) by {
            if a == 0 {
                lemma_det2_zero(bx, by);
            }
        }
        assert((s + t) * (s * a + t * b) == (s * s) * a) by (nonlinear_arith)
            requires
                t == 0,
        ;
        assert(s == x) by (nonlinear_arith)
            requires
                (x * x) * m == (s * s) * a,
                0 < s <= x,
                0 < a <= m,
        ;
        assert(px == ax) by (nonlinear_arith)
            requires
                px * x == ax * s,
                s == x,
                x > 0,
        ;
        assert(py == ay) by (nonlinear_arith)
            requires
                py * x == ay * s,
                s == x,
                x > 0,
        ;
    }
}

/// The square of `a * s + b * t`.
pub proof fn lemma_sq_sum(a: int, s: int, b: int, t: int)
    ensures
        (a * s + b * t) * (a * s + b * t) == (s * s) * (a * a) + 2 * ((s * t) * (a * b)) + (t * t)
            * (b * b),
{
    let u = a * s;
    let v = b * t;
    assert((u + v) * (u + v) == u * u + 2 * (u * v) + v * v) by (nonlinear_arith);
    lemma_mul4(a, s, a, s);
    lemma_mul4(a, s, b, t);
    lemma_mul4(b, t, b, t);
}

/// A product of two products, regrouped.
pub proof fn lemma_mul4(a: int, s: int, b: int, t: int)
    by (nonlinear_arith)
    ensures
        (a * s) * (b * t) == (s * t) * (a * b),
{
}

/// A product of two sums of two terms.
pub proof fn lemma_mul_foil(s: int, t: int, u: int, v: int)
    by (nonlinear_arith)
    ensures
        (s + t) * (u + v) == s * u + s * v + t * u + t * v,
{
}

/// Multiplication associates.
pub proof fn lemma_mul_assoc(x: int, y: int, z: int)
    by (nonlinear_arith)
    ensures
        x * (y * z) == (x * y) * z,
{
}

/// A factor times a sum of two terms.
pub proof fn lemma_mul_add(k: int, x: int, y: int)
    by (nonlinear_arith)
    ensures
        k * (x + y) == k * x + k * y,
{
}

/// A product of two bounded integers is bounded by the product of the bounds.
pub proof fn lemma_mul_bounded_by(x: int, y: int, bx: int, by: int)
    by (nonlinear_arith)
    requires
        -bx <= x <= bx,
        -by <= y <= by,
    ensures
        -(bx * by) <= x * y <= bx * by,
{
}

/// The point at offset `x` lies in the triangle of the origin and the
/// points at offsets `v` and `n`, which wind counter-clockwise: the sides
/// count as inside.
pub open spec fn in_triangle(vx: int, vy: int, nx: int, ny: int, xx: int, xy: int) -> bool {
    &&& det2(vx, vy, nx, ny) > 0
    &&& det2(vx, vy, xx, xy) >= 0
    &&& det2(xx, xy, nx, ny) >= 0
    &&& det2(vx, vy, xx, xy) + det2(xx, xy, nx, ny) <= det2(vx, vy, nx, ny)
}

/// The determinant of `x` with any vector `u`, in terms of the determinants
/// of `v` and `n` with `u` and the weights that `x` has in the triangle of
/// the origin, `v` and `n`.
pub proof fn lemma_weights(
    vx: int,
    vy: int,
    nx: int,
    ny: int,
    xx: int,
    xy: int,
    ux: int,
    uy: int,
)
    ensures
        det2(vx, vy, nx, ny) * det2(xx, xy, ux, uy) == det2(xx, xy, nx, ny) * det2(
            vx,
            vy,
            ux,
            uy,
        ) + det2(vx, vy, xx, xy) * det2(nx, ny, ux, uy),
{
    lemma_det2_four(vx, vy, nx, ny, xx, xy, ux, uy);
    lemma_det2_linear(nx, ny, xx, xy, 0, 0);
    lemma_det2_linear(nx, ny, ux, uy, 0, 0);
    lemma_det2_linear(vx, vy, xx, xy, 0, 0);
    let vn = det2(vx, vy, nx, ny);
    let xu = det2(xx, xy, ux, uy);
    let vxd = det2(vx, vy, xx, xy);
    let nu = det2(nx, ny, ux, uy);
    let vu = det2(vx, vy, ux, uy);
    let nxd = det2(nx, ny, xx, xy);
    // vn * xu - vxd * nu + vu * nxd == 0
    lemma_mul_neg(vu, det2(xx, xy, nx, ny));
    lemma_mul_comm(vu, det2(xx, xy, nx, ny));
}

/// A half-plane that holds the origin and the points at `v` and `n` holds
/// every point of their triangle. The half-plane is `k + det2(x, u) >= 0`.
pub proof fn lemma_triangle_in_halfplane(
    vx: int,
    vy: int,
    nx: int,
    ny: int,
    xx: int,
    xy: int,
    ux: int,
    uy: int,
    k: int,
)
    requires
        in_triangle(vx, vy, nx, ny, xx, xy),
        k >= 0,
        k + det2(vx, vy, ux, uy) >= 0,
        k + det2(nx, ny, ux, uy) >= 0,
    ensures
        k + det2(xx, xy, ux, uy) >= 0,
{
    lemma_weights(vx, vy, nx, ny, xx, xy, ux, uy);
    let vn = det2(vx, vy, nx, ny);
    let s = det2(xx, xy, nx, ny);
    let t = det2(vx, vy, xx, xy);
    let vu = det2(vx, vy, ux, uy);
    let nu = det2(nx, ny, ux, uy);
    let xu = det2(xx, xy, ux, uy);
    assert(vn * (k + xu) == (vn - s - t) * k + s * (k + vu) + t * (k + nu)) by (nonlinear_arith)
        requires
            vn * xu == s * vu + t * nu,
    ;
    lemma_mul_nonneg(vn - s - t, k);
    lemma_mul_nonneg(s, k + vu);
    lemma_mul_nonneg(t, k + nu);
    lemma_nonneg_factor(vn, k + xu);
}

/// When a point `p` beyond the side from `a` to `b` is joined to both,
/// every point of the triangle of the origin, `a` and `b` lies in the
/// triangle of the origin, `a` and `p` or in that of the origin, `p` and
/// `b`.
pub proof fn lemma_triangle_split(
    ax: int,
    ay: int,
    bx: int,
    by: int,
    px: int,
    py: int,
    xx: int,
    xy: int,
)
    requires
        in_triangle(ax, ay, bx, by, xx, xy),
        in_wedge(ax, ay, bx, by, px, py),
        det2(ax, ay, px, py) + det2(px, py, bx, by) > det2(ax, ay, bx, by),
    ensures
        in_triangle(ax, ay, px, py, xx, xy) || in_triangle(px, py, bx, by, xx, xy),
{
    let ab = det2(ax, ay, bx, by);
    let ap = det2(ax, ay, px, py);
    let pb = det2(px, py, bx, by);
    lemma_det2_linear(px, py, xx, xy, 0, 0);
    lemma_det2_linear(px, py, bx, by, 0, 0);
    lemma_det2_linear(px, py, ax, ay, 0, 0);
    lemma_det2_linear(ax, ay, bx, by, 0, 0);
    lemma_det2_linear(bx, by, bx, by, 0, 0);
    lemma_det2_linear(ax, ay, ax, ay, 0, 0);
    if det2(px, py, xx, xy) >= 0 {
        // the half-plane to the left of the line from `p` to `b`:
        // pb + det2(x, p - b) >= 0
        lemma_det2_linear(xx, xy, px, py, bx, by);
        lemma_det2_linear(ax, ay, px, py, bx, by);
        lemma_det2_linear(bx, by, px, py, bx, by);
        lemma_triangle_in_halfplane(ax, ay, bx, by, xx, xy, px - bx, py - by, pb);
        assert(in_triangle(px, py, bx, by, xx, xy));
    } else {
        // `x` lies strictly before `p`, so `p` does not lie along `a`
        if ap == 0 {
            lemma_det2_four(ax, ay, bx, by, xx, xy, px, py);
            assert(ap * det2(bx, by, xx, xy) == 0) by (nonlinear_arith)
                requires
                    ap == 0,
            ;
            lemma_mul_pos(ab, det2(xx, xy, px, py));
            lemma_mul_neg(det2(ax, ay, xx, xy), pb);
            lemma_mul_nonneg(det2(ax, ay, xx, xy), pb);
            assert(false);
        }
        // the half-plane to the left of the line from `a` to `p`:
        // ap + det2(x, a - p) >= 0
        lemma_det2_linear(xx, xy, ax, ay, px, py);
        lemma_det2_linear(ax, ay, ax, ay, px, py);
        lemma_det2_linear(bx, by, ax, ay, px, py);
        lemma_triangle_in_halfplane(ax, ay, bx, by, xx, xy, ax - px, ay - py, ap);
        assert(in_triangle(ax, ay, px, py, xx, xy));
    }
}

/// When the corner `b` between `p` and `q` lies strictly inside the
/// triangle of the origin, `p` and `q`, every point of the triangle of the
/// origin, `p` and `b`, and of that of the origin, `b` and `q`, lies in the
/// triangle of the origin, `p` and `q`.
pub proof fn lemma_triangle_merge(
    px: int,
    py: int,
    bx: int,
    by: int,
    qx: int,
    qy: int,
    xx: int,
    xy: int,
)
    requires
        det2(px, py, bx, by) >= 0,
        det2(bx, by, qx, qy) >= 0,
        det2(px, py, qx, qy) > det2(px, py, bx, by) + det2(bx, by, qx, qy),
        in_triangle(px, py, bx, by, xx, xy) || in_triangle(bx, by, qx, qy, xx, xy),
    ensures
        in_triangle(px, py, qx, qy, xx, xy),
{
    let pq = det2(px, py, qx, qy);
    lemma_det2_linear(px, py, qx, qy, 0, 0);
    lemma_det2_linear(qx, qy, px, py, 0, 0);
    lemma_det2_linear(px, py, bx, by, 0, 0);
    lemma_det2_linear(bx, by, qx, qy, 0, 0);
    lemma_det2_linear(px, py, px, py, 0, 0);
    lemma_det2_linear(qx, qy, qx, qy, 0, 0);
    lemma_det2_linear(bx, by, px, py, 0, 0);
    lemma_det2_linear(qx, qy, bx, by, 0, 0);
    lemma_det2_linear(xx, xy, px, py, 0, 0);
    lemma_det2_linear(xx, xy, qx, qy, 0, 0);
    // the three half-planes of the triangle of the origin, `p` and `q`:
    //   det2(x, -p) >= 0, det2(x, q) >= 0, pq + det2(x, p - q) >= 0
    lemma_det2_linear(xx, xy, px, py, qx, qy);
    lemma_det2_linear(px, py, px, py, qx, qy);
    lemma_det2_linear(bx, by, px, py, qx, qy);
    lemma_det2_linear(qx, qy, px, py, qx, qy);
    lemma_det2_linear(xx, xy, 0, 0, px, py);
    lemma_det2_linear(px, py, 0, 0, px, py);
    lemma_det2_linear(bx, by, 0, 0, px, py);
    lemma_det2_linear(qx, qy, 0, 0, px, py);
    lemma_det2_zero(xx, xy);
    lemma_det2_zero(px, py);
    lemma_det2_zero(bx, by);
    lemma_det2_zero(qx, qy);
    if in_triangle(px, py, bx, by, xx, xy) {
        lemma_triangle_in_halfplane(px, py, bx, by, xx, xy, 0 - px, 0 - py, 0);
        lemma_triangle_in_halfplane(px, py, bx, by, xx, xy, qx, qy, 0);
        lemma_triangle_in_halfplane(px, py, bx, by, xx, xy, px - qx, py - qy, pq);
    } else {
        lemma_triangle_in_halfplane(bx, by, qx, qy, xx, xy, 0 - px, 0 - py, 0);
        lemma_triangle_in_halfplane(bx, by, qx, qy, xx, xy, qx, qy, 0);
        lemma_triangle_in_halfplane(bx, by, qx, qy, xx, xy, px - qx, py - qy, pq);
    }
}

} // verus!
