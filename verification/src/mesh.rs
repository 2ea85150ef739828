//! What the triangles of a half-edge store mean geometrically: that they
//! wind counter-clockwise, that an edge is locally Delaunay, and how both
//! fare when a diagonal is flipped.
use vstd::prelude::*;
use crate::algebra::{
    inc, lemma_det2_linear, lemma_flip_convex, lemma_flip_weight, lemma_inc_permuted,
    lemma_mul_nonneg, lemma_ori_expand, lemma_ori_permuted, lemma_sq_len_nonneg, ori, wt,
};
use crate::half::{
    edges_wf, flippable, is_flip, lemma_flip_places, next_of, prev_of, Edge, EMPTY,
};
use crate::predicates::{spec_in_circle, spec_orient2d, Point};

verus! {

/// Every edge runs between points with an index below `count`.
pub open spec fn vertices_below(edges: Seq<Edge>, count: int) -> bool {
    forall|e: int| 0 <= e < edges.len() ==> (#[trigger] edges[e]).src < count && edges[e].dst < count
}

/// The triangle of edge `e` winds counter-clockwise.
pub open spec fn edge_ccw(edges: Seq<Edge>, points: Seq<Point>, e: int) -> bool {
    spec_orient2d(
        points[edges[e].src as int],
        points[edges[next_of(e)].src as int],
        points[edges[prev_of(e)].src as int],
    ) > 0
}

/// Every triangle winds counter-clockwise.
pub open spec fn all_ccw(edges: Seq<Edge>, points: Seq<Point>) -> bool {
    forall|e: int| 0 <= e < edges.len() ==> #[trigger] edge_ccw(edges, points, e)
}

/// The in-circle determinant at the twinned edge `e`: of the triangle of `e`
/// and the far corner of the twin's triangle.
pub open spec fn edge_in_circle(edges: Seq<Edge>, points: Seq<Point>, e: int) -> int {
    spec_in_circle(
        points[edges[e].src as int],
        points[edges[e].dst as int],
        points[edges[prev_of(e)].src as int],
        points[edges[prev_of(edges[e].buddy as int)].src as int],
    )
}

/// Edge `e` is locally Delaunay: it has no twin, or the far corner of the
/// twin's triangle is not strictly inside the circle through its own.
pub open spec fn edge_legal(edges: Seq<Edge>, points: Seq<Point>, e: int) -> bool {
    edges[e].buddy != EMPTY ==> edge_in_circle(edges, points, e) <= 0
}

/// Every edge is locally Delaunay.
pub open spec fn all_legal(edges: Seq<Edge>, points: Seq<Point>) -> bool {
    forall|e: int| 0 <= e < edges.len() ==> #[trigger] edge_legal(edges, points, e)
}

/// Two triangles that wind counter-clockwise and meet at `e` have four
/// distinct corners.
pub proof fn lemma_ccw_flippable(edges: Seq<Edge>, points: Seq<Point>, e: int)
    requires
        edges_wf(edges),
        vertices_below(edges, points.len() as int),
        0 <= e < edges.len(),
        edges[e].buddy != EMPTY,
        edge_ccw(edges, points, e),
        edge_ccw(edges, points, edges[e].buddy as int),
    ensures
        flippable(edges, e),
{
    let f = edges[e].buddy as int;
    assert(edges[f].buddy == e);
    assert(edges[e].dst == edges[next_of(e)].src);
    assert(edges[f].dst == edges[next_of(f)].src);
    let a = points[edges[e].src as int];
    let b = points[edges[e].dst as int];
    let c = points[edges[prev_of(e)].src as int];
    let d = points[edges[prev_of(f)].src as int];
    lemma_ori_permuted(a.0 as int, a.1 as int, b.0 as int, b.1 as int, c.0 as int, c.1 as int);
    lemma_ori_permuted(a.0 as int, a.1 as int, b.0 as int, b.1 as int, d.0 as int, d.1 as int);
    assert(spec_orient2d(a, b, c) > 0);
    assert(spec_orient2d(b, a, d) > 0);
    assert(spec_orient2d(a, a, c) == 0) by (nonlinear_arith);
    assert(spec_orient2d(a, b, a) == 0) by (nonlinear_arith);
    assert(spec_orient2d(a, b, b) == 0) by (nonlinear_arith);
    assert(spec_orient2d(b, a, a) == 0) by (nonlinear_arith);
    assert(spec_orient2d(b, a, b) == 0) by (nonlinear_arith);
}

/// After flipping an edge that is not locally Delaunay between two
/// counter-clockwise triangles, every triangle still winds
/// counter-clockwise and the new diagonal is locally Delaunay from both
/// sides.
pub proof fn lemma_flip_geometry(points: Seq<Point>, s: Seq<Edge>, r: Seq<Edge>, e: int)
    requires
        edges_wf(s),
        flippable(s, e),
        is_flip(s, r, e),
        all_ccw(s, points),
        edge_in_circle(s, points, e) > 0,
    ensures
        all_ccw(r, points),
        edge_legal(r, points, e),
        edge_legal(r, points, s[e].buddy as int),
{
    lemma_flip_places(s, e);
    let f = s[e].buddy as int;
    let e1 = next_of(e);
    let e2 = prev_of(e);
    let f1 = next_of(f);
    let f2 = prev_of(f);
    let a = points[s[e].src as int];
    let b = points[s[e].dst as int];
    let c = points[s[e2].src as int];
    let d = points[s[f2].src as int];
    let ax = a.0 as int;
    let ay = a.1 as int;
    let bx = b.0 as int;
    let by = b.1 as int;
    let cx = c.0 as int;
    let cy = c.1 as int;
    let dx = d.0 as int;
    let dy = d.1 as int;
    assert(edge_ccw(s, points, e));
    assert(edge_ccw(s, points, f));
    assert(ori(ax, ay, bx, by, cx, cy) > 0);
    assert(ori(bx, by, ax, ay, dx, dy) > 0);
    assert(inc(ax, ay, bx, by, cx, cy, dx, dy) > 0);
    lemma_flip_convex(ax, ay, bx, by, cx, cy, dx, dy);
    lemma_ori_permuted(cx, cy, dx, dy, bx, by);
    lemma_ori_permuted(dx, dy, cx, cy, ax, ay);
    lemma_inc_permuted(ax, ay, bx, by, cx, cy, dx, dy);
    lemma_inc_permuted(cx, cy, dx, dy, bx, by, ax, ay);
    assert(next_of(e1) == e2 && next_of(e2) == e && prev_of(e1) == e && prev_of(e2) == e1);
    assert(next_of(f1) == f2 && next_of(f2) == f && prev_of(f1) == f && prev_of(f2) == f1);
    assert forall|i: int| 0 <= i < r.len() implies #[trigger] edge_ccw(r, points, i) by {
        if i / 3 != e / 3 && i / 3 != f / 3 {
            assert(edge_ccw(s, points, i));
            assert(next_of(i) / 3 == i / 3 && prev_of(i) / 3 == i / 3);
        } else {
            assert(i == e || i == e1 || i == e2 || i == f || i == f1 || i == f2);
        }
    }
    assert(edge_in_circle(r, points, e) == inc(cx, cy, dx, dy, bx, by, ax, ay));
    assert(edge_in_circle(r, points, f) == inc(dx, dy, cx, cy, ax, ay, bx, by));
}

/// Weight of triangle `t`: its doubled area times the summed squared
/// lengths of its corners.
pub open spec fn tri_weight(edges: Seq<Edge>, points: Seq<Point>, t: int) -> int {
    let a = points[edges[3 * t].src as int];
    let b = points[edges[3 * t + 1].src as int];
    let c = points[edges[3 * t + 2].src as int];
    wt(a.0 as int, a.1 as int, b.0 as int, b.1 as int, c.0 as int, c.1 as int)
}

/// Summed weight of the first `k` triangles.
pub open spec fn potential(edges: Seq<Edge>, points: Seq<Point>, k: nat) -> int
    decreases k,
{
    if k == 0 {
        0
    } else {
        potential(edges, points, (k - 1) as nat) + tri_weight(edges, points, k - 1)
    }
}

/// The weight of a triangle does not depend on the corner it is read from.
pub proof fn lemma_wt_rotate(ax: int, ay: int, bx: int, by: int, cx: int, cy: int)
    ensures
        wt(bx, by, cx, cy, ax, ay) == wt(ax, ay, bx, by, cx, cy),
        wt(cx, cy, ax, ay, bx, by) == wt(ax, ay, bx, by, cx, cy),
{
    lemma_ori_permuted(ax, ay, bx, by, cx, cy);
}

/// The weight of the triangle of edge `e`, read from `e`.
pub proof fn lemma_tri_weight_at(edges: Seq<Edge>, points: Seq<Point>, e: int)
    requires
        0 <= e < edges.len(),
        edges.len() % 3 == 0,
    ensures
        tri_weight(edges, points, e / 3) == ({
            let a = points[edges[e].src as int];
            let b = points[edges[next_of(e)].src as int];
            let c = points[edges[prev_of(e)].src as int];
            wt(a.0 as int, a.1 as int, b.0 as int, b.1 as int, c.0 as int, c.1 as int)
        }),
{
    let t = e / 3;
    let a = points[edges[3 * t].src as int];
    let b = points[edges[3 * t + 1].src as int];
    let c = points[edges[3 * t + 2].src as int];
    lemma_wt_rotate(a.0 as int, a.1 as int, b.0 as int, b.1 as int, c.0 as int, c.1 as int);
    if e % 3 == 0 {
        assert(e == 3 * t);
    } else if e % 3 == 1 {
        assert(e == 3 * t + 1);
    } else {
        assert(e == 3 * t + 2);
    }
}

/// The potential of counter-clockwise triangles is not negative.
pub proof fn lemma_potential_nonneg(edges: Seq<Edge>, points: Seq<Point>, k: nat)
    requires
        all_ccw(edges, points),
        3 * k <= edges.len(),
    ensures
        potential(edges, points, k) >= 0,
    decreases k,
{
    if k > 0 {
        lemma_potential_nonneg(edges, points, (k - 1) as nat);
        let t = k - 1;
        assert(edge_ccw(edges, points, 3 * t));
        assert(next_of(3 * t) == 3 * t + 1 && prev_of(3 * t) == 3 * t + 2);
        let a = points[edges[3 * t].src as int];
        let b = points[edges[3 * t + 1].src as int];
        let c = points[edges[3 * t + 2].src as int];
        lemma_sq_len_nonneg(a.0 as int, a.1 as int);
        lemma_sq_len_nonneg(b.0 as int, b.1 as int);
        lemma_sq_len_nonneg(c.0 as int, c.1 as int);
        lemma_mul_nonneg(
            spec_orient2d(a, b, c),
            crate::predicates::sq_len(a.0 as int, a.1 as int) + crate::predicates::sq_len(
                b.0 as int,
                b.1 as int,
            ) + crate::predicates::sq_len(c.0 as int, c.1 as int),
        );
    }
}

/// Two stores whose triangles agree in their corners everywhere but in the
/// triangles `t1` and `t2` differ in potential by what these two differ in
/// weight.
pub proof fn lemma_potential_change(
    s: Seq<Edge>,
    r: Seq<Edge>,
    points: Seq<Point>,
    k: nat,
    t1: int,
    t2: int,
)
    requires
        s.len() == r.len(),
        3 * k <= s.len(),
        t1 != t2,
        forall|i: int|
            0 <= i < s.len() && i / 3 != t1 && i / 3 != t2 ==> (#[trigger] r[i]).src == s[i].src,
    ensures
        potential(r, points, k) - potential(s, points, k) == (if 0 <= t1 < k {
            tri_weight(r, points, t1) - tri_weight(s, points, t1)
        } else {
            0
        }) + (if 0 <= t2 < k {
            tri_weight(r, points, t2) - tri_weight(s, points, t2)
        } else {
            0
        }),
    decreases k,
{
    if k > 0 {
        lemma_potential_change(s, r, points, (k - 1) as nat, t1, t2);
        let t = k - 1;
        if t != t1 && t != t2 {
            assert(r[3 * t].src == s[3 * t].src);
            assert(r[3 * t + 1].src == s[3 * t + 1].src);
            assert(r[3 * t + 2].src == s[3 * t + 2].src);
        }
    }
}

/// Flipping an edge lowers the potential by the in-circle determinant at
/// that edge.
pub proof fn lemma_flip_potential(points: Seq<Point>, s: Seq<Edge>, r: Seq<Edge>, e: int)
    requires
        edges_wf(s),
        flippable(s, e),
        is_flip(s, r, e),
    ensures
        potential(r, points, (r.len() / 3) as nat) == potential(s, points, (s.len() / 3) as nat)
            - edge_in_circle(s, points, e),
{
    lemma_flip_places(s, e);
    let f = s[e].buddy as int;
    let e1 = next_of(e);
    let e2 = prev_of(e);
    let f1 = next_of(f);
    let f2 = prev_of(f);
    let k = (s.len() / 3) as nat;
    lemma_potential_change(s, r, points, k, e / 3, f / 3);
    lemma_tri_weight_at(s, points, e);
    lemma_tri_weight_at(s, points, f);
    lemma_tri_weight_at(r, points, e);
    lemma_tri_weight_at(r, points, f);
    let a = points[s[e].src as int];
    let b = points[s[e].dst as int];
    let c = points[s[e2].src as int];
    let d = points[s[f2].src as int];
    lemma_flip_weight(
        a.0 as int,
        a.1 as int,
        b.0 as int,
        b.1 as int,
        c.0 as int,
        c.1 as int,
        d.0 as int,
        d.1 as int,
    );
}

/// Edge `e` starts at point `v`.
pub open spec fn starts_at(edges: Seq<Edge>, e: int, v: int) -> bool {
    0 <= e < edges.len() && edges[e].src == v
}

/// Point `v` is a corner of some triangle.
pub open spec fn used(edges: Seq<Edge>, v: int) -> bool {
    exists|e: int| #[trigger] starts_at(edges, e, v)
}

/// Every one of the first `count` points is a corner of some triangle.
pub open spec fn all_used(edges: Seq<Edge>, count: int) -> bool {
    forall|v: int| 0 <= v < count ==> #[trigger] used(edges, v)
}

/// A flip keeps the corners of the two triangles it rewrites, so every
/// point that was a corner of a triangle still is.
pub proof fn lemma_flip_used(s: Seq<Edge>, r: Seq<Edge>, e: int, count: int)
    requires
        edges_wf(s),
        flippable(s, e),
        is_flip(s, r, e),
        all_used(s, count),
    ensures
        all_used(r, count),
{
    lemma_flip_places(s, e);
    let f = s[e].buddy as int;
    let e1 = next_of(e);
    let e2 = prev_of(e);
    let f1 = next_of(f);
    let f2 = prev_of(f);
    assert forall|v: int| 0 <= v < count implies #[trigger] used(r, v) by {
        assert(used(s, v));
        let x = choose|x: int| #[trigger] starts_at(s, x, v);
        if x / 3 != e / 3 && x / 3 != f / 3 {
            assert(r[x].src == s[x].src);
            assert(starts_at(r, x, v));
        } else {
            assert(x == e || x == e1 || x == e2 || x == f || x == f1 || x == f2);
            // the corners a, b, c, d are found again at these places
            assert(starts_at(r, f2, s[e].src as int));
            assert(starts_at(r, e2, s[e1].src as int));
            assert(starts_at(r, e, s[e2].src as int));
            assert(starts_at(r, f, s[f2].src as int));
        }
    }
}

/// Appending a triangle keeps every corner, and makes its own three points
/// corners.
pub proof fn lemma_grow_used(
    s: Seq<Edge>,
    r: Seq<Edge>,
    a: usize,
    b: usize,
    c: usize,
    ab: usize,
    bc: usize,
    ca: usize,
    count: int,
)
    requires
        crate::half::is_grown(s, r, a, b, c, ab, bc, ca),
        all_used(s, count),
        a <= count && b <= count && c <= count,
        a == count || b == count || c == count,
    ensures
        all_used(r, count + 1),
        all_used(r, count),
{
    let n = s.len() as int;
    assert forall|v: int| 0 <= v < count + 1 implies #[trigger] used(r, v) by {
        if v < count {
            assert(used(s, v));
            let x = choose|x: int| #[trigger] starts_at(s, x, v);
            assert(r[x].src == s[x].src);
            assert(starts_at(r, x, v));
        } else {
            assert(starts_at(r, n, a as int));
            assert(starts_at(r, n + 1, b as int));
            assert(starts_at(r, n + 2, c as int));
        }
    }
}

/// Appending a triangle between points that are corners already keeps
/// every corner.
pub proof fn lemma_grow_used_same(
    s: Seq<Edge>,
    r: Seq<Edge>,
    a: usize,
    b: usize,
    c: usize,
    ab: usize,
    bc: usize,
    ca: usize,
    count: int,
)
    requires
        crate::half::is_grown(s, r, a, b, c, ab, bc, ca),
        all_used(s, count),
    ensures
        all_used(r, count),
{
    assert forall|v: int| 0 <= v < count implies #[trigger] used(r, v) by {
        assert(used(s, v));
        let x = choose|x: int| #[trigger] starts_at(s, x, v);
        assert(r[x].src == s[x].src);
        assert(starts_at(r, x, v));
    }
}

/// Twice the area of triangle `t`.
pub open spec fn tri_area2(edges: Seq<Edge>, points: Seq<Point>, t: int) -> int {
    spec_orient2d(
        points[edges[3 * t].src as int],
        points[edges[3 * t + 1].src as int],
        points[edges[3 * t + 2].src as int],
    )
}

/// Twice the summed area of the first `k` triangles.
pub open spec fn area_sum(edges: Seq<Edge>, points: Seq<Point>, k: nat) -> int
    decreases k,
{
    if k == 0 {
        0
    } else {
        area_sum(edges, points, (k - 1) as nat) + tri_area2(edges, points, k - 1)
    }
}

/// The area of the triangle of edge `e`, read from `e`.
pub proof fn lemma_tri_area_at(edges: Seq<Edge>, points: Seq<Point>, e: int)
    requires
        0 <= e < edges.len(),
        edges.len() % 3 == 0,
    ensures
        tri_area2(edges, points, e / 3) == spec_orient2d(
            points[edges[e].src as int],
            points[edges[next_of(e)].src as int],
            points[edges[prev_of(e)].src as int],
        ),
{
    let t = e / 3;
    let a = points[edges[3 * t].src as int];
    let b = points[edges[3 * t + 1].src as int];
    let c = points[edges[3 * t + 2].src as int];
    lemma_ori_permuted(a.0 as int, a.1 as int, b.0 as int, b.1 as int, c.0 as int, c.1 as int);
    if e % 3 == 0 {
        assert(e == 3 * t);
    } else if e % 3 == 1 {
        assert(e == 3 * t + 1);
    } else {
        assert(e == 3 * t + 2);
    }
}

/// Two stores whose triangles agree in their corners everywhere but in the
/// triangles `t1` and `t2` differ in area by what these two differ.
pub proof fn lemma_area_change(
    s: Seq<Edge>,
    r: Seq<Edge>,
    points: Seq<Point>,
    k: nat,
    t1: int,
    t2: int,
)
    requires
        3 * k <= s.len(),
        3 * k <= r.len(),
        t1 != t2,
        forall|i: int|
            0 <= i < 3 * k && i / 3 != t1 && i / 3 != t2 ==> (#[trigger] r[i]).src == s[i].src,
    ensures
        area_sum(r, points, k) - area_sum(s, points, k) == (if 0 <= t1 < k {
            tri_area2(r, points, t1) - tri_area2(s, points, t1)
        } else {
            0
        }) + (if 0 <= t2 < k {
            tri_area2(r, points, t2) - tri_area2(s, points, t2)
        } else {
            0
        }),
    decreases k,
{
    if k > 0 {
        lemma_area_change(s, r, points, (k - 1) as nat, t1, t2);
        let t = k - 1;
        if t != t1 && t != t2 {
            assert(r[3 * t].src == s[3 * t].src);
            assert(r[3 * t + 1].src == s[3 * t + 1].src);
            assert(r[3 * t + 2].src == s[3 * t + 2].src);
        }
    }
}

/// A flip does not change the summed area of the triangles.
pub proof fn lemma_flip_area(points: Seq<Point>, s: Seq<Edge>, r: Seq<Edge>, e: int)
    requires
        edges_wf(s),
        flippable(s, e),
        is_flip(s, r, e),
    ensures
        area_sum(r, points, (r.len() / 3) as nat) == area_sum(s, points, (s.len() / 3) as nat),
{
    lemma_flip_places(s, e);
    let f = s[e].buddy as int;
    let e2 = prev_of(e);
    let f2 = prev_of(f);
    let k = (s.len() / 3) as nat;
    lemma_area_change(s, r, points, k, e / 3, f / 3);
    lemma_tri_area_at(s, points, e);
    lemma_tri_area_at(s, points, f);
    lemma_tri_area_at(r, points, e);
    lemma_tri_area_at(r, points, f);
    let a = points[s[e].src as int];
    let b = points[s[e].dst as int];
    let c = points[s[e2].src as int];
    let d = points[s[f2].src as int];
    lemma_ori_expand(a.0 as int, a.1 as int, b.0 as int, b.1 as int, c.0 as int, c.1 as int);
    lemma_ori_expand(b.0 as int, b.1 as int, a.0 as int, a.1 as int, d.0 as int, d.1 as int);
    lemma_ori_expand(c.0 as int, c.1 as int, d.0 as int, d.1 as int, b.0 as int, b.1 as int);
    lemma_ori_expand(d.0 as int, d.1 as int, c.0 as int, c.1 as int, a.0 as int, a.1 as int);
    lemma_det2_linear(a.0 as int, a.1 as int, b.0 as int, b.1 as int, 0, 0);
    lemma_det2_linear(c.0 as int, c.1 as int, d.0 as int, d.1 as int, 0, 0);
}

/// Appending a triangle adds its area to the sum.
pub proof fn lemma_grow_area(
    points: Seq<Point>,
    s: Seq<Edge>,
    r: Seq<Edge>,
    a: usize,
    b: usize,
    c: usize,
    ab: usize,
    bc: usize,
    ca: usize,
)
    requires
        s.len() % 3 == 0,
        crate::half::is_grown(s, r, a, b, c, ab, bc, ca),
    ensures
        area_sum(r, points, (r.len() / 3) as nat) == area_sum(s, points, (s.len() / 3) as nat)
            + spec_orient2d(points[a as int], points[b as int], points[c as int]),
{
    let k = (s.len() / 3) as nat;
    lemma_area_change(s, r, points, k, -1, -2);
    assert(r.len() / 3 == k + 1);
    assert(area_sum(r, points, (k + 1) as nat) == area_sum(r, points, k) + tri_area2(
        r,
        points,
        k as int,
    ));
}

} // verus!
