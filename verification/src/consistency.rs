//! What holds of a triangulation at every moment of the sweep, and why each
//! move of the sweep keeps it.
use vstd::prelude::*;
use crate::algebra::{
    lemma_det2_linear, lemma_det2_zero, lemma_inc_permuted, lemma_mul_bounded_by,
    lemma_ori_expand, lemma_ori_permuted, lemma_ori_scaled, lemma_sq_len_nonneg,
    lemma_triangle_merge, lemma_triangle_split, lemma_visible,
};
use crate::half::{
    can_twin, edges_wf, flippable, is_flip, is_grown, lemma_flip_places, lemma_flip_wf, moved,
    next_of, prev_of, Edge, EMPTY,
};
use crate::hull::{cross, dir_in_range, dir_in_triangle, dir_in_wedge, Dir, Hull};
use crate::mesh::{
    all_ccw, all_legal, all_used, area_sum, edge_ccw, edge_in_circle, edge_legal,
    lemma_flip_area, lemma_flip_geometry, lemma_flip_used, vertices_below,
};
use crate::predicates::{in_range, spec_acute, spec_orient2d, sq_len, Point, MAX_COORD};

verus! {

/// Largest number of points a triangulation takes.
pub const MAX_POINTS: usize = 0x0fff_ffff;

/// The center is kept scaled by six, so that the middle of a box and the
/// centroid of a triangle of grid points are both exact.
pub open spec fn center_in_range(c: Point) -> bool {
    -6 * MAX_COORD <= c.0 <= 6 * MAX_COORD && -6 * MAX_COORD <= c.1 <= 6 * MAX_COORD
}

/// Six times the offset of `p` from the center whose six-fold is `c`.
pub open spec fn rel(p: Point, c: Point) -> Dir {
    ((6 * p.0 - c.0) as i64, (6 * p.1 - c.1) as i64)
}

/// Squared length of an offset.
pub open spec fn norm2(d: Dir) -> int {
    sq_len(d.0 as int, d.1 as int)
}

/// The points are in range and pairwise distinct, the first three hold the
/// center strictly inside their counter-clockwise triangle, and from the
/// fourth on each point is at least as far from the center as every point
/// before it.
pub open spec fn points_ok(points: Seq<Point>, center: Point) -> bool {
    &&& 3 <= points.len() <= MAX_POINTS
    &&& center_in_range(center)
    &&& forall|i: int| 0 <= i < points.len() ==> in_range(#[trigger] points[i])
    &&& forall|i: int, j: int|
        0 <= i < j < points.len() ==> #[trigger] points[i] != #[trigger] points[j]
    &&& forall|i: int, j: int|
        0 <= i < j < points.len() && 3 <= j ==> norm2(rel(#[trigger] points[i], center)) <= norm2(
            rel(#[trigger] points[j], center),
        )
    &&& cross(rel(points[0], center), rel(points[1], center)) > 0
    &&& cross(rel(points[1], center), rel(points[2], center)) > 0
    &&& cross(rel(points[2], center), rel(points[0], center)) > 0
}

/// The boundary edge that the ring keeps for the boundary point `v` leaves
/// `v` for the next boundary point and has no twin.
pub open spec fn hull_edge_ok(hull: Hull, edges: Seq<Edge>, v: int, count: int) -> bool {
    &&& 0 <= v < count
    &&& hull.edge_of(v) < edges.len()
    &&& edges[hull.edge_of(v) as int] == Edge {
        src: v as usize,
        dst: hull.next_point(v),
        buddy: EMPTY,
    }
}

/// The ring and the store agree on the boundary: the edges the ring keeps
/// are the edges without a twin.
pub open spec fn hull_linked(hull: Hull, edges: Seq<Edge>, count: int) -> bool {
    &&& forall|v: int| #[trigger] hull.is_live(v) ==> hull_edge_ok(hull, edges, v, count)
    &&& forall|e: int|
        0 <= e < edges.len() && (#[trigger] edges[e]).buddy == EMPTY ==> hull.is_live(
            edges[e].src as int,
        ) && hull.edge_of(edges[e].src as int) == e
}

/// Point `x` lies in the triangle of the center, the boundary point `v`
/// and the boundary point after it.
pub open spec fn holds(hull: Hull, v: int, x: int) -> bool {
    hull.is_live(v) && dir_in_triangle(
        hull.dir(v),
        hull.dir(hull.next_point(v) as int),
        hull.dir(x),
    )
}

/// Point `x` lies inside the boundary ring: in the triangle that the center
/// makes with some boundary edge.
pub open spec fn is_inside(hull: Hull, x: int) -> bool {
    exists|v: int| #[trigger] holds(hull, v, x)
}

/// Every one of the first `count` points lies inside the boundary ring.
pub open spec fn all_inside(hull: Hull, count: int) -> bool {
    forall|x: int| 0 <= x < count ==> #[trigger] is_inside(hull, x)
}

/// Lying inside the ring does not depend on the edges the ring keeps.
pub proof fn lemma_inside_same_ring(h0: Hull, h1: Hull, count: int)
    requires
        h1.same_ring(h0),
        all_inside(h0, count),
    ensures
        all_inside(h1, count),
{
    h1.lemma_same_ring(h0);
    assert forall|x: int| 0 <= x < count implies #[trigger] is_inside(h1, x) by {
        assert(is_inside(h0, x));
        let v = choose|v: int| #[trigger] holds(h0, v, x);
        assert(holds(h1, v, x));
    }
}

/// After a point beyond the boundary edge from `a` to `b` is put on the
/// ring between them, every point lies inside the new ring.
pub proof fn lemma_inside_attach(h0: Hull, h2: Hull, a: int, b: int, p: int, count: int)
    requires
        all_inside(h0, count),
        h0.is_live(a),
        b == h0.next_point(a),
        p == count,
        0 <= p <= usize::MAX,
        !h0.is_live(p),
        h0.sees(a, p),
        cross(h0.dir(a), h0.dir(p)) + cross(h0.dir(p), h0.dir(b)) > cross(h0.dir(a), h0.dir(b)),
        forall|v: int| h2.dir(v) == h0.dir(v),
        forall|v: int| h2.is_live(v) <==> (h0.is_live(v) || v == p),
        forall|v: int|
            h2.next_point(v) == (if v == a {
                p as usize
            } else if v == p {
                b as usize
            } else {
                h0.next_point(v)
            }),
    ensures
        all_inside(h2, count + 1),
{
    let da = h0.dir(a);
    let db = h0.dir(b);
    let dp = h0.dir(p);
    assert forall|x: int| 0 <= x < count + 1 implies #[trigger] is_inside(h2, x) by {
        if x == p {
            lemma_det2_linear(dp.0 as int, dp.1 as int, dp.0 as int, dp.1 as int, 0, 0);
            assert(holds(h2, p, x));
        } else {
            assert(is_inside(h0, x));
            let v = choose|v: int| #[trigger] holds(h0, v, x);
            if v != a {
                assert(holds(h2, v, x));
            } else {
                let dx = h0.dir(x);
                lemma_triangle_split(
                    da.0 as int,
                    da.1 as int,
                    db.0 as int,
                    db.1 as int,
                    dp.0 as int,
                    dp.1 as int,
                    dx.0 as int,
                    dx.1 as int,
                );
                if dir_in_triangle(da, dp, dx) {
                    assert(holds(h2, a, x));
                } else {
                    assert(holds(h2, p, x));
                }
            }
        }
    }
}

/// After the pocket at `mid` between `pre` and `suc` is closed, every point
/// lies inside the new ring.
pub proof fn lemma_inside_fill(h0: Hull, h2: Hull, pre: int, mid: int, suc: int, count: int)
    requires
        all_inside(h0, count),
        h0.is_live(pre),
        mid == h0.next_point(pre),
        h0.is_live(mid),
        suc == h0.next_point(mid),
        pre != mid,
        cross(h0.dir(pre), h0.dir(mid)) >= 0,
        cross(h0.dir(mid), h0.dir(suc)) >= 0,
        cross(h0.dir(pre), h0.dir(suc)) > cross(h0.dir(pre), h0.dir(mid)) + cross(
            h0.dir(mid),
            h0.dir(suc),
        ),
        forall|v: int| h2.dir(v) == h0.dir(v),
        forall|v: int| h2.is_live(v) <==> (h0.is_live(v) && v != mid),
        forall|v: int|
            v != mid ==> h2.next_point(v) == (if v == pre {
                suc as usize
            } else {
                h0.next_point(v)
            }),
    ensures
        all_inside(h2, count),
{
    let dp = h0.dir(pre);
    let db = h0.dir(mid);
    let dq = h0.dir(suc);
    assert forall|x: int| 0 <= x < count implies #[trigger] is_inside(h2, x) by {
        assert(is_inside(h0, x));
        let v = choose|v: int| #[trigger] holds(h0, v, x);
        if v != pre && v != mid {
            assert(holds(h2, v, x));
        } else {
            let dx = h0.dir(x);
            lemma_triangle_merge(
                dp.0 as int,
                dp.1 as int,
                db.0 as int,
                db.1 as int,
                dq.0 as int,
                dq.1 as int,
                dx.0 as int,
                dx.1 as int,
            );
            assert(holds(h2, pre, x));
        }
    }
}

/// The corner after the boundary point `p` is a sharp pocket: with `b` the
/// boundary point after `p` and `q` the one after `b`, the angle at `b` is
/// strictly acute and `p q b` winds counter-clockwise.
pub open spec fn sharp_ahead(hull: Hull, points: Seq<Point>, p: int) -> bool {
    let b = hull.next_point(p) as int;
    let q = hull.next_point(b) as int;
    spec_acute(points[p], points[b], points[q]) > 0 && spec_orient2d(
        points[p],
        points[b],
        points[q],
    ) < 0
}

/// The corner before the boundary point `p` is a sharp pocket: with `a` the
/// boundary point before `p` and `q` the one before `a`, the angle at `a` is
/// strictly acute and `q p a` winds counter-clockwise.
pub open spec fn sharp_behind(hull: Hull, points: Seq<Point>, p: int) -> bool {
    let a = hull.prev_point(p) as int;
    let q = hull.prev_point(a) as int;
    spec_acute(points[p], points[a], points[q]) > 0 && spec_orient2d(
        points[p],
        points[a],
        points[q],
    ) > 0
}

/// Everything that holds of the triangulation of the first `count` points
/// at every moment, also while edges are waiting to be legalized.
pub open spec fn sound(
    points: Seq<Point>,
    center: Point,
    edges: Seq<Edge>,
    hull: Hull,
    count: int,
) -> bool {
    &&& points_ok(points, center)
    &&& 3 <= count <= points.len()
    &&& hull.wf()
    &&& hull.capacity() == points.len()
    &&& forall|v: int| 0 <= v < points.len() ==> #[trigger] hull.dir(v) == rel(points[v], center)
    &&& edges_wf(edges)
    &&& vertices_below(edges, count)
    &&& all_ccw(edges, points)
    &&& all_used(edges, count)
    &&& hull_linked(hull, edges, count)
    &&& edges.len() == 3 * (2 * count - 2 - hull.size())
    &&& 36 * area_sum(edges, points, (edges.len() / 3) as nat) == hull.area2()
    &&& all_inside(hull, count)
}

/// Every edge that is not locally Delaunay is waiting on the stack, itself
/// or as the twin of an edge there.
pub open spec fn pending_ok(edges: Seq<Edge>, points: Seq<Point>, stack: Seq<usize>) -> bool {
    forall|e: int|
        0 <= e < edges.len() ==> #[trigger] edge_legal(edges, points, e) || stack.contains(
            e as usize,
        ) || stack.contains(edges[e].buddy)
}

/// The inverse pair of maps between the order of the input and the order
/// of the sweep.
pub open spec fn maps_ok(forward: Seq<usize>, remap: Seq<usize>, n: int) -> bool {
    &&& forward.len() == n
    &&& remap.len() == n
    &&& forall|i: int| 0 <= i < n ==> (#[trigger] forward[i]) < n && remap[forward[i] as int] == i
    &&& forall|i: int| 0 <= i < n ==> (#[trigger] remap[i]) < n && forward[remap[i] as int] == i
}

/// A legal edge may leave the stack, and so may an edge without a twin.
pub proof fn lemma_pending_pop(edges: Seq<Edge>, points: Seq<Point>, rest: Seq<usize>, e: usize)
    requires
        edges_wf(edges),
        e < edges.len(),
        pending_ok(edges, points, rest.push(e)),
        edge_legal(edges, points, e as int),
    ensures
        pending_ok(edges, points, rest),
{
    let full = rest.push(e);
    assert forall|i: int| 0 <= i < edges.len() implies #[trigger] edge_legal(edges, points, i)
        || rest.contains(i as usize) || rest.contains(edges[i].buddy) by {
        if !edge_legal(edges, points, i) {
            let f = edges[i].buddy;
            assert(edges[f as int].buddy == i);
            if full.contains(i as usize) {
                let k = choose|k: int| 0 <= k < full.len() && full[k] == i as usize;
                assert(k < rest.len());
                assert(rest[k] == i as usize);
            } else {
                let k = choose|k: int| 0 <= k < full.len() && full[k] == f;
                if k < rest.len() {
                    assert(rest[k] == f);
                } else {
                    // the twin of `e` is as legal as `e` is
                    assert(f == e);
                    assert(edges[e as int].buddy == i);
                    assert(edges[e as int].dst == edges[next_of(e as int)].src);
                    assert(edges[i].dst == edges[next_of(i)].src);
                    let a = points[edges[e as int].src as int];
                    let b = points[edges[e as int].dst as int];
                    let c = points[edges[prev_of(e as int)].src as int];
                    let d = points[edges[prev_of(i)].src as int];
                    lemma_inc_permuted(
                        a.0 as int,
                        a.1 as int,
                        b.0 as int,
                        b.1 as int,
                        c.0 as int,
                        c.1 as int,
                        d.0 as int,
                        d.1 as int,
                    );
                    assert(false);
                }
            }
        }
    }
}

/// After a flip, with the four outer edges put on the stack, every edge
/// that is not locally Delaunay is waiting again.
pub proof fn lemma_pending_flip(
    points: Seq<Point>,
    s: Seq<Edge>,
    r: Seq<Edge>,
    e: int,
    rest: Seq<usize>,
    stack: Seq<usize>,
)
    requires
        edges_wf(s),
        flippable(s, e),
        is_flip(s, r, e),
        pending_ok(s, points, rest.push(e as usize)),
        edge_legal(r, points, e),
        edge_legal(r, points, s[e].buddy as int),
        stack == rest.push(next_of(e) as usize).push(prev_of(e) as usize).push(
            next_of(s[e].buddy as int) as usize,
        ).push(prev_of(s[e].buddy as int) as usize),
    ensures
        pending_ok(r, points, stack),
{
    lemma_flip_places(s, e);
    let f = s[e].buddy as int;
    let e1 = next_of(e);
    let e2 = prev_of(e);
    let f1 = next_of(f);
    let f2 = prev_of(f);
    let full = rest.push(e as usize);
    let n = rest.len() as int;
    assert(stack[n] == e1 as usize && stack[n + 1] == e2 as usize && stack[n + 2] == f1 as usize
        && stack[n + 3] == f2 as usize);
    assert(stack.contains(e1 as usize) && stack.contains(e2 as usize) && stack.contains(
        f1 as usize,
    ) && stack.contains(f2 as usize));
    assert forall|x: usize| full.contains(x) && x != e implies stack.contains(x) by {
        let k = choose|k: int| 0 <= k < full.len() && full[k] == x;
        assert(stack[k] == x);
    }
    assert forall|i: int| 0 <= i < r.len() implies #[trigger] edge_legal(r, points, i)
        || stack.contains(i as usize) || stack.contains(r[i].buddy) by {
        if i / 3 != e / 3 && i / 3 != f / 3 {
            let y = s[i].buddy;
            assert(r[i].buddy == moved(s, e, y));
            if y != EMPTY {
                assert(s[y as int].buddy == i);
                if y as int / 3 != e / 3 && y as int / 3 != f / 3 {
                    let iy = y as int;
                    assert(prev_of(i) / 3 == i / 3);
                    assert(prev_of(iy) / 3 == iy / 3);
                    assert(r[prev_of(i)].src == s[prev_of(i)].src);
                    assert(r[prev_of(iy)].src == s[prev_of(iy)].src);
                    assert(edge_in_circle(r, points, i) == edge_in_circle(s, points, i));
                    if !edge_legal(s, points, i) {
                        assert(full.contains(i as usize) || full.contains(y));
                    }
                } else {
                    assert(y == e1 || y == e2 || y == f1 || y == f2 || y == e || y == f);
                }
            }
        } else {
            assert(i == e || i == e1 || i == e2 || i == f || i == f1 || i == f2);
        }
    }
}

/// After a flip, with the ring's edges following the boundary edges that
/// moved, the triangulation is sound again.
pub proof fn lemma_flip_sound(
    points: Seq<Point>,
    center: Point,
    s: Seq<Edge>,
    r: Seq<Edge>,
    e: int,
    h0: Hull,
    h1: Hull,
    count: int,
)
    requires
        sound(points, center, s, h0, count),
        flippable(s, e),
        is_flip(s, r, e),
        edge_in_circle(s, points, e) > 0,
        h1.wf(),
        h1.same_ring(h0),
        forall|v: int| #[trigger] h0.is_live(v) ==> h1.edge_of(v) == moved(s, e, h0.edge_of(v)),
    ensures
        sound(points, center, r, h1, count),
{
    lemma_flip_places(s, e);
    lemma_flip_wf(s, r, e);
    lemma_flip_geometry(points, s, r, e);
    lemma_flip_used(s, r, e, count);
    lemma_flip_area(points, s, r, e);
    lemma_inside_same_ring(h0, h1, count);
    h1.lemma_same_ring(h0);
    let f = s[e].buddy as int;
    let e1 = next_of(e);
    let e2 = prev_of(e);
    let f1 = next_of(f);
    let f2 = prev_of(f);
    assert forall|i: int| 0 <= i < r.len() implies (#[trigger] r[i]).src < count && r[i].dst
        < count by {
        assert(s[i].src < count);
        assert(s[e1].src < count && s[e2].src < count && s[f1].src < count && s[f2].src < count
            && s[e].src < count && s[f].src < count);
        if i / 3 == e / 3 || i / 3 == f / 3 {
            assert(i == e || i == e1 || i == e2 || i == f || i == f1 || i == f2);
        }
    }
    assert forall|v: int| #[trigger] h1.is_live(v) implies hull_edge_ok(h1, r, v, count) by {
        assert(h0.is_live(v));
        assert(hull_edge_ok(h0, s, v, count));
        let y = h0.edge_of(v) as int;
        if y / 3 == e / 3 || y / 3 == f / 3 {
            assert(y == e || y == e1 || y == e2 || y == f || y == f1 || y == f2);
        }
    }
    assert forall|i: int| 0 <= i < r.len() && (#[trigger] r[i]).buddy == EMPTY implies h1.is_live(
        r[i].src as int,
    ) && h1.edge_of(r[i].src as int) == i by {
        if i / 3 == e / 3 || i / 3 == f / 3 {
            assert(i == e || i == e1 || i == e2 || i == f || i == f1 || i == f2);
            let y: int = if i == e2 {
                e1
            } else if i == f1 {
                e2
            } else if i == f2 {
                f1
            } else {
                f2
            };
            assert(r[i] == s[y]);
            assert(s[y].buddy == EMPTY);
            assert(h0.is_live(s[y].src as int));
        } else {
            assert(r[i].buddy == moved(s, e, s[i].buddy));
            assert(s[i].buddy == EMPTY);
            assert(h0.is_live(s[i].src as int));
        }
    }
}

/// The offset of a point in range from a center in range is in range, and
/// its coordinates are what the formula says.
pub proof fn lemma_rel(p: Point, c: Point)
    requires
        in_range(p),
        center_in_range(c),
    ensures
        rel(p, c).0 == 6 * p.0 - c.0,
        rel(p, c).1 == 6 * p.1 - c.1,
        dir_in_range(rel(p, c)),
{
}

/// The squared length of an offset fits 128 bits with room to spare.
pub proof fn lemma_norm_fits(p: Point, c: Point)
    requires
        in_range(p),
        center_in_range(c),
    ensures
        0 <= norm2(rel(p, c)) <= 0x8_0000_0000_0000_0000,
{
    lemma_rel(p, c);
    let d = rel(p, c);
    lemma_mul_bounded_by(d.0 as int, d.0 as int, 0x2_0000_0000, 0x2_0000_0000);
    lemma_mul_bounded_by(d.1 as int, d.1 as int, 0x2_0000_0000, 0x2_0000_0000);
    lemma_sq_len_nonneg(d.0 as int, d.1 as int);
}

/// No point lies at the center.
pub proof fn lemma_nonzero_dir(points: Seq<Point>, center: Point, p: int)
    requires
        points_ok(points, center),
        0 <= p < points.len(),
    ensures
        rel(points[p], center) != (0i64, 0i64),
{
    let v0 = rel(points[0], center);
    let v1 = rel(points[1], center);
    let v2 = rel(points[2], center);
    lemma_det2_zero(v0.0 as int, v0.1 as int);
    lemma_det2_zero(v1.0 as int, v1.1 as int);
    lemma_det2_zero(v2.0 as int, v2.1 as int);
    if p >= 3 {
        let vp = rel(points[p], center);
        assert(norm2(rel(points[0], center)) <= norm2(rel(points[p], center)));
        lemma_sq_len_nonneg(v0.0 as int, v0.1 as int);
        if vp == (0i64, 0i64) {
            assert(norm2(vp) == 0) by (nonlinear_arith)
                requires
                    vp.0 == 0 && vp.1 == 0,
            ;
        }
    } else {
        assert(p == 0 || p == 1 || p == 2);
    }
}

/// Three points that wind counter-clockwise are three different points.
pub proof fn lemma_ccw_distinct(a: Point, b: Point, c: Point)
    requires
        spec_orient2d(a, b, c) > 0,
    ensures
        a != b && b != c && c != a,
{
    assert(spec_orient2d(a, a, c) == 0) by (nonlinear_arith);
    assert(spec_orient2d(a, b, b) == 0) by (nonlinear_arith);
    assert(spec_orient2d(a, b, a) == 0) by (nonlinear_arith);
}

/// The orientation of three points in terms of their offsets from the
/// center.
pub proof fn lemma_orient_rel(a: Point, b: Point, c: Point, center: Point)
    requires
        in_range(a),
        in_range(b),
        in_range(c),
        center_in_range(center),
    ensures
        36 * spec_orient2d(a, b, c) == cross(rel(a, center), rel(b, center)) + cross(
            rel(b, center),
            rel(c, center),
        ) + cross(rel(c, center), rel(a, center)),
{
    lemma_rel(a, center);
    lemma_rel(b, center);
    lemma_rel(c, center);
    let va = rel(a, center);
    let vb = rel(b, center);
    let vc = rel(c, center);
    lemma_ori_scaled(
        a.0 as int,
        a.1 as int,
        b.0 as int,
        b.1 as int,
        c.0 as int,
        c.1 as int,
        center.0 as int,
        center.1 as int,
    );
    lemma_ori_expand(
        va.0 as int,
        va.1 as int,
        vb.0 as int,
        vb.1 as int,
        vc.0 as int,
        vc.1 as int,
    );
}

/// A point whose direction lies in the wedge of the boundary edge from `a`
/// to `b`, and which is at least as far from the center as both, lies
/// strictly outside that edge.
pub proof fn lemma_point_visible(points: Seq<Point>, center: Point, a: int, b: int, p: int)
    requires
        points_ok(points, center),
        0 <= a < p,
        0 <= b < p,
        3 <= p < points.len(),
        dir_in_wedge(rel(points[a], center), rel(points[b], center), rel(points[p], center)),
    ensures
        spec_orient2d(points[b], points[a], points[p]) > 0,
        cross(rel(points[a], center), rel(points[p], center)) + cross(
            rel(points[p], center),
            rel(points[b], center),
        ) > cross(rel(points[a], center), rel(points[b], center)),
{
    let va = rel(points[a], center);
    let vb = rel(points[b], center);
    let vp = rel(points[p], center);
    lemma_rel(points[a], center);
    lemma_rel(points[b], center);
    lemma_rel(points[p], center);
    assert(points[a] != points[p]);
    assert(norm2(rel(points[a], center)) <= norm2(rel(points[p], center)));
    assert(norm2(rel(points[b], center)) <= norm2(rel(points[p], center)));
    lemma_visible(va.0 as int, va.1 as int, vb.0 as int, vb.1 as int, vp.0 as int, vp.1 as int);
    lemma_orient_rel(points[b], points[a], points[p], center);
    lemma_det2_linear(va.0 as int, va.1 as int, vb.0 as int, vb.1 as int, 0, 0);
}

/// Closing a pocket keeps the center strictly to the left of the boundary:
/// if `b` lies strictly to the left of the line from `p` to `q` and the
/// center is not to the right of the edges from `p` to `b` and from `b` to
/// `q`, the center is strictly to the left of the line from `p` to `q`.
pub proof fn lemma_pocket(p: Point, q: Point, b: Point, center: Point)
    requires
        in_range(p),
        in_range(q),
        in_range(b),
        center_in_range(center),
        spec_orient2d(p, q, b) > 0,
        cross(rel(p, center), rel(b, center)) >= 0,
        cross(rel(b, center), rel(q, center)) >= 0,
    ensures
        cross(rel(p, center), rel(q, center)) > 0,
{
    let vp = rel(p, center);
    let vq = rel(q, center);
    let vb = rel(b, center);
    lemma_orient_rel(p, q, b, center);
    lemma_det2_linear(vq.0 as int, vq.1 as int, vb.0 as int, vb.1 as int, 0, 0);
    lemma_det2_linear(vb.0 as int, vb.1 as int, vp.0 as int, vp.1 as int, 0, 0);
}

/// Appending a counter-clockwise triangle keeps all triangles
/// counter-clockwise, and the only edges that may have stopped being locally
/// Delaunay are its twinned sides.
pub proof fn lemma_grow_mesh(
    points: Seq<Point>,
    s: Seq<Edge>,
    r: Seq<Edge>,
    a: usize,
    b: usize,
    c: usize,
    ab: usize,
    bc: usize,
    ca: usize,
    count: int,
    stack: Seq<usize>,
)
    requires
        edges_wf(s),
        s.len() + 3 < usize::MAX,
        can_twin(s, ab, a, b),
        can_twin(s, bc, b, c),
        can_twin(s, ca, c, a),
        is_grown(s, r, a, b, c, ab, bc, ca),
        vertices_below(s, count),
        a < count && b < count && c < count,
        all_ccw(s, points),
        all_legal(s, points),
        spec_orient2d(points[a as int], points[b as int], points[c as int]) > 0,
        ab != EMPTY ==> stack.contains(s.len() as usize),
        bc != EMPTY ==> stack.contains((s.len() + 1) as usize),
        ca != EMPTY ==> stack.contains((s.len() + 2) as usize),
    ensures
        vertices_below(r, count),
        all_ccw(r, points),
        pending_ok(r, points, stack),
{
    let n = s.len() as int;
    let pa = points[a as int];
    let pb = points[b as int];
    let pc = points[c as int];
    lemma_ori_permuted(pa.0 as int, pa.1 as int, pb.0 as int, pb.1 as int, pc.0 as int, pc.1 as int);
    assert forall|i: int| 0 <= i < r.len() implies (#[trigger] r[i]).src < count && r[i].dst
        < count by {
        if i < n {
            assert(s[i].src < count);
        }
    }
    assert forall|i: int| 0 <= i < r.len() implies #[trigger] edge_ccw(r, points, i) by {
        if i < n {
            assert(edge_ccw(s, points, i));
            assert(0 <= next_of(i) < n && 0 <= prev_of(i) < n);
            assert(r[next_of(i)].src == s[next_of(i)].src);
            assert(r[prev_of(i)].src == s[prev_of(i)].src);
        } else {
            assert(i == n || i == n + 1 || i == n + 2);
        }
    }
    assert forall|i: int| 0 <= i < r.len() implies #[trigger] edge_legal(r, points, i)
        || stack.contains(i as usize) || stack.contains(r[i].buddy) by {
        if i < n {
            if i != ab && i != bc && i != ca && s[i].buddy != EMPTY {
                let y = s[i].buddy as int;
                assert(s[y].buddy == i);
                assert(edge_legal(s, points, i));
                assert(0 <= prev_of(i) < n && 0 <= prev_of(y) < n);
                assert(r[prev_of(i)].src == s[prev_of(i)].src);
                assert(r[prev_of(y)].src == s[prev_of(y)].src);
                assert(edge_in_circle(r, points, i) == edge_in_circle(s, points, i));
            }
        } else {
            assert(i == n || i == n + 1 || i == n + 2);
        }
    }
}

/// After a new point is hung on the boundary edge from `a` to `b`, the ring
/// and the store agree on the boundary again.
pub proof fn lemma_attach_hull(
    s: Seq<Edge>,
    r: Seq<Edge>,
    h0: Hull,
    h2: Hull,
    a: usize,
    b: usize,
    p: usize,
    count: int,
)
    requires
        edges_wf(s),
        s.len() + 3 < usize::MAX,
        hull_linked(h0, s, count),
        count < usize::MAX,
        h0.is_live(a as int),
        b == h0.next_point(a as int),
        p == count,
        is_grown(s, r, b, a, p, h0.edge_of(a as int), EMPTY, EMPTY),
        forall|v: int| h2.is_live(v) <==> (h0.is_live(v) || v == p),
        forall|v: int|
            h2.next_point(v) == (if v == a {
                p
            } else if v == p {
                b
            } else {
                h0.next_point(v)
            }),
        forall|v: int|
            h2.edge_of(v) == (if v == p {
                (s.len() + 2) as usize
            } else if v == a {
                (s.len() + 1) as usize
            } else {
                h0.edge_of(v)
            }),
    ensures
        hull_linked(h2, r, count + 1),
{
    let n = s.len() as int;
    let e_ab = h0.edge_of(a as int);
    assert(hull_edge_ok(h0, s, a as int, count));
    assert forall|v: int| #[trigger] h2.is_live(v) implies hull_edge_ok(h2, r, v, count + 1) by {
        if v != p {
            assert(h0.is_live(v));
            assert(hull_edge_ok(h0, s, v, count));
        }
    }
    assert forall|i: int| 0 <= i < r.len() && (#[trigger] r[i]).buddy == EMPTY implies h2.is_live(
        r[i].src as int,
    ) && h2.edge_of(r[i].src as int) == i by {
        if i < n {
            assert(s[i].buddy == EMPTY);
            assert(h0.is_live(s[i].src as int));
        }
    }
}

/// After a pocket is closed, the ring and the store agree on the boundary
/// again. The pocket is at `mid`, between `pre` and `suc`.
pub proof fn lemma_fill_hull(
    s: Seq<Edge>,
    r: Seq<Edge>,
    h0: Hull,
    h2: Hull,
    pre: usize,
    mid: usize,
    suc: usize,
    count: int,
)
    requires
        edges_wf(s),
        s.len() + 3 < usize::MAX,
        hull_linked(h0, s, count),
        count <= usize::MAX,
        h0.is_live(pre as int),
        mid == h0.next_point(pre as int),
        h0.is_live(mid as int),
        suc == h0.next_point(mid as int),
        pre != mid && mid != suc && suc != pre,
        is_grown(s, r, pre, suc, mid, EMPTY, h0.edge_of(mid as int), h0.edge_of(pre as int)),
        forall|v: int| h2.is_live(v) <==> (h0.is_live(v) && v != mid),
        forall|v: int|
            v != mid ==> h2.next_point(v) == (if v == pre {
                suc
            } else {
                h0.next_point(v)
            }),
        forall|v: int|
            h2.edge_of(v) == (if v == pre {
                s.len() as usize
            } else {
                h0.edge_of(v)
            }),
    ensures
        hull_linked(h2, r, count),
{
    let n = s.len() as int;
    assert(hull_edge_ok(h0, s, pre as int, count));
    assert(hull_edge_ok(h0, s, mid as int, count));
    assert forall|v: int| #[trigger] h2.is_live(v) implies hull_edge_ok(h2, r, v, count) by {
        assert(h0.is_live(v));
        assert(hull_edge_ok(h0, s, v, count));
        if v == pre {
            assert(r[n].src == pre);
            assert(h2.edge_of(v) == n);
            assert(h2.next_point(v) == suc);
        } else {
            let y = h0.edge_of(v) as int;
            assert(y != h0.edge_of(mid as int));
            assert(y != h0.edge_of(pre as int));
            assert(r[y] == s[y]);
            assert(h2.next_point(v) == h0.next_point(v));
        }
    }
    assert forall|i: int| 0 <= i < r.len() && (#[trigger] r[i]).buddy == EMPTY implies h2.is_live(
        r[i].src as int,
    ) && h2.edge_of(r[i].src as int) == i by {
        if i < n {
            assert(s[i].buddy == EMPTY);
            assert(h0.is_live(s[i].src as int));
        }
    }
}

} // verus!
