//! What holds of every triangulation between two steps, stated one law at
//! a time and proved from the invariant of `Triangulation`.
use vstd::prelude::*;
use crate::half::{next_of, prev_of, EMPTY};
use crate::algebra::{lemma_det2_linear, lemma_triangle_in_halfplane};
use crate::hull::{cross, dir_in_triangle};
use crate::mesh::{area_sum, edge_ccw, edge_legal, starts_at, used};
use crate::order::{law_sweep_ignores_input_order, same_points};
use crate::predicates::{spec_in_circle, spec_orient2d, Point};
use crate::seed::{all_in_range, has_duplicates, is_sweep_order, seed_of};
use crate::consistency::{holds, hull_edge_ok, is_inside, lemma_orient_rel, norm2, rel};
use crate::triangulate::Triangulation;

verus! {

/// The number of triangles is twice the number of points taken in, less
/// two, less the number of points on the boundary.
pub proof fn law_triangle_count(t: Triangulation)
    requires
        t.wf(),
    ensures
        t.triangle_count() == 2 * t.progress() - 2 - t.hull().size(),
{
}

/// Every edge is followed in its triangle by the edge that starts where it
/// ends, and the three edges of a triangle close up.
pub proof fn law_triangles_close(t: Triangulation, e: int)
    requires
        t.wf(),
        0 <= e < t.edges().len(),
    ensures
        0 <= next_of(e) < t.edges().len(),
        0 <= prev_of(e) < t.edges().len(),
        t.edges()[next_of(e)].src == t.edges()[e].dst,
        t.edges()[prev_of(e)].dst == t.edges()[e].src,
        t.edges()[e].src < t.progress(),
        t.edges()[e].dst < t.progress(),
{
    assert(next_of(prev_of(e)) == e);
}

/// An edge with a twin and its twin point at each other and run between
/// the same two points in opposite directions.
pub proof fn law_twins_are_mutual(t: Triangulation, e: int)
    requires
        t.wf(),
        0 <= e < t.edges().len(),
        t.edges()[e].buddy != EMPTY,
    ensures
        t.edges()[e].buddy < t.edges().len(),
        t.edges()[t.edges()[e].buddy as int].buddy == e,
        t.edges()[t.edges()[e].buddy as int].src == t.edges()[e].dst,
        t.edges()[t.edges()[e].buddy as int].dst == t.edges()[e].src,
{
}

/// The edges without a twin are the edges that the ring keeps for the
/// boundary points, one for each.
pub proof fn law_boundary_edges(t: Triangulation, e: int)
    requires
        t.wf(),
        0 <= e < t.edges().len(),
    ensures
        t.edges()[e].buddy == EMPTY <==> (t.hull().is_live(t.edges()[e].src as int)
            && t.hull().edge_of(t.edges()[e].src as int) == e),
{
    let v = t.edges()[e].src as int;
    if t.hull().is_live(v) {
        assert(hull_edge_ok(t.hull(), t.edges(), v, t.progress()));
    }
}

/// The boundary edge of a boundary point has no twin and ends at the next
/// boundary point; the center is never to the right of it.
pub proof fn law_boundary_ring(t: Triangulation, v: int)
    requires
        t.wf(),
        t.hull().is_live(v),
    ensures
        0 <= v < t.progress(),
        t.hull().edge_of(v) < t.edges().len(),
        t.edges()[t.hull().edge_of(v) as int].src == v,
        t.edges()[t.hull().edge_of(v) as int].dst == t.hull().next_point(v),
        t.edges()[t.hull().edge_of(v) as int].buddy == EMPTY,
        t.hull().is_live(t.hull().next_point(v) as int),
        t.hull().prev_point(t.hull().next_point(v) as int) == v,
        cross(
            rel(t.points()[v], t.center()),
            rel(t.points()[t.hull().next_point(v) as int], t.center()),
        ) >= 0,
{
    assert(hull_edge_ok(t.hull(), t.edges(), v, t.progress()));
    t.hull().lemma_neighbours(v);
    let w = t.hull().next_point(v) as int;
    assert(hull_edge_ok(t.hull(), t.edges(), w, t.progress()));
}

/// The triangles have, together, the area that the boundary ring
/// encloses. Both sides are doubled areas in units of the offsets from the
/// center, which are six times as long as the coordinates.
pub proof fn law_triangles_fill_the_ring(t: Triangulation)
    requires
        t.wf(),
    ensures
        36 * area_sum(t.edges(), t.points(), t.triangle_count() as nat) == t.hull().area2(),
        t.hull().dirs().len() == t.points().len(),
        forall|v: int|
            0 <= v < t.points().len() ==> #[trigger] t.hull().dirs()[v] == rel(
                t.points()[v],
                t.center(),
            ),
{
    t.hull().lemma_ring();
    assert forall|v: int| 0 <= v < t.points().len() implies #[trigger] t.hull().dirs()[v] == rel(
        t.points()[v],
        t.center(),
    ) by {
        assert(t.hull().dir(v) == rel(t.points()[v], t.center()));
    }
}

/// Every point taken in is a corner of some triangle.
pub proof fn law_every_point_is_a_corner(t: Triangulation, v: int)
    requires
        t.wf(),
        0 <= v < t.progress(),
    ensures
        exists|e: int| 0 <= e < t.edges().len() && #[trigger] t.edges()[e].src == v,
{
    assert(used(t.edges(), v));
    let x = choose|x: int| #[trigger] starts_at(t.edges(), x, v);
    assert(t.edges()[x].src == v);
}

/// Every triangle winds strictly counter-clockwise.
pub proof fn law_counter_clockwise(t: Triangulation, e: int)
    requires
        t.wf(),
        0 <= e < t.edges().len(),
    ensures
        spec_orient2d(
            t.points()[t.edges()[e].src as int],
            t.points()[t.edges()[next_of(e)].src as int],
            t.points()[t.edges()[prev_of(e)].src as int],
        ) > 0,
{
    assert(edge_ccw(t.edges(), t.points(), e));
}

/// Every edge with a twin is locally Delaunay: the far corner of the twin's
/// triangle is not strictly inside the circle through its own triangle.
pub proof fn law_delaunay(t: Triangulation, e: int)
    requires
        t.wf(),
        0 <= e < t.edges().len(),
        t.edges()[e].buddy != EMPTY,
    ensures
        spec_in_circle(
            t.points()[t.edges()[e].src as int],
            t.points()[t.edges()[e].dst as int],
            t.points()[t.edges()[prev_of(e)].src as int],
            t.points()[t.edges()[prev_of(t.edges()[e].buddy as int)].src as int],
        ) <= 0,
{
    assert(edge_legal(t.edges(), t.points(), e));
}

/// The map from the order of the input to the order of the sweep and the
/// map back undo each other.
pub proof fn law_maps_are_inverse(t: Triangulation, i: int)
    requires
        t.wf(),
        0 <= i < t.points().len(),
    ensures
        t.forward()[i] < t.points().len(),
        t.remap()[i] < t.points().len(),
        t.remap()[t.forward()[i] as int] == i,
        t.forward()[t.remap()[i] as int] == i,
        t.input()[t.remap()[i] as int] == t.points()[i],
{
}

/// From the fourth on, the points come in the order of their distance from
/// the center, and no two points are the same.
pub proof fn law_sweep_order(t: Triangulation, i: int, j: int)
    requires
        t.wf(),
        0 <= i < j < t.points().len(),
    ensures
        t.points()[i] != t.points()[j],
        3 <= j ==> norm2(rel(t.points()[i], t.center()))
            <= norm2(rel(t.points()[j], t.center())),
{
}

/// Two triangulations that were started from the same points, given in
/// different orders, sweep about the same center and take the same points
/// in the same order.
pub proof fn law_start_ignores_input_order(
    p: Seq<Point>,
    q: Seq<Point>,
    t1: Triangulation,
    t2: Triangulation,
)
    requires
        same_points(p, q),
        all_in_range(p),
        all_in_range(q),
        !has_duplicates(p),
        !has_duplicates(q),
        t1.wf(),
        t2.wf(),
        t1.input() == p,
        t2.input() == q,
        seed_of(p) == Some(
            (t1.center(), (t1.remap()[0] as int, t1.remap()[1] as int, t1.remap()[2] as int)),
        ),
        seed_of(q) == Some(
            (t2.center(), (t2.remap()[0] as int, t2.remap()[1] as int, t2.remap()[2] as int)),
        ),
        is_sweep_order(
            p,
            t1.center(),
            (t1.remap()[0] as int, t1.remap()[1] as int, t1.remap()[2] as int),
            t1.remap(),
        ),
        is_sweep_order(
            q,
            t2.center(),
            (t2.remap()[0] as int, t2.remap()[1] as int, t2.remap()[2] as int),
            t2.remap(),
        ),
    ensures
        t1.center() == t2.center(),
        t1.points() =~= t2.points(),
{
    let n = p.len() as int;
    assert(t1.points().len() == n && t2.points().len() == n);
    assert forall|k: int| 0 <= k < n implies t1.points()[k] == t2.points()[k] by {
        law_sweep_ignores_input_order(
            p,
            q,
            t1.center(),
            (t1.remap()[0] as int, t1.remap()[1] as int, t1.remap()[2] as int),
            t1.remap(),
            t2.center(),
            (t2.remap()[0] as int, t2.remap()[1] as int, t2.remap()[2] as int),
            t2.remap(),
            k,
        );
        law_maps_are_inverse(t1, k);
        law_maps_are_inverse(t2, k);
    }
    law_sweep_ignores_input_order(
        p,
        q,
        t1.center(),
        (t1.remap()[0] as int, t1.remap()[1] as int, t1.remap()[2] as int),
        t1.remap(),
        t2.center(),
        (t2.remap()[0] as int, t2.remap()[1] as int, t2.remap()[2] as int),
        t2.remap(),
        0,
    );
}

/// The boundary ring is a convex polygon: every boundary point lies to the
/// left of, or on, the line through every boundary edge.
pub open spec fn ring_is_convex(t: Triangulation) -> bool {
    forall|w: int, u: int|
        #[trigger] t.hull().is_live(w) && #[trigger] t.hull().is_live(u) ==> spec_orient2d(
            t.points()[w],
            t.points()[t.hull().next_point(w) as int],
            t.points()[u],
        ) >= 0
}

/// Every point taken in lies inside the boundary ring: in the triangle that
/// the center makes with some boundary edge.
pub proof fn law_points_inside_the_ring(t: Triangulation, x: int)
    requires
        t.wf(),
        0 <= x < t.progress(),
    ensures
        exists|v: int| #[trigger]
            t.hull().is_live(v) && dir_in_triangle(
                rel(t.points()[v], t.center()),
                rel(t.points()[t.hull().next_point(v) as int], t.center()),
                rel(t.points()[x], t.center()),
            ),
{
    assert(is_inside(t.hull(), x));
    let v = choose|v: int| #[trigger] holds(t.hull(), v, x);
    law_boundary_ring(t, v);
    let n = t.hull().next_point(v) as int;
    law_boundary_ring(t, n);
    assert(t.hull().dir(v) == rel(t.points()[v], t.center()));
    assert(t.hull().dir(n) == rel(t.points()[n], t.center()));
    assert(t.hull().dir(x) == rel(t.points()[x], t.center()));
    assert(t.hull().is_live(v));
}

/// When the boundary ring is a convex polygon, it is the convex hull of
/// the points taken in: every one of them lies to the left of, or on, the
/// line through every boundary edge.
pub proof fn law_convex_ring_is_the_hull(t: Triangulation, w: int, x: int)
    requires
        t.wf(),
        ring_is_convex(t),
        t.hull().is_live(w),
        0 <= x < t.progress(),
    ensures
        spec_orient2d(
            t.points()[w],
            t.points()[t.hull().next_point(w) as int],
            t.points()[x],
        ) >= 0,
{
    let c = t.center();
    let pts = t.points();
    assert(is_inside(t.hull(), x));
    let v = choose|v: int| #[trigger] holds(t.hull(), v, x);
    law_boundary_ring(t, v);
    law_boundary_ring(t, w);
    let n = t.hull().next_point(v) as int;
    let w2 = t.hull().next_point(w) as int;
    law_boundary_ring(t, n);
    law_boundary_ring(t, w2);
    assert(t.hull().dir(v) == rel(pts[v], c));
    assert(t.hull().dir(n) == rel(pts[n], c));
    assert(t.hull().dir(x) == rel(pts[x], c));
    let dv = rel(pts[v], c);
    let dn = rel(pts[n], c);
    let dx = rel(pts[x], c);
    let dw = rel(pts[w], c);
    let dw2 = rel(pts[w2], c);
    // the half-plane to the left of the line from `w` to `w2`, in offsets:
    // cross(dw, dw2) + det2(y, dw - dw2) >= 0
    let ux = dw.0 - dw2.0;
    let uy = dw.1 - dw2.1;
    let k = cross(dw, dw2);
    lemma_orient_rel(pts[w], pts[w2], pts[v], c);
    lemma_orient_rel(pts[w], pts[w2], pts[n], c);
    lemma_orient_rel(pts[w], pts[w2], pts[x], c);
    lemma_det2_linear(dv.0 as int, dv.1 as int, dw.0 as int, dw.1 as int, dw2.0 as int, dw2.1 as int);
    lemma_det2_linear(dn.0 as int, dn.1 as int, dw.0 as int, dw.1 as int, dw2.0 as int, dw2.1 as int);
    lemma_det2_linear(dx.0 as int, dx.1 as int, dw.0 as int, dw.1 as int, dw2.0 as int, dw2.1 as int);
    lemma_det2_linear(dw2.0 as int, dw2.1 as int, dv.0 as int, dv.1 as int, 0, 0);
    lemma_det2_linear(dw2.0 as int, dw2.1 as int, dn.0 as int, dn.1 as int, 0, 0);
    lemma_det2_linear(dw2.0 as int, dw2.1 as int, dx.0 as int, dx.1 as int, 0, 0);
    assert(spec_orient2d(pts[w], pts[w2], pts[v]) >= 0);
    assert(spec_orient2d(pts[w], pts[w2], pts[n]) >= 0);
    lemma_triangle_in_halfplane(
        dv.0 as int,
        dv.1 as int,
        dn.0 as int,
        dn.1 as int,
        dx.0 as int,
        dx.1 as int,
        ux,
        uy,
        k,
    );
}

} // verus!
