//! The triangulator: a sweep that takes the points in order of their
//! distance from the center, hangs each on the boundary edge it faces,
//! fills the sharp pockets this leaves, and flips edges until every edge is
//! locally Delaunay again.
use vstd::prelude::*;
use crate::algebra::{lemma_det2_linear, lemma_ori_permuted};
use crate::half::{
    edges_wf, flippable, is_flip, lemma_flip_places, lemma_flipped_is_flip,
    lemma_with_triangle_at, moved, next_of, prev_of, Edge, Half, EMPTY,
};
use crate::hull::{cross, dir_in_range, succ, Dir, Hull};
use crate::consistency::{
    center_in_range, holds, hull_edge_ok, hull_linked, is_inside, lemma_attach_hull,
    lemma_ccw_distinct, lemma_fill_hull, lemma_flip_sound, lemma_grow_mesh, lemma_inside_attach,
    lemma_inside_fill, lemma_inside_same_ring, lemma_nonzero_dir, lemma_norm_fits,
    lemma_orient_rel, lemma_pending_flip, lemma_pending_pop, lemma_pocket, lemma_point_visible,
    lemma_rel, maps_ok, norm2, pending_ok, points_ok, rel, sharp_ahead, sharp_behind, sound,
    MAX_POINTS,
};
use crate::mesh::{
    all_legal, area_sum, edge_ccw, edge_legal, lemma_ccw_flippable, lemma_flip_geometry,
    lemma_flip_potential, lemma_grow_area, lemma_grow_used, lemma_grow_used_same,
    lemma_potential_nonneg, potential, starts_at, tri_area2, used,
};
use crate::predicates::{
    acute, in_circle, in_range, orient2d, spec_orient2d, Point, MAX_COORD,
};
use crate::seed::{
    all_in_range, bounding_box, find_seed, has_duplicates, is_bbox, is_sweep_order, key_lt,
    key_of, offset, seed_of, sweep_order,
};

verus! {

/// Why a set of points has no triangulation.
#[derive(Clone, Copy, Debug, PartialEq, Eq, Structural)]
pub enum TriangulationError {
    /// No center was found that lies strictly inside the triangle of its
    /// three nearest points: there are fewer than three points, or they lie
    /// on a line, or nearly so.
    SeedSearchFailed,
    /// A coordinate lies outside the range in which the predicates are exact.
    CoordinateOutOfRange,
    /// Two of the points are the same point.
    DuplicatePoint,
}

/// A Delaunay triangulation under construction.
pub struct Triangulation {
    /// Six times the center of the sweep.
    center: Point,
    /// The points in the order of the sweep.
    points: Vec<Point>,
    /// For each place in the sweep, the place of that point in the input.
    remap: Vec<usize>,
    /// For each place in the input, the place of that point in the sweep.
    forward: Vec<usize>,
    /// The place in the sweep of the next point to take in.
    next: usize,
    /// The boundary of the triangulated region.
    hull: Hull,
    /// The triangles.
    half: Half,
}

impl Triangulation {
    /// Six times the center of the sweep.
    pub closed spec fn center(&self) -> Point {
        self.center
    }

    /// The points in the order of the sweep.
    pub closed spec fn points(&self) -> Seq<Point> {
        self.points@
    }

    /// For each place in the order of the sweep, the place of that point in
    /// the input.
    pub closed spec fn remap(&self) -> Seq<usize> {
        self.remap@
    }

    /// For each place in the input, the place of that point in the order of
    /// the sweep.
    pub closed spec fn forward(&self) -> Seq<usize> {
        self.forward@
    }

    /// Number of points that are part of the triangulation so far.
    pub closed spec fn progress(&self) -> int {
        self.next as int
    }

    /// The ring of boundary points.
    pub closed spec fn hull(&self) -> Hull {
        self.hull
    }

    /// The half-edges of the triangles.
    pub closed spec fn edges(&self) -> Seq<Edge> {
        self.half@
    }

    /// The points in the order of the input.
    pub open spec fn input(&self) -> Seq<Point> {
        Seq::new(self.points().len(), |i: int| self.points()[self.forward()[i] as int])
    }

    /// Number of triangles.
    pub open spec fn triangle_count(&self) -> int {
        self.edges().len() as int / 3
    }

    /// The store is consistent and has room for the triangles of all points.
    pub closed spec fn store_ok(&self) -> bool {
        &&& self.half.wf()
        &&& self.half.limit() == 2 * self.points@.len() - 5
    }

    /// What holds between any two steps, save that edges may wait to be
    /// legalized.
    pub open spec fn wf_pending(&self) -> bool {
        &&& sound(self.points(), self.center(), self.edges(), self.hull(), self.progress())
        &&& maps_ok(self.forward(), self.remap(), self.points().len() as int)
        &&& self.store_ok()
    }

    /// What holds between any two steps: the triangles wind
    /// counter-clockwise and fit together, the ring runs along the edges
    /// without a twin, and every edge is locally Delaunay.
    pub open spec fn wf(&self) -> bool {
        &&& self.wf_pending()
        &&& all_legal(self.edges(), self.points())
    }

    /// `self` differs from `other` at most in its triangles and in the
    /// edges the ring keeps.
    pub open spec fn same_frame(&self, other: Triangulation) -> bool {
        &&& self.points() == other.points()
        &&& self.center() == other.center()
        &&& self.remap() == other.remap()
        &&& self.forward() == other.forward()
        &&& self.progress() == other.progress()
        &&& self.hull().same_ring(other.hull())
        &&& self.edges().len() == other.edges().len()
    }

    /// What stays as it is while the triangulation grows: the points, the
    /// center and the maps between the two orders.
    pub open spec fn same_input(&self, other: Triangulation) -> bool {
        &&& self.points() == other.points()
        &&& self.center() == other.center()
        &&& self.remap() == other.remap()
        &&& self.forward() == other.forward()
    }

    /// The bounding box of the points: the least and the greatest first
    /// coordinate, then the least and the greatest second coordinate.
    pub fn bbox(points: &[Point]) -> (r: ((i64, i64), (i64, i64)))
        requires
            points@.len() > 0,
        ensures
            is_bbox(points@, r),
    {
        bounding_box(points)
    }

    /// Starts a triangulation of the points: chooses the center and the
    /// seed triangle, orders the points for the sweep and builds the seed
    /// triangle. Fails if a coordinate is out of range, if no seed is found,
    /// or if two points are the same; in this order.
    pub fn new(points: &[Point]) -> (r: Result<Triangulation, TriangulationError>)
        requires
            points@.len() <= MAX_POINTS,
        ensures
            match r {
                Err(TriangulationError::CoordinateOutOfRange) => !all_in_range(points@),
                Err(TriangulationError::SeedSearchFailed) => all_in_range(points@) && seed_of(
                    points@,
                ).is_none(),
                Err(TriangulationError::DuplicatePoint) => all_in_range(points@) && seed_of(
                    points@,
                ).is_some() && has_duplicates(points@),
                Ok(t) => {
                    &&& all_in_range(points@)
                    &&& !has_duplicates(points@)
                    &&& seed_of(points@) == Some(
                        (
                            t.center(),
                            (t.remap()[0] as int, t.remap()[1] as int, t.remap()[2] as int),
                        ),
                    )
                    &&& is_sweep_order(
                        points@,
                        t.center(),
                        (t.remap()[0] as int, t.remap()[1] as int, t.remap()[2] as int),
                        t.remap(),
                    )
                    &&& t.wf()
                    &&& t.input() == points@
                    &&& t.progress() == 3
                    &&& t.edges() =~= seq![
                        Edge { src: 0, dst: 1, buddy: EMPTY },
                        Edge { src: 1, dst: 2, buddy: EMPTY },
                        Edge { src: 2, dst: 0, buddy: EMPTY },
                    ]
                    &&& t.hull().size() == 3
                    &&& forall|v: int| t.hull().is_live(v) <==> 0 <= v < 3
                    &&& forall|v: int| 0 <= v < 3 ==> t.hull().edge_of(v) == v
                },
            },
    {
        let n = points.len();
        let mut i: usize = 0;
        while i < n
            invariant
                n == points@.len(),
                i <= n,
                forall|j: int| 0 <= j < i ==> in_range(#[trigger] points@[j]),
            decreases n - i,
        {
            let p = points[i];
            if p.0 < -MAX_COORD || p.0 > MAX_COORD || p.1 < -MAX_COORD || p.1 > MAX_COORD {
                return Err(TriangulationError::CoordinateOutOfRange);
            }
            i = i + 1;
        }
        if n < 3 {
            return Err(TriangulationError::SeedSearchFailed);
        }
        let seed = match find_seed(points) {
            Some(seed) => seed,
            None => {
                return Err(TriangulationError::SeedSearchFailed);
            },
        };
        let order = match sweep_order(points, &seed) {
            Some(order) => order,
            None => {
                return Err(TriangulationError::DuplicatePoint);
            },
        };
        let center = seed.center;
        let ghost t3 = (seed.a as int, seed.b as int, seed.c as int);
        let mut sorted: Vec<Point> = Vec::new();
        let mut dirs: Vec<Dir> = Vec::new();
        let mut forward: Vec<usize> = Vec::new();
        let mut k: usize = 0;
        while k < n
            invariant
                n == points@.len(),
                k <= n,
                forward@.len() == k,
            decreases n - k,
        {
            forward.push(0);
            k = k + 1;
        }
        k = 0;
        while k < n
            invariant
                n == points@.len(),
                all_in_range(points@),
                center_in_range(center),
                is_sweep_order(points@, center, t3, order@),
                k <= n,
                sorted@.len() == k,
                dirs@.len() == k,
                forward@.len() == n,
                forall|j: int| 0 <= j < k ==> #[trigger] sorted@[j] == points@[order@[j] as int],
                forall|j: int| 0 <= j < k ==> #[trigger] dirs@[j] == rel(sorted@[j], center),
                forall|j: int| 0 <= j < k ==> forward@[(#[trigger] order@[j]) as int] == j,
            decreases n - k,
        {
            let j = order[k];
            let p = points[j];
            sorted.push(p);
            dirs.push(offset(p, center));
            forward.set(j, k);
            k = k + 1;
        }
        proof {
            let o = order@;
            let pts = sorted@;
            assert forall|x: int| 0 <= x < n implies in_range(#[trigger] pts[x]) by {
                assert(pts[x] == points@[o[x] as int]);
            }
            assert forall|x: int, y: int| 0 <= x < y < n implies #[trigger] pts[x]
                != #[trigger] pts[y] by {
                let a = o[x] as int;
                let b = o[y] as int;
                assert(a != b);
                if points@[a] == points@[b] {
                    if a < b {
                        assert(0 <= a < b < n && points@[a] == points@[b]);
                    } else {
                        assert(0 <= b < a < n && points@[b] == points@[a]);
                    }
                }
            }
            assert forall|x: int, y: int| 0 <= x < y < n && 3 <= y implies norm2(
                rel(#[trigger] pts[x], center),
            ) <= norm2(rel(#[trigger] pts[y], center)) by {
                assert(key_lt(
                    key_of(points@, center, o[x] as int),
                    key_of(points@, center, o[y] as int),
                ));
                lemma_norm_fits(points@[o[x] as int], center);
                lemma_norm_fits(points@[o[y] as int], center);
            }
            assert(points_ok(pts, center));
            assert forall|x: int| 0 <= x < n implies (#[trigger] forward@[x]) < n
                && o[forward@[x] as int] == x by {
                assert(o.contains(x as usize));
                let y = choose|y: int| 0 <= y < o.len() && o[y] == x as usize;
                assert(forward@[o[y] as int] == y);
            }
            assert(maps_ok(forward@, o, n as int));
            lemma_orient_rel(pts[0], pts[1], pts[2], center);
            lemma_ori_permuted(
                pts[0].0 as int,
                pts[0].1 as int,
                pts[1].0 as int,
                pts[1].1 as int,
                pts[2].0 as int,
                pts[2].1 as int,
            );
            assert forall|v: int| 0 <= v < dirs@.len() implies dir_in_range(
                #[trigger] dirs@[v],
            ) by {
                lemma_rel(pts[v], center);
            }
        }
        let mut half = Half::new(2 * n - 5);
        let e = half.insert(0, 1, 2, EMPTY, EMPTY, EMPTY);
        let e1 = half.next(e);
        let e2 = half.prev(e);
        let hull = Hull::new(dirs, e, e1, e2);
        let t = Triangulation { center, points: sorted, remap: order, forward, next: 3, hull, half };
        proof {
            let empty = Seq::<Edge>::empty();
            lemma_with_triangle_at(empty, 0, 1, 2, EMPTY, EMPTY, EMPTY);
            let r = t.half@;
            assert(r.len() == 3);
            assert(r[0] == Edge { src: 0, dst: 1, buddy: EMPTY });
            assert(r[1] == Edge { src: 1, dst: 2, buddy: EMPTY });
            assert(r[2] == Edge { src: 2, dst: 0, buddy: EMPTY });
            assert forall|x: int| 0 <= x < r.len() implies #[trigger] edge_ccw(r, t.points@, x) by {
                assert(x == 0 || x == 1 || x == 2);
            }
            assert forall|v: int| 0 <= v < 3 implies #[trigger] used(r, v) by {
                assert(starts_at(r, v, v));
            }
            assert forall|x: int| 0 <= x < 3 implies #[trigger] is_inside(t.hull, x) by {
                let d = t.hull.dir(x);
                lemma_det2_linear(d.0 as int, d.1 as int, d.0 as int, d.1 as int, 0, 0);
                assert(holds(t.hull, x, x));
            }
            assert(area_sum(r, t.points@, 0) == 0);
            assert(area_sum(r, t.points@, 1) == tri_area2(r, t.points@, 0));
            assert(t.input() =~= points@);
        }
        Ok(t)
    }

    /// Takes every remaining point into the triangulation.
    pub fn run(&mut self)
        requires
            old(self).wf(),
        ensures
            final(self).wf(),
            final(self).same_input(*old(self)),
            final(self).progress() == final(self).points().len(),
    {
        loop
            invariant
                self.wf(),
                self.same_input(*old(self)),
            ensures
                self.progress() == self.points().len(),
            decreases self.points().len() - self.progress(),
        {
            if !self.step() {
                break ;
            }
        }
    }

    /// Takes the next point of the sweep into the triangulation. Returns
    /// `false`, and changes nothing, when every point is part of it already;
    /// otherwise returns `true` and leaves the point on the boundary.
    pub fn step(&mut self) -> (more: bool)
        requires
            old(self).wf(),
        ensures
            final(self).wf(),
            final(self).same_input(*old(self)),
            more == (old(self).progress() < old(self).points().len()),
            !more ==> final(self).progress() == old(self).progress() && final(self).edges()
                == old(self).edges() && final(self).hull() == old(self).hull(),
            more ==> final(self).progress() == old(self).progress() + 1,
            more ==> final(self).hull().is_live(old(self).progress()),
            more ==> final(self).triangle_count() > old(self).triangle_count(),
            more ==> final(self).hull().size() <= old(self).hull().size() + 1,
            forall|v: int|
                final(self).hull().is_live(v) ==> old(self).hull().is_live(v) || (more && v == old(
                    self,
                ).progress()),
    {
        if self.next == self.points.len() {
            return false;
        }
        let p = self.next;
        let ghost s = self.half@;
        let ghost h0 = self.hull;
        let ghost count = self.next as int;
        let ghost pts = self.points@;
        proof {
            lemma_nonzero_dir(pts, self.center, p as int);
        }
        let e_ab = self.hull.get_edge(p);
        proof {
            let w = choose|w: int| #[trigger]
                h0.is_live(w) && h0.sees(w, p as int) && e_ab == h0.edge_of(w);
            assert(hull_edge_ok(h0, s, w, count));
        }
        let edge = self.half.edge(e_ab);
        let a = edge.src;
        let b = edge.dst;
        proof {
            h0.lemma_neighbours(a as int);
            assert(hull_edge_ok(h0, s, a as int, count));
            assert(hull_edge_ok(h0, s, b as int, count));
            assert(!h0.is_live(p as int)) by {
                if h0.is_live(p as int) {
                    assert(hull_edge_ok(h0, s, p as int, count));
                }
            }
            lemma_point_visible(pts, self.center, a as int, b as int, p as int);
            lemma_ccw_distinct(pts[b as int], pts[a as int], pts[p as int]);
        }
        let f = self.half.insert(b, a, p, e_ab, EMPTY, EMPTY);
        let f1 = self.half.next(f);
        let f2 = self.half.prev(f);
        self.hull.update(a, f1);
        let ghost h1 = self.hull;
        proof {
            h1.lemma_same_ring(h0);
        }
        self.hull.insert(a, p, f2);
        self.next = p + 1;
        let mut stack: Vec<usize> = Vec::new();
        stack.push(f);
        proof {
            let r = self.half@;
            let h2 = self.hull;
            lemma_with_triangle_at(s, b, a, p, e_ab, EMPTY, EMPTY);
            assert(stack@[0] == f);
            assert(stack@.contains(f));
            lemma_grow_mesh(pts, s, r, b, a, p, e_ab, EMPTY, EMPTY, count + 1, stack@);
            lemma_grow_used(s, r, b, a, p, e_ab, EMPTY, EMPTY, count);
            lemma_grow_area(pts, s, r, b, a, p, e_ab, EMPTY, EMPTY);
            lemma_orient_rel(pts[b as int], pts[a as int], pts[p as int], self.center);
            let va = rel(pts[a as int], self.center);
            let vb = rel(pts[b as int], self.center);
            let vp = rel(pts[p as int], self.center);
            lemma_det2_linear(vb.0 as int, vb.1 as int, va.0 as int, va.1 as int, 0, 0);
            lemma_inside_same_ring(h0, h1, count);
            lemma_inside_attach(h1, h2, a as int, b as int, p as int, count);
            lemma_attach_hull(s, r, h0, h2, a, b, p, count);
        }
        let ghost h2 = self.hull;
        self.legalize(stack);
        proof {
            self.hull.lemma_same_ring(h2);
        }
        self.close_ahead(p);
        self.close_behind(p);
        true
    }

    /// The triangles, each as the places of its three corners in the input,
    /// in counter-clockwise order.
    pub fn triangles(&self) -> (r: Vec<(usize, usize, usize)>)
        requires
            self.wf(),
        ensures
            r@.len() == self.triangle_count(),
            r@.len() == 2 * self.progress() - 2 - self.hull().size(),
            forall|t: int|
                0 <= t < r@.len() ==> #[trigger] r@[t] == (
                    self.remap()[self.edges()[3 * t].src as int],
                    self.remap()[self.edges()[3 * t + 1].src as int],
                    self.remap()[self.edges()[3 * t + 2].src as int],
                ),
            forall|t: int|
                0 <= t < r@.len() ==> {
                    &&& (#[trigger] r@[t]).0 < self.input().len()
                    &&& r@[t].1 < self.input().len()
                    &&& r@[t].2 < self.input().len()
                    &&& spec_orient2d(
                        self.input()[r@[t].0 as int],
                        self.input()[r@[t].1 as int],
                        self.input()[r@[t].2 as int],
                    ) > 0
                },
    {
        let corners = self.half.triangles();
        let n = corners.len();
        let mut out: Vec<(usize, usize, usize)> = Vec::new();
        let mut t: usize = 0;
        while t < n
            invariant
                self.wf(),
                n == corners@.len(),
                3 * n == self.half@.len(),
                forall|k: int|
                    0 <= k < n ==> #[trigger] corners@[k] == (
                        self.half@[3 * k].src,
                        self.half@[3 * k + 1].src,
                        self.half@[3 * k + 2].src,
                    ),
                t <= n,
                out@.len() == t,
                forall|k: int|
                    0 <= k < t ==> #[trigger] out@[k] == (
                        self.remap@[self.half@[3 * k].src as int],
                        self.remap@[self.half@[3 * k + 1].src as int],
                        self.remap@[self.half@[3 * k + 2].src as int],
                    ),
            decreases n - t,
        {
            let (a, b, c) = corners[t];
            proof {
                assert(corners@[t as int] == (a, b, c));
                assert(self.half@[3 * t as int].src < self.next);
                assert(self.half@[3 * t + 1].src < self.next);
                assert(self.half@[3 * t + 2].src < self.next);
            }
            out.push((self.remap[a], self.remap[b], self.remap[c]));
            t = t + 1;
        }
        proof {
            assert forall|k: int| 0 <= k < out@.len() implies {
                &&& (#[trigger] out@[k]).0 < self.input().len()
                &&& out@[k].1 < self.input().len()
                &&& out@[k].2 < self.input().len()
                &&& spec_orient2d(
                    self.input()[out@[k].0 as int],
                    self.input()[out@[k].1 as int],
                    self.input()[out@[k].2 as int],
                ) > 0
            } by {
                let a = self.half@[3 * k].src;
                let b = self.half@[3 * k + 1].src;
                let c = self.half@[3 * k + 2].src;
                assert(a < self.next && b < self.next && c < self.next);
                assert(edge_ccw(self.half@, self.points@, 3 * k));
                assert(next_of(3 * k) == 3 * k + 1 && prev_of(3 * k) == 3 * k + 2);
                assert(self.forward@[self.remap@[a as int] as int] == a);
                assert(self.forward@[self.remap@[b as int] as int] == b);
                assert(self.forward@[self.remap@[c as int] as int] == c);
            }
        }
        out
    }

    /// Number of points.
    pub fn point_count(&self) -> (n: usize)
        requires
            self.wf(),
        ensures
            n == self.points().len(),
    {
        self.points.len()
    }

    /// Whether every point is part of the triangulation.
    pub fn is_complete(&self) -> (done: bool)
        requires
            self.wf(),
        ensures
            done == (self.progress() == self.points().len()),
    {
        self.next == self.points.len()
    }

    /// Six times the center of the sweep.
    pub fn sweep_center(&self) -> (c: Point)
        ensures
            c == self.center(),
    {
        self.center
    }

    /// The point at place `i` of the sweep.
    pub fn point(&self, i: usize) -> (p: Point)
        requires
            self.wf(),
            i < self.points().len(),
        ensures
            p == self.points()[i as int],
            p == self.input()[self.remap()[i as int] as int],
    {
        self.points[i]
    }

    /// The place in the input of the point at place `i` of the sweep.
    pub fn input_index(&self, i: usize) -> (j: usize)
        requires
            self.wf(),
            i < self.points().len(),
        ensures
            j == self.remap()[i as int],
            j < self.points().len(),
            self.forward()[j as int] == i,
    {
        self.remap[i]
    }

    /// The place in the sweep of the point at place `j` of the input.
    pub fn sweep_index(&self, j: usize) -> (i: usize)
        requires
            self.wf(),
            j < self.points().len(),
        ensures
            i == self.forward()[j as int],
            i < self.points().len(),
            self.remap()[i as int] == j,
    {
        self.forward[j]
    }

    /// Number of half-edges, three for each triangle.
    pub fn edge_count(&self) -> (n: usize)
        requires
            self.wf(),
        ensures
            n == self.edges().len(),
            n == 3 * self.triangle_count(),
    {
        self.half.len()
    }

    /// The half-edge `e`; its ends are places in the sweep.
    pub fn edge(&self, e: usize) -> (r: Edge)
        requires
            self.wf(),
            e < self.edges().len(),
        ensures
            r == self.edges()[e as int],
            r.src < self.progress(),
            r.dst < self.progress(),
    {
        self.half.edge(e)
    }

    /// Number of points on the boundary.
    pub fn hull_size(&self) -> (h: usize)
        requires
            self.wf(),
        ensures
            h == self.hull().size(),
            h >= 3,
    {
        proof {
            self.hull.lemma_start_live();
            self.hull.lemma_neighbours(self.hull.start_point() as int);
        }
        self.hull.len()
    }

    /// The boundary as places in the sweep, in counter-clockwise order.
    /// Each point is followed by the end of the boundary edge that leaves
    /// it, and the center is never to the right of that edge.
    pub fn hull_points(&self) -> (r: Vec<usize>)
        requires
            self.wf(),
        ensures
            r@.len() == self.hull().size(),
            r@.no_duplicates(),
            r@[0] == self.hull().start_point(),
            forall|k: int|
                0 <= k < r@.len() ==> {
                    let v = (#[trigger] r@[k]) as int;
                    let w = r@[succ(k, r@.len() as int)] as int;
                    &&& 0 <= v < self.progress()
                    &&& self.hull().is_live(v)
                    &&& self.hull().next_point(v) == w
                    &&& self.hull().edge_of(v) < self.edges().len()
                    &&& self.edges()[self.hull().edge_of(v) as int] == Edge {
                        src: v as usize,
                        dst: w as usize,
                        buddy: EMPTY,
                    }
                    &&& cross(
                        rel(self.points()[v], self.center()),
                        rel(self.points()[w], self.center()),
                    ) >= 0
                },
            forall|v: int| self.hull().is_live(v) ==> r@.contains(v as usize),
    {
        let r = self.hull.walk();
        proof {
            assert forall|k: int| 0 <= k < r@.len() implies {
                let v = (#[trigger] r@[k]) as int;
                let w = r@[succ(k, r@.len() as int)] as int;
                &&& 0 <= v < self.progress()
                &&& self.hull().is_live(v)
                &&& self.hull().next_point(v) == w
                &&& self.hull().edge_of(v) < self.edges().len()
                &&& self.edges()[self.hull().edge_of(v) as int] == Edge {
                    src: v as usize,
                    dst: w as usize,
                    buddy: EMPTY,
                }
                &&& cross(
                    rel(self.points()[v], self.center()),
                    rel(self.points()[w], self.center()),
                ) >= 0
            } by {
                let v = r@[k] as int;
                assert(hull_edge_ok(self.hull, self.half@, v, self.next as int));
                self.hull.lemma_neighbours(v);
                let w = self.hull.next_point(v) as int;
                assert(hull_edge_ok(self.hull, self.half@, w, self.next as int));
            }
        }
        r
    }

    /// The boundary edge that leaves the boundary point `v`.
    pub fn hull_edge(&self, v: usize) -> (e: usize)
        requires
            self.wf(),
            self.hull().is_live(v as int),
        ensures
            e == self.hull().edge_of(v as int),
            e < self.edges().len(),
            self.edges()[e as int].src == v,
            self.edges()[e as int].buddy == EMPTY,
    {
        proof {
            assert(hull_edge_ok(self.hull, self.half@, v as int, self.next as int));
        }
        self.hull.edge(v)
    }

    /// Walks the boundary counter-clockwise from the boundary point `p` and
    /// closes each pocket whose angle is acute and whose triangle winds
    /// counter-clockwise, until one fails either test. Each pocket closed
    /// takes one point off the ring, the one after `p`, and adds one
    /// triangle; the rest of the ring stays linked as it was.
    fn close_ahead(&mut self, p: usize)
        requires
            old(self).wf(),
            old(self).hull.is_live(p as int),
        ensures
            final(self).wf(),
            final(self).same_input(*old(self)),
            final(self).progress() == old(self).progress(),
            final(self).hull.is_live(p as int),
            !sharp_ahead(final(self).hull, final(self).points(), p as int),
            !sharp_ahead(old(self).hull, old(self).points(), p as int) ==> final(self).hull
                == old(self).hull && final(self).edges() == old(self).edges(),
            final(self).hull.size() <= old(self).hull.size(),
            final(self).edges().len() == old(self).edges().len() + 3 * (old(self).hull.size()
                - final(self).hull.size()),
            forall|v: int| final(self).hull.is_live(v) ==> old(self).hull.is_live(v),
            final(self).hull.prev_point(p as int) == old(self).hull.prev_point(p as int),
            forall|v: int|
                final(self).hull.is_live(v) && v != p ==> final(self).hull.next_point(v) == old(
                    self,
                ).hull.next_point(v),
            forall|v: int|
                final(self).hull.is_live(v) && v != final(self).hull.next_point(p as int)
                    ==> final(self).hull.prev_point(v) == old(self).hull.prev_point(v),
    {
        loop
            invariant
                self.wf(),
                self.same_input(*old(self)),
                self.progress() == old(self).progress(),
                self.hull.is_live(p as int),
                !sharp_ahead(old(self).hull, old(self).points(), p as int) ==> self.hull == old(
                    self,
                ).hull && self.edges() == old(self).edges(),
                self.hull.size() <= old(self).hull.size(),
                self.edges().len() == old(self).edges().len() + 3 * (old(self).hull.size()
                    - self.hull.size()),
                forall|v: int| self.hull.is_live(v) ==> old(self).hull.is_live(v),
                self.hull.prev_point(p as int) == old(self).hull.prev_point(p as int),
                forall|v: int|
                    self.hull.is_live(v) && v != p ==> self.hull.next_point(v) == old(
                        self,
                    ).hull.next_point(v),
                forall|v: int|
                    self.hull.is_live(v) && v != self.hull.next_point(p as int)
                        ==> self.hull.prev_point(v) == old(self).hull.prev_point(v),
            ensures
                !sharp_ahead(self.hull, self.points(), p as int),
            decreases self.hull.size(),
        {
            proof {
                self.hull.lemma_neighbours(p as int);
            }
            let b = self.hull.next(p);
            proof {
                self.hull.lemma_neighbours(b as int);
                assert(hull_edge_ok(self.hull, self.half@, p as int, self.next as int));
                assert(hull_edge_ok(self.hull, self.half@, b as int, self.next as int));
            }
            let q = self.hull.next(b);
            proof {
                assert(hull_edge_ok(self.hull, self.half@, q as int, self.next as int));
            }
            let pp = self.points[p];
            let pb = self.points[b];
            let pq = self.points[q];
            if acute(pp, pb, pq) <= 0 || orient2d(pp, pb, pq) >= 0 {
                break ;
            }
            proof {
                lemma_ori_permuted(
                    pp.0 as int,
                    pp.1 as int,
                    pb.0 as int,
                    pb.1 as int,
                    pq.0 as int,
                    pq.1 as int,
                );
                lemma_ccw_distinct(pp, pq, pb);
            }
            self.fill(p, b, q);
        }
    }

    /// Walks the boundary clockwise from the boundary point `p` and closes
    /// each pocket whose angle is acute and whose triangle winds
    /// counter-clockwise, until one fails either test. Each pocket closed
    /// takes one point off the ring, the one before `p`, and adds one
    /// triangle; the rest of the ring stays linked as it was.
    fn close_behind(&mut self, p: usize)
        requires
            old(self).wf(),
            old(self).hull.is_live(p as int),
        ensures
            final(self).wf(),
            final(self).same_input(*old(self)),
            final(self).progress() == old(self).progress(),
            final(self).hull.is_live(p as int),
            !sharp_behind(final(self).hull, final(self).points(), p as int),
            !sharp_behind(old(self).hull, old(self).points(), p as int) ==> final(self).hull
                == old(self).hull && final(self).edges() == old(self).edges(),
            final(self).hull.size() <= old(self).hull.size(),
            final(self).edges().len() == old(self).edges().len() + 3 * (old(self).hull.size()
                - final(self).hull.size()),
            forall|v: int| final(self).hull.is_live(v) ==> old(self).hull.is_live(v),
            final(self).hull.next_point(p as int) == old(self).hull.next_point(p as int),
            forall|v: int|
                final(self).hull.is_live(v) && v != p ==> final(self).hull.prev_point(v) == old(
                    self,
                ).hull.prev_point(v),
            forall|v: int|
                final(self).hull.is_live(v) && v != final(self).hull.prev_point(p as int)
                    ==> final(self).hull.next_point(v) == old(self).hull.next_point(v),
    {
        loop
            invariant
                self.wf(),
                self.same_input(*old(self)),
                self.progress() == old(self).progress(),
                self.hull.is_live(p as int),
                !sharp_behind(old(self).hull, old(self).points(), p as int) ==> self.hull == old(
                    self,
                ).hull && self.edges() == old(self).edges(),
                self.hull.size() <= old(self).hull.size(),
                self.edges().len() == old(self).edges().len() + 3 * (old(self).hull.size()
                    - self.hull.size()),
                forall|v: int| self.hull.is_live(v) ==> old(self).hull.is_live(v),
                self.hull.next_point(p as int) == old(self).hull.next_point(p as int),
                forall|v: int|
                    self.hull.is_live(v) && v != p ==> self.hull.prev_point(v) == old(
                        self,
                    ).hull.prev_point(v),
                forall|v: int|
                    self.hull.is_live(v) && v != self.hull.prev_point(p as int)
                        ==> self.hull.next_point(v) == old(self).hull.next_point(v),
            ensures
                !sharp_behind(self.hull, self.points(), p as int),
            decreases self.hull.size(),
        {
            proof {
                self.hull.lemma_neighbours(p as int);
            }
            let a = self.hull.prev(p);
            proof {
                self.hull.lemma_neighbours(a as int);
                assert(hull_edge_ok(self.hull, self.half@, p as int, self.next as int));
                assert(hull_edge_ok(self.hull, self.half@, a as int, self.next as int));
            }
            let q = self.hull.prev(a);
            proof {
                assert(hull_edge_ok(self.hull, self.half@, q as int, self.next as int));
            }
            let pp = self.points[p];
            let pa = self.points[a];
            let pq = self.points[q];
            if acute(pp, pa, pq) <= 0 || orient2d(pp, pa, pq) <= 0 {
                break ;
            }
            proof {
                lemma_ori_permuted(
                    pp.0 as int,
                    pp.1 as int,
                    pa.0 as int,
                    pa.1 as int,
                    pq.0 as int,
                    pq.1 as int,
                );
                lemma_ccw_distinct(pq, pp, pa);
            }
            self.fill(q, a, p);
        }
    }

    /// Closes the pocket at the boundary point `mid` between its neighbours
    /// `pre` and `suc`: takes `mid` off the ring, adds the triangle
    /// `pre suc mid` and legalizes its two inner sides.
    fn fill(&mut self, pre: usize, mid: usize, suc: usize)
        requires
            old(self).wf(),
            old(self).hull.is_live(pre as int),
            mid == old(self).hull.next_point(pre as int),
            suc == old(self).hull.next_point(mid as int),
            pre < old(self).points@.len() && mid < old(self).points@.len() && suc < old(
                self,
            ).points@.len(),
            spec_orient2d(
                old(self).points@[pre as int],
                old(self).points@[suc as int],
                old(self).points@[mid as int],
            ) > 0,
        ensures
            final(self).wf(),
            final(self).same_input(*old(self)),
            final(self).progress() == old(self).progress(),
            final(self).hull.size() == old(self).hull.size() - 1,
            final(self).edges().len() == old(self).edges().len() + 3,
            forall|v: int| final(self).hull.is_live(v) <==> (old(self).hull.is_live(v) && v != mid),
            forall|v: int|
                v != mid ==> final(self).hull.next_point(v) == (if v == pre {
                    suc
                } else {
                    old(self).hull.next_point(v)
                }),
            forall|v: int|
                v != mid ==> final(self).hull.prev_point(v) == (if v == suc {
                    pre
                } else {
                    old(self).hull.prev_point(v)
                }),
    {
        let ghost s = self.half@;
        let ghost h0 = self.hull;
        let ghost count = self.next as int;
        let ghost pts = self.points@;
        proof {
            h0.lemma_neighbours(pre as int);
            h0.lemma_neighbours(mid as int);
            assert(hull_edge_ok(h0, s, pre as int, count));
            assert(hull_edge_ok(h0, s, mid as int, count));
            assert(h0.is_live(suc as int));
            assert(hull_edge_ok(h0, s, suc as int, count));
            lemma_pocket(pts[pre as int], pts[suc as int], pts[mid as int], self.center);
            lemma_ccw_distinct(pts[pre as int], pts[suc as int], pts[mid as int]);
        }
        let e_pre = self.hull.edge(pre);
        let e_mid = self.hull.edge(mid);
        self.hull.erase(mid);
        let ghost h1 = self.hull;
        proof {
            h1.lemma_neighbours(pre as int);
        }
        let e = self.half.insert(pre, suc, mid, EMPTY, e_mid, e_pre);
        self.hull.update(pre, e);
        let e1 = self.half.next(e);
        let e2 = self.half.prev(e);
        let mut stack: Vec<usize> = Vec::new();
        stack.push(e1);
        stack.push(e2);
        proof {
            let r = self.half@;
            let h2 = self.hull;
            h2.lemma_same_ring(h1);
            lemma_with_triangle_at(s, pre, suc, mid, EMPTY, e_mid, e_pre);
            assert(stack@[0] == e1 && stack@[1] == e2);
            assert(stack@.contains(e1) && stack@.contains(e2));
            lemma_grow_mesh(pts, s, r, pre, suc, mid, EMPTY, e_mid, e_pre, count, stack@);
            lemma_grow_used_same(s, r, pre, suc, mid, EMPTY, e_mid, e_pre, count);
            lemma_grow_area(pts, s, r, pre, suc, mid, EMPTY, e_mid, e_pre);
            lemma_orient_rel(pts[pre as int], pts[suc as int], pts[mid as int], self.center);
            let vp = rel(pts[pre as int], self.center);
            let vq = rel(pts[suc as int], self.center);
            let vb = rel(pts[mid as int], self.center);
            lemma_det2_linear(vq.0 as int, vq.1 as int, vb.0 as int, vb.1 as int, 0, 0);
            lemma_det2_linear(vb.0 as int, vb.1 as int, vp.0 as int, vp.1 as int, 0, 0);
            lemma_inside_fill(h0, h1, pre as int, mid as int, suc as int, count);
            lemma_inside_same_ring(h1, h2, count);
            lemma_fill_hull(s, r, h0, h2, pre, mid, suc, count);
        }
        let ghost h2 = self.hull;
        self.legalize(stack);
        proof {
            self.hull.lemma_same_ring(h2);
        }
    }

    /// Flips edges until every edge is locally Delaunay. `stack` holds the
    /// edges that may not be; a flip puts the four outer edges of the two
    /// triangles it rewrote back on it.
    fn legalize(&mut self, stack: Vec<usize>)
        requires
            old(self).wf_pending(),
            forall|k: int| 0 <= k < stack@.len() ==> #[trigger] stack@[k] < old(self).edges().len(),
            pending_ok(old(self).edges(), old(self).points(), stack@),
        ensures
            final(self).wf(),
            final(self).same_frame(*old(self)),
    {
        let mut stack = stack;
        let ghost k = (self.half@.len() / 3) as nat;
        proof {
            self.hull.lemma_same_ring_refl();
        }
        while stack.len() > 0
            invariant
                self.wf_pending(),
                self.same_frame(*old(self)),
                k == (self.half@.len() / 3) as nat,
                forall|j: int| 0 <= j < stack@.len() ==> #[trigger] stack@[j] < self.half@.len(),
                pending_ok(self.half@, self.points@, stack@),
            decreases potential(self.half@, self.points@, k), stack@.len(),
        {
            let ghost before = stack@;
            let e = stack.pop().unwrap();
            let ghost rest = stack@;
            let ghost s = self.half@;
            let ghost h0 = self.hull;
            proof {
                h0.lemma_same_ring_refl();
                assert(before =~= rest.push(e));
                assert(e == before[before.len() - 1]);
                lemma_potential_nonneg(s, self.points@, k);
            }
            let edge = self.half.edge(e);
            if edge.buddy == EMPTY {
                proof {
                    lemma_pending_pop(s, self.points@, rest, e);
                }
            } else {
                let f = edge.buddy;
                let e1 = self.half.next(e);
                let e2 = self.half.prev(e);
                let f1 = self.half.next(f);
                let f2 = self.half.prev(f);
                let c = self.half.edge(e2).src;
                let d = self.half.edge(f2).src;
                proof {
                    assert(s[f as int].buddy == e);
                    assert(s[e as int].src < self.next && s[e as int].dst < self.next);
                    assert(s[e2 as int].src < self.next);
                    assert(s[f2 as int].src < self.next);
                    assert(edge_ccw(s, self.points@, e as int));
                    assert(edge_ccw(s, self.points@, f as int));
                }
                let t = in_circle(
                    self.points[edge.src],
                    self.points[edge.dst],
                    self.points[c],
                    self.points[d],
                );
                if t > 0 {
                    proof {
                        lemma_ccw_flippable(s, self.points@, e as int);
                        lemma_flip_places(s, e as int);
                        lemma_flipped_is_flip(s, e as int);
                    }
                    self.half.swap(e);
                    let ghost r = self.half@;
                    self.follow(e1, Ghost(s), Ghost(e as int), Ghost(h0));
                    self.follow(e2, Ghost(s), Ghost(e as int), Ghost(h0));
                    self.follow(f1, Ghost(s), Ghost(e as int), Ghost(h0));
                    self.follow(f2, Ghost(s), Ghost(e as int), Ghost(h0));
                    stack.push(e1);
                    stack.push(e2);
                    stack.push(f1);
                    stack.push(f2);
                    proof {
                        let h1 = self.hull;
                        h1.lemma_same_ring_trans(h0, old(self).hull);
                        assert forall|v: int| #[trigger] h0.is_live(v) implies h1.edge_of(v)
                            == moved(s, e as int, h0.edge_of(v)) by {
                            assert(hull_edge_ok(h0, s, v, self.next as int));
                            let y = h0.edge_of(v) as int;
                            if y / 3 == e as int / 3 || y / 3 == f as int / 3 {
                                assert(y == e || y == e1 || y == e2 || y == f || y == f1 || y
                                    == f2);
                            }
                        }
                        lemma_flip_sound(
                            self.points@,
                            self.center,
                            s,
                            r,
                            e as int,
                            h0,
                            h1,
                            self.next as int,
                        );
                        lemma_flip_geometry(self.points@, s, r, e as int);
                        lemma_pending_flip(self.points@, s, r, e as int, rest, stack@);
                        lemma_flip_potential(self.points@, s, r, e as int);
                        lemma_potential_nonneg(r, self.points@, k);
                    }
                } else {
                    proof {
                        lemma_pending_pop(s, self.points@, rest, e);
                    }
                }
            }
        }
        proof {
            assert forall|i: int| 0 <= i < self.half@.len() implies #[trigger] edge_legal(
                self.half@,
                self.points@,
                i,
            ) by {
                assert(!stack@.contains(i as usize));
                assert(!stack@.contains(self.half@[i].buddy));
            }
        }
    }

    /// Lets the ring follow the edge that a flip has moved to place `y`, if
    /// that edge is on the boundary.
    fn follow(&mut self, y: usize, Ghost(s): Ghost<Seq<Edge>>, Ghost(e): Ghost<int>, Ghost(h0): Ghost<Hull>)
        requires
            old(self).hull.wf(),
            old(self).hull.same_ring(h0),
            old(self).half.wf(),
            edges_wf(s),
            flippable(s, e),
            is_flip(s, old(self).half@, e),
            hull_linked(h0, s, old(self).next as int),
            y == next_of(e) || y == prev_of(e) || y == next_of(s[e].buddy as int) || y == prev_of(
                s[e].buddy as int,
            ),
            forall|v: int|
                #[trigger] h0.is_live(v) ==> old(self).hull.edge_of(v) == h0.edge_of(v)
                    || old(self).hull.edge_of(v) == moved(s, e, h0.edge_of(v)),
        ensures
            final(self).hull.wf(),
            final(self).hull.same_ring(h0),
            final(self).half == old(self).half,
            final(self).points == old(self).points,
            final(self).center == old(self).center,
            final(self).remap == old(self).remap,
            final(self).forward == old(self).forward,
            final(self).next == old(self).next,
            forall|v: int|
                #[trigger] h0.is_live(v) ==> final(self).hull.edge_of(v) == (if moved(
                    s,
                    e,
                    h0.edge_of(v),
                ) == y {
                    y
                } else {
                    old(self).hull.edge_of(v)
                }),
    {
        proof {
            lemma_flip_places(s, e);
            self.hull.lemma_same_ring(h0);
        }
        let edge = self.half.edge(y);
        if edge.buddy == EMPTY {
            proof {
                let f = s[e].buddy as int;
                let x: int = if y == prev_of(e) {
                    next_of(e)
                } else if y == next_of(f) {
                    prev_of(e)
                } else if y == prev_of(f) {
                    next_of(f)
                } else {
                    prev_of(f)
                };
                assert(self.half@[y as int] == s[x]);
                assert(moved(s, e, x as usize) == y);
                assert(s[x].buddy == EMPTY);
                assert(h0.is_live(s[x].src as int));
                assert(h0.edge_of(s[x].src as int) == x);
                assert forall|v: int| #[trigger] h0.is_live(v) && moved(s, e, h0.edge_of(v))
                    == y implies v == edge.src by {
                    assert(hull_edge_ok(h0, s, v, self.next as int));
                    let z = h0.edge_of(v) as int;
                    if z / 3 == e / 3 || z / 3 == f / 3 {
                        assert(z == e || z == next_of(e) || z == prev_of(e) || z == f || z
                            == next_of(f) || z == prev_of(f));
                    }
                    assert(z == x);
                }
            }
            self.hull.update(edge.src, y);
            proof {
                self.hull.lemma_same_ring_trans(old(self).hull, h0);
            }
        } else {
            proof {
                let f = s[e].buddy as int;
                assert forall|v: int| #[trigger] h0.is_live(v) implies moved(s, e, h0.edge_of(v))
                    != y by {
                    assert(hull_edge_ok(h0, s, v, self.next as int));
                    let z = h0.edge_of(v) as int;
                    if z / 3 == e / 3 || z / 3 == f / 3 {
                        assert(z == e || z == next_of(e) || z == prev_of(e) || z == f || z
                            == next_of(f) || z == prev_of(f));
                    }
                }
            }
        }
    }
}

} // verus!
