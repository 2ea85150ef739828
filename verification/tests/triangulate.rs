use std::collections::HashSet;

use sweepcircle::half::EMPTY;
use sweepcircle::predicates::{in_circle, orient2d};
use sweepcircle::triangulate::{Triangulation, TriangulationError};

type Pt = (i64, i64);

/// A small generator of repeatable pseudo-random numbers.
struct Lcg(u64);

impl Lcg {
    fn next(&mut self) -> u64 {
        self.0 = self.0.wrapping_mul(6364136223846793005).wrapping_add(1442695040888963407);
        self.0 >> 33
    }

    fn cloud(&mut self, n: usize, side: u64) -> Vec<Pt> {
        let mut seen = HashSet::new();
        let mut out = Vec::new();
        while out.len() < n {
            let p = ((self.next() % side) as i64, (self.next() % side) as i64);
            if seen.insert(p) {
                out.push(p);
            }
        }
        out
    }
}

fn triangulate(pts: &[Pt]) -> Triangulation {
    let mut t = Triangulation::new(pts).unwrap();
    t.run();
    t
}

/// Checks on a finished triangulation everything that must hold of it.
fn check_invariants(pts: &[Pt], t: &Triangulation) {
    let n = pts.len();
    assert!(t.is_complete());
    assert_eq!(t.point_count(), n);
    let tris = t.triangles();
    let h = t.hull_size();

    // the number of triangles
    assert_eq!(tris.len(), 2 * n - 2 - h);
    assert_eq!(t.edge_count(), 3 * tris.len());

    // every triangle winds counter-clockwise
    let mut area2: i128 = 0;
    for &(a, b, c) in &tris {
        let o = orient2d(pts[a], pts[b], pts[c]);
        assert!(o > 0);
        area2 += o;
    }

    // every point is a corner of some triangle
    let mut used = vec![false; n];
    for &(a, b, c) in &tris {
        used[a] = true;
        used[b] = true;
        used[c] = true;
    }
    assert!(used.iter().all(|&u| u));

    // the two maps are inverse to each other
    for i in 0..n {
        assert_eq!(t.input_index(t.sweep_index(i)), i);
        assert_eq!(t.sweep_index(t.input_index(i)), i);
        assert_eq!(t.point(t.sweep_index(i)), pts[i]);
    }

    // twins are mutual and run opposite; every twinned edge is locally Delaunay
    let mut open_edges = 0;
    for e in 0..t.edge_count() {
        let edge = t.edge(e);
        let next = if e % 3 == 2 { e - 2 } else { e + 1 };
        let prev = if e % 3 == 0 { e + 2 } else { e - 1 };
        assert_eq!(t.edge(next).src, edge.dst);
        assert_eq!(t.edge(prev).dst, edge.src);
        if edge.buddy == EMPTY {
            open_edges += 1;
            assert_eq!(t.hull_edge(edge.src), e);
        } else {
            let twin = t.edge(edge.buddy);
            assert_eq!(twin.buddy, e);
            assert_eq!(twin.src, edge.dst);
            assert_eq!(twin.dst, edge.src);
            let f = edge.buddy;
            let fprev = if f % 3 == 0 { f + 2 } else { f - 1 };
            let a = t.point(edge.src);
            let b = t.point(edge.dst);
            let c = t.point(t.edge(prev).src);
            let d = t.point(t.edge(fprev).src);
            assert!(in_circle(a, b, c, d) <= 0);
        }
    }
    assert_eq!(open_edges, h);

    // the boundary is a closed ring of edges without twins, and the triangles
    // fill exactly what it encloses
    let ring = t.hull_points();
    assert_eq!(ring.len(), h);
    let mut ring_area2: i128 = 0;
    for k in 0..h {
        let v = ring[k];
        let w = ring[(k + 1) % h];
        let edge = t.edge(t.hull_edge(v));
        assert_eq!(edge.src, v);
        assert_eq!(edge.dst, w);
        assert_eq!(edge.buddy, EMPTY);
        let p = t.point(v);
        let q = t.point(w);
        ring_area2 += (p.0 as i128) * (q.1 as i128) - (p.1 as i128) * (q.0 as i128);
    }
    assert_eq!(ring_area2, area2);
}

fn sorted_triples(pts: &[Pt], t: &Triangulation) -> Vec<[Pt; 3]> {
    let mut out: Vec<[Pt; 3]> = t
        .triangles()
        .iter()
        .map(|&(a, b, c)| {
            let mut tri = [pts[a], pts[b], pts[c]];
            tri.sort();
            tri
        })
        .collect();
    out.sort();
    out
}

#[test]
fn basics() {
    let pts = vec![(0, 0), (1, 0), (0, 1), (2, 2)];
    let t = Triangulation::new(&pts).unwrap();
    assert_eq!(t.triangles().len(), 1);
}

#[test]
fn inline_pts() {
    let pts = vec![
        (0, 0),
        (1, 0),
        (0, 1),
        (0, 2),
        (2, 0),
        (1, 1), // <- this is the inline one
        (-2, -2), // Tweak bbox center to seed from first three points
    ];
    let mut t = Triangulation::new(&pts).unwrap();
    while t.step() {}
    assert!(true);
}

#[test]
fn single_triangle() {
    let pts = vec![(0, 0), (1, 0), (0, 1)];
    let mut t = Triangulation::new(&pts).unwrap();
    assert!(!t.step());
    assert_eq!(t.triangles(), vec![(0, 1, 2)]);
    assert_eq!(t.hull_size(), 3);
    check_invariants(&pts, &t);
}

#[test]
fn single_triangle_given_clockwise() {
    let pts = vec![(0, 0), (0, 1), (1, 0)];
    let t = triangulate(&pts);
    assert_eq!(t.triangles(), vec![(0, 2, 1)]);
    check_invariants(&pts, &t);
}

#[test]
fn unit_square() {
    let pts = vec![(0, 0), (1, 0), (1, 1), (0, 1)];
    let t = triangulate(&pts);
    let tris = t.triangles();
    assert_eq!(tris.len(), 2);
    assert_eq!(t.hull_size(), 4);
    let area2: i128 = tris.iter().map(|&(a, b, c)| orient2d(pts[a], pts[b], pts[c])).sum();
    assert_eq!(area2, 2);
    check_invariants(&pts, &t);
}

#[test]
fn collinear_addition() {
    let pts = vec![(0, 0), (1, 0), (0, 1), (0, 2), (2, 0), (1, 1), (-2, -2)];
    let t = triangulate(&pts);
    let h = t.hull_size();
    assert_eq!(t.triangles().len(), 2 * 7 - 2 - h);
    assert_eq!(t.triangles().len(), 5);
    check_invariants(&pts, &t);
}

#[test]
fn hexagon_with_center() {
    let mut pts: Vec<Pt> = vec![(0, 0)];
    for k in 0..6 {
        let angle = std::f64::consts::PI / 3.0 * (k as f64);
        pts.push((
            (angle.cos() * 1048576.0).round() as i64,
            (angle.sin() * 1048576.0).round() as i64,
        ));
    }
    let t = triangulate(&pts);
    let tris = t.triangles();
    assert_eq!(tris.len(), 6);
    assert_eq!(t.hull_size(), 6);
    for &(a, b, c) in &tris {
        assert!(a == 0 || b == 0 || c == 0);
    }
    check_invariants(&pts, &t);
}

#[test]
fn random_cloud() {
    let pts = Lcg(1).cloud(1000, 1 << 20);
    let t = triangulate(&pts);
    check_invariants(&pts, &t);
}

#[test]
fn random_clouds_small_grid() {
    // Many points on few grid lines: collinear and cocircular points abound.
    for seed in 0u64..40 {
        let pts = Lcg(seed).cloud(60, 12);
        match Triangulation::new(&pts) {
            Ok(mut t) => {
                t.run();
                check_invariants(&pts, &t);
            }
            Err(e) => assert_eq!(e, TriangulationError::SeedSearchFailed),
        }
    }
}

#[test]
fn invariants_hold_after_every_step() {
    let pts = Lcg(7).cloud(50, 1 << 10);
    let mut t = Triangulation::new(&pts).unwrap();
    let mut before = t.triangles().len();
    let mut steps = 0;
    while t.step() {
        steps += 1;
        let now = t.triangles().len();
        assert!(now > before);
        assert_eq!(now, 2 * (3 + steps) - 2 - t.hull_size());
        before = now;
    }
    assert_eq!(steps, 47);
    assert!(!t.step());
    assert_eq!(t.triangles().len(), before);
    check_invariants(&pts, &t);
}

#[test]
fn near_duplicate() {
    // one grid step apart, a million steps to the next point
    let pts = vec![(0, 0), (1, 0), (1048576, 0), (0, 1048576)];
    let t = triangulate(&pts);
    assert_eq!(t.triangles().len(), 2);
    check_invariants(&pts, &t);
}

#[test]
fn duplicate_in_the_seed_is_seed_failure() {
    let pts = vec![(0, 0), (0, 0), (1, 0), (0, 1)];
    assert!(matches!(Triangulation::new(&pts), Err(TriangulationError::SeedSearchFailed)));
}

#[test]
fn duplicate_is_reported() {
    let pts = vec![(0, 0), (10, 0), (5, 8), (40, 5), (40, 5)];
    assert!(matches!(Triangulation::new(&pts), Err(TriangulationError::DuplicatePoint)));
}

#[test]
fn out_of_range_is_reported() {
    let pts = vec![(0, 0), (10, 0), (5, 8), (536870913, 5)];
    assert!(matches!(Triangulation::new(&pts), Err(TriangulationError::CoordinateOutOfRange)));
    let pts = vec![(0, 0), (10, 0), (5, -536870913)];
    assert!(matches!(Triangulation::new(&pts), Err(TriangulationError::CoordinateOutOfRange)));
}

#[test]
fn largest_coordinates_are_accepted() {
    let m = 536870912;
    let pts = vec![(-m, -m), (m, -m), (m, m), (-m, m), (0, 0), (m, 0), (1, m)];
    let t = triangulate(&pts);
    check_invariants(&pts, &t);
}

#[test]
fn too_few_points_is_seed_failure() {
    assert!(matches!(Triangulation::new(&[]), Err(TriangulationError::SeedSearchFailed)));
    assert!(matches!(
        Triangulation::new(&[(0, 0), (1, 1)]),
        Err(TriangulationError::SeedSearchFailed)
    ));
}

#[test]
fn collinear_points_are_seed_failure() {
    let pts = vec![(0, 0), (1, 0), (2, 0), (3, 0)];
    assert!(matches!(Triangulation::new(&pts), Err(TriangulationError::SeedSearchFailed)));
}

#[test]
fn permuting_the_input_keeps_the_triangles() {
    let pts = Lcg(3).cloud(200, 1 << 20);
    let expected = sorted_triples(&pts, &triangulate(&pts));
    let mut rng = Lcg(99);
    for _ in 0..5 {
        let mut shuffled = pts.clone();
        for i in (1..shuffled.len()).rev() {
            let j = (rng.next() as usize) % (i + 1);
            shuffled.swap(i, j);
        }
        let t = triangulate(&shuffled);
        check_invariants(&shuffled, &t);
        assert_eq!(sorted_triples(&shuffled, &t), expected);
    }
}

#[test]
fn boundary_of_points_on_a_circle_is_all_of_them() {
    // corners of a polygon around the origin, with the origin itself
    let pts = vec![(0, 0), (5, 0), (4, 3), (3, 4), (0, 5), (-3, 4), (-4, 3), (-5, 0), (-4, -3),
        (-3, -4), (0, -5), (3, -4), (4, -3)];
    let t = triangulate(&pts);
    assert_eq!(t.hull_size(), 12);
    assert_eq!(t.triangles().len(), 12);
    let ring: Vec<usize> = t.hull_points().iter().map(|&v| t.input_index(v)).collect();
    assert!(!ring.contains(&0));
    // the ring runs counter-clockwise: each corner turns left
    for k in 0..12 {
        let a = pts[ring[k]];
        let b = pts[ring[(k + 1) % 12]];
        let c = pts[ring[(k + 2) % 12]];
        assert!(orient2d(a, b, c) > 0);
    }
    check_invariants(&pts, &t);
}

#[test]
fn bounding_box() {
    let pts = vec![(3, -7), (-2, 5), (9, 0), (4, 4)];
    assert_eq!(Triangulation::bbox(&pts), ((-2, 9), (-7, 5)));
    assert_eq!(Triangulation::bbox(&[(6, 1)]), ((6, 6), (1, 1)));
}

#[test]
fn seed_is_the_three_nearest_points() {
    let pts = vec![(100, 100), (0, 0), (10, 0), (-50, 70), (5, 8), (90, -60)];
    let t = Triangulation::new(&pts).unwrap();
    let c = t.sweep_center();
    let d2 = |p: Pt| {
        let x = (6 * p.0 - c.0) as i128;
        let y = (6 * p.1 - c.1) as i128;
        x * x + y * y
    };
    // from the fourth on, the points come in order of distance
    for i in 3..pts.len() {
        assert!(d2(t.point(i - 1)) <= d2(t.point(i)));
    }
    for i in 0..3 {
        assert!(d2(t.point(i)) <= d2(t.point(3)));
    }
    // the center is strictly inside the seed triangle
    let tri = t.triangles();
    assert_eq!(tri.len(), 1);
    let (a, b, c3) = tri[0];
    let scaled = |p: Pt| (6 * p.0, 6 * p.1);
    assert!(orient2d(scaled(pts[a]), scaled(pts[b]), c) > 0);
    assert!(orient2d(scaled(pts[b]), scaled(pts[c3]), c) > 0);
    assert!(orient2d(scaled(pts[c3]), scaled(pts[a]), c) > 0);
}

/// Whether every point lies to the left of, or on, every edge of the ring.
fn ring_holds_all(pts: &[Pt], t: &Triangulation) -> bool {
    let ring: Vec<usize> = t.hull_points().iter().map(|&v| t.input_index(v)).collect();
    let h = ring.len();
    (0..h).all(|k| {
        let a = pts[ring[k]];
        let b = pts[ring[(k + 1) % h]];
        pts.iter().all(|&x| orient2d(a, b, x) >= 0)
    })
}

#[test]
fn convex_ring_is_the_convex_hull() {
    // the corners of a polygon around the origin, with the origin itself
    let pts = vec![
        (0, 0), (50, 0), (40, 30), (30, 40), (0, 50), (-30, 40), (-40, 30), (-50, 0),
        (-40, -30), (-30, -40), (0, -50), (30, -40), (40, -30),
    ];
    let t = triangulate(&pts);
    let mut ring: Vec<usize> = t.hull_points().iter().map(|&v| t.input_index(v)).collect();
    ring.sort();
    assert_eq!(ring, (1..13).collect::<Vec<usize>>());
    assert!(ring_holds_all(&pts, &t));
    check_invariants(&pts, &t);
}

#[test]
fn far_corners_leave_blunt_pockets() {
    // four far corners around a cloud: the corners of the cloud that turn
    // right by less than a quarter turn stay on the ring
    let mut pts = Lcg(11).cloud(100, 1000);
    pts.push((-5000, -5000));
    pts.push((6000, -5000));
    pts.push((6000, 6000));
    pts.push((-5000, 6000));
    let t = triangulate(&pts);
    assert!(t.hull_size() > 4);
    assert!(!ring_holds_all(&pts, &t));
    check_invariants(&pts, &t);
}

#[test]
fn ring_keeps_corners_that_are_not_sharp() {
    // the corner at (1, 0) between (-2, -2) and (2, 0) turns right, but by
    // less than a quarter turn: it stays on the ring
    let pts = vec![(0, 0), (1, 0), (0, 1), (0, 2), (2, 0), (1, 1), (-2, -2)];
    let t = triangulate(&pts);
    assert_eq!(t.hull_size(), 7);
    assert!(!ring_holds_all(&pts, &t));
    check_invariants(&pts, &t);
}

#[test]
fn every_point_lies_inside_the_ring() {
    let pts = Lcg(21).cloud(300, 1 << 12);
    let t = triangulate(&pts);
    let c = t.sweep_center();
    let ring = t.hull_points();
    let h = ring.len();
    let off = |v: usize| {
        let p = t.point(v);
        (6 * p.0 - c.0, 6 * p.1 - c.1)
    };
    let det = |u: (i64, i64), v: (i64, i64)| {
        (u.0 as i128) * (v.1 as i128) - (u.1 as i128) * (v.0 as i128)
    };
    for x in 0..pts.len() {
        let dx = off(x);
        let found = (0..h).any(|k| {
            let dv = off(ring[k]);
            let dn = off(ring[(k + 1) % h]);
            det(dv, dn) > 0
                && det(dv, dx) >= 0
                && det(dx, dn) >= 0
                && det(dv, dx) + det(dx, dn) <= det(dv, dn)
        });
        assert!(found);
    }
}

#[test]
fn larger_cloud() {
    let pts = Lcg(2).cloud(20000, 1 << 24);
    let t = triangulate(&pts);
    check_invariants(&pts, &t);
}
