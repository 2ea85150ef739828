//! The center, the seed triangle and the order of the sweep depend on the
//! points alone, not on the order in which they are given.
use vstd::prelude::*;
use crate::predicates::{in_range, Point};
use crate::seed::{
    all_in_range, bbox_of, box_center, centroid6, has_duplicates, holds_center, is_bbox,
    is_minmax, is_nearest3, is_sweep_order, key_lt, key_of, lemma_bbox_unique, lemma_key_order,
    lemma_nearest3_unique, nearest3, seed_at, seed_of, seed_search, xs, ys, MAX_RETRIES,
};
use crate::consistency::{center_in_range, lemma_norm_fits, norm2, rel};

verus! {

/// `p` and `q` hold the same points, in whatever order.
pub open spec fn same_points(p: Seq<Point>, q: Seq<Point>) -> bool {
    p.len() == q.len() && forall|x: Point| p.contains(x) <==> q.contains(x)
}

/// Point `a` comes before point `b` in the order of the sweep about `c`:
/// it is nearer to the center, or as near and before `b` by its
/// coordinates.
pub open spec fn point_lt(c: Point, a: Point, b: Point) -> bool {
    let da = norm2(rel(a, c));
    let db = norm2(rel(b, c));
    da < db || (da == db && (a.0 < b.0 || (a.0 == b.0 && a.1 < b.1)))
}

/// Between two different points, the order of keys is the order of the
/// points.
pub proof fn lemma_key_is_point_order(p: Seq<Point>, c: Point, i: int, j: int)
    requires
        all_in_range(p),
        center_in_range(c),
        p.len() <= usize::MAX,
        0 <= i < p.len(),
        0 <= j < p.len(),
        p[i] != p[j],
    ensures
        key_lt(key_of(p, c, i), key_of(p, c, j)) == point_lt(c, p[i], p[j]),
{
    lemma_norm_fits(p[i], c);
    lemma_norm_fits(p[j], c);
}

/// In a sequence without duplicates, different places hold different
/// points.
pub proof fn lemma_distinct(p: Seq<Point>, i: int, j: int)
    requires
        !has_duplicates(p),
        0 <= i < p.len(),
        0 <= j < p.len(),
        i != j,
    ensures
        p[i] != p[j],
{
    if p[i] == p[j] {
        if i < j {
            assert(0 <= i < j < p.len() && p[i] == p[j]);
        } else {
            assert(0 <= j < i < p.len() && p[j] == p[i]);
        }
    }
}

/// The place with the least key among the first `k` places, `skip1` and
/// `skip2` left out; `-1` if no place is left.
pub open spec fn least(p: Seq<Point>, c: Point, k: nat, skip1: int, skip2: int) -> int
    decreases k,
{
    if k == 0 {
        -1
    } else {
        let m = least(p, c, (k - 1) as nat, skip1, skip2);
        let i = k - 1;
        if i == skip1 || i == skip2 {
            m
        } else if m < 0 || key_lt(key_of(p, c, i), key_of(p, c, m)) {
            i
        } else {
            m
        }
    }
}

/// Place `j` is one of the first `k` places and not left out.
pub open spec fn is_candidate(j: int, k: nat, skip1: int, skip2: int) -> bool {
    0 <= j < k && j != skip1 && j != skip2
}

/// `least` finds the place with the least key.
pub proof fn lemma_least(p: Seq<Point>, c: Point, k: nat, skip1: int, skip2: int)
    requires
        k <= p.len(),
        p.len() <= usize::MAX,
    ensures
        -1 <= least(p, c, k, skip1, skip2) < k,
        least(p, c, k, skip1, skip2) >= 0 ==> least(p, c, k, skip1, skip2) != skip1 && least(
            p,
            c,
            k,
            skip1,
            skip2,
        ) != skip2,
        forall|j: int| #[trigger]
            is_candidate(j, k, skip1, skip2) ==> least(p, c, k, skip1, skip2) >= 0 && (j
                == least(p, c, k, skip1, skip2) || key_lt(
                key_of(p, c, least(p, c, k, skip1, skip2)),
                key_of(p, c, j),
            )),
    decreases k,
{
    if k > 0 {
        lemma_least(p, c, (k - 1) as nat, skip1, skip2);
        let m0 = least(p, c, (k - 1) as nat, skip1, skip2);
        let m = least(p, c, k, skip1, skip2);
        let i = k - 1;
        assert forall|j: int| #[trigger] is_candidate(j, k, skip1, skip2) implies m >= 0 && (j
            == m || key_lt(key_of(p, c, m), key_of(p, c, j))) by {
            if j < i {
                // what held of the places before still holds
                assert(is_candidate(j, (k - 1) as nat, skip1, skip2));
                if m != m0 {
                    lemma_key_order(key_of(p, c, i), key_of(p, c, m0), key_of(p, c, j));
                }
            } else {
                if m != i {
                    lemma_key_order(key_of(p, c, m0), key_of(p, c, i), key_of(p, c, i));
                }
            }
        }
    }
}

/// Three or more points have three nearest ones.
pub proof fn lemma_nearest3_exists(p: Seq<Point>, c: Point)
    requires
        3 <= p.len() <= usize::MAX,
    ensures
        is_nearest3(p, c, nearest3(p, c).0, nearest3(p, c).1, nearest3(p, c).2),
        0 <= nearest3(p, c).0 < p.len(),
        0 <= nearest3(p, c).1 < p.len(),
        0 <= nearest3(p, c).2 < p.len(),
        nearest3(p, c).0 != nearest3(p, c).1,
        nearest3(p, c).1 != nearest3(p, c).2,
        nearest3(p, c).0 != nearest3(p, c).2,
{
    let n = p.len();
    let a = least(p, c, n, -1, -1);
    lemma_least(p, c, n, -1, -1);
    assert(is_candidate(0, n, -1, -1));
    let b = least(p, c, n, a, -1);
    lemma_least(p, c, n, a, -1);
    assert(is_candidate(0, n, a, -1) || is_candidate(1, n, a, -1));
    let d = least(p, c, n, a, b);
    lemma_least(p, c, n, a, b);
    assert(is_candidate(0, n, a, b) || is_candidate(1, n, a, b) || is_candidate(2, n, a, b));
    assert(is_candidate(b, n, -1, -1));
    assert(is_candidate(d, n, a, -1));
    assert forall|j: int| 0 <= j < n && j != a && j != b && j != d implies key_lt(
        key_of(p, c, d),
        #[trigger] key_of(p, c, j),
    ) by {
        assert(is_candidate(j, n, a, b));
    }
    let ka = key_of(p, c, a);
    let kb = key_of(p, c, b);
    let kd = key_of(p, c, d);
    assert(key_lt(ka, kb));
    assert(key_lt(kb, kd));
    assert(is_nearest3(p, c, (a, b, d).0, (a, b, d).1, (a, b, d).2));
    let t = nearest3(p, c);
    assert(is_nearest3(p, c, t.0, t.1, t.2));
    lemma_key_order(key_of(p, c, t.0), key_of(p, c, t.1), key_of(p, c, t.2));
}

/// The three nearest points of two sequences that hold the same points are
/// the same points.
pub proof fn lemma_nearest3_same(p: Seq<Point>, q: Seq<Point>, c: Point)
    requires
        same_points(p, q),
        3 <= p.len() <= usize::MAX,
        all_in_range(p),
        all_in_range(q),
        center_in_range(c),
        !has_duplicates(p),
        !has_duplicates(q),
    ensures
        p[nearest3(p, c).0] == q[nearest3(q, c).0],
        p[nearest3(p, c).1] == q[nearest3(q, c).1],
        p[nearest3(p, c).2] == q[nearest3(q, c).2],
{
    lemma_nearest3_exists(p, c);
    let t = nearest3(p, c);
    let (a, b, d) = t;
    assert(p.contains(p[a]) && p.contains(p[b]) && p.contains(p[d]));
    let x = choose|x: int| 0 <= x < q.len() && q[x] == p[a];
    let y = choose|y: int| 0 <= y < q.len() && q[y] == p[b];
    let z = choose|z: int| 0 <= z < q.len() && q[z] == p[d];
    lemma_distinct(p, a, b);
    lemma_distinct(p, b, d);
    lemma_distinct(p, a, d);
    lemma_key_is_point_order(p, c, a, b);
    lemma_key_is_point_order(p, c, b, d);
    lemma_key_is_point_order(q, c, x, y);
    lemma_key_is_point_order(q, c, y, z);
    assert forall|j: int| 0 <= j < q.len() && j != x && j != y && j != z implies key_lt(
        key_of(q, c, z),
        #[trigger] key_of(q, c, j),
    ) by {
        lemma_distinct(q, j, x);
        lemma_distinct(q, j, y);
        lemma_distinct(q, j, z);
        assert(q.contains(q[j]));
        let i = choose|i: int| 0 <= i < p.len() && p[i] == q[j];
        assert(i != a && i != b && i != d);
        assert(key_lt(key_of(p, c, d), key_of(p, c, i)));
        lemma_key_is_point_order(p, c, d, i);
        lemma_key_is_point_order(q, c, z, j);
    }
    assert(is_nearest3(q, c, x, y, z));
    lemma_nearest3_unique(q, c, x, y, z);
}

/// The seed search finds the same center and the same seed triangle in two
/// sequences that hold the same points, or none in either.
pub proof fn lemma_seed_search_same(p: Seq<Point>, q: Seq<Point>, c: Point, retries: nat)
    requires
        same_points(p, q),
        3 <= p.len() <= usize::MAX,
        all_in_range(p),
        all_in_range(q),
        center_in_range(c),
        !has_duplicates(p),
        !has_duplicates(q),
    ensures
        seed_search(p, c, retries).is_none() == seed_search(q, c, retries).is_none(),
        seed_search(p, c, retries).is_some() ==> {
            let sp = seed_search(p, c, retries).unwrap();
            let sq = seed_search(q, c, retries).unwrap();
            &&& sp.0 == sq.0
            &&& center_in_range(sp.0)
            &&& p[sp.1.0] == q[sq.1.0]
            &&& p[sp.1.1] == q[sq.1.1]
            &&& p[sp.1.2] == q[sq.1.2]
            &&& (sp.1 == nearest3(p, sp.0) || sp.1 == (
                nearest3(p, sp.0).0,
                nearest3(p, sp.0).2,
                nearest3(p, sp.0).1,
            ))
            &&& (sq.1 == nearest3(q, sq.0) || sq.1 == (
                nearest3(q, sq.0).0,
                nearest3(q, sq.0).2,
                nearest3(q, sq.0).1,
            ))
        },
    decreases retries,
{
    if retries > 0 {
        lemma_nearest3_same(p, q, c);
        lemma_nearest3_exists(p, c);
        lemma_nearest3_exists(q, c);
        let tp = seed_at(p, c);
        let tq = seed_at(q, c);
        assert(p[tp.0] == q[tq.0] && p[tp.1] == q[tq.1] && p[tp.2] == q[tq.2]);
        assert(holds_center(p, c, tp) == holds_center(q, c, tq));
        if !holds_center(p, c, tp) {
            assert(centroid6(p, tp) == centroid6(q, tq));
            assert(in_range(p[tp.0]) && in_range(p[tp.1]) && in_range(p[tp.2]));
            lemma_seed_search_same(p, q, centroid6(p, tp), (retries - 1) as nat);
        }
    }
}

/// Every sequence of numbers that is not empty has a smallest and a
/// largest.
pub proof fn lemma_minmax_exists(values: Seq<i64>)
    requires
        values.len() > 0,
    ensures
        exists|lo: i64, hi: i64| is_minmax(values, lo, hi),
    decreases values.len(),
{
    let n = values.len() as int;
    let last = values[n - 1];
    if n == 1 {
        assert(values[0] == last);
        assert(is_minmax(values, last, last));
    } else {
        let front = values.subrange(0, n - 1);
        lemma_minmax_exists(front);
        let (lo0, hi0) = choose|lo: i64, hi: i64| is_minmax(front, lo, hi);
        let lo = if last < lo0 {
            last
        } else {
            lo0
        };
        let hi = if last > hi0 {
            last
        } else {
            hi0
        };
        let il = choose|i: int| 0 <= i < front.len() && front[i] == lo0;
        let ih = choose|i: int| 0 <= i < front.len() && front[i] == hi0;
        assert(values[il] == lo0 && values[ih] == hi0);
        assert(values.contains(lo)) by {
            if last < lo0 {
                assert(values[n - 1] == lo);
            } else {
                assert(values[il] == lo);
            }
        }
        assert(values.contains(hi)) by {
            if last > hi0 {
                assert(values[n - 1] == hi);
            } else {
                assert(values[ih] == hi);
            }
        }
        assert forall|i: int| 0 <= i < values.len() implies lo <= #[trigger] values[i] <= hi by {
            if i < n - 1 {
                assert(front[i] == values[i]);
            }
        }
        assert(is_minmax(values, lo, hi));
    }
}

/// Two sequences that hold the same points have the same bounding box.
pub proof fn lemma_bbox_same(p: Seq<Point>, q: Seq<Point>)
    requires
        same_points(p, q),
        p.len() > 0,
    ensures
        bbox_of(p) == bbox_of(q),
        is_bbox(p, bbox_of(p)),
{
    lemma_minmax_exists(xs(p));
    lemma_minmax_exists(ys(p));
    let (x0, x1) = choose|lo: i64, hi: i64| is_minmax(xs(p), lo, hi);
    let (y0, y1) = choose|lo: i64, hi: i64| is_minmax(ys(p), lo, hi);
    let r = ((x0, x1), (y0, y1));
    assert(is_bbox(p, r));
    lemma_bbox_unique(p, r);
    lemma_coordinate_same(p, q, x0, true);
    lemma_coordinate_same(p, q, x1, true);
    lemma_coordinate_same(p, q, y0, false);
    lemma_coordinate_same(p, q, y1, false);
    assert forall|i: int| 0 <= i < xs(q).len() implies x0 <= #[trigger] xs(q)[i] <= x1 by {
        assert(q.contains(q[i]));
        let j = choose|j: int| 0 <= j < p.len() && p[j] == q[i];
        assert(xs(p)[j] == q[i].0);
    }
    assert forall|i: int| 0 <= i < ys(q).len() implies y0 <= #[trigger] ys(q)[i] <= y1 by {
        assert(q.contains(q[i]));
        let j = choose|j: int| 0 <= j < p.len() && p[j] == q[i];
        assert(ys(p)[j] == q[i].1);
    }
    assert(is_bbox(q, r));
    lemma_bbox_unique(q, r);
}

/// A coordinate that occurs among the points of `p` occurs among the same
/// points in another order.
proof fn lemma_coordinate_same(p: Seq<Point>, q: Seq<Point>, v: i64, first: bool)
    requires
        same_points(p, q),
        first ==> xs(p).contains(v),
        !first ==> ys(p).contains(v),
    ensures
        first ==> xs(q).contains(v),
        !first ==> ys(q).contains(v),
{
    if first {
        let i = choose|i: int| 0 <= i < xs(p).len() && xs(p)[i] == v;
        assert(p.contains(p[i]));
        let j = choose|j: int| 0 <= j < q.len() && q[j] == p[i];
        assert(xs(q)[j] == v);
    } else {
        let i = choose|i: int| 0 <= i < ys(p).len() && ys(p)[i] == v;
        assert(p.contains(p[i]));
        let j = choose|j: int| 0 <= j < q.len() && q[j] == p[i];
        assert(ys(q)[j] == v);
    }
}

/// The bounding box of points in range has its middle in range.
pub proof fn lemma_box_center_in_range(p: Seq<Point>)
    requires
        p.len() > 0,
        all_in_range(p),
        is_bbox(p, bbox_of(p)),
    ensures
        center_in_range(box_center(p)),
{
    let r = bbox_of(p);
    let vx = xs(p);
    let vy = ys(p);
    let i0 = choose|i: int| 0 <= i < vx.len() && vx[i] == r.0.0;
    let i1 = choose|i: int| 0 <= i < vx.len() && vx[i] == r.0.1;
    let j0 = choose|i: int| 0 <= i < vy.len() && vy[i] == r.1.0;
    let j1 = choose|i: int| 0 <= i < vy.len() && vy[i] == r.1.1;
    assert(in_range(p[i0]) && in_range(p[i1]) && in_range(p[j0]) && in_range(p[j1]));
}

/// The order of the sweep visits the same points in the same order,
/// whatever the order in which the points were given: with `o1` the order
/// of the sweep of `p` and `o2` that of `q`, which holds the same points,
/// the centers are the same and place `k` of either sweep holds the same
/// point.
pub proof fn law_sweep_ignores_input_order(
    p: Seq<Point>,
    q: Seq<Point>,
    c1: Point,
    t1: (int, int, int),
    o1: Seq<usize>,
    c2: Point,
    t2: (int, int, int),
    o2: Seq<usize>,
    k: int,
)
    requires
        same_points(p, q),
        p.len() <= usize::MAX,
        all_in_range(p),
        all_in_range(q),
        !has_duplicates(p),
        !has_duplicates(q),
        seed_of(p) == Some((c1, t1)),
        seed_of(q) == Some((c2, t2)),
        is_sweep_order(p, c1, t1, o1),
        is_sweep_order(q, c2, t2, o2),
        0 <= k < p.len(),
    ensures
        c1 == c2,
        p[o1[k] as int] == q[o2[k] as int],
    decreases k,
{
    lemma_bbox_same(p, q);
    lemma_bbox_same(q, p);
    lemma_box_center_in_range(p);
    lemma_seed_search_same(p, q, box_center(p), MAX_RETRIES as nat);
    let c = c1;
    if k >= 3 {
        // every earlier place holds the same point in both sweeps
        assert forall|j: int| 0 <= j < k implies p[o1[j] as int] == q[o2[j] as int] by {
            law_sweep_ignores_input_order(p, q, c1, t1, o1, c2, t2, o2, j);
        }
        let a = p[o1[k] as int];
        let b = q[o2[k] as int];
        if a != b {
            // `a` sits at a later place of the second sweep, and `b` at a
            // later place of the first: each would come before the other
            assert(p.contains(a));
            let ia = choose|i: int| 0 <= i < q.len() && q[i] == a;
            assert(o2.contains(ia as usize));
            let m = choose|m: int| 0 <= m < o2.len() && o2[m] == ia as usize;
            assert(q.contains(b));
            let ib = choose|i: int| 0 <= i < p.len() && p[i] == b;
            assert(o1.contains(ib as usize));
            let w = choose|w: int| 0 <= w < o1.len() && o1[w] == ib as usize;
            assert(m > k) by {
                if m < k {
                    assert(p[o1[m] as int] == q[o2[m] as int]);
                    lemma_distinct(p, o1[m] as int, o1[k] as int);
                }
            }
            assert(w > k) by {
                if w < k {
                    assert(p[o1[w] as int] == q[o2[w] as int]);
                    lemma_distinct(q, o2[w] as int, o2[k] as int);
                }
            }
            assert(key_lt(key_of(q, c, o2[k] as int), key_of(q, c, o2[m] as int)));
            assert(key_lt(key_of(p, c, o1[k] as int), key_of(p, c, o1[w] as int)));
            lemma_key_is_point_order(q, c, o2[k] as int, o2[m] as int);
            lemma_key_is_point_order(p, c, o1[k] as int, o1[w] as int);
            assert(point_lt(c, b, a));
            assert(point_lt(c, a, b));
            assert(false);
        }
    }
}

} // verus!
