//! Choosing the center of the sweep and the seed triangle, and putting the
//! points in the order of the sweep.
//!
//! The center must lie strictly inside the triangle of the three points
//! nearest to it. The search starts at the middle of the bounding box and
//! moves to the centroid of the three nearest points until that holds.
use vstd::prelude::*;
use itertools::Itertools;
use crate::algebra::lemma_mul_bounded_by;
use crate::hull::{cross, cross_of, Dir};
use crate::predicates::{centroid, in_range, orient2d, spec_centroid, spec_orient2d, Point};
use crate::consistency::{center_in_range, lemma_rel, norm2, rel};

verus! {

/// Number of centers the seed search tries.
pub const MAX_RETRIES: usize = 100;

/// What the points are ordered by: squared distance from the center, then
/// the two coordinates, then the place in the input.
pub type Key = (i128, i64, i64, usize);

/// The key of point `i` about the center `c`.
pub open spec fn key_of(points: Seq<Point>, c: Point, i: int) -> Key {
    (norm2(rel(points[i], c)) as i128, points[i].0, points[i].1, i as usize)
}

/// Keys are ordered component by component, the first that differs deciding.
pub open spec fn key_lt(a: Key, b: Key) -> bool {
    a.0 < b.0 || (a.0 == b.0 && (a.1 < b.1 || (a.1 == b.1 && (a.2 < b.2 || (a.2 == b.2 && a.3
        < b.3)))))
}

/// `a` comes before `b` or is `b`.
pub open spec fn key_le(a: Key, b: Key) -> bool {
    key_lt(a, b) || a == b
}

/// Every point is within range.
pub open spec fn all_in_range(points: Seq<Point>) -> bool {
    forall|i: int| 0 <= i < points.len() ==> in_range(#[trigger] points[i])
}

/// `a`, `b`, `d` are, in this order, the three points with the smallest
/// keys about `c`.
pub open spec fn is_nearest3(points: Seq<Point>, c: Point, a: int, b: int, d: int) -> bool {
    let n = points.len();
    &&& 0 <= a < n && 0 <= b < n && 0 <= d < n
    &&& key_lt(key_of(points, c, a), key_of(points, c, b))
    &&& key_lt(key_of(points, c, b), key_of(points, c, d))
    &&& forall|j: int|
        0 <= j < n && j != a && j != b && j != d ==> key_lt(
            key_of(points, c, d),
            #[trigger] key_of(points, c, j),
        )
}

/// The three points nearest to `c`, nearest first.
pub open spec fn nearest3(points: Seq<Point>, c: Point) -> (int, int, int) {
    choose|t: (int, int, int)| is_nearest3(points, c, t.0, t.1, t.2)
}

/// The three points nearest to `c`, the nearest first and the other two
/// exchanged if the three would wind clockwise.
pub open spec fn seed_at(points: Seq<Point>, c: Point) -> (int, int, int) {
    let t = nearest3(points, c);
    if spec_orient2d(points[t.0], points[t.1], points[t.2]) < 0 {
        (t.0, t.2, t.1)
    } else {
        t
    }
}

/// The center `c` lies strictly inside the triangle `t`.
pub open spec fn holds_center(points: Seq<Point>, c: Point, t: (int, int, int)) -> bool {
    &&& cross(rel(points[t.0], c), rel(points[t.1], c)) > 0
    &&& cross(rel(points[t.1], c), rel(points[t.2], c)) > 0
    &&& cross(rel(points[t.2], c), rel(points[t.0], c)) > 0
}

/// Six times the centroid of the triangle `t`.
pub open spec fn centroid6(points: Seq<Point>, t: (int, int, int)) -> Point {
    spec_centroid(points[t.0], points[t.1], points[t.2])
}

/// A center with its seed triangle.
pub struct Seed {
    /// Six times the center.
    pub center: Point,
    /// The point nearest to the center.
    pub a: usize,
    /// The corner that follows `a` counter-clockwise.
    pub b: usize,
    /// The corner that follows `b` counter-clockwise.
    pub c: usize,
}

/// The outcome of the seed search from center `c` with `retries` centers
/// left to try: the first center on the way that lies strictly inside the
/// triangle of its three nearest points, with that triangle.
pub open spec fn seed_search(points: Seq<Point>, c: Point, retries: nat) -> Option<
    (Point, (int, int, int)),
>
    decreases retries,
{
    if retries == 0 {
        None
    } else {
        let t = seed_at(points, c);
        if holds_center(points, c, t) {
            Some((c, t))
        } else {
            seed_search(points, centroid6(points, t), (retries - 1) as nat)
        }
    }
}

/// `lo` and `hi` are the smallest and the largest of `values`.
pub open spec fn is_minmax(values: Seq<i64>, lo: i64, hi: i64) -> bool {
    &&& values.contains(lo)
    &&& values.contains(hi)
    &&& forall|i: int| 0 <= i < values.len() ==> lo <= #[trigger] values[i] <= hi
}

/// The first coordinates of the points.
pub open spec fn xs(points: Seq<Point>) -> Seq<i64> {
    Seq::new(points.len(), |i: int| points[i].0)
}

/// The second coordinates of the points.
pub open spec fn ys(points: Seq<Point>) -> Seq<i64> {
    Seq::new(points.len(), |i: int| points[i].1)
}

/// `r` is the bounding box of the points: the least and the greatest first
/// coordinate, then the least and the greatest second coordinate.
pub open spec fn is_bbox(points: Seq<Point>, r: ((i64, i64), (i64, i64))) -> bool {
    is_minmax(xs(points), r.0.0, r.0.1) && is_minmax(ys(points), r.1.0, r.1.1)
}

/// The bounding box of the points.
pub open spec fn bbox_of(points: Seq<Point>) -> ((i64, i64), (i64, i64)) {
    choose|r: ((i64, i64), (i64, i64))| is_bbox(points, r)
}

/// Six times the middle of the bounding box.
pub open spec fn box_center(points: Seq<Point>) -> Point {
    let r = bbox_of(points);
    ((3 * (r.0.0 + r.0.1)) as i64, (3 * (r.1.0 + r.1.1)) as i64)
}

/// The seed of the points: what the search from the middle of the bounding
/// box finds. Fewer than three points have none.
pub open spec fn seed_of(points: Seq<Point>) -> Option<(Point, (int, int, int))> {
    if points.len() < 3 {
        None
    } else {
        seed_search(points, box_center(points), MAX_RETRIES as nat)
    }
}

/// There is only one bounding box.
pub proof fn lemma_bbox_unique(points: Seq<Point>, r: ((i64, i64), (i64, i64)))
    requires
        is_bbox(points, r),
    ensures
        bbox_of(points) == r,
{
    let q = bbox_of(points);
    assert(is_bbox(points, q));
    let vx = xs(points);
    let vy = ys(points);
    let i0 = choose|i: int| 0 <= i < vx.len() && vx[i] == r.0.0;
    let i1 = choose|i: int| 0 <= i < vx.len() && vx[i] == r.0.1;
    let i2 = choose|i: int| 0 <= i < vx.len() && vx[i] == q.0.0;
    let i3 = choose|i: int| 0 <= i < vx.len() && vx[i] == q.0.1;
    assert(q.0.0 <= vx[i0] && vx[i1] <= q.0.1 && r.0.0 <= vx[i2] && vx[i3] <= r.0.1);
    let j0 = choose|i: int| 0 <= i < vy.len() && vy[i] == r.1.0;
    let j1 = choose|i: int| 0 <= i < vy.len() && vy[i] == r.1.1;
    let j2 = choose|i: int| 0 <= i < vy.len() && vy[i] == q.1.0;
    let j3 = choose|i: int| 0 <= i < vy.len() && vy[i] == q.1.1;
    assert(q.1.0 <= vy[j0] && vy[j1] <= q.1.1 && r.1.0 <= vy[j2] && vy[j3] <= r.1.1);
}

/// The order of keys is strict and total on keys of different points.
pub proof fn lemma_key_order(a: Key, b: Key, c: Key)
    ensures
        !(key_lt(a, b) && key_lt(b, a)),
        key_lt(a, b) && key_lt(b, c) ==> key_lt(a, c),
        a.3 != b.3 ==> key_lt(a, b) || key_lt(b, a),
        !key_lt(a, a),
{
}

/// There is only one triple of nearest points.
pub proof fn lemma_nearest3_unique(points: Seq<Point>, c: Point, a: int, b: int, d: int)
    requires
        is_nearest3(points, c, a, b, d),
        points.len() <= usize::MAX,
    ensures
        nearest3(points, c) == (a, b, d),
{
    let t = nearest3(points, c);
    assert(is_nearest3(points, c, (a, b, d).0, (a, b, d).1, (a, b, d).2));
    assert(is_nearest3(points, c, t.0, t.1, t.2));
    let ka = key_of(points, c, a);
    let kb = key_of(points, c, b);
    let kd = key_of(points, c, d);
    let k0 = key_of(points, c, t.0);
    let k1 = key_of(points, c, t.1);
    let k2 = key_of(points, c, t.2);
    lemma_key_order(ka, kb, kd);
    lemma_key_order(k0, k1, k2);
    assert(t.0 == a) by {
        if t.0 != a {
            // `a` comes before every other point, and so does `t.0`
            assert(key_lt(ka, k0)) by {
                if t.0 != b && t.0 != d {
                    lemma_key_order(ka, kd, k0);
                }
            }
            assert(key_lt(k0, ka)) by {
                if a != t.1 && a != t.2 {
                    lemma_key_order(k0, k2, ka);
                }
            }
        }
    }
    assert(t.1 == b) by {
        if t.1 != b {
            assert(key_lt(kb, k1)) by {
                if t.1 != d {
                    lemma_key_order(kb, kd, k1);
                }
            }
            assert(key_lt(k1, kb)) by {
                if b != t.2 {
                    lemma_key_order(k1, k2, kb);
                }
            }
        }
    }
    assert(t.2 == d) by {
        if t.2 != d {
            assert(key_lt(kd, k2));
            assert(key_lt(k2, kd));
        }
    }
}

/// Six times the offset of `p` from the center.
pub fn offset(p: Point, c: Point) -> (d: Dir)
    requires
        in_range(p),
        center_in_range(c),
    ensures
        d == rel(p, c),
{
    (6 * p.0 - c.0, 6 * p.1 - c.1)
}

/// The key of point `i` about the center `c`.
pub fn key(points: &[Point], c: Point, i: usize) -> (k: Key)
    requires
        i < points@.len(),
        in_range(points@[i as int]),
        center_in_range(c),
    ensures
        k == key_of(points@, c, i as int),
{
    let p = points[i];
    let d = offset(p, c);
    proof {
        lemma_rel(p, c);
        lemma_mul_bounded_by(d.0 as int, d.0 as int, 0x2_0000_0000, 0x2_0000_0000);
        lemma_mul_bounded_by(d.1 as int, d.1 as int, 0x2_0000_0000, 0x2_0000_0000);
    }
    let n: i128 = (d.0 as i128) * (d.0 as i128) + (d.1 as i128) * (d.1 as i128);
    (n, p.0, p.1, i)
}

/// Whether key `a` comes before key `b`.
pub fn key_less(a: Key, b: Key) -> (r: bool)
    ensures
        r == key_lt(a, b),
{
    a.0 < b.0 || (a.0 == b.0 && (a.1 < b.1 || (a.1 == b.1 && (a.2 < b.2 || (a.2 == b.2 && a.3
        < b.3)))))
}

/// The point with the smallest key among all but `skip1` and `skip2`.
pub fn nearest(points: &[Point], c: Point, skip1: usize, skip2: usize) -> (r: usize)
    requires
        points@.len() >= 3,
        all_in_range(points@),
        center_in_range(c),
    ensures
        r < points@.len(),
        r != skip1 && r != skip2,
        forall|j: int|
            0 <= j < points@.len() && j != skip1 && j != skip2 && j != r ==> key_lt(
                key_of(points@, c, r as int),
                #[trigger] key_of(points@, c, j),
            ),
{
    let n = points.len();
    let mut best: usize = if skip1 != 0 && skip2 != 0 {
        0
    } else if skip1 != 1 && skip2 != 1 {
        1
    } else {
        2
    };
    let mut best_key = key(points, c, best);
    let mut i: usize = 0;
    while i < n
        invariant
            n == points@.len(),
            n >= 3,
            all_in_range(points@),
            center_in_range(c),
            i <= n,
            best < n,
            best != skip1 && best != skip2,
            best_key == key_of(points@, c, best as int),
            forall|j: int|
                0 <= j < i && j != skip1 && j != skip2 && j != best ==> key_lt(
                    key_of(points@, c, best as int),
                    #[trigger] key_of(points@, c, j),
                ),
        decreases n - i,
    {
        if i != skip1 && i != skip2 && i != best {
            let k = key(points, c, i);
            proof {
                lemma_key_order(k, best_key, best_key);
            }
            if key_less(k, best_key) {
                proof {
                    assert forall|j: int|
                        0 <= j < i && j != skip1 && j != skip2 && j != i implies key_lt(
                        k,
                        #[trigger] key_of(points@, c, j),
                    ) by {
                        lemma_key_order(k, best_key, key_of(points@, c, j));
                    }
                }
                best = i;
                best_key = k;
            }
        }
        i = i + 1;
    }
    best
}

/// The three points nearest to `c`, nearest first.
pub fn nearest_three(points: &[Point], c: Point) -> (t: (usize, usize, usize))
    requires
        points@.len() >= 3,
        all_in_range(points@),
        center_in_range(c),
    ensures
        is_nearest3(points@, c, t.0 as int, t.1 as int, t.2 as int),
        nearest3(points@, c) == (t.0 as int, t.1 as int, t.2 as int),
{
    let n = points.len();
    let a = nearest(points, c, n, n);
    let b = nearest(points, c, a, n);
    let d = nearest(points, c, a, b);
    proof {
        assert(key_lt(key_of(points@, c, a as int), key_of(points@, c, b as int)));
        assert(key_lt(key_of(points@, c, b as int), key_of(points@, c, d as int)));
        lemma_nearest3_unique(points@, c, a as int, b as int, d as int);
    }
    (a, b, d)
}

/// The smallest and the largest of `values`, or `None` if there are none.
///
/// Calls `Itertools::minmax` and `MinMaxResult::into_option`. The first is
/// documented to give the minimum and the maximum of the elements, the
/// second to turn "no elements" into `None` and a single element into a
/// pair of itself.
#[verifier::external_body]
fn minmax_of(values: &Vec<i64>) -> (r: Option<(i64, i64)>)
    ensures
        values@.len() == 0 <==> r.is_none(),
        r.is_some() ==> is_minmax(values@, r.unwrap().0, r.unwrap().1),
{
    values.iter().copied().minmax().into_option()
}

/// The bounding box of the points: the least and the greatest first
/// coordinate, then the least and the greatest second coordinate.
pub fn bounding_box(points: &[Point]) -> (r: ((i64, i64), (i64, i64)))
    requires
        points@.len() > 0,
    ensures
        is_bbox(points@, r),
        r == bbox_of(points@),
{
    let n = points.len();
    let mut vx: Vec<i64> = Vec::new();
    let mut vy: Vec<i64> = Vec::new();
    let mut i: usize = 0;
    while i < n
        invariant
            n == points@.len(),
            i <= n,
            vx@.len() == i,
            vy@.len() == i,
            forall|j: int| 0 <= j < i ==> #[trigger] vx@[j] == points@[j].0,
            forall|j: int| 0 <= j < i ==> #[trigger] vy@[j] == points@[j].1,
        decreases n - i,
    {
        vx.push(points[i].0);
        vy.push(points[i].1);
        i = i + 1;
    }
    proof {
        assert(vx@ =~= xs(points@));
        assert(vy@ =~= ys(points@));
    }
    let x = minmax_of(&vx);
    let y = minmax_of(&vy);
    let r = (x.unwrap(), y.unwrap());
    proof {
        lemma_bbox_unique(points@, r);
    }
    r
}

/// Searches for the center of the sweep and its seed triangle.
pub fn find_seed(points: &[Point]) -> (r: Option<Seed>)
    requires
        points@.len() >= 3,
        all_in_range(points@),
    ensures
        match r {
            Some(s) => seed_of(points@) == Some(
                (s.center, (s.a as int, s.b as int, s.c as int)),
            ) && center_in_range(s.center) && s.a < points@.len() && s.b < points@.len() && s.c
                < points@.len() && holds_center(
                points@,
                s.center,
                (s.a as int, s.b as int, s.c as int),
            ) && (nearest3(points@, s.center) == (s.a as int, s.b as int, s.c as int) || nearest3(
                points@,
                s.center,
            ) == (s.a as int, s.c as int, s.b as int)),
            None => seed_of(points@).is_none(),
        },
{
    let bb = bounding_box(points);
    proof {
        let vx = xs(points@);
        let vy = ys(points@);
        let i0 = choose|i: int| 0 <= i < vx.len() && vx[i] == bb.0.0;
        let i1 = choose|i: int| 0 <= i < vx.len() && vx[i] == bb.0.1;
        let j0 = choose|i: int| 0 <= i < vy.len() && vy[i] == bb.1.0;
        let j1 = choose|i: int| 0 <= i < vy.len() && vy[i] == bb.1.1;
        assert(in_range(points@[i0]) && in_range(points@[i1]) && in_range(points@[j0])
            && in_range(points@[j1]));
    }
    let mut center: Point = (3 * (bb.0.0 + bb.0.1), 3 * (bb.1.0 + bb.1.1));
    let mut left: usize = MAX_RETRIES;
    while left > 0
        invariant
            points@.len() >= 3,
            all_in_range(points@),
            center_in_range(center),
            left <= MAX_RETRIES,
            seed_of(points@) == seed_search(points@, center, left as nat),
        decreases left,
    {
        let t = nearest_three(points, center);
        let pa = points[t.0];
        let mut b = t.1;
        let mut c = t.2;
        if orient2d(pa, points[b], points[c]) < 0 {
            b = t.2;
            c = t.1;
        }
        let va = offset(pa, center);
        let vb = offset(points[b], center);
        let vc = offset(points[c], center);
        proof {
            lemma_rel(pa, center);
            lemma_rel(points@[b as int], center);
            lemma_rel(points@[c as int], center);
            assert(seed_at(points@, center) == (t.0 as int, b as int, c as int));
        }
        if cross_of(va, vb) > 0 && cross_of(vb, vc) > 0 && cross_of(vc, va) > 0 {
            return Some(Seed { center, a: t.0, b, c });
        }
        let pb = points[b];
        let pc = points[c];
        center = centroid(pa, pb, pc);
        left = left - 1;
    }
    None
}

/// Two of the points are the same point.
pub open spec fn has_duplicates(points: Seq<Point>) -> bool {
    exists|i: int, j: int|
        0 <= i < j < points.len() && #[trigger] points[i] == #[trigger] points[j]
}

/// `order` lists the places of all points in the order of the sweep about
/// `c`: first the corners of the seed triangle `t`, then the other points
/// by their keys.
pub open spec fn is_sweep_order(
    points: Seq<Point>,
    c: Point,
    t: (int, int, int),
    order: Seq<usize>,
) -> bool {
    let n = points.len();
    &&& order.len() == n
    &&& n >= 3
    &&& order[0] == t.0 && order[1] == t.1 && order[2] == t.2
    &&& forall|k: int| 0 <= k < n ==> (#[trigger] order[k]) < n
    &&& forall|i: int, k: int| 0 <= i < k < n ==> #[trigger] order[i] != #[trigger] order[k]
    &&& forall|j: usize| j < n ==> #[trigger] order.contains(j)
    &&& forall|i: int, k: int|
        0 <= i < k < n && 3 <= k ==> key_lt(
            key_of(points, c, (#[trigger] order[i]) as int),
            key_of(points, c, (#[trigger] order[k]) as int),
        )
}

/// The place among the sorted keys of the point at place `j` of the sweep:
/// the same place, unless the second and third corner of the seed triangle
/// were exchanged.
pub open spec fn place_in_sorted(keep: bool, j: int) -> int {
    if keep {
        j
    } else if j == 1 {
        2
    } else if j == 2 {
        1
    } else {
        j
    }
}

/// Sorts the keys into ascending order.
///
/// Calls `slice::sort_unstable`, which is documented to sort the slice in
/// place into ascending order; tuples of integers are ordered component by
/// component, the first that differs deciding.
#[verifier::external_body]
fn sort_keys(keys: &mut Vec<Key>)
    ensures
        final(keys)@.to_multiset() == old(keys)@.to_multiset(),
        forall|i: int, j: int|
            0 <= i < j < final(keys)@.len() ==> key_le(
                #[trigger] final(keys)@[i],
                #[trigger] final(keys)@[j],
            ),
{
    keys.sort_unstable();
}

/// What sorting the keys of all points gives: every point once, each key
/// strictly before the next.
pub proof fn lemma_sorted_keys(points: Seq<Point>, c: Point, before: Seq<Key>, sorted: Seq<Key>)
    requires
        before.len() == points.len(),
        points.len() <= usize::MAX,
        forall|j: int| 0 <= j < before.len() ==> #[trigger] before[j] == key_of(points, c, j),
        sorted.to_multiset() == before.to_multiset(),
        forall|i: int, j: int|
            0 <= i < j < sorted.len() ==> key_le(#[trigger] sorted[i], #[trigger] sorted[j]),
    ensures
        sorted.len() == points.len(),
        forall|k: int|
            0 <= k < sorted.len() ==> (#[trigger] sorted[k]).3 < points.len() && sorted[k]
                == key_of(points, c, sorted[k].3 as int),
        forall|j: int| 0 <= j < points.len() ==> sorted.contains(#[trigger] key_of(points, c, j)),
        forall|i: int, k: int|
            0 <= i < k < sorted.len() ==> key_lt(#[trigger] sorted[i], #[trigger] sorted[k]),
{
    broadcast use vstd::seq_lib::group_to_multiset_ensures;

    assert(before.no_duplicates()) by {
        assert forall|i: int, j: int|
            0 <= i < before.len() && 0 <= j < before.len() && i != j implies before[i]
            != before[j] by {
            assert(before[i].3 == i && before[j].3 == j);
        }
    }
    before.lemma_multiset_has_no_duplicates();
    sorted.lemma_multiset_has_no_duplicates_conv();
    assert(sorted.len() == sorted.to_multiset().len());
    assert(before.len() == before.to_multiset().len());
    assert forall|k: int| 0 <= k < sorted.len() implies (#[trigger] sorted[k]).3 < points.len()
        && sorted[k] == key_of(points, c, sorted[k].3 as int) by {
        assert(sorted.contains(sorted[k]));
        assert(sorted.to_multiset().count(sorted[k]) > 0);
        assert(before.contains(sorted[k]));
        let j = choose|j: int| 0 <= j < before.len() && before[j] == sorted[k];
        assert(before[j] == key_of(points, c, j));
    }
    assert forall|j: int| 0 <= j < points.len() implies sorted.contains(
        #[trigger] key_of(points, c, j),
    ) by {
        assert(before[j] == key_of(points, c, j));
        assert(before.contains(before[j]));
        assert(before.to_multiset().count(before[j]) > 0);
    }
    assert forall|i: int, k: int| 0 <= i < k < sorted.len() implies key_lt(
        #[trigger] sorted[i],
        #[trigger] sorted[k],
    ) by {
        assert(sorted[i] != sorted[k]);
    }
}

/// The order of the sweep about the center of `seed`, or `None` if two of
/// the points are the same point.
pub fn sweep_order(points: &[Point], seed: &Seed) -> (r: Option<Vec<usize>>)
    requires
        points@.len() >= 3,
        all_in_range(points@),
        center_in_range(seed.center),
        seed.a < points@.len() && seed.b < points@.len() && seed.c < points@.len(),
        nearest3(points@, seed.center) == (seed.a as int, seed.b as int, seed.c as int)
            || nearest3(points@, seed.center) == (seed.a as int, seed.c as int, seed.b as int),
    ensures
        match r {
            Some(order) => !has_duplicates(points@) && is_sweep_order(
                points@,
                seed.center,
                (seed.a as int, seed.b as int, seed.c as int),
                order@,
            ),
            None => has_duplicates(points@),
        },
{
    let n = points.len();
    let c = seed.center;
    let mut keys: Vec<Key> = Vec::new();
    let mut i: usize = 0;
    while i < n
        invariant
            n == points@.len(),
            all_in_range(points@),
            center_in_range(c),
            i <= n,
            keys@.len() == i,
            forall|j: int| 0 <= j < i ==> #[trigger] keys@[j] == key_of(points@, c, j),
        decreases n - i,
    {
        keys.push(key(points, c, i));
        i = i + 1;
    }
    let ghost before = keys@;
    sort_keys(&mut keys);
    let ghost sorted = keys@;
    proof {
        lemma_sorted_keys(points@, c, before, sorted);
    }
    let mut k: usize = 0;
    while k + 1 < n
        invariant
            n == points@.len(),
            n >= 3,
            keys@ == sorted,
            sorted.len() == n,
            k + 1 <= n,
            forall|m: int|
                0 <= m < k ==> (#[trigger] sorted[m]).1 != sorted[m + 1].1 || sorted[m].2
                    != sorted[m + 1].2,
            forall|m: int|
                0 <= m < sorted.len() ==> (#[trigger] sorted[m]).3 < points@.len() && sorted[m]
                    == key_of(points@, c, sorted[m].3 as int),
            forall|x: int, y: int|
                0 <= x < y < sorted.len() ==> key_lt(#[trigger] sorted[x], #[trigger] sorted[y]),
        decreases n - k,
    {
        let u = keys[k];
        let v = keys[k + 1];
        if u.1 == v.1 && u.2 == v.2 {
            proof {
                let x = sorted[k as int].3 as int;
                let y = sorted[k + 1].3 as int;
                assert(key_lt(sorted[k as int], sorted[k + 1]));
                assert(x != y);
                assert(points@[x] == points@[y]);
                if x < y {
                    assert(0 <= x < y < points@.len() && points@[x] == points@[y]);
                } else {
                    assert(0 <= y < x < points@.len() && points@[y] == points@[x]);
                }
            }
            return None;
        }
        k = k + 1;
    }
    proof {
        // Two equal points would sit next to each other among the sorted keys.
        if has_duplicates(points@) {
            let (x, y) = choose|x: int, y: int|
                0 <= x < y < points@.len() && #[trigger] points@[x] == #[trigger] points@[y];
            let kx = key_of(points@, c, x);
            let ky = key_of(points@, c, y);
            assert(sorted.contains(kx));
            assert(sorted.contains(ky));
            let ix = choose|m: int| 0 <= m < sorted.len() && sorted[m] == kx;
            let iy = choose|m: int| 0 <= m < sorted.len() && sorted[m] == ky;
            assert(ix != iy);
            let lo = if ix < iy {
                ix
            } else {
                iy
            };
            let hi = if ix < iy {
                iy
            } else {
                ix
            };
            assert(key_lt(sorted[lo], sorted[hi]));
            if lo + 1 < hi {
                assert(key_lt(sorted[lo], sorted[lo + 1]));
                assert(key_lt(sorted[lo + 1], sorted[hi]));
            }
            assert(sorted[lo].1 != sorted[lo + 1].1 || sorted[lo].2 != sorted[lo + 1].2);
            assert(false);
        }
    }
    let mut order: Vec<usize> = Vec::new();
    order.push(seed.a);
    order.push(seed.b);
    order.push(seed.c);
    let mut m: usize = 3;
    while m < n
        invariant
            n == points@.len(),
            keys@ == sorted,
            sorted.len() == n,
            3 <= m <= n,
            order@.len() == m,
            order@[0] == seed.a && order@[1] == seed.b && order@[2] == seed.c,
            forall|j: int| 3 <= j < m ==> #[trigger] order@[j] == sorted[j].3,
        decreases n - m,
    {
        order.push(keys[m].3);
        m = m + 1;
    }
    proof {
        let t = nearest3(points@, c);
        let o = order@;
        // the first three sorted keys belong to the three nearest points
        assert(is_nearest3(points@, c, sorted[0].3 as int, sorted[1].3 as int, sorted[2].3 as int))
            by {
            assert(key_lt(sorted[0], sorted[1]));
            assert(key_lt(sorted[1], sorted[2]));
            assert forall|j: int|
                0 <= j < n && j != sorted[0].3 && j != sorted[1].3 && j != sorted[2].3 implies key_lt(
                key_of(points@, c, sorted[2].3 as int),
                #[trigger] key_of(points@, c, j),
            ) by {
                assert(sorted.contains(key_of(points@, c, j)));
                let z = choose|z: int| 0 <= z < sorted.len() && sorted[z] == key_of(points@, c, j);
                assert(z >= 3);
                assert(key_lt(sorted[2], sorted[z]));
            }
        }
        lemma_nearest3_unique(
            points@,
            c,
            sorted[0].3 as int,
            sorted[1].3 as int,
            sorted[2].3 as int,
        );
        assert(o[0] == sorted[0].3);
        assert((o[1] == sorted[1].3 && o[2] == sorted[2].3) || (o[1] == sorted[2].3 && o[2]
            == sorted[1].3));
        // `o` is `sorted` with, at most, places 1 and 2 exchanged
        let keep = o[1] == sorted[1].3;
        let at = |j: int| place_in_sorted(keep, j);
        assert forall|j: int| 0 <= j < n implies o[j] == sorted[at(j)].3 && 0 <= at(j) < n by {}
        assert forall|i: int, k: int| 0 <= i < k < n implies #[trigger] o[i] != #[trigger] o[k] by {
            let x = at(i);
            let y = at(k);
            assert(x != y);
            if x < y {
                assert(key_lt(sorted[x], sorted[y]));
            } else {
                assert(key_lt(sorted[y], sorted[x]));
            }
            if sorted[x].3 == sorted[y].3 {
                assert(sorted[x] == sorted[y]);
            }
        }
        assert forall|j: usize| j < n implies #[trigger] o.contains(j) by {
            assert(sorted.contains(key_of(points@, c, j as int)));
            let z = choose|z: int|
                0 <= z < sorted.len() && sorted[z] == key_of(points@, c, j as int);
            assert(at(at(z)) == z);
            assert(o[at(z)] == sorted[z].3);
        }
        assert forall|i: int, k: int| 0 <= i < k < n && 3 <= k implies key_lt(
            key_of(points@, c, (#[trigger] o[i]) as int),
            key_of(points@, c, (#[trigger] o[k]) as int),
        ) by {
            assert(at(k) == k);
            assert(at(i) < k);
            assert(key_lt(sorted[at(i)], sorted[k]));
        }
    }
    Some(order)
}

} // verus!
