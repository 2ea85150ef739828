//! The hull index: the boundary of the triangulated region as a ring of
//! points around the center, each with the boundary edge that leaves it.
//!
//! The ring is star-shaped about the center: walking it once turns once
//! around the center, and the wedges between neighbouring points cover every
//! direction. `locate` finds the wedge that holds a given direction.
use vstd::prelude::*;
use crate::algebra::{
    in_triangle, in_wedge, lemma_det2_linear, lemma_det2_zero, lemma_mul_bounded_by, lemma_wedge_merge,
    lemma_wedge_seed, lemma_wedge_split,
};
use crate::angle::pseudo_angle;
use crate::predicates::det2;

verus! {

/// The offset of a point from the center.
pub type Dir = (i64, i64);

/// Largest absolute value of a coordinate of an offset.
pub const MAX_DIR: i64 = 6442450944;

/// Both coordinates of the offset lie within `MAX_DIR`.
pub open spec fn dir_in_range(d: Dir) -> bool {
    -MAX_DIR <= d.0 <= MAX_DIR && -MAX_DIR <= d.1 <= MAX_DIR
}

/// Determinant of two offsets.
pub open spec fn cross(u: Dir, v: Dir) -> int {
    det2(u.0 as int, u.1 as int, v.0 as int, v.1 as int)
}

/// The direction `d` lies in the wedge from `a` to `b`.
pub open spec fn dir_in_wedge(a: Dir, b: Dir, d: Dir) -> bool {
    in_wedge(a.0 as int, a.1 as int, b.0 as int, b.1 as int, d.0 as int, d.1 as int)
}

/// The point at offset `x` lies in the triangle of the center and the
/// points at offsets `v` and `n`.
pub open spec fn dir_in_triangle(v: Dir, n: Dir, x: Dir) -> bool {
    in_triangle(v.0 as int, v.1 as int, n.0 as int, n.1 as int, x.0 as int, x.1 as int)
}

/// The place after `i` on a ring of `h` places.
pub open spec fn succ(i: int, h: int) -> int {
    if i + 1 == h {
        0
    } else {
        i + 1
    }
}

/// The wedge that starts at place `i` of the ring holds the direction
/// `(dx, dy)`.
pub open spec fn wedge_at(dirs: Seq<Dir>, order: Seq<usize>, i: int, dx: int, dy: int) -> bool {
    let a = dirs[order[i] as int];
    let b = dirs[order[succ(i, order.len() as int)] as int];
    in_wedge(a.0 as int, a.1 as int, b.0 as int, b.1 as int, dx, dy)
}

/// Some wedge of the ring holds the direction `(dx, dy)`.
pub open spec fn covered(dirs: Seq<Dir>, order: Seq<usize>, dx: int, dy: int) -> bool {
    exists|i: int| 0 <= i < order.len() && #[trigger] wedge_at(dirs, order, i, dx, dy)
}

/// Evaluates the determinant of two offsets.
pub fn cross_of(u: Dir, v: Dir) -> (r: i128)
    requires
        dir_in_range(u),
        dir_in_range(v),
    ensures
        r == cross(u, v),
{
    proof {
        lemma_mul_bounded_by(u.0 as int, v.1 as int, MAX_DIR as int, MAX_DIR as int);
        lemma_mul_bounded_by(u.1 as int, v.0 as int, MAX_DIR as int, MAX_DIR as int);
    }
    (u.0 as i128) * (v.1 as i128) - (u.1 as i128) * (v.0 as i128)
}

/// The points of `order` form one closed cycle under `next` and `prev`, they
/// are exactly the live points, and no step of the cycle turns clockwise
/// about the center.
pub open spec fn ring_links(
    dirs: Seq<Dir>,
    next: Seq<usize>,
    prev: Seq<usize>,
    live: Seq<bool>,
    order: Seq<usize>,
) -> bool {
    let n = dirs.len();
    let h = order.len() as int;
    &&& n <= usize::MAX
    &&& h >= 3
    &&& order.no_duplicates()
    &&& forall|i: int| 0 <= i < h ==> #[trigger] ring_step(dirs, next, prev, live, order, i)
    &&& forall|v: int| 0 <= v < n && #[trigger] live[v] ==> order.contains(v as usize)
}

/// The point at place `i` of the ring is live and linked with the point at
/// the next place, and the step between them does not turn clockwise.
pub open spec fn ring_step(
    dirs: Seq<Dir>,
    next: Seq<usize>,
    prev: Seq<usize>,
    live: Seq<bool>,
    order: Seq<usize>,
    i: int,
) -> bool {
    let h = order.len() as int;
    &&& order[i] < dirs.len()
    &&& order[succ(i, h)] < dirs.len()
    &&& live[order[i] as int]
    &&& next[order[i] as int] == order[succ(i, h)]
    &&& prev[order[succ(i, h)] as int] == order[i]
    &&& cross(dirs[order[i] as int], dirs[order[succ(i, h)] as int]) >= 0
}

/// The wedges of the ring cover every direction.
pub open spec fn ring_covers(dirs: Seq<Dir>, order: Seq<usize>) -> bool {
    forall|dx: int, dy: int| dx != 0 || dy != 0 ==> #[trigger] covered(dirs, order, dx, dy)
}

/// `order` with `p` put in after place `i`.
pub open spec fn put_after(order: Seq<usize>, i: int, p: usize) -> Seq<usize> {
    Seq::new(
        (order.len() + 1) as nat,
        |j: int|
            if j <= i {
                order[j]
            } else if j == i + 1 {
                p
            } else {
                order[j - 1]
            },
    )
}

/// `order` without place `i`.
pub open spec fn taken_out(order: Seq<usize>, i: int) -> Seq<usize> {
    Seq::new(
        (order.len() - 1) as nat,
        |j: int|
            if j < i {
                order[j]
            } else {
                order[j + 1]
            },
    )
}

/// Linking `p` in after the point at place `i` keeps the ring a cycle.
proof fn lemma_insert_links(
    dirs: Seq<Dir>,
    next: Seq<usize>,
    prev: Seq<usize>,
    live: Seq<bool>,
    order: Seq<usize>,
    i: int,
    p: usize,
)
    requires
        ring_links(dirs, next, prev, live, order),
        next.len() == dirs.len() && prev.len() == dirs.len() && live.len() == dirs.len(),
        0 <= i < order.len(),
        p < dirs.len(),
        !live[p as int],
        cross(dirs[order[i] as int], dirs[p as int]) >= 0,
        cross(dirs[p as int], dirs[next[order[i] as int] as int]) >= 0,
    ensures
        ring_links(
            dirs,
            next.update(order[i] as int, p).update(p as int, next[order[i] as int]),
            prev.update(next[order[i] as int] as int, p).update(p as int, order[i]),
            live.update(p as int, true),
            put_after(order, i, p),
        ),
{
    let h = order.len() as int;
    let a = order[i];
    let b = next[a as int];
    let fresh = put_after(order, i, p);
    let next2 = next.update(a as int, p).update(p as int, b);
    let prev2 = prev.update(b as int, p).update(p as int, a);
    let live2 = live.update(p as int, true);
    assert(ring_step(dirs, next, prev, live, order, i));
    assert forall|j: int| 0 <= j < h implies order[j] != p by {
        assert(ring_step(dirs, next, prev, live, order, j));
    }
    assert(b != p);
    assert(fresh.no_duplicates()) by {
        assert forall|x: int, y: int|
            0 <= x < fresh.len() && 0 <= y < fresh.len() && x != y implies fresh[x] != fresh[y] by {
            let x0 = if x <= i {
                x
            } else {
                x - 1
            };
            let y0 = if y <= i {
                y
            } else {
                y - 1
            };
            if x != i + 1 && y != i + 1 {
                assert(x0 != y0);
                assert(order[x0] != order[y0]);
            }
        }
    }
    assert forall|j: int| 0 <= j < h + 1 implies #[trigger] ring_step(
        dirs,
        next2,
        prev2,
        live2,
        fresh,
        j,
    ) by {
        if j <= i {
            assert(ring_step(dirs, next, prev, live, order, j));
            if j < i {
                assert(order[j] != a);
                assert(succ(j, h) != succ(i, h));
                assert(order[succ(j, h)] != b);
                assert(fresh[succ(j, h + 1)] == order[succ(j, h)]);
            } else {
                assert(fresh[succ(j, h + 1)] == p);
            }
        } else if j == i + 1 {
            assert(fresh[succ(j, h + 1)] == b);
        } else {
            let j0 = j - 1;
            assert(ring_step(dirs, next, prev, live, order, j0));
            assert(fresh[succ(j, h + 1)] == order[succ(j0, h)]);
            assert(order[j0] != a);
            assert(succ(j0, h) != succ(i, h));
            assert(order[succ(j0, h)] != b);
        }
    }
    assert forall|v: int| 0 <= v < dirs.len() && #[trigger] live2[v] implies fresh.contains(
        v as usize,
    ) by {
        if v == p {
            assert(fresh[i + 1] == p);
        } else {
            assert(live[v]);
            assert(order.contains(v as usize));
            let j = choose|j: int| 0 <= j < h && order[j] == v as usize;
            if j <= i {
                assert(fresh[j] == v as usize);
            } else {
                assert(fresh[j + 1] == v as usize);
            }
        }
    }
}

/// Putting a point whose direction lies in the wedge at place `i` on the
/// ring after that place keeps every direction covered.
proof fn lemma_insert_covers(dirs: Seq<Dir>, order: Seq<usize>, i: int, p: usize)
    requires
        ring_covers(dirs, order),
        0 <= i < order.len(),
        dir_in_wedge(
            dirs[order[i] as int],
            dirs[order[succ(i, order.len() as int)] as int],
            dirs[p as int],
        ),
    ensures
        ring_covers(dirs, put_after(order, i, p)),
{
    let h = order.len() as int;
    let fresh = put_after(order, i, p);
    let a = order[i];
    let b = order[succ(i, h)];
    assert forall|dx: int, dy: int| dx != 0 || dy != 0 implies #[trigger] covered(
        dirs,
        fresh,
        dx,
        dy,
    ) by {
        assert(covered(dirs, order, dx, dy));
        let w = choose|w: int| 0 <= w < h && #[trigger] wedge_at(dirs, order, w, dx, dy);
        if w < i {
            assert(fresh[succ(w, h + 1)] == order[succ(w, h)]);
            assert(wedge_at(dirs, fresh, w, dx, dy));
        } else if w > i {
            assert(fresh[succ(w + 1, h + 1)] == order[succ(w, h)]);
            assert(wedge_at(dirs, fresh, w + 1, dx, dy));
        } else {
            let da = dirs[a as int];
            let db = dirs[b as int];
            let dp = dirs[p as int];
            lemma_wedge_split(
                da.0 as int,
                da.1 as int,
                db.0 as int,
                db.1 as int,
                dp.0 as int,
                dp.1 as int,
                dx,
                dy,
            );
            assert(fresh[succ(i + 1, h + 1)] == b);
            assert(fresh[i + 1] == p);
            assert(fresh[i] == a);
            if in_wedge(da.0 as int, da.1 as int, dp.0 as int, dp.1 as int, dx, dy) {
                assert(wedge_at(dirs, fresh, i, dx, dy));
            } else {
                assert(wedge_at(dirs, fresh, i + 1, dx, dy));
            }
        }
    }
}

/// The place `k` places after `i` on a ring of `h` places, for `k` up to `h`.
pub open spec fn turned(i: int, k: int, h: int) -> int {
    if i + k < h {
        i + k
    } else {
        i + k - h
    }
}

/// The place before `i` on a ring of `h` places.
pub open spec fn pred(i: int, h: int) -> int {
    if i == 0 {
        h - 1
    } else {
        i - 1
    }
}

/// Unlinking the point at place `i` keeps the ring a cycle.
proof fn lemma_erase_links(
    dirs: Seq<Dir>,
    next: Seq<usize>,
    prev: Seq<usize>,
    live: Seq<bool>,
    order: Seq<usize>,
    i: int,
)
    requires
        ring_links(dirs, next, prev, live, order),
        next.len() == dirs.len() && prev.len() == dirs.len() && live.len() == dirs.len(),
        0 <= i < order.len(),
        order.len() >= 4,
        cross(dirs[prev[order[i] as int] as int], dirs[next[order[i] as int] as int]) >= 0,
    ensures
        ring_links(
            dirs,
            next.update(prev[order[i] as int] as int, next[order[i] as int]),
            prev.update(next[order[i] as int] as int, prev[order[i] as int]),
            live.update(order[i] as int, false),
            taken_out(order, i),
        ),
{
    let h = order.len() as int;
    let b = order[i];
    let p = prev[b as int];
    let q = next[b as int];
    let ip = pred(i, h);
    let fresh = taken_out(order, i);
    let next2 = next.update(p as int, q);
    let prev2 = prev.update(q as int, p);
    let live2 = live.update(b as int, false);
    assert(succ(ip, h) == i);
    assert(ring_step(dirs, next, prev, live, order, ip));
    assert(ring_step(dirs, next, prev, live, order, i));
    assert(order[ip] == p);
    assert(order[succ(i, h)] == q);
    assert(p != b && q != b && p != q);
    let np = if i == 0 {
        h - 2
    } else {
        i - 1
    };
    assert(fresh[np] == p);
    assert(fresh[succ(np, h - 1)] == q);
    assert(fresh.no_duplicates()) by {
        assert forall|x: int, y: int|
            0 <= x < fresh.len() && 0 <= y < fresh.len() && x != y implies fresh[x] != fresh[y] by {
            let x0 = if x < i {
                x
            } else {
                x + 1
            };
            let y0 = if y < i {
                y
            } else {
                y + 1
            };
            assert(order[x0] != order[y0]);
        }
    }
    assert forall|j: int| 0 <= j < h - 1 implies #[trigger] ring_step(
        dirs,
        next2,
        prev2,
        live2,
        fresh,
        j,
    ) by {
        let j0 = if j < i {
            j
        } else {
            j + 1
        };
        assert(ring_step(dirs, next, prev, live, order, j0));
        assert(order[j0] != b);
        if j != np {
            assert(j0 != ip);
            assert(fresh[succ(j, h - 1)] == order[succ(j0, h)]);
            assert(order[j0] != p);
            assert(succ(j0, h) != succ(i, h));
            assert(order[succ(j0, h)] != q);
        }
    }
    assert forall|v: int| 0 <= v < dirs.len() && #[trigger] live2[v] implies fresh.contains(
        v as usize,
    ) by {
        assert(v != b);
        assert(live[v]);
        assert(order.contains(v as usize));
        let j = choose|j: int| 0 <= j < h && order[j] == v as usize;
        assert(j != i);
        if j < i {
            assert(fresh[j] == v as usize);
        } else {
            assert(fresh[j - 1] == v as usize);
        }
    }
}

/// Taking the point at place `i` off the ring keeps every direction
/// covered, as long as the wedge between its neighbours is narrower than a
/// half turn.
proof fn lemma_erase_covers(dirs: Seq<Dir>, order: Seq<usize>, i: int)
    requires
        ring_covers(dirs, order),
        0 <= i < order.len(),
        order.len() >= 3,
        cross(
            dirs[order[pred(i, order.len() as int)] as int],
            dirs[order[succ(i, order.len() as int)] as int],
        ) > 0,
        cross(dirs[order[pred(i, order.len() as int)] as int], dirs[order[i] as int]) >= 0,
        cross(dirs[order[i] as int], dirs[order[succ(i, order.len() as int)] as int]) >= 0,
    ensures
        ring_covers(dirs, taken_out(order, i)),
{
    let h = order.len() as int;
    let fresh = taken_out(order, i);
    let ip = pred(i, h);
    let b = order[i];
    let p = order[ip];
    let q = order[succ(i, h)];
    let np = if i == 0 {
        h - 2
    } else {
        i - 1
    };
    assert(fresh[np] == p);
    assert(fresh[succ(np, h - 1)] == q);
    assert(succ(ip, h) == i);
    assert forall|dx: int, dy: int| dx != 0 || dy != 0 implies #[trigger] covered(
        dirs,
        fresh,
        dx,
        dy,
    ) by {
        assert(covered(dirs, order, dx, dy));
        let w = choose|w: int| 0 <= w < h && #[trigger] wedge_at(dirs, order, w, dx, dy);
        if w == i || w == ip {
            let dp = dirs[p as int];
            let db = dirs[b as int];
            let dq = dirs[q as int];
            lemma_wedge_merge(
                dp.0 as int,
                dp.1 as int,
                db.0 as int,
                db.1 as int,
                dq.0 as int,
                dq.1 as int,
                dx,
                dy,
            );
            assert(wedge_at(dirs, fresh, np, dx, dy));
        } else if w < i {
            assert(fresh[succ(w, h - 1)] == order[succ(w, h)]);
            assert(wedge_at(dirs, fresh, w, dx, dy));
        } else {
            assert(fresh[succ(w - 1, h - 1)] == order[succ(w, h)]);
            assert(wedge_at(dirs, fresh, w - 1, dx, dy));
        }
    }
}

/// The sum, over the first `k` places of the ring, of the determinant of
/// the offsets of a point and the next: for the whole ring, twice the area
/// that the ring encloses.
pub open spec fn ring_sum(dirs: Seq<Dir>, order: Seq<usize>, k: int) -> int
    decreases k,
{
    if k <= 0 {
        0
    } else {
        ring_sum(dirs, order, k - 1) + cross(
            dirs[order[k - 1] as int],
            dirs[order[succ(k - 1, order.len() as int)] as int],
        )
    }
}

/// How the partial sums of the ring change when `p` is put in after place
/// `i`.
proof fn lemma_ring_sum_put(dirs: Seq<Dir>, order: Seq<usize>, i: int, p: usize, k: int)
    requires
        0 <= i < order.len(),
        0 <= k <= order.len() + 1,
    ensures
        ring_sum(dirs, put_after(order, i, p), k) == (if k <= i {
            ring_sum(dirs, order, k)
        } else if k == i + 1 {
            ring_sum(dirs, order, i) + cross(dirs[order[i] as int], dirs[p as int])
        } else {
            ring_sum(dirs, order, k - 1) - cross(
                dirs[order[i] as int],
                dirs[order[succ(i, order.len() as int)] as int],
            ) + cross(dirs[order[i] as int], dirs[p as int]) + cross(
                dirs[p as int],
                dirs[order[succ(i, order.len() as int)] as int],
            )
        }),
    decreases k,
{
    let h = order.len() as int;
    let fresh = put_after(order, i, p);
    if k > 0 {
        lemma_ring_sum_put(dirs, order, i, p, k - 1);
        let j = k - 1;
        assert(fresh.len() == h + 1);
        if j < i {
            assert(fresh[j] == order[j]);
            assert(fresh[succ(j, h + 1)] == order[succ(j, h)]);
        } else if j == i {
            assert(fresh[j] == order[i]);
            assert(fresh[succ(j, h + 1)] == p);
        } else if j == i + 1 {
            assert(fresh[j] == p);
            assert(fresh[succ(j, h + 1)] == order[succ(i, h)]);
            assert(ring_sum(dirs, order, i + 1) == ring_sum(dirs, order, i) + cross(
                dirs[order[i] as int],
                dirs[order[succ(i, h)] as int],
            ));
        } else {
            assert(fresh[j] == order[j - 1]);
            assert(fresh[succ(j, h + 1)] == order[succ(j - 1, h)]);
        }
    }
}

/// How the partial sums of the ring change when place `i` is taken out.
proof fn lemma_ring_sum_take(dirs: Seq<Dir>, order: Seq<usize>, i: int, k: int)
    requires
        0 <= i < order.len(),
        order.len() >= 4,
        0 <= k <= order.len() - 1,
    ensures
        ring_sum(dirs, taken_out(order, i), k) == (if i == 0 {
            if k <= order.len() - 2 {
                ring_sum(dirs, order, k + 1) - cross(dirs[order[0] as int], dirs[order[1] as int])
            } else {
                ring_sum(dirs, order, k) - cross(dirs[order[0] as int], dirs[order[1] as int])
                    + cross(dirs[order[order.len() - 1] as int], dirs[order[1] as int])
            }
        } else if k <= i - 1 {
            ring_sum(dirs, order, k)
        } else {
            ring_sum(dirs, order, k + 1) - cross(
                dirs[order[i - 1] as int],
                dirs[order[i] as int],
            ) - cross(dirs[order[i] as int], dirs[order[succ(i, order.len() as int)] as int])
                + cross(
                dirs[order[i - 1] as int],
                dirs[order[succ(i, order.len() as int)] as int],
            )
        }),
    decreases k,
{
    let h = order.len() as int;
    let fresh = taken_out(order, i);
    assert(fresh.len() == h - 1);
    if k > 0 {
        lemma_ring_sum_take(dirs, order, i, k - 1);
        let j = k - 1;
        if i == 0 {
            assert(fresh[j] == order[j + 1]);
            if j < h - 2 {
                assert(fresh[succ(j, h - 1)] == order[succ(j + 1, h)]);
            } else {
                assert(fresh[succ(j, h - 1)] == order[1]);
            }
            assert(ring_sum(dirs, order, 1) == cross(dirs[order[0] as int], dirs[order[1] as int]))
                by {
                assert(ring_sum(dirs, order, 0) == 0);
            }
        } else if j < i - 1 {
            assert(fresh[j] == order[j]);
            assert(fresh[succ(j, h - 1)] == order[succ(j, h)]);
        } else if j == i - 1 {
            assert(fresh[j] == order[i - 1]);
            assert(fresh[succ(j, h - 1)] == order[succ(i, h)]);
            assert(ring_sum(dirs, order, i + 1) == ring_sum(dirs, order, i) + cross(
                dirs[order[i] as int],
                dirs[order[succ(i, h)] as int],
            ));
            assert(ring_sum(dirs, order, i) == ring_sum(dirs, order, i - 1) + cross(
                dirs[order[i - 1] as int],
                dirs[order[succ(i - 1, h)] as int],
            ));
        } else {
            assert(fresh[j] == order[j + 1]);
            assert(fresh[succ(j, h - 1)] == order[succ(j + 1, h)]);
        }
    } else {
        if i == 0 {
            assert(ring_sum(dirs, order, 1) == cross(dirs[order[0] as int], dirs[order[1] as int]))
                by {
                assert(ring_sum(dirs, order, 0) == 0);
            }
        }
    }
}

/// The ring of boundary points.
pub struct Hull {
    /// Offset of every point from the center.
    dirs: Vec<Dir>,
    /// For a boundary point, the boundary point that follows it.
    next: Vec<usize>,
    /// For a boundary point, the boundary point that precedes it.
    prev: Vec<usize>,
    /// For a boundary point, the boundary edge that leaves it.
    edge: Vec<usize>,
    /// Whether a point is on the boundary.
    live: Vec<bool>,
    /// A boundary point from which walks set out.
    start: usize,
    /// Number of boundary points.
    count: usize,
    /// For each sector of pseudo-angle, the point that was last put on the
    /// ring in it; it may have left the ring since.
    sectors: Vec<usize>,
    /// The boundary points in counter-clockwise order.
    order: Ghost<Seq<usize>>,
}

impl Hull {
    /// Number of points the index was made for.
    pub closed spec fn capacity(&self) -> int {
        self.dirs@.len() as int
    }

    /// Offset of point `v` from the center.
    pub closed spec fn dir(&self, v: int) -> Dir {
        if 0 <= v < self.dirs@.len() {
            self.dirs@[v]
        } else {
            (0i64, 0i64)
        }
    }

    /// Point `v` is on the boundary.
    pub closed spec fn is_live(&self, v: int) -> bool {
        0 <= v < self.live@.len() && self.live@[v]
    }

    /// The boundary point that follows `v` counter-clockwise.
    pub closed spec fn next_point(&self, v: int) -> usize {
        if 0 <= v < self.next@.len() {
            self.next@[v]
        } else {
            0
        }
    }

    /// The boundary point that precedes `v`.
    pub closed spec fn prev_point(&self, v: int) -> usize {
        if 0 <= v < self.prev@.len() {
            self.prev@[v]
        } else {
            0
        }
    }

    /// The boundary edge that leaves `v`.
    pub closed spec fn edge_of(&self, v: int) -> usize {
        if 0 <= v < self.edge@.len() {
            self.edge@[v]
        } else {
            0
        }
    }

    /// The boundary point from which `walk` sets out: the point that was put
    /// on the ring last, or the point before the one that was taken off
    /// last.
    pub closed spec fn start_point(&self) -> usize {
        self.start
    }

    /// Twice the area that the ring encloses, in units of the offsets: the
    /// sum over the ring of the determinant of the offsets of a point and
    /// the next.
    pub open spec fn area2(&self) -> int {
        ring_sum(self.dirs(), self.ring(), self.ring().len() as int)
    }

    /// The boundary points in counter-clockwise order.
    pub closed spec fn ring(&self) -> Seq<usize> {
        self.order@
    }

    /// The offsets of all points from the center.
    pub closed spec fn dirs(&self) -> Seq<Dir> {
        self.dirs@
    }

    /// Number of boundary points.
    pub closed spec fn size(&self) -> int {
        self.order@.len() as int
    }

    /// The ring is consistent: it is one closed cycle through exactly the
    /// live points, it never turns clockwise about the center, and its
    /// wedges cover every direction.
    pub closed spec fn wf(&self) -> bool {
        let n = self.dirs@.len();
        &&& n <= usize::MAX
        &&& self.next@.len() == n
        &&& self.prev@.len() == n
        &&& self.edge@.len() == n
        &&& self.live@.len() == n
        &&& self.count == self.order@.len()
        &&& self.sectors@.len() >= 1
        &&& self.start < n
        &&& self.live@[self.start as int]
        &&& forall|v: int| 0 <= v < n ==> dir_in_range(#[trigger] self.dirs@[v])
        &&& ring_links(self.dirs@, self.next@, self.prev@, self.live@, self.order@)
        &&& ring_covers(self.dirs@, self.order@)
    }

    /// What holds of a boundary point and its two neighbours.
    pub proof fn lemma_neighbours(&self, v: int)
        requires
            self.wf(),
            self.is_live(v),
        ensures
            0 <= v < self.capacity(),
            self.is_live(self.next_point(v) as int),
            self.is_live(self.prev_point(v) as int),
            self.prev_point(self.next_point(v) as int) == v,
            self.next_point(self.prev_point(v) as int) == v,
            cross(self.dir(v), self.dir(self.next_point(v) as int)) >= 0,
            cross(self.dir(self.prev_point(v) as int), self.dir(v)) >= 0,
            self.size() >= 3,
    {
        let order = self.order@;
        let h = order.len() as int;
        assert(self.live@[v]);
        assert(order.contains(v as usize));
        let i = choose|i: int| 0 <= i < h && order[i] == v as usize;
        let j = pred(i, h);
        assert(succ(j, h) == i);
        assert(ring_step(self.dirs@, self.next@, self.prev@, self.live@, order, i));
        assert(ring_step(self.dirs@, self.next@, self.prev@, self.live@, order, j));
        assert(ring_step(self.dirs@, self.next@, self.prev@, self.live@, order, succ(i, h)));
    }

    /// What the ring is: the live points, each once, each followed by its
    /// next point.
    pub proof fn lemma_ring(&self)
        requires
            self.wf(),
        ensures
            self.ring().len() == self.size(),
            self.ring().no_duplicates(),
            self.dirs().len() == self.capacity(),
            forall|v: int| 0 <= v < self.capacity() ==> self.dirs()[v] == self.dir(v),
            forall|i: int|
                0 <= i < self.ring().len() ==> self.is_live((#[trigger] self.ring()[i]) as int)
                    && self.next_point(self.ring()[i] as int) == self.ring()[succ(
                    i,
                    self.ring().len() as int,
                )],
            forall|v: int| self.is_live(v) ==> self.ring().contains(v as usize),
    {
        let order = self.order@;
        let h = order.len() as int;
        assert forall|i: int| 0 <= i < h implies self.is_live((#[trigger] order[i]) as int)
            && self.next_point(order[i] as int) == order[succ(i, h)] by {
            assert(ring_step(self.dirs@, self.next@, self.prev@, self.live@, order, i));
        }
        assert forall|v: int| self.is_live(v) implies order.contains(v as usize) by {
            assert(self.live@[v]);
        }
    }

    /// The point from which walks set out is on the boundary.
    pub proof fn lemma_start_live(&self)
        requires
            self.wf(),
        ensures
            self.is_live(self.start_point() as int),
    {
    }

    /// The ring through the three points `0`, `1`, `2` of a triangle that
    /// holds the center strictly inside; `e01`, `e12`, `e20` are the edges
    /// that leave them.
    pub fn new(dirs: Vec<Dir>, e01: usize, e12: usize, e20: usize) -> (h: Hull)
        requires
            dirs@.len() >= 3,
            forall|v: int| 0 <= v < dirs@.len() ==> dir_in_range(#[trigger] dirs@[v]),
            cross(dirs@[0], dirs@[1]) > 0,
            cross(dirs@[1], dirs@[2]) > 0,
            cross(dirs@[2], dirs@[0]) > 0,
        ensures
            h.wf(),
            h.capacity() == dirs@.len(),
            h.size() == 3,
            forall|v: int| 0 <= v < dirs@.len() ==> h.dir(v) == dirs@[v],
            forall|v: int| h.is_live(v) <==> 0 <= v < 3,
            h.next_point(0) == 1 && h.next_point(1) == 2 && h.next_point(2) == 0,
            h.prev_point(0) == 2 && h.prev_point(1) == 0 && h.prev_point(2) == 1,
            h.edge_of(0) == e01 && h.edge_of(1) == e12 && h.edge_of(2) == e20,
            h.area2() == cross(dirs@[0], dirs@[1]) + cross(dirs@[1], dirs@[2]) + cross(
                dirs@[2],
                dirs@[0],
            ),
            h.start_point() == 0,
    {
        let n = dirs.len();
        let mut next: Vec<usize> = Vec::new();
        let mut prev: Vec<usize> = Vec::new();
        let mut edge: Vec<usize> = Vec::new();
        let mut live: Vec<bool> = Vec::new();
        let mut sectors: Vec<usize> = Vec::new();
        let mut i: usize = 0;
        while i < n
            invariant
                i <= n,
                next@.len() == i,
                prev@.len() == i,
                edge@.len() == i,
                live@.len() == i,
                sectors@.len() == i,
                forall|v: int| 0 <= v < i ==> !(#[trigger] live@[v]),
            decreases n - i,
        {
            next.push(0);
            prev.push(0);
            edge.push(0);
            live.push(false);
            sectors.push(0);
            i = i + 1;
        }
        proof {
            let d0 = dirs@[0];
            let d1 = dirs@[1];
            let d2 = dirs@[2];
            lemma_det2_zero(d0.0 as int, d0.1 as int);
            lemma_det2_zero(d1.0 as int, d1.1 as int);
            lemma_det2_zero(d2.0 as int, d2.1 as int);
        }
        let k0 = pseudo_angle(dirs[0], n);
        sectors.set(k0, 0);
        let k1 = pseudo_angle(dirs[1], n);
        sectors.set(k1, 1);
        let k2 = pseudo_angle(dirs[2], n);
        sectors.set(k2, 2);
        next.set(0, 1);
        next.set(1, 2);
        next.set(2, 0);
        prev.set(0, 2);
        prev.set(1, 0);
        prev.set(2, 1);
        edge.set(0, e01);
        edge.set(1, e12);
        edge.set(2, e20);
        live.set(0, true);
        live.set(1, true);
        live.set(2, true);
        let ghost order: Seq<usize> = seq![0usize, 1usize, 2usize];
        let h = Hull {
            dirs,
            next,
            prev,
            edge,
            live,
            start: 0,
            count: 3,
            sectors,
            order: Ghost(order),
        };
        proof {
            assert(order[0] == 0 && order[1] == 1 && order[2] == 2);
            assert(ring_sum(h.dirs@, order, 0) == 0);
            assert(ring_sum(h.dirs@, order, 1) == cross(h.dirs@[0], h.dirs@[1]));
            assert(ring_sum(h.dirs@, order, 2) == ring_sum(h.dirs@, order, 1) + cross(
                h.dirs@[1],
                h.dirs@[2],
            ));
            assert(ring_sum(h.dirs@, order, 3) == ring_sum(h.dirs@, order, 2) + cross(
                h.dirs@[2],
                h.dirs@[0],
            ));
            assert(ring_step(h.dirs@, h.next@, h.prev@, h.live@, order, 0));
            assert(ring_step(h.dirs@, h.next@, h.prev@, h.live@, order, 1));
            assert(ring_step(h.dirs@, h.next@, h.prev@, h.live@, order, 2));
            assert forall|v: int| 0 <= v < n && #[trigger] h.live@[v] implies order.contains(
                v as usize,
            ) by {
                assert(order[v] == v as usize);
            }
            assert forall|dx: int, dy: int| dx != 0 || dy != 0 implies #[trigger] covered(
                h.dirs@,
                order,
                dx,
                dy,
            ) by {
                let a = h.dirs@[0];
                let b = h.dirs@[1];
                let c = h.dirs@[2];
                lemma_wedge_seed(
                    a.0 as int,
                    a.1 as int,
                    b.0 as int,
                    b.1 as int,
                    c.0 as int,
                    c.1 as int,
                    dx,
                    dy,
                );
                if wedge_at(h.dirs@, order, 0, dx, dy) {
                } else if wedge_at(h.dirs@, order, 1, dx, dy) {
                } else {
                    assert(wedge_at(h.dirs@, order, 2, dx, dy));
                }
            }
        }
        h
    }

    /// Number of boundary points.
    pub fn len(&self) -> (n: usize)
        requires
            self.wf(),
        ensures
            n == self.size(),
    {
        self.count
    }

    /// The boundary edge that leaves the boundary point `v`.
    pub fn edge(&self, v: usize) -> (e: usize)
        requires
            self.wf(),
            self.is_live(v as int),
        ensures
            e == self.edge_of(v as int),
    {
        self.edge[v]
    }

    /// The boundary edge that arrives at the boundary point `v`.
    pub fn prev_edge(&self, v: usize) -> (e: usize)
        requires
            self.wf(),
            self.is_live(v as int),
        ensures
            e == self.edge_of(self.prev_point(v as int) as int),
    {
        proof {
            self.lemma_neighbours(v as int);
        }
        self.edge[self.prev[v]]
    }

    /// The boundary point that follows `v`.
    pub fn next(&self, v: usize) -> (q: usize)
        requires
            self.wf(),
            self.is_live(v as int),
        ensures
            q == self.next_point(v as int),
    {
        self.next[v]
    }

    /// The boundary point that precedes `v`.
    pub fn prev(&self, v: usize) -> (q: usize)
        requires
            self.wf(),
            self.is_live(v as int),
        ensures
            q == self.prev_point(v as int),
    {
        self.prev[v]
    }

    /// The offset of point `v` from the center.
    pub fn direction(&self, v: usize) -> (d: Dir)
        requires
            self.wf(),
            v < self.capacity(),
        ensures
            d == self.dir(v as int),
    {
        self.dirs[v]
    }

    /// The boundary points in counter-clockwise order, from `start_point`
    /// on.
    pub fn walk(&self) -> (r: Vec<usize>)
        requires
            self.wf(),
        ensures
            r@.len() == self.size(),
            r@.no_duplicates(),
            r@[0] == self.start_point(),
            forall|k: int|
                0 <= k < r@.len() ==> self.is_live((#[trigger] r@[k]) as int) && self.next_point(
                    r@[k] as int,
                ) == r@[succ(k, r@.len() as int)],
            forall|v: int| self.is_live(v) ==> r@.contains(v as usize),
    {
        let ghost order = self.order@;
        let ghost h = order.len() as int;
        let ghost i0 = choose|i: int| 0 <= i < h && order[i] == self.start;
        proof {
            assert(self.live@[self.start as int]);
            assert(order.contains(self.start));
        }
        let mut out: Vec<usize> = Vec::new();
        let mut v = self.start;
        let mut k: usize = 0;
        while k < self.count
            invariant
                self.wf(),
                order == self.order@,
                h == order.len(),
                0 <= i0 < h,
                k <= h,
                out@.len() == k,
                v == order[turned(i0, k as int, h)],
                forall|j: int| 0 <= j < k ==> #[trigger] out@[j] == order[turned(i0, j, h)],
            decreases self.count - k,
        {
            proof {
                let idx = turned(i0, k as int, h);
                assert(ring_step(self.dirs@, self.next@, self.prev@, self.live@, order, idx));
                assert(succ(idx, h) == turned(i0, k + 1, h));
            }
            out.push(v);
            v = self.next[v];
            k = k + 1;
        }
        proof {
            let r = out@;
            assert forall|x: int, y: int| 0 <= x < r.len() && 0 <= y < r.len() && x != y implies r[x]
                != r[y] by {
                assert(turned(i0, x, h) != turned(i0, y, h));
            }
            assert forall|j: int| 0 <= j < r.len() implies self.is_live((#[trigger] r[j]) as int)
                && self.next_point(r[j] as int) == r[succ(j, r.len() as int)] by {
                let idx = turned(i0, j, h);
                assert(ring_step(self.dirs@, self.next@, self.prev@, self.live@, order, idx));
                assert(succ(idx, h) == turned(i0, succ(j, h), h));
            }
            assert forall|w: int| self.is_live(w) implies r.contains(w as usize) by {
                assert(self.live@[w]);
                assert(order.contains(w as usize));
                let m = choose|m: int| 0 <= m < h && order[m] == w as usize;
                let j = if m >= i0 {
                    m - i0
                } else {
                    m + h - i0
                };
                assert(turned(i0, j, h) == m);
                assert(r[j] == w as usize);
            }
        }
        out
    }

    /// Sets the boundary edge that leaves the boundary point `v`.
    pub fn update(&mut self, v: usize, e: usize)
        requires
            old(self).wf(),
            old(self).is_live(v as int),
        ensures
            final(self).wf(),
            final(self).same_ring(*old(self)),
            final(self).edge_of(v as int) == e,
            forall|w: int| w != v ==> final(self).edge_of(w) == old(self).edge_of(w),
            final(self).start_point() == old(self).start_point(),
    {
        self.edge.set(v, e);
    }

    /// `self` has the points, the ring and the offsets of `other`; the edges
    /// may differ.
    pub closed spec fn same_ring(&self, other: Hull) -> bool {
        &&& self.dirs@ == other.dirs@
        &&& self.next@ == other.next@
        &&& self.prev@ == other.prev@
        &&& self.live@ == other.live@
        &&& self.order@ == other.order@
    }

    /// Every ring is its own.
    pub proof fn lemma_same_ring_refl(&self)
        ensures
            self.same_ring(*self),
    {
    }

    /// Having the same ring carries over.
    pub proof fn lemma_same_ring_trans(&self, mid: Hull, other: Hull)
        requires
            self.same_ring(mid),
            mid.same_ring(other),
        ensures
            self.same_ring(other),
    {
    }

    /// What `same_ring` means for the accessors.
    pub proof fn lemma_same_ring(&self, other: Hull)
        requires
            self.same_ring(other),
        ensures
            self.capacity() == other.capacity(),
            self.size() == other.size(),
            forall|v: int| self.dir(v) == other.dir(v),
            forall|v: int| self.is_live(v) == other.is_live(v),
            forall|v: int| self.next_point(v) == other.next_point(v),
            forall|v: int| self.prev_point(v) == other.prev_point(v),
            self.area2() == other.area2(),
    {
    }

    /// The direction of `p` lies in the wedge that starts at the boundary
    /// point `a`.
    pub open spec fn sees(&self, a: int, p: int) -> bool {
        dir_in_wedge(self.dir(a), self.dir(self.next_point(a) as int), self.dir(p))
    }

    /// Finds the boundary point at which the wedge starts that holds the
    /// direction of point `p`.
    pub fn locate(&self, p: usize) -> (a: usize)
        requires
            self.wf(),
            p < self.capacity(),
            self.dir(p as int) != (0i64, 0i64),
        ensures
            self.is_live(a as int),
            self.sees(a as int, p as int),
    {
        let d = self.dirs[p];
        let ghost order = self.order@;
        let ghost h = order.len() as int;
        // Set out from the live point that was last put into the sector of
        // `d`, or into the nearest sector after it that remembers one.
        let sectors = self.sectors.len();
        let key = pseudo_angle(d, sectors);
        let mut v = self.start;
        let mut j: usize = 0;
        while j < sectors
            invariant
                self.wf(),
                sectors == self.sectors@.len(),
                key < sectors,
                v < self.live@.len(),
                self.live@[v as int],
            decreases sectors - j,
        {
            let slot = if j < sectors - key {
                key + j
            } else {
                j - (sectors - key)
            };
            let c = self.sectors[slot];
            if c < self.live.len() && self.live[c] {
                v = c;
                break ;
            }
            j = j + 1;
        }
        // Step back while `v` lies ahead of `d` by less than a half turn.
        let mut back: usize = 0;
        while back < self.count && cross_of(self.dirs[v], d) < 0
            invariant
                self.wf(),
                order == self.order@,
                h == order.len(),
                d == self.dirs@[p as int],
                p < self.dirs@.len(),
                v < self.live@.len(),
                self.live@[v as int],
            decreases self.count - back,
        {
            proof {
                assert(order.contains(v));
                let i = choose|i: int| 0 <= i < h && order[i] == v;
                assert(succ(pred(i, h), h) == i);
                assert(ring_step(self.dirs@, self.next@, self.prev@, self.live@, order, pred(i, h)));
            }
            v = self.prev[v];
            back = back + 1;
        }
        let ghost k: int = 0;
        let ghost idx: int = 0;
        proof {
            assert(covered(self.dirs@, order, d.0 as int, d.1 as int));
            k = choose|i: int|
                0 <= i < h && #[trigger] wedge_at(self.dirs@, order, i, d.0 as int, d.1 as int);
            assert(order.contains(v));
            idx = choose|i: int| 0 <= i < h && order[i] == v;
        }
        loop
            invariant
                self.wf(),
                order == self.order@,
                h == order.len(),
                d == self.dirs@[p as int],
                p < self.dirs@.len(),
                0 <= k < h,
                wedge_at(self.dirs@, order, k, d.0 as int, d.1 as int),
                0 <= idx < h,
                order[idx] == v,
            decreases
                    (if k >= idx {
                        k - idx
                    } else {
                        k + h - idx
                    }),
        {
            assert(ring_step(self.dirs@, self.next@, self.prev@, self.live@, order, idx));
            let q = self.next[v];
            let a = self.dirs[v];
            let b = self.dirs[q];
            assert(dir_in_range(self.dirs@[v as int]));
            assert(dir_in_range(self.dirs@[q as int]));
            assert(dir_in_range(self.dirs@[p as int]));
            if cross_of(a, b) > 0 && cross_of(a, d) >= 0 && cross_of(d, b) > 0 {
                return v;
            }
            proof {
                assert(!wedge_at(self.dirs@, order, idx, d.0 as int, d.1 as int));
                idx = succ(idx, h);
            }
            v = q;
        }
    }

    /// The boundary edge that point `p` faces: the edge that leaves the
    /// boundary point at which the wedge starts that holds the direction of
    /// `p`.
    pub fn get_edge(&self, p: usize) -> (e: usize)
        requires
            self.wf(),
            p < self.capacity(),
            self.dir(p as int) != (0i64, 0i64),
        ensures
            exists|a: int|
                #[trigger] self.is_live(a) && self.sees(a, p as int) && e == self.edge_of(a),
    {
        let a = self.locate(p);
        assert(self.is_live(a as int));
        self.edge[a]
    }

    /// Puts point `p`, whose direction lies in the wedge that starts at the
    /// boundary point `a`, on the ring after `a`, with `e` as the edge that
    /// leaves it.
    pub fn insert(&mut self, a: usize, p: usize, e: usize)
        requires
            old(self).wf(),
            old(self).is_live(a as int),
            p < old(self).capacity(),
            !old(self).is_live(p as int),
            old(self).sees(a as int, p as int),
            old(self).size() < usize::MAX,
        ensures
            final(self).wf(),
            final(self).capacity() == old(self).capacity(),
            final(self).size() == old(self).size() + 1,
            forall|v: int| final(self).dir(v) == old(self).dir(v),
            forall|v: int| final(self).is_live(v) <==> (old(self).is_live(v) || v == p),
            forall|v: int|
                final(self).next_point(v) == (if v == a {
                    p
                } else if v == p {
                    old(self).next_point(a as int)
                } else {
                    old(self).next_point(v)
                }),
            forall|v: int|
                final(self).prev_point(v) == (if v == old(self).next_point(a as int) {
                    p
                } else if v == p {
                    a
                } else {
                    old(self).prev_point(v)
                }),
            forall|v: int|
                final(self).edge_of(v) == (if v == p {
                    e
                } else {
                    old(self).edge_of(v)
                }),
            final(self).area2() == old(self).area2() - cross(
                old(self).dir(a as int),
                old(self).dir(old(self).next_point(a as int) as int),
            ) + cross(old(self).dir(a as int), old(self).dir(p as int)) + cross(
                old(self).dir(p as int),
                old(self).dir(old(self).next_point(a as int) as int),
            ),
            final(self).start_point() == p,
    {
        proof {
            self.lemma_neighbours(a as int);
        }
        let b = self.next[a];
        let ghost order = self.order@;
        let ghost h = order.len() as int;
        let ghost i = choose|i: int| 0 <= i < h && order[i] == a;
        proof {
            assert(self.live@[a as int]);
            assert(order.contains(a));
        }
        self.next.set(a, p);
        self.next.set(p, b);
        self.prev.set(b, p);
        self.prev.set(p, a);
        self.edge.set(p, e);
        self.live.set(p, true);
        self.start = p;
        self.count = self.count + 1;
        proof {
            let dp = self.dirs@[p as int];
            let db = self.dirs@[b as int];
            lemma_det2_zero(db.0 as int, db.1 as int);
        }
        let key = pseudo_angle(self.dirs[p], self.sectors.len());
        self.sectors.set(key, p);
        self.order = Ghost(put_after(order, i, p));
        proof {
            assert(ring_step(
                old(self).dirs@,
                old(self).next@,
                old(self).prev@,
                old(self).live@,
                order,
                i,
            ));
            lemma_insert_links(
                old(self).dirs@,
                old(self).next@,
                old(self).prev@,
                old(self).live@,
                order,
                i,
                p,
            );
            lemma_insert_covers(old(self).dirs@, order, i, p);
            lemma_ring_sum_put(old(self).dirs@, order, i, p, h + 1);
        }
    }

    /// Takes the boundary point `b` off the ring. Its neighbours become
    /// neighbours of each other; the wedge between them must stay narrower
    /// than a half turn.
    pub fn erase(&mut self, b: usize)
        requires
            old(self).wf(),
            old(self).is_live(b as int),
            cross(
                old(self).dir(old(self).prev_point(b as int) as int),
                old(self).dir(old(self).next_point(b as int) as int),
            ) > 0,
        ensures
            final(self).wf(),
            final(self).capacity() == old(self).capacity(),
            final(self).size() == old(self).size() - 1,
            forall|v: int| final(self).dir(v) == old(self).dir(v),
            forall|v: int| final(self).is_live(v) <==> (old(self).is_live(v) && v != b),
            forall|v: int|
                v != b ==> final(self).next_point(v) == (if v == old(self).prev_point(b as int) {
                    old(self).next_point(b as int)
                } else {
                    old(self).next_point(v)
                }),
            forall|v: int|
                v != b ==> final(self).prev_point(v) == (if v == old(self).next_point(b as int) {
                    old(self).prev_point(b as int)
                } else {
                    old(self).prev_point(v)
                }),
            forall|v: int| final(self).edge_of(v) == old(self).edge_of(v),
            final(self).area2() == old(self).area2() - cross(
                old(self).dir(old(self).prev_point(b as int) as int),
                old(self).dir(b as int),
            ) - cross(
                old(self).dir(b as int),
                old(self).dir(old(self).next_point(b as int) as int),
            ) + cross(
                old(self).dir(old(self).prev_point(b as int) as int),
                old(self).dir(old(self).next_point(b as int) as int),
            ),
            final(self).start_point() == old(self).prev_point(b as int),
    {
        proof {
            self.lemma_neighbours(b as int);
        }
        let p = self.prev[b];
        let q = self.next[b];
        let ghost order = self.order@;
        let ghost h = order.len() as int;
        let ghost i = choose|i: int| 0 <= i < h && order[i] == b;
        let ghost ip = pred(i, h);
        proof {
            assert(self.live@[b as int]);
            assert(order.contains(b));
            assert(succ(ip, h) == i);
            assert(ring_step(self.dirs@, self.next@, self.prev@, self.live@, order, i));
            assert(ring_step(self.dirs@, self.next@, self.prev@, self.live@, order, ip));
            assert(order[ip] == p);
            assert(order[succ(i, h)] == q);
            let dp = self.dirs@[p as int];
            assert(cross(dp, dp) == 0) by (nonlinear_arith);
            assert(p != q);
            let dq = self.dirs@[q as int];
            let i2 = succ(succ(i, h), h);
            assert(ring_step(self.dirs@, self.next@, self.prev@, self.live@, order, succ(i, h)));
            lemma_det2_linear(dp.0 as int, dp.1 as int, dq.0 as int, dq.1 as int, 0, 0);
            assert(order[i2] != p);
            assert(h >= 4);
        }
        self.next.set(p, q);
        self.prev.set(q, p);
        self.live.set(b, false);
        self.start = p;
        self.count = self.count - 1;
        self.order = Ghost(taken_out(order, i));
        proof {
            lemma_erase_links(
                old(self).dirs@,
                old(self).next@,
                old(self).prev@,
                old(self).live@,
                order,
                i,
            );
            lemma_erase_covers(old(self).dirs@, order, i);
            lemma_ring_sum_take(old(self).dirs@, order, i, h - 1);
            if i == 0 {
                assert(ring_sum(old(self).dirs@, order, h) == ring_sum(
                    old(self).dirs@,
                    order,
                    h - 1,
                ) + cross(
                    old(self).dirs@[order[h - 1] as int],
                    old(self).dirs@[order[succ(h - 1, h)] as int],
                ));
            }
        }
    }
}

} // verus!
