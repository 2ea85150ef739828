//! The half-edge store: triangles kept as consecutive triples of directed
//! edges, each edge knowing the edge that runs the other way in the
//! neighbouring triangle.
use vstd::prelude::*;

verus! {

/// Marks an edge that has no twin: it lies on the boundary.
pub const EMPTY: usize = usize::MAX;

/// A directed edge of a triangle.
#[derive(Clone, Copy, Debug, PartialEq, Eq, Structural)]
pub struct Edge {
    /// Point at which the edge starts.
    pub src: usize,
    /// Point at which the edge ends.
    pub dst: usize,
    /// The edge from `dst` to `src` in the neighbouring triangle, or `EMPTY`.
    pub buddy: usize,
}

/// The edge that follows `e` in its triangle.
pub open spec fn next_of(e: int) -> int {
    if e % 3 == 2 {
        e - 2
    } else {
        e + 1
    }
}

/// The edge that precedes `e` in its triangle.
pub open spec fn prev_of(e: int) -> int {
    if e % 3 == 0 {
        e + 2
    } else {
        e - 1
    }
}

/// The topology of a sequence of edges is consistent: the edges come in
/// triples that close up into triangles, and twins point at each other and
/// run between the same two points in opposite directions.
pub open spec fn edges_wf(s: Seq<Edge>) -> bool {
    &&& s.len() % 3 == 0
    &&& s.len() <= usize::MAX
    &&& forall|e: int| 0 <= e < s.len() ==> s[e].dst == s[#[trigger] next_of(e)].src
    &&& forall|e: int|
        0 <= e < s.len() && (#[trigger] s[e]).buddy != EMPTY ==> {
            &&& s[e].buddy < s.len()
            &&& s[s[e].buddy as int].buddy == e
            &&& s[s[e].buddy as int].src == s[e].dst
            &&& s[s[e].buddy as int].dst == s[e].src
        }
}

/// `s` with the twin of edge `x` set to `e`; nothing changes when `x` is
/// `EMPTY`.
pub open spec fn relinked(s: Seq<Edge>, x: usize, e: int) -> Seq<Edge> {
    if x == EMPTY || x >= s.len() {
        s
    } else {
        s.update(x as int, Edge { src: s[x as int].src, dst: s[x as int].dst, buddy: e as usize })
    }
}

/// `s` with the triangle `a b c` appended and twinned with the edges `ab`,
/// `bc`, `ca` of `s`, which run opposite to its three sides.
pub open spec fn with_triangle(
    s: Seq<Edge>,
    a: usize,
    b: usize,
    c: usize,
    ab: usize,
    bc: usize,
    ca: usize,
) -> Seq<Edge> {
    let n = s.len() as int;
    let t = s.push(Edge { src: a, dst: b, buddy: ab }).push(Edge { src: b, dst: c, buddy: bc }).push(
        Edge { src: c, dst: a, buddy: ca },
    );
    relinked(relinked(relinked(t, ab, n), bc, n + 1), ca, n + 2)
}

/// `x` may become the twin of a new edge from `src` to `dst`: it is `EMPTY`,
/// or an edge of `s` without a twin that runs from `dst` to `src`.
pub open spec fn can_twin(s: Seq<Edge>, x: usize, src: usize, dst: usize) -> bool {
    x != EMPTY ==> {
        &&& x < s.len()
        &&& s[x as int].buddy == EMPTY
        &&& s[x as int].src == dst
        &&& s[x as int].dst == src
    }
}

/// The four corners of the two triangles that meet at the twinned edge `e`
/// are distinct points.
pub open spec fn flippable(s: Seq<Edge>, e: int) -> bool {
    &&& 0 <= e < s.len()
    &&& s[e].buddy != EMPTY
    &&& {
        let a = s[e].src;
        let b = s[e].dst;
        let c = s[prev_of(e)].src;
        let d = s[prev_of(s[e].buddy as int)].src;
        a != b && a != c && a != d && b != c && b != d && c != d
    }
}

/// `s` after the diagonal at `e` is flipped. With `e` running from `a` to
/// `b`, its triangle `a b c` and the twin's triangle `b a d` are rewritten in
/// place as `c d b` and `d c a`, the new diagonal `c d` taking the places of
/// `e` and its twin.
pub open spec fn flipped(s: Seq<Edge>, e: int) -> Seq<Edge> {
    let e_ab = e;
    let e_bc = next_of(e);
    let e_ca = prev_of(e);
    let e_ba = s[e].buddy as int;
    let e_ad = next_of(e_ba);
    let e_db = prev_of(e_ba);
    let a = s[e_ab].src;
    let b = s[e_bc].src;
    let c = s[e_ca].src;
    let d = s[e_db].src;
    let x_bc = s[e_bc].buddy;
    let x_ca = s[e_ca].buddy;
    let x_ad = s[e_ad].buddy;
    let x_db = s[e_db].buddy;
    let t = s.update(e_ab, Edge { src: c, dst: d, buddy: e_ba as usize }).update(
        e_bc,
        Edge { src: d, dst: b, buddy: x_db },
    ).update(e_ca, Edge { src: b, dst: c, buddy: x_bc }).update(
        e_ba,
        Edge { src: d, dst: c, buddy: e_ab as usize },
    ).update(e_ad, Edge { src: c, dst: a, buddy: x_ca }).update(
        e_db,
        Edge { src: a, dst: d, buddy: x_ad },
    );
    relinked(relinked(relinked(relinked(t, x_db, e_bc), x_bc, e_ca), x_ca, e_ad), x_ad, e_db)
}

/// An arena of half-edges with a fixed limit on the number of triangles.
pub struct Half {
    edges: Vec<Edge>,
    limit: usize,
}

impl View for Half {
    type V = Seq<Edge>;

    closed spec fn view(&self) -> Seq<Edge> {
        self.edges@
    }
}

impl Half {
    /// Number of triangles the store may hold.
    pub closed spec fn limit(&self) -> nat {
        self.limit as nat
    }

    /// The store is consistent and within its limit.
    pub open spec fn wf(&self) -> bool {
        &&& edges_wf(self@)
        &&& self@.len() <= 3 * self.limit()
        &&& 3 * self.limit() < usize::MAX
    }

    /// An empty store for at most `limit` triangles.
    pub fn new(limit: usize) -> (h: Half)
        requires
            3 * limit < usize::MAX,
        ensures
            h.wf(),
            h@.len() == 0,
            h.limit() == limit,
    {
        Half { edges: Vec::with_capacity(3 * limit), limit }
    }

    /// Number of edges stored, three for each triangle.
    pub fn len(&self) -> (n: usize)
        ensures
            n == self@.len(),
    {
        self.edges.len()
    }

    /// The edge with identifier `e`.
    pub fn edge(&self, e: usize) -> (r: Edge)
        requires
            e < self@.len(),
        ensures
            r == self@[e as int],
    {
        self.edges[e]
    }

    /// The edge that follows `e` in its triangle.
    pub fn next(&self, e: usize) -> (r: usize)
        requires
            self.wf(),
            e < self@.len(),
        ensures
            r == next_of(e as int),
            r < self@.len(),
            r / 3 == e / 3,
    {
        if e % 3 == 2 {
            e - 2
        } else {
            e + 1
        }
    }

    /// The edge that precedes `e` in its triangle.
    pub fn prev(&self, e: usize) -> (r: usize)
        requires
            self.wf(),
            e < self@.len(),
        ensures
            r == prev_of(e as int),
            r < self@.len(),
            r / 3 == e / 3,
    {
        if e % 3 == 0 {
            e + 2
        } else {
            e - 1
        }
    }

    /// The corners of every triangle, in counter-clockwise order.
    pub fn triangles(&self) -> (r: Vec<(usize, usize, usize)>)
        requires
            self.wf(),
        ensures
            3 * r@.len() == self@.len(),
            forall|t: int|
                0 <= t < r@.len() ==> #[trigger] r@[t] == (
                    self@[3 * t].src,
                    self@[3 * t + 1].src,
                    self@[3 * t + 2].src,
                ),
    {
        let n = self.edges.len() / 3;
        let mut out: Vec<(usize, usize, usize)> = Vec::new();
        let mut t: usize = 0;
        while t < n
            invariant
                self.wf(),
                n == self@.len() / 3,
                t <= n,
                out@.len() == t,
                forall|k: int|
                    0 <= k < t ==> #[trigger] out@[k] == (
                        self@[3 * k].src,
                        self@[3 * k + 1].src,
                        self@[3 * k + 2].src,
                    ),
            decreases n - t,
        {
            out.push((self.edges[3 * t].src, self.edges[3 * t + 1].src, self.edges[3 * t + 2].src));
            t = t + 1;
        }
        out
    }

    /// Sets the twin of edge `x` to `e`, unless `x` is `EMPTY`.
    fn relink(&mut self, x: usize, e: usize)
        requires
            x == EMPTY || x < old(self)@.len(),
        ensures
            final(self)@ == relinked(old(self)@, x, e as int),
            final(self).limit() == old(self).limit(),
    {
        if x != EMPTY {
            let old_edge = self.edges[x];
            self.edges.set(x, Edge { src: old_edge.src, dst: old_edge.dst, buddy: e });
        }
    }

    /// Appends the triangle `a b c` and returns the identifier of its edge
    /// from `a` to `b`. The edges `ab`, `bc`, `ca` run opposite to the three
    /// sides (or are `EMPTY`); each becomes the twin of its side.
    pub fn insert(&mut self, a: usize, b: usize, c: usize, ab: usize, bc: usize, ca: usize) -> (e:
        usize)
        requires
            old(self).wf(),
            old(self)@.len() + 3 <= 3 * old(self).limit(),
            a != b && b != c && c != a,
            can_twin(old(self)@, ab, a, b),
            can_twin(old(self)@, bc, b, c),
            can_twin(old(self)@, ca, c, a),
        ensures
            final(self).wf(),
            final(self).limit() == old(self).limit(),
            e == old(self)@.len(),
            final(self)@ == with_triangle(old(self)@, a, b, c, ab, bc, ca),
    {
        let e = self.edges.len();
        self.edges.push(Edge { src: a, dst: b, buddy: ab });
        self.edges.push(Edge { src: b, dst: c, buddy: bc });
        self.edges.push(Edge { src: c, dst: a, buddy: ca });
        self.relink(ab, e);
        self.relink(bc, e + 1);
        self.relink(ca, e + 2);
        proof {
            lemma_with_triangle_wf(old(self)@, a, b, c, ab, bc, ca);
        }
        e
    }

    /// Flips the diagonal at the twinned edge `e`.
    pub fn swap(&mut self, e: usize)
        requires
            old(self).wf(),
            flippable(old(self)@, e as int),
        ensures
            final(self).wf(),
            final(self).limit() == old(self).limit(),
            final(self)@ == flipped(old(self)@, e as int),
    {
        let e_ab = e;
        let e_bc = self.next(e);
        let e_ca = self.prev(e);
        let e_ba = self.edges[e].buddy;
        let e_ad = self.next(e_ba);
        let e_db = self.prev(e_ba);
        let a = self.edges[e_ab].src;
        let b = self.edges[e_bc].src;
        let c = self.edges[e_ca].src;
        let d = self.edges[e_db].src;
        let x_bc = self.edges[e_bc].buddy;
        let x_ca = self.edges[e_ca].buddy;
        let x_ad = self.edges[e_ad].buddy;
        let x_db = self.edges[e_db].buddy;
        self.edges.set(e_ab, Edge { src: c, dst: d, buddy: e_ba });
        self.edges.set(e_bc, Edge { src: d, dst: b, buddy: x_db });
        self.edges.set(e_ca, Edge { src: b, dst: c, buddy: x_bc });
        self.edges.set(e_ba, Edge { src: d, dst: c, buddy: e_ab });
        self.edges.set(e_ad, Edge { src: c, dst: a, buddy: x_ca });
        self.edges.set(e_db, Edge { src: a, dst: d, buddy: x_ad });
        self.relink(x_db, e_bc);
        self.relink(x_bc, e_ca);
        self.relink(x_ca, e_ad);
        self.relink(x_ad, e_db);
        proof {
            lemma_flipped_is_flip(old(self)@, e as int);
            lemma_flip_wf(old(self)@, flipped(old(self)@, e as int), e as int);
        }
    }
}

/// Appending a triangle keeps the topology consistent.
pub proof fn lemma_with_triangle_wf(
    s: Seq<Edge>,
    a: usize,
    b: usize,
    c: usize,
    ab: usize,
    bc: usize,
    ca: usize,
)
    requires
        edges_wf(s),
        s.len() + 3 < usize::MAX,
        a != b && b != c && c != a,
        can_twin(s, ab, a, b),
        can_twin(s, bc, b, c),
        can_twin(s, ca, c, a),
    ensures
        edges_wf(with_triangle(s, a, b, c, ab, bc, ca)),
{
    let r = with_triangle(s, a, b, c, ab, bc, ca);
    let n = s.len() as int;
    assert(r.len() == n + 3);
    assert forall|e: int| 0 <= e < r.len() implies r[e].dst == r[#[trigger] next_of(e)].src by {
        if e < n {
            assert(s[e].dst == s[next_of(e)].src);
        }
    }
    assert forall|e: int| 0 <= e < r.len() && (#[trigger] r[e]).buddy != EMPTY implies {
        &&& r[e].buddy < r.len()
        &&& r[r[e].buddy as int].buddy == e
        &&& r[r[e].buddy as int].src == r[e].dst
        &&& r[r[e].buddy as int].dst == r[e].src
    } by {
        if e < n {
            if e != ab && e != bc && e != ca {
                let x = s[e].buddy as int;
                assert(s[x].buddy == e);
            }
        }
    }
}

/// `x` is `EMPTY` or an edge outside the two triangles that meet at `e`.
pub open spec fn apart(s: Seq<Edge>, e: int, x: usize) -> bool {
    x == EMPTY || (x < s.len() && x as int / 3 != e / 3 && x as int / 3 != s[e].buddy as int / 3)
}

/// The places of the edges around a flip: where each of the six edges of the
/// two triangles sits, and that the twins of the four outer edges lie
/// elsewhere.
pub proof fn lemma_flip_places(s: Seq<Edge>, e: int)
    requires
        edges_wf(s),
        flippable(s, e),
    ensures
        ({
            let f = s[e].buddy as int;
            &&& 0 <= f < s.len()
            &&& f / 3 != e / 3
            &&& next_of(e) / 3 == e / 3
            &&& prev_of(e) / 3 == e / 3
            &&& next_of(f) / 3 == f / 3
            &&& prev_of(f) / 3 == f / 3
            &&& s[f].src == s[e].dst
            &&& s[f].dst == s[e].src
            &&& s[next_of(e)].src == s[e].dst
            &&& s[next_of(e)].dst == s[prev_of(e)].src
            &&& s[prev_of(e)].dst == s[e].src
            &&& s[next_of(f)].src == s[e].src
            &&& s[next_of(f)].dst == s[prev_of(f)].src
            &&& s[prev_of(f)].dst == s[e].dst
            &&& apart(s, e, s[next_of(e)].buddy)
            &&& apart(s, e, s[prev_of(e)].buddy)
            &&& apart(s, e, s[next_of(f)].buddy)
            &&& apart(s, e, s[prev_of(f)].buddy)
        }),
{
    let f = s[e].buddy as int;
    let e1 = next_of(e);
    let e2 = prev_of(e);
    let f1 = next_of(f);
    let f2 = prev_of(f);
    assert(s[e].dst == s[e1].src);
    assert(s[e1].dst == s[next_of(e1)].src);
    assert(s[e2].dst == s[next_of(e2)].src);
    assert(s[f].dst == s[f1].src);
    assert(s[f1].dst == s[next_of(f1)].src);
    assert(s[f2].dst == s[next_of(f2)].src);
    assert(next_of(e1) == e2 && next_of(e2) == e);
    assert(next_of(f1) == f2 && next_of(f2) == f);
    assert(s[f].buddy == e);
    assert(f != e && f != e1 && f != e2);
    lemma_apart(s, e, e1);
    lemma_apart(s, e, e2);
    lemma_apart(s, e, f1);
    lemma_apart(s, e, f2);
}

/// The twin of an outer edge `y` of the two triangles at `e` lies in neither
/// of them.
proof fn lemma_apart(s: Seq<Edge>, e: int, y: int)
    requires
        edges_wf(s),
        flippable(s, e),
        y == next_of(e) || y == prev_of(e) || y == next_of(s[e].buddy as int) || y == prev_of(
            s[e].buddy as int,
        ),
    ensures
        apart(s, e, s[y].buddy),
{
    let f = s[e].buddy as int;
    let e1 = next_of(e);
    let e2 = prev_of(e);
    let f1 = next_of(f);
    let f2 = prev_of(f);
    assert(s[e].dst == s[e1].src);
    assert(s[e1].dst == s[next_of(e1)].src);
    assert(s[e2].dst == s[next_of(e2)].src);
    assert(s[f].dst == s[f1].src);
    assert(s[f1].dst == s[next_of(f1)].src);
    assert(s[f2].dst == s[next_of(f2)].src);
    assert(s[f].buddy == e);
    let x = s[y].buddy as int;
    if x != EMPTY {
        assert(0 <= x < s.len());
        assert(s[x].buddy == y);
        assert(s[x].src == s[y].dst && s[x].dst == s[y].src);
        if x / 3 == e / 3 {
            assert(x == e || x == e1 || x == e2);
        }
        if x / 3 == f / 3 {
            assert(x == f || x == f1 || x == f2);
        }
    }
}

/// Where the edge in place `y` sits after the flip at `e`: the four outer
/// edges of the two triangles each move one place on, every other edge stays.
pub open spec fn moved(s: Seq<Edge>, e: int, y: usize) -> usize {
    let f = s[e].buddy as int;
    if y == next_of(e) {
        prev_of(e) as usize
    } else if y == prev_of(e) {
        next_of(f) as usize
    } else if y == next_of(f) {
        prev_of(f) as usize
    } else if y == prev_of(f) {
        next_of(e) as usize
    } else {
        y
    }
}

/// `r` is `s` after the flip at `e`, place by place: the new diagonal takes
/// the places of `e` and its twin, the outer edges move on with their twins
/// unchanged, and every twin pointer follows the edge it points at.
pub open spec fn is_flip(s: Seq<Edge>, r: Seq<Edge>, e: int) -> bool {
    let f = s[e].buddy as int;
    let c = s[prev_of(e)].src;
    let d = s[prev_of(f)].src;
    &&& r.len() == s.len()
    &&& r[e] == Edge { src: c, dst: d, buddy: f as usize }
    &&& r[f] == Edge { src: d, dst: c, buddy: e as usize }
    &&& r[prev_of(e)] == s[next_of(e)]
    &&& r[next_of(f)] == s[prev_of(e)]
    &&& r[prev_of(f)] == s[next_of(f)]
    &&& r[next_of(e)] == s[prev_of(f)]
    &&& forall|i: int|
        0 <= i < s.len() && i / 3 != e / 3 && i / 3 != f / 3 ==> #[trigger] r[i] == Edge {
            src: s[i].src,
            dst: s[i].dst,
            buddy: moved(s, e, s[i].buddy),
        }
}

/// `flipped` meets the place-by-place description.
pub proof fn lemma_flipped_is_flip(s: Seq<Edge>, e: int)
    requires
        edges_wf(s),
        flippable(s, e),
    ensures
        is_flip(s, flipped(s, e), e),
{
    lemma_flip_places(s, e);
    let r = flipped(s, e);
    let f = s[e].buddy as int;
    let e1 = next_of(e);
    let e2 = prev_of(e);
    let f1 = next_of(f);
    let f2 = prev_of(f);
    let x1 = s[e1].buddy;
    let x2 = s[e2].buddy;
    let y1 = s[f1].buddy;
    let y2 = s[f2].buddy;
    let t = s.update(e, Edge { src: s[e2].src, dst: s[f2].src, buddy: f as usize }).update(
        e1,
        Edge { src: s[f2].src, dst: s[e1].src, buddy: y2 },
    ).update(e2, Edge { src: s[e1].src, dst: s[e2].src, buddy: x1 }).update(
        f,
        Edge { src: s[f2].src, dst: s[e2].src, buddy: e as usize },
    ).update(f1, Edge { src: s[e2].src, dst: s[e].src, buddy: x2 }).update(
        f2,
        Edge { src: s[e].src, dst: s[f2].src, buddy: y1 },
    );
    let t1 = relinked(t, y2, e1);
    let t2 = relinked(t1, x1, e2);
    let t3 = relinked(t2, x2, f1);
    assert(r == relinked(t3, y1, f2));
    assert(t.len() == s.len() && t1.len() == s.len() && t2.len() == s.len() && t3.len()
        == s.len());
    if x1 != EMPTY {
        assert(s[x1 as int].buddy == e1);
    }
    if x2 != EMPTY {
        assert(s[x2 as int].buddy == e2);
    }
    if y1 != EMPTY {
        assert(s[y1 as int].buddy == f1);
    }
    if y2 != EMPTY {
        assert(s[y2 as int].buddy == f2);
    }
    assert forall|i: int|
        0 <= i < s.len() && i / 3 != e / 3 && i / 3 != f / 3 implies #[trigger] r[i] == (Edge {
            src: s[i].src,
            dst: s[i].dst,
            buddy: moved(s, e, s[i].buddy),
        }) by {
        assert(t[i] == s[i]);
        if s[i].buddy != EMPTY {
            let j = s[i].buddy as int;
            assert(s[j].buddy == i);
        }
        let w = Edge { src: s[i].src, dst: s[i].dst, buddy: moved(s, e, s[i].buddy) };
        if i == y2 {
            assert(t1[i] == w);
            assert(i != x1 && i != x2 && i != y1);
        } else if i == x1 {
            assert(t1[i] == s[i]);
            assert(t2[i] == w);
            assert(i != x2 && i != y1);
        } else if i == x2 {
            assert(t2[i] == s[i]);
            assert(t3[i] == w);
            assert(i != y1);
        } else if i == y1 {
            assert(t3[i] == s[i]);
        } else {
            assert(t3[i] == s[i]);
            assert(moved(s, e, s[i].buddy) == s[i].buddy);
        }
    }
}

/// A sequence that meets the place-by-place description of a flip has a
/// consistent topology.
pub proof fn lemma_flip_wf(s: Seq<Edge>, r: Seq<Edge>, e: int)
    requires
        edges_wf(s),
        flippable(s, e),
        is_flip(s, r, e),
    ensures
        edges_wf(r),
{
    lemma_flip_places(s, e);
    let f = s[e].buddy as int;
    let e1 = next_of(e);
    let e2 = prev_of(e);
    let f1 = next_of(f);
    let f2 = prev_of(f);
    assert(next_of(e1) == e2 && next_of(e2) == e);
    assert(next_of(f1) == f2 && next_of(f2) == f);
    assert forall|i: int| 0 <= i < r.len() implies r[i].dst == r[#[trigger] next_of(i)].src by {
        assert(s[i].dst == s[next_of(i)].src);
        assert(next_of(i) / 3 == i / 3);
    }
    assert forall|i: int| 0 <= i < r.len() && (#[trigger] r[i]).buddy != EMPTY implies {
        &&& r[i].buddy < r.len()
        &&& r[r[i].buddy as int].buddy == i
        &&& r[r[i].buddy as int].src == r[i].dst
        &&& r[r[i].buddy as int].dst == r[i].src
    } by {
        if i / 3 != e / 3 && i / 3 != f / 3 {
            let y = s[i].buddy as int;
            assert(r[i].buddy == moved(s, e, s[i].buddy));
            assert(s[i].buddy != EMPTY);
            assert(s[y].buddy == i);
            assert(s[y].src == s[i].dst && s[y].dst == s[i].src);
            if y / 3 != e / 3 && y / 3 != f / 3 {
                assert(moved(s, e, s[i].buddy) == y);
                assert(r[y].buddy == moved(s, e, s[y].buddy));
                assert(moved(s, e, s[y].buddy) == i);
            } else {
                assert(y == e || y == e1 || y == e2 || y == f || y == f1 || y == f2);
                assert(y != e && y != f);
                let z = moved(s, e, s[i].buddy) as int;
                assert(r[z] == s[y]);
            }
        } else {
            assert(i == e || i == e1 || i == e2 || i == f || i == f1 || i == f2);
            let y: int = if i == e2 {
                e1
            } else if i == f1 {
                e2
            } else if i == f2 {
                f1
            } else {
                f2
            };
            if i != e && i != f {
                assert(r[i] == s[y]);
                let x = s[y].buddy as int;
                assert(apart(s, e, s[y].buddy));
                assert(s[x].buddy == y);
                assert(r[x].buddy == moved(s, e, s[x].buddy));
            }
        }
    }
}

/// `r` is `s` with the triangle `a b c` appended, place by place: the new
/// triangle takes the three places at the end, and the edges that became
/// twins point at its sides.
pub open spec fn is_grown(
    s: Seq<Edge>,
    r: Seq<Edge>,
    a: usize,
    b: usize,
    c: usize,
    ab: usize,
    bc: usize,
    ca: usize,
) -> bool {
    let n = s.len() as int;
    &&& r.len() == n + 3
    &&& r[n] == Edge { src: a, dst: b, buddy: ab }
    &&& r[n + 1] == Edge { src: b, dst: c, buddy: bc }
    &&& r[n + 2] == Edge { src: c, dst: a, buddy: ca }
    &&& forall|i: int|
        0 <= i < n ==> #[trigger] r[i] == Edge {
            src: s[i].src,
            dst: s[i].dst,
            buddy: if i == ab {
                n as usize
            } else if i == bc {
                (n + 1) as usize
            } else if i == ca {
                (n + 2) as usize
            } else {
                s[i].buddy
            },
        }
}

/// `with_triangle` meets the place-by-place description.
pub proof fn lemma_with_triangle_at(
    s: Seq<Edge>,
    a: usize,
    b: usize,
    c: usize,
    ab: usize,
    bc: usize,
    ca: usize,
)
    requires
        edges_wf(s),
        s.len() + 3 < usize::MAX,
        a != b && b != c && c != a,
        can_twin(s, ab, a, b),
        can_twin(s, bc, b, c),
        can_twin(s, ca, c, a),
    ensures
        is_grown(s, with_triangle(s, a, b, c, ab, bc, ca), a, b, c, ab, bc, ca),
{
}

} // verus!
