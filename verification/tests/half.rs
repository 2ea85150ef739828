use sweepcircle::half::{Edge, Half, EMPTY};

fn edge(src: usize, dst: usize, buddy: usize) -> Edge {
    Edge { src, dst, buddy }
}

#[test]
fn insert_appends_a_triangle() {
    let mut h = Half::new(4);
    let e = h.insert(0, 1, 2, EMPTY, EMPTY, EMPTY);
    assert_eq!(e, 0);
    assert_eq!(h.len(), 3);
    assert_eq!(h.edge(0), edge(0, 1, EMPTY));
    assert_eq!(h.edge(1), edge(1, 2, EMPTY));
    assert_eq!(h.edge(2), edge(2, 0, EMPTY));
}

#[test]
fn insert_links_the_twins_back() {
    let mut h = Half::new(4);
    h.insert(0, 1, 2, EMPTY, EMPTY, EMPTY);
    // the triangle 1 0 3 lies across the edge from 0 to 1
    let e = h.insert(1, 0, 3, 0, EMPTY, EMPTY);
    assert_eq!(e, 3);
    assert_eq!(h.edge(0), edge(0, 1, 3));
    assert_eq!(h.edge(3), edge(1, 0, 0));
    assert_eq!(h.edge(4), edge(0, 3, EMPTY));
    assert_eq!(h.edge(5), edge(3, 1, EMPTY));
}

#[test]
fn next_and_prev_stay_in_the_triangle() {
    let mut h = Half::new(4);
    h.insert(0, 1, 2, EMPTY, EMPTY, EMPTY);
    h.insert(1, 0, 3, 0, EMPTY, EMPTY);
    assert_eq!((h.next(0), h.next(1), h.next(2)), (1, 2, 0));
    assert_eq!((h.prev(0), h.prev(1), h.prev(2)), (2, 0, 1));
    assert_eq!((h.next(3), h.next(4), h.next(5)), (4, 5, 3));
    assert_eq!((h.prev(3), h.prev(4), h.prev(5)), (5, 3, 4));
}

#[test]
fn swap_rewrites_both_triangles_in_place() {
    // a = 0, b = 1, c = 2, d = 3, with a triangle beyond each outer edge
    let mut h = Half::new(8);
    h.insert(0, 1, 2, EMPTY, EMPTY, EMPTY); // 0: a->b  1: b->c  2: c->a
    h.insert(1, 0, 3, 0, EMPTY, EMPTY); // 3: b->a  4: a->d  5: d->b
    h.insert(2, 1, 4, 1, EMPTY, EMPTY); // 6: c->b
    h.insert(0, 2, 5, 2, EMPTY, EMPTY); // 9: a->c
    h.insert(3, 0, 6, 4, EMPTY, EMPTY); // 12: d->a
    h.insert(1, 3, 7, 5, EMPTY, EMPTY); // 15: b->d
    h.swap(0);
    // (a->b, b->c, c->a) is now (c->d, d->b, b->c)
    assert_eq!(h.edge(0), edge(2, 3, 3));
    assert_eq!(h.edge(1), edge(3, 1, 15));
    assert_eq!(h.edge(2), edge(1, 2, 6));
    // (b->a, a->d, d->b) is now (d->c, c->a, a->d)
    assert_eq!(h.edge(3), edge(3, 2, 0));
    assert_eq!(h.edge(4), edge(2, 0, 9));
    assert_eq!(h.edge(5), edge(0, 3, 12));
    // the four outer twins point back at the places the edges moved to
    assert_eq!(h.edge(6), edge(2, 1, 2));
    assert_eq!(h.edge(9), edge(0, 2, 4));
    assert_eq!(h.edge(12), edge(3, 0, 5));
    assert_eq!(h.edge(15), edge(1, 3, 1));
    assert_eq!(h.len(), 18);
}

#[test]
fn swap_keeps_open_outer_edges_open() {
    let mut h = Half::new(2);
    h.insert(0, 1, 2, EMPTY, EMPTY, EMPTY);
    h.insert(1, 0, 3, 0, EMPTY, EMPTY);
    h.swap(3);
    // seen from the twin: a = 1, b = 0, c = 3, d = 2
    assert_eq!(h.edge(3), edge(3, 2, 0));
    assert_eq!(h.edge(4), edge(2, 0, EMPTY));
    assert_eq!(h.edge(5), edge(0, 3, EMPTY));
    assert_eq!(h.edge(0), edge(2, 3, 3));
    assert_eq!(h.edge(1), edge(3, 1, EMPTY));
    assert_eq!(h.edge(2), edge(1, 2, EMPTY));
}

#[test]
fn swapping_twice_turns_the_quadrilateral_half_round() {
    let mut h = Half::new(2);
    h.insert(0, 1, 2, EMPTY, EMPTY, EMPTY);
    h.insert(1, 0, 3, 0, EMPTY, EMPTY);
    h.swap(0);
    h.swap(0);
    assert_eq!(h.edge(0), edge(1, 0, 3));
    assert_eq!(h.edge(3), edge(0, 1, 0));
}
