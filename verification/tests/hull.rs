use sweepcircle::hull::{cross_of, Hull};

fn seeded() -> Hull {
    // offsets of six points; the first three hold the center inside
    let dirs = vec![(10, 0), (-5, 8), (-5, -8), (20, 1), (-30, 0), (0, -40)];
    Hull::new(dirs, 100, 101, 102)
}

#[test]
fn cross_of_value() {
    assert_eq!(cross_of((1, 0), (0, 1)), 1);
    assert_eq!(cross_of((0, 1), (1, 0)), -1);
    assert_eq!(cross_of((3, 4), (6, 8)), 0);
    let m = 6442450944;
    assert_eq!(cross_of((m, -m), (m, m)), 2 * (m as i128) * (m as i128));
}

#[test]
fn new_ring_holds_the_seed() {
    let h = seeded();
    assert_eq!(h.len(), 3);
    assert_eq!((h.next(0), h.next(1), h.next(2)), (1, 2, 0));
    assert_eq!((h.prev(0), h.prev(1), h.prev(2)), (2, 0, 1));
    assert_eq!((h.edge(0), h.edge(1), h.edge(2)), (100, 101, 102));
    assert_eq!((h.prev_edge(0), h.prev_edge(1), h.prev_edge(2)), (102, 100, 101));
    assert_eq!(h.walk(), vec![0, 1, 2]);
    assert_eq!(h.direction(4), (-30, 0));
}

#[test]
fn locate_finds_the_wedge() {
    let h = seeded();
    // (20, 1) lies between the directions of 0 and 1
    assert_eq!(h.locate(3), 0);
    // (-30, 0) lies between the directions of 1 and 2
    assert_eq!(h.locate(4), 1);
    // (0, -40) lies between the directions of 2 and 0
    assert_eq!(h.locate(5), 2);
}

#[test]
fn locate_takes_the_wedge_that_starts_at_an_equal_direction() {
    let dirs = vec![(10, 0), (-5, 8), (-5, -8), (20, 0), (-10, 16)];
    let h = Hull::new(dirs, 0, 1, 2);
    assert_eq!(h.locate(3), 0);
    assert_eq!(h.locate(4), 1);
}

#[test]
fn insert_update_erase() {
    let mut h = seeded();
    h.insert(0, 3, 7);
    assert_eq!(h.len(), 4);
    assert_eq!(h.next(0), 3);
    assert_eq!(h.next(3), 1);
    assert_eq!(h.prev(1), 3);
    assert_eq!(h.prev(3), 0);
    assert_eq!(h.edge(3), 7);
    assert_eq!(h.prev_edge(3), 100);
    h.update(0, 55);
    assert_eq!(h.edge(0), 55);
    assert_eq!(h.prev_edge(3), 55);
    assert_eq!(h.walk(), vec![3, 1, 2, 0]);
    h.erase(0);
    assert_eq!(h.len(), 3);
    assert_eq!(h.next(2), 3);
    assert_eq!(h.prev(3), 2);
    assert_eq!(h.walk(), vec![2, 3, 1]);
}

#[test]
fn locate_after_changes() {
    let mut h = seeded();
    h.insert(0, 3, 7);
    h.insert(1, 4, 8);
    // (0, -40) still lies between the directions of 2 and 0
    assert_eq!(h.locate(5), 2);
    h.insert(2, 5, 9);
    assert_eq!(h.len(), 6);
    let ring = h.walk();
    assert_eq!(ring, vec![5, 0, 3, 1, 4, 2]);
}
