use sweepcircle::seed::{
    bounding_box, find_seed, key, key_less, nearest, nearest_three, offset, sweep_order, Seed,
};

#[test]
fn offset_is_scaled_by_six() {
    assert_eq!(offset((1, 2), (0, 0)), (6, 12));
    assert_eq!(offset((1, 2), (2, 2)), (4, 10));
    assert_eq!(offset((-3, 0), (5, -7)), (-23, 7));
}

#[test]
fn key_holds_distance_then_coordinates_then_place() {
    let pts = vec![(0, 0), (1, 2), (-3, 0)];
    assert_eq!(key(&pts, (2, 2), 1), (116, 1, 2, 1));
    assert_eq!(key(&pts, (0, 0), 2), (324, -3, 0, 2));
}

#[test]
fn keys_compare_component_by_component() {
    assert!(key_less((1, 9, 9, 9), (2, 0, 0, 0)));
    assert!(key_less((1, 0, 9, 9), (1, 1, 0, 0)));
    assert!(key_less((1, 1, 0, 9), (1, 1, 1, 0)));
    assert!(key_less((1, 1, 1, 0), (1, 1, 1, 1)));
    assert!(!key_less((1, 1, 1, 1), (1, 1, 1, 1)));
    assert!(!key_less((2, 0, 0, 0), (1, 9, 9, 9)));
}

#[test]
fn bounding_box_of_scattered_points() {
    let pts = vec![(3, -7), (-2, 5), (9, 0), (4, 4)];
    assert_eq!(bounding_box(&pts), ((-2, 9), (-7, 5)));
}

#[test]
fn bounding_box_of_one_point() {
    assert_eq!(bounding_box(&[(-4, 11)]), ((-4, -4), (11, 11)));
}

#[test]
fn nearest_skips_what_it_is_told_to() {
    let pts = vec![(10, 10), (1, 0), (0, 2), (-3, 0), (0, -4)];
    let c = (0, 0);
    assert_eq!(nearest(&pts, c, 5, 5), 1);
    assert_eq!(nearest(&pts, c, 1, 5), 2);
    assert_eq!(nearest(&pts, c, 1, 2), 3);
    assert_eq!(nearest_three(&pts, c), (1, 2, 3));
}

#[test]
fn nearest_breaks_ties_by_coordinates() {
    let pts = vec![(0, 1), (1, 0), (-1, 0), (0, -1), (5, 5)];
    assert_eq!(nearest_three(&pts, (0, 0)), (2, 3, 0));
}

#[test]
fn seed_of_a_triangle_is_at_the_centroid() {
    // the middle of the box lies on the long side, so the first try fails
    let pts = vec![(0, 0), (6, 0), (0, 6)];
    let s = find_seed(&pts).unwrap();
    assert_eq!(s.center, (12, 12));
    assert_eq!((s.a, s.b, s.c), (0, 1, 2));
}

#[test]
fn seed_is_made_counter_clockwise() {
    let pts = vec![(0, 0), (0, 6), (6, 0)];
    let s = find_seed(&pts).unwrap();
    assert_eq!((s.a, s.b, s.c), (0, 2, 1));
}

#[test]
fn seed_at_the_middle_of_the_box() {
    let pts = vec![(-10, -10), (10, -10), (0, 10), (1, -1), (-1, -1), (0, 1)];
    let s = find_seed(&pts).unwrap();
    assert_eq!(s.center, (0, 0));
    assert_eq!((s.a, s.b, s.c), (5, 4, 3));
}

#[test]
fn no_seed_on_a_line() {
    let pts = vec![(0, 0), (1, 1), (2, 2), (5, 5)];
    assert!(find_seed(&pts).is_none());
}

#[test]
fn sweep_order_sorts_by_distance() {
    let pts = vec![(90, 0), (1, -1), (0, 50), (-1, -1), (-20, 0), (0, 1), (0, -30)];
    let seed = Seed { center: (0, 0), a: 3, b: 1, c: 5 };
    let order = sweep_order(&pts, &seed).unwrap();
    assert_eq!(order, vec![3, 1, 5, 4, 6, 2, 0]);
}

#[test]
fn sweep_order_keeps_the_seed_as_given() {
    let pts = vec![(90, 0), (1, -1), (0, 50), (-1, -1), (-20, 0), (0, 1), (0, -30)];
    let seed = Seed { center: (0, 0), a: 5, b: 3, c: 1 };
    let order = sweep_order(&pts, &seed).unwrap();
    assert_eq!(order, vec![5, 3, 1, 4, 6, 2, 0]);
}

#[test]
fn sweep_order_finds_duplicates() {
    let pts = vec![(1, -1), (0, 50), (-1, -1), (-20, 0), (0, 1), (0, 50)];
    let seed = Seed { center: (0, 0), a: 2, b: 0, c: 4 };
    assert!(sweep_order(&pts, &seed).is_none());
}
