use sweepcircle::predicates::{acute, centroid, distance2, in_circle, orient2d};

#[test]
fn orient2d_sign_and_value() {
    assert_eq!(orient2d((0, 0), (1, 0), (0, 1)), 1);
    assert_eq!(orient2d((0, 0), (0, 1), (1, 0)), -1);
    assert_eq!(orient2d((0, 0), (2, 2), (5, 5)), 0);
    assert_eq!(orient2d((1, 1), (4, 1), (1, 5)), 12);
}

#[test]
fn orient2d_at_the_limits() {
    let m = 536870912;
    assert_eq!(orient2d((-m, -m), (m, -m), (m, m)), 4 * (m as i128) * (m as i128));
}

#[test]
fn in_circle_sign() {
    // the circle through these three has its middle at the origin
    let (a, b, c) = ((5, 0), (0, 5), (-5, 0));
    assert!(in_circle(a, b, c, (0, 0)) > 0);
    assert!(in_circle(a, b, c, (3, -3)) > 0);
    assert_eq!(in_circle(a, b, c, (0, -5)), 0);
    assert_eq!(in_circle(a, b, c, (3, -4)), 0);
    assert!(in_circle(a, b, c, (4, -4)) < 0);
}

#[test]
fn in_circle_value() {
    assert_eq!(in_circle((1, 0), (0, 1), (-1, 0), (0, 0)), 2);
}

#[test]
fn in_circle_at_the_limits() {
    let m = 536870912;
    let v = in_circle((-m, -m), (m, -m), (m, m), (-m, m));
    assert_eq!(v, 0);
    assert!(in_circle((-m, -m), (m, -m), (m, m), (-m + 1, m - 1)) > 0);
}

#[test]
fn acute_sign_and_value() {
    assert_eq!(acute((1, 0), (0, 0), (1, 1)), 1);
    assert_eq!(acute((1, 0), (0, 0), (0, 1)), 0);
    assert_eq!(acute((3, 0), (0, 0), (-2, 1)), -6);
}

#[test]
fn distance2_value() {
    assert_eq!(distance2((0, 0), (3, 4)), 25);
    assert_eq!(distance2((-1, -1), (-1, -1)), 0);
    let m = 536870912;
    assert_eq!(distance2((-m, -m), (m, m)), 8 * (m as i128) * (m as i128));
}

#[test]
fn centroid_is_scaled_by_six() {
    assert_eq!(centroid((0, 0), (3, 0), (0, 3)), (6, 6));
    assert_eq!(centroid((0, 0), (1, 0), (0, 1)), (2, 2));
    assert_eq!(centroid((-5, 7), (2, 2), (4, -1)), (2, 16));
    let m = 536870912;
    assert_eq!(centroid((m, -m), (m, -m), (m, -m)), (6 * m, -6 * m));
}
