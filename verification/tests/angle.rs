use sweepcircle::angle::pseudo_angle;

#[test]
fn pseudo_angle_of_the_axes() {
    assert_eq!(pseudo_angle((1, 0), 4), 0);
    assert_eq!(pseudo_angle((0, 1), 4), 1);
    assert_eq!(pseudo_angle((-1, 0), 4), 2);
    assert_eq!(pseudo_angle((0, -1), 4), 3);
}

#[test]
fn pseudo_angle_of_the_diagonals() {
    assert_eq!(pseudo_angle((5, 5), 8), 1);
    assert_eq!(pseudo_angle((-5, 5), 8), 3);
    assert_eq!(pseudo_angle((-5, -5), 8), 5);
    assert_eq!(pseudo_angle((5, -5), 8), 7);
}

#[test]
fn pseudo_angle_does_not_depend_on_length() {
    for sectors in [1usize, 3, 7, 100] {
        assert_eq!(pseudo_angle((3, 1), sectors), pseudo_angle((3000, 1000), sectors));
        assert_eq!(pseudo_angle((-2, -7), sectors), pseudo_angle((-20, -70), sectors));
    }
}

#[test]
fn pseudo_angle_exact_sector() {
    // a quarter of the way through the first quarter turn: 1/16 of the turn
    assert_eq!(pseudo_angle((3, 1), 16), 1);
    assert_eq!(pseudo_angle((3, 1), 160), 10);
    // just short of the full turn
    assert_eq!(pseudo_angle((1000, -1), 100), 99);
    assert_eq!(pseudo_angle((1000, 0), 100), 0);
}

#[test]
fn pseudo_angle_grows_counter_clockwise() {
    let ring = [
        (10, 0),
        (10, 1),
        (7, 7),
        (1, 10),
        (0, 10),
        (-1, 10),
        (-7, 7),
        (-10, 1),
        (-10, 0),
        (-10, -1),
        (-7, -7),
        (-1, -10),
        (0, -10),
        (1, -10),
        (7, -7),
        (10, -1),
    ];
    for sectors in [1usize, 5, 16, 1000] {
        let mut last = 0;
        for d in ring {
            let a = pseudo_angle(d, sectors);
            assert!(a >= last);
            assert!(a < sectors);
            last = a;
        }
    }
}

#[test]
fn pseudo_angle_at_the_limits() {
    let m = 6442450944;
    assert_eq!(pseudo_angle((m, m), usize::MAX), usize::MAX / 8);
    // short of the full turn by one part in 4 (m + 1)
    assert_eq!(pseudo_angle((m, -1), 1 << 40), (1 << 40) - 43);
}
