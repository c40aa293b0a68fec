use densemat::synthetic::{data, omega, RAND_BOUND};

#[test]
fn data_has_requested_shape_and_bounded_entries() {
    let m = data(3, 4);
    assert_eq!(m.nrows(), 3);
    assert_eq!(m.ncols(), 4);
    let bound = (RAND_BOUND as i64) * (RAND_BOUND as i64);
    for i in 0..3 {
        for j in 0..4 {
            let v = *m.at(i, j).unwrap();
            assert!(0 <= v && v < bound);
        }
    }
}

#[test]
fn data_is_rank_one() {
    // Every 2 x 2 minor of a rank-one matrix has determinant zero.
    let m = data(4, 4);
    for i in 0..3 {
        for j in 0..3 {
            let a = *m.at(i, j).unwrap() as i128;
            let b = *m.at(i, j + 1).unwrap() as i128;
            let c = *m.at(i + 1, j).unwrap() as i128;
            let d = *m.at(i + 1, j + 1).unwrap() as i128;
            assert_eq!(a * d, b * c);
        }
    }
}

#[test]
fn omega_places_exactly_the_requested_observations() {
    let mask = omega(4, 5, 7);
    assert_eq!(mask.nrows(), 4);
    assert_eq!(mask.ncols(), 5);
    let mut observed = 0;
    for i in 0..4 {
        for j in 0..5 {
            if *mask.at(i, j).unwrap() {
                observed += 1;
            }
        }
    }
    assert_eq!(observed, 7);
}

#[test]
fn omega_extremes() {
    let none = omega(2, 3, 0);
    let all = omega(2, 3, 6);
    for i in 0..2 {
        for j in 0..3 {
            assert!(!*none.at(i, j).unwrap());
            assert!(*all.at(i, j).unwrap());
        }
    }
}
