use bellavista::metric::{cmp_ratio, worst};

fn assert_ratio(r: (u128, u128), num: u128, den: u128) {
    assert_eq!(r.0 * den, num * r.1, "{:?} != {}/{}", r, num, den);
}

#[test]
fn test_worst() {
    // sizes 6, 6, 4, 3, 2, 2, 1 (sum 24) in a 6 x 4 rectangle
    assert_ratio(worst(&[6], 4), 8, 3);
    assert_ratio(worst(&[6, 6], 4), 3, 2);
    assert_ratio(worst(&[6, 6, 4], 4), 4, 1);
    assert_ratio(worst(&[4], 3), 9, 4);
    assert_ratio(worst(&[4, 3], 3), 49, 27);
    assert_ratio(worst(&[4, 3, 2], 3), 9, 2);
}

#[test]
fn worst_degenerate_cases() {
    assert_eq!(worst(&[], 4), (0, 1));
    assert_eq!(worst(&[0, 0], 4), (0, 1));
    assert_eq!(worst(&[5], 0), (0, 1));
    // a zero in the row leaves only the first term
    assert_ratio(worst(&[4, 0], 2), 16, 16);
    let big = worst(&[u64::MAX], u32::MAX);
    assert!(big.1 > 0);
}

#[test]
fn cmp_ratio_orders_fractions() {
    assert_eq!(cmp_ratio(1, 3, 1, 2), -1);
    assert_eq!(cmp_ratio(2, 4, 1, 2), 0);
    assert_eq!(cmp_ratio(7, 5, 4, 3), 1);
    assert_eq!(cmp_ratio(u128::MAX, u128::MAX - 1, u128::MAX - 1, u128::MAX - 2), -1);
    assert_eq!(cmp_ratio(0, 5, 0, 9), 0);
}
