use scherzo_core::arith::{idiv_down, idiv_up};

#[test]
fn idiv_up_rounds_toward_positive_infinity() {
    assert_eq!(idiv_up(7, 2), 4);
    assert_eq!(idiv_up(8, 2), 4);
    assert_eq!(idiv_up(0, 5), 0);
    assert_eq!(idiv_up(1, 5), 1);
    assert_eq!(idiv_up(-7, 2), -3);
    assert_eq!(idiv_up(-8, 2), -4);
    assert_eq!(idiv_up(-1, 5), 0);
}

#[test]
fn idiv_down_rounds_toward_negative_infinity() {
    assert_eq!(idiv_down(7, 2), 3);
    assert_eq!(idiv_down(8, 2), 4);
    assert_eq!(idiv_down(0, 5), 0);
    assert_eq!(idiv_down(4, 5), 0);
    assert_eq!(idiv_down(-7, 2), -4);
    assert_eq!(idiv_down(-8, 2), -4);
    assert_eq!(idiv_down(-1, 5), -1);
}

#[test]
fn rounding_division_at_the_ends_of_the_range() {
    assert_eq!(idiv_up(i64::MAX, 1), i64::MAX);
    assert_eq!(idiv_down(i64::MIN, 1), i64::MIN);
    assert_eq!(idiv_up(i64::MAX, i64::MAX), 1);
    assert_eq!(idiv_up(i64::MAX - 1, i64::MAX), 1);
    assert_eq!(idiv_down(i64::MIN, i64::MAX), -2);
    assert_eq!(idiv_up(i64::MIN, i64::MAX), -1);
    assert_eq!(idiv_down(i64::MAX, 2), 0x3fff_ffff_ffff_ffff);
    assert_eq!(idiv_up(i64::MAX, 2), 0x4000_0000_0000_0000);
}

#[test]
fn quotients_bracket_the_dividend() {
    for n in -20i64..=20 {
        for d in 1i64..=7 {
            let f = idiv_down(n, d);
            let c = idiv_up(n, d);
            assert!(f * d <= n && n < (f + 1) * d);
            assert!((c - 1) * d < n && n <= c * d);
        }
    }
}
