use render::ratio::Ratio;

#[test]
fn fractions_compare_as_numbers() {
    let half = Ratio::new(1, 2);
    let two_quarters = Ratio::new(2, 4);
    let third = Ratio::new(1, 3);
    assert!(half.equals(&two_quarters));
    assert!(!half.equals(&third));
    assert!(third.lt(&half));
    assert!(!half.lt(&third));
    assert!(!half.lt(&two_quarters));
    assert!(half.le(&two_quarters));
    assert!(two_quarters.le(&half));
    assert!(Ratio::new(-1, 2).lt(&Ratio::new(-1, 3)));
    assert!(Ratio::from_int(-3).lt(&Ratio::new(-5, 2)));
    assert!(Ratio::from_int(0).equals(&Ratio::new(0, 9)));
}

#[test]
fn fractions_compare_without_overflow() {
    let big = Ratio::new(i64::MAX, 1);
    let small = Ratio::new(i64::MIN, 1);
    let tiny = Ratio::new(1, i64::MAX);
    assert!(small.lt(&big));
    assert!(tiny.lt(&big));
    assert!(small.lt(&tiny));
    assert!(Ratio::new(i64::MAX, i64::MAX).equals(&Ratio::from_int(1)));
    assert!(Ratio::new(i64::MIN, i64::MAX).lt(&Ratio::from_int(-1)));
}

#[test]
fn min_and_max_keep_the_first_of_equal_fractions() {
    let half = Ratio::new(1, 2);
    let two_quarters = Ratio::new(2, 4);
    let m = half.min(two_quarters);
    assert_eq!((m.num, m.den), (1, 2));
    let m = two_quarters.min(half);
    assert_eq!((m.num, m.den), (2, 4));
    let m = half.max(two_quarters);
    assert_eq!((m.num, m.den), (1, 2));
    let m = Ratio::new(1, 3).max(half);
    assert_eq!((m.num, m.den), (1, 2));
    let m = Ratio::new(1, 3).min(half);
    assert_eq!((m.num, m.den), (1, 3));
}
