use mandelbrot::fraction::Fraction;

#[test]
fn new_reduces_to_lowest_terms() {
    let f = Fraction::new(112, 100).unwrap();
    assert_eq!((f.numer(), f.denom()), (28, 25));
}

#[test]
fn new_keeps_a_reduced_fraction() {
    let f = Fraction::new(7, 3).unwrap();
    assert_eq!((f.numer(), f.denom()), (7, 3));
}

#[test]
fn new_makes_the_denominator_positive() {
    let f = Fraction::new(6, -4).unwrap();
    assert_eq!((f.numer(), f.denom()), (-3, 2));
    let g = Fraction::new(-6, -4).unwrap();
    assert_eq!((g.numer(), g.denom()), (3, 2));
}

#[test]
fn new_of_zero_is_zero_over_one() {
    let f = Fraction::new(0, -17).unwrap();
    assert_eq!((f.numer(), f.denom()), (0, 1));
}

#[test]
fn new_of_equal_parts_is_one() {
    let f = Fraction::new(-9, -9).unwrap();
    assert_eq!((f.numer(), f.denom()), (1, 1));
}

#[test]
fn new_rejects_a_zero_denominator() {
    assert!(Fraction::new(1, 0).is_none());
    assert!(Fraction::new(0, 0).is_none());
}

#[test]
fn new_rejects_the_least_integer() {
    assert!(Fraction::new(i64::MIN, 2).is_none());
    assert!(Fraction::new(2, i64::MIN).is_none());
}

#[test]
fn new_accepts_the_extremes_that_can_be_negated() {
    let f = Fraction::new(i64::MAX, -i64::MAX).unwrap();
    assert_eq!((f.numer(), f.denom()), (-1, 1));
    let g = Fraction::new(-i64::MAX, 1).unwrap();
    assert_eq!((g.numer(), g.denom()), (-i64::MAX, 1));
}

#[test]
fn reduced_agrees_with_new() {
    let f = Fraction::reduced(-84, 36);
    assert_eq!((f.numer(), f.denom()), (-7, 3));
}
