use bullet::rational::{gcd_u128, pow_i64, Rational};

#[test]
fn new_reduces_to_lowest_terms() {
    let r = Rational::new(6, -4).unwrap();
    assert_eq!(r.frac(), (-3, 2));
    assert_eq!(Rational::new(0, 7).unwrap().frac(), (0, 1));
    assert_eq!(Rational::new(1, 0), None);
}

#[test]
fn new_fails_when_the_fraction_does_not_fit() {
    // the denominator would be 2^63
    assert_eq!(Rational::new(1, i64::MIN), None);
    assert_eq!(Rational::new(i64::MIN, 1).unwrap().frac(), (i64::MIN, 1));
    assert_eq!(Rational::new(i64::MIN, -1), None);
    assert_eq!(Rational::new(i64::MIN, 2).unwrap().frac(), (i64::MIN / 2, 1));
}

#[test]
fn sum_of_fractions() {
    let half = Rational::new(1, 2).unwrap();
    let third = Rational::new(1, 3).unwrap();
    assert_eq!(half.add(third).unwrap().frac(), (5, 6));
    let minus_half = Rational::new(-1, 2).unwrap();
    assert!(half.add(minus_half).unwrap().is_zero());
    assert_eq!(half.add(minus_half).unwrap(), Rational::from_int(0));
}

#[test]
fn product_of_fractions() {
    let a = Rational::new(2, 3).unwrap();
    let b = Rational::new(9, 4).unwrap();
    assert_eq!(a.mul(b).unwrap().frac(), (3, 2));
}

#[test]
fn sums_and_products_that_do_not_fit_fail() {
    let big = Rational::from_int(i64::MAX);
    assert_eq!(big.add(Rational::from_int(1)), None);
    assert_eq!(big.mul(Rational::from_int(2)), None);
    // an intermediate value that does not fit is no failure
    let a = Rational::new(i64::MAX, 2).unwrap();
    assert_eq!(a.add(a).unwrap().frac(), (i64::MAX, 1));
}

#[test]
fn negation_and_reciprocal() {
    let a = Rational::new(-2, 3).unwrap();
    assert_eq!(a.neg().unwrap().frac(), (2, 3));
    assert_eq!(a.inv().unwrap().frac(), (-3, 2));
    assert_eq!(Rational::from_int(i64::MIN).neg(), None);
    assert_eq!(Rational::from_int(i64::MIN).inv(), None);
}

#[test]
fn integer_powers() {
    let a = Rational::new(2, 3).unwrap();
    assert_eq!(a.pow(3).unwrap().frac(), (8, 27));
    assert_eq!(a.pow(0).unwrap().frac(), (1, 1));
    assert_eq!(a.pow(-2).unwrap().frac(), (9, 4));
    assert_eq!(Rational::from_int(0).pow(5).unwrap().frac(), (0, 1));
    assert_eq!(Rational::from_int(-1).pow(i32::MAX).unwrap().frac(), (-1, 1));
    assert_eq!(Rational::from_int(-1).pow(i32::MIN).unwrap().frac(), (1, 1));
    assert_eq!(Rational::from_int(2).pow(63), None);
    assert_eq!(Rational::from_int(-2).pow(63).unwrap().frac(), (i64::MIN, 1));
    assert_eq!(Rational::new(-1, 2).unwrap().pow(-63).unwrap().frac(), (i64::MIN, 1));
}

#[test]
fn a_rational_times_its_inverse_power_is_one() {
    let a = Rational::new(-7, 12).unwrap();
    let inverse = a.pow(-1).unwrap();
    assert_eq!(a.mul(inverse).unwrap(), Rational::from_int(1));
}

#[test]
fn as_int_only_for_integers() {
    assert_eq!(Rational::from_int(-5).as_int(), Some(-5));
    assert_eq!(Rational::new(1, 2).unwrap().as_int(), None);
    assert_eq!(Rational::new(4, 2).unwrap().as_int(), Some(2));
}

#[test]
fn greatest_common_divisor() {
    assert_eq!(gcd_u128(12, 18), 6);
    assert_eq!(gcd_u128(0, 5), 5);
    assert_eq!(gcd_u128(5, 0), 5);
    assert_eq!(gcd_u128(0, 0), 0);
}

#[test]
fn powers_of_machine_integers() {
    assert_eq!(pow_i64(3, 4), Some(81));
    assert_eq!(pow_i64(-3, 3), Some(-27));
    assert_eq!(pow_i64(10, 19), None);
    assert_eq!(pow_i64(0, 0), Some(1));
    assert_eq!(pow_i64(0, u32::MAX), Some(0));
    assert_eq!(pow_i64(-1, u32::MAX), Some(-1));
}
