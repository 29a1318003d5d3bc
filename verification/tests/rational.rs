//! The exact rational scalar: reduction, comparisons and overflow
//! reporting.

use benchfun::rational::Rational;

#[test]
fn addition_reduces_to_lowest_terms() {
    let a = Rational::new(1, 2);
    let b = Rational::new(1, 3);
    assert_eq!(a.add(b), Some(Rational::new(5, 6)));
    assert_eq!(a.add(a), Some(Rational::from_int(1)));
}

#[test]
fn subtraction_is_exact() {
    let a = Rational::new(5, 6);
    let b = Rational::new(1, 3);
    assert_eq!(a.sub(b), Some(Rational::new(1, 2)));
}

#[test]
fn multiplication_cancels() {
    let a = Rational::new(2, 3);
    let b = Rational::new(3, 4);
    assert_eq!(a.mul(b), Some(Rational::new(1, 2)));
}

#[test]
fn equality_ignores_representation() {
    let a = Rational::new(2, 4);
    let b = Rational::new(1, 2);
    assert!(a.eq_rat(b));
    assert!(b.eq_rat(a));
    assert!(!a.eq_rat(Rational::new(1, 3)));
}

#[test]
fn ordering_is_exact() {
    assert!(Rational::new(1, 3).lt(Rational::new(1, 2)));
    assert!(Rational::new(-1, 2).lt(Rational::from_int(0)));
    assert!(Rational::new(1, 2).le(Rational::new(2, 4)));
    assert!(!Rational::new(1, 2).lt(Rational::new(2, 4)));
}

#[test]
fn overflow_is_reported() {
    let big = Rational::from_int(i64::MAX);
    assert_eq!(big.mul(big), None);
    assert_eq!(big.add(Rational::new(1, 2)), None);
}

#[test]
fn near_overflow_reduction_still_succeeds() {
    // (max / 2) * 2 reduces back into range even though the raw numerator
    // and denominator products do not fit a machine word.
    let a = Rational::new(i64::MAX, 2);
    let two = Rational::from_int(2);
    assert_eq!(a.mul(two), Some(Rational::from_int(i64::MAX)));
}

#[test]
fn count_multiplication_is_exact() {
    let half = Rational::new(1, 2);
    assert_eq!(half.mul_usize(7), Some(Rational::new(7, 2)));
    assert_eq!(half.mul_usize(4), Some(Rational::from_int(2)));
}

#[test]
fn half_integer_cosine() {
    // cos(2 * pi * k / 2) is 1 for even k and -1 for odd k; elsewhere the
    // cosine is irrational and the call reports it.
    assert_eq!(
        Rational::from_int(3).cos_two_pi_half(),
        Some(Rational::from_int(1))
    );
    assert_eq!(
        Rational::new(-7, 2).cos_two_pi_half(),
        Some(Rational::from_int(-1))
    );
    assert_eq!(
        Rational::new(6, 4).cos_two_pi_half(),
        Some(Rational::from_int(-1))
    );
    assert_eq!(Rational::new(1, 3).cos_two_pi_half(), None);
}
