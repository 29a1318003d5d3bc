//! Error behavior: dimension mismatches fail fast and identify both
//! lengths; inputs without an exact value report `NotExact`.

use benchfun::rational::Rational;
use benchfun::{
    Ackley, ChankongHaimes, Constrained, EvalError, FixedDimensional, MultiObjective, Rastrigin,
    RosenbrockConst1, RosenbrockConst2, Salomon, SingleObjective, Sphere, Viennet,
};

fn zeros(n: usize) -> Vec<Rational> {
    vec![Rational::from_int(0); n]
}

#[test]
fn fixed_dimensional_rejects_longer_input() {
    assert_eq!(
        RosenbrockConst1::f(zeros(3)),
        Err(EvalError::DimensionMismatch { expected: 2, got: 3 })
    );
    assert_eq!(
        RosenbrockConst2::f(zeros(3)),
        Err(EvalError::DimensionMismatch { expected: 2, got: 3 })
    );
}

#[test]
fn fixed_dimensional_accepts_exact_length() {
    assert!(RosenbrockConst1::f(zeros(2)).is_ok());
    assert!(RosenbrockConst2::f(zeros(2)).is_ok());
}

#[test]
fn multi_objective_rejects_longer_input() {
    assert_eq!(
        ChankongHaimes::f(zeros(3)),
        Err(EvalError::DimensionMismatch { expected: 2, got: 3 })
    );
    assert_eq!(
        Viennet::f(zeros(3)),
        Err(EvalError::DimensionMismatch { expected: 2, got: 3 })
    );
}

#[test]
fn check_input_reports_both_lengths() {
    assert_eq!(RosenbrockConst1::check_input(&zeros(2)), Ok(()));
    assert_eq!(
        RosenbrockConst1::check_input(&zeros(5)),
        Err(EvalError::DimensionMismatch { expected: 2, got: 5 })
    );
    assert_eq!(
        Viennet::check_input(&zeros(1)),
        Err(EvalError::DimensionMismatch { expected: 2, got: 1 })
    );
}

#[test]
fn rastrigin_rejects_non_half_integers() {
    let x = vec![Rational::new(1, 3)];
    assert_eq!(Rastrigin::f(x), Err(EvalError::NotExact));
}

#[test]
fn ackley_rejects_nonzero_input() {
    let x = vec![Rational::new(1, 2), Rational::from_int(0)];
    assert_eq!(Ackley::f(x), Err(EvalError::NotExact));
}

#[test]
fn viennet_rejects_nonzero_input() {
    let x = vec![Rational::from_int(1), Rational::from_int(0)];
    assert_eq!(Viennet::f(x), Err(EvalError::NotExact));
}

#[test]
fn salomon_rejects_non_half_integer_radius() {
    // The square sum 2 is no square of a half-integer.
    let x = vec![Rational::from_int(1), Rational::from_int(1)];
    assert_eq!(Salomon::f(x), Err(EvalError::NotExact));
}

#[test]
fn sphere_reports_overflow_as_not_exact() {
    let x = vec![Rational::from_int(i64::MAX)];
    assert_eq!(Sphere::f(x), Err(EvalError::NotExact));
}
