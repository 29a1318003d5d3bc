//! Concrete evaluations with exact expected values.

use benchfun::rational::Rational;
use benchfun::{
    Ackley, Bounded, ChankongHaimes, Constrained, Griewank, Matyas, MultiObjective, Rastrigin,
    Ridge, Rosenbrock, RosenbrockConst1, Salomon, SingleObjective, Sphere, Viennet, Zakharov,
};

fn zeros(n: usize) -> Vec<Rational> {
    vec![Rational::from_int(0); n]
}

#[test]
fn sphere_zero_at_origin_low() {
    assert_eq!(Sphere::f(zeros(2)), Ok(Rational::from_int(0)));
}

#[test]
fn sphere_zero_at_origin_high() {
    assert_eq!(Sphere::f(zeros(137)), Ok(Rational::from_int(0)));
}

#[test]
fn sphere_is_negated_sum_of_squares() {
    let x = vec![Rational::from_int(2)];
    assert_eq!(Sphere::f(x), Ok(Rational::from_int(-4)));
}

#[test]
fn rosenbrock_zero_at_ones() {
    let x = vec![Rational::from_int(1), Rational::from_int(1)];
    assert_eq!(Rosenbrock::f(x), Ok(Rational::from_int(0)));
}

#[test]
fn ridge_minimum_value() {
    let x = vec![Rational::from_int(-5), Rational::from_int(0)];
    assert_eq!(Ridge::f(x), Ok(Rational::from_int(-5)));
}

#[test]
fn ackley_in_bounds_at_corner() {
    let x = vec![Rational::from_int(5), Rational::from_int(5)];
    assert!(Ackley::in_bounds(x));
}

#[test]
fn ackley_out_of_bounds_just_past_corner() {
    let x = vec![Rational::new(51, 10), Rational::from_int(0)];
    assert!(!Ackley::in_bounds(x));
}

#[test]
fn ackley_zero_at_origin() {
    assert_eq!(Ackley::f(zeros(2)), Ok(Rational::from_int(0)));
    assert_eq!(Griewank::f(zeros(137)), Ok(Rational::from_int(0)));
}

#[test]
fn chankong_haimes_constraints_at_origin() {
    let x = zeros(2);
    let g = ChankongHaimes::inequality_constraints(x).unwrap();
    assert_eq!(g, vec![Rational::from_int(-225), Rational::from_int(10)]);
}

#[test]
fn viennet_three_values_at_origin() {
    let fx = Viennet::f(zeros(2)).unwrap();
    assert_eq!(fx.len(), 3);
}

#[test]
fn matyas_exact_value() {
    // 0.26 * (1 + 4) - 0.48 * 2 = 1.3 - 0.96 = 0.34 = 17/50.
    let x = vec![Rational::from_int(1), Rational::from_int(2)];
    assert_eq!(Matyas::f(x), Ok(Rational::new(17, 50)));
}

#[test]
fn zakharov_exact_value() {
    // s = 2, t = 0.5 * 1 * 0 + 0.5 * 1 * 1 = 1/2, so 2 + 1/4 + 1/16 = 37/16.
    let x = vec![Rational::from_int(1), Rational::from_int(1)];
    assert_eq!(Zakharov::f(x), Ok(Rational::new(37, 16)));
}

#[test]
fn rastrigin_exact_on_half_integers() {
    // At 1/2: (1/2)^2 + 10 - 10 * cos(pi) = 1/4 + 20 = 81/4.
    let x = vec![Rational::new(1, 2)];
    assert_eq!(Rastrigin::f(x), Ok(Rational::new(81, 4)));
}

#[test]
fn rastrigin_exact_on_integers() {
    // At 3: 9 + 10 - 10 * cos(6 * pi) = 9.
    let x = vec![Rational::from_int(3)];
    assert_eq!(Rastrigin::f(x), Ok(Rational::from_int(9)));
}

#[test]
fn salomon_exact_on_half_integer_radius() {
    // At (3/2, 2) the square sum is 25/4, its root is 5/2, and the value
    // is 1 - cos(5 * pi) + 0.1 * 5/2 = 1 + 1 + 1/4 = 9/4.
    let x = vec![Rational::new(3, 2), Rational::from_int(2)];
    assert_eq!(Salomon::f(x), Ok(Rational::new(9, 4)));
}

#[test]
fn salomon_exact_on_unit_radius() {
    // At (1) the root is 1 = 2/2, and the value is 1 - cos(2 pi) + 0.1.
    let x = vec![Rational::from_int(1)];
    assert_eq!(Salomon::f(x), Ok(Rational::new(1, 10)));
}

#[test]
fn rosenbrock_const1_objective_at_minimizer() {
    let x = vec![Rational::from_int(1), Rational::from_int(1)];
    assert_eq!(RosenbrockConst1::f(x), Ok(Rational::from_int(0)));
}

#[test]
fn sphere_minimizer_is_zero_vector() {
    assert_eq!(Sphere::minimizer(3), zeros(3));
}

#[test]
fn ridge_minimizer_shape() {
    let m = Ridge::minimizer(3);
    assert_eq!(
        m,
        vec![Rational::from_int(-5), Rational::from_int(0), Rational::from_int(0)]
    );
}

#[test]
fn sphere_minimum_is_zero() {
    assert_eq!(Sphere::minimum(), Rational::from_int(0));
}

#[test]
fn ridge_minimum_is_minus_five() {
    assert_eq!(Ridge::minimum(), Rational::from_int(-5));
}
