//! Bounded entries: the zero vector is inside every catalog interval, and
//! one coordinate set past the upper bound puts a vector outside.

use benchfun::rational::Rational;
use benchfun::{
    Ackley, Bounded, ChankongHaimes, FonsecaFlemming, Griewank, Matyas, Rastrigin, Ridge,
    Rosenbrock, Salomon, Viennet, Zakharov,
};

fn zeros(n: usize) -> Vec<Rational> {
    vec![Rational::from_int(0); n]
}

fn past_high<B: Bounded>() -> Vec<Rational> {
    // The upper bound plus one; every catalog denominator stays in range.
    let (_, hi) = B::bounds();
    vec![Rational::new(hi.num + hi.den, hi.den), Rational::from_int(0)]
}

#[test]
fn zero_vector_in_bounds_everywhere() {
    assert!(Rastrigin::in_bounds(zeros(2)));
    assert!(Rosenbrock::in_bounds(zeros(5)));
    assert!(Ackley::in_bounds(zeros(2)));
    assert!(Matyas::in_bounds(zeros(3)));
    assert!(Griewank::in_bounds(zeros(2)));
    assert!(Ridge::in_bounds(zeros(2)));
    assert!(Zakharov::in_bounds(zeros(4)));
    assert!(Salomon::in_bounds(zeros(2)));
    assert!(ChankongHaimes::in_bounds(zeros(2)));
    assert!(FonsecaFlemming::in_bounds(zeros(2)));
    assert!(Viennet::in_bounds(zeros(2)));
    assert!(Rastrigin::in_bounds(zeros(137)));
}

#[test]
fn high_plus_one_out_of_bounds_everywhere() {
    assert!(!Rastrigin::in_bounds(past_high::<Rastrigin>()));
    assert!(!Rosenbrock::in_bounds(past_high::<Rosenbrock>()));
    assert!(!Ackley::in_bounds(past_high::<Ackley>()));
    assert!(!Matyas::in_bounds(past_high::<Matyas>()));
    assert!(!Griewank::in_bounds(past_high::<Griewank>()));
    assert!(!Ridge::in_bounds(past_high::<Ridge>()));
    assert!(!Zakharov::in_bounds(past_high::<Zakharov>()));
    assert!(!Salomon::in_bounds(past_high::<Salomon>()));
    assert!(!ChankongHaimes::in_bounds(past_high::<ChankongHaimes>()));
    assert!(!FonsecaFlemming::in_bounds(past_high::<FonsecaFlemming>()));
    assert!(!Viennet::in_bounds(past_high::<Viennet>()));
}

#[test]
fn empty_vector_vacuously_in_bounds() {
    assert!(Ackley::in_bounds(zeros(0)));
}

#[test]
fn bounds_values() {
    assert_eq!(Ackley::bounds(), (Rational::from_int(-5), Rational::from_int(5)));
    assert_eq!(
        Rastrigin::bounds(),
        (Rational::new(-512, 100), Rational::new(512, 100))
    );
    assert_eq!(Griewank::bounds(), (Rational::from_int(-600), Rational::from_int(600)));
    assert_eq!(Salomon::bounds(), (Rational::from_int(-100), Rational::from_int(100)));
    assert_eq!(ChankongHaimes::bounds(), (Rational::from_int(-20), Rational::from_int(20)));
}

#[test]
fn boundary_points_are_inside() {
    // The interval is closed: both ends are in bounds.
    let (lo, hi) = Rastrigin::bounds();
    assert!(Rastrigin::in_bounds(vec![lo, hi]));
}
