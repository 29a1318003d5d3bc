//! Smoke checks of the multi-objective and constrained entries at their
//! representative inputs, and the shape of what they return.

use benchfun::rational::Rational;
use benchfun::{ChankongHaimes, Constrained, FixedDimensional, MultiObjective, Viennet};

fn zeros(n: usize) -> Vec<Rational> {
    vec![Rational::from_int(0); n]
}

#[test]
fn chankong_haimes_check_zero() {
    let x = zeros(ChankongHaimes::d());
    assert!(ChankongHaimes::f(x.clone()).is_ok());
    assert!(ChankongHaimes::equality_constraints(x.clone()).is_ok());
    assert!(ChankongHaimes::inequality_constraints(x).is_ok());
}

#[test]
fn chankong_haimes_check_one() {
    let x = zeros(ChankongHaimes::d());
    assert!(ChankongHaimes::f(x.clone()).is_ok());
    assert!(ChankongHaimes::equality_constraints(x.clone()).is_ok());
    assert!(ChankongHaimes::inequality_constraints(x).is_ok());
}

#[test]
fn viennet_check_zero() {
    let x = zeros(Viennet::d());
    assert!(Viennet::f(x).is_ok());
}

#[test]
fn viennet_check_one() {
    let x = zeros(Viennet::d());
    assert!(Viennet::f(x).is_ok());
}

#[test]
fn chankong_haimes_objective_count() {
    let x = zeros(ChankongHaimes::d());
    let fx = ChankongHaimes::f(x).unwrap();
    assert_eq!(fx.len(), ChankongHaimes::nf());
    assert_eq!(ChankongHaimes::nf(), 2);
}

#[test]
fn chankong_haimes_objective_values() {
    // f1 = 2 + (0 - 2)^2 - (0 - 1)^2 = 5, f2 = 9 * 0 - (0 - 1)^2 = -1.
    let fx = ChankongHaimes::f(zeros(2)).unwrap();
    assert_eq!(fx, vec![Rational::from_int(5), Rational::from_int(-1)]);
}

#[test]
fn chankong_haimes_constraint_counts() {
    let x = zeros(ChankongHaimes::d());
    let h = ChankongHaimes::equality_constraints(x.clone()).unwrap();
    let g = ChankongHaimes::inequality_constraints(x).unwrap();
    assert_eq!(h.len(), ChankongHaimes::nh());
    assert_eq!(g.len(), ChankongHaimes::ng());
    assert_eq!(ChankongHaimes::nh(), 0);
    assert_eq!(ChankongHaimes::ng(), 2);
}

#[test]
fn viennet_objective_count() {
    let fx = Viennet::f(zeros(Viennet::d())).unwrap();
    assert_eq!(fx.len(), Viennet::nf());
    assert_eq!(Viennet::nf(), 3);
}

#[test]
fn viennet_objective_values() {
    // At the origin: 0, 16/8 + 1/27 + 15 = 460/27, and 1 - 1.1 = -1/10.
    let fx = Viennet::f(zeros(2)).unwrap();
    assert_eq!(
        fx,
        vec![Rational::from_int(0), Rational::new(460, 27), Rational::new(-1, 10)]
    );
}
