//! The self-check protocol at the two reference dimensions, for every
//! single-objective entry.

use benchfun::{
    Ackley, Griewank, Matyas, NDimensional, Rastrigin, Ridge, Rosenbrock, RosenbrockConst1,
    RosenbrockConst2, Salomon, SingleObjective, Sphere, Zakharov, FixedDimensional,
};

#[test]
fn sphere_low_d() {
    assert!(Sphere::check_minimizer(Sphere::low_d()));
}

#[test]
fn sphere_high_d() {
    assert!(Sphere::check_minimizer(Sphere::high_d()));
}

#[test]
fn rastrigin_low_d() {
    assert!(Rastrigin::check_minimizer(Rastrigin::low_d()));
}

#[test]
fn rastrigin_high_d() {
    assert!(Rastrigin::check_minimizer(Rastrigin::high_d()));
}

#[test]
fn rosenbrock_low_d() {
    assert!(Rosenbrock::check_minimizer(Rosenbrock::low_d()));
}

#[test]
fn rosenbrock_high_d() {
    assert!(Rosenbrock::check_minimizer(Rosenbrock::high_d()));
}

#[test]
fn ackley_low_d() {
    assert!(Ackley::check_minimizer(Ackley::low_d()));
}

#[test]
fn ackley_high_d() {
    assert!(Ackley::check_minimizer(Ackley::high_d()));
}

#[test]
fn matyas_low_d() {
    assert!(Matyas::check_minimizer(Matyas::low_d()));
}

#[test]
fn matyas_high_d() {
    assert!(Matyas::check_minimizer(Matyas::high_d()));
}

#[test]
fn griewank_low_d() {
    assert!(Griewank::check_minimizer(Griewank::low_d()));
}

#[test]
fn griewank_high_d() {
    assert!(Griewank::check_minimizer(Griewank::high_d()));
}

#[test]
fn ridge_low_d() {
    assert!(Ridge::check_minimizer(Ridge::low_d()));
}

#[test]
fn ridge_high_d() {
    assert!(Ridge::check_minimizer(Ridge::high_d()));
}

#[test]
fn zakharov_low_d() {
    assert!(Zakharov::check_minimizer(Zakharov::low_d()));
}

#[test]
fn zakharov_high_d() {
    assert!(Zakharov::check_minimizer(Zakharov::high_d()));
}

#[test]
fn salomon_low_d() {
    assert!(Salomon::check_minimizer(Salomon::low_d()));
}

#[test]
fn salomon_high_d() {
    assert!(Salomon::check_minimizer(Salomon::high_d()));
}

#[test]
fn rosenbrock_const1_low_d() {
    assert!(RosenbrockConst1::check_minimizer(RosenbrockConst1::d()));
}

#[test]
fn rosenbrock_const2_low_d() {
    assert!(RosenbrockConst2::check_minimizer(RosenbrockConst2::d()));
}
