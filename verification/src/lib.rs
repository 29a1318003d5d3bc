//! Catalog of canonical benchmark functions for optimization algorithms.
//!
//! Every catalog entry composes a set of orthogonal capabilities: how many
//! objectives it has, whether its canonical domain is bounded, whether its
//! input length is fixed, and whether it carries constraint functions.  All
//! values are exact rationals, so every capability carries a precise,
//! machine-checked contract, and each single-objective entry proves that its
//! declared minimizer really attains its declared minimum at every dimension.

use vstd::prelude::*;

pub mod rational;
pub mod single;
pub mod multi;

use crate::rational::{Rational, pr_eq, pr_le, pr_lt, pr_add, lemma_norm};

pub use crate::single::{
    Sphere, Rastrigin, Rosenbrock, Ackley, Matyas, Griewank, Ridge, Zakharov, Salomon,
    RosenbrockConst1,
    RosenbrockConst2,
};
pub use crate::multi::{ChankongHaimes, FonsecaFlemming, Viennet};

verus! {

/// Why an evaluation call could not produce a value.
#[derive(Clone, Copy, Debug, PartialEq, Eq, Structural)]
pub enum EvalError {
    /// The input length disagrees with the entry's fixed dimension.  This is
    /// a contract violation by the caller and is never recovered from.
    DimensionMismatch { expected: usize, got: usize },
    /// The exact value of the formula at this input is not representable as
    /// a fixed-width rational (it is irrational, or out of range).
    NotExact,
}

/// Every coordinate of the input is a well-formed rational.
pub open spec fn seq_inv(x: Seq<Rational>) -> bool {
    forall|i: int| 0 <= i < x.len() ==> x[i].inv()
}

/// Whether a dimension policy accepts an input length: `None` (arbitrary
/// dimensionality) accepts every length, `Some(d)` exactly `d`.
pub open spec fn dim_accepts(dim: Option<usize>, len: nat) -> bool {
    match dim {
        None => true,
        Some(d) => len == d,
    }
}

/// The all-`q` vector of length `n`.
pub open spec fn const_seq(n: nat, q: Rational) -> Seq<Rational> {
    Seq::new(n, |i: int| q)
}

/// Builds the all-`q` vector of length `n`.
pub fn const_vec(q: Rational, n: usize) -> (r: Vec<Rational>)
    ensures
        r@ == const_seq(n as nat, q),
{
    let mut v: Vec<Rational> = Vec::new();
    let mut i: usize = 0;
    while i < n
        invariant
            i <= n,
            v@.len() == i,
            forall|j: int| 0 <= j < i ==> v@[j] == q,
        decreases n - i,
    {
        v.push(q);
        i = i + 1;
    }
    proof {
        assert(v@ =~= const_seq(n as nat, q));
    }
    v
}

/// Stepping a prefix: taking one more element appends exactly `x[i]`.
pub proof fn lemma_take_step(x: Seq<Rational>, i: int)
    requires
        0 <= i < x.len(),
    ensures
        x.take(i + 1).drop_last() =~= x.take(i),
        x.take(i + 1).last() == x[i],
        x.take(i + 1).len() == i + 1,
{
}

/// Every coordinate of `x` lies in the closed interval `[lo, hi]`.
pub open spec fn within(lo: (int, int), hi: (int, int), x: Seq<Rational>) -> bool {
    forall|i: int|
        0 <= i < x.len() ==> pr_le(lo, x[i].pair()) && pr_le(x[i].pair(), hi)
}

/// Every coordinate of `x` is exactly zero.
pub open spec fn all_zero(x: Seq<Rational>) -> bool {
    forall|i: int| 0 <= i < x.len() ==> pr_eq(#[trigger] x[i].pair(), (0int, 1int))
}

/// Decides whether every coordinate of `x` is exactly zero.
pub fn check_all_zero(x: &Vec<Rational>) -> (b: bool)
    requires
        seq_inv(x@),
    ensures
        b == all_zero(x@),
{
    let zero = Rational::from_int(0);
    let mut i: usize = 0;
    while i < x.len()
        invariant
            0 <= i <= x@.len(),
            seq_inv(x@),
            zero.num == 0 && zero.den == 1,
            forall|j: int| 0 <= j < i ==> pr_eq(#[trigger] x@[j].pair(), (0int, 1int)),
        decreases x@.len() - i,
    {
        let v = x[i];
        if !v.eq_rat(zero) {
            return false;
        }
        i = i + 1;
    }
    true
}

/// Law: an all-zero vector of any length lies within any bounds interval
/// whose lower end is at most zero and whose upper end is at least zero —
/// as is the case for every bounded entry of this catalog.
pub proof fn lemma_zero_vector_in_bounds(lo: (int, int), hi: (int, int), x: Seq<Rational>)
    requires
        lo.1 >= 1,
        hi.1 >= 1,
        lo.0 <= 0,
        0 <= hi.0,
        seq_inv(x),
        all_zero(x),
    ensures
        within(lo, hi, x),
{
    assert forall|i: int| 0 <= i < x.len() implies pr_le(lo, x[i].pair()) && pr_le(
        x[i].pair(),
        hi,
    ) by {
        let p = x[i].pair();
        assert(pr_eq(p, (0int, 1int)));
        assert(p.0 == 0);
        assert(lo.0 * p.1 <= 0) by (nonlinear_arith)
            requires
                lo.0 <= 0,
                p.1 >= 1,
        ;
        assert(0 <= hi.0 * p.1) by (nonlinear_arith)
            requires
                hi.0 >= 0,
                p.1 >= 1,
        ;
    }
}

/// Law: a vector with one coordinate strictly above the upper bound lies
/// outside the bounds, whatever its other coordinates hold.
pub proof fn lemma_above_high_not_in_bounds(
    lo: (int, int),
    hi: (int, int),
    x: Seq<Rational>,
    i: int,
)
    requires
        0 <= i < x.len(),
        pr_lt(hi, x[i].pair()),
    ensures
        !within(lo, hi, x),
{
}

/// Law: adding one to a bound moves strictly above it, so a coordinate set
/// to `hi + 1` always violates the upper bound.
pub proof fn lemma_plus_one_above(hi: (int, int))
    requires
        hi.1 >= 1,
    ensures
        pr_lt(hi, pr_add(hi, (1int, 1int))),
{
    lemma_norm(hi.0 * 1 + 1 * hi.1, hi.1 * 1);
    let p = pr_add(hi, (1int, 1int));
    assert(hi.0 * p.1 < p.0 * hi.1) by (nonlinear_arith)
        requires
            p.0 * (hi.1 * 1) == (hi.0 * 1 + 1 * hi.1) * p.1,
            p.1 >= 1,
            hi.1 >= 1,
    ;
}

/// Single-objective capability: the entry maps an input vector to one scalar
/// and declares a global minimum together with a minimizer rule.
///
/// Implementations must supply `minimizer_attains`, so the self-check
/// protocol — the declared minimizer evaluates exactly to the declared
/// minimum — is discharged once and for all at verification time, at every
/// dimension the entry accepts.
pub trait SingleObjective {
    /// The dimension policy: `None` accepts any length >= 1, `Some(d)`
    /// exactly `d`.
    spec fn dim_spec() -> Option<usize>;

    /// The declared global minimum, as an exact rational pair.
    spec fn minimum_spec() -> (int, int);

    /// The exact value of the objective on `x`, as a rational pair.
    spec fn f_val(x: Seq<Rational>) -> (int, int);

    /// Whether the objective has an exact, in-range value on `x`.
    spec fn f_ok(x: Seq<Rational>) -> bool;

    /// The declared minimizer at dimension `n`.
    spec fn minimizer_spec(n: nat) -> Seq<Rational>;

    /// The declared global minimum.
    fn minimum() -> (r: Rational)
        ensures
            r.pair() == Self::minimum_spec(),
            r.inv(),
    ;

    /// Evaluates the objective.  A wrong input length on a fixed-dimensional
    /// entry fails fast with `DimensionMismatch`; an input on which the
    /// exact value cannot be represented yields `NotExact`.
    fn f(x: Vec<Rational>) -> (r: Result<Rational, EvalError>)
        requires
            seq_inv(x@),
            Self::dim_spec() is None ==> x@.len() >= 1,
        ensures
            r is Ok <==> dim_accepts(Self::dim_spec(), x@.len()) && Self::f_ok(x@),
            r matches Ok(v) ==> v.pair() == Self::f_val(x@) && v.inv(),
            !dim_accepts(Self::dim_spec(), x@.len()) ==> (Self::dim_spec() matches Some(d)
                && r == Err::<Rational, EvalError>(
                EvalError::DimensionMismatch { expected: d, got: x@.len() as usize },
            )),
            dim_accepts(Self::dim_spec(), x@.len()) && !Self::f_ok(x@) ==> r == Err::<
                Rational,
                EvalError,
            >(EvalError::NotExact),
    ;

    /// Builds the input that attains the declared global minimum.
    fn minimizer(n: usize) -> (r: Vec<Rational>)
        requires
            n >= 1,
        ensures
            r@ == Self::minimizer_spec(n as nat),
    ;

    /// Self-check protocol, settled by proof: at every dimension, the
    /// declared minimizer is accepted, evaluates exactly, and its value
    /// equals the declared minimum.
    proof fn minimizer_attains(n: nat)
        requires
            n >= 1,
        ensures
            seq_inv(Self::minimizer_spec(n)),
            Self::minimizer_spec(n).len() >= 1,
            dim_accepts(Self::dim_spec(), Self::minimizer_spec(n).len()),
            Self::f_ok(Self::minimizer_spec(n)),
            pr_eq(Self::f_val(Self::minimizer_spec(n)), Self::minimum_spec()),
    ;

    /// Checks that the minimizer reproduces the minimum at dimension `d`.
    /// The contract guarantees the check can never fail.
    fn check_minimizer(d: usize) -> (b: bool)
        requires
            d >= 1,
        ensures
            b,
    {
        proof {
            Self::minimizer_attains(d as nat);
        }
        let m = Self::minimizer(d);
        let lowest = Self::minimum();
        match Self::f(m) {
            Ok(v) => v.eq_rat(lowest),
            Err(_) => false,
        }
    }
}

/// Multi-objective capability: the entry maps an input vector to a fixed
/// number of objective values, with no single scalar minimum.
pub trait MultiObjective {
    /// The dimension policy: `None` accepts any length >= 1, `Some(d)`
    /// exactly `d`.
    spec fn dim_spec() -> Option<usize>;

    /// The number of objectives.
    spec fn nf_spec() -> usize;

    /// The exact values of the objectives on `x`, as rational pairs.
    spec fn f_vals(x: Seq<Rational>) -> Seq<(int, int)>;

    /// Whether all objectives have exact, in-range values on `x`.
    spec fn f_ok(x: Seq<Rational>) -> bool;

    /// The number of objectives.
    fn nf() -> (r: usize)
        ensures
            r == Self::nf_spec(),
    ;

    /// Evaluates all objectives; a successful result always holds exactly
    /// `nf()` values.
    fn f(x: Vec<Rational>) -> (r: Result<Vec<Rational>, EvalError>)
        requires
            seq_inv(x@),
            Self::dim_spec() is None ==> x@.len() >= 1,
        ensures
            r is Ok <==> dim_accepts(Self::dim_spec(), x@.len()) && Self::f_ok(x@),
            r matches Ok(v) ==> v@.len() == Self::nf_spec() && Self::f_vals(x@).len()
                == Self::nf_spec() && (forall|i: int|
                0 <= i < v@.len() ==> v@[i].inv() && v@[i].pair() == Self::f_vals(x@)[i]),
            !dim_accepts(Self::dim_spec(), x@.len()) ==> (Self::dim_spec() matches Some(d)
                && r == Err::<Vec<Rational>, EvalError>(
                EvalError::DimensionMismatch { expected: d, got: x@.len() as usize },
            )),
            dim_accepts(Self::dim_spec(), x@.len()) && !Self::f_ok(x@) ==> r == Err::<
                Vec<Rational>,
                EvalError,
            >(EvalError::NotExact),
    ;
}

/// Bounded-domain capability: every coordinate of the canonical problem lies
/// in one closed interval.
pub trait Bounded {
    /// The interval `[lo, hi]`, as exact rational pairs.
    spec fn bounds_spec() -> ((int, int), (int, int));

    /// The bounds of the canonical optimization problem.
    fn bounds() -> (r: (Rational, Rational))
        ensures
            r.0.pair() == Self::bounds_spec().0,
            r.1.pair() == Self::bounds_spec().1,
            r.0.inv(),
            r.1.inv(),
    ;

    /// Membership test: true exactly when every coordinate lies within the
    /// bounds.  The empty input is vacuously in bounds.
    fn in_bounds(x: Vec<Rational>) -> (b: bool)
        requires
            seq_inv(x@),
        ensures
            b == within(Self::bounds_spec().0, Self::bounds_spec().1, x@),
    {
        let (lo, hi) = Self::bounds();
        let mut i: usize = 0;
        while i < x.len()
            invariant
                0 <= i <= x@.len(),
                seq_inv(x@),
                lo.pair() == Self::bounds_spec().0,
                hi.pair() == Self::bounds_spec().1,
                lo.inv(),
                hi.inv(),
                forall|j: int|
                    0 <= j < i ==> pr_le(Self::bounds_spec().0, x@[j].pair()) && pr_le(
                        x@[j].pair(),
                        Self::bounds_spec().1,
                    ),
            decreases x@.len() - i,
        {
            let v = x[i];
            if !lo.le(v) || !v.le(hi) {
                return false;
            }
            i = i + 1;
        }
        true
    }
}

/// Unbounded-domain capability: the canonical problem places no restriction
/// on the input, so membership testing is pointless — every input vector is
/// in the domain.  The tag deliberately carries no sentinel bounds value.
pub trait UnBounded {

}

/// Arbitrary-dimensionality capability: any input length >= 1 is accepted.
/// The two reference dimensions are the ones the verification suite
/// exercises; they have no other meaning.
pub trait NDimensional {
    /// The low reference dimension used for testing.
    fn low_d() -> (r: usize)
        ensures
            r == 2,
    {
        2
    }

    /// The high reference dimension used for testing.
    fn high_d() -> (r: usize)
        ensures
            r == 137,
    {
        137
    }
}

/// Fixed-dimensionality capability: the input length must equal `d()`
/// exactly; a mismatch is a contract violation, never a silent truncation.
pub trait FixedDimensional {
    /// The required input length.
    spec fn d_spec() -> usize;

    /// The required input length.
    fn d() -> (r: usize)
        ensures
            r == Self::d_spec(),
    ;

    /// Fails fast with `DimensionMismatch`, identifying both the supplied
    /// and the expected length, when the input length is wrong.
    fn check_input(x: &Vec<Rational>) -> (r: Result<(), EvalError>)
        ensures
            r is Ok <==> x@.len() == Self::d_spec(),
            x@.len() != Self::d_spec() ==> r == Err::<(), EvalError>(
                EvalError::DimensionMismatch { expected: Self::d_spec(), got: x@.len() as usize },
            ),
    {
        let d = Self::d();
        if x.len() == d {
            Ok(())
        } else {
            Err(EvalError::DimensionMismatch { expected: d, got: x.len() })
        }
    }
}

/// Constrained capability: the entry carries `nh()` equality and `ng()`
/// inequality constraint evaluators over the same input.  By convention an
/// inequality value <= 0 (respectively an equality value == 0) denotes a
/// feasible point; the catalog computes the values and never enforces
/// feasibility.
pub trait Constrained {
    /// The number of equality constraints.
    spec fn nh_spec() -> usize;

    /// The number of inequality constraints.
    spec fn ng_spec() -> usize;

    /// The inputs on which the constraint evaluators are defined.
    spec fn c_require(x: Seq<Rational>) -> bool;

    /// The exact equality-constraint values on `x`.
    spec fn eq_vals(x: Seq<Rational>) -> Seq<(int, int)>;

    /// Whether all equality-constraint values are exactly representable.
    spec fn eq_ok(x: Seq<Rational>) -> bool;

    /// The exact inequality-constraint values on `x`.
    spec fn ineq_vals(x: Seq<Rational>) -> Seq<(int, int)>;

    /// Whether all inequality-constraint values are exactly representable.
    spec fn ineq_ok(x: Seq<Rational>) -> bool;

    /// The number of equality constraints.
    fn nh() -> (r: usize)
        ensures
            r == Self::nh_spec(),
    ;

    /// The number of inequality constraints.
    fn ng() -> (r: usize)
        ensures
            r == Self::ng_spec(),
    ;

    /// Evaluates the equality constraints; a successful result always holds
    /// exactly `nh()` values.
    fn equality_constraints(x: Vec<Rational>) -> (r: Result<Vec<Rational>, EvalError>)
        requires
            seq_inv(x@),
            Self::c_require(x@),
        ensures
            r is Ok <==> Self::eq_ok(x@),
            !Self::eq_ok(x@) ==> r == Err::<Vec<Rational>, EvalError>(EvalError::NotExact),
            r matches Ok(v) ==> v@.len() == Self::nh_spec() && Self::eq_vals(x@).len()
                == Self::nh_spec() && (forall|i: int|
                0 <= i < v@.len() ==> v@[i].inv() && v@[i].pair() == Self::eq_vals(x@)[i]),
    ;

    /// Evaluates the inequality constraints; a successful result always
    /// holds exactly `ng()` values.
    fn inequality_constraints(x: Vec<Rational>) -> (r: Result<Vec<Rational>, EvalError>)
        requires
            seq_inv(x@),
            Self::c_require(x@),
        ensures
            r is Ok <==> Self::ineq_ok(x@),
            !Self::ineq_ok(x@) ==> r == Err::<Vec<Rational>, EvalError>(EvalError::NotExact),
            r matches Ok(v) ==> v@.len() == Self::ng_spec() && Self::ineq_vals(x@).len()
                == Self::ng_spec() && (forall|i: int|
                0 <= i < v@.len() ==> v@[i].inv() && v@[i].pair() == Self::ineq_vals(x@)[i]),
    ;
}

/// Unconstrained capability: the entry has no feasible-region structure
/// beyond its domain, so it exposes no constraint evaluators at all.
pub trait UnConstrained {

}

} // verus!
