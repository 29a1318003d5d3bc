//! Multi-objective catalog entries.
//!
//! A multi-objective entry returns a fixed number of objective values per
//! input and has no single scalar minimum; its contracts pin down the
//! number of objectives and the exact value of each.

use vstd::prelude::*;
use crate::rational::{Rational, fits, pr_eq, pr_add, pr_sub, pr_mul};
use crate::{
    EvalError, MultiObjective, Bounded, NDimensional, FixedDimensional, Constrained,
    UnConstrained, seq_inv, all_zero, within, lemma_zero_vector_in_bounds,
    lemma_above_high_not_in_bounds, lemma_plus_one_above,
};

verus! {

/// This is the Chankong-Haimes function, a two-objective entry restricted
/// to two dimensions: `f1 = 2 + (a - 2)^2 - (b - 1)^2` (this catalog's sign
/// variant of the textbook formula) and `f2 = 9a - (b - 1)^2`.  A point is
/// feasible when both inequality-constraint values are at most zero.
pub struct ChankongHaimes {}

/// The exact first Chankong-Haimes objective, `2 + (a - 2)^2 - (b - 1)^2`.
pub open spec fn ch_f1_val(a: Rational, b: Rational) -> (int, int) {
    let a2 = pr_mul(pr_sub(a.pair(), (2int, 1int)), pr_sub(a.pair(), (2int, 1int)));
    let b2 = pr_mul(pr_sub(b.pair(), (1int, 1int)), pr_sub(b.pair(), (1int, 1int)));
    pr_sub(pr_add((2int, 1int), a2), b2)
}

/// The exact second Chankong-Haimes objective, `9a - (b - 1)^2`.
pub open spec fn ch_f2_val(a: Rational, b: Rational) -> (int, int) {
    let b2 = pr_mul(pr_sub(b.pair(), (1int, 1int)), pr_sub(b.pair(), (1int, 1int)));
    pr_sub(pr_mul((9int, 1int), a.pair()), b2)
}

/// Every intermediate of the Chankong-Haimes objectives stays representable.
pub open spec fn ch_f_ok(a: Rational, b: Rational) -> bool {
    let da = pr_sub(a.pair(), (2int, 1int));
    let a2 = pr_mul(da, da);
    let db = pr_sub(b.pair(), (1int, 1int));
    let b2 = pr_mul(db, db);
    let s1 = pr_add((2int, 1int), a2);
    let m = pr_mul((9int, 1int), a.pair());
    &&& fits(da)
    &&& fits(a2)
    &&& fits(db)
    &&& fits(b2)
    &&& fits(s1)
    &&& fits(pr_sub(s1, b2))
    &&& fits(m)
    &&& fits(pr_sub(m, b2))
}

/// The first Chankong-Haimes constraint, `a^2 + b^2 - 225`.
pub open spec fn ch_g1_val(a: Rational, b: Rational) -> (int, int) {
    pr_sub(pr_add(pr_mul(a.pair(), a.pair()), pr_mul(b.pair(), b.pair())), (225int, 1int))
}

/// Every intermediate of the first constraint stays representable.
pub open spec fn ch_g1_ok(a: Rational, b: Rational) -> bool {
    let a2 = pr_mul(a.pair(), a.pair());
    let b2 = pr_mul(b.pair(), b.pair());
    let s = pr_add(a2, b2);
    &&& fits(a2)
    &&& fits(b2)
    &&& fits(s)
    &&& fits(pr_sub(s, (225int, 1int)))
}

/// The second Chankong-Haimes constraint, `a - 3b + 10`.
pub open spec fn ch_g2_val(a: Rational, b: Rational) -> (int, int) {
    pr_add(pr_sub(a.pair(), pr_mul((3int, 1int), b.pair())), (10int, 1int))
}

/// Every intermediate of the second constraint stays representable.
pub open spec fn ch_g2_ok(a: Rational, b: Rational) -> bool {
    let t = pr_mul((3int, 1int), b.pair());
    let u = pr_sub(a.pair(), t);
    &&& fits(t)
    &&& fits(u)
    &&& fits(pr_add(u, (10int, 1int)))
}

fn ch_objectives(a: Rational, b: Rational) -> (r: Option<(Rational, Rational)>)
    requires
        a.inv(),
        b.inv(),
    ensures
        r is Some <==> ch_f_ok(a, b),
        r matches Some(p) ==> p.0.pair() == ch_f1_val(a, b) && p.1.pair() == ch_f2_val(a, b)
            && p.0.inv() && p.1.inv(),
{
    let da = match a.sub(Rational::from_int(2)) {
        Some(v) => v,
        None => {
            return None;
        },
    };
    let a2 = match da.mul(da) {
        Some(v) => v,
        None => {
            return None;
        },
    };
    let db = match b.sub(Rational::from_int(1)) {
        Some(v) => v,
        None => {
            return None;
        },
    };
    let b2 = match db.mul(db) {
        Some(v) => v,
        None => {
            return None;
        },
    };
    let s1 = match Rational::from_int(2).add(a2) {
        Some(v) => v,
        None => {
            return None;
        },
    };
    let f1 = match s1.sub(b2) {
        Some(v) => v,
        None => {
            return None;
        },
    };
    let m = match Rational::from_int(9).mul(a) {
        Some(v) => v,
        None => {
            return None;
        },
    };
    let f2 = match m.sub(b2) {
        Some(v) => v,
        None => {
            return None;
        },
    };
    Some((f1, f2))
}

impl FixedDimensional for ChankongHaimes {
    open spec fn d_spec() -> usize {
        2
    }

    /// The required input length.
    fn d() -> (r: usize) {
        proof {
            assert(<ChankongHaimes as FixedDimensional>::d_spec() == 2);
        }
        2
    }
}

impl Bounded for ChankongHaimes {
    open spec fn bounds_spec() -> ((int, int), (int, int)) {
        ((-20int, 1int), (20int, 1int))
    }

    /// The bounds of the canonical optimization problem.
    fn bounds() -> (r: (Rational, Rational)) {
        proof {
            assert(<ChankongHaimes as Bounded>::bounds_spec() == ((-20int, 1int), (20int, 1int)));
        }
        (Rational::from_int(-20), Rational::from_int(20))
    }
}

impl Constrained for ChankongHaimes {
    open spec fn nh_spec() -> usize {
        0
    }

    open spec fn ng_spec() -> usize {
        2
    }

    open spec fn c_require(x: Seq<Rational>) -> bool {
        x.len() == 2
    }

    open spec fn eq_vals(x: Seq<Rational>) -> Seq<(int, int)> {
        Seq::empty()
    }

    open spec fn eq_ok(x: Seq<Rational>) -> bool {
        true
    }

    open spec fn ineq_vals(x: Seq<Rational>) -> Seq<(int, int)> {
        seq![ch_g1_val(x[0], x[1]), ch_g2_val(x[0], x[1])]
    }

    open spec fn ineq_ok(x: Seq<Rational>) -> bool {
        ch_g1_ok(x[0], x[1]) && ch_g2_ok(x[0], x[1])
    }

    /// The number of equality constraints.
    fn nh() -> (r: usize) {
        proof {
            assert(<ChankongHaimes as Constrained>::nh_spec() == 0);
        }
        0
    }

    /// The number of inequality constraints.
    fn ng() -> (r: usize) {
        proof {
            assert(<ChankongHaimes as Constrained>::ng_spec() == 2);
        }
        2
    }

    /// There are no equality constraints; the result is always empty.
    fn equality_constraints(x: Vec<Rational>) -> (r: Result<Vec<Rational>, EvalError>) {
        proof {
            assert(<ChankongHaimes as Constrained>::eq_ok(x@));
            assert(<ChankongHaimes as Constrained>::eq_vals(x@) =~= Seq::<(int, int)>::empty());
            assert(<ChankongHaimes as Constrained>::nh_spec() == 0);
        }
        Ok(Vec::new())
    }

    /// Evaluates the circle and the line constraints.
    fn inequality_constraints(x: Vec<Rational>) -> (r: Result<Vec<Rational>, EvalError>) {
        proof {
            assert(<ChankongHaimes as Constrained>::ineq_ok(x@) == (ch_g1_ok(x@[0], x@[1])
                && ch_g2_ok(x@[0], x@[1])));
            assert(<ChankongHaimes as Constrained>::ineq_vals(x@) == seq![
                ch_g1_val(x@[0], x@[1]),
                ch_g2_val(x@[0], x@[1]),
            ]);
            assert(<ChankongHaimes as Constrained>::ng_spec() == 2);
        }
        let a = x[0];
        let b = x[1];
        let a2 = match a.mul(a) {
            Some(v) => v,
            None => {
                return Err(EvalError::NotExact);
            },
        };
        let b2 = match b.mul(b) {
            Some(v) => v,
            None => {
                return Err(EvalError::NotExact);
            },
        };
        let s = match a2.add(b2) {
            Some(v) => v,
            None => {
                return Err(EvalError::NotExact);
            },
        };
        let g1 = match s.sub(Rational::from_int(225)) {
            Some(v) => v,
            None => {
                return Err(EvalError::NotExact);
            },
        };
        let t = match Rational::from_int(3).mul(b) {
            Some(v) => v,
            None => {
                return Err(EvalError::NotExact);
            },
        };
        let u = match a.sub(t) {
            Some(v) => v,
            None => {
                return Err(EvalError::NotExact);
            },
        };
        let g2 = match u.add(Rational::from_int(10)) {
            Some(v) => v,
            None => {
                return Err(EvalError::NotExact);
            },
        };
        let mut fx: Vec<Rational> = Vec::new();
        fx.push(g1);
        fx.push(g2);
        Ok(fx)
    }
}

impl MultiObjective for ChankongHaimes {
    open spec fn dim_spec() -> Option<usize> {
        Some(2usize)
    }

    open spec fn nf_spec() -> usize {
        2
    }

    open spec fn f_vals(x: Seq<Rational>) -> Seq<(int, int)> {
        seq![ch_f1_val(x[0], x[1]), ch_f2_val(x[0], x[1])]
    }

    open spec fn f_ok(x: Seq<Rational>) -> bool {
        ch_f_ok(x[0], x[1])
    }

    /// The number of objectives.
    fn nf() -> (r: usize) {
        proof {
            assert(<ChankongHaimes as MultiObjective>::nf_spec() == 2);
        }
        2
    }

    /// Function for evaluating the set of objective functions; the input
    /// length must be exactly two.
    fn f(x: Vec<Rational>) -> (r: Result<Vec<Rational>, EvalError>) {
        proof {
            assert(<ChankongHaimes as MultiObjective>::dim_spec() == Some(2usize));
        }
        if let Err(e) = ChankongHaimes::check_input(&x) {
            return Err(e);
        }
        proof {
            assert(<ChankongHaimes as MultiObjective>::f_ok(x@) == ch_f_ok(x@[0], x@[1]));
            assert(<ChankongHaimes as MultiObjective>::f_vals(x@) == seq![
                ch_f1_val(x@[0], x@[1]),
                ch_f2_val(x@[0], x@[1]),
            ]);
            assert(<ChankongHaimes as MultiObjective>::nf_spec() == 2);
        }
        match ch_objectives(x[0], x[1]) {
            Some(p) => {
                let mut fx: Vec<Rational> = Vec::new();
                fx.push(p.0);
                fx.push(p.1);
                Ok(fx)
            },
            None => Err(EvalError::NotExact),
        }
    }
}

/// This is the Fonseca-Fleming function, a two-objective entry over an
/// arbitrary number of inputs: `f_k = 1 - exp(-sum((x[i] -+ 1/sqrt(n))^2))`.
///
/// No input gives both objectives an exact rational value at once — each
/// objective is `1 - exp(-t)` with `t` zero only at a point where the other
/// objective's exponent is positive — so the catalog exposes the entry's
/// domain and dimensionality capabilities and leaves evaluation to
/// floating-point front ends.
pub struct FonsecaFlemming {}

impl NDimensional for FonsecaFlemming {

}

impl UnConstrained for FonsecaFlemming {

}

impl Bounded for FonsecaFlemming {
    open spec fn bounds_spec() -> ((int, int), (int, int)) {
        ((-4int, 1int), (4int, 1int))
    }

    /// The bounds of the canonical optimization problem.
    fn bounds() -> (r: (Rational, Rational)) {
        proof {
            assert(<FonsecaFlemming as Bounded>::bounds_spec() == ((-4int, 1int), (4int, 1int)));
        }
        (Rational::from_int(-4), Rational::from_int(4))
    }
}

/// This is the Viennet function, a three-objective entry restricted to two
/// dimensions, built over `s = a^2 + b^2`:
/// `f1 = 0.5 * s + sin(s)`,
/// `f2 = (3a - 2b + 4)^2 / 8 + (a - b + 1)^2 / 27 + 15`,
/// `f3 = 1 / (s + 1) - 1.1 * exp(-s)`.
///
/// At the origin the sine and the exponential are exactly `sin(0) == 0`
/// and `exp(0) == 1`, and the objectives are exactly `0`,
/// `2 + 1/27 + 15 == 460/27` and `1 - 1.1 == -1/10`; that is the one input
/// the exact evaluator covers, and anywhere else it reports `NotExact`.
pub struct Viennet {}

/// Both coordinates are exactly zero.
pub open spec fn viennet_ok(x: Seq<Rational>) -> bool {
    pr_eq(x[0].pair(), (0int, 1int)) && pr_eq(x[1].pair(), (0int, 1int))
}

/// The exact Viennet objective values at the origin.
pub open spec fn viennet_vals() -> Seq<(int, int)> {
    seq![(0int, 1int), (460int, 27int), (-1int, 10int)]
}

impl UnConstrained for Viennet {

}

impl FixedDimensional for Viennet {
    open spec fn d_spec() -> usize {
        2
    }

    /// The required input length.
    fn d() -> (r: usize) {
        proof {
            assert(<Viennet as FixedDimensional>::d_spec() == 2);
        }
        2
    }
}

impl Bounded for Viennet {
    open spec fn bounds_spec() -> ((int, int), (int, int)) {
        ((-3int, 1int), (3int, 1int))
    }

    /// The bounds of the canonical optimization problem.
    fn bounds() -> (r: (Rational, Rational)) {
        proof {
            assert(<Viennet as Bounded>::bounds_spec() == ((-3int, 1int), (3int, 1int)));
        }
        (Rational::from_int(-3), Rational::from_int(3))
    }
}

impl MultiObjective for Viennet {
    open spec fn dim_spec() -> Option<usize> {
        Some(2usize)
    }

    open spec fn nf_spec() -> usize {
        3
    }

    open spec fn f_vals(x: Seq<Rational>) -> Seq<(int, int)> {
        viennet_vals()
    }

    open spec fn f_ok(x: Seq<Rational>) -> bool {
        viennet_ok(x)
    }

    /// The number of objectives.
    fn nf() -> (r: usize) {
        proof {
            assert(<Viennet as MultiObjective>::nf_spec() == 3);
        }
        3
    }

    /// Function for evaluating the set of objective functions; the input
    /// length must be exactly two.
    fn f(x: Vec<Rational>) -> (r: Result<Vec<Rational>, EvalError>) {
        proof {
            assert(<Viennet as MultiObjective>::dim_spec() == Some(2usize));
        }
        if let Err(e) = Viennet::check_input(&x) {
            return Err(e);
        }
        proof {
            assert(<Viennet as MultiObjective>::f_ok(x@) == viennet_ok(x@));
            assert(<Viennet as MultiObjective>::f_vals(x@) == viennet_vals());
            assert(<Viennet as MultiObjective>::nf_spec() == 3);
        }
        let zero = Rational::from_int(0);
        if !x[0].eq_rat(zero) || !x[1].eq_rat(zero) {
            return Err(EvalError::NotExact);
        }
        let mut fx: Vec<Rational> = Vec::new();
        fx.push(Rational::from_int(0));
        fx.push(Rational::new(460, 27));
        fx.push(Rational::new(-1, 10));
        Ok(fx)
    }
}

/// Law: the all-zero vector of any length lies within the bounds of every
/// bounded entry of this module.
pub proof fn lemma_zeros_in_bounds_multi(x: Seq<Rational>)
    requires
        seq_inv(x),
        all_zero(x),
    ensures
        within(
            <ChankongHaimes as Bounded>::bounds_spec().0,
            <ChankongHaimes as Bounded>::bounds_spec().1,
            x,
        ),
        within(
            <FonsecaFlemming as Bounded>::bounds_spec().0,
            <FonsecaFlemming as Bounded>::bounds_spec().1,
            x,
        ),
        within(<Viennet as Bounded>::bounds_spec().0, <Viennet as Bounded>::bounds_spec().1, x),
{
    assert(<ChankongHaimes as Bounded>::bounds_spec() == ((-20int, 1int), (20int, 1int)));
    assert(<FonsecaFlemming as Bounded>::bounds_spec() == ((-4int, 1int), (4int, 1int)));
    assert(<Viennet as Bounded>::bounds_spec() == ((-3int, 1int), (3int, 1int)));
    lemma_zero_vector_in_bounds((-20int, 1int), (20int, 1int), x);
    lemma_zero_vector_in_bounds((-4int, 1int), (4int, 1int), x);
    lemma_zero_vector_in_bounds((-3int, 1int), (3int, 1int), x);
}

/// Law: for every bounded entry of this module, a vector with one
/// coordinate set to one past the upper bound lies outside the bounds.
pub proof fn lemma_past_high_not_in_bounds_multi(x: Seq<Rational>, i: int)
    requires
        0 <= i < x.len(),
    ensures
        x[i].pair() == pr_add((20int, 1int), (1int, 1int)) ==> !within(
            <ChankongHaimes as Bounded>::bounds_spec().0,
            <ChankongHaimes as Bounded>::bounds_spec().1,
            x,
        ),
        x[i].pair() == pr_add((4int, 1int), (1int, 1int)) ==> !within(
            <FonsecaFlemming as Bounded>::bounds_spec().0,
            <FonsecaFlemming as Bounded>::bounds_spec().1,
            x,
        ),
        x[i].pair() == pr_add((3int, 1int), (1int, 1int)) ==> !within(
            <Viennet as Bounded>::bounds_spec().0,
            <Viennet as Bounded>::bounds_spec().1,
            x,
        ),
{
    assert(<ChankongHaimes as Bounded>::bounds_spec() == ((-20int, 1int), (20int, 1int)));
    assert(<FonsecaFlemming as Bounded>::bounds_spec() == ((-4int, 1int), (4int, 1int)));
    assert(<Viennet as Bounded>::bounds_spec() == ((-3int, 1int), (3int, 1int)));
    lemma_plus_one_above((20int, 1int));
    lemma_plus_one_above((4int, 1int));
    lemma_plus_one_above((3int, 1int));
    if x[i].pair() == pr_add((20int, 1int), (1int, 1int)) {
        lemma_above_high_not_in_bounds((-20int, 1int), (20int, 1int), x, i);
    }
    if x[i].pair() == pr_add((4int, 1int), (1int, 1int)) {
        lemma_above_high_not_in_bounds((-4int, 1int), (4int, 1int), x, i);
    }
    if x[i].pair() == pr_add((3int, 1int), (1int, 1int)) {
        lemma_above_high_not_in_bounds((-3int, 1int), (3int, 1int), x, i);
    }
}

} // verus!
