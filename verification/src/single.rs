//! Single-objective catalog entries.
//!
//! Each entry composes its capabilities and supplies its exact evaluation
//! rule, its declared minimum, and its minimizer rule; `minimizer_attains`
//! proves, for every accepted dimension, that the minimizer evaluates
//! exactly to the declared minimum.

use vstd::prelude::*;
use crate::rational::{
    Rational, fits, pr_eq, pr_add, pr_sub, pr_mul, lemma_pr_int_ops, lemma_pr_mul_zero,
    is_half_int, half_count, cos2pi_half, isqrt_u, lemma_norm_nonneg, lemma_norm_zero,
    lemma_exact_div,
};
use vstd::arithmetic::div_mod::lemma_mod_multiples_basic;
use crate::{
    EvalError, SingleObjective, Bounded, UnBounded, NDimensional, FixedDimensional, Constrained,
    UnConstrained, seq_inv, dim_accepts, const_seq, const_vec, lemma_take_step, all_zero,
    check_all_zero, within, lemma_zero_vector_in_bounds, lemma_above_high_not_in_bounds,
    lemma_plus_one_above,
};

verus! {

/// The rational zero, `0 / 1`.
pub open spec fn q0() -> Rational {
    Rational { num: 0, den: 1 }
}

/// The rational one, `1 / 1`.
pub open spec fn q1() -> Rational {
    Rational { num: 1, den: 1 }
}

/// This is the Sphere function: the negated sum of squared coordinates.
///
/// This catalog deliberately uses the negative-sum-of-squares sign variant
/// of the textbook sphere function, and the contracts state that variant.
/// The function accepts a vector with an arbitrary number of inputs and is
/// minimized by the all-zero vector.
pub struct Sphere {}

/// The exact value of the Sphere function on the first `|x|` coordinates.
pub open spec fn sphere_val(x: Seq<Rational>) -> (int, int)
    decreases x.len(),
{
    if x.len() == 0 {
        (0int, 1int)
    } else {
        pr_sub(sphere_val(x.drop_last()), pr_mul(x.last().pair(), x.last().pair()))
    }
}

/// Every intermediate of the Sphere evaluation stays representable.
pub open spec fn sphere_ok(x: Seq<Rational>) -> bool
    decreases x.len(),
{
    if x.len() == 0 {
        true
    } else {
        &&& sphere_ok(x.drop_last())
        &&& fits(pr_mul(x.last().pair(), x.last().pair()))
        &&& fits(pr_sub(sphere_val(x.drop_last()), pr_mul(x.last().pair(), x.last().pair())))
    }
}

proof fn lemma_sphere_ok_prefix(x: Seq<Rational>, i: int)
    requires
        0 <= i <= x.len(),
        sphere_ok(x),
    ensures
        sphere_ok(x.take(i)),
    decreases x.len(),
{
    if i < x.len() {
        assert(x.drop_last().take(i) =~= x.take(i));
        lemma_sphere_ok_prefix(x.drop_last(), i);
    } else {
        assert(x.take(i) =~= x);
    }
}

#[verifier::spinoff_prover]
proof fn lemma_sphere_zeros(n: nat)
    ensures
        sphere_ok(const_seq(n, q0())),
        sphere_val(const_seq(n, q0())) == (0int, 1int),
    decreases n,
{
    let z = const_seq(n, q0());
    if n > 0 {
        lemma_sphere_zeros((n - 1) as nat);
        assert(z.drop_last() =~= const_seq((n - 1) as nat, q0()));
        assert(z.last() == q0());
        lemma_pr_int_ops(0, 0);
        assert(sphere_val(z) == (0int, 1int));
        assert(sphere_ok(z));
    }
}

/// Exact running sum of squares `x[0]^2 + ... + x[k-1]^2`.
pub open spec fn sq_sum_val(x: Seq<Rational>, k: nat) -> (int, int)
    decreases k,
{
    if k == 0 {
        (0int, 1int)
    } else {
        pr_add(
            sq_sum_val(x, (k - 1) as nat),
            pr_mul(x[k - 1].pair(), x[k - 1].pair()),
        )
    }
}

/// Every intermediate of the running sum of squares stays representable.
pub open spec fn sq_sum_ok(x: Seq<Rational>, k: nat) -> bool
    decreases k,
{
    if k == 0 {
        true
    } else {
        &&& sq_sum_ok(x, (k - 1) as nat)
        &&& fits(pr_mul(x[k - 1].pair(), x[k - 1].pair()))
        &&& fits(
            pr_add(sq_sum_val(x, (k - 1) as nat), pr_mul(x[k - 1].pair(), x[k - 1].pair())),
        )
    }
}

proof fn lemma_sq_sum_prefix(x: Seq<Rational>, j: nat, k: nat)
    requires
        j <= k,
        sq_sum_ok(x, k),
    ensures
        sq_sum_ok(x, j),
    decreases k,
{
    if j < k {
        lemma_sq_sum_prefix(x, j, (k - 1) as nat);
    }
}

#[verifier::spinoff_prover]
proof fn lemma_sq_sum_zeros(x: Seq<Rational>, k: nat)
    requires
        forall|i: int| 0 <= i < k ==> #[trigger] x[i] == q0(),
    ensures
        sq_sum_ok(x, k),
        sq_sum_val(x, k) == (0int, 1int),
    decreases k,
{
    if k > 0 {
        lemma_sq_sum_zeros(x, (k - 1) as nat);
        assert(x[k - 1] == q0());
        lemma_pr_int_ops(0, 0);
        assert(sq_sum_val(x, k) == (0int, 1int));
        assert(sq_sum_ok(x, k));
    }
}

/// Exact running product `x[0] * ... * x[k-1]`.
pub open spec fn prod_val(x: Seq<Rational>, k: nat) -> (int, int)
    decreases k,
{
    if k == 0 {
        (1int, 1int)
    } else {
        pr_mul(prod_val(x, (k - 1) as nat), x[k - 1].pair())
    }
}

/// Every intermediate of the running product stays representable.
pub open spec fn prod_ok(x: Seq<Rational>, k: nat) -> bool
    decreases k,
{
    if k == 0 {
        true
    } else {
        prod_ok(x, (k - 1) as nat) && fits(pr_mul(prod_val(x, (k - 1) as nat), x[k - 1].pair()))
    }
}

proof fn lemma_prod_prefix(x: Seq<Rational>, j: nat, k: nat)
    requires
        j <= k,
        prod_ok(x, k),
    ensures
        prod_ok(x, j),
    decreases k,
{
    if j < k {
        lemma_prod_prefix(x, j, (k - 1) as nat);
    }
}

#[verifier::spinoff_prover]
proof fn lemma_prod_zeros(x: Seq<Rational>, k: nat)
    requires
        k >= 1,
        forall|i: int| 0 <= i < k ==> #[trigger] x[i] == q0(),
    ensures
        prod_ok(x, k),
        prod_val(x, k) == (0int, 1int),
    decreases k,
{
    assert(x[k - 1] == q0());
    assert(q0().pair() == (0int, 1int));
    if k == 1 {
        lemma_pr_int_ops(1, 0);
        assert(prod_val(x, 0) == (1int, 1int));
        assert(prod_ok(x, 0));
        assert(prod_val(x, 1) == pr_mul((1int, 1int), (0int, 1int)));
    } else {
        lemma_prod_zeros(x, (k - 1) as nat);
        lemma_pr_int_ops(0, 0);
        assert(prod_val(x, k) == pr_mul((0int, 1int), (0int, 1int)));
    }
    assert(prod_val(x, k) == (0int, 1int));
    assert(prod_ok(x, k));
}

/// This is the Rosenbrock function: the sum over consecutive coordinate
/// pairs of `100 * (x[i+1] - x[i]^2)^2 + (1 - x[i])^2`, over an arbitrary
/// number of inputs.  It is minimized by the all-one vector.
pub struct Rosenbrock {}

/// The exact value of one Rosenbrock term for the pair `(a, b)`.
pub open spec fn rosen_term_val(a: Rational, b: Rational) -> (int, int) {
    let sq = pr_mul(a.pair(), a.pair());
    let d2 = pr_mul(pr_sub(b.pair(), sq), pr_sub(b.pair(), sq));
    let e2 = pr_mul(pr_sub((1int, 1int), a.pair()), pr_sub((1int, 1int), a.pair()));
    pr_add(pr_mul((100int, 1int), d2), e2)
}

/// Every intermediate of one Rosenbrock term stays representable.
pub open spec fn rosen_term_ok(a: Rational, b: Rational) -> bool {
    let sq = pr_mul(a.pair(), a.pair());
    let d = pr_sub(b.pair(), sq);
    let d2 = pr_mul(d, d);
    let m = pr_mul((100int, 1int), d2);
    let e = pr_sub((1int, 1int), a.pair());
    let e2 = pr_mul(e, e);
    &&& fits(sq)
    &&& fits(d)
    &&& fits(d2)
    &&& fits(m)
    &&& fits(e)
    &&& fits(e2)
    &&& fits(pr_add(m, e2))
}

/// Exact running sum of the first `k` Rosenbrock terms.
pub open spec fn rosen_val(x: Seq<Rational>, k: nat) -> (int, int)
    decreases k,
{
    if k == 0 {
        (0int, 1int)
    } else {
        pr_add(rosen_val(x, (k - 1) as nat), rosen_term_val(x[k - 1], x[k as int]))
    }
}

/// Every intermediate of the Rosenbrock evaluation stays representable.
pub open spec fn rosen_ok(x: Seq<Rational>, k: nat) -> bool
    decreases k,
{
    if k == 0 {
        true
    } else {
        &&& rosen_ok(x, (k - 1) as nat)
        &&& rosen_term_ok(x[k - 1], x[k as int])
        &&& fits(pr_add(rosen_val(x, (k - 1) as nat), rosen_term_val(x[k - 1], x[k as int])))
    }
}

proof fn lemma_rosen_prefix(x: Seq<Rational>, j: nat, k: nat)
    requires
        j <= k,
        rosen_ok(x, k),
    ensures
        rosen_ok(x, j),
    decreases k,
{
    if j < k {
        lemma_rosen_prefix(x, j, (k - 1) as nat);
    }
}

#[verifier::spinoff_prover]
proof fn lemma_rosen_term_one()
    ensures
        rosen_term_ok(q1(), q1()),
        rosen_term_val(q1(), q1()) == (0int, 1int),
{
    lemma_pr_int_ops(1, 1);
    lemma_pr_int_ops(100, 0);
    lemma_pr_int_ops(0, 0);
    assert(q1().pair() == (1int, 1int));
}

#[verifier::spinoff_prover]
proof fn lemma_rosen_ones(x: Seq<Rational>, k: nat)
    requires
        forall|i: int| 0 <= i <= k ==> #[trigger] x[i] == q1(),
    ensures
        rosen_ok(x, k),
        rosen_val(x, k) == (0int, 1int),
    decreases k,
{
    if k > 0 {
        lemma_rosen_ones(x, (k - 1) as nat);
        assert(x[k - 1] == q1());
        assert(x[k as int] == q1());
        lemma_rosen_term_one();
        lemma_pr_int_ops(0, 0);
        assert(rosen_val(x, k) == (0int, 1int));
        assert(rosen_ok(x, k));
    }
}

/// One Rosenbrock term, `100 * (b - a^2)^2 + (1 - a)^2`.
fn rosen_step(a: Rational, b: Rational) -> (r: Option<Rational>)
    requires
        a.inv(),
        b.inv(),
    ensures
        r is Some <==> rosen_term_ok(a, b),
        r matches Some(q) ==> q.pair() == rosen_term_val(a, b) && q.inv(),
{
    let sq = match a.mul(a) {
        Some(v) => v,
        None => {
            return None;
        },
    };
    let d = match b.sub(sq) {
        Some(v) => v,
        None => {
            return None;
        },
    };
    let d2 = match d.mul(d) {
        Some(v) => v,
        None => {
            return None;
        },
    };
    let m = match Rational::from_int(100).mul(d2) {
        Some(v) => v,
        None => {
            return None;
        },
    };
    let e = match Rational::from_int(1).sub(a) {
        Some(v) => v,
        None => {
            return None;
        },
    };
    let e2 = match e.mul(e) {
        Some(v) => v,
        None => {
            return None;
        },
    };
    m.add(e2)
}

impl NDimensional for Rosenbrock {

}

impl UnConstrained for Rosenbrock {

}

impl Bounded for Rosenbrock {
    open spec fn bounds_spec() -> ((int, int), (int, int)) {
        ((-5int, 1int), (10int, 1int))
    }

    /// The bounds of the canonical optimization problem.
    fn bounds() -> (r: (Rational, Rational)) {
        proof {
            assert(<Rosenbrock as Bounded>::bounds_spec() == ((-5int, 1int), (10int, 1int)));
        }
        (Rational::from_int(-5), Rational::from_int(10))
    }
}

impl SingleObjective for Rosenbrock {
    open spec fn dim_spec() -> Option<usize> {
        None
    }

    open spec fn minimum_spec() -> (int, int) {
        (0int, 1int)
    }

    open spec fn f_val(x: Seq<Rational>) -> (int, int) {
        rosen_val(x, (x.len() - 1) as nat)
    }

    open spec fn f_ok(x: Seq<Rational>) -> bool {
        rosen_ok(x, (x.len() - 1) as nat)
    }

    open spec fn minimizer_spec(n: nat) -> Seq<Rational> {
        const_seq(n, q1())
    }

    /// The global minimum is constant and zero.
    fn minimum() -> (r: Rational) {
        proof {
            assert(<Rosenbrock as SingleObjective>::minimum_spec() == (0int, 1int));
        }
        Rational::from_int(0)
    }

    /// Function for evaluating.
    fn f(x: Vec<Rational>) -> (r: Result<Rational, EvalError>) {
        proof {
            assert(<Rosenbrock as SingleObjective>::f_ok(x@) == rosen_ok(
                x@,
                (x@.len() - 1) as nat,
            ));
            assert(<Rosenbrock as SingleObjective>::f_val(x@) == rosen_val(
                x@,
                (x@.len() - 1) as nat,
            ));
            assert(<Rosenbrock as SingleObjective>::dim_spec() is None);
        }
        let n = x.len();
        let mut acc: Rational = Rational::from_int(0);
        let mut i: usize = 0;
        while i < n - 1
            invariant
                n == x@.len(),
                n >= 1,
                0 <= i <= n - 1,
                seq_inv(x@),
                rosen_ok(x@, i as nat),
                acc.inv(),
                acc.pair() == rosen_val(x@, i as nat),
            decreases n - 1 - i,
        {
            let step: Option<Rational> = match rosen_step(x[i], x[i + 1]) {
                Some(t) => acc.add(t),
                None => None,
            };
            match step {
                Some(next) => {
                    acc = next;
                },
                None => {
                    proof {
                        if rosen_ok(x@, (x@.len() - 1) as nat) {
                            lemma_rosen_prefix(x@, i as nat + 1, (x@.len() - 1) as nat);
                        }
                    }
                    return Err(EvalError::NotExact);
                },
            }
            i = i + 1;
        }
        Ok(acc)
    }

    /// This function returns the minimizer (argument that will return the
    /// global minimum).
    fn minimizer(n: usize) -> (r: Vec<Rational>) {
        let r = const_vec(Rational::from_int(1), n);
        proof {
            assert(r@ == <Rosenbrock as SingleObjective>::minimizer_spec(n as nat));
        }
        r
    }

    proof fn minimizer_attains(n: nat) {
        let z = const_seq(n, q1());
        assert(forall|i: int| 0 <= i < n ==> z[i] == q1());
        lemma_rosen_ones(z, (n - 1) as nat);
        assert(<Rosenbrock as SingleObjective>::minimizer_spec(n) == z);
        assert(seq_inv(z));
        assert(dim_accepts(<Rosenbrock as SingleObjective>::dim_spec(), z.len()));
        assert(<Rosenbrock as SingleObjective>::f_ok(z) == rosen_ok(z, (n - 1) as nat));
        assert(<Rosenbrock as SingleObjective>::f_val(z) == rosen_val(z, (n - 1) as nat));
        assert(<Rosenbrock as SingleObjective>::minimum_spec() == (0int, 1int));
    }
}

/// This is the Ridge function, with the canonical parameters `d = 1` and
/// `alpha = 0`.  With a zero exponent the tail term `d * (sum of squares of
/// the later coordinates) ^ alpha` equals one for every input, under the
/// usual convention `0 ^ 0 == 1`, so the exact value is `-1 + x[0] + 1`.
/// It is minimized by `-5` in the first coordinate and zeros elsewhere.
pub struct Ridge {}

/// The exact value of the Ridge function.
pub open spec fn ridge_val(x: Seq<Rational>) -> (int, int) {
    pr_add(pr_add((-1int, 1int), x[0].pair()), (1int, 1int))
}

/// Every intermediate of the Ridge evaluation stays representable.
pub open spec fn ridge_ok(x: Seq<Rational>) -> bool {
    fits(pr_add((-1int, 1int), x[0].pair())) && fits(ridge_val(x))
}

/// The Ridge minimizer: `-5` in the first coordinate, zeros elsewhere.
pub open spec fn ridge_minimizer(n: nat) -> Seq<Rational> {
    Seq::new(n, |i: int| if i == 0 { Rational { num: -5i64, den: 1i64 } } else { q0() })
}

impl NDimensional for Ridge {

}

impl UnConstrained for Ridge {

}

impl Bounded for Ridge {
    open spec fn bounds_spec() -> ((int, int), (int, int)) {
        ((-5int, 1int), (5int, 1int))
    }

    /// The bounds of the canonical optimization problem.
    fn bounds() -> (r: (Rational, Rational)) {
        proof {
            assert(<Ridge as Bounded>::bounds_spec() == ((-5int, 1int), (5int, 1int)));
        }
        (Rational::from_int(-5), Rational::from_int(5))
    }
}

impl SingleObjective for Ridge {
    open spec fn dim_spec() -> Option<usize> {
        None
    }

    open spec fn minimum_spec() -> (int, int) {
        (-5int, 1int)
    }

    open spec fn f_val(x: Seq<Rational>) -> (int, int) {
        ridge_val(x)
    }

    open spec fn f_ok(x: Seq<Rational>) -> bool {
        ridge_ok(x)
    }

    open spec fn minimizer_spec(n: nat) -> Seq<Rational> {
        ridge_minimizer(n)
    }

    /// The global minimum is constant.
    fn minimum() -> (r: Rational) {
        proof {
            assert(<Ridge as SingleObjective>::minimum_spec() == (-5int, 1int));
        }
        Rational::from_int(-5)
    }

    /// Function for evaluating.
    fn f(x: Vec<Rational>) -> (r: Result<Rational, EvalError>) {
        proof {
            assert(<Ridge as SingleObjective>::f_ok(x@) == ridge_ok(x@));
            assert(<Ridge as SingleObjective>::f_val(x@) == ridge_val(x@));
            assert(<Ridge as SingleObjective>::dim_spec() is None);
        }
        let a1 = match Rational::from_int(-1).add(x[0]) {
            Some(v) => v,
            None => {
                return Err(EvalError::NotExact);
            },
        };
        match a1.add(Rational::from_int(1)) {
            Some(v) => Ok(v),
            None => Err(EvalError::NotExact),
        }
    }

    /// This function returns the minimizer (argument that will return the
    /// global minimum).
    fn minimizer(n: usize) -> (r: Vec<Rational>) {
        let mut v = const_vec(Rational::from_int(0), n);
        v.set(0, Rational::from_int(-5));
        proof {
            assert(v@ =~= <Ridge as SingleObjective>::minimizer_spec(n as nat));
        }
        v
    }

    proof fn minimizer_attains(n: nat) {
        let z = ridge_minimizer(n);
        assert(z[0] == (Rational { num: -5i64, den: 1i64 }));
        lemma_pr_int_ops(-1, -5);
        lemma_pr_int_ops(-6, 1);
        assert(<Ridge as SingleObjective>::minimizer_spec(n) == z);
        assert(seq_inv(z));
        assert(dim_accepts(<Ridge as SingleObjective>::dim_spec(), z.len()));
        assert(<Ridge as SingleObjective>::f_ok(z) == ridge_ok(z));
        assert(<Ridge as SingleObjective>::f_val(z) == ridge_val(z));
        assert(<Ridge as SingleObjective>::minimum_spec() == (-5int, 1int));
        assert(ridge_val(z) == (-5int, 1int));
    }
}

/// This is the Matyas function: `0.26 * (sum of squares) - 0.48 * (product
/// of coordinates)`, generalized over an arbitrary number of inputs.  It is
/// minimized by the all-zero vector.
pub struct Matyas {}

/// The exact value of the Matyas function.
pub open spec fn matyas_val(x: Seq<Rational>) -> (int, int) {
    pr_sub(
        pr_mul((26int, 100int), sq_sum_val(x, x.len())),
        pr_mul((48int, 100int), prod_val(x, x.len())),
    )
}

/// Every intermediate of the Matyas evaluation stays representable.
pub open spec fn matyas_ok(x: Seq<Rational>) -> bool {
    &&& sq_sum_ok(x, x.len())
    &&& prod_ok(x, x.len())
    &&& fits(pr_mul((26int, 100int), sq_sum_val(x, x.len())))
    &&& fits(pr_mul((48int, 100int), prod_val(x, x.len())))
    &&& fits(matyas_val(x))
}

impl NDimensional for Matyas {

}

impl UnConstrained for Matyas {

}

impl Bounded for Matyas {
    open spec fn bounds_spec() -> ((int, int), (int, int)) {
        ((-10int, 1int), (10int, 1int))
    }

    /// The bounds of the canonical optimization problem.
    fn bounds() -> (r: (Rational, Rational)) {
        proof {
            assert(<Matyas as Bounded>::bounds_spec() == ((-10int, 1int), (10int, 1int)));
        }
        (Rational::from_int(-10), Rational::from_int(10))
    }
}

impl SingleObjective for Matyas {
    open spec fn dim_spec() -> Option<usize> {
        None
    }

    open spec fn minimum_spec() -> (int, int) {
        (0int, 1int)
    }

    open spec fn f_val(x: Seq<Rational>) -> (int, int) {
        matyas_val(x)
    }

    open spec fn f_ok(x: Seq<Rational>) -> bool {
        matyas_ok(x)
    }

    open spec fn minimizer_spec(n: nat) -> Seq<Rational> {
        const_seq(n, q0())
    }

    /// The global minimum is constant and zero.
    fn minimum() -> (r: Rational) {
        proof {
            assert(<Matyas as SingleObjective>::minimum_spec() == (0int, 1int));
        }
        Rational::from_int(0)
    }

    /// Function for evaluating.
    fn f(x: Vec<Rational>) -> (r: Result<Rational, EvalError>) {
        proof {
            assert(<Matyas as SingleObjective>::f_ok(x@) == matyas_ok(x@));
            assert(<Matyas as SingleObjective>::f_val(x@) == matyas_val(x@));
            assert(<Matyas as SingleObjective>::dim_spec() is None);
        }
        let mut square_sum: Rational = Rational::from_int(0);
        let mut prod: Rational = Rational::from_int(1);
        let mut i: usize = 0;
        while i < x.len()
            invariant
                0 <= i <= x@.len(),
                seq_inv(x@),
                sq_sum_ok(x@, i as nat),
                prod_ok(x@, i as nat),
                square_sum.inv(),
                prod.inv(),
                square_sum.pair() == sq_sum_val(x@, i as nat),
                prod.pair() == prod_val(x@, i as nat),
            decreases x@.len() - i,
        {
            let xi = x[i];
            let step_s: Option<Rational> = match xi.mul(xi) {
                Some(sq) => square_sum.add(sq),
                None => None,
            };
            let step_p: Option<Rational> = prod.mul(xi);
            if step_s.is_none() || step_p.is_none() {
                proof {
                    if sq_sum_ok(x@, x@.len()) {
                        lemma_sq_sum_prefix(x@, i as nat + 1, x@.len());
                    }
                    if prod_ok(x@, x@.len()) {
                        lemma_prod_prefix(x@, i as nat + 1, x@.len());
                    }
                }
                return Err(EvalError::NotExact);
            }
            square_sum = step_s.unwrap();
            prod = step_p.unwrap();
            i = i + 1;
        }
        let m1 = match Rational::new(26, 100).mul(square_sum) {
            Some(v) => v,
            None => {
                return Err(EvalError::NotExact);
            },
        };
        let m2 = match Rational::new(48, 100).mul(prod) {
            Some(v) => v,
            None => {
                return Err(EvalError::NotExact);
            },
        };
        match m1.sub(m2) {
            Some(v) => Ok(v),
            None => Err(EvalError::NotExact),
        }
    }

    /// This function returns the minimizer (argument that will return the
    /// global minimum).
    fn minimizer(n: usize) -> (r: Vec<Rational>) {
        let r = const_vec(Rational::from_int(0), n);
        proof {
            assert(r@ == <Matyas as SingleObjective>::minimizer_spec(n as nat));
        }
        r
    }

    proof fn minimizer_attains(n: nat) {
        let z = const_seq(n, q0());
        assert(forall|i: int| 0 <= i < n ==> z[i] == q0());
        lemma_sq_sum_zeros(z, n);
        lemma_prod_zeros(z, n);
        lemma_pr_mul_zero(26, 100);
        lemma_pr_mul_zero(48, 100);
        lemma_pr_int_ops(0, 0);
        assert(<Matyas as SingleObjective>::minimizer_spec(n) == z);
        assert(seq_inv(z));
        assert(dim_accepts(<Matyas as SingleObjective>::dim_spec(), z.len()));
        assert(<Matyas as SingleObjective>::f_ok(z) == matyas_ok(z));
        assert(<Matyas as SingleObjective>::f_val(z) == matyas_val(z));
        assert(<Matyas as SingleObjective>::minimum_spec() == (0int, 1int));
        assert(matyas_val(z) == (0int, 1int));
    }
}

/// This is the Zakharov function: `(sum of squares) + s^2 + s^4` where `s`
/// is the index-weighted sum `0.5 * x[i] * i`, generalized over an
/// arbitrary number of inputs.  It is minimized by the all-zero vector.
pub struct Zakharov {}

/// Exact running index-weighted sum `0.5 * x[0] * 0 + ... + 0.5 * x[k-1] * (k-1)`.
pub open spec fn zak_lin_val(x: Seq<Rational>, k: nat) -> (int, int)
    decreases k,
{
    if k == 0 {
        (0int, 1int)
    } else {
        pr_add(
            zak_lin_val(x, (k - 1) as nat),
            pr_mul(pr_mul((1int, 2int), x[k - 1].pair()), (k - 1, 1int)),
        )
    }
}

/// Every intermediate of the index-weighted sum stays representable.
pub open spec fn zak_lin_ok(x: Seq<Rational>, k: nat) -> bool
    decreases k,
{
    if k == 0 {
        true
    } else {
        &&& zak_lin_ok(x, (k - 1) as nat)
        &&& fits(pr_mul((1int, 2int), x[k - 1].pair()))
        &&& fits(pr_mul(pr_mul((1int, 2int), x[k - 1].pair()), (k - 1, 1int)))
        &&& fits(
            pr_add(
                zak_lin_val(x, (k - 1) as nat),
                pr_mul(pr_mul((1int, 2int), x[k - 1].pair()), (k - 1, 1int)),
            ),
        )
    }
}

proof fn lemma_zak_lin_prefix(x: Seq<Rational>, j: nat, k: nat)
    requires
        j <= k,
        zak_lin_ok(x, k),
    ensures
        zak_lin_ok(x, j),
    decreases k,
{
    if j < k {
        lemma_zak_lin_prefix(x, j, (k - 1) as nat);
    }
}

#[verifier::spinoff_prover]
proof fn lemma_zak_lin_zeros(x: Seq<Rational>, k: nat)
    requires
        forall|i: int| 0 <= i < k ==> #[trigger] x[i] == q0(),
    ensures
        zak_lin_ok(x, k),
        zak_lin_val(x, k) == (0int, 1int),
    decreases k,
{
    if k > 0 {
        lemma_zak_lin_zeros(x, (k - 1) as nat);
        assert(x[k - 1] == q0());
        lemma_pr_mul_zero(1, 2);
        lemma_pr_mul_zero(k - 1, 1);
        lemma_pr_int_ops(0, 0);
        assert(zak_lin_val(x, k) == (0int, 1int));
        assert(zak_lin_ok(x, k));
    }
}

/// The exact value of the Zakharov function.
pub open spec fn zakharov_val(x: Seq<Rational>) -> (int, int) {
    let s = zak_lin_val(x, x.len());
    pr_add(pr_add(sq_sum_val(x, x.len()), pr_mul(s, s)), pr_mul(pr_mul(s, s), pr_mul(s, s)))
}

/// Every intermediate of the Zakharov evaluation stays representable.
pub open spec fn zakharov_ok(x: Seq<Rational>) -> bool {
    let s = zak_lin_val(x, x.len());
    &&& sq_sum_ok(x, x.len())
    &&& zak_lin_ok(x, x.len())
    &&& fits(pr_mul(s, s))
    &&& fits(pr_mul(pr_mul(s, s), pr_mul(s, s)))
    &&& fits(pr_add(sq_sum_val(x, x.len()), pr_mul(s, s)))
    &&& fits(zakharov_val(x))
}

impl NDimensional for Zakharov {

}

impl UnConstrained for Zakharov {

}

impl Bounded for Zakharov {
    open spec fn bounds_spec() -> ((int, int), (int, int)) {
        ((-5int, 1int), (10int, 1int))
    }

    /// The bounds of the canonical optimization problem.
    fn bounds() -> (r: (Rational, Rational)) {
        proof {
            assert(<Zakharov as Bounded>::bounds_spec() == ((-5int, 1int), (10int, 1int)));
        }
        (Rational::from_int(-5), Rational::from_int(10))
    }
}

impl SingleObjective for Zakharov {
    open spec fn dim_spec() -> Option<usize> {
        None
    }

    open spec fn minimum_spec() -> (int, int) {
        (0int, 1int)
    }

    open spec fn f_val(x: Seq<Rational>) -> (int, int) {
        zakharov_val(x)
    }

    open spec fn f_ok(x: Seq<Rational>) -> bool {
        zakharov_ok(x)
    }

    open spec fn minimizer_spec(n: nat) -> Seq<Rational> {
        const_seq(n, q0())
    }

    /// The global minimum is constant and zero.
    fn minimum() -> (r: Rational) {
        proof {
            assert(<Zakharov as SingleObjective>::minimum_spec() == (0int, 1int));
        }
        Rational::from_int(0)
    }

    /// Function for evaluating.
    fn f(x: Vec<Rational>) -> (r: Result<Rational, EvalError>) {
        proof {
            assert(<Zakharov as SingleObjective>::f_ok(x@) == zakharov_ok(x@));
            assert(<Zakharov as SingleObjective>::f_val(x@) == zakharov_val(x@));
            assert(<Zakharov as SingleObjective>::dim_spec() is None);
        }
        let half = Rational::new(1, 2);
        let mut square_sum: Rational = Rational::from_int(0);
        let mut sum_ixi: Rational = Rational::from_int(0);
        let mut i: usize = 0;
        while i < x.len()
            invariant
                0 <= i <= x@.len(),
                seq_inv(x@),
                sq_sum_ok(x@, i as nat),
                zak_lin_ok(x@, i as nat),
                square_sum.inv(),
                sum_ixi.inv(),
                square_sum.pair() == sq_sum_val(x@, i as nat),
                sum_ixi.pair() == zak_lin_val(x@, i as nat),
                half.pair() == (1int, 2int),
                half.inv(),
            decreases x@.len() - i,
        {
            let xi = x[i];
            let step_s: Option<Rational> = match xi.mul(xi) {
                Some(sq) => square_sum.add(sq),
                None => None,
            };
            let step_t: Option<Rational> = match half.mul(xi) {
                Some(h) => match h.mul_usize(i) {
                    Some(w) => sum_ixi.add(w),
                    None => None,
                },
                None => None,
            };
            if step_s.is_none() || step_t.is_none() {
                proof {
                    if sq_sum_ok(x@, x@.len()) {
                        lemma_sq_sum_prefix(x@, i as nat + 1, x@.len());
                    }
                    if zak_lin_ok(x@, x@.len()) {
                        lemma_zak_lin_prefix(x@, i as nat + 1, x@.len());
                    }
                }
                return Err(EvalError::NotExact);
            }
            square_sum = step_s.unwrap();
            sum_ixi = step_t.unwrap();
            i = i + 1;
        }
        let s2 = match sum_ixi.mul(sum_ixi) {
            Some(v) => v,
            None => {
                return Err(EvalError::NotExact);
            },
        };
        let s4 = match s2.mul(s2) {
            Some(v) => v,
            None => {
                return Err(EvalError::NotExact);
            },
        };
        let a1 = match square_sum.add(s2) {
            Some(v) => v,
            None => {
                return Err(EvalError::NotExact);
            },
        };
        match a1.add(s4) {
            Some(v) => Ok(v),
            None => Err(EvalError::NotExact),
        }
    }

    /// This function returns the minimizer (argument that will return the
    /// global minimum).
    fn minimizer(n: usize) -> (r: Vec<Rational>) {
        let r = const_vec(Rational::from_int(0), n);
        proof {
            assert(r@ == <Zakharov as SingleObjective>::minimizer_spec(n as nat));
        }
        r
    }

    proof fn minimizer_attains(n: nat) {
        let z = const_seq(n, q0());
        assert(forall|i: int| 0 <= i < n ==> z[i] == q0());
        lemma_sq_sum_zeros(z, n);
        lemma_zak_lin_zeros(z, n);
        lemma_pr_int_ops(0, 0);
        assert(<Zakharov as SingleObjective>::minimizer_spec(n) == z);
        assert(seq_inv(z));
        assert(dim_accepts(<Zakharov as SingleObjective>::dim_spec(), z.len()));
        assert(<Zakharov as SingleObjective>::f_ok(z) == zakharov_ok(z));
        assert(<Zakharov as SingleObjective>::f_val(z) == zakharov_val(z));
        assert(<Zakharov as SingleObjective>::minimum_spec() == (0int, 1int));
        assert(zakharov_val(z) == (0int, 1int));
    }
}

impl NDimensional for Sphere {

}

impl UnConstrained for Sphere {

}

impl UnBounded for Sphere {

}

impl SingleObjective for Sphere {
    open spec fn dim_spec() -> Option<usize> {
        None
    }

    open spec fn minimum_spec() -> (int, int) {
        (0int, 1int)
    }

    open spec fn f_val(x: Seq<Rational>) -> (int, int) {
        sphere_val(x)
    }

    open spec fn f_ok(x: Seq<Rational>) -> bool {
        sphere_ok(x)
    }

    open spec fn minimizer_spec(n: nat) -> Seq<Rational> {
        const_seq(n, q0())
    }

    /// The global minimum is constant and zero.
    fn minimum() -> (r: Rational) {
        proof {
            assert(<Sphere as SingleObjective>::minimum_spec() == (0int, 1int));
        }
        Rational::from_int(0)
    }

    /// Function for evaluating.
    fn f(x: Vec<Rational>) -> (r: Result<Rational, EvalError>) {
        proof {
            assert(<Sphere as SingleObjective>::f_ok(x@) == sphere_ok(x@));
            assert(<Sphere as SingleObjective>::f_val(x@) == sphere_val(x@));
            assert(<Sphere as SingleObjective>::dim_spec() is None);
        }
        let mut acc: Rational = Rational::from_int(0);
        let mut i: usize = 0;
        while i < x.len()
            invariant
                0 <= i <= x@.len(),
                seq_inv(x@),
                sphere_ok(x@.take(i as int)),
                acc.inv(),
                acc.pair() == sphere_val(x@.take(i as int)),
            decreases x@.len() - i,
        {
            proof {
                lemma_take_step(x@, i as int);
            }
            let xi = x[i];
            let step: Option<Rational> = match xi.mul(xi) {
                Some(sq) => acc.sub(sq),
                None => None,
            };
            match step {
                Some(next) => {
                    acc = next;
                },
                None => {
                    proof {
                        if sphere_ok(x@) {
                            lemma_sphere_ok_prefix(x@, i as int + 1);
                        }
                    }
                    return Err(EvalError::NotExact);
                },
            }
            i = i + 1;
        }
        proof {
            assert(x@.take(x@.len() as int) =~= x@);
        }
        Ok(acc)
    }

    /// This function returns the minimizer (argument that will return the
    /// global minimum).
    fn minimizer(n: usize) -> (r: Vec<Rational>) {
        let r = const_vec(Rational::from_int(0), n);
        proof {
            assert(r@ == <Sphere as SingleObjective>::minimizer_spec(n as nat));
        }
        r
    }

    proof fn minimizer_attains(n: nat) {
        lemma_sphere_zeros(n);
        let z = const_seq(n, q0());
        assert(<Sphere as SingleObjective>::minimizer_spec(n) == z);
        assert(z.len() == n);
        assert(seq_inv(z));
        assert(dim_accepts(<Sphere as SingleObjective>::dim_spec(), z.len()));
        assert(<Sphere as SingleObjective>::f_ok(z) == sphere_ok(z));
        assert(<Sphere as SingleObjective>::f_val(z) == sphere_val(z));
        assert(<Sphere as SingleObjective>::minimum_spec() == (0int, 1int));
        assert(pr_eq(sphere_val(z), (0int, 1int)));
    }
}

/// This is the Rastrigin function:
/// `10 * n + sum(x[i]^2 - 10 * cos(2 * pi * x[i]))`, over an arbitrary
/// number of inputs, computed here as the equal sum of
/// `x[i]^2 + 10 * (1 - cos(2 * pi * x[i]))` with the constant `10 * n`
/// folded into the terms.
///
/// On a half-integer coordinate `k / 2` the cosine of a full turn scaled
/// by it is exactly `1` for even `k` and `-1` for odd `k`, so the exact
/// evaluator covers the half-integer lattice; off the lattice it reports
/// `NotExact`.  It is minimized by the all-zero vector.
pub struct Rastrigin {}

/// The exact value of one Rastrigin term,
/// `q^2 + 10 * (1 - cos(2 * pi * q))`, for a half-integer `q`.
pub open spec fn rast_term_val(q: Rational) -> (int, int) {
    pr_add(pr_mul(q.pair(), q.pair()), (10 - 10 * cos2pi_half(q), 1int))
}

/// The term is exact: the coordinate is a half-integer and every
/// intermediate stays representable.
pub open spec fn rast_term_ok(q: Rational) -> bool {
    &&& is_half_int(q)
    &&& fits(pr_mul(q.pair(), q.pair()))
    &&& fits(rast_term_val(q))
}

/// Exact running sum of the first `k` Rastrigin terms.
pub open spec fn rast_val(x: Seq<Rational>, k: nat) -> (int, int)
    decreases k,
{
    if k == 0 {
        (0int, 1int)
    } else {
        pr_add(rast_val(x, (k - 1) as nat), rast_term_val(x[k - 1]))
    }
}

/// Every term and every intermediate of the Rastrigin evaluation is exact.
pub open spec fn rast_ok(x: Seq<Rational>, k: nat) -> bool
    decreases k,
{
    if k == 0 {
        true
    } else {
        &&& rast_ok(x, (k - 1) as nat)
        &&& rast_term_ok(x[k - 1])
        &&& fits(pr_add(rast_val(x, (k - 1) as nat), rast_term_val(x[k - 1])))
    }
}

proof fn lemma_rast_prefix(x: Seq<Rational>, j: nat, k: nat)
    requires
        j <= k,
        rast_ok(x, k),
    ensures
        rast_ok(x, j),
    decreases k,
{
    if j < k {
        lemma_rast_prefix(x, j, (k - 1) as nat);
    }
}

#[verifier::spinoff_prover]
proof fn lemma_rast_term_zero()
    ensures
        rast_term_ok(q0()),
        rast_term_val(q0()) == (0int, 1int),
{
    assert((2 * q0().num) % (q0().den as int) == 0);
    assert(is_half_int(q0()));
    assert(half_count(q0()) == 0);
    assert(cos2pi_half(q0()) == 1);
    lemma_pr_int_ops(0, 0);
    assert(pr_mul(q0().pair(), q0().pair()) == (0int, 1int));
    assert(rast_term_val(q0()) == pr_add((0int, 1int), (0int, 1int)));
}

#[verifier::spinoff_prover]
proof fn lemma_rast_zeros(x: Seq<Rational>, k: nat)
    requires
        forall|i: int| 0 <= i < k ==> #[trigger] x[i] == q0(),
    ensures
        rast_ok(x, k),
        rast_val(x, k) == (0int, 1int),
    decreases k,
{
    if k > 0 {
        lemma_rast_zeros(x, (k - 1) as nat);
        assert(x[k - 1] == q0());
        lemma_rast_term_zero();
        lemma_pr_int_ops(0, 0);
        assert(rast_val(x, k) == (0int, 1int));
        assert(rast_ok(x, k));
    }
}

/// One Rastrigin term, `q^2 + 10 * (1 - cos(2 * pi * q))`.
fn rast_step(q: Rational) -> (r: Option<Rational>)
    requires
        q.inv(),
    ensures
        r is Some <==> rast_term_ok(q),
        r matches Some(v) ==> v.pair() == rast_term_val(q) && v.inv(),
{
    let c = match q.cos_two_pi_half() {
        Some(v) => v,
        None => {
            return None;
        },
    };
    let sq = match q.mul(q) {
        Some(v) => v,
        None => {
            return None;
        },
    };
    let tail = if c.num == 1 {
        Rational::from_int(0)
    } else {
        Rational::from_int(20)
    };
    proof {
        assert(tail.pair() == (10 - 10 * cos2pi_half(q), 1int));
    }
    sq.add(tail)
}

impl NDimensional for Rastrigin {

}

impl UnConstrained for Rastrigin {

}

impl Bounded for Rastrigin {
    open spec fn bounds_spec() -> ((int, int), (int, int)) {
        ((-512int, 100int), (512int, 100int))
    }

    /// The bounds of the canonical optimization problem.
    fn bounds() -> (r: (Rational, Rational)) {
        proof {
            assert(<Rastrigin as Bounded>::bounds_spec() == ((-512int, 100int), (512int, 100int)));
        }
        (Rational::new(-512, 100), Rational::new(512, 100))
    }
}

impl SingleObjective for Rastrigin {
    open spec fn dim_spec() -> Option<usize> {
        None
    }

    open spec fn minimum_spec() -> (int, int) {
        (0int, 1int)
    }

    open spec fn f_val(x: Seq<Rational>) -> (int, int) {
        rast_val(x, x.len())
    }

    open spec fn f_ok(x: Seq<Rational>) -> bool {
        rast_ok(x, x.len())
    }

    open spec fn minimizer_spec(n: nat) -> Seq<Rational> {
        const_seq(n, q0())
    }

    /// The global minimum is constant and zero.
    fn minimum() -> (r: Rational) {
        proof {
            assert(<Rastrigin as SingleObjective>::minimum_spec() == (0int, 1int));
        }
        Rational::from_int(0)
    }

    /// Function for evaluating.
    fn f(x: Vec<Rational>) -> (r: Result<Rational, EvalError>) {
        proof {
            assert(<Rastrigin as SingleObjective>::f_ok(x@) == rast_ok(x@, x@.len()));
            assert(<Rastrigin as SingleObjective>::f_val(x@) == rast_val(x@, x@.len()));
            assert(<Rastrigin as SingleObjective>::dim_spec() is None);
        }
        let mut acc: Rational = Rational::from_int(0);
        let mut i: usize = 0;
        while i < x.len()
            invariant
                0 <= i <= x@.len(),
                seq_inv(x@),
                rast_ok(x@, i as nat),
                acc.inv(),
                acc.pair() == rast_val(x@, i as nat),
            decreases x@.len() - i,
        {
            let step: Option<Rational> = match rast_step(x[i]) {
                Some(t) => acc.add(t),
                None => None,
            };
            match step {
                Some(next) => {
                    acc = next;
                },
                None => {
                    proof {
                        if rast_ok(x@, x@.len()) {
                            lemma_rast_prefix(x@, i as nat + 1, x@.len());
                        }
                    }
                    return Err(EvalError::NotExact);
                },
            }
            i = i + 1;
        }
        Ok(acc)
    }

    /// This function returns the minimizer (argument that will return the
    /// global minimum).
    fn minimizer(n: usize) -> (r: Vec<Rational>) {
        let r = const_vec(Rational::from_int(0), n);
        proof {
            assert(r@ == <Rastrigin as SingleObjective>::minimizer_spec(n as nat));
        }
        r
    }

    proof fn minimizer_attains(n: nat) {
        let z = const_seq(n, q0());
        assert(forall|i: int| 0 <= i < n ==> z[i] == q0());
        lemma_rast_zeros(z, n);
        assert(<Rastrigin as SingleObjective>::minimizer_spec(n) == z);
        assert(seq_inv(z));
        assert(dim_accepts(<Rastrigin as SingleObjective>::dim_spec(), z.len()));
        assert(<Rastrigin as SingleObjective>::f_ok(z) == rast_ok(z, n));
        assert(<Rastrigin as SingleObjective>::f_val(z) == rast_val(z, n));
        assert(<Rastrigin as SingleObjective>::minimum_spec() == (0int, 1int));
    }
}

/// The exact value of the two-dimensional Rosenbrock objective
/// `(1 - a)^2 + 100 * (b - a^2)^2`.
pub open spec fn rosen2_val(a: Rational, b: Rational) -> (int, int) {
    let e2 = pr_mul(pr_sub((1int, 1int), a.pair()), pr_sub((1int, 1int), a.pair()));
    let sq = pr_mul(a.pair(), a.pair());
    let d2 = pr_mul(pr_sub(b.pair(), sq), pr_sub(b.pair(), sq));
    pr_add(e2, pr_mul((100int, 1int), d2))
}

/// Every intermediate of the two-dimensional Rosenbrock objective stays
/// representable.
pub open spec fn rosen2_ok(a: Rational, b: Rational) -> bool {
    let e = pr_sub((1int, 1int), a.pair());
    let e2 = pr_mul(e, e);
    let sq = pr_mul(a.pair(), a.pair());
    let d = pr_sub(b.pair(), sq);
    let d2 = pr_mul(d, d);
    let m = pr_mul((100int, 1int), d2);
    &&& fits(e)
    &&& fits(e2)
    &&& fits(sq)
    &&& fits(d)
    &&& fits(d2)
    &&& fits(m)
    &&& fits(pr_add(e2, m))
}

#[verifier::spinoff_prover]
proof fn lemma_rosen2_one()
    ensures
        rosen2_ok(q1(), q1()),
        rosen2_val(q1(), q1()) == (0int, 1int),
{
    lemma_pr_int_ops(1, 1);
    lemma_pr_int_ops(100, 0);
    lemma_pr_int_ops(0, 0);
    assert(q1().pair() == (1int, 1int));
}

/// The two-dimensional Rosenbrock objective, `(1 - a)^2 + 100 * (b - a^2)^2`.
fn rosen2(a: Rational, b: Rational) -> (r: Option<Rational>)
    requires
        a.inv(),
        b.inv(),
    ensures
        r is Some <==> rosen2_ok(a, b),
        r matches Some(q) ==> q.pair() == rosen2_val(a, b) && q.inv(),
{
    let e = match Rational::from_int(1).sub(a) {
        Some(v) => v,
        None => {
            return None;
        },
    };
    let e2 = match e.mul(e) {
        Some(v) => v,
        None => {
            return None;
        },
    };
    let sq = match a.mul(a) {
        Some(v) => v,
        None => {
            return None;
        },
    };
    let d = match b.sub(sq) {
        Some(v) => v,
        None => {
            return None;
        },
    };
    let d2 = match d.mul(d) {
        Some(v) => v,
        None => {
            return None;
        },
    };
    let m = match Rational::from_int(100).mul(d2) {
        Some(v) => v,
        None => {
            return None;
        },
    };
    e2.add(m)
}

/// This is a constrained version of the Rosenbrock function, restricted to
/// two dimensions, with a cubic and a line as inequality constraints; a
/// point is feasible when both constraint values are at most zero.  The
/// minimum lies at `(1, 1)`.
pub struct RosenbrockConst1 {}

/// The first constraint of `RosenbrockConst1`: `(a - 1)^3 - b + 1`.
pub open spec fn rc1_g1_val(a: Rational, b: Rational) -> (int, int) {
    let c = pr_sub(a.pair(), (1int, 1int));
    pr_add(pr_sub(pr_mul(pr_mul(c, c), c), b.pair()), (1int, 1int))
}

/// Every intermediate of the first constraint stays representable.
pub open spec fn rc1_g1_ok(a: Rational, b: Rational) -> bool {
    let c = pr_sub(a.pair(), (1int, 1int));
    let c2 = pr_mul(c, c);
    let c3 = pr_mul(c2, c);
    let t = pr_sub(c3, b.pair());
    &&& fits(c)
    &&& fits(c2)
    &&& fits(c3)
    &&& fits(t)
    &&& fits(pr_add(t, (1int, 1int)))
}

/// The second constraint of `RosenbrockConst1`: `a + b - 2`.
pub open spec fn rc_line_val(a: Rational, b: Rational) -> (int, int) {
    pr_sub(pr_add(a.pair(), b.pair()), (2int, 1int))
}

/// Every intermediate of the line constraint stays representable.
pub open spec fn rc_line_ok(a: Rational, b: Rational) -> bool {
    fits(pr_add(a.pair(), b.pair())) && fits(rc_line_val(a, b))
}

/// The first constraint of `RosenbrockConst1`, `(a - 1)^3 - b + 1`.
fn rc1_g1(a: Rational, b: Rational) -> (r: Option<Rational>)
    requires
        a.inv(),
        b.inv(),
    ensures
        r is Some <==> rc1_g1_ok(a, b),
        r matches Some(q) ==> q.pair() == rc1_g1_val(a, b) && q.inv(),
{
    let c = match a.sub(Rational::from_int(1)) {
        Some(v) => v,
        None => {
            return None;
        },
    };
    let c2 = match c.mul(c) {
        Some(v) => v,
        None => {
            return None;
        },
    };
    let c3 = match c2.mul(c) {
        Some(v) => v,
        None => {
            return None;
        },
    };
    let t = match c3.sub(b) {
        Some(v) => v,
        None => {
            return None;
        },
    };
    t.add(Rational::from_int(1))
}

/// The line constraint `a + b - 2`.
fn rc_line(a: Rational, b: Rational) -> (r: Option<Rational>)
    requires
        a.inv(),
        b.inv(),
    ensures
        r is Some <==> rc_line_ok(a, b),
        r matches Some(q) ==> q.pair() == rc_line_val(a, b) && q.inv(),
{
    let s = match a.add(b) {
        Some(v) => v,
        None => {
            return None;
        },
    };
    s.sub(Rational::from_int(2))
}

impl UnBounded for RosenbrockConst1 {

}

impl FixedDimensional for RosenbrockConst1 {
    open spec fn d_spec() -> usize {
        2
    }

    /// The required input length.
    fn d() -> (r: usize) {
        proof {
            assert(<RosenbrockConst1 as FixedDimensional>::d_spec() == 2);
        }
        2
    }
}

impl Constrained for RosenbrockConst1 {
    open spec fn nh_spec() -> usize {
        0
    }

    open spec fn ng_spec() -> usize {
        2
    }

    open spec fn c_require(x: Seq<Rational>) -> bool {
        x.len() == 2
    }

    open spec fn eq_vals(x: Seq<Rational>) -> Seq<(int, int)> {
        Seq::empty()
    }

    open spec fn eq_ok(x: Seq<Rational>) -> bool {
        true
    }

    open spec fn ineq_vals(x: Seq<Rational>) -> Seq<(int, int)> {
        seq![rc1_g1_val(x[0], x[1]), rc_line_val(x[0], x[1])]
    }

    open spec fn ineq_ok(x: Seq<Rational>) -> bool {
        rc1_g1_ok(x[0], x[1]) && rc_line_ok(x[0], x[1])
    }

    /// The number of equality constraints.
    fn nh() -> (r: usize) {
        proof {
            assert(<RosenbrockConst1 as Constrained>::nh_spec() == 0);
        }
        0
    }

    /// The number of inequality constraints.
    fn ng() -> (r: usize) {
        proof {
            assert(<RosenbrockConst1 as Constrained>::ng_spec() == 2);
        }
        2
    }

    /// There are no equality constraints; the result is always empty.
    fn equality_constraints(x: Vec<Rational>) -> (r: Result<Vec<Rational>, EvalError>) {
        proof {
            assert(<RosenbrockConst1 as Constrained>::eq_ok(x@));
            assert(<RosenbrockConst1 as Constrained>::eq_vals(x@) =~= Seq::<(int, int)>::empty());
            assert(<RosenbrockConst1 as Constrained>::nh_spec() == 0);
        }
        Ok(Vec::new())
    }

    /// Evaluates the cubic and the line constraints.
    fn inequality_constraints(x: Vec<Rational>) -> (r: Result<Vec<Rational>, EvalError>) {
        proof {
            assert(<RosenbrockConst1 as Constrained>::ineq_ok(x@) == (rc1_g1_ok(x@[0], x@[1])
                && rc_line_ok(x@[0], x@[1])));
            assert(<RosenbrockConst1 as Constrained>::ineq_vals(x@) == seq![
                rc1_g1_val(x@[0], x@[1]),
                rc_line_val(x@[0], x@[1]),
            ]);
            assert(<RosenbrockConst1 as Constrained>::ng_spec() == 2);
        }
        let g1 = match rc1_g1(x[0], x[1]) {
            Some(v) => v,
            None => {
                return Err(EvalError::NotExact);
            },
        };
        let g2 = match rc_line(x[0], x[1]) {
            Some(v) => v,
            None => {
                return Err(EvalError::NotExact);
            },
        };
        let mut fx: Vec<Rational> = Vec::new();
        fx.push(g1);
        fx.push(g2);
        Ok(fx)
    }
}

impl SingleObjective for RosenbrockConst1 {
    open spec fn dim_spec() -> Option<usize> {
        Some(2usize)
    }

    open spec fn minimum_spec() -> (int, int) {
        (0int, 1int)
    }

    open spec fn f_val(x: Seq<Rational>) -> (int, int) {
        rosen2_val(x[0], x[1])
    }

    open spec fn f_ok(x: Seq<Rational>) -> bool {
        rosen2_ok(x[0], x[1])
    }

    open spec fn minimizer_spec(n: nat) -> Seq<Rational> {
        const_seq(2, q1())
    }

    /// The global minimum is constant and zero.
    fn minimum() -> (r: Rational) {
        proof {
            assert(<RosenbrockConst1 as SingleObjective>::minimum_spec() == (0int, 1int));
        }
        Rational::from_int(0)
    }

    /// Function for evaluating; the input length must be exactly two.
    fn f(x: Vec<Rational>) -> (r: Result<Rational, EvalError>) {
        proof {
            assert(<RosenbrockConst1 as SingleObjective>::dim_spec() == Some(2usize));
        }
        if let Err(e) = RosenbrockConst1::check_input(&x) {
            return Err(e);
        }
        proof {
            assert(<RosenbrockConst1 as SingleObjective>::f_ok(x@) == rosen2_ok(x@[0], x@[1]));
            assert(<RosenbrockConst1 as SingleObjective>::f_val(x@) == rosen2_val(x@[0], x@[1]));
        }
        match rosen2(x[0], x[1]) {
            Some(v) => Ok(v),
            None => Err(EvalError::NotExact),
        }
    }

    /// This function returns the minimizer (argument that will return the
    /// global minimum); the dimension argument is ignored, the entry is
    /// two-dimensional.
    fn minimizer(n: usize) -> (r: Vec<Rational>) {
        let r = const_vec(Rational::from_int(1), 2);
        proof {
            assert(r@ == <RosenbrockConst1 as SingleObjective>::minimizer_spec(n as nat));
        }
        r
    }

    proof fn minimizer_attains(n: nat) {
        let z = const_seq(2, q1());
        assert(z[0] == q1() && z[1] == q1());
        lemma_rosen2_one();
        assert(<RosenbrockConst1 as SingleObjective>::minimizer_spec(n) == z);
        assert(seq_inv(z));
        assert(dim_accepts(<RosenbrockConst1 as SingleObjective>::dim_spec(), z.len()));
        assert(<RosenbrockConst1 as SingleObjective>::f_ok(z) == rosen2_ok(z[0], z[1]));
        assert(<RosenbrockConst1 as SingleObjective>::f_val(z) == rosen2_val(z[0], z[1]));
        assert(<RosenbrockConst1 as SingleObjective>::minimum_spec() == (0int, 1int));
    }
}

/// This is a constrained version of the Rosenbrock function, restricted to
/// two dimensions, with the disk `a^2 + b^2 <= 2` as its feasible region; a
/// point is feasible when the constraint value is at most zero.  The
/// minimum lies at `(1, 1)`.
pub struct RosenbrockConst2 {}

/// The disk constraint of `RosenbrockConst2`: `a^2 + b^2 - 2`.
pub open spec fn rc2_g1_val(a: Rational, b: Rational) -> (int, int) {
    pr_sub(pr_add(pr_mul(a.pair(), a.pair()), pr_mul(b.pair(), b.pair())), (2int, 1int))
}

/// Every intermediate of the disk constraint stays representable.
pub open spec fn rc2_g1_ok(a: Rational, b: Rational) -> bool {
    let a2 = pr_mul(a.pair(), a.pair());
    let b2 = pr_mul(b.pair(), b.pair());
    let s = pr_add(a2, b2);
    &&& fits(a2)
    &&& fits(b2)
    &&& fits(s)
    &&& fits(pr_sub(s, (2int, 1int)))
}

/// The disk constraint `a^2 + b^2 - 2`.
fn rc2_g1(a: Rational, b: Rational) -> (r: Option<Rational>)
    requires
        a.inv(),
        b.inv(),
    ensures
        r is Some <==> rc2_g1_ok(a, b),
        r matches Some(q) ==> q.pair() == rc2_g1_val(a, b) && q.inv(),
{
    let a2 = match a.mul(a) {
        Some(v) => v,
        None => {
            return None;
        },
    };
    let b2 = match b.mul(b) {
        Some(v) => v,
        None => {
            return None;
        },
    };
    let s = match a2.add(b2) {
        Some(v) => v,
        None => {
            return None;
        },
    };
    s.sub(Rational::from_int(2))
}

impl UnBounded for RosenbrockConst2 {

}

impl FixedDimensional for RosenbrockConst2 {
    open spec fn d_spec() -> usize {
        2
    }

    /// The required input length.
    fn d() -> (r: usize) {
        proof {
            assert(<RosenbrockConst2 as FixedDimensional>::d_spec() == 2);
        }
        2
    }
}

impl Constrained for RosenbrockConst2 {
    open spec fn nh_spec() -> usize {
        0
    }

    open spec fn ng_spec() -> usize {
        1
    }

    open spec fn c_require(x: Seq<Rational>) -> bool {
        x.len() == 2
    }

    open spec fn eq_vals(x: Seq<Rational>) -> Seq<(int, int)> {
        Seq::empty()
    }

    open spec fn eq_ok(x: Seq<Rational>) -> bool {
        true
    }

    open spec fn ineq_vals(x: Seq<Rational>) -> Seq<(int, int)> {
        seq![rc2_g1_val(x[0], x[1])]
    }

    open spec fn ineq_ok(x: Seq<Rational>) -> bool {
        rc2_g1_ok(x[0], x[1])
    }

    /// The number of equality constraints.
    fn nh() -> (r: usize) {
        proof {
            assert(<RosenbrockConst2 as Constrained>::nh_spec() == 0);
        }
        0
    }

    /// The number of inequality constraints.
    fn ng() -> (r: usize) {
        proof {
            assert(<RosenbrockConst2 as Constrained>::ng_spec() == 1);
        }
        1
    }

    /// There are no equality constraints; the result is always empty.
    fn equality_constraints(x: Vec<Rational>) -> (r: Result<Vec<Rational>, EvalError>) {
        proof {
            assert(<RosenbrockConst2 as Constrained>::eq_ok(x@));
            assert(<RosenbrockConst2 as Constrained>::eq_vals(x@) =~= Seq::<(int, int)>::empty());
            assert(<RosenbrockConst2 as Constrained>::nh_spec() == 0);
        }
        Ok(Vec::new())
    }

    /// Evaluates the disk constraint.
    fn inequality_constraints(x: Vec<Rational>) -> (r: Result<Vec<Rational>, EvalError>) {
        proof {
            assert(<RosenbrockConst2 as Constrained>::ineq_ok(x@) == rc2_g1_ok(x@[0], x@[1]));
            assert(<RosenbrockConst2 as Constrained>::ineq_vals(x@) == seq![
                rc2_g1_val(x@[0], x@[1]),
            ]);
            assert(<RosenbrockConst2 as Constrained>::ng_spec() == 1);
        }
        let g1 = match rc2_g1(x[0], x[1]) {
            Some(v) => v,
            None => {
                return Err(EvalError::NotExact);
            },
        };
        let mut fx: Vec<Rational> = Vec::new();
        fx.push(g1);
        Ok(fx)
    }
}

impl SingleObjective for RosenbrockConst2 {
    open spec fn dim_spec() -> Option<usize> {
        Some(2usize)
    }

    open spec fn minimum_spec() -> (int, int) {
        (0int, 1int)
    }

    open spec fn f_val(x: Seq<Rational>) -> (int, int) {
        rosen2_val(x[0], x[1])
    }

    open spec fn f_ok(x: Seq<Rational>) -> bool {
        rosen2_ok(x[0], x[1])
    }

    open spec fn minimizer_spec(n: nat) -> Seq<Rational> {
        const_seq(2, q1())
    }

    /// The global minimum is constant and zero.
    fn minimum() -> (r: Rational) {
        proof {
            assert(<RosenbrockConst2 as SingleObjective>::minimum_spec() == (0int, 1int));
        }
        Rational::from_int(0)
    }

    /// Function for evaluating; the input length must be exactly two.
    fn f(x: Vec<Rational>) -> (r: Result<Rational, EvalError>) {
        proof {
            assert(<RosenbrockConst2 as SingleObjective>::dim_spec() == Some(2usize));
        }
        if let Err(e) = RosenbrockConst2::check_input(&x) {
            return Err(e);
        }
        proof {
            assert(<RosenbrockConst2 as SingleObjective>::f_ok(x@) == rosen2_ok(x@[0], x@[1]));
            assert(<RosenbrockConst2 as SingleObjective>::f_val(x@) == rosen2_val(x@[0], x@[1]));
        }
        match rosen2(x[0], x[1]) {
            Some(v) => Ok(v),
            None => Err(EvalError::NotExact),
        }
    }

    /// This function returns the minimizer (argument that will return the
    /// global minimum); the dimension argument is ignored, the entry is
    /// two-dimensional.
    fn minimizer(n: usize) -> (r: Vec<Rational>) {
        let r = const_vec(Rational::from_int(1), 2);
        proof {
            assert(r@ == <RosenbrockConst2 as SingleObjective>::minimizer_spec(n as nat));
        }
        r
    }

    proof fn minimizer_attains(n: nat) {
        let z = const_seq(2, q1());
        assert(z[0] == q1() && z[1] == q1());
        lemma_rosen2_one();
        assert(<RosenbrockConst2 as SingleObjective>::minimizer_spec(n) == z);
        assert(seq_inv(z));
        assert(dim_accepts(<RosenbrockConst2 as SingleObjective>::dim_spec(), z.len()));
        assert(<RosenbrockConst2 as SingleObjective>::f_ok(z) == rosen2_ok(z[0], z[1]));
        assert(<RosenbrockConst2 as SingleObjective>::f_val(z) == rosen2_val(z[0], z[1]));
        assert(<RosenbrockConst2 as SingleObjective>::minimum_spec() == (0int, 1int));
    }
}

/// The shared exact-evaluation domain of the entries whose formula mixes
/// exponentials, cosines or square roots of the whole input: their exact
/// evaluators cover the all-zero vector, where the value is the declared
/// minimum.
pub open spec fn origin_only_ok(x: Seq<Rational>) -> bool {
    all_zero(x)
}

/// This is the Ackley function:
/// `-20 * exp(-0.2 * sqrt(0.5 * s)) - exp(c / n) + e + 20`, where `s` is
/// the sum of squares and `c` the sum of `cos(2 * pi * x[i])`.
///
/// At the all-zero vector the first exponential is `exp(0) == 1` and the
/// second equals the constant `e` that the formula adds back, so the value
/// is exactly `0`; that is the one input the exact evaluator covers, and
/// anywhere else it reports `NotExact`.
pub struct Ackley {}

impl NDimensional for Ackley {

}

impl UnConstrained for Ackley {

}

impl Bounded for Ackley {
    open spec fn bounds_spec() -> ((int, int), (int, int)) {
        ((-5int, 1int), (5int, 1int))
    }

    /// The bounds of the canonical optimization problem.
    fn bounds() -> (r: (Rational, Rational)) {
        proof {
            assert(<Ackley as Bounded>::bounds_spec() == ((-5int, 1int), (5int, 1int)));
        }
        (Rational::from_int(-5), Rational::from_int(5))
    }
}

impl SingleObjective for Ackley {
    open spec fn dim_spec() -> Option<usize> {
        None
    }

    open spec fn minimum_spec() -> (int, int) {
        (0int, 1int)
    }

    open spec fn f_val(x: Seq<Rational>) -> (int, int) {
        (0int, 1int)
    }

    open spec fn f_ok(x: Seq<Rational>) -> bool {
        origin_only_ok(x)
    }

    open spec fn minimizer_spec(n: nat) -> Seq<Rational> {
        const_seq(n, q0())
    }

    /// The global minimum is constant and zero.
    fn minimum() -> (r: Rational) {
        proof {
            assert(<Ackley as SingleObjective>::minimum_spec() == (0int, 1int));
        }
        Rational::from_int(0)
    }

    /// Function for evaluating.
    fn f(x: Vec<Rational>) -> (r: Result<Rational, EvalError>) {
        proof {
            assert(<Ackley as SingleObjective>::f_ok(x@) == all_zero(x@));
            assert(<Ackley as SingleObjective>::f_val(x@) == (0int, 1int));
            assert(<Ackley as SingleObjective>::dim_spec() is None);
        }
        if check_all_zero(&x) {
            Ok(Rational::from_int(0))
        } else {
            Err(EvalError::NotExact)
        }
    }

    /// This function returns the minimizer (argument that will return the
    /// global minimum).
    fn minimizer(n: usize) -> (r: Vec<Rational>) {
        let r = const_vec(Rational::from_int(0), n);
        proof {
            assert(r@ == <Ackley as SingleObjective>::minimizer_spec(n as nat));
        }
        r
    }

    proof fn minimizer_attains(n: nat) {
        let z = const_seq(n, q0());
        assert(forall|i: int| 0 <= i < n ==> z[i] == q0());
        assert(<Ackley as SingleObjective>::minimizer_spec(n) == z);
        assert(seq_inv(z));
        assert(all_zero(z));
        assert(dim_accepts(<Ackley as SingleObjective>::dim_spec(), z.len()));
        assert(<Ackley as SingleObjective>::f_ok(z) == all_zero(z));
        assert(<Ackley as SingleObjective>::f_val(z) == (0int, 1int));
        assert(<Ackley as SingleObjective>::minimum_spec() == (0int, 1int));
    }
}

/// This is the Griewank function:
/// `1 + s / 4000 - prod(cos(x[i] / sqrt(i + 1)))`, where `s` is the sum of
/// squares.
///
/// At the all-zero vector each cosine factor is `cos(0) == 1` and the
/// value is exactly `0`; that is the one input the exact evaluator covers,
/// and anywhere else it reports `NotExact`.
pub struct Griewank {}

impl NDimensional for Griewank {

}

impl UnConstrained for Griewank {

}

impl Bounded for Griewank {
    open spec fn bounds_spec() -> ((int, int), (int, int)) {
        ((-600int, 1int), (600int, 1int))
    }

    /// The bounds of the canonical optimization problem.
    fn bounds() -> (r: (Rational, Rational)) {
        proof {
            assert(<Griewank as Bounded>::bounds_spec() == ((-600int, 1int), (600int, 1int)));
        }
        (Rational::from_int(-600), Rational::from_int(600))
    }
}

impl SingleObjective for Griewank {
    open spec fn dim_spec() -> Option<usize> {
        None
    }

    open spec fn minimum_spec() -> (int, int) {
        (0int, 1int)
    }

    open spec fn f_val(x: Seq<Rational>) -> (int, int) {
        (0int, 1int)
    }

    open spec fn f_ok(x: Seq<Rational>) -> bool {
        origin_only_ok(x)
    }

    open spec fn minimizer_spec(n: nat) -> Seq<Rational> {
        const_seq(n, q0())
    }

    /// The global minimum is constant and zero.
    fn minimum() -> (r: Rational) {
        proof {
            assert(<Griewank as SingleObjective>::minimum_spec() == (0int, 1int));
        }
        Rational::from_int(0)
    }

    /// Function for evaluating.
    fn f(x: Vec<Rational>) -> (r: Result<Rational, EvalError>) {
        proof {
            assert(<Griewank as SingleObjective>::f_ok(x@) == all_zero(x@));
            assert(<Griewank as SingleObjective>::f_val(x@) == (0int, 1int));
            assert(<Griewank as SingleObjective>::dim_spec() is None);
        }
        if check_all_zero(&x) {
            Ok(Rational::from_int(0))
        } else {
            Err(EvalError::NotExact)
        }
    }

    /// This function returns the minimizer (argument that will return the
    /// global minimum).
    fn minimizer(n: usize) -> (r: Vec<Rational>) {
        let r = const_vec(Rational::from_int(0), n);
        proof {
            assert(r@ == <Griewank as SingleObjective>::minimizer_spec(n as nat));
        }
        r
    }

    proof fn minimizer_attains(n: nat) {
        let z = const_seq(n, q0());
        assert(forall|i: int| 0 <= i < n ==> z[i] == q0());
        assert(<Griewank as SingleObjective>::minimizer_spec(n) == z);
        assert(seq_inv(z));
        assert(all_zero(z));
        assert(dim_accepts(<Griewank as SingleObjective>::dim_spec(), z.len()));
        assert(<Griewank as SingleObjective>::f_ok(z) == all_zero(z));
        assert(<Griewank as SingleObjective>::f_val(z) == (0int, 1int));
        assert(<Griewank as SingleObjective>::minimum_spec() == (0int, 1int));
    }
}

/// This is the Salomon function:
/// `1 - cos(2 * pi * sqrt(s)) + 0.1 * sqrt(s)`, where `s` is the sum of
/// squares.
///
/// The cosine has an exact rational value when `sqrt(s)` is a half-integer
/// `k / 2`: the value is then `1 - cos(pi * k) + 0.1 * (k / 2)`, with the
/// cosine `1` for even `k` and `-1` for odd `k`.  The exact evaluator
/// covers exactly those inputs — the all-zero minimizer among them — and
/// reports `NotExact` elsewhere.
pub struct Salomon {}

/// The square of an integer.
pub open spec fn sq_i(k: int) -> int {
    k * k
}

/// The square sum `s` has a half-integer square root `k / 2`, i.e.
/// `(k / 2)^2 == s`, cleared of denominators.
pub open spec fn half_radius_exists(s: (int, int)) -> bool {
    exists|k: int| 0 <= k && #[trigger] sq_i(k) * s.1 == 4 * s.0
}

/// The count `k` with `sqrt(s) == k / 2`; when such a `k` exists it is
/// unique.
pub open spec fn half_radius(s: (int, int)) -> int {
    choose|k: int| 0 <= k && #[trigger] sq_i(k) * s.1 == 4 * s.0
}

/// The exact Salomon value for a square sum `s` with `sqrt(s) == k / 2`:
/// `1 - cos(pi * k) + 0.1 * (k / 2)`.
pub open spec fn salomon_val_of(s: (int, int)) -> (int, int) {
    let k = half_radius(s);
    let c = if k % 2 == 0 {
        1int
    } else {
        -1int
    };
    pr_add(pr_sub((1int, 1int), (c, 1int)), pr_mul((1int, 10int), (k, 2int)))
}

/// The Salomon evaluation is exact: the square sum is representable and
/// its square root is a half-integer.
pub open spec fn salomon_ok(x: Seq<Rational>) -> bool {
    sq_sum_ok(x, x.len()) && half_radius_exists(sq_sum_val(x, x.len()))
}

proof fn lemma_half_radius_unique(s: (int, int), k1: int, k2: int)
    requires
        s.1 >= 1,
        0 <= k1,
        0 <= k2,
        sq_i(k1) * s.1 == 4 * s.0,
        sq_i(k2) * s.1 == 4 * s.0,
    ensures
        k1 == k2,
{
    assert(k1 == k2) by (nonlinear_arith)
        requires
            s.1 >= 1,
            0 <= k1,
            0 <= k2,
            (k1 * k1) * s.1 == 4 * s.0,
            (k2 * k2) * s.1 == 4 * s.0,
    ;
}

/// A sum of squares is nonnegative, with a positive denominator.
proof fn lemma_sq_sum_nonneg(x: Seq<Rational>, k: nat)
    requires
        forall|i: int| 0 <= i < k ==> x[i].inv(),
    ensures
        0 <= sq_sum_val(x, k).0,
        1 <= sq_sum_val(x, k).1,
    decreases k,
{
    if k > 0 {
        lemma_sq_sum_nonneg(x, (k - 1) as nat);
        let p = x[k - 1].pair();
        let prev = sq_sum_val(x, (k - 1) as nat);
        assert(p.0 * p.0 >= 0 && p.1 * p.1 >= 1) by (nonlinear_arith)
            requires
                p.1 >= 1,
        ;
        lemma_norm_nonneg(p.0 * p.0, p.1 * p.1);
        let sq = pr_mul(p, p);
        assert(prev.0 * sq.1 + sq.0 * prev.1 >= 0 && prev.1 * sq.1 >= 1) by (nonlinear_arith)
            requires
                prev.0 >= 0,
                prev.1 >= 1,
                sq.0 >= 0,
                sq.1 >= 1,
        ;
        lemma_norm_nonneg(prev.0 * sq.1 + sq.0 * prev.1, prev.1 * sq.1);
    }
}

/// When a half-integer root exists for a representable square sum, the
/// count is small and the exact Salomon value always fits.
proof fn lemma_salomon_val_fits(s: (int, int))
    requires
        0 <= s.0 <= 0x7fff_ffff_ffff_ffff,
        1 <= s.1 <= 0x7fff_ffff_ffff_ffff,
        half_radius_exists(s),
    ensures
        0 <= half_radius(s) <= 0x2_0000_0000,
        sq_i(half_radius(s)) * s.1 == 4 * s.0,
        fits(pr_mul((1int, 10int), (half_radius(s), 2int))),
        fits(salomon_val_of(s)),
{
    let k = half_radius(s);
    assert(0 <= k && sq_i(k) * s.1 == 4 * s.0);
    assert(k <= 0x2_0000_0000) by (nonlinear_arith)
        requires
            0 <= k,
            (k * k) * s.1 == 4 * s.0,
            s.1 >= 1,
            s.0 <= 0x7fff_ffff_ffff_ffff,
    ;
    let c = if k % 2 == 0 {
        1int
    } else {
        -1int
    };
    lemma_pr_int_ops(1, c);
    assert(pr_sub((1int, 1int), (c, 1int)) == (1 - c, 1int));
    lemma_norm_nonneg(1 * k, 20int);
    let m = pr_mul((1int, 10int), (k, 2int));
    assert(m.0 >= 0 && m.0 <= k && 1 <= m.1 <= 20);
    assert((1 - c) * m.1 + m.0 * 1 >= 0 && (1 - c) * m.1 + m.0 * 1 <= 40 + k && 1 * m.1 >= 1)
        by (nonlinear_arith)
        requires
            0 <= 1 - c <= 2,
            0 <= m.0 <= k,
            1 <= m.1 <= 20,
            0 <= k,
    ;
    lemma_norm_nonneg((1 - c) * m.1 + m.0 * 1, 1 * m.1);
}

impl NDimensional for Salomon {

}

impl UnConstrained for Salomon {

}

impl Bounded for Salomon {
    open spec fn bounds_spec() -> ((int, int), (int, int)) {
        ((-100int, 1int), (100int, 1int))
    }

    /// The bounds of the canonical optimization problem.
    fn bounds() -> (r: (Rational, Rational)) {
        proof {
            assert(<Salomon as Bounded>::bounds_spec() == ((-100int, 1int), (100int, 1int)));
        }
        (Rational::from_int(-100), Rational::from_int(100))
    }
}

impl SingleObjective for Salomon {
    open spec fn dim_spec() -> Option<usize> {
        None
    }

    open spec fn minimum_spec() -> (int, int) {
        (0int, 1int)
    }

    open spec fn f_val(x: Seq<Rational>) -> (int, int) {
        salomon_val_of(sq_sum_val(x, x.len()))
    }

    open spec fn f_ok(x: Seq<Rational>) -> bool {
        salomon_ok(x)
    }

    open spec fn minimizer_spec(n: nat) -> Seq<Rational> {
        const_seq(n, q0())
    }

    /// The global minimum is constant and zero.
    fn minimum() -> (r: Rational) {
        proof {
            assert(<Salomon as SingleObjective>::minimum_spec() == (0int, 1int));
        }
        Rational::from_int(0)
    }

    /// Function for evaluating.
    fn f(x: Vec<Rational>) -> (r: Result<Rational, EvalError>) {
        proof {
            assert(<Salomon as SingleObjective>::f_ok(x@) == salomon_ok(x@));
            assert(<Salomon as SingleObjective>::f_val(x@) == salomon_val_of(
                sq_sum_val(x@, x@.len()),
            ));
            assert(<Salomon as SingleObjective>::dim_spec() is None);
        }
        let ghost s = sq_sum_val(x@, x@.len());
        let mut square_sum: Rational = Rational::from_int(0);
        let mut i: usize = 0;
        while i < x.len()
            invariant
                0 <= i <= x@.len(),
                seq_inv(x@),
                sq_sum_ok(x@, i as nat),
                square_sum.inv(),
                square_sum.pair() == sq_sum_val(x@, i as nat),
            decreases x@.len() - i,
        {
            let xi = x[i];
            let step: Option<Rational> = match xi.mul(xi) {
                Some(sq) => square_sum.add(sq),
                None => None,
            };
            match step {
                Some(next) => {
                    square_sum = next;
                },
                None => {
                    proof {
                        if sq_sum_ok(x@, x@.len()) {
                            lemma_sq_sum_prefix(x@, i as nat + 1, x@.len());
                        }
                    }
                    return Err(EvalError::NotExact);
                },
            }
            i = i + 1;
        }
        proof {
            lemma_sq_sum_nonneg(x@, x@.len());
        }
        let t: u128 = 4u128 * (square_sum.num as u128);
        let d: u128 = square_sum.den as u128;
        if t % d != 0 {
            proof {
                if half_radius_exists(s) {
                    let k = choose|k: int| 0 <= k && #[trigger] sq_i(k) * s.1 == 4 * s.0;
                    lemma_mod_multiples_basic(k * k, s.1);
                }
            }
            return Err(EvalError::NotExact);
        }
        let q: u128 = t / d;
        proof {
            lemma_exact_div(t as int, d as int);
            assert(q as int * d as int == t as int) by (nonlinear_arith)
                requires
                    t as int == d as int * (t as int / d as int),
                    q as int == t as int / d as int,
            ;
            assert(q < 0x4_0000_0000_0000_0000u128) by (nonlinear_arith)
                requires
                    q as int * d as int == t as int,
                    d as int >= 1,
                    q >= 0,
                    t < 0x4_0000_0000_0000_0000u128,
            ;
        }
        let root = isqrt_u(q);
        if root * root != q {
            proof {
                if half_radius_exists(s) {
                    let k = choose|k: int| 0 <= k && #[trigger] sq_i(k) * s.1 == 4 * s.0;
                    let ri = root as int;
                    let qi = q as int;
                    assert(k * k == qi) by (nonlinear_arith)
                        requires
                            (k * k) * s.1 == 4 * s.0,
                            qi * s.1 == 4 * s.0,
                            s.1 >= 1,
                    ;
                    assert(ri <= k) by (nonlinear_arith)
                        requires
                            0 <= ri,
                            0 <= k,
                            ri * ri <= k * k,
                    ;
                    assert(k <= ri) by (nonlinear_arith)
                        requires
                            0 <= k,
                            0 <= ri,
                            k * k < (ri + 1) * (ri + 1),
                    ;
                    assert(ri * ri == qi);
                }
            }
            return Err(EvalError::NotExact);
        }
        proof {
            assert(sq_i(root as int) * s.1 == 4 * s.0) by (nonlinear_arith)
                requires
                    sq_i(root as int) == root as int * root as int,
                    root as int * root as int == q as int,
                    q as int * s.1 == t as int,
                    4 * s.0 == t as int,
            ;
            assert(half_radius_exists(s));
            lemma_salomon_val_fits(s);
            lemma_half_radius_unique(s, half_radius(s), root as int);
            lemma_pr_int_ops(1, 1);
            lemma_pr_int_ops(1, -1);
        }
        let c: Rational = if root % 2 == 0 {
            Rational::from_int(1)
        } else {
            Rational::from_int(-1)
        };
        let t1 = Rational::from_int(1).sub(c).unwrap();
        let m = Rational::new(1, 10).mul(Rational::new(root as i64, 2)).unwrap();
        let v = t1.add(m).unwrap();
        Ok(v)
    }

    /// This function returns the minimizer (argument that will return the
    /// global minimum).
    fn minimizer(n: usize) -> (r: Vec<Rational>) {
        let r = const_vec(Rational::from_int(0), n);
        proof {
            assert(r@ == <Salomon as SingleObjective>::minimizer_spec(n as nat));
        }
        r
    }

    proof fn minimizer_attains(n: nat) {
        let z = const_seq(n, q0());
        assert(forall|i: int| 0 <= i < n ==> z[i] == q0());
        lemma_sq_sum_zeros(z, n);
        let s = sq_sum_val(z, n);
        assert(s == (0int, 1int));
        assert(sq_i(0) * s.1 == 4 * s.0);
        assert(half_radius_exists(s));
        lemma_half_radius_unique(s, half_radius(s), 0);
        lemma_pr_int_ops(1, 1);
        lemma_norm_zero(20);
        assert(pr_mul((1int, 10int), (0int, 2int)) == (0int, 1int));
        lemma_pr_int_ops(0, 0);
        assert(salomon_val_of(s) == (0int, 1int));
        assert(<Salomon as SingleObjective>::minimizer_spec(n) == z);
        assert(seq_inv(z));
        assert(dim_accepts(<Salomon as SingleObjective>::dim_spec(), z.len()));
        assert(<Salomon as SingleObjective>::f_ok(z) == salomon_ok(z));
        assert(<Salomon as SingleObjective>::f_val(z) == salomon_val_of(s));
        assert(<Salomon as SingleObjective>::minimum_spec() == (0int, 1int));
    }
}

/// Law: the all-zero vector of any length lies within the bounds of every
/// bounded entry of this module.
pub proof fn lemma_zeros_in_bounds_single(x: Seq<Rational>)
    requires
        seq_inv(x),
        all_zero(x),
    ensures
        within(
            <Rastrigin as Bounded>::bounds_spec().0,
            <Rastrigin as Bounded>::bounds_spec().1,
            x,
        ),
        within(
            <Rosenbrock as Bounded>::bounds_spec().0,
            <Rosenbrock as Bounded>::bounds_spec().1,
            x,
        ),
        within(<Ackley as Bounded>::bounds_spec().0, <Ackley as Bounded>::bounds_spec().1, x),
        within(<Matyas as Bounded>::bounds_spec().0, <Matyas as Bounded>::bounds_spec().1, x),
        within(
            <Griewank as Bounded>::bounds_spec().0,
            <Griewank as Bounded>::bounds_spec().1,
            x,
        ),
        within(<Ridge as Bounded>::bounds_spec().0, <Ridge as Bounded>::bounds_spec().1, x),
        within(
            <Zakharov as Bounded>::bounds_spec().0,
            <Zakharov as Bounded>::bounds_spec().1,
            x,
        ),
        within(<Salomon as Bounded>::bounds_spec().0, <Salomon as Bounded>::bounds_spec().1, x),
{
    assert(<Rastrigin as Bounded>::bounds_spec() == ((-512int, 100int), (512int, 100int)));
    assert(<Rosenbrock as Bounded>::bounds_spec() == ((-5int, 1int), (10int, 1int)));
    assert(<Ackley as Bounded>::bounds_spec() == ((-5int, 1int), (5int, 1int)));
    assert(<Matyas as Bounded>::bounds_spec() == ((-10int, 1int), (10int, 1int)));
    assert(<Griewank as Bounded>::bounds_spec() == ((-600int, 1int), (600int, 1int)));
    assert(<Ridge as Bounded>::bounds_spec() == ((-5int, 1int), (5int, 1int)));
    assert(<Zakharov as Bounded>::bounds_spec() == ((-5int, 1int), (10int, 1int)));
    assert(<Salomon as Bounded>::bounds_spec() == ((-100int, 1int), (100int, 1int)));
    lemma_zero_vector_in_bounds((-512int, 100int), (512int, 100int), x);
    lemma_zero_vector_in_bounds((-5int, 1int), (10int, 1int), x);
    lemma_zero_vector_in_bounds((-5int, 1int), (5int, 1int), x);
    lemma_zero_vector_in_bounds((-10int, 1int), (10int, 1int), x);
    lemma_zero_vector_in_bounds((-600int, 1int), (600int, 1int), x);
    lemma_zero_vector_in_bounds((-100int, 1int), (100int, 1int), x);
}

/// Law: for every bounded entry of this module, a vector with one
/// coordinate set to one past the upper bound lies outside the bounds.
pub proof fn lemma_past_high_not_in_bounds_single(x: Seq<Rational>, i: int)
    requires
        0 <= i < x.len(),
    ensures
        x[i].pair() == pr_add((512int, 100int), (1int, 1int)) ==> !within(
            <Rastrigin as Bounded>::bounds_spec().0,
            <Rastrigin as Bounded>::bounds_spec().1,
            x,
        ),
        x[i].pair() == pr_add((10int, 1int), (1int, 1int)) ==> !within(
            <Rosenbrock as Bounded>::bounds_spec().0,
            <Rosenbrock as Bounded>::bounds_spec().1,
            x,
        ) && !within(
            <Zakharov as Bounded>::bounds_spec().0,
            <Zakharov as Bounded>::bounds_spec().1,
            x,
        ),
        x[i].pair() == pr_add((5int, 1int), (1int, 1int)) ==> !within(
            <Ackley as Bounded>::bounds_spec().0,
            <Ackley as Bounded>::bounds_spec().1,
            x,
        ) && !within(<Ridge as Bounded>::bounds_spec().0, <Ridge as Bounded>::bounds_spec().1, x),
        x[i].pair() == pr_add((600int, 1int), (1int, 1int)) ==> !within(
            <Griewank as Bounded>::bounds_spec().0,
            <Griewank as Bounded>::bounds_spec().1,
            x,
        ),
        x[i].pair() == pr_add((100int, 1int), (1int, 1int)) ==> !within(
            <Salomon as Bounded>::bounds_spec().0,
            <Salomon as Bounded>::bounds_spec().1,
            x,
        ),
        x[i].pair() == pr_add((10int, 1int), (1int, 1int)) ==> !within(
            <Matyas as Bounded>::bounds_spec().0,
            <Matyas as Bounded>::bounds_spec().1,
            x,
        ),
{
    assert(<Rastrigin as Bounded>::bounds_spec() == ((-512int, 100int), (512int, 100int)));
    assert(<Rosenbrock as Bounded>::bounds_spec() == ((-5int, 1int), (10int, 1int)));
    assert(<Ackley as Bounded>::bounds_spec() == ((-5int, 1int), (5int, 1int)));
    assert(<Matyas as Bounded>::bounds_spec() == ((-10int, 1int), (10int, 1int)));
    assert(<Griewank as Bounded>::bounds_spec() == ((-600int, 1int), (600int, 1int)));
    assert(<Ridge as Bounded>::bounds_spec() == ((-5int, 1int), (5int, 1int)));
    assert(<Zakharov as Bounded>::bounds_spec() == ((-5int, 1int), (10int, 1int)));
    assert(<Salomon as Bounded>::bounds_spec() == ((-100int, 1int), (100int, 1int)));
    lemma_plus_one_above((512int, 100int));
    lemma_plus_one_above((10int, 1int));
    lemma_plus_one_above((5int, 1int));
    lemma_plus_one_above((600int, 1int));
    lemma_plus_one_above((100int, 1int));
    if x[i].pair() == pr_add((512int, 100int), (1int, 1int)) {
        lemma_above_high_not_in_bounds((-512int, 100int), (512int, 100int), x, i);
    }
    if x[i].pair() == pr_add((10int, 1int), (1int, 1int)) {
        lemma_above_high_not_in_bounds((-5int, 1int), (10int, 1int), x, i);
        lemma_above_high_not_in_bounds((-10int, 1int), (10int, 1int), x, i);
    }
    if x[i].pair() == pr_add((5int, 1int), (1int, 1int)) {
        lemma_above_high_not_in_bounds((-5int, 1int), (5int, 1int), x, i);
    }
    if x[i].pair() == pr_add((600int, 1int), (1int, 1int)) {
        lemma_above_high_not_in_bounds((-600int, 1int), (600int, 1int), x, i);
    }
    if x[i].pair() == pr_add((100int, 1int), (1int, 1int)) {
        lemma_above_high_not_in_bounds((-100int, 1int), (100int, 1int), x, i);
    }
}

} // verus!
