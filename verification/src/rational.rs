//! Exact rational scalars.
//!
//! Every number that flows through the catalog is a rational `num / den`
//! with `den >= 1`.  Arithmetic is exact: an operation either returns the
//! mathematically exact result, reduced to lowest terms, or reports that the
//! reduced result does not fit the fixed-width representation.

use vstd::prelude::*;
use vstd::arithmetic::div_mod::{
    lemma_fundamental_div_mod, lemma_mod_self_0, lemma_small_mod, lemma_mod_multiples_vanish,
    lemma_div_multiples_vanish, lemma_mod_division_less_than_divisor, lemma_mod_multiples_basic,
    lemma_div_pos_is_pos,
};

verus! {

/// An exact rational number `num / den`; well-formed values have `den >= 1`.
#[derive(Clone, Copy, Debug, PartialEq, Eq, Structural)]
pub struct Rational {
    pub num: i64,
    pub den: i64,
}

/// Greatest common divisor, by Euclid's algorithm.
pub open spec fn gcd(a: nat, b: nat) -> nat
    decreases b,
{
    if b == 0 {
        a
    } else {
        gcd(b, a % b)
    }
}

/// Absolute value of an integer, as a natural number.
pub open spec fn abs_n(n: int) -> nat {
    if n >= 0 {
        n as nat
    } else {
        (-n) as nat
    }
}

/// A rational as a pair (numerator, denominator) of unbounded integers.
pub open spec fn norm(n: int, d: int) -> (int, int)
    recommends
        d >= 1,
{
    let g = gcd(abs_n(n), d as nat) as int;
    (n / g, d / g)
}

/// Whether a numerator/denominator pair fits the fixed-width representation.
pub open spec fn fits(p: (int, int)) -> bool {
    &&& -0x8000_0000_0000_0000 <= p.0 <= 0x7fff_ffff_ffff_ffff
    &&& 1 <= p.1 <= 0x7fff_ffff_ffff_ffff
}

/// The two pairs denote the same rational number (denominators positive).
pub open spec fn pr_eq(a: (int, int), b: (int, int)) -> bool {
    a.0 * b.1 == b.0 * a.1
}

/// The rational `a` is at most the rational `b` (denominators positive).
pub open spec fn pr_le(a: (int, int), b: (int, int)) -> bool {
    a.0 * b.1 <= b.0 * a.1
}

/// The rational `a` is strictly below the rational `b` (denominators positive).
pub open spec fn pr_lt(a: (int, int), b: (int, int)) -> bool {
    a.0 * b.1 < b.0 * a.1
}

/// Exact sum of two rational pairs, in lowest terms.
pub open spec fn pr_add(a: (int, int), b: (int, int)) -> (int, int) {
    norm(a.0 * b.1 + b.0 * a.1, a.1 * b.1)
}

/// Exact difference of two rational pairs, in lowest terms.
pub open spec fn pr_sub(a: (int, int), b: (int, int)) -> (int, int) {
    norm(a.0 * b.1 - b.0 * a.1, a.1 * b.1)
}

/// Exact product of two rational pairs, in lowest terms.
pub open spec fn pr_mul(a: (int, int), b: (int, int)) -> (int, int) {
    norm(a.0 * b.0, a.1 * b.1)
}

proof fn lemma_gcd_pos(a: nat, b: nat)
    requires
        a > 0 || b > 0,
    ensures
        gcd(a, b) >= 1,
    decreases b,
{
    if b == 0 {
    } else {
        lemma_mod_division_less_than_divisor(a as int, b as int);
        lemma_gcd_pos(b, a % b);
    }
}

proof fn lemma_gcd_divides(a: nat, b: nat)
    requires
        gcd(a, b) > 0,
    ensures
        a % gcd(a, b) == 0,
        b % gcd(a, b) == 0,
    decreases b,
{
    let g = gcd(a, b);
    if b == 0 {
        lemma_mod_self_0(a as int);
        lemma_small_mod(0, a);
    } else {
        lemma_mod_division_less_than_divisor(a as int, b as int);
        lemma_gcd_divides(b, a % b);
        // a == b * (a / b) + a % b, and g divides both b and a % b.
        lemma_fundamental_div_mod(a as int, b as int);
        lemma_fundamental_div_mod(b as int, g as int);
        let qb = b as int / g as int;
        assert(b as int == g as int * qb);
        assert(a as int == g as int * (qb * (a as int / b as int)) + (a % b) as int)
            by (nonlinear_arith)
            requires
                a as int == b as int * (a as int / b as int) + (a % b) as int,
                b as int == g as int * qb,
        ;
        lemma_mod_multiples_vanish(qb * (a as int / b as int), (a % b) as int, g as int);
    }
}

/// An exact divisor can be cancelled: if `x % g == 0` then `x == g * (x / g)`.
pub proof fn lemma_exact_div(x: int, g: int)
    requires
        g >= 1,
        x % g == 0,
    ensures
        x == g * (x / g),
{
    lemma_fundamental_div_mod(x, g);
}

/// Normalizing a pair keeps its denominator positive and its rational value.
pub proof fn lemma_norm(n: int, d: int)
    requires
        d >= 1,
    ensures
        1 <= norm(n, d).1 <= d,
        norm(n, d).0 * d == n * norm(n, d).1,
        abs_n(norm(n, d).0) <= abs_n(n),
        1 <= gcd(abs_n(n), d as nat) <= d,
        n % (gcd(abs_n(n), d as nat) as int) == 0,
        d % (gcd(abs_n(n), d as nat) as int) == 0,
        norm(n, d).1 == d / (gcd(abs_n(n), d as nat) as int),
        n >= 0 ==> norm(n, d).0 == abs_n(n) as int / (gcd(abs_n(n), d as nat) as int),
        n < 0 ==> norm(n, d).0 == -(abs_n(n) as int / (gcd(abs_n(n), d as nat) as int)),
{
    let a = abs_n(n);
    lemma_gcd_pos(a, d as nat);
    lemma_gcd_divides(a, d as nat);
    let g = gcd(a, d as nat) as int;
    assert(a as int % g == 0);
    assert(d % g == 0);
    lemma_exact_div(d, g);
    let qd = d / g;
    // d == g * qd with d >= 1 and g >= 1 forces 1 <= qd <= d.
    assert(1 <= qd <= d && g <= d) by (nonlinear_arith)
        requires
            d == g * qd,
            d >= 1,
            g >= 1,
    ;
    if n >= 0 {
        lemma_exact_div(n, g);
    } else {
        lemma_exact_div(-n, g);
        // -n == g * ((-n) / g), so n == g * (-((-n) / g)); division is exact.
        let qm = (-n) / g;
        assert(n == g * (-qm)) by (nonlinear_arith)
            requires
                -n == g * qm,
        ;
        lemma_mod_multiples_basic(-qm, g);
        lemma_div_multiples_vanish(-qm, g);
        assert((g * (-qm)) / g == -qm);
        assert(n / g == -qm);
    }
    let qn = n / g;
    assert(n == g * qn);
    assert(qn * d == n * qd) by (nonlinear_arith)
        requires
            n == g * qn,
            d == g * qd,
    ;
    assert(abs_n(qn) <= abs_n(n)) by (nonlinear_arith)
        requires
            n == g * qn,
            g >= 1,
    ;
}

/// Normalizing any representation of zero yields `(0, 1)`.
pub proof fn lemma_norm_zero(d: int)
    requires
        d >= 1,
    ensures
        norm(0, d) == (0int, 1int),
{
    lemma_small_mod(0, d as nat);
    assert(gcd(0, d as nat) == gcd(d as nat, 0));
    lemma_norm(0, d);
    let g = gcd(0, d as nat) as int;
    assert(g == d);
    assert(0int / g == 0) by {
        lemma_small_mod(0, g as nat);
        lemma_exact_div(0, g);
        assert(0int == g * (0int / g));
        assert(0int / g == 0) by (nonlinear_arith)
            requires
                0int == g * (0int / g),
                g >= 1,
        ;
    }
    lemma_exact_div(d, g);
    assert(d / g == 1) by (nonlinear_arith)
        requires
            d == g * (d / g),
            g == d,
            d >= 1,
    ;
}

/// Normalizing an integer representation `(k, 1)` leaves it unchanged.
pub proof fn lemma_norm_int(k: int)
    ensures
        norm(k, 1) == (k, 1int),
{
    lemma_norm(k, 1);
    let g = gcd(abs_n(k), 1nat) as int;
    assert(norm(k, 1).1 == 1);
    assert(norm(k, 1).0 * 1 == k * norm(k, 1).1);
}

/// The value is an integer multiple of one half.
pub open spec fn is_half_int(q: Rational) -> bool {
    (2 * q.num) % (q.den as int) == 0
}

/// The integer `k` with `q == k / 2`; meaningful when `is_half_int(q)`.
pub open spec fn half_count(q: Rational) -> int {
    (2 * q.num) / (q.den as int)
}

/// The cosine of `2 * pi * q` for a half-integer `q`: `1` on even counts
/// (whole turns), `-1` on odd counts (half turns).
pub open spec fn cos2pi_half(q: Rational) -> int {
    if half_count(q) % 2 == 0 {
        1int
    } else {
        -1int
    }
}

/// Divisibility is insensitive to sign.
proof fn lemma_mod_abs(a: int, d: int)
    requires
        d >= 1,
    ensures
        (a % d == 0) <==> (abs_n(a) as int % d == 0),
{
    if a < 0 {
        if a % d == 0 {
            lemma_exact_div(a, d);
            lemma_mod_multiples_basic(-(a / d), d);
            assert(-a == -(a / d) * d) by (nonlinear_arith)
                requires
                    a == d * (a / d),
            ;
        }
        if (-a) % d == 0 {
            lemma_exact_div(-a, d);
            lemma_mod_multiples_basic(-((-a) / d), d);
            assert(a == -((-a) / d) * d) by (nonlinear_arith)
                requires
                    -a == d * ((-a) / d),
            ;
        }
    }
}

/// Exact division is insensitive to sign: the quotient of `a` is the signed
/// quotient of its magnitude.
proof fn lemma_div_abs(a: int, d: int)
    requires
        d >= 1,
        a % d == 0,
    ensures
        a >= 0 ==> a / d == abs_n(a) as int / d,
        a < 0 ==> a / d == -(abs_n(a) as int / d),
{
    if a < 0 {
        lemma_mod_abs(a, d);
        lemma_exact_div(a, d);
        let q = a / d;
        assert(-a == d * (-q)) by (nonlinear_arith)
            requires
                a == d * q,
        ;
        lemma_div_multiples_vanish(-q, d);
    }
}

/// Parity is insensitive to sign.
proof fn lemma_parity_neg(x: int)
    ensures
        ((-x) % 2 == 0) <==> (x % 2 == 0),
{
    if x % 2 == 0 {
        lemma_exact_div(x, 2);
        lemma_mod_multiples_basic(-(x / 2), 2);
        assert(-x == -(x / 2) * 2) by (nonlinear_arith)
            requires
                x == 2 * (x / 2),
        ;
    }
    if (-x) % 2 == 0 {
        lemma_exact_div(-x, 2);
        lemma_mod_multiples_basic(-((-x) / 2), 2);
        assert(x == -((-x) / 2) * 2) by (nonlinear_arith)
            requires
                -x == 2 * ((-x) / 2),
        ;
    }
}

impl Rational {
    /// Decides whether the value is a half-integer `k / 2` and, if so,
    /// returns the exact cosine of one full turn scaled by it:
    /// `cos(2 * pi * (k / 2))`, which is `1` for even `k` and `-1` for odd
    /// `k`.  Off that lattice the call reports `None`.
    pub fn cos_two_pi_half(self) -> (r: Option<Rational>)
        requires
            self.inv(),
        ensures
            r is Some <==> is_half_int(self),
            r matches Some(c) ==> c.pair() == (cos2pi_half(self), 1int) && c.inv(),
    {
        let t: i128 = 2 * (self.num as i128);
        let m: u128 = if t < 0 {
            (-t) as u128
        } else {
            t as u128
        };
        let d: u128 = self.den as u128;
        proof {
            assert(m as nat == abs_n(2 * self.num));
            lemma_mod_abs(2 * self.num, self.den as int);
        }
        if m % d != 0 {
            return None;
        }
        proof {
            lemma_div_abs(2 * self.num, self.den as int);
            lemma_parity_neg((m / d) as int);
        }
        let k: u128 = m / d;
        if k % 2 == 0 {
            Some(Rational::from_int(1))
        } else {
            Some(Rational::from_int(-1))
        }
    }
}

/// Normalizing a pair with a nonnegative numerator keeps it nonnegative.
pub proof fn lemma_norm_nonneg(n: int, d: int)
    requires
        d >= 1,
        n >= 0,
    ensures
        norm(n, d).0 >= 0,
        1 <= norm(n, d).1 <= d,
        norm(n, d).0 <= n,
{
    lemma_norm(n, d);
    let g = gcd(abs_n(n), d as nat) as int;
    lemma_div_pos_is_pos(n, g);
}

/// The integer square root, by binary search: the greatest `r` with
/// `r * r <= q`.
pub fn isqrt_u(q: u128) -> (r: u128)
    requires
        q < 0x4_0000_0000_0000_0000u128,
    ensures
        r * r <= q < (r + 1) * (r + 1),
{
    let mut lo: u128 = 0;
    let mut hi: u128 = 0x2_0000_0000u128;
    proof {
        assert(0x2_0000_0000int * 0x2_0000_0000int == 0x4_0000_0000_0000_0000int);
    }
    while lo + 1 < hi
        invariant
            lo < hi,
            hi <= 0x2_0000_0000u128,
            lo * lo <= q,
            q < hi * hi,
        decreases hi - lo,
    {
        let mid: u128 = lo + (hi - lo) / 2;
        proof {
            assert(mid as int * mid as int <= 0x4_0000_0000_0000_0000int) by (nonlinear_arith)
                requires
                    0 <= mid as int <= 0x2_0000_0000int,
            ;
        }
        if mid * mid <= q {
            lo = mid;
        } else {
            hi = mid;
        }
    }
    lo
}

/// Exact arithmetic on integer-valued pairs stays integer-valued.
pub proof fn lemma_pr_int_ops(a: int, b: int)
    ensures
        pr_add((a, 1int), (b, 1int)) == (a + b, 1int),
        pr_sub((a, 1int), (b, 1int)) == (a - b, 1int),
        pr_mul((a, 1int), (b, 1int)) == (a * b, 1int),
{
    lemma_norm_int(a * 1 + b * 1);
    lemma_norm_int(a * 1 - b * 1);
    lemma_norm_int(a * b);
}

/// Multiplying any well-formed pair by zero yields the canonical zero.
pub proof fn lemma_pr_mul_zero(c: int, d: int)
    requires
        d >= 1,
    ensures
        pr_mul((c, d), (0int, 1int)) == (0int, 1int),
        pr_mul((0int, 1int), (c, d)) == (0int, 1int),
{
    lemma_norm_zero(d);
    assert(c * 0 == 0);
    assert(0 * c == 0);
    assert(d * 1 == d);
    assert(1 * d == d);
}

/// Products and cross sums of fixed-width numerators and denominators stay
/// well inside the range of the wide intermediate integers.
proof fn lemma_cross_bounds(n1: int, d1: int, n2: int, d2: int)
    by (nonlinear_arith)
    requires
        -0x8000_0000_0000_0000 <= n1 <= 0x7fff_ffff_ffff_ffff,
        -0x8000_0000_0000_0000 <= n2 <= 0x7fff_ffff_ffff_ffff,
        1 <= d1 <= 0x7fff_ffff_ffff_ffff,
        1 <= d2 <= 0x7fff_ffff_ffff_ffff,
    ensures
        -0x4000_0000_0000_0000_0000_0000_0000_0000 < n1 * d2 < 0x4000_0000_0000_0000_0000_0000_0000_0000,
        -0x4000_0000_0000_0000_0000_0000_0000_0000 < n2 * d1 < 0x4000_0000_0000_0000_0000_0000_0000_0000,
        -0x4000_0000_0000_0000_0000_0000_0000_0000 <= n1 * n2 <= 0x4000_0000_0000_0000_0000_0000_0000_0000,
        1 <= d1 * d2 < 0x4000_0000_0000_0000_0000_0000_0000_0000,
{
}

/// The product of a fixed-width numerator and a machine-word count stays
/// inside the range of the wide intermediate integers.
proof fn lemma_count_mul_bound(n: int, k: int)
    by (nonlinear_arith)
    requires
        -0x8000_0000_0000_0000 <= n <= 0x7fff_ffff_ffff_ffff,
        0 <= k <= 0xffff_ffff_ffff_ffff,
    ensures
        -0x7fff_ffff_ffff_ffff_ffff_ffff_ffff_ffff <= n * k,
        n * k < 0x8000_0000_0000_0000_0000_0000_0000_0000,
{
}

/// Euclid's algorithm.
fn gcd_u(a: u128, b: u128) -> (g: u128)
    ensures
        g as nat == gcd(a as nat, b as nat),
{
    let mut x: u128 = a;
    let mut y: u128 = b;
    while y != 0
        invariant
            gcd(x as nat, y as nat) == gcd(a as nat, b as nat),
        decreases y,
    {
        let r: u128 = x % y;
        assert(gcd(x as nat, y as nat) == gcd(y as nat, r as nat));
        x = y;
        y = r;
    }
    x
}

/// Reduces the exact wide pair `n / d` to lowest terms and narrows it, or
/// reports that the reduced pair is out of range.
fn mk(n: i128, d: i128) -> (r: Option<Rational>)
    requires
        1 <= d < 0x4000_0000_0000_0000_0000_0000_0000_0000,
        -0x7fff_ffff_ffff_ffff_ffff_ffff_ffff_ffff <= n,
    ensures
        r is Some <==> fits(norm(n as int, d as int)),
        r matches Some(q) ==> q.pair() == norm(n as int, d as int) && q.inv(),
{
    proof {
        lemma_norm(n as int, d as int);
    }
    let neg: bool = n < 0;
    let na: u128 = if neg {
        (-n) as u128
    } else {
        n as u128
    };
    assert(na as nat == abs_n(n as int));
    let g: u128 = gcd_u(na, d as u128);
    let qm: u128 = na / g;
    let dn: u128 = (d as u128) / g;
    assert(dn as int == norm(n as int, d as int).1);
    assert(qm as int == abs_n(norm(n as int, d as int).0) as int);
    if dn > 0x7fff_ffff_ffff_ffffu128 {
        return None;
    }
    if neg {
        if qm > 0x8000_0000_0000_0000u128 {
            return None;
        }
        let num: i64 = if qm == 0x8000_0000_0000_0000u128 {
            i64::MIN
        } else {
            -(qm as i64)
        };
        Some(Rational { num, den: dn as i64 })
    } else {
        if qm > 0x7fff_ffff_ffff_ffffu128 {
            return None;
        }
        Some(Rational { num: qm as i64, den: dn as i64 })
    }
}

impl Rational {
    /// Well-formedness: the denominator is positive.
    pub open spec fn inv(self) -> bool {
        self.den >= 1
    }

    /// The value as a pair of unbounded integers.
    pub open spec fn pair(self) -> (int, int) {
        (self.num as int, self.den as int)
    }

    /// Builds the rational `num / den`.
    pub fn new(num: i64, den: i64) -> (r: Rational)
        requires
            den >= 1,
        ensures
            r.num == num,
            r.den == den,
            r.inv(),
    {
        Rational { num, den }
    }

    /// Builds the integer `num` as a rational.
    pub fn from_int(num: i64) -> (r: Rational)
        ensures
            r.num == num,
            r.den == 1,
            r.inv(),
    {
        Rational { num, den: 1 }
    }

    /// Exact sum; `None` when the reduced result is out of range.
    pub fn add(self, other: Rational) -> (r: Option<Rational>)
        requires
            self.inv(),
            other.inv(),
        ensures
            r is Some <==> fits(pr_add(self.pair(), other.pair())),
            r matches Some(q) ==> q.pair() == pr_add(self.pair(), other.pair()) && q.inv(),
    {
        proof {
            lemma_cross_bounds(
                self.num as int,
                self.den as int,
                other.num as int,
                other.den as int,
            );
        }
        let n: i128 = (self.num as i128) * (other.den as i128) + (other.num as i128) * (self.den
            as i128);
        let d: i128 = (self.den as i128) * (other.den as i128);
        mk(n, d)
    }

    /// Exact difference; `None` when the reduced result is out of range.
    pub fn sub(self, other: Rational) -> (r: Option<Rational>)
        requires
            self.inv(),
            other.inv(),
        ensures
            r is Some <==> fits(pr_sub(self.pair(), other.pair())),
            r matches Some(q) ==> q.pair() == pr_sub(self.pair(), other.pair()) && q.inv(),
    {
        proof {
            lemma_cross_bounds(
                self.num as int,
                self.den as int,
                other.num as int,
                other.den as int,
            );
        }
        let n: i128 = (self.num as i128) * (other.den as i128) - (other.num as i128) * (self.den
            as i128);
        let d: i128 = (self.den as i128) * (other.den as i128);
        mk(n, d)
    }

    /// Exact product; `None` when the reduced result is out of range.
    pub fn mul(self, other: Rational) -> (r: Option<Rational>)
        requires
            self.inv(),
            other.inv(),
        ensures
            r is Some <==> fits(pr_mul(self.pair(), other.pair())),
            r matches Some(q) ==> q.pair() == pr_mul(self.pair(), other.pair()) && q.inv(),
    {
        proof {
            lemma_cross_bounds(
                self.num as int,
                self.den as int,
                other.num as int,
                other.den as int,
            );
        }
        let n: i128 = (self.num as i128) * (other.num as i128);
        let d: i128 = (self.den as i128) * (other.den as i128);
        mk(n, d)
    }

    /// Exact product with a machine-word count; `None` when the reduced
    /// result is out of range.
    pub fn mul_usize(self, k: usize) -> (r: Option<Rational>)
        requires
            self.inv(),
        ensures
            r is Some <==> fits(pr_mul(self.pair(), (k as int, 1int))),
            r matches Some(q) ==> q.pair() == pr_mul(self.pair(), (k as int, 1int)) && q.inv(),
    {
        proof {
            lemma_count_mul_bound(self.num as int, k as int);
        }
        let n: i128 = (self.num as i128) * (k as i128);
        let d: i128 = self.den as i128;
        mk(n, d)
    }

    /// Exact comparison: `self <= other`.
    pub fn le(self, other: Rational) -> (b: bool)
        requires
            self.inv(),
            other.inv(),
        ensures
            b == pr_le(self.pair(), other.pair()),
    {
        proof {
            lemma_cross_bounds(
                self.num as int,
                self.den as int,
                other.num as int,
                other.den as int,
            );
        }
        (self.num as i128) * (other.den as i128) <= (other.num as i128) * (self.den as i128)
    }

    /// Exact comparison: `self < other`.
    pub fn lt(self, other: Rational) -> (b: bool)
        requires
            self.inv(),
            other.inv(),
        ensures
            b == pr_lt(self.pair(), other.pair()),
    {
        proof {
            lemma_cross_bounds(
                self.num as int,
                self.den as int,
                other.num as int,
                other.den as int,
            );
        }
        (self.num as i128) * (other.den as i128) < (other.num as i128) * (self.den as i128)
    }

    /// Exact equality of values, regardless of representation.
    pub fn eq_rat(self, other: Rational) -> (b: bool)
        requires
            self.inv(),
            other.inv(),
        ensures
            b == pr_eq(self.pair(), other.pair()),
    {
        proof {
            lemma_cross_bounds(
                self.num as int,
                self.den as int,
                other.num as int,
                other.den as int,
            );
        }
        (self.num as i128) * (other.den as i128) == (other.num as i128) * (self.den as i128)
    }
}

} // verus!
