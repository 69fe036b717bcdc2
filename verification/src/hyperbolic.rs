//! The hyperbolic tangent and its inverse.

use vstd::pervasive::unreached;
use vstd::prelude::*;
use crate::config::BigRationalConfig;
use crate::error::DomainError;
use crate::exponential::{
    epsilon, exp_last, exp_value, lemma_epsilon_wf, lemma_exp_at_least_one, lemma_exp_value_same,
};
use crate::fraction::{
    lemma_abs_same, lemma_add_nonnegative, lemma_add_same, lemma_div_same, lemma_le_transitive,
    lemma_lt_same, lemma_mul_same, lemma_same_sign, lemma_same_symmetric, lemma_same_transitive,
    lemma_wf_ops, Fraction,
};
use crate::rational::{bigrational_from_int, bigrational_from_ratio, Rational};

verus! {

/// Whether `x` lies so far from zero that `tanh` returns 1 or -1 for it:
/// `|x| > 20`.
pub open spec fn saturated(x: Fraction) -> bool {
    Fraction::from_int(20).lt(x.abs())
}

/// The exponential that `tanh` is computed from: that of `2 x`.
pub open spec fn tanh_exp(x: Fraction, eps: Fraction, max: nat) -> Fraction {
    exp_value(Fraction::from_int(2).mul(x), eps, max)
}

/// Whether `tanh` has a value at `x`: where `|x| <= 20`, the exponential
/// it is computed from must not come out as -1.
pub open spec fn tanh_defined(x: Fraction, eps: Fraction, max: nat) -> bool {
    saturated(x) || !tanh_exp(x, eps, max).add(Fraction::from_int(1)).is_zero()
}

/// The value of `tanh`: 1 or -1 by the sign of `x` where `|x| > 20`, else
/// `(e - 1) / (e + 1)` for the exponential `e` of `2 x`.
pub open spec fn tanh_value(x: Fraction, eps: Fraction, max: nat) -> Fraction {
    if saturated(x) {
        if x.num > 0 {
            Fraction::from_int(1)
        } else {
            Fraction::from_int(-1)
        }
    } else {
        let e = tanh_exp(x, eps, max);
        e.sub(Fraction::from_int(1)).div(e.add(Fraction::from_int(1)))
    }
}

/// Whether `atanh` is defined at `x`: `|x| < 1`.
pub open spec fn in_atanh_domain(x: Fraction) -> bool {
    x.abs().lt(Fraction::from_int(1))
}

/// The odd power `x^(2k+1)`.
pub open spec fn odd_power(x: Fraction, k: nat) -> Fraction
    decreases k,
{
    if k == 0 {
        x
    } else {
        odd_power(x, (k - 1) as nat).mul(x.mul(x))
    }
}

/// The term of index `k` of the series of `atanh`: `x^(2k+1) / (2k+1)`.
pub open spec fn atanh_term(x: Fraction, k: nat) -> Fraction {
    if k == 0 {
        x
    } else {
        odd_power(x, k).div(Fraction::from_int(2 * k as int + 1))
    }
}

/// The sum of the first `m` terms of the series of `atanh`.
pub open spec fn atanh_sum(x: Fraction, m: nat) -> Fraction
    decreases m,
{
    if m == 0 {
        Fraction { num: 0, den: 1 }
    } else {
        atanh_sum(x, (m - 1) as nat).add(atanh_term(x, (m - 1) as nat))
    }
}

/// The number of terms that are summed, given that the first `n` did not
/// stop the summation: one more than the first index from `n` on whose
/// following term is below `eps` in absolute value, and `max` where there
/// is none below `max`.
pub open spec fn atanh_count_from(x: Fraction, eps: Fraction, max: nat, n: nat) -> nat
    decreases max - n,
{
    if n >= max {
        n
    } else if atanh_term(x, n + 1).abs().lt(eps) {
        n + 1
    } else {
        atanh_count_from(x, eps, max, n + 1)
    }
}

/// The number of terms that are summed.
pub open spec fn atanh_count(x: Fraction, eps: Fraction, max: nat) -> nat {
    atanh_count_from(x, eps, max, 0)
}

/// The value of `atanh`: the series summed up to, and without, the first
/// term below `eps` in absolute value, and `max` terms at most.  The term
/// of index 0 is summed whatever its size.
pub open spec fn atanh_value(x: Fraction, eps: Fraction, max: nat) -> Fraction {
    atanh_sum(x, atanh_count(x, eps, max))
}

/// Whether the summation ends before a term below `eps` in absolute
/// value, and not because of the cap alone.
pub open spec fn atanh_converges(x: Fraction, eps: Fraction, max: nat) -> bool {
    atanh_count(x, eps, max) >= 1 && atanh_term(x, atanh_count(x, eps, max)).abs().lt(eps)
}

/// The powers, terms and partial sums of the series are well formed.
pub proof fn lemma_atanh_wf(x: Fraction, k: nat)
    requires
        x.wf(),
    ensures
        odd_power(x, k).wf(),
        atanh_term(x, k).wf(),
        atanh_sum(x, k).wf(),
    decreases k,
{
    lemma_wf_ops(x, x);
    if k > 0 {
        lemma_atanh_wf(x, (k - 1) as nat);
        lemma_wf_ops(odd_power(x, (k - 1) as nat), x.mul(x));
        lemma_wf_ops(odd_power(x, k), Fraction::from_int(2 * k as int + 1));
        lemma_wf_ops(atanh_sum(x, (k - 1) as nat), atanh_term(x, (k - 1) as nat));
    }
}

/// For an argument that is not negative no term of the series of `atanh`
/// is negative, and from the first term on no partial sum is below the
/// argument.
pub proof fn lemma_atanh_terms_nonnegative(x: Fraction, m: nat)
    requires
        x.wf(),
        x.num >= 0,
    ensures
        odd_power(x, m).wf(),
        odd_power(x, m).num >= 0,
        atanh_term(x, m).wf(),
        atanh_term(x, m).num >= 0,
        atanh_sum(x, m).wf(),
        atanh_sum(x, m).num >= 0,
        m >= 1 ==> x.le(atanh_sum(x, m)),
    decreases m,
{
    lemma_atanh_wf(x, m);
    if m > 0 {
        let j = (m - 1) as nat;
        lemma_atanh_terms_nonnegative(x, j);
        let (p, q) = (odd_power(x, j), odd_power(x, m));
        assert(q.num == p.num * (x.num * x.num));
        assert(q.num >= 0) by (nonlinear_arith)
            requires
                q.num == p.num * (x.num * x.num),
                p.num >= 0,
                x.num >= 0,
        ;
        assert(atanh_term(x, m).num == q.num * 1);
        lemma_add_nonnegative(atanh_sum(x, j), atanh_term(x, j));
        if j == 0 {
            assert(x.le(atanh_sum(x, 1))) by (nonlinear_arith)
                requires
                    atanh_sum(x, 1).num == 0 * x.den + x.num * 1,
                    atanh_sum(x, 1).den == 1 * x.den,
            ;
        } else {
            lemma_le_transitive(x, atanh_sum(x, j), atanh_sum(x, m));
        }
    }
}

/// For an argument that is not negative the value of `atanh` is not below
/// the argument, where at least one term may be summed.
pub proof fn lemma_atanh_at_least(x: Fraction, eps: Fraction, max: nat)
    requires
        x.wf(),
        x.num >= 0,
        max >= 1,
    ensures
        atanh_value(x, eps, max).wf(),
        atanh_value(x, eps, max).num >= 0,
        x.le(atanh_value(x, eps, max)),
{
    lemma_atanh_count_bounds(x, eps, max, 1);
    lemma_atanh_terms_nonnegative(x, atanh_count(x, eps, max));
}

/// The summation never takes more than `max` terms.
pub proof fn lemma_atanh_count_bounds(x: Fraction, eps: Fraction, max: nat, n: nat)
    requires
        n <= max,
    ensures
        n <= atanh_count_from(x, eps, max, n) <= max,
    decreases max - n,
{
    if n < max && !atanh_term(x, n + 1).abs().lt(eps) {
        lemma_atanh_count_bounds(x, eps, max, n + 1);
    }
}

/// Beyond 20 the value of `tanh` is exactly 1, and below -20 exactly -1,
/// whatever the tolerance and the cap.
pub proof fn lemma_tanh_saturation(x: Fraction, eps: Fraction, max: nat)
    requires
        x.wf(),
    ensures
        Fraction::from_int(20).lt(x) ==> tanh_defined(x, eps, max) && tanh_value(x, eps, max)
            == Fraction::from_int(1),
        x.lt(Fraction::from_int(-20)) ==> tanh_defined(x, eps, max) && tanh_value(x, eps, max)
            == Fraction::from_int(-1),
{
    let (n, d) = (x.num, x.den);
    if Fraction::from_int(20).lt(x) {
        assert(n > 0) by (nonlinear_arith)
            requires
                20 * d < n * 1,
                d > 0,
        ;
    }
    if x.lt(Fraction::from_int(-20)) {
        assert(n < 0 && 20 * d < (-n) * 1) by (nonlinear_arith)
            requires
                n * 1 < (-20) * d,
                d > 0,
        ;
    }
}

/// For `t = (e - 1) / (e + 1)` the quotient `(1 + t) / (1 - t)` is `e`
/// again: in integers, for `e = a / b`, with the numerator and the
/// denominator of `t` as the division gives them.
proof fn lemma_quotient_back(a: int, b: int, tn: int, td: int)
    by (nonlinear_arith)
    requires
        b > 0,
        a + b != 0,
        a + b > 0 ==> tn == (a - b) * b && td == b * (a + b),
        a + b < 0 ==> tn == -((a - b) * b) && td == -(b * (a + b)),
    ensures
        td > 0,
        a + b > 0 ==> td + tn == 2 * (a * b) && td - tn == 2 * (b * b),
        a + b < 0 ==> td + tn == -(2 * (a * b)) && td - tn == -(2 * (b * b)),
        td - tn != 0,
{
    assert(b * b > 0);
    assert((a - b) * b == a * b - b * b);
    assert(b * (a + b) == a * b + b * b);
    if a + b > 0 {
        assert(b * (a + b) > 0);
    } else {
        assert(b * (a + b) < 0);
    }
}

/// Where `tanh` is computed from the exponential `e` of `2 x`, the
/// quotient `(1 + tanh) / (1 - tanh)` is `e` again.
///
/// This is the exact part of the claim that `atanh` undoes `tanh`: the
/// inverse hyperbolic tangent of `t` is half the logarithm of
/// `(1 + t) / (1 - t)`.  How far the sum that `atanh` returns lies from
/// that logarithm is not stated.
pub proof fn lemma_tanh_quotient(x: Fraction, eps: Fraction, max: nat)
    requires
        x.wf(),
        eps.wf(),
        !saturated(x),
        tanh_defined(x, eps, max),
    ensures
        ({
            let t = tanh_value(x, eps, max);
            let one = Fraction::from_int(1);
            &&& t.wf()
            &&& !one.sub(t).is_zero()
            &&& one.add(t).div(one.sub(t)).same(tanh_exp(x, eps, max))
        }),
{
    let one = Fraction::from_int(1);
    let twice = Fraction::from_int(2).mul(x);
    lemma_wf_ops(Fraction::from_int(2), x);
    lemma_same_symmetric(twice, twice);
    lemma_same_symmetric(eps, eps);
    lemma_exp_value_same(twice, twice, eps, eps, max);
    let e = tanh_exp(x, eps, max);
    let (a, b) = (e.num, e.den);
    let t = tanh_value(x, eps, max);
    assert(e.sub(one).num == a * 1 - 1 * b && e.sub(one).den == b * 1);
    assert(e.add(one).num == a * 1 + 1 * b && e.add(one).den == b * 1);
    lemma_quotient_back(a, b, t.num, t.den);
    let (u, w) = (one.add(t), one.sub(t));
    assert(u.num == 1 * t.den + t.num * 1 && u.den == 1 * t.den);
    assert(w.num == 1 * t.den - t.num * 1 && w.den == 1 * t.den);
    let q = u.div(w);
    assert(q.num * b == a * q.den) by (nonlinear_arith)
        requires
            w.num >= 0 ==> q.num == u.num * w.den && q.den == u.den * w.num,
            w.num < 0 ==> q.num == -(u.num * w.den) && q.den == -(u.den * w.num),
            u.den == t.den,
            w.den == t.den,
            a + b > 0 ==> u.num == 2 * (a * b) && w.num == 2 * (b * b),
            a + b < 0 ==> u.num == -(2 * (a * b)) && w.num == -(2 * (b * b)),
            a + b != 0,
            b > 0,
    {
        assert(b * b > 0);
        assert((2 * (a * b) * t.den) * b == a * (t.den * (2 * (b * b))));
    }
}

/// At every argument that is not negative `tanh` has a value, and the
/// value lies from 0 up to 1: below 1 where `|x| <= 20`.
pub proof fn lemma_tanh_defined_nonnegative(x: Fraction, eps: Fraction, max: nat)
    requires
        x.wf(),
        x.num >= 0,
    ensures
        tanh_defined(x, eps, max),
        tanh_value(x, eps, max).wf(),
        tanh_value(x, eps, max).num >= 0,
        tanh_value(x, eps, max).le(Fraction::from_int(1)),
        !saturated(x) ==> in_atanh_domain(tanh_value(x, eps, max)),
{
    let twice = Fraction::from_int(2).mul(x);
    assert(twice.num >= 0 && twice.den > 0) by (nonlinear_arith)
        requires
            twice.num == 2 * x.num,
            twice.den == 1 * x.den,
            x.num >= 0,
            x.den > 0,
    ;
    lemma_exp_at_least_one(twice, exp_last(twice, eps, max));
    let e = tanh_exp(x, eps, max);
    let one = Fraction::from_int(1);
    let (a, b) = (e.num, e.den);
    assert(e.add(one).num == a * 1 + 1 * b && e.add(one).den == b * 1);
    assert(e.sub(one).num == a * 1 - 1 * b && e.sub(one).den == b * 1);
    if !saturated(x) {
        let t = tanh_value(x, eps, max);
        assert(t.num >= 0 && t.den > 0 && t.num * 1 < 1 * t.den) by (nonlinear_arith)
            requires
                t.num == (a - b) * b,
                t.den == b * (a + b),
                a >= b,
                b > 0,
        {
            assert((a - b) * b == a * b - b * b);
            assert(b * (a + b) == a * b + b * b);
            assert(b * b > 0);
            assert(a * b >= b * b);
        }
    }
}

/// The value of `tanh`, and whether it has one, do not depend on the
/// fractions that stand for the argument and the tolerance.
pub proof fn lemma_tanh_value_same(x: Fraction, y: Fraction, eps: Fraction, tol: Fraction, max: nat)
    requires
        x.wf(),
        y.wf(),
        x.same(y),
        eps.wf(),
        tol.wf(),
        eps.same(tol),
    ensures
        saturated(x) == saturated(y),
        tanh_defined(x, eps, max) == tanh_defined(y, tol, max),
        tanh_defined(x, eps, max) ==> tanh_value(x, eps, max).wf() && tanh_value(
            y,
            tol,
            max,
        ).wf() && tanh_value(x, eps, max).same(tanh_value(y, tol, max)),
{
    let twenty = Fraction::from_int(20);
    let two = Fraction::from_int(2);
    let unit = Fraction::from_int(1);
    lemma_abs_same(x, y);
    lemma_wf_ops(x, x);
    lemma_wf_ops(y, y);
    lemma_same_symmetric(twenty, twenty);
    lemma_lt_same(twenty, x.abs(), twenty, y.abs());
    lemma_same_sign(x, y);
    lemma_same_symmetric(two, two);
    lemma_mul_same(two, x, two, y);
    lemma_wf_ops(two, x);
    lemma_wf_ops(two, y);
    lemma_exp_value_same(two.mul(x), two.mul(y), eps, tol, max);
    let (e, f) = (tanh_exp(x, eps, max), tanh_exp(y, tol, max));
    lemma_same_symmetric(unit, unit);
    lemma_add_same(e, unit, f, unit);
    lemma_wf_ops(e, unit);
    lemma_wf_ops(f, unit);
    lemma_same_sign(e.add(unit), f.add(unit));
    if !saturated(x) && tanh_defined(x, eps, max) {
        lemma_div_same(e.sub(unit), e.add(unit), f.sub(unit), f.add(unit));
        lemma_wf_ops(e.sub(unit), e.add(unit));
        lemma_wf_ops(f.sub(unit), f.add(unit));
    }
}

/// The powers, terms and partial sums of the series of `atanh` stand for
/// the same numbers whichever fraction stands for the argument.
pub proof fn lemma_atanh_terms_same(x: Fraction, y: Fraction, k: nat)
    requires
        x.wf(),
        y.wf(),
        x.same(y),
    ensures
        odd_power(x, k).same(odd_power(y, k)),
        atanh_term(x, k).same(atanh_term(y, k)),
        atanh_sum(x, k).same(atanh_sum(y, k)),
    decreases k,
{
    lemma_atanh_wf(x, k);
    lemma_atanh_wf(y, k);
    if k > 0 {
        let j = (k - 1) as nat;
        lemma_atanh_terms_same(x, y, j);
        lemma_atanh_wf(x, j);
        lemma_atanh_wf(y, j);
        lemma_mul_same(x, x, y, y);
        lemma_mul_same(odd_power(x, j), x.mul(x), odd_power(y, j), y.mul(y));
        let odd = Fraction::from_int(2 * k as int + 1);
        lemma_same_symmetric(odd, odd);
        lemma_div_same(odd_power(x, k), odd, odd_power(y, k), odd);
        lemma_add_same(atanh_sum(x, j), atanh_term(x, j), atanh_sum(y, j), atanh_term(y, j));
    }
}

/// The summation of `atanh` takes the same number of terms whichever
/// fractions stand for the argument and the tolerance.
pub proof fn lemma_atanh_count_same(
    x: Fraction,
    y: Fraction,
    eps: Fraction,
    tol: Fraction,
    max: nat,
    n: nat,
)
    requires
        x.wf(),
        y.wf(),
        x.same(y),
        eps.wf(),
        tol.wf(),
        eps.same(tol),
    ensures
        atanh_count_from(x, eps, max, n) == atanh_count_from(y, tol, max, n),
    decreases max - n,
{
    if n < max {
        lemma_atanh_terms_same(x, y, n + 1);
        lemma_atanh_wf(x, n + 1);
        lemma_atanh_wf(y, n + 1);
        let (s, t) = (atanh_term(x, n + 1), atanh_term(y, n + 1));
        lemma_abs_same(s, t);
        lemma_wf_ops(s, s);
        lemma_wf_ops(t, t);
        lemma_lt_same(s.abs(), eps, t.abs(), tol);
        if !s.abs().lt(eps) {
            lemma_atanh_count_same(x, y, eps, tol, max, n + 1);
        }
    }
}

/// The value of `atanh`, and whether it has one, do not depend on the
/// fractions that stand for the argument and the tolerance.
pub proof fn lemma_atanh_value_same(
    x: Fraction,
    y: Fraction,
    eps: Fraction,
    tol: Fraction,
    max: nat,
)
    requires
        x.wf(),
        y.wf(),
        x.same(y),
        eps.wf(),
        tol.wf(),
        eps.same(tol),
    ensures
        in_atanh_domain(x) == in_atanh_domain(y),
        atanh_value(x, eps, max).wf(),
        atanh_value(y, tol, max).wf(),
        atanh_value(x, eps, max).same(atanh_value(y, tol, max)),
{
    let unit = Fraction::from_int(1);
    lemma_abs_same(x, y);
    lemma_wf_ops(x, x);
    lemma_wf_ops(y, y);
    lemma_same_symmetric(unit, unit);
    lemma_lt_same(x.abs(), unit, y.abs(), unit);
    lemma_atanh_count_same(x, y, eps, tol, max, 0);
    let m = atanh_count(x, eps, max);
    lemma_atanh_terms_same(x, y, m);
    lemma_atanh_wf(x, m);
    lemma_atanh_wf(y, m);
}

impl BigRationalConfig {
    /// The hyperbolic tangent of `x`.
    ///
    /// For `|x| > 20` the result is exactly 1 or -1, by the sign of `x`.
    /// Otherwise it is `(e - 1) / (e + 1)`, where `e` is what `exp` returns
    /// for `2 x`; `e` must not be -1, which `checked_tanh` tests.
    pub fn tanh(&self, x: &Rational) -> (r: Rational)
        requires
            tanh_defined(x@, epsilon(self.precision as nat), self.max_iterations as nat),
        ensures
            r.stands_for(
                tanh_value(x@, epsilon(self.precision as nat), self.max_iterations as nat),
            ),
            Fraction::from_int(20).lt(x@) ==> r@.same(Fraction::from_int(1)),
            x@.lt(Fraction::from_int(-20)) ==> r@.same(Fraction::from_int(-1)),
            forall|y: Fraction|
                x.stands_for(y) ==> #[trigger] r.stands_for(
                    tanh_value(y, epsilon(self.precision as nat), self.max_iterations as nat),
                ),
    {
        match self.checked_tanh(x) {
            Some(r) => {
                proof {
                    use_type_invariant(x);
                    let eps = epsilon(self.precision as nat);
                    let max = self.max_iterations as nat;
                    lemma_epsilon_wf(self.precision as nat);
                    assert forall|y: Fraction| x.stands_for(y) implies #[trigger] r.stands_for(
                        tanh_value(y, eps, max),
                    ) by {
                        lemma_tanh_value_same(x@, y, eps, eps, max);
                        lemma_same_transitive(
                            r@,
                            tanh_value(x@, eps, max),
                            tanh_value(y, eps, max),
                        );
                    }
                }
                r
            },
            None => unreached(),
        }
    }

    /// The hyperbolic tangent of `x` as `tanh` gives it, or nothing where
    /// `tanh` has no value at `x`.
    pub fn checked_tanh(&self, x: &Rational) -> (r: Option<Rational>)
        ensures
            r is Some <==> tanh_defined(
                x@,
                epsilon(self.precision as nat),
                self.max_iterations as nat,
            ),
            r matches Some(t) ==> {
                &&& t.stands_for(
                    tanh_value(x@, epsilon(self.precision as nat), self.max_iterations as nat),
                )
                &&& Fraction::from_int(20).lt(x@) ==> t@.same(Fraction::from_int(1))
                &&& x@.lt(Fraction::from_int(-20)) ==> t@.same(Fraction::from_int(-1))
            },
    {
        let ghost goal = epsilon(self.precision as nat);
        let ghost max = self.max_iterations as nat;
        proof {
            use_type_invariant(x);
            lemma_same_symmetric(x@, x@);
        }
        let twenty = bigrational_from_int(20);
        if twenty.lt(&x.abs()) {
            return Some(
                if x.is_positive() {
                    bigrational_from_int(1)
                } else {
                    bigrational_from_int(-1)
                },
            );
        }
        let two = bigrational_from_int(2);
        let one = bigrational_from_int(1);
        let exp_x = self.exp(&two.mul(x));
        assert(exp_x.stands_for(tanh_exp(x@, goal, max)));
        let above = exp_x.add(&one);
        if above.is_zero() {
            return None;
        }
        Some(exp_x.sub(&one).div(&above))
    }

    /// The inverse hyperbolic tangent of `x`, or an error where `atanh` is
    /// not defined at `x`: where `|x| >= 1`.  The value is the sum that
    /// `atanh_with_status` returns.
    pub fn atanh(&self, x: &Rational) -> (r: Result<Rational, DomainError>)
        ensures
            match r {
                Ok(v) => in_atanh_domain(x@) && v.stands_for(
                    atanh_value(x@, epsilon(self.precision as nat), self.max_iterations as nat),
                ),
                Err(e) => !in_atanh_domain(x@) && e == DomainError::AtanhOutOfRange,
            },
            match r {
                Ok(v) => forall|y: Fraction| #[trigger]
                    x.stands_for(y) ==> in_atanh_domain(y) && v.stands_for(
                        atanh_value(
                            y,
                            epsilon(self.precision as nat),
                            self.max_iterations as nat,
                        ),
                    ),
                Err(_) => forall|y: Fraction| #[trigger] x.stands_for(y) ==> !in_atanh_domain(y),
            },
    {
        proof {
            use_type_invariant(x);
            lemma_epsilon_wf(self.precision as nat);
        }
        let ghost eps = epsilon(self.precision as nat);
        let ghost max = self.max_iterations as nat;
        match self.atanh_with_status(x) {
            Ok(found) => {
                let v = found.0;
                proof {
                    assert forall|y: Fraction| #[trigger]
                        x.stands_for(y) implies in_atanh_domain(y) && v.stands_for(
                        atanh_value(y, eps, max),
                    ) by {
                        lemma_atanh_value_same(x@, y, eps, eps, max);
                        lemma_same_transitive(
                            v@,
                            atanh_value(x@, eps, max),
                            atanh_value(y, eps, max),
                        );
                    }
                }
                Ok(v)
            },
            Err(e) => {
                proof {
                    assert forall|y: Fraction| #[trigger]
                        x.stands_for(y) implies !in_atanh_domain(y) by {
                        lemma_atanh_value_same(x@, y, eps, eps, max);
                    }
                }
                Err(e)
            },
        }
    }

    /// The inverse hyperbolic tangent of `x` and whether the summation
    /// came to rest, or an error where `atanh` is not defined at `x`:
    /// where `|x| >= 1`.
    ///
    /// The terms `x^(2k+1) / (2k+1)` are summed from the term of index 0
    /// on; the summation ends before the first term of index 1 or more
    /// that is below the tolerance in absolute value, and after
    /// `max_iterations` terms at the latest.  The flag tells whether the
    /// term after the last one summed is below the tolerance.
    pub fn atanh_with_status(&self, x: &Rational) -> (r: Result<(Rational, bool), DomainError>)
        ensures
            match r {
                Ok(found) => {
                    &&& in_atanh_domain(x@)
                    &&& found.0.stands_for(
                        atanh_value(
                            x@,
                            epsilon(self.precision as nat),
                            self.max_iterations as nat,
                        ),
                    )
                    &&& found.1 == atanh_converges(
                        x@,
                        epsilon(self.precision as nat),
                        self.max_iterations as nat,
                    )
                },
                Err(e) => !in_atanh_domain(x@) && e == DomainError::AtanhOutOfRange,
            },
    {
        let ghost goal = epsilon(self.precision as nat);
        let ghost max = self.max_iterations as nat;
        proof {
            use_type_invariant(x);
            lemma_same_symmetric(x@, x@);
        }
        let one = bigrational_from_int(1);
        if !x.abs().lt(&one) {
            return Err(DomainError::AtanhOutOfRange);
        }
        let eps = self.tolerance();
        let mut result = bigrational_from_ratio(0, 1);
        let mut term = x.clone();
        let x_squared = x.mul(x);
        let mut n_power = x.clone();
        let mut n: u32 = 0;
        while n < self.max_iterations
            invariant
                n <= self.max_iterations,
                max == self.max_iterations,
                goal == epsilon(self.precision as nat),
                in_atanh_domain(x@),
                x.stands_for(x@),
                eps.stands_for(goal),
                x_squared.stands_for(x@.mul(x@)),
                result.stands_for(atanh_sum(x@, n as nat)),
                term.stands_for(atanh_term(x@, n as nat)),
                n_power.stands_for(odd_power(x@, n as nat)),
                atanh_count_from(x@, goal, max, n as nat) == atanh_count(x@, goal, max),
                n >= 1 ==> !atanh_term(x@, n as nat).abs().lt(goal),
            decreases self.max_iterations - n,
        {
            result = result.add(&term);
            assert(result.stands_for(atanh_sum(x@, (n + 1) as nat)));
            n_power = n_power.mul(&x_squared);
            assert(n_power.stands_for(odd_power(x@, (n + 1) as nat)));
            let odd = bigrational_from_int(2 * (n as i128) + 3);
            proof {
                assert(odd.stands_for(Fraction::from_int(2 * (n + 1) + 1)));
                lemma_same_sign(odd@, Fraction::from_int(2 * (n + 1) + 1));
            }
            term = n_power.div(&odd);
            assert(term.stands_for(atanh_term(x@, (n + 1) as nat)));
            let small = term.abs().lt(&eps);
            assert(small == atanh_term(x@, (n + 1) as nat).abs().lt(goal));
            n += 1;
            if small {
                return Ok((result, true));
            }
        }
        Ok((result, false))
    }
}

} // verus!
