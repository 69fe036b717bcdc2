//! The exponential function by its power series.

use vstd::arithmetic::power::{lemma_pow_positive, pow};
use vstd::prelude::*;
use crate::config::BigRationalConfig;
use crate::fraction::{
    lemma_abs_same, lemma_add_same, lemma_div_same, lemma_lt_same, lemma_mul_same,
    lemma_same_sign, lemma_same_symmetric, lemma_same_transitive, lemma_wf_ops, Fraction,
};
use crate::integer::{int_from_i128, int_pow};
use crate::rational::{bigrational_from_int, ratio_new, Rational};

verus! {

/// The stopping tolerance for `precision` decimal places: `1 / 10^precision`.
pub open spec fn epsilon(precision: nat) -> Fraction {
    Fraction { num: 1, den: pow(10, precision) }
}

/// The term of index `i` of the exponential series of `x`: `x^i / i!`.
pub open spec fn exp_term(x: Fraction, i: nat) -> Fraction
    decreases i,
{
    if i == 0 {
        Fraction::from_int(1)
    } else {
        exp_term(x, (i - 1) as nat).mul(x).div(Fraction::from_int(i as int))
    }
}

/// The sum of the terms of index `0` to `k` of the exponential series of `x`.
pub open spec fn exp_sum(x: Fraction, k: nat) -> Fraction
    decreases k,
{
    if k == 0 {
        Fraction::from_int(1)
    } else {
        exp_sum(x, (k - 1) as nat).add(exp_term(x, k))
    }
}

/// The index of the last term that is summed, given that the terms up to
/// `i` did not stop the summation: the first index above `i` whose term is
/// below `eps` in absolute value, and `max` where there is none up to `max`.
pub open spec fn exp_last_from(x: Fraction, eps: Fraction, max: nat, i: nat) -> nat
    decreases max - i,
{
    if i >= max {
        i
    } else if exp_term(x, i + 1).abs().lt(eps) {
        i + 1
    } else {
        exp_last_from(x, eps, max, i + 1)
    }
}

/// The index of the last term that is summed.
pub open spec fn exp_last(x: Fraction, eps: Fraction, max: nat) -> nat {
    exp_last_from(x, eps, max, 0)
}

/// The value of `exp`: the series summed up to and with the first term
/// below `eps` in absolute value, and up to the term of index `max` where
/// no earlier term is that small.
pub open spec fn exp_value(x: Fraction, eps: Fraction, max: nat) -> Fraction {
    exp_sum(x, exp_last(x, eps, max))
}

/// Whether the summation ends with a term below `eps` in absolute value,
/// and not because of the cap alone.
pub open spec fn exp_converges(x: Fraction, eps: Fraction, max: nat) -> bool {
    exp_last(x, eps, max) >= 1 && exp_term(x, exp_last(x, eps, max)).abs().lt(eps)
}

/// The tolerance is a positive number.
pub proof fn lemma_epsilon_wf(precision: nat)
    ensures
        epsilon(precision).wf(),
        epsilon(precision).num == 1,
{
    lemma_pow_positive(10, precision);
}

/// The terms and the partial sums of the series are well formed.
pub proof fn lemma_exp_wf(x: Fraction, i: nat)
    requires
        x.wf(),
    ensures
        exp_term(x, i).wf(),
        exp_sum(x, i).wf(),
    decreases i,
{
    if i > 0 {
        lemma_exp_wf(x, (i - 1) as nat);
        let before = exp_term(x, (i - 1) as nat);
        lemma_wf_ops(before, x);
        lemma_wf_ops(before.mul(x), Fraction::from_int(i as int));
        lemma_wf_ops(exp_sum(x, (i - 1) as nat), exp_term(x, i));
    }
}

/// For an argument that is not negative no term is negative, and every
/// partial sum is at least 1.
pub proof fn lemma_exp_at_least_one(x: Fraction, i: nat)
    requires
        x.wf(),
        x.num >= 0,
    ensures
        exp_term(x, i).wf(),
        exp_term(x, i).num >= 0,
        exp_sum(x, i).wf(),
        exp_sum(x, i).num >= exp_sum(x, i).den,
    decreases i,
{
    lemma_exp_wf(x, i);
    if i > 0 {
        let j = (i - 1) as nat;
        lemma_exp_at_least_one(x, j);
        let (t, s) = (exp_term(x, j), exp_sum(x, j));
        let u = exp_term(x, i);
        assert(u.num == (t.num * x.num) * 1);
        assert(u.num >= 0) by (nonlinear_arith)
            requires
                u.num == (t.num * x.num) * 1,
                t.num >= 0,
                x.num >= 0,
        ;
        let total = exp_sum(x, i);
        assert(total.num == s.num * u.den + u.num * s.den);
        assert(total.den == s.den * u.den);
        assert(total.num >= total.den) by (nonlinear_arith)
            requires
                total.num == s.num * u.den + u.num * s.den,
                total.den == s.den * u.den,
                s.num >= s.den,
                s.den > 0,
                u.num >= 0,
                u.den > 0,
        ;
    }
}

/// The summation never goes beyond the term of index `max`.
pub proof fn lemma_exp_last_bounds(x: Fraction, eps: Fraction, max: nat, i: nat)
    requires
        i <= max,
    ensures
        i <= exp_last_from(x, eps, max, i) <= max,
    decreases max - i,
{
    if i < max && !exp_term(x, i + 1).abs().lt(eps) {
        lemma_exp_last_bounds(x, eps, max, i + 1);
    }
}

/// The terms and partial sums stand for the same numbers whichever
/// fraction stands for the argument.
pub proof fn lemma_exp_terms_same(x: Fraction, y: Fraction, i: nat)
    requires
        x.wf(),
        y.wf(),
        x.same(y),
    ensures
        exp_term(x, i).same(exp_term(y, i)),
        exp_sum(x, i).same(exp_sum(y, i)),
    decreases i,
{
    if i > 0 {
        let j = (i - 1) as nat;
        lemma_exp_terms_same(x, y, j);
        lemma_exp_wf(x, j);
        lemma_exp_wf(y, j);
        let index = Fraction::from_int(i as int);
        lemma_mul_same(exp_term(x, j), x, exp_term(y, j), y);
        lemma_div_same(exp_term(x, j).mul(x), index, exp_term(y, j).mul(y), index);
        lemma_add_same(exp_sum(x, j), exp_term(x, i), exp_sum(y, j), exp_term(y, i));
    }
}

/// The summation stops at the same index whichever fractions stand for
/// the argument and the tolerance.
pub proof fn lemma_exp_last_same(
    x: Fraction,
    y: Fraction,
    eps: Fraction,
    tol: Fraction,
    max: nat,
    i: nat,
)
    requires
        x.wf(),
        y.wf(),
        eps.wf(),
        tol.wf(),
        x.same(y),
        eps.same(tol),
    ensures
        exp_last_from(x, eps, max, i) == exp_last_from(y, tol, max, i),
    decreases max - i,
{
    if i < max {
        lemma_exp_terms_same(x, y, i + 1);
        lemma_exp_wf(x, i + 1);
        lemma_exp_wf(y, i + 1);
        let (s, t) = (exp_term(x, i + 1), exp_term(y, i + 1));
        lemma_abs_same(s, t);
        lemma_wf_ops(s, s);
        lemma_wf_ops(t, t);
        lemma_lt_same(s.abs(), eps, t.abs(), tol);
        if !s.abs().lt(eps) {
            lemma_exp_last_same(x, y, eps, tol, max, i + 1);
        }
    }
}

/// The value of `exp` is a number: it does not depend on the fractions
/// that stand for the argument and the tolerance.
pub proof fn lemma_exp_value_same(x: Fraction, y: Fraction, eps: Fraction, tol: Fraction, max: nat)
    requires
        x.wf(),
        y.wf(),
        eps.wf(),
        tol.wf(),
        x.same(y),
        eps.same(tol),
    ensures
        exp_value(x, eps, max).wf(),
        exp_value(y, tol, max).wf(),
        exp_value(x, eps, max).same(exp_value(y, tol, max)),
{
    lemma_exp_last_same(x, y, eps, tol, max, 0);
    lemma_exp_terms_same(x, y, exp_last(x, eps, max));
    lemma_exp_wf(x, exp_last(x, eps, max));
    lemma_exp_wf(y, exp_last(x, eps, max));
}

impl BigRationalConfig {
    /// The stopping tolerance, `1 / 10^precision`.
    pub fn tolerance(&self) -> (eps: Rational)
        ensures
            eps.stands_for(epsilon(self.precision as nat)),
    {
        let ten = int_from_i128(10);
        let scale = int_pow(&ten, self.precision);
        proof {
            lemma_pow_positive(10, self.precision as nat);
        }
        ratio_new(&int_from_i128(1), &scale)
    }

    /// The exponential of `x`: the sum that `exp_with_status` returns.
    pub fn exp(&self, x: &Rational) -> (r: Rational)
        ensures
            r.stands_for(exp_value(x@, epsilon(self.precision as nat), self.max_iterations as nat)),
            forall|y: Fraction|
                x.stands_for(y) ==> #[trigger] r.stands_for(
                    exp_value(y, epsilon(self.precision as nat), self.max_iterations as nat),
                ),
    {
        let r = self.exp_with_status(x).0;
        proof {
            let eps = epsilon(self.precision as nat);
            let max = self.max_iterations as nat;
            lemma_epsilon_wf(self.precision as nat);
            assert forall|y: Fraction| x.stands_for(y) implies #[trigger] r.stands_for(
                exp_value(y, eps, max),
            ) by {
                lemma_exp_value_same(x@, y, eps, eps, max);
                lemma_same_transitive(r@, exp_value(x@, eps, max), exp_value(y, eps, max));
            }
        }
        r
    }

    /// The exponential of `x` by its power series, and whether the
    /// summation came to rest.
    ///
    /// The terms `x^i / i!` are summed from the term of index 0 on; the
    /// summation ends with the first term of index 1 or more that is below
    /// the tolerance in absolute value, and with the term of index
    /// `max_iterations` where no earlier one is that small.  Every `x` has
    /// a result; for large `|x|` the cap may end the summation early.  The
    /// flag tells whether the last term summed is below the tolerance.
    pub fn exp_with_status(&self, x: &Rational) -> (r: (Rational, bool))
        ensures
            r.0.stands_for(
                exp_value(x@, epsilon(self.precision as nat), self.max_iterations as nat),
            ),
            r.1 == exp_converges(
                x@,
                epsilon(self.precision as nat),
                self.max_iterations as nat,
            ),
    {
        let ghost goal = epsilon(self.precision as nat);
        let ghost max = self.max_iterations as nat;
        let eps = self.tolerance();
        let mut sum = bigrational_from_int(1);
        let mut term = bigrational_from_int(1);
        let mut i: u32 = 0;
        proof {
            use_type_invariant(x);
            lemma_same_symmetric(x@, x@);
        }
        while i < self.max_iterations
            invariant
                i <= self.max_iterations,
                max == self.max_iterations,
                goal == epsilon(self.precision as nat),
                x.stands_for(x@),
                eps.stands_for(goal),
                sum.stands_for(exp_sum(x@, i as nat)),
                term.stands_for(exp_term(x@, i as nat)),
                exp_last_from(x@, goal, max, i as nat) == exp_last(x@, goal, max),
                i >= 1 ==> !exp_term(x@, i as nat).abs().lt(goal),
            decreases self.max_iterations - i,
        {
            let index = bigrational_from_int(i as i128 + 1);
            proof {
                assert(index.stands_for(Fraction::from_int(i + 1)));
                lemma_same_sign(index@, Fraction::from_int(i + 1));
            }
            term = term.mul(x).div(&index);
            assert(term.stands_for(exp_term(x@, (i + 1) as nat)));
            sum = sum.add(&term);
            assert(sum.stands_for(exp_sum(x@, (i + 1) as nat)));
            let small = term.abs().lt(&eps);
            assert(small == exp_term(x@, (i + 1) as nat).abs().lt(goal));
            i += 1;
            if small {
                return (sum, true);
            }
        }
        (sum, false)
    }
}

} // verus!
