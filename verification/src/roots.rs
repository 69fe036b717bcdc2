//! The square root by Newton's iteration.

use vstd::prelude::*;
use crate::config::BigRationalConfig;
use crate::error::DomainError;
use crate::exponential::{epsilon, lemma_epsilon_wf};
use crate::fraction::{
    lemma_abs_same, lemma_add_same, lemma_div_same, lemma_lt_same, lemma_mul_same, lemma_pos_mul,
    lemma_same_sign, lemma_same_symmetric, lemma_same_transitive, lemma_wf_ops, Fraction,
};
use crate::rational::{bigrational_from_int, bigrational_from_ratio, Rational};

verus! {

/// One step of Newton's iteration for the square root of `n`, from the
/// guess `x`: the mean of `x` and `n / x`.
pub open spec fn newton_step(n: Fraction, x: Fraction) -> Fraction {
    x.add(n.div(x)).div(Fraction::from_int(2))
}

/// The guess after `k` steps, from the first guess `n`.
pub open spec fn newton(n: Fraction, k: nat) -> Fraction
    decreases k,
{
    if k == 0 {
        n
    } else {
        newton_step(n, newton(n, (k - 1) as nat))
    }
}

/// Whether the step to the guess of index `k`, which is 1 or more, moved
/// the guess by more than `eps`.
pub open spec fn newton_moved(n: Fraction, eps: Fraction, k: nat) -> bool {
    eps.lt(newton(n, k).sub(newton(n, (k - 1) as nat)).abs())
}

/// The index of the guess that is returned, given that the iteration
/// reached the index `k`: the first index from `k` on, and not 0, whose
/// step moved the guess by no more than `eps`, and `max` where there is
/// none below `max`.
pub open spec fn sqrt_last_from(n: Fraction, eps: Fraction, max: nat, k: nat) -> nat
    decreases max - k,
{
    if k >= max || (k >= 1 && !newton_moved(n, eps, k)) {
        k
    } else {
        sqrt_last_from(n, eps, max, k + 1)
    }
}

/// The index of the guess that is returned.
pub open spec fn sqrt_last(n: Fraction, eps: Fraction, max: nat) -> nat {
    sqrt_last_from(n, eps, max, 0)
}

/// Whether the iteration ends because a step moved the guess by no more
/// than `eps`, and not because of the cap alone.
pub open spec fn sqrt_converges(n: Fraction, eps: Fraction, max: nat) -> bool {
    n.is_zero() || (sqrt_last(n, eps, max) >= 1 && !newton_moved(
        n,
        eps,
        sqrt_last(n, eps, max),
    ))
}

/// The value of `sqrt`: zero for zero, else the guess of the last index.
pub open spec fn sqrt_value(n: Fraction, eps: Fraction, max: nat) -> Fraction {
    if n.is_zero() {
        Fraction::from_int(0)
    } else {
        newton(n, sqrt_last(n, eps, max))
    }
}

/// A step from a positive guess for a positive number gives a positive guess.
pub proof fn lemma_newton_step_positive(n: Fraction, x: Fraction)
    requires
        n.wf(),
        n.num > 0,
        x.wf(),
        x.num > 0,
    ensures
        newton_step(n, x).wf(),
        newton_step(n, x).num > 0,
        n.div(x).wf(),
        n.div(x).num > 0,
        x.add(n.div(x)).wf(),
        x.add(n.div(x)).num > 0,
{
    let q = n.div(x);
    lemma_pos_mul(n.num, x.den);
    lemma_pos_mul(n.den, x.num);
    let s = x.add(q);
    lemma_pos_mul(x.num, q.den);
    lemma_pos_mul(q.num, x.den);
    lemma_pos_mul(x.den, q.den);
}

/// Every guess for the root of a positive number is positive.
pub proof fn lemma_newton_positive(n: Fraction, k: nat)
    requires
        n.wf(),
        n.num > 0,
    ensures
        newton(n, k).wf(),
        newton(n, k).num > 0,
    decreases k,
{
    if k > 0 {
        lemma_newton_positive(n, (k - 1) as nat);
        lemma_newton_step_positive(n, newton(n, (k - 1) as nat));
    }
}

/// The iteration never takes more than `max` steps.
pub proof fn lemma_sqrt_last_bounds(n: Fraction, eps: Fraction, max: nat, k: nat)
    requires
        k <= max,
    ensures
        k <= sqrt_last_from(n, eps, max, k) <= max,
    decreases max - k,
{
    if k < max && (k == 0 || newton_moved(n, eps, k)) {
        lemma_sqrt_last_bounds(n, eps, max, k + 1);
    }
}

/// A step stands for the same number whichever fractions stand for the
/// number and the guess.
pub proof fn lemma_newton_step_same(n: Fraction, m: Fraction, x: Fraction, y: Fraction)
    requires
        n.wf(),
        m.wf(),
        n.num > 0,
        n.same(m),
        x.wf(),
        y.wf(),
        x.num > 0,
        x.same(y),
    ensures
        newton_step(n, x).same(newton_step(m, y)),
{
    lemma_same_sign(x, y);
    lemma_same_sign(n, m);
    lemma_newton_step_positive(n, x);
    lemma_newton_step_positive(m, y);
    lemma_div_same(n, x, m, y);
    lemma_add_same(x, n.div(x), y, m.div(y));
    let two = Fraction::from_int(2);
    lemma_div_same(x.add(n.div(x)), two, y.add(m.div(y)), two);
}

/// The guesses stand for the same numbers whichever fraction stands for
/// the number whose root is sought.
pub proof fn lemma_newton_same(n: Fraction, m: Fraction, k: nat)
    requires
        n.wf(),
        m.wf(),
        n.num > 0,
        n.same(m),
    ensures
        newton(n, k).wf(),
        newton(m, k).wf(),
        newton(n, k).same(newton(m, k)),
    decreases k,
{
    lemma_same_sign(n, m);
    lemma_newton_positive(n, k);
    lemma_newton_positive(m, k);
    if k > 0 {
        let j = (k - 1) as nat;
        lemma_newton_same(n, m, j);
        lemma_newton_positive(n, j);
        lemma_newton_positive(m, j);
        lemma_newton_step_same(n, m, newton(n, j), newton(m, j));
    }
}

/// The iteration ends at the same index whichever fractions stand for
/// the number and the tolerance.
pub proof fn lemma_sqrt_last_same(
    n: Fraction,
    m: Fraction,
    eps: Fraction,
    tol: Fraction,
    max: nat,
    k: nat,
)
    requires
        n.wf(),
        m.wf(),
        n.num > 0,
        n.same(m),
        eps.wf(),
        tol.wf(),
        eps.same(tol),
    ensures
        k >= 1 ==> newton_moved(n, eps, k) == newton_moved(m, tol, k),
        sqrt_last_from(n, eps, max, k) == sqrt_last_from(m, tol, max, k),
    decreases max - k,
{
    if k >= 1 {
        let j = (k - 1) as nat;
        lemma_newton_same(n, m, k);
        lemma_newton_same(n, m, j);
        let (a, b) = (newton(n, k).sub(newton(n, j)), newton(m, k).sub(newton(m, j)));
        lemma_add_same(newton(n, k), newton(n, j), newton(m, k), newton(m, j));
        lemma_wf_ops(newton(n, k), newton(n, j));
        lemma_wf_ops(newton(m, k), newton(m, j));
        lemma_abs_same(a, b);
        lemma_wf_ops(a, a);
        lemma_wf_ops(b, b);
        lemma_lt_same(eps, a.abs(), tol, b.abs());
    }
    if k < max && (k == 0 || newton_moved(n, eps, k)) {
        lemma_sqrt_last_same(n, m, eps, tol, max, k + 1);
    }
}

/// The value of `sqrt` is a number: it does not depend on the fractions
/// that stand for the argument and the tolerance.  The root of a positive
/// number is positive.
pub proof fn lemma_sqrt_value_same(n: Fraction, m: Fraction, eps: Fraction, tol: Fraction, max: nat)
    requires
        n.wf(),
        m.wf(),
        n.num >= 0,
        n.same(m),
        eps.wf(),
        tol.wf(),
        eps.same(tol),
    ensures
        sqrt_value(n, eps, max).wf(),
        sqrt_value(m, tol, max).wf(),
        sqrt_value(n, eps, max).same(sqrt_value(m, tol, max)),
        sqrt_converges(n, eps, max) == sqrt_converges(m, tol, max),
        n.num > 0 ==> sqrt_value(n, eps, max).num > 0,
{
    lemma_same_sign(n, m);
    if n.num > 0 {
        lemma_sqrt_last_same(n, m, eps, tol, max, 0);
        let k = sqrt_last(n, eps, max);
        lemma_newton_same(n, m, k);
        lemma_newton_positive(n, k);
        lemma_sqrt_last_same(n, m, eps, tol, max, k);
    }
}

/// The square of a guess exceeds the number by the square of the last move:
/// in integers, for the guess `big_n / big_d` made from `a / b` for `p / q`.
proof fn lemma_step_algebra(a: int, b: int, p: int, q: int, big_n: int, big_d: int, m: int)
    requires
        big_n == a * (q * a) + (p * b) * b,
        big_d == (b * (q * a)) * 2,
        m == p * b * b - a * a * q,
    ensures
        big_n * b - a * big_d == b * m,
        big_n * big_n * q - p * (big_d * big_d) == q * (m * m),
{
    let u = a * a * q;
    let v = p * b * b;
    assert(big_n == u + v) by (nonlinear_arith)
        requires
            big_n == a * (q * a) + (p * b) * b,
            u == a * a * q,
            v == p * b * b,
    ;
    assert(a * big_d == 2 * (u * b)) by (nonlinear_arith)
        requires
            big_d == (b * (q * a)) * 2,
            u == a * a * q,
    ;
    assert(big_n * b == u * b + v * b && b * m == v * b - u * b) by (nonlinear_arith)
        requires
            big_n == u + v,
            m == v - u,
    ;
    assert(big_n * big_n == m * m + 4 * (u * v)) by (nonlinear_arith)
        requires
            big_n == u + v,
            m == v - u,
    ;
    assert(p * (big_d * big_d) == 4 * (u * v) * q) by (nonlinear_arith)
        requires
            big_d == (b * (q * a)) * 2,
            u == a * a * q,
            v == p * b * b,
    ;
    assert(big_n * big_n * q == (m * m) * q + 4 * (u * v) * q) by (nonlinear_arith)
        requires
            big_n * big_n == m * m + 4 * (u * v),
    ;
    assert((m * m) * q == q * (m * m)) by (nonlinear_arith);
}

/// After a step, the square of the guess exceeds the number by exactly
/// the square of the move that the step made.
pub proof fn lemma_newton_square(n: Fraction, x: Fraction)
    requires
        n.wf(),
        n.num > 0,
        x.wf(),
        x.num > 0,
    ensures
        ({
            let y = newton_step(n, x);
            y.mul(y).sub(n).same(y.sub(x).mul(y.sub(x)))
        }),
{
    let y = newton_step(n, x);
    let (a, b, p, q) = (x.num, x.den, n.num, n.den);
    let m = p * b * b - a * a * q;
    lemma_newton_step_positive(n, x);
    assert(y.num == (a * (q * a) + (p * b) * b) * 1);
    assert(y.den == (b * (q * a)) * 2);
    lemma_step_algebra(a, b, p, q, y.num, y.den, m);
    let (big_n, big_d) = (y.num, y.den);
    let off = y.mul(y).sub(n);
    let moved = y.sub(x);
    assert(off.num == (big_n * big_n) * q - p * (big_d * big_d));
    assert(off.den == (big_d * big_d) * q);
    assert(moved.num == big_n * b - a * big_d);
    assert(moved.den == big_d * b);
    assert(off.num * (moved.den * moved.den) == (moved.num * moved.num) * off.den)
        by (nonlinear_arith)
        requires
            off.num == q * (m * m),
            off.den == (big_d * big_d) * q,
            moved.num == b * m,
            moved.den == big_d * b,
    {
        assert((q * (m * m)) * ((big_d * b) * (big_d * b)) == ((b * m) * (b * m)) * ((big_d
            * big_d) * q));
    }
}

/// A move `m / d` of at most `1 / t` has a square of at most `2 / t`: in
/// integers, with every fraction scaled by the positive `b` and `q`.
proof fn lemma_small_move(m: int, d: int, t: int, b: int, q: int)
    by (nonlinear_arith)
    requires
        d > 0,
        t >= 1,
        b > 0,
        q > 0,
        (if b * m < 0 { -(b * m) } else { b * m }) * t <= d * b,
    ensures
        0 <= q * (m * m),
        (q * (m * m)) * t <= 2 * ((d * d) * q),
{
    let size = if m < 0 { -m } else { m };
    assert((if b * m < 0 { -(b * m) } else { b * m }) == b * size);
    assert((b * size) * t == b * (size * t));
    assert(d * b == b * d);
    assert(size * t <= d);
    assert(0 <= size * t);
    assert((size * t) * (size * t) <= d * d);
    assert((size * t) * (size * t) == (m * m) * (t * t));
    assert(m * m >= 0);
    assert((m * m) * t <= (m * m) * (t * t));
    assert((m * m) * t <= d * d);
    assert(q * ((m * m) * t) <= q * (d * d));
    assert((q * (m * m)) * t == q * ((m * m) * t));
    assert((d * d) * q == q * (d * d));
    assert(0 <= (d * d) * q);
}

/// After a step that moved the guess by no more than `1 / t`, the square
/// of the guess is within `2 / t` of the number.
pub proof fn lemma_step_round_trip(n: Fraction, x: Fraction, t: int)
    requires
        n.wf(),
        n.num > 0,
        x.wf(),
        x.num > 0,
        t >= 1,
        !(Fraction { num: 1, den: t }).lt(newton_step(n, x).sub(x).abs()),
    ensures
        ({
            let y = newton_step(n, x);
            y.mul(y).sub(n).abs().le(Fraction::from_int(2).mul(Fraction { num: 1, den: t }))
        }),
{
    let y = newton_step(n, x);
    let (a, b, p, q) = (x.num, x.den, n.num, n.den);
    let m = p * b * b - a * a * q;
    lemma_newton_step_positive(n, x);
    assert(y.num == (a * (q * a) + (p * b) * b) * 1);
    assert(y.den == (b * (q * a)) * 2);
    lemma_step_algebra(a, b, p, q, y.num, y.den, m);
    let moved = y.sub(x);
    assert(moved.num == y.num * b - a * y.den);
    assert(moved.den == y.den * b);
    assert((if b * m < 0 { -(b * m) } else { b * m }) * t <= y.den * b) by {
        assert(moved.abs().num == if b * m < 0 { -(b * m) } else { b * m });
        assert(moved.abs().den == y.den * b);
    }
    lemma_small_move(m, y.den, t, b, q);
    let off = y.mul(y).sub(n);
    assert(off.num == (y.num * y.num) * q - p * (y.den * y.den));
    assert(off.den == (y.den * y.den) * q);
    assert(off.num == q * (m * m)) by (nonlinear_arith)
        requires
            off.num == (y.num * y.num) * q - p * (y.den * y.den),
            y.num * y.num * q - p * (y.den * y.den) == q * (m * m),
    ;
    assert(off.abs() == off);
    let bound = Fraction::from_int(2).mul(Fraction { num: 1, den: t });
    assert(bound.num == 2 && bound.den == t) by (nonlinear_arith)
        requires
            bound.num == 2 * 1,
            bound.den == 1 * t,
    ;
}

/// Where the iteration ends because a step moved the guess by no more
/// than the tolerance, the square of the result is within twice the
/// tolerance of the number.
///
/// Where the cap of `max` steps alone ends the iteration, the result may
/// lie further off: one step from 2 gives 3/2, whose square is 9/4.
pub proof fn lemma_sqrt_round_trip(n: Fraction, precision: nat, max: nat)
    requires
        n.wf(),
        n.num >= 0,
        sqrt_converges(n, epsilon(precision), max),
    ensures
        ({
            let r = sqrt_value(n, epsilon(precision), max);
            r.mul(r).sub(n).abs().le(Fraction::from_int(2).mul(epsilon(precision)))
        }),
{
    let eps = epsilon(precision);
    lemma_epsilon_wf(precision);
    let r = sqrt_value(n, eps, max);
    let k = sqrt_last(n, eps, max);
    if n.num == 0 {
        let off = r.mul(r).sub(n).abs();
        let bound = Fraction::from_int(2).mul(eps);
        assert(off.num == 0 && off.den > 0) by (nonlinear_arith)
            requires
                r.mul(r).sub(n).num == (0 * 0) * n.den - n.num * (1 * 1),
                r.mul(r).sub(n).den == (1 * 1) * n.den,
                off == r.mul(r).sub(n).abs(),
                n.num == 0,
                n.den > 0,
        ;
        assert(off.num * bound.den <= bound.num * off.den) by (nonlinear_arith)
            requires
                off.num == 0,
                off.den > 0,
                bound.num == 2 * 1,
        ;
    } else {
        let x = newton(n, (k - 1) as nat);
        assert(r == newton_step(n, x));
        assert(eps == Fraction { num: 1, den: eps.den });
        lemma_newton_positive(n, (k - 1) as nat);
        lemma_step_round_trip(n, x, eps.den);
    }
}

/// The distance of a square from a number does not depend on the
/// fraction that stands for the root.
pub proof fn lemma_round_trip_same(r: Fraction, v: Fraction, n: Fraction, bound: Fraction)
    requires
        r.wf(),
        v.wf(),
        n.wf(),
        bound.wf(),
        r.same(v),
        v.mul(v).sub(n).abs().le(bound),
    ensures
        r.mul(r).sub(n).abs().le(bound),
{
    lemma_mul_same(r, r, v, v);
    lemma_wf_ops(r, r);
    lemma_wf_ops(v, v);
    lemma_same_symmetric(n, n);
    lemma_add_same(r.mul(r), n, v.mul(v), n);
    lemma_wf_ops(r.mul(r), n);
    lemma_wf_ops(v.mul(v), n);
    lemma_abs_same(r.mul(r).sub(n), v.mul(v).sub(n));
    lemma_wf_ops(r.mul(r).sub(n), n);
    lemma_wf_ops(v.mul(v).sub(n), n);
    lemma_same_symmetric(bound, bound);
    lemma_lt_same(r.mul(r).sub(n).abs(), bound, v.mul(v).sub(n).abs(), bound);
}

impl BigRationalConfig {
    /// The square root of `n`, which is not negative, by Newton's
    /// iteration, and whether the iteration came to rest.
    ///
    /// Zero has the root zero.  Otherwise the first guess is `n` itself
    /// and each further guess is the mean of the guess before and `n`
    /// divided by it.  The iteration ends with the first step that moves
    /// the guess by no more than the tolerance, and after `max_iterations`
    /// steps at the latest.  The flag tells whether the last step moved
    /// the guess by no more than the tolerance; where it did, the square
    /// of the root is within twice the tolerance of `n`.
    pub fn sqrt_with_status(&self, n: &Rational) -> (r: (Rational, bool))
        requires
            n@.num >= 0,
        ensures
            r.0.stands_for(
                sqrt_value(n@, epsilon(self.precision as nat), self.max_iterations as nat),
            ),
            r.1 == sqrt_converges(
                n@,
                epsilon(self.precision as nat),
                self.max_iterations as nat,
            ),
            r.1 ==> r.0@.mul(r.0@).sub(n@).abs().le(
                Fraction::from_int(2).mul(epsilon(self.precision as nat)),
            ),
    {
        let ghost goal = epsilon(self.precision as nat);
        let ghost max = self.max_iterations as nat;
        let ghost bound = Fraction::from_int(2).mul(goal);
        proof {
            use_type_invariant(n);
            lemma_same_symmetric(n@, n@);
            lemma_epsilon_wf(self.precision as nat);
            lemma_wf_ops(Fraction::from_int(2), goal);
            if sqrt_converges(n@, goal, max) {
                lemma_sqrt_round_trip(n@, self.precision as nat, max);
            }
        }
        if n.is_zero() {
            let zero = bigrational_from_int(0);
            proof {
                lemma_round_trip_same(zero@, sqrt_value(n@, goal, max), n@, bound);
            }
            return (zero, true);
        }
        let two = bigrational_from_ratio(2, 1);
        let tolerance = self.tolerance();
        let mut x = n.clone();
        let mut c: u32 = 0;
        while c < self.max_iterations
            invariant
                c <= self.max_iterations,
                max == self.max_iterations,
                goal == epsilon(self.precision as nat),
                bound == Fraction::from_int(2).mul(goal),
                bound.wf(),
                n.stands_for(n@),
                n@.num > 0,
                tolerance.stands_for(goal),
                two.stands_for(Fraction::from_int(2)),
                x.stands_for(newton(n@, c as nat)),
                c >= 1 ==> newton_moved(n@, goal, c as nat),
                sqrt_last_from(n@, goal, max, c as nat) == sqrt_last(n@, goal, max),
                sqrt_converges(n@, goal, max) ==> sqrt_value(n@, goal, max).mul(
                    sqrt_value(n@, goal, max),
                ).sub(n@).abs().le(bound),
            decreases self.max_iterations - c,
        {
            proof {
                lemma_newton_positive(n@, c as nat);
                lemma_same_sign(x@, newton(n@, c as nat));
                lemma_same_sign(two@, Fraction::from_int(2));
            }
            let next = x.add(&n.div(&x)).div(&two);
            assert(next.stands_for(newton(n@, (c + 1) as nat)));
            let moved = tolerance.lt(&next.sub(&x).abs());
            assert(moved == newton_moved(n@, goal, (c + 1) as nat));
            assert(sqrt_last_from(n@, goal, max, c as nat) == sqrt_last_from(
                n@,
                goal,
                max,
                (c + 1) as nat,
            ));
            x = next;
            c += 1;
            if !moved {
                proof {
                    assert(sqrt_last(n@, goal, max) == c);
                    lemma_round_trip_same(x@, newton(n@, c as nat), n@, bound);
                }
                return (x, true);
            }
        }
        (x, false)
    }

    /// The square root of `n`, which is not negative: the root that
    /// `sqrt_with_status` returns.  Where the iteration came to rest, the
    /// square of the root is within twice the tolerance of `n`.
    pub fn sqrt(&self, n: &Rational) -> (r: Rational)
        requires
            n@.num >= 0,
        ensures
            r.stands_for(
                sqrt_value(n@, epsilon(self.precision as nat), self.max_iterations as nat),
            ),
            forall|m: Fraction|
                n.stands_for(m) ==> #[trigger] r.stands_for(
                    sqrt_value(m, epsilon(self.precision as nat), self.max_iterations as nat),
                ),
            n@.num > 0 ==> r@.num > 0,
            sqrt_converges(n@, epsilon(self.precision as nat), self.max_iterations as nat)
                ==> r@.mul(r@).sub(n@).abs().le(
                Fraction::from_int(2).mul(epsilon(self.precision as nat)),
            ),
    {
        let r = self.sqrt_with_status(n).0;
        proof {
            use_type_invariant(n);
            let eps = epsilon(self.precision as nat);
            let max = self.max_iterations as nat;
            lemma_epsilon_wf(self.precision as nat);
            lemma_same_symmetric(n@, n@);
            lemma_sqrt_value_same(n@, n@, eps, eps, max);
            lemma_same_sign(r@, sqrt_value(n@, eps, max));
            assert forall|m: Fraction| n.stands_for(m) implies #[trigger] r.stands_for(
                sqrt_value(m, eps, max),
            ) by {
                lemma_sqrt_value_same(n@, m, eps, eps, max);
                lemma_same_transitive(r@, sqrt_value(n@, eps, max), sqrt_value(m, eps, max));
            }
        }
        r
    }

    /// The square root of `n` as `sqrt` gives it, or an error where `n` is
    /// negative.
    pub fn checked_sqrt(&self, n: &Rational) -> (r: Result<Rational, DomainError>)
        ensures
            match r {
                Ok(root) => {
                    &&& n@.num >= 0
                    &&& root.stands_for(
                        sqrt_value(
                            n@,
                            epsilon(self.precision as nat),
                            self.max_iterations as nat,
                        ),
                    )
                    &&& sqrt_converges(
                        n@,
                        epsilon(self.precision as nat),
                        self.max_iterations as nat,
                    ) ==> root@.mul(root@).sub(n@).abs().le(
                        Fraction::from_int(2).mul(epsilon(self.precision as nat)),
                    )
                },
                Err(e) => n@.num < 0 && e == DomainError::NegativeSquareRoot,
            },
    {
        if n.is_negative() {
            Err(DomainError::NegativeSquareRoot)
        } else {
            Ok(self.sqrt(n))
        }
    }
}

} // verus!
