//! Quotients of integers, as the contracts of this library speak of them.
//!
//! A `Fraction` is a numerator over a denominator.  Two fractions stand
//! for the same number where they are `same`; every function of this
//! library that returns a rational says which number it returns, not
//! which of its fractions.

use vstd::prelude::*;

verus! {

/// A numerator over a denominator.
pub struct Fraction {
    pub num: int,
    pub den: int,
}

impl Fraction {
    /// The fraction `n / 1`.
    pub open spec fn from_int(n: int) -> Fraction {
        Fraction { num: n, den: 1 }
    }

    /// Whether the denominator is positive.
    pub open spec fn wf(self) -> bool {
        self.den > 0
    }

    /// Whether both fractions stand for the same number.
    pub open spec fn same(self, other: Fraction) -> bool {
        self.num * other.den == other.num * self.den
    }

    /// Whether `self` stands for a smaller number than `other`.
    pub open spec fn lt(self, other: Fraction) -> bool {
        self.num * other.den < other.num * self.den
    }

    /// Whether `self` stands for a number no larger than that of `other`.
    pub open spec fn le(self, other: Fraction) -> bool {
        self.num * other.den <= other.num * self.den
    }

    /// Whether `self` stands for zero.
    pub open spec fn is_zero(self) -> bool {
        self.num == 0
    }

    /// The sum.
    pub open spec fn add(self, other: Fraction) -> Fraction {
        Fraction { num: self.num * other.den + other.num * self.den, den: self.den * other.den }
    }

    /// The difference.
    pub open spec fn sub(self, other: Fraction) -> Fraction {
        Fraction { num: self.num * other.den - other.num * self.den, den: self.den * other.den }
    }

    /// The product.
    pub open spec fn mul(self, other: Fraction) -> Fraction {
        Fraction { num: self.num * other.num, den: self.den * other.den }
    }

    /// The quotient, for `other` not zero.
    pub open spec fn div(self, other: Fraction) -> Fraction {
        if other.num >= 0 {
            Fraction { num: self.num * other.den, den: self.den * other.num }
        } else {
            Fraction { num: -(self.num * other.den), den: -(self.den * other.num) }
        }
    }

    /// The negation.
    pub open spec fn neg(self) -> Fraction {
        Fraction { num: -self.num, den: self.den }
    }

    /// The absolute value.
    pub open spec fn abs(self) -> Fraction {
        if self.num < 0 {
            self.neg()
        } else {
            self
        }
    }
}

/// The product of two positive integers is positive.
pub proof fn lemma_pos_mul(a: int, b: int)
    by (nonlinear_arith)
    requires
        a > 0,
        b > 0,
    ensures
        a * b > 0,
{
}

/// Sums, differences and products of well-formed fractions are well formed.
pub proof fn lemma_wf_ops(a: Fraction, b: Fraction)
    requires
        a.wf(),
        b.wf(),
    ensures
        a.add(b).wf(),
        a.sub(b).wf(),
        a.mul(b).wf(),
        a.neg().wf(),
        a.abs().wf(),
        b.num != 0 ==> a.div(b).wf(),
{
    lemma_pos_mul(a.den, b.den);
    if b.num > 0 {
        lemma_pos_mul(a.den, b.num);
    }
    if b.num < 0 {
        lemma_pos_mul(a.den, -b.num);
        assert(-(a.den * b.num) == a.den * (-b.num)) by (nonlinear_arith);
    }
}

/// Standing for the same number is reflexive and symmetric.
pub proof fn lemma_same_symmetric(a: Fraction, b: Fraction)
    ensures
        a.same(a),
        a.same(b) == b.same(a),
{
}

/// Standing for the same number is transitive.
pub proof fn lemma_same_transitive(a: Fraction, b: Fraction, c: Fraction)
    requires
        a.wf(),
        b.wf(),
        c.wf(),
        a.same(b),
        b.same(c),
    ensures
        a.same(c),
{
    let (an, ad, bn, bd, cn, cd) = (a.num, a.den, b.num, b.den, c.num, c.den);
    assert(an * cd == cn * ad) by (nonlinear_arith)
        requires
            bd > 0,
            an * bd == bn * ad,
            bn * cd == cn * bd,
    {
        assert((an * cd) * bd == (an * bd) * cd);
        assert((bn * ad) * cd == (bn * cd) * ad);
        assert((cn * bd) * ad == (cn * ad) * bd);
        assert((an * cd - cn * ad) * bd == 0);
    }
}

/// Cross products stay equal when both sides are scaled by `k * m`.
pub proof fn lemma_cross_scale(an: int, ad: int, cn: int, cd: int, k: int, m: int)
    by (nonlinear_arith)
    requires
        an * cd == cn * ad,
    ensures
        (an * k) * (cd * m) == (cn * m) * (ad * k),
{
    assert((an * k) * (cd * m) == (an * cd) * (k * m));
    assert((cn * m) * (ad * k) == (cn * ad) * (k * m));
}

/// The sum stands for the same number whichever fractions stand for the terms.
pub proof fn lemma_add_same(a: Fraction, b: Fraction, c: Fraction, d: Fraction)
    requires
        a.same(c),
        b.same(d),
    ensures
        a.add(b).same(c.add(d)),
        a.sub(b).same(c.sub(d)),
{
    let (an, ad, bn, bd, cn, cd, dn, dd) = (
        a.num,
        a.den,
        b.num,
        b.den,
        c.num,
        c.den,
        d.num,
        d.den,
    );
    let p = cd * dd;
    let q = ad * bd;
    lemma_cross_scale(an, ad, cn, cd, bd, dd);
    lemma_cross_scale(bn, bd, dn, dd, ad, cd);
    assert(dd * cd == p) by (nonlinear_arith)
        requires
            p == cd * dd,
    ;
    assert(bd * ad == q) by (nonlinear_arith)
        requires
            q == ad * bd,
    ;
    let (x1, x2, u1, u2) = (an * bd, bn * ad, cn * dd, dn * cd);
    assert(x1 * p == u1 * q);
    assert(x2 * p == u2 * q);
    assert((x1 + x2) * p == x1 * p + x2 * p && (x1 - x2) * p == x1 * p - x2 * p)
        by (nonlinear_arith);
    assert((u1 + u2) * q == u1 * q + u2 * q && (u1 - u2) * q == u1 * q - u2 * q)
        by (nonlinear_arith);
}

/// The product stands for the same number whichever fractions stand for the factors.
pub proof fn lemma_mul_same(a: Fraction, b: Fraction, c: Fraction, d: Fraction)
    requires
        a.same(c),
        b.same(d),
    ensures
        a.mul(b).same(c.mul(d)),
{
    let (an, ad, bn, bd, cn, cd, dn, dd) = (
        a.num,
        a.den,
        b.num,
        b.den,
        c.num,
        c.den,
        d.num,
        d.den,
    );
    assert((an * bn) * (cd * dd) == (cn * dn) * (ad * bd)) by (nonlinear_arith)
        requires
            an * cd == cn * ad,
            bn * dd == dn * bd,
    {
        assert((an * bn) * (cd * dd) == (an * cd) * (bn * dd));
        assert((cn * dn) * (ad * bd) == (cn * ad) * (dn * bd));
    }
}

/// Fractions that stand for the same number have numerators of the same sign.
pub proof fn lemma_same_sign(a: Fraction, b: Fraction)
    requires
        a.wf(),
        b.wf(),
        a.same(b),
    ensures
        a.num > 0 <==> b.num > 0,
        a.num < 0 <==> b.num < 0,
        a.num == 0 <==> b.num == 0,
{
    let (an, ad, bn, bd) = (a.num, a.den, b.num, b.den);
    assert((an > 0 <==> bn > 0) && (an < 0 <==> bn < 0)) by (nonlinear_arith)
        requires
            ad > 0,
            bd > 0,
            an * bd == bn * ad,
    ;
}

/// The quotient stands for the same number whichever fractions stand for
/// the dividend and the divisor.
pub proof fn lemma_div_same(a: Fraction, b: Fraction, c: Fraction, d: Fraction)
    requires
        b.wf(),
        d.wf(),
        a.same(c),
        b.same(d),
    ensures
        a.div(b).same(c.div(d)),
{
    lemma_same_sign(b, d);
    let (an, ad, bn, bd, cn, cd, dn, dd) = (
        a.num,
        a.den,
        b.num,
        b.den,
        c.num,
        c.den,
        d.num,
        d.den,
    );
    assert((an * bd) * (cd * dn) == (cn * dd) * (ad * bn)) by (nonlinear_arith)
        requires
            an * cd == cn * ad,
            bn * dd == dn * bd,
    {
        assert((an * bd) * (cd * dn) == (an * cd) * (dn * bd));
        assert((cn * dd) * (ad * bn) == (cn * ad) * (bn * dd));
    }
    assert((-(an * bd)) * (-(cd * dn)) == (an * bd) * (cd * dn)) by (nonlinear_arith);
    assert((-(cn * dd)) * (-(ad * bn)) == (cn * dd) * (ad * bn)) by (nonlinear_arith);
}

/// The absolute value stands for the same number whichever fraction
/// stands for the argument.
pub proof fn lemma_abs_same(a: Fraction, b: Fraction)
    requires
        a.wf(),
        b.wf(),
        a.same(b),
    ensures
        a.abs().same(b.abs()),
        a.neg().same(b.neg()),
{
    lemma_same_sign(a, b);
    let (an, ad, bn, bd) = (a.num, a.den, b.num, b.den);
    assert((-an) * bd == (-bn) * ad) by (nonlinear_arith)
        requires
            an * bd == bn * ad,
    ;
}

/// The order of two numbers does not depend on the fractions that stand for them.
pub proof fn lemma_lt_same(a: Fraction, b: Fraction, c: Fraction, d: Fraction)
    requires
        a.wf(),
        b.wf(),
        c.wf(),
        d.wf(),
        a.same(c),
        b.same(d),
    ensures
        a.lt(b) == c.lt(d),
        a.le(b) == c.le(d),
{
    let (an, ad, bn, bd, cn, cd, dn, dd) = (
        a.num,
        a.den,
        b.num,
        b.den,
        c.num,
        c.den,
        d.num,
        d.den,
    );
    assert(((an * bd < bn * ad) == (cn * dd < dn * cd)) && ((an * bd <= bn * ad) == (cn * dd
        <= dn * cd))) by (nonlinear_arith)
        requires
            ad > 0,
            bd > 0,
            cd > 0,
            dd > 0,
            an * cd == cn * ad,
            bn * dd == dn * bd,
    {
        // Scale both comparisons by the positive factor cd * dd * ad * bd.
        assert((an * bd) * (cd * dd) == (cn * dd) * (ad * bd)) by {
            assert((an * bd) * (cd * dd) == (an * cd) * (bd * dd));
            assert((cn * dd) * (ad * bd) == (cn * ad) * (bd * dd));
        }
        assert((bn * ad) * (cd * dd) == (dn * cd) * (ad * bd)) by {
            assert((bn * ad) * (cd * dd) == (bn * dd) * (ad * cd));
            assert((dn * cd) * (ad * bd) == (dn * bd) * (ad * cd));
        }
        assert(cd * dd > 0);
        assert(ad * bd > 0);
        let p = cd * dd;
        let q = ad * bd;
        let x = an * bd;
        let y = bn * ad;
        let u = cn * dd;
        let w = dn * cd;
        assert(x * p == u * q);
        assert(y * p == w * q);
        assert((x < y) == (x * p < y * p));
        assert((u < w) == (u * q < w * q));
        assert((x <= y) == (x * p <= y * p));
        assert((u <= w) == (u * q <= w * q));
    }
}

/// The order of numbers is transitive.
pub proof fn lemma_le_transitive(a: Fraction, b: Fraction, c: Fraction)
    requires
        a.wf(),
        b.wf(),
        c.wf(),
        a.le(b),
        b.le(c),
    ensures
        a.le(c),
{
    let (an, ad, bn, bd, cn, cd) = (a.num, a.den, b.num, b.den, c.num, c.den);
    assert(an * cd <= cn * ad) by (nonlinear_arith)
        requires
            ad > 0,
            bd > 0,
            cd > 0,
            an * bd <= bn * ad,
            bn * cd <= cn * bd,
    {
        assert((an * bd) * cd <= (bn * ad) * cd);
        assert((bn * cd) * ad <= (cn * bd) * ad);
        assert((an * cd) * bd == (an * bd) * cd);
        assert((bn * ad) * cd == (bn * cd) * ad);
        assert((cn * bd) * ad == (cn * ad) * bd);
        assert((an * cd) * bd <= (cn * ad) * bd);
    }
}

/// Adding a number that is not negative does not make a number smaller.
pub proof fn lemma_add_nonnegative(s: Fraction, t: Fraction)
    requires
        s.wf(),
        t.wf(),
        t.num >= 0,
    ensures
        s.add(t).wf(),
        s.le(s.add(t)),
        s.num >= 0 ==> s.add(t).num >= 0,
{
    let (sn, sd, tn, td) = (s.num, s.den, t.num, t.den);
    assert(sd * td > 0 && sn * (sd * td) <= (sn * td + tn * sd) * sd && (sn >= 0 ==> sn * td
        + tn * sd >= 0)) by (nonlinear_arith)
        requires
            sd > 0,
            td > 0,
            tn >= 0,
    {
        assert((sn * td + tn * sd) * sd == sn * (sd * td) + tn * (sd * sd));
        assert(tn * (sd * sd) >= 0);
        assert(tn * sd >= 0);
        if sn >= 0 {
            assert(sn * td >= 0);
        }
    }
}

} // verus!
