//! Exact rational numbers.
//!
//! A `Rational` holds a numerator and a positive denominator; the
//! arithmetic on it is done by `num_rational::BigRational`, which works
//! in lowest terms.  The contracts speak of the number a `Rational`
//! stands for, through its view, a `Fraction`.
//!
//! The functions named `ratio_...` are not verified: each is believed to
//! do what its contract says.  Each makes a `BigRational` of an argument
//! with `BigRational::new`, which is believed to keep the number while it
//! reduces the fraction and makes the denominator positive, calls the one
//! function of `BigRational` that its doc comment names, and takes the
//! numerator and the denominator of the result apart again; the integers
//! pass through bytes as in the module `integer`.

use num_bigint::BigInt;
use num_rational::BigRational;
use num_traits::{Signed, Zero};
use vstd::prelude::*;
use crate::fraction::{
    lemma_abs_same, lemma_add_same, lemma_div_same, lemma_lt_same, lemma_mul_same,
    lemma_same_sign, lemma_same_transitive, lemma_wf_ops, Fraction,
};
use crate::integer::{int_from_i128, int_ge, Integer};

verus! {

/// An exact rational number.
pub struct Rational {
    numer: Integer,
    denom: Integer,
}

impl View for Rational {
    type V = Fraction;

    closed spec fn view(&self) -> Fraction {
        Fraction { num: self.numer@, den: self.denom@ }
    }
}

impl Clone for Rational {
    fn clone(&self) -> (r: Rational)
        ensures
            r@ == self@,
    {
        proof {
            use_type_invariant(self);
        }
        Rational { numer: self.numer.clone(), denom: self.denom.clone() }
    }
}

impl Rational {
    /// Every `Rational` holds a positive denominator.
    #[verifier::type_invariant]
    pub open spec fn positive_denominator(self) -> bool {
        self@.wf()
    }

    /// The rational `numer / denom`, where `denom` is positive.
    pub fn from_parts(numer: Integer, denom: Integer) -> (r: Option<Rational>)
        ensures
            r is Some <==> denom@ > 0,
            r matches Some(q) ==> q@ == (Fraction { num: numer@, den: denom@ }),
    {
        let one = int_from_i128(1);
        if int_ge(&denom, &one) {
            Some(Rational { numer, denom })
        } else {
            None
        }
    }

    /// Whether `self` stands for the number of the well-formed fraction `x`.
    pub open spec fn stands_for(&self, x: Fraction) -> bool {
        self@.wf() && x.wf() && self@.same(x)
    }

    /// Whether the number is below zero.
    pub fn is_negative(&self) -> (b: bool)
        ensures
            b == (self@.num < 0),
            forall|x: Fraction| self.stands_for(x) ==> b == (x.num < 0),
    {
        proof {
            use_type_invariant(self);
            assert forall|x: Fraction| self.stands_for(x) implies (self@.num < 0) == (x.num
                < 0) by {
                lemma_same_sign(self@, x);
            }
        }
        ratio_is_negative(self)
    }

    /// Whether the number is above zero.
    pub fn is_positive(&self) -> (b: bool)
        ensures
            b == (self@.num > 0),
            forall|x: Fraction| self.stands_for(x) ==> b == (x.num > 0),
    {
        proof {
            use_type_invariant(self);
            assert forall|x: Fraction| self.stands_for(x) implies (self@.num > 0) == (x.num
                > 0) by {
                lemma_same_sign(self@, x);
            }
        }
        ratio_is_positive(self)
    }

    /// Whether the number is zero.
    pub fn is_zero(&self) -> (b: bool)
        ensures
            b == self@.is_zero(),
            forall|x: Fraction| self.stands_for(x) ==> b == x.is_zero(),
    {
        proof {
            use_type_invariant(self);
            assert forall|x: Fraction| self.stands_for(x) implies self@.is_zero()
                == x.is_zero() by {
                lemma_same_sign(self@, x);
            }
        }
        ratio_is_zero(self)
    }

    /// The sum of `self` and `other`.
    pub fn add(&self, other: &Rational) -> (r: Rational)
        ensures
            r.stands_for(self@.add(other@)),
            forall|x: Fraction, y: Fraction|
                self.stands_for(x) && other.stands_for(y) ==> #[trigger] r.stands_for(x.add(y)),
    {
        proof {
            use_type_invariant(self);
            use_type_invariant(other);
        }
        let r = ratio_add(self, other);
        proof {
            lemma_wf_ops(self@, other@);
            assert forall|x: Fraction, y: Fraction|
                self.stands_for(x) && other.stands_for(y) implies #[trigger] r.stands_for(
                x.add(y),
            ) by {
                lemma_wf_ops(x, y);
                lemma_add_same(self@, other@, x, y);
                lemma_same_transitive(r@, self@.add(other@), x.add(y));
            }
        }
        r
    }

    /// The difference of `self` and `other`.
    pub fn sub(&self, other: &Rational) -> (r: Rational)
        ensures
            r.stands_for(self@.sub(other@)),
            forall|x: Fraction, y: Fraction|
                self.stands_for(x) && other.stands_for(y) ==> #[trigger] r.stands_for(x.sub(y)),
    {
        proof {
            use_type_invariant(self);
            use_type_invariant(other);
        }
        let r = ratio_sub(self, other);
        proof {
            lemma_wf_ops(self@, other@);
            assert forall|x: Fraction, y: Fraction|
                self.stands_for(x) && other.stands_for(y) implies #[trigger] r.stands_for(
                x.sub(y),
            ) by {
                lemma_wf_ops(x, y);
                lemma_add_same(self@, other@, x, y);
                lemma_same_transitive(r@, self@.sub(other@), x.sub(y));
            }
        }
        r
    }

    /// The product of `self` and `other`.
    pub fn mul(&self, other: &Rational) -> (r: Rational)
        ensures
            r.stands_for(self@.mul(other@)),
            forall|x: Fraction, y: Fraction|
                self.stands_for(x) && other.stands_for(y) ==> #[trigger] r.stands_for(x.mul(y)),
    {
        proof {
            use_type_invariant(self);
            use_type_invariant(other);
        }
        let r = ratio_mul(self, other);
        proof {
            lemma_wf_ops(self@, other@);
            assert forall|x: Fraction, y: Fraction|
                self.stands_for(x) && other.stands_for(y) implies #[trigger] r.stands_for(
                x.mul(y),
            ) by {
                lemma_wf_ops(x, y);
                lemma_mul_same(self@, other@, x, y);
                lemma_same_transitive(r@, self@.mul(other@), x.mul(y));
            }
        }
        r
    }

    /// The quotient of `self` by `other`, which is not zero.
    pub fn div(&self, other: &Rational) -> (r: Rational)
        requires
            !other@.is_zero(),
        ensures
            r.stands_for(self@.div(other@)),
            forall|x: Fraction, y: Fraction|
                self.stands_for(x) && other.stands_for(y) ==> #[trigger] r.stands_for(x.div(y)),
    {
        proof {
            use_type_invariant(self);
            use_type_invariant(other);
        }
        let r = ratio_div(self, other);
        proof {
            lemma_wf_ops(self@, other@);
            assert forall|x: Fraction, y: Fraction|
                self.stands_for(x) && other.stands_for(y) implies #[trigger] r.stands_for(
                x.div(y),
            ) by {
                lemma_same_sign(other@, y);
                lemma_wf_ops(x, y);
                lemma_div_same(self@, other@, x, y);
                lemma_same_transitive(r@, self@.div(other@), x.div(y));
            }
        }
        r
    }

    /// The absolute value of `self`.
    pub fn abs(&self) -> (r: Rational)
        ensures
            r.stands_for(self@.abs()),
            forall|x: Fraction| self.stands_for(x) ==> #[trigger] r.stands_for(x.abs()),
    {
        proof {
            use_type_invariant(self);
        }
        let r = ratio_abs(self);
        proof {
            lemma_wf_ops(self@, self@);
            assert forall|x: Fraction| self.stands_for(x) implies #[trigger] r.stands_for(
                x.abs(),
            ) by {
                lemma_wf_ops(x, x);
                lemma_abs_same(self@, x);
                lemma_same_transitive(r@, self@.abs(), x.abs());
            }
        }
        r
    }

    /// Whether `self` is smaller than `other`.
    pub fn lt(&self, other: &Rational) -> (b: bool)
        ensures
            b == self@.lt(other@),
            forall|x: Fraction, y: Fraction|
                self.stands_for(x) && other.stands_for(y) ==> b == #[trigger] x.lt(y),
    {
        proof {
            use_type_invariant(self);
            use_type_invariant(other);
            assert forall|x: Fraction, y: Fraction|
                self.stands_for(x) && other.stands_for(y) implies self@.lt(other@)
                == #[trigger] x.lt(y) by {
                lemma_lt_same(self@, other@, x, y);
            }
        }
        ratio_lt(self, other)
    }

    /// The numerator of the fraction held.
    pub fn numer(&self) -> (n: &Integer)
        ensures
            n@ == self@.num,
    {
        &self.numer
    }

    /// The denominator of the fraction held; it is positive.
    pub fn denom(&self) -> (d: &Integer)
        ensures
            d@ == self@.den,
            d@ > 0,
    {
        proof {
            use_type_invariant(self);
        }
        &self.denom
    }
}

/// `BigRational::new`: the quotient of `n` by `d`.  It panics on a zero
/// denominator.
#[verifier::external_body]
pub(crate) fn ratio_new(n: &Integer, d: &Integer) -> (r: Rational)
    requires
        d@ != 0,
    ensures
        r@.wf(),
        r@.same(Fraction { num: n@, den: d@ }),
{
    let q = BigRational::new(
        BigInt::from_signed_bytes_le(&n.bytes),
        BigInt::from_signed_bytes_le(&d.bytes),
    );
    Rational {
        numer: Integer { bytes: q.numer().to_signed_bytes_le() },
        denom: Integer { bytes: q.denom().to_signed_bytes_le() },
    }
}

/// `BigRational`'s `+`: the sum.
#[verifier::external_body]
pub(crate) fn ratio_add(a: &Rational, b: &Rational) -> (r: Rational)
    requires
        a@.wf(),
        b@.wf(),
    ensures
        r@.wf(),
        r@.same(a@.add(b@)),
{
    let x = BigRational::new(
        BigInt::from_signed_bytes_le(&a.numer.bytes),
        BigInt::from_signed_bytes_le(&a.denom.bytes),
    );
    let y = BigRational::new(
        BigInt::from_signed_bytes_le(&b.numer.bytes),
        BigInt::from_signed_bytes_le(&b.denom.bytes),
    );
    let q = x + y;
    Rational {
        numer: Integer { bytes: q.numer().to_signed_bytes_le() },
        denom: Integer { bytes: q.denom().to_signed_bytes_le() },
    }
}

/// `BigRational`'s `-`: the difference.
#[verifier::external_body]
pub(crate) fn ratio_sub(a: &Rational, b: &Rational) -> (r: Rational)
    requires
        a@.wf(),
        b@.wf(),
    ensures
        r@.wf(),
        r@.same(a@.sub(b@)),
{
    let x = BigRational::new(
        BigInt::from_signed_bytes_le(&a.numer.bytes),
        BigInt::from_signed_bytes_le(&a.denom.bytes),
    );
    let y = BigRational::new(
        BigInt::from_signed_bytes_le(&b.numer.bytes),
        BigInt::from_signed_bytes_le(&b.denom.bytes),
    );
    let q = x - y;
    Rational {
        numer: Integer { bytes: q.numer().to_signed_bytes_le() },
        denom: Integer { bytes: q.denom().to_signed_bytes_le() },
    }
}

/// `BigRational`'s `*`: the product.
#[verifier::external_body]
pub(crate) fn ratio_mul(a: &Rational, b: &Rational) -> (r: Rational)
    requires
        a@.wf(),
        b@.wf(),
    ensures
        r@.wf(),
        r@.same(a@.mul(b@)),
{
    let x = BigRational::new(
        BigInt::from_signed_bytes_le(&a.numer.bytes),
        BigInt::from_signed_bytes_le(&a.denom.bytes),
    );
    let y = BigRational::new(
        BigInt::from_signed_bytes_le(&b.numer.bytes),
        BigInt::from_signed_bytes_le(&b.denom.bytes),
    );
    let q = x * y;
    Rational {
        numer: Integer { bytes: q.numer().to_signed_bytes_le() },
        denom: Integer { bytes: q.denom().to_signed_bytes_le() },
    }
}

/// `BigRational`'s `/`: the quotient.  It panics on a zero divisor.
#[verifier::external_body]
pub(crate) fn ratio_div(a: &Rational, b: &Rational) -> (r: Rational)
    requires
        a@.wf(),
        b@.wf(),
        !b@.is_zero(),
    ensures
        r@.wf(),
        r@.same(a@.div(b@)),
{
    let x = BigRational::new(
        BigInt::from_signed_bytes_le(&a.numer.bytes),
        BigInt::from_signed_bytes_le(&a.denom.bytes),
    );
    let y = BigRational::new(
        BigInt::from_signed_bytes_le(&b.numer.bytes),
        BigInt::from_signed_bytes_le(&b.denom.bytes),
    );
    let q = x / y;
    Rational {
        numer: Integer { bytes: q.numer().to_signed_bytes_le() },
        denom: Integer { bytes: q.denom().to_signed_bytes_le() },
    }
}

/// `BigRational::abs`: the absolute value.
#[verifier::external_body]
pub(crate) fn ratio_abs(a: &Rational) -> (r: Rational)
    requires
        a@.wf(),
    ensures
        r@.wf(),
        r@.same(a@.abs()),
{
    let q = BigRational::new(
        BigInt::from_signed_bytes_le(&a.numer.bytes),
        BigInt::from_signed_bytes_le(&a.denom.bytes),
    ).abs();
    Rational {
        numer: Integer { bytes: q.numer().to_signed_bytes_le() },
        denom: Integer { bytes: q.denom().to_signed_bytes_le() },
    }
}

/// `BigRational`'s `<`: whether `a` is smaller than `b`.
#[verifier::external_body]
pub(crate) fn ratio_lt(a: &Rational, b: &Rational) -> (r: bool)
    requires
        a@.wf(),
        b@.wf(),
    ensures
        r == a@.lt(b@),
{
    let x = BigRational::new(
        BigInt::from_signed_bytes_le(&a.numer.bytes),
        BigInt::from_signed_bytes_le(&a.denom.bytes),
    );
    let y = BigRational::new(
        BigInt::from_signed_bytes_le(&b.numer.bytes),
        BigInt::from_signed_bytes_le(&b.denom.bytes),
    );
    x < y
}

/// `BigRational::is_zero`: whether `a` is zero.
#[verifier::external_body]
pub(crate) fn ratio_is_zero(a: &Rational) -> (r: bool)
    requires
        a@.wf(),
    ensures
        r == a@.is_zero(),
{
    BigRational::new(
        BigInt::from_signed_bytes_le(&a.numer.bytes),
        BigInt::from_signed_bytes_le(&a.denom.bytes),
    ).is_zero()
}

/// `BigRational::is_negative`: whether `a` is below zero.
#[verifier::external_body]
pub(crate) fn ratio_is_negative(a: &Rational) -> (r: bool)
    requires
        a@.wf(),
    ensures
        r == (a@.num < 0),
{
    BigRational::new(
        BigInt::from_signed_bytes_le(&a.numer.bytes),
        BigInt::from_signed_bytes_le(&a.denom.bytes),
    ).is_negative()
}

/// `BigRational::is_positive`: whether `a` is above zero.
#[verifier::external_body]
pub(crate) fn ratio_is_positive(a: &Rational) -> (r: bool)
    requires
        a@.wf(),
    ensures
        r == (a@.num > 0),
{
    BigRational::new(
        BigInt::from_signed_bytes_le(&a.numer.bytes),
        BigInt::from_signed_bytes_le(&a.denom.bytes),
    ).is_positive()
}

/// `BigRational::from_integer`: the rational with the value of `n`.
#[verifier::external_body]
pub(crate) fn ratio_from_integer(n: &Integer) -> (r: Rational)
    ensures
        r@.wf(),
        r@.same(Fraction::from_int(n@)),
{
    let q = BigRational::from_integer(BigInt::from_signed_bytes_le(&n.bytes));
    Rational {
        numer: Integer { bytes: q.numer().to_signed_bytes_le() },
        denom: Integer { bytes: q.denom().to_signed_bytes_le() },
    }
}

/// The rational with the value of the integer `n`.
pub fn bigrational_from_int(n: i128) -> (r: Rational)
    ensures
        r@.wf(),
        r@.same(Fraction::from_int(n as int)),
        r.stands_for(Fraction::from_int(n as int)),
{
    ratio_from_integer(&int_from_i128(n))
}

/// The rational `n / d`.
pub fn bigrational_from_ratio(n: i128, d: i128) -> (r: Rational)
    requires
        d != 0,
    ensures
        r@.wf(),
        r@.same(Fraction { num: n as int, den: d as int }),
{
    ratio_new(&int_from_i128(n), &int_from_i128(d))
}

} // verus!
