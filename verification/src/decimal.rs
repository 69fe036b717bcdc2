//! Rationals as decimal text with a chosen number of fraction digits.

use vstd::arithmetic::div_mod::{
    lemma_fundamental_div_mod, lemma_fundamental_div_mod_converse, lemma_mod_bound,
};
use vstd::arithmetic::power::{lemma_pow_positive, pow};
use vstd::prelude::*;
use crate::config::BigRationalConfig;
use crate::digits::{decimal_digits, lemma_decimal_digits_len};
use crate::fraction::{
    lemma_abs_same, lemma_mul_same, lemma_same_sign, lemma_same_symmetric, lemma_wf_ops, Fraction,
};
use crate::integer::{
    int_add, int_div, int_from_i128, int_ge, int_mul, int_pow, int_rem, int_to_string, magnitude,
    trunc_rem,
};
use crate::rational::{ratio_from_integer, Rational};
use crate::text::{chars_of, push_range, push_zeros, string_of, zeros};

verus! {

/// The number `|r|` in units of `10^-digits`, rounded half up: `|r|` times
/// `10^digits`, rounded to the nearest integer, a half going up.
pub open spec fn rounded_total(r: Fraction, digits: nat) -> int {
    let scaled = magnitude(r.num) * pow(10, digits);
    if 2 * (scaled % r.den) >= r.den {
        scaled / r.den + 1
    } else {
        scaled / r.den
    }
}

/// The fraction digits of `r`: the decimal digits of what `rounded_total`
/// leaves below `10^digits`, with zeros in front to make `digits` of them.
pub open spec fn fraction_text(r: Fraction, digits: nat) -> Seq<char> {
    let text = decimal_digits((rounded_total(r, digits) % pow(10, digits)) as nat);
    zeros(digits - text.len()) + text
}

/// The decimal text of `r` with `digits` fraction digits.
///
/// `|r|` is rounded half up to `digits` fraction digits.  A minus sign
/// stands in front where `r` is negative; then come the decimal digits of
/// the integer part of the rounded number; then, where `digits` is not
/// zero, the decimal point and the fraction digits.  A carry out of the
/// fraction goes to the integer part.
pub open spec fn rendered(r: Fraction, digits: nat) -> Seq<char> {
    let sign = if r.num < 0 { seq!['-'] } else { Seq::<char>::empty() };
    let whole = decimal_digits((rounded_total(r, digits) / pow(10, digits)) as nat);
    if digits == 0 {
        sign + whole
    } else {
        sign + whole + seq!['.'] + fraction_text(r, digits)
    }
}

/// The rounded number is not negative.
pub proof fn lemma_rounded_total_nonnegative(r: Fraction, digits: nat)
    requires
        r.wf(),
    ensures
        rounded_total(r, digits) >= 0,
{
    let scaled = magnitude(r.num) * pow(10, digits);
    lemma_pow_positive(10, digits);
    assert(scaled >= 0) by (nonlinear_arith)
        requires
            scaled == magnitude(r.num) * pow(10, digits),
            magnitude(r.num) >= 0,
            pow(10, digits) > 0,
    ;
    lemma_fundamental_div_mod(scaled, r.den);
    lemma_mod_bound(scaled, r.den);
    assert(scaled / r.den >= 0) by (nonlinear_arith)
        requires
            scaled == r.den * (scaled / r.den) + scaled % r.den,
            scaled >= 0,
            r.den > 0,
            scaled % r.den < r.den,
    ;
}

/// Where fraction digits are asked for, the text has exactly `digits` of
/// them.
pub proof fn lemma_fraction_text_len(r: Fraction, digits: nat)
    requires
        r.wf(),
        digits >= 1,
    ensures
        fraction_text(r, digits).len() == digits,
{
    lemma_pow_positive(10, digits);
    lemma_mod_bound(rounded_total(r, digits), pow(10, digits));
    lemma_decimal_digits_len((rounded_total(r, digits) % pow(10, digits)) as nat, digits);
}

/// The integer part and the rounding of a number do not depend on the
/// fraction that stands for it.
pub proof fn lemma_floor_same(a: Fraction, b: Fraction)
    requires
        a.wf(),
        b.wf(),
        a.same(b),
    ensures
        a.num / a.den == b.num / b.den,
        (2 * (a.num % a.den) >= a.den) == (2 * (b.num % b.den) >= b.den),
{
    let (an, ad, bn, bd) = (a.num, a.den, b.num, b.den);
    let q = an / ad;
    let r = an % ad;
    lemma_fundamental_div_mod(an, ad);
    lemma_mod_bound(an, ad);
    let t = bn - q * bd;
    assert(t * ad == r * bd) by (nonlinear_arith)
        requires
            an * bd == bn * ad,
            an == ad * q + r,
            t == bn - q * bd,
    {
        assert(t * ad == bn * ad - (q * bd) * ad);
        assert(r * bd == an * bd - (ad * q) * bd);
        assert((q * bd) * ad == (ad * q) * bd);
    }
    assert(0 <= t < bd && ((2 * r >= ad) == (2 * t >= bd))) by (nonlinear_arith)
        requires
            t * ad == r * bd,
            0 <= r < ad,
            bd > 0,
    {
        assert(r * bd >= 0);
        assert(r * bd < ad * bd);
        assert(t * ad < bd * ad);
        if 2 * r >= ad {
            assert((2 * r) * bd >= ad * bd);
            assert((2 * t) * ad >= bd * ad);
        } else {
            assert((2 * r) * bd < ad * bd);
            assert((2 * t) * ad < bd * ad);
        }
    }
    assert(bn == q * bd + t);
    lemma_fundamental_div_mod_converse(bn, bd, q, t);
}

/// The rounded number is that of any fraction that stands for `|r|` times
/// `10^digits`.
pub proof fn lemma_rounded_total_of(r: Fraction, digits: nat, scaled: Fraction)
    requires
        r.wf(),
        scaled.wf(),
        scaled.same(r.abs().mul(Fraction::from_int(pow(10, digits)))),
    ensures
        rounded_total(r, digits) == if 2 * (scaled.num % scaled.den) >= scaled.den {
            scaled.num / scaled.den + 1
        } else {
            scaled.num / scaled.den
        },
{
    let exact = r.abs().mul(Fraction::from_int(pow(10, digits)));
    lemma_pow_positive(10, digits);
    lemma_wf_ops(r, r);
    lemma_wf_ops(r.abs(), Fraction::from_int(pow(10, digits)));
    lemma_floor_same(scaled, exact);
    assert(exact.num == magnitude(r.num) * pow(10, digits));
    assert(exact.den == r.den * 1);
}

/// The text of a number does not depend on the fraction that stands for it.
pub proof fn lemma_rendered_same(a: Fraction, b: Fraction, digits: nat)
    requires
        a.wf(),
        b.wf(),
        a.same(b),
    ensures
        rendered(a, digits) == rendered(b, digits),
{
    let scale = Fraction::from_int(pow(10, digits));
    lemma_pow_positive(10, digits);
    lemma_same_sign(a, b);
    lemma_abs_same(a, b);
    lemma_wf_ops(a, a);
    lemma_wf_ops(b, b);
    lemma_same_symmetric(scale, scale);
    lemma_mul_same(a.abs(), scale, b.abs(), scale);
    lemma_wf_ops(a.abs(), scale);
    lemma_rounded_total_of(b, digits, a.abs().mul(scale));
    lemma_same_symmetric(a.abs().mul(scale), a.abs().mul(scale));
    lemma_rounded_total_of(a, digits, a.abs().mul(scale));
}

impl BigRationalConfig {
    /// The decimal text of `r` with `display_precision` fraction digits.
    ///
    /// `|r|` is rounded to `display_precision` fraction digits, a half
    /// going up; a carry out of the fraction goes to the integer part.
    /// The integer part is written without leading zeros, a single `0`
    /// for zero; the fraction is written with exactly
    /// `display_precision` digits, after a decimal point that is left out
    /// where `display_precision` is zero.  A minus sign stands in front
    /// where `r` is negative.  The text depends on the number alone, not
    /// on the fraction that stands for it.
    pub fn to_decimal_string(r: &Rational, display_precision: u32) -> (text: String)
        ensures
            text@ == rendered(r@, display_precision as nat),
    {
        let ghost digits = display_precision as nat;
        let ghost power = pow(10, digits);
        let ghost total = rounded_total(r@, digits);
        proof {
            use_type_invariant(r);
            lemma_same_symmetric(r@, r@);
            lemma_pow_positive(10, digits);
            lemma_rounded_total_nonnegative(r@, digits);
        }
        let negative = r.is_negative();
        let ten = int_from_i128(10);
        let scale = int_pow(&ten, display_precision);
        let scaled = r.abs().mul(&ratio_from_integer(&scale));
        proof {
            assert(scaled.stands_for(r@.abs().mul(Fraction::from_int(power))));
            lemma_rounded_total_of(r@, digits, scaled@);
        }
        let quotient = int_div(scaled.numer(), scaled.denom());
        let remainder = int_rem(scaled.numer(), scaled.denom());
        proof {
            let (n, d) = (scaled@.num, scaled@.den);
            lemma_same_sign(scaled@, r@.abs().mul(Fraction::from_int(power)));
            assert(n >= 0) by (nonlinear_arith)
                requires
                    (n >= 0) == (magnitude(r@.num) * power >= 0),
                    magnitude(r@.num) >= 0,
                    power > 0,
            ;
            lemma_fundamental_div_mod(n, d);
            assert(remainder@ == n % d) by (nonlinear_arith)
                requires
                    remainder@ == n - d * (n / d),
                    n == d * (n / d) + n % d,
            ;
        }
        let two = int_from_i128(2);
        let rounded = if int_ge(&int_mul(&remainder, &two), scaled.denom()) {
            int_add(&quotient, &int_from_i128(1))
        } else {
            quotient
        };
        assert(rounded@ == total);
        let whole = chars_of(int_to_string(&int_div(&rounded, &scale)).as_str());
        let mut out: Vec<char> = Vec::new();
        if negative {
            out.push('-');
        }
        push_range(&mut out, &whole, 0, whole.len());
        proof {
            lemma_fundamental_div_mod(total, power);
            lemma_mod_bound(total, power);
            assert(total / power >= 0) by (nonlinear_arith)
                requires
                    total == power * (total / power) + total % power,
                    total >= 0,
                    power > 0,
                    total % power < power,
            ;
            assert(whole@ == decimal_digits((total / power) as nat));
            assert(whole@.subrange(0, whole.len() as int) =~= whole@);
        }
        if display_precision == 0 {
            assert(out@ =~= rendered(r@, digits));
            return string_of(&out);
        }
        let below = chars_of(int_to_string(&int_rem(&rounded, &scale)).as_str());
        proof {
            assert(trunc_rem(total, power) == total % power) by (nonlinear_arith)
                requires
                    trunc_rem(total, power) == total - power * (total / power),
                    total == power * (total / power) + total % power,
            ;
            assert(below@ == decimal_digits((total % power) as nat));
            lemma_decimal_digits_len((total % power) as nat, digits);
            assert(below@.subrange(0, below.len() as int) =~= below@);
        }
        out.push('.');
        push_zeros(&mut out, (display_precision as usize - below.len()) as u128);
        push_range(&mut out, &below, 0, below.len());
        assert(out@ =~= rendered(r@, digits));
        string_of(&out)
    }
}

} // verus!
