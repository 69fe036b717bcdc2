//! Integers of any size.
//!
//! An `Integer` holds its value as bytes; the arithmetic on it is done by
//! `num_bigint::BigInt`.
//!
//! The functions named `int_...` are not verified: each is believed to do
//! what its contract says.  Each reads its arguments with
//! `BigInt::from_signed_bytes_le` and writes its result with
//! `BigInt::to_signed_bytes_le`, which are believed to read and write two's
//! complement, least significant byte first, as `signed_le` defines it;
//! between the two it calls the one function of `BigInt` that its doc
//! comment names.

use num_bigint::BigInt;
use vstd::arithmetic::power::pow;
use vstd::prelude::*;
use crate::digits::signed_decimal;

verus! {

/// The number that the bytes `b` write in base 256, least significant first.
pub open spec fn unsigned_le(b: Seq<u8>) -> nat
    decreases b.len(),
{
    if b.len() == 0 {
        0
    } else {
        b[0] as nat + 256 * unsigned_le(b.drop_first())
    }
}

/// The number that the bytes `b` write in two's complement, least
/// significant first; zero for no bytes.
pub open spec fn signed_le(b: Seq<u8>) -> int {
    if b.len() > 0 && b.last() >= 128 {
        unsigned_le(b) - pow(256, b.len())
    } else {
        unsigned_le(b) as int
    }
}

/// The absolute value of `a`.
pub open spec fn magnitude(a: int) -> int {
    if a < 0 {
        -a
    } else {
        a
    }
}

/// The quotient of `a` by `b`, rounded towards zero.
pub open spec fn trunc_div(a: int, b: int) -> int {
    if (a >= 0) == (b > 0) {
        magnitude(a) / magnitude(b)
    } else {
        -(magnitude(a) / magnitude(b))
    }
}

/// The remainder that goes with `trunc_div`.
pub open spec fn trunc_rem(a: int, b: int) -> int {
    a - b * trunc_div(a, b)
}

/// An integer of any size.
pub struct Integer {
    pub(crate) bytes: Vec<u8>,
}

impl View for Integer {
    type V = int;

    closed spec fn view(&self) -> int {
        signed_le(self.bytes@)
    }
}

impl Clone for Integer {
    fn clone(&self) -> (n: Integer)
        ensures
            n@ == self@,
    {
        Integer { bytes: self.bytes.clone() }
    }
}

impl Integer {
    /// The integer that `bytes` write in two's complement, least
    /// significant byte first.
    pub fn from_signed_bytes_le(bytes: Vec<u8>) -> (n: Integer)
        ensures
            n@ == signed_le(bytes@),
    {
        Integer { bytes }
    }

    /// Bytes that write the integer in two's complement, least
    /// significant byte first.
    pub fn to_signed_bytes_le(&self) -> (bytes: Vec<u8>)
        ensures
            signed_le(bytes@) == self@,
    {
        self.bytes.clone()
    }
}

/// `BigInt::from` for `i128`: the integer with the value of `n`.
#[verifier::external_body]
pub(crate) fn int_from_i128(n: i128) -> (r: Integer)
    ensures
        r@ == n,
{
    Integer { bytes: BigInt::from(n).to_signed_bytes_le() }
}

/// `BigInt::pow`: `base` raised to the power `exponent`.
#[verifier::external_body]
pub(crate) fn int_pow(base: &Integer, exponent: u32) -> (r: Integer)
    ensures
        r@ == pow(base@, exponent as nat),
{
    Integer { bytes: BigInt::from_signed_bytes_le(&base.bytes).pow(exponent).to_signed_bytes_le() }
}

/// `BigInt`'s `+`: the sum.
#[verifier::external_body]
pub(crate) fn int_add(a: &Integer, b: &Integer) -> (r: Integer)
    ensures
        r@ == a@ + b@,
{
    let sum = BigInt::from_signed_bytes_le(&a.bytes) + BigInt::from_signed_bytes_le(&b.bytes);
    Integer { bytes: sum.to_signed_bytes_le() }
}

/// `BigInt`'s `*`: the product.
#[verifier::external_body]
pub(crate) fn int_mul(a: &Integer, b: &Integer) -> (r: Integer)
    ensures
        r@ == a@ * b@,
{
    let product = BigInt::from_signed_bytes_le(&a.bytes) * BigInt::from_signed_bytes_le(&b.bytes);
    Integer { bytes: product.to_signed_bytes_le() }
}

/// `BigInt`'s `/`: the quotient rounded towards zero.  It panics on a
/// zero divisor.
#[verifier::external_body]
pub(crate) fn int_div(a: &Integer, b: &Integer) -> (r: Integer)
    requires
        b@ != 0,
    ensures
        r@ == trunc_div(a@, b@),
{
    let quotient = BigInt::from_signed_bytes_le(&a.bytes) / BigInt::from_signed_bytes_le(&b.bytes);
    Integer { bytes: quotient.to_signed_bytes_le() }
}

/// `BigInt`'s `%`: the remainder of the division rounded towards zero.
/// It panics on a zero divisor.
#[verifier::external_body]
pub(crate) fn int_rem(a: &Integer, b: &Integer) -> (r: Integer)
    requires
        b@ != 0,
    ensures
        r@ == trunc_rem(a@, b@),
{
    let rest = BigInt::from_signed_bytes_le(&a.bytes) % BigInt::from_signed_bytes_le(&b.bytes);
    Integer { bytes: rest.to_signed_bytes_le() }
}

/// `BigInt`'s `>=`: whether `a` is at least `b`.
#[verifier::external_body]
pub(crate) fn int_ge(a: &Integer, b: &Integer) -> (r: bool)
    ensures
        r == (a@ >= b@),
{
    BigInt::from_signed_bytes_le(&a.bytes) >= BigInt::from_signed_bytes_le(&b.bytes)
}

/// `BigInt`'s `to_string`: the decimal digits, after a minus sign where
/// the integer is negative.
#[verifier::external_body]
pub(crate) fn int_to_string(a: &Integer) -> (text: String)
    ensures
        text@ == signed_decimal(a@),
{
    BigInt::from_signed_bytes_le(&a.bytes).to_string()
}

} // verus!
