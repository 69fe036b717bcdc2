//! Error values returned by the evaluators and formatters.

use vstd::prelude::*;

verus! {

/// An argument lies outside the set on which a function is defined.
#[derive(Clone, Copy, Debug, PartialEq, Eq, Structural)]
pub enum DomainError {
    /// The inverse hyperbolic tangent was asked for a value `x` with `|x| >= 1`.
    AtanhOutOfRange,
    /// The square root was asked for a negative value.
    NegativeSquareRoot,
    /// A speed is not below the speed of light.
    SpeedNotBelowLight,
}

/// A number in text form could not be read.
#[derive(Clone, Copy, Debug, PartialEq, Eq, Structural)]
pub enum FormatError {
    /// What follows the exponent marker is not a decimal integer of at most 128 bits.
    InvalidExponent,
}

impl DomainError {
    /// A one-line description of the error.
    pub fn message(&self) -> (text: &'static str)
        ensures
            text@ == match *self {
                DomainError::AtanhOutOfRange => "atanh(x) is only defined for |x| < 1"@,
                DomainError::NegativeSquareRoot => "square root of a negative number"@,
                DomainError::SpeedNotBelowLight =>
                    "Speed is greater than or equal to the speed of light"@,
            },
    {
        match self {
            DomainError::AtanhOutOfRange => "atanh(x) is only defined for |x| < 1",
            DomainError::NegativeSquareRoot => "square root of a negative number",
            DomainError::SpeedNotBelowLight => {
                "Speed is greater than or equal to the speed of light"
            },
        }
    }
}

impl FormatError {
    /// A one-line description of the error.
    pub fn message(&self) -> (text: &'static str)
        ensures
            text@ == match *self {
                FormatError::InvalidExponent => "exponent is not a decimal integer"@,
            },
    {
        match self {
            FormatError::InvalidExponent => "exponent is not a decimal integer",
        }
    }
}

} // verus!
