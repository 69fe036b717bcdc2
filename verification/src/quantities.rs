//! Physical quantities as exact rationals in SI base units.

use vstd::prelude::*;
use crate::fraction::{lemma_same_symmetric, Fraction};
use crate::rational::Rational;

verus! {

/// A velocity in metres per second.
pub struct Velocity {
    value: Rational,
}

impl View for Velocity {
    type V = Fraction;

    open spec fn view(&self) -> Fraction {
        self.measure()@
    }
}

impl Velocity {
    /// The measure of the quantity.
    pub closed spec fn measure(&self) -> Rational {
        self.value
    }

    /// Whether the quantity has the measure of the well-formed fraction `x`.
    pub open spec fn stands_for(&self, x: Fraction) -> bool {
        self.measure().stands_for(x)
    }

    /// The quantity with the measure `value`.
    pub fn new(value: Rational) -> (q: Velocity)
        ensures
            q.measure() == value,
    {
        Velocity { value }
    }

    /// The measure of the quantity.
    pub fn get(&self) -> (value: &Rational)
        ensures
            *value == self.measure(),
            value.stands_for(self@),
    {
        proof {
            use_type_invariant(&self.value);
            lemma_same_symmetric(self@, self@);
        }
        &self.value
    }
}

/// An acceleration in metres per second squared.
pub struct Acceleration {
    value: Rational,
}

impl View for Acceleration {
    type V = Fraction;

    open spec fn view(&self) -> Fraction {
        self.measure()@
    }
}

impl Acceleration {
    /// The measure of the quantity.
    pub closed spec fn measure(&self) -> Rational {
        self.value
    }

    /// Whether the quantity has the measure of the well-formed fraction `x`.
    pub open spec fn stands_for(&self, x: Fraction) -> bool {
        self.measure().stands_for(x)
    }

    /// The quantity with the measure `value`.
    pub fn new(value: Rational) -> (q: Acceleration)
        ensures
            q.measure() == value,
    {
        Acceleration { value }
    }

    /// The measure of the quantity.
    pub fn get(&self) -> (value: &Rational)
        ensures
            *value == self.measure(),
            value.stands_for(self@),
    {
        proof {
            use_type_invariant(&self.value);
            lemma_same_symmetric(self@, self@);
        }
        &self.value
    }
}

/// A time in seconds.
pub struct Time {
    value: Rational,
}

impl View for Time {
    type V = Fraction;

    open spec fn view(&self) -> Fraction {
        self.measure()@
    }
}

impl Time {
    /// The measure of the quantity.
    pub closed spec fn measure(&self) -> Rational {
        self.value
    }

    /// Whether the quantity has the measure of the well-formed fraction `x`.
    pub open spec fn stands_for(&self, x: Fraction) -> bool {
        self.measure().stands_for(x)
    }

    /// The quantity with the measure `value`.
    pub fn new(value: Rational) -> (q: Time)
        ensures
            q.measure() == value,
    {
        Time { value }
    }

    /// The measure of the quantity.
    pub fn get(&self) -> (value: &Rational)
        ensures
            *value == self.measure(),
            value.stands_for(self@),
    {
        proof {
            use_type_invariant(&self.value);
            lemma_same_symmetric(self@, self@);
        }
        &self.value
    }
}

/// A length in metres.
pub struct Length {
    value: Rational,
}

impl View for Length {
    type V = Fraction;

    open spec fn view(&self) -> Fraction {
        self.measure()@
    }
}

impl Length {
    /// The measure of the quantity.
    pub closed spec fn measure(&self) -> Rational {
        self.value
    }

    /// Whether the quantity has the measure of the well-formed fraction `x`.
    pub open spec fn stands_for(&self, x: Fraction) -> bool {
        self.measure().stands_for(x)
    }

    /// The quantity with the measure `value`.
    pub fn new(value: Rational) -> (q: Length)
        ensures
            q.measure() == value,
    {
        Length { value }
    }

    /// The measure of the quantity.
    pub fn get(&self) -> (value: &Rational)
        ensures
            *value == self.measure(),
            value.stands_for(self@),
    {
        proof {
            use_type_invariant(&self.value);
            lemma_same_symmetric(self@, self@);
        }
        &self.value
    }
}

/// A mass in kilograms.
pub struct Mass {
    value: Rational,
}

impl View for Mass {
    type V = Fraction;

    open spec fn view(&self) -> Fraction {
        self.measure()@
    }
}

impl Mass {
    /// The measure of the quantity.
    pub closed spec fn measure(&self) -> Rational {
        self.value
    }

    /// Whether the quantity has the measure of the well-formed fraction `x`.
    pub open spec fn stands_for(&self, x: Fraction) -> bool {
        self.measure().stands_for(x)
    }

    /// The quantity with the measure `value`.
    pub fn new(value: Rational) -> (q: Mass)
        ensures
            q.measure() == value,
    {
        Mass { value }
    }

    /// The measure of the quantity.
    pub fn get(&self) -> (value: &Rational)
        ensures
            *value == self.measure(),
            value.stands_for(self@),
    {
        proof {
            use_type_invariant(&self.value);
            lemma_same_symmetric(self@, self@);
        }
        &self.value
    }
}

/// An energy in joules.
pub struct Energy {
    value: Rational,
}

impl View for Energy {
    type V = Fraction;

    open spec fn view(&self) -> Fraction {
        self.measure()@
    }
}

impl Energy {
    /// The measure of the quantity.
    pub closed spec fn measure(&self) -> Rational {
        self.value
    }

    /// Whether the quantity has the measure of the well-formed fraction `x`.
    pub open spec fn stands_for(&self, x: Fraction) -> bool {
        self.measure().stands_for(x)
    }

    /// The quantity with the measure `value`.
    pub fn new(value: Rational) -> (q: Energy)
        ensures
            q.measure() == value,
    {
        Energy { value }
    }

    /// The measure of the quantity.
    pub fn get(&self) -> (value: &Rational)
        ensures
            *value == self.measure(),
            value.stands_for(self@),
    {
        proof {
            use_type_invariant(&self.value);
            lemma_same_symmetric(self@, self@);
        }
        &self.value
    }
}

} // verus!
