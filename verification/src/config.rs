//! Precision and iteration limits shared by the iterative evaluators.

use vstd::prelude::*;

verus! {

/// Stopping parameters for the iterative evaluators.
///
/// `precision` is the number of decimal places of the stopping tolerance
/// `10^-precision`; `max_iterations` caps the number of refinement steps.
pub struct BigRationalConfig {
    pub max_iterations: u32,
    pub precision: u32,
}

impl BigRationalConfig {
    /// The default limits: 500 iterations, 100 decimal places.
    pub fn new() -> (config: Self)
        ensures
            config.max_iterations == 500,
            config.precision == 100,
    {
        BigRationalConfig { max_iterations: 500, precision: 100 }
    }

    /// The default iteration cap with a chosen number of decimal places.
    pub fn new_with_precision(precision: u32) -> (config: Self)
        ensures
            config.max_iterations == 500,
            config.precision == precision,
    {
        BigRationalConfig { max_iterations: 500, precision }
    }
}

} // verus!
