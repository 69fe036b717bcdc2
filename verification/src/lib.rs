//! Exact numerics for special relativity.
//!
//! Two facilities, both pure functions of their arguments:
//!
//! - iterative evaluators on exact rationals (`exp`, `sqrt`, `tanh`,
//!   `atanh`), each stopped by a tolerance of `10^-precision` and a cap on
//!   the number of steps, and the relativity formulas built on them;
//! - decimal text: a rational with a chosen number of fraction digits, the
//!   scientific notation of an arbitrary-precision float as a plain
//!   decimal, and thousands separators for display.
//!
//! The arithmetic is done by `num_bigint` and `num_rational`; what this
//! library adds to it is stated in the contracts and proved.

pub mod bigfloat;
pub mod config;
pub mod decimal;
pub mod digits;
pub mod error;
pub mod exponential;
pub mod fraction;
pub mod grouping;
pub mod hyperbolic;
pub mod integer;
pub mod normalize;
pub mod quantities;
pub mod rational;
pub mod reading;
pub mod relativity;
pub mod roots;
pub mod text;
