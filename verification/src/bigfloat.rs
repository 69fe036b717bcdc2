//! Printing arbitrary-precision floats as plain and as grouped decimals.
//!
//! A `BigFloat` prints itself in scientific notation.  The functions here
//! take that text, remove the exponent, and format the result for display.

use astro_float::BigFloat;
use vstd::prelude::*;
use vstd::string::to_string_from_display_ensures;
use crate::error::FormatError;
use crate::grouping::{format_grouped, formatted};
use crate::normalize::{normalize, normalized, shows};

verus! {

/// `astro_float::BigFloat`, of which nothing but its printed text is used.
#[verifier::external_type_specification]
#[verifier::external_body]
pub struct ExBigFloat(BigFloat);

/// What `format_native` returns for the text `native`: the text without
/// its exponent, formatted for display, or the error of reading it.
pub open spec fn displayed(native: Seq<char>, places: int, significant: Option<char>) -> Result<
    Seq<char>,
    FormatError,
> {
    match normalized(native) {
        Ok(plain) => Ok(formatted(plain, places, significant)),
        Err(e) => Err(e),
    }
}

/// Formats the text that a float printed for itself: removes the exponent
/// as `normalize` does, then groups and trims as `format_grouped` does.
pub fn format_native(native: &str, decimal_places: i32, significant: Option<char>) -> (result:
    Result<String, FormatError>)
    ensures
        shows(result, displayed(native@, decimal_places as int, significant)),
{
    match normalize(native) {
        Ok(plain) => Ok(format_grouped(plain.as_str(), decimal_places, significant)),
        Err(e) => Err(e),
    }
}

/// The plain decimal text of `f`: what `normalize` makes of the text that
/// `f` prints for itself.
pub fn bigfloat_to_string(f: &BigFloat) -> (result: Result<String, FormatError>)
    ensures
        exists|native: String|
            to_string_from_display_ensures::<BigFloat>(f, native) && shows(
                result,
                normalized(native@),
            ),
{
    let native = f.to_string();
    normalize(native.as_str())
}

/// The grouped decimal text of `f`: what `format_native` makes of the text
/// that `f` prints for itself.
pub fn internal_bigfloat_fmt(
    f: &BigFloat,
    decimal_places: i32,
    significant: Option<char>,
) -> (result: Result<String, FormatError>)
    ensures
        exists|native: String|
            to_string_from_display_ensures::<BigFloat>(f, native) && shows(
                result,
                displayed(native@, decimal_places as int, significant),
            ),
{
    let native = f.to_string();
    format_native(native.as_str(), decimal_places, significant)
}

/// The grouped decimal text of `f` with two fraction digits.
pub fn bigfloat_fmt(f: &BigFloat) -> (result: Result<String, FormatError>)
    ensures
        exists|native: String|
            to_string_from_display_ensures::<BigFloat>(f, native) && shows(
                result,
                displayed(native@, 2, None),
            ),
{
    internal_bigfloat_fmt(f, 2, None)
}

/// The grouped decimal text of `f` with `decimal_places` fraction digits,
/// or with all of them where `decimal_places` is negative.
pub fn bigfloat_fmt_dp(f: &BigFloat, decimal_places: i32) -> (result: Result<String, FormatError>)
    ensures
        exists|native: String|
            to_string_from_display_ensures::<BigFloat>(f, native) && shows(
                result,
                displayed(native@, decimal_places as int, None),
            ),
{
    internal_bigfloat_fmt(f, decimal_places, None)
}

/// The grouped decimal text of `f` with `decimal_places` fraction digits
/// after the leading run of the character `significant`.
pub fn bigfloat_fmt_sig(f: &BigFloat, decimal_places: i32, significant: char) -> (result: Result<
    String,
    FormatError,
>)
    ensures
        exists|native: String|
            to_string_from_display_ensures::<BigFloat>(f, native) && shows(
                result,
                displayed(native@, decimal_places as int, Some(significant)),
            ),
{
    internal_bigfloat_fmt(f, decimal_places, Some(significant))
}

} // verus!
