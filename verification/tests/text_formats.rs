use relativity_core::bigfloat::format_native;
use relativity_core::error::FormatError;
use relativity_core::grouping::format_grouped;
use relativity_core::normalize::normalize;

#[test]
fn plain_text_is_returned_as_it_is() {
    assert_eq!(normalize("123.456").unwrap(), "123.456");
    assert_eq!(normalize("").unwrap(), "");
    assert_eq!(normalize("Inf").unwrap(), "Inf");
    assert_eq!(normalize("-42").unwrap(), "-42");
}

#[test]
fn literal_scientific_cases() {
    assert_eq!(normalize("1.23456e10").unwrap(), "12345600000.0");
    assert_eq!(normalize("1.23456e-5").unwrap(), "0.0000123456");
    assert_eq!(normalize("1.5e20").unwrap(), "150000000000000000000.0");
    assert_eq!(normalize("1.5e-20").unwrap(), "0.000000000000000000015");
    assert_eq!(normalize("5.0e3").unwrap(), "5000.0");
}

#[test]
fn point_lands_inside_the_digits() {
    assert_eq!(normalize("1.23456e0").unwrap(), "1.23456");
    assert_eq!(normalize("1.23456e2").unwrap(), "123.456");
    assert_eq!(normalize("1.23456e4").unwrap(), "12345.6");
    assert_eq!(normalize("1.23456e5").unwrap(), "123456.0");
    assert_eq!(normalize("1.23456e-1").unwrap(), "0.123456");
}

#[test]
fn mantissa_may_have_many_leading_digits() {
    assert_eq!(normalize("123.456e1").unwrap(), "1234.56");
    assert_eq!(normalize("123.456e-2").unwrap(), "1.23456");
    assert_eq!(normalize("123.456e-3").unwrap(), "0.123456");
    assert_eq!(normalize("123.456e-5").unwrap(), "0.00123456");
    assert_eq!(normalize("123456e-3").unwrap(), "123.456");
    assert_eq!(normalize("12e3").unwrap(), "12000.0");
}

#[test]
fn trailing_point_stands_for_a_zero() {
    assert_eq!(normalize("5.e-1").unwrap(), "0.50");
    assert_eq!(normalize("-5.e-1").unwrap(), "-0.50");
    assert_eq!(normalize("4.2e+1").unwrap(), "42.0");
    assert_eq!(normalize("5.e0").unwrap(), "5.0");
    assert_eq!(normalize("5.e1").unwrap(), "50.0");
}

#[test]
fn sign_is_kept() {
    assert_eq!(normalize("-1.5e2").unwrap(), "-150.0");
    assert_eq!(normalize("-1.5e-2").unwrap(), "-0.015");
    assert_eq!(normalize("-1.25e1").unwrap(), "-12.5");
}

#[test]
fn exponent_must_be_a_decimal_integer() {
    assert_eq!(normalize("1.5e"), Err(FormatError::InvalidExponent));
    assert_eq!(normalize("1.5e+"), Err(FormatError::InvalidExponent));
    assert_eq!(normalize("1.5e-"), Err(FormatError::InvalidExponent));
    assert_eq!(normalize("1.5ex"), Err(FormatError::InvalidExponent));
    assert_eq!(normalize("1.5e1.0"), Err(FormatError::InvalidExponent));
    assert_eq!(normalize("1.5e1e2"), Err(FormatError::InvalidExponent));
    assert_eq!(normalize("1.5e 1"), Err(FormatError::InvalidExponent));
    assert_eq!(normalize("1e--1"), Err(FormatError::InvalidExponent));
}

#[test]
fn exponent_must_fit_in_128_bits() {
    assert_eq!(
        normalize("1e170141183460469231731687303715884105728"),
        Err(FormatError::InvalidExponent)
    );
    assert_eq!(
        normalize("1e-170141183460469231731687303715884105729"),
        Err(FormatError::InvalidExponent)
    );
    assert_eq!(normalize("1e0000000000000000000000000000000000000000002").unwrap(), "100.0");
    assert_eq!(normalize("1e-0").unwrap(), "1.0");
}

#[test]
fn error_message_names_the_exponent() {
    assert_eq!(FormatError::InvalidExponent.message(), "exponent is not a decimal integer");
}

#[test]
fn grouping_with_truncation() {
    assert_eq!(format_grouped("1234567.890", 3, None), "1,234,567.890");
    assert_eq!(format_grouped("1234567.890", 0, None), "1,234,567");
    assert_eq!(format_grouped("1234567.890", 2, None), "1,234,567.89");
    assert_eq!(format_grouped("1234567.899", 2, None), "1,234,567.89");
    assert_eq!(format_grouped("1234567.890", 1, None), "1,234,567.8");
}

#[test]
fn grouping_pads_a_short_fraction() {
    assert_eq!(format_grouped("1234567.89", 5, None), "1,234,567.89000");
    assert_eq!(format_grouped("12.", 2, None), "12.00");
    assert_eq!(format_grouped("12.", 0, None), "12");
}

#[test]
fn negative_places_keep_the_fraction() {
    assert_eq!(format_grouped("1234567.890", -1, None), "1,234,567.890");
    assert_eq!(format_grouped("1234567.890", -1, Some('9')), "1,234,567.890");
    assert_eq!(format_grouped("1234.", -1, None), "1,234");
    assert_eq!(format_grouped("1234567.890", i32::MIN, None), "1,234,567.890");
}

#[test]
fn text_without_a_point_is_not_grouped() {
    assert_eq!(format_grouped("1234567", 2, None), "1234567");
    assert_eq!(format_grouped("", 2, None), "");
    assert_eq!(format_grouped("NaN", 2, Some('0')), "NaN");
}

#[test]
fn group_boundaries() {
    assert_eq!(format_grouped(".5", 1, None), ".5");
    assert_eq!(format_grouped("1.5", 1, None), "1.5");
    assert_eq!(format_grouped("12.5", 1, None), "12.5");
    assert_eq!(format_grouped("123.5", 1, None), "123.5");
    assert_eq!(format_grouped("1234.5", 1, None), "1,234.5");
    assert_eq!(format_grouped("12345.5", 1, None), "12,345.5");
    assert_eq!(format_grouped("123456.5", 1, None), "123,456.5");
    assert_eq!(format_grouped("1234567.5", 1, None), "1,234,567.5");
    assert_eq!(format_grouped("1234567890123.5", 1, None), "1,234,567,890,123.5");
}

#[test]
fn minus_sign_is_not_a_digit() {
    assert_eq!(format_grouped("-123.5", 1, None), "-123.5");
    assert_eq!(format_grouped("-1234.5", 1, None), "-1,234.5");
    assert_eq!(format_grouped("-123456.5", 1, None), "-123,456.5");
    assert_eq!(format_grouped("-.5", 1, None), "-.5");
}

#[test]
fn only_the_first_point_splits() {
    assert_eq!(format_grouped("1234.5.67", 3, None), "1,234.5.6");
    assert_eq!(format_grouped("1234.5.67", -1, None), "1,234.5.67");
}

#[test]
fn significant_skip_keeps_the_run_and_more() {
    assert_eq!(format_grouped("0.0001234", 3, Some('0')), "0.000123");
    assert_eq!(format_grouped("0.0001234", 4, Some('0')), "0.0001234");
    assert_eq!(format_grouped("0.0001234", 0, Some('0')), "0.000");
    assert_eq!(format_grouped("299792457.999999612", 3, Some('9')), "299,792,457.999999612");
    assert_eq!(format_grouped("299792457.999999612345", 3, Some('9')), "299,792,457.999999612");
}

#[test]
fn significant_skip_pads_with_zeros() {
    assert_eq!(format_grouped("0.0001234", 6, Some('0')), "0.000123400");
    assert_eq!(format_grouped("0.0001", 3, Some('0')), "0.000100");
    assert_eq!(format_grouped("299792457.99999961", 3, Some('9')), "299,792,457.999999610");
    assert_eq!(format_grouped("1.5", 3, Some('0')), "1.500");
}

#[test]
fn significant_skip_without_another_character() {
    assert_eq!(format_grouped("1.0000", 2, Some('0')), "1.0000");
    assert_eq!(format_grouped("1.", 2, Some('0')), "1");
    assert_eq!(format_grouped("1234.9999", 0, Some('9')), "1,234.9999");
}

#[test]
fn native_text_is_normalized_then_grouped() {
    assert_eq!(format_native("1.23456789e6", 2, None).unwrap(), "1,234,567.89");
    assert_eq!(format_native("1.23456789e6", 0, None).unwrap(), "1,234,567");
    assert_eq!(format_native("-1.5e-6", 3, Some('0')).unwrap(), "-0.00000150");
    assert_eq!(format_native("1234567.5", 1, None).unwrap(), "1,234,567.5");
    assert_eq!(format_native("1.5ee", 1, None), Err(FormatError::InvalidExponent));
}

#[test]
fn normalized_text_writes_the_same_number() {
    // mantissa digits 125, one digit before the point: 1.25 * 10^e
    assert_eq!(normalize("1.25e3").unwrap(), "1250.0");
    assert_eq!(normalize("1.25e2").unwrap(), "125.0");
    assert_eq!(normalize("1.25e1").unwrap(), "12.5");
    assert_eq!(normalize("1.25e0").unwrap(), "1.25");
    assert_eq!(normalize("1.25e-1").unwrap(), "0.125");
    assert_eq!(normalize("1.25e-2").unwrap(), "0.0125");
    assert_eq!(normalize("-1.25e-2").unwrap(), "-0.0125");
    assert_eq!(normalize("125e-2").unwrap(), "1.25");
    assert_eq!(normalize("e2").unwrap(), "00.0");
    assert_eq!(normalize(".e0").unwrap(), "0.0");
}
