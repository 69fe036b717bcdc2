use astro_float::BigFloat;
use relativity_core::bigfloat::{bigfloat_fmt, bigfloat_fmt_dp, bigfloat_fmt_sig, bigfloat_to_string};
use std::str::FromStr;

/// Binary digits that hold 100 decimal digits.
const BITS_100: usize = 332;

fn from_text(s: &str) -> BigFloat {
    BigFloat::from_str(s).unwrap()
}

#[test]
fn test_bigfloat_to_string_regular_numbers() {
    let f = BigFloat::from_f64(123.456, 100);
    let result = bigfloat_to_string(&f).unwrap();
    assert_eq!(result, "123.456000000000003069544618483632802963");

    let f = BigFloat::from_i32(42, 100);
    let result = bigfloat_to_string(&f).unwrap();
    assert_eq!(result, "42.0");

    let f = BigFloat::from_f64(-0.5, 100);
    let result = bigfloat_to_string(&f).unwrap();
    assert_eq!(result, "-0.50");
}

#[test]
fn test_bigfloat_to_string_scientific_notation() {
    let f = from_text("1.23456e10");
    let result = bigfloat_to_string(&f).unwrap();
    assert_eq!(result, "12345600000.0");

    let f = from_text("1.23456e-5");
    let result = bigfloat_to_string(&f).unwrap();
    assert_eq!(result, "0.0000123456");

    let f = from_text("1.23456e0");
    let result = bigfloat_to_string(&f).unwrap();
    assert_eq!(result, "1.2345600000000000001");
}

#[test]
fn test_bigfloat_to_string_edge_cases() {
    let f = from_text("1.23456e-1");
    let result = bigfloat_to_string(&f).unwrap();
    assert_eq!(result, "0.123456");

    let f = from_text("1.5e20");
    let result = bigfloat_to_string(&f).unwrap();
    assert_eq!(result, "150000000000000000000.0");

    let f = from_text("1.5e-20");
    let result = bigfloat_to_string(&f).unwrap();
    assert_eq!(result, "0.000000000000000000015");

    let f = from_text("5.0e3");
    let result = bigfloat_to_string(&f).unwrap();
    assert_eq!(result, "5000.0");
}

#[test]
fn test_bigfloat_to_string_precision_cases() {
    let f = from_text("1.234567890123456789e-10");
    let result = bigfloat_to_string(&f).unwrap();
    assert!(result.starts_with("0.0000000001234567890123456789"));

    let f = from_text("9.87654321e15");
    let result = bigfloat_to_string(&f).unwrap();
    assert!(result.starts_with("9876543210000000.0"));
}

#[test]
fn test_bigfloat_fmt_functions() {
    let f = BigFloat::from_f64(1234567.89, BITS_100);

    let result = bigfloat_fmt(&f).unwrap();
    assert_eq!(result, "1,234,567.88");

    let result = bigfloat_fmt_dp(&f, 3).unwrap();
    assert_eq!(result, "1,234,567.889");

    let result = bigfloat_fmt_dp(&f, 0).unwrap();
    assert_eq!(result, "1,234,567");

    let f2 = from_text("0.0001234");
    let result = bigfloat_fmt_sig(&f2, 3, '0').unwrap();
    assert!(!result.is_empty());
}

#[test]
fn test_internal_bigfloat_fmt_commas() {
    let f = BigFloat::from_f64(1234567890.123, BITS_100);
    let result = bigfloat_fmt_dp(&f, 3).unwrap();
    assert_eq!(result, "1,234,567,890.122");

    let f = BigFloat::from_f64(123.456, BITS_100);
    let result = bigfloat_fmt_dp(&f, 6).unwrap();
    assert!(result.starts_with("123.456"));
}

#[test]
fn test_edge_cases_and_error_handling() {
    let f = BigFloat::from_f64(0.0, BITS_100);
    let result = bigfloat_to_string(&f).unwrap();
    assert_eq!(result, "0.0");

    let f = from_text("1e-100");
    let result = bigfloat_to_string(&f);
    assert!(result.is_ok());
}

#[test]
fn test_negative_scientific_notation_bug_fix() {
    let test_inputs = [-0.5_f64, -0.1_f64, -1.5_f64, -123.0_f64];

    for input in test_inputs {
        let f = BigFloat::from_f64(input, BITS_100);
        let result = bigfloat_to_string(&f);

        assert!(result.is_ok(), "Failed to convert input {}", input);

        let result_str = result.unwrap();
        assert!(result_str.starts_with('-'), "Result should be negative for input {}", input);
        assert!(result_str.contains('.'), "Result should contain decimal for input {}", input);
    }

    let f = BigFloat::from_f64(-0.5, BITS_100);
    let result = bigfloat_to_string(&f).unwrap();
    assert_eq!(result, "-0.50");
}

#[test]
fn sign_of_a_float_stays_outside_the_groups() {
    let f = BigFloat::from_i32(-123456, BITS_100);
    assert_eq!(bigfloat_fmt(&f).unwrap(), "-123,456.00");
    let f = BigFloat::from_i32(-123, BITS_100);
    assert_eq!(bigfloat_fmt_dp(&f, 1).unwrap(), "-123.0");
}
