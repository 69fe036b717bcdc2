use num_bigint::BigInt;
use num_rational::BigRational;
use num_traits::{One, Pow, Signed, Zero};
use relativity_core::config::BigRationalConfig;
use relativity_core::error::DomainError;
use relativity_core::integer::Integer;
use relativity_core::rational::{bigrational_from_int, bigrational_from_ratio, Rational};

fn value(r: &Rational) -> BigRational {
    BigRational::new(
        BigInt::from_signed_bytes_le(&r.numer().to_signed_bytes_le()),
        BigInt::from_signed_bytes_le(&r.denom().to_signed_bytes_le()),
    )
}

fn ratio(n: i64, d: i64) -> BigRational {
    BigRational::new(BigInt::from(n), BigInt::from(d))
}

fn tolerance(places: u32) -> BigRational {
    BigRational::new(BigInt::one(), BigInt::from(10).pow(places))
}

fn limits(max_iterations: u32, precision: u32) -> BigRationalConfig {
    BigRationalConfig { max_iterations, precision }
}

#[test]
fn default_limits() {
    let config = BigRationalConfig::new();
    assert_eq!(config.max_iterations, 500);
    assert_eq!(config.precision, 100);
    let config = BigRationalConfig::new_with_precision(30);
    assert_eq!(config.max_iterations, 500);
    assert_eq!(config.precision, 30);
}

#[test]
fn tolerance_is_a_power_of_ten() {
    assert_eq!(value(&limits(5, 3).tolerance()), ratio(1, 1000));
    assert_eq!(value(&limits(5, 0).tolerance()), ratio(1, 1));
}

#[test]
fn constructors_keep_the_value() {
    assert_eq!(value(&bigrational_from_int(299_792_458)), ratio(299_792_458, 1));
    assert_eq!(value(&bigrational_from_int(-7)), ratio(-7, 1));
    assert_eq!(value(&bigrational_from_ratio(980_665, 100_000)), ratio(196_133, 20_000));
    assert_eq!(value(&bigrational_from_ratio(1, -3)), ratio(-1, 3));
    assert_eq!(
        value(&bigrational_from_int(i128::MAX)),
        BigRational::from_integer(BigInt::from(i128::MAX))
    );
}

#[test]
fn parts_need_a_positive_denominator() {
    let part = |n: i64| Integer::from_signed_bytes_le(BigInt::from(n).to_signed_bytes_le());
    assert_eq!(value(&Rational::from_parts(part(-6), part(4)).unwrap()), ratio(-3, 2));
    assert!(Rational::from_parts(part(1), part(0)).is_none());
    assert!(Rational::from_parts(part(1), part(-2)).is_none());
}

#[test]
fn integers_round_trip_through_bytes() {
    for n in [0i64, 1, -1, 127, 128, -128, -129, 255, 256, 65_535, -65_536, i64::MAX, i64::MIN] {
        let held = Integer::from_signed_bytes_le(BigInt::from(n).to_signed_bytes_le());
        assert_eq!(BigInt::from_signed_bytes_le(&held.clone().to_signed_bytes_le()), BigInt::from(n));
    }
    assert_eq!(BigInt::from_signed_bytes_le(&Integer::from_signed_bytes_le(vec![]).to_signed_bytes_le()), BigInt::zero());
}

#[test]
fn sign_test() {
    assert!(bigrational_from_ratio(-1, 2).is_negative());
    assert!(bigrational_from_ratio(1, -2).is_negative());
    assert!(!bigrational_from_ratio(1, 2).is_negative());
    assert!(!bigrational_from_int(0).is_negative());
}

#[test]
fn decimal_rendering_rounds_half_up() {
    assert_eq!(BigRationalConfig::to_decimal_string(&bigrational_from_ratio(1, 3), 4), "0.3333");
    assert_eq!(BigRationalConfig::to_decimal_string(&bigrational_from_ratio(2, 3), 4), "0.6667");
    assert_eq!(BigRationalConfig::to_decimal_string(&bigrational_from_ratio(-1, 2), 2), "-0.50");
    assert_eq!(BigRationalConfig::to_decimal_string(&bigrational_from_ratio(1, 8), 2), "0.13");
    assert_eq!(BigRationalConfig::to_decimal_string(&bigrational_from_ratio(-1, 8), 2), "-0.13");
    assert_eq!(BigRationalConfig::to_decimal_string(&bigrational_from_ratio(3, 8), 2), "0.38");
    assert_eq!(BigRationalConfig::to_decimal_string(&bigrational_from_ratio(1249, 10000), 2), "0.12");
}

#[test]
fn decimal_rendering_pads_the_fraction() {
    assert_eq!(BigRationalConfig::to_decimal_string(&bigrational_from_ratio(1, 1000), 5), "0.00100");
    assert_eq!(BigRationalConfig::to_decimal_string(&bigrational_from_int(42), 3), "42.000");
    assert_eq!(BigRationalConfig::to_decimal_string(&bigrational_from_int(0), 1), "0.0");
    assert_eq!(BigRationalConfig::to_decimal_string(&bigrational_from_ratio(-1, 1000), 2), "-0.00");
    assert_eq!(
        BigRationalConfig::to_decimal_string(&bigrational_from_ratio(1, 3), 30),
        "0.333333333333333333333333333333"
    );
}

#[test]
fn decimal_rendering_without_fraction_digits_rounds() {
    assert_eq!(BigRationalConfig::to_decimal_string(&bigrational_from_ratio(7, 2), 0), "4");
    assert_eq!(BigRationalConfig::to_decimal_string(&bigrational_from_ratio(-7, 2), 0), "-4");
    assert_eq!(BigRationalConfig::to_decimal_string(&bigrational_from_ratio(2, 3), 0), "1");
    assert_eq!(BigRationalConfig::to_decimal_string(&bigrational_from_ratio(1, 3), 0), "0");
    assert_eq!(BigRationalConfig::to_decimal_string(&bigrational_from_ratio(1, 2), 0), "1");
    assert_eq!(BigRationalConfig::to_decimal_string(&bigrational_from_ratio(49, 100), 0), "0");
    assert_eq!(BigRationalConfig::to_decimal_string(&bigrational_from_ratio(-1, 3), 0), "-0");
    assert_eq!(BigRationalConfig::to_decimal_string(&bigrational_from_int(0), 0), "0");
    assert_eq!(BigRationalConfig::to_decimal_string(&bigrational_from_int(-12), 0), "-12");
    assert_eq!(BigRationalConfig::to_decimal_string(&bigrational_from_ratio(199, 2), 0), "100");
}

#[test]
fn decimal_rendering_of_the_integer_part() {
    assert_eq!(
        BigRationalConfig::to_decimal_string(&bigrational_from_ratio(12_345_678_901_234_567_890, 1), 2),
        "12345678901234567890.00"
    );
    assert_eq!(
        BigRationalConfig::to_decimal_string(&bigrational_from_ratio(-299_792_458_001, 1000), 1),
        "-299792458.0"
    );
    assert_eq!(BigRationalConfig::to_decimal_string(&bigrational_from_ratio(7, 2), 1), "3.5");
    assert_eq!(BigRationalConfig::to_decimal_string(&bigrational_from_ratio(-7, 2), 3), "-3.500");
}

#[test]
fn decimal_rendering_does_not_depend_on_the_fraction() {
    let text = BigRationalConfig::to_decimal_string(&bigrational_from_ratio(1, 7), 12);
    assert_eq!(text, "0.142857142857");
    assert_eq!(BigRationalConfig::to_decimal_string(&bigrational_from_ratio(3, 21), 12), text);
    assert_eq!(BigRationalConfig::to_decimal_string(&bigrational_from_ratio(-5, -35), 12), text);
    let part = |n: i64| Integer::from_signed_bytes_le(BigInt::from(n).to_signed_bytes_le());
    let unreduced = Rational::from_parts(part(1000), part(7000)).unwrap();
    assert_eq!(BigRationalConfig::to_decimal_string(&unreduced, 12), text);
}

#[test]
fn a_carry_out_of_the_fraction_reaches_the_integer_part() {
    assert_eq!(BigRationalConfig::to_decimal_string(&bigrational_from_ratio(999, 1000), 2), "1.00");
    assert_eq!(BigRationalConfig::to_decimal_string(&bigrational_from_ratio(994, 1000), 2), "0.99");
    assert_eq!(BigRationalConfig::to_decimal_string(&bigrational_from_ratio(995, 1000), 2), "1.00");
    assert_eq!(BigRationalConfig::to_decimal_string(&bigrational_from_ratio(-999, 1000), 2), "-1.00");
    assert_eq!(BigRationalConfig::to_decimal_string(&bigrational_from_ratio(9_999, 1000), 2), "10.00");
    assert_eq!(BigRationalConfig::to_decimal_string(&bigrational_from_ratio(19_996, 1000), 2), "20.00");
    assert_eq!(BigRationalConfig::to_decimal_string(&bigrational_from_ratio(95, 100), 1), "1.0");
    assert_eq!(BigRationalConfig::to_decimal_string(&bigrational_from_ratio(1_095, 1000), 2), "1.10");
}

#[test]
fn exp_of_zero_is_one() {
    let config = BigRationalConfig::new();
    assert_eq!(value(&config.exp(&bigrational_from_int(0))), ratio(1, 1));
}

#[test]
fn exp_sums_the_series_up_to_the_cap() {
    let one = bigrational_from_int(1);
    assert_eq!(value(&limits(0, 100).exp(&one)), ratio(1, 1));
    assert_eq!(value(&limits(1, 100).exp(&one)), ratio(2, 1));
    assert_eq!(value(&limits(2, 100).exp(&one)), ratio(5, 2));
    assert_eq!(value(&limits(3, 100).exp(&one)), ratio(8, 3));
    assert_eq!(value(&limits(4, 100).exp(&one)), ratio(65, 24));
    assert_eq!(value(&limits(3, 100).exp(&bigrational_from_int(-2))), ratio(-1, 3));
}

#[test]
fn exp_stops_with_the_first_small_term() {
    // terms 1, 1/2, 1/8, 1/48: the last is the first below 1/10
    let half = bigrational_from_ratio(1, 2);
    assert_eq!(value(&limits(500, 1).exp(&half)), ratio(1, 1) + ratio(1, 2) + ratio(1, 8) + ratio(1, 48));
    // a tolerance of 1 stops at the term 1/2
    assert_eq!(value(&limits(500, 0).exp(&half)), ratio(3, 2));
}

#[test]
fn exp_to_many_places() {
    let config = BigRationalConfig::new_with_precision(40);
    let e = config.exp(&bigrational_from_int(1));
    assert_eq!(BigRationalConfig::to_decimal_string(&e, 30), "2.718281828459045235360287471353");
    let root_e = config.exp(&bigrational_from_ratio(1, 2));
    assert_eq!(BigRationalConfig::to_decimal_string(&root_e, 30), "1.648721270700128146848650787814");
    let inverse = config.exp(&bigrational_from_int(-1));
    assert_eq!(BigRationalConfig::to_decimal_string(&inverse, 30), "0.367879441171442321595523770161");
}

#[test]
fn sqrt_of_zero_is_zero() {
    assert_eq!(value(&BigRationalConfig::new().sqrt(&bigrational_from_int(0))), ratio(0, 1));
    assert_eq!(value(&limits(0, 5).sqrt(&bigrational_from_int(0))), ratio(0, 1));
}

#[test]
fn sqrt_takes_newton_steps_up_to_the_cap() {
    let two = bigrational_from_int(2);
    assert_eq!(value(&limits(0, 100).sqrt(&two)), ratio(2, 1));
    assert_eq!(value(&limits(1, 100).sqrt(&two)), ratio(3, 2));
    assert_eq!(value(&limits(2, 100).sqrt(&two)), ratio(17, 12));
    assert_eq!(value(&limits(3, 100).sqrt(&two)), ratio(577, 408));
}

#[test]
fn sqrt_stops_when_a_step_moves_no_more_than_the_tolerance() {
    // 1 is its own root: one step, which does not move the guess
    assert_eq!(value(&limits(500, 100).sqrt(&bigrational_from_int(1))), ratio(1, 1));
    // guesses 2, 3/2, 17/12: the last step moved by 1/12, no more than 1/10
    assert_eq!(value(&limits(500, 1).sqrt(&bigrational_from_int(2))), ratio(17, 12));
    // guesses 1/2, 3/4: the step moved by 1/4, no more than 1
    assert_eq!(value(&limits(500, 0).sqrt(&bigrational_from_ratio(1, 2))), ratio(3, 4));
}

#[test]
fn sqrt_steps_from_a_number_within_the_tolerance() {
    // guesses 1/10, 11/20, 161/440, 45281/141680: the first guess is held against nothing
    assert_eq!(
        value(&limits(500, 1).sqrt(&bigrational_from_ratio(1, 10))),
        ratio(45_281, 141_680)
    );
    let root = BigRationalConfig::new_with_precision(6).sqrt(&bigrational_from_ratio(1, 100));
    assert_eq!(BigRationalConfig::to_decimal_string(&root, 5), "0.10000");
}

#[test]
fn sqrt_squared_gives_the_number_back() {
    let config = BigRationalConfig::new_with_precision(20);
    for (n, d) in [(2i128, 1i128), (1, 4), (9, 16), (3, 2), (99, 100), (101, 100), (1, 1), (5, 1)] {
        let x = bigrational_from_ratio(n, d);
        let root = value(&config.sqrt(&x));
        let error = (&root * &root - value(&x)).abs();
        assert!(error <= tolerance(20) * BigInt::from(2));
    }
}

#[test]
fn sqrt_to_many_places() {
    let config = BigRationalConfig::new_with_precision(40);
    let root = config.sqrt(&bigrational_from_int(2));
    assert_eq!(BigRationalConfig::to_decimal_string(&root, 30), "1.414213562373095048801688724210");
    let root = config.sqrt(&bigrational_from_ratio(1, 4));
    assert_eq!(BigRationalConfig::to_decimal_string(&root, 30), "0.500000000000000000000000000000");
}

#[test]
fn checked_sqrt_rejects_negative_numbers() {
    let config = BigRationalConfig::new_with_precision(20);
    assert_eq!(
        config.checked_sqrt(&bigrational_from_int(-1)).err(),
        Some(DomainError::NegativeSquareRoot)
    );
    assert_eq!(
        config.checked_sqrt(&bigrational_from_ratio(-1, 1000)).err(),
        Some(DomainError::NegativeSquareRoot)
    );
    assert_eq!(value(&config.checked_sqrt(&bigrational_from_int(0)).unwrap()), ratio(0, 1));
    let root = config.checked_sqrt(&bigrational_from_int(9)).unwrap();
    assert_eq!(BigRationalConfig::to_decimal_string(&root, 10), "3.0000000000");
}

#[test]
fn tanh_saturates_beyond_twenty() {
    let config = BigRationalConfig::new();
    assert_eq!(value(&config.tanh(&bigrational_from_int(21))), ratio(1, 1));
    assert_eq!(value(&config.tanh(&bigrational_from_ratio(201, 10))), ratio(1, 1));
    assert_eq!(value(&config.tanh(&bigrational_from_int(1_000_000))), ratio(1, 1));
    assert_eq!(value(&config.tanh(&bigrational_from_int(-21))), ratio(-1, 1));
    assert_eq!(value(&config.tanh(&bigrational_from_ratio(-201, 10))), ratio(-1, 1));
    assert_eq!(value(&limits(0, 0).tanh(&bigrational_from_int(21))), ratio(1, 1));
}

#[test]
fn tanh_does_not_saturate_at_twenty() {
    let config = limits(3, 100);
    // e = 1 + 40 + 800 + 32000/3
    let e = ratio(1, 1) + ratio(40, 1) + ratio(800, 1) + ratio(32_000, 3);
    let expected = (&e - ratio(1, 1)) / (&e + ratio(1, 1));
    assert_eq!(value(&config.tanh(&bigrational_from_int(20))), expected);
    assert_ne!(value(&BigRationalConfig::new().tanh(&bigrational_from_int(-20))), ratio(-1, 1));
}

#[test]
fn tanh_from_the_exponential() {
    assert_eq!(value(&BigRationalConfig::new().tanh(&bigrational_from_int(0))), ratio(0, 1));
    // e = 1 + 1 + 1/2: (e - 1) / (e + 1) = 3/7
    assert_eq!(value(&limits(2, 100).tanh(&bigrational_from_ratio(1, 2))), ratio(3, 7));
    let t = BigRationalConfig::new_with_precision(40).tanh(&bigrational_from_ratio(1, 2));
    assert_eq!(BigRationalConfig::to_decimal_string(&t, 30), "0.462117157260009758502318483644");
}

#[test]
fn checked_tanh_finds_the_missing_value() {
    // with one term the exponential of -2 is 1 - 2 = -1
    let config = limits(1, 100);
    assert!(config.checked_tanh(&bigrational_from_int(-1)).is_none());
    assert_eq!(value(&config.checked_tanh(&bigrational_from_int(1)).unwrap()), ratio(1, 2));
    assert_eq!(value(&config.checked_tanh(&bigrational_from_int(-30)).unwrap()), ratio(-1, 1));
    assert_eq!(
        value(&BigRationalConfig::new().checked_tanh(&bigrational_from_int(-1)).unwrap()),
        value(&BigRationalConfig::new().tanh(&bigrational_from_int(-1)))
    );
}

#[test]
fn atanh_rejects_what_lies_outside_its_domain() {
    let config = BigRationalConfig::new();
    assert_eq!(config.atanh(&bigrational_from_int(1)).err(), Some(DomainError::AtanhOutOfRange));
    assert_eq!(config.atanh(&bigrational_from_int(-1)).err(), Some(DomainError::AtanhOutOfRange));
    assert_eq!(config.atanh(&bigrational_from_ratio(3, 2)).err(), Some(DomainError::AtanhOutOfRange));
    assert_eq!(config.atanh(&bigrational_from_ratio(-3, 2)).err(), Some(DomainError::AtanhOutOfRange));
    assert!(limits(10, 10).atanh(&bigrational_from_ratio(999, 1000)).is_ok());
    assert!(limits(10, 10).atanh(&bigrational_from_ratio(-999, 1000)).is_ok());
}

#[test]
fn atanh_sums_the_series_up_to_the_cap() {
    let half = bigrational_from_ratio(1, 2);
    assert_eq!(value(&limits(0, 100).atanh(&half).unwrap()), ratio(0, 1));
    assert_eq!(value(&limits(1, 100).atanh(&half).unwrap()), ratio(1, 2));
    assert_eq!(value(&limits(2, 100).atanh(&half).unwrap()), ratio(13, 24));
    assert_eq!(value(&limits(3, 100).atanh(&half).unwrap()), ratio(13, 24) + ratio(1, 160));
    assert_eq!(value(&limits(2, 100).atanh(&bigrational_from_ratio(-1, 2)).unwrap()), ratio(-13, 24));
}

#[test]
fn atanh_stops_before_the_first_small_term() {
    // terms 1/2, 1/24, 1/160: the second is the first below 1/10 and is left out
    assert_eq!(value(&limits(500, 1).atanh(&bigrational_from_ratio(1, 2)).unwrap()), ratio(1, 2));
    // the third is the first below 1/100
    assert_eq!(value(&limits(500, 2).atanh(&bigrational_from_ratio(1, 2)).unwrap()), ratio(13, 24));
    assert_eq!(value(&BigRationalConfig::new().atanh(&bigrational_from_int(0)).unwrap()), ratio(0, 1));
}

#[test]
fn atanh_to_many_places() {
    let config = BigRationalConfig::new_with_precision(40);
    let a = config.atanh(&bigrational_from_ratio(1, 2)).unwrap();
    assert_eq!(BigRationalConfig::to_decimal_string(&a, 30), "0.549306144334054845697622618461");
}

#[test]
fn atanh_undoes_tanh() {
    let config = BigRationalConfig::new_with_precision(8);
    for (n, d) in [(1i128, 2i128), (-1, 2), (1, 10), (-1, 4), (0, 1)] {
        let x = bigrational_from_ratio(n, d);
        let back = config.atanh(&config.tanh(&x)).unwrap();
        let error = (value(&back) - value(&x)).abs();
        assert!(error < tolerance(6));
    }
}

#[test]
fn domain_error_messages() {
    assert_eq!(DomainError::AtanhOutOfRange.message(), "atanh(x) is only defined for |x| < 1");
    assert_eq!(DomainError::NegativeSquareRoot.message(), "square root of a negative number");
}

#[test]
fn exp_tells_whether_it_came_to_rest() {
    let half = bigrational_from_ratio(1, 2);
    let (sum, converged) = limits(500, 1).exp_with_status(&half);
    assert_eq!(value(&sum), ratio(79, 48));
    assert!(converged);
    let (sum, converged) = limits(2, 100).exp_with_status(&half);
    assert_eq!(value(&sum), ratio(13, 8));
    assert!(!converged);
    let (sum, converged) = limits(0, 0).exp_with_status(&half);
    assert_eq!(value(&sum), ratio(1, 1));
    assert!(!converged);
    // the term of index 3 is the first below 1/10 and the last allowed
    let (sum, converged) = limits(3, 1).exp_with_status(&half);
    assert_eq!(value(&sum), ratio(79, 48));
    assert!(converged);
}

#[test]
fn sqrt_tells_whether_it_came_to_rest() {
    let two = bigrational_from_int(2);
    let (root, converged) = limits(500, 1).sqrt_with_status(&two);
    assert_eq!(value(&root), ratio(17, 12));
    assert!(converged);
    let (root, converged) = limits(1, 100).sqrt_with_status(&two);
    assert_eq!(value(&root), ratio(3, 2));
    assert!(!converged);
    let (root, converged) = limits(0, 100).sqrt_with_status(&two);
    assert_eq!(value(&root), ratio(2, 1));
    assert!(!converged);
    // the second step moved the guess by 1/12
    let (root, converged) = limits(2, 1).sqrt_with_status(&two);
    assert_eq!(value(&root), ratio(17, 12));
    assert!(converged);
    let (root, converged) = limits(0, 1).sqrt_with_status(&bigrational_from_ratio(1, 10));
    assert_eq!(value(&root), ratio(1, 10));
    assert!(!converged);
    let (root, converged) = limits(500, 1).sqrt_with_status(&bigrational_from_ratio(1, 10));
    assert_eq!(value(&root), ratio(45_281, 141_680));
    assert!(converged);
    let (root, converged) = limits(0, 100).sqrt_with_status(&bigrational_from_int(0));
    assert_eq!(value(&root), ratio(0, 1));
    assert!(converged);
}

#[test]
fn atanh_tells_whether_it_came_to_rest() {
    let half = bigrational_from_ratio(1, 2);
    let (sum, converged) = limits(500, 1).atanh_with_status(&half).unwrap();
    assert_eq!(value(&sum), ratio(1, 2));
    assert!(converged);
    let (sum, converged) = limits(2, 100).atanh_with_status(&half).unwrap();
    assert_eq!(value(&sum), ratio(13, 24));
    assert!(!converged);
    let (sum, converged) = limits(0, 0).atanh_with_status(&half).unwrap();
    assert_eq!(value(&sum), ratio(0, 1));
    assert!(!converged);
    assert_eq!(
        limits(5, 5).atanh_with_status(&bigrational_from_int(1)).err(),
        Some(DomainError::AtanhOutOfRange)
    );
}

#[test]
fn arithmetic_on_rationals() {
    let a = bigrational_from_ratio(1, 2);
    let b = bigrational_from_ratio(-1, 3);
    assert_eq!(value(&a.add(&b)), ratio(1, 6));
    assert_eq!(value(&a.sub(&b)), ratio(5, 6));
    assert_eq!(value(&a.mul(&b)), ratio(-1, 6));
    assert_eq!(value(&a.div(&b)), ratio(-3, 2));
    assert_eq!(value(&b.abs()), ratio(1, 3));
    assert_eq!(value(&a.abs()), ratio(1, 2));
    assert!(b.lt(&a));
    assert!(!a.lt(&b));
    assert!(!a.lt(&a));
    assert!(a.is_positive());
    assert!(!b.is_positive());
    assert!(!bigrational_from_int(0).is_positive());
    assert!(bigrational_from_int(0).is_zero());
    assert!(!a.is_zero());
    assert_eq!(value(&a.clone()), ratio(1, 2));
}

#[test]
fn tanh_quotient_gives_the_exponential_back() {
    let one = bigrational_from_int(1);
    let two = bigrational_from_int(2);
    for config in [limits(3, 100), limits(500, 6)] {
        for (n, d) in [(1i128, 2i128), (-1, 2), (3, 1), (-7, 4), (0, 1)] {
            let x = bigrational_from_ratio(n, d);
            let t = config.tanh(&x);
            let quotient = one.add(&t).div(&one.sub(&t));
            assert_eq!(value(&quotient), value(&config.exp(&two.mul(&x))));
        }
    }
}

#[test]
fn tanh_of_what_is_not_negative_lies_from_zero_up_to_one() {
    let config = limits(4, 2);
    for (n, d) in [(0i128, 1i128), (1, 100), (1, 2), (5, 1), (20, 1)] {
        let t = value(&config.tanh(&bigrational_from_ratio(n, d)));
        assert!(t >= ratio(0, 1) && t < ratio(1, 1));
    }
    assert_eq!(value(&config.tanh(&bigrational_from_ratio(201, 10))), ratio(1, 1));
}

#[test]
fn atanh_is_not_below_its_argument() {
    for config in [limits(1, 100), limits(3, 100), limits(500, 3)] {
        for (n, d) in [(0i128, 1i128), (1, 100), (1, 2), (9, 10)] {
            let x = bigrational_from_ratio(n, d);
            assert!(value(&config.atanh(&x).unwrap()) >= value(&x));
        }
    }
}
