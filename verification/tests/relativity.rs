use num_bigint::BigInt;
use num_rational::BigRational;
use num_traits::Signed;
use relativity_core::config::BigRationalConfig;
use relativity_core::error::DomainError;
use relativity_core::quantities::{Acceleration, Energy, Length, Mass, Time, Velocity};
use relativity_core::rational::{bigrational_from_int, bigrational_from_ratio, Rational};
use relativity_core::relativity::{
    add_velocities2, add_velocities3, add_velocities_using_rapidity, non_relativistic_acceleration,
    relativistic_acceleration, relativistic_acceleration_add,
    relativistic_acceleration_as_fraction, speed_of_light, speed_of_light_squared,
    standard_gravity, validate_velocity, validate_velocity_result, FractionOfC, LorentzFactor,
    Rapidity,
};

const C: i64 = 299_792_458;

fn value(r: &Rational) -> BigRational {
    BigRational::new(
        BigInt::from_signed_bytes_le(&r.numer().to_signed_bytes_le()),
        BigInt::from_signed_bytes_le(&r.denom().to_signed_bytes_le()),
    )
}

fn ratio(n: i64, d: i64) -> BigRational {
    BigRational::new(BigInt::from(n), BigInt::from(d))
}

fn close(a: &BigRational, b: &BigRational, places: u32) -> bool {
    (a - b).abs() < BigRational::new(BigInt::from(1), BigInt::from(10).pow(places))
}

fn limits(max_iterations: u32, precision: u32) -> BigRationalConfig {
    BigRationalConfig { max_iterations, precision }
}

fn velocity(n: i128, d: i128) -> Velocity {
    Velocity::new(bigrational_from_ratio(n, d))
}

#[test]
fn physical_constants() {
    assert_eq!(value(&speed_of_light()), ratio(C, 1));
    assert_eq!(value(&speed_of_light_squared()), ratio(C, 1) * ratio(C, 1));
    assert_eq!(value(&standard_gravity()), ratio(980_665, 100_000));
}

#[test]
fn quantities_keep_their_measure() {
    assert_eq!(value(Velocity::new(bigrational_from_ratio(3, 4)).get()), ratio(3, 4));
    assert_eq!(value(Acceleration::new(bigrational_from_ratio(-3, 4)).get()), ratio(-3, 4));
    assert_eq!(value(Time::new(bigrational_from_int(60)).get()), ratio(60, 1));
    assert_eq!(value(Length::new(bigrational_from_int(7)).get()), ratio(7, 1));
    assert_eq!(value(Mass::new(bigrational_from_ratio(1, 1000)).get()), ratio(1, 1000));
    assert_eq!(value(Energy::new(bigrational_from_int(0)).get()), ratio(0, 1));
    assert_eq!(value(LorentzFactor::new(bigrational_from_int(2)).get()), ratio(2, 1));
    assert_eq!(value(Rapidity::new(bigrational_from_ratio(1, 2)).get()), ratio(1, 2));
    assert_eq!(value(FractionOfC::new(bigrational_from_ratio(1, 2), true).get()), ratio(1, 2));
    assert_eq!(value(FractionOfC::new(bigrational_from_int(3), false).get()), ratio(3, 1));
}

#[test]
fn speeds_are_held_against_the_speed_of_light() {
    assert!(validate_velocity_result(&velocity(0, 1)).is_ok());
    assert!(validate_velocity_result(&velocity(299_792_457, 1)).is_ok());
    assert!(validate_velocity_result(&velocity(-299_792_457, 1)).is_ok());
    assert_eq!(
        validate_velocity_result(&velocity(299_792_458, 1)).err(),
        Some(DomainError::SpeedNotBelowLight)
    );
    assert_eq!(
        validate_velocity_result(&velocity(-299_792_458, 1)).err(),
        Some(DomainError::SpeedNotBelowLight)
    );
    assert_eq!(
        validate_velocity_result(&velocity(2_997_924_581, 10)).err(),
        Some(DomainError::SpeedNotBelowLight)
    );
    let v = velocity(100, 1);
    assert_eq!(value(validate_velocity_result(&v).unwrap().get()), ratio(100, 1));
    assert_eq!(value(validate_velocity(&v).get()), ratio(100, 1));
    assert_eq!(
        DomainError::SpeedNotBelowLight.message(),
        "Speed is greater than or equal to the speed of light"
    );
}

#[test]
fn fractions_of_the_speed_of_light() {
    let half = velocity(149_896_229, 1);
    assert_eq!(value(FractionOfC::from_velocity(&half, true).get()), ratio(1, 2));
    assert_eq!(value(FractionOfC::from_velocity(&half, false).get()), ratio(1, 2));
    let fast = velocity(2 * 299_792_458, 1);
    assert_eq!(value(FractionOfC::from_velocity(&fast, false).get()), ratio(2, 1));
    let f = FractionOfC::new(bigrational_from_ratio(9, 10), true);
    assert_eq!(value(f.as_velocity().get()), ratio(2_698_132_122, 10));
    assert_eq!(
        value(FractionOfC::get_velocity(bigrational_from_ratio(-1, 4)).get()),
        ratio(-149_896_229, 2)
    );
}

#[test]
fn lorentz_factor_of_three_fifths() {
    let config = BigRationalConfig::new_with_precision(20);
    let f = FractionOfC::new(bigrational_from_ratio(3, 5), true);
    let factor = LorentzFactor::from_fraction_of_c(&config, &f);
    assert_eq!(BigRationalConfig::to_decimal_string(factor.get(), 15), "1.250000000000000");
    // no step: the first guess 25/16 is returned
    let factor = LorentzFactor::from_fraction_of_c(&limits(0, 20), &f);
    assert_eq!(value(factor.get()), ratio(25, 16));
    let v = velocity(3 * 299_792_458, 5);
    let factor = LorentzFactor::from_velocity(&config, &v);
    assert_eq!(BigRationalConfig::to_decimal_string(factor.get(), 15), "1.250000000000000");
    // no step: one over the first guess 16/25
    let factor = LorentzFactor::from_velocity(&limits(0, 20), &v);
    assert_eq!(value(factor.get()), ratio(25, 16));
    let at_rest = LorentzFactor::from_velocity(&config, &velocity(0, 1));
    assert_eq!(value(at_rest.get()), ratio(1, 1));
}

#[test]
fn lorentz_factor_of_a_rapidity() {
    // e = 1 + 1 + 1/2, tanh = 3/7, 1 / (1 - 9/49) = 49/40 is the first guess
    let r = Rapidity::new(bigrational_from_ratio(1, 2));
    let factor = LorentzFactor::from_rapidity(&limits(2, 0), &r);
    assert_eq!(value(factor.get()), ratio(49, 40) / ratio(2, 1) + ratio(1, 2));
    let config = BigRationalConfig::new_with_precision(12);
    let factor = LorentzFactor::from_rapidity(&config, &r);
    // cosh(1/2)
    assert_eq!(BigRationalConfig::to_decimal_string(factor.get(), 8), "1.12762597");
}

#[test]
fn lorentz_factor_scales_quantities() {
    let factor = LorentzFactor::new(bigrational_from_ratio(5, 4));
    let length = factor.length_contraction(Length::new(bigrational_from_int(10)));
    assert_eq!(value(length.get()), ratio(8, 1));
    let time = factor.time_dilation(Time::new(bigrational_from_int(10)));
    assert_eq!(value(time.get()), ratio(25, 2));
    let mass = factor.relativistic_mass(Mass::new(bigrational_from_int(2)));
    assert_eq!(value(mass.get()), ratio(5, 2));
    let energy = factor.relativistic_energy(&Mass::new(bigrational_from_int(2)));
    assert_eq!(value(energy.get()), ratio(5, 2) * ratio(C, 1) * ratio(C, 1));
}

#[test]
fn rapidity_from_acceleration_and_time() {
    let acc = Acceleration::new(bigrational_from_ratio(980_665, 100_000));
    let time = Time::new(bigrational_from_int(1_000_000));
    let r = Rapidity::from_acc_and_time(&acc, &time);
    assert_eq!(value(r.get()), ratio(980_665, 100_000) * ratio(1_000_000, 1) / ratio(C, 1));
    let sum = Rapidity::new(bigrational_from_ratio(1, 2)).add(Rapidity::new(bigrational_from_ratio(1, 3)));
    assert_eq!(value(sum.get()), ratio(5, 6));
}

#[test]
fn rapidity_and_velocity() {
    let config = BigRationalConfig::new_with_precision(12);
    let half = FractionOfC::new(bigrational_from_ratio(1, 2), true);
    let r = Rapidity::from_fraction_of_c(&config, &half);
    assert_eq!(BigRationalConfig::to_decimal_string(r.get(), 10), "0.5493061443");
    let r = Rapidity::from_velocity(&config, &velocity(149_896_229, 1));
    assert_eq!(BigRationalConfig::to_decimal_string(r.get(), 10), "0.5493061443");
    // tanh of 1/2 times the speed of light
    let v = Rapidity::new(bigrational_from_ratio(1, 2)).to_velocity(&config);
    assert_eq!(BigRationalConfig::to_decimal_string(v.get(), 3), "138539238.459");
    let f = FractionOfC::from_rapidity(&config, &Rapidity::new(bigrational_from_ratio(1, 2)));
    assert_eq!(BigRationalConfig::to_decimal_string(f.get(), 10), "0.4621171573");
    let far = FractionOfC::from_rapidity(&config, &Rapidity::new(bigrational_from_int(25)));
    assert_eq!(value(far.get()), ratio(1, 1));
}

#[test]
fn acceleration_with_and_without_relativity() {
    let config = BigRationalConfig::new_with_precision(12);
    let acc = Acceleration::new(bigrational_from_int(10));
    let time = Time::new(bigrational_from_ratio(299_792_458, 10));
    // rapidity 1: ten metres per second squared for a tenth of c seconds
    assert_eq!(value(non_relativistic_acceleration(&acc, &time).get()), ratio(C, 1));
    let v = relativistic_acceleration(&config, &acc, &time);
    // c tanh(1)
    assert_eq!(BigRationalConfig::to_decimal_string(v.get(), 2), "228320184.01");
    let f = relativistic_acceleration_as_fraction(&config, &acc, &time);
    assert_eq!(BigRationalConfig::to_decimal_string(f.get(), 10), "0.7615941560");
    let from_rest = relativistic_acceleration_add(&config, &velocity(0, 1), &acc, &time);
    assert_eq!(value(from_rest.get()), value(v.get()));
}

#[test]
fn velocities_add_below_the_speed_of_light() {
    let half = velocity(149_896_229, 1);
    let expected = ratio(4 * 299_792_458, 5);
    assert_eq!(value(add_velocities2(&half, &half).get()), expected);
    assert_eq!(value(add_velocities3(&half, &half).get()), expected);
    let back = velocity(-149_896_229, 1);
    assert_eq!(value(add_velocities2(&half, &back).get()), ratio(0, 1));
    assert_eq!(value(add_velocities3(&half, &back).get()), ratio(0, 1));
    let slow = velocity(3, 1);
    let slower = velocity(4, 1);
    let sum = value(add_velocities3(&slow, &slower).get());
    assert_eq!(sum, ratio(7, 1) / (ratio(1, 1) + ratio(12, 1) / (ratio(C, 1) * ratio(C, 1))));
    assert_eq!(value(add_velocities2(&slow, &slower).get()), sum);
}

#[test]
fn velocities_add_by_their_rapidities() {
    let config = BigRationalConfig::new_with_precision(12);
    let half = velocity(149_896_229, 1);
    let sum = add_velocities_using_rapidity(&config, &half, &half);
    assert!(close(&value(sum.get()), &ratio(4 * 299_792_458, 5), 2));
}
