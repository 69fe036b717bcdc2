//! Special relativity on exact rationals: Lorentz factors, fractions of
//! the speed of light, rapidities, and the addition of velocities.

use vstd::pervasive::unreached;
use vstd::prelude::*;
use crate::config::BigRationalConfig;
use crate::error::DomainError;
use crate::exponential::{epsilon, lemma_epsilon_wf};
use crate::fraction::{lemma_same_sign, lemma_same_symmetric, Fraction};
use crate::hyperbolic::{
    atanh_value, in_atanh_domain, lemma_tanh_value_same, tanh_defined, tanh_value,
};
use crate::quantities::{Acceleration, Energy, Length, Mass, Time, Velocity};
use crate::rational::{bigrational_from_int, bigrational_from_ratio, Rational};
use crate::roots::{lemma_sqrt_value_same, sqrt_value};

verus! {

/// The speed of light in metres per second.
pub open spec fn light_speed() -> Fraction {
    Fraction::from_int(299_792_458)
}

/// The square of the speed of light.
pub open spec fn light_speed_squared() -> Fraction {
    light_speed().mul(light_speed())
}

/// The standard acceleration of gravity in metres per second squared.
pub open spec fn gravity() -> Fraction {
    Fraction { num: 980_665, den: 100_000 }
}

/// The number one.
pub open spec fn unit() -> Fraction {
    Fraction::from_int(1)
}

/// Whether the speed `v` is below the speed of light: `|v| < c`.
pub open spec fn below_light(v: Fraction) -> bool {
    v.abs().lt(light_speed())
}

/// The Lorentz factor of the fraction `f` of the speed of light: the
/// square root of `1 / (1 - f^2)`.
pub open spec fn lorentz_of_fraction(f: Fraction, eps: Fraction, max: nat) -> Fraction {
    sqrt_value(unit().div(unit().sub(f.mul(f))), eps, max)
}

/// The Lorentz factor of the velocity `v`: one over the square root of
/// `1 - (v / c)^2`.
pub open spec fn lorentz_of_velocity(v: Fraction, eps: Fraction, max: nat) -> Fraction {
    let f = v.div(light_speed());
    unit().div(sqrt_value(unit().sub(f.mul(f)), eps, max))
}

/// The rapidity that the acceleration `a` gives in the time `t`: `a t / c`.
pub open spec fn rapidity_gained(a: Fraction, t: Fraction) -> Fraction {
    a.mul(t).div(light_speed())
}

/// The sum of the velocities `u` and `v` by their fractions of the speed
/// of light: `c (f + g) / (1 + f g)`.
pub open spec fn sum_by_fractions(u: Fraction, v: Fraction) -> Fraction {
    let f = u.div(light_speed());
    let g = v.div(light_speed());
    light_speed().mul(f.add(g)).div(unit().add(f.mul(g)))
}

/// The sum of the velocities `u` and `v`: `(u + v) / (1 + u v / c^2)`.
pub open spec fn sum_of_velocities(u: Fraction, v: Fraction) -> Fraction {
    u.add(v).div(unit().add(u.mul(v).div(light_speed_squared())))
}

/// The rapidity of the velocity `v` after the acceleration `a` has
/// worked for the time `t`.
pub open spec fn rapidity_after(
    v: Fraction,
    a: Fraction,
    t: Fraction,
    eps: Fraction,
    max: nat,
) -> Fraction {
    atanh_value(v.div(light_speed()), eps, max).add(rapidity_gained(a, t))
}

/// The sum of the rapidities of the velocities `u` and `v`.
pub open spec fn rapidity_of_both(u: Fraction, v: Fraction, eps: Fraction, max: nat) -> Fraction {
    atanh_value(u.div(light_speed()), eps, max).add(
        atanh_value(v.div(light_speed()), eps, max),
    )
}

/// Whether `tanh` has a value at a number does not depend on the fraction
/// that stands for it.
proof fn lemma_tanh_defined_same(config: &BigRationalConfig, x: Fraction, y: Fraction)
    requires
        x.wf(),
        y.wf(),
        x.same(y),
    ensures
        tanh_defined(x, epsilon(config.precision as nat), config.max_iterations as nat)
            == tanh_defined(y, epsilon(config.precision as nat), config.max_iterations as nat),
{
    let eps = epsilon(config.precision as nat);
    lemma_epsilon_wf(config.precision as nat);
    lemma_same_symmetric(eps, eps);
    lemma_tanh_value_same(x, y, eps, eps, config.max_iterations as nat);
}

/// One less the square of a number between -1 and 1 is positive.
pub proof fn lemma_unit_square(f: Fraction)
    requires
        f.wf(),
        in_atanh_domain(f),
    ensures
        unit().sub(f.mul(f)).wf(),
        unit().sub(f.mul(f)).num > 0,
        unit().div(unit().sub(f.mul(f))).wf(),
        unit().div(unit().sub(f.mul(f))).num > 0,
{
    let (a, b) = (f.num, f.den);
    let d = unit().sub(f.mul(f));
    assert(d.num == 1 * (b * b) - (a * a) * 1);
    assert(d.den == 1 * (b * b));
    assert(d.num > 0 && d.den > 0) by (nonlinear_arith)
        requires
            d.num == 1 * (b * b) - (a * a) * 1,
            d.den == 1 * (b * b),
            b > 0,
            (if a < 0 { -a } else { a }) * 1 < 1 * b,
    {
        let size = if a < 0 { -a } else { a };
        assert(size * size == a * a);
        assert(size * size < b * b);
    }
    let q = unit().div(d);
    assert(q.num == 1 * d.den && q.den == 1 * d.num);
}

/// One more the product of two numbers between -1 and 1 is positive.
pub proof fn lemma_unit_product(f: Fraction, g: Fraction)
    requires
        f.wf(),
        g.wf(),
        in_atanh_domain(f),
        in_atanh_domain(g),
    ensures
        unit().add(f.mul(g)).wf(),
        unit().add(f.mul(g)).num > 0,
{
    let (a, b, c, d) = (f.num, f.den, g.num, g.den);
    let s = unit().add(f.mul(g));
    assert(s.num == 1 * (b * d) + (a * c) * 1);
    assert(s.den == 1 * (b * d));
    assert(s.num > 0 && s.den > 0) by (nonlinear_arith)
        requires
            s.num == 1 * (b * d) + (a * c) * 1,
            s.den == 1 * (b * d),
            b > 0,
            d > 0,
            (if a < 0 { -a } else { a }) * 1 < 1 * b,
            (if c < 0 { -c } else { c }) * 1 < 1 * d,
    {
        let p = if a < 0 { -a } else { a };
        let q = if c < 0 { -c } else { c };
        assert(p * q <= p * d);
        assert(p * d <= b * d);
        assert(b * d > 0);
        assert(p < b);
        assert(p * q < b * d) by {
            if q == 0 {
                assert(p * q == 0);
            } else {
                assert(p * q < b * q);
                assert(b * q < b * d);
            }
        }
        assert(a * c >= -(p * q));
    }
}

/// A speed below that of light is a fraction of it between -1 and 1.
pub proof fn lemma_fraction_of_light(v: Fraction)
    requires
        v.wf(),
    ensures
        v.div(light_speed()).wf(),
        below_light(v) == in_atanh_domain(v.div(light_speed())),
{
    let (a, b) = (v.num, v.den);
    let f = v.div(light_speed());
    assert(f.num == a * 1);
    assert(f.den == b * 299_792_458);
    assert(f.den > 0) by (nonlinear_arith)
        requires
            f.den == b * 299_792_458,
            b > 0,
    ;
}

/// The product of two speeds below that of light, over the square of the
/// speed of light, lies above -1.
pub proof fn lemma_velocity_product(u: Fraction, v: Fraction)
    requires
        u.wf(),
        v.wf(),
        below_light(u),
        below_light(v),
    ensures
        unit().add(u.mul(v).div(light_speed_squared())).wf(),
        unit().add(u.mul(v).div(light_speed_squared())).num > 0,
{
    let (a, b, c, d) = (u.num, u.den, v.num, v.den);
    let k: int = 299_792_458;
    let cc = light_speed_squared();
    assert(cc.num == k * k && cc.den == 1 * 1);
    assert(cc.num > 0) by (nonlinear_arith)
        requires
            cc.num == k * k,
            k == 299_792_458,
    ;
    let w = u.mul(v).div(cc);
    assert(w.num == (a * c) * 1 && w.den == (b * d) * cc.num);
    let s = unit().add(w);
    assert(s.num == 1 * w.den + w.num * 1 && s.den == 1 * w.den);
    assert(s.num > 0 && s.den > 0) by (nonlinear_arith)
        requires
            s.num == 1 * ((b * d) * (k * k)) + ((a * c) * 1) * 1,
            s.den == 1 * ((b * d) * (k * k)),
            b > 0,
            d > 0,
            k > 0,
            (if a < 0 { -a } else { a }) * 1 < k * b,
            (if c < 0 { -c } else { c }) * 1 < k * d,
    {
        let p = if a < 0 { -a } else { a };
        let q = if c < 0 { -c } else { c };
        assert(b * d > 0);
        assert(k * k > 0);
        assert((b * d) * (k * k) > 0);
        assert((k * b) * (k * d) == (b * d) * (k * k));
        assert(p * q < (k * b) * (k * d)) by {
            assert(k * b > 0);
            assert(k * d > 0);
            if q == 0 {
                assert(p * q == 0);
                assert((k * b) * (k * d) > 0);
            } else {
                assert(p * q < (k * b) * q);
                assert((k * b) * q < (k * b) * (k * d));
            }
        }
        assert(a * c >= -(p * q));
    }
}

/// The speed of light in metres per second.
pub fn speed_of_light() -> (c: Rational)
    ensures
        c.stands_for(light_speed()),
{
    bigrational_from_int(299_792_458)
}

/// The square of the speed of light.
pub fn speed_of_light_squared() -> (cc: Rational)
    ensures
        cc.stands_for(light_speed_squared()),
{
    let c = speed_of_light();
    c.mul(&c)
}

/// The standard acceleration of gravity in metres per second squared.
pub fn standard_gravity() -> (g: Rational)
    ensures
        g.stands_for(gravity()),
{
    bigrational_from_ratio(980_665, 100_000)
}

/// Whether the speed `v` is below the speed of light.
fn is_below_light(v: &Rational) -> (b: bool)
    ensures
        b == below_light(v@),
{
    let c = speed_of_light();
    let size = v.abs();
    proof {
        use_type_invariant(v);
        assert(v.stands_for(v@)) by {
            lemma_same_symmetric(v@, v@);
        }
    }
    size.lt(&c)
}

/// The velocity `v`, or an error where its speed is not below that of light.
pub fn validate_velocity_result(v: &Velocity) -> (r: Result<&Velocity, DomainError>)
    ensures
        match r {
            Ok(same) => below_light(v@) && same == v,
            Err(e) => !below_light(v@) && e == DomainError::SpeedNotBelowLight,
        },
{
    if is_below_light(v.get()) {
        Ok(v)
    } else {
        Err(DomainError::SpeedNotBelowLight)
    }
}

/// The velocity `v`, whose speed is below that of light.
pub fn validate_velocity(v: &Velocity) -> (same: &Velocity)
    requires
        below_light(v@),
    ensures
        same == v,
{
    v
}

/// A Lorentz factor: 1 or more for a speed below that of light.
pub struct LorentzFactor {
    value: Rational,
}

/// A velocity as a fraction of the speed of light.
pub struct FractionOfC {
    value: Rational,
}

/// A rapidity: the hyperbolic angle of a velocity.
pub struct Rapidity {
    value: Rational,
}

impl View for LorentzFactor {
    type V = Fraction;

    open spec fn view(&self) -> Fraction {
        self.measure()@
    }
}

impl View for FractionOfC {
    type V = Fraction;

    open spec fn view(&self) -> Fraction {
        self.measure()@
    }
}

impl View for Rapidity {
    type V = Fraction;

    open spec fn view(&self) -> Fraction {
        self.measure()@
    }
}

impl LorentzFactor {
    /// The value of the factor.
    pub closed spec fn measure(&self) -> Rational {
        self.value
    }

    /// Whether the factor is the number of the well-formed fraction `x`.
    pub open spec fn stands_for(&self, x: Fraction) -> bool {
        self.measure().stands_for(x)
    }

    /// The Lorentz factor with the value `v`.
    pub fn new(v: Rational) -> (factor: LorentzFactor)
        ensures
            factor.measure() == v,
    {
        LorentzFactor { value: v }
    }

    /// The value of the Lorentz factor.
    pub fn get(&self) -> (value: &Rational)
        ensures
            *value == self.measure(),
            value.stands_for(self@),
    {
        proof {
            use_type_invariant(&self.value);
            lemma_same_symmetric(self@, self@);
        }
        &self.value
    }

    /// The Lorentz factor of the fraction `f` of the speed of light, which
    /// lies between -1 and 1.
    pub fn from_fraction_of_c(config: &BigRationalConfig, f: &FractionOfC) -> (factor:
        LorentzFactor)
        requires
            in_atanh_domain(f@),
        ensures
            factor.stands_for(
                lorentz_of_fraction(
                    f@,
                    epsilon(config.precision as nat),
                    config.max_iterations as nat,
                ),
            ),
    {
        let x = f.get();
        let one = bigrational_from_int(1);
        let rest = one.sub(&x.mul(x));
        proof {
            lemma_unit_square(f@);
            assert(rest.stands_for(unit().sub(f@.mul(f@))));
            lemma_same_sign(rest@, unit().sub(f@.mul(f@)));
        }
        let v = one.div(&rest);
        proof {
            assert(v.stands_for(unit().div(unit().sub(f@.mul(f@)))));
            lemma_same_sign(v@, unit().div(unit().sub(f@.mul(f@))));
        }
        LorentzFactor { value: config.sqrt(&v) }
    }

    /// The Lorentz factor of the rapidity `r`, at which `tanh` has a
    /// value between -1 and 1.
    pub fn from_rapidity(config: &BigRationalConfig, r: &Rapidity) -> (factor: LorentzFactor)
        requires
            tanh_defined(r@, epsilon(config.precision as nat), config.max_iterations as nat),
            in_atanh_domain(
                tanh_value(r@, epsilon(config.precision as nat), config.max_iterations as nat),
            ),
        ensures
            factor.stands_for(
                lorentz_of_fraction(
                    tanh_value(
                        r@,
                        epsilon(config.precision as nat),
                        config.max_iterations as nat,
                    ),
                    epsilon(config.precision as nat),
                    config.max_iterations as nat,
                ),
            ),
    {
        let ghost t = tanh_value(
            r@,
            epsilon(config.precision as nat),
            config.max_iterations as nat,
        );
        let f = FractionOfC::from_rapidity(config, r);
        let x = f.get();
        proof {
            assert(x.stands_for(t));
        }
        let one = bigrational_from_int(1);
        let rest = one.sub(&x.mul(x));
        proof {
            lemma_unit_square(t);
            assert(rest.stands_for(unit().sub(t.mul(t))));
            lemma_same_sign(rest@, unit().sub(t.mul(t)));
        }
        let v = one.div(&rest);
        proof {
            assert(v.stands_for(unit().div(unit().sub(t.mul(t)))));
            lemma_same_sign(v@, unit().div(unit().sub(t.mul(t))));
        }
        LorentzFactor { value: config.sqrt(&v) }
    }

    /// The Lorentz factor of the velocity `v`, whose speed is below that
    /// of light.
    pub fn from_velocity(config: &BigRationalConfig, v: &Velocity) -> (factor: LorentzFactor)
        requires
            below_light(v@),
        ensures
            factor.stands_for(
                lorentz_of_velocity(
                    v@,
                    epsilon(config.precision as nat),
                    config.max_iterations as nat,
                ),
            ),
    {
        let ghost eps = epsilon(config.precision as nat);
        let ghost max = config.max_iterations as nat;
        let ghost f = v@.div(light_speed());
        let ghost inner = unit().sub(f.mul(f));
        let vel = validate_velocity(v).get();
        let c = speed_of_light();
        proof {
            lemma_same_sign(c@, light_speed());
        }
        let vel_over_c = vel.div(&c);
        let one = bigrational_from_int(1);
        let one_minus = one.sub(&vel_over_c.mul(&vel_over_c));
        proof {
            lemma_fraction_of_light(v@);
            lemma_unit_square(f);
            assert(one_minus.stands_for(inner));
            lemma_same_sign(one_minus@, inner);
        }
        let root = config.sqrt(&one_minus);
        proof {
            lemma_epsilon_wf(config.precision as nat);
            lemma_same_symmetric(eps, eps);
            lemma_same_symmetric(inner, inner);
            lemma_sqrt_value_same(inner, inner, eps, eps, max);
            assert(root.stands_for(sqrt_value(inner, eps, max)));
            lemma_same_sign(root@, sqrt_value(inner, eps, max));
        }
        LorentzFactor { value: one.div(&root) }
    }

    /// The contracted length of the proper length `proper_length`: the
    /// length over the factor, which is not zero.
    pub fn length_contraction(&self, proper_length: Length) -> (length: Length)
        requires
            !self@.is_zero(),
        ensures
            length.stands_for(proper_length@.div(self@)),
    {
        Length::new(proper_length.get().div(self.get()))
    }

    /// The dilated time of the proper time `proper_time`: the time times
    /// the factor.
    pub fn time_dilation(&self, proper_time: Time) -> (time: Time)
        ensures
            time.stands_for(proper_time@.mul(self@)),
    {
        Time::new(proper_time.get().mul(self.get()))
    }

    /// The relativistic mass of the rest mass `rest_mass`: the mass times
    /// the factor.
    pub fn relativistic_mass(&self, rest_mass: Mass) -> (mass: Mass)
        ensures
            mass.stands_for(rest_mass@.mul(self@)),
    {
        Mass::new(rest_mass.get().mul(self.get()))
    }

    /// The relativistic energy of the rest mass `rest_mass`: the mass
    /// times the square of the speed of light times the factor.
    pub fn relativistic_energy(&self, rest_mass: &Mass) -> (energy: Energy)
        ensures
            energy.stands_for(rest_mass@.mul(light_speed_squared()).mul(self@)),
    {
        let cc = speed_of_light_squared();
        Energy::new(rest_mass.get().mul(&cc).mul(self.get()))
    }
}

impl FractionOfC {
    /// The value of the fraction.
    pub closed spec fn measure(&self) -> Rational {
        self.value
    }

    /// Whether the fraction is the number of the well-formed fraction `x`.
    pub open spec fn stands_for(&self, x: Fraction) -> bool {
        self.measure().stands_for(x)
    }

    /// The fraction `fraction` of the speed of light; with `check_c` set
    /// it must lie between -1 and 1.
    pub fn new(fraction: Rational, check_c: bool) -> (f: FractionOfC)
        requires
            check_c ==> in_atanh_domain(fraction@),
        ensures
            f.measure() == fraction,
    {
        FractionOfC { value: fraction }
    }

    /// The velocity of the fraction `fraction` of the speed of light,
    /// which lies between -1 and 1.
    pub fn get_velocity(fraction: Rational) -> (v: Velocity)
        requires
            in_atanh_domain(fraction@),
        ensures
            v.stands_for(fraction@.mul(light_speed())),
    {
        FractionOfC::new(fraction, true).as_velocity()
    }

    /// The value of the fraction.
    pub fn get(&self) -> (value: &Rational)
        ensures
            *value == self.measure(),
            value.stands_for(self@),
    {
        proof {
            use_type_invariant(&self.value);
            lemma_same_symmetric(self@, self@);
        }
        &self.value
    }

    /// The velocity of the fraction: the fraction times the speed of light.
    pub fn as_velocity(&self) -> (v: Velocity)
        ensures
            v.stands_for(self@.mul(light_speed())),
    {
        let c = speed_of_light();
        Velocity::new(self.get().mul(&c))
    }

    /// The fraction of the speed of light that the velocity `v` is; with
    /// `check_c` set its speed must be below that of light.
    pub fn from_velocity(v: &Velocity, check_c: bool) -> (f: FractionOfC)
        requires
            check_c ==> below_light(v@),
        ensures
            f.stands_for(v@.div(light_speed())),
    {
        let c = speed_of_light();
        proof {
            lemma_same_sign(c@, light_speed());
        }
        if check_c {
            FractionOfC { value: validate_velocity(v).get().div(&c) }
        } else {
            FractionOfC { value: v.get().div(&c) }
        }
    }

    /// The fraction of the speed of light at the rapidity `r`, at which
    /// `tanh` has a value.
    pub fn from_rapidity(config: &BigRationalConfig, r: &Rapidity) -> (f: FractionOfC)
        requires
            tanh_defined(r@, epsilon(config.precision as nat), config.max_iterations as nat),
        ensures
            f.stands_for(
                tanh_value(r@, epsilon(config.precision as nat), config.max_iterations as nat),
            ),
    {
        FractionOfC { value: config.tanh(r.get()) }
    }
}

impl Rapidity {
    /// The value of the rapidity.
    pub closed spec fn measure(&self) -> Rational {
        self.value
    }

    /// Whether the rapidity is the number of the well-formed fraction `x`.
    pub open spec fn stands_for(&self, x: Fraction) -> bool {
        self.measure().stands_for(x)
    }

    /// The rapidity with the value `v`.
    pub fn new(v: Rational) -> (r: Rapidity)
        ensures
            r.measure() == v,
    {
        Rapidity { value: v }
    }

    /// The value of the rapidity.
    pub fn get(&self) -> (value: &Rational)
        ensures
            *value == self.measure(),
            value.stands_for(self@),
    {
        proof {
            use_type_invariant(&self.value);
            lemma_same_symmetric(self@, self@);
        }
        &self.value
    }

    /// The velocity at the rapidity, at which `tanh` has a value: the
    /// speed of light times `tanh` of the rapidity.
    pub fn to_velocity(&self, config: &BigRationalConfig) -> (v: Velocity)
        requires
            tanh_defined(self@, epsilon(config.precision as nat), config.max_iterations as nat),
        ensures
            v.stands_for(
                light_speed().mul(
                    tanh_value(
                        self@,
                        epsilon(config.precision as nat),
                        config.max_iterations as nat,
                    ),
                ),
            ),
    {
        let c = speed_of_light();
        Velocity::new(c.mul(&config.tanh(self.get())))
    }

    /// The rapidity of the velocity `v`, whose speed is below that of
    /// light: `atanh` of its fraction of the speed of light.
    pub fn from_velocity(config: &BigRationalConfig, v: &Velocity) -> (r: Rapidity)
        requires
            below_light(v@),
        ensures
            r.stands_for(
                atanh_value(
                    v@.div(light_speed()),
                    epsilon(config.precision as nat),
                    config.max_iterations as nat,
                ),
            ),
    {
        let c = speed_of_light();
        proof {
            lemma_same_sign(c@, light_speed());
            lemma_fraction_of_light(v@);
        }
        let f = validate_velocity(v).get().div(&c);
        assert(f.stands_for(v@.div(light_speed())));
        match config.atanh(&f) {
            Ok(value) => Rapidity { value },
            Err(_) => unreached(),
        }
    }

    /// The rapidity that the acceleration `acc` gives in the time `time`.
    pub fn from_acc_and_time(acc: &Acceleration, time: &Time) -> (r: Rapidity)
        ensures
            r.stands_for(rapidity_gained(acc@, time@)),
    {
        let c = speed_of_light();
        proof {
            lemma_same_sign(c@, light_speed());
        }
        Rapidity { value: acc.get().mul(time.get()).div(&c) }
    }

    /// The rapidity of the fraction `f` of the speed of light, which lies
    /// between -1 and 1: its `atanh`.
    pub fn from_fraction_of_c(config: &BigRationalConfig, f: &FractionOfC) -> (r: Rapidity)
        requires
            in_atanh_domain(f@),
        ensures
            r.stands_for(
                atanh_value(f@, epsilon(config.precision as nat), config.max_iterations as nat),
            ),
    {
        match config.atanh(f.get()) {
            Ok(value) => Rapidity { value },
            Err(_) => unreached(),
        }
    }

    /// The sum of two rapidities.
    pub fn add(self, other: Rapidity) -> (r: Rapidity)
        ensures
            r.stands_for(self@.add(other@)),
            forall|x: Fraction, y: Fraction|
                self.stands_for(x) && other.stands_for(y) ==> #[trigger] r.stands_for(x.add(y)),
    {
        Rapidity { value: self.get().add(other.get()) }
    }
}

/// The velocity that the acceleration `acc` gives in the time `time`
/// without relativity: their product.
pub fn non_relativistic_acceleration(acc: &Acceleration, time: &Time) -> (v: Velocity)
    ensures
        v.stands_for(acc@.mul(time@)),
{
    Velocity::new(acc.get().mul(time.get()))
}

/// The velocity that the constant acceleration `acc` gives in the proper
/// time `time`: the speed of light times `tanh` of the rapidity gained,
/// at which `tanh` has a value.
pub fn relativistic_acceleration(config: &BigRationalConfig, acc: &Acceleration, time: &Time) -> (v:
    Velocity)
    requires
        tanh_defined(
            rapidity_gained(acc@, time@),
            epsilon(config.precision as nat),
            config.max_iterations as nat,
        ),
    ensures
        v.stands_for(
            light_speed().mul(
                tanh_value(
                    rapidity_gained(acc@, time@),
                    epsilon(config.precision as nat),
                    config.max_iterations as nat,
                ),
            ),
        ),
{
    let c = speed_of_light();
    proof {
        lemma_same_sign(c@, light_speed());
    }
    let a = acc.get().mul(time.get()).div(&c);
    proof {
        assert(a.stands_for(rapidity_gained(acc@, time@)));
        lemma_tanh_defined_same(config, a@, rapidity_gained(acc@, time@));
    }
    Velocity::new(c.mul(&config.tanh(&a)))
}

/// The fraction of the speed of light that the constant acceleration
/// `acc` gives in the proper time `time`: `tanh` of the rapidity gained,
/// at which `tanh` has a value.
pub fn relativistic_acceleration_as_fraction(
    config: &BigRationalConfig,
    acc: &Acceleration,
    time: &Time,
) -> (f: FractionOfC)
    requires
        tanh_defined(
            rapidity_gained(acc@, time@),
            epsilon(config.precision as nat),
            config.max_iterations as nat,
        ),
    ensures
        f.stands_for(
            tanh_value(
                rapidity_gained(acc@, time@),
                epsilon(config.precision as nat),
                config.max_iterations as nat,
            ),
        ),
{
    let rapidity = Rapidity::from_acc_and_time(acc, time);
    proof {
        assert(rapidity.stands_for(rapidity_gained(acc@, time@)));
        lemma_tanh_defined_same(config, rapidity@, rapidity_gained(acc@, time@));
    }
    FractionOfC { value: config.tanh(rapidity.get()) }
}

/// The velocity reached from the velocity `initial_vel`, whose speed is
/// below that of light, under the constant acceleration `acc` in the
/// proper time `time`: the velocity at the sum of the rapidity of
/// `initial_vel` and the rapidity gained, at which `tanh` has a value.
pub fn relativistic_acceleration_add(
    config: &BigRationalConfig,
    initial_vel: &Velocity,
    acc: &Acceleration,
    time: &Time,
) -> (v: Velocity)
    requires
        below_light(initial_vel@),
        tanh_defined(
            rapidity_after(
                initial_vel@,
                acc@,
                time@,
                epsilon(config.precision as nat),
                config.max_iterations as nat,
            ),
            epsilon(config.precision as nat),
            config.max_iterations as nat,
        ),
    ensures
        v.stands_for(
            light_speed().mul(
                tanh_value(
                    rapidity_after(
                        initial_vel@,
                        acc@,
                        time@,
                        epsilon(config.precision as nat),
                        config.max_iterations as nat,
                    ),
                    epsilon(config.precision as nat),
                    config.max_iterations as nat,
                ),
            ),
        ),
{
    let ghost total = rapidity_after(
        initial_vel@,
        acc@,
        time@,
        epsilon(config.precision as nat),
        config.max_iterations as nat,
    );
    let initial_rapidity = Rapidity::from_velocity(config, initial_vel);
    let acceleration_rapidity = Rapidity::from_acc_and_time(acc, time);
    let total_rapidity = initial_rapidity.add(acceleration_rapidity);
    proof {
        assert(total_rapidity.stands_for(total));
        lemma_tanh_defined_same(config, total_rapidity@, total);
    }
    let c = speed_of_light();
    Velocity::new(c.mul(&config.tanh(total_rapidity.get())))
}

/// The sum of the velocities `v1` and `v2`, whose speeds are below that of
/// light, by their rapidities: the velocity at the sum of the two
/// rapidities, at which `tanh` has a value.
pub fn add_velocities_using_rapidity(
    config: &BigRationalConfig,
    v1: &Velocity,
    v2: &Velocity,
) -> (v: Velocity)
    requires
        below_light(v1@),
        below_light(v2@),
        tanh_defined(
            rapidity_of_both(
                v1@,
                v2@,
                epsilon(config.precision as nat),
                config.max_iterations as nat,
            ),
            epsilon(config.precision as nat),
            config.max_iterations as nat,
        ),
    ensures
        v.stands_for(
            light_speed().mul(
                tanh_value(
                    rapidity_of_both(
                        v1@,
                        v2@,
                        epsilon(config.precision as nat),
                        config.max_iterations as nat,
                    ),
                    epsilon(config.precision as nat),
                    config.max_iterations as nat,
                ),
            ),
        ),
{
    let ghost total = rapidity_of_both(
        v1@,
        v2@,
        epsilon(config.precision as nat),
        config.max_iterations as nat,
    );
    let rapidity1 = Rapidity::from_velocity(config, v1);
    let rapidity2 = Rapidity::from_velocity(config, v2);
    let total_rapidity = rapidity1.add(rapidity2);
    proof {
        assert(total_rapidity.stands_for(total));
        lemma_tanh_defined_same(config, total_rapidity@, total);
    }
    let c = speed_of_light();
    Velocity::new(c.mul(&config.tanh(total_rapidity.get())))
}

/// The sum of the velocities `v1` and `v2`, whose speeds are below that of
/// light, by their fractions of the speed of light.
pub fn add_velocities2(v1: &Velocity, v2: &Velocity) -> (v: Velocity)
    requires
        below_light(v1@),
        below_light(v2@),
    ensures
        v.stands_for(sum_by_fractions(v1@, v2@)),
{
    let ghost f = v1@.div(light_speed());
    let ghost g = v2@.div(light_speed());
    let fraction1 = FractionOfC::from_velocity(v1, true);
    let fraction2 = FractionOfC::from_velocity(v2, true);
    let c = speed_of_light();
    let one = bigrational_from_int(1);
    let above = c.mul(&fraction1.get().add(fraction2.get()));
    let below = one.add(&fraction1.get().mul(fraction2.get()));
    proof {
        lemma_fraction_of_light(v1@);
        lemma_fraction_of_light(v2@);
        lemma_unit_product(f, g);
        assert(below.stands_for(unit().add(f.mul(g))));
        lemma_same_sign(below@, unit().add(f.mul(g)));
    }
    Velocity::new(above.div(&below))
}

/// The sum of the velocities `v1` and `v2`, whose speeds are below that of
/// light: `(u + v) / (1 + u v / c^2)`.
pub fn add_velocities3(v1: &Velocity, v2: &Velocity) -> (v: Velocity)
    requires
        below_light(v1@),
        below_light(v2@),
    ensures
        v.stands_for(sum_of_velocities(v1@, v2@)),
{
    let u = validate_velocity(v1).get();
    let w = validate_velocity(v2).get();
    let added = u.add(w);
    let cc = speed_of_light_squared();
    proof {
        lemma_velocity_product(v1@, v2@);
        lemma_same_sign(cc@, light_speed_squared());
    }
    let one = bigrational_from_int(1);
    let below = one.add(&u.mul(w).div(&cc));
    proof {
        assert(below.stands_for(unit().add(v1@.mul(v2@).div(light_speed_squared()))));
        lemma_same_sign(below@, unit().add(v1@.mul(v2@).div(light_speed_squared())));
    }
    Velocity::new(added.div(&below))
}

} // verus!
