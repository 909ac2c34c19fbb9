//! Recognising the angles of phase gates.
//!
//! Angles are bit patterns of doubles. An angle counts as one of a few constants when it lies
//! within a fixed tolerance of it.

use vstd::arithmetic::power2;
use vstd::prelude::*;

use crate::double;

verus! {

/// π
pub const PI: u64 = 0x4009_21FB_5444_2D18;

/// π/2
pub const PI_OVER_2: u64 = 0x3FF9_21FB_5444_2D18;

/// π/4
pub const PI_OVER_4: u64 = 0x3FE9_21FB_5444_2D18;

/// -π/4
pub const MINUS_PI_OVER_4: u64 = 0xBFE9_21FB_5444_2D18;

/// 1e-10
pub const ANGLE_TOLERANCE: u64 = 0x3DDB_7CDF_D9D7_BDBB;

/// Whether a number lies strictly within the angle tolerance of `c`.
pub open spec fn near(a: u64, c: int) -> bool {
    let t = double::value(ANGLE_TOLERANCE);
    !double::is_nan(a) && -t < double::value(a) - c < t
}

/// The angles that are told apart.
#[derive(Clone, Copy, Debug, PartialEq, Eq, Structural)]
pub enum PhaseAngle {
    Zero,
    QuarterPi,
    MinusQuarterPi,
    HalfPi,
    MinusHalfPi,
    Pi,
    /// Any angle besides these, and what is no number.
    Other,
}

/// The angle that a pattern stands for.
pub open spec fn phase_angle_spec(a: u64) -> PhaseAngle {
    if near(a, double::value(PI_OVER_4)) {
        PhaseAngle::QuarterPi
    } else if near(a, -double::value(PI_OVER_4)) {
        PhaseAngle::MinusQuarterPi
    } else if near(a, double::value(PI_OVER_2)) {
        PhaseAngle::HalfPi
    } else if near(a, -double::value(PI_OVER_2)) {
        PhaseAngle::MinusHalfPi
    } else if near(a, double::value(PI)) {
        PhaseAngle::Pi
    } else if near(a, 0) {
        PhaseAngle::Zero
    } else {
        PhaseAngle::Other
    }
}

/// The magnitudes within the angle tolerance of a constant form an interval.
proof fn lemma_near_interval(a: u64, c: u64, lo: u64, hi: u64)
    requires
        0 < lo <= hi < double::INFINITY,
        !double::negative(c),
        double::scaled(lo - 1) <= double::value(c) - double::value(ANGLE_TOLERANCE),
        double::value(c) - double::value(ANGLE_TOLERANCE) < double::scaled(lo as int),
        double::scaled(hi as int) < double::value(c) + double::value(ANGLE_TOLERANCE),
        double::value(c) + double::value(ANGLE_TOLERANCE) <= double::scaled(hi + 1),
    ensures
        near(a, double::value(c)) <==> lo <= a <= hi,
        near(a, -double::value(c)) <==> double::negative(a) && lo <= double::magnitude(a) <= hi,
{
    let m = double::magnitude(a);
    if m < lo - 1 {
        double::lemma_scaled_increases(m, lo - 1);
    }
    if lo < m {
        double::lemma_scaled_increases(lo as int, m);
    }
    if m < hi {
        double::lemma_scaled_increases(m, hi as int);
    }
    if hi + 1 < m {
        double::lemma_scaled_increases(hi + 1, m);
    }
    if 0 < lo - 1 {
        double::lemma_scaled_increases(0, lo - 1);
    }
    if 0 < m {
        double::lemma_scaled_increases(0, m);
    }
}

/// Powers of two from the tolerance's exponent up to those of the angles.
proof fn lemma_angle_exponents()
    ensures
        power2::pow2(1021) == power2::pow2(988) * 0x2_0000_0000,
        power2::pow2(1022) == power2::pow2(988) * 0x4_0000_0000,
        power2::pow2(1023) == power2::pow2(988) * 0x8_0000_0000,
        power2::pow2(988) > 0,
{
    power2::lemma2_to64();
    power2::lemma2_to64_rest();
    power2::lemma_pow2_adds(988, 33);
    power2::lemma_pow2_adds(988, 34);
    power2::lemma_pow2_adds(988, 35);
    power2::lemma_pow2_pos(988);
}

/// Four mantissas around a constant, scaled to the tolerance's exponent.
proof fn lemma_scale_mantissas(
    p: int,
    f: int,
    below: int,
    lo: int,
    c: int,
    hi: int,
    above: int,
    t: int,
)
    requires
        p > 0,
        below * f <= c * f - t < lo * f,
        hi * f < c * f + t <= above * f,
    ensures
        below * (p * f) <= c * (p * f) - t * p < lo * (p * f),
        hi * (p * f) < c * (p * f) + t * p <= above * (p * f),
{
    assert(below * (p * f) == (below * f) * p) by (nonlinear_arith);
    assert(lo * (p * f) == (lo * f) * p) by (nonlinear_arith);
    assert(c * (p * f) == (c * f) * p) by (nonlinear_arith);
    assert(hi * (p * f) == (hi * f) * p) by (nonlinear_arith);
    assert(above * (p * f) == (above * f) * p) by (nonlinear_arith);
    let d = c * f - t;
    let e = c * f + t;
    assert(d * p == (c * f) * p - t * p) by (nonlinear_arith)
        requires
            d == c * f - t,
    ;
    assert(e * p == (c * f) * p + t * p) by (nonlinear_arith)
        requires
            e == c * f + t,
    ;
    assert((below * f) * p <= d * p) by (nonlinear_arith)
        requires
            below * f <= d,
            p > 0,
    ;
    assert(d * p < (lo * f) * p) by (nonlinear_arith)
        requires
            d < lo * f,
            p > 0,
    ;
    assert((hi * f) * p < e * p) by (nonlinear_arith)
        requires
            hi * f < e,
            p > 0,
    ;
    assert(e * p <= (above * f) * p) by (nonlinear_arith)
        requires
            e <= above * f,
            p > 0,
    ;
}

/// The doubles within the tolerance of ±π/4.
pub proof fn lemma_near_pi_over_4(a: u64)
    ensures
        near(a, double::value(PI_OVER_4)) <==> 0x3FE9_21FB_5436_6EA9 <= a <= 0x3FE9_21FB_5451_EB87,
        near(a, -double::value(PI_OVER_4)) <==> double::negative(a) && 0x3FE9_21FB_5436_6EA9
            <= double::magnitude(a) <= 0x3FE9_21FB_5451_EB87,
{
    lemma_angle_exponents();
    lemma_scale_mantissas(
        power2::pow2(988) as int,
        0x2_0000_0000,
        0x1921FB54366EA8,
        0x1921FB54366EA9,
        0x1921FB54442D18,
        0x1921FB5451EB87,
        0x1921FB5451EB88,
        0x1B7CDFD9D7BDBB,
    );
    lemma_near_interval(a, PI_OVER_4, 0x3FE9_21FB_5436_6EA9, 0x3FE9_21FB_5451_EB87);
}

proof fn lemma_near_pi_over_2(a: u64)
    ensures
        near(a, double::value(PI_OVER_2)) <==> 0x3FF9_21FB_543D_4DE1 <= a <= 0x3FF9_21FB_544B_0C4F,
        near(a, -double::value(PI_OVER_2)) <==> double::negative(a) && 0x3FF9_21FB_543D_4DE1
            <= double::magnitude(a) <= 0x3FF9_21FB_544B_0C4F,
{
    lemma_angle_exponents();
    lemma_scale_mantissas(
        power2::pow2(988) as int,
        0x4_0000_0000,
        0x1921FB543D4DE0,
        0x1921FB543D4DE1,
        0x1921FB54442D18,
        0x1921FB544B0C4F,
        0x1921FB544B0C50,
        0x1B7CDFD9D7BDBB,
    );
    lemma_near_interval(a, PI_OVER_2, 0x3FF9_21FB_543D_4DE1, 0x3FF9_21FB_544B_0C4F);
}

proof fn lemma_near_pi(a: u64)
    ensures
        near(a, double::value(PI)) <==> 0x4009_21FB_5440_BD7D <= a <= 0x4009_21FB_5447_9CB3,
{
    lemma_angle_exponents();
    lemma_scale_mantissas(
        power2::pow2(988) as int,
        0x8_0000_0000,
        0x1921FB5440BD7C,
        0x1921FB5440BD7D,
        0x1921FB54442D18,
        0x1921FB54479CB3,
        0x1921FB54479CB4,
        0x1B7CDFD9D7BDBB,
    );
    lemma_near_interval(a, PI, 0x4009_21FB_5440_BD7D, 0x4009_21FB_5447_9CB3);
}

proof fn lemma_near_zero(a: u64)
    ensures
        near(a, 0) <==> double::magnitude(a) < ANGLE_TOLERANCE,
{
    let m = double::magnitude(a);
    let t = ANGLE_TOLERANCE as int;
    if m < t {
        double::lemma_scaled_increases(m, t);
    }
    if t < m {
        double::lemma_scaled_increases(t, m);
    }
    double::lemma_scaled_increases(0, t);
    if 0 < m {
        double::lemma_scaled_increases(0, m);
    }
}

/// Tell which angle a pattern stands for.
pub fn phase_angle(a: u64) -> (r: PhaseAngle)
    ensures
        r == phase_angle_spec(a),
{
    let m: u64 = double::double_abs(a);
    let positive: bool = a < double::SIGN;
    proof {
        lemma_near_pi_over_4(a);
        lemma_near_pi_over_2(a);
        lemma_near_pi(a);
        lemma_near_zero(a);
    }
    if 0x3FE9_21FB_5436_6EA9 <= m && m <= 0x3FE9_21FB_5451_EB87 {
        if positive {
            PhaseAngle::QuarterPi
        } else {
            PhaseAngle::MinusQuarterPi
        }
    } else if 0x3FF9_21FB_543D_4DE1 <= m && m <= 0x3FF9_21FB_544B_0C4F {
        if positive {
            PhaseAngle::HalfPi
        } else {
            PhaseAngle::MinusHalfPi
        }
    } else if positive && 0x4009_21FB_5440_BD7D <= m && m <= 0x4009_21FB_5447_9CB3 {
        PhaseAngle::Pi
    } else if m < ANGLE_TOLERANCE {
        PhaseAngle::Zero
    } else {
        PhaseAngle::Other
    }
}

/// An angle is told to be one of the constants exactly if its value differs from that constant
/// by less than the tolerance, and it is told to be none of them exactly if it is no number or
/// lies at least the tolerance away from each.
pub proof fn law_phase_angle_is_closeness(a: u64)
    ensures
        ({
            let v = double::value(a);
            let t = double::value(ANGLE_TOLERANCE);
            let quarter = double::value(PI_OVER_4);
            let number = !double::is_nan(a);
            let told = phase_angle_spec(a);
            &&& told == PhaseAngle::Zero <==> number && -t < v < t
            &&& told == PhaseAngle::QuarterPi <==> number && -t < v - quarter < t
            &&& told == PhaseAngle::MinusQuarterPi <==> number && -t < v + quarter < t
            &&& told == PhaseAngle::HalfPi <==> number && -t < v - 2 * quarter < t
            &&& told == PhaseAngle::MinusHalfPi <==> number && -t < v + 2 * quarter < t
            &&& told == PhaseAngle::Pi <==> number && -t < v - 4 * quarter < t
            &&& told == PhaseAngle::Other <==> {
                ||| !number
                ||| {
                    &&& v <= -t || t <= v
                    &&& v - quarter <= -t || t <= v - quarter
                    &&& v + quarter <= -t || t <= v + quarter
                    &&& v - 2 * quarter <= -t || t <= v - 2 * quarter
                    &&& v + 2 * quarter <= -t || t <= v + 2 * quarter
                    &&& v - 4 * quarter <= -t || t <= v - 4 * quarter
                }
            }
        }),
{
    law_constants();
    lemma_near_pi_over_4(a);
    lemma_near_pi_over_2(a);
    lemma_near_pi(a);
    lemma_near_zero(a);
}

/// The constants: in units of the smallest positive double, of which 2^1074 make up one, π/4
/// lies between 0.785398163397448 and 0.785398163397449, π/2 and π are its multiples, the
/// negative constant is its negative, and the tolerance is the double nearest to 1e-10.
pub proof fn law_constants()
    ensures
        ({
            let one = power2::pow2(1074);
            let quarter = double::value(PI_OVER_4);
            let t = double::value(ANGLE_TOLERANCE);
            &&& 785398163397448 * one < 1000000000000000 * quarter < 785398163397449 * one
            &&& double::value(PI_OVER_2) == 2 * quarter
            &&& double::value(PI) == 4 * quarter
            &&& double::value(MINUS_PI_OVER_4) == -quarter
            &&& double::value(double::ONE) == one
            &&& 2 * (10000000000 * t - one) < 10000000000 * power2::pow2(988)
            &&& 2 * (one - 10000000000 * t) < 10000000000 * power2::pow2(988)
        }),
{
    lemma_angle_exponents();
    power2::lemma2_to64();
    power2::lemma2_to64_rest();
    power2::lemma_pow2_adds(1021, 53);
    power2::lemma_pow2_adds(1022, 52);
    let p = power2::pow2(988) as int;
    assert(power2::pow2(1074) == power2::pow2(1021) * 0x20_0000_0000_0000);
    assert(power2::pow2(1074) == p * 0x40_0000_0000_0000_0000_0000);
    assert(double::value(double::ONE) == 0x10_0000_0000_0000 * power2::pow2(1022));
    assert(double::value(PI_OVER_4) == 0x1921FB54442D18 * power2::pow2(1021));
    assert(double::value(PI_OVER_2) == 0x1921FB54442D18 * power2::pow2(1022));
    assert(double::value(PI) == 0x1921FB54442D18 * power2::pow2(1023));
    assert(double::value(ANGLE_TOLERANCE) == 0x1B7CDFD9D7BDBB * p);
    assert(double::value(MINUS_PI_OVER_4) == -double::value(PI_OVER_4));
}

} // verus!
