//! Double-precision numbers by their IEEE 754 bit patterns.
//!
//! Amplitudes, scales and angles travel through the library as bit patterns. Decisions on
//! them (comparisons, signs, closeness of an angle to a constant) are taken here on integers
//! and stated over the exact values that the patterns stand for.

use vstd::arithmetic::power2;
use vstd::prelude::*;

verus! {

/// The pattern with only the sign bit set, which is -0.0.
pub const SIGN: u64 = 0x8000_0000_0000_0000;

/// The pattern of positive infinity. Larger magnitudes are not numbers.
pub const INFINITY: u64 = 0x7FF0_0000_0000_0000;

/// 1.0
pub const ONE: u64 = 0x3FF0_0000_0000_0000;

/// The magnitude part of a pattern, without its sign bit.
pub open spec fn magnitude(b: u64) -> int {
    (b % SIGN) as int
}

/// Whether the sign bit is set.
pub open spec fn negative(b: u64) -> bool {
    b >= SIGN
}

/// Whether the pattern is no number.
pub open spec fn is_nan(b: u64) -> bool {
    magnitude(b) > INFINITY
}

/// The value of a magnitude in units of the smallest positive double, 2^-1074. Infinity is
/// given the value that the next exponent would have, above every finite one.
pub open spec fn scaled(mag: int) -> int {
    let e = mag / 0x10_0000_0000_0000;
    let m = mag % 0x10_0000_0000_0000;
    if e == 0 {
        m
    } else {
        (0x10_0000_0000_0000 + m) * power2::pow2((e - 1) as nat)
    }
}

/// The value of a pattern in units of the smallest positive double, 2^-1074.
pub open spec fn value(b: u64) -> int {
    if negative(b) {
        -scaled(magnitude(b))
    } else {
        scaled(magnitude(b))
    }
}

/// The order of doubles: nothing compares with what is no number.
pub open spec fn less(a: u64, b: u64) -> bool {
    !is_nan(a) && !is_nan(b) && value(a) < value(b)
}

/// The pattern with its sign bit flipped.
pub open spec fn negated(b: u64) -> u64 {
    if negative(b) {
        (b - SIGN) as u64
    } else {
        (b + SIGN) as u64
    }
}

/// Larger magnitudes have larger values.
pub proof fn lemma_scaled_increases(a: int, b: int)
    requires
        0 <= a < b,
    ensures
        0 <= scaled(a) < scaled(b),
{
    let unit = 0x10_0000_0000_0000;
    let ea = a / unit;
    let eb = b / unit;
    let ma = a % unit;
    let mb = b % unit;
    let pa = power2::pow2((ea - 1) as nat) as int;
    let pb = power2::pow2((eb - 1) as nat) as int;
    power2::lemma_pow2_pos((ea - 1) as nat);
    power2::lemma_pow2_pos((eb - 1) as nat);
    assert(ea <= eb);
    if ea > 0 {
        assert(0 <= (unit + ma) * pa) by (nonlinear_arith)
            requires
                pa > 0,
                unit > 0,
                ma >= 0,
        ;
    }
    if ea == eb {
        assert(ma < mb);
        if ea > 0 {
            assert((unit + ma) * pa < (unit + mb) * pa) by (nonlinear_arith)
                requires
                    ma < mb,
                    pa > 0,
            ;
        }
    } else {
        assert(unit * pb <= (unit + mb) * pb) by (nonlinear_arith)
            requires
                mb >= 0,
                pb > 0,
        ;
        if ea == 0 {
            assert(unit <= unit * pb) by (nonlinear_arith)
                requires
                    pb >= 1,
                    unit > 0,
            ;
        } else {
            let next = power2::pow2(ea as nat) as int;
            power2::lemma_pow2_unfold(ea as nat);
            assert(next == 2 * pa);
            if ea < eb - 1 {
                power2::lemma_pow2_strictly_increases(
                    ea as nat,
                    (eb - 1) as nat,
                );
            }
            assert((unit + ma) * pa < unit * pb) by (nonlinear_arith)
                requires
                    0 <= ma < unit,
                    pa > 0,
                    2 * pa <= pb,
            ;
        }
    }
}

/// Patterns of numbers are ordered as their signed magnitudes are.
proof fn lemma_signed_order(a: u64, b: u64)
    ensures
        value(a) < value(b) <==> {
            let ka = if negative(a) {
                -magnitude(a)
            } else {
                magnitude(a)
            };
            let kb = if negative(b) {
                -magnitude(b)
            } else {
                magnitude(b)
            };
            ka < kb
        },
{
    let ma = magnitude(a);
    let mb = magnitude(b);
    if ma < mb {
        lemma_scaled_increases(ma, mb);
    }
    if mb < ma {
        lemma_scaled_increases(mb, ma);
    }
    if 0 < ma {
        lemma_scaled_increases(0, ma);
    }
    if 0 < mb {
        lemma_scaled_increases(0, mb);
    }
}

/// The magnitude of a double, as the pattern of its absolute value.
pub fn double_abs(b: u64) -> (m: u64)
    ensures
        m == magnitude(b),
        !negative(m),
        value(m) == scaled(magnitude(b)),
{
    if b >= SIGN {
        b - SIGN
    } else {
        b
    }
}

/// The negative of a double.
pub fn double_neg(b: u64) -> (r: u64)
    ensures
        r == negated(b),
        value(r) == -value(b),
        is_nan(r) == is_nan(b),
{
    if b >= SIGN {
        b - SIGN
    } else {
        b + SIGN
    }
}

/// Negating twice gives the number back.
pub proof fn law_negation_is_self_inverse(b: u64)
    ensures
        negated(negated(b)) == b,
{
}

/// Whether one double is less than another.
pub fn double_lt(a: u64, b: u64) -> (r: bool)
    ensures
        r == less(a, b),
{
    let ma: u64 = double_abs(a);
    let mb: u64 = double_abs(b);
    if ma > INFINITY || mb > INFINITY {
        return false;
    }
    proof {
        lemma_signed_order(a, b);
    }
    if a >= SIGN {
        if b >= SIGN {
            mb < ma
        } else {
            ma > 0 || mb > 0
        }
    } else if b >= SIGN {
        false
    } else {
        ma < mb
    }
}

/// The sign of a double: 1 from zero upwards, either zero included, and -1 for anything else.
pub fn sign_bit(b: u64) -> (s: i8)
    ensures
        s == (if !is_nan(b) && value(b) >= 0 {
            1i8
        } else {
            -1i8
        }),
{
    let m: u64 = double_abs(b);
    proof {
        if m > 0 {
            lemma_scaled_increases(0, m as int);
        }
    }
    if m > INFINITY {
        -1
    } else if b < SIGN || m == 0 {
        1
    } else {
        -1
    }
}

/// How patterns stand for numbers: up to twice the smallest normal number a magnitude counts in
/// units of the smallest positive double, and one more in the exponent doubles the value.
pub proof fn law_value_of_magnitude(m: int)
    requires
        0 <= m,
    ensures
        m <= 0x20_0000_0000_0000 ==> scaled(m) == m,
        0x10_0000_0000_0000 <= m ==> scaled(m + 0x10_0000_0000_0000) == 2 * scaled(m),
        0 < scaled(m + 1) - scaled(m),
{
    let unit = 0x10_0000_0000_0000;
    let e = m / unit;
    power2::lemma2_to64();
    lemma_scaled_increases(m, m + 1);
    if e == 1 {
        assert(power2::pow2((e - 1) as nat) == 1);
        assert((unit + m % unit) * 1 == unit + m % unit) by (nonlinear_arith);
    }
    if m == 0x20_0000_0000_0000 {
        assert(power2::pow2((e - 1) as nat) == 2);
    }
    if 0x10_0000_0000_0000 <= m {
        power2::lemma_pow2_unfold(e as nat);
        let p = power2::pow2((e - 1) as nat) as int;
        assert((m + unit) / unit == e + 1);
        assert((m + unit) % unit == m % unit);
        assert((unit + m % unit) * (2 * p) == 2 * ((unit + m % unit) * p)) by (nonlinear_arith);
    }
}

/// The order of doubles is that of their values, negation turns it round, and nothing compares
/// with what is no number.
pub proof fn law_order(a: u64, b: u64)
    ensures
        less(a, b) ==> !less(b, a) && !is_nan(a) && !is_nan(b),
        less(a, b) <==> less(negated(b), negated(a)),
        value(negated(a)) == -value(a),
        !is_nan(a) && !is_nan(b) && !less(a, b) && !less(b, a) ==> value(a) == value(b),
{
}

/// What is no number: a pattern whose magnitude is above that of infinity.
pub proof fn law_not_a_number(b: u64)
    ensures
        !negative(b) ==> (is_nan(b) <==> b > 0x7FF0_0000_0000_0000),
        negative(b) ==> (is_nan(b) <==> b > 0xFFF0_0000_0000_0000),
        negative(b) <==> b >= 0x8000_0000_0000_0000,
{
}

} // verus!
