//! The float math the vocoder needs, on [`Binary32`] bit patterns.
//!
//! The vocoder needs a square root, a base-2 logarithm and exponential and a
//! cosine. Each contract gives the result to the last bit, as the recurrence
//! that defines it over correctly rounded operations. None of these are
//! general-purpose: they cover the ranges speech coding actually uses and
//! degrade gracefully outside them rather than trapping.
use crate::binary32::Binary32;
use crate::order;
use vstd::arithmetic::power2::*;
use vstd::prelude::*;

verus! {

/// 0
pub const ZERO: u32 = 0x0000_0000;

/// 1
pub const ONE: u32 = 0x3f80_0000;

/// -1
pub const MINUS_ONE: u32 = 0xbf80_0000;

/// 2
pub const TWO: u32 = 0x4000_0000;

/// 1/2
pub const HALF: u32 = 0x3f00_0000;

/// -128
pub const MINUS_128: u32 = 0xc300_0000;

/// -126
pub const MINUS_126: u32 = 0xc2fc_0000;

/// 127
pub const PLUS_127: u32 = 0x42fe_0000;

/// The largest finite number.
pub const LARGEST: u32 = 0x7f7f_ffff;

/// pi
pub const PI: u32 = 0x4049_0fdb;

/// -pi
pub const MINUS_PI: u32 = 0xc049_0fdb;

/// pi / 2
pub const HALF_PI: u32 = 0x3fc9_0fdb;

/// 2 pi
pub const TAU: u32 = 0x40c9_0fdb;

/// 1/3
pub const THIRD: u32 = 0x3eaa_aaab;

/// 1/5
pub const FIFTH: u32 = 0x3e4c_cccd;

/// 1/7
pub const SEVENTH: u32 = 0x3e12_4925;

/// 2 / ln 2, which is 2 log2(e).
pub const TWO_LOG2_E: u32 = 0x4038_aa3b;

/// ln 2
pub const LN_2: u32 = 0x3f31_7218;

/// ln(2)^2 / 2!
pub const EXP_2: u32 = 0x3e75_fdf0;

/// ln(2)^3 / 3!
pub const EXP_3: u32 = 0x3d63_5844;

/// ln(2)^4 / 4!
pub const EXP_4: u32 = 0x3c1d_953c;

/// ln(2)^5 / 5!
pub const EXP_5: u32 = 0x3aae_c57b;

/// ln(2)^6 / 6!
pub const EXP_6: u32 = 0x3921_7b0f;

/// 12
pub const TWELVE: u32 = 0x4140_0000;

/// 30
pub const THIRTY: u32 = 0x41f0_0000;

/// 56
pub const FIFTY_SIX: u32 = 0x4260_0000;

/// 90
pub const NINETY: u32 = 0x42b4_0000;

/// 132
pub const N132: u32 = 0x4304_0000;

/// Absolute value, by clearing the sign bit.
pub fn abs(x: Binary32) -> (r: Binary32)
    ensures
        r == x.abs(),
{
    x.abs()
}

/// The truncated value, less one where truncation went up.
pub open spec fn spec_floor(x: Binary32) -> Binary32 {
    let truncated = Binary32::of_int(x.whole_within(i32::MIN as int, i32::MAX as int));
    if x.lt(truncated) {
        truncated.sub(Binary32::from_bits(ONE))
    } else {
        truncated
    }
}

/// Largest integer not greater than `x`. Speech-range inputs only.
#[verifier::when_used_as_spec(spec_floor)]
pub fn floor(x: Binary32) -> (r: Binary32)
    ensures
        r == spec_floor(x),
{
    let truncated = Binary32::from_i64(x.to_whole(i32::MIN as i64, i32::MAX as i64));
    if x.lt(truncated) {
        truncated.sub(Binary32::from_bits(ONE))
    } else {
        truncated
    }
}

/// One Newton-Raphson step toward the square root of `x`.
pub open spec fn newton(x: Binary32, y: Binary32) -> Binary32 {
    Binary32::from_bits(HALF).mul(y.add(x.div(y)))
}

/// Halving the biased exponent lands within a factor of about 1.4, which
/// four Newton steps refine to single precision. Zero for what has no root.
pub open spec fn spec_sqrt(x: Binary32) -> Binary32 {
    if x.nan() || x.le(Binary32::from_bits(ZERO)) {
        Binary32::from_bits(ZERO)
    } else {
        let guess = Binary32::from_bits(((x.bits + 0x3f80_0000) / 2) as u32);
        newton(x, newton(x, newton(x, newton(x, guess))))
    }
}

fn newton_step(x: Binary32, y: Binary32) -> (r: Binary32)
    ensures
        r == newton(x, y),
{
    Binary32::from_bits(HALF).mul(y.add(x.div(y)))
}

/// Square root by Newton-Raphson from an exponent-halving first guess.
///
/// Negative and zero inputs return zero: an energy is never negative here,
/// and returning NaN would propagate into the bitstream.
#[verifier::when_used_as_spec(spec_sqrt)]
pub fn sqrt(x: Binary32) -> (r: Binary32)
    ensures
        r == spec_sqrt(x),
{
    if x.is_nan() || x.le(Binary32::from_bits(ZERO)) {
        return Binary32::from_bits(ZERO);
    }
    proof {
        lemma_positive(x);
    }
    let guess = Binary32::from_bits((x.to_bits() + 0x3f80_0000) / 2);
    newton_step(x, newton_step(x, newton_step(x, newton_step(x, guess))))
}

/// A number above zero has a clear sign bit and at most infinity's pattern.
pub proof fn lemma_positive(x: Binary32)
    requires
        !x.nan(),
        !x.le(Binary32::from_bits(ZERO)),
    ensures
        0 < x.bits <= crate::rounding::INFINITY_BITS,
        x.value() > 0,
{
    crate::rounding::lemma_magnitude_zero();
}

/// One step keeps the estimate a positive number of moderate size, and at
/// least half of what it was.
pub proof fn lemma_newton(x: Binary32, y: Binary32, g: nat, f: nat)
    requires
        order::within(x, g),
        x.value() > 0,
        order::within(y, 218),
        y.value() > 0,
        y.size() >= pow2(f),
        24 <= f <= 276,
        23 <= g + 149 - f <= 218,
    ensures
        order::within(newton(x, y), 218),
        newton(x, y).value() > 0,
        newton(x, y).size() >= pow2((f - 1) as nat),
{
    let half = Binary32::from_bits(HALF);
    let q = x.div(y);
    let sum = y.add(q);
    order::lemma_within_div(x, y, g, f);
    order::lemma_div(x, y, x);
    order::lemma_within_weaken(q, (g + 149 - f) as nat, 218);
    order::lemma_within_add(y, q, 218);
    order::lemma_add(y, q, y);
    order::lemma_power(148);
    assert(half == order::power(148));
    order::lemma_within_mul(half, sum, 148, 219);
    let least = order::power((f - 1) as nat);
    order::lemma_power((f - 1) as nat);
    lemma_pow2_pos((f - 1) as nat);
    lemma_pow2_adds((f - 1) as nat, 149);
    lemma_pow2_adds(148, f);
    assert(half.size() * sum.size() >= least.size() * pow2(149)) by (nonlinear_arith)
        requires
            half.size() == pow2(148),
            sum.size() >= pow2(f),
            least.size() == pow2((f - 1) as nat),
            pow2((f - 1) as nat) * pow2(149) == pow2(148) * pow2(f),
    ;
    order::lemma_mul(half, sum, least);
}

/// A positive number is at most the power of two above it.
pub proof fn lemma_below_next_power(x: Binary32)
    requires
        0 < x.bits < crate::rounding::INFINITY_BITS,
    ensures
        order::within(x, (x.bits / 0x80_0000 + 23) as nat),
{
    let field = (x.bits / 0x80_0000) as nat;
    let fraction = (x.bits % 0x80_0000) as nat;
    lemma2_to64();
    if field > 0 {
        Binary32::lemma_value_of(x, field, fraction);
        lemma_pow2_adds((field - 1) as nat, 24);
        assert((0x80_0000 + fraction) * pow2((field - 1) as nat) <= pow2((field + 23) as nat))
            by (nonlinear_arith)
            requires
                fraction < 0x80_0000,
                pow2((field + 23) as nat) == pow2((field - 1) as nat) * 0x100_0000,
        ;
    } else {
        order::lemma_within_bits(x, 23);
    }
}

/// A square root is a number, and positive exactly where it is taken of a
/// positive number: an energy never becomes NaN.
pub proof fn law_sqrt_is_a_number(x: Binary32)
    requires
        x.finite(),
    ensures
        order::within(sqrt(x), 218),
        sqrt(x).value() >= 0,
        sqrt(x).value() > 0 <==> x.value() > 0,
{
    crate::rounding::lemma_magnitude_zero();
    lemma_pow2_pos(218);
    if x.value() > 0 {
        lemma_positive(x);
        let field = x.bits / 0x80_0000;
        let guess = Binary32::from_bits(((x.bits + 0x3f80_0000) / 2) as u32);
        let g = (field + 23) as nat;
        lemma_below_next_power(x);
        order::lemma_within_bits(guess, 218);
        let f = ((field + 127) / 2 + 22) as nat;
        order::lemma_power(f);
        crate::rounding::lemma_magnitude_order(order::power(f).pattern(), guess.pattern());
        lemma_pow2_pos(f);
        let y1 = newton(x, guess);
        lemma_newton(x, guess, g, f);
        let y2 = newton(x, y1);
        lemma_newton(x, y1, g, (f - 1) as nat);
        let y3 = newton(x, y2);
        lemma_newton(x, y2, g, (f - 2) as nat);
        lemma_newton(x, y3, g, (f - 3) as nat);
    }
}

/// The logarithm of a significand in [1, 2), in base e and halved: the
/// inverse hyperbolic tangent of (m - 1) / (m + 1), to four terms.
pub open spec fn log_series(m: Binary32) -> Binary32 {
    let one = Binary32::from_bits(ONE);
    let z = m.sub(one).div(m.add(one));
    let z2 = z.mul(z);
    let deep = Binary32::from_bits(FIFTH).add(z2.mul(Binary32::from_bits(SEVENTH)));
    z.mul(one.add(z2.mul(Binary32::from_bits(THIRD).add(z2.mul(deep)))))
}

pub open spec fn spec_log2(x: Binary32) -> Binary32 {
    if x.nan() || x.le(Binary32::from_bits(ZERO)) {
        Binary32::from_bits(MINUS_128)
    } else {
        let exponent = Binary32::of_int(x.bits / 0x80_0000 - 127);
        let m = Binary32::from_bits((x.bits % 0x80_0000 + 0x3f80_0000) as u32);
        exponent.add(Binary32::from_bits(TWO_LOG2_E).mul(log_series(m)))
    }
}

/// Base-2 logarithm: exponent from the bits, mantissa by series.
///
/// Non-positive inputs return a large negative value rather than infinity,
/// so a silent frame quantizes to the bottom of the gain range instead of
/// poisoning later arithmetic.
#[verifier::when_used_as_spec(spec_log2)]
pub fn log2(x: Binary32) -> (r: Binary32)
    ensures
        r == spec_log2(x),
{
    if x.is_nan() || x.le(Binary32::from_bits(ZERO)) {
        return Binary32::from_bits(MINUS_128);
    }
    proof {
        lemma_positive(x);
    }
    let bits: u32 = x.to_bits();
    let exponent = Binary32::from_i64((bits / 0x80_0000) as i64 - 127);
    // Significand forced into [1, 2), where the series converges fast.
    let m = Binary32::from_bits(bits % 0x80_0000 + 0x3f80_0000);
    let one = Binary32::from_bits(ONE);
    let z = m.sub(one).div(m.add(one));
    let z2 = z.mul(z);
    let deep = Binary32::from_bits(FIFTH).add(z2.mul(Binary32::from_bits(SEVENTH)));
    let series = z.mul(one.add(z2.mul(Binary32::from_bits(THIRD).add(z2.mul(deep)))));
    exponent.add(Binary32::from_bits(TWO_LOG2_E).mul(series))
}

/// The logarithm is a number of moderate size, at most 2^9, whatever it is
/// taken of: silence does not become an infinity.
pub proof fn law_log2_is_moderate(x: Binary32)
    ensures
        order::within(log2(x), 158),
{
    crate::rounding::lemma_pow2_order(156, 158);
    order::lemma_power(156);
    order::lemma_power(157);
    crate::rounding::lemma_magnitude_order(
        Binary32::from_bits(MINUS_128).pattern(),
        order::power(156).pattern(),
    );
    if !x.nan() && !x.le(Binary32::from_bits(ZERO)) {
        lemma_positive(x);
        let n = x.bits / 0x80_0000 - 127;
        lemma_pow2_pos(149);
        lemma2_to64();
        Binary32::lemma_of_int(n);
        let exponent = Binary32::of_int(n);
        lemma_pow2_adds(8, 149);
        assert(-(256 * pow2(149)) <= n * pow2(149) <= 256 * pow2(149)) by (nonlinear_arith)
            requires
                -256 <= n <= 256,
        ;
        let m = Binary32::from_bits((x.bits % 0x80_0000 + 0x3f80_0000) as u32);
        let one = Binary32::from_bits(ONE);
        order::lemma_within_bits(one, 149);
        order::lemma_within_bits(m, 150);
        order::lemma_power(149);
        crate::rounding::lemma_magnitude_order(one.pattern(), m.pattern());
        let above = m.sub(one);
        let sum = m.add(one);
        lemma_pow2_unfold(150);
        order::lemma_sub(m, one, one);
        order::lemma_sub(m, one, Binary32::from_bits(ZERO));
        crate::rounding::lemma_magnitude_zero();
        order::lemma_finite(above, one);
        order::lemma_power(150);
        order::lemma_within_weaken(one, 149, 150);
        order::lemma_within_add(m, one, 150);
        order::lemma_add(m, one, order::power(150));
        let z = above.div(sum);
        order::lemma_within_div(above, sum, 149, 150);
        let z2 = z.mul(z);
        order::lemma_within_mul(z, z, 148, 148);
        lemma_log_factor(z2);
        let deep = Binary32::from_bits(FIFTH).add(z2.mul(Binary32::from_bits(SEVENTH)));
        let rest = one.add(z2.mul(Binary32::from_bits(THIRD).add(z2.mul(deep))));
        order::lemma_within_mul(z, rest, 148, 150);
        let scaled = Binary32::from_bits(TWO_LOG2_E).mul(log_series(m));
        order::lemma_within_bits(Binary32::from_bits(TWO_LOG2_E), 151);
        order::lemma_within_mul(Binary32::from_bits(TWO_LOG2_E), log_series(m), 151, 149);
        order::lemma_within_weaken(scaled, 151, 157);
        order::lemma_within_add(exponent, scaled, 157);
    }
}

/// All but the first factor of the logarithm series.
pub proof fn lemma_log_factor(z2: Binary32)
    requires
        order::within(z2, 147),
    ensures
        ({
            let one = Binary32::from_bits(ONE);
            let deep = Binary32::from_bits(FIFTH).add(z2.mul(Binary32::from_bits(SEVENTH)));
            order::within(
                one.add(z2.mul(Binary32::from_bits(THIRD).add(z2.mul(deep)))),
                150,
            )
        }),
{
    let one = Binary32::from_bits(ONE);
    order::lemma_within_bits(Binary32::from_bits(SEVENTH), 147);
    order::lemma_within_bits(Binary32::from_bits(FIFTH), 147);
    order::lemma_within_bits(Binary32::from_bits(THIRD), 148);
    order::lemma_within_bits(one, 149);
    let t7 = z2.mul(Binary32::from_bits(SEVENTH));
    order::lemma_within_mul(z2, Binary32::from_bits(SEVENTH), 147, 147);
    order::lemma_within_weaken(t7, 145, 147);
    let deep = Binary32::from_bits(FIFTH).add(t7);
    order::lemma_within_add(Binary32::from_bits(FIFTH), t7, 147);
    let t5 = z2.mul(deep);
    order::lemma_within_mul(z2, deep, 147, 148);
    order::lemma_within_weaken(t5, 146, 148);
    let third = Binary32::from_bits(THIRD).add(t5);
    order::lemma_within_add(Binary32::from_bits(THIRD), t5, 148);
    let t3 = z2.mul(third);
    order::lemma_within_mul(z2, third, 147, 149);
    order::lemma_within_weaken(t3, 147, 149);
    order::lemma_within_add(one, t3, 149);
}

/// Taylor series of 2^f on [0, 1), to the sixth power.
pub open spec fn exp_series(f: Binary32) -> Binary32 {
    let p5 = Binary32::from_bits(EXP_5).add(f.mul(Binary32::from_bits(EXP_6)));
    let p4 = Binary32::from_bits(EXP_4).add(f.mul(p5));
    let p3 = Binary32::from_bits(EXP_3).add(f.mul(p4));
    let p2 = Binary32::from_bits(EXP_2).add(f.mul(p3));
    let p1 = Binary32::from_bits(LN_2).add(f.mul(p2));
    Binary32::from_bits(ONE).add(f.mul(p1))
}

/// Two to an integer power, by its exponent bits.
pub open spec fn power_of_two(n: int) -> Binary32 {
    Binary32::from_bits(((n + 127) * 0x80_0000) as u32)
}

pub open spec fn spec_exp2(x: Binary32) -> Binary32 {
    if x.lt(Binary32::from_bits(MINUS_126)) {
        Binary32::from_bits(ZERO)
    } else if Binary32::from_bits(PLUS_127).lt(x) {
        Binary32::from_bits(LARGEST)
    } else {
        let whole = floor(x);
        exp_series(x.sub(whole)).mul(
            power_of_two(whole.whole_within(i32::MIN as int, i32::MAX as int)),
        )
    }
}

/// The floor is the floor: within 2^23 of zero, where every integer has a
/// number of its own, it is the largest integer not greater than `x`.
pub proof fn law_floor(x: Binary32)
    requires
        !x.nan(),
        -0x80_0000 * pow2(149) < x.value() < 0x80_0000 * pow2(149),
    ensures
        floor(x) == Binary32::of_int(x.value() / (pow2(149) as int)),
{
    reveal(Binary32::whole_within);
    let unit = pow2(149);
    lemma_pow2_pos(149);
    let size = x.size();
    let q = size / unit;
    let rest = size % unit;
    vstd::arithmetic::div_mod::lemma_fundamental_div_mod(size as int, unit as int);
    vstd::arithmetic::div_mod::lemma_mod_bound(size as int, unit as int);
    assert(q * unit == size - rest) by (nonlinear_arith)
        requires
            size == unit * q + rest,
    ;
    assert(q < 0x80_0000) by (nonlinear_arith)
        requires
            q * unit <= size < 0x80_0000 * unit,
            unit > 0,
    ;
    let w = x.whole();
    Binary32::lemma_of_int(w);
    assert(w * unit == (if x.negative() { -(q * unit) } else { (q * unit) as int }))
        by (nonlinear_arith)
        requires
            w == (if x.negative() { -(q as int) } else { q as int }),
    ;
    let value = x.value();
    if x.negative() && rest > 0 {
        assert((w - 1) * unit == w * unit - unit) by (nonlinear_arith);
        vstd::arithmetic::div_mod::lemma_fundamental_div_mod_converse(
            value,
            unit as int,
            w - 1,
            unit - rest,
        );
        lemma_of_int_minus_one(w);
    } else {
        vstd::arithmetic::div_mod::lemma_fundamental_div_mod_converse(
            value,
            unit as int,
            w,
            rest as int,
        );
    }
}

/// The integer part that the exponential splits off fits the exponent, and
/// the floor is that integer exactly.
pub proof fn lemma_floor_range(x: Binary32)
    requires
        !x.lt(Binary32::from_bits(MINUS_126)),
        !Binary32::from_bits(PLUS_127).lt(x),
    ensures
        ({
            let w = floor(x).whole_within(i32::MIN as int, i32::MAX as int);
            &&& -126 <= w <= 127
            &&& floor(x) == Binary32::of_int(w)
            &&& !x.nan() ==> w * pow2(149) <= x.value() < (w + 1) * pow2(149)
        }),
{
    reveal(Binary32::whole_within);
    let unit = pow2(149);
    lemma_pow2_pos(149);
    lemma_limits();
    if x.nan() {
        Binary32::lemma_of_int(0);
    } else {
        assert(-0x80_0000 * unit < x.value() < 0x80_0000 * unit) by (nonlinear_arith)
            requires
                -126 * unit <= x.value() <= 127 * unit,
                unit > 0,
        ;
        law_floor(x);
        let w = x.value() / (unit as int);
        vstd::arithmetic::div_mod::lemma_fundamental_div_mod(x.value(), unit as int);
        vstd::arithmetic::div_mod::lemma_mod_bound(x.value(), unit as int);
        assert(w * unit <= x.value() < (w + 1) * unit) by (nonlinear_arith)
            requires
                x.value() == unit * w + x.value() % (unit as int),
                0 <= x.value() % (unit as int) < unit,
        ;
        assert(-126 <= w) by (nonlinear_arith)
            requires
                -126 * unit <= x.value() < (w + 1) * unit,
                unit > 0,
        ;
        assert(w <= 127) by (nonlinear_arith)
            requires
                w * unit <= x.value() <= 127 * unit,
                unit > 0,
        ;
        Binary32::lemma_of_int(w);
    }
}

/// Subtracting one from a small non-positive integer is exact.
proof fn lemma_of_int_minus_one(w: int)
    requires
        -0x80_0000 < w <= 0,
    ensures
        Binary32::of_int(w).sub(Binary32::from_bits(ONE)) == Binary32::of_int(w - 1),
{
    let a = Binary32::of_int(w);
    let one = Binary32::from_bits(ONE);
    let b = one.neg();
    Binary32::lemma_of_int(w);
    lemma2_to64();
    lemma_pow2_adds(126, 23);
    lemma_pow2_pos(149);
    Binary32::lemma_value_of(b, 127, 0);
    assert(b.size() == pow2(149)) by (nonlinear_arith)
        requires
            b.size() == (0x80_0000 + 0) * pow2(126),
            pow2(149) == pow2(126) * pow2(23),
            pow2(23) == 0x80_0000,
    ;
    assert(a.value() + b.value() == (w - 1) * pow2(149)) by (nonlinear_arith)
        requires
            a.value() == w * pow2(149),
            b.value() == -pow2(149),
    ;
    assert((w - 1) * pow2(149) < 0) by (nonlinear_arith)
        requires
            w <= 0,
            pow2(149) > 0,
    ;
    assert(-((w - 1) * pow2(149)) == (-(w - 1)) * pow2(149)) by (nonlinear_arith);
    reveal(Binary32::spec_add);
    reveal(Binary32::of_int);
}

/// Base-2 exponential: integer part by exponent bits, fraction by series.
#[verifier::when_used_as_spec(spec_exp2)]
pub fn exp2(x: Binary32) -> (r: Binary32)
    ensures
        r == spec_exp2(x),
{
    if x.lt(Binary32::from_bits(MINUS_126)) {
        return Binary32::from_bits(ZERO);
    }
    if Binary32::from_bits(PLUS_127).lt(x) {
        return Binary32::from_bits(LARGEST);
    }
    let whole = floor(x);
    let f = x.sub(whole);
    let p5 = Binary32::from_bits(EXP_5).add(f.mul(Binary32::from_bits(EXP_6)));
    let p4 = Binary32::from_bits(EXP_4).add(f.mul(p5));
    let p3 = Binary32::from_bits(EXP_3).add(f.mul(p4));
    let p2 = Binary32::from_bits(EXP_2).add(f.mul(p3));
    let p1 = Binary32::from_bits(LN_2).add(f.mul(p2));
    let p = Binary32::from_bits(ONE).add(f.mul(p1));
    let n: i64 = whole.to_whole(i32::MIN as i64, i32::MAX as i64);
    proof {
        lemma_floor_range(x);
    }
    let scale = Binary32::from_bits(((n + 127) as u32) * 0x80_0000);
    p.mul(scale)
}

/// On [0, 1] the series lies between 1 and 4.
pub proof fn lemma_exp_series(f: Binary32)
    requires
        f.finite(),
        0 <= f.value() <= pow2(149),
    ensures
        exp_series(f).finite(),
        pow2(149) <= exp_series(f).value() <= pow2(151),
{
    order::lemma_within_bits(Binary32::from_bits(EXP_6), 140);
    order::lemma_within_bits(Binary32::from_bits(EXP_5), 140);
    order::lemma_within_bits(Binary32::from_bits(EXP_4), 143);
    order::lemma_within_bits(Binary32::from_bits(EXP_3), 145);
    order::lemma_within_bits(Binary32::from_bits(EXP_2), 147);
    order::lemma_within_bits(Binary32::from_bits(LN_2), 149);
    order::lemma_within_bits(Binary32::from_bits(ONE), 150);
    order::lemma_power(149);
    let p5 = Binary32::from_bits(EXP_5).add(f.mul(Binary32::from_bits(EXP_6)));
    order::lemma_horner(Binary32::from_bits(EXP_5), f, Binary32::from_bits(EXP_6), 140);
    order::lemma_within_weaken(p5, 141, 143);
    let p4 = Binary32::from_bits(EXP_4).add(f.mul(p5));
    order::lemma_horner(Binary32::from_bits(EXP_4), f, p5, 143);
    order::lemma_within_weaken(p4, 144, 145);
    let p3 = Binary32::from_bits(EXP_3).add(f.mul(p4));
    order::lemma_horner(Binary32::from_bits(EXP_3), f, p4, 145);
    order::lemma_within_weaken(p3, 146, 147);
    let p2 = Binary32::from_bits(EXP_2).add(f.mul(p3));
    order::lemma_horner(Binary32::from_bits(EXP_2), f, p3, 147);
    order::lemma_within_weaken(p2, 148, 149);
    let p1 = Binary32::from_bits(LN_2).add(f.mul(p2));
    order::lemma_horner(Binary32::from_bits(LN_2), f, p2, 149);
    order::lemma_horner(Binary32::from_bits(ONE), f, p1, 150);
}

/// The exponential of a number from `low` to `high` lies between 2^low and
/// 2^(high + 2): the right power of two, and never far above it.
pub proof fn lemma_exp2_range(x: Binary32, low: int, high: int)
    requires
        !x.nan(),
        -126 <= low <= high <= 125,
        low * pow2(149) <= x.value() <= high * pow2(149),
    ensures
        exp2(x).finite(),
        !exp2(x).negative(),
        pow2((low + 149) as nat) <= exp2(x).size() <= pow2((high + 151) as nat),
{
    let unit = pow2(149);
    lemma_pow2_pos(149);
    lemma_limits();
    assert(-126 * unit <= low * unit && high * unit <= 125 * unit) by (nonlinear_arith)
        requires
            -126 <= low,
            high <= 125,
            unit > 0,
    ;
    lemma_floor_range(x);
    let w = floor(x).whole_within(i32::MIN as int, i32::MAX as int);
    assert(low <= w) by (nonlinear_arith)
        requires
            low * unit <= x.value() < (w + 1) * unit,
            unit > 0,
    ;
    assert(w <= high) by (nonlinear_arith)
        requires
            w * unit <= x.value() <= high * unit,
            unit > 0,
    ;
    lemma_fraction(x, w);
    let f = x.sub(floor(x));
    lemma_exp_series(f);
    let p = exp_series(f);
    let scale = power_of_two(w);
    let e = (w + 149) as nat;
    order::lemma_power(e);
    assert(scale == order::power(e));
    order::lemma_within_mul(p, scale, 151, e);
    order::lemma_mul(p, scale, scale);
    assert(p.size() * scale.size() >= scale.size() * unit) by (nonlinear_arith)
        requires
            p.size() >= unit,
    ;
    crate::rounding::lemma_pow2_order((low + 149) as nat, e);
    crate::rounding::lemma_pow2_order((w + 151) as nat, (high + 151) as nat);
}

/// The exponential of a number is a number, and not negative.
pub proof fn lemma_exp2_number(x: Binary32)
    requires
        !x.nan(),
    ensures
        !exp2(x).nan(),
        exp2(x).value() >= 0,
{
    crate::rounding::lemma_magnitude_zero();
    lemma_pow2_pos(149);
    lemma_limits();
    let low = Binary32::from_bits(MINUS_126);
    let high = Binary32::from_bits(PLUS_127);
    if !x.lt(low) && !high.lt(x) {
        lemma_floor_range(x);
        let w = floor(x).whole_within(i32::MIN as int, i32::MAX as int);
        lemma_fraction(x, w);
        lemma_exp_series(x.sub(floor(x)));
        order::lemma_power((w + 149) as nat);
        assert(power_of_two(w) == order::power((w + 149) as nat));
        order::lemma_mul(exp_series(x.sub(floor(x))), power_of_two(w), low);
    }
}

/// What the floor leaves of a number lies in [0, 1].
pub proof fn lemma_fraction(x: Binary32, w: int)
    requires
        !x.nan(),
        -126 <= w <= 127,
        floor(x) == Binary32::of_int(w),
        w * pow2(149) <= x.value() < (w + 1) * pow2(149),
        x.value() <= 127 * pow2(149),
        x.value() >= -126 * pow2(149),
    ensures
        x.sub(floor(x)).finite(),
        0 <= x.sub(floor(x)).value() <= pow2(149),
{
    let unit = pow2(149);
    let one = Binary32::from_bits(ONE);
    let none = Binary32::from_bits(ZERO);
    lemma_limits();
    lemma_pow2_pos(149);
    Binary32::lemma_of_int(w);
    order::lemma_power(149);
    crate::rounding::lemma_magnitude_zero();
    assert((w + 1) * unit == w * unit + unit) by (nonlinear_arith);
    order::lemma_finite(x, Binary32::from_bits(PLUS_127));
    order::lemma_sub(x, floor(x), one);
    order::lemma_sub(x, floor(x), none);
    order::lemma_finite(x.sub(floor(x)), one);
}

/// The numbers between which the exponential is computed.
pub proof fn lemma_limits()
    ensures
        Binary32::from_bits(MINUS_126).finite(),
        Binary32::from_bits(MINUS_126).value() == -126 * pow2(149),
        Binary32::from_bits(PLUS_127).finite(),
        Binary32::from_bits(PLUS_127).value() == 127 * pow2(149),
{
    let low = Binary32::from_bits(MINUS_126);
    let high = Binary32::from_bits(PLUS_127);
    let unit = pow2(149);
    lemma2_to64();
    lemma_pow2_adds(132, 17);
    Binary32::lemma_value_of(low, 133, 0x7c_0000);
    Binary32::lemma_value_of(high, 133, 0x7e_0000);
    assert(low.size() == 126 * unit && high.size() == 127 * unit) by (nonlinear_arith)
        requires
            low.size() == (0x80_0000 + 0x7c_0000) * pow2(132),
            high.size() == (0x80_0000 + 0x7e_0000) * pow2(132),
            unit == pow2(132) * 0x2_0000,
    ;
}

/// Logarithm and exponential undo each other on powers of two, exactly.
pub proof fn law_powers_of_two(n: int)
    requires
        -126 <= n <= 127,
    ensures
        log2(power_of_two(n)) == Binary32::of_int(n),
        exp2(Binary32::of_int(n)) == power_of_two(n),
        exp2(log2(power_of_two(n))) == power_of_two(n),
{
    let x = power_of_two(n);
    let e = Binary32::of_int(n);
    let one = Binary32::from_bits(ONE);
    let none = Binary32::from_bits(ZERO);
    order::lemma_power((n + 149) as nat);
    assert(x == order::power((n + 149) as nat));
    lemma_pow2_pos((n + 149) as nat);
    lemma_pow2_pos(149);
    Binary32::lemma_of_int(n);
    crate::rounding::lemma_magnitude_zero();
    order::lemma_power(149);
    assert(one == order::power(149));
    // The significand of a power of two is one, whose logarithm is zero.
    assert(x.bits / 0x80_0000 == n + 127 && x.bits % 0x80_0000 == 0);
    lemma_log_of_one();
    let series = Binary32::from_bits(TWO_LOG2_E).mul(log_series(one));
    assert(e.pattern() == 0 ==> n == 0) by {
        if e.pattern() == 0 {
            assert(n == 0) by (nonlinear_arith)
                requires
                    n * pow2(149) == 0,
                    pow2(149) > 0,
            ;
        }
    }
    order::lemma_add_zero(e, series);
    // The fraction of an integer is zero, whose exponential is one.
    lemma_limits();
    assert(-126 * pow2(149) <= n * pow2(149) <= 127 * pow2(149)) by (nonlinear_arith)
        requires
            -126 <= n <= 127,
    ;
    lemma_floor_range(e);
    let w = floor(e).whole_within(i32::MIN as int, i32::MAX as int);
    assert(w == n) by (nonlinear_arith)
        requires
            w * pow2(149) <= n * pow2(149) < (w + 1) * pow2(149),
            pow2(149) > 0,
    ;
    lemma_exp_of_zero(e);
    order::lemma_mul_one(x);
}

proof fn lemma_log_of_one()
    ensures
        Binary32::from_bits(TWO_LOG2_E).mul(log_series(Binary32::from_bits(ONE))).pattern() == 0,
{
    let one = Binary32::from_bits(ONE);
    let none = Binary32::from_bits(ZERO);
    crate::rounding::lemma_magnitude_zero();
    order::lemma_power(149);
    order::lemma_power(150);
    lemma_pow2_pos(149);
    order::lemma_within_add(one, one, 149);
    order::lemma_add(one, one, one);
    order::lemma_sub(one, one, none);
    let zero = one.sub(one);
    let two = one.add(one);
    crate::rounding::lemma_magnitude_order(zero.pattern(), 0);
    assert(zero.size() * pow2(149) == 0 && none.size() * two.size() == 0) by (nonlinear_arith)
        requires
            zero.size() == 0,
            none.size() == 0,
    ;
    order::lemma_div(zero, two, none);
    let z = zero.div(two);
    crate::rounding::lemma_magnitude_order(z.pattern(), 0);
    let z2 = z.mul(z);
    order::lemma_mul_zero(z, z);
    lemma_pow2_pos(147);
    lemma_log_factor(z2);
    let deep = Binary32::from_bits(FIFTH).add(z2.mul(Binary32::from_bits(SEVENTH)));
    let rest = one.add(z2.mul(Binary32::from_bits(THIRD).add(z2.mul(deep))));
    order::lemma_mul_zero(z, rest);
    order::lemma_within_bits(Binary32::from_bits(TWO_LOG2_E), 151);
    order::lemma_mul_zero(Binary32::from_bits(TWO_LOG2_E), log_series(one));
}

proof fn lemma_exp_of_zero(x: Binary32)
    requires
        x.finite(),
        floor(x) == x,
    ensures
        exp_series(x.sub(floor(x))) == order::power(149),
{
    let f = x.sub(x);
    let none = Binary32::from_bits(ZERO);
    crate::rounding::lemma_magnitude_zero();
    order::lemma_neg(x);
    order::lemma_sub(x, x, none);
    crate::rounding::lemma_magnitude_order(f.pattern(), 0);
    order::lemma_within_bits(Binary32::from_bits(EXP_6), 149);
    order::lemma_within_bits(Binary32::from_bits(EXP_5), 149);
    order::lemma_within_bits(Binary32::from_bits(EXP_4), 149);
    order::lemma_within_bits(Binary32::from_bits(EXP_3), 149);
    order::lemma_within_bits(Binary32::from_bits(EXP_2), 149);
    order::lemma_within_bits(Binary32::from_bits(LN_2), 149);
    order::lemma_power(149);
    // Each step adds a zero.
    order::lemma_mul_zero(f, Binary32::from_bits(EXP_6));
    order::lemma_add_zero(Binary32::from_bits(EXP_5), f.mul(Binary32::from_bits(EXP_6)));
    order::lemma_mul_zero(f, Binary32::from_bits(EXP_5));
    order::lemma_add_zero(Binary32::from_bits(EXP_4), f.mul(Binary32::from_bits(EXP_5)));
    order::lemma_mul_zero(f, Binary32::from_bits(EXP_4));
    order::lemma_add_zero(Binary32::from_bits(EXP_3), f.mul(Binary32::from_bits(EXP_4)));
    order::lemma_mul_zero(f, Binary32::from_bits(EXP_3));
    order::lemma_add_zero(Binary32::from_bits(EXP_2), f.mul(Binary32::from_bits(EXP_3)));
    order::lemma_mul_zero(f, Binary32::from_bits(EXP_2));
    order::lemma_add_zero(Binary32::from_bits(LN_2), f.mul(Binary32::from_bits(EXP_2)));
    order::lemma_mul_zero(f, Binary32::from_bits(LN_2));
    order::lemma_add_zero(Binary32::from_bits(ONE), f.mul(Binary32::from_bits(LN_2)));
}

/// The angle folded into [0, pi / 2], and the sign its cosine takes.
pub open spec fn folded(x: Binary32) -> (Binary32, Binary32) {
    let turned = x.rem(Binary32::from_bits(TAU));
    let near = if Binary32::from_bits(PI).lt(turned) {
        turned.sub(Binary32::from_bits(TAU))
    } else if turned.lt(Binary32::from_bits(MINUS_PI)) {
        turned.add(Binary32::from_bits(TAU))
    } else {
        turned
    };
    let size = near.abs();
    if Binary32::from_bits(HALF_PI).lt(size) {
        (Binary32::from_bits(PI).sub(size), Binary32::from_bits(MINUS_ONE))
    } else {
        (size, Binary32::from_bits(ONE))
    }
}

/// Taylor series of the cosine to the twelfth power, from the square of the
/// angle.
pub open spec fn cos_series(x2: Binary32) -> Binary32 {
    let one = Binary32::from_bits(ONE);
    let c12 = one.sub(x2.div(Binary32::from_bits(N132)));
    let c10 = one.sub(x2.div(Binary32::from_bits(NINETY)).mul(c12));
    let c8 = one.sub(x2.div(Binary32::from_bits(FIFTY_SIX)).mul(c10));
    let c6 = one.sub(x2.div(Binary32::from_bits(THIRTY)).mul(c8));
    let c4 = one.sub(x2.div(Binary32::from_bits(TWELVE)).mul(c6));
    one.sub(x2.div(Binary32::from_bits(TWO)).mul(c4))
}

pub open spec fn spec_cos(x: Binary32) -> Binary32 {
    let (angle, sign) = folded(x);
    sign.mul(cos_series(angle.mul(angle)))
}

/// Cosine by range reduction and a twelfth-order Taylor series.
#[verifier::when_used_as_spec(spec_cos)]
pub fn cos(x: Binary32) -> (r: Binary32)
    ensures
        r == spec_cos(x),
{
    let mut near = x.rem(Binary32::from_bits(TAU));
    if Binary32::from_bits(PI).lt(near) {
        near = near.sub(Binary32::from_bits(TAU));
    } else if near.lt(Binary32::from_bits(MINUS_PI)) {
        near = near.add(Binary32::from_bits(TAU));
    }
    // The cosine is even, so only the magnitude matters from here. The
    // second quadrant folds onto the first: the series is weakest near pi,
    // and cos(x) = -cos(pi - x) keeps every evaluation inside [0, pi / 2].
    let size = near.abs();
    let one = Binary32::from_bits(ONE);
    let folds: bool = Binary32::from_bits(HALF_PI).lt(size);
    let angle = if folds { Binary32::from_bits(PI).sub(size) } else { size };
    let sign = if folds { Binary32::from_bits(MINUS_ONE) } else { one };
    let x2 = angle.mul(angle);
    let c12 = one.sub(x2.div(Binary32::from_bits(N132)));
    let c10 = one.sub(x2.div(Binary32::from_bits(NINETY)).mul(c12));
    let c8 = one.sub(x2.div(Binary32::from_bits(FIFTY_SIX)).mul(c10));
    let c6 = one.sub(x2.div(Binary32::from_bits(THIRTY)).mul(c8));
    let c4 = one.sub(x2.div(Binary32::from_bits(TWELVE)).mul(c6));
    sign.mul(one.sub(x2.div(Binary32::from_bits(TWO)).mul(c4)))
}

/// Folding lands in [0, pi / 2].
pub proof fn lemma_folded(x: Binary32)
    requires
        x.finite(),
    ensures
        folded(x).0.finite(),
        0 <= folded(x).0.value() <= Binary32::from_bits(HALF_PI).value(),
{
    let pi = Binary32::from_bits(PI);
    let minus_pi = Binary32::from_bits(MINUS_PI);
    let half_pi = Binary32::from_bits(HALF_PI);
    let tau = Binary32::from_bits(TAU);
    let none = Binary32::from_bits(ZERO);
    crate::rounding::lemma_magnitude_zero();
    lemma2_to64();
    // Pi and its half and double share a significand.
    Binary32::lemma_value_of(half_pi, 127, 0x49_0fdb);
    Binary32::lemma_value_of(pi, 128, 0x49_0fdb);
    Binary32::lemma_value_of(minus_pi, 128, 0x49_0fdb);
    Binary32::lemma_value_of(tau, 129, 0x49_0fdb);
    lemma_pow2_unfold(127);
    lemma_pow2_unfold(128);
    lemma_pow2_pos(126);
    assert(pi.size() == 2 * half_pi.size() && tau.size() == 2 * pi.size() && half_pi.size() > 0)
        by (nonlinear_arith)
        requires
            half_pi.size() == (0x80_0000 + 0x49_0fdb) * pow2(126),
            pi.size() == (0x80_0000 + 0x49_0fdb) * pow2(127),
            tau.size() == (0x80_0000 + 0x49_0fdb) * pow2(128),
            pow2(127) == 2 * pow2(126),
            pow2(128) == 2 * pow2(127),
            pow2(126) > 0,
    ;
    let turned = x.rem(tau);
    reveal(Binary32::spec_rem);
    vstd::arithmetic::div_mod::lemma_mod_bound(x.size() as int, tau.size() as int);
    order::lemma_rounded(x.negative(), x.size() % tau.size(), 1, tau);
    order::lemma_finite(turned, tau);
    let near = if pi.lt(turned) {
        turned.sub(tau)
    } else if turned.lt(minus_pi) {
        turned.add(tau)
    } else {
        turned
    };
    order::lemma_sub(turned, tau, minus_pi);
    order::lemma_sub(turned, tau, none);
    order::lemma_add(turned, tau, pi);
    order::lemma_add(turned, tau, none);
    assert(near.size() <= pi.size());
    order::lemma_finite(near, pi);
    let size = near.abs();
    order::lemma_signed(false, near.pattern());
    order::lemma_sub(pi, size, none);
    order::lemma_sub(pi, size, half_pi);
    if half_pi.lt(size) {
        order::lemma_finite(pi.sub(size), half_pi);
    }
}

/// Sums of opposite numbers are opposite, but for the sign of a zero.
proof fn lemma_opposite_sums(a: Binary32, b: Binary32)
    requires
        a.finite(),
        b.finite(),
    ensures
        a.add(b).abs() == a.neg().add(b.neg()).abs(),
{
    reveal(Binary32::spec_add);
    order::lemma_neg(a);
    order::lemma_neg(b);
    let sum = a.value() + b.value();
    order::lemma_signed(a.negative() && b.negative(), 0);
    order::lemma_signed(a.neg().negative() && b.neg().negative(), 0);
    let size: nat = if sum < 0 {
        (-sum) as nat
    } else {
        sum as nat
    };
    order::lemma_rounded(true, size, 1, a);
    order::lemma_rounded(false, size, 1, a);
    order::lemma_signed(true, crate::rounding::round_ratio(size, 1));
    order::lemma_signed(false, crate::rounding::round_ratio(size, 1));
}

/// The cosine is even, to the last bit.
pub proof fn law_cos_is_even(x: Binary32)
    requires
        x.finite(),
    ensures
        cos(x.neg()) == cos(x),
{
    let tau = Binary32::from_bits(TAU);
    let minus_tau = tau.neg();
    let pi = Binary32::from_bits(PI);
    let minus_pi = Binary32::from_bits(MINUS_PI);
    order::lemma_neg(x);
    order::lemma_neg(tau);
    assert(minus_pi.pattern() == pi.pattern());
    reveal(Binary32::spec_rem);
    let t = x.rem(tau);
    let u = x.neg().rem(tau);
    crate::rounding::lemma_magnitude_zero();
    crate::rounding::lemma_magnitude_order(0, tau.pattern());
    let left = x.size() % tau.size();
    vstd::arithmetic::div_mod::lemma_mod_bound(x.size() as int, tau.size() as int);
    order::lemma_rounded(x.negative(), left, 1, tau);
    order::lemma_rounded(!x.negative(), left, 1, tau);
    order::lemma_signed(x.negative(), crate::rounding::round_ratio(left, 1));
    order::lemma_signed(!x.negative(), crate::rounding::round_ratio(left, 1));
    order::lemma_finite(t, tau);
    assert(u == t.neg());
    order::lemma_neg(t);
    assert(t.neg().neg() == t);
    assert(tau.neg().neg() == tau);
    lemma_opposite_sums(t, minus_tau);
    lemma_opposite_sums(t, tau);
    assert(t.neg().abs() == t.abs());
}

/// One step of the cosine series: a share of what was, taken from one.
pub proof fn lemma_cos_step(x2: Binary32, k: Binary32, c: Binary32)
    requires
        x2.finite(),
        0 <= x2.value() <= pow2(151),
        k.finite(),
        k.value() >= pow2(151),
        c.finite(),
        0 <= c.value() <= pow2(149),
    ensures
        ({
            let r = Binary32::from_bits(ONE).sub(x2.div(k).mul(c));
            &&& r.finite()
            &&& 0 <= r.value() <= pow2(149)
        }),
{
    let one = Binary32::from_bits(ONE);
    let none = Binary32::from_bits(ZERO);
    crate::rounding::lemma_magnitude_zero();
    order::lemma_power(149);
    lemma_pow2_pos(151);
    let t = x2.div(k);
    assert(x2.value() * pow2(149) <= pow2(149) * k.value()) by (nonlinear_arith)
        requires
            x2.value() <= k.value(),
    ;
    lemma_share_of(x2, k, 149);
    let part = t.mul(c);
    lemma_product_of(t, c, 149);
    order::lemma_sub(one, part, one);
    order::lemma_sub(one, part, none);
    order::lemma_finite(one.sub(part), one);
}

/// A quotient of non-negative numbers of which the first is at most 2^e
/// times the second.
pub proof fn lemma_share_of(a: Binary32, b: Binary32, e: nat)
    requires
        a.finite(),
        a.value() >= 0,
        b.finite(),
        b.value() > 0,
        149 <= e <= 150,
        a.value() * pow2(149) <= pow2(e) * b.value(),
    ensures
        a.div(b).finite(),
        0 <= a.div(b).value() <= pow2(e),
{
    let most = order::power(e);
    let none = Binary32::from_bits(ZERO);
    crate::rounding::lemma_magnitude_zero();
    order::lemma_power(e);
    order::lemma_div(a, b, most);
    order::lemma_finite(a.div(b), most);
    if a.size() == 0 {
        assert(a.size() * pow2(149) == 0 && none.size() * b.size() == 0) by (nonlinear_arith)
            requires
                a.size() == 0,
                none.size() == 0,
        ;
        order::lemma_div(a, b, none);
    }
}

/// A product of a number in [0, 2^(e - 149)] and one in [0, 1].
pub proof fn lemma_product_of(a: Binary32, b: Binary32, e: nat)
    requires
        a.finite(),
        0 <= a.value() <= pow2(e),
        b.finite(),
        0 <= b.value() <= pow2(149),
        149 <= e <= 150,
    ensures
        a.mul(b).finite(),
        0 <= a.mul(b).value() <= pow2(e),
{
    let none = Binary32::from_bits(ZERO);
    crate::rounding::lemma_magnitude_zero();
    order::lemma_within_mul(a, b, e, 149);
    if a.size() == 0 || b.size() == 0 {
        assert(a.size() * b.size() == 0 && none.size() * pow2(149) == 0) by (nonlinear_arith)
            requires
                a.size() == 0 || b.size() == 0,
                none.size() == 0,
        ;
        order::lemma_mul(a, b, none);
    } else {
        order::lemma_mul(a, b, none);
    }
}

/// The cosine of a number lies in [-1, 1], rounding and all.
pub proof fn law_cos_range(x: Binary32)
    requires
        x.finite(),
    ensures
        cos(x).finite(),
        -pow2(149) <= cos(x).value() <= pow2(149),
{
    let one = Binary32::from_bits(ONE);
    let none = Binary32::from_bits(ZERO);
    let (angle, sign) = folded(x);
    lemma_folded(x);
    crate::rounding::lemma_magnitude_zero();
    lemma_pow2_unfold(150);
    lemma_pow2_unfold(151);
    lemma_pow2_pos(149);
    order::lemma_power(149);
    order::lemma_power(150);
    order::lemma_power(151);
    order::lemma_within_bits(Binary32::from_bits(HALF_PI), 150);
    let x2 = angle.mul(angle);
    order::lemma_within_mul(angle, angle, 150, 150);
    order::lemma_mul(angle, angle, none);
    let four = order::power(151);
    crate::rounding::lemma_magnitude_order(four.pattern(), Binary32::from_bits(N132).pattern());
    crate::rounding::lemma_magnitude_order(four.pattern(), Binary32::from_bits(NINETY).pattern());
    crate::rounding::lemma_magnitude_order(
        four.pattern(),
        Binary32::from_bits(FIFTY_SIX).pattern(),
    );
    crate::rounding::lemma_magnitude_order(four.pattern(), Binary32::from_bits(THIRTY).pattern());
    crate::rounding::lemma_magnitude_order(four.pattern(), Binary32::from_bits(TWELVE).pattern());
    let t = x2.div(Binary32::from_bits(N132));
    let c12 = one.sub(t);
    assert(x2.value() * pow2(149) <= pow2(149) * Binary32::from_bits(N132).value())
        by (nonlinear_arith)
        requires
            x2.value() <= Binary32::from_bits(N132).value(),
    ;
    lemma_share_of(x2, Binary32::from_bits(N132), 149);
    order::lemma_sub(one, t, one);
    order::lemma_sub(one, t, none);
    order::lemma_finite(c12, one);
    lemma_cos_step(x2, Binary32::from_bits(NINETY), c12);
    let c10 = one.sub(x2.div(Binary32::from_bits(NINETY)).mul(c12));
    lemma_cos_step(x2, Binary32::from_bits(FIFTY_SIX), c10);
    let c8 = one.sub(x2.div(Binary32::from_bits(FIFTY_SIX)).mul(c10));
    lemma_cos_step(x2, Binary32::from_bits(THIRTY), c8);
    let c6 = one.sub(x2.div(Binary32::from_bits(THIRTY)).mul(c8));
    lemma_cos_step(x2, Binary32::from_bits(TWELVE), c6);
    let c4 = one.sub(x2.div(Binary32::from_bits(TWELVE)).mul(c6));
    // The last term takes up to two from one.
    let two = Binary32::from_bits(TWO);
    assert(two == order::power(150));
    assert(x2.value() * pow2(149) <= pow2(150) * two.value()) by (nonlinear_arith)
        requires
            x2.value() <= pow2(151),
            two.value() == pow2(150),
            pow2(151) == 2 * pow2(150),
            pow2(150) == 2 * pow2(149),
    ;
    lemma_share_of(x2, two, 150);
    lemma_product_of(x2.div(two), c4, 150);
    let last = x2.div(two).mul(c4);
    order::lemma_neg(one);
    order::lemma_sub(one, last, one);
    order::lemma_sub(one, last, one.neg());
    let series = one.sub(last);
    order::lemma_finite(series, one);
    Binary32::lemma_value_of(Binary32::from_bits(MINUS_ONE), 127, 0);
    Binary32::lemma_value_of(one, 127, 0);
    assert(sign.size() * series.size() <= one.size() * pow2(149)) by (nonlinear_arith)
        requires
            sign.size() == pow2(149),
            series.size() <= pow2(149),
            one.size() == pow2(149),
    ;
    order::lemma_mul(sign, series, one);
    order::lemma_finite(sign.mul(series), one);
}

/// What has no logarithm gets -128, far below the quietest level.
pub proof fn law_log2_of_nothing(x: Binary32)
    requires
        x.nan() || x.value() <= 0,
    ensures
        log2(x).value() == -128 * pow2(149),
{
    crate::rounding::lemma_magnitude_zero();
    lemma2_to64();
    lemma_pow2_adds(149, 7);
    order::lemma_power(156);
    order::lemma_neg(order::power(156));
    assert(Binary32::from_bits(MINUS_128) == order::power(156).neg());
}

/// Beyond the exponents there are, the exponential is nothing below and the
/// largest number above.
pub proof fn law_exp2_beyond_the_range(x: Binary32)
    requires
        !x.nan(),
    ensures
        x.value() < -126 * pow2(149) ==> exp2(x).value() == 0,
        x.value() > 127 * pow2(149) ==> exp2(x).bits == 0x7f7f_ffff,
{
    crate::rounding::lemma_magnitude_zero();
    lemma_limits();
    lemma_pow2_pos(149);
}

} // verus!
