//! The scales on which parameters are sent, and how near what arrives is to
//! what was sent.
use crate::accuracy;
use crate::binary32::Binary32;
use crate::lpc10::layout;
use crate::lpc10::precision;
use crate::lpc10::quant;
use crate::lpc10::quant::{
    GAIN_BITS, GAIN_MAX_LOG2, GAIN_MIN_LOG2, LAR_LIMIT, MINUS_LAR_LIMIT, MINUS_RC_LIMIT,
    PITCH_BITS, RC_BITS, RC_LIMIT,
};
use crate::lpc10::ORDER;
use crate::lpc10::{PITCH_MAX, PITCH_MIN};
use crate::math;
use crate::order;
use crate::reals;
use crate::rounding;
use vstd::arithmetic::power2::*;
use vstd::prelude::*;

verus! {

/// Whether `v` is step `code` of `top` even steps from `lo` to `hi`, to one
/// part in 2^14 of a step.
pub open spec fn step_of(v: int, lo: int, hi: int, top: int, code: int) -> bool {
    let off = (v - lo) * top - code * (hi - lo);
    -(hi - lo) <= 0x4000 * off <= hi - lo
}

/// The pitch is logarithmic: code 0 is 20 samples, code 63 is 156, and in
/// between the logarithm goes up in even steps. The period is two to that
/// power, rounded.
#[verifier::spinoff_prover]
pub proof fn law_pitch_scale(code: int) -> (v: Binary32)
    requires
        0 <= code <= 63,
    ensures
        v.finite(),
        step_of(
            v.value(),
            math::log2(Binary32::of_int(20)).value(),
            math::log2(Binary32::of_int(156)).value(),
            63,
            code,
        ),
        ({
            let exact = reals::num(math::exp2(v));
            let pitch = quant::spec_pitch_from_code(code);
            &&& exact <= 20 as real ==> pitch == 20
            &&& exact >= 156 as real ==> pitch == 156
            &&& 20 as real <= exact <= 156 as real ==> reals::near(
                pitch as real,
                exact,
                51 as real / 100 as real,
            )
        }),
{
    let lo = quant::log_period(PITCH_MIN as int);
    let hi = quant::log_period(PITCH_MAX as int);
    lemma2_to64();
    precision::lemma_pitch_range();
    precision::lemma_restored(code, lo, hi, PITCH_BITS);
    let v = quant::spec_dequantize(code, lo, hi, PITCH_BITS);
    math::lemma_exp2_range(v, 4, 8);
    lemma_rounded_period(math::exp2(v));
    v
}

/// Rounding to a period of the range.
#[verifier::spinoff_prover]
proof fn lemma_rounded_period(y: Binary32)
    requires
        y.finite(),
        !y.negative(),
        y.size() <= pow2(159),
    ensures
        ({
            let p = y.add(Binary32::from_bits(math::HALF)).clamp(
                Binary32::of_int(PITCH_MIN as int),
                Binary32::of_int(PITCH_MAX as int),
            ).whole_within(0, u8::MAX as int);
            let exact = reals::num(y);
            &&& exact <= 20 as real ==> p == 20
            &&& exact >= 156 as real ==> p == 156
            &&& 20 as real <= exact <= 156 as real ==> reals::near(
                p as real,
                exact,
                51 as real / 100 as real,
            )
        }),
{
    let half = Binary32::from_bits(math::HALF);
    lemma_pow2_pos(149);
    order::lemma_power(148);
    order::lemma_power(159);
    lemma_pow2_unfold(149);
    assert(half == order::power(148));
    rounding::lemma_pow2_order(148, 159);
    order::lemma_within_weaken(half, 148, 159);
    order::lemma_within_add(y, half, 159);
    let z = y.add(half);
    reals::lemma_num_add(y, half);
    reals::lemma_eps();
    lemma_half();
    reals::lemma_num(y);
    let s = reals::num(y) + reals::num(half);
    reals::lemma_eps_of(s);
    Binary32::lemma_of_int(20);
    Binary32::lemma_of_int(156);
    let low = Binary32::of_int(20);
    let high = Binary32::of_int(156);
    reals::lemma_num_order(low, 20);
    reals::lemma_num_order(high, 156);
    reals::lemma_num_order(z, 20);
    reals::lemma_num_order(z, 156);
    let kept = z.clamp(low, high);
    lemma_whole(kept);
}

#[verifier::spinoff_prover]
proof fn lemma_half()
    ensures
        reals::num(Binary32::from_bits(math::HALF)) == 1 as real / 2 as real,
{
    lemma2_to64();
    crate::exponential::lemma_constant(math::HALF, 126, 0, 24);
    let c = crate::exponential::constant(math::HALF);
    assert(c * 0x100_0000 as real == 0x80_0000 as real);
}

/// The integer part of a number from 20 to 156.
#[verifier::spinoff_prover]
proof fn lemma_whole(x: Binary32)
    requires
        x.finite(),
        20 * pow2(149) <= x.value() <= 156 * pow2(149),
    ensures
        ({
            let q = x.whole_within(0, u8::MAX as int);
            &&& 20 <= q <= 156
            &&& q as real <= reals::num(x)
            &&& reals::num(x) < (q + 1) as real
        }),
{
    reveal(Binary32::whole_within);
    let unit = pow2(149) as int;
    lemma_pow2_pos(149);
    let v = x.value();
    vstd::arithmetic::div_mod::lemma_fundamental_div_mod(v, unit);
    vstd::arithmetic::div_mod::lemma_mod_bound(v, unit);
    let q = v / unit;
    assert(q * unit <= v < (q + 1) * unit) by (nonlinear_arith)
        requires
            v == unit * q + v % unit,
            0 <= v % unit < unit,
    ;
    assert(20 <= q <= 156) by (nonlinear_arith)
        requires
            q * unit <= v < (q + 1) * unit,
            20 * unit <= v <= 156 * unit,
            unit > 0,
    ;
    assert(v == x.size());
    reals::lemma_num_order(x, q);
    reals::lemma_num_order(x, q + 1);
}

/// The gain is logarithmic: code 0 is silence, and from code 1 on two to a
/// power that goes in even steps towards 14, from -1 at step 0.
#[verifier::spinoff_prover]
pub proof fn law_gain_scale(code: int) -> (v: Binary32)
    requires
        0 <= code <= 31,
    ensures
        code == 0 ==> quant::spec_gain_from_code(code).value() == 0,
        code >= 1 ==> {
            &&& v.finite()
            &&& step_of(v.value(), -1 * pow2(149), 14 * pow2(149) as int, 31, code)
            &&& quant::spec_gain_from_code(code) == math::exp2(v)
        },
{
    let lo = Binary32::from_bits(GAIN_MIN_LOG2);
    let hi = Binary32::from_bits(GAIN_MAX_LOG2);
    rounding::lemma_magnitude_zero();
    lemma2_to64();
    precision::lemma_ranges();
    quant::lemma_gain_range();
    precision::lemma_restored(code, lo, hi, GAIN_BITS);
    quant::spec_dequantize(code, lo, hi, GAIN_BITS)
}

/// How many steps the code of coefficient `i` has.
#[verifier::spinoff_prover]
proof fn lemma_tops(i: int)
    requires
        0 <= i < ORDER,
    ensures
        quant::levels(RC_BITS[i]) == pow2(layout::room(i)) - 1,
        2 <= RC_BITS[i] <= 6,
        i < 2 ==> quant::levels(RC_BITS[i]) == 31,
{
    lemma2_to64();
    assert(RC_BITS[0] == 5 && RC_BITS[1] == 5 && RC_BITS[2] == 5 && RC_BITS[3] == 5 && RC_BITS[4]
        == 4 && RC_BITS[5] == 4 && RC_BITS[6] == 4 && RC_BITS[7] == 4 && RC_BITS[8] == 3
        && RC_BITS[9] == 2);
}

/// Coefficients three to ten are sent directly, in even steps from -0.99 to
/// 0.99.
#[verifier::spinoff_prover]
pub proof fn law_direct_scale(i: int, code: int)
    requires
        2 <= i < ORDER,
        0 <= code < pow2(layout::room(i)),
    ensures
        quant::spec_rc_from_code(i, code).finite(),
        step_of(
            quant::spec_rc_from_code(i, code).value(),
            -Binary32::from_bits(RC_LIMIT).value(),
            Binary32::from_bits(RC_LIMIT).value(),
            pow2(layout::room(i)) - 1,
            code,
        ),
        reals::near(
            reals::num(Binary32::from_bits(RC_LIMIT)),
            99 as real / 100 as real,
            reals::eps(),
        ),
{
    let lo = Binary32::from_bits(MINUS_RC_LIMIT);
    let hi = Binary32::from_bits(RC_LIMIT);
    lemma_tops(i);
    precision::lemma_ranges();
    quant::lemma_symmetric(hi);
    precision::lemma_restored(code, lo, hi, RC_BITS[i]);
    lemma_ninety_nine();
    reals::lemma_eps();
}

#[verifier::spinoff_prover]
proof fn lemma_ninety_nine()
    ensures
        crate::exponential::constant(RC_LIMIT) * 0x100_0000 as real == 0xfd_70a4 as real,
{
    lemma2_to64();
    crate::exponential::lemma_constant(RC_LIMIT, 126, 0x7d_70a4, 24);
}

/// The first two coefficients are sent as log area ratios, in even steps from
/// -8 to 8: the coefficient k of a code has (1 + k) / (1 - k) two to that
/// power, so k (p + 1) is p - 1.
#[verifier::spinoff_prover]
pub proof fn law_ratio_scale(i: int, code: int) -> (v: Binary32)
    requires
        0 <= i < 2,
        0 <= code <= 31,
    ensures
        v.finite(),
        step_of(v.value(), -8 * pow2(149), 8 * pow2(149) as int, 31, code),
        ({
            let p = reals::num(math::exp2(v));
            let k = reals::num(quant::spec_rc_from_code(i, code));
            &&& p > 0 as real
            &&& reals::near(
                1_000_000 as real * (k * (p + 1 as real)),
                1_000_000 as real * (p - 1 as real),
                p + 1 as real,
            )
        }),
{
    let lo = Binary32::from_bits(MINUS_LAR_LIMIT);
    let hi = Binary32::from_bits(LAR_LIMIT);
    lemma_tops(i);
    precision::lemma_ranges();
    order::lemma_power(152);
    lemma2_to64();
    lemma_pow2_adds(149, 3);
    assert(hi == order::power(152));
    quant::lemma_symmetric(hi);
    precision::lemma_restored(code, lo, hi, RC_BITS[i]);
    let v = quant::spec_dequantize(code, lo, hi, RC_BITS[i]);
    math::lemma_exp2_range(v, -8, 8);
    lemma_coefficient(math::exp2(v));
    v
}

/// The coefficient of an area ratio.
#[verifier::spinoff_prover]
proof fn lemma_coefficient(p: Binary32)
    requires
        p.finite(),
        !p.negative(),
        pow2(141) <= p.size() <= pow2(159),
    ensures
        ({
            let one = Binary32::from_bits(math::ONE);
            let k = reals::num(p.sub(one).div(p.add(one)));
            let x = reals::num(p);
            &&& x > 0 as real
            &&& reals::near(
                1_000_000 as real * (k * (x + 1 as real)),
                1_000_000 as real * (x - 1 as real),
                x + 1 as real,
            )
        }),
{
    let one = Binary32::from_bits(math::ONE);
    let a = p.sub(one);
    let b = p.add(one);
    reals::lemma_eps();
    lemma_pow2_pos(141);
    quant::lemma_from_lar(p);
    order::lemma_power(149);
    lemma_pow2_pos(149);
    assert(one == order::power(149));
    reals::lemma_num_order(one, 1);
    rounding::lemma_pow2_order(149, 159);
    order::lemma_neg(one);
    order::lemma_within_weaken(one, 149, 159);
    order::lemma_within_add(p, one, 159);
    order::lemma_within_add(p, one.neg(), 159);
    order::lemma_add(p, one, one);
    reals::lemma_num_difference(p, one);
    reals::lemma_num_add(p, one);
    reals::lemma_num(p);
    let x = reals::num(p);
    lemma_above_zero(p);
    reals::lemma_eps_of(reals::size(x - 1 as real));
    reals::lemma_eps_of(x + 1 as real);
    reals::lemma_num_quotient(a, b);
    let ar = reals::num(a);
    let br = reals::num(b);
    let k = reals::num(a.div(b));
    reals::lemma_eps_of(reals::size(ar));
    lemma_inside(a.div(b));
    lemma_shifted(k, br, ar, x);
}

#[verifier::spinoff_prover]
proof fn lemma_above_zero(p: Binary32)
    requires
        p.value() > 0,
    ensures
        reals::num(p) > 0 as real,
{
    reals::lemma_num(p);
    let u = pow2(149) as real;
    let x = reals::num(p);
    reals::lemma_unit();
    if x <= 0 as real {
        crate::lpc10::likeness::lemma_times(x, 0 as real, u);
        assert(0 as real * u == 0 as real) by (nonlinear_arith);
    }
}

#[verifier::spinoff_prover]
proof fn lemma_inside(k: Binary32)
    requires
        k.finite(),
        k.size() <= pow2(149) - pow2(139),
    ensures
        reals::size(reals::num(k)) <= 1 as real,
{
    lemma_pow2_pos(139);
    reals::lemma_num_abs(k);
    reals::lemma_num_order(k.abs(), 1);
}

#[verifier::spinoff_prover]
proof fn lemma_shifted(k: real, b: real, a: real, x: real)
    requires
        x > 0 as real,
        reals::size(k) <= 1 as real,
        reals::near(
            k * b,
            a,
            reals::eps() * reals::size(a) + reals::ratio(1, 0x1_0000_0000_0000) * b,
        ),
        reals::near(a, x - 1 as real, reals::eps() * reals::size(x - 1 as real)),
        reals::near(b, x + 1 as real, reals::eps() * (x + 1 as real)),
    ensures
        reals::near(
            1_000_000 as real * (k * (x + 1 as real)),
            1_000_000 as real * (x - 1 as real),
            x + 1 as real,
        ),
{
    reals::lemma_eps();
    let n = x + 1 as real;
    let off = n - b;
    reals::lemma_eps_of(n);
    reals::lemma_eps_of(reals::size(a));
    reals::lemma_eps_of(reals::size(x - 1 as real));
    let t = reals::ratio(1, 0x1_0000_0000_0000);
    crate::lpc10::likeness::lemma_times(b, 2 as real * n, t);
    assert(t * (2 as real * n) == 2 as real * (t * n)) by (nonlinear_arith);
    crate::lpc10::likeness::lemma_times(t, 1 as real / 100_000_000 as real, n);
    assert(n * (1 as real / 100_000_000 as real) == n / 100_000_000 as real && n * t == t * n)
        by (nonlinear_arith);
    assert(k * (n - b) == k * n - k * b) by (nonlinear_arith);
    crate::lpc10::motion::lemma_limits(k, off, 1 as real, reals::eps() * n);
    let en = reals::eps() * n;
    assert(1 as real * en == en) by (nonlinear_arith);
}

/// A gain arrives within half a step of its logarithm, which is 15/62, and a
/// thousandth; the smallest ones arrive as code 1.
#[verifier::spinoff_prover]
pub proof fn law_gain_arrives_within_half_a_step(gain: Binary32)
    requires
        0x80_0000 <= gain.bits < rounding::INFINITY_BITS,
        -1 * pow2(149) <= math::log2(gain).value() <= 14 * pow2(149),
    ensures
        ({
            let code = quant::spec_gain_code(gain);
            let back = math::log2(quant::spec_gain_from_code(code)).value();
            let off = back - math::log2(gain).value();
            &&& 1 <= code <= 31
            &&& 4 * (math::log2(gain).value() + pow2(149)) >= pow2(149) ==> -(244 * pow2(149))
                <= 1000 * off <= 244 * pow2(149)
            &&& 5 * (math::log2(gain).value() + pow2(149)) <= pow2(149) ==> code == 1
        }),
{
    let lo = Binary32::from_bits(GAIN_MIN_LOG2);
    let hi = Binary32::from_bits(GAIN_MAX_LOG2);
    let value = math::log2(gain);
    lemma2_to64();
    lemma_pow2_pos(149);
    rounding::lemma_magnitude_zero();
    precision::lemma_ranges();
    quant::lemma_gain_range();
    crate::logarithm::lemma_normal(gain);
    crate::logarithm::lemma_log2(gain);
    precision::law_values_come_back_within_half_a_step(value, lo, hi, GAIN_BITS);
    let plain = quant::spec_quantize(value, lo, hi, GAIN_BITS);
    precision::lemma_restored(plain, lo, hi, GAIN_BITS);
    let code = quant::spec_gain_code(gain);
    let v = quant::spec_dequantize(code, lo, hi, GAIN_BITS);
    precision::lemma_restored(code, lo, hi, GAIN_BITS);
    math::lemma_exp2_range(v, -1, 14);
    accuracy::law_log2_undoes_exp2(v);
    if plain == 0 {
        assert(0 * (15 * pow2(149)) == 0) by (nonlinear_arith);
    } else {
        let span = hi.value() - lo.value();
        assert(plain >= 2 ==> plain * span >= 2 * span) by (nonlinear_arith)
            requires
                span >= 0,
        ;
    }
}

/// A log area ratio arrives within half a step, which is 8/31, and a
/// thousandth.
#[verifier::spinoff_prover]
pub proof fn law_ratio_arrives_within_half_a_step(i: int, k: Binary32)
    requires
        0 <= i < 2,
        quant::spec_to_lar(k).finite(),
        -8 * pow2(149) <= quant::spec_to_lar(k).value() <= 8 * pow2(149),
    ensures
        ({
            let back = quant::spec_rc_from_code(i, quant::spec_rc_code(i, k));
            let off = quant::spec_to_lar(back).value() - quant::spec_to_lar(k).value();
            -(260 * pow2(149)) <= 1000 * off <= 260 * pow2(149)
        }),
{
    let lo = Binary32::from_bits(MINUS_LAR_LIMIT);
    let hi = Binary32::from_bits(LAR_LIMIT);
    let value = quant::spec_to_lar(k);
    lemma_tops(i);
    lemma2_to64();
    lemma_pow2_pos(149);
    precision::lemma_ranges();
    order::lemma_power(152);
    lemma_pow2_adds(149, 3);
    assert(hi == order::power(152));
    quant::lemma_symmetric(hi);
    precision::law_values_come_back_within_half_a_step(value, lo, hi, RC_BITS[i]);
    let code = quant::spec_quantize(value, lo, hi, RC_BITS[i]);
    precision::lemma_restored(code, lo, hi, RC_BITS[i]);
    let v = quant::spec_dequantize(code, lo, hi, RC_BITS[i]);
    precision::law_log_area_ratios_come_back(v);
}

/// Periods beyond the range are sent as its ends.
#[verifier::spinoff_prover]
pub proof fn law_pitches_beyond_the_range(pitch: int)
    ensures
        pitch <= 20 ==> quant::spec_pitch_code(pitch) == 0,
        pitch >= 156 ==> quant::spec_pitch_code(pitch) == 63,
{
    let lo = quant::log_period(PITCH_MIN as int);
    let hi = quant::log_period(PITCH_MAX as int);
    lemma2_to64();
    precision::lemma_pitch_range();
    lemma_within_170(lo);
    lemma_within_170(hi);
    precision::law_ends_of_the_range(lo, lo, hi, PITCH_BITS);
    precision::law_ends_of_the_range(hi, lo, hi, PITCH_BITS);
}

#[verifier::spinoff_prover]
proof fn lemma_within_170(x: Binary32)
    requires
        x.finite(),
        x.size() <= 8 * pow2(149),
    ensures
        order::within(x, 170),
{
    lemma2_to64();
    lemma_pow2_adds(149, 3);
    rounding::lemma_pow2_order(152, 170);
}

/// The logarithm of what is at most a half is at most -1, however small it is.
#[verifier::spinoff_prover]
proof fn lemma_low_logarithm(x: Binary32)
    requires
        !x.nan(),
        x.value() > 0,
        x.value() <= pow2(148),
    ensures
        math::log2(x).value() <= -1 * pow2(149),
{
    let unit = pow2(149);
    lemma_pow2_pos(149);
    rounding::lemma_magnitude_zero();
    order::lemma_power(148);
    math::lemma_positive(x);
    let half = order::power(148);
    if x.pattern() > half.pattern() {
        rounding::lemma_magnitude_order(x.pattern(), half.pattern());
    }
    if x.bits == half.bits {
        math::law_powers_of_two(-1);
        Binary32::lemma_of_int(-1);
        assert(x == math::power_of_two(-1));
    } else if x.bits >= 0x80_0000 {
        crate::logarithm::lemma_normal(x);
        crate::logarithm::lemma_log2(x);
        let n = crate::logarithm::exponent(x);
        assert(n <= -2);
        assert((n + 1) * unit <= -1 * unit) by (nonlinear_arith)
            requires
                n + 1 <= -1,
                unit > 0,
        ;
    } else {
        lemma_subnormal_logarithm(x);
        assert(-126 * unit <= -1 * unit);
    }
}

/// The logarithm of a subnormal number.
#[verifier::spinoff_prover]
proof fn lemma_subnormal_logarithm(x: Binary32)
    requires
        0 < x.bits < 0x80_0000,
        x.value() > 0,
    ensures
        math::log2(x).value() <= -126 * pow2(149) + pow2(149),
{
    let m = Binary32::from_bits((x.bits % 0x80_0000 + 0x3f80_0000) as u32);
    let unit = pow2(149);
    lemma2_to64();
    lemma_pow2_pos(149);
    rounding::lemma_magnitude_zero();
    crate::exponential::lemma_constant(m.bits, 127, (x.bits % 0x80_0000) as nat, 23);
    reals::lemma_ratio(0x80_0000 + x.bits % 0x80_0000, 0x80_0000);
    let v = reals::num(m);
    assert(v * 0x80_0000 as real == (0x80_0000 + x.bits % 0x80_0000) as real);
    reals::lemma_num_order(m, 1);
    reals::lemma_num_order(m, 2);
    lemma_pow2_unfold(150);
    crate::logarithm::lemma_log_series(m, v);
    let scaled = Binary32::from_bits(crate::math::TWO_LOG2_E).mul(math::log_series(m));
    let whole = Binary32::of_int(-127);
    Binary32::lemma_of_int(-127);
    Binary32::lemma_of_int(-125);
    order::lemma_add(whole, scaled, Binary32::of_int(-125));
}

/// The ends of the gain's scale: any sound of at most a half is sent as code
/// 1, and any of 2^14 or more as code 31.
#[verifier::spinoff_prover]
pub proof fn law_gains_beyond_the_range(gain: Binary32)
    requires
        !gain.nan(),
        gain.value() > 0,
    ensures
        gain.value() <= pow2(148) ==> quant::spec_gain_code(gain) == 1,
        gain.finite() && gain.value() >= pow2(163) ==> quant::spec_gain_code(gain) == 31,
{
    let lo = Binary32::from_bits(GAIN_MIN_LOG2);
    let hi = Binary32::from_bits(GAIN_MAX_LOG2);
    let value = math::log2(gain);
    lemma2_to64();
    lemma_pow2_pos(149);
    rounding::lemma_magnitude_zero();
    precision::lemma_ranges();
    quant::lemma_gain_range();
    math::law_log2_is_moderate(gain);
    order::lemma_within_weaken(value, 158, 170);
    precision::law_ends_of_the_range(value, lo, hi, GAIN_BITS);
    if gain.value() <= pow2(148) {
        lemma_low_logarithm(gain);
    }
    if gain.finite() && gain.value() >= pow2(163) {
        lemma_high_logarithm(gain);
    }
}

#[verifier::spinoff_prover]
proof fn lemma_high_logarithm(x: Binary32)
    requires
        x.finite(),
        x.value() >= pow2(163),
    ensures
        math::log2(x).value() >= 14 * pow2(149),
{
    let unit = pow2(149);
    lemma_pow2_pos(149);
    accuracy::lemma_is_normal(x, 163);
    order::lemma_power(163);
    if x.pattern() < order::power(163).pattern() {
        rounding::lemma_magnitude_order(order::power(163).pattern(), x.pattern());
    }
    crate::logarithm::lemma_normal(x);
    crate::logarithm::lemma_log2(x);
    let n = crate::logarithm::exponent(x);
    assert(n * unit >= 14 * unit) by (nonlinear_arith)
        requires
            n >= 14,
            unit > 0,
    ;
}

/// The ends of the direct scale: a coefficient of 0.99 or more is sent as the
/// highest code, one of -0.99 or less as code 0.
#[verifier::spinoff_prover]
pub proof fn law_coefficients_beyond_the_range(i: int, k: Binary32)
    requires
        2 <= i < ORDER,
        order::within(k, 170),
    ensures
        k.value() <= -Binary32::from_bits(RC_LIMIT).value() ==> quant::spec_rc_code(i, k) == 0,
        k.value() >= Binary32::from_bits(RC_LIMIT).value() ==> quant::spec_rc_code(i, k) == pow2(
            layout::room(i),
        ) - 1,
{
    let lo = Binary32::from_bits(MINUS_RC_LIMIT);
    let hi = Binary32::from_bits(RC_LIMIT);
    lemma_tops(i);
    precision::lemma_ranges();
    quant::lemma_symmetric(hi);
    precision::law_ends_of_the_range(k, lo, hi, RC_BITS[i]);
}

} // verus!
