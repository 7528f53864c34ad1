//! How precisely the quantizers keep a value.
//!
//! Each operation of a quantizer is off by at most one part in 2^24, so the
//! whole way from a value to its level and back is off by far less than a
//! level. Two things follow: every code comes back as itself, and every
//! value of the range comes back within half a step. The logarithm and the
//! exponential undo each other to far less than a level too, so the same
//! holds of the fields that are sent as logarithms.
use crate::accuracy;
use crate::binary32::Binary32;
use crate::exponential;
use crate::logarithm;
use crate::lpc10::bits;
use crate::lpc10::quant;
use crate::lpc10::quant::{
    GAIN_MAX_LOG2, GAIN_MIN_LOG2, LAR_LIMIT, MINUS_LAR_LIMIT, MINUS_RC_LIMIT, RC_BITS, RC_LIMIT,
};
use crate::lpc10::ratio;
use crate::lpc10::{ORDER, PITCH_MAX, PITCH_MIN};
use crate::math;
use crate::order;
use crate::reals;
use crate::rounding;
use vstd::arithmetic::power2::*;
use vstd::prelude::*;

verus! {

/// A range that starts no further below zero than it is long and no further
/// above than three times that, at least one and at most 2^10 long, and whose
/// length is itself a number.
pub open spec fn regular(lo: Binary32, hi: Binary32) -> bool {
    let span = hi.value() - lo.value();
    &&& lo.finite() && hi.finite() && hi.sub(lo).finite()
    &&& hi.sub(lo).value() == span
    &&& -span <= lo.value() <= 3 * span
    &&& pow2(149) <= span <= pow2(159)
}

/// The highest code as a number.
proof fn lemma_top(width: u32)
    requires
        2 <= width <= 6,
    ensures
        3 <= quant::levels(width) <= 63,
        Binary32::of_int(quant::levels(width)).finite(),
        Binary32::of_int(quant::levels(width)).value() == quant::levels(width) * pow2(149),
        Binary32::of_int(quant::levels(width)).size() == quant::levels(width) * pow2(149),
        Binary32::of_int(quant::levels(width)).size() > 0,
{
    let top = quant::levels(width);
    lemma_pow2_pos(149);
    lemma2_to64();
    rounding::lemma_pow2_order(2, width as nat);
    rounding::lemma_pow2_order(width as nat, 6);
    Binary32::lemma_of_int(top);
    assert(top * pow2(149) > 0) by (nonlinear_arith)
        requires
            top > 0,
            pow2(149) > 0,
    ;
}

/// 2^149 is large against anything that rounding of small numbers leaves.
pub proof fn lemma_unit()
    ensures
        pow2(149) >= 0x1_0000_0000_0000,
{
    lemma2_to64();
    lemma2_to64_rest();
    rounding::lemma_pow2_order(48, 149);
}

/// Three roundings, each off by at most one part in 2^24, are off by less
/// than one part in 2^22 together.
proof fn lemma_three_roundings(a: int, b: int)
    requires
        0 <= b,
        0x100_0000 * 0x100_0000 * 0x100_0000 * a <= 0x100_0001 * 0x100_0001 * 0x100_0001 * b,
        0x100_0000 * 0x100_0000 * 0x100_0000 * a >= 0xff_ffff * 0xff_ffff * 0xff_ffff * b,
    ensures
        0x40_0000 * (a - b) <= b,
        0x40_0000 * (b - a) <= b,
{
    assert(0x40_0000 * (a - b) <= b && 0x40_0000 * (b - a) <= b) by (nonlinear_arith)
        requires
            0 <= b,
            0x100_0000 * 0x100_0000 * 0x100_0000 * a <= 0x100_0001 * 0x100_0001 * 0x100_0001 * b,
            0x100_0000 * 0x100_0000 * 0x100_0000 * a >= 0xff_ffff * 0xff_ffff * 0xff_ffff * b,
    ;
}

/// Chained upper bounds.
proof fn lemma_chain_above(x0: int, x1: int, x2: int, x3: int)
    requires
        0x100_0000 * x0 <= 0x100_0001 * x1,
        0x100_0000 * x1 <= 0x100_0001 * x2,
        0x100_0000 * x2 <= 0x100_0001 * x3,
    ensures
        0x100_0000 * 0x100_0000 * 0x100_0000 * x0 <= 0x100_0001 * 0x100_0001 * 0x100_0001 * x3,
{
    assert(0x100_0000 * 0x100_0000 * 0x100_0000 * x0 <= 0x100_0001 * 0x100_0001 * 0x100_0001 * x3)
        by (nonlinear_arith)
        requires
            0x100_0000 * x0 <= 0x100_0001 * x1,
            0x100_0000 * x1 <= 0x100_0001 * x2,
            0x100_0000 * x2 <= 0x100_0001 * x3,
    ;
}

/// Chained lower bounds.
proof fn lemma_chain_below(x0: int, x1: int, x2: int, x3: int)
    requires
        0x100_0000 * x0 >= 0xff_ffff * x1,
        0x100_0000 * x1 >= 0xff_ffff * x2,
        0x100_0000 * x2 >= 0xff_ffff * x3,
    ensures
        0x100_0000 * 0x100_0000 * 0x100_0000 * x0 >= 0xff_ffff * 0xff_ffff * 0xff_ffff * x3,
{
    assert(0x100_0000 * 0x100_0000 * 0x100_0000 * x0 >= 0xff_ffff * 0xff_ffff * 0xff_ffff * x3)
        by (nonlinear_arith)
        requires
            0x100_0000 * x0 >= 0xff_ffff * x1,
            0x100_0000 * x1 >= 0xff_ffff * x2,
            0x100_0000 * x2 >= 0xff_ffff * x3,
    ;
}

/// An inequality times a non-negative factor.
proof fn lemma_times(c: int, a: int, d: int, b: int, k: int)
    requires
        c * a <= d * b,
        0 <= k,
    ensures
        c * (a * k) <= d * (b * k),
{
    assert(c * (a * k) <= d * (b * k)) by (nonlinear_arith)
        requires
            c * a <= d * b,
            0 <= k,
    ;
}

/// An inequality with a common positive factor taken out.
proof fn lemma_cancel(c: int, a: int, d: int, b: int, k: int)
    requires
        c * (a * k) <= d * (b * k),
        0 < k,
    ensures
        c * a <= d * b,
{
    assert(c * a <= d * b) by (nonlinear_arith)
        requires
            c * (a * k) <= d * (b * k),
            0 < k,
    ;
}

/// A value's share of the range in levels, before it is rounded to a code.
pub open spec fn scaled(value: Binary32, lo: Binary32, hi: Binary32, width: u32) -> Binary32 {
    value.sub(lo).div(hi.sub(lo)).mul(Binary32::of_int(quant::levels(width)))
}

/// The share in levels is within 2^-13 of exact.
proof fn lemma_scaled(value: Binary32, lo: Binary32, hi: Binary32, width: u32)
    requires
        regular(lo, hi),
        2 <= width <= 6,
        value.finite(),
        lo.value() <= value.value() <= hi.value(),
    ensures
        ({
            let m = scaled(value, lo, hi, width);
            let span = hi.value() - lo.value();
            let exact = (value.value() - lo.value()) * quant::levels(width) * pow2(149);
            &&& m.finite()
            &&& 0 <= m.value() <= quant::levels(width) * pow2(149)
            &&& 0x2000 * (m.value() * span - exact) <= span * pow2(149)
            &&& 0x2000 * (exact - m.value() * span) <= span * pow2(149)
        }),
{
    let unit = pow2(149) as int;
    let top = quant::levels(width);
    let tops = Binary32::of_int(top);
    let range = hi.sub(lo);
    let span = hi.value() - lo.value();
    let w = value.value() - lo.value();
    let one = Binary32::from_bits(math::ONE);
    let none = Binary32::from_bits(math::ZERO);
    rounding::lemma_magnitude_zero();
    lemma_top(width);
    lemma_unit();
    order::lemma_power(149);
    // The distance from the bottom of the range.
    let d = value.sub(lo);
    order::lemma_neg(lo);
    order::lemma_sub(value, lo, range);
    order::lemma_sub(value, lo, none);
    order::lemma_finite(d, range);
    order::lemma_add_error(value, lo.neg());
    let dv = d.size() as int;
    // Its share of the range.
    let q = d.div(range);
    assert(d.size() * pow2(149) <= one.size() * range.size()) by (nonlinear_arith)
        requires
            d.size() <= range.size(),
            one.size() == pow2(149),
    ;
    order::lemma_div(d, range, one);
    order::lemma_finite(q, one);
    let qv = q.size() as int;
    // That share in levels.
    let m = q.mul(tops);
    assert(q.size() * tops.size() <= tops.size() * pow2(149)) by (nonlinear_arith)
        requires
            q.size() <= pow2(149),
    ;
    order::lemma_mul(q, tops, tops);
    order::lemma_finite(m, tops);
    let mv = m.size() as int;
    let exact = w * top * unit;
    assert(m.value() >= 0 && m.value() == mv) by {
        if d.negative() {
            assert(d.size() == 0);
            assert(d.size() * pow2(149) == 0 && none.size() * range.size() == 0)
                by (nonlinear_arith)
                requires
                    d.size() == 0,
                    none.size() == 0,
            ;
            order::lemma_div(d, range, none);
            assert(q.size() * tops.size() == 0 && none.size() * pow2(149) == 0)
                by (nonlinear_arith)
                requires
                    q.size() == 0,
                    none.size() == 0,
            ;
            order::lemma_mul(q, tops, none);
        }
    }
    if dv * unit >= 0x80_0000 * span {
        order::lemma_div_error(d, range);
        assert(qv >= 0x7f_ffff) by (nonlinear_arith)
            requires
                0x100_0000 * (qv * span) >= 0xff_ffff * (dv * unit),
                dv * unit >= 0x80_0000 * span,
                span > 0,
        ;
        assert(q.size() * tops.size() >= 0x80_0000 * pow2(149)) by (nonlinear_arith)
            requires
                q.size() >= 0x7f_ffff,
                tops.size() == top * unit,
                top >= 3,
                unit == pow2(149),
        ;
        order::lemma_mul_error(q, tops);
        assert(q.size() * tops.size() == (qv * top) * unit) by (nonlinear_arith)
            requires
                tops.size() == top * unit,
                qv == q.size(),
        ;
        lemma_cancel(0x100_0000, mv, 0x100_0001, qv * top, unit);
        lemma_cancel(0xff_ffff, qv * top, 0x100_0000, mv, unit);
        // All three, times what is missing of the common product.
        lemma_times(0x100_0000, mv, 0x100_0001, qv * top, span);
        lemma_times(0xff_ffff, qv * top, 0x100_0000, mv, span);
        lemma_times(0x100_0000, qv * span, 0x100_0001, dv * unit, top);
        lemma_times(0xff_ffff, dv * unit, 0x100_0000, qv * span, top);
        assert(0 <= top * unit) by (nonlinear_arith)
            requires
                0 <= top,
                0 <= unit,
        ;
        lemma_times(0x100_0000, dv, 0x100_0001, w, top * unit);
        lemma_times(0xff_ffff, w, 0x100_0000, dv, top * unit);
        let x1 = (qv * top) * span;
        let x2 = (dv * unit) * top;
        assert(x1 == (qv * span) * top && x2 == dv * (top * unit) && exact == w * (top * unit))
            by (nonlinear_arith)
            requires
                x1 == (qv * top) * span,
                x2 == (dv * unit) * top,
                exact == w * top * unit,
        ;
        lemma_chain_above(mv * span, x1, x2, exact);
        lemma_chain_below(mv * span, x1, x2, exact);
        assert(0 <= exact <= 63 * (span * unit)) by (nonlinear_arith)
            requires
                exact == w * top * unit,
                0 <= w <= span,
                0 <= top <= 63,
                0 <= unit,
        ;
        lemma_three_roundings(mv * span, exact);
    } else {
        // Next to the bottom of the range both are next to nothing.
        let few = order::power(23);
        order::lemma_power(23);
        lemma2_to64();
        order::lemma_div(d, range, few);
        let more = order::power(29);
        order::lemma_power(29);
        assert(q.size() * tops.size() <= more.size() * pow2(149)) by (nonlinear_arith)
            requires
                q.size() <= 0x80_0000,
                tops.size() == top * unit,
                0 <= top <= 63,
                unit == pow2(149),
                more.size() == 0x2000_0000,
        ;
        order::lemma_mul(q, tops, more);
        assert(0 <= mv * span <= 0x2000_0000 * span) by (nonlinear_arith)
            requires
                0 <= mv <= 0x2000_0000,
                span >= 0,
        ;
        assert(w * unit <= 0x100_0000 * span) by (nonlinear_arith)
            requires
                dv * unit < 0x80_0000 * span,
                0x100_0000 * dv >= 0xff_ffff * w,
                unit > 0,
                span >= 0,
        ;
        let wu = w * unit;
        assert(exact == top * wu && 0 <= wu) by (nonlinear_arith)
            requires
                exact == w * top * unit,
                wu == w * unit,
                0 <= w,
                0 <= unit,
        ;
        assert(0 <= top * wu <= 63 * wu) by (nonlinear_arith)
            requires
                0 <= wu,
                0 <= top <= 63,
        ;
        assert(0x2000 * (0x3f00_0000 * span) <= span * unit && 0x2000 * (0x2000_0000 * span)
            <= span * unit) by (nonlinear_arith)
            requires
                unit >= 0x1_0000_0000_0000,
                span >= 0,
        ;
    }
}

/// The value of a code is within 2^-14 of a level of where it should be.
pub proof fn lemma_restored(code: int, lo: Binary32, hi: Binary32, width: u32)
    requires
        regular(lo, hi),
        2 <= width <= 6,
        0 <= code <= quant::levels(width),
    ensures
        ({
            let v = quant::spec_dequantize(code, lo, hi, width);
            let span = hi.value() - lo.value();
            let off = (v.value() - lo.value()) * quant::levels(width) - code * span;
            &&& v.finite()
            &&& lo.value() <= v.value() <= hi.value()
            &&& 0x4000 * off <= span
            &&& -(0x4000 * off) <= span
        }),
{
    let unit = pow2(149) as int;
    let top = quant::levels(width);
    let tops = Binary32::of_int(top);
    let range = hi.sub(lo);
    let span = hi.value() - lo.value();
    let none = Binary32::from_bits(math::ZERO);
    let v = quant::spec_dequantize(code, lo, hi, width);
    rounding::lemma_magnitude_zero();
    lemma_top(width);
    lemma_unit();
    quant::lemma_dequantize_range(code, lo, hi, width);
    quant::lemma_share(code, width);
    let n = Binary32::of_int(code);
    Binary32::lemma_of_int(code);
    let s = n.div(tops);
    let sv = s.size() as int;
    quant::lemma_part(s, range);
    let x = s.mul(range);
    let xv = x.value();
    let w = v.value() - lo.value();
    order::lemma_add_error(lo, x);
    assert(0x100_0000 * (w - xv) <= 4 * span && 0x100_0000 * (xv - w) <= 4 * span);
    assert(0x100_0000 * (w * top - xv * top) <= 252 * span && 0x100_0000 * (xv * top - w * top)
        <= 252 * span) by (nonlinear_arith)
        requires
            0x100_0000 * (w - xv) <= 4 * span,
            0x100_0000 * (xv - w) <= 4 * span,
            3 <= top <= 63,
            0 <= span,
    ;
    assert(code * unit >= 0) by (nonlinear_arith)
        requires
            code >= 0,
            unit >= 0,
    ;
    if code == 0 {
        assert(code * unit == 0 && code * span == 0) by (nonlinear_arith)
            requires
                code == 0,
        ;
        assert(n.size() * pow2(149) == 0 && none.size() * tops.size() == 0) by (nonlinear_arith)
            requires
                n.size() == 0,
                none.size() == 0,
        ;
        order::lemma_div(n, tops, none);
        assert(s.size() * range.size() == 0 && none.size() * pow2(149) == 0) by (nonlinear_arith)
            requires
                s.size() == 0,
                none.size() == 0,
        ;
        order::lemma_mul(s, range, none);
        assert(xv * top == 0) by (nonlinear_arith)
            requires
                xv == 0,
        ;
    } else {
        assert(n.size() * pow2(149) >= 0x80_0000 * tops.size()) by (nonlinear_arith)
            requires
                n.size() == code * unit,
                tops.size() == top * unit,
                code >= 1,
                top <= 63,
                unit == pow2(149),
                unit >= 0x1_0000_0000_0000,
        ;
        order::lemma_div_error(n, tops);
        assert(s.size() * tops.size() == (sv * top) * unit && n.size() * pow2(149) == (code * unit)
            * unit) by (nonlinear_arith)
            requires
                tops.size() == top * unit,
                n.size() == code * unit,
                sv == s.size(),
                unit == pow2(149),
        ;
        lemma_cancel(0x100_0000, sv * top, 0x100_0001, code * unit, unit);
        lemma_cancel(0xff_ffff, code * unit, 0x100_0000, sv * top, unit);
        assert(s.size() * range.size() >= 0x80_0000 * pow2(149)) by (nonlinear_arith)
            requires
                0x100_0000 * (sv * top) >= 0xff_ffff * (code * unit),
                code >= 1,
                3 <= top <= 63,
                sv == s.size(),
                range.size() >= unit,
                unit == pow2(149),
                unit >= 0x1_0000_0000_0000,
        ;
        order::lemma_mul_error(s, range);
        // x unit top, s top span, code unit span.
        lemma_times(0x100_0000, xv * unit, 0x100_0001, sv * span, top);
        lemma_times(0xff_ffff, sv * span, 0x100_0000, xv * unit, top);
        lemma_times(0x100_0000, sv * top, 0x100_0001, code * unit, span);
        lemma_times(0xff_ffff, code * unit, 0x100_0000, sv * top, span);
        let y0 = (xv * top) * unit;
        let y1 = (sv * span) * top;
        let y2 = (code * span) * unit;
        assert(y0 == (xv * unit) * top && y1 == (sv * top) * span && y2 == (code * unit) * span)
            by (nonlinear_arith)
            requires
                y0 == (xv * top) * unit,
                y1 == (sv * span) * top,
                y2 == (code * span) * unit,
        ;
        assert(0 <= y2) by (nonlinear_arith)
            requires
                y2 == (code * unit) * span,
                code * unit >= 0,
                span >= 0,
        ;
        lemma_chain_above(y0, y1, y2, y2);
        lemma_chain_below(y0, y1, y2, y2);
        lemma_three_roundings(y0, y2);
        assert(0x40_0000 * (xv * top - code * span) <= code * span && 0x40_0000 * (code * span - xv
            * top) <= code * span) by (nonlinear_arith)
            requires
                0x40_0000 * (y0 - y2) <= y2,
                0x40_0000 * (y2 - y0) <= y2,
                y0 == (xv * top) * unit,
                y2 == (code * span) * unit,
                unit > 0,
        ;
        assert(code * span <= 63 * span) by (nonlinear_arith)
            requires
                0 <= code <= 63,
                0 <= span,
        ;
    }
}

/// The code is the nearest level, but for a sliver on either side of the
/// midpoint.
proof fn lemma_nearest_level(value: Binary32, lo: Binary32, hi: Binary32, width: u32)
    requires
        2 <= width <= 6,
        scaled(value, lo, hi, width).finite(),
        0 <= scaled(value, lo, hi, width).value() <= quant::levels(width) * pow2(149),
    ensures
        ({
            let off = scaled(value, lo, hi, width).value() - quant::spec_quantize(
                value,
                lo,
                hi,
                width,
            ) * pow2(149);
            &&& 0x4_0000 * off <= 0x2_0001 * pow2(149)
            &&& -(0x4_0000 * off) <= 0x2_0001 * pow2(149)
        }),
{
    let unit = pow2(149) as int;
    let top = quant::levels(width);
    let tops = Binary32::of_int(top);
    let m = scaled(value, lo, hi, width);
    let half = Binary32::from_bits(math::HALF);
    let none = Binary32::from_bits(math::ZERO);
    rounding::lemma_magnitude_zero();
    lemma_top(width);
    lemma_unit();
    lemma_pow2_unfold(149);
    order::lemma_power(148);
    assert(half == order::power(148));
    let a = m.add(half);
    lemma2_to64();
    lemma_pow2_adds(6, 149);
    assert(top * unit <= 63 * unit) by (nonlinear_arith)
        requires
            top <= 63,
            unit > 0,
    ;
    order::lemma_within_weaken(half, 148, 155);
    order::lemma_within_add(m, half, 155);
    order::lemma_add_error(m, half);
    let av = a.value();
    assert(0x4_0000 * (av - m.value()) <= 0x2_0001 * unit);
    assert(0x4_0000 * (av - m.value()) >= 0x1_ffff * unit);
    let kept = a.clamp(none, tops);
    reveal(Binary32::whole_within);
    let c = quant::spec_quantize(value, lo, hi, width);
    vstd::arithmetic::div_mod::lemma_fundamental_div_mod(kept.value(), unit);
    vstd::arithmetic::div_mod::lemma_mod_bound(kept.value(), unit);
    let f = kept.value() / unit;
    assert(f * unit <= kept.value() < f * unit + unit) by (nonlinear_arith)
        requires
            kept.value() == unit * f + kept.value() % unit,
            0 <= kept.value() % unit < unit,
    ;
    assert(0 <= f <= top) by (nonlinear_arith)
        requires
            f * unit <= kept.value() <= top * unit,
            kept.value() < f * unit + unit,
            kept.value() >= 0,
            unit > 0,
    ;
    assert(kept.value() == kept.size());
    assert(kept.whole() == f);
    assert(c == f);
    if kept.value() == top * unit {
        assert(f == top) by (nonlinear_arith)
            requires
                kept.value() == top * unit,
                f * unit <= kept.value() < f * unit + unit,
                unit > 0,
        ;
    }
}

/// Every code comes back as itself: quantizing the value that a code stands
/// for gives the code.
pub proof fn law_codes_come_back(code: int, lo: Binary32, hi: Binary32, width: u32)
    requires
        regular(lo, hi),
        2 <= width <= 6,
        0 <= code <= quant::levels(width),
    ensures
        quant::spec_quantize(quant::spec_dequantize(code, lo, hi, width), lo, hi, width) == code,
{
    let unit = pow2(149) as int;
    let span = hi.value() - lo.value();
    let top = quant::levels(width);
    let v = quant::spec_dequantize(code, lo, hi, width);
    lemma_unit();
    lemma_restored(code, lo, hi, width);
    lemma_scaled(v, lo, hi, width);
    lemma_nearest_level(v, lo, hi, width);
    let c = quant::spec_quantize(v, lo, hi, width);
    let m = scaled(v, lo, hi, width).value();
    let w = v.value() - lo.value();
    // m span is near w top unit, and w top is near code span.
    let a = w * top - code * span;
    assert((w * top) * unit - (code * unit) * span == a * unit) by (nonlinear_arith)
        requires
            a == w * top - code * span,
    ;
    assert(0x4000 * (a * unit) <= span * unit && -(0x4000 * (a * unit)) <= span * unit)
        by (nonlinear_arith)
        requires
            0x4000 * a <= span,
            -(0x4000 * a) <= span,
            unit > 0,
    ;
    assert(0x1000 * (m - code * unit) <= unit && 0x1000 * (code * unit - m) <= unit)
        by (nonlinear_arith)
        requires
            0x1000 * (m * span - (code * unit) * span) <= span * unit,
            0x1000 * ((code * unit) * span - m * span) <= span * unit,
            span > 0,
    ;
    assert(c == code) by (nonlinear_arith)
        requires
            0x1000 * (m - code * unit) <= unit,
            0x1000 * (code * unit - m) <= unit,
            0x4_0000 * (m - c * unit) <= 0x2_0001 * unit,
            -(0x4_0000 * (m - c * unit)) <= 0x2_0001 * unit,
            unit > 0,
    ;
}

/// Every value of the range comes back within half a step, give or take one
/// part in two thousand: the distance times twice the highest code is at
/// most 2049/2048 of the range.
pub proof fn law_values_come_back_within_half_a_step(
    value: Binary32,
    lo: Binary32,
    hi: Binary32,
    width: u32,
)
    requires
        regular(lo, hi),
        2 <= width <= 6,
        value.finite(),
        lo.value() <= value.value() <= hi.value(),
    ensures
        ({
            let code = quant::spec_quantize(value, lo, hi, width);
            let back = quant::spec_dequantize(code, lo, hi, width);
            let off = back.value() - value.value();
            let span = hi.value() - lo.value();
            &&& 0 <= code <= quant::levels(width)
            &&& 0x1000 * (off * quant::levels(width)) <= 0x801 * span
            &&& -(0x1000 * (off * quant::levels(width))) <= 0x801 * span
        }),
{
    let unit = pow2(149) as int;
    let span = hi.value() - lo.value();
    let top = quant::levels(width);
    lemma_unit();
    lemma_scaled(value, lo, hi, width);
    lemma_nearest_level(value, lo, hi, width);
    quant::lemma_quantize_range(value, lo, hi, width);
    let c = quant::spec_quantize(value, lo, hi, width);
    lemma_restored(c, lo, hi, width);
    let back = quant::spec_dequantize(c, lo, hi, width);
    let m = scaled(value, lo, hi, width).value();
    let w = value.value() - lo.value();
    let w1 = back.value() - lo.value();
    let off = back.value() - value.value();
    assert(off * top == w1 * top - w * top) by (nonlinear_arith)
        requires
            off == w1 - w,
    ;
    // m span lies near w top unit, and m near c unit.
    assert(0x4_0000 * (m * span - (c * unit) * span) <= 0x2_0001 * (span * unit) && -(0x4_0000 * (m
        * span - (c * unit) * span)) <= 0x2_0001 * (span * unit)) by (nonlinear_arith)
        requires
            0x4_0000 * (m - c * unit) <= 0x2_0001 * unit,
            -(0x4_0000 * (m - c * unit)) <= 0x2_0001 * unit,
            span > 0,
    ;
    let b = w * top - c * span;
    assert((w * top) * unit - (c * unit) * span == b * unit) by (nonlinear_arith)
        requires
            b == w * top - c * span,
    ;
    assert(0x4_0000 * (b * unit) <= 0x2_0021 * (span * unit));
    assert(-(0x4_0000 * (b * unit)) <= 0x2_0021 * (span * unit));
    assert(0x4_0000 * b <= 0x2_0021 * span && -(0x4_0000 * b) <= 0x2_0021 * span)
        by (nonlinear_arith)
        requires
            0x4_0000 * (b * unit) <= 0x2_0021 * (span * unit),
            -(0x4_0000 * (b * unit)) <= 0x2_0021 * (span * unit),
            unit > 0,
    ;
}

/// A value at or below the bottom of the range has the lowest code, one at
/// or above the top the highest.
pub proof fn law_ends_of_the_range(value: Binary32, lo: Binary32, hi: Binary32, width: u32)
    requires
        regular(lo, hi),
        2 <= width <= 6,
        order::within(value, 170),
    ensures
        value.value() <= lo.value() ==> quant::spec_quantize(value, lo, hi, width) == 0,
        value.value() >= hi.value() ==> quant::spec_quantize(value, lo, hi, width)
            == quant::levels(width),
{
    let unit = pow2(149) as int;
    let top = quant::levels(width);
    let tops = Binary32::of_int(top);
    let range = hi.sub(lo);
    let one = Binary32::from_bits(math::ONE);
    let none = Binary32::from_bits(math::ZERO);
    let half = Binary32::from_bits(math::HALF);
    rounding::lemma_magnitude_zero();
    lemma_top(width);
    lemma_unit();
    order::lemma_power(148);
    order::lemma_power(149);
    lemma_pow2_unfold(149);
    lemma2_to64();
    lemma_pow2_adds(6, 149);
    assert(top * unit <= 63 * unit) by (nonlinear_arith)
        requires
            top <= 63,
            unit > 0,
    ;
    rounding::lemma_pow2_order(159, 170);
    rounding::lemma_pow2_order(161, 170);
    lemma_pow2_unfold(160);
    lemma_pow2_unfold(161);
    order::lemma_neg(lo);
    let d = value.sub(lo);
    order::lemma_within_add(value, lo.neg(), 170);
    order::lemma_sub(value, lo, range);
    order::lemma_sub(value, lo, none);
    let q = d.div(range);
    order::lemma_within_div(d, range, 171, 149);
    order::lemma_div(d, range, one);
    order::lemma_within_weaken(tops, 155, 155);
    order::lemma_within_mul(q, tops, 171, 155);
    order::lemma_mul(q, tops, tops);
    let m = q.mul(tops);
    rounding::lemma_pow2_order(148, 177);
    order::lemma_within_weaken(half, 148, 177);
    order::lemma_within_add(m, half, 177);
    let a = m.add(half);
    order::lemma_add(m, half, half);
    order::lemma_add(m, half, tops);
    let kept = a.clamp(none, tops);
    reveal(Binary32::whole_within);
    if value.value() <= lo.value() {
        if d.size() == 0 {
            assert(d.size() * pow2(149) == 0 && none.size() * range.size() == 0)
                by (nonlinear_arith)
                requires
                    d.size() == 0,
                    none.size() == 0,
            ;
            order::lemma_div(d, range, none);
            assert(q.size() * tops.size() == 0 && none.size() * pow2(149) == 0)
                by (nonlinear_arith)
                requires
                    q.size() == 0,
                    none.size() == 0,
            ;
            order::lemma_mul(q, tops, none);
        }
        assert(m.value() <= 0);
        vstd::arithmetic::div_mod::lemma_basic_div(kept.size() as int, unit);
    }
    if value.value() >= hi.value() {
        assert(d.size() * pow2(149) >= one.size() * range.size()) by (nonlinear_arith)
            requires
                d.size() >= range.size(),
                one.size() == pow2(149),
        ;
        assert(q.size() * tops.size() >= tops.size() * pow2(149)) by (nonlinear_arith)
            requires
                q.size() >= pow2(149),
        ;
        assert(kept.value() == top * unit);
        vstd::arithmetic::div_mod::lemma_div_by_multiple(top, unit);
    }
}

/// A value within a thousandth of what a code stands for has that code.
pub proof fn law_codes_are_robust(
    code: int,
    value: Binary32,
    lo: Binary32,
    hi: Binary32,
    width: u32,
)
    requires
        regular(lo, hi),
        2 <= width <= 6,
        0 <= code <= quant::levels(width),
        value.finite(),
        ({
            let off = value.value() - quant::spec_dequantize(code, lo, hi, width).value();
            -pow2(149) <= 1000 * off <= pow2(149)
        }),
    ensures
        quant::spec_quantize(value, lo, hi, width) == code,
{
    let unit = pow2(149) as int;
    let span = hi.value() - lo.value();
    let top = quant::levels(width);
    let v = quant::spec_dequantize(code, lo, hi, width);
    lemma_unit();
    lemma_top(width);
    lemma_restored(code, lo, hi, width);
    let off = value.value() - v.value();
    let w = value.value() - lo.value();
    let w0 = v.value() - lo.value();
    assert(w * top == w0 * top + off * top) by (nonlinear_arith)
        requires
            w == w0 + off,
    ;
    assert(1000 * (off * top) <= 63 * unit && -(1000 * (off * top)) <= 63 * unit)
        by (nonlinear_arith)
        requires
            1000 * off <= unit,
            -unit <= 1000 * off,
            0 <= top <= 63,
            unit > 0,
    ;
    // In levels, the value is within a tenth of its code.
    let a = w * top - code * span;
    assert(10 * a <= span && -(10 * a) <= span);
    if value.value() < lo.value() || value.value() > hi.value() {
        lemma2_to64();
        lemma_pow2_adds(159, 11);
        rounding::lemma_pow2_order(149, 159);
        law_ends_of_the_range(value, lo, hi, width);
        if value.value() < lo.value() {
            assert(w * top <= 0) by (nonlinear_arith)
                requires
                    w < 0,
                    top >= 0,
            ;
            assert(code == 0) by (nonlinear_arith)
                requires
                    10 * (code * span) <= span,
                    span > 0,
                    code >= 0,
            ;
        } else {
            assert(w * top >= span * top) by (nonlinear_arith)
                requires
                    w >= span,
                    top >= 0,
            ;
            assert(code == top) by (nonlinear_arith)
                requires
                    10 * (span * top - code * span) <= span,
                    span > 0,
                    code <= top,
            ;
        }
    } else {
        lemma_scaled(value, lo, hi, width);
        lemma_nearest_level(value, lo, hi, width);
        let c = quant::spec_quantize(value, lo, hi, width);
        let m = scaled(value, lo, hi, width).value();
        assert((w * top) * unit - (code * unit) * span == a * unit) by (nonlinear_arith)
            requires
                a == w * top - code * span,
        ;
        assert(10 * (a * unit) <= span * unit && -(10 * (a * unit)) <= span * unit)
            by (nonlinear_arith)
            requires
                10 * a <= span,
                -(10 * a) <= span,
                unit > 0,
        ;
        assert(8 * (m - code * unit) <= unit && 8 * (code * unit - m) <= unit)
            by (nonlinear_arith)
            requires
                8 * (m * span - (code * unit) * span) <= span * unit,
                8 * ((code * unit) * span - m * span) <= span * unit,
                span > 0,
        ;
        assert(c == code) by (nonlinear_arith)
            requires
                8 * (m - code * unit) <= unit,
                8 * (code * unit - m) <= unit,
                0x4_0000 * (m - c * unit) <= 0x2_0001 * unit,
                -(0x4_0000 * (m - c * unit)) <= 0x2_0001 * unit,
                unit > 0,
        ;
    }
}

/// Gain codes come back as themselves.
pub proof fn law_gain_codes_come_back(code: int)
    requires
        0 <= code <= 31,
    ensures
        quant::spec_gain_code(quant::spec_gain_from_code(code)) == code,
{
    let lo = Binary32::from_bits(GAIN_MIN_LOG2);
    let hi = Binary32::from_bits(GAIN_MAX_LOG2);
    rounding::lemma_magnitude_zero();
    if code > 0 {
        lemma2_to64();
        lemma_pow2_pos(149);
        lemma_ranges();
        quant::lemma_gain_range();
        lemma_restored(code, lo, hi, quant::GAIN_BITS);
        let v = quant::spec_dequantize(code, lo, hi, quant::GAIN_BITS);
        math::lemma_exp2_range(v, -1, 14);
        lemma_pow2_pos(148);
        accuracy::law_log2_undoes_exp2(v);
        law_codes_are_robust(code, math::log2(math::exp2(v)), lo, hi, quant::GAIN_BITS);
    }
}

/// The log area ratio of the coefficient that a log area ratio in [-8, 8]
/// stands for is that ratio, to a thousandth.
pub proof fn law_log_area_ratios_come_back(lar: Binary32)
    requires
        lar.finite(),
        -8 * pow2(149) <= lar.value() <= 8 * pow2(149),
    ensures
        ({
            let off = quant::spec_to_lar(quant::spec_from_lar(lar)).value() - lar.value();
            -pow2(149) <= 1000 * off <= pow2(149)
        }),
        quant::spec_to_lar(quant::spec_from_lar(lar)).finite(),
{
    let unit = pow2(149);
    let one = Binary32::from_bits(math::ONE);
    let p = math::exp2(lar);
    let k = quant::spec_from_lar(lar);
    let w = exponential::whole_part(lar);
    let f = exponential::fraction_part(lar);
    lemma_pow2_pos(149);
    reals::lemma_eps();
    exponential::lemma_exp2(lar);
    exponential::lemma_exp_parts(f);
    math::lemma_exp2_range(lar, -8, 8);
    lemma2_to64();
    lemma_pow2_adds(141, 8);
    lemma_pow2_adds(149, 10);
    lemma_pow2_pos(141);
    rounding::lemma_pow2_order(149, 159);
    let s = pow2((w + 149) as nat) as real;
    lemma_pow2_pos((w + 149) as nat);
    // The ratio is at most 2^8, but for rounding.
    let pr = p.value() as real;
    let e = reals::eps();
    let big = exponential::exact_exp(f);
    assert(pr <= 257 as real * (unit as real)) by {
        reals::lemma_num_order(lar, 8);
        if w >= 8 {
            assert(f == 0 as real && w == 8);
            let slope = exponential::exp_slope(f);
            assert(0 as real * slope == 0 as real) by (nonlinear_arith);
            lemma_pow2_adds(149, 8);
            let ks = 128 as real * e * s;
            assert(ks * 1000 as real <= s) by (nonlinear_arith)
                requires
                    ks == 128 as real * e * s,
                    0x100_0000 as real * e == 1 as real,
                    s > 0 as real,
            ;
            assert(big * s == s) by (nonlinear_arith)
                requires
                    big == 1 as real,
            ;
        } else {
            rounding::lemma_pow2_order((w + 149) as nat, 156);
            lemma_pow2_adds(149, 7);
            let ks = 128 as real * e * s;
            assert(ks * 1000 as real <= s) by (nonlinear_arith)
                requires
                    ks == 128 as real * e * s,
                    0x100_0000 as real * e == 1 as real,
                    s > 0 as real,
            ;
            assert(big * s <= 2 as real * s) by (nonlinear_arith)
                requires
                    big <= 2 as real,
                    s > 0 as real,
            ;
        }
    }
    assert(p.value() <= 257 * unit);
    ratio::lemma_ratio_returns(p);
    let r = one.add(k).div(one.sub(k));
    // Both roundings together.
    let ks = 128 as real * e * s;
    assert(ks * 100_000 as real <= s) by (nonlinear_arith)
        requires
            ks == 128 as real * e * s,
            0x100_0000 as real * e == 1 as real,
            s > 0 as real,
    ;
    assert(big * s <= 2 as real * s) by (nonlinear_arith)
        requires
            big <= 2 as real,
            s > 0 as real,
    ;
    assert(1 as real / 10_000 as real * s * 10_000 as real == s) by (nonlinear_arith);
    accuracy::lemma_is_normal(r, 140);
    accuracy::lemma_log2_near(r, w, f, 1 as real / 10_000 as real);
    let v = math::log2(r);
    reals::lemma_num(v);
    reals::lemma_num(lar);
    let u = unit as real;
    let a = reals::num(v);
    let b = reals::num(lar);
    let d = 1000 as real * (a - b);
    assert(-u <= d * u <= u) by (nonlinear_arith)
        requires
            -(1 as real) <= d <= 1 as real,
            u > 0 as real,
    ;
    assert(d * u == 1000 as real * (a * u - b * u)) by (nonlinear_arith)
        requires
            d == 1000 as real * (a - b),
    ;
}

/// The codes of the two coefficients that are sent as log area ratios come
/// back as themselves.
pub proof fn law_ratio_codes_come_back(i: int, code: int)
    requires
        0 <= i < 2,
        0 <= code <= quant::levels(RC_BITS[i]),
    ensures
        quant::spec_rc_code(i, quant::spec_rc_from_code(i, code)) == code,
{
    let lo = Binary32::from_bits(MINUS_LAR_LIMIT);
    let hi = Binary32::from_bits(LAR_LIMIT);
    lemma_ranges();
    order::lemma_power(152);
    lemma2_to64();
    lemma_pow2_adds(149, 3);
    quant::lemma_symmetric(hi);
    lemma_restored(code, lo, hi, RC_BITS[i]);
    let v = quant::spec_dequantize(code, lo, hi, RC_BITS[i]);
    law_log_area_ratios_come_back(v);
    law_codes_are_robust(code, quant::spec_to_lar(quant::spec_from_lar(v)), lo, hi, RC_BITS[i]);
}

/// A number in [4, 8) is a multiple of 2^-21.
proof fn lemma_octave(x: Binary32) -> (m: int)
    requires
        x.finite(),
        4 * pow2(149) <= x.value() < 8 * pow2(149),
    ensures
        0x80_0000 <= m < 0x100_0000,
        x.value() == m * pow2(128),
{
    lemma2_to64();
    lemma_pow2_pos(149);
    lemma_pow2_adds(149, 2);
    lemma_pow2_adds(149, 3);
    order::lemma_power(151);
    order::lemma_power(152);
    let low = order::power(151);
    let high = order::power(152);
    if x.pattern() < low.pattern() {
        rounding::lemma_magnitude_order(low.pattern(), x.pattern());
    }
    if x.pattern() >= high.pattern() {
        rounding::lemma_magnitude_order(high.pattern(), x.pattern());
    }
    let fraction = (x.bits % 0x80_0000) as nat;
    Binary32::lemma_value_of(x, 129, fraction);
    (0x80_0000 + fraction) as int
}

/// The range of the pitch logarithms is regular.
pub proof fn lemma_pitch_range()
    ensures
        ({
            let lo = quant::log_period(PITCH_MIN as int);
            let hi = quant::log_period(PITCH_MAX as int);
            &&& regular(lo, hi)
            &&& 4 * pow2(149) <= lo.value()
            &&& hi.value() < 8 * pow2(149)
        }),
{
    let unit = pow2(149);
    lemma_unit();
    lemma2_to64();
    lemma_pow2_adds(149, 10);
    let lo = quant::log_period(PITCH_MIN as int);
    let hi = quant::log_period(PITCH_MAX as int);
    let a = Binary32::from_bits(0x41a0_0000);
    let b = Binary32::from_bits(0x431c_0000);
    Binary32::lemma_value_of(a, 131, 0x20_0000);
    Binary32::lemma_value_of(b, 134, 0x1c_0000);
    lemma_pow2_adds(130, 19);
    lemma_pow2_adds(133, 16);
    assert(a.value() == 20 * unit && b.value() == 156 * unit) by (nonlinear_arith)
        requires
            a.value() == 0xa0_0000 * pow2(130),
            b.value() == 0x9c_0000 * pow2(133),
            unit == pow2(130) * 0x8_0000,
            unit == pow2(133) * 0x1_0000,
    ;
    lemma_same(Binary32::of_int(20), a, 20);
    lemma_same(Binary32::of_int(156), b, 156);
    logarithm::lemma_log2(a);
    logarithm::lemma_log2(b);
    assert(logarithm::exponent(a) == 4 && logarithm::exponent(b) == 7);
    assert(lo == math::log2(a) && hi == math::log2(b));
    let ea = logarithm::exponent(a);
    let eb = logarithm::exponent(b);
    assert(ea * unit == 4 * unit && (ea + 1) * unit == 5 * unit) by (nonlinear_arith)
        requires
            ea == 4,
    ;
    assert(eb * unit == 7 * unit && (eb + 1) * unit == 8 * unit) by (nonlinear_arith)
        requires
            eb == 7,
    ;
    let m = lemma_octave(lo);
    let n = lemma_octave(hi);
    let scale = pow2(128);
    lemma_pow2_pos(128);
    lemma_pow2_adds(128, 21);
    let d = n - m;
    assert(hi.value() - lo.value() == d * scale) by (nonlinear_arith)
        requires
            hi.value() == n * scale,
            lo.value() == m * scale,
            d == n - m,
    ;
    assert(d > 0) by (nonlinear_arith)
        requires
            d * scale > 0,
            scale > 0,
    ;
    order::lemma_neg(lo);
    reveal(Binary32::spec_add);
    rounding::lemma_round_ratio_product(d as nat, 128);
    order::lemma_signed(false, rounding::round_ratio(d as nat * scale, 1));
    assert(d as nat * scale == (hi.value() - lo.value()) as nat);
}

/// Two numbers with one positive integer value are one number.
proof fn lemma_same(x: Binary32, y: Binary32, n: int)
    requires
        x == Binary32::of_int(n),
        0 < n <= 0xff_ffff,
        y.finite(),
        !y.negative(),
        y.value() == n * pow2(149),
    ensures
        x == y,
{
    lemma_pow2_pos(149);
    Binary32::lemma_of_int(n);
    assert(n * pow2(149) > 0) by (nonlinear_arith)
        requires
            n > 0,
            pow2(149) > 0,
    ;
    rounding::lemma_magnitude_order(x.pattern(), y.pattern());
    rounding::lemma_magnitude_order(y.pattern(), x.pattern());
}

/// The codes of the pitch logarithms come back as themselves.
pub proof fn law_pitch_levels_come_back(code: int)
    requires
        0 <= code <= 63,
    ensures
        ({
            let lo = quant::log_period(PITCH_MIN as int);
            let hi = quant::log_period(PITCH_MAX as int);
            let level = quant::spec_dequantize(code, lo, hi, quant::PITCH_BITS);
            quant::spec_quantize(level, lo, hi, quant::PITCH_BITS) == code
        }),
{
    lemma2_to64();
    lemma_pitch_range();
    law_codes_come_back(
        code,
        quant::log_period(PITCH_MIN as int),
        quant::log_period(PITCH_MAX as int),
        quant::PITCH_BITS,
    );
}

/// Every pitch of the range arrives within a twentieth of itself.
pub proof fn law_pitch_arrives_within_a_twentieth(pitch: int)
    requires
        PITCH_MIN <= pitch <= PITCH_MAX,
    ensures
        ({
            let off = quant::spec_pitch_from_code(quant::spec_pitch_code(pitch)) - pitch;
            -pitch <= 20 * off <= pitch
        }),
{
    let unit = pow2(149) as int;
    let lo = quant::log_period(PITCH_MIN as int);
    let hi = quant::log_period(PITCH_MAX as int);
    let x = Binary32::of_int(pitch);
    let l = quant::log_period(pitch);
    lemma_unit();
    lemma2_to64();
    Binary32::lemma_of_int(pitch);
    Binary32::lemma_of_int(PITCH_MIN as int);
    Binary32::lemma_of_int(PITCH_MAX as int);
    lemma_pitch_range();
    assert(unit <= pitch * unit <= 256 * unit) by (nonlinear_arith)
        requires
            1 <= pitch <= 256,
            unit > 0,
    ;
    lemma_pow2_adds(149, 8);
    order::lemma_power(157);
    accuracy::lemma_is_normal(x, 149);
    rounding::lemma_magnitude_order(order::power(157).pattern(), x.pattern());
    let least = Binary32::of_int(PITCH_MIN as int);
    let most = Binary32::of_int(PITCH_MAX as int);
    accuracy::lemma_is_normal(least, 149);
    accuracy::lemma_is_normal(most, 149);
    if pitch > PITCH_MIN {
        assert(pitch * unit >= 21 * unit) by (nonlinear_arith)
            requires
                pitch >= 21,
                unit > 0,
        ;
        accuracy::law_log2_rises(least, x);
    }
    if pitch < PITCH_MAX {
        assert(pitch * unit <= 155 * unit) by (nonlinear_arith)
            requires
                pitch <= 155,
                unit > 0,
        ;
        accuracy::law_log2_rises(x, most);
    }
    math::law_log2_is_moderate(x);
    law_values_come_back_within_half_a_step(l, lo, hi, quant::PITCH_BITS);
    let code = quant::spec_pitch_code(pitch);
    lemma_restored(code, lo, hi, quant::PITCH_BITS);
    let v = quant::spec_dequantize(code, lo, hi, quant::PITCH_BITS);
    accuracy::law_exp2_near_log2(x, v);
    let y = math::exp2(v);
    let half = Binary32::from_bits(math::HALF);
    order::lemma_power(148);
    lemma_pow2_unfold(149);
    assert(half == order::power(148));
    order::lemma_power(158);
    lemma_pow2_unfold(158);
    order::lemma_within_weaken(half, 148, 158);
    order::lemma_within_add(y, half, 158);
    order::lemma_add_error(y, half);
    let z = y.add(half);
    let kept = z.clamp(
        Binary32::of_int(PITCH_MIN as int),
        Binary32::of_int(PITCH_MAX as int),
    );
    let pu = pitch * unit;
    assert(20 * unit <= pu <= 156 * unit) by (nonlinear_arith)
        requires
            20 <= pitch <= 156,
            pu == pitch * unit,
            unit > 0,
    ;
    reveal(Binary32::whole_within);
    vstd::arithmetic::div_mod::lemma_fundamental_div_mod(kept.value(), unit);
    vstd::arithmetic::div_mod::lemma_mod_bound(kept.value(), unit);
    let back = kept.value() / unit;
    let bu = back * unit;
    assert(bu <= kept.value() < bu + unit) by (nonlinear_arith)
        requires
            kept.value() == unit * back + kept.value() % unit,
            0 <= kept.value() % unit < unit,
            bu == back * unit,
    ;
    assert(20 <= back <= 156) by (nonlinear_arith)
        requires
            bu == back * unit,
            bu <= kept.value() < bu + unit,
            20 * unit <= kept.value() <= 156 * unit,
            unit > 0,
    ;
    assert(kept.value() == kept.size());
    assert(kept.whole() == back);
    assert(-pu <= 20 * (bu - pu) <= pu);
    assert(-pitch <= 20 * (back - pitch) <= pitch) by (nonlinear_arith)
        requires
            -pu <= 20 * (bu - pu) <= pu,
            pu == pitch * unit,
            bu == back * unit,
            unit > 0,
    ;
}

/// The ranges of the coefficients, of their log area ratios and of the gain
/// logarithms are regular.
pub proof fn lemma_ranges()
    ensures
        regular(Binary32::from_bits(MINUS_RC_LIMIT), Binary32::from_bits(RC_LIMIT)),
        regular(Binary32::from_bits(MINUS_LAR_LIMIT), Binary32::from_bits(LAR_LIMIT)),
        regular(Binary32::from_bits(GAIN_MIN_LOG2), Binary32::from_bits(GAIN_MAX_LOG2)),
{
    let rc = Binary32::from_bits(RC_LIMIT);
    let lar = Binary32::from_bits(LAR_LIMIT);
    quant::lemma_symmetric(rc);
    quant::lemma_symmetric(lar);
    quant::lemma_gain_range();
    lemma_unit();
    lemma2_to64();
    lemma_pow2_adds(149, 10);
    lemma_pow2_unfold(149);
    order::lemma_power(148);
    order::lemma_power(149);
    order::lemma_power(152);
    lemma_pow2_adds(149, 3);
    assert(lar == order::power(152));
    rounding::lemma_magnitude_order(order::power(148).pattern(), rc.pattern());
    rounding::lemma_magnitude_order(rc.pattern(), order::power(149).pattern());
}

/// A coefficient that is sent directly has codes that come back as
/// themselves: what was received and is sent again arrives unchanged.
pub proof fn law_direct_codes_come_back(i: int, code: int)
    requires
        2 <= i < ORDER,
        0 <= code <= quant::levels(RC_BITS[i]),
    ensures
        quant::spec_rc_code(i, quant::spec_rc_from_code(i, code)) == code,
{
    lemma_ranges();
    law_codes_come_back(
        code,
        Binary32::from_bits(MINUS_RC_LIMIT),
        Binary32::from_bits(RC_LIMIT),
        RC_BITS[i],
    );
}

/// A coefficient that is sent directly, no larger than the limit, arrives
/// within half a step of what it was.
pub proof fn law_direct_coefficients_arrive_within_half_a_step(i: int, k: Binary32)
    requires
        2 <= i < ORDER,
        k.finite(),
        k.size() <= Binary32::from_bits(RC_LIMIT).size(),
    ensures
        ({
            let off = quant::spec_rc_from_code(i, quant::spec_rc_code(i, k)).value() - k.value();
            let span = 2 * Binary32::from_bits(RC_LIMIT).value();
            &&& 0x1000 * (off * quant::levels(RC_BITS[i])) <= 0x801 * span
            &&& -(0x1000 * (off * quant::levels(RC_BITS[i]))) <= 0x801 * span
        }),
{
    lemma_ranges();
    quant::lemma_symmetric(Binary32::from_bits(RC_LIMIT));
    law_values_come_back_within_half_a_step(
        k,
        Binary32::from_bits(MINUS_RC_LIMIT),
        Binary32::from_bits(RC_LIMIT),
        RC_BITS[i],
    );
}

/// What was received and is sent again arrives unchanged, but for the pitch
/// of a voiced frame: voicing, gain and every coefficient keep their codes.
pub proof fn law_received_frames_are_sent_alike(data: Seq<bool>, i: int)
    requires
        0 <= i < ORDER,
        data.len() >= 53,
    ensures
        ({
            let all = quant::widths();
            let again = quant::codes(quant::speech_from(data));
            &&& again[0] == bits::field_at(data, all, 0)
            &&& again[2] == bits::field_at(data, all, 2)
            &&& again[3 + i] == bits::field_at(data, all, 3 + i)
        }),
{
    let all = quant::widths();
    let s = quant::speech_from(data);
    quant::lemma_widths();
    lemma2_to64();
    bits::lemma_field_fits(data, all, 0);
    bits::lemma_field_fits(data, all, 2);
    bits::lemma_field_fits(data, all, 3 + i);
    law_gain_codes_come_back(bits::field_at(data, all, 2) as int);
    let code = bits::field_at(data, all, 3 + i) as int;
    assert(s.rc[i] == quant::spec_rc_from_code(i, code));
    if i < 2 {
        law_ratio_codes_come_back(i, code);
    } else {
        law_direct_codes_come_back(i, code);
    }
}

} // verus!
