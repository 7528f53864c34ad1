//! How parameters move between the frames that were sent.
//!
//! A decoder renders four points of the way from one frame's parameters to
//! the next one's, and half rate places the spectrum that was not sent in the
//! middle. The laws here say where those points lie, as real numbers.
use crate::binary32::Binary32;
use crate::exponential;
use crate::lpc10::fading;
use crate::lpc10::half;
use crate::lpc10::half::HalfVoice;
use crate::lpc10::synth;
use crate::lpc10::synth::SUBFRAMES;
use crate::lpc10::{Speech, ORDER};
use crate::math;
use crate::order;
use crate::reals;
use vstd::arithmetic::power2::*;
use vstd::prelude::*;

verus! {

/// A sum, of either sign.
pub proof fn lemma_sum(a: Binary32, b: Binary32)
    requires
        a.finite(),
        b.finite(),
        a.add(b).finite(),
    ensures
        reals::near(
            reals::num(a.add(b)),
            reals::num(a) + reals::num(b),
            reals::eps() * reals::size(reals::num(a) + reals::num(b)),
        ),
{
    reals::lemma_num_add(a, b);
    let s = reals::num(a) + reals::num(b);
    let e = reals::eps();
    assert(e * (-s) == -(e * s)) by (nonlinear_arith);
}

/// A constant as a real.
proof fn lemma_half()
    ensures
        Binary32::from_bits(math::HALF).finite(),
        2 as real * reals::num(Binary32::from_bits(math::HALF)) == 1 as real,
        order::within(Binary32::from_bits(math::HALF), 148),
{
    lemma2_to64();
    exponential::lemma_constant(math::HALF, 126, 0, 24);
    order::lemma_within_bits(Binary32::from_bits(math::HALF), 148);
    let c = reals::num(Binary32::from_bits(math::HALF));
    assert(2 as real * c == 1 as real) by (nonlinear_arith)
        requires
            c * 0x100_0000 as real == 0x80_0000 as real,
    ;
}

/// Half the sum of two coefficients.
proof fn lemma_midpoint(a: Binary32, b: Binary32)
    requires
        a.finite() && a.size() < pow2(149),
        b.finite() && b.size() < pow2(149),
    ensures
        reals::near(
            2 as real * reals::num(Binary32::from_bits(math::HALF).mul(a.add(b))),
            reals::num(a) + reals::num(b),
            8 as real * reals::eps(),
        ),
{
    let half = Binary32::from_bits(math::HALF);
    reals::lemma_eps();
    lemma_half();
    order::lemma_within_add(a, b, 149);
    let sum = a.add(b);
    order::lemma_within_mul(half, sum, 148, 150);
    lemma_sum(a, b);
    reals::lemma_num_product(half, sum);
    reals::lemma_num_abs(a);
    reals::lemma_num_abs(b);
    reals::lemma_num_order(a.abs(), 1);
    reals::lemma_num_order(b.abs(), 1);
    let s = reals::num(a) + reals::num(b);
    let h = reals::num(half);
    let x = reals::num(sum);
    reals::lemma_eps_of(reals::size(s));
    reals::lemma_eps_of(reals::size(h * x));
    assert((2 as real * h) * x == 2 as real * (h * x)) by (nonlinear_arith);
    assert(1 as real * x == x) by (nonlinear_arith);
}

/// The spectrum that half rate does not send lies halfway, as real numbers:
/// twice each of its coefficients is, but for rounding, the sum of the last
/// superframe's and this one's.
pub proof fn law_unsent_spectrum_is_halfway(v: HalfVoice, bits: Seq<bool>, i: int)
    requires
        v.sound(),
        0 <= i < ORDER,
    ensures
        reals::near(
            2 as real * reals::num(v.first(bits).rc[i]),
            reals::num(v.spectrum[i]) + reals::num(half::speech_from(bits, 1).rc[i]),
            8 as real * reals::eps(),
        ),
{
    half::law_every_pattern_is_a_sound_superframe(v, bits);
    let a = v.spectrum[i];
    let b = half::speech_from(bits, 1).rc[i];
    assert(a.finite() && a.size() < pow2(149));
    assert(b.finite() && b.size() < pow2(149));
    lemma_midpoint(a, b);
}

/// From superframe to superframe: whatever came before, the first frame of the
/// second of two superframes has its spectrum halfway between those that the
/// two sent, and its voicing, pitch and level as sent for it; the second frame
/// is as sent.
pub proof fn law_superframes_in_a_row(v: HalfVoice, one: Seq<bool>, two: Seq<bool>, i: int)
    requires
        v.sound(),
        0 <= i < ORDER,
    ensures
        ({
            let w = v.after(one);
            let first = w.first(two);
            let middle = w.voice.after(first);
            &&& reals::near(
                2 as real * reals::num(first.rc[i]),
                reals::num(half::speech_from(one, 1).rc[i]) + reals::num(
                    half::speech_from(two, 1).rc[i],
                ),
                8 as real * reals::eps(),
            )
            &&& first.voiced == half::speech_from(two, 0).voiced
            &&& first.pitch == half::speech_from(two, 0).pitch
            &&& first.gain == half::speech_from(two, 0).gain
            &&& w.samples(two) == w.voice.samples(first) + middle.samples(
                half::speech_from(two, 1),
            )
            &&& w.after(two).voice == middle.after(half::speech_from(two, 1))
        }),
{
    half::law_every_pattern_is_a_sound_superframe(v, one);
    law_unsent_spectrum_is_halfway(v.after(one), two, i);
}

/// How far into a frame the middle of a subframe lies: an eighth, three, five
/// and seven eighths.
pub proof fn law_ramp_points(subframe: int)
    requires
        0 <= subframe < SUBFRAMES,
    ensures
        reals::near(
            8 as real * reals::num(synth::ramp(subframe)),
            (2 * subframe + 1) as real,
            8 as real * reals::eps() * (2 * subframe + 1) as real,
        ),
{
    let k = Binary32::of_int(subframe);
    let half = Binary32::from_bits(math::HALF);
    let four = Binary32::from_bits(synth::FOUR);
    reals::lemma_eps();
    lemma_half();
    lemma2_to64();
    lemma_pow2_pos(149);
    Binary32::lemma_of_int(subframe);
    reals::lemma_num_order(k, subframe);
    exponential::lemma_constant(synth::FOUR, 129, 0, 21);
    let f = reals::num(four);
    assert(f == 4 as real) by (nonlinear_arith)
        requires
            f * 0x20_0000 as real == 0x80_0000 as real,
    ;
    synth::lemma_ramp(subframe);
    lemma_ramp_parts(subframe);
    let sum = k.add(half);
    lemma_sum(k, half);
    reals::lemma_num(sum);
    reals::lemma_num_div(sum, four);
    let s = reals::num(k) + reals::num(half);
    reals::lemma_eps_of(s);
    let x = reals::num(sum);
    let q = x / f;
    assert(q == x / 4 as real);
    reals::lemma_eps_of(q);
    let n = (2 * subframe + 1) as real;
    reals::lemma_eps_of(n);
    assert(8 as real * reals::eps() * n == 8 as real * (reals::eps() * n)) by (nonlinear_arith);
}

/// The parts of a ramp point.
proof fn lemma_ramp_parts(subframe: int)
    requires
        0 <= subframe < SUBFRAMES,
    ensures
        ({
            let sum = Binary32::of_int(subframe).add(Binary32::from_bits(math::HALF));
            &&& sum.finite()
            &&& sum.value() >= 0
        }),
{
    let k = Binary32::of_int(subframe);
    let half = Binary32::from_bits(math::HALF);
    lemma_half();
    lemma_pow2_pos(149);
    Binary32::lemma_of_int(subframe);
    order::lemma_power(148);
    lemma2_to64();
    lemma_pow2_adds(149, 2);
    assert(0 <= subframe * pow2(149) <= 4 * pow2(149)) by (nonlinear_arith)
        requires
            0 <= subframe <= 4,
    ;
    crate::rounding::lemma_pow2_order(148, 151);
    order::lemma_within_weaken(half, 148, 151);
    order::lemma_within_add(k, half, 151);
    order::lemma_add(k, half, half);
    lemma_pow2_pos(148);
    assert(half == order::power(148));
}

/// A point on the way from one number to another, against the exact one.
proof fn lemma_point(from: Binary32, to: Binary32, subframe: int)
    requires
        order::within(from, 165),
        order::within(to, 165),
        0 <= subframe < SUBFRAMES,
    ensures
        ({
            let r = synth::between(from, to, synth::ramp(subframe));
            let n = (2 * subframe + 1) as real;
            let both = reals::size(reals::num(from)) + reals::size(reals::num(to));
            reals::near(
                8 as real * (reals::num(r) - reals::num(from)),
                n * (reals::num(to) - reals::num(from)),
                200 as real * (reals::eps() * both) + 16 as real * reals::ratio(
                    1,
                    0x1_0000_0000_0000,
                ),
            )
        }),
{
    let t = synth::ramp(subframe);
    let e = reals::eps();
    reals::lemma_eps();
    law_ramp_points(subframe);
    synth::lemma_ramp(subframe);
    order::lemma_neg(from);
    order::lemma_within_add(to, from.neg(), 165);
    let d = to.sub(from);
    reals::lemma_num_difference(to, from);
    reals::lemma_num_order(t, 0);
    reals::lemma_num_order(t, 1);
    order::lemma_power(149);
    assert(order::within(t, 149));
    order::lemma_within_mul(t, d, 149, 166);
    let p = t.mul(d);
    reals::lemma_num_product(t, d);
    order::lemma_within_weaken(from, 165, 166);
    order::lemma_within_add(from, p, 166);
    lemma_sum(from, p);
    let a = reals::num(from);
    let b = reals::num(to);
    let dr = reals::num(d);
    let tr = reals::num(t);
    let n = (2 * subframe + 1) as real;
    let both = reals::size(a) + reals::size(b);
    reals::lemma_eps_of(both);
    reals::lemma_eps_of(reals::size(b - a));
    // The step.
    let td = tr * dr;
    reals::lemma_size_product(tr, dr);
    let sd = reals::size(dr);
    assert(tr * sd <= sd) by (nonlinear_arith)
        requires
            tr <= 1 as real,
            sd >= 0 as real,
    ;
    reals::lemma_eps_of(reals::size(td));
    // Eight times it, against the exact one.
    let off = 8 as real * tr - n;
    let gap = dr - (b - a);
    assert((8 as real * tr - n) * dr == 8 as real * (tr * dr) - n * dr) by (nonlinear_arith);
    assert(n * (dr - (b - a)) == n * dr - n * (b - a)) by (nonlinear_arith);
    reals::lemma_eps_of(n);
    assert(8 as real * e * n == 8 as real * (e * n)) by (nonlinear_arith);
    let en = 8 as real * (e * n);
    lemma_limits(off, dr, en, 3 as real * both);
    lemma_limits(n, gap, 7 as real, e * both);
    assert((8 as real * (e * n)) * (3 as real * both) == 24 as real * (n * (e * both)))
        by (nonlinear_arith);
    let eb = e * both;
    assert(n * eb <= 7 as real * eb) by (nonlinear_arith)
        requires
            n <= 7 as real,
            eb >= 0 as real,
    ;
    reals::lemma_eps_of(reals::size(a + reals::num(p)));
}

/// A product of two bounded numbers.
pub proof fn lemma_limits(x: real, y: real, a: real, b: real)
    requires
        reals::size(x) <= a,
        reals::size(y) <= b,
    ensures
        -(a * b) <= x * y <= a * b,
{
    crate::lpc10::normal::lemma_limits(x, y, a, b);
    assert(b * a == a * b) by (nonlinear_arith);
}

/// A subframe's coefficients lie an eighth, three, five and seven eighths of
/// the way from the previous frame's to this one's, as real numbers and but
/// for rounding.
pub proof fn law_coefficients_ramp(
    from: Seq<Binary32>,
    to: Seq<Binary32>,
    subframe: int,
    i: int,
)
    requires
        Speech::stable(from),
        Speech::stable(to),
        0 <= subframe < SUBFRAMES,
        0 <= i < ORDER,
    ensures
        ({
            let k = synth::subframe_rc(from, to, synth::ramp(subframe))[i];
            reals::near(
                8 as real * (reals::num(k) - reals::num(from[i])),
                (2 * subframe + 1) as real * (reals::num(to[i]) - reals::num(from[i])),
                410 as real * reals::eps(),
            )
        }),
{
    let a = from[i];
    let b = to[i];
    assert(a.finite() && a.size() < pow2(149));
    assert(b.finite() && b.size() < pow2(149));
    order::lemma_within_weaken(a, 149, 165);
    order::lemma_within_weaken(b, 149, 165);
    lemma_point(a, b, subframe);
    reals::lemma_eps();
    reals::lemma_num_abs(a);
    reals::lemma_num_abs(b);
    reals::lemma_num_order(a.abs(), 1);
    reals::lemma_num_order(b.abs(), 1);
    let both = reals::size(reals::num(a)) + reals::size(reals::num(b));
    reals::lemma_eps_of(both);
}

/// The level of a subframe lies as far on the way from the previous frame's
/// to this one's.
pub proof fn law_level_ramps(previous: Speech, speech: Speech, subframe: int)
    requires
        fading::sendable(previous.gain),
        fading::sendable(speech.gain),
        0 <= subframe < SUBFRAMES,
    ensures
        ({
            let g = synth::shape(previous, speech, subframe).gain;
            let a = reals::num(previous.gain);
            let b = reals::num(speech.gain);
            reals::near(
                8 as real * (reals::num(g) - a),
                (2 * subframe + 1) as real * (b - a),
                200 as real * (reals::eps() * (a + b)) + 16 as real * reals::ratio(
                    1,
                    0x1_0000_0000_0000,
                ),
            )
        }),
{
    lemma_point(previous.gain, speech.gain, subframe);
    reals::lemma_num(previous.gain);
    reals::lemma_num(speech.gain);
}

/// A half-rate stream starts from rest, with a flat spectrum to interpolate
/// from.
pub proof fn law_half_rate_streams_start_from_rest(i: int)
    requires
        0 <= i < ORDER,
    ensures
        HalfVoice::start().voice == synth::Voice::start(),
        HalfVoice::start().spectrum.len() == ORDER,
        HalfVoice::start().spectrum[i].value() == 0,
{
    crate::rounding::lemma_magnitude_zero();
}

} // verus!
