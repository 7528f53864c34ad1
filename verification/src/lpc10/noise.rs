//! What the noise is: evenly spread, and of the level's energy.
use crate::binary32::Binary32;
use crate::exponential;
use crate::lpc10::excitation;
use crate::lpc10::fading;
use crate::lpc10::motion;
use crate::lpc10::synth;
use crate::lpc10::synth::{Voice, SUBFRAMES};
use crate::lpc10::Speech;
use crate::math;
use crate::order;
use crate::reals;
use crate::rounding;
use vstd::arithmetic::power2::*;
use vstd::prelude::*;

verus! {

/// Its share of the range of states.
#[verifier::spinoff_prover]
proof fn lemma_state_share(a: Binary32)
    requires
        a.finite(),
        a.value() >= 0,
        a.div(Binary32::from_bits(synth::NOISE_RANGE)).finite(),
    ensures
        ({
            let share = reals::num(a.div(Binary32::from_bits(synth::NOISE_RANGE)));
            reals::near(
                0x1_0000_0000 as real * share,
                reals::num(a),
                reals::eps() * reals::num(a) + 1 as real / 65536 as real,
            )
        }),
{
    let range = Binary32::from_bits(synth::NOISE_RANGE);
    lemma2_to64();
    lemma_pow2_adds(32, 149);
    lemma_pow2_pos(149);
    order::lemma_power(181);
    assert(range == order::power(181));
    reals::lemma_num_order(range, 0x1_0000_0000);
    reals::lemma_num_quotient(a, range);
    reals::lemma_num(a);
    reals::lemma_eps();
    let q = reals::num(a.div(range));
    let w = reals::num(range);
    let t = reals::ratio(1, 0x1_0000_0000_0000);
    assert(q * w == 0x1_0000_0000 as real * q && t * w == 0x1_0000_0000 as real * t)
        by (nonlinear_arith)
        requires
            w == 0x1_0000_0000 as real,
    ;
}

/// A generator's state as a number.
#[verifier::spinoff_prover]
proof fn lemma_of_state(x: u32)
    ensures
        Binary32::of_int(x as int).finite(),
        Binary32::of_int(x as int).value() >= 0,
        order::within(Binary32::of_int(x as int), 181),
        reals::near(
            reals::num(Binary32::of_int(x as int)),
            x as real,
            reals::eps() * x as real + reals::ratio(1, 0x1_0000_0000_0000),
        ),
{
    let n = x as int;
    let unit = pow2(149);
    let a = Binary32::of_int(n);
    lemma_pow2_pos(149);
    lemma2_to64();
    lemma_pow2_adds(32, 149);
    order::lemma_power(181);
    reveal(Binary32::of_int);
    let m = (n * unit) as nat;
    assert(0 <= n * unit <= 0x1_0000_0000 * unit) by (nonlinear_arith)
        requires
            0 <= n <= 0x1_0000_0000,
    ;
    let range = order::power(181);
    order::lemma_rounded(false, m, 1, range);
    order::lemma_finite(a, range);
    let bits = rounding::round_ratio(m, 1);
    order::lemma_signed(false, bits);
    rounding::lemma_round_error_any(m, 1);
    assert(rounding::magnitude(bits) * 1 == rounding::magnitude(bits)) by (nonlinear_arith);
    reals::lemma_unit();
    reals::lemma_num(a);
    reals::lemma_product(n, unit as int);
    lemma_unit_out(reals::num(a), n as real, unit as real);
}

/// A rounding in units of value, as one of reals.
#[verifier::spinoff_prover]
proof fn lemma_unit_out(v: real, w: real, u: real)
    requires
        u >= 0x1_0000_0000_0000 as real,
        0x100_0000 as real * (v * u) <= 0x100_0001 as real * (w * u) + 0x100_0000 as real,
        0x100_0000 as real * (v * u) + 0x100_0000 as real >= 0xff_ffff as real * (w * u),
    ensures
        reals::near(v, w, reals::eps() * w + reals::ratio(1, 0x1_0000_0000_0000)),
{
    let t = reals::ratio(1, 0x1_0000_0000_0000);
    reals::lemma_eps();
    reals::lemma_eps_of(w);
    lemma_at_least_one(t, u);
    let up = 0x100_0000 as real * v - 0x100_0001 as real * w - 0x100_0000 as real * t;
    let down = 0xff_ffff as real * w - 0x100_0000 as real * v - 0x100_0000 as real * t;
    lemma_spread_unit(v, w, t, u);
    excitation::lemma_not_positive(up, u);
    excitation::lemma_not_positive(down, u);
}

#[verifier::spinoff_prover]
proof fn lemma_spread_unit(v: real, w: real, t: real, u: real)
    ensures
        (0x100_0000 as real * v - 0x100_0001 as real * w - 0x100_0000 as real * t) * u
            == 0x100_0000 as real * (v * u) - 0x100_0001 as real * (w * u) - 0x100_0000 as real * (t
            * u),
        (0xff_ffff as real * w - 0x100_0000 as real * v - 0x100_0000 as real * t) * u
            == 0xff_ffff as real * (w * u) - 0x100_0000 as real * (v * u) - 0x100_0000 as real * (t
            * u),
{
    assert((0x100_0000 as real * v - 0x100_0001 as real * w - 0x100_0000 as real * t) * u
        == 0x100_0000 as real * (v * u) - 0x100_0001 as real * (w * u) - 0x100_0000 as real * (t
        * u)) by (nonlinear_arith);
    assert((0xff_ffff as real * w - 0x100_0000 as real * v - 0x100_0000 as real * t) * u
        == 0xff_ffff as real * (w * u) - 0x100_0000 as real * (v * u) - 0x100_0000 as real * (t
        * u)) by (nonlinear_arith);
}

#[verifier::spinoff_prover]
proof fn lemma_at_least_one(t: real, u: real)
    requires
        0x1_0000_0000_0000 as real * t == 1 as real,
        u >= 0x1_0000_0000_0000 as real,
    ensures
        t * u >= 1 as real,
{
    let d = u - 0x1_0000_0000_0000 as real;
    exponential::lemma_product_sign(t, d);
    assert(t * (u - 0x1_0000_0000_0000 as real) == t * u - 0x1_0000_0000_0000 as real * t)
        by (nonlinear_arith);
}

/// The share of a state, to a few roundings.
#[verifier::spinoff_prover]
proof fn lemma_share_of_state(x: u32)
    ensures
        ({
            let share = Binary32::of_int(x as int).div(Binary32::from_bits(synth::NOISE_RANGE));
            &&& order::within(share, 149)
            &&& reals::num(share) >= 0 as real
            &&& reals::near(
                0x1_0000_0000 as real * reals::num(share),
                x as real,
                600 as real,
            )
        }),
{
    let a = Binary32::of_int(x as int);
    let range = Binary32::from_bits(synth::NOISE_RANGE);
    reals::lemma_eps();
    lemma_of_state(x);
    order::lemma_power(181);
    lemma_pow2_pos(181);
    assert(range == order::power(181));
    order::lemma_within_div(a, range, 181, 181);
    lemma_state_share(a);
    let share = a.div(range);
    reals::lemma_eps_of(x as real);
    reals::lemma_eps_of(reals::num(a));
    reals::lemma_num(a);
    if a.negative() {
        rounding::lemma_magnitude_zero();
        assert(a.size() == 0);
        let none = Binary32::from_bits(math::ZERO);
        assert(a.size() * pow2(149) == 0 && none.size() * range.size() == 0) by (nonlinear_arith)
            requires
                a.size() == 0,
                none.size() == 0,
        ;
        order::lemma_div(a, range, none);
    } else {
        order::lemma_div(a, range, a);
    }
    reals::lemma_num(share);
}

/// Doubled, and moved to [-1, 1).
#[verifier::spinoff_prover]
proof fn lemma_spread_evenly(share: Binary32, s: real)
    requires
        order::within(share, 149),
        reals::num(share) == s,
        0 as real <= s,
    ensures
        ({
            let moved = share.mul(Binary32::from_bits(math::TWO)).sub(
                Binary32::from_bits(math::ONE),
            );
            &&& moved.finite()
            &&& reals::near(reals::num(moved), 2 as real * s - 1 as real, 5 as real * reals::eps())
        }),
{
    let one = Binary32::from_bits(math::ONE);
    let two = Binary32::from_bits(math::TWO);
    reals::lemma_eps();
    lemma_pow2_pos(149);
    lemma_pow2_unfold(150);
    order::lemma_power(149);
    order::lemma_power(150);
    assert(two == order::power(150) && one == order::power(149));
    reals::lemma_num_order(one, 1);
    reals::lemma_num_order(two, 2);
    reals::lemma_num_order(share, 1);
    order::lemma_within_mul(share, two, 149, 150);
    let doubled = share.mul(two);
    reals::lemma_num_product(share, two);
    let tr = reals::num(two);
    assert(s * tr == 2 as real * s) by (nonlinear_arith)
        requires
            tr == 2 as real,
    ;
    reals::lemma_eps_of(reals::size(s * tr));
    order::lemma_neg(one);
    order::lemma_within_weaken(one, 149, 150);
    order::lemma_within_add(doubled, one.neg(), 150);
    reals::lemma_num_difference(doubled, one);
    reals::lemma_eps_of(reals::size(reals::num(doubled) - 1 as real));
}

/// The highest noise level.
#[verifier::spinoff_prover]
proof fn lemma_top()
    ensures
        exponential::constant(synth::NOISE_TOP) * 0x100_0000 as real == 0xff_fffe as real,
{
    lemma2_to64();
    exponential::lemma_constant(synth::NOISE_TOP, 126, 0x7f_fffe, 24);
}

/// The square root of three.
#[verifier::spinoff_prover]
proof fn lemma_scale()
    ensures
        Binary32::from_bits(synth::NOISE_SCALE).finite(),
        exponential::constant(synth::NOISE_SCALE) * 0x80_0000 as real == 0xdd_b3d7 as real,
{
    lemma2_to64();
    exponential::lemma_constant(synth::NOISE_SCALE, 127, 0x5d_b3d7, 23);
}

/// From the parts to the whole.
#[verifier::spinoff_prover]
proof fn lemma_near_top(m: real, s: real, r: real, x: real, l: real, plain: bool)
    requires
        plain ==> l == m,
        !plain ==> m >= 1 as real && l * 0x100_0000 as real == 0xff_fffe as real,
        reals::near(m, 2 as real * s - 1 as real, 5 as real * reals::eps()),
        reals::near(0x1_0000_0000 as real * s, x, 600 as real),
        r * 0x8000_0000 as real == x,
        x < 0x1_0000_0000 as real,
        0x100_0000 as real * reals::eps() == 1 as real,
    ensures
        reals::near(l, r - 1 as real, 12 as real * reals::eps()),
{
}

/// Noise as a real: the generator's state, spread evenly over [-1, 1).
#[verifier::spinoff_prover]
pub proof fn law_noise_is_uniform(x: u32)
    ensures
        reals::near(
            reals::num(synth::noise_level(x)),
            reals::ratio(x as int, 0x8000_0000) - 1 as real,
            12 as real * reals::eps(),
        ),
{
    let share = Binary32::of_int(x as int).div(Binary32::from_bits(synth::NOISE_RANGE));
    let moved = share.mul(Binary32::from_bits(math::TWO)).sub(Binary32::from_bits(math::ONE));
    let one = Binary32::from_bits(math::ONE);
    reals::lemma_eps();
    lemma_share_of_state(x);
    lemma_spread_evenly(share, reals::num(share));
    reals::lemma_ratio(x as int, 0x8000_0000);
    // The top.
    lemma_top();
    order::lemma_power(149);
    assert(one == order::power(149));
    reals::lemma_num_order(moved, 1);
    let level = synth::noise_level(x);
    let m = reals::num(moved);
    let s = reals::num(share);
    let r = reals::ratio(x as int, 0x8000_0000);
    lemma_near_top(m, s, r, x as real, reals::num(level), level == moved);
}

/// A noise sample: the noise times the level, times the square root of three,
/// which gives uniform noise the level's energy.
#[verifier::spinoff_prover]
pub proof fn law_noise_has_the_level(v: Voice, previous: Speech, speech: Speech, subframe: int)
    requires
        !speech.voiced,
        fading::sendable(previous.gain),
        fading::sendable(speech.gain),
        0 <= subframe < SUBFRAMES,
    ensures
        ({
            let s = synth::shape(previous, speech, subframe);
            let g = reals::num(s.gain);
            let noise = reals::ratio(synth::xorshift(v.rng) as int, 0x8000_0000) - 1 as real;
            reals::near(
                10_000_000 as real * reals::num(v.excitation(s)),
                17_320_508 as real * (g * noise),
                60 as real * g + 1 as real / 1000 as real,
            )
        }),
{
    let s = synth::shape(previous, speech, subframe);
    let scale = Binary32::from_bits(synth::NOISE_SCALE);
    let x = synth::xorshift(v.rng);
    let n = synth::noise_level(x);
    let g = s.gain;
    let e = reals::eps();
    reals::lemma_eps();
    synth::law_noise_range(x);
    law_noise_is_uniform(x);
    fading::lemma_between_levels(previous.gain, speech.gain, subframe);
    order::lemma_within_mul(n, g, 149, 165);
    order::lemma_within_bits(scale, 150);
    let p = n.mul(g);
    order::lemma_within_mul(p, scale, 165, 150);
    let c = reals::num(scale);
    lemma_scale();
    reals::lemma_num_product(n, g);
    reals::lemma_num_product(p, scale);
    let nr = reals::num(n);
    let gr = reals::num(g);
    reals::lemma_num(g);
    reals::lemma_ratio(x as int, 0x8000_0000);
    let noise = reals::ratio(x as int, 0x8000_0000) - 1 as real;
    // Noise times level.
    let ng = nr * gr;
    reals::lemma_size_product(nr, gr);
    let sn = reals::size(nr);
    assert(sn <= 2 as real);
    assert(sn * gr <= 2 as real * gr) by (nonlinear_arith)
        requires
            sn <= 2 as real,
            gr >= 0 as real,
    ;
    reals::lemma_eps_of(reals::size(ng));
    reals::lemma_eps_of(gr);
    let off = nr - noise;
    assert((nr - noise) * gr == nr * gr - noise * gr) by (nonlinear_arith);
    assert(noise * gr == gr * noise) by (nonlinear_arith);
    let lim = 12 as real * e;
    motion::lemma_limits(off, gr, lim, gr);
    assert((12 as real * e) * gr == 12 as real * (e * gr)) by (nonlinear_arith);
    // Times the scale.
    let pr = reals::num(p);
    let pc = pr * c;
    let exact = gr * noise;
    let d = pr - exact;
    assert((pr - exact) * c == pr * c - exact * c) by (nonlinear_arith);
    let room = 15 as real * (e * gr) + reals::ratio(1, 0x1_0000_0000_0000);
    motion::lemma_limits(d, c, room, 2 as real);
    reals::lemma_eps_of(reals::size(pc));
    // The scale is the square root of three to seven places.
    let w = 10_000_000 as real * c - 17_320_508 as real;
    assert((10_000_000 as real * c - 17_320_508 as real) * exact == 10_000_000 as real * (exact * c)
        - 17_320_508 as real * exact) by (nonlinear_arith);
    reals::lemma_size_product(gr, noise);
    let sm = reals::size(noise);
    assert(gr * sm <= gr) by (nonlinear_arith)
        requires
            sm <= 1 as real,
            gr >= 0 as real,
    ;
    motion::lemma_limits(w, exact, 1 as real, gr);
    assert(1 as real * gr == gr) by (nonlinear_arith);
}

} // verus!
