//! The window over a frame and over the lags, as reals.
use crate::binary32::Binary32;
use crate::exponential;
use crate::lpc10::analysis;
use crate::lpc10::analysis::{
    HAMMING_BASE, HAMMING_SCALE, HAMMING_SWING, LAG_WINDOW, LOG2_E, MINUS_HALF, WHITE_NOISE,
};
use crate::lpc10::likeness;
use crate::lpc10::motion;
use crate::lpc10::soundness;
use crate::lpc10::{FRAME_SAMPLES, ORDER};
use crate::math;
use crate::order;
use crate::reals;
use vstd::arithmetic::power2::*;
use vstd::prelude::*;

verus! {

#[verifier::spinoff_prover]
proof fn lemma_base()
    ensures
        exponential::constant(HAMMING_BASE) * 0x100_0000 as real == 0x8a_3d71 as real,
        Binary32::from_bits(HAMMING_BASE).finite(),
{
    lemma2_to64();
    exponential::lemma_constant(HAMMING_BASE, 126, 0x0a_3d71, 24);
}

#[verifier::spinoff_prover]
proof fn lemma_swing()
    ensures
        exponential::constant(HAMMING_SWING) * 0x200_0000 as real == 0xeb_851f as real,
        Binary32::from_bits(HAMMING_SWING).finite(),
{
    lemma2_to64();
    exponential::lemma_constant(HAMMING_SWING, 125, 0x6b_851f, 25);
}

#[verifier::spinoff_prover]
proof fn lemma_scale()
    ensures
        exponential::constant(HAMMING_SCALE) * 0x1000_0000 as real == 0x8f_c6b1 as real,
        Binary32::from_bits(HAMMING_SCALE).finite(),
        Binary32::from_bits(HAMMING_SCALE).value() > 0,
{
    lemma2_to64();
    exponential::lemma_constant(HAMMING_SCALE, 122, 0x0f_c6b1, 28);
}

#[verifier::spinoff_prover]
proof fn lemma_tau()
    ensures
        exponential::constant(math::TAU) * 0x20_0000 as real == 0xc9_0fdb as real,
{
    lemma2_to64();
    exponential::lemma_constant(math::TAU, 129, 0x49_0fdb, 21);
}

/// The angle of the window at sample `i`.
pub open spec fn angle(i: int) -> Binary32 {
    Binary32::of_int(i).mul(Binary32::from_bits(HAMMING_SCALE))
}

/// The window over a frame is 0.54 less 0.46 times the cosine of an angle that
/// turns once from the first sample to the last.
#[verifier::spinoff_prover]
pub proof fn law_window_is_hamming(i: int)
    requires
        0 <= i < FRAME_SAMPLES,
    ensures
        angle(i).finite(),
        reals::near(
            179 as real * reals::num(angle(i)),
            i as real * exponential::constant(math::TAU),
            1 as real / 1000 as real,
        ),
        reals::near(
            100 as real * reals::num(analysis::window(i)),
            54 as real - 46 as real * reals::num(math::cos(angle(i))),
            1 as real / 10_000 as real,
        ),
{
    let base = Binary32::from_bits(HAMMING_BASE);
    let swing = Binary32::from_bits(HAMMING_SWING);
    reals::lemma_eps();
    lemma_angle(i);
    let c = math::cos(angle(i));
    math::law_cos_range(angle(i));
    soundness::lemma_window(i);
    lemma_base();
    lemma_swing();
    reals::lemma_num_abs(c);
    reals::lemma_num_order(c.abs(), 1);
    order::lemma_within_bits(swing, 149);
    order::lemma_within_bits(base, 149);
    order::lemma_within_mul(swing, c, 149, 149);
    let p = swing.mul(c);
    reals::lemma_num_product(swing, c);
    order::lemma_neg(p);
    order::lemma_within_add(base, p.neg(), 149);
    reals::lemma_num_difference(base, p);
    let cr = reals::num(c);
    let sr = reals::num(swing);
    motion::lemma_limits(sr, cr, 1 as real, 1 as real);
    reals::lemma_eps_of(reals::size(sr * cr));
    reals::lemma_eps_of(reals::size(reals::num(base) - reals::num(p)));
    // The swing is 0.46.
    let off = 100 as real * sr - 46 as real;
    assert((100 as real * sr - 46 as real) * cr == 100 as real * (sr * cr) - 46 as real * cr)
        by (nonlinear_arith);
    motion::lemma_limits(off, cr, 1 as real / 100_000 as real, 1 as real);
}

/// The angle, against the exact one.
#[verifier::spinoff_prover]
proof fn lemma_angle(i: int)
    requires
        0 <= i < FRAME_SAMPLES,
    ensures
        angle(i).finite(),
        reals::near(
            179 as real * reals::num(angle(i)),
            i as real * exponential::constant(math::TAU),
            1 as real / 1000 as real,
        ),
{
    let n = Binary32::of_int(i);
    let s = Binary32::from_bits(HAMMING_SCALE);
    reals::lemma_eps();
    Binary32::lemma_of_int(i);
    lemma2_to64();
    lemma_pow2_pos(149);
    lemma_pow2_adds(8, 149);
    let unit = pow2(149);
    assert(0 <= i * unit <= 256 * unit) by (nonlinear_arith)
        requires
            0 <= i <= 256,
    ;
    order::lemma_within_bits(s, 149);
    order::lemma_within_mul(n, s, 157, 149);
    reals::lemma_num_order(n, i);
    reals::lemma_num_product(n, s);
    lemma_scale();
    lemma_tau();
    let c = reals::num(s);
    let t = exponential::constant(math::TAU);
    let r = i as real;
    motion::lemma_limits(r, c, 180 as real, 1 as real / 25 as real);
    reals::lemma_eps_of(reals::size(r * c));
    let off = 179 as real * c - t;
    assert(r * (179 as real * c - t) == 179 as real * (r * c) - r * t) by (nonlinear_arith);
    motion::lemma_limits(r, off, 180 as real, 1 as real / 1_000_000 as real);
}

#[verifier::spinoff_prover]
proof fn lemma_white()
    ensures
        exponential::constant(WHITE_NOISE) * 0x80_0000 as real == 0x80_0347 as real,
        Binary32::from_bits(WHITE_NOISE).finite(),
        Binary32::from_bits(WHITE_NOISE).value() > 0,
{
    lemma2_to64();
    exponential::lemma_constant(WHITE_NOISE, 127, 0x00_0347, 23);
}

/// A touch of white noise: one part in ten thousand.
#[verifier::spinoff_prover]
pub proof fn law_white_noise()
    ensures
        Binary32::from_bits(WHITE_NOISE).finite(),
        reals::near(
            10_000 as real * exponential::constant(WHITE_NOISE),
            10_001 as real,
            1 as real / 1000 as real,
        ),
{
    lemma_white();
}

#[verifier::spinoff_prover]
proof fn lemma_lag_constant()
    ensures
        exponential::constant(LAG_WINDOW) * 0x4000_0000 as real == 0x83_126f as real,
        Binary32::from_bits(LAG_WINDOW).finite(),
        Binary32::from_bits(LAG_WINDOW).value() > 0,
{
    lemma2_to64();
    exponential::lemma_constant(LAG_WINDOW, 120, 0x03_126f, 30);
}

#[verifier::spinoff_prover]
proof fn lemma_log2_e()
    ensures
        exponential::constant(LOG2_E) * 0x80_0000 as real == 0xb8_aa3b as real,
        Binary32::from_bits(LOG2_E).finite(),
        Binary32::from_bits(LOG2_E).value() > 0,
{
    lemma2_to64();
    exponential::lemma_constant(LOG2_E, 127, 0x38_aa3b, 23);
}

#[verifier::spinoff_prover]
proof fn lemma_minus_half()
    ensures
        Binary32::from_bits(MINUS_HALF).finite(),
        reals::num(Binary32::from_bits(MINUS_HALF)) == -(1 as real / 2 as real),
        order::within(Binary32::from_bits(MINUS_HALF), 148),
{
    let x = Binary32::from_bits(MINUS_HALF);
    let h = Binary32::from_bits(math::HALF);
    order::lemma_power(148);
    assert(h == order::power(148));
    assert(x == h.neg());
    reals::lemma_num_neg(h);
    lemma_half();
    order::lemma_neg(h);
}

#[verifier::spinoff_prover]
proof fn lemma_half()
    ensures
        reals::num(Binary32::from_bits(math::HALF)) == 1 as real / 2 as real,
{
    lemma2_to64();
    exponential::lemma_constant(math::HALF, 126, 0, 24);
    let c = exponential::constant(math::HALF);
    assert(c * 0x100_0000 as real == 0x80_0000 as real);
}

/// The exponent of the lag window.
spec fn exponent(lag: int) -> Binary32 {
    let f = Binary32::of_int(lag).mul(Binary32::from_bits(LAG_WINDOW));
    Binary32::from_bits(MINUS_HALF).mul(f).mul(f).mul(Binary32::from_bits(LOG2_E))
}

/// A product near another.
#[verifier::spinoff_prover]
proof fn lemma_near_product(
    a: Binary32,
    b: Binary32,
    x: real,
    y: real,
    dx: real,
    dy: real,
    e: nat,
    f: nat,
)
    requires
        order::within(a, e),
        order::within(b, f),
        23 <= e,
        23 <= f,
        172 <= e + f <= 300,
        reals::near(reals::num(a), x, dx),
        reals::near(reals::num(b), y, dy),
        reals::size(x) <= 2 as real,
        reals::size(y) <= 2 as real,
        0 as real <= dx <= 1 as real,
        0 as real <= dy <= 1 as real,
    ensures
        order::within(a.mul(b), (e + f - 149) as nat),
        reals::near(
            reals::num(a.mul(b)),
            x * y,
            2 as real * dy + 3 as real * dx + 10 as real * reals::eps(),
        ),
{
    reals::lemma_eps();
    order::lemma_within_mul(a, b, e, f);
    reals::lemma_num_product(a, b);
    let p = reals::num(a);
    let q = reals::num(b);
    assert(p * q - x * y == x * (q - y) + (p - x) * q) by (nonlinear_arith);
    motion::lemma_limits(x, q - y, 2 as real, dy);
    motion::lemma_limits(p - x, q, dx, 3 as real);
    motion::lemma_limits(p, q, 3 as real, 3 as real);
    reals::lemma_eps_of(reals::size(p * q));
}

/// The exponent, against the exact one: 0.5 times the square of 0.008 times
/// the lag, in base two.
#[verifier::spinoff_prover]
proof fn lemma_exponent(lag: int)
    requires
        1 <= lag <= ORDER,
    ensures
        exponent(lag).finite(),
        reals::near(
            1_000_000 as real * reals::num(exponent(lag)),
            -(461_662 as real / 10_000 as real * (lag * lag) as real),
            20 as real,
        ),
{
    let n = Binary32::of_int(lag);
    let step = Binary32::from_bits(LAG_WINDOW);
    let e = Binary32::from_bits(LOG2_E);
    reals::lemma_eps();
    lemma_lag_number(lag);
    lemma_lag_constant();
    lemma_log2_e();
    lemma_minus_half();
    order::lemma_within_bits(step, 143);
    order::lemma_within_bits(e, 150);
    let f = n.mul(step);
    let r = lag as real;
    reals::lemma_num_order(n, lag);
    order::lemma_within_mul(n, step, 153, 143);
    reals::lemma_num_product(n, step);
    let c = reals::num(step);
    motion::lemma_limits(r, c, 10 as real, 1 as real / 100 as real);
    reals::lemma_eps_of(reals::size(r * c));
    let x = r * (8 as real / 1000 as real);
    let off = c - 8 as real / 1000 as real;
    assert(r * (c - 8 as real / 1000 as real) == r * c - r * (8 as real / 1000 as real))
        by (nonlinear_arith);
    motion::lemma_limits(r, off, 10 as real, 1 as real / 1_000_000_000 as real);
    let d = 1 as real / 10_000_000 as real;
    let half = -(1 as real / 2 as real);
    let g = Binary32::from_bits(MINUS_HALF).mul(f);
    lemma_near_product(Binary32::from_bits(MINUS_HALF), f, half, x, 0 as real, d, 148, 147);
    motion::lemma_limits(half, x, 1 as real / 2 as real, 1 as real / 10 as real);
    lemma_near_product(g, f, half * x, x, 2 as real * d + 10 as real * reals::eps(), d, 146, 147);
    let h = g.mul(f);
    let l = 1_442_695 as real / 1_000_000 as real;
    let d2 = 2 as real * d + 3 as real * (2 as real * d + 10 as real * reals::eps()) + 10 as real
        * reals::eps();
    motion::lemma_limits(half * x, x, 1 as real, 1 as real);
    lemma_near_product(h, e, (half * x) * x, l, d2, d, 144, 150);
    lemma_exact_exponent(r);
    reals::lemma_product(lag, lag);
}

#[verifier::spinoff_prover]
proof fn lemma_lag_number(lag: int)
    requires
        1 <= lag <= ORDER,
    ensures
        order::within(Binary32::of_int(lag), 153),
        Binary32::of_int(lag).value() == lag * pow2(149),
{
    Binary32::lemma_of_int(lag);
    lemma2_to64();
    lemma_pow2_adds(4, 149);
    let unit = pow2(149);
    assert(0 <= lag * unit <= 16 * unit) by (nonlinear_arith)
        requires
            0 <= lag <= 16,
    ;
}

#[verifier::spinoff_prover]
proof fn lemma_exact_exponent(r: real)
    ensures
        ({
            let x = r * (8 as real / 1000 as real);
            1_000_000 as real * (((-(1 as real / 2 as real) * x) * x) * (1_442_695 as real
                / 1_000_000 as real)) == -(4_616_624 as real / 100_000 as real * (r * r))
        }),
{
    let x = r * (8 as real / 1000 as real);
    assert((-(1 as real / 2 as real) * x) * x == -(32 as real / 1_000_000 as real * (r * r)))
        by (nonlinear_arith)
        requires
            x == r * (8 as real / 1000 as real),
    ;
}

/// The lag window falls with the square of the lag, as a normal curve does:
/// it is 1 less 32 millionths of the square of the lag, to 100 millionths.
#[verifier::spinoff_prover]
pub proof fn law_lag_window(lag: int)
    requires
        1 <= lag <= ORDER,
    ensures
        analysis::lag_weight(lag).finite(),
        analysis::lag_weight(lag).value() > 0,
        reals::near(
            1_000_000 as real * reals::num(analysis::lag_weight(lag)),
            1_000_000 as real - 32 as real * (lag * lag) as real,
            100 as real,
        ),
{
    let a = exponent(lag);
    lemma_exponent(lag);
    let r = reals::num(a);
    assert(1 <= lag * lag <= 100) by (nonlinear_arith)
        requires
            1 <= lag <= 10,
    ;
    let m = (lag * lag) as real;
    assert(1 as real <= m <= 100 as real);
    assert(r < 0 as real && r > -(1 as real / 100 as real));
    lemma_small_power(a, -r);
}

/// Two to a small negative power.
#[verifier::spinoff_prover]
proof fn lemma_small_power(a: Binary32, d: real)
    requires
        a.finite(),
        reals::num(a) == -d,
        d > 0 as real,
        d <= 1 as real / 100 as real,
    ensures
        math::exp2(a).finite(),
        math::exp2(a).value() > 0,
        reals::near(
            reals::num(math::exp2(a)),
            1 as real - 693 as real / 1000 as real * d,
            2 as real / 100_000 as real + 8 as real / 1000 as real * d,
        ),
{
    let unit = pow2(149);
    lemma_pow2_pos(149);
    lemma_pow2_pos(148);
    lemma_pow2_unfold(149);
    reals::lemma_eps();
    reals::lemma_num_order(a, 0);
    reals::lemma_num_order(a, -1);
    vstd::arithmetic::div_mod::lemma_fundamental_div_mod_converse(
        a.value(),
        unit as int,
        -1,
        a.value() + unit,
    );
    exponential::lemma_exp2(a);
    let f = exponential::fraction_part(a);
    assert(f == 1 as real - d);
    exponential::lemma_exp_of_one();
    exponential::lemma_exp_parts(f);
    exponential::lemma_exp_relative(f, 1 as real);
    exponential::lemma_exp_relative_below(f, 1 as real);
    let p = exponential::exact_exp(f);
    let top = exponential::exact_exp(1 as real);
    lemma_fall(p, top, d);
    let y = math::exp2(a);
    reals::lemma_num(y);
    lemma_halved(reals::num(y), p, pow2(148) as real, unit as real);
}

/// How far the polynomial falls.
#[verifier::spinoff_prover]
proof fn lemma_fall(p: real, top: real, d: real)
    requires
        d > 0 as real,
        d <= 1 as real / 100 as real,
        1 as real <= p <= 2 as real,
        top * 100_000 as real >= 199_998 as real,
        top <= 2 as real,
        top - p <= d * (6932 as real / 10_000 as real * top),
        top - p >= d * (6929 as real / 10_000 as real * p),
    ensures
        reals::near(
            p,
            2 as real - 1386 as real / 1000 as real * d,
            2 as real / 100_000 as real + 15 as real / 1000 as real * d,
        ),
{
    let a = 6932 as real / 10_000 as real * top;
    likeness::lemma_times(a, 6932 as real / 5_000 as real, d);
    assert(d * (6932 as real / 5_000 as real) == 6932 as real / 5_000 as real * d)
        by (nonlinear_arith);
    assert(p >= 198 as real / 100 as real);
    let b = 6929 as real / 10_000 as real * p;
    likeness::lemma_times(6929 as real / 10_000 as real * (198 as real / 100 as real), b, d);
    assert(d * (6929 as real / 10_000 as real * (198 as real / 100 as real)) == 6929 as real
        / 10_000 as real * (198 as real / 100 as real) * d) by (nonlinear_arith);
}

/// Half of it, from units.
#[verifier::spinoff_prover]
proof fn lemma_halved(y: real, p: real, s: real, u: real)
    requires
        u == 2 as real * s,
        s > 0 as real,
        0x100_0000 as real * reals::eps() == 1 as real,
        reals::near(y * u, p * s, 128 as real * reals::eps() * s),
    ensures
        reals::near(2 as real * y, p, 128 as real * reals::eps()),
{
    let e = 128 as real * reals::eps();
    assert(y * (2 as real * s) == (2 as real * y) * s) by (nonlinear_arith);
    let a = 2 as real * y;
    assert((a - p) * s == a * s - p * s && (p - a) * s == p * s - a * s) by (nonlinear_arith);
    crate::accuracy::lemma_unscaled(a - p, e, s);
    crate::accuracy::lemma_unscaled(p - a, e, s);
}

} // verus!
