//! Which spectrum and level the analyser finds, from the samples.
use crate::binary32::Binary32;
use crate::exponential;
use crate::lpc10::analysis;
use crate::lpc10::analysis::{Listener, MINUS_ZERO, PRE_EMPHASIS, WHITE_NOISE};
use crate::lpc10::hearing;
use crate::lpc10::likeness;
use crate::lpc10::motion;
use crate::lpc10::soundness;
use crate::lpc10::weights;
use crate::lpc10::{FRAME_SAMPLES, ORDER};
use crate::math;
use crate::order;
use crate::reals;
use crate::rounding;
use crate::sums;
use vstd::arithmetic::power2::*;
use vstd::prelude::*;

verus! {

/// The frame that the analyser windows: emphasised by taking fifteen
/// sixteenths of the sample before, the last one of the frame before it first.
pub open spec fn emphasised(l: Listener, frame: Seq<i16>, i: int) -> real {
    frame[i] as real - 15 as real / 16 as real * (if i == 0 {
        reals::num(l.previous)
    } else {
        frame[i - 1] as real
    })
}

/// The windowed frame as the analyser has it.
pub open spec fn windowed(l: Listener, frame: Seq<i16>) -> Seq<Binary32> {
    analysis::windowed(l.heard(frame).skip(analysis::tail()), l.previous)
}

#[verifier::spinoff_prover]
proof fn lemma_emphasis()
    ensures
        Binary32::from_bits(PRE_EMPHASIS).finite(),
        reals::num(Binary32::from_bits(PRE_EMPHASIS)) == 15 as real / 16 as real,
{
    lemma2_to64();
    exponential::lemma_constant(PRE_EMPHASIS, 126, 0x70_0000, 24);
    let c = exponential::constant(PRE_EMPHASIS);
    assert(c * 0x100_0000 as real == 0xf0_0000 as real);
}

/// A sample, emphasised and windowed.
#[verifier::spinoff_prover]
proof fn lemma_windowed_sample(x: Binary32, before: Binary32, w: Binary32)
    requires
        soundness::audible(x),
        soundness::audible(before),
        order::within(w, 150),
    ensures
        reals::near(
            reals::num(x.sub(Binary32::from_bits(PRE_EMPHASIS).mul(before)).mul(w)),
            (reals::num(x) - 15 as real / 16 as real * reals::num(before)) * reals::num(w),
            1 as real / 20 as real,
        ),
{
    let c = Binary32::from_bits(PRE_EMPHASIS);
    reals::lemma_eps();
    lemma_emphasis();
    lemma_audible(x);
    lemma_audible(before);
    order::lemma_within_bits(c, 149);
    order::lemma_within_mul(c, before, 149, 164);
    let p = c.mul(before);
    order::lemma_neg(p);
    order::lemma_within_add(x, p.neg(), 164);
    let d = x.sub(p);
    order::lemma_within_mul(d, w, 165, 150);
    reals::lemma_num_product(c, before);
    let cr = reals::num(c);
    let br = reals::num(before);
    motion::lemma_limits(cr, br, 1 as real, 32_768 as real);
    reals::lemma_eps_of(reals::size(cr * br));
    reals::lemma_num_difference(x, p);
    reals::lemma_eps_of(reals::size(reals::num(x) - reals::num(p)));
    reals::lemma_num_product(d, w);
    let dr = reals::num(d);
    let wr = reals::num(w);
    lemma_two(w);
    motion::lemma_limits(dr, wr, 70_000 as real, 2 as real);
    reals::lemma_eps_of(reals::size(dr * wr));
    let exact = reals::num(x) - 15 as real / 16 as real * br;
    let off = dr - exact;
    assert(cr * br == 15 as real / 16 as real * br);
    assert((dr - exact) * wr == dr * wr - exact * wr) by (nonlinear_arith);
    motion::lemma_limits(off, wr, 1 as real / 100 as real, 2 as real);
}

#[verifier::spinoff_prover]
proof fn lemma_audible(x: Binary32)
    requires
        soundness::audible(x),
    ensures
        reals::size(reals::num(x)) <= 32_768 as real,
{
    lemma2_to64();
    lemma_pow2_adds(15, 149);
    reals::lemma_num_abs(x);
    reals::lemma_num_order(x.abs(), 32_768);
}

#[verifier::spinoff_prover]
proof fn lemma_two(x: Binary32)
    requires
        order::within(x, 150),
    ensures
        reals::size(reals::num(x)) <= 2 as real,
{
    lemma_pow2_unfold(150);
    reals::lemma_num_abs(x);
    reals::lemma_num_order(x.abs(), 2);
}

/// The frame that is analysed: each sample less fifteen sixteenths of the one
/// before, across frames too, times the window.
#[verifier::spinoff_prover]
pub proof fn law_frame_is_emphasised_and_windowed(l: Listener, frame: Seq<i16>, i: int)
    requires
        l.sound(),
        frame.len() == FRAME_SAMPLES,
        0 <= i < FRAME_SAMPLES,
    ensures
        windowed(l, frame).len() == FRAME_SAMPLES,
        order::within(windowed(l, frame)[i], 166),
        reals::near(
            reals::num(windowed(l, frame)[i]),
            emphasised(l, frame, i) * reals::num(analysis::window(i)),
            1 as real / 20 as real,
        ),
{
    let x = l.heard(frame).skip(analysis::tail());
    assert forall|j: int| 0 <= j < 180 implies soundness::audible(#[trigger] x[j]) && x[j]
        == Binary32::of_int(frame[j] as int) by {
        soundness::lemma_sample(frame[j]);
    }
    soundness::lemma_windowed(x, l.previous);
    soundness::lemma_window(i);
    hearing::lemma_sample(frame[i]);
    if i > 0 {
        hearing::lemma_sample(frame[i - 1]);
        assert(soundness::audible(x[i - 1]));
        lemma_windowed_sample(x[i], x[i - 1], analysis::window(i));
    } else {
        lemma_windowed_sample(x[i], l.previous, analysis::window(i));
    }
    assert(soundness::audible(x[i]));
}

/// The exact autocorrelation of a frame at a lag.
pub open spec fn autocorrelation(w: Seq<Binary32>, lag: int) -> real {
    likeness::inner(w, lag, w, 0, (180 - lag) as nat)
}

/// Energy adds up.
#[verifier::spinoff_prover]
proof fn lemma_joined(w: Seq<Binary32>, p: int, m: nat, n: nat)
    ensures
        likeness::inner(w, p, w, p, (m + n) as nat) == likeness::inner(w, p, w, p, m)
            + likeness::inner(w, p + m, w, p + m, n),
    decreases n,
{
    if n > 0 {
        lemma_joined(w, p, m, (n - 1) as nat);
        assert(p + (m + n) - 1 == (p + m) + n - 1);
    }
}

/// Sizes at a lag are at most the energy.
#[verifier::spinoff_prover]
proof fn lemma_lagged(w: Seq<Binary32>, lag: int)
    requires
        0 <= lag <= ORDER,
    ensures
        likeness::bulk(w, lag, w, 0, (180 - lag) as nat) <= autocorrelation(w, 0),
        autocorrelation(w, 0) >= 0 as real,
{
    let n = (180 - lag) as nat;
    likeness::lemma_cauchy(w, lag, w, 0, n);
    likeness::lemma_cauchy(w, 0, w, 0, 180);
    likeness::lemma_cauchy(w, 0, w, 0, lag as nat);
    likeness::lemma_cauchy(w, n as int, w, n as int, lag as nat);
    lemma_joined(w, 0, lag as nat, n);
    lemma_joined(w, 0, n, lag as nat);
    let all = autocorrelation(w, 0);
    let a = likeness::inner(w, lag, w, lag, n);
    let b = likeness::inner(w, 0, w, 0, n);
    assert(a <= all && b <= all);
    likeness::lemma_times(a, all, b);
    likeness::lemma_times(b, all, all);
    likeness::lemma_square_order(likeness::bulk(w, lag, w, 0, n), all);
}

/// A correlation of the frame, rounded.
#[verifier::spinoff_prover]
proof fn lemma_correlation(w: Seq<Binary32>, lag: int)
    requires
        w.len() == FRAME_SAMPLES,
        forall|i: int| 0 <= i < FRAME_SAMPLES ==> order::within(#[trigger] w[i], 166),
        0 <= lag <= ORDER,
        autocorrelation(w, 0) >= 1 as real,
    ensures
        order::within(analysis::correlation(w, lag), 191),
        reals::near(
            20_000 as real * reals::num(analysis::correlation(w, lag)),
            20_000 as real * autocorrelation(w, lag),
            autocorrelation(w, 0),
        ),
        reals::size(autocorrelation(w, lag)) <= autocorrelation(w, 0),
{
    let start = Binary32::from_bits(MINUS_ZERO);
    let n = (180 - lag) as nat;
    let most = autocorrelation(w, 0);
    rounding::lemma_magnitude_zero();
    soundness::lemma_correlation(w, lag);
    lemma_lagged(w, lag);
    assert forall|k: int| 0 <= k < n implies order::within(#[trigger] w[lag + k], 166) by {}
    assert forall|k: int| 0 <= k < n implies order::within(#[trigger] w[0 + k], 166) by {}
    likeness::lemma_dot(w, lag, w, 0, n, n, start, 166, most);
    lemma_sizes(w, lag, n);
    reals::lemma_eps();
    reals::lemma_eps_of(most);
    let step = 4 as real * (reals::eps() * most);
    likeness::lemma_times(n as real, 180 as real, step);
}

#[verifier::spinoff_prover]
proof fn lemma_sizes(w: Seq<Binary32>, lag: int, n: nat)
    ensures
        reals::size(likeness::inner(w, lag, w, 0, n)) <= likeness::bulk(w, lag, w, 0, n),
{
    let g = |j: int| reals::size(reals::num(w[lag + j - 1]) * reals::num(w[0 + j - 1]));
    let f = |j: int| reals::num(w[lag + j - 1]) * reals::num(w[0 + j - 1]);
    sums::lemma_bound(f, g, n);
}

/// What the recursion is given: the exact autocorrelation of the windowed
/// frame, one part in ten thousand more at lag zero, and less by 32 millionths
/// of the square of the lag elsewhere, to two parts in ten thousand of the
/// energy.
#[verifier::spinoff_prover]
pub proof fn law_correlations_are_conditioned(w: Seq<Binary32>, lag: int)
    requires
        w.len() == FRAME_SAMPLES,
        forall|i: int| 0 <= i < FRAME_SAMPLES ==> order::within(#[trigger] w[i], 166),
        0 <= lag <= ORDER,
        autocorrelation(w, 0) >= 1 as real,
    ensures
        ({
            let weight = if lag == 0 {
                10_001 as real / 10_000 as real
            } else {
                1 as real - 32 as real * (lag * lag) as real / 1_000_000 as real
            };
            reals::near(
                10_000 as real * reals::num(analysis::conditioned(w)[lag]),
                10_000 as real * (weight * autocorrelation(w, lag)),
                3 as real * autocorrelation(w, 0),
            )
        }),
{
    let r = analysis::correlation(w, lag);
    let exact = autocorrelation(w, lag);
    let most = autocorrelation(w, 0);
    lemma_correlation(w, lag);
    if lag == 0 {
        weights::law_white_noise();
        let c = Binary32::from_bits(WHITE_NOISE);
        order::lemma_within_bits(c, 151);
        lemma_weighted(r, c, exact, most, 10_001 as real / 10_000 as real);
    } else {
        weights::law_lag_window(lag);
        soundness::lemma_lag_weight(lag);
        assert(1 <= lag * lag <= 100) by (nonlinear_arith)
            requires
                1 <= lag <= 10,
        ;
        let m = (lag * lag) as real;
        lemma_weighted(
            r,
            analysis::lag_weight(lag),
            exact,
            most,
            1 as real - 32 as real * m / 1_000_000 as real,
        );
    }
}

/// A correlation times its weight.
#[verifier::spinoff_prover]
proof fn lemma_weighted(r: Binary32, c: Binary32, exact: real, most: real, weight: real)
    requires
        order::within(r, 191),
        order::within(c, 151),
        most >= 1 as real,
        reals::size(exact) <= most,
        reals::near(20_000 as real * reals::num(r), 20_000 as real * exact, most),
        reals::near(1_000_000 as real * reals::num(c), 1_000_000 as real * weight, 100 as real),
        9 as real / 10 as real <= weight,
        weight <= 11 as real / 10 as real,
    ensures
        reals::near(
            10_000 as real * reals::num(r.mul(c)),
            10_000 as real * (weight * exact),
            3 as real * most,
        ),
{
    reals::lemma_eps();
    order::lemma_within_mul(r, c, 191, 151);
    reals::lemma_num_product(r, c);
    let x = reals::num(r);
    let y = reals::num(c);
    assert(x * y - weight * exact == y * (x - exact) + exact * (y - weight)) by (nonlinear_arith);
    motion::lemma_limits(y, x - exact, 2 as real, most / 20_000 as real);
    motion::lemma_limits(exact, y - weight, most, 1 as real / 10_000 as real);
    assert(2 as real * (most / 20_000 as real) == most / 10_000 as real);
    assert(most * (1 as real / 10_000 as real) == most / 10_000 as real) by (nonlinear_arith);
    motion::lemma_limits(x, y, 2 as real * most, 2 as real);
    assert((2 as real * most) * (2 as real) == 4 as real * most) by (nonlinear_arith);
    reals::lemma_eps_of(reals::size(x * y));
}

/// The spectrum and the level that are found: the coefficients are those of
/// the recursion on the conditioned autocorrelation of the windowed frame, and
/// the square of the level is a 180th of the energy that prediction leaves.
#[verifier::spinoff_prover]
pub proof fn law_spectrum_is_of_the_samples(l: Listener, frame: Seq<i16>)
    requires
        l.sound(),
        frame.len() == FRAME_SAMPLES,
        autocorrelation(windowed(l, frame), 0) >= 1 as real,
    ensures
        ({
            let found = analysis::recursion(
                analysis::conditioned(windowed(l, frame)),
                ORDER as nat,
            );
            let y = reals::num(l.analyzed(frame).gain);
            let left = reals::num(found.error);
            &&& l.analyzed(frame).rc == found.rc
            &&& left >= 1 as real ==> reals::near(
                10_000 as real * (180 as real * (y * y)),
                10_000 as real * left,
                left,
            )
        }),
{
    let w = windowed(l, frame);
    let x = l.heard(frame).skip(analysis::tail());
    assert forall|i: int| 0 <= i < FRAME_SAMPLES implies order::within(#[trigger] w[i], 166) by {
        law_frame_is_emphasised_and_windowed(l, frame, i);
    }
    law_frame_is_emphasised_and_windowed(l, frame, 0);
    lemma_correlation(w, 0);
    let r = analysis::conditioned(w);
    assert forall|k: int| 0 <= k <= ORDER implies order::within(#[trigger] r[k], 193) by {
        soundness::lemma_conditioned(w, k);
    }
    rounding::lemma_magnitude_zero();
    reals::lemma_num(analysis::correlation(w, 0));
    law_correlations_are_conditioned(w, 0);
    reals::lemma_num(r[0]);
    soundness::lemma_recursion(r, ORDER as nat);
    let error = analysis::recursion(r, ORDER as nat).error;
    assert(analysis::tract(x, l.previous).0 == analysis::recursion(r, ORDER as nat).rc);
    reals::lemma_num(error);
    if reals::num(error) >= 1 as real {
        assert(order::within(r[0], 193));
        lemma_level(error);
    }
}

/// The level of what is left.
#[verifier::spinoff_prover]
proof fn lemma_level(error: Binary32)
    requires
        order::within(error, 193),
        reals::num(error) >= 1 as real,
    ensures
        ({
            let y = reals::num(math::sqrt(error.div(Binary32::of_int(180))));
            let left = reals::num(error);
            reals::near(10_000 as real * (180 as real * (y * y)), 10_000 as real * left, left)
        }),
{
    let n = Binary32::of_int(180);
    reals::lemma_eps();
    lemma_pow2_pos(149);
    crate::lpc10::voicing::lemma_hundred_eighty();
    order::lemma_within_div(error, n, 193, 149);
    let q = error.div(n);
    reals::lemma_num_quotient(error, n);
    let r = reals::num(q);
    let w = reals::num(n);
    let t = reals::ratio(1, 0x1_0000_0000_0000);
    assert(r * w == 180 as real * r && t * w == 180 as real * t) by (nonlinear_arith)
        requires
            w == 180 as real,
    ;
    reals::lemma_eps_of(reals::size(reals::num(error)));
    assert(r >= 1 as real / 200 as real);
    reals::lemma_num(q);
    reals::lemma_unit();
    let u = pow2(149) as real;
    likeness::lemma_times(1 as real / 200 as real, r, u);
    assert((1 as real / 200 as real) * u == u / 200 as real) by (nonlinear_arith);
    lemma2_to64();
    lemma_pow2_adds(129, 20);
    likeness::lemma_root(q);
}

} // verus!
