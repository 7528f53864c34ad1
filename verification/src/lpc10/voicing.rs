//! Which frames are voiced, from the samples.
use crate::binary32::Binary32;
use crate::exponential;
use crate::lpc10::analysis;
use crate::lpc10::analysis::{
    Listener, MINUS_ZERO, SILENCE_RMS, VOICING_CORRELATION, VOICING_MAX_ZCR,
};
use crate::lpc10::hearing;
use crate::lpc10::likeness;
use crate::lpc10::soundness;
use crate::lpc10::{FRAME_SAMPLES, HISTORY};
use crate::math;
use crate::order;
use crate::reals;
use crate::rounding;
use crate::sums;
use vstd::arithmetic::power2::*;
use vstd::prelude::*;

verus! {

/// The energy of samples.
pub open spec fn loudness(frame: Seq<i16>) -> real {
    sums::sum(|j: int| frame[j - 1] as real * frame[j - 1] as real, frame.len())
}

/// How often the sign changes among the first `n + 1` samples, where zero
/// counts as positive.
pub open spec fn turns(frame: Seq<i16>, n: nat) -> int
    decreases n,
{
    if n == 0 {
        0
    } else {
        turns(frame, (n - 1) as nat) + (if (frame[n - 1] < 0) == (frame[n as int] < 0) {
            0int
        } else {
            1int
        })
    }
}

/// The current frame in the history.
#[verifier::spinoff_prover]
proof fn lemma_current(l: Listener, frame: Seq<i16>)
    requires
        l.history.len() == HISTORY,
        frame.len() == FRAME_SAMPLES,
    ensures
        ({
            let x = l.heard(frame).skip(analysis::tail());
            &&& x.len() == 180
            &&& forall|j: int|
                0 <= j < 180 ==> #[trigger] x[j] == Binary32::of_int(frame[j] as int)
        }),
{
}

/// Counting sign changes on the numbers.
#[verifier::spinoff_prover]
proof fn lemma_turns(x: Seq<Binary32>, frame: Seq<i16>, n: nat)
    requires
        x.len() == 180,
        frame.len() == 180,
        forall|j: int| 0 <= j < 180 ==> #[trigger] x[j] == Binary32::of_int(frame[j] as int),
        n < 180,
    ensures
        analysis::crossings(x, n) == turns(frame, n),
        0 <= turns(frame, n) <= n,
    decreases n,
{
    if n > 0 {
        lemma_turns(x, frame, (n - 1) as nat);
        lemma_sign(frame[n - 1]);
        lemma_sign(frame[n as int]);
        assert(x[n - 1] == Binary32::of_int(frame[n - 1] as int));
        assert(x[n as int] == Binary32::of_int(frame[n as int] as int));
    }
}

/// The sign of a sample.
#[verifier::spinoff_prover]
proof fn lemma_sign(s: i16)
    ensures
        Binary32::of_int(s as int).lt(analysis::zero()) <==> s < 0,
{
    rounding::lemma_magnitude_zero();
    Binary32::lemma_of_int(s as int);
    lemma_pow2_pos(149);
    let unit = pow2(149) as int;
    assert(s * unit < 0 <==> s < 0) by (nonlinear_arith)
        requires
            unit > 0,
    ;
}

/// The rate of sign changes against its limit: up to 53 of the 179 pairs.
#[verifier::spinoff_prover]
proof fn lemma_rate(n: int)
    requires
        0 <= n <= 179,
    ensures
        Binary32::of_int(n).div(Binary32::of_int(179)).le(Binary32::from_bits(VOICING_MAX_ZCR))
            <==> n <= 53,
{
    let a = Binary32::of_int(n);
    let b = Binary32::of_int(179);
    let limit = Binary32::from_bits(VOICING_MAX_ZCR);
    reals::lemma_eps();
    lemma_pow2_pos(149);
    Binary32::lemma_of_int(n);
    Binary32::lemma_of_int(179);
    lemma_count(n);
    order::lemma_within_div(a, b, 157, 149);
    reals::lemma_num_order(a, n);
    reals::lemma_num_order(b, 179);
    let q = a.div(b);
    reals::lemma_num_quotient(a, b);
    let r = reals::num(q);
    let w = reals::num(b);
    let t = reals::ratio(1, 0x1_0000_0000_0000);
    assert(r * w == 179 as real * r && t * w == 179 as real * t) by (nonlinear_arith)
        requires
            w == 179 as real,
    ;
    reals::lemma_eps_of(reals::size(reals::num(a)));
    lemma_limit();
    crate::lpc10::period::lemma_order(q, limit);
}

#[verifier::spinoff_prover]
proof fn lemma_count(n: int)
    requires
        0 <= n <= 179,
    ensures
        order::within(Binary32::of_int(n), 157),
        Binary32::of_int(n).value() >= 0,
        Binary32::of_int(179).size() >= pow2(149),
{
    Binary32::lemma_of_int(n);
    Binary32::lemma_of_int(179);
    lemma2_to64();
    lemma_pow2_adds(8, 149);
    let unit = pow2(149);
    assert(0 <= n * unit <= 256 * unit) by (nonlinear_arith)
        requires
            0 <= n <= 256,
    ;
}

#[verifier::spinoff_prover]
proof fn lemma_limit()
    ensures
        Binary32::from_bits(VOICING_MAX_ZCR).finite(),
        exponential::constant(VOICING_MAX_ZCR) * 0x200_0000 as real == 0x99_999a as real,
{
    lemma2_to64();
    exponential::lemma_constant(VOICING_MAX_ZCR, 125, 0x19_999a, 25);
}

#[verifier::spinoff_prover]
proof fn lemma_threshold()
    ensures
        Binary32::from_bits(VOICING_CORRELATION).finite(),
        exponential::constant(VOICING_CORRELATION) * 0x200_0000 as real == 0xb3_3333 as real,
{
    lemma2_to64();
    exponential::lemma_constant(VOICING_CORRELATION, 125, 0x33_3333, 25);
}

#[verifier::spinoff_prover]
proof fn lemma_floor()
    ensures
        Binary32::from_bits(SILENCE_RMS).finite(),
        exponential::constant(SILENCE_RMS) * 0x10_0000 as real == 0xc0_0000 as real,
{
    lemma2_to64();
    exponential::lemma_constant(SILENCE_RMS, 130, 0x40_0000, 20);
}

/// The exact energy of the numbers is that of the samples.
#[verifier::spinoff_prover]
pub proof fn lemma_loudness(x: Seq<Binary32>, frame: Seq<i16>)
    requires
        x.len() == 180,
        frame.len() == 180,
        forall|j: int| 0 <= j < 180 ==> #[trigger] x[j] == Binary32::of_int(frame[j] as int),
    ensures
        likeness::inner(x, 0, x, 0, 180) == loudness(frame),
{
    let f = |j: int| reals::num(x[0 + j - 1]) * reals::num(x[0 + j - 1]);
    let g = |j: int| frame[j - 1] as real * frame[j - 1] as real;
    assert forall|j: int| 1 <= j <= 180 implies #[trigger] f(j) == g(j) by {
        hearing::lemma_sample(frame[j - 1]);
        assert(x[j - 1] == Binary32::of_int(frame[j - 1] as int));
    }
    sums::lemma_same(f, g, 180);
}

/// The level of a frame: the root of its mean energy.
#[verifier::spinoff_prover]
proof fn lemma_rms(x: Seq<Binary32>, frame: Seq<i16>)
    requires
        x.len() == 180,
        frame.len() == 180,
        forall|j: int| 0 <= j < 180 ==> #[trigger] x[j] == Binary32::of_int(frame[j] as int),
        loudness(frame) >= 1 as real,
    ensures
        ({
            let r = analysis::rms_of(x);
            let y = reals::num(r);
            &&& r.finite()
            &&& y > 0 as real
            &&& reals::near(
                18_000 as real * (180 as real * (y * y)),
                18_000 as real * loudness(frame),
                loudness(frame),
            )
        }),
{
    let start = Binary32::from_bits(MINUS_ZERO);
    let e = loudness(frame);
    rounding::lemma_magnitude_zero();
    lemma_loudness(x, frame);
    assert forall|k: int| 0 <= k < 180 implies order::within(#[trigger] x[0 + k], 164) by {
        soundness::lemma_sample(frame[k]);
        assert(x[k] == Binary32::of_int(frame[k] as int));
    }
    likeness::lemma_own_bulk(x, 0, 180);
    likeness::lemma_dot(x, 0, x, 0, 180, 180, start, 164, e);
    soundness::lemma_sum_products(x, 0, x, 0, 180, start, 164);
    let sum = analysis::sum_products(x, 0, x, 0, 180, start);
    reals::lemma_eps();
    reals::lemma_eps_of(e);
    lemma_mean(sum, e);
}

/// From the energy to the level.
#[verifier::spinoff_prover]
proof fn lemma_mean(sum: Binary32, e: real)
    requires
        sum.finite(),
        sum.size() <= 180 * pow2((2 * 164 - 149) as nat),
        reals::near(20_000 as real * reals::num(sum), 20_000 as real * e, e),
        e >= 1 as real,
    ensures
        ({
            let r = math::sqrt(sum.div(Binary32::of_int(180)));
            let y = reals::num(r);
            &&& r.finite()
            &&& y > 0 as real
            &&& reals::near(18_000 as real * (180 as real * (y * y)), 18_000 as real * e, e)
        }),
{
    let n = Binary32::of_int(180);
    reals::lemma_eps();
    lemma_pow2_pos(149);
    lemma_hundred_eighty();
    lemma2_to64();
    lemma_pow2_adds(8, 179);
    order::lemma_within_div(sum, n, 187, 149);
    let q = sum.div(n);
    reals::lemma_num_quotient(sum, n);
    let r = reals::num(q);
    let w = reals::num(n);
    let t = reals::ratio(1, 0x1_0000_0000_0000);
    assert(r * w == 180 as real * r && t * w == 180 as real * t) by (nonlinear_arith)
        requires
            w == 180 as real,
    ;
    reals::lemma_eps_of(reals::size(reals::num(sum)));
    assert(r >= 1 as real / 200 as real);
    reals::lemma_num(q);
    reals::lemma_unit();
    let u = pow2(149) as real;
    likeness::lemma_times(1 as real / 200 as real, r, u);
    assert((1 as real / 200 as real) * u == u / 200 as real) by (nonlinear_arith);
    lemma_pow2_adds(129, 20);
    likeness::lemma_root(q);
}

#[verifier::spinoff_prover]
pub proof fn lemma_hundred_eighty()
    ensures
        Binary32::of_int(180).finite(),
        Binary32::of_int(180).value() > 0,
        Binary32::of_int(180).size() >= pow2(149),
        reals::num(Binary32::of_int(180)) == 180 as real,
{
    Binary32::lemma_of_int(180);
    lemma_pow2_pos(149);
    reals::lemma_num_order(Binary32::of_int(180), 180);
}

/// The level against the threshold of silence: 12, whose square is 144.
#[verifier::spinoff_prover]
proof fn lemma_loud(r: Binary32, e: real)
    requires
        r.finite(),
        reals::num(r) > 0 as real,
        reals::near(
            18_000 as real * (180 as real * (reals::num(r) * reals::num(r))),
            18_000 as real * e,
            e,
        ),
        e >= 1 as real,
    ensures
        Binary32::from_bits(SILENCE_RMS).le(r) ==> e >= 25_900 as real,
        e >= 25_940 as real ==> Binary32::from_bits(SILENCE_RMS).le(r),
{
    let y = reals::num(r);
    lemma_floor();
    let c = reals::num(Binary32::from_bits(SILENCE_RMS));
    assert(c == 12 as real);
    crate::lpc10::period::lemma_order(Binary32::from_bits(SILENCE_RMS), r);
    assert(c * c == 144 as real) by (nonlinear_arith)
        requires
            c == 12 as real,
    ;
    if c <= y {
        likeness::lemma_times(c, y, c);
        likeness::lemma_times(c, y, y);
    } else {
        likeness::lemma_times(y, c, y);
        likeness::lemma_times(y, c, c);
    }
}

/// Which frames are voiced. Three things make a frame voiced, and it takes all
/// three: samples of an RMS of 12 or more, a best period at which they
/// correlate by 0.35 or more, and a sign that changes between at most 53 of
/// the 179 pairs of neighbours. RMS and correlation are decided to less than
/// one part in a thousand.
#[verifier::spinoff_prover]
pub proof fn law_voiced_frames(l: Listener, frame: Seq<i16>)
    requires
        l.history.len() == HISTORY,
        frame.len() == FRAME_SAMPLES,
        loudness(frame) >= 1 as real,
        analysis::pitch(l.heard(frame)).1.finite(),
    ensures
        ({
            let likeness = reals::num(analysis::pitch(l.heard(frame)).1);
            let energy = loudness(frame);
            &&& l.analyzed(frame).voiced ==> energy >= 25_900 as real && 1_000_000 as real
                * likeness >= 349_999 as real && turns(frame, 179) <= 53
            &&& energy >= 25_940 as real && 1_000_000 as real * likeness >= 350_001 as real
                && turns(frame, 179) <= 53 ==> l.analyzed(frame).voiced
        }),
{
    let h = l.heard(frame);
    let x = h.skip(analysis::tail());
    lemma_current(l, frame);
    lemma_turns(x, frame, 179);
    lemma_rate(turns(frame, 179));
    lemma_rms(x, frame);
    lemma_loud(analysis::rms_of(x), loudness(frame));
    lemma_threshold();
    crate::lpc10::period::lemma_order(
        Binary32::from_bits(VOICING_CORRELATION),
        analysis::pitch(h).1,
    );
}

/// A frame of zeros is not voiced, whatever came before it.
#[verifier::spinoff_prover]
pub proof fn law_zeros_are_not_voiced(l: Listener, frame: Seq<i16>)
    requires
        l.history.len() == HISTORY,
        frame.len() == FRAME_SAMPLES,
        forall|j: int| 0 <= j < 180 ==> #[trigger] frame[j] == 0,
    ensures
        !l.analyzed(frame).voiced,
{
    let x = l.heard(frame).skip(analysis::tail());
    lemma_current(l, frame);
    rounding::lemma_magnitude_zero();
    Binary32::lemma_of_int(0);
    let start = Binary32::from_bits(MINUS_ZERO);
    assert forall|j: int| 0 <= j < 180 implies crate::lpc10::recovery::nothing(
        #[trigger] x[j],
    ) by {
        assert(frame[j] == 0);
        assert(x[j] == Binary32::of_int(0));
        assert(0 * pow2(149) == 0) by (nonlinear_arith);
    }
    lemma_nothing(x, 180, start);
    lemma_hundred_eighty();
    let sum = analysis::sum_products(x, 0, x, 0, 180, start);
    lemma_no_level(sum);
    lemma_floor();
    reals::lemma_num(Binary32::from_bits(SILENCE_RMS));
}

#[verifier::spinoff_prover]
proof fn lemma_nothing(x: Seq<Binary32>, n: nat, start: Binary32)
    requires
        x.len() == 180,
        n <= 180,
        crate::lpc10::recovery::nothing(start),
        forall|j: int| 0 <= j < 180 ==> crate::lpc10::recovery::nothing(#[trigger] x[j]),
    ensures
        crate::lpc10::recovery::nothing(analysis::sum_products(x, 0, x, 0, n, start)),
    decreases n,
{
    if n > 0 {
        let m = (n - 1) as nat;
        lemma_nothing(x, m, start);
        let y = x[0 + n - 1];
        assert(crate::lpc10::recovery::nothing(x[n - 1]));
        crate::lpc10::recovery::lemma_nothing_times(y, y);
        crate::lpc10::recovery::lemma_and_nothing(
            analysis::sum_products(x, 0, x, 0, m, start),
            y.mul(y),
        );
    }
}

#[verifier::spinoff_prover]
proof fn lemma_no_level(sum: Binary32)
    requires
        crate::lpc10::recovery::nothing(sum),
    ensures
        math::sqrt(sum.div(Binary32::of_int(180))).value() == 0,
{
    let n = Binary32::of_int(180);
    let none = Binary32::from_bits(math::ZERO);
    rounding::lemma_magnitude_zero();
    lemma_hundred_eighty();
    assert(sum.size() * pow2(149) == 0 && none.size() * n.size() == 0) by (nonlinear_arith)
        requires
            sum.size() == 0,
            none.size() == 0,
    ;
    order::lemma_div(sum, n, none);
}

} // verus!
