//! What the analyser hears: the samples, smoothed for the pitch, and whether
//! they are a voice.
use crate::binary32::Binary32;
use crate::exponential;
use crate::lpc10::analysis;
use crate::lpc10::analysis::{Listener, THREE};
use crate::lpc10::likeness;
use crate::lpc10::motion;
use crate::lpc10::soundness;
use crate::lpc10::{FRAME_SAMPLES, HISTORY};
use crate::math;
use crate::order;
use crate::reals;
use crate::rounding;
use crate::sums;
use vstd::arithmetic::power2::*;
use vstd::prelude::*;

verus! {

/// The history is the samples: the current frame, and the last 156 samples of
/// the one before it.
#[verifier::spinoff_prover]
pub proof fn law_history_is_the_samples(l: Listener, one: Seq<i16>, two: Seq<i16>, j: int)
    requires
        l.history.len() == HISTORY,
        one.len() == FRAME_SAMPLES,
        two.len() == FRAME_SAMPLES,
    ensures
        l.after(one).heard(two).len() == HISTORY,
        0 <= j < 156 ==> reals::num(l.after(one).heard(two)[j]) == one[24 + j] as real,
        0 <= j < 180 ==> reals::num(l.after(one).heard(two)[156 + j]) == two[j] as real,
        reals::num(l.after(one).previous) == one[179] as real,
{
    let h = l.after(one).heard(two);
    if 0 <= j < 156 {
        lemma_sample(one[24 + j]);
        assert(h[j] == Binary32::of_int(one[24 + j] as int));
    }
    if 0 <= j < 180 {
        lemma_sample(two[j]);
        assert(h[156 + j] == Binary32::of_int(two[j] as int));
    }
    lemma_sample(one[179]);
}

/// A sample as a number.
#[verifier::spinoff_prover]
pub proof fn lemma_sample(x: i16)
    ensures
        Binary32::of_int(x as int).finite(),
        reals::num(Binary32::of_int(x as int)) == x as real,
{
    Binary32::lemma_of_int(x as int);
    reals::lemma_num_order(Binary32::of_int(x as int), x as int);
}

/// A weighted neighbour, where there is one.
pub open spec fn part(h: Seq<Binary32>, at: int, w: real) -> real {
    if 0 <= at < h.len() {
        w * reals::num(h[at])
    } else {
        0 as real
    }
}

/// Its weight.
pub open spec fn heft(h: Seq<Binary32>, at: int, w: real) -> real {
    if 0 <= at < h.len() {
        w
    } else {
        0 as real
    }
}

/// One, two, three, two, one times a value and its neighbours.
pub open spec fn blurred(h: Seq<Binary32>, i: int) -> real {
    part(h, i, 3 as real) + part(h, i - 1, 2 as real) + part(h, i + 1, 2 as real) + part(
        h,
        i - 2,
        1 as real,
    ) + part(h, i + 2, 1 as real)
}

/// The weights of those that there are.
pub open spec fn hefts(h: Seq<Binary32>, i: int) -> real {
    heft(h, i, 3 as real) + heft(h, i - 1, 2 as real) + heft(h, i + 1, 2 as real) + heft(
        h,
        i - 2,
        1 as real,
    ) + heft(h, i + 2, 1 as real)
}

/// A history of samples.
pub open spec fn heard(h: Seq<Binary32>) -> bool {
    &&& h.len() == HISTORY
    &&& forall|i: int| 0 <= i < HISTORY ==> soundness::audible(#[trigger] h[i])
}

#[verifier::spinoff_prover]
proof fn lemma_audible(x: Binary32)
    requires
        soundness::audible(x),
    ensures
        reals::size(reals::num(x)) <= 32_768 as real,
{
    lemma2_to64();
    lemma_pow2_adds(15, 149);
    reals::lemma_num_abs(x);
    reals::lemma_num_order(x.abs(), 32_768);
}

/// Sums of a smoother under way: close to the exact ones.
spec fn under_way(sums: (Binary32, Binary32), x: real, w: real, e: nat, k: int) -> bool {
    &&& order::within(sums.0, e)
    &&& order::within(sums.1, 153)
    &&& sums.1.value() >= 3 * pow2(149)
    &&& reals::near(reals::num(sums.0), x, k as real / 30 as real)
    &&& reals::near(reals::num(sums.1), w, k as real / 1_000_000 as real)
}

/// One tap.
#[verifier::spinoff_prover]
proof fn lemma_tap(
    sums: (Binary32, Binary32),
    h: Seq<Binary32>,
    at: int,
    w: Binary32,
    wr: real,
    x: real,
    total: real,
    e: nat,
    k: int,
)
    requires
        heard(h),
        under_way(sums, x, total, e, k),
        0 <= k <= 5,
        166 <= e <= 169,
        order::within(w, 150),
        w.value() > 0,
        reals::num(w) == wr,
        1 as real <= wr <= 2 as real,
        reals::size(x) <= 300_000 as real,
        0 as real <= total <= 8 as real,
    ensures
        under_way(
            analysis::tap(sums, h, at, w),
            x + part(h, at, wr),
            total + heft(h, at, wr),
            (e + 1) as nat,
            k + 1,
        ),
{
    reals::lemma_eps();
    if 0 <= at < h.len() {
        let y = h[at];
        assert(soundness::audible(y));
        lemma_audible(y);
        order::lemma_within_mul(w, y, 150, 164);
        let p = w.mul(y);
        order::lemma_within_weaken(p, 165, e);
        order::lemma_within_add(sums.0, p, e);
        reals::lemma_num_product(w, y);
        reals::lemma_num_add(sums.0, p);
        let yr = reals::num(y);
        motion::lemma_limits(wr, yr, 2 as real, 32_768 as real);
        reals::lemma_eps_of(reals::size(wr * yr));
        let s = reals::num(sums.0) + reals::num(p);
        reals::lemma_eps_of(s);
        lemma_weights(sums.1, w, total, wr, k);
    } else {
        order::lemma_within_weaken(sums.0, e, (e + 1) as nat);
    }
}

/// The weights of a tap.
#[verifier::spinoff_prover]
proof fn lemma_weights(a: Binary32, w: Binary32, total: real, wr: real, k: int)
    requires
        order::within(a, 153),
        order::within(w, 150),
        a.value() >= 3 * pow2(149),
        w.value() > 0,
        reals::num(w) == wr,
        1 as real <= wr <= 2 as real,
        0 as real <= total <= 8 as real,
        0 <= k <= 5,
        reals::near(reals::num(a), total, k as real / 1_000_000 as real),
    ensures
        order::within(a.add(w), 153),
        a.add(w).value() >= 3 * pow2(149),
        reals::near(reals::num(a.add(w)), total + wr, (k + 1) as real / 1_000_000 as real),
{
    reals::lemma_eps();
    lemma2_to64();
    lemma_pow2_adds(4, 149);
    lemma_pow2_unfold(153);
    lemma_pow2_pos(149);
    order::lemma_within_weaken(w, 150, 153);
    order::lemma_within_add(a, w, 153);
    order::lemma_add(a, w, a);
    reals::lemma_num_add(a, w);
    let s = reals::num(a) + wr;
    reals::lemma_eps_of(s);
    let r = a.add(w);
    reals::lemma_num_order(r, 16);
    assert(reals::num(r) <= 16 as real);
    assert(r.value() <= 16 * pow2(149));
}

/// The centre of a smoother.
#[verifier::spinoff_prover]
proof fn lemma_centre(h: Seq<Binary32>, i: int)
    requires
        heard(h),
        0 <= i < HISTORY,
    ensures
        ({
            let three = Binary32::from_bits(THREE);
            under_way((three.mul(h[i]), three), part(h, i, 3 as real), 3 as real, 166, 1)
        }),
{
    let three = Binary32::from_bits(THREE);
    let y = h[i];
    reals::lemma_eps();
    assert(soundness::audible(y));
    lemma_audible(y);
    lemma_three();
    order::lemma_within_bits(three, 151);
    order::lemma_within_mul(three, y, 151, 164);
    reals::lemma_num_product(three, y);
    let yr = reals::num(y);
    motion::lemma_limits(3 as real, yr, 3 as real, 32_768 as real);
    reals::lemma_eps_of(reals::size(3 as real * yr));
    lemma_pow2_unfold(151);
    lemma_pow2_unfold(152);
    lemma_pow2_unfold(153);
    rounding::lemma_pow2_order(151, 153);
    reals::lemma_num_order(three, 3);
    order::lemma_within_weaken(three, 151, 153);
}

#[verifier::spinoff_prover]
proof fn lemma_three()
    ensures
        Binary32::from_bits(THREE).finite(),
        reals::num(Binary32::from_bits(THREE)) == 3 as real,
{
    let x = Binary32::from_bits(THREE);
    lemma2_to64();
    lemma_pow2_adds(127, 22);
    Binary32::lemma_value_of(x, 128, 0x40_0000);
    assert(x.size() == 3 * pow2(149)) by (nonlinear_arith)
        requires
            x.size() == (0x80_0000 + 0x40_0000) * pow2(127),
            pow2(149) == pow2(127) * 0x40_0000,
    ;
    reals::lemma_num_order(x, 3);
}

#[verifier::spinoff_prover]
proof fn lemma_one_and_two()
    ensures
        reals::num(Binary32::from_bits(math::ONE)) == 1 as real,
        reals::num(Binary32::from_bits(math::TWO)) == 2 as real,
        order::within(Binary32::from_bits(math::ONE), 150),
        order::within(Binary32::from_bits(math::TWO), 150),
        Binary32::from_bits(math::ONE).value() > 0,
        Binary32::from_bits(math::TWO).value() > 0,
{
    let one = Binary32::from_bits(math::ONE);
    let two = Binary32::from_bits(math::TWO);
    lemma_pow2_pos(149);
    lemma_pow2_unfold(150);
    order::lemma_power(149);
    order::lemma_power(150);
    assert(two == order::power(150) && one == order::power(149));
    reals::lemma_num_order(one, 1);
    reals::lemma_num_order(two, 2);
}

/// Sizes of the parts.
#[verifier::spinoff_prover]
proof fn lemma_part(h: Seq<Binary32>, at: int, w: real)
    requires
        heard(h),
        0 as real <= w <= 3 as real,
    ensures
        reals::size(part(h, at, w)) <= w * 32_768 as real,
        0 as real <= heft(h, at, w) <= w,
{
    if 0 <= at < h.len() {
        assert(soundness::audible(h[at]));
        lemma_audible(h[at]);
        motion::lemma_limits(w, reals::num(h[at]), w, 32_768 as real);
    } else {
        crate::exponential::lemma_product_sign(w, 32_768 as real);
    }
}

/// The two sums of a smoother.
#[verifier::spinoff_prover]
proof fn lemma_taps(h: Seq<Binary32>, i: int)
    requires
        heard(h),
        0 <= i < HISTORY,
    ensures
        ({
            let three = Binary32::from_bits(THREE);
            let two = Binary32::from_bits(math::TWO);
            let one = Binary32::from_bits(math::ONE);
            let centre = (three.mul(h[i]), three);
            let near = analysis::tap(analysis::tap(centre, h, i - 1, two), h, i + 1, two);
            let far = analysis::tap(analysis::tap(near, h, i - 2, one), h, i + 2, one);
            under_way(far, blurred(h, i), hefts(h, i), 170, 5)
        }),
{
    let three = Binary32::from_bits(THREE);
    let two = Binary32::from_bits(math::TWO);
    let one = Binary32::from_bits(math::ONE);
    lemma_one_and_two();
    lemma_centre(h, i);
    lemma_part(h, i, 3 as real);
    lemma_part(h, i - 1, 2 as real);
    lemma_part(h, i + 1, 2 as real);
    lemma_part(h, i - 2, 1 as real);
    lemma_part(h, i + 2, 1 as real);
    let a0 = part(h, i, 3 as real);
    let a1 = a0 + part(h, i - 1, 2 as real);
    let a2 = a1 + part(h, i + 1, 2 as real);
    let a3 = a2 + part(h, i - 2, 1 as real);
    let w1 = 3 as real + heft(h, i - 1, 2 as real);
    let w2 = w1 + heft(h, i + 1, 2 as real);
    let w3 = w2 + heft(h, i - 2, 1 as real);
    let s0 = (three.mul(h[i]), three);
    let s1 = analysis::tap(s0, h, i - 1, two);
    let s2 = analysis::tap(s1, h, i + 1, two);
    let s3 = analysis::tap(s2, h, i - 2, one);
    lemma_tap(s0, h, i - 1, two, 2 as real, a0, 3 as real, 166, 1);
    lemma_tap(s1, h, i + 1, two, 2 as real, a1, w1, 167, 2);
    lemma_tap(s2, h, i - 2, one, 1 as real, a2, w2, 168, 3);
    lemma_tap(s3, h, i + 2, one, 1 as real, a3, w3, 169, 4);
}

/// The smoothed signal is the mean of a sample and its two neighbours on
/// either side, weighted 1, 2, 3, 2, 1 and over those that there are: times
/// the weights it is the weighted sum, to less than one. It is of the size of
/// samples.
#[verifier::spinoff_prover]
pub proof fn law_smoothing_is_the_weighted_mean(h: Seq<Binary32>, i: int)
    requires
        heard(h),
        0 <= i < HISTORY,
    ensures
        order::within(analysis::smoothed(h)[i], 169),
        reals::near(hefts(h, i) * reals::num(analysis::smoothed(h)[i]), blurred(h, i), 1 as real),
        2 <= i < HISTORY - 2 ==> hefts(h, i) == 9 as real,
{
    let three = Binary32::from_bits(THREE);
    let two = Binary32::from_bits(math::TWO);
    let one = Binary32::from_bits(math::ONE);
    let centre = (three.mul(h[i]), three);
    let near = analysis::tap(analysis::tap(centre, h, i - 1, two), h, i + 1, two);
    let far = analysis::tap(analysis::tap(near, h, i - 2, one), h, i + 2, one);
    lemma_taps(h, i);
    lemma_part(h, i, 3 as real);
    lemma_part(h, i - 1, 2 as real);
    lemma_part(h, i + 1, 2 as real);
    lemma_part(h, i - 2, 1 as real);
    lemma_part(h, i + 2, 1 as real);
    lemma_pow2_unfold(150);
    lemma_pow2_pos(149);
    assert(far.1.size() >= pow2(150));
    order::lemma_within_div(far.0, far.1, 170, 150);
    let r = far.0.div(far.1);
    assert(analysis::smoothed(h)[i] == r);
    reals::lemma_num_quotient(far.0, far.1);
    reals::lemma_num_order(far.1, 3);
    lemma_mean(
        reals::num(r),
        reals::num(far.1),
        reals::num(far.0),
        hefts(h, i),
        blurred(h, i),
    );
}

/// A quotient, against the exact one.
#[verifier::spinoff_prover]
proof fn lemma_mean(r: real, w: real, x: real, total: real, sum: real)
    requires
        reals::near(
            r * w,
            x,
            reals::eps() * reals::size(x) + reals::ratio(1, 0x1_0000_0000_0000) * w,
        ),
        reals::near(x, sum, 5 as real / 30 as real),
        reals::near(w, total, 5 as real / 1_000_000 as real),
        reals::size(sum) <= 300_000 as real,
        3 as real <= w <= 10 as real,
    ensures
        reals::near(total * r, sum, 1 as real),
{
    reals::lemma_eps();
    reals::lemma_eps_of(reals::size(x));
    let t = reals::ratio(1, 0x1_0000_0000_0000);
    likeness::lemma_times(w, 10 as real, t);
    // r is at most a third of the sum.
    reals::lemma_size_product(r, w);
    let a = reals::size(r);
    likeness::lemma_times(3 as real, w, a);
    assert(a * (3 as real) == 3 as real * a) by (nonlinear_arith);
    let off = total - w;
    assert((total - w) * r == total * r - r * w) by (nonlinear_arith);
    motion::lemma_limits(off, r, 5 as real / 1_000_000 as real, 110_000 as real);
}

/// The smoothed history of samples is tame.
#[verifier::spinoff_prover]
pub proof fn lemma_tame(h: Seq<Binary32>)
    requires
        heard(h),
    ensures
        likeness::tame(analysis::smoothed(h)),
{
    let s = analysis::smoothed(h);
    assert forall|i: int| 0 <= i < HISTORY implies order::within(#[trigger] s[i], 169) by {
        law_smoothing_is_the_weighted_mean(h, i);
    }
}

/// An analyser starts as if it had heard silence.
pub proof fn law_listeners_start_from_silence(j: int)
    requires
        0 <= j < HISTORY,
    ensures
        Listener::start().history.len() == HISTORY,
        Listener::start().history[j].value() == 0,
        Listener::start().previous.value() == 0,
{
    rounding::lemma_magnitude_zero();
}

} // verus!
