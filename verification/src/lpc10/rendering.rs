//! What the synthesiser renders: the filter's equation, the output's, and the
//! samples, from one to the next and across frames.
use crate::binary32::Binary32;
use crate::lpc10::analysis;
use crate::lpc10::excitation;
use crate::lpc10::fading;
use crate::lpc10::lattice;
use crate::lpc10::normal;
use crate::lpc10::recovery;
use crate::lpc10::synth;
use crate::lpc10::synth::{Voice, SUBFRAME_LEN};
use crate::lpc10::{Speech, FRAME_SAMPLES, ORDER};
use crate::order;
use crate::reals;
use crate::rounding;
use crate::sums;
use vstd::arithmetic::power2::*;
use vstd::prelude::*;

verus! {

/// The reflection coefficients that the filter has at sample `n` of a frame,
/// as reals.
pub open spec fn tract(v: Voice, speech: Speech, n: int) -> Seq<real> {
    fading::exactly(
        synth::subframe_rc(v.previous.rc, speech.rc, synth::ramp(n / SUBFRAME_LEN as int)),
    )
}

/// What the exact filter of the tract makes of the latest ten values.
pub open spec fn predicted(v: Voice, speech: Speech, n: int) -> real {
    sums::sum(
        |j: int|
            lattice::exact(tract(v, speech, n), ORDER as nat, j) * reals::num(
                v.within(speech, n as nat).memory[j - 1],
            ),
        ORDER as nat,
    )
}

/// The filter's equation: each new value is what drives the filter and what
/// the all-pole filter of the subframe's reflection coefficients makes of the
/// ten values before it, but for rounding; and those ten move on by one.
#[verifier::spinoff_prover]
pub proof fn law_filter_runs_the_tract(v: Voice, speech: Speech, n: nat, most: real)
    requires
        v.memory.len() == ORDER,
        Speech::stable(v.previous.rc),
        Speech::stable(speech.rc),
        n < FRAME_SAMPLES,
        fading::calm(v, speech, (n + 1) as nat, most),
    ensures
        reals::near(
            reals::num(v.within(speech, (n + 1) as nat).memory[0]),
            reals::num(excitation::drive(v, speech, n as int)) + predicted(v, speech, n as int),
            fading::noise(tract(v, speech, n as int), most),
        ),
        forall|j: int|
            1 <= j < ORDER ==> v.within(speech, (n + 1) as nat).memory[j] == #[trigger] v.within(
                speech,
                n,
            ).memory[j - 1],
{
    let sub = n as int / SUBFRAME_LEN as int;
    let s = synth::shape(v.previous, speech, sub);
    let rc = synth::subframe_rc(v.previous.rc, speech.rc, synth::ramp(sub));
    let k = fading::exactly(rc);
    let ten = ORDER as nat;
    let w = v.within(speech, n);
    let c = s.predictor;
    synth::law_interpolated_filters_are_stable(v.previous.rc, speech.rc, sub);
    fading::lemma_predictor(rc, ten);
    assert(c == analysis::predictor(rc, ten));
    assert forall|j: int| 0 <= j <= ORDER implies order::within(#[trigger] c[j], 159) by {
        assert(order::within(c[j], (149 + ten) as nat));
    }
    let x = w.excitation(s);
    let far = fading::reach(k, ten);
    assert(fading::limited(w.memory, most));
    fading::lemma_filtered(x, c, w.memory, ten, most, far);
    let y = synth::filtered(x, c, w.memory, ten);
    fading::lemma_uncut(y);
    assert(v.within(speech, (n + 1) as nat) == w.next(s));
    assert(v.within(speech, (n + 1) as nat).memory[0] == y);
    lemma_exact_filter(c, k, w.memory, most);
    reals::lemma_eps();
    assert(reals::size(reals::num(w.memory[0])) <= most);
    lemma_total(far, most);
}

/// The filter that runs against the exact one.
#[verifier::spinoff_prover]
proof fn lemma_exact_filter(c: Seq<Binary32>, k: Seq<real>, memory: Seq<Binary32>, most: real)
    requires
        fading::limited(memory, most),
        fading::gap(c, k, ORDER as nat) <= 10 as real * (5 as real * (reals::eps()
            * fading::reach(k, ORDER as nat))),
    ensures
        ({
            let ten = ORDER as nat;
            reals::near(
                sums::sum(|j: int| reals::num(c[j]) * reals::num(memory[j - 1]), ten),
                sums::sum(|j: int| lattice::exact(k, ten, j) * reals::num(memory[j - 1]), ten),
                most * (50 as real * (reals::eps() * fading::reach(k, ten))),
            )
        }),
{
    let ten = ORDER as nat;
    let f = |j: int| reals::num(c[j]) * reals::num(memory[j - 1]);
    let g = |j: int| lattice::exact(k, ten, j) * reals::num(memory[j - 1]);
    let off = |j: int| f(j) + (-(1 as real)) * g(j);
    sums::lemma_linear(f, g, -(1 as real), ten);
    let ga = |j: int| reals::size(reals::num(c[j]) - lattice::exact(k, ten, j));
    let zero = |j: int| 0 as real;
    let w = |j: int| zero(j) + most * ga(j);
    sums::lemma_constant(0 as real, ten);
    sums::lemma_linear(zero, ga, most, ten);
    assert forall|j: int| 1 <= j <= ten implies -w(j) <= #[trigger] off(j) <= w(j) by {
        let x = reals::num(c[j]);
        let z = lattice::exact(k, ten, j);
        let m = reals::num(memory[j - 1]);
        assert(reals::size(m) <= most);
        lemma_apart(x, z, m);
        normal::lemma_limits(x - z, m, ga(j), most);
    }
    sums::lemma_bound(off, w, ten);
    let sg = sums::sum(g, ten);
    lemma_minus(sg);
    assert(ten as real * (0 as real) == 0 as real) by (nonlinear_arith);
    let gp = fading::gap(c, k, ten);
    assert(sums::sum(ga, ten) == gp);
    let room = 50 as real * (reals::eps() * fading::reach(k, ten));
    assert(reals::size(reals::num(memory[0])) <= most);
    crate::lpc10::likeness::lemma_times(gp, room, most);
}

#[verifier::spinoff_prover]
proof fn lemma_apart(x: real, z: real, m: real)
    ensures
        x * m + (-(1 as real)) * (z * m) == (x - z) * m,
{
    assert(x * m + (-(1 as real)) * (z * m) == (x - z) * m) by (nonlinear_arith);
}

#[verifier::spinoff_prover]
proof fn lemma_minus(x: real)
    ensures
        (-(1 as real)) * x == -x,
{
    assert((-(1 as real)) * x == -x) by (nonlinear_arith);
}

/// All roundings of a value together.
#[verifier::spinoff_prover]
proof fn lemma_total(far: real, most: real)
    requires
        far >= 1 as real,
        most >= 0 as real,
    ensures
        most * (50 as real * (reals::eps() * far)) + 10 as real * (4 as real * (far * normal::grain(
            most,
        ))) <= 180 as real * (far * normal::grain(most)),
{
    let e = reals::eps();
    let t = reals::ratio(1, 0x1_0000_0000_0000);
    reals::lemma_eps();
    assert(most * (50 as real * (e * far)) == 50 as real * (far * (e * most))) by (nonlinear_arith);
    assert(far * (e * most + t) == far * (e * most) + far * t) by (nonlinear_arith);
    crate::exponential::lemma_product_sign(far, t);
    crate::exponential::lemma_product_sign(e, most);
    crate::exponential::lemma_product_sign(far, e * most);
}

/// The output's equation: each output is the filter's new value and fifteen
/// sixteenths of the output before it, to 3/16, as long as that is within the
/// ceiling; and the sample is the output with its fraction cut off, or the
/// rail that it is beyond.
#[verifier::spinoff_prover]
pub proof fn law_output_undoes_the_emphasis(v: Voice, speech: Speech, n: nat)
    requires
        v.bounded(),
        n < FRAME_SAMPLES,
        ({
            let exact = reals::num(v.within(speech, (n + 1) as nat).memory[0]) + 15 as real
                / 16 as real * reals::num(v.within(speech, n).deemphasis);
            reals::size(exact) <= 999_000 as real
        }),
    ensures
        ({
            let w = v.within(speech, (n + 1) as nat);
            let out = reals::num(w.deemphasis);
            let sample = v.samples(speech)[n as int] as real;
            &&& reals::near(
                out,
                reals::num(w.memory[0]) + 15 as real / 16 as real * reals::num(
                    v.within(speech, n).deemphasis,
                ),
                3 as real / 16 as real,
            )
            &&& 0 as real <= out && out < 32_768 as real ==> sample <= out && out < sample
                + 1 as real
            &&& -(32_769 as real) < out && out <= 0 as real ==> sample >= out && out > sample
                - 1 as real
            &&& out >= 32_767 as real ==> sample == 32_767 as real
            &&& out <= -(32_768 as real) ==> sample == -(32_768 as real)
        }),
{
    let sub = n as int / SUBFRAME_LEN as int;
    let s = synth::shape(v.previous, speech, sub);
    lemma_bounded(v, speech, n);
    let u = v.within(speech, n);
    recovery::lemma_next_bounded(u, s);
    recovery::lemma_deemphasis(u.response(s), u.deemphasis);
    let sum = u.response(s).add(Binary32::from_bits(analysis::PRE_EMPHASIS).mul(u.deemphasis));
    lemma_below_ceiling(sum);
    fading::lemma_uncut(sum);
    let w = v.within(speech, (n + 1) as nat);
    assert(w == u.next(s));
    assert(w.memory[0] == u.response(s));
    lemma_cut(w.deemphasis);
    assert(v.samples(speech)[n as int] == u.sample(s));
}

/// A voice stays bounded within a frame.
#[verifier::spinoff_prover]
proof fn lemma_bounded(v: Voice, speech: Speech, n: nat)
    requires
        v.bounded(),
    ensures
        v.within(speech, n).bounded(),
    decreases n,
{
    if n > 0 {
        lemma_bounded(v, speech, (n - 1) as nat);
        recovery::lemma_next_bounded(
            v.within(speech, (n - 1) as nat),
            synth::shape(v.previous, speech, (n - 1) / SUBFRAME_LEN as int),
        );
    }
}

/// Below the ceiling.
#[verifier::spinoff_prover]
proof fn lemma_below_ceiling(x: Binary32)
    requires
        x.finite(),
        reals::size(reals::num(x)) <= 999_500 as real,
    ensures
        synth::bounded(x),
{
    fading::lemma_limit();
    reals::lemma_num_abs(x);
    reals::lemma_num_order(x.abs(), 1_000_000);
}

/// Cutting off the fraction.
#[verifier::spinoff_prover]
proof fn lemma_cut(x: Binary32)
    requires
        x.finite(),
    ensures
        ({
            let cut = (x.whole_within(i16::MIN as int, i16::MAX as int) as i16) as real;
            let r = reals::num(x);
            &&& 0 as real <= r && r < 32_768 as real ==> cut <= r && r < cut + 1 as real
            &&& -(32_769 as real) < r && r <= 0 as real ==> cut >= r && r > cut - 1 as real
            &&& r >= 32_767 as real ==> cut == 32_767 as real
            &&& r <= -(32_768 as real) ==> cut == -(32_768 as real)
        }),
{
    reveal(Binary32::whole_within);
    let unit = pow2(149) as int;
    lemma_pow2_pos(149);
    vstd::arithmetic::div_mod::lemma_fundamental_div_mod(x.size() as int, unit);
    vstd::arithmetic::div_mod::lemma_mod_bound(x.size() as int, unit);
    let q = x.size() as int / unit;
    assert(q * unit <= x.size() < (q + 1) * unit && q >= 0) by (nonlinear_arith)
        requires
            x.size() == unit * q + x.size() as int % unit,
            0 <= x.size() as int % unit < unit,
            x.size() >= 0,
            unit > 0,
    ;
    reals::lemma_num_order(x, q);
    reals::lemma_num_order(x, q + 1);
    assert((-q) * unit == -(q * unit) && (-q - 1) * unit == -((q + 1) * unit))
        by (nonlinear_arith);
    reals::lemma_num_order(x, -q);
    reals::lemma_num_order(x, -q - 1);
    reals::lemma_num_sign(x);
}

/// Frames join without a seam: the next frame starts from the filter values,
/// the output, the pulse phase and the generator that the last sample left,
/// and ramps from the parameters of the frame that ended.
pub proof fn law_frames_join(v: Voice, one: Speech, two: Speech)
    ensures
        ({
            let last = v.within(one, FRAME_SAMPLES as nat);
            let first = v.after(one).within(two, 0);
            &&& first.memory == last.memory
            &&& first.deemphasis == last.deemphasis
            &&& first.countdown == last.countdown
            &&& first.rng == last.rng
            &&& first.previous == one
        }),
{
}

} // verus!
