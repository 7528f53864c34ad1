//! What a decoder forgets.
//!
//! Two decoders that agree on everything but old filter state come together
//! again: the filter forgets within its ten values where there is nothing to
//! predict, and what the de-emphasis holds over fades sample by sample.
use crate::binary32::Binary32;
use crate::exponential;
use crate::lpc10::analysis;
use crate::lpc10::analysis::PRE_EMPHASIS;
use crate::lpc10::synth;
use crate::lpc10::synth::{Shape, Voice, STATE_LIMIT, SUBFRAMES, SUBFRAME_LEN};
use crate::lpc10::{Speech, FRAME_SAMPLES, ORDER};
use crate::math;
use crate::order;
use crate::reals;
use crate::rounding;
use vstd::arithmetic::power2::*;
use vstd::prelude::*;

verus! {

/// What is left of a difference after `n` samples of de-emphasis.
pub open spec fn decay(n: nat) -> real
    decreases n,
{
    if n == 0 {
        1 as real
    } else {
        15 as real / 16 as real * decay((n - 1) as nat)
    }
}

/// Decay is a power.
proof fn lemma_decay_sum(m: nat, n: nat)
    ensures
        decay((m + n) as nat) == decay(m) * decay(n),
        decay(n) > 0 as real,
    decreases n,
{
    let x = decay(m);
    if n == 0 {
        assert(x * (1 as real) == x) by (nonlinear_arith);
    } else {
        lemma_decay_sum(m, (n - 1) as nat);
        let y = decay((n - 1) as nat);
        let c = 15 as real / 16 as real;
        assert(c * (x * y) == x * (c * y)) by (nonlinear_arith);
        assert(m + n - 1 == m + (n - 1));
    }
}

/// A square of at most the square of what bounds the root.
proof fn lemma_decay_double(n: nat, most: real)
    requires
        decay(n) <= most,
    ensures
        decay((2 * n) as nat) <= most * most,
{
    lemma_decay_sum(n, n);
    let x = decay(n);
    assert(x * x <= most * most) by (nonlinear_arith)
        requires
            x > 0 as real,
            x <= most,
    ;
    assert(2 * n == n + n);
}

/// One frame leaves less than one part in 65,000.
pub proof fn lemma_decay_of_a_frame()
    ensures
        decay(FRAME_SAMPLES as nat) > 0 as real,
        65_000 as real * decay(FRAME_SAMPLES as nat) <= 1 as real,
{
    reveal_with_fuel(decay, 12);
    let half = 1 as real / 2 as real;
    assert(decay(11) <= half);
    lemma_decay_double(11, half);
    assert(half * half == 1 as real / 4 as real) by (nonlinear_arith)
        requires
            half == 1 as real / 2 as real,
    ;
    let a = 1 as real / 4 as real;
    lemma_decay_double(22, a);
    assert(a * a == 1 as real / 16 as real) by (nonlinear_arith)
        requires
            a == 1 as real / 4 as real,
    ;
    let b = 1 as real / 16 as real;
    lemma_decay_double(44, b);
    assert(b * b == 1 as real / 256 as real) by (nonlinear_arith)
        requires
            b == 1 as real / 16 as real,
    ;
    let c = 1 as real / 256 as real;
    lemma_decay_double(88, c);
    assert(c * c == 1 as real / 65_536 as real) by (nonlinear_arith)
        requires
            c == 1 as real / 256 as real,
    ;
    lemma_decay_sum(176, 4);
    let x = decay(176);
    let y = decay(4);
    lemma_decay_sum(0, 176);
    assert(x * y <= x) by (nonlinear_arith)
        requires
            x > 0 as real,
            y <= 1 as real,
    ;
}

/// Coefficients that predict nothing.
pub open spec fn flat(rc: Seq<Binary32>) -> bool {
    &&& rc.len() == ORDER
    &&& forall|i: int| 0 <= i < ORDER ==> nothing(#[trigger] rc[i])
}

/// Zero, of either sign.
pub open spec fn nothing(x: Binary32) -> bool {
    x.finite() && x.value() == 0
}

/// Nothing times a number is nothing.
pub proof fn lemma_nothing_times(a: Binary32, b: Binary32)
    requires
        a.finite(),
        b.finite(),
        nothing(a) || nothing(b),
    ensures
        nothing(a.mul(b)),
{
    let none = Binary32::from_bits(math::ZERO);
    rounding::lemma_magnitude_zero();
    assert(a.size() * b.size() == 0 && none.size() * pow2(149) == 0) by (nonlinear_arith)
        requires
            a.size() == 0 || b.size() == 0,
            none.size() == 0,
    ;
    order::lemma_mul(a, b, none);
    order::lemma_finite(a.mul(b), none);
}

/// A number and nothing is the number.
pub proof fn lemma_and_nothing(a: Binary32, b: Binary32)
    requires
        nothing(b),
    ensures
        a.finite() ==> a.add(b).finite() && a.add(b).value() == a.value(),
        a.finite() ==> a.sub(b).finite() && a.sub(b).value() == a.value(),
        !a.finite() ==> !a.add(b).finite(),
{
    rounding::lemma_magnitude_zero();
    order::lemma_neg(b);
    if a.finite() {
        order::lemma_add(a, b, a);
        order::lemma_finite(a.add(b), a);
        order::lemma_add(a, b.neg(), a);
        order::lemma_finite(a.sub(b), a);
    } else {
        reveal(Binary32::spec_add);
        order::lemma_signed(false, rounding::INFINITY_BITS as nat);
        order::lemma_signed(true, rounding::INFINITY_BITS as nat);
    }
}

/// A predictor of coefficients that predict nothing predicts nothing.
proof fn lemma_flat_predictor(rc: Seq<Binary32>, n: nat)
    requires
        flat(rc),
        n <= ORDER,
    ensures
        analysis::predictor(rc, n).len() == ORDER + 1,
        forall|j: int| 0 <= j <= ORDER ==> nothing(#[trigger] analysis::predictor(rc, n)[j]),
    decreases n,
{
    rounding::lemma_magnitude_zero();
    if n > 0 {
        lemma_flat_predictor(rc, (n - 1) as nat);
        let a = analysis::predictor(rc, (n - 1) as nat);
        let k = rc[n - 1];
        let b = analysis::predictor(rc, n);
        assert(nothing(k));
        assert forall|j: int| 0 <= j <= ORDER implies nothing(#[trigger] b[j]) by {
            assert(nothing(a[j]));
            if 1 <= j < n {
                assert(nothing(a[n - j]));
                lemma_nothing_times(k, a[n - j]);
                lemma_and_nothing(a[j], k.mul(a[n - j]));
            }
        }
    }
}

/// Between nothing and nothing lies nothing.
proof fn lemma_flat_shape(previous: Speech, speech: Speech, subframe: int)
    requires
        flat(previous.rc),
        flat(speech.rc),
        0 <= subframe < SUBFRAMES,
    ensures
        ({
            let p = synth::shape(previous, speech, subframe).predictor;
            &&& p.len() == ORDER + 1
            &&& forall|j: int| 0 <= j <= ORDER ==> nothing(#[trigger] p[j])
        }),
{
    let t = synth::ramp(subframe);
    synth::lemma_ramp(subframe);
    let rc = synth::subframe_rc(previous.rc, speech.rc, t);
    assert forall|i: int| 0 <= i < ORDER implies nothing(#[trigger] rc[i]) by {
        let from = previous.rc[i];
        let to = speech.rc[i];
        assert(nothing(from) && nothing(to));
        lemma_and_nothing(to, from);
        lemma_nothing_times(t, to.sub(from));
        lemma_and_nothing(from, t.mul(to.sub(from)));
    }
    lemma_flat_predictor(rc, ORDER as nat);
}

/// A filter that predicts nothing adds nothing.
proof fn lemma_flat_filter(
    excitation: Binary32,
    predictor: Seq<Binary32>,
    memory: Seq<Binary32>,
    n: nat,
)
    requires
        n <= ORDER,
        memory.len() == ORDER,
        forall|j: int| 0 <= j <= ORDER ==> nothing(#[trigger] predictor[j]),
        forall|i: int| 0 <= i < ORDER ==> synth::bounded(#[trigger] memory[i]),
    ensures
        ({
            let value = synth::filtered(excitation, predictor, memory, n);
            &&& value.finite() == excitation.finite()
            &&& value.finite() ==> value.value() == excitation.value()
        }),
    decreases n,
{
    if n > 0 {
        lemma_flat_filter(excitation, predictor, memory, (n - 1) as nat);
        assert(nothing(predictor[n as int]));
        assert(synth::bounded(memory[n - 1]));
        lemma_nothing_times(predictor[n as int], memory[n - 1]);
        lemma_and_nothing(
            synth::filtered(excitation, predictor, memory, (n - 1) as nat),
            predictor[n as int].mul(memory[n - 1]),
        );
    }
}

/// Equal numbers are contained alike.
proof fn lemma_contained_alike(x: Binary32, y: Binary32)
    requires
        x.finite() == y.finite(),
        x.finite() ==> x.value() == y.value(),
    ensures
        synth::contained(x).value() == synth::contained(y).value(),
{
}

/// Whether two voices are excited alike.
pub open spec fn in_time(a: Voice, b: Voice) -> bool {
    &&& a.countdown == b.countdown
    &&& a.rng == b.rng
}

/// The difference that two outputs hold over.
pub open spec fn echo(a: Voice, b: Voice) -> real {
    reals::size(reals::num(a.deemphasis) - reals::num(b.deemphasis))
}

/// Containing two numbers brings them no further apart.
proof fn lemma_contained_near(x: Binary32, y: Binary32)
    requires
        x.finite(),
        y.finite(),
    ensures
        reals::size(reals::num(synth::contained(x)) - reals::num(synth::contained(y)))
            <= reals::size(reals::num(x) - reals::num(y)),
{
    let p = synth::contained(x);
    let q = synth::contained(y);
    reals::lemma_num(x);
    reals::lemma_num(y);
    reals::lemma_num(p);
    reals::lemma_num(q);
    reals::lemma_unit();
    let u = pow2(149) as real;
    let xv = x.value() as real;
    let yv = y.value() as real;
    let pv = p.value() as real;
    let qv = q.value() as real;
    assert(reals::size(pv - qv) <= reals::size(xv - yv));
    let d = reals::num(p) - reals::num(q);
    let e = reals::num(x) - reals::num(y);
    lemma_times_unit(reals::num(p), reals::num(q), u);
    lemma_times_unit(reals::num(x), reals::num(y), u);
    let sd = reals::size(d);
    let se = reals::size(e);
    assert(sd <= se) by (nonlinear_arith)
        requires
            sd * u <= se * u,
            u > 0 as real,
    ;
}

/// The size of a difference, in units.
proof fn lemma_times_unit(a: real, b: real, u: real)
    requires
        u > 0 as real,
    ensures
        reals::size(a - b) * u == reals::size(a * u - b * u),
{
    let d = a - b;
    assert((a - b) * u == a * u - b * u) by (nonlinear_arith);
    reals::lemma_size_product(d, u);
}

/// A bounded number as a real.
pub proof fn lemma_bounded(x: Binary32)
    requires
        synth::bounded(x),
    ensures
        reals::size(reals::num(x)) <= 1_000_000 as real,
{
    let limit = Binary32::from_bits(STATE_LIMIT);
    lemma2_to64();
    lemma_pow2_adds(145, 4);
    Binary32::lemma_value_of(limit, 146, 0x74_2400);
    assert(limit.size() == 1_000_000 * pow2(149)) by (nonlinear_arith)
        requires
            limit.size() == (0x80_0000 + 0x74_2400) * pow2(145),
            pow2(149) == pow2(145) * 16,
    ;
    reals::lemma_num_abs(x);
    reals::lemma_num_order(x.abs(), 1_000_000);
}

/// What de-emphasis adds, against the exact sum.
pub proof fn lemma_deemphasis(response: Binary32, held: Binary32)
    requires
        synth::bounded(response),
        synth::bounded(held),
    ensures
        ({
            let sum = response.add(Binary32::from_bits(PRE_EMPHASIS).mul(held));
            &&& sum.finite()
            &&& reals::near(
                reals::num(sum),
                reals::num(response) + 15 as real / 16 as real * reals::num(held),
                3 as real / 16 as real,
            )
        }),
{
    let factor = Binary32::from_bits(PRE_EMPHASIS);
    reals::lemma_eps();
    lemma2_to64();
    exponential::lemma_constant(PRE_EMPHASIS, 126, 0x70_0000, 24);
    let c = reals::num(factor);
    assert(c == 15 as real / 16 as real) by (nonlinear_arith)
        requires
            c * 0x100_0000 as real == 0xf0_0000 as real,
    ;
    lemma_bounded(response);
    lemma_bounded(held);
    let limit = Binary32::from_bits(STATE_LIMIT);
    order::lemma_within_bits(factor, 149);
    order::lemma_power(169);
    order::lemma_within_bits(limit, 169);
    assert(order::within(held, 169) && order::within(response, 169));
    order::lemma_within_mul(factor, held, 149, 169);
    let part = factor.mul(held);
    order::lemma_within_add(response, part, 169);
    reals::lemma_num_product(factor, held);
    reals::lemma_num_add(response, part);
    let h = reals::num(held);
    reals::lemma_eps_of(reals::size(c * h));
    let s = reals::num(response) + reals::num(part);
    reals::lemma_eps_of(s);
}

/// One sample: two voices that are excited alike, with nothing to predict,
/// filter alike, and their outputs draw nearer.
proof fn lemma_flat_sample(a: Voice, b: Voice, s: Shape)
    requires
        a.bounded(),
        b.bounded(),
        in_time(a, b),
        forall|j: int| 0 <= j <= ORDER ==> nothing(#[trigger] s.predictor[j]),
    ensures
        a.next(s).bounded(),
        b.next(s).bounded(),
        in_time(a.next(s), b.next(s)),
        a.response(s).value() == b.response(s).value(),
        echo(a.next(s), b.next(s)) <= 15 as real / 16 as real * echo(a, b) + 3 as real / 8 as real,
{
    let x = a.excitation(s);
    assert(x == b.excitation(s));
    let p = synth::filtered(x, s.predictor, a.memory, ORDER as nat);
    let q = synth::filtered(x, s.predictor, b.memory, ORDER as nat);
    lemma_flat_filter(x, s.predictor, a.memory, ORDER as nat);
    lemma_flat_filter(x, s.predictor, b.memory, ORDER as nat);
    lemma_contained_alike(p, q);
    synth::lemma_contained(p);
    synth::lemma_contained(q);
    lemma_next_bounded(a, s);
    lemma_next_bounded(b, s);
    law_output_difference_fades(a, b, s);
    assert(reals::num(a.response(s)) == reals::num(b.response(s)));
}

/// A voice stays bounded.
pub proof fn lemma_next_bounded(v: Voice, s: Shape)
    requires
        v.bounded(),
    ensures
        v.next(s).bounded(),
        synth::bounded(v.response(s)),
{
    synth::lemma_contained(
        synth::filtered(v.excitation(s), s.predictor, v.memory, ORDER as nat),
    );
    synth::lemma_contained(
        v.response(s).add(Binary32::from_bits(PRE_EMPHASIS).mul(v.deemphasis)),
    );
    let w = v.next(s);
    assert forall|i: int| 0 <= i < ORDER implies synth::bounded(#[trigger] w.memory[i]) by {
        if i > 0 {
            assert(w.memory[i] == v.memory[i - 1]);
            assert(synth::bounded(v.memory[i - 1]));
        }
    }
}

/// The difference of two outputs fades: after a sample it is at most fifteen
/// sixteenths of what it was, the difference of the filters' answers, and
/// 3/8 for rounding.
pub proof fn law_output_difference_fades(a: Voice, b: Voice, s: Shape)
    requires
        a.bounded(),
        b.bounded(),
    ensures
        echo(a.next(s), b.next(s)) <= 15 as real / 16 as real * echo(a, b) + reals::size(
            reals::num(a.response(s)) - reals::num(b.response(s)),
        ) + 3 as real / 8 as real,
{
    let c = 15 as real / 16 as real;
    let factor = Binary32::from_bits(PRE_EMPHASIS);
    lemma_next_bounded(a, s);
    lemma_next_bounded(b, s);
    lemma_deemphasis(a.response(s), a.deemphasis);
    lemma_deemphasis(b.response(s), b.deemphasis);
    let x = a.response(s).add(factor.mul(a.deemphasis));
    let y = b.response(s).add(factor.mul(b.deemphasis));
    lemma_contained_near(x, y);
    let p = reals::num(a.deemphasis);
    let q = reals::num(b.deemphasis);
    assert(c * p - c * q == c * (p - q)) by (nonlinear_arith);
}

/// Two voices within a frame that has nothing to predict, after `n` samples.
proof fn lemma_flat_frame(a: Voice, b: Voice, speech: Speech, n: nat)
    requires
        a.bounded(),
        b.bounded(),
        in_time(a, b),
        a.previous == b.previous,
        flat(a.previous.rc),
        flat(speech.rc),
        n <= FRAME_SAMPLES,
    ensures
        ({
            let p = a.within(speech, n);
            let q = b.within(speech, n);
            &&& p.bounded() && q.bounded()
            &&& in_time(p, q)
            &&& forall|i: int|
                0 <= i < n && i < ORDER ==> #[trigger] p.memory[i].value() == q.memory[i].value()
            &&& echo(p, q) <= decay(n) * echo(a, b) + 6 as real
        }),
    decreases n,
{
    let gap = echo(a, b);
    if n == 0 {
        assert(1 as real * gap == gap) by (nonlinear_arith);
    } else {
        let l = (n - 1) as nat;
        lemma_flat_frame(a, b, speech, l);
        let p = a.within(speech, l);
        let q = b.within(speech, l);
        let k = (n - 1) / SUBFRAME_LEN as int;
        let s = synth::shape(a.previous, speech, k);
        lemma_flat_shape(a.previous, speech, k);
        lemma_flat_sample(p, q, s);
        let x = a.within(speech, n);
        let y = b.within(speech, n);
        assert(x == p.next(s) && y == q.next(s));
        assert forall|i: int| 0 <= i < n && i < ORDER implies #[trigger] x.memory[i].value()
            == y.memory[i].value() by {
            if i > 0 {
                assert(x.memory[i] == p.memory[i - 1] && y.memory[i] == q.memory[i - 1]);
                assert(p.memory[i - 1].value() == q.memory[i - 1].value());
            } else {
                assert(x.memory[0] == p.response(s) && y.memory[0] == q.response(s));
            }
        }
        let c = 15 as real / 16 as real;
        let d = decay(l);
        assert(c * (d * gap) == (c * d) * gap) by (nonlinear_arith);
    }
}

/// Old filter state is forgotten where there is nothing to predict. Two
/// sound voices that come from the same frame and are excited alike, through
/// a frame whose coefficients are all zero as those before it were: after it
/// their filter values are equal numbers, they are excited alike still, and
/// the difference of their outputs is at most one part in 65,000 of what it
/// was, and 6 for all rounding together.
pub proof fn law_old_state_is_forgotten(a: Voice, b: Voice, speech: Speech)
    requires
        a.sound(),
        b.sound(),
        a.previous == b.previous,
        in_time(a, b),
        flat(a.previous.rc),
        flat(speech.rc),
    ensures
        ({
            let p = a.after(speech);
            let q = b.after(speech);
            &&& p.previous == q.previous
            &&& in_time(p, q)
            &&& forall|i: int|
                0 <= i < ORDER ==> #[trigger] p.memory[i].value() == q.memory[i].value()
            &&& 65_000 as real * (echo(p, q) - 6 as real) <= echo(a, b)
        }),
{
    lemma_flat_frame(a, b, speech, FRAME_SAMPLES as nat);
    lemma_decay_of_a_frame();
    let d = decay(FRAME_SAMPLES as nat);
    let gap = echo(a, b);
    let k = 65_000 as real * d;
    assert(k * gap <= gap) by (nonlinear_arith)
        requires
            k <= 1 as real,
            gap >= 0 as real,
    ;
    assert((65_000 as real * d) * gap == 65_000 as real * (d * gap)) by (nonlinear_arith);
    let p = a.within(speech, FRAME_SAMPLES as nat);
    let q = b.within(speech, FRAME_SAMPLES as nat);
    assert(a.after(speech).memory == p.memory && b.after(speech).memory == q.memory);
    assert forall|i: int| 0 <= i < ORDER implies #[trigger] a.after(speech).memory[i].value()
        == b.after(speech).memory[i].value() by {
        assert(p.memory[i].value() == q.memory[i].value());
    }
}

} // verus!
