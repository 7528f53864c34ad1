//! Silence stays silent: what is analysed from zeros renders as zeros.
use crate::binary32::Binary32;
use crate::lpc10::analysis;
use crate::lpc10::analysis::{Listener, MINUS_ZERO, PRE_EMPHASIS};
use crate::lpc10::half;
use crate::lpc10::half::HalfVoice;
use crate::lpc10::quant;
use crate::lpc10::soundness;
use crate::lpc10::synth;
use crate::lpc10::synth::{Shape, Voice, SUBFRAME_LEN};
use crate::lpc10::{Speech, FRAME_SAMPLES, HISTORY, ORDER};
use crate::math;
use crate::order;
use crate::rounding;
use vstd::arithmetic::power2::*;
use vstd::prelude::*;

verus! {

/// Zero, of either sign.
pub open spec fn null(x: Binary32) -> bool {
    x.pattern() == 0
}

/// Zero or not a number: what arithmetic can make of zeros.
pub open spec fn nil(x: Binary32) -> bool {
    null(x) || x.nan()
}

/// The product of a zero and a number.
proof fn lemma_null_mul(a: Binary32, b: Binary32)
    requires
        null(a) || null(b),
    ensures
        nil(a.mul(b)),
        a.finite() && b.finite() ==> null(a.mul(b)),
{
    if a.finite() && b.finite() {
        order::lemma_mul_zero(a, b);
    } else {
        reveal(Binary32::spec_mul);
    }
}

/// Products and sums of nothing are nothing.
proof fn lemma_nil(a: Binary32, b: Binary32)
    requires
        nil(a),
    ensures
        nil(a.mul(b)),
        nil(b.mul(a)),
        nil(b) ==> nil(a.add(b)) && nil(a.sub(b)),
        null(a) && null(b) ==> null(a.add(b)) && null(a.sub(b)),
{
    if null(a) {
        lemma_null_mul(a, b);
        lemma_null_mul(b, a);
    } else {
        reveal(Binary32::spec_mul);
    }
    reveal(Binary32::spec_add);
    rounding::lemma_magnitude_zero();
    order::lemma_signed(a.negative() && b.negative(), 0);
    order::lemma_signed(a.negative() && b.neg().negative(), 0);
    if null(b) {
        order::lemma_neg(b);
        order::lemma_signed(!b.negative(), 0);
    }
}

impl Voice {
    /// A voice with nothing left to say.
    pub open spec fn quiet(self) -> bool {
        &&& self.memory.len() == ORDER
        &&& forall|i: int| 0 <= i < ORDER ==> null(#[trigger] self.memory[i])
        &&& null(self.deemphasis)
        &&& null(self.previous.gain)
    }
}

proof fn lemma_contained_nil(x: Binary32)
    requires
        nil(x),
    ensures
        null(synth::contained(x)),
{
    rounding::lemma_magnitude_zero();
    let limit = Binary32::from_bits(synth::STATE_LIMIT);
    rounding::lemma_magnitude_order(0, limit.pattern());
}

proof fn lemma_filtered_nil(
    excitation: Binary32,
    predictor: Seq<Binary32>,
    memory: Seq<Binary32>,
    n: nat,
)
    requires
        nil(excitation),
        n <= ORDER,
        memory.len() == ORDER,
        forall|i: int| 0 <= i < ORDER ==> null(#[trigger] memory[i]),
    ensures
        nil(synth::filtered(excitation, predictor, memory, n)),
    decreases n,
{
    if n > 0 {
        lemma_filtered_nil(excitation, predictor, memory, (n - 1) as nat);
        let before = synth::filtered(excitation, predictor, memory, (n - 1) as nat);
        let p = predictor[n as int];
        let m = memory[n - 1];
        lemma_nil(m, p);
        lemma_nil(before, p.mul(m));
    }
}

/// With nothing to excite it a quiet voice stays quiet.
proof fn lemma_quiet_next(v: Voice, s: Shape)
    requires
        v.quiet(),
        nil(s.gain),
    ensures
        v.next(s).quiet(),
        v.sample(s) == 0,
{
    let e = v.excitation(s);
    lemma_nil(s.gain, math::sqrt(Binary32::of_int(s.period)));
    let noise = synth::noise_level(synth::xorshift(v.rng));
    lemma_nil(s.gain, noise);
    lemma_nil(noise.mul(s.gain), Binary32::from_bits(synth::NOISE_SCALE));
    lemma_filtered_nil(e, s.predictor, v.memory, ORDER as nat);
    lemma_contained_nil(synth::filtered(e, s.predictor, v.memory, ORDER as nat));
    let r = v.response(s);
    let pre = Binary32::from_bits(PRE_EMPHASIS);
    lemma_nil(v.deemphasis, pre);
    lemma_nil(r, pre.mul(v.deemphasis));
    lemma_contained_nil(r.add(pre.mul(v.deemphasis)));
    let w = v.next(s);
    assert forall|i: int| 0 <= i < ORDER implies null(#[trigger] w.memory[i]) by {
        if i > 0 {
            assert(w.memory[i] == v.memory[i - 1]);
        }
    }
    reveal(Binary32::whole_within);
    rounding::lemma_magnitude_zero();
    lemma_pow2_pos(149);
    vstd::arithmetic::div_mod::lemma_basic_div(0, pow2(149) as int);
}

proof fn lemma_quiet_within(v: Voice, speech: Speech, n: nat)
    requires
        v.quiet(),
        null(speech.gain),
    ensures
        v.within(speech, n).quiet(),
        nil(synth::shape(v.previous, speech, n as int / SUBFRAME_LEN as int).gain),
    decreases n,
{
    let t = synth::ramp(n as int / SUBFRAME_LEN as int);
    let from = v.previous.gain;
    let to = speech.gain;
    lemma_nil(to, from);
    lemma_nil(to.sub(from), t);
    lemma_nil(from, t.mul(to.sub(from)));
    if n > 0 {
        lemma_quiet_within(v, speech, (n - 1) as nat);
        let s = synth::shape(v.previous, speech, (n - 1) / SUBFRAME_LEN as int);
        lemma_quiet_next(v.within(speech, (n - 1) as nat), s);
    }
}

/// A frame without level, on a quiet voice, renders as zeros and leaves the
/// voice quiet.
pub proof fn law_silence_stays_silent(v: Voice, speech: Speech)
    requires
        v.quiet(),
        null(speech.gain),
    ensures
        v.after(speech).quiet(),
        v.samples(speech) == Seq::new(FRAME_SAMPLES as nat, |i: int| 0i16),
{
    lemma_quiet_within(v, speech, FRAME_SAMPLES as nat);
    let samples = v.samples(speech);
    assert forall|i: int| 0 <= i < FRAME_SAMPLES implies samples[i] == 0 by {
        lemma_quiet_within(v, speech, i as nat);
        lemma_quiet_next(
            v.within(speech, i as nat),
            synth::shape(v.previous, speech, i / SUBFRAME_LEN as int),
        );
    }
    assert(samples =~= Seq::new(FRAME_SAMPLES as nat, |i: int| 0i16));
}

/// A sum of products of zeros is zero.
proof fn lemma_sum_of_zeros(w: Seq<Binary32>, from: int, n: nat)
    requires
        forall|k: int| 0 <= k < n ==> null(#[trigger] w[from + k]),
    ensures
        null(
            analysis::sum_products(w, from, w, from, n, Binary32::from_bits(MINUS_ZERO)),
        ),
    decreases n,
{
    if n > 0 {
        lemma_sum_of_zeros(w, from, (n - 1) as nat);
        let x = w[from + (n - 1)];
        lemma_null_mul(x, x);
        lemma_nil(
            analysis::sum_products(w, from, w, from, (n - 1) as nat, Binary32::from_bits(
                MINUS_ZERO,
            )),
            x.mul(x),
        );
    }
}

/// Whether a run of samples is silence.
pub open spec fn silent(pcm: Seq<i16>) -> bool {
    forall|i: int| 0 <= i < pcm.len() ==> #[trigger] pcm[i] == 0
}

/// Zeros after a zero are analysed as silence: no level at all.
pub proof fn law_zeros_are_silence(l: Listener, frame: Seq<i16>)
    requires
        l.history.len() == HISTORY,
        null(l.previous),
        frame.len() == FRAME_SAMPLES,
        silent(frame),
    ensures
        l.analyzed(frame).gain == Binary32::from_bits(math::ZERO),
        null(l.after(frame).previous),
{
    let h = l.heard(frame);
    let current = h.skip(analysis::tail());
    rounding::lemma_magnitude_zero();
    lemma_pow2_pos(149);
    Binary32::lemma_of_int(0);
    rounding::lemma_magnitude_order(Binary32::of_int(0).pattern(), 0);
    let pre = Binary32::from_bits(PRE_EMPHASIS);
    let w = analysis::windowed(current, l.previous);
    assert forall|i: int| 0 <= i < FRAME_SAMPLES implies null(#[trigger] w[i]) by {
        assert(current[i] == Binary32::of_int(frame[i] as int));
        let before = if i == 0 {
            l.previous
        } else {
            current[i - 1]
        };
        assert(null(before)) by {
            if i > 0 {
                assert(current[i - 1] == Binary32::of_int(frame[i - 1] as int));
            }
        }
        lemma_null_mul(pre, before);
        lemma_nil(current[i], pre.mul(before));
        soundness::lemma_window(i);
        lemma_null_mul(current[i].sub(pre.mul(before)), analysis::window(i));
    }
    assert forall|k: int| 0 <= k < FRAME_SAMPLES implies null(#[trigger] w[0 + k]) by {
        assert(null(w[k]));
    }
    lemma_sum_of_zeros(w, 0, FRAME_SAMPLES as nat);
}

/// Streams start in silence, at both ends and at both rates.
pub proof fn law_streams_start_silent()
    ensures
        Listener::start().history.len() == HISTORY,
        null(Listener::start().previous),
        Voice::start().quiet(),
        HalfVoice::start().quiet(),
{
}

/// Level zero is sent as level zero.
pub proof fn lemma_no_level_is_sent(s: Speech)
    requires
        s.gain == Binary32::from_bits(math::ZERO),
    ensures
        null(quant::sent(s).gain),
{
    rounding::lemma_magnitude_zero();
}

impl HalfVoice {
    pub open spec fn quiet(self) -> bool {
        self.voice.quiet()
    }
}

/// The same of a superframe without level in either frame.
pub proof fn law_half_rate_silence_stays_silent(v: HalfVoice, bits: Seq<bool>)
    requires
        v.quiet(),
        null(half::speech_from(bits, 0).gain),
        null(half::speech_from(bits, 1).gain),
    ensures
        v.after(bits).quiet(),
        v.samples(bits) == Seq::new(half::SUPERFRAME_SAMPLES as nat, |i: int| 0i16),
{
    law_silence_stays_silent(v.voice, v.first(bits));
    law_silence_stays_silent(v.voice.after(v.first(bits)), half::speech_from(bits, 1));
    assert(v.samples(bits) =~= Seq::new(half::SUPERFRAME_SAMPLES as nat, |i: int| 0i16));
}

} // verus!
