//! Synthesis: rebuild speech from the parameters, not from the waveform.
//!
//! An excitation is manufactured, either a train of pulses at the
//! transmitted pitch or white noise, and pushed through the all-pole filter
//! the reflection coefficients describe. The result sounds like the talker
//! and carries the words; it does not resemble the original waveform sample
//! by sample, and no measure that compares them sample by sample says
//! anything useful about it.
use crate::binary32::Binary32;
use crate::lpc10::analysis;
use crate::lpc10::analysis::PRE_EMPHASIS;
use crate::lpc10::{Params, Speech, FRAME_SAMPLES, ORDER};
use crate::math;
use crate::order;
use crate::rounding;
use vstd::arithmetic::power2::*;
use vstd::prelude::*;

verus! {

/// Parameters are interpolated across this many subframes, so a filter
/// never jumps between frames. Reflection coefficients interpolate safely:
/// both endpoints sit inside (-1, 1) and so does everything between them.
pub const SUBFRAMES: usize = 4;

pub const SUBFRAME_LEN: usize = 45;

/// Ceiling on filter state, so no arithmetic edge can push the recursion to
/// infinity and leave it there: 10^6, and -10^6.
pub const STATE_LIMIT: u32 = 0x4974_2400;

pub const MINUS_STATE_LIMIT: u32 = 0xc974_2400;

/// Uniform noise has RMS 1/sqrt(3); this is sqrt(3).
pub const NOISE_SCALE: u32 = 0x3fdd_b3d7;

/// 2^32, which is what the largest 32-bit integer rounds to.
pub const NOISE_RANGE: u32 = 0x4f80_0000;

/// 4
pub const FOUR: u32 = 0x4080_0000;

/// 1 - 2^-23, the highest noise level.
pub const NOISE_TOP: u32 = 0x3f7f_fffe;

/// Seed of the noise generator.
pub const NOISE_SEED: u32 = 0x2545_f491;

/// One step of the xorshift generator.
pub open spec fn xorshift(x: u32) -> u32 {
    let a = x ^ (x << 13u32);
    let b = a ^ (a >> 17u32);
    b ^ (b << 5u32)
}

/// Uniform noise in [-1, 1) from the generator's state. The highest states
/// round up to the end of the range; they take the highest level below it.
pub open spec fn noise_level(x: u32) -> Binary32 {
    let level = Binary32::of_int(x as int).div(Binary32::from_bits(NOISE_RANGE)).mul(
        Binary32::from_bits(math::TWO),
    ).sub(Binary32::from_bits(math::ONE));
    if level.lt(Binary32::from_bits(math::ONE)) {
        level
    } else {
        Binary32::from_bits(NOISE_TOP)
    }
}

/// A filter value that is a number, kept within the ceiling. What is not a
/// number becomes zero.
pub open spec fn contained(x: Binary32) -> Binary32 {
    let kept = if x.finite() {
        x
    } else {
        Binary32::from_bits(math::ZERO)
    };
    kept.clamp(Binary32::from_bits(MINUS_STATE_LIMIT), Binary32::from_bits(STATE_LIMIT))
}

/// The filter's share of the next value, from the `n` latest ones.
pub open spec fn filtered(
    excitation: Binary32,
    predictor: Seq<Binary32>,
    memory: Seq<Binary32>,
    n: nat,
) -> Binary32
    decreases n,
{
    if n == 0 {
        excitation
    } else {
        filtered(excitation, predictor, memory, (n - 1) as nat).add(
            predictor[n as int].mul(memory[n - 1]),
        )
    }
}

/// What shapes one subframe.
pub struct Shape {
    pub voiced: bool,
    pub period: int,
    pub gain: Binary32,
    pub predictor: Seq<Binary32>,
}

/// How far into the frame a subframe's middle lies.
pub open spec fn ramp(subframe: int) -> Binary32 {
    Binary32::of_int(subframe).add(Binary32::from_bits(math::HALF)).div(Binary32::from_bits(FOUR))
}

/// A point between two values.
pub open spec fn between(from: Binary32, to: Binary32, t: Binary32) -> Binary32 {
    from.add(t.mul(to.sub(from)))
}

/// The reflection coefficients of a subframe.
pub open spec fn subframe_rc(from: Seq<Binary32>, to: Seq<Binary32>, t: Binary32) -> Seq<Binary32> {
    Seq::new(ORDER as nat, |i: int| between(from[i], to[i], t))
}

/// The shape of a subframe, ramping from the previous frame to this one.
pub open spec fn shape(previous: Speech, speech: Speech, subframe: int) -> Shape {
    let t = ramp(subframe);
    Shape {
        voiced: speech.voiced,
        period: if speech.pitch < 1 {
            1
        } else {
            speech.pitch
        },
        gain: between(previous.gain, speech.gain, t),
        predictor: analysis::predictor(subframe_rc(previous.rc, speech.rc, t), ORDER as nat),
    }
}

/// What a synthesiser remembers.
#[verifier::ext_equal]
pub struct Voice {
    pub previous: Speech,
    /// Latest filter values, newest first.
    pub memory: Seq<Binary32>,
    pub deemphasis: Binary32,
    /// Samples until the next glottal pulse.
    pub countdown: int,
    pub rng: u32,
}

impl Voice {
    pub open spec fn start() -> Voice {
        Voice {
            previous: Speech::silence(),
            memory: analysis::zeros(ORDER as nat),
            deemphasis: Binary32::from_bits(math::ZERO),
            countdown: 0,
            rng: NOISE_SEED,
        }
    }

    /// The excitation of the next sample: one pulse per period carrying the
    /// whole period's energy (the RMS of an impulse train of amplitude A and
    /// period T is A / sqrt(T)), or noise.
    pub open spec fn excitation(self, s: Shape) -> Binary32 {
        if s.voiced {
            if self.countdown == 0 {
                s.gain.mul(math::sqrt(Binary32::of_int(s.period)))
            } else {
                Binary32::from_bits(math::ZERO)
            }
        } else {
            noise_level(xorshift(self.rng)).mul(s.gain).mul(Binary32::from_bits(NOISE_SCALE))
        }
    }

    /// The next filter value.
    pub open spec fn response(self, s: Shape) -> Binary32 {
        contained(filtered(self.excitation(s), s.predictor, self.memory, ORDER as nat))
    }

    /// The next output value, with the analyser's pre-emphasis undone.
    pub open spec fn output(self, s: Shape) -> Binary32 {
        contained(
            self.response(s).add(Binary32::from_bits(PRE_EMPHASIS).mul(self.deemphasis)),
        )
    }

    /// The next sample.
    pub open spec fn sample(self, s: Shape) -> i16 {
        self.output(s).whole_within(i16::MIN as int, i16::MAX as int) as i16
    }

    /// The synthesiser after the next sample.
    pub open spec fn next(self, s: Shape) -> Voice {
        Voice {
            previous: self.previous,
            memory: seq![self.response(s)] + self.memory.drop_last(),
            deemphasis: self.output(s),
            countdown: if !s.voiced {
                self.countdown
            } else if self.countdown == 0 {
                s.period - 1
            } else {
                self.countdown - 1
            },
            rng: if s.voiced {
                self.rng
            } else {
                xorshift(self.rng)
            },
        }
    }

    /// The synthesiser within a frame, after `n` samples of it.
    pub open spec fn within(self, speech: Speech, n: nat) -> Voice
        decreases n,
    {
        if n == 0 {
            self
        } else {
            self.within(speech, (n - 1) as nat).next(
                shape(self.previous, speech, (n - 1) / SUBFRAME_LEN as int),
            )
        }
    }

    /// The samples of a frame.
    pub open spec fn samples(self, speech: Speech) -> Seq<i16> {
        Seq::new(
            FRAME_SAMPLES as nat,
            |i: int|
                self.within(speech, i as nat).sample(
                    shape(self.previous, speech, i / SUBFRAME_LEN as int),
                ),
        )
    }

    /// The synthesiser after a frame.
    pub open spec fn after(self, speech: Speech) -> Voice {
        Voice { previous: speech, ..self.within(speech, FRAME_SAMPLES as nat) }
    }
}

/// Rolling synthesis state.
///
/// Unlike the ADPCM decoder this one is not stateless: it carries filter
/// memory, the pitch pulse phase, and the previous frame's parameters for
/// interpolation. A frame still *describes* itself completely, so a decoder
/// that missed earlier frames recovers within a few milliseconds rather
/// than desynchronising.
pub struct Synthesizer {
    previous: Params,
    filter_memory: [Binary32; 10],
    deemphasis: Binary32,
    /// Samples until the next glottal pulse, carried across frames so pitch
    /// stays continuous.
    pulse_countdown: usize,
    rng: u32,
}

impl View for Synthesizer {
    type V = Voice;

    closed spec fn view(&self) -> Voice {
        Voice {
            previous: self.previous@,
            memory: self.filter_memory@,
            deemphasis: self.deemphasis,
            countdown: self.pulse_countdown as int,
            rng: self.rng,
        }
    }
}

impl Default for Synthesizer {
    fn default() -> (r: Synthesizer)
        ensures
            r@ == Voice::start(),
    {
        Self::new()
    }
}

/// A filter value that is a number, kept within the ceiling.
fn contain(x: Binary32) -> (r: Binary32)
    ensures
        r == contained(x),
{
    let kept = if x.is_finite() { x } else { Binary32::from_bits(math::ZERO) };
    kept.clamp(Binary32::from_bits(MINUS_STATE_LIMIT), Binary32::from_bits(STATE_LIMIT))
}

/// A point between two values.
fn blend(from: Binary32, to: Binary32, t: Binary32) -> (r: Binary32)
    ensures
        r == between(from, to, t),
{
    from.add(t.mul(to.sub(from)))
}

impl Synthesizer {
    /// A synthesiser that has rendered only silence.
    pub fn new() -> (r: Synthesizer)
        ensures
            r@ == Voice::start(),
    {
        let nought = Binary32::from_bits(math::ZERO);
        let r = Synthesizer {
            previous: Params::silence(),
            filter_memory: [nought; 10],
            deemphasis: nought,
            pulse_countdown: 0,
            rng: NOISE_SEED,
        };
        assert(r@ =~= Voice::start());
        r
    }

    /// Uniform noise in [-1, 1) from a xorshift generator. Deterministic on
    /// purpose: the same frame decodes to the same samples everywhere.
    fn noise(&mut self) -> (r: Binary32)
        ensures
            final(self)@ == (Voice { rng: xorshift(old(self)@.rng), ..old(self)@ }),
            r == noise_level(final(self)@.rng),
    {
        let a: u32 = self.rng ^ (self.rng << 13u32);
        let b: u32 = a ^ (a >> 17u32);
        self.rng = b ^ (b << 5u32);
        let level = Binary32::from_i64(self.rng as i64).div(Binary32::from_bits(NOISE_RANGE)).mul(
            Binary32::from_bits(math::TWO),
        ).sub(Binary32::from_bits(math::ONE));
        if level.lt(Binary32::from_bits(math::ONE)) {
            level
        } else {
            Binary32::from_bits(NOISE_TOP)
        }
    }

    /// Render one sample.
    fn tick(
        &mut self,
        voiced: bool,
        period: usize,
        gain: Binary32,
        predictor: &[Binary32; 11],
    ) -> (sample: i16)
        requires
            1 <= period <= 255,
        ensures
            ({
                let s = Shape { voiced, period: period as int, gain, predictor: predictor@ };
                &&& sample == old(self)@.sample(s)
                &&& final(self)@ == old(self)@.next(s)
            }),
    {
        let ghost before = self@;
        let ghost s = Shape { voiced, period: period as int, gain, predictor: predictor@ };
        let excitation = if voiced {
            if self.pulse_countdown == 0 {
                self.pulse_countdown = period - 1;
                gain.mul(math::sqrt(Binary32::from_i64(period as i64)))
            } else {
                self.pulse_countdown = self.pulse_countdown - 1;
                Binary32::from_bits(math::ZERO)
            }
        } else {
            self.noise().mul(gain).mul(Binary32::from_bits(NOISE_SCALE))
        };
        assert(excitation == before.excitation(s));
        assert(self.filter_memory@ == before.memory);
        let mut value = excitation;
        let mut j: usize = 0;
        while j < ORDER
            invariant
                j <= ORDER,
                value == filtered(excitation, predictor@, self.filter_memory@, j as nat),
            decreases ORDER - j,
        {
            value = value.add(predictor[j + 1].mul(self.filter_memory[j]));
            j = j + 1;
        }
        let response = contain(value);
        let kept: [Binary32; 10] = self.filter_memory;
        let mut m: usize = 1;
        while m < ORDER
            invariant
                1 <= m <= ORDER,
                kept@ == before.memory,
                self@ == (Voice { memory: self.filter_memory@, ..self@ }),
                self@.previous == before.previous,
                self@.deemphasis == before.deemphasis,
                self@.countdown == before.next(s).countdown,
                self@.rng == before.next(s).rng,
                forall|k: int| 1 <= k < m ==> self.filter_memory@[k] == kept@[k - 1],
            decreases ORDER - m,
        {
            self.filter_memory[m] = kept[m - 1];
            m = m + 1;
        }
        self.filter_memory[0] = response;
        // Undo the analyser's pre-emphasis.
        let output = contain(
            response.add(Binary32::from_bits(PRE_EMPHASIS).mul(self.deemphasis)),
        );
        self.deemphasis = output;
        proof {
            assert(self@ =~= before.next(s));
        }
        output.to_whole(i16::MIN as i64, i16::MAX as i64) as i16
    }

    /// Synthesise one frame from its parameters.
    pub fn synthesize(&mut self, params: &Params, out: &mut [i16])
        requires
            old(out)@.len() == FRAME_SAMPLES,
        ensures
            final(out)@ == old(self)@.samples(params@),
            final(self)@ == old(self)@.after(params@),
    {
        let ghost before = self@;
        let ghost speech = params@;
        let period: usize = if params.pitch < 1 { 1 } else { params.pitch as usize };
        let mut subframe: usize = 0;
        while subframe < SUBFRAMES
            invariant
                subframe <= SUBFRAMES,
                out@.len() == FRAME_SAMPLES,
                speech == params@,
                period == (if speech.pitch < 1 {
                    1
                } else {
                    speech.pitch
                }),
                1 <= period <= 255,
                self@ == before.within(speech, (subframe * SUBFRAME_LEN) as nat),
                self@.previous == before.previous,
                forall|k: int|
                    0 <= k < subframe * SUBFRAME_LEN ==> out@[k] == before.samples(speech)[k],
            decreases SUBFRAMES - subframe,
        {
            // Ramp from the previous frame's shape to this one.
            let t = Binary32::from_i64(subframe as i64).add(Binary32::from_bits(math::HALF)).div(
                Binary32::from_bits(FOUR),
            );
            let ghost s = shape(before.previous, speech, subframe as int);
            let mut rc: [Binary32; 10] = [t; 10];
            let mut i: usize = 0;
            while i < ORDER
                invariant
                    i <= ORDER,
                    self@.previous == before.previous,
                    speech == params@,
                    forall|k: int|
                        0 <= k < i ==> rc@[k] == subframe_rc(before.previous.rc, speech.rc, t)[k],
                decreases ORDER - i,
            {
                rc[i] = blend(self.previous.rc[i], params.rc[i], t);
                i = i + 1;
            }
            assert(rc@ =~= subframe_rc(before.previous.rc, speech.rc, t));
            let gain = blend(self.previous.gain, params.gain, t);
            let predictor = analysis::reflection_to_predictor(&rc);
            let start: usize = subframe * SUBFRAME_LEN;
            let mut n: usize = 0;
            while n < SUBFRAME_LEN
                invariant
                    n <= SUBFRAME_LEN,
                    subframe < SUBFRAMES,
                    start == subframe * SUBFRAME_LEN,
                    out@.len() == FRAME_SAMPLES,
                    1 <= period <= 255,
                    s == shape(before.previous, speech, subframe as int),
                    s == (Shape {
                        voiced: params.voiced,
                        period: period as int,
                        gain,
                        predictor: predictor@,
                    }),
                    self@ == before.within(speech, (start + n) as nat),
                    self@.previous == before.previous,
                    forall|k: int| 0 <= k < start + n ==> out@[k] == before.samples(speech)[k],
                decreases SUBFRAME_LEN - n,
            {
                let ghost at = start + n;
                assert(at / SUBFRAME_LEN as int == subframe);
                let ghost v = self@;
                out[start + n] = self.tick(params.voiced, period, gain, &predictor);
                proof {
                    assert(before.within(speech, (at + 1) as nat) == v.next(s));
                    assert(before.samples(speech)[at] == v.sample(s));
                }
                n = n + 1;
            }
            subframe = subframe + 1;
        }
        self.previous = *params;
        proof {
            assert(out@ =~= before.samples(speech));
            assert(self@ =~= before.after(speech));
        }
    }
}

/// A number within the ceiling on filter state.
pub open spec fn bounded(x: Binary32) -> bool {
    &&& x.finite()
    &&& x.size() <= Binary32::from_bits(STATE_LIMIT).size()
}

/// What is contained is bounded, whatever it was before.
pub proof fn lemma_contained(x: Binary32)
    ensures
        bounded(contained(x)),
{
    let limit = Binary32::from_bits(STATE_LIMIT);
    let low = Binary32::from_bits(MINUS_STATE_LIMIT);
    rounding::lemma_magnitude_zero();
    assert(low.pattern() == limit.pattern());
}

impl Voice {
    /// Whether the filter's state is bounded.
    pub open spec fn bounded(self) -> bool {
        &&& self.memory.len() == ORDER
        &&& forall|i: int| 0 <= i < ORDER ==> bounded(#[trigger] self.memory[i])
        &&& bounded(self.deemphasis)
    }

    /// Whether the newest `n` filter values are bounded, and the output.
    spec fn settling(self, n: int) -> bool {
        &&& self.memory.len() == ORDER
        &&& forall|i: int| 0 <= i < n && i < ORDER ==> bounded(#[trigger] self.memory[i])
        &&& n > 0 ==> bounded(self.deemphasis)
    }

    /// A voice that a decoder can have reached: bounded, and coming from a
    /// frame that could be rendered.
    pub open spec fn sound(self) -> bool {
        &&& self.bounded()
        &&& self.previous.sound()
    }

    proof fn lemma_settling(self, speech: Speech, n: nat)
        requires
            self.memory.len() == ORDER,
        ensures
            self.within(speech, n).settling(n as int),
        decreases n,
    {
        if n > 0 {
            self.lemma_settling(speech, (n - 1) as nat);
            let v = self.within(speech, (n - 1) as nat);
            let s = shape(self.previous, speech, (n - 1) / SUBFRAME_LEN as int);
            lemma_contained(filtered(v.excitation(s), s.predictor, v.memory, ORDER as nat));
            lemma_contained(
                v.response(s).add(Binary32::from_bits(PRE_EMPHASIS).mul(v.deemphasis)),
            );
            let w = v.next(s);
            assert forall|i: int| 0 <= i < n && i < ORDER implies bounded(#[trigger] w.memory[i]) by {
                if i > 0 {
                    assert(w.memory[i] == v.memory[i - 1]);
                }
            }
        }
    }
}

/// No frame can drive the filter to infinity and leave it there: whatever
/// state it was in and whatever the frame says, after the frame every filter
/// value and the output are numbers within the ceiling.
pub proof fn law_any_frame_leaves_bounded_state(v: Voice, speech: Speech)
    requires
        v.memory.len() == ORDER,
    ensures
        v.after(speech).bounded(),
{
    v.lemma_settling(speech, FRAME_SAMPLES as nat);
}

/// The four points of a frame between which parameters ramp.
pub proof fn lemma_ramp(subframe: int)
    requires
        0 <= subframe < SUBFRAMES,
    ensures
        ramp(subframe).finite(),
        0 <= ramp(subframe).value(),
        8 * ramp(subframe).value() <= 7 * pow2(149),
{
    let k = Binary32::of_int(subframe);
    let half = Binary32::from_bits(math::HALF);
    let four = Binary32::from_bits(FOUR);
    let top = Binary32::from_bits(0x4060_0000);
    let most = Binary32::from_bits(0x3f60_0000);
    let none = Binary32::from_bits(math::ZERO);
    rounding::lemma_magnitude_zero();
    lemma2_to64();
    lemma_pow2_pos(146);
    lemma_pow2_adds(125, 21);
    lemma_pow2_adds(127, 19);
    lemma_pow2_adds(146, 3);
    Binary32::lemma_of_int(subframe);
    order::lemma_power(148);
    order::lemma_power(151);
    lemma_pow2_adds(146, 2);
    lemma_pow2_adds(146, 5);
    Binary32::lemma_value_of(top, 128, 0x60_0000);
    Binary32::lemma_value_of(most, 126, 0x60_0000);
    let unit = pow2(146);
    assert(top.size() == 28 * unit && most.size() == 7 * unit) by (nonlinear_arith)
        requires
            top.size() == (0x80_0000 + 0x60_0000) * pow2(127),
            most.size() == (0x80_0000 + 0x60_0000) * pow2(125),
            unit == pow2(127) * 0x8_0000,
            unit == pow2(125) * 0x20_0000,
    ;
    assert(half == order::power(148) && four == order::power(151));
    assert(0 <= k.value() <= 24 * unit) by (nonlinear_arith)
        requires
            k.value() == subframe * pow2(149),
            0 <= subframe <= 3,
            pow2(149) == unit * 8,
    ;
    let sum = k.add(half);
    order::lemma_add(k, half, top);
    order::lemma_add(k, half, none);
    order::lemma_finite(sum, top);
    assert(sum.size() * pow2(149) <= most.size() * four.size()) by (nonlinear_arith)
        requires
            sum.size() <= 28 * unit,
            most.size() == 7 * unit,
            four.size() == unit * 32,
            pow2(149) == unit * 8,
    ;
    order::lemma_div(sum, four, most);
    order::lemma_finite(sum.div(four), most);
    if sum.negative() {
        assert(sum.size() * pow2(149) == 0 && none.size() * four.size() == 0) by (nonlinear_arith)
            requires
                sum.size() == 0,
                none.size() == 0,
        ;
        order::lemma_div(sum, four, none);
    }
}

/// Two coefficients inside (-1, 1) have a difference that is a number.
proof fn lemma_difference(a: Binary32, b: Binary32)
    requires
        order::within(a, 149),
        order::within(b, 149),
    ensures
        b.sub(a).finite(),
{
    order::lemma_within_add(b, a, 149);
}

/// Interpolation is safe: between two stable filters, every subframe's
/// filter is stable too, and each of its coefficients lies between the two
/// it was ramped from.
pub proof fn law_interpolated_filters_are_stable(
    from: Seq<Binary32>,
    to: Seq<Binary32>,
    subframe: int,
)
    requires
        Speech::stable(from),
        Speech::stable(to),
        0 <= subframe < SUBFRAMES,
    ensures
        Speech::stable(subframe_rc(from, to, ramp(subframe))),
        forall|i: int|
            0 <= i < ORDER ==> {
                let k = #[trigger] subframe_rc(from, to, ramp(subframe))[i];
                ||| from[i].value() <= k.value() <= to[i].value()
                ||| to[i].value() <= k.value() <= from[i].value()
            },
{
    let t = ramp(subframe);
    lemma_ramp(subframe);
    let rc = subframe_rc(from, to, t);
    assert forall|i: int| 0 <= i < ORDER implies ({
        let k = #[trigger] rc[i];
        &&& k.finite() && k.size() < pow2(149)
        &&& {
            ||| from[i].value() <= k.value() <= to[i].value()
            ||| to[i].value() <= k.value() <= from[i].value()
        }
    }) by {
        lemma_difference(from[i], to[i]);
        order::law_between(from[i], to[i], t);
    }
}

/// The level ramps between two levels that are numbers and not negative, and
/// stays one.
pub proof fn law_interpolated_gain_is_sound(from: Binary32, to: Binary32, subframe: int)
    requires
        from.finite() && from.value() >= 0,
        to.finite() && to.value() >= 0,
        0 <= subframe < SUBFRAMES,
    ensures
        between(from, to, ramp(subframe)).finite(),
        between(from, to, ramp(subframe)).value() >= 0,
{
    lemma_ramp(subframe);
    if to.value() <= from.value() {
        order::lemma_neg(from);
        order::lemma_sub(to, from, from.neg());
        order::lemma_sub(to, from, from);
        order::lemma_finite(to.sub(from), from);
    } else {
        order::lemma_neg(to);
        order::lemma_sub(to, from, to.neg());
        order::lemma_sub(to, from, to);
        order::lemma_finite(to.sub(from), to);
    }
    order::law_between(from, to, ramp(subframe));
}

/// A fresh voice is sound.
pub proof fn law_fresh_voice_is_sound()
    ensures
        Voice::start().sound(),
{
    rounding::lemma_magnitude_zero();
    lemma_pow2_pos(149);
}

/// Rendering sound speech keeps a voice sound.
pub proof fn law_voice_stays_sound(v: Voice, speech: Speech)
    requires
        v.sound(),
        speech.sound(),
    ensures
        v.after(speech).sound(),
{
    law_any_frame_leaves_bounded_state(v, speech);
}

/// A lost frame costs only itself: two synthesisers that rendered the same
/// frame, whatever either had or had missed before, shape every subframe of
/// the next one alike, with the same filter, level, pitch and voicing.
pub proof fn law_frames_describe_themselves(
    a: Voice,
    b: Voice,
    speech: Speech,
    next: Speech,
    subframe: int,
)
    ensures
        a.after(speech).previous == b.after(speech).previous,
        shape(a.after(speech).previous, next, subframe) == shape(
            b.after(speech).previous,
            next,
            subframe,
        ),
{
}

/// Noise is a number in [-1, 1), whatever state the generator is in.
pub proof fn law_noise_range(x: u32)
    ensures
        noise_level(x).finite(),
        -pow2(149) <= noise_level(x).value() < pow2(149),
{
    let one = Binary32::from_bits(math::ONE);
    let two = Binary32::from_bits(math::TWO);
    let none = Binary32::from_bits(math::ZERO);
    let range = Binary32::from_bits(NOISE_RANGE);
    let top = Binary32::from_bits(NOISE_TOP);
    rounding::lemma_magnitude_zero();
    lemma2_to64();
    lemma_pow2_adds(32, 149);
    lemma_pow2_unfold(150);
    lemma_pow2_pos(149);
    order::lemma_power(149);
    order::lemma_power(150);
    order::lemma_power(181);
    assert(two == order::power(150) && range == order::power(181));
    rounding::lemma_magnitude_order(top.pattern(), one.pattern());
    reveal(Binary32::of_int);
    let n = (x * pow2(149)) as nat;
    assert(0 <= x * pow2(149) <= 0x1_0000_0000 * pow2(149)) by (nonlinear_arith)
        requires
            0 <= x <= 0x1_0000_0000,
    ;
    order::lemma_rounded(false, n, 1, range);
    let a = Binary32::of_int(x as int);
    order::lemma_finite(a, range);
    order::lemma_within_div(a, range, 181, 181);
    order::lemma_div(a, range, none);
    let share = a.div(range);
    order::lemma_within_mul(share, two, 149, 150);
    order::lemma_mul(share, two, none);
    let doubled = share.mul(two);
    order::lemma_neg(one);
    order::lemma_sub(doubled, one, one);
    order::lemma_sub(doubled, one, one.neg());
    order::lemma_finite(doubled.sub(one), one);
}

} // verus!
