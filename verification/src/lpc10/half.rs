//! Half-rate mode: 1,600 bps, by sending the spectrum half as often.
//!
//! The full-rate frame spends 41 of its 53 bits on the vocal tract and only
//! 12 on pitch, gain and voicing. But the tract moves slowly, while pitch and
//! energy move fast, so sending both at the same rate overpays for the slow
//! one.
//!
//! A superframe covers two 22.5 ms frames and carries the spectrum once, from
//! the second frame, plus pitch, gain and voicing for each. That is 41 + 24 =
//! 65 bits in 9 bytes per 45 ms: 1,600 bps against the full rate's 2,489, a
//! 36% saving with no trained data and no new analysis.
//!
//! The first frame's spectrum is not transmitted. The decoder places it
//! halfway between the previous superframe's and this one's, which is safe in
//! the reflection-coefficient domain: the midpoint of two values inside
//! (-1, 1) is also inside it, so the interpolated filter is stable by
//! construction.
//!
//! What this costs is spectral resolution during fast articulation, since a
//! consonant that comes and goes inside 45 ms is only half seen. Pitch and
//! energy are unaffected, being sent per frame as before.
use crate::binary32::Binary32;
use crate::lpc10::analysis;
use crate::lpc10::analysis::{Analyzer, Listener};
use crate::lpc10::bits;
use crate::lpc10::bits::{BitReader, BitWriter};
use crate::lpc10::quant;
use crate::lpc10::quant::{GAIN_BITS, PITCH_BITS, RC_BITS};
use crate::lpc10::synth;
use crate::lpc10::synth::{Synthesizer, Voice};
use crate::lpc10::{put, Params, Speech, FRAME_SAMPLES, ORDER};
use crate::math;
use crate::order;
use crate::rounding;
use crate::Error;
use vstd::arithmetic::power2::*;
use vstd::prelude::*;

verus! {

/// Frames per superframe.
pub const FRAMES: usize = 2;

/// Samples per superframe: 45 ms at 8 kHz.
pub const SUPERFRAME_SAMPLES: usize = 360;

/// Bytes per encoded superframe. 9 bytes per 45 ms is 1,600 bps.
pub const SUPERFRAME_BYTES: usize = 9;

/// Widths of the fields of a superframe, in the order they are sent.
pub open spec fn widths() -> Seq<u32> {
    seq![1u32, PITCH_BITS, GAIN_BITS, 1u32, PITCH_BITS, GAIN_BITS] + RC_BITS@
}

/// The codes of the fields of a superframe.
pub open spec fn codes(first: Speech, second: Speech) -> Seq<nat> {
    quant::excitation_codes(first) + quant::excitation_codes(second) + quant::tract_codes(second.rc)
}

/// The bits of a superframe: its fields, and seven spare bits of zero.
pub open spec fn superframe_bits(first: Speech, second: Speech) -> Seq<bool> {
    bits::padded(bits::stream(codes(first, second), widths()), 8 * SUPERFRAME_BYTES as nat)
}

/// What the bits of a superframe say of one of its frames, 0 or 1. Both
/// carry the transmitted spectrum.
pub open spec fn speech_from(bits: Seq<bool>, frame: int) -> Speech {
    Speech {
        voiced: bits::field_at(bits, widths(), 3 * frame) == 1,
        pitch: quant::spec_pitch_from_code(bits::field_at(bits, widths(), 3 * frame + 1) as int),
        gain: quant::spec_gain_from_code(bits::field_at(bits, widths(), 3 * frame + 2) as int),
        rc: quant::tract_from(bits, widths(), 6),
    }
}

/// Halfway between two spectra.
pub open spec fn midway(a: Seq<Binary32>, b: Seq<Binary32>) -> Seq<Binary32> {
    Seq::new(ORDER as nat, |i: int| Binary32::from_bits(math::HALF).mul(a[i].add(b[i])))
}

/// Running totals of the superframe's field widths.
pub proof fn lemma_widths()
    ensures
        widths().len() == 16,
        widths()[0] == 1 && widths()[3] == 1,
        widths()[1] == PITCH_BITS && widths()[4] == PITCH_BITS,
        widths()[2] == GAIN_BITS && widths()[5] == GAIN_BITS,
        forall|i: int| 0 <= i < 10 ==> #[trigger] widths()[6 + i] == RC_BITS[i],
        bits::total(widths().take(0)) == 0,
        bits::total(widths().take(6)) == 24,
        bits::total(widths()) == 65,
{
    let w = widths();
    assert(w[6] == 5 && w[7] == 5 && w[8] == 5 && w[9] == 5 && w[10] == 4 && w[11] == 4 && w[12]
        == 4 && w[13] == 4 && w[14] == 3 && w[15] == 2);
    bits::lemma_total_monotone(w, 0);
    bits::lemma_total_monotone(w, 1);
    bits::lemma_total_monotone(w, 2);
    bits::lemma_total_monotone(w, 3);
    bits::lemma_total_monotone(w, 4);
    bits::lemma_total_monotone(w, 5);
    bits::lemma_total_monotone(w, 6);
    bits::lemma_total_monotone(w, 7);
    bits::lemma_total_monotone(w, 8);
    bits::lemma_total_monotone(w, 9);
    bits::lemma_total_monotone(w, 10);
    bits::lemma_total_monotone(w, 11);
    bits::lemma_total_monotone(w, 12);
    bits::lemma_total_monotone(w, 13);
    bits::lemma_total_monotone(w, 14);
    bits::lemma_total_monotone(w, 15);
    assert(w.take(0) =~= Seq::<u32>::empty());
    assert(w.take(16) =~= w);
}

/// Pack two analysed frames, taking the spectrum from the second.
pub fn pack(first: &Params, second: &Params) -> (r: [u8; 9])
    ensures
        bits::bits(r@) == superframe_bits(first@, second@),
{
    let ghost values = codes(first@, second@);
    let ghost all = widths();
    let mut writer = BitWriter::<9>::new();
    quant::write_excitation(&mut writer, first);
    quant::write_excitation(&mut writer, second);
    proof {
        lemma_widths();
        quant::lemma_stream_step(values, all, 0);
        quant::lemma_stream_step(values, all, 1);
        quant::lemma_stream_step(values, all, 2);
        quant::lemma_stream_step(values, all, 3);
        quant::lemma_stream_step(values, all, 4);
        quant::lemma_stream_step(values, all, 5);
        assert(all.take(0) =~= Seq::<u32>::empty());
        assert(writer.written() =~= bits::stream(values, all.take(6)));
        bits::lemma_stream_length(values, all);
    }
    quant::write_tract(&mut writer, &second.rc, Ghost(values), Ghost(all), Ghost(6));
    proof {
        assert(bits::bits(writer.bytes@) =~= superframe_bits(first@, second@)) by {
            assert forall|p: int| 0 <= p < 72 implies bits::bits(writer.bytes@)[p]
                == superframe_bits(first@, second@)[p] by {
                if p < 65 {
                    assert(writer.written()[p] == bits::stream(values, all)[p]);
                }
            }
        }
    }
    writer.bytes
}

/// Unpack a superframe.
///
/// Both returned frames carry the transmitted spectrum; the caller replaces
/// the first frame's with its interpolation, which is the one thing the
/// bitstream does not say.
pub fn unpack(bytes: &[u8]) -> (r: (Params, Params))
    requires
        bytes@.len() >= SUPERFRAME_BYTES,
    ensures
        r.0@ == speech_from(bits::bits(bytes@), 0),
        r.1@ == speech_from(bits::bits(bytes@), 1),
{
    let ghost all = widths();
    proof {
        lemma_widths();
        bits::lemma_total_monotone(all, 0);
        bits::lemma_total_monotone(all, 1);
        bits::lemma_total_monotone(all, 2);
        bits::lemma_total_monotone(all, 3);
        bits::lemma_total_monotone(all, 4);
        bits::lemma_total_monotone(all, 5);
    }
    let mut reader = BitReader::new(bytes);
    let voiced_0: bool = reader.read(1) == 1;
    let pitch_0: u8 = quant::pitch_from_code(reader.read(PITCH_BITS));
    let gain_0 = quant::gain_from_code(reader.read(GAIN_BITS));
    let voiced_1: bool = reader.read(1) == 1;
    let pitch_1: u8 = quant::pitch_from_code(reader.read(PITCH_BITS));
    let gain_1 = quant::gain_from_code(reader.read(GAIN_BITS));
    let rc = quant::read_tract(&mut reader, Ghost(all), Ghost(6));
    (
        Params { voiced: voiced_0, pitch: pitch_0, gain: gain_0, rc },
        Params { voiced: voiced_1, pitch: pitch_1, gain: gain_1, rc },
    )
}

/// Analyses speech into half-rate superframes.
pub struct Encoder {
    analyzer: Analyzer,
}

impl View for Encoder {
    type V = Listener;

    closed spec fn view(&self) -> Listener {
        self.analyzer@
    }
}

impl Default for Encoder {
    fn default() -> (r: Encoder)
        ensures
            r@ == Listener::start(),
    {
        Self::new()
    }
}

impl Encoder {
    /// An encoder at the start of a stream.
    pub fn new() -> (r: Encoder)
        ensures
            r@ == Listener::start(),
    {
        Encoder { analyzer: Analyzer::new() }
    }

    /// Encode exactly [`SUPERFRAME_SAMPLES`] samples into
    /// [`SUPERFRAME_BYTES`] bytes.
    pub fn encode_superframe(&mut self, pcm: &[i16], out: &mut [u8]) -> (r: Result<usize, Error>)
        ensures
            pcm@.len() != SUPERFRAME_SAMPLES ==> r == Err::<usize, Error>(Error::InvalidHeader),
            pcm@.len() == SUPERFRAME_SAMPLES && old(out)@.len() < SUPERFRAME_BYTES ==> r == Err::<
                usize,
                Error,
            >(Error::ShortBuffer),
            r is Err ==> final(self)@ == old(self)@ && final(out)@ == old(out)@,
            pcm@.len() == SUPERFRAME_SAMPLES && old(out)@.len() >= SUPERFRAME_BYTES ==> {
                let a = pcm@.take(FRAME_SAMPLES as int);
                let b = pcm@.skip(FRAME_SAMPLES as int);
                &&& r == Ok::<usize, Error>(SUPERFRAME_BYTES)
                &&& final(self)@ == old(self)@.after(a).after(b)
                &&& final(out)@.len() == old(out)@.len()
                &&& bits::bits(final(out)@.take(SUPERFRAME_BYTES as int)) == superframe_bits(
                    old(self)@.analyzed(a),
                    old(self)@.after(a).analyzed(b),
                )
                &&& final(out)@.skip(SUPERFRAME_BYTES as int) == old(out)@.skip(
                    SUPERFRAME_BYTES as int,
                )
            },
    {
        if pcm.len() != SUPERFRAME_SAMPLES {
            return Err(Error::InvalidHeader);
        }
        if out.len() < SUPERFRAME_BYTES {
            return Err(Error::ShortBuffer);
        }
        // Both halves are analysed in full; only the first half's spectrum
        // goes unsent, so the analyser's history stays continuous.
        let (a, b) = pcm.split_at(FRAME_SAMPLES);
        assert(a@ =~= pcm@.take(FRAME_SAMPLES as int));
        assert(b@ =~= pcm@.skip(FRAME_SAMPLES as int));
        let first = self.analyzer.analyze(a);
        let second = self.analyzer.analyze(b);
        let frame: [u8; 9] = pack(&first, &second);
        put(frame.as_slice(), out);
        assert(out@.take(SUPERFRAME_BYTES as int) =~= frame@);
        assert(out@.skip(SUPERFRAME_BYTES as int) =~= old(out)@.skip(SUPERFRAME_BYTES as int));
        Ok(SUPERFRAME_BYTES)
    }
}

/// What a half-rate decoder remembers.
#[verifier::ext_equal]
pub struct HalfVoice {
    pub voice: Voice,
    /// The last transmitted spectrum.
    pub spectrum: Seq<Binary32>,
}

impl HalfVoice {
    pub open spec fn start() -> HalfVoice {
        HalfVoice { voice: Voice::start(), spectrum: analysis::zeros(ORDER as nat) }
    }

    /// The first frame of a superframe, its spectrum placed halfway between
    /// the last one sent and this one.
    pub open spec fn first(self, bits: Seq<bool>) -> Speech {
        Speech {
            rc: midway(self.spectrum, speech_from(bits, 1).rc),
            ..speech_from(bits, 0)
        }
    }

    /// The samples of a superframe.
    pub open spec fn samples(self, bits: Seq<bool>) -> Seq<i16> {
        self.voice.samples(self.first(bits)) + self.voice.after(self.first(bits)).samples(
            speech_from(bits, 1),
        )
    }

    /// The decoder after a superframe.
    pub open spec fn after(self, bits: Seq<bool>) -> HalfVoice {
        HalfVoice {
            voice: self.voice.after(self.first(bits)).after(speech_from(bits, 1)),
            spectrum: speech_from(bits, 1).rc,
        }
    }
}

/// Rebuilds speech from half-rate superframes.
pub struct Decoder {
    synthesizer: Synthesizer,
    /// The last transmitted spectrum, which the next superframe's first
    /// frame interpolates from.
    previous_rc: [Binary32; 10],
}

impl View for Decoder {
    type V = HalfVoice;

    closed spec fn view(&self) -> HalfVoice {
        HalfVoice { voice: self.synthesizer@, spectrum: self.previous_rc@ }
    }
}

impl Default for Decoder {
    fn default() -> (r: Decoder)
        ensures
            r@ == HalfVoice::start(),
    {
        Self::new()
    }
}

impl Decoder {
    /// A decoder at the start of a stream.
    pub fn new() -> (r: Decoder)
        ensures
            r@ == HalfVoice::start(),
    {
        let r = Decoder {
            synthesizer: Synthesizer::new(),
            previous_rc: [Binary32::from_bits(math::ZERO); 10],
        };
        assert(r@ =~= HalfVoice::start());
        r
    }

    /// Decode one superframe into exactly [`SUPERFRAME_SAMPLES`] samples.
    ///
    /// Every bit pattern is a valid superframe, so this fails only when a
    /// buffer is the wrong size.
    pub fn decode_superframe(&mut self, frame: &[u8], pcm: &mut [i16]) -> (r: Result<usize, Error>)
        ensures
            frame@.len() < SUPERFRAME_BYTES ==> r == Err::<usize, Error>(Error::Truncated),
            frame@.len() >= SUPERFRAME_BYTES && old(pcm)@.len() != SUPERFRAME_SAMPLES ==> r
                == Err::<usize, Error>(Error::ShortBuffer),
            r is Err ==> final(self)@ == old(self)@ && final(pcm)@ == old(pcm)@,
            frame@.len() >= SUPERFRAME_BYTES && old(pcm)@.len() == SUPERFRAME_SAMPLES ==> {
                &&& r == Ok::<usize, Error>(SUPERFRAME_SAMPLES)
                &&& final(pcm)@ == old(self)@.samples(bits::bits(frame@))
                &&& final(self)@ == old(self)@.after(bits::bits(frame@))
            },
    {
        if frame.len() < SUPERFRAME_BYTES {
            return Err(Error::Truncated);
        }
        if pcm.len() != SUPERFRAME_SAMPLES {
            return Err(Error::ShortBuffer);
        }
        let ghost before = self@;
        let ghost data = bits::bits(frame@);
        let (mut first, second) = unpack(frame);
        let half = Binary32::from_bits(math::HALF);
        let mut i: usize = 0;
        while i < ORDER
            invariant
                i <= ORDER,
                half == Binary32::from_bits(math::HALF),
                self@ == before,
                second@ == speech_from(data, 1),
                first@.voiced == speech_from(data, 0).voiced,
                first@.pitch == speech_from(data, 0).pitch,
                first@.gain == speech_from(data, 0).gain,
                forall|k: int| 0 <= k < i ==> first.rc@[k] == before.first(data).rc[k],
            decreases ORDER - i,
        {
            first.rc[i] = half.mul(self.previous_rc[i].add(second.rc[i]));
            i = i + 1;
        }
        proof {
            assert(first@.rc =~= before.first(data).rc);
        }
        let (left, right) = pcm.split_at_mut(FRAME_SAMPLES);
        self.synthesizer.synthesize(&first, left);
        self.synthesizer.synthesize(&second, right);
        self.previous_rc = second.rc;
        proof {
            assert(self@ =~= before.after(data));
        }
        Ok(SUPERFRAME_SAMPLES)
    }
}

/// Twice a number.
spec fn doubled(x: Binary32) -> Binary32 {
    Binary32::signed(
        x.negative(),
        if x.pattern() < 0x80_0000 {
            2 * x.pattern()
        } else {
            x.pattern() + 0x80_0000
        },
    )
}

proof fn lemma_double(x: Binary32)
    requires
        order::within(x, 149),
    ensures
        !doubled(x).nan(),
        doubled(x).value() == 2 * x.value(),
{
    let p = x.pattern();
    let q: nat = if p < 0x80_0000 {
        2 * p
    } else {
        p + 0x80_0000
    };
    order::lemma_power(149);
    rounding::lemma_magnitude_order(p, order::power(149).pattern());
    order::lemma_signed(x.negative(), q);
    lemma2_to64();
    if p < 0x80_0000 {
        rounding::lemma_magnitude_of_parts(0, p);
        rounding::lemma_magnitude_of_parts(0, q);
        assert(p * pow2(0) == p && q * pow2(0) == q) by (nonlinear_arith)
            requires
                pow2(0) == 1,
        ;
    } else {
        let field = p / 0x80_0000;
        let fraction = p % 0x80_0000;
        Binary32::lemma_value_of(x, field, fraction);
        Binary32::lemma_value_of(doubled(x), (field + 1) as nat, fraction);
        lemma_pow2_unfold(field);
        assert((0x80_0000 + fraction) * pow2(field) == 2 * ((0x80_0000 + fraction) * pow2(
            (field - 1) as nat,
        ))) by (nonlinear_arith)
            requires
                pow2(field) == 2 * pow2((field - 1) as nat),
        ;
    }
}

/// The midpoint of two numbers lies between them, rounding and all.
proof fn lemma_midpoint(a: Binary32, b: Binary32)
    requires
        order::within(a, 149),
        order::within(b, 149),
        a.value() <= b.value(),
    ensures
        ({
            let r = Binary32::from_bits(math::HALF).mul(a.add(b));
            &&& r.finite()
            &&& a.value() <= r.value() <= b.value()
        }),
{
    let half = Binary32::from_bits(math::HALF);
    let sum = a.add(b);
    let r = half.mul(sum);
    order::lemma_power(148);
    assert(half == order::power(148));
    order::lemma_within_add(a, b, 149);
    lemma_pow2_unfold(149);
    lemma_double(a);
    lemma_double(b);
    order::lemma_add(a, b, doubled(a));
    order::lemma_add(a, b, doubled(b));
    let c = if sum.negative() {
        a
    } else {
        b
    };
    let d = if sum.negative() {
        b
    } else {
        a
    };
    assert(half.size() * sum.size() == pow2(148) * sum.size());
    assert(sum.size() <= 2 * c.size() ==> half.size() * sum.size() <= c.size() * pow2(149))
        by (nonlinear_arith)
        requires
            half.size() == pow2(148),
            pow2(149) == 2 * pow2(148),
    ;
    assert(sum.size() >= 2 * d.size() ==> half.size() * sum.size() >= d.size() * pow2(149))
        by (nonlinear_arith)
        requires
            half.size() == pow2(148),
            pow2(149) == 2 * pow2(148),
    ;
    order::lemma_mul(half, sum, c);
    order::lemma_mul(half, sum, d);
    order::lemma_finite(r, c);
}

/// The untransmitted spectrum is safe: halfway between two stable filters
/// lies a stable one, each coefficient between the two it came from.
pub proof fn law_midway_is_stable(a: Seq<Binary32>, b: Seq<Binary32>)
    requires
        Speech::stable(a),
        Speech::stable(b),
    ensures
        Speech::stable(midway(a, b)),
        forall|i: int|
            0 <= i < ORDER ==> {
                let k = #[trigger] midway(a, b)[i];
                ||| a[i].value() <= k.value() <= b[i].value()
                ||| b[i].value() <= k.value() <= a[i].value()
            },
{
    assert forall|i: int| 0 <= i < ORDER implies ({
        let k = #[trigger] midway(a, b)[i];
        &&& k.finite() && k.size() < pow2(149)
        &&& {
            ||| a[i].value() <= k.value() <= b[i].value()
            ||| b[i].value() <= k.value() <= a[i].value()
        }
    }) by {
        if a[i].value() <= b[i].value() {
            lemma_midpoint(a[i], b[i]);
        } else {
            reveal(Binary32::spec_add);
            assert(a[i].add(b[i]) == b[i].add(a[i]));
            lemma_midpoint(b[i], a[i]);
        }
    }
}

impl HalfVoice {
    /// A decoder state that can have been reached: a sound voice, and a
    /// stable spectrum to interpolate from.
    pub open spec fn sound(self) -> bool {
        &&& self.voice.sound()
        &&& Speech::stable(self.spectrum)
    }
}

/// Every pattern of bits is a valid superframe. Both its frames describe
/// stable filters, the one that is interpolated too, and the decoder stays
/// sound.
pub proof fn law_every_pattern_is_a_sound_superframe(v: HalfVoice, bits: Seq<bool>)
    requires
        v.sound(),
    ensures
        v.first(bits).sound(),
        speech_from(bits, 1).sound(),
        v.after(bits).sound(),
{
    quant::law_gains_are_sound(bits::field_at(bits, widths(), 2) as int);
    quant::law_gains_are_sound(bits::field_at(bits, widths(), 5) as int);
    quant::law_pitches_are_in_range(bits::field_at(bits, widths(), 1) as int);
    quant::law_pitches_are_in_range(bits::field_at(bits, widths(), 4) as int);
    quant::lemma_tract_is_sound(bits, widths(), 6);
    law_midway_is_stable(v.spectrum, speech_from(bits, 1).rc);
    synth::law_voice_stays_sound(v.voice, v.first(bits));
    synth::law_voice_stays_sound(v.voice.after(v.first(bits)), speech_from(bits, 1));
}

/// A fresh decoder is sound.
pub proof fn law_fresh_decoder_is_sound()
    ensures
        HalfVoice::start().sound(),
{
    synth::law_fresh_voice_is_sound();
    rounding::lemma_magnitude_zero();
    lemma_pow2_pos(149);
}

/// A superframe carries every field: reading it back gives, for each frame
/// and field, the value that the written code stands for, with the second
/// frame's spectrum for both, whatever follows the superframe.
pub proof fn law_superframe_carries_every_field(first: Speech, second: Speech, rest: Seq<bool>)
    ensures
        speech_from(superframe_bits(first, second) + rest, 0) == (Speech {
            rc: quant::sent_tract(second.rc),
            ..quant::sent(first)
        }),
        speech_from(superframe_bits(first, second) + rest, 1) == quant::sent(second),
{
    let values = codes(first, second);
    let all = widths();
    let spare = Seq::new(
        (8 * SUPERFRAME_BYTES as nat - bits::stream(values, all).len()) as nat,
        |i: int| false,
    );
    let data = superframe_bits(first, second) + rest;
    assert(data =~= bits::stream(values, all) + (spare + rest));
    lemma_widths();
    quant::lemma_widths();
    assert forall|k: int| 0 <= k < 16 implies values[k] < pow2(#[trigger] all[k] as nat) by {
        if k < 3 {
            quant::lemma_codes_fit(first, k);
        } else {
            quant::lemma_codes_fit(second, k - 3);
            if k >= 6 {
                assert(all[6 + (k - 6)] == RC_BITS[k - 6]);
                assert(quant::widths()[3 + (k - 6)] == RC_BITS[k - 6]);
            }
        }
    }
    assert forall|i: int| 0 <= i < 16 implies #[trigger] bits::field_at(data, all, i)
        == values[i] by {
        bits::law_fields_survive(values, all, spare + rest, i);
    }
    quant::lemma_codes_are_natural(first);
    quant::lemma_codes_are_natural(second);
    let tract = quant::tract_from(data, all, 6);
    assert(tract =~= quant::sent_tract(second.rc)) by {
        assert forall|i: int| 0 <= i < ORDER implies tract[i] == quant::sent_tract(
            second.rc,
        )[i] by {
            assert(bits::field_at(data, all, 6 + i) == values[6 + i]);
            quant::lemma_rc_code_fits(i, second.rc[i]);
        }
    }
    assert(bits::field_at(data, all, 0) == values[0]);
    assert(bits::field_at(data, all, 1) == values[1]);
    assert(bits::field_at(data, all, 2) == values[2]);
    assert(bits::field_at(data, all, 3) == values[3]);
    assert(bits::field_at(data, all, 4) == values[4]);
    assert(bits::field_at(data, all, 5) == values[5]);
}

/// The bits past the last field are written as zero and ignored on read.
pub proof fn law_spare_bits(
    first: Speech,
    second: Speech,
    a: Seq<bool>,
    b: Seq<bool>,
    frame: int,
)
    requires
        frame == 0 || frame == 1,
    ensures
        superframe_bits(first, second).len() == 8 * SUPERFRAME_BYTES,
        forall|p: int| 65 <= p < 72 ==> !#[trigger] superframe_bits(first, second)[p],
        a.len() >= 65 && b.len() >= 65 && a.take(65) == b.take(65) ==> speech_from(a, frame)
            == speech_from(b, frame),
{
    lemma_widths();
    bits::lemma_stream_length(codes(first, second), widths());
    if a.len() >= 65 && b.len() >= 65 && a.take(65) == b.take(65) {
        assert forall|i: int| 0 <= i < 16 implies #[trigger] bits::field_at(a, widths(), i)
            == bits::field_at(b, widths(), i) by {
            bits::lemma_field_at_front(a, b, widths(), i);
        }
        let k = 3 * frame;
        assert(bits::field_at(a, widths(), k) == bits::field_at(b, widths(), k));
        assert(bits::field_at(a, widths(), k + 1) == bits::field_at(b, widths(), k + 1));
        assert(bits::field_at(a, widths(), k + 2) == bits::field_at(b, widths(), k + 2));
        let ta = quant::tract_from(a, widths(), 6);
        let tb = quant::tract_from(b, widths(), 6);
        assert(ta =~= tb) by {
            assert forall|i: int| 0 <= i < ORDER implies ta[i] == tb[i] by {
                assert(bits::field_at(a, widths(), 6 + i) == bits::field_at(b, widths(), 6 + i));
            }
        }
    }
}

/// A lost superframe costs only itself: two decoders that decoded the same
/// superframe, whatever either had or had missed before, describe both
/// frames of the next one alike, and ramp to them from the same frame.
pub proof fn law_superframes_describe_themselves(
    a: HalfVoice,
    b: HalfVoice,
    bits: Seq<bool>,
    next: Seq<bool>,
)
    ensures
        a.after(bits).first(next) == b.after(bits).first(next),
        a.after(bits).voice.previous == b.after(bits).voice.previous,
{
}

} // verus!
