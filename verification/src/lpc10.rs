//! A 2.4 kbps LPC vocoder: 10th-order, 22.5 ms frames, 7 bytes each.
//!
//! Where ADPCM sends a cheaper description of the waveform, this sends no
//! waveform at all. Each frame carries only what it takes to *rebuild*
//! speech: is this voiced, at what pitch, through what vocal-tract shape,
//! at what energy. Ten reflection coefficients, a pitch, a gain, a voicing
//! bit. That is why it fits a LoRa link and why it sounds synthetic.
//!
//! # Relationship to FIPS-137
//!
//! This is built to the *structure* of LPC-10e, the 2.4 kbps US federal
//! standard: the same frame length, model order, parameter set, and bit
//! allocation. The quantizer tables are Pipit's own, because the standard's
//! tables were not available to implement from. **A Pipit LPC frame is
//! therefore not interchangeable with a FIPS-137 frame**, and this codec
//! does not claim that interoperability. A conformant variant, if it is
//! ever wanted, takes a new codec identifier rather than changing this one.
//!
//! # Measuring it
//!
//! Signal-to-noise ratio against the input is meaningless here and will
//! read as negative: the output is a resynthesis, not an approximation of
//! the original samples. What is meaningful is whether the spectral
//! envelope, pitch, voicing, and energy survive, which is what the tests
//! assert.
use crate::binary32::Binary32;
use crate::lpc10::analysis::{Analyzer, Listener};
use crate::lpc10::synth::{Synthesizer, Voice};
use crate::math;
use crate::Error;
use vstd::arithmetic::power2::*;
use vstd::prelude::*;

pub mod analysis;
pub mod bits;
pub mod excitation;
pub mod fading;
pub mod half;
pub mod hearing;
pub mod lattice;
pub mod layout;
pub mod likeness;
pub mod motion;
pub mod noise;
pub mod normal;
pub mod period;
pub mod precision;
pub mod quant;
mod ratio;
pub mod recovery;
pub mod rendering;
pub mod repeating;
pub mod scales;
pub mod silence;
pub mod soundness;
pub mod spectrum;
pub mod synth;
pub mod voicing;
pub mod weights;

verus! {

/// Samples per frame: 22.5 ms at 8 kHz.
pub const FRAME_SAMPLES: usize = 180;

/// Bytes per encoded frame. 7 bytes per 22.5 ms is 2,489 bps.
pub const FRAME_BYTES: usize = 7;

/// Predictor order: ten reflection coefficients.
pub const ORDER: usize = 10;

/// Shortest pitch period the coder represents, 400 Hz.
pub const PITCH_MIN: usize = 20;

/// Longest pitch period the coder represents, about 51 Hz.
pub const PITCH_MAX: usize = 156;

/// Samples of context the analyser keeps, enough for the longest period.
pub const HISTORY: usize = 336;

/// Everything one frame says about 22.5 ms of speech.
///
/// `==` compares the numbers: a level or a coefficient of 0 equals one of -0,
/// and parameters that hold a NaN equal nothing.
#[derive(Clone, Copy, Debug)]
pub struct Params {
    /// Voiced (vocal folds vibrating) or unvoiced (turbulent noise).
    pub voiced: bool,
    /// Pitch period in samples. Meaningful when `voiced`.
    pub pitch: u8,
    /// RMS of the prediction residual, which sets the excitation level.
    pub gain: Binary32,
    /// Reflection coefficients, all strictly inside (-1, 1).
    pub rc: [Binary32; 10],
}

impl PartialEq for Params {
    fn eq(&self, other: &Params) -> (r: bool) {
        let mut i: usize = 0;
        while i < ORDER
            invariant
                i <= ORDER,
                forall|k: int|
                    0 <= k < i ==> #[trigger] self.rc@[k].le(other.rc@[k]) && other.rc@[k].le(
                        self.rc@[k],
                    ),
            decreases ORDER - i,
        {
            if !(self.rc[i].le(other.rc[i]) && other.rc[i].le(self.rc[i])) {
                assert(!(self.rc@[i as int].le(other.rc@[i as int]) && other.rc@[i as int].le(
                    self.rc@[i as int],
                )));
                return false;
            }
            i = i + 1;
        }
        self.voiced == other.voiced && self.pitch == other.pitch && self.gain.le(other.gain)
            && other.gain.le(self.gain)
    }
}

impl vstd::std_specs::cmp::PartialEqSpecImpl for Params {
    open spec fn obeys_eq_spec() -> bool {
        true
    }

    open spec fn eq_spec(&self, other: &Params) -> bool {
        &&& self.voiced == other.voiced
        &&& self.pitch == other.pitch
        &&& self.gain.le(other.gain) && other.gain.le(self.gain)
        &&& forall|k: int|
            0 <= k < ORDER ==> #[trigger] self.rc@[k].le(other.rc@[k]) && other.rc@[k].le(
                self.rc@[k],
            )
    }
}

/// The same description, with the coefficients as a sequence.
#[verifier::ext_equal]
pub struct Speech {
    pub voiced: bool,
    pub pitch: int,
    pub gain: Binary32,
    pub rc: Seq<Binary32>,
}

impl View for Params {
    type V = Speech;

    open spec fn view(&self) -> Speech {
        Speech {
            voiced: self.voiced,
            pitch: self.pitch as int,
            gain: self.gain,
            rc: self.rc@,
        }
    }
}

impl Speech {
    pub open spec fn silence() -> Speech {
        Speech {
            voiced: false,
            pitch: PITCH_MIN as int,
            gain: Binary32::from_bits(math::ZERO),
            rc: Seq::new(ORDER as nat, |i: int| Binary32::from_bits(math::ZERO)),
        }
    }
}

impl Speech {
    /// Whether coefficients describe a stable filter: all of them strictly
    /// inside (-1, 1).
    pub open spec fn stable(rc: Seq<Binary32>) -> bool {
        &&& rc.len() == ORDER
        &&& forall|i: int|
            0 <= i < ORDER ==> {
                let k = #[trigger] rc[i];
                k.finite() && k.size() < pow2(149)
            }
    }

    /// Whether a description can be rendered: a stable filter, a gain that
    /// is a number and not negative, and a pitch in range.
    pub open spec fn sound(self) -> bool {
        &&& Self::stable(self.rc)
        &&& self.gain.finite()
        &&& self.gain.value() >= 0
        &&& PITCH_MIN <= self.pitch <= PITCH_MAX
    }
}

impl Params {
    /// The parameters of silence, and the state a decoder starts from.
    pub fn silence() -> (r: Params)
        ensures
            r@ == Speech::silence(),
    {
        let zero = Binary32::from_bits(math::ZERO);
        let r = Params { voiced: false, pitch: PITCH_MIN as u8, gain: zero, rc: [zero; 10] };
        assert(r.rc@ =~= Speech::silence().rc);
        r
    }
}

/// Copy `bytes` to the front of `out`.
pub(crate) fn put(bytes: &[u8], out: &mut [u8])
    requires
        bytes@.len() <= old(out)@.len(),
    ensures
        final(out)@ == bytes@ + old(out)@.skip(bytes@.len() as int),
{
    let ghost before = out@;
    let count: usize = bytes.len();
    let mut i: usize = 0;
    while i < count
        invariant
            i <= count == bytes@.len() <= out@.len(),
            out@.len() == before.len(),
            forall|k: int| 0 <= k < i ==> out@[k] == bytes@[k],
            forall|k: int| i <= k < out@.len() ==> out@[k] == before[k],
        decreases count - i,
    {
        out[i] = bytes[i];
        i = i + 1;
    }
    assert(out@ =~= bytes@ + before.skip(bytes@.len() as int));
}

/// Analyses speech into frames.
///
/// Stateful across frames: pitch analysis looks back further than one frame
/// and pre-emphasis is continuous.
pub struct Encoder {
    analyzer: Analyzer,
}

impl View for Encoder {
    type V = Listener;

    closed spec fn view(&self) -> Listener {
        self.analyzer@
    }
}

impl Default for Encoder {
    fn default() -> (r: Encoder)
        ensures
            r@ == Listener::start(),
    {
        Self::new()
    }
}

impl Encoder {
    /// An encoder at the start of a stream.
    pub fn new() -> (r: Encoder)
        ensures
            r@ == Listener::start(),
    {
        Encoder { analyzer: Analyzer::new() }
    }

    /// Encode exactly [`FRAME_SAMPLES`] samples into [`FRAME_BYTES`] bytes.
    pub fn encode_frame(&mut self, pcm: &[i16], out: &mut [u8]) -> (r: Result<usize, Error>)
        ensures
            pcm@.len() != FRAME_SAMPLES ==> r == Err::<usize, Error>(Error::InvalidHeader),
            pcm@.len() == FRAME_SAMPLES && old(out)@.len() < FRAME_BYTES ==> r == Err::<
                usize,
                Error,
            >(Error::ShortBuffer),
            r is Err ==> final(self)@ == old(self)@ && final(out)@ == old(out)@,
            pcm@.len() == FRAME_SAMPLES && old(out)@.len() >= FRAME_BYTES ==> {
                &&& r == Ok::<usize, Error>(FRAME_BYTES)
                &&& final(self)@ == old(self)@.after(pcm@)
                &&& final(out)@.len() == old(out)@.len()
                &&& bits::bits(final(out)@.take(FRAME_BYTES as int)) == quant::frame_bits(
                    old(self)@.analyzed(pcm@),
                )
                &&& final(out)@.skip(FRAME_BYTES as int) == old(out)@.skip(FRAME_BYTES as int)
            },
    {
        if pcm.len() != FRAME_SAMPLES {
            return Err(Error::InvalidHeader);
        }
        if out.len() < FRAME_BYTES {
            return Err(Error::ShortBuffer);
        }
        let params = self.analyzer.analyze(pcm);
        let frame: [u8; 7] = quant::pack(&params);
        put(frame.as_slice(), out);
        assert(out@.take(FRAME_BYTES as int) =~= frame@);
        assert(out@.skip(FRAME_BYTES as int) =~= old(out)@.skip(FRAME_BYTES as int));
        Ok(FRAME_BYTES)
    }

    /// The parameters this frame would transmit, without packing them.
    /// Exposed for analysis tools and tests.
    pub fn analyze(&mut self, pcm: &[i16]) -> (r: Result<Params, Error>)
        ensures
            pcm@.len() != FRAME_SAMPLES ==> {
                &&& r == Err::<Params, Error>(Error::InvalidHeader)
                &&& final(self)@ == old(self)@
            },
            pcm@.len() == FRAME_SAMPLES ==> {
                &&& r is Ok
                &&& r->Ok_0@ == old(self)@.analyzed(pcm@)
                &&& final(self)@ == old(self)@.after(pcm@)
            },
    {
        if pcm.len() != FRAME_SAMPLES {
            return Err(Error::InvalidHeader);
        }
        Ok(self.analyzer.analyze(pcm))
    }
}

/// Rebuilds speech from frames.
///
/// Stateful, unlike [`crate::adpcm::decode_frame`]: synthesis carries filter
/// memory, pitch phase, and the previous frame's parameters for
/// interpolation. A lost frame costs a few milliseconds of convergence, not
/// the rest of the stream, because each frame describes itself completely.
pub struct Decoder {
    synthesizer: Synthesizer,
}

impl View for Decoder {
    type V = Voice;

    closed spec fn view(&self) -> Voice {
        self.synthesizer@
    }
}

impl Default for Decoder {
    fn default() -> (r: Decoder)
        ensures
            r@ == Voice::start(),
    {
        Self::new()
    }
}

impl Decoder {
    /// A decoder at the start of a stream.
    pub fn new() -> (r: Decoder)
        ensures
            r@ == Voice::start(),
    {
        Decoder { synthesizer: Synthesizer::new() }
    }

    /// Decode one frame into exactly [`FRAME_SAMPLES`] samples.
    ///
    /// Every bit pattern is a valid frame, so this fails only when a buffer
    /// is the wrong size.
    pub fn decode_frame(&mut self, frame: &[u8], pcm: &mut [i16]) -> (r: Result<usize, Error>)
        ensures
            frame@.len() < FRAME_BYTES ==> r == Err::<usize, Error>(Error::Truncated),
            frame@.len() >= FRAME_BYTES && old(pcm)@.len() != FRAME_SAMPLES ==> r == Err::<
                usize,
                Error,
            >(Error::ShortBuffer),
            r is Err ==> final(self)@ == old(self)@ && final(pcm)@ == old(pcm)@,
            frame@.len() >= FRAME_BYTES && old(pcm)@.len() == FRAME_SAMPLES ==> {
                let speech = quant::speech_from(bits::bits(frame@));
                &&& r == Ok::<usize, Error>(FRAME_SAMPLES)
                &&& final(pcm)@ == old(self)@.samples(speech)
                &&& final(self)@ == old(self)@.after(speech)
            },
    {
        if frame.len() < FRAME_BYTES {
            return Err(Error::Truncated);
        }
        if pcm.len() != FRAME_SAMPLES {
            return Err(Error::ShortBuffer);
        }
        let params = quant::unpack(frame);
        self.synthesizer.synthesize(&params, pcm);
        Ok(FRAME_SAMPLES)
    }
}

} // verus!
