//! The clip container: a self-describing block of encoded speech.
//!
//! A clip is what a recorded voice message *is* on the wire. It names its own
//! codec, mode, sample rate, and frame geometry, so a receiver can decode one
//! without out-of-band agreement and a later codec can be added without a
//! format break. Frames follow the header back to back.
//!
//! The clip is deliberately only the payload. It carries no sender,
//! recipient, timestamp, signature, or routing: those belong to whatever
//! envelope carries it (an LXMF field, a Reticulum resource, a file). Keeping
//! that line means a host with no radio stack can still decode a clip.
use crate::adpcm;
use crate::adpcm::Coder;
use crate::lpc10;
use crate::lpc10::analysis::Listener;
use crate::lpc10::bits;
use crate::lpc10::half;
use crate::lpc10::half::HalfVoice;
use crate::lpc10::quant;
use crate::lpc10::synth::Voice;
use crate::Error;
use vstd::prelude::*;

pub mod laws;
pub mod streams;

verus! {

/// Leading bytes of every clip: "PIPIT".
pub const MAGIC: [u8; 5] = [0x50, 0x49, 0x50, 0x49, 0x54];

/// Container version this build writes and reads.
pub const VERSION: u8 = 1;

/// Bytes of clip header preceding the first frame.
pub const HEADER_LEN: usize = 18;

/// Upper bound on frame length, so a hostile header cannot ask for an
/// unreasonable buffer.
pub const MAX_FRAME_SAMPLES: u16 = 4096;

/// Which codec produced a clip's frames.
#[derive(Clone, Copy, Debug, PartialEq, Eq, Structural)]
#[non_exhaustive]
pub enum Codec {
    /// 4-bit IMA ADPCM, Pipit framing, about 32 kbps. Mode is always 0.
    /// Any frame length; sized for WiFi and TCP bearers.
    ImaAdpcm,
    /// 10th-order LPC vocoder, 2,489 bps. Mode is always 0. Frames are
    /// fixed at [`lpc10::FRAME_SAMPLES`]; sized for LoRa.
    Lpc10,
    /// The same vocoder at half rate, 1,600 bps, by sending the spectrum
    /// once per two frames. Mode is always 0. Frames are fixed at
    /// [`half::SUPERFRAME_SAMPLES`]; sized for a link where airtime
    /// is the binding constraint.
    Lpc10Half,
}

impl Codec {
    pub open spec fn spec_id(self) -> u8 {
        match self {
            Codec::ImaAdpcm => 1,
            Codec::Lpc10 => 2,
            Codec::Lpc10Half => 3,
        }
    }

    pub open spec fn spec_from_id(id: u8) -> Result<Codec, Error> {
        if id == 1 {
            Ok(Codec::ImaAdpcm)
        } else if id == 2 {
            Ok(Codec::Lpc10)
        } else if id == 3 {
            Ok(Codec::Lpc10Half)
        } else {
            Err(Error::UnknownCodec(id))
        }
    }

    pub open spec fn spec_frame_encoded_len(self, frame_samples: usize) -> usize {
        match self {
            Codec::ImaAdpcm => adpcm::frame_encoded_len(frame_samples),
            Codec::Lpc10 => lpc10::FRAME_BYTES,
            Codec::Lpc10Half => half::SUPERFRAME_BYTES,
        }
    }

    pub open spec fn spec_required_frame_samples(self) -> Option<u16> {
        match self {
            Codec::ImaAdpcm => None,
            Codec::Lpc10 => Some(180),
            Codec::Lpc10Half => Some(360),
        }
    }

    /// Wire identifier. Values are permanent once shipped; a new codec takes
    /// a new number rather than redefining one.
    #[verifier::when_used_as_spec(spec_id)]
    pub fn id(self) -> (r: u8)
        ensures
            r == self.spec_id(),
    {
        match self {
            Codec::ImaAdpcm => 1,
            Codec::Lpc10 => 2,
            Codec::Lpc10Half => 3,
        }
    }

    fn from_id(id: u8) -> (r: Result<Codec, Error>)
        ensures
            r == Self::spec_from_id(id),
    {
        if id == 1 {
            Ok(Codec::ImaAdpcm)
        } else if id == 2 {
            Ok(Codec::Lpc10)
        } else if id == 3 {
            Ok(Codec::Lpc10Half)
        } else {
            Err(Error::UnknownCodec(id))
        }
    }

    /// Encoded length of one frame of `frame_samples` samples.
    #[verifier::when_used_as_spec(spec_frame_encoded_len)]
    pub fn frame_encoded_len(self, frame_samples: usize) -> (r: usize)
        ensures
            r == self.spec_frame_encoded_len(frame_samples),
    {
        match self {
            Codec::ImaAdpcm => adpcm::frame_encoded_len(frame_samples),
            Codec::Lpc10 => lpc10::FRAME_BYTES,
            Codec::Lpc10Half => half::SUPERFRAME_BYTES,
        }
    }

    /// The only frame length this codec accepts, when it has one.
    ///
    /// The vocoder's quantizers and pitch range are tied to its 22.5 ms
    /// frame, so unlike ADPCM it does not take an arbitrary geometry.
    #[verifier::when_used_as_spec(spec_required_frame_samples)]
    pub fn required_frame_samples(self) -> (r: Option<u16>)
        ensures
            r == self.spec_required_frame_samples(),
            self is Lpc10 ==> r == Some(lpc10::FRAME_SAMPLES as u16),
            self is Lpc10Half ==> r == Some(half::SUPERFRAME_SAMPLES as u16),
    {
        match self {
            Codec::ImaAdpcm => None,
            Codec::Lpc10 => Some(lpc10::FRAME_SAMPLES as u16),
            Codec::Lpc10Half => Some(half::SUPERFRAME_SAMPLES as u16),
        }
    }
}

/// Identifiers name their codecs: every codec is found by its identifier,
/// and by no other.
pub proof fn law_identifiers(codec: Codec, id: u8)
    ensures
        Codec::spec_from_id(id) == Ok::<Codec, Error>(codec) <==> id == codec.id(),
{
}

/// A clip's declared shape.
#[derive(Clone, Copy, Debug, PartialEq, Eq, Structural)]
pub struct ClipHeader {
    pub codec: Codec,
    /// Codec-specific mode. Zero for [`Codec::ImaAdpcm`].
    pub mode: u8,
    pub sample_rate: u32,
    pub frame_samples: u16,
    /// Total PCM samples, which trims the padding in the final frame.
    pub sample_count: u32,
}

/// A 32-bit value in little-endian bytes.
pub open spec fn le32(v: u32) -> Seq<u8> {
    seq![
        (v % 256) as u8,
        ((v / 256) % 256) as u8,
        ((v / 0x1_0000) % 256) as u8,
        (v / 0x100_0000) as u8,
    ]
}

/// A 16-bit value in little-endian bytes.
pub open spec fn le16(v: u16) -> Seq<u8> {
    seq![(v % 256) as u8, (v / 256) as u8]
}

/// The 32-bit value of four little-endian bytes.
pub open spec fn word32(b: Seq<u8>, at: int) -> u32 {
    (b[at] + 256 * b[at + 1] + 0x1_0000 * b[at + 2] + 0x100_0000 * b[at + 3]) as u32
}

/// The 16-bit value of two little-endian bytes.
pub open spec fn word16(b: Seq<u8>, at: int) -> u16 {
    (b[at] + 256 * b[at + 1]) as u16
}

impl ClipHeader {
    /// What is wrong with a header, if anything.
    pub open spec fn defect(self) -> Option<Error> {
        if self.sample_rate == 0 {
            Some(Error::InvalidHeader)
        } else if self.frame_samples == 0 || self.frame_samples > MAX_FRAME_SAMPLES {
            Some(Error::InvalidHeader)
        } else if self.mode != 0 {
            Some(Error::UnsupportedMode(self.mode))
        } else {
            match self.codec.required_frame_samples() {
                Some(required) => if self.frame_samples != required {
                    Some(Error::InvalidHeader)
                } else {
                    None
                },
                None => None,
            }
        }
    }

    /// Frames needed to hold the samples: a trailing partial one counts.
    pub open spec fn frames(self) -> int {
        (self.sample_count + self.frame_samples - 1) / self.frame_samples as int
    }

    /// Bytes of one encoded frame.
    pub open spec fn frame_len(self) -> int {
        self.codec.frame_encoded_len(self.frame_samples as usize) as int
    }

    /// Bytes of the whole clip.
    pub open spec fn clip_len(self) -> int {
        HEADER_LEN + self.frames() * self.frame_len()
    }

    /// The header as it is written.
    pub open spec fn bytes(self) -> Seq<u8> {
        MAGIC@ + seq![VERSION, self.codec.id(), self.mode] + le32(self.sample_rate) + le16(
            self.frame_samples,
        ) + le32(self.sample_count)
    }

    /// What the front of `b` says, read as a header.
    pub open spec fn parsed(b: Seq<u8>) -> Result<ClipHeader, Error> {
        if b.len() < HEADER_LEN {
            Err(Error::Truncated)
        } else if b.take(5) != MAGIC@ {
            Err(Error::BadMagic)
        } else if b[5] != VERSION {
            Err(Error::UnsupportedVersion(b[5]))
        } else {
            match Codec::spec_from_id(b[6]) {
                Err(error) => Err(error),
                Ok(codec) => {
                    let header = ClipHeader {
                        codec,
                        mode: b[7],
                        sample_rate: word32(b, 8),
                        frame_samples: word16(b, 12),
                        sample_count: word32(b, 14),
                    };
                    match header.defect() {
                        Some(error) => Err(error),
                        None => Ok(header),
                    }
                },
            }
        }
    }

    /// Frames needed to hold `sample_count` samples.
    pub fn frame_count(&self) -> (r: u32)
        requires
            self.frame_samples != 0,
        ensures
            r == self.frames(),
            r == (self.sample_count + self.frame_samples - 1) / self.frame_samples as int,
            r <= self.sample_count,
    {
        let n: u64 = self.frame_samples as u64;
        let r: u64 = (self.sample_count as u64 + n - 1) / n;
        proof {
            let c = self.sample_count as int;
            assert(r <= c) by (nonlinear_arith)
                requires
                    n >= 1,
                    c >= 0,
                    r == (c + n - 1) / (n as int),
            ;
        }
        r as u32
    }

    /// Duration in milliseconds, rounded down. A duration past 32 bits keeps
    /// its low 32.
    pub fn duration_ms(&self) -> (r: u32)
        requires
            self.sample_rate != 0,
        ensures
            r == (self.sample_count * 1000 / self.sample_rate as int) % 0x1_0000_0000,
            self.sample_count * 1000 / self.sample_rate as int <= u32::MAX ==> r
                == self.sample_count * 1000 / self.sample_rate as int,
    {
        let ms: u64 = self.sample_count as u64 * 1000 / self.sample_rate as u64;
        proof {
            vstd::arithmetic::div_mod::lemma_div_pos_is_pos(
                self.sample_count * 1000,
                self.sample_rate as int,
            );
        }
        (ms % 0x1_0000_0000) as u32
    }

    /// Total clip length in bytes, header included.
    pub fn encoded_len(&self) -> (r: usize)
        requires
            self.frame_samples != 0,
            self.clip_len() <= usize::MAX,
        ensures
            r == self.clip_len(),
    {
        let frame_len: usize = self.codec.frame_encoded_len(self.frame_samples as usize);
        let count: u32 = self.frame_count();
        proof {
            assert(count <= count * frame_len) by (nonlinear_arith)
                requires
                    frame_len >= 1,
                    count >= 0,
            ;
        }
        HEADER_LEN + count as usize * frame_len
    }

    fn validate(&self) -> (r: Result<(), Error>)
        ensures
            r == (match self.defect() {
                Some(error) => Err(error),
                None => Ok::<(), Error>(()),
            }),
    {
        if self.sample_rate == 0 {
            return Err(Error::InvalidHeader);
        }
        if self.frame_samples == 0 || self.frame_samples > MAX_FRAME_SAMPLES {
            return Err(Error::InvalidHeader);
        }
        if self.mode != 0 {
            return Err(Error::UnsupportedMode(self.mode));
        }
        // A codec with fixed geometry refuses any other, rather than
        // producing frames neither side can parse.
        match self.codec.required_frame_samples() {
            Some(required) => {
                if self.frame_samples != required {
                    Err(Error::InvalidHeader)
                } else {
                    Ok(())
                }
            },
            None => Ok(()),
        }
    }

    /// Write the header into `out`, returning bytes written.
    pub fn write(&self, out: &mut [u8]) -> (r: Result<usize, Error>)
        ensures
            self.defect() is Some ==> r == Err::<usize, Error>(self.defect()->0),
            self.defect() is None && old(out)@.len() < HEADER_LEN ==> r == Err::<usize, Error>(
                Error::ShortBuffer,
            ),
            r is Err ==> final(out)@ == old(out)@,
            self.defect() is None && old(out)@.len() >= HEADER_LEN ==> {
                &&& r == Ok::<usize, Error>(HEADER_LEN)
                &&& final(out)@ == self.bytes() + old(out)@.skip(HEADER_LEN as int)
            },
    {
        match self.validate() {
            Err(error) => {
                return Err(error);
            },
            Ok(()) => {},
        }
        if out.len() < HEADER_LEN {
            return Err(Error::ShortBuffer);
        }
        let ghost before = out@;
        out[0] = MAGIC[0];
        out[1] = MAGIC[1];
        out[2] = MAGIC[2];
        out[3] = MAGIC[3];
        out[4] = MAGIC[4];
        out[5] = VERSION;
        out[6] = self.codec.id();
        out[7] = self.mode;
        put32(self.sample_rate, out, 8);
        out[12] = (self.frame_samples % 256) as u8;
        out[13] = (self.frame_samples / 256) as u8;
        put32(self.sample_count, out, 14);
        assert(out@ =~= self.bytes() + before.skip(HEADER_LEN as int));
        Ok(HEADER_LEN)
    }

    /// Parse a header from the front of `bytes`.
    pub fn parse(bytes: &[u8]) -> (r: Result<ClipHeader, Error>)
        ensures
            r == Self::parsed(bytes@),
    {
        if bytes.len() < HEADER_LEN {
            return Err(Error::Truncated);
        }
        let magic: bool = bytes[0] == MAGIC[0] && bytes[1] == MAGIC[1] && bytes[2] == MAGIC[2]
            && bytes[3] == MAGIC[3] && bytes[4] == MAGIC[4];
        proof {
            if magic {
                assert(bytes@.take(5) =~= MAGIC@);
            } else {
                assert(bytes@.take(5)[0] == bytes@[0]);
                assert(bytes@.take(5)[1] == bytes@[1]);
                assert(bytes@.take(5)[2] == bytes@[2]);
                assert(bytes@.take(5)[3] == bytes@[3]);
                assert(bytes@.take(5)[4] == bytes@[4]);
                assert(bytes@.take(5) != MAGIC@);
            }
        }
        if !magic {
            return Err(Error::BadMagic);
        }
        if bytes[5] != VERSION {
            return Err(Error::UnsupportedVersion(bytes[5]));
        }
        match Codec::from_id(bytes[6]) {
            Err(error) => Err(error),
            Ok(codec) => {
                let header = ClipHeader {
                    codec,
                    mode: bytes[7],
                    sample_rate: get32(bytes, 8),
                    frame_samples: bytes[12] as u16 + 256 * (bytes[13] as u16),
                    sample_count: get32(bytes, 14),
                };
                match header.validate() {
                    Err(error) => Err(error),
                    Ok(()) => Ok(header),
                }
            },
        }
    }
}

/// Write a 32-bit value at `at`, little-endian.
fn put32(v: u32, out: &mut [u8], at: usize)
    requires
        at + 4 <= old(out)@.len(),
    ensures
        final(out)@ == old(out)@.take(at as int) + le32(v) + old(out)@.skip(at + 4),
{
    let ghost before = out@;
    assert(out.len() == out@.len());
    out[at] = (v % 256) as u8;
    out[at + 1] = ((v / 256) % 256) as u8;
    out[at + 2] = ((v / 0x1_0000) % 256) as u8;
    out[at + 3] = (v / 0x100_0000) as u8;
    assert(out@ =~= before.take(at as int) + le32(v) + before.skip(at + 4));
}

/// Read a 32-bit value at `at`, little-endian.
fn get32(b: &[u8], at: usize) -> (v: u32)
    requires
        at + 4 <= b@.len(),
    ensures
        v == word32(b@, at as int),
{
    assert(b.len() == b@.len());
    b[at] as u32 + 256 * (b[at + 1] as u32) + 0x1_0000 * (b[at + 2] as u32) + 0x100_0000 * (b[at
        + 3] as u32)
}

/// A valid header reads back as it was written, whatever follows it.
pub proof fn law_header_round_trip(header: ClipHeader, rest: Seq<u8>)
    requires
        header.defect() is None,
    ensures
        ClipHeader::parsed(header.bytes() + rest) == Ok::<ClipHeader, Error>(header),
{
    let b = header.bytes() + rest;
    assert(b.take(5) =~= MAGIC@);
    lemma_word32(header.sample_rate, b, 8);
    lemma_word32(header.sample_count, b, 14);
    law_identifiers(header.codec, b[6]);
}

proof fn lemma_word32(v: u32, b: Seq<u8>, at: int)
    requires
        b[at] == le32(v)[0],
        b[at + 1] == le32(v)[1],
        b[at + 2] == le32(v)[2],
        b[at + 3] == le32(v)[3],
    ensures
        word32(b, at) == v,
{
}

/// What parses as a header is the header as it would be written: no two
/// byte strings mean the same clip shape.
pub proof fn law_header_is_canonical(b: Seq<u8>, header: ClipHeader)
    requires
        ClipHeader::parsed(b) == Ok::<ClipHeader, Error>(header),
    ensures
        b.take(HEADER_LEN as int) == header.bytes(),
        header.defect() is None,
{
    let t = b.take(HEADER_LEN as int);
    let h = header.bytes();
    assert(forall|i: int| 0 <= i < 5 ==> b.take(5)[i] == b[i]);
    law_identifiers(header.codec, b[6]);
    lemma_le32(b, 8);
    lemma_le32(b, 14);
    assert(t =~= h);
}

proof fn lemma_le32(b: Seq<u8>, at: int)
    ensures
        le32(word32(b, at)) == seq![b[at], b[at + 1], b[at + 2], b[at + 3]],
{
    let v = word32(b, at);
    assert(v / 256 == b[at + 1] + 256 * b[at + 2] + 0x1_0000 * b[at + 3]);
    assert(v / 0x1_0000 == b[at + 2] + 256 * b[at + 3]);
    assert(v / 0x100_0000 == b[at + 3]);
    assert(v % 256 == b[at]);
    assert((v / 256) % 256 == b[at + 1]);
    assert((v / 0x1_0000) % 256 == b[at + 2]);
    assert(le32(v) =~= seq![b[at], b[at + 1], b[at + 2], b[at + 3]]);
}

/// How a clip should be encoded.
#[derive(Clone, Copy, Debug, PartialEq, Eq, Structural)]
pub struct ClipParams {
    pub codec: Codec,
    pub sample_rate: u32,
    pub frame_samples: u16,
}

impl ClipParams {
    /// ADPCM at 8 kHz in 20 ms frames: the fat-bearer default.
    pub fn adpcm() -> (r: ClipParams)
        ensures
            r == (ClipParams { codec: Codec::ImaAdpcm, sample_rate: 8_000, frame_samples: 160 }),
    {
        ClipParams { codec: Codec::ImaAdpcm, sample_rate: 8_000, frame_samples: 160 }
    }

    /// The vocoder at half rate, 1,600 bps: a third less airtime than
    /// [`Self::lpc10`], at the cost of spectral detail during fast
    /// articulation.
    pub fn lpc10_half() -> (r: ClipParams)
        ensures
            r == (ClipParams { codec: Codec::Lpc10Half, sample_rate: 8_000, frame_samples: 360 }),
    {
        ClipParams {
            codec: Codec::Lpc10Half,
            sample_rate: 8_000,
            frame_samples: half::SUPERFRAME_SAMPLES as u16,
        }
    }

    /// The vocoder at 8 kHz, in the only frame length it accepts. This is
    /// the setting for a link where bytes are scarce.
    pub fn lpc10() -> (r: ClipParams)
        ensures
            r == (ClipParams { codec: Codec::Lpc10, sample_rate: 8_000, frame_samples: 180 }),
    {
        ClipParams {
            codec: Codec::Lpc10,
            sample_rate: 8_000,
            frame_samples: lpc10::FRAME_SAMPLES as u16,
        }
    }
}

impl Default for ClipParams {
    fn default() -> (r: ClipParams)
        ensures
            r == (ClipParams { codec: Codec::ImaAdpcm, sample_rate: 8_000, frame_samples: 160 }),
    {
        Self::adpcm()
    }
}

/// The samples of frame `i`, `n` to a frame. Where the samples run out the
/// last one is held, so the padding adds no transient.
pub open spec fn chunk(pcm: Seq<i16>, n: int, i: int) -> Seq<i16> {
    Seq::new(
        n as nat,
        |k: int|
            if i * n + k < pcm.len() {
                pcm[i * n + k]
            } else {
                pcm.last()
            },
    )
}

/// The ADPCM coder as frame `i` begins.
pub open spec fn coder_before(pcm: Seq<i16>, n: int, i: nat) -> Coder
    decreases i,
{
    if i == 0 {
        Coder::start()
    } else {
        coder_before(pcm, n, (i - 1) as nat).after(chunk(pcm, n, i - 1))
    }
}

/// The vocoder's analyser as frame `i` begins.
pub open spec fn listener_before(pcm: Seq<i16>, n: int, i: nat) -> Listener
    decreases i,
{
    if i == 0 {
        Listener::start()
    } else {
        listener_before(pcm, n, (i - 1) as nat).after(chunk(pcm, n, i - 1))
    }
}

/// The first and the second half of superframe `i`.
pub open spec fn halves(pcm: Seq<i16>, n: int, i: int) -> (Seq<i16>, Seq<i16>) {
    (
        chunk(pcm, n, i).take(lpc10::FRAME_SAMPLES as int),
        chunk(pcm, n, i).skip(lpc10::FRAME_SAMPLES as int),
    )
}

/// The half-rate analyser as superframe `i` begins.
pub open spec fn half_listener_before(pcm: Seq<i16>, n: int, i: nat) -> Listener
    decreases i,
{
    if i == 0 {
        Listener::start()
    } else {
        let (a, b) = halves(pcm, n, i - 1);
        half_listener_before(pcm, n, (i - 1) as nat).after(a).after(b)
    }
}

/// Whether `frame` is what a codec sends for frame `i` of the samples.
pub open spec fn is_frame(codec: Codec, pcm: Seq<i16>, n: int, i: nat, frame: Seq<u8>) -> bool {
    match codec {
        Codec::ImaAdpcm => frame == coder_before(pcm, n, i).frame(chunk(pcm, n, i as int)),
        Codec::Lpc10 => {
            &&& frame.len() == lpc10::FRAME_BYTES
            &&& bits::bits(frame) == quant::frame_bits(
                listener_before(pcm, n, i).analyzed(chunk(pcm, n, i as int)),
            )
        },
        Codec::Lpc10Half => {
            let (a, b) = halves(pcm, n, i as int);
            let listener = half_listener_before(pcm, n, i);
            &&& frame.len() == half::SUPERFRAME_BYTES
            &&& bits::bits(frame) == half::superframe_bits(
                listener.analyzed(a),
                listener.after(a).analyzed(b),
            )
        },
    }
}

impl ClipHeader {
    /// Where frame `i` begins in a clip.
    pub open spec fn frame_start(self, i: int) -> int {
        HEADER_LEN + i * self.frame_len()
    }

    /// The bytes of frame `i` of a clip.
    pub open spec fn frame_of(self, bytes: Seq<u8>, i: int) -> Seq<u8> {
        bytes.subrange(self.frame_start(i), self.frame_start(i) + self.frame_len())
    }

    /// Frames lie one after the other between the header and the end of the
    /// clip, and hold the samples.
    pub proof fn lemma_frames(self, i: int)
        requires
            self.defect() is None,
            0 <= i < self.frames(),
        ensures
            HEADER_LEN <= self.frame_start(i),
            self.frame_start(i + 1) == self.frame_start(i) + self.frame_len(),
            self.frame_start(i + 1) <= self.clip_len(),
            i * self.frame_samples < self.sample_count,
            i + 1 < self.frames() ==> (i + 1) * self.frame_samples < self.sample_count,
            i + 1 == self.frames() ==> self.sample_count <= (i + 1) * self.frame_samples,
    {
        let len = self.frame_len();
        let n = self.frame_samples as int;
        let count = self.sample_count as int;
        let frames = self.frames();
        assert(0 <= i * len && (i + 1) * len == i * len + len && (i + 1) * len <= frames * len)
            by (nonlinear_arith)
            requires
                0 <= i < frames,
                0 <= len,
        ;
        assert(count <= n * frames < count + n) by (nonlinear_arith)
            requires
                frames == (count + n - 1) / n,
                0 < n,
        ;
        assert(i * n < count) by (nonlinear_arith)
            requires
                0 <= i,
                i + 1 <= frames,
                n * frames < count + n,
                0 < n,
        ;
        if i + 1 < frames {
            assert((i + 1) * n < count) by (nonlinear_arith)
                requires
                    i + 2 <= frames,
                    n * frames < count + n,
                    0 < n,
            ;
        } else {
            assert((i + 1) * n == n * frames) by (nonlinear_arith)
                requires
                    i + 1 == frames,
            ;
        }
    }
}

/// The header of the clip that holds the samples.
pub open spec fn shape(pcm: Seq<i16>, params: ClipParams) -> ClipHeader {
    ClipHeader {
        codec: params.codec,
        mode: 0,
        sample_rate: params.sample_rate,
        frame_samples: params.frame_samples,
        sample_count: pcm.len() as u32,
    }
}

/// Whether `bytes` is the clip of the samples: the header, and the frames
/// back to back.
pub open spec fn is_clip(bytes: Seq<u8>, pcm: Seq<i16>, params: ClipParams) -> bool {
    let header = shape(pcm, params);
    &&& bytes.len() == header.clip_len()
    &&& bytes.take(HEADER_LEN as int) == header.bytes()
    &&& forall|i: int|
        0 <= i < header.frames() ==> is_frame(
            params.codec,
            pcm,
            params.frame_samples as int,
            i as nat,
            #[trigger] header.frame_of(bytes, i),
        )
}

/// Fill `scratch` with frame `i` of the samples.
fn fill(pcm: &[i16], i: usize, scratch: &mut [i16])
    requires
        i * old(scratch)@.len() < pcm@.len(),
    ensures
        final(scratch)@ == chunk(pcm@, old(scratch)@.len() as int, i as int),
{
    let n: usize = scratch.len();
    assert(pcm.len() == pcm@.len());
    let first: usize = i * n;
    let rest: usize = pcm.len() - first;
    // Hold the last sample through the padding rather than dropping to
    // silence.
    let pad: i16 = pcm[pcm.len() - 1];
    let mut k: usize = 0;
    while k < n
        invariant
            k <= n == scratch@.len(),
            first == i * n,
            rest == pcm@.len() - first,
            0 < rest,
            pad == pcm@.last(),
            forall|j: int| 0 <= j < k ==> scratch@[j] == chunk(pcm@, n as int, i as int)[j],
        decreases n - k,
    {
        assert(pcm.len() == pcm@.len());
        scratch[k] = if k < rest {
            pcm[first + k]
        } else {
            pad
        };
        k = k + 1;
    }
    assert(scratch@ =~= chunk(pcm@, n as int, i as int));
}

/// The encoders of all codecs, of which a clip drives one.
struct Encoders {
    adpcm: adpcm::Encoder,
    lpc: lpc10::Encoder,
    half: half::Encoder,
}

impl Encoders {
    /// Whether the encoder of a codec is where frame `i` begins.
    spec fn before(self, codec: Codec, pcm: Seq<i16>, n: int, i: nat) -> bool {
        match codec {
            Codec::ImaAdpcm => self.adpcm@ == coder_before(pcm, n, i),
            Codec::Lpc10 => self.lpc@ == listener_before(pcm, n, i),
            Codec::Lpc10Half => self.half@ == half_listener_before(pcm, n, i),
        }
    }

    /// Encode frame `i` to the front of `out`.
    fn encode(
        &mut self,
        codec: Codec,
        frame: &[i16],
        out: &mut [u8],
        Ghost(pcm): Ghost<Seq<i16>>,
        Ghost(i): Ghost<nat>,
    ) -> (r: Result<usize, Error>)
        requires
            codec.required_frame_samples() matches Some(required) ==> frame@.len() == required,
            frame@ == chunk(pcm, frame@.len() as int, i as int),
            old(self).before(codec, pcm, frame@.len() as int, i),
            old(out)@.len() >= codec.frame_encoded_len(frame@.len() as usize),
        ensures
            r is Ok,
            final(self).before(codec, pcm, frame@.len() as int, i + 1),
            final(out)@.len() == old(out)@.len(),
            is_frame(
                codec,
                pcm,
                frame@.len() as int,
                i,
                final(out)@.take(codec.frame_encoded_len(frame@.len() as usize) as int),
            ),
    {
        assert(frame.len() == frame@.len());
        let ghost len = codec.frame_encoded_len(frame@.len() as usize) as int;
        match codec {
            Codec::ImaAdpcm => {
                let r = self.adpcm.encode_frame(frame, out);
                proof {
                    let sent = coder_before(pcm, frame@.len() as int, i).frame(frame@);
                    assert(out@.take(len) =~= sent);
                }
                r
            },
            Codec::Lpc10 => self.lpc.encode_frame(frame, out),
            Codec::Lpc10Half => self.half.encode_superframe(frame, out),
        }
    }
}

/// Encode PCM into a complete clip.
///
/// A trailing partial frame is padded by holding the last sample, so the
/// padding adds no transient; `sample_count` in the header trims it on
/// decode.
pub fn encode_clip(pcm: &[i16], params: ClipParams) -> (r: Result<Vec<u8>, Error>)
    requires
        pcm@.len() <= u32::MAX && shape(pcm@, params).defect() is None ==> shape(
            pcm@,
            params,
        ).clip_len() <= usize::MAX,
    ensures
        pcm@.len() > u32::MAX ==> r == Err::<Vec<u8>, Error>(Error::TooLong),
        pcm@.len() <= u32::MAX && shape(pcm@, params).defect() is Some ==> r == Err::<
            Vec<u8>,
            Error,
        >(shape(pcm@, params).defect()->0),
        pcm@.len() <= u32::MAX && shape(pcm@, params).defect() is None ==> {
            &&& r is Ok
            &&& is_clip(r->Ok_0@, pcm@, params)
        },
{
    if pcm.len() > u32::MAX as usize {
        return Err(Error::TooLong);
    }
    let header = ClipHeader {
        codec: params.codec,
        mode: 0,
        sample_rate: params.sample_rate,
        frame_samples: params.frame_samples,
        sample_count: pcm.len() as u32,
    };
    match header.validate() {
        Err(error) => {
            return Err(error);
        },
        Ok(()) => {},
    }
    let n: usize = params.frame_samples as usize;
    let frame_len: usize = params.codec.frame_encoded_len(n);
    let frames: usize = header.frame_count() as usize;
    let mut out: Vec<u8> = vec![0u8; header.encoded_len()];
    proof {
        assert(0 <= frames * frame_len) by (nonlinear_arith)
            requires
                frames >= 0,
                frame_len >= 0,
        ;
    }
    match header.write(out.as_mut_slice()) {
        Err(error) => {
            return Err(error);
        },
        Ok(_) => {},
    }
    assert(out@.take(HEADER_LEN as int) =~= header.bytes());

    let mut encoders = Encoders {
        adpcm: adpcm::Encoder::new(),
        lpc: lpc10::Encoder::new(),
        half: half::Encoder::new(),
    };
    let mut scratch: Vec<i16> = vec![0i16; n];
    let mut i: usize = 0;
    while i < frames
        invariant
            i <= frames,
            header == shape(pcm@, params),
            header.defect() is None,
            header.clip_len() <= usize::MAX,
            frames == header.frames(),
            n == params.frame_samples,
            frame_len == header.frame_len(),
            pcm@.len() <= u32::MAX,
            scratch@.len() == n,
            out@.len() == header.clip_len(),
            out@.take(HEADER_LEN as int) == header.bytes(),
            encoders.before(params.codec, pcm@, n as int, i as nat),
            frames_sent(out@, pcm@, params, i as int),
        decreases frames - i,
    {
        let ghost before = out@;
        proof {
            header.lemma_frames(i as int);
        }
        fill(pcm, i, scratch.as_mut_slice());
        let at: usize = HEADER_LEN + i * frame_len;
        let (_, tail) = out.as_mut_slice().split_at_mut(at);
        match encoders.encode(
            params.codec,
            scratch.as_slice(),
            tail,
            Ghost(pcm@),
            Ghost(i as nat),
        ) {
            Err(error) => {
                return Err(error);
            },
            Ok(_) => {},
        }
        let ghost sent = tail@;
        proof {
            lemma_frame_sent(header, params, pcm@, before, sent, out@, i as int);
        }
        i = i + 1;
    }
    Ok(out)
}

/// The first `i` frames of a clip in the making.
spec fn frames_sent(bytes: Seq<u8>, pcm: Seq<i16>, params: ClipParams, i: int) -> bool {
    forall|j: int|
        0 <= j < i ==> is_frame(
            params.codec,
            pcm,
            params.frame_samples as int,
            j as nat,
            #[trigger] shape(pcm, params).frame_of(bytes, j),
        )
}

/// Writing frame `i` leaves the frames before it alone.
proof fn lemma_frame_kept(
    header: ClipHeader,
    before: Seq<u8>,
    sent: Seq<u8>,
    after: Seq<u8>,
    i: int,
    j: int,
)
    requires
        header.defect() is None,
        0 <= j < i < header.frames(),
        before.len() == after.len() == header.clip_len(),
        after == before.take(header.frame_start(i)) + sent,
    ensures
        header.frame_of(after, j) == header.frame_of(before, j),
{
    header.lemma_frames(i);
    header.lemma_frames(j);
    let len = header.frame_len();
    assert((j + 1) * len <= i * len) by (nonlinear_arith)
        requires
            j + 1 <= i,
            0 <= len,
    ;
    assert(header.frame_of(after, j) =~= header.frame_of(before, j));
}

/// Writing frame `i` leaves the header and the frames before it alone.
#[verifier::rlimit(30)]
proof fn lemma_frame_sent(
    header: ClipHeader,
    params: ClipParams,
    pcm: Seq<i16>,
    before: Seq<u8>,
    sent: Seq<u8>,
    after: Seq<u8>,
    i: int,
)
    requires
        header == shape(pcm, params),
        header.defect() is None,
        0 <= i < header.frames(),
        before.len() == after.len() == header.clip_len(),
        after == before.take(header.frame_start(i)) + sent,
        frames_sent(before, pcm, params, i),
        is_frame(
            params.codec,
            pcm,
            params.frame_samples as int,
            i as nat,
            sent.take(header.frame_len()),
        ),
    ensures
        after.take(HEADER_LEN as int) == before.take(HEADER_LEN as int),
        frames_sent(after, pcm, params, i + 1),
{
    header.lemma_frames(i);
    let at = header.frame_start(i);
    let len = header.frame_len();
    assert(after.take(HEADER_LEN as int) =~= before.take(HEADER_LEN as int));
    assert(header.frame_of(after, i) =~= sent.take(len));
    assert forall|j: int| 0 <= j < i + 1 implies is_frame(
        params.codec,
        pcm,
        params.frame_samples as int,
        j as nat,
        #[trigger] header.frame_of(after, j),
    ) by {
        if j < i {
            lemma_frame_kept(header, before, sent, after, i, j);
        } else {
            assert(header.frame_of(after, j) == sent.take(len));
        }
    }
}

impl ClipHeader {
    /// The vocoder's voice as frame `i` of a clip begins.
    pub open spec fn voice_before(self, bytes: Seq<u8>, i: nat) -> Voice
        decreases i,
    {
        if i == 0 {
            Voice::start()
        } else {
            self.voice_before(bytes, (i - 1) as nat).after(
                quant::speech_from(bits::bits(self.frame_of(bytes, i - 1))),
            )
        }
    }

    /// The half-rate voice as superframe `i` of a clip begins.
    pub open spec fn half_voice_before(self, bytes: Seq<u8>, i: nat) -> HalfVoice
        decreases i,
    {
        if i == 0 {
            HalfVoice::start()
        } else {
            self.half_voice_before(bytes, (i - 1) as nat).after(
                bits::bits(self.frame_of(bytes, i - 1)),
            )
        }
    }

    /// The samples that frame `i` of a clip stands for, padding and all.
    pub open spec fn audio(self, bytes: Seq<u8>, i: nat) -> Seq<i16> {
        let frame = self.frame_of(bytes, i as int);
        match self.codec {
            Codec::ImaAdpcm => Coder::read(frame).samples(
                Coder::unpacked(frame, self.frame_samples as nat),
            ),
            Codec::Lpc10 => self.voice_before(bytes, i).samples(
                quant::speech_from(bits::bits(frame)),
            ),
            Codec::Lpc10Half => self.half_voice_before(bytes, i).samples(bits::bits(frame)),
        }
    }

    /// Whether frame `i` of a clip starts from a state its codec can have
    /// produced. Every bit pattern is a valid vocoder frame.
    pub open spec fn sound(self, bytes: Seq<u8>, i: int) -> bool {
        self.codec is ImaAdpcm ==> self.frame_of(bytes, i)[2] <= adpcm::MAX_INDEX
    }

    /// The samples of a clip: its frames', trimmed to the declared count.
    pub open spec fn samples(self, bytes: Seq<u8>) -> Seq<i16> {
        let n = self.frame_samples as int;
        Seq::new(
            self.sample_count as nat,
            |k: int| self.audio(bytes, (k / n) as nat)[k % n],
        )
    }
}

/// What decoding a clip gives.
pub open spec fn decoded(bytes: Seq<u8>) -> Result<(ClipHeader, Seq<i16>), Error> {
    match ClipHeader::parsed(bytes) {
        Err(error) => Err(error),
        Ok(header) => if bytes.len() < header.clip_len() {
            Err(Error::Truncated)
        } else if exists|i: int| 0 <= i < header.frames() && !#[trigger] header.sound(bytes, i) {
            Err(Error::InvalidState)
        } else {
            Ok((header, header.samples(bytes)))
        },
    }
}

/// The decoders of the codecs that carry state from frame to frame.
struct Decoders {
    lpc: lpc10::Decoder,
    half: half::Decoder,
}

impl Decoders {
    /// Whether the decoder of a clip's codec is where frame `i` begins.
    spec fn before(self, header: ClipHeader, bytes: Seq<u8>, i: nat) -> bool {
        match header.codec {
            Codec::ImaAdpcm => true,
            Codec::Lpc10 => self.lpc@ == header.voice_before(bytes, i),
            Codec::Lpc10Half => self.half@ == header.half_voice_before(bytes, i),
        }
    }

    /// Decode frame `i` of a clip into `out`.
    fn decode(
        &mut self,
        header: &ClipHeader,
        frame: &[u8],
        out: &mut [i16],
        Ghost(bytes): Ghost<Seq<u8>>,
        Ghost(i): Ghost<nat>,
    ) -> (r: Result<usize, Error>)
        requires
            header.defect() is None,
            frame@ == header.frame_of(bytes, i as int),
            frame@.len() == header.frame_len(),
            old(out)@.len() == header.frame_samples,
            old(self).before(*header, bytes, i),
        ensures
            final(out)@.len() == old(out)@.len(),
            !header.sound(bytes, i as int) ==> r == Err::<usize, Error>(Error::InvalidState),
            header.sound(bytes, i as int) ==> {
                &&& r is Ok
                &&& final(self).before(*header, bytes, i + 1)
                &&& final(out)@ == header.audio(bytes, i)
            },
    {
        match header.codec {
            Codec::ImaAdpcm => adpcm::decode_frame(frame, out),
            Codec::Lpc10 => self.lpc.decode_frame(frame, out),
            Codec::Lpc10Half => self.half.decode_superframe(frame, out),
        }
    }
}

/// Decode a complete clip into PCM.
pub fn decode_clip(bytes: &[u8]) -> (r: Result<(ClipHeader, Vec<i16>), Error>)
    ensures
        match decoded(bytes@) {
            Err(error) => r == Err::<(ClipHeader, Vec<i16>), Error>(error),
            Ok((header, samples)) => {
                &&& r is Ok
                &&& r->Ok_0.0 == header
                &&& r->Ok_0.1@ == samples
            },
        },
{
    let header = match ClipHeader::parse(bytes) {
        Err(error) => {
            return Err(error);
        },
        Ok(header) => header,
    };
    let n: usize = header.frame_samples as usize;
    let frame_len: usize = header.codec.frame_encoded_len(n);
    let frames: u32 = header.frame_count();
    proof {
        assert(0 <= frames * frame_len <= 0xFFFF_FFFF * 2051) by (nonlinear_arith)
            requires
                0 <= frames <= 0xFFFF_FFFF,
                0 <= frame_len <= 2051,
        ;
    }
    // Trust the byte length, not the declared count: a header claiming more
    // audio than it carries is truncated, not an allocation hint.
    let needed: u64 = HEADER_LEN as u64 + frames as u64 * frame_len as u64;
    if (bytes.len() as u64) < needed {
        return Err(Error::Truncated);
    }
    assert(bytes.len() == bytes@.len());
    let count: usize = header.sample_count as usize;
    let mut pcm: Vec<i16> = Vec::with_capacity(count);
    let mut decoders = Decoders { lpc: lpc10::Decoder::new(), half: half::Decoder::new() };
    // The vocoder always renders a whole frame; a trailing partial one is
    // rendered here and trimmed on the way out.
    let mut scratch: Vec<i16> = vec![0i16; n];
    proof {
        if frames == 0 {
            assert(count == 0) by (nonlinear_arith)
                requires
                    (count + n - 1) / (n as int) == 0,
                    0 < n,
                    0 <= count,
            ;
        }
    }
    let mut i: usize = 0;
    while i < frames as usize
        invariant
            i <= frames,
            ClipHeader::parsed(bytes@) == Ok::<ClipHeader, Error>(header),
            header.defect() is None,
            header.clip_len() <= bytes@.len() <= usize::MAX,
            frames == header.frames(),
            n == header.frame_samples,
            frame_len == header.frame_len(),
            count == header.sample_count,
            scratch@.len() == n,
            decoders.before(header, bytes@, i as nat),
            forall|j: int| 0 <= j < i ==> #[trigger] header.sound(bytes@, j),
            i < frames ==> pcm@.len() == i * n,
            i == frames ==> pcm@.len() == count,
            forall|k: int| 0 <= k < pcm@.len() ==> pcm@[k] == header.samples(bytes@)[k],
        decreases frames - i,
    {
        proof {
            header.lemma_frames(i as int);
        }
        let at: usize = HEADER_LEN + i * frame_len;
        let frame: &[u8] = vstd::slice::slice_subrange(bytes, at, at + frame_len);
        match decoders.decode(
            &header,
            frame,
            scratch.as_mut_slice(),
            Ghost(bytes@),
            Ghost(i as nat),
        ) {
            Err(error) => {
                return Err(error);
            },
            Ok(_) => {},
        }
        let rest: usize = count - i * n;
        let keep: usize = if rest < n { rest } else { n };
        let mut k: usize = 0;
        while k < keep
            invariant
                k <= keep <= n == scratch@.len(),
                n == header.frame_samples,
                n > 0,
                i * n + keep <= count == header.sample_count,
                pcm@.len() == i * n + k,
                scratch@ == header.audio(bytes@, i as nat),
                forall|j: int| 0 <= j < pcm@.len() ==> pcm@[j] == header.samples(bytes@)[j],
            decreases keep - k,
        {
            proof {
                vstd::arithmetic::div_mod::lemma_fundamental_div_mod_converse(
                    i * n + k,
                    n as int,
                    i as int,
                    k as int,
                );
            }
            pcm.push(scratch[k]);
            k = k + 1;
        }
        proof {
            assert((i + 1) * n == i * n + n) by (nonlinear_arith);
        }
        i = i + 1;
    }
    proof {
        assert(pcm@ =~= header.samples(bytes@));
    }
    Ok((header, pcm))
}

} // verus!
