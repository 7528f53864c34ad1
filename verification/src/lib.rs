//! A small speech codec for voices that travel light.
//!
//! Pipit encodes speech for links where bytes are expensive: recorded voice
//! messages carried store-and-forward over a mesh, and later live or
//! push-to-talk calls over the same paths. It is the lofi lane on purpose.
//! Where a hifi codec preserves the recording, Pipit preserves the message.
//!
//! # Three codecs, one for each kind of link
//!
//! - [`Codec::ImaAdpcm`]: 4 bits per sample, about 32 kbps at 8 kHz. A
//!   cheaper description of the waveform, so it still sounds like the
//!   talker's recording. Right for a WiFi or TCP bearer, too fat for LoRa.
//! - [`Codec::Lpc10`]: a 10th-order vocoder at 2,489 bps, thirteen times
//!   smaller. It transmits no waveform at all, only what it takes to
//!   *rebuild* speech: voicing, pitch, vocal-tract shape, energy. That is
//!   why a ten-second memo fits in about 3 KB, and why it sounds synthetic.
//!   See [`lpc10`] for what it does and does not claim about FIPS-137.
//! - [`Codec::Lpc10Half`]: the same vocoder at 1,600 bps, by sending the
//!   vocal tract once per two frames instead of every frame. The tract moves
//!   slowly while pitch and energy move fast, so this drops a third of the
//!   airtime for almost no measured spectral cost. Ten seconds is 2 KB.
//!
//! Clips name their codec, so a receiver decodes either without prior
//! agreement and a third can be added without a format break.
//!
//! # Two layers
//!
//! - **Frames** are the streaming primitive a call drives directly. Each
//!   frame describes itself, so a frame lost mid-call costs its own few
//!   milliseconds and nothing after it: an [`adpcm`] frame carries the
//!   predictor state it starts from, and an [`lpc10`] frame carries a whole
//!   parametric description of its own audio.
//! - **Clips** ([`clip`]) are the stored primitive: a header naming codec,
//!   mode, sample rate, and frame geometry, then frames back to back. A
//!   recorded voice message is a clip.
//!
//! A clip is only the payload. Sender, recipient, timestamp, and signature
//! belong to whatever envelope carries it, which keeps a clip decodable by a
//! host with no radio stack.
//!
//! # Arithmetic
//!
//! The vocoder works in IEEE 754 single precision. [`binary32`] does that
//! arithmetic on the bit patterns, in integers, with every rounding stated
//! and proved, so a frame is a function of its samples alone: two machines
//! cannot disagree about one bit of it.
use vstd::prelude::*;

pub mod accuracy;
pub mod adpcm;
pub mod binary32;
mod bounds;
pub mod clip;
mod composition;
pub mod cosine;
pub mod exponential;
pub mod logarithm;
pub mod lpc10;
pub mod math;
pub mod order;
pub mod product;
pub mod reals;
pub mod root;
pub mod rounding;
pub mod sums;

pub use clip::{
    decode_clip, encode_clip, ClipHeader, ClipParams, Codec, HEADER_LEN, MAGIC, MAX_FRAME_SAMPLES,
    VERSION,
};

verus! {

/// Everything that can go wrong reading or writing Pipit audio.
///
/// Decoding is a hostile-input surface: a clip may arrive from a stranger
/// over the air. Every path here returns an error rather than panicking, and
/// no declared length is trusted enough to size a buffer on its own.
#[derive(Clone, Copy, Debug, PartialEq, Eq, Structural)]
#[non_exhaustive]
pub enum Error {
    /// The caller's output buffer is smaller than the encoded form needs.
    ShortBuffer,
    /// Input ended before the declared structure did.
    Truncated,
    /// Leading bytes are not [`MAGIC`].
    BadMagic,
    /// Container version this build does not read.
    UnsupportedVersion(u8),
    /// Codec identifier this build does not know.
    UnknownCodec(u8),
    /// Codec mode this build does not implement.
    UnsupportedMode(u8),
    /// Header fields are self-inconsistent or out of range.
    InvalidHeader,
    /// A frame's coder state is not a value the codec can have produced.
    InvalidState,
    /// More audio than the container's counters can address.
    TooLong,
}

/// A number in decimal digits.
pub open spec fn decimal(value: int) -> Seq<char>
    decreases value,
{
    if value < 10 {
        seq![('0' as int + value) as char]
    } else {
        decimal(value / 10).push(('0' as int + value % 10) as char)
    }
}

fn digit(value: u8) -> (r: &'static str)
    requires
        value < 10,
    ensures
        r@ == seq![('0' as int + value) as char],
{
    proof {
        reveal_strlit("0");
        reveal_strlit("1");
        reveal_strlit("2");
        reveal_strlit("3");
        reveal_strlit("4");
        reveal_strlit("5");
        reveal_strlit("6");
        reveal_strlit("7");
        reveal_strlit("8");
        reveal_strlit("9");
    }
    match value {
        0 => "0",
        1 => "1",
        2 => "2",
        3 => "3",
        4 => "4",
        5 => "5",
        6 => "6",
        7 => "7",
        8 => "8",
        _ => "9",
    }
}

/// `text`, then a number in decimal.
fn numbered(text: &str, value: u8) -> (r: String)
    ensures
        r@ == text@ + decimal(value as int),
{
    let mut r: String = text.to_owned();
    if value >= 100 {
        r.append(digit(value / 100));
    }
    if value >= 10 {
        r.append(digit((value / 10) % 10));
    }
    r.append(digit(value % 10));
    proof {
        reveal_with_fuel(decimal, 3);
        assert(r@ =~= text@ + decimal(value as int));
    }
    r
}

impl Error {
    /// What went wrong, in words.
    pub open spec fn text(self) -> Seq<char> {
        match self {
            Error::ShortBuffer => "output buffer too small"@,
            Error::Truncated => "input ended early"@,
            Error::BadMagic => "not a pipit clip"@,
            Error::UnsupportedVersion(version) => "unsupported clip version "@ + decimal(
                version as int,
            ),
            Error::UnknownCodec(id) => "unknown codec id "@ + decimal(id as int),
            Error::UnsupportedMode(mode) => "unsupported codec mode "@ + decimal(mode as int),
            Error::InvalidHeader => "invalid clip header"@,
            Error::InvalidState => "invalid coder state in frame"@,
            Error::TooLong => "audio too long for the container"@,
        }
    }

    /// What went wrong, in words.
    pub fn message(&self) -> (r: String)
        ensures
            r@ == self.text(),
    {
        match *self {
            Error::ShortBuffer => "output buffer too small".to_owned(),
            Error::Truncated => "input ended early".to_owned(),
            Error::BadMagic => "not a pipit clip".to_owned(),
            Error::UnsupportedVersion(version) => numbered("unsupported clip version ", version),
            Error::UnknownCodec(id) => numbered("unknown codec id ", id),
            Error::UnsupportedMode(mode) => numbered("unsupported codec mode ", mode),
            Error::InvalidHeader => "invalid clip header".to_owned(),
            Error::InvalidState => "invalid coder state in frame".to_owned(),
            Error::TooLong => "audio too long for the container".to_owned(),
        }
    }
}

} // verus!
