//! Clips as streams: the bytes of a clip, the one coder that made them and
//! the one decoder that plays them.
use crate::adpcm::Coder;
use crate::clip;
use crate::clip::{ClipHeader, ClipParams, Codec};
use crate::lpc10::analysis::Listener;
use crate::lpc10::bits;
use crate::lpc10::half;
use crate::lpc10::half::HalfVoice;
use crate::lpc10::quant;
use crate::lpc10::synth::Voice;
use crate::lpc10::Speech;
use crate::Error;
use vstd::prelude::*;

verus! {

/// Piece `i` of the bytes behind a header, cut into pieces of `len`.
pub open spec fn piece(bytes: Seq<u8>, len: int, i: int) -> Seq<u8> {
    bytes.subrange(18 + i * len, 18 + i * len + len)
}

/// Block `i` of samples, `n` to a block, the last sample held where they run
/// out.
pub open spec fn block(pcm: Seq<i16>, n: int, i: int) -> Seq<i16> {
    Seq::new(
        n as nat,
        |k: int|
            pcm[if i * n + k < pcm.len() {
                i * n + k
            } else {
                pcm.len() - 1
            }],
    )
}

/// What a piece of a vocoder clip says.
pub open spec fn said(bytes: Seq<u8>, i: int) -> Speech {
    quant::speech_from(bits::bits(piece(bytes, 7, i)))
}

/// A little-endian number.
pub open spec fn little(bytes: Seq<u8>, at: int, n: nat) -> int
    decreases n,
{
    if n == 0 {
        0
    } else {
        bytes[at] + 256 * little(bytes, at + 1, (n - 1) as nat)
    }
}

/// What a header's bytes say, and which ones are refused: eighteen bytes,
/// "PIPIT", version 1, a codec from 1 to 3, mode 0, then sample rate, frame
/// length and sample count, low byte first. The rate is not zero, the frame
/// length is from 1 to 4096, and the vocoders' is theirs.
pub proof fn law_header_bytes(b: Seq<u8>)
    ensures
        ClipHeader::parsed(b) is Ok <==> {
            &&& b.len() >= 18
            &&& b[0] == 0x50 && b[1] == 0x49 && b[2] == 0x50 && b[3] == 0x49 && b[4] == 0x54
            &&& b[5] == 1
            &&& 1 <= b[6] <= 3
            &&& b[7] == 0
            &&& little(b, 8, 4) != 0
            &&& 1 <= little(b, 12, 2) <= 4096
            &&& b[6] == 2 ==> little(b, 12, 2) == 180
            &&& b[6] == 3 ==> little(b, 12, 2) == 360
        },
        ClipHeader::parsed(b) is Ok ==> {
            let h = ClipHeader::parsed(b)->Ok_0;
            &&& h.codec is ImaAdpcm <==> b[6] == 1
            &&& h.codec is Lpc10 <==> b[6] == 2
            &&& h.codec is Lpc10Half <==> b[6] == 3
            &&& h.mode == 0
            &&& h.sample_rate == little(b, 8, 4)
            &&& h.frame_samples == little(b, 12, 2)
            &&& h.sample_count == little(b, 14, 4)
        },
{
    reveal_with_fuel(little, 5);
    if b.len() >= 18 {
        let five = b.take(5);
        assert(five == clip::MAGIC@ <==> (b[0] == 0x50 && b[1] == 0x49 && b[2] == 0x50 && b[3]
            == 0x49 && b[4] == 0x54)) by {
            assert(five[0] == b[0] && five[1] == b[1] && five[2] == b[2] && five[3] == b[3]
                && five[4] == b[4]);
            if b[0] == 0x50 && b[1] == 0x49 && b[2] == 0x50 && b[3] == 0x49 && b[4] == 0x54 {
                assert(five =~= clip::MAGIC@);
            }
        }
    }
}

/// Which error a header is refused with: the first that applies, in this
/// order.
pub proof fn law_header_errors(b: Seq<u8>)
    ensures
        b.len() < 18 ==> ClipHeader::parsed(b) == Err::<ClipHeader, Error>(Error::Truncated),
        b.len() >= 18 && !(b[0] == 0x50 && b[1] == 0x49 && b[2] == 0x50 && b[3] == 0x49 && b[4]
            == 0x54) ==> ClipHeader::parsed(b) == Err::<ClipHeader, Error>(Error::BadMagic),
        tagged(b) && b[5] != 1 ==> ClipHeader::parsed(b) == Err::<ClipHeader, Error>(
            Error::UnsupportedVersion(b[5]),
        ),
        tagged(b) && b[5] == 1 && !(1 <= b[6] <= 3) ==> ClipHeader::parsed(b) == Err::<
            ClipHeader,
            Error,
        >(Error::UnknownCodec(b[6])),
        tagged(b) && b[5] == 1 && 1 <= b[6] <= 3 && (little(b, 8, 4) == 0 || little(b, 12, 2) == 0
            || little(b, 12, 2) > 4096) ==> ClipHeader::parsed(b) == Err::<ClipHeader, Error>(
            Error::InvalidHeader,
        ),
        tagged(b) && b[5] == 1 && 1 <= b[6] <= 3 && little(b, 8, 4) != 0 && 1 <= little(b, 12, 2)
            <= 4096 && b[7] != 0 ==> ClipHeader::parsed(b) == Err::<ClipHeader, Error>(
            Error::UnsupportedMode(b[7]),
        ),
        tagged(b) && b[5] == 1 && b[7] == 0 && (b[6] == 2 && little(b, 12, 2) != 180 || b[6] == 3
            && little(b, 12, 2) != 360) ==> ClipHeader::parsed(b) == Err::<ClipHeader, Error>(
            Error::InvalidHeader,
        ),
{
    reveal_with_fuel(little, 5);
    if b.len() >= 18 {
        lemma_magic(b);
    }
}

/// Whether bytes are long enough for a header and start with the tag.
pub open spec fn tagged(b: Seq<u8>) -> bool {
    &&& b.len() >= 18
    &&& b[0] == 0x50 && b[1] == 0x49 && b[2] == 0x50 && b[3] == 0x49 && b[4] == 0x54
}

proof fn lemma_magic(b: Seq<u8>)
    requires
        b.len() >= 18,
    ensures
        b.take(5) == clip::MAGIC@ <==> tagged(b),
{
    let five = b.take(5);
    assert(five[0] == b[0] && five[1] == b[1] && five[2] == b[2] && five[3] == b[3] && five[4]
        == b[4]);
    if tagged(b) {
        assert(five =~= clip::MAGIC@);
    }
}

/// Which samples and parameters can be encoded: any but zero rates, frame
/// lengths beyond 1 to 4096, and frame lengths that are not the vocoder's.
pub proof fn law_parameters_that_encode(pcm: Seq<i16>, params: ClipParams)
    ensures
        clip::shape(pcm, params).defect() is None <==> params.sample_rate != 0 && 1
            <= params.frame_samples <= 4096 && (params.codec is Lpc10 ==> params.frame_samples
            == 180) && (params.codec is Lpc10Half ==> params.frame_samples == 360),
        clip::shape(pcm, params).defect() is Some ==> clip::shape(pcm, params).defect()
            == Some(Error::InvalidHeader),
{
}

/// The bytes of a clip that holds samples: the header says how they were
/// coded and how many they are, and as many frames as it takes follow.
pub proof fn law_clip_bytes(bytes: Seq<u8>, pcm: Seq<i16>, params: ClipParams)
    requires
        pcm.len() <= u32::MAX,
        clip::shape(pcm, params).defect() is None,
        clip::is_clip(bytes, pcm, params),
    ensures
        bytes.len() >= 18,
        bytes[0] == 0x50 && bytes[1] == 0x49 && bytes[2] == 0x50 && bytes[3] == 0x49 && bytes[4]
            == 0x54,
        bytes[5] == 1,
        bytes[6] == (match params.codec {
            Codec::ImaAdpcm => 1u8,
            Codec::Lpc10 => 2u8,
            Codec::Lpc10Half => 3u8,
        }),
        bytes[7] == 0,
        little(bytes, 8, 4) == params.sample_rate,
        little(bytes, 12, 2) == params.frame_samples,
        little(bytes, 14, 4) == pcm.len(),
        ({
            let n = params.frame_samples as int;
            let frames = (pcm.len() + n - 1) / n;
            bytes.len() == 18 + frames * (match params.codec {
                Codec::ImaAdpcm => 3 + (n + 1) / 2,
                Codec::Lpc10 => 7,
                Codec::Lpc10Half => 9,
            })
        }),
{
    let header = clip::shape(pcm, params);
    clip::laws::lemma_clip_len(header);
    assert(bytes =~= header.bytes() + bytes.skip(18));
    clip::law_header_round_trip(header, bytes.skip(18));
    law_header_bytes(bytes);
}

/// Where the pieces of a clip lie.
proof fn lemma_piece(header: ClipHeader, bytes: Seq<u8>, i: int)
    ensures
        header.frame_of(bytes, i) == piece(bytes, header.frame_len(), i),
{
}

/// A vocoder clip plays as one voice, without a break: with one decoder driven
/// over its frames, whatever they say, each frame's samples are what the
/// decoder gives for it in the state that all frames before it left.
pub proof fn law_vocoder_clip_is_one_voice(bytes: Seq<u8>, voices: Seq<Voice>, k: int)
    requires
        clip::decoded(bytes) is Ok,
        clip::decoded(bytes)->Ok_0.0.codec is Lpc10,
        0 <= k < clip::decoded(bytes)->Ok_0.1.len(),
        voices.len() > k / 180,
        voices[0] == Voice::start(),
        forall|i: int|
            0 <= i < k / 180 ==> #[trigger] voices[i + 1] == voices[i].after(said(bytes, i)),
    ensures
        clip::decoded(bytes)->Ok_0.1.len() == little(bytes, 14, 4),
        clip::decoded(bytes)->Ok_0.1[k] == voices[k / 180].samples(said(bytes, k / 180))[k % 180],
{
    let header = clip::decoded(bytes)->Ok_0.0;
    law_header_bytes(bytes);
    lemma_voices(header, bytes, voices, (k / 180) as nat);
    lemma_piece(header, bytes, k / 180);
}

proof fn lemma_voices(header: ClipHeader, bytes: Seq<u8>, voices: Seq<Voice>, i: nat)
    requires
        header.codec is Lpc10,
        voices.len() > i,
        voices[0] == Voice::start(),
        forall|j: int| 0 <= j < i ==> #[trigger] voices[j + 1] == voices[j].after(said(bytes, j)),
    ensures
        header.voice_before(bytes, i) == voices[i as int],
    decreases i,
{
    if i > 0 {
        let j = (i - 1) as nat;
        lemma_voices(header, bytes, voices, j);
        lemma_piece(header, bytes, j as int);
        assert(voices[j as int + 1] == voices[j as int].after(said(bytes, j as int)));
    }
}

/// A half-rate clip plays as one voice too.
pub proof fn law_half_rate_clip_is_one_voice(bytes: Seq<u8>, voices: Seq<HalfVoice>, k: int)
    requires
        clip::decoded(bytes) is Ok,
        clip::decoded(bytes)->Ok_0.0.codec is Lpc10Half,
        0 <= k < clip::decoded(bytes)->Ok_0.1.len(),
        voices.len() > k / 360,
        voices[0] == HalfVoice::start(),
        forall|i: int|
            0 <= i < k / 360 ==> #[trigger] voices[i + 1] == voices[i].after(
                bits::bits(piece(bytes, 9, i)),
            ),
    ensures
        clip::decoded(bytes)->Ok_0.1.len() == little(bytes, 14, 4),
        clip::decoded(bytes)->Ok_0.1[k] == voices[k / 360].samples(
            bits::bits(piece(bytes, 9, k / 360)),
        )[k % 360],
{
    let header = clip::decoded(bytes)->Ok_0.0;
    law_header_bytes(bytes);
    lemma_half_voices(header, bytes, voices, (k / 360) as nat);
    lemma_piece(header, bytes, k / 360);
}

proof fn lemma_half_voices(header: ClipHeader, bytes: Seq<u8>, voices: Seq<HalfVoice>, i: nat)
    requires
        header.codec is Lpc10Half,
        voices.len() > i,
        voices[0] == HalfVoice::start(),
        forall|j: int|
            0 <= j < i ==> #[trigger] voices[j + 1] == voices[j].after(
                bits::bits(piece(bytes, 9, j)),
            ),
    ensures
        header.half_voice_before(bytes, i) == voices[i as int],
    decreases i,
{
    if i > 0 {
        let j = (i - 1) as nat;
        lemma_half_voices(header, bytes, voices, j);
        lemma_piece(header, bytes, j as int);
        assert(voices[j as int + 1] == voices[j as int].after(
            bits::bits(piece(bytes, 9, j as int)),
        ));
    }
}

/// An ADPCM clip plays frame by frame: each frame's samples are what it
/// decodes to alone.
pub proof fn law_adpcm_clip_plays_its_frames(bytes: Seq<u8>, k: int)
    requires
        clip::decoded(bytes) is Ok,
        clip::decoded(bytes)->Ok_0.0.codec is ImaAdpcm,
        0 <= k < clip::decoded(bytes)->Ok_0.1.len(),
    ensures
        ({
            let n = little(bytes, 12, 2);
            let frame = piece(bytes, 3 + (n + 1) / 2, k / n);
            &&& clip::decoded(bytes)->Ok_0.1.len() == little(bytes, 14, 4)
            &&& Coder::decoded(frame, n as nat) is Ok
            &&& clip::decoded(bytes)->Ok_0.1[k] == Coder::decoded(frame, n as nat)->Ok_0[k % n]
        }),
{
    let header = clip::decoded(bytes)->Ok_0.0;
    law_header_bytes(bytes);
    clip::law_header_is_canonical(bytes, header);
    header.lemma_frame_of_sample(k);
    let i = k / (header.frame_samples as int);
    header.lemma_frames(i);
    lemma_piece(header, bytes, i);
    assert(header.sound(bytes, i));
}

/// How many frames the header of a clip declares.
pub open spec fn declared(bytes: Seq<u8>) -> int {
    (little(bytes, 14, 4) + little(bytes, 12, 2) - 1) / little(bytes, 12, 2)
}

/// How long each of them is.
pub open spec fn frame_bytes(bytes: Seq<u8>) -> int {
    if bytes[6] == 1 {
        3 + (little(bytes, 12, 2) + 1) / 2
    } else if bytes[6] == 2 {
        7
    } else {
        9
    }
}

/// When a clip is refused: for its header, for ending early, or for an ADPCM
/// frame with a step index beyond the table; and else it decodes.
pub proof fn law_clip_refusals(bytes: Seq<u8>)
    ensures
        ClipHeader::parsed(bytes) is Err ==> clip::decoded(bytes) == Err::<
            (ClipHeader, Seq<i16>),
            Error,
        >(ClipHeader::parsed(bytes)->Err_0),
        ClipHeader::parsed(bytes) is Ok ==> {
            let frames = declared(bytes);
            let len = frame_bytes(bytes);
            &&& bytes.len() < 18 + frames * len ==> clip::decoded(bytes) == Err::<
                (ClipHeader, Seq<i16>),
                Error,
            >(Error::Truncated)
            &&& bytes.len() >= 18 + frames * len && bytes[6] != 1 ==> clip::decoded(bytes) is Ok
            &&& bytes.len() >= 18 + frames * len && bytes[6] == 1 && (forall|i: int|
                0 <= i < frames ==> (#[trigger] piece(bytes, len, i))[2] <= 88) ==> clip::decoded(
                bytes,
            ) is Ok
            &&& bytes.len() >= 18 + frames * len && bytes[6] == 1 && (exists|i: int|
                0 <= i < frames && (#[trigger] piece(bytes, len, i))[2] > 88) ==> clip::decoded(
                bytes,
            ) == Err::<(ClipHeader, Seq<i16>), Error>(Error::InvalidState)
        },
{
    law_header_bytes(bytes);
    if ClipHeader::parsed(bytes) is Ok {
        let h = ClipHeader::parsed(bytes)->Ok_0;
        let len = frame_bytes(bytes);
        assert(len == h.frame_len() && declared(bytes) == h.frames());
        assert forall|i: int| #[trigger] h.sound(bytes, i) == (h.codec is ImaAdpcm ==> piece(
            bytes,
            len,
            i,
        )[2] <= 88) by {
            lemma_piece(h, bytes, i);
        }
        if bytes[6] == 1 && exists|i: int|
            0 <= i < declared(bytes) && (#[trigger] piece(bytes, frame_bytes(bytes), i))[2] > 88 {
            let i = choose|i: int|
                0 <= i < declared(bytes) && (#[trigger] piece(bytes, frame_bytes(bytes), i))[2]
                    > 88;
            assert(!h.sound(bytes, i));
        }
    }
}

/// A vocoder clip is made by one encoder, driven without a break over the
/// samples in blocks of 180: frame `i` is what it sends of block `i` in the
/// state that all blocks before it left.
pub proof fn law_vocoder_clip_is_one_listener(
    bytes: Seq<u8>,
    pcm: Seq<i16>,
    params: ClipParams,
    listeners: Seq<Listener>,
    i: int,
)
    requires
        pcm.len() <= u32::MAX,
        clip::shape(pcm, params).defect() is None,
        clip::is_clip(bytes, pcm, params),
        params.codec is Lpc10,
        0 <= i,
        i * 180 < pcm.len(),
        listeners.len() > i,
        listeners[0] == Listener::start(),
        forall|j: int|
            0 <= j < i ==> #[trigger] listeners[j + 1] == listeners[j].after(block(pcm, 180, j)),
    ensures
        piece(bytes, 7, i).len() == 7,
        bits::bits(piece(bytes, 7, i)) == quant::frame_bits(
            listeners[i].analyzed(block(pcm, 180, i)),
        ),
{
    let header = clip::shape(pcm, params);
    lemma_listeners(pcm, listeners, i as nat);
    lemma_block(pcm, 180, i);
    lemma_piece(header, bytes, i);
    assert(header.frames() > i);
    assert(clip::is_frame(params.codec, pcm, 180, i as nat, header.frame_of(bytes, i)));
}

proof fn lemma_block(pcm: Seq<i16>, n: int, i: int)
    requires
        pcm.len() > 0,
    ensures
        block(pcm, n, i) == clip::chunk(pcm, n, i),
{
    assert(block(pcm, n, i) =~= clip::chunk(pcm, n, i));
}

proof fn lemma_listeners(pcm: Seq<i16>, listeners: Seq<Listener>, i: nat)
    requires
        pcm.len() > 0,
        listeners.len() > i,
        listeners[0] == Listener::start(),
        forall|j: int|
            0 <= j < i ==> #[trigger] listeners[j + 1] == listeners[j].after(block(pcm, 180, j)),
    ensures
        clip::listener_before(pcm, 180, i) == listeners[i as int],
    decreases i,
{
    if i > 0 {
        let j = (i - 1) as nat;
        lemma_listeners(pcm, listeners, j);
        lemma_block(pcm, 180, j as int);
        assert(listeners[j as int + 1] == listeners[j as int].after(block(pcm, 180, j as int)));
    }
}

/// A half-rate clip is made by one encoder too, driven over blocks of 180:
/// superframe `i` holds blocks `2 i` and `2 i + 1`.
pub proof fn law_half_rate_clip_is_one_listener(
    bytes: Seq<u8>,
    pcm: Seq<i16>,
    params: ClipParams,
    listeners: Seq<Listener>,
    i: int,
)
    requires
        pcm.len() <= u32::MAX,
        clip::shape(pcm, params).defect() is None,
        clip::is_clip(bytes, pcm, params),
        params.codec is Lpc10Half,
        0 <= i,
        i * 360 < pcm.len(),
        listeners.len() > 2 * i + 1,
        listeners[0] == Listener::start(),
        forall|j: int|
            0 <= j < 2 * i + 1 ==> #[trigger] listeners[j + 1] == listeners[j].after(
                block(pcm, 180, j),
            ),
    ensures
        piece(bytes, 9, i).len() == 9,
        bits::bits(piece(bytes, 9, i)) == half::superframe_bits(
            listeners[2 * i].analyzed(block(pcm, 180, 2 * i)),
            listeners[2 * i + 1].analyzed(block(pcm, 180, 2 * i + 1)),
        ),
{
    let header = clip::shape(pcm, params);
    lemma_half_listeners(pcm, listeners, i as nat);
    lemma_halves(pcm, i);
    lemma_piece(header, bytes, i);
    assert(header.frames() > i);
    assert(clip::is_frame(params.codec, pcm, 360, i as nat, header.frame_of(bytes, i)));
    assert(listeners[2 * i + 1] == listeners[2 * i].after(block(pcm, 180, 2 * i)));
}

proof fn lemma_halves(pcm: Seq<i16>, i: int)
    requires
        pcm.len() > 0,
    ensures
        clip::halves(pcm, 360, i) == (block(pcm, 180, 2 * i), block(pcm, 180, 2 * i + 1)),
{
    let (a, b) = clip::halves(pcm, 360, i);
    assert(a =~= block(pcm, 180, 2 * i));
    assert(b =~= block(pcm, 180, 2 * i + 1));
}

proof fn lemma_half_listeners(pcm: Seq<i16>, listeners: Seq<Listener>, i: nat)
    requires
        pcm.len() > 0,
        listeners.len() > 2 * i,
        listeners[0] == Listener::start(),
        forall|j: int|
            0 <= j < 2 * i ==> #[trigger] listeners[j + 1] == listeners[j].after(
                block(pcm, 180, j),
            ),
    ensures
        clip::half_listener_before(pcm, 360, i) == listeners[2 * i as int],
    decreases i,
{
    if i > 0 {
        let j = i as int - 1;
        lemma_half_listeners(pcm, listeners, j as nat);
        lemma_halves(pcm, j);
        assert(listeners[2 * j + 1] == listeners[2 * j].after(block(pcm, 180, 2 * j)));
        assert(listeners[(2 * j + 1) + 1] == listeners[2 * j + 1].after(
            block(pcm, 180, 2 * j + 1),
        ));
    }
}

/// An ADPCM clip is made by one coder, driven without a break over the
/// samples in blocks of the frame length.
pub proof fn law_adpcm_clip_is_one_coder(
    bytes: Seq<u8>,
    pcm: Seq<i16>,
    params: ClipParams,
    coders: Seq<Coder>,
    i: int,
)
    requires
        pcm.len() <= u32::MAX,
        clip::shape(pcm, params).defect() is None,
        clip::is_clip(bytes, pcm, params),
        params.codec is ImaAdpcm,
        0 <= i,
        i * params.frame_samples < pcm.len(),
        coders.len() > i,
        coders[0] == Coder::start(),
        forall|j: int|
            0 <= j < i ==> #[trigger] coders[j + 1] == coders[j].after(
                block(pcm, params.frame_samples as int, j),
            ),
    ensures
        ({
            let n = params.frame_samples as int;
            piece(bytes, 3 + (n + 1) / 2, i) == coders[i].frame(block(pcm, n, i))
        }),
{
    let header = clip::shape(pcm, params);
    let n = params.frame_samples as int;
    assert(pcm.len() > 0) by (nonlinear_arith)
        requires
            0 <= i,
            n >= 1,
            i * n < pcm.len(),
    ;
    lemma_coders(pcm, coders, n, i as nat);
    lemma_block(pcm, n, i);
    lemma_piece(header, bytes, i);
    let count = pcm.len() as int;
    assert((count + n - 1) / n > i) by (nonlinear_arith)
        requires
            0 <= i,
            n >= 1,
            i * n < count,
    ;
    assert(clip::is_frame(params.codec, pcm, n, i as nat, header.frame_of(bytes, i)));
}

proof fn lemma_coders(pcm: Seq<i16>, coders: Seq<Coder>, n: int, i: nat)
    requires
        pcm.len() > 0,
        coders.len() > i,
        coders[0] == Coder::start(),
        forall|j: int|
            0 <= j < i ==> #[trigger] coders[j + 1] == coders[j].after(block(pcm, n, j)),
    ensures
        clip::coder_before(pcm, n, i) == coders[i as int],
    decreases i,
{
    if i > 0 {
        let j = (i - 1) as nat;
        lemma_coders(pcm, coders, n, j);
        lemma_block(pcm, n, j as int);
        assert(coders[j as int + 1] == coders[j as int].after(block(pcm, n, j as int)));
    }
}

} // verus!
