//! What holds of clips as a whole, from the samples that go in to the
//! samples that come out.
use crate::adpcm;
use crate::adpcm::Coder;
use crate::clip;
use crate::clip::{ClipHeader, ClipParams, Codec, HEADER_LEN};
use crate::lpc10;
use crate::lpc10::bits;
use crate::lpc10::half;
use crate::lpc10::quant;
use crate::lpc10::silence;
use crate::lpc10::soundness;
use crate::lpc10::synth;
use crate::Error;
use vstd::prelude::*;

verus! {

impl ClipHeader {
    /// A frame depends on the bytes of the clip alone.
    proof fn lemma_frame_front(self, a: Seq<u8>, b: Seq<u8>, i: int)
        requires
            self.defect() is None,
            0 <= i < self.frames(),
            self.clip_len() <= a.len(),
            self.clip_len() <= b.len(),
            a.take(self.clip_len()) == b.take(self.clip_len()),
        ensures
            self.frame_of(a, i) == self.frame_of(b, i),
            self.frame_of(a, i).len() == self.frame_len(),
    {
        self.lemma_frames(i);
        let from = self.frame_start(i);
        let to = from + self.frame_len();
        let n = self.clip_len();
        assert(a.subrange(from, to) =~= a.take(n).subrange(from, to));
        assert(b.subrange(from, to) =~= b.take(n).subrange(from, to));
    }

    /// The state a frame is decoded from depends on the frames before it.
    proof fn lemma_voice_front(self, a: Seq<u8>, b: Seq<u8>, i: nat)
        requires
            self.defect() is None,
            i <= self.frames(),
            self.clip_len() <= a.len(),
            self.clip_len() <= b.len(),
            a.take(self.clip_len()) == b.take(self.clip_len()),
        ensures
            self.voice_before(a, i) == self.voice_before(b, i),
            self.half_voice_before(a, i) == self.half_voice_before(b, i),
        decreases i,
    {
        if i > 0 {
            self.lemma_voice_front(a, b, (i - 1) as nat);
            self.lemma_frame_front(a, b, i - 1);
        }
    }

    /// Which frame holds sample `k`.
    pub proof fn lemma_frame_of_sample(self, k: int)
        requires
            self.defect() is None,
            0 <= k < self.sample_count,
        ensures
            0 <= k / (self.frame_samples as int) < self.frames(),
            0 <= k % (self.frame_samples as int) < self.frame_samples,
            k == k / (self.frame_samples as int) * self.frame_samples + k % (
            self.frame_samples as int),
    {
        let n = self.frame_samples as int;
        let count = self.sample_count as int;
        let q = k / n;
        let frames = self.frames();
        vstd::arithmetic::div_mod::lemma_fundamental_div_mod(k, n);
        vstd::arithmetic::div_mod::lemma_mod_bound(k, n);
        assert(0 <= q < frames && n * q == q * n) by (nonlinear_arith)
            requires
                k == n * q + k % n,
                0 <= k % n < n,
                0 <= k < count,
                frames == (count + n - 1) / n,
        ;
    }

    /// Samples depend on the bytes of the clip alone.
    proof fn lemma_samples_front(self, a: Seq<u8>, b: Seq<u8>)
        requires
            self.defect() is None,
            self.clip_len() <= a.len(),
            self.clip_len() <= b.len(),
            a.take(self.clip_len()) == b.take(self.clip_len()),
        ensures
            self.samples(a) == self.samples(b),
            forall|i: int|
                0 <= i < self.frames() ==> #[trigger] self.sound(a, i) == self.sound(b, i),
    {
        assert forall|i: int| 0 <= i < self.frames() implies #[trigger] self.sound(a, i)
            == self.sound(b, i) by {
            self.lemma_frame_front(a, b, i);
        }
        assert forall|k: int| 0 <= k < self.sample_count implies self.samples(a)[k]
            == self.samples(b)[k] by {
            self.lemma_frame_of_sample(k);
            let i = k / (self.frame_samples as int);
            self.lemma_frame_front(a, b, i);
            self.lemma_voice_front(a, b, i as nat);
        }
        assert(self.samples(a) =~= self.samples(b));
    }
}

/// Two byte strings that begin with the same header are read as the same.
proof fn lemma_parsed_front(a: Seq<u8>, b: Seq<u8>)
    requires
        a.len() >= HEADER_LEN,
        b.len() >= HEADER_LEN,
        a.take(HEADER_LEN as int) == b.take(HEADER_LEN as int),
    ensures
        ClipHeader::parsed(a) == ClipHeader::parsed(b),
{
    let ta = a.take(HEADER_LEN as int);
    let tb = b.take(HEADER_LEN as int);
    assert forall|i: int| 0 <= i < HEADER_LEN implies a[i] == b[i] by {
        assert(ta[i] == a[i] && tb[i] == b[i]);
    }
    assert(a.take(5) =~= b.take(5));
}

pub proof fn lemma_clip_len(header: ClipHeader)
    requires
        header.defect() is None,
    ensures
        header.clip_len() >= HEADER_LEN,
{
    let frames = header.frames();
    let len = header.frame_len();
    vstd::arithmetic::div_mod::lemma_div_pos_is_pos(
        header.sample_count + header.frame_samples - 1,
        header.frame_samples as int,
    );
    assert(frames * len >= 0) by (nonlinear_arith)
        requires
            frames >= 0,
            len >= 0,
    ;
}

/// What follows a clip changes nothing: a byte string that decodes goes on
/// decoding to the same audio however it is extended.
pub proof fn law_trailing_bytes_are_ignored(bytes: Seq<u8>, rest: Seq<u8>)
    requires
        clip::decoded(bytes) is Ok,
    ensures
        clip::decoded(bytes + rest) == clip::decoded(bytes),
{
    let header = clip::decoded(bytes)->Ok_0.0;
    let all = bytes + rest;
    clip::law_header_is_canonical(bytes, header);
    lemma_clip_len(header);
    assert(all.take(HEADER_LEN as int) =~= bytes.take(HEADER_LEN as int));
    lemma_parsed_front(all, bytes);
    assert(all.take(header.clip_len()) =~= bytes.take(header.clip_len()));
    header.lemma_samples_front(all, bytes);
}

/// A clip cut short is refused: no strict prefix of the bytes that a clip
/// needs decodes, and the error says that the input ended early.
pub proof fn law_cut_clips_are_refused(bytes: Seq<u8>, m: int)
    requires
        clip::decoded(bytes) is Ok,
        0 <= m < clip::decoded(bytes)->Ok_0.0.clip_len(),
    ensures
        clip::decoded(bytes.take(m)) == Err::<(ClipHeader, Seq<i16>), Error>(Error::Truncated),
{
    if m >= HEADER_LEN {
        assert(bytes.take(m).take(HEADER_LEN as int) =~= bytes.take(HEADER_LEN as int));
        lemma_parsed_front(bytes.take(m), bytes);
    }
}

/// Coding is deterministic: the same samples and parameters give the same
/// clip, to the last bit.
pub proof fn law_clip_is_determined(a: Seq<u8>, b: Seq<u8>, pcm: Seq<i16>, params: ClipParams)
    requires
        pcm.len() <= u32::MAX,
        clip::shape(pcm, params).defect() is None,
        clip::is_clip(a, pcm, params),
        clip::is_clip(b, pcm, params),
    ensures
        a == b,
{
    let header = clip::shape(pcm, params);
    let n = params.frame_samples as int;
    let len = header.frame_len();
    lemma_clip_len(header);
    assert forall|p: int| 0 <= p < a.len() implies a[p] == b[p] by {
        if p < HEADER_LEN {
            assert(a.take(HEADER_LEN as int)[p] == b.take(HEADER_LEN as int)[p]);
        } else {
            let q = p - HEADER_LEN;
            let i = q / len;
            let k = q % len;
            let frames = header.frames();
            vstd::arithmetic::div_mod::lemma_fundamental_div_mod(q, len);
            vstd::arithmetic::div_mod::lemma_mod_bound(q, len);
            assert(0 <= i < frames && i * len + k == q) by (nonlinear_arith)
                requires
                    q == len * i + k,
                    0 <= k < len,
                    0 <= q < frames * len,
            ;
            header.lemma_frames(i);
            let fa = header.frame_of(a, i);
            let fb = header.frame_of(b, i);
            assert(clip::is_frame(params.codec, pcm, n, i as nat, fa));
            assert(clip::is_frame(params.codec, pcm, n, i as nat, fb));
            if params.codec !is ImaAdpcm {
                bits::law_bits_determine_bytes(fa, fb);
            }
            assert(fa[k] == a[p] && fb[k] == b[p]);
        }
    }
    assert(a =~= b);
}

/// The ADPCM coder runs on through frames as if there were none.
proof fn lemma_coder_before(pcm: Seq<i16>, n: int, i: nat)
    requires
        0 < n,
        i * n <= pcm.len(),
    ensures
        clip::coder_before(pcm, n, i) == Coder::start().after(pcm.take(i * n)),
        clip::coder_before(pcm, n, i).valid(),
    decreases i,
{
    if i == 0 {
        assert(0 * n == 0) by (nonlinear_arith);
        assert(pcm.take(0) =~= Seq::<i16>::empty());
    } else {
        let from = (i - 1) * n;
        assert(i * n == from + n && 0 <= from) by (nonlinear_arith)
            requires
                from == (i - 1) * n,
                i >= 1,
                n > 0,
        ;
        lemma_coder_before(pcm, n, (i - 1) as nat);
        assert(pcm.take(i * n) =~= pcm.take(from) + clip::chunk(pcm, n, i - 1));
        adpcm::lemma_after_joins(Coder::start(), pcm.take(from), clip::chunk(pcm, n, i - 1));
        adpcm::lemma_after_valid(clip::coder_before(pcm, n, (i - 1) as nat), clip::chunk(pcm, n, i - 1));
    }
}

/// A clip decodes to audio of the length that was encoded, and its header
/// says how it was encoded. That holds for every codec and however the clip
/// is embedded in what follows it.
pub proof fn law_clip_round_trip(
    bytes: Seq<u8>,
    rest: Seq<u8>,
    pcm: Seq<i16>,
    params: ClipParams,
)
    requires
        pcm.len() <= u32::MAX,
        clip::shape(pcm, params).defect() is None,
        clip::is_clip(bytes, pcm, params),
    ensures
        clip::decoded(bytes + rest) is Ok,
        clip::decoded(bytes + rest)->Ok_0.0 == clip::shape(pcm, params),
        clip::decoded(bytes + rest)->Ok_0.1.len() == pcm.len(),
        clip::decoded(bytes + rest) == clip::decoded(bytes),
{
    let header = clip::shape(pcm, params);
    let n = params.frame_samples as int;
    lemma_clip_len(header);
    assert(bytes =~= header.bytes() + bytes.skip(HEADER_LEN as int));
    clip::law_header_round_trip(header, bytes.skip(HEADER_LEN as int));
    assert forall|i: int| 0 <= i < header.frames() implies #[trigger] header.sound(bytes, i) by {
        header.lemma_frames(i);
        assert(clip::is_frame(params.codec, pcm, n, i as nat, header.frame_of(bytes, i)));
        if params.codec is ImaAdpcm {
            lemma_coder_before(pcm, n, i as nat);
        }
    }
    law_trailing_bytes_are_ignored(bytes, rest);
}

/// An ADPCM clip decodes to what the coder predicted after each sample, run
/// without a break from the first to the last: neither the framing nor the
/// padding of the final frame leaves a trace.
pub proof fn law_adpcm_clip_is_continuous(bytes: Seq<u8>, pcm: Seq<i16>, params: ClipParams)
    requires
        pcm.len() <= u32::MAX,
        clip::shape(pcm, params).defect() is None,
        params.codec is ImaAdpcm,
        clip::is_clip(bytes, pcm, params),
    ensures
        clip::decoded(bytes) is Ok,
        clip::decoded(bytes)->Ok_0.1 == Seq::new(
            pcm.len(),
            |k: int| Coder::start().after(pcm.take(k + 1)).predictor as i16,
        ),
{
    let header = clip::shape(pcm, params);
    let n = params.frame_samples as int;
    law_clip_round_trip(bytes, Seq::empty(), pcm, params);
    let samples = header.samples(bytes);
    let expected = Seq::new(
        pcm.len(),
        |k: int| Coder::start().after(pcm.take(k + 1)).predictor as i16,
    );
    assert forall|k: int| 0 <= k < pcm.len() implies samples[k] == expected[k] by {
        header.lemma_frame_of_sample(k);
        let i = k / n;
        let j = k % n;
        header.lemma_frames(i);
        let c = clip::coder_before(pcm, n, i as nat);
        let part = clip::chunk(pcm, n, i);
        lemma_coder_before(pcm, n, i as nat);
        let frame = header.frame_of(bytes, i);
        assert(clip::is_frame(params.codec, pcm, n, i as nat, frame));
        assert(c.frame(part) + Seq::<u8>::empty() =~= frame);
        adpcm::law_frame_decodes_alone(c, part, Seq::empty(), n as nat);
        let audio = Seq::new(n as nat, |m: int| c.after(part.take(m + 1)).predictor as i16);
        assert(header.audio(bytes, i as nat) == audio);
        assert(pcm.take(k + 1) =~= pcm.take(i * n) + part.take(j + 1));
        adpcm::lemma_after_joins(Coder::start(), pcm.take(i * n), part.take(j + 1));
    }
    assert(samples =~= expected);
}

/// A vocoder clip carries the analysis: each of its frames says what the
/// analyser found in its samples, every value as its code rounds it.
pub proof fn law_vocoder_clip_carries_the_analysis(
    bytes: Seq<u8>,
    pcm: Seq<i16>,
    params: ClipParams,
    i: nat,
)
    requires
        pcm.len() <= u32::MAX,
        clip::shape(pcm, params).defect() is None,
        params.codec is Lpc10,
        clip::is_clip(bytes, pcm, params),
        i < clip::shape(pcm, params).frames(),
    ensures
        ({
            let header = clip::shape(pcm, params);
            let n = params.frame_samples as int;
            quant::speech_from(bits::bits(header.frame_of(bytes, i as int))) == quant::sent(
                clip::listener_before(pcm, n, i).analyzed(clip::chunk(pcm, n, i as int)),
            )
        }),
{
    let header = clip::shape(pcm, params);
    let n = params.frame_samples as int;
    let frame = header.frame_of(bytes, i as int);
    let speech = clip::listener_before(pcm, n, i).analyzed(clip::chunk(pcm, n, i as int));
    assert(clip::is_frame(params.codec, pcm, n, i, frame));
    assert(bits::bits(frame) =~= quant::frame_bits(speech) + Seq::<bool>::empty());
    quant::law_frame_carries_every_field(speech, Seq::empty());
}

/// A half-rate clip carries the analysis of both halves of every superframe,
/// with the second half's spectrum.
pub proof fn law_half_rate_clip_carries_the_analysis(
    bytes: Seq<u8>,
    pcm: Seq<i16>,
    params: ClipParams,
    i: nat,
)
    requires
        pcm.len() <= u32::MAX,
        clip::shape(pcm, params).defect() is None,
        params.codec is Lpc10Half,
        clip::is_clip(bytes, pcm, params),
        i < clip::shape(pcm, params).frames(),
    ensures
        ({
            let header = clip::shape(pcm, params);
            let n = params.frame_samples as int;
            let data = bits::bits(header.frame_of(bytes, i as int));
            let (a, b) = clip::halves(pcm, n, i as int);
            let listener = clip::half_listener_before(pcm, n, i);
            let first = listener.analyzed(a);
            let second = listener.after(a).analyzed(b);
            &&& half::speech_from(data, 0) == (lpc10::Speech {
                rc: quant::sent_tract(second.rc),
                ..quant::sent(first)
            })
            &&& half::speech_from(data, 1) == quant::sent(second)
        }),
{
    let header = clip::shape(pcm, params);
    let n = params.frame_samples as int;
    let frame = header.frame_of(bytes, i as int);
    let (a, b) = clip::halves(pcm, n, i as int);
    let listener = clip::half_listener_before(pcm, n, i);
    let first = listener.analyzed(a);
    let second = listener.after(a).analyzed(b);
    assert(clip::is_frame(params.codec, pcm, n, i, frame));
    assert(bits::bits(frame) =~= half::superframe_bits(first, second) + Seq::<bool>::empty());
    half::law_superframe_carries_every_field(first, second, Seq::empty());
}

proof fn lemma_silent_chunk(pcm: Seq<i16>, n: int, i: int)
    requires
        silence::silent(pcm),
        pcm.len() > 0,
        0 <= i,
        0 < n,
    ensures
        silence::silent(clip::chunk(pcm, n, i)),
{
    assert(i * n >= 0) by (nonlinear_arith)
        requires
            i >= 0,
            n > 0,
    ;
    assert(pcm.last() == 0);
}

/// Through a silent vocoder clip the analyser hears zeros and the voice
/// stays quiet.
proof fn lemma_silent_vocoder(bytes: Seq<u8>, pcm: Seq<i16>, params: ClipParams, i: nat)
    requires
        pcm.len() <= u32::MAX,
        clip::shape(pcm, params).defect() is None,
        params.codec is Lpc10,
        clip::is_clip(bytes, pcm, params),
        silence::silent(pcm),
        i <= clip::shape(pcm, params).frames(),
    ensures
        ({
            let n = params.frame_samples as int;
            let header = clip::shape(pcm, params);
            let listener = clip::listener_before(pcm, n, i);
            let frame = header.frame_of(bytes, i as int);
            &&& listener.history.len() == lpc10::HISTORY
            &&& silence::null(listener.previous)
            &&& header.voice_before(bytes, i).quiet()
            &&& i < header.frames() ==> silence::null(quant::speech_from(bits::bits(frame)).gain)
        }),
    decreases i,
{
    let header = clip::shape(pcm, params);
    let n = params.frame_samples as int;
    if i == 0 {
        silence::law_streams_start_silent();
    } else {
        let j = (i - 1) as nat;
        lemma_silent_vocoder(bytes, pcm, params, j);
        header.lemma_frames(j as int);
        lemma_nonempty(pcm, n, j as int);
        lemma_silent_chunk(pcm, n, j as int);
        silence::law_zeros_are_silence(clip::listener_before(pcm, n, j), clip::chunk(pcm, n, j as int));
        silence::law_silence_stays_silent(
            header.voice_before(bytes, j),
            quant::speech_from(bits::bits(header.frame_of(bytes, j as int))),
        );
    }
    if i < header.frames() {
        header.lemma_frames(i as int);
        lemma_nonempty(pcm, n, i as int);
        lemma_silent_chunk(pcm, n, i as int);
        silence::law_zeros_are_silence(clip::listener_before(pcm, n, i), clip::chunk(pcm, n, i as int));
        law_vocoder_clip_carries_the_analysis(bytes, pcm, params, i);
        silence::lemma_no_level_is_sent(
            clip::listener_before(pcm, n, i).analyzed(clip::chunk(pcm, n, i as int)),
        );
    }
}

proof fn lemma_nonempty(pcm: Seq<i16>, n: int, i: int)
    requires
        0 <= i,
        0 < n,
        i * n < pcm.len(),
    ensures
        pcm.len() > 0,
{
    assert(i * n >= 0) by (nonlinear_arith)
        requires
            i >= 0,
            n > 0,
    ;
}

/// The same of a silent half-rate clip.
proof fn lemma_silent_half_rate(bytes: Seq<u8>, pcm: Seq<i16>, params: ClipParams, i: nat)
    requires
        pcm.len() <= u32::MAX,
        clip::shape(pcm, params).defect() is None,
        params.codec is Lpc10Half,
        clip::is_clip(bytes, pcm, params),
        silence::silent(pcm),
        i <= clip::shape(pcm, params).frames(),
    ensures
        ({
            let n = params.frame_samples as int;
            let header = clip::shape(pcm, params);
            let listener = clip::half_listener_before(pcm, n, i);
            let data = bits::bits(header.frame_of(bytes, i as int));
            &&& listener.history.len() == lpc10::HISTORY
            &&& silence::null(listener.previous)
            &&& header.half_voice_before(bytes, i).quiet()
            &&& i < header.frames() ==> silence::null(half::speech_from(data, 0).gain)
                && silence::null(half::speech_from(data, 1).gain)
        }),
    decreases i,
{
    let header = clip::shape(pcm, params);
    let n = params.frame_samples as int;
    if i == 0 {
        silence::law_streams_start_silent();
    } else {
        let j = (i - 1) as nat;
        lemma_silent_half_rate(bytes, pcm, params, j);
        header.lemma_frames(j as int);
        lemma_nonempty(pcm, n, j as int);
        lemma_silent_chunk(pcm, n, j as int);
        let (a, b) = clip::halves(pcm, n, j as int);
        let listener = clip::half_listener_before(pcm, n, j);
        silence::law_zeros_are_silence(listener, a);
        silence::law_zeros_are_silence(listener.after(a), b);
        silence::law_half_rate_silence_stays_silent(
            header.half_voice_before(bytes, j),
            bits::bits(header.frame_of(bytes, j as int)),
        );
    }
    if i < header.frames() {
        header.lemma_frames(i as int);
        lemma_nonempty(pcm, n, i as int);
        lemma_silent_chunk(pcm, n, i as int);
        let (a, b) = clip::halves(pcm, n, i as int);
        let listener = clip::half_listener_before(pcm, n, i);
        silence::law_zeros_are_silence(listener, a);
        silence::law_zeros_are_silence(listener.after(a), b);
        law_half_rate_clip_carries_the_analysis(bytes, pcm, params, i);
        silence::lemma_no_level_is_sent(listener.analyzed(a));
        silence::lemma_no_level_is_sent(listener.after(a).analyzed(b));
    }
}

/// Silence decodes to silence, through every codec: a clip of zeros, however
/// long, gives zeros back.
pub proof fn law_silent_clip_is_silent(bytes: Seq<u8>, pcm: Seq<i16>, params: ClipParams)
    requires
        pcm.len() <= u32::MAX,
        clip::shape(pcm, params).defect() is None,
        clip::is_clip(bytes, pcm, params),
        silence::silent(pcm),
    ensures
        clip::decoded(bytes) is Ok,
        clip::decoded(bytes)->Ok_0.1 == pcm,
{
    let header = clip::shape(pcm, params);
    let n = params.frame_samples as int;
    law_clip_round_trip(bytes, Seq::empty(), pcm, params);
    let samples = header.samples(bytes);
    if params.codec is ImaAdpcm {
        law_adpcm_clip_is_continuous(bytes, pcm, params);
    }
    assert forall|k: int| 0 <= k < pcm.len() implies samples[k] == pcm[k] by {
        header.lemma_frame_of_sample(k);
        let i = (k / n) as nat;
        let data = bits::bits(header.frame_of(bytes, i as int));
        match params.codec {
            Codec::ImaAdpcm => {
                adpcm::law_zeros_are_silence(pcm.take(k + 1));
            },
            Codec::Lpc10 => {
                lemma_silent_vocoder(bytes, pcm, params, i);
                silence::law_silence_stays_silent(
                    header.voice_before(bytes, i),
                    quant::speech_from(data),
                );
            },
            Codec::Lpc10Half => {
                lemma_silent_half_rate(bytes, pcm, params, i);
                silence::law_half_rate_silence_stays_silent(
                    header.half_voice_before(bytes, i),
                    data,
                );
            },
        }
    }
    assert(samples =~= pcm);
}

/// No bytes can unsettle a decoder. Whatever the frames before it held, each
/// frame of a vocoder clip is decoded from a sound state, and describes a
/// stable filter.
pub proof fn law_hostile_frames_leave_a_sound_decoder(header: ClipHeader, bytes: Seq<u8>, i: nat)
    ensures
        header.voice_before(bytes, i).sound(),
        header.half_voice_before(bytes, i).sound(),
        quant::speech_from(bits::bits(header.frame_of(bytes, i as int))).sound(),
    decreases i,
{
    quant::law_every_pattern_is_a_sound_frame(bits::bits(header.frame_of(bytes, i as int)));
    if i == 0 {
        synth::law_fresh_voice_is_sound();
        half::law_fresh_decoder_is_sound();
    } else {
        let j = (i - 1) as nat;
        let data = bits::bits(header.frame_of(bytes, j as int));
        law_hostile_frames_leave_a_sound_decoder(header, bytes, j);
        synth::law_voice_stays_sound(header.voice_before(bytes, j), quant::speech_from(data));
        half::law_every_pattern_is_a_sound_superframe(header.half_voice_before(bytes, j), data);
    }
}

/// Whatever was recorded, what the encoder sends of each frame is sound: the
/// analyser only ever hears samples.
pub proof fn law_recordings_are_analysed_soundly(pcm: Seq<i16>, i: nat)
    ensures
        ({
            let n = lpc10::FRAME_SAMPLES as int;
            &&& clip::listener_before(pcm, n, i).sound()
            &&& clip::listener_before(pcm, n, i).analyzed(clip::chunk(pcm, n, i as int)).sound()
        }),
    decreases i,
{
    let n = lpc10::FRAME_SAMPLES as int;
    if i == 0 {
        soundness::law_fresh_listener_is_sound();
    } else {
        law_recordings_are_analysed_soundly(pcm, (i - 1) as nat);
        soundness::law_listener_stays_sound(
            clip::listener_before(pcm, n, (i - 1) as nat),
            clip::chunk(pcm, n, i - 1),
        );
    }
    soundness::law_analysis_is_sound(clip::listener_before(pcm, n, i), clip::chunk(pcm, n, i as int));
}

/// The same of both halves of every superframe.
pub proof fn law_half_rate_recordings_are_analysed_soundly(pcm: Seq<i16>, i: nat)
    ensures
        ({
            let n = half::SUPERFRAME_SAMPLES as int;
            let (a, b) = clip::halves(pcm, n, i as int);
            let listener = clip::half_listener_before(pcm, n, i);
            &&& listener.sound()
            &&& listener.analyzed(a).sound()
            &&& listener.after(a).analyzed(b).sound()
        }),
    decreases i,
{
    let n = half::SUPERFRAME_SAMPLES as int;
    let (a, b) = clip::halves(pcm, n, i as int);
    let listener = clip::half_listener_before(pcm, n, i);
    if i == 0 {
        soundness::law_fresh_listener_is_sound();
    } else {
        let (c, d) = clip::halves(pcm, n, i - 1);
        let before = clip::half_listener_before(pcm, n, (i - 1) as nat);
        law_half_rate_recordings_are_analysed_soundly(pcm, (i - 1) as nat);
        soundness::law_listener_stays_sound(before, c);
        soundness::law_listener_stays_sound(before.after(c), d);
    }
    soundness::law_analysis_is_sound(listener, a);
    soundness::law_listener_stays_sound(listener, a);
    soundness::law_analysis_is_sound(listener.after(a), b);
}

/// No declared length is taken on trust: a clip that decodes carries the
/// bytes of all its frames, and gives no more samples than those frames hold.
pub proof fn law_audio_is_paid_for_in_bytes(bytes: Seq<u8>)
    requires
        clip::decoded(bytes) is Ok,
    ensures
        ({
            let (header, samples) = clip::decoded(bytes)->Ok_0;
            &&& header.defect() is None
            &&& HEADER_LEN + header.frames() * header.frame_len() <= bytes.len()
            &&& samples.len() <= header.frames() * header.frame_samples
        }),
{
    let header = clip::decoded(bytes)->Ok_0.0;
    clip::law_header_is_canonical(bytes, header);
    let n = header.frame_samples as int;
    let count = header.sample_count as int;
    let frames = header.frames();
    assert(count <= frames * n) by (nonlinear_arith)
        requires
            frames == (count + n - 1) / n,
            n > 0,
    ;
}

/// A clip takes at most four bytes a sample, besides what a frame and the
/// header take: up to 2^28 samples fit the smallest address space.
pub proof fn law_clips_fit(header: ClipHeader)
    requires
        header.defect() is None,
    ensures
        header.clip_len() <= 4 * header.sample_count + header.frame_samples + HEADER_LEN,
        header.sample_count <= 0x1000_0000 ==> header.clip_len() <= usize::MAX,
{
    let n = header.frame_samples as int;
    let count = header.sample_count as int;
    let frames = header.frames();
    let len = header.frame_len();
    assert(0 <= frames <= count && frames * n <= count + n - 1) by (nonlinear_arith)
        requires
            frames == (count + n - 1) / n,
            n >= 1,
            count >= 0,
    ;
    assert(frames * len <= 3 * frames + frames * n) by (nonlinear_arith)
        requires
            len <= 3 + n,
            frames >= 0,
    ;
}

/// A damaged ADPCM frame costs only its own samples: two clips that both
/// decode, with one header, and that differ in the bytes of frame `i` alone,
/// decode alike everywhere else.
pub proof fn law_damage_costs_one_frame(a: Seq<u8>, b: Seq<u8>, i: int)
    requires
        clip::decoded(a) is Ok,
        clip::decoded(b) is Ok,
        clip::decoded(a)->Ok_0.0 == clip::decoded(b)->Ok_0.0,
        clip::decoded(a)->Ok_0.0.codec is ImaAdpcm,
        a.len() == b.len(),
        ({
            let header = clip::decoded(a)->Ok_0.0;
            forall|p: int|
                0 <= p < a.len() && !(header.frame_start(i) <= p < header.frame_start(i)
                    + header.frame_len()) ==> #[trigger] a[p] == b[p]
        }),
    ensures
        ({
            let header = clip::decoded(a)->Ok_0.0;
            let n = header.frame_samples as int;
            &&& clip::decoded(a)->Ok_0.1.len() == clip::decoded(b)->Ok_0.1.len()
            &&& forall|k: int|
                0 <= k < header.sample_count && k / n != i ==> #[trigger] clip::decoded(
                    a,
                )->Ok_0.1[k] == clip::decoded(b)->Ok_0.1[k]
        }),
{
    let header = clip::decoded(a)->Ok_0.0;
    let n = header.frame_samples as int;
    let len = header.frame_len();
    clip::law_header_is_canonical(a, header);
    let x = header.samples(a);
    let y = header.samples(b);
    assert forall|k: int| 0 <= k < header.sample_count && k / n != i implies #[trigger] x[k]
        == y[k] by {
        header.lemma_frame_of_sample(k);
        let j = k / n;
        header.lemma_frames(j);
        // Frame j lies wholly before frame i or wholly after it.
        if j < i {
            assert((j + 1) * len <= i * len) by (nonlinear_arith)
                requires
                    j + 1 <= i,
                    len >= 0,
            ;
        } else {
            assert((i + 1) * len <= j * len && (i + 1) * len == i * len + len)
                by (nonlinear_arith)
                requires
                    i + 1 <= j,
                    len >= 0,
            ;
        }
        assert((j + 1) * len == j * len + len) by (nonlinear_arith);
        assert(header.frame_of(a, j) =~= header.frame_of(b, j));
    }
}

/// Samples with their last one held for a while.
pub open spec fn held_on(pcm: Seq<i16>, extra: nat) -> Seq<i16> {
    pcm + Seq::new(extra, |i: int| pcm.last())
}

/// Padding is holding the last sample: frame by frame, samples are sent as
/// they would be with their last one held for as long as one likes.
pub proof fn law_padding_holds_the_last_sample(
    codec: Codec,
    pcm: Seq<i16>,
    n: int,
    i: nat,
    frame: Seq<u8>,
    extra: nat,
)
    requires
        pcm.len() > 0,
        n >= 0,
    ensures
        clip::is_frame(codec, pcm, n, i, frame) == clip::is_frame(
            codec,
            held_on(pcm, extra),
            n,
            i,
            frame,
        ),
{
    lemma_held_on(pcm, n, i as int, extra);
    lemma_held_on_before(pcm, n, i, extra);
}

proof fn lemma_held_on(pcm: Seq<i16>, n: int, i: int, extra: nat)
    requires
        pcm.len() > 0,
        n >= 0,
        i >= 0,
    ensures
        clip::chunk(pcm, n, i) == clip::chunk(held_on(pcm, extra), n, i),
{
    let long = held_on(pcm, extra);
    assert(long.last() == pcm.last());
    assert(0 <= i * n) by (nonlinear_arith)
        requires
            i >= 0,
            n >= 0,
    ;
    assert(clip::chunk(pcm, n, i) =~= clip::chunk(long, n, i));
}

proof fn lemma_held_on_before(pcm: Seq<i16>, n: int, i: nat, extra: nat)
    requires
        pcm.len() > 0,
        n >= 0,
    ensures
        clip::coder_before(pcm, n, i) == clip::coder_before(held_on(pcm, extra), n, i),
        clip::listener_before(pcm, n, i) == clip::listener_before(held_on(pcm, extra), n, i),
        clip::half_listener_before(pcm, n, i) == clip::half_listener_before(
            held_on(pcm, extra),
            n,
            i,
        ),
    decreases i,
{
    if i > 0 {
        lemma_held_on(pcm, n, i - 1, extra);
        lemma_held_on_before(pcm, n, (i - 1) as nat, extra);
    }
}

} // verus!
