//! IMA ADPCM: 4 bits per sample, framed so each frame decodes alone.
//!
//! The nibble arithmetic is the standard IMA/DVI algorithm (the 89-entry step
//! table and 16-entry index table below). The *framing* is Pipit's own and is
//! deliberately not IMA WAV's block layout, so nothing here claims IMA WAV
//! file compatibility.
//!
//! Each frame carries the predictor state it starts from, which is what makes
//! a frame independently decodable: a frame lost in a call costs its own
//! samples and nothing after it, and a drop can be decoded from any frame
//! boundary. The encoder still runs its state continuously across frames, so
//! the only cost of framing is the 3-byte header.
use crate::Error;
use vstd::prelude::*;

pub mod laws;

verus! {

/// Bytes of predictor state at the head of every frame: `i16` predictor
/// (little-endian) then the step index.
pub const FRAME_HEADER_LEN: usize = 3;

/// Largest step index the tables define.
pub const MAX_INDEX: u8 = 88;

/// IMA step sizes, indexed by the running step index.
pub const STEP_TABLE: [i32; 89] = [
    7, 8, 9, 10, 11, 12, 13, 14, 16, 17, 19, 21, 23, 25, 28, 31, 34, 37, 41, 45, 50, 55, 60, 66,
    73, 80, 88, 97, 107, 118, 130, 143, 157, 173, 190, 209, 230, 253, 279, 307, 337, 371, 408, 449,
    494, 544, 598, 658, 724, 796, 876, 963, 1060, 1166, 1282, 1411, 1552, 1707, 1878, 2066, 2272,
    2499, 2749, 3024, 3327, 3660, 4026, 4428, 4871, 5358, 5894, 6484, 7132, 7845, 8630, 9493,
    10442, 11487, 12635, 13899, 15289, 16818, 18500, 20350, 22385, 24623, 27086, 29794, 32767,
];

/// How each code moves the step index. Symmetric across the sign bit.
pub const INDEX_TABLE: [i8; 16] = [-1, -1, -1, -1, 2, 4, 6, 8, -1, -1, -1, -1, 2, 4, 6, 8];

/// What the coder carries from one sample to the next.
pub struct Coder {
    pub predictor: int,
    pub index: int,
}

/// The nearest value of a range.
pub open spec fn limited(value: int, low: int, high: int) -> int {
    if value < low {
        low
    } else if value > high {
        high
    } else {
        value
    }
}

impl Coder {
    pub open spec fn start() -> Coder {
        Coder { predictor: 0, index: 0 }
    }

    /// Ranges that every update keeps.
    pub open spec fn valid(self) -> bool {
        &&& i16::MIN <= self.predictor <= i16::MAX
        &&& 0 <= self.index <= MAX_INDEX
    }

    pub open spec fn step(self) -> int {
        STEP_TABLE[self.index] as int
    }

    /// What a code adds to the predictor: an eighth of the step, and the
    /// step, its half and its quarter as the three low bits choose.
    pub open spec fn delta(self, code: int) -> int {
        let size = self.step() / 8 + (if (code / 4) % 2 == 1 {
            self.step()
        } else {
            0
        }) + (if (code / 2) % 2 == 1 {
            self.step() / 2
        } else {
            0
        }) + (if code % 2 == 1 {
            self.step() / 4
        } else {
            0
        });
        if (code / 8) % 2 == 1 {
            -size
        } else {
            size
        }
    }

    /// The coder after a code.
    pub open spec fn next(self, code: int) -> Coder {
        Coder {
            predictor: limited(
                self.predictor + self.delta(code),
                i16::MIN as int,
                i16::MAX as int,
            ),
            index: limited(self.index + INDEX_TABLE[code], 0, MAX_INDEX as int),
        }
    }

    /// The code for a sample: the sign of the difference, then three greedy
    /// bits, the step first, its half and its quarter after.
    pub open spec fn code(self, sample: int) -> int {
        let diff = sample - self.predictor;
        let size = if diff < 0 {
            -diff
        } else {
            diff
        };
        let whole = size >= self.step();
        let rest = if whole {
            size - self.step()
        } else {
            size
        };
        let half = rest >= self.step() / 2;
        let last = if half {
            rest - self.step() / 2
        } else {
            rest
        };
        (if diff < 0 {
            8int
        } else {
            0
        }) + (if whole {
            4int
        } else {
            0
        }) + (if half {
            2int
        } else {
            0
        }) + (if last >= self.step() / 4 {
            1int
        } else {
            0
        })
    }

    /// The coder after a run of samples.
    pub open spec fn after(self, pcm: Seq<i16>) -> Coder
        decreases pcm.len(),
    {
        if pcm.len() == 0 {
            self
        } else {
            let c = self.after(pcm.drop_last());
            c.next(c.code(pcm.last() as int))
        }
    }

    /// The codes of a run of samples.
    pub open spec fn codes(self, pcm: Seq<i16>) -> Seq<u8> {
        Seq::new(pcm.len(), |i: int| self.after(pcm.take(i)).code(pcm[i] as int) as u8)
    }

    /// The coder after a run of codes.
    pub open spec fn replayed(self, codes: Seq<u8>) -> Coder
        decreases codes.len(),
    {
        if codes.len() == 0 {
            self
        } else {
            self.replayed(codes.drop_last()).next(codes.last() as int)
        }
    }

    /// The samples that a run of codes stands for: the predictor after each.
    pub open spec fn samples(self, codes: Seq<u8>) -> Seq<i16> {
        Seq::new(codes.len(), |i: int| self.replayed(codes.take(i + 1)).predictor as i16)
    }

    /// The three bytes a frame opens with.
    pub open spec fn header(self) -> Seq<u8> {
        seq![
            (self.predictor % 256) as u8,
            ((self.predictor / 256) % 256) as u8,
            self.index as u8,
        ]
    }

    /// Byte `i` of the payload: two codes, the earlier one in the low half.
    /// The half that no sample fills is zero.
    pub open spec fn packed(codes: Seq<u8>, i: int) -> u8 {
        (codes[2 * i] + (if 2 * i + 1 < codes.len() {
            16 * codes[2 * i + 1]
        } else {
            0
        })) as u8
    }

    /// The frame of a run of samples.
    pub open spec fn frame(self, pcm: Seq<i16>) -> Seq<u8> {
        let codes = self.codes(pcm);
        self.header() + Seq::new(
            (pcm.len() + 1) as nat / 2,
            |i: int| Self::packed(codes, i),
        )
    }

    /// The coder a frame says it starts from.
    pub open spec fn read(frame: Seq<u8>) -> Coder {
        let word = frame[0] + 256 * frame[1];
        Coder {
            predictor: if word >= 0x8000 {
                word - 0x1_0000
            } else {
                word
            },
            index: frame[2] as int,
        }
    }

    /// The first `count` codes of a frame's payload.
    pub open spec fn unpacked(frame: Seq<u8>, count: nat) -> Seq<u8> {
        Seq::new(
            count,
            |i: int|
                {
                    let byte = frame[FRAME_HEADER_LEN + i / 2];
                    if i % 2 == 0 {
                        byte % 16
                    } else {
                        byte / 16
                    }
                },
        )
    }

    /// What decoding `count` samples from a frame gives.
    pub open spec fn decoded(frame: Seq<u8>, count: nat) -> Result<Seq<i16>, Error> {
        if frame.len() < FRAME_HEADER_LEN {
            Err(Error::Truncated)
        } else if frame[2] > MAX_INDEX {
            Err(Error::InvalidState)
        } else if count > 2 * (frame.len() - FRAME_HEADER_LEN) {
            Err(Error::Truncated)
        } else {
            Ok(Self::read(frame).samples(Self::unpacked(frame, count)))
        }
    }
}

/// Encoded length of a frame holding `frame_samples` samples.
pub open spec fn spec_frame_encoded_len(frame_samples: usize) -> usize {
    (FRAME_HEADER_LEN + (frame_samples + 1) / 2) as usize
}

/// Encoded length of a frame holding `frame_samples` samples.
#[verifier::when_used_as_spec(spec_frame_encoded_len)]
pub fn frame_encoded_len(frame_samples: usize) -> (r: usize)
    ensures
        r == FRAME_HEADER_LEN + (frame_samples + 1) / 2,
        r == spec_frame_encoded_len(frame_samples),
{
    FRAME_HEADER_LEN + frame_samples / 2 + frame_samples % 2
}

/// Every step is positive and fits a sample.
pub proof fn lemma_step_range(index: int)
    requires
        0 <= index <= MAX_INDEX,
    ensures
        7 <= STEP_TABLE[index] <= 32767,
{
}

/// Updates keep the coder valid.
pub proof fn lemma_next_valid(c: Coder, code: int)
    requires
        c.valid(),
        0 <= code < 16,
    ensures
        c.next(code).valid(),
        -65535 <= c.delta(code) <= 65535,
{
    lemma_step_range(c.index);
}

/// The predictor and step index the coder carries between samples.
#[derive(Clone, Copy, Debug, PartialEq, Eq, Structural)]
pub struct State {
    predictor: i16,
    index: u8,
}

impl View for State {
    type V = Coder;

    closed spec fn view(&self) -> Coder {
        Coder { predictor: self.predictor as int, index: self.index as int }
    }
}

impl Default for State {
    fn default() -> (r: State)
        ensures
            r@ == Coder::start(),
    {
        State { predictor: 0, index: 0 }
    }
}

impl State {
    #[verifier::type_invariant]
    spec fn in_range(self) -> bool {
        self.index <= MAX_INDEX
    }

    fn step(self) -> (r: i32)
        ensures
            r == self@.step(),
            7 <= r <= 32767,
    {
        proof {
            use_type_invariant(&self);
            lemma_step_range(self.index as int);
        }
        STEP_TABLE[self.index as usize]
    }

    fn advance_index(&mut self, code: u8)
        requires
            code < 16,
        ensures
            final(self)@ == (Coder {
                index: limited(old(self)@.index + INDEX_TABLE[code as int], 0, MAX_INDEX as int),
                ..old(self)@
            }),
    {
        proof {
            use_type_invariant(&*self);
        }
        let next: i32 = self.index as i32 + INDEX_TABLE[code as usize] as i32;
        self.index = if next < 0 {
            0
        } else if next > MAX_INDEX as i32 {
            MAX_INDEX
        } else {
            next as u8
        };
    }

    fn set_predictor(&mut self, value: i32)
        ensures
            final(self)@ == (Coder {
                predictor: limited(value as int, i16::MIN as int, i16::MAX as int),
                ..old(self)@
            }),
    {
        proof {
            use_type_invariant(&*self);
        }
        self.predictor = if value < i16::MIN as i32 {
            i16::MIN
        } else if value > i16::MAX as i32 {
            i16::MAX
        } else {
            value as i16
        };
    }

    /// Encode one sample, moving the state exactly as the decoder will.
    fn encode_sample(&mut self, sample: i16) -> (code: u8)
        ensures
            code == old(self)@.code(sample as int),
            code < 16,
            final(self)@ == old(self)@.next(code as int),
    {
        let mut step: i32 = self.step();
        let mut diff: i32 = sample as i32 - self.predictor as i32;
        let negative: bool = diff < 0;
        if negative {
            diff = -diff;
        }
        // Three greedy bits, largest step first; `vpdiff` accumulates the
        // reconstruction the decoder will compute from the same code.
        let mut code: u8 = 0;
        let mut vpdiff: i32 = step / 8;
        if diff >= step {
            code = 4;
            diff = diff - step;
            vpdiff = vpdiff + step;
        }
        step = step / 2;
        if diff >= step {
            code = code + 2;
            diff = diff - step;
            vpdiff = vpdiff + step;
        }
        step = step / 2;
        if diff >= step {
            code = code + 1;
            vpdiff = vpdiff + step;
        }
        let predictor: i32 = self.predictor as i32;
        if negative {
            code = code + 8;
            self.set_predictor(predictor - vpdiff);
        } else {
            self.set_predictor(predictor + vpdiff);
        }
        self.advance_index(code);
        code
    }

    /// Decode one code, returning the reconstructed sample.
    fn decode_sample(&mut self, code: u8) -> (sample: i16)
        requires
            code < 16,
        ensures
            final(self)@ == old(self)@.next(code as int),
            sample == final(self)@.predictor,
    {
        let step: i32 = self.step();
        let mut vpdiff: i32 = step / 8;
        if (code / 4) % 2 == 1 {
            vpdiff = vpdiff + step;
        }
        if (code / 2) % 2 == 1 {
            vpdiff = vpdiff + step / 2;
        }
        if code % 2 == 1 {
            vpdiff = vpdiff + step / 4;
        }
        let predictor: i32 = self.predictor as i32;
        if (code / 8) % 2 == 1 {
            self.set_predictor(predictor - vpdiff);
        } else {
            self.set_predictor(predictor + vpdiff);
        }
        self.advance_index(code);
        self.predictor
    }
}

/// Streaming encoder. Carries predictor state across frames; stamps each
/// frame with the state it began from.
///
/// This is the frame-level API a live call drives directly, without the clip
/// container.
#[derive(Clone, Copy, Debug)]
pub struct Encoder {
    state: State,
}

impl View for Encoder {
    type V = Coder;

    closed spec fn view(&self) -> Coder {
        self.state@
    }
}

impl Default for Encoder {
    fn default() -> (r: Encoder)
        ensures
            r@ == Coder::start(),
    {
        Encoder { state: State::default() }
    }
}

impl Encoder {
    /// An encoder at the start of a stream.
    pub fn new() -> (r: Encoder)
        ensures
            r@ == Coder::start(),
    {
        Self::default()
    }

    /// Encode `pcm` into `out`, returning the bytes written.
    ///
    /// `out` must hold [`frame_encoded_len`] bytes for `pcm.len()` samples.
    /// An odd sample count leaves the final high nibble zero.
    #[verifier::rlimit(60)]
    #[verifier::spinoff_prover]
    pub fn encode_frame(&mut self, pcm: &[i16], out: &mut [u8]) -> (r: Result<usize, Error>)
        ensures
            old(self)@.valid(),
            final(self)@.valid(),
            old(out)@.len() < frame_encoded_len(pcm@.len() as usize) ==> {
                &&& r == Err::<usize, Error>(Error::ShortBuffer)
                &&& final(self)@ == old(self)@
                &&& final(out)@ == old(out)@
            },
            old(out)@.len() >= frame_encoded_len(pcm@.len() as usize) ==> {
                &&& r == Ok::<usize, Error>(frame_encoded_len(pcm@.len() as usize))
                &&& final(self)@ == old(self)@.after(pcm@)
                &&& final(out)@ == old(self)@.frame(pcm@) + old(out)@.skip(
                    frame_encoded_len(pcm@.len() as usize) as int,
                )
            },
    {
        proof {
            use_type_invariant(&self.state);
        }
        let count: usize = pcm.len();
        let needed: usize = frame_encoded_len(count);
        if out.len() < needed {
            return Err(Error::ShortBuffer);
        }
        let ghost start = self@;
        let ghost codes = start.codes(pcm@);
        let ghost frame = start.frame(pcm@);
        let ghost before = out@;
        // The header is the state *before* this frame, so a decoder needs
        // nothing that came earlier.
        let predictor: i32 = self.state.predictor as i32;
        let word: i32 = if predictor < 0 { predictor + 0x1_0000 } else { predictor };
        out[0] = (word % 256) as u8;
        out[1] = (word / 256) as u8;
        out[2] = self.state.index;
        let mut i: usize = 0;
        let pairs: usize = count / 2 + count % 2;
        assert(pcm@.take(0) =~= Seq::<i16>::empty());
        assert(out@.take(3) =~= frame.take(3));
        while i < pairs
            invariant
                i <= pairs,
                count == pcm@.len(),
                pairs == (pcm@.len() + 1) / 2,
                needed == pairs + 3,
                needed <= out@.len() == before.len(),
                start.valid(),
                codes == start.codes(pcm@),
                frame == start.frame(pcm@),
                self@ == start.after(pcm@.take(if 2 * i < pcm@.len() { 2 * i } else { pcm@.len() as int })),
                out@.take(3 + i) == frame.take(3 + i),
                out@.skip(3 + i) == before.skip(3 + i),
            decreases pairs - i,
        {
            let ghost was = out@;
            let low: u8 = self.state.encode_sample(pcm[2 * i]);
            proof {
                assert(pcm@.take(2 * i + 1).drop_last() =~= pcm@.take(2 * i as int));
                assert(codes[2 * i] == low);
            }
            let high: u8 = if 2 * i + 1 < count {
                let code: u8 = self.state.encode_sample(pcm[2 * i + 1]);
                proof {
                    assert(pcm@.take(2 * i + 2).drop_last() =~= pcm@.take(2 * i + 1));
                    assert(codes[2 * i + 1] == code);
                }
                code
            } else {
                0
            };
            out[FRAME_HEADER_LEN + i] = low + high * 16;
            proof {
                assert(frame[3 + i] == Coder::packed(codes, i as int));
                lemma_byte_sent(frame, before, was, out@, 3 + i);
            }
            i = i + 1;
        }
        proof {
            assert(pcm@.take(pcm@.len() as int) =~= pcm@);
            assert(frame.take(needed as int) =~= frame);
            assert(out@ =~= out@.take(needed as int) + out@.skip(needed as int));
            use_type_invariant(&self.state);
        }
        Ok(needed)
    }
}

/// Writing byte `k` of a frame, with the bytes below it written already.
proof fn lemma_byte_sent(frame: Seq<u8>, before: Seq<u8>, was: Seq<u8>, now: Seq<u8>, k: int)
    requires
        0 <= k < frame.len() <= before.len() == was.len(),
        was.take(k) == frame.take(k),
        was.skip(k) == before.skip(k),
        now == was.update(k, frame[k]),
    ensures
        now.take(k + 1) == frame.take(k + 1),
        now.skip(k + 1) == before.skip(k + 1),
{
    let front = was.take(k);
    let back = was.skip(k);
    assert forall|j: int| 0 <= j < k + 1 implies now[j] == frame[j] by {
        if j < k {
            assert(front[j] == was[j] && frame.take(k)[j] == frame[j]);
        }
    }
    assert(now.take(k + 1) =~= frame.take(k + 1));
    assert forall|j: int| k < j < before.len() implies now[j] == before[j] by {
        assert(back[j - k] == was[j] && before.skip(k)[j - k] == before[j]);
    }
    assert(now.skip(k + 1) =~= before.skip(k + 1));
}

/// Decode one frame into `pcm`, returning the samples written.
///
/// Stateless by construction: the frame carries its own starting state, so
/// frames may be decoded out of order, skipped, or dropped. `pcm.len()` names
/// how many samples the caller wants and must not exceed what the frame
/// holds.
pub fn decode_frame(frame: &[u8], pcm: &mut [i16]) -> (r: Result<usize, Error>)
    ensures
        match Coder::decoded(frame@, old(pcm)@.len()) {
            Ok(samples) => {
                &&& r == Ok::<usize, Error>(old(pcm)@.len() as usize)
                &&& final(pcm)@ == samples
            },
            Err(error) => {
                &&& r == Err::<usize, Error>(error)
                &&& final(pcm)@ == old(pcm)@
            },
        },
{
    if frame.len() < FRAME_HEADER_LEN {
        return Err(Error::Truncated);
    }
    let index: u8 = frame[2];
    if index > MAX_INDEX {
        return Err(Error::InvalidState);
    }
    let word: i32 = frame[0] as i32 + 256 * (frame[1] as i32);
    let predictor: i16 = if word >= 0x8000 { (word - 0x1_0000) as i16 } else { word as i16 };
    let mut state = State { predictor, index };
    let count: usize = pcm.len();
    if count / 2 + count % 2 > frame.len() - FRAME_HEADER_LEN {
        return Err(Error::Truncated);
    }
    let ghost start = Coder::read(frame@);
    let ghost codes = Coder::unpacked(frame@, count as nat);
    let ghost samples = start.samples(codes);
    assert(codes.take(0) =~= Seq::<u8>::empty());
    let mut i: usize = 0;
    while i < count
        invariant
            i <= count == pcm@.len(),
            (count + 1) / 2 + 3 <= frame@.len(),
            codes == Coder::unpacked(frame@, count as nat),
            samples == start.samples(codes),
            state@ == start.replayed(codes.take(i as int)),
            forall|k: int| 0 <= k < i ==> pcm@[k] == samples[k],
        decreases count - i,
    {
        let byte: u8 = frame[FRAME_HEADER_LEN + i / 2];
        let code: u8 = if i % 2 == 0 { byte % 16 } else { byte / 16 };
        assert(codes.take(i + 1).drop_last() =~= codes.take(i as int));
        assert(codes[i as int] == code);
        pcm[i] = state.decode_sample(code);
        i = i + 1;
    }
    assert(pcm@ =~= samples);
    Ok(count)
}

/// Coding a run of samples keeps the coder valid, and its codes are nibbles.
pub proof fn lemma_after_valid(c: Coder, pcm: Seq<i16>)
    requires
        c.valid(),
    ensures
        c.after(pcm).valid(),
    decreases pcm.len(),
{
    if pcm.len() > 0 {
        lemma_after_valid(c, pcm.drop_last());
        let d = c.after(pcm.drop_last());
        lemma_next_valid(d, d.code(pcm.last() as int));
    }
}

/// The encoder moves exactly as the decoder does, for every sample, overload
/// and the rails included: from the same state, the code of a sample takes
/// both to the same next state, whose predictor is the decoded sample.
pub proof fn law_decoder_keeps_step(c: Coder, sample: i16)
    requires
        c.valid(),
    ensures
        0 <= c.code(sample as int) < 16,
        c.replayed(seq![c.code(sample as int) as u8]) == c.after(seq![sample]),
        c.samples(seq![c.code(sample as int) as u8]) == seq![
            c.after(seq![sample]).predictor as i16,
        ],
{
    let code = c.code(sample as int) as u8;
    assert(seq![code].drop_last() =~= Seq::<u8>::empty());
    assert(seq![sample].drop_last() =~= Seq::<i16>::empty());
    reveal_with_fuel(Coder::replayed, 2);
    reveal_with_fuel(Coder::after, 2);
    assert(seq![code].take(1) =~= seq![code]);
    assert(c.samples(seq![code]) =~= seq![c.after(seq![sample]).predictor as i16]);
}

/// Replaying the codes of a run of samples brings a decoder to the state the
/// encoder reached: the encoder moves exactly as the decoder will.
pub proof fn law_replay_follows_encoder(c: Coder, pcm: Seq<i16>)
    requires
        c.valid(),
    ensures
        c.replayed(c.codes(pcm)) == c.after(pcm),
    decreases pcm.len(),
{
    if pcm.len() > 0 {
        let head = pcm.drop_last();
        law_replay_follows_encoder(c, head);
        assert(c.codes(pcm).drop_last() =~= c.codes(head)) by {
            assert forall|i: int| 0 <= i < head.len() implies c.codes(pcm)[i] == c.codes(head)[i] by {
                assert(pcm.take(i) =~= head.take(i));
            }
        }
        assert(pcm.take(pcm.len() - 1) =~= head);
    }
}

/// A frame opens with the coder it was made from.
proof fn lemma_read_frame(c: Coder, pcm: Seq<i16>, rest: Seq<u8>)
    requires
        c.valid(),
    ensures
        Coder::read(c.frame(pcm) + rest) == c,
        (c.frame(pcm) + rest)[2] <= MAX_INDEX,
{
    let frame = c.frame(pcm) + rest;
    assert(frame[0] == c.header()[0] && frame[1] == c.header()[1] && frame[2] == c.header()[2]);
}

/// The halves of a payload byte are the codes packed into it.
proof fn lemma_packed_halves(codes: Seq<u8>, k: int)
    requires
        0 <= k,
        2 * k < codes.len(),
        codes[2 * k] < 16,
        2 * k + 1 < codes.len() ==> codes[2 * k + 1] < 16,
    ensures
        Coder::packed(codes, k) % 16 == codes[2 * k],
        2 * k + 1 < codes.len() ==> Coder::packed(codes, k) / 16 == codes[2 * k + 1],
{
}

pub proof fn lemma_codes_are_nibbles(c: Coder, pcm: Seq<i16>, i: int)
    requires
        0 <= i < pcm.len(),
    ensures
        c.codes(pcm)[i] < 16,
{
}

/// The codes packed into a frame come out again.
pub proof fn lemma_unpack_frame(c: Coder, pcm: Seq<i16>, rest: Seq<u8>, count: nat, i: int)
    requires
        0 <= i < count <= pcm.len(),
    ensures
        Coder::unpacked(c.frame(pcm) + rest, count)[i] == c.codes(pcm)[i],
{
    let frame = c.frame(pcm) + rest;
    let codes = c.codes(pcm);
    assert(codes.len() == pcm.len());
    let k = i / 2;
    assert(frame[3 + k] == Coder::packed(codes, k));
    lemma_codes_are_nibbles(c, pcm, 2 * k);
    if 2 * k + 1 < pcm.len() {
        lemma_codes_are_nibbles(c, pcm, 2 * k + 1);
    }
    lemma_packed_halves(codes, k);
    assert(i % 2 == 0 ==> i == 2 * k);
    assert(i % 2 != 0 ==> i == 2 * k + 1);
}

/// A frame decodes alone: whatever came before it, and whatever follows it
/// in the buffer, the first `count` samples it decodes to are the values the
/// encoder predicted after each of the first `count` samples.
pub proof fn law_frame_decodes_alone(c: Coder, pcm: Seq<i16>, rest: Seq<u8>, count: nat)
    requires
        c.valid(),
        count <= pcm.len(),
    ensures
        Coder::decoded(c.frame(pcm) + rest, count) == Ok::<Seq<i16>, Error>(
            Seq::new(count, |i: int| c.after(pcm.take(i + 1)).predictor as i16),
        ),
{
    let frame = c.frame(pcm) + rest;
    let codes = c.codes(pcm);
    lemma_read_frame(c, pcm, rest);
    let read = Coder::unpacked(frame, count);
    assert forall|i: int| 0 <= i < count implies read[i] == codes[i] by {
        lemma_unpack_frame(c, pcm, rest, count, i);
    }
    let samples = c.samples(read);
    let expected = Seq::new(count, |i: int| c.after(pcm.take(i + 1)).predictor as i16);
    assert forall|i: int| 0 <= i < count implies samples[i] == expected[i] by {
        let part = pcm.take(i + 1);
        assert(read.take(i + 1) =~= c.codes(part)) by {
            assert forall|j: int| 0 <= j < i + 1 implies read[j] == c.codes(part)[j] by {
                assert(pcm.take(j) =~= part.take(j));
            }
        }
        law_replay_follows_encoder(c, part);
    }
    assert(samples =~= expected);
}

/// Framing does not interrupt the coder: coding two runs one after the other
/// gives the states and the codes of coding them as one.
pub proof fn law_stream_is_continuous(c: Coder, first: Seq<i16>, second: Seq<i16>)
    ensures
        c.after(first + second) == c.after(first).after(second),
        c.codes(first + second) == c.codes(first) + c.after(first).codes(second),
    decreases second.len(),
{
    let all = first + second;
    if second.len() == 0 {
        assert(all =~= first);
    } else {
        law_stream_is_continuous(c, first, second.drop_last());
        assert(all.drop_last() =~= first + second.drop_last());
    }
    let joined = c.codes(first) + c.after(first).codes(second);
    assert forall|i: int| 0 <= i < all.len() implies c.codes(all)[i] == joined[i] by {
        if i < first.len() {
            assert(all.take(i) =~= first.take(i));
        } else {
            let part = second.take(i - first.len());
            assert(all.take(i) =~= first + part);
            lemma_after_joins(c, first, part);
        }
    }
    assert(c.codes(all) =~= joined);
}

/// Coding two runs one after the other reaches the state of coding them as
/// one.
pub proof fn lemma_after_joins(c: Coder, first: Seq<i16>, second: Seq<i16>)
    ensures
        c.after(first + second) == c.after(first).after(second),
    decreases second.len(),
{
    if second.len() == 0 {
        assert(first + second =~= first);
    } else {
        lemma_after_joins(c, first, second.drop_last());
        assert((first + second).drop_last() =~= first + second.drop_last());
    }
}

/// A sample less than two steps away comes back within an eighth of a step,
/// give or take what the three halvings of the step cut off.
pub proof fn law_sample_error(c: Coder, sample: int)
    requires
        c.valid(),
        i16::MIN <= sample <= i16::MAX,
        -2 * c.step() < sample - c.predictor < 2 * c.step(),
    ensures
        -(c.step() / 8) - 2 <= sample - c.next(c.code(sample)).predictor <= c.step() / 8 + 2,
{
    lemma_step_range(c.index);
}

/// Zeros leave a fresh coder where it is: silence is coded as silence.
pub proof fn law_zeros_are_silence(pcm: Seq<i16>)
    requires
        forall|i: int| 0 <= i < pcm.len() ==> #[trigger] pcm[i] == 0,
    ensures
        Coder::start().after(pcm) == Coder::start(),
    decreases pcm.len(),
{
    if pcm.len() > 0 {
        law_zeros_are_silence(pcm.drop_last());
        assert(pcm.last() == 0);
        assert(Coder::start().step() == 7);
        assert(Coder::start().code(0) == 0);
    }
}

} // verus!
