//! What a frame's bytes do to the samples, and what the encoder aims for.
use crate::adpcm;
use crate::adpcm::{Coder, MAX_INDEX, STEP_TABLE};
use crate::Error;
use vstd::prelude::*;

verus! {

/// The coder's step is the IMA step of its index: 7 at the bottom, 32767 at
/// the top, and a tenth more from each index to the next, but for rounding to
/// whole numbers and for the last, which is cut to fit a sample.
pub proof fn law_steps_are_the_ima_steps(c: Coder, d: Coder)
    requires
        c.valid(),
        d.valid(),
        d.index == c.index + 1,
    ensures
        c.step() == STEP_TABLE[c.index],
        d.step() == STEP_TABLE[d.index],
        c.index == 0 ==> c.step() == 7,
        d.index == MAX_INDEX ==> d.step() == i16::MAX,
        d.step() > c.step(),
        d.index < MAX_INDEX ==> -10 < 10 * d.step() - 11 * c.step() < 10,
{
}

/// A number, or the end of a range that it is beyond.
pub open spec fn held(x: int, low: int, high: int) -> int {
    if x <= low {
        low
    } else if x >= high {
        high
    } else {
        x
    }
}

/// The step index that a code leads to: one less for the four small sizes,
/// two, four, six or eight more for the others, within the table.
pub open spec fn led(index: int, code: int) -> int {
    held(
        if code % 8 < 4 {
            index - 1
        } else {
            index + 2 * (code % 8) - 6
        },
        0,
        88,
    )
}

/// The sample that a frame starts from: its first two bytes, low byte first,
/// in two's complement.
pub open spec fn opening(frame: Seq<u8>) -> int {
    let word = frame[0] + 256 * frame[1];
    if word < 32768 {
        word
    } else {
        word - 65536
    }
}

/// What a code does: its low three bits say how many quarters of the step the
/// sample moves, and half a quarter more, each part of the step rounded down;
/// its top bit says which way. The rails of a sample stop the move. The first
/// four sizes bring the step index down by one, the others up by two to eight.
pub proof fn law_codes_move_by_the_step(c: Coder, code: int) -> (moved: int)
    requires
        c.valid(),
        0 <= code < 16,
    ensures
        moves(code, STEP_TABLE[c.index] as int, c.predictor, c.next(code).predictor, moved),
        c.next(code).index == led(c.index, code),
{
    adpcm::lemma_step_range(c.index);
    let s = c.step();
    let m = code % 8;
    assert(m == 0 || m == 1 || m == 2 || m == 3 || m == 4 || m == 5 || m == 6 || m == 7);
    assert((2 * m + 1) * STEP_TABLE[c.index] == 2 * (m * s) + s) by (nonlinear_arith)
        requires
            s == STEP_TABLE[c.index],
    ;
    assert(m * s == (if m == 0 { 0 } else if m == 1 { s } else if m == 2 { 2 * s } else if m == 3 {
        3 * s } else if m == 4 { 4 * s } else if m == 5 { 5 * s } else if m == 6 { 6 * s } else { 7
        * s })) by (nonlinear_arith)
        requires
            0 <= m <= 7,
    ;
    if code < 8 {
        c.delta(code)
    } else {
        -c.delta(code)
    }
}

/// The code at place `k` of a frame: the earlier of two in the low half of a
/// byte.
pub open spec fn nibble(frame: Seq<u8>, k: int) -> int {
    let byte = frame[3 + k / 2] as int;
    if k % 2 == 0 {
        byte % 16
    } else {
        byte / 16
    }
}

/// What a frame decodes to, from its bytes. It is refused where its state or
/// its codes are cut off or its step index is beyond the table. Otherwise it
/// starts from the sample in its first two bytes, low byte first, and the
/// index in its third, and each code moves the sample before it by the step of
/// the index that the codes before it led to.
pub proof fn law_frame_bytes_decode(frame: Seq<u8>, count: nat, indices: Seq<int>, k: int)
    requires
        Coder::decoded(frame, count) is Ok,
        indices.len() == count + 1,
        indices[0] == frame[2],
        forall|j: int|
            0 <= j < count ==> #[trigger] indices[j + 1] == led(indices[j], nibble(frame, j)),
        0 <= k < count,
    ensures
        ({
            let samples = Coder::decoded(frame, count)->Ok_0;
            &&& samples.len() == count
            &&& 0 <= indices[k] <= 88
            &&& exists|moved: int| #[trigger]
                moves(
                    nibble(frame, k),
                    STEP_TABLE[indices[k]] as int,
                    before(frame, samples, k),
                    samples[k] as int,
                    moved,
                )
        }),
{
    let c = Coder::read(frame);
    let codes = Coder::unpacked(frame, count);
    let samples = c.samples(codes);
    lemma_trail(frame, count, indices, k as nat);
    let at = c.replayed(codes.take(k));
    let code = codes[k] as int;
    assert(code == nibble(frame, k));
    let moved = law_codes_move_by_the_step(at, code);
    assert(codes.take(k + 1).drop_last() =~= codes.take(k));
    assert(c.replayed(codes.take(k + 1)) == at.next(code));
    adpcm::lemma_next_valid(at, code);
    assert(before(frame, samples, k) == at.predictor);
    assert(moves(
        code,
        STEP_TABLE[indices[k]] as int,
        before(frame, samples, k),
        samples[k] as int,
        moved,
    ));
}

/// The sample before sample `k` of a frame.
pub open spec fn before(frame: Seq<u8>, samples: Seq<i16>, k: int) -> int {
    if k > 0 {
        samples[k - 1] as int
    } else {
        opening(frame)
    }
}

/// Whether a code with a step takes `from` to `to` by moving `moved`: as many
/// quarters of the step as its low bits say, and half a quarter, but for what
/// rounding the parts down cuts off, up or down as its top bit says, and no
/// further than the rails.
pub open spec fn moves(code: int, step: int, from: int, to: int, moved: int) -> bool {
    &&& (2 * (code % 8) + 1) * step - 18 < 8 * moved <= (2 * (code % 8) + 1) * step
    &&& to == held(
        if code < 8 {
            from + moved
        } else {
            from - moved
        },
        -32768,
        32767,
    )
}

/// The state before code `k` of a frame.
proof fn lemma_trail(frame: Seq<u8>, count: nat, indices: Seq<int>, k: nat)
    requires
        Coder::decoded(frame, count) is Ok,
        indices.len() == count + 1,
        indices[0] == frame[2],
        forall|j: int|
            0 <= j < count ==> #[trigger] indices[j + 1] == led(indices[j], nibble(frame, j)),
        k <= count,
    ensures
        ({
            let c = Coder::read(frame);
            let codes = Coder::unpacked(frame, count);
            let at = c.replayed(codes.take(k as int));
            &&& at.valid()
            &&& at.index == indices[k as int]
            &&& k > 0 ==> at.predictor == c.samples(codes)[k - 1]
            &&& k == 0 ==> at == c
        }),
    decreases k,
{
    let c = Coder::read(frame);
    let codes = Coder::unpacked(frame, count);
    if k == 0 {
        assert(codes.take(0) =~= Seq::<u8>::empty());
    } else {
        let j = (k - 1) as nat;
        lemma_trail(frame, count, indices, j);
        let at = c.replayed(codes.take(j as int));
        let code = codes[j as int] as int;
        assert(code == nibble(frame, j as int));
        law_codes_move_by_the_step(at, code);
        adpcm::lemma_next_valid(at, code);
        assert(codes.take(k as int).drop_last() =~= codes.take(j as int));
        assert(c.replayed(codes.take(k as int)) == at.next(code));
        assert(indices[j as int + 1] == at.next(code).index);
    }
}

/// When a frame is refused, and with which error.
pub proof fn law_frame_refusals(frame: Seq<u8>, count: nat)
    ensures
        Coder::decoded(frame, count) is Ok <==> frame.len() >= 3 && frame[2] <= 88 && count <= 2 * (
        frame.len() - 3),
        frame.len() < 3 ==> Coder::decoded(frame, count) == Err::<Seq<i16>, Error>(
            Error::Truncated,
        ),
        frame.len() >= 3 && frame[2] > 88 ==> Coder::decoded(frame, count) == Err::<
            Seq<i16>,
            Error,
        >(Error::InvalidState),
        frame.len() >= 3 && frame[2] <= 88 && count > 2 * (frame.len() - 3) ==> Coder::decoded(
            frame,
            count,
        ) == Err::<Seq<i16>, Error>(Error::Truncated),
{
}

/// The distance of two samples.
pub open spec fn distance(a: int, b: int) -> int {
    if a < b {
        b - a
    } else {
        a - b
    }
}

/// The encoder picks the best of the sixteen codes, for every sample, near or
/// far: none that the rails do not stop comes closer to it by more than the
/// three halvings of the step cut off.
pub proof fn law_encoder_picks_the_nearest(c: Coder, sample: i16, other: int)
    requires
        c.valid(),
        0 <= other < 16,
        -32768 < c.next(other).predictor < 32767,
    ensures
        ({
            let picked = c.after(seq![sample]).predictor;
            distance(picked, sample as int) <= distance(c.next(other).predictor, sample as int) + 3
        }),
{
    adpcm::lemma_step_range(c.index);
    assert(seq![sample].drop_last() =~= Seq::<i16>::empty());
    reveal_with_fuel(Coder::after, 2);
    let code = c.code(sample as int);
    assert(c.after(seq![sample]) == c.next(code));
    lemma_pick(c, sample as int, other);
}

/// The greedy choice, before the rails.
proof fn lemma_pick(c: Coder, sample: int, other: int)
    requires
        c.valid(),
        7 <= c.step() <= 32767,
        -32768 <= sample <= 32767,
        0 <= other < 16,
    ensures
        distance(c.delta(c.code(sample)), sample - c.predictor) <= distance(
            c.delta(other),
            sample - c.predictor,
        ) + 3,
{
}

/// Every frame opens with the state it is coded from, and its codes follow two
/// to a byte: one more byte for every two samples, an odd one's high half
/// zero.
pub proof fn law_frame_layout(c: Coder, pcm: Seq<i16>, k: int)
    requires
        c.valid(),
        0 <= k < pcm.len(),
    ensures
        c.frame(pcm).len() == 3 + (pcm.len() + 1) / 2,
        c.frame(pcm)[2] == c.index,
        c.frame(pcm)[0] + 256 * c.frame(pcm)[1] == (if c.predictor < 0 {
            c.predictor + 65536
        } else {
            c.predictor
        }),
        nibble(c.frame(pcm), k) == c.codes(pcm)[k],
        pcm.len() % 2 == 1 ==> c.frame(pcm).last() < 16,
{
    lemma_head(c, pcm);
    lemma_nibble(c, pcm, k);
    if pcm.len() % 2 == 1 {
        lemma_odd(c, pcm);
    }
}

proof fn lemma_nibble(c: Coder, pcm: Seq<i16>, k: int)
    requires
        0 <= k < pcm.len(),
    ensures
        nibble(c.frame(pcm), k) == c.codes(pcm)[k],
{
    let frame = c.frame(pcm);
    adpcm::lemma_unpack_frame(c, pcm, Seq::empty(), pcm.len(), k);
    assert(frame + Seq::<u8>::empty() =~= frame);
}

proof fn lemma_odd(c: Coder, pcm: Seq<i16>)
    requires
        pcm.len() % 2 == 1,
    ensures
        c.frame(pcm).last() < 16,
{
    let last = pcm.len() - 1;
    adpcm::lemma_codes_are_nibbles(c, pcm, last);
    assert(c.frame(pcm).last() == Coder::packed(c.codes(pcm), last / 2));
}

proof fn lemma_head(c: Coder, pcm: Seq<i16>)
    requires
        c.valid(),
    ensures
        c.frame(pcm)[2] == c.index,
        c.frame(pcm)[0] + 256 * c.frame(pcm)[1] == (if c.predictor < 0 {
            c.predictor + 65536
        } else {
            c.predictor
        }),
{
    let frame = c.frame(pcm);
    assert(frame[0] == c.header()[0] && frame[1] == c.header()[1] && frame[2] == c.header()[2]);
}

/// A stream starts from silence and the smallest step.
pub proof fn law_streams_start_from_silence()
    ensures
        Coder::start().predictor == 0,
        Coder::start().index == 0,
        Coder::start().step() == 7,
{
}

/// From sample to sample the encoder carries on from where the sample before
/// left it, through frames and all.
pub proof fn law_encoder_carries_on(c: Coder, pcm: Seq<i16>, next: i16)
    ensures
        c.after(Seq::empty()) == c,
        c.after(pcm.push(next)) == c.after(pcm).after(seq![next]),
{
    assert(pcm.push(next).drop_last() =~= pcm);
    assert(seq![next].drop_last() =~= Seq::<i16>::empty());
    reveal_with_fuel(Coder::after, 2);
}

} // verus!
