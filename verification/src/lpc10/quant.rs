//! Quantization and bit packing: parameters to seven bytes and back.
//!
//! Bit budget per 22.5 ms frame, following LPC-10e's published allocation:
//!
//! | Field | Bits |
//! |---|---|
//! | voicing | 1 |
//! | pitch period | 6 |
//! | residual gain | 5 |
//! | reflection coefficients 1-4 | 5 each |
//! | reflection coefficients 5-8 | 4 each |
//! | reflection coefficient 9 | 3 |
//! | reflection coefficient 10 | 2 |
//!
//! That is 53 bits, carried in 7 bytes. The spare 3 bits are written as
//! zero and ignored on read, which leaves room to say something later
//! without moving any existing field.
//!
//! The quantizer *tables* are this crate's own. The structure above is the
//! standard's; the levels are not, so a Pipit frame is not interchangeable
//! with a FIPS-137 frame.
use crate::binary32::Binary32;
use crate::lpc10::bits;
use crate::lpc10::bits::{BitReader, BitWriter};
use crate::lpc10::{Params, Speech, FRAME_BYTES, ORDER, PITCH_MAX, PITCH_MIN};
use crate::math;
use crate::order;
use crate::rounding;
use vstd::arithmetic::power2::*;
use vstd::bits::*;
use vstd::prelude::*;

verus! {

/// Bits given to each reflection coefficient, lowest order first. Early
/// coefficients carry the formants that decide intelligibility, so they get
/// the resolution.
pub const RC_BITS: [u32; 10] = [5, 5, 5, 5, 4, 4, 4, 4, 3, 2];

/// Bits given to the pitch period.
pub const PITCH_BITS: u32 = 6;

/// Bits given to the residual gain.
pub const GAIN_BITS: u32 = 5;

/// The first two coefficients are quantized as log area ratios, where equal
/// steps matter equally to the ear. This bounds that domain: 8, and -8.
pub const LAR_LIMIT: u32 = 0x4100_0000;

pub const MINUS_LAR_LIMIT: u32 = 0xc100_0000;

/// Direct-quantized coefficients stay inside this, which keeps every
/// reconstructed filter stable: 0.99, and -0.99.
pub const RC_LIMIT: u32 = 0x3f7d_70a4;

pub const MINUS_RC_LIMIT: u32 = 0xbf7d_70a4;

/// A reflection coefficient this close to one has its log area ratio cut
/// off: 0.999, and -0.999.
pub const LAR_CLAMP: u32 = 0x3f7f_be77;

pub const MINUS_LAR_CLAMP: u32 = 0xbf7f_be77;

/// Gain is logarithmic from 2^-1 to 2^14. Index zero is reserved for
/// silence.
pub const GAIN_MIN_LOG2: u32 = 0xbf80_0000;

pub const GAIN_MAX_LOG2: u32 = 0x4160_0000;

/// Log area ratio of a reflection coefficient.
pub open spec fn spec_to_lar(k: Binary32) -> Binary32 {
    let one = Binary32::from_bits(math::ONE);
    let inside = k.clamp(
        Binary32::from_bits(MINUS_LAR_CLAMP),
        Binary32::from_bits(LAR_CLAMP),
    );
    math::log2(one.add(inside).div(one.sub(inside)))
}

fn to_lar(k: Binary32) -> (r: Binary32)
    ensures
        r == spec_to_lar(k),
{
    let one = Binary32::from_bits(math::ONE);
    let inside = k.clamp(
        Binary32::from_bits(MINUS_LAR_CLAMP),
        Binary32::from_bits(LAR_CLAMP),
    );
    math::log2(one.add(inside).div(one.sub(inside)))
}

/// The reflection coefficient of a log area ratio.
pub open spec fn spec_from_lar(lar: Binary32) -> Binary32 {
    let one = Binary32::from_bits(math::ONE);
    let p = math::exp2(lar);
    p.sub(one).div(p.add(one))
}

fn from_lar(lar: Binary32) -> (r: Binary32)
    ensures
        r == spec_from_lar(lar),
{
    let one = Binary32::from_bits(math::ONE);
    let p = math::exp2(lar);
    p.sub(one).div(p.add(one))
}

/// The highest code of a field.
pub open spec fn levels(width: u32) -> int {
    pow2(width as nat) - 1
}

/// The code of `value` in `[lo, hi]`, in a field of `width` bits: its share
/// of the range in levels, rounded half up and kept inside the field.
pub open spec fn spec_quantize(value: Binary32, lo: Binary32, hi: Binary32, width: u32) -> int {
    let top = Binary32::of_int(levels(width));
    let share = value.sub(lo).div(hi.sub(lo));
    let scaled = share.mul(top).add(Binary32::from_bits(math::HALF));
    scaled.clamp(Binary32::from_bits(math::ZERO), top).whole_within(0, u32::MAX as int)
}

/// The value that a code stands for.
pub open spec fn spec_dequantize(code: int, lo: Binary32, hi: Binary32, width: u32) -> Binary32 {
    let top = levels(width);
    let share = Binary32::of_int(if code < top {
        code
    } else {
        top
    }).div(Binary32::of_int(top));
    lo.add(share.mul(hi.sub(lo)))
}

fn highest_code(width: u32) -> (r: u32)
    requires
        width <= 6,
    ensures
        r == levels(width),
        r <= 63,
{
    proof {
        lemma2_to64();
        rounding::lemma_pow2_order(width as nat, 6);
        lemma_u32_shl_is_mul(1, width);
    }
    (1u32 << width) - 1
}

/// Quantize `value` in `[lo, hi]` to `width` bits, returning the code.
fn quantize(value: Binary32, lo: Binary32, hi: Binary32, width: u32) -> (code: u32)
    requires
        width <= 6,
    ensures
        code == spec_quantize(value, lo, hi, width),
{
    let top = Binary32::from_i64(highest_code(width) as i64);
    let share = value.sub(lo).div(hi.sub(lo));
    let scaled = share.mul(top).add(Binary32::from_bits(math::HALF));
    scaled.clamp(Binary32::from_bits(math::ZERO), top).to_whole(0, u32::MAX as i64) as u32
}

/// The inverse of [`quantize`].
fn dequantize(code: u32, lo: Binary32, hi: Binary32, width: u32) -> (r: Binary32)
    requires
        width <= 6,
    ensures
        r == spec_dequantize(code as int, lo, hi, width),
{
    let top: u32 = highest_code(width);
    let kept: u32 = if code < top { code } else { top };
    let share = Binary32::from_i64(kept as i64).div(Binary32::from_i64(top as i64));
    lo.add(share.mul(hi.sub(lo)))
}

/// Logarithm of a pitch period.
pub open spec fn log_period(period: int) -> Binary32 {
    math::log2(Binary32::of_int(period))
}

/// Pitch is logarithmic: a semitone matters the same at the top of the range
/// as at the bottom.
pub open spec fn spec_pitch_code(pitch: int) -> int {
    let period = if pitch < PITCH_MIN {
        PITCH_MIN as int
    } else if pitch > PITCH_MAX {
        PITCH_MAX as int
    } else {
        pitch
    };
    spec_quantize(
        log_period(period),
        log_period(PITCH_MIN as int),
        log_period(PITCH_MAX as int),
        PITCH_BITS,
    )
}

pub fn pitch_code(pitch: u8) -> (code: u32)
    ensures
        code == spec_pitch_code(pitch as int),
{
    let period: i64 = if (pitch as usize) < PITCH_MIN {
        PITCH_MIN as i64
    } else if pitch as usize > PITCH_MAX {
        PITCH_MAX as i64
    } else {
        pitch as i64
    };
    quantize(
        math::log2(Binary32::from_i64(period)),
        math::log2(Binary32::from_i64(PITCH_MIN as i64)),
        math::log2(Binary32::from_i64(PITCH_MAX as i64)),
        PITCH_BITS,
    )
}

/// The period a code stands for, rounded to whole samples.
pub open spec fn spec_pitch_from_code(code: int) -> int {
    let period = math::exp2(
        spec_dequantize(
            code,
            log_period(PITCH_MIN as int),
            log_period(PITCH_MAX as int),
            PITCH_BITS,
        ),
    );
    period.add(Binary32::from_bits(math::HALF)).clamp(
        Binary32::of_int(PITCH_MIN as int),
        Binary32::of_int(PITCH_MAX as int),
    ).whole_within(0, u8::MAX as int)
}

pub fn pitch_from_code(code: u32) -> (pitch: u8)
    ensures
        pitch == spec_pitch_from_code(code as int),
{
    let period = math::exp2(
        dequantize(
            code,
            math::log2(Binary32::from_i64(PITCH_MIN as i64)),
            math::log2(Binary32::from_i64(PITCH_MAX as i64)),
            PITCH_BITS,
        ),
    );
    period.add(Binary32::from_bits(math::HALF)).clamp(
        Binary32::from_i64(PITCH_MIN as i64),
        Binary32::from_i64(PITCH_MAX as i64),
    ).to_whole(0, u8::MAX as i64) as u8
}

/// Level 0 means silence, so real gains start at 1.
pub open spec fn spec_gain_code(gain: Binary32) -> int {
    if gain.le(Binary32::from_bits(math::ZERO)) {
        0
    } else {
        let code = spec_quantize(
            math::log2(gain),
            Binary32::from_bits(GAIN_MIN_LOG2),
            Binary32::from_bits(GAIN_MAX_LOG2),
            GAIN_BITS,
        );
        if code < 1 {
            1
        } else {
            code
        }
    }
}

pub fn gain_code(gain: Binary32) -> (code: u32)
    ensures
        code == spec_gain_code(gain),
{
    if gain.le(Binary32::from_bits(math::ZERO)) {
        return 0;
    }
    let code: u32 = quantize(
        math::log2(gain),
        Binary32::from_bits(GAIN_MIN_LOG2),
        Binary32::from_bits(GAIN_MAX_LOG2),
        GAIN_BITS,
    );
    if code < 1 {
        1
    } else {
        code
    }
}

pub open spec fn spec_gain_from_code(code: int) -> Binary32 {
    if code == 0 {
        Binary32::from_bits(math::ZERO)
    } else {
        math::exp2(
            spec_dequantize(
                code,
                Binary32::from_bits(GAIN_MIN_LOG2),
                Binary32::from_bits(GAIN_MAX_LOG2),
                GAIN_BITS,
            ),
        )
    }
}

pub fn gain_from_code(code: u32) -> (gain: Binary32)
    ensures
        gain == spec_gain_from_code(code as int),
{
    if code == 0 {
        return Binary32::from_bits(math::ZERO);
    }
    math::exp2(
        dequantize(
            code,
            Binary32::from_bits(GAIN_MIN_LOG2),
            Binary32::from_bits(GAIN_MAX_LOG2),
            GAIN_BITS,
        ),
    )
}

/// The code of reflection coefficient `i`: the first two by their log area
/// ratios, the others directly.
pub open spec fn spec_rc_code(i: int, k: Binary32) -> int {
    if i < 2 {
        spec_quantize(
            spec_to_lar(k),
            Binary32::from_bits(MINUS_LAR_LIMIT),
            Binary32::from_bits(LAR_LIMIT),
            RC_BITS[i],
        )
    } else {
        spec_quantize(
            k,
            Binary32::from_bits(MINUS_RC_LIMIT),
            Binary32::from_bits(RC_LIMIT),
            RC_BITS[i],
        )
    }
}

pub fn rc_code(i: usize, k: Binary32) -> (code: u32)
    requires
        i < ORDER,
    ensures
        code == spec_rc_code(i as int, k),
{
    if i < 2 {
        quantize(
            to_lar(k),
            Binary32::from_bits(MINUS_LAR_LIMIT),
            Binary32::from_bits(LAR_LIMIT),
            RC_BITS[i],
        )
    } else {
        quantize(
            k,
            Binary32::from_bits(MINUS_RC_LIMIT),
            Binary32::from_bits(RC_LIMIT),
            RC_BITS[i],
        )
    }
}

pub open spec fn spec_rc_from_code(i: int, code: int) -> Binary32 {
    if i < 2 {
        spec_from_lar(
            spec_dequantize(
                code,
                Binary32::from_bits(MINUS_LAR_LIMIT),
                Binary32::from_bits(LAR_LIMIT),
                RC_BITS[i],
            ),
        )
    } else {
        spec_dequantize(
            code,
            Binary32::from_bits(MINUS_RC_LIMIT),
            Binary32::from_bits(RC_LIMIT),
            RC_BITS[i],
        )
    }
}

pub fn rc_from_code(i: usize, code: u32) -> (k: Binary32)
    requires
        i < ORDER,
    ensures
        k == spec_rc_from_code(i as int, code as int),
{
    if i < 2 {
        from_lar(
            dequantize(
                code,
                Binary32::from_bits(MINUS_LAR_LIMIT),
                Binary32::from_bits(LAR_LIMIT),
                RC_BITS[i],
            ),
        )
    } else {
        dequantize(
            code,
            Binary32::from_bits(MINUS_RC_LIMIT),
            Binary32::from_bits(RC_LIMIT),
            RC_BITS[i],
        )
    }
}

/// Widths of the fields of a frame, in the order they are sent.
pub open spec fn widths() -> Seq<u32> {
    seq![1u32, PITCH_BITS, GAIN_BITS] + RC_BITS@
}

/// The codes of the three fields that describe the excitation.
pub open spec fn excitation_codes(s: Speech) -> Seq<nat> {
    seq![
        if s.voiced {
            1nat
        } else {
            0nat
        },
        spec_pitch_code(s.pitch) as nat,
        spec_gain_code(s.gain) as nat,
    ]
}

/// The codes of the ten reflection coefficients.
pub open spec fn tract_codes(rc: Seq<Binary32>) -> Seq<nat> {
    Seq::new(ORDER as nat, |i: int| spec_rc_code(i, rc[i]) as nat)
}

/// The codes of the fields of a frame.
pub open spec fn codes(s: Speech) -> Seq<nat> {
    excitation_codes(s) + tract_codes(s.rc)
}

/// The bits of a frame: its fields, and three spare bits of zero.
pub open spec fn frame_bits(s: Speech) -> Seq<bool> {
    bits::padded(bits::stream(codes(s), widths()), 8 * FRAME_BYTES as nat)
}

/// The coefficients that the fields from `first` on stand for.
pub open spec fn tract_from(bits: Seq<bool>, widths: Seq<u32>, first: int) -> Seq<Binary32> {
    Seq::new(
        ORDER as nat,
        |i: int| spec_rc_from_code(i, bits::field_at(bits, widths, first + i) as int),
    )
}

/// What the bits of a frame say.
pub open spec fn speech_from(bits: Seq<bool>) -> Speech {
    Speech {
        voiced: bits::field_at(bits, widths(), 0) == 1,
        pitch: spec_pitch_from_code(bits::field_at(bits, widths(), 1) as int),
        gain: spec_gain_from_code(bits::field_at(bits, widths(), 2) as int),
        rc: tract_from(bits, widths(), 3),
    }
}

/// One more field of a stream.
pub proof fn lemma_stream_step(values: Seq<nat>, widths: Seq<u32>, i: int)
    requires
        0 <= i < widths.len(),
    ensures
        bits::stream(values, widths.take(i + 1)) == bits::stream(values, widths.take(i))
            + bits::field(values[i], widths[i] as nat),
        bits::total(widths.take(i + 1)) == bits::total(widths.take(i)) + widths[i],
{
    assert(widths.take(i + 1).drop_last() =~= widths.take(i));
}

/// Running totals of the frame's field widths.
pub proof fn lemma_widths()
    ensures
        widths().len() == 13,
        widths()[0] == 1,
        widths()[1] == PITCH_BITS,
        widths()[2] == GAIN_BITS,
        forall|i: int| 0 <= i < 10 ==> #[trigger] widths()[3 + i] == RC_BITS[i],
        bits::total(widths().take(0)) == 0,
        bits::total(widths().take(3)) == 12,
        bits::total(widths()) == 53,
{
    let w = widths();
    assert(w[3] == 5 && w[4] == 5 && w[5] == 5 && w[6] == 5 && w[7] == 4 && w[8] == 4 && w[9] == 4
        && w[10] == 4 && w[11] == 3 && w[12] == 2);
    bits::lemma_total_monotone(w, 0);
    bits::lemma_total_monotone(w, 1);
    bits::lemma_total_monotone(w, 2);
    bits::lemma_total_monotone(w, 3);
    bits::lemma_total_monotone(w, 4);
    bits::lemma_total_monotone(w, 5);
    bits::lemma_total_monotone(w, 6);
    bits::lemma_total_monotone(w, 7);
    bits::lemma_total_monotone(w, 8);
    bits::lemma_total_monotone(w, 9);
    bits::lemma_total_monotone(w, 10);
    bits::lemma_total_monotone(w, 11);
    bits::lemma_total_monotone(w, 12);
    assert(w.take(0) =~= Seq::<u32>::empty());
    assert(w.take(13) =~= w);
}

/// Write the voicing, the pitch and the gain of a frame.
pub(crate) fn write_excitation<const N: usize>(writer: &mut BitWriter<N>, params: &Params)
    requires
        old(writer).wf(),
        old(writer).position + 12 <= 8 * N <= usize::MAX,
    ensures
        final(writer).wf(),
        final(writer).position == old(writer).position + 12,
        final(writer).written() == old(writer).written() + bits::field(
            excitation_codes(params@)[0],
            1,
        ) + bits::field(excitation_codes(params@)[1], PITCH_BITS as nat) + bits::field(
            excitation_codes(params@)[2],
            GAIN_BITS as nat,
        ),
{
    writer.write(if params.voiced { 1 } else { 0 }, 1);
    writer.write(pitch_code(params.pitch), PITCH_BITS);
    writer.write(gain_code(params.gain), GAIN_BITS);
}

/// Write the reflection coefficients, after what `values` says came before.
pub(crate) fn write_tract<const N: usize>(
    writer: &mut BitWriter<N>,
    rc: &[Binary32; 10],
    Ghost(values): Ghost<Seq<nat>>,
    Ghost(all): Ghost<Seq<u32>>,
    Ghost(first): Ghost<int>,
)
    requires
        old(writer).wf(),
        0 <= first,
        all.len() == first + ORDER,
        forall|i: int| 0 <= i < 10 ==> #[trigger] all[first + i] == RC_BITS[i],
        forall|i: int| 0 <= i < 10 ==> #[trigger] values[first + i] == tract_codes(rc@)[i],
        old(writer).written() == bits::stream(values, all.take(first)),
        old(writer).position == bits::total(all.take(first)),
        bits::total(all) <= 8 * N <= usize::MAX,
    ensures
        final(writer).wf(),
        final(writer).position == bits::total(all),
        final(writer).written() == bits::stream(values, all),
{
    let mut i: usize = 0;
    while i < ORDER
        invariant
            i <= ORDER,
            writer.wf(),
            0 <= first,
            all.len() == first + ORDER,
            forall|i: int| 0 <= i < 10 ==> #[trigger] all[first + i] == RC_BITS[i],
            forall|i: int| 0 <= i < 10 ==> #[trigger] values[first + i] == tract_codes(rc@)[i],
            writer.written() == bits::stream(values, all.take(first + i)),
            writer.position == bits::total(all.take(first + i)),
            bits::total(all) <= 8 * N <= usize::MAX,
        decreases ORDER - i,
    {
        proof {
            lemma_stream_step(values, all, first + i);
            bits::lemma_total_monotone(all, first + i);
            assert(all[first + i] == RC_BITS[i as int]);
            assert(values[first + i] == tract_codes(rc@)[i as int]);
        }
        writer.write(rc_code(i, rc[i]), RC_BITS[i]);
        i = i + 1;
    }
    assert(all.take(first + ORDER) =~= all);
}

/// Pack analysed parameters into one frame.
pub fn pack(params: &Params) -> (r: [u8; 7])
    ensures
        bits::bits(r@) == frame_bits(params@),
{
    let ghost values = codes(params@);
    let ghost all = widths();
    let mut writer = BitWriter::<7>::new();
    write_excitation(&mut writer, params);
    proof {
        lemma_widths();
        lemma_stream_step(values, all, 0);
        lemma_stream_step(values, all, 1);
        lemma_stream_step(values, all, 2);
        assert(all.take(0) =~= Seq::<u32>::empty());
        assert(writer.written() =~= bits::stream(values, all.take(3)));
        bits::lemma_stream_length(values, all);
    }
    write_tract(&mut writer, &params.rc, Ghost(values), Ghost(all), Ghost(3));
    proof {
        assert(bits::bits(writer.bytes@) =~= frame_bits(params@)) by {
            assert forall|p: int| 0 <= p < 56 implies bits::bits(writer.bytes@)[p] == frame_bits(
                params@,
            )[p] by {
                if p < 53 {
                    assert(writer.written()[p] == bits::stream(values, all)[p]);
                }
            }
        }
    }
    writer.bytes
}

/// Read the reflection coefficients.
pub(crate) fn read_tract(
    reader: &mut BitReader,
    Ghost(all): Ghost<Seq<u32>>,
    Ghost(first): Ghost<int>,
) -> (rc: [Binary32; 10])
    requires
        0 <= first,
        all.len() == first + ORDER,
        forall|i: int| 0 <= i < 10 ==> #[trigger] all[first + i] == RC_BITS[i],
        old(reader).position == bits::total(all.take(first)),
        bits::total(all) <= 8 * old(reader).bytes@.len(),
        bits::total(all) <= usize::MAX,
    ensures
        rc@ == tract_from(bits::bits(old(reader).bytes@), all, first),
        final(reader).bytes@ == old(reader).bytes@,
{
    let mut rc: [Binary32; 10] = [Binary32::from_bits(math::ZERO); 10];
    let ghost data = bits::bits(reader.bytes@);
    let mut i: usize = 0;
    while i < ORDER
        invariant
            i <= ORDER,
            0 <= first,
            all.len() == first + ORDER,
            forall|i: int| 0 <= i < 10 ==> #[trigger] all[first + i] == RC_BITS[i],
            reader.bytes@ == old(reader).bytes@,
            data == bits::bits(reader.bytes@),
            reader.position == bits::total(all.take(first + i)),
            bits::total(all) <= 8 * reader.bytes@.len(),
            bits::total(all) <= usize::MAX,
            forall|k: int| 0 <= k < i ==> rc@[k] == tract_from(data, all, first)[k],
        decreases ORDER - i,
    {
        proof {
            bits::lemma_total_monotone(all, first + i);
            assert(all[first + i] == RC_BITS[i as int]);
        }
        let code: u32 = reader.read(RC_BITS[i]);
        assert(code == bits::field_at(data, all, first + i));
        rc[i] = rc_from_code(i, code);
        i = i + 1;
    }
    assert(rc@ =~= tract_from(data, all, first));
    rc
}

/// Unpack one frame.
///
/// Every bit pattern is a valid frame: fields are clamped to their declared
/// ranges and reflection coefficients land strictly inside (-1, 1), so a
/// corrupted or hostile frame produces a stable filter rather than an
/// exploding one. `bytes` must be at least [`FRAME_BYTES`] long.
pub fn unpack(bytes: &[u8]) -> (r: Params)
    requires
        bytes@.len() >= FRAME_BYTES,
    ensures
        r@ == speech_from(bits::bits(bytes@)),
{
    let ghost all = widths();
    proof {
        lemma_widths();
        bits::lemma_total_monotone(all, 0);
        bits::lemma_total_monotone(all, 1);
        bits::lemma_total_monotone(all, 2);
    }
    let mut reader = BitReader::new(bytes);
    let voiced: bool = reader.read(1) == 1;
    let pitch: u8 = pitch_from_code(reader.read(PITCH_BITS));
    let gain = gain_from_code(reader.read(GAIN_BITS));
    let rc = read_tract(&mut reader, Ghost(all), Ghost(3));
    Params { voiced, pitch, gain, rc }
}

/// Every code fits its field.
pub proof fn lemma_quantize_range(value: Binary32, lo: Binary32, hi: Binary32, width: u32)
    requires
        width <= 6,
    ensures
        0 <= spec_quantize(value, lo, hi, width) <= levels(width),
{
    let l = levels(width);
    lemma2_to64();
    rounding::lemma_pow2_order(width as nat, 6);
    lemma_pow2_pos(149);
    let top = Binary32::of_int(l);
    Binary32::lemma_of_int(l);
    let zero = Binary32::from_bits(math::ZERO);
    rounding::lemma_magnitude_zero();
    let share = value.sub(lo).div(hi.sub(lo));
    let scaled = share.mul(top).add(Binary32::from_bits(math::HALF));
    let c = scaled.clamp(zero, top);
    reveal(Binary32::whole_within);
    if !c.nan() {
        assert(0 <= c.value() <= l * pow2(149)) by {
            assert(0 <= l * pow2(149)) by (nonlinear_arith)
                requires
                    l >= 0,
            ;
        }
        vstd::arithmetic::div_mod::lemma_div_is_ordered(
            c.size() as int,
            l * pow2(149),
            pow2(149) as int,
        );
        vstd::arithmetic::div_mod::lemma_div_by_multiple(l, pow2(149) as int);
        if c.negative() {
            assert(c.size() == 0);
            vstd::arithmetic::div_mod::lemma_div_basics_1(pow2(149) as int);
        }
    }
}

/// Every code of a frame fits its field.
pub proof fn lemma_codes_fit(s: Speech, i: int)
    requires
        0 <= i < 13,
    ensures
        codes(s)[i] < pow2(widths()[i] as nat),
{
    lemma2_to64();
    lemma_widths();
    if i == 1 {
        let period = if s.pitch < PITCH_MIN {
            PITCH_MIN as int
        } else if s.pitch > PITCH_MAX {
            PITCH_MAX as int
        } else {
            s.pitch
        };
        lemma_quantize_range(
            log_period(period),
            log_period(PITCH_MIN as int),
            log_period(PITCH_MAX as int),
            PITCH_BITS,
        );
    } else if i == 2 {
        lemma_quantize_range(
            math::log2(s.gain),
            Binary32::from_bits(GAIN_MIN_LOG2),
            Binary32::from_bits(GAIN_MAX_LOG2),
            GAIN_BITS,
        );
    } else if i >= 3 {
        lemma_rc_code_fits(i - 3, s.rc[i - 3]);
        assert(widths()[3 + (i - 3)] == RC_BITS[i - 3]);
    }
}

pub proof fn lemma_rc_code_fits(i: int, k: Binary32)
    requires
        0 <= i < 10,
    ensures
        0 <= spec_rc_code(i, k) < pow2(RC_BITS[i] as nat),
{
    if i < 2 {
        lemma_quantize_range(
            spec_to_lar(k),
            Binary32::from_bits(MINUS_LAR_LIMIT),
            Binary32::from_bits(LAR_LIMIT),
            RC_BITS[i],
        );
    } else {
        lemma_quantize_range(
            k,
            Binary32::from_bits(MINUS_RC_LIMIT),
            Binary32::from_bits(RC_LIMIT),
            RC_BITS[i],
        );
    }
}

/// A code's share of the range, from 0 to 1.
pub proof fn lemma_share(code: int, width: u32)
    requires
        0 <= code,
        1 <= width <= 6,
    ensures
        ({
            let top = levels(width);
            let share = Binary32::of_int(if code < top {
                code
            } else {
                top
            }).div(Binary32::of_int(top));
            &&& share.finite()
            &&& 0 <= share.value() <= pow2(149)
        }),
{
    let top = levels(width);
    let kept = if code < top {
        code
    } else {
        top
    };
    let one = Binary32::from_bits(math::ONE);
    lemma2_to64();
    lemma_pow2_pos(149);
    rounding::lemma_pow2_order(1, width as nat);
    rounding::lemma_pow2_order(width as nat, 6);
    Binary32::lemma_of_int(top);
    Binary32::lemma_of_int(kept);
    order::lemma_power(149);
    let a = Binary32::of_int(kept);
    let b = Binary32::of_int(top);
    assert(0 <= kept * pow2(149) <= top * pow2(149) && top * pow2(149) > 0) by (nonlinear_arith)
        requires
            0 <= kept <= top,
            top > 0,
            pow2(149) > 0,
    ;
    assert(a.size() * pow2(149) <= one.size() * b.size()) by (nonlinear_arith)
        requires
            a.size() <= b.size(),
            one.size() == pow2(149),
    ;
    order::lemma_div(a, b, one);
    order::lemma_finite(a.div(b), one);
}

/// Every code stands for a value of the range, provided that the length of
/// the range is itself a number.
pub proof fn lemma_dequantize_range(code: int, lo: Binary32, hi: Binary32, width: u32)
    requires
        0 <= code,
        1 <= width <= 6,
        lo.finite(),
        hi.finite(),
        hi.sub(lo).finite(),
        hi.sub(lo).value() == hi.value() - lo.value() >= 0,
    ensures
        spec_dequantize(code, lo, hi, width).finite(),
        lo.value() <= spec_dequantize(code, lo, hi, width).value() <= hi.value(),
{
    let top = levels(width);
    let share = Binary32::of_int(if code < top {
        code
    } else {
        top
    }).div(Binary32::of_int(top));
    lemma_share(code, width);
    let span = hi.sub(lo);
    let part = share.mul(span);
    lemma_part(share, span);
    order::lemma_add(lo, part, hi);
    order::lemma_add(lo, part, lo);
    let r = lo.add(part);
    if r.size() <= hi.size() {
        order::lemma_finite(r, hi);
    } else {
        order::lemma_finite(r, lo);
    }
}

/// A share of a non-negative number lies between zero and it.
pub proof fn lemma_part(share: Binary32, span: Binary32)
    requires
        share.finite(),
        0 <= share.value() <= pow2(149),
        span.finite(),
        span.value() >= 0,
    ensures
        share.mul(span).finite(),
        0 <= share.mul(span).value() <= span.value(),
{
    let none = Binary32::from_bits(math::ZERO);
    rounding::lemma_magnitude_zero();
    assert(share.size() * span.size() <= span.size() * pow2(149)) by (nonlinear_arith)
        requires
            share.size() <= pow2(149),
    ;
    order::lemma_mul(share, span, span);
    order::lemma_finite(share.mul(span), span);
    if share.size() == 0 || span.size() == 0 {
        assert(share.size() * span.size() == 0 && none.size() * pow2(149) == 0) by (nonlinear_arith)
            requires
                share.size() == 0 || span.size() == 0,
                none.size() == 0,
        ;
        order::lemma_mul(share, span, none);
    }
}

/// A range symmetric about zero has twice its limit for a length.
pub proof fn lemma_symmetric(limit: Binary32)
    requires
        0x80_0000 <= limit.bits < 0x7f00_0000,
    ensures
        ({
            let low = Binary32 { bits: (limit.bits + 0x8000_0000) as u32 };
            &&& low.finite() && limit.finite()
            &&& low.value() == -limit.value()
            &&& limit.value() > 0
            &&& limit.sub(low).finite()
            &&& limit.sub(low).value() == 2 * limit.value()
        }),
{
    let low = Binary32 { bits: (limit.bits + 0x8000_0000) as u32 };
    let double = Binary32 { bits: (limit.bits + 0x80_0000) as u32 };
    let field = (limit.bits / 0x80_0000) as nat;
    let fraction = (limit.bits % 0x80_0000) as nat;
    Binary32::lemma_value_of(limit, field, fraction);
    Binary32::lemma_value_of(double, field + 1, fraction);
    lemma_pow2_unfold(field);
    lemma_pow2_pos((field - 1) as nat);
    assert(double.size() == 2 * limit.size() && limit.size() > 0) by (nonlinear_arith)
        requires
            limit.size() == (0x80_0000 + fraction) * pow2((field - 1) as nat),
            double.size() == (0x80_0000 + fraction) * pow2(field),
            pow2(field) == 2 * pow2((field - 1) as nat),
            pow2((field - 1) as nat) > 0,
    ;
    order::lemma_sub(limit, low, double);
    order::lemma_finite(limit.sub(low), double);
}

/// Length of the range of gain logarithms: from -1 to 14.
pub proof fn lemma_gain_range()
    ensures
        ({
            let lo = Binary32::from_bits(GAIN_MIN_LOG2);
            let hi = Binary32::from_bits(GAIN_MAX_LOG2);
            &&& lo.finite() && hi.finite() && hi.sub(lo).finite()
            &&& lo.value() == -1 * pow2(149)
            &&& hi.value() == 14 * pow2(149)
            &&& hi.sub(lo).value() == hi.value() - lo.value()
        }),
{
    let lo = Binary32::from_bits(GAIN_MIN_LOG2);
    let hi = Binary32::from_bits(GAIN_MAX_LOG2);
    let span = Binary32::from_bits(0x4170_0000);
    lemma2_to64();
    Binary32::lemma_value_of(lo, 127, 0);
    Binary32::lemma_value_of(hi, 130, 0x60_0000);
    Binary32::lemma_value_of(span, 130, 0x70_0000);
    lemma_pow2_adds(126, 23);
    lemma_pow2_adds(129, 20);
    assert(lo.size() == pow2(149) && hi.size() == 14 * pow2(149) && span.size() == 15 * pow2(149))
        by (nonlinear_arith)
        requires
            lo.size() == (0x80_0000 + 0) * pow2(126),
            hi.size() == (0x80_0000 + 0x60_0000) * pow2(129),
            span.size() == (0x80_0000 + 0x70_0000) * pow2(129),
            pow2(149) == pow2(126) * 0x80_0000,
            pow2(149) == pow2(129) * 0x10_0000,
    ;
    order::lemma_sub(hi, lo, span);
    order::lemma_finite(hi.sub(lo), span);
}

/// A coefficient from any code lies strictly inside the unit circle, with
/// room to spare: at most 1 - 2^-10 in size.
pub proof fn law_coefficients_are_stable(i: int, code: int)
    requires
        0 <= i < ORDER,
        0 <= code,
    ensures
        spec_rc_from_code(i, code).finite(),
        spec_rc_from_code(i, code).size() <= pow2(149) - pow2(139),
{
    lemma2_to64();
    if i < 2 {
        let limit = Binary32::from_bits(LAR_LIMIT);
        let low = Binary32::from_bits(MINUS_LAR_LIMIT);
        lemma_symmetric(limit);
        lemma_dequantize_range(code, low, limit, RC_BITS[i]);
        let lar = spec_dequantize(code, low, limit, RC_BITS[i]);
        Binary32::lemma_value_of(limit, 130, 0);
        lemma_pow2_adds(129, 20);
        assert(limit.size() == 8 * pow2(149)) by (nonlinear_arith)
            requires
                limit.size() == (0x80_0000 + 0) * pow2(129),
                pow2(149) == pow2(129) * 0x10_0000,
        ;
        math::lemma_exp2_range(lar, -8, 8);
        lemma_from_lar(math::exp2(lar));
    } else {
        let limit = Binary32::from_bits(RC_LIMIT);
        let low = Binary32::from_bits(MINUS_RC_LIMIT);
        lemma_symmetric(limit);
        lemma_dequantize_range(code, low, limit, RC_BITS[i]);
        lemma_inner();
        rounding::lemma_magnitude_order(limit.pattern(), inner().pattern());
    }
}

/// 1 - 2^-10
spec fn inner() -> Binary32 {
    Binary32 { bits: 0x3f7f_c000 }
}

proof fn lemma_inner()
    ensures
        inner().finite(),
        inner().size() == pow2(149) - pow2(139),
{
    lemma2_to64();
    Binary32::lemma_value_of(inner(), 126, 0x7f_c000);
    lemma_pow2_adds(125, 24);
    lemma_pow2_adds(125, 14);
    assert(inner().size() == pow2(149) - pow2(139)) by (nonlinear_arith)
        requires
            inner().size() == (0x80_0000 + 0x7f_c000) * pow2(125),
            pow2(149) == pow2(125) * 0x100_0000,
            pow2(139) == pow2(125) * 0x4000,
    ;
}

/// (p - 1) / (p + 1) stays inside the unit circle while p is neither too
/// large nor too small.
pub proof fn lemma_from_lar(p: Binary32)
    requires
        p.finite(),
        !p.negative(),
        pow2(141) <= p.size() <= pow2(159),
    ensures
        ({
            let one = Binary32::from_bits(math::ONE);
            let r = p.sub(one).div(p.add(one));
            &&& r.finite()
            &&& r.size() <= pow2(149) - pow2(139)
        }),
{
    let one = Binary32::from_bits(math::ONE);
    let unit = pow2(149);
    lemma2_to64();
    order::lemma_power(149);
    order::lemma_power(159);
    lemma_pow2_adds(141, 8);
    lemma_pow2_adds(149, 10);
    lemma_pow2_adds(139, 10);
    lemma_pow2_pos(141);
    order::lemma_neg(one);
    order::lemma_within_weaken(one, 149, 159);
    order::lemma_within_add(p, one, 159);
    let a = p.sub(one);
    let b = p.add(one);
    order::lemma_add_error(p, one);
    order::lemma_add_error(p, one.neg());
    let v = p.value();
    assert(256 * v >= unit && v <= 1024 * unit && unit > 0) by {
        assert(pow2(149) == pow2(141) * 256);
        assert(pow2(159) == pow2(149) * 1024);
    }
    assert(1024 * a.size() <= 1023 * b.size() && b.size() > 0);
    lemma_inner();
    assert(a.size() * unit <= inner().size() * b.size()) by (nonlinear_arith)
        requires
            1024 * a.size() <= 1023 * b.size(),
            unit == pow2(139) * 1024,
            inner().size() == unit - pow2(139),
    ;
    order::lemma_div(a, b, inner());
    order::lemma_finite(a.div(b), inner());
}

/// A gain from any code is a number, and not negative.
pub proof fn law_gains_are_sound(code: int)
    requires
        0 <= code,
    ensures
        spec_gain_from_code(code).finite(),
        spec_gain_from_code(code).value() >= 0,
        spec_gain_from_code(code).value() == 0 <==> code == 0,
{
    rounding::lemma_magnitude_zero();
    if code != 0 {
        let lo = Binary32::from_bits(GAIN_MIN_LOG2);
        let hi = Binary32::from_bits(GAIN_MAX_LOG2);
        lemma_gain_range();
        lemma_dequantize_range(code, lo, hi, GAIN_BITS);
        math::lemma_exp2_range(spec_dequantize(code, lo, hi, GAIN_BITS), -1, 14);
        lemma_pow2_pos(148);
    }
}

/// A pitch from any code lies in the range that the coder represents.
pub proof fn law_pitches_are_in_range(code: int)
    requires
        0 <= code,
    ensures
        PITCH_MIN <= spec_pitch_from_code(code) <= PITCH_MAX,
{
    let lo = log_period(PITCH_MIN as int);
    let hi = log_period(PITCH_MAX as int);
    math::law_log2_is_moderate(Binary32::of_int(PITCH_MIN as int));
    math::law_log2_is_moderate(Binary32::of_int(PITCH_MAX as int));
    order::lemma_within_add(hi, lo, 158);
    let top = levels(PITCH_BITS);
    let share = Binary32::of_int(if code < top {
        code
    } else {
        top
    }).div(Binary32::of_int(top));
    lemma_share(code, PITCH_BITS);
    order::lemma_within_mul(share, hi.sub(lo), 149, 159);
    order::lemma_within_weaken(lo, 158, 159);
    order::lemma_within_add(lo, share.mul(hi.sub(lo)), 159);
    let period = math::exp2(spec_dequantize(code, lo, hi, PITCH_BITS));
    math::lemma_exp2_number(spec_dequantize(code, lo, hi, PITCH_BITS));
    let half = Binary32::from_bits(math::HALF);
    let raised = period.add(half);
    if period.finite() {
        order::lemma_add(period, half, half);
    } else {
        reveal(Binary32::spec_add);
    }
    Binary32::lemma_of_int(PITCH_MIN as int);
    Binary32::lemma_of_int(PITCH_MAX as int);
    let kept = raised.clamp(
        Binary32::of_int(PITCH_MIN as int),
        Binary32::of_int(PITCH_MAX as int),
    );
    lemma_pow2_pos(149);
    assert(20 * pow2(149) <= kept.value() <= 156 * pow2(149));
    lemma_whole_range(kept, 20, 156);
}

/// A number between two non-negative integers has a whole part between them.
proof fn lemma_whole_range(x: Binary32, low: int, high: int)
    requires
        !x.nan(),
        0 < low <= high <= 255,
        low * pow2(149) <= x.value() <= high * pow2(149),
    ensures
        low <= x.whole_within(0, u8::MAX as int) <= high,
{
    reveal(Binary32::whole_within);
    let unit = pow2(149) as int;
    lemma_pow2_pos(149);
    assert(low * unit > 0) by (nonlinear_arith)
        requires
            low > 0,
            unit > 0,
    ;
    vstd::arithmetic::div_mod::lemma_fundamental_div_mod(x.value(), unit);
    vstd::arithmetic::div_mod::lemma_mod_bound(x.value(), unit);
    let w = x.value() / unit;
    assert(low <= w <= high) by (nonlinear_arith)
        requires
            low * unit <= x.value() <= high * unit,
            x.value() == unit * w + x.value() % unit,
            0 <= x.value() % unit < unit,
    ;
}

/// Every pattern of bits is a valid frame that describes a stable filter:
/// all coefficients strictly inside (-1, 1), a gain that is a number and
/// not negative, and a pitch in range.
pub proof fn law_every_pattern_is_a_sound_frame(bits: Seq<bool>)
    ensures
        speech_from(bits).sound(),
{
    law_gains_are_sound(bits::field_at(bits, widths(), 2) as int);
    law_pitches_are_in_range(bits::field_at(bits, widths(), 1) as int);
    lemma_tract_is_sound(bits, widths(), 3);
}

/// Coefficients read from any bits are stable.
pub proof fn lemma_tract_is_sound(bits: Seq<bool>, widths: Seq<u32>, first: int)
    ensures
        Speech::stable(tract_from(bits, widths, first)),
{
    lemma_pow2_pos(139);
    assert forall|i: int| 0 <= i < ORDER implies ({
        let k = #[trigger] tract_from(bits, widths, first)[i];
        k.finite() && k.size() < pow2(149)
    }) by {
        law_coefficients_are_stable(i, bits::field_at(bits, widths, first + i) as int);
    }
}

/// A coefficient sent and received.
pub open spec fn sent_tract(rc: Seq<Binary32>) -> Seq<Binary32> {
    Seq::new(ORDER as nat, |i: int| spec_rc_from_code(i, spec_rc_code(i, rc[i])))
}

/// What a description becomes when it is sent and received: each value the
/// one that its own code stands for.
pub open spec fn sent(s: Speech) -> Speech {
    Speech {
        voiced: s.voiced,
        pitch: spec_pitch_from_code(spec_pitch_code(s.pitch)),
        gain: spec_gain_from_code(spec_gain_code(s.gain)),
        rc: sent_tract(s.rc),
    }
}

/// A frame carries every field: reading it back gives, field by field, the
/// value that the written code stands for, whatever follows the frame.
pub proof fn law_frame_carries_every_field(s: Speech, rest: Seq<bool>)
    ensures
        speech_from(frame_bits(s) + rest) == sent(s),
{
    let values = codes(s);
    let all = widths();
    let spare = Seq::new(
        (8 * FRAME_BYTES as nat - bits::stream(values, all).len()) as nat,
        |i: int| false,
    );
    let data = frame_bits(s) + rest;
    assert(data =~= bits::stream(values, all) + (spare + rest));
    lemma_widths();
    assert forall|i: int| 0 <= i < 13 implies #[trigger] bits::field_at(data, all, i)
        == values[i] by {
        assert forall|k: int| 0 <= k < 13 implies values[k] < pow2(#[trigger] all[k] as nat) by {
            lemma_codes_fit(s, k);
        }
        bits::law_fields_survive(values, all, spare + rest, i);
    }
    lemma_codes_are_natural(s);
    assert(speech_from(data).rc =~= sent(s).rc) by {
        assert forall|i: int| 0 <= i < ORDER implies speech_from(data).rc[i] == sent(s).rc[i] by {
            assert(bits::field_at(data, all, 3 + i) == values[3 + i]);
            lemma_rc_code_fits(i, s.rc[i]);
        }
    }
    assert(bits::field_at(data, all, 0) == values[0]);
    assert(bits::field_at(data, all, 1) == values[1]);
    assert(bits::field_at(data, all, 2) == values[2]);
}

/// Codes are not negative.
pub proof fn lemma_codes_are_natural(s: Speech)
    ensures
        spec_pitch_code(s.pitch) >= 0,
        spec_gain_code(s.gain) >= 0,
{
    let period = if s.pitch < PITCH_MIN {
        PITCH_MIN as int
    } else if s.pitch > PITCH_MAX {
        PITCH_MAX as int
    } else {
        s.pitch
    };
    lemma_quantize_range(
        log_period(period),
        log_period(PITCH_MIN as int),
        log_period(PITCH_MAX as int),
        PITCH_BITS,
    );
    lemma_quantize_range(
        math::log2(s.gain),
        Binary32::from_bits(GAIN_MIN_LOG2),
        Binary32::from_bits(GAIN_MAX_LOG2),
        GAIN_BITS,
    );
}

/// The bits past the last field are written as zero and ignored on read:
/// two frames that agree up to there say the same.
pub proof fn law_spare_bits(s: Speech, a: Seq<bool>, b: Seq<bool>)
    ensures
        frame_bits(s).len() == 8 * FRAME_BYTES,
        forall|p: int| 53 <= p < 56 ==> !#[trigger] frame_bits(s)[p],
        a.len() >= 53 && b.len() >= 53 && a.take(53) == b.take(53) ==> speech_from(a)
            == speech_from(b),
{
    lemma_widths();
    bits::lemma_stream_length(codes(s), widths());
    if a.len() >= 53 && b.len() >= 53 && a.take(53) == b.take(53) {
        assert forall|i: int| 0 <= i < 13 implies #[trigger] bits::field_at(a, widths(), i)
            == bits::field_at(b, widths(), i) by {
            bits::lemma_field_at_front(a, b, widths(), i);
        }
        assert(bits::field_at(a, widths(), 0) == bits::field_at(b, widths(), 0));
        assert(bits::field_at(a, widths(), 1) == bits::field_at(b, widths(), 1));
        assert(bits::field_at(a, widths(), 2) == bits::field_at(b, widths(), 2));
        assert(speech_from(a).rc =~= speech_from(b).rc) by {
            assert forall|i: int| 0 <= i < ORDER implies speech_from(a).rc[i] == speech_from(
                b,
            ).rc[i] by {
                assert(bits::field_at(a, widths(), 3 + i) == bits::field_at(b, widths(), 3 + i));
            }
        }
    }
}

/// Silence has a code of its own, and nothing else has it: a gain comes back
/// as zero exactly where it was not above zero.
pub proof fn law_silence_is_sent_exactly(s: Speech)
    ensures
        sent(s).gain.value() == 0 <==> s.gain.le(Binary32::from_bits(math::ZERO)),
{
    lemma_codes_are_natural(s);
    law_gains_are_sound(spec_gain_code(s.gain));
}

} // verus!
