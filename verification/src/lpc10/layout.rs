//! Where each field of a frame lies, bit by bit.
use crate::lpc10::bits;
use crate::lpc10::half;
use crate::lpc10::quant;
use crate::lpc10::quant::RC_BITS;
use crate::lpc10::{Speech, ORDER};
use vstd::arithmetic::power2::*;
use vstd::prelude::*;

verus! {

/// The number that `n` bits spell from place `from` on, highest first.
pub open spec fn spelled(data: Seq<bool>, from: int, n: nat) -> nat
    decreases n,
{
    if n == 0 {
        0
    } else {
        2 * spelled(data, from, (n - 1) as nat) + (if data[from + n - 1] {
            1nat
        } else {
            0nat
        })
    }
}

/// Where coefficient `i` lies behind the start of the coefficients.
pub open spec fn place(i: int) -> int {
    if i <= 4 {
        5 * i
    } else if i <= 8 {
        20 + 4 * (i - 4)
    } else {
        39
    }
}

/// How many bits it has.
pub open spec fn room(i: int) -> nat {
    if i < 4 {
        5
    } else if i < 8 {
        4
    } else if i == 8 {
        3
    } else {
        2
    }
}

/// A run of bits within others.
#[verifier::spinoff_prover]
proof fn lemma_spelled(data: Seq<bool>, from: int, n: nat)
    requires
        0 <= from,
        from + n <= data.len(),
    ensures
        bits::number(data.subrange(from, from + n)) == spelled(data, from, n),
    decreases n,
{
    if n > 0 {
        lemma_spelled(data, from, (n - 1) as nat);
        let s = data.subrange(from, from + n);
        assert(s.drop_last() =~= data.subrange(from, from + n - 1));
    }
}

/// Where the fields of a frame start.
#[verifier::spinoff_prover]
proof fn lemma_starts()
    ensures
        ({
            let w = quant::widths();
            &&& bits::total(w.take(0)) == 0 && bits::total(w.take(1)) == 1
            &&& bits::total(w.take(2)) == 7 && bits::total(w.take(3)) == 12
            &&& forall|i: int|
                0 <= i <= 9 ==> #[trigger] bits::total(w.take(3 + i)) == 12 + place(i)
            &&& bits::total(w.take(13)) == 53
        }),
{
    let w = quant::widths();
    quant::lemma_widths();
    assert(w[3] == 5 && w[4] == 5 && w[5] == 5 && w[6] == 5 && w[7] == 4 && w[8] == 4 && w[9] == 4
        && w[10] == 4 && w[11] == 3 && w[12] == 2);
    bits::lemma_total_monotone(w, 0);
    bits::lemma_total_monotone(w, 1);
    bits::lemma_total_monotone(w, 2);
    bits::lemma_total_monotone(w, 3);
    bits::lemma_total_monotone(w, 4);
    bits::lemma_total_monotone(w, 5);
    bits::lemma_total_monotone(w, 6);
    bits::lemma_total_monotone(w, 7);
    bits::lemma_total_monotone(w, 8);
    bits::lemma_total_monotone(w, 9);
    bits::lemma_total_monotone(w, 10);
    bits::lemma_total_monotone(w, 11);
    bits::lemma_total_monotone(w, 12);
    assert forall|i: int| 0 <= i <= 9 implies #[trigger] bits::total(w.take(3 + i)) == 12 + place(
        i,
    ) by {
        assert(i == 0 || i == 1 || i == 2 || i == 3 || i == 4 || i == 5 || i == 6 || i == 7 || i
            == 8 || i == 9);
    }
}

/// What a frame's bits say, place by place: a voicing bit, six bits of pitch
/// code, five of gain code, then the ten coefficients' codes.
#[verifier::spinoff_prover]
pub proof fn law_frame_layout(data: Seq<bool>, i: int)
    requires
        data.len() >= 53,
        0 <= i < ORDER,
    ensures
        quant::speech_from(data).voiced == data[0],
        quant::speech_from(data).pitch == quant::spec_pitch_from_code(
            spelled(data, 1, 6) as int,
        ),
        quant::speech_from(data).gain == quant::spec_gain_from_code(spelled(data, 7, 5) as int),
        quant::speech_from(data).rc.len() == 10,
        quant::speech_from(data).rc[i] == quant::spec_rc_from_code(
            i,
            spelled(data, 12 + place(i), room(i)) as int,
        ),
{
    let w = quant::widths();
    lemma_starts();
    lemma_spelled(data, 0, 1);
    lemma_spelled(data, 1, 6);
    lemma_spelled(data, 7, 5);
    reveal_with_fuel(spelled, 2);
    assert(bits::field_at(data, w, 0) == spelled(data, 0, 1));
    assert(bits::field_at(data, w, 1) == spelled(data, 1, 6));
    assert(bits::field_at(data, w, 2) == spelled(data, 7, 5));
    lemma_spelled(data, 12 + place(i), room(i));
    assert(bits::total(w.take(3 + i)) == 12 + place(i));
    if i < 9 {
        assert(bits::total(w.take(3 + (i + 1))) == 12 + place(i + 1));
    }
    assert(bits::field_at(data, w, 3 + i) == spelled(data, 12 + place(i), room(i)));
}

/// What is written where: the codes of a description, each in its place, and
/// three bits of zero behind them.
#[verifier::spinoff_prover]
pub proof fn law_frame_is_written(s: Speech, i: int)
    requires
        0 <= i < ORDER,
    ensures
        quant::frame_bits(s).len() == 56,
        quant::frame_bits(s)[0] == s.voiced,
        spelled(quant::frame_bits(s), 1, 6) == quant::spec_pitch_code(s.pitch),
        spelled(quant::frame_bits(s), 7, 5) == quant::spec_gain_code(s.gain),
        spelled(quant::frame_bits(s), 12 + place(i), room(i)) == quant::spec_rc_code(i, s.rc[i]),
        !quant::frame_bits(s)[53] && !quant::frame_bits(s)[54] && !quant::frame_bits(s)[55],
{
    let w = quant::widths();
    let values = quant::codes(s);
    let data = quant::frame_bits(s);
    quant::law_spare_bits(s, data, data);
    quant::lemma_widths();
    lemma_starts();
    quant::lemma_codes_are_natural(s);
    quant::lemma_rc_code_fits(i, s.rc[i]);
    bits::lemma_stream_length(values, w);
    assert forall|k: int| 0 <= k < 13 implies values[k] < pow2(#[trigger] w[k] as nat) by {
        quant::lemma_codes_fit(s, k);
    }
    let spare = Seq::new((56 - bits::stream(values, w).len()) as nat, |j: int| false);
    assert(data =~= bits::stream(values, w) + spare);
    bits::law_fields_survive(values, w, spare, 0);
    bits::law_fields_survive(values, w, spare, 1);
    bits::law_fields_survive(values, w, spare, 2);
    bits::law_fields_survive(values, w, spare, 3 + i);
    lemma_spelled(data, 0, 1);
    lemma_spelled(data, 1, 6);
    lemma_spelled(data, 7, 5);
    lemma_spelled(data, 12 + place(i), room(i));
    reveal_with_fuel(spelled, 2);
    assert(bits::total(w.take(3 + i)) == 12 + place(i));
    if i < 9 {
        assert(bits::total(w.take(3 + (i + 1))) == 12 + place(i + 1));
    }
}

/// Bits are taken from bytes highest first.
#[verifier::spinoff_prover]
pub proof fn law_bits_of_bytes(bytes: Seq<u8>, p: int)
    requires
        0 <= p < 8 * bytes.len(),
    ensures
        bits::bits(bytes).len() == 8 * bytes.len(),
        bits::bits(bytes)[p] <==> (bytes[p / 8] as int / (pow2((7 - p % 8) as nat) as int)) % 2
            == 1,
{
    lemma2_to64();
    let r = p % 8;
    let byte = bytes[p / 8];
    let d = pow2((7 - r) as nat) as int;
    assert(bits::bits(bytes)[p] == bits::bit_of(byte, r));
    if r == 0 {
        assert(d == 128);
    } else if r == 1 {
        assert(d == 64);
    } else if r == 2 {
        assert(d == 32);
    } else if r == 3 {
        assert(d == 16);
    } else if r == 4 {
        assert(d == 8);
    } else if r == 5 {
        assert(d == 4);
    } else if r == 6 {
        assert(d == 2);
    } else {
        assert(d == 1);
        assert(byte as int / 1 == byte);
    }
}

/// Where the fields of a superframe start.
#[verifier::spinoff_prover]
proof fn lemma_half_starts()
    ensures
        ({
            let w = half::widths();
            &&& bits::total(w.take(0)) == 0 && bits::total(w.take(1)) == 1
            &&& bits::total(w.take(2)) == 7 && bits::total(w.take(3)) == 12
            &&& bits::total(w.take(4)) == 13 && bits::total(w.take(5)) == 19
            &&& bits::total(w.take(6)) == 24
            &&& forall|i: int|
                0 <= i <= 9 ==> #[trigger] bits::total(w.take(6 + i)) == 24 + place(i)
            &&& bits::total(w.take(16)) == 65
        }),
{
    let w = half::widths();
    half::lemma_widths();
    assert(w[6] == 5 && w[7] == 5 && w[8] == 5 && w[9] == 5 && w[10] == 4 && w[11] == 4 && w[12]
        == 4 && w[13] == 4 && w[14] == 3 && w[15] == 2);
    bits::lemma_total_monotone(w, 0);
    bits::lemma_total_monotone(w, 1);
    bits::lemma_total_monotone(w, 2);
    bits::lemma_total_monotone(w, 3);
    bits::lemma_total_monotone(w, 4);
    bits::lemma_total_monotone(w, 5);
    bits::lemma_total_monotone(w, 6);
    bits::lemma_total_monotone(w, 7);
    bits::lemma_total_monotone(w, 8);
    bits::lemma_total_monotone(w, 9);
    bits::lemma_total_monotone(w, 10);
    bits::lemma_total_monotone(w, 11);
    bits::lemma_total_monotone(w, 12);
    bits::lemma_total_monotone(w, 13);
    bits::lemma_total_monotone(w, 14);
    bits::lemma_total_monotone(w, 15);
    assert forall|i: int| 0 <= i <= 9 implies #[trigger] bits::total(w.take(6 + i)) == 24 + place(
        i,
    ) by {
        assert(i == 0 || i == 1 || i == 2 || i == 3 || i == 4 || i == 5 || i == 6 || i == 7 || i
            == 8 || i == 9);
    }
}

/// What a superframe's bits say: voicing, pitch and gain of its first frame
/// and of its second, then one set of coefficients.
#[verifier::spinoff_prover]
pub proof fn law_superframe_layout(data: Seq<bool>, i: int)
    requires
        data.len() >= 65,
        0 <= i < ORDER,
    ensures
        half::speech_from(data, 0).voiced == data[0],
        half::speech_from(data, 0).pitch == quant::spec_pitch_from_code(
            spelled(data, 1, 6) as int,
        ),
        half::speech_from(data, 0).gain == quant::spec_gain_from_code(spelled(data, 7, 5) as int),
        half::speech_from(data, 1).voiced == data[12],
        half::speech_from(data, 1).pitch == quant::spec_pitch_from_code(
            spelled(data, 13, 6) as int,
        ),
        half::speech_from(data, 1).gain == quant::spec_gain_from_code(
            spelled(data, 19, 5) as int,
        ),
        half::speech_from(data, 1).rc.len() == 10,
        half::speech_from(data, 1).rc[i] == quant::spec_rc_from_code(
            i,
            spelled(data, 24 + place(i), room(i)) as int,
        ),
{
    let w = half::widths();
    lemma_half_starts();
    lemma_spelled(data, 0, 1);
    lemma_spelled(data, 1, 6);
    lemma_spelled(data, 7, 5);
    lemma_spelled(data, 12, 1);
    lemma_spelled(data, 13, 6);
    lemma_spelled(data, 19, 5);
    reveal_with_fuel(spelled, 2);
    assert(bits::field_at(data, w, 0) == spelled(data, 0, 1));
    assert(bits::field_at(data, w, 1) == spelled(data, 1, 6));
    assert(bits::field_at(data, w, 2) == spelled(data, 7, 5));
    assert(bits::field_at(data, w, 3) == spelled(data, 12, 1));
    assert(bits::field_at(data, w, 4) == spelled(data, 13, 6));
    assert(bits::field_at(data, w, 5) == spelled(data, 19, 5));
    lemma_spelled(data, 24 + place(i), room(i));
    assert(bits::total(w.take(6 + i)) == 24 + place(i));
    if i < 9 {
        assert(bits::total(w.take(6 + (i + 1))) == 24 + place(i + 1));
    }
    assert(bits::field_at(data, w, 6 + i) == spelled(data, 24 + place(i), room(i)));
}

/// What is written where in a superframe: the two frames' voicing, pitch and
/// gain, and the second one's coefficients.
#[verifier::spinoff_prover]
pub proof fn law_superframe_is_written(first: Speech, second: Speech, i: int)
    requires
        0 <= i < ORDER,
    ensures
        ({
            let data = half::superframe_bits(first, second);
            &&& data.len() == 72
            &&& data[0] == first.voiced
            &&& spelled(data, 1, 6) == quant::spec_pitch_code(first.pitch)
            &&& spelled(data, 7, 5) == quant::spec_gain_code(first.gain)
            &&& data[12] == second.voiced
            &&& spelled(data, 13, 6) == quant::spec_pitch_code(second.pitch)
            &&& spelled(data, 19, 5) == quant::spec_gain_code(second.gain)
            &&& spelled(data, 24 + place(i), room(i)) == quant::spec_rc_code(i, second.rc[i])
        }),
{
    let w = half::widths();
    let values = half::codes(first, second);
    let data = half::superframe_bits(first, second);
    half::law_spare_bits(first, second, data, data, 0);
    half::lemma_widths();
    quant::lemma_widths();
    lemma_half_starts();
    quant::lemma_codes_are_natural(first);
    quant::lemma_codes_are_natural(second);
    quant::lemma_rc_code_fits(i, second.rc[i]);
    bits::lemma_stream_length(values, w);
    assert forall|k: int| 0 <= k < 16 implies values[k] < pow2(#[trigger] w[k] as nat) by {
        if k < 3 {
            quant::lemma_codes_fit(first, k);
        } else {
            quant::lemma_codes_fit(second, k - 3);
            if k >= 6 {
                assert(w[6 + (k - 6)] == RC_BITS[k - 6]);
                assert(quant::widths()[3 + (k - 6)] == RC_BITS[k - 6]);
            }
        }
    }
    let spare = Seq::new((72 - bits::stream(values, w).len()) as nat, |j: int| false);
    assert(data =~= bits::stream(values, w) + spare);
    bits::law_fields_survive(values, w, spare, 0);
    bits::law_fields_survive(values, w, spare, 1);
    bits::law_fields_survive(values, w, spare, 2);
    bits::law_fields_survive(values, w, spare, 3);
    bits::law_fields_survive(values, w, spare, 4);
    bits::law_fields_survive(values, w, spare, 5);
    bits::law_fields_survive(values, w, spare, 6 + i);
    lemma_spelled(data, 0, 1);
    lemma_spelled(data, 1, 6);
    lemma_spelled(data, 7, 5);
    lemma_spelled(data, 12, 1);
    lemma_spelled(data, 13, 6);
    lemma_spelled(data, 19, 5);
    lemma_spelled(data, 24 + place(i), room(i));
    reveal_with_fuel(spelled, 2);
    assert(bits::total(w.take(6 + i)) == 24 + place(i));
    if i < 9 {
        assert(bits::total(w.take(6 + (i + 1))) == 24 + place(i + 1));
    }
}

} // verus!
