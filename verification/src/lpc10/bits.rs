//! Bit fields packed into bytes, most significant bit first.
use crate::rounding;
use vstd::arithmetic::div_mod::*;
use vstd::arithmetic::power2::*;
use vstd::bits::*;
use vstd::prelude::*;

verus! {

/// Weight of the bit that many places below the top of a byte.
pub open spec fn weight(offset: int) -> u8 {
    if offset == 0 {
        128
    } else if offset == 1 {
        64
    } else if offset == 2 {
        32
    } else if offset == 3 {
        16
    } else if offset == 4 {
        8
    } else if offset == 5 {
        4
    } else if offset == 6 {
        2
    } else {
        1
    }
}

/// The bit that many places below the top of a byte.
pub open spec fn bit_of(byte: u8, offset: int) -> bool {
    if offset == 0 {
        (byte / 128) % 2 == 1
    } else if offset == 1 {
        (byte / 64) % 2 == 1
    } else if offset == 2 {
        (byte / 32) % 2 == 1
    } else if offset == 3 {
        (byte / 16) % 2 == 1
    } else if offset == 4 {
        (byte / 8) % 2 == 1
    } else if offset == 5 {
        (byte / 4) % 2 == 1
    } else if offset == 6 {
        (byte / 2) % 2 == 1
    } else {
        byte % 2 == 1
    }
}

/// Bit `p` of a run of bytes, counted from the top of the first.
pub open spec fn bit_at(bytes: Seq<u8>, p: int) -> bool {
    bit_of(bytes[p / 8], p % 8)
}

/// All bits of a run of bytes.
pub open spec fn bits(bytes: Seq<u8>) -> Seq<bool> {
    Seq::new(8 * bytes.len(), |p: int| bit_at(bytes, p))
}

/// The low `width` bits of a value, highest first.
pub open spec fn field(value: nat, width: nat) -> Seq<bool> {
    Seq::new(width, |i: int| (value / pow2((width - 1 - i) as nat)) % 2 == 1)
}

/// The value of a run of bits, highest first.
pub open spec fn number(bits: Seq<bool>) -> nat
    decreases bits.len(),
{
    if bits.len() == 0 {
        0
    } else {
        2 * number(bits.drop_last()) + (if bits.last() {
            1nat
        } else {
            0nat
        })
    }
}

/// Fields of the given widths, back to back.
pub open spec fn stream(values: Seq<nat>, widths: Seq<u32>) -> Seq<bool>
    decreases widths.len(),
{
    if widths.len() == 0 {
        Seq::empty()
    } else {
        stream(values, widths.drop_last()) + field(
            values[widths.len() - 1],
            widths.last() as nat,
        )
    }
}

/// Bits taken by fields of the given widths.
pub open spec fn total(widths: Seq<u32>) -> nat
    decreases widths.len(),
{
    if widths.len() == 0 {
        0
    } else {
        total(widths.drop_last()) + widths.last() as nat
    }
}

/// The value of field `i` at the front of a run of bits.
pub open spec fn field_at(bits: Seq<bool>, widths: Seq<u32>, i: int) -> nat {
    number(bits.subrange(total(widths.take(i)) as int, total(widths.take(i + 1)) as int))
}

/// A stream and the zero bits that fill its last byte.
pub open spec fn padded(bits: Seq<bool>, length: nat) -> Seq<bool> {
    bits + Seq::new((length - bits.len()) as nat, |i: int| false)
}

pub proof fn lemma_number_push(bits: Seq<bool>, bit: bool)
    ensures
        number(bits.push(bit)) == 2 * number(bits) + (if bit {
            1nat
        } else {
            0nat
        }),
{
    assert(bits.push(bit).drop_last() =~= bits);
}

/// A value that fits a field is the number its bits spell.
pub proof fn lemma_number_of_field(value: nat, width: nat)
    requires
        value < pow2(width),
    ensures
        number(field(value, width)) == value,
    decreases width,
{
    lemma2_to64();
    if width > 0 {
        lemma_pow2_unfold(width);
        let half = value / 2;
        lemma_number_of_field(half, (width - 1) as nat);
        let f = field(value, width);
        let g = field(half, (width - 1) as nat);
        assert(f.drop_last() =~= g) by {
            assert forall|i: int| 0 <= i < width - 1 implies f[i] == g[i] by {
                let k = (width - 2 - i) as nat;
                lemma_pow2_unfold((k + 1) as nat);
                lemma_pow2_pos(k);
                lemma_div_denominator(value as int, 2, pow2(k) as int);
            }
        }
        assert((width - 1 - (width - 1)) as nat == 0);
        assert(f.last() == (value % 2 == 1));
    }
}

/// The numbers that bits spell fit the field they came from.
pub proof fn lemma_number_bound(bits: Seq<bool>)
    ensures
        number(bits) < pow2(bits.len()),
    decreases bits.len(),
{
    lemma2_to64();
    if bits.len() > 0 {
        lemma_number_bound(bits.drop_last());
        lemma_pow2_unfold(bits.len());
    }
}

pub proof fn lemma_total_monotone(widths: Seq<u32>, i: int)
    requires
        0 <= i < widths.len(),
    ensures
        total(widths.take(i + 1)) == total(widths.take(i)) + widths[i],
        total(widths.take(i + 1)) <= total(widths),
    decreases widths.len(),
{
    assert(widths.take(i + 1).drop_last() =~= widths.take(i));
    if i + 1 == widths.len() {
        assert(widths.take(i + 1) =~= widths);
    } else {
        lemma_total_monotone(widths.drop_last(), i);
        assert(widths.drop_last().take(i + 1) =~= widths.take(i + 1));
        assert(widths.drop_last().take(i) =~= widths.take(i));
    }
}

pub proof fn lemma_stream_length(values: Seq<nat>, widths: Seq<u32>)
    ensures
        stream(values, widths).len() == total(widths),
    decreases widths.len(),
{
    if widths.len() > 0 {
        lemma_stream_length(values, widths.drop_last());
    }
}

/// Fields are read back as they were written, whatever follows them.
pub proof fn law_fields_survive(values: Seq<nat>, widths: Seq<u32>, rest: Seq<bool>, i: int)
    requires
        0 <= i < widths.len() == values.len(),
        forall|k: int| 0 <= k < widths.len() ==> values[k] < pow2(#[trigger] widths[k] as nat),
    ensures
        field_at(stream(values, widths) + rest, widths, i) == values[i],
    decreases widths.len(),
{
    let all = stream(values, widths) + rest;
    let head = widths.drop_last();
    let last = widths.len() - 1;
    let tail = field(values[last], widths[last] as nat);
    lemma_stream_length(values, widths);
    lemma_stream_length(values, head);
    lemma_total_monotone(widths, i);
    if i == last {
        assert(widths.take(i) =~= head);
        assert(widths.take(i + 1) =~= widths);
        assert(all.subrange(total(head) as int, total(widths) as int) =~= tail);
        lemma_number_of_field(values[i], widths[i] as nat);
    } else {
        lemma_stream_prefix(values, values.drop_last(), head);
        law_fields_survive(values.drop_last(), head, tail + rest, i);
        assert(all =~= stream(values, head) + (tail + rest));
        assert(head.take(i) =~= widths.take(i));
        assert(head.take(i + 1) =~= widths.take(i + 1));
    }
}

/// A field depends on the bits of the fields alone.
pub proof fn lemma_field_at_front(a: Seq<bool>, b: Seq<bool>, widths: Seq<u32>, i: int)
    requires
        0 <= i < widths.len(),
        total(widths) <= a.len(),
        total(widths) <= b.len(),
        a.take(total(widths) as int) == b.take(total(widths) as int),
    ensures
        field_at(a, widths, i) == field_at(b, widths, i),
{
    lemma_total_monotone(widths, i);
    let n = total(widths) as int;
    let from = total(widths.take(i)) as int;
    let to = total(widths.take(i + 1)) as int;
    assert(a.subrange(from, to) =~= a.take(n).subrange(from, to));
    assert(b.subrange(from, to) =~= b.take(n).subrange(from, to));
}

/// A field holds a number of its width.
pub proof fn lemma_field_fits(bits: Seq<bool>, widths: Seq<u32>, i: int)
    requires
        0 <= i < widths.len(),
        total(widths) <= bits.len(),
    ensures
        field_at(bits, widths, i) < pow2(widths[i] as nat),
{
    lemma_total_monotone(widths, i);
    let from = total(widths.take(i)) as int;
    let to = total(widths.take(i + 1)) as int;
    lemma_number_bound(bits.subrange(from, to));
}

/// A stream depends only on the values it holds.
proof fn lemma_stream_prefix(a: Seq<nat>, b: Seq<nat>, widths: Seq<u32>)
    requires
        widths.len() <= a.len(),
        widths.len() <= b.len(),
        forall|k: int| 0 <= k < widths.len() ==> a[k] == b[k],
    ensures
        stream(a, widths) == stream(b, widths),
    decreases widths.len(),
{
    if widths.len() > 0 {
        lemma_stream_prefix(a, b, widths.drop_last());
    }
}

/// A byte is determined by its bits.
proof fn lemma_byte_bits(a: u8, b: u8)
    requires
        forall|k: int| 0 <= k < 8 ==> #[trigger] bit_of(a, k) == bit_of(b, k),
    ensures
        a == b,
{
    assert(bit_of(a, 0) == bit_of(b, 0));
    assert(bit_of(a, 1) == bit_of(b, 1));
    assert(bit_of(a, 2) == bit_of(b, 2));
    assert(bit_of(a, 3) == bit_of(b, 3));
    assert(bit_of(a, 4) == bit_of(b, 4));
    assert(bit_of(a, 5) == bit_of(b, 5));
    assert(bit_of(a, 6) == bit_of(b, 6));
    assert(bit_of(a, 7) == bit_of(b, 7));
    assert(a == b) by (bit_vector)
        requires
            (a / 128) % 2 == (b / 128) % 2,
            (a / 64) % 2 == (b / 64) % 2,
            (a / 32) % 2 == (b / 32) % 2,
            (a / 16) % 2 == (b / 16) % 2,
            (a / 8) % 2 == (b / 8) % 2,
            (a / 4) % 2 == (b / 4) % 2,
            (a / 2) % 2 == (b / 2) % 2,
            a % 2 == b % 2,
    ;
}

/// Bytes are determined by their bits.
pub proof fn law_bits_determine_bytes(a: Seq<u8>, b: Seq<u8>)
    requires
        bits(a) == bits(b),
    ensures
        a == b,
{
    assert(bits(a).len() == 8 * a.len() && bits(b).len() == 8 * b.len());
    assert forall|i: int| 0 <= i < a.len() implies a[i] == b[i] by {
        assert forall|k: int| 0 <= k < 8 implies #[trigger] bit_of(a[i], k) == bit_of(b[i], k) by {
            let p = 8 * i + k;
            assert(p / 8 == i && p % 8 == k);
            assert(bits(a)[p] == bit_at(a, p) && bits(b)[p] == bit_at(b, p));
        }
        lemma_byte_bits(a[i], b[i]);
    }
    assert(a =~= b);
}

/// Writes fields most significant bit first.
pub struct BitWriter<const N: usize> {
    pub bytes: [u8; N],
    pub position: usize,
}

impl<const N: usize> BitWriter<N> {
    /// The bits written so far.
    pub open spec fn written(&self) -> Seq<bool> {
        bits(self.bytes@).take(self.position as int)
    }

    /// Nothing is set past the position.
    pub open spec fn wf(&self) -> bool {
        &&& self.position <= 8 * N
        &&& forall|p: int| self.position <= p < 8 * N ==> !bits(self.bytes@)[p]
    }
}

/// Setting a clear bit with clear bits below it changes no other bit.
proof fn lemma_set_bit(byte: u8, offset: int)
    requires
        0 <= offset < 8,
        forall|k: int| offset <= k < 8 ==> !#[trigger] bit_of(byte, k),
    ensures
        byte + weight(offset) <= 255,
        forall|k: int|
            0 <= k < 8 ==> #[trigger] bit_of((byte + weight(offset)) as u8, k) == (k == offset
                || bit_of(byte, k)),
{
    let next = (byte + weight(offset)) as u8;
    assert(!bit_of(byte, 7));
    assert(offset <= 6 ==> !bit_of(byte, 6));
    assert(offset <= 5 ==> !bit_of(byte, 5));
    assert(offset <= 4 ==> !bit_of(byte, 4));
    assert(offset <= 3 ==> !bit_of(byte, 3));
    assert(offset <= 2 ==> !bit_of(byte, 2));
    assert(offset <= 1 ==> !bit_of(byte, 1));
    assert(offset == 0 ==> !bit_of(byte, 0));
    assert(byte + weight(offset) <= 255);
    assert forall|k: int| 0 <= k < 8 implies #[trigger] bit_of(next, k) == (k == offset || bit_of(
        byte,
        k,
    )) by {
        if k == 0 {
        } else if k == 1 {
        } else if k == 2 {
        } else if k == 3 {
        } else if k == 4 {
        } else if k == 5 {
        } else if k == 6 {
        } else {
        }
    }
}

impl<const N: usize> BitWriter<N> {
    pub fn new() -> (r: Self)
        requires
            8 * N <= usize::MAX,
        ensures
            r.wf(),
            r.position == 0,
            r.written() == Seq::<bool>::empty(),
    {
        let r = BitWriter { bytes: [0u8; N], position: 0 };
        proof {
            assert forall|p: int| 0 <= p < 8 * N implies !bits(r.bytes@)[p] by {
                assert(r.bytes@[p / 8] == 0);
            }
            assert(r.written() =~= Seq::<bool>::empty());
        }
        r
    }

    /// Append the low `width` bits of `value`, highest first.
    pub fn write(&mut self, value: u32, width: u32)
        requires
            old(self).wf(),
            width <= 32,
            old(self).position + width <= 8 * N <= usize::MAX,
        ensures
            final(self).wf(),
            final(self).position == old(self).position + width,
            final(self).written() == old(self).written() + field(value as nat, width as nat),
    {
        let ghost start = self.written();
        let ghost bits_in = field(value as nat, width as nat);
        let ghost first = self.position;
        let mut i: u32 = width;
        assert(start + bits_in.take(0) =~= start);
        while i > 0
            invariant
                self.wf(),
                i <= width <= 32,
                bits_in == field(value as nat, width as nat),
                self.position == first + width - i,
                first + width <= 8 * N <= usize::MAX,
                self.written() == start + bits_in.take(width - i),
            decreases i,
        {
            i = i - 1;
            let ghost before = self.bytes@;
            let ghost all_before = bits(before);
            let ghost p = self.position as int;
            let at: usize = self.position / 8;
            let offset: usize = self.position % 8;
            let high: u32 = value >> i;
            proof {
                lemma_u32_shr_is_div(value, i);
                assert(bits_in[width - 1 - i] == (high % 2 == 1));
            }
            if high % 2 == 1 {
                proof {
                    assert forall|k: int| offset <= k < 8 implies !#[trigger] bit_of(
                        before[at as int],
                        k,
                    ) by {
                        let r = 8 * at + k;
                        assert(r / 8 == at && r % 8 == k);
                        assert(!all_before[r]);
                    }
                    lemma_set_bit(before[at as int], offset as int);
                }
                self.bytes[at] = self.bytes[at] + weight_of(offset);
            }
            self.position = self.position + 1;
            proof {
                let after = bits(self.bytes@);
                assert forall|r: int| 0 <= r < 8 * N implies after[r] == (if r == p {
                    high % 2 == 1
                } else {
                    all_before[r]
                }) by {
                    assert(after[r] == bit_of(self.bytes@[r / 8], r % 8));
                    assert(all_before[r] == bit_of(before[r / 8], r % 8));
                    if r / 8 == at {
                        assert(r == p <==> r % 8 == offset);
                    }
                }
                assert(bits_in.take(width - i) =~= bits_in.take(width - i - 1).push(
                    bits_in[width - 1 - i],
                ));
                assert(self.written() =~= all_before.take(p).push(high % 2 == 1));
                assert(self.written() =~= start + bits_in.take(width - i));
            }
        }
        proof {
            assert(bits_in.take(width as int) =~= bits_in);
        }
    }
}

/// Weight of the bit that many places below the top of a byte.
fn weight_of(offset: usize) -> (r: u8)
    requires
        offset < 8,
    ensures
        r == weight(offset as int),
{
    if offset == 0 {
        128
    } else if offset == 1 {
        64
    } else if offset == 2 {
        32
    } else if offset == 3 {
        16
    } else if offset == 4 {
        8
    } else if offset == 5 {
        4
    } else if offset == 6 {
        2
    } else {
        1
    }
}

/// Reads fields back in the same order.
pub struct BitReader<'a> {
    pub bytes: &'a [u8],
    pub position: usize,
}

impl<'a> BitReader<'a> {
    pub fn new(bytes: &'a [u8]) -> (r: Self)
        ensures
            r.bytes@ == bytes@,
            r.position == 0,
    {
        BitReader { bytes, position: 0 }
    }

    /// Take the next `width` bits as a number, highest first.
    pub fn read(&mut self, width: u32) -> (value: u32)
        requires
            width <= 32,
            old(self).position + width <= 8 * old(self).bytes@.len(),
            old(self).position + width <= usize::MAX,
        ensures
            final(self).bytes@ == old(self).bytes@,
            final(self).position == old(self).position + width,
            value == number(
                bits(old(self).bytes@).subrange(
                    old(self).position as int,
                    old(self).position + width,
                ),
            ),
            value < pow2(width as nat),
    {
        let ghost all = bits(self.bytes@);
        let ghost first = self.position as int;
        let mut value: u32 = 0;
        let mut i: u32 = 0;
        assert(all.subrange(first, first) =~= Seq::<bool>::empty());
        while i < width
            invariant
                i <= width <= 32,
                self.bytes@ == old(self).bytes@,
                all == bits(self.bytes@),
                0 <= first,
                self.position == first + i,
                first + width <= 8 * self.bytes@.len(),
                first + width <= usize::MAX,
                value == number(all.subrange(first, first + i)),
            decreases width - i,
        {
            let byte: u8 = self.bytes[self.position / 8];
            let bit: bool = (byte / weight_of(self.position % 8)) % 2 == 1;
            proof {
                let p = first + i;
                lemma_weight_divides(byte, (self.position % 8) as int);
                assert(all[p] == bit);
                lemma_number_push(all.subrange(first, p), bit);
                assert(all.subrange(first, p + 1) =~= all.subrange(first, p).push(bit));
                lemma_number_bound(all.subrange(first, p));
                rounding::lemma_pow2_order(i as nat, 31);
                lemma2_to64();
            }
            value = 2 * value + (if bit { 1 } else { 0 });
            self.position = self.position + 1;
            i = i + 1;
        }
        proof {
            lemma_number_bound(all.subrange(first, first + width));
        }
        value
    }
}

/// The bit of a byte, by the weight it has.
proof fn lemma_weight_divides(byte: u8, offset: int)
    requires
        0 <= offset < 8,
    ensures
        (byte / weight(offset)) % 2 == 1 <==> bit_of(byte, offset),
{
    if offset == 0 {
    } else if offset == 1 {
    } else if offset == 2 {
    } else if offset == 3 {
    } else if offset == 4 {
    } else if offset == 5 {
    } else if offset == 6 {
    } else {
    }
}

} // verus!
