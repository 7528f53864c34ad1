//! How binary32 operations order and bound their results.
//!
//! Rounding is monotone, and a number already representable rounds to
//! itself. So whatever bounds an exact result, if it is itself a binary32
//! number, bounds the rounded one. The lemmas here are that observation, one
//! operation at a time.
use crate::binary32::Binary32;
use crate::rounding;
use crate::rounding::INFINITY_BITS;
use vstd::arithmetic::power2::*;
use vstd::prelude::*;

verus! {

/// A signed pattern taken apart again.
pub proof fn lemma_signed(negative: bool, pattern: nat)
    requires
        pattern <= INFINITY_BITS,
    ensures
        ({
            let x = Binary32::signed(negative, pattern);
            &&& x.negative() == negative
            &&& x.pattern() == pattern
            &&& !x.nan()
            &&& x.size() == rounding::magnitude(pattern)
        }),
{
}

/// A rounded ratio is a number, and bounded by the numbers that bound it.
pub proof fn lemma_rounded(negative: bool, num: nat, den: nat, c: Binary32)
    requires
        den > 0,
        !c.nan(),
    ensures
        ({
            let x = Binary32::rounded(negative, num, den);
            &&& !x.nan()
            &&& x.negative() == negative
            &&& num <= c.size() * den ==> x.size() <= c.size()
            &&& num >= c.size() * den ==> x.size() >= c.size()
            &&& num < c.size() * den && c.finite() ==> x.finite()
        }),
{
    let p = rounding::round_ratio(num, den);
    lemma_signed(negative, p);
    rounding::lemma_round_ratio_bound(num, den, c.pattern());
    rounding::lemma_magnitude_order(p, c.pattern());
}

/// A sum is bounded by the numbers that bound the exact sum.
pub proof fn lemma_add(a: Binary32, b: Binary32, c: Binary32)
    requires
        a.finite(),
        b.finite(),
        !c.nan(),
    ensures
        !a.add(b).nan(),
        a.value() + b.value() <= c.value() ==> a.add(b).value() <= c.value(),
        a.value() + b.value() >= c.value() ==> a.add(b).value() >= c.value(),
{
    reveal(Binary32::spec_add);
    rounding::lemma_magnitude_zero();
    let sum = a.value() + b.value();
    lemma_signed(a.negative() && b.negative(), 0);
    if sum < 0 {
        lemma_rounded(true, (-sum) as nat, 1, c);
    } else if sum > 0 {
        lemma_rounded(false, sum as nat, 1, c);
    }
}

/// Negation is exact.
pub proof fn lemma_neg(a: Binary32)
    requires
        !a.nan(),
    ensures
        a.neg().value() == -a.value(),
        a.neg().size() == a.size(),
        a.neg().finite() == a.finite(),
        !a.neg().nan(),
{
    lemma_signed(!a.negative(), a.pattern());
}

/// A difference is bounded by the numbers that bound the exact difference.
pub proof fn lemma_sub(a: Binary32, b: Binary32, c: Binary32)
    requires
        a.finite(),
        b.finite(),
        !c.nan(),
    ensures
        !a.sub(b).nan(),
        a.value() - b.value() <= c.value() ==> a.sub(b).value() <= c.value(),
        a.value() - b.value() >= c.value() ==> a.sub(b).value() >= c.value(),
{
    lemma_neg(b);
    lemma_add(a, b.neg(), c);
}

/// A product is bounded by the numbers that bound the exact product.
pub proof fn lemma_mul(a: Binary32, b: Binary32, c: Binary32)
    requires
        a.finite(),
        b.finite(),
        !c.nan(),
    ensures
        !a.mul(b).nan(),
        a.mul(b).negative() == (a.negative() != b.negative()),
        a.size() * b.size() <= c.size() * pow2(149) ==> a.mul(b).size() <= c.size(),
        a.size() * b.size() >= c.size() * pow2(149) ==> a.mul(b).size() >= c.size(),
{
    reveal(Binary32::spec_mul);
    lemma_pow2_pos(149);
    lemma_rounded(a.negative() != b.negative(), a.size() * b.size(), pow2(149), c);
}

/// A quotient is bounded by the numbers that bound the exact quotient.
pub proof fn lemma_div(a: Binary32, b: Binary32, c: Binary32)
    requires
        a.finite(),
        b.finite(),
        b.size() > 0,
        !c.nan(),
    ensures
        !a.div(b).nan(),
        a.div(b).negative() == (a.negative() != b.negative()),
        a.size() * pow2(149) <= c.size() * b.size() ==> a.div(b).size() <= c.size(),
        a.size() * pow2(149) >= c.size() * b.size() ==> a.div(b).size() >= c.size(),
{
    reveal(Binary32::spec_div);
    rounding::lemma_magnitude_zero();
    lemma_rounded(a.negative() != b.negative(), a.size() * pow2(149), b.size(), c);
}

/// The number 2^(e - 149), whose size is 2^e.
pub open spec fn power(e: nat) -> Binary32 {
    Binary32 { bits: ((e - 22) * 0x80_0000) as u32 }
}

pub proof fn lemma_power(e: nat)
    requires
        23 <= e <= 276,
    ensures
        power(e).size() == pow2(e),
        power(e).value() == pow2(e),
        power(e).finite(),
        !power(e).negative(),
{
    Binary32::lemma_value_of(power(e), (e - 22) as nat, 0);
    lemma2_to64();
    lemma_pow2_adds(23, (e - 23) as nat);
}

/// A finite number of size at most 2^e.
pub open spec fn within(x: Binary32, e: nat) -> bool {
    &&& x.finite()
    &&& x.size() <= pow2(e)
}

/// What is no larger than a finite number is finite.
pub proof fn lemma_finite(x: Binary32, c: Binary32)
    requires
        !x.nan(),
        c.finite(),
        x.size() <= c.size(),
    ensures
        x.finite(),
{
    rounding::lemma_magnitude_order(x.pattern(), c.pattern());
}

pub proof fn lemma_within_weaken(x: Binary32, e: nat, f: nat)
    requires
        within(x, e),
        e <= f,
    ensures
        within(x, f),
{
    rounding::lemma_pow2_order(e, f);
}

pub proof fn lemma_within_add(a: Binary32, b: Binary32, e: nat)
    requires
        within(a, e),
        within(b, e),
        22 <= e <= 275,
    ensures
        within(a.add(b), (e + 1) as nat),
        within(a.sub(b), (e + 1) as nat),
{
    let c = power((e + 1) as nat);
    lemma_power((e + 1) as nat);
    lemma_pow2_unfold((e + 1) as nat);
    lemma_neg(c);
    lemma_add(a, b, c);
    lemma_add(a, b, c.neg());
    lemma_sub(a, b, c);
    lemma_sub(a, b, c.neg());
    lemma_finite(a.add(b), c);
    lemma_finite(a.sub(b), c);
}

pub proof fn lemma_within_mul(a: Binary32, b: Binary32, e: nat, f: nat)
    requires
        within(a, e),
        within(b, f),
        172 <= e + f <= 425,
    ensures
        within(a.mul(b), (e + f - 149) as nat),
{
    let g = (e + f - 149) as nat;
    let c = power(g);
    lemma_power(g);
    lemma_pow2_adds(e, f);
    lemma_pow2_adds(g, 149);
    assert(a.size() * b.size() <= pow2(g) * pow2(149)) by (nonlinear_arith)
        requires
            a.size() <= pow2(e),
            b.size() <= pow2(f),
            pow2(e) * pow2(f) == pow2(g) * pow2(149),
    ;
    lemma_mul(a, b, c);
    lemma_finite(a.mul(b), c);
}

pub proof fn lemma_within_div(a: Binary32, b: Binary32, e: nat, f: nat)
    requires
        within(a, e),
        b.finite(),
        b.size() >= pow2(f),
        23 <= e + 149 - f <= 276,
    ensures
        within(a.div(b), (e + 149 - f) as nat),
{
    let g = (e + 149 - f) as nat;
    let c = power(g);
    lemma_power(g);
    lemma_pow2_pos(f);
    lemma_pow2_adds(e, 149);
    lemma_pow2_adds(g, f);
    assert(a.size() * pow2(149) <= pow2(g) * b.size()) by (nonlinear_arith)
        requires
            a.size() <= pow2(e),
            b.size() >= pow2(f),
            pow2(e) * pow2(149) == pow2(g) * pow2(f),
    ;
    lemma_div(a, b, c);
    lemma_finite(a.div(b), c);
}

/// A positive pattern up to a power of two's stands for a number up to that
/// power.
pub proof fn lemma_within_bits(x: Binary32, e: nat)
    requires
        23 <= e <= 276,
        x.bits <= (e - 22) * 0x80_0000,
    ensures
        within(x, e),
        !x.negative(),
        x.value() == x.size(),
{
    lemma_power(e);
    rounding::lemma_magnitude_order(x.pattern(), power(e).pattern());
}

/// One step of evaluating a polynomial with non-negative coefficients on
/// [0, 1].
pub proof fn lemma_horner(c: Binary32, f: Binary32, p: Binary32, e: nat)
    requires
        22 <= e <= 275,
        within(c, e),
        within(p, e),
        f.finite(),
        0 <= f.value() <= pow2(149),
        0 <= c.value(),
        0 <= p.value(),
    ensures
        within(c.add(f.mul(p)), (e + 1) as nat),
        c.add(f.mul(p)).value() >= c.value(),
{
    let product = f.mul(p);
    let none = Binary32 { bits: 0 };
    rounding::lemma_magnitude_zero();
    assert(f.size() * p.size() <= p.size() * pow2(149)) by (nonlinear_arith)
        requires
            f.size() <= pow2(149),
    ;
    lemma_mul(f, p, p);
    lemma_finite(product, p);
    if f.size() == 0 || p.size() == 0 {
        assert(f.size() * p.size() == 0) by (nonlinear_arith)
            requires
                f.size() == 0 || p.size() == 0,
        ;
        assert(none.size() * pow2(149) == 0) by (nonlinear_arith)
            requires
                none.size() == 0,
        ;
        lemma_mul(f, p, none);
    }
    assert(product.value() >= 0);
    lemma_within_add(c, product, e);
    lemma_add(c, product, c);
}

/// A sum keeps its sign and is off by at most one part in 2^24.
pub proof fn lemma_add_error(a: Binary32, b: Binary32)
    requires
        a.finite(),
        b.finite(),
        a.add(b).finite(),
    ensures
        ({
            let sum = a.value() + b.value();
            let r = a.add(b).value();
            &&& sum >= 0 ==> 0xff_ffff * sum <= 0x100_0000 * r <= 0x100_0001 * sum
            &&& sum <= 0 ==> 0x100_0001 * sum <= 0x100_0000 * r <= 0xff_ffff * sum
        }),
{
    reveal(Binary32::spec_add);
    rounding::lemma_magnitude_zero();
    let sum = a.value() + b.value();
    lemma_signed(a.negative() && b.negative(), 0);
    if sum != 0 {
        let n: nat = if sum < 0 {
            (-sum) as nat
        } else {
            sum as nat
        };
        let c = Binary32 { bits: 0 };
        lemma_rounded(sum < 0, n, 1, c);
        let p = rounding::round_ratio(n, 1);
        assert(a.add(b).pattern() == p);
        assert(rounding::magnitude(p) * 1 == rounding::magnitude(p)) by (nonlinear_arith);
        if n < 0x80_0000 {
            lemma2_to64();
            rounding::lemma_round_ratio_product(n, 0);
            assert(n * pow2(0) == n) by (nonlinear_arith)
                requires
                    pow2(0) == 1,
            ;
        } else {
            rounding::lemma_round_error(n, 1);
        }
    }
}

/// A product above the subnormals is off by at most one part in 2^24.
pub proof fn lemma_mul_error(a: Binary32, b: Binary32)
    requires
        a.finite(),
        b.finite(),
        a.mul(b).finite(),
        a.size() * b.size() >= 0x80_0000 * pow2(149),
    ensures
        0x100_0000 * (a.mul(b).size() * pow2(149)) <= 0x100_0001 * (a.size() * b.size()),
        0x100_0000 * (a.mul(b).size() * pow2(149)) >= 0xff_ffff * (a.size() * b.size()),
{
    reveal(Binary32::spec_mul);
    lemma_pow2_pos(149);
    let num = a.size() * b.size();
    let p = rounding::round_ratio(num, pow2(149));
    lemma_rounded(a.negative() != b.negative(), num, pow2(149), a);
    lemma_signed(a.negative() != b.negative(), p);
    rounding::lemma_round_error(num, pow2(149));
}

/// A quotient above the subnormals is off by at most one part in 2^24.
pub proof fn lemma_div_error(a: Binary32, b: Binary32)
    requires
        a.finite(),
        b.finite(),
        b.size() > 0,
        a.div(b).finite(),
        a.size() * pow2(149) >= 0x80_0000 * b.size(),
    ensures
        0x100_0000 * (a.div(b).size() * b.size()) <= 0x100_0001 * (a.size() * pow2(149)),
        0x100_0000 * (a.div(b).size() * b.size()) >= 0xff_ffff * (a.size() * pow2(149)),
{
    reveal(Binary32::spec_div);
    rounding::lemma_magnitude_zero();
    let num = a.size() * pow2(149);
    let p = rounding::round_ratio(num, b.size());
    lemma_rounded(a.negative() != b.negative(), num, b.size(), a);
    lemma_signed(a.negative() != b.negative(), p);
    rounding::lemma_round_error(num, b.size());
}

/// A sum that needs no more than 24 bits is exact.
pub proof fn lemma_add_exact(a: Binary32, b: Binary32)
    requires
        a.finite(),
        b.finite(),
        -0x100_0000 < a.value() + b.value() < 0x100_0000,
    ensures
        a.add(b).finite(),
        a.add(b).value() == a.value() + b.value(),
{
    reveal(Binary32::spec_add);
    rounding::lemma_magnitude_zero();
    let sum = a.value() + b.value();
    lemma_signed(a.negative() && b.negative(), 0);
    let n: nat = if sum < 0 {
        (-sum) as nat
    } else {
        sum as nat
    };
    lemma2_to64();
    rounding::lemma_round_ratio_product(n, 0);
    assert(n * pow2(0) == n) by (nonlinear_arith)
        requires
            pow2(0) == 1,
    ;
    if sum != 0 {
        lemma_signed(sum < 0, rounding::round_ratio(n, 1));
    }
}

/// Up to seven eighths of a rounded difference is no more than the exact
/// difference: what rounding adds, the eighth left out makes up for.
proof fn lemma_step(from: Binary32, to: Binary32, t: Binary32)
    requires
        from.finite(),
        to.finite(),
        to.sub(from).finite(),
        t.finite(),
        0 <= t.value(),
        8 * t.value() <= 7 * pow2(149),
    ensures
        ({
            let gap = to.value() - from.value();
            let x = t.mul(to.sub(from));
            &&& x.finite()
            &&& gap >= 0 ==> 0 <= x.value() <= gap
            &&& gap <= 0 ==> gap <= x.value() <= 0
        }),
{
    let gap = to.value() - from.value();
    let d = to.sub(from);
    let x = t.mul(d);
    let unit = pow2(149);
    lemma_pow2_pos(149);
    lemma_neg(from);
    lemma_add_error(to, from.neg());
    let size: int = if gap < 0 {
        -gap
    } else {
        gap
    };
    let num = t.size() * d.size();
    assert(8 * num <= 7 * (d.size() * unit)) by (nonlinear_arith)
        requires
            8 * t.size() <= 7 * unit,
            num == t.size() * d.size(),
    ;
    lemma_mul(t, d, d);
    lemma_finite(x, d);
    assert(x.size() <= size) by {
        if size < 0x100_0000 {
            lemma_add_exact(to, from.neg());
        } else {
            let small = power(23);
            lemma_power(23);
            lemma2_to64();
            if num <= 0x80_0000 * unit {
                assert(small.size() * pow2(149) == 0x80_0000 * unit) by (nonlinear_arith)
                    requires
                        small.size() == 0x80_0000,
                        unit == pow2(149),
                ;
                lemma_mul(t, d, small);
            } else {
                lemma_mul_error(t, d);
                let scaled = x.size() * unit;
                let whole = d.size() * unit;
                assert(0x100_0000 * scaled <= 0x100_0001 * num);
                assert(0x800_0000 * scaled <= 0x700_0007 * whole);
                assert(0x800_0000 * x.size() <= 0x700_0007 * d.size()) by (nonlinear_arith)
                    requires
                        0x800_0000 * (x.size() * unit) <= 0x700_0007 * (d.size() * unit),
                        unit > 0,
                ;
            }
        }
    }
    if d.size() == 0 || t.size() == 0 {
        let none = Binary32 { bits: 0 };
        rounding::lemma_magnitude_zero();
        assert(num == 0 && none.size() * unit == 0) by (nonlinear_arith)
            requires
                d.size() == 0 || t.size() == 0,
                num == t.size() * d.size(),
                none.size() == 0,
        ;
        lemma_mul(t, d, none);
    }
}

/// Going up to seven eighths of the way from one number to another ends
/// between them, rounding and all.
pub proof fn law_between(from: Binary32, to: Binary32, t: Binary32)
    requires
        from.finite(),
        to.finite(),
        to.sub(from).finite(),
        t.finite(),
        0 <= t.value(),
        8 * t.value() <= 7 * pow2(149),
    ensures
        ({
            let r = from.add(t.mul(to.sub(from)));
            &&& r.finite()
            &&& from.value() <= to.value() ==> from.value() <= r.value() <= to.value()
            &&& to.value() <= from.value() ==> to.value() <= r.value() <= from.value()
        }),
{
    let x = t.mul(to.sub(from));
    let r = from.add(x);
    lemma_step(from, to, t);
    lemma_add(from, x, from);
    lemma_add(from, x, to);
    if r.size() <= from.size() {
        lemma_finite(r, from);
    } else {
        lemma_finite(r, to);
    }
}

/// Adding a zero changes nothing, unless both are zeros of different signs.
pub proof fn lemma_add_zero(a: Binary32, b: Binary32)
    requires
        a.finite(),
        b.pattern() == 0,
        a.pattern() == 0 ==> !a.negative(),
    ensures
        a.add(b) == a,
{
    reveal(Binary32::spec_add);
    rounding::lemma_magnitude_zero();
    rounding::lemma_magnitude_order(0, a.pattern());
    rounding::lemma_round_ratio_exact(a.pattern());
}

/// Multiplying by one changes nothing.
pub proof fn lemma_mul_one(a: Binary32)
    requires
        a.finite(),
    ensures
        power(149).mul(a) == a,
{
    reveal(Binary32::spec_mul);
    lemma_power(149);
    lemma_pow2_pos(149);
    rounding::lemma_round_ratio_scale(a.size(), 1, pow2(149));
    assert(pow2(149) * 1 == pow2(149)) by (nonlinear_arith);
    rounding::lemma_round_ratio_exact(a.pattern());
}

/// A product of a zero and a number is a zero.
pub proof fn lemma_mul_zero(a: Binary32, b: Binary32)
    requires
        a.finite(),
        b.finite(),
        a.pattern() == 0 || b.pattern() == 0,
    ensures
        a.mul(b).pattern() == 0,
{
    reveal(Binary32::spec_mul);
    rounding::lemma_magnitude_zero();
    lemma_pow2_pos(149);
    let num = a.size() * b.size();
    assert(num == 0) by (nonlinear_arith)
        requires
            a.size() == 0 || b.size() == 0,
            num == a.size() * b.size(),
    ;
    rounding::lemma_round_ratio_scale(0, 1, pow2(149));
    assert(pow2(149) * 0 == 0 && pow2(149) * 1 == pow2(149)) by (nonlinear_arith);
    lemma_signed(a.negative() != b.negative(), 0);
}

} // verus!
