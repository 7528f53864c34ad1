//! Rounding of a non-negative rational to a 24-bit significand.
//!
//! Everything here is about naturals: `num / den` is the exact magnitude, in
//! units of the smallest positive binary32 number, and the result is the
//! bit pattern (without the sign) of the binary32 number nearest to it, ties
//! going to the even significand.
use vstd::arithmetic::div_mod::*;
use vstd::arithmetic::power2::*;
use vstd::prelude::*;

verus! {

/// The bit pattern of infinity, which is one past the largest finite one.
pub const INFINITY_BITS: u32 = 0x7f80_0000;

/// How often the denominator must double before `num / den` fits 24 bits.
pub open spec fn binade(num: nat, den: nat) -> nat
    decreases (if num >= den * 0x100_0000 { num - den * 0x100_0000 + 1 } else { 0int }),
{
    if den == 0 || num < den * 0x100_0000 {
        0
    } else {
        1 + binade(num, 2 * den)
    }
}

/// The integer nearest to `num / den`, a tie going to the even one.
pub open spec fn nearest_even(num: nat, den: nat) -> nat {
    let q = num / den;
    let r = num % den;
    if 2 * r < den || (2 * r == den && q % 2 == 0) {
        q
    } else {
        q + 1
    }
}

/// The bit pattern of the binary32 magnitude nearest to `num / den`.
///
/// A pattern is the binade times 2^23 plus the significand, which makes a
/// significand that rounds up to 2^24 run over into the next binade by
/// itself. What lies beyond the last finite pattern is infinity.
pub open spec fn round_ratio(num: nat, den: nat) -> nat {
    let e = binade(num, den);
    let bits = e * 0x80_0000 + nearest_even(num, den * pow2(e));
    if bits < INFINITY_BITS {
        bits
    } else {
        INFINITY_BITS as nat
    }
}

/// Binade of a bit pattern: zero for subnormals and for the first normals.
pub open spec fn pattern_binade(bits: nat) -> nat {
    if bits < 0x80_0000 {
        0
    } else {
        (bits / 0x80_0000 - 1) as nat
    }
}

/// Significand of a bit pattern, with the hidden bit of a normal number.
pub open spec fn pattern_significand(bits: nat) -> nat {
    if bits < 0x80_0000 {
        bits
    } else {
        bits % 0x80_0000 + 0x80_0000
    }
}

/// The magnitude a bit pattern stands for, in units of 2^-149.
pub open spec fn magnitude(bits: nat) -> nat {
    pattern_significand(bits) * pow2(pattern_binade(bits))
}

/// `binade` is the least exponent at which the quotient fits 24 bits.
pub proof fn lemma_binade(num: nat, den: nat)
    requires
        den > 0,
    ensures
        num < den * pow2(binade(num, den) + 24),
        binade(num, den) > 0 ==> num >= den * pow2((binade(num, den) + 23) as nat),
    decreases (if num >= den * 0x100_0000 { num - den * 0x100_0000 + 1 } else { 0int }),
{
    lemma2_to64();
    if num < den * 0x100_0000 {
    } else {
        lemma_binade(num, 2 * den);
        let e = binade(num, 2 * den);
        lemma_pow2_unfold((e + 25) as nat);
        lemma_pow2_unfold((e + 24) as nat);
        assert(2 * den * pow2((e + 24) as nat) == den * pow2((e + 25) as nat)) by (nonlinear_arith)
            requires
                pow2((e + 25) as nat) == 2 * pow2((e + 24) as nat),
        ;
        assert(2 * den * pow2((e + 23) as nat) == den * pow2((e + 24) as nat)) by (nonlinear_arith)
            requires
                pow2((e + 24) as nat) == 2 * pow2((e + 23) as nat),
        ;
    }
}

pub proof fn lemma_pow2_order(a: nat, b: nat)
    requires
        a <= b,
    ensures
        0 < pow2(a) <= pow2(b),
{
    lemma_pow2_pos(a);
    if a < b {
        lemma_pow2_strictly_increases(a, b);
    }
}

/// The two bounds of `lemma_binade` determine the exponent.
pub proof fn lemma_binade_unique(num: nat, den: nat, e: nat)
    requires
        den > 0,
        num < den * pow2((e + 24) as nat),
        e > 0 ==> num >= den * pow2((e + 23) as nat),
    ensures
        binade(num, den) == e,
{
    lemma_binade(num, den);
    let b = binade(num, den);
    if b < e {
        lemma_pow2_order((b + 24) as nat, (e + 23) as nat);
        assert(den * pow2((b + 24) as nat) <= den * pow2((e + 23) as nat)) by (nonlinear_arith)
            requires
                pow2((b + 24) as nat) <= pow2((e + 23) as nat),
        ;
    } else if e < b {
        lemma_pow2_order((e + 24) as nat, (b + 23) as nat);
        assert(den * pow2((e + 24) as nat) <= den * pow2((b + 23) as nat)) by (nonlinear_arith)
            requires
                pow2((e + 24) as nat) <= pow2((b + 23) as nat),
        ;
    }
}

/// `nearest_even` from a quotient and a remainder.
pub proof fn lemma_nearest_even_from(num: nat, den: nat, q: nat, r: nat)
    requires
        r < den,
        num == q * den + r,
    ensures
        num / den == q,
        num % den == r,
        nearest_even(num, den) == (if 2 * r < den || (2 * r == den && q % 2 == 0) {
            q
        } else {
            q + 1
        }),
{
    lemma_fundamental_div_mod_converse(num as int, den as int, q as int, r as int);
}

pub proof fn lemma_nearest_even_monotone(n1: nat, d1: nat, n2: nat, d2: nat)
    requires
        d1 > 0,
        d2 > 0,
        n1 * d2 <= n2 * d1,
    ensures
        nearest_even(n1, d1) <= nearest_even(n2, d2),
{
    let q1 = n1 / d1;
    let r1 = n1 % d1;
    let q2 = n2 / d2;
    let r2 = n2 % d2;
    lemma_fundamental_div_mod(n1 as int, d1 as int);
    lemma_fundamental_div_mod(n2 as int, d2 as int);
    lemma_mod_bound(n1 as int, d1 as int);
    lemma_mod_bound(n2 as int, d2 as int);
    assert(q1 <= q2) by (nonlinear_arith)
        requires
            n1 * d2 <= n2 * d1,
            n1 == d1 * q1 + r1,
            n2 == d2 * q2 + r2,
            0 <= r1 < d1,
            0 <= r2 < d2,
    ;
    if q1 == q2 {
        assert(r1 * d2 <= r2 * d1) by (nonlinear_arith)
            requires
                n1 * d2 <= n2 * d1,
                n1 == d1 * q1 + r1,
                n2 == d2 * q2 + r2,
                q1 == q2,
        ;
        assert(2 * r2 < d2 ==> 2 * r1 < d1) by (nonlinear_arith)
            requires
                r1 * d2 <= r2 * d1,
                d1 > 0,
                d2 > 0,
        ;
        assert(2 * r2 == d2 ==> 2 * r1 <= d1) by (nonlinear_arith)
            requires
                r1 * d2 <= r2 * d1,
                d1 > 0,
                d2 > 0,
        ;
    }
}

pub proof fn lemma_nearest_even_exact(q: nat, den: nat)
    requires
        den > 0,
    ensures
        nearest_even(q * den, den) == q,
{
    lemma_nearest_even_from(q * den, den, q, 0);
}

pub proof fn lemma_nearest_even_scale(num: nat, den: nat, k: nat)
    requires
        den > 0,
        k > 0,
    ensures
        nearest_even(k * num, k * den) == nearest_even(num, den),
{
    lemma_mul_pos(k, den);
    assert((k * num) * den == num * (k * den)) by (nonlinear_arith);
    lemma_nearest_even_monotone(k * num, k * den, num, den);
    lemma_nearest_even_monotone(num, den, k * num, k * den);
}

pub proof fn lemma_mul_pos(a: nat, b: nat)
    requires
        a > 0,
        b > 0,
    ensures
        a * b > 0,
{
    assert(a * b > 0) by (nonlinear_arith)
        requires
            a > 0,
            b > 0,
    ;
}

/// The significand that `round_ratio` picks: at most 2^24, and at least 2^23
/// outside the lowest binade.
pub proof fn lemma_significand_range(num: nat, den: nat)
    requires
        den > 0,
    ensures
        ({
            let e = binade(num, den);
            let m = nearest_even(num, den * pow2(e));
            &&& m <= 0x100_0000
            &&& e > 0 ==> m >= 0x80_0000
            &&& den * pow2(e) > 0
        }),
{
    let e = binade(num, den);
    lemma2_to64();
    lemma_binade(num, den);
    lemma_pow2_pos(e);
    let d = den * pow2(e);
    lemma_mul_pos(den, pow2(e));
    lemma_pow2_adds(e, 24);
    assert(num <= 0x100_0000 * d) by (nonlinear_arith)
        requires
            num < den * pow2((e + 24) as nat),
            pow2((e + 24) as nat) == pow2(e) * 0x100_0000,
            d == den * pow2(e),
    ;
    lemma_nearest_even_exact(0x100_0000, d);
    assert(num * d <= (0x100_0000 * d) * d) by (nonlinear_arith)
        requires
            num <= 0x100_0000 * d,
    ;
    lemma_nearest_even_monotone(num, d, (0x100_0000 * d) as nat, d);
    if e > 0 {
        lemma_pow2_adds(e, 23);
        assert(num >= 0x80_0000 * d) by (nonlinear_arith)
            requires
                num >= den * pow2((e + 23) as nat),
                pow2((e + 23) as nat) == pow2(e) * 0x80_0000,
                d == den * pow2(e),
        ;
        lemma_nearest_even_exact(0x80_0000, d);
        assert((0x80_0000 * d) * d <= num * d) by (nonlinear_arith)
            requires
                num >= 0x80_0000 * d,
        ;
        lemma_nearest_even_monotone((0x80_0000 * d) as nat, d, num, d);
    }
}

/// Rounding depends on the ratio alone.
pub proof fn lemma_round_ratio_scale(num: nat, den: nat, k: nat)
    requires
        den > 0,
        k > 0,
    ensures
        round_ratio(k * num, k * den) == round_ratio(num, den),
        binade(k * num, k * den) == binade(num, den),
{
    let e = binade(num, den);
    lemma_binade(num, den);
    lemma_mul_pos(k, den);
    lemma_pow2_pos(e);
    lemma_mul_pos(den, pow2(e));
    assert(k * num < (k * den) * pow2((e + 24) as nat)) by (nonlinear_arith)
        requires
            num < den * pow2((e + 24) as nat),
            k > 0,
    ;
    if e > 0 {
        assert(k * num >= (k * den) * pow2((e + 23) as nat)) by (nonlinear_arith)
            requires
                num >= den * pow2((e + 23) as nat),
                k > 0,
        ;
    }
    lemma_binade_unique(k * num, k * den, e);
    assert((k * den) * pow2(e) == k * (den * pow2(e))) by (nonlinear_arith);
    lemma_nearest_even_scale(num, den * pow2(e), k);
}

/// A larger ratio never rounds to a smaller number.
pub proof fn lemma_round_ratio_monotone(n1: nat, d1: nat, n2: nat, d2: nat)
    requires
        d1 > 0,
        d2 > 0,
        n1 * d2 <= n2 * d1,
    ensures
        round_ratio(n1, d1) <= round_ratio(n2, d2),
{
    let a1 = n1 * d2;
    let a2 = n2 * d1;
    let d = d1 * d2;
    lemma_mul_pos(d1, d2);
    assert(d2 * n1 == a1 && d2 * d1 == d && d1 * n2 == a2) by (nonlinear_arith)
        requires
            a1 == n1 * d2,
            a2 == n2 * d1,
            d == d1 * d2,
    ;
    lemma_round_ratio_scale(n1, d1, d2);
    lemma_round_ratio_scale(n2, d2, d1);
    let e1 = binade(a1, d);
    let e2 = binade(a2, d);
    lemma_binade(a1, d);
    lemma_binade(a2, d);
    if e2 < e1 {
        lemma_pow2_order((e2 + 24) as nat, (e1 + 23) as nat);
        assert(d * pow2((e2 + 24) as nat) <= d * pow2((e1 + 23) as nat)) by (nonlinear_arith)
            requires
                pow2((e2 + 24) as nat) <= pow2((e1 + 23) as nat),
        ;
        assert(false);
    }
    lemma_significand_range(a1, d);
    lemma_significand_range(a2, d);
    if e1 == e2 {
        let dd = d * pow2(e1);
        assert(a1 * dd <= a2 * dd) by (nonlinear_arith)
            requires
                a1 <= a2,
        ;
        lemma_nearest_even_monotone(a1, dd, a2, dd);
    }
}

/// Parts of a bit pattern put together again.
pub proof fn lemma_pattern_parts(bits: nat)
    ensures
        pattern_significand(bits) < 0x100_0000,
        pattern_binade(bits) > 0 ==> pattern_significand(bits) >= 0x80_0000,
        bits >= 0x80_0000 ==> pattern_significand(bits) >= 0x80_0000,
        bits == pattern_binade(bits) * 0x80_0000 + pattern_significand(bits),
        bits <= INFINITY_BITS ==> pattern_binade(bits) <= 254,
        bits < INFINITY_BITS ==> pattern_binade(bits) <= 253,
{
}

/// Every representable magnitude rounds to itself.
pub proof fn lemma_round_ratio_exact(bits: nat)
    requires
        bits <= INFINITY_BITS,
    ensures
        round_ratio(magnitude(bits), 1) == bits,
{
    let m = pattern_significand(bits);
    let e = pattern_binade(bits);
    lemma_pattern_parts(bits);
    lemma_pow2_pos(e);
    lemma2_to64();
    lemma_pow2_adds(e, 24);
    lemma_pow2_adds(e, 23);
    assert(m * pow2(e) < pow2((e + 24) as nat)) by (nonlinear_arith)
        requires
            m < 0x100_0000,
            pow2(e) > 0,
            pow2((e + 24) as nat) == pow2(e) * 0x100_0000,
    ;
    if e > 0 {
        assert(m * pow2(e) >= pow2((e + 23) as nat)) by (nonlinear_arith)
            requires
                m >= 0x80_0000,
                pow2(e) > 0,
                pow2((e + 23) as nat) == pow2(e) * 0x80_0000,
        ;
    }
    lemma_binade_unique(magnitude(bits), 1, e);
    lemma_nearest_even_exact(m, pow2(e));
}

pub proof fn lemma_magnitude_zero()
    ensures
        magnitude(0) == 0,
        round_ratio(0, 1) == 0,
{
    let e = pattern_binade(0);
    let m = pattern_significand(0);
    assert(m * pow2(e) == 0) by (nonlinear_arith)
        requires
            m == 0,
    ;
    lemma_round_ratio_exact(0);
}

/// Bit patterns are ordered as the magnitudes they stand for.
pub proof fn lemma_magnitude_order(a: nat, b: nat)
    requires
        a <= INFINITY_BITS,
        b <= INFINITY_BITS,
    ensures
        a < b <==> magnitude(a) < magnitude(b),
        a == b <==> magnitude(a) == magnitude(b),
{
    lemma_round_ratio_exact(a);
    lemma_round_ratio_exact(b);
    if magnitude(a) <= magnitude(b) {
        lemma_round_ratio_monotone(magnitude(a), 1, magnitude(b), 1);
    }
    if magnitude(b) <= magnitude(a) {
        lemma_round_ratio_monotone(magnitude(b), 1, magnitude(a), 1);
    }
}

/// A ratio bounded by a representable magnitude rounds to one so bounded.
pub proof fn lemma_round_ratio_bound(num: nat, den: nat, bits: nat)
    requires
        den > 0,
        bits <= INFINITY_BITS,
    ensures
        num <= magnitude(bits) * den ==> round_ratio(num, den) <= bits,
        num >= magnitude(bits) * den ==> round_ratio(num, den) >= bits,
{
    lemma_round_ratio_exact(bits);
    if num <= magnitude(bits) * den {
        lemma_round_ratio_monotone(num, den, magnitude(bits), 1);
    }
    if num >= magnitude(bits) * den {
        lemma_round_ratio_monotone(magnitude(bits), 1, num, den);
    }
}

/// A 24-bit significand at any scale is representable: rounding keeps it.
pub proof fn lemma_round_ratio_product(m: nat, e: nat)
    requires
        m < 0x100_0000,
        e <= 253,
    ensures
        magnitude(round_ratio(m * pow2(e), 1)) == m * pow2(e),
        round_ratio(m * pow2(e), 1) < INFINITY_BITS,
{
    let n = m * pow2(e);
    let b = binade(n, 1);
    lemma_binade(n, 1);
    lemma2_to64();
    lemma_pow2_pos(e);
    lemma_pow2_adds(e, 24);
    assert(n < pow2((e + 24) as nat)) by (nonlinear_arith)
        requires
            n == m * pow2(e),
            m < 0x100_0000,
            pow2((e + 24) as nat) == pow2(e) * 0x100_0000,
            pow2(e) > 0,
    ;
    if b > e {
        lemma_pow2_order((e + 24) as nat, (b + 23) as nat);
        assert(false);
    }
    let up = (e - b) as nat;
    let k = m * pow2(up);
    lemma_pow2_adds(up, b);
    lemma_pow2_pos(b);
    assert(n == k * pow2(b)) by (nonlinear_arith)
        requires
            n == m * pow2(e),
            k == m * pow2(up),
            pow2(e) == pow2(up) * pow2(b),
    ;
    lemma_nearest_even_exact(k, pow2(b));
    lemma_pow2_adds(b, 24);
    lemma_pow2_adds(b, 23);
    assert(k < 0x100_0000) by (nonlinear_arith)
        requires
            n == k * pow2(b),
            n < pow2((b + 24) as nat),
            pow2((b + 24) as nat) == pow2(b) * 0x100_0000,
            pow2(b) > 0,
    ;
    if b > 0 {
        assert(k >= 0x80_0000) by (nonlinear_arith)
            requires
                n == k * pow2(b),
                n >= pow2((b + 23) as nat),
                pow2((b + 23) as nat) == pow2(b) * 0x80_0000,
                pow2(b) > 0,
        ;
    }
    let bits = b * 0x80_0000 + k;
    assert(bits < INFINITY_BITS);
    lemma_pattern_parts(bits);
    assert(pattern_binade(bits) == b && pattern_significand(bits) == k) by {
        if bits >= 0x80_0000 {
            if b == 0 {
                assert(bits / 0x80_0000 == 1);
            } else {
                assert(bits == (b + 1) * 0x80_0000 + (k - 0x80_0000));
                lemma_fundamental_div_mod_converse(
                    bits as int,
                    0x80_0000,
                    (b + 1) as int,
                    k - 0x80_0000,
                );
            }
        }
    }
}

/// The magnitude of a pattern put together from a binade and a significand,
/// which may have rounded up to 2^24.
pub proof fn lemma_magnitude_of_parts(e: nat, m: nat)
    requires
        m <= 0x100_0000,
        e > 0 ==> m >= 0x80_0000,
    ensures
        magnitude(e * 0x80_0000 + m) == m * pow2(e),
{
    let bits = e * 0x80_0000 + m;
    if m == 0x100_0000 {
        assert(bits == (e + 2) * 0x80_0000);
        lemma_fundamental_div_mod_converse(bits as int, 0x80_0000, (e + 2) as int, 0);
        lemma_pow2_unfold((e + 1) as nat);
        assert(0x80_0000 * pow2((e + 1) as nat) == 0x100_0000 * pow2(e)) by (nonlinear_arith)
            requires
                pow2((e + 1) as nat) == 2 * pow2(e),
        ;
    } else if m >= 0x80_0000 {
        assert(bits == (e + 1) * 0x80_0000 + (m - 0x80_0000));
        lemma_fundamental_div_mod_converse(
            bits as int,
            0x80_0000,
            (e + 1) as int,
            m - 0x80_0000,
        );
    }
}

/// Rounding moves a number above the subnormals by at most one part in 2^24.
pub proof fn lemma_round_error(num: nat, den: nat)
    requires
        den > 0,
        round_ratio(num, den) < INFINITY_BITS,
        num >= 0x80_0000 * den,
    ensures
        0x100_0000 * (magnitude(round_ratio(num, den)) * den) <= 0x100_0001 * num,
        0x100_0000 * (magnitude(round_ratio(num, den)) * den) >= 0xff_ffff * num,
{
    let e = binade(num, den);
    let d = den * pow2(e);
    let m = nearest_even(num, d);
    lemma_significand_range(num, den);
    lemma_magnitude_of_parts(e, m);
    let q = num / d;
    lemma_fundamental_div_mod(num as int, d as int);
    lemma_mod_bound(num as int, d as int);
    lemma2_to64();
    lemma_binade(num, den);
    lemma_pow2_adds(e, 23);
    assert(num >= 0x80_0000 * d) by {
        if e > 0 {
            assert(num >= 0x80_0000 * d) by (nonlinear_arith)
                requires
                    num >= den * pow2((e + 23) as nat),
                    pow2((e + 23) as nat) == pow2(e) * 0x80_0000,
                    d == den * pow2(e),
            ;
        } else {
            assert(d == den) by (nonlinear_arith)
                requires
                    d == den * pow2(e),
                    pow2(e) == 1,
            ;
        }
    }
    let back = magnitude(round_ratio(num, den)) * den;
    assert(back == m * d) by (nonlinear_arith)
        requires
            back == (m * pow2(e)) * den,
            d == den * pow2(e),
    ;
    assert(d * q == q * d && (q + 1) * d == q * d + d) by (nonlinear_arith);
    assert(2 * (m * d) <= 2 * num + d && 2 * (m * d) + d >= 2 * num);
}

/// Rounding moves any number by at most one part in 2^24 and one unit.
pub proof fn lemma_round_error_any(num: nat, den: nat)
    requires
        den > 0,
        round_ratio(num, den) < INFINITY_BITS,
    ensures
        0x100_0000 * (magnitude(round_ratio(num, den)) * den) <= 0x100_0001 * num + 0x100_0000
            * den,
        0x100_0000 * (magnitude(round_ratio(num, den)) * den) + 0x100_0000 * den >= 0xff_ffff
            * num,
{
    if num >= 0x80_0000 * den {
        lemma_round_error(num, den);
    } else {
        lemma2_to64();
        let d = den * pow2(0);
        assert(d == den) by (nonlinear_arith)
            requires
                d == den * pow2(0),
                pow2(0) == 1,
        ;
        lemma_binade_unique(num, den, 0);
        let m = nearest_even(num, den);
        lemma_significand_range(num, den);
        lemma_magnitude_of_parts(0, m);
        let q = num / den;
        lemma_fundamental_div_mod(num as int, den as int);
        lemma_mod_bound(num as int, den as int);
        assert(den * q == q * den && (q + 1) * den == q * den + den) by (nonlinear_arith);
        assert(m * pow2(0) == m) by (nonlinear_arith)
            requires
                pow2(0) == 1,
        ;
        assert(m * den <= num + den && m * den + den >= num);
    }
}

/// Rounding is to the nearest whole number, and to the even one of two that
/// are equally near.
pub proof fn law_rounding_is_to_nearest_even(num: nat, den: nat)
    requires
        den > 0,
    ensures
        ({
            let off = 2 * (nearest_even(num, den) * den - num);
            &&& -den <= off <= den
            &&& off == den || off == -den ==> nearest_even(num, den) % 2 == 0
        }),
{
    let q = num / den;
    lemma_fundamental_div_mod(num as int, den as int);
    lemma_mod_bound(num as int, den as int);
    assert(den * q == q * den && (q + 1) * den == q * den + den) by (nonlinear_arith);
}

} // verus!
