//! IEEE 754 binary32 arithmetic on bit patterns, in integers alone.
//!
//! The vocoder is specified in single precision, and its bitstream depends
//! on the last bit of that arithmetic. Carrying the numbers as patterns and
//! computing on them with integers gives the same result on every target,
//! with or without a floating-point unit, and lets every operation state
//! exactly what it returns: the exact real result, rounded once to the
//! nearest binary32 number, ties to even.
use crate::rounding;
use vstd::arithmetic::power2::*;
use vstd::bits::*;
use vstd::prelude::*;
use vstd::std_specs::bits::*;

verus! {

/// Bit pattern of the quiet NaN that invalid operations return.
pub const NAN_BITS: u32 = 0x7fc0_0000;

/// Weight of the sign bit.
pub const SIGN_BIT: u32 = 0x8000_0000;

/// A binary32 number, held as its bit pattern.
///
/// `==` compares numbers: the two zeros are equal, and a NaN equals nothing,
/// itself included. To compare patterns, compare [`Binary32::to_bits`].
#[derive(Clone, Copy, Debug)]
pub struct Binary32 {
    pub bits: u32,
}

impl PartialEq for Binary32 {
    fn eq(&self, other: &Binary32) -> (r: bool) {
        self.le(*other) && other.le(*self)
    }
}

impl vstd::std_specs::cmp::PartialEqSpecImpl for Binary32 {
    open spec fn obeys_eq_spec() -> bool {
        true
    }

    open spec fn eq_spec(&self, other: &Binary32) -> bool {
        self.le(*other) && other.le(*self)
    }
}

/// `n * 2^e` units of 2^-149, rounded.
pub open spec fn round_scaled(n: nat, e: int) -> nat {
    if e >= 0 {
        rounding::round_ratio(n * pow2(e as nat), 1)
    } else {
        rounding::round_ratio(n, pow2((-e) as nat))
    }
}

/// `round_scaled` at any common scale.
proof fn lemma_round_scaled(n: nat, e: int, k: nat)
    requires
        e + k >= 0,
    ensures
        round_scaled(n, e) == rounding::round_ratio(n * pow2((e + k) as nat), pow2(k)),
{
    lemma_pow2_pos(k);
    lemma_pow2_pos((e + k) as nat);
    if e >= 0 {
        lemma_pow2_adds(e as nat, k);
        rounding::lemma_round_ratio_scale(n * pow2(e as nat), 1, pow2(k));
        assert(pow2(k) * (n * pow2(e as nat)) == n * pow2((e + k) as nat)) by (nonlinear_arith)
            requires
                pow2((e + k) as nat) == pow2(e as nat) * pow2(k),
        ;
    } else {
        lemma_pow2_adds((e + k) as nat, (-e) as nat);
        lemma_pow2_pos((-e) as nat);
        rounding::lemma_round_ratio_scale(n, pow2((-e) as nat), pow2((e + k) as nat));
        assert(pow2((e + k) as nat) * n == n * pow2((e + k) as nat)) by (nonlinear_arith);
    }
}

/// Position of the highest set bit, counted from one.
proof fn lemma_bit_length(n: u64)
    requires
        n > 0,
    ensures
        0 <= u64_leading_zeros(n) < 64,
        pow2((63 - u64_leading_zeros(n)) as nat) <= n < pow2((64 - u64_leading_zeros(n)) as nat),
    decreases n,
{
    reveal(u64_leading_zeros);
    lemma2_to64();
    lemma2_to64_rest();
    if n == 1 {
        assert(u64_leading_zeros(0) == 64);
        assert(u64_leading_zeros(1) == u64_leading_zeros(0) - 1);
    } else {
        lemma_bit_length(n / 2);
        let z = u64_leading_zeros(n / 2);
        if z == 0 {
            assert(n / 2 >= pow2(63));
            assert(false);
        }
        lemma_pow2_unfold((64 - z) as nat);
        lemma_pow2_unfold((65 - z) as nat);
    }
}

/// Right shift with the dropped bits rounded to nearest, ties to even.
fn shift_right_nearest(n: u64, s: u32) -> (m: u64)
    requires
        0 < s,
        n < 0x8000_0000_0000_0000,
    ensures
        m == rounding::nearest_even(n as nat, pow2(s as nat)),
        m <= n,
{
    proof {
        lemma2_to64_rest();
    }
    if s > 63 {
        proof {
            rounding::lemma_pow2_order(64, s as nat);
            lemma_pow2_unfold(64);
            rounding::lemma_nearest_even_from(n as nat, pow2(s as nat), 0, n as nat);
        }
        return 0;
    }
    let q: u64 = n >> (s as u64);
    let one: u64 = 1u64 << (s as u64);
    let half: u64 = 1u64 << ((s - 1) as u64);
    proof {
        lemma_u64_shr_is_div(n, s as u64);
        lemma_u64_pow2_no_overflow(s as nat);
        lemma_u64_pow2_no_overflow((s - 1) as nat);
        lemma_u64_shl_is_mul(1, s as u64);
        lemma_u64_shl_is_mul(1, (s - 1) as u64);
        lemma_pow2_unfold(s as nat);
    }
    let r: u64 = n & (one - 1);
    proof {
        lemma_u64_low_bits_mask_is_mod(n, s as nat);
        lemma_pow2_pos((s - 1) as nat);
        let d = pow2(s as nat) as int;
        vstd::arithmetic::div_mod::lemma_fundamental_div_mod(n as int, d);
        vstd::arithmetic::div_mod::lemma_mod_bound(n as int, d);
        assert(q + r <= n) by (nonlinear_arith)
            requires
                n == d * q + r,
                d >= 1,
                q >= 0,
        ;
    }
    if r < half || (r == half && q % 2 == 0) {
        q
    } else {
        q + 1
    }
}

/// Bit pattern of the magnitude `n * 2^e`, in units of 2^-149, rounded.
fn round_pattern(n: u64, e: i32) -> (bits: u32)
    requires
        n < 0x8000_0000_0000_0000,
        -1000 <= e <= 1000,
    ensures
        bits == round_scaled(n as nat, e as int),
        bits <= rounding::INFINITY_BITS,
{
    proof {
        lemma2_to64();
    }
    if n == 0 {
        proof {
            lemma_round_scaled(0, e as int, 1000);
            lemma_pow2_pos(1000);
            let up = pow2((e + 1000) as nat);
            assert(n * up == 0 && 0 <= rounding::magnitude(0) * pow2(1000)) by (nonlinear_arith)
                requires
                    n == 0,
            ;
            rounding::lemma_round_ratio_bound(0, pow2(1000), 0);
        }
        return 0;
    }
    let length: i32 = 64 - (n.leading_zeros() as i32);
    let top: i32 = e + length - 24;
    let b: i32 = if top > 0 { top } else { 0 };
    let s: i32 = b - e;
    proof {
        lemma_bit_length(n);
        lemma_round_scaled(n as nat, e as int, 1000);
        lemma_round_position(n as nat, 1, e as int, length as nat, b as nat, 1000);
        lemma_pow2_pos((b + 1000) as nat);
        lemma_pow2_adds(1000, b as nat);
    }
    let m: u64 = if s <= 0 {
        proof {
            // The significand is exact: it only moves left.
            let up = (-s) as nat;
            lemma_pow2_adds(up, length as nat);
            rounding::lemma_pow2_order(up + length as nat, 24);
            lemma_pow2_pos(up);
            assert(n * pow2(up) < 0x100_0000) by (nonlinear_arith)
                requires
                    n < pow2(length as nat),
                    pow2((up + length) as nat) == pow2(up) * pow2(length as nat),
                    pow2((up + length) as nat) <= 0x100_0000,
                    pow2(up) > 0,
            ;
            lemma_u64_shl_is_mul(n, up as u64);
            lemma_pow2_adds(up, (b + 1000) as nat);
            assert(n * pow2((e + 1000) as nat) == (n * pow2(up)) * pow2((b + 1000) as nat))
                by (nonlinear_arith)
                requires
                    pow2((e + 1000) as nat) == pow2(up) * pow2((b + 1000) as nat),
            ;
            rounding::lemma_nearest_even_exact((n * pow2(up)) as nat, pow2((b + 1000) as nat));
        }
        n << ((-s) as u64)
    } else {
        proof {
            lemma_pow2_adds(s as nat, (e + 1000) as nat);
            lemma_pow2_pos(s as nat);
            lemma_pow2_pos((e + 1000) as nat);
            rounding::lemma_nearest_even_scale(
                n as nat,
                pow2(s as nat),
                pow2((e + 1000) as nat),
            );
            assert(pow2((e + 1000) as nat) * n == n * pow2((e + 1000) as nat)
                && pow2((e + 1000) as nat) * pow2(s as nat) == pow2((b + 1000) as nat))
                by (nonlinear_arith)
                requires
                    pow2((b + 1000) as nat) == pow2(s as nat) * pow2((e + 1000) as nat),
            ;
        }
        shift_right_nearest(n, s as u32)
    };
    proof {
        rounding::lemma_significand_range((n * pow2((e + 1000) as nat)) as nat, pow2(1000));
    }
    if b >= 255 {
        return rounding::INFINITY_BITS;
    }
    let bits: u32 = (b as u32) * 0x80_0000 + m as u32;
    if bits < rounding::INFINITY_BITS {
        bits
    } else {
        rounding::INFINITY_BITS
    }
}

/// Where the significand of `num / den * 2^e` sits, at the common scale `k`.
proof fn lemma_round_position(num: nat, den: nat, e: int, length: nat, b: nat, k: nat)
    requires
        den > 0,
        length > 0,
        e + k >= 0,
        den * pow2((length - 1) as nat) <= num < den * pow2(length),
        e + length - 24 > 0 ==> b == e + length - 24,
        e + length - 24 <= 0 ==> b == 0,
    ensures
        rounding::binade(num * pow2((e + k) as nat), den * pow2(k)) == b,
{
    let top = num * pow2((e + k) as nat);
    let bottom = den * pow2(k);
    lemma_pow2_pos(k);
    lemma_pow2_pos((e + k) as nat);
    rounding::lemma_mul_pos(den, pow2(k));
    lemma_pow2_adds(length, (e + k) as nat);
    lemma_pow2_adds(k, b + 24);
    rounding::lemma_pow2_order((length + e + k) as nat, k + b + 24);
    assert(top < bottom * pow2(b + 24)) by (nonlinear_arith)
        requires
            top == num * pow2((e + k) as nat),
            bottom == den * pow2(k),
            num < den * pow2(length),
            pow2((length + e + k) as nat) == pow2(length) * pow2((e + k) as nat),
            pow2(k + b + 24) == pow2(k) * pow2(b + 24),
            pow2((length + e + k) as nat) <= pow2(k + b + 24),
            pow2((e + k) as nat) > 0,
            den > 0,
    ;
    if b > 0 {
        lemma_pow2_adds((length - 1) as nat, (e + k) as nat);
        lemma_pow2_adds(k, b + 23);
        assert(top >= bottom * pow2(b + 23)) by (nonlinear_arith)
            requires
                top == num * pow2((e + k) as nat),
                bottom == den * pow2(k),
                num >= den * pow2((length - 1) as nat),
                pow2((length - 1 + e + k) as nat) == pow2((length - 1) as nat) * pow2(
                    (e + k) as nat,
                ),
                pow2(k + b + 23) == pow2(k) * pow2(b + 23),
                length - 1 + e + k == k + b + 23,
        ;
    }
    rounding::lemma_binade_unique(top, bottom, b);
}

/// A quotient `q` with one sticky bit below it rounds as the exact ratio
/// does, as long as at least two bits are dropped.
proof fn lemma_sticky(num: nat, den: nat, q: nat, r: nat, n: nat, e: int, length: nat, k: nat)
    requires
        r < den,
        num == 2 * (q * den + r),
        n == 2 * q + (if r > 0 { 1nat } else { 0nat }),
        length >= 30,
        pow2((length - 1) as nat) <= n < pow2(length),
        e + k >= 0,
    ensures
        rounding::round_ratio(num * pow2((e + k) as nat), den * pow2(k)) == rounding::round_ratio(
            n * pow2((e + k) as nat),
            pow2(k),
        ),
{
    let b: nat = if e + length - 24 > 0 {
        (e + length - 24) as nat
    } else {
        0
    };
    let s = (b - e) as nat;
    let scale = pow2((e + k) as nat);
    lemma_pow2_pos((e + k) as nat);
    lemma_pow2_pos(k);
    lemma_pow2_unfold((length - 1) as nat);
    lemma_pow2_unfold(length);
    let low = pow2((length - 2) as nat);
    assert(den * pow2((length - 1) as nat) <= num < den * pow2(length)) by (nonlinear_arith)
        requires
            num == 2 * (q * den + r),
            r < den,
            n == 2 * q + (if r > 0 { 1nat } else { 0nat }),
            pow2((length - 1) as nat) == 2 * low,
            pow2(length) == 4 * low,
            2 * low <= n < 4 * low,
    {
        assert(low <= q);
        assert(q < 2 * low);
        assert(den * (2 * low) <= 2 * (q * den + r));
        assert(2 * (q * den + r) < 2 * den * (q + 1));
        assert(2 * den * (q + 1) <= 2 * den * (2 * low));
    }
    lemma_round_position(num, den, e, length, b, k);
    assert(1 * pow2((length - 1) as nat) <= n < 1 * pow2(length));
    lemma_round_position(n, 1, e, length, b, k);
    assert(1 * pow2(k) == pow2(k));
    // Both significands divide out the scale.
    lemma_pow2_adds(k, b);
    lemma_pow2_adds((e + k) as nat, s);
    lemma_pow2_pos(s);
    let d = pow2(s);
    rounding::lemma_mul_pos(den, d);
    rounding::lemma_nearest_even_scale(num, den * d, scale);
    rounding::lemma_nearest_even_scale(n, d, scale);
    assert(scale * num == num * scale && scale * n == n * scale) by (nonlinear_arith);
    assert((den * pow2(k)) * pow2(b) == scale * (den * d)) by (nonlinear_arith)
        requires
            pow2(k + b) == pow2(k) * pow2(b),
            pow2(k + b) == scale * d,
    ;
    // The dropped parts stand alike against the half.
    lemma_pow2_unfold(s);
    lemma_pow2_unfold((s - 1) as nat);
    let quarter = pow2((s - 2) as nat);
    let big = (2 * q) / d;
    let rest = (2 * q) % d;
    vstd::arithmetic::div_mod::lemma_fundamental_div_mod((2 * q) as int, d as int);
    vstd::arithmetic::div_mod::lemma_mod_bound((2 * q) as int, d as int);
    assert(d == 4 * quarter);
    let odd: nat = if r > 0 { 1 } else { 0 };
    assert(rest % 2 == 0) by {
        assert(2 * q == 2 * (2 * (quarter * big)) + rest) by (nonlinear_arith)
            requires
                2 * q == d * big + rest,
                d == 4 * quarter,
        ;
    }
    assert(n == big * d + (rest + odd)) by (nonlinear_arith)
        requires
            n == 2 * q + odd,
            2 * q == d * big + rest,
    ;
    rounding::lemma_nearest_even_from(n, d, big, rest + odd);
    let left = rest * den + 2 * r;
    assert(num == big * (den * d) + left && left < den * d) by (nonlinear_arith)
        requires
            num == 2 * (q * den + r),
            2 * q == d * big + rest,
            left == rest * den + 2 * r,
            r < den,
            rest + 2 <= d,
    ;
    rounding::lemma_nearest_even_from(num, den * d, big, left);
    if r > 0 {
        if rest < 2 * quarter {
            assert(2 * left < den * d) by (nonlinear_arith)
                requires
                    left == rest * den + 2 * r,
                    r < den,
                    rest + 2 <= 2 * quarter,
                    d == 4 * quarter,
            ;
        } else {
            assert(2 * left > den * d) by (nonlinear_arith)
                requires
                    left == rest * den + 2 * r,
                    r > 0,
                    rest >= 2 * quarter,
                    d == 4 * quarter,
            ;
        }
    } else {
        assert((2 * left < den * d <==> 2 * rest < d) && (2 * left == den * d <==> 2 * rest == d))
            by (nonlinear_arith)
            requires
                left == rest * den,
                den > 0,
        ;
    }
}

/// A number so much smaller that it cannot reach half of the other's last
/// place leaves the other unchanged.
proof fn lemma_absorbed(big: nat, small: nat)
    requires
        big < rounding::INFINITY_BITS,
        small < rounding::INFINITY_BITS,
        rounding::pattern_binade(big) >= rounding::pattern_binade(small) + 26,
    ensures
        rounding::magnitude(big) > rounding::magnitude(small),
        rounding::round_ratio(rounding::magnitude(big) + rounding::magnitude(small), 1) == big,
        rounding::round_ratio(
            (rounding::magnitude(big) - rounding::magnitude(small)) as nat,
            1,
        ) == big,
{
    let m = rounding::pattern_significand(big);
    let e = rounding::pattern_binade(big);
    let ms = rounding::pattern_significand(small);
    let es = rounding::pattern_binade(small);
    let delta = rounding::magnitude(small);
    rounding::lemma_pattern_parts(big);
    rounding::lemma_pattern_parts(small);
    let quarter = pow2((e - 2) as nat);
    lemma2_to64();
    lemma_pow2_pos((e - 2) as nat);
    lemma_pow2_pos(es);
    lemma_pow2_unfold((e - 1) as nat);
    lemma_pow2_unfold(e);
    assert(pow2(e) == 4 * quarter);
    lemma_pow2_adds(es, 24);
    rounding::lemma_pow2_order(es + 24, (e - 2) as nat);
    assert(delta < quarter) by (nonlinear_arith)
        requires
            delta == ms * pow2(es),
            ms < 0x100_0000,
            pow2(es + 24) == pow2(es) * 0x100_0000,
            pow2(es + 24) <= quarter,
            pow2(es) > 0,
    ;
    let size = rounding::magnitude(big);
    assert(size == m * (4 * quarter));
    lemma_pow2_adds(e, 24);
    lemma_pow2_adds(e, 23);
    assert(0x80_0000 * (4 * quarter) <= size && size + 4 * quarter <= 0x100_0000 * (4 * quarter))
        by (nonlinear_arith)
        requires
            size == m * (4 * quarter),
            0x80_0000 <= m,
            m + 1 <= 0x100_0000,
    ;
    // Sum.
    rounding::lemma_binade_unique(size + delta, 1, e);
    rounding::lemma_nearest_even_from(size + delta, pow2(e), m, delta);
    // Difference.
    let diff = (size - delta) as nat;
    if delta == 0 {
    } else if m > 0x80_0000 {
        assert(size >= 0x80_0001 * (4 * quarter)) by (nonlinear_arith)
            requires
                size == m * (4 * quarter),
                m >= 0x80_0001,
        ;
        rounding::lemma_binade_unique(diff, 1, e);
        assert(diff == (m - 1) * (4 * quarter) + (4 * quarter - delta)) by (nonlinear_arith)
            requires
                diff == size - delta,
                size == m * (4 * quarter),
        ;
        rounding::lemma_nearest_even_from(
            diff,
            pow2(e),
            (m - 1) as nat,
            (4 * quarter - delta) as nat,
        );
    } else {
        lemma_pow2_adds((e - 1) as nat, 24);
        lemma_pow2_adds((e - 1) as nat, 23);
        rounding::lemma_binade_unique(diff, 1, (e - 1) as nat);
        assert(diff == 0xff_ffff * (2 * quarter) + (2 * quarter - delta));
        rounding::lemma_nearest_even_from(
            diff,
            pow2((e - 1) as nat),
            0xff_ffff,
            (2 * quarter - delta) as nat,
        );
    }
}

/// Significand and binade of a pattern.
fn parts(pattern: u32) -> (r: (u64, i32))
    requires
        pattern <= rounding::INFINITY_BITS,
    ensures
        r.0 == rounding::pattern_significand(pattern as nat),
        r.1 == rounding::pattern_binade(pattern as nat),
        r.0 < 0x100_0000,
        0 <= r.1 <= 254,
        r.1 > 0 ==> r.0 >= 0x80_0000,
{
    proof {
        rounding::lemma_pattern_parts(pattern as nat);
    }
    if pattern < 0x80_0000 {
        (pattern as u64, 0)
    } else {
        ((pattern % 0x80_0000 + 0x80_0000) as u64, (pattern / 0x80_0000) as i32 - 1)
    }
}

/// The 24-bit form of a non-zero significand, and how far it moved.
fn normalized(m: u64) -> (r: (u64, i32))
    requires
        0 < m < 0x100_0000,
    ensures
        0x80_0000 <= r.0 < 0x100_0000,
        0 <= r.1 <= 23,
        r.0 == m * pow2(r.1 as nat),
{
    let z: u32 = m.leading_zeros();
    proof {
        lemma_bit_length(m);
        lemma2_to64();
        let l = (64 - z) as nat;
        if l > 24 {
            rounding::lemma_pow2_order(24, (l - 1) as nat);
        }
        let up = (24 - l) as nat;
        lemma_pow2_adds(up, l);
        lemma_pow2_adds(up, (l - 1) as nat);
        lemma_pow2_pos(up);
        assert(0x80_0000 <= m * pow2(up) < 0x100_0000) by (nonlinear_arith)
            requires
                pow2((l - 1) as nat) <= m < pow2(l),
                pow2(up) * pow2(l) == 0x100_0000,
                pow2(up) * pow2((l - 1) as nat) == 0x80_0000,
                pow2(up) > 0,
        ;
        lemma_u64_shl_is_mul(m, up as u64);
    }
    let up: u32 = z - 40;
    (m << (up as u64), up as i32)
}

impl Binary32 {
    /// Whether the sign bit is set.
    pub open spec fn negative(self) -> bool {
        self.bits >= SIGN_BIT
    }

    /// The pattern without its sign bit.
    pub open spec fn pattern(self) -> nat {
        (self.bits % SIGN_BIT) as nat
    }

    pub open spec fn nan(self) -> bool {
        self.pattern() > rounding::INFINITY_BITS
    }

    pub open spec fn infinite(self) -> bool {
        self.pattern() == rounding::INFINITY_BITS
    }

    pub open spec fn finite(self) -> bool {
        self.pattern() < rounding::INFINITY_BITS
    }

    /// The magnitude, in units of 2^-149.
    pub open spec fn size(self) -> nat {
        rounding::magnitude(self.pattern())
    }

    /// The number itself, in units of 2^-149. Infinity takes the value that
    /// follows the largest finite number, so comparison needs no case for it.
    pub open spec fn value(self) -> int {
        if self.negative() {
            -(self.size() as int)
        } else {
            self.size() as int
        }
    }

    /// The number with the given sign and pattern.
    pub open spec fn signed(negative: bool, pattern: nat) -> Binary32 {
        Binary32 {
            bits: (if negative {
                pattern + SIGN_BIT
            } else {
                pattern as int
            }) as u32,
        }
    }

    pub open spec fn spec_nan() -> Binary32 {
        Binary32 { bits: NAN_BITS }
    }

    /// The number nearest to `num / den` units of 2^-149, with a sign.
    pub open spec fn rounded(negative: bool, num: nat, den: nat) -> Binary32 {
        Self::signed(negative, rounding::round_ratio(num, den))
    }

    pub open spec fn spec_neg(self) -> Binary32 {
        Self::signed(!self.negative(), self.pattern())
    }

    pub open spec fn spec_abs(self) -> Binary32 {
        Self::signed(false, self.pattern())
    }

    /// The sum. An exact zero from operands of different signs is positive.
    #[verifier::opaque]
    pub open spec fn spec_add(self, other: Binary32) -> Binary32 {
        if self.nan() || other.nan() {
            Self::spec_nan()
        } else if self.infinite() {
            if other.infinite() && self.negative() != other.negative() {
                Self::spec_nan()
            } else {
                self
            }
        } else if other.infinite() {
            other
        } else {
            let sum = self.value() + other.value();
            if sum == 0 {
                Self::signed(self.negative() && other.negative(), 0)
            } else if sum < 0 {
                Self::rounded(true, (-sum) as nat, 1)
            } else {
                Self::rounded(false, sum as nat, 1)
            }
        }
    }

    pub open spec fn spec_sub(self, other: Binary32) -> Binary32 {
        self.spec_add(other.spec_neg())
    }

    #[verifier::opaque]
    pub open spec fn spec_mul(self, other: Binary32) -> Binary32 {
        let negative = self.negative() != other.negative();
        if self.nan() || other.nan() {
            Self::spec_nan()
        } else if self.infinite() || other.infinite() {
            if self.pattern() == 0 || other.pattern() == 0 {
                Self::spec_nan()
            } else {
                Self::signed(negative, rounding::INFINITY_BITS as nat)
            }
        } else {
            Self::rounded(negative, self.size() * other.size(), pow2(149))
        }
    }

    #[verifier::opaque]
    pub open spec fn spec_div(self, other: Binary32) -> Binary32 {
        let negative = self.negative() != other.negative();
        if self.nan() || other.nan() {
            Self::spec_nan()
        } else if self.infinite() {
            if other.infinite() {
                Self::spec_nan()
            } else {
                Self::signed(negative, rounding::INFINITY_BITS as nat)
            }
        } else if other.infinite() {
            Self::signed(negative, 0)
        } else if other.pattern() == 0 {
            if self.pattern() == 0 {
                Self::spec_nan()
            } else {
                Self::signed(negative, rounding::INFINITY_BITS as nat)
            }
        } else {
            Self::rounded(negative, self.size() * pow2(149), other.size())
        }
    }

    /// The number nearest to an integer.
    #[verifier::opaque]
    pub open spec fn of_int(n: int) -> Binary32 {
        if n < 0 {
            Self::rounded(true, ((-n) * pow2(149)) as nat, 1)
        } else {
            Self::rounded(false, (n * pow2(149)) as nat, 1)
        }
    }

    /// The pattern itself.
    #[verifier::allow_in_spec]
    pub fn from_bits(bits: u32) -> Binary32
        returns
            (Binary32 { bits }),
    {
        Binary32 { bits }
    }

    #[verifier::allow_in_spec]
    pub fn to_bits(self) -> u32
        returns
            self.bits,
    {
        self.bits
    }

    pub open spec fn spec_lt(self, other: Binary32) -> bool {
        !self.nan() && !other.nan() && self.value() < other.value()
    }

    pub open spec fn spec_le(self, other: Binary32) -> bool {
        !self.nan() && !other.nan() && self.value() <= other.value()
    }

    /// The remainder of the division truncated toward zero, which is always
    /// exact; it takes the sign of the dividend.
    #[verifier::opaque]
    pub open spec fn spec_rem(self, other: Binary32) -> Binary32 {
        if self.nan() || other.nan() || self.infinite() || other.pattern() == 0 {
            Self::spec_nan()
        } else if other.infinite() {
            self
        } else {
            Self::rounded(self.negative(), self.size() % other.size(), 1)
        }
    }

    /// `self` limited to the range from `low` to `high`. NaN stays NaN.
    pub open spec fn spec_clamp(self, low: Binary32, high: Binary32) -> Binary32 {
        if self.spec_lt(low) {
            low
        } else if high.spec_lt(self) {
            high
        } else {
            self
        }
    }

    /// The integer part: the number truncated toward zero.
    pub open spec fn whole(self) -> int {
        if self.negative() {
            -((self.size() / pow2(149)) as int)
        } else {
            (self.size() / pow2(149)) as int
        }
    }

    /// The integer part limited to a range; zero for NaN.
    #[verifier::opaque]
    pub open spec fn whole_within(self, low: int, high: int) -> int {
        if self.nan() {
            0
        } else if self.whole() < low {
            low
        } else if self.whole() > high {
            high
        } else {
            self.whole()
        }
    }

    fn magnitude_bits(self) -> (p: u32)
        ensures
            p == self.pattern(),
            p < SIGN_BIT,
    {
        self.bits % SIGN_BIT
    }

    fn with_sign(negative: bool, pattern: u32) -> (r: Binary32)
        requires
            pattern < SIGN_BIT,
        ensures
            r == Self::signed(negative, pattern as nat),
            r.negative() == negative,
            r.pattern() == pattern,
    {
        Binary32 { bits: if negative { pattern + SIGN_BIT } else { pattern } }
    }

    pub fn is_negative(self) -> (r: bool)
        ensures
            r == self.negative(),
    {
        self.bits >= SIGN_BIT
    }

    pub fn is_nan(self) -> (r: bool)
        ensures
            r == self.nan(),
    {
        self.magnitude_bits() > rounding::INFINITY_BITS
    }

    pub fn is_finite(self) -> (r: bool)
        ensures
            r == self.finite(),
    {
        self.magnitude_bits() < rounding::INFINITY_BITS
    }

    #[verifier::when_used_as_spec(spec_neg)]
    pub fn neg(self) -> (r: Binary32)
        ensures
            r == self.spec_neg(),
            r.negative() == !self.negative(),
            r.pattern() == self.pattern(),
    {
        Self::with_sign(!self.is_negative(), self.magnitude_bits())
    }

    #[verifier::when_used_as_spec(spec_abs)]
    pub fn abs(self) -> (r: Binary32)
        ensures
            r == self.spec_abs(),
    {
        Self::with_sign(false, self.magnitude_bits())
    }

    #[verifier::when_used_as_spec(spec_lt)]
    pub fn lt(self, other: Binary32) -> (r: bool)
        ensures
            r == self.spec_lt(other),
    {
        let a: u32 = self.magnitude_bits();
        let b: u32 = other.magnitude_bits();
        if a > rounding::INFINITY_BITS || b > rounding::INFINITY_BITS {
            return false;
        }
        proof {
            rounding::lemma_magnitude_order(a as nat, b as nat);
            rounding::lemma_magnitude_order(0, b as nat);
            rounding::lemma_magnitude_order(0, a as nat);
            rounding::lemma_magnitude_zero();
        }
        if self.bits >= SIGN_BIT {
            if other.bits >= SIGN_BIT {
                b < a
            } else {
                a > 0 || b > 0
            }
        } else {
            other.bits < SIGN_BIT && a < b
        }
    }

    #[verifier::when_used_as_spec(spec_le)]
    pub fn le(self, other: Binary32) -> (r: bool)
        ensures
            r == self.spec_le(other),
    {
        !self.is_nan() && !other.is_nan() && !other.lt(self)
    }

    #[verifier::when_used_as_spec(spec_clamp)]
    pub fn clamp(self, low: Binary32, high: Binary32) -> (r: Binary32)
        ensures
            r == self.spec_clamp(low, high),
    {
        if self.lt(low) {
            low
        } else if high.lt(self) {
            high
        } else {
            self
        }
    }

    #[verifier::when_used_as_spec(spec_add)]
    pub fn add(self, other: Binary32) -> (r: Binary32)
        ensures
            r == self.spec_add(other),
    {
        proof {
            reveal(Binary32::spec_add);
        }
        let a: u32 = self.magnitude_bits();
        let b: u32 = other.magnitude_bits();
        if a >= rounding::INFINITY_BITS || b >= rounding::INFINITY_BITS {
            if a > rounding::INFINITY_BITS || b > rounding::INFINITY_BITS {
                return Binary32 { bits: NAN_BITS };
            }
            if a == rounding::INFINITY_BITS {
                if b == rounding::INFINITY_BITS && self.is_negative() != other.is_negative() {
                    return Binary32 { bits: NAN_BITS };
                }
                return self;
            }
            return other;
        }
        if a >= b {
            Self::add_ordered(self, other)
        } else {
            Self::add_ordered(other, self)
        }
    }

    /// The sum of two finite numbers, the larger magnitude first.
    fn add_ordered(big: Binary32, small: Binary32) -> (r: Binary32)
        requires
            big.finite(),
            small.finite(),
            big.pattern() >= small.pattern(),
        ensures
            r == big.spec_add(small),
    {
        let a: u32 = big.magnitude_bits();
        let b: u32 = small.magnitude_bits();
        let (ma, ea) = parts(a);
        let (mb, eb) = parts(b);
        let d: i32 = ea - eb;
        proof {
            reveal(Binary32::spec_add);
            rounding::lemma_magnitude_order(b as nat, a as nat);
            rounding::lemma_pattern_parts(a as nat);
            rounding::lemma_pattern_parts(b as nat);
            assert(d >= 0);
        }
        if d >= 26 {
            proof {
                lemma_absorbed(a as nat, b as nat);
            }
            return big;
        }
        proof {
            lemma2_to64();
            rounding::lemma_pow2_order(d as nat, 25);
            lemma_pow2_pos(d as nat);
            assert(ma * pow2(d as nat) < 0x100_0000 * 0x200_0000) by (nonlinear_arith)
                requires
                    ma < 0x100_0000,
                    pow2(d as nat) <= 0x200_0000,
            ;
            lemma_u64_shl_is_mul(ma, d as u64);
            lemma_pow2_adds(d as nat, eb as nat);
            lemma_pow2_pos(eb as nat);
        }
        let wide: u64 = ma << (d as u64);
        let ghost unit = pow2(eb as nat);
        assert(big.size() == wide * unit) by (nonlinear_arith)
            requires
                big.size() == ma * pow2(ea as nat),
                wide == ma * pow2(d as nat),
                pow2(ea as nat) == pow2(d as nat) * unit,
        ;
        assert(wide >= mb) by (nonlinear_arith)
            requires
                wide * unit >= mb * unit,
                unit > 0,
        ;
        if big.is_negative() == small.is_negative() {
            let n: u64 = wide + mb;
            let bits: u32 = round_pattern(n, eb);
            proof {
                assert(n * unit == wide * unit + mb * unit) by (nonlinear_arith)
                    requires
                        n == wide + mb,
                ;
                assert(n * unit == 0 ==> n == 0) by (nonlinear_arith)
                    requires
                        unit > 0,
                ;
                rounding::lemma_magnitude_zero();
            }
            Self::with_sign(big.is_negative(), bits)
        } else {
            let n: u64 = wide - mb;
            proof {
                assert(n * unit == wide * unit - mb * unit) by (nonlinear_arith)
                    requires
                        n == wide - mb,
                ;
                assert(n * unit == 0 <==> n == 0) by (nonlinear_arith)
                    requires
                        unit > 0,
                ;
            }
            if n == 0 {
                Self::with_sign(false, 0)
            } else {
                let bits: u32 = round_pattern(n, eb);
                Self::with_sign(big.is_negative(), bits)
            }
        }
    }

    #[verifier::when_used_as_spec(spec_sub)]
    pub fn sub(self, other: Binary32) -> (r: Binary32)
        ensures
            r == self.spec_sub(other),
    {
        self.add(other.neg())
    }

    #[verifier::when_used_as_spec(spec_mul)]
    pub fn mul(self, other: Binary32) -> (r: Binary32)
        ensures
            r == self.spec_mul(other),
    {
        proof {
            reveal(Binary32::spec_mul);
        }
        let a: u32 = self.magnitude_bits();
        let b: u32 = other.magnitude_bits();
        let negative: bool = self.is_negative() != other.is_negative();
        if a >= rounding::INFINITY_BITS || b >= rounding::INFINITY_BITS {
            if a > rounding::INFINITY_BITS || b > rounding::INFINITY_BITS || a == 0 || b == 0 {
                return Binary32 { bits: NAN_BITS };
            }
            return Self::with_sign(negative, rounding::INFINITY_BITS);
        }
        let (ma, ea) = parts(a);
        let (mb, eb) = parts(b);
        assert(ma * mb < 0x1_0000_0000_0000) by (nonlinear_arith)
            requires
                ma < 0x100_0000,
                mb < 0x100_0000,
        ;
        let n: u64 = ma * mb;
        let e: i32 = ea + eb - 149;
        proof {
            lemma_round_scaled(n as nat, e as int, 149);
            lemma_pow2_adds(ea as nat, eb as nat);
            assert(n * pow2((ea + eb) as nat) == self.size() * other.size()) by (nonlinear_arith)
                requires
                    n == ma * mb,
                    self.size() == ma * pow2(ea as nat),
                    other.size() == mb * pow2(eb as nat),
                    pow2((ea + eb) as nat) == pow2(ea as nat) * pow2(eb as nat),
            ;
        }
        let bits: u32 = round_pattern(n, e);
        Self::with_sign(negative, bits)
    }

    #[verifier::when_used_as_spec(spec_div)]
    pub fn div(self, other: Binary32) -> (r: Binary32)
        ensures
            r == self.spec_div(other),
    {
        proof {
            reveal(Binary32::spec_div);
        }
        let a: u32 = self.magnitude_bits();
        let b: u32 = other.magnitude_bits();
        let negative: bool = self.is_negative() != other.is_negative();
        if a > rounding::INFINITY_BITS || b > rounding::INFINITY_BITS {
            return Binary32 { bits: NAN_BITS };
        }
        if a == rounding::INFINITY_BITS {
            if b == rounding::INFINITY_BITS {
                return Binary32 { bits: NAN_BITS };
            }
            return Self::with_sign(negative, rounding::INFINITY_BITS);
        }
        if b == rounding::INFINITY_BITS {
            return Self::with_sign(negative, 0);
        }
        if b == 0 {
            if a == 0 {
                return Binary32 { bits: NAN_BITS };
            }
            return Self::with_sign(negative, rounding::INFINITY_BITS);
        }
        let bits: u32 = Self::quotient(a, b);
        Self::with_sign(negative, bits)
    }

    /// Rounded quotient of two finite magnitudes.
    fn quotient(a: u32, b: u32) -> (bits: u32)
        requires
            a < rounding::INFINITY_BITS,
            0 < b < rounding::INFINITY_BITS,
        ensures
            bits == rounding::round_ratio(
                rounding::magnitude(a as nat) * pow2(149),
                rounding::magnitude(b as nat),
            ),
            bits <= rounding::INFINITY_BITS,
    {
        let ghost size_a = rounding::magnitude(a as nat);
        let ghost size_b = rounding::magnitude(b as nat);
        proof {
            rounding::lemma_magnitude_order(0, b as nat);
            rounding::lemma_pattern_parts(a as nat);
            rounding::lemma_pattern_parts(b as nat);
        }
        if a == 0 {
            proof {
                rounding::lemma_magnitude_zero();
                assert(size_a * pow2(149) == 0) by (nonlinear_arith)
                    requires
                        size_a == 0,
                ;
                rounding::lemma_round_ratio_bound(0, size_b, 0);
            }
            return 0;
        }
        let (ma, ea) = parts(a);
        let (mb, eb) = parts(b);
        let (na, ua) = normalized(ma);
        let (nb, ub) = normalized(mb);
        proof {
            lemma2_to64();
            lemma2_to64_rest();
            lemma_u64_shl_is_mul(na, 39);
        }
        let wide: u64 = na << 39;
        let q: u64 = wide / nb;
        let r: u64 = wide % nb;
        proof {
            vstd::arithmetic::div_mod::lemma_fundamental_div_mod(wide as int, nb as int);
            assert(0x40_0000_0000 <= q < 0x200_0000_0000) by (nonlinear_arith)
                requires
                    wide == nb * q + r,
                    0 <= r < nb,
                    0x80_0000 * 0x80_0000_0000 <= wide < 0x100_0000 * 0x80_0000_0000,
                    0x80_0000 <= nb < 0x100_0000,
            ;
        }
        let n: u64 = 2 * q + (if r > 0 { 1 } else { 0 });
        let e: i32 = (ea - ua) - (eb - ub) + 109;
        proof {
            let k: nat = 1000;
            let up = (e + k) as nat;
            lemma_bit_length(n);
            let length = (64 - u64_leading_zeros(n)) as nat;
            if length < 30 {
                rounding::lemma_pow2_order(length, 30);
            }
            let num = (2 * (q * nb + r)) as nat;
            lemma_sticky(num, nb as nat, q as nat, r as nat, n as nat, e as int, length, k);
            lemma_round_scaled(n as nat, e as int, k);
            // num / nb * 2^e is size_a / size_b * 2^149.
            let bottom = nb * pow2(k);
            lemma_pow2_pos(k);
            rounding::lemma_mul_pos(nb as nat, pow2(k));
            let top = num * pow2(up);
            Self::lemma_quotient_scale(
                ma as nat,
                mb as nat,
                na as nat,
                nb as nat,
                ea as nat,
                eb as nat,
                ua as nat,
                ub as nat,
            );
            assert(num == na * 0x100_0000_0000) by (nonlinear_arith)
                requires
                    num == 2 * (q * nb + r),
                    nb * q + r == na * 0x80_0000_0000,
            ;
            assert(num == na * pow2(40));
            assert(top * size_b == (size_a * pow2(149)) * bottom);
            rounding::lemma_round_ratio_monotone(top, bottom as nat, size_a * pow2(149), size_b);
            rounding::lemma_round_ratio_monotone(size_a * pow2(149), size_b, top, bottom as nat);
        }
        round_pattern(n, e)
    }

    /// The scaled integer quotient stands for the quotient of the magnitudes.
    proof fn lemma_quotient_scale(
        ma: nat,
        mb: nat,
        na: nat,
        nb: nat,
        ea: nat,
        eb: nat,
        ua: nat,
        ub: nat,
    )
        requires
            na == ma * pow2(ua),
            nb == mb * pow2(ub),
            ua <= 23,
            ub <= 23,
            ea <= 254,
            eb <= 254,
        ensures
            ((na * pow2(40)) * pow2((ea - ua - eb + ub + 1109) as nat)) * (mb * pow2(eb)) == ((ma
                * pow2(ea)) * pow2(149)) * (nb * pow2(1000)),
    {
        let up = (ea - ua - eb + ub + 1109) as nat;
        // Both sides are ma * mb * 2^(ea + ub + 1149).
        lemma_pow2_adds(ua, 40);
        lemma_pow2_adds(ua + 40, up);
        lemma_pow2_adds(ua + 40 + up, eb);
        lemma_pow2_adds(ea, 149);
        lemma_pow2_adds(ea + 149, ub);
        lemma_pow2_adds(ea + 149 + ub, 1000);
        assert(ua + 40 + up + eb == ea + 149 + ub + 1000);
        let total = pow2(ea + 149 + ub + 1000);
        assert(((na * pow2(40)) * pow2(up)) * (mb * pow2(eb)) == ma * mb * total)
            by (nonlinear_arith)
            requires
                na == ma * pow2(ua),
                pow2(ua + 40) == pow2(ua) * pow2(40),
                pow2(ua + 40 + up) == pow2(ua + 40) * pow2(up),
                total == pow2(ua + 40 + up) * pow2(eb),
        ;
        assert(((ma * pow2(ea)) * pow2(149)) * (nb * pow2(1000)) == ma * mb * total)
            by (nonlinear_arith)
            requires
                nb == mb * pow2(ub),
                pow2(ea + 149) == pow2(ea) * pow2(149),
                pow2(ea + 149 + ub) == pow2(ea + 149) * pow2(ub),
                total == pow2(ea + 149 + ub) * pow2(1000),
        ;
    }

    #[verifier::when_used_as_spec(spec_rem)]
    pub fn rem(self, other: Binary32) -> (r: Binary32)
        ensures
            r == self.spec_rem(other),
    {
        proof {
            reveal(Binary32::spec_rem);
        }
        let a: u32 = self.magnitude_bits();
        let b: u32 = other.magnitude_bits();
        if a >= rounding::INFINITY_BITS || b > rounding::INFINITY_BITS || b == 0 {
            return Binary32 { bits: NAN_BITS };
        }
        if b == rounding::INFINITY_BITS {
            return self;
        }
        let (ma, ea) = parts(a);
        let (mb, eb) = parts(b);
        proof {
            rounding::lemma_pattern_parts(a as nat);
            rounding::lemma_pattern_parts(b as nat);
            rounding::lemma_magnitude_order(a as nat, b as nat);
            rounding::lemma_round_ratio_exact(a as nat);
        }
        if a < b {
            proof {
                vstd::arithmetic::div_mod::lemma_small_mod(self.size(), other.size());
            }
            return self;
        }
        assert(ea >= eb);
        let mut left: u64 = ma % mb;
        let mut e: i32 = ea;
        proof {
            lemma2_to64();
            assert(ma * pow2(0) == ma);
        }
        while e > eb
            invariant
                eb <= e <= ea <= 254,
                0 < mb < 0x100_0000,
                left < mb,
                left == (ma * pow2((ea - e) as nat)) % (mb as int),
            decreases e - eb,
        {
            let ghost before = ma * pow2((ea - e) as nat);
            proof {
                lemma_pow2_unfold((ea - e + 1) as nat);
                vstd::arithmetic::div_mod::lemma_mul_mod_noop_right(2, before, mb as int);
                assert(2 * before == ma * pow2((ea - e + 1) as nat)) by (nonlinear_arith)
                    requires
                        before == ma * pow2((ea - e) as nat),
                        pow2((ea - e + 1) as nat) == 2 * pow2((ea - e) as nat),
                ;
            }
            left = (2 * left) % mb;
            e = e - 1;
        }
        proof {
            let d = (ea - eb) as nat;
            let unit = pow2(eb as nat);
            let top = (ma * pow2(d)) as nat;
            lemma_pow2_adds(d, eb as nat);
            lemma_pow2_pos(eb as nat);
            vstd::arithmetic::div_mod::lemma_fundamental_div_mod(top as int, mb as int);
            let q = top as int / mb as int;
            assert(self.size() == q * other.size() + left * unit && 0 <= left * unit < other.size())
                by (nonlinear_arith)
                requires
                    self.size() == ma * pow2(ea as nat),
                    pow2(ea as nat) == pow2(d) * unit,
                    top == ma * pow2(d),
                    top == mb * q + left,
                    other.size() == mb * unit,
                    0 <= left < mb,
                    unit > 0,
            ;
            vstd::arithmetic::div_mod::lemma_fundamental_div_mod_converse(
                self.size() as int,
                other.size() as int,
                q,
                left * unit,
            );
        }
        let bits: u32 = round_pattern(left, eb);
        Self::with_sign(self.is_negative(), bits)
    }

    /// The number nearest to `n`.
    pub fn from_i64(n: i64) -> (r: Binary32)
        requires
            -0x100_0000_0000 < n < 0x100_0000_0000,
        ensures
            r == Self::of_int(n as int),
    {
        proof {
            reveal(Binary32::of_int);
        }
        if n < 0 {
            let bits: u32 = round_pattern((-n) as u64, 149);
            Self::with_sign(true, bits)
        } else {
            let bits: u32 = round_pattern(n as u64, 149);
            Self::with_sign(false, bits)
        }
    }

    /// The integer part, limited to the range from `low` to `high`.
    pub fn to_whole(self, low: i64, high: i64) -> (w: i64)
        requires
            -0x40_0000_0000 < low <= 0 <= high < 0x40_0000_0000,
        ensures
            w == self.whole_within(low as int, high as int),
            low <= w <= high,
    {
        proof {
            reveal(Binary32::whole_within);
            lemma_pow2_pos(149);
        }
        let p: u32 = self.magnitude_bits();
        if p > rounding::INFINITY_BITS {
            return 0;
        }
        let (m, e) = parts(p);
        let size: u64 = if e >= 165 {
            proof {
                lemma2_to64();
                lemma2_to64_rest();
                lemma_pow2_adds(16, 149);
                rounding::lemma_pow2_order(165, e as nat);
                assert(m * pow2(e as nat) >= 0x80_0000 * (0x1_0000 * pow2(149)))
                    by (nonlinear_arith)
                    requires
                        m >= 0x80_0000,
                        pow2(e as nat) >= 0x1_0000 * pow2(149),
                ;
                assert((0x80_0000 * (0x1_0000 * pow2(149))) as int == 0x80_0000_0000 * pow2(149))
                    by (nonlinear_arith);
                vstd::arithmetic::div_mod::lemma_div_is_ordered(
                    (0x80_0000_0000 * pow2(149)) as int,
                    self.size() as int,
                    pow2(149) as int,
                );
                vstd::arithmetic::div_mod::lemma_div_by_multiple(
                    0x80_0000_0000,
                    pow2(149) as int,
                );
            }
            0x80_0000_0000
        } else if e >= 149 {
            let up: u64 = (e - 149) as u64;
            proof {
                lemma2_to64();
                rounding::lemma_pow2_order(up as nat, 15);
                lemma_pow2_adds(up as nat, 149);
                assert(m * pow2(up as nat) < 0x100_0000 * 0x8000 + 1) by (nonlinear_arith)
                    requires
                        m < 0x100_0000,
                        pow2(up as nat) <= 0x8000,
                ;
                lemma_u64_shl_is_mul(m, up);
                assert(m * pow2(e as nat) == (m * pow2(up as nat)) * pow2(149))
                    by (nonlinear_arith)
                    requires
                        pow2(e as nat) == pow2(up as nat) * pow2(149),
                ;
                vstd::arithmetic::div_mod::lemma_div_by_multiple(
                    m * pow2(up as nat),
                    pow2(149) as int,
                );
            }
            m << up
        } else {
            let down: u64 = (149 - e) as u64;
            let ghost unit = pow2(e as nat);
            let ghost d = pow2(down as nat);
            proof {
                lemma_pow2_pos(e as nat);
                lemma_pow2_pos(down as nat);
                lemma_pow2_adds(down as nat, e as nat);
            }
            let w: u64 = if down >= 24 {
                proof {
                    lemma2_to64();
                    rounding::lemma_pow2_order(24, down as nat);
                    vstd::arithmetic::div_mod::lemma_basic_div(m as int, d as int);
                }
                0
            } else {
                proof {
                    lemma_u64_shr_is_div(m, down);
                }
                m >> down
            };
            proof {
                vstd::arithmetic::div_mod::lemma_fundamental_div_mod(m as int, d as int);
                vstd::arithmetic::div_mod::lemma_mod_bound(m as int, d as int);
                let left = m as int % d as int;
                assert(m * unit == w * pow2(149) + left * unit && 0 <= left * unit < pow2(149))
                    by (nonlinear_arith)
                    requires
                        m == d * w + left,
                        pow2(149) == d * unit,
                        0 <= left < d,
                        unit > 0,
                ;
                vstd::arithmetic::div_mod::lemma_fundamental_div_mod_converse(
                    m * unit,
                    pow2(149) as int,
                    w as int,
                    left * unit,
                );
                assert(w <= m) by (nonlinear_arith)
                    requires
                        m == d * w + left,
                        d >= 1,
                        left >= 0,
                        w >= 0,
                ;
            }
            w
        };
        let w: i64 = if self.is_negative() { -(size as i64) } else { size as i64 };
        if w < low {
            low
        } else if w > high {
            high
        } else {
            w
        }
    }

    /// A small integer is represented exactly.
    pub proof fn lemma_of_int(n: int)
        requires
            -0x100_0000 < n < 0x100_0000,
        ensures
            Self::of_int(n).value() == n * pow2(149),
            Self::of_int(n).finite(),
            Self::of_int(n).negative() == (n < 0),
            Self::of_int(n).whole() == n,
    {
        reveal(Binary32::of_int);
        let m: nat = if n < 0 {
            (-n) as nat
        } else {
            n as nat
        };
        lemma_pow2_pos(149);
        rounding::lemma_round_ratio_product(m, 149);
        assert(n * pow2(149) == (if n < 0 { -(m * pow2(149)) } else { (m * pow2(149)) as int }))
            by (nonlinear_arith)
            requires
                n == (if n < 0 { -(m as int) } else { m as int }),
        ;
        vstd::arithmetic::div_mod::lemma_div_by_multiple(m as int, pow2(149) as int);
    }

    /// The value of a normal number from its fields.
    pub proof fn lemma_value_of(x: Binary32, field: nat, fraction: nat)
        requires
            0 < field <= 255,
            fraction < 0x80_0000,
            x.pattern() == field * 0x80_0000 + fraction,
        ensures
            x.size() == (0x80_0000 + fraction) * pow2((field - 1) as nat),
            field < 255 ==> x.finite(),
    {
        vstd::arithmetic::div_mod::lemma_fundamental_div_mod_converse(
            x.pattern() as int,
            0x80_0000,
            field as int,
            fraction as int,
        );
    }
}

} // verus!
