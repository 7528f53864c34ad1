//! How far the float math lies from the real functions it stands for.
//!
//! A series is compared first with the same polynomial over the reals, which
//! costs a few parts in 2^24, and that polynomial with what it approximates.
use crate::binary32::Binary32;
use crate::math;
use crate::order;
use crate::reals;
use crate::rounding;
use vstd::arithmetic::power2::*;
use vstd::prelude::*;

verus! {

/// The real number that a constant stands for.
pub open spec fn constant(bits: u32) -> real {
    reals::num(Binary32::from_bits(bits))
}

/// The polynomial of [`math::exp_series`] over the reals, without its first
/// term and its first factor.
pub open spec fn exp_slope(f: real) -> real {
    constant(math::LN_2) + f * (constant(math::EXP_2) + f * (constant(math::EXP_3) + f * (constant(
        math::EXP_4,
    ) + f * (constant(math::EXP_5) + f * constant(math::EXP_6)))))
}

/// The polynomial of [`math::exp_series`] over the reals.
pub open spec fn exact_exp(f: real) -> real {
    1 as real + f * exp_slope(f)
}

/// The polynomial of [`math::log_series`] over the reals, scaled to base 2,
/// from the quotient (m - 1) / (m + 1).
pub open spec fn exact_log(z: real) -> real {
    let z2 = z * z;
    constant(math::TWO_LOG2_E) * (z * (1 as real + z2 * (constant(math::THIRD) + z2 * (constant(
        math::FIFTH,
    ) + z2 * constant(math::SEVENTH)))))
}

/// The number that a normal pattern stands for.
pub proof fn lemma_constant(bits: u32, field: nat, fraction: nat, k: nat)
    requires
        bits == field * 0x80_0000 + fraction,
        0 < field < 255,
        fraction < 0x80_0000,
        field + k == 150,
    ensures
        Binary32::from_bits(bits).finite(),
        Binary32::from_bits(bits).value() > 0,
        constant(bits) * (pow2(k) as real) == (0x80_0000 + fraction) as real,
{
    let x = Binary32::from_bits(bits);
    Binary32::lemma_value_of(x, field, fraction);
    lemma_pow2_adds((field - 1) as nat, k);
    lemma_pow2_pos((field - 1) as nat);
    lemma_pow2_pos(149);
    reals::lemma_num(x);
    let m = (0x80_0000 + fraction) as int;
    let a = pow2((field - 1) as nat) as int;
    let b = pow2(k) as int;
    reals::lemma_product(m, a);
    reals::lemma_product(a, b);
    assert(m * a > 0) by (nonlinear_arith)
        requires
            m > 0,
            a > 0,
    ;
    let c = constant(bits);
    assert(c * (b as real) == m as real) by (nonlinear_arith)
        requires
            c * (a as real * b as real) == m as real * a as real,
            a as real >= 1 as real,
    ;
}

/// The coefficients of the exponential.
pub proof fn lemma_exp_constants()
    ensures
        constant(math::ONE) == 1 as real,
        constant(math::LN_2) * 0x100_0000 as real == 0xb1_7218 as real,
        constant(math::EXP_2) * 0x400_0000 as real == 0xf5_fdf0 as real,
        constant(math::EXP_3) * 0x1000_0000 as real == 0xe3_5844 as real,
        constant(math::EXP_4) * 0x4000_0000 as real == 0x9d_953c as real,
        constant(math::EXP_5) * 0x2_0000_0000 as real == 0xae_c57b as real,
        constant(math::EXP_6) * 0x10_0000_0000 as real == 0xa1_7b0f as real,
{
    lemma2_to64();
    lemma_constant(math::ONE, 127, 0, 23);
    lemma_constant(math::LN_2, 126, 0x31_7218, 24);
    lemma2_to64_rest();
    let one = constant(math::ONE);
    assert(one == 1 as real) by (nonlinear_arith)
        requires
            one * 0x80_0000 as real == 0x80_0000 as real,
    ;
    lemma_constant(math::EXP_2, 124, 0x75_fdf0, 26);
    lemma_constant(math::EXP_3, 122, 0x63_5844, 28);
    lemma_constant(math::EXP_4, 120, 0x1d_953c, 30);
    lemma_constant(math::EXP_5, 117, 0x2e_c57b, 33);
    lemma_constant(math::EXP_6, 114, 0x21_7b0f, 36);
}

/// The coefficients of the logarithm.
pub proof fn lemma_log_constants()
    ensures
        constant(math::ONE) == 1 as real,
        constant(math::TWO_LOG2_E) * 0x40_0000 as real == 0xb8_aa3b as real,
        constant(math::THIRD) * 0x200_0000 as real == 0xaa_aaab as real,
        constant(math::FIFTH) * 0x400_0000 as real == 0xcc_cccd as real,
        constant(math::SEVENTH) * 0x400_0000 as real == 0x92_4925 as real,
{
    lemma2_to64();
    lemma_constant(math::ONE, 127, 0, 23);
    let one = constant(math::ONE);
    assert(one == 1 as real) by (nonlinear_arith)
        requires
            one * 0x80_0000 as real == 0x80_0000 as real,
    ;
    lemma_constant(math::TWO_LOG2_E, 128, 0x38_aa3b, 22);
    lemma_constant(math::THIRD, 125, 0x2a_aaab, 25);
    lemma_constant(math::FIFTH, 124, 0x4c_cccd, 26);
    lemma_constant(math::SEVENTH, 124, 0x12_4925, 26);
}

/// One step of evaluating a polynomial on [0, 1], against the same step over
/// the reals.
pub proof fn lemma_step(
    c: Binary32,
    f: Binary32,
    p: Binary32,
    phi: real,
    q: real,
    df: real,
    d: real,
)
    requires
        c.finite(),
        f.finite(),
        p.finite(),
        c.add(f.mul(p)).finite(),
        0 <= c.value() <= pow2(149),
        0 <= f.value() <= pow2(149),
        0 <= p.value() <= pow2(151),
        0 as real <= q <= 4 as real,
        reals::near(reals::num(f), phi, df),
        reals::near(reals::num(p), q, d),
        df >= 0 as real,
        d >= 0 as real,
    ensures
        reals::near(
            reals::num(c.add(f.mul(p))),
            reals::num(c) + phi * q,
            d + 4 as real * df + 16 as real * reals::eps(),
        ),
{
    let product = f.mul(p);
    reals::lemma_eps();
    assert(f.size() * p.size() <= p.size() * pow2(149)) by (nonlinear_arith)
        requires
            f.size() <= pow2(149),
    ;
    order::lemma_mul(f, p, p);
    order::lemma_finite(product, p);
    lemma_pow2_unfold(150);
    lemma_pow2_unfold(151);
    reals::lemma_num_order(c, 1);
    reals::lemma_num_order(c, 0);
    reals::lemma_num_order(f, 1);
    reals::lemma_num_order(f, 0);
    reals::lemma_num_order(p, 4);
    reals::lemma_num_order(p, 0);
    let x = reals::num(f);
    let y = reals::num(p);
    let xy = x * y;
    assert(0 as real <= xy <= 4 as real) by (nonlinear_arith)
        requires
            0 as real <= x <= 1 as real,
            0 as real <= y <= 4 as real,
            xy == x * y,
    ;
    assert(xy - phi * q <= d + 4 as real * df && phi * q - xy <= d + 4 as real * df)
        by (nonlinear_arith)
        requires
            xy == x * y,
            0 as real <= x <= 1 as real,
            0 as real <= q <= 4 as real,
            -d <= y - q <= d,
            -df <= x - phi <= df,
            df >= 0 as real,
            d >= 0 as real,
    ;
    reals::lemma_num_mul(f, p);
    reals::lemma_eps_of(xy);
    let r = reals::num(product);
    reals::lemma_num_add(c, product);
    reals::lemma_eps_of(reals::num(c) + r);
}

/// The shares in which the polynomials are bounded.
pub proof fn lemma_shares()
    ensures
        reals::ratio(155, 1_000_000) * 1_000_000 as real == 155 as real,
        reals::ratio(149, 100_000) * 100_000 as real == 149 as real,
        reals::ratio(1111, 100_000) * 100_000 as real == 1111 as real,
        reals::ratio(6662, 100_000) * 100_000 as real == 6662 as real,
        reals::ratio(30685, 100_000) * 100_000 as real == 30685 as real,
        reals::ratio(1, 100) * 100 as real == 1 as real,
        reals::ratio(2, 100) * 100 as real == 2 as real,
        reals::ratio(8, 100) * 100 as real == 8 as real,
        reals::ratio(32, 100) * 100 as real == 32 as real,
        reals::ratio(102, 100) * 100 as real == 102 as real,
{
    reals::lemma_ratio(155, 1_000_000);
    reals::lemma_ratio(149, 100_000);
    reals::lemma_ratio(1111, 100_000);
    reals::lemma_ratio(6662, 100_000);
    reals::lemma_ratio(30685, 100_000);
    reals::lemma_ratio(1, 100);
    reals::lemma_ratio(2, 100);
    reals::lemma_ratio(8, 100);
    reals::lemma_ratio(32, 100);
    reals::lemma_ratio(102, 100);
}

/// The polynomial and the parts it is made of, on [0, 1].
pub proof fn lemma_exp_parts(f: real)
    requires
        0 as real <= f <= 1 as real,
    ensures
        ({
            let q5 = constant(math::EXP_5) + f * constant(math::EXP_6);
            let q4 = constant(math::EXP_4) + f * q5;
            let q3 = constant(math::EXP_3) + f * q4;
            let q2 = constant(math::EXP_2) + f * q3;
            let q1 = constant(math::LN_2) + f * q2;
            &&& 0 as real <= constant(math::EXP_6) * 100 as real <= 1 as real
            &&& 0 as real <= q5 * 100 as real <= 1 as real
            &&& 0 as real <= q4 * 100 as real <= 2 as real
            &&& 0 as real <= q3 * 100 as real <= 8 as real
            &&& 0 as real <= q2 * 100 as real <= 32 as real
            &&& 69 as real <= q1 * 100 as real <= 102 as real
            &&& exp_slope(f) == q1
            &&& 1 as real <= exact_exp(f) <= 2 as real
        }),
{
    lemma_exp_constants();
    let c6 = constant(math::EXP_6);
    let c5 = constant(math::EXP_5);
    let c4 = constant(math::EXP_4);
    let c3 = constant(math::EXP_3);
    let c2 = constant(math::EXP_2);
    let c1 = constant(math::LN_2);
    lemma_shares();
    let q5 = c5 + f * c6;
    lemma_between(f, c6, reals::ratio(155, 1_000_000));
    assert(0 as real <= q5 <= reals::ratio(149, 100_000));
    let q4 = c4 + f * q5;
    lemma_between(f, q5, reals::ratio(149, 100_000));
    assert(0 as real <= q4 <= reals::ratio(1111, 100_000));
    let q3 = c3 + f * q4;
    lemma_between(f, q4, reals::ratio(1111, 100_000));
    let q2 = c2 + f * q3;
    lemma_between(f, q3, reals::ratio(6662, 100_000));
    let q1 = c1 + f * q2;
    lemma_between(f, q2, reals::ratio(30685, 100_000));
    lemma_between(f, q1, 1 as real);
}

/// The polynomial falls just short of doubling.
pub proof fn lemma_exp_of_one()
    ensures
        exact_exp(1 as real) * 100_000 as real >= 199_998 as real,
        exact_exp(1 as real) <= 2 as real,
{
    let one = 1 as real;
    lemma_exp_parts(one);
    lemma_exp_constants();
    assert(exact_exp(one) * 100_000 as real >= 199_998 as real);
}

/// A part of a number that is not negative.
pub proof fn lemma_between(f: real, q: real, most: real)
    requires
        0 as real <= f <= 1 as real,
        0 as real <= q <= most,
    ensures
        0 as real <= f * q <= most,
{
    assert(0 as real <= f * q <= most) by (nonlinear_arith)
        requires
            0 as real <= f <= 1 as real,
            0 as real <= q <= most,
    ;
}

/// The series of the exponential against its polynomial.
pub proof fn lemma_exp_series(f: Binary32, phi: real)
    requires
        f.finite(),
        0 <= f.value() <= pow2(149),
        0 as real <= phi <= 1 as real,
        reals::near(reals::num(f), phi, reals::eps()),
    ensures
        math::exp_series(f).finite(),
        math::exp_series(f).value() >= pow2(149),
        reals::near(
            reals::num(math::exp_series(f)),
            exact_exp(phi),
            120 as real * reals::eps(),
        ),
{
    let e = reals::eps();
    reals::lemma_eps();
    lemma_exp_constants();
    lemma_exp_parts(phi);
    math::lemma_exp_series(f);
    let c6 = Binary32::from_bits(math::EXP_6);
    let c5 = Binary32::from_bits(math::EXP_5);
    let c4 = Binary32::from_bits(math::EXP_4);
    let c3 = Binary32::from_bits(math::EXP_3);
    let c2 = Binary32::from_bits(math::EXP_2);
    let c1 = Binary32::from_bits(math::LN_2);
    let c0 = Binary32::from_bits(math::ONE);
    order::lemma_within_bits(c6, 140);
    order::lemma_within_bits(c5, 140);
    order::lemma_within_bits(c4, 143);
    order::lemma_within_bits(c3, 145);
    order::lemma_within_bits(c2, 147);
    order::lemma_within_bits(c1, 149);
    order::lemma_within_bits(c0, 149);
    order::lemma_within_weaken(c0, 149, 150);
    order::lemma_power(149);
    rounding::lemma_pow2_order(140, 149);
    rounding::lemma_pow2_order(143, 149);
    rounding::lemma_pow2_order(145, 149);
    rounding::lemma_pow2_order(147, 149);
    rounding::lemma_pow2_order(149, 151);
    rounding::lemma_pow2_order(150, 151);
    let q5 = reals::num(c5) + phi * reals::num(c6);
    let q4 = reals::num(c4) + phi * q5;
    let q3 = reals::num(c3) + phi * q4;
    let q2 = reals::num(c2) + phi * q3;
    let q1 = reals::num(c1) + phi * q2;
    let p5 = c5.add(f.mul(c6));
    order::lemma_horner(c5, f, c6, 140);
    order::lemma_within_weaken(p5, 141, 143);
    lemma_step(c5, f, c6, phi, reals::num(c6), e, 0 as real);
    let p4 = c4.add(f.mul(p5));
    order::lemma_horner(c4, f, p5, 143);
    order::lemma_within_weaken(p4, 144, 145);
    lemma_step(c4, f, p5, phi, q5, e, 20 as real * e);
    let p3 = c3.add(f.mul(p4));
    order::lemma_horner(c3, f, p4, 145);
    order::lemma_within_weaken(p3, 146, 147);
    lemma_step(c3, f, p4, phi, q4, e, 40 as real * e);
    let p2 = c2.add(f.mul(p3));
    order::lemma_horner(c2, f, p3, 147);
    order::lemma_within_weaken(p2, 148, 149);
    lemma_step(c2, f, p3, phi, q3, e, 60 as real * e);
    let p1 = c1.add(f.mul(p2));
    order::lemma_horner(c1, f, p2, 149);
    lemma_step(c1, f, p2, phi, q2, e, 80 as real * e);
    lemma_step(c0, f, p1, phi, q1, e, 100 as real * e);
}

/// A polynomial that rises slowly still does after one more step.
pub proof fn lemma_rise(a: real, b: real, c: real, qa: real, qb: real, steep: real, most: real)
    requires
        0 as real <= a <= b <= 1 as real,
        0 as real <= qb - qa <= steep * (b - a),
        0 as real <= qa,
        qb <= most,
    ensures
        (b - a) * qa <= (c + b * qb) - (c + a * qa) <= (steep + most) * (b - a),
        0 as real <= (c + b * qb) - (c + a * qa),
{
    let d = b - a;
    let rise = qb - qa;
    let step = steep * d;
    assert(b * qb - a * qa == d * qb + a * rise && b * qb - a * qa == d * qa + b * rise)
        by (nonlinear_arith)
        requires
            d == b - a,
            rise == qb - qa,
    ;
    assert(0 as real <= d * qa && d * qb <= d * most && 0 as real <= b * rise && a * rise <= step)
        by (nonlinear_arith)
        requires
            0 as real <= d,
            0 as real <= qa,
            qb <= most,
            0 as real <= a <= 1 as real,
            0 as real <= b,
            0 as real <= rise <= step,
    ;
    assert((steep + most) * d == step + d * most) by (nonlinear_arith)
        requires
            step == steep * d,
    ;
}

/// The polynomial rises by two thirds to twice of what its argument does.
pub proof fn lemma_exp_rise(a: real, b: real)
    requires
        0 as real <= a <= b <= 1 as real,
    ensures
        2 as real * (b - a) <= 3 as real * (exact_exp(b) - exact_exp(a)),
        exact_exp(b) - exact_exp(a) <= 2 as real * (b - a),
{
    lemma_exp_parts(a);
    lemma_exp_parts(b);
    let c6 = constant(math::EXP_6);
    let c5 = constant(math::EXP_5);
    let c4 = constant(math::EXP_4);
    let c3 = constant(math::EXP_3);
    let c2 = constant(math::EXP_2);
    let c1 = constant(math::LN_2);
    let one = 1 as real;
    let a5 = c5 + a * c6;
    let a4 = c4 + a * a5;
    let a3 = c3 + a * a4;
    let a2 = c2 + a * a3;
    let a1 = c1 + a * a2;
    let b5 = c5 + b * c6;
    let b4 = c4 + b * b5;
    let b3 = c3 + b * b4;
    let b2 = c2 + b * b3;
    let b1 = c1 + b * b2;
    let d = b - a;
    assert(0 as real * d == 0 as real) by (nonlinear_arith);
    let s5 = reals::ratio(1, 100);
    let s4 = reals::ratio(2, 100);
    lemma_shares();
    lemma_rise(a, b, c5, c6, c6, 0 as real, s5);
    lemma_rise(a, b, c4, a5, b5, 0 as real + s5, s5);
    lemma_rise(a, b, c3, a4, b4, 0 as real + s5 + s5, s4);
    lemma_rise(a, b, c2, a3, b3, 0 as real + s5 + s5 + s4, reals::ratio(8, 100));
    lemma_rise(
        a,
        b,
        c1,
        a2,
        b2,
        0 as real + s5 + s5 + s4 + reals::ratio(8, 100),
        reals::ratio(32, 100),
    );
    let s = 0 as real + s5 + s5 + s4 + reals::ratio(8, 100) + reals::ratio(32, 100);
    lemma_rise(a, b, one, a1, b1, s, reals::ratio(102, 100));
    let top = s + reals::ratio(102, 100);
    assert(top * d <= 2 as real * d) by (nonlinear_arith)
        requires
            top <= 2 as real,
            d >= 0 as real,
    ;
    assert(3 as real * (d * a1) >= 2 as real * d) by (nonlinear_arith)
        requires
            a1 * 100 as real >= 69 as real,
            d >= 0 as real,
    ;
}

/// The integer below a number.
pub open spec fn whole_part(x: Binary32) -> int {
    x.value() / (pow2(149) as int)
}

/// What a number exceeds the integer below it by.
pub open spec fn fraction_part(x: Binary32) -> real {
    reals::num(x) - whole_part(x) as real
}

/// The exponential is its polynomial at the fraction times a power of two,
/// within 128 parts in 2^24.
pub proof fn lemma_exp2(x: Binary32)
    requires
        x.finite(),
        -126 * pow2(149) <= x.value() <= 127 * pow2(149),
    ensures
        ({
            let w = whole_part(x);
            let s = pow2((w + 149) as nat) as real;
            &&& -126 <= w <= 127
            &&& 0 as real <= fraction_part(x) < 1 as real
            &&& math::exp2(x).finite()
            &&& math::exp2(x).value() >= pow2((w + 149) as nat)
            &&& reals::near(
                math::exp2(x).value() as real,
                exact_exp(fraction_part(x)) * s,
                128 as real * reals::eps() * s,
            )
        }),
{
    let unit = pow2(149);
    lemma_pow2_pos(149);
    math::lemma_limits();
    math::lemma_floor_range(x);
    let w = math::floor(x).whole_within(i32::MIN as int, i32::MAX as int);
    assert(w == whole_part(x)) by {
        let rest = x.value() - w * unit;
        assert((w + 1) * unit == w * unit + unit) by (nonlinear_arith);
        vstd::arithmetic::div_mod::lemma_fundamental_div_mod_converse(
            x.value(),
            unit as int,
            w,
            rest,
        );
    }
    math::lemma_fraction(x, w);
    let whole = math::floor(x);
    let f = x.sub(whole);
    Binary32::lemma_of_int(w);
    let phi = fraction_part(x);
    reals::lemma_eps();
    // The fraction, rounded once.
    let minus = whole.neg();
    order::lemma_neg(whole);
    assert(f == x.add(minus));
    reals::lemma_num_add(x, minus);
    reals::lemma_num_order(x, w);
    reals::lemma_num_order(x, w + 1);
    reals::lemma_num_order(minus, -w);
    assert(minus.value() == (-w) * unit) by (nonlinear_arith)
        requires
            minus.value() == -(w * unit),
    ;
    assert(reals::num(x) + reals::num(minus) == phi);
    reals::lemma_eps_of(phi);
    lemma_exp_series(f, phi);
    lemma_exp_parts(phi);
    let p = math::exp_series(f);
    let scale = math::power_of_two(w);
    let e = (w + 149) as nat;
    order::lemma_power(e);
    assert(scale == order::power(e));
    rounding::lemma_pow2_order(23, e);
    let r = p.mul(scale);
    // The product is in the normal range.
    lemma2_to64();
    assert(p.size() * scale.size() >= 0x80_0000 * unit) by (nonlinear_arith)
        requires
            p.size() >= unit,
            scale.size() >= 0x80_0000,
    ;
    assert(p.size() * scale.size() >= scale.size() * unit) by (nonlinear_arith)
        requires
            p.size() >= unit,
    ;
    order::lemma_mul(p, scale, scale);
    reals::lemma_num_order(p, 3);
    if w == 127 {
        assert(phi == 0 as real);
        assert(exact_exp(phi) == 1 as real) by (nonlinear_arith)
            requires
                phi == 0 as real,
                exact_exp(phi) == 1 as real + phi * exp_slope(phi),
        ;
        lemma_product_finite(p, scale, 127, 2);
    } else {
        lemma_product_finite(p, scale, w, 3);
    }
    order::lemma_mul_error(p, scale);
    let s = scale.value() as real;
    let n = 0x100_0000 as real;
    let u = unit as real;
    let y = reals::num(p);
    reals::lemma_num(p);
    reals::lemma_product(r.value(), unit as int);
    reals::lemma_product(p.value(), scale.value());
    let v = r.value() as real;
    let ys = y * s;
    assert(n * v <= (n + 1 as real) * ys && n * v >= (n - 1 as real) * ys) by (nonlinear_arith)
        requires
            n * (v * u) <= (n + 1 as real) * ((y * u) * s),
            n * (v * u) >= (n - 1 as real) * ((y * u) * s),
            ys == y * s,
            u > 0 as real,
    ;
    let k = reals::eps();
    let es = k * s;
    reals::lemma_eps_of(s);
    reals::lemma_eps_of(ys);
    let big = exact_exp(phi);
    assert(ys <= 3 as real * s && ys - big * s <= 120 as real * es && big * s - ys <= 120 as real
        * es) by (nonlinear_arith)
        requires
            ys == y * s,
            y <= 3 as real,
            y - big <= 120 as real * k,
            big - y <= 120 as real * k,
            es == k * s,
            s > 0 as real,
    ;
    assert(128 as real * k * s == 128 as real * es) by (nonlinear_arith)
        requires
            es == k * s,
    ;
}

/// A product of at most three and a power of two below the largest, or of
/// at most two and the largest.
pub proof fn lemma_product_finite(p: Binary32, scale: Binary32, w: int, most: int)
    requires
        p.finite(),
        !p.negative(),
        reals::num(p) <= most as real,
        -126 <= w <= 127,
        scale == order::power((w + 149) as nat),
        most == 3 && w <= 126 || most == 2 && reals::num(p) <= 3 as real / 2 as real,
        p.value() >= 0,
    ensures
        p.mul(scale).finite(),
{
    let e = (w + 149) as nat;
    let top = Binary32::from_bits(0x7f40_0000);
    order::lemma_power(e);
    Binary32::lemma_value_of(top, 254, 0x40_0000);
    lemma2_to64();
    lemma_pow2_adds(253, 22);
    let unit = pow2(149);
    assert(top.size() == 3 * pow2(275)) by (nonlinear_arith)
        requires
            top.size() == 0xc0_0000 * pow2(253),
            pow2(275) == pow2(253) * 0x40_0000,
    ;
    reals::lemma_num(p);
    lemma_pow2_unfold(276);
    let y = reals::num(p);
    let u = unit as real;
    lemma_pow2_pos(149);
    assert(p.size() * scale.size() <= top.size() * unit) by {
        if w <= 126 {
            rounding::lemma_pow2_order(e, 275);
            assert(y * u <= 3 as real * u) by (nonlinear_arith)
                requires
                    y <= 3 as real,
                    u > 0 as real,
            ;
            assert(p.size() <= 3 * unit);
            assert(p.size() * scale.size() <= top.size() * unit) by (nonlinear_arith)
                requires
                    p.size() <= 3 * unit,
                    scale.size() <= pow2(275),
                    top.size() == 3 * pow2(275),
            ;
        } else {
            assert(2 as real * (y * u) <= 3 as real * u) by (nonlinear_arith)
                requires
                    y <= 3 as real / 2 as real,
                    u > 0 as real,
            ;
            assert(2 * p.size() <= 3 * unit);
            assert(p.size() * scale.size() <= top.size() * unit) by (nonlinear_arith)
                requires
                    2 * p.size() <= 3 * unit,
                    scale.size() == 2 * pow2(275),
                    top.size() == 3 * pow2(275),
            ;
        }
    }
    order::lemma_mul(p, scale, top);
    order::lemma_finite(p.mul(scale), top);
}

/// A polynomial with rising steps lies above its tangent.
pub proof fn lemma_tangent(a: real, b: real, c: real, qa: real, qb: real, slope: real)
    requires
        0 as real <= a <= b,
        qb - qa <= (b - a) * slope,
        0 as real <= slope,
    ensures
        (c + b * qb) - (c + a * qa) <= (b - a) * (qb + b * slope),
{
    let d = b - a;
    let rise = qb - qa;
    let step = d * slope;
    lemma_product_sign(d, slope);
    assert(b * qb - a * qa == d * qb + a * rise) by (nonlinear_arith)
        requires
            d == b - a,
            rise == qb - qa,
    ;
    assert(a * rise <= a * step) by (nonlinear_arith)
        requires
            rise <= step,
            0 as real <= a,
    ;
    assert(a * step <= b * step) by (nonlinear_arith)
        requires
            0 as real <= step,
            a <= b,
    ;
    assert(d * (qb + b * slope) == d * qb + b * step) by (nonlinear_arith)
        requires
            step == d * slope,
    ;
}

/// A polynomial with rising steps lies above its tangent, seen from below.
pub proof fn lemma_tangent_below(a: real, b: real, c: real, qa: real, qb: real, slope: real)
    requires
        0 as real <= a <= b,
        qb - qa >= (b - a) * slope,
        0 as real <= slope,
    ensures
        (c + b * qb) - (c + a * qa) >= (b - a) * (qa + a * slope),
{
    let d = b - a;
    let rise = qb - qa;
    let step = d * slope;
    lemma_product_sign(d, slope);
    assert(b * qb - a * qa == d * qa + b * rise) by (nonlinear_arith)
        requires
            d == b - a,
            rise == qb - qa,
    ;
    assert(b * rise >= b * step) by (nonlinear_arith)
        requires
            rise >= step,
            0 as real <= b,
    ;
    assert(a * step <= b * step) by (nonlinear_arith)
        requires
            0 as real <= step,
            a <= b,
    ;
    assert(d * (qa + a * slope) == d * qa + a * step) by (nonlinear_arith)
        requires
            step == d * slope,
    ;
}

/// From a to b the polynomial rises by at most 0.6932 of its value at b for
/// each unit.
pub proof fn lemma_exp_relative(a: real, b: real)
    requires
        0 as real <= a <= b <= 1 as real,
    ensures
        exact_exp(b) - exact_exp(a) <= (b - a) * (6932 as real / 10_000 as real * exact_exp(b)),
{
    lemma_exp_parts(b);
    lemma_exp_constants();
    let c6 = constant(math::EXP_6);
    let c5 = constant(math::EXP_5);
    let c4 = constant(math::EXP_4);
    let c3 = constant(math::EXP_3);
    let c2 = constant(math::EXP_2);
    let c1 = constant(math::LN_2);
    let a5 = c5 + a * c6;
    let a4 = c4 + a * a5;
    let a3 = c3 + a * a4;
    let a2 = c2 + a * a3;
    let a1 = c1 + a * a2;
    let b5 = c5 + b * c6;
    let b4 = c4 + b * b5;
    let b3 = c3 + b * b4;
    let b2 = c2 + b * b3;
    let b1 = c1 + b * b2;
    let d5 = c6 + b * (0 as real);
    let d4 = b5 + b * d5;
    let d3 = b4 + b * d4;
    let d2 = b3 + b * d3;
    let d1 = b2 + b * d2;
    let d0 = b1 + b * d1;
    let d = b - a;
    assert(d * (0 as real) == 0 as real && b * (0 as real) == 0 as real) by (nonlinear_arith);
    lemma_tangent(a, b, c5, c6, c6, 0 as real);
    lemma_product_sign(b, d5);
    lemma_tangent(a, b, c4, a5, b5, d5);
    lemma_product_sign(b, d4);
    lemma_tangent(a, b, c3, a4, b4, d4);
    lemma_product_sign(b, d3);
    lemma_tangent(a, b, c2, a3, b3, d3);
    lemma_product_sign(b, d2);
    lemma_tangent(a, b, c1, a2, b2, d2);
    lemma_product_sign(b, d1);
    lemma_tangent(a, b, 1 as real, a1, b1, d1);
    // The derivative, term by term.
    let s = 6932 as real / 10_000 as real;
    lemma_derivative(b, 6 as real, s, c5, c6, c6, 0 as real, 0 as real);
    lemma_derivative(b, 5 as real, s, c4, c5, b5, c6, d5);
    lemma_derivative(b, 4 as real, s, c3, c4, b4, b5, d4);
    lemma_derivative(b, 3 as real, s, c2, c3, b3, b4, d3);
    lemma_derivative(b, 2 as real, s, c1, c2, b2, b3, d2);
    lemma_derivative(b, 1 as real, s, 1 as real, c1, b1, b2, d1);
    assert(0 as real * b1 == 0 as real) by (nonlinear_arith);
    let p = s * exact_exp(b);
    assert(d * d0 <= d * p) by (nonlinear_arith)
        requires
            d >= 0 as real,
            d0 <= p,
    ;
}

/// From a to b the polynomial rises by at least 0.6929 of its value at a for
/// each unit.
pub proof fn lemma_exp_relative_below(a: real, b: real)
    requires
        0 as real <= a <= b <= 1 as real,
    ensures
        exact_exp(b) - exact_exp(a) >= (b - a) * (6929 as real / 10_000 as real * exact_exp(a)),
{
    lemma_exp_parts(a);
    lemma_exp_constants();
    let c6 = constant(math::EXP_6);
    let c5 = constant(math::EXP_5);
    let c4 = constant(math::EXP_4);
    let c3 = constant(math::EXP_3);
    let c2 = constant(math::EXP_2);
    let c1 = constant(math::LN_2);
    let a5 = c5 + a * c6;
    let a4 = c4 + a * a5;
    let a3 = c3 + a * a4;
    let a2 = c2 + a * a3;
    let a1 = c1 + a * a2;
    let b5 = c5 + b * c6;
    let b4 = c4 + b * b5;
    let b3 = c3 + b * b4;
    let b2 = c2 + b * b3;
    let b1 = c1 + b * b2;
    let d5 = c6 + a * (0 as real);
    let d4 = a5 + a * d5;
    let d3 = a4 + a * d4;
    let d2 = a3 + a * d3;
    let d1 = a2 + a * d2;
    let d0 = a1 + a * d1;
    let d = b - a;
    assert(d * (0 as real) == 0 as real && a * (0 as real) == 0 as real) by (nonlinear_arith);
    lemma_tangent_below(a, b, c5, c6, c6, 0 as real);
    lemma_product_sign(a, d5);
    lemma_tangent_below(a, b, c4, a5, b5, d5);
    lemma_product_sign(a, d4);
    lemma_tangent_below(a, b, c3, a4, b4, d4);
    lemma_product_sign(a, d3);
    lemma_tangent_below(a, b, c2, a3, b3, d3);
    lemma_product_sign(a, d2);
    lemma_tangent_below(a, b, c1, a2, b2, d2);
    lemma_product_sign(a, d1);
    lemma_tangent_below(a, b, 1 as real, a1, b1, d1);
    // The derivative, term by term, but for the last one.
    let s = 6929 as real / 10_000 as real;
    let z = s * c6;
    lemma_derivative_below(a, 6 as real, s, c5, c6, c6, 0 as real, 0 as real, z);
    lemma_derivative_below(a, 5 as real, s, c4, c5, a5, c6, d5, z);
    lemma_derivative_below(a, 4 as real, s, c3, c4, a4, a5, d4, z);
    lemma_derivative_below(a, 3 as real, s, c2, c3, a3, a4, d3, z);
    lemma_derivative_below(a, 2 as real, s, c1, c2, a2, a3, d2, z);
    lemma_derivative_below(a, 1 as real, s, 1 as real, c1, a1, a2, d1, z);
    assert(0 as real * a1 == 0 as real) by (nonlinear_arith);
    let p = s * exact_exp(a);
    assert(d * d0 >= d * p) by (nonlinear_arith)
        requires
            d >= 0 as real,
            d0 >= p,
    ;
}

/// The product of two numbers that are not negative.
pub proof fn lemma_product_sign(a: real, b: real)
    requires
        a >= 0 as real,
        b >= 0 as real,
    ensures
        a * b >= 0 as real,
{
    assert(a * b >= 0 as real) by (nonlinear_arith)
        requires
            a >= 0 as real,
            b >= 0 as real,
    ;
}

/// One step of holding a multiple of a polynomial against its derivative:
/// `q` is the polynomial from one coefficient on, `after` that from the next
/// one on, and `d` the derivative of `q`.
proof fn lemma_derivative(
    b: real,
    k: real,
    s: real,
    c: real,
    next: real,
    q: real,
    after: real,
    d: real,
)
    requires
        b >= 0 as real,
        q == next + b * after,
        s * q - k * after - d >= 0 as real,
        s * c >= k * next,
    ensures
        s * (c + b * q) - (k - 1 as real) * q - (q + b * d) >= 0 as real,
{
    let h = s * q - k * after - d;
    lemma_product_sign(b, h);
    lemma_derivative_identity(b, k, s, c, next, q, after, d);
}

/// The same step with the sign turned.
proof fn lemma_derivative_below(
    b: real,
    k: real,
    s: real,
    c: real,
    next: real,
    q: real,
    after: real,
    d: real,
    z: real,
)
    requires
        0 as real <= b <= 1 as real,
        q == next + b * after,
        d + k * after - s * q >= -z,
        z >= 0 as real,
        k * next >= s * c,
    ensures
        (q + b * d) + (k - 1 as real) * q - s * (c + b * q) >= k * next - s * c - z,
{
    let h = s * q - k * after - d;
    assert(b * h <= z) by (nonlinear_arith)
        requires
            h <= z,
            z >= 0 as real,
            0 as real <= b <= 1 as real,
    ;
    lemma_derivative_identity(b, k, s, c, next, q, after, d);
}

/// What a step adds.
proof fn lemma_derivative_identity(
    b: real,
    k: real,
    s: real,
    c: real,
    next: real,
    q: real,
    after: real,
    d: real,
)
    requires
        q == next + b * after,
    ensures
        s * (c + b * q) - (k - 1 as real) * q - (q + b * d) == s * c - k * next + b * (s * q - k
            * after - d),
{
    let sq = s * q;
    let ka = k * after;
    let h = sq - ka - d;
    assert(b * h == b * sq - b * ka - b * d) by (nonlinear_arith)
        requires
            h == sq - ka - d,
    ;
    assert((k - 1 as real) * q == k * next + b * ka - q) by (nonlinear_arith)
        requires
            q == next + b * after,
            ka == k * after,
    ;
    assert(s * (c + b * q) == s * c + b * sq) by (nonlinear_arith)
        requires
            sq == s * q,
    ;
}

} // verus!
