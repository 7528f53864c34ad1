//! The exponential and the logarithm polynomials undo each other.
use crate::bounds;
use crate::exponential;
use crate::logarithm;
use crate::math;
use crate::reals;
use vstd::prelude::*;

verus! {

/// One step of evaluating two polynomials whose coefficients and arguments
/// are close.
pub proof fn lemma_pair(
    c: real,
    g: real,
    f: real,
    h: real,
    q: real,
    r: real,
    dc: real,
    df: real,
    d: real,
)
    requires
        reals::near(c, g, dc),
        reals::near(f, h, df),
        reals::near(q, r, d),
        0 as real <= f <= 1 as real,
        0 as real <= r <= 4 as real,
    ensures
        reals::near(c + f * q, g + h * r, dc + d + 4 as real * df),
{
    logarithm::lemma_product_error(f, q, h, r, df, d, 4 as real);
}

/// The scaled coefficients of the exponential are the factorials' inverses.
pub proof fn lemma_factorials(s: real)
    requires
        s * 0x80_0000 as real == 0xb8_aa3b as real,
    ensures
        ({
            let d = 1 as real / 1_000_000 as real;
            let s2 = s * s;
            let s3 = s2 * s;
            let s4 = s3 * s;
            let s5 = s4 * s;
            let s6 = s5 * s;
            &&& reals::near(s * exponential::constant(math::LN_2), 1 as real, d)
            &&& reals::near(s2 * exponential::constant(math::EXP_2), 1 as real / 2 as real, d)
            &&& reals::near(s3 * exponential::constant(math::EXP_3), 1 as real / 6 as real, d)
            &&& reals::near(s4 * exponential::constant(math::EXP_4), 1 as real / 24 as real, d)
            &&& reals::near(s5 * exponential::constant(math::EXP_5), 1 as real / 120 as real, d)
            &&& reals::near(s6 * exponential::constant(math::EXP_6), 1 as real / 720 as real, d)
        }),
{
    exponential::lemma_exp_constants();
    let c1 = exponential::constant(math::LN_2);
    let c2 = exponential::constant(math::EXP_2);
    let c3 = exponential::constant(math::EXP_3);
    let c4 = exponential::constant(math::EXP_4);
    let c5 = exponential::constant(math::EXP_5);
    let c6 = exponential::constant(math::EXP_6);
    let d = 1 as real / 1_000_000 as real;
    let s2 = s * s;
    let s3 = s2 * s;
    let s4 = s3 * s;
    let s5 = s4 * s;
    let s6 = s5 * s;
    assert(s == 0xb8_aa3b as real / 0x80_0000 as real);
    assert(-d <= s * c1 - 1 as real <= d) by (nonlinear_arith)
        requires
            s == 0xb8_aa3b as real / 0x80_0000 as real,
            c1 * 0x100_0000 as real == 0xb1_7218 as real,
            d == 1 as real / 1_000_000 as real,
    ;
    assert(-d <= s2 * c2 - 1 as real / 2 as real <= d) by (nonlinear_arith)
        requires
            s2 == s * s,
            s == 0xb8_aa3b as real / 0x80_0000 as real,
            c2 * 0x400_0000 as real == 0xf5_fdf0 as real,
            d == 1 as real / 1_000_000 as real,
    ;
    assert(-d <= s3 * c3 - 1 as real / 6 as real <= d) by (nonlinear_arith)
        requires
            s3 == s * s * s,
            s == 0xb8_aa3b as real / 0x80_0000 as real,
            c3 * 0x1000_0000 as real == 0xe3_5844 as real,
            d == 1 as real / 1_000_000 as real,
    ;
    assert(-d <= s4 * c4 - 1 as real / 24 as real <= d) by (nonlinear_arith)
        requires
            s4 == s * s * s * s,
            s == 0xb8_aa3b as real / 0x80_0000 as real,
            c4 * 0x4000_0000 as real == 0x9d_953c as real,
            d == 1 as real / 1_000_000 as real,
    ;
    assert(-d <= s5 * c5 - 1 as real / 120 as real <= d) by (nonlinear_arith)
        requires
            s5 == s * s * s * s * s,
            s == 0xb8_aa3b as real / 0x80_0000 as real,
            c5 * 0x2_0000_0000 as real == 0xae_c57b as real,
            d == 1 as real / 1_000_000 as real,
    ;
    assert(-d <= s6 * c6 - 1 as real / 720 as real <= d) by (nonlinear_arith)
        requires
            s6 == s * s * s * s * s * s,
            s == 0xb8_aa3b as real / 0x80_0000 as real,
            c6 * 0x10_0000_0000 as real == 0xa1_7b0f as real,
            d == 1 as real / 1_000_000 as real,
    ;
}

/// The logarithm polynomial with its coefficients unrounded.
pub proof fn lemma_tangent(z: real)
    requires
        0 as real <= z <= 1 as real / 3 as real,
    ensures
        ({
            let a = z * (1 as real + z * z * (1 as real / 3 as real + z * z * (1 as real / 5 as real
                + z * z * (1 as real / 7 as real))));
            let t = exponential::exact_log(z) / exponential::constant(math::TWO_LOG2_E);
            &&& reals::near(t, a, 1 as real / 10_000_000 as real)
            &&& 0 as real <= t <= 35 as real / 100 as real
            &&& 0 as real <= a <= 36 as real / 100 as real
            &&& exponential::exact_log(z) == exponential::constant(math::TWO_LOG2_E) * t
        }),
{
    exponential::lemma_log_constants();
    logarithm::lemma_log_parts(z);
    let c = exponential::constant(math::TWO_LOG2_E);
    let z2 = z * z;
    let e = 1 as real / 100_000_000 as real;
    let c7 = exponential::constant(math::SEVENTH);
    let c5 = exponential::constant(math::FIFTH);
    let c3 = exponential::constant(math::THIRD);
    let q5 = c5 + z2 * c7;
    let q3 = c3 + z2 * q5;
    let q1 = 1 as real + z2 * q3;
    let r7 = 1 as real / 7 as real;
    let r5 = 1 as real / 5 as real + z2 * r7;
    let r3 = 1 as real / 3 as real + z2 * r5;
    let r1 = 1 as real + z2 * r3;
    exponential::lemma_between(z2, r7, 1 as real / 7 as real);
    exponential::lemma_between(z2, r5, 1 as real / 2 as real);
    exponential::lemma_between(z2, r3, 1 as real);
    lemma_pair(c5, 1 as real / 5 as real, z2, z2, c7, r7, e, 0 as real, e);
    lemma_pair(c3, 1 as real / 3 as real, z2, z2, q5, r5, e, 0 as real, 2 as real * e);
    lemma_pair(1 as real, 1 as real, z2, z2, q3, r3, 0 as real, 0 as real, 3 as real * e);
    lemma_pair(0 as real, 0 as real, z, z, q1, r1, 0 as real, 0 as real, 3 as real * e);
    let t = exponential::exact_log(z) / c;
    let zq = z * q1;
    assert(t == zq) by (nonlinear_arith)
        requires
            t == (c * zq) / c,
            c > 0 as real,
    ;
    assert(100 as real * zq <= 35 as real) by (nonlinear_arith)
        requires
            c * zq * 1_000_000 as real <= 999_983 as real,
            c * 0x40_0000 as real == 0xb8_aa3b as real,
    ;
    assert(0 as real <= zq) by (nonlinear_arith)
        requires
            c * zq >= 0 as real,
            c > 0 as real,
    ;
    assert(z * r1 >= 0 as real) by (nonlinear_arith)
        requires
            z >= 0 as real,
            r1 >= 0 as real,
    ;
}

/// The exponential polynomial undoes the logarithm polynomial.
pub proof fn lemma_exp_log(m: real)
    requires
        1 as real <= m <= 2 as real,
    ensures
        ({
            let phi = exponential::exact_log(logarithm::quotient(m));
            &&& 0 as real <= phi < 1 as real
            &&& reals::near(exponential::exact_exp(phi), m, 25 as real / 100_000 as real)
        }),
{
    let z = logarithm::quotient(m);
    logarithm::lemma_quotient(m);
    logarithm::lemma_log_parts(z);
    lemma_tangent(z);
    exponential::lemma_log_constants();
    let c = exponential::constant(math::TWO_LOG2_E);
    let s = c / 2 as real;
    lemma_factorials(s);
    let phi = exponential::exact_log(z);
    let a = z * (1 as real + z * z * (1 as real / 3 as real + z * z * (1 as real / 5 as real + z * z
        * (1 as real / 7 as real))));
    let t = 2 as real * a;
    let x = 2 as real * (phi / c);
    assert(phi == s * x) by (nonlinear_arith)
        requires
            phi == c * (phi / c),
            s == c / 2 as real,
            x == 2 as real * (phi / c),
    ;
    let d = 1 as real / 1_000_000 as real;
    let df = 2 as real / 10_000_000 as real;
    let c1 = exponential::constant(math::LN_2);
    let c2 = exponential::constant(math::EXP_2);
    let c3 = exponential::constant(math::EXP_3);
    let c4 = exponential::constant(math::EXP_4);
    let c5 = exponential::constant(math::EXP_5);
    let c6 = exponential::constant(math::EXP_6);
    let s2 = s * s;
    let s3 = s2 * s;
    let s4 = s3 * s;
    let s5 = s4 * s;
    let s6 = s5 * s;
    let q5 = c5 + phi * c6;
    let q4 = c4 + phi * q5;
    let q3 = c3 + phi * q4;
    let q2 = c2 + phi * q3;
    let q1 = c1 + phi * q2;
    let r6 = 1 as real / 720 as real;
    let r5 = 1 as real / 120 as real + t * r6;
    let r4 = 1 as real / 24 as real + t * r5;
    let r3 = 1 as real / 6 as real + t * r4;
    let r2 = 1 as real / 2 as real + t * r3;
    let r1 = 1 as real + t * r2;
    exponential::lemma_between(t, r6, r6);
    exponential::lemma_between(t, r5, 1 as real / 24 as real);
    exponential::lemma_between(t, r4, 1 as real / 6 as real);
    exponential::lemma_between(t, r3, 1 as real / 2 as real);
    exponential::lemma_between(t, r2, 1 as real);
    lemma_scaled(s5, s, phi, x, c5, c6);
    lemma_scaled(s4, s, phi, x, c4, q5);
    lemma_scaled(s3, s, phi, x, c3, q4);
    lemma_scaled(s2, s, phi, x, c2, q3);
    lemma_scaled(s, s, phi, x, c1, q2);
    lemma_scaled(1 as real, s, phi, x, 1 as real, q1);
    lemma_pair(s5 * c5, 1 as real / 120 as real, x, t, s6 * c6, r6, d, df, d);
    lemma_pair(s4 * c4, 1 as real / 24 as real, x, t, s5 * q5, r5, d, df, 3 as real * d);
    lemma_pair(s3 * c3, 1 as real / 6 as real, x, t, s4 * q4, r4, d, df, 5 as real * d);
    lemma_pair(s2 * c2, 1 as real / 2 as real, x, t, s3 * q3, r3, d, df, 7 as real * d);
    lemma_pair(s * c1, 1 as real, x, t, s2 * q2, r2, d, df, 9 as real * d);
    lemma_pair(1 as real, 1 as real, x, t, s * q1, r1, 0 as real, df, 11 as real * d);
    let e = 1 as real + t * r1;
    lemma_nested(t);
    bounds::lemma_exp_log_low(z);
    bounds::lemma_exp_log_high(z);
    let k = 1 as real / 10000 as real;
    let away = 1 as real - z;
    assert(away * m == 1 as real + z);
    assert(e >= m * (1 as real - k) && e <= m * (1 as real + k)) by (nonlinear_arith)
        requires
            away * m == 1 as real + z,
            e * away >= (1 as real + z) * (1 as real - k),
            e * away <= (1 as real + z) * (1 as real + k),
            away > 0 as real,
    ;
    assert(m * k <= 2 as real * k && m * (1 as real - k) == m - m * k && m * (1 as real + k) == m + m
        * k) by (nonlinear_arith)
        requires
            m <= 2 as real,
            k > 0 as real,
    ;
}

/// A step of a polynomial with its argument scaled.
pub proof fn lemma_scaled(p: real, s: real, phi: real, x: real, c: real, q: real)
    requires
        phi == s * x,
    ensures
        p * (c + phi * q) == p * c + x * (p * s * q),
{
    assert(p * (c + phi * q) == p * c + x * (p * s * q)) by (nonlinear_arith)
        requires
            phi == s * x,
    ;
}

/// The two ways to nest the exponential series.
pub proof fn lemma_nested(t: real)
    ensures
        ({
            let r5 = 1 as real / 120 as real + t * (1 as real / 720 as real);
            let r4 = 1 as real / 24 as real + t * r5;
            let r3 = 1 as real / 6 as real + t * r4;
            let r2 = 1 as real / 2 as real + t * r3;
            let r1 = 1 as real + t * r2;
            1 as real + t * r1 == 1 as real + t * (1 as real + t / 2 as real * (1 as real + t
                / 3 as real * (1 as real + t / 4 as real * (1 as real + t / 5 as real * (1 as real
                + t / 6 as real)))))
        }),
{
    let n5 = 1 as real + t / 6 as real;
    let n4 = 1 as real + t / 5 as real * n5;
    let n3 = 1 as real + t / 4 as real * n4;
    let n2 = 1 as real + t / 3 as real * n3;
    let n1 = 1 as real + t / 2 as real * n2;
    let r5 = 1 as real / 120 as real + t * (1 as real / 720 as real);
    let r4 = 1 as real / 24 as real + t * r5;
    let r3 = 1 as real / 6 as real + t * r4;
    let r2 = 1 as real / 2 as real + t * r3;
    let r1 = 1 as real + t * r2;
    assert(120 as real * r5 == n5) by (nonlinear_arith)
        requires
            r5 == 1 as real / 120 as real + t * (1 as real / 720 as real),
            n5 == 1 as real + t / 6 as real,
    ;
    assert(24 as real * r4 == n4) by (nonlinear_arith)
        requires
            r4 == 1 as real / 24 as real + t * r5,
            n4 == 1 as real + t / 5 as real * n5,
            120 as real * r5 == n5,
    ;
    assert(6 as real * r3 == n3) by (nonlinear_arith)
        requires
            r3 == 1 as real / 6 as real + t * r4,
            n3 == 1 as real + t / 4 as real * n4,
            24 as real * r4 == n4,
    ;
    assert(2 as real * r2 == n2) by (nonlinear_arith)
        requires
            r2 == 1 as real / 2 as real + t * r3,
            n2 == 1 as real + t / 3 as real * n3,
            6 as real * r3 == n3,
    ;
    assert(r1 == n1) by (nonlinear_arith)
        requires
            r1 == 1 as real + t * r2,
            n1 == 1 as real + t / 2 as real * n2,
            2 as real * r2 == n2,
    ;
}

} // verus!
