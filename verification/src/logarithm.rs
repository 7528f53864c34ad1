//! How far the logarithm lies from its polynomial over the reals.
use crate::binary32::Binary32;
use crate::exponential;
use crate::math;
use crate::order;
use crate::reals;
use crate::rounding;
use vstd::arithmetic::power2::*;
use vstd::prelude::*;

verus! {

/// The exponent of a normal number.
pub open spec fn exponent(x: Binary32) -> int {
    x.bits / 0x80_0000 - 127
}

/// The significand of a normal number, in [1, 2).
pub open spec fn significand(x: Binary32) -> real {
    reals::ratio(0x80_0000 + x.bits % 0x80_0000, 0x80_0000)
}

/// The quotient from which the logarithm series starts.
pub open spec fn quotient(m: real) -> real {
    (m - 1 as real) / (m + 1 as real)
}

/// A significand, and its quotient.
pub proof fn lemma_quotient(m: real)
    requires
        1 as real <= m <= 2 as real,
    ensures
        0 as real <= quotient(m) <= 1 as real / 3 as real,
        quotient(m) * (m + 1 as real) == m - 1 as real,
        (1 as real - quotient(m)) * m == 1 as real + quotient(m),
{
    let z = quotient(m);
    assert(z * (m + 1 as real) == m - 1 as real) by (nonlinear_arith)
        requires
            z == (m - 1 as real) / (m + 1 as real),
            m >= 1 as real,
    ;
    assert(0 as real <= z && 3 as real * z <= 1 as real && (1 as real - z) * m == 1 as real + z)
        by (nonlinear_arith)
        requires
            z * (m + 1 as real) == m - 1 as real,
            1 as real <= m <= 2 as real,
    ;
}

/// A normal number is its significand times a power of two.
pub proof fn lemma_normal(x: Binary32)
    requires
        0x80_0000 <= x.bits < rounding::INFINITY_BITS,
    ensures
        -126 <= exponent(x) <= 127,
        1 as real <= significand(x) < 2 as real,
        x.value() as real == significand(x) * (pow2((exponent(x) + 149) as nat) as real),
        x.value() > 0,
        x.finite(),
{
    let field = (x.bits / 0x80_0000) as nat;
    let fraction = (x.bits % 0x80_0000) as nat;
    Binary32::lemma_value_of(x, field, fraction);
    reals::lemma_ratio((0x80_0000 + fraction) as int, 0x80_0000);
    lemma2_to64();
    lemma_pow2_adds((field - 1) as nat, 23);
    lemma_pow2_pos((field - 1) as nat);
    let m = significand(x);
    let a = pow2((field - 1) as nat) as int;
    let b = pow2((field + 22) as nat) as int;
    reals::lemma_product((0x80_0000 + fraction) as int, a);
    assert(b as real == a as real * 0x80_0000 as real);
    assert(x.value() as real == m * (b as real)) by (nonlinear_arith)
        requires
            x.value() as real == (0x80_0000 + fraction) as real * a as real,
            m * 0x80_0000 as real == (0x80_0000 + fraction) as real,
            b as real == a as real * 0x80_0000 as real,
    ;
    assert((0x80_0000 + fraction) * a > 0) by (nonlinear_arith)
        requires
            a > 0,
    ;
}

/// One step of evaluating a polynomial on [0, 1/8], against the same step
/// over the reals.
pub proof fn lemma_small_step(
    c: Binary32,
    f: Binary32,
    p: Binary32,
    phi: real,
    q: real,
    df: real,
    d: real,
)
    requires
        c.finite(),
        f.finite(),
        p.finite(),
        c.add(f.mul(p)).finite(),
        0 <= c.value() <= pow2(149),
        0 <= f.value() <= pow2(149),
        0 <= p.value(),
        reals::num(f) * 8 as real <= 1 as real,
        reals::num(p) <= 2 as real,
        0 as real <= q <= 2 as real,
        reals::near(reals::num(f), phi, df),
        reals::near(reals::num(p), q, d),
        df >= 0 as real,
        d >= 0 as real,
    ensures
        reals::near(
            reals::num(c.add(f.mul(p))),
            reals::num(c) + phi * q,
            d / 8 as real + 2 as real * df + 4 as real * reals::eps(),
        ),
{
    let product = f.mul(p);
    reals::lemma_eps();
    assert(f.size() * p.size() <= p.size() * pow2(149)) by (nonlinear_arith)
        requires
            f.size() <= pow2(149),
    ;
    order::lemma_mul(f, p, p);
    order::lemma_finite(product, p);
    reals::lemma_num_order(c, 1);
    reals::lemma_num_order(c, 0);
    reals::lemma_num_order(f, 0);
    reals::lemma_num_order(p, 0);
    let x = reals::num(f);
    let y = reals::num(p);
    let xy = x * y;
    assert(0 as real <= xy && 4 as real * xy <= 1 as real) by (nonlinear_arith)
        requires
            0 as real <= x,
            x * 8 as real <= 1 as real,
            0 as real <= y <= 2 as real,
            xy == x * y,
    ;
    let a = y - q;
    let b = x - phi;
    assert(xy - phi * q == x * a + b * q) by (nonlinear_arith)
        requires
            xy == x * y,
            a == y - q,
            b == x - phi,
    ;
    assert(-d <= 8 as real * (x * a) <= d) by (nonlinear_arith)
        requires
            0 as real <= x,
            x * 8 as real <= 1 as real,
            -d <= a <= d,
    ;
    assert(-(2 as real * df) <= b * q <= 2 as real * df) by (nonlinear_arith)
        requires
            0 as real <= q <= 2 as real,
            -df <= b <= df,
    ;
    reals::lemma_num_mul(f, p);
    reals::lemma_eps_of(xy);
    reals::lemma_num_add(c, product);
    reals::lemma_eps_of(reals::num(c) + reals::num(product));
}

/// The product of two numbers that are each a little off.
pub proof fn lemma_product_error(x: real, y: real, z: real, q: real, dx: real, dy: real, most: real)
    requires
        0 as real <= x <= 1 as real,
        0 as real <= q <= most,
        reals::near(x, z, dx),
        reals::near(y, q, dy),
    ensures
        reals::near(x * y, z * q, dy + most * dx),
{
    let a = y - q;
    let b = x - z;
    assert(x * y - z * q == x * a + b * q) by (nonlinear_arith)
        requires
            a == y - q,
            b == x - z,
    ;
    assert(-dy <= x * a <= dy) by (nonlinear_arith)
        requires
            0 as real <= x <= 1 as real,
            -dy <= a <= dy,
    ;
    assert(-(most * dx) <= b * q <= most * dx) by (nonlinear_arith)
        requires
            0 as real <= q <= most,
            -dx <= b <= dx,
    ;
}

/// The quotient of the logarithm series, computed.
pub proof fn lemma_log_quotient(m: Binary32, v: real)
    requires
        m.finite(),
        pow2(149) <= m.value() <= pow2(150),
        reals::num(m) == v,
        1 as real <= v < 2 as real,
    ensures
        ({
            let one = Binary32::from_bits(math::ONE);
            let z = m.sub(one).div(m.add(one));
            &&& z.finite()
            &&& 0 <= z.value() <= pow2(148)
            &&& reals::near(reals::num(z), quotient(v), 4 as real * reals::eps())
            &&& reals::num(z) * 100 as real <= 34 as real
        }),
{
    let one = Binary32::from_bits(math::ONE);
    let none = Binary32::from_bits(math::ZERO);
    let e = reals::eps();
    reals::lemma_eps();
    exponential::lemma_log_constants();
    lemma_quotient(v);
    order::lemma_power(149);
    order::lemma_power(150);
    rounding::lemma_magnitude_zero();
    lemma_pow2_unfold(150);
    lemma_pow2_unfold(149);
    assert(one == order::power(149));
    let above = m.sub(one);
    let sum = m.add(one);
    order::lemma_neg(one);
    order::lemma_sub(m, one, one);
    order::lemma_sub(m, one, none);
    order::lemma_finite(above, one);
    lemma_pow2_unfold(151);
    order::lemma_power(151);
    order::lemma_within_weaken(one, 149, 150);
    order::lemma_within_add(m, one, 150);
    order::lemma_add(m, one, order::power(150));
    let z = above.div(sum);
    order::lemma_within_div(above, sum, 149, 150);
    reals::lemma_num_order(one.neg(), -1);
    reals::lemma_num_add(m, one.neg());
    reals::lemma_num_add(m, one);
    reals::lemma_eps_of(v - 1 as real);
    reals::lemma_eps_of(v + 1 as real);
    reals::lemma_num_order(above, 0);
    reals::lemma_num_div(above, sum);
    let a = reals::num(above);
    let b = reals::num(sum);
    let q = a / b;
    let zr = quotient(v);
    assert(q * b == a) by (nonlinear_arith)
        requires
            q == a / b,
            b > 0 as real,
    ;
    let off = q - zr;
    let da = a - (v - 1 as real);
    let db = b - (v + 1 as real);
    assert(off * b == da - zr * db) by (nonlinear_arith)
        requires
            off == q - zr,
            da == a - (v - 1 as real),
            db == b - (v + 1 as real),
            q * b == a,
            zr * (v + 1 as real) == v - 1 as real,
    ;
    assert(-e <= zr * db <= e) by (nonlinear_arith)
        requires
            0 as real <= zr,
            3 as real * zr <= 1 as real,
            -(3 as real * e) <= db <= 3 as real * e,
    ;
    let k = 2 as real * e;
    assert(-k <= off <= k) by (nonlinear_arith)
        requires
            -k <= off * b <= k,
            b >= 1 as real,
    ;
    reals::lemma_eps_of(q);
    assert(q >= 0 as real) by (nonlinear_arith)
        requires
            q * b == a,
            a >= 0 as real,
            b >= 1 as real,
    ;
    reals::lemma_num_order(z, 0);
}

/// The parts of the logarithm polynomial.
pub proof fn lemma_log_parts(z: real)
    requires
        0 as real <= z <= 1 as real / 3 as real,
    ensures
        ({
            let z2 = z * z;
            let q5 = exponential::constant(math::FIFTH) + z2 * exponential::constant(math::SEVENTH);
            let q3 = exponential::constant(math::THIRD) + z2 * q5;
            let q1 = 1 as real + z2 * q3;
            &&& 0 as real <= z2 <= 1 as real / 9 as real
            &&& 0 as real <= exponential::constant(math::SEVENTH) <= 1 as real
            &&& 0 as real <= q5 <= 1 as real
            &&& 0 as real <= q3 <= 1 as real
            &&& 0 as real <= q1 * 100 as real <= 120 as real
            &&& 0 as real <= exponential::exact_log(z)
            &&& exponential::exact_log(z) * 1_000_000 as real <= 999_983 as real
            &&& exponential::exact_log(z) == exponential::constant(math::TWO_LOG2_E) * (z * q1)
        }),
{
    exponential::lemma_log_constants();
    let z2 = z * z;
    assert(0 as real <= z2 && 9 as real * z2 <= 1 as real) by (nonlinear_arith)
        requires
            0 as real <= z <= 1 as real / 3 as real,
            z2 == z * z,
    ;
    let c = exponential::constant(math::TWO_LOG2_E);
    let c7 = exponential::constant(math::SEVENTH);
    let q5 = exponential::constant(math::FIFTH) + z2 * c7;
    assert(0 as real <= z2 * c7 && 9 as real * (z2 * c7) <= c7) by (nonlinear_arith)
        requires
            0 as real <= z2,
            9 as real * z2 <= 1 as real,
            0 as real <= c7,
    ;
    let q3 = exponential::constant(math::THIRD) + z2 * q5;
    assert(0 as real <= z2 * q5 && 9 as real * (z2 * q5) <= q5) by (nonlinear_arith)
        requires
            0 as real <= z2,
            9 as real * z2 <= 1 as real,
            0 as real <= q5,
    ;
    let q1 = 1 as real + z2 * q3;
    assert(0 as real <= z2 * q3 && 9 as real * (z2 * q3) <= q3) by (nonlinear_arith)
        requires
            0 as real <= z2,
            9 as real * z2 <= 1 as real,
            0 as real <= q3,
    ;
    assert(0 as real <= z * q1 && 3 as real * (z * q1) <= q1) by (nonlinear_arith)
        requires
            0 as real <= z <= 1 as real / 3 as real,
            0 as real <= q1,
    ;
    let t = z * q1;
    assert(t * 10_000_000 as real <= 3_465_675 as real);
    assert(0 as real <= c * t && c * t * 1_000_000 as real <= 999_983 as real) by (nonlinear_arith)
        requires
            0 as real <= t,
            t * 10_000_000 as real <= 3_465_675 as real,
            c * 0x40_0000 as real == 0xb8_aa3b as real,
    ;
}

/// The series of the logarithm against its polynomial.
pub proof fn lemma_log_series(m: Binary32, v: real)
    requires
        m.finite(),
        pow2(149) <= m.value() <= pow2(150),
        reals::num(m) == v,
        1 as real <= v < 2 as real,
    ensures
        ({
            let scaled = Binary32::from_bits(math::TWO_LOG2_E).mul(math::log_series(m));
            &&& scaled.finite()
            &&& 0 <= scaled.value() <= pow2(150)
            &&& reals::near(
                reals::num(scaled),
                exponential::exact_log(quotient(v)),
                112 as real * reals::eps(),
            )
        }),
{
    let one = Binary32::from_bits(math::ONE);
    let e = reals::eps();
    reals::lemma_eps();
    let z = m.sub(one).div(m.add(one));
    let zr = quotient(v);
    lemma_quotient(v);
    lemma_log_quotient(m, v);
    exponential::lemma_log_constants();
    lemma_log_parts(zr);
    rounding::lemma_magnitude_zero();
    lemma_pow2_unfold(150);
    lemma_pow2_unfold(151);
    // The square.
    let z2 = z.mul(z);
    let z2r = zr * zr;
    order::lemma_within_mul(z, z, 148, 148);
    order::lemma_mul(z, z, Binary32::from_bits(math::ZERO));
    let x = reals::num(z);
    reals::lemma_num_order(z, 0);
    reals::lemma_num_mul(z, z);
    let xx = x * x;
    assert(0 as real <= xx && 80 as real * xx <= 95 as real / 10 as real) by (nonlinear_arith)
        requires
            xx == x * x,
            0 as real <= x,
            x * 100 as real <= 34 as real,
    ;
    lemma_product_error(x, x, zr, zr, 4 as real * e, 4 as real * e, 1 as real);
    reals::lemma_eps_of(xx);
    rounding::lemma_pow2_order(147, 149);
    rounding::lemma_pow2_order(147, 148);
    reals::lemma_num_order(z2, 0);
    math::lemma_log_factor(z2);
    // The parts.
    let c7 = Binary32::from_bits(math::SEVENTH);
    let c5 = Binary32::from_bits(math::FIFTH);
    let c3 = Binary32::from_bits(math::THIRD);
    let c = Binary32::from_bits(math::TWO_LOG2_E);
    order::lemma_within_bits(c7, 147);
    order::lemma_within_bits(c5, 147);
    order::lemma_within_bits(c3, 148);
    order::lemma_within_bits(one, 149);
    order::lemma_within_bits(c, 151);
    rounding::lemma_pow2_order(148, 149);
    let q5 = reals::num(c5) + z2r * reals::num(c7);
    let q3 = reals::num(c3) + z2r * q5;
    let q1 = 1 as real + z2r * q3;
    let p5 = c5.add(z2.mul(c7));
    order::lemma_horner(c5, z2, c7, 147);
    lemma_small_step(c5, z2, c7, z2r, reals::num(c7), 9 as real * e, 0 as real);
    let p3 = c3.add(z2.mul(p5));
    order::lemma_horner(c3, z2, p5, 148);
    lemma_small_step(c3, z2, p5, z2r, q5, 9 as real * e, 22 as real * e);
    let p1 = one.add(z2.mul(p3));
    order::lemma_horner(one, z2, p3, 149);
    lemma_small_step(one, z2, p3, z2r, q3, 9 as real * e, 25 as real * e);
    // The first factor.
    let series = z.mul(p1);
    assert(series == math::log_series(m));
    order::lemma_within_mul(z, p1, 148, 150);
    order::lemma_mul(z, p1, Binary32::from_bits(math::ZERO));
    let y = reals::num(p1);
    reals::lemma_num_order(p1, 0);
    let xy = x * y;
    let t = zr * q1;
    assert(0 as real <= xy <= 1 as real) by (nonlinear_arith)
        requires
            xy == x * y,
            0 as real <= x,
            x * 100 as real <= 34 as real,
            0 as real <= y <= 2 as real,
    ;
    lemma_product_error(x, y, zr, q1, 4 as real * e, 26 as real * e, 2 as real);
    reals::lemma_num_mul(z, p1);
    reals::lemma_eps_of(xy);
    // The scale.
    let scaled = c.mul(series);
    order::lemma_within_mul(c, series, 151, 149);
    let cr = reals::num(c);
    let s = reals::num(series);
    reals::lemma_num_order(series, 0);
    reals::lemma_num_mul(c, series);
    let cs = cr * s;
    assert(0 as real <= cs <= 3 as real * s) by (nonlinear_arith)
        requires
            cs == cr * s,
            0 as real <= s,
            0 as real <= cr <= 3 as real,
    ;
    let off = s - t;
    assert(cs - cr * t == cr * off) by (nonlinear_arith)
        requires
            cs == cr * s,
            off == s - t,
    ;
    assert(-(108 as real * e) <= cr * off <= 108 as real * e) by (nonlinear_arith)
        requires
            0 as real <= cr <= 3 as real,
            -(36 as real * e) <= off <= 36 as real * e,
    ;
    reals::lemma_eps_of(cs);
    reals::lemma_num_order(scaled, 0);
    reals::lemma_num_order(scaled, 2);
}

/// The logarithm is the exponent and the polynomial at the significand,
/// within 256 parts in 2^24. It never leaves the unit interval above the
/// exponent.
pub proof fn lemma_log2(x: Binary32)
    requires
        0x80_0000 <= x.bits < rounding::INFINITY_BITS,
    ensures
        ({
            let v = math::log2(x);
            &&& v.finite()
            &&& -126 * pow2(149) <= v.value()
            &&& exponent(x) * pow2(149) <= v.value() < (exponent(x) + 1) * pow2(149)
            &&& exponential::whole_part(v) == exponent(x)
            &&& reals::near(
                exponential::fraction_part(v),
                exponential::exact_log(quotient(significand(x))),
                256 as real * reals::eps(),
            )
        }),
{
    lemma_normal(x);
    rounding::lemma_magnitude_zero();
    let n = exponent(x);
    let m = Binary32::from_bits((x.bits % 0x80_0000 + 0x3f80_0000) as u32);
    let mr = significand(x);
    let unit = pow2(149);
    lemma2_to64();
    lemma_pow2_pos(149);
    reals::lemma_eps();
    exponential::lemma_constant(m.bits, 127, (x.bits % 0x80_0000) as nat, 23);
    reals::lemma_ratio(0x80_0000 + x.bits % 0x80_0000, 0x80_0000);
    let mn = reals::num(m);
    assert(mn == mr) by (nonlinear_arith)
        requires
            mn * 0x80_0000 as real == mr * 0x80_0000 as real,
    ;
    reals::lemma_num_order(m, 1);
    reals::lemma_num_order(m, 2);
    lemma_pow2_unfold(150);
    lemma_quotient(mr);
    lemma_log_series(m, mr);
    lemma_log_parts(quotient(mr));
    let scaled = Binary32::from_bits(math::TWO_LOG2_E).mul(math::log_series(m));
    let whole = Binary32::of_int(n);
    Binary32::lemma_of_int(n);
    let v = math::log2(x);
    math::law_log2_is_moderate(x);
    order::lemma_add(whole, scaled, whole);
    reals::lemma_num_order(whole, n);
    reals::lemma_num_add(whole, scaled);
    let s = reals::num(whole) + reals::num(scaled);
    reals::lemma_eps_of(s);
    reals::lemma_num_order(v, n);
    reals::lemma_num_order(v, n + 1);
    assert(-126 * unit <= n * unit) by (nonlinear_arith)
        requires
            -126 <= n,
            unit > 0,
    ;
    assert((n + 1) * unit == n * unit + unit) by (nonlinear_arith);
    vstd::arithmetic::div_mod::lemma_fundamental_div_mod_converse(
        v.value(),
        unit as int,
        n,
        v.value() - n * unit,
    );
}

} // verus!
