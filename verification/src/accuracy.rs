//! How far the float math lies from the real functions it stands for.
//!
//! A series is compared first with the same polynomial over the reals, which
//! costs a few parts in 2^24, and that polynomial with what it approximates.
use crate::binary32::Binary32;
use crate::composition;
use crate::exponential;
use crate::logarithm;
use crate::math;
use crate::order;
use crate::reals;
use crate::rounding;
use vstd::arithmetic::power2::*;
use vstd::prelude::*;

verus! {

/// Two close arguments have close exponentials, and the other way round.
proof fn lemma_exp_near(a: real, b: real)
    requires
        0 as real <= a <= 1 as real,
        0 as real <= b <= 1 as real,
    ensures
        ({
            let rise = exponential::exact_exp(b) - exponential::exact_exp(a);
            &&& a <= b ==> 2 as real * (b - a) <= 3 as real * rise && rise <= 2 as real * (b - a)
            &&& b <= a ==> 2 as real * (a - b) <= -(3 as real * rise) && -rise <= 2 as real * (a - b)
        }),
{
    if a <= b {
        exponential::lemma_exp_rise(a, b);
    }
    if b <= a {
        exponential::lemma_exp_rise(b, a);
    }
}

/// The exponential undoes the logarithm to one part in a thousand, for every
/// normal number below the last power of two.
pub proof fn law_exp2_undoes_log2(x: Binary32)
    requires
        0x80_0000 <= x.bits < 0x7f00_0000,
    ensures
        math::exp2(math::log2(x)).finite(),
        -x.value() <= 1000 * (math::exp2(math::log2(x)).value() - x.value()) <= x.value(),
{
    let v = math::log2(x);
    let n = logarithm::exponent(x);
    let m = logarithm::significand(x);
    let unit = pow2(149);
    lemma_pow2_pos(149);
    reals::lemma_eps();
    logarithm::lemma_normal(x);
    logarithm::lemma_log2(x);
    assert((n + 1) * unit <= 127 * unit) by (nonlinear_arith)
        requires
            n + 1 <= 127,
    ;
    exponential::lemma_exp2(v);
    composition::lemma_exp_log(m);
    let f = exponential::fraction_part(v);
    let phi = exponential::exact_log(logarithm::quotient(m));
    lemma_exp_near(phi, f);
    let p = exponential::exact_exp(f);
    let s = pow2((n + 149) as nat) as real;
    lemma_pow2_pos((n + 149) as nat);
    let e = reals::eps();
    let r = math::exp2(v).value() as real;
    let k = 128 as real * e;
    lemma_scaled_down(r, p, m, s, k, 3 as real / 10_000 as real);
    assert(m * s >= s) by (nonlinear_arith)
        requires
            m >= 1 as real,
            s > 0 as real,
    ;
}

/// What two scaled numbers differ by.
proof fn lemma_scaled_down(r: real, p: real, m: real, s: real, k: real, d: real)
    requires
        s > 0 as real,
        reals::near(r, p * s, k * s),
        reals::near(p, m, d - k),
    ensures
        reals::near(r, m * s, d * s),
{
    let off = p - m;
    let j = d - k;
    assert(p * s == m * s + off * s && k * s + j * s == d * s && -(j * s) <= off * s <= j * s)
        by (nonlinear_arith)
        requires
            off == p - m,
            j == d - k,
            -j <= off <= j,
            s > 0 as real,
    ;
}

/// A common positive factor taken out.
pub proof fn lemma_unscaled(a: real, b: real, s: real)
    requires
        a * s <= b * s,
        s > 0 as real,
    ensures
        a <= b,
{
    assert(a <= b) by (nonlinear_arith)
        requires
            a * s <= b * s,
            s > 0 as real,
    ;
}

/// The logarithm of a number that lies near 2^(w + f) is near w + f.
pub proof fn lemma_log2_near(y: Binary32, w: int, f: real, k: real)
    requires
        0x80_0000 <= y.bits < rounding::INFINITY_BITS,
        -140 <= w <= 260,
        0 as real <= k <= 1 as real / 100 as real,
        0 as real <= f <= 1 as real,
        reals::near(
            y.value() as real,
            exponential::exact_exp(f) * (pow2((w + 149) as nat) as real),
            k * (pow2((w + 149) as nat) as real),
        ),
    ensures
        math::log2(y).finite(),
        reals::near(
            reals::num(math::log2(y)),
            w as real + f,
            5 as real * k + 4 as real / 10_000 as real,
        ),
{
    reals::lemma_eps();
    exponential::lemma_exp_parts(f);
    let base = pow2((w + 149) as nat);
    lemma_pow2_pos((w + 149) as nat);
    logarithm::lemma_normal(y);
    logarithm::lemma_log2(y);
    let n = logarithm::exponent(y);
    let m = logarithm::significand(y);
    let s = base as real;
    let p = exponential::exact_exp(f);
    let scale = pow2((n + 149) as nat) as real;
    lemma_pow2_pos((n + 149) as nat);
    let yr = y.value() as real;
    assert(s <= p * s <= 2 as real * s) by (nonlinear_arith)
        requires
            1 as real <= p <= 2 as real,
            s > 0 as real,
    ;
    assert(2 as real * (k * s) < s) by (nonlinear_arith)
        requires
            k <= 1 as real / 100 as real,
            s > 0 as real,
    ;
    assert(yr < 2 as real * scale && yr >= scale) by (nonlinear_arith)
        requires
            yr == m * scale,
            1 as real <= m < 2 as real,
            scale > 0 as real,
    ;
    lemma_pow2_unfold((n + 150) as nat);
    lemma_pow2_unfold((w + 149) as nat);
    lemma_pow2_unfold((w + 150) as nat);
    lemma_pow2_unfold((w + 151) as nat);
    if n < w - 1 {
        rounding::lemma_pow2_order((n + 150) as nat, (w + 148) as nat);
    }
    if n > w + 1 {
        rounding::lemma_pow2_order((w + 151) as nat, (n + 149) as nat);
    }
    let phi = exponential::exact_log(logarithm::quotient(m));
    composition::lemma_exp_log(m);
    if n == w {
        assert((m - p) * s == m * s - p * s && (p - m) * s == p * s - m * s) by (nonlinear_arith);
        lemma_unscaled(m - p, k, s);
        lemma_unscaled(p - m, k, s);
        lemma_exp_near(phi, f);
    } else if n == w + 1 {
        assert((2 as real * m - p) * s == m * scale - p * s) by (nonlinear_arith)
            requires
                scale == 2 as real * s,
        ;
        lemma_unscaled(2 as real * m - p, k, s);
        exponential::lemma_exp_parts(1 as real);
        exponential::lemma_exp_rise(f, 1 as real);
        exponential::lemma_exp_rise(0 as real, phi);
        let slope = exponential::exp_slope(0 as real);
        assert(0 as real * slope == 0 as real) by (nonlinear_arith);
    } else {
        assert((p - m / 2 as real) * s == p * s - m * scale) by (nonlinear_arith)
            requires
                s == 2 as real * scale,
        ;
        lemma_unscaled(p - m / 2 as real, k, s);
        exponential::lemma_exp_parts(1 as real);
        exponential::lemma_exp_rise(0 as real, f);
        exponential::lemma_exp_rise(phi, 1 as real);
        let slope = exponential::exp_slope(0 as real);
        assert(0 as real * slope == 0 as real) by (nonlinear_arith);
    }
}

/// A number of at least 2^-126 is normal.
pub proof fn lemma_is_normal(y: Binary32, e: nat)
    requires
        y.finite(),
        y.value() >= pow2(e),
        23 <= e <= 276,
    ensures
        0x80_0000 <= y.bits < rounding::INFINITY_BITS,
{
    rounding::lemma_pow2_order(23, e);
    order::lemma_power(23);
    lemma_pow2_pos(23);
    if y.pattern() < 0x80_0000 {
        rounding::lemma_magnitude_order(order::power(23).pattern(), y.pattern());
    }
}

/// The logarithm undoes the exponential to a thousandth, wherever the
/// exponential is a normal number.
pub proof fn law_log2_undoes_exp2(x: Binary32)
    requires
        x.finite(),
        -126 * pow2(149) <= x.value() <= 127 * pow2(149),
    ensures
        math::log2(math::exp2(x)).finite(),
        -pow2(149) <= 1000 * (math::log2(math::exp2(x)).value() - x.value()) <= pow2(149),
{
    let y = math::exp2(x);
    let w = exponential::whole_part(x);
    let f = exponential::fraction_part(x);
    let unit = pow2(149);
    reals::lemma_eps();
    lemma_pow2_pos(149);
    exponential::lemma_exp2(x);
    lemma_is_normal(y, (w + 149) as nat);
    let s = pow2((w + 149) as nat) as real;
    lemma_pow2_pos((w + 149) as nat);
    let k = 128 as real * reals::eps();
    assert(k * s <= 1 as real / 10_000 as real * s) by (nonlinear_arith)
        requires
            k <= 1 as real / 10_000 as real,
            s > 0 as real,
    ;
    lemma_log2_near(y, w, f, 1 as real / 10_000 as real);
    let v = math::log2(y);
    reals::lemma_num(v);
    reals::lemma_num(x);
    let u = unit as real;
    let a = reals::num(v);
    let b = reals::num(x);
    let d = 1000 as real * (a - b);
    assert(-u <= d * u <= u) by (nonlinear_arith)
        requires
            -(1 as real) <= d <= 1 as real,
            u > 0 as real,
    ;
    assert(d * u == 1000 as real * (a * u - b * u)) by (nonlinear_arith)
        requires
            d == 1000 as real * (a - b),
    ;
}

/// The exponential polynomial at the fraction of a logarithm is the
/// significand, to three parts in ten thousand.
pub proof fn lemma_significand_returns(x: Binary32)
    requires
        0x80_0000 <= x.bits < rounding::INFINITY_BITS,
    ensures
        ({
            let g = exponential::fraction_part(math::log2(x));
            &&& 0 as real <= g < 1 as real
            &&& reals::near(
                exponential::exact_exp(g),
                logarithm::significand(x),
                3 as real / 10_000 as real,
            )
        }),
{
    let l = math::log2(x);
    let n = logarithm::exponent(x);
    let m = logarithm::significand(x);
    reals::lemma_eps();
    logarithm::lemma_normal(x);
    logarithm::lemma_log2(x);
    composition::lemma_exp_log(m);
    reals::lemma_num_order(l, n);
    reals::lemma_num_order(l, n + 1);
    let phi = exponential::exact_log(logarithm::quotient(m));
    lemma_exp_near(phi, exponential::fraction_part(l));
}

/// The logarithm rises: it is no smaller for a number that is larger by one
/// part in a thousand.
pub proof fn law_log2_rises(x: Binary32, y: Binary32)
    requires
        0x80_0000 <= x.bits < rounding::INFINITY_BITS,
        0x80_0000 <= y.bits < rounding::INFINITY_BITS,
        1000 * (y.value() - x.value()) >= x.value(),
    ensures
        math::log2(x).value() <= math::log2(y).value(),
{
    let k = logarithm::exponent(x);
    let n = logarithm::exponent(y);
    let a = logarithm::significand(x);
    let b = logarithm::significand(y);
    let unit = pow2(149);
    lemma_pow2_pos(149);
    logarithm::lemma_normal(x);
    logarithm::lemma_normal(y);
    logarithm::lemma_log2(x);
    logarithm::lemma_log2(y);
    let s = pow2((k + 149) as nat) as real;
    let t = pow2((n + 149) as nat) as real;
    lemma_pow2_pos((k + 149) as nat);
    lemma_pow2_pos((n + 149) as nat);
    if k < n {
        assert((k + 1) * unit <= n * unit) by (nonlinear_arith)
            requires
                k + 1 <= n,
                unit > 0,
        ;
    } else if k > n {
        rounding::lemma_pow2_order((n + 150) as nat, (k + 149) as nat);
        lemma_pow2_unfold((n + 150) as nat);
        assert(a * s >= s) by (nonlinear_arith)
            requires
                a >= 1 as real,
                s > 0 as real,
        ;
        assert(b * t < 2 as real * t) by (nonlinear_arith)
            requires
                b < 2 as real,
                t > 0 as real,
        ;
    } else {
        let d = 1000 as real * (b - a);
        assert(d * s == 1000 as real * (b * s - a * s)) by (nonlinear_arith)
            requires
                d == 1000 as real * (b - a),
        ;
        lemma_unscaled(a, d, s);
        lemma_significand_returns(x);
        lemma_significand_returns(y);
        let f = exponential::fraction_part(math::log2(x));
        let g = exponential::fraction_part(math::log2(y));
        lemma_exp_near(f, g);
        reals::lemma_num(math::log2(x));
        reals::lemma_num(math::log2(y));
        let p = reals::num(math::log2(x));
        let q = reals::num(math::log2(y));
        let u = unit as real;
        assert(p * u <= q * u) by (nonlinear_arith)
            requires
                p <= q,
                u > 0 as real,
        ;
    }
}

/// How far apart exponentials are, for each unit of their arguments, but for
/// the step at the whole numbers.
pub open spec fn rate(d: real) -> real {
    7 as real / 10 as real * d + 2 as real / 100_000 as real
}

/// A rise at 0.6932 for each unit.
proof fn lemma_rate(x: real, d: real, q: real)
    requires
        0 as real <= x <= d,
        q >= 0 as real,
    ensures
        x * (6932 as real / 10_000 as real * q) <= 7 as real / 10 as real * d * q,
{
    let r = 6932 as real / 10_000 as real * q;
    assert(x * r <= d * r) by (nonlinear_arith)
        requires
            x <= d,
            r >= 0 as real,
    ;
    let dq = d * q;
    exponential::lemma_product_sign(d, q);
    assert(d * r == 6932 as real / 10_000 as real * dq) by (nonlinear_arith)
        requires
            r == 6932 as real / 10_000 as real * q,
            dq == d * q,
    ;
    assert(7 as real / 10 as real * d * q == 7 as real / 10 as real * dq) by (nonlinear_arith)
        requires
            dq == d * q,
    ;
}

/// Exponentials of arguments at most `d` apart, the lower one first.
pub proof fn lemma_exp_apart(w: int, f: real, n: int, g: real, s: real, t: real, d: real)
    requires
        0 as real <= f <= 1 as real,
        0 as real <= g <= 1 as real,
        s > 0 as real,
        n == w && t == s || n == w + 1 && t == 2 as real * s,
        w as real + f <= n as real + g,
        n as real + g - w as real - f <= d,
    ensures
        exponential::exact_exp(f) * s <= exponential::exact_exp(g) * t,
        exponential::exact_exp(g) * t - exponential::exact_exp(f) * s <= rate(d) * (
        exponential::exact_exp(g) * t),
{
    let p = exponential::exact_exp(f);
    let q = exponential::exact_exp(g);
    let one = 1 as real;
    let k = 7 as real / 10 as real * d;
    let z = 2 as real / 100_000 as real;
    exponential::lemma_exp_parts(f);
    exponential::lemma_exp_parts(g);
    assert(rate(d) * q == k * q + z * q) by (nonlinear_arith)
        requires
            rate(d) == k + z,
    ;
    if n == w {
        exponential::lemma_exp_relative(f, g);
        exponential::lemma_exp_rise(f, g);
        lemma_rate(g - f, d, q);
        lemma_scale_up(q - p, rate(d) * q, s);
        lemma_scale_up(p, q, s);
        assert((q - p) * s == q * s - p * s && rate(d) * q * s == rate(d) * (q * s))
            by (nonlinear_arith);
    } else {
        exponential::lemma_exp_relative(f, one);
        exponential::lemma_exp_relative(0 as real, g);
        exponential::lemma_exp_of_one();
        let slope = exponential::exp_slope(0 as real);
        assert(0 as real * slope == 0 as real) by (nonlinear_arith);
        let top = exponential::exact_exp(one);
        let h = one - f;
        let r = 6932 as real / 10_000 as real;
        // From f to one, and from zero to g.
        assert(h * (r * top) <= 2 as real * (h * (r * q))) by (nonlinear_arith)
            requires
                top <= 2 as real,
                q >= 1 as real,
                r == 6932 as real / 10_000 as real,
                h >= 0 as real,
        ;
        let x = h + g;
        let rq = r * q;
        assert(x * rq == h * rq + g * rq) by (nonlinear_arith)
            requires
                x == h + g,
        ;
        assert((g - 0 as real) * rq == g * rq);
        lemma_rate(x, d, q);
        assert(2 as real * q - p <= 2 as real * (rate(d) * q));
        lemma_scale_up(2 as real * q - p, 2 as real * (rate(d) * q), s);
        lemma_scale_up(p, 2 as real * q, s);
        assert((2 as real * q - p) * s == q * t - p * s && 2 as real * (rate(d) * q) * s == rate(d)
            * (q * t) && 2 as real * q * s == q * t) by (nonlinear_arith)
            requires
                t == 2 as real * s,
        ;
    }
}

/// An inequality times a positive factor.
pub proof fn lemma_scale_up(a: real, b: real, s: real)
    requires
        a <= b,
        s > 0 as real,
    ensures
        a * s <= b * s,
{
    assert(a * s <= b * s) by (nonlinear_arith)
        requires
            a <= b,
            s > 0 as real,
    ;
}

/// A rate in parts of ten thousand.
pub proof fn lemma_share(d: real, x: real, parts: int)
    requires
        x >= 0 as real,
        10_000 as real * rate(d) <= parts as real,
    ensures
        10_000 as real * (rate(d) * x) <= parts as real * x,
{
    let r = 10_000 as real * rate(d);
    let k = rate(d);
    assert(10_000 as real * (k * x) == r * x) by (nonlinear_arith)
        requires
            r == 10_000 as real * k,
    ;
    assert(r * x <= parts as real * x) by (nonlinear_arith)
        requires
            r <= parts as real,
            x >= 0 as real,
    ;
}

/// The exponential of a number within 0.032 of the logarithm of `x` is
/// within 2.4 percent of `x`.
pub proof fn law_exp2_near_log2(x: Binary32, v: Binary32)
    requires
        0x80_0000 <= x.bits < 0x7f00_0000,
        v.finite(),
        -126 * pow2(149) <= v.value() <= 127 * pow2(149),
        -(32 * pow2(149)) <= 1000 * (v.value() - math::log2(x).value()) <= 32 * pow2(149),
    ensures
        math::exp2(v).finite(),
        -(24 * x.value()) <= 1000 * (math::exp2(v).value() - x.value()) <= 24 * x.value(),
{
    let l = math::log2(x);
    let n = logarithm::exponent(x);
    let m = logarithm::significand(x);
    let unit = pow2(149);
    let u = unit as real;
    lemma_pow2_pos(149);
    reals::lemma_eps();
    logarithm::lemma_normal(x);
    logarithm::lemma_log2(x);
    assert((n + 1) * unit <= 127 * unit) by (nonlinear_arith)
        requires
            n + 1 <= 127,
    ;
    exponential::lemma_exp2(l);
    exponential::lemma_exp2(v);
    composition::lemma_exp_log(m);
    let w = exponential::whole_part(v);
    let f = exponential::fraction_part(v);
    let g = exponential::fraction_part(l);
    let phi = exponential::exact_log(logarithm::quotient(m));
    lemma_exp_near(phi, g);
    exponential::lemma_exp_parts(f);
    exponential::lemma_exp_parts(g);
    let s = pow2((w + 149) as nat) as real;
    let t = pow2((n + 149) as nat) as real;
    lemma_pow2_pos((w + 149) as nat);
    lemma_pow2_pos((n + 149) as nat);
    lemma_pow2_unfold((w + 150) as nat);
    lemma_pow2_unfold((n + 150) as nat);
    // How far apart the two arguments are.
    reals::lemma_num(v);
    reals::lemma_num(l);
    let a = reals::num(v);
    let b = reals::num(l);
    let d = 1000 as real * (a - b);
    assert(d * u == 1000 as real * (a * u - b * u)) by (nonlinear_arith)
        requires
            d == 1000 as real * (a - b),
    ;
    lemma_unscaled(d, 32 as real, u);
    assert((-d) * u == -(d * u)) by (nonlinear_arith);
    lemma_unscaled(-d, 32 as real, u);
    let near = 32 as real / 1000 as real;
    if b <= a {
        lemma_exp_apart(n, g, w, f, t, s, near);
    }
    if a <= b {
        lemma_exp_apart(w, f, n, g, s, t, near);
    }
    let p = exponential::exact_exp(f);
    let q = exponential::exact_exp(g);
    exponential::lemma_product_sign(p, s);
    exponential::lemma_product_sign(q, t);
    lemma_share(near, p * s, 225);
    lemma_share(near, q * t, 225);
    let e = reals::eps();
    let k = 128 as real * e;
    assert(100_000 as real * (k * s) <= p * s) by (nonlinear_arith)
        requires
            100_000 as real * k <= 1 as real,
            p >= 1 as real,
            s > 0 as real,
    ;
    let off = q - m;
    assert(q * t == m * t + off * t) by (nonlinear_arith)
        requires
            off == q - m,
    ;
    let three = 3 as real;
    assert(-(three * t) <= 10_000 as real * (off * t) <= three * t) by (nonlinear_arith)
        requires
            -three <= 10_000 as real * off <= three,
            t > 0 as real,
    ;
    assert(m * t >= t) by (nonlinear_arith)
        requires
            m >= 1 as real,
            t > 0 as real,
    ;
}

} // verus!
