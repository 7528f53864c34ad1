//! The exponential turns sums into products, and the logarithm products into
//! sums.
use crate::accuracy;
use crate::binary32::Binary32;
use crate::exponential;
use crate::logarithm;
use crate::math;
use crate::order;
use crate::reals;
use crate::rounding;
use vstd::arithmetic::power2::*;
use vstd::prelude::*;

verus! {

/// One step on each side of a comparison.
proof fn lemma_cross(x: real, x2: real, y: real, y2: real, c: real, h: real)
    requires
        0 as real <= c <= 1 as real,
        0 as real <= h <= 1 as real / 100_000 as real,
        x >= c * y,
        x2 - x >= h * (6929 as real / 10_000 as real * x),
        y2 - y <= h * (6932 as real / 10_000 as real * y2),
        x >= 0 as real,
        y2 >= 0 as real,
    ensures
        x2 >= (c - 31 as real / 100_000 as real * h) * y2,
{
    let k = 6929 as real / 10_000 as real * h;
    let m = 6932 as real / 10_000 as real * h;
    let r = 31 as real / 100_000 as real * h;
    assert(h * (6929 as real / 10_000 as real * x) == k * x) by (nonlinear_arith)
        requires
            k == 6929 as real / 10_000 as real * h,
    ;
    assert(h * (6932 as real / 10_000 as real * y2) == m * y2) by (nonlinear_arith)
        requires
            m == 6932 as real / 10_000 as real * h,
    ;
    let u = 1 as real - m;
    assert(u * y2 == y2 - m * y2) by (nonlinear_arith)
        requires
            u == 1 as real - m,
    ;
    let cu = c * u;
    assert(c * y >= cu * y2) by (nonlinear_arith)
        requires
            y >= u * y2,
            c >= 0 as real,
            cu == c * u,
    ;
    let v = 1 as real + k;
    assert(v * x == x + k * x) by (nonlinear_arith)
        requires
            v == 1 as real + k,
    ;
    assert(v * x >= v * cu * y2) by (nonlinear_arith)
        requires
            x >= cu * y2,
            v >= 0 as real,
    ;
    let uv = v * u;
    assert(uv >= 1 as real - r) by (nonlinear_arith)
        requires
            uv == v * u,
            v == 1 as real + 6929 as real / 10_000 as real * h,
            u == 1 as real - 6932 as real / 10_000 as real * h,
            r == 31 as real / 100_000 as real * h,
            0 as real <= h <= 1 as real / 100_000 as real,
    ;
    let w = v * cu;
    assert(w >= c - r) by (nonlinear_arith)
        requires
            w == v * cu,
            cu == c * u,
            uv == v * u,
            uv >= 1 as real - r,
            0 as real <= c <= 1 as real,
            r >= 0 as real,
    ;
    assert(w * y2 >= (c - r) * y2) by (nonlinear_arith)
        requires
            w >= c - r,
            y2 >= 0 as real,
    ;
}

/// The polynomial of a sum and the product of the polynomials, after `i`
/// steps.
proof fn lemma_walk(g: real, h: real, i: nat)
    requires
        0 as real <= g,
        0 as real <= h <= 1 as real / 100_000 as real,
        g + i as real * h <= 1 as real,
    ensures
        ({
            let x = i as real * h;
            let p = exponential::exact_exp(g + x);
            let q = exponential::exact_exp(g) * exponential::exact_exp(x);
            let c = 1 as real - 31 as real / 100_000 as real * x;
            &&& 0 as real <= x <= 1 as real
            &&& p >= c * q
            &&& q >= c * p
        }),
    decreases i,
{
    let x = i as real * h;
    let one = 1 as real;
    exponential::lemma_product_sign(i as real, h);
    assert(x <= one);
    exponential::lemma_exp_parts(g);
    if i == 0 {
        assert(x == 0 as real) by (nonlinear_arith)
            requires
                x == i as real * h,
                i == 0,
        ;
        let slope = exponential::exp_slope(x);
        assert(x * slope == 0 as real) by (nonlinear_arith)
            requires
                x == 0 as real,
        ;
        let p = exponential::exact_exp(g);
        let c = 1 as real - 31 as real / 100_000 as real * x;
        assert(c == one);
        assert(p * one == p && one * p == p) by (nonlinear_arith)
            requires
                one == 1 as real,
        ;
    } else {
        let j = (i - 1) as nat;
        let y = j as real * h;
        assert(x == y + h) by (nonlinear_arith)
            requires
                x == i as real * h,
                y == j as real * h,
                i as real == j as real + 1 as real,
        ;
        lemma_walk(g, h, j);
        exponential::lemma_exp_parts(x);
        exponential::lemma_exp_parts(y);
        exponential::lemma_exp_parts(g + x);
        exponential::lemma_exp_parts(g + y);
        exponential::lemma_exp_relative(y, x);
        exponential::lemma_exp_relative_below(y, x);
        exponential::lemma_exp_relative(g + y, g + x);
        exponential::lemma_exp_relative_below(g + y, g + x);
        let e = exponential::exact_exp(g);
        let a = exponential::exact_exp(y);
        let a2 = exponential::exact_exp(x);
        let b = exponential::exact_exp(g + y);
        let b2 = exponential::exact_exp(g + x);
        let c = one - 31 as real / 100_000 as real * y;
        let ea = e * a;
        let ea2 = e * a2;
        let low = 6929 as real / 10_000 as real;
        let high = 6932 as real / 10_000 as real;
        assert(x - y == h && (g + x) - (g + y) == h);
        assert(ea2 - ea <= h * (high * ea2)) by (nonlinear_arith)
            requires
                a2 - a <= h * (high * a2),
                ea == e * a,
                ea2 == e * a2,
                e >= 0 as real,
        ;
        assert(ea2 - ea >= h * (low * ea)) by (nonlinear_arith)
            requires
                a2 - a >= h * (low * a),
                ea == e * a,
                ea2 == e * a2,
                e >= 0 as real,
        ;
        exponential::lemma_product_sign(e, a);
        exponential::lemma_product_sign(e, a2);
        lemma_cross(b, b2, ea, ea2, c, h);
        lemma_cross(ea, ea2, b, b2, c, h);
    }
}

/// The polynomial of a sum up to one is the product of the polynomials, to
/// 31 parts in a hundred thousand.
proof fn lemma_sum_below_one(f: real, g: real)
    requires
        0 as real <= f,
        0 as real <= g,
        f + g <= 1 as real,
    ensures
        ({
            let p = exponential::exact_exp(f + g);
            let q = exponential::exact_exp(f) * exponential::exact_exp(g);
            let d = 31 as real / 100_000 as real;
            &&& p >= q - d * q
            &&& q >= p - d * p
        }),
{
    let h = f / 100_000 as real;
    let n = 100_000 as real;
    assert(n * h == f);
    lemma_walk(g, h, 100_000);
    let d = 31 as real / 100_000 as real;
    let c = 1 as real - d * f;
    let a = exponential::exact_exp(f);
    let b = exponential::exact_exp(g);
    let p = exponential::exact_exp(f + g);
    let q = b * a;
    assert(q == a * b) by (nonlinear_arith)
        requires
            q == b * a,
    ;
    assert(g + f == f + g);
    exponential::lemma_exp_parts(f);
    exponential::lemma_exp_parts(g);
    exponential::lemma_exp_parts(f + g);
    exponential::lemma_product_sign(b, a);
    assert(c * q >= q - d * q && c * p >= p - d * p) by (nonlinear_arith)
        requires
            c == 1 as real - d * f,
            d == 31 as real / 100_000 as real,
            0 as real <= f <= 1 as real,
            q >= 0 as real,
            p >= 0 as real,
    ;
}

/// Past one, the product of the polynomials is twice the polynomial of what
/// the sum exceeds one by.
proof fn lemma_sum_above_one(f: real, g: real)
    requires
        0 as real <= f <= 1 as real,
        0 as real <= g <= 1 as real,
        f + g >= 1 as real,
    ensures
        ({
            let q = exponential::exact_exp(f) * exponential::exact_exp(g);
            let r = 2 as real * exponential::exact_exp(f + g - 1 as real);
            let d = 64 as real / 100_000 as real;
            &&& r >= q - d * q
            &&& q >= r - d * r
        }),
{
    let one = 1 as real;
    let rest = one - f;
    let h = g - rest;
    let d = 31 as real / 100_000 as real;
    lemma_sum_below_one(f, rest);
    lemma_sum_below_one(rest, h);
    exponential::lemma_exp_parts(f);
    exponential::lemma_exp_parts(g);
    exponential::lemma_exp_parts(h);
    exponential::lemma_exp_parts(rest);
    exponential::lemma_exp_of_one();
    let a = exponential::exact_exp(f);
    let b = exponential::exact_exp(g);
    let c = exponential::exact_exp(rest);
    let e = exponential::exact_exp(h);
    let top = exponential::exact_exp(one);
    assert(f + rest == one && rest + h == g && h == f + g - one);
    let q = a * b;
    let ac = a * c;
    let ce = c * e;
    let all = ac * e;
    exponential::lemma_product_sign(a, b);
    exponential::lemma_product_sign(a, c);
    exponential::lemma_product_sign(ac, e);
    assert(all == a * ce) by (nonlinear_arith)
        requires
            all == ac * e,
            ac == a * c,
            ce == c * e,
    ;
    // The two approximations, each times what is missing.
    lemma_both(b, ce, d, a);
    lemma_both(top, ac, d, e);
    assert(a * b == q && a * ce == all && e * ac == all) by (nonlinear_arith)
        requires
            q == a * b,
            all == ac * e,
            all == a * ce,
    ;
    let te = e * top;
    assert(2 as real * e >= te && 100_000 as real * te >= 199_998 as real * e) by (nonlinear_arith)
        requires
            te == e * top,
            e >= 0 as real,
            top <= 2 as real,
            top * 100_000 as real >= 199_998 as real,
    ;
}

/// Two numbers that are close, times a third.
proof fn lemma_both(x: real, y: real, d: real, k: real)
    requires
        x >= y - d * y,
        y >= x - d * x,
        k >= 0 as real,
    ensures
        k * x >= k * y - d * (k * y),
        k * y >= k * x - d * (k * x),
{
    let dy = d * y;
    let dx = d * x;
    assert(k * x >= k * y - k * dy && k * y >= k * x - k * dx) by (nonlinear_arith)
        requires
            x >= y - dy,
            y >= x - dx,
            k >= 0 as real,
    ;
    assert(d * (k * y) == k * dy && d * (k * x) == k * dx) by (nonlinear_arith)
        requires
            dy == d * y,
            dx == d * x,
    ;
}

/// The product of two exponentials is the exponential of the sum: `w` and
/// `v` are the whole parts, `f` and `g` the fractions, and the result is
/// stated for the whole part and the fraction of the sum.
proof fn lemma_sum(w: int, f: real, v: int, g: real) -> (r: (int, real))
    requires
        0 as real <= f < 1 as real,
        0 as real <= g < 1 as real,
        w + v >= -140,
    ensures
        r.0 as real + r.1 == w as real + f + v as real + g,
        0 as real <= r.1 < 1 as real,
        w + v <= r.0 <= w + v + 1,
        ({
            let s = pow2((w + v + 149) as nat) as real;
            let t = pow2((r.0 + 149) as nat) as real;
            let q = exponential::exact_exp(f) * exponential::exact_exp(g) * s;
            let p = exponential::exact_exp(r.1) * t;
            let d = 64 as real / 100_000 as real;
            &&& p >= q - d * q
            &&& q >= p - d * p
            &&& s > 0 as real
            &&& t > 0 as real
        }),
{
    let e = (w + v + 149) as nat;
    lemma_pow2_pos(e);
    lemma_pow2_unfold((e + 1) as nat);
    lemma_pow2_pos((e + 1) as nat);
    let s = pow2(e) as real;
    let d = 64 as real / 100_000 as real;
    let a = exponential::exact_exp(f) * exponential::exact_exp(g);
    exponential::lemma_exp_parts(f);
    exponential::lemma_exp_parts(g);
    exponential::lemma_product_sign(exponential::exact_exp(f), exponential::exact_exp(g));
    if f + g < 1 as real {
        lemma_sum_below_one(f, g);
        let b = exponential::exact_exp(f + g);
        exponential::lemma_exp_parts(f + g);
        lemma_both(b, a, d, s);
        assert(s * a == a * s && s * b == b * s) by (nonlinear_arith);
        (w + v, f + g)
    } else {
        lemma_sum_above_one(f, g);
        let h = f + g - 1 as real;
        let b = exponential::exact_exp(h);
        let t = pow2((e + 1) as nat) as real;
        lemma_both(2 as real * b, a, d, s);
        assert(s * a == a * s && s * (2 as real * b) == b * t) by (nonlinear_arith)
            requires
                t == 2 as real * s,
        ;
        (w + v + 1, h)
    }
}

/// The exponential of a sum is the product of the exponentials, to one part
/// in a thousand.
pub proof fn law_exp2_of_a_sum(x: Binary32, y: Binary32)
    requires
        x.finite(),
        y.finite(),
        -126 * pow2(149) <= x.value() <= 127 * pow2(149),
        -126 * pow2(149) <= y.value() <= 127 * pow2(149),
        -126 * pow2(149) <= x.value() + y.value() <= 127 * pow2(149),
    ensures
        ({
            let product = math::exp2(x).value() * math::exp2(y).value();
            let off = math::exp2(x.add(y)).value() * pow2(149) - product;
            -product <= 1000 * off <= product
        }),
{
    let unit = pow2(149);
    let u = unit as real;
    let z = x.add(y);
    reals::lemma_unit();
    reals::lemma_eps();
    math::lemma_limits();
    let high = Binary32::from_bits(math::PLUS_127);
    let low = Binary32::from_bits(math::MINUS_126);
    order::lemma_add(x, y, high);
    order::lemma_add(x, y, low);
    order::lemma_finite(z, high);
    exponential::lemma_exp2(x);
    exponential::lemma_exp2(y);
    exponential::lemma_exp2(z);
    let w = exponential::whole_part(x);
    let f = exponential::fraction_part(x);
    let v = exponential::whole_part(y);
    let g = exponential::fraction_part(y);
    let m = exponential::whole_part(z);
    let h = exponential::fraction_part(z);
    // The sum, rounded.
    let sum = reals::num(x) + reals::num(y);
    let e = reals::eps();
    reals::lemma_num(x);
    reals::lemma_num(y);
    assert(sum * u == (x.value() + y.value()) as real) by (nonlinear_arith)
        requires
            sum == reals::num(x) + reals::num(y),
            reals::num(x) * u == x.value() as real,
            reals::num(y) * u == y.value() as real,
    ;
    accuracy::lemma_unscaled(sum, 127 as real, u);
    accuracy::lemma_unscaled(-(126 as real), sum, u);
    reals::lemma_num_add(x, y);
    reals::lemma_eps_of(sum);
    let (n, k) = lemma_sum(w, f, v, g);
    let near = 1 as real / 100_000 as real;
    assert(reals::near(m as real + h, n as real + k, near));
    // Powers of two.
    let s = pow2((w + 149) as nat) as real;
    let t = pow2((v + 149) as nat) as real;
    let st = pow2((w + v + 149) as nat) as real;
    let r = pow2((n + 149) as nat) as real;
    let q = pow2((m + 149) as nat) as real;
    lemma_pow2_adds((w + 149) as nat, (v + 149) as nat);
    lemma_pow2_adds((w + v + 149) as nat, 149);
    lemma_pow2_pos((w + 149) as nat);
    lemma_pow2_pos((v + 149) as nat);
    lemma_pow2_pos((m + 149) as nat);
    reals::lemma_product(pow2((w + 149) as nat) as int, pow2((v + 149) as nat) as int);
    reals::lemma_product(pow2((w + v + 149) as nat) as int, unit as int);
    lemma_pow2_unfold((m + 150) as nat);
    lemma_pow2_unfold((n + 150) as nat);
    let pf = exponential::exact_exp(f);
    let pg = exponential::exact_exp(g);
    let ph = exponential::exact_exp(h);
    let pk = exponential::exact_exp(k);
    exponential::lemma_exp_parts(f);
    exponential::lemma_exp_parts(g);
    exponential::lemma_exp_parts(h);
    exponential::lemma_exp_parts(k);
    if m as real + h <= n as real + k {
        accuracy::lemma_exp_apart(m, h, n, k, q, r, near);
    } else {
        accuracy::lemma_exp_apart(n, k, m, h, r, q, near);
    }
    exponential::lemma_product_sign(ph, q);
    exponential::lemma_product_sign(pk, r);
    accuracy::lemma_share(near, ph * q, 1);
    accuracy::lemma_share(near, pk * r, 1);
    // The three exponentials.
    let a = math::exp2(x).value() as real;
    let b = math::exp2(y).value() as real;
    let c = math::exp2(z).value() as real;
    let fs = pf * s;
    let gt = pg * t;
    lemma_close(a, pf, s, e);
    lemma_close(b, pg, t, e);
    lemma_close(c, ph, q, e);
    reals::lemma_product(math::exp2(x).value(), math::exp2(y).value());
    reals::lemma_product(math::exp2(z).value(), unit as int);
    lemma_product_close(a, b, fs, gt);
    // Over the common unit.
    let big = pf * pg * st;
    exponential::lemma_product_sign(pf, pg);
    exponential::lemma_product_sign(pf * pg, st);
    assert(fs * gt == big * u) by (nonlinear_arith)
        requires
            fs == pf * s,
            gt == pg * t,
            s * t == st * u,
            big == pf * pg * st,
    ;
    // All against the exact product.
    let cu = c * u;
    let bu = big * u;
    let hq = ph * q;
    let kr = pk * r;
    assert(100_000 as real * kr <= 100_000 as real * big + 64 as real * kr);
    assert(100_000 as real * big <= 100_000 as real * kr + 64 as real * big);
    assert(10_000 as real * hq <= 10_000 as real * kr + hq);
    assert(10_000 as real * kr <= 10_000 as real * hq + kr);
    lemma_chain(c, hq, kr, big);
    let up = 1000 as real * (c - big);
    let most = 9 as real / 10 as real * big;
    accuracy::lemma_scale_up(up, most, u);
    accuracy::lemma_scale_up(-up, most, u);
    assert(up * u == 1000 as real * (cu - bu) && (-up) * u == 1000 as real * (bu - cu) && most * u
        == 9 as real / 10 as real * bu) by (nonlinear_arith)
        requires
            up == 1000 as real * (c - big),
            most == 9 as real / 10 as real * big,
            cu == c * u,
            bu == big * u,
    ;
}

/// From a computed exponential to the exact product, by way of its
/// polynomial and the polynomial of the exact sum.
proof fn lemma_chain(c: real, hq: real, kr: real, big: real)
    requires
        hq > 0 as real,
        kr >= 0 as real,
        big >= 0 as real,
        reals::near(100_000 as real * c, 100_000 as real * hq, hq),
        10_000 as real * hq <= 10_000 as real * kr + hq,
        10_000 as real * kr <= 10_000 as real * hq + kr,
        100_000 as real * kr <= 100_000 as real * big + 64 as real * kr,
        100_000 as real * big <= 100_000 as real * kr + 64 as real * big,
    ensures
        1000 as real * (c - big) <= 9 as real / 10 as real * big,
        1000 as real * (big - c) <= 9 as real / 10 as real * big,
{
}

/// An exponential against its polynomial, in parts of itself.
proof fn lemma_close(a: real, p: real, s: real, e: real)
    requires
        p >= 1 as real,
        s > 0 as real,
        0x100_0000 as real * e == 1 as real,
        reals::near(a, p * s, 128 as real * e * s),
    ensures
        p * s > 0 as real,
        reals::near(100_000 as real * a, 100_000 as real * (p * s), p * s),
{
    let k = 128 as real * e;
    assert(100_000 as real * (k * s) <= p * s) by (nonlinear_arith)
        requires
            100_000 as real * k <= 1 as real,
            p >= 1 as real,
            s > 0 as real,
    ;
    assert(p * s > 0 as real) by (nonlinear_arith)
        requires
            p >= 1 as real,
            s > 0 as real,
    ;
}

/// The product of two numbers that are each within one part in a hundred
/// thousand.
proof fn lemma_product_close(a: real, b: real, x: real, y: real)
    requires
        x > 0 as real,
        y > 0 as real,
        reals::near(100_000 as real * a, 100_000 as real * x, x),
        reals::near(100_000 as real * b, 100_000 as real * y, y),
    ensures
        reals::near(30_000 as real * (a * b), 30_000 as real * (x * y), x * y),
{
    let xy = x * y;
    let p = a - x;
    let q = b - y;
    exponential::lemma_product_sign(x, y);
    assert(a * b == xy + p * y + x * q + p * q) by (nonlinear_arith)
        requires
            p == a - x,
            q == b - y,
            xy == x * y,
    ;
    assert(-xy <= 100_000 as real * (p * y) <= xy) by (nonlinear_arith)
        requires
            -x <= 100_000 as real * p <= x,
            y > 0 as real,
            xy == x * y,
    ;
    assert(-xy <= 100_000 as real * (x * q) <= xy) by (nonlinear_arith)
        requires
            -y <= 100_000 as real * q <= y,
            x > 0 as real,
            xy == x * y,
    ;
    assert(-y <= q <= y);
    assert(-xy <= 100_000 as real * (p * q) <= xy) by (nonlinear_arith)
        requires
            -x <= 100_000 as real * p <= x,
            -y <= q <= y,
            x > 0 as real,
            y > 0 as real,
            xy == x * y,
    ;
}

/// Whole parts of the logarithms of two numbers whose product is normal.
proof fn lemma_wholes(x: Binary32, y: Binary32)
    requires
        0x80_0000 <= x.bits < rounding::INFINITY_BITS,
        0x80_0000 <= y.bits < rounding::INFINITY_BITS,
        x.value() * y.value() >= 0x80_0000 * pow2(149),
    ensures
        -140 <= logarithm::exponent(x) + logarithm::exponent(y),
{
    let w = logarithm::exponent(x);
    let v = logarithm::exponent(y);
    logarithm::lemma_normal(x);
    logarithm::lemma_normal(y);
    lemma2_to64();
    lemma_pow2_adds(23, 149);
    let a = pow2((w + 150) as nat);
    let b = pow2((v + 150) as nat);
    lemma_pow2_unfold((w + 150) as nat);
    lemma_pow2_unfold((v + 150) as nat);
    lemma_pow2_pos((w + 149) as nat);
    lemma_pow2_pos((v + 149) as nat);
    lemma_pow2_adds((w + 150) as nat, (v + 150) as nat);
    let m = logarithm::significand(x);
    let n = logarithm::significand(y);
    let s = pow2((w + 149) as nat) as real;
    let t = pow2((v + 149) as nat) as real;
    assert(m * s < 2 as real * s) by (nonlinear_arith)
        requires
            m < 2 as real,
            s > 0 as real,
    ;
    assert(n * t < 2 as real * t) by (nonlinear_arith)
        requires
            n < 2 as real,
            t > 0 as real,
    ;
    let p = x.value();
    let q = y.value();
    assert(p * q < a * q) by (nonlinear_arith)
        requires
            p < a,
            0 < q,
    ;
    assert(a * q < a * b) by (nonlinear_arith)
        requires
            q < b,
            0 < a,
    ;
    if w + v < -140 {
        rounding::lemma_pow2_order((w + v + 300) as nat, 172);
    }
}

/// The logarithm of a product in the normal range is the sum of the
/// logarithms, to one part in 64.
pub proof fn law_log2_of_a_product(x: Binary32, y: Binary32)
    requires
        0x80_0000 <= x.bits < rounding::INFINITY_BITS,
        0x80_0000 <= y.bits < rounding::INFINITY_BITS,
        x.value() * y.value() >= 0x80_0000 * pow2(149),
        x.mul(y).finite(),
    ensures
        ({
            let off = math::log2(x.mul(y)).value() - math::log2(x).value() - math::log2(y).value();
            -pow2(149) <= 64 * off <= pow2(149)
        }),
{
    let unit = pow2(149);
    let u = unit as real;
    let z = x.mul(y);
    reals::lemma_unit();
    reals::lemma_eps();
    logarithm::lemma_normal(x);
    logarithm::lemma_normal(y);
    logarithm::lemma_log2(x);
    logarithm::lemma_log2(y);
    accuracy::lemma_significand_returns(x);
    accuracy::lemma_significand_returns(y);
    lemma_wholes(x, y);
    order::lemma_mul_error(x, y);
    // The product is normal.
    order::lemma_power(23);
    lemma2_to64();
    order::lemma_mul(x, y, order::power(23));
    accuracy::lemma_is_normal(z, 23);
    let w = logarithm::exponent(x);
    let v = logarithm::exponent(y);
    let lx = math::log2(x);
    let ly = math::log2(y);
    let f = exponential::fraction_part(lx);
    let g = exponential::fraction_part(ly);
    let (n, k) = lemma_sum(w, f, v, g);
    let s = pow2((w + 149) as nat) as real;
    let t = pow2((v + 149) as nat) as real;
    let st = pow2((w + v + 149) as nat) as real;
    let r = pow2((n + 149) as nat) as real;
    lemma_pow2_adds((w + 149) as nat, (v + 149) as nat);
    lemma_pow2_adds((w + v + 149) as nat, 149);
    reals::lemma_product(pow2((w + 149) as nat) as int, pow2((v + 149) as nat) as int);
    reals::lemma_product(pow2((w + v + 149) as nat) as int, unit as int);
    reals::lemma_product(x.value(), y.value());
    reals::lemma_product(z.value(), unit as int);
    rounding::lemma_pow2_order((w + v + 149) as nat, (n + 149) as nat);
    let a = logarithm::significand(x);
    let b = logarithm::significand(y);
    let pf = exponential::exact_exp(f);
    let pg = exponential::exact_exp(g);
    let pk = exponential::exact_exp(k);
    exponential::lemma_exp_parts(f);
    exponential::lemma_exp_parts(g);
    exponential::lemma_exp_parts(k);
    let zr = z.value() as real;
    let xr = x.value() as real;
    let yr = y.value() as real;
    let ab = a * b;
    // The product over the unit, but for rounding.
    let m = ab * st;
    let two = s * t;
    assert(xr * yr == ab * two) by (nonlinear_arith)
        requires
            xr == a * s,
            yr == b * t,
            two == s * t,
            ab == a * b,
    ;
    assert(ab * two == m * u) by (nonlinear_arith)
        requires
            two == st * u,
            m == ab * st,
    ;
    let above = 0x100_0000 as real * zr - 0x100_0001 as real * m;
    let below = 0xff_ffff as real * m - 0x100_0000 as real * zr;
    assert(above * u == 0x100_0000 as real * (zr * u) - 0x100_0001 as real * (m * u) && below * u
        == 0xff_ffff as real * (m * u) - 0x100_0000 as real * (zr * u)) by (nonlinear_arith)
        requires
            above == 0x100_0000 as real * zr - 0x100_0001 as real * m,
            below == 0xff_ffff as real * m - 0x100_0000 as real * zr,
    ;
    assert(0 as real * u == 0 as real) by (nonlinear_arith);
    accuracy::lemma_unscaled(above, 0 as real, u);
    accuracy::lemma_unscaled(below, 0 as real, u);
    assert(0 as real <= ab <= 4 as real) by (nonlinear_arith)
        requires
            ab == a * b,
            0 as real <= a <= 2 as real,
            0 as real <= b <= 2 as real,
    ;
    assert(0 as real <= m <= 4 as real * st) by (nonlinear_arith)
        requires
            m == ab * st,
            0 as real <= ab <= 4 as real,
            st > 0 as real,
    ;
    // The significands against the polynomials.
    let pp = pf * pg;
    let da = pf - a;
    let db = pg - b;
    assert(pp - ab == pf * db + da * b) by (nonlinear_arith)
        requires
            pp == pf * pg,
            ab == a * b,
            da == pf - a,
            db == pg - b,
    ;
    let d = 3 as real / 10_000 as real;
    assert(-(2 as real * d) <= pf * db <= 2 as real * d) by (nonlinear_arith)
        requires
            0 as real <= pf <= 2 as real,
            -d <= db <= d,
    ;
    assert(-(2 as real * d) <= da * b <= 2 as real * d) by (nonlinear_arith)
        requires
            0 as real <= b <= 2 as real,
            -d <= da <= d,
    ;
    let big = pp * st;
    let gap = pp - ab;
    assert(big == m + gap * st) by (nonlinear_arith)
        requires
            big == pp * st,
            m == ab * st,
            gap == pp - ab,
    ;
    let room = 4 as real * d;
    accuracy::lemma_scale_up(gap, room, st);
    accuracy::lemma_scale_up(-room, gap, st);
    assert(room * st * 10_000 as real == 12 as real * st && (-room) * st == -(room * st))
        by (nonlinear_arith)
        requires
            room * 10_000 as real == 12 as real,
    ;
    let kr = pk * r;
    assert(0 as real <= kr <= 2 as real * r) by (nonlinear_arith)
        requires
            kr == pk * r,
            0 as real <= pk <= 2 as real,
            r > 0 as real,
    ;
    assert(100_000 as real * kr <= 100_000 as real * big + 64 as real * kr);
    assert(100_000 as real * big <= 100_000 as real * kr + 64 as real * big);
    let limit = 26 as real / 10_000 as real;
    assert(limit * r * 10_000 as real == 26 as real * r) by (nonlinear_arith)
        requires
            limit == 26 as real / 10_000 as real,
    ;
    accuracy::lemma_log2_near(z, n, k, limit);
    // Back to values.
    let lz = math::log2(z);
    reals::lemma_num(lx);
    reals::lemma_num(ly);
    reals::lemma_num(lz);
    let nx = reals::num(lx);
    let ny = reals::num(ly);
    let nz = reals::num(lz);
    let off = 64 as real * (nz - nx - ny);
    assert(-(1 as real) <= off <= 1 as real);
    accuracy::lemma_scale_up(off, 1 as real, u);
    accuracy::lemma_scale_up(-(1 as real), off, u);
    assert(off * u == 64 as real * (nz * u - nx * u - ny * u)) by (nonlinear_arith)
        requires
            off == 64 as real * (nz - nx - ny),
    ;
}

} // verus!
