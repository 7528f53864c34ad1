//! Binary32 numbers as the reals they stand for.
//!
//! Every operation is the real operation, off by at most one part in 2^24
//! and, where a product or a quotient is tiny, by one unit of 2^-149.
use crate::binary32::Binary32;
use crate::order;
use crate::rounding;
use vstd::arithmetic::power2::*;
use vstd::prelude::*;

verus! {

/// The real number that a finite number stands for.
pub open spec fn num(x: Binary32) -> real {
    x.value() as real / pow2(149) as real
}

/// A fraction.
pub open spec fn ratio(a: int, b: int) -> real {
    a as real / b as real
}

/// One part in 2^24.
pub open spec fn eps() -> real {
    ratio(1, 0x100_0000)
}

/// A fraction times what divides it.
pub proof fn lemma_ratio(a: int, b: int)
    requires
        b > 0,
    ensures
        ratio(a, b) * b as real == a as real,
{
    let x = a as real;
    let y = b as real;
    assert(x / y * y == x) by (nonlinear_arith)
        requires
            y > 0 as real,
    ;
}

/// Whether two reals differ by at most `d`.
pub open spec fn near(a: real, b: real, d: real) -> bool {
    &&& a - b <= d
    &&& b - a <= d
}

/// The two measures of rounding.
pub proof fn lemma_eps()
    ensures
        0x100_0000 as real * eps() == 1 as real,
        0x1_0000_0000_0000 as real * ratio(1, 0x1_0000_0000_0000) == 1 as real,
        eps() > 0 as real,
        ratio(1, 0x1_0000_0000_0000) > 0 as real,
{
    let e = eps();
    let k = ratio(1, 0x1_0000_0000_0000);
    assert(0x100_0000 as real * e == 1 as real && 0x1_0000_0000_0000 as real * k == 1 as real)
        by (nonlinear_arith)
        requires
            e == 1 as real / 0x100_0000 as real,
            k == 1 as real / 0x1_0000_0000_0000 as real,
    ;
}

/// One part in 2^24 of a number.
pub proof fn lemma_eps_of(x: real)
    ensures
        0x100_0000 as real * (eps() * x) == x,
        x >= 0 as real ==> eps() * x >= 0 as real,
        x <= 0 as real ==> eps() * x <= 0 as real,
{
    lemma_eps();
    let e = eps();
    assert(0x100_0000 as real * (e * x) == x) by (nonlinear_arith)
        requires
            0x100_0000 as real * e == 1 as real,
    ;
}

/// A product of whole numbers, as a product of reals.
pub proof fn lemma_product(a: int, b: int)
    ensures
        (a * b) as real == a as real * b as real,
{
    assert((a * b) as real == a as real * b as real) by (nonlinear_arith);
}

/// The unit of value: 2^149 units make one.
pub proof fn lemma_unit()
    ensures
        pow2(149) >= 0x1_0000_0000_0000,
        pow2(149) as real >= 0x1_0000_0000_0000 as real,
{
    lemma2_to64();
    lemma2_to64_rest();
    rounding::lemma_pow2_order(48, 149);
}

/// A number times the unit is its value.
pub proof fn lemma_num(x: Binary32)
    ensures
        num(x) * (pow2(149) as real) == x.value() as real,
        x.value() >= 0 ==> num(x) >= 0 as real,
        x.value() <= 0 ==> num(x) <= 0 as real,
{
    lemma_unit();
    let u = pow2(149) as real;
    let v = x.value() as real;
    assert(v / u * u == v && (v >= 0 as real ==> v / u >= 0 as real) && (v <= 0 as real ==> v / u
        <= 0 as real)) by (nonlinear_arith)
        requires
            u > 0 as real,
    ;
}

/// Numbers are ordered as their values.
pub proof fn lemma_num_order(x: Binary32, c: int)
    ensures
        x.value() <= c * pow2(149) <==> num(x) <= c as real,
        x.value() >= c * pow2(149) <==> num(x) >= c as real,
        x.value() < c * pow2(149) <==> num(x) < c as real,
{
    lemma_unit();
    lemma_num(x);
    let u = pow2(149) as real;
    let n = num(x);
    let v = x.value();
    lemma_product(c, pow2(149) as int);
    assert((n * u <= c as real * u <==> n <= c as real) && (n * u >= c as real * u <==> n
        >= c as real)) by (nonlinear_arith)
        requires
            u > 0 as real,
    ;
    assert(v as real == n * u);
}

/// A sum.
pub proof fn lemma_num_add(a: Binary32, b: Binary32)
    requires
        a.finite(),
        b.finite(),
        a.add(b).finite(),
    ensures
        ({
            let s = num(a) + num(b);
            &&& s >= 0 as real ==> near(num(a.add(b)), s, eps() * s)
            &&& s <= 0 as real ==> near(num(a.add(b)), s, -(eps() * s))
        }),
{
    order::lemma_add_error(a, b);
    lemma_num(a);
    lemma_num(b);
    lemma_num(a.add(b));
    lemma_unit();
    let u = pow2(149) as real;
    let r = num(a.add(b));
    let s = num(a) + num(b);
    let sum = a.value() + b.value();
    assert(sum as real == s * u) by (nonlinear_arith)
        requires
            sum as real == num(a) * u + num(b) * u,
            s == num(a) + num(b),
    ;
    let n = 0x100_0000 as real;
    lemma_eps();
    if sum >= 0 {
        assert(s >= 0 as real && (n - 1 as real) * s <= n * r && n * r <= (n + 1 as real) * s)
            by (nonlinear_arith)
            requires
                s * u >= 0 as real,
                (n - 1 as real) * (s * u) <= n * (r * u),
                n * (r * u) <= (n + 1 as real) * (s * u),
                u > 0 as real,
        ;
    }
    if sum <= 0 {
        assert(s <= 0 as real && (n + 1 as real) * s <= n * r && n * r <= (n - 1 as real) * s)
            by (nonlinear_arith)
            requires
                s * u <= 0 as real,
                (n + 1 as real) * (s * u) <= n * (r * u),
                n * (r * u) <= (n - 1 as real) * (s * u),
                u > 0 as real,
        ;
    }
    assert(s > 0 as real ==> sum >= 0) by (nonlinear_arith)
        requires
            sum as real == s * u,
            u > 0 as real,
    ;
    assert(s < 0 as real ==> sum <= 0) by (nonlinear_arith)
        requires
            sum as real == s * u,
            u > 0 as real,
    ;
    assert(s == 0 as real ==> sum == 0) by (nonlinear_arith)
        requires
            sum as real == s * u,
            u > 0 as real,
    ;
    lemma_eps_of(s);
}

/// A product of numbers that are not negative.
pub proof fn lemma_num_mul(a: Binary32, b: Binary32)
    requires
        a.finite(),
        b.finite(),
        a.mul(b).finite(),
        a.value() >= 0,
        b.value() >= 0,
    ensures
        near(
            num(a.mul(b)),
            num(a) * num(b),
            eps() * (num(a) * num(b)) + ratio(1, 0x1_0000_0000_0000),
        ),
        num(a.mul(b)) >= 0 as real,
{
    reveal(Binary32::spec_mul);
    lemma_num(a);
    lemma_num(b);
    lemma_num(a.mul(b));
    lemma_unit();
    let u = pow2(149);
    let ur = u as real;
    let p = a.size() * b.size();
    let bits = rounding::round_ratio(p, u);
    order::lemma_rounded(a.negative() != b.negative(), p, u, a);
    order::lemma_signed(a.negative() != b.negative(), bits);
    rounding::lemma_round_error_any(p, u);
    let m = a.mul(b).size();
    rounding::lemma_magnitude_zero();
    if a.mul(b).negative() {
        assert(p == 0) by (nonlinear_arith)
            requires
                a.size() == 0 || b.size() == 0,
                p == a.size() * b.size(),
        ;
        rounding::lemma_round_ratio_bound(0, u, 0);
        assert(0 <= rounding::magnitude(0) * u) by (nonlinear_arith);
        rounding::lemma_magnitude_order(bits, 0);
    }
    let x = num(a);
    let y = num(b);
    let r = num(a.mul(b));
    assert(m as real == r * ur);
    let mu = m * u;
    lemma_product(m as int, u as int);
    lemma_product(a.size() as int, b.size() as int);
    assert(mu as real == r * ur * ur);
    assert(p as real == (x * y) * (ur * ur)) by (nonlinear_arith)
        requires
            p as real == (x * ur) * (y * ur),
    ;
    assert(x * y >= 0 as real) by (nonlinear_arith)
        requires
            x >= 0 as real,
            y >= 0 as real,
    ;
    lemma_scale_out(r, x * y, ur, mu as real, p as real);
}

/// Rounding bounds in units of the square of the unit.
proof fn lemma_scale_out(r: real, t: real, u: real, mu: real, p: real)
    requires
        u >= 0x1_0000_0000_0000 as real,
        mu == r * u * u,
        p == t * (u * u),
        t >= 0 as real,
        0x100_0000 as real * mu <= 0x100_0001 as real * p + 0x100_0000 as real * u,
        0x100_0000 as real * mu + 0x100_0000 as real * u >= 0xff_ffff as real * p,
    ensures
        near(r, t, eps() * t + ratio(1, 0x1_0000_0000_0000)),
{
    let n = 0x100_0000 as real;
    lemma_eps_of(t);
    let q = u * u;
    assert(mu == r * q) by (nonlinear_arith)
        requires
            mu == r * u * u,
            q == u * u,
    ;
    assert(q > 0 as real && u * (0x1_0000_0000_0000 as real) <= q) by (nonlinear_arith)
        requires
            q == u * u,
            u >= 0x1_0000_0000_0000 as real,
    ;
    let k = ratio(1, 0x1_0000_0000_0000);
    lemma_eps();
    assert(u <= k * q) by (nonlinear_arith)
        requires
            u * (0x1_0000_0000_0000 as real) <= q,
            0x1_0000_0000_0000 as real * k == 1 as real,
    ;
    let d = n * r - n * t - t - n * k;
    let g = n * t - t - n * k - n * r;
    assert(d * q <= 0 as real) by (nonlinear_arith)
        requires
            d == n * r - n * t - t - n * k,
            n * (r * q) <= (n + 1 as real) * (t * q) + n * u,
            u <= k * q,
            n == 0x100_0000 as real,
    ;
    assert(g * q <= 0 as real) by (nonlinear_arith)
        requires
            g == n * t - t - n * k - n * r,
            n * (r * q) + n * u >= (n - 1 as real) * (t * q),
            u <= k * q,
            n == 0x100_0000 as real,
    ;
    assert(d <= 0 as real) by (nonlinear_arith)
        requires
            d * q <= 0 as real,
            q > 0 as real,
    ;
    assert(g <= 0 as real) by (nonlinear_arith)
        requires
            g * q <= 0 as real,
            q > 0 as real,
    ;
}

/// A quotient of numbers that are not negative.
pub proof fn lemma_num_div(a: Binary32, b: Binary32)
    requires
        a.finite(),
        b.finite(),
        a.div(b).finite(),
        a.value() >= 0,
        b.value() > 0,
    ensures
        near(
            num(a.div(b)),
            num(a) / num(b),
            eps() * (num(a) / num(b)) + ratio(1, 0x1_0000_0000_0000),
        ),
        num(a.div(b)) >= 0 as real,
        num(b) > 0 as real,
{
    reveal(Binary32::spec_div);
    lemma_num(a);
    lemma_num(b);
    lemma_num(a.div(b));
    lemma_unit();
    let u = pow2(149);
    let ur = u as real;
    rounding::lemma_magnitude_zero();
    let p = a.size() * u;
    let d = b.size();
    let bits = rounding::round_ratio(p, d);
    order::lemma_rounded(a.negative() != b.negative(), p, d, a);
    order::lemma_signed(a.negative() != b.negative(), bits);
    rounding::lemma_round_error_any(p, d);
    let m = a.div(b).size();
    if a.negative() {
        assert(p == 0) by (nonlinear_arith)
            requires
                a.size() == 0,
                p == a.size() * u,
        ;
        rounding::lemma_round_ratio_bound(0, d, 0);
        assert(0 <= rounding::magnitude(0) * d) by (nonlinear_arith);
        rounding::lemma_magnitude_order(bits, 0);
    }
    let x = num(a);
    let y = num(b);
    let r = num(a.div(b));
    assert(m as real == r * ur);
    lemma_product(m as int, d as int);
    lemma_product(a.size() as int, u as int);
    lemma_eps();
    assert(y > 0 as real) by (nonlinear_arith)
        requires
            y * ur == d as real,
            d as real >= 1 as real,
            ur > 0 as real,
    ;
    let t = x / y;
    assert(x == t * y && t >= 0 as real) by (nonlinear_arith)
        requires
            t == x / y,
            y > 0 as real,
            x >= 0 as real,
    ;
    let n = 0x100_0000 as real;
    lemma_eps_of(t);
    let w = y * ur;
    let md = (m * d) as real;
    let pr = p as real;
    assert(md == (r * ur) * w && pr == (t * w) * ur) by (nonlinear_arith)
        requires
            md == (r * ur) * w,
            pr == (x * ur) * ur,
            x == t * y,
            w == y * ur,
    ;
    let wu = w * ur;
    let k = ratio(1, 0x1_0000_0000_0000);
    assert(w > 0 as real && wu > 0 as real && w <= k * wu) by (nonlinear_arith)
        requires
            w == y * ur,
            y > 0 as real,
            wu == w * ur,
            ur >= 0x1_0000_0000_0000 as real,
            0x1_0000_0000_0000 as real * k == 1 as real,
    ;
    let above = n * r - n * t - t - n * k;
    let below = n * t - t - n * k - n * r;
    assert(above * wu <= 0 as real) by (nonlinear_arith)
        requires
            above == n * r - n * t - t - n * k,
            n * md <= (n + 1 as real) * pr + n * w,
            md == (r * ur) * w,
            pr == (t * w) * ur,
            wu == w * ur,
            w <= k * wu,
            n == 0x100_0000 as real,
    ;
    assert(below * wu <= 0 as real) by (nonlinear_arith)
        requires
            below == n * t - t - n * k - n * r,
            n * md + n * w >= (n - 1 as real) * pr,
            md == (r * ur) * w,
            pr == (t * w) * ur,
            wu == w * ur,
            w <= k * wu,
            n == 0x100_0000 as real,
    ;
    assert(above <= 0 as real) by (nonlinear_arith)
        requires
            above * wu <= 0 as real,
            wu > 0 as real,
    ;
    assert(below <= 0 as real) by (nonlinear_arith)
        requires
            below * wu <= 0 as real,
            wu > 0 as real,
    ;
}

/// The size of a real.
pub open spec fn size(x: real) -> real {
    if x >= 0 as real {
        x
    } else {
        -x
    }
}

/// A negated number.
pub proof fn lemma_num_neg(x: Binary32)
    requires
        x.finite(),
    ensures
        x.neg().finite(),
        num(x.neg()) == -num(x),
{
    order::lemma_neg(x);
    lemma_num(x);
    lemma_num(x.neg());
    lemma_unit();
    let u = pow2(149) as real;
    let a = num(x);
    let b = num(x.neg());
    assert(b == -a) by (nonlinear_arith)
        requires
            b * u == -(a * u),
            u > 0 as real,
    ;
}

/// The absolute value of a number.
pub proof fn lemma_num_abs(x: Binary32)
    requires
        x.finite(),
    ensures
        x.abs().finite(),
        x.abs().value() == x.size(),
        num(x.abs()) == size(num(x)),
{
    order::lemma_signed(false, x.pattern());
    lemma_num(x);
    lemma_num(x.abs());
    lemma_unit();
    let u = pow2(149) as real;
    let a = num(x);
    let b = num(x.abs());
    if x.negative() {
        assert(b == -a) by (nonlinear_arith)
            requires
                b * u == -(a * u),
                u > 0 as real,
        ;
    } else {
        assert(b == a) by (nonlinear_arith)
            requires
                b * u == a * u,
                u > 0 as real,
        ;
    }
}

/// The size of a product.
pub proof fn lemma_size_product(a: real, b: real)
    ensures
        size(a * b) == size(a) * size(b),
        size(a) * size(b) >= 0 as real,
{
    assert(a >= 0 as real && b >= 0 as real ==> a * b >= 0 as real) by (nonlinear_arith);
    assert(a < 0 as real && b < 0 as real ==> a * b > 0 as real) by (nonlinear_arith);
    assert(a < 0 as real && b >= 0 as real ==> a * b <= 0 as real) by (nonlinear_arith);
    assert(a >= 0 as real && b < 0 as real ==> a * b <= 0 as real) by (nonlinear_arith);
    assert((-a) * b == -(a * b) && a * (-b) == -(a * b) && (-a) * (-b) == a * b)
        by (nonlinear_arith);
}

/// A product, of either sign.
pub proof fn lemma_num_product(a: Binary32, b: Binary32)
    requires
        a.finite(),
        b.finite(),
        a.mul(b).finite(),
    ensures
        near(
            num(a.mul(b)),
            num(a) * num(b),
            eps() * size(num(a) * num(b)) + ratio(1, 0x1_0000_0000_0000),
        ),
{
    let x = a.abs();
    let y = b.abs();
    lemma_num_abs(a);
    lemma_num_abs(b);
    reveal(Binary32::spec_mul);
    lemma_pow2_pos(149);
    let bits = rounding::round_ratio(a.size() * b.size(), pow2(149));
    order::lemma_rounded(true, a.size() * b.size(), pow2(149), a);
    order::lemma_rounded(false, a.size() * b.size(), pow2(149), a);
    rounding::lemma_round_ratio_bound(a.size() * b.size(), pow2(149), a.pattern());
    order::lemma_signed(true, bits);
    order::lemma_signed(false, bits);
    let p = x.mul(y);
    let q = a.mul(b);
    assert(p.size() == q.size() && !p.negative());
    lemma_num_mul(x, y);
    lemma_size_product(num(a), num(b));
    lemma_num_abs(q);
    lemma_num(p);
    lemma_num(q.abs());
    lemma_unit();
    let u = pow2(149) as real;
    let g = num(p);
    let h = num(q.abs());
    assert(g == h) by (nonlinear_arith)
        requires
            g * u == h * u,
            u > 0 as real,
    ;
    lemma_num(a);
    lemma_num(b);
    lemma_num(q);
    let s = num(a);
    let t = num(b);
    assert(s > 0 as real && t > 0 as real ==> s * t > 0 as real) by (nonlinear_arith);
    assert(s < 0 as real && t < 0 as real ==> s * t > 0 as real) by (nonlinear_arith);
    assert(s < 0 as real && t > 0 as real ==> s * t < 0 as real) by (nonlinear_arith);
    assert(s > 0 as real && t < 0 as real ==> s * t < 0 as real) by (nonlinear_arith);
    assert(s == 0 as real || t == 0 as real ==> s * t == 0 as real) by (nonlinear_arith);
    lemma_num_sign(a);
    lemma_num_sign(b);
    lemma_num_sign(q);
    lemma_eps();
}

/// A number and the real it stands for have one sign.
pub proof fn lemma_num_sign(x: Binary32)
    ensures
        num(x) > 0 as real ==> !x.negative(),
        num(x) < 0 as real ==> x.negative(),
        x.negative() ==> num(x) <= 0 as real,
        !x.negative() ==> num(x) >= 0 as real,
{
    lemma_num(x);
}

/// A difference.
pub proof fn lemma_num_difference(a: Binary32, b: Binary32)
    requires
        a.finite(),
        b.finite(),
        a.sub(b).finite(),
    ensures
        near(num(a.sub(b)), num(a) - num(b), eps() * size(num(a) - num(b))),
{
    lemma_num_neg(b);
    lemma_num_add(a, b.neg());
    let s = num(a) - num(b);
    let e = eps();
    assert(e * (-s) == -(e * s)) by (nonlinear_arith);
}

/// A quotient by a positive number, of either sign, times what it was
/// divided by.
pub proof fn lemma_num_quotient(a: Binary32, b: Binary32)
    requires
        a.finite(),
        b.finite(),
        b.value() > 0,
        a.div(b).finite(),
    ensures
        num(b) > 0 as real,
        near(
            num(a.div(b)) * num(b),
            num(a),
            eps() * size(num(a)) + ratio(1, 0x1_0000_0000_0000) * num(b),
        ),
{
    let x = a.abs();
    lemma_num_abs(a);
    reveal(Binary32::spec_div);
    rounding::lemma_magnitude_zero();
    lemma_pow2_pos(149);
    let bits = rounding::round_ratio(a.size() * pow2(149), b.size());
    order::lemma_rounded(true, a.size() * pow2(149), b.size(), a);
    order::lemma_rounded(false, a.size() * pow2(149), b.size(), a);
    rounding::lemma_round_ratio_bound(a.size() * pow2(149), b.size(), a.pattern());
    order::lemma_signed(true, bits);
    order::lemma_signed(false, bits);
    let p = x.div(b);
    let q = a.div(b);
    assert(p.size() == q.size() && !p.negative() && q.negative() == a.negative());
    lemma_num_div(x, b);
    lemma_num_abs(q);
    lemma_num(p);
    lemma_num(q.abs());
    lemma_unit();
    let u = pow2(149) as real;
    let g = num(p);
    let h = num(q.abs());
    assert(g == h) by (nonlinear_arith)
        requires
            g * u == h * u,
            u > 0 as real,
    ;
    let y = num(b);
    let s = size(num(a));
    let k = s / y;
    assert(k * y == s) by (nonlinear_arith)
        requires
            k == s / y,
            y > 0 as real,
    ;
    let e = eps();
    let t = ratio(1, 0x1_0000_0000_0000);
    let ek = e * k;
    let d = ek + t;
    assert(d * y == e * s + t * y) by (nonlinear_arith)
        requires
            d == ek + t,
            ek == e * k,
            k * y == s,
    ;
    let off = g - k;
    assert(off * y == g * y - s) by (nonlinear_arith)
        requires
            off == g - k,
            k * y == s,
    ;
    assert(-(d * y) <= off * y <= d * y) by (nonlinear_arith)
        requires
            -d <= off <= d,
            y > 0 as real,
    ;
    lemma_num_sign(a);
    lemma_num_sign(q);
    lemma_num_sign(p);
    let n = num(q);
    assert((-n) * y == -(n * y)) by (nonlinear_arith);
}

} // verus!
