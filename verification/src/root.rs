//! How close the square root comes.
//!
//! Halving the biased exponent gives a first guess whose square is at most
//! an eighth off. Each Newton step squares that error, down to what the
//! rounding of its own three operations leaves.
use crate::binary32::Binary32;
use crate::math;
use crate::order;
use crate::rounding;
use vstd::arithmetic::power2::*;
use vstd::prelude::*;

verus! {

/// Whether `a` is within one part in `n` of `z`.
pub open spec fn close(a: int, z: int, n: int) -> bool {
    &&& n * (a - z) <= z
    &&& n * (z - a) <= z
}

/// Half the sum of a guess and the quotient by it, and what the error of the
/// guess leaves of their difference.
proof fn lemma_gap(y: int, q: int, z: int, a: int, b: int)
    requires
        0 < z,
        0 < a,
        0 < b,
        close(y * y, z, a),
        close(q * y, z, 0x100_0000),
        (a + 0x100_0000) * b <= a * 0x100_0000,
    ensures
        b * ((y - q) * y) <= z,
        -(b * ((y - q) * y)) <= z,
{
    let n: int = 0x100_0000;
    let e1 = y * y - z;
    let e2 = q * y - z;
    let e = (y - q) * y;
    assert(e == e1 - e2) by (nonlinear_arith)
        requires
            e == (y - q) * y,
            e1 == y * y - z,
            e2 == q * y - z,
    ;
    assert(n * (a * e1) <= n * z && -(n * (a * e1)) <= n * z) by (nonlinear_arith)
        requires
            a * e1 <= z,
            a * (-e1) <= z,
            n > 0,
    ;
    assert(a * (n * e2) <= a * z && -(a * (n * e2)) <= a * z) by (nonlinear_arith)
        requires
            n * e2 <= z,
            n * (-e2) <= z,
            a > 0,
    ;
    let an = a * n;
    assert(an * e == n * (a * e1) - a * (n * e2)) by (nonlinear_arith)
        requires
            e == e1 - e2,
            an == a * n,
    ;
    assert((a + n) * z == n * z + a * z) by (nonlinear_arith);
    assert(an * e <= (a + n) * z && -(an * e) <= (a + n) * z);
    assert(b * (an * e) <= b * ((a + n) * z) && -(b * (an * e)) <= b * ((a + n) * z))
        by (nonlinear_arith)
        requires
            an * e <= (a + n) * z,
            -(an * e) <= (a + n) * z,
            b > 0,
    ;
    assert(b * ((a + n) * z) <= an * z) by (nonlinear_arith)
        requires
            (a + n) * b <= an,
            z > 0,
    ;
    assert(b * e <= z && -(b * e) <= z) by (nonlinear_arith)
        requires
            b * (an * e) <= an * z,
            -(b * (an * e)) <= an * z,
            an == a * n,
            a > 0,
            n > 0,
    ;
}

/// The square of that difference.
proof fn lemma_gap_square(y: int, d: int, z: int, a: int, b: int, k: int)
    requires
        0 < z,
        1 < a,
        0 < b,
        0 < k,
        close(y * y, z, a),
        b * (d * y) <= z,
        -(b * (d * y)) <= z,
        k * a <= b * b * (a - 1),
    ensures
        k * (d * d) <= z,
{
    let x = b * (d * y);
    let d2 = d * d;
    let y2 = y * y;
    assert(x * x <= z * z) by (nonlinear_arith)
        requires
            x <= z,
            -x <= z,
    ;
    assert(x * x == (b * b) * (d2 * y2)) by (nonlinear_arith)
        requires
            x == b * (d * y),
            d2 == d * d,
            y2 == y * y,
    ;
    assert(a * y2 >= (a - 1) * z) by (nonlinear_arith)
        requires
            a * (z - y2) <= z,
    ;
    let bd = (b * b) * d2;
    assert(0 <= d2 && 0 <= bd) by (nonlinear_arith)
        requires
            d2 == d * d,
            bd == (b * b) * d2,
    ;
    assert(bd * ((a - 1) * z) <= bd * (a * y2)) by (nonlinear_arith)
        requires
            a * y2 >= (a - 1) * z,
            0 <= bd,
    ;
    assert(bd * (a * y2) == a * (x * x)) by (nonlinear_arith)
        requires
            x * x == (b * b) * (d2 * y2),
            bd == (b * b) * d2,
    ;
    assert(a * (x * x) <= a * (z * z)) by (nonlinear_arith)
        requires
            x * x <= z * z,
            a > 0,
    ;
    assert(((b * b) * (a - 1)) * d2 <= a * z) by (nonlinear_arith)
        requires
            bd * ((a - 1) * z) <= a * (z * z),
            bd == (b * b) * d2,
            z > 0,
    ;
    assert((k * a) * d2 <= ((b * b) * (a - 1)) * d2) by (nonlinear_arith)
        requires
            k * a <= b * b * (a - 1),
            0 <= d2,
    ;
    assert(k * d2 <= z) by (nonlinear_arith)
        requires
            (k * a) * d2 <= a * z,
            a > 0,
    ;
}

/// What a step makes of it, its last two roundings included.
proof fn lemma_improved(y: int, q: int, r: int, z: int, k: int, g: int, a: int)
    requires
        0 < z,
        0 < k,
        0 < g,
        0 < a,
        0 <= y + q,
        0 <= r,
        close(q * y, z, 0x100_0000),
        k * ((y - q) * (y - q)) <= z,
        0x40_0000 * (2 * r - (y + q)) <= y + q,
        0x40_0000 * ((y + q) - 2 * r) <= y + q,
        g * (0x100_0000 + 4 * k) <= 0x100_0000 * (4 * k),
        0x40_0001 * 0x40_0001 * (g + 1) * a <= 0x1000_0000_0000 * g * (a + 1),
        0x3f_ffff * 0x3f_ffff * 0xff_ffff * a >= 0x1000_0000_0000 * 0x100_0000 * (a - 1),
    ensures
        close(r * r, z, a),
{
    let n: int = 0x100_0000;
    let t = y + q;
    let p = t * t;
    let d2 = (y - q) * (y - q);
    let qy = q * y;
    let s = 4 * (r * r);
    assert(p == d2 + 4 * qy) by (nonlinear_arith)
        requires
            t == y + q,
            p == t * t,
            d2 == (y - q) * (y - q),
            qy == q * y,
    ;
    // p is at most 4 z (1 + 1 / g), and at least 4 z (1 - 1 / n).
    assert(d2 >= 0) by (nonlinear_arith)
        requires
            d2 == (y - q) * (y - q),
    ;
    let nk = n * (4 * k);
    assert(nk * (p - 4 * z) <= 4 * ((n + 4 * k) * z)) by (nonlinear_arith)
        requires
            p - 4 * z == d2 + 4 * (qy - z),
            k * d2 <= z,
            n * (qy - z) <= z,
            nk == n * (4 * k),
            n > 0,
            k > 0,
    ;
    assert(g * (p - 4 * z) <= 4 * z) by (nonlinear_arith)
        requires
            nk * (p - 4 * z) <= 4 * ((n + 4 * k) * z),
            g * (n + 4 * k) <= nk,
            nk == n * (4 * k),
            n > 0,
            k > 0,
            g > 0,
            z > 0,
    ;
    assert(n * p >= 4 * ((n - 1) * z)) by (nonlinear_arith)
        requires
            p >= 4 * qy,
            n * (z - qy) <= z,
            n == 0x100_0000,
    ;
    // And four r squared is that, rounded twice.
    assert(0x1000_0000_0000 * s <= (0x40_0001 * 0x40_0001) * p) by (nonlinear_arith)
        requires
            s == 4 * (r * r),
            p == t * t,
            0x40_0000 * (2 * r - t) <= t,
            0 <= r,
            0 <= t,
    ;
    assert(0x1000_0000_0000 * s >= (0x3f_ffff * 0x3f_ffff) * p) by (nonlinear_arith)
        requires
            s == 4 * (r * r),
            p == t * t,
            0x40_0000 * (t - 2 * r) <= t,
            0 <= r,
            0 <= t,
    ;
    lemma_conclude(r * r, p, z, g, a);
}

proof fn lemma_conclude(r2: int, p: int, z: int, g: int, a: int)
    requires
        0 < z,
        0 < g,
        0 < a,
        g * (p - 4 * z) <= 4 * z,
        0x100_0000 * p >= 4 * (0xff_ffff * z),
        0x1000_0000_0000 * (4 * r2) <= (0x40_0001 * 0x40_0001) * p,
        0x1000_0000_0000 * (4 * r2) >= (0x3f_ffff * 0x3f_ffff) * p,
        0x40_0001 * 0x40_0001 * (g + 1) * a <= 0x1000_0000_0000 * g * (a + 1),
        0x3f_ffff * 0x3f_ffff * 0xff_ffff * a >= 0x1000_0000_0000 * 0x100_0000 * (a - 1),
    ensures
        close(r2, z, a),
{
    let c: int = 0x1000_0000_0000;
    let u: int = 0x40_0001 * 0x40_0001int;
    let l: int = 0x3f_ffff * 0x3f_ffffint;
    assert(g * p <= 4 * ((g + 1) * z)) by (nonlinear_arith)
        requires
            g * (p - 4 * z) <= 4 * z,
    ;
    assert((c * g) * r2 <= (u * (g + 1)) * z) by (nonlinear_arith)
        requires
            c * (4 * r2) <= u * p,
            g * p <= 4 * ((g + 1) * z),
            g > 0,
            u > 0,
    ;
    assert(a * r2 <= (a + 1) * z) by (nonlinear_arith)
        requires
            (c * g) * r2 <= (u * (g + 1)) * z,
            u * (g + 1) * a <= c * g * (a + 1),
            c > 0,
            g > 0,
            a > 0,
            z > 0,
    ;
    assert((c * 0x100_0000) * r2 >= (l * 0xff_ffff) * z) by (nonlinear_arith)
        requires
            c * (4 * r2) >= l * p,
            0x100_0000 * p >= 4 * (0xff_ffff * z),
            l > 0,
    ;
    assert(a * r2 >= (a - 1) * z) by (nonlinear_arith)
        requires
            (c * 0x100_0000) * r2 >= (l * 0xff_ffff) * z,
            l * 0xff_ffff * a >= c * 0x100_0000 * (a - 1),
            c > 0,
            a > 0,
            z > 0,
    ;
    assert(a * (r2 - z) <= z && a * (z - r2) <= z) by (nonlinear_arith)
        requires
            a * r2 <= (a + 1) * z,
            a * r2 >= (a - 1) * z,
    ;
}

/// One Newton step in binary32.
proof fn lemma_step(
    x: Binary32,
    y: Binary32,
    e: nat,
    f: nat,
    a: int,
    b: int,
    k: int,
    g: int,
    a1: int,
)
    requires
        order::within(x, e),
        x.value() > 0,
        order::within(y, 218),
        y.value() > 0,
        y.size() >= pow2(f),
        60 <= f <= 276,
        23 <= e + 149 - f <= 218,
        1 < a,
        0 < b,
        0 < k,
        0 < g,
        0 < a1,
        close((y.size() * y.size()) as int, (x.size() * pow2(149)) as int, a),
        (a + 0x100_0000) * b <= a * 0x100_0000,
        k * a <= b * b * (a - 1),
        g * (0x100_0000 + 4 * k) <= 0x100_0000 * (4 * k),
        0x40_0001 * 0x40_0001 * (g + 1) * a1 <= 0x1000_0000_0000 * g * (a1 + 1),
        0x3f_ffff * 0x3f_ffff * 0xff_ffff * a1 >= 0x1000_0000_0000 * 0x100_0000 * (a1 - 1),
    ensures
        ({
            let r = math::newton(x, y).size();
            close((r * r) as int, (x.size() * pow2(149)) as int, a1)
        }),
{
    let half = Binary32::from_bits(math::HALF);
    let quotient = x.div(y);
    let sum = y.add(quotient);
    let unit = pow2(149) as int;
    let z = x.size() * unit;
    let yv = y.size() as int;
    lemma2_to64();
    lemma2_to64_rest();
    rounding::lemma_pow2_order(60, f);
    lemma_pow2_pos(149);
    lemma_pow2_unfold(149);
    math::lemma_newton(x, y, e, f);
    order::lemma_within_div(x, y, e, f);
    order::lemma_div(x, y, x);
    order::lemma_within_weaken(quotient, (e + 149 - f) as nat, 218);
    order::lemma_within_add(y, quotient, 218);
    let qv = quotient.size() as int;
    assert(z > 0) by (nonlinear_arith)
        requires
            z == x.size() * unit,
            x.size() > 0,
            unit > 0,
    ;
    assert(2 * z >= yv * yv) by (nonlinear_arith)
        requires
            a * (yv * yv - z) <= z,
            a > 1,
            z > 0,
    ;
    assert(z >= 0x80_0000 * yv) by (nonlinear_arith)
        requires
            2 * z >= yv * yv,
            yv >= 0x100_0000,
    ;
    order::lemma_div_error(x, y);
    order::lemma_add_error(y, quotient);
    order::lemma_power(148);
    assert(half == order::power(148));
    let half_unit = pow2(148) as int;
    let sv = sum.size() as int;
    order::lemma_add(y, quotient, y);
    assert(half.size() * sum.size() >= 0x80_0000 * pow2(149)) by (nonlinear_arith)
        requires
            half.size() == half_unit,
            sum.size() >= 0x100_0000,
            pow2(149) == 2 * half_unit,
    ;
    order::lemma_within_mul(half, sum, 148, 219);
    order::lemma_mul_error(half, sum);
    let rv = math::newton(x, y).size() as int;
    assert(0x100_0000 * (2 * rv) <= 0x100_0001 * sv && 0x100_0000 * (2 * rv) >= 0xff_ffff * sv)
        by (nonlinear_arith)
        requires
            0x100_0000 * (rv * unit) <= 0x100_0001 * (half_unit * sv),
            0x100_0000 * (rv * unit) >= 0xff_ffff * (half_unit * sv),
            unit == 2 * half_unit,
            half_unit > 0,
    ;
    let t = yv + qv;
    assert(0x40_0000 * (2 * rv - t) <= t);
    assert(0x40_0000 * (t - 2 * rv) <= t);
    assert(close(qv * yv, z, 0x100_0000));
    lemma_gap(yv, qv, z, a, b);
    lemma_gap_square(yv, yv - qv, z, a, b, k);
    lemma_improved(yv, qv, rv, z, k, g, a1);
}

/// The square of the first guess is at most an eighth off.
proof fn lemma_guess(x: Binary32)
    requires
        0x80_0000 <= x.bits < rounding::INFINITY_BITS,
    ensures
        ({
            let y = Binary32::from_bits(((x.bits + 0x3f80_0000) / 2) as u32).size();
            close((y * y) as int, (x.size() * pow2(149)) as int, 8)
        }),
{
    let guess = Binary32::from_bits(((x.bits + 0x3f80_0000) / 2) as u32);
    let field = (x.bits / 0x80_0000) as nat;
    let fraction = (x.bits % 0x80_0000) as nat;
    let m: int = 0x80_0000;
    let h = (field + 127) / 2;
    let odd = (field + 127) % 2;
    let part = (fraction + odd * 0x80_0000) / 2;
    assert(guess.pattern() == h * 0x80_0000 + part);
    Binary32::lemma_value_of(x, field, fraction);
    Binary32::lemma_value_of(guess, h, part);
    let scale = pow2((h - 1) as nat) as int;
    lemma_pow2_pos((h - 1) as nat);
    lemma_pow2_pos((field - 1) as nat);
    lemma2_to64();
    // Both squares in units of the square of the guess's own scale.
    let p = m + part;
    let w = (m + fraction) * (if odd == 1 {
        2 * m
    } else {
        m
    });
    lemma_pow2_adds((field - 1) as nat, 149);
    lemma_pow2_adds((h - 1) as nat, (h - 1) as nat);
    let square = (2 * (h - 1)) as nat;
    let more: nat = if odd == 1 {
        24
    } else {
        23
    };
    assert((field - 1) + 149 == square + more);
    lemma_pow2_adds(square, more);
    let z = x.size() * pow2(149);
    assert(z == w * (scale * scale)) by (nonlinear_arith)
        requires
            z == ((m + fraction) * pow2((field - 1) as nat)) * pow2(149),
            pow2((field - 1) as nat) * pow2(149) == pow2(square) * pow2(more),
            pow2(square) == scale * scale,
            w == (m + fraction) * pow2(more),
    ;
    let y = guess.size() as int;
    assert(y * y == (p * p) * (scale * scale)) by (nonlinear_arith)
        requires
            y == p * scale,
    ;
    lemma_guess_parts(fraction as int, odd as int, part as int);
    assert(8 * (p * p - w) <= w && 8 * (w - p * p) <= w);
    let s2 = scale * scale;
    assert(s2 > 0) by (nonlinear_arith)
        requires
            s2 == scale * scale,
            scale > 0,
    ;
    assert(8 * (y * y - z) <= z && 8 * (z - y * y) <= z) by (nonlinear_arith)
        requires
            y * y == (p * p) * s2,
            z == w * s2,
            8 * (p * p - w) <= w,
            8 * (w - p * p) <= w,
            s2 > 0,
    ;
}

proof fn lemma_guess_parts(fraction: int, odd: int, part: int)
    requires
        0 <= fraction < 0x80_0000,
        odd == 0 || odd == 1,
        part == (fraction + odd * 0x80_0000) / 2,
    ensures
        ({
            let p = 0x80_0000 + part;
            let w = (0x80_0000 + fraction) * (if odd == 1 {
                0x100_0000int
            } else {
                0x80_0000
            });
            &&& 8 * (p * p - w) <= w
            &&& 8 * (w - p * p) <= w
        }),
{
    let p = 0x80_0000 + part;
    let m: int = 0x80_0000;
    if odd == 1 {
        let v = m + fraction;
        // 2 p is 2 m + v or one less.
        assert(2 * m + v - 1 <= 2 * p <= 2 * m + v);
        assert(8 * (p * p - v * (2 * m)) <= v * (2 * m)) by (nonlinear_arith)
            requires
                0 <= 2 * p <= 2 * m + v,
                m <= v <= 2 * m,
                m > 0,
        ;
        assert(8 * (v * (2 * m) - p * p) <= v * (2 * m)) by (nonlinear_arith)
            requires
                2 * p >= 2 * m + v - 1,
                m <= v <= 2 * m,
                m == 0x80_0000,
        ;
        assert(v * (2 * m) == v * 0x100_0000);
    } else {
        assert(2 * m + fraction - 1 <= 2 * p <= 2 * m + fraction);
        let v = m + fraction;
        assert(8 * (p * p - v * m) <= v * m) by (nonlinear_arith)
            requires
                0 <= 2 * p <= m + v,
                m <= v <= 2 * m,
                m > 0,
        ;
        assert(8 * (v * m - p * p) <= v * m) by (nonlinear_arith)
            requires
                2 * p >= m + v - 1,
                m <= v <= 2 * m,
                m == 0x80_0000,
        ;
    }
}

/// The square root is one: its square is within one part in 2^20 of the
/// number it was taken of, wherever that number is not subnormal.
pub proof fn law_sqrt_squared(x: Binary32)
    requires
        0x80_0000 <= x.bits < rounding::INFINITY_BITS,
    ensures
        ({
            let y = math::sqrt(x).size();
            close((y * y) as int, (x.size() * pow2(149)) as int, 0x10_0000)
        }),
{
    let field = x.bits / 0x80_0000;
    let guess = Binary32::from_bits(((x.bits + 0x3f80_0000) / 2) as u32);
    let e = (field + 23) as nat;
    let f = ((field + 127) / 2 + 22) as nat;
    rounding::lemma_magnitude_zero();
    rounding::lemma_magnitude_order(0, x.pattern());
    math::lemma_below_next_power(x);
    order::lemma_within_bits(guess, 218);
    order::lemma_power(f);
    rounding::lemma_magnitude_order(order::power(f).pattern(), guess.pattern());
    lemma_pow2_pos(f);
    lemma_guess(x);
    let y1 = math::newton(x, guess);
    math::lemma_newton(x, guess, e, f);
    lemma_step(x, guess, e, f, 8, 7, 42, 160, 150);
    let y2 = math::newton(x, y1);
    math::lemma_newton(x, y1, e, (f - 1) as nat);
    lemma_step(x, y1, e, (f - 1) as nat, 150, 149, 22000, 80000, 70000);
    let y3 = math::newton(x, y2);
    math::lemma_newton(x, y2, e, (f - 2) as nat);
    lemma_step(x, y2, e, (f - 2) as nat, 70000, 69000, 0x1_0000_0000, 0x80_0000, 0x10_0000);
    lemma_step(x, y3, e, (f - 3) as nat, 0x10_0000, 0x8_0000, 0x1_0000_0000, 0x80_0000, 0x10_0000);
}

} // verus!
