//! How far the cosine lies from the partial sum of its series.
use crate::binary32::Binary32;
use crate::exponential;
use crate::logarithm;
use crate::math;
use crate::order;
use crate::reals;
use crate::rounding;
use vstd::arithmetic::power2::*;
use vstd::prelude::*;

verus! {

/// The series of the cosine to the twelfth power, over the reals.
pub open spec fn cos_sum(t: real) -> real {
    let y = t * t;
    let one = 1 as real;
    one - y / 2 as real * (one - y / 12 as real * (one - y / 30 as real * (one - y / 56 as real * (one
        - y / 90 as real * (one - y / 132 as real)))))
}

/// One divisor.
proof fn lemma_divisor(bits: u32, field: nat, fraction: nat, k: nat, n: int)
    requires
        bits == field * 0x80_0000 + fraction,
        0 < field < 255,
        fraction < 0x80_0000,
        field + k == 150,
        n * pow2(k) == 0x80_0000 + fraction,
    ensures
        exponential::constant(bits) == n as real,
{
    exponential::lemma_constant(bits, field, fraction, k);
    reals::lemma_product(n, pow2(k) as int);
    lemma_pow2_pos(k);
    let c = exponential::constant(bits);
    let p = pow2(k) as real;
    assert(c == n as real) by (nonlinear_arith)
        requires
            c * p == n as real * p,
            p > 0 as real,
    ;
}

/// The divisors of the series.
proof fn lemma_divisors()
    ensures
        exponential::constant(math::ONE) == 1 as real,
        exponential::constant(math::TWO) == 2 as real,
        exponential::constant(math::TWELVE) == 12 as real,
        exponential::constant(math::THIRTY) == 30 as real,
        exponential::constant(math::FIFTY_SIX) == 56 as real,
        exponential::constant(math::NINETY) == 90 as real,
        exponential::constant(math::N132) == 132 as real,
{
    lemma2_to64();
    exponential::lemma_log_constants();
    lemma_divisor(math::TWO, 128, 0, 22, 2);
    lemma_divisor(math::TWELVE, 130, 0x40_0000, 20, 12);
    lemma_divisor(math::THIRTY, 131, 0x70_0000, 19, 30);
    lemma_divisor(math::FIFTY_SIX, 132, 0x60_0000, 18, 56);
    lemma_divisor(math::NINETY, 133, 0x34_0000, 17, 90);
    lemma_divisor(math::N132, 134, 0x04_0000, 16, 132);
}

/// A share of the square of the angle.
proof fn lemma_share(x2: Binary32, k: Binary32, y: real, n: int)
    requires
        x2.finite(),
        0 <= x2.value() <= pow2(151),
        k.finite(),
        k.value() > 0,
        n >= 2,
        reals::num(k) == n as real,
        x2.div(k).finite(),
        reals::near(reals::num(x2), y, 5 as real * reals::eps()),
    ensures
        reals::near(reals::num(x2.div(k)), y / n as real, 6 as real * reals::eps()),
        reals::num(x2.div(k)) <= 3 as real,
        0 as real <= reals::num(x2.div(k)),
{
    let e = reals::eps();
    reals::lemma_eps();
    lemma_pow2_unfold(150);
    lemma_pow2_unfold(151);
    reals::lemma_num_order(x2, 0);
    reals::lemma_num_order(x2, 4);
    reals::lemma_num_div(x2, k);
    let x = reals::num(x2);
    let c = n as real;
    let q = x / c;
    let r = y / c;
    assert(q * c == x && r * c == y) by (nonlinear_arith)
        requires
            q == x / c,
            r == y / c,
            c >= 2 as real,
    ;
    assert(0 as real <= q <= 2 as real) by (nonlinear_arith)
        requires
            q * c == x,
            0 as real <= x <= 4 as real,
            c >= 2 as real,
    ;
    let off = q - r;
    assert(off * c == x - y) by (nonlinear_arith)
        requires
            off == q - r,
            q * c == x,
            r * c == y,
    ;
    let d = 5 as real * e;
    assert(-d <= 2 as real * off <= d) by (nonlinear_arith)
        requires
            -d <= off * c <= d,
            c >= 2 as real,
    ;
    reals::lemma_eps_of(q);
}

/// One step of the series.
proof fn lemma_sum_step(
    x2: Binary32,
    k: Binary32,
    c: Binary32,
    y: real,
    n: int,
    s: real,
    d: real,
    most: real,
)
    requires
        x2.finite(),
        0 <= x2.value() <= pow2(151),
        k.finite(),
        k.value() > 0,
        n >= 2,
        reals::num(k) == n as real,
        c.finite(),
        0 <= c.value() <= pow2(149),
        x2.div(k).finite(),
        x2.div(k).mul(c).finite(),
        Binary32::from_bits(math::ONE).sub(x2.div(k).mul(c)).finite(),
        reals::near(reals::num(x2), y, 5 as real * reals::eps()),
        reals::near(reals::num(c), s, d),
        0 as real <= y / n as real <= most,
    ensures
        reals::near(
            reals::num(Binary32::from_bits(math::ONE).sub(x2.div(k).mul(c))),
            1 as real - y / n as real * s,
            most * d + 16 as real * reals::eps(),
        ),
{
    let e = reals::eps();
    let one = Binary32::from_bits(math::ONE);
    reals::lemma_eps();
    lemma_divisors();
    rounding::lemma_magnitude_zero();
    lemma_share(x2, k, y, n);
    let share = x2.div(k);
    let part = share.mul(c);
    let q = y / n as real;
    let a = reals::num(share);
    let b = reals::num(c);
    reals::lemma_num_order(c, 0);
    reals::lemma_num_order(c, 1);
    reals::lemma_num_order(share, 0);
    logarithm::lemma_product_error(b, a, s, q, d, 6 as real * e, most);
    reals::lemma_num_mul(share, c);
    let ab = a * b;
    assert(ab == b * a && s * q == q * s) by (nonlinear_arith)
        requires
            ab == a * b,
    ;
    assert(0 as real <= ab <= 3 as real) by (nonlinear_arith)
        requires
            ab == a * b,
            0 as real <= a <= 3 as real,
            0 as real <= b <= 1 as real,
    ;
    reals::lemma_eps_of(ab);
    order::lemma_neg(part);
    reals::lemma_num(part);
    reals::lemma_num(part.neg());
    let u = pow2(149) as real;
    reals::lemma_unit();
    let g = reals::num(part);
    let h = reals::num(part.neg());
    assert(h == -g) by (nonlinear_arith)
        requires
            h * u == -(g * u),
            u > 0 as real,
    ;
    reals::lemma_num_add(one, part.neg());
    reals::lemma_eps_of(1 as real - g);
}

/// The cosine is the partial sum of its series at the folded angle, with the
/// sign that folding gives it, to one part in fifty thousand.
pub proof fn law_cos_follows_its_series(x: Binary32)
    requires
        x.finite(),
    ensures
        ({
            let (angle, sign) = math::folded(x);
            let sum = cos_sum(reals::num(angle));
            let exact = if sign == Binary32::from_bits(math::ONE) {
                sum
            } else {
                -sum
            };
            reals::near(reals::num(math::cos(x)), exact, 1 as real / 50_000 as real)
        }),
{
    let one = Binary32::from_bits(math::ONE);
    let none = Binary32::from_bits(math::ZERO);
    let (angle, sign) = math::folded(x);
    let e = reals::eps();
    reals::lemma_eps();
    lemma_divisors();
    math::lemma_folded(x);
    math::law_cos_range(x);
    rounding::lemma_magnitude_zero();
    lemma_pow2_unfold(150);
    lemma_pow2_unfold(151);
    lemma_pow2_pos(149);
    order::lemma_power(149);
    order::lemma_power(150);
    order::lemma_power(151);
    order::lemma_within_bits(Binary32::from_bits(math::HALF_PI), 150);
    let x2 = angle.mul(angle);
    order::lemma_within_mul(angle, angle, 150, 150);
    order::lemma_mul(angle, angle, none);
    reals::lemma_num_order(angle, 0);
    reals::lemma_num_order(angle, 2);
    reals::lemma_num_mul(angle, angle);
    let t = reals::num(angle);
    let y = t * t;
    assert(0 as real <= y <= 4 as real) by (nonlinear_arith)
        requires
            y == t * t,
            0 as real <= t <= 2 as real,
    ;
    reals::lemma_eps_of(y);
    let k2 = Binary32::from_bits(math::TWO);
    let k4 = Binary32::from_bits(math::TWELVE);
    let k6 = Binary32::from_bits(math::THIRTY);
    let k8 = Binary32::from_bits(math::FIFTY_SIX);
    let k10 = Binary32::from_bits(math::NINETY);
    let k12 = Binary32::from_bits(math::N132);
    let four = order::power(151);
    rounding::lemma_magnitude_order(four.pattern(), k12.pattern());
    rounding::lemma_magnitude_order(four.pattern(), k10.pattern());
    rounding::lemma_magnitude_order(four.pattern(), k8.pattern());
    rounding::lemma_magnitude_order(four.pattern(), k6.pattern());
    rounding::lemma_magnitude_order(four.pattern(), k4.pattern());
    let r = 1 as real;
    // The innermost factor.
    let c12 = one.sub(x2.div(k12));
    lemma_quarter(x2, k12);
    order::lemma_sub(one, x2.div(k12), one);
    order::lemma_sub(one, x2.div(k12), none);
    order::lemma_finite(c12, one);
    lemma_innermost(x2, k12, y);
    let s12 = r - y / 132 as real;
    // Outward.
    let c10 = one.sub(x2.div(k10).mul(c12));
    let s10 = r - y / 90 as real * s12;
    lemma_quarter(x2, k10);
    math::lemma_product_of(x2.div(k10), c12, 149);
    math::lemma_cos_step(x2, k10, c12);
    lemma_sum_step(x2, k10, c12, y, 90, s12, 16 as real * e, r);
    let c8 = one.sub(x2.div(k8).mul(c10));
    let s8 = r - y / 56 as real * s10;
    lemma_quarter(x2, k8);
    math::lemma_product_of(x2.div(k8), c10, 149);
    math::lemma_cos_step(x2, k8, c10);
    lemma_sum_step(x2, k8, c10, y, 56, s10, 32 as real * e, r);
    let c6 = one.sub(x2.div(k6).mul(c8));
    let s6 = r - y / 30 as real * s8;
    lemma_quarter(x2, k6);
    math::lemma_product_of(x2.div(k6), c8, 149);
    math::lemma_cos_step(x2, k6, c8);
    lemma_sum_step(x2, k6, c8, y, 30, s8, 48 as real * e, r);
    let c4 = one.sub(x2.div(k4).mul(c6));
    let s4 = r - y / 12 as real * s6;
    lemma_quarter(x2, k4);
    math::lemma_product_of(x2.div(k4), c6, 149);
    math::lemma_cos_step(x2, k4, c6);
    lemma_sum_step(x2, k4, c6, y, 12, s6, 64 as real * e, r);
    // The last term takes up to two from one.
    assert(k2 == order::power(150));
    assert(x2.value() * pow2(149) <= pow2(150) * k2.value()) by (nonlinear_arith)
        requires
            x2.value() <= pow2(151),
            k2.value() == pow2(150),
            pow2(151) == 2 * pow2(150),
            pow2(150) == 2 * pow2(149),
    ;
    math::lemma_share_of(x2, k2, 150);
    math::lemma_product_of(x2.div(k2), c4, 150);
    let last = x2.div(k2).mul(c4);
    order::lemma_neg(one);
    order::lemma_sub(one, last, one);
    order::lemma_sub(one, last, one.neg());
    let series = one.sub(last);
    order::lemma_finite(series, one);
    lemma_sum_step(x2, k2, c4, y, 2, s4, 80 as real * e, 2 as real);
    assert(cos_sum(t) == r - y / 2 as real * s4);
    // The sign.
    Binary32::lemma_value_of(Binary32::from_bits(math::MINUS_ONE), 127, 0);
    assert(sign.size() == pow2(149)) by {
        lemma2_to64();
        lemma_pow2_adds(126, 23);
    }
    assert(sign.size() * series.size() == series.size() * pow2(149)) by (nonlinear_arith)
        requires
            sign.size() == pow2(149),
    ;
    order::lemma_mul(sign, series, series);
    reals::lemma_num(series);
    reals::lemma_num(math::cos(x));
    let u = pow2(149) as real;
    reals::lemma_unit();
    let g = reals::num(series);
    let h = reals::num(math::cos(x));
    if sign == one {
        assert(h == g) by (nonlinear_arith)
            requires
                h * u == g * u,
                u > 0 as real,
        ;
    } else {
        assert(h == -g) by (nonlinear_arith)
            requires
                h * u == -(g * u),
                u > 0 as real,
        ;
    }
}

/// What is at most four, divided by what is at least four.
proof fn lemma_quarter(x2: Binary32, k: Binary32)
    requires
        x2.finite(),
        0 <= x2.value() <= pow2(151),
        k.finite(),
        k.value() >= pow2(151),
    ensures
        x2.div(k).finite(),
        0 <= x2.div(k).value() <= pow2(149),
{
    lemma_pow2_pos(151);
    assert(x2.value() * pow2(149) <= pow2(149) * k.value()) by (nonlinear_arith)
        requires
            x2.value() <= k.value(),
    ;
    math::lemma_share_of(x2, k, 149);
}

/// The innermost factor of the series.
proof fn lemma_innermost(x2: Binary32, k: Binary32, y: real)
    requires
        x2.finite(),
        0 <= x2.value() <= pow2(151),
        k.finite(),
        k.value() > 0,
        reals::num(k) == 132 as real,
        x2.div(k).finite(),
        Binary32::from_bits(math::ONE).sub(x2.div(k)).finite(),
        reals::near(reals::num(x2), y, 5 as real * reals::eps()),
    ensures
        reals::near(
            reals::num(Binary32::from_bits(math::ONE).sub(x2.div(k))),
            1 as real - y / 132 as real,
            16 as real * reals::eps(),
        ),
{
    let one = Binary32::from_bits(math::ONE);
    reals::lemma_eps();
    lemma_divisors();
    lemma_share(x2, k, y, 132);
    let part = x2.div(k);
    order::lemma_neg(part);
    reals::lemma_num(part);
    reals::lemma_num(part.neg());
    let u = pow2(149) as real;
    reals::lemma_unit();
    let g = reals::num(part);
    let h = reals::num(part.neg());
    assert(h == -g) by (nonlinear_arith)
        requires
            h * u == -(g * u),
            u > 0 as real,
    ;
    exponential::lemma_log_constants();
    rounding::lemma_magnitude_zero();
    order::lemma_power(149);
    reals::lemma_num_add(one, part.neg());
    reals::lemma_eps_of(1 as real - g);
}

/// Pi, its half, its double and its opposite, in units.
#[verifier::spinoff_prover]
proof fn lemma_turn()
    ensures
        Binary32::from_bits(math::TAU).finite(),
        Binary32::from_bits(math::PI).finite(),
        Binary32::from_bits(math::HALF_PI).finite(),
        Binary32::from_bits(math::MINUS_PI).finite(),
        Binary32::from_bits(math::TAU).value() == 2 * Binary32::from_bits(math::PI).value(),
        Binary32::from_bits(math::PI).value() == 2 * Binary32::from_bits(math::HALF_PI).value(),
        Binary32::from_bits(math::MINUS_PI).value() == -Binary32::from_bits(math::PI).value(),
        Binary32::from_bits(math::TAU).value() > 0,
        Binary32::from_bits(math::TAU).value() <= 7 * pow2(149),
        !Binary32::from_bits(math::TAU).negative(),
{
    let half = Binary32::from_bits(math::HALF_PI);
    let pi = Binary32::from_bits(math::PI);
    let minus = Binary32::from_bits(math::MINUS_PI);
    let tau = Binary32::from_bits(math::TAU);
    lemma2_to64();
    Binary32::lemma_value_of(half, 127, 0x49_0fdb);
    Binary32::lemma_value_of(pi, 128, 0x49_0fdb);
    Binary32::lemma_value_of(minus, 128, 0x49_0fdb);
    Binary32::lemma_value_of(tau, 129, 0x49_0fdb);
    lemma_pow2_unfold(127);
    lemma_pow2_unfold(128);
    lemma_pow2_pos(126);
    lemma_pow2_adds(128, 21);
    assert(pi.size() == 2 * half.size() && tau.size() == 2 * pi.size() && half.size() > 0
        && tau.size() <= 7 * pow2(149)) by (nonlinear_arith)
        requires
            half.size() == (0x80_0000 + 0x49_0fdb) * pow2(126),
            pi.size() == (0x80_0000 + 0x49_0fdb) * pow2(127),
            tau.size() == (0x80_0000 + 0x49_0fdb) * pow2(128),
            pow2(127) == 2 * pow2(126),
            pow2(128) == 2 * pow2(127),
            pow2(149) == pow2(128) * 0x20_0000,
            pow2(126) > 0,
    ;
}

/// What is left of an angle after whole turns.
#[verifier::spinoff_prover]
proof fn lemma_turned(x: Binary32) -> (n: int)
    requires
        x.finite(),
    ensures
        x.rem(Binary32::from_bits(math::TAU)).finite(),
        reals::near(
            reals::num(x.rem(Binary32::from_bits(math::TAU))),
            reals::num(x) - n as real * reals::num(Binary32::from_bits(math::TAU)),
            8 as real * reals::eps(),
        ),
        reals::size(reals::num(x.rem(Binary32::from_bits(math::TAU)))) <= 7 as real,
{
    let tau = Binary32::from_bits(math::TAU);
    let t = x.rem(tau);
    let m = tau.size() as int;
    lemma_turn();
    reveal(Binary32::spec_rem);
    rounding::lemma_magnitude_zero();
    vstd::arithmetic::div_mod::lemma_mod_bound(x.size() as int, m);
    vstd::arithmetic::div_mod::lemma_fundamental_div_mod(x.size() as int, m);
    let q = x.size() as int / m;
    let rest = (x.size() as int % m) as nat;
    order::lemma_rounded(x.negative(), rest, 1, tau);
    order::lemma_finite(t, tau);
    let bits = rounding::round_ratio(rest, 1);
    order::lemma_signed(x.negative(), bits);
    rounding::lemma_round_error_any(rest, 1);
    assert(rounding::magnitude(bits) * 1 == rounding::magnitude(bits)) by (nonlinear_arith);
    assert(x.size() == q * m + rest) by (nonlinear_arith)
        requires
            x.size() == m * q + rest,
    ;
    reals::lemma_num(x);
    reals::lemma_num(t);
    reals::lemma_num(tau);
    reals::lemma_num_abs(t);
    reals::lemma_num_order(t.abs(), 7);
    reals::lemma_unit();
    reals::lemma_product(q, m);
    let n = if x.negative() {
        -q
    } else {
        q
    };
    assert((-q) * m == -(q * m)) by (nonlinear_arith);
    reals::lemma_product(n, m);
    lemma_turned_units(
        reals::num(x),
        reals::num(t),
        reals::num(tau),
        n as real,
        pow2(149) as real,
        x.negative(),
        rest as real,
    );
    n
}

/// Units taken out of a remainder.
#[verifier::spinoff_prover]
proof fn lemma_turned_units(x: real, t: real, tau: real, n: real, u: real, low: bool, rest: real)
    requires
        u >= 0x1_0000_0000_0000 as real,
        x * u == n * (tau * u) + (if low {
            -rest
        } else {
            rest
        }),
        0 as real <= rest <= 7 as real * u,
        ({
            let m = if low {
                -(t * u)
            } else {
                t * u
            };
            &&& 0x100_0000 as real * m <= 0x100_0001 as real * rest + 0x100_0000 as real
            &&& 0x100_0000 as real * m + 0x100_0000 as real >= 0xff_ffff as real * rest
        }),
    ensures
        reals::near(t, x - n * tau, 8 as real * reals::eps()),
{
    reals::lemma_eps();
    let d = t - (x - n * tau);
    assert((t - (x - n * tau)) * u == t * u - x * u + n * (tau * u)) by (nonlinear_arith);
    let k = 8 as real * reals::eps();
    assert((8 as real * reals::eps()) * u == 8 as real * (reals::eps() * u)) by (nonlinear_arith);
    reals::lemma_eps_of(u);
    assert((-d) * u == -(d * u)) by (nonlinear_arith);
    crate::accuracy::lemma_unscaled(d, k, u);
    crate::accuracy::lemma_unscaled(-d, k, u);
}

/// Whether `angle` is `x` less whole turns, without its sign, or what that
/// lacks to half a turn where the cosine's sign turns.
pub open spec fn folds(x: real, n: int, angle: real, turned: bool) -> bool {
    let tau = reals::num(Binary32::from_bits(math::TAU));
    let size = reals::size(x - n as real * tau);
    reals::near(
        angle,
        if turned {
            tau / 2 as real - size
        } else {
            size
        },
        40 as real * reals::eps(),
    )
}

/// Folding keeps the cosine: the angle that is left is the one asked for less
/// whole turns and without its sign, or its distance from half a turn, and
/// then the sign turns.
#[verifier::spinoff_prover]
pub proof fn law_folding_keeps_the_angle(x: Binary32) -> (n: int)
    requires
        x.finite(),
    ensures
        ({
            let (angle, sign) = math::folded(x);
            &&& sign == Binary32::from_bits(math::ONE) || sign == Binary32::from_bits(
                math::MINUS_ONE,
            )
            &&& angle.finite()
            &&& folds(
                reals::num(x),
                n,
                reals::num(angle),
                sign == Binary32::from_bits(math::MINUS_ONE),
            )
        }),
{
    let tau = Binary32::from_bits(math::TAU);
    let pi = Binary32::from_bits(math::PI);
    let t = x.rem(tau);
    let m = lemma_turned(x);
    math::lemma_folded(x);
    lemma_turn();
    reals::lemma_eps();
    let near = if pi.lt(t) {
        t.sub(tau)
    } else if t.lt(Binary32::from_bits(math::MINUS_PI)) {
        t.add(tau)
    } else {
        t
    };
    let n = if pi.lt(t) {
        m + 1
    } else if t.lt(Binary32::from_bits(math::MINUS_PI)) {
        m - 1
    } else {
        m
    };
    lemma_nearest(t);
    let tr = reals::num(tau);
    let mr = m as real;
    assert((mr + 1 as real) * tr == mr * tr + tr && (mr - 1 as real) * tr == mr * tr - tr)
        by (nonlinear_arith);
    assert(reals::near(
        reals::num(near),
        reals::num(x) - n as real * tr,
        16 as real * reals::eps(),
    ));
    let size = near.abs();
    reals::lemma_num_abs(near);
    lemma_pi_is_half();
    if Binary32::from_bits(math::HALF_PI).lt(size) {
        lemma_difference(pi, size);
    }
    n
}

#[verifier::spinoff_prover]
proof fn lemma_pi_is_half()
    ensures
        reals::num(Binary32::from_bits(math::PI)) == reals::num(Binary32::from_bits(math::TAU))
            / 2 as real,
        reals::size(reals::num(Binary32::from_bits(math::PI))) <= 4 as real,
{
    let pi = Binary32::from_bits(math::PI);
    let tau = Binary32::from_bits(math::TAU);
    lemma_turn();
    reals::lemma_num(pi);
    reals::lemma_num(tau);
    reals::lemma_unit();
    let u = pow2(149) as real;
    let a = reals::num(pi);
    let b = reals::num(tau);
    let d = 2 as real * a - b;
    assert((2 as real * a - b) * u == 2 as real * (a * u) - b * u) by (nonlinear_arith);
    assert(0 as real * u == 0 as real && (-d) * u == -(d * u)) by (nonlinear_arith);
    crate::accuracy::lemma_unscaled(d, 0 as real, u);
    crate::accuracy::lemma_unscaled(-d, 0 as real, u);
    reals::lemma_num_order(pi, 4);
}

/// A difference of small angles.
#[verifier::spinoff_prover]
proof fn lemma_difference(a: Binary32, b: Binary32)
    requires
        a.finite(),
        b.finite(),
        reals::size(reals::num(a)) <= 8 as real,
        reals::size(reals::num(b)) <= 8 as real,
    ensures
        a.sub(b).finite(),
        reals::near(
            reals::num(a.sub(b)),
            reals::num(a) - reals::num(b),
            16 as real * reals::eps(),
        ),
{
    reals::lemma_num_abs(a);
    reals::lemma_num_abs(b);
    reals::lemma_num_order(a.abs(), 8);
    reals::lemma_num_order(b.abs(), 8);
    lemma2_to64();
    lemma_pow2_adds(149, 3);
    order::lemma_neg(b);
    order::lemma_within_add(a, b.neg(), 152);
    reals::lemma_num_difference(a, b);
    reals::lemma_eps();
    reals::lemma_eps_of(reals::size(reals::num(a) - reals::num(b)));
}

/// The nearest turn.
#[verifier::spinoff_prover]
proof fn lemma_nearest(t: Binary32)
    requires
        t.finite(),
        reals::size(reals::num(t)) <= 7 as real,
    ensures
        ({
            let tau = Binary32::from_bits(math::TAU);
            let pi = Binary32::from_bits(math::PI);
            let tr = reals::num(tau);
            let d = 8 as real * reals::eps();
            let near = if pi.lt(t) {
                t.sub(tau)
            } else if t.lt(Binary32::from_bits(math::MINUS_PI)) {
                t.add(tau)
            } else {
                t
            };
            &&& near.finite()
            &&& pi.lt(t) ==> reals::near(reals::num(near), reals::num(t) - tr, d)
            &&& t.lt(Binary32::from_bits(math::MINUS_PI)) ==> reals::near(
                reals::num(near),
                reals::num(t) + tr,
                d,
            )
            &&& reals::size(reals::num(near)) <= 8 as real
            &&& !(pi.lt(t) && t.lt(Binary32::from_bits(math::MINUS_PI)))
        }),
{
    let tau = Binary32::from_bits(math::TAU);
    let pi = Binary32::from_bits(math::PI);
    lemma_turn();
    reals::lemma_eps();
    reals::lemma_num_abs(tau);
    reals::lemma_num_order(tau, 7);
    reals::lemma_num(tau);
    reals::lemma_num(t);
    reals::lemma_num_sign(t);
    lemma_pow2_pos(149);
    lemma2_to64();
    lemma_pow2_adds(149, 3);
    reals::lemma_num_abs(t);
    reals::lemma_num_order(t.abs(), 8);
    order::lemma_neg(tau);
    let tr = reals::num(tau);
    let x = reals::num(t);
    assert(order::within(t, 152) && order::within(tau, 152));
    if pi.lt(t) {
        lemma_positive_num(t);
        order::lemma_within_add(t, tau.neg(), 152);
        reals::lemma_num_difference(t, tau);
        reals::lemma_eps_of(reals::size(x - tr));
    } else if t.lt(Binary32::from_bits(math::MINUS_PI)) {
        reals::lemma_num_neg(t);
        lemma_positive_num(t.neg());
        order::lemma_within_add(t, tau, 152);
        reals::lemma_num_add(t, tau);
        reals::lemma_eps_of(x + tr);
    }
}

#[verifier::spinoff_prover]
proof fn lemma_positive_num(x: Binary32)
    ensures
        x.value() > 0 ==> reals::num(x) >= 0 as real,
{
    reals::lemma_num(x);
}

} // verus!
