//! How alike a signal is to itself some samples earlier, as real numbers.
//!
//! The correlations that the analyser computes are sums of products, rounded
//! at every step. Here they are held against the exact sums.
use crate::binary32::Binary32;
use crate::lpc10::analysis;
use crate::lpc10::analysis::MINUS_ZERO;
use crate::lpc10::normal;
use crate::lpc10::soundness;
use crate::lpc10::{HISTORY, PITCH_MAX, PITCH_MIN};
use crate::math;
use crate::order;
use crate::reals;
use crate::root;
use crate::rounding;
use crate::sums;
use vstd::arithmetic::power2::*;
use vstd::prelude::*;

verus! {

/// The exact sum of the products of two stretches of `n` numbers.
pub open spec fn inner(a: Seq<Binary32>, p: int, b: Seq<Binary32>, q: int, n: nat) -> real {
    sums::sum(|j: int| reals::num(a[p + j - 1]) * reals::num(b[q + j - 1]), n)
}

/// The sum of their sizes.
pub open spec fn bulk(a: Seq<Binary32>, p: int, b: Seq<Binary32>, q: int, n: nat) -> real {
    sums::sum(|j: int| reals::size(reals::num(a[p + j - 1]) * reals::num(b[q + j - 1])), n)
}

/// A square is not negative.
#[verifier::spinoff_prover]
proof fn lemma_square(x: real)
    ensures
        x * x >= 0 as real,
{
    assert(x * x >= 0 as real) by (nonlinear_arith);
}

/// Order of squares.
#[verifier::spinoff_prover]
pub proof fn lemma_square_order(x: real, y: real)
    requires
        x * x <= y * y,
        y >= 0 as real,
    ensures
        x <= y,
{
    if x > y {
        let d = x - y;
        let s = x + y;
        assert(d * s > 0 as real) by (nonlinear_arith)
            requires
                d > 0 as real,
                s > 0 as real,
        ;
        assert((x - y) * (x + y) == x * x - y * y) by (nonlinear_arith);
    }
}

/// Products of numbers in order.
#[verifier::spinoff_prover]
pub proof fn lemma_times(a: real, b: real, c: real)
    requires
        a <= b,
        c >= 0 as real,
    ensures
        a * c <= b * c,
        c * a <= c * b,
{
    assert(a * c <= b * c && c * a <= c * b) by (nonlinear_arith)
        requires
            a <= b,
            c >= 0 as real,
    ;
}

/// The geometric mean is at most the arithmetic one.
#[verifier::spinoff_prover]
proof fn lemma_means(p: real, q: real, r: real)
    requires
        p >= 0 as real,
        q >= 0 as real,
        r * r <= p * q,
    ensures
        2 as real * r <= p + q,
{
    lemma_square(p - q);
    lemma_difference_squared(p, q);
    lemma_doubled(r);
    lemma_square_order(2 as real * r, p + q);
}

#[verifier::spinoff_prover]
proof fn lemma_difference_squared(p: real, q: real)
    ensures
        (p - q) * (p - q) == (p + q) * (p + q) - 4 as real * (p * q),
{
    assert((p - q) * (p - q) == (p + q) * (p + q) - 4 as real * (p * q)) by (nonlinear_arith);
}

#[verifier::spinoff_prover]
proof fn lemma_doubled(r: real)
    ensures
        (2 as real * r) * (2 as real * r) == 4 as real * (r * r),
{
    assert((2 as real * r) * (2 as real * r) == 4 as real * (r * r)) by (nonlinear_arith);
}

#[verifier::spinoff_prover]
proof fn lemma_sum_squared(s: real, m: real)
    ensures
        (s + m) * (s + m) == s * s + 2 as real * (s * m) + m * m,
{
    assert((s + m) * (s + m) == s * s + 2 as real * (s * m) + m * m) by (nonlinear_arith);
}

#[verifier::spinoff_prover]
proof fn lemma_product_of_sums(e: real, xx: real, d: real, yy: real)
    ensures
        (e + xx) * (d + yy) == e * d + e * yy + d * xx + xx * yy,
{
    assert((e + xx) * (d + yy) == e * d + e * yy + d * xx + xx * yy) by (nonlinear_arith);
}

#[verifier::spinoff_prover]
proof fn lemma_pairs(a: real, b: real)
    ensures
        (a * a) * (b * b) == (a * b) * (a * b),
{
    assert((a * a) * (b * b) == (a * b) * (a * b)) by (nonlinear_arith);
}

#[verifier::spinoff_prover]
proof fn lemma_swap(e: real, d: real, xx: real, yy: real)
    ensures
        (e * d) * (xx * yy) == (e * yy) * (d * xx),
{
    assert((e * d) * (xx * yy) == (e * yy) * (d * xx)) by (nonlinear_arith);
}

/// One more pair keeps the square of the sum of products within the product
/// of the sums of squares.
#[verifier::spinoff_prover]
proof fn lemma_cauchy_step(s: real, e: real, d: real, m: real, xx: real, yy: real)
    requires
        s >= 0 as real,
        e >= 0 as real,
        d >= 0 as real,
        m >= 0 as real,
        xx >= 0 as real,
        yy >= 0 as real,
        m * m == xx * yy,
        s * s <= e * d,
    ensures
        (s + m) * (s + m) <= (e + xx) * (d + yy),
{
    let p = e * yy;
    let q = d * xx;
    crate::exponential::lemma_product_sign(e, yy);
    crate::exponential::lemma_product_sign(d, xx);
    lemma_square(m);
    lemma_times(s * s, e * d, m * m);
    lemma_pairs(s, m);
    lemma_swap(e, d, xx, yy);
    lemma_means(p, q, s * m);
    lemma_sum_squared(s, m);
    lemma_product_of_sums(e, xx, d, yy);
}

/// A number and its size have one square.
#[verifier::spinoff_prover]
proof fn lemma_own_size(x: real)
    ensures
        reals::size(x) * reals::size(x) == x * x,
{
    assert((-x) * (-x) == x * x) by (nonlinear_arith);
}

/// The square of a sum of products is at most the product of the sums of
/// squares.
#[verifier::spinoff_prover]
pub proof fn lemma_cauchy(a: Seq<Binary32>, p: int, b: Seq<Binary32>, q: int, n: nat)
    ensures
        bulk(a, p, b, q, n) >= 0 as real,
        inner(a, p, a, p, n) >= 0 as real,
        inner(b, q, b, q, n) >= 0 as real,
        bulk(a, p, b, q, n) * bulk(a, p, b, q, n) <= inner(a, p, a, p, n) * inner(b, q, b, q, n),
    decreases n,
{
    if n > 0 {
        let m = (n - 1) as nat;
        lemma_cauchy(a, p, b, q, m);
        let x = reals::num(a[p + n - 1]);
        let y = reals::num(b[q + n - 1]);
        lemma_square(x);
        lemma_square(y);
        lemma_pairs(x, y);
        lemma_own_size(x * y);
        lemma_cauchy_step(
            bulk(a, p, b, q, m),
            inner(a, p, a, p, m),
            inner(b, q, b, q, m),
            reals::size(x * y),
            x * x,
            y * y,
        );
    } else {
        assert(0 as real * (0 as real) == 0 as real) by (nonlinear_arith);
    }
}

/// For a stretch with itself, the sum of sizes is the sum.
#[verifier::spinoff_prover]
pub proof fn lemma_own_bulk(a: Seq<Binary32>, p: int, n: nat)
    ensures
        bulk(a, p, a, p, n) == inner(a, p, a, p, n),
    decreases n,
{
    if n > 0 {
        lemma_own_bulk(a, p, (n - 1) as nat);
        lemma_square(reals::num(a[p + n - 1]));
    }
}

/// Sizes add up.
#[verifier::spinoff_prover]
proof fn lemma_bulk_grows(a: Seq<Binary32>, p: int, b: Seq<Binary32>, q: int, m: nat, n: nat)
    requires
        m <= n,
    ensures
        0 as real <= bulk(a, p, b, q, m) <= bulk(a, p, b, q, n),
        reals::size(inner(a, p, b, q, m)) <= bulk(a, p, b, q, m),
    decreases n,
{
    let g = |j: int| reals::size(reals::num(a[p + j - 1]) * reals::num(b[q + j - 1]));
    let f = |j: int| reals::num(a[p + j - 1]) * reals::num(b[q + j - 1]);
    sums::lemma_grows(g, m, n);
    sums::lemma_bound(f, g, m);
}

/// One step of a rounded sum.
#[verifier::spinoff_prover]
proof fn lemma_dot_step(
    before: Binary32,
    x: Binary32,
    y: Binary32,
    exact: real,
    off: real,
    most: real,
)
    requires
        before.finite(),
        x.finite(),
        y.finite(),
        x.mul(y).finite(),
        before.add(x.mul(y)).finite(),
        reals::near(reals::num(before), exact, off),
        0 as real <= off <= most / 1000 as real,
        reals::size(exact) <= most,
        reals::size(reals::num(x) * reals::num(y)) <= most,
        reals::size(exact + reals::num(x) * reals::num(y)) <= most,
        most >= 1 as real,
    ensures
        reals::near(
            reals::num(before.add(x.mul(y))),
            exact + reals::num(x) * reals::num(y),
            off + 4 as real * (reals::eps() * most),
        ),
{
    let p = x.mul(y);
    reals::lemma_eps();
    reals::lemma_num_product(x, y);
    reals::lemma_num_add(before, p);
    let xy = reals::num(x) * reals::num(y);
    let s = reals::num(before) + reals::num(p);
    reals::lemma_eps_of(reals::size(xy));
    reals::lemma_eps_of(most);
    reals::lemma_eps_of(s);
}

/// A rounded sum of products against the exact one.
#[verifier::spinoff_prover]
pub proof fn lemma_dot(
    a: Seq<Binary32>,
    p: int,
    b: Seq<Binary32>,
    q: int,
    n: nat,
    all: nat,
    start: Binary32,
    e: nat,
    most: real,
)
    requires
        n <= all <= 200,
        start.finite(),
        start.size() == 0,
        172 <= 2 * e <= 402,
        forall|k: int| 0 <= k < n ==> order::within(#[trigger] a[p + k], e),
        forall|k: int| 0 <= k < n ==> order::within(#[trigger] b[q + k], e),
        bulk(a, p, b, q, all) <= most,
        most >= 1 as real,
    ensures
        analysis::sum_products(a, p, b, q, n, start).finite(),
        reals::near(
            reals::num(analysis::sum_products(a, p, b, q, n, start)),
            inner(a, p, b, q, n),
            n as real * (4 as real * (reals::eps() * most)),
        ),
    decreases n,
{
    let step = 4 as real * (reals::eps() * most);
    reals::lemma_eps();
    reals::lemma_eps_of(most);
    soundness::lemma_sum_products(a, p, b, q, n, start, e);
    if n == 0 {
        assert(0 as real * step == 0 as real) by (nonlinear_arith);
        reals::lemma_num(start);
    } else {
        let m = (n - 1) as nat;
        lemma_dot(a, p, b, q, m, all, start, e, most);
        let before = analysis::sum_products(a, p, b, q, m, start);
        let x = a[p + m];
        let y = b[q + m];
        assert(order::within(a[p + m], e) && order::within(b[q + m], e));
        order::lemma_within_mul(x, y, e, e);
        lemma_bulk_grows(a, p, b, q, m, all);
        lemma_bulk_grows(a, p, b, q, n, all);
        lemma_bulk_grows(a, p, b, q, m, n);
        let r = m as real;
        lemma_times(r, 200 as real, step);
        lemma_dot_step(before, x, y, inner(a, p, b, q, m), r * step, most);
        assert((r + 1 as real) * step == r * step + step) by (nonlinear_arith);
        assert(n as real == r + 1 as real);
    }
}

/// The square root of a number of at least 2^-20, as a real.
#[verifier::spinoff_prover]
pub proof fn lemma_root(x: Binary32)
    requires
        x.finite(),
        x.value() >= pow2(129),
    ensures
        math::sqrt(x).finite(),
        math::sqrt(x).value() > 0,
        reals::num(math::sqrt(x)) > 0 as real,
        reals::near(
            0x10_0000 as real * (reals::num(math::sqrt(x)) * reals::num(math::sqrt(x))),
            0x10_0000 as real * reals::num(x),
            reals::num(x),
        ),
{
    let unit = pow2(149);
    lemma_pow2_pos(129);
    reals::lemma_unit();
    crate::accuracy::lemma_is_normal(x, 129);
    root::law_sqrt_squared(x);
    math::law_sqrt_is_a_number(x);
    let s = math::sqrt(x);
    reals::lemma_num(s);
    reals::lemma_num(x);
    reals::lemma_product(s.size() as int, s.size() as int);
    reals::lemma_product(x.size() as int, unit as int);
    lemma_root_units(reals::num(s), reals::num(x), unit as real);
    let y = reals::num(s);
    let u = unit as real;
    if y <= 0 as real {
        lemma_times(y, 0 as real, u);
        assert(0 as real * u == 0 as real) by (nonlinear_arith);
    }
}

/// Units taken out of a square.
#[verifier::spinoff_prover]
proof fn lemma_root_units(y: real, x: real, u: real)
    requires
        u > 0 as real,
        0x10_0000 as real * ((y * u) * (y * u) - (x * u) * u) <= (x * u) * u,
        0x10_0000 as real * ((x * u) * u - (y * u) * (y * u)) <= (x * u) * u,
    ensures
        reals::near(0x10_0000 as real * (y * y), 0x10_0000 as real * x, x),
{
    let yy = y * y;
    let uu = u * u;
    assert((y * u) * (y * u) == (y * y) * (u * u)) by (nonlinear_arith);
    assert((x * u) * u == x * (u * u)) by (nonlinear_arith);
    assert(u * u > 0 as real) by (nonlinear_arith)
        requires
            u > 0 as real,
    ;
    let up = 0x10_0000 as real * (yy - x) - x;
    let down = 0x10_0000 as real * (x - yy) - x;
    assert((0x10_0000 as real * (yy - x) - x) * uu == 0x10_0000 as real * (yy * uu - x * uu) - x
        * uu) by (nonlinear_arith);
    assert((0x10_0000 as real * (x - yy) - x) * uu == 0x10_0000 as real * (x * uu - yy * uu) - x
        * uu) by (nonlinear_arith);
    crate::lpc10::excitation::lemma_not_positive(up, uu);
    crate::lpc10::excitation::lemma_not_positive(down, uu);
}

/// The exact sum of products of the current frame and itself `lag` samples
/// earlier.
pub open spec fn cross(s: Seq<Binary32>, lag: int) -> real {
    inner(s, 156, s, 156 - lag, 180)
}

/// The exact energy of the stretch of a frame's length `lag` samples earlier.
pub open spec fn power(s: Seq<Binary32>, lag: int) -> real {
    inner(s, 156 - lag, s, 156 - lag, 180)
}

/// Whether `f` is the correlation at a lag, normalised by the root `g` of the
/// two energies' product, to one part in ten thousand.
pub open spec fn alike(s: Seq<Binary32>, lag: int, f: real, g: real) -> bool {
    &&& g > 0 as real
    &&& reals::near(
        10_000 as real * (g * g),
        10_000 as real * (power(s, 0) * power(s, lag)),
        2 as real * (power(s, 0) * power(s, lag)),
    )
    &&& reals::near(10_000 as real * (f * g), 10_000 as real * cross(s, lag), 2 as real * g)
}

/// A signal of a history's length whose values are those of samples.
pub open spec fn tame(s: Seq<Binary32>) -> bool {
    &&& s.len() == HISTORY
    &&& forall|i: int| 0 <= i < HISTORY ==> order::within(#[trigger] s[i], 169)
}

/// An energy, rounded.
#[verifier::spinoff_prover]
pub proof fn lemma_energy(s: Seq<Binary32>, lag: int, start: Binary32)
    requires
        tame(s),
        0 <= lag <= PITCH_MAX,
        power(s, lag) >= 1 as real,
        start.finite(),
        start.size() == 0,
    ensures
        ({
            let x = analysis::sum_products(s, 156 - lag, s, 156 - lag, 180, start);
            &&& order::within(x, 197)
            &&& reals::near(20_000 as real * reals::num(x), 20_000 as real * power(s, lag), power(
                s,
                lag,
            ))
        }),
{
    let p = 156 - lag;
    let e = power(s, lag);
    lemma_own_bulk(s, p, 180);
    assert forall|k: int| 0 <= k < 180 implies order::within(#[trigger] s[p + k], 169) by {}
    lemma_dot(s, p, s, p, 180, 180, start, 169, e);
    soundness::lemma_sum_products(s, p, s, p, 180, start, 169);
    lemma_moderate(analysis::sum_products(s, p, s, p, 180, start));
    reals::lemma_eps_of(e);
}

#[verifier::spinoff_prover]
proof fn lemma_moderate(x: Binary32)
    requires
        x.finite(),
        x.size() <= 180 * pow2((2 * 169 - 149) as nat),
    ensures
        order::within(x, 197),
{
    lemma2_to64();
    lemma_pow2_adds(8, 189);
}

/// The root of the product of two energies, rounded.
#[verifier::spinoff_prover]
proof fn lemma_denominator(a: Binary32, b: Binary32, e: real, d: real)
    requires
        order::within(a, 197),
        order::within(b, 197),
        e >= 1 as real,
        d >= 1 as real,
        reals::near(20_000 as real * reals::num(a), 20_000 as real * e, e),
        reals::near(20_000 as real * reals::num(b), 20_000 as real * d, d),
    ensures
        ({
            let g = math::sqrt(a.mul(b));
            &&& g.finite()
            &&& g.value() > 0
            &&& reals::num(g) > 0 as real
            &&& reals::near(
                10_000 as real * (reals::num(g) * reals::num(g)),
                10_000 as real * (e * d),
                2 as real * (e * d),
            )
        }),
{
    let x = a.mul(b);
    reals::lemma_eps();
    order::lemma_within_mul(a, b, 197, 197);
    reals::lemma_num_product(a, b);
    let ar = reals::num(a);
    let br = reals::num(b);
    lemma_two_energies(ar, br, e, d);
    let ab = ar * br;
    reals::lemma_eps_of(reals::size(ab));
    reals::lemma_num(x);
    reals::lemma_unit();
    let u = pow2(149) as real;
    let xr = reals::num(x);
    lemma_times(1 as real / 2 as real, xr, u);
    assert((1 as real / 2 as real) * u == u / 2 as real) by (nonlinear_arith);
    lemma_pow2_unfold(149);
    rounding::lemma_pow2_order(129, 148);
    lemma_root(x);
}

#[verifier::spinoff_prover]
proof fn lemma_two_energies(a: real, b: real, e: real, d: real)
    requires
        e >= 1 as real,
        d >= 1 as real,
        reals::near(20_000 as real * a, 20_000 as real * e, e),
        reals::near(20_000 as real * b, 20_000 as real * d, d),
    ensures
        e * d >= 1 as real,
        reals::near(20_000 as real * (a * b), 20_000 as real * (e * d), 3 as real * (e * d)),
{
    let x = a - e;
    let y = b - d;
    let ed = e * d;
    lemma_times(1 as real, e, d);
    assert(1 as real * d == d) by (nonlinear_arith);
    assert((e + x) * (d + y) == e * d + e * y + x * d + x * y) by (nonlinear_arith);
    normal::lemma_limits(e, y, e, d / 20_000 as real);
    normal::lemma_limits(x, d, e / 20_000 as real, d);
    normal::lemma_limits(x, y, e / 20_000 as real, d / 20_000 as real);
    assert((d / 20_000 as real) * e == ed / 20_000 as real) by (nonlinear_arith)
        requires
            ed == e * d,
    ;
    assert(d * (e / 20_000 as real) == ed / 20_000 as real) by (nonlinear_arith)
        requires
            ed == e * d,
    ;
    assert((d / 20_000 as real) * (e / 20_000 as real) == ed / 400_000_000 as real)
        by (nonlinear_arith)
        requires
            ed == e * d,
    ;
}

/// A correlation, rounded and divided.
#[verifier::spinoff_prover]
proof fn lemma_ratio(s: Seq<Binary32>, lag: int, den: Binary32)
    requires
        tame(s),
        PITCH_MIN <= lag <= PITCH_MAX,
        power(s, 0) >= 1 as real,
        power(s, lag) >= 1 as real,
        den.finite(),
        den.value() > 0,
        reals::num(den) > 0 as real,
        reals::near(
            10_000 as real * (reals::num(den) * reals::num(den)),
            10_000 as real * (power(s, 0) * power(s, lag)),
            2 as real * (power(s, 0) * power(s, lag)),
        ),
    ensures
        ({
            let c = analysis::sum_products(s, 156, s, 156 - lag, 180, analysis::zero());
            &&& c.div(den).finite()
            &&& alike(s, lag, reals::num(c.div(den)), reals::num(den))
        }),
{
    let zero = analysis::zero();
    let g = reals::num(den);
    let p = 156 - lag;
    let most = 101 as real / 100 as real * g;
    let bk = bulk(s, 156, s, p, 180);
    rounding::lemma_magnitude_zero();
    lemma_cauchy(s, 156, s, p, 180);
    let ed = power(s, 0) * power(s, lag);
    assert(power(s, 0) == inner(s, 156, s, 156, 180));
    lemma_bulk_bound(bk, ed, g);
    lemma_least(power(s, 0), power(s, lag), g);
    assert forall|k: int| 0 <= k < 180 implies order::within(#[trigger] s[156 + k], 169) by {}
    assert forall|k: int| 0 <= k < 180 implies order::within(#[trigger] s[p + k], 169) by {}
    lemma_dot(s, 156, s, p, 180, 180, zero, 169, most);
    soundness::lemma_sum_products(s, 156, s, p, 180, zero, 169);
    let c = analysis::sum_products(s, 156, s, p, 180, zero);
    lemma_moderate(c);
    lemma_quotient_finite(c, den, g);
    reals::lemma_num_quotient(c, den);
    reals::lemma_eps();
    reals::lemma_eps_of(most);
    lemma_bulk_grows(s, 156, s, p, 180, 180);
    let cr = reals::num(c);
    reals::lemma_eps_of(reals::size(cr));
    let t = reals::ratio(1, 0x1_0000_0000_0000);
    lemma_times(t, 1 as real / 1_000_000 as real, g);
    assert((1 as real / 1_000_000 as real) * g == g / 1_000_000 as real) by (nonlinear_arith);
}

/// The sum of sizes is at most the root.
#[verifier::spinoff_prover]
proof fn lemma_bulk_bound(bk: real, ed: real, g: real)
    requires
        bk * bk <= ed,
        g > 0 as real,
        reals::near(10_000 as real * (g * g), 10_000 as real * ed, 2 as real * ed),
    ensures
        bk <= 101 as real / 100 as real * g,
{
    let m = 101 as real / 100 as real * g;
    assert((101 as real / 100 as real * g) * (101 as real / 100 as real * g) == 10_201 as real
        / 10_000 as real * (g * g)) by (nonlinear_arith);
    lemma_square(g);
    lemma_square_order(bk, m);
}

/// The root of the product of energies of at least one.
#[verifier::spinoff_prover]
proof fn lemma_least(e: real, d: real, g: real)
    requires
        e >= 1 as real,
        d >= 1 as real,
        g > 0 as real,
        reals::near(10_000 as real * (g * g), 10_000 as real * (e * d), 2 as real * (e * d)),
    ensures
        g * 101 as real >= 100 as real,
{
    lemma_times(1 as real, e, d);
    assert(1 as real * d == d) by (nonlinear_arith);
    let l = 100 as real / 101 as real;
    assert(l * l == 10_000 as real / 10_201 as real) by (nonlinear_arith)
        requires
            l == 100 as real / 101 as real,
    ;
    lemma_square_order(l, g);
}

/// A quotient by something that is not small.
#[verifier::spinoff_prover]
proof fn lemma_quotient_finite(c: Binary32, den: Binary32, g: real)
    requires
        order::within(c, 197),
        den.finite(),
        den.value() > 0,
        g == reals::num(den),
        g * 101 as real >= 100 as real,
    ensures
        c.div(den).finite(),
{
    reals::lemma_num(den);
    reals::lemma_unit();
    lemma_pow2_unfold(149);
    let u = pow2(149) as real;
    lemma_times(1 as real / 2 as real, g, u);
    assert((1 as real / 2 as real) * u == u / 2 as real) by (nonlinear_arith);
    order::lemma_within_div(c, den, 197, 148);
}

/// The score of a lag is the correlation of the frame with itself that many
/// samples earlier, over the root of the two energies' product: for every lag
/// of the range, wherever both stretches have energy.
#[verifier::spinoff_prover]
pub proof fn law_score_is_the_normalised_correlation(s: Seq<Binary32>, lag: int) -> (g: real)
    requires
        tame(s),
        PITCH_MIN <= lag <= PITCH_MAX,
        power(s, 0) >= 1 as real,
        power(s, lag) >= 1 as real,
    ensures
        analysis::score(s, lag).finite(),
        alike(s, lag, reals::num(analysis::score(s, lag)), g),
{
    let minus = Binary32::from_bits(MINUS_ZERO);
    rounding::lemma_magnitude_zero();
    lemma_energy(s, 0, minus);
    lemma_energy(s, lag, analysis::zero());
    let a = analysis::current_energy(s);
    let b = analysis::sum_products(s, 156 - lag, s, 156 - lag, 180, analysis::zero());
    lemma_denominator(a, b, power(s, 0), power(s, lag));
    let den = math::sqrt(a.mul(b));
    lemma_ratio(s, lag, den);
    reals::num(den)
}

/// A correlation is at most the root of the two energies' product.
#[verifier::spinoff_prover]
pub proof fn lemma_cross_bound(s: Seq<Binary32>, lag: int, g: real)
    requires
        g > 0 as real,
        reals::near(
            10_000 as real * (g * g),
            10_000 as real * (power(s, 0) * power(s, lag)),
            2 as real * (power(s, 0) * power(s, lag)),
        ),
    ensures
        reals::size(cross(s, lag)) <= 101 as real / 100 as real * g,
{
    lemma_cauchy(s, 156, s, 156 - lag, 180);
    lemma_bulk_grows(s, 156, s, 156 - lag, 180, 180);
    lemma_bulk_bound(bulk(s, 156, s, 156 - lag, 180), power(s, 0) * power(s, lag), g);
}

} // verus!
