//! The recursion solves the normal equations.
//!
//! Where no coefficient had to be clamped, the predictor that the recursion
//! builds predicts every correlation it was built from. Rounding leaves a
//! residue at each order; an order at most doubles the residues there were
//! and adds one of its own.
use crate::binary32::Binary32;
use crate::lpc10::analysis;
use crate::lpc10::analysis::{MINUS_STABLE, STABLE};
use crate::lpc10::soundness;
use crate::lpc10::ORDER;
use crate::math;
use crate::order;
use crate::reals;
use crate::rounding;
use crate::sums;
use vstd::arithmetic::power2::*;
use vstd::prelude::*;

verus! {

/// The correlation at a lag of either sign.
pub open spec fn lag(r: Seq<Binary32>, m: int) -> real {
    reals::num(
        r[if m >= 0 {
            m
        } else {
            -m
        }],
    )
}

/// What the first `n` coefficients predict of the correlation at lag `m`.
pub open spec fn predicted(a: Seq<Binary32>, r: Seq<Binary32>, m: int, n: nat) -> real {
    sums::sum(|j: int| reals::num(a[j]) * lag(r, m - j), n)
}

/// What they leave of it.
pub open spec fn residue(a: Seq<Binary32>, r: Seq<Binary32>, m: int, n: nat) -> real {
    lag(r, m) - predicted(a, r, m, n)
}

/// The sizes of the first `n` coefficients together.
pub open spec fn mass(a: Seq<Binary32>, n: nat) -> real {
    sums::sum(|j: int| reals::size(reals::num(a[j])), n)
}

/// One rounding of correlations of at most `most`.
pub open spec fn grain(most: real) -> real {
    reals::eps() * most + reals::ratio(1, 0x1_0000_0000_0000)
}

/// Whether the recursion ran order `i` and did not clamp its coefficient.
pub open spec fn free(r: Seq<Binary32>, i: int) -> bool {
    let s = analysis::recursion(r, (i - 1) as nat);
    &&& s.error.value() > 0
    &&& soundness::kept(analysis::unexplained(r, s.a, i, (i - 1) as nat).div(s.error))
}

/// Correlations that the recursion can take, each of at most `most`.
pub open spec fn moderate(r: Seq<Binary32>, most: real) -> bool {
    &&& forall|k: int| 0 <= k <= ORDER ==> order::within(#[trigger] r[k], 193)
    &&& forall|k: int| 0 <= k <= ORDER ==> reals::size(reals::num(#[trigger] r[k])) <= most
    &&& r[0].value() >= 0
}

/// The size of a kept coefficient as a real.
proof fn lemma_kept(k: Binary32)
    requires
        soundness::kept(k),
    ensures
        k.finite(),
        k.size() < pow2(149),
        1000 as real * reals::size(reals::num(k)) <= 9991 as real / 10 as real,
{
    let limit = Binary32::from_bits(STABLE);
    lemma2_to64();
    lemma_pow2_pos(125);
    lemma_pow2_adds(125, 24);
    Binary32::lemma_value_of(limit, 126, 0x7f_be77);
    reals::lemma_num_abs(k);
    reals::lemma_num(k.abs());
    reals::lemma_unit();
    let u = pow2(149) as real;
    let s = reals::num(k.abs());
    assert(10_000 * limit.size() <= 9991 * pow2(149) && limit.size() < pow2(149))
        by (nonlinear_arith)
        requires
            limit.size() == (0x80_0000 + 0x7f_be77) * pow2(125),
            pow2(149) == pow2(125) * 0x100_0000,
            pow2(125) > 0,
    ;
    assert(10_000 as real * s <= 9991 as real) by (nonlinear_arith)
        requires
            10_000 as real * (s * u) <= 9991 as real * u,
            u > 0 as real,
    ;
}

/// A coefficient inside (-1, 1), as a real.
pub proof fn lemma_inside(k: Binary32)
    requires
        k.finite(),
        k.size() < pow2(149),
    ensures
        reals::size(reals::num(k)) < 1 as real,
{
    reals::lemma_num_abs(k);
    reals::lemma_num_order(k.abs(), 1);
}

/// One coefficient of the next order, against the exact one.
pub proof fn lemma_coefficient(x: Binary32, k: Binary32, y: Binary32)
    requires
        order::within(x, 159),
        order::within(y, 159),
        k.finite(),
        k.size() < pow2(149),
    ensures
        x.sub(k.mul(y)).finite(),
        reals::near(
            reals::num(x.sub(k.mul(y))),
            reals::num(x) - reals::num(k) * reals::num(y),
            reals::eps() * (reals::size(reals::num(x)) + 3 as real * reals::size(reals::num(y)))
                + 2 as real * reals::ratio(1, 0x1_0000_0000_0000),
        ),
{
    reals::lemma_eps();
    lemma_inside(k);
    order::lemma_within_mul(k, y, 149, 159);
    let p = k.mul(y);
    order::lemma_within_add(x, p, 159);
    order::lemma_neg(p);
    order::lemma_within_add(x, p.neg(), 159);
    reals::lemma_num_product(k, y);
    reals::lemma_num_difference(x, p);
    let a = reals::num(x);
    let b = reals::num(y);
    let c = reals::num(k);
    let q = reals::num(p);
    reals::lemma_size_product(c, b);
    let cb = c * b;
    let sb = reals::size(b);
    let sc = reals::size(c);
    assert(sc * sb <= sb) by (nonlinear_arith)
        requires
            sc <= 1 as real,
            sb >= 0 as real,
    ;
    reals::lemma_eps_of(reals::size(cb));
    reals::lemma_eps_of(sb);
    reals::lemma_eps_of(reals::size(a));
    reals::lemma_eps_of(reals::size(a - q));
    reals::lemma_eps_of(reals::size(a) + 3 as real * sb);
}

/// A product of two bounded numbers.
pub proof fn lemma_limits(x: real, y: real, a: real, b: real)
    requires
        reals::size(x) <= a,
        reals::size(y) <= b,
    ensures
        -(b * a) <= x * y <= b * a,
{
    reals::lemma_size_product(x, y);
    let p = reals::size(x);
    let q = reals::size(y);
    assert(p * q <= p * b) by (nonlinear_arith)
        requires
            q <= b,
            p >= 0 as real,
    ;
    assert(p * b <= a * b) by (nonlinear_arith)
        requires
            p <= a,
            b >= 0 as real,
    ;
    assert(a * b == b * a) by (nonlinear_arith);
}

/// One more order: the residues of the next predictor, from those of this
/// one.
proof fn lemma_order(
    a: Seq<Binary32>,
    r: Seq<Binary32>,
    k: Binary32,
    n: nat,
    m: int,
    most: real,
)
    requires
        n < ORDER,
        a.len() == ORDER + 1,
        0 <= m <= n + 1,
        moderate(r, most),
        soundness::kept(k),
        forall|j: int| 0 <= j <= ORDER ==> order::within(#[trigger] a[j], 159),
    ensures
        reals::near(
            residue(analysis::extended(a, n as int + 1, k), r, m, (n + 1) as nat),
            residue(a, r, m, n) - reals::num(k) * residue(a, r, n + 1 - m, n),
            most * (4 as real * (reals::eps() * mass(a, n)) + 2 as real * (n as real * reals::ratio(
                1,
                0x1_0000_0000_0000,
            ))),
        ),
{
    let i = n as int + 1;
    let b = analysis::extended(a, i, k);
    let c = reals::num(k);
    let e = reals::eps();
    let t = reals::ratio(1, 0x1_0000_0000_0000);
    reals::lemma_eps();
    let f = |j: int| reals::num(a[j]) * lag(r, m - j);
    let g = |j: int| reals::num(a[i - j]) * lag(r, m - j);
    let h = |j: int| reals::num(b[j]) * lag(r, m - j);
    let back = |l: int| reals::num(a[l]) * lag(r, i - m - l);
    // The reversed sum is what the other residue takes.
    sums::lemma_reverse(back, n);
    assert forall|j: int| 1 <= j <= n implies #[trigger] g(j) == back(n + 1 - j) by {
        assert(i - m - (n + 1 - j) == -(m - j));
    }
    sums::lemma_same(g, |j: int| back(n + 1 - j), n);
    // What rounding adds.
    let fg = |j: int| f(j) + (-c) * g(j);
    sums::lemma_linear(f, g, -c, n);
    let off = |j: int| h(j) + (-(1 as real)) * fg(j);
    sums::lemma_linear(h, fg, -(1 as real), n);
    let sa = |j: int| reals::size(reals::num(a[j]));
    let sr = |j: int| sa(n + 1 - j);
    sums::lemma_reverse(sa, n);
    let three = |j: int| sa(j) + 3 as real * sr(j);
    sums::lemma_linear(sa, sr, 3 as real, n);
    let flat = |j: int| 2 as real * t;
    sums::lemma_constant(2 as real * t, n);
    let w = |j: int| flat(j) + e * three(j);
    sums::lemma_linear(flat, three, e, n);
    let zero = |j: int| 0 as real;
    sums::lemma_constant(0 as real, n);
    let rw = |j: int| zero(j) + most * w(j);
    sums::lemma_linear(zero, w, most, n);
    lemma_kept(k);
    assert forall|j: int| 1 <= j <= n implies -rw(j) <= #[trigger] off(j) <= rw(j) by {
        lemma_coefficient(a[j], k, a[i - j]);
        assert(b[j] == a[j].sub(k.mul(a[i - j])));
        let x = reals::num(a[j]);
        let y = reals::num(a[i - j]);
        let z = reals::num(b[j]);
        let l = lag(r, m - j);
        let d = z - (x - c * y);
        let at = if m - j >= 0 {
            m - j
        } else {
            j - m
        };
        assert(reals::size(reals::num(r[at])) <= most);
        assert(off(j) == d * l) by {
            let cy = c * y;
            assert((z - (x - cy)) * l == z * l - (x * l - cy * l)) by (nonlinear_arith);
            assert((c * y) * l == c * (y * l)) by (nonlinear_arith);
            let xl = x * l;
            let yl = y * l;
            assert((-c) * yl == -(c * yl)) by (nonlinear_arith);
            let q = xl + (-c) * yl;
            assert((-(1 as real)) * q == -q) by (nonlinear_arith);
        }
        let wj = w(j);
        assert(-wj <= d <= wj);
        lemma_limits(d, l, wj, most);
    }
    sums::lemma_bound(off, rw, n);
    // Together.
    assert(sums::sum(h, n) - sums::sum(fg, n) == sums::sum(off, n)) by {
        let s = sums::sum(fg, n);
        assert((-(1 as real)) * s == -s) by (nonlinear_arith);
    }
    let all = mass(a, n);
    assert(sums::sum(sa, n) == all);
    let total = sums::sum(w, n);
    assert(total == n as real * (2 as real * t) + e * (all + 3 as real * all));
    assert(n as real * (2 as real * t) == 2 as real * (n as real * t)) by (nonlinear_arith);
    assert(e * (all + 3 as real * all) == 4 as real * (e * all)) by (nonlinear_arith);
    // The last coefficient is k itself.
    assert(b[i] == k);
    assert(lag(r, m - i) == lag(r, i - m));
    let p = |j: int| reals::num(b[j]) * lag(r, m - j);
    assert(sums::sum(p, i as nat) == sums::sum(h, n) + c * lag(r, i - m)) by {
        sums::lemma_same(p, h, n);
    }
    assert(predicted(b, r, m, i as nat) == sums::sum(p, i as nat));
    assert(predicted(a, r, m, n) == sums::sum(f, n));
    assert(predicted(a, r, i - m, n) == sums::sum(back, n));
    let s = predicted(a, r, i - m, n);
    let l = lag(r, i - m);
    assert(c * (l - s) == c * l - c * s && (-c) * s == -(c * s)) by (nonlinear_arith);
}

/// The sizes of the next predictor's coefficients: together, and with one
/// more, at most what they were times one more than the size of the newest,
/// but for rounding.
pub proof fn lemma_mass(a: Seq<Binary32>, k: Binary32, n: nat)
    requires
        n < ORDER,
        a.len() == ORDER + 1,
        k.finite(),
        k.size() < pow2(149),
        forall|j: int| 0 <= j <= ORDER ==> order::within(#[trigger] a[j], 159),
    ensures
        mass(analysis::extended(a, n as int + 1, k), (n + 1) as nat) + 1 as real <= (10_001 as real
            / 10_000 as real + reals::size(reals::num(k))) * (mass(a, n) + 1 as real),
        mass(a, n) >= 0 as real,
{
    let i = n as int + 1;
    let b = analysis::extended(a, i, k);
    let e = reals::eps();
    let t = reals::ratio(1, 0x1_0000_0000_0000);
    reals::lemma_eps();
    lemma_inside(k);
    let c = reals::size(reals::num(k));
    let sa = |j: int| reals::size(reals::num(a[j]));
    let sr = |j: int| sa(n + 1 - j);
    let sb = |j: int| reals::size(reals::num(b[j]));
    sums::lemma_reverse(sa, n);
    sums::lemma_grows(sa, 0, n);
    let one = 1 as real + e;
    let more = c + 3 as real * e;
    let flat = |j: int| 2 as real * t;
    sums::lemma_constant(2 as real * t, n);
    let w = |j: int| flat(j) + one * sa(j);
    sums::lemma_linear(flat, sa, one, n);
    let v = |j: int| w(j) + more * sr(j);
    sums::lemma_linear(w, sr, more, n);
    assert forall|j: int| 1 <= j <= n implies -v(j) <= #[trigger] sb(j) <= v(j) by {
        lemma_coefficient(a[j], k, a[i - j]);
        assert(b[j] == a[j].sub(k.mul(a[i - j])));
        let x = reals::num(a[j]);
        let y = reals::num(a[i - j]);
        let kr = reals::num(k);
        reals::lemma_size_product(kr, y);
        let p = reals::size(x);
        let q = reals::size(y);
        assert((1 as real + e) * p == p + e * p) by (nonlinear_arith);
        assert((c + 3 as real * e) * q == c * q + 3 as real * (e * q)) by (nonlinear_arith);
        assert(e * (p + 3 as real * q) == e * p + 3 as real * (e * q)) by (nonlinear_arith);
        assert(sr(j) == q);
    }
    sums::lemma_bound(sb, v, n);
    let all = mass(a, n);
    assert(sums::sum(sa, n) == all);
    assert(sums::sum(sr, n) == all);
    assert(sums::sum(v, n) == n as real * (2 as real * t) + one * all + more * all);
    let both = one + more;
    assert((one + more) * all == one * all + more * all) by (nonlinear_arith);
    let c1 = 10_001 as real / 10_000 as real + c;
    let small = c1 - both;
    assert(small * all >= 0 as real) by (nonlinear_arith)
        requires
            small >= 0 as real,
            all >= 0 as real,
    ;
    assert((c1 - both) * all == c1 * all - both * all) by (nonlinear_arith);
    assert(c1 * (all + 1 as real) == c1 * all + c1) by (nonlinear_arith);
    let nr = n as real;
    let tt = 2 as real * t;
    assert(nr * tt <= 10 as real * tt) by (nonlinear_arith)
        requires
            nr <= 10 as real,
            tt > 0 as real,
    ;
    let p = |j: int| reals::size(reals::num(b[j]));
    sums::lemma_same(p, sb, n);
    assert(b[i] == k);
    assert(mass(b, i as nat) == sums::sum(p, i as nat));
    assert(sums::sum(p, i as nat) == sums::sum(p, n) + p(i));
}

/// What is left unexplained, against the exact residue.
proof fn lemma_unexplained(
    a: Seq<Binary32>,
    r: Seq<Binary32>,
    i: int,
    m: nat,
    n: nat,
    most: real,
    p: real,
)
    requires
        m <= n < i <= ORDER,
        a.len() == ORDER + 1,
        moderate(r, most),
        forall|j: int| 0 <= j <= ORDER ==> order::within(#[trigger] a[j], 159),
        mass(a, n) + 1 as real <= p,
    ensures
        order::within(analysis::unexplained(r, a, i, m), (204 + m) as nat),
        reals::near(
            reals::num(analysis::unexplained(r, a, i, m)),
            residue(a, r, i, m),
            m as real * (4 as real * (p * grain(most))),
        ),
        reals::size(residue(a, r, i, m)) <= p * most,
    decreases m,
{
    let e = reals::eps();
    let t = reals::ratio(1, 0x1_0000_0000_0000);
    let g = grain(most);
    reals::lemma_eps();
    soundness::lemma_unexplained(r, a, i, m);
    let sa = |j: int| reals::size(reals::num(a[j]));
    sums::lemma_grows(sa, m, n);
    assert(mass(a, n) == sums::sum(sa, n));
    assert(reals::size(reals::num(r[i])) <= most);
    assert(most >= 0 as real);
    reals::lemma_eps_of(most);
    let pg = p * g;
    let pm = p * most;
    // The residue is at most the correlation and the mass times the rest.
    let f = |j: int| reals::num(a[j]) * lag(r, i - j);
    let zero = |j: int| 0 as real;
    let w = |j: int| zero(j) + most * sa(j);
    sums::lemma_constant(0 as real, m);
    sums::lemma_linear(zero, sa, most, m);
    assert forall|j: int| 1 <= j <= m implies -w(j) <= #[trigger] f(j) <= w(j) by {
        let x = reals::num(a[j]);
        let y = lag(r, i - j);
        assert(reals::size(reals::num(r[i - j])) <= most);
        reals::lemma_size_product(x, y);
        let sx = reals::size(x);
        let sy = reals::size(y);
        assert(sx * sy <= most * sx) by (nonlinear_arith)
            requires
                sy <= most,
                sx >= 0 as real,
        ;
    }
    sums::lemma_bound(f, w, m);
    let part = sums::sum(sa, m);
    assert(m as real * (0 as real) == 0 as real) by (nonlinear_arith);
    let full = 1 as real + part;
    assert(full * most <= p * most) by (nonlinear_arith)
        requires
            full <= p,
            most >= 0 as real,
    ;
    assert((1 as real + part) * most == most + most * part) by (nonlinear_arith);
    assert(predicted(a, r, i, m) == sums::sum(f, m));
    assert(p * (e * most + t) == e * (p * most) + p * t) by (nonlinear_arith);
    assert(p * t >= t) by (nonlinear_arith)
        requires
            p >= 1 as real,
            t > 0 as real,
    ;
    assert(p * most >= 0 as real) by (nonlinear_arith)
        requires
            p >= 1 as real,
            most >= 0 as real,
    ;
    reals::lemma_eps_of(pm);
    let four = 4 as real * pg;
    if m == 0 {
        assert(0 as real * four == 0 as real) by (nonlinear_arith);
        assert(m as real * four == 0 as real);
    } else {
        let l = (m - 1) as nat;
        lemma_unexplained(a, r, i, l, n, most, p);
        let before = analysis::unexplained(r, a, i, l);
        let x = a[m as int];
        let y = r[i - m];
        order::lemma_within_mul(x, y, 159, 193);
        let q = x.mul(y);
        reals::lemma_num_product(x, y);
        reals::lemma_num_difference(before, q);
        let xr = reals::num(x);
        let yr = reals::num(y);
        let xy = xr * yr;
        assert(predicted(a, r, i, m) == predicted(a, r, i, l) + xy) by {
            let h = |j: int| reals::num(a[j]) * lag(r, i - j);
            sums::lemma_same(f, h, l);
            assert(f(m as int) == xy);
        }
        assert(reals::size(xy) <= pm) by {
            assert(-w(m as int) <= f(m as int) <= w(m as int));
            let sm = sa(m as int);
            sums::lemma_grows(sa, l, m);
            assert(sm <= part);
            assert(most * sm <= most * part) by (nonlinear_arith)
                requires
                    sm <= part,
                    most >= 0 as real,
            ;
        }
        reals::lemma_eps_of(reals::size(xy));
        let d = reals::num(before) - reals::num(q);
        reals::lemma_eps_of(reals::size(d));
        let lr = l as real;
        assert((lr + 1 as real) * four == lr * four + four) by (nonlinear_arith);
        assert(m as real == lr + 1 as real);
        assert(lr * four <= 10 as real * four) by (nonlinear_arith)
            requires
                lr <= 10 as real,
                four >= 0 as real,
        ;
    }
}

/// How far the residues are from nothing after `n` orders, in roundings.
pub open spec fn spread(n: nat) -> real {
    (4 as real * (n as real) + 20 as real) * (pow2(n) as real)
}

/// What holds of the recursion after `n` orders that all ran free.
spec fn solved(r: Seq<Binary32>, n: nat, most: real) -> bool {
    let s = analysis::recursion(r, n);
    let p = pow2(n) as real;
    let g = grain(most);
    &&& s.a.len() == ORDER + 1
    &&& forall|j: int| 0 <= j <= ORDER ==> order::within(#[trigger] s.a[j], 159)
    &&& mass(s.a, n) + 1 as real <= p
    &&& 0 as real <= reals::num(s.error) <= most
    &&& s.error.finite()
    &&& reals::near(
        reals::num(s.error),
        residue(s.a, r, 0, n),
        spread(n) * g - 20 as real * g,
    )
    &&& forall|m: int|
        1 <= m <= n ==> reals::size(#[trigger] residue(s.a, r, m, n)) <= spread(n) * g
}

/// The bounds of one order, in terms of the one before.
proof fn lemma_spread(l: nat, g: real)
    requires
        g >= 0 as real,
    ensures
        ({
            let p = pow2(l) as real;
            let pg = p * g;
            let lpg = l as real * pg;
            &&& pow2((l + 1) as nat) as real == 2 as real * p
            &&& p >= 1 as real
            &&& pg >= g
            &&& lpg >= 0 as real
            &&& spread(l) * g == 4 as real * lpg + 20 as real * pg
            &&& spread((l + 1) as nat) * g == 8 as real * lpg + 48 as real * pg
            &&& l as real * (4 as real * pg) == 4 as real * lpg
        }),
{
    lemma_pow2_unfold((l + 1) as nat);
    lemma_pow2_pos(l);
    let p = pow2(l) as real;
    let x = l as real;
    let pg = p * g;
    assert(p * g >= g) by (nonlinear_arith)
        requires
            p >= 1 as real,
            g >= 0 as real,
    ;
    assert(x * pg >= 0 as real) by (nonlinear_arith)
        requires
            x >= 0 as real,
            pg >= 0 as real,
    ;
    let a = 4 as real * x + 20 as real;
    lemma_regroup(a, p, g);
    assert((4 as real * x + 20 as real) * pg == 4 as real * (x * pg) + 20 as real * pg)
        by (nonlinear_arith);
    let q = 2 as real * p;
    let b = 4 as real * (x + 1 as real) + 20 as real;
    lemma_regroup(b, q, g);
    assert((2 as real * p) * g == 2 as real * (p * g)) by (nonlinear_arith);
    assert((4 as real * (x + 1 as real) + 20 as real) * (2 as real * pg) == 8 as real * (x * pg)
        + 48 as real * pg) by (nonlinear_arith);
    assert(x * (4 as real * pg) == 4 as real * (x * pg)) by (nonlinear_arith);
    assert((l + 1) as nat as real == x + 1 as real);
}

/// Three factors.
proof fn lemma_regroup(a: real, b: real, c: real)
    ensures
        a * b * c == a * (b * c),
        a * b * c == b * (a * c),
{
    assert(a * b * c == a * (b * c) && a * b * c == b * (a * c)) by (nonlinear_arith);
}

/// A multiple of at most the whole.
proof fn lemma_part(c: real, x: real, most: real)
    requires
        reals::size(c) <= 1 as real,
        reals::size(x) <= most,
    ensures
        -most <= c * x <= most,
{
    reals::lemma_size_product(c, x);
    let a = reals::size(c);
    let b = reals::size(x);
    assert(a * b <= b) by (nonlinear_arith)
        requires
            a <= 1 as real,
            b >= 0 as real,
    ;
}

/// An order that ran free: its coefficient is the quotient, and the
/// predictor is extended by it.
proof fn lemma_ran(r: Seq<Binary32>, n: nat)
    requires
        1 <= n <= ORDER,
        free(r, n as int),
    ensures
        ({
            let was = analysis::recursion(r, (n - 1) as nat);
            let k = analysis::unexplained(r, was.a, n as int, (n - 1) as nat).div(was.error);
            let s = analysis::recursion(r, n);
            &&& s.rc == was.rc.update(n - 1, k)
            &&& s.a == analysis::extended(was.a, n as int, k)
            &&& s.error == was.error.mul(Binary32::from_bits(math::ONE).sub(k.mul(k)))
        }),
{
    let was = analysis::recursion(r, (n - 1) as nat);
    let k = analysis::unexplained(r, was.a, n as int, (n - 1) as nat).div(was.error);
    rounding::lemma_magnitude_zero();
    assert(Binary32::from_bits(MINUS_STABLE).pattern() == Binary32::from_bits(STABLE).pattern());
    assert(analysis::reflection(r, was, n as int) == k);
}

/// The predictor that the coefficients give is the one that the recursion
/// built on the way.
proof fn lemma_predictor(r: Seq<Binary32>, n: nat)
    requires
        n <= ORDER,
        forall|k: int| 0 <= k <= ORDER ==> order::within(#[trigger] r[k], 193),
        forall|i: int| 1 <= i <= n ==> #[trigger] free(r, i),
    ensures
        analysis::predictor(analysis::recursion(r, n).rc, n) == analysis::recursion(r, n).a,
    decreases n,
{
    if n > 0 {
        let l = (n - 1) as nat;
        lemma_predictor(r, l);
        assert(free(r, n as int));
        lemma_ran(r, n);
        soundness::lemma_recursion(r, l);
        let was = analysis::recursion(r, l);
        let s = analysis::recursion(r, n);
        lemma_prefix(s.rc, was.rc, l);
    }
}

/// A predictor depends on the coefficients it is made of alone.
proof fn lemma_prefix(a: Seq<Binary32>, b: Seq<Binary32>, n: nat)
    requires
        forall|i: int| 0 <= i < n ==> a[i] == b[i],
    ensures
        analysis::predictor(a, n) == analysis::predictor(b, n),
    decreases n,
{
    if n > 0 {
        lemma_prefix(a, b, (n - 1) as nat);
        assert(a[n - 1] == b[n - 1]);
    }
}

/// The coefficient times the error is what was left unexplained, but for
/// rounding.
proof fn lemma_explained(
    a: Seq<Binary32>,
    r: Seq<Binary32>,
    error: Binary32,
    l: nat,
    most: real,
    p: real,
)
    requires
        l < ORDER,
        a.len() == ORDER + 1,
        moderate(r, most),
        forall|j: int| 0 <= j <= ORDER ==> order::within(#[trigger] a[j], 159),
        mass(a, l) + 1 as real <= p,
        error.finite(),
        error.value() > 0,
        reals::num(error) <= most,
        soundness::kept(analysis::unexplained(r, a, l as int + 1, l).div(error)),
    ensures
        ({
            let k = analysis::unexplained(r, a, l as int + 1, l).div(error);
            reals::near(
                residue(a, r, l as int + 1, l),
                reals::num(k) * reals::num(error),
                l as real * (4 as real * (p * grain(most))) + 3 as real * grain(most),
            )
        }),
{
    let i = l as int + 1;
    let u = analysis::unexplained(r, a, i, l);
    let k = u.div(error);
    let e = reals::eps();
    let t = reals::ratio(1, 0x1_0000_0000_0000);
    reals::lemma_eps();
    lemma_kept(k);
    lemma_unexplained(a, r, i, l, l, most, p);
    reals::lemma_num_quotient(u, error);
    let c = reals::num(k);
    let err = reals::num(error);
    lemma_part(c, err, most);
    let ur = reals::num(u);
    reals::lemma_eps_of(reals::size(ur));
    reals::lemma_eps_of(most);
    assert(t * err <= t * most) by (nonlinear_arith)
        requires
            err <= most,
            t > 0 as real,
    ;
    assert(t * most <= e * most) by (nonlinear_arith)
        requires
            0 as real <= most,
            t <= e,
    ;
    assert(reals::near(ur, c * err, 3 as real * grain(most)));
}

/// What the rounding of the coefficients adds to every residue.
proof fn lemma_noise(all: real, l: nat, most: real, p: real)
    requires
        l <= 10,
        0 as real <= all,
        all + 1 as real <= p,
        most >= 0 as real,
    ensures
        most * (4 as real * (reals::eps() * all) + 2 as real * (l as real * reals::ratio(
            1,
            0x1_0000_0000_0000,
        ))) <= 5 as real * (p * grain(most)),
{
    let e = reals::eps();
    let t = reals::ratio(1, 0x1_0000_0000_0000);
    let g = grain(most);
    reals::lemma_eps();
    let em = e * most;
    let tm = t * most;
    reals::lemma_eps_of(most);
    let ea = e * all;
    let lt = l as real * t;
    assert(most * (4 as real * ea + 2 as real * lt) == 4 as real * (most * ea) + 2 as real * (most
        * lt)) by (nonlinear_arith);
    let lr = l as real;
    assert(most * (e * all) == (e * most) * all && most * (lr * t) == lr * (t * most))
        by (nonlinear_arith);
    assert(em * all <= em * p) by (nonlinear_arith)
        requires
            all <= p,
            em >= 0 as real,
    ;
    assert(p * em <= p * g) by (nonlinear_arith)
        requires
            em <= g,
            p >= 0 as real,
    ;
    assert(em * p == p * em) by (nonlinear_arith);
    assert(g <= p * g) by (nonlinear_arith)
        requires
            g >= 0 as real,
            p >= 1 as real,
    ;
    assert(t * most >= 0 as real) by (nonlinear_arith)
        requires
            most >= 0 as real,
            t > 0 as real,
    ;
    let kt = 1000 as real * t;
    assert(kt * most <= e * most) by (nonlinear_arith)
        requires
            most >= 0 as real,
            kt <= e,
    ;
    assert((1000 as real * t) * most == 1000 as real * (t * most)) by (nonlinear_arith);
    assert(l as real * tm <= 10 as real * tm) by (nonlinear_arith)
        requires
            l as real <= 10 as real,
            tm >= 0 as real,
    ;
}

/// The error of the next order, against its residue at lag zero.
proof fn lemma_error_step(
    err: real,
    f0: real,
    left: real,
    c: real,
    next: real,
    f1: real,
    lpg: real,
    pg: real,
    g: real,
)
    requires
        reals::size(c) <= 1 as real,
        0 as real <= g <= pg,
        0 as real <= lpg,
        reals::near(err, f0, 4 as real * lpg + 20 as real * pg - 20 as real * g),
        reals::near(left, c * err, 4 as real * lpg + 3 as real * g),
        reals::near(next, err * (1 as real - c * c), 9 as real * g),
        reals::near(f1, f0 - c * left, 5 as real * pg),
    ensures
        reals::near(next, f1, 8 as real * lpg + 48 as real * pg - 20 as real * g),
{
    let ce = c * err;
    let off = left - ce;
    lemma_part(c, off, 4 as real * lpg + 3 as real * g);
    assert(c * (left - ce) == c * left - c * ce) by (nonlinear_arith);
    let cc = c * c;
    assert(err * (1 as real - cc) == err - err * cc) by (nonlinear_arith);
    assert(err * (c * c) == c * (c * err)) by (nonlinear_arith);
}

/// The residue of the newest correlation.
proof fn lemma_newest(
    err: real,
    f0: real,
    left: real,
    c: real,
    f1: real,
    lpg: real,
    pg: real,
    g: real,
)
    requires
        reals::size(c) <= 1 as real,
        0 as real <= g <= pg,
        0 as real <= lpg,
        reals::near(err, f0, 4 as real * lpg + 20 as real * pg - 20 as real * g),
        reals::near(left, c * err, 4 as real * lpg + 3 as real * g),
        reals::near(f1, left - c * f0, 5 as real * pg),
    ensures
        reals::size(f1) <= 8 as real * lpg + 48 as real * pg,
{
    let gap = err - f0;
    lemma_part(c, gap, 4 as real * lpg + 20 as real * pg);
    assert(c * (err - f0) == c * err - c * f0) by (nonlinear_arith);
}

proof fn lemma_solved(r: Seq<Binary32>, n: nat, most: real)
    requires
        n <= ORDER,
        moderate(r, most),
        forall|i: int| 1 <= i <= n ==> #[trigger] free(r, i),
    ensures
        solved(r, n, most),
    decreases n,
{
    let s = analysis::recursion(r, n);
    let g = grain(most);
    reals::lemma_eps();
    lemma_tame_predictor(r, n);
    lemma_tame_error(r, n, most);
    lemma_grain(most);
    if n == 0 {
        lemma2_to64();
        lemma_spread(0, g);
        assert(0 as real * (pow2(0) as real * g) == 0 as real) by (nonlinear_arith);
        assert(1 as real * g == g) by (nonlinear_arith);
        assert(residue(s.a, r, 0, 0) == lag(r, 0));
        assert(mass(s.a, 0) == 0 as real);
    } else {
        let l = (n - 1) as nat;
        lemma_solved(r, l, most);
        lemma_step(r, l, most);
    }
}

/// The predictor of the recursion is moderate.
proof fn lemma_tame_predictor(r: Seq<Binary32>, n: nat)
    requires
        n <= ORDER,
        forall|k: int| 0 <= k <= ORDER ==> order::within(#[trigger] r[k], 193),
    ensures
        analysis::recursion(r, n).a.len() == ORDER + 1,
        forall|j: int|
            0 <= j <= ORDER ==> order::within(#[trigger] analysis::recursion(r, n).a[j], 159),
{
    soundness::lemma_recursion(r, n);
    let a = analysis::recursion(r, n).a;
    assert forall|j: int| 0 <= j <= ORDER implies order::within(#[trigger] a[j], 159) by {
        order::lemma_within_weaken(a[j], (149 + n) as nat, 159);
    }
}

/// The error of the recursion is no larger than the correlations.
proof fn lemma_tame_error(r: Seq<Binary32>, n: nat, most: real)
    requires
        n <= ORDER,
        moderate(r, most),
    ensures
        0 as real <= reals::num(analysis::recursion(r, n).error) <= most,
        analysis::recursion(r, n).error.finite(),
        most >= 0 as real,
{
    let error = analysis::recursion(r, n).error;
    soundness::law_levinson_is_stable(r, n);
    soundness::lemma_less_energy(error, r[0]);
    reals::lemma_num(error);
    assert(reals::size(reals::num(r[0])) <= most);
}

/// A rounding is not negative.
proof fn lemma_grain(most: real)
    requires
        most >= 0 as real,
    ensures
        grain(most) >= 0 as real,
{
    reals::lemma_eps();
    reals::lemma_eps_of(most);
}

proof fn lemma_step(r: Seq<Binary32>, l: nat, most: real)
    requires
        l < ORDER,
        moderate(r, most),
        free(r, l as int + 1),
        solved(r, l, most),
    ensures
        solved(r, (l + 1) as nat, most),
{
    let n = (l + 1) as nat;
    let was = analysis::recursion(r, l);
    let s = analysis::recursion(r, n);
    let a = was.a;
    let p = pow2(l) as real;
    let g = grain(most);
    let pg = p * g;
    let lpg = l as real * pg;
    let k = analysis::unexplained(r, a, n as int, l).div(was.error);
    let c = reals::num(k);
    reals::lemma_eps();
    lemma_tame_predictor(r, n);
    lemma_tame_error(r, n, most);
    lemma_grain(most);
    lemma_spread(l, g);
    lemma_ran(r, n);
    lemma_kept(k);
    lemma_mass(a, k, l);
    let one = 10_001 as real / 10_000 as real + reals::size(c);
    let full = mass(a, l) + 1 as real;
    assert(one * full <= 2 as real * full) by (nonlinear_arith)
        requires
            one <= 2 as real,
            full >= 0 as real,
    ;
    lemma_explained(a, r, was.error, l, most, p);
    lemma_noise(mass(a, l), l, most, p);
    let err = reals::num(was.error);
    let left = residue(a, r, n as int, l);
    let f0 = residue(a, r, 0, l);
    // The error.
    lemma_order(a, r, k, l, 0, most);
    soundness::lemma_error_left(was.error, k);
    assert(8 as real * (reals::eps() * err) + reals::ratio(1, 0x1_0000_0000_0000) <= 9 as real * g) by {
        reals::lemma_eps_of(err);
        reals::lemma_eps_of(most);
    }
    lemma_error_step(
        err,
        f0,
        left,
        c,
        reals::num(s.error),
        residue(s.a, r, 0, n),
        lpg,
        pg,
        g,
    );
    // The residues.
    assert forall|m: int| 1 <= m <= n implies reals::size(#[trigger] residue(s.a, r, m, n))
        <= spread(n) * g by {
        lemma_order(a, r, k, l, m, most);
        if m < n {
            let x = residue(a, r, m, l);
            let y = residue(a, r, n - m, l);
            assert(reals::size(x) <= spread(l) * g);
            assert(reals::size(y) <= spread(l) * g);
            lemma_part(c, y, spread(l) * g);
        } else {
            lemma_newest(err, f0, left, c, residue(s.a, r, m, n), lpg, pg, g);
        }
    }
}

/// The predictor solves the normal equations: where the recursion ran `n`
/// orders and clamped no coefficient, what the predictor of its coefficients
/// predicts of each of the first `n` correlations is that correlation, to
/// (4 n + 20) 2^n roundings of the largest one.
pub proof fn law_predictor_solves_normal_equations(
    r: Seq<Binary32>,
    n: nat,
    i: int,
    most: real,
)
    requires
        n <= ORDER,
        moderate(r, most),
        forall|k: int| 1 <= k <= n ==> #[trigger] free(r, k),
        1 <= i <= n,
    ensures
        reals::near(
            predicted(analysis::predictor(analysis::recursion(r, n).rc, n), r, i, n),
            lag(r, i),
            spread(n) * grain(most),
        ),
{
    lemma_solved(r, n, most);
    lemma_predictor(r, n);
    assert(reals::size(residue(analysis::recursion(r, n).a, r, i, n)) <= spread(n) * grain(most));
}

} // verus!
