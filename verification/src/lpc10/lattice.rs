//! The energy that a filter holds.
//!
//! A filter given by reflection coefficients is a ladder of prediction
//! errors, forward and backward. Over the reals every rung keeps a balance,
//! and so does the whole: what a stable filter holds changes by what drives
//! it and by what leaves it at the end, and nothing else. A difference that
//! nothing drives never grows, and falls.
use crate::reals;
use crate::sums;
use vstd::prelude::*;

verus! {

/// The forward and the backward prediction error of order `m` at time `t`.
pub open spec fn errors(k: Seq<real>, m: nat, e: spec_fn(int) -> real, t: int) -> (real, real)
    decreases m,
{
    if m == 0 {
        (e(t), e(t))
    } else {
        let f = errors(k, (m - 1) as nat, e, t).0;
        let b = errors(k, (m - 1) as nat, e, t - 1).1;
        (f - k[m - 1] * b, b - k[m - 1] * f)
    }
}

/// The forward error: what the first `m` coefficients do not predict.
pub open spec fn forward(k: Seq<real>, m: nat, e: spec_fn(int) -> real, t: int) -> real {
    errors(k, m, e, t).0
}

pub open spec fn backward(k: Seq<real>, m: nat, e: spec_fn(int) -> real, t: int) -> real {
    errors(k, m, e, t).1
}

/// The squares of both.
pub open spec fn squares(k: Seq<real>, m: nat, e: spec_fn(int) -> real, t: int) -> real {
    backward(k, m, e, t) * backward(k, m, e, t) + forward(k, m, e, t) * forward(k, m, e, t)
}

/// What a rung counts for: the product of one less the square of each
/// coefficient above it.
pub open spec fn weight(k: Seq<real>, m: nat, n: nat) -> real
    decreases n - m,
{
    if m >= n {
        1 as real
    } else {
        (1 as real - k[m as int] * k[m as int]) * weight(k, (m + 1) as nat, n)
    }
}

/// The energy of the first `m` rungs of a ladder of `n`.
pub open spec fn energy(k: Seq<real>, n: nat, m: nat, e: spec_fn(int) -> real, t: int) -> real
    decreases m,
{
    if m == 0 {
        0 as real
    } else {
        let b = backward(k, (m - 1) as nat, e, t);
        energy(k, n, (m - 1) as nat, e, t) + weight(k, (m - 1) as nat, n) * (b * b)
    }
}

/// The energy that a filter of `n` coefficients holds.
pub open spec fn held(k: Seq<real>, n: nat, e: spec_fn(int) -> real, t: int) -> real {
    energy(k, n, n, e, t)
}

/// Coefficients strictly inside (-1, 1).
pub open spec fn stable(k: Seq<real>, n: nat) -> bool {
    &&& k.len() >= n
    &&& forall|i: int| 0 <= i < n ==> reals::size(#[trigger] k[i]) < 1 as real
}

/// One rung: errors on its two sides differ in their squares by a factor.
proof fn lemma_rung(f: real, b: real, k: real)
    ensures
        ({
            let x = f - k * b;
            let y = b - k * f;
            &&& x * x - y * y == (1 as real - k * k) * (f * f - b * b)
            &&& x * x + y * y == (1 as real + k * k) * (f * f + b * b) - 4 as real * (k * (f * b))
        }),
{
    let kb = k * b;
    let kf = k * f;
    assert((f - kb) * (f - kb) == f * f - 2 as real * (f * kb) + kb * kb) by (nonlinear_arith);
    assert((b - kf) * (b - kf) == b * b - 2 as real * (b * kf) + kf * kf) by (nonlinear_arith);
    assert(f * (k * b) == k * (f * b) && b * (k * f) == k * (f * b)) by (nonlinear_arith);
    assert((k * b) * (k * b) == (k * k) * (b * b) && (k * f) * (k * f) == (k * k) * (f * f))
        by (nonlinear_arith);
    let kk = k * k;
    let ff = f * f;
    let bb = b * b;
    assert((1 as real - kk) * (ff - bb) == ff - bb - kk * ff + kk * bb) by (nonlinear_arith);
    assert((1 as real + kk) * (ff + bb) == ff + bb + kk * ff + kk * bb) by (nonlinear_arith);
}

/// The balance of the first `m` rungs.
proof fn lemma_balance(k: Seq<real>, n: nat, m: nat, e: spec_fn(int) -> real, t: int)
    requires
        m <= n,
    ensures
        ({
            let f = forward(k, m, e, t);
            let b = backward(k, m, e, t);
            energy(k, n, m, e, t) - energy(k, n, m, e, t - 1) == weight(k, m, n) * (f * f - b * b)
        }),
    decreases m,
{
    if m == 0 {
        let x = e(t);
        let w = weight(k, 0, n);
        assert(w * (x * x - x * x) == 0 as real) by (nonlinear_arith);
    } else {
        let l = (m - 1) as nat;
        lemma_balance(k, n, l, e, t);
        let f = forward(k, l, e, t);
        let now = backward(k, l, e, t);
        let b = backward(k, l, e, t - 1);
        let c = k[m - 1];
        let w = weight(k, l, n);
        let above = weight(k, m, n);
        lemma_rung(f, b, c);
        let ff = f * f;
        let nn = now * now;
        let bb = b * b;
        assert(w * (ff - nn) + w * nn - w * bb == w * (ff - bb)) by (nonlinear_arith);
        let d = 1 as real - c * c;
        let g = ff - bb;
        assert((d * above) * g == above * (d * g)) by (nonlinear_arith);
    }
}

/// The balance of a filter: what it holds changes by what drives it, less
/// what leaves it.
pub proof fn law_energy_balance(k: Seq<real>, n: nat, e: spec_fn(int) -> real, t: int)
    ensures
        ({
            let f = forward(k, n, e, t);
            let b = backward(k, n, e, t);
            held(k, n, e, t) == held(k, n, e, t - 1) + f * f - b * b
        }),
{
    lemma_balance(k, n, n, e, t);
    let f = forward(k, n, e, t);
    let b = backward(k, n, e, t);
    let x = f * f - b * b;
    assert(1 as real * x == x) by (nonlinear_arith);
}

/// A square is not negative.
proof fn lemma_square(x: real)
    ensures
        x * x >= 0 as real,
{
    assert(x * x >= 0 as real) by (nonlinear_arith);
}

/// The weights of a stable filter are positive.
proof fn lemma_weight(k: Seq<real>, m: nat, n: nat)
    requires
        stable(k, n),
    ensures
        weight(k, m, n) > 0 as real,
    decreases n - m,
{
    if m < n {
        lemma_weight(k, (m + 1) as nat, n);
        let c = k[m as int];
        assert(reals::size(c) < 1 as real);
        let w = weight(k, (m + 1) as nat, n);
        lemma_inside(c);
        let d = 1 as real - c * c;
        assert(d * w > 0 as real) by (nonlinear_arith)
            requires
                d > 0 as real,
                w > 0 as real,
        ;
    }
}

/// The square of a coefficient inside (-1, 1) is below one.
proof fn lemma_inside(c: real)
    requires
        reals::size(c) < 1 as real,
    ensures
        c * c < 1 as real,
        reals::size(c) * reals::size(c) == c * c,
{
    reals::lemma_size_product(c, c);
    lemma_square(c);
    let s = reals::size(c);
    assert(s * s < 1 as real) by (nonlinear_arith)
        requires
            s < 1 as real,
            s >= 0 as real,
    ;
}

/// What a stable filter holds is not negative.
pub proof fn lemma_energy(k: Seq<real>, n: nat, m: nat, e: spec_fn(int) -> real, t: int)
    requires
        stable(k, n),
        m <= n,
    ensures
        energy(k, n, m, e, t) >= 0 as real,
    decreases m,
{
    if m > 0 {
        let l = (m - 1) as nat;
        lemma_energy(k, n, l, e, t);
        lemma_weight(k, l, n);
        let b = backward(k, l, e, t);
        lemma_square(b);
        let w = weight(k, l, n);
        let bb = b * b;
        assert(w * bb >= 0 as real) by (nonlinear_arith)
            requires
                w > 0 as real,
                bb >= 0 as real,
        ;
    }
}

/// What drove a filter from time 1 to `n`.
pub open spec fn driven(k: Seq<real>, n: nat, e: spec_fn(int) -> real, to: nat) -> real {
    sums::sum(|t: int| forward(k, n, e, t) * forward(k, n, e, t), to)
}

/// The balance over time.
proof fn lemma_total(k: Seq<real>, n: nat, e: spec_fn(int) -> real, to: nat)
    ensures
        held(k, n, e, to as int) == held(k, n, e, 0) + driven(k, n, e, to) - sums::sum(
            |t: int| backward(k, n, e, t) * backward(k, n, e, t),
            to,
        ),
    decreases to,
{
    if to > 0 {
        lemma_total(k, n, e, (to - 1) as nat);
        law_energy_balance(k, n, e, to as int);
    }
}

/// Between two times a filter gains no more than drove it.
proof fn lemma_gain_in_time(k: Seq<real>, n: nat, e: spec_fn(int) -> real, from: nat, to: nat)
    requires
        from <= to,
    ensures
        held(k, n, e, to as int) <= held(k, n, e, from as int) + driven(k, n, e, to) - driven(
            k,
            n,
            e,
            from,
        ),
    decreases to,
{
    if from < to {
        lemma_gain_in_time(k, n, e, from, (to - 1) as nat);
        law_energy_balance(k, n, e, to as int);
        lemma_square(backward(k, n, e, to as int));
    }
}

/// A difference that nothing drives never grows: what a stable filter holds
/// at any time is at most what it held at the start and what drove it since.
pub proof fn law_energy_never_grows(k: Seq<real>, n: nat, e: spec_fn(int) -> real, to: nat)
    requires
        stable(k, n),
    ensures
        0 as real <= held(k, n, e, to as int) <= held(k, n, e, 0) + driven(k, n, e, to),
{
    lemma_gain_in_time(k, n, e, 0, to);
    lemma_energy(k, n, n, e, to as int);
}

/// How much wider than one rung the next can be: (1 + |k|) / (1 - |k|), over
/// all coefficients from `m` on.
pub open spec fn opening(k: Seq<real>, m: nat, n: nat) -> real
    decreases n - m,
{
    if m >= n {
        1 as real
    } else {
        let c = reals::size(k[m as int]);
        (1 as real + c) / (1 as real - c) * opening(k, (m + 1) as nat, n)
    }
}

/// The openings of the first `m` rungs together.
pub open spec fn openings(k: Seq<real>, m: nat, n: nat) -> real
    decreases m,
{
    if m == 0 {
        0 as real
    } else {
        openings(k, (m - 1) as nat, n) + opening(k, (m - 1) as nat, n)
    }
}

/// The product of the squares of one less the size of each coefficient.
spec fn narrowing(k: Seq<real>, m: nat, n: nat) -> real
    decreases n - m,
{
    if m >= n {
        1 as real
    } else {
        let c = 1 as real - reals::size(k[m as int]);
        (c * c) * narrowing(k, (m + 1) as nat, n)
    }
}

/// Weight, opening and narrowing of a rung.
proof fn lemma_opening(k: Seq<real>, m: nat, n: nat)
    requires
        stable(k, n),
    ensures
        narrowing(k, m, n) > 0 as real,
        opening(k, m, n) > 0 as real,
        weight(k, m, n) == opening(k, m, n) * narrowing(k, m, n),
    decreases n - m,
{
    if m < n {
        lemma_opening(k, (m + 1) as nat, n);
        let x = k[m as int];
        assert(reals::size(x) < 1 as real);
        lemma_inside(x);
        let s = reals::size(x);
        let up = 1 as real + s;
        let c = 1 as real - s;
        let q = up / c;
        assert(q * c == up) by (nonlinear_arith)
            requires
                q == up / c,
                c > 0 as real,
        ;
        assert(q > 0 as real) by (nonlinear_arith)
            requires
                q * c == up,
                c > 0 as real,
                up > 0 as real,
        ;
        let o = opening(k, (m + 1) as nat, n);
        let a = narrowing(k, (m + 1) as nat, n);
        let cc = c * c;
        assert(cc > 0 as real) by (nonlinear_arith)
            requires
                cc == c * c,
                c > 0 as real,
        ;
        assert(q * o > 0 as real) by (nonlinear_arith)
            requires
                q > 0 as real,
                o > 0 as real,
        ;
        assert(cc * a > 0 as real) by (nonlinear_arith)
            requires
                cc > 0 as real,
                a > 0 as real,
        ;
        assert((q * o) * (cc * a) == (q * cc) * (o * a)) by (nonlinear_arith);
        assert(q * (c * c) == (q * c) * c) by (nonlinear_arith);
        assert((1 as real + s) * (1 as real - s) == 1 as real - s * s) by (nonlinear_arith);
    } else {
        assert(1 as real * (1 as real) == 1 as real);
    }
}

/// One rung keeps at least a share of the squares on its other side.
proof fn lemma_narrow(f: real, b: real, k: real)
    requires
        reals::size(k) < 1 as real,
    ensures
        ({
            let x = f - k * b;
            let y = b - k * f;
            let c = 1 as real - reals::size(k);
            (c * c) * (f * f + b * b) <= x * x + y * y
        }),
{
    lemma_rung(f, b, k);
    lemma_inside(k);
    let s = reals::size(k);
    let fb = f * b;
    let q = f * f + b * b;
    // Twice the size of a product is at most the squares.
    assert((f - b) * (f - b) == f * f + b * b - 2 as real * (f * b)) by (nonlinear_arith);
    assert((f + b) * (f + b) == f * f + b * b + 2 as real * (f * b)) by (nonlinear_arith);
    lemma_square(f - b);
    lemma_square(f + b);
    reals::lemma_size_product(k, fb);
    let p = reals::size(fb);
    assert(2 as real * p <= q);
    let pp = 2 as real * p;
    assert(s * pp <= s * q) by (nonlinear_arith)
        requires
            pp <= q,
            s >= 0 as real,
    ;
    assert(s * (2 as real * p) == 2 as real * (s * p)) by (nonlinear_arith);
    let kk = k * k;
    assert((1 as real - s) * (1 as real - s) == 1 as real - 2 as real * s + s * s)
        by (nonlinear_arith);
    assert((1 as real - 2 as real * s + kk) * q == q - 2 as real * (s * q) + kk * q)
        by (nonlinear_arith);
    assert((1 as real + kk) * q == q + kk * q) by (nonlinear_arith);
}

/// Squares over time, one rung further in.
proof fn lemma_inward(k: Seq<real>, n: nat, m: nat, e: spec_fn(int) -> real, to: nat)
    requires
        stable(k, n),
        m < n,
    ensures
        ({
            let c = 1 as real - reals::size(k[m as int]);
            (c * c) * sums::sum(|t: int| squares(k, m, e, t), to) <= sums::sum(
                |t: int| squares(k, (m + 1) as nat, e, t),
                (to + 1) as nat,
            )
        }),
{
    let x = k[m as int];
    assert(reals::size(x) < 1 as real);
    let c = 1 as real - reals::size(x);
    let cc = c * c;
    let last = (to + 1) as nat;
    let ff = |t: int| forward(k, m, e, t) * forward(k, m, e, t);
    let bb = |t: int| backward(k, m, e, t) * backward(k, m, e, t);
    let past = |t: int| bb(t - 1);
    let inner = |t: int| past(t) + 1 as real * ff(t);
    let outer = |t: int| squares(k, (m + 1) as nat, e, t);
    let zero = |t: int| 0 as real;
    let scaled = |t: int| zero(t) + cc * inner(t);
    let rest = |t: int| outer(t) + (-(1 as real)) * scaled(t);
    sums::lemma_linear(past, ff, 1 as real, last);
    sums::lemma_constant(0 as real, last);
    sums::lemma_linear(zero, inner, cc, last);
    sums::lemma_linear(outer, scaled, -(1 as real), last);
    assert forall|t: int| 1 <= t <= last implies #[trigger] rest(t) >= 0 as real by {
        let f = forward(k, m, e, t);
        let b = backward(k, m, e, t - 1);
        lemma_narrow(f, b, x);
        let i = inner(t);
        assert(i == f * f + b * b);
        assert((-(1 as real)) * (cc * i) == -(cc * i)) by (nonlinear_arith);
    }
    sums::lemma_grows(rest, 0, last);
    let all = sums::sum(inner, last);
    assert(cc * all <= sums::sum(outer, last)) by {
        let s = sums::sum(scaled, last);
        assert((-(1 as real)) * s == -s) by (nonlinear_arith);
        assert(last as real * (0 as real) == 0 as real) by (nonlinear_arith);
    }
    // The shifted sum holds one square more at the start.
    sums::lemma_front(past, last);
    sums::lemma_same(|j: int| past(j + 1), bb, to);
    lemma_square(backward(k, m, e, 0));
    lemma_square(forward(k, m, e, last as int));
    let both = |t: int| bb(t) + 1 as real * ff(t);
    sums::lemma_linear(bb, ff, 1 as real, to);
    let mine = |t: int| squares(k, m, e, t);
    sums::lemma_same(mine, both, to);
    let sf = sums::sum(ff, last);
    let st = sums::sum(ff, to);
    assert(1 as real * sf == sf && 1 as real * st == st) by (nonlinear_arith);
    let less = sums::sum(mine, to);
    assert(less <= all);
    assert(cc >= 0 as real) by {
        lemma_square(c);
    }
    assert(cc * less <= cc * all) by (nonlinear_arith)
        requires
            less <= all,
            cc >= 0 as real,
    ;
}

/// Squares over time, all the way in to rung `m`.
proof fn lemma_all_inward(k: Seq<real>, n: nat, m: nat, e: spec_fn(int) -> real, to: nat)
    requires
        stable(k, n),
        m <= n,
    ensures
        narrowing(k, m, n) * sums::sum(|t: int| squares(k, m, e, t), to) <= sums::sum(
            |t: int| squares(k, n, e, t),
            (to + n - m) as nat,
        ),
    decreases n - m,
{
    let x = sums::sum(|t: int| squares(k, m, e, t), to);
    if m == n {
        assert(1 as real * x == x) by (nonlinear_arith);
    } else {
        let next = (m + 1) as nat;
        lemma_inward(k, n, m, e, to);
        lemma_all_inward(k, n, next, e, (to + 1) as nat);
        lemma_opening(k, next, n);
        let c = 1 as real - reals::size(k[m as int]);
        let cc = c * c;
        let a = narrowing(k, next, n);
        let y = sums::sum(|t: int| squares(k, next, e, t), (to + 1) as nat);
        let cx = cc * x;
        assert(a * cx <= a * y) by (nonlinear_arith)
            requires
                cx <= y,
                a > 0 as real,
        ;
        assert((cc * a) * x == a * (cc * x)) by (nonlinear_arith);
        assert(to + 1 + n - next == to + n - m);
    }
}

/// The energies of the first `m` rungs over time.
proof fn lemma_energies(k: Seq<real>, n: nat, m: nat, e: spec_fn(int) -> real, to: nat)
    requires
        stable(k, n),
        m <= n,
    ensures
        sums::sum(|t: int| energy(k, n, m, e, t), to) <= openings(k, m, n) * sums::sum(
            |t: int| squares(k, n, e, t),
            (to + n) as nat,
        ),
    decreases m,
{
    let all = |t: int| squares(k, n, e, t);
    let total = sums::sum(all, (to + n) as nat);
    if m == 0 {
        let none = |t: int| energy(k, n, 0, e, t);
        let zero = |t: int| 0 as real;
        sums::lemma_same(none, zero, to);
        sums::lemma_constant(0 as real, to);
        assert(to as real * (0 as real) == 0 as real && 0 as real * total == 0 as real)
            by (nonlinear_arith);
    } else {
        let l = (m - 1) as nat;
        lemma_energies(k, n, l, e, to);
        lemma_all_inward(k, n, l, e, to);
        lemma_opening(k, l, n);
        let w = weight(k, l, n);
        let o = opening(k, l, n);
        let a = narrowing(k, l, n);
        let before = |t: int| energy(k, n, l, e, t);
        let bb = |t: int| backward(k, l, e, t) * backward(k, l, e, t);
        let ff = |t: int| forward(k, l, e, t) * forward(k, l, e, t);
        let now = |t: int| before(t) + w * bb(t);
        sums::lemma_linear(before, bb, w, to);
        sums::lemma_same(|t: int| energy(k, n, m, e, t), now, to);
        // Backward squares are at most both squares.
        let both = |t: int| bb(t) + 1 as real * ff(t);
        let mine = |t: int| squares(k, l, e, t);
        sums::lemma_linear(bb, ff, 1 as real, to);
        sums::lemma_same(mine, both, to);
        assert forall|t: int| 1 <= t <= to implies #[trigger] ff(t) >= 0 as real by {
            lemma_square(forward(k, l, e, t));
        }
        sums::lemma_grows(ff, 0, to);
        let sf = sums::sum(ff, to);
        assert(1 as real * sf == sf) by (nonlinear_arith);
        let sb = sums::sum(bb, to);
        let sm = sums::sum(mine, to);
        assert(sb <= sm);
        // The narrow sum ends before the whole one does.
        assert forall|t: int| 1 <= t <= to + n implies #[trigger] all(t) >= 0 as real by {
            lemma_square(forward(k, n, e, t));
            lemma_square(backward(k, n, e, t));
        }
        sums::lemma_grows(all, (to + n - l) as nat, (to + n) as nat);
        let am = a * sm;
        assert(am <= total);
        assert(o * am <= o * total) by (nonlinear_arith)
            requires
                am <= total,
                o > 0 as real,
        ;
        assert((o * a) * sm == o * (a * sm)) by (nonlinear_arith);
        lemma_weight(k, l, n);
        assert(w * sb <= w * sm) by (nonlinear_arith)
            requires
                sb <= sm,
                w > 0 as real,
        ;
        let q = openings(k, l, n);
        assert((q + o) * total == q * total + o * total) by (nonlinear_arith);
    }
}

/// Old state is forgotten: what a stable filter holds falls as time passes.
/// After `n + to` samples it is at most the start's energy, and twice what
/// drove the filter since, times the openings of the filter over `to`, and
/// what drove it since.
pub proof fn law_energy_falls(k: Seq<real>, n: nat, e: spec_fn(int) -> real, to: nat)
    requires
        stable(k, n),
    ensures
        ({
            let end = (to + n) as nat;
            let drive = driven(k, n, e, end);
            to as real * held(k, n, e, end as int) <= openings(k, n, n) * (held(k, n, e, 0)
                + 2 as real * drive) + to as real * drive
        }),
{
    let end = (to + n) as nat;
    let drive = driven(k, n, e, end);
    let last = held(k, n, e, end as int);
    lemma_energies(k, n, n, e, to);
    lemma_total(k, n, e, end);
    lemma_energy(k, n, n, e, end as int);
    // All squares at the last rung.
    let ff = |t: int| forward(k, n, e, t) * forward(k, n, e, t);
    let bb = |t: int| backward(k, n, e, t) * backward(k, n, e, t);
    let both = |t: int| bb(t) + 1 as real * ff(t);
    let all = |t: int| squares(k, n, e, t);
    sums::lemma_linear(bb, ff, 1 as real, end);
    sums::lemma_same(all, both, end);
    let sf = sums::sum(ff, end);
    assert(1 as real * sf == sf) by (nonlinear_arith);
    assert(driven(k, n, e, end) == sf);
    let total = sums::sum(all, end);
    let start = held(k, n, e, 0) + 2 as real * drive;
    assert(total <= start);
    lemma_openings(k, n, n);
    let q = openings(k, n, n);
    assert(q * total <= q * start) by (nonlinear_arith)
        requires
            total <= start,
            q >= 0 as real,
    ;
    // The last energy is at most every earlier one and the drive.
    let h = |t: int| held(k, n, e, t);
    let flat = |t: int| last - drive;
    let rest = |t: int| h(t) + (-(1 as real)) * flat(t);
    assert forall|t: int| 1 <= t <= to implies #[trigger] rest(t) >= 0 as real by {
        lemma_gain_in_time(k, n, e, t as nat, end);
        lemma_driven(k, n, e, t as nat);
        let y = flat(t);
        assert((-(1 as real)) * y == -y) by (nonlinear_arith);
    }
    sums::lemma_linear(h, flat, -(1 as real), to);
    sums::lemma_grows(rest, 0, to);
    sums::lemma_constant(last - drive, to);
    let sl = sums::sum(flat, to);
    assert((-(1 as real)) * sl == -sl) by (nonlinear_arith);
    let n_t = to as real;
    assert(n_t * (last - drive) == n_t * last - n_t * drive) by (nonlinear_arith);
    sums::lemma_same(h, |t: int| energy(k, n, n, e, t), to);
}

/// Openings are not negative.
pub proof fn lemma_openings(k: Seq<real>, m: nat, n: nat)
    requires
        stable(k, n),
    ensures
        openings(k, m, n) >= 0 as real,
    decreases m,
{
    if m > 0 {
        lemma_openings(k, (m - 1) as nat, n);
        lemma_opening(k, (m - 1) as nat, n);
    }
}

/// What drove a filter is not negative.
proof fn lemma_driven(k: Seq<real>, n: nat, e: spec_fn(int) -> real, to: nat)
    ensures
        driven(k, n, e, to) >= 0 as real,
{
    let ff = |t: int| forward(k, n, e, t) * forward(k, n, e, t);
    assert forall|t: int| 1 <= t <= to implies #[trigger] ff(t) >= 0 as real by {
        lemma_square(forward(k, n, e, t));
    }
    sums::lemma_grows(ff, 0, to);
}

/// Coefficient `j` of the predictor that `m` reflection coefficients give,
/// over the reals.
pub open spec fn exact(k: Seq<real>, m: nat, j: int) -> real
    decreases m,
{
    if m == 0 {
        0 as real
    } else if j == m {
        k[m - 1]
    } else {
        exact(k, (m - 1) as nat, j) - k[m - 1] * exact(k, (m - 1) as nat, m - j)
    }
}

/// The ladder's errors in direct form: what the predictor leaves of the
/// newest value, and of the oldest one.
pub proof fn lemma_direct(k: Seq<real>, m: nat, e: spec_fn(int) -> real, t: int)
    ensures
        forward(k, m, e, t) == e(t) - sums::sum(|j: int| exact(k, m, j) * e(t - j), m),
        backward(k, m, e, t) == e(t - m) - sums::sum(|j: int| exact(k, m, j) * e(t - m + j), m),
    decreases m,
{
    if m > 0 {
        let l = (m - 1) as nat;
        let c = k[m - 1];
        lemma_direct(k, l, e, t);
        lemma_direct(k, l, e, t - 1);
        // Towards the past, and back towards the present.
        let f = |j: int| exact(k, l, j) * e(t - j);
        let b = |j: int| exact(k, l, j) * e(t - m + j);
        let rf = |j: int| f(l + 1 - j);
        let rb = |j: int| b(l + 1 - j);
        sums::lemma_reverse(f, l);
        sums::lemma_reverse(b, l);
        let older = |j: int| exact(k, l, j) * e(t - 1 - l + j);
        assert forall|j: int| 1 <= j <= l implies #[trigger] older(j) == b(j) by {
            assert(t - 1 - l + j == t - m + j);
        }
        sums::lemma_same(older, b, l);
        let nf = |j: int| f(j) + (-c) * rb(j);
        let nb = |j: int| b(j) + (-c) * rf(j);
        sums::lemma_linear(f, rb, -c, l);
        sums::lemma_linear(b, rf, -c, l);
        let df = |j: int| exact(k, m, j) * e(t - j);
        let db = |j: int| exact(k, m, j) * e(t - m + j);
        assert forall|j: int| 1 <= j <= l implies #[trigger] df(j) == nf(j) by {
            let x = exact(k, l, j);
            let y = exact(k, l, m - j);
            let v = e(t - j);
            assert(rb(j) == y * v) by {
                assert(l + 1 - j == m - j);
                assert(t - m + (l + 1 - j) == t - j);
            }
            lemma_spread(x, y, c, v);
        }
        assert forall|j: int| 1 <= j <= l implies #[trigger] db(j) == nb(j) by {
            let x = exact(k, l, j);
            let y = exact(k, l, m - j);
            let v = e(t - m + j);
            assert(rf(j) == y * v) by {
                assert(l + 1 - j == m - j);
                assert(t - (l + 1 - j) == t - m + j);
            }
            lemma_spread(x, y, c, v);
        }
        sums::lemma_same(df, nf, l);
        sums::lemma_same(db, nb, l);
        let sf = sums::sum(f, l);
        let sb = sums::sum(b, l);
        let now = e(t);
        let then = e(t - m);
        assert(t - 1 - l == t - m);
        assert(t - m + m == t);
        assert(c * (then - sb) == c * then - c * sb && (-c) * sb == -(c * sb)) by (nonlinear_arith);
        assert(c * (now - sf) == c * now - c * sf && (-c) * sf == -(c * sf)) by (nonlinear_arith);
        assert(df(m as int) == c * then);
        assert(db(m as int) == c * now);
        assert(sums::sum(df, m) == sums::sum(df, l) + df(m as int));
        assert(sums::sum(db, m) == sums::sum(db, l) + db(m as int));
    }
}

/// One coefficient of the next order, times a value.
proof fn lemma_spread(x: real, y: real, c: real, v: real)
    ensures
        (x - c * y) * v == x * v + (-c) * (y * v),
{
    let cy = c * y;
    assert((x - cy) * v == x * v - cy * v) by (nonlinear_arith);
    assert((c * y) * v == c * (y * v)) by (nonlinear_arith);
    let yv = y * v;
    assert((-c) * yv == -(c * yv)) by (nonlinear_arith);
}

/// What a filter holds bounds its newest value: the square of it, times the
/// weight of the first rung, is part of it.
pub proof fn law_energy_bounds_the_newest(k: Seq<real>, n: nat, e: spec_fn(int) -> real, t: int)
    requires
        stable(k, n),
        n > 0,
    ensures
        weight(k, 0, n) > 0 as real,
        weight(k, 0, n) * (e(t) * e(t)) <= held(k, n, e, t),
{
    lemma_weight(k, 0, n);
    lemma_first_rung(k, n, n, e, t);
}

proof fn lemma_first_rung(k: Seq<real>, n: nat, m: nat, e: spec_fn(int) -> real, t: int)
    requires
        stable(k, n),
        0 < m <= n,
    ensures
        weight(k, 0, n) * (e(t) * e(t)) <= energy(k, n, m, e, t),
    decreases m,
{
    let l = (m - 1) as nat;
    let b = backward(k, l, e, t);
    if l == 0 {
        assert(energy(k, n, 0, e, t) == 0 as real);
        assert(b == e(t));
    } else {
        lemma_first_rung(k, n, l, e, t);
        lemma_weight(k, l, n);
        lemma_square(b);
        let w = weight(k, l, n);
        let bb = b * b;
        assert(w * bb >= 0 as real) by (nonlinear_arith)
            requires
                w > 0 as real,
                bb >= 0 as real,
        ;
    }
}

/// Errors depend on the latest values alone.
proof fn lemma_latest(
    k: Seq<real>,
    m: nat,
    e: spec_fn(int) -> real,
    t: int,
    f: spec_fn(int) -> real,
    s: int,
)
    requires
        forall|j: int| 0 <= j <= m ==> #[trigger] e(t - j) == f(s - j),
    ensures
        errors(k, m, e, t) == errors(k, m, f, s),
    decreases m,
{
    assert(e(t - 0) == f(s - 0));
    if m > 0 {
        let l = (m - 1) as nat;
        lemma_latest(k, l, e, t, f, s);
        assert forall|j: int| 0 <= j <= l implies #[trigger] e(t - 1 - j) == f(s - 1 - j) by {
            assert(e(t - (j + 1)) == f(s - (j + 1)));
            assert(t - 1 - j == t - (j + 1) && s - 1 - j == s - (j + 1));
        }
        lemma_latest(k, l, e, t - 1, f, s - 1);
    }
}

/// What a filter holds depends on its latest values alone.
pub proof fn lemma_held_latest(
    k: Seq<real>,
    n: nat,
    m: nat,
    e: spec_fn(int) -> real,
    t: int,
    f: spec_fn(int) -> real,
    s: int,
)
    requires
        m <= n,
        forall|j: int| 0 <= j < n ==> #[trigger] e(t - j) == f(s - j),
    ensures
        energy(k, n, m, e, t) == energy(k, n, m, f, s),
    decreases m,
{
    if m > 0 {
        let l = (m - 1) as nat;
        lemma_held_latest(k, n, l, e, t, f, s);
        lemma_latest(k, l, e, t, f, s);
    }
}

} // verus!
