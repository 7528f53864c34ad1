//! A voice that repeats is heard at the pitch at which it repeats.
use crate::binary32::Binary32;
use crate::lpc10::analysis;
use crate::lpc10::analysis::{Listener, SUBMULTIPLE_MARGIN};
use crate::lpc10::hearing;
use crate::lpc10::likeness;
use crate::lpc10::period;
use crate::lpc10::soundness;
use crate::lpc10::{FRAME_SAMPLES, HISTORY, PITCH_MAX, PITCH_MIN};
use crate::reals;
use vstd::arithmetic::div_mod::*;
use vstd::prelude::*;

verus! {

/// Whether a history repeats every `t` samples.
pub open spec fn repeats(h: Seq<Binary32>, t: int) -> bool {
    forall|j: int| 0 <= j && j + t < HISTORY ==> #[trigger] h[j] == h[j + t]
}

/// Whether a signal correlates clearly less at lags that are not multiples of
/// `t` than at `t`: the square of its normalised correlation there is at most
/// half of what it is at `t`, which is at least a quarter. The last two lags
/// reach the first samples of the history, which are smoothed over fewer
/// neighbours; there a multiple of `t` correlates no better by more than a
/// third of the square.
pub open spec fn distinct(s: Seq<Binary32>, t: int) -> bool {
    let c = likeness::cross(s, t);
    let d = likeness::power(s, t);
    &&& c > 0 as real
    &&& likeness::power(s, 0) * d <= 4 as real * (c * c)
    &&& forall|lag: int|
        PITCH_MIN <= lag <= PITCH_MAX && lag % t != 0 ==> {
            let x = #[trigger] likeness::cross(s, lag);
            x <= 0 as real || 2 as real * ((x * x) * d) <= (c * c) * likeness::power(s, lag)
        }
    &&& forall|lag: int|
        155 <= lag <= PITCH_MAX && lag % t == 0 ==> {
            let x = #[trigger] likeness::cross(s, lag);
            x <= 0 as real || 3 as real * ((x * x) * d) <= 4 as real * ((c * c) * likeness::power(
                s,
                lag,
            ))
        }
}

/// Smoothing keeps what repeats, away from the ends of the history.
#[verifier::spinoff_prover]
proof fn lemma_smoothed(h: Seq<Binary32>, t: int, i: int)
    requires
        h.len() == HISTORY,
        repeats(h, t),
        t >= 1,
        2 <= i,
        i + t <= 333,
    ensures
        analysis::smoothed(h)[i] == analysis::smoothed(h)[i + t],
{
    assert(h[i - 2] == h[i - 2 + t]);
    assert(h[i - 1] == h[i - 1 + t]);
    assert(h[i] == h[i + t]);
    assert(h[i + 1] == h[i + 1 + t]);
    assert(h[i + 2] == h[i + 2 + t]);
    let j = i + t;
    assert(h[j - 2] == h[i - 2] && h[j - 1] == h[i - 1] && h[j] == h[i] && h[j + 1] == h[i + 1]
        && h[j + 2] == h[i + 2]);
    assert(analysis::smoothed_at(h, i) == analysis::smoothed_at(h, j));
}

/// Any number of periods on.
#[verifier::spinoff_prover]
proof fn lemma_smoothed_on(h: Seq<Binary32>, t: int, i: int, k: nat)
    requires
        h.len() == HISTORY,
        repeats(h, t),
        t >= 1,
        2 <= i,
        i + k * t <= 333,
    ensures
        analysis::smoothed(h)[i] == analysis::smoothed(h)[i + k * t],
    decreases k,
{
    if k == 0 {
        assert(0 * t == 0) by (nonlinear_arith);
    } else {
        let m = (k - 1) as nat;
        assert(k * t == m * t + t && m * t >= 0) by (nonlinear_arith)
            requires
                k == m + 1,
                t >= 1,
                m >= 0,
        ;
        lemma_smoothed_on(h, t, i, m);
        lemma_smoothed(h, t, i + m * t);
    }
}

/// Sums over equal stretches are equal.
#[verifier::spinoff_prover]
proof fn lemma_same_sums(
    s: Seq<Binary32>,
    a: int,
    b: int,
    c: int,
    d: int,
    n: nat,
    start: Binary32,
)
    requires
        forall|k: int| 0 <= k < n ==> #[trigger] s[a + k] == s[b + k],
        forall|k: int| 0 <= k < n ==> #[trigger] s[c + k] == s[d + k],
    ensures
        analysis::sum_products(s, a, s, c, n, start) == analysis::sum_products(
            s,
            b,
            s,
            d,
            n,
            start,
        ),
    decreases n,
{
    if n > 0 {
        lemma_same_sums(s, a, b, c, d, (n - 1) as nat, start);
        assert(s[a + (n - 1)] == s[b + (n - 1)]);
        assert(s[c + (n - 1)] == s[d + (n - 1)]);
    }
}

/// Multiples of the period score the same.
#[verifier::spinoff_prover]
proof fn lemma_multiples(h: Seq<Binary32>, t: int, k: nat)
    requires
        h.len() == HISTORY,
        repeats(h, t),
        PITCH_MIN <= t,
        k >= 1,
        k * t <= 154,
    ensures
        analysis::score(analysis::smoothed(h), k * t) == analysis::score(
            analysis::smoothed(h),
            t,
        ),
{
    let s = analysis::smoothed(h);
    let m = (k - 1) as nat;
    let p = 156 - k * t;
    let q = 156 - t;
    assert(k * t == m * t + t && m * t >= 0) by (nonlinear_arith)
        requires
            k == m + 1,
            t >= 1,
            m >= 0,
    ;
    assert forall|j: int| 0 <= j < 180 implies #[trigger] s[p + j] == s[q + j] by {
        lemma_smoothed_on(h, t, p + j, m);
    }
    assert forall|j: int| 0 <= j < 180 implies #[trigger] s[156 + j] == s[156 + j] by {}
    lemma_same_sums(s, 156, 156, p, q, 180, analysis::zero());
    lemma_same_sums(s, p, q, p, q, 180, analysis::zero());
}

/// Cancelling a positive factor.
#[verifier::spinoff_prover]
proof fn lemma_cancel(a: real, b: real, k: real)
    requires
        a * k <= b * k,
        k > 0 as real,
    ensures
        a <= b,
{
    assert(a <= b) by (nonlinear_arith)
        requires
            a * k <= b * k,
            k > 0 as real,
    ;
}

#[verifier::spinoff_prover]
proof fn lemma_three(p: real, a: real, b: real, c: real)
    ensures
        p * ((a * b) * c) == (p * b) * (a * c),
{
    assert(p * ((a * b) * c) == (p * b) * (a * c)) by (nonlinear_arith);
}

#[verifier::spinoff_prover]
proof fn lemma_pairs(a: real, b: real)
    ensures
        (a * b) * (a * b) == (a * a) * (b * b),
{
    assert((a * b) * (a * b) == (a * a) * (b * b)) by (nonlinear_arith);
}

/// Squares of numbers in order.
#[verifier::spinoff_prover]
proof fn lemma_squares(x: real, y: real)
    requires
        0 as real <= x <= y,
    ensures
        x * x <= y * y,
{
    likeness::lemma_times(x, y, x);
    likeness::lemma_times(x, y, y);
}

/// Two normalised correlations, compared by their exact sums: `x` and `c` are
/// the sums, `dx` and `dc` the energies, `g` and `k` the roots, `u` and `v` at
/// most and at least the normalised correlations.
#[verifier::spinoff_prover]
proof fn lemma_compare(
    p: real,
    q: real,
    e: real,
    x: real,
    dx: real,
    g: real,
    u: real,
    c: real,
    dc: real,
    k: real,
    v: real,
)
    requires
        p > 0 as real,
        q > 0 as real,
        e >= 1 as real,
        dx >= 1 as real,
        dc >= 1 as real,
        g > 0 as real,
        k > 0 as real,
        u >= 0 as real,
        v >= 0 as real,
        c >= 0 as real,
        g * u <= x,
        c <= k * v,
        10_000 as real * (g * g) >= 9_998 as real * (e * dx),
        10_000 as real * (k * k) <= 10_002 as real * (e * dc),
        p * ((x * x) * dc) <= q * ((c * c) * dx),
    ensures
        9_998 as real * (p * (u * u)) <= 10_002 as real * (q * (v * v)),
{
    let uu = u * u;
    let vv = v * v;
    let gg = g * g;
    let kk = k * k;
    let ex = e * dx;
    let ec = e * dc;
    crate::exponential::lemma_product_sign(g, u);
    crate::exponential::lemma_product_sign(u, u);
    crate::exponential::lemma_product_sign(v, v);
    lemma_squares(g * u, x);
    lemma_squares(c, k * v);
    lemma_pairs(g, u);
    lemma_pairs(k, v);
    // The left side, smaller and smaller.
    likeness::lemma_times(gg * uu, x * x, dc);
    likeness::lemma_times((gg * uu) * dc, (x * x) * dc, p);
    likeness::lemma_times(c * c, kk * vv, dx);
    likeness::lemma_times((c * c) * dx, (kk * vv) * dx, q);
    lemma_three(p, gg, uu, dc);
    lemma_three(q, kk, vv, dx);
    // p uu (gg dc) <= q vv (kk dx)
    crate::exponential::lemma_product_sign(p, uu);
    crate::exponential::lemma_product_sign(q, vv);
    let a = p * uu;
    let b = q * vv;
    let all = ex * dc;
    likeness::lemma_times(9_998 as real * ex, 10_000 as real * gg, dc);
    likeness::lemma_times(10_000 as real * kk, 10_002 as real * ec, dx);
    lemma_common(e, dx, dc);
    lemma_scaled(9_998 as real, ex, dc);
    lemma_scaled(10_000 as real, gg, dc);
    lemma_scaled(10_000 as real, kk, dx);
    lemma_scaled(10_002 as real, ec, dx);
    likeness::lemma_times(9_998 as real * all, 10_000 as real * (gg * dc), a);
    likeness::lemma_times(10_000 as real * (kk * dx), 10_002 as real * all, b);
    lemma_moved(a, 9_998 as real, all);
    lemma_moved(a, 10_000 as real, gg * dc);
    lemma_moved(b, 10_000 as real, kk * dx);
    lemma_moved(b, 10_002 as real, all);
    lemma_cancel(9_998 as real * a, 10_002 as real * b, all);
}

#[verifier::spinoff_prover]
proof fn lemma_common(e: real, a: real, b: real)
    requires
        e >= 1 as real,
        a >= 1 as real,
        b >= 1 as real,
    ensures
        (e * a) * b == (e * b) * a,
        (e * a) * b > 0 as real,
{
    assert((e * a) * b == (e * b) * a) by (nonlinear_arith);
    assert(e * a > 0 as real) by (nonlinear_arith)
        requires
            e >= 1 as real,
            a >= 1 as real,
    ;
    let x = e * a;
    assert(x * b > 0 as real) by (nonlinear_arith)
        requires
            x > 0 as real,
            b >= 1 as real,
    ;
}

#[verifier::spinoff_prover]
proof fn lemma_scaled(n: real, a: real, b: real)
    ensures
        (n * a) * b == n * (a * b),
{
    assert((n * a) * b == n * (a * b)) by (nonlinear_arith);
}

#[verifier::spinoff_prover]
proof fn lemma_moved(a: real, n: real, b: real)
    ensures
        (n * b) * a == (n * a) * b,
        a * (n * b) == n * (a * b),
        (n * a) * b == n * (a * b),
{
    assert((n * b) * a == (n * a) * b && a * (n * b) == n * (a * b) && (n * a) * b == n * (a * b))
        by (nonlinear_arith);
}

/// The score at the period itself is at least a half, nearly.
#[verifier::spinoff_prover]
proof fn lemma_high(e: real, c: real, d: real, k: real, v: real)
    requires
        e >= 1 as real,
        d >= 1 as real,
        c > 0 as real,
        k > 0 as real,
        v >= 0 as real,
        c <= k * v,
        10_000 as real * (k * k) <= 10_002 as real * (e * d),
        e * d <= 4 as real * (c * c),
    ensures
        v * 100 as real >= 49 as real,
{
    lemma_squares(c, k * v);
    lemma_pairs(k, v);
    let kk = k * k;
    let vv = v * v;
    crate::exponential::lemma_product_sign(v, v);
    // e d <= 4 kk vv <= 4.0008 e d vv
    likeness::lemma_times(10_000 as real * kk, 10_002 as real * (e * d), vv);
    lemma_scaled(10_000 as real, kk, vv);
    lemma_scaled(10_002 as real, e * d, vv);
    let ed = e * d;
    likeness::lemma_times(1 as real, e, d);
    assert(1 as real * d == d) by (nonlinear_arith);
    assert(10_000 as real * ed <= 40_008 as real * (ed * vv));
    assert(ed * (40_008 as real * vv) == 40_008 as real * (ed * vv)) by (nonlinear_arith);
    assert((40_008 as real * vv) * ed == ed * (40_008 as real * vv)) by (nonlinear_arith);
    lemma_cancel(10_000 as real, 40_008 as real * vv, ed);
    let l = 49 as real / 100 as real;
    assert(l * l == 2401 as real / 10_000 as real) by (nonlinear_arith)
        requires
            l == 49 as real / 100 as real,
    ;
    likeness::lemma_square_order(l, v);
}

/// A square that is at most a part of another.
#[verifier::spinoff_prover]
proof fn lemma_part(u: real, v: real, r: real)
    requires
        v >= 0 as real,
        r >= 0 as real,
        u * u <= (r * r) * (v * v),
    ensures
        u <= r * v,
{
    lemma_pairs(r, v);
    crate::exponential::lemma_product_sign(r, v);
    likeness::lemma_square_order(u, r * v);
}

/// What a normalised correlation is between.
#[verifier::spinoff_prover]
proof fn lemma_bounds(s: Seq<Binary32>, lag: int, f: real, g: real)
    requires
        likeness::alike(s, lag, f, g),
    ensures
        g * (f - 2 as real / 10_000 as real) <= likeness::cross(s, lag),
        likeness::cross(s, lag) <= g * (f + 2 as real / 10_000 as real),
{
    let t = 2 as real / 10_000 as real;
    assert(g * (f - t) == f * g - t * g && g * (f + t) == f * g + t * g) by (nonlinear_arith);
    assert(10_000 as real * (t * g) == 2 as real * g) by (nonlinear_arith)
        requires
            t == 2 as real / 10_000 as real,
    ;
}

/// Scores at lags that are not multiples are lower by a quarter at least.
#[verifier::spinoff_prover]
proof fn lemma_lower(s: Seq<Binary32>, t: int, lag: int)
    requires
        period::lively(s),
        distinct(s, t),
        PITCH_MIN <= t <= PITCH_MAX,
        PITCH_MIN <= lag <= PITCH_MAX,
    ensures
        100 as real * period::score(s, t) >= 48 as real,
        lag % t != 0 ==> 4 as real * period::score(s, lag) <= 3 as real * period::score(s, t),
        lag >= 155 && lag % t == 0 ==> 100 as real * period::score(s, lag) <= 117 as real
            * period::score(s, t),
{
    let tiny = 2 as real / 10_000 as real;
    let e = likeness::power(s, 0);
    let x = likeness::cross(s, lag);
    let dx = likeness::power(s, lag);
    let c = likeness::cross(s, t);
    let d = likeness::power(s, t);
    assert(dx >= 1 as real && d >= 1 as real);
    let g = likeness::law_score_is_the_normalised_correlation(s, lag);
    let k = likeness::law_score_is_the_normalised_correlation(s, t);
    let f = period::score(s, lag);
    let w = period::score(s, t);
    lemma_bounds(s, lag, f, g);
    lemma_bounds(s, t, w, k);
    let u = f - tiny;
    let v = w + tiny;
    if v < 0 as real {
        likeness::lemma_times(v, 0 as real, k);
        assert(k * (0 as real) == 0 as real) by (nonlinear_arith);
    }
    lemma_high(e, c, d, k, v);
    if x <= 0 as real {
        if u > 0 as real {
            lemma_positive(g, u);
        }
    } else if u >= 0 as real {
        if lag % t != 0 {
            lemma_compare(2 as real, 1 as real, e, x, dx, g, u, c, d, k, v);
            lemma_ratio_low(u, v);
        } else if lag >= 155 {
            lemma_compare(3 as real, 4 as real, e, x, dx, g, u, c, d, k, v);
            lemma_ratio_high(u, v);
        }
    }
}

#[verifier::spinoff_prover]
proof fn lemma_positive(g: real, u: real)
    requires
        g > 0 as real,
        u > 0 as real,
    ensures
        g * u > 0 as real,
{
    assert(g * u > 0 as real) by (nonlinear_arith)
        requires
            g > 0 as real,
            u > 0 as real,
    ;
}

#[verifier::spinoff_prover]
proof fn lemma_ratio_low(u: real, v: real)
    requires
        v >= 0 as real,
        9_998 as real * (2 as real * (u * u)) <= 10_002 as real * (1 as real * (v * v)),
    ensures
        u <= 71 as real / 100 as real * v,
{
    let r = 71 as real / 100 as real;
    let vv = v * v;
    crate::exponential::lemma_product_sign(v, v);
    assert(1 as real * vv == vv) by (nonlinear_arith);
    assert(r * r == 5041 as real / 10_000 as real) by (nonlinear_arith)
        requires
            r == 71 as real / 100 as real,
    ;
    let rr = r * r;
    assert(rr * vv == 5041 as real / 10_000 as real * vv);
    lemma_part(u, v, r);
}

#[verifier::spinoff_prover]
proof fn lemma_ratio_high(u: real, v: real)
    requires
        v >= 0 as real,
        9_998 as real * (3 as real * (u * u)) <= 10_002 as real * (4 as real * (v * v)),
    ensures
        u <= 116 as real / 100 as real * v,
{
    let r = 116 as real / 100 as real;
    let vv = v * v;
    crate::exponential::lemma_product_sign(v, v);
    assert(r * r == 13_456 as real / 10_000 as real) by (nonlinear_arith)
        requires
            r == 116 as real / 100 as real,
    ;
    let rr = r * r;
    assert(rr * vv == 13_456 as real / 10_000 as real * vv);
    lemma_part(u, v, r);
}

/// The best period is a multiple of the one that repeats, and scores little
/// better.
#[verifier::spinoff_prover]
proof fn lemma_best_is_a_multiple(h: Seq<Binary32>, t: int)
    requires
        h.len() == HISTORY,
        repeats(h, t),
        PITCH_MIN <= t <= 78,
        period::lively(analysis::smoothed(h)),
        distinct(analysis::smoothed(h), t),
    ensures
        ({
            let s = analysis::smoothed(h);
            let (b, top) = analysis::best(s, (PITCH_MAX - PITCH_MIN + 1) as nat);
            &&& PITCH_MIN <= b <= PITCH_MAX
            &&& b % t == 0
            &&& top == analysis::score(s, b)
            &&& top.finite()
            &&& period::score(s, t) <= reals::num(top)
            &&& 100 as real * reals::num(top) <= 117 as real * period::score(s, t)
        }),
{
    let s = analysis::smoothed(h);
    let n = (PITCH_MAX - PITCH_MIN + 1) as nat;
    period::lemma_best(s, n);
    let (b, top) = analysis::best(s, n);
    lemma_lower(s, t, t);
    assert(period::score(s, t) <= reals::num(top));
    lemma_lower(s, t, b);
    if b % t == 0 && b <= 154 {
        let k = b / t;
        lemma_fundamental_div_mod(b, t);
        assert(k >= 1 && k * t == b) by (nonlinear_arith)
            requires
                b == t * k,
                b >= 1,
                t >= 1,
        ;
        lemma_multiples(h, t, k as nat);
    }
}

/// A smaller lag is no multiple.
#[verifier::spinoff_prover]
proof fn lemma_between(b: int, t: int, k: int, e: int)
    requires
        t >= 1,
        k >= 1,
        b == k * t,
        e > k,
        b / e >= 1,
    ensures
        (b / e) % t != 0,
{
    let q = b / e;
    assert(q < t) by (nonlinear_arith)
        requires
            q == b / e,
            b == k * t,
            e > k,
            k >= 1,
            t >= 1,
    ;
    lemma_small_mod(q as nat, t as nat);
}

/// The pitch that is analysed is the best period of the smoothed history, or
/// its shortest good submultiple, wherever the frame and every stretch that a
/// lag can reach have energy.
#[verifier::spinoff_prover]
pub proof fn law_analysed_pitch_is_the_best_period(l: Listener, frame: Seq<i16>) -> (r: (int, int))
    requires
        l.sound(),
        frame.len() == FRAME_SAMPLES,
        ({
            let s = analysis::smoothed(l.heard(frame));
            &&& likeness::power(s, 0) >= 1 as real
            &&& forall|lag: int|
                PITCH_MIN <= lag <= PITCH_MAX ==> #[trigger] likeness::power(s, lag) >= 1 as real
        }),
    ensures
        period::picked(
            analysis::smoothed(l.heard(frame)),
            l.analyzed(frame).pitch,
            reals::num(analysis::pitch(l.heard(frame)).1),
            r.0,
            r.1,
        ),
{
    let h = l.heard(frame);
    soundness::law_listener_stays_sound(l, frame);
    assert(l.after(frame).history == h);
    hearing::lemma_tame(h);
    period::law_pitch_is_the_best_period(h)
}

/// A voice that repeats every `t` samples, for a `t` up to half the longest
/// period, and correlates clearly less at other lags, is heard at the pitch
/// `t`: not at a multiple, nor at a part of it.
#[verifier::spinoff_prover]
pub proof fn law_repeating_voice_has_its_pitch(l: Listener, frame: Seq<i16>, t: int)
    requires
        l.heard(frame).len() == HISTORY,
        PITCH_MIN <= t,
        2 * t <= PITCH_MAX,
        repeats(l.heard(frame), t),
        period::lively(analysis::smoothed(l.heard(frame))),
        distinct(analysis::smoothed(l.heard(frame)), t),
    ensures
        l.analyzed(frame).pitch == t,
{
    let h = l.heard(frame);
    let s = analysis::smoothed(h);
    let n = (PITCH_MAX - PITCH_MIN + 1) as nat;
    period::lemma_awake(s);
    lemma_best_is_a_multiple(h, t);
    let (b, top) = analysis::best(s, n);
    let k = b / t;
    lemma_fundamental_div_mod(b, t);
    assert(k >= 1 && k * t == b) by (nonlinear_arith)
        requires
            b == t * k,
            b >= 1,
            t >= 1,
    ;
    let d = period::lemma_shortest(s, b, top, b / PITCH_MIN as int + 1);
    period::lemma_score(s, t);
    period::lemma_score_range(s, b);
    period::lemma_margin(top);
    let near = top.mul(Binary32::from_bits(SUBMULTIPLE_MARGIN));
    lemma_lower(s, t, t);
    assert(b / k == t) by (nonlinear_arith)
        requires
            k * t == b,
            k >= 1,
    ;
    period::lemma_order(near, analysis::score(s, t));
    if d < k {
        // t itself would have been taken.
        assert(k < b / PITCH_MIN as int + 1) by {
            period::lemma_divided_far(b, k);
        }
        assert(!near.le(analysis::score(s, b / k)));
    }
    if d > k {
        let r = b / d;
        assert(r >= 20) by (nonlinear_arith)
            requires
                r == b / d,
                1 <= d <= b / 20,
        ;
        assert(r <= b) by (nonlinear_arith)
            requires
                r == b / d,
                1 <= d,
                b >= 0,
        ;
        lemma_between(b, t, k, d);
        lemma_lower(s, t, r);
        period::lemma_score(s, r);
        period::lemma_order(near, analysis::score(s, r));
    }
}

} // verus!
