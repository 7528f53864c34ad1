//! What the analyser finds can always be sent and rendered.
//!
//! Every intermediate value of the analysis is a number whose size is known
//! in advance, because samples are 16 bits and a frame is 180 of them. That
//! rules out NaN and infinity, so the clamps that keep the filter stable see
//! numbers and do their work.
use crate::binary32::Binary32;
use crate::lpc10::analysis;
use crate::lpc10::analysis::{Listener, Recursion};
use crate::lpc10::analysis::{
    HAMMING_BASE, HAMMING_SCALE, HAMMING_SWING, LAG_WINDOW, LOG2_E, MINUS_HALF, MINUS_STABLE,
    MINUS_ZERO, PRE_EMPHASIS, STABLE, WHITE_NOISE,
};
use crate::lpc10::{Speech, FRAME_SAMPLES, HISTORY, ORDER, PITCH_MAX, PITCH_MIN};
use crate::math;
use crate::order;
use crate::reals;
use crate::rounding;
use vstd::arithmetic::power2::*;
use vstd::prelude::*;

verus! {

/// A value of the size of a sample: at most 2^15.
pub open spec fn audible(x: Binary32) -> bool {
    order::within(x, 164)
}

impl Listener {
    /// A listener that has heard 16-bit samples alone.
    pub open spec fn sound(self) -> bool {
        &&& self.history.len() == HISTORY
        &&& forall|i: int| 0 <= i < HISTORY ==> audible(#[trigger] self.history[i])
        &&& audible(self.previous)
    }
}

pub proof fn lemma_sample(s: i16)
    ensures
        audible(Binary32::of_int(s as int)),
{
    Binary32::lemma_of_int(s as int);
    lemma2_to64();
    lemma_pow2_adds(15, 149);
    let unit = pow2(149);
    assert(-(0x8000 * unit) <= s * unit <= 0x8000 * unit) by (nonlinear_arith)
        requires
            -0x8000 <= s <= 0x8000,
            unit >= 0,
    ;
}

/// A fresh listener is sound.
pub proof fn law_fresh_listener_is_sound()
    ensures
        Listener::start().sound(),
{
    rounding::lemma_magnitude_zero();
    lemma_pow2_pos(164);
}

/// Hearing samples keeps a listener sound.
pub proof fn law_listener_stays_sound(l: Listener, frame: Seq<i16>)
    requires
        l.sound(),
        frame.len() == FRAME_SAMPLES,
    ensures
        l.after(frame).sound(),
{
    let h = l.heard(frame);
    assert forall|i: int| 0 <= i < HISTORY implies audible(#[trigger] h[i]) by {
        if i < HISTORY - FRAME_SAMPLES {
            assert(h[i] == l.history[i + FRAME_SAMPLES]);
        } else {
            lemma_sample(frame[i - (HISTORY - FRAME_SAMPLES)]);
        }
    }
    lemma_sample(frame.last());
}

/// The window fades but never inverts: its values lie in [0, 2].
pub proof fn lemma_window(i: int)
    requires
        0 <= i < FRAME_SAMPLES,
    ensures
        order::within(analysis::window(i), 150),
        analysis::window(i).value() >= 0,
{
    let base = Binary32::from_bits(HAMMING_BASE);
    let swing = Binary32::from_bits(HAMMING_SWING);
    let scale = Binary32::from_bits(HAMMING_SCALE);
    let none = Binary32::from_bits(math::ZERO);
    let n = Binary32::of_int(i);
    Binary32::lemma_of_int(i);
    lemma2_to64();
    lemma_pow2_adds(8, 149);
    let unit = pow2(149);
    assert(0 <= i * unit <= 256 * unit) by (nonlinear_arith)
        requires
            0 <= i <= 256,
    ;
    order::lemma_within_bits(scale, 149);
    order::lemma_within_mul(n, scale, 157, 149);
    let x = n.mul(scale);
    math::law_cos_range(x);
    let c = math::cos(x);
    order::lemma_within_bits(base, 149);
    order::lemma_within_bits(swing, 149);
    let part = swing.mul(c);
    assert(swing.size() * c.size() <= swing.size() * unit) by (nonlinear_arith)
        requires
            c.size() <= unit,
    ;
    order::lemma_mul(swing, c, swing);
    order::lemma_finite(part, swing);
    rounding::lemma_magnitude_order(swing.pattern(), base.pattern());
    rounding::lemma_magnitude_zero();
    order::lemma_sub(base, part, none);
    order::lemma_within_add(base, part, 149);
}

/// The number of size `k` times 2^e.
spec fn multiple(k: nat, e: nat) -> Binary32 {
    Binary32::signed(false, rounding::round_ratio(k * pow2(e), 1))
}

proof fn lemma_multiple(k: nat, e: nat)
    requires
        k <= 256,
        23 <= e <= 253,
    ensures
        multiple(k, e).finite(),
        multiple(k, e).value() == k * pow2(e),
        !multiple(k, e).negative(),
{
    rounding::lemma_round_ratio_product(k, e);
    order::lemma_signed(false, rounding::round_ratio(k * pow2(e), 1));
}

/// A sum of products of bounded values is bounded.
pub proof fn lemma_sum_products(
    a: Seq<Binary32>,
    from_a: int,
    b: Seq<Binary32>,
    from_b: int,
    n: nat,
    start: Binary32,
    e: nat,
)
    requires
        n <= 256,
        start.finite(),
        start.size() == 0,
        172 <= 2 * e <= 402,
        forall|k: int| 0 <= k < n ==> order::within(#[trigger] a[from_a + k], e),
        forall|k: int| 0 <= k < n ==> order::within(#[trigger] b[from_b + k], e),
    ensures
        ({
            let s = analysis::sum_products(a, from_a, b, from_b, n, start);
            &&& s.finite()
            &&& s.size() <= n * pow2((2 * e - 149) as nat)
        }),
    decreases n,
{
    let f = (2 * e - 149) as nat;
    if n == 0 {
        assert(0 * pow2(f) == 0) by (nonlinear_arith);
    } else {
        lemma_sum_products(a, from_a, b, from_b, (n - 1) as nat, start, e);
        let s = analysis::sum_products(a, from_a, b, from_b, (n - 1) as nat, start);
        let x = a[from_a + (n - 1)];
        let y = b[from_b + (n - 1)];
        let p = x.mul(y);
        order::lemma_within_mul(x, y, e, e);
        let c = multiple(n, f);
        lemma_multiple(n, f);
        assert(n * pow2(f) == (n - 1) * pow2(f) + pow2(f)) by (nonlinear_arith);
        order::lemma_neg(c);
        order::lemma_add(s, p, c);
        order::lemma_add(s, p, c.neg());
        order::lemma_finite(s.add(p), c);
    }
}

/// Fading keeps a frame of samples bounded.
pub proof fn lemma_windowed(frame: Seq<Binary32>, previous: Binary32)
    requires
        frame.len() == FRAME_SAMPLES,
        forall|i: int| 0 <= i < FRAME_SAMPLES ==> audible(#[trigger] frame[i]),
        audible(previous),
    ensures
        analysis::windowed(frame, previous).len() == FRAME_SAMPLES,
        forall|i: int|
            0 <= i < FRAME_SAMPLES ==> order::within(
                #[trigger] analysis::windowed(frame, previous)[i],
                166,
            ),
{
    let w = analysis::windowed(frame, previous);
    let pre = Binary32::from_bits(PRE_EMPHASIS);
    order::lemma_within_bits(pre, 149);
    assert forall|i: int| 0 <= i < FRAME_SAMPLES implies order::within(#[trigger] w[i], 166) by {
        let before = if i == 0 {
            previous
        } else {
            frame[i - 1]
        };
        order::lemma_within_mul(pre, before, 149, 164);
        order::lemma_within_add(frame[i], pre.mul(before), 164);
        lemma_window(i);
        order::lemma_within_mul(frame[i].sub(pre.mul(before)), analysis::window(i), 165, 150);
    }
}

/// Correlations of a faded frame are bounded.
pub proof fn lemma_correlation(w: Seq<Binary32>, lag: int)
    requires
        w.len() == FRAME_SAMPLES,
        forall|i: int| 0 <= i < FRAME_SAMPLES ==> order::within(#[trigger] w[i], 166),
        0 <= lag <= ORDER,
    ensures
        order::within(analysis::correlation(w, lag), 191),
{
    rounding::lemma_magnitude_zero();
    let n = (w.len() - lag) as nat;
    lemma_sum_products(w, lag, w, 0, n, Binary32::from_bits(MINUS_ZERO), 166);
    lemma2_to64();
    lemma_pow2_adds(8, 183);
    assert(n * pow2(183) <= 256 * pow2(183)) by (nonlinear_arith)
        requires
            n <= 256,
    ;
}

/// The lag window lies in (0, 4].
pub proof fn lemma_lag_weight(lag: int)
    requires
        1 <= lag <= ORDER,
    ensures
        order::within(analysis::lag_weight(lag), 151),
{
    let n = Binary32::of_int(lag);
    let step = Binary32::from_bits(LAG_WINDOW);
    let minus_half = Binary32::from_bits(MINUS_HALF);
    let log2_e = Binary32::from_bits(LOG2_E);
    Binary32::lemma_of_int(lag);
    lemma2_to64();
    lemma_pow2_adds(4, 149);
    let unit = pow2(149);
    lemma_pow2_pos(149);
    assert(0 <= lag * unit <= 16 * unit) by (nonlinear_arith)
        requires
            0 <= lag <= 16,
    ;
    order::lemma_within_bits(step, 143);
    order::lemma_within_mul(n, step, 153, 143);
    let f = n.mul(step);
    order::lemma_mul(n, step, n);
    order::lemma_power(148);
    assert(minus_half.pattern() == order::power(148).pattern());
    order::lemma_within_mul(minus_half, f, 148, 147);
    order::lemma_mul(minus_half, f, n);
    let g = minus_half.mul(f);
    order::lemma_within_mul(g, f, 146, 147);
    order::lemma_mul(g, f, n);
    let h = g.mul(f);
    order::lemma_within_bits(log2_e, 150);
    order::lemma_within_mul(h, log2_e, 144, 150);
    order::lemma_mul(h, log2_e, n);
    let x = h.mul(log2_e);
    rounding::lemma_pow2_order(145, 149);
    assert(x.value() <= 0 && -1 * unit <= x.value());
    math::lemma_exp2_range(x, -1, 0);
}

/// The conditioned correlations are bounded.
pub proof fn lemma_conditioned(w: Seq<Binary32>, lag: int)
    requires
        w.len() == FRAME_SAMPLES,
        forall|i: int| 0 <= i < FRAME_SAMPLES ==> order::within(#[trigger] w[i], 166),
        0 <= lag <= ORDER,
    ensures
        order::within(analysis::conditioned(w)[lag], 193),
{
    lemma_correlation(w, lag);
    if lag == 0 {
        order::lemma_within_bits(Binary32::from_bits(WHITE_NOISE), 151);
        order::lemma_within_mul(
            analysis::correlation(w, lag),
            Binary32::from_bits(WHITE_NOISE),
            191,
            151,
        );
    } else {
        lemma_lag_weight(lag);
        order::lemma_within_mul(
            analysis::correlation(w, lag),
            analysis::lag_weight(lag),
            191,
            151,
        );
    }
}

/// What predictor coefficients leave unexplained is bounded.
pub proof fn lemma_unexplained(r: Seq<Binary32>, a: Seq<Binary32>, i: int, n: nat)
    requires
        0 <= n < i <= ORDER,
        forall|k: int| 0 <= k <= ORDER ==> order::within(#[trigger] r[k], 193),
        forall|k: int| 0 <= k <= ORDER ==> order::within(#[trigger] a[k], 159),
    ensures
        order::within(analysis::unexplained(r, a, i, n), (204 + n) as nat),
    decreases n,
{
    if n == 0 {
        order::lemma_within_weaken(r[i], 193, 204);
    } else {
        lemma_unexplained(r, a, i, (n - 1) as nat);
        let before = analysis::unexplained(r, a, i, (n - 1) as nat);
        let x = a[n as int];
        let y = r[i - n];
        order::lemma_within_mul(x, y, 159, 193);
        order::lemma_within_weaken(x.mul(y), 203, (203 + n) as nat);
        order::lemma_within_add(before, x.mul(y), (203 + n) as nat);
    }
}

/// A coefficient kept inside the unit circle by the analyser: at most 0.999
/// in size.
pub open spec fn kept(k: Binary32) -> bool {
    &&& k.finite()
    &&& k.size() <= Binary32::from_bits(STABLE).size()
}

proof fn lemma_kept(k: Binary32)
    requires
        kept(k),
    ensures
        k.finite(),
        k.size() < pow2(149),
{
    order::lemma_power(149);
    rounding::lemma_magnitude_order(
        Binary32::from_bits(STABLE).pattern(),
        order::power(149).pattern(),
    );
}

/// What holds of the recursion after `n` orders.
pub open spec fn steady(r: Seq<Binary32>, s: Recursion, n: nat) -> bool {
    &&& s.rc.len() == ORDER
    &&& s.a.len() == ORDER + 1
    &&& forall|i: int| 0 <= i < ORDER ==> kept(#[trigger] s.rc[i])
    &&& forall|i: int| 0 <= i <= ORDER ==> order::within(#[trigger] s.a[i], (149 + n) as nat)
    &&& s.error.finite()
    &&& s.error.size() <= r[0].size()
    &&& r[0].value() >= 0 ==> s.error.value() >= 0
}

pub proof fn lemma_recursion(r: Seq<Binary32>, n: nat)
    requires
        n <= ORDER,
        forall|k: int| 0 <= k <= ORDER ==> order::within(#[trigger] r[k], 193),
    ensures
        steady(r, analysis::recursion(r, n), n),
    decreases n,
{
    let now = analysis::recursion(r, n);
    rounding::lemma_magnitude_zero();
    if n == 0 {
        lemma_pow2_pos(149);
    } else {
        lemma_recursion(r, (n - 1) as nat);
        let s = analysis::recursion(r, (n - 1) as nat);
        let e = (148 + n) as nat;
        assert forall|i: int| 0 <= i <= ORDER implies order::within(
            #[trigger] s.a[i],
            (149 + n) as nat,
        ) && order::within(s.a[i], 159) by {
            order::lemma_within_weaken(s.a[i], e, (149 + n) as nat);
            order::lemma_within_weaken(s.a[i], e, 159);
        }
        if !s.error.le(analysis::zero()) {
            let k = analysis::reflection(r, s, n as int);
            lemma_reflection(r, s, n as int);
            lemma_kept(k);
            assert forall|i: int| 0 <= i <= ORDER implies order::within(
                #[trigger] now.a[i],
                (149 + n) as nat,
            ) by {
                if i == n {
                    order::lemma_within_weaken(k, 149, (149 + n) as nat);
                } else if 1 <= i < n {
                    order::lemma_within_mul(k, s.a[n - i], 149, e);
                    order::lemma_within_add(s.a[i], k.mul(s.a[n - i]), e);
                }
            }
            lemma_error(s.error, k);
        }
    }
}

/// The clamp sees a number, so what it gives is kept.
proof fn lemma_reflection(r: Seq<Binary32>, s: Recursion, i: int)
    requires
        1 <= i <= ORDER,
        forall|k: int| 0 <= k <= ORDER ==> order::within(#[trigger] r[k], 193),
        forall|k: int| 0 <= k <= ORDER ==> order::within(#[trigger] s.a[k], 159),
        s.error.finite(),
        !s.error.le(analysis::zero()),
    ensures
        kept(analysis::reflection(r, s, i)),
{
    let left = analysis::unexplained(r, s.a, i, (i - 1) as nat);
    lemma_unexplained(r, s.a, i, (i - 1) as nat);
    rounding::lemma_magnitude_zero();
    order::lemma_div(left, s.error, left);
    let limit = Binary32::from_bits(STABLE);
    let low = Binary32::from_bits(MINUS_STABLE);
    assert(low.pattern() == limit.pattern());
    let q = left.div(s.error);
    let k = q.clamp(low, limit);
    if k == q {
        order::lemma_finite(k, limit);
    }
}

/// Each order leaves no more error than there was.
proof fn lemma_error(error: Binary32, k: Binary32)
    requires
        error.finite(),
        k.finite(),
        k.size() < pow2(149),
    ensures
        ({
            let left = error.mul(Binary32::from_bits(math::ONE).sub(k.mul(k)));
            &&& left.finite()
            &&& left.size() <= error.size()
            &&& error.value() >= 0 ==> left.value() >= 0
        }),
{
    let one = Binary32::from_bits(math::ONE);
    let none = Binary32::from_bits(math::ZERO);
    rounding::lemma_magnitude_zero();
    order::lemma_power(149);
    order::lemma_within_mul(k, k, 149, 149);
    let square = k.mul(k);
    order::lemma_mul(k, k, none);
    order::lemma_sub(one, square, one);
    order::lemma_sub(one, square, none);
    let rest = one.sub(square);
    order::lemma_finite(rest, one);
    assert(error.size() * rest.size() <= error.size() * pow2(149)) by (nonlinear_arith)
        requires
            rest.size() <= pow2(149),
    ;
    order::lemma_mul(error, rest, error);
    order::lemma_finite(error.mul(rest), error);
    if error.size() == 0 || rest.size() == 0 {
        assert(error.size() * rest.size() == 0 && none.size() * pow2(149) == 0)
            by (nonlinear_arith)
            requires
                error.size() == 0 || rest.size() == 0,
                none.size() == 0,
        ;
        order::lemma_mul(error, rest, none);
    }
}

/// The recursion keeps every coefficient within 0.999 and never leaves more
/// error than there was energy, nor less than none.
pub proof fn law_levinson_is_stable(r: Seq<Binary32>, n: nat)
    requires
        n <= ORDER,
        forall|k: int| 0 <= k <= ORDER ==> order::within(#[trigger] r[k], 193),
        r[0].value() >= 0,
    ensures
        analysis::recursion(r, n).rc.len() == ORDER,
        forall|i: int| 0 <= i < ORDER ==> kept(#[trigger] analysis::recursion(r, n).rc[i]),
        analysis::recursion(r, n).error.finite(),
        0 <= analysis::recursion(r, n).error.value() <= r[0].value(),
{
    lemma_recursion(r, n);
}

/// The share of the energy that the first `n` coefficients leave: the
/// product of one less the square of each.
pub open spec fn left_over(rc: Seq<Binary32>, n: nat) -> real
    decreases n,
{
    if n == 0 {
        1 as real
    } else {
        left_over(rc, (n - 1) as nat) * (1 as real - reals::num(rc[n - 1]) * reals::num(rc[n - 1]))
    }
}

/// The share depends on the coefficients it is made of alone.
proof fn lemma_left_over(a: Seq<Binary32>, b: Seq<Binary32>, n: nat)
    requires
        forall|i: int| 0 <= i < n ==> a[i] == b[i],
    ensures
        left_over(a, n) == left_over(b, n),
    decreases n,
{
    if n > 0 {
        lemma_left_over(a, b, (n - 1) as nat);
        assert(a[n - 1] == b[n - 1]);
    }
}

/// What one coefficient leaves of the error, against the exact product.
pub proof fn lemma_error_left(error: Binary32, k: Binary32)
    requires
        error.finite(),
        error.value() >= 0,
        k.finite(),
        k.size() < pow2(149),
    ensures
        ({
            let left = error.mul(Binary32::from_bits(math::ONE).sub(k.mul(k)));
            let rest = 1 as real - reals::num(k) * reals::num(k);
            &&& 0 as real <= rest <= 1 as real
            &&& reals::near(
                reals::num(left),
                reals::num(error) * rest,
                8 as real * (reals::eps() * reals::num(error)) + reals::ratio(
                    1,
                    0x1_0000_0000_0000,
                ),
            )
        }),
{
    let one = Binary32::from_bits(math::ONE);
    let none = Binary32::from_bits(math::ZERO);
    let e = reals::eps();
    reals::lemma_eps();
    reals::lemma_unit();
    let u = pow2(149) as real;
    rounding::lemma_magnitude_zero();
    lemma_error(error, k);
    order::lemma_power(149);
    assert(one == order::power(149));
    order::lemma_within_mul(k, k, 149, 149);
    let square = k.mul(k);
    order::lemma_mul(k, k, none);
    order::lemma_sub(one, square, one);
    order::lemma_sub(one, square, none);
    let rest = one.sub(square);
    order::lemma_finite(rest, one);
    // The square does not see the sign.
    let a = k.abs();
    order::lemma_signed(false, k.pattern());
    assert(a.mul(a) == square) by {
        reveal(Binary32::spec_mul);
    }
    reals::lemma_num_mul(a, a);
    reals::lemma_num(a);
    reals::lemma_num(k);
    let x = reals::num(a);
    let y = reals::num(k);
    assert(x == y || x == -y) by (nonlinear_arith)
        requires
            x * u == y * u || x * u == -(y * u),
            u > 0 as real,
    ;
    let q = y * y;
    assert(x * x == q) by (nonlinear_arith)
        requires
            x == y || x == -y,
            q == y * y,
    ;
    reals::lemma_num_order(a, 1);
    assert(0 as real <= q <= 1 as real) by (nonlinear_arith)
        requires
            q == x * x,
            0 as real <= x <= 1 as real,
    ;
    reals::lemma_eps_of(q);
    // One less the square.
    let minus = square.neg();
    order::lemma_neg(square);
    reals::lemma_num(square);
    reals::lemma_num(minus);
    let s = reals::num(square);
    let m = reals::num(minus);
    assert(m == -s) by (nonlinear_arith)
        requires
            m * u == -(s * u),
            u > 0 as real,
    ;
    reals::lemma_num_order(one, 1);
    reals::lemma_num_add(one, minus);
    reals::lemma_eps_of(1 as real - s);
    // Times the error.
    reals::lemma_num(error);
    reals::lemma_num_mul(error, rest);
    let f = reals::num(error);
    let r = reals::num(rest);
    let exact = 1 as real - q;
    let off = r - exact;
    let fr = f * r;
    let fe = e * f;
    assert(fr == f * exact + f * off) by (nonlinear_arith)
        requires
            fr == f * r,
            off == r - exact,
    ;
    assert(-(4 as real * fe) <= f * off <= 4 as real * fe) by (nonlinear_arith)
        requires
            -(4 as real * e) <= off <= 4 as real * e,
            f >= 0 as real,
            fe == e * f,
    ;
    reals::lemma_num(rest);
    reals::lemma_num_order(rest, 1);
    assert(e * fr <= fe) by (nonlinear_arith)
        requires
            fr == f * r,
            fe == e * f,
            0 as real <= r <= 1 as real,
            f >= 0 as real,
            e > 0 as real,
    ;
}

/// The recursion's error is the energy times what the coefficients leave of
/// it, but for eight roundings and one unit of 2^-48 for each order.
pub proof fn law_levinson_error(r: Seq<Binary32>, n: nat)
    requires
        n <= ORDER,
        forall|k: int| 0 <= k <= ORDER ==> order::within(#[trigger] r[k], 193),
        r[0].value() >= 0,
    ensures
        ({
            let s = analysis::recursion(r, n);
            let each = 8 as real * (reals::eps() * reals::num(r[0])) + reals::ratio(
                1,
                0x1_0000_0000_0000,
            );
            &&& reals::near(
                reals::num(s.error),
                reals::num(r[0]) * left_over(s.rc, n),
                n as real * each,
            )
            &&& forall|i: int| n <= i < ORDER ==> s.rc[i] == analysis::zero()
        }),
    decreases n,
{
    let s = analysis::recursion(r, n);
    let e = reals::eps();
    reals::lemma_eps();
    let energy = reals::num(r[0]);
    let each = 8 as real * (e * energy) + reals::ratio(1, 0x1_0000_0000_0000);
    reals::lemma_num(r[0]);
    assert(order::within(r[0], 193));
    if n == 0 {
        assert(energy * (1 as real) == energy && 0 as real * each == 0 as real)
            by (nonlinear_arith);
        assert(n as real * each == 0 as real);
    } else {
        let m = (n - 1) as nat;
        let was = analysis::recursion(r, m);
        law_levinson_error(r, m);
        law_levinson_is_stable(r, m);
        law_levinson_is_stable(r, n);
        lemma_left_over(was.rc, s.rc, m);
        rounding::lemma_magnitude_zero();
        let k = s.rc[n - 1];
        assert(kept(k));
        lemma_kept(k);
        let error = was.error;
        lemma_error_left(error, k);
        let y = reals::num(k);
        let rest = 1 as real - y * y;
        let before = left_over(was.rc, m);
        let f = reals::num(error);
        reals::lemma_num(error);
        // What was off stays off by no more.
        let off = f - energy * before;
        let limit = m as real * each;
        assert(off * rest == f * rest - energy * (before * rest)) by (nonlinear_arith)
            requires
                off == f - energy * before,
        ;
        assert(limit >= 0 as real && -limit <= off * rest <= limit) by (nonlinear_arith)
            requires
                -limit <= off <= limit,
                0 as real <= rest <= 1 as real,
        ;
        assert(n as real * each == limit + each) by (nonlinear_arith)
            requires
                limit == m as real * each,
                n as real == m as real + 1 as real,
        ;
        lemma_less_energy(error, r[0]);
        if was.error.le(analysis::zero()) {
            // At rest: nothing is left, and the coefficient is zero.
            assert(s == was);
            assert(k == analysis::zero());
            reals::lemma_num(k);
            reals::lemma_num_order(k, 0);
            assert(y == 0 as real);
            assert(rest == 1 as real) by (nonlinear_arith)
                requires
                    rest == 1 as real - y * y,
                    y == 0 as real,
            ;
            assert(f * rest == f) by (nonlinear_arith)
                requires
                    rest == 1 as real,
            ;
        }
    }
}

/// Less error than energy, and so less of its roundings.
pub proof fn lemma_less_energy(error: Binary32, energy: Binary32)
    requires
        error.value() <= energy.value(),
    ensures
        reals::num(error) <= reals::num(energy),
        reals::eps() * reals::num(error) <= reals::eps() * reals::num(energy),
{
    reals::lemma_eps();
    reals::lemma_unit();
    reals::lemma_num(error);
    reals::lemma_num(energy);
    let u = pow2(149) as real;
    let e = reals::eps();
    let x = reals::num(error);
    let y = reals::num(energy);
    assert(x <= y) by (nonlinear_arith)
        requires
            x * u <= y * u,
            u > 0 as real,
    ;
    assert(e * x <= e * y) by (nonlinear_arith)
        requires
            x <= y,
            e > 0 as real,
    ;
}

/// The filter that analysis finds is stable, and its level is a number and
/// not negative.
#[verifier::rlimit(30)]
proof fn lemma_tract(frame: Seq<Binary32>, previous: Binary32)
    requires
        frame.len() == FRAME_SAMPLES,
        forall|i: int| 0 <= i < FRAME_SAMPLES ==> audible(#[trigger] frame[i]),
        audible(previous),
    ensures
        Speech::stable(analysis::tract(frame, previous).0),
        forall|i: int| 0 <= i < ORDER ==> kept(#[trigger] analysis::tract(frame, previous).0[i]),
        analysis::tract(frame, previous).1.finite(),
        analysis::tract(frame, previous).1.value() >= 0,
{
    let w = analysis::windowed(frame, previous);
    rounding::lemma_magnitude_zero();
    lemma_pow2_pos(149);
    lemma_windowed(frame, previous);
    if !analysis::correlation(w, 0).le(analysis::zero()) {
        let r = analysis::conditioned(w);
        assert forall|k: int| 0 <= k <= ORDER implies order::within(#[trigger] r[k], 193) by {
            lemma_conditioned(w, k);
        }
        lemma_recursion(r, ORDER as nat);
        let s = analysis::recursion(r, ORDER as nat);
        assert forall|i: int| 0 <= i < ORDER implies ({
            let k = #[trigger] s.rc[i];
            k.finite() && k.size() < pow2(149)
        }) by {
            lemma_kept(s.rc[i]);
        }
        assert(order::within(s.error, 193));
        lemma_level(s.error);
    }
}

/// The level of what a frame leaves is a number and not negative.
proof fn lemma_level(error: Binary32)
    requires
        order::within(error, 193),
    ensures
        ({
            let left = if error.nan() || error.lt(analysis::zero()) {
                analysis::zero()
            } else {
                error
            };
            let level = math::sqrt(left.div(Binary32::of_int(FRAME_SAMPLES as int)));
            &&& level.finite()
            &&& level.value() >= 0
        }),
{
    rounding::lemma_magnitude_zero();
    lemma_pow2_pos(193);
    let left = if error.nan() || error.lt(analysis::zero()) {
        analysis::zero()
    } else {
        error
    };
    let n = Binary32::of_int(FRAME_SAMPLES as int);
    lemma_pow2_pos(149);
    Binary32::lemma_of_int(FRAME_SAMPLES as int);
    lemma2_to64();
    lemma_pow2_adds(7, 149);
    assert(n.size() >= pow2(156)) by (nonlinear_arith)
        requires
            n.size() == 180 * pow2(149),
            pow2(156) == 128 * pow2(149),
    ;
    order::lemma_within_div(left, n, 193, 156);
    math::law_sqrt_is_a_number(left.div(n));
}

/// The search for the pitch stays in the range that the coder represents.
proof fn lemma_best(s: Seq<Binary32>, n: nat)
    requires
        n <= PITCH_MAX - PITCH_MIN + 1,
    ensures
        PITCH_MIN <= analysis::best(s, n).0 <= PITCH_MAX,
    decreases n,
{
    if n > 0 {
        lemma_best(s, (n - 1) as nat);
    }
}

proof fn lemma_shortest(s: Seq<Binary32>, lag: int, top: Binary32, divisor: int)
    requires
        PITCH_MIN <= lag <= PITCH_MAX,
        divisor <= lag / PITCH_MIN as int + 1,
    ensures
        PITCH_MIN <= analysis::shortest(s, lag, top, divisor) <= PITCH_MAX,
    decreases divisor,
{
    if divisor > 2 {
        lemma_shortest(s, lag, top, divisor - 1);
        let d = divisor - 1;
        assert(20 <= lag / d <= lag) by (nonlinear_arith)
            requires
                2 <= d <= lag / 20,
        ;
    }
}

/// Analysis always finds something that can be sent and rendered: ten
/// coefficients no larger than 0.999, so strictly inside (-1, 1), a gain that
/// is a number and not negative, and a pitch in range.
pub proof fn law_analysis_is_sound(l: Listener, frame: Seq<i16>)
    requires
        l.sound(),
        frame.len() == FRAME_SAMPLES,
    ensures
        l.analyzed(frame).sound(),
        forall|i: int| 0 <= i < ORDER ==> kept(#[trigger] l.analyzed(frame).rc[i]),
{
    law_listener_stays_sound(l, frame);
    let h = l.heard(frame);
    let current = h.skip(analysis::tail());
    assert forall|i: int| 0 <= i < FRAME_SAMPLES implies audible(#[trigger] current[i]) by {
        assert(current[i] == l.after(frame).history[i + analysis::tail()]);
    }
    lemma_tract(current, l.previous);
    let s = analysis::smoothed(h);
    let n = (PITCH_MAX - PITCH_MIN + 1) as nat;
    lemma_best(s, n);
    let (lag, top) = analysis::best(s, n);
    lemma_shortest(s, lag, top, lag / PITCH_MIN as int + 1);
}

} // verus!
