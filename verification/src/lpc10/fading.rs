//! What a decoder forgets of any stable filter.
//!
//! The filter that runs is the exact one but for rounding. The difference of
//! two decoders that are excited alike is therefore a signal that only
//! rounding drives through a stable filter, and what the filter holds of it
//! falls.
use crate::accuracy;
use crate::binary32::Binary32;
use crate::exponential;
use crate::lpc10::analysis;
use crate::lpc10::bits;
use crate::lpc10::lattice;
use crate::lpc10::normal;
use crate::lpc10::quant;
use crate::lpc10::recovery;
use crate::lpc10::synth;
use crate::lpc10::synth::{Voice, SUBFRAMES, SUBFRAME_LEN};
use crate::lpc10::{Speech, FRAME_SAMPLES, ORDER, PITCH_MAX};
use crate::math;
use crate::order;
use crate::reals;
use crate::root;
use crate::rounding;
use crate::sums;
use vstd::arithmetic::power2::*;
use vstd::prelude::*;

verus! {

/// Coefficients as reals.
pub open spec fn exactly(rc: Seq<Binary32>) -> Seq<real> {
    Seq::new(ORDER as nat, |i: int| reals::num(rc[i]))
}

/// How far a filter reaches: at least one and the sizes of its predictor's
/// coefficients together.
pub open spec fn reach(k: Seq<real>, n: nat) -> real
    decreases n,
{
    if n == 0 {
        1 as real
    } else {
        (10_001 as real / 10_000 as real + reals::size(k[n - 1])) * reach(k, (n - 1) as nat)
    }
}

/// How far a predictor is from the exact one.
pub open spec fn gap(a: Seq<Binary32>, k: Seq<real>, n: nat) -> real {
    sums::sum(|j: int| reals::size(reals::num(a[j]) - lattice::exact(k, n, j)), n)
}

/// One coefficient of the next order, against the next exact one.
proof fn lemma_one(x: real, y: real, p: real, q: real, c: real, z: real, d: real)
    requires
        reals::near(z, x - c * y, d),
        reals::size(c) < 1 as real,
    ensures
        reals::size(z - (p - c * q)) <= reals::size(x - p) + reals::size(c) * reals::size(y - q)
            + d,
{
    assert(c * (y - q) == c * y - c * q) by (nonlinear_arith);
    let v = y - q;
    reals::lemma_size_product(c, v);
}

/// The distance to the exact predictor, one order on.
proof fn lemma_gap(a: Seq<Binary32>, k: Seq<real>, c: Binary32, n: nat)
    requires
        n < ORDER,
        a.len() == ORDER + 1,
        c.finite(),
        c.size() < pow2(149),
        k.len() > n,
        k[n as int] == reals::num(c),
        forall|j: int| 0 <= j <= ORDER ==> order::within(#[trigger] a[j], 159),
    ensures
        gap(analysis::extended(a, n as int + 1, c), k, (n + 1) as nat) <= (1 as real + reals::size(
            reals::num(c),
        )) * gap(a, k, n) + 4 as real * (reals::eps() * normal::mass(a, n)) + 20 as real
            * reals::ratio(1, 0x1_0000_0000_0000),
        gap(a, k, n) >= 0 as real,
{
    let i = n as int + 1;
    let b = analysis::extended(a, i, c);
    let e = reals::eps();
    let t = reals::ratio(1, 0x1_0000_0000_0000);
    reals::lemma_eps();
    normal::lemma_inside(c);
    let cr = reals::num(c);
    let cs = reals::size(cr);
    let sa = |j: int| reals::size(reals::num(a[j]));
    let sr = |j: int| sa(n + 1 - j);
    let ga = |j: int| reals::size(reals::num(a[j]) - lattice::exact(k, n, j));
    let gr = |j: int| ga(n + 1 - j);
    let gb = |j: int| reals::size(reals::num(b[j]) - lattice::exact(k, i as nat, j));
    sums::lemma_reverse(sa, n);
    sums::lemma_reverse(ga, n);
    sums::lemma_grows(ga, 0, n);
    let flat = |j: int| 2 as real * t;
    sums::lemma_constant(2 as real * t, n);
    let w = |j: int| flat(j) + e * sa(j);
    sums::lemma_linear(flat, sa, e, n);
    let te = 3 as real * e;
    let x = |j: int| w(j) + te * sr(j);
    sums::lemma_linear(w, sr, te, n);
    let y = |j: int| x(j) + 1 as real * ga(j);
    sums::lemma_linear(x, ga, 1 as real, n);
    let z = |j: int| y(j) + cs * gr(j);
    sums::lemma_linear(y, gr, cs, n);
    assert forall|j: int| 1 <= j <= n implies -z(j) <= #[trigger] gb(j) <= z(j) by {
        normal::lemma_coefficient(a[j], c, a[i - j]);
        assert(b[j] == a[j].sub(c.mul(a[i - j])));
        let p = reals::num(a[j]);
        let q = reals::num(a[i - j]);
        let sp = reals::size(p);
        let sq = reals::size(q);
        assert(e * (sp + 3 as real * sq) == e * sp + (3 as real * e) * sq) by (nonlinear_arith);
        lemma_one(
            p,
            q,
            lattice::exact(k, n, j),
            lattice::exact(k, n, i - j),
            cr,
            reals::num(b[j]),
            e * (sp + 3 as real * sq) + 2 as real * t,
        );
        let g = ga(j);
        assert(1 as real * g == g) by (nonlinear_arith);
        assert(i - j == n + 1 - j);
    }
    sums::lemma_bound(gb, z, n);
    let all = normal::mass(a, n);
    let g = gap(a, k, n);
    assert(sums::sum(sa, n) == all);
    assert(sums::sum(ga, n) == g);
    let nr = n as real;
    let tt = 2 as real * t;
    assert(nr * tt <= 10 as real * tt) by (nonlinear_arith)
        requires
            nr <= 10 as real,
            tt > 0 as real,
    ;
    assert((3 as real * e) * all == 3 as real * (e * all)) by (nonlinear_arith);
    assert((1 as real + cs) * g == g + cs * g && 1 as real * g == g) by (nonlinear_arith);
    assert(b[i] == c);
    assert(lattice::exact(k, i as nat, i) == cr);
    let p = |j: int| reals::size(reals::num(b[j]) - lattice::exact(k, i as nat, j));
    sums::lemma_same(p, gb, n);
    assert(gap(b, k, i as nat) == sums::sum(p, i as nat));
    assert(sums::sum(p, i as nat) == sums::sum(p, n) + p(i));
}

/// What a float predictor is: moderate, within reach, and near the exact
/// one.
pub proof fn lemma_predictor(rc: Seq<Binary32>, n: nat)
    requires
        Speech::stable(rc),
        n <= ORDER,
    ensures
        ({
            let a = analysis::predictor(rc, n);
            let k = exactly(rc);
            &&& a.len() == ORDER + 1
            &&& forall|j: int| 0 <= j <= ORDER ==> order::within(#[trigger] a[j], (149 + n) as nat)
            &&& normal::mass(a, n) + 1 as real <= reach(k, n)
            &&& gap(a, k, n) <= n as real * (5 as real * (reals::eps() * reach(k, n)))
            &&& reach(k, n) >= 1 as real
        }),
    decreases n,
{
    let a = analysis::predictor(rc, n);
    let k = exactly(rc);
    let e = reals::eps();
    reals::lemma_eps();
    rounding::lemma_magnitude_zero();
    if n == 0 {
        lemma_pow2_pos(149);
        assert(normal::mass(a, 0) == 0 as real);
        assert(gap(a, k, 0) == 0 as real);
        let f = 5 as real * (e * reach(k, 0));
        assert(0 as real * f == 0 as real) by (nonlinear_arith);
    } else {
        let l = (n - 1) as nat;
        lemma_predictor(rc, l);
        let was = analysis::predictor(rc, l);
        let c = rc[n - 1];
        assert(c.finite() && c.size() < pow2(149));
        assert forall|j: int| 0 <= j <= ORDER implies order::within(#[trigger] was[j], 159) by {
            order::lemma_within_weaken(was[j], (149 + l) as nat, 159);
        }
        lemma_within(was, c, n);
        normal::lemma_mass(was, c, l);
        lemma_gap(was, k, c, l);
        let cs = reals::size(reals::num(c));
        normal::lemma_inside(c);
        let f = 10_001 as real / 10_000 as real + cs;
        let p = reach(k, l);
        let full = normal::mass(was, l) + 1 as real;
        assert(f * full <= f * p) by (nonlinear_arith)
            requires
                full <= p,
                f >= 0 as real,
        ;
        assert(f * p >= p) by (nonlinear_arith)
            requires
                f >= 1 as real,
                p >= 0 as real,
        ;
        // The distance.
        let q = f * p;
        let g = gap(was, k, l);
        let ep = e * p;
        let lr = l as real;
        let lp = lr * (5 as real * ep);
        let one = 1 as real + cs;
        exponential::lemma_product_sign(e, p);
        assert(lp >= 0 as real) by (nonlinear_arith)
            requires
                lp == lr * (5 as real * ep),
                lr >= 0 as real,
                ep >= 0 as real,
        ;
        assert(one * g <= one * lp) by (nonlinear_arith)
            requires
                g <= lp,
                one >= 0 as real,
        ;
        assert(one * lp <= f * lp) by (nonlinear_arith)
            requires
                one <= f,
                lp >= 0 as real,
        ;
        assert(f * (lr * (5 as real * (e * p))) == lr * (5 as real * (e * (f * p))))
            by (nonlinear_arith);
        let eq = e * q;
        assert(e * p <= e * q) by (nonlinear_arith)
            requires
                p <= q,
                e > 0 as real,
        ;
        let all = normal::mass(was, l);
        assert(e * all <= e * p) by (nonlinear_arith)
            requires
                all <= p,
                e > 0 as real,
        ;
        assert(e <= e * p) by (nonlinear_arith)
            requires
                p >= 1 as real,
                e > 0 as real,
        ;
        let five = 5 as real * eq;
        assert((lr + 1 as real) * five == lr * five + five) by (nonlinear_arith);
        assert(n as real == lr + 1 as real);
    }
}

/// A predictor of one order more is at most twice as large.
proof fn lemma_within(a: Seq<Binary32>, k: Binary32, n: nat)
    requires
        1 <= n <= ORDER,
        a.len() == ORDER + 1,
        k.finite(),
        k.size() < pow2(149),
        forall|j: int| 0 <= j <= ORDER ==> order::within(#[trigger] a[j], (148 + n) as nat),
    ensures
        forall|j: int|
            0 <= j <= ORDER ==> order::within(
                #[trigger] analysis::extended(a, n as int, k)[j],
                (149 + n) as nat,
            ),
{
    let b = analysis::extended(a, n as int, k);
    let e = (148 + n) as nat;
    assert forall|j: int| 0 <= j <= ORDER implies order::within(
        #[trigger] b[j],
        (149 + n) as nat,
    ) by {
        assert(order::within(a[j], e));
        if j == n {
            order::lemma_within_weaken(k, 149, (149 + n) as nat);
        } else if 1 <= j < n {
            assert(order::within(a[n - j], e));
            order::lemma_within_mul(k, a[n - j], 149, e);
            order::lemma_within_add(a[j], k.mul(a[n - j]), e);
        } else {
            order::lemma_within_weaken(a[j], e, (149 + n) as nat);
        }
    }
}

/// What the filter computes, over the reals.
pub open spec fn filter(x: Binary32, a: Seq<Binary32>, memory: Seq<Binary32>, m: nat) -> real {
    reals::num(x) + sums::sum(|j: int| reals::num(a[j]) * reals::num(memory[j - 1]), m)
}

/// Filter values of at most `most`.
pub open spec fn limited(memory: Seq<Binary32>, most: real) -> bool {
    &&& memory.len() == ORDER
    &&& forall|i: int| 0 <= i < ORDER ==> synth::bounded(#[trigger] memory[i])
    &&& forall|i: int| 0 <= i < ORDER ==> reals::size(reals::num(#[trigger] memory[i])) <= most
}

/// The float filter, against the exact sum.
pub proof fn lemma_filtered(
    x: Binary32,
    a: Seq<Binary32>,
    memory: Seq<Binary32>,
    m: nat,
    most: real,
    p: real,
)
    requires
        m <= ORDER,
        a.len() == ORDER + 1,
        limited(memory, most),
        synth::bounded(x),
        reals::size(reals::num(x)) <= most,
        forall|j: int| 0 <= j <= ORDER ==> order::within(#[trigger] a[j], 159),
        normal::mass(a, ORDER as nat) + 1 as real <= p,
    ensures
        order::within(synth::filtered(x, a, memory, m), (180 + m) as nat),
        reals::near(
            reals::num(synth::filtered(x, a, memory, m)),
            filter(x, a, memory, m),
            m as real * (4 as real * (p * normal::grain(most))),
        ),
        reals::size(filter(x, a, memory, m)) <= p * most,
    decreases m,
{
    let e = reals::eps();
    let t = reals::ratio(1, 0x1_0000_0000_0000);
    let g = normal::grain(most);
    reals::lemma_eps();
    let limit = Binary32::from_bits(synth::STATE_LIMIT);
    order::lemma_within_bits(limit, 169);
    let sa = |j: int| reals::size(reals::num(a[j]));
    sums::lemma_grows(sa, m, ORDER as nat);
    assert(normal::mass(a, ORDER as nat) == sums::sum(sa, ORDER as nat));
    assert(most >= 0 as real);
    reals::lemma_eps_of(most);
    let pg = p * g;
    let pm = p * most;
    // The sum is at most the excitation and the mass times the values.
    let f = |j: int| reals::num(a[j]) * reals::num(memory[j - 1]);
    let zero = |j: int| 0 as real;
    let w = |j: int| zero(j) + most * sa(j);
    sums::lemma_constant(0 as real, m);
    sums::lemma_linear(zero, sa, most, m);
    assert forall|j: int| 1 <= j <= m implies -w(j) <= #[trigger] f(j) <= w(j) by {
        assert(reals::size(reals::num(memory[j - 1])) <= most);
        normal::lemma_limits(reals::num(a[j]), reals::num(memory[j - 1]), sa(j), most);
    }
    sums::lemma_bound(f, w, m);
    let part = sums::sum(sa, m);
    assert(m as real * (0 as real) == 0 as real) by (nonlinear_arith);
    let full = 1 as real + part;
    assert(full * most <= p * most) by (nonlinear_arith)
        requires
            full <= p,
            most >= 0 as real,
    ;
    assert((1 as real + part) * most == most + most * part) by (nonlinear_arith);
    assert(filter(x, a, memory, m) == reals::num(x) + sums::sum(f, m));
    assert(p * (e * most + t) == e * (p * most) + p * t) by (nonlinear_arith);
    assert(p * t >= t) by (nonlinear_arith)
        requires
            p >= 1 as real,
            t > 0 as real,
    ;
    exponential::lemma_product_sign(p, most);
    reals::lemma_eps_of(pm);
    let four = 4 as real * pg;
    if m == 0 {
        order::lemma_within_weaken(x, 169, 180);
        assert(0 as real * four == 0 as real) by (nonlinear_arith);
        assert(m as real * four == 0 as real);
    } else {
        let l = (m - 1) as nat;
        lemma_filtered(x, a, memory, l, most, p);
        let before = synth::filtered(x, a, memory, l);
        let y = memory[m - 1];
        assert(synth::bounded(y));
        assert(order::within(y, 169));
        assert(order::within(a[m as int], 159));
        order::lemma_within_mul(a[m as int], y, 159, 169);
        let q = a[m as int].mul(y);
        order::lemma_within_weaken(q, 179, (180 + l) as nat);
        order::lemma_within_add(before, q, (180 + l) as nat);
        reals::lemma_num_product(a[m as int], y);
        reals::lemma_num_add(before, q);
        let xy = reals::num(a[m as int]) * reals::num(y);
        assert(filter(x, a, memory, m) == filter(x, a, memory, l) + xy) by {
            let h = |j: int| reals::num(a[j]) * reals::num(memory[j - 1]);
            sums::lemma_same(f, h, l);
            assert(f(m as int) == xy);
        }
        assert(reals::size(xy) <= pm) by {
            assert(-w(m as int) <= f(m as int) <= w(m as int));
            let sm = sa(m as int);
            sums::lemma_grows(sa, l, m);
            assert(sm <= part);
            assert(most * sm <= most * part) by (nonlinear_arith)
                requires
                    sm <= part,
                    most >= 0 as real,
            ;
        }
        reals::lemma_eps_of(reals::size(xy));
        let d = reals::num(before) + reals::num(q);
        reals::lemma_eps_of(d);
        let lr = l as real;
        assert((lr + 1 as real) * four == lr * four + four) by (nonlinear_arith);
        assert(m as real == lr + 1 as real);
        assert(lr * four <= 10 as real * four) by (nonlinear_arith)
            requires
                lr <= 10 as real,
                four >= 0 as real,
        ;
    }
}

/// The difference of two filters' values, over time: what they remember at
/// time zero and before, and what they answer from then on.
pub open spec fn trace(a: Voice, b: Voice, speech: Speech) -> spec_fn(int) -> real {
    |t: int|
        if t <= 0 {
            reals::num(a.memory[-t]) - reals::num(b.memory[-t])
        } else {
            reals::num(a.within(speech, t as nat).memory[0]) - reals::num(
                b.within(speech, t as nat).memory[0],
            )
        }
}

/// What two filters remember is the trace of their difference.
proof fn lemma_trace(a: Voice, b: Voice, speech: Speech, n: nat, j: int)
    requires
        a.memory.len() == ORDER,
        b.memory.len() == ORDER,
        0 <= j < ORDER,
    ensures
        a.within(speech, n).memory.len() == ORDER,
        b.within(speech, n).memory.len() == ORDER,
        reals::num(a.within(speech, n).memory[j]) - reals::num(b.within(speech, n).memory[j])
            == trace(a, b, speech)(n - j),
    decreases n,
{
    if n > 0 {
        let l = (n - 1) as nat;
        if j > 0 {
            lemma_trace(a, b, speech, l, j - 1);
            let p = a.within(speech, l);
            let q = b.within(speech, l);
            assert(a.within(speech, n).memory[j] == p.memory[j - 1]);
            assert(b.within(speech, n).memory[j] == q.memory[j - 1]);
            assert(l - (j - 1) == n - j);
        } else {
            lemma_trace(a, b, speech, l, 0);
        }
    }
}

/// Whether a voice is calm in a frame up to sample `n`: what excites its
/// filter and what the filter answers is at most `most`, and the ceiling
/// does not cut in.
pub open spec fn calm(v: Voice, speech: Speech, n: nat, most: real) -> bool {
    &&& forall|i: nat| i <= n ==> limited(#[trigger] v.within(speech, i).memory, most)
    &&& forall|i: nat|
        i < n ==> {
            let w = #[trigger] v.within(speech, i);
            let s = synth::shape(v.previous, speech, i as int / SUBFRAME_LEN as int);
            let x = w.excitation(s);
            &&& synth::bounded(x)
            &&& reals::size(reals::num(x)) <= most
            &&& synth::bounded(synth::filtered(x, s.predictor, w.memory, ORDER as nat))
        }
}

/// Coefficients that are the same numbers.
pub open spec fn same_numbers(a: Seq<Binary32>, b: Seq<Binary32>) -> bool {
    &&& Speech::stable(a)
    &&& Speech::stable(b)
    &&& forall|i: int| 0 <= i < ORDER ==> (#[trigger] a[i]).value() == b[i].value()
}

/// Between a frame and one of the same coefficients, every subframe has
/// those coefficients.
proof fn lemma_steady(previous: Speech, speech: Speech, subframe: int)
    requires
        same_numbers(previous.rc, speech.rc),
        0 <= subframe < SUBFRAMES,
    ensures
        ({
            let rc = synth::subframe_rc(previous.rc, speech.rc, synth::ramp(subframe));
            &&& Speech::stable(rc)
            &&& exactly(rc) == exactly(speech.rc)
        }),
{
    let t = synth::ramp(subframe);
    synth::lemma_ramp(subframe);
    let rc = synth::subframe_rc(previous.rc, speech.rc, t);
    assert forall|i: int| 0 <= i < ORDER implies (#[trigger] rc[i]).finite() && rc[i].value()
        == speech.rc[i].value() && rc[i].size() < pow2(149) by {
        let from = previous.rc[i];
        let to = speech.rc[i];
        assert(from.value() == to.value());
        lemma_no_difference(to, from);
        recovery::lemma_nothing_times(t, to.sub(from));
        recovery::lemma_and_nothing(from, t.mul(to.sub(from)));
    }
    assert(exactly(rc) =~= exactly(speech.rc));
}

/// The difference of equal numbers.
proof fn lemma_no_difference(a: Binary32, b: Binary32)
    requires
        a.finite(),
        b.finite(),
        a.value() == b.value(),
    ensures
        recovery::nothing(a.sub(b)),
{
    let none = Binary32::from_bits(math::ZERO);
    rounding::lemma_magnitude_zero();
    order::lemma_sub(a, b, none);
    order::lemma_finite(a.sub(b), none);
}

/// Voices that are excited alike stay so through a frame.
proof fn lemma_in_time(a: Voice, b: Voice, speech: Speech, n: nat)
    requires
        recovery::in_time(a, b),
        a.previous == b.previous,
    ensures
        recovery::in_time(a.within(speech, n), b.within(speech, n)),
    decreases n,
{
    if n > 0 {
        lemma_in_time(a, b, speech, (n - 1) as nat);
    }
}

/// What drives the difference of two filters: rounding alone.
pub open spec fn noise(k: Seq<real>, most: real) -> real {
    180 as real * (reach(k, ORDER as nat) * normal::grain(most))
}

/// One sample of the difference: rounding drives it.
proof fn lemma_drive(a: Voice, b: Voice, speech: Speech, i: nat, most: real)
    requires
        a.memory.len() == ORDER,
        b.memory.len() == ORDER,
        a.previous == b.previous,
        recovery::in_time(a, b),
        same_numbers(a.previous.rc, speech.rc),
        calm(a, speech, (i + 1) as nat, most),
        calm(b, speech, (i + 1) as nat, most),
        i < FRAME_SAMPLES,
    ensures
        reals::size(
            lattice::forward(exactly(speech.rc), ORDER as nat, trace(a, b, speech), i as int + 1),
        ) <= noise(exactly(speech.rc), most),
{
    let k = exactly(speech.rc);
    let e = trace(a, b, speech);
    let n = ORDER as nat;
    let now = i as int + 1;
    let sub = i as int / SUBFRAME_LEN as int;
    let s = synth::shape(a.previous, speech, sub);
    let rc = synth::subframe_rc(a.previous.rc, speech.rc, synth::ramp(sub));
    let p = a.within(speech, i);
    let q = b.within(speech, i);
    lemma_steady(a.previous, speech, sub);
    lemma_predictor(rc, n);
    let c = s.predictor;
    assert(c == analysis::predictor(rc, n));
    assert forall|j: int| 0 <= j <= ORDER implies order::within(#[trigger] c[j], 159) by {
        assert(order::within(c[j], (149 + n) as nat));
    }
    lemma_in_time(a, b, speech, i);
    let x = p.excitation(s);
    assert(x == q.excitation(s));
    let far = reach(k, n);
    assert(limited(p.memory, most) && limited(q.memory, most));
    lemma_filtered(x, c, p.memory, n, most, far);
    lemma_filtered(x, c, q.memory, n, most, far);
    // The answers are what was filtered: the ceiling does not cut in.
    lemma_uncut(synth::filtered(x, c, p.memory, n));
    lemma_uncut(synth::filtered(x, c, q.memory, n));
    assert(a.within(speech, (i + 1) as nat) == p.next(s));
    assert(b.within(speech, (i + 1) as nat) == q.next(s));
    let ra = reals::num(p.response(s));
    let rb = reals::num(q.response(s));
    assert(e(now) == ra - rb) by {
        assert(a.within(speech, now as nat).memory[0] == p.response(s));
        assert(b.within(speech, now as nat).memory[0] == q.response(s));
    }
    // The exact filter against the one that runs.
    lattice::lemma_direct(k, n, e, now);
    let fa = |j: int| reals::num(c[j]) * reals::num(p.memory[j - 1]);
    let fb = |j: int| reals::num(c[j]) * reals::num(q.memory[j - 1]);
    let fe = |j: int| lattice::exact(k, n, j) * e(now - j);
    let d = |j: int| fa(j) + (-(1 as real)) * fb(j);
    let off = |j: int| d(j) + (-(1 as real)) * fe(j);
    sums::lemma_linear(fa, fb, -(1 as real), n);
    sums::lemma_linear(d, fe, -(1 as real), n);
    let ga = |j: int| reals::size(reals::num(c[j]) - lattice::exact(k, n, j));
    let zero = |j: int| 0 as real;
    let twice = 2 as real * most;
    let w = |j: int| zero(j) + twice * ga(j);
    sums::lemma_constant(0 as real, n);
    sums::lemma_linear(zero, ga, twice, n);
    assert forall|j: int| 1 <= j <= n implies -w(j) <= #[trigger] off(j) <= w(j) by {
        lemma_trace(a, b, speech, i, j - 1);
        assert(i - (j - 1) == now - j);
        let u = reals::num(p.memory[j - 1]);
        let v = reals::num(q.memory[j - 1]);
        let y = reals::num(c[j]);
        let z = lattice::exact(k, n, j);
        assert(e(now - j) == u - v);
        lemma_term(y, z, u, v);
        assert(reals::size(u) <= most && reals::size(v) <= most);
        normal::lemma_limits(y - z, u - v, ga(j), twice);
    }
    sums::lemma_bound(off, w, n);
    let sb = sums::sum(fb, n);
    let se = sums::sum(fe, n);
    assert((-(1 as real)) * sb == -sb && (-(1 as real)) * se == -se) by (nonlinear_arith);
    assert(n as real * (0 as real) == 0 as real) by (nonlinear_arith);
    let g = gap(c, k, n);
    assert(sums::sum(ga, n) == g);
    assert(lattice::forward(k, n, e, now) == ra - rb - se);
    // All together.
    let grain = normal::grain(most);
    let pg = far * grain;
    let em = reals::eps();
    let t = reals::ratio(1, 0x1_0000_0000_0000);
    reals::lemma_eps();
    assert(reals::size(reals::num(p.memory[0])) <= most);
    assert(most >= 0 as real);
    let ef = em * far;
    assert(n as real * (5 as real * ef) == 50 as real * ef);
    let fifty = 50 as real * ef;
    assert(twice * g <= twice * fifty) by (nonlinear_arith)
        requires
            g <= fifty,
            twice >= 0 as real,
    ;
    assert((2 as real * most) * (50 as real * (em * far)) == 100 as real * (far * (em * most)))
        by (nonlinear_arith);
    assert(far * (em * most + t) == far * (em * most) + far * t) by (nonlinear_arith);
    exponential::lemma_product_sign(far, t);
    assert(n as real * (4 as real * pg) == 40 as real * pg);
}

/// One term of the difference of two filters.
proof fn lemma_term(y: real, z: real, u: real, v: real)
    ensures
        (y * u + (-(1 as real)) * (y * v)) + (-(1 as real)) * (z * (u - v)) == (y - z) * (u - v),
{
    let d = u - v;
    assert(y * (u - v) == y * u - y * v) by (nonlinear_arith);
    assert((y - z) * d == y * d - z * d) by (nonlinear_arith);
    let yv = y * v;
    let zd = z * d;
    assert((-(1 as real)) * yv == -yv && (-(1 as real)) * zd == -zd) by (nonlinear_arith);
}

/// What is within the ceiling is kept as it is.
pub proof fn lemma_uncut(x: Binary32)
    requires
        synth::bounded(x),
    ensures
        synth::contained(x) == x,
{
    let limit = Binary32::from_bits(synth::STATE_LIMIT);
    let low = Binary32::from_bits(synth::MINUS_STATE_LIMIT);
    rounding::lemma_magnitude_zero();
    assert(low.pattern() == limit.pattern());
}

/// What drives the difference over `n` samples.
proof fn lemma_driven(a: Voice, b: Voice, speech: Speech, n: nat, most: real)
    requires
        a.memory.len() == ORDER,
        b.memory.len() == ORDER,
        a.previous == b.previous,
        recovery::in_time(a, b),
        same_numbers(a.previous.rc, speech.rc),
        calm(a, speech, n, most),
        calm(b, speech, n, most),
        n <= FRAME_SAMPLES,
    ensures
        ({
            let k = exactly(speech.rc);
            let w = noise(k, most);
            lattice::driven(k, ORDER as nat, trace(a, b, speech), n) <= n as real * (w * w)
        }),
{
    let k = exactly(speech.rc);
    let e = trace(a, b, speech);
    let w = noise(k, most);
    let ff = |t: int|
        lattice::forward(k, ORDER as nat, e, t) * lattice::forward(k, ORDER as nat, e, t);
    let top = |t: int| w * w;
    assert forall|t: int| 1 <= t <= n implies -top(t) <= #[trigger] ff(t) <= top(t) by {
        let i = (t - 1) as nat;
        lemma_calmer(a, speech, n, (i + 1) as nat, most);
        lemma_calmer(b, speech, n, (i + 1) as nat, most);
        lemma_drive(a, b, speech, i, most);
        assert(i as int + 1 == t);
        let x = lattice::forward(k, ORDER as nat, e, t);
        normal::lemma_limits(x, x, w, w);
    }
    sums::lemma_bound(ff, top, n);
    sums::lemma_constant(w * w, n);
}

/// A voice that is calm is calm up to every earlier sample.
proof fn lemma_calmer(v: Voice, speech: Speech, n: nat, m: nat, most: real)
    requires
        calm(v, speech, n, most),
        m <= n,
    ensures
        calm(v, speech, m, most),
{
}

/// Old filter state is forgotten by every stable filter. Two voices that
/// come from the same frame and are excited alike, through a frame with that
/// frame's coefficients in which both are calm: after `to + 10` samples of
/// it, `to` times the energy that the filter holds of their difference is at
/// most its openings times what it held at the start, but for what rounding
/// drives through it. So the old difference falls as one over time.
pub proof fn law_filter_difference_falls(
    a: Voice,
    b: Voice,
    speech: Speech,
    to: nat,
    most: real,
)
    requires
        a.sound(),
        b.sound(),
        a.previous == b.previous,
        recovery::in_time(a, b),
        same_numbers(a.previous.rc, speech.rc),
        to + ORDER <= FRAME_SAMPLES,
        calm(a, speech, (to + ORDER) as nat, most),
        calm(b, speech, (to + ORDER) as nat, most),
    ensures
        ({
            let k = exactly(speech.rc);
            let n = ORDER as nat;
            let e = trace(a, b, speech);
            let w = noise(k, most);
            let drive = (to + n) as real * (w * w);
            &&& lattice::stable(k, n)
            &&& to as real * lattice::held(k, n, e, (to + n) as int) <= lattice::openings(k, n, n) * (
            lattice::held(k, n, e, 0) + 2 as real * drive) + to as real * drive
            &&& 0 as real <= lattice::held(k, n, e, (to + n) as int) <= lattice::held(k, n, e, 0) + drive
        }),
{
    let k = exactly(speech.rc);
    let n = ORDER as nat;
    let e = trace(a, b, speech);
    let w = noise(k, most);
    let end = (to + n) as nat;
    let drive = end as real * (w * w);
    assert forall|i: int| 0 <= i < n implies reals::size(#[trigger] k[i]) < 1 as real by {
        normal::lemma_inside(speech.rc[i]);
    }
    lemma_driven(a, b, speech, end, most);
    lattice::law_energy_falls(k, n, e, to);
    lattice::law_energy_never_grows(k, n, e, end);
    lattice::lemma_openings(k, n, n);
    let d = lattice::driven(k, n, e, end);
    let q = lattice::openings(k, n, n);
    let start = lattice::held(k, n, e, 0);
    let x = start + 2 as real * d;
    let y = start + 2 as real * drive;
    assert(q * x <= q * y) by (nonlinear_arith)
        requires
            x <= y,
            q >= 0 as real,
    ;
    let tr = to as real;
    assert(tr * d <= tr * drive) by (nonlinear_arith)
        requires
            d <= drive,
            tr >= 0 as real,
    ;
}

/// From frame to frame: what a filter of `k` holds of the difference of two
/// voices as a frame ends is what it holds as the next one begins. So the
/// bounds of frames in a row chain.
pub proof fn law_difference_is_handed_over(
    a: Voice,
    b: Voice,
    speech: Speech,
    next: Speech,
    k: Seq<real>,
)
    requires
        a.memory.len() == ORDER,
        b.memory.len() == ORDER,
    ensures
        lattice::held(k, ORDER as nat, trace(a, b, speech), FRAME_SAMPLES as int)
            == lattice::held(k, ORDER as nat, trace(a.after(speech), b.after(speech), next), 0),
{
    let e = trace(a, b, speech);
    let f = trace(a.after(speech), b.after(speech), next);
    let n = FRAME_SAMPLES as nat;
    let t = FRAME_SAMPLES as int;
    assert forall|j: int| 0 <= j < ORDER implies #[trigger] e(t - j) == f(0 - j) by {
        lemma_trace(a, b, speech, n, j);
        assert(a.after(speech).memory == a.within(speech, n).memory);
        assert(b.after(speech).memory == b.within(speech, n).memory);
    }
    lattice::lemma_held_latest(k, ORDER as nat, ORDER as nat, e, t, f, 0);
}

/// A level that a frame can send: a number up to 2^16, and not negative.
pub open spec fn sendable(gain: Binary32) -> bool {
    &&& order::within(gain, 165)
    &&& gain.value() >= 0
}

/// Every received frame has such a level.
pub proof fn law_received_levels_are_sendable(data: Seq<bool>)
    ensures
        sendable(quant::speech_from(data).gain),
{
    let code = bits::field_at(data, quant::widths(), 2) as int;
    rounding::lemma_magnitude_zero();
    lemma_pow2_pos(165);
    if code != 0 {
        let lo = Binary32::from_bits(quant::GAIN_MIN_LOG2);
        let hi = Binary32::from_bits(quant::GAIN_MAX_LOG2);
        quant::lemma_gain_range();
        lemma_pow2_pos(149);
        quant::lemma_dequantize_range(code, lo, hi, quant::GAIN_BITS);
        math::lemma_exp2_range(
            quant::spec_dequantize(code, lo, hi, quant::GAIN_BITS),
            -1,
            14,
        );
    }
}

/// Levels that can be sent excite a filter within the ceiling.
pub proof fn law_excitation_is_moderate(
    v: Voice,
    previous: Speech,
    speech: Speech,
    subframe: int,
)
    requires
        sendable(previous.gain),
        sendable(speech.gain),
        1 <= speech.pitch <= PITCH_MAX,
        0 <= subframe < SUBFRAMES,
    ensures
        synth::bounded(v.excitation(synth::shape(previous, speech, subframe))),
{
    let s = synth::shape(previous, speech, subframe);
    let limit = Binary32::from_bits(synth::STATE_LIMIT);
    rounding::lemma_magnitude_zero();
    lemma_between_levels(previous.gain, speech.gain, subframe);
    let g = s.gain;
    lemma_limit();
    if s.voiced {
        if v.countdown == 0 {
            lemma_pulse(g, s.period);
        }
    } else {
        let scale = Binary32::from_bits(synth::NOISE_SCALE);
        let level = synth::noise_level(synth::xorshift(v.rng));
        synth::law_noise_range(synth::xorshift(v.rng));
        order::lemma_within_mul(level, g, 149, 165);
        order::lemma_within_bits(scale, 150);
        order::lemma_within_mul(level.mul(g), scale, 165, 150);
        rounding::lemma_pow2_order(166, 168);
    }
}

/// The ceiling, in units.
pub proof fn lemma_limit()
    ensures
        Binary32::from_bits(synth::STATE_LIMIT).finite(),
        Binary32::from_bits(synth::STATE_LIMIT).size() == 1_000_000 * pow2(149),
        pow2(168) <= 1_000_000 * pow2(149),
{
    let limit = Binary32::from_bits(synth::STATE_LIMIT);
    lemma2_to64();
    lemma_pow2_adds(145, 4);
    lemma_pow2_adds(19, 149);
    Binary32::lemma_value_of(limit, 146, 0x74_2400);
    assert(limit.size() == 1_000_000 * pow2(149)) by (nonlinear_arith)
        requires
            limit.size() == (0x80_0000 + 0x74_2400) * pow2(145),
            pow2(149) == pow2(145) * 16,
    ;
}

/// Between two levels lies a level.
pub proof fn lemma_between_levels(from: Binary32, to: Binary32, subframe: int)
    requires
        sendable(from),
        sendable(to),
        0 <= subframe < SUBFRAMES,
    ensures
        sendable(synth::between(from, to, synth::ramp(subframe))),
{
    synth::law_interpolated_gain_is_sound(from, to, subframe);
    synth::lemma_ramp(subframe);
    order::lemma_neg(from);
    order::lemma_within_add(to, from.neg(), 165);
    order::law_between(from, to, synth::ramp(subframe));
}

/// A pulse of a level and a period.
pub proof fn lemma_pulse(g: Binary32, period: int)
    requires
        sendable(g),
        1 <= period <= PITCH_MAX,
    ensures
        synth::bounded(g.mul(math::sqrt(Binary32::of_int(period)))),
{
    let n = Binary32::of_int(period);
    let unit = pow2(149);
    let limit = Binary32::from_bits(synth::STATE_LIMIT);
    lemma_pow2_pos(149);
    lemma_limit();
    Binary32::lemma_of_int(period);
    assert(unit <= period * unit <= 156 * unit) by (nonlinear_arith)
        requires
            1 <= period <= 156,
            unit > 0,
    ;
    accuracy::lemma_is_normal(n, 149);
    root::law_sqrt_squared(n);
    math::law_sqrt_is_a_number(n);
    let y = math::sqrt(n).size();
    let square = unit * unit;
    let size = n.size();
    assert(size * unit <= 156 * square) by (nonlinear_arith)
        requires
            size <= 156 * unit,
            square == unit * unit,
    ;
    assert(y * y <= 157 * square);
    assert(y <= 13 * unit) by (nonlinear_arith)
        requires
            y * y <= 157 * square,
            square == unit * unit,
            unit > 0,
    ;
    lemma2_to64();
    lemma_pow2_adds(16, 149);
    assert(g.size() * y <= limit.size() * unit) by (nonlinear_arith)
        requires
            g.size() <= 0x1_0000 * unit,
            y <= 13 * unit,
            limit.size() == 1_000_000 * unit,
    ;
    order::lemma_mul(g, math::sqrt(n), limit);
    order::lemma_finite(g.mul(math::sqrt(n)), limit);
}

} // verus!
