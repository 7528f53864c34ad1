//! Which pitch the analyser finds, from the exact correlations.
use crate::binary32::Binary32;
use crate::lpc10::analysis;
use crate::lpc10::analysis::{MINUS_ZERO, SUBMULTIPLE_MARGIN};
use crate::lpc10::likeness;
use crate::lpc10::{PITCH_MAX, PITCH_MIN};
use crate::math;
use crate::order;
use crate::reals;
use crate::rounding;
use vstd::arithmetic::power2::*;
use vstd::prelude::*;

verus! {

/// Whether every stretch that a lag can reach has energy, and the frame too.
pub open spec fn lively(s: Seq<Binary32>) -> bool {
    &&& likeness::tame(s)
    &&& likeness::power(s, 0) >= 1 as real
    &&& forall|lag: int|
        PITCH_MIN <= lag <= PITCH_MAX ==> #[trigger] likeness::power(s, lag) >= 1 as real
}

/// Whether `f` is the normalised correlation at a lag.
pub open spec fn rated(s: Seq<Binary32>, lag: int, f: real) -> bool {
    exists|g: real| #[trigger] likeness::alike(s, lag, f, g)
}

/// The score of a lag, as a real.
pub open spec fn score(s: Seq<Binary32>, lag: int) -> real {
    reals::num(analysis::score(s, lag))
}

/// Scores are numbers, and normalised correlations.
#[verifier::spinoff_prover]
pub proof fn lemma_score(s: Seq<Binary32>, lag: int)
    requires
        lively(s),
        PITCH_MIN <= lag <= PITCH_MAX,
    ensures
        analysis::score(s, lag).finite(),
        rated(s, lag, score(s, lag)),
{
    assert(likeness::power(s, lag) >= 1 as real);
    let g = likeness::law_score_is_the_normalised_correlation(s, lag);
    assert(likeness::alike(s, lag, score(s, lag), g));
}

/// Values and reals are ordered alike.
#[verifier::spinoff_prover]
pub proof fn lemma_order(a: Binary32, b: Binary32)
    ensures
        a.value() <= b.value() <==> reals::num(a) <= reals::num(b),
{
    reals::lemma_num(a);
    reals::lemma_num(b);
    reals::lemma_unit();
    let u = pow2(149) as real;
    let x = reals::num(a);
    let y = reals::num(b);
    if x <= y {
        likeness::lemma_times(x, y, u);
    } else {
        assert(y * u < x * u) by (nonlinear_arith)
            requires
                y < x,
                u > 0 as real,
        ;
    }
}

/// The search keeps the first best score.
#[verifier::spinoff_prover]
pub proof fn lemma_best(s: Seq<Binary32>, n: nat)
    requires
        lively(s),
        n <= PITCH_MAX - PITCH_MIN + 1,
    ensures
        ({
            let (b, t) = analysis::best(s, n);
            &&& t.finite()
            &&& PITCH_MIN <= b <= PITCH_MAX
            &&& t == analysis::score(s, b) || b == PITCH_MIN && reals::num(t) == -(1 as real)
            &&& forall|lag: int|
                PITCH_MIN <= lag < PITCH_MIN + n ==> #[trigger] score(s, lag) <= reals::num(t)
            &&& forall|lag: int| PITCH_MIN <= lag < b ==> #[trigger] score(s, lag) < reals::num(t)
        }),
    decreases n,
{
    if n == 0 {
        lemma_minus_one();
    } else {
        let m = (n - 1) as nat;
        lemma_best(s, m);
        let (b, t) = analysis::best(s, m);
        let lag = PITCH_MIN + n - 1;
        lemma_score(s, lag);
        lemma_order(analysis::score(s, lag), t);
        lemma_order(t, analysis::score(s, lag));
        let now = analysis::best(s, n).1;
        assert forall|l: int| PITCH_MIN <= l < PITCH_MIN + n implies #[trigger] score(s, l)
            <= reals::num(now) by {
            if l < lag {
                assert(score(s, l) <= reals::num(t));
            }
        }
        let first = analysis::best(s, n).0;
        assert forall|l: int| PITCH_MIN <= l < first implies #[trigger] score(s, l)
            < reals::num(now) by {
            if first == lag {
                assert(score(s, l) <= reals::num(t));
            }
        }
    }
}

#[verifier::spinoff_prover]
proof fn lemma_minus_one()
    ensures
        Binary32::from_bits(math::MINUS_ONE).finite(),
        reals::num(Binary32::from_bits(math::MINUS_ONE)) == -(1 as real),
{
    let x = Binary32::from_bits(math::MINUS_ONE);
    lemma2_to64();
    lemma_pow2_adds(126, 23);
    Binary32::lemma_value_of(x, 127, 0);
    assert(x.size() == pow2(149)) by (nonlinear_arith)
        requires
            x.size() == (0x80_0000 + 0) * pow2(126),
            pow2(149) == pow2(126) * 0x80_0000,
    ;
    assert(x.value() == (-1) * pow2(149));
    reals::lemma_num_order(x, -1);
}

/// The shortest submultiple that scores nearly as well.
#[verifier::spinoff_prover]
pub proof fn lemma_shortest(s: Seq<Binary32>, lag: int, top: Binary32, divisor: int) -> (d: int)
    ensures
        d >= 1,
        d == 1 || d < divisor,
        analysis::shortest(s, lag, top, divisor) == lag / d,
        d > 1 ==> top.mul(Binary32::from_bits(SUBMULTIPLE_MARGIN)).le(
            analysis::score(s, lag / d),
        ),
        forall|e: int|
            d < e < divisor ==> !top.mul(Binary32::from_bits(SUBMULTIPLE_MARGIN)).le(
                analysis::score(s, #[trigger] (lag / e)),
            ),
    decreases divisor,
{
    if divisor <= 2 {
        assert(lag / 1 == lag);
        1
    } else if top.mul(Binary32::from_bits(SUBMULTIPLE_MARGIN)).le(
        analysis::score(s, lag / (divisor - 1)),
    ) {
        divisor - 1
    } else {
        lemma_shortest(s, lag, top, divisor - 1)
    }
}

/// Four fifths of a score.
#[verifier::spinoff_prover]
pub proof fn lemma_margin(top: Binary32)
    requires
        top.finite(),
        reals::size(reals::num(top)) <= 2 as real,
    ensures
        top.mul(Binary32::from_bits(SUBMULTIPLE_MARGIN)).finite(),
        reals::near(
            reals::num(top.mul(Binary32::from_bits(SUBMULTIPLE_MARGIN))),
            4 as real / 5 as real * reals::num(top),
            1 as real / 1_000_000 as real,
        ),
{
    let m = Binary32::from_bits(SUBMULTIPLE_MARGIN);
    lemma_margin_constant();
    reals::lemma_eps();
    reals::lemma_num_abs(top);
    reals::lemma_num_order(top.abs(), 2);
    lemma_pow2_unfold(150);
    order::lemma_within_bits(m, 149);
    order::lemma_within_mul(top, m, 150, 149);
    reals::lemma_num_product(top, m);
    let x = reals::num(top);
    let c = reals::num(m);
    let off = c - 4 as real / 5 as real;
    assert((c - 4 as real / 5 as real) * x == x * c - 4 as real / 5 as real * x)
        by (nonlinear_arith);
    crate::lpc10::motion::lemma_limits(off, x, 1 as real / 10_000_000 as real, 2 as real);
    reals::lemma_eps_of(reals::size(x * c));
}

#[verifier::spinoff_prover]
proof fn lemma_margin_constant()
    ensures
        Binary32::from_bits(SUBMULTIPLE_MARGIN).finite(),
        crate::exponential::constant(SUBMULTIPLE_MARGIN) * 0x100_0000 as real == 0xcc_cccd as real,
{
    lemma2_to64();
    crate::exponential::lemma_constant(SUBMULTIPLE_MARGIN, 126, 0x4c_cccd, 24);
}

/// A score lies in [-1, 1], but for rounding.
#[verifier::spinoff_prover]
pub proof fn lemma_score_range(s: Seq<Binary32>, lag: int)
    requires
        lively(s),
        PITCH_MIN <= lag <= PITCH_MAX,
    ensures
        reals::size(score(s, lag)) <= 2 as real,
{
    assert(likeness::power(s, lag) >= 1 as real);
    let g = likeness::law_score_is_the_normalised_correlation(s, lag);
    let f = score(s, lag);
    likeness::lemma_cross_bound(s, lag, g);
    reals::lemma_size_product(f, g);
    let a = reals::size(f);
    if a > 2 as real {
        likeness::lemma_times(2 as real, a, g);
    }
}

/// Whether the normalised correlation at a lag is at most a bound.
pub open spec fn within(s: Seq<Binary32>, lag: int, bound: real) -> bool {
    exists|f: real| #[trigger] rated(s, lag, f) && f <= bound
}

/// What the pitch is: there is a best period, whose normalised correlation no
/// period of the range exceeds and no shorter one reaches, and the pitch is
/// that period or the shortest of its submultiples that correlates four fifths
/// as well.
pub open spec fn picked(s: Seq<Binary32>, pitch: int, top: real, best: int, d: int) -> bool {
    &&& PITCH_MIN <= best <= PITCH_MAX
    &&& d >= 1
    &&& pitch == best / d
    &&& PITCH_MIN <= pitch
    &&& rated(s, best, top) || top == -(1 as real)
    &&& forall|lag: int| PITCH_MIN <= lag < best ==> #[trigger] score(s, lag) < top
    &&& forall|lag: int|
        PITCH_MIN <= lag <= PITCH_MAX ==> #[trigger] within(s, lag, top)
    &&& d > 1 ==> exists|f: real| #[trigger]
        rated(s, pitch, f) && f >= 4 as real / 5 as real * top - 1 as real / 1_000_000 as real
    &&& forall|e: int|
        e > d && PITCH_MIN <= #[trigger] (best / e) ==> within(
            s,
            best / e,
            4 as real / 5 as real * top + 1 as real / 1_000_000 as real,
        )
}

/// The pitch is the best period, or its shortest good submultiple, stated on
/// the exact sums, for every lag of the range.
#[verifier::spinoff_prover]
pub proof fn law_pitch_is_the_best_period(h: Seq<Binary32>) -> (r: (int, int))
    requires
        lively(analysis::smoothed(h)),
    ensures
        picked(
            analysis::smoothed(h),
            analysis::pitch(h).0,
            reals::num(analysis::pitch(h).1),
            r.0,
            r.1,
        ),
{
    let s = analysis::smoothed(h);
    let n = (PITCH_MAX - PITCH_MIN + 1) as nat;
    lemma_awake(s);
    lemma_best(s, n);
    let (b, t) = analysis::best(s, n);
    let top = reals::num(t);
    lemma_score(s, b);
    lemma_score_range(s, b);
    lemma_margin(t);
    let near = t.mul(Binary32::from_bits(SUBMULTIPLE_MARGIN));
    let d = lemma_shortest(s, b, t, b / PITCH_MIN as int + 1);
    let p = analysis::pitch(h).0;
    assert forall|lag: int| PITCH_MIN <= lag <= PITCH_MAX implies #[trigger] within(
        s,
        lag,
        top,
    ) by {
        lemma_score(s, lag);
        assert(score(s, lag) <= top);
        assert(rated(s, lag, score(s, lag)));
    }
    lemma_divided(b, d);
    if d > 1 {
        lemma_score(s, p);
        lemma_order(near, analysis::score(s, p));
        assert(rated(s, p, score(s, p)));
    }
    assert forall|e: int| e > d && PITCH_MIN <= #[trigger] (b / e) implies within(
        s,
        b / e,
        4 as real / 5 as real * top + 1 as real / 1_000_000 as real,
    ) by {
        lemma_divided_far(b, e);
        lemma_score(s, b / e);
        lemma_order(near, analysis::score(s, b / e));
        assert(rated(s, b / e, score(s, b / e)));
    }
    (b, d)
}

/// A submultiple that the search reaches is a period of the range.
#[verifier::spinoff_prover]
proof fn lemma_divided(b: int, d: int)
    requires
        PITCH_MIN <= b <= PITCH_MAX,
        d == 1 || 1 <= d < b / PITCH_MIN as int + 1,
    ensures
        PITCH_MIN <= b / d <= PITCH_MAX,
{
    if d > 1 {
        assert(20 <= b / d <= b) by (nonlinear_arith)
            requires
                1 <= d <= b / 20,
        ;
    } else {
        assert(b / 1 == b);
    }
}

/// A submultiple that is a period of the range is one that the search reaches.
#[verifier::spinoff_prover]
pub proof fn lemma_divided_far(b: int, e: int)
    requires
        PITCH_MIN <= b <= PITCH_MAX,
        e >= 1,
        PITCH_MIN <= b / e,
    ensures
        e < b / PITCH_MIN as int + 1,
        b / e <= PITCH_MAX,
{
    assert(e <= b / 20 && b / e <= b) by (nonlinear_arith)
        requires
            20 <= b / e,
            e >= 1,
            b >= 20,
    ;
}

/// A lively frame is not silence.
#[verifier::spinoff_prover]
pub proof fn lemma_awake(s: Seq<Binary32>)
    requires
        lively(s),
    ensures
        !analysis::current_energy(s).le(analysis::zero()),
{
    rounding::lemma_magnitude_zero();
    likeness::lemma_energy(s, 0, Binary32::from_bits(MINUS_ZERO));
    let x = analysis::current_energy(s);
    reals::lemma_num(x);
}

} // verus!
