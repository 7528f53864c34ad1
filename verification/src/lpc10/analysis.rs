//! Analysis: turn a frame of speech into the parameters that describe it.
//!
//! Four things come out of each frame: whether it is voiced, its pitch
//! period, the shape of the vocal tract as ten reflection coefficients, and
//! the energy of what is left after prediction. That is the whole message.
//! The waveform is not transmitted and is not recoverable, which is what
//! buys the bitrate.
use crate::binary32::Binary32;
use crate::lpc10::{Params, Speech, FRAME_SAMPLES, HISTORY, ORDER, PITCH_MAX, PITCH_MIN};
use crate::math;
use vstd::prelude::*;

verus! {

/// Pre-emphasis coefficient, 0.9375. Speech falls off about 6 dB per octave,
/// so flattening it first puts the prediction error where the ear is.
pub const PRE_EMPHASIS: u32 = 0x3f70_0000;

/// Correlation a pitch candidate must reach before the frame is called
/// voiced: 0.35.
pub const VOICING_CORRELATION: u32 = 0x3eb3_3333;

/// Zero-crossing rate above which a frame reads as fricative noise even if
/// something correlated: 0.30.
pub const VOICING_MAX_ZCR: u32 = 0x3e99_999a;

/// Below this RMS a frame is silence; calling it unvoiced keeps the
/// synthesiser from hissing through the gaps: 12.
pub const SILENCE_RMS: u32 = 0x4140_0000;

/// A shorter candidate this close to the best score is preferred, which is
/// what keeps the tracker off octave-down errors: 0.80.
pub const SUBMULTIPLE_MARGIN: u32 = 0x3f4c_cccd;

/// -0, from which adding up starts.
pub const MINUS_ZERO: u32 = 0x8000_0000;

/// 3
pub const THREE: u32 = 0x4040_0000;

/// 0.54
pub const HAMMING_BASE: u32 = 0x3f0a_3d71;

/// 0.46
pub const HAMMING_SWING: u32 = 0x3eeb_851f;

/// 2 pi / 179
pub const HAMMING_SCALE: u32 = 0x3d0f_c6b1;

/// 1.0001
pub const WHITE_NOISE: u32 = 0x3f80_0347;

/// 0.008
pub const LAG_WINDOW: u32 = 0x3c03_126f;

/// -0.5
pub const MINUS_HALF: u32 = 0xbf00_0000;

/// log2(e)
pub const LOG2_E: u32 = 0x3fb8_aa3b;

/// Reflection coefficients are kept this far inside the unit circle: 0.999,
/// and -0.999.
pub const STABLE: u32 = 0x3f7f_be77;

pub const MINUS_STABLE: u32 = 0xbf7f_be77;

pub open spec fn zero() -> Binary32 {
    Binary32::from_bits(math::ZERO)
}

/// `start` and the products of `n` pairs, added up in order.
pub open spec fn sum_products(
    a: Seq<Binary32>,
    from_a: int,
    b: Seq<Binary32>,
    from_b: int,
    n: nat,
    start: Binary32,
) -> Binary32
    decreases n,
{
    if n == 0 {
        start
    } else {
        sum_products(a, from_a, b, from_b, (n - 1) as nat, start).add(
            a[from_a + n - 1].mul(b[from_b + n - 1]),
        )
    }
}

/// One tap of the smoother: a weighted neighbour, where there is one, added
/// to the sum and its weight to the weights.
pub open spec fn tap(
    sums: (Binary32, Binary32),
    h: Seq<Binary32>,
    at: int,
    w: Binary32,
) -> (Binary32, Binary32) {
    if 0 <= at < h.len() {
        (sums.0.add(w.mul(h[at])), sums.1.add(w))
    } else {
        sums
    }
}

/// Five-tap smoothing with weights 1, 2, 3, 2, 1, which keeps the
/// fundamental and drops the fricative energy that would otherwise confuse
/// the pitch search.
pub open spec fn smoothed_at(h: Seq<Binary32>, i: int) -> Binary32 {
    let three = Binary32::from_bits(THREE);
    let two = Binary32::from_bits(math::TWO);
    let one = Binary32::from_bits(math::ONE);
    let centre = (three.mul(h[i]), three);
    let near = tap(tap(centre, h, i - 1, two), h, i + 1, two);
    let far = tap(tap(near, h, i - 2, one), h, i + 2, one);
    far.0.div(far.1)
}

pub open spec fn smoothed(h: Seq<Binary32>) -> Seq<Binary32> {
    Seq::new(h.len(), |i: int| smoothed_at(h, i))
}

/// Where the current frame starts in the history.
pub open spec fn tail() -> int {
    HISTORY - FRAME_SAMPLES
}

/// Energy of the current frame of a smoothed signal.
pub open spec fn current_energy(s: Seq<Binary32>) -> Binary32 {
    sum_products(s, tail(), s, tail(), FRAME_SAMPLES as nat, Binary32::from_bits(MINUS_ZERO))
}

/// Normalised correlation of the frame with itself `lag` samples earlier.
pub open spec fn score(s: Seq<Binary32>, lag: int) -> Binary32 {
    let cross = sum_products(s, tail(), s, tail() - lag, FRAME_SAMPLES as nat, zero());
    let delayed = sum_products(s, tail() - lag, s, tail() - lag, FRAME_SAMPLES as nat, zero());
    let denominator = math::sqrt(current_energy(s).mul(delayed));
    if zero().lt(denominator) {
        cross.div(denominator)
    } else {
        zero()
    }
}

/// The first best-scoring of the `n` shortest periods, with its score.
pub open spec fn best(s: Seq<Binary32>, n: nat) -> (int, Binary32)
    decreases n,
{
    if n == 0 {
        (PITCH_MIN as int, Binary32::from_bits(math::MINUS_ONE))
    } else {
        let before = best(s, (n - 1) as nat);
        let lag = PITCH_MIN + n - 1;
        if before.1.lt(score(s, lag)) {
            (lag, score(s, lag))
        } else {
            before
        }
    }
}

/// The shortest of the periods `lag / 2`, `lag / 3` and so on, with divisors
/// below `divisor`, that scores nearly as well as `lag`; else `lag` itself.
pub open spec fn shortest(s: Seq<Binary32>, lag: int, top: Binary32, divisor: int) -> int
    decreases divisor,
{
    if divisor <= 2 {
        lag
    } else {
        let candidate = lag / (divisor - 1);
        if top.mul(Binary32::from_bits(SUBMULTIPLE_MARGIN)).le(score(s, candidate)) {
            candidate
        } else {
            shortest(s, lag, top, divisor - 1)
        }
    }
}

/// The pitch period of the current frame and the correlation at the best
/// period. A period of 2T correlates as well as T, so the shortest
/// submultiple that the coder represents and that scores nearly as well wins.
pub open spec fn pitch(h: Seq<Binary32>) -> (int, Binary32) {
    let s = smoothed(h);
    if current_energy(s).le(zero()) {
        (PITCH_MIN as int, zero())
    } else {
        let (lag, top) = best(s, (PITCH_MAX - PITCH_MIN + 1) as nat);
        (shortest(s, lag, top, lag / PITCH_MIN as int + 1), top)
    }
}

/// Sign changes among the first `n` neighbouring pairs of a run of samples.
pub open spec fn crossings(x: Seq<Binary32>, n: nat) -> int
    decreases n,
{
    if n == 0 {
        0
    } else {
        crossings(x, (n - 1) as nat) + (if x[n - 1].lt(zero()) != x[n as int].lt(zero()) {
            1int
        } else {
            0
        })
    }
}

pub open spec fn zero_crossing_rate_of(frame: Seq<Binary32>) -> Binary32 {
    Binary32::of_int(crossings(frame, (frame.len() - 1) as nat)).div(
        Binary32::of_int(frame.len() - 1),
    )
}

pub open spec fn rms_of(frame: Seq<Binary32>) -> Binary32 {
    math::sqrt(
        sum_products(
            frame,
            0,
            frame,
            0,
            frame.len(),
            Binary32::from_bits(MINUS_ZERO),
        ).div(Binary32::of_int(frame.len() as int)),
    )
}

/// Hamming window value at `i` over a frame.
pub open spec fn window(i: int) -> Binary32 {
    Binary32::from_bits(HAMMING_BASE).sub(
        Binary32::from_bits(HAMMING_SWING).mul(
            math::cos(Binary32::of_int(i).mul(Binary32::from_bits(HAMMING_SCALE))),
        ),
    )
}

/// The frame with its spectrum flattened and its ends faded.
pub open spec fn windowed(frame: Seq<Binary32>, previous: Binary32) -> Seq<Binary32> {
    Seq::new(
        frame.len(),
        |i: int|
            frame[i].sub(
                Binary32::from_bits(PRE_EMPHASIS).mul(
                    if i == 0 {
                        previous
                    } else {
                        frame[i - 1]
                    },
                ),
            ).mul(window(i)),
    )
}

pub open spec fn correlation(w: Seq<Binary32>, lag: int) -> Binary32 {
    sum_products(w, lag, w, 0, (w.len() - lag) as nat, Binary32::from_bits(MINUS_ZERO))
}

/// The mild window that keeps the recursion away from the singular case
/// that a pure tone or a clipped frame would otherwise produce.
pub open spec fn lag_weight(lag: int) -> Binary32 {
    let f = Binary32::of_int(lag).mul(Binary32::from_bits(LAG_WINDOW));
    math::exp2(
        Binary32::from_bits(MINUS_HALF).mul(f).mul(f).mul(Binary32::from_bits(LOG2_E)),
    )
}

/// Autocorrelation, with a touch of white noise and the lag window.
pub open spec fn conditioned(w: Seq<Binary32>) -> Seq<Binary32> {
    Seq::new(
        (ORDER + 1) as nat,
        |lag: int|
            correlation(w, lag).mul(
                if lag == 0 {
                    Binary32::from_bits(WHITE_NOISE)
                } else {
                    lag_weight(lag)
                },
            ),
    )
}

/// Predictor coefficients of one order more.
pub open spec fn extended(a: Seq<Binary32>, i: int, k: Binary32) -> Seq<Binary32> {
    Seq::new(
        a.len(),
        |j: int|
            if j == i {
                k
            } else if 1 <= j < i {
                a[j].sub(k.mul(a[i - j]))
            } else {
                a[j]
            },
    )
}

pub open spec fn zeros(n: nat) -> Seq<Binary32> {
    Seq::new(n, |i: int| zero())
}

/// The Levinson-Durbin recursion after some orders.
#[verifier::ext_equal]
pub struct Recursion {
    pub rc: Seq<Binary32>,
    pub a: Seq<Binary32>,
    pub error: Binary32,
}

/// What `n` known coefficients leave of the correlation at lag `i`.
pub open spec fn unexplained(r: Seq<Binary32>, a: Seq<Binary32>, i: int, n: nat) -> Binary32
    decreases n,
{
    if n == 0 {
        r[i]
    } else {
        unexplained(r, a, i, (n - 1) as nat).sub(a[n as int].mul(r[i - n]))
    }
}

/// The reflection coefficient of order `i`, kept inside the unit circle: a
/// marginally unstable coefficient here becomes an exploding filter at the
/// far end.
pub open spec fn reflection(r: Seq<Binary32>, s: Recursion, i: int) -> Binary32 {
    unexplained(r, s.a, i, (i - 1) as nat).div(s.error).clamp(
        Binary32::from_bits(MINUS_STABLE),
        Binary32::from_bits(STABLE),
    )
}

/// The recursion after `n` orders. It rests once nothing is left to predict.
pub open spec fn recursion(r: Seq<Binary32>, n: nat) -> Recursion
    decreases n,
{
    if n == 0 {
        Recursion { rc: zeros(ORDER as nat), a: zeros((ORDER + 1) as nat), error: r[0] }
    } else {
        let s = recursion(r, (n - 1) as nat);
        if s.error.le(zero()) {
            s
        } else {
            let k = reflection(r, s, n as int);
            Recursion {
                rc: s.rc.update(n - 1, k),
                a: extended(s.a, n as int, k),
                error: s.error.mul(Binary32::from_bits(math::ONE).sub(k.mul(k))),
            }
        }
    }
}

/// Reflection coefficients of a frame and the RMS of what they leave.
pub open spec fn tract(frame: Seq<Binary32>, previous: Binary32) -> (Seq<Binary32>, Binary32) {
    let w = windowed(frame, previous);
    if correlation(w, 0).le(zero()) {
        (zeros(ORDER as nat), zero())
    } else {
        let s = recursion(conditioned(w), ORDER as nat);
        let left = if s.error.nan() || s.error.lt(zero()) {
            zero()
        } else {
            s.error
        };
        (s.rc, math::sqrt(left.div(Binary32::of_int(FRAME_SAMPLES as int))))
    }
}

/// Reflection coefficients to direct-form predictor coefficients: after `n`
/// orders.
pub open spec fn predictor(rc: Seq<Binary32>, n: nat) -> Seq<Binary32>
    decreases n,
{
    if n == 0 {
        zeros((ORDER + 1) as nat)
    } else {
        extended(predictor(rc, (n - 1) as nat), n as int, rc[n - 1])
    }
}

/// What an analyser remembers of the signal so far.
#[verifier::ext_equal]
pub struct Listener {
    /// Raw input, oldest first; the current frame occupies the tail.
    pub history: Seq<Binary32>,
    /// Last raw sample of the previous frame.
    pub previous: Binary32,
}

impl Listener {
    pub open spec fn start() -> Listener {
        Listener { history: zeros(HISTORY as nat), previous: zero() }
    }

    /// The history with a frame appended and as much dropped at the front.
    pub open spec fn heard(self, frame: Seq<i16>) -> Seq<Binary32> {
        self.history.skip(FRAME_SAMPLES as int) + frame.map_values(
            |s: i16| Binary32::of_int(s as int),
        )
    }

    pub open spec fn after(self, frame: Seq<i16>) -> Listener {
        Listener { history: self.heard(frame), previous: Binary32::of_int(frame.last() as int) }
    }

    /// The parameters of the next frame.
    pub open spec fn analyzed(self, frame: Seq<i16>) -> Speech {
        let h = self.heard(frame);
        let current = h.skip(tail());
        let (period, correlation) = pitch(h);
        let (rc, gain) = tract(current, self.previous);
        Speech {
            voiced: Binary32::from_bits(SILENCE_RMS).le(rms_of(current)) && Binary32::from_bits(
                VOICING_CORRELATION,
            ).le(correlation) && zero_crossing_rate_of(current).le(
                Binary32::from_bits(VOICING_MAX_ZCR),
            ),
            pitch: period,
            gain,
            rc,
        }
    }
}

/// Add a weighted neighbour, where there is one.
fn add_tap(
    acc: Binary32,
    weight: Binary32,
    input: &[Binary32; 336],
    present: bool,
    at: usize,
    w: Binary32,
) -> (r: (Binary32, Binary32))
    requires
        present ==> at < HISTORY,
    ensures
        r == tap((acc, weight), input@, if present { at as int } else { -1 }, w),
{
    if present {
        (acc.add(w.mul(input[at])), weight.add(w))
    } else {
        (acc, weight)
    }
}

/// Five-tap smoothing, which keeps the fundamental and drops the fricative
/// energy that would otherwise confuse the pitch search.
fn smooth(input: &[Binary32; 336], output: &mut [Binary32; 336])
    ensures
        final(output)@ == smoothed(input@),
{
    let three = Binary32::from_bits(THREE);
    let two = Binary32::from_bits(math::TWO);
    let one = Binary32::from_bits(math::ONE);
    let mut i: usize = 0;
    while i < HISTORY
        invariant
            i <= HISTORY,
            three == Binary32::from_bits(THREE),
            two == Binary32::from_bits(math::TWO),
            one == Binary32::from_bits(math::ONE),
            forall|k: int| 0 <= k < i ==> output@[k] == smoothed_at(input@, k),
        decreases HISTORY - i,
    {
        let (a, wa) = add_tap(three.mul(input[i]), three, input, i >= 1, i.wrapping_sub(1), two);
        let (b, wb) = add_tap(a, wa, input, i + 1 < HISTORY, i + 1, two);
        let (c, wc) = add_tap(b, wb, input, i >= 2, i.wrapping_sub(2), one);
        let (d, wd) = add_tap(c, wc, input, i + 2 < HISTORY, i + 2, one);
        output[i] = d.div(wd);
        i = i + 1;
    }
    assert(output@ =~= smoothed(input@));
}

/// Sum of the products of `n` pairs.
fn dot(
    a: &[Binary32],
    from_a: usize,
    b: &[Binary32],
    from_b: usize,
    n: usize,
    start: Binary32,
) -> (r: Binary32)
    requires
        from_a + n <= a@.len(),
        from_b + n <= b@.len(),
    ensures
        r == sum_products(a@, from_a as int, b@, from_b as int, n as nat, start),
{
    let mut acc = start;
    let mut i: usize = 0;
    assert(a.len() == a@.len() && b.len() == b@.len());
    while i < n
        invariant
            i <= n,
            from_a + n <= usize::MAX,
            from_b + n <= usize::MAX,
            from_a + n <= a@.len(),
            from_b + n <= b@.len(),
            acc == sum_products(a@, from_a as int, b@, from_b as int, i as nat, start),
        decreases n - i,
    {
        acc = acc.add(a[from_a + i].mul(b[from_b + i]));
        i = i + 1;
    }
    acc
}

fn zero_crossing_rate(frame: &[Binary32]) -> (r: Binary32)
    requires
        1 <= frame@.len() <= 0x1_0000,
    ensures
        r == zero_crossing_rate_of(frame@),
{
    let nought = Binary32::from_bits(math::ZERO);
    let pairs: usize = frame.len() - 1;
    let mut count: i64 = 0;
    let mut i: usize = 0;
    while i < pairs
        invariant
            i <= pairs,
            pairs == frame@.len() - 1,
            frame@.len() <= 0x1_0000,
            nought == zero(),
            0 <= count <= i,
            count == crossings(frame@, i as nat),
        decreases pairs - i,
    {
        if frame[i].lt(nought) != frame[i + 1].lt(nought) {
            count = count + 1;
        }
        i = i + 1;
    }
    Binary32::from_i64(count).div(Binary32::from_i64(pairs as i64))
}

fn frame_rms(frame: &[Binary32]) -> (r: Binary32)
    requires
        frame@.len() <= 0x1_0000,
    ensures
        r == rms_of(frame@),
{
    let count: usize = frame.len();
    let energy = dot(frame, 0, frame, 0, count, Binary32::from_bits(MINUS_ZERO));
    math::sqrt(energy.div(Binary32::from_i64(count as i64)))
}

/// Hamming window value at `i` over a frame.
fn hamming(i: usize) -> (r: Binary32)
    requires
        i <= 0x1_0000,
    ensures
        r == window(i as int),
{
    Binary32::from_bits(HAMMING_BASE).sub(
        Binary32::from_bits(HAMMING_SWING).mul(
            math::cos(Binary32::from_i64(i as i64).mul(Binary32::from_bits(HAMMING_SCALE))),
        ),
    )
}

/// Raise predictor coefficients to order `i`, whose reflection coefficient
/// is `k`.
fn extend(a: &mut [Binary32; 11], i: usize, k: Binary32)
    requires
        1 <= i <= ORDER,
    ensures
        final(a)@ == extended(old(a)@, i as int, k),
{
    let before: [Binary32; 11] = *a;
    a[i] = k;
    let mut j: usize = 1;
    while j < i
        invariant
            1 <= j <= i <= ORDER,
            before@ == old(a)@,
            forall|m: int| 0 <= m < 11 ==> a@[m] == (if m < j || m == i {
                extended(before@, i as int, k)[m]
            } else {
                before@[m]
            }),
        decreases i - j,
    {
        a[j] = before[j].sub(k.mul(before[i - j]));
        j = j + 1;
    }
    assert(a@ =~= extended(old(a)@, i as int, k));
}

/// Levinson-Durbin: autocorrelation to reflection coefficients.
///
/// Returns the coefficients and the energy remaining after prediction.
fn levinson(r: &[Binary32; 11]) -> (out: ([Binary32; 10], Binary32))
    ensures
        ({
            let s = recursion(r@, ORDER as nat);
            &&& out.0@ == s.rc
            &&& out.1 == (if s.error.nan() || s.error.lt(zero()) {
                zero()
            } else {
                s.error
            })
        }),
{
    let nought = Binary32::from_bits(math::ZERO);
    let mut rc: [Binary32; 10] = [nought; 10];
    let mut a: [Binary32; 11] = [nought; 11];
    let mut error = r[0];
    assert(rc@ =~= zeros(10));
    assert(a@ =~= zeros(11));
    let mut i: usize = 1;
    while i <= ORDER
        invariant
            1 <= i <= ORDER + 1,
            nought == zero(),
            ({
                let s = recursion(r@, (i - 1) as nat);
                rc@ == s.rc && a@ == s.a && error == s.error
            }),
        decreases ORDER + 1 - i,
    {
        if nought.lt(error) || error.is_nan() {
            let mut acc = r[i];
            let mut j: usize = 1;
            while j < i
                invariant
                    1 <= j <= i <= ORDER,
                    acc == unexplained(r@, a@, i as int, (j - 1) as nat),
                decreases i - j,
            {
                acc = acc.sub(a[j].mul(r[i - j]));
                j = j + 1;
            }
            let k = acc.div(error).clamp(
                Binary32::from_bits(MINUS_STABLE),
                Binary32::from_bits(STABLE),
            );
            rc[i - 1] = k;
            extend(&mut a, i, k);
            error = error.mul(Binary32::from_bits(math::ONE).sub(k.mul(k)));
        }
        i = i + 1;
    }
    let left = if error.is_nan() || error.lt(nought) { nought } else { error };
    (rc, left)
}

/// Reflection coefficients to direct-form predictor coefficients.
///
/// The inverse of what the analysis accumulates, and the decoder's way back
/// to a filter it can run.
pub fn reflection_to_predictor(rc: &[Binary32; 10]) -> (a: [Binary32; 11])
    ensures
        a@ == predictor(rc@, ORDER as nat),
{
    let mut a: [Binary32; 11] = [Binary32::from_bits(math::ZERO); 11];
    assert(a@ =~= zeros(11));
    let mut i: usize = 1;
    while i <= ORDER
        invariant
            1 <= i <= ORDER + 1,
            a@ == predictor(rc@, (i - 1) as nat),
        decreases ORDER + 1 - i,
    {
        extend(&mut a, i, rc[i - 1]);
        i = i + 1;
    }
    a
}

/// Rolling analysis state. Pitch needs to look back further than one frame,
/// so the analyser keeps enough history for the longest period it supports.
pub struct Analyzer {
    /// Raw input, oldest first; the current frame occupies the tail.
    history: [Binary32; 336],
    /// Last raw sample of the previous frame, so pre-emphasis is continuous.
    previous_sample: Binary32,
}

impl View for Analyzer {
    type V = Listener;

    closed spec fn view(&self) -> Listener {
        Listener { history: self.history@, previous: self.previous_sample }
    }
}

impl Default for Analyzer {
    fn default() -> (r: Analyzer)
        ensures
            r@ == Listener::start(),
    {
        Self::new()
    }
}

impl Analyzer {
    /// An analyser that has heard only silence.
    pub fn new() -> (r: Analyzer)
        ensures
            r@ == Listener::start(),
    {
        let nought = Binary32::from_bits(math::ZERO);
        let r = Analyzer { history: [nought; 336], previous_sample: nought };
        assert(r@ =~= Listener::start());
        r
    }

    /// Analyse one frame, which must be [`FRAME_SAMPLES`] long.
    pub fn analyze(&mut self, frame: &[i16]) -> (r: Params)
        requires
            frame@.len() == FRAME_SAMPLES,
        ensures
            r@ == old(self)@.analyzed(frame@),
            final(self)@ == old(self)@.after(frame@),
    {
        let ghost before = self@;
        let ghost h = before.heard(frame@);
        self.take_in(frame);
        proof {
            assert(self@.history == h);
        }
        let (period, correlation) = self.estimate_pitch();
        let current: &[Binary32] = vstd::slice::slice_subrange(
            self.history.as_slice(),
            HISTORY - FRAME_SAMPLES,
            HISTORY,
        );
        assert(current@ =~= h.skip(tail()));
        let zcr = zero_crossing_rate(current);
        let rms = frame_rms(current);
        let voiced: bool = Binary32::from_bits(SILENCE_RMS).le(rms) && Binary32::from_bits(
            VOICING_CORRELATION,
        ).le(correlation) && zcr.le(Binary32::from_bits(VOICING_MAX_ZCR));
        let (rc, gain) = self.linear_prediction();
        proof {
            assert(h.last() == Binary32::of_int(frame@.last() as int));
            assert(self@ =~= before.after(frame@));
        }
        Params { voiced, pitch: period as u8, gain, rc }
    }

    /// Shift a frame into the history.
    fn take_in(&mut self, frame: &[i16])
        requires
            frame@.len() == FRAME_SAMPLES,
        ensures
            final(self)@.history == old(self)@.heard(frame@),
            final(self)@.previous == old(self)@.previous,
    {
        let ghost old_history = self.history@;
        let kept: usize = HISTORY - FRAME_SAMPLES;
        let mut i: usize = 0;
        while i < kept
            invariant
                i <= kept == HISTORY - FRAME_SAMPLES,
                self@.previous == old(self)@.previous,
                forall|k: int| 0 <= k < i ==> self.history@[k] == old_history[k + FRAME_SAMPLES],
                forall|k: int| i <= k < HISTORY ==> self.history@[k] == old_history[k],
            decreases kept - i,
        {
            self.history[i] = self.history[i + FRAME_SAMPLES];
            i = i + 1;
        }
        let mut j: usize = 0;
        while j < FRAME_SAMPLES
            invariant
                j <= FRAME_SAMPLES == frame@.len(),
                kept == HISTORY - FRAME_SAMPLES,
                self@.previous == old(self)@.previous,
                forall|k: int| 0 <= k < kept ==> self.history@[k] == old_history[k + FRAME_SAMPLES],
                forall|k: int|
                    kept <= k < kept + j ==> self.history@[k] == Binary32::of_int(
                        frame@[k - kept] as int,
                    ),
            decreases FRAME_SAMPLES - j,
        {
            self.history[kept + j] = Binary32::from_i64(frame[j] as i64);
            j = j + 1;
        }
        assert(self@.history =~= old(self)@.heard(frame@));
    }

    /// Normalised autocorrelation over the supported period range, on a
    /// smoothed copy of the signal.
    ///
    /// Returns the best period and its correlation. The correlation is what
    /// the voicing decision reads, so an unvoiced frame still reports the
    /// lag it liked most; the caller ignores it.
    fn estimate_pitch(&self) -> (r: (usize, Binary32))
        ensures
            (r.0 as int, r.1) == pitch(self@.history),
            PITCH_MIN <= r.0 <= PITCH_MAX,
    {
        let nought = Binary32::from_bits(math::ZERO);
        let mut smooth_history: [Binary32; 336] = [nought; 336];
        smooth(&self.history, &mut smooth_history);
        let ghost s = smoothed(self@.history);
        let signal: &[Binary32] = smooth_history.as_slice();
        let start: usize = HISTORY - FRAME_SAMPLES;
        let energy = dot(
            signal,
            start,
            signal,
            start,
            FRAME_SAMPLES,
            Binary32::from_bits(MINUS_ZERO),
        );
        if energy.le(nought) {
            return (PITCH_MIN, nought);
        }
        let mut best_lag: usize = PITCH_MIN;
        let mut best_score = Binary32::from_bits(math::MINUS_ONE);
        let mut scores: [Binary32; 157] = [nought; 157];
        let mut lag: usize = PITCH_MIN;
        while lag <= PITCH_MAX
            invariant
                PITCH_MIN <= lag <= PITCH_MAX + 1,
                PITCH_MIN <= best_lag <= PITCH_MAX,
                nought == zero(),
                start == tail(),
                signal@ == s,
                s.len() == HISTORY,
                energy == current_energy(s),
                (best_lag as int, best_score) == best(s, (lag - PITCH_MIN) as nat),
                forall|k: int| PITCH_MIN <= k < lag ==> scores@[k] == score(s, k),
            decreases PITCH_MAX + 1 - lag,
        {
            let cross = dot(signal, start, signal, start - lag, FRAME_SAMPLES, nought);
            let delayed = dot(signal, start - lag, signal, start - lag, FRAME_SAMPLES, nought);
            let denominator = math::sqrt(energy.mul(delayed));
            let value = if nought.lt(denominator) { cross.div(denominator) } else { nought };
            assert(value == score(s, lag as int));
            scores[lag] = value;
            if best_score.lt(value) {
                best_score = value;
                best_lag = lag;
            }
            lag = lag + 1;
        }
        // A period of 2T correlates as well as T, so the raw maximum lands
        // an octave low about as often as not. Walk down the submultiples
        // and take the shortest one that still scores nearly as well.
        let mut chosen: usize = best_lag;
        let mut divisor: usize = 2;
        let near = best_score.mul(Binary32::from_bits(SUBMULTIPLE_MARGIN));
        while divisor <= best_lag / PITCH_MIN
            invariant
                2 <= divisor <= best_lag / PITCH_MIN + 1 || divisor == 2,
                PITCH_MIN <= best_lag <= PITCH_MAX,
                PITCH_MIN <= chosen <= PITCH_MAX,
                near == best_score.mul(Binary32::from_bits(SUBMULTIPLE_MARGIN)),
                forall|k: int| PITCH_MIN <= k <= PITCH_MAX ==> scores@[k] == score(s, k),
                chosen == shortest(s, best_lag as int, best_score, divisor as int),
            decreases best_lag - divisor,
        {
            assert(PITCH_MIN <= best_lag / divisor <= best_lag) by (nonlinear_arith)
                requires
                    2 <= divisor <= best_lag / PITCH_MIN,
                    PITCH_MIN == 20,
            ;
            let candidate: usize = best_lag / divisor;
            if near.le(scores[candidate]) {
                chosen = candidate;
            }
            divisor = divisor + 1;
        }
        (chosen, best_score)
    }

    /// Windowed autocorrelation into reflection coefficients, plus the RMS
    /// of the prediction residual.
    fn linear_prediction(&mut self) -> (r: ([Binary32; 10], Binary32))
        ensures
            (r.0@, r.1) == tract(old(self)@.history.skip(tail()), old(self)@.previous),
            final(self)@.history == old(self)@.history,
            final(self)@.previous == old(self)@.history.last(),
    {
        let nought = Binary32::from_bits(math::ZERO);
        let ghost frame = self@.history.skip(tail());
        let ghost first = self@.previous;
        let start: usize = HISTORY - FRAME_SAMPLES;
        let mut faded: [Binary32; 180] = [nought; 180];
        let mut previous = self.previous_sample;
        let mut i: usize = 0;
        while i < FRAME_SAMPLES
            invariant
                i <= FRAME_SAMPLES,
                start == tail(),
                self@ == old(self)@,
                frame == self@.history.skip(tail()),
                first == self@.previous,
                previous == (if i == 0 {
                    first
                } else {
                    frame[i - 1]
                }),
                forall|k: int| 0 <= k < i ==> faded@[k] == windowed(frame, first)[k],
            decreases FRAME_SAMPLES - i,
        {
            let sample = self.history[start + i];
            faded[i] = sample.sub(Binary32::from_bits(PRE_EMPHASIS).mul(previous)).mul(hamming(i));
            previous = sample;
            i = i + 1;
        }
        self.previous_sample = previous;
        let ghost w = windowed(frame, first);
        assert(faded@ =~= w);
        let signal: &[Binary32] = faded.as_slice();
        let mut r: [Binary32; 11] = [nought; 11];
        let mut lag: usize = 0;
        while lag <= ORDER
            invariant
                lag <= ORDER + 1,
                signal@ == w,
                w.len() == FRAME_SAMPLES,
                forall|k: int| 0 <= k < lag ==> r@[k] == correlation(w, k),
            decreases ORDER + 1 - lag,
        {
            r[lag] = dot(
                signal,
                lag,
                signal,
                0,
                FRAME_SAMPLES - lag,
                Binary32::from_bits(MINUS_ZERO),
            );
            lag = lag + 1;
        }
        if r[0].le(nought) {
            let rc: [Binary32; 10] = [nought; 10];
            assert(rc@ =~= zeros(10));
            return (rc, nought);
        }
        // A touch of white noise and a mild lag window keep the recursion
        // away from the singular case that a pure tone or a clipped frame
        // would otherwise produce.
        r[0] = r[0].mul(Binary32::from_bits(WHITE_NOISE));
        let mut lag: usize = 1;
        while lag <= ORDER
            invariant
                1 <= lag <= ORDER + 1,
                forall|k: int| 0 <= k < lag ==> r@[k] == conditioned(w)[k],
                forall|k: int| lag <= k <= ORDER ==> r@[k] == correlation(w, k),
            decreases ORDER + 1 - lag,
        {
            let f = Binary32::from_i64(lag as i64).mul(Binary32::from_bits(LAG_WINDOW));
            r[lag] = r[lag].mul(
                math::exp2(
                    Binary32::from_bits(MINUS_HALF).mul(f).mul(f).mul(Binary32::from_bits(LOG2_E)),
                ),
            );
            lag = lag + 1;
        }
        assert(r@ =~= conditioned(w));
        let (rc, left) = levinson(&r);
        (rc, math::sqrt(left.div(Binary32::from_i64(FRAME_SAMPLES as i64))))
    }
}

/// The predictor depends on the coefficients of its orders alone.
proof fn lemma_predictor_front(a: Seq<Binary32>, b: Seq<Binary32>, n: nat)
    requires
        n <= a.len(),
        n <= b.len(),
        forall|i: int| 0 <= i < n ==> a[i] == b[i],
    ensures
        predictor(a, n) == predictor(b, n),
    decreases n,
{
    if n > 0 {
        lemma_predictor_front(a, b, (n - 1) as nat);
    }
}

/// The way back from the coefficients is exact: as long as there is error
/// left to predict, the predictor built from the reflection coefficients is
/// the one that the recursion accumulated, to the last bit.
pub proof fn law_predictor_is_what_the_recursion_accumulates(r: Seq<Binary32>, n: nat)
    requires
        n <= ORDER,
        forall|m: nat| m < n ==> !#[trigger] recursion(r, m).error.le(zero()),
    ensures
        recursion(r, n).a == predictor(recursion(r, n).rc, n),
        recursion(r, n).rc.len() == ORDER,
    decreases n,
{
    if n > 0 {
        let m = (n - 1) as nat;
        law_predictor_is_what_the_recursion_accumulates(r, m);
        let s = recursion(r, m);
        assert(!s.error.le(zero()));
        lemma_predictor_front(s.rc, recursion(r, n).rc, m);
    }
}

} // verus!
