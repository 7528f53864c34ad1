//! What drives the filter: where the pulses fall, how large they are, and
//! what the noise is.
use crate::binary32::Binary32;
use crate::lpc10::fading;
use crate::lpc10::synth;
use crate::lpc10::synth::{Voice, SUBFRAME_LEN};
use crate::lpc10::{Speech, FRAME_SAMPLES, PITCH_MAX};
use crate::math;
use crate::reals;
use crate::root;
use crate::rounding;
use vstd::arithmetic::div_mod::*;
use vstd::arithmetic::power2::*;
use vstd::prelude::*;

verus! {

/// What drives the filter at sample `n` of a frame.
pub open spec fn drive(v: Voice, speech: Speech, n: int) -> Binary32 {
    v.within(speech, n as nat).excitation(
        synth::shape(v.previous, speech, n / SUBFRAME_LEN as int),
    )
}

/// The level that a frame has at sample `n`.
pub open spec fn level(v: Voice, speech: Speech, n: int) -> real {
    reals::num(synth::shape(v.previous, speech, n / SUBFRAME_LEN as int).gain)
}

/// The samples until the next pulse, counted down modulo the period.
pub open spec fn phase(first: int, period: int, n: int) -> int {
    if n <= first {
        first - n
    } else {
        (first - n) % period
    }
}

/// Counting down within a voiced frame.
proof fn lemma_countdown(v: Voice, speech: Speech, n: nat)
    requires
        speech.voiced,
        speech.pitch >= 1,
        v.countdown >= 0,
    ensures
        v.within(speech, n).countdown == phase(v.countdown, speech.pitch, n as int),
        v.within(speech, n).previous == v.previous,
    decreases n,
{
    if n > 0 {
        let m = (n - 1) as nat;
        lemma_countdown(v, speech, m);
        let t = speech.pitch;
        let c = v.countdown;
        lemma_one_less(c - m, t);
        if m == c {
            lemma_small_mod(0, t as nat);
        }
    }
}

/// One less, modulo the period.
proof fn lemma_one_less(x: int, t: int)
    requires
        t >= 1,
    ensures
        (x - 1) % t == (if x % t == 0 {
            t - 1
        } else {
            x % t - 1
        }),
        0 <= x % t < t,
{
    lemma_fundamental_div_mod(x, t);
    lemma_mod_bound(x, t);
    let q = x / t;
    let r = x % t;
    if r == 0 {
        assert(x - 1 == (q - 1) * t + (t - 1)) by (nonlinear_arith)
            requires
                x == t * q,
        ;
        lemma_fundamental_div_mod_converse(x - 1, t, q - 1, t - 1);
    } else {
        assert(x - 1 == q * t + (r - 1)) by (nonlinear_arith)
            requires
                x == t * q + r,
        ;
        lemma_fundamental_div_mod_converse(x - 1, t, q, r - 1);
    }
}

/// An unvoiced frame leaves the pulses waiting.
proof fn lemma_waiting(v: Voice, speech: Speech, n: nat)
    requires
        !speech.voiced,
    ensures
        v.within(speech, n).countdown == v.countdown,
    decreases n,
{
    if n > 0 {
        lemma_waiting(v, speech, (n - 1) as nat);
    }
}

/// Whether `x` is a pulse of a level and a period: the level times the square
/// root of the period, so that a period of it has the level's energy
/// throughout.
pub open spec fn pulse(level: real, period: int, x: real, root: real) -> bool {
    &&& root > 0 as real
    &&& reals::near(
        1_000_000 as real * (root * root),
        1_000_000 as real * period as real,
        period as real,
    )
    &&& reals::near(
        x,
        level * root,
        reals::eps() * (level * root) + reals::ratio(1, 0x1_0000_0000_0000),
    )
}

/// The size of a pulse.
proof fn lemma_pulse(g: Binary32, period: int) -> (y: real)
    requires
        fading::sendable(g),
        1 <= period <= PITCH_MAX,
    ensures
        pulse(
            reals::num(g),
            period,
            reals::num(g.mul(math::sqrt(Binary32::of_int(period)))),
            y,
        ),
{
    let n = Binary32::of_int(period);
    let unit = pow2(149);
    lemma_pow2_pos(149);
    reals::lemma_unit();
    Binary32::lemma_of_int(period);
    assert(unit <= period * unit) by (nonlinear_arith)
        requires
            1 <= period,
            unit > 0,
    ;
    crate::accuracy::lemma_is_normal(n, 149);
    root::law_sqrt_squared(n);
    math::law_sqrt_is_a_number(n);
    fading::lemma_pulse(g, period);
    let s = math::sqrt(n);
    let y = reals::num(s);
    reals::lemma_num(s);
    reals::lemma_num(g);
    reals::lemma_num_mul(g, s);
    // The square of the root, in units.
    let u = unit as real;
    let size = s.size() as int;
    reals::lemma_product(size, size);
    reals::lemma_product(period, unit as int);
    reals::lemma_product(n.size() as int, unit as int);
    let p = period as real;
    let yy = y * y;
    let uu = u * u;
    assert((y * u) * (y * u) == (y * y) * (u * u)) by (nonlinear_arith);
    assert((p * u) * u == p * (u * u)) by (nonlinear_arith);
    let k = 0x10_0000 as real;
    let up = k * (yy - p) - p;
    let down = k * (p - yy) - p;
    assert((k * (yy - p) - p) * uu == k * (yy * uu - p * uu) - p * uu) by (nonlinear_arith);
    assert((k * (p - yy) - p) * uu == k * (p * uu - yy * uu) - p * uu) by (nonlinear_arith);
    assert(u * u > 0 as real) by (nonlinear_arith)
        requires
            u > 0 as real,
    ;
    lemma_not_positive(up, uu);
    lemma_not_positive(down, uu);
    if y <= 0 as real {
        assert(y == 0 as real);
        assert(0 as real * y == 0 as real) by (nonlinear_arith);
    }
    y
}

pub proof fn lemma_not_positive(x: real, u: real)
    requires
        x * u <= 0 as real,
        u > 0 as real,
    ensures
        x <= 0 as real,
{
    assert(x <= 0 as real) by (nonlinear_arith)
        requires
            x * u <= 0 as real,
            u > 0 as real,
    ;
}

/// A sample of a voiced frame: a pulse where the countdown is over, and
/// nothing in between.
proof fn lemma_voiced_sample(v: Voice, speech: Speech, n: int)
    requires
        speech.voiced,
        1 <= speech.pitch <= PITCH_MAX,
        v.countdown >= 0,
        fading::sendable(v.previous.gain),
        fading::sendable(speech.gain),
        0 <= n < FRAME_SAMPLES,
    ensures
        phase(v.countdown, speech.pitch, n) != 0 ==> drive(v, speech, n).value() == 0,
        phase(v.countdown, speech.pitch, n) == 0 ==> exists|root: real| #[trigger]
            pulse(level(v, speech, n), speech.pitch, reals::num(drive(v, speech, n)), root),
{
    lemma_countdown(v, speech, n as nat);
    rounding::lemma_magnitude_zero();
    if phase(v.countdown, speech.pitch, n) == 0 {
        let sub = n / SUBFRAME_LEN as int;
        fading::lemma_between_levels(v.previous.gain, speech.gain, sub);
        let y = lemma_pulse(synth::shape(v.previous, speech, sub).gain, speech.pitch);
        assert(pulse(level(v, speech, n), speech.pitch, reals::num(drive(v, speech, n)), y));
    }
}

/// Frames that follow each other.
pub open spec fn run(voices: Seq<Voice>, frames: Seq<Speech>) -> bool {
    &&& voices.len() > frames.len()
    &&& forall|i: int|
        0 <= i < frames.len() ==> #[trigger] voices[i + 1] == voices[i].after(frames[i])
}

/// Pulses are a period apart. Through a run of voiced frames of one pitch, the
/// filter is driven by a pulse at one sample of every period, and by nothing
/// in between, whatever frame the samples fall in: the phase runs on across
/// frames.
pub proof fn law_pulses_are_a_period_apart(voices: Seq<Voice>, frames: Seq<Speech>, t: int, p: int)
    requires
        run(voices, frames),
        1 <= t <= PITCH_MAX,
        forall|i: int|
            0 <= i < frames.len() ==> (#[trigger] frames[i]).voiced && frames[i].pitch == t
                && fading::sendable(frames[i].gain),
        fading::sendable(voices[0].previous.gain),
        voices[0].countdown >= 0,
        0 <= p < 180 * frames.len(),
    ensures
        ({
            let first = voices[0].countdown;
            let v = voices[p / 180];
            let x = drive(v, frames[p / 180], p % 180);
            if p >= first && (p - first) % t == 0 {
                exists|root: real| #[trigger]
                    pulse(level(v, frames[p / 180], p % 180), t, reals::num(x), root)
            } else {
                x.value() == 0
            }
        }),
{
    let i = p / 180;
    let n = p % 180;
    let first = voices[0].countdown;
    lemma_run(voices, frames, t, i as nat);
    let v = voices[i];
    lemma_voiced_sample(v, frames[i], n);
    lemma_phase_joins(first, t, 180 * i, n);
    lemma_phase_zero(first, t, p);
    assert(180 * i + n == p);
    assert(phase(v.countdown, t, n) == phase(first, t, p));
}

/// Where the phase is zero.
proof fn lemma_phase_zero(first: int, t: int, p: int)
    requires
        t >= 1,
        first >= 0,
        p >= 0,
    ensures
        phase(first, t, p) == 0 <==> p >= first && (p - first) % t == 0,
{
    if p > first {
        let x = p - first;
        lemma_fundamental_div_mod(x, t);
        lemma_fundamental_div_mod(-x, t);
        lemma_mod_bound(x, t);
        lemma_mod_bound(-x, t);
        if x % t == 0 {
            let q = x / t;
            assert(-x == (-q) * t + 0) by (nonlinear_arith)
                requires
                    x == t * q,
            ;
            lemma_fundamental_div_mod_converse(-x, t, -q, 0);
        }
        if (-x) % t == 0 {
            let q = (-x) / t;
            assert(x == (-q) * t + 0) by (nonlinear_arith)
                requires
                    -x == t * q,
            ;
            lemma_fundamental_div_mod_converse(x, t, -q, 0);
        }
    } else if p == first {
        lemma_small_mod(0, t as nat);
    }
}

/// Counting down in two goes.
proof fn lemma_phase_joins(first: int, t: int, a: int, b: int)
    requires
        t >= 1,
        first >= 0,
        a >= 0,
        b >= 0,
    ensures
        phase(phase(first, t, a), t, b) == phase(first, t, a + b),
        phase(first, t, a) >= 0,
    decreases b,
{
    lemma_mod_bound(first - a, t);
    if b > 0 {
        lemma_phase_joins(first, t, a, b - 1);
        let d = phase(first, t, a);
        lemma_phase_step(d, t, b - 1);
        lemma_phase_step(first, t, a + b - 1);
    }
}

/// One more sample.
proof fn lemma_phase_step(first: int, t: int, n: int)
    requires
        t >= 1,
        first >= 0,
        n >= 0,
    ensures
        phase(first, t, n + 1) == (if phase(first, t, n) == 0 {
            t - 1
        } else {
            phase(first, t, n) - 1
        }),
{
    lemma_one_less(first - n, t);
    if n == first {
        lemma_small_mod(0, t as nat);
    }
}

/// What a run of frames leaves of the countdown, and where each frame ramps
/// from.
proof fn lemma_run(voices: Seq<Voice>, frames: Seq<Speech>, t: int, i: nat)
    requires
        run(voices, frames),
        t >= 1,
        forall|j: int|
            0 <= j < frames.len() ==> (#[trigger] frames[j]).voiced && frames[j].pitch == t
                && fading::sendable(frames[j].gain),
        fading::sendable(voices[0].previous.gain),
        voices[0].countdown >= 0,
        i <= frames.len(),
    ensures
        voices[i as int].countdown == phase(voices[0].countdown, t, 180 * i as int),
        voices[i as int].countdown >= 0,
        fading::sendable(voices[i as int].previous.gain),
    decreases i,
{
    if i > 0 {
        let j = (i - 1) as nat;
        lemma_run(voices, frames, t, j);
        let v = voices[j as int];
        let f = frames[j as int];
        assert(voices[j as int + 1] == v.after(f));
        lemma_countdown(v, f, FRAME_SAMPLES as nat);
        lemma_phase_joins(voices[0].countdown, t, 180 * j as int, 180);
    }
}

/// From frame to frame, whatever the pitches: a voiced frame whose last pulse
/// lies at its sample `n` leaves the first pulse of the next voiced frame to
/// come one of its own periods later.
pub proof fn law_phase_is_carried(v: Voice, one: Speech, two: Speech, n: int, m: int)
    requires
        one.voiced && two.voiced,
        1 <= one.pitch <= PITCH_MAX,
        1 <= two.pitch <= PITCH_MAX,
        v.countdown >= 0,
        fading::sendable(v.previous.gain),
        fading::sendable(one.gain),
        fading::sendable(two.gain),
        0 <= n < 180,
        n >= v.countdown,
        (n - v.countdown) % one.pitch == 0,
        n + one.pitch >= 180,
        0 <= m < 180,
        m <= n + one.pitch - 180,
    ensures
        exists|root: real| #[trigger]
            pulse(level(v, one, n), one.pitch, reals::num(drive(v, one, n)), root),
        m < n + one.pitch - 180 ==> drive(v.after(one), two, m).value() == 0,
        m == n + one.pitch - 180 ==> exists|root: real| #[trigger]
            pulse(
                level(v.after(one), two, m),
                two.pitch,
                reals::num(drive(v.after(one), two, m)),
                root,
            ),
{
    let c = v.countdown;
    let t = one.pitch;
    lemma_phase_zero(c, t, n);
    lemma_voiced_sample(v, one, n);
    lemma_countdown(v, one, FRAME_SAMPLES as nat);
    lemma_phase_joins(c, t, n, 180 - n);
    // From zero, 180 - n samples on.
    let w = v.after(one);
    let rest = 180 - n;
    assert(phase(0, t, rest) == (if rest <= 0 { -rest } else { (-rest) % t }));
    assert((-rest) % t == t - rest || rest == t && (-rest) % t == 0) by {
        if rest == t {
            lemma_fundamental_div_mod_converse(-rest, t, -1, 0);
        } else {
            lemma_fundamental_div_mod_converse(-rest, t, -1, t - rest);
        }
    }
    assert(w.countdown == t - rest);
    lemma_voiced_sample(w, two, m);
}

/// An unvoiced frame leaves the phase of the pulses where it was.
pub proof fn law_unvoiced_frames_hold_the_phase(v: Voice, speech: Speech)
    requires
        !speech.voiced,
    ensures
        v.after(speech).countdown == v.countdown,
{
    lemma_waiting(v, speech, FRAME_SAMPLES as nat);
}

/// The noise runs on: through a run of unvoiced frames the generator takes one
/// step for each sample, whatever frame it falls in.
pub proof fn law_noise_runs_on(
    voices: Seq<Voice>,
    frames: Seq<Speech>,
    states: Seq<u32>,
    p: int,
)
    requires
        run(voices, frames),
        forall|i: int| 0 <= i < frames.len() ==> !(#[trigger] frames[i]).voiced,
        states.len() > p,
        states[0] == voices[0].rng,
        forall|q: int| 0 <= q < p ==> #[trigger] states[q + 1] == synth::xorshift(states[q]),
        0 <= p < 180 * frames.len(),
    ensures
        voices[p / 180].within(frames[p / 180], (p % 180) as nat).rng == states[p],
{
    lemma_states(voices, frames, states, (p / 180) as nat, (p % 180) as nat);
}

proof fn lemma_states(
    voices: Seq<Voice>,
    frames: Seq<Speech>,
    states: Seq<u32>,
    i: nat,
    n: nat,
)
    requires
        run(voices, frames),
        forall|j: int| 0 <= j < frames.len() ==> !(#[trigger] frames[j]).voiced,
        states.len() > 180 * i + n,
        states[0] == voices[0].rng,
        forall|q: int|
            0 <= q < 180 * i + n ==> #[trigger] states[q + 1] == synth::xorshift(states[q]),
        i < frames.len(),
        n <= 180,
    ensures
        voices[i as int].within(frames[i as int], n).rng == states[180 * i as int + n],
    decreases i, n,
{
    if n > 0 {
        let m = (n - 1) as nat;
        lemma_states(voices, frames, states, i, m);
        let q = 180 * i as int + m;
        assert(states[q + 1] == synth::xorshift(states[q]));
        assert(!frames[i as int].voiced);
    } else if i > 0 {
        let j = (i - 1) as nat;
        lemma_states(voices, frames, states, j, 180);
        assert(voices[j as int + 1] == voices[j as int].after(frames[j as int]));
    }
}

/// A stream starts from rest: no filter values, no output, a pulse due at
/// once, silence to ramp from, and the generator at its seed.
pub proof fn law_streams_start_from_rest(j: int)
    requires
        0 <= j < 10,
    ensures
        Voice::start().memory.len() == 10,
        Voice::start().memory[j].value() == 0,
        Voice::start().deemphasis.value() == 0,
        Voice::start().countdown == 0,
        Voice::start().rng == 0x2545_f491,
        !Voice::start().previous.voiced,
        Voice::start().previous.gain.value() == 0,
        Voice::start().previous.rc.len() == 10,
        Voice::start().previous.rc[j].value() == 0,
{
    rounding::lemma_magnitude_zero();
}

/// The generator is linear over bits and never sticks: states that differ lead
/// to states that differ, and none but zero leads to zero.
pub proof fn law_generator_is_linear(x: u32, y: u32)
    ensures
        synth::xorshift(x ^ y) == synth::xorshift(x) ^ synth::xorshift(y),
        synth::xorshift(x) == synth::xorshift(y) ==> x == y,
        synth::xorshift(0) == 0,
        synth::xorshift(1) == 0x4_2021u32,
        synth::xorshift(0x8000_0000) == 0x8008_4000u32,
{
    let z = x ^ y;
    assert(({
        let a = z ^ (z << 13u32);
        let b = a ^ (a >> 17u32);
        b ^ (b << 5u32)
    }) == ({
        let a = x ^ (x << 13u32);
        let b = a ^ (a >> 17u32);
        b ^ (b << 5u32)
    }) ^ ({
        let a = y ^ (y << 13u32);
        let b = a ^ (a >> 17u32);
        b ^ (b << 5u32)
    })) by (bit_vector)
        requires
            z == x ^ y,
    ;
    assert(({
        let a = x ^ (x << 13u32);
        let b = a ^ (a >> 17u32);
        b ^ (b << 5u32)
    }) == ({
        let a = y ^ (y << 13u32);
        let b = a ^ (a >> 17u32);
        b ^ (b << 5u32)
    }) ==> x == y) by (bit_vector);
    assert(({
        let a = 0u32 ^ (0u32 << 13u32);
        let b = a ^ (a >> 17u32);
        b ^ (b << 5u32)
    }) == 0u32) by (bit_vector);
    assert(({
        let a = 1u32 ^ (1u32 << 13u32);
        let b = a ^ (a >> 17u32);
        b ^ (b << 5u32)
    }) == 0x4_2021u32) by (bit_vector);
    assert(({
        let a = 0x8000_0000u32 ^ (0x8000_0000u32 << 13u32);
        let b = a ^ (a >> 17u32);
        b ^ (b << 5u32)
    }) == 0x8008_4000u32) by (bit_vector);
}

} // verus!
