//! What decoders forget, what damage costs, and when parameters are equal.
use pipit::binary32::Binary32;
use pipit::lpc10::analysis;
use pipit::lpc10::synth::Synthesizer;
use pipit::lpc10::{Params, FRAME_SAMPLES, ORDER};
use pipit::{decode_clip, encode_clip, ClipParams, HEADER_LEN};

fn wrap(x: f32) -> Binary32 {
    Binary32::from_bits(x.to_bits())
}

fn float(x: Binary32) -> f32 {
    f32::from_bits(x.to_bits())
}

fn speech(gain: f32, rc: [f32; 10]) -> Params {
    Params { voiced: true, pitch: 50, gain: wrap(gain), rc: rc.map(wrap) }
}

fn render(synth: &mut Synthesizer, params: &Params) -> Vec<i16> {
    let mut pcm = vec![0i16; FRAME_SAMPLES];
    synth.synthesize(params, &mut pcm);
    pcm
}

fn apart(a: &[i16], b: &[i16]) -> i32 {
    a.iter().zip(b).map(|(&x, &y)| (x as i32 - y as i32).abs()).max().unwrap()
}

fn tone(len: usize) -> Vec<i16> {
    (0..len).map(|i| ((i as f32 * 0.21).sin() * 9000.0) as i16).collect()
}

#[test]
fn binary32_equality_is_numeric() {
    assert!(wrap(0.0) == wrap(-0.0));
    assert!(wrap(1.5) == wrap(1.5));
    assert!(wrap(1.5) != wrap(-1.5));
    assert!(wrap(f32::INFINITY) == wrap(f32::INFINITY));
    assert!(wrap(f32::INFINITY) != wrap(f32::NEG_INFINITY));
    assert!(wrap(f32::NAN) != wrap(f32::NAN));
    assert!(wrap(f32::NAN) != wrap(0.0));
}

#[test]
fn params_equality_is_numeric() {
    let plain = speech(100.0, [0.0; 10]);
    let mut signed = plain;
    signed.rc[3] = wrap(-0.0);
    assert!(plain == signed);
    assert!(speech(0.0, [0.1; 10]) == speech(-0.0, [0.1; 10]));

    let mut other = plain;
    other.rc[9] = wrap(0.25);
    assert!(plain != other);
    assert!(plain != speech(101.0, [0.0; 10]));
    assert!(plain != Params { voiced: false, ..plain });
    assert!(plain != Params { pitch: 51, ..plain });

    let mut unknown = plain;
    unknown.rc[0] = wrap(f32::NAN);
    assert!(unknown != unknown);
    let loud = speech(f32::NAN, [0.0; 10]);
    assert!(loud != loud);
}

#[test]
fn old_state_is_forgotten_where_nothing_is_predicted() {
    let mut a = Synthesizer::new();
    let mut b = Synthesizer::new();
    let rc = [0.8, -0.5, 0.3, 0.0, 0.0, 0.0, 0.0, 0.0, 0.0, 0.0];
    let first = render(&mut a, &speech(9000.0, rc));
    let second = render(&mut b, &speech(10.0, rc));
    assert!(apart(&first, &second) > 1000);
    // The frame between, whose filters ramp to nothing.
    let flat = speech(200.0, [0.0; 10]);
    render(&mut a, &flat);
    render(&mut b, &flat);
    let x = render(&mut a, &flat);
    let y = render(&mut b, &flat);
    assert!(apart(&x[FRAME_SAMPLES - 1..], &y[FRAME_SAMPLES - 1..]) <= 7);
    let x = render(&mut a, &flat);
    let y = render(&mut b, &flat);
    assert!(apart(&x, &y) <= 7);
}

#[test]
fn stable_filters_forget() {
    let mut a = Synthesizer::new();
    let mut b = Synthesizer::new();
    let rc = [0.9, -0.6, 0.4, -0.3, 0.2, 0.1, -0.1, 0.05, 0.0, 0.0];
    let first = render(&mut a, &speech(2000.0, rc));
    let second = render(&mut b, &speech(10.0, rc));
    assert!(apart(&first, &second) > 1000);
    let steady = speech(100.0, rc);
    let mut gap = i32::MAX;
    for _ in 0..8 {
        let x = render(&mut a, &steady);
        let y = render(&mut b, &steady);
        let now = apart(&x, &y);
        assert!(now <= gap, "{now} after {gap}");
        gap = now;
    }
    assert!(gap <= 1, "{gap}");
}

#[test]
fn predictors_solve_the_normal_equations() {
    let rc = [0.9f64, -0.7, 0.5, -0.3, 0.2, 0.1, -0.4, 0.25, -0.15, 0.05];
    // The correlations that have these coefficients, order by order.
    let mut r = [0.0f64; 11];
    let mut a = [0.0f64; 11];
    let mut error = 1.0;
    r[0] = 1.0;
    for i in 1..=ORDER {
        let k = rc[i - 1];
        r[i] = (1..i).map(|j| a[j] * r[i - j]).sum::<f64>() + k * error;
        let before = a;
        for j in 1..i {
            a[j] = before[j] - k * before[i - j];
        }
        a[i] = k;
        error *= 1.0 - k * k;
    }
    let got = analysis::reflection_to_predictor(&rc.map(|k| wrap(k as f32)));
    for i in 1..=ORDER {
        let sum: f64 = (1..=ORDER).map(|j| float(got[j]) as f64 * r[i.abs_diff(j)]).sum();
        assert!((sum - r[i]).abs() <= 1e-5, "lag {i}: {sum}, not {}", r[i]);
    }
}

#[test]
fn damage_to_an_adpcm_frame_costs_its_own_samples() {
    let params = ClipParams::adpcm();
    let n = params.frame_samples as usize;
    let pcm = tone(5 * n + 17);
    let clip = encode_clip(&pcm, params).unwrap();
    let (_, sound) = decode_clip(&clip).unwrap();
    let len = 3 + (n + 1) / 2;
    let mut damaged = clip.clone();
    for byte in &mut damaged[HEADER_LEN + 2 * len + 3..HEADER_LEN + 3 * len] {
        *byte ^= 0x5a;
    }
    let (_, hurt) = decode_clip(&damaged).unwrap();
    assert_eq!(hurt.len(), sound.len());
    assert_eq!(hurt[..2 * n], sound[..2 * n]);
    assert_ne!(hurt[2 * n..3 * n], sound[2 * n..3 * n]);
    assert_eq!(hurt[3 * n..], sound[3 * n..]);
}

#[test]
fn padding_holds_the_last_sample() {
    for params in [ClipParams::adpcm(), ClipParams::lpc10(), ClipParams::lpc10_half()] {
        let n = params.frame_samples as usize;
        let pcm = tone(2 * n + 5);
        let mut held = pcm.clone();
        held.resize(3 * n, pcm[pcm.len() - 1]);
        let short = encode_clip(&pcm, params).unwrap();
        let long = encode_clip(&held, params).unwrap();
        assert_eq!(short.len(), long.len());
        assert_eq!(short[HEADER_LEN..], long[HEADER_LEN..]);
    }
}
