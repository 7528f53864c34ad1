//! How close the float math, the quantizers and the coders come, on concrete
//! values.
use pipit::adpcm;
use pipit::binary32::Binary32;
use pipit::lpc10::quant;
use pipit::lpc10::{ORDER, PITCH_MAX, PITCH_MIN};
use pipit::math;

fn wrap(x: f32) -> Binary32 {
    Binary32::from_bits(x.to_bits())
}

fn float(x: Binary32) -> f64 {
    f32::from_bits(x.to_bits()) as f64
}

fn exp2(x: f32) -> f64 {
    float(math::exp2(wrap(x)))
}

fn log2(x: f32) -> f64 {
    float(math::log2(wrap(x)))
}

/// Numbers of every size, from near the least normal one up.
fn spread() -> Vec<f32> {
    let mut all = vec![];
    let mut x = 2.0e-38f32;
    while x < 8.0e37 {
        all.push(x);
        x *= 1.37;
    }
    all
}

fn next(seed: &mut u32) -> u32 {
    *seed ^= *seed << 13;
    *seed ^= *seed >> 17;
    *seed ^= *seed << 5;
    *seed
}

#[test]
fn exponential_undoes_logarithm() {
    for x in spread() {
        let back = float(math::exp2(math::log2(wrap(x))));
        let exact = x as f64;
        assert!((back - exact).abs() * 1000.0 <= exact, "{x} came back as {back}");
    }
    assert_eq!(float(math::exp2(math::log2(wrap(0.125)))), 0.125);
}

#[test]
fn logarithm_undoes_exponential() {
    for n in -1260..=1270 {
        let v = n as f32 / 10.0;
        let back = float(math::log2(math::exp2(wrap(v))));
        assert!((back - v as f64).abs() <= 0.001, "{v} came back as {back}");
    }
}

#[test]
fn exponential_near_a_logarithm_is_near_the_number() {
    for x in spread() {
        for off in [-0.0319f32, -0.01, 0.0, 0.02, 0.0319] {
            let v = float(math::log2(wrap(x))) as f32 + off;
            if v >= -126.0 {
                let gap = (exp2(v) / x as f64 - 1.0).abs();
                assert!(gap <= 0.024, "{x} moved by {off}: {gap}");
            }
        }
    }
}

#[test]
fn logarithm_rises() {
    for x in spread() {
        assert!(log2(x) <= log2(x * 1.0011), "{x}");
        assert!(log2(x) < log2(x * 2.0), "{x}");
    }
}

#[test]
fn exponential_turns_sums_into_products() {
    for i in -600..=600 {
        for j in [-61.3f32, -20.75, -1.5, -0.01, 0.0, 0.3, 7.99, 60.6] {
            let x = i as f32 / 10.1;
            let product = exp2(x) * exp2(j);
            let gap = (exp2(x + j) - product).abs();
            assert!(gap * 1000.0 <= product, "{x} + {j}: {gap}");
        }
    }
    assert_eq!(exp2(3.0), exp2(1.0) * exp2(2.0));
}

#[test]
fn logarithm_turns_products_into_sums() {
    for x in spread() {
        for y in [1.0e-3f32, 0.7, 1.0, 1.9999, 3.3, 1000.0] {
            let z = x * y;
            if z.is_finite() && z >= f32::MIN_POSITIVE {
                let gap = (log2(z) - log2(x) - log2(y)).abs();
                assert!(gap * 64.0 <= 1.0, "{x} * {y}: {gap}");
            }
        }
    }
    assert_eq!(log2(32.0), log2(4.0) + log2(8.0));
}

#[test]
fn cosine_follows_its_series() {
    for n in -2000..=2000 {
        let x = n as f32 / 300.0;
        let got = float(math::cos(wrap(x)));
        assert!((got - (x as f64).cos()).abs() <= 1e-4, "cos {x} is {got}");
    }
    // In the first quadrant the folded angle is the angle.
    for n in 0..=157 {
        let x = n as f32 / 100.0;
        let y = x as f64 * x as f64;
        let mut sum = 1.0;
        for k in [132.0, 90.0, 56.0, 30.0, 12.0, 2.0] {
            sum = 1.0 - y / k * sum;
        }
        let got = float(math::cos(wrap(x)));
        assert!((got - sum).abs() <= 1.0 / 50_000.0, "cos {x} is {got}, not {sum}");
    }
    assert_eq!(float(math::cos(wrap(0.0))), 1.0);
}

#[test]
fn every_pitch_arrives_within_a_twentieth() {
    for pitch in PITCH_MIN as u8..=PITCH_MAX as u8 {
        let back = quant::pitch_from_code(quant::pitch_code(pitch)) as i32;
        let off = (back - pitch as i32).abs();
        assert!(20 * off <= pitch as i32, "{pitch} came back as {back}");
    }
    assert_eq!(quant::pitch_from_code(quant::pitch_code(20)), 20);
    assert_eq!(quant::pitch_from_code(quant::pitch_code(156)), 156);
}

#[test]
fn every_gain_and_coefficient_code_comes_back() {
    for code in 0..32u32 {
        assert_eq!(quant::gain_code(quant::gain_from_code(code)), code, "gain");
    }
    let widths = [5u32, 5, 5, 5, 4, 4, 4, 4, 3, 2];
    for i in 0..ORDER {
        for code in 0..1u32 << widths[i] {
            let k = quant::rc_from_code(i, code);
            assert_eq!(quant::rc_code(i, k), code, "coefficient {i}");
        }
    }
}

#[test]
fn log_area_ratios_come_back() {
    let ratio = |k: f64| ((1.0 + k) / (1.0 - k)).log2();
    for code in 0..32u32 {
        let lar = -8.0 + 16.0 * code as f64 / 31.0;
        let k = float(quant::rc_from_code(0, code));
        assert!((ratio(k) - lar).abs() <= 0.001, "{code} stands for {k}");
    }
}

#[test]
fn codes_beyond_the_range_are_the_last() {
    assert_eq!(quant::gain_code(wrap(16_384.0)), 31);
    assert_eq!(quant::gain_code(wrap(1.0e9)), 31);
    assert_eq!(quant::gain_code(wrap(0.5)), 1);
    assert_eq!(quant::gain_code(wrap(1.0e-9)), 1);
    for i in 2..ORDER {
        let top = quant::rc_code(i, wrap(0.99));
        assert_eq!(quant::rc_code(i, wrap(0.999)), top);
        assert_eq!(quant::rc_code(i, wrap(-0.99)), 0);
        assert_eq!(quant::rc_code(i, wrap(-0.999)), 0);
    }
}

#[test]
fn received_frames_are_sent_alike() {
    let mut seed = 0x2545_f491u32;
    for _ in 0..2000 {
        let mut frame = [0u8; 7];
        for byte in frame.iter_mut() {
            *byte = (next(&mut seed) >> 11) as u8;
        }
        let again = quant::pack(&quant::unpack(&frame));
        // All but the six bits of the pitch, and the three spare bits.
        let mask = [0x81u8, 0xff, 0xff, 0xff, 0xff, 0xff, 0xf8];
        for i in 0..7 {
            assert_eq!(again[i] & mask[i], frame[i] & mask[i], "byte {i} of {frame:?}");
        }
        assert_eq!(again[6] & 0x07, 0);
    }
}

#[test]
fn adpcm_decoder_keeps_step_with_the_encoder() {
    let mut encoder = adpcm::Encoder::new();
    let mut last: Option<i16> = None;
    let mut seed = 0x1357_9bdfu32;
    for n in 0..4000 {
        // Steps from rail to rail among the noise.
        let noise = (next(&mut seed) >> 16) as u16 as i16;
        let sample = match n % 5 {
            0 => i16::MAX,
            1 => i16::MIN,
            _ => noise,
        };
        let mut frame = vec![0u8; adpcm::frame_encoded_len(1)];
        let len = encoder.encode_frame(&[sample], &mut frame).unwrap();
        // Each frame starts from what the decoder made of the one before.
        let start = i16::from_le_bytes([frame[0], frame[1]]);
        if let Some(decoded) = last {
            assert_eq!(start, decoded, "frame {n}");
        }
        let mut pcm = [0i16; 1];
        assert_eq!(adpcm::decode_frame(&frame[..len], &mut pcm), Ok(1));
        last = Some(pcm[0]);
    }
}
