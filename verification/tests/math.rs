use pipit::binary32::Binary32;

fn wrap(x: f32) -> Binary32 {
    Binary32::from_bits(x.to_bits())
}

fn unwrap(x: Binary32) -> f32 {
    f32::from_bits(x.to_bits())
}

fn sqrt(x: f32) -> f32 {
    unwrap(pipit::math::sqrt(wrap(x)))
}

fn log2(x: f32) -> f32 {
    unwrap(pipit::math::log2(wrap(x)))
}

fn exp2(x: f32) -> f32 {
    unwrap(pipit::math::exp2(wrap(x)))
}

fn cos(x: f32) -> f32 {
    unwrap(pipit::math::cos(wrap(x)))
}

fn floor(x: f32) -> f32 {
    unwrap(pipit::math::floor(wrap(x)))
}

fn abs(x: f32) -> f32 {
    unwrap(pipit::math::abs(wrap(x)))
}

/// Every function here is only trustworthy insofar as it tracks `std`,
/// so each test is a direct comparison across the range speech uses.
#[test]
fn sqrt_matches_std_across_the_energy_range() {
    let cases: Vec<f32> = (0..200)
        .map(|i| 1e-3 * 1.2f32.powi(i % 100))
        .chain([0.0, 1.0, 2.0, 1e9])
        .collect();
    for x in cases {
        let ours = sqrt(x);
        let theirs = x.sqrt();
        let tolerance = theirs.abs() * 1e-5 + 1e-9;
        assert!(
            (ours - theirs).abs() <= tolerance,
            "sqrt({x}): {ours} vs {theirs}"
        );
    }
    assert_eq!(sqrt(-1.0), 0.0, "negative energy must not become NaN");
    assert_eq!(sqrt(0.0), 0.0);
}

#[test]
fn log2_matches_std_across_the_gain_range() {
    for i in 0..2000 {
        let x = 1e-4 * 1.01f32.powi(i);
        let ours = log2(x);
        let theirs = x.log2();
        assert!((ours - theirs).abs() < 1e-4, "log2({x}): {ours} vs {theirs}");
    }
    assert!(log2(0.0) < -100.0, "silence must not become -inf");
}

#[test]
fn exp2_matches_std_and_inverts_log2() {
    for i in -300..300 {
        let x = i as f32 * 0.05;
        let ours = exp2(x);
        let theirs = x.exp2();
        assert!(
            (ours - theirs).abs() <= theirs.abs() * 1e-4,
            "exp2({x}): {ours} vs {theirs}"
        );
    }
    for i in 1..500 {
        let x = i as f32 * 7.3;
        let round_trip = exp2(log2(x));
        assert!((round_trip - x).abs() < x * 1e-3, "{x} -> {round_trip}");
    }
}

#[test]
fn cos_matches_std_over_a_full_window() {
    for i in 0..1000 {
        let x = i as f32 * core::f32::consts::TAU / 500.0;
        let ours = cos(x);
        let theirs = x.cos();
        assert!((ours - theirs).abs() < 1e-4, "cos({x}): {ours} vs {theirs}");
    }
}

#[test]
fn floor_and_abs_behave() {
    assert_eq!(floor(3.7), 3.0);
    assert_eq!(floor(-3.2), -4.0);
    assert_eq!(floor(5.0), 5.0);
    assert_eq!(abs(-2.5), 2.5);
    assert_eq!(abs(2.5), 2.5);
}

/// The same formulas in the machine's own floating point.
fn machine_sqrt(x: f32) -> f32 {
    if x.is_nan() || x <= 0.0 {
        return 0.0;
    }
    let mut y = f32::from_bits((x.to_bits() + (127 << 23)) >> 1);
    for _ in 0..4 {
        y = 0.5 * (y + x / y);
    }
    y
}

fn machine_log2(x: f32) -> f32 {
    if x.is_nan() || x <= 0.0 {
        return -128.0;
    }
    let bits = x.to_bits();
    let exponent = (((bits >> 23) & 0xff) as i32 - 127) as f32;
    let m = f32::from_bits((bits & 0x007f_ffff) | (127 << 23));
    let z = (m - 1.0) / (m + 1.0);
    let z2 = z * z;
    let series = z * (1.0 + z2 * (1.0 / 3.0 + z2 * (1.0 / 5.0 + z2 * (1.0 / 7.0))));
    exponent + 2.0 * core::f32::consts::LOG2_E * series
}

#[test]
fn roots_and_logarithms_match_the_machine_bit_for_bit() {
    let mut state = 0x2545_f491u32;
    for _ in 0..100_000 {
        state ^= state << 13;
        state ^= state >> 17;
        state ^= state << 5;
        // Positive and finite.
        let x = f32::from_bits(state & 0x7f7f_ffff);
        assert_eq!(sqrt(x).to_bits(), machine_sqrt(x).to_bits(), "sqrt({x})");
        assert_eq!(log2(x).to_bits(), machine_log2(x).to_bits(), "log2({x})");
    }
}

#[test]
fn exp2_saturates_at_both_ends() {
    assert_eq!(exp2(-126.5), 0.0);
    assert_eq!(exp2(-127.0), 0.0);
    assert_eq!(exp2(127.5), f32::MAX);
    assert_eq!(exp2(0.0), 1.0);
    assert_eq!(exp2(10.0), 1024.0);
    assert_eq!(exp2(-3.0), 0.125);
}

fn machine_exp2(x: f32) -> f32 {
    let whole = x.floor();
    let f = x - whole;
    let p = 1.0
        + f * (core::f32::consts::LN_2
            + f * (0.240_226_5
                + f * (0.055_504_1 + f * (0.009_618_1 + f * (0.001_333_4 + f * 0.000_154_0)))));
    p * f32::from_bits(((whole as i32 + 127) as u32) << 23)
}

fn machine_cos(x: f32) -> f32 {
    let pi = core::f32::consts::PI;
    let tau = core::f32::consts::TAU;
    let mut near = x % tau;
    if near > pi {
        near -= tau;
    } else if near < -pi {
        near += tau;
    }
    let size = near.abs();
    let (angle, sign) = if size > pi / 2.0 { (pi - size, -1.0) } else { (size, 1.0) };
    let s = angle * angle;
    let c12 = 1.0 - s / 132.0;
    let c10 = 1.0 - s / 90.0 * c12;
    let c8 = 1.0 - s / 56.0 * c10;
    let c6 = 1.0 - s / 30.0 * c8;
    let c4 = 1.0 - s / 12.0 * c6;
    sign * (1.0 - s / 2.0 * c4)
}

#[test]
fn exponentials_and_cosines_match_the_machine_bit_for_bit() {
    for i in -60_000..60_000 {
        let x = i as f32 * 0.002_1;
        assert_eq!(exp2(x).to_bits(), machine_exp2(x).to_bits(), "exp2({x})");
        assert_eq!(cos(x).to_bits(), machine_cos(x).to_bits(), "cos({x})");
    }
}

#[test]
fn floor_is_the_floor() {
    for i in -20_000..20_000 {
        let x = i as f32 * 0.37;
        assert_eq!(floor(x), x.floor(), "{x}");
    }
    for x in [8_388_607.0f32, -8_388_607.0, -8_388_606.5, 0.99999994, -0.0, -1e-30] {
        assert_eq!(floor(x), x.floor(), "{x}");
    }
}

#[test]
fn cosine_is_even_and_in_range() {
    for i in 0..20_000 {
        let x = i as f32 * 0.731;
        assert_eq!(cos(x).to_bits(), cos(-x).to_bits(), "{x}");
        assert!(cos(x).abs() <= 1.0, "{x}");
    }
}

#[test]
fn logarithms_are_never_infinite() {
    for x in [0.0f32, -1.0, f32::NEG_INFINITY, f32::NAN] {
        assert_eq!(log2(x), -128.0);
    }
    for x in [f32::INFINITY, f32::MAX, f32::MIN_POSITIVE, 1e-45] {
        assert!(log2(x).abs() <= 512.0);
    }
    assert_eq!(log2(1.0), 0.0);
    assert_eq!(log2(1024.0), 10.0);
}

#[test]
fn roots_square_to_what_they_were_taken_of() {
    for i in 0..100_000u32 {
        let x = f32::from_bits(0x0080_0000 + i * 21_000);
        let y = sqrt(x) as f64;
        let x = x as f64;
        assert!((y * y - x).abs() * 1_048_576.0 <= x, "{x}");
    }
    assert_eq!(sqrt(4.0), 2.0);
    assert_eq!(sqrt(1.0), 1.0);
    assert_eq!(sqrt(f32::NAN), 0.0);
}

#[test]
fn powers_of_two_come_back_exactly() {
    for n in -126..=127 {
        let x = 2.0f32.powi(n);
        assert_eq!(log2(x), n as f32);
        assert_eq!(exp2(n as f32), x);
        assert_eq!(exp2(log2(x)), x);
    }
}
