//! Constants written as bit patterns, against the numbers they stand for.
use pipit::lpc10::{analysis, quant, synth};
use pipit::math;

#[test]
fn patterns_are_the_numbers_they_are_named_for() {
    let cases = [
        (math::ZERO, 0.0f32),
        (math::ONE, 1.0),
        (math::MINUS_ONE, -1.0),
        (math::TWO, 2.0),
        (math::HALF, 0.5),
        (math::MINUS_128, -128.0),
        (math::MINUS_126, -126.0),
        (math::PLUS_127, 127.0),
        (math::LARGEST, f32::MAX),
        (math::PI, core::f32::consts::PI),
        (math::MINUS_PI, -core::f32::consts::PI),
        (math::HALF_PI, core::f32::consts::PI / 2.0),
        (math::TAU, core::f32::consts::TAU),
        (math::THIRD, 1.0 / 3.0),
        (math::FIFTH, 1.0 / 5.0),
        (math::SEVENTH, 1.0 / 7.0),
        (math::TWO_LOG2_E, 2.0 * core::f32::consts::LOG2_E),
        (math::LN_2, core::f32::consts::LN_2),
        (math::EXP_2, 0.240_226_5),
        (math::EXP_3, 0.055_504_1),
        (math::EXP_4, 0.009_618_1),
        (math::EXP_5, 0.001_333_4),
        (math::EXP_6, 0.000_154_0),
        (math::TWELVE, 12.0),
        (math::THIRTY, 30.0),
        (math::FIFTY_SIX, 56.0),
        (math::NINETY, 90.0),
        (math::N132, 132.0),
        (quant::LAR_LIMIT, 8.0),
        (quant::MINUS_LAR_LIMIT, -8.0),
        (quant::RC_LIMIT, 0.99),
        (quant::MINUS_RC_LIMIT, -0.99),
        (quant::LAR_CLAMP, 0.999),
        (quant::MINUS_LAR_CLAMP, -0.999),
        (quant::GAIN_MIN_LOG2, -1.0),
        (quant::GAIN_MAX_LOG2, 14.0),
        (analysis::PRE_EMPHASIS, 0.9375),
        (analysis::VOICING_CORRELATION, 0.35),
        (analysis::VOICING_MAX_ZCR, 0.30),
        (analysis::SILENCE_RMS, 12.0),
        (analysis::SUBMULTIPLE_MARGIN, 0.80),
        (analysis::MINUS_ZERO, -0.0),
        (analysis::THREE, 3.0),
        (analysis::HAMMING_BASE, 0.54),
        (analysis::HAMMING_SWING, 0.46),
        (analysis::HAMMING_SCALE, core::f32::consts::TAU / (180.0 - 1.0)),
        (analysis::WHITE_NOISE, 1.0001),
        (analysis::LAG_WINDOW, 0.008),
        (analysis::MINUS_HALF, -0.5),
        (analysis::LOG2_E, core::f32::consts::LOG2_E),
        (analysis::STABLE, 0.999),
        (analysis::MINUS_STABLE, -0.999),
        (synth::STATE_LIMIT, 1.0e6),
        (synth::MINUS_STATE_LIMIT, -1.0e6),
        (synth::NOISE_SCALE, 1.732_050_8),
        (synth::NOISE_RANGE, u32::MAX as f32),
        (synth::NOISE_TOP, 1.0 - f32::EPSILON),
        (synth::FOUR, 4.0),
    ];
    for (bits, value) in cases {
        assert_eq!(bits, value.to_bits(), "{value}");
    }
}
