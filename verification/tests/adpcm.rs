use pipit::adpcm::{decode_frame, frame_encoded_len, Encoder};
use pipit::Error;

/// A speech-ish test signal: a voiced-sounding fundamental plus a
/// harmonic, amplitude-enveloped so the coder's step adaptation is
/// actually exercised in both directions.
fn signal(len: usize) -> [i16; 512] {
    assert!(len <= 512);
    let mut out = [0i16; 512];
    for (i, s) in out.iter_mut().enumerate().take(len) {
        let t = i as f32 / 8000.0;
        let envelope = 0.3 + 0.7 * (t * 6.0).sin().abs();
        let v = (t * 220.0 * core::f32::consts::TAU).sin() * 0.6
            + (t * 440.0 * core::f32::consts::TAU).sin() * 0.25;
        *s = (v * envelope * 12000.0) as i16;
    }
    out
}

fn snr_db(original: &[i16], decoded: &[i16]) -> f32 {
    let mut sig = 0.0f64;
    let mut noise = 0.0f64;
    for (o, d) in original.iter().zip(decoded) {
        let o = *o as f64;
        let e = o - *d as f64;
        sig += o * o;
        noise += e * e;
    }
    if noise == 0.0 {
        return f32::INFINITY;
    }
    (10.0 * (sig / noise).log10()) as f32
}

#[test]
fn frame_encoded_len_packs_two_samples_per_byte() {
    assert_eq!(frame_encoded_len(0), 3);
    assert_eq!(frame_encoded_len(1), 4);
    assert_eq!(frame_encoded_len(2), 4);
    assert_eq!(frame_encoded_len(160), 83);
}

#[test]
fn round_trip_reaches_steady_state_snr() {
    let pcm = signal(320);
    let mut encoder = Encoder::new();
    let mut out = [0u8; 256];
    let written = encoder.encode_frame(&pcm[..320], &mut out).unwrap();
    assert_eq!(written, frame_encoded_len(320));

    let mut decoded = [0i16; 320];
    decode_frame(&out[..written], &mut decoded).unwrap();
    let steady = snr_db(&pcm[80..320], &decoded[80..]);
    assert!(steady > 30.0, "steady-state SNR should clear 30 dB: {steady}");
}

#[test]
fn cold_start_converges_within_ten_milliseconds() {
    // The step index starts at 0 (step size 7) and has to climb to the
    // signal's amplitude, so a coder starting cold is quiet-then-correct
    // rather than wrong. Measured, not assumed: the first 5 ms sit near
    // 8 dB and the coder is at full quality by 10 ms. Anything that
    // regresses this convergence is a real defect, so it is pinned here.
    let pcm = signal(320);
    let mut encoder = Encoder::new();
    let mut out = [0u8; 256];
    let written = encoder.encode_frame(&pcm[..320], &mut out).unwrap();
    let mut decoded = [0i16; 320];
    decode_frame(&out[..written], &mut decoded).unwrap();

    let cold = snr_db(&pcm[..40], &decoded[..40]);
    let warm = snr_db(&pcm[80..320], &decoded[80..]);
    assert!(cold < warm, "cold start must be the worse stretch");
    assert!(warm - cold > 15.0, "convergence should be visible: {cold} -> {warm}");
}

#[test]
fn an_isolated_frame_decodes_at_full_quality() {
    // The claim the framing exists to make: a receiver that lost every
    // earlier frame decodes this one as well as a receiver that got them
    // all, because the frame carries the state it starts from.
    let pcm = signal(480);
    let mut encoder = Encoder::new();
    let mut frames = [[0u8; 83]; 3];
    for (i, frame) in frames.iter_mut().enumerate() {
        encoder
            .encode_frame(&pcm[i * 160..(i + 1) * 160], frame)
            .unwrap();
    }

    let mut whole_stream = [0i16; 480];
    for (i, frame) in frames.iter().enumerate() {
        decode_frame(frame, &mut whole_stream[i * 160..(i + 1) * 160]).unwrap();
    }
    let continuous = snr_db(&pcm[320..480], &whole_stream[320..]);

    let mut alone = [0i16; 160];
    decode_frame(&frames[2], &mut alone).unwrap();
    let isolated = snr_db(&pcm[320..480], &alone);

    assert!(isolated > 30.0, "isolated frame quality: {isolated} dB");
    assert!(
        (continuous - isolated).abs() < 0.5,
        "loss of earlier frames must not degrade this one: \
         {continuous} dB continuous vs {isolated} dB isolated"
    );
}

#[test]
fn odd_sample_count_round_trips() {
    let pcm = signal(7);
    let mut encoder = Encoder::new();
    let mut out = [0u8; 16];
    let written = encoder.encode_frame(&pcm[..7], &mut out).unwrap();
    assert_eq!(written, frame_encoded_len(7));
    let mut decoded = [0i16; 7];
    assert_eq!(decode_frame(&out[..written], &mut decoded).unwrap(), 7);
}

#[test]
fn short_output_buffer_is_refused() {
    let mut encoder = Encoder::new();
    let mut out = [0u8; 4];
    assert!(matches!(
        encoder.encode_frame(&[0i16; 160], &mut out),
        Err(Error::ShortBuffer)
    ));
}

#[test]
fn hostile_frames_error_rather_than_panic() {
    let mut pcm = [0i16; 8];
    assert!(matches!(decode_frame(&[], &mut pcm), Err(Error::Truncated)));
    assert!(matches!(
        decode_frame(&[0, 0], &mut pcm),
        Err(Error::Truncated)
    ));
    // Step index past the end of the table.
    assert!(matches!(
        decode_frame(&[0, 0, 200, 0, 0, 0, 0], &mut pcm),
        Err(Error::InvalidState)
    ));
    // Header present, payload too short for the requested samples.
    assert!(matches!(
        decode_frame(&[0, 0, 0, 0x11], &mut pcm),
        Err(Error::Truncated)
    ));
}

#[test]
fn extreme_input_stays_in_range() {
    let pcm = [i16::MAX, i16::MIN, i16::MAX, i16::MIN, 0, i16::MAX];
    let mut encoder = Encoder::new();
    let mut out = [0u8; 16];
    let written = encoder.encode_frame(&pcm, &mut out).unwrap();
    let mut decoded = [0i16; 6];
    // Clamping is the only guarantee at the rails; no panic, no wrap.
    decode_frame(&out[..written], &mut decoded).unwrap();
}
