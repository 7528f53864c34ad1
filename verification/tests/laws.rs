//! The library as a whole, on concrete values.
use pipit::adpcm;
use pipit::binary32::Binary32;
use pipit::lpc10;
use pipit::lpc10::analysis;
use pipit::lpc10::half;
use pipit::lpc10::quant;
use pipit::lpc10::{Params, FRAME_BYTES, FRAME_SAMPLES, ORDER, PITCH_MAX, PITCH_MIN};
use pipit::{
    decode_clip, encode_clip, ClipHeader, ClipParams, Codec, Error, HEADER_LEN, MAX_FRAME_SAMPLES,
};

fn wrap(x: f32) -> Binary32 {
    Binary32::from_bits(x.to_bits())
}

fn float(x: Binary32) -> f32 {
    f32::from_bits(x.to_bits())
}

fn all_params() -> [ClipParams; 3] {
    [ClipParams::adpcm(), ClipParams::lpc10(), ClipParams::lpc10_half()]
}

/// A tone with a ramp on it.
fn tone(len: usize) -> Vec<i16> {
    (0..len)
        .map(|i| {
            let level = 2000.0 + (i % 700) as f32 * 8.0;
            ((i as f32 * 0.13).sin() * level) as i16
        })
        .collect()
}

fn noise(len: usize, seed: u32) -> Vec<i16> {
    let mut state = seed;
    (0..len)
        .map(|_| {
            state ^= state << 13;
            state ^= state >> 17;
            state ^= state << 5;
            (state >> 16) as i16
        })
        .collect()
}

fn random_bytes(len: usize, seed: u32) -> Vec<u8> {
    noise(len, seed).iter().map(|s| *s as u8).collect()
}

fn header(codec: Codec, mode: u8, sample_rate: u32, frame_samples: u16) -> ClipHeader {
    ClipHeader { codec, mode, sample_rate, frame_samples, sample_count: 1000 }
}

#[test]
fn adpcm_frame_has_exactly_these_bytes() {
    let pcm = [0i16, 100, -100, 1000, -32768, 32767, 5];
    let mut encoder = adpcm::Encoder::new();
    let mut frame = [0xaau8; 9];
    assert_eq!(encoder.encode_frame(&pcm, &mut frame), Ok(7));
    assert_eq!(frame, [0x00, 0x00, 0x00, 0x70, 0x7f, 0x7f, 0x0a, 0xaa, 0xaa]);

    let mut decoded = [0i16; 7];
    assert_eq!(adpcm::decode_frame(&frame, &mut decoded), Ok(7));
    assert_eq!(decoded, [0, 11, -19, 44, -92, 201, -9]);

    // The next frame opens with the state this one left: -9 and index 39.
    assert_eq!(encoder.encode_frame(&[], &mut frame), Ok(3));
    assert_eq!(frame[..3], [0xf7, 0xff, 39]);
}

#[test]
fn adpcm_refusals_leave_everything_alone() {
    let mut encoder = adpcm::Encoder::new();
    let mut out = [0x55u8; 4];
    assert_eq!(encoder.encode_frame(&[1000; 8], &mut out), Err(Error::ShortBuffer));
    assert_eq!(out, [0x55; 4]);
    // The refused samples did not move the coder.
    assert_eq!(encoder.encode_frame(&[0; 2], &mut out), Ok(4));
    assert_eq!(out[..3], [0, 0, 0]);

    let mut pcm = [7i16; 4];
    assert_eq!(adpcm::decode_frame(&[0, 0, 89, 0, 0], &mut pcm), Err(Error::InvalidState));
    assert_eq!(adpcm::decode_frame(&[0, 0, 88, 0], &mut pcm), Err(Error::Truncated));
    assert_eq!(pcm, [7; 4]);
    assert_eq!(adpcm::decode_frame(&[0, 0, 88, 0, 0], &mut pcm), Ok(4));
}

#[test]
fn adpcm_stream_does_not_care_how_it_is_framed() {
    let pcm = tone(400);
    let mut whole = adpcm::Encoder::new();
    let mut one = vec![0u8; adpcm::frame_encoded_len(400)];
    whole.encode_frame(&pcm, &mut one).unwrap();
    let mut expected = vec![0i16; 400];
    adpcm::decode_frame(&one, &mut expected).unwrap();

    let mut split = adpcm::Encoder::new();
    let mut joined = Vec::new();
    for part in [&pcm[..100], &pcm[100..250], &pcm[250..]] {
        let mut frame = vec![0u8; adpcm::frame_encoded_len(part.len())];
        split.encode_frame(part, &mut frame).unwrap();
        let mut out = vec![0i16; part.len()];
        adpcm::decode_frame(&frame, &mut out).unwrap();
        joined.extend(out);
    }
    assert_eq!(joined, expected);
}

#[test]
fn adpcm_first_samples_do_not_depend_on_how_many_are_wanted() {
    let pcm = tone(161);
    let mut frame = vec![0u8; adpcm::frame_encoded_len(161)];
    adpcm::Encoder::new().encode_frame(&pcm, &mut frame).unwrap();
    let mut all = vec![0i16; 161];
    adpcm::decode_frame(&frame, &mut all).unwrap();
    for count in [0, 1, 2, 80, 160] {
        let mut some = vec![0i16; count];
        adpcm::decode_frame(&frame, &mut some).unwrap();
        assert_eq!(some, all[..count]);
    }
}

#[test]
fn adpcm_clip_is_the_coder_run_without_a_break() {
    let pcm = tone(1_000);
    for frame_samples in [1u16, 7, 160, 999, 1000, 4096] {
        let params = ClipParams { frame_samples, ..ClipParams::adpcm() };
        let clip = encode_clip(&pcm, params).unwrap();
        let (_, decoded) = decode_clip(&clip).unwrap();

        let mut frame = vec![0u8; adpcm::frame_encoded_len(pcm.len())];
        adpcm::Encoder::new().encode_frame(&pcm, &mut frame).unwrap();
        let mut expected = vec![0i16; pcm.len()];
        adpcm::decode_frame(&frame, &mut expected).unwrap();
        assert_eq!(decoded, expected, "{frame_samples} samples to a frame");
    }
}

#[test]
fn header_has_exactly_these_bytes() {
    let header = ClipHeader {
        codec: Codec::Lpc10Half,
        mode: 0,
        sample_rate: 0x0102_0304,
        frame_samples: 360,
        sample_count: 0xa0b0_c0d0,
    };
    let mut bytes = [0xeeu8; 20];
    assert_eq!(header.write(&mut bytes), Ok(HEADER_LEN));
    assert_eq!(
        bytes,
        [
            b'P', b'I', b'P', b'I', b'T', 1, 3, 0, 4, 3, 2, 1, 0x68, 0x01, 0xd0, 0xc0, 0xb0, 0xa0,
            0xee, 0xee,
        ]
    );
    assert_eq!(ClipHeader::parse(&bytes), Ok(header));
}

#[test]
fn header_errors_come_in_order() {
    let mut out = [0u8; HEADER_LEN];
    let cases = [
        (header(Codec::ImaAdpcm, 1, 0, 0), Error::InvalidHeader),
        (header(Codec::ImaAdpcm, 1, 8000, 0), Error::InvalidHeader),
        (header(Codec::ImaAdpcm, 1, 8000, MAX_FRAME_SAMPLES + 1), Error::InvalidHeader),
        (header(Codec::ImaAdpcm, 1, 8000, 160), Error::UnsupportedMode(1)),
        (header(Codec::Lpc10, 2, 8000, 160), Error::UnsupportedMode(2)),
        (header(Codec::Lpc10, 0, 8000, 160), Error::InvalidHeader),
        (header(Codec::Lpc10Half, 0, 8000, 180), Error::InvalidHeader),
    ];
    for (header, error) in cases {
        assert_eq!(header.write(&mut out), Err(error), "{header:?}");
    }
    assert_eq!(out, [0; HEADER_LEN]);
    // A sound header is tried against the buffer last.
    let sound = header(Codec::ImaAdpcm, 0, 8000, MAX_FRAME_SAMPLES);
    assert_eq!(sound.write(&mut out[..HEADER_LEN - 1]), Err(Error::ShortBuffer));
    assert_eq!(sound.write(&mut out), Ok(HEADER_LEN));
}

#[test]
fn every_header_byte_matters() {
    let original = header(Codec::ImaAdpcm, 0, 8000, 160);
    let mut bytes = [0u8; HEADER_LEN];
    original.write(&mut bytes).unwrap();
    for i in 0..HEADER_LEN {
        let mut changed = bytes;
        changed[i] ^= 0x01;
        assert_ne!(ClipHeader::parse(&changed), Ok(original), "byte {i}");
    }
}

#[test]
fn duration_and_geometry_are_exact() {
    let h = ClipHeader {
        codec: Codec::Lpc10,
        mode: 0,
        sample_rate: 8000,
        frame_samples: 180,
        sample_count: 7,
    };
    assert_eq!(h.duration_ms(), 0);
    assert_eq!(ClipHeader { sample_count: 8, ..h }.duration_ms(), 1);
    assert_eq!(ClipHeader { sample_count: u32::MAX, ..h }.duration_ms(), 536_870_911);
    assert_eq!(ClipHeader { sample_count: 0, ..h }.frame_count(), 0);
    assert_eq!(ClipHeader { sample_count: 180, ..h }.frame_count(), 1);
    assert_eq!(ClipHeader { sample_count: 181, ..h }.frame_count(), 2);
    assert_eq!(ClipHeader { sample_count: 181, ..h }.encoded_len(), 18 + 14);
    assert_eq!(Codec::ImaAdpcm.frame_encoded_len(161), 84);
    assert_eq!(Codec::Lpc10.frame_encoded_len(161), 7);
    assert_eq!(Codec::Lpc10Half.frame_encoded_len(161), 9);
    assert_eq!(Codec::ImaAdpcm.required_frame_samples(), None);
    assert_eq!(Codec::Lpc10.required_frame_samples(), Some(180));
    assert_eq!(Codec::Lpc10Half.required_frame_samples(), Some(360));
    assert_eq!(ClipParams::default(), ClipParams::adpcm());
}

#[test]
fn one_second_takes_the_declared_bytes() {
    let pcm = tone(8_000);
    let sizes = [4168, 333, 225];
    for (params, size) in all_params().into_iter().zip(sizes) {
        let clip = encode_clip(&pcm, params).unwrap();
        assert_eq!(clip.len(), size);
        let (header, decoded) = decode_clip(&clip).unwrap();
        assert_eq!(header.duration_ms(), 1000);
        assert_eq!(decoded.len(), pcm.len());
    }
}

#[test]
fn clips_of_every_length_round_trip() {
    for params in all_params() {
        for len in [0usize, 1, 2, 159, 160, 161, 179, 180, 181, 359, 360, 361, 721] {
            let clip = encode_clip(&tone(len), params).unwrap();
            let (header, decoded) = decode_clip(&clip).unwrap();
            assert_eq!(header.codec, params.codec);
            assert_eq!(header.sample_rate, params.sample_rate);
            assert_eq!(header.frame_samples, params.frame_samples);
            assert_eq!(header.sample_count as usize, len);
            assert_eq!(header.encoded_len(), clip.len());
            assert_eq!(decoded.len(), len);
        }
    }
}

#[test]
fn clips_are_the_same_every_time() {
    let pcm = noise(1_000, 0xfeed_5eed);
    for params in all_params() {
        assert_eq!(encode_clip(&pcm, params), encode_clip(&pcm, params));
    }
}

#[test]
fn no_prefix_of_a_clip_decodes() {
    for params in all_params() {
        let clip = encode_clip(&tone(400), params).unwrap();
        for m in 0..clip.len() {
            assert_eq!(decode_clip(&clip[..m]), Err(Error::Truncated), "{m} bytes");
        }
    }
}

#[test]
fn what_follows_a_clip_is_ignored() {
    for params in all_params() {
        let clip = encode_clip(&tone(400), params).unwrap();
        let mut longer = clip.clone();
        longer.extend(random_bytes(50, 77));
        assert_eq!(decode_clip(&longer), decode_clip(&clip));
    }
}

#[test]
fn bad_coder_state_is_refused_in_any_frame() {
    let clip = encode_clip(&tone(480), ClipParams::adpcm()).unwrap();
    for i in 0..3 {
        let mut bad = clip.clone();
        bad[HEADER_LEN + i * 83 + 2] = 89;
        assert_eq!(decode_clip(&bad), Err(Error::InvalidState), "frame {i}");
    }
}

#[test]
fn header_errors_reach_clip_callers() {
    let pcm = tone(10);
    let none = ClipParams { sample_rate: 0, ..ClipParams::adpcm() };
    assert_eq!(encode_clip(&pcm, none), Err(Error::InvalidHeader));
    let empty = ClipParams { frame_samples: 0, ..ClipParams::adpcm() };
    assert_eq!(encode_clip(&pcm, empty), Err(Error::InvalidHeader));

    let clip = encode_clip(&pcm, ClipParams::adpcm()).unwrap();
    for (at, value, error) in [
        (4usize, b'X', Error::BadMagic),
        (5, 2, Error::UnsupportedVersion(2)),
        (6, 0, Error::UnknownCodec(0)),
        (6, 4, Error::UnknownCodec(4)),
        (7, 255, Error::UnsupportedMode(255)),
        (6, 2, Error::InvalidHeader),
    ] {
        let mut bad = clip.clone();
        bad[at] = value;
        assert_eq!(decode_clip(&bad), Err(error));
    }
    // A header may promise as much as it likes; the bytes decide.
    let mut greedy = clip.clone();
    greedy[14..18].copy_from_slice(&u32::MAX.to_le_bytes());
    assert_eq!(decode_clip(&greedy), Err(Error::Truncated));
}

#[test]
fn silent_clips_decode_to_silence() {
    for params in all_params() {
        for len in [1usize, 180, 500, 1_081] {
            let pcm = vec![0i16; len];
            let clip = encode_clip(&pcm, params).unwrap();
            let (_, decoded) = decode_clip(&clip).unwrap();
            assert_eq!(decoded, pcm);
        }
    }
}

#[test]
fn silence_has_exactly_these_bytes() {
    let expected = [0x00u8, 0x08, 0x42, 0x10, 0x88, 0x88, 0x90];
    assert_eq!(quant::pack(&Params::silence()), expected);
    let mut frame = [0u8; FRAME_BYTES];
    lpc10::Encoder::new().encode_frame(&[0; FRAME_SAMPLES], &mut frame).unwrap();
    assert_eq!(frame, expected);

    let expected = [0x00u8, 0x00, 0x00, 0x84, 0x21, 0x08, 0x88, 0x89, 0x00];
    assert_eq!(half::pack(&Params::silence(), &Params::silence()), expected);
    let mut frame = [0u8; 9];
    half::Encoder::new().encode_superframe(&[0; 360], &mut frame).unwrap();
    assert_eq!(frame, expected);
}

#[test]
fn silence_has_a_code_of_its_own() {
    for gain in [0.0f32, -0.0, -1.0, f32::NEG_INFINITY] {
        assert_eq!(quant::gain_code(wrap(gain)), 0, "{gain}");
    }
    for gain in [1e-30f32, 0.25, 0.5, 1.0, 16384.0, 1e30] {
        assert!(quant::gain_code(wrap(gain)) >= 1, "{gain}");
    }
    assert_eq!(quant::gain_code(wrap(0.5)), 1);
    assert_eq!(quant::gain_code(wrap(16384.0)), 31);
    assert_eq!(float(quant::gain_from_code(0)), 0.0);
    assert_eq!(float(quant::gain_from_code(31)), 16384.0);
}

fn speech(voiced: bool, pitch: u8, gain: f32, rc: [f32; 10]) -> Params {
    Params { voiced, pitch, gain: wrap(gain), rc: rc.map(wrap) }
}

#[test]
fn frames_carry_every_field() {
    let rc = [0.9, -0.8, 0.7, -0.6, 0.5, -0.4, 0.3, -0.2, 0.1, -0.05];
    for (voiced, pitch, gain) in [(true, 64u8, 300.0f32), (false, 20, 0.0), (true, 156, 9000.0)] {
        let params = speech(voiced, pitch, gain, rc);
        let back = quant::unpack(&quant::pack(&params));
        assert_eq!(back.voiced, voiced);
        assert_eq!(back.pitch, quant::pitch_from_code(quant::pitch_code(pitch)));
        assert_eq!(back.gain, quant::gain_from_code(quant::gain_code(wrap(gain))));
        for i in 0..ORDER {
            let code = quant::rc_code(i, wrap(rc[i]));
            assert_eq!(back.rc[i], quant::rc_from_code(i, code), "coefficient {i}");
        }
    }
}

#[test]
fn superframes_carry_every_field() {
    let first = speech(true, 50, 100.0, [0.3; 10]);
    let second = speech(false, 100, 2000.0, [-0.2; 10]);
    let (a, b) = half::unpack(&half::pack(&first, &second));
    let alone = quant::unpack(&quant::pack(&first));
    let sent = quant::unpack(&quant::pack(&second));
    assert_eq!((a.voiced, a.pitch, a.gain), (alone.voiced, alone.pitch, alone.gain));
    assert_eq!(b, sent);
    // Both frames have the second one's spectrum.
    assert_eq!(a.rc, sent.rc);
}

#[test]
fn spare_bits_are_zero_and_ignored() {
    let params = speech(true, 77, 123.0, [0.25; 10]);
    let frame = quant::pack(&params);
    assert_eq!(frame[6] & 0x07, 0);
    let mut marked = frame;
    marked[6] |= 0x07;
    assert_eq!(quant::unpack(&marked), quant::unpack(&frame));

    let superframe = half::pack(&params, &params);
    assert_eq!(superframe[8] & 0x7f, 0);
    let mut marked = superframe;
    marked[8] |= 0x7f;
    assert_eq!(half::unpack(&marked), half::unpack(&superframe));
}

#[test]
fn every_code_stands_for_something_sound() {
    for code in 0..64 {
        let pitch = quant::pitch_from_code(code) as usize;
        assert!((PITCH_MIN..=PITCH_MAX).contains(&pitch), "pitch {pitch}");
    }
    assert_eq!(quant::pitch_from_code(0), 20);
    assert_eq!(quant::pitch_from_code(63), 156);
    for code in 0..32 {
        let gain = float(quant::gain_from_code(code));
        assert!(gain.is_finite() && gain >= 0.0 && (gain == 0.0) == (code == 0));
    }
    for i in 0..ORDER {
        for code in 0..32 {
            let k = float(quant::rc_from_code(i, code));
            assert!(k.abs() <= 1.0 - 1.0 / 1024.0, "coefficient {i}, code {code}: {k}");
        }
    }
}

#[test]
fn direct_codes_come_back() {
    let widths = [5u32, 5, 5, 5, 4, 4, 4, 4, 3, 2];
    for i in 2..ORDER {
        for code in 0..1u32 << widths[i] {
            let k = quant::rc_from_code(i, code);
            assert_eq!(quant::rc_code(i, k), code, "coefficient {i}");
        }
    }
}

#[test]
fn direct_coefficients_arrive_within_half_a_step() {
    let widths = [5u32, 5, 5, 5, 4, 4, 4, 4, 3, 2];
    for i in 2..ORDER {
        let levels = ((1u32 << widths[i]) - 1) as f32;
        for n in -990..=990 {
            let k = n as f32 / 1000.0;
            let back = float(quant::rc_from_code(i, quant::rc_code(i, wrap(k))));
            assert!((back - k).abs() <= 0.99 / levels * 1.001, "coefficient {i}: {k} to {back}");
        }
    }
    // Beyond the limit the nearest level is the last.
    assert_eq!(quant::rc_code(2, wrap(5.0)), 31);
    assert_eq!(quant::rc_code(2, wrap(-5.0)), 0);
}

#[test]
fn analysis_finds_stable_filters_in_anything() {
    let mut square = vec![i16::MAX; 900];
    for s in square.iter_mut().skip(1).step_by(2) {
        *s = i16::MIN;
    }
    let steady = vec![i16::MIN; 900];
    for pcm in [tone(900), noise(900, 0x1234_5678), square, steady] {
        let mut encoder = lpc10::Encoder::new();
        for frame in pcm.chunks_exact(FRAME_SAMPLES) {
            let params = encoder.analyze(frame).unwrap();
            for k in params.rc.map(float) {
                assert!(k.abs() <= 0.999, "{k}");
            }
            let gain = float(params.gain);
            assert!(gain.is_finite() && gain >= 0.0);
            assert!((PITCH_MIN..=PITCH_MAX).contains(&(params.pitch as usize)));
        }
    }
}

#[test]
fn wrong_frame_lengths_leave_the_encoder_alone() {
    let pcm = tone(FRAME_SAMPLES);
    let mut plain = lpc10::Encoder::new();
    let mut tried = lpc10::Encoder::new();
    assert_eq!(tried.analyze(&pcm[..179]), Err(Error::InvalidHeader));
    assert_eq!(tried.encode_frame(&[], &mut [0; 7]), Err(Error::InvalidHeader));
    assert_eq!(tried.encode_frame(&pcm, &mut [0; 6]), Err(Error::ShortBuffer));
    assert_eq!(tried.analyze(&pcm), plain.analyze(&pcm));
}

#[test]
fn frames_describe_themselves() {
    // Two decoders with different pasts render the same silence alike once
    // a common frame lies between.
    let mut fresh = lpc10::Decoder::default();
    let mut worn = lpc10::Decoder::new();
    let mut a = [0i16; FRAME_SAMPLES];
    let mut b = [0i16; FRAME_SAMPLES];
    for chunk in random_bytes(70, 3).chunks_exact(FRAME_BYTES) {
        worn.decode_frame(chunk, &mut b).unwrap();
    }
    let silence = quant::pack(&Params::silence());
    for _ in 0..40 {
        fresh.decode_frame(&silence, &mut a).unwrap();
        worn.decode_frame(&silence, &mut b).unwrap();
    }
    assert_eq!(a, [0; FRAME_SAMPLES]);
    assert_eq!(b, [0; FRAME_SAMPLES]);
}

#[test]
fn decoder_sizes_are_checked_in_order() {
    let mut decoder = lpc10::Decoder::new();
    assert_eq!(decoder.decode_frame(&[0; 6], &mut [0; 10]), Err(Error::Truncated));
    assert_eq!(decoder.decode_frame(&[0; 7], &mut [0; 181]), Err(Error::ShortBuffer));
    let mut decoder = half::Decoder::default();
    assert_eq!(decoder.decode_superframe(&[0; 8], &mut [0; 10]), Err(Error::Truncated));
    assert_eq!(decoder.decode_superframe(&[0; 9], &mut [0; 180]), Err(Error::ShortBuffer));
    let mut encoder = half::Encoder::default();
    assert_eq!(encoder.encode_superframe(&[0; 361], &mut []), Err(Error::InvalidHeader));
    assert_eq!(encoder.encode_superframe(&[0; 360], &mut []), Err(Error::ShortBuffer));
}

#[test]
fn vocoder_frames_ignore_what_follows_them() {
    let frame = quant::pack(&speech(true, 60, 500.0, [0.1; 10]));
    let mut longer = frame.to_vec();
    longer.extend([0xff; 5]);
    let mut a = [0i16; FRAME_SAMPLES];
    let mut b = [0i16; FRAME_SAMPLES];
    lpc10::Decoder::new().decode_frame(&frame, &mut a).unwrap();
    lpc10::Decoder::new().decode_frame(&longer, &mut b).unwrap();
    assert_eq!(a, b);
    assert!(a.iter().any(|s| *s != 0));
}

#[test]
fn errors_say_what_went_wrong() {
    let cases = [
        (Error::ShortBuffer, "output buffer too small"),
        (Error::Truncated, "input ended early"),
        (Error::BadMagic, "not a pipit clip"),
        (Error::UnsupportedVersion(9), "unsupported clip version 9"),
        (Error::UnknownCodec(42), "unknown codec id 42"),
        (Error::UnsupportedMode(255), "unsupported codec mode 255"),
        (Error::UnsupportedMode(100), "unsupported codec mode 100"),
        (Error::UnknownCodec(0), "unknown codec id 0"),
        (Error::InvalidHeader, "invalid clip header"),
        (Error::InvalidState, "invalid coder state in frame"),
        (Error::TooLong, "audio too long for the container"),
    ];
    for (error, message) in cases {
        assert_eq!(error.message(), message);
    }
}

#[test]
fn every_pitch_comes_back_within_a_step() {
    let mut last = 0;
    for pitch in PITCH_MIN as u8..=PITCH_MAX as u8 {
        let code = quant::pitch_code(pitch);
        assert!(code >= last, "longer periods have higher codes");
        last = code;
        // Half of a 63rd of the range in octaves, and half a sample.
        let back = quant::pitch_from_code(code) as f32;
        let step = (156.0f32 / 20.0).powf(1.0 / 126.0);
        let (low, high) = (pitch as f32 / step - 0.51, pitch as f32 * step + 0.51);
        assert!((low..=high).contains(&back), "{pitch} came back as {back}");
    }
    assert_eq!(quant::pitch_code(0), 0);
    assert_eq!(quant::pitch_code(255), 63);
}

#[test]
fn every_gain_comes_back_within_half_a_step() {
    // Half of a 31st of fifteen octaves.
    let step = 2.0f32.powf(15.0 / 62.0) * 1.001;
    let mut gain = 0.72f32;
    while gain < 16_384.0 {
        let back = float(quant::gain_from_code(quant::gain_code(wrap(gain))));
        assert!(back <= gain * step && gain <= back * step, "{gain} came back as {back}");
        gain *= 1.01;
    }
}

#[test]
fn every_log_area_ratio_comes_back_within_half_a_step() {
    for i in 0..2 {
        for n in -980..=980 {
            let k = n as f32 / 1000.0;
            let back = float(quant::rc_from_code(i, quant::rc_code(i, wrap(k))));
            let lar = |k: f32| ((1.0 + k) / (1.0 - k)).log2();
            assert!((lar(back) - lar(k)).abs() <= 8.0 / 31.0 + 0.01, "{k} came back as {back}");
        }
    }
}

#[test]
fn predictors_are_built_order_by_order() {
    let mut rc = [0.0f32; 10];
    rc[0] = 0.5;
    rc[1] = 0.25;
    rc[2] = -0.5;
    let a = analysis::reflection_to_predictor(&rc.map(wrap)).map(float);
    // 0.5, then 0.375 and 0.25, then 0.375 + 0.125 and 0.25 + 0.1875.
    assert_eq!(a[..5], [0.0, 0.5, 0.4375, -0.5, 0.0]);
}
