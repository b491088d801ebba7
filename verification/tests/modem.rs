//! End-to-end scenarios: payloads planned by the modem, synthesized as
//! audio, run through a real FFT, and decoded back.

use dosr::aead::AeadKey;
use dosr::mfsk::MfskConfig;
use dosr::spectrum::FrameSpectrum;
use dosr::Dosr;

/// Turns a signal plan into audio samples: for each frame, the sum of a
/// 0.5-amplitude sine per planned tone.
fn synthesize(plan: &[Vec<u64>], spf: usize, rate: u32) -> Vec<f32> {
    let mut samples = Vec::new();
    for row in plan {
        for n in 0..spf {
            let t = n as f32 / rate as f32;
            let mut s = 0.0f32;
            for &f_mhz in row {
                let f = f_mhz as f32 / 1000.0;
                s += 0.5 * (2.0 * std::f32::consts::PI * f * t).sin();
            }
            samples.push(s);
        }
    }
    samples
}

/// Splits samples into frames and turns each into a fixed-point magnitude
/// spectrum of its positive-frequency bins.
fn spectra_of(samples: &[f32], spf: usize) -> Vec<FrameSpectrum> {
    let mut planner = rustfft::FftPlanner::<f32>::new();
    let mut out = Vec::new();
    for chunk in samples.chunks(spf) {
        let fft = planner.plan_fft_forward(chunk.len());
        let mut buf: Vec<rustfft::num_complex::Complex<f32>> = chunk
            .iter()
            .map(|&s| rustfft::num_complex::Complex::new(s, 0.0))
            .collect();
        fft.process(&mut buf);
        let mags: Vec<u64> = buf
            .iter()
            .take(chunk.len() / 2)
            .map(|c| (c.norm() * 65536.0) as u64)
            .collect();
        out.push(FrameSpectrum::new(mags, chunk.len()).unwrap());
    }
    out
}

fn reference_modem() -> Dosr {
    Dosr::new(1875000, 46875, 4, 6, 100, 48000).unwrap()
}

#[test]
fn single_byte_scenario() {
    let modem = reference_modem();
    let data = b"A".to_vec();
    let plan = modem.encode_data(&data, &None);
    assert_eq!(plan.len(), 1);
    assert_eq!(plan[0], vec![2062500u64, 2671875u64]);
    let samples = synthesize(&plan, modem.samples_per_frame(), modem.sample_rate());
    assert_eq!(samples.len(), 4800);
    let spectra = spectra_of(&samples, modem.samples_per_frame());
    let decoded = modem.decode(&spectra, &None).unwrap();
    assert_eq!(decoded, data);
}

#[test]
fn two_byte_scenario() {
    let modem = reference_modem();
    let data = b"Hi".to_vec();
    let plan = modem.encode_data(&data, &None);
    assert_eq!(plan.len(), 1);
    assert_eq!(plan[0].len(), 4);
    let expected_symbols = [4u8, 8, 6, 9];
    for (k, &v) in expected_symbols.iter().enumerate() {
        assert_eq!(plan[0][k], modem.calculate_frequency(v, k));
    }
    let samples = synthesize(&plan, modem.samples_per_frame(), modem.sample_rate());
    let spectra = spectra_of(&samples, modem.samples_per_frame());
    assert_eq!(modem.decode(&spectra, &None).unwrap(), data);
}

#[test]
fn two_full_frames_scenario() {
    let modem = reference_modem();
    let data = b"ABCDEF".to_vec();
    let plan = modem.encode_data(&data, &None);
    assert_eq!(plan.len(), 2);
    assert_eq!(plan[0].len(), 6);
    assert_eq!(plan[1].len(), 6);
    let samples = synthesize(&plan, modem.samples_per_frame(), modem.sample_rate());
    assert_eq!(samples.len(), 9600);
    let spectra = spectra_of(&samples, modem.samples_per_frame());
    assert_eq!(modem.decode(&spectra, &None).unwrap(), data);
}

#[test]
fn silent_input_decodes_to_nothing() {
    let modem = reference_modem();
    let samples = vec![0.0f32; modem.samples_per_frame()];
    let spectra = spectra_of(&samples, modem.samples_per_frame());
    let decoded = modem.decode(&spectra, &None).unwrap();
    assert!(decoded.is_empty());
}

#[test]
fn aead_round_trip_and_tamper() {
    let modem = reference_modem();
    let key_bytes: Vec<u8> = (0u8..16).collect();
    let key = AeadKey::new(key_bytes).unwrap();
    let data = b"secret".to_vec();
    let plan = modem.encode_data(&data, &Some(key));
    let samples = synthesize(&plan, modem.samples_per_frame(), modem.sample_rate());
    let spectra = spectra_of(&samples, modem.samples_per_frame());

    let key = AeadKey::new((0u8..16).collect()).unwrap();
    assert_eq!(modem.decode(&spectra, &Some(key)).unwrap(), data);

    // The wrapped payload really is nonce + ciphertext + tag, nothing like
    // the plaintext itself.
    let payload = modem.decode(&spectra, &None).unwrap();
    assert_eq!(payload.len(), 12 + data.len() + 16);
    assert_ne!(&payload[12..12 + data.len()], &data[..]);

    // Corrupting one ciphertext byte and re-modulating the corrupted
    // payload must fail authentication.
    let mut tampered = payload.clone();
    tampered[20] ^= 0x01;
    let plan2 = modem.encode_data(&tampered, &None);
    let samples2 = synthesize(&plan2, modem.samples_per_frame(), modem.sample_rate());
    let spectra2 = spectra_of(&samples2, modem.samples_per_frame());
    let key = AeadKey::new((0u8..16).collect()).unwrap();
    assert_eq!(
        modem.decode(&spectra2, &Some(key)),
        Err(dosr::DosrError::AuthFailed)
    );
}

#[test]
fn wrong_key_fails_authentication() {
    let modem = reference_modem();
    let key = AeadKey::new((0u8..16).collect()).unwrap();
    let data = b"secret".to_vec();
    let plan = modem.encode_data(&data, &Some(key));
    let samples = synthesize(&plan, modem.samples_per_frame(), modem.sample_rate());
    let spectra = spectra_of(&samples, modem.samples_per_frame());
    let other = AeadKey::new((100u8..116).collect()).unwrap();
    assert_eq!(
        modem.decode(&spectra, &Some(other)),
        Err(dosr::DosrError::AuthFailed)
    );
}

#[test]
fn narrow_symbols_round_trip() {
    let mfsk = MfskConfig::new(2, 4, 100, 48000).unwrap();
    let data = vec![0x00u8, 0xFF];
    let plan = mfsk.encode_data(&data);
    assert_eq!(plan.len(), 2);
    let samples = synthesize(&plan, 4800, 48000);
    let spectra = spectra_of(&samples, 4800);
    assert_eq!(mfsk.decode(&spectra).unwrap(), data);
}

#[test]
fn mfsk_matches_reference_plan() {
    let mfsk = MfskConfig::new(4, 6, 100, 48000).unwrap();
    let modem = reference_modem();
    let data = b"parallel tones".to_vec();
    assert_eq!(mfsk.encode_data(&data), modem.encode_data(&data, &None));
    assert_eq!(mfsk.calculate_frequency(4, 0), 2062500);
}

#[test]
fn default_modem_round_trip() {
    let modem = Dosr::default();
    assert_eq!(modem.sample_rate(), 44100);
    assert_eq!(modem.samples_per_frame(), 4410);
    let data = b"default settings".to_vec();
    let plan = modem.encode_data(&data, &None);
    let samples = synthesize(&plan, modem.samples_per_frame(), modem.sample_rate());
    let spectra = spectra_of(&samples, modem.samples_per_frame());
    assert_eq!(modem.decode(&spectra, &None).unwrap(), data);
}

#[test]
fn builders_rebuild_the_modem() {
    let modem = Dosr::default()
        .with_base_freq(1875000)
        .unwrap()
        .with_delta_freq(46875)
        .unwrap()
        .with_duration_s(100)
        .unwrap()
        .with_sample_rate(48000)
        .unwrap();
    assert_eq!(modem.sample_rate(), 48000);
    assert_eq!(modem.samples_per_frame(), 4800);
    let data = b"rebuilt".to_vec();
    assert_eq!(
        modem.encode_data(&data, &None),
        reference_modem().encode_data(&data, &None)
    );
}

#[test]
fn amplitude_stays_within_half_per_chunk() {
    let modem = reference_modem();
    let data = b"loudest possible frame".to_vec();
    let plan = modem.encode_data(&data, &None);
    let samples = synthesize(&plan, modem.samples_per_frame(), modem.sample_rate());
    let bound = 0.5 * 6.0 + 1e-4;
    for s in samples {
        assert!(s.abs() <= bound);
    }
}

#[test]
fn equal_configs_plan_identical_signals() {
    let a = Dosr::new(1875000, 46875, 4, 6, 100, 48000).unwrap();
    let b = Dosr::new(1875000, 46875, 4, 6, 100, 48000).unwrap();
    let data = b"determinism".to_vec();
    let plan_a = a.encode_data(&data, &None);
    let plan_b = b.encode_data(&data, &None);
    assert_eq!(plan_a, plan_b);
    let samples_a = synthesize(&plan_a, a.samples_per_frame(), a.sample_rate());
    let samples_b = synthesize(&plan_b, b.samples_per_frame(), b.sample_rate());
    assert_eq!(samples_a, samples_b);
}

#[test]
fn long_message_round_trip() {
    let modem = reference_modem();
    let data = b"The quick brown fox jumps over the lazy dog 0123456789".to_vec();
    let plan = modem.encode_data(&data, &None);
    let samples = synthesize(&plan, modem.samples_per_frame(), modem.sample_rate());
    let spectra = spectra_of(&samples, modem.samples_per_frame());
    assert_eq!(modem.decode(&spectra, &None).unwrap(), data);
}

#[test]
fn aead_round_trip_at_default_rate() {
    let modem = Dosr::default();
    let key = AeadKey::new((7u8..23).collect()).unwrap();
    let data = b"hello at 44100".to_vec();
    let plan = modem.encode_data(&data, &Some(key));
    let samples = synthesize(&plan, modem.samples_per_frame(), modem.sample_rate());
    let spectra = spectra_of(&samples, modem.samples_per_frame());
    let key = AeadKey::new((7u8..23).collect()).unwrap();
    assert_eq!(modem.decode(&spectra, &Some(key)).unwrap(), data);
}
