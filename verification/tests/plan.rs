//! The frequency plan, the bit packer, and every error the modem can
//! surface, exercised on concrete values.

use dosr::aead::AeadKey;
use dosr::spectrum::FrameSpectrum;
use dosr::{Dosr, DosrError};

fn reference_modem() -> Dosr {
    Dosr::new(1875000, 46875, 4, 6, 100, 48000).unwrap()
}

#[test]
fn frequency_plan_is_a_bijection() {
    let modem = reference_modem();
    for c in 0..6usize {
        for v in 0..16u8 {
            let f = modem.calculate_frequency(v, c);
            assert_eq!(modem.decode_frequency(f, c), Some(v));
        }
    }
}

#[test]
fn decoding_tolerates_half_step_jitter() {
    let modem = reference_modem();
    let f = modem.calculate_frequency(9, 3);
    assert_eq!(modem.decode_frequency(f + 23437, 3), Some(9));
    assert_eq!(modem.decode_frequency(f - 23437, 3), Some(9));
    assert_eq!(modem.decode_frequency(f + 23438, 3), Some(10));
}

#[test]
fn chunk_bands_are_disjoint_and_ordered() {
    let modem = reference_modem();
    for c in 0..5usize {
        let last_of_band = modem.calculate_frequency(15, c);
        let first_of_next = modem.calculate_frequency(0, c + 1);
        assert!(last_of_band < first_of_next);
        assert_eq!(first_of_next - last_of_band, 46875);
    }
}

#[test]
fn bit_packing_round_trips_at_every_width() {
    let data: Vec<u8> = vec![0x00, 0x41, 0xFF, 0x5A, 0x80, 0x01, 0xC3];
    for &(bits, chunks) in &[(1usize, 6usize), (2, 6), (4, 6), (8, 1)] {
        let modem = Dosr::new(1875000, 46875, bits, chunks, 100, 48000).unwrap();
        let symbols = modem.bytes_to_chunks(&data);
        assert_eq!(symbols.len(), data.len() * (8 / bits));
        let back = modem.symbols_to_bytes(&symbols);
        assert_eq!(back, data);
    }
}

#[test]
fn msb_first_symbol_order() {
    let modem = reference_modem();
    let symbols = modem.bytes_to_chunks(&vec![0x41]);
    assert_eq!(symbols, vec![0x4, 0x1]);
    let symbols = modem.bytes_to_chunks(&vec![0x48, 0x69]);
    assert_eq!(symbols, vec![0x4, 0x8, 0x6, 0x9]);
}

#[test]
fn incomplete_trailing_group_is_discarded() {
    let modem = reference_modem();
    let back = modem.symbols_to_bytes(&vec![0x4, 0x1, 0x7]);
    assert_eq!(back, vec![0x41]);
}

#[test]
fn invalid_configurations_are_refused() {
    assert!(matches!(
        Dosr::new(1875000, 46875, 3, 6, 100, 48000),
        Err(DosrError::InvalidConfig)
    ));
    assert!(matches!(
        Dosr::new(0, 46875, 4, 6, 100, 48000),
        Err(DosrError::InvalidConfig)
    ));
    assert!(matches!(
        Dosr::new(1875000, 46875, 4, 6, 100, 0),
        Err(DosrError::InvalidConfig)
    ));
    // Tones of the sixth chunk would pass the Nyquist frequency at a low
    // sample rate.
    assert!(matches!(
        Dosr::new(1875000, 46875, 4, 6, 100, 8000),
        Err(DosrError::InvalidConfig)
    ));
    assert!(Dosr::new(1875000, 46875, 4, 6, 100, 14000).is_ok());
}

#[test]
fn keys_must_be_sixteen_bytes() {
    assert!(matches!(AeadKey::new(vec![0u8; 15]), Err(DosrError::KeyLength)));
    assert!(matches!(AeadKey::new(vec![0u8; 17]), Err(DosrError::KeyLength)));
    assert!(AeadKey::new(vec![0u8; 16]).is_ok());
}

#[test]
fn spectra_must_match_their_transform_length() {
    assert!(matches!(
        FrameSpectrum::new(vec![0u64; 10], 4800),
        Err(DosrError::SpectrumShape)
    ));
    assert!(matches!(
        FrameSpectrum::new(vec![], 0),
        Err(DosrError::SpectrumShape)
    ));
    assert!(FrameSpectrum::new(vec![0u64; 2400], 4800).is_ok());
}

#[test]
fn out_of_band_peak_is_an_invalid_symbol() {
    let modem = reference_modem();
    // A lone peak far below the base frequency: bin 50 of a 4800-point
    // transform at 48000 Hz is 500 Hz.
    let mut mags = vec![0u64; 2400];
    mags[50] = 1000;
    let spectrum = FrameSpectrum::new(mags, 4800).unwrap();
    match modem.decode(&vec![spectrum], &None) {
        Err(DosrError::InvalidSymbol { frame, freq_mhz }) => {
            assert_eq!(frame, 0);
            assert_eq!(freq_mhz, 500000);
        }
        other => panic!("expected an invalid symbol, got {:?}", other),
    }
}

#[test]
fn too_many_peaks_are_rejected() {
    let modem = reference_modem();
    // Seven clean peaks on a six-chunk modem.
    let mut mags = vec![0u64; 2400];
    for i in 0..7usize {
        mags[200 + 20 * i] = 1000;
    }
    let spectrum = FrameSpectrum::new(mags, 4800).unwrap();
    match modem.decode(&vec![spectrum], &None) {
        Err(DosrError::TooManyPeaks { frame, count }) => {
            assert_eq!(frame, 0);
            assert_eq!(count, 7);
        }
        other => panic!("expected too many peaks, got {:?}", other),
    }
}

#[test]
fn short_payload_is_missing_its_nonce() {
    let modem = reference_modem();
    // One byte of payload can never hold a 12-byte nonce.
    let mut mags = vec![0u64; 2400];
    mags[206] = 1000;
    mags[267] = 990;
    let spectrum = FrameSpectrum::new(mags, 4800).unwrap();
    let key = AeadKey::new(vec![0u8; 16]).unwrap();
    assert_eq!(
        modem.decode(&vec![spectrum], &Some(key)),
        Err(DosrError::MissingNonce)
    );
}

#[test]
fn detector_skips_boundary_bins() {
    let modem = reference_modem();
    // Energy in the first and last bins alone is never a peak.
    let mut mags = vec![0u64; 2400];
    mags[0] = 1000;
    mags[2399] = 1000;
    let spectrum = FrameSpectrum::new(mags, 4800).unwrap();
    assert_eq!(modem.decode(&vec![spectrum], &None).unwrap(), vec![]);
}

#[test]
fn weak_bins_stay_below_the_threshold() {
    let modem = reference_modem();
    // A second maximum at two fifths of the strongest bin is not a peak;
    // just above it, it is.
    let mut mags = vec![0u64; 2400];
    mags[206] = 1000;
    mags[267] = 400;
    let spectrum = FrameSpectrum::new(mags, 4800).unwrap();
    // Only one peak survives; a lone symbol cannot complete a byte.
    assert_eq!(modem.decode(&vec![spectrum], &None).unwrap(), Vec::<u8>::new());

    let mut mags = vec![0u64; 2400];
    mags[206] = 1000;
    mags[267] = 401;
    let spectrum = FrameSpectrum::new(mags, 4800).unwrap();
    let decoded = modem.decode(&vec![spectrum], &None).unwrap();
    assert_eq!(modem.bytes_to_chunks(&decoded), vec![4, 1]);
}

#[test]
fn encode_decode_preserve_byte_order() {
    let modem = reference_modem();
    let data: Vec<u8> = (0u8..48).collect();
    let plan = modem.encode_data(&data, &None);
    // Symbol k of each frame stays in chunk k: frequencies within a frame
    // are strictly increasing.
    for row in &plan {
        for k in 1..row.len() {
            assert!(row[k] > row[k - 1]);
        }
    }
}

#[test]
fn builder_revalidates_the_configuration() {
    // Pushing the spacing up makes the sixth chunk's band cross Nyquist.
    assert!(matches!(
        reference_modem().with_delta_freq(300000),
        Err(DosrError::InvalidConfig)
    ));
    assert!(matches!(
        reference_modem().with_duration_s(0),
        Err(DosrError::InvalidConfig)
    ));
    assert!(reference_modem().with_sample_rate(44100).is_ok());
}

#[test]
fn mfsk_refuses_invalid_widths() {
    assert!(matches!(
        dosr::mfsk::MfskConfig::new(5, 6, 100, 48000),
        Err(DosrError::InvalidConfig)
    ));
    assert!(dosr::mfsk::MfskConfig::new(1, 6, 100, 48000).is_ok());
}
