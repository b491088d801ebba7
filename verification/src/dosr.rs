//! The modem: an immutable configuration, the disjoint-band frequency plan,
//! the bit packer entry points, and the encode / decode facade.
//!
//! All frequencies are integer millihertz, durations integer milliseconds;
//! the signal a configuration plans for a payload is a sequence of frames,
//! each a list of tone frequencies.  Synthesizing sine waves from a plan and
//! computing a magnitude spectrum from samples are the caller's audio
//! collaborators; decoding starts from those spectra.

use vstd::arithmetic::div_mod::{lemma_div_non_zero, lemma_fundamental_div_mod_converse};
use vstd::prelude::*;

use crate::aead::{aead_ct, aead_decrypt, aead_encrypt, aead_pt, generate_nonce, AeadKey};
use crate::bits::{sym_count, width_ok};
use crate::errors::DosrError;

verus! {

/// The reference base frequency: symbol value 0 of chunk 0, in millihertz.
pub const F0_MHZ: u64 = 1875000;

/// The reference spacing between adjacent symbol frequencies, in millihertz.
pub const DF_MHZ: u64 = 46875;

/// The mathematical image of a modem configuration.
pub ghost struct ModemParams {
    /// Frequency of symbol 0 in chunk 0, millihertz.
    pub base_mhz: int,
    /// Spacing between adjacent symbol frequencies, millihertz.
    pub delta_mhz: int,
    /// Bits carried by one symbol.
    pub bits: int,
    /// Distinct values a symbol can take: 2^bits.
    pub values: int,
    /// Symbols carried simultaneously by one frame.
    pub chunks: int,
    /// Sample rate, hertz.
    pub rate_hz: int,
    /// Duration of one frame, milliseconds.
    pub dur_ms: int,
    /// Samples in one frame: rate * duration, floored.
    pub spf: int,
}

/// When a configuration is accepted: the symbol width divides a byte, every
/// parameter is positive, the highest tone stays strictly below the Nyquist
/// frequency, and a frame holds at least one sample and fits the machine.
pub open spec fn config_ok(
    base_mhz: int,
    delta_mhz: int,
    bits: int,
    chunks: int,
    dur_ms: int,
    rate_hz: int,
) -> bool {
    &&& width_ok(bits)
    &&& 1 <= chunks
    &&& 1 <= base_mhz
    &&& 1 <= delta_mhz
    &&& 1 <= rate_hz
    &&& 1 <= dur_ms
    &&& 2 * (base_mhz + (sym_count(bits) * chunks - 1) * delta_mhz) < 1000 * rate_hz
    &&& 1 <= (rate_hz * dur_ms) / 1000 <= usize::MAX
}

impl ModemParams {
    /// A well-formed configuration: accepted, with its derived fields
    /// consistent.
    pub open spec fn wf(self) -> bool {
        &&& config_ok(self.base_mhz, self.delta_mhz, self.bits, self.chunks, self.dur_ms, self.rate_hz)
        &&& self.values == sym_count(self.bits)
        &&& self.rate_hz <= u32::MAX
        &&& self.spf == (self.rate_hz * self.dur_ms) / 1000
    }
}

/// The modem.  Immutable once built; every operation is a pure function of
/// this configuration and its inputs.
pub struct Dosr {
    base_freq_mhz: u64,
    delta_freq_mhz: u64,
    bits_per_chunk: usize,
    values_per_chunk: usize,
    chunks_per_frame: usize,
    sample_rate_hz: u32,
    duration_ms: u64,
    samples_per_frame: usize,
}

impl View for Dosr {
    type V = ModemParams;

    closed spec fn view(&self) -> ModemParams {
        ModemParams {
            base_mhz: self.base_freq_mhz as int,
            delta_mhz: self.delta_freq_mhz as int,
            bits: self.bits_per_chunk as int,
            values: self.values_per_chunk as int,
            chunks: self.chunks_per_frame as int,
            rate_hz: self.sample_rate_hz as int,
            dur_ms: self.duration_ms as int,
            spf: self.samples_per_frame as int,
        }
    }
}

/// The tone frequency of symbol value `v` in chunk `c`, in millihertz.
pub open spec fn spec_freq(p: ModemParams, v: int, c: int) -> int
    recommends
        p.wf(),
        0 <= v < p.values,
        0 <= c < p.chunks,
{
    p.base_mhz + (v + p.values * c) * p.delta_mhz
}

/// Bounds a well-formed configuration puts on its tone indices and
/// frequencies.
pub proof fn lemma_wf_bounds(p: ModemParams)
    requires
        p.wf(),
    ensures
        2 <= p.values * p.chunks,
        p.values * p.chunks <= 0x200_0000_0000,
        500 * p.rate_hz < 0x200_0000_0000,
        p.base_mhz + (p.values * p.chunks - 1) * p.delta_mhz < 500 * p.rate_hz,
{
    assert(p.values >= 2);
    assert(2 <= p.values * p.chunks) by (nonlinear_arith)
        requires
            p.values >= 2,
            p.chunks >= 1,
    ;
    assert(p.values * p.chunks - 1 <= (p.values * p.chunks - 1) * p.delta_mhz)
        by (nonlinear_arith)
        requires
            p.values * p.chunks >= 1,
            p.delta_mhz >= 1,
    ;
    assert(2 * (p.base_mhz + (p.values * p.chunks - 1) * p.delta_mhz) < 1000 * p.rate_hz);
    assert(500 * p.rate_hz <= 2147483647500);
}

/// The tone index `v + values * c` stays below `values * chunks`, and its
/// frequency below half the sample rate.
pub proof fn lemma_k_freq_bound(p: ModemParams, v: int, c: int)
    requires
        p.wf(),
        0 <= v < p.values,
        0 <= c < p.chunks,
    ensures
        0 <= v + p.values * c <= p.values * p.chunks - 1,
        0 <= spec_freq(p, v, c) < 500 * p.rate_hz,
{
    lemma_wf_bounds(p);
    assert(0 <= p.values * c && v + p.values * c <= p.values * p.chunks - 1) by (nonlinear_arith)
        requires
            0 <= v < p.values,
            0 <= c <= p.chunks - 1,
    ;
    assert((v + p.values * c) * p.delta_mhz <= (p.values * p.chunks - 1) * p.delta_mhz)
        by (nonlinear_arith)
        requires
            v + p.values * c <= p.values * p.chunks - 1,
            p.delta_mhz >= 0,
    ;
    assert(0 <= (v + p.values * c) * p.delta_mhz) by (nonlinear_arith)
        requires
            0 <= v + p.values * c,
            0 <= p.delta_mhz,
    ;
}

impl Dosr {
    /// Builds a modem from explicit parameters, refusing any configuration
    /// that `config_ok` rejects.
    pub fn new(
        base_freq_mhz: u64,
        delta_freq_mhz: u64,
        bits_per_chunk: usize,
        chunks_per_frame: usize,
        duration_ms: u64,
        sample_rate_hz: u32,
    ) -> (r: Result<Dosr, DosrError>)
        ensures
            r is Ok <==> config_ok(
                base_freq_mhz as int,
                delta_freq_mhz as int,
                bits_per_chunk as int,
                chunks_per_frame as int,
                duration_ms as int,
                sample_rate_hz as int,
            ),
            r matches Ok(d) ==> d@ == (ModemParams {
                base_mhz: base_freq_mhz as int,
                delta_mhz: delta_freq_mhz as int,
                bits: bits_per_chunk as int,
                values: sym_count(bits_per_chunk as int),
                chunks: chunks_per_frame as int,
                rate_hz: sample_rate_hz as int,
                dur_ms: duration_ms as int,
                spf: (sample_rate_hz as int * duration_ms as int) / 1000,
            }) && d@.wf(),
            r matches Err(e) ==> e == DosrError::InvalidConfig,
    {
        let values_per_chunk: usize = match bits_per_chunk {
            1 => 2,
            2 => 4,
            4 => 16,
            8 => 256,
            _ => { return Err(DosrError::InvalidConfig) },
        };
        if chunks_per_frame == 0 || base_freq_mhz == 0 || delta_freq_mhz == 0 || sample_rate_hz
            == 0 || duration_ms == 0 {
            return Err(DosrError::InvalidConfig);
        }
        proof {
            assert(values_per_chunk as int == sym_count(bits_per_chunk as int));
            assert((values_per_chunk as int) * (chunks_per_frame as int) <= 256 * (
            usize::MAX as int)) by (nonlinear_arith)
                requires
                    values_per_chunk as int <= 256,
                    chunks_per_frame as int <= usize::MAX as int,
            ;
            assert((values_per_chunk as int) * (chunks_per_frame as int) >= 2) by (nonlinear_arith)
                requires
                    values_per_chunk as int >= 2,
                    chunks_per_frame as int >= 1,
            ;
        }
        let lc: u128 = (values_per_chunk as u128) * (chunks_per_frame as u128);
        if lc > 0x200_0000_0000u128 {
            proof {
                assert((values_per_chunk as int) * (chunks_per_frame as int) - 1 <= ((
                values_per_chunk as int) * (chunks_per_frame as int) - 1) * (delta_freq_mhz as int))
                    by (nonlinear_arith)
                    requires
                        (values_per_chunk as int) * (chunks_per_frame as int) >= 1,
                        delta_freq_mhz as int >= 1,
                ;
                assert(1000 * (sample_rate_hz as int) <= 4294967295000);
            }
            return Err(DosrError::InvalidConfig);
        }
        proof {
            assert(0 <= (lc as int - 1) * (delta_freq_mhz as int) <= 0x200_0000_0000
                * 0xffff_ffff_ffff_ffff) by (nonlinear_arith)
                requires
                    0 <= lc as int - 1 <= 0x200_0000_0000,
                    0 <= delta_freq_mhz as int <= 0xffff_ffff_ffff_ffff,
            ;
        }
        let top: u128 = 2 * ((base_freq_mhz as u128) + (lc - 1) * (delta_freq_mhz as u128));
        if top >= 1000 * (sample_rate_hz as u128) {
            return Err(DosrError::InvalidConfig);
        }
        proof {
            assert((sample_rate_hz as int) * (duration_ms as int) <= 0xffff_ffff
                * 0xffff_ffff_ffff_ffff) by (nonlinear_arith)
                requires
                    0 <= sample_rate_hz as int <= 0xffff_ffff,
                    0 <= duration_ms as int <= 0xffff_ffff_ffff_ffff,
            ;
        }
        let spf128: u128 = (sample_rate_hz as u128) * (duration_ms as u128) / 1000;
        if spf128 < 1 || spf128 > (usize::MAX as u128) {
            return Err(DosrError::InvalidConfig);
        }
        Ok(Dosr {
            base_freq_mhz,
            delta_freq_mhz,
            bits_per_chunk,
            values_per_chunk,
            chunks_per_frame,
            sample_rate_hz,
            duration_ms,
            samples_per_frame: spf128 as usize,
        })
    }

    /// Replaces the base frequency and revalidates the configuration.
    pub fn with_base_freq(self, base_freq_mhz: u64) -> (r: Result<Dosr, DosrError>)
        requires
            self@.wf(),
        ensures
            r is Ok <==> config_ok(
                base_freq_mhz as int,
                self@.delta_mhz,
                self@.bits,
                self@.chunks,
                self@.dur_ms,
                self@.rate_hz,
            ),
            r matches Ok(d) ==> d@ == (ModemParams { base_mhz: base_freq_mhz as int, ..self@ })
                && d@.wf(),
            r matches Err(e) ==> e == DosrError::InvalidConfig,
    {
        Dosr::new(
            base_freq_mhz,
            self.delta_freq_mhz,
            self.bits_per_chunk,
            self.chunks_per_frame,
            self.duration_ms,
            self.sample_rate_hz,
        )
    }

    /// Replaces the frequency spacing and revalidates the configuration.
    pub fn with_delta_freq(self, delta_freq_mhz: u64) -> (r: Result<Dosr, DosrError>)
        requires
            self@.wf(),
        ensures
            r is Ok <==> config_ok(
                self@.base_mhz,
                delta_freq_mhz as int,
                self@.bits,
                self@.chunks,
                self@.dur_ms,
                self@.rate_hz,
            ),
            r matches Ok(d) ==> d@ == (ModemParams { delta_mhz: delta_freq_mhz as int, ..self@ })
                && d@.wf(),
            r matches Err(e) ==> e == DosrError::InvalidConfig,
    {
        Dosr::new(
            self.base_freq_mhz,
            delta_freq_mhz,
            self.bits_per_chunk,
            self.chunks_per_frame,
            self.duration_ms,
            self.sample_rate_hz,
        )
    }

    /// Replaces the frame duration and revalidates the configuration.
    pub fn with_duration_s(self, duration_ms: u64) -> (r: Result<Dosr, DosrError>)
        requires
            self@.wf(),
        ensures
            r is Ok <==> config_ok(
                self@.base_mhz,
                self@.delta_mhz,
                self@.bits,
                self@.chunks,
                duration_ms as int,
                self@.rate_hz,
            ),
            r matches Ok(d) ==> d@ == (ModemParams {
                dur_ms: duration_ms as int,
                spf: (self@.rate_hz * duration_ms as int) / 1000,
                ..self@
            }) && d@.wf(),
            r matches Err(e) ==> e == DosrError::InvalidConfig,
    {
        Dosr::new(
            self.base_freq_mhz,
            self.delta_freq_mhz,
            self.bits_per_chunk,
            self.chunks_per_frame,
            duration_ms,
            self.sample_rate_hz,
        )
    }

    /// Replaces the sample rate and revalidates the configuration.
    pub fn with_sample_rate(self, sample_rate_hz: u32) -> (r: Result<Dosr, DosrError>)
        requires
            self@.wf(),
        ensures
            r is Ok <==> config_ok(
                self@.base_mhz,
                self@.delta_mhz,
                self@.bits,
                self@.chunks,
                self@.dur_ms,
                sample_rate_hz as int,
            ),
            r matches Ok(d) ==> d@ == (ModemParams {
                rate_hz: sample_rate_hz as int,
                spf: (sample_rate_hz as int * self@.dur_ms) / 1000,
                ..self@
            }) && d@.wf(),
            r matches Err(e) ==> e == DosrError::InvalidConfig,
    {
        Dosr::new(
            self.base_freq_mhz,
            self.delta_freq_mhz,
            self.bits_per_chunk,
            self.chunks_per_frame,
            self.duration_ms,
            sample_rate_hz,
        )
    }

    /// The configured sample rate, in hertz.
    pub fn sample_rate(&self) -> (r: u32)
        ensures
            r as int == self@.rate_hz,
    {
        self.sample_rate_hz
    }

    /// How many samples one frame of audio holds.
    pub fn samples_per_frame(&self) -> (r: usize)
        ensures
            r as int == self@.spf,
    {
        self.samples_per_frame
    }

    /// The tone frequency, in millihertz, that carries symbol value `data`
    /// in chunk `chunk_index`.
    pub fn calculate_frequency(&self, data: u8, chunk_index: usize) -> (f: u64)
        requires
            self@.wf(),
            (data as int) < self@.values,
            (chunk_index as int) < self@.chunks,
        ensures
            f as int == spec_freq(self@, data as int, chunk_index as int),
            0 < (f as int) < 500 * self@.rate_hz,
    {
        proof {
            lemma_wf_bounds(self@);
            lemma_k_freq_bound(self@, data as int, chunk_index as int);
            assert(0 <= self@.values * (chunk_index as int) <= self@.values * self@.chunks)
                by (nonlinear_arith)
                requires
                    self@.values >= 1,
                    0 <= (chunk_index as int) <= self@.chunks,
            ;
        }
        let k: u64 = (data as u64) + (self.values_per_chunk as u64) * (chunk_index as u64);
        self.base_freq_mhz + k * self.delta_freq_mhz
    }
}

impl Default for Dosr {
    /// The reference configuration: 4-bit symbols, 6 chunks per frame,
    /// 100 ms frames at 44100 Hz, tones from 1875 Hz in steps of 46.875 Hz.
    fn default() -> (d: Self)
        ensures
            d@ == (ModemParams {
                base_mhz: 1875000,
                delta_mhz: 46875,
                bits: 4,
                values: 16,
                chunks: 6,
                rate_hz: 44100,
                dur_ms: 100,
                spf: 4410,
            }),
            d@.wf(),
    {
        proof {
            assert(sym_count(4) == 16);
            assert((16 * 6 - 1) * 46875 == 4453125);
            assert(2 * (1875000 + 4453125) < 1000 * 44100);
            assert((44100 * 100) / 1000 == 4410);
        }
        Dosr {
            base_freq_mhz: F0_MHZ,
            delta_freq_mhz: DF_MHZ,
            bits_per_chunk: 4,
            values_per_chunk: 16,
            chunks_per_frame: 6,
            sample_rate_hz: 44100,
            duration_ms: 100,
            samples_per_frame: 4410,
        }
    }
}

/// The index `round((f - base) / delta)` of the symbol frequency nearest to
/// `f`, rounding halves away from zero.
pub open spec fn spec_round_index(p: ModemParams, f: int) -> int
    recommends
        p.wf(),
{
    if f >= p.base_mhz {
        (2 * (f - p.base_mhz) + p.delta_mhz) / (2 * p.delta_mhz)
    } else {
        -((2 * (p.base_mhz - f) + p.delta_mhz) / (2 * p.delta_mhz))
    }
}

/// The symbol value that frequency `f` carries in chunk `c`, or nothing
/// when `f` rounds outside the chunk's band.
pub open spec fn spec_decode_freq(p: ModemParams, f: int, c: int) -> Option<u8>
    recommends
        p.wf(),
        0 <= c < p.chunks,
{
    let v = spec_round_index(p, f) - p.values * c;
    if 0 <= v < p.values {
        Some(v as u8)
    } else {
        None
    }
}

impl Dosr {
    /// The inverse frequency plan: which symbol value, if any, frequency
    /// `freq_mhz` carries in chunk `chunk_index`.
    #[verifier::rlimit(60)]
    pub fn decode_frequency(&self, freq_mhz: u64, chunk_index: usize) -> (r: Option<u8>)
        requires
            self@.wf(),
            (chunk_index as int) < self@.chunks,
        ensures
            r == spec_decode_freq(self@, freq_mhz as int, chunk_index as int),
    {
        proof {
            lemma_wf_bounds(self@);
        }
        let base = self.base_freq_mhz;
        let delta = self.delta_freq_mhz;
        if freq_mhz >= base {
            let d = freq_mhz - base;
            let num: u128 = 2 * (d as u128) + (delta as u128);
            let den: u128 = 2 * (delta as u128);
            let k128: u128 = num / den;
            assert(k128 as int == spec_round_index(self@, freq_mhz as int));
            proof {
                assert(self@.values <= 256);
                assert((self.values_per_chunk as int) * (self.chunks_per_frame as int) <= 256 * (
                usize::MAX as int)) by (nonlinear_arith)
                    requires
                        self.values_per_chunk as int <= 256,
                        self.chunks_per_frame as int <= usize::MAX as int,
                ;
            }
            let lc: u128 = (self.values_per_chunk as u128) * (self.chunks_per_frame as u128);
            if k128 >= lc {
                proof {
                    let kk = spec_round_index(self@, freq_mhz as int);
                    assert(kk - self@.values * (chunk_index as int) >= self@.values)
                        by (nonlinear_arith)
                        requires
                            kk >= self@.values * self@.chunks,
                            (chunk_index as int) <= self@.chunks - 1,
                            self@.values >= 1,
                    ;
                }
                assert(spec_decode_freq(self@, freq_mhz as int, chunk_index as int) is None);
                None
            } else {
                let k: u64 = k128 as u64;
                proof {
                    assert(0 <= self@.values * (chunk_index as int) <= self@.values * self@.chunks)
                        by (nonlinear_arith)
                        requires
                            self@.values >= 1,
                            0 <= (chunk_index as int) <= self@.chunks,
                    ;
                }
                let lo: u64 = (self.values_per_chunk as u64) * (chunk_index as u64);
                if k < lo {
                    assert(spec_decode_freq(self@, freq_mhz as int, chunk_index as int) is None);
                    None
                } else {
                    let v = k - lo;
                    if v < self.values_per_chunk as u64 {
                        assert(spec_decode_freq(self@, freq_mhz as int, chunk_index as int)
                            == Some(v as u8));
                        Some(v as u8)
                    } else {
                        assert(spec_decode_freq(self@, freq_mhz as int, chunk_index as int)
                            is None);
                        None
                    }
                }
            }
        } else {
            let dd = base - freq_mhz;
            let num: u128 = 2 * (dd as u128) + (delta as u128);
            let den: u128 = 2 * (delta as u128);
            if chunk_index == 0 && num < den {
                proof {
                    assert(0 * (den as int) == 0) by (nonlinear_arith);
                    lemma_fundamental_div_mod_converse(num as int, den as int, 0, num as int);
                    assert(spec_round_index(self@, freq_mhz as int) == 0);
                    assert(self@.values * (chunk_index as int) == 0) by (nonlinear_arith)
                        requires
                            chunk_index as int == 0,
                    ;
                }
                assert(spec_decode_freq(self@, freq_mhz as int, chunk_index as int) == Some(0u8));
                Some(0)
            } else {
                proof {
                    let kk = spec_round_index(self@, freq_mhz as int);
                    if num >= den {
                        lemma_div_non_zero(num as int, den as int);
                        assert(kk <= -1);
                    } else {
                        assert(0 * (den as int) == 0) by (nonlinear_arith);
                        lemma_fundamental_div_mod_converse(num as int, den as int, 0, num as int);
                        assert(kk == 0);
                    }
                    assert(self@.values * (chunk_index as int) >= 0) by (nonlinear_arith)
                        requires
                            self@.values >= 0 && chunk_index >= 0,
                    ;
                    if chunk_index > 0 {
                        assert(self@.values * (chunk_index as int) >= self@.values)
                            by (nonlinear_arith)
                            requires
                                self@.values >= 0 && (chunk_index as int) >= 1,
                        ;
                    }
                }
                assert(spec_decode_freq(self@, freq_mhz as int, chunk_index as int) is None);
                None
            }
        }
    }
}

/// The frequency plan is a bijection: decoding the exact tone of symbol
/// `v` in chunk `c` yields `v` again, for every symbol and chunk.
pub proof fn lemma_freq_plan_bijection(p: ModemParams, v: int, c: int)
    requires
        p.wf(),
        0 <= v < p.values,
        0 <= c < p.chunks,
    ensures
        spec_decode_freq(p, spec_freq(p, v, c), c) == Some(v as u8),
{
    lemma_decode_freq_tolerance(p, v, c, spec_freq(p, v, c));
}

/// Nearest-step rounding tolerates jitter: any frequency within half a
/// step of a planned tone decodes to that tone's symbol.
pub proof fn lemma_decode_freq_tolerance(p: ModemParams, v: int, c: int, f: int)
    requires
        p.wf(),
        0 <= v < p.values,
        0 <= c < p.chunks,
        2 * (f - spec_freq(p, v, c)) < p.delta_mhz,
        2 * (spec_freq(p, v, c) - f) < p.delta_mhz,
    ensures
        spec_decode_freq(p, f, c) == Some(v as u8),
{
    lemma_k_freq_bound(p, v, c);
    let m = v + p.values * c;
    let t = spec_freq(p, v, c);
    let delta = p.delta_mhz;
    assert(t - p.base_mhz == m * delta);
    if f >= t {
        let e = f - t;
        assert(m * delta >= 0) by (nonlinear_arith)
            requires
                m >= 0 && delta >= 0,
        ;
        assert(2 * (f - p.base_mhz) + delta == m * (2 * delta) + (2 * e + delta))
            by (nonlinear_arith)
            requires
                f - p.base_mhz == m * delta + e,
        ;
        lemma_fundamental_div_mod_converse(
            2 * (f - p.base_mhz) + delta,
            2 * delta,
            m,
            2 * e + delta,
        );
        assert(spec_round_index(p, f) == m);
    } else {
        let e = t - f;
        if m == 0 {
            assert(p.values * c == 0 && v == 0 && m * delta == 0) by (nonlinear_arith)
                requires
                    m == 0 && m == v + p.values * c && v >= 0 && p.values * c >= 0,
            ;
            assert(c == 0) by (nonlinear_arith)
                requires
                    p.values * c == 0 && p.values >= 2 && c >= 0,
            ;
            assert(t == p.base_mhz);
            assert(f < p.base_mhz);
            assert(0 * (2 * delta) == 0) by (nonlinear_arith);
            lemma_fundamental_div_mod_converse(
                2 * (p.base_mhz - f) + delta,
                2 * delta,
                0,
                2 * (p.base_mhz - f) + delta,
            );
            assert(spec_round_index(p, f) == 0);
        } else {
            assert(m * delta >= delta) by (nonlinear_arith)
                requires
                    m >= 1 && delta >= 1,
            ;
            assert(f >= p.base_mhz);
            assert(2 * (f - p.base_mhz) + delta == m * (2 * delta) + (delta - 2 * e))
                by (nonlinear_arith)
                requires
                    f - p.base_mhz == m * delta - e,
            ;
            lemma_fundamental_div_mod_converse(
                2 * (f - p.base_mhz) + delta,
                2 * delta,
                m,
                delta - 2 * e,
            );
            assert(spec_round_index(p, f) == m);
        }
    }
}

/// Whether frequency `f` lies in the band that chunk `c` occupies.
pub open spec fn in_band(p: ModemParams, c: int, f: int) -> bool {
    p.base_mhz + c * p.values * p.delta_mhz <= f < p.base_mhz + (c + 1) * p.values * p.delta_mhz
}

/// Every planned tone of chunk `c` lies inside chunk `c`'s band.
pub proof fn lemma_freq_in_band(p: ModemParams, v: int, c: int)
    requires
        p.wf(),
        0 <= v < p.values,
        0 <= c < p.chunks,
    ensures
        in_band(p, c, spec_freq(p, v, c)),
{
    assert(c * p.values * p.delta_mhz <= (v + p.values * c) * p.delta_mhz && (v + p.values * c)
        * p.delta_mhz < (c + 1) * p.values * p.delta_mhz) by (nonlinear_arith)
        requires
            0 <= v < p.values && 0 <= c && p.delta_mhz >= 1,
    ;
}

/// Distinct chunks occupy disjoint frequency bands: no frequency lies in
/// the bands of two different chunks.
pub proof fn lemma_bands_disjoint(p: ModemParams, c1: int, c2: int, f: int)
    requires
        p.wf(),
        0 <= c1,
        0 <= c2,
        c1 != c2,
    ensures
        !(in_band(p, c1, f) && in_band(p, c2, f)),
{
    if in_band(p, c1, f) && in_band(p, c2, f) {
        if c1 < c2 {
            assert((c1 + 1) * p.values * p.delta_mhz <= c2 * p.values * p.delta_mhz)
                by (nonlinear_arith)
                requires
                    c1 + 1 <= c2 && p.values >= 0 && p.delta_mhz >= 0,
            ;
        } else {
            assert((c2 + 1) * p.values * p.delta_mhz <= c1 * p.values * p.delta_mhz)
                by (nonlinear_arith)
                requires
                    c2 + 1 <= c1 && p.values >= 0 && p.delta_mhz >= 0,
            ;
        }
    }
}

/// The tone frequencies, in millihertz, of one frame of symbols.
pub open spec fn spec_row(p: ModemParams, fr: Seq<u8>) -> Seq<u64> {
    Seq::new(fr.len(), |k: int| spec_freq(p, fr[k] as int, k) as u64)
}

/// The full signal plan for a payload: one row of tone frequencies per
/// frame.
pub open spec fn spec_plan(p: ModemParams, payload: Seq<u8>) -> Seq<Seq<u64>> {
    let frames = crate::framing::spec_frames(
        crate::bits::spec_bytes_to_syms(payload, p.bits),
        p.chunks,
    );
    Seq::new(frames.len(), |f: int| spec_row(p, frames[f]))
}

/// Whether an executable plan equals a mathematical plan, frame by frame.
pub open spec fn plan_matches(v: Seq<Vec<u64>>, s: Seq<Seq<u64>>) -> bool {
    v.len() == s.len() && forall|f: int| 0 <= f < v.len() ==> (#[trigger] v[f])@ == s[f]
}

impl Dosr {
    /// Cuts a byte payload into symbols of `bits_per_chunk` bits each, most
    /// significant bits first.
    #[verifier::loop_isolation(false)]
    pub fn bytes_to_chunks(&self, data: &Vec<u8>) -> (out: Vec<u8>)
        requires
            self@.wf(),
            8 * data@.len() <= usize::MAX,
        ensures
            out@ == crate::bits::spec_bytes_to_syms(data@, self@.bits),
            out@.len() == data@.len() * crate::bits::syms_per_byte(self@.bits),
            forall|i: int| 0 <= i < out@.len() ==> (#[trigger] out@[i]) < self@.values,
    {
        proof {
            crate::bits::lemma_width_product(self@.bits);
            crate::bits::lemma_bytes_to_syms_len(data@, self@.bits);
            crate::bits::lemma_bytes_to_syms_bounded(data@, self@.bits);
        }
        let b = self.bits_per_chunk;
        let g = 8 / b;
        let mask: u8 = 0xffu8 >> ((8 - b) as u8);
        assert(mask == crate::bits::low_mask(self@.bits));
        let mut out: Vec<u8> = Vec::new();
        let mut i: usize = 0;
        while i < data.len()
            invariant
                i <= data@.len(),
                out@ == crate::bits::spec_bytes_to_syms(data@.take(i as int), self@.bits),
            decreases data@.len() - i,
        {
            let x = data[i];
            proof {
                crate::bits::lemma_bytes_to_syms_len(data@.take(i as int), self@.bits);
            }
            let mut j: usize = 0;
            while j < g
                invariant
                    j <= g,
                    i < data@.len(),
                    x == data@[i as int],
                    out@ == crate::bits::spec_bytes_to_syms(data@.take(i as int), self@.bits)
                        + crate::bits::byte_syms(x, self@.bits).take(j as int),
                decreases g - j,
            {
                proof {
                    assert((b as int) * (j + 1) <= (b as int) * (g as int)) by (nonlinear_arith)
                        requires
                            j + 1 <= g,
                            b >= 0,
                    ;
                }
                let sh: usize = 8 - b * (j + 1);
                out.push((x >> (sh as u8)) & mask);
                proof {
                    let bs = crate::bits::byte_syms(x, self@.bits);
                    assert(bs[j as int] == crate::bits::sym_of_byte(x, self@.bits, j as int));
                    assert(bs.take(j as int).push(bs[j as int]) =~= bs.take(j + 1));
                    assert(out@ =~= crate::bits::spec_bytes_to_syms(data@.take(i as int), self@.bits)
                        + bs.take(j + 1));
                }
                j += 1;
            }
            proof {
                crate::bits::lemma_bytes_to_syms_snoc(data@, self@.bits, i as int);
                let bs = crate::bits::byte_syms(x, self@.bits);
                assert(bs.take(g as int) =~= bs);
            }
            i += 1;
        }
        proof {
            assert(data@.take(data@.len() as int) =~= data@);
        }
        out
    }

    /// Folds complete groups of symbols back into bytes, discarding a
    /// trailing incomplete group.
    #[verifier::loop_isolation(false)]
    pub fn symbols_to_bytes(&self, syms: &Vec<u8>) -> (out: Vec<u8>)
        requires
            self@.wf(),
        ensures
            out@ == crate::bits::spec_syms_to_bytes(syms@, self@.bits),
    {
        proof {
            crate::bits::lemma_width_product(self@.bits);
        }
        let b = self.bits_per_chunk;
        let g = 8 / b;
        let n = syms.len() / g;
        proof {
            vstd::arithmetic::div_mod::lemma_fundamental_div_mod(syms@.len() as int, g as int);
            vstd::arithmetic::div_mod::lemma_mod_pos_bound(syms@.len() as int, g as int);
            assert((n as int) * (g as int) == (g as int) * (n as int)) by (nonlinear_arith);
        }
        let mut out: Vec<u8> = Vec::new();
        let mut i: usize = 0;
        while i < n
            invariant
                i <= n,
                out@ == crate::bits::spec_syms_to_bytes(
                    syms@.take((i * g) as int),
                    self@.bits,
                ),
            decreases n - i,
        {
            proof {
                assert((i + 1) * (g as int) <= (n as int) * (g as int) && (i + 1) * (g as int) == i
                    * (g as int) + (g as int) && 0 <= i * (g as int)) by (nonlinear_arith)
                    requires
                        i + 1 <= n,
                        g >= 1,
                ;
            }
            let base_idx = i * g;
            let mut acc: u8 = syms[base_idx];
            proof {
                let piece = syms@.subrange(base_idx as int, base_idx as int + 1);
                assert(piece.drop_last() =~= Seq::<u8>::empty());
                assert(piece.last() == acc);
                assert(crate::bits::byte_of_group(Seq::<u8>::empty(), self@.bits) == 0);
                assert(self@.bits as u8 == b as u8);
                assert((0u8 << (b as u8)) | acc == acc) by (bit_vector);
                assert(crate::bits::byte_of_group(piece, self@.bits) == acc);
            }
            let mut j: usize = 1;
            while j < g
                invariant
                    1 <= j <= g,
                    i < n,
                    base_idx == i * g,
                    acc == crate::bits::byte_of_group(
                        syms@.subrange(base_idx as int, base_idx as int + j as int),
                        self@.bits,
                    ),
                decreases g - j,
            {
                proof {
                    assert((b as int) * 2 <= (b as int) * (g as int)) by (nonlinear_arith)
                        requires
                            2 <= g,
                            b >= 0,
                    ;
                }
                let s = syms[base_idx + j];
                acc = (acc << (b as u8)) | s;
                proof {
                    let longer = syms@.subrange(base_idx as int, base_idx as int + j + 1);
                    assert(longer.drop_last() =~= syms@.subrange(
                        base_idx as int,
                        base_idx as int + j as int,
                    ));
                    assert(longer.last() == syms@[base_idx as int + j as int]);
                }
                j += 1;
            }
            out.push(acc);
            proof {
                let u = syms@.take((i * g) as int);
                let v = syms@.subrange((i * g) as int, (i * g) as int + g as int);
                vstd::arithmetic::div_mod::lemma_mod_multiples_basic(i as int, g as int);
                crate::bits::lemma_syms_to_bytes_concat(u, v, self@.bits);
                assert(u + v =~= syms@.take((i * g) as int + g as int));
                assert(v.take(g as int) =~= v);
                assert(v.skip(g as int) =~= Seq::<u8>::empty());
                assert(crate::bits::spec_syms_to_bytes(Seq::<u8>::empty(), self@.bits)
                    =~= Seq::<u8>::empty());
                assert(crate::bits::spec_syms_to_bytes(v, self@.bits) =~= seq![
                    crate::bits::byte_of_group(v, self@.bits),
                ]);
                assert(out@ =~= crate::bits::spec_syms_to_bytes(u, self@.bits)
                    + crate::bits::spec_syms_to_bytes(v, self@.bits));
            }
            i += 1;
        }
        proof {
            let u = syms@.take((n * g) as int);
            let v = syms@.skip((n * g) as int);
            vstd::arithmetic::div_mod::lemma_mod_multiples_basic(n as int, g as int);
            crate::bits::lemma_syms_to_bytes_concat(u, v, self@.bits);
            assert(u + v =~= syms@);
            assert(v.len() < g as int);
            assert(crate::bits::spec_syms_to_bytes(v, self@.bits) =~= Seq::<u8>::empty());
            assert(out@ =~= crate::bits::spec_syms_to_bytes(syms@, self@.bits));
        }
        out
    }

    /// Groups a symbol stream into frames of `chunks_per_frame` symbols;
    /// only the last frame may be shorter.
    #[verifier::loop_isolation(false)]
    pub fn chunks_to_frames(&self, chunks: &Vec<u8>) -> (frames: Vec<Vec<u8>>)
        requires
            self@.wf(),
        ensures
            frames@.len() == crate::framing::spec_frames(chunks@, self@.chunks).len(),
            forall|f: int|
                0 <= f < frames@.len() ==> (#[trigger] frames@[f])@ == crate::framing::spec_frames(
                    chunks@,
                    self@.chunks,
                )[f],
    {
        let n = self.chunks_per_frame;
        let mut frames: Vec<Vec<u8>> = Vec::new();
        let mut start: usize = 0;
        while start < chunks.len()
            invariant
                start <= chunks@.len(),
                (start as int) % self@.chunks == 0 || start as int == chunks@.len(),
                frames@.len() == crate::framing::spec_frames(
                    chunks@.take(start as int),
                    self@.chunks,
                ).len(),
                forall|f: int|
                    0 <= f < frames@.len() ==> (#[trigger] frames@[f])@
                        == crate::framing::spec_frames(chunks@.take(start as int), self@.chunks)[f],
            decreases chunks@.len() - start,
        {
            let end = if chunks.len() - start < n {
                chunks.len()
            } else {
                start + n
            };
            let mut row: Vec<u8> = Vec::new();
            let mut t = start;
            while t < end
                invariant
                    start <= t <= end,
                    end <= chunks@.len(),
                    row@ == chunks@.subrange(start as int, t as int),
                decreases end - t,
            {
                row.push(chunks[t]);
                proof {
                    assert(row@ =~= chunks@.subrange(start as int, t as int + 1));
                }
                t += 1;
            }
            frames.push(row);
            proof {
                let u = chunks@.take(start as int);
                let v = chunks@.subrange(start as int, end as int);
                crate::framing::lemma_frames_concat(u, v, self@.chunks);
                assert(u + v =~= chunks@.take(end as int));
                assert(1 <= v.len() <= self@.chunks);
                assert(crate::framing::spec_frames(v, self@.chunks) == seq![v]);
                assert(frames@.len() == crate::framing::spec_frames(
                    chunks@.take(end as int),
                    self@.chunks,
                ).len());
                assert forall|f: int| 0 <= f < frames@.len() implies (#[trigger] frames@[f])@
                    == crate::framing::spec_frames(chunks@.take(end as int), self@.chunks)[f] by {
                    if f < frames@.len() - 1 {
                        assert(frames@[f]@ == crate::framing::spec_frames(u, self@.chunks)[f]);
                    }
                }
                if end < chunks.len() {
                    vstd::arithmetic::div_mod::lemma_mod_add_multiples_vanish(
                        start as int,
                        self@.chunks,
                    );
                }
            }
            start = end;
        }
        proof {
            assert(chunks@.take(chunks@.len() as int) =~= chunks@);
        }
        frames
    }

    /// The tone row for one frame of symbols.
    #[verifier::loop_isolation(false)]
    fn frame_tones(&self, frame: &Vec<u8>) -> (row: Vec<u64>)
        requires
            self@.wf(),
            frame@.len() <= self@.chunks,
            forall|k: int| 0 <= k < frame@.len() ==> (#[trigger] frame@[k]) < self@.values,
        ensures
            row@ == spec_row(self@, frame@),
    {
        let mut row: Vec<u64> = Vec::new();
        let mut k: usize = 0;
        while k < frame.len()
            invariant
                k <= frame@.len(),
                row@.len() == k,
                forall|t: int| 0 <= t < k ==> (#[trigger] row@[t]) as int == spec_freq(
                    self@,
                    frame@[t] as int,
                    t,
                ),
            decreases frame@.len() - k,
        {
            let f = self.calculate_frequency(frame[k], k);
            row.push(f);
            k += 1;
        }
        proof {
            assert forall|t: int| 0 <= t < frame@.len() implies row@[t] == spec_row(
                self@,
                frame@,
            )[t] by {
                lemma_k_freq_bound(self@, frame@[t] as int, t);
            }
            assert(row@ =~= spec_row(self@, frame@));
        }
        row
    }

    /// Plans the signal of an already-wrapped payload: its symbols, framed,
    /// each frame mapped to its tone frequencies.
    #[verifier::loop_isolation(false)]
    fn encode_payload(&self, payload: &Vec<u8>) -> (plan: Vec<Vec<u64>>)
        requires
            self@.wf(),
            8 * payload@.len() <= usize::MAX,
        ensures
            plan_matches(plan@, spec_plan(self@, payload@)),
    {
        let syms = self.bytes_to_chunks(payload);
        let frames = self.chunks_to_frames(&syms);
        proof {
            crate::framing::lemma_frames_row_len(syms@, self@.chunks);
        }
        let mut plan: Vec<Vec<u64>> = Vec::new();
        let mut f: usize = 0;
        while f < frames.len()
            invariant
                f <= frames@.len(),
                plan@.len() == f,
                forall|t: int|
                    0 <= t < f ==> (#[trigger] plan@[t])@ == spec_plan(self@, payload@)[t],
            decreases frames@.len() - f,
        {
            proof {
                assert forall|k: int|
                    0 <= k < frames@[f as int]@.len() implies (#[trigger] frames@[f as int]@[k])
                    < self@.values by {
                    crate::framing::lemma_frames_index(syms@, self@.chunks, f as int, k);
                }
            }
            let row = self.frame_tones(&frames[f]);
            plan.push(row);
            f += 1;
        }
        plan
    }

    /// Plans the signal for a payload: under a cipher the payload is first
    /// wrapped as `nonce ‖ ciphertext`, with a fresh 12-byte nonce.
    pub fn encode_data(&self, data: &Vec<u8>, cipher: &Option<AeadKey>) -> (plan: Vec<Vec<u64>>)
        requires
            self@.wf(),
            8 * (data@.len() + 28) <= usize::MAX,
            cipher is Some ==> data@.len() <= 0x10_0000_0000,
            cipher matches Some(k) ==> k.wf(),
        ensures
            cipher is None ==> plan_matches(plan@, spec_plan(self@, data@)),
            cipher matches Some(k) ==> exists|n: Seq<u8>|
                {
                    &&& n.len() == 12
                    &&& #[trigger] aead_ct(k@, n, data@).len() == data@.len() + 16
                    &&& aead_pt(k@, n, aead_ct(k@, n, data@)) == Some(data@)
                    &&& plan_matches(plan@, spec_plan(self@, n + aead_ct(k@, n, data@)))
                },
    {
        match cipher {
            None => self.encode_payload(data),
            Some(key) => {
                let nonce = generate_nonce();
                let mut ct = aead_encrypt(key, &nonce, data);
                let ghost n = nonce@;
                let mut payload = nonce;
                payload.append(&mut ct);
                assert(payload@ == n + aead_ct(key@, n, data@));
                let plan = self.encode_payload(&payload);
                proof {
                    assert(aead_ct(key@, n, data@).len() == data@.len() + 16 && aead_pt(
                        key@,
                        n,
                        aead_ct(key@, n, data@),
                    ) == Some(data@) && plan_matches(
                        plan@,
                        spec_plan(self@, n + aead_ct(key@, n, data@)),
                    ));
                }
                plan
            },
        }
    }
}


/// The view of an optional cipher: its key bytes, if any.
pub open spec fn key_of(cipher: &Option<AeadKey>) -> Option<Seq<u8>> {
    match cipher {
        Option::None => Option::None,
        Option::Some(k) => Option::Some(k@),
    }
}

/// The views of a vector of frame spectra.
pub open spec fn spectra_views(s: Seq<crate::spectrum::FrameSpectrum>) -> Seq<
    crate::spectrum::SpectrumView,
> {
    Seq::new(s.len(), |i: int| s[i]@)
}

/// The symbols of one frame's detected frequencies, chunk indices counted
/// from `c0`; or the first detected frequency that decodes to no symbol,
/// as an error naming frame `fidx`.
pub open spec fn spec_frame_syms(p: ModemParams, freqs: Seq<int>, fidx: int, c0: int) -> Result<
    Seq<u8>,
    DosrError,
>
    decreases freqs.len(),
{
    if freqs.len() == 0 {
        Result::Ok(Seq::empty())
    } else {
        match spec_decode_freq(p, freqs[0], c0) {
            Option::None => Result::Err(
                DosrError::InvalidSymbol { frame: fidx as usize, freq_mhz: freqs[0] as u64 },
            ),
            Option::Some(v) => match spec_frame_syms(p, freqs.skip(1), fidx, c0 + 1) {
                Result::Ok(t) => Result::Ok(seq![v] + t),
                Result::Err(e) => Result::Err(e),
            },
        }
    }
}

/// What decoding one frame's spectrum yields: its symbols, or an error
/// naming frame `fidx`.
pub open spec fn spec_decode_frame(
    p: ModemParams,
    sv: crate::spectrum::SpectrumView,
    fidx: int,
) -> Result<Seq<u8>, DosrError> {
    let freqs = crate::spectrum::spec_detect(sv.mags, sv.fft_len, p.rate_hz);
    if freqs.len() > p.chunks {
        Result::Err(DosrError::TooManyPeaks { frame: fidx as usize, count: freqs.len() as usize })
    } else {
        spec_frame_syms(p, freqs, fidx, 0)
    }
}

/// The symbol stream of a whole recording: each frame's symbols in order,
/// or the first frame's error.
pub open spec fn spec_decode_syms(
    p: ModemParams,
    spectra: Seq<crate::spectrum::SpectrumView>,
    fidx: int,
) -> Result<Seq<u8>, DosrError>
    decreases spectra.len(),
{
    if spectra.len() == 0 {
        Result::Ok(Seq::empty())
    } else {
        match spec_decode_frame(p, spectra[0], fidx) {
            Result::Err(e) => Result::Err(e),
            Result::Ok(s) => match spec_decode_syms(p, spectra.skip(1), fidx + 1) {
                Result::Ok(t) => Result::Ok(s + t),
                Result::Err(e) => Result::Err(e),
            },
        }
    }
}

/// What decoding a recording yields: the payload bytes, and under a cipher
/// the authenticated plaintext behind the 12-byte nonce.
pub open spec fn spec_decode(
    p: ModemParams,
    spectra: Seq<crate::spectrum::SpectrumView>,
    key: Option<Seq<u8>>,
) -> Result<Seq<u8>, DosrError> {
    match spec_decode_syms(p, spectra, 0) {
        Result::Err(e) => Result::Err(e),
        Result::Ok(syms) => {
            let payload = crate::bits::spec_syms_to_bytes(syms, p.bits);
            match key {
                Option::None => Result::Ok(payload),
                Option::Some(kb) => if payload.len() < 12 {
                    Result::Err(DosrError::MissingNonce)
                } else {
                    match aead_pt(kb, payload.take(12), payload.skip(12)) {
                        Option::Some(pt) => Result::Ok(pt),
                        Option::None => Result::Err(DosrError::AuthFailed),
                    }
                },
            }
        },
    }
}

impl Dosr {
    /// Decodes one frame's spectrum into its symbols; chunk `k` carries the
    /// `k`-th detected frequency.
    #[verifier::loop_isolation(false)]
    pub fn decode_frame(&self, spectrum: &crate::spectrum::FrameSpectrum, frame_index: usize) -> (r:
        Result<Vec<u8>, DosrError>)
        requires
            self@.wf(),
            spectrum@.wf(),
        ensures
            r matches Ok(v) ==> spec_decode_frame(self@, spectrum@, frame_index as int) == Result::<
                Seq<u8>,
                DosrError,
            >::Ok(v@),
            r matches Err(e) ==> spec_decode_frame(self@, spectrum@, frame_index as int)
                == Result::<Seq<u8>, DosrError>::Err(e),
    {
        let freqs = self.detect_frequencies(spectrum);
        let ghost fspec = crate::spectrum::spec_detect(
            spectrum@.mags,
            spectrum@.fft_len,
            self@.rate_hz,
        );
        if freqs.len() > self.chunks_per_frame {
            return Err(DosrError::TooManyPeaks { frame: frame_index, count: freqs.len() });
        }
        let mut out: Vec<u8> = Vec::new();
        let mut k: usize = 0;
        proof {
            assert(fspec.skip(0) =~= fspec);
            let whole = spec_frame_syms(self@, fspec, frame_index as int, 0);
            if whole is Ok {
                assert(Seq::<u8>::empty() + whole->Ok_0 =~= whole->Ok_0);
            }
        }
        while k < freqs.len()
            invariant
                k <= freqs@.len(),
                out@.len() == k,
                spec_frame_syms(self@, fspec.skip(k as int), frame_index as int, k as int) matches
                    Ok(t) ==> spec_frame_syms(self@, fspec, frame_index as int, 0) == Result::<
                    Seq<u8>,
                    DosrError,
                >::Ok(out@ + t),
                spec_frame_syms(self@, fspec.skip(k as int), frame_index as int, k as int) matches
                    Err(e) ==> spec_frame_syms(self@, fspec, frame_index as int, 0) == Result::<
                    Seq<u8>,
                    DosrError,
                >::Err(e),
            decreases freqs@.len() - k,
        {
            proof {
                assert(fspec.skip(k as int)[0] == fspec[k as int]);
                assert(fspec[k as int] == freqs@[k as int] as int);
            }
            let ghost out_before = out@;
            match self.decode_frequency(freqs[k], k) {
                Option::Some(v) => {
                    out.push(v);
                    proof {
                        assert(fspec.skip(k as int).skip(1) =~= fspec.skip(k + 1));
                        let tail = spec_frame_syms(
                            self@,
                            fspec.skip(k + 1),
                            frame_index as int,
                            k + 1,
                        );
                        if tail is Ok {
                            let t2 = tail->Ok_0;
                            assert(spec_frame_syms(
                                self@,
                                fspec.skip(k as int),
                                frame_index as int,
                                k as int,
                            ) == Result::<Seq<u8>, DosrError>::Ok(seq![v] + t2));
                            assert(out_before + (seq![v] + t2) =~= out@ + t2);
                        }
                    }
                },
                Option::None => {
                    proof {
                        assert(spec_frame_syms(
                            self@,
                            fspec.skip(k as int),
                            frame_index as int,
                            k as int,
                        ) == Result::<Seq<u8>, DosrError>::Err(
                            DosrError::InvalidSymbol {
                                frame: frame_index,
                                freq_mhz: freqs@[k as int],
                            },
                        ));
                    }
                    return Err(DosrError::InvalidSymbol { frame: frame_index, freq_mhz: freqs[k] });
                },
            }
            k += 1;
        }
        proof {
            assert(fspec.skip(freqs@.len() as int) =~= Seq::<int>::empty());
            assert(spec_frame_syms(
                self@,
                Seq::<int>::empty(),
                frame_index as int,
                freqs@.len() as int,
            ) == Result::<Seq<u8>, DosrError>::Ok(Seq::<u8>::empty()));
            assert(out@ + Seq::<u8>::empty() =~= out@);
        }
        Ok(out)
    }

    /// Decodes a recording: every frame's spectrum to symbols, symbols to
    /// payload bytes, and under a cipher the 12-byte nonce is stripped and
    /// the remainder authenticated and decrypted.
    #[verifier::loop_isolation(false)]
    pub fn decode(
        &self,
        spectra: &Vec<crate::spectrum::FrameSpectrum>,
        cipher: &Option<AeadKey>,
    ) -> (r: Result<Vec<u8>, DosrError>)
        requires
            self@.wf(),
            forall|f: int| 0 <= f < spectra@.len() ==> (#[trigger] spectra@[f])@.wf(),
            cipher matches Some(k) ==> k.wf(),
        ensures
            r matches Ok(v) ==> spec_decode(self@, spectra_views(spectra@), key_of(cipher))
                == Result::<Seq<u8>, DosrError>::Ok(v@),
            r matches Err(e) ==> spec_decode(self@, spectra_views(spectra@), key_of(cipher))
                == Result::<Seq<u8>, DosrError>::Err(e),
    {
        let ghost views = spectra_views(spectra@);
        let mut syms: Vec<u8> = Vec::new();
        let mut f: usize = 0;
        proof {
            assert(views.skip(0) =~= views);
            let whole = spec_decode_syms(self@, views, 0);
            if whole is Ok {
                assert(Seq::<u8>::empty() + whole->Ok_0 =~= whole->Ok_0);
            }
        }
        while f < spectra.len()
            invariant
                f <= spectra@.len(),
                spec_decode_syms(self@, views.skip(f as int), f as int) matches Ok(t)
                    ==> spec_decode_syms(self@, views, 0) == Result::<Seq<u8>, DosrError>::Ok(
                    syms@ + t,
                ),
                spec_decode_syms(self@, views.skip(f as int), f as int) matches Err(e)
                    ==> spec_decode_syms(self@, views, 0) == Result::<Seq<u8>, DosrError>::Err(e),
            decreases spectra@.len() - f,
        {
            proof {
                assert(views.skip(f as int)[0] == spectra@[f as int]@);
            }
            let ghost syms_before = syms@;
            let mut part = match self.decode_frame(&spectra[f], f) {
                Ok(p) => p,
                Err(e) => {
                    return Err(e);
                },
            };
            let ghost part_view = part@;
            syms.append(&mut part);
            proof {
                assert(views.skip(f as int).skip(1) =~= views.skip(f + 1));
                let tail = spec_decode_syms(self@, views.skip(f + 1), f + 1);
                if tail is Ok {
                    let t2 = tail->Ok_0;
                    assert(spec_decode_syms(self@, views.skip(f as int), f as int) == Result::<
                        Seq<u8>,
                        DosrError,
                    >::Ok(part_view + t2));
                    assert(syms_before + (part_view + t2) =~= syms@ + t2);
                }
            }
            f += 1;
        }
        proof {
            assert(views.skip(spectra@.len() as int) =~= Seq::<
                crate::spectrum::SpectrumView,
            >::empty());
            assert(spec_decode_syms(
                self@,
                Seq::<crate::spectrum::SpectrumView>::empty(),
                spectra@.len() as int,
            ) == Result::<Seq<u8>, DosrError>::Ok(Seq::<u8>::empty()));
            assert(syms@ + Seq::<u8>::empty() =~= syms@);
        }
        let payload = self.symbols_to_bytes(&syms);
        match cipher {
            Option::None => Ok(payload),
            Option::Some(key) => {
                if payload.len() < 12 {
                    return Err(DosrError::MissingNonce);
                }
                let mut nonce: Vec<u8> = Vec::new();
                let mut t: usize = 0;
                while t < 12
                    invariant
                        t <= 12,
                        payload@.len() >= 12,
                        nonce@ == payload@.take(t as int),
                    decreases 12 - t,
                {
                    nonce.push(payload[t]);
                    proof {
                        assert(nonce@ =~= payload@.take(t + 1));
                    }
                    t += 1;
                }
                let mut ct: Vec<u8> = Vec::new();
                let mut u: usize = 12;
                while u < payload.len()
                    invariant
                        12 <= u <= payload@.len(),
                        ct@ == payload@.subrange(12, u as int),
                    decreases payload@.len() - u,
                {
                    ct.push(payload[u]);
                    proof {
                        assert(ct@ =~= payload@.subrange(12, u + 1));
                    }
                    u += 1;
                }
                proof {
                    assert(nonce@ =~= payload@.take(12));
                    assert(ct@ =~= payload@.skip(12));
                }
                match aead_decrypt(key, &nonce, &ct) {
                    Option::Some(pt) => Ok(pt),
                    Option::None => Err(DosrError::AuthFailed),
                }
            },
        }
    }
}

} // verus!
