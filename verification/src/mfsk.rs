//! The cipher-less modem facade: the same frequency plan, packer and
//! detector as `Dosr`, fixed to the reference base frequency and spacing.

use vstd::prelude::*;

use crate::dosr::{
    config_ok, plan_matches, spec_decode, spec_freq, spec_plan, spectra_views, Dosr, ModemParams,
    DF_MHZ, F0_MHZ,
};
use crate::errors::DosrError;
use crate::spectrum::FrameSpectrum;

verus! {

/// A modem at the reference base frequency and spacing, without an AEAD
/// envelope.
pub struct MfskConfig {
    cfg: Dosr,
}

impl View for MfskConfig {
    type V = ModemParams;

    closed spec fn view(&self) -> ModemParams {
        self.cfg@
    }
}

impl MfskConfig {
    /// Builds a modem at the reference frequencies, refusing any
    /// configuration that `config_ok` rejects.
    pub fn new(
        bits_per_chunk: usize,
        chunks_per_frame: usize,
        duration_ms: u64,
        sample_rate_hz: u32,
    ) -> (r: Result<MfskConfig, DosrError>)
        ensures
            r is Ok <==> config_ok(
                F0_MHZ as int,
                DF_MHZ as int,
                bits_per_chunk as int,
                chunks_per_frame as int,
                duration_ms as int,
                sample_rate_hz as int,
            ),
            r matches Ok(m) ==> m@ == (ModemParams {
                base_mhz: F0_MHZ as int,
                delta_mhz: DF_MHZ as int,
                bits: bits_per_chunk as int,
                values: crate::bits::sym_count(bits_per_chunk as int),
                chunks: chunks_per_frame as int,
                rate_hz: sample_rate_hz as int,
                dur_ms: duration_ms as int,
                spf: (sample_rate_hz as int * duration_ms as int) / 1000,
            }) && m@.wf(),
            r matches Err(e) ==> e == DosrError::InvalidConfig,
    {
        match Dosr::new(
            F0_MHZ,
            DF_MHZ,
            bits_per_chunk,
            chunks_per_frame,
            duration_ms,
            sample_rate_hz,
        ) {
            Ok(cfg) => Ok(MfskConfig { cfg }),
            Err(e) => Err(e),
        }
    }

    /// The tone frequency, in millihertz, that carries symbol value `data`
    /// in chunk `chunk_index`.
    pub fn calculate_frequency(&self, data: u8, chunk_index: usize) -> (f: u64)
        requires
            self@.wf(),
            (data as int) < self@.values,
            (chunk_index as int) < self@.chunks,
        ensures
            f as int == spec_freq(self@, data as int, chunk_index as int),
    {
        self.cfg.calculate_frequency(data, chunk_index)
    }

    /// Plans the signal for a payload: its symbols, framed, each frame
    /// mapped to its tone frequencies.
    pub fn encode_data(&self, data: &Vec<u8>) -> (plan: Vec<Vec<u64>>)
        requires
            self@.wf(),
            8 * (data@.len() + 28) <= usize::MAX,
        ensures
            plan_matches(plan@, spec_plan(self@, data@)),
    {
        let no_cipher: Option<crate::aead::AeadKey> = Option::None;
        self.cfg.encode_data(data, &no_cipher)
    }

    /// Decodes a recording of magnitude spectra into the payload bytes.
    pub fn decode(&self, spectra: &Vec<FrameSpectrum>) -> (r: Result<Vec<u8>, DosrError>)
        requires
            self@.wf(),
            forall|f: int| 0 <= f < spectra@.len() ==> (#[trigger] spectra@[f])@.wf(),
        ensures
            r matches Ok(v) ==> spec_decode(self@, spectra_views(spectra@), Option::None)
                == Result::<Seq<u8>, DosrError>::Ok(v@),
            r matches Err(e) ==> spec_decode(self@, spectra_views(spectra@), Option::None)
                == Result::<Seq<u8>, DosrError>::Err(e),
    {
        let no_cipher: Option<crate::aead::AeadKey> = Option::None;
        self.cfg.decode(spectra, &no_cipher)
    }
}

} // verus!
