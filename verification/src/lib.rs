//! A parallel multi-tone frequency-shift-keying (MFSK) modem.
//!
//! Bytes are split into fixed-width symbols, each frame carries several
//! symbols at once on disjoint frequency bands, and an optional
//! AES-128-GCM-SIV envelope wraps the payload.  All frequencies are held in
//! integer millihertz and spectra in fixed-point magnitudes, so the whole
//! signal plan and its inverse are verified; turning tone plans into audio
//! samples (and samples back into spectra) is the caller's collaborator.

pub mod aead;
pub mod args;
pub mod bits;
pub mod dosr;
pub mod errors;
pub mod framing;
pub mod laws;
pub mod mfsk;
pub mod spectrum;

pub use dosr::Dosr;
pub use errors::DosrError;
