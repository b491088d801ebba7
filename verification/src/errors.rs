use vstd::prelude::*;

verus! {

/// Everything that can go wrong while building a modem or decoding a signal.
#[derive(Clone, Copy, Debug, PartialEq, Eq, Structural)]
pub enum DosrError {
    /// The configuration is rejected: the symbol width does not divide a
    /// byte, a parameter is zero, a tone would reach the Nyquist frequency,
    /// or a derived size does not fit the machine.
    InvalidConfig,
    /// An AEAD key was not exactly 16 bytes long.
    KeyLength,
    /// A magnitude spectrum did not hold one magnitude per positive-frequency
    /// bin of its transform length.
    SpectrumShape,
    /// A detected frequency decodes to no symbol of its chunk's band.
    InvalidSymbol { frame: usize, freq_mhz: u64 },
    /// A frame showed more spectral peaks than it has chunks.
    TooManyPeaks { frame: usize, count: usize },
    /// An enciphered payload was too short to hold the 12-byte nonce.
    MissingNonce,
    /// The AEAD envelope failed to authenticate; no plaintext is returned.
    AuthFailed,
}

} // verus!
