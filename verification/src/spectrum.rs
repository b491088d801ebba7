//! The spectral detector.  A caller's FFT collaborator turns one frame of
//! samples into fixed-point bin magnitudes; the detector normalizes against
//! the strongest bin, keeps strict local maxima above two fifths of it, and
//! reports each peak's frequency in millihertz.

use vstd::arithmetic::div_mod::{
    lemma_div_denominator, lemma_div_is_ordered, lemma_div_multiples_vanish,
};
use vstd::prelude::*;

use crate::dosr::Dosr;
use crate::errors::DosrError;

verus! {

/// The mathematical image of one frame's magnitude spectrum.
pub ghost struct SpectrumView {
    /// One fixed-point magnitude per positive-frequency bin.
    pub mags: Seq<u64>,
    /// The length of the transform the magnitudes came from.
    pub fft_len: int,
}

impl SpectrumView {
    /// A spectrum is well formed when it holds one magnitude for each of
    /// the `fft_len / 2` positive-frequency bins.
    pub open spec fn wf(self) -> bool {
        self.fft_len >= 1 && self.mags.len() == self.fft_len / 2
    }
}

/// One frame's magnitude spectrum: the positive-frequency half of a length
/// `fft_len` transform, as fixed-point magnitudes under any uniform scale.
pub struct FrameSpectrum {
    mags: Vec<u64>,
    fft_len: usize,
}

impl View for FrameSpectrum {
    type V = SpectrumView;

    closed spec fn view(&self) -> SpectrumView {
        SpectrumView { mags: self.mags@, fft_len: self.fft_len as int }
    }
}

impl FrameSpectrum {
    /// Accepts one magnitude per positive-frequency bin of a nonempty
    /// transform, and rejects any other shape.
    pub fn new(mags: Vec<u64>, fft_len: usize) -> (r: Result<FrameSpectrum, DosrError>)
        ensures
            fft_len >= 1 && mags@.len() == fft_len / 2 ==> (r matches Ok(s) && s@ == (SpectrumView {
                mags: mags@,
                fft_len: fft_len as int,
            }) && s@.wf()),
            !(fft_len >= 1 && mags@.len() == fft_len / 2) ==> (r matches Err(e) && e
                == DosrError::SpectrumShape),
    {
        if fft_len >= 1 && mags.len() == fft_len / 2 {
            Ok(FrameSpectrum { mags, fft_len })
        } else {
            Err(DosrError::SpectrumShape)
        }
    }
}

/// The largest magnitude in a spectrum; zero for an empty one.
pub open spec fn seq_max(s: Seq<u64>) -> int
    decreases s.len(),
{
    if s.len() == 0 {
        0
    } else if s.last() as int >= seq_max(s.drop_last()) {
        s.last() as int
    } else {
        seq_max(s.drop_last())
    }
}

/// Whether bin `i` is a detected peak: an interior bin, strictly above both
/// neighbours, and strictly above two fifths of the strongest magnitude.
pub open spec fn is_peak(mags: Seq<u64>, m: int, i: int) -> bool {
    &&& 1 <= i
    &&& i + 1 < mags.len()
    &&& 5 * mags[i] > 2 * m
    &&& mags[i] > mags[i - 1]
    &&& mags[i] > mags[i + 1]
}

/// The peak bins below index `n`, in ascending order.
pub open spec fn spec_peaks(mags: Seq<u64>, m: int, n: int) -> Seq<int>
    decreases n,
{
    if n <= 0 {
        Seq::empty()
    } else if is_peak(mags, m, n - 1) {
        spec_peaks(mags, m, n - 1) + seq![n - 1]
    } else {
        spec_peaks(mags, m, n - 1)
    }
}

/// The frequency of bin `i` of a length `fft_len` transform, in millihertz,
/// rounded to the nearest: `i * rate / fft_len` hertz.
pub open spec fn spec_bin_freq(i: int, fft_len: int, rate: int) -> int
    recommends
        fft_len >= 1,
{
    (2 * i * rate * 1000 + fft_len) / (2 * fft_len)
}

/// The frequencies the detector reports for a spectrum: its peak bins, in
/// ascending order, each mapped to its bin frequency.
pub open spec fn spec_detect(mags: Seq<u64>, fft_len: int, rate: int) -> Seq<int> {
    let pk = spec_peaks(mags, seq_max(mags), mags.len() as int);
    Seq::new(pk.len(), |j: int| spec_bin_freq(pk[j], fft_len, rate))
}

/// A detected bin frequency is bounded by half the sample rate, and the
/// rounding division is exact arithmetic.
pub proof fn lemma_bin_freq_bound(i: int, fft_len: int, rate: int)
    requires
        1 <= fft_len,
        0 <= i,
        2 * (i + 1) <= fft_len,
        0 <= rate,
    ensures
        0 <= spec_bin_freq(i, fft_len, rate) <= 500 * rate,
{
    let num = 2 * i * rate * 1000 + fft_len;
    let den = 2 * fft_len;
    vstd::arithmetic::div_mod::lemma_div_pos_is_pos(num, den);
    assert(2 * i * rate * 1000 >= 0) by (nonlinear_arith)
        requires
            i >= 0,
            rate >= 0,
    ;
    assert(2 * i * rate * 1000 + fft_len <= fft_len * (1000 * rate + 1)) by (nonlinear_arith)
        requires
            2 * i <= fft_len - 2,
            rate >= 0,
            fft_len >= 1,
    ;
    lemma_div_is_ordered(num, fft_len * (1000 * rate + 1), den);
    assert(fft_len * (1000 * rate + 1) == (1000 * rate + 1) * fft_len) by (nonlinear_arith);
    lemma_div_multiples_vanish(1000 * rate + 1, fft_len);
    assert((fft_len * (1000 * rate + 1)) / (2 * fft_len) == ((1000 * rate + 1) * fft_len) / (
    fft_len * 2)) by (nonlinear_arith);
    lemma_div_denominator((1000 * rate + 1) * fft_len, fft_len, 2);
    assert(((1000 * rate + 1) * fft_len) / fft_len == 1000 * rate + 1) by {
        assert((fft_len * (1000 * rate + 1)) == ((1000 * rate + 1) * fft_len)) by (nonlinear_arith);
    }
    assert((1000 * rate + 1) / 2 <= 500 * rate);
}


/// A silent frame detects nothing: with every magnitude zero, no bin is a
/// peak and no frequency is reported.
pub proof fn lemma_silent_frame_detects_nothing(mags: Seq<u64>, fft_len: int, rate: int)
    requires
        forall|i: int| 0 <= i < mags.len() ==> (#[trigger] mags[i]) == 0,
    ensures
        spec_detect(mags, fft_len, rate) == Seq::<int>::empty(),
{
    lemma_zero_peaks(mags, seq_max(mags), mags.len() as int);
    assert(spec_detect(mags, fft_len, rate) =~= Seq::<int>::empty());
}

/// With every magnitude zero there are no peaks below any index.
proof fn lemma_zero_peaks(mags: Seq<u64>, m: int, n: int)
    requires
        n <= mags.len(),
        forall|i: int| 0 <= i < mags.len() ==> (#[trigger] mags[i]) == 0,
    ensures
        spec_peaks(mags, m, n) == Seq::<int>::empty(),
    decreases n,
{
    if n <= 0 {
        assert(spec_peaks(mags, m, n) =~= Seq::<int>::empty());
    } else {
        assert(!is_peak(mags, m, n - 1));
        lemma_zero_peaks(mags, m, n - 1);
    }
}

impl Dosr {
    /// Finds the tone frequencies in one frame's spectrum: strict local
    /// maxima strictly above two fifths of the strongest bin, in ascending
    /// bin order, as millihertz.  A silent frame has no peaks.
    #[verifier::loop_isolation(false)]
    pub fn detect_frequencies(&self, spectrum: &FrameSpectrum) -> (freqs: Vec<u64>)
        requires
            self@.wf(),
            spectrum@.wf(),
        ensures
            freqs@.len() == spec_detect(spectrum@.mags, spectrum@.fft_len, self@.rate_hz).len(),
            forall|j: int|
                0 <= j < freqs@.len() ==> (#[trigger] freqs@[j]) as int == spec_detect(
                    spectrum@.mags,
                    spectrum@.fft_len,
                    self@.rate_hz,
                )[j],
    {
        let rate = self.sample_rate();
        let n = spectrum.fft_len;
        let len = spectrum.mags.len();
        let mut mx: u64 = 0;
        let mut i: usize = 0;
        while i < len
            invariant
                i <= len,
                mx as int == seq_max(spectrum@.mags.take(i as int)),
            decreases len - i,
        {
            let v = spectrum.mags[i];
            if v > mx {
                mx = v;
            }
            proof {
                let pre = spectrum@.mags.take(i as int);
                let cur = spectrum@.mags.take(i + 1);
                assert(cur.drop_last() =~= pre);
                assert(cur.last() == spectrum@.mags[i as int]);
            }
            i += 1;
        }
        proof {
            assert(spectrum@.mags.take(len as int) =~= spectrum@.mags);
        }
        let ghost m = seq_max(spectrum@.mags);
        let mut freqs: Vec<u64> = Vec::new();
        let mut i: usize = 1;
        proof {
            assert(!is_peak(spectrum@.mags, m, 0));
            assert(spec_peaks(spectrum@.mags, m, 0) =~= Seq::<int>::empty());
            assert(spec_peaks(spectrum@.mags, m, 1) =~= Seq::<int>::empty());
        }
        while i + 1 < len
            invariant
                1 <= i,
                i + 1 <= len || i == 1,
                freqs@.len() == spec_peaks(spectrum@.mags, m, i as int).len(),
                forall|j: int|
                    0 <= j < freqs@.len() ==> (#[trigger] freqs@[j]) as int == spec_bin_freq(
                        spec_peaks(spectrum@.mags, m, i as int)[j],
                        spectrum@.fft_len,
                        self@.rate_hz,
                    ),
            decreases len - i,
        {
            let v = spectrum.mags[i];
            let prev = spectrum.mags[i - 1];
            let next = spectrum.mags[i + 1];
            if 5 * (v as u128) > 2 * (mx as u128) && v > prev && v > next {
                proof {
                    lemma_bin_freq_bound(i as int, spectrum@.fft_len, self@.rate_hz);
                    assert(0 <= 2 * (i as int) * (rate as int) * 1000 + (n as int)
                        <= 0x10_0000_0000_0000_0000_0000_0000_0000) by (nonlinear_arith)
                        requires
                            0 <= i as int <= 0xffff_ffff_ffff_ffff,
                            0 <= rate as int <= 0xffff_ffff,
                            0 <= n as int <= 0xffff_ffff_ffff_ffff,
                    ;
                }
                let num: u128 = 2 * (i as u128) * (rate as u128) * 1000 + (n as u128);
                let den: u128 = 2 * (n as u128);
                let q: u64 = (num / den) as u64;
                freqs.push(q);
                proof {
                    assert(is_peak(spectrum@.mags, m, i as int));
                    assert(spec_peaks(spectrum@.mags, m, i + 1) == spec_peaks(
                        spectrum@.mags,
                        m,
                        i as int,
                    ) + seq![i as int]);
                }
            } else {
                proof {
                    assert(!is_peak(spectrum@.mags, m, i as int));
                    assert(spec_peaks(spectrum@.mags, m, i + 1) == spec_peaks(
                        spectrum@.mags,
                        m,
                        i as int,
                    ));
                }
            }
            i += 1;
        }
        proof {
            let mags = spectrum@.mags;
            if len >= 2 {
                assert(i as int == len - 1);
                assert(!is_peak(mags, m, len - 1));
                assert(spec_peaks(mags, m, len as int) == spec_peaks(mags, m, len - 1));
            } else {
                assert(spec_peaks(mags, m, len as int) =~= Seq::<int>::empty());
            }
            assert(freqs@.len() == spec_detect(mags, spectrum@.fft_len, self@.rate_hz).len());
        }
        freqs
    }
}

} // verus!
