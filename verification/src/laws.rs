//! End-to-end laws of the modem: what decoding gives back when the
//! spectral channel reports each planned tone within half a frequency
//! step, with and without the AEAD envelope, and that the plan is a
//! function of the configuration alone.

use vstd::prelude::*;

use crate::aead::{aead_ct, aead_pt};
use crate::bits::{
    lemma_bytes_to_syms_bounded, lemma_packer_round_trip, spec_bytes_to_syms, spec_syms_to_bytes,
};
use crate::dosr::{
    lemma_decode_freq_tolerance, lemma_k_freq_bound, spec_decode, spec_decode_frame,
    spec_decode_syms, spec_frame_syms, spec_freq, spec_plan, spec_row, ModemParams,
};
use crate::errors::DosrError;
use crate::framing::{lemma_frames_flatten, lemma_frames_index, lemma_frames_row_len, spec_frames};
use crate::spectrum::{spec_detect, SpectrumView};

verus! {

/// When one frame's detected frequencies carry the symbols `fr` for chunk
/// indices counted from `c0`: one detection per symbol, each within half a
/// frequency step of the symbol's tone.
pub open spec fn row_tolerable(p: ModemParams, freqs: Seq<int>, fr: Seq<u8>, c0: int) -> bool {
    &&& freqs.len() == fr.len()
    &&& forall|k: int| 0 <= k < fr.len() ==> (#[trigger] fr[k]) < p.values
    &&& forall|k: int|
        0 <= k < freqs.len() ==> 2 * ((#[trigger] freqs[k]) - spec_freq(p, fr[k] as int, c0 + k))
            < p.delta_mhz && 2 * (spec_freq(p, fr[k] as int, c0 + k) - freqs[k]) < p.delta_mhz
}

/// When a recording's spectra are faithful to a plan: one frame per planned
/// frame, one detected frequency per planned tone, each within half a
/// frequency step of its tone.
pub open spec fn channel_faithful(
    p: ModemParams,
    plan: Seq<Seq<u64>>,
    spectra: Seq<SpectrumView>,
) -> bool {
    &&& spectra.len() == plan.len()
    &&& forall|f: int|
        0 <= f < plan.len() ==> spec_detect(
            (#[trigger] spectra[f]).mags,
            spectra[f].fft_len,
            p.rate_hz,
        ).len() == plan[f].len()
    &&& forall|f: int, k: int|
        #![trigger plan[f][k]]
        0 <= f < plan.len() && 0 <= k < plan[f].len() ==> 2 * (spec_detect(
            spectra[f].mags,
            spectra[f].fft_len,
            p.rate_hz,
        )[k] - plan[f][k]) < p.delta_mhz && 2 * (plan[f][k] - spec_detect(
            spectra[f].mags,
            spectra[f].fft_len,
            p.rate_hz,
        )[k]) < p.delta_mhz
}

/// Decoding a frame whose detected frequencies are each within half a step
/// of the tones of `fr` yields exactly `fr`, whatever the frame's index.
proof fn lemma_frame_syms_ok(p: ModemParams, freqs: Seq<int>, fr: Seq<u8>, fidx: int, c0: int)
    requires
        p.wf(),
        0 <= c0,
        c0 + freqs.len() <= p.chunks,
        row_tolerable(p, freqs, fr, c0),
    ensures
        spec_frame_syms(p, freqs, fidx, c0) == Result::<Seq<u8>, DosrError>::Ok(fr),
    decreases freqs.len(),
{
    if freqs.len() == 0 {
        assert(fr =~= Seq::<u8>::empty());
    } else {
        lemma_decode_freq_tolerance(p, fr[0] as int, c0, freqs[0]);
        assert(row_tolerable(p, freqs.skip(1), fr.skip(1), c0 + 1)) by {
            assert forall|k: int| 0 <= k < fr.skip(1).len() implies (#[trigger] fr.skip(1)[k])
                < p.values by {
                assert(fr.skip(1)[k] == fr[k + 1]);
            }
            assert forall|k: int|
                0 <= k < freqs.skip(1).len() implies 2 * ((#[trigger] freqs.skip(1)[k]) - spec_freq(
                p,
                fr.skip(1)[k] as int,
                c0 + 1 + k,
            )) < p.delta_mhz && 2 * (spec_freq(p, fr.skip(1)[k] as int, c0 + 1 + k) - freqs.skip(
                1,
            )[k]) < p.delta_mhz by {
                assert(freqs.skip(1)[k] == freqs[k + 1]);
                assert(fr.skip(1)[k] == fr[k + 1]);
                assert(2 * (freqs[k + 1] - spec_freq(p, fr[k + 1] as int, c0 + (k + 1)))
                    < p.delta_mhz && 2 * (spec_freq(p, fr[k + 1] as int, c0 + (k + 1)) - freqs[k
                    + 1]) < p.delta_mhz);
            }
        }
        lemma_frame_syms_ok(p, freqs.skip(1), fr.skip(1), fidx, c0 + 1);
        assert(seq![fr[0]] + fr.skip(1) =~= fr);
    }
}

/// Decoding a recording frame by frame yields the frames' symbol rows,
/// concatenated, when each frame's spectrum decodes to its row whatever
/// index it is given.
proof fn lemma_decode_frames_ok(
    p: ModemParams,
    spectra: Seq<SpectrumView>,
    rows: Seq<Seq<u8>>,
    fidx: int,
)
    requires
        spectra.len() == rows.len(),
        forall|f: int, j: int|
            0 <= f < spectra.len() ==> #[trigger] spec_decode_frame(p, spectra[f], j) == Result::<
                Seq<u8>,
                DosrError,
            >::Ok(rows[f]),
    ensures
        spec_decode_syms(p, spectra, fidx) == Result::<Seq<u8>, DosrError>::Ok(rows.flatten()),
    decreases spectra.len(),
{
    if spectra.len() == 0 {
        assert(rows.flatten() =~= Seq::<u8>::empty());
    } else {
        assert(spec_decode_frame(p, spectra[0], fidx) == Result::<Seq<u8>, DosrError>::Ok(rows[0]));
        assert forall|f: int, j: int| 0 <= f < spectra.skip(1).len() implies #[trigger]
        spec_decode_frame(p, spectra.skip(1)[f], j) == Result::<Seq<u8>, DosrError>::Ok(
            rows.skip(1)[f],
        ) by {
            assert(spectra.skip(1)[f] == spectra[f + 1]);
            assert(rows.skip(1)[f] == rows[f + 1]);
            assert(spec_decode_frame(p, spectra[f + 1], j) == Result::<Seq<u8>, DosrError>::Ok(
                rows[f + 1],
            ));
        }
        lemma_decode_frames_ok(p, spectra.skip(1), rows.skip(1), fidx + 1);
        assert(rows.drop_first() =~= rows.skip(1));
        assert(rows.flatten() == rows[0] + rows.skip(1).flatten());
    }
}

/// Under a faithful channel, the symbol stream a recording decodes to is
/// exactly the symbol stream the payload was cut into.
proof fn lemma_payload_recovered(p: ModemParams, payload: Seq<u8>, spectra: Seq<SpectrumView>)
    requires
        p.wf(),
        channel_faithful(p, spec_plan(p, payload), spectra),
    ensures
        spec_decode_syms(p, spectra, 0) == Result::<Seq<u8>, DosrError>::Ok(
            spec_bytes_to_syms(payload, p.bits),
        ),
{
    let syms = spec_bytes_to_syms(payload, p.bits);
    let frames = spec_frames(syms, p.chunks);
    let plan = spec_plan(p, payload);
    lemma_bytes_to_syms_bounded(payload, p.bits);
    lemma_frames_row_len(syms, p.chunks);
    assert forall|f: int, j: int|
        0 <= f < spectra.len() implies #[trigger] spec_decode_frame(p, spectra[f], j) == Result::<
        Seq<u8>,
        DosrError,
    >::Ok(frames[f]) by {
        let sv = spectra[f];
        let det = spec_detect(sv.mags, sv.fft_len, p.rate_hz);
        assert(spec_plan(p, payload)[f] == spec_row(p, frames[f]));
        assert(det.len() == spec_plan(p, payload)[f].len());
        assert(det.len() == frames[f].len());
        assert(1 <= frames[f].len() <= p.chunks);
        assert(row_tolerable(p, det, frames[f], 0)) by {
            assert forall|k: int| 0 <= k < frames[f].len() implies (#[trigger] frames[f][k])
                < p.values by {
                lemma_frames_index(syms, p.chunks, f, k);
            }
            assert forall|k: int|
                0 <= k < det.len() implies 2 * ((#[trigger] det[k]) - spec_freq(
                p,
                frames[f][k] as int,
                0 + k,
            )) < p.delta_mhz && 2 * (spec_freq(p, frames[f][k] as int, 0 + k) - det[k])
                < p.delta_mhz by {
                lemma_frames_index(syms, p.chunks, f, k);
                lemma_k_freq_bound(p, frames[f][k] as int, k);
                assert(spec_plan(p, payload)[f][k] == spec_freq(p, frames[f][k] as int, k) as u64);
                assert(spec_plan(p, payload)[f][k] as int == spec_freq(p, frames[f][k] as int, k));
                assert(2 * (det[k] - spec_plan(p, payload)[f][k]) < p.delta_mhz && 2 * (spec_plan(
                    p,
                    payload,
                )[f][k] - det[k]) < p.delta_mhz);
            }
        }
        lemma_frame_syms_ok(p, det, frames[f], j, 0);
    }
    lemma_decode_frames_ok(p, spectra, frames, 0);
    lemma_frames_flatten(syms, p.chunks);
}

/// Noise-free round trip: when the spectral channel reports, for every
/// frame of a payload's planned signal, exactly one frequency per planned
/// tone and each within half a frequency step, decoding yields the payload
/// again — for every payload and every accepted configuration.
pub proof fn lemma_modem_round_trip(p: ModemParams, payload: Seq<u8>, spectra: Seq<SpectrumView>)
    requires
        p.wf(),
        channel_faithful(p, spec_plan(p, payload), spectra),
    ensures
        spec_decode(p, spectra, Option::None) == Result::<Seq<u8>, DosrError>::Ok(payload),
{
    lemma_payload_recovered(p, payload, spectra);
    lemma_packer_round_trip(payload, p.bits);
}

/// AEAD round trip: when the payload is `nonce ‖ ciphertext` for a
/// ciphertext built from the key, the nonce and a plaintext, and the
/// channel is faithful to its planned signal, decoding with that key
/// yields the plaintext again.
pub proof fn lemma_modem_round_trip_aead(
    p: ModemParams,
    key: Seq<u8>,
    nonce: Seq<u8>,
    data: Seq<u8>,
    spectra: Seq<SpectrumView>,
)
    requires
        p.wf(),
        nonce.len() == 12,
        aead_pt(key, nonce, aead_ct(key, nonce, data)) == Some(data),
        channel_faithful(p, spec_plan(p, nonce + aead_ct(key, nonce, data)), spectra),
    ensures
        spec_decode(p, spectra, Option::Some(key)) == Result::<Seq<u8>, DosrError>::Ok(data),
{
    let payload = nonce + aead_ct(key, nonce, data);
    lemma_payload_recovered(p, payload, spectra);
    lemma_packer_round_trip(payload, p.bits);
    assert(payload.take(12) =~= nonce);
    assert(payload.skip(12) =~= aead_ct(key, nonce, data));
}

/// The signal plan is a function of the configuration and the payload
/// alone: two modems built from equal configurations plan identical
/// signals for the same payload.
pub proof fn lemma_config_idempotent(p1: ModemParams, p2: ModemParams, payload: Seq<u8>)
    requires
        p1 == p2,
    ensures
        spec_plan(p1, payload) == spec_plan(p2, payload),
{
}

} // verus!
