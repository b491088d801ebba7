//! Grouping a symbol stream into frames: every frame carries up to
//! `chunks_per_frame` symbols, and only the last frame may be shorter.

use vstd::prelude::*;

verus! {

/// The symbol stream cut into frames of `n` symbols; the last frame keeps
/// whatever remains.
pub open spec fn spec_frames(s: Seq<u8>, n: int) -> Seq<Seq<u8>>
    recommends
        n >= 1,
    decreases s.len(),
{
    if n < 1 || s.len() == 0 {
        Seq::empty()
    } else if s.len() <= n {
        seq![s]
    } else {
        seq![s.take(n)] + spec_frames(s.skip(n), n)
    }
}

/// Concatenating the frames in order restores the symbol stream.
pub proof fn lemma_frames_flatten(s: Seq<u8>, n: int)
    requires
        n >= 1,
    ensures
        spec_frames(s, n).flatten() == s,
    decreases s.len(),
{
    let fr = spec_frames(s, n);
    if s.len() == 0 {
        assert(fr.flatten() =~= s);
    } else if s.len() <= n {
        assert(fr == seq![s]);
        assert(fr.drop_first() =~= Seq::<Seq<u8>>::empty());
        assert(fr.first().add(Seq::<Seq<u8>>::empty().flatten()) =~= s);
    } else {
        lemma_frames_flatten(s.skip(n), n);
        assert(fr.first() == s.take(n));
        assert(fr.drop_first() =~= spec_frames(s.skip(n), n));
        assert(s.take(n).add(s.skip(n)) =~= s);
    }
}

/// Every frame has at most `n` symbols, and at least one.
pub proof fn lemma_frames_row_len(s: Seq<u8>, n: int)
    requires
        n >= 1,
    ensures
        forall|f: int|
            0 <= f < spec_frames(s, n).len() ==> 1 <= (#[trigger] spec_frames(s, n)[f]).len() <= n,
    decreases s.len(),
{
    if s.len() == 0 {
    } else if s.len() <= n {
    } else {
        lemma_frames_row_len(s.skip(n), n);
        let fr = spec_frames(s, n);
        assert forall|f: int| 0 <= f < fr.len() implies 1 <= (#[trigger] fr[f]).len() <= n by {
            if f >= 1 {
                assert(fr[f] == spec_frames(s.skip(n), n)[f - 1]);
            }
        }
    }
}

/// The symbol at position `k` of frame `f` is symbol `f * n + k` of the
/// stream.
pub proof fn lemma_frames_index(s: Seq<u8>, n: int, f: int, k: int)
    requires
        n >= 1,
        0 <= f < spec_frames(s, n).len(),
        0 <= k < spec_frames(s, n)[f].len(),
    ensures
        f * n + k < s.len(),
        spec_frames(s, n)[f][k] == s[f * n + k],
    decreases s.len(),
{
    if s.len() == 0 {
    } else if s.len() <= n {
        assert(f == 0);
    } else {
        let rest = spec_frames(s.skip(n), n);
        assert(spec_frames(s, n) == seq![s.take(n)] + rest);
        if f == 0 {
            assert(spec_frames(s, n)[0] == s.take(n));
        } else {
            assert(0 <= f - 1 < rest.len());
            assert(spec_frames(s, n)[f] == rest[f - 1]);
            lemma_frames_index(s.skip(n), n, f - 1, k);
            assert((f - 1) * n >= 0) by (nonlinear_arith)
                requires
                    f >= 1 && n >= 1,
            ;
            assert(s.skip(n)[(f - 1) * n + k] == s[(f - 1) * n + k + n]);
            assert((f - 1) * n + k + n == f * n + k) by (nonlinear_arith);
        }
    }
}

/// Framing distributes over a split at a whole number of frames.
pub proof fn lemma_frames_concat(u: Seq<u8>, v: Seq<u8>, n: int)
    requires
        n >= 1,
        (u.len() as int) % n == 0,
    ensures
        spec_frames(u + v, n) == spec_frames(u, n) + spec_frames(v, n),
    decreases u.len(),
{
    if u.len() == 0 {
        assert(u + v =~= v);
        assert(spec_frames(u, n) =~= Seq::<Seq<u8>>::empty());
    } else {
        assert(u.len() >= n) by {
            if u.len() < n {
                vstd::arithmetic::div_mod::lemma_small_mod(u.len(), n as nat);
            }
        }
        if u.len() == n && v.len() == 0 {
            assert(u + v =~= u);
            assert(spec_frames(v, n) =~= Seq::<Seq<u8>>::empty());
            assert(spec_frames(u, n) + Seq::<Seq<u8>>::empty() =~= spec_frames(u, n));
        } else {
            assert((u + v).len() > n);
            assert((u + v).take(n) =~= u.take(n));
            assert((u + v).skip(n) =~= u.skip(n) + v);
            assert((u.len() - n) % n == 0) by {
                vstd::arithmetic::div_mod::lemma_mod_sub_multiples_vanish(u.len() as int, n);
            }
            lemma_frames_concat(u.skip(n), v, n);
            if u.len() == n {
                assert(u.skip(n) =~= Seq::<u8>::empty());
                assert(u.skip(n) + v =~= v);
                assert(spec_frames(u, n) == seq![u]);
                assert(u.take(n) =~= u);
                assert(seq![u] + spec_frames(v, n) =~= spec_frames(u, n) + spec_frames(v, n));
            } else {
                assert(spec_frames(u, n) == seq![u.take(n)] + spec_frames(u.skip(n), n));
                assert(seq![u.take(n)] + (spec_frames(u.skip(n), n) + spec_frames(v, n)) =~= (
                seq![u.take(n)] + spec_frames(u.skip(n), n)) + spec_frames(v, n));
            }
        }
    }
}

} // verus!
