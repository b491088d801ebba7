//! The bit packer: bytes are read as a bit stream, most significant bit
//! first, and cut into symbols of a fixed width that divides a byte.  The
//! inverse folds complete groups of symbols back into bytes and discards a
//! trailing incomplete group.

use vstd::prelude::*;

verus! {

/// The symbol widths the packer accepts: those that divide a byte evenly.
pub open spec fn width_ok(b: int) -> bool {
    b == 1 || b == 2 || b == 4 || b == 8
}

/// How many symbols one byte yields at width `b`.
pub open spec fn syms_per_byte(b: int) -> int
    recommends
        width_ok(b),
{
    8int / b
}

/// How many distinct values a symbol of width `b` can carry.
pub open spec fn sym_count(b: int) -> int
    recommends
        width_ok(b),
{
    if b == 1 {
        2
    } else if b == 2 {
        4
    } else if b == 4 {
        16
    } else {
        256
    }
}

/// The mask keeping the low `k` bits of a byte.
pub open spec fn low_mask(k: int) -> u8
    recommends
        0 <= k <= 8,
{
    0xffu8 >> ((8 - k) as u8)
}

/// The `j`-th symbol of byte `x`: its bits, taken `b` at a time from the
/// most significant end.
pub open spec fn sym_of_byte(x: u8, b: int, j: int) -> u8
    recommends
        width_ok(b),
        0 <= j < syms_per_byte(b),
{
    (x >> ((8 - b * (j + 1)) as u8)) & low_mask(b)
}

/// All symbols of one byte, most significant group first.
pub open spec fn byte_syms(x: u8, b: int) -> Seq<u8>
    recommends
        width_ok(b),
{
    Seq::new(syms_per_byte(b) as nat, |j: int| sym_of_byte(x, b, j))
}

/// Every byte of `data` expanded into its symbols, in order.
pub open spec fn spec_bytes_to_syms(data: Seq<u8>, b: int) -> Seq<u8>
    recommends
        width_ok(b),
    decreases data.len(),
{
    if data.len() == 0 {
        Seq::empty()
    } else {
        byte_syms(data[0], b) + spec_bytes_to_syms(data.skip(1), b)
    }
}

/// One group of symbols folded back into a byte, first symbol highest.
pub open spec fn byte_of_group(s: Seq<u8>, b: int) -> u8
    recommends
        width_ok(b),
    decreases s.len(),
{
    if s.len() == 0 {
        0u8
    } else {
        (byte_of_group(s.drop_last(), b) << (b as u8)) | s.last()
    }
}

/// Complete groups of `8 / b` symbols recombined into bytes; a trailing
/// incomplete group is discarded.
pub open spec fn spec_syms_to_bytes(s: Seq<u8>, b: int) -> Seq<u8>
    recommends
        width_ok(b),
    decreases s.len(),
{
    let g = syms_per_byte(b);
    if g < 1 || s.len() < g {
        Seq::empty()
    } else {
        seq![byte_of_group(s.take(g), b)] + spec_syms_to_bytes(s.skip(g), b)
    }
}

/// A width that divides a byte multiplies back to a whole byte.
pub proof fn lemma_width_product(b: int)
    requires
        width_ok(b),
    ensures
        1 <= syms_per_byte(b) <= 8,
        b * syms_per_byte(b) == 8,
        low_mask(b) as int + 1 == sym_count(b),
{
    assert(low_mask(1) == 1 && low_mask(2) == 3 && low_mask(4) == 0xf && low_mask(8) == 0xff) by (bit_vector);
    if b == 1 {
        assert(syms_per_byte(1) == 8);
    } else if b == 2 {
        assert(syms_per_byte(2) == 4);
    } else if b == 4 {
        assert(syms_per_byte(4) == 2);
    } else {
        assert(syms_per_byte(8) == 1);
    }
}

/// Every symbol cut from a byte is below the symbol count of its width.
pub proof fn lemma_sym_of_byte_bounded(x: u8, b: int, j: int)
    requires
        width_ok(b),
    ensures
        sym_of_byte(x, b, j) < sym_count(b),
{
    lemma_width_product(b);
    let sh = (8 - b * (j + 1)) as u8;
    let m = low_mask(b);
    assert((x >> sh) & m <= m) by (bit_vector);
}

/// The expansion of `data` holds one group of symbols per byte.
pub proof fn lemma_bytes_to_syms_len(data: Seq<u8>, b: int)
    requires
        width_ok(b),
    ensures
        spec_bytes_to_syms(data, b).len() == data.len() * syms_per_byte(b),
    decreases data.len(),
{
    let g = syms_per_byte(b);
    if data.len() == 0 {
    } else {
        lemma_bytes_to_syms_len(data.skip(1), b);
        assert(data.len() * g == (data.len() - 1) * g + g) by (nonlinear_arith);
    }
}

/// Every symbol in the expansion of `data` is below the symbol count.
pub proof fn lemma_bytes_to_syms_bounded(data: Seq<u8>, b: int)
    requires
        width_ok(b),
    ensures
        forall|i: int|
            0 <= i < spec_bytes_to_syms(data, b).len() ==> spec_bytes_to_syms(data, b)[i] < sym_count(b),
    decreases data.len(),
{
    let g = syms_per_byte(b);
    if data.len() == 0 {
    } else {
        lemma_bytes_to_syms_bounded(data.skip(1), b);
        let s = spec_bytes_to_syms(data, b);
        let rest = spec_bytes_to_syms(data.skip(1), b);
        assert(s == byte_syms(data[0], b) + rest);
        assert forall|i: int| 0 <= i < s.len() implies s[i] < sym_count(b) by {
            if i < g {
                lemma_sym_of_byte_bounded(data[0], b, i);
                assert(s[i] == byte_syms(data[0], b)[i]);
            } else {
                assert(s[i] == rest[i - g]);
            }
        }
    }
}

/// Appending one more byte appends that byte's symbols.
pub proof fn lemma_bytes_to_syms_snoc(data: Seq<u8>, b: int, i: int)
    requires
        width_ok(b),
        0 <= i < data.len(),
    ensures
        spec_bytes_to_syms(data.take(i + 1), b) == spec_bytes_to_syms(data.take(i), b) + byte_syms(
            data[i],
            b,
        ),
    decreases i,
{
    if i == 0 {
        let one = data.take(1);
        assert(one.len() == 1 && one[0] == data[0]);
        assert(one.skip(1) =~= Seq::<u8>::empty());
        assert(spec_bytes_to_syms(Seq::<u8>::empty(), b) == Seq::<u8>::empty());
        assert(spec_bytes_to_syms(data.take(0), b) =~= Seq::<u8>::empty());
        assert(spec_bytes_to_syms(one, b) == byte_syms(one[0], b) + spec_bytes_to_syms(
            one.skip(1),
            b,
        ));
        assert(byte_syms(data[0], b) + Seq::<u8>::empty() =~= byte_syms(data[0], b));
    } else {
        let rest = data.skip(1);
        lemma_bytes_to_syms_snoc(rest, b, i - 1);
        assert(data.take(i + 1).skip(1) =~= rest.take(i));
        assert(data.take(i).skip(1) =~= rest.take(i - 1));
        assert(rest[i - 1] == data[i]);
        assert(spec_bytes_to_syms(data.take(i + 1), b) == byte_syms(data[0], b)
            + spec_bytes_to_syms(rest.take(i), b));
        assert(byte_syms(data[0], b) + (spec_bytes_to_syms(rest.take(i - 1), b) + byte_syms(
            data[i],
            b,
        )) =~= (byte_syms(data[0], b) + spec_bytes_to_syms(rest.take(i - 1), b)) + byte_syms(
            data[i],
            b,
        ));
    }
}

/// Folding a prefix of a byte's symbols rebuilds the byte's top bits.
proof fn lemma_fold_prefix(x: u8, b: int, j: int)
    requires
        width_ok(b),
        0 <= j <= syms_per_byte(b),
    ensures
        byte_of_group(byte_syms(x, b).take(j), b) == (x >> ((8 - b * j) as u8)) & low_mask(b * j),
    decreases j,
{
    lemma_width_product(b);
    let s = byte_syms(x, b);
    if j == 0 {
        assert(s.take(0) =~= Seq::<u8>::empty());
        assert((x >> 8u8) & (0xffu8 >> 8u8) == 0) by (bit_vector);
    } else {
        lemma_fold_prefix(x, b, j - 1);
        assert(s.take(j).drop_last() =~= s.take(j - 1));
        assert(s.take(j).last() == sym_of_byte(x, b, j - 1));
        let bb = b as u8;
        let kk = (b * (j - 1)) as u8;
        assert(b * j == b * (j - 1) + b) by (nonlinear_arith);
        assert(b * (j - 1) >= 0) by (nonlinear_arith)
            requires
                b >= 1 && j >= 1,
        ;
        assert(b * j <= 8) by {
            assert(b * j <= b * syms_per_byte(b)) by (nonlinear_arith)
                requires
                    b >= 1 && j <= syms_per_byte(b),
            ;
        }
        assert((((x >> ((8 - kk) as u8)) & (0xffu8 >> ((8 - kk) as u8))) << bb) | ((x >> ((8 - (kk
            + bb)) as u8)) & (0xffu8 >> ((8 - bb) as u8))) == (x >> ((8 - (kk + bb)) as u8)) & (
        0xffu8 >> ((8 - (kk + bb)) as u8))) by (bit_vector)
            requires
                (bb == 1 || bb == 2 || bb == 4 || bb == 8) && kk + bb <= 8,
        ;
    }
}

/// Folding all symbols of a byte yields the byte again.
pub proof fn lemma_byte_round_trip(x: u8, b: int)
    requires
        width_ok(b),
    ensures
        byte_of_group(byte_syms(x, b), b) == x,
{
    lemma_width_product(b);
    let g = syms_per_byte(b);
    lemma_fold_prefix(x, b, g);
    assert(byte_syms(x, b).take(g) =~= byte_syms(x, b));
    assert((x >> 0u8) & (0xffu8 >> 0u8) == x) by (bit_vector);
}

/// Unpacking a byte sequence into symbols and folding the symbols back
/// yields the byte sequence unchanged, at every accepted width.
pub proof fn lemma_packer_round_trip(data: Seq<u8>, b: int)
    requires
        width_ok(b),
    ensures
        spec_syms_to_bytes(spec_bytes_to_syms(data, b), b) == data,
    decreases data.len(),
{
    lemma_width_product(b);
    let g = syms_per_byte(b);
    if data.len() == 0 {
        assert(spec_syms_to_bytes(Seq::<u8>::empty(), b) =~= Seq::<u8>::empty());
        assert(spec_bytes_to_syms(data, b) =~= Seq::<u8>::empty());
        assert(data =~= Seq::<u8>::empty());
    } else {
        let s = spec_bytes_to_syms(data, b);
        let first = byte_syms(data[0], b);
        let rest = spec_bytes_to_syms(data.skip(1), b);
        lemma_bytes_to_syms_len(data.skip(1), b);
        assert(s == first + rest);
        assert(s.take(g) =~= first);
        assert(s.skip(g) =~= rest);
        lemma_byte_round_trip(data[0], b);
        lemma_packer_round_trip(data.skip(1), b);
        assert(seq![data[0]] + data.skip(1) =~= data);
    }
}

/// Recombination distributes over a split at a whole number of groups.
pub proof fn lemma_syms_to_bytes_concat(u: Seq<u8>, v: Seq<u8>, b: int)
    requires
        width_ok(b),
        (u.len() as int) % syms_per_byte(b) == 0,
    ensures
        spec_syms_to_bytes(u + v, b) == spec_syms_to_bytes(u, b) + spec_syms_to_bytes(v, b),
    decreases u.len(),
{
    lemma_width_product(b);
    let g = syms_per_byte(b);
    if u.len() == 0 {
        assert(u + v =~= v);
        assert(spec_syms_to_bytes(u, b) =~= Seq::<u8>::empty());
    } else {
        assert(u.len() >= g) by {
            if u.len() < g {
                vstd::arithmetic::div_mod::lemma_small_mod(u.len(), g as nat);
            }
        }
        assert((u + v).take(g) =~= u.take(g));
        assert((u + v).skip(g) =~= u.skip(g) + v);
        assert(u.skip(g).len() == u.len() - g);
        assert((u.len() - g) % g == 0) by {
            vstd::arithmetic::div_mod::lemma_mod_sub_multiples_vanish(u.len() as int, g);
        }
        lemma_syms_to_bytes_concat(u.skip(g), v, b);
        assert(spec_syms_to_bytes(u, b) == seq![byte_of_group(u.take(g), b)] + spec_syms_to_bytes(
            u.skip(g),
            b,
        ));
        assert(seq![byte_of_group(u.take(g), b)] + (spec_syms_to_bytes(u.skip(g), b)
            + spec_syms_to_bytes(v, b)) =~= (seq![byte_of_group(u.take(g), b)] + spec_syms_to_bytes(
            u.skip(g),
            b,
        )) + spec_syms_to_bytes(v, b));
    }
}

} // verus!
