use vstd::prelude::*;

verus! {

use vstd::arithmetic::div_mod::lemma_fundamental_div_mod;
use vstd::arithmetic::logarithm::lemma_log_pow;
use vstd::arithmetic::logarithm::log;
use vstd::arithmetic::power2::is_pow2;
use vstd::arithmetic::power2::lemma2_to64;
use vstd::arithmetic::power2::lemma_pow2_strictly_increases;
use vstd::arithmetic::power2::lemma_pow2_unfold;
use vstd::arithmetic::power2::pow2;
use vstd::arithmetic::mul::lemma_mul_inequality;
use vstd::bits::lemma_u32_shl_is_mul;

/// A valid filter configuration: `k` sub-hashes (at least 2), `l` rows (a
/// power of two, at least 1024, below `u32::MAX`), a row width `w` of 32 to
/// 256 slots in multiples of 8, and `h` digest entropy bits (more than 64,
/// at most the 96 bits one digest holds), with the entropy left after the
/// row selector dividing evenly among the `k` sub-hashes.
pub open spec fn valid_config(k: usize, l: usize, w: usize, h: usize) -> bool {
    &&& 2 <= k
    &&& 32 <= w <= 256
    &&& w % 8 == 0
    &&& 1024 <= l
    &&& (l as int) < u32::MAX as int
    &&& is_pow2(l as int)
    &&& 64 < h <= 96
    &&& (h - log(2, l as int)) % (k as int) == 0
}

/// The row selector: the top `row_bits` bits of the digest's high word.
pub open spec fn row_index_of(d2: u32, row_bits: usize) -> usize {
    (d2 >> (32 - row_bits)) as usize
}

/// The 128-bit scratch value holding the digest entropy left over after the
/// row selector is removed: `d0` in the lowest 32 bits, `d1` above it, and the
/// low `32 - row_bits` bits of `d2` contiguously above those.
pub open spec fn scratch_of(d0: u32, d1: u32, d2: u32, row_bits: usize) -> u128 {
    (d0 as u128) | ((d1 as u128) << 32) | (((d2 << row_bits) as u128) << (64 - row_bits))
}

/// Sub-hash number `i`: the full scratch value shifted down by
/// `i * hash_bits` bits, reduced modulo the row width `w`.
pub open spec fn slot_index_of(scr: u128, hash_bits: usize, w: usize, i: int) -> usize {
    ((scr >> (i * hash_bits)) % (w as u128)) as usize
}

/// The ordered slot indices of one digest: sub-hashes 0 through `k - 1`, in
/// hash-iteration order, duplicates preserved.
pub open spec fn slot_indices_of(
    d0: u32,
    d1: u32,
    d2: u32,
    k: usize,
    w: usize,
    row_bits: usize,
    hash_bits: usize,
) -> Seq<usize> {
    Seq::new(k as nat, |i: int| slot_index_of(scratch_of(d0, d1, d2, row_bits), hash_bits, w, i))
}

/// The row selector is always a valid row index: it is built from `row_bits`
/// bits, so it is below `pow2(row_bits)`.
pub proof fn lemma_row_index_bound(d2: u32, row_bits: usize)
    requires
        1 <= row_bits <= 31,
    ensures
        (row_index_of(d2, row_bits) as nat) < pow2(row_bits as nat),
{
    let rb = row_bits as u32;
    assert((d2 >> ((32 - rb) as u32)) < (1u32 << rb)) by (bit_vector)
        requires
            1 <= rb <= 31,
    ;
    assert(d2 >> ((32 - rb) as u32) == d2 >> (32 - row_bits));
    assert(pow2(row_bits as nat) <= 0x8000_0000) by {
        lemma2_to64();
        if row_bits < 31 {
            lemma_pow2_strictly_increases(row_bits as nat, 31);
        }
    }
    assert((1u32 << rb) == pow2(row_bits as nat)) by {
        lemma_u32_shl_is_mul(1u32, rb);
    }
}

/// The number of bits needed to select one of `l` rows, for `l` a power of
/// two: the exact base-2 logarithm of `l`.
pub(crate) fn row_bits_of_len(l: usize) -> (rb: usize)
    requires
        1024 <= l,
        (l as int) < u32::MAX as int,
        is_pow2(l as int),
    ensures
        rb == log(2, l as int),
        10 <= rb <= 31,
        l as nat == pow2(rb as nat),
{
    let mut x: usize = l;
    let mut rb: usize = 0;
    proof {
        lemma2_to64();
    }
    while x > 1
        invariant
            x >= 1,
            rb <= 31,
            is_pow2(x as int),
            l as nat == x as nat * pow2(rb as nat),
            (l as int) < u32::MAX as int,
        decreases x,
    {
        proof {
            reveal(is_pow2);
            lemma_fundamental_div_mod(x as int, 2);
            lemma_pow2_unfold((rb + 1) as nat);
            assert((x / 2) as nat * (2 * pow2(rb as nat)) == x as nat * pow2(rb as nat))
                by (nonlinear_arith)
                requires
                    x as int == 2 * ((x / 2) as int),
            ;
        }
        x = x / 2;
        rb = rb + 1;
        proof {
            assert(rb <= 31) by {
                if rb >= 32 {
                    assert(pow2(rb as nat) >= pow2(32)) by {
                        if rb > 32 {
                            lemma_pow2_strictly_increases(32, rb as nat);
                        }
                    }
                    lemma2_to64();
                    assert(l as nat >= 1 * pow2(rb as nat)) by (nonlinear_arith)
                        requires
                            x >= 1,
                            l as nat == x as nat * pow2(rb as nat),
                    ;
                }
            }
        }
    }
    proof {
        reveal(is_pow2);
        assert(l as nat == pow2(rb as nat));
        assert(rb >= 10) by {
            if rb < 10 {
                lemma_pow2_strictly_increases(rb as nat, 10);
                lemma2_to64();
            }
        }
        assert(l as int == vstd::arithmetic::power::pow(2, rb as nat)) by {
            vstd::arithmetic::power::lemma_pow_positive(2, rb as nat);
        }
        lemma_log_pow(2, rb as nat);
    }
    rb
}

/// Derives the row index and the `k` slot indices from one digest.
///
/// This is the shared slicing engine of both filter variants: the whole
/// digest is consumed exactly once, and duplicate slot indices are preserved
/// in hash-iteration order.
pub(crate) fn derive_indices(
    d0: u32,
    d1: u32,
    d2: u32,
    k: usize,
    w: usize,
    row_bits: usize,
    hash_bits: usize,
) -> (res: (usize, Vec<usize>))
    requires
        2 <= k,
        32 <= w <= 256,
        10 <= row_bits <= 31,
        1 <= hash_bits,
        k * hash_bits + row_bits <= 96,
    ensures
        res.0 == row_index_of(d2, row_bits),
        (res.0 as nat) < pow2(row_bits as nat),
        res.1@ == slot_indices_of(d0, d1, d2, k, w, row_bits, hash_bits),
        forall|i: int| 0 <= i < k ==> #[trigger] res.1@[i] < w,
{
    let row_index = (d2 >> (32 - row_bits)) as usize;
    proof {
        lemma_row_index_bound(d2, row_bits);
    }
    let high_bits = d2 << row_bits;
    let scratch: u128 = d0 as u128 | ((d1 as u128) << 32) | ((high_bits as u128) << (64
        - row_bits));
    assert(scratch == scratch_of(d0, d1, d2, row_bits));
    let ghost all = slot_indices_of(d0, d1, d2, k, w, row_bits, hash_bits);
    let mut slots: Vec<usize> = Vec::new();
    let mut i: usize = 0;
    while i < k
        invariant
            i <= k,
            2 <= k,
            32 <= w <= 256,
            1 <= hash_bits,
            k * hash_bits + row_bits <= 96,
            scratch == scratch_of(d0, d1, d2, row_bits),
            all == slot_indices_of(d0, d1, d2, k, w, row_bits, hash_bits),
            slots@.len() == i,
            forall|j: int| 0 <= j < i ==> #[trigger] slots@[j] == all[j],
            forall|j: int| 0 <= j < i ==> #[trigger] slots@[j] < w,
        decreases k - i,
    {
        proof {
            lemma_mul_inequality(i as int, k as int, hash_bits as int);
        }
        let sh = i * hash_bits;
        let slot = ((scratch >> sh) % (w as u128)) as usize;
        assert(slot == slot_index_of(scratch, hash_bits, w, i as int));
        slots.push(slot);
        i = i + 1;
    }
    assert(slots@ =~= all);
    (row_index, slots)
}

} // verus!
