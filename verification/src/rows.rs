use vstd::prelude::*;

verus! {

use vstd::arithmetic::div_mod::lemma_fundamental_div_mod;

/// The bit of a bit-packed row at bit position `b`: bit `b % 8` of byte
/// `b / 8`, as 0 or 1.
pub open spec fn bit_of(row: Seq<u8>, b: int) -> u8 {
    (row[b / 8] >> ((b % 8) as usize)) & 1
}

/// Every listed slot index has its bit set in the row.
pub open spec fn all_bits_set(row: Seq<u8>, idxs: Seq<usize>) -> bool {
    forall|i: int| 0 <= i < idxs.len() ==> bit_of(row, #[trigger] idxs[i] as int) == 1
}

/// Every listed slot index holds a non-zero counter in the row.
pub open spec fn all_counters_positive(row: Seq<u8>, idxs: Seq<usize>) -> bool {
    forall|i: int| 0 <= i < idxs.len() ==> row[#[trigger] idxs[i] as int] > 0
}

/// Some index among the first `n` of `idxs` equals `b`.
pub open spec fn hits_upto(idxs: Seq<usize>, n: int, b: usize) -> bool {
    exists|j: int| 0 <= j < n && idxs[j] == b
}

/// Some index in `idxs` equals `b`.
pub open spec fn hits(idxs: Seq<usize>, b: usize) -> bool {
    hits_upto(idxs, idxs.len() as int, b)
}

/// Number of occurrences of `s` among the first `n` indices of `idxs`.
pub open spec fn occ_upto(idxs: Seq<usize>, n: int, s: usize) -> nat
    decreases n,
{
    if n <= 0 {
        0
    } else {
        occ_upto(idxs, n - 1, s) + (if idxs[n - 1] == s {
            1nat
        } else {
            0nat
        })
    }
}

/// Number of occurrences of `s` in `idxs`: a slot hit by several sub-hashes
/// of one key counts once per sub-hash.
pub open spec fn occ(idxs: Seq<usize>, s: usize) -> nat {
    occ_upto(idxs, idxs.len() as int, s)
}

/// An index that occurs at all occurs at least once in the count.
pub proof fn lemma_hit_occurs(idxs: Seq<usize>, n: int, s: usize)
    requires
        0 <= n <= idxs.len(),
        hits_upto(idxs, n, s),
    ensures
        occ_upto(idxs, n, s) >= 1,
    decreases n,
{
    if n > 0 && idxs[n - 1] != s {
        lemma_hit_occurs(idxs, n - 1, s);
    }
}

/// The relation between a bit-packed row before and after OR-ing in the bits
/// at the listed slot indices: listed bits read 1, all others are unchanged.
pub open spec fn set_bits_spec(pre: Seq<u8>, post: Seq<u8>, idxs: Seq<usize>, w: usize) -> bool {
    &&& post.len() == pre.len()
    &&& forall|b: usize|
        b < w ==> #[trigger] bit_of(post, b as int) == (if hits(idxs, b) {
            1u8
        } else {
            bit_of(pre, b as int)
        })
}

/// The relation between a counter row before and after incrementing the
/// counter at each listed slot index once per occurrence, wrapping at 255.
pub open spec fn inc_counters_spec(pre: Seq<u8>, post: Seq<u8>, idxs: Seq<usize>, w: usize) -> bool {
    &&& post.len() == pre.len()
    &&& forall|s: usize|
        s < w ==> (#[trigger] post[s as int]) as int == (pre[s as int] + occ(idxs, s)) % 256
}

/// The relation between a counter row before and after decrementing the
/// counter at each listed slot index once per occurrence, wrapping at 0.
pub open spec fn dec_counters_spec(pre: Seq<u8>, post: Seq<u8>, idxs: Seq<usize>, w: usize) -> bool {
    &&& post.len() == pre.len()
    &&& forall|s: usize|
        s < w ==> (#[trigger] post[s as int]) as int == (pre[s as int] - occ(idxs, s)) % 256
}

/// OR-ing `1 << (t % 8)` into byte `t / 8` sets exactly bit `t` of the row:
/// position `t` reads 1, and every other position is unchanged.
pub proof fn lemma_set_bit_effect(byte: u8, s: usize, t: usize)
    requires
        s < 8,
        t < 8,
    ensures
        ((byte | (1u8 << s)) >> s) & 1 == 1,
        s != t ==> ((byte | (1u8 << s)) >> t) & 1 == (byte >> t) & 1,
{
    assert(((byte | (1u8 << s)) >> s) & 1 == 1) by (bit_vector)
        requires
            s < 8,
    ;
    assert(s != t ==> ((byte | (1u8 << s)) >> t) & 1 == (byte >> t) & 1) by (bit_vector)
        requires
            s < 8 && t < 8,
    ;
}

/// Two bit positions of one row agree exactly when they pick the same byte
/// and the same bit of that byte.
pub proof fn lemma_bit_position_eq(b: usize, c: usize)
    ensures
        b == c <==> (b / 8 == c / 8 && b % 8 == c % 8),
{
    lemma_fundamental_div_mod(b as int, 8);
    lemma_fundamental_div_mod(c as int, 8);
}

/// Every bit of a zero byte reads 0.
pub proof fn lemma_zero_byte_bit(s: usize)
    requires
        s < 8,
    ensures
        (0u8 >> s) & 1 == 0,
{
    assert((0u8 >> s) & 1 == 0) by (bit_vector)
        requires
            s < 8,
    ;
}

/// A byte is determined by its eight bits.
proof fn lemma_byte_from_bits(a: u8, b: u8)
    requires
        (a >> 0usize) & 1 == (b >> 0usize) & 1,
        (a >> 1usize) & 1 == (b >> 1usize) & 1,
        (a >> 2usize) & 1 == (b >> 2usize) & 1,
        (a >> 3usize) & 1 == (b >> 3usize) & 1,
        (a >> 4usize) & 1 == (b >> 4usize) & 1,
        (a >> 5usize) & 1 == (b >> 5usize) & 1,
        (a >> 6usize) & 1 == (b >> 6usize) & 1,
        (a >> 7usize) & 1 == (b >> 7usize) & 1,
    ensures
        a == b,
{
    assert(a == b) by (bit_vector)
        requires
            (a >> 0usize) & 1 == (b >> 0usize) & 1,
            (a >> 1usize) & 1 == (b >> 1usize) & 1,
            (a >> 2usize) & 1 == (b >> 2usize) & 1,
            (a >> 3usize) & 1 == (b >> 3usize) & 1,
            (a >> 4usize) & 1 == (b >> 4usize) & 1,
            (a >> 5usize) & 1 == (b >> 5usize) & 1,
            (a >> 6usize) & 1 == (b >> 6usize) & 1,
            (a >> 7usize) & 1 == (b >> 7usize) & 1,
    ;
}

/// Setting bits is idempotent: OR-ing the same slot indices into a row a
/// second time leaves the row of the first application unchanged.
pub proof fn lemma_set_bits_idempotent(
    pre: Seq<u8>,
    mid: Seq<u8>,
    post: Seq<u8>,
    idxs: Seq<usize>,
    w: usize,
)
    requires
        pre.len() == w / 8,
        w % 8 == 0,
        set_bits_spec(pre, mid, idxs, w),
        set_bits_spec(mid, post, idxs, w),
    ensures
        post == mid,
{
    assert forall|j: int| 0 <= j < mid.len() implies post[j] == mid[j] by {
        assert forall|t: usize| t < 8 implies (post[j] >> t) & 1 == (mid[j] >> t) & 1 by {
            let b = (8 * j + t) as usize;
            assert(b < w);
            assert(b as int / 8 == j && b as int % 8 == t);
            assert(bit_of(post, b as int) == bit_of(mid, b as int));
        };
        lemma_byte_from_bits(post[j], mid[j]);
    };
    assert(post =~= mid);
}

/// A row of `n` zero bytes.
pub(crate) fn zeroed_row(n: usize) -> (r: Vec<u8>)
    ensures
        r@.len() == n,
        forall|j: int| 0 <= j < n ==> r@[j] == 0,
{
    let mut r: Vec<u8> = Vec::new();
    while r.len() < n
        invariant
            r@.len() <= n,
            forall|j: int| 0 <= j < r@.len() ==> r@[j] == 0,
        decreases n - r@.len(),
    {
        r.push(0);
    }
    r
}

} // verus!
