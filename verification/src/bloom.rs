use vstd::prelude::*;

verus! {

use vstd::arithmetic::div_mod::lemma_fundamental_div_mod;
use vstd::arithmetic::logarithm::log;
use vstd::arithmetic::power2::pow2;
use crate::hashing::digest_bytes;
use crate::hashing::digest_of_bytes;
use crate::hashing::digest_of_u64;
use crate::hashing::digest_u64;
use crate::indexing::derive_indices;
use crate::indexing::row_bits_of_len;
use crate::indexing::row_index_of;
use crate::indexing::slot_indices_of;
use crate::indexing::valid_config;
use crate::indexing::lemma_row_index_bound;
use crate::rows::all_bits_set;
use crate::rows::bit_of;
use crate::rows::hits;
use crate::rows::hits_upto;
use crate::rows::lemma_bit_position_eq;
use crate::rows::lemma_set_bit_effect;
use crate::rows::lemma_zero_byte_bit;
use crate::rows::set_bits_spec;
use crate::rows::zeroed_row;

/// The state change of one insertion: the configuration and every row other
/// than the one digest `d` selects are unchanged, and within that row the
/// bits `d` selects are set while all others are untouched.
pub open spec fn set_applied(pre: Bloom1X, post: Bloom1X, d: (u32, u32, u32)) -> bool {
    &&& post.same_config(pre)
    &&& post.filter@.len() == pre.filter@.len()
    &&& forall|r: int|
        0 <= r < pre.filter@.len() && r != pre.digest_row(d) ==> post.row(r) == pre.row(r)
    &&& set_bits_spec(
        pre.row(pre.digest_row(d) as int),
        post.row(pre.digest_row(d) as int),
        pre.digest_slots(d),
        pre.w,
    )
}

/// The binary filter variant: `l` rows of `w` bits, each bit-packed into
/// `w / 8` bytes. Membership of a key is the AND of the `k` bits its digest
/// selects within one row.
#[derive(Debug)]
pub struct Bloom1X {
    /// number of sub-hashes per key
    pub k: usize,
    /// number of rows in the filter
    pub l: usize,
    /// width of a row in bits
    pub w: usize,
    /// number of digest bits consumed by the row selector
    pub row_bits: usize,
    /// number of digest bits consumed by each sub-hash
    pub hash_bits: usize,
    /// the bit-packed rows
    pub filter: Vec<Vec<u8>>,
}

/// The reusable token of one binary-variant query: the row and bit positions
/// derived from a key's digest, and the AND of the bits read there.
#[derive(Debug, Clone)]
pub struct QueryResult {
    /// the bit position inside the row chosen by each sub-hash, in
    /// hash-iteration order, duplicates preserved
    pub bit_indexes: Vec<usize>,
    /// the row index inside the filter
    pub row_index: usize,
    /// 1 when every selected bit was set at query time, else 0
    pub and_result: u8,
}

impl Bloom1X {
    /// The structural invariant: a coherent configuration and `l` rows of
    /// `w / 8` bytes each.
    pub open spec fn wf(self) -> bool {
        &&& 2 <= self.k
        &&& 32 <= self.w <= 256
        &&& self.w % 8 == 0
        &&& 10 <= self.row_bits <= 31
        &&& self.l as nat == pow2(self.row_bits as nat)
        &&& 1 <= self.hash_bits
        &&& self.k * self.hash_bits + self.row_bits <= 96
        &&& self.filter@.len() == self.l
        &&& forall|r: int|
            0 <= r < self.filter@.len() ==> (#[trigger] self.filter@[r])@.len() == self.w / 8
    }

    /// The bytes of row `r`.
    pub open spec fn row(self, r: int) -> Seq<u8> {
        self.filter@[r]@
    }

    /// The row a digest selects.
    pub open spec fn digest_row(self, d: (u32, u32, u32)) -> usize {
        row_index_of(d.2, self.row_bits)
    }

    /// The `k` bit positions a digest selects within its row.
    pub open spec fn digest_slots(self, d: (u32, u32, u32)) -> Seq<usize> {
        slot_indices_of(d.0, d.1, d.2, self.k, self.w, self.row_bits, self.hash_bits)
    }

    /// A digest is contained when every bit it selects is set.
    pub open spec fn contains_digest(self, d: (u32, u32, u32)) -> bool {
        all_bits_set(self.row(self.digest_row(d) as int), self.digest_slots(d))
    }

    /// The membership flag read at `row_index` for the given bit positions:
    /// 1 when every bit is set, else 0.
    pub open spec fn membership_at(self, row_index: usize, idxs: Seq<usize>) -> u8 {
        if all_bits_set(self.row(row_index as int), idxs) {
            1u8
        } else {
            0u8
        }
    }

    /// A token is usable with this filter: its row exists and each of its
    /// `k` bit positions lies inside a row.
    pub open spec fn fits(self, qr: QueryResult) -> bool {
        &&& (qr.row_index as int) < self.filter@.len()
        &&& qr.bit_indexes@.len() == self.k
        &&& forall|i: int| 0 <= i < qr.bit_indexes@.len() ==> #[trigger] qr.bit_indexes@[i] < self.w
    }

    /// A token is the query result of digest `d` against this filter state.
    pub open spec fn query_spec(self, d: (u32, u32, u32), qr: QueryResult) -> bool {
        &&& qr.row_index == self.digest_row(d)
        &&& qr.bit_indexes@ == self.digest_slots(d)
        &&& qr.and_result == self.membership_at(qr.row_index, qr.bit_indexes@)
    }

    /// Two filter states share one configuration.
    pub open spec fn same_config(self, other: Self) -> bool {
        &&& self.k == other.k
        &&& self.l == other.l
        &&& self.w == other.w
        &&& self.row_bits == other.row_bits
        &&& self.hash_bits == other.hash_bits
    }

    /// Every byte of every row is zero.
    pub open spec fn is_cleared(self) -> bool {
        forall|r: int, j: int|
            0 <= r < self.filter@.len() && 0 <= j < self.row(r).len() ==> #[trigger] self.row(r)[j]
                == 0
    }

    /// Builds a filter of `l` rows of `w` bits, every bit zero.
    ///
    /// `h` is the digest entropy consumed: the top `log2(l)` bits select the
    /// row and the rest divides evenly into `k` sub-hashes.
    pub fn new(k: usize, l: usize, w: usize, h: usize) -> (r: Self)
        requires
            valid_config(k, l, w, h),
        ensures
            r.wf(),
            r.k == k,
            r.l == l,
            r.w == w,
            r.row_bits == log(2, l as int),
            r.hash_bits as int == (h - log(2, l as int)) / (k as int),
            r.is_cleared(),
    {
        let row_bits = row_bits_of_len(l);
        let hash_bits = (h - row_bits) / k;
        proof {
            lemma_fundamental_div_mod((h - row_bits) as int, k as int);
            assert((h - row_bits) as int == k as int * hash_bits as int);
            assert(hash_bits >= 1 && k * hash_bits + row_bits == h) by (nonlinear_arith)
                requires
                    (h - row_bits) as int == k as int * hash_bits as int,
                    h as int - row_bits as int >= 1,
                    k >= 2,
                    hash_bits >= 0,
            ;
        }
        let mut filter: Vec<Vec<u8>> = Vec::new();
        while filter.len() < l
            invariant
                32 <= w <= 256,
                filter@.len() <= l,
                forall|r: int|
                    0 <= r < filter@.len() ==> (#[trigger] filter@[r])@.len() == w / 8,
                forall|r: int, j: int|
                    0 <= r < filter@.len() && 0 <= j < filter@[r]@.len()
                        ==> #[trigger] filter@[r]@[j] == 0,
            decreases l - filter@.len(),
        {
            let row = zeroed_row(w / 8);
            filter.push(row);
        }
        Bloom1X { k, l, w, row_bits, hash_bits, filter }
    }

    /// Zeroes every byte of every row, keeping the configuration.
    pub fn clear(&mut self)
        requires
            old(self).wf(),
        ensures
            final(self).wf(),
            final(self).same_config(*old(self)),
            final(self).is_cleared(),
    {
        let mut i: usize = 0;
        while i < self.l
            invariant
                self.wf(),
                self.same_config(*old(self)),
                i <= self.l,
                forall|r: int, j: int|
                    0 <= r < i && 0 <= j < self.row(r).len() ==> #[trigger] self.row(r)[j] == 0,
            decreases self.l - i,
        {
            let z = zeroed_row(self.w / 8);
            let ghost prev = *self;
            self.filter[i] = z;
            proof {
                assert forall|r: int, j: int|
                    0 <= r < i + 1 && 0 <= j < self.row(r).len() implies #[trigger] self.row(r)[j]
                    == 0 by {
                    if r == i as int {
                        assert(self.row(r) == z@);
                    } else {
                        assert(self.row(r) == prev.row(r));
                    }
                };
            }
            i = i + 1;
        }
    }

    /// Reads the AND of the bits at the given positions of one row: 1 when
    /// all are set, else 0.
    fn and_of_row(&self, row_index: usize, idxs: &Vec<usize>) -> (r: u8)
        requires
            self.wf(),
            (row_index as int) < self.filter@.len(),
            idxs@.len() == self.k,
            forall|i: int| 0 <= i < idxs@.len() ==> #[trigger] idxs@[i] < self.w,
        ensures
            r == self.membership_at(row_index, idxs@),
    {
        let row = &self.filter[row_index];
        let mut and_result: u8 = 1;
        let mut i: usize = 0;
        while i < self.k
            invariant
                self.wf(),
                (row_index as int) < self.filter@.len(),
                idxs@.len() == self.k,
                forall|j: int| 0 <= j < idxs@.len() ==> #[trigger] idxs@[j] < self.w,
                i <= self.k,
                row@ == self.row(row_index as int),
                and_result == 0 || and_result == 1,
                (and_result == 1) <==> (forall|j: int|
                    0 <= j < i ==> bit_of(row@, #[trigger] idxs@[j] as int) == 1),
            decreases self.k - i,
        {
            let bit_index = idxs[i];
            assert(bit_index / 8 < self.w / 8);
            let byte = row[bit_index / 8];
            let bit = (byte >> (bit_index % 8)) & 1;
            proof {
                assert(bit == bit_of(row@, bit_index as int));
                assert(bit == 0 || bit == 1) by (bit_vector)
                    requires
                        bit == (byte >> (bit_index % 8)) & 1,
                ;
                assert((and_result & bit == 1) <==> (and_result == 1 && bit == 1))
                    by (bit_vector)
                    requires
                        and_result <= 1,
                        bit <= 1,
                ;
                assert(and_result & bit == 0 || and_result & bit == 1) by (bit_vector)
                    requires
                        and_result <= 1,
                        bit <= 1,
                ;
            }
            and_result = and_result & bit;
            i = i + 1;
        }
        and_result
    }

    /// Re-reads the current filter state at a token's stored indices and
    /// recomputes the membership flag, without rehashing.
    pub fn query_by_result(&self, qr: &QueryResult) -> (r: u8)
        requires
            self.wf(),
            self.fits(*qr),
        ensures
            r == self.membership_at(qr.row_index, qr.bit_indexes@),
    {
        self.and_of_row(qr.row_index, &qr.bit_indexes)
    }

    /// Slices a digest into row and bit positions and reads the membership
    /// flag there.
    fn parse_hash(&self, d: (u32, u32, u32)) -> (qr: QueryResult)
        requires
            self.wf(),
        ensures
            self.query_spec(d, qr),
            self.fits(qr),
    {
        let (row_index, bit_indexes) = derive_indices(
            d.0,
            d.1,
            d.2,
            self.k,
            self.w,
            self.row_bits,
            self.hash_bits,
        );
        let and_result = self.and_of_row(row_index, &bit_indexes);
        QueryResult { bit_indexes, row_index, and_result }
    }

    /// Queries membership of a byte-sequence key of at most 12 bytes:
    /// returns 1 when every bit its digest selects is set, else 0.
    pub fn query_bytes(&self, bytes: &[u8]) -> (r: u8)
        requires
            self.wf(),
            bytes@.len() <= 12,
        ensures
            r == (if self.contains_digest(digest_of_bytes(bytes@)) {
                1u8
            } else {
                0u8
            }),
    {
        let d = digest_bytes(bytes);
        let qr = self.parse_hash(d);
        qr.and_result
    }

    /// Queries membership of a 32-bit key, hashed as its zero-extended
    /// 64-bit encoding: returns 1 when found, else 0.
    pub fn query_u32(&self, key: u32) -> (r: u8)
        requires
            self.wf(),
        ensures
            r == (if self.contains_digest(digest_of_u64(key as u64)) {
                1u8
            } else {
                0u8
            }),
    {
        let d = digest_u64(key as u64);
        let qr = self.parse_hash(d);
        qr.and_result
    }

    /// Queries membership of a 64-bit key: returns 1 when found, else 0.
    pub fn query_u64(&self, key: u64) -> (r: u8)
        requires
            self.wf(),
        ensures
            r == (if self.contains_digest(digest_of_u64(key)) {
                1u8
            } else {
                0u8
            }),
    {
        let d = digest_u64(key);
        let qr = self.parse_hash(d);
        qr.and_result
    }

    /// Queries a byte-sequence key and returns the full token, reusable for
    /// `query_by_result` and `update_filter` without rehashing.
    pub fn query_bytes_with_result(&self, bytes: &[u8]) -> (qr: QueryResult)
        requires
            self.wf(),
            bytes@.len() <= 12,
        ensures
            self.query_spec(digest_of_bytes(bytes@), qr),
            self.fits(qr),
    {
        let d = digest_bytes(bytes);
        self.parse_hash(d)
    }

    /// Queries a 64-bit key and returns the full token.
    pub fn query_u64_with_result(&self, key: u64) -> (qr: QueryResult)
        requires
            self.wf(),
        ensures
            self.query_spec(digest_of_u64(key), qr),
            self.fits(qr),
    {
        let d = digest_u64(key);
        self.parse_hash(d)
    }

    /// Sets the bit at each of a token's `k` positions in its row, without
    /// rehashing. OR-only and idempotent: no other bit changes.
    pub fn update_filter(&mut self, qr: &QueryResult)
        requires
            old(self).wf(),
            old(self).fits(*qr),
        ensures
            final(self).wf(),
            final(self).same_config(*old(self)),
            final(self).filter@.len() == old(self).filter@.len(),
            forall|r: int|
                0 <= r < old(self).filter@.len() && r != qr.row_index ==> final(self).row(r)
                    == old(self).row(r),
            set_bits_spec(
                old(self).row(qr.row_index as int),
                final(self).row(qr.row_index as int),
                qr.bit_indexes@,
                old(self).w,
            ),
            all_bits_set(final(self).row(qr.row_index as int), qr.bit_indexes@),
    {
        let row_index = qr.row_index;
        let ghost pre = *self;
        let mut i: usize = 0;
        while i < self.k
            invariant
                self.wf(),
                self.same_config(pre),
                pre.wf(),
                pre.fits(*qr),
                row_index == qr.row_index,
                self.filter@.len() == pre.filter@.len(),
                i <= self.k,
                forall|r: int|
                    0 <= r < pre.filter@.len() && r != row_index ==> self.row(r) == pre.row(r),
                self.row(row_index as int).len() == pre.row(row_index as int).len(),
                forall|b: usize|
                    b < self.w ==> #[trigger] bit_of(self.row(row_index as int), b as int) == (
                    if hits_upto(qr.bit_indexes@, i as int, b) {
                        1u8
                    } else {
                        bit_of(pre.row(row_index as int), b as int)
                    }),
            decreases self.k - i,
        {
            let bit_index = qr.bit_indexes[i];
            let byte_index = bit_index / 8;
            assert(byte_index < self.w / 8);
            let before_byte = self.filter[row_index][byte_index];
            let nb = before_byte | (1u8 << (bit_index % 8));
            let ghost before = *self;
            let row = &mut self.filter[row_index];
            row[byte_index] = nb;
            proof {
                assert(self.row(row_index as int) == before.row(row_index as int).update(
                    byte_index as int,
                    nb,
                ));
                assert forall|b: usize|
                    b < self.w implies #[trigger] bit_of(self.row(row_index as int), b as int)
                    == (if hits_upto(qr.bit_indexes@, i + 1, b) {
                        1u8
                    } else {
                        bit_of(pre.row(row_index as int), b as int)
                    }) by {
                    lemma_bit_position_eq(b, bit_index);
                    lemma_set_bit_effect(before_byte, bit_index % 8, b % 8);
                    assert(bit_of(before.row(row_index as int), b as int) == (if hits_upto(
                        qr.bit_indexes@,
                        i as int,
                        b,
                    ) {
                        1u8
                    } else {
                        bit_of(pre.row(row_index as int), b as int)
                    }));
                    assert(hits_upto(qr.bit_indexes@, i + 1, b) <==> (hits_upto(
                        qr.bit_indexes@,
                        i as int,
                        b,
                    ) || qr.bit_indexes@[i as int] == b));
                    assert(before_byte == before.row(row_index as int)[byte_index as int]);
                    if b / 8 == byte_index {
                        assert(self.row(row_index as int)[b as int / 8] == nb);
                        assert(bit_of(self.row(row_index as int), b as int) == ((before_byte | (
                        1u8 << (bit_index % 8))) >> (b % 8)) & 1);
                        if b % 8 == bit_index % 8 {
                            assert(b == bit_index);
                            assert(bit_of(self.row(row_index as int), b as int) == 1);
                            assert(hits_upto(qr.bit_indexes@, i + 1, b));
                        } else {
                            assert(bit_of(self.row(row_index as int), b as int) == (before_byte
                                >> (b % 8)) & 1);
                            assert(bit_of(self.row(row_index as int), b as int) == bit_of(
                                before.row(row_index as int),
                                b as int,
                            ));
                        }
                    } else {
                        assert(self.row(row_index as int)[b as int / 8] == before.row(
                            row_index as int,
                        )[b as int / 8]);
                        assert(bit_of(self.row(row_index as int), b as int) == bit_of(
                            before.row(row_index as int),
                            b as int,
                        ));
                    }
                };
            }
            i = i + 1;
        }
        proof {
            assert forall|j: int|
                0 <= j < qr.bit_indexes@.len() implies bit_of(
                self.row(row_index as int),
                #[trigger] qr.bit_indexes@[j] as int,
            ) == 1 by {
                assert(hits_upto(qr.bit_indexes@, self.k as int, qr.bit_indexes@[j]));
            };
        }
    }

    /// Queries a byte-sequence key, then sets its bits: the canonical
    /// insert-or-detect-duplicate operation. Returns the membership flag
    /// computed before the bits were set.
    pub fn query_and_set_bytes(&mut self, bytes: &[u8]) -> (r: u8)
        requires
            old(self).wf(),
            bytes@.len() <= 12,
        ensures
            final(self).wf(),
            final(self).same_config(*old(self)),
            r == (if old(self).contains_digest(digest_of_bytes(bytes@)) {
                1u8
            } else {
                0u8
            }),
            set_applied(*old(self), *final(self), digest_of_bytes(bytes@)),
            final(self).contains_digest(digest_of_bytes(bytes@)),
    {
        let d = digest_bytes(bytes);
        let qr = self.parse_hash(d);
        let result = qr.and_result;
        self.update_filter(&qr);
        result
    }

    /// Queries a 32-bit key (hashed as its zero-extended 64-bit encoding),
    /// then sets its bits. Returns the pre-mutation membership flag.
    pub fn query_and_set_u32(&mut self, key: u32) -> (r: u8)
        requires
            old(self).wf(),
        ensures
            final(self).wf(),
            final(self).same_config(*old(self)),
            r == (if old(self).contains_digest(digest_of_u64(key as u64)) {
                1u8
            } else {
                0u8
            }),
            set_applied(*old(self), *final(self), digest_of_u64(key as u64)),
            final(self).contains_digest(digest_of_u64(key as u64)),
    {
        let d = digest_u64(key as u64);
        let qr = self.parse_hash(d);
        let result = qr.and_result;
        self.update_filter(&qr);
        result
    }

    /// Queries a 64-bit key, then sets its bits. Returns the pre-mutation
    /// membership flag.
    pub fn query_and_set_u64(&mut self, key: u64) -> (r: u8)
        requires
            old(self).wf(),
        ensures
            final(self).wf(),
            final(self).same_config(*old(self)),
            r == (if old(self).contains_digest(digest_of_u64(key)) {
                1u8
            } else {
                0u8
            }),
            set_applied(*old(self), *final(self), digest_of_u64(key)),
            final(self).contains_digest(digest_of_u64(key)),
    {
        let d = digest_u64(key);
        let qr = self.parse_hash(d);
        let result = qr.and_result;
        self.update_filter(&qr);
        result
    }
}

/// The slot indices a digest selects are always inside a row, and its row
/// index inside the filter.
pub proof fn lemma_digest_slots_in_range(f: Bloom1X, d: (u32, u32, u32))
    requires
        f.wf(),
    ensures
        f.digest_slots(d).len() == f.k,
        forall|i: int| 0 <= i < f.digest_slots(d).len() ==> #[trigger] f.digest_slots(d)[i] < f.w,
        (f.digest_row(d) as int) < f.filter@.len(),
{
    lemma_row_index_bound(d.2, f.row_bits);
}

/// Inserting a key makes it a member: once the bits of digest `d` are set,
/// the filter contains `d`.
pub proof fn lemma_set_makes_member(pre: Bloom1X, post: Bloom1X, d: (u32, u32, u32))
    requires
        pre.wf(),
        set_applied(pre, post, d),
    ensures
        post.contains_digest(d),
{
    lemma_digest_slots_in_range(pre, d);
    let idxs = pre.digest_slots(d);
    assert forall|i: int|
        0 <= i < idxs.len() implies bit_of(
        post.row(post.digest_row(d) as int),
        #[trigger] idxs[i] as int,
    ) == 1 by {
        assert(hits(idxs, idxs[i]));
    };
}

/// No false negatives: a filter that contains digest `d` still contains it
/// after an insertion of any digest `e` — the same key or another — is
/// applied. Set bits are never cleared by insertion.
pub proof fn lemma_member_preserved_by_set(
    pre: Bloom1X,
    post: Bloom1X,
    d: (u32, u32, u32),
    e: (u32, u32, u32),
)
    requires
        pre.wf(),
        pre.contains_digest(d),
        set_applied(pre, post, e),
    ensures
        post.contains_digest(d),
{
    lemma_digest_slots_in_range(pre, d);
    lemma_digest_slots_in_range(pre, e);
    let idxs = pre.digest_slots(d);
    if pre.digest_row(d) == pre.digest_row(e) {
        assert forall|i: int|
            0 <= i < idxs.len() implies bit_of(
            post.row(post.digest_row(d) as int),
            #[trigger] idxs[i] as int,
        ) == 1 by {
            assert(bit_of(pre.row(pre.digest_row(d) as int), idxs[i] as int) == 1);
        };
    } else {
        assert(post.row(post.digest_row(d) as int) == pre.row(pre.digest_row(d) as int));
    }
}

/// Insertion is idempotent: applying the bits of digest `d` a second time
/// leaves every row exactly as the first application left it.
pub proof fn lemma_set_idempotent(pre: Bloom1X, mid: Bloom1X, post: Bloom1X, d: (u32, u32, u32))
    requires
        pre.wf(),
        set_applied(pre, mid, d),
        set_applied(mid, post, d),
    ensures
        forall|r: int| 0 <= r < pre.filter@.len() ==> #[trigger] post.row(r) == mid.row(r),
{
    lemma_digest_slots_in_range(pre, d);
    let rr = pre.digest_row(d) as int;
    assert forall|r: int| 0 <= r < pre.filter@.len() implies #[trigger] post.row(r) == mid.row(
        r,
    ) by {
        if r == rr {
            crate::rows::lemma_set_bits_idempotent(
                pre.row(rr),
                mid.row(rr),
                post.row(rr),
                pre.digest_slots(d),
                pre.w,
            );
        }
    };
}

/// A cleared filter contains nothing: every membership query on an all-zero
/// filter reports absent.
pub proof fn lemma_cleared_contains_nothing(f: Bloom1X, d: (u32, u32, u32))
    requires
        f.wf(),
        f.is_cleared(),
    ensures
        !f.contains_digest(d),
{
    lemma_digest_slots_in_range(f, d);
    let idxs = f.digest_slots(d);
    let b = idxs[0];
    assert(f.row(f.digest_row(d) as int)[b as int / 8] == 0);
    lemma_zero_byte_bit(b % 8);
    assert(bit_of(f.row(f.digest_row(d) as int), b as int) == 0);
}

/// Rechecking a token is idempotent: two recheck results computed against
/// one filter state, with no mutation in between, are equal.
pub proof fn lemma_recheck_idempotent(f: Bloom1X, qr: QueryResult, r1: u8, r2: u8)
    requires
        r1 == f.membership_at(qr.row_index, qr.bit_indexes@),
        r2 == f.membership_at(qr.row_index, qr.bit_indexes@),
    ensures
        r1 == r2,
{
}

} // verus!
