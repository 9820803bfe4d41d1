use vstd::prelude::*;

verus! {

use vstd::arithmetic::div_mod::lemma_add_mod_noop;
use vstd::arithmetic::div_mod::lemma_fundamental_div_mod;
use vstd::arithmetic::div_mod::lemma_fundamental_div_mod_converse;
use vstd::arithmetic::div_mod::lemma_mod_self_0;
use vstd::arithmetic::div_mod::lemma_small_mod;
use vstd::arithmetic::div_mod::lemma_sub_mod_noop;
use vstd::arithmetic::logarithm::log;
use vstd::arithmetic::power2::pow2;
use crate::hashing::digest_bytes;
use crate::hashing::digest_of_bytes;
use crate::hashing::digest_of_u64;
use crate::hashing::digest_u64;
use crate::indexing::derive_indices;
use crate::indexing::lemma_row_index_bound;
use crate::indexing::row_bits_of_len;
use crate::indexing::row_index_of;
use crate::indexing::slot_indices_of;
use crate::indexing::valid_config;
use crate::rows::all_counters_positive;
use crate::rows::dec_counters_spec;
use crate::rows::hits;
use crate::rows::inc_counters_spec;
use crate::rows::lemma_hit_occurs;
use crate::rows::occ;
use crate::rows::occ_upto;
use crate::rows::zeroed_row;

/// The counting filter variant: `l` rows of `w` single-byte saturating
/// counters. Membership of a key is 1 exactly when every counter its digest
/// selects is non-zero; counters wrap silently at 255 and 0.
#[derive(Debug)]
pub struct Bloom1Counter {
    /// number of sub-hashes per key
    pub k: usize,
    /// number of rows in the filter
    pub l: usize,
    /// width of a row in counters
    pub w: usize,
    /// number of digest bits consumed by the row selector
    pub row_bits: usize,
    /// number of digest bits consumed by each sub-hash
    pub hash_bits: usize,
    /// the counter rows, one byte per counter
    pub filter: Vec<Vec<u8>>,
}

/// The reusable token of one counting-variant query: the row and counter
/// positions derived from a key's digest, the counter values read there, and
/// the aggregate membership flag.
#[derive(Debug, Clone)]
pub struct CounterResult {
    /// the counter position inside the row chosen by each sub-hash, in
    /// hash-iteration order, duplicates preserved
    pub counter_indexes: Vec<usize>,
    /// the counter values read at query time, one per sub-hash
    pub counters: Vec<u8>,
    /// the row index inside the filter
    pub row_index: usize,
    /// 1 when every selected counter was non-zero at query time, else 0
    pub and_result: u8,
}

impl Bloom1Counter {
    /// The structural invariant: a coherent configuration and `l` rows of
    /// `w` counters each.
    pub open spec fn wf(self) -> bool {
        &&& 2 <= self.k
        &&& 32 <= self.w <= 256
        &&& self.w % 8 == 0
        &&& 10 <= self.row_bits <= 31
        &&& self.l as nat == pow2(self.row_bits as nat)
        &&& 1 <= self.hash_bits
        &&& self.k * self.hash_bits + self.row_bits <= 96
        &&& self.filter@.len() == self.l
        &&& forall|r: int|
            0 <= r < self.filter@.len() ==> (#[trigger] self.filter@[r])@.len() == self.w
    }

    /// The counters of row `r`.
    pub open spec fn row(self, r: int) -> Seq<u8> {
        self.filter@[r]@
    }

    /// The row a digest selects.
    pub open spec fn digest_row(self, d: (u32, u32, u32)) -> usize {
        row_index_of(d.2, self.row_bits)
    }

    /// The `k` counter positions a digest selects within its row.
    pub open spec fn digest_slots(self, d: (u32, u32, u32)) -> Seq<usize> {
        slot_indices_of(d.0, d.1, d.2, self.k, self.w, self.row_bits, self.hash_bits)
    }

    /// A digest is contained when every counter it selects is non-zero.
    pub open spec fn contains_digest(self, d: (u32, u32, u32)) -> bool {
        all_counters_positive(self.row(self.digest_row(d) as int), self.digest_slots(d))
    }

    /// The membership flag read at `row_index` for the given counter
    /// positions: 1 when every counter is non-zero, else 0.
    pub open spec fn membership_at(self, row_index: usize, idxs: Seq<usize>) -> u8 {
        if all_counters_positive(self.row(row_index as int), idxs) {
            1u8
        } else {
            0u8
        }
    }

    /// A token is usable with this filter: its row exists and each of its
    /// `k` counter positions lies inside a row.
    pub open spec fn fits(self, qr: CounterResult) -> bool {
        &&& (qr.row_index as int) < self.filter@.len()
        &&& qr.counter_indexes@.len() == self.k
        &&& forall|i: int|
            0 <= i < qr.counter_indexes@.len() ==> #[trigger] qr.counter_indexes@[i] < self.w
    }

    /// A token is the query result of digest `d` against this filter state,
    /// counter snapshot included.
    pub open spec fn query_spec(self, d: (u32, u32, u32), qr: CounterResult) -> bool {
        &&& qr.row_index == self.digest_row(d)
        &&& qr.counter_indexes@ == self.digest_slots(d)
        &&& qr.counters@.len() == self.k
        &&& forall|i: int|
            0 <= i < qr.counters@.len() ==> #[trigger] qr.counters@[i] == self.row(
                qr.row_index as int,
            )[qr.counter_indexes@[i] as int]
        &&& qr.and_result == self.membership_at(qr.row_index, qr.counter_indexes@)
    }

    /// Two filter states share one configuration.
    pub open spec fn same_config(self, other: Self) -> bool {
        &&& self.k == other.k
        &&& self.l == other.l
        &&& self.w == other.w
        &&& self.row_bits == other.row_bits
        &&& self.hash_bits == other.hash_bits
    }

    /// Every counter of every row is zero.
    pub open spec fn is_cleared(self) -> bool {
        forall|r: int, j: int|
            0 <= r < self.filter@.len() && 0 <= j < self.row(r).len() ==> #[trigger] self.row(r)[j]
                == 0
    }

    /// Builds a filter of `l` rows of `w` counters, every counter zero.
    ///
    /// `h` is the digest entropy consumed: the top `log2(l)` bits select the
    /// row and the rest divides evenly into `k` sub-hashes.
    pub fn new(k: usize, l: usize, w: usize, h: usize) -> (r: Self)
        requires
            valid_config(k, l, w, h),
        ensures
            r.wf(),
            r.k == k,
            r.l == l,
            r.w == w,
            r.row_bits == log(2, l as int),
            r.hash_bits as int == (h - log(2, l as int)) / (k as int),
            r.is_cleared(),
    {
        let row_bits = row_bits_of_len(l);
        let hash_bits = (h - row_bits) / k;
        proof {
            lemma_fundamental_div_mod((h - row_bits) as int, k as int);
            assert((h - row_bits) as int == k as int * hash_bits as int);
            assert(hash_bits >= 1 && k * hash_bits + row_bits == h) by (nonlinear_arith)
                requires
                    (h - row_bits) as int == k as int * hash_bits as int,
                    h as int - row_bits as int >= 1,
                    k >= 2,
                    hash_bits >= 0,
            ;
        }
        let mut filter: Vec<Vec<u8>> = Vec::new();
        while filter.len() < l
            invariant
                32 <= w <= 256,
                filter@.len() <= l,
                forall|r: int| 0 <= r < filter@.len() ==> (#[trigger] filter@[r])@.len() == w,
                forall|r: int, j: int|
                    0 <= r < filter@.len() && 0 <= j < filter@[r]@.len()
                        ==> #[trigger] filter@[r]@[j] == 0,
            decreases l - filter@.len(),
        {
            let row = zeroed_row(w);
            filter.push(row);
        }
        Bloom1Counter { k, l, w, row_bits, hash_bits, filter }
    }

    /// Zeroes every counter of every row, keeping the configuration.
    pub fn clear(&mut self)
        requires
            old(self).wf(),
        ensures
            final(self).wf(),
            final(self).same_config(*old(self)),
            final(self).is_cleared(),
    {
        let mut i: usize = 0;
        while i < self.l
            invariant
                self.wf(),
                self.same_config(*old(self)),
                i <= self.l,
                forall|r: int, j: int|
                    0 <= r < i && 0 <= j < self.row(r).len() ==> #[trigger] self.row(r)[j] == 0,
            decreases self.l - i,
        {
            let z = zeroed_row(self.w);
            let ghost prev = *self;
            self.filter[i] = z;
            proof {
                assert forall|r: int, j: int|
                    0 <= r < i + 1 && 0 <= j < self.row(r).len() implies #[trigger] self.row(r)[j]
                    == 0 by {
                    if r == i as int {
                        assert(self.row(r) == z@);
                    } else {
                        assert(self.row(r) == prev.row(r));
                    }
                };
            }
            i = i + 1;
        }
    }

    /// Reads the membership flag at the given positions of one row, stopping
    /// at the first zero counter: 1 when all are non-zero, else 0.
    fn and_of_counters(&self, row_index: usize, idxs: &Vec<usize>) -> (r: u8)
        requires
            self.wf(),
            (row_index as int) < self.filter@.len(),
            idxs@.len() == self.k,
            forall|i: int| 0 <= i < idxs@.len() ==> #[trigger] idxs@[i] < self.w,
        ensures
            r == self.membership_at(row_index, idxs@),
    {
        let row = &self.filter[row_index];
        let mut and_result: u8 = 1;
        let mut i: usize = 0;
        while i < self.k
            invariant_except_break
                self.wf(),
                (row_index as int) < self.filter@.len(),
                idxs@.len() == self.k,
                forall|j: int| 0 <= j < idxs@.len() ==> #[trigger] idxs@[j] < self.w,
                i <= self.k,
                row@ == self.row(row_index as int),
                and_result == 1,
                forall|j: int| 0 <= j < i ==> row@[#[trigger] idxs@[j] as int] > 0,
            ensures
                and_result == self.membership_at(row_index, idxs@),
            decreases self.k - i,
        {
            let counter_index = idxs[i];
            let counter = row[counter_index];
            if counter == 0 {
                and_result = 0;
                assert(!all_counters_positive(self.row(row_index as int), idxs@));
                break ;
            }
            i = i + 1;
            proof {
                if i == self.k {
                    assert(all_counters_positive(self.row(row_index as int), idxs@));
                }
            }
        }
        and_result
    }

    /// Re-reads the current filter state at a token's stored indices and
    /// recomputes the membership flag, without rehashing.
    pub fn query_by_result(&self, qr: &CounterResult) -> (r: u8)
        requires
            self.wf(),
            self.fits(*qr),
        ensures
            r == self.membership_at(qr.row_index, qr.counter_indexes@),
    {
        self.and_of_counters(qr.row_index, &qr.counter_indexes)
    }

    /// Slices a digest into row and counter positions, snapshots the
    /// counters there and aggregates the membership flag.
    fn parse_hash(&self, d: (u32, u32, u32)) -> (qr: CounterResult)
        requires
            self.wf(),
        ensures
            self.query_spec(d, qr),
            self.fits(qr),
    {
        let (row_index, counter_indexes) = derive_indices(
            d.0,
            d.1,
            d.2,
            self.k,
            self.w,
            self.row_bits,
            self.hash_bits,
        );
        let row = &self.filter[row_index];
        let mut counters: Vec<u8> = Vec::new();
        let mut and_result: u8 = 1;
        let mut i: usize = 0;
        while i < self.k
            invariant
                self.wf(),
                (row_index as int) < self.filter@.len(),
                counter_indexes@.len() == self.k,
                forall|j: int| 0 <= j < counter_indexes@.len() ==> #[trigger] counter_indexes@[j]
                    < self.w,
                i <= self.k,
                row@ == self.row(row_index as int),
                counters@.len() == i,
                forall|j: int|
                    0 <= j < i ==> #[trigger] counters@[j] == row@[counter_indexes@[j] as int],
                and_result == 0 || and_result == 1,
                (and_result == 1) <==> (forall|j: int|
                    0 <= j < i ==> row@[#[trigger] counter_indexes@[j] as int] > 0),
            decreases self.k - i,
        {
            let counter_index = counter_indexes[i];
            let counter = row[counter_index];
            counters.push(counter);
            if counter == 0 {
                and_result = 0;
            }
            i = i + 1;
        }
        CounterResult { counter_indexes, counters, row_index, and_result }
    }

    /// Queries membership of a byte-sequence key of at most 12 bytes:
    /// returns 1 when every counter its digest selects is non-zero, else 0.
    pub fn query_bytes(&self, bytes: &[u8]) -> (r: u8)
        requires
            self.wf(),
            bytes@.len() <= 12,
        ensures
            r == (if self.contains_digest(digest_of_bytes(bytes@)) {
                1u8
            } else {
                0u8
            }),
    {
        let d = digest_bytes(bytes);
        let qr = self.parse_hash(d);
        qr.and_result
    }

    /// Queries membership of a 32-bit key, hashed as its zero-extended
    /// 64-bit encoding: returns 1 when found, else 0.
    pub fn query_u32(&self, key: u32) -> (r: u8)
        requires
            self.wf(),
        ensures
            r == (if self.contains_digest(digest_of_u64(key as u64)) {
                1u8
            } else {
                0u8
            }),
    {
        let d = digest_u64(key as u64);
        let qr = self.parse_hash(d);
        qr.and_result
    }

    /// Queries membership of a 64-bit key: returns 1 when found, else 0.
    pub fn query_u64(&self, key: u64) -> (r: u8)
        requires
            self.wf(),
        ensures
            r == (if self.contains_digest(digest_of_u64(key)) {
                1u8
            } else {
                0u8
            }),
    {
        let d = digest_u64(key);
        let qr = self.parse_hash(d);
        qr.and_result
    }

    /// Queries a byte-sequence key and returns the full token, reusable for
    /// `query_by_result`, `inc_counters` and `dec_counters` without
    /// rehashing.
    pub fn query_bytes_with_result(&self, bytes: &[u8]) -> (qr: CounterResult)
        requires
            self.wf(),
            bytes@.len() <= 12,
        ensures
            self.query_spec(digest_of_bytes(bytes@), qr),
            self.fits(qr),
    {
        let d = digest_bytes(bytes);
        self.parse_hash(d)
    }

    /// Queries a 64-bit key and returns the full token.
    pub fn query_u64_with_result(&self, key: u64) -> (qr: CounterResult)
        requires
            self.wf(),
        ensures
            self.query_spec(digest_of_u64(key), qr),
            self.fits(qr),
    {
        let d = digest_u64(key);
        self.parse_hash(d)
    }

    /// Derives the row index and counter indexes of a 64-bit key without
    /// reading any filter state: the token carries no counter snapshot and a
    /// membership flag of 0.
    pub fn search_u64(&self, key: u64) -> (qr: CounterResult)
        requires
            self.wf(),
        ensures
            qr.row_index == self.digest_row(digest_of_u64(key)),
            qr.counter_indexes@ == self.digest_slots(digest_of_u64(key)),
            qr.counters@.len() == 0,
            qr.and_result == 0,
            self.fits(qr),
    {
        let d = digest_u64(key);
        let (row_index, counter_indexes) = derive_indices(
            d.0,
            d.1,
            d.2,
            self.k,
            self.w,
            self.row_bits,
            self.hash_bits,
        );
        CounterResult { counter_indexes, row_index, and_result: 0, counters: Vec::new() }
    }

    /// Derives the row index and counter indexes of a byte-sequence key of
    /// at most 12 bytes without reading any filter state.
    pub fn search_bytes(&self, bytes: &[u8]) -> (qr: CounterResult)
        requires
            self.wf(),
            bytes@.len() <= 12,
        ensures
            qr.row_index == self.digest_row(digest_of_bytes(bytes@)),
            qr.counter_indexes@ == self.digest_slots(digest_of_bytes(bytes@)),
            qr.counters@.len() == 0,
            qr.and_result == 0,
            self.fits(qr),
    {
        let d = digest_bytes(bytes);
        let (row_index, counter_indexes) = derive_indices(
            d.0,
            d.1,
            d.2,
            self.k,
            self.w,
            self.row_bits,
            self.hash_bits,
        );
        CounterResult { counter_indexes, row_index, and_result: 0, counters: Vec::new() }
    }

    /// Queries a 32-bit key (hashed as its zero-extended 64-bit encoding)
    /// and returns the full token with its counter snapshot.
    pub fn get_counters_u32(&self, key: u32) -> (qr: CounterResult)
        requires
            self.wf(),
        ensures
            self.query_spec(digest_of_u64(key as u64), qr),
            self.fits(qr),
    {
        let d = digest_u64(key as u64);
        self.parse_hash(d)
    }

    /// Queries a 64-bit key and returns the full token with its counter
    /// snapshot.
    pub fn get_counters_u64(&self, key: u64) -> (qr: CounterResult)
        requires
            self.wf(),
        ensures
            self.query_spec(digest_of_u64(key), qr),
            self.fits(qr),
    {
        let d = digest_u64(key);
        self.parse_hash(d)
    }

    /// Increments the counter at each of a token's `k` positions in its row,
    /// without rehashing. Not idempotent: a position hit by several
    /// sub-hashes is incremented once per hit, and 255 wraps silently to 0.
    pub fn inc_counters(&mut self, qr: &CounterResult)
        requires
            old(self).wf(),
            old(self).fits(*qr),
        ensures
            final(self).wf(),
            final(self).same_config(*old(self)),
            final(self).filter@.len() == old(self).filter@.len(),
            forall|r: int|
                0 <= r < old(self).filter@.len() && r != qr.row_index ==> final(self).row(r)
                    == old(self).row(r),
            inc_counters_spec(
                old(self).row(qr.row_index as int),
                final(self).row(qr.row_index as int),
                qr.counter_indexes@,
                old(self).w,
            ),
    {
        let row_index = qr.row_index;
        let ghost pre = *self;
        let mut i: usize = 0;
        while i < self.k
            invariant
                self.wf(),
                self.same_config(pre),
                pre.wf(),
                pre.fits(*qr),
                row_index == qr.row_index,
                self.filter@.len() == pre.filter@.len(),
                i <= self.k,
                forall|r: int|
                    0 <= r < pre.filter@.len() && r != row_index ==> self.row(r) == pre.row(r),
                forall|s: usize|
                    s < self.w ==> (#[trigger] self.row(row_index as int)[s as int]) as int == (
                    pre.row(row_index as int)[s as int] + occ_upto(
                        qr.counter_indexes@,
                        i as int,
                        s,
                    )) % 256,
            decreases self.k - i,
        {
            let counter_index = qr.counter_indexes[i];
            let c = self.filter[row_index][counter_index];
            let nc = c.wrapping_add(1);
            let ghost before = *self;
            let row = &mut self.filter[row_index];
            row[counter_index] = nc;
            proof {
                assert(self.row(row_index as int) == before.row(row_index as int).update(
                    counter_index as int,
                    nc,
                ));
                assert forall|s: usize|
                    s < self.w implies (#[trigger] self.row(row_index as int)[s as int]) as int
                    == (pre.row(row_index as int)[s as int] + occ_upto(
                    qr.counter_indexes@,
                    i + 1,
                    s,
                )) % 256 by {
                    assert((before.row(row_index as int)[s as int]) as int == (pre.row(
                        row_index as int,
                    )[s as int] + occ_upto(qr.counter_indexes@, i as int, s)) % 256);
                    assert(occ_upto(qr.counter_indexes@, i + 1, s) == occ_upto(
                        qr.counter_indexes@,
                        i as int,
                        s,
                    ) + (if qr.counter_indexes@[i as int] == s {
                        1nat
                    } else {
                        0nat
                    }));
                    if s == counter_index {
                        let a = pre.row(row_index as int)[s as int] as int;
                        let c0 = occ_upto(qr.counter_indexes@, i as int, s) as int;
                        lemma_add_mod_noop(a + c0, 1, 256);
                        lemma_small_mod(1, 256);
                        assert(c as int == (a + c0) % 256);
                        if c == 255 {
                            lemma_mod_self_0(256);
                            assert((c as int + 1) % 256 == 0);
                        } else {
                            lemma_small_mod((c + 1) as nat, 256);
                        }
                        assert(nc as int == (a + c0 + 1) % 256);
                    } else {
                        assert(self.row(row_index as int)[s as int] == before.row(
                            row_index as int,
                        )[s as int]);
                    }
                };
            }
            i = i + 1;
        }
    }

    /// Decrements the counter at each of a token's `k` positions in its row,
    /// without rehashing, enabling approximate deletion. A position hit by
    /// several sub-hashes is decremented once per hit, and 0 wraps silently
    /// to 255.
    pub fn dec_counters(&mut self, qr: &CounterResult)
        requires
            old(self).wf(),
            old(self).fits(*qr),
        ensures
            final(self).wf(),
            final(self).same_config(*old(self)),
            final(self).filter@.len() == old(self).filter@.len(),
            forall|r: int|
                0 <= r < old(self).filter@.len() && r != qr.row_index ==> final(self).row(r)
                    == old(self).row(r),
            dec_counters_spec(
                old(self).row(qr.row_index as int),
                final(self).row(qr.row_index as int),
                qr.counter_indexes@,
                old(self).w,
            ),
    {
        let row_index = qr.row_index;
        let ghost pre = *self;
        let mut i: usize = 0;
        while i < self.k
            invariant
                self.wf(),
                self.same_config(pre),
                pre.wf(),
                pre.fits(*qr),
                row_index == qr.row_index,
                self.filter@.len() == pre.filter@.len(),
                i <= self.k,
                forall|r: int|
                    0 <= r < pre.filter@.len() && r != row_index ==> self.row(r) == pre.row(r),
                forall|s: usize|
                    s < self.w ==> (#[trigger] self.row(row_index as int)[s as int]) as int == (
                    pre.row(row_index as int)[s as int] - occ_upto(
                        qr.counter_indexes@,
                        i as int,
                        s,
                    )) % 256,
            decreases self.k - i,
        {
            let counter_index = qr.counter_indexes[i];
            let c = self.filter[row_index][counter_index];
            let nc = c.wrapping_sub(1);
            let ghost before = *self;
            let row = &mut self.filter[row_index];
            row[counter_index] = nc;
            proof {
                assert(self.row(row_index as int) == before.row(row_index as int).update(
                    counter_index as int,
                    nc,
                ));
                assert forall|s: usize|
                    s < self.w implies (#[trigger] self.row(row_index as int)[s as int]) as int
                    == (pre.row(row_index as int)[s as int] - occ_upto(
                    qr.counter_indexes@,
                    i + 1,
                    s,
                )) % 256 by {
                    assert((before.row(row_index as int)[s as int]) as int == (pre.row(
                        row_index as int,
                    )[s as int] - occ_upto(qr.counter_indexes@, i as int, s)) % 256);
                    assert(occ_upto(qr.counter_indexes@, i + 1, s) == occ_upto(
                        qr.counter_indexes@,
                        i as int,
                        s,
                    ) + (if qr.counter_indexes@[i as int] == s {
                        1nat
                    } else {
                        0nat
                    }));
                    if s == counter_index {
                        let a = pre.row(row_index as int)[s as int] as int;
                        let c0 = occ_upto(qr.counter_indexes@, i as int, s) as int;
                        lemma_sub_mod_noop(a - c0, 1, 256);
                        lemma_small_mod(1, 256);
                        assert(c as int == (a - c0) % 256);
                        if c == 0 {
                            lemma_fundamental_div_mod_converse(-1, 256, -1, 255);
                            assert((c as int - 1) % 256 == 255);
                        } else {
                            lemma_small_mod((c - 1) as nat, 256);
                        }
                        assert(nc as int == (a - c0 - 1) % 256);
                    } else {
                        assert(self.row(row_index as int)[s as int] == before.row(
                            row_index as int,
                        )[s as int]);
                    }
                };
            }
            i = i + 1;
        }
    }

    /// Queries a byte-sequence key, then increments its counters. Returns
    /// the membership flag computed before the increment.
    pub fn query_and_inc_bytes(&mut self, bytes: &[u8]) -> (r: u8)
        requires
            old(self).wf(),
            bytes@.len() <= 12,
        ensures
            final(self).wf(),
            final(self).same_config(*old(self)),
            r == (if old(self).contains_digest(digest_of_bytes(bytes@)) {
                1u8
            } else {
                0u8
            }),
            inc_applied(*old(self), *final(self), digest_of_bytes(bytes@)),
    {
        let d = digest_bytes(bytes);
        let qr = self.parse_hash(d);
        let result = qr.and_result;
        self.inc_counters(&qr);
        result
    }

    /// Queries a 32-bit key (hashed as its zero-extended 64-bit encoding),
    /// then increments its counters. Returns the pre-mutation flag.
    pub fn query_and_inc_u32(&mut self, key: u32) -> (r: u8)
        requires
            old(self).wf(),
        ensures
            final(self).wf(),
            final(self).same_config(*old(self)),
            r == (if old(self).contains_digest(digest_of_u64(key as u64)) {
                1u8
            } else {
                0u8
            }),
            inc_applied(*old(self), *final(self), digest_of_u64(key as u64)),
    {
        let d = digest_u64(key as u64);
        let qr = self.parse_hash(d);
        let result = qr.and_result;
        self.inc_counters(&qr);
        result
    }

    /// Queries a 64-bit key, then increments its counters. Returns the
    /// pre-mutation flag.
    pub fn query_and_inc_u64(&mut self, key: u64) -> (r: u8)
        requires
            old(self).wf(),
        ensures
            final(self).wf(),
            final(self).same_config(*old(self)),
            r == (if old(self).contains_digest(digest_of_u64(key)) {
                1u8
            } else {
                0u8
            }),
            inc_applied(*old(self), *final(self), digest_of_u64(key)),
    {
        let d = digest_u64(key);
        let qr = self.parse_hash(d);
        let result = qr.and_result;
        self.inc_counters(&qr);
        result
    }

    /// Queries a byte-sequence key, then decrements its counters: the
    /// approximate-deletion operation. Returns the pre-mutation flag.
    pub fn query_and_dec_bytes(&mut self, bytes: &[u8]) -> (r: u8)
        requires
            old(self).wf(),
            bytes@.len() <= 12,
        ensures
            final(self).wf(),
            final(self).same_config(*old(self)),
            r == (if old(self).contains_digest(digest_of_bytes(bytes@)) {
                1u8
            } else {
                0u8
            }),
            dec_applied(*old(self), *final(self), digest_of_bytes(bytes@)),
    {
        let d = digest_bytes(bytes);
        let qr = self.parse_hash(d);
        let result = qr.and_result;
        self.dec_counters(&qr);
        result
    }

    /// Queries a 32-bit key (hashed as its zero-extended 64-bit encoding),
    /// then decrements its counters. Returns the pre-mutation flag.
    pub fn query_and_dec_u32(&mut self, key: u32) -> (r: u8)
        requires
            old(self).wf(),
        ensures
            final(self).wf(),
            final(self).same_config(*old(self)),
            r == (if old(self).contains_digest(digest_of_u64(key as u64)) {
                1u8
            } else {
                0u8
            }),
            dec_applied(*old(self), *final(self), digest_of_u64(key as u64)),
    {
        let d = digest_u64(key as u64);
        let qr = self.parse_hash(d);
        let result = qr.and_result;
        self.dec_counters(&qr);
        result
    }

    /// Queries a 64-bit key, then decrements its counters. Returns the
    /// pre-mutation flag.
    pub fn query_and_dec_u64(&mut self, key: u64) -> (r: u8)
        requires
            old(self).wf(),
        ensures
            final(self).wf(),
            final(self).same_config(*old(self)),
            r == (if old(self).contains_digest(digest_of_u64(key)) {
                1u8
            } else {
                0u8
            }),
            dec_applied(*old(self), *final(self), digest_of_u64(key)),
    {
        let d = digest_u64(key);
        let qr = self.parse_hash(d);
        let result = qr.and_result;
        self.dec_counters(&qr);
        result
    }
}

/// The state change of one increment: the configuration and every row other
/// than the one digest `d` selects are unchanged, and within that row each
/// counter gains one per sub-hash of `d` that lands on it, wrapping at 255.
pub open spec fn inc_applied(pre: Bloom1Counter, post: Bloom1Counter, d: (u32, u32, u32)) -> bool {
    &&& post.same_config(pre)
    &&& post.filter@.len() == pre.filter@.len()
    &&& forall|r: int|
        0 <= r < pre.filter@.len() && r != pre.digest_row(d) ==> post.row(r) == pre.row(r)
    &&& inc_counters_spec(
        pre.row(pre.digest_row(d) as int),
        post.row(pre.digest_row(d) as int),
        pre.digest_slots(d),
        pre.w,
    )
}

/// The state change of one decrement: the mirror image of `inc_applied`,
/// wrapping at 0.
pub open spec fn dec_applied(pre: Bloom1Counter, post: Bloom1Counter, d: (u32, u32, u32)) -> bool {
    &&& post.same_config(pre)
    &&& post.filter@.len() == pre.filter@.len()
    &&& forall|r: int|
        0 <= r < pre.filter@.len() && r != pre.digest_row(d) ==> post.row(r) == pre.row(r)
    &&& dec_counters_spec(
        pre.row(pre.digest_row(d) as int),
        post.row(pre.digest_row(d) as int),
        pre.digest_slots(d),
        pre.w,
    )
}

/// The counter indices a digest selects are always inside a row, and its
/// row index inside the filter.
pub proof fn lemma_digest_slots_in_range(f: Bloom1Counter, d: (u32, u32, u32))
    requires
        f.wf(),
    ensures
        f.digest_slots(d).len() == f.k,
        forall|i: int| 0 <= i < f.digest_slots(d).len() ==> #[trigger] f.digest_slots(d)[i] < f.w,
        (f.digest_row(d) as int) < f.filter@.len(),
{
    lemma_row_index_bound(d.2, f.row_bits);
}

/// Counting round-trip: incrementing a key's counters and then immediately
/// decrementing them restores every row of the filter exactly, and with it
/// the membership of every digest.
pub proof fn lemma_inc_dec_round_trip(
    f0: Bloom1Counter,
    f1: Bloom1Counter,
    f2: Bloom1Counter,
    d: (u32, u32, u32),
)
    requires
        f0.wf(),
        inc_applied(f0, f1, d),
        dec_applied(f1, f2, d),
    ensures
        f2.same_config(f0),
        f2.filter@.len() == f0.filter@.len(),
        forall|r: int| 0 <= r < f0.filter@.len() ==> #[trigger] f2.row(r) == f0.row(r),
        forall|e: (u32, u32, u32)| #[trigger] f2.contains_digest(e) == f0.contains_digest(e),
{
    lemma_digest_slots_in_range(f0, d);
    let rr = f0.digest_row(d) as int;
    let idxs = f0.digest_slots(d);
    assert forall|r: int| 0 <= r < f0.filter@.len() implies #[trigger] f2.row(r) == f0.row(r) by {
        if r == rr {
            assert forall|s: int| 0 <= s < f0.row(rr).len() implies f2.row(rr)[s] == f0.row(
                rr,
            )[s] by {
                let su = s as usize;
                let a = f0.row(rr)[s] as int;
                let c = occ(idxs, su) as int;
                assert(f1.row(rr)[s] as int == (a + c) % 256);
                assert(f2.row(rr)[s] as int == (f1.row(rr)[s] - c) % 256);
                lemma_add_mod_noop(a, c, 256);
                lemma_sub_mod_noop(a + c, c, 256);
                lemma_small_mod(f0.row(rr)[s] as nat, 256);
                lemma_small_mod((c % 256) as nat, 256);
                assert((f1.row(rr)[s] - c) % 256 == ((a + c) % 256 - c % 256) % 256) by {
                    lemma_sub_mod_noop((a + c) % 256, c, 256);
                    lemma_small_mod(f1.row(rr)[s] as nat, 256);
                }
                assert(((a + c) % 256 - c % 256) % 256 == a % 256);
                assert(f2.row(rr)[s] as int == a);
            };
            assert(f2.row(rr) =~= f0.row(rr));
        } else {
            assert(f1.row(r) == f0.row(r));
            assert(f2.row(r) == f1.row(r));
        }
    };
    assert forall|e: (u32, u32, u32)| #[trigger] f2.contains_digest(e) == f0.contains_digest(
        e,
    ) by {
        lemma_digest_slots_in_range(f0, e);
        assert(f2.row(f2.digest_row(e) as int) == f0.row(f0.digest_row(e) as int));
    };
}

/// Inserting a key makes it a member, as long as no selected counter
/// saturates: when each selected counter plus all its hits stays at most
/// 255, every selected counter is non-zero after the increment.
pub proof fn lemma_inc_makes_member(f0: Bloom1Counter, f1: Bloom1Counter, d: (u32, u32, u32))
    requires
        f0.wf(),
        inc_applied(f0, f1, d),
        forall|i: int|
            0 <= i < f0.digest_slots(d).len() ==> (f0.row(f0.digest_row(d) as int)[#[trigger] f0
                .digest_slots(d)[i] as int] as int) + occ(f0.digest_slots(d), f0.digest_slots(d)[i])
                <= 255,
    ensures
        f1.contains_digest(d),
{
    lemma_digest_slots_in_range(f0, d);
    let rr = f0.digest_row(d) as int;
    let idxs = f0.digest_slots(d);
    assert forall|i: int|
        0 <= i < idxs.len() implies f1.row(f1.digest_row(d) as int)[#[trigger] idxs[i] as int]
        > 0 by {
        let s = idxs[i];
        let a = f0.row(rr)[s as int] as int;
        let c = occ(idxs, s) as int;
        assert(hits(idxs, s));
        lemma_hit_occurs(idxs, idxs.len() as int, s);
        assert(f1.row(rr)[s as int] as int == (a + c) % 256);
        lemma_small_mod((a + c) as nat, 256);
    };
}

/// A cleared filter contains nothing: every membership query on an all-zero
/// filter reports absent.
pub proof fn lemma_cleared_contains_nothing(f: Bloom1Counter, d: (u32, u32, u32))
    requires
        f.wf(),
        f.is_cleared(),
    ensures
        !f.contains_digest(d),
{
    lemma_digest_slots_in_range(f, d);
    let idxs = f.digest_slots(d);
    assert(f.row(f.digest_row(d) as int)[idxs[0] as int] == 0);
}

/// Rechecking a token is idempotent: two recheck results computed against
/// one filter state, with no mutation in between, are equal.
pub proof fn lemma_recheck_idempotent(f: Bloom1Counter, qr: CounterResult, r1: u8, r2: u8)
    requires
        r1 == f.membership_at(qr.row_index, qr.counter_indexes@),
        r2 == f.membership_at(qr.row_index, qr.counter_indexes@),
    ensures
        r1 == r2,
{
}

/// Index consistency: a derivation-only token and a full query token built
/// from one digest carry the same row index and the same ordered counter
/// indexes.
pub proof fn lemma_index_consistency(
    f: Bloom1Counter,
    d: (u32, u32, u32),
    qr1: CounterResult,
    qr2: CounterResult,
)
    requires
        qr1.row_index == f.digest_row(d),
        qr1.counter_indexes@ == f.digest_slots(d),
        qr2.row_index == f.digest_row(d),
        qr2.counter_indexes@ == f.digest_slots(d),
    ensures
        qr1.row_index == qr2.row_index,
        qr1.counter_indexes@ == qr2.counter_indexes@,
{
}

} // verus!
