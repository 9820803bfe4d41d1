use bloom1::bloom::Bloom1X;
use bloom1::bloom_counter::Bloom1Counter;

// A fresh filter of any valid configuration contains nothing: every slot is
// zero, so every membership query reports absent.
#[test]
fn fresh_filter_reports_absent() {
    let configs: [(usize, usize, usize, usize); 4] =
        [(2, 1024, 32, 96), (4, 65536, 96, 96), (2, 1024, 256, 96), (3, 2048, 64, 95)];
    for &(k, l, w, h) in configs.iter() {
        let filter = Bloom1X::new(k, l, w, h);
        assert_eq!(filter.query_u32(123), 0);
        assert_eq!(filter.query_u64(0xDEADBEEF), 0);
        assert_eq!(filter.query_bytes(&[1, 2, 3]), 0);
        let counting = Bloom1Counter::new(k, l, w, h);
        assert_eq!(counting.query_u32(123), 0);
        assert_eq!(counting.query_u64(0xDEADBEEF), 0);
        assert_eq!(counting.query_bytes(&[1, 2, 3]), 0);
    }
}

// No false negatives: an inserted key queries as present through every key
// encoding, also after further insertions.
#[test]
fn inserted_keys_stay_members() {
    let mut filter = Bloom1X::new(4, 65536, 96, 96);
    assert_eq!(filter.query_and_set_u64(7), 0);
    assert_eq!(filter.query_u64(7), 1);
    for i in 100..300u64 {
        filter.query_and_set_u64(i);
    }
    assert_eq!(filter.query_u64(7), 1);
    let key = [9u8, 8, 7, 6, 5];
    filter.query_and_set_bytes(&key);
    assert_eq!(filter.query_bytes(&key), 1);
    for i in 300..500u64 {
        filter.query_and_set_u64(i);
    }
    assert_eq!(filter.query_bytes(&key), 1);
    assert_eq!(filter.query_u64(7), 1);
}

// A 32-bit key and its zero-extended 64-bit value address the same slots.
#[test]
fn u32_key_matches_zero_extended_u64() {
    let mut filter = Bloom1X::new(4, 65536, 96, 96);
    filter.query_and_set_u32(42);
    assert_eq!(filter.query_u64(42), 1);
    let mut other = Bloom1X::new(4, 65536, 96, 96);
    other.query_and_set_u64(77);
    assert_eq!(other.query_u32(77), 1);
}

// clear() resets every slot: previously inserted keys query as absent.
#[test]
fn clear_resets_both_variants() {
    let mut filter = Bloom1X::new(2, 1024, 32, 96);
    for i in 0..100u32 {
        filter.query_and_set_u32(i);
    }
    filter.clear();
    for i in 0..100u32 {
        assert_eq!(filter.query_u32(i), 0);
    }
    let mut counting = Bloom1Counter::new(2, 1024, 32, 96);
    for i in 0..100u32 {
        counting.query_and_inc_u32(i);
    }
    counting.clear();
    for i in 0..100u32 {
        assert_eq!(counting.query_u32(i), 0);
    }
}

// recheck is idempotent: repeated query_by_result calls without intervening
// mutation return the same flag, before and after an update.
#[test]
fn recheck_is_idempotent() {
    let mut filter = Bloom1X::new(4, 65536, 96, 96);
    let qr = filter.query_u64_with_result(1234);
    let first = filter.query_by_result(&qr);
    let second = filter.query_by_result(&qr);
    assert_eq!(first, second);
    filter.update_filter(&qr);
    let third = filter.query_by_result(&qr);
    let fourth = filter.query_by_result(&qr);
    assert_eq!(third, fourth);
    assert_eq!(third, 1);

    let mut counting = Bloom1Counter::new(4, 65536, 96, 96);
    let cqr = counting.query_u64_with_result(1234);
    let a = counting.query_by_result(&cqr);
    let b = counting.query_by_result(&cqr);
    assert_eq!(a, b);
    counting.inc_counters(&cqr);
    let c = counting.query_by_result(&cqr);
    let d = counting.query_by_result(&cqr);
    assert_eq!(c, d);
    assert_eq!(c, 1);
}

// Index consistency: the derivation-only path and the full query path
// report the same row index and the same ordered slot indices.
#[test]
fn search_matches_query_indexes() {
    let counting = Bloom1Counter::new(4, 65536, 96, 96);
    for i in 0..200u64 {
        let qr1 = counting.query_u64_with_result(i);
        let qr2 = counting.search_u64(i);
        assert_eq!(qr1.row_index, qr2.row_index);
        assert_eq!(qr1.counter_indexes, qr2.counter_indexes);
        assert_eq!(qr2.and_result, 0);
        assert!(qr2.counters.is_empty());
        let qr3 = counting.get_counters_u64(i);
        assert_eq!(qr1.row_index, qr3.row_index);
        assert_eq!(qr1.counter_indexes, qr3.counter_indexes);
    }
}

// Counting round-trip: incrementing then immediately decrementing restores
// the counter snapshot and the membership flag.
#[test]
fn inc_then_dec_restores_counters() {
    let mut counting = Bloom1Counter::new(4, 65536, 96, 96);
    for i in 0..50u32 {
        counting.query_and_inc_u32(i);
    }
    let before = counting.get_counters_u32(7);
    let token = counting.get_counters_u32(1000);
    counting.inc_counters(&token);
    counting.dec_counters(&token);
    let after = counting.get_counters_u32(7);
    assert_eq!(before.counters, after.counters);
    assert_eq!(before.and_result, after.and_result);
    let after_other = counting.get_counters_u32(1000);
    let before_other_flag = token.and_result;
    assert_eq!(after_other.counters, token.counters);
    assert_eq!(after_other.and_result, before_other_flag);
}

// Approximate deletion: a key inserted once and then deleted once queries
// as absent again, while an unrelated key inserted twice survives one
// deletion.
#[test]
fn delete_removes_single_insert() {
    let mut counting = Bloom1Counter::new(4, 65536, 96, 96);
    assert_eq!(counting.query_and_inc_u64(5000), 0);
    assert_eq!(counting.query_u64(5000), 1);
    assert_eq!(counting.query_and_dec_u64(5000), 1);
    assert_eq!(counting.query_u64(5000), 0);

    counting.query_and_inc_u64(6000);
    counting.query_and_inc_u64(6000);
    counting.query_and_dec_u64(6000);
    assert_eq!(counting.query_u64(6000), 1);
}

// The digest spreads keys: distinct keys do not all collapse onto one row
// and one slot set.
#[test]
fn digests_differ_between_keys() {
    let counting = Bloom1Counter::new(4, 65536, 96, 96);
    let t0 = counting.search_u64(0);
    let mut saw_difference = false;
    for i in 1..20u64 {
        let t = counting.search_u64(i);
        if t.row_index != t0.row_index || t.counter_indexes != t0.counter_indexes {
            saw_difference = true;
        }
    }
    assert!(saw_difference);
}

// Tokens survive unrelated mutation: bits set for one key never clear the
// bits of another, and a stale token rechecks against current state.
#[test]
fn stale_token_sees_current_state() {
    let mut filter = Bloom1X::new(4, 65536, 96, 96);
    let token = filter.query_u64_with_result(999);
    assert_eq!(token.and_result, 0);
    assert_eq!(filter.query_by_result(&token), 0);
    filter.update_filter(&token);
    // the stale token now rechecks as present without rehashing
    assert_eq!(filter.query_by_result(&token), 1);
}
