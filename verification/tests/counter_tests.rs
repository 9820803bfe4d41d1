use bloom1::bloom_counter::Bloom1Counter;

#[test]
fn search_bytes() {
    let bloom_filter = Bloom1Counter::new(4, u16::MAX as usize + 1, 96, 96);

    //generate first 2^16 numbers
    for i in 0..10000 {
        let bytes = u64::to_le_bytes(i);
        let qr1 = bloom_filter.query_bytes_with_result(&bytes);
        let qr2 = bloom_filter.search_bytes(&bytes);
        assert!(qr1.counter_indexes == qr2.counter_indexes && qr1.row_index == qr2.row_index);
    }
}

// Two increment rounds followed by two decrement rounds over the same keys:
// every key's own counters stay high enough through the rounds, and once the
// last decrement is applied every counter is back to zero. A key's counters
// are checked against zero only after the whole round, since slots shared
// with keys not yet decremented still hold those keys' counts.
#[test]
fn inc_twice_dec_twice_counters() {
    let mut bloom_filter = Bloom1Counter::new(4, u16::MAX as usize + 1, 96, 96);

    //generate first 2^16 numbers
    //and increment counters once
    for i in 0..(u16::MAX as u32 + 1) {
        assert!(bloom_filter.query_and_inc_u32(i) == 0);
        let current_filter = bloom_filter.get_counters_u32(i);
        for k in 0..4 {
            assert!(current_filter.counters[k] >= 1);
        }
    }

    //increment counters twice
    for i in 0..(u16::MAX as u32 + 1) {
        assert!(bloom_filter.query_and_inc_u32(i) == 1);
        let current_filter = bloom_filter.get_counters_u32(i);
        for k in 0..4 {
            assert!(current_filter.counters[k] >= 2);
        }
    }

    //check counters again through different function
    for i in 0..(u16::MAX as u32 + 1) {
        assert!(bloom_filter.query_u32(i) == 1);
        let current_filter = bloom_filter.get_counters_u32(i);
        for k in 0..4 {
            assert!(current_filter.counters[k] >= 2);
        }
    }

    //decrement counters once
    for i in 0..(u16::MAX as u32 + 1) {
        assert!(bloom_filter.query_and_dec_u32(i) == 1);
    }

    //decrement counters twice
    for i in 0..(u16::MAX as u32 + 1) {
        assert!(bloom_filter.query_and_dec_u32(i) == 1);
    }

    //with every insertion undone, every counter is zero again
    for i in 0..(u16::MAX as u32 + 1) {
        let current_filter = bloom_filter.get_counters_u32(i);
        for k in 0..4 {
            assert!(current_filter.counters[k] == 0);
        }
        assert!(bloom_filter.query_u32(i) == 0);
    }
}
