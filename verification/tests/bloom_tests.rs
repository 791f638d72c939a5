use rust_store::bloom_filter::{needed_bits, optimal_num_hashes, BloomFilter};

#[test]
fn can_insert_bloom_rate() {
    let mut b = BloomFilter::new_with_rate(10000, 100);
    let item = 20;
    b.insert(&item);
    assert!(b.contains(&item))
}

#[test]
fn can_insert_bloom_size_one_hash() {
    let mut b = BloomFilter::new_with_size(100, 1);
    let item = 20;
    b.insert(&item);
    assert!(b.contains(&item))
}

#[test]
fn can_insert_bloom_size_two_hashes() {
    let mut b = BloomFilter::new_with_size(100, 2);
    let item = 20;
    b.insert(&item);
    assert!(b.contains(&item))
}

#[test]
fn can_clear_bloom() {
    let mut b = BloomFilter::new_with_rate(10000, 100);
    let item = 77;
    b.insert(&item);
    assert!(b.contains(&item));
    b.clear();
    assert!(!b.contains(&item));
}

#[test]
fn does_not_contain() {
    let mut b = BloomFilter::new_with_rate(10000, 100);
    let upper = 100;
    let mut i = 0;
    while i < upper {
        b.insert(&i);
        assert_eq!(b.contains(&i), true);
        i += 2;
    }
    let mut j = 1;
    while j < upper {
        assert_eq!(b.contains(&j), false);
        j += 2;
    }
}

#[test]
fn can_insert_lots() {
    let mut b = BloomFilter::new_with_rate(10000, 1024);
    for i in 0..1024 {
        b.insert(&i);
        assert!(b.contains(&i))
    }
}

#[test]
fn sizing_formulas_have_expected_values() {
    // 1% false positives over 100 items: just under ten bits per key.
    let bits = needed_bits(10000, 100);
    assert!(900 <= bits && bits <= 1000);
    // The hash count follows bits/items scaled by ln 2, clamped to [2, 200].
    assert_eq!(optimal_num_hashes(1000, 100), 7);
    assert_eq!(optimal_num_hashes(0, 100), 2);
    assert_eq!(optimal_num_hashes(1000000, 1), 200);
    assert_eq!(optimal_num_hashes(100, 0), 200);
}
