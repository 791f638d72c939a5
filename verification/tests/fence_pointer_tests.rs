use rust_store::fence_pointer::FencePointer;

#[test]
fn fp_int() {
    let fp = FencePointer::new(1, 5);
    assert!(fp.in_range(&2));
    assert!(fp.in_range(&1));
    assert!(fp.in_range(&5));
    assert!(!fp.in_range(&7));
}

#[test]
fn fp_u64() {
    let lower: u64 = 1;
    let upper: u64 = 5;
    let fp = FencePointer::new(lower, upper);
    assert!(fp.in_range(&2));
    assert!(fp.in_range(&1));
    assert!(fp.in_range(&5));
    assert!(!fp.in_range(&7));
}

#[test]
fn fp_bounds_are_reported() {
    let fp = FencePointer::new(-3, 9);
    assert_eq!(fp.low_key(), -3);
    assert_eq!(fp.high_key(), 9);
    assert_eq!(fp.size_in_bytes(), 8);
}
