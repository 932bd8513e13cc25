use cache_metrics::{LongHorizonFilter, ALL_KEY_DURATION_NANOS, ALL_KEY_NUM_BUCKETS};

#[test]
fn new_ring_holds_nothing() {
    let ring = LongHorizonFilter::new();
    assert!(!ring.contains(0));
    assert!(!ring.contains(17));
    assert!(!ring.contains(u64::MAX));
    let bits = ring.bucket_sizes();
    assert_eq!(bits.len(), ALL_KEY_NUM_BUCKETS);
    assert!(bits.iter().all(|&b| b >= 8));
    assert_eq!(ring.bucket_sizes(), bits);
}

#[test]
fn inserted_fingerprint_is_held() {
    let mut ring = LongHorizonFilter::new();
    ring.insert(17, 0);
    assert!(ring.contains(17));
    assert!(!ring.contains(18));
}

#[test]
fn no_rotation_at_exactly_the_period() {
    let mut ring = LongHorizonFilter::new();
    ring.insert(1, 0);
    // eleven rotations would bring key 1 to the oldest bucket; the twelfth
    // drops it. An insertion exactly one period later does not rotate.
    let mut now = 0u128;
    for round in 0..11u64 {
        now += ALL_KEY_DURATION_NANOS + 1;
        ring.insert(100 + round, now);
    }
    assert!(ring.contains(1));
    ring.insert(200, now + ALL_KEY_DURATION_NANOS);
    assert!(ring.contains(1));
    ring.insert(201, now + ALL_KEY_DURATION_NANOS + 1);
    assert!(!ring.contains(1));
    assert!(ring.contains(100));
    assert!(ring.contains(200));
    assert!(ring.contains(201));
}

#[test]
fn rotate_drops_the_oldest_bucket_only() {
    let mut ring = LongHorizonFilter::new();
    ring.insert(7, 0);
    for _ in 0..(ALL_KEY_NUM_BUCKETS - 1) {
        ring.rotate();
        assert!(ring.contains(7));
    }
    ring.rotate();
    assert!(!ring.contains(7));
    assert_eq!(ring.bucket_sizes().len(), ALL_KEY_NUM_BUCKETS);
}

#[test]
fn clock_running_backwards_rotates_nothing() {
    let mut ring = LongHorizonFilter::new();
    ring.insert(1, 5 * ALL_KEY_DURATION_NANOS);
    ring.insert(2, 0);
    assert!(ring.contains(1));
    assert!(ring.contains(2));
}
