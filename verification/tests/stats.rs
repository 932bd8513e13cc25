use cache_metrics::stats::OVERFLOW_BUCKET;
use cache_metrics::{BucketStats, BUCKET_PERCENTAGES};

#[test]
fn new_stats_count_nothing() {
    let stats = BucketStats::new();
    assert_eq!(stats.hits(), &[0u128; 10]);
    assert_eq!(stats.misses(), 0);
    assert_eq!(stats.total(), Some(0));
}

#[test]
fn default_stats_count_nothing() {
    let stats = BucketStats::default();
    assert_eq!(stats.hits(), &[0u128; 10]);
    assert_eq!(stats.misses(), 0);
}

#[test]
fn bucket_index_at_each_edge() {
    assert_eq!(BucketStats::bucket_index(0), 0);
    let mut i = 0;
    while i < BUCKET_PERCENTAGES.len() {
        let edge = BUCKET_PERCENTAGES[i];
        assert_eq!(BucketStats::bucket_index(edge), i);
        assert_eq!(BucketStats::bucket_index(edge + 1), i + 1);
        i += 1;
    }
    assert_eq!(BucketStats::bucket_index(501), OVERFLOW_BUCKET);
    assert_eq!(BucketStats::bucket_index(u16::MAX), OVERFLOW_BUCKET);
}

#[test]
fn hit_counts_in_first_edge_at_or_above() {
    let mut stats = BucketStats::new();
    stats.hit(25);
    stats.hit(26);
    stats.hit(124);
    stats.hit(125);
    stats.hit(500);
    assert_eq!(stats.hits(), &[1, 1, 0, 0, 0, 0, 2, 0, 1, 0]);
    assert_eq!(stats.misses(), 0);
}

#[test]
fn hit_beyond_last_edge_overflows() {
    let mut stats = BucketStats::new();
    stats.hit(501);
    stats.hit(u16::MAX);
    assert_eq!(stats.hits()[9], 2);
    assert_eq!(stats.hits()[8], 0);
}

#[test]
fn hit_inf_shares_the_overflow_bucket() {
    let mut stats = BucketStats::new();
    stats.hit_inf();
    stats.hit(600);
    stats.hit_inf();
    assert_eq!(stats.hits(), &[0, 0, 0, 0, 0, 0, 0, 0, 0, 3]);
}

#[test]
fn miss_moves_only_the_miss_counter() {
    let mut stats = BucketStats::new();
    stats.miss();
    stats.miss();
    assert_eq!(stats.misses(), 2);
    assert_eq!(stats.hits(), &[0u128; 10]);
    assert_eq!(stats.total(), Some(2));
}

#[test]
fn cumulative_hits_are_running_sums() {
    let mut stats = BucketStats::new();
    stats.hit(10);
    stats.hit(10);
    stats.hit(60);
    stats.hit(150);
    stats.hit_inf();
    stats.miss();
    assert_eq!(stats.cumulative_hits(), Some([2, 2, 3, 3, 3, 3, 4, 4, 4, 5]));
    assert_eq!(stats.total(), Some(6));
}
