use cache_metrics::cache::footprint;
use cache_metrics::{Cache, Classification, ALL_KEY_DURATION_NANOS, BUCKET_PERCENTAGES};

#[test]
fn simple_hit() {
    let mut cache = Cache::new(500);

    // First insert should miss
    cache.insert(5);
    assert_eq!(cache.stats().misses(), 1);

    // Second insert should hit
    cache.insert(5);
    assert_eq!(cache.stats().hits()[0], 1);
}

#[test]
fn too_small() {
    let mut cache = Cache::new(1000);

    for i in 0..1300 {
        cache.insert(i);
    }

    assert_eq!(cache.stats().misses(), 1300);

    for i in 0..1300 {
        cache.insert(i);
    }

    // If cache was 1.5x the size we'd hit all the above.
    assert_eq!(cache.stats().hits()[6], 1300)
}

#[test]
fn varied() {
    let mut cache = Cache::new(1000);

    for i in 0..1300 {
        cache.insert(i);
    }

    assert_eq!(cache.stats().misses(), 1300);

    for i in 0..1300 {
        cache.insert(i);
    }

    println!("{:?}", BUCKET_PERCENTAGES);
    println!("{:?}", cache.stats().hits());

    assert_eq!(cache.stats().hits()[6], 1300)
}

#[test]
fn new_cache_has_seen_nothing() {
    let cache = Cache::new(10);
    assert_eq!(cache.stats().hits(), &[0u128; 10]);
    assert_eq!(cache.stats().misses(), 0);
    assert_eq!(cache.classify(1), Classification::Miss);
}

#[test]
fn first_sight_of_distinct_keys_is_a_miss() {
    let mut cache = Cache::new(100);
    for key in 0..100u64 {
        assert_eq!(cache.insert_at(key, 0).class, Classification::Miss);
    }
    assert_eq!(cache.stats().misses(), 100);
    assert_eq!(cache.stats().hits(), &[0u128; 10]);
}

#[test]
fn repeat_lands_in_the_first_bucket() {
    let mut cache = Cache::new(500);
    for key in 0..50u64 {
        cache.insert_at(key, 0);
        // the head holds key + 1 items; the middle of it, in percent of 500
        let percentage = (100 * ((key + 1) / 2) / 500) as u16;
        assert!(percentage <= 25);
        assert_eq!(cache.insert_at(key, 0).class, Classification::Hit { percentage });
    }
    assert_eq!(cache.stats().misses(), 50);
    assert_eq!(cache.stats().hits(), &[50, 0, 0, 0, 0, 0, 0, 0, 0, 0]);
}

#[test]
fn no_hit_below_the_cache_size_when_the_stream_is_larger() {
    let mut cache = Cache::new(1000);
    for i in 0..1300u64 {
        cache.insert_at(i, 0);
    }
    for i in 0..1300u64 {
        cache.insert_at(i, 0);
    }
    let hits = cache.stats().hits();
    assert_eq!(&hits[0..6], &[0, 0, 0, 0, 0, 0]);
    assert_eq!(hits[6], 1300);
    assert_eq!(cache.stats().misses(), 1300);
}

#[test]
fn replayed_stream_hits_between_120_and_130_percent() {
    for tenth in [1u64, 2, 7, 30] {
        let mut cache = Cache::new(10 * tenth);
        for key in 0..13 * tenth {
            let done = cache.insert_at(1_000 + key, 0);
            assert!(done.stored);
            assert_eq!(done.class, Classification::Miss);
        }
        for key in 0..13 * tenth {
            let done = cache.insert_at(1_000 + key, 0);
            assert!(done.stored);
            match done.class {
                Classification::Hit { percentage } => {
                    assert!(120 <= percentage && percentage <= 130)
                }
                other => panic!("{:?}", other),
            }
        }
        let mut expected = [0u128; 10];
        expected[6] = 13 * tenth as u128;
        assert_eq!(cache.stats().hits(), &expected);
        assert_eq!(cache.stats().misses(), 13 * tenth as u128);
    }
}

#[test]
fn classification_reads_the_state_before_the_insert() {
    let mut cache = Cache::new(10);
    assert_eq!(cache.classify(9), Classification::Miss);
    assert_eq!(cache.insert_at(9, 0).class, Classification::Miss);
    assert_eq!(cache.classify(9), Classification::Hit { percentage: 0 });
    // classify counts nothing
    assert_eq!(cache.stats().misses(), 1);
    assert_eq!(cache.stats().hits(), &[0u128; 10]);
}

#[test]
fn head_takes_every_key_while_it_has_room() {
    let mut cache = Cache::new(50);
    for key in 0..300u64 {
        let done = cache.insert_at(key, 0);
        assert!(done.stored);
        assert_eq!(done.class, Classification::Miss);
    }
}

#[test]
fn hit_bucket_follows_the_distance() {
    let mut cache = Cache::new(10);
    for key in 1..=5u64 {
        cache.insert_at(key, 0);
    }
    // segments, newest first: {5}, {3, 4}, {1, 2}
    assert_eq!(cache.classify(3), Classification::Hit { percentage: 20 });
    assert_eq!(cache.classify(1), Classification::Hit { percentage: 40 });
    assert_eq!(cache.insert_at(1, 0).class, Classification::Hit { percentage: 40 });
    assert_eq!(cache.stats().hits(), &[0, 1, 0, 0, 0, 0, 0, 0, 0, 0]);
    assert_eq!(cache.stats().misses(), 5);
}

#[test]
fn change_cache_size_changes_the_scale_only() {
    let mut cache = Cache::new(10);
    for key in 1..=5u64 {
        cache.insert_at(key, 0);
    }
    let before = cache.memory_usage();
    cache.change_cache_size(100);
    assert_eq!(cache.memory_usage(), before);
    assert_eq!(cache.classify(1), Classification::Hit { percentage: 4 });
    assert_eq!(cache.stats().misses(), 5);
    cache.change_cache_size(1);
    assert_eq!(cache.classify(1), Classification::Hit { percentage: 400 });
    assert_eq!(cache.insert_at(1, 0).class, Classification::Hit { percentage: 400 });
    assert_eq!(cache.stats().hits()[8], 1);
}

#[test]
fn key_beyond_the_window_is_a_tail_hit() {
    let mut cache = Cache::new(2);
    cache.insert_at(1000, 0);
    for key in 0..20u64 {
        cache.insert_at(key, 0);
    }
    assert_eq!(cache.classify(1000), Classification::TailHit);
    assert_eq!(cache.insert_at(1000, 0).class, Classification::TailHit);
    assert_eq!(cache.stats().hits()[9], 1);
    assert_eq!(cache.stats().misses(), 21);
}

#[test]
fn stats_read_twice_are_the_same() {
    let mut cache = Cache::new(10);
    for key in 0..7u64 {
        cache.insert_at(key % 4, 0);
    }
    let first = (*cache.stats().hits(), cache.stats().misses());
    let second = (*cache.stats().hits(), cache.stats().misses());
    assert_eq!(first, second);
    assert_eq!(first.1, 4);
    assert_eq!(cache.stats().total(), Some(7));
}

#[test]
fn rotation_forgets_the_oldest_bucket_only() {
    let mut cache = Cache::new(2);
    let period = ALL_KEY_DURATION_NANOS + 1;
    // key 1000 goes to the first time slice, key 2000 to the second
    cache.insert_at(1000, 0);
    cache.insert_at(2000, period);
    // ten more slices; distinct keys push both out of the window
    let mut now = period;
    for round in 0..10u64 {
        now += period;
        cache.insert_at(round, now);
        cache.insert_at(100 + round, now);
    }
    // eleven rotations so far: key 1000 sits in the oldest bucket
    assert_eq!(cache.classify(1000), Classification::TailHit);
    assert_eq!(cache.classify(2000), Classification::TailHit);
    now += period;
    cache.insert_at(3000, now);
    assert_eq!(cache.classify(1000), Classification::Miss);
    assert_eq!(cache.classify(2000), Classification::TailHit);
}

#[test]
fn memory_stays_bounded_past_five_times_capacity() {
    let mut cache = Cache::new(20);
    let empty = cache.memory_usage();
    cache.insert_at(0, 0);
    let segment = cache.memory_usage() - empty;
    assert!(segment > 0);
    // segments of three items; those starting at a hundred items or more
    // are dropped, so no more than thirty-four stay
    let bound = empty + 34 * segment;
    let mut at_full = 0;
    for key in 1..400u64 {
        cache.insert_at(key, 0);
        assert!(cache.memory_usage() <= bound);
        if key == 150 {
            at_full = cache.memory_usage();
        }
    }
    assert_eq!(cache.memory_usage(), at_full);
}

#[test]
fn memory_read_twice_is_the_same() {
    let mut cache = Cache::new(10);
    let empty = cache.memory_usage();
    assert_eq!(cache.memory_usage(), empty);
    // twelve buckets, each of a byte at least
    assert!(empty >= 12);
    for key in 0..5u64 {
        cache.insert_at(key, 0);
    }
    let hits = *cache.stats().hits();
    let misses = cache.stats().misses();
    let used = cache.memory_usage();
    assert_eq!(cache.memory_usage(), used);
    assert_eq!(cache.stats().hits(), &hits);
    assert_eq!(cache.stats().misses(), misses);
    // three segments, each with its table of 1,048,576 bytes at least
    assert!(used >= empty + 3 * 1_048_576);
    assert_eq!(cache.classify(1), Classification::Hit { percentage: 40 });
}

#[test]
fn footprint_adds_bytes_and_eighths_of_bits() {
    assert_eq!(footprint(&vec![], &vec![]), 0);
    assert_eq!(footprint(&vec![10, 20], &vec![16, 7, 8]), 33);
    assert_eq!(footprint(&vec![usize::MAX, usize::MAX], &vec![u64::MAX; 12]),
        2 * (usize::MAX as u128) + 12 * ((u64::MAX / 8) as u128));
}

#[test]
fn fingerprint_is_stable_and_feeds_insert() {
    assert_eq!(Cache::fingerprint(&5u64), Cache::fingerprint(&5u64));
    assert_ne!(Cache::fingerprint(&5u64), Cache::fingerprint(&6u64));
    let mut cache = Cache::new(500);
    cache.insert("a key");
    assert_eq!(
        cache.classify(Cache::fingerprint(&"a key")),
        Classification::Hit { percentage: 0 }
    );
    assert_eq!(cache.classify(Cache::fingerprint(&"another")), Classification::Miss);
}
