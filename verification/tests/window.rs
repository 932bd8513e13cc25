use cache_metrics::RecencyWindow;

#[test]
fn new_window_has_no_segment() {
    let window = RecencyWindow::new();
    assert_eq!(window.segment_count(), 0);
    assert_eq!(window.position(1), None);
    assert_eq!(window.estimate(1, 10), None);
    assert_eq!(window.items_before(0), 0);
    assert!(window.segment_footprints().is_empty());
}

#[test]
fn insert_finds_key_in_head() {
    let mut window = RecencyWindow::new();
    assert!(window.insert(42, 1, 10));
    assert_eq!(window.segment_count(), 1);
    assert_eq!(window.position(42), Some(0));
    assert_eq!(window.position(43), None);
    assert_eq!(window.items_before(1), 1);
}

#[test]
fn head_rolls_once_over_threshold() {
    let mut window = RecencyWindow::new();
    // threshold 1: the head is closed once it holds two items
    window.insert(1, 1, 10);
    window.insert(2, 1, 10);
    assert_eq!(window.segment_count(), 1);
    window.insert(3, 1, 10);
    assert_eq!(window.segment_count(), 2);
    assert_eq!(window.position(3), Some(0));
    assert_eq!(window.position(1), Some(1));
    assert_eq!(window.position(2), Some(1));
    assert_eq!(window.items_before(1), 1);
    assert_eq!(window.items_before(2), 3);
}

#[test]
fn estimate_takes_the_middle_of_the_segment() {
    let mut window = RecencyWindow::new();
    for key in 1..=5u64 {
        window.insert(key, 1, 10);
    }
    // segments, newest first: {5}, {3, 4}, {1, 2}
    assert_eq!(window.segment_count(), 3);
    // key 5: between 0 and 1 items back, middle 0
    assert_eq!(window.estimate(5, 10), Some(0));
    // key 3: between 1 and 3 items back, middle 2, 20 percent of 10
    assert_eq!(window.estimate(3, 10), Some(20));
    // key 1: between 3 and 5 items back, middle 4, 40 percent of 10
    assert_eq!(window.estimate(1, 10), Some(40));
    // the same distance against another capacity
    assert_eq!(window.estimate(1, 100), Some(4));
    assert_eq!(window.estimate(1, 1), Some(400));
    assert_eq!(window.estimate(9, 10), None);
}

#[test]
fn reinserted_key_moves_to_the_head() {
    let mut window = RecencyWindow::new();
    for key in 1..=5u64 {
        window.insert(key, 1, 10);
    }
    window.insert(1, 1, 10);
    // segments, newest first: {5, 1}, {3, 4}, {2}
    assert_eq!(window.position(1), Some(0));
    assert_eq!(window.items_before(1), 2);
    assert_eq!(window.items_before(2), 4);
    assert_eq!(window.items_before(3), 5);
}

#[test]
fn window_is_cut_at_five_times_capacity() {
    let mut window = RecencyWindow::new();
    // threshold 0: one item to a segment; capacity 2: segments that start
    // at ten items or more are dropped
    for key in 0..25u64 {
        window.insert(key, 0, 2);
        assert!(window.items_before(window.segment_count() - 1) < 10);
    }
    assert_eq!(window.segment_count(), 10);
    assert_eq!(window.position(24), Some(0));
    assert_eq!(window.position(15), Some(9));
    assert_eq!(window.position(14), None);
    assert_eq!(window.position(0), None);
}

#[test]
fn footprints_come_one_to_a_segment() {
    let mut window = RecencyWindow::new();
    for key in 0..3u64 {
        window.insert(key, 0, 10);
    }
    let bytes = window.segment_footprints();
    assert_eq!(bytes.len(), 3);
    assert!(bytes[0] >= 1_048_576);
    assert_eq!(bytes[0], bytes[1]);
    assert_eq!(bytes[1], bytes[2]);
}

#[test]
fn distinct_keys_never_fill_more_than_51_segments() {
    let mut window = RecencyWindow::new();
    // capacity 19: segments of two items, cut at 95 items
    let mut most = 0;
    for key in 0..300u64 {
        assert!(window.insert(key, 1, 19));
        let count = window.segment_count();
        assert!(count <= 51);
        if count > most {
            most = count;
        }
    }
    assert_eq!(most, 48);
    assert_eq!(window.segment_count(), 48);
}
