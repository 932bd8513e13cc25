//! What holds of the simulator over any stream of insertions, stated over the
//! models of its parts and proved from the contracts of its functions.

use crate::cache::{cache_inserted, classify, recorded, CacheModel, Classification};
use crate::filters::slot_of;
use crate::horizon::{ring_holds, rotation_due, ALL_KEY_NUM_BUCKETS};
use crate::stats::{bucket_of, StatsModel};
use crate::window::{
    estimated_percentage, filled_in_order, inserted_losing, lemma_insert_new_slot, is_newest_holding, items_before, lemma_inserted_shape,
    lemma_position_none, lemma_position_unique, lemma_remove_len, reported_percentage, rolled,
    staged_head, window_after, window_holds,
};
use vstd::prelude::*;

verus! {

/// State `i + 1` of a run follows from state `i` by the insertion of key `i`
/// at time `i`.
pub open spec fn step_holds(
    states: Seq<CacheModel>,
    keys: Seq<u64>,
    times: Seq<nat>,
    i: int,
) -> bool {
    cache_inserted(states[i], keys[i], times[i], states[i + 1])
}

/// `states` are the states that a cache goes through as `keys` are inserted
/// one after the other, each at its time.
pub open spec fn is_run(states: Seq<CacheModel>, keys: Seq<u64>, times: Seq<nat>) -> bool {
    &&& states.len() == keys.len() + 1
    &&& times.len() == keys.len()
    &&& forall|i: int| 0 <= i < keys.len() ==> #[trigger] step_holds(states, keys, times, i)
}

/// Every slot in the window of state `n` is the slot of one of the first `n`
/// keys.
pub open spec fn holds_earlier_keys_only(states: Seq<CacheModel>, keys: Seq<u64>, n: int) -> bool {
    forall|k: int, x: u64|
        0 <= k < states[n].window.len() && (#[trigger] states[n].window[k].contains(x))
            ==> exists|j: int| 0 <= j < n && #[trigger] slot_of(keys[j]) == x
}

proof fn lemma_distinct_run(
    capacity: nat,
    states: Seq<CacheModel>,
    keys: Seq<u64>,
    times: Seq<nat>,
    n: int,
)
    requires
        capacity > 0,
        is_run(states, keys, times),
        states[0] == CacheModel::fresh(capacity),
        forall|i: int, j: int|
            0 <= i < j < keys.len() ==> #[trigger] slot_of(keys[i]) != #[trigger] slot_of(keys[j]),
        0 <= n <= keys.len(),
    ensures
        holds_earlier_keys_only(states, keys, n),
        states[n].capacity == capacity,
        states[n].threshold == capacity / 10,
        filled_in_order(states[n].window, capacity / 10),
        states[n].window.len() <= 51,
        n < keys.len() ==> !window_holds(states[n].window, slot_of(keys[n])),
    decreases n,
{
    if n > 0 {
        lemma_distinct_run(capacity, states, keys, times, n - 1);
        let pre = states[n - 1];
        let post = states[n];
        let slot = slot_of(keys[n - 1]);
        assert(step_holds(states, keys, times, n - 1));
        let lost = choose|lost: Option<u64>| #[trigger]
            inserted_losing(pre.window, slot, pre.threshold, pre.capacity, lost, post.window);
        lemma_inserted_shape(pre.window, slot, pre.threshold, pre.capacity, lost, post.window);
        lemma_insert_new_slot(pre.window, slot, capacity, lost, post.window);
        assert forall|k: int, x: u64|
            0 <= k < post.window.len() && (#[trigger] post.window[k].contains(x)) implies exists|
            j: int,
        | 0 <= j < n && #[trigger] slot_of(keys[j]) == x by {
            if x == slot {
                assert(slot_of(keys[n - 1]) == x);
            } else {
                assert(window_holds(pre.window, x));
                let i = choose|i: int| 0 <= i < pre.window.len() && (#[trigger] pre.window[i]).contains(x);
                assert(pre.window[i].contains(x));
                let j = choose|j: int| 0 <= j < n - 1 && #[trigger] slot_of(keys[j]) == x;
                assert(slot_of(keys[j]) == x);
            }
        }
    }
    if n < keys.len() {
        let w = states[n].window;
        let slot = slot_of(keys[n]);
        if window_holds(w, slot) {
            let k = choose|k: int| 0 <= k < w.len() && (#[trigger] w[k]).contains(slot);
            assert(states[n].window[k].contains(slot));
            let j = choose|j: int| 0 <= j < n && #[trigger] slot_of(keys[j]) == slot;
            assert(slot_of(keys[j]) != slot_of(keys[n]));
        }
    }
}

proof fn lemma_first_sights(
    capacity: nat,
    states: Seq<CacheModel>,
    keys: Seq<u64>,
    times: Seq<nat>,
    n: int,
)
    requires
        capacity > 0,
        is_run(states, keys, times),
        states[0] == CacheModel::fresh(capacity),
        forall|i: int, j: int|
            0 <= i < j < keys.len() ==> #[trigger] slot_of(keys[i]) != #[trigger] slot_of(keys[j]),
        forall|i: int|
            0 <= i < keys.len() ==> !ring_holds((#[trigger] states[i]).horizon.ring, keys[i]),
        0 <= n <= keys.len(),
    ensures
        states[n].stats == (StatsModel { hits: StatsModel::zero().hits, misses: n as nat }),
        forall|i: int| 0 <= i < n ==> classify(#[trigger] states[i], keys[i]) == Classification::Miss,
    decreases n,
{
    if n > 0 {
        lemma_first_sights(capacity, states, keys, times, n - 1);
        lemma_distinct_run(capacity, states, keys, times, n - 1);
        let pre = states[n - 1];
        let key = keys[n - 1];
        assert(step_holds(states, keys, times, n - 1));
        lemma_position_none(pre.window, slot_of(key));
        assert(classify(pre, key) == Classification::Miss);
        assert forall|i: int| 0 <= i < n implies classify(#[trigger] states[i], keys[i])
            == Classification::Miss by {
            if i == n - 1 {
                assert(states[i] == pre);
            }
        }
    }
}

/// While a cache that has seen nothing takes keys of which no two share a
/// slot, its window stays short: at most fifty-one segments, the head with at
/// most one item more than the size at which a segment is closed and every
/// other segment with exactly that many.
pub proof fn distinct_keys_keep_the_window_short(
    capacity: nat,
    states: Seq<CacheModel>,
    keys: Seq<u64>,
    times: Seq<nat>,
    n: int,
)
    requires
        capacity > 0,
        is_run(states, keys, times),
        states[0] == CacheModel::fresh(capacity),
        forall|i: int, j: int|
            0 <= i < j < keys.len() ==> #[trigger] slot_of(keys[i]) != #[trigger] slot_of(keys[j]),
        0 <= n <= keys.len(),
    ensures
        states[n].window.len() <= 51,
        filled_in_order(states[n].window, capacity / 10),
{
    lemma_distinct_run(capacity, states, keys, times, n);
}

/// A key that the filters cannot mistake for an earlier one is a miss when it
/// is first inserted. Starting from a cache that has seen nothing, if no two
/// keys of a stream share a slot and the ring answers no for each key before
/// its insertion, every insertion of the stream is counted as a miss, and
/// nothing else is counted.
pub proof fn first_sight_is_a_miss(
    capacity: nat,
    states: Seq<CacheModel>,
    keys: Seq<u64>,
    times: Seq<nat>,
)
    requires
        capacity > 0,
        is_run(states, keys, times),
        states[0] == CacheModel::fresh(capacity),
        forall|i: int, j: int|
            0 <= i < j < keys.len() ==> #[trigger] slot_of(keys[i]) != #[trigger] slot_of(keys[j]),
        forall|i: int|
            0 <= i < keys.len() ==> !ring_holds((#[trigger] states[i]).horizon.ring, keys[i]),
    ensures
        forall|i: int|
            0 <= i < keys.len() ==> classify(#[trigger] states[i], keys[i]) == Classification::Miss,
        states[keys.len() as int].stats.misses == keys.len(),
        forall|b: int| 0 <= b < 10 ==> (#[trigger] states[keys.len() as int].stats.hits[b]) == 0,
{
    lemma_first_sights(capacity, states, keys, times, keys.len() as int);
}

/// A key inserted twice in a row is a hit in the first bucket the second
/// time, provided the head segment still holds it after the first insertion.
/// It does whenever the head had fewer than four items, and otherwise unless
/// its filter was full and gave up that very key.
pub proof fn repeat_is_nearest_hit(pre: CacheModel, key: u64, now: nat, post: CacheModel)
    requires
        pre.valid(),
        cache_inserted(pre, key, now, post),
        post.window[0].contains(slot_of(key)),
    ensures
        classify(post, key) is Hit,
        bucket_of(classify(post, key)->percentage as nat) == 0,
        recorded(post.stats, classify(post, key)) == post.stats.with_hit(0),
{
    let slot = slot_of(key);
    let lost = choose|lost: Option<u64>| #[trigger]
        inserted_losing(pre.window, slot, pre.threshold, pre.capacity, lost, post.window);
    lemma_inserted_shape(pre.window, slot, pre.threshold, pre.capacity, lost, post.window);
    assert(is_newest_holding(post.window, slot, 0));
    lemma_position_unique(post.window, slot, 0);
    let c = post.capacity;
    let len = post.window[0].len();
    assert(items_before(post.window, 0) == 0);
    let mid = (0 + (0 + len)) / 2;
    assert(estimated_percentage(post.window, 0, c) == 100 * mid / c);
    if c < 10 {
        assert(mid == 0);
        assert(100 * mid / c == 0) by (nonlinear_arith)
            requires
                mid == 0,
                c > 0,
        ;
    } else {
        assert(100 * mid / c <= 10) by (nonlinear_arith)
            requires
                c >= 10,
                0 <= mid <= (c / 10 + 1) / 2,
        ;
    }
    assert(reported_percentage(post.window, 0, c) <= 25);
}

/// A key that the head segment took without giving anything up is in the head
/// segment after its insertion.
pub proof fn stored_key_is_in_the_head(pre: CacheModel, key: u64)
    requires
        pre.valid(),
    ensures
        window_after(pre.window, slot_of(key), pre.threshold, pre.capacity, None)[0].contains(
            slot_of(key),
        ),
{
    let post = window_after(pre.window, slot_of(key), pre.threshold, pre.capacity, None);
    assert(inserted_losing(pre.window, slot_of(key), pre.threshold, pre.capacity, None, post));
    lemma_inserted_shape(pre.window, slot_of(key), pre.threshold, pre.capacity, None, post);
}

/// A head segment of fewer than four items has room for the key: after the
/// insertion it holds it.
pub proof fn short_head_keeps_the_key(pre: CacheModel, key: u64, now: nat, post: CacheModel)
    requires
        pre.valid(),
        cache_inserted(pre, key, now, post),
        staged_head(pre.window, slot_of(key), pre.threshold).len() < 4,
    ensures
        post.window == window_after(pre.window, slot_of(key), pre.threshold, pre.capacity, None),
        post.window[0].contains(slot_of(key)),
{
    let slot = slot_of(key);
    let lost = choose|lost: Option<u64>| #[trigger]
        inserted_losing(pre.window, slot, pre.threshold, pre.capacity, lost, post.window);
    assert(lost is None);
    lemma_inserted_shape(pre.window, slot, pre.threshold, pre.capacity, lost, post.window);
}

/// In a cache that has seen nothing, a key inserted twice is counted as one
/// miss and then as one hit in the first bucket.
pub proof fn first_key_twice(
    capacity: nat,
    key: u64,
    first: nat,
    second: nat,
    once: CacheModel,
    twice: CacheModel,
)
    requires
        capacity > 0,
        cache_inserted(CacheModel::fresh(capacity), key, first, once),
        cache_inserted(once, key, second, twice),
    ensures
        once.stats == StatsModel::zero().with_miss(),
        twice.stats == StatsModel::zero().with_miss().with_hit(0),
        twice.stats.misses == 1,
        twice.stats.hits[0] == 1,
        forall|b: int| 1 <= b < 10 ==> (#[trigger] twice.stats.hits[b]) == 0,
{
    let fresh = CacheModel::fresh(capacity);
    let slot = slot_of(key);
    StatsModel::lemma_zero_total();
    assert(fresh.valid());
    lemma_position_none(fresh.window, slot);
    assert(!ring_holds(fresh.horizon.ring, key));
    assert(classify(fresh, key) == Classification::Miss);
    lemma_remove_len(rolled(fresh.window, fresh.threshold)[0], slot);
    assert(staged_head(fresh.window, slot, fresh.threshold).len() == 0);
    short_head_keeps_the_key(fresh, key, first, once);
    insertion_counts_once(fresh, key, first, once);
    repeat_is_nearest_hit(fresh, key, first, once);
}

/// A key just inserted is known: its next insertion is not a miss.
pub proof fn inserted_key_is_known(pre: CacheModel, key: u64, now: nat, post: CacheModel)
    requires
        pre.valid(),
        cache_inserted(pre, key, now, post),
    ensures
        classify(post, key) != Classification::Miss,
{
    assert(post.horizon.ring[0].contains(key));
}

/// An insertion moves exactly one counter, by one.
pub proof fn insertion_counts_once(pre: CacheModel, key: u64, now: nat, post: CacheModel)
    requires
        pre.valid(),
        cache_inserted(pre, key, now, post),
    ensures
        post.valid(),
        post.stats.total() == pre.stats.total() + 1,
        post.stats.misses >= pre.stats.misses,
        forall|b: int| 0 <= b < 10 ==> (#[trigger] post.stats.hits[b]) >= pre.stats.hits[b],
{
    pre.stats.lemma_miss_counts_once();
    pre.stats.lemma_hit_counts_once(9);
    if let Classification::Hit { percentage } = classify(pre, key) {
        pre.stats.lemma_hit_counts_once(bucket_of(percentage as nat));
    }
}

/// The window stays bounded: after an insertion every segment starts below
/// five times the capacity, so all segments but the oldest hold fewer items
/// than that between them, and the head holds at most one item more than the
/// size at which a segment is closed. The ring keeps its length.
pub proof fn contents_stay_bounded(pre: CacheModel, key: u64, now: nat, post: CacheModel)
    requires
        pre.valid(),
        cache_inserted(pre, key, now, post),
    ensures
        post.horizon.ring.len() == ALL_KEY_NUM_BUCKETS,
        post.window.len() >= 1,
        post.window[0].len() <= post.threshold + 1,
        forall|j: int|
            0 <= j < post.window.len() ==> (#[trigger] items_before(post.window, j)) < 5
                * post.capacity,
{
    let slot = slot_of(key);
    let lost = choose|lost: Option<u64>| #[trigger]
        inserted_losing(pre.window, slot, pre.threshold, pre.capacity, lost, post.window);
    lemma_inserted_shape(pre.window, slot, pre.threshold, pre.capacity, lost, post.window);
}

/// After a rotation, a key that only the oldest bucket of the ring held is
/// forgotten: once it has left the window too, and unless the new bucket
/// mistakes it for the key just inserted, its next insertion is a miss.
pub proof fn rotation_forgets_the_oldest(
    pre: CacheModel,
    key: u64,
    now: nat,
    post: CacheModel,
    seen: u64,
)
    requires
        pre.valid(),
        cache_inserted(pre, key, now, post),
        rotation_due(pre.horizon.last_rotation, now),
        forall|i: int|
            0 <= i < ALL_KEY_NUM_BUCKETS - 1 ==> !(#[trigger] pre.horizon.ring[i]).contains(seen),
        !post.horizon.ring[0].contains(seen),
        !window_holds(post.window, slot_of(seen)),
    ensures
        classify(post, seen) == Classification::Miss,
{
    lemma_position_none(post.window, slot_of(seen));
    assert forall|i: int| 0 <= i < post.horizon.ring.len() implies !(
    #[trigger] post.horizon.ring[i]).contains(seen) by {
        if i >= 1 {
            assert(post.horizon.ring[i] == pre.horizon.ring[i - 1]);
        }
    }
}

/// After a rotation, a key that a bucket other than the oldest held is still
/// remembered: once it has left the window, its next insertion is a tail hit.
pub proof fn rotation_keeps_the_rest(
    pre: CacheModel,
    key: u64,
    now: nat,
    post: CacheModel,
    seen: u64,
    bucket: int,
)
    requires
        pre.valid(),
        cache_inserted(pre, key, now, post),
        rotation_due(pre.horizon.last_rotation, now),
        0 <= bucket < ALL_KEY_NUM_BUCKETS - 1,
        pre.horizon.ring[bucket].contains(seen),
        !window_holds(post.window, slot_of(seen)),
    ensures
        classify(post, seen) == Classification::TailHit,
{
    lemma_position_none(post.window, slot_of(seen));
    assert(post.horizon.ring[bucket + 1] == pre.horizon.ring[bucket]);
    assert(post.horizon.ring[bucket + 1].contains(seen));
}

/// Without a rotation the ring forgets nothing: whatever it held before an
/// insertion it holds after it.
pub proof fn ring_remembers_between_rotations(
    pre: CacheModel,
    key: u64,
    now: nat,
    post: CacheModel,
    seen: u64,
)
    requires
        pre.valid(),
        cache_inserted(pre, key, now, post),
        !rotation_due(pre.horizon.last_rotation, now),
        ring_holds(pre.horizon.ring, seen),
    ensures
        ring_holds(post.horizon.ring, seen),
{
    let i = choose|i: int| 0 <= i < pre.horizon.ring.len() && (#[trigger] pre.horizon.ring[i]).contains(seen);
    if i >= 1 {
        assert(post.horizon.ring[i] == pre.horizon.ring[i]);
        assert(post.horizon.ring[i].contains(seen));
    } else {
        assert(pre.horizon.ring[0].insert(key).contains(seen));
        assert(post.horizon.ring[0].contains(seen));
    }
}

} // verus!
