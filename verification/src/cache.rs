//! The cache simulator: classifies each key of a stream as a hit at some
//! distance, a hit beyond the window, or a miss, and keeps count.

use crate::filters::{clock_now, elapsed_since, feed, slot_of, whole_nanos};
use crate::horizon::{
    horizon_inserted, ring_holds, HorizonModel, LongHorizonFilter, ALL_KEY_NUM_BUCKETS,
};
use crate::stats::{bucket_of, BucketStats, StatsModel};
use crate::window::{
    inserted, lemma_sizes_fit, position, reported_percentage, staged_head, window_after,
    RecencyWindow, WindowModel,
};
use std::collections::hash_map::DefaultHasher;
use std::hash::{Hash, Hasher};
use std::time::Instant;
use vstd::multiset::Multiset;
use vstd::prelude::*;

verus! {

/// How an insertion was counted.
#[derive(Clone, Copy, Debug, PartialEq, Eq, Structural)]
pub enum Classification {
    /// The key was found in the recency window, last inserted about
    /// `percentage` percent of the cache size ago.
    Hit { percentage: u16 },
    /// The key was not in the window, but was seen within the horizon.
    TailHit,
    /// The key was not seen before, as far as the filters can tell.
    Miss,
}

/// What an insertion did.
#[derive(Clone, Copy, Debug, PartialEq, Eq)]
pub struct Insertion {
    /// How the insertion was counted.
    pub class: Classification,
    /// Whether the head segment of the window took the key without giving
    /// anything up. It does unless its filter is full.
    pub stored: bool,
}

/// What a cache stands for.
pub struct CacheModel {
    pub window: WindowModel,
    pub horizon: HorizonModel,
    pub capacity: nat,
    pub threshold: nat,
    pub stats: StatsModel,
}

impl CacheModel {
    /// The capacity is positive, the size at which a segment is closed is a
    /// tenth of it, the ring has its fixed length, and there is a counter for
    /// each bucket.
    pub open spec fn valid(self) -> bool {
        &&& self.capacity > 0
        &&& self.threshold == self.capacity / 10
        &&& self.horizon.ring.len() == ALL_KEY_NUM_BUCKETS
        &&& self.stats.valid()
    }

    /// A cache of the given capacity that has seen nothing.
    pub open spec fn fresh(capacity: nat) -> CacheModel {
        CacheModel {
            window: Seq::<Multiset<u64>>::empty(),
            horizon: HorizonModel {
                ring: Seq::new(ALL_KEY_NUM_BUCKETS as nat, |i: int| Set::<u64>::empty()),
                last_rotation: 0,
            },
            capacity,
            threshold: capacity / 10,
            stats: StatsModel::zero(),
        }
    }
}

/// How the cache counts an insertion of `fingerprint`: a hit if the window
/// holds it, at the distance estimated from the newest segment that does; else
/// a tail hit if the ring holds it; else a miss.
pub open spec fn classify(m: CacheModel, fingerprint: u64) -> Classification {
    match position(m.window, slot_of(fingerprint)) {
        Some(pos) => Classification::Hit {
            percentage: reported_percentage(m.window, pos, m.capacity) as u16,
        },
        None => if ring_holds(m.horizon.ring, fingerprint) {
            Classification::TailHit
        } else {
            Classification::Miss
        },
    }
}

/// The statistics after an insertion counted as `class`.
pub open spec fn recorded(stats: StatsModel, class: Classification) -> StatsModel {
    match class {
        Classification::Hit { percentage } => stats.with_hit(bucket_of(percentage as nat)),
        Classification::TailHit => stats.with_hit(9),
        Classification::Miss => stats.with_miss(),
    }
}

/// `post` is a state that `pre` can reach by the insertion of `fingerprint` at
/// time `now`. The insertion is counted against `pre`, before it changes
/// anything; then the ring and the window take the fingerprint.
pub open spec fn cache_inserted(
    pre: CacheModel,
    fingerprint: u64,
    now: nat,
    post: CacheModel,
) -> bool {
    &&& post.capacity == pre.capacity
    &&& post.threshold == pre.threshold
    &&& post.stats == recorded(pre.stats, classify(pre, fingerprint))
    &&& horizon_inserted(pre.horizon, fingerprint, now, post.horizon)
    &&& inserted(pre.window, slot_of(fingerprint), pre.threshold, pre.capacity, post.window)
}

/// The sum of the first `n` byte counts.
pub open spec fn bytes_in(segment_bytes: Seq<usize>, n: int) -> nat
    decreases n,
{
    if n <= 0 {
        0
    } else {
        bytes_in(segment_bytes, n - 1) + segment_bytes[n - 1] as nat
    }
}

/// The bytes in the first `n` bit counts: an eighth of each, rounded down.
pub open spec fn eighths_in(ring_bits: Seq<u64>, n: int) -> nat
    decreases n,
{
    if n <= 0 {
        0
    } else {
        eighths_in(ring_bits, n - 1) + (ring_bits[n - 1] / 8) as nat
    }
}

/// The bytes in all: the byte counts of the segments, and an eighth of the bit
/// count of each bucket.
pub open spec fn bytes_in_all(segment_bytes: Seq<usize>, ring_bits: Seq<u64>) -> nat {
    bytes_in(segment_bytes, segment_bytes.len() as int) + eighths_in(
        ring_bits,
        ring_bits.len() as int,
    )
}

/// The memory that filters of the given sizes occupy in all.
pub fn footprint(segment_bytes: &Vec<usize>, ring_bits: &Vec<u64>) -> (total: u128)
    requires
        ring_bits@.len() <= ALL_KEY_NUM_BUCKETS,
    ensures
        total == bytes_in_all(segment_bytes@, ring_bits@),
{
    let mut total: u128 = 0;
    let mut i: usize = 0;
    while i < segment_bytes.len()
        invariant
            i <= segment_bytes.len(),
            total == bytes_in(segment_bytes@, i as int),
            total <= i * usize::MAX,
        decreases segment_bytes.len() - i,
    {
        proof {
            lemma_sizes_fit(i);
        }
        total = total + segment_bytes[i] as u128;
        i += 1;
    }
    assert(total <= 0xffff_ffff_ffff_ffff * 0xffff_ffff_ffff_ffff) by (nonlinear_arith)
        requires
            total <= i * usize::MAX,
            0 <= i <= usize::MAX <= 0xffff_ffff_ffff_ffff,
    ;
    let ghost bytes = total;
    let mut j: usize = 0;
    while j < ring_bits.len()
        invariant
            j <= ring_bits.len() <= ALL_KEY_NUM_BUCKETS,
            bytes <= 0xffff_ffff_ffff_ffff * 0xffff_ffff_ffff_ffff,
            total == bytes + eighths_in(ring_bits@, j as int),
            total <= bytes + j * 0x1fff_ffff_ffff_ffff,
        decreases ring_bits.len() - j,
    {
        total = total + (ring_bits[j] / 8) as u128;
        j += 1;
    }
    total
}

/// The cache simulator.
pub struct Cache {
    queue: RecencyWindow,
    all_keys: LongHorizonFilter,
    max_size: u64,
    max_bucket_size: u64,
    stats: BucketStats,
    created: Instant,
}

impl View for Cache {
    type V = CacheModel;

    closed spec fn view(&self) -> CacheModel {
        CacheModel {
            window: self.queue@,
            horizon: self.all_keys@,
            capacity: self.max_size as nat,
            threshold: self.max_bucket_size as nat,
            stats: self.stats@,
        }
    }
}

impl Cache {
    /// The invariant of a cache.
    pub open spec fn wf(&self) -> bool {
        self@.valid()
    }

    /// The moment the cache was created, from which its clock counts.
    pub closed spec fn origin(&self) -> Instant {
        self.created
    }

    /// The bytes that each segment of the window occupies, newest first.
    pub closed spec fn segment_bytes(&self) -> Seq<usize> {
        self.queue.footprints()
    }

    /// The bits that each bucket of the ring uses, newest first.
    pub closed spec fn bucket_bits(&self) -> Seq<u64> {
        self.all_keys.bit_counts()
    }

    /// A cache of `max_size` items that has seen nothing.
    pub fn new(max_size: u64) -> (cache: Cache)
        requires
            max_size > 0,
        ensures
            cache.wf(),
            cache@ == CacheModel::fresh(max_size as nat),
            cache@.stats.total() == 0,
    {
        let cache = Cache {
            max_size,
            all_keys: LongHorizonFilter::new(),
            queue: RecencyWindow::new(),
            max_bucket_size: max_size / 10,
            stats: BucketStats::default(),
            created: clock_now(),
        };
        assert(cache@.horizon.ring =~= CacheModel::fresh(max_size as nat).horizon.ring);
        cache
    }

    /// Changes the size of the simulated cache. Only the capacity and the size
    /// at which a segment is closed change; the filters, with what they hold
    /// and what they occupy, and the clock stay as they are.
    pub fn change_cache_size(&mut self, max_size: u64)
        requires
            old(self).wf(),
            max_size > 0,
        ensures
            final(self).wf(),
            final(self)@ == (CacheModel {
                capacity: max_size as nat,
                threshold: (max_size / 10) as nat,
                ..old(self)@
            }),
            final(self).origin() == old(self).origin(),
            final(self).segment_bytes() == old(self).segment_bytes(),
            final(self).bucket_bits() == old(self).bucket_bits(),
    {
        self.max_size = max_size;
        self.max_bucket_size = max_size / 10;
    }

    /// How an insertion of `fingerprint` would be counted now.
    pub fn classify(&self, fingerprint: u64) -> (class: Classification)
        requires
            self.wf(),
        ensures
            class == classify(self@, fingerprint),
    {
        match self.queue.estimate(fingerprint, self.max_size) {
            Some(percentage) => Classification::Hit { percentage },
            None => if self.all_keys.contains(fingerprint) {
                Classification::TailHit
            } else {
                Classification::Miss
            },
        }
    }

    /// Counts an insertion of `fingerprint` at `now` nanoseconds after the
    /// cache was created, then records the fingerprint as seen at that time
    /// and as the most recent insertion.
    pub fn insert_at(&mut self, fingerprint: u64, now: u128) -> (done: Insertion)
        requires
            old(self).wf(),
            old(self)@.stats.total() < u128::MAX,
        ensures
            final(self).wf(),
            done.class == classify(old(self)@, fingerprint),
            cache_inserted(old(self)@, fingerprint, now as nat, final(self)@),
            done.stored ==> final(self)@.window == window_after(
                old(self)@.window,
                slot_of(fingerprint),
                old(self)@.threshold,
                old(self)@.capacity,
                None,
            ),
            staged_head(old(self)@.window, slot_of(fingerprint), old(self)@.threshold).len() < 4
                ==> done.stored,
            final(self)@.stats.total() == old(self)@.stats.total() + 1,
            final(self).origin() == old(self).origin(),
    {
        let class = self.classify(fingerprint);
        proof {
            self.stats.lemma_view_valid();
            self.stats@.lemma_miss_counts_once();
            self.stats@.lemma_hit_counts_once(9);
            if let Classification::Hit { percentage } = class {
                self.stats@.lemma_hit_counts_once(bucket_of(percentage as nat));
            }
        }
        match class {
            Classification::Hit { percentage } => self.stats.hit(percentage),
            Classification::TailHit => self.stats.hit_inf(),
            Classification::Miss => self.stats.miss(),
        }
        self.all_keys.insert(fingerprint, now);
        let stored = self.queue.insert(fingerprint, self.max_bucket_size, self.max_size);
        Insertion { class, stored }
    }

    /// The 64-bit fingerprint by which the cache knows `item`.
    pub fn fingerprint<T: Hash>(item: &T) -> u64 {
        let mut hasher = DefaultHasher::new();
        feed(item, &mut hasher);
        hasher.finish()
    }

    /// The nanoseconds that have passed since the cache was created.
    pub fn age(&self) -> u128 {
        let span = elapsed_since(&self.created);
        whole_nanos(&span)
    }

    /// Counts an insertion of `item` and records it as seen now.
    pub fn insert<T: Hash>(&mut self, item: T)
        requires
            old(self).wf(),
            old(self)@.stats.total() < u128::MAX,
        ensures
            final(self).wf(),
            exists|fingerprint: u64, now: nat| #[trigger]
                cache_inserted(old(self)@, fingerprint, now, final(self)@),
            final(self)@.stats.total() == old(self)@.stats.total() + 1,
            final(self).origin() == old(self).origin(),
    {
        let fingerprint = Cache::fingerprint(&item);
        let now = self.age();
        self.insert_at(fingerprint, now);
    }

    /// The statistics gathered so far. Reading them changes nothing, and what
    /// is read depends on the state of the cache alone.
    pub fn stats(&self) -> (stats: &BucketStats)
        ensures
            stats@ == self@.stats,
    {
        &self.stats
    }

    /// The bytes that the filters of the cache occupy: what each segment of
    /// the window reports, and an eighth of the bits that each bucket of the
    /// ring reports. Every segment accounts for at least the bytes of its
    /// table, and every bucket for at least one byte.
    pub fn memory_usage(&self) -> (total: u128)
        requires
            self.wf(),
        ensures
            total == bytes_in_all(self.segment_bytes(), self.bucket_bits()),
            self.segment_bytes().len() == self@.window.len(),
            self.bucket_bits().len() == self@.horizon.ring.len(),
            forall|i: int|
                0 <= i < self.segment_bytes().len() ==> (#[trigger] self.segment_bytes()[i])
                    >= 1_048_576,
            forall|i: int| 0 <= i < self.bucket_bits().len() ==> (#[trigger] self.bucket_bits()[i]) >= 8,
    {
        let segment_bytes = self.queue.segment_footprints();
        let ring_bits = self.all_keys.bucket_sizes();
        footprint(&segment_bytes, &ring_bits)
    }
}

} // verus!
