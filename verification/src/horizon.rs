//! The long-horizon filter: a ring of large filters, one per time slice, that
//! remembers every key seen within the horizon, however far the recency window
//! has moved on.

use crate::filters::{
    bucket_bit_count, bucket_bits, bucket_contains, bucket_insert, bucket_members, bucket_new,
    HorizonBucket,
};
use vstd::prelude::*;

verus! {

/// The number of buckets in the ring.
pub const ALL_KEY_NUM_BUCKETS: usize = 12;

/// The time after which the ring moves on by one bucket: three hours, in
/// nanoseconds.
pub const ALL_KEY_DURATION_NANOS: u128 = 10_800_000_000_000;

/// What a long-horizon filter stands for: for each bucket, newest first, the
/// fingerprints it answers yes for, and the time of the last rotation.
pub struct HorizonModel {
    pub ring: Seq<Set<u64>>,
    pub last_rotation: nat,
}

/// Some bucket of the ring answers yes for the fingerprint.
pub open spec fn ring_holds(ring: Seq<Set<u64>>, fingerprint: u64) -> bool {
    exists|i: int| 0 <= i < ring.len() && (#[trigger] ring[i]).contains(fingerprint)
}

/// More than the rotation period has passed between `last` and `now`.
pub open spec fn rotation_due(last: nat, now: nat) -> bool {
    now - last > ALL_KEY_DURATION_NANOS
}

/// The ring moved on by one bucket: the oldest is gone, and a bucket that
/// answers no for everything is the newest.
pub open spec fn rotated(ring: Seq<Set<u64>>) -> Seq<Set<u64>> {
    seq![Set::<u64>::empty()] + ring.drop_last()
}

/// The ring that an insertion at time `now` writes to: moved on if a rotation
/// is due, as it was if none is.
pub open spec fn ring_at(pre: HorizonModel, now: nat) -> Seq<Set<u64>> {
    if rotation_due(pre.last_rotation, now) {
        rotated(pre.ring)
    } else {
        pre.ring
    }
}

/// `post` is a state that `pre` can reach by the insertion of `fingerprint` at
/// time `now`: the ring moves on if a rotation is due, the newest bucket then
/// goes on answering yes wherever it did and answers yes for the fingerprint,
/// and the other buckets are untouched.
pub open spec fn horizon_inserted(
    pre: HorizonModel,
    fingerprint: u64,
    now: nat,
    post: HorizonModel,
) -> bool {
    let staged = ring_at(pre, now);
    &&& post.last_rotation == if rotation_due(pre.last_rotation, now) {
        now
    } else {
        pre.last_rotation
    }
    &&& post.ring.len() == staged.len()
    &&& forall|i: int| 1 <= i < staged.len() ==> #[trigger] post.ring[i] == staged[i]
    &&& staged[0].insert(fingerprint).subset_of(post.ring[0])
}

/// The long-horizon filter.
pub struct LongHorizonFilter {
    ring: Vec<HorizonBucket>,
    last_rotation: u128,
}

impl View for LongHorizonFilter {
    type V = HorizonModel;

    closed spec fn view(&self) -> HorizonModel {
        HorizonModel {
            ring: Seq::new(self.ring@.len(), |i: int| bucket_members(self.ring@[i])),
            last_rotation: self.last_rotation as nat,
        }
    }
}

impl LongHorizonFilter {
    /// The ring has its fixed number of buckets.
    pub open spec fn wf(&self) -> bool {
        self@.ring.len() == ALL_KEY_NUM_BUCKETS
    }

    /// A ring of buckets that answer no for everything, last rotated at time
    /// zero.
    pub fn new() -> (filter: LongHorizonFilter)
        ensures
            filter.wf(),
            filter@.last_rotation == 0,
            forall|i: int| 0 <= i < filter@.ring.len() ==> filter@.ring[i] == Set::<u64>::empty(),
    {
        let mut ring: Vec<HorizonBucket> = Vec::new();
        let mut i: usize = 0;
        while i < ALL_KEY_NUM_BUCKETS
            invariant
                i <= ALL_KEY_NUM_BUCKETS,
                ring@.len() == i,
                forall|j: int| 0 <= j < i ==> bucket_members(#[trigger] ring@[j]) == Set::<u64>::empty(),
            decreases ALL_KEY_NUM_BUCKETS - i,
        {
            ring.push(bucket_new());
            i += 1;
        }
        LongHorizonFilter { ring, last_rotation: 0 }
    }

    /// Whether the fingerprint was seen within the horizon, as far as the
    /// filters can tell: whether any bucket answers yes for it.
    pub fn contains(&self, fingerprint: u64) -> (found: bool)
        ensures
            found == ring_holds(self@.ring, fingerprint),
    {
        let mut i: usize = 0;
        while i < self.ring.len()
            invariant
                i <= self.ring.len(),
                forall|j: int| 0 <= j < i ==> !(#[trigger] self@.ring[j]).contains(fingerprint),
            decreases self.ring.len() - i,
        {
            if bucket_contains(&self.ring[i], fingerprint) {
                assert(self@.ring[i as int].contains(fingerprint));
                return true;
            }
            i += 1;
        }
        false
    }

    /// Moves the ring on by one bucket: drops the oldest and puts an empty one
    /// in front.
    pub fn rotate(&mut self)
        requires
            old(self).wf(),
        ensures
            final(self).wf(),
            final(self)@.ring == rotated(old(self)@.ring),
            final(self)@.last_rotation == old(self)@.last_rotation,
    {
        self.ring.pop();
        self.ring.insert(0, bucket_new());
        assert(final(self)@.ring =~= rotated(old(self)@.ring));
    }

    /// Records the fingerprint as seen at time `now`: moves the ring on first
    /// if more than the rotation period has passed since it last moved, then
    /// writes the fingerprint to the newest bucket.
    pub fn insert(&mut self, fingerprint: u64, now: u128)
        requires
            old(self).wf(),
        ensures
            final(self).wf(),
            horizon_inserted(old(self)@, fingerprint, now as nat, final(self)@),
    {
        if now > self.last_rotation && now - self.last_rotation > ALL_KEY_DURATION_NANOS {
            self.rotate();
            self.last_rotation = now;
        }
        let ghost staged = self@.ring;
        bucket_insert(&mut self.ring[0], fingerprint);
        assert(forall|i: int| 1 <= i < staged.len() ==> #[trigger] self@.ring[i] == staged[i]);
    }

    /// The bits that each bucket uses, newest first.
    pub closed spec fn bit_counts(&self) -> Seq<u64> {
        Seq::new(self.ring@.len(), |i: int| bucket_bit_count(self.ring@[i]))
    }

    /// The bits that each bucket uses, newest first, as its filter reports
    /// them. Each figure covers at least one byte.
    pub fn bucket_sizes(&self) -> (bits: Vec<u64>)
        ensures
            bits@ == self.bit_counts(),
            bits@.len() == self@.ring.len(),
            forall|i: int| 0 <= i < bits@.len() ==> (#[trigger] bits@[i]) >= 8,
    {
        let mut bits: Vec<u64> = Vec::new();
        let mut i: usize = 0;
        while i < self.ring.len()
            invariant
                i <= self.ring.len(),
                bits@.len() == i,
                forall|j: int| 0 <= j < i ==> (#[trigger] bits@[j]) == self.bit_counts()[j],
                forall|j: int| 0 <= j < i ==> (#[trigger] bits@[j]) >= 8,
            decreases self.ring.len() - i,
        {
            bits.push(bucket_bits(&self.ring[i]));
            i += 1;
        }
        assert(bits@ =~= self.bit_counts());
        bits
    }
}

} // verus!
