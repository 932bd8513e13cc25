//! Hit and miss counters, bucketed by how far back, in percent of the cache
//! size, a key was last seen.

use vstd::prelude::*;

verus! {

/// Upper edges, in percent of the cache size, of the bounded hit buckets, in
/// ascending order. One more bucket follows them and takes everything beyond
/// the last edge.
pub const BUCKET_PERCENTAGES: [u16; 9] = [25, 50, 75, 90, 100, 110, 150, 200, 500];

/// Index of the bucket beyond the last edge.
pub const OVERFLOW_BUCKET: usize = 9;

/// The edges of the bounded buckets as a sequence of naturals.
pub open spec fn boundaries() -> Seq<nat> {
    seq![25, 50, 75, 90, 100, 110, 150, 200, 500]
}

/// The bucket a hit at `percentage` is counted in: the first one whose edge is
/// at or above the percentage, or the overflow bucket when no edge is.
pub open spec fn bucket_of(percentage: nat) -> nat {
    if percentage <= 25 {
        0
    } else if percentage <= 50 {
        1
    } else if percentage <= 75 {
        2
    } else if percentage <= 90 {
        3
    } else if percentage <= 100 {
        4
    } else if percentage <= 110 {
        5
    } else if percentage <= 150 {
        6
    } else if percentage <= 200 {
        7
    } else if percentage <= 500 {
        8
    } else {
        9
    }
}

/// `bucket_of` picks the first edge at or above the percentage, and the
/// overflow bucket if every edge is below it.
pub proof fn lemma_bucket_of_is_first_edge(percentage: nat)
    ensures
        bucket_of(percentage) <= 9,
        forall|j: int| 0 <= j < bucket_of(percentage) ==> (#[trigger] boundaries()[j]) < percentage,
        bucket_of(percentage) < 9 ==> percentage <= boundaries()[bucket_of(percentage) as int],
{
    let b = boundaries();
    assert(b[0] == 25 && b[1] == 50 && b[2] == 75 && b[3] == 90 && b[4] == 100);
    assert(b[5] == 110 && b[6] == 150 && b[7] == 200 && b[8] == 500);
}

/// What a `BucketStats` stands for: one counter per bucket and the count of
/// misses.
pub struct StatsModel {
    pub hits: Seq<nat>,
    pub misses: nat,
}

impl StatsModel {
    /// Ten counters, all zero, and no miss.
    pub open spec fn zero() -> StatsModel {
        StatsModel { hits: Seq::new(10, |i: int| 0nat), misses: 0 }
    }

    /// The statistics after one more hit in bucket `bucket`.
    pub open spec fn with_hit(self, bucket: nat) -> StatsModel {
        StatsModel {
            hits: self.hits.update(bucket as int, self.hits[bucket as int] + 1),
            misses: self.misses,
        }
    }

    /// The statistics after one more miss.
    pub open spec fn with_miss(self) -> StatsModel {
        StatsModel { hits: self.hits, misses: self.misses + 1 }
    }

    /// The number of hits counted in the buckets up to and including `bucket`.
    pub open spec fn hits_through(self, bucket: int) -> nat
        decreases bucket + 1,
    {
        if bucket < 0 {
            0
        } else {
            self.hits_through(bucket - 1) + self.hits[bucket]
        }
    }

    /// Everything counted so far: all hits and all misses.
    pub open spec fn total(self) -> nat {
        self.hits_through(9) + self.misses
    }

    /// There is one counter for each bucket.
    pub open spec fn valid(self) -> bool {
        self.hits.len() == 10
    }

    /// A hit adds one to the total, and no counter exceeds the total.
    pub proof fn lemma_hit_counts_once(self, bucket: nat)
        requires
            self.valid(),
            bucket < 10,
        ensures
            self.with_hit(bucket).valid(),
            self.with_hit(bucket).total() == self.total() + 1,
            self.hits[bucket as int] <= self.hits_through(9),
    {
        reveal_with_fuel(StatsModel::hits_through, 11);
    }

    /// Nothing is counted in the statistics that start at zero.
    pub proof fn lemma_zero_total()
        ensures
            StatsModel::zero().valid(),
            StatsModel::zero().total() == 0,
    {
        reveal_with_fuel(StatsModel::hits_through, 11);
    }

    /// The hits counted up to a bucket do not exceed those counted up to a
    /// later one.
    pub proof fn lemma_hits_through_grows(self, i: int, j: int)
        requires
            i <= j,
        ensures
            self.hits_through(i) <= self.hits_through(j),
        decreases j - i,
    {
        if i < j {
            self.lemma_hits_through_grows(i, j - 1);
        }
    }

    /// A miss adds one to the total.
    pub proof fn lemma_miss_counts_once(self)
        requires
            self.valid(),
        ensures
            self.with_miss().valid(),
            self.with_miss().total() == self.total() + 1,
    {
        reveal_with_fuel(StatsModel::hits_through, 11);
    }
}

/// Histogram of hits by bucket, and the count of misses.
#[derive(Debug)]
pub struct BucketStats {
    bucket_values: [u128; 10],
    misses: u128,
}

impl View for BucketStats {
    type V = StatsModel;

    closed spec fn view(&self) -> StatsModel {
        StatsModel {
            hits: Seq::new(10, |i: int| self.bucket_values@[i] as nat),
            misses: self.misses as nat,
        }
    }
}

impl Default for BucketStats {
    fn default() -> (stats: BucketStats)
        ensures
            stats@ == StatsModel::zero(),
            stats@.total() == 0,
    {
        BucketStats::new()
    }
}

impl BucketStats {
    /// Every `BucketStats` has ten counters, and each counter fits its type.
    pub proof fn lemma_view_valid(&self)
        ensures
            self@.valid(),
            self@.misses <= u128::MAX,
            forall|i: int| 0 <= i < 10 ==> (#[trigger] self@.hits[i]) <= u128::MAX,
    {
    }

    /// Statistics with nothing counted.
    pub fn new() -> (stats: BucketStats)
        ensures
            stats@ == StatsModel::zero(),
            stats@.total() == 0,
    {
        let stats = BucketStats { bucket_values: [0; 10], misses: 0 };
        assert(stats@.hits =~= StatsModel::zero().hits);
        proof {
            StatsModel::lemma_zero_total();
        }
        stats
    }

    /// The bucket that a hit at `val` percent falls in.
    pub fn bucket_index(val: u16) -> (pos: usize)
        ensures
            pos == bucket_of(val as nat),
    {
        let mut pos: usize = 0;
        while pos < 9 && val > BUCKET_PERCENTAGES[pos]
            invariant
                pos <= 9,
                forall|j: int| 0 <= j < pos ==> boundaries()[j] < val,
            decreases 9 - pos,
        {
            pos += 1;
        }
        proof {
            let b = boundaries();
            assert(b[0] == 25 && b[1] == 50 && b[2] == 75 && b[3] == 90 && b[4] == 100);
            assert(b[5] == 110 && b[6] == 150 && b[7] == 200 && b[8] == 500);
        }
        pos
    }

    /// Counts a hit at `val` percent of the cache size.
    pub fn hit(&mut self, val: u16)
        requires
            old(self)@.hits[bucket_of(val as nat) as int] < u128::MAX,
        ensures
            final(self)@ == old(self)@.with_hit(bucket_of(val as nat)),
    {
        let pos = BucketStats::bucket_index(val);
        self.bucket_values[pos] += 1;
        assert(final(self)@.hits =~= old(self)@.with_hit(bucket_of(val as nat)).hits);
    }

    /// Counts a hit on a key that was seen too long ago to say how long.
    pub fn hit_inf(&mut self)
        requires
            old(self)@.hits[9] < u128::MAX,
        ensures
            final(self)@ == old(self)@.with_hit(9),
    {
        self.bucket_values[OVERFLOW_BUCKET] += 1;
        assert(final(self)@.hits =~= old(self)@.with_hit(9).hits);
    }

    /// Counts a miss.
    pub fn miss(&mut self)
        requires
            old(self)@.misses < u128::MAX,
        ensures
            final(self)@ == old(self)@.with_miss(),
    {
        self.misses += 1;
        assert(final(self)@.hits =~= old(self)@.with_miss().hits);
    }

    /// The counters of the ten buckets, in the order of their edges.
    pub fn hits(&self) -> (counts: &[u128; 10])
        ensures
            counts@.len() == 10,
            forall|i: int| 0 <= i < 10 ==> counts@[i] == self@.hits[i],
    {
        &self.bucket_values
    }

    /// For each bucket, the hits counted in it and in the buckets before it;
    /// `None` if the sum of all hits is beyond what 128 bits hold.
    pub fn cumulative_hits(&self) -> (sums: Option<[u128; 10]>)
        ensures
            sums is Some <==> self@.hits_through(9) <= u128::MAX,
            sums matches Some(s) ==> forall|i: int|
                0 <= i < 10 ==> (#[trigger] s@[i]) == self@.hits_through(i),
    {
        let mut sums: [u128; 10] = [0; 10];
        let mut running: u128 = 0;
        let mut i: usize = 0;
        proof {
            reveal_with_fuel(StatsModel::hits_through, 11);
        }
        while i < 10
            invariant
                i <= 10,
                running == self@.hits_through(i - 1),
                forall|j: int| 0 <= j < i ==> (#[trigger] sums@[j]) == self@.hits_through(j),
            decreases 10 - i,
        {
            match running.checked_add(self.bucket_values[i]) {
                Some(next) => {
                    running = next;
                },
                None => {
                    proof {
                        self@.lemma_hits_through_grows(i as int, 9);
                    }
                    return None;
                },
            }
            sums[i] = running;
            i += 1;
        }
        Some(sums)
    }

    /// Everything counted so far, hits and misses; `None` if that is beyond
    /// what 128 bits hold.
    pub fn total(&self) -> (total: Option<u128>)
        ensures
            total is Some <==> self@.total() <= u128::MAX,
            total matches Some(t) ==> t == self@.total(),
    {
        match self.cumulative_hits() {
            Some(sums) => sums[9].checked_add(self.misses),
            None => None,
        }
    }

    /// The number of misses.
    pub fn misses(&self) -> (count: u128)
        ensures
            count == self@.misses,
    {
        self.misses
    }
}

} // verus!
