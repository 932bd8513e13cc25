//! The approximate-membership filters and the clock that the engine is built
//! on. Nothing in this file is proved: each contract states what the code
//! behind the call does, and the rest of the crate is verified against these
//! statements.

use cuckoofilter::CuckooFilter;
use rand::rngs::OsRng;
use rand::rand_core::UnwrapErr;
use rand::TryRngCore;
use scalable_cuckoo_filter::{ScalableCuckooFilter, ScalableCuckooFilterBuilder};
use std::collections::hash_map::DefaultHasher;
use std::hash::Hash;
use std::time::{Duration, Instant};
use vstd::multiset::Multiset;
use vstd::prelude::*;

verus! {

/// `cuckoofilter::CuckooFilter`, the filter behind one segment of the recency
/// window. Its inside is not visible to the verifier.
#[verifier::external_type_specification]
#[verifier::external_body]
#[verifier::reject_recursive_types(H)]
pub struct ExCuckooFilter<H>(CuckooFilter<H>);

/// `std::time::Instant`, carried from the creation of a cache to each reading
/// of the clock.
#[verifier::external_type_specification]
#[verifier::external_body]
pub struct ExInstant(Instant);

/// What a segment stores of a key: the key's one-byte fingerprint together with
/// the pair of table buckets that fingerprint may sit in, as `cuckoofilter`
/// derives them from the key's hash in a filter of the default capacity. Two
/// keys with the same slot cannot be told apart by a segment.
pub uninterp spec fn slot_of(key: u64) -> u64;

/// The slots a segment holds, each as often as it was added and not yet
/// deleted or pushed out.
pub uninterp spec fn segment_slots(segment: CuckooFilter<DefaultHasher>) -> Multiset<u64>;

/// The bytes a segment occupies, as the filter works them out from its own
/// fields: the size of its table, which is fixed when the filter is made, and
/// the size of the filter itself.
pub uninterp spec fn segment_bytes(segment: CuckooFilter<DefaultHasher>) -> usize;

/// `CuckooFilter::new`: a filter of the default capacity with nothing stored.
#[verifier::external_body]
pub(crate) fn segment_new() -> (segment: CuckooFilter<DefaultHasher>)
    ensures
        segment_slots(segment) == Multiset::<u64>::empty(),
{
    CuckooFilter::new()
}

/// `CuckooFilter::contains`: looks for the key's fingerprint in its two
/// buckets, so answers yes exactly when the key's slot is stored.
#[verifier::external_body]
pub(crate) fn segment_contains(segment: &CuckooFilter<DefaultHasher>, key: u64) -> (found: bool)
    ensures
        found == segment_slots(*segment).contains(slot_of(key)),
{
    segment.contains(&key)
}

/// `CuckooFilter::len`: the filter's count of stored fingerprints.
#[verifier::external_body]
pub(crate) fn segment_len(segment: &CuckooFilter<DefaultHasher>) -> (len: usize)
    ensures
        len == segment_slots(*segment).len(),
{
    segment.len()
}

/// `CuckooFilter::add`: stores the key's slot once more. When both of its
/// buckets are full the filter moves stored fingerprints to their other
/// bucket, picking them at random; if that frees no place it gives up with
/// `NotEnoughSpace`, and then one stored slot, possibly the new one, is lost.
/// A bucket has four places, so a filter that holds fewer than four slots has
/// room in every bucket and takes the key. The result tells whether the filter
/// returned `Ok`.
#[verifier::external_body]
pub(crate) fn segment_add(segment: &mut CuckooFilter<DefaultHasher>, key: u64) -> (stored: bool)
    ensures
        segment_slots(*old(segment)).len() < 4 ==> stored,
        stored ==> segment_slots(*final(segment)) == segment_slots(*old(segment)).insert(
            slot_of(key),
        ),
        !stored ==> exists|lost: u64|
            {
                &&& #[trigger] segment_slots(*old(segment)).insert(slot_of(key)).contains(lost)
                &&& segment_slots(*final(segment)) == segment_slots(*old(segment)).insert(
                    slot_of(key),
                ).remove(lost)
            },
{
    segment.add(&key).is_ok()
}

/// `CuckooFilter::delete`: removes one stored copy of the key's slot, if there
/// is one, and tells whether there was.
#[verifier::external_body]
pub(crate) fn segment_delete(segment: &mut CuckooFilter<DefaultHasher>, key: u64) -> (removed: bool)
    ensures
        removed == segment_slots(*old(segment)).contains(slot_of(key)),
        segment_slots(*final(segment)) == segment_slots(*old(segment)).remove(slot_of(key)),
{
    segment.delete(&key)
}

/// `CuckooFilter::memory_usage`: the bytes the filter occupies. The table of a
/// filter of the default capacity has 262,144 buckets of four one-byte places,
/// so the figure is at least their 1,048,576 bytes.
#[verifier::external_body]
pub(crate) fn segment_memory(segment: &CuckooFilter<DefaultHasher>) -> (bytes: usize)
    ensures
        bytes == segment_bytes(*segment),
        bytes >= 1_048_576,
{
    segment.memory_usage()
}

/// One bucket of the long-horizon ring: a
/// `scalable_cuckoo_filter::ScalableCuckooFilter` over 64-bit fingerprints,
/// hashing with `DefaultHasher` and drawing from the operating system's random
/// source.
#[verifier::external_body]
pub struct HorizonBucket {
    filter: ScalableCuckooFilter<u64, DefaultHasher, UnwrapErr<OsRng>>,
}

/// The fingerprints a bucket answers yes for: those inserted, and those it
/// cannot tell from an inserted one.
pub uninterp spec fn bucket_members(bucket: HorizonBucket) -> Set<u64>;

/// The bits a bucket uses, as the filter works them out from its own fields:
/// the bits of its tables and of the list that takes what the tables cannot.
pub uninterp spec fn bucket_bit_count(bucket: HorizonBucket) -> u64;

/// `ScalableCuckooFilterBuilder::finish`, with the hasher and the random source
/// set and the builder's own initial capacity and false-positive target: a
/// filter with nothing inserted, which answers no for every fingerprint.
#[verifier::external_body]
pub(crate) fn bucket_new() -> (bucket: HorizonBucket)
    ensures
        bucket_members(bucket) == Set::<u64>::empty(),
{
    HorizonBucket {
        filter: ScalableCuckooFilterBuilder::new()
            .rng(OsRng.unwrap_err())
            .hasher(DefaultHasher::new())
            .finish(),
    }
}

/// `ScalableCuckooFilter::contains`.
#[verifier::external_body]
pub(crate) fn bucket_contains(bucket: &HorizonBucket, fingerprint: u64) -> (found: bool)
    ensures
        found == bucket_members(*bucket).contains(fingerprint),
{
    bucket.filter.contains(&fingerprint)
}

/// `ScalableCuckooFilter::insert`: the filter grows rather than drop an entry,
/// so it goes on answering yes wherever it did, and answers yes for the
/// fingerprint inserted. It may start to answer yes for others too.
#[verifier::external_body]
pub(crate) fn bucket_insert(bucket: &mut HorizonBucket, fingerprint: u64)
    ensures
        bucket_members(*old(bucket)).insert(fingerprint).subset_of(bucket_members(*final(bucket))),
{
    bucket.filter.insert(&fingerprint)
}

/// `ScalableCuckooFilter::bits`: the bits the filter uses. Its first table is
/// there from the start and is counted in whole bytes, so the figure is at
/// least eight.
#[verifier::external_body]
pub(crate) fn bucket_bits(bucket: &HorizonBucket) -> (bits: u64)
    ensures
        bits == bucket_bit_count(*bucket),
        bits >= 8,
{
    bucket.filter.bits()
}

/// `Hash::hash`: feeds the item to the hasher. What is written depends on the
/// item's own implementation.
#[verifier::external_body]
pub(crate) fn feed<T: Hash>(item: &T, state: &mut DefaultHasher) {
    item.hash(state)
}

/// `Instant::now`.
#[verifier::external_body]
pub(crate) fn clock_now() -> Instant {
    Instant::now()
}

/// `Instant::elapsed`: the time that has passed since `start`.
#[verifier::external_body]
pub(crate) fn elapsed_since(start: &Instant) -> Duration {
    start.elapsed()
}

/// `Duration::as_nanos`.
#[verifier::external_body]
pub(crate) fn whole_nanos(span: &Duration) -> u128 {
    span.as_nanos()
}

} // verus!
