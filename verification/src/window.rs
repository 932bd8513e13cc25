//! The recency window: a row of filters, newest first, that tells roughly how
//! many insertions ago a key was last seen.

use crate::filters::{
    segment_add, segment_bytes, segment_contains, segment_delete, segment_len, segment_memory,
    segment_new, segment_slots, slot_of,
};
use cuckoofilter::CuckooFilter;
use std::collections::hash_map::DefaultHasher;
use vstd::multiset::Multiset;
use vstd::prelude::*;

verus! {

/// What a window stands for: the slots held by each segment, newest segment
/// first.
pub type WindowModel = Seq<Multiset<u64>>;

/// The number of slots held by the segments in front of segment `pos`.
pub open spec fn items_before(w: WindowModel, pos: int) -> nat
    decreases pos,
{
    if pos <= 0 {
        0
    } else {
        items_before(w, pos - 1) + w[pos - 1].len()
    }
}

/// Segment `pos` is the newest one that holds `slot`.
pub open spec fn is_newest_holding(w: WindowModel, slot: u64, pos: int) -> bool {
    &&& 0 <= pos < w.len()
    &&& w[pos].contains(slot)
    &&& forall|j: int| 0 <= j < pos ==> !(#[trigger] w[j]).contains(slot)
}

/// The index of the newest segment that holds `slot`, if any segment does.
pub open spec fn position(w: WindowModel, slot: u64) -> Option<int> {
    if exists|pos: int| is_newest_holding(w, slot, pos) {
        Some(choose|pos: int| is_newest_holding(w, slot, pos))
    } else {
        None
    }
}

/// The distance of a key found in segment `pos`, in percent of `capacity`:
/// the key was inserted after the segments behind and before those in front,
/// so its distance lies between the items in front of the segment and those
/// up to its end, and the middle of the two is taken.
pub open spec fn estimated_percentage(w: WindowModel, pos: int, capacity: nat) -> nat {
    let bottom = items_before(w, pos);
    let top = bottom + w[pos].len();
    100 * ((bottom + top) / 2) / capacity
}

/// The percentage handed to the statistics: the estimate, held to what sixteen
/// bits can say. Every value this cuts off lies beyond the last bucket edge.
pub open spec fn reported_percentage(w: WindowModel, pos: int, capacity: nat) -> nat {
    let p = estimated_percentage(w, pos, capacity);
    if p > u16::MAX {
        u16::MAX as nat
    } else {
        p
    }
}

/// The window with a new, empty head segment in front if it has none or its
/// head holds more than `threshold` slots.
pub open spec fn rolled(w: WindowModel, threshold: nat) -> WindowModel {
    if w.len() == 0 || w[0].len() > threshold {
        seq![Multiset::<u64>::empty()] + w
    } else {
        w
    }
}

/// The window with one copy of `slot` taken out of every segment.
pub open spec fn purged(w: WindowModel, slot: u64) -> WindowModel {
    Seq::new(w.len(), |i: int| w[i].remove(slot))
}

/// The head segment after `slot` was added to it: one more copy of the slot,
/// less the slot that the filter gave up, if it gave one up.
pub open spec fn head_after_add(head: Multiset<u64>, slot: u64, lost: Option<u64>) -> Multiset<
    u64,
> {
    match lost {
        None => head.insert(slot),
        Some(v) => head.insert(slot).remove(v),
    }
}

/// `lost` is something that adding `slot` to `head` can push out: nothing, or,
/// where the head holds four slots or more, a slot that it holds once `slot`
/// is added. A head of fewer than four slots has room and loses nothing.
pub open spec fn can_lose(head: Multiset<u64>, slot: u64, lost: Option<u64>) -> bool {
    lost matches Some(v) ==> head.len() >= 4 && head.insert(slot).contains(v)
}

/// The head segment that an insertion adds its slot to: the head of the window
/// once it is rolled and the slot is deleted from every segment.
pub open spec fn staged_head(w: WindowModel, slot: u64, threshold: nat) -> Multiset<u64> {
    purged(rolled(w, threshold), slot)[0]
}

/// The window is cut in front of segment `p`: every segment kept starts below
/// `limit` items, and the first one dropped, if any, starts at or beyond it.
pub open spec fn is_cut_point(w: WindowModel, limit: nat, p: int) -> bool {
    &&& 0 <= p <= w.len()
    &&& forall|j: int| 0 <= j < p ==> (#[trigger] items_before(w, j)) < limit
    &&& p < w.len() ==> items_before(w, p) >= limit
}

/// The number of segments that a cut at `limit` items keeps.
pub open spec fn cut_point(w: WindowModel, limit: nat) -> int {
    choose|p: int| is_cut_point(w, limit, p)
}

/// The window cut at `limit` items.
pub open spec fn cut(w: WindowModel, limit: nat) -> WindowModel {
    w.take(cut_point(w, limit))
}

/// The window after the insertion of a key with slot `slot`: rolled, purged of
/// the slot, the slot added to the head, and cut at five times the capacity.
pub open spec fn window_after(
    w: WindowModel,
    slot: u64,
    threshold: nat,
    capacity: nat,
    lost: Option<u64>,
) -> WindowModel {
    let staged = purged(rolled(w, threshold), slot);
    cut(staged.update(0, head_after_add(staged[0], slot, lost)), 5 * capacity)
}

/// `post` is the window that `pre` becomes by the insertion of a key with slot
/// `slot` in which the head gives up `lost`.
pub open spec fn inserted_losing(
    pre: WindowModel,
    slot: u64,
    threshold: nat,
    capacity: nat,
    lost: Option<u64>,
    post: WindowModel,
) -> bool {
    &&& can_lose(staged_head(pre, slot, threshold), slot, lost)
    &&& post == window_after(pre, slot, threshold, capacity, lost)
}

/// `post` is a window that `pre` can become by the insertion of a key with
/// slot `slot`.
pub open spec fn inserted(
    pre: WindowModel,
    slot: u64,
    threshold: nat,
    capacity: nat,
    post: WindowModel,
) -> bool {
    exists|lost: Option<u64>| #[trigger] inserted_losing(pre, slot, threshold, capacity, lost, post)
}

/// A cut point is the only one.
pub proof fn lemma_cut_point_unique(w: WindowModel, limit: nat, p: int)
    requires
        is_cut_point(w, limit, p),
    ensures
        cut_point(w, limit) == p,
{
    let q = cut_point(w, limit);
    assert(is_cut_point(w, limit, q));
    if q < p {
        assert(items_before(w, q) < limit);
    }
    if p < q {
        assert(items_before(w, p) < limit);
    }
}

/// A sum of `i + 1` sizes fits 128 bits, and its bound grows by one size with
/// each term.
pub proof fn lemma_sizes_fit(i: usize)
    requires
        i < usize::MAX,
    ensures
        (i + 1) * usize::MAX <= u128::MAX,
        (i + 1) * usize::MAX == i * usize::MAX + usize::MAX,
{
    assert((i + 1) * usize::MAX <= u128::MAX) by (nonlinear_arith)
        requires
            0 <= i < usize::MAX,
            usize::MAX <= 0xffff_ffff_ffff_ffff,
    ;
    assert((i + 1) * usize::MAX == i * usize::MAX + usize::MAX) by (nonlinear_arith);
}

/// Taking one copy of a value out of a multiset shortens it by one if the
/// value was there, and leaves it as it is otherwise.
pub proof fn lemma_remove_len(m: Multiset<u64>, v: u64)
    ensures
        m.remove(v).len() == if m.contains(v) {
            m.len() - 1
        } else {
            m.len() as int
        },
{
    if m.contains(v) {
        assert(Multiset::singleton(v).subset_of(m));
    } else {
        assert(m.remove(v) =~= m);
    }
}

/// Every window has a cut point.
pub proof fn lemma_cut_point_exists(w: WindowModel, limit: nat)
    ensures
        is_cut_point(w, limit, cut_point(w, limit)),
{
    lemma_cut_search(w, limit, 0);
}

proof fn lemma_cut_search(w: WindowModel, limit: nat, k: int)
    requires
        0 <= k <= w.len(),
        forall|j: int| 0 <= j < k ==> (#[trigger] items_before(w, j)) < limit,
    ensures
        exists|p: int| is_cut_point(w, limit, p),
    decreases w.len() - k,
{
    if k == w.len() || items_before(w, k) >= limit {
        assert(is_cut_point(w, limit, k));
    } else {
        lemma_cut_search(w, limit, k + 1);
    }
}

/// A cut leaves in front of each segment it keeps what was in front of it.
pub proof fn lemma_items_before_take(w: WindowModel, p: int, j: int)
    requires
        0 <= j <= p <= w.len(),
    ensures
        items_before(w.take(p), j) == items_before(w, j),
    decreases j,
{
    if j > 0 {
        lemma_items_before_take(w, p, j - 1);
    }
}

/// Some segment of the window holds the slot.
pub open spec fn window_holds(w: WindowModel, slot: u64) -> bool {
    exists|i: int| 0 <= i < w.len() && (#[trigger] w[i]).contains(slot)
}

/// What an insertion into a window of positive capacity leaves behind: a head
/// segment of at most `threshold + 1` items, which holds the slot inserted
/// unless the filter gave up that very slot; segments that each start below
/// five times the capacity; and no slot but the one inserted and those that
/// the window held before.
pub proof fn lemma_inserted_shape(
    pre: WindowModel,
    slot: u64,
    threshold: nat,
    capacity: nat,
    lost: Option<u64>,
    post: WindowModel,
)
    requires
        capacity > 0,
        inserted_losing(pre, slot, threshold, capacity, lost, post),
    ensures
        post.len() >= 1,
        post[0].len() <= threshold + 1,
        lost != Some(slot) ==> post[0].contains(slot),
        forall|j: int| 0 <= j < post.len() ==> (#[trigger] items_before(post, j)) < 5 * capacity,
        forall|k: int, x: u64|
            0 <= k < post.len() && (#[trigger] post[k].contains(x)) ==> x == slot || window_holds(
                pre,
                x,
            ),
{
    let limit = 5 * capacity;
    let r = rolled(pre, threshold);
    let staged = purged(r, slot);
    let head = head_after_add(staged[0], slot, lost);
    let full = staged.update(0, head);
    let p = cut_point(full, limit);
    lemma_cut_point_exists(full, limit);
    assert(items_before(full, 0) == 0);
    assert(p >= 1);
    assert(post == full.take(p));
    assert(post[0] == head);
    assert(r[0].len() <= threshold);
    assert(staged[0] == r[0].remove(slot));
    lemma_remove_len(r[0], slot);
    if let Some(v) = lost {
        lemma_remove_len(staged[0].insert(slot), v);
    }
    assert forall|j: int| 0 <= j < post.len() implies (#[trigger] items_before(post, j)) < limit by {
        lemma_items_before_take(full, p, j);
    }
    assert forall|k: int, x: u64| 0 <= k < post.len() && (#[trigger] post[k].contains(x)) implies x
        == slot || window_holds(pre, x) by {
        if x != slot {
            assert(full[k].contains(x));
            assert(staged[k].contains(x));
            assert(r[k].contains(x));
            if r.len() == pre.len() {
                assert(pre[k].contains(x));
            } else {
                assert(k >= 1);
                assert(pre[k - 1].contains(x));
            }
        }
    }
}

/// The window is filled in order: its head holds between one item and one more
/// than `threshold`, and every segment behind it holds exactly one more than
/// `threshold`. A window is so while it takes keys that it does not hold.
pub open spec fn filled_in_order(w: WindowModel, threshold: nat) -> bool {
    &&& w.len() >= 1 ==> 1 <= w[0].len() <= threshold + 1
    &&& forall|k: int| 1 <= k < w.len() ==> (#[trigger] w[k]).len() == threshold + 1
}

/// In a window filled in order the segments in front of segment `j` hold the
/// head and `j - 1` full segments.
pub proof fn lemma_items_before_filled(w: WindowModel, threshold: nat, j: int)
    requires
        filled_in_order(w, threshold),
        1 <= j <= w.len(),
    ensures
        items_before(w, j) == w[0].len() + (j - 1) * (threshold + 1),
    decreases j,
{
    if j > 1 {
        lemma_items_before_filled(w, threshold, j - 1);
        assert(w[j - 1].len() == threshold + 1);
        assert((j - 1) * (threshold + 1) == (j - 2) * (threshold + 1) + (threshold + 1))
            by (nonlinear_arith);
    } else {
        assert(items_before(w, 0) == 0);
    }
}

/// A window filled in order that takes a slot it does not hold stays filled in
/// order, and has at most fifty-one segments: those in front of the last hold
/// fewer than five times the capacity, in segments of more than a tenth of it.
pub proof fn lemma_insert_new_slot(
    pre: WindowModel,
    slot: u64,
    capacity: nat,
    lost: Option<u64>,
    post: WindowModel,
)
    requires
        capacity > 0,
        inserted_losing(pre, slot, capacity / 10, capacity, lost, post),
        !window_holds(pre, slot),
        filled_in_order(pre, capacity / 10),
    ensures
        filled_in_order(post, capacity / 10),
        1 <= post.len() <= 51,
{
    let threshold = capacity / 10;
    let limit = 5 * capacity;
    let r = rolled(pre, threshold);
    let staged = purged(r, slot);
    let head = head_after_add(staged[0], slot, lost);
    let full = staged.update(0, head);
    lemma_inserted_shape(pre, slot, threshold, capacity, lost, post);
    lemma_cut_point_exists(full, limit);
    let p = cut_point(full, limit);
    assert(post == full.take(p));
    assert forall|k: int| 0 <= k < r.len() implies !(#[trigger] r[k]).contains(slot) by {
        if r.len() == pre.len() {
            assert(!pre[k].contains(slot));
        } else if k >= 1 {
            assert(!pre[k - 1].contains(slot));
        }
    }
    assert forall|k: int| 0 <= k < staged.len() implies (#[trigger] staged[k]).len() == r[k].len() by {
        assert(!r[k].contains(slot));
        lemma_remove_len(r[k], slot);
    }
    if let Some(v) = lost {
        lemma_remove_len(staged[0].insert(slot), v);
    }
    assert(1 <= head.len() <= threshold + 1);
    assert forall|k: int| 1 <= k < full.len() implies (#[trigger] full[k]).len() == threshold + 1 by {
        assert(full[k] == staged[k]);
        if r.len() == pre.len() {
            assert(r[k] == pre[k]);
        } else {
            assert(r[k] == pre[k - 1]);
        }
    }
    assert(filled_in_order(post, threshold)) by {
        assert forall|k: int| 1 <= k < post.len() implies (#[trigger] post[k]).len() == threshold
            + 1 by {
            assert(post[k] == full[k]);
        }
    }
    let last = post.len() - 1;
    if last >= 1 {
        lemma_items_before_filled(post, threshold, last);
        assert(items_before(post, last) < limit);
        assert(last <= 50) by (nonlinear_arith)
            requires
                1 + (last - 1) * (threshold + 1) < 5 * capacity,
                capacity < 10 * (threshold + 1),
                last >= 1,
        ;
    }
}

/// The newest segment holding a slot is the only such segment.
pub proof fn lemma_position_unique(w: WindowModel, slot: u64, pos: int)
    requires
        is_newest_holding(w, slot, pos),
    ensures
        position(w, slot) == Some(pos),
{
    let q = choose|q: int| is_newest_holding(w, slot, q);
    assert(is_newest_holding(w, slot, q));
    if q < pos {
        assert(!w[q].contains(slot));
    }
    if pos < q {
        assert(!w[pos].contains(slot));
    }
}

/// A slot that no segment holds has no position.
pub proof fn lemma_position_none(w: WindowModel, slot: u64)
    requires
        forall|j: int| 0 <= j < w.len() ==> !(#[trigger] w[j]).contains(slot),
    ensures
        position(w, slot) is None,
{
}

/// The recency window.
pub struct RecencyWindow {
    segments: Vec<CuckooFilter<DefaultHasher>>,
}

impl View for RecencyWindow {
    type V = WindowModel;

    closed spec fn view(&self) -> WindowModel {
        Seq::new(self.segments@.len(), |i: int| segment_slots(self.segments@[i]))
    }
}

impl RecencyWindow {
    /// A window without segments.
    pub fn new() -> (window: RecencyWindow)
        ensures
            window@ == Seq::<Multiset<u64>>::empty(),
    {
        let window = RecencyWindow { segments: Vec::new() };
        assert(window@ =~= Seq::<Multiset<u64>>::empty());
        window
    }

    /// The number of segments.
    pub fn segment_count(&self) -> (count: usize)
        ensures
            count == self@.len(),
    {
        self.segments.len()
    }

    /// The index of the newest segment that may hold `key`.
    pub fn position(&self, key: u64) -> (found: Option<usize>)
        ensures
            match found {
                Some(pos) => pos < self@.len() && position(self@, slot_of(key)) == Some(pos as int),
                None => position(self@, slot_of(key)) is None,
            },
    {
        let mut i: usize = 0;
        while i < self.segments.len()
            invariant
                i <= self.segments.len(),
                forall|j: int| 0 <= j < i ==> !(#[trigger] self@[j]).contains(slot_of(key)),
            decreases self.segments.len() - i,
        {
            if segment_contains(&self.segments[i], key) {
                proof {
                    lemma_position_unique(self@, slot_of(key), i as int);
                }
                return Some(i);
            }
            i += 1;
        }
        proof {
            lemma_position_none(self@, slot_of(key));
        }
        None
    }

    /// The number of items held by the segments in front of segment `pos`.
    pub fn items_before(&self, pos: usize) -> (total: u128)
        requires
            pos <= self@.len(),
        ensures
            total == items_before(self@, pos as int),
            total <= pos * usize::MAX,
    {
        let mut total: u128 = 0;
        let mut i: usize = 0;
        while i < pos
            invariant
                i <= pos <= self.segments.len(),
                total == items_before(self@, i as int),
                total <= i * usize::MAX,
            decreases pos - i,
        {
            let len = segment_len(&self.segments[i]);
            proof {
                lemma_sizes_fit(i);
            }
            total = total + len as u128;
            i += 1;
        }
        total
    }

    /// Looks for `key` and estimates how far back it was last inserted, in
    /// percent of `capacity`.
    pub fn estimate(&self, key: u64, capacity: u64) -> (percentage: Option<u16>)
        requires
            capacity > 0,
        ensures
            match position(self@, slot_of(key)) {
                Some(pos) => percentage == Some(
                    reported_percentage(self@, pos, capacity as nat) as u16,
                ),
                None => percentage is None,
            },
    {
        match self.position(key) {
            None => None,
            Some(pos) => {
                assert(pos < self.segments.len());
                let bottom = self.items_before(pos);
                let len = segment_len(&self.segments[pos]) as u128;
                proof {
                    lemma_sizes_fit(pos);
                }
                let mid = bottom + len / 2;
                assert(mid == (bottom + (bottom + len)) / 2);
                if mid > u128::MAX / 100 {
                    assert(100 * mid / (capacity as int) > u16::MAX) by (nonlinear_arith)
                        requires
                            mid > 0xffff_ffff_ffff_ffff_ffff_ffff_ffff_ffffint / 100,
                            0 < capacity <= 0xffff_ffff_ffff_ffff,
                    ;
                    Some(u16::MAX)
                } else {
                    let percentage = 100 * mid / (capacity as u128);
                    if percentage > u16::MAX as u128 {
                        Some(u16::MAX)
                    } else {
                        Some(percentage as u16)
                    }
                }
            },
        }
    }

    /// Starts a new head segment if there is none or the head holds more than
    /// `threshold` items.
    fn roll(&mut self, threshold: u64)
        ensures
            final(self)@ == rolled(old(self)@, threshold as nat),
    {
        if self.segments.len() == 0 || segment_len(&self.segments[0]) as u128 > threshold as u128 {
            self.segments.insert(0, segment_new());
        }
        assert(final(self)@ =~= rolled(old(self)@, threshold as nat));
    }

    /// Deletes `key` from every segment.
    fn purge(&mut self, key: u64)
        ensures
            final(self)@ == purged(old(self)@, slot_of(key)),
    {
        let mut i: usize = 0;
        while i < self.segments.len()
            invariant
                i <= self.segments.len(),
                self@.len() == old(self)@.len(),
                forall|j: int|
                    0 <= j < i ==> (#[trigger] self@[j]) == old(self)@[j].remove(slot_of(key)),
                forall|j: int| i <= j < self@.len() ==> (#[trigger] self@[j]) == old(self)@[j],
            decreases self.segments.len() - i,
        {
            let ghost before = self@;
            segment_delete(&mut self.segments[i], key);
            assert(self@ =~= before.update(i as int, before[i as int].remove(slot_of(key))));
            i += 1;
        }
        assert(final(self)@ =~= purged(old(self)@, slot_of(key)));
    }

    /// Adds `key` to the head segment, and tells whether the filter took it
    /// without giving anything up.
    fn add_to_head(&mut self, key: u64) -> (stored: bool)
        requires
            old(self)@.len() > 0,
        ensures
            old(self)@[0].len() < 4 ==> stored,
            exists|lost: Option<u64>|
                {
                    &&& can_lose(old(self)@[0], slot_of(key), lost)
                    &&& stored ==> lost is None
                    &&& #[trigger] old(self)@.update(
                        0,
                        head_after_add(old(self)@[0], slot_of(key), lost),
                    ) == final(self)@
                },
    {
        let ghost before = segment_slots(self.segments@[0]);
        let stored = segment_add(&mut self.segments[0], key);
        proof {
            let after = segment_slots(self.segments@[0]);
            let slot = slot_of(key);
            if stored {
                let lost = None::<u64>;
                assert(old(self)@.update(0, head_after_add(old(self)@[0], slot, lost)) =~= self@);
            } else {
                let v = choose|v: u64|
                    {
                        &&& #[trigger] before.insert(slot).contains(v)
                        &&& after == before.insert(slot).remove(v)
                    };
                let lost = Some(v);
                assert(old(self)@.update(0, head_after_add(old(self)@[0], slot, lost)) =~= self@);
            }
        }
        stored
    }

    /// The number of segments that a cut at `limit` items keeps.
    fn cut_index(&self, limit: u128) -> (keep: usize)
        ensures
            keep == cut_point(self@, limit as nat),
            keep <= self@.len(),
    {
        let mut start: u128 = 0;
        let mut pos: usize = 0;
        while pos < self.segments.len()
            invariant
                pos <= self.segments.len(),
                start == items_before(self@, pos as int),
                start <= pos * usize::MAX,
                forall|j: int| 0 <= j < pos ==> (#[trigger] items_before(self@, j)) < limit,
            decreases self.segments.len() - pos,
        {
            if start >= limit {
                proof {
                    lemma_cut_point_unique(self@, limit as nat, pos as int);
                }
                return pos;
            }
            let len = segment_len(&self.segments[pos]);
            proof {
                lemma_sizes_fit(pos);
            }
            start = start + len as u128;
            pos += 1;
        }
        proof {
            lemma_cut_point_unique(self@, limit as nat, pos as int);
        }
        pos
    }

    /// Drops the first segment that starts at or beyond five times `capacity`
    /// items, and every segment behind it.
    fn trim(&mut self, capacity: u64)
        ensures
            final(self)@ == cut(old(self)@, 5 * capacity as nat),
    {
        let keep = self.cut_index(5 * (capacity as u128));
        self.segments.truncate(keep);
        assert(final(self)@ =~= cut(old(self)@, 5 * capacity as nat));
    }

    /// Records `key` as the most recent insertion: starts a new head segment
    /// where the head is missing or holds more than `threshold` items, deletes
    /// the key from every segment, adds it to the head, and cuts the window at
    /// five times `capacity` items. Tells whether the head took the key without
    /// giving anything up.
    pub fn insert(&mut self, key: u64, threshold: u64, capacity: u64) -> (stored: bool)
        ensures
            inserted(
                old(self)@,
                slot_of(key),
                threshold as nat,
                capacity as nat,
                final(self)@,
            ),
            stored ==> final(self)@ == window_after(
                old(self)@,
                slot_of(key),
                threshold as nat,
                capacity as nat,
                None,
            ),
            staged_head(old(self)@, slot_of(key), threshold as nat).len() < 4 ==> stored,
    {
        self.roll(threshold);
        self.purge(key);
        let ghost staged = self@;
        let stored = self.add_to_head(key);
        let ghost added = self@;
        self.trim(capacity);
        proof {
            let slot = slot_of(key);
            let lost = choose|lost: Option<u64>|
                {
                    &&& can_lose(staged[0], slot, lost)
                    &&& stored ==> lost is None
                    &&& #[trigger] staged.update(0, head_after_add(staged[0], slot, lost)) == added
                };
            assert(inserted_losing(
                old(self)@,
                slot,
                threshold as nat,
                capacity as nat,
                lost,
                final(self)@,
            ));
        }
        stored
    }

    /// The bytes that each segment occupies, newest first.
    pub closed spec fn footprints(&self) -> Seq<usize> {
        Seq::new(self.segments@.len(), |i: int| segment_bytes(self.segments@[i]))
    }

    /// The bytes that each segment occupies, newest first, as its filter
    /// reports them. Each figure covers at least the table of the filter.
    pub fn segment_footprints(&self) -> (bytes: Vec<usize>)
        ensures
            bytes@ == self.footprints(),
            bytes@.len() == self@.len(),
            forall|i: int| 0 <= i < bytes@.len() ==> (#[trigger] bytes@[i]) >= 1_048_576,
    {
        let mut bytes: Vec<usize> = Vec::new();
        let mut i: usize = 0;
        while i < self.segments.len()
            invariant
                i <= self.segments.len(),
                bytes@.len() == i,
                forall|j: int| 0 <= j < i ==> (#[trigger] bytes@[j]) == self.footprints()[j],
                forall|j: int| 0 <= j < i ==> (#[trigger] bytes@[j]) >= 1_048_576,
            decreases self.segments.len() - i,
        {
            bytes.push(segment_memory(&self.segments[i]));
            i += 1;
        }
        assert(bytes@ =~= self.footprints());
        bytes
    }
}

} // verus!
