//! A stream that is larger than the cache, played twice: what the simulator
//! counts when thirteen tenths of the capacity in keys are inserted once each
//! and then once more in the same order.

use crate::cache::{cache_inserted, classify, CacheModel, Classification};
use crate::filters::slot_of;
use crate::horizon::ring_holds;
use crate::laws::{is_run, step_holds};
use crate::stats::{bucket_of, StatsModel};
use crate::window::{
    estimated_percentage, head_after_add, is_newest_holding, items_before,
    lemma_cut_point_unique, lemma_position_none, lemma_position_unique, lemma_remove_len,
    position, purged, reported_percentage, rolled, window_after, window_holds, WindowModel,
};
use vstd::multiset::Multiset;
use vstd::prelude::*;

verus! {

/// The number of keys that a stream of `n` keys played twice has brought in
/// before step `q`.
pub open spec fn present(q: int, n: int) -> int {
    if q < n {
        q
    } else {
        n
    }
}

/// The step before step `q` at which key `m` of the stream was last inserted.
pub open spec fn last_seen(q: int, n: int, m: int) -> int {
    if m + n < q {
        m + n
    } else {
        m
    }
}

/// The key inserted at step `q` of a stream of `n` keys played twice.
pub open spec fn turn(q: int, n: int) -> int {
    if q < n {
        q
    } else {
        q - n
    }
}

/// The window holds each key brought in so far exactly once, key `m` in segment
/// `home[m]`, and nothing else; a key inserted later is never in an older
/// segment than one inserted earlier; and no segment holds more than one item
/// beyond `tenth`.
pub open spec fn in_order_once(w: WindowModel, keys: Seq<u64>, q: int, tenth: nat, home: Seq<int>) -> bool {
    let n = keys.len() as int;
    let held = present(q, n);
    &&& home.len() == held
    &&& forall|m: int| 0 <= m < held ==> 0 <= #[trigger] home[m] < w.len()
    &&& forall|a: int, m: int|
        0 <= a < w.len() && 0 <= m < held ==> #[trigger] w[a].count(slot_of(keys[m])) == (if home[m]
            == a {
            1nat
        } else {
            0nat
        })
    &&& forall|a: int, x: u64|
        0 <= a < w.len() && (#[trigger] w[a].contains(x)) ==> exists|m: int|
            0 <= m < held && #[trigger] slot_of(keys[m]) == x
    &&& forall|m: int, m2: int|
        0 <= m < held && 0 <= m2 < held && last_seen(q, n, m) < last_seen(q, n, m2)
            ==> #[trigger] home[m] >= #[trigger] home[m2]
    &&& items_before(w, w.len() as int) == held
    &&& forall|a: int| 0 <= a < w.len() ==> (#[trigger] w[a]).len() <= tenth + 1
}

/// Two windows whose segments have the same sizes, but for segment `c`, which
/// is `d` larger in the second, hold the same in front of each segment, but
/// for `d` more behind segment `c`.
pub proof fn lemma_items_before_pointwise(u: WindowModel, v: WindowModel, c: int, d: int, j: int)
    requires
        u.len() == v.len(),
        0 <= j <= u.len(),
        forall|a: int|
            0 <= a < u.len() ==> (#[trigger] v[a]).len() == u[a].len() + (if a == c {
                d
            } else {
                0
            }),
    ensures
        items_before(v, j) == items_before(u, j) + (if 0 <= c < j {
            d
        } else {
            0
        }),
    decreases j,
{
    if j > 0 {
        lemma_items_before_pointwise(u, v, c, d, j - 1);
        assert(v[j - 1].len() == u[j - 1].len() + (if j - 1 == c {
            d
        } else {
            0
        }));
    }
}

/// An empty segment put in front of a window adds nothing in front of any
/// segment.
pub proof fn lemma_items_before_prepend(w: WindowModel, j: int)
    requires
        0 <= j <= w.len(),
    ensures
        items_before(seq![Multiset::<u64>::empty()] + w, j + 1) == items_before(w, j),
    decreases j,
{
    let r = seq![Multiset::<u64>::empty()] + w;
    if j > 0 {
        lemma_items_before_prepend(w, j - 1);
        assert(r[j] == w[j - 1]);
    } else {
        assert(items_before(r, 0) == 0);
        assert(r[0].len() == 0);
    }
}

/// What is in front of a segment is in front of every segment behind it.
pub proof fn lemma_items_before_grows(w: WindowModel, i: int, j: int)
    requires
        0 <= i <= j <= w.len(),
    ensures
        items_before(w, i) <= items_before(w, j),
    decreases j - i,
{
    if i < j {
        lemma_items_before_grows(w, i, j - 1);
    }
}

/// Empty segments at the end of a window add nothing.
pub proof fn lemma_items_before_trailing(w: WindowModel, p: int, j: int)
    requires
        0 <= p < j <= w.len(),
        forall|b: int| p < b < w.len() ==> (#[trigger] w[b]).len() == 0,
    ensures
        items_before(w, j) == items_before(w, p + 1),
    decreases j,
{
    if j > p + 1 {
        lemma_items_before_trailing(w, p, j - 1);
        assert(w[j - 1].len() == 0);
    }
}

/// One step of the stream on a in_order_once window, where the filter gives nothing
/// up. In the first pass the window does not hold the key. In the second it
/// holds it in a segment that has all the keys of the stream in front of it
/// or in it. Either way the window is in_order_once after the step.
pub proof fn lemma_replay_step(
    w: WindowModel,
    keys: Seq<u64>,
    q: int,
    tenth: nat,
    home: Seq<int>,
) -> (next: Seq<int>)
    requires
        tenth >= 1,
        keys.len() == 13 * tenth,
        forall|i: int, j: int|
            0 <= i < j < keys.len() ==> #[trigger] slot_of(keys[i]) != #[trigger] slot_of(keys[j]),
        0 <= q < 2 * keys.len(),
        in_order_once(w, keys, q, tenth, home),
    ensures
        in_order_once(
            window_after(w, slot_of(keys[turn(q, keys.len() as int)]), tenth, 10 * tenth, None),
            keys,
            q + 1,
            tenth,
            next,
        ),
        q < keys.len() ==> !window_holds(w, slot_of(keys[q])),
        q >= keys.len() ==> {
            let p = home[q - keys.len()];
            &&& 0 <= p < w.len()
            &&& position(w, slot_of(keys[q - keys.len()])) == Some(p)
            &&& 1 <= w[p].len() <= tenth + 1
            &&& items_before(w, p) + w[p].len() == keys.len()
        },
{
    let n = keys.len() as int;
    let held = present(q, n);
    let me = turn(q, n);
    let x = slot_of(keys[me]);
    let limit = 5 * (10 * tenth);
    // where the key is now
    if q < n {
        if window_holds(w, x) {
            let a = choose|a: int| 0 <= a < w.len() && (#[trigger] w[a]).contains(x);
            assert(w[a].contains(x));
            let m = choose|m: int| 0 <= m < held && #[trigger] slot_of(keys[m]) == x;
            assert(slot_of(keys[m]) != slot_of(keys[me]));
        }
    } else {
        let p = home[me];
        assert(w[p].count(slot_of(keys[me])) == 1);
        assert forall|b: int| p < b < w.len() implies (#[trigger] w[b]).len() == 0 by {
            if w[b].len() > 0 {
                vstd::multiset::lemma_multiset_empty_len(w[b]);
                let v = choose|v: u64| 0 < w[b].count(v);
                assert(w[b].contains(v));
                let m = choose|m: int| 0 <= m < held && #[trigger] slot_of(keys[m]) == v;
                assert(w[b].count(slot_of(keys[m])) == 1);
                assert(home[m] == b);
                if m != me {
                    assert(last_seen(q, n, me) < last_seen(q, n, m));
                    assert(home[me] >= home[m]);
                }
            }
        }
        lemma_items_before_trailing(w, p, w.len() as int);
        assert(items_before(w, p + 1) == items_before(w, p) + w[p].len());
        assert forall|a: int| 0 <= a < p implies !(#[trigger] w[a]).contains(x) by {
            assert(w[a].count(slot_of(keys[me])) == 0);
        }
        assert(is_newest_holding(w, x, p));
        lemma_position_unique(w, x, p);
    }
    // the step
    let shift: int = if w.len() == 0 || w[0].len() > tenth {
        1
    } else {
        0
    };
    let r = rolled(w, tenth);
    assert(r.len() == w.len() + shift);
    assert forall|a: int| shift <= a < r.len() implies #[trigger] r[a] == w[a - shift] by {}
    assert(r[0].len() <= tenth);
    let staged = purged(r, x);
    let head = head_after_add(staged[0], x, None);
    let full = staged.update(0, head);
    let next = Seq::new(
        (held + (if q < n {
            1int
        } else {
            0int
        })) as nat,
        |m: int|
            if m == me {
                0int
            } else {
                home[m] + shift
            },
    );
    // sizes
    assert forall|a: int| 0 <= a < r.len() implies (#[trigger] staged[a]).len() <= r[a].len() by {
        lemma_remove_len(r[a], x);
    }
    assert forall|a: int| 0 <= a < full.len() implies (#[trigger] full[a]).len() <= tenth + 1 by {
        if a > 0 {
            assert(full[a] == staged[a]);
            assert(staged[a].len() <= r[a].len());
            assert(r[a] == w[a - shift]);
        }
    }
    // totals
    if shift == 1 {
        lemma_items_before_prepend(w, w.len() as int);
        assert(r =~= seq![Multiset::<u64>::empty()] + w);
    }
    assert(items_before(r, r.len() as int) == held);
    let gone: int = if q < n {
        -1
    } else {
        home[me] + shift
    };
    assert forall|a: int| 0 <= a < r.len() implies (#[trigger] staged[a]).len() == r[a].len() + (if a
        == gone {
        -1int
    } else {
        0int
    }) by {
        lemma_remove_len(r[a], x);
        if a >= shift {
            assert(r[a] == w[a - shift]);
            if q >= n {
                assert(w[a - shift].count(slot_of(keys[me])) == (if home[me] == a - shift {
                    1nat
                } else {
                    0nat
                }));
            } else {
                if w[a - shift].contains(x) {
                    assert(window_holds(w, x));
                }
            }
        }
    }
    lemma_items_before_pointwise(r, staged, gone, -1, r.len() as int);
    assert forall|a: int| 0 <= a < staged.len() implies (#[trigger] full[a]).len() == staged[a].len()
        + (if a == 0 {
        1int
    } else {
        0int
    }) by {}
    lemma_items_before_pointwise(staged, full, 0, 1, staged.len() as int);
    assert(items_before(full, full.len() as int) == present(q + 1, n));
    // nothing is cut
    assert forall|j: int| 0 <= j < full.len() implies (#[trigger] items_before(full, j)) < limit by {
        lemma_items_before_grows(full, j, full.len() as int);
    }
    lemma_cut_point_unique(full, limit as nat, full.len() as int);
    let post = window_after(w, x, tenth, 10 * tenth, None);
    assert(post =~= full);
    // what each segment holds
    assert forall|a: int, m: int| 0 <= a < post.len() && 0 <= m < present(q + 1, n) implies #[trigger] post[a].count(
        slot_of(keys[m]),
    ) == (if next[m] == a {
        1nat
    } else {
        0nat
    }) by {
        let y = slot_of(keys[m]);
        if m != me {
            if m < me {
                assert(slot_of(keys[m]) != slot_of(keys[me]));
            } else {
                assert(slot_of(keys[me]) != slot_of(keys[m]));
            }
            assert(staged[a].count(y) == r[a].count(y));
            assert(full[a].count(y) == r[a].count(y));
            if a >= shift {
                assert(r[a] == w[a - shift]);
                assert(w[a - shift].count(slot_of(keys[m])) == (if home[m] == a - shift {
                    1nat
                } else {
                    0nat
                }));
            }
        } else {
            if a >= shift {
                assert(r[a] == w[a - shift]);
                if q >= n {
                    assert(w[a - shift].count(slot_of(keys[me])) == (if home[me] == a - shift {
                        1nat
                    } else {
                        0nat
                    }));
                } else {
                    if w[a - shift].contains(x) {
                        assert(window_holds(w, x));
                    }
                }
            }
            assert(r[a].count(y) <= 1);
            assert(staged[a].count(y) == 0);
        }
    }
    assert forall|a: int, v: u64| 0 <= a < post.len() && (#[trigger] post[a].contains(v)) implies exists|
        m: int,
    | 0 <= m < present(q + 1, n) && #[trigger] slot_of(keys[m]) == v by {
        if v == x {
            assert(slot_of(keys[me]) == v);
        } else {
            assert(staged[a].contains(v));
            assert(r[a].contains(v));
            assert(a >= shift);
            assert(w[a - shift].contains(v));
            let m = choose|m: int| 0 <= m < held && #[trigger] slot_of(keys[m]) == v;
            assert(slot_of(keys[m]) == v);
        }
    }
    assert forall|m: int, m2: int|
        0 <= m < present(q + 1, n) && 0 <= m2 < present(q + 1, n) && last_seen(q + 1, n, m)
            < last_seen(q + 1, n, m2) implies #[trigger] next[m] >= #[trigger] next[m2] by {
        if m2 != me && m != me {
            assert(last_seen(q, n, m) < last_seen(q, n, m2));
            assert(home[m] >= home[m2]);
        }
    }
    assert forall|m: int| 0 <= m < present(q + 1, n) implies 0 <= #[trigger] next[m] < post.len() by {
        if m != me {
            assert(0 <= home[m] < w.len());
        }
    }
    next
}

/// Step `i` of a run goes without loss: the head segment takes the key and
/// gives nothing up.
pub open spec fn step_is_clean(states: Seq<CacheModel>, run: Seq<u64>, i: int) -> bool {
    states[i + 1].window == window_after(
        states[i].window,
        slot_of(run[i]),
        states[i].threshold,
        states[i].capacity,
        None,
    )
}

/// What is counted after `q` steps of a stream of `n` keys played twice: a
/// miss for each step of the first pass, and a hit in the bucket that ends at
/// one and a half times the cache size for each step of the second.
pub open spec fn replay_stats(q: int, n: int) -> StatsModel {
    StatsModel {
        hits: Seq::new(
            10,
            |b: int|
                if b == 6 && q > n {
                    (q - n) as nat
                } else {
                    0nat
                },
        ),
        misses: present(q, n) as nat,
    }
}

/// A key found in a segment that has thirteen tenths of the capacity in front
/// of it or in it is counted between 120 and 130 percent.
pub proof fn lemma_replay_percentage(w: WindowModel, p: int, tenth: nat)
    requires
        tenth >= 1,
        1 <= w[p].len() <= tenth + 1,
        items_before(w, p) + w[p].len() == 13 * tenth,
    ensures
        120 <= estimated_percentage(w, p, 10 * tenth) <= 130,
        reported_percentage(w, p, 10 * tenth) == estimated_percentage(w, p, 10 * tenth),
        bucket_of(reported_percentage(w, p, 10 * tenth)) == 6,
{
    let bottom = items_before(w, p);
    let top = bottom + w[p].len();
    let mid = (bottom + top) / 2;
    assert(12 * tenth <= mid <= 13 * tenth);
    let capacity = 10 * tenth;
    assert(120 <= 100 * mid / capacity <= 130) by (nonlinear_arith)
        requires
            tenth >= 1,
            capacity == 10 * tenth,
            12 * tenth <= mid <= 13 * tenth,
    ;
}

proof fn lemma_replay(
    tenth: nat,
    states: Seq<CacheModel>,
    keys: Seq<u64>,
    times: Seq<nat>,
    q: int,
)
    requires
        tenth >= 1,
        keys.len() == 13 * tenth,
        is_run(states, keys + keys, times),
        states[0] == CacheModel::fresh(10 * tenth),
        forall|i: int, j: int|
            0 <= i < j < keys.len() ==> #[trigger] slot_of(keys[i]) != #[trigger] slot_of(keys[j]),
        forall|i: int|
            0 <= i < keys.len() ==> !ring_holds((#[trigger] states[i]).horizon.ring, keys[i]),
        forall|i: int| 0 <= i < 2 * keys.len() ==> #[trigger] step_is_clean(states, keys + keys, i),
        0 <= q <= 2 * keys.len(),
    ensures
        exists|home: Seq<int>| #[trigger] in_order_once(states[q].window, keys, q, tenth, home),
        states[q].capacity == 10 * tenth,
        states[q].threshold == tenth,
        states[q].stats == replay_stats(q, keys.len() as int),
        forall|i: int|
            0 <= i < q && i < keys.len() ==> classify(#[trigger] states[i], keys[i])
                == Classification::Miss,
        forall|i: int|
            keys.len() <= i < q ==> {
                let class = classify(#[trigger] states[i], keys[i - keys.len()]);
                class is Hit && bucket_of(class->percentage as nat) == 6
            },
    decreases q,
{
    let n = keys.len() as int;
    let run = keys + keys;
    if q == 0 {
        let home = Seq::<int>::empty();
        assert(items_before(states[0].window, 0) == 0);
        assert(in_order_once(states[0].window, keys, 0, tenth, home));
        assert(states[0].stats.hits =~= replay_stats(0, n).hits);
    } else {
        lemma_replay(tenth, states, keys, times, q - 1);
        let pre = states[q - 1];
        let post = states[q];
        let me = turn(q - 1, n);
        let key = keys[me];
        assert(run[q - 1] == key);
        assert(step_holds(states, run, times, q - 1));
        assert(step_is_clean(states, run, q - 1));
        assert(cache_inserted(pre, key, times[q - 1], post));
        let before = q - 1;
        let home = choose|home: Seq<int>| #[trigger]
            in_order_once(pre.window, keys, before, tenth, home);
        let next = lemma_replay_step(pre.window, keys, before, tenth, home);
        assert(in_order_once(post.window, keys, q, tenth, next));
        if q - 1 < n {
            lemma_position_none(pre.window, slot_of(key));
            assert(classify(pre, key) == Classification::Miss);
            assert(post.stats.hits =~= replay_stats(q, n).hits);
        } else {
            let p = home[me];
            lemma_replay_percentage(pre.window, p, tenth);
            let class = classify(pre, key);
            assert(class is Hit);
            assert(class->percentage as nat == reported_percentage(pre.window, p, 10 * tenth));
            assert(post.stats.hits =~= replay_stats(q, n).hits);
        }
        assert forall|i: int| 0 <= i < q && i < n implies classify(#[trigger] states[i], keys[i])
            == Classification::Miss by {
            if i == q - 1 {
                assert(states[i] == pre);
            }
        }
        assert forall|i: int| n <= i < q implies {
            let class = classify(#[trigger] states[i], keys[i - n]);
            class is Hit && bucket_of(class->percentage as nat) == 6
        } by {
            if i == q - 1 {
                assert(states[i] == pre);
            }
        }
    }
}

/// A stream larger than the cache, played twice. In a cache of ten `tenth`
/// items that has seen nothing, thirteen `tenth` keys are inserted once each
/// and then once more in the same order. If no two keys share a slot, the ring
/// answers no for each key before its first insertion, and no head segment
/// gives anything up, then every insertion of the first pass is a miss and
/// every insertion of the second is a hit between 120 and 130 percent of the
/// cache size: in the bucket that ends at 150 percent, none below.
pub proof fn replayed_stream_hits_beyond_the_cache(
    tenth: nat,
    states: Seq<CacheModel>,
    keys: Seq<u64>,
    times: Seq<nat>,
)
    requires
        tenth >= 1,
        keys.len() == 13 * tenth,
        is_run(states, keys + keys, times),
        states[0] == CacheModel::fresh(10 * tenth),
        forall|i: int, j: int|
            0 <= i < j < keys.len() ==> #[trigger] slot_of(keys[i]) != #[trigger] slot_of(keys[j]),
        forall|i: int|
            0 <= i < keys.len() ==> !ring_holds((#[trigger] states[i]).horizon.ring, keys[i]),
        forall|i: int| 0 <= i < 2 * keys.len() ==> #[trigger] step_is_clean(states, keys + keys, i),
    ensures
        forall|i: int|
            0 <= i < keys.len() ==> classify(#[trigger] states[i], keys[i])
                == Classification::Miss,
        forall|i: int|
            keys.len() <= i < 2 * keys.len() ==> {
                let class = classify(#[trigger] states[i], keys[i - keys.len()]);
                class is Hit && bucket_of(class->percentage as nat) == 6
            },
        states[2 * keys.len() as int].stats.misses == keys.len(),
        states[2 * keys.len() as int].stats.hits[6] == keys.len(),
        forall|b: int|
            0 <= b < 10 && b != 6 ==> (#[trigger] states[2 * keys.len() as int].stats.hits[b]) == 0,
{
    lemma_replay(tenth, states, keys, times, 2 * keys.len() as int);
}

} // verus!
