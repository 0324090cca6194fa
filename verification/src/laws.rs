//! What holds of the tree across its operations.

use crate::calls::{AnswerView, CallView};
use crate::entries::lemma_rank;
use crate::help::lemma_only_tidied_further;
use crate::iter::WalkView;
use crate::journal::{complete, lemma_record_extends, record_at, recovered, replayed};
use crate::key::{group_key_order, key_le, key_lt, parts_at};
use crate::neighbours::{is_greatest, is_least, lemma_ends_earlier, lemma_starts_later, BoundView};
use crate::node::{bytes_view, merges_to};
use crate::shape::lemma_leaf_contents;
use crate::subscription::{
    buffers_ok, law_events_in_order, published, published_all, room_for, EventView, WatcherView,
    BUFFER_SIZE,
};
use crate::tree::{Config, Tree};
use crate::whole::rising;
use crate::write::{map_get, map_put, Found};
use vstd::prelude::*;

verus! {

// ---------------------------------------------------------------------------
// Reads and writes.

/// A read gives back what was written, and a write to one key leaves all other
/// keys as they were.
pub proof fn law_read_back<M>(
    before: &Tree<M>,
    after: &Tree<M>,
    key: Seq<u8>,
    value: Option<Seq<u8>>,
    event: EventView,
)
    requires
        after.wrote(before, key, value, event),
    ensures
        map_get(after@, key) == value,
        forall|k: Seq<u8>| k != key ==> #[trigger] map_get(after@, k) == map_get(before@, k),
{
}

/// Of two writes to one key the later one stays; writes to two keys may change places.
pub proof fn law_last_write_stays<M>(
    a: &Tree<M>,
    b: &Tree<M>,
    c: &Tree<M>,
    key: Seq<u8>,
    value: Option<Seq<u8>>,
    event: EventView,
    key2: Seq<u8>,
    value2: Option<Seq<u8>>,
    event2: EventView,
)
    requires
        b.wrote(a, key, value, event),
        c.wrote(b, key2, value2, event2),
    ensures
        map_get(c@, key2) == value2,
        key != key2 ==> map_get(c@, key) == value,
        key == key2 ==> c@ == map_put(a@, key2, value2),
        key != key2 ==> c@ == map_put(
            map_put(a@, key2, value2),
            key,
            value,
        ),
{
    if key == key2 {
        assert(c@ =~= map_put(a@, key2, value2));
    } else {
        assert(c@ =~= map_put(
            map_put(a@, key2, value2),
            key,
            value,
        ));
    }
}

/// Where a key has been created by one who expected that it was not there, no one
/// else who expects the same creates it.
pub proof fn law_created_once<M>(
    before: &Tree<M>,
    after: &Tree<M>,
    key: Seq<u8>,
    value: Seq<u8>,
    event: EventView,
)
    requires
        map_get(before@, key) is None,
        after.wrote(before, key, Some(value), event),
    ensures
        map_get(after@, key) != None::<Seq<u8>>,
{
}

/// Searches, one after another, change nothing that can be read.
pub proof fn law_reads_change_nothing<M>(a: &Tree<M>, b: &Tree<M>, c: &Tree<M>)
    requires
        b.only_tidied(a),
        c.only_tidied(b),
    ensures
        c.only_tidied(a),
        forall|k: Seq<u8>| #[trigger] map_get(c@, k) == map_get(a@, k),
        c.journal() == a.journal(),
        c.watchers() == a.watchers(),
{
    lemma_only_tidied_further(a, b, c);
}

/// A leaf that is still there as it was found holds what the tree holds: a write
/// that goes through has seen the value that it replaces, whatever others have
/// written since it looked.
pub proof fn law_found_is_current<M>(tree: &Tree<M>, found: &Found, key: Seq<u8>)
    requires
        tree.wf(),
        !tree.is_removed(),
        found.wf(key),
        tree.still_there(found),
    ensures
        bytes_view(found.value) == map_get(tree@, key),
{
    let s = tree.shape();
    let pid = found.path@.last().0;
    assert(s.nodes.contains_key(pid));
    let (l, i) = choose|l: int, i: int|
        #![trigger s.page(l, i)]
        s.place(l, i) && s.page(l, i) == pid;
    assert(s.page(l, i) == pid);
    assert(s.place_ok(l, i));
    lemma_leaf_contents(s, i, key);
    lemma_rank(found.leaf().entries(), key);
}

/// A tree has no entries exactly if it has as many as none.
pub proof fn law_empty_counts_none<M>(tree: &Tree<M>)
    requires
        tree.wf(),
    ensures
        tree@ == Map::<Seq<u8>, Seq<u8>>::empty() <==> tree@.dom().len() == 0,
{
    tree.lemma_finite();
    if tree@.dom().len() == 0 {
        assert(tree@.dom() =~= Set::empty());
        assert(tree@ =~= Map::<Seq<u8>, Seq<u8>>::empty());
    }
}

// ---------------------------------------------------------------------------
// The order of keys.

/// Numbers of one length, most significant byte first.
pub open spec fn big_endian(n: nat, len: nat) -> Seq<u8>
    decreases len,
{
    if len == 0 {
        Seq::empty()
    } else {
        big_endian(n / 256, (len - 1) as nat).push((n % 256) as u8)
    }
}

/// Whether `n` can be written with `len` bytes.
pub open spec fn fits_in(n: nat, len: nat) -> bool
    decreases len,
{
    if len == 0 {
        n == 0
    } else {
        fits_in(n / 256, (len - 1) as nat)
    }
}

/// Keys that are numbers, most significant byte first, are in the order of the numbers.
pub proof fn law_big_endian_keys_are_ordered(a: nat, b: nat, len: nat)
    requires
        fits_in(a, len),
        fits_in(b, len),
        a < b,
    ensures
        key_lt(big_endian(a, len), big_endian(b, len)),
    decreases len,
{
    if len > 0 {
        let m = (len - 1) as nat;
        let x = big_endian(a, len);
        let y = big_endian(b, len);
        lemma_big_endian_len(a / 256, m);
        lemma_big_endian_len(b / 256, m);
        reveal(key_lt);
        if a / 256 < b / 256 {
            law_big_endian_keys_are_ordered(a / 256, b / 256, m);
            let p = big_endian(a / 256, m);
            let q = big_endian(b / 256, m);
            let n = choose|n: int| parts_at(p, q, n);
            assert(parts_at(p, q, n));
            assert(parts_at(x, y, n)) by {
                assert(n < m);
                assert forall|i: int| 0 <= i < n implies x[i] == y[i] by {
                    assert(x[i] == p[i] && y[i] == q[i]);
                }
                assert(x[n] == p[n] && y[n] == q[n]);
            }
        } else {
            assert(a / 256 == b / 256);
            assert(a % 256 < b % 256);
            assert(parts_at(x, y, m as int));
        }
    }
}

proof fn lemma_big_endian_len(n: nat, len: nat)
    ensures
        big_endian(n, len).len() == len,
    decreases len,
{
    if len > 0 {
        lemma_big_endian_len(n / 256, (len - 1) as nat);
    }
}

/// The entry after a key has the key before it, and the other way round.
pub proof fn law_neighbours_are_mutual(map: Map<Seq<u8>, Seq<u8>>, a: Seq<u8>, b: Seq<u8>)
    requires
        map.contains_key(a),
        map.contains_key(b),
    ensures
        is_least(map, BoundView::Excluded(a), b) <==> is_greatest(map, BoundView::Excluded(b), a),
{
    broadcast use group_key_order;

    if is_least(map, BoundView::Excluded(a), b) {
        assert forall|k: Seq<u8>| #[trigger]
            map.contains_key(k) && BoundView::Excluded(b).ends(k) implies key_le(k, a) by {
            if key_lt(a, k) {
                assert(BoundView::Excluded(a).starts(k));
            }
        }
    }
    if is_greatest(map, BoundView::Excluded(b), a) {
        assert forall|k: Seq<u8>| #[trigger]
            map.contains_key(k) && BoundView::Excluded(a).starts(k) implies key_le(b, k) by {
            if key_lt(k, b) {
                assert(BoundView::Excluded(b).ends(k));
            }
        }
    }
}

// ---------------------------------------------------------------------------
// Walks.

impl WalkView {
    /// The two ways of a scan have no key in common but one at which both stand.
    pub open spec fn ok(self) -> bool {
        self.is_scan ==> forall|k: Seq<u8>|
            #![trigger self.lo.starts(k)]
            self.lo.starts(k) && self.hi.ends(k) ==> self.lo == BoundView::Included(k) && self.hi
                == BoundView::Included(k)
    }
}

/// A scan starts out in order.
pub proof fn law_scan_starts_ok(key: Seq<u8>)
    ensures
        (WalkView {
            lo: BoundView::Included(key),
            hi: BoundView::Included(key),
            is_scan: true,
            done: false,
            broken: None,
        }).ok(),
{
    broadcast use group_key_order;

}

/// A step of a walk, forward, takes the key that it meets out of what is still to
/// come, both ways, and nothing else.
pub proof fn law_walk_meets_once(walk: WalkView, map: Map<Seq<u8>, Seq<u8>>, key: Seq<u8>)
    requires
        walk.ok(),
        walk.meets(map, key),
    ensures
        walk.past(key).ok(),
        forall|k: Seq<u8>| #[trigger]
            map.contains_key(k) ==> {
                &&& walk.past(key).ahead(k) == (walk.ahead(k) && k != key)
                &&& walk.past(key).behind(k) == (walk.behind(k) && k != key)
            },
{
    broadcast use group_key_order;

    let next = walk.past(key);
    assert forall|k: Seq<u8>| #[trigger] map.contains_key(k) implies {
        &&& next.ahead(k) == (walk.ahead(k) && k != key)
        &&& next.behind(k) == (walk.behind(k) && k != key)
    } by {
        if key_lt(key, k) {
            lemma_starts_later(walk.lo, key, k);
        }
        if k == key {
            assert(walk.lo.starts(key));
        }
        assert(walk.ahead(k) ==> key_le(key, k));
        if walk.is_scan && walk.hi == BoundView::Included(key) {
        } else if walk.is_scan {
            assert(walk.lo.starts(key));
        }
    }
    if walk.is_scan {
        assert forall|k: Seq<u8>|
            #![trigger next.lo.starts(k)]
            next.lo.starts(k) && next.hi.ends(k) implies next.lo == BoundView::Included(k)
            && next.hi == BoundView::Included(k) by {
            lemma_starts_later(walk.lo, key, k);
            assert(walk.lo.starts(k));
        }
    }
}

/// A step of a walk, backward, takes the key that it meets out of what is still to
/// come, both ways, and nothing else.
pub proof fn law_walk_back_meets_once(walk: WalkView, map: Map<Seq<u8>, Seq<u8>>, key: Seq<u8>)
    requires
        walk.ok(),
        walk.meets_back(map, key),
    ensures
        walk.past_back(key).ok(),
        forall|k: Seq<u8>| #[trigger]
            map.contains_key(k) ==> {
                &&& walk.past_back(key).ahead(k) == (walk.ahead(k) && k != key)
                &&& walk.past_back(key).behind(k) == (walk.behind(k) && k != key)
            },
{
    broadcast use group_key_order;

    let next = walk.past_back(key);
    assert forall|k: Seq<u8>| #[trigger] map.contains_key(k) implies {
        &&& next.ahead(k) == (walk.ahead(k) && k != key)
        &&& next.behind(k) == (walk.behind(k) && k != key)
    } by {
        if key_lt(k, key) {
            lemma_ends_earlier(walk.hi, k, key);
        }
        assert(walk.behind(k) ==> key_le(k, key));
        if walk.is_scan {
            assert(walk.lo.starts(key) ==> walk.lo == BoundView::Included(key));
            assert(walk.lo.starts(k) || !walk.lo.starts(k));
        }
    }
    if walk.is_scan {
        assert forall|k: Seq<u8>|
            #![trigger next.lo.starts(k)]
            next.lo.starts(k) && next.hi.ends(k) implies next.lo == BoundView::Included(k)
            && next.hi == BoundView::Included(k) by {
            lemma_ends_earlier(walk.hi, k, key);
            assert(walk.lo.starts(k));
        }
    }
}

/// `keys` are what a walk meets, going forward until nothing is ahead.
pub open spec fn walks(walk: WalkView, map: Map<Seq<u8>, Seq<u8>>, keys: Seq<Seq<u8>>) -> bool
    decreases keys.len(),
{
    if keys.len() == 0 {
        forall|k: Seq<u8>| #[trigger] map.contains_key(k) ==> !walk.ahead(k)
    } else {
        walk.meets(map, keys[0]) && walks(walk.past(keys[0]), map, keys.skip(1))
    }
}

/// `keys` are what a walk meets, going backward until nothing is behind.
pub open spec fn walks_back(walk: WalkView, map: Map<Seq<u8>, Seq<u8>>, keys: Seq<Seq<u8>>) -> bool
    decreases keys.len(),
{
    if keys.len() == 0 {
        forall|k: Seq<u8>| #[trigger] map.contains_key(k) ==> !walk.behind(k)
    } else {
        walk.meets_back(map, keys[0]) && walks_back(walk.past_back(keys[0]), map, keys.skip(1))
    }
}

/// Keys one after another downwards, each once.
pub open spec fn falling(keys: Seq<Seq<u8>>) -> bool {
    forall|i: int, j: int|
        #![trigger keys[i], keys[j]]
        0 <= i < j < keys.len() ==> key_lt(keys[j], keys[i])
}

/// A walk that goes forward to its end meets all keys that were ahead, and no
/// others, each once and in order.
pub proof fn law_walk_meets_all(walk: WalkView, map: Map<Seq<u8>, Seq<u8>>, keys: Seq<Seq<u8>>)
    requires
        walk.ok(),
        walks(walk, map, keys),
    ensures
        rising(keys),
        forall|k: Seq<u8>| #[trigger]
            keys.contains(k) <==> map.contains_key(k) && walk.ahead(k),
    decreases keys.len(),
{
    broadcast use group_key_order;

    if keys.len() > 0 {
        let first = keys[0];
        let more = keys.skip(1);
        law_walk_meets_once(walk, map, first);
        law_walk_meets_all(walk.past(first), map, more);
        assert forall|i: int| 0 < i < keys.len() implies key_lt(first, #[trigger] keys[i]) by {
            assert(more[i - 1] == keys[i]);
            assert(more.contains(keys[i]));
        }
        assert forall|i: int, j: int|
            #![trigger keys[i], keys[j]]
            0 <= i < j < keys.len() implies key_lt(keys[i], keys[j]) by {
            if i > 0 {
                assert(more[i - 1] == keys[i] && more[j - 1] == keys[j]);
            }
        }
        assert forall|k: Seq<u8>| #[trigger] keys.contains(k) <==> map.contains_key(k)
            && walk.ahead(k) by {
            if keys.contains(k) {
                let i = choose|i: int| 0 <= i < keys.len() && keys[i] == k;
                if i > 0 {
                    assert(more[i - 1] == k);
                    assert(more.contains(k));
                }
            }
            if map.contains_key(k) && walk.ahead(k) {
                if k == first {
                    assert(keys[0] == k);
                } else {
                    assert(more.contains(k));
                    let i = choose|i: int| 0 <= i < more.len() && more[i] == k;
                    assert(keys[i + 1] == k);
                }
            }
        }
    }
}

/// A walk that goes backward to its end meets all keys that were behind, and no
/// others, each once and in reverse order.
pub proof fn law_walk_back_meets_all(
    walk: WalkView,
    map: Map<Seq<u8>, Seq<u8>>,
    keys: Seq<Seq<u8>>,
)
    requires
        walk.ok(),
        walks_back(walk, map, keys),
    ensures
        falling(keys),
        forall|k: Seq<u8>| #[trigger]
            keys.contains(k) <==> map.contains_key(k) && walk.behind(k),
    decreases keys.len(),
{
    broadcast use group_key_order;

    if keys.len() > 0 {
        let first = keys[0];
        let more = keys.skip(1);
        law_walk_back_meets_once(walk, map, first);
        law_walk_back_meets_all(walk.past_back(first), map, more);
        assert forall|i: int| 0 < i < keys.len() implies key_lt(#[trigger] keys[i], first) by {
            assert(more[i - 1] == keys[i]);
            assert(more.contains(keys[i]));
        }
        assert forall|i: int, j: int|
            #![trigger keys[i], keys[j]]
            0 <= i < j < keys.len() implies key_lt(keys[j], keys[i]) by {
            if i > 0 {
                assert(more[i - 1] == keys[i] && more[j - 1] == keys[j]);
            }
        }
        assert forall|k: Seq<u8>| #[trigger] keys.contains(k) <==> map.contains_key(k)
            && walk.behind(k) by {
            if keys.contains(k) {
                let i = choose|i: int| 0 <= i < keys.len() && keys[i] == k;
                if i > 0 {
                    assert(more[i - 1] == k);
                    assert(more.contains(k));
                }
            }
            if map.contains_key(k) && walk.behind(k) {
                if k == first {
                    assert(keys[0] == k);
                } else {
                    assert(more.contains(k));
                    let i = choose|i: int| 0 <= i < more.len() && more[i] == k;
                    assert(keys[i + 1] == k);
                }
            }
        }
    }
}

/// Over a range, what a walk meets going backward is what it meets going forward,
/// in reverse.
pub proof fn law_walk_back_is_reverse(
    walk: WalkView,
    map: Map<Seq<u8>, Seq<u8>>,
    up: Seq<Seq<u8>>,
    down: Seq<Seq<u8>>,
)
    requires
        !walk.is_scan,
        walks(walk, map, up),
        walks_back(walk, map, down),
    ensures
        down == up.reverse(),
{
    law_walk_meets_all(walk, map, up);
    law_walk_back_meets_all(walk, map, down);
    let turned = down.reverse();
    assert(rising(turned)) by {
        assert forall|i: int, j: int|
            #![trigger turned[i], turned[j]]
            0 <= i < j < turned.len() implies key_lt(turned[i], turned[j]) by {
            assert(turned[i] == down[down.len() - 1 - i]);
            assert(turned[j] == down[down.len() - 1 - j]);
        }
    }
    assert forall|k: Seq<u8>| #[trigger] turned.contains(k) == up.contains(k) by {
        if turned.contains(k) {
            let i = choose|i: int| 0 <= i < turned.len() && turned[i] == k;
            assert(down[down.len() - 1 - i] == k);
            assert(down.contains(k));
        }
        if up.contains(k) {
            assert(down.contains(k));
            let i = choose|i: int| 0 <= i < down.len() && down[i] == k;
            assert(turned[down.len() - 1 - i] == k);
        }
    }
    lemma_rising_same(up, turned);
    assert(down =~= up.reverse());
}

/// A walk over all entries meets as many keys as there are entries.
pub proof fn law_walk_counts<M>(tree: &Tree<M>, walk: WalkView, keys: Seq<Seq<u8>>)
    requires
        tree.wf(),
        !walk.is_scan,
        walk.lo == BoundView::Unbounded,
        walk.hi == BoundView::Unbounded,
        walks(walk, tree@, keys),
    ensures
        keys.len() == tree@.dom().len(),
{
    broadcast use group_key_order;

    law_walk_meets_all(walk, tree@, keys);
    assert(keys.no_duplicates());
    keys.unique_seq_to_set();
    assert(keys.to_set() =~= tree@.dom());
}

/// Two runs of rising keys that have the same keys are the same.
proof fn lemma_rising_same(a: Seq<Seq<u8>>, b: Seq<Seq<u8>>)
    requires
        rising(a),
        rising(b),
        forall|k: Seq<u8>| #[trigger] b.contains(k) == a.contains(k),
    ensures
        a == b,
    decreases a.len(),
{
    broadcast use group_key_order;

    if a.len() == 0 {
        if b.len() > 0 {
            assert(b.contains(b[0]));
        }
        assert(a =~= b);
    } else {
        assert(a.contains(a.last())) by {
            assert(a[a.len() - 1] == a.last());
        }
        assert(b.contains(a.last()));
        let i = choose|i: int| 0 <= i < b.len() && b[i] == a.last();
        assert(b.contains(b.last())) by {
            assert(b[b.len() - 1] == b.last());
        }
        assert(a.contains(b.last()));
        let j = choose|j: int| 0 <= j < a.len() && a[j] == b.last();
        assert(a.last() == b.last()) by {
            if i < b.len() - 1 {
                assert(key_lt(b[i], b[b.len() - 1]));
                if j < a.len() - 1 {
                    assert(key_lt(a[j], a[a.len() - 1]));
                }
            }
        }
        let x = a.drop_last();
        let y = b.drop_last();
        assert forall|k: Seq<u8>| #[trigger] y.contains(k) == x.contains(k) by {
            if y.contains(k) {
                let n = choose|n: int| 0 <= n < y.len() && y[n] == k;
                assert(b[n] == k);
                assert(key_lt(b[n], b[b.len() - 1]));
                assert(b.contains(k));
                let m = choose|m: int| 0 <= m < a.len() && a[m] == k;
                assert(m < a.len() - 1);
                assert(x[m] == k);
            }
            if x.contains(k) {
                let n = choose|n: int| 0 <= n < x.len() && x[n] == k;
                assert(a[n] == k);
                assert(key_lt(a[n], a[a.len() - 1]));
                assert(a.contains(k));
                assert(b.contains(k));
                let m = choose|m: int| 0 <= m < b.len() && b[m] == k;
                assert(m < b.len() - 1);
                assert(y[m] == k);
            }
        }
        lemma_rising_same(x, y);
        assert(a =~= x.push(a.last()));
        assert(b =~= y.push(b.last()));
    }
}

// ---------------------------------------------------------------------------
// Watching, and outliving a crash.

/// A write that waits until there is room leaves no buffer overfull.
pub proof fn law_room_keeps_buffers(watchers: Seq<WatcherView>, event: EventView)
    requires
        room_for(watchers, event.key()),
        buffers_ok(watchers),
    ensures
        buffers_ok(published(watchers, event)),
{
    let after = published(watchers, event);
    assert forall|i: int| #![trigger after[i]] 0 <= i < after.len() implies after[i].queue.len()
        <= BUFFER_SIZE by {
        assert(after[i] == watchers[i].after(event));
    }
}

/// A journal of whole writes is replayed before what follows it.
pub(crate) proof fn lemma_replayed_first(
    journal: Seq<u8>,
    more: Seq<u8>,
    from: int,
    map: Map<Seq<u8>, Seq<u8>>,
)
    requires
        0 <= from <= journal.len(),
        complete(journal, from),
    ensures
        replayed(journal + more, from, map) == replayed(
            journal + more,
            journal.len() as int,
            replayed(journal, from, map),
        ),
    decreases journal.len() - from,
{
    if from == journal.len() {
        assert(record_at(journal, from) is None);
    } else {
        lemma_record_extends(journal, more, from);
        let (record, end) = record_at(journal, from)->0;
        lemma_replayed_first(journal, more, end, record.applied(map));
    }
}

/// All writes that have been flushed are recovered after a crash, whatever of later
/// writes has reached the storage besides: those that are there in full follow, and
/// one that was cut short is left out.
pub proof fn law_flushed_writes_survive<M>(tree: &Tree<M>, torn: Seq<u8>)
    requires
        tree.wf(),
        !tree.is_removed(),
        tree.flushed_journal() == tree.journal(),
    ensures
        recovered(tree.flushed_journal()) == tree@,
        recovered(tree.flushed_journal() + torn) == replayed(
            tree.flushed_journal() + torn,
            tree.flushed_journal().len() as int,
            tree@,
        ),
        record_at(tree.flushed_journal() + torn, tree.flushed_journal().len() as int) is None
            ==> recovered(tree.flushed_journal() + torn) == tree@,
{
    lemma_replayed_first(tree.flushed_journal(), torn, 0, Map::empty());
}

// ---------------------------------------------------------------------------
// Runs of calls.

/// Call `i` of a run has taken one tree to the next.
pub open(crate) spec fn ran_step<M: Fn(&[u8], Option<&[u8]>, &[u8]) -> Option<Vec<u8>>>(
    trees: Seq<Tree<M>>,
    calls: Seq<CallView>,
    answers: Seq<AnswerView>,
    i: int,
) -> bool {
    trees[i + 1].answered(&trees[i], calls[i], answers[i])
}

/// A run of calls that write: `trees` are the states of a tree between them.
pub open(crate) spec fn ran<M: Fn(&[u8], Option<&[u8]>, &[u8]) -> Option<Vec<u8>>>(
    trees: Seq<Tree<M>>,
    calls: Seq<CallView>,
    answers: Seq<AnswerView>,
) -> bool {
    &&& trees.len() == calls.len() + 1
    &&& answers.len() == calls.len()
    &&& forall|i: int| 0 <= i < calls.len() ==> #[trigger] ran_step(trees, calls, answers, i)
}

/// Whether two set-ups differ in the split size alone.
pub open spec fn same_but_split_size<M>(a: Config<M>, b: Config<M>) -> bool {
    a.read_only == b.read_only && a.merge_operator == b.merge_operator
}

/// Whether the merge operator always answers the same to the same.
pub open spec fn is_function<M: Fn(&[u8], Option<&[u8]>, &[u8]) -> Option<Vec<u8>>>(
    operator: M,
) -> bool {
    forall|
        key: Seq<u8>,
        held: Option<Seq<u8>>,
        operand: Seq<u8>,
        a: Option<Seq<u8>>,
        b: Option<Seq<u8>>,
    |
        #![trigger merges_to(operator, key, held, operand, a), merges_to(operator, key, held, operand, b)]
        merges_to(operator, key, held, operand, a) && merges_to(operator, key, held, operand, b)
            ==> a == b
}

/// Whether two trees answer alike.
pub open(crate) spec fn alike<M>(a: &Tree<M>, b: &Tree<M>) -> bool {
    &&& a@ == b@
    &&& a.spec_name() == b.spec_name()
    &&& a.is_removed() == b.is_removed()
    &&& same_but_split_size(a.setup(), b.setup())
}

proof fn lemma_answered_alike<M: Fn(&[u8], Option<&[u8]>, &[u8]) -> Option<Vec<u8>>>(
    a: &Tree<M>,
    b: &Tree<M>,
    call: CallView,
    next_a: &Tree<M>,
    answer_a: AnswerView,
    next_b: &Tree<M>,
    answer_b: AnswerView,
)
    requires
        alike(a, b),
        a.setup().merge_operator matches Some(operator) ==> is_function(operator),
        call is Merge && a.is_writable() ==> a.setup().merge_operator is Some,
        next_a.answered(a, call, answer_a),
        next_b.answered(b, call, answer_b),
    ensures
        alike(next_a, next_b),
        answer_a == answer_b,
        next_a.setup() == a.setup(),
{
    if let CallView::Merge(key, value) = call {
        if a.is_writable() {
            let x = choose|x: Option<Seq<u8>>| #[trigger] next_a.merged_in(a, key, value, x);
            let y = choose|y: Option<Seq<u8>>| #[trigger] next_b.merged_in(b, key, value, y);
            assert(next_a.merged_in(a, key, value, x));
            assert(next_b.merged_in(b, key, value, y));
            let operator = a.setup().merge_operator->0;
            let held = map_get(a@, key);
            assert(merges_to(operator, key, held, value, x));
            assert(merges_to(operator, key, held, value, y));
        }
    }
}

proof fn lemma_ran_alike<M: Fn(&[u8], Option<&[u8]>, &[u8]) -> Option<Vec<u8>>>(
    a: Seq<Tree<M>>,
    b: Seq<Tree<M>>,
    calls: Seq<CallView>,
    answers_a: Seq<AnswerView>,
    answers_b: Seq<AnswerView>,
    n: int,
)
    requires
        ran(a, calls, answers_a),
        ran(b, calls, answers_b),
        alike(&a[0], &b[0]),
        a[0].setup().merge_operator matches Some(operator) ==> is_function(operator),
        forall|i: int|
            #![trigger calls[i]]
            0 <= i < calls.len() && calls[i] is Merge && a[0].is_writable()
                ==> a[0].setup().merge_operator is Some,
        0 <= n <= calls.len(),
    ensures
        alike(&a[n], &b[n]),
        a[n].setup() == a[0].setup(),
        a[n].is_removed() == a[0].is_removed(),
        n < calls.len() ==> answers_a[n] == answers_b[n],
    decreases n,
{
    if n > 0 {
        lemma_ran_alike(a, b, calls, answers_a, answers_b, n - 1);
        assert(ran_step(a, calls, answers_a, n - 1));
        assert(ran_step(b, calls, answers_b, n - 1));
        lemma_answered_alike(
            &a[n - 1],
            &b[n - 1],
            calls[n - 1],
            &a[n],
            answers_a[n - 1],
            &b[n],
            answers_b[n - 1],
        );
    }
    if n < calls.len() {
        assert(ran_step(a, calls, answers_a, n));
        assert(ran_step(b, calls, answers_b, n));
        lemma_answered_alike(
            &a[n],
            &b[n],
            calls[n],
            &a[n + 1],
            answers_a[n],
            &b[n + 1],
            answers_b[n],
        );
    }
}

/// Two trees that differ in the split size alone answer any run of calls alike, and
/// hold the same all along: splitting loses nothing, adds nothing and reorders nothing.
pub proof fn law_split_size_does_not_show<
    M: Fn(&[u8], Option<&[u8]>, &[u8]) -> Option<Vec<u8>>,
>(
    a: Seq<Tree<M>>,
    b: Seq<Tree<M>>,
    calls: Seq<CallView>,
    answers_a: Seq<AnswerView>,
    answers_b: Seq<AnswerView>,
)
    requires
        ran(a, calls, answers_a),
        ran(b, calls, answers_b),
        alike(&a[0], &b[0]),
        a[0].setup().merge_operator matches Some(operator) ==> is_function(operator),
        forall|i: int|
            #![trigger calls[i]]
            0 <= i < calls.len() && calls[i] is Merge && a[0].is_writable()
                ==> a[0].setup().merge_operator is Some,
    ensures
        answers_a == answers_b,
        forall|i: int| #![trigger a[i]] 0 <= i < a.len() ==> a[i]@ == b[i]@,
{
    assert forall|i: int| 0 <= i < answers_a.len() implies answers_a[i] == answers_b[i] by {
        lemma_ran_alike(a, b, calls, answers_a, answers_b, i);
    }
    assert(answers_a =~= answers_b);
    assert forall|i: int| #![trigger a[i]] 0 <= i < a.len() implies a[i]@ == b[i]@ by {
        lemma_ran_alike(a, b, calls, answers_a, answers_b, i);
    }
}

/// What a walk meets is determined by where it stands and by what the tree holds.
pub proof fn law_walk_is_determined(
    walk: WalkView,
    map: Map<Seq<u8>, Seq<u8>>,
    a: Seq<Seq<u8>>,
    b: Seq<Seq<u8>>,
)
    requires
        walk.ok(),
        walks(walk, map, a),
        walks(walk, map, b),
    ensures
        a == b,
{
    law_walk_meets_all(walk, map, a);
    law_walk_meets_all(walk, map, b);
    lemma_rising_same(a, b);
}

/// A call on one key leaves what is held for another, and the tree as writable as it was.
proof fn lemma_answered_elsewhere<M: Fn(&[u8], Option<&[u8]>, &[u8]) -> Option<Vec<u8>>>(
    before: &Tree<M>,
    after: &Tree<M>,
    call: CallView,
    answer: AnswerView,
    key: Seq<u8>,
)
    requires
        after.answered(before, call, answer),
        call.key() != key,
    ensures
        map_get(after@, key) == map_get(before@, key),
        after.is_writable() == before.is_writable(),
{
    if let CallView::Merge(k, value) = call {
        if before.is_writable() {
            let x = choose|x: Option<Seq<u8>>| #[trigger] after.merged_in(before, k, value, x);
            assert(after.merged_in(before, k, value, x));
        }
    }
}

/// Whether a call tries to create `key`.
pub open spec fn tries_to_create(call: CallView, key: Seq<u8>) -> bool {
    call matches CallView::Cas(k, expected, new) && k == key && expected is None && new is Some
}

/// What a call that tries to create a key would have it hold.
pub open spec fn offered(call: CallView) -> Option<Seq<u8>> {
    call->Cas_2
}

/// Before anyone has tried, a key is as it was.
proof fn lemma_not_yet_created<M: Fn(&[u8], Option<&[u8]>, &[u8]) -> Option<Vec<u8>>>(
    trees: Seq<Tree<M>>,
    calls: Seq<CallView>,
    answers: Seq<AnswerView>,
    key: Seq<u8>,
    n: int,
)
    requires
        ran(trees, calls, answers),
        0 <= n <= calls.len(),
        forall|i: int| #![trigger calls[i]] 0 <= i < n ==> calls[i].key() != key,
    ensures
        map_get(trees[n]@, key) == map_get(trees[0]@, key),
        trees[n].is_writable() == trees[0].is_writable(),
    decreases n,
{
    if n > 0 {
        lemma_not_yet_created(trees, calls, answers, key, n - 1);
        assert(ran_step(trees, calls, answers, n - 1));
        assert(calls[n - 1].key() != key);
        lemma_answered_elsewhere(&trees[n - 1], &trees[n], calls[n - 1], answers[n - 1], key);
    }
}

/// Once a key has been created, it holds what it was created with.
proof fn lemma_created<M: Fn(&[u8], Option<&[u8]>, &[u8]) -> Option<Vec<u8>>>(
    trees: Seq<Tree<M>>,
    calls: Seq<CallView>,
    answers: Seq<AnswerView>,
    key: Seq<u8>,
    w: int,
    n: int,
)
    requires
        ran(trees, calls, answers),
        trees[0].is_writable(),
        map_get(trees[0]@, key) is None,
        0 <= w < n <= calls.len(),
        tries_to_create(calls[w], key),
        forall|i: int| #![trigger calls[i]] 0 <= i < w ==> calls[i].key() != key,
        forall|i: int|
            #![trigger calls[i]]
            0 <= i < calls.len() && calls[i].key() == key ==> tries_to_create(calls[i], key),
    ensures
        answers[w] == AnswerView::Swapped,
        map_get(trees[n]@, key) == offered(calls[w]),
        trees[n].is_writable(),
        n < calls.len() && calls[n].key() == key ==> answers[n] == AnswerView::Refused(
            offered(calls[w]),
        ),
    decreases n,
{
    if n == w + 1 {
        lemma_not_yet_created(trees, calls, answers, key, w);
        assert(ran_step(trees, calls, answers, w));
    } else {
        lemma_created(trees, calls, answers, key, w, n - 1);
        assert(ran_step(trees, calls, answers, n - 1));
        if calls[n - 1].key() != key {
            lemma_answered_elsewhere(&trees[n - 1], &trees[n], calls[n - 1], answers[n - 1], key);
        }
    }
    if n < calls.len() && calls[n].key() == key {
        assert(ran_step(trees, calls, answers, n));
    }
}

/// The first of the calls that are on `key`.
proof fn lemma_first_on(calls: Seq<CallView>, key: Seq<u8>, n: int) -> (w: int)
    requires
        0 <= n < calls.len(),
        calls[n].key() == key,
    ensures
        0 <= w <= n,
        calls[w].key() == key,
        forall|i: int| #![trigger calls[i]] 0 <= i < w ==> calls[i].key() != key,
    decreases n,
{
    if exists|i: int| #![trigger calls[i]] 0 <= i < n && calls[i].key() == key {
        let i = choose|i: int| #![trigger calls[i]] 0 <= i < n && calls[i].key() == key;
        lemma_first_on(calls, key, i)
    } else {
        n
    }
}

/// Call `w` has created the key: it has gone through, and all others that tried have
/// been told what it offered.
pub open spec fn created_by(
    calls: Seq<CallView>,
    answers: Seq<AnswerView>,
    key: Seq<u8>,
    w: int,
) -> bool {
    &&& 0 <= w < calls.len()
    &&& tries_to_create(calls[w], key)
    &&& answers[w] == AnswerView::Swapped
    &&& forall|i: int|
        #![trigger calls[i]]
        0 <= i < calls.len() && i != w && tries_to_create(calls[i], key) ==> answers[i]
            == AnswerView::Refused(offered(calls[w]))
}

/// Of any number of attempts to create a key that is not there, with whatever is
/// written to other keys in between, exactly one goes through; all others are told
/// its value, and that is what the key holds.
pub proof fn law_one_creates<M: Fn(&[u8], Option<&[u8]>, &[u8]) -> Option<Vec<u8>>>(
    trees: Seq<Tree<M>>,
    calls: Seq<CallView>,
    answers: Seq<AnswerView>,
    key: Seq<u8>,
)
    requires
        ran(trees, calls, answers),
        trees[0].is_writable(),
        map_get(trees[0]@, key) is None,
        exists|i: int| #![trigger calls[i]] 0 <= i < calls.len() && calls[i].key() == key,
        forall|i: int|
            #![trigger calls[i]]
            0 <= i < calls.len() && calls[i].key() == key ==> tries_to_create(calls[i], key),
    ensures
        exists|w: int| #[trigger]
            created_by(calls, answers, key, w) && map_get(trees.last()@, key) == offered(calls[w]),
{
    let n = choose|i: int| #![trigger calls[i]] 0 <= i < calls.len() && calls[i].key() == key;
    let w = lemma_first_on(calls, key, n);
    lemma_created(trees, calls, answers, key, w, calls.len() as int);
    assert(trees.last() == trees[calls.len() as int]);
    assert forall|i: int|
        #![trigger calls[i]]
        0 <= i < calls.len() && i != w && tries_to_create(calls[i], key) implies answers[i]
        == AnswerView::Refused(offered(calls[w])) by {
        assert(calls[i].key() == key);
        lemma_created(trees, calls, answers, key, w, i);
    }
    assert(created_by(calls, answers, key, w));
}

/// What happens in a run of calls, one after another.
pub open spec fn events_of(calls: Seq<CallView>, answers: Seq<AnswerView>) -> Seq<EventView>
    decreases calls.len(),
{
    if calls.len() == 0 {
        Seq::empty()
    } else {
        let before = events_of(calls.drop_last(), answers.drop_last());
        match calls.last().event(answers.last()) {
            Some(event) => before.push(event),
            None => before,
        }
    }
}

proof fn lemma_events_of<M: Fn(&[u8], Option<&[u8]>, &[u8]) -> Option<Vec<u8>>>(
    trees: Seq<Tree<M>>,
    calls: Seq<CallView>,
    answers: Seq<AnswerView>,
    n: int,
)
    requires
        ran(trees, calls, answers),
        trees[0].is_writable(),
        0 <= n <= calls.len(),
    ensures
        trees[n].is_writable(),
        trees[n].watchers() == published_all(
            trees[0].watchers(),
            events_of(calls.take(n), answers.take(n)),
        ),
    decreases n,
{
    if n > 0 {
        lemma_events_of(trees, calls, answers, n - 1);
        assert(ran_step(trees, calls, answers, n - 1));
        assert(calls.take(n).drop_last() =~= calls.take(n - 1));
        assert(answers.take(n).drop_last() =~= answers.take(n - 1));
        let before = events_of(calls.take(n - 1), answers.take(n - 1));
        let call = calls[n - 1];
        if let CallView::Merge(key, value) = call {
            let x = choose|x: Option<Seq<u8>>| #[trigger]
                trees[n].merged_in(&trees[n - 1], key, value, x);
            assert(trees[n].merged_in(&trees[n - 1], key, value, x));
        }
        if let Some(event) = call.event(answers[n - 1]) {
            assert(before.push(event).drop_last() =~= before);
            assert(before.push(event).last() == event);
        }
    }
}

/// A subscriber is told of a run of calls, in their order, one event for each write
/// to a key that it watches: the value of a `set`, the operand of a `merge`, the
/// removal by a `del`, whether the key was there or not, and what a `cas` that went
/// through put or took out; of a `cas` that was refused it is told nothing.
pub proof fn law_subscriber_sees_run<M: Fn(&[u8], Option<&[u8]>, &[u8]) -> Option<Vec<u8>>>(
    trees: Seq<Tree<M>>,
    calls: Seq<CallView>,
    answers: Seq<AnswerView>,
    i: int,
)
    requires
        ran(trees, calls, answers),
        trees[0].is_writable(),
        0 <= i < trees[0].watchers().len(),
    ensures
        trees.last().watchers().len() == trees[0].watchers().len(),
        trees.last().watchers()[i].queue == trees[0].watchers()[i].queue + events_of(
            calls,
            answers,
        ).filter(|event: EventView| trees[0].watchers()[i].listens(event.key())),
{
    let n = calls.len() as int;
    lemma_events_of(trees, calls, answers, n);
    assert(calls.take(n) =~= calls);
    assert(answers.take(n) =~= answers);
    assert(trees.last() == trees[n]);
    law_events_in_order(trees[0].watchers(), events_of(calls, answers));
}

} // verus!
