//! What the operations mean, said of what goes into them and what comes out: of maps
//! and byte strings, of results as callers get them, and of one call after another.

use crate::calls::{merge_answer, previous_answer, swap_answer, CallView};
use crate::error::Error;
use crate::iter::{Iter, WalkView};
use crate::journal::{written, RecordView};
use crate::key::{group_key_order, key_le, key_lt, parts_at};
use crate::laws::{
    law_walk_back_meets_all, law_walk_back_meets_once, law_walk_meets_all, law_walk_meets_once,
    walks, walks_back,
};
use crate::neighbours::{is_greatest, is_least, Bound, BoundView};
use crate::node::{bytes_view, merges_to, slice_view};
use crate::subscription::{law_events_in_order, published, room_for, Event, EventView, WatcherView};
use crate::tree::Tree;
use crate::whole::removals;
use crate::write::{change_event, map_get, updates_to};
use vstd::prelude::*;

verus! {

// ---------------------------------------------------------------------------
// The order of keys.

/// Keys that agree up to some byte, and differ there, are in the order of that byte,
/// whatever follows it and however long they are.
pub proof fn law_first_difference_decides(p: Seq<u8>, u: u8, x: Seq<u8>, v: u8, y: Seq<u8>)
    requires
        u < v,
    ensures
        key_lt(p + seq![u] + x, p + seq![v] + y),
        !key_lt(p + seq![v] + y, p + seq![u] + x),
{
    broadcast use group_key_order;

    reveal(key_lt);
    let a = p + seq![u] + x;
    let b = p + seq![v] + y;
    let n = p.len() as int;
    assert(a[n] == u && b[n] == v);
    assert(parts_at(a, b, n));
}

/// A key comes before all keys that go on from it.
pub proof fn law_shorter_comes_first(p: Seq<u8>, u: u8, x: Seq<u8>)
    ensures
        key_lt(p, p + seq![u] + x),
        !key_lt(p + seq![u] + x, p),
{
    broadcast use group_key_order;

    reveal(key_lt);
    assert(parts_at(p, p + seq![u] + x, p.len() as int));
}

/// Of any two keys one comes first, unless they are the same; and what comes first
/// of one comes first of all that follow it.
pub proof fn law_keys_are_in_line(a: Seq<u8>, b: Seq<u8>, c: Seq<u8>)
    ensures
        !key_lt(a, a),
        a != b ==> key_lt(a, b) != key_lt(b, a),
        key_lt(a, b) && key_lt(b, c) ==> key_lt(a, c),
        key_le(a, b) == (a == b || key_lt(a, b)),
{
    broadcast use group_key_order;

}

/// The same bytes put before two keys leave their order as it was.
pub proof fn law_common_start_does_not_matter(p: Seq<u8>, a: Seq<u8>, b: Seq<u8>)
    ensures
        key_lt(p + a, p + b) == key_lt(a, b),
{
    broadcast use group_key_order;

    reveal(key_lt);
    let m = p.len() as int;
    if key_lt(a, b) {
        let n = choose|n: int| parts_at(a, b, n);
        assert(parts_at(p + a, p + b, m + n)) by {
            assert forall|i: int| 0 <= i < m + n implies (p + a)[i] == (p + b)[i] by {
                if i >= m {
                    assert((p + a)[i] == a[i - m] && (p + b)[i] == b[i - m]);
                }
            }
        }
    }
    if key_lt(p + a, p + b) {
        let n = choose|n: int| parts_at(p + a, p + b, n);
        if n < m {
            assert((p + a)[n] == (p + b)[n]);
        }
        assert(parts_at(a, b, n - m)) by {
            assert forall|i: int| 0 <= i < n - m implies a[i] == b[i] by {
                assert((p + a)[i + m] == a[i] && (p + b)[i + m] == b[i]);
            }
            if n - m < a.len() {
                assert((p + a)[n] == a[n - m]);
            }
            assert((p + b)[n] == b[n - m]);
        }
    }
}

// ---------------------------------------------------------------------------
// Writes, by their answers.

/// `set` puts the value under the key, and tells what was there before, also where
/// that is the same value. Nothing else that can be read changes. A read-only tree
/// and a removed one refuse, each with its error, and stay as they are.
pub proof fn law_set<M: Fn(&[u8], Option<&[u8]>, &[u8]) -> Option<Vec<u8>>>(
    before: &Tree<M>,
    after: &Tree<M>,
    key: Seq<u8>,
    value: Seq<u8>,
    r: Result<Option<Vec<u8>>, Error>,
)
    requires
        after.answered(before, CallView::Put(key, value), previous_answer(r)),
    ensures
        before.setup().read_only ==> {
            &&& *after == *before
            &&& r matches Err(Error::Unsupported(message))
            &&& message@ == "the database is in read-only mode"@
        },
        !before.setup().read_only && before.is_removed() ==> {
            &&& *after == *before
            &&& r matches Err(Error::CollectionNotFound(name))
            &&& name@ == before.spec_name()
        },
        !before.setup().read_only && !before.is_removed() ==> {
            &&& r matches Ok(previous)
            &&& match previous {
                Some(v) => before@.contains_key(key) && before@[key] == v@,
                None => !before@.contains_key(key),
            }
            &&& after@ == before@.insert(key, value)
            &&& after.spec_name() == before.spec_name()
            &&& after.setup() == before.setup()
            &&& !after.is_removed()
            &&& after.flushed_journal() == before.flushed_journal()
            &&& after.journal() == before.journal() + written(
                (RecordView { key, value: Some(value) }),
            )
            &&& after.watchers() == published(before.watchers(), EventView::Put(key, value))
        },
{
}

/// `del` takes the key out and tells what was there, if anything was. In a read-only
/// tree it does nothing and tells nothing.
pub proof fn law_del<M: Fn(&[u8], Option<&[u8]>, &[u8]) -> Option<Vec<u8>>>(
    before: &Tree<M>,
    after: &Tree<M>,
    key: Seq<u8>,
    r: Result<Option<Vec<u8>>, Error>,
)
    requires
        after.answered(before, CallView::Del(key), previous_answer(r)),
    ensures
        before.setup().read_only ==> *after == *before && r == Ok::<_, Error>(None::<Vec<u8>>),
        !before.setup().read_only && before.is_removed() ==> {
            &&& *after == *before
            &&& r matches Err(Error::CollectionNotFound(name))
            &&& name@ == before.spec_name()
        },
        !before.setup().read_only && !before.is_removed() ==> {
            &&& r matches Ok(previous)
            &&& match previous {
                Some(v) => before@.contains_key(key) && before@[key] == v@,
                None => !before@.contains_key(key),
            }
            &&& after@ == before@.remove(key)
            &&& after.spec_name() == before.spec_name()
            &&& after.setup() == before.setup()
            &&& !after.is_removed()
            &&& after.flushed_journal() == before.flushed_journal()
            &&& after.journal() == before.journal() + written((RecordView { key, value: None }))
            &&& after.watchers() == published(before.watchers(), EventView::Del(key))
        },
{
}

/// `cas` goes through exactly if what is held is what was expected: nothing where
/// nothing was expected, else a value of the same bytes. Where it goes through, the
/// key holds the new value, or is gone where there is none. Where it does not, it
/// tells what is held, whatever was expected, and nothing changes.
pub proof fn law_cas<M: Fn(&[u8], Option<&[u8]>, &[u8]) -> Option<Vec<u8>>>(
    before: &Tree<M>,
    after: &Tree<M>,
    key: Seq<u8>,
    expected: Option<&[u8]>,
    new: Option<Vec<u8>>,
    r: Result<Result<(), Option<Vec<u8>>>, Error>,
)
    requires
        after.answered(
            before,
            CallView::Cas(key, slice_view(expected), bytes_view(new)),
            swap_answer(r),
        ),
    ensures
        before.setup().read_only ==> {
            &&& *after == *before
            &&& r matches Err(Error::Unsupported(message))
            &&& message@ == "can not perform a cas on a read-only Tree"@
        },
        !before.setup().read_only && before.is_removed() ==> {
            &&& *after == *before
            &&& r matches Err(Error::CollectionNotFound(name))
            &&& name@ == before.spec_name()
        },
        !before.setup().read_only && !before.is_removed() ==> {
            let met = match expected {
                Some(bytes) => before@.contains_key(key) && before@[key] == bytes@,
                None => !before@.contains_key(key),
            };
            &&& r is Ok
            &&& r->Ok_0 is Ok == met
            &&& after.spec_name() == before.spec_name()
            &&& after.setup() == before.setup()
            &&& !after.is_removed()
            &&& after.flushed_journal() == before.flushed_journal()
            &&& r->Ok_0 matches Ok(_) ==> {
                &&& match new {
                    Some(bytes) => {
                        &&& after@ == before@.insert(key, bytes@)
                        &&& after.journal() == before.journal() + written(
                            (RecordView { key, value: Some(bytes@) }),
                        )
                        &&& after.watchers() == published(
                            before.watchers(),
                            EventView::Put(key, bytes@),
                        )
                    },
                    None => {
                        &&& after@ == before@.remove(key)
                        &&& after.journal() == before.journal() + written(
                            (RecordView { key, value: None }),
                        )
                        &&& after.watchers() == published(before.watchers(), EventView::Del(key))
                    },
                }
            }
            &&& r->Ok_0 matches Err(held) ==> {
                &&& match held {
                    Some(v) => before@.contains_key(key) && before@[key] == v@,
                    None => !before@.contains_key(key),
                }
                &&& after@ == before@
                &&& after.journal() == before.journal()
                &&& after.watchers() == before.watchers()
            }
        },
{
}

/// What is held after a merge is what the operator has answered, called for the key
/// on what was held and on the value to be merged in, whatever these are. Where it
/// answers nothing, the key is gone.
pub proof fn law_merge<M: Fn(&[u8], Option<&[u8]>, &[u8]) -> Option<Vec<u8>>>(
    before: &Tree<M>,
    after: &Tree<M>,
    key: Seq<u8>,
    value: Seq<u8>,
    r: Result<(), Error>,
)
    requires
        after.answered(before, CallView::Merge(key, value), merge_answer(r)),
    ensures
        before.setup().read_only ==> {
            &&& *after == *before
            &&& r matches Err(Error::Unsupported(message))
            &&& message@ == "the database is in read-only mode"@
        },
        !before.setup().read_only && before.is_removed() ==> {
            &&& *after == *before
            &&& r matches Err(Error::CollectionNotFound(name))
            &&& name@ == before.spec_name()
        },
        !before.setup().read_only && !before.is_removed() ==> {
            &&& r is Ok
            &&& after.spec_name() == before.spec_name()
            &&& after.setup() == before.setup()
            &&& !after.is_removed()
            &&& after.flushed_journal() == before.flushed_journal()
            &&& after.watchers() == published(before.watchers(), EventView::Merge(key, value))
            &&& exists|k: &[u8], o: Option<&[u8]>, v: &[u8], n: Option<Vec<u8>>|
                {
                    &&& #[trigger] call_ensures(before.setup().merge_operator->0, (k, o, v), n)
                    &&& k@ == key
                    &&& v@ == value
                    &&& match o {
                        Some(held) => before@.contains_key(key) && before@[key] == held@,
                        None => !before@.contains_key(key),
                    }
                    &&& match n {
                        Some(answer) => {
                            &&& after@ == before@.insert(key, answer@)
                            &&& after.journal() == before.journal() + written(
                                (RecordView { key, value: Some(answer@) }),
                            )
                        },
                        None => {
                            &&& after@ == before@.remove(key)
                            &&& after.journal() == before.journal() + written(
                                (RecordView { key, value: None }),
                            )
                        },
                    }
                }
        },
{
    if !before.setup().read_only && !before.is_removed() {
        let merged = choose|merged: Option<Seq<u8>>| #[trigger]
            after.merged_in(before, key, value, merged);
        assert(after.merged_in(before, key, value, merged));
        law_operator_answers(
            before.setup().merge_operator->0,
            key,
            map_get(before@, key),
            value,
            merged,
        );
    }
}

/// What a merge makes of a value is an answer of the operator itself.
pub proof fn law_operator_answers<M: Fn(&[u8], Option<&[u8]>, &[u8]) -> Option<Vec<u8>>>(
    operator: M,
    key: Seq<u8>,
    held: Option<Seq<u8>>,
    operand: Seq<u8>,
    answer: Option<Seq<u8>>,
)
    requires
        merges_to(operator, key, held, operand, answer),
    ensures
        exists|k: &[u8], o: Option<&[u8]>, v: &[u8], n: Option<Vec<u8>>|
            {
                &&& #[trigger] call_ensures(operator, (k, o, v), n)
                &&& k@ == key
                &&& v@ == operand
                &&& match o {
                    Some(bytes) => held == Some(bytes@),
                    None => held is None,
                }
                &&& match n {
                    Some(bytes) => answer == Some(bytes@),
                    None => answer is None,
                }
            },
{
}

/// What an update makes of a value is an answer of the caller's function itself, and
/// all answers of it count.
pub proof fn law_update_answers<F: FnMut(Option<&[u8]>) -> Option<Vec<u8>>>(
    f: F,
    held: Option<Seq<u8>>,
    answer: Option<Seq<u8>>,
)
    ensures
        updates_to(f, held, answer) <==> exists|o: Option<&[u8]>, n: Option<Vec<u8>>|
            {
                &&& #[trigger] call_ensures(f, (o,), n)
                &&& match o {
                    Some(bytes) => held == Some(bytes@),
                    None => held is None,
                }
                &&& match n {
                    Some(bytes) => answer == Some(bytes@),
                    None => answer is None,
                }
            },
{
}

/// A write that has been made has changed what is held for its key, and for no other,
/// has told those who watch the key, and has been put down at the end of the journal.
pub proof fn law_wrote<M>(
    before: &Tree<M>,
    after: &Tree<M>,
    key: Seq<u8>,
    value: Option<Seq<u8>>,
    event: EventView,
)
    requires
        after.wrote(before, key, value, event),
    ensures
        after@ == match value {
            Some(bytes) => before@.insert(key, bytes),
            None => before@.remove(key),
        },
        after.spec_name() == before.spec_name(),
        after.setup() == before.setup(),
        after.is_removed() == before.is_removed(),
        after.flushed_journal() == before.flushed_journal(),
        after.journal() == before.journal() + written((RecordView { key, value })),
        after.watchers() == published(before.watchers(), event),
{
}

/// Looking something up changes nothing that can be read, told or written down.
pub proof fn law_lookups_change_nothing<M>(before: &Tree<M>, after: &Tree<M>)
    requires
        after.only_tidied(before),
    ensures
        after@ == before@,
        after.spec_name() == before.spec_name(),
        after.setup() == before.setup(),
        after.is_removed() == before.is_removed(),
        after.journal() == before.journal(),
        after.flushed_journal() == before.flushed_journal(),
        after.watchers() == before.watchers(),
        after.root_page() == before.root_page(),
{
}

// ---------------------------------------------------------------------------
// Watching.

/// A watcher listens to a key exactly if it has not stopped and the key is its prefix
/// with some bytes after it, or none.
pub proof fn law_watcher_listens_to_its_prefix(watcher: WatcherView, key: Seq<u8>)
    ensures
        watcher.listens(key) <==> {
            &&& !watcher.gone
            &&& exists|rest: Seq<u8>| key == #[trigger] watcher.prefix.add(rest)
        },
        forall|rest: Seq<u8>|
            !watcher.gone ==> watcher.listens(#[trigger] watcher.prefix.add(rest)),
{
    let n = watcher.prefix.len() as int;
    if watcher.listens(key) {
        let rest = key.subrange(n, key.len() as int);
        assert(key =~= watcher.prefix.add(rest));
    }
    assert forall|rest: Seq<u8>| !watcher.gone implies watcher.listens(
        #[trigger] watcher.prefix.add(rest),
    ) by {
        assert(watcher.prefix.add(rest).subrange(0, n) =~= watcher.prefix);
    }
}

/// An event is put at the end of what waits for a watcher, if the key is the
/// watcher's prefix with some bytes after it and the watcher has not stopped; else the
/// watcher is told nothing.
pub proof fn law_watcher_is_told(watchers: Seq<WatcherView>, event: EventView, i: int)
    requires
        0 <= i < watchers.len(),
    ensures
        ({
            let key = match event {
                EventView::Put(key, _) => key,
                EventView::Merge(key, _) => key,
                EventView::Del(key) => key,
            };
            let before = watchers[i];
            let after = published(watchers, event)[i];
            let concerned = !before.gone && exists|rest: Seq<u8>|
                key == #[trigger] before.prefix.add(rest);
            &&& published(watchers, event).len() == watchers.len()
            &&& after.prefix == before.prefix
            &&& after.gone == before.gone
            &&& concerned ==> after.queue == before.queue.push(event)
            &&& !concerned ==> after.queue == before.queue
        }),
{
    law_watcher_listens_to_its_prefix(watchers[i], event.key());
}

/// What a subscriber takes out of an event is what was written: its kind, the key
/// and the value.
pub proof fn law_event_tells(event: Event)
    ensures
        match event {
            Event::Put(key, value) => event@ == EventView::Put(key@, value@),
            Event::Merge(key, value) => event@ == EventView::Merge(key@, value@),
            Event::Del(key) => event@ == EventView::Del(key@),
        },
{
}

/// There is room for an event on a key as long as fewer than 1024 events wait for
/// each watcher that has not stopped and whose prefix the key starts with.
pub proof fn law_room(watchers: Seq<WatcherView>, key: Seq<u8>)
    ensures
        room_for(watchers, key) <==> forall|i: int, rest: Seq<u8>|
            #![trigger watchers[i].prefix.add(rest)]
            0 <= i < watchers.len() && !watchers[i].gone && key == watchers[i].prefix.add(rest)
                ==> watchers[i].queue.len() < 1024,
{
    if room_for(watchers, key) {
        assert forall|i: int, rest: Seq<u8>|
            #![trigger watchers[i].prefix.add(rest)]
            0 <= i < watchers.len() && !watchers[i].gone && key == watchers[i].prefix.add(
                rest,
            ) implies watchers[i].queue.len() < 1024 by {
            law_watcher_listens_to_its_prefix(watchers[i], key);
        }
    }
    if forall|i: int, rest: Seq<u8>|
        #![trigger watchers[i].prefix.add(rest)]
        0 <= i < watchers.len() && !watchers[i].gone && key == watchers[i].prefix.add(rest)
            ==> watchers[i].queue.len() < 1024 {
        assert forall|i: int|
            #![trigger watchers[i]]
            0 <= i < watchers.len() && watchers[i].listens(key) implies watchers[i].queue.len()
            < 1024 by {
            law_watcher_listens_to_its_prefix(watchers[i], key);
        }
    }
}

/// Those keys that a watcher is told of, of a run of keys that are taken out.
proof fn lemma_removals_told(watcher: WatcherView, keys: Seq<Seq<u8>>)
    ensures
        removals(keys).filter(|event: EventView| watcher.listens(event.key())) == keys.filter(
            |key: Seq<u8>|
                !watcher.gone && exists|rest: Seq<u8>| key == #[trigger] watcher.prefix.add(rest),
        ).map_values(|key: Seq<u8>| EventView::Del(key)),
    decreases keys.len(),
{
    reveal(Seq::filter);
    let heard = |event: EventView| watcher.listens(event.key());
    let seen = |key: Seq<u8>|
        !watcher.gone && exists|rest: Seq<u8>| key == #[trigger] watcher.prefix.add(rest);
    let told = |key: Seq<u8>| EventView::Del(key);
    if keys.len() == 0 {
        assert(removals(keys).filter(heard) =~= keys.filter(seen).map_values(told));
    } else {
        let fewer = keys.drop_last();
        let last = keys.last();
        lemma_removals_told(watcher, fewer);
        assert(removals(keys).drop_last() =~= removals(fewer));
        assert(removals(keys).last() == EventView::Del(last));
        law_watcher_listens_to_its_prefix(watcher, last);
        assert(heard(EventView::Del(last)) == seen(last));
        assert(removals(keys).filter(heard) =~= keys.filter(seen).map_values(told));
    }
}

/// `clear` leaves nothing, and tells each watcher of every key of its prefix that was
/// there, once, in the order of the keys, as taken out.
pub proof fn law_clear<M>(before: &Tree<M>, after: &Tree<M>, keys: Seq<Seq<u8>>, i: int)
    requires
        after.emptied(before, keys),
        0 <= i < before.watchers().len(),
    ensures
        after@ == Map::<Seq<u8>, Seq<u8>>::empty(),
        forall|a: int, b: int|
            #![trigger keys[a], keys[b]]
            0 <= a < b < keys.len() ==> key_lt(keys[a], keys[b]),
        forall|k: Seq<u8>| #[trigger] keys.contains(k) <==> before@.contains_key(k),
        after.watchers().len() == before.watchers().len(),
        after.watchers()[i].queue == before.watchers()[i].queue + keys.filter(
            |key: Seq<u8>|
                !before.watchers()[i].gone && exists|rest: Seq<u8>|
                    key == #[trigger] before.watchers()[i].prefix.add(rest),
        ).map_values(|key: Seq<u8>| EventView::Del(key)),
        after.spec_name() == before.spec_name(),
        after.setup() == before.setup(),
        after.is_removed() == before.is_removed(),
        after.flushed_journal() == before.flushed_journal(),
{
    law_events_in_order(before.watchers(), removals(keys));
    lemma_removals_told(before.watchers()[i], keys);
    assert forall|k: Seq<u8>| #[trigger] keys.contains(k) <==> before@.contains_key(k) by {
        assert(keys.to_set().contains(k) == keys.contains(k));
    }
}

/// Watching, taking an event and stopping to watch leave the tree as it was.
pub proof fn law_watching_changes_nothing<M>(before: &Tree<M>, after: &Tree<M>)
    requires
        after.only_watchers_changed(before),
    ensures
        after@ == before@,
        after.spec_name() == before.spec_name(),
        after.setup() == before.setup(),
        after.is_removed() == before.is_removed(),
        after.journal() == before.journal(),
        after.flushed_journal() == before.flushed_journal(),
        after.shape() == before.shape(),
        after.root_page() == before.root_page(),
{
}

/// A key that has got a value is told of as put, one that has lost it as taken out.
pub proof fn law_change_is_told(key: Seq<u8>, value: Option<Seq<u8>>)
    ensures
        match value {
            Some(bytes) => change_event(key, value) == EventView::Put(key, bytes),
            None => change_event(key, value) == EventView::Del(key),
        },
{
}

// ---------------------------------------------------------------------------
// Neighbours and walks.

/// The entry that `get_gt` tells is after the key, and no entry is between.
pub proof fn law_least_above(map: Map<Seq<u8>, Seq<u8>>, key: Seq<u8>, found: Seq<u8>)
    ensures
        is_least(map, BoundView::Excluded(key), found) <==> {
            &&& map.contains_key(found)
            &&& key_lt(key, found)
            &&& forall|k: Seq<u8>| #[trigger]
                map.contains_key(k) && key_lt(key, k) ==> k == found || key_lt(found, k)
        },
{
    broadcast use group_key_order;

}

/// The entry that `get_lt` tells is before the key, and no entry is between.
pub proof fn law_greatest_below(map: Map<Seq<u8>, Seq<u8>>, key: Seq<u8>, found: Seq<u8>)
    ensures
        is_greatest(map, BoundView::Excluded(key), found) <==> {
            &&& map.contains_key(found)
            &&& key_lt(found, key)
            &&& forall|k: Seq<u8>| #[trigger]
                map.contains_key(k) && key_lt(k, key) ==> k == found || key_lt(k, found)
        },
{
    broadcast use group_key_order;

}

/// A walk over a range is to come to the keys between its ends, those at an end among
/// them where that is included, and to no others.
pub proof fn law_range_is_between_its_ends(lo: Bound, hi: Bound, walk: WalkView, key: Seq<u8>)
    requires
        walk.lo == lo@,
        walk.hi == hi@,
        !walk.is_scan,
    ensures
        ({
            let above = match lo {
                Bound::Included(start) => key == start@ || key_lt(start@, key),
                Bound::Excluded(start) => key_lt(start@, key),
                Bound::Unbounded => true,
            };
            let below = match hi {
                Bound::Included(end) => key == end@ || key_lt(key, end@),
                Bound::Excluded(end) => key_lt(key, end@),
                Bound::Unbounded => true,
            };
            &&& walk.ahead(key) == (above && below)
            &&& walk.behind(key) == (above && below)
        }),
{
    broadcast use group_key_order;

}

/// A scan goes forward to all keys from where it starts on, and backward to all keys
/// down from there.
pub proof fn law_scan_is_from_its_start(lo: Bound, hi: Bound, walk: WalkView, key: Seq<u8>)
    requires
        walk.lo == lo@,
        walk.hi == hi@,
        walk.is_scan,
    ensures
        walk.ahead(key) == match lo {
            Bound::Included(start) => key == start@ || key_lt(start@, key),
            Bound::Excluded(start) => key_lt(start@, key),
            Bound::Unbounded => true,
        },
        walk.behind(key) == match hi {
            Bound::Included(start) => key == start@ || key_lt(key, start@),
            Bound::Excluded(start) => key_lt(key, start@),
            Bound::Unbounded => true,
        },
{
    broadcast use group_key_order;

}

/// What a walk comes to next, going forward, is a key of the tree that is ahead, and
/// no other such key is before it; going backward, one that is behind, and no other
/// such key is after it.
pub proof fn law_walk_takes_the_nearest(walk: WalkView, map: Map<Seq<u8>, Seq<u8>>, key: Seq<u8>)
    ensures
        walk.meets(map, key) <==> {
            &&& map.contains_key(key) && walk.ahead(key)
            &&& !exists|k: Seq<u8>| #[trigger]
                map.contains_key(k) && walk.ahead(k) && key_lt(k, key)
        },
        walk.meets_back(map, key) <==> {
            &&& map.contains_key(key) && walk.behind(key)
            &&& !exists|k: Seq<u8>| #[trigger]
                map.contains_key(k) && walk.behind(k) && key_lt(key, k)
        },
{
    broadcast use group_key_order;

}

/// A walk over a range, to its end, goes through the keys of the tree that are
/// between the ends of the range, all of them and no others, each once, in the order
/// of their bytes.
pub proof fn law_range_walks_up(
    lo: Bound,
    hi: Bound,
    walk: WalkView,
    map: Map<Seq<u8>, Seq<u8>>,
    keys: Seq<Seq<u8>>,
)
    requires
        walk.lo == lo@,
        walk.hi == hi@,
        !walk.is_scan,
        walks(walk, map, keys),
    ensures
        forall|i: int, j: int|
            #![trigger keys[i], keys[j]]
            0 <= i < j < keys.len() ==> key_lt(keys[i], keys[j]),
        forall|k: Seq<u8>| #[trigger]
            keys.contains(k) <==> {
                &&& map.contains_key(k)
                &&& match lo {
                    Bound::Included(start) => k == start@ || key_lt(start@, k),
                    Bound::Excluded(start) => key_lt(start@, k),
                    Bound::Unbounded => true,
                }
                &&& match hi {
                    Bound::Included(end) => k == end@ || key_lt(k, end@),
                    Bound::Excluded(end) => key_lt(k, end@),
                    Bound::Unbounded => true,
                }
            },
{
    broadcast use group_key_order;

    law_walk_meets_all(walk, map, keys);
}

/// A walk over a range, backward to its start, goes through the same keys, in the
/// opposite order.
pub proof fn law_range_walks_down(
    lo: Bound,
    hi: Bound,
    walk: WalkView,
    map: Map<Seq<u8>, Seq<u8>>,
    keys: Seq<Seq<u8>>,
)
    requires
        walk.lo == lo@,
        walk.hi == hi@,
        !walk.is_scan,
        walks_back(walk, map, keys),
    ensures
        forall|i: int, j: int|
            #![trigger keys[i], keys[j]]
            0 <= i < j < keys.len() ==> key_lt(keys[j], keys[i]),
        forall|k: Seq<u8>| #[trigger]
            keys.contains(k) <==> {
                &&& map.contains_key(k)
                &&& match lo {
                    Bound::Included(start) => k == start@ || key_lt(start@, k),
                    Bound::Excluded(start) => key_lt(start@, k),
                    Bound::Unbounded => true,
                }
                &&& match hi {
                    Bound::Included(end) => k == end@ || key_lt(k, end@),
                    Bound::Excluded(end) => key_lt(k, end@),
                    Bound::Unbounded => true,
                }
            },
{
    broadcast use group_key_order;

    law_walk_back_meets_all(walk, map, keys);
}

/// A scan that goes forward to its end goes through the keys from its start on, one
/// at the start among them; one that goes backward, through those down from it.
pub proof fn law_scan_walks(
    start: Seq<u8>,
    walk: WalkView,
    map: Map<Seq<u8>, Seq<u8>>,
    up: Seq<Seq<u8>>,
    down: Seq<Seq<u8>>,
)
    requires
        walk.lo == BoundView::Included(start),
        walk.hi == BoundView::Included(start),
        walk.is_scan,
        walks(walk, map, up),
        walks_back(walk, map, down),
    ensures
        forall|i: int, j: int|
            #![trigger up[i], up[j]]
            0 <= i < j < up.len() ==> key_lt(up[i], up[j]),
        forall|i: int, j: int|
            #![trigger down[i], down[j]]
            0 <= i < j < down.len() ==> key_lt(down[j], down[i]),
        forall|k: Seq<u8>| #[trigger]
            up.contains(k) <==> map.contains_key(k) && (k == start || key_lt(start, k)),
        forall|k: Seq<u8>| #[trigger]
            down.contains(k) <==> map.contains_key(k) && (k == start || key_lt(k, start)),
{
    broadcast use group_key_order;

    law_walk_meets_all(walk, map, up);
    law_walk_back_meets_all(walk, map, down);
}

/// Where a walk stands is told by its parts as they are.
pub proof fn law_walk_is_its_parts<'a, M>(iter: Iter<'a, M>)
    ensures
        iter@.lo == iter.lo@ && iter@.hi == iter.hi@,
        iter@.is_scan == iter.is_scan && iter@.done == iter.done,
        match iter.broken {
            Some(e) => iter@.broken == Some(e@),
            None => iter@.broken is None,
        },
        match iter.lo {
            Bound::Included(key) => iter.lo@ == BoundView::Included(key@),
            Bound::Excluded(key) => iter.lo@ == BoundView::Excluded(key@),
            Bound::Unbounded => iter.lo@ == BoundView::Unbounded,
        },
{
}

/// A step of a walk moves one of its ends, or both ends of a scan, and leaves the walk
/// otherwise as it was: it goes on, and in the same way.
pub proof fn law_walk_goes_on(walk: WalkView, key: Seq<u8>)
    ensures
        walk.past(key).done == walk.done && walk.past_back(key).done == walk.done,
        walk.past(key).is_scan == walk.is_scan && walk.past_back(key).is_scan == walk.is_scan,
        walk.past(key).broken == walk.broken && walk.past_back(key).broken == walk.broken,
        !walk.is_scan ==> walk.past(key).hi == walk.hi && walk.past_back(key).lo == walk.lo,
        forall|k: Seq<u8>| #[trigger] walk.past(key).lo.starts(k) == key_lt(key, k),
        forall|k: Seq<u8>| #[trigger] walk.past_back(key).hi.ends(k) == key_lt(k, key),
{
}

/// The steps of a walk that goes on at both ends by turns: whether each was forward,
/// and the key to which it came.
pub open spec fn walks_both_ways(
    walk: WalkView,
    map: Map<Seq<u8>, Seq<u8>>,
    steps: Seq<(bool, Seq<u8>)>,
) -> bool
    decreases steps.len(),
{
    steps.len() == 0 || {
        let (forward, key) = steps[0];
        if forward {
            walk.meets(map, key) && walks_both_ways(walk.past(key), map, steps.skip(1))
        } else {
            walk.meets_back(map, key) && walks_both_ways(walk.past_back(key), map, steps.skip(1))
        }
    }
}

/// A walk that goes on at both ends by turns comes to no key twice. The keys to which
/// it comes going forward rise, those to which it comes going backward fall, and over
/// a range the former are before the latter.
pub proof fn law_ends_meet(
    walk: WalkView,
    map: Map<Seq<u8>, Seq<u8>>,
    steps: Seq<(bool, Seq<u8>)>,
    i: int,
    j: int,
)
    requires
        walk.ok(),
        walks_both_ways(walk, map, steps),
        0 <= i < j < steps.len(),
    ensures
        map.contains_key(steps[i].1) && map.contains_key(steps[j].1),
        steps[i].1 != steps[j].1,
        steps[i].0 && steps[j].0 ==> key_lt(steps[i].1, steps[j].1),
        !steps[i].0 && !steps[j].0 ==> key_lt(steps[j].1, steps[i].1),
        !walk.is_scan && steps[i].0 && !steps[j].0 ==> key_lt(steps[i].1, steps[j].1),
        !walk.is_scan && !steps[i].0 && steps[j].0 ==> key_lt(steps[j].1, steps[i].1),
    decreases steps.len(),
{
    broadcast use group_key_order;

    let (forward, key) = steps[0];
    let more = steps.skip(1);
    let next = if forward {
        walk.past(key)
    } else {
        walk.past_back(key)
    };
    if forward {
        law_walk_meets_once(walk, map, key);
    } else {
        law_walk_back_meets_once(walk, map, key);
    }
    assert(more[j - 1] == steps[j]);
    lemma_step_is_due(next, map, more, j - 1);
    if i > 0 {
        assert(more[i - 1] == steps[i]);
        law_ends_meet(next, map, more, i - 1, j - 1);
    }
}

/// Where a walk stands after it has gone on at both ends by turns.
pub open spec fn after_steps(walk: WalkView, steps: Seq<(bool, Seq<u8>)>) -> WalkView
    decreases steps.len(),
{
    if steps.len() == 0 {
        walk
    } else {
        let (forward, key) = steps[0];
        after_steps(
            if forward {
                walk.past(key)
            } else {
                walk.past_back(key)
            },
            steps.skip(1),
        )
    }
}

/// Whether a key is one of those to which a walk has come, at either end.
pub open spec fn stepped_on(steps: Seq<(bool, Seq<u8>)>, key: Seq<u8>) -> bool {
    exists|i: int| #![trigger steps[i]] 0 <= i < steps.len() && steps[i].1 == key
}

/// A walk that goes on at both ends by turns leaves no key out: those that it has yet
/// to come to are those that it had to come to at first, without those to which it has
/// come, and no others.
pub proof fn law_ends_leave_none_out(
    walk: WalkView,
    map: Map<Seq<u8>, Seq<u8>>,
    steps: Seq<(bool, Seq<u8>)>,
    key: Seq<u8>,
)
    requires
        walk.ok(),
        walks_both_ways(walk, map, steps),
        map.contains_key(key),
    ensures
        after_steps(walk, steps).ahead(key) == (walk.ahead(key) && !stepped_on(steps, key)),
        after_steps(walk, steps).behind(key) == (walk.behind(key) && !stepped_on(steps, key)),
    decreases steps.len(),
{
    if steps.len() > 0 {
        let (forward, first) = steps[0];
        let more = steps.skip(1);
        let next = if forward {
            walk.past(first)
        } else {
            walk.past_back(first)
        };
        if forward {
            law_walk_meets_once(walk, map, first);
        } else {
            law_walk_back_meets_once(walk, map, first);
        }
        law_ends_leave_none_out(next, map, more, key);
        assert(stepped_on(steps, key) == (key == first || stepped_on(more, key))) by {
            if stepped_on(steps, key) && key != first {
                let i = choose|i: int|
                    #![trigger steps[i]]
                    0 <= i < steps.len() && steps[i].1 == key;
                assert(more[i - 1] == steps[i]);
            }
            if stepped_on(more, key) {
                let i = choose|i: int| #![trigger more[i]] 0 <= i < more.len() && more[i].1 == key;
                assert(steps[i + 1] == more[i]);
            }
            if key == first {
                assert(steps[0].1 == key);
            }
        }
    }
}

/// A key to which a walk comes later is ahead or behind from the start.
proof fn lemma_step_is_due(
    walk: WalkView,
    map: Map<Seq<u8>, Seq<u8>>,
    steps: Seq<(bool, Seq<u8>)>,
    j: int,
)
    requires
        walk.ok(),
        walks_both_ways(walk, map, steps),
        0 <= j < steps.len(),
    ensures
        map.contains_key(steps[j].1),
        steps[j].0 ==> walk.ahead(steps[j].1),
        !steps[j].0 ==> walk.behind(steps[j].1),
    decreases steps.len(),
{
    if j > 0 {
        let (forward, key) = steps[0];
        let more = steps.skip(1);
        assert(more[j - 1] == steps[j]);
        if forward {
            law_walk_meets_once(walk, map, key);
            lemma_step_is_due(walk.past(key), map, more, j - 1);
        } else {
            law_walk_back_meets_once(walk, map, key);
            lemma_step_is_due(walk.past_back(key), map, more, j - 1);
        }
    }
}

} // verus!
