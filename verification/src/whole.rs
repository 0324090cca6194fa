//! What concerns all entries of a tree: how many there are, and taking them all out.

use crate::error::{Error, ErrorView};
use crate::help::{lemma_only_tidied_further, lemma_searched_none};
use crate::journal::{written, written_all, RecordView};
use crate::key::{group_key_order, key_lt, lemma_empty_key_is_least};
use crate::neighbours::{is_least, lemma_key_entry, lemma_starts_later, Bound, BoundView};
use crate::shape::{lemma_home, Shape};
use crate::subscription::{lemma_room_for_all, published_all, room_for_all, EventView};
use crate::tree::Tree;
use vstd::prelude::*;

verus! {

/// The keys of a tree whose leaves are among the first `n`.
spec fn keys_before(s: Shape, n: int) -> Set<Seq<u8>> {
    Set::new(|key: Seq<u8>| s.contents().contains_key(key) && s.home(s.bottom(), key) < n)
}

proof fn lemma_keys_before(s: Shape, n: int)
    requires
        s.wf(),
        0 <= n <= s.levels[s.bottom()].len(),
    ensures
        keys_before(s, n).finite(),
    decreases n,
{
    broadcast use vstd::set_lib::group_set_properties;
    broadcast use vstd::set::group_set_axioms;

    if n == 0 {
        assert forall|key: Seq<u8>| !keys_before(s, 0).contains(key) by {
            lemma_home(s, s.bottom(), key);
        }
        assert(keys_before(s, 0) =~= Set::empty());
    } else {
        lemma_keys_before(s, n - 1);
        let entries = s.node(s.bottom(), n - 1).entries();
        let here = Seq::new(entries.len(), |i: int| entries[i].0);
        vstd::seq_lib::seq_to_set_is_finite(here);
        let all = keys_before(s, n - 1).union(here.to_set());
        assert forall|key: Seq<u8>| keys_before(s, n).contains(key) implies all.contains(key) by {
            let at = lemma_key_entry(s, key);
            if s.home(s.bottom(), key) == n - 1 {
                assert(here[at] == key);
            }
        }
        assert(keys_before(s, n).subset_of(all));
        vstd::set_lib::lemma_set_subset_finite(all, keys_before(s, n));
    }
}

impl<M> Tree<M> {
    /// A tree has finitely many entries.
    pub proof fn lemma_finite(&self)
        requires
            self.wf(),
        ensures
            self@.dom().finite(),
    {
        broadcast use vstd::set::group_set_axioms;

        if !self.is_removed() {
            let s = self.shape();
            let n = s.levels[s.bottom()].len() as int;
            lemma_keys_before(s, n);
            assert forall|key: Seq<u8>| self@.dom().contains(key) implies keys_before(s, n).contains(
                key,
            ) by {
                lemma_home(s, s.bottom(), key);
            }
            assert(self@.dom() =~= keys_before(s, n));
        } else {
            assert(self@.dom() =~= Set::empty());
        }
    }
}

/// The keys of a map in the range that starts at `bound`.
pub open spec fn rest(map: Map<Seq<u8>, Seq<u8>>, bound: BoundView) -> Set<Seq<u8>> {
    map.dom().filter(|key: Seq<u8>| bound.starts(key))
}

/// Past its least key, a range has one key less.
proof fn lemma_rest(map: Map<Seq<u8>, Seq<u8>>, bound: BoundView, key: Seq<u8>)
    requires
        map.dom().finite(),
        is_least(map, bound, key),
    ensures
        rest(map, bound).finite(),
        rest(map, bound).len() == rest(map, BoundView::Excluded(key)).len() + 1,
        rest(map, bound).len() <= map.dom().len(),
{
    broadcast use vstd::set::group_set_axioms;
    broadcast use group_key_order;

    map.dom().lemma_len_filter(|k: Seq<u8>| bound.starts(k));
    let whole = rest(map, bound);
    let less = rest(map, BoundView::Excluded(key));
    assert forall|k: Seq<u8>| less.contains(k) == whole.remove(key).contains(k) by {
        if less.contains(k) {
            assert(key_lt(key, k));
            lemma_starts_later(bound, key, k);
        }
    }
    assert(less =~= whole.remove(key));
}

/// Keys one after another, each once.
pub open spec fn rising(keys: Seq<Seq<u8>>) -> bool {
    forall|i: int, j: int|
        #![trigger keys[i], keys[j]]
        0 <= i < j < keys.len() ==> key_lt(keys[i], keys[j])
}

/// What watchers are told when keys are taken out one after another.
pub open spec fn removals(keys: Seq<Seq<u8>>) -> Seq<EventView> {
    keys.map_values(|key: Seq<u8>| EventView::Del(key))
}

/// What is put down in the journal when keys are taken out one after another.
pub open spec fn removal_records(keys: Seq<Seq<u8>>) -> Seq<RecordView> {
    keys.map_values(|key: Seq<u8>| RecordView { key, value: None })
}

impl<M: Fn(&[u8], Option<&[u8]>, &[u8]) -> Option<Vec<u8>>> Tree<M> {
    /// The number of entries, counted one by one. Of a removed tree, the error
    /// that stands in place of its entries is counted.
    pub fn len(&mut self) -> (n: usize)
        requires
            old(self).wf(),
            old(self)@.dom().len() <= usize::MAX,
        ensures
            final(self).wf(),
            final(self).only_tidied(old(self)),
            n == (if old(self).is_removed() {
                1
            } else {
                old(self)@.dom().len()
            }),
    {
        let ghost map = self@;
        let ghost removed = self.is_removed();
        let ghost before = *self;
        proof {
            self.lemma_finite();
            assert(rest(map, BoundView::Unbounded) =~= map.dom());
            lemma_searched_none(self.shape(), Seq::empty());
        }
        let mut iter = self.iter();
        let mut n: usize = 0;
        let ghost later = *final(iter.tree);
        let mut more: bool = true;
        while more
            invariant
                iter.tree.wf(),
                iter.tree.only_tidied(&before),
                before@ == map,
                before.is_removed() == removed,
                *final(iter.tree) == later,
                iter@.hi == BoundView::Unbounded,
                !iter@.is_scan,
                iter@.broken is None,
                map.dom().finite(),
                map.dom().len() <= usize::MAX,
                rest(map, iter@.lo).finite(),
                removed ==> map.dom().len() == 0 && (if more {
                    !iter@.done && n == 0
                } else {
                    n == 1
                }),
                !removed && more ==> !iter@.done && n + rest(map, iter@.lo).len() == map.dom().len(),
                !removed && !more ==> n == map.dom().len(),
            decreases
                    (if more {
                        1 + rest(map, iter@.lo).len()
                    } else {
                        0
                    }),
        {
            let ghost lo = iter@.lo;
            let ghost prior = *iter.tree;
            let entry = iter.next();
            proof {
                lemma_only_tidied_further(&before, &prior, iter.tree);
            }
            match entry {
                Some(Ok((key, _))) => {
                    proof {
                        assert(is_least(map, lo, key@));
                        lemma_rest(map, lo, key@);
                        vstd::set_lib::lemma_set_subset_finite(map.dom(), rest(map, iter@.lo));
                    }
                    n = n + 1;
                },
                Some(Err(_)) => {
                    n = n + 1;
                    more = false;
                },
                None => {
                    proof {
                        assert(rest(map, lo) =~= Set::empty());
                    }
                    more = false;
                },
            }
        }
        n
    }
}

/// `keys` are the keys of `map` that are not in the range that starts at `bound`, in order.
spec fn passed(map: Map<Seq<u8>, Seq<u8>>, bound: BoundView, keys: Seq<Seq<u8>>) -> bool {
    &&& rising(keys)
    &&& forall|i: int|
        #![trigger keys[i]]
        0 <= i < keys.len() ==> map.contains_key(keys[i]) && !bound.starts(keys[i])
    &&& forall|k: Seq<u8>| #[trigger]
        map.contains_key(k) && !bound.starts(k) ==> keys.contains(k)
}

/// The least key of a range is the next one to be passed.
proof fn lemma_passed(
    map: Map<Seq<u8>, Seq<u8>>,
    bound: BoundView,
    keys: Seq<Seq<u8>>,
    key: Seq<u8>,
)
    requires
        passed(map, bound, keys),
        is_least(map, bound, key),
    ensures
        passed(map, BoundView::Excluded(key), keys.push(key)),
{
    broadcast use group_key_order;

    let more = keys.push(key);
    assert forall|i: int| 0 <= i < keys.len() implies key_lt(#[trigger] keys[i], key) by {
        if key_lt(key, keys[i]) {
            lemma_starts_later(bound, key, keys[i]);
        }
    }
    assert forall|k: Seq<u8>| #[trigger]
        map.contains_key(k) && !BoundView::Excluded(key).starts(k) implies more.contains(k) by {
        if bound.starts(k) {
            assert(k == key);
            assert(more[keys.len() as int] == k);
        } else {
            let i = choose|i: int| 0 <= i < keys.len() && keys[i] == k;
            assert(more[i] == k);
        }
    }
}

impl<M> Tree<M> {
    /// All entries have been taken out, one after another in the order of their
    /// keys, and nothing else has changed but what watchers have been told of it and
    /// the journal, in which it has been put down.
    pub open(crate) spec fn emptied(&self, before: &Tree<M>, keys: Seq<Seq<u8>>) -> bool {
        &&& rising(keys)
        &&& keys.to_set() == before@.dom()
        &&& self@ == Map::<Seq<u8>, Seq<u8>>::empty()
        &&& self.spec_name() == before.spec_name()
        &&& self.setup() == before.setup()
        &&& self.is_removed() == before.is_removed()
        &&& self.flushed_journal() == before.flushed_journal()
        &&& self.journal() == before.journal() + written_all(removal_records(keys))
        &&& self.watchers() == published_all(before.watchers(), removals(keys))
    }
}

impl<M: Fn(&[u8], Option<&[u8]>, &[u8]) -> Option<Vec<u8>>> Tree<M> {
    /// Takes all entries out, one after another. Fails if the tree is read-only and
    /// has entries.
    pub fn clear(&mut self) -> (r: Result<(), Error>)
        requires
            old(self).wf(),
            old(self).is_writable() ==> room_for_all(old(self).watchers(), old(self)@.dom()),
        ensures
            final(self).wf(),
            match r {
                Ok(()) => {
                    &&& !old(self).is_removed()
                    &&& final(self)@ == Map::<Seq<u8>, Seq<u8>>::empty()
                    &&& if old(self).setup().read_only {
                        final(self).only_tidied(old(self))
                    } else {
                        exists|keys: Seq<Seq<u8>>| #[trigger] final(self).emptied(old(self), keys)
                    }
                },
                Err(e) => {
                    if old(self).is_removed() {
                        &&& e@ == ErrorView::CollectionNotFound(old(self).spec_name())
                        &&& *final(self) == *old(self)
                    } else {
                        &&& old(self).setup().read_only
                        &&& old(self)@ != Map::<Seq<u8>, Seq<u8>>::empty()
                        &&& e@ == ErrorView::Unsupported("the database is in read-only mode"@)
                        &&& final(self).only_tidied(old(self))
                    }
                },
            },
    {
        let ghost before = *self;
        let ghost map = self@;
        let ghost mut keys: Seq<Seq<u8>> = Seq::empty();
        let mut bound = Bound::Included(Vec::new());
        proof {
            self.lemma_finite();
            assert forall|k: Seq<u8>| #[trigger] bound@.starts(k) by {
                lemma_empty_key_is_least(k);
                assert(bound@ == BoundView::Included(Seq::empty()));
            }
            assert(removals(keys) =~= Seq::empty());
            assert(removal_records(keys) =~= Seq::empty());
            assert(self.journal() =~= before.journal() + Seq::<u8>::empty());
            assert(rest(map, bound@) =~= map.dom());
        }
        loop
            invariant
                self.wf(),
                before == *old(self),
                map == before@,
                map.dom().finite(),
                rest(map, bound@).finite(),
                passed(map, bound@, keys),
                self.setup() == before.setup(),
                self.is_removed() == before.is_removed(),
                self.spec_name() == before.spec_name(),
                self.flushed_journal() == before.flushed_journal(),
                before.is_removed() || before.setup().read_only ==> *self == before,
                before.setup().read_only ==> rest(map, bound@) == map.dom(),
                !before.setup().read_only ==> {
                    &&& self.watchers() == published_all(before.watchers(), removals(keys))
                    &&& self.journal() == before.journal() + written_all(removal_records(keys))
                    &&& forall|k: Seq<u8>|
                        #![trigger self@.contains_key(k)]
                        #![trigger map.contains_key(k)]
                        self@.contains_key(k) == (map.contains_key(k) && bound@.starts(k))
                },
                before.is_writable() ==> room_for_all(self.watchers(), rest(map, bound@)),
            decreases rest(map, bound@).len(),
        {
            let key = match self.entry_above(&bound) {
                Ok(Some((key, _))) => key,
                Ok(None) => {
                    proof {
                        if before.setup().read_only {
                            assert forall|k: Seq<u8>| !map.contains_key(k) by {
                                if map.contains_key(k) {
                                    assert(rest(map, bound@).contains(k));
                                }
                            }
                        }
                        assert(self@ =~= Map::<Seq<u8>, Seq<u8>>::empty());
                        if !before.setup().read_only {
                            assert(keys.to_set() =~= map.dom());
                            assert(self.emptied(&before, keys));
                        }
                    }
                    return Ok(());
                },
                Err(e) => return Err(e),
            };
            if self.config.read_only {
                proof {
                    assert(map.contains_key(key@));
                    assert(map != Map::<Seq<u8>, Seq<u8>>::empty());
                }
                return Err(Error::Unsupported("the database is in read-only mode".to_owned()));
            }
            proof {
                assert(is_least(map, bound@, key@));
                assert(rest(map, bound@).contains(key@));
                lemma_room_for_all(self.watchers(), rest(map, bound@), EventView::Del(key@));
                lemma_rest(map, bound@, key@);
                lemma_passed(map, bound@, keys, key@);
                vstd::set_lib::lemma_set_subset_finite(
                    map.dom(),
                    rest(map, BoundView::Excluded(key@)),
                );
                let events = removals(keys.push(key@));
                assert(events.drop_last() =~= removals(keys));
                assert(events.last() == EventView::Del(key@));
                let records = removal_records(keys.push(key@));
                assert(records.drop_last() =~= removal_records(keys));
                assert(records.last() == (RecordView { key: key@, value: None }));
            }
            match self.del(key.as_slice()) {
                Ok(_) => {},
                Err(e) => return Err(e),
            }
            proof {
                let record = RecordView { key: key@, value: None };
                let journal = before.journal();
                let so_far = written_all(removal_records(keys));
                assert(journal + so_far + written(record) =~= journal + (so_far + written(record)));
                keys = keys.push(key@);
                assert forall|k: Seq<u8>| #[trigger] map.contains_key(k) implies BoundView::Excluded(
                    key@,
                ).starts(k) == (bound@.starts(k) && k != key@) by {
                    lemma_rest_but_least(map, bound@, key@, k);
                }
                assert(rest(map, BoundView::Excluded(key@)) =~= rest(map, bound@).remove(key@));
            }
            bound = Bound::Excluded(key);
        }
    }
}

/// Past its least key, a range has its keys but that one.
proof fn lemma_rest_but_least(
    map: Map<Seq<u8>, Seq<u8>>,
    bound: BoundView,
    key: Seq<u8>,
    k: Seq<u8>,
)
    requires
        is_least(map, bound, key),
        map.contains_key(k),
    ensures
        BoundView::Excluded(key).starts(k) == (bound.starts(k) && k != key),
{
    broadcast use group_key_order;

    if key_lt(key, k) {
        lemma_starts_later(bound, key, k);
    }
}

} // verus!
