//! Looking keys up and changing what is held for them.
//!
//! A write is made in two steps. The first finds the leaf of the key. The second
//! changes the leaf, if it is still as it was found; if it is not, nothing has
//! happened and the write starts over. What the second step promises holds
//! whatever has become of the tree since the first.

use crate::calls::{merge_answer, previous_answer, swap_answer, CallView};
use crate::clearing::{cleared, lemma_stays_cleared};
use crate::entries::{holds_key, lookup};
use crate::error::{Error, ErrorView};
use crate::help::{found_way, lemma_only_tidied_further, quiet, searched};
use crate::journal::{append_record, lemma_append_record, written, RecordView};
use crate::key::{copy_bytes, is_same};
use crate::node::{
    applicable, bytes_view, follows, lemma_with_value, merge_follows, merges_to, slice_view,
    operator_ready, Frag, FragView, Node, NodeView, PageId,
};
use crate::prefix::{decoded, prefix_encode};
use crate::shape::{lemma_capped_parent, lemma_home, lemma_leaf_contents, lemma_put_value, Shape};
use crate::split::{
    all_pages_done, none_grown, on_level, others_kept, path_known, path_placed, path_wf,
    split_along,
};
use crate::subscription::{published, room_for, Event, EventView};
use crate::traverse::{path_ok, step_ok, Path};
use crate::tree::Tree;
use std::sync::Arc;
use vstd::prelude::*;

verus! {

/// What a map holds for a key.
pub open spec fn map_get(map: Map<Seq<u8>, Seq<u8>>, key: Seq<u8>) -> Option<Seq<u8>> {
    if map.contains_key(key) {
        Some(map[key])
    } else {
        None
    }
}

/// A map with `value` for `key`; without the key where `value` is `None`.
pub open spec fn map_put(
    map: Map<Seq<u8>, Seq<u8>>,
    key: Seq<u8>,
    value: Option<Seq<u8>>,
) -> Map<Seq<u8>, Seq<u8>> {
    match value {
        Some(v) => map.insert(key, v),
        None => map.remove(key),
    }
}

/// Where a key was found, and what was held for it there.
pub struct Found {
    /// The way to the leaf.
    pub path: Path,
    /// What the leaf held.
    pub value: Option<Vec<u8>>,
}

impl Found {
    /// The leaf that was found.
    pub open spec fn leaf(&self) -> NodeView {
        self.path@.last().1@
    }

    /// The leaf is one in which `key` belongs, and held the value; it was not being merged.
    pub open spec fn wf(&self, key: Seq<u8>) -> bool {
        &&& path_wf(self.path@)
        &&& self.leaf().is_leaf()
        &&& self.leaf().covers(key)
        &&& !self.leaf().merging
        &&& bytes_view(self.value) == lookup(self.leaf().entries(), key)
    }
}

impl<M> Tree<M> {
    /// The leaf that was found is still on its page.
    pub open(crate) spec fn still_there(&self, found: &Found) -> bool {
        let (pid, leaf) = found.path@.last();
        self.shape().nodes.contains_key(pid) && self.shape().nodes[pid] == leaf@
    }

    /// The shape with another node in place of the leaf that was found.
    pub open(crate) spec fn with_leaf(&self, found: &Found, leaf: NodeView) -> Shape {
        Shape {
            nodes: self.shape().nodes.insert(found.path@.last().0, leaf),
            levels: self.shape().levels,
        }
    }

    /// The tree has the node `leaf` in place of the leaf that was found and, if that
    /// had grown too large, has been split along the path, as far as the path still
    /// leads down the levels of the tree.
    pub open(crate) spec fn grew(&self, before: &Tree<M>, found: &Found, leaf: NodeView) -> bool {
        let size = before.setup().blink_node_split_size as nat;
        let s = before.with_leaf(found, leaf);
        if found.path@.last().1.oversized(size) {
            exists|new: Arc<Node>|
                {
                    let path = found.path@.drop_last().push((found.path@.last().0, new));
                    &&& #[trigger] new.wf()
                    &&& new@ == leaf
                    &&& path_placed(s, path) ==> split_along(
                        s,
                        before.root,
                        self.shape(),
                        self.root,
                        size,
                        path,
                    )
                    &&& others_kept(s, self.shape(), size, path)
                    &&& path_known(s, path) ==> all_pages_done(s, self.shape(), size, path)
                    &&& none_grown(size, path) ==> self.shape() == s && self.root == before.root
                }
        } else {
            self.shape() == s && self.root == before.root
        }
    }

    /// The leaf of `key` has got `value` and, if it had grown too large, the tree has
    /// been split along the way to it.
    pub open(crate) spec fn grew_for(
        &self,
        before: &Tree<M>,
        key: Seq<u8>,
        value: Option<Seq<u8>>,
    ) -> bool {
        exists|mid: Tree<M>, found: Found|
            {
                &&& mid.wf()
                &&& mid.only_tidied(before)
                &&& cleared(before.shape(), mid.shape(), key)
                &&& found.wf(key)
                &&& mid.still_there(&found)
                &&& path_placed(mid.shape(), found.path@)
                &&& path_ok(mid.shape(), found.path@, key)
                &&& #[trigger] self.grew(&mid, &found, found.leaf().with_value(key, value))
            }
    }

    /// The leaf of `key` has got `value`, and nothing has been split.
    pub open(crate) spec fn kept_for(
        &self,
        before: &Tree<M>,
        key: Seq<u8>,
        value: Option<Seq<u8>>,
    ) -> bool {
        exists|mid: Tree<M>, found: Found|
            {
                &&& mid.wf()
                &&& mid.only_tidied(before)
                &&& cleared(before.shape(), mid.shape(), key)
                &&& found.wf(key)
                &&& mid.still_there(&found)
                &&& path_placed(mid.shape(), found.path@)
                &&& path_ok(mid.shape(), found.path@, key)
                &&& self.shape() == #[trigger] mid.with_leaf(
                    &found,
                    found.leaf().with_value(key, value),
                )
                &&& self.root == mid.root
            }
    }

    /// Nothing has changed but what is held for `key`, what watchers have been told,
    /// and the journal, in which the write has been put down.
    pub open(crate) spec fn wrote(
        &self,
        before: &Tree<M>,
        key: Seq<u8>,
        value: Option<Seq<u8>>,
        event: EventView,
    ) -> bool {
        &&& self.spec_name() == before.spec_name()
        &&& self.setup() == before.setup()
        &&& self.is_removed() == before.is_removed()
        &&& self.flushed_journal() == before.flushed_journal()
        &&& self.journal() == before.journal() + written((RecordView { key, value }))
        &&& self@ == map_put(before@, key, value)
        &&& self.watchers() == published(before.watchers(), event)
    }
}

/// What a leaf holds for a key after a change to it.
proof fn lemma_value_after(leaf: NodeView, key: Seq<u8>, value: Option<Seq<u8>>)
    requires
        leaf.ok(),
        leaf.is_leaf(),
        leaf.covers(key),
    ensures
        lookup(leaf.with_value(key, value).entries(), key) == value,
{
    lemma_with_value(leaf, key, value);
    let after = leaf.with_value(key, value);
    assert(after.contents().contains_key(key) == holds_key(after.entries(), key));
    if let Some(v) = value {
        assert(after.contents()[key] == v);
    }
}

impl<M: Fn(&[u8], Option<&[u8]>, &[u8]) -> Option<Vec<u8>>> Tree<M> {
    /// Finds the leaf of `key`, and what it holds for the key.
    pub fn get_internal(&mut self, key: &[u8]) -> (r: Result<Found, Error>)
        requires
            old(self).wf(),
        ensures
            final(self).wf(),
            final(self).only_tidied(old(self)),
            match r {
                Ok(found) => {
                    &&& !old(self).is_removed()
                    &&& found.wf(key@)
                    &&& final(self).still_there(&found)
                    &&& bytes_view(found.value) == map_get(old(self)@, key@)
                    &&& path_ok(final(self).shape(), found.path@, key@)
                    &&& path_placed(final(self).shape(), found.path@)
                    &&& searched(old(self).shape(), final(self).shape(), key@)
                    &&& cleared(old(self).shape(), final(self).shape(), key@)
                    &&& quiet(old(self).shape(), key@) ==> found_way(
                        old(self).shape(),
                        final(self).shape(),
                        found.path@,
                        key@,
                    )
                },
                Err(e) => {
                    &&& old(self).is_removed()
                    &&& e@ == ErrorView::CollectionNotFound(old(self).spec_name())
                    &&& *final(self) == *old(self)
                },
            },
            match r {
                Ok(found) => match found.value {
                    Some(v) => old(self)@.contains_key(key@) && old(self)@[key@] == v@,
                    None => !old(self)@.contains_key(key@),
                },
                Err(e) => e matches Error::CollectionNotFound(name) && name@ == old(
                    self,
                ).spec_name(),
            },
    {
        let path = match self.path_for_key(key) {
            Ok(path) => path,
            Err(e) => return Err(e),
        };
        let last: usize = path.len() - 1;
        proof {
            let s = self.shape();
            let b = s.bottom();
            let h = s.home(b, key@);
            lemma_home(s, b, key@);
            assert(step_ok(s, path@, key@, b));
            assert(s.place_ok(b, h));
            assert(path_wf(path@)) by {
                assert forall|j: int| #![trigger path@[j]] 0 <= j < path@.len() implies path@[j].1.wf() by {
                    assert(step_ok(s, path@, key@, j));
                }
            }
            assert(path@[last as int] == path@.last());
            if s.node(b, h).merging {
                lemma_capped_parent(s, b, h, key@);
                assert(step_ok(s, path@, key@, b - 1));
            }
            lemma_leaf_contents(s, h, key@);
            assert(path_placed(s, path@)) by {
                assert forall|j: int| #![trigger path@[j]] 0 <= j < path@.len() implies on_level(
                    s,
                    j,
                    path@[j].0,
                ) by {
                    assert(step_ok(s, path@, key@, j));
                    lemma_home(s, j, key@);
                    assert(s.page(j, s.home(j, key@)) == path@[j].0);
                }
            }
        }
        let value = path[last].1.get(key);
        Ok(Found { path, value })
    }

    /// Makes a change to the leaf that was found, if it is still there, and puts
    /// the write down in the journal. Tells the new leaf.
    fn link_leaf(&mut self, pid: PageId, leaf: &Node, key: &[u8], frag: Frag) -> (r: Option<
        Arc<Node>,
    >)
        requires
            old(self).wf(),
            !old(self).is_removed(),
            leaf.wf(),
            leaf@.is_leaf(),
            leaf@.covers(key@),
            !leaf@.merging,
            applicable(leaf@, frag@, old(self).setup().merge_operator),
            match frag@ {
                FragView::Put(stored, _) => decoded(leaf@.lo, stored) == key@,
                FragView::Del(stored) => decoded(leaf@.lo, stored) == key@,
                FragView::Merge(stored, _) => decoded(leaf@.lo, stored) == key@,
                _ => false,
            },
        ensures
            final(self).wf(),
            r is Some <==> old(self).shape().nodes.contains_key(pid)
                && old(self).shape().nodes[pid] == leaf@,
            match r {
                Some(new) => {
                    let value = lookup(new@.entries(), key@);
                    &&& new.wf()
                    &&& new@ == leaf@.with_value(key@, value)
                    &&& follows(leaf@, frag@, old(self).setup().merge_operator, new@)
                    &&& map_get(old(self)@, key@) == lookup(leaf@.entries(), key@)
                    &&& final(self)@ == map_put(old(self)@, key@, value)
                    &&& final(self).shape().levels == old(self).shape().levels
                    &&& final(self).shape().nodes == old(self).shape().nodes.insert(pid, new@)
                    &&& final(self).root == old(self).root
                    &&& final(self).spec_name() == old(self).spec_name()
                    &&& final(self).setup() == old(self).setup()
                    &&& final(self).watchers() == old(self).watchers()
                    &&& final(self).flushed_journal() == old(self).flushed_journal()
                    &&& final(self).journal() == old(self).journal() + written(
                        (RecordView { key: key@, value }),
                    )
                },
                None => final(self).only_pages_changed(old(self)) && final(self).shape() == old(
                    self,
                ).shape() && final(self).root == old(self).root,
            },
    {
        let ghost s = self.shape();
        let new = match self.pagecache.link(pid, leaf, frag, &self.config.merge_operator) {
            Ok(new) => new,
            Err(_) => return None,
        };
        let value = new.get(key);
        let ghost journal = self.journal();
        let value_slice: Option<&[u8]> = match &value {
            Some(bytes) => Some(bytes.as_slice()),
            None => None,
        };
        append_record(&mut self.dirty, key, value_slice);
        proof {
            let record = RecordView { key: key@, value: bytes_view(value) };
            // The leaf has been changed for the key alone.
            let changed = match frag@ {
                FragView::Put(_, v) => Some(v),
                FragView::Del(_) => None,
                FragView::Merge(_, v) => choose|n: Option<Seq<u8>>| #[trigger]
                    merges_to(
                        self.config.merge_operator->0,
                        key@,
                        lookup(leaf@.entries(), key@),
                        v,
                        n,
                    ) && new@ == leaf@.with_value(key@, n),
                _ => None,
            };
            if let FragView::Merge(_, v) = frag@ {
                assert(merge_follows(leaf@, key@, v, self.config.merge_operator->0, new@));
            }
            assert(new@ == leaf@.with_value(key@, changed));
            lemma_value_after(leaf@, key@, changed);
            // The leaf is a leaf of the tree.
            assert(s.nodes.contains_key(pid));
            assert(s.placed(pid));
            let (l, i) = choose|l: int, i: int|
                #![trigger s.page(l, i)]
                s.place(l, i) && s.page(l, i) == pid;
            assert(s.page(l, i) == pid);
            assert(s.place_ok(l, i));
            lemma_put_value(s, i, key@, changed);
            lemma_leaf_contents(s, i, key@);
            assert(self.shape().nodes =~= s.with_node(l, i, new@).nodes);
            assert(self.shape() == s.with_node(l, i, new@));
            lemma_append_record(journal, 0, Map::empty(), record);
            assert(self.journal() =~= journal + written(record));
        }
        Some(new)
    }
}

impl<M: Fn(&[u8], Option<&[u8]>, &[u8]) -> Option<Vec<u8>>> Tree<M> {
    /// Splits the leaf that has just been changed, and nodes above it, if it had
    /// grown large before.
    fn split_after(&mut self, path: Path, pid: PageId, leaf: &Node, new: Arc<Node>)
        requires
            old(self).wf(),
            !old(self).is_removed(),
            leaf.wf(),
            new.wf(),
            forall|j: int| #![trigger path@[j]] 0 <= j < path@.len() ==> path@[j].1.wf(),
        ensures
            final(self).wf(),
            final(self).only_pages_changed(old(self)),
            !leaf.oversized(old(self).setup().blink_node_split_size as nat) ==> final(self).shape()
                == old(self).shape() && final(self).root == old(self).root,
            leaf.oversized(old(self).setup().blink_node_split_size as nat) && path_placed(
                old(self).shape(),
                path@.push((pid, new)),
            ) ==> split_along(
                old(self).shape(),
                old(self).root,
                final(self).shape(),
                final(self).root,
                old(self).setup().blink_node_split_size as nat,
                path@.push((pid, new)),
            ),
            others_kept(
                old(self).shape(),
                final(self).shape(),
                old(self).setup().blink_node_split_size as nat,
                path@.push((pid, new)),
            ),
            leaf.oversized(old(self).setup().blink_node_split_size as nat) && path_known(
                old(self).shape(),
                path@.push((pid, new)),
            ) ==> all_pages_done(
                old(self).shape(),
                final(self).shape(),
                old(self).setup().blink_node_split_size as nat,
                path@.push((pid, new)),
            ),
            none_grown(
                old(self).setup().blink_node_split_size as nat,
                path@.push((pid, new)),
            ) ==> final(self).shape() == old(self).shape() && final(self).root == old(self).root,
    {
        if leaf.should_split(self.config.blink_node_split_size as u64) {
            let mut whole = path;
            whole.push((pid, new));
            proof {
                assert forall|j: int| #![trigger whole@[j]] 0 <= j < whole@.len() implies whole@[j].1.wf() by {
                    if j < path@.len() {
                        assert(whole@[j] == path@[j]);
                    }
                }
            }
            let _ = self.recursive_split(&whole);
        }
    }

    /// Sets `key` to `value`, if the leaf that was found is still there. Tells the
    /// value that the key had, or that the write has to start over.
    pub fn try_set(&mut self, key: &[u8], value: Vec<u8>, found: Found) -> (r: Option<
        Option<Vec<u8>>,
    >)
        requires
            old(self).wf(),
            !old(self).is_removed(),
            found.wf(key@),
            old(self).still_there(&found) ==> room_for(old(self).watchers(), key@),
        ensures
            final(self).wf(),
            r is Some <==> old(self).still_there(&found),
            match r {
                Some(previous) => {
                    &&& bytes_view(previous) == map_get(old(self)@, key@)
                    &&& final(self).wrote(
                        old(self),
                        key@,
                        Some(value@),
                        EventView::Put(key@, value@),
                    )
                    &&& final(self).grew(
                        old(self),
                        &found,
                        found.leaf().with_value(key@, Some(value@)),
                    )
                },
                None => final(self).only_pages_changed(old(self)) && final(self).shape() == old(
                    self,
                ).shape(),
            },
            r matches Some(previous) ==> match previous {
                Some(v) => old(self)@.contains_key(key@) && old(self)@[key@] == v@,
                None => !old(self)@.contains_key(key@),
            },
            r is Some ==> final(self)@ == old(self)@.insert(key@, value@),
            r is None ==> final(self)@ == old(self)@,
    {
        let Found { path, value: previous } = found;
        let mut path = path;
        let ghost whole = path@;
        let (pid, leaf) = path.pop().unwrap();
        proof {
            assert(whole[whole.len() - 1] == whole.last());
        }
        let stored = prefix_encode(leaf.lo.as_slice(), key);
        let frag = Frag::Put(stored, copy_bytes(value.as_slice()));
        let new = match self.link_leaf(pid, &leaf, key, frag) {
            Some(new) => new,
            None => return None,
        };
        proof {
            lemma_value_after(leaf@, key@, Some(value@));
        }
        self.subscriptions.publish(Event::Put(copy_bytes(key), value));
        proof {
            assert forall|j: int| #![trigger path@[j]] 0 <= j < path@.len() implies path@[j].1.wf() by {
                assert(path@[j] == whole[j]);
            }
        }
        self.split_after(path, pid, &leaf, new);
        Some(previous)
    }
}

/// What watchers are told of a key that has got a value, or lost it.
pub open spec fn change_event(key: Seq<u8>, value: Option<Seq<u8>>) -> EventView {
    match value {
        Some(v) => EventView::Put(key, v),
        None => EventView::Del(key),
    }
}

/// Whether `f` can answer `new_value`, called on `old_value`.
pub open spec fn updates_to<F: FnMut(Option<&[u8]>) -> Option<Vec<u8>>>(
    f: F,
    old_value: Option<Seq<u8>>,
    new_value: Option<Seq<u8>>,
) -> bool {
    exists|o: Option<&[u8]>, n: Option<Vec<u8>>|
        {
            &&& slice_view(o) == old_value
            &&& #[trigger] call_ensures(f, (o,), n)
            &&& bytes_view(n) == new_value
        }
}

/// Whether `f` can be called on `old_value`.
pub open spec fn updatable<F: FnMut(Option<&[u8]>) -> Option<Vec<u8>>>(
    f: F,
    old_value: Option<Seq<u8>>,
) -> bool {
    forall|o: Option<&[u8]>| slice_view(o) == old_value ==> #[trigger] call_requires(f, (o,))
}

/// Copies a value that may be missing.
fn copy_value(value: &Option<Vec<u8>>) -> (copy: Option<Vec<u8>>)
    ensures
        bytes_view(copy) == bytes_view(*value),
{
    match value {
        Some(bytes) => Some(copy_bytes(bytes.as_slice())),
        None => None,
    }
}

/// Tells whether a value is the one that is expected.
pub fn value_matches(expected: Option<&[u8]>, value: &Option<Vec<u8>>) -> (r: bool)
    ensures
        r == (slice_view(expected) == bytes_view(*value)),
{
    match (expected, value) {
        (None, None) => true,
        (Some(e), Some(v)) => is_same(e, v.as_slice()),
        _ => false,
    }
}

impl<M: Fn(&[u8], Option<&[u8]>, &[u8]) -> Option<Vec<u8>>> Tree<M> {
    /// Gives `key` the value `value`, or takes the key out, if the leaf that was found
    /// is still there. Tells the value that the key had, or that the write has to
    /// start over.
    pub fn try_write(&mut self, key: &[u8], value: Option<Vec<u8>>, found: Found) -> (r: Option<
        Option<Vec<u8>>,
    >)
        requires
            old(self).wf(),
            !old(self).is_removed(),
            found.wf(key@),
            old(self).still_there(&found) ==> room_for(old(self).watchers(), key@),
        ensures
            final(self).wf(),
            r is Some <==> old(self).still_there(&found),
            match r {
                Some(previous) => {
                    &&& bytes_view(previous) == map_get(old(self)@, key@)
                    &&& final(self).wrote(
                        old(self),
                        key@,
                        bytes_view(value),
                        change_event(key@, bytes_view(value)),
                    )
                    &&& final(self).shape() == old(self).with_leaf(
                        &found,
                        found.leaf().with_value(key@, bytes_view(value)),
                    )
                    &&& final(self).root_page() == old(self).root_page()
                },
                None => final(self).only_pages_changed(old(self)) && final(self).shape() == old(
                    self,
                ).shape(),
            },
            r matches Some(previous) ==> match previous {
                Some(v) => old(self)@.contains_key(key@) && old(self)@[key@] == v@,
                None => !old(self)@.contains_key(key@),
            },
            r is Some ==> final(self)@ == match value {
                Some(bytes) => old(self)@.insert(key@, bytes@),
                None => old(self)@.remove(key@),
            },
            r is None ==> final(self)@ == old(self)@,
    {
        let Found { path, value: previous } = found;
        let mut path = path;
        let ghost whole = path@;
        let (pid, leaf) = path.pop().unwrap();
        proof {
            assert(whole[whole.len() - 1] == whole.last());
            lemma_value_after(leaf@, key@, bytes_view(value));
        }
        let stored = prefix_encode(leaf.lo.as_slice(), key);
        let frag = match &value {
            Some(bytes) => Frag::Put(stored, copy_bytes(bytes.as_slice())),
            None => Frag::Del(stored),
        };
        match self.link_leaf(pid, &leaf, key, frag) {
            Some(_) => {},
            None => return None,
        }
        let event = match value {
            Some(bytes) => Event::Put(copy_bytes(key), bytes),
            None => Event::Del(copy_bytes(key)),
        };
        self.subscriptions.publish(event);
        Some(previous)
    }

    /// Merges `value` into what is held for `key`, if the leaf that was found is still
    /// there. Tells whether it was; if not, the write has to start over.
    pub fn try_merge(&mut self, key: &[u8], value: Vec<u8>, found: Found) -> (r: bool)
        requires
            old(self).wf(),
            !old(self).is_removed(),
            found.wf(key@),
            old(self).still_there(&found) ==> room_for(old(self).watchers(), key@),
            old(self).setup().merge_operator matches Some(op) && operator_ready(
                op,
                key@,
                bytes_view(found.value),
                value@,
            ),
        ensures
            final(self).wf(),
            r == old(self).still_there(&found),
            !r ==> final(self).only_pages_changed(old(self)) && final(self).shape() == old(
                self,
            ).shape(),
            r ==> exists|merged: Option<Seq<u8>>|
                {
                    &&& #[trigger] merges_to(
                        old(self).setup().merge_operator->0,
                        key@,
                        map_get(old(self)@, key@),
                        value@,
                        merged,
                    )
                    &&& final(self).wrote(
                        old(self),
                        key@,
                        merged,
                        EventView::Merge(key@, value@),
                    )
                    &&& final(self).grew(old(self), &found, found.leaf().with_value(key@, merged))
                },
            r ==> exists|k: &[u8], o: Option<&[u8]>, v: &[u8], n: Option<Vec<u8>>|
                {
                    &&& #[trigger] call_ensures(old(self).setup().merge_operator->0, (k, o, v), n)
                    &&& k@ == key@
                    &&& v@ == value@
                    &&& match o {
                        Some(held) => old(self)@.contains_key(key@) && old(self)@[key@] == held@,
                        None => !old(self)@.contains_key(key@),
                    }
                    &&& final(self)@ == match n {
                        Some(bytes) => old(self)@.insert(key@, bytes@),
                        None => old(self)@.remove(key@),
                    }
                },
            !r ==> final(self)@ == old(self)@,
    {
        let Found { path, value: _ } = found;
        let mut path = path;
        let ghost whole = path@;
        let (pid, leaf) = path.pop().unwrap();
        proof {
            assert(whole[whole.len() - 1] == whole.last());
        }
        let ghost before = map_get(self@, key@);
        let ghost operator = self.config.merge_operator->0;
        let stored = prefix_encode(leaf.lo.as_slice(), key);
        let frag = Frag::Merge(stored, copy_bytes(value.as_slice()));
        let new = match self.link_leaf(pid, &leaf, key, frag) {
            Some(new) => new,
            None => return false,
        };
        let ghost merged = lookup(new@.entries(), key@);
        proof {
            assert(merge_follows(leaf@, key@, value@, operator, new@));
            let n = choose|n: Option<Seq<u8>>| #[trigger]
                merges_to(operator, key@, lookup(leaf@.entries(), key@), value@, n) && new@
                    == leaf@.with_value(key@, n);
            lemma_value_after(leaf@, key@, n);
            assert(merges_to(operator, key@, before, value@, merged));
        }
        self.subscriptions.publish(Event::Merge(copy_bytes(key), value));
        proof {
            assert forall|j: int| #![trigger path@[j]] 0 <= j < path@.len() implies path@[j].1.wf() by {
                assert(path@[j] == whole[j]);
            }
        }
        self.split_after(path, pid, &leaf, new);
        true
    }

    /// The value of a key, if it has one.
    pub fn get(&mut self, key: &[u8]) -> (r: Result<Option<Vec<u8>>, Error>)
        requires
            old(self).wf(),
        ensures
            final(self).wf(),
            final(self).only_tidied(old(self)),
            match r {
                Ok(value) => {
                    &&& !old(self).is_removed()
                    &&& bytes_view(value) == map_get(old(self)@, key@)
                    &&& searched(old(self).shape(), final(self).shape(), key@)
                    &&& cleared(old(self).shape(), final(self).shape(), key@)
                },
                Err(e) => {
                    &&& old(self).is_removed()
                    &&& e@ == ErrorView::CollectionNotFound(old(self).spec_name())
                    &&& *final(self) == *old(self)
                },
            },
            match r {
                Ok(value) => match value {
                    Some(v) => old(self)@.contains_key(key@) && old(self)@[key@] == v@,
                    None => !old(self)@.contains_key(key@),
                },
                Err(e) => e matches Error::CollectionNotFound(name) && name@ == old(
                    self,
                ).spec_name(),
            },
    {
        match self.get_internal(key) {
            Ok(found) => Ok(found.value),
            Err(e) => Err(e),
        }
    }

    /// Tells whether a key has a value.
    pub fn contains_key(&mut self, key: &[u8]) -> (r: Result<bool, Error>)
        requires
            old(self).wf(),
        ensures
            final(self).wf(),
            final(self).only_tidied(old(self)),
            match r {
                Ok(b) => {
                    &&& !old(self).is_removed()
                    &&& b == old(self)@.contains_key(key@)
                    &&& searched(old(self).shape(), final(self).shape(), key@)
                    &&& cleared(old(self).shape(), final(self).shape(), key@)
                },
                Err(e) => {
                    &&& old(self).is_removed()
                    &&& e@ == ErrorView::CollectionNotFound(old(self).spec_name())
                    &&& *final(self) == *old(self)
                },
            },
            r matches Err(e) ==> e matches Error::CollectionNotFound(name) && name@ == old(
                self,
            ).spec_name(),
    {
        match self.get(key) {
            Ok(value) => Ok(value.is_some()),
            Err(e) => Err(e),
        }
    }

    /// Sets a key to a new value. Tells the value that it had.
    pub fn set(&mut self, key: &[u8], value: Vec<u8>) -> (r: Result<Option<Vec<u8>>, Error>)
        requires
            old(self).wf(),
            old(self).is_writable() ==> room_for(old(self).watchers(), key@),
        ensures
            final(self).wf(),
            final(self).answered(
                old(self),
                CallView::Put(key@, value@),
                previous_answer(r),
            ),
            r is Ok ==> final(self).grew_for(old(self), key@, Some(value@)),
            match r {
                Ok(previous) => {
                    &&& old(self).is_writable()
                    &&& match previous {
                        Some(v) => old(self)@.contains_key(key@) && old(self)@[key@] == v@,
                        None => !old(self)@.contains_key(key@),
                    }
                    &&& final(self)@ == old(self)@.insert(key@, value@)
                },
                Err(_) => !old(self).is_writable() && *final(self) == *old(self),
            },
    {
        if self.config.read_only {
            return Err(Error::Unsupported("the database is in read-only mode".to_owned()));
        }
        let found = match self.get_internal(key) {
            Ok(found) => found,
            Err(e) => return Err(e),
        };
        let ghost mid = *self;
        let previous = self.try_set(key, value, found).unwrap();
        proof {
            assert(self.grew(&mid, &found, found.leaf().with_value(key@, Some(value@))));
        }
        Ok(previous)
    }

    /// Takes a key out. Tells the value that it had. Does nothing in a read-only tree.
    pub fn del(&mut self, key: &[u8]) -> (r: Result<Option<Vec<u8>>, Error>)
        requires
            old(self).wf(),
            old(self).is_writable() ==> room_for(old(self).watchers(), key@),
        ensures
            final(self).wf(),
            final(self).answered(old(self), CallView::Del(key@), previous_answer(r)),
            r is Ok && !old(self).setup().read_only ==> final(self).kept_for(old(self), key@, None),
            old(self).setup().read_only ==> r == Ok::<_, Error>(None::<Vec<u8>>) && *final(self) == *old(
                self,
            ),
            !old(self).setup().read_only ==> match r {
                Ok(previous) => {
                    &&& !old(self).is_removed()
                    &&& match previous {
                        Some(v) => old(self)@.contains_key(key@) && old(self)@[key@] == v@,
                        None => !old(self)@.contains_key(key@),
                    }
                    &&& final(self)@ == old(self)@.remove(key@)
                },
                Err(_) => old(self).is_removed() && *final(self) == *old(self),
            },
    {
        if self.config.read_only {
            return Ok(None);
        }
        let found = match self.get_internal(key) {
            Ok(found) => found,
            Err(e) => return Err(e),
        };
        let ghost mid = *self;
        let previous = self.try_write(key, None, found).unwrap();
        proof {
            assert(self.shape() == mid.with_leaf(&found, found.leaf().with_value(key@, None)));
        }
        Ok(previous)
    }

    /// Compare and swap: gives a key the value `new`, or takes it out where `new` is
    /// none, if its value is `expected`, or if it has none where `expected` is none.
    /// Tells the value that it has where that is another.
    pub fn cas(&mut self, key: &[u8], expected: Option<&[u8]>, new: Option<Vec<u8>>) -> (r: Result<
        Result<(), Option<Vec<u8>>>,
        Error,
    >)
        requires
            old(self).wf(),
            old(self).is_writable() && slice_view(expected) == map_get(old(self)@, key@)
                ==> room_for(old(self).watchers(), key@),
        ensures
            final(self).wf(),
            final(self).answered(
                old(self),
                CallView::Cas(key@, slice_view(expected), bytes_view(new)),
                swap_answer(r),
            ),
            r matches Ok(Ok(())) ==> final(self).kept_for(old(self), key@, bytes_view(new)),
            match r {
                Ok(Ok(())) => {
                    &&& old(self).is_writable()
                    &&& match expected {
                        Some(bytes) => old(self)@.contains_key(key@) && old(self)@[key@] == bytes@,
                        None => !old(self)@.contains_key(key@),
                    }
                    &&& final(self)@ == match new {
                        Some(bytes) => old(self)@.insert(key@, bytes@),
                        None => old(self)@.remove(key@),
                    }
                },
                Ok(Err(held)) => {
                    &&& old(self).is_writable()
                    &&& match expected {
                        Some(bytes) => !old(self)@.contains_key(key@) || old(self)@[key@] != bytes@,
                        None => old(self)@.contains_key(key@),
                    }
                    &&& match held {
                        Some(v) => old(self)@.contains_key(key@) && old(self)@[key@] == v@,
                        None => !old(self)@.contains_key(key@),
                    }
                    &&& final(self)@ == old(self)@
                },
                Err(_) => !old(self).is_writable() && *final(self) == *old(self),
            },
    {
        if self.config.read_only {
            return Err(
                Error::Unsupported("can not perform a cas on a read-only Tree".to_owned()),
            );
        }
        let found = match self.get_internal(key) {
            Ok(found) => found,
            Err(e) => return Err(e),
        };
        if !value_matches(expected, &found.value) {
            return Ok(Err(found.value));
        }
        let ghost mid = *self;
        let _ = self.try_write(key, new, found).unwrap();
        proof {
            assert(self.shape() == mid.with_leaf(
                &found,
                found.leaf().with_value(key@, bytes_view(new)),
            ));
        }
        Ok(Ok(()))
    }

    /// Gives a key the value that `f` makes of the one that it has. Tells the new value.
    pub fn update_and_fetch<F: FnMut(Option<&[u8]>) -> Option<Vec<u8>>>(
        &mut self,
        key: &[u8],
        f: F,
    ) -> (r: Result<Option<Vec<u8>>, Error>)
        requires
            old(self).wf(),
            old(self).is_writable() ==> room_for(old(self).watchers(), key@),
            !old(self).is_removed() ==> updatable(f, map_get(old(self)@, key@)),
        ensures
            final(self).wf(),
            match r {
                Ok(next) => {
                    &&& old(self).is_writable()
                    &&& updates_to(f, map_get(old(self)@, key@), bytes_view(next))
                    &&& final(self).wrote(
                        old(self),
                        key@,
                        bytes_view(next),
                        change_event(key@, bytes_view(next)),
                    )
                    &&& final(self).kept_for(old(self), key@, bytes_view(next))
                },
                Err(e) => {
                    &&& final(self).only_tidied(old(self))
                    &&& if old(self).is_removed() {
                        e@ == ErrorView::CollectionNotFound(old(self).spec_name())
                    } else {
                        old(self).setup().read_only && e@ == ErrorView::Unsupported(
                            "can not perform a cas on a read-only Tree"@,
                        )
                    }
                },
            },
            r matches Ok(next) ==> exists|o: Option<&[u8]>, n: Option<Vec<u8>>|
                {
                    &&& #[trigger] call_ensures(f, (o,), n)
                    &&& match o {
                        Some(held) => old(self)@.contains_key(key@) && old(self)@[key@] == held@,
                        None => !old(self)@.contains_key(key@),
                    }
                    &&& final(self)@ == match n {
                        Some(bytes) => old(self)@.insert(key@, bytes@),
                        None => old(self)@.remove(key@),
                    }
                    &&& match next {
                        Some(bytes) => n matches Some(answer) && answer@ == bytes@,
                        None => n is None,
                    }
                },
            r is Err ==> final(self)@ == old(self)@,
    {
        let mut current = match self.get(key) {
            Ok(current) => current,
            Err(e) => return Err(e),
        };
        let ghost held = map_get(old(self)@, key@);
        let mut update = f;
        loop
            invariant
                self.wf(),
                self.only_tidied(old(self)),
                cleared(old(self).shape(), self.shape(), key@),
                held == map_get(old(self)@, key@),
                bytes_view(current) == held,
                !old(self).is_removed(),
                old(self).is_writable() ==> room_for(old(self).watchers(), key@),
                updatable(f, held),
                update == f,
            decreases 0int,
        {
            let ghost mid = *self;
            let current_slice: Option<&[u8]> = match &current {
                Some(bytes) => Some(bytes.as_slice()),
                None => None,
            };
            let next = update(current_slice);
            proof {
                assert(updates_to(f, held, bytes_view(next)));
            }
            let copy = copy_value(&next);
            match self.cas(key, current_slice, copy) {
                Ok(Ok(())) => {
                    proof {
                        lemma_kept_since(self, old(self), &mid, key@, bytes_view(next));
                    }
                    return Ok(next);
                },
                Ok(Err(now)) => {
                    proof {
                        lemma_stays_cleared(
                            old(self).shape(),
                            mid.shape(),
                            self.shape(),
                            key@,
                        );
                    }
                    current = now;
                },
                Err(e) => return Err(e),
            }
        }
    }

    /// Gives a key the value that `f` makes of the one that it has. Tells the value
    /// that it had.
    pub fn fetch_and_update<F: FnMut(Option<&[u8]>) -> Option<Vec<u8>>>(
        &mut self,
        key: &[u8],
        f: F,
    ) -> (r: Result<Option<Vec<u8>>, Error>)
        requires
            old(self).wf(),
            old(self).is_writable() ==> room_for(old(self).watchers(), key@),
            !old(self).is_removed() ==> updatable(f, map_get(old(self)@, key@)),
        ensures
            final(self).wf(),
            match r {
                Ok(previous) => {
                    &&& old(self).is_writable()
                    &&& bytes_view(previous) == map_get(old(self)@, key@)
                    &&& exists|next: Option<Seq<u8>>|
                        {
                            &&& #[trigger] updates_to(f, map_get(old(self)@, key@), next)
                            &&& final(self).wrote(old(self), key@, next, change_event(key@, next))
                            &&& final(self).kept_for(old(self), key@, next)
                        }
                },
                Err(e) => {
                    &&& final(self).only_tidied(old(self))
                    &&& if old(self).is_removed() {
                        e@ == ErrorView::CollectionNotFound(old(self).spec_name())
                    } else {
                        old(self).setup().read_only && e@ == ErrorView::Unsupported(
                            "can not perform a cas on a read-only Tree"@,
                        )
                    }
                },
            },
            r matches Ok(previous) ==> match previous {
                Some(v) => old(self)@.contains_key(key@) && old(self)@[key@] == v@,
                None => !old(self)@.contains_key(key@),
            },
            r is Ok ==> exists|o: Option<&[u8]>, n: Option<Vec<u8>>|
                {
                    &&& #[trigger] call_ensures(f, (o,), n)
                    &&& match o {
                        Some(held) => old(self)@.contains_key(key@) && old(self)@[key@] == held@,
                        None => !old(self)@.contains_key(key@),
                    }
                    &&& final(self)@ == match n {
                        Some(bytes) => old(self)@.insert(key@, bytes@),
                        None => old(self)@.remove(key@),
                    }
                },
            r is Err ==> final(self)@ == old(self)@,
    {
        let mut current = match self.get(key) {
            Ok(current) => current,
            Err(e) => return Err(e),
        };
        let ghost held = map_get(old(self)@, key@);
        let mut update = f;
        loop
            invariant
                self.wf(),
                self.only_tidied(old(self)),
                cleared(old(self).shape(), self.shape(), key@),
                held == map_get(old(self)@, key@),
                bytes_view(current) == held,
                !old(self).is_removed(),
                old(self).is_writable() ==> room_for(old(self).watchers(), key@),
                updatable(f, held),
                update == f,
            decreases 0int,
        {
            let ghost mid = *self;
            let current_slice: Option<&[u8]> = match &current {
                Some(bytes) => Some(bytes.as_slice()),
                None => None,
            };
            let next = update(current_slice);
            let ghost new = bytes_view(next);
            proof {
                assert(updates_to(f, held, new));
            }
            match self.cas(key, current_slice, next) {
                Ok(Ok(())) => {
                    proof {
                        lemma_kept_since(self, old(self), &mid, key@, new);
                    }
                    return Ok(current);
                },
                Ok(Err(now)) => {
                    proof {
                        lemma_stays_cleared(
                            old(self).shape(),
                            mid.shape(),
                            self.shape(),
                            key@,
                        );
                    }
                    current = now;
                },
                Err(e) => return Err(e),
            }
        }
    }

    /// Merges `value` into what is held for a key, by the merge operator. There must
    /// be one, unless the tree is read-only.
    pub fn merge(&mut self, key: &[u8], value: Vec<u8>) -> (r: Result<(), Error>)
        requires
            old(self).wf(),
            !old(self).setup().read_only ==> old(self).setup().merge_operator is Some,
            old(self).is_writable() ==> {
                &&& room_for(old(self).watchers(), key@)
                &&& operator_ready(
                    old(self).setup().merge_operator->0,
                    key@,
                    map_get(old(self)@, key@),
                    value@,
                )
            },
        ensures
            final(self).wf(),
            final(self).answered(old(self), CallView::Merge(key@, value@), merge_answer(r)),
            r is Ok ==> exists|merged: Option<Seq<u8>>|
                {
                    &&& #[trigger] final(self).merged_in(old(self), key@, value@, merged)
                    &&& final(self).grew_for(old(self), key@, merged)
                },
            r is Ok ==> old(self).is_writable() && exists|k: &[u8], o: Option<&[u8]>, v: &[u8], n: Option<Vec<u8>>|
                {
                    &&& #[trigger] call_ensures(old(self).setup().merge_operator->0, (k, o, v), n)
                    &&& k@ == key@
                    &&& v@ == value@
                    &&& match o {
                        Some(held) => old(self)@.contains_key(key@) && old(self)@[key@] == held@,
                        None => !old(self)@.contains_key(key@),
                    }
                    &&& final(self)@ == match n {
                        Some(bytes) => old(self)@.insert(key@, bytes@),
                        None => old(self)@.remove(key@),
                    }
                },
            r is Err ==> !old(self).is_writable() && *final(self) == *old(self),
    {
        if self.config.read_only {
            return Err(Error::Unsupported("the database is in read-only mode".to_owned()));
        }
        let found = match self.get_internal(key) {
            Ok(found) => found,
            Err(e) => return Err(e),
        };
        let ghost mid = *self;
        let _ = self.try_merge(key, value, found);
        proof {
            let operator = mid.setup().merge_operator->0;
            let merged = choose|merged: Option<Seq<u8>>|
                {
                    &&& #[trigger] merges_to(
                        operator,
                        key@,
                        map_get(mid@, key@),
                        value@,
                        merged,
                    )
                    &&& self.wrote(&mid, key@, merged, EventView::Merge(key@, value@))
                    &&& self.grew(&mid, &found, found.leaf().with_value(key@, merged))
                };
            assert(self.grew(&mid, &found, found.leaf().with_value(key@, merged)));
            assert(self.merged_in(old(self), key@, value@, merged));
            assert(self.grew_for(old(self), key@, merged));
            assert(self.merged_some(old(self), key@, value@));
        }
        Ok(())
    }
}

/// What has been kept since a tidier state has been kept since before.
proof fn lemma_kept_since<M>(
    after: &Tree<M>,
    before: &Tree<M>,
    mid: &Tree<M>,
    key: Seq<u8>,
    value: Option<Seq<u8>>,
)
    requires
        mid.wf(),
        !mid.is_removed(),
        mid.only_tidied(before),
        cleared(before.shape(), mid.shape(), key),
        after.kept_for(mid, key, value),
    ensures
        after.kept_for(before, key, value),
{
    let (late, found) = choose|late: Tree<M>, found: Found|
        {
            &&& late.wf()
            &&& late.only_tidied(mid)
            &&& cleared(mid.shape(), late.shape(), key)
            &&& found.wf(key)
            &&& late.still_there(&found)
            &&& path_placed(late.shape(), found.path@)
            &&& path_ok(late.shape(), found.path@, key)
            &&& after.shape() == #[trigger] late.with_leaf(
                &found,
                found.leaf().with_value(key, value),
            )
            &&& after.root == late.root
        };
    lemma_only_tidied_further(before, mid, &late);
    lemma_stays_cleared(before.shape(), mid.shape(), late.shape(), key);
    assert(after.shape() == late.with_leaf(&found, found.leaf().with_value(key, value)));
}

} // verus!
