//! The way from the root to a key. A search helps: it completes the splits and
//! the merges that it comes across.

use crate::clearing::{
    cleared, clearing, lemma_clearing_down, lemma_clearing_end, lemma_clearing_link,
    lemma_clearing_merge, lemma_clearing_right, lemma_clearing_start,
};
use crate::entries::{
    binary_search_lub, holds_key, lemma_entry_found, lemma_rank, lemma_with_entry, lookup, rank,
};
use crate::error::{Error, ErrorView};
use crate::help::{
    all_due, all_for, helped, lemma_helped_push, lemma_searched_none, lemma_searched_tidies,
    found_way, law_search_finds_way, lemma_stays_quiet, on_the_way, quiet, same_from, searched,
    Help,
};
use crate::key::{copy_bytes, group_key_order, is_before, key_le, key_lt, lemma_empty_key_is_least};
use crate::moves::{
    absorbed_shape, lemma_absorb, lemma_absorb_contents, lemma_confirm, lemma_index_child,
};
use crate::node::{
    find_pointer, lemma_pointer_at, pointer_at, Data, Frag, Node, NodeView, PageId, ParentSplit,
};
use crate::pagecache::PageGet;
use crate::shape::{lemma_cap, lemma_chain_order, lemma_home, lemma_home_is, lemma_same_home, Shape};
use crate::tree::Tree;
use std::sync::Arc;
use vstd::prelude::*;

verus! {

/// The shape after the merge that the node at a place has announced: the child's
/// left sibling has taken over from it, and its parent has dropped it.
pub open spec fn merged_shape(s: Shape, l: int, i: int) -> Shape {
    let parent = s.node(l, i);
    let child = parent.merging_child->0;
    if s.placed(child) {
        let c = s.place_of(l + 1, child, s.nodes[child].lo);
        let capped = s.with_node(l + 1, c, NodeView { merging: true, ..s.nodes[child] });
        absorbed_shape(capped, l + 1, c - 1).with_node(l, i, parent.with_merge_confirmed())
    } else {
        s.with_node(l, i, parent.with_merge_confirmed())
    }
}

/// Where the child of an announced merge stands: on the level below, after the
/// child before it in its parent.
pub proof fn lemma_merging_child(s: Shape, l: int, i: int)
    requires
        s.wf(),
        s.place(l, i),
        s.node(l, i).merging_child is Some,
    ensures
        ({
            let parent = s.node(l, i);
            let child = parent.merging_child->0;
            let at = pointer_at(parent.pointers(), child, 0);
            let before = parent.pointers()[at - 1];
            let key = s.nodes[child].lo;
            let b = s.place_of(l + 1, before.1, before.0);
            let c = s.place_of(l + 1, child, key);
            &&& l != s.bottom()
            &&& 0 < at < parent.pointers().len()
            &&& parent.pointers()[at] == (key, child)
            &&& s.nodes.contains_key(child)
            &&& s.starts_at(l + 1, b, before.1, before.0)
            &&& key_lt(before.0, key)
            &&& s.placed(child) ==> s.starts_at(l + 1, c, child, key) && b < c
            &&& !s.placed(child) ==> s.absorbed(child)
        }),
{
    broadcast use group_key_order;

    let parent = s.node(l, i);
    let child = parent.merging_child->0;
    let at = pointer_at(parent.pointers(), child, 0);
    assert(s.place_ok(l, i));
    assert(s.merging_ok(l, i));
    lemma_pointer_at(parent.pointers(), child, 0);
    assert(s.pointer_ok(l, i, at));
    assert(s.pointer_ok(l, i, at - 1));
    let (key, q) = parent.pointers()[at];
    let before = parent.pointers()[at - 1];
    assert(before.1 != child);
    assert(s.leads_to(l + 1, before.1, before.0));
    let b = s.place_of(l + 1, before.1, before.0);
    assert(s.starts_at(l + 1, b, before.1, before.0));
    assert(key_lt(parent.pointers()[at - 1].0, parent.pointers()[at].0));
    if s.leads_to(l + 1, child, key) {
        let d = s.place_of(l + 1, child, key);
        assert(s.starts_at(l + 1, d, child, key));
        assert(s.page(l + 1, d) == child);
        assert(s.placed(child));
        assert(s.place_ok(l + 1, d));
        if d < b {
            lemma_chain_order(s, l + 1, d, b);
        }
    }
}

/// A merge keeps the tree a tree and its contents as they were, and touches no
/// level but that of the parent, in the parent, and the one below.
pub proof fn lemma_merged_shape(s: Shape, l: int, i: int)
    requires
        s.wf(),
        s.place(l, i),
        s.node(l, i).merging_child is Some,
    ensures
        ({
            let t = merged_shape(s, l, i);
            &&& t.wf()
            &&& t.contents() == s.contents()
            &&& t.levels.len() == s.levels.len()
            &&& forall|m: int| 0 <= m < s.levels.len() && m != l + 1 ==> #[trigger] t.levels[m] == s.levels[m]
            &&& forall|m: int, j: int|
                #![trigger t.node(m, j)]
                s.place(m, j) && m != l + 1 && !(m == l && j == i) ==> t.node(m, j) == s.node(m, j)
            &&& t.node(l, i) == s.node(l, i).with_merge_confirmed()
        }),
{
    lemma_merging_child(s, l, i);
    let parent = s.node(l, i);
    let child = parent.merging_child->0;
    let t = merged_shape(s, l, i);
    if s.placed(child) {
        let key = s.nodes[child].lo;
        let c = s.place_of(l + 1, child, key);
        assert(s.page(l + 1, c) == child);
        assert(s.announces(l, i, child));
        assert(s.announced(l + 1 - 1, child));
        let capped = NodeView { merging: true, ..s.nodes[child] };
        let u = s.with_node(l + 1, c, capped);
        lemma_cap(s, l + 1, c);
        assert forall|m: int, j: int| s.place(m, j) && !(m == l + 1 && j == c) implies #[trigger] u.node(m, j) == s.node(m, j) by {
            assert(s.page(m, j) != s.page(l + 1, c));
        }
        assert(u.node(l, i) == s.node(l, i));
        assert(u.page(l + 1, c) == child);
        lemma_absorb(u, l, i, c - 1);
        let v = absorbed_shape(u, l + 1, c - 1);
        lemma_absorb_contents(u, l + 1, c - 1);
        assert forall|m: int, j: int| s.place(m, j) && m != l + 1 implies #[trigger] v.node(m, j) == s.node(m, j) by {
            assert(u.page(m, j) != u.page(l + 1, c - 1));
            assert(u.node(m, j) == s.node(m, j));
        }
        assert(v.place(l, i) && v.page(l, i) == s.page(l, i));
        assert(v.node(l, i) == s.node(l, i));
        lemma_confirm(v, l, i);
        assert forall|m: int, j: int| s.place(m, j) && m != l + 1 && !(m == l && j == i) implies #[trigger] t.node(m, j) == s.node(m, j) by {
            assert(v.page(m, j) == s.page(m, j));
            assert(s.page(m, j) != s.page(l, i));
            assert(v.node(m, j) == s.node(m, j));
        }
    } else {
        lemma_confirm(s, l, i);
        assert forall|m: int, j: int| s.place(m, j) && m != l + 1 && !(m == l && j == i) implies #[trigger] t.node(m, j) == s.node(m, j) by {
            assert(s.page(m, j) != s.page(l, i));
        }
    }
}

/// Whether the node on page `pid` announces the merge of `child`, and is not itself
/// being merged.
pub open spec fn still_announced(s: Shape, pid: PageId, child: PageId) -> bool {
    &&& s.nodes.contains_key(pid)
    &&& s.nodes[pid].merging_child == Some(child)
    &&& !s.nodes[pid].merging
}

/// Whether an index node announces the merge of `child`, which it points to and
/// which is not its first.
pub open spec fn can_confirm(node: NodeView, child: PageId) -> bool {
    &&& !node.is_leaf()
    &&& node.merging_child == Some(child)
    &&& 0 < pointer_at(node.pointers(), child, 0) < node.pointers().len()
}

impl<M> Tree<M> {
    /// Nothing has changed but the pages.
    spec fn kept_but_pages(&self, before: &Tree<M>) -> bool {
        &&& self.pagecache.wf()
        &&& self.pagecache.roots() == before.pagecache.roots()
        &&& self.tree_id@ == before.tree_id@
        &&& self.config == before.config
        &&& self.subscriptions@ == before.subscriptions@
        &&& self.dirty@ == before.dirty@
        &&& self.flushed@ == before.flushed@
        &&& self.root == before.root
        &&& self.levels == before.levels
    }
}

impl<M: Fn(&[u8], Option<&[u8]>, &[u8]) -> Option<Vec<u8>>> Tree<M> {
    /// Marks the node on page `child_pid` as being merged, unless that has been done.
    /// Tells the node as it was, if there is one.
    fn mark_child(&mut self, child_pid: PageId) -> (r: Result<Option<Arc<Node>>, Error>)
        requires
            old(self).pagecache.wf(),
        ensures
            final(self).kept_but_pages(old(self)),
            match r {
                Ok(Some(child)) => {
                    &&& old(self).pagecache@.contains_key(child_pid)
                    &&& child.wf()
                    &&& child@ == old(self).pagecache@[child_pid]
                    &&& final(self).pagecache@ == old(self).pagecache@.insert(
                        child_pid,
                        (NodeView { merging: true, ..child@ }),
                    )
                },
                _ => {
                    &&& !old(self).pagecache@.contains_key(child_pid)
                    &&& final(self).pagecache@ == old(self).pagecache@
                },
            },
    {
        loop
            invariant
                *self == *old(self),
                old(self).pagecache.wf(),
            decreases 0int,
        {
            let child = match self.pagecache.get(child_pid) {
                PageGet::Materialized(child) => child,
                PageGet::Free => return Ok(None),
                PageGet::Unallocated => {
                    return Err(
                        Error::ReportableBug(
                            "got non-base node while traversing tree: Unallocated".to_owned(),
                        ),
                    );
                },
            };
            if child.merging {
                proof {
                    assert(self.pagecache@ =~= self.pagecache@.insert(
                        child_pid,
                        NodeView { merging: true, ..child@ },
                    ));
                }
                return Ok(Some(child));
            }
            match self.pagecache.link(
                child_pid,
                &child,
                Frag::ChildMergeCap,
                &self.config.merge_operator,
            ) {
                Ok(_) => return Ok(Some(child)),
                Err(Some(_)) => continue,
                Err(None) => return Ok(None),
            }
        }
    }

    /// Has the node on page `parent_pid` drop the child that has been merged. The page
    /// held `parent` when it was read, and may have been changed since.
    fn confirm_merge(&mut self, parent_pid: PageId, parent: &Node, child_pid: PageId)
        requires
            old(self).pagecache.wf(),
            old(self).pagecache@.contains_key(parent_pid),
            can_confirm(old(self).pagecache@[parent_pid], child_pid),
            parent.wf(),
            can_confirm(parent@, child_pid),
        ensures
            final(self).kept_but_pages(old(self)),
            final(self).pagecache@ == old(self).pagecache@.insert(
                parent_pid,
                old(self).pagecache@[parent_pid].with_merge_confirmed(),
            ),
    {
        let first = self.pagecache.link(
            parent_pid,
            parent,
            Frag::ParentMergeConfirm,
            &self.config.merge_operator,
        );
        let mut expected = match first {
            Ok(_) => return,
            Err(None) => return,
            Err(Some(current)) => current,
        };
        let ghost now = self.pagecache@[parent_pid];
        loop
            invariant
                self.kept_but_pages(old(self)),
                self.pagecache@ == old(self).pagecache@,
                old(self).pagecache@.contains_key(parent_pid),
                now == old(self).pagecache@[parent_pid],
                can_confirm(now, child_pid),
                expected.wf(),
                expected@ == now,
            decreases 0int,
        {
            if expected.merging_child != Some(child_pid) {
                return;
            }
            match self.pagecache.link(
                parent_pid,
                &expected,
                Frag::ParentMergeConfirm,
                &self.config.merge_operator,
            ) {
                Ok(_) => return,
                Err(None) => return,
                Err(Some(current)) => {
                    expected = current;
                },
            }
        }
    }

    /// Completes the merge that `parent` has announced. Page `parent_pid` held it when
    /// it was read, and may have been changed since: where the node there no longer
    /// announces that merge, others have completed it, and nothing is done.
    pub(crate) fn merge_node(&mut self, parent_pid: PageId, parent: &Node) -> (r: Result<(), Error>)
        requires
            old(self).wf(),
            !old(self).is_removed(),
            parent.wf(),
            parent@.merging_child is Some,
            old(self).shape().nodes.contains_key(parent@.merging_child->0) ==> can_confirm(
                parent@,
                parent@.merging_child->0,
            ),
        ensures
            r is Ok,
            final(self).wf(),
            final(self).only_pages_changed(old(self)),
            final(self).root == old(self).root,
            still_announced(old(self).shape(), parent_pid, parent@.merging_child->0) ==> {
                &&& old(self).shape().placed(parent_pid)
                &&& forall|l: int, i: int|
                    #![trigger old(self).shape().page(l, i)]
                    old(self).shape().place(l, i) && old(self).shape().page(l, i) == parent_pid
                        ==> final(self).shape() == merged_shape(old(self).shape(), l, i)
            },
            !still_announced(old(self).shape(), parent_pid, parent@.merging_child->0)
                ==> final(self).shape() == old(self).shape(),
            !old(self).shape().nodes.contains_key(parent@.merging_child->0) ==> final(self).shape()
                == old(self).shape(),
    {
        let ghost s = self.shape();
        let current = match self.pagecache.get(parent_pid) {
            PageGet::Materialized(current) => current,
            _ => return Ok(()),
        };
        if current.merging || current.merging_child != parent.merging_child {
            return Ok(());
        }
        proof {
            assert(s.nodes.contains_key(parent_pid));
            assert(s.placed(parent_pid));
        }
        let ghost (l, i) = choose|l: int, i: int|
            #![trigger s.page(l, i)]
            s.place(l, i) && s.page(l, i) == parent_pid;
        let child_pid = parent.merging_child.unwrap();
        proof {
            assert(s.page(l, i) == parent_pid);
            assert(s.place_ok(l, i));
            lemma_merging_child(s, l, i);
            lemma_merged_shape(s, l, i);
        }
        let ghost key = s.nodes[child_pid].lo;
        let ghost c = s.place_of(l + 1, child_pid, key);

        // Mark the child, unless that has been done.
        let ghost capped = NodeView { merging: true, ..s.nodes[child_pid] };
        let ghost u = if s.placed(child_pid) {
            s.with_node(l + 1, c, capped)
        } else {
            s
        };
        let child = match self.mark_child(child_pid) {
            Ok(Some(child)) => child,
            Ok(None) => return Ok(()),
            Err(e) => return Err(e),
        };
        proof {
            if s.placed(child_pid) {
                assert(s.page(l + 1, c) == child_pid);
                assert(self.shape().nodes =~= u.nodes);
                assert(s.announces(l, i, child_pid));
                assert(s.announced(l + 1 - 1, child_pid));
                lemma_cap(s, l + 1, c);
            } else {
                assert(self.shape().nodes =~= u.nodes);
            }
            assert(self.shape() == u);
            assert(u.wf());
        }

        // Find the left sibling, and have it take over from the child.
        let pointers = match &current.data {
            Data::Index(pointers) => pointers,
            Data::Leaf(_) => return Ok(()),
        };
        let at = find_pointer(pointers, current.lo.as_slice(), child_pid);
        let mut cursor_pid: PageId = pointers[at - 1].1;
        let mut searching: bool = true;
        let ghost v = if s.placed(child_pid) {
            absorbed_shape(u, l + 1, c - 1)
        } else {
            u
        };
        let ghost mut x = s.place_of(l + 1, cursor_pid, current@.pointers()[at - 1].0);
        let ghost begin = *self;
        proof {
            assert(u.page(l + 1, x) == cursor_pid);
            assert(s.page(l + 1, x) != s.page(l + 1, c) || !s.placed(child_pid));
        }
        while searching
            invariant
                u.wf(),
                u.levels == s.levels,
                child.wf(),
                child@.lo == key,
                s.placed(child_pid) ==> {
                    &&& u.starts_at(l + 1, c, child_pid, key)
                    &&& u.node(l + 1, c) == (NodeView { merging: true, ..child@ })
                    &&& v == absorbed_shape(u, l + 1, c - 1)
                },
                !s.placed(child_pid) ==> v == u,
                self.pagecache.wf(),
                self.pagecache.roots() == begin.pagecache.roots(),
                self.tree_id@ == begin.tree_id@,
                self.config == begin.config,
                self.subscriptions@ == begin.subscriptions@,
                self.dirty@ == begin.dirty@,
                self.flushed@ == begin.flushed@,
                self.root == begin.root,
                searching ==> {
                    &&& self.shape() == u
                    &&& u.place(l + 1, x)
                    &&& u.page(l + 1, x) == cursor_pid
                    &&& s.placed(child_pid) ==> x < c
                },
                !searching ==> self.shape() == v,
            decreases
                    (if searching {
                        u.levels[l + 1].len() - x + 1
                    } else {
                        0
                    }),
        {
            proof {
                assert(u.place_ok(l + 1, x));
            }
            let cursor = match self.pagecache.get(cursor_pid) {
                PageGet::Materialized(cursor) => cursor,
                // The merge has been completed by others.
                PageGet::Free => return Ok(()),
                PageGet::Unallocated => {
                    return Err(
                        Error::ReportableBug(
                            "got non-base node while traversing tree: Unallocated".to_owned(),
                        ),
                    );
                },
            };
            if !is_before(cursor.lo.as_slice(), child.lo.as_slice()) {
                proof {
                    if s.placed(child_pid) {
                        lemma_chain_order(u, l + 1, x, c);
                    }
                }
                searching = false;
            } else if cursor.next == Some(child_pid) {
                proof {
                    let y = x + 1;
                    assert(u.place(l + 1, y) && u.page(l + 1, y) == child_pid);
                    assert(s.placed(child_pid)) by {
                        assert(s.page(l + 1, y) == child_pid);
                        assert(s.place(l + 1, y));
                    }
                    assert(u.page(l + 1, y) == u.page(l + 1, c));
                    assert(u.place_ok(l + 1, c));
                }
                let replacement = cursor.receive_merge(&child);
                match self.pagecache.replace(cursor_pid, &cursor, replacement) {
                    Ok(_) => {
                        self.levels = Ghost(v.levels);
                        proof {
                            assert(self.shape().nodes =~= v.nodes);
                        }
                        searching = false;
                    },
                    Err(None) => return Ok(()),
                    Err(Some(_)) => continue,
                }
            } else {
                match cursor.next {
                    Some(next) => {
                        cursor_pid = next;
                        proof {
                            x = x + 1;
                            if s.placed(child_pid) && x == c {
                                assert(u.page(l + 1, c) == child_pid);
                            }
                        }
                    },
                    None => {
                        proof {
                            if s.placed(child_pid) {
                                assert(u.place(l + 1, x + 1));
                            }
                        }
                        searching = false;
                    },
                }
            }
        }

        // Have the parent drop the child.
        proof {
            assert(self.shape() == v);
            if s.placed(child_pid) {
                assert(s.page(l, i) != s.page(l + 1, c));
                assert(s.page(l, i) != s.page(l + 1, c - 1));
                assert(u.page(l + 1, c - 1) == s.page(l + 1, c - 1));
            }
            assert(v.nodes[parent_pid] == current@);
        }
        self.confirm_merge(parent_pid, parent, child_pid);
        proof {
            assert(self.shape() == merged_shape(s, l, i));
        }
        Ok(())
    }
}

// ---------------------------------------------------------------------------
// Paths.

/// The path to a key: on each level a page, with the node that was found there.
pub type Path = Vec<(PageId, Arc<Node>)>;

/// Step `j` of a path is at the page in which `key` belongs on level `j`; the node
/// there is the one that was found, and takes part in no merge as a parent.
pub open spec fn step_ok(s: Shape, path: Seq<(PageId, Arc<Node>)>, key: Seq<u8>, j: int) -> bool {
    let node = s.node(j, s.home(j, key));
    &&& path[j].0 == s.page(j, s.home(j, key))
    &&& path[j].1.wf()
    &&& node.merging_child is None
    &&& if j + 1 < path.len() {
        &&& node == path[j].1@.with_parent_split(path[j + 1].1@.lo, path[j + 1].0)
        &&& lookup(node.pointers(), path[j + 1].1@.lo) == Some(path[j + 1].0)
        &&& !path[j].1@.is_leaf()
    } else {
        node == path[j].1@
    }
}

/// The path leads from the root level to the leaf in which `key` belongs. Each
/// node has been found as it is, except that it may have come to know the next
/// one: each node now points to the next.
pub open spec fn path_ok(s: Shape, path: Seq<(PageId, Arc<Node>)>, key: Seq<u8>) -> bool {
    &&& path.len() == s.levels.len()
    &&& forall|j: int| 0 <= j < path.len() ==> #[trigger] step_ok(s, path, key, j)
}

/// The last separator that is not after `key` is before `lo`, or at `lo` if that is allowed.
spec fn separators_end(
    pointers: Seq<(Seq<u8>, PageId)>,
    key: Seq<u8>,
    lo: Seq<u8>,
    at: bool,
) -> bool {
    forall|j: int|
        #![trigger pointers[j]]
        0 <= j < pointers.len() && key_le(pointers[j].0, key) ==> key_lt(pointers[j].0, lo) || (at
            && pointers[j].0 == lo)
}

/// How a search got to place `i` of level `l`, and whether the parent knows the page there.
spec fn arrived(
    s: Shape,
    path: Seq<(PageId, Arc<Node>)>,
    key: Seq<u8>,
    l: int,
    i: int,
    unsplit: bool,
) -> bool {
    let lo = s.node(l, i).lo;
    let parent = path[l - 1].1@;
    &&& s.place(l, i)
    &&& key_le(lo, key)
    &&& l == 0 ==> !unsplit
    &&& l > 0 ==> {
        &&& !parent.is_leaf()
        &&& key_le(parent.lo, lo)
        &&& separators_end(parent.pointers(), key, lo, !unsplit)
        &&& !unsplit ==> lookup(parent.pointers(), lo) == Some(s.page(l, i))
    }
}

/// A search that goes on to the right sibling comes to a page that the parent does not know.
proof fn lemma_moved_right(
    s: Shape,
    path: Seq<(PageId, Arc<Node>)>,
    key: Seq<u8>,
    l: int,
    i: int,
    unsplit: bool,
)
    requires
        s.wf(),
        arrived(s, path, key, l, i, unsplit),
        s.node(l, i).hi.len() > 0,
        key_le(s.node(l, i).hi, key),
    ensures
        s.node(l, i).next == Some(s.page(l, i + 1)),
        arrived(s, path, key, l, i + 1, l > 0),
{
    broadcast use group_key_order;

    assert(s.place_ok(l, i));
    let lo = s.node(l, i).lo;
    let next = s.node(l, i + 1).lo;
    lemma_chain_order(s, l, i, i + 1);
    if l > 0 {
        let pointers = path[l - 1].1@.pointers();
        assert forall|j: int|
            #![trigger pointers[j]]
            0 <= j < pointers.len() && key_le(pointers[j].0, key) implies key_lt(
            pointers[j].0,
            next,
        ) by {
            assert(key_lt(pointers[j].0, lo) || pointers[j].0 == lo);
        }
    }
}

/// Where a search has got to is on its way.
proof fn lemma_arrived_on_the_way(
    s: Shape,
    path: Seq<(PageId, Arc<Node>)>,
    key: Seq<u8>,
    l: int,
    i: int,
    unsplit: bool,
)
    requires
        arrived(s, path, key, l, i, unsplit),
        l > 0 ==> path.len() == l && step_ok(s, path, key, l - 1),
    ensures
        on_the_way(s, key, l, i),
{
    broadcast use group_key_order;

}

/// A node that announces a merge is not itself being merged.
proof fn lemma_not_merging(s: Shape, l: int, i: int)
    requires
        s.wf(),
        s.place(l, i),
        s.node(l, i).merging_child is Some,
    ensures
        !s.node(l, i).merging,
{
    assert(s.capped_ok(l, i));
    if s.node(l, i).merging {
        let k = s.announcer(l - 1, s.page(l, i));
        assert(s.announces(l - 1, k, s.page(l, i)));
        assert(s.merging_ok(l - 1, k));
    }
}

/// Steps stay as they are where their levels do.
proof fn lemma_steps_kept(
    s: Shape,
    t: Shape,
    path: Seq<(PageId, Arc<Node>)>,
    key: Seq<u8>,
    j: int,
)
    requires
        s.wf(),
        t.wf(),
        0 <= j < path.len(),
        path.len() <= s.levels.len(),
        s.levels.len() == t.levels.len(),
        step_ok(s, path, key, j),
        s.levels[j] == t.levels[j],
        forall|i: int| #![trigger s.node(j, i)] s.place(j, i) ==> t.node(j, i) == s.node(j, i),
    ensures
        step_ok(t, path, key, j),
{
    lemma_same_home(s, t, j, key);
    lemma_home(s, j, key);
    assert(t.node(j, s.home(j, key)) == s.node(j, s.home(j, key)));
}

/// A parent that comes to know its child makes a step of a path.
proof fn lemma_known_child(
    s: Shape,
    path: Seq<(PageId, Arc<Node>)>,
    key: Seq<u8>,
    l: int,
    i: int,
)
    requires
        s.wf(),
        0 < l < s.levels.len(),
        path.len() == l,
        arrived(s, path, key, l, i, true),
        s.node(l, i).covers(key),
        forall|j: int| 0 <= j < l ==> #[trigger] step_ok(s, path, key, j),
    ensures
        ({
            let h = s.home(l - 1, key);
            let node = s.node(l - 1, h).with_parent_split(s.node(l, i).lo, s.page(l, i));
            let t = s.with_node(l - 1, h, node);
            &&& s.node(l - 1, h) == path[l - 1].1@
            &&& s.place(l - 1, h)
            &&& s.node(l - 1, h).covers(s.node(l, i).lo)
            &&& s.node(l - 1, h).merging_child is None
            &&& !holds_key(s.node(l - 1, h).pointers(), s.node(l, i).lo)
            &&& t.wf()
            &&& t.contents() == s.contents()
            &&& t.node(l, i) == s.node(l, i)
            &&& t.page(l, i) == s.page(l, i)
            &&& t.node(l - 1, h) == node
            &&& t.home(l - 1, key) == h
            &&& lookup(node.pointers(), s.node(l, i).lo) == Some(s.page(l, i))
            &&& forall|j: int| 0 <= j < l - 1 ==> #[trigger] step_ok(t, path, key, j)
            &&& t.levels == s.levels
        }),
{
    broadcast use group_key_order;

    let h = s.home(l - 1, key);
    let parent = s.node(l - 1, h);
    let lo = s.node(l, i).lo;
    lemma_home(s, l - 1, key);
    assert(step_ok(s, path, key, l - 1));
    assert(parent == path[l - 1].1@);
    assert(s.place_ok(l - 1, h));
    lemma_rank(parent.pointers(), lo);
    if holds_key(parent.pointers(), lo) {
        let j = rank(parent.pointers(), lo);
        assert(key_le(parent.pointers()[j].0, key));
    }
    lemma_index_child(s, l - 1, h, i);
    let node = parent.with_parent_split(lo, s.page(l, i));
    lemma_with_entry(parent.pointers(), lo, s.page(l, i));
    assert(node.pointers()[rank(parent.pointers(), lo)] == (lo, s.page(l, i)));
    let t = s.with_node(l - 1, h, node);
    assert forall|m: int, j: int|
        #![trigger t.node(m, j)]
        s.place(m, j) && !(m == l - 1 && j == h) implies t.node(m, j) == s.node(m, j) by {
        assert(s.page(m, j) != s.page(l - 1, h));
    }
    assert(t.node(l - 1, h) == node);
    lemma_same_home(s, t, l - 1, key);
    assert forall|j: int| 0 <= j < l - 1 implies #[trigger] step_ok(t, path, key, j) by {
        assert(step_ok(s, path, key, j));
        assert forall|k: int| #![trigger s.node(j, k)] s.place(j, k) implies t.node(j, k) == s.node(
            j,
            k,
        ) by {
            assert(t.node(j, k) == s.node(j, k));
        }
        lemma_steps_kept(s, t, path, key, j);
    }
}

impl<M: Fn(&[u8], Option<&[u8]>, &[u8]) -> Option<Vec<u8>>> Tree<M> {
    /// The path to `key`, completing splits and merges along the way.
    pub(crate) fn path_for_key(&mut self, key: &[u8]) -> (r: Result<Path, Error>)
        requires
            old(self).wf(),
        ensures
            final(self).wf(),
            final(self).only_tidied(old(self)),
            match r {
                Ok(path) => {
                    &&& !old(self).is_removed()
                    &&& path_ok(final(self).shape(), path@, key@)
                    &&& final(self).shape().levels.len() == old(self).shape().levels.len()
                    &&& searched(old(self).shape(), final(self).shape(), key@)
                    &&& cleared(old(self).shape(), final(self).shape(), key@)
                    &&& quiet(old(self).shape(), key@) ==> found_way(
                        old(self).shape(),
                        final(self).shape(),
                        path@,
                        key@,
                    )
                },
                Err(e) => {
                    &&& old(self).is_removed()
                    &&& e@ == ErrorView::CollectionNotFound(old(self).spec_name())
                    &&& *final(self) == *old(self)
                },
            },
    {
        broadcast use group_key_order;

        if self.root == u64::MAX {
            // This collection has been removed.
            proof {
                lemma_searched_none(self.shape(), key@);
            }
            return Err(Error::CollectionNotFound(copy_bytes(self.tree_id.as_slice())));
        }
        let mut cursor: PageId = self.root;
        let mut path: Path = Vec::new();
        // The step whose node does not yet know the page at the cursor.
        let mut unsplit_parent: Option<usize> = None;
        let ghost mut i: int = 0;
        let ghost mut helps: Seq<Help> = Seq::empty();
        let ghost start = self.shape();
        proof {
            let s = self.shape();
            assert(all_due(start, helps) && helped(start, helps) == start);
            lemma_clearing_start(start, key@);
            assert(s.levels[0].len() > 0);
            assert(s.place_ok(0, 0));
            lemma_empty_key_is_least(key@);
            assert(s.node(0, 0).lo =~= Seq::empty());
        }
        loop
            invariant
                self.wf(),
                !self.is_removed(),
                self.only_pages_changed(old(self)),
                self.root == old(self).root,
                self.shape().levels.len() == old(self).shape().levels.len(),
                path@.len() < self.shape().levels.len(),
                forall|j: int|
                    0 <= j < path@.len() ==> #[trigger] step_ok(self.shape(), path@, key@, j),
                arrived(
                    self.shape(),
                    path@,
                    key@,
                    path@.len() as int,
                    i,
                    unsplit_parent is Some,
                ),
                self.shape().page(path@.len() as int, i) == cursor,
                unsplit_parent matches Some(step) ==> step == path@.len() - 1,
                start == old(self).shape(),
                start.wf(),
                all_due(start, helps),
                all_for(helps, key@),
                self.shape() == helped(start, helps),
                clearing(start, self.shape(), key@, path@.len() as int, i),
                quiet(start, key@) ==> {
                    &&& same_from(start, self.shape(), path@.len() as int)
                    &&& forall|j: int|
                        #![trigger path@[j]]
                        0 <= j < path@.len() ==> path@[j].1@ == start.node(j, start.home(j, key@))
                },
            decreases
                    self.shape().levels.len() - path@.len(),
                    self.shape().levels[path@.len() as int].len() - i,
                    (if self.shape().node(path@.len() as int, i).merging_child is Some {
                        1int
                    } else {
                        0int
                    }),
        {
            let ghost s = self.shape();
            let ghost l = path@.len() as int;
            proof {
                assert(s.place_ok(l, i));
            }
            let node = match self.pagecache.get(cursor) {
                PageGet::Materialized(node) => node,
                PageGet::Free => {
                    // Start over from the root.
                    cursor = self.root;
                    path = Vec::new();
                    unsplit_parent = None;
                    continue;
                },
                PageGet::Unallocated => {
                    return Err(
                        Error::ReportableBug(
                            "got non-base node while traversing tree: Unallocated".to_owned(),
                        ),
                    );
                },
            };

            // A merge has been announced: help out, and look again.
            if node.merging_child.is_some() {
                let ghost help = Help::Merge { key: key@, level: l, place: i };
                proof {
                    assert(s.placed(cursor));
                    assert(s.merging_ok(l, i));
                    lemma_merged_shape(s, l, i);
                    lemma_not_merging(s, l, i);
                    lemma_clearing_merge(start, s, key@, l, i);
                    lemma_arrived_on_the_way(s, path@, key@, l, i, unsplit_parent is Some);
                    if quiet(start, key@) {
                        lemma_stays_quiet(start, helps, key@, l, i);
                    }
                    lemma_helped_push(start, helps, help);
                    helps = helps.push(help);
                }
                let merged = self.merge_node(cursor, &node);
                proof {
                    assert(s.page(l, i) == cursor);
                    let t = self.shape();
                    assert(t == merged_shape(s, l, i));
                    assert(t.levels[l] == s.levels[l]);
                    assert forall|j: int| 0 <= j < l implies #[trigger] step_ok(
                        t,
                        path@,
                        key@,
                        j,
                    ) by {
                        assert(step_ok(s, path@, key@, j));
                        assert(t.levels[j] == s.levels[j]);
                        assert forall|k: int| #![trigger s.node(j, k)] s.place(j, k) implies t.node(
                            j,
                            k,
                        ) == s.node(j, k) by {
                            assert(t.node(j, k) == s.node(j, k));
                        }
                        lemma_steps_kept(s, t, path@, key@, j);
                    }
                    assert(t.node(l, i) == s.node(l, i).with_merge_confirmed());
                }
                match merged {
                    Ok(()) => {
                        continue;
                    },
                    Err(e) => return Err(e),
                }
            }
            // The node has been split: the key is further to the right.

            if node.is_past(key) {
                match node.next {
                    Some(next) => {
                        let ghost known = unsplit_parent is None;
                        cursor = next;
                        if unsplit_parent.is_none() && path.len() > 0 {
                            unsplit_parent = Some(path.len() - 1);
                        }
                        proof {
                            lemma_moved_right(s, path@, key@, l, i, !known);
                            lemma_clearing_right(start, s, key@, l, i);
                            i = i + 1;
                        }
                        continue;
                    },
                    None => {
                        return Err(
                            Error::ReportableBug("a bounded node has no right sibling".to_owned()),
                        );
                    },
                }
            }
            proof {
                lemma_home_is(s, l, i, key@);
            }
            if let Some(step) = unsplit_parent {
                // The parent does not know the page: tell it.
                proof {
                    assert(step_ok(s, path@, key@, l - 1));
                    lemma_known_child(s, path@, key@, l, i);
                    assert(s.place_ok(l - 1, s.home(l - 1, key@)));
                    let help = Help::Link { key: key@, level: l - 1 };
                    lemma_helped_push(start, helps, help);
                    helps = helps.push(help);
                }
                unsplit_parent = None;
                let split = ParentSplit { at: copy_bytes(node.lo.as_slice()), to: cursor };
                let linked = self.pagecache.link(
                    path[step].0,
                    &path[step].1,
                    Frag::ParentSplit(split),
                    &self.config.merge_operator,
                );
                proof {
                    let h = s.home(l - 1, key@);
                    assert(step_ok(s, path@, key@, l - 1));
                    assert(linked is Ok);
                    let after = s.node(l - 1, h).with_parent_split(s.node(l, i).lo, s.page(l, i));
                    assert(self.shape() == s.with_node(l - 1, h, after));
                    lemma_clearing_link(start, s, key@, l, i, h, after);
                }
            }
            let ghost t = self.shape();
            let ghost before = path@;
            proof {
                assert(t.wf());
                assert(t.node(l, i) == node@);
                lemma_home_is(t, l, i, key@);
            }
            path.push((cursor, node));
            proof {
                if quiet(start, key@) {
                    assert(same_from(start, t, l)) by {
                        assert forall|m: int, k: int|
                            #![trigger t.node(m, k)]
                            l <= m && start.place(m, k) implies t.node(m, k) == start.node(m, k) by {
                            assert(s.node(m, k) == start.node(m, k));
                            if l > 0 {
                                lemma_home(s, l - 1, key@);
                                assert(s.page(m, k) != s.page(l - 1, s.home(l - 1, key@)));
                            }
                        }
                    }
                    lemma_home_is(start, l, i, key@);
                    assert forall|j: int| #![trigger path@[j]] 0 <= j < path@.len() implies path@[j].1@
                        == start.node(j, start.home(j, key@)) by {
                        if j < l {
                            assert(path@[j] == before[j]);
                        }
                    }
                }
                assert forall|j: int| 0 <= j < path@.len() implies #[trigger] step_ok(
                    t,
                    path@,
                    key@,
                    j,
                ) by {
                    if j < l - 1 {
                        assert(step_ok(t, before, key@, j));
                        assert(path@[j] == before[j] && path@[j + 1] == before[j + 1]);
                    } else if j == l - 1 {
                        assert(path@[j] == before[j]);
                        assert(step_ok(s, before, key@, j));
                    }
                }
            }
            let found = path.len() - 1;
            match &path[found].1.data {
                Data::Index(pointers) => {
                    let index = binary_search_lub(
                        pointers,
                        path[found].1.lo.as_slice(),
                        key,
                    );
                    match index {
                        Some(at) => {
                            cursor = pointers[at].1;
                            proof {
                                assert(t.place_ok(l, i));
                                assert(t.pointer_ok(l, i, at as int));
                                let (lo, p) = node@.pointers()[at as int];
                                assert(t.leads_to(l + 1, p, lo));
                                let c = t.place_of(l + 1, p, lo);
                                assert(t.starts_at(l + 1, c, p, lo));
                                lemma_clearing_down(start, t, key@, l, i, at as int, c);
                                i = c;
                                lemma_entry_found(node@.pointers(), at as int);
                            }
                        },
                        None => {
                            proof {
                                assert(key_lt(key@, node@.pointers()[0].0));
                            }
                            return Err(Error::ReportableBug("failed to traverse index".to_owned()));
                        },
                    }
                },
                Data::Leaf(_) => {
                    proof {
                        assert(t.place_ok(l, i));
                        assert(searched(start, t, key@));
                        lemma_searched_tidies(start, t, key@);
                        lemma_clearing_end(start, t, key@, i);
                        if quiet(start, key@) {
                            law_search_finds_way(start, t, path@, key@);
                        }
                    }
                    return Ok(path);
                },
            }
        }
    }
}

} // verus!
