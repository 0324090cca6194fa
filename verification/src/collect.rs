//! Giving pages up: announcing merges of leaves, and removing a tree.

use crate::clearing::cleared;
use crate::entries::{lemma_rank, rank};
use crate::error::{Error, ErrorView};
use crate::help::searched;
use crate::key::group_key_order;
use crate::moves::lemma_announce;
use crate::node::{find_pointer, lemma_pointer_at, pointer_at, Data, Frag, NodeView, PageId};
use crate::pagecache::PageGet;
use crate::shape::{lemma_announcing_parent, lemma_chain_order, lemma_home, lemma_same_home, Shape};
use crate::traverse::step_ok;
use crate::tree::Tree;
use vstd::prelude::*;

verus! {

/// The shape in which the merge of the leaf of `key` has been announced.
pub open spec fn announced_shape(s: Shape, key: Seq<u8>) -> Shape {
    let b = s.bottom();
    let h = s.home(b - 1, key);
    let leaf = s.page(b, s.home(b, key));
    s.with_node(b - 1, h, NodeView { merging_child: Some(leaf), ..s.node(b - 1, h) })
}

impl<M: Fn(&[u8], Option<&[u8]>, &[u8]) -> Option<Vec<u8>>> Tree<M> {
    /// Announces that the leaf of `key` is to be merged into its left sibling, unless
    /// it is the first child of its parent. Tells whether it has been announced.
    /// Searches that come across the announcement complete the merge.
    pub fn announce_merge(&mut self, key: &[u8]) -> (r: Result<bool, Error>)
        requires
            old(self).wf(),
        ensures
            final(self).wf(),
            final(self).only_pages_changed(old(self)),
            match r {
                Ok(announced) => {
                    let t = final(self).shape();
                    let b = t.bottom();
                    let leaf = t.page(b, t.home(b, key@));
                    let parent = t.node(b - 1, t.home(b - 1, key@));
                    &&& !old(self).is_removed()
                    &&& announced == (parent.pointers()[0].1 != leaf)
                    &&& parent.merging_child == if announced {
                        Some(leaf)
                    } else {
                        None
                    }
                    &&& exists|mid: Shape|
                        {
                            &&& #[trigger] searched(old(self).shape(), mid, key@)
                            &&& cleared(old(self).shape(), mid, key@)
                            &&& t == if announced {
                                announced_shape(mid, key@)
                            } else {
                                mid
                            }
                        }
                },
                Err(e) => {
                    &&& old(self).is_removed()
                    &&& e@ == ErrorView::CollectionNotFound(old(self).spec_name())
                    &&& *final(self) == *old(self)
                },
            },
    {
        let path = match self.path_for_key(key) {
            Ok(path) => path,
            Err(e) => return Err(e),
        };
        let ghost s = self.shape();
        let ghost b = s.bottom();
        let ghost h = s.home(b - 1, key@);
        let ghost c = s.home(b, key@);
        let last: usize = path.len() - 1;
        let leaf_pid = path[last].0;
        let parent_pid = path[last - 1].0;
        proof {
            assert(step_ok(s, path@, key@, b));
            assert(step_ok(s, path@, key@, b - 1));
            lemma_home(s, b, key@);
            lemma_home(s, b - 1, key@);
            assert(s.place_ok(b - 1, h));
            assert(s.place_ok(b, c));
        }
        let parent = self.pagecache.materialized(parent_pid);
        let pointers = match &parent.data {
            Data::Index(pointers) => pointers,
            Data::Leaf(_) => return Ok(false),
        };
        let at = find_pointer(pointers, parent.lo.as_slice(), leaf_pid);
        proof {
            let known = parent@.pointers();
            let lo = path@[b].1@.lo;
            lemma_rank(known, lo);
            lemma_pointer_at(known, leaf_pid, 0);
            assert(known[rank(known, lo)].1 == leaf_pid);
        }
        if at == 0 {
            return Ok(false);
        }
        proof {
            assert forall|m: int, k: int|
                #![trigger s.node(m, k)]
                s.place(m, k) implies s.node(m, k).merging_child != Some(s.page(b - 1, h)) by {
                if s.announces(m, k, s.page(b - 1, h)) {
                    lemma_announcing_parent(s, b - 1, h, m, k, key@);
                    assert(step_ok(s, path@, key@, b - 2));
                }
            }
            lemma_announce(s, b - 1, h, at as int);
        }
        let linked = self.pagecache.link(
            parent_pid,
            &parent,
            Frag::ParentMergeIntention(leaf_pid),
            &self.config.merge_operator,
        );
        proof {
            assert(linked is Ok);
            let t = self.shape();
            let node = NodeView { merging_child: Some(leaf_pid), ..s.node(b - 1, h) };
            assert(t == s.with_node(b - 1, h, node));
            assert(searched(old(self).shape(), s, key@) && t == announced_shape(s, key@));
            assert(t.page(b - 1, h) == parent_pid);
            assert(t.page(b, c) != s.page(b - 1, h));
            assert forall|i: int| #![trigger s.node(b, i)] s.place(b, i) implies t.node(b, i)
                == s.node(b, i) by {
                assert(s.page(b, i) != s.page(b - 1, h));
            }
            assert forall|i: int| #![trigger s.node(b - 1, i)] s.place(b - 1, i) implies t.node(
                b - 1,
                i,
            ).lo == s.node(b - 1, i).lo && t.node(b - 1, i).hi == s.node(b - 1, i).hi by {
                if i != h {
                    assert(s.page(b - 1, i) != s.page(b - 1, h));
                }
            }
            lemma_same_home(s, t, b, key@);
            lemma_same_home(s, t, b - 1, key@);
            assert(node.pointers()[0].1 != leaf_pid);
        }
        Ok(true)
    }
}

/// The nodes that are left when all nodes from page `pid` on to the right have been
/// freed, and whether no page was met that does not exist.
pub open spec fn swept(nodes: Map<PageId, NodeView>, limit: nat, pid: PageId) -> (
    Map<PageId, NodeView>,
    bool,
)
    decreases nodes.dom().len(),
{
    if nodes.dom().finite() && nodes.contains_key(pid) {
        proof {
            assert(nodes.remove(pid).dom() =~= nodes.dom().remove(pid));
        }
        match nodes[pid].next {
            Some(next) => swept(nodes.remove(pid), limit, next),
            None => (nodes.remove(pid), true),
        }
    } else {
        (nodes, pid < limit)
    }
}

/// The nodes that are left when the levels that start at the pages of `chain` have
/// been freed, the last one first, and whether no page was met that does not exist.
pub open spec fn swept_all(nodes: Map<PageId, NodeView>, limit: nat, chain: Seq<PageId>) -> (
    Map<PageId, NodeView>,
    bool,
)
    decreases chain.len(),
{
    if chain.len() == 0 {
        (nodes, true)
    } else {
        let (rest, ok) = swept(nodes, limit, chain.last());
        if ok {
            swept_all(rest, limit, chain.drop_last())
        } else {
            (rest, false)
        }
    }
}

impl<M> Tree<M> {
    /// The number of pages there are for the tree, those that are free among them.
    pub open(crate) spec fn allocated(&self) -> nat {
        self.pagecache.allocated()
    }

    /// Whether the tree is in the table of roots.
    pub open(crate) spec fn is_listed(&self) -> bool {
        self.pagecache.roots().contains_key(self.tree_id@)
    }

    /// Frees the pages of a removed tree: those of `leftmost_chain`, the leftmost
    /// page of each level, and all to the right of them.
    pub fn gc_pages(&mut self, leftmost_chain: Vec<PageId>) -> (r: Result<(), Error>)
        requires
            old(self).wf(),
            old(self).is_removed(),
        ensures
            final(self).wf(),
            final(self).only_pages_changed(old(self)),
            final(self).is_listed() == old(self).is_listed(),
            (final(self).shape().nodes, r is Ok) == swept_all(
                old(self).shape().nodes,
                old(self).allocated(),
                leftmost_chain@,
            ),
            r matches Err(e) ==> e@ == ErrorView::ReportableBug(
                "got non-base node while GC'ing tree: Unallocated"@,
            ),
    {
        let ghost limit = self.allocated();
        let ghost nodes = self.pagecache@;
        let ghost whole = leftmost_chain@;
        let mut levels = leftmost_chain;
        while levels.len() > 0
            invariant
                self.wf(),
                self.is_removed(),
                self.only_pages_changed(old(self)),
                limit == self.pagecache.allocated(),
                self.pagecache.roots() == old(self).pagecache.roots(),
                swept_all(nodes, limit, whole) == swept_all(self.pagecache@, limit, levels@),
                whole == leftmost_chain@,
                nodes == old(self).shape().nodes,
                limit == old(self).allocated(),
            decreases levels@.len(),
        {
            let ghost chain = levels@;
            let ghost start = self.pagecache@;
            let mut pid = levels.pop().unwrap();
            proof {
                assert(chain.drop_last() =~= levels@);
                assert(chain.last() == pid);
            }
            let mut more: bool = true;
            while more
                invariant
                    self.wf(),
                    self.is_removed(),
                    self.only_pages_changed(old(self)),
                    limit == self.pagecache.allocated(),
                self.pagecache.roots() == old(self).pagecache.roots(),
                    more ==> swept(start, limit, chain.last()) == swept(
                        self.pagecache@,
                        limit,
                        pid,
                    ),
                    !more ==> swept(start, limit, chain.last()) == (self.pagecache@, true),
                    chain.len() > 0,
                    swept_all(nodes, limit, whole) == swept_all(start, limit, chain),
                    whole == leftmost_chain@,
                    nodes == old(self).shape().nodes,
                    limit == old(self).allocated(),
                decreases
                        (if more {
                            1 + self.pagecache@.dom().len()
                        } else {
                            0
                        }),
            {
                proof {
                    self.pagecache.lemma_wf();
                    assert(self.pagecache@.remove(pid).dom() =~= self.pagecache@.dom().remove(pid));
                }
                match self.pagecache.get(pid) {
                    PageGet::Materialized(node) => {
                        let _ = self.pagecache.free(pid, &node);
                        match node.next {
                            Some(next) => {
                                pid = next;
                            },
                            None => {
                                more = false;
                            },
                        }
                    },
                    PageGet::Free => {
                        more = false;
                    },
                    PageGet::Unallocated => {
                        return Err(
                            Error::ReportableBug("got non-base node while GC'ing tree: Unallocated".to_owned()),
                        );
                    },
                }
            }
        }
        Ok(())
    }
}

// ---------------------------------------------------------------------------
// Removing a tree.

/// Whether page `p` is on a level below level `l`, or before place `i` of it.
spec fn gone(s: Shape, l: int, i: int, p: PageId) -> bool {
    exists|m: int, j: int|
        #![trigger s.page(m, j)]
        s.place(m, j) && s.page(m, j) == p && (m > l || (m == l && j < i))
}

/// The nodes that are left when the levels below `l`, and level `l` before place
/// `i`, have been freed.
spec fn left(s: Shape, l: int, i: int) -> Map<PageId, NodeView> {
    Map::new(|p: PageId| s.nodes.contains_key(p) && !gone(s, l, i, p), |p: PageId| s.nodes[p])
}

/// The nodes of pages that are at no place.
pub open spec fn orphans(s: Shape) -> Map<PageId, NodeView> {
    Map::new(|p: PageId| s.nodes.contains_key(p) && !s.placed(p), |p: PageId| s.nodes[p])
}

/// The leftmost page of each level, from the root down.
pub open spec fn leftmost(s: Shape) -> Seq<PageId> {
    Seq::new(s.levels.len(), |l: int| s.page(l, 0))
}

/// Freeing from a place of a level on frees the rest of the level.
proof fn lemma_sweep_level(s: Shape, limit: nat, l: int, i: int)
    requires
        s.wf(),
        s.nodes.dom().finite(),
        s.place(l, i),
    ensures
        swept(left(s, l, i), limit, s.page(l, i)) == (left(s, l - 1, 0), true),
    decreases s.levels[l].len() - i,
{
    broadcast use vstd::set::group_set_axioms;

    assert(s.place_ok(l, i));
    let p = s.page(l, i);
    let nodes = left(s, l, i);
    assert(nodes.dom().subset_of(s.nodes.dom()));
    vstd::set_lib::lemma_set_subset_finite(s.nodes.dom(), nodes.dom());
    assert(!gone(s, l, i, p)) by {
        if gone(s, l, i, p) {
            let (m, j) = choose|m: int, j: int|
                #![trigger s.page(m, j)]
                s.place(m, j) && s.page(m, j) == p && (m > l || (m == l && j < i));
            assert(s.page(m, j) == s.page(l, i));
        }
    }
    assert(nodes.contains_key(p));
    assert forall|q: PageId| #[trigger]
        s.nodes.contains_key(q) implies gone(s, l, i + 1, q) == (gone(s, l, i, q) || q == p) by {
        if q == p {
            assert(s.page(l, i) == q);
        } else if gone(s, l, i + 1, q) {
            let (m, j) = choose|m: int, j: int|
                #![trigger s.page(m, j)]
                s.place(m, j) && s.page(m, j) == q && (m > l || (m == l && j < i + 1));
            assert(s.page(m, j) == q);
        } else if gone(s, l, i, q) {
            let (m, j) = choose|m: int, j: int|
                #![trigger s.page(m, j)]
                s.place(m, j) && s.page(m, j) == q && (m > l || (m == l && j < i));
            assert(s.page(m, j) == q);
        }
    }
    assert(nodes.remove(p) =~= left(s, l, i + 1));
    if i + 1 < s.levels[l].len() {
        lemma_sweep_level(s, limit, l, i + 1);
    } else {
        assert forall|q: PageId| #[trigger] s.nodes.contains_key(q) implies gone(s, l, i + 1, q)
            == gone(s, l - 1, 0, q) by {
            if gone(s, l, i + 1, q) {
                let (m, j) = choose|m: int, j: int|
                    #![trigger s.page(m, j)]
                    s.place(m, j) && s.page(m, j) == q && (m > l || (m == l && j < i + 1));
                assert(s.page(m, j) == q);
            } else if gone(s, l - 1, 0, q) {
                let (m, j) = choose|m: int, j: int|
                    #![trigger s.page(m, j)]
                    s.place(m, j) && s.page(m, j) == q && (m > l - 1 || (m == l - 1 && j < 0));
                assert(s.page(m, j) == q);
            }
        }
        assert(left(s, l, i + 1) =~= left(s, l - 1, 0));
    }
}

proof fn lemma_sweep_levels(s: Shape, limit: nat, n: int)
    requires
        s.wf(),
        s.nodes.dom().finite(),
        0 <= n <= s.levels.len(),
    ensures
        swept_all(left(s, n - 1, 0), limit, leftmost(s).take(n)) == (left(s, -1, 0), true),
    decreases n,
{
    if n > 0 {
        let chain = leftmost(s).take(n);
        assert(s.levels[n - 1].len() > 0);
        lemma_sweep_level(s, limit, n - 1, 0);
        lemma_sweep_levels(s, limit, n - 1);
        assert(chain.drop_last() =~= leftmost(s).take(n - 1));
        assert(chain.last() == s.page(n - 1, 0));
    }
}

/// Freeing all levels of a tree frees every page that is at a place.
pub proof fn law_sweep(s: Shape, limit: nat)
    requires
        s.wf(),
        s.nodes.dom().finite(),
    ensures
        swept_all(s.nodes, limit, leftmost(s)) == (orphans(s), true),
{
    let n = s.levels.len() as int;
    lemma_sweep_levels(s, limit, n);
    assert(leftmost(s).take(n) =~= leftmost(s));
    let b = n - 1;
    assert forall|p: PageId| !(#[trigger] gone(s, b, 0, p)) by {
        if gone(s, b, 0, p) {
            let (m, j) = choose|m: int, j: int|
                #![trigger s.page(m, j)]
                s.place(m, j) && s.page(m, j) == p && (m > b || (m == b && j < 0));
        }
    }
    assert(left(s, b, 0) =~= s.nodes);
    assert forall|p: PageId| #[trigger] s.placed(p) == gone(s, -1, 0, p) by {
        if s.placed(p) {
            let (m, j) = choose|m: int, j: int|
                #![trigger s.page(m, j)]
                s.place(m, j) && s.page(m, j) == p;
            assert(s.page(m, j) == p);
        }
        if gone(s, -1, 0, p) {
            let (m, j) = choose|m: int, j: int|
                #![trigger s.page(m, j)]
                s.place(m, j) && s.page(m, j) == p && (m > -1 || (m == -1 && j < 0));
            assert(s.page(m, j) == p);
        }
    }
    assert(left(s, -1, 0) =~= orphans(s));
}

impl<M> Tree<M> {
    /// The leftmost page of each level, from the root down.
    pub(crate) fn leftmost_chain(&self) -> (chain: Vec<PageId>)
        requires
            self.wf(),
            !self.is_removed(),
        ensures
            chain@ == leftmost(self.shape()),
    {
        let ghost s = self.shape();
        let mut chain: Vec<PageId> = Vec::new();
        let mut pid: PageId = self.root;
        let mut more: bool = true;
        proof {
            assert(s.levels[0].len() > 0);
            assert(chain@ =~= leftmost(s).take(0));
        }
        while more
            invariant
                self.wf(),
                !self.is_removed(),
                s == self.shape(),
                chain@ == leftmost(s).take(chain@.len() as int),
                chain@.len() <= s.levels.len(),
                more ==> chain@.len() < s.levels.len() && pid == s.page(chain@.len() as int, 0),
                !more ==> chain@.len() == s.levels.len(),
            decreases
                    (if more {
                        1 + s.levels.len() - chain@.len()
                    } else {
                        0
                    }),
        {
            let ghost l = chain@.len() as int;
            proof {
                assert(s.levels[l].len() > 0);
                assert(s.place_ok(l, 0));
            }
            let node = self.pagecache.materialized(pid);
            chain.push(pid);
            proof {
                assert(chain@ =~= leftmost(s).take(l + 1));
            }
            match &node.data {
                Data::Index(pointers) => {
                    pid = pointers[0].1;
                    proof {
                        lemma_first_child(s, l);
                    }
                },
                Data::Leaf(_) => {
                    more = false;
                },
            }
        }
        proof {
            assert(leftmost(s).take(s.levels.len() as int) =~= leftmost(s));
        }
        chain
    }

    /// Removes the tree and frees its pages. Tells whether there was anything to remove.
    pub fn remove(&mut self) -> (r: bool)
        requires
            old(self).wf(),
        ensures
            final(self).wf(),
            final(self).is_removed(),
            r == !old(self).is_removed(),
            !r ==> *final(self) == *old(self),
            r ==> {
                &&& !final(self).is_listed()
                &&& final(self).shape().nodes == orphans(old(self).shape())
                &&& final(self).spec_name() == old(self).spec_name()
                &&& final(self).setup() == old(self).setup()
                &&& final(self).watchers() == old(self).watchers()
                &&& final(self).journal() == old(self).journal()
                &&& final(self).flushed_journal() == old(self).flushed_journal()
            },
            final(self)@ == Map::<Seq<u8>, Seq<u8>>::empty(),
            r ==> forall|l: int, i: int|
                #![trigger old(self).shape().levels[l][i]]
                0 <= l < old(self).shape().levels.len() && 0 <= i < old(
                    self,
                ).shape().levels[l].len() ==> !final(self).shape().nodes.contains_key(
                    old(self).shape().levels[l][i],
                ),
    {
        if self.root == u64::MAX {
            return false;
        }
        let ghost s = self.shape();
        let chain = self.leftmost_chain();
        proof {
            self.pagecache.lemma_wf();
        }
        let _ = self.pagecache.cas_root_in_meta(
            self.tree_id.as_slice(),
            Some(self.root),
            None,
        );
        proof {
            law_sweep(s, self.pagecache.allocated());
        }
        self.root = u64::MAX;
        let _ = self.gc_pages(chain);
        proof {
            assert forall|l: int, i: int|
                #![trigger s.levels[l][i]]
                0 <= l < s.levels.len() && 0 <= i < s.levels[l].len() implies !orphans(
                s,
            ).contains_key(s.levels[l][i]) by {
                assert(s.place(l, i) && s.page(l, i) == s.levels[l][i]);
            }
        }
        true
    }
}

/// The first child of the first node of a level is the first node of the level below.
proof fn lemma_first_child(s: Shape, l: int)
    requires
        s.wf(),
        0 <= l < s.bottom(),
    ensures
        s.node(l, 0).pointers().len() > 0,
        s.node(l, 0).pointers()[0].1 == s.page(l + 1, 0),
{
    broadcast use group_key_order;

    assert(s.levels[l].len() > 0);
    assert(s.levels[l + 1].len() > 0);
    assert(s.place_ok(l, 0));
    assert(s.place_ok(l + 1, 0));
    assert(s.merging_ok(l, 0));
    assert(s.pointer_ok(l, 0, 0));
    let (lo, p) = s.node(l, 0).pointers()[0];
    assert(pointer_at(s.node(l, 0).pointers(), p, 0) == 0);
    assert(s.leads_to(l + 1, p, lo));
    let c = s.place_of(l + 1, p, lo);
    assert(s.starts_at(l + 1, c, p, lo));
    if c > 0 {
        lemma_chain_order(s, l + 1, 0, c);
        assert(s.node(l + 1, 0).lo =~= lo);
    }
}

} // verus!
