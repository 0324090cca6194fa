//! The shape of the tree: levels of nodes, each level a chain from left to right.
//!
//! A level covers all keys. An index node points to nodes of the level below, but
//! need not point to all of them: a node that has just been split off is reached
//! from its left sibling until its parent knows it. A child that is being merged
//! into its left sibling is named by its parent until the parent drops it.

use crate::key::{group_key_order, key_le, key_lt, lemma_empty_key_is_least};
use crate::node::{lemma_pointer_at, lemma_with_value, pointer_at, NodeView, PageId};
use vstd::prelude::*;

verus! {

/// Nodes by their pages, and the pages level by level, the root level first.
#[verifier::ext_equal]
pub struct Shape {
    /// The nodes.
    pub nodes: Map<PageId, NodeView>,
    /// The pages of each level, from left to right.
    pub levels: Seq<Seq<PageId>>,
}

impl Shape {
    /// Whether level `l` has a place `i`.
    pub open spec fn place(self, l: int, i: int) -> bool {
        0 <= l < self.levels.len() && 0 <= i < self.levels[l].len()
    }

    /// The page at place `i` of level `l`.
    pub open spec fn page(self, l: int, i: int) -> PageId {
        self.levels[l][i]
    }

    /// The node at place `i` of level `l`.
    pub open spec fn node(self, l: int, i: int) -> NodeView {
        self.nodes[self.page(l, i)]
    }

    /// The level of the leaves.
    pub open spec fn bottom(self) -> int {
        self.levels.len() - 1
    }

    /// Whether page `p` is at some place.
    pub open spec fn placed(self, p: PageId) -> bool {
        exists|l: int, i: int| #![trigger self.page(l, i)] self.place(l, i) && self.page(l, i) == p
    }

    /// Whether page `p` holds a node whose left sibling has taken over from it.
    pub open spec fn absorbed(self, p: PageId) -> bool {
        self.nodes.contains_key(p) && self.nodes[p].merging && !self.placed(p)
    }

    /// The node at a place is well formed, stands on its level, and is linked to
    /// its right sibling: keys leave off in the one where they start in the other.
    pub open spec fn place_ok(self, l: int, i: int) -> bool {
        let node = self.node(l, i);
        &&& self.nodes.contains_key(self.page(l, i))
        &&& node.ok()
        &&& node.is_leaf() == (l == self.bottom())
        &&& i == 0 ==> node.lo.len() == 0
        &&& if i + 1 < self.levels[l].len() {
            &&& node.next == Some(self.page(l, i + 1))
            &&& node.hi == self.node(l, i + 1).lo
            &&& node.hi.len() > 0
        } else {
            &&& node.next is None
            &&& node.hi.len() == 0
        }
    }

    /// Page `p`, at place `c` of level `l`, holds a node that starts at `key`.
    pub open spec fn starts_at(self, l: int, c: int, p: PageId, key: Seq<u8>) -> bool {
        self.place(l, c) && self.page(l, c) == p && self.node(l, c).lo == key
    }

    /// Page `p` is on level `l` and holds a node that starts at `key`.
    pub open spec fn leads_to(self, l: int, p: PageId, key: Seq<u8>) -> bool {
        exists|c: int| self.starts_at(l, c, p, key)
    }

    /// The place of page `p` on level `l`.
    pub open spec fn place_of(self, l: int, p: PageId, key: Seq<u8>) -> int {
        choose|c: int| self.starts_at(l, c, p, key)
    }

    /// Pointer `j` of an index node leads to a node of the level below that starts
    /// at the separator, or to the child that is being merged.
    pub open spec fn pointer_ok(self, l: int, i: int, j: int) -> bool {
        let (key, p) = self.node(l, i).pointers()[j];
        ||| self.leads_to(l + 1, p, key)
        ||| {
            &&& self.node(l, i).merging_child == Some(p)
            &&& self.absorbed(p)
            &&& self.nodes[p].lo == key
        }
    }

    /// A child that is being merged is known to its parent, is not the parent's
    /// first child, and is not itself a parent of a child that is being merged.
    pub open spec fn merging_ok(self, l: int, i: int) -> bool {
        self.node(l, i).merging_child matches Some(child) ==> {
            &&& l != self.bottom()
            &&& 0 < pointer_at(self.node(l, i).pointers(), child, 0) < self.node(
                l,
                i,
            ).pointers().len()
            &&& self.nodes[child].merging_child is None
        }
    }

    /// Place `k` of level `l` announces the merge of page `p`.
    pub open spec fn announces(self, l: int, k: int, p: PageId) -> bool {
        self.place(l, k) && self.node(l, k).merging_child == Some(p)
    }

    /// A node of level `l` announces the merge of page `p`.
    pub open spec fn announced(self, l: int, p: PageId) -> bool {
        exists|k: int| self.announces(l, k, p)
    }

    /// The place of level `l` that announces the merge of page `p`.
    pub open spec fn announcer(self, l: int, p: PageId) -> int {
        choose|k: int| self.announces(l, k, p)
    }

    /// A node that is marked as being merged has been announced by its parent.
    pub open spec fn capped_ok(self, l: int, i: int) -> bool {
        self.node(l, i).merging ==> self.announced(l - 1, self.page(l, i))
    }

    /// The shape is that of a tree in which splits and merges may be under way.
    pub open spec fn wf(self) -> bool {
        &&& self.levels.len() > 0
        &&& forall|l: int| 0 <= l < self.levels.len() ==> #[trigger] self.levels[l].len() > 0
        &&& forall|l: int, i: int| self.place(l, i) ==> #[trigger] self.place_ok(l, i)
        &&& forall|l: int, i: int, j: int|
            self.place(l, i) && l != self.bottom() && 0 <= j < self.node(l, i).pointers().len()
                ==> #[trigger] self.pointer_ok(l, i, j)
        &&& forall|l: int, i: int| self.place(l, i) ==> #[trigger] self.merging_ok(l, i)
        &&& forall|l: int, i: int| self.place(l, i) ==> #[trigger] self.capped_ok(l, i)
        &&& self.distinct()
        &&& forall|p: PageId| #[trigger]
            self.nodes.contains_key(p) ==> self.placed(p) || self.absorbed(p)
    }

    /// No page is at two places.
    pub open spec fn distinct(self) -> bool {
        forall|l: int, i: int, m: int, j: int|
            #![trigger self.page(l, i), self.page(m, j)]
            self.place(l, i) && self.place(m, j) && self.page(l, i) == self.page(m, j) ==> l == m
                && i == j
    }

    /// The place, on level `l`, of the node in which `key` belongs.
    pub open spec fn home(self, l: int, key: Seq<u8>) -> int {
        choose|i: int| #![trigger self.node(l, i)] self.place(l, i) && self.node(l, i).covers(key)
    }

    /// The leaf in which `key` belongs.
    pub open spec fn leaf(self, key: Seq<u8>) -> NodeView {
        self.node(self.bottom(), self.home(self.bottom(), key))
    }

    /// The map that the leaves stand for.
    pub open spec fn contents(self) -> Map<Seq<u8>, Seq<u8>> {
        Map::new(
            |key: Seq<u8>| self.leaf(key).contents().contains_key(key),
            |key: Seq<u8>| self.leaf(key).contents()[key],
        )
    }

    /// The shape with another node at a place.
    pub open spec fn with_node(self, l: int, i: int, node: NodeView) -> Shape {
        Shape { nodes: self.nodes.insert(self.page(l, i), node), ..self }
    }
}

// ---------------------------------------------------------------------------
// The chain of a level.

/// Along a level, nodes leave off before later nodes start.
pub proof fn lemma_chain_order(s: Shape, l: int, i: int, j: int)
    requires
        s.wf(),
        s.place(l, i),
        s.place(l, j),
        i < j,
    ensures
        s.node(l, i).hi.len() > 0,
        key_lt(s.node(l, i).lo, s.node(l, i).hi),
        key_le(s.node(l, i).hi, s.node(l, j).lo),
        key_lt(s.node(l, i).lo, s.node(l, j).lo),
    decreases j - i,
{
    broadcast use group_key_order;

    assert(s.place_ok(l, i));
    if i + 1 < j {
        lemma_chain_order(s, l, i + 1, j);
    }
}

/// No two nodes of a level cover the same key.
pub proof fn lemma_home_unique(s: Shape, l: int, i: int, j: int, key: Seq<u8>)
    requires
        s.wf(),
        s.place(l, i),
        s.place(l, j),
        s.node(l, i).covers(key),
        s.node(l, j).covers(key),
    ensures
        i == j,
{
    broadcast use group_key_order;

    if i < j {
        lemma_chain_order(s, l, i, j);
    } else if j < i {
        lemma_chain_order(s, l, j, i);
    }
}

proof fn lemma_home_from(s: Shape, l: int, i: int, key: Seq<u8>)
    requires
        s.wf(),
        s.place(l, i),
        key_le(s.node(l, i).lo, key),
    ensures
        exists|h: int| i <= h && s.place(l, h) && #[trigger] s.node(l, h).covers(key),
    decreases s.levels[l].len() - i,
{
    broadcast use group_key_order;

    assert(s.place_ok(l, i));
    if !s.node(l, i).covers(key) {
        lemma_home_from(s, l, i + 1, key);
        let h = choose|h: int| i + 1 <= h && s.place(l, h) && #[trigger] s.node(l, h).covers(key);
        assert(s.node(l, h).covers(key));
    }
}

/// On each level one node covers a key.
pub proof fn lemma_home(s: Shape, l: int, key: Seq<u8>)
    requires
        s.wf(),
        0 <= l < s.levels.len(),
    ensures
        s.place(l, s.home(l, key)),
        s.node(l, s.home(l, key)).covers(key),
{
    assert(s.levels[l].len() > 0);
    assert(s.place_ok(l, 0));
    lemma_empty_key_is_least(key);
    assert(s.node(l, 0).lo =~= Seq::empty());
    lemma_home_from(s, l, 0, key);
}

/// A node that covers a key is the key's home.
pub proof fn lemma_home_is(s: Shape, l: int, i: int, key: Seq<u8>)
    requires
        s.wf(),
        s.place(l, i),
        s.node(l, i).covers(key),
    ensures
        s.home(l, key) == i,
{
    lemma_home(s, l, key);
    lemma_home_unique(s, l, i, s.home(l, key), key);
}

/// A level that keeps its pages and their bounds keeps its keys where they were.
pub proof fn lemma_same_home(s: Shape, t: Shape, l: int, key: Seq<u8>)
    requires
        s.wf(),
        t.wf(),
        0 <= l < s.levels.len(),
        l < t.levels.len(),
        s.levels[l] == t.levels[l],
        forall|i: int|
            #![trigger s.node(l, i)]
            s.place(l, i) ==> s.node(l, i).lo == t.node(l, i).lo && s.node(l, i).hi == t.node(
                l,
                i,
            ).hi,
    ensures
        t.home(l, key) == s.home(l, key),
{
    lemma_home(s, l, key);
    let h = s.home(l, key);
    assert(t.place(l, h));
    assert(t.node(l, h).covers(key));
    lemma_home_is(t, l, h, key);
}

/// A child does not reach past its parent.
pub proof fn lemma_child_bound(s: Shape, l: int, i: int, c: int)
    requires
        s.wf(),
        s.place(l, i),
        s.place(l + 1, c),
        s.node(l, i).covers(s.node(l + 1, c).lo),
        s.node(l, i).hi.len() > 0,
    ensures
        s.node(l + 1, c).hi.len() > 0,
        key_le(s.node(l + 1, c).hi, s.node(l, i).hi),
{
    broadcast use group_key_order;

    assert(s.place_ok(l, i));
    assert(s.place(l, i + 1));
    assert(s.place_ok(l, i + 1));
    let next = s.node(l, i + 1);
    let (key, q) = next.pointers()[0];
    assert(s.pointer_ok(l, i + 1, 0));
    assert(s.merging_ok(l, i + 1));
    if !s.leads_to(l + 1, q, key) {
        assert(pointer_at(next.pointers(), q, 0) == 0);
    }
    let d = s.place_of(l + 1, q, key);
    assert(s.starts_at(l + 1, d, q, key));
    if d < c {
        lemma_chain_order(s, l + 1, d, c);
    } else if c < d {
        lemma_chain_order(s, l + 1, c, d);
    }
}

/// A node that announces the merge of a page is the parent of the keys of that page.
pub proof fn lemma_announcing_parent(s: Shape, l: int, i: int, m: int, k: int, key: Seq<u8>)
    requires
        s.wf(),
        s.place(l, i),
        s.node(l, i).covers(key),
        s.announces(m, k, s.page(l, i)),
    ensures
        m == l - 1,
        k == s.home(m, key),
{
    broadcast use group_key_order;

    let p = s.page(l, i);
    assert(s.merging_ok(m, k));
    assert(s.place_ok(m, k));
    let parent = s.node(m, k);
    let j = pointer_at(parent.pointers(), p, 0);
    lemma_pointer_at(parent.pointers(), p, 0);
    assert(s.pointer_ok(m, k, j));
    assert(s.placed(p));
    assert(s.leads_to(m + 1, p, parent.pointers()[j].0));
    assert(parent.covers(parent.pointers()[j].0));
    let c = s.place_of(m + 1, p, parent.pointers()[j].0);
    assert(s.page(m + 1, c) == s.page(l, i));
    if parent.hi.len() > 0 {
        lemma_child_bound(s, m, k, i);
    }
    assert(parent.covers(key));
    lemma_home_is(s, m, k, key);
}

/// A node that is marked as being merged is announced by the parent of its keys.
pub proof fn lemma_capped_parent(s: Shape, l: int, i: int, key: Seq<u8>)
    requires
        s.wf(),
        s.place(l, i),
        s.node(l, i).covers(key),
        s.node(l, i).merging,
    ensures
        l > 0,
        s.node(l - 1, s.home(l - 1, key)).merging_child == Some(s.page(l, i)),
{
    assert(s.capped_ok(l, i));
    let p = s.page(l, i);
    let k = s.announcer(l - 1, p);
    assert(s.announces(l - 1, k, p));
    lemma_announcing_parent(s, l, i, l - 1, k, key);
}

/// What a leaf holds is what the tree holds for the keys that belong in the leaf.
pub proof fn lemma_leaf_contents(s: Shape, i: int, key: Seq<u8>)
    requires
        s.wf(),
        s.place(s.bottom(), i),
        s.node(s.bottom(), i).covers(key),
    ensures
        s.contents().contains_key(key) == s.node(s.bottom(), i).contents().contains_key(key),
        s.contents().contains_key(key) ==> s.contents()[key] == s.node(
            s.bottom(),
            i,
        ).contents()[key],
{
    lemma_home_is(s, s.bottom(), i, key);
}

// ---------------------------------------------------------------------------
// Changes to one node.

/// Changing a node in place keeps the shape, as long as the node keeps its bounds
/// and its links, and the pointers that it ends up with lead where they should.
pub proof fn lemma_with_node(s: Shape, l: int, i: int, node: NodeView)
    requires
        s.wf(),
        s.place(l, i),
        node.ok(),
        node.is_leaf() == s.node(l, i).is_leaf(),
        node.lo == s.node(l, i).lo,
        node.hi == s.node(l, i).hi,
        node.next == s.node(l, i).next,
        node.merging_child is Some ==> s.node(l, i).merging_child is Some || (forall|m: int, j: int|
            #![trigger s.node(m, j)]
            s.place(m, j) ==> s.node(m, j).merging_child != Some(s.page(l, i))),
        s.node(l, i).merging_child matches Some(q) ==> node.merging_child == Some(q)
            || !s.placed(q),
        node.merging ==> s.node(l, i).merging || s.announced(l - 1, s.page(l, i)),
        s.with_node(l, i, node).merging_ok(l, i),
        l != s.bottom() ==> forall|j: int|
            0 <= j < node.pointers().len() ==> #[trigger] s.with_node(l, i, node).pointer_ok(
                l,
                i,
                j,
            ),
    ensures
        s.with_node(l, i, node).wf(),
{
    let t = s.with_node(l, i, node);
    let p = s.page(l, i);
    assert(s.place_ok(l, i));
    assert forall|m: int, j: int| t.place(m, j) implies (if m == l && j == i {
        t.node(m, j) == node
    } else {
        #[trigger] t.node(m, j) == s.node(m, j)
    }) by {
        assert(t.page(m, j) == s.page(m, j));
        assert(s.page(l, i) == p);
    }
    assert forall|m: int, j: int| t.place(m, j) implies #[trigger] t.place_ok(m, j) by {
        assert(s.place_ok(m, j));
        assert(t.page(m, j) == s.page(m, j));
        if j + 1 < t.levels[m].len() {
            assert(t.node(m, j + 1).lo == s.node(m, j + 1).lo);
        }
    }
    assert forall|q: PageId| #[trigger] t.placed(q) == s.placed(q) by {
        if s.placed(q) {
            let (m, j) = choose|m: int, j: int|
                #![trigger s.page(m, j)]
                s.place(m, j) && s.page(m, j) == q;
            assert(t.place(m, j) && t.page(m, j) == q);
        }
        if t.placed(q) {
            let (m, j) = choose|m: int, j: int|
                #![trigger t.page(m, j)]
                t.place(m, j) && t.page(m, j) == q;
            assert(s.place(m, j) && s.page(m, j) == q);
        }
    }
    assert(s.placed(p));
    assert forall|q: PageId| #[trigger] t.absorbed(q) == s.absorbed(q) by {
        assert(t.placed(q) == s.placed(q));
    }
    assert forall|m: int, j: int, k: int|
        t.place(m, j) && m != t.bottom() && 0 <= k < t.node(m, j).pointers().len() implies #[trigger] t.pointer_ok(
        m,
        j,
        k,
    ) by {
        if m == l && j == i {
        } else {
            assert(s.pointer_ok(m, j, k));
            let (key, q) = s.node(m, j).pointers()[k];
            if s.leads_to(m + 1, q, key) {
                let c = s.place_of(m + 1, q, key);
                assert(t.starts_at(m + 1, c, q, key));
            } else {
                assert(t.absorbed(q) == s.absorbed(q));
                assert(q != p);
            }
        }
    }
    assert forall|m: int, j: int| t.place(m, j) implies #[trigger] t.merging_ok(m, j) by {
        assert(s.merging_ok(m, j));
        assert(t.node(m, j) == (if m == l && j == i { node } else { s.node(m, j) }));
    }
    assert forall|m: int, j: int| t.place(m, j) implies #[trigger] t.capped_ok(m, j) by {
        assert(s.capped_ok(m, j));
        let q = s.page(m, j);
        assert(t.page(m, j) == q);
        if t.node(m, j).merging {
            assert(t.node(m, j) == (if m == l && j == i { node } else { s.node(m, j) }));
            assert(s.announced(m - 1, q));
            let k = s.announcer(m - 1, q);
            assert(t.node(m - 1, k) == (if m - 1 == l && k == i { node } else { s.node(m - 1, k) }));
            assert(s.placed(q));
            assert(t.announces(m - 1, k, q));
        }
    }
    assert(t.distinct()) by {
        assert forall|a: int, b: int, c: int, d: int|
            #![trigger t.page(a, b), t.page(c, d)]
            t.place(a, b) && t.place(c, d) && t.page(a, b) == t.page(c, d) implies a == c && b
            == d by {
            assert(s.page(a, b) == s.page(c, d));
        }
    }
    assert forall|q: PageId| #[trigger] t.nodes.contains_key(q) implies t.placed(q) || t.absorbed(
        q,
    ) by {
        assert(s.nodes.contains_key(q));
        assert(t.placed(q) == s.placed(q));
        assert(t.absorbed(q) == s.absorbed(q));
    }
}

/// Changing a node in place leaves keys in the nodes in which they were.
pub proof fn lemma_with_node_home(s: Shape, l: int, i: int, node: NodeView, key: Seq<u8>)
    requires
        s.wf(),
        s.place(l, i),
        s.with_node(l, i, node).wf(),
        node.lo == s.node(l, i).lo,
        node.hi == s.node(l, i).hi,
    ensures
        ({
            let t = s.with_node(l, i, node);
            let h = s.home(s.bottom(), key);
            &&& t.home(t.bottom(), key) == h
            &&& l == s.bottom() && h == i ==> t.leaf(key) == node && s.leaf(key) == s.node(l, i)
            &&& !(l == s.bottom() && h == i) ==> t.leaf(key) == s.leaf(key)
        }),
{
    let t = s.with_node(l, i, node);
    let b = s.bottom();
    lemma_home(s, b, key);
    let h = s.home(b, key);
    assert(s.page(b, h) == t.page(b, h));
    assert(t.place(b, h));
    if !(l == b && h == i) {
        assert(s.page(l, i) != s.page(b, h));
    }
    assert(t.node(b, h).covers(key));
    lemma_home_is(t, b, h, key);
}

/// Changing a node above the leaves leaves the contents as they were.
pub proof fn lemma_with_node_contents(s: Shape, l: int, i: int, node: NodeView)
    requires
        s.wf(),
        s.place(l, i),
        s.with_node(l, i, node).wf(),
        node.lo == s.node(l, i).lo,
        node.hi == s.node(l, i).hi,
        l == s.bottom() ==> node.contents() == s.node(l, i).contents(),
    ensures
        s.with_node(l, i, node).contents() == s.contents(),
{
    let t = s.with_node(l, i, node);
    assert forall|key: Seq<u8>| #[trigger] s.leaf(key).contents() == t.leaf(key).contents() by {
        lemma_with_node_home(s, l, i, node, key);
    }
    assert(t.contents() =~= s.contents());
}

/// Changing what a leaf holds for a key changes what the tree holds for that key alone.
pub proof fn lemma_put_value(s: Shape, i: int, key: Seq<u8>, value: Option<Seq<u8>>)
    requires
        s.wf(),
        s.place(s.bottom(), i),
        s.node(s.bottom(), i).covers(key),
    ensures
        ({
            let b = s.bottom();
            let t = s.with_node(b, i, s.node(b, i).with_value(key, value));
            &&& t.wf()
            &&& t.contents() == match value {
                Some(v) => s.contents().insert(key, v),
                None => s.contents().remove(key),
            }
        }),
{
    let b = s.bottom();
    let n = s.node(b, i);
    let node = n.with_value(key, value);
    assert(s.place_ok(b, i));
    assert(s.merging_ok(b, i));
    lemma_with_value(n, key, value);
    let t = s.with_node(b, i, node);
    assert(t.node(b, i) == node);
    lemma_with_node(s, b, i, node);
    let after = match value {
        Some(v) => s.contents().insert(key, v),
        None => s.contents().remove(key),
    };
    assert forall|k: Seq<u8>| #[trigger] t.contents().contains_key(k) == after.contains_key(k) && (
    after.contains_key(k) ==> t.contents()[k] == after[k]) by {
        lemma_with_node_home(s, b, i, node, k);
        if k == key {
            lemma_home_is(s, b, i, key);
        }
    }
    assert(t.contents() =~= after);
}

/// Marking a node as being merged keeps the shape and the contents.
pub proof fn lemma_cap(s: Shape, l: int, i: int)
    requires
        s.wf(),
        s.place(l, i),
        s.announced(l - 1, s.page(l, i)),
    ensures
        s.with_node(l, i, NodeView { merging: true, ..s.node(l, i) }).wf(),
        s.with_node(l, i, NodeView { merging: true, ..s.node(l, i) }).contents() == s.contents(),
{
    let node = NodeView { merging: true, ..s.node(l, i) };
    let t = s.with_node(l, i, node);
    assert(s.place_ok(l, i));
    assert(s.merging_ok(l, i));
    assert(t.node(l, i) == node);
    assert(t.merging_ok(l, i)) by {
        if let Some(child) = node.merging_child {
            assert(t.nodes[child].merging_child is None);
        }
    }
    if l != s.bottom() {
        lemma_kept_pointers(s, l, i, node);
    }
    lemma_with_node(s, l, i, node);
    lemma_with_node_contents(s, l, i, node);
}

/// A pointer that a node keeps leads where it led.
pub proof fn lemma_kept_pointer(s: Shape, l: int, i: int, node: NodeView, j: int, k: int)
    requires
        s.wf(),
        s.place(l, i),
        l != s.bottom(),
        !node.is_leaf(),
        node.lo == s.node(l, i).lo,
        0 <= j < node.pointers().len(),
        0 <= k < s.node(l, i).pointers().len(),
        node.pointers()[j] == s.node(l, i).pointers()[k],
        node.merging_child == s.node(l, i).merging_child || s.node(l, i).merging_child != Some(
            node.pointers()[j].1,
        ),
    ensures
        s.with_node(l, i, node).pointer_ok(l, i, j),
{
    let t = s.with_node(l, i, node);
    let p = s.page(l, i);
    assert(s.place_ok(l, i));
    assert(t.node(l, i) == node);
    assert(s.pointer_ok(l, i, k));
    let (key, q) = node.pointers()[j];
    if s.leads_to(l + 1, q, key) {
        let c = s.place_of(l + 1, q, key);
        assert(t.page(l + 1, c) == s.page(l + 1, c));
        assert(s.page(l, i) != s.page(l + 1, c));
        assert(t.starts_at(l + 1, c, q, key));
    } else {
        assert(s.absorbed(q));
        assert(s.placed(p));
        assert(q != p);
        if t.placed(q) {
            let (m, d) = choose|m: int, d: int|
                #![trigger t.page(m, d)]
                t.place(m, d) && t.page(m, d) == q;
            assert(s.place(m, d) && s.page(m, d) == q);
        }
    }
}

/// Pointers that a node keeps lead where they led.
pub proof fn lemma_kept_pointers(s: Shape, l: int, i: int, node: NodeView)
    requires
        s.wf(),
        s.place(l, i),
        l != s.bottom(),
        !node.is_leaf(),
        node.lo == s.node(l, i).lo,
        node.pointers() == s.node(l, i).pointers(),
        node.merging_child == s.node(l, i).merging_child,
    ensures
        forall|j: int|
            0 <= j < node.pointers().len() ==> #[trigger] s.with_node(l, i, node).pointer_ok(
                l,
                i,
                j,
            ),
{
    assert forall|j: int| 0 <= j < node.pointers().len() implies #[trigger] s.with_node(
        l,
        i,
        node,
    ).pointer_ok(l, i, j) by {
        lemma_kept_pointer(s, l, i, node, j, j);
    }
}

} // verus!
