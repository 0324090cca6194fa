//! The steps by which the tree changes its shape: splits, merges and new roots.

use crate::entries::{holds_key, lemma_append, lemma_rank, rank};
use crate::key::{group_key_order, key_lt, lemma_empty_key_is_least};
use crate::node::{
    lemma_halves, lemma_pointer_at, lemma_with_merge_confirmed, lemma_with_parent_split,
    lemma_with_right_sibling, pointer_at, DataView, NodeView, PageId,
};
use crate::shape::{
    lemma_chain_order, lemma_home, lemma_home_is, lemma_home_unique, lemma_kept_pointer,
    lemma_with_node, lemma_with_node_contents, Shape,
};
use vstd::prelude::*;

verus! {

/// A parent may come to know a child that starts at a key of the parent.
pub proof fn lemma_index_child(s: Shape, l: int, i: int, c: int)
    requires
        s.wf(),
        s.place(l, i),
        l != s.bottom(),
        s.place(l + 1, c),
        s.node(l, i).covers(s.node(l + 1, c).lo),
        s.node(l, i).merging_child is None,
        !holds_key(s.node(l, i).pointers(), s.node(l + 1, c).lo),
    ensures
        ({
            let node = s.node(l, i).with_parent_split(s.node(l + 1, c).lo, s.page(l + 1, c));
            let t = s.with_node(l, i, node);
            &&& t.wf()
            &&& t.contents() == s.contents()
        }),
{
    let n = s.node(l, i);
    let at = s.node(l + 1, c).lo;
    let to = s.page(l + 1, c);
    let node = n.with_parent_split(at, to);
    let t = s.with_node(l, i, node);
    assert(s.place_ok(l, i));
    lemma_with_parent_split(n, at, to);
    lemma_rank(n.pointers(), at);
    let r = rank(n.pointers(), at);
    assert(t.node(l, i) == node);
    assert forall|j: int| 0 <= j < node.pointers().len() implies #[trigger] t.pointer_ok(l, i, j) by {
        if j == r {
            assert(node.pointers()[j] == (at, to));
            assert(s.page(l, i) != s.page(l + 1, c));
            assert(t.starts_at(l + 1, c, to, at));
        } else {
            let k = if j < r {
                j
            } else {
                j - 1
            };
            assert(node.pointers()[j] == n.pointers()[k]);
            lemma_kept_pointer(s, l, i, node, j, k);
        }
    }
    lemma_with_node(s, l, i, node);
    lemma_with_node_contents(s, l, i, node);
}

/// Two pointers of one node never lead to the same page.
pub proof fn lemma_pointers_distinct(s: Shape, l: int, i: int, j: int, k: int)
    requires
        s.wf(),
        s.place(l, i),
        l != s.bottom(),
        0 <= j < s.node(l, i).pointers().len(),
        0 <= k < s.node(l, i).pointers().len(),
        s.node(l, i).pointers()[j].1 == s.node(l, i).pointers()[k].1,
    ensures
        j == k,
{
    broadcast use group_key_order;

    assert(s.place_ok(l, i));
    assert(s.pointer_ok(l, i, j));
    assert(s.pointer_ok(l, i, k));
    let q = s.node(l, i).pointers()[j].1;
    let a = s.node(l, i).pointers()[j].0;
    let b = s.node(l, i).pointers()[k].0;
    if s.leads_to(l + 1, q, a) {
        let c = s.place_of(l + 1, q, a);
        assert(s.page(l + 1, c) == q);
        assert(s.placed(q));
    }
    if s.leads_to(l + 1, q, b) {
        let c = s.place_of(l + 1, q, b);
        assert(s.page(l + 1, c) == q);
        assert(s.placed(q));
    }
    assert(a == s.nodes[q].lo && b == s.nodes[q].lo);
    if j < k {
        assert(key_lt(s.node(l, i).pointers()[j].0, s.node(l, i).pointers()[k].0));
    } else if k < j {
        assert(key_lt(s.node(l, i).pointers()[k].0, s.node(l, i).pointers()[j].0));
    }
}

/// A parent may drop a child that its left sibling has taken over.
pub proof fn lemma_confirm(s: Shape, l: int, i: int)
    requires
        s.wf(),
        s.place(l, i),
        s.node(l, i).merging_child matches Some(child) && s.absorbed(child),
    ensures
        s.with_node(l, i, s.node(l, i).with_merge_confirmed()).wf(),
        s.with_node(l, i, s.node(l, i).with_merge_confirmed()).contents() == s.contents(),
{
    let n = s.node(l, i);
    let q = n.merging_child->0;
    let node = n.with_merge_confirmed();
    let t = s.with_node(l, i, node);
    assert(s.place_ok(l, i));
    assert(s.merging_ok(l, i));
    lemma_with_merge_confirmed(n);
    let p = pointer_at(n.pointers(), q, 0);
    lemma_pointer_at(n.pointers(), q, 0);
    assert(t.node(l, i) == node);
    assert forall|j: int| 0 <= j < node.pointers().len() implies #[trigger] t.pointer_ok(l, i, j) by {
        let k = if j < p {
            j
        } else {
            j + 1
        };
        assert(node.pointers()[j] == n.pointers()[k]);
        if n.pointers()[k].1 == q {
            lemma_pointers_distinct(s, l, i, k, p);
        }
        lemma_kept_pointer(s, l, i, node, j, k);
    }
    lemma_with_node(s, l, i, node);
    lemma_with_node_contents(s, l, i, node);
}

/// A parent may announce the merge of a child that is not its first, unless one
/// of the two takes part in another merge.
pub proof fn lemma_announce(s: Shape, l: int, i: int, j: int)
    requires
        s.wf(),
        s.place(l, i),
        l != s.bottom(),
        s.node(l, i).merging_child is None,
        0 < j < s.node(l, i).pointers().len(),
        s.nodes[s.node(l, i).pointers()[j].1].merging_child is None,
        forall|m: int, k: int|
            #![trigger s.node(m, k)]
            s.place(m, k) ==> s.node(m, k).merging_child != Some(s.page(l, i)),
    ensures
        ({
            let child = s.node(l, i).pointers()[j].1;
            let t = s.with_node(
                l,
                i,
                NodeView { merging_child: Some(child), ..s.node(l, i) },
            );
            &&& t.wf()
            &&& t.contents() == s.contents()
        }),
{
    let n = s.node(l, i);
    let q = n.pointers()[j].1;
    let node = NodeView { merging_child: Some(q), ..n };
    let t = s.with_node(l, i, node);
    assert(s.place_ok(l, i));
    assert(t.node(l, i) == node);
    lemma_pointer_at(n.pointers(), q, 0);
    lemma_pointers_distinct(s, l, i, pointer_at(n.pointers(), q, 0), j);
    assert(s.pointer_ok(l, i, j));
    assert(q != s.page(l, i)) by {
        let c = s.place_of(l + 1, q, n.pointers()[j].0);
        assert(s.page(l + 1, c) == q);
    }
    assert forall|k: int| 0 <= k < node.pointers().len() implies #[trigger] t.pointer_ok(l, i, k) by {
        lemma_kept_pointer(s, l, i, node, k, k);
    }
    lemma_with_node(s, l, i, node);
    lemma_with_node_contents(s, l, i, node);
}

// ---------------------------------------------------------------------------
// Splits.

/// The shape after the node at a place gave its right half to the new page `to`.
pub open spec fn split_shape(s: Shape, l: int, i: int, to: PageId) -> Shape {
    let node = s.node(l, i);
    Shape {
        nodes: s.nodes.insert(to, node.right_half()).insert(
            s.page(l, i),
            node.with_child_split(node.right_half().lo, to),
        ),
        levels: s.levels.update(l, s.levels[l].insert(i + 1, to)),
    }
}

/// Where a place of level `l` was before a page was put after place `i`.
spec fn before_insert(l: int, i: int, m: int, j: int) -> int {
    if m == l && j > i {
        j - 1
    } else {
        j
    }
}

/// Where a place of level `l` is after a page was put after place `i`.
spec fn after_insert(l: int, i: int, m: int, j: int) -> int {
    if m == l && j > i {
        j + 1
    } else {
        j
    }
}

proof fn lemma_split_places(s: Shape, l: int, i: int, to: PageId)
    requires
        s.wf(),
        s.place(l, i),
        !s.nodes.contains_key(to),
        s.node(l, i).len() >= 2,
    ensures
        ({
            let t = split_shape(s, l, i, to);
            &&& t.place(l, i + 1)
            &&& t.page(l, i + 1) == to
            &&& t.node(l, i + 1) == s.node(l, i).right_half()
            &&& t.node(l, i) == s.node(l, i).with_child_split(s.node(l, i).right_half().lo, to)
            &&& forall|m: int, j: int|
                #![trigger t.page(m, j)]
                t.place(m, j) && !(m == l && j == i + 1) ==> s.place(
                    m,
                    before_insert(l, i, m, j),
                ) && t.page(m, j) == s.page(m, before_insert(l, i, m, j)) && t.page(m, j) != to
            &&& forall|m: int, j: int|
                #![trigger t.node(m, j)]
                t.place(m, j) && !(m == l && (j == i + 1 || j == i)) ==> t.node(m, j) == s.node(
                    m,
                    before_insert(l, i, m, j),
                )
            &&& forall|m: int, j: int|
                #![trigger s.page(m, j)]
                s.place(m, j) ==> t.place(m, after_insert(l, i, m, j)) && t.page(
                    m,
                    after_insert(l, i, m, j),
                ) == s.page(m, j)
            &&& forall|q: PageId| #[trigger] t.placed(q) == (s.placed(q) || q == to)
        }),
{
    let t = split_shape(s, l, i, to);
    let chain = s.levels[l].insert(i + 1, to);
    assert(t.levels[l] == chain);
    assert(s.place_ok(l, i));
    assert(s.page(l, i) != to);
    assert forall|m: int, j: int|
        #![trigger t.page(m, j)]
        t.place(m, j) && !(m == l && j == i + 1) implies s.place(m, before_insert(l, i, m, j))
        && t.page(m, j) == s.page(m, before_insert(l, i, m, j)) && t.page(m, j) != to by {
        let b = before_insert(l, i, m, j);
        assert(s.place(m, b));
        assert(s.place_ok(m, b));
    }
    assert forall|m: int, j: int|
        #![trigger t.node(m, j)]
        t.place(m, j) && !(m == l && (j == i + 1 || j == i)) implies t.node(m, j) == s.node(
        m,
        before_insert(l, i, m, j),
    ) by {
        let b = before_insert(l, i, m, j);
        assert(t.page(m, j) == s.page(m, b));
        assert(s.page(m, b) != s.page(l, i));
    }
    assert forall|m: int, j: int| #![trigger s.page(m, j)] s.place(m, j) implies t.place(
        m,
        after_insert(l, i, m, j),
    ) && t.page(m, after_insert(l, i, m, j)) == s.page(m, j) by {
    }
    assert forall|q: PageId| #[trigger] t.placed(q) == (s.placed(q) || q == to) by {
        if t.placed(q) {
            let (m, j) = choose|m: int, j: int|
                #![trigger t.page(m, j)]
                t.place(m, j) && t.page(m, j) == q;
            assert(t.page(m, j) == q);
            if !(m == l && j == i + 1) {
                assert(s.page(m, before_insert(l, i, m, j)) == q);
            }
        }
        if s.placed(q) {
            let (m, j) = choose|m: int, j: int|
                #![trigger s.page(m, j)]
                s.place(m, j) && s.page(m, j) == q;
            assert(s.page(m, j) == q);
            assert(t.page(m, after_insert(l, i, m, j)) == q);
        }
        if q == to {
            assert(t.page(l, i + 1) == q);
        }
    }
}

/// A node that takes part in no merge may give its right half to a new page.
pub proof fn lemma_split(s: Shape, l: int, i: int, to: PageId)
    requires
        s.wf(),
        s.place(l, i),
        !s.nodes.contains_key(to),
        s.node(l, i).len() >= 2,
        s.node(l, i).merging_child is None,
        !s.node(l, i).merging,
    ensures
        split_shape(s, l, i, to).wf(),
{
    let t = split_shape(s, l, i, to);
    let n = s.node(l, i);
    lemma_split_places(s, l, i, to);
    assert(s.place_ok(l, i));
    lemma_halves(n, to);
    assert forall|m: int| 0 <= m < t.levels.len() implies #[trigger] t.levels[m].len() > 0 by {
        assert(s.levels[m].len() > 0);
    }
    assert forall|m: int, j: int| t.place(m, j) implies #[trigger] t.place_ok(m, j) by {
        let b = before_insert(l, i, m, j);
        if m == l && j == i + 1 {
            if j + 1 < t.levels[m].len() {
                assert(t.page(m, j + 1) == s.page(m, i + 1));
                assert(t.node(m, j + 1) == s.node(m, i + 1));
            }
        } else {
            assert(t.page(m, j) == s.page(m, b));
            assert(s.place_ok(m, b));
            if m == l && j == i {
                assert(t.page(m, j + 1) == to);
            } else if j + 1 < t.levels[m].len() {
                assert(t.node(m, j) == s.node(m, b));
                assert(t.page(m, j + 1) == s.page(m, b + 1));
                if m == l && j + 1 == i {
                    assert(t.node(m, j + 1).lo == s.node(m, b + 1).lo);
                } else {
                    assert(t.node(m, j + 1) == s.node(m, b + 1));
                }
            } else {
                assert(t.node(m, j) == s.node(m, b));
            }
        }
    }
    assert forall|q: PageId| #[trigger] s.absorbed(q) implies t.absorbed(q) && t.nodes[q]
        == s.nodes[q] by {
        assert(t.placed(q) == (s.placed(q) || q == to));
        assert(s.placed(s.page(l, i)));
    }
    assert forall|m: int, q: PageId, key: Seq<u8>| #[trigger]
        s.leads_to(m, q, key) implies t.leads_to(m, q, key) by {
        let c = s.place_of(m, q, key);
        assert(s.page(m, c) == q);
        let d = after_insert(l, i, m, c);
        assert(t.page(m, d) == q);
        if !(m == l && d == i) {
            assert(t.node(m, d) == s.node(m, before_insert(l, i, m, d)));
        }
        assert(t.starts_at(m, d, q, key));
    }
    assert forall|m: int, j: int, k: int|
        t.place(m, j) && m != t.bottom() && 0 <= k < t.node(m, j).pointers().len() implies #[trigger] t.pointer_ok(
        m,
        j,
        k,
    ) by {
        let b = before_insert(l, i, m, j);
        if m == l && (j == i || j == i + 1) {
            let a = if j == i {
                k
            } else {
                k + n.middle()
            };
            assert(t.node(m, j).pointers()[k] == n.pointers()[a]);
            assert(s.pointer_ok(l, i, a));
            let (key, q) = n.pointers()[a];
            assert(s.leads_to(l + 1, q, key));
            assert(t.leads_to(l + 1, q, key));
        } else {
            assert(t.page(m, j) == s.page(m, b));
            assert(t.node(m, j) == s.node(m, b));
            assert(s.pointer_ok(m, b, k));
            let (key, q) = s.node(m, b).pointers()[k];
            if s.leads_to(m + 1, q, key) {
                assert(t.leads_to(m + 1, q, key));
            } else {
                assert(s.absorbed(q));
            }
        }
    }
    assert forall|m: int, j: int| t.place(m, j) implies #[trigger] t.merging_ok(m, j) by {
        let b = before_insert(l, i, m, j);
        if m == l && (j == i || j == i + 1) {
        } else {
            assert(t.page(m, j) == s.page(m, b));
            assert(t.node(m, j) == s.node(m, b));
            assert(s.merging_ok(m, b));
            if let Some(child) = s.node(m, b).merging_child {
                let x = pointer_at(s.node(m, b).pointers(), child, 0);
                lemma_pointer_at(s.node(m, b).pointers(), child, 0);
                assert(s.pointer_ok(m, b, x));
                let key = s.node(m, b).pointers()[x].0;
                if s.leads_to(m + 1, child, key) {
                    let c = s.place_of(m + 1, child, key);
                    assert(s.place_ok(m + 1, c));
                } else {
                    assert(s.absorbed(child));
                }
                assert(s.nodes.contains_key(child));
                assert(child != to);
            }
        }
    }
    assert forall|m: int, j: int| t.place(m, j) implies #[trigger] t.capped_ok(m, j) by {
        let b = before_insert(l, i, m, j);
        if t.node(m, j).merging {
            assert(t.page(m, j) == s.page(m, b));
            assert(t.node(m, j) == s.node(m, b));
            assert(s.capped_ok(m, b));
            let q = s.page(m, b);
            let k = s.announcer(m - 1, q);
            assert(s.page(m - 1, k) == s.levels[m - 1][k]);
            let d = after_insert(l, i, m - 1, k);
            assert(t.node(m - 1, d) == s.node(m - 1, before_insert(l, i, m - 1, d)));
            assert(t.announces(m - 1, d, q));
        }
    }
    assert(t.distinct()) by {
        assert forall|a: int, b: int, c: int, d: int|
            #![trigger t.page(a, b), t.page(c, d)]
            t.place(a, b) && t.place(c, d) && t.page(a, b) == t.page(c, d) implies a == c && b
            == d by {
            if !(a == l && b == i + 1) && !(c == l && d == i + 1) {
                assert(s.page(a, before_insert(l, i, a, b)) == s.page(
                    c,
                    before_insert(l, i, c, d),
                ));
            }
        }
    }
    assert forall|q: PageId| #[trigger] t.nodes.contains_key(q) implies t.placed(q) || t.absorbed(
        q,
    ) by {
        assert(t.placed(q) == (s.placed(q) || q == to));
        if q != to {
            assert(s.nodes.contains_key(q));
        }
    }
}

/// A split leaves the contents as they were.
pub proof fn lemma_split_contents(s: Shape, l: int, i: int, to: PageId)
    requires
        s.wf(),
        s.place(l, i),
        !s.nodes.contains_key(to),
        s.node(l, i).len() >= 2,
        split_shape(s, l, i, to).wf(),
    ensures
        split_shape(s, l, i, to).contents() == s.contents(),
{
    broadcast use group_key_order;

    let t = split_shape(s, l, i, to);
    let n = s.node(l, i);
    let b = s.bottom();
    assert(t.bottom() == b);
    lemma_split_places(s, l, i, to);
    assert(s.place_ok(l, i));
    lemma_halves(n, to);
    assert forall|key: Seq<u8>| #[trigger] t.contents().contains_key(key) == s.contents().contains_key(key) && (
    s.contents().contains_key(key) ==> t.contents()[key] == s.contents()[key]) by {
        lemma_home(s, b, key);
        let h = s.home(b, key);
        assert(s.page(b, h) == s.levels[b][h]);
        if l == b && h == i {
            let left = t.node(l, i);
            let right = t.node(l, i + 1);
            assert(n.entries() =~= left.entries() + right.entries());
            lemma_append(left.entries(), right.entries(), key);
            lemma_rank(left.entries(), key);
            lemma_rank(right.entries(), key);
            assert(t.place(l, i));
            if key_lt(key, right.lo) {
                lemma_home_is(t, l, i, key);
                if holds_key(right.entries(), key) {
                    assert(right.covers(right.entries()[rank(right.entries(), key)].0));
                }
            } else {
                assert(right.covers(key));
                lemma_home_is(t, l, i + 1, key);
                if holds_key(left.entries(), key) {
                    assert(left.covers(left.entries()[rank(left.entries(), key)].0));
                }
            }
        } else {
            let d = after_insert(l, i, b, h);
            assert(t.place(b, d));
            assert(t.node(b, d) == s.node(b, before_insert(l, i, b, d)));
            lemma_home_is(t, b, d, key);
        }
    }
    assert(t.contents() =~= s.contents());
}

// ---------------------------------------------------------------------------
// New roots.

/// The root above a level that starts with page `from` and has page `to` start at `at`.
pub open spec fn hoisted_root(from: PageId, to: PageId, at: Seq<u8>) -> NodeView {
    NodeView {
        data: DataView::Index(seq![(Seq::<u8>::empty(), from), (at, to)]),
        next: None,
        lo: Seq::empty(),
        hi: Seq::empty(),
        merging_child: None,
        merging: false,
    }
}

/// The shape with a new root on page `root` above the old root level.
pub open spec fn hoisted_shape(s: Shape, c: int, root: PageId) -> Shape {
    Shape {
        nodes: s.nodes.insert(root, hoisted_root(s.page(0, 0), s.page(0, c), s.node(0, c).lo)),
        levels: seq![seq![root]] + s.levels,
    }
}

/// A new root may be put above the root level.
pub proof fn lemma_hoist(s: Shape, c: int, root: PageId)
    requires
        s.wf(),
        s.place(0, c),
        c > 0,
        !s.nodes.contains_key(root),
    ensures
        hoisted_shape(s, c, root).wf(),
        hoisted_shape(s, c, root).contents() == s.contents(),
{
    broadcast use group_key_order;

    let t = hoisted_shape(s, c, root);
    let r = hoisted_root(s.page(0, 0), s.page(0, c), s.node(0, c).lo);
    assert(t.levels[0] == seq![root]);
    assert forall|m: int| 0 < m < t.levels.len() implies #[trigger] t.levels[m] == s.levels[m - 1] by {
    }
    assert(s.place_ok(0, 0));
    assert(s.place_ok(0, c));
    lemma_chain_order(s, 0, 0, c);
    assert(s.node(0, 0).lo =~= Seq::empty());
    lemma_empty_key_is_least(s.node(0, c).lo);
    assert(r.ok()) by {
        let p = r.pointers();
        assert(p[0].0 == Seq::<u8>::empty());
        assert(p[1].0 == s.node(0, c).lo);
    }
    assert(t.page(0, 0) == root);
    assert(t.node(0, 0) == r);
    assert forall|m: int, j: int|
        #![trigger t.page(m, j)]
        t.place(m, j) && m > 0 implies s.place(m - 1, j) && t.page(m, j) == s.page(m - 1, j)
        && t.page(m, j) != root && t.node(m, j) == s.node(m - 1, j) by {
        assert(t.levels[m] == s.levels[m - 1]);
        assert(s.place_ok(m - 1, j));
    }
    assert forall|m: int, j: int| #![trigger s.page(m, j)] s.place(m, j) implies t.place(m + 1, j)
        && t.page(m + 1, j) == s.page(m, j) && t.node(m + 1, j) == s.node(m, j) by {
        assert(t.levels[m + 1] == s.levels[m]);
        assert(s.place_ok(m, j));
    }
    assert forall|m: int| 0 <= m < t.levels.len() implies #[trigger] t.levels[m].len() > 0 by {
        if m > 0 {
            assert(s.levels[m - 1].len() > 0);
        }
    }
    assert forall|m: int, j: int| t.place(m, j) implies #[trigger] t.place_ok(m, j) by {
        if m > 0 {
            assert(t.page(m, j) == s.page(m - 1, j));
            assert(s.place_ok(m - 1, j));
            if j + 1 < t.levels[m].len() {
                assert(t.page(m, j + 1) == s.page(m - 1, j + 1));
            }
        }
    }
    assert forall|q: PageId| #[trigger] t.placed(q) == (s.placed(q) || q == root) by {
        if t.placed(q) {
            let (m, j) = choose|m: int, j: int|
                #![trigger t.page(m, j)]
                t.place(m, j) && t.page(m, j) == q;
            assert(t.page(m, j) == q);
            if m > 0 {
                assert(s.page(m - 1, j) == q);
            }
        }
        if s.placed(q) {
            let (m, j) = choose|m: int, j: int|
                #![trigger s.page(m, j)]
                s.place(m, j) && s.page(m, j) == q;
            assert(t.page(m + 1, j) == q);
        }
        if q == root {
            assert(t.page(0, 0) == q);
        }
    }
    assert forall|q: PageId| #[trigger] s.absorbed(q) implies t.absorbed(q) && t.nodes[q]
        == s.nodes[q] by {
        assert(t.placed(q) == (s.placed(q) || q == root));
    }
    assert forall|m: int, j: int, k: int|
        t.place(m, j) && m != t.bottom() && 0 <= k < t.node(m, j).pointers().len() implies #[trigger] t.pointer_ok(
        m,
        j,
        k,
    ) by {
        if m == 0 {
            assert(j == 0);
            if k == 0 {
                assert(t.page(1, 0) == s.page(0, 0));
                assert(t.starts_at(1, 0, s.page(0, 0), Seq::empty()));
                assert(t.leads_to(m + 1, s.page(0, 0), Seq::empty()));
            } else {
                assert(t.page(1, c) == s.page(0, c));
                assert(t.starts_at(1, c, s.page(0, c), s.node(0, c).lo));
                assert(t.leads_to(m + 1, s.page(0, c), s.node(0, c).lo));
            }
        } else {
            assert(t.page(m, j) == s.page(m - 1, j));
            assert(s.pointer_ok(m - 1, j, k));
            let (key, q) = s.node(m - 1, j).pointers()[k];
            if s.leads_to(m, q, key) {
                let d = s.place_of(m, q, key);
                assert(s.page(m, d) == q);
                assert(t.starts_at(m + 1, d, q, key));
                assert(t.leads_to(m + 1, q, key));
            } else {
                assert(s.absorbed(q));
            }
        }
    }
    assert forall|m: int, j: int| t.place(m, j) implies #[trigger] t.merging_ok(m, j) by {
        if m > 0 {
            assert(t.page(m, j) == s.page(m - 1, j));
            assert(s.merging_ok(m - 1, j));
        }
    }
    assert forall|m: int, j: int| t.place(m, j) implies #[trigger] t.capped_ok(m, j) by {
        if m > 0 && t.node(m, j).merging {
            assert(t.page(m, j) == s.page(m - 1, j));
            assert(s.capped_ok(m - 1, j));
            let q = s.page(m - 1, j);
            let k = s.announcer(m - 2, q);
            assert(s.announces(m - 2, k, q));
            assert(s.page(m - 2, k) == s.levels[m - 2][k]);
            assert(t.announces(m - 1, k, q));
        }
    }
    assert(t.distinct()) by {
        assert forall|a: int, b: int, d: int, e: int|
            #![trigger t.page(a, b), t.page(d, e)]
            t.place(a, b) && t.place(d, e) && t.page(a, b) == t.page(d, e) implies a == d && b
            == e by {
            if a > 0 && d > 0 {
                assert(s.page(a - 1, b) == s.page(d - 1, e));
            }
        }
    }
    assert forall|q: PageId| #[trigger] t.nodes.contains_key(q) implies t.placed(q) || t.absorbed(
        q,
    ) by {
        assert(t.placed(q) == (s.placed(q) || q == root));
        if q != root {
            assert(s.nodes.contains_key(q));
        }
    }
    assert(t.wf());
    assert forall|key: Seq<u8>| #[trigger] t.leaf(key) == s.leaf(key) by {
        lemma_home(s, s.bottom(), key);
        let h = s.home(s.bottom(), key);
        assert(t.page(t.bottom(), h) == s.page(s.bottom(), h));
        lemma_home_is(t, t.bottom(), h, key);
    }
    assert(t.contents() =~= s.contents());
}

// ---------------------------------------------------------------------------
// Merges.

/// The shape after the node at a place took over its right sibling.
pub open spec fn absorbed_shape(s: Shape, l: int, c: int) -> Shape {
    Shape {
        nodes: s.nodes.insert(s.page(l, c), s.node(l, c).with_right_sibling(s.node(l, c + 1))),
        levels: s.levels.update(l, s.levels[l].remove(c + 1)),
    }
}

/// Where a place of level `l` was before the page after place `c` was taken out.
pub open spec fn before_remove(l: int, c: int, m: int, j: int) -> int {
    if m == l && j > c {
        j + 1
    } else {
        j
    }
}

/// Where a place of level `l` is after the page after place `c` was taken out.
pub open spec fn after_remove(l: int, c: int, m: int, j: int) -> int {
    if m == l && j > c {
        j - 1
    } else {
        j
    }
}

/// The places after a page was taken out: those after it have moved up by one.
pub proof fn lemma_absorb_places(s: Shape, l: int, c: int)
    requires
        s.wf(),
        s.place(l, c),
        s.place(l, c + 1),
    ensures
        ({
            let t = absorbed_shape(s, l, c);
            let q = s.page(l, c + 1);
            &&& t.place(l, c)
            &&& t.node(l, c) == s.node(l, c).with_right_sibling(s.node(l, c + 1))
            &&& t.nodes.contains_key(q) && t.nodes[q] == s.nodes[q]
            &&& forall|m: int, j: int|
                #![trigger t.page(m, j)]
                t.place(m, j) ==> s.place(m, before_remove(l, c, m, j)) && t.page(m, j) == s.page(
                    m,
                    before_remove(l, c, m, j),
                ) && t.page(m, j) != q
            &&& forall|m: int, j: int|
                #![trigger t.node(m, j)]
                t.place(m, j) && !(m == l && j == c) ==> t.node(m, j) == s.node(
                    m,
                    before_remove(l, c, m, j),
                )
            &&& forall|m: int, j: int|
                #![trigger s.page(m, j)]
                s.place(m, j) && !(m == l && j == c + 1) ==> t.place(m, after_remove(l, c, m, j))
                    && t.page(m, after_remove(l, c, m, j)) == s.page(m, j)
            &&& forall|p: PageId| #[trigger] t.placed(p) == (s.placed(p) && p != q)
        }),
{
    let t = absorbed_shape(s, l, c);
    let q = s.page(l, c + 1);
    let chain = s.levels[l].remove(c + 1);
    assert(t.levels[l] == chain);
    assert(s.place_ok(l, c));
    assert(s.place_ok(l, c + 1));
    assert(s.page(l, c) != q);
    assert forall|m: int, j: int| #![trigger t.page(m, j)] t.place(m, j) implies s.place(
        m,
        before_remove(l, c, m, j),
    ) && t.page(m, j) == s.page(m, before_remove(l, c, m, j)) && t.page(m, j) != q by {
        let b = before_remove(l, c, m, j);
        assert(s.place(m, b));
        if s.page(m, b) == s.page(l, c + 1) {
        }
    }
    assert forall|m: int, j: int|
        #![trigger t.node(m, j)]
        t.place(m, j) && !(m == l && j == c) implies t.node(m, j) == s.node(
        m,
        before_remove(l, c, m, j),
    ) by {
        let b = before_remove(l, c, m, j);
        assert(t.page(m, j) == s.page(m, b));
        assert(s.page(m, b) != s.page(l, c));
    }
    assert forall|m: int, j: int|
        #![trigger s.page(m, j)]
        s.place(m, j) && !(m == l && j == c + 1) implies t.place(m, after_remove(l, c, m, j))
        && t.page(m, after_remove(l, c, m, j)) == s.page(m, j) by {
    }
    assert forall|p: PageId| #[trigger] t.placed(p) == (s.placed(p) && p != q) by {
        if t.placed(p) {
            let (m, j) = choose|m: int, j: int|
                #![trigger t.page(m, j)]
                t.place(m, j) && t.page(m, j) == p;
            assert(t.page(m, j) == p);
            assert(s.page(m, before_remove(l, c, m, j)) == p);
        }
        if s.placed(p) && p != q {
            let (m, j) = choose|m: int, j: int|
                #![trigger s.page(m, j)]
                s.place(m, j) && s.page(m, j) == p;
            assert(s.page(m, j) == p);
            assert(t.page(m, after_remove(l, c, m, j)) == p);
        }
    }
}

proof fn lemma_pointer_at_append(
    s: Seq<(Seq<u8>, PageId)>,
    t: Seq<(Seq<u8>, PageId)>,
    pid: PageId,
    i: int,
)
    requires
        0 <= i <= s.len(),
        pointer_at(s, pid, i) < s.len(),
    ensures
        pointer_at(s + t, pid, i) == pointer_at(s, pid, i),
    decreases s.len() - i,
{
    if i < s.len() && s[i].1 != pid {
        assert((s + t)[i] == s[i]);
        lemma_pointer_at_append(s, t, pid, i + 1);
    } else if i < s.len() {
        assert((s + t)[i] == s[i]);
    }
}

/// Only its parent points to a page.
pub proof fn lemma_one_parent(s: Shape, l: int, i: int, j: int, m: int, k: int, n: int)
    requires
        s.wf(),
        s.place(l, i),
        l != s.bottom(),
        0 <= j < s.node(l, i).pointers().len(),
        s.place(m, k),
        m != s.bottom(),
        0 <= n < s.node(m, k).pointers().len(),
        s.placed(s.node(l, i).pointers()[j].1),
        s.node(l, i).pointers()[j].1 == s.node(m, k).pointers()[n].1,
    ensures
        l == m && i == k && j == n,
{
    assert(s.pointer_ok(l, i, j));
    assert(s.pointer_ok(m, k, n));
    assert(s.place_ok(l, i));
    assert(s.place_ok(m, k));
    let (a, p) = s.node(l, i).pointers()[j];
    let (b, q) = s.node(m, k).pointers()[n];
    let x = s.place_of(l + 1, p, a);
    let y = s.place_of(m + 1, q, b);
    assert(s.page(l + 1, x) == s.page(m + 1, y));
    assert(s.node(l, i).covers(a));
    assert(s.node(m, k).covers(b));
    lemma_home_unique(s, l, i, k, a);
    lemma_pointers_distinct(s, l, i, j, n);
}

/// A node may take over a right sibling whose parent has announced it.
pub proof fn lemma_absorb(s: Shape, l: int, i: int, c: int)
    requires
        s.wf(),
        s.place(l, i),
        s.place(l + 1, c),
        s.place(l + 1, c + 1),
        s.node(l, i).merging_child == Some(s.page(l + 1, c + 1)),
        s.node(l + 1, c + 1).merging,
    ensures
        absorbed_shape(s, l + 1, c).wf(),
        absorbed_shape(s, l + 1, c).absorbed(s.page(l + 1, c + 1)),
{
    broadcast use group_key_order;

    let b = l + 1;
    let t = absorbed_shape(s, b, c);
    let q = s.page(b, c + 1);
    let left = s.node(b, c);
    let right = s.node(b, c + 1);
    let merged = left.with_right_sibling(right);
    lemma_absorb_places(s, b, c);
    assert(s.place_ok(l, i));
    assert(s.place_ok(b, c));
    assert(s.place_ok(b, c + 1));
    assert(s.merging_ok(l, i));
    assert(right.merging_child is None);
    lemma_with_right_sibling(left, right);
    assert(s.placed(q)) by {
        assert(s.page(b, c + 1) == q);
    }
    assert(t.absorbed(q)) by {
        assert(t.placed(q) == (s.placed(q) && q != q));
    }
    assert forall|m: int| 0 <= m < t.levels.len() implies #[trigger] t.levels[m].len() > 0 by {
        assert(s.levels[m].len() > 0);
    }
    assert forall|m: int, j: int| t.place(m, j) implies #[trigger] t.place_ok(m, j) by {
        let x = before_remove(b, c, m, j);
        assert(t.page(m, j) == s.page(m, x));
        assert(s.place_ok(m, x));
        if m == b && j == c {
            if j + 1 < t.levels[m].len() {
                assert(t.page(m, j + 1) == s.page(m, c + 2));
                assert(t.node(m, j + 1) == s.node(m, c + 2));
            }
        } else {
            assert(t.node(m, j) == s.node(m, x));
            if j + 1 < t.levels[m].len() {
                assert(t.page(m, j + 1) == s.page(m, x + 1));
                if !(m == b && j + 1 == c) {
                    assert(t.node(m, j + 1) == s.node(m, x + 1));
                }
            }
        }
    }
    assert forall|p: PageId| #[trigger] s.absorbed(p) implies t.absorbed(p) && t.nodes[p]
        == s.nodes[p] by {
        assert(t.placed(p) == (s.placed(p) && p != q));
        assert(s.placed(s.page(b, c)));
    }
    assert forall|m: int, p: PageId, key: Seq<u8>| #[trigger]
        s.leads_to(m, p, key) && p != q implies t.leads_to(m, p, key) by {
        let x = s.place_of(m, p, key);
        assert(s.page(m, x) == p);
        let d = after_remove(b, c, m, x);
        assert(t.page(m, d) == p);
        if !(m == b && d == c) {
            assert(t.node(m, d) == s.node(m, before_remove(b, c, m, d)));
        }
        assert(t.starts_at(m, d, p, key));
    }
    let at = pointer_at(s.node(l, i).pointers(), q, 0);
    lemma_pointer_at(s.node(l, i).pointers(), q, 0);
    assert forall|m: int, j: int, k: int|
        t.place(m, j) && m != t.bottom() && 0 <= k < t.node(m, j).pointers().len() implies #[trigger] t.pointer_ok(
        m,
        j,
        k,
    ) by {
        let x = before_remove(b, c, m, j);
        let y = if m == b && j == c && k >= left.pointers().len() {
            c + 1
        } else {
            x
        };
        let z = if m == b && j == c && k >= left.pointers().len() {
            k - left.pointers().len()
        } else {
            k
        };
        assert(t.page(m, j) == s.page(m, x));
        assert(t.node(m, j).pointers()[k] == s.node(m, y).pointers()[z]);
        assert(s.pointer_ok(m, y, z));
        let (key, p) = s.node(m, y).pointers()[z];
        if p == q {
            lemma_one_parent(s, l, i, at, m, y, z);
            assert(s.leads_to(m + 1, p, key));
            let d = s.place_of(m + 1, p, key);
            assert(s.page(m + 1, d) == s.page(b, c + 1));
        } else if s.leads_to(m + 1, p, key) {
            assert(t.leads_to(m + 1, p, key));
        } else {
            assert(s.absorbed(p));
            assert(y == x);
        }
    }
    assert forall|m: int, j: int| t.place(m, j) implies #[trigger] t.merging_ok(m, j) by {
        let x = before_remove(b, c, m, j);
        assert(t.page(m, j) == s.page(m, x));
        assert(s.merging_ok(m, x));
        if m == b && j == c {
            if let Some(child) = left.merging_child {
                lemma_pointer_at_append(left.pointers(), right.pointers(), child, 0);
            }
        } else {
            assert(t.node(m, j) == s.node(m, x));
        }
    }
    assert forall|m: int, j: int| t.place(m, j) implies #[trigger] t.capped_ok(m, j) by {
        let x = before_remove(b, c, m, j);
        if t.node(m, j).merging {
            assert(t.page(m, j) == s.page(m, x));
            if !(m == b && j == c) {
                assert(t.node(m, j) == s.node(m, x));
            }
            assert(s.capped_ok(m, x));
            let p = s.page(m, x);
            let k = s.announcer(m - 1, p);
            assert(s.announces(m - 1, k, p));
            assert(s.page(m - 1, k) == s.levels[m - 1][k]);
            assert(!(m - 1 == b && k == c + 1));
            let d = after_remove(b, c, m - 1, k);
            if !(m - 1 == b && d == c) {
                assert(t.node(m - 1, d) == s.node(m - 1, before_remove(b, c, m - 1, d)));
            }
            assert(t.announces(m - 1, d, p));
        }
    }
    assert(t.distinct()) by {
        assert forall|a: int, d: int, e: int, f: int|
            #![trigger t.page(a, d), t.page(e, f)]
            t.place(a, d) && t.place(e, f) && t.page(a, d) == t.page(e, f) implies a == e && d
            == f by {
            assert(s.page(a, before_remove(b, c, a, d)) == s.page(e, before_remove(b, c, e, f)));
        }
    }
    assert forall|p: PageId| #[trigger] t.nodes.contains_key(p) implies t.placed(p) || t.absorbed(
        p,
    ) by {
        assert(t.placed(p) == (s.placed(p) && p != q));
        assert(s.nodes.contains_key(p));
    }
}

/// Taking over a sibling leaves the contents as they were.
pub proof fn lemma_absorb_contents(s: Shape, l: int, c: int)
    requires
        s.wf(),
        s.place(l, c),
        s.place(l, c + 1),
        absorbed_shape(s, l, c).wf(),
    ensures
        absorbed_shape(s, l, c).contents() == s.contents(),
{
    broadcast use group_key_order;

    let t = absorbed_shape(s, l, c);
    let b = s.bottom();
    assert(t.bottom() == b);
    lemma_absorb_places(s, l, c);
    assert(s.place_ok(l, c));
    assert(s.place_ok(l, c + 1));
    let left = s.node(l, c);
    let right = s.node(l, c + 1);
    lemma_with_right_sibling(left, right);
    assert forall|key: Seq<u8>| #[trigger] t.contents().contains_key(key) == s.contents().contains_key(key) && (
    s.contents().contains_key(key) ==> t.contents()[key] == s.contents()[key]) by {
        lemma_home(s, b, key);
        let h = s.home(b, key);
        assert(s.page(b, h) == s.levels[b][h]);
        if l == b && (h == c || h == c + 1) {
            lemma_append(left.entries(), right.entries(), key);
            lemma_rank(left.entries(), key);
            lemma_rank(right.entries(), key);
            assert(t.node(l, c).covers(key));
            lemma_home_is(t, l, c, key);
            if h == c && holds_key(right.entries(), key) {
                assert(right.covers(right.entries()[rank(right.entries(), key)].0));
            }
            if h == c + 1 && holds_key(left.entries(), key) {
                assert(left.covers(left.entries()[rank(left.entries(), key)].0));
            }
        } else {
            let d = after_remove(l, c, b, h);
            assert(t.place(b, d));
            assert(t.node(b, d) == s.node(b, before_remove(l, c, b, d)));
            lemma_home_is(t, b, d, key);
        }
    }
    assert(t.contents() =~= s.contents());
}

} // verus!
