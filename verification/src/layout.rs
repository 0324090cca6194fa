//! What splits, merges and searches make of nodes and pages, said of the entries, the
//! bounds and the links themselves.

use crate::clearing::cleared;
use crate::collect::{law_sweep, leftmost, orphans, swept, swept_all};
use crate::entries::{lemma_rank, lookup, rank};
use crate::help::{found_way, on_the_way, quiet};
use crate::key::{group_key_order, key_lt};
use crate::moves::{hoisted_root, lemma_pointers_distinct, split_shape};
use crate::node::{lemma_halves, lemma_pointer_at, pointer_at, DataView, Node, NodeView, PageId};
use crate::shape::{lemma_cap, lemma_home, lemma_home_is, Shape};
use crate::split::{
    adjusted_max, all_pages_done, current, grown, halved_to, height, holds_root, none_grown,
    on_level, others_kept, path_known, path_placed, path_wf, split_along, splits, step_done,
};
use crate::traverse::{lemma_merged_shape, lemma_merging_child, merged_shape, path_ok, step_ok};
use crate::tree::Tree;
use crate::write::Found;
use std::sync::Arc;
use vstd::arithmetic::power2::{lemma2_to64, lemma_pow2_unfold, pow2};
use vstd::prelude::*;

verus! {

// ---------------------------------------------------------------------------
// Which nodes are split.

/// A leaf may grow to the split size; each level up to the eighth above it lets nodes
/// grow to twice as much as the one below, and those further up to no more.
pub proof fn law_larger_toward_the_root(size: nat, h: nat)
    ensures
        adjusted_max(size, 0) == size,
        h < 8 ==> adjusted_max(size, h + 1) == 2 * adjusted_max(size, h),
        h >= 8 ==> adjusted_max(size, h) == 256 * size,
{
    lemma2_to64();
    lemma_pow2_unfold(h + 1);
    assert(size * pow2(0) == size) by (nonlinear_arith)
        requires
            pow2(0) == 1,
    ;
    assert(size * pow2(8) == 256 * size) by (nonlinear_arith)
        requires
            pow2(8) == 256,
    ;
    assert(size * (2 * pow2(h)) == 2 * (size * pow2(h))) by (nonlinear_arith);
}

/// Where no node of a path has been changed since it was found, those are split that
/// take more bytes than a node of their height may. The leaf has height 0, each node
/// above it one more, and the root as much as the path has steps.
pub proof fn law_large_nodes_are_split(
    s: Shape,
    size: nat,
    path: Seq<(PageId, Arc<Node>)>,
    j: int,
)
    requires
        0 <= j < path.len(),
        forall|k: int|
            #![trigger path[k]]
            0 <= k < path.len() ==> s.nodes.contains_key(path[k].0) && s.nodes[path[k].0]
                == path[k].1@,
    ensures
        ({
            let h = if j == 0 {
                path.len() as int
            } else {
                path.len() - 1 - j
            };
            splits(s, size, path, j) <==> path[j].1.oversized(
                size * pow2(
                    if h < 8 {
                        h as nat
                    } else {
                        8
                    },
                ),
            )
        }),
{
    assert forall|k: int| j <= k < path.len() && #[trigger] grown(size, path, k) implies current(
        s,
        path,
        k,
    ) by {
        assert(path[k] == path[k]);
    }
}

/// Where a node that is to be split has been changed meanwhile, neither it nor any
/// node above it is split.
pub proof fn law_changed_node_stops_splits(
    s: Shape,
    size: nat,
    path: Seq<(PageId, Arc<Node>)>,
    j: int,
    k: int,
)
    requires
        0 <= j <= k < path.len(),
        path[k].1.oversized(adjusted_max(size, height(path.len(), k))),
        !s.nodes.contains_key(path[k].0) || s.nodes[path[k].0] != path[k].1@,
    ensures
        !splits(s, size, path, j),
{
    assert(grown(size, path, k));
}

/// A node is split only if it has more than two entries and takes part in no merge;
/// and one that is too large for some limit is too large for any smaller one.
pub proof fn law_only_large_nodes_are_split(node: &Node, max: nat, less: nat)
    requires
        node.oversized(max),
        less <= max,
    ensures
        match node@.data {
            DataView::Leaf(entries) => entries.len() > 2,
            DataView::Index(pointers) => pointers.len() > 2,
        },
        node@.merging_child is None && !node@.merging,
        node.oversized(less),
{
}

// ---------------------------------------------------------------------------
// What a split makes of a node.

/// The two halves of a node hold what it held, in the same order, nearly the same
/// number each; the right half starts where the left half ends.
pub proof fn law_halves_make_the_whole(node: NodeView, to: PageId)
    requires
        node.ok(),
        node.len() >= 2,
    ensures
        ({
            let right = node.right_half();
            let left = node.with_child_split(right.lo, to);
            &&& match node.data {
                DataView::Leaf(entries) => {
                    &&& left.data matches DataView::Leaf(a)
                    &&& right.data matches DataView::Leaf(b)
                    &&& a + b == entries
                    &&& 0 < a.len() <= b.len() <= a.len() + 1
                    &&& right.lo == b[0].0
                },
                DataView::Index(pointers) => {
                    &&& left.data matches DataView::Index(a)
                    &&& right.data matches DataView::Index(b)
                    &&& a + b == pointers
                    &&& 0 < a.len() <= b.len() <= a.len() + 1
                    &&& right.lo == b[0].0
                },
            }
            &&& left.lo == node.lo && left.hi == right.lo && right.hi == node.hi
            &&& left.next == Some(to) && right.next == node.next
            &&& left.merging == node.merging && left.merging_child == node.merging_child
            &&& !right.merging && right.merging_child is None
        }),
{
    lemma_halves(node, to);
    let right = node.right_half();
    let left = node.with_child_split(right.lo, to);
    match node.data {
        DataView::Leaf(entries) => assert(left.entries() + right.entries() =~= entries),
        DataView::Index(pointers) => assert(left.pointers() + right.pointers() =~= pointers),
    }
}

/// A split writes to the page that is split and to the new one, and puts the new one
/// to the right of the other.
pub proof fn law_split_touches_two_pages(s: Shape, l: int, i: int, to: PageId, p: PageId)
    requires
        s.wf(),
        s.place(l, i),
        !s.nodes.contains_key(to),
    ensures
        ({
            let t = split_shape(s, l, i, to);
            &&& p != to && p != s.page(l, i) ==> t.nodes.contains_key(p) == s.nodes.contains_key(p)
                && t.nodes[p] == s.nodes[p]
            &&& t.nodes.contains_key(to) && t.nodes[to] == s.node(l, i).right_half()
            &&& t.nodes[s.page(l, i)] == s.node(l, i).with_child_split(
                s.node(l, i).right_half().lo,
                to,
            )
            &&& t.levels[l][i] == s.levels[l][i]
            &&& t.levels[l][i + 1] == to
            &&& t.levels[l].len() == s.levels[l].len() + 1
        }),
{
    assert(s.place_ok(l, i));
}

/// A new root points to the old one, from the empty key on, and to the page that was
/// split off from it, from where that starts; it covers all keys.
pub proof fn law_new_root(from: PageId, to: PageId, at: Seq<u8>)
    ensures
        ({
            let root = hoisted_root(from, to, at);
            &&& root.data matches DataView::Index(pointers)
            &&& pointers.len() == 2
            &&& pointers[0].0.len() == 0 && pointers[0].1 == from
            &&& pointers[1].0 == at && pointers[1].1 == to
            &&& root.lo.len() == 0 && root.hi.len() == 0
            &&& root.next is None && root.merging_child is None && !root.merging
        }),
{
}

/// A parent that comes to know a child points to it from where it starts, and keeps
/// all other separators.
pub proof fn law_parent_learns(node: NodeView, at: Seq<u8>, to: PageId)
    requires
        node.ok(),
        !node.is_leaf(),
        forall|i: int|
            #![trigger node.pointers()[i]]
            0 <= i < node.pointers().len() ==> node.pointers()[i].0 != at,
    ensures
        ({
            let after = node.with_parent_split(at, to);
            &&& after.pointers().contains((at, to))
            &&& after.pointers().len() == node.pointers().len() + 1
            &&& forall|x: (Seq<u8>, PageId)| #[trigger]
                node.pointers().contains(x) ==> after.pointers().contains(x)
            &&& after.lo == node.lo && after.hi == node.hi && after.next == node.next
            &&& after.merging == node.merging && after.merging_child == node.merging_child
        }),
{
    let pointers = node.pointers();
    let after = node.with_parent_split(at, to).pointers();
    lemma_rank(pointers, at);
    let r = rank(pointers, at);
    if r < pointers.len() {
        assert(pointers[r].0 != at);
    }
    assert(after == pointers.insert(r, (at, to)));
    assert(after[r] == (at, to));
    assert forall|x: (Seq<u8>, PageId)| #[trigger] pointers.contains(x) implies after.contains(
        x,
    ) by {
        let i = choose|i: int| 0 <= i < pointers.len() && pointers[i] == x;
        let k = if i < r {
            i
        } else {
            i + 1
        };
        assert(after[k] == x);
    }
}

/// A write to a leaf that had not grown too large before it changes that leaf and no
/// other page.
pub proof fn law_small_leaf_is_kept_whole<M>(
    before: &Tree<M>,
    after: &Tree<M>,
    found: &Found,
    leaf: NodeView,
)
    requires
        after.grew(before, found, leaf),
        !found.path@.last().1.oversized(before.setup().blink_node_split_size as nat),
    ensures
        after.shape().nodes == before.shape().nodes.insert(found.path@.last().0, leaf),
        after.shape().levels == before.shape().levels,
        after.root_page() == before.root_page(),
{
}

/// A write to a leaf that had grown too large before it, and still is, halves the leaf
/// once it has been written: its page keeps the left half, and a page that was free
/// gets the right one.
pub proof fn law_large_leaf_is_halved<M>(
    before: &Tree<M>,
    after: &Tree<M>,
    found: &Found,
    leaf: NodeView,
)
    requires
        path_wf(found.path@),
        path_placed(before.shape(), found.path@),
        after.grew(before, found, leaf),
        found.path@.last().1.oversized(before.setup().blink_node_split_size as nat),
        forall|new: Arc<Node>|
            #[trigger] new.wf() && new@ == leaf ==> new.oversized(
                before.setup().blink_node_split_size as nat,
            ),
        found.path@.len() > 1,
    ensures
        exists|to: PageId|
            {
                &&& #[trigger] after.shape().nodes.contains_key(to)
                &&& !before.shape().nodes.contains_key(to)
                &&& after.shape().nodes[to] == leaf.right_half()
                &&& after.shape().nodes.contains_key(found.path@.last().0)
                &&& after.shape().nodes[found.path@.last().0] == leaf.with_child_split(
                    leaf.right_half().lo,
                    to,
                )
            },
{
    let size = before.setup().blink_node_split_size as nat;
    let s = before.with_leaf(found, leaf);
    let last = found.path@.len() - 1;
    let pid = found.path@.last().0;
    let new = choose|new: Arc<Node>|
        {
            let path = found.path@.drop_last().push((pid, new));
            &&& #[trigger] new.wf()
            &&& new@ == leaf
            &&& path_placed(s, path) ==> split_along(
                s,
                before.root,
                after.shape(),
                after.root,
                size,
                path,
            )
            &&& others_kept(s, after.shape(), size, path)
            &&& path_known(s, path) ==> all_pages_done(s, after.shape(), size, path)
            &&& none_grown(size, path) ==> after.shape() == s && after.root == before.root
        };
    let path = found.path@.drop_last().push((pid, new));
    assert(found.path@[last] == found.path@.last());
    assert(path_placed(s, path)) by {
        assert forall|j: int| #![trigger path[j]] 0 <= j < path.len() implies on_level(
            s,
            j,
            path[j].0,
        ) by {
            assert(path[j].0 == found.path@[j].0);
            assert(on_level(before.shape(), j, found.path@[j].0));
            let i = choose|i: int|
                #![trigger before.shape().page(j, i)]
                before.shape().place(j, i) && before.shape().page(j, i) == found.path@[j].0;
            assert(s.place(j, i) && s.page(j, i) == path[j].0);
        }
    }
    law_larger_toward_the_root(size, 0);
    assert(grown(size, path, last));
    assert(current(s, path, last));
    assert(splits(s, size, path, last)) by {
        assert forall|k: int|
            last <= k < path.len() && #[trigger] grown(size, path, k) implies current(s, path, k) by {
            assert(k == last);
        }
    }
    let up: int = if splits(s, size, path, 0) && path[0].0 == before.root {
        1
    } else {
        0
    };
    assert(step_done(s, after.shape(), size, path, last, up));
    let to = choose|to: PageId| #[trigger]
        halved_to(after.shape(), pid, leaf, to) && !s.nodes.contains_key(to);
    assert(after.shape().nodes.contains_key(to));
}

/// Where the root is split, a page that was free becomes the root; it points to the
/// old root, from the empty key on, and to the page that has got the right half of it.
pub proof fn law_split_root_gets_a_root(
    s: Shape,
    root: PageId,
    t: Shape,
    new_root: PageId,
    size: nat,
    path: Seq<(PageId, Arc<Node>)>,
)
    requires
        split_along(s, root, t, new_root, size, path),
        splits(s, size, path, 0),
        path[0].0 == root,
    ensures
        !s.nodes.contains_key(new_root),
        t.levels.len() == s.levels.len() + 1,
        exists|to: PageId|
            {
                &&& #[trigger] t.nodes.contains_key(to)
                &&& t.nodes[to] == path[0].1@.right_half()
                &&& t.nodes[new_root].data == DataView::Index(
                    seq![(Seq::<u8>::empty(), root), (path[0].1@.right_half().lo, to)],
                )
            },
{
    let to = choose|q: PageId|
        {
            &&& #[trigger] halved_to(t, path[0].0, path[0].1@, q)
            &&& t.nodes[new_root] == hoisted_root(path[0].0, q, path[0].1@.right_half().lo)
        };
    assert(holds_root(t, path, new_root));
    assert(t.nodes.contains_key(to));
}

// ---------------------------------------------------------------------------
// What a merge makes of nodes.

/// A merge that is completed hands all that the child holds over to its left sibling,
/// at the end, with the child's end and right sibling; the child leaves its level; and
/// the parent no longer points to the child nor announces it.
pub proof fn law_merge_hands_over(s: Shape, l: int, i: int, c: int)
    requires
        s.wf(),
        s.place(l, i),
        s.place(l + 1, c),
        s.node(l, i).merging_child == Some(s.page(l + 1, c)),
    ensures
        ({
            let t = merged_shape(s, l, i);
            let child = s.node(l + 1, c);
            let left = s.node(l + 1, c - 1);
            let merged = t.nodes[s.page(l + 1, c - 1)];
            let parent = t.nodes[s.page(l, i)];
            &&& c > 0
            &&& match left.data {
                DataView::Leaf(a) => {
                    &&& child.data matches DataView::Leaf(b)
                    &&& merged.data matches DataView::Leaf(all)
                    &&& all == a + b
                },
                DataView::Index(a) => {
                    &&& child.data matches DataView::Index(b)
                    &&& merged.data matches DataView::Index(all)
                    &&& all == a + b
                },
            }
            &&& merged.lo == left.lo && merged.hi == child.hi && merged.next == child.next
            &&& t.levels[l + 1] == s.levels[l + 1].remove(c)
            &&& parent.merging_child is None
            &&& parent.pointers().len() == s.node(l, i).pointers().len() - 1
            &&& forall|j: int|
                #![trigger parent.pointers()[j]]
                0 <= j < parent.pointers().len() ==> parent.pointers()[j].1 != s.page(l + 1, c)
                    && s.node(l, i).pointers().contains(parent.pointers()[j])
            &&& parent.lo == s.node(l, i).lo && parent.hi == s.node(l, i).hi
            &&& parent.next == s.node(l, i).next
        }),
{
    broadcast use group_key_order;

    let child = s.page(l + 1, c);
    let t = merged_shape(s, l, i);
    lemma_merging_child(s, l, i);
    lemma_merged_shape(s, l, i);
    assert(s.place_ok(l, i));
    assert(s.placed(child));
    let d = s.place_of(l + 1, child, s.nodes[child].lo);
    assert(s.page(l + 1, d) == s.page(l + 1, c));
    assert(s.place_ok(l + 1, c));
    assert(s.place_ok(l + 1, c - 1));
    let u = s.with_node(l + 1, c, NodeView { merging: true, ..s.nodes[child] });
    assert(s.announces(l, i, child));
    assert(s.announced(l + 1 - 1, child));
    lemma_cap(s, l + 1, c);
    assert(s.page(l + 1, c - 1) != s.page(l + 1, c));
    assert(s.page(l, i) != s.page(l + 1, c - 1));
    assert(u.node(l + 1, c - 1) == s.node(l + 1, c - 1));
    let pointers = s.node(l, i).pointers();
    let at = pointer_at(pointers, child, 0);
    lemma_pointer_at(pointers, child, 0);
    let after = t.nodes[s.page(l, i)].pointers();
    assert(t.node(l, i) == s.node(l, i).with_merge_confirmed());
    assert(t.page(l, i) == s.page(l, i)) by {
        assert(t.levels[l] == s.levels[l]);
    }
    assert(after == pointers.remove(at));
    assert forall|j: int| #![trigger after[j]] 0 <= j < after.len() implies after[j].1 != child
        && pointers.contains(after[j]) by {
        let k = if j < at {
            j
        } else {
            j + 1
        };
        assert(after[j] == pointers[k]);
        if pointers[k].1 == child {
            lemma_pointers_distinct(s, l, i, k, at);
        }
    }
}

// ---------------------------------------------------------------------------
// What a search finds and leaves behind.

/// The path to a key goes down from the root level a level at a step. Each page on it
/// is of its level and holds a node between whose bounds the key is; each node points
/// to the next page, from where that starts; and the last is a leaf.
pub proof fn law_path_leads_down(
    s: Shape,
    path: Seq<(PageId, Arc<Node>)>,
    key: Seq<u8>,
    j: int,
)
    requires
        s.wf(),
        path_ok(s, path, key),
        0 <= j < path.len(),
    ensures
        path.len() == s.levels.len(),
        s.levels[j].contains(path[j].0),
        s.nodes.contains_key(path[j].0),
        ({
            let node = s.nodes[path[j].0];
            &&& node.lo == key || key_lt(node.lo, key)
            &&& node.hi.len() == 0 || key_lt(key, node.hi)
            &&& node.merging_child is None
            &&& node.data is Leaf == (j == path.len() - 1)
            &&& j + 1 < path.len() ==> node.pointers().contains(
                (s.nodes[path[j + 1].0].lo, path[j + 1].0),
            )
            &&& path[j].1@.lo == node.lo && path[j].1@.hi == node.hi
        }),
{
    broadcast use group_key_order;

    assert(step_ok(s, path, key, j));
    lemma_home(s, j, key);
    let h = s.home(j, key);
    assert(s.place_ok(j, h));
    assert(s.levels[j][h] == path[j].0);
    if j + 1 < path.len() {
        assert(step_ok(s, path, key, j + 1));
        let node = s.nodes[path[j].0];
        let lo = path[j + 1].1@.lo;
        let r = rank(node.pointers(), lo);
        assert(lookup(node.pointers(), lo) == Some(path[j + 1].0));
        lemma_rank(node.pointers(), lo);
        assert(node.pointers()[r] == (lo, path[j + 1].0));
    }
}

/// Where no node announces a merge, no search comes across one.
pub proof fn law_no_announcement_is_quiet(s: Shape, key: Seq<u8>)
    requires
        s.wf(),
        forall|p: PageId| #[trigger]
            s.nodes.contains_key(p) ==> s.nodes[p].merging_child is None,
    ensures
        quiet(s, key),
{
    assert forall|l: int, i: int| #[trigger] on_the_way(s, key, l, i) implies s.node(
        l,
        i,
    ).merging_child is None by {
        assert(s.place_ok(l, i));
    }
}

/// A search that has come across no merge tells the nodes that were on its pages before
/// it linked any of them.
pub proof fn law_path_shows_what_was_there(
    s: Shape,
    t: Shape,
    path: Seq<(PageId, Arc<Node>)>,
    key: Seq<u8>,
    j: int,
)
    requires
        s.wf(),
        found_way(s, t, path, key),
        0 <= j < path.len(),
    ensures
        path.len() == s.levels.len(),
        t.levels == s.levels,
        s.levels[j].contains(path[j].0),
        path[j].1@ == s.nodes[path[j].0],
        path[j].1@.lo == key || key_lt(path[j].1@.lo, key),
        path[j].1@.hi.len() == 0 || key_lt(key, path[j].1@.hi),
{
    broadcast use group_key_order;

    lemma_home(s, j, key);
    assert(s.levels[j][s.home(j, key)] == path[j].0);
}

/// A search leaves no announcement on any node to which it has come: one that starts
/// no later than the key, and no earlier than any separator of the node above that is
/// not after the key.
pub proof fn law_way_is_cleared(s: Shape, t: Shape, key: Seq<u8>, l: int, i: int, h: int)
    requires
        s.wf(),
        cleared(s, t, key),
        s.place(l, i),
        s.node(l, i).lo == key || key_lt(s.node(l, i).lo, key),
        l > 0 ==> {
            &&& s.place(l - 1, h)
            &&& s.node(l - 1, h).covers(key)
            &&& forall|j: int|
                #![trigger s.node(l - 1, h).pointers()[j]]
                0 <= j < s.node(l - 1, h).pointers().len() && (s.node(l - 1, h).pointers()[j].0
                    == key || key_lt(s.node(l - 1, h).pointers()[j].0, key)) ==> !key_lt(
                    s.node(l, i).lo,
                    s.node(l - 1, h).pointers()[j].0,
                )
        },
    ensures
        t.nodes[s.page(l, i)].merging_child is None,
{
    broadcast use group_key_order;

    if l > 0 {
        lemma_home_is(s, l - 1, h, key);
    }
    assert(on_the_way(s, key, l, i));
}

// ---------------------------------------------------------------------------
// What is left of a tree that has been removed.

/// Freeing goes from a page to its right siblings, until there is none or one is met
/// that is free already; a page that does not exist is reported, and levels above it
/// are left as they are.
pub proof fn law_sweep_goes_right(
    nodes: Map<PageId, NodeView>,
    limit: nat,
    pid: PageId,
    above: Seq<PageId>,
)
    requires
        nodes.dom().finite(),
    ensures
        swept_all(nodes, limit, Seq::empty()) == (nodes, true),
        nodes.contains_key(pid) ==> match nodes[pid].next {
            Some(next) => swept(nodes, limit, pid) == swept(nodes.remove(pid), limit, next),
            None => swept(nodes, limit, pid) == (nodes.remove(pid), true),
        },
        !nodes.contains_key(pid) && pid < limit ==> swept(nodes, limit, pid) == (nodes, true),
        !nodes.contains_key(pid) && pid >= limit ==> {
            &&& swept(nodes, limit, pid) == (nodes, false)
            &&& swept_all(nodes, limit, above.push(pid)) == (nodes, false)
        },
        swept(nodes, limit, pid).1 ==> swept_all(nodes, limit, above.push(pid)) == swept_all(
            swept(nodes, limit, pid).0,
            limit,
            above,
        ),
{
    assert(above.push(pid).drop_last() =~= above);
}

/// Freeing the levels of a tree, each from its leftmost page on, frees every page of
/// every level, and no page that is on none.
pub proof fn law_all_levels_are_freed(s: Shape, limit: nat, p: PageId)
    requires
        s.wf(),
        s.nodes.dom().finite(),
    ensures
        ({
            let left = swept_all(s.nodes, limit, leftmost(s)).0;
            &&& forall|l: int, i: int|
                #![trigger s.levels[l][i]]
                0 <= l < s.levels.len() && 0 <= i < s.levels[l].len() ==> !left.contains_key(
                    s.levels[l][i],
                )
            &&& s.nodes.contains_key(p) && (forall|l: int, i: int|
                #![trigger s.levels[l][i]]
                0 <= l < s.levels.len() && 0 <= i < s.levels[l].len() ==> s.levels[l][i] != p)
                ==> left.contains_key(p) && left[p] == s.nodes[p]
        }),
        orphans(s) == swept_all(s.nodes, limit, leftmost(s)).0,
        leftmost(s).len() == s.levels.len(),
        forall|l: int| 0 <= l < s.levels.len() ==> #[trigger] leftmost(s)[l] == s.levels[l][0],
{
    law_sweep(s, limit);
    assert forall|l: int, i: int|
        #![trigger s.levels[l][i]]
        0 <= l < s.levels.len() && 0 <= i < s.levels[l].len() implies !orphans(s).contains_key(
        s.levels[l][i],
    ) by {
        assert(s.place(l, i) && s.page(l, i) == s.levels[l][i]);
    }
}

} // verus!
