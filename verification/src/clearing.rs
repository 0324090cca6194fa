//! What a search clears up: the merges that had been announced on its way.

use crate::help::{all_due, helped, on_the_way, tidied, Help};
use crate::key::{group_key_order, key_le};
use crate::moves::{
    absorbed_shape, after_remove, before_remove, lemma_absorb_places, lemma_index_child,
};
use crate::node::{lemma_pointer_at, pointer_at, NodeView, PageId};
use crate::shape::{lemma_cap, lemma_chain_order, lemma_home, lemma_home_is, lemma_same_home, Shape};
use crate::traverse::{lemma_merged_shape, lemma_merging_child, merged_shape};
use vstd::prelude::*;

verus! {

/// Whether all merges that had been announced on the way to `key` have been completed.
pub open spec fn cleared(s: Shape, t: Shape, key: Seq<u8>) -> bool {
    forall|l: int, i: int| #[trigger]
        on_the_way(s, key, l, i) ==> t.nodes[s.page(l, i)].merging_child is None
}

/// Some separator is at `x` or after it, but not after `key`.
pub open spec fn reached(pointers: Seq<(Seq<u8>, PageId)>, x: Seq<u8>, key: Seq<u8>) -> bool {
    exists|k: int|
        #![trigger pointers[k]]
        0 <= k < pointers.len() && key_le(x, pointers[k].0) && key_le(pointers[k].0, key)
}

/// On level `m` of `t`, the way to `key` turns off no later than in `s`.
pub open spec fn turns_early(s: Shape, t: Shape, key: Seq<u8>, m: int) -> bool {
    let was = s.node(m, s.home(m, key)).pointers();
    let now = t.node(m, t.home(m, key)).pointers();
    forall|j: int|
        #![trigger now[j]]
        0 <= j < now.len() && key_le(now[j].0, key) ==> reached(was, now[j].0, key)
}

/// Page `p`, at place `k` of level `m`, is not before place `i` of level `l`.
pub open spec fn ahead_at(
    t: Shape,
    p: PageId,
    lo: Seq<u8>,
    m: int,
    k: int,
    l: int,
    i: int,
) -> bool {
    &&& t.starts_at(m, k, p, lo)
    &&& m == l ==> k >= i
}

/// Page `p` of level `m` is one to which a search that has got to place `i` of level
/// `l` may still come.
pub open spec fn ahead(t: Shape, p: PageId, lo: Seq<u8>, m: int, l: int, i: int) -> bool {
    m >= l && exists|k: int| ahead_at(t, p, lo, m, k, l, i)
}

/// A search that has got to place `i` of level `l` has completed the merges that had
/// been announced on its way, but for those that are ahead of it.
pub open spec fn clearing(s: Shape, t: Shape, key: Seq<u8>, l: int, i: int) -> bool {
    &&& t.levels.len() == s.levels.len()
    &&& forall|m: int| l <= m < s.bottom() ==> #[trigger] turns_early(s, t, key, m)
    &&& forall|m: int, k: int| #[trigger]
        on_the_way(s, key, m, k) ==> t.nodes[s.page(m, k)].merging_child is None || ahead(
            t,
            s.page(m, k),
            s.node(m, k).lo,
            m,
            l,
            i,
        )
}

/// At the start, all is ahead.
pub proof fn lemma_clearing_start(s: Shape, key: Seq<u8>)
    ensures
        clearing(s, s, key, 0, 0),
{
    broadcast use group_key_order;

    assert forall|m: int| 0 <= m < s.bottom() implies #[trigger] turns_early(s, s, key, m) by {
        let now = s.node(m, s.home(m, key)).pointers();
        assert forall|j: int|
            #![trigger now[j]]
            0 <= j < now.len() && key_le(now[j].0, key) implies reached(now, now[j].0, key) by {
            assert(key_le(now[j].0, now[j].0));
        }
    }
    assert forall|m: int, k: int| #[trigger] on_the_way(s, key, m, k) implies ahead(
        s,
        s.page(m, k),
        s.node(m, k).lo,
        m,
        0,
        0,
    ) by {
        assert(ahead_at(s, s.page(m, k), s.node(m, k).lo, m, k, 0, 0));
    }
}

/// Going on to the right sibling of a node that has announced no merge.
pub proof fn lemma_clearing_right(s: Shape, t: Shape, key: Seq<u8>, l: int, i: int)
    requires
        clearing(s, t, key, l, i),
        t.node(l, i).merging_child is None,
    ensures
        clearing(s, t, key, l, i + 1),
{
    assert forall|m: int, k: int| #[trigger]
        on_the_way(s, key, m, k) && t.nodes[s.page(m, k)].merging_child is Some implies ahead(
        t,
        s.page(m, k),
        s.node(m, k).lo,
        m,
        l,
        i + 1,
    ) by {
        let p = s.page(m, k);
        let lo = s.node(m, k).lo;
        let d = choose|d: int| ahead_at(t, p, lo, m, d, l, i);
        assert(ahead_at(t, p, lo, m, d, l, i + 1));
    }
}

/// Having a node of a level above come to know one more.
pub proof fn lemma_clearing_link(
    s: Shape,
    t: Shape,
    key: Seq<u8>,
    l: int,
    i: int,
    h: int,
    node: NodeView,
)
    requires
        t.wf(),
        clearing(s, t, key, l, i),
        t.place(l - 1, h),
        t.with_node(l - 1, h, node).wf(),
        node.lo == t.node(l - 1, h).lo,
        node.hi == t.node(l - 1, h).hi,
        node.merging_child is None,
    ensures
        clearing(s, t.with_node(l - 1, h, node), key, l, i),
{
    let u = t.with_node(l - 1, h, node);
    assert forall|m: int, k: int|
        #![trigger u.node(m, k)]
        t.place(m, k) && m >= l implies u.node(m, k) == t.node(m, k) by {
        assert(t.page(m, k) != t.page(l - 1, h));
    }
    assert forall|m: int| l <= m < s.bottom() implies #[trigger] turns_early(s, u, key, m) by {
        assert(turns_early(s, t, key, m));
        assert forall|k: int| #![trigger t.node(m, k)] t.place(m, k) implies t.node(m, k).lo
            == u.node(m, k).lo && t.node(m, k).hi == u.node(m, k).hi by {
            assert(u.node(m, k) == t.node(m, k));
        }
        lemma_same_home(t, u, m, key);
        lemma_home(t, m, key);
        assert(u.node(m, t.home(m, key)) == t.node(m, t.home(m, key)));
    }
    assert forall|m: int, k: int| #[trigger]
        on_the_way(s, key, m, k) && u.nodes[s.page(m, k)].merging_child is Some implies ahead(
        u,
        s.page(m, k),
        s.node(m, k).lo,
        m,
        l,
        i,
    ) by {
        let p = s.page(m, k);
        let lo = s.node(m, k).lo;
        let d = choose|d: int| ahead_at(t, p, lo, m, d, l, i);
        assert(u.node(m, d) == t.node(m, d));
        assert(ahead_at(u, p, lo, m, d, l, i));
    }
}

/// Going down from the node in which `key` belongs to the child at its last separator
/// that is not after the key.
pub proof fn lemma_clearing_down(
    s: Shape,
    t: Shape,
    key: Seq<u8>,
    l: int,
    i: int,
    at: int,
    c: int,
)
    requires
        s.wf(),
        t.wf(),
        clearing(s, t, key, l, i),
        0 <= l < s.bottom(),
        t.place(l, i),
        t.node(l, i).covers(key),
        t.node(l, i).merging_child is None,
        0 <= at < t.node(l, i).pointers().len(),
        key_le(t.node(l, i).pointers()[at].0, key),
        t.place(l + 1, c),
        t.node(l + 1, c).lo == t.node(l, i).pointers()[at].0,
    ensures
        clearing(s, t, key, l + 1, c),
{
    broadcast use group_key_order;

    lemma_home_is(t, l, i, key);
    assert(turns_early(s, t, key, l));
    let x = t.node(l, i).pointers()[at].0;
    let was = s.node(l, s.home(l, key)).pointers();
    assert(reached(was, x, key));
    assert forall|m: int, k: int| #[trigger]
        on_the_way(s, key, m, k) && t.nodes[s.page(m, k)].merging_child is Some implies ahead(
        t,
        s.page(m, k),
        s.node(m, k).lo,
        m,
        l + 1,
        c,
    ) by {
        let p = s.page(m, k);
        let lo = s.node(m, k).lo;
        let d = choose|d: int| ahead_at(t, p, lo, m, d, l, i);
        if m == l {
            if d > i {
                lemma_chain_order(t, l, i, d);
            }
            assert(false);
        }
        if m == l + 1 {
            let y = choose|y: int|
                #![trigger was[y]]
                0 <= y < was.len() && key_le(x, was[y].0) && key_le(was[y].0, key);
            assert(key_le(was[y].0, lo));
            if d < c {
                lemma_chain_order(t, l + 1, d, c);
            }
        }
        assert(ahead_at(t, p, lo, m, d, l + 1, c));
    }
}

/// At a leaf, nothing is ahead.
pub proof fn lemma_clearing_end(s: Shape, t: Shape, key: Seq<u8>, i: int)
    requires
        t.wf(),
        clearing(s, t, key, s.bottom(), i),
    ensures
        cleared(s, t, key),
{
    assert forall|m: int, k: int| #[trigger] on_the_way(s, key, m, k) implies t.nodes[s.page(
        m,
        k,
    )].merging_child is None by {
        let p = s.page(m, k);
        let lo = s.node(m, k).lo;
        if t.nodes[p].merging_child is Some {
            let d = choose|d: int| ahead_at(t, p, lo, m, d, s.bottom(), i);
            assert(t.starts_at(m, d, p, lo));
            assert(t.merging_ok(m, d));
        }
    }
}

/// Where a node stands after a merge that it takes no part in as the child.
proof fn lemma_place_after_merge(s: Shape, l: int, i: int, m: int, k: int) -> (d: int)
    requires
        s.wf(),
        s.place(l, i),
        s.node(l, i).merging_child is Some,
        s.place(m, k),
        s.node(l, i).merging_child != Some(s.page(m, k)),
    ensures
        merged_shape(s, l, i).starts_at(m, d, s.page(m, k), s.node(m, k).lo),
        m == l ==> d == k,
{
    let parent = s.node(l, i);
    let child = parent.merging_child->0;
    let t = merged_shape(s, l, i);
    let p = s.page(m, k);
    lemma_merging_child(s, l, i);
    if s.placed(child) {
        let c = s.place_of(l + 1, child, s.nodes[child].lo);
        let u = s.with_node(l + 1, c, NodeView { merging: true, ..s.nodes[child] });
        assert(s.announces(l, i, child));
        assert(s.announced(l + 1 - 1, child));
        lemma_cap(s, l + 1, c);
        lemma_absorb_places(u, l + 1, c - 1);
        let v = absorbed_shape(u, l + 1, c - 1);
        assert(u.page(m, k) == p);
        assert(u.page(l + 1, c) == child);
        let d = after_remove(l + 1, c - 1, m, k);
        assert(v.place(m, d) && v.page(m, d) == p);
        assert(t.page(m, d) == p);
        assert(u.page(l + 1, c - 1) == s.page(l + 1, c - 1));
        d
    } else {
        assert(t.page(m, k) == p);
        k
    }
}

/// What a merge does to the announcements: that of the parent is gone, and all others
/// are as they were.
proof fn lemma_announcements_after_merge(s: Shape, l: int, i: int, p: PageId)
    requires
        s.wf(),
        s.place(l, i),
        s.node(l, i).merging_child is Some,
    ensures
        merged_shape(s, l, i).nodes[p].merging_child == if p == s.page(l, i) {
            None
        } else {
            s.nodes[p].merging_child
        },
{
    let child = s.node(l, i).merging_child->0;
    lemma_merging_child(s, l, i);
    if s.placed(child) {
        let c = s.place_of(l + 1, child, s.nodes[child].lo);
        let u = s.with_node(l + 1, c, NodeView { merging: true, ..s.nodes[child] });
        assert(u.page(l + 1, c - 1) == s.page(l + 1, c - 1));
        assert(s.page(l + 1, c - 1) != s.page(l + 1, c));
    }
}

/// A merge lets the way turn off no later than it did.
proof fn lemma_turns_after_merge(s: Shape, t: Shape, key: Seq<u8>, l: int, i: int, m: int)
    requires
        t.wf(),
        t.place(l, i),
        t.node(l, i).merging_child is Some,
        0 <= m < t.bottom(),
        turns_early(s, t, key, m),
    ensures
        turns_early(s, merged_shape(t, l, i), key, m),
{
    broadcast use group_key_order;

    let u = merged_shape(t, l, i);
    lemma_merged_shape(t, l, i);
    lemma_merging_child(t, l, i);
    lemma_home(t, m, key);
    lemma_home(u, m, key);
    let h = t.home(m, key);
    let was = s.node(m, s.home(m, key)).pointers();
    let before = t.node(m, h).pointers();
    let child = t.node(l, i).merging_child->0;
    if m == l + 1 && t.placed(child) {
        let c = t.place_of(l + 1, child, t.nodes[child].lo);
        let capped = t.with_node(l + 1, c, NodeView { merging: true, ..t.nodes[child] });
        assert(t.announces(l, i, child));
        assert(t.announced(l + 1 - 1, child));
        lemma_cap(t, l + 1, c);
        lemma_absorb_places(capped, l + 1, c - 1);
        let v = absorbed_shape(capped, l + 1, c - 1);
        assert(t.place_ok(m, c));
        assert(t.place_ok(m, c - 1));
        assert forall|k: int| #![trigger capped.node(m, k)] t.place(m, k) && k != c implies capped.node(
            m,
            k,
        ) == t.node(m, k) by {
            assert(t.page(m, k) != t.page(m, c));
        }
        let left = t.node(m, c - 1);
        let right = t.node(m, c);
        assert(capped.node(m, c - 1) == left);
        assert(v.node(m, c - 1).pointers() == left.pointers() + right.pointers());
        assert forall|k: int| #![trigger v.node(m, k)] v.place(m, k) implies u.node(m, k) == v.node(
            m,
            k,
        ) by {
            let b = before_remove(m, c - 1, m, k);
            assert(v.page(m, k) == capped.page(m, b));
            assert(t.page(m, b) != t.page(l, i));
        }
        let d = if h == c || h == c - 1 {
            c - 1
        } else {
            after_remove(m, c - 1, m, h)
        };
        assert(capped.page(m, h) == t.page(m, h));
        assert(v.place(m, d));
        assert(u.node(m, d) == v.node(m, d));
        if h != c && h != c - 1 {
            assert(v.node(m, d) == capped.node(m, h));
        }
        assert(u.node(m, d).covers(key));
        lemma_home_is(u, m, d, key);
        let now = u.node(m, d).pointers();
        assert forall|j: int|
            #![trigger now[j]]
            0 <= j < now.len() && key_le(now[j].0, key) implies reached(was, now[j].0, key) by {
            if h == c - 1 {
                if j >= left.pointers().len() {
                    let z = j - left.pointers().len();
                    assert(now[j] == right.pointers()[z]);
                    assert(right.covers(right.pointers()[z].0));
                }
                assert(now[j] == before[j]);
            } else if h == c {
                if j >= left.pointers().len() {
                    assert(now[j] == before[j - left.pointers().len()]);
                } else {
                    assert(now[j] == left.pointers()[j]);
                    assert(left.covers(left.pointers()[j].0));
                    assert(before[0].0 == right.lo);
                    assert(reached(was, before[0].0, key));
                    let y = choose|y: int|
                        #![trigger was[y]]
                        0 <= y < was.len() && key_le(before[0].0, was[y].0) && key_le(
                            was[y].0,
                            key,
                        );
                    assert(key_le(now[j].0, was[y].0));
                }
            } else {
                assert(now[j] == before[j]);
            }
        }
    } else {
        assert forall|k: int| #![trigger t.node(m, k)] t.place(m, k) implies t.node(m, k).lo
            == u.node(m, k).lo && t.node(m, k).hi == u.node(m, k).hi by {
            if m == l + 1 {
                assert(t.page(m, k) != t.page(l, i));
            } else if !(m == l && k == i) {
                assert(u.node(m, k) == t.node(m, k));
            }
        }
        assert(u.levels[m] == t.levels[m]);
        lemma_same_home(t, u, m, key);
        let now = u.node(m, h).pointers();
        assert forall|j: int|
            #![trigger now[j]]
            0 <= j < now.len() && key_le(now[j].0, key) implies reached(was, now[j].0, key) by {
            if m == l && h == i {
                let dropped = pointer_at(before, child, 0);
                lemma_pointer_at(before, child, 0);
                assert(now == before.remove(dropped));
                let k = if j < dropped {
                    j
                } else {
                    j + 1
                };
                assert(now[j] == before[k]);
            } else {
                if m == l + 1 {
                    assert(t.page(m, h) != t.page(l, i));
                }
                assert(u.node(m, h) == t.node(m, h));
                assert(now[j] == before[j]);
            }
        }
    }
}

/// Completing the merge that the node has announced to which a search has come.
pub proof fn lemma_clearing_merge(s: Shape, t: Shape, key: Seq<u8>, l: int, i: int)
    requires
        t.wf(),
        clearing(s, t, key, l, i),
        t.place(l, i),
        t.node(l, i).merging_child is Some,
    ensures
        clearing(s, merged_shape(t, l, i), key, l, i),
{
    let u = merged_shape(t, l, i);
    lemma_merged_shape(t, l, i);
    assert(t.merging_ok(l, i));
    assert forall|m: int| l <= m < s.bottom() implies #[trigger] turns_early(s, u, key, m) by {
        assert(turns_early(s, t, key, m));
        lemma_turns_after_merge(s, t, key, l, i, m);
    }
    assert forall|m: int, k: int| #[trigger]
        on_the_way(s, key, m, k) && u.nodes[s.page(m, k)].merging_child is Some implies ahead(
        u,
        s.page(m, k),
        s.node(m, k).lo,
        m,
        l,
        i,
    ) by {
        let p = s.page(m, k);
        let lo = s.node(m, k).lo;
        lemma_announcements_after_merge(t, l, i, p);
        let d = choose|d: int| ahead_at(t, p, lo, m, d, l, i);
        let e = lemma_place_after_merge(t, l, i, m, d);
        assert(ahead_at(u, p, lo, m, e, l, i));
    }
}

/// Searches announce no merge.
proof fn lemma_none_announced(s: Shape, helps: Seq<Help>)
    requires
        s.wf(),
        all_due(s, helps),
    ensures
        helped(s, helps).wf(),
        forall|p: PageId|
            s.nodes[p].merging_child is None ==> #[trigger] helped(
                s,
                helps,
            ).nodes[p].merging_child is None,
    decreases helps.len(),
{
    if helps.len() > 0 {
        let t = helped(s, helps.drop_last());
        lemma_none_announced(s, helps.drop_last());
        match helps.last() {
            Help::Merge { level, place, .. } => {
                lemma_merged_shape(t, level, place);
                assert forall|p: PageId| s.nodes[p].merging_child is None implies #[trigger] helped(
                    s,
                    helps,
                ).nodes[p].merging_child is None by {
                    assert(t.nodes[p].merging_child is None);
                    lemma_announcements_after_merge(t, level, place, p);
                }
            },
            Help::Link { key, level } => {
                lemma_home(t, level, key);
                lemma_home(t, level + 1, key);
                lemma_index_child(t, level, t.home(level, key), t.home(level + 1, key));
                assert forall|p: PageId| s.nodes[p].merging_child is None implies #[trigger] helped(
                    s,
                    helps,
                ).nodes[p].merging_child is None by {
                    assert(t.nodes[p].merging_child is None);
                }
            },
        }
    }
}

/// What has been cleared stays cleared through searches.
pub proof fn lemma_stays_cleared(s: Shape, t: Shape, u: Shape, key: Seq<u8>)
    requires
        t.wf(),
        cleared(s, t, key),
        tidied(t, u),
    ensures
        cleared(s, u, key),
{
    let helps = choose|helps: Seq<Help>| #[trigger] all_due(t, helps) && u == helped(t, helps);
    lemma_none_announced(t, helps);
}

} // verus!
