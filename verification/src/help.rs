//! The help that searches give: which pages they change, and how.

use crate::entries::{holds_key, lemma_rank, lemma_with_entry, rank};
use crate::key::key_le;
use crate::moves::lemma_index_child;
use crate::node::{Node, NodeView, PageId};
use crate::shape::{lemma_home, lemma_same_home, Shape};
use crate::traverse::{lemma_merging_child, merged_shape, path_ok, step_ok};
use crate::tree::Tree;
use std::sync::Arc;
use vstd::prelude::*;

verus! {

/// Whether a search for `key` comes to place `i` of level `l`: the node there starts
/// no later than the key, and no earlier than the last separator of the node above
/// that is not after the key.
pub open spec fn on_the_way(s: Shape, key: Seq<u8>, l: int, i: int) -> bool {
    let lo = s.node(l, i).lo;
    let above = s.node(l - 1, s.home(l - 1, key)).pointers();
    &&& s.place(l, i)
    &&& key_le(lo, key)
    &&& l > 0 ==> forall|j: int|
        #![trigger above[j]]
        0 <= j < above.len() && key_le(above[j].0, key) ==> key_le(above[j].0, lo)
}

/// What a search does for others.
pub enum Help {
    /// Completes the merge that the node at a place on its way has announced.
    Merge { key: Seq<u8>, level: int, place: int },
    /// Has the node of its way on a level know the one below, which was split off.
    Link { key: Seq<u8>, level: int },
}

impl Help {
    /// The key that was searched for.
    pub open spec fn key(self) -> Seq<u8> {
        match self {
            Help::Merge { key, .. } => key,
            Help::Link { key, .. } => key,
        }
    }

    /// Whether there is something to be done.
    pub open spec fn due(self, s: Shape) -> bool {
        match self {
            Help::Merge { key, level, place } => {
                &&& on_the_way(s, key, level, place)
                &&& s.node(level, place).merging_child is Some
            },
            Help::Link { key, level } => {
                let above = s.node(level, s.home(level, key));
                let below = s.node(level + 1, s.home(level + 1, key));
                &&& 0 <= level < s.bottom()
                &&& above.merging_child is None
                &&& above.covers(below.lo)
                &&& !holds_key(above.pointers(), below.lo)
            },
        }
    }

    /// The shape when it has been done.
    pub open spec fn done(self, s: Shape) -> Shape {
        match self {
            Help::Merge { level, place, .. } => merged_shape(s, level, place),
            Help::Link { key, level } => {
                let h = s.home(level, key);
                let c = s.home(level + 1, key);
                s.with_node(
                    level,
                    h,
                    s.node(level, h).with_parent_split(s.node(level + 1, c).lo, s.page(level + 1, c)),
                )
            },
        }
    }
}

/// The shape when all of `helps` have been done, one after another.
pub open spec fn helped(s: Shape, helps: Seq<Help>) -> Shape
    decreases helps.len(),
{
    if helps.len() == 0 {
        s
    } else {
        helps.last().done(helped(s, helps.drop_last()))
    }
}

/// Whether each of `helps` is due when those before it have been done.
pub open spec fn all_due(s: Shape, helps: Seq<Help>) -> bool
    decreases helps.len(),
{
    helps.len() == 0 || {
        &&& all_due(s, helps.drop_last())
        &&& helps.last().due(helped(s, helps.drop_last()))
    }
}

/// Whether `helps` are given by searches for `key` alone.
pub open spec fn all_for(helps: Seq<Help>, key: Seq<u8>) -> bool {
    forall|i: int| #![trigger helps[i]] 0 <= i < helps.len() ==> helps[i].key() == key
}

/// Whether `t` is `s` after a search for `key`: the search has changed no page but by
/// the help that it has given on its way.
pub open spec fn searched(s: Shape, t: Shape, key: Seq<u8>) -> bool {
    exists|helps: Seq<Help>| #[trigger]
        all_due(s, helps) && t == helped(s, helps) && all_for(helps, key)
}

/// Whether `t` is `s` after searches.
pub open spec fn tidied(s: Shape, t: Shape) -> bool {
    exists|helps: Seq<Help>| #[trigger] all_due(s, helps) && t == helped(s, helps)
}

impl<M> Tree<M> {
    /// Nothing has changed but what searches have tidied up.
    pub open(crate) spec fn only_tidied(&self, before: &Tree<M>) -> bool {
        &&& self.only_pages_changed(before)
        &&& self.root == before.root
        &&& tidied(before.shape(), self.shape())
    }
}

/// A search that completes a merge writes to three pages at most: that of the parent,
/// that of the child, and that of the child's left sibling. One that links a child
/// writes to the page of the parent alone. No page comes or goes.
pub proof fn law_help_touches(s: Shape, help: Help, p: PageId)
    requires
        s.wf(),
        help.due(s),
    ensures
        help.done(s).nodes.dom() == s.nodes.dom(),
        help.done(s).nodes[p] != s.nodes[p] ==> match help {
            Help::Merge { level, place, .. } => {
                let child = s.node(level, place).merging_child->0;
                let c = s.place_of(level + 1, child, s.nodes[child].lo);
                ||| p == s.page(level, place)
                ||| p == child
                ||| p == s.page(level + 1, c - 1)
            },
            Help::Link { key, level } => p == s.page(level, s.home(level, key)),
        },
{
    match help {
        Help::Merge { level, place, .. } => {
            lemma_merging_child(s, level, place);
            assert(s.place_ok(level, place));
            let child = s.node(level, place).merging_child->0;
            let c = s.place_of(level + 1, child, s.nodes[child].lo);
            if s.placed(child) {
                assert(s.place_ok(level + 1, c - 1));
            }
        },
        Help::Link { key, level } => {
            lemma_home(s, level, key);
            assert(s.place_ok(level, s.home(level, key)));
        },
    }
    assert(help.done(s).nodes.dom() =~= s.nodes.dom());
}

/// One help more.
pub proof fn lemma_helped_push(s: Shape, helps: Seq<Help>, help: Help)
    requires
        all_due(s, helps),
        help.due(helped(s, helps)),
    ensures
        all_due(s, helps.push(help)),
        helped(s, helps.push(help)) == help.done(helped(s, helps)),
{
    assert(helps.push(help).drop_last() =~= helps);
}

proof fn lemma_helped_join(s: Shape, a: Seq<Help>, b: Seq<Help>)
    requires
        all_due(s, a),
        all_due(helped(s, a), b),
    ensures
        all_due(s, a + b),
        helped(s, a + b) == helped(helped(s, a), b),
    decreases b.len(),
{
    if b.len() == 0 {
        assert(a + b =~= a);
    } else {
        lemma_helped_join(s, a, b.drop_last());
        assert((a + b).drop_last() =~= a + b.drop_last());
    }
}

/// No search leaves all as it is.
pub proof fn lemma_searched_none(s: Shape, key: Seq<u8>)
    ensures
        searched(s, s, key),
        tidied(s, s),
{
    let none = Seq::<Help>::empty();
    assert(all_due(s, none));
    assert(helped(s, none) == s);
    assert(all_for(none, key));
}

/// A search tidies up.
pub proof fn lemma_searched_tidies(s: Shape, t: Shape, key: Seq<u8>)
    requires
        searched(s, t, key),
    ensures
        tidied(s, t),
{
    let helps = choose|helps: Seq<Help>| #[trigger]
        all_due(s, helps) && t == helped(s, helps) && all_for(helps, key);
    assert(all_due(s, helps));
}

/// Searches after searches are searches.
pub proof fn lemma_tidied_further(s: Shape, t: Shape, u: Shape)
    requires
        tidied(s, t),
        tidied(t, u),
    ensures
        tidied(s, u),
{
    let a = choose|helps: Seq<Help>| #[trigger] all_due(s, helps) && t == helped(s, helps);
    let b = choose|helps: Seq<Help>| #[trigger] all_due(t, helps) && u == helped(t, helps);
    lemma_helped_join(s, a, b);
    assert(all_due(s, a + b));
}

/// Searches after searches change nothing but what searches tidy up.
pub proof fn lemma_only_tidied_further<M>(a: &Tree<M>, b: &Tree<M>, c: &Tree<M>)
    requires
        b.only_tidied(a),
        c.only_tidied(b),
    ensures
        c.only_tidied(a),
{
    lemma_tidied_further(a.shape(), b.shape(), c.shape());
}

// ---------------------------------------------------------------------------
// Searches that come across no merge.

/// Whether no merge has been announced on the way to `key`.
pub open spec fn quiet(s: Shape, key: Seq<u8>) -> bool {
    forall|l: int, i: int| #[trigger]
        on_the_way(s, key, l, i) ==> s.node(l, i).merging_child is None
}

/// The node of the way to `key` on level `l`, knowing the one below.
pub open spec fn linked_node(s: Shape, key: Seq<u8>, l: int) -> NodeView {
    let h = s.home(l, key);
    let c = s.home(l + 1, key);
    s.node(l, h).with_parent_split(s.node(l + 1, c).lo, s.page(l + 1, c))
}

/// Page `p` is of the way to `key`, on level `l`, and has come to know the one below.
spec fn linked_at(s: Shape, t: Shape, key: Seq<u8>, p: PageId, l: int) -> bool {
    &&& 0 <= l < s.bottom()
    &&& p == s.page(l, s.home(l, key))
    &&& t.nodes[p] == linked_node(s, key, l)
}

/// `t` is `s` but for nodes of the way to `key` that have come to know the one below.
spec fn only_linked(s: Shape, t: Shape, key: Seq<u8>) -> bool {
    &&& t.levels == s.levels
    &&& t.nodes.dom() == s.nodes.dom()
    &&& forall|p: PageId| #[trigger]
        s.nodes.contains_key(p) ==> t.nodes[p] == s.nodes[p] || exists|l: int|
            linked_at(s, t, key, p, l)
}

/// Which pages a search found on its way: on each level the page in which `key`
/// belonged is on the path, and knows the one below; all other pages are as they were.
pub open spec fn found_pages(
    s: Shape,
    t: Shape,
    path: Seq<(PageId, Arc<Node>)>,
    key: Seq<u8>,
) -> bool {
    &&& t.levels == s.levels
    &&& t.nodes.dom() == s.nodes.dom()
    &&& path.len() == s.levels.len()
    &&& forall|j: int|
        #![trigger path[j]]
        0 <= j < path.len() ==> path[j].0 == s.page(j, s.home(j, key)) && t.nodes[path[j].0]
            == if j < s.bottom() {
            linked_node(s, key, j)
        } else {
            s.node(j, s.home(j, key))
        }
    &&& forall|p: PageId| #[trigger]
        s.nodes.contains_key(p) ==> t.nodes[p] == s.nodes[p] || exists|j: int|
            #![trigger path[j]]
            0 <= j < s.bottom() && path[j].0 == p
}

/// Where a search found its way: the pages are those in which `key` belonged, and the
/// nodes are those that were there before the search.
pub open spec fn found_way(
    s: Shape,
    t: Shape,
    path: Seq<(PageId, Arc<Node>)>,
    key: Seq<u8>,
) -> bool {
    &&& found_pages(s, t, path, key)
    &&& forall|j: int|
        #![trigger path[j]]
        0 <= j < path.len() ==> path[j].1@ == s.node(j, s.home(j, key))
}

/// `t` is `s` on level `l` and below.
pub open spec fn same_from(s: Shape, t: Shape, l: int) -> bool {
    &&& t.levels == s.levels
    &&& forall|m: int, i: int|
        #![trigger t.node(m, i)]
        l <= m && s.place(m, i) ==> t.node(m, i) == s.node(m, i)
}

/// What a node of a shape that has only been linked is.
proof fn lemma_only_linked_node(s: Shape, t: Shape, key: Seq<u8>, l: int, i: int)
    requires
        s.wf(),
        only_linked(s, t, key),
        s.place(l, i),
    ensures
        t.node(l, i).lo == s.node(l, i).lo,
        t.node(l, i).hi == s.node(l, i).hi,
        t.node(l, i).merging_child == s.node(l, i).merging_child,
        t.node(l, i) == s.node(l, i) || (l < s.bottom() && i == s.home(l, key) && t.node(l, i)
            == linked_node(s, key, l)),
{
    assert(s.place_ok(l, i));
    let p = s.page(l, i);
    if t.nodes[p] != s.nodes[p] {
        let m = choose|m: int| linked_at(s, t, key, p, m);
        lemma_home(s, m, key);
        assert(s.page(m, s.home(m, key)) == s.page(l, i));
    }
}

/// The way stays the way.
proof fn lemma_only_linked_home(s: Shape, t: Shape, key: Seq<u8>, l: int)
    requires
        s.wf(),
        t.wf(),
        only_linked(s, t, key),
        0 <= l < s.levels.len(),
    ensures
        t.home(l, key) == s.home(l, key),
        s.place(l, s.home(l, key)),
{
    assert forall|i: int| #![trigger s.node(l, i)] s.place(l, i) implies s.node(l, i).lo == t.node(
        l,
        i,
    ).lo && s.node(l, i).hi == t.node(l, i).hi by {
        lemma_only_linked_node(s, t, key, l, i);
    }
    lemma_same_home(s, t, l, key);
    lemma_home(s, l, key);
}

/// A node that has come to know one more keeps its separators.
proof fn lemma_separator_kept(node: NodeView, at: Seq<u8>, to: PageId, j: int) -> (k: int)
    requires
        node.ok(),
        !node.is_leaf(),
        0 <= j < node.pointers().len(),
    ensures
        0 <= k < node.with_parent_split(at, to).pointers().len(),
        node.with_parent_split(at, to).pointers()[k] == node.pointers()[j],
{
    lemma_rank(node.pointers(), at);
    if holds_key(node.pointers(), at) || j < rank(node.pointers(), at) {
        j
    } else {
        j + 1
    }
}

/// Where a search comes to when nodes of the way have been linked is where it came to before.
proof fn lemma_was_on_the_way(s: Shape, u: Shape, key: Seq<u8>, level: int, place: int)
    requires
        s.wf(),
        u.wf(),
        only_linked(s, u, key),
        on_the_way(u, key, level, place),
    ensures
        on_the_way(s, key, level, place),
        u.node(level, place).merging_child == s.node(level, place).merging_child,
{
    lemma_only_linked_node(s, u, key, level, place);
    if level > 0 {
        lemma_only_linked_home(s, u, key, level - 1);
        let h = s.home(level - 1, key);
        let above = s.node(level - 1, h).pointers();
        let now = u.node(level - 1, h).pointers();
        lemma_only_linked_node(s, u, key, level - 1, h);
        assert(s.place_ok(level - 1, h));
        let lo = s.node(level, place).lo;
        assert forall|j: int|
            #![trigger above[j]]
            0 <= j < above.len() && key_le(above[j].0, key) implies key_le(
            above[j].0,
            lo,
        ) by {
            let c = s.home(level, key);
            let k = if u.node(level - 1, h) == s.node(level - 1, h) {
                j
            } else {
                lemma_separator_kept(
                    s.node(level - 1, h),
                    s.node(level, c).lo,
                    s.page(level, c),
                    j,
                )
            };
            assert(now[k] == above[j]);
        }
    }
}

/// Where no merge has been announced on the way, all that is due is to link, and
/// that keeps it so.
proof fn lemma_link_is_due(s: Shape, u: Shape, key: Seq<u8>, help: Help)
    requires
        s.wf(),
        u.wf(),
        quiet(s, key),
        only_linked(s, u, key),
        help.key() == key,
        help.due(u),
    ensures
        help.done(u).wf(),
        only_linked(s, help.done(u), key),
{
    match help {
        Help::Merge { level, place, .. } => {
            lemma_was_on_the_way(s, u, key, level, place);
        },
        Help::Link { level, .. } => {
            let h = s.home(level, key);
            let c = s.home(level + 1, key);
            lemma_only_linked_home(s, u, key, level);
            lemma_only_linked_home(s, u, key, level + 1);
            lemma_only_linked_node(s, u, key, level, h);
            lemma_only_linked_node(s, u, key, level + 1, c);
            assert(s.place_ok(level, h));
            let at = s.node(level + 1, c).lo;
            let to = s.page(level + 1, c);
            if u.node(level, h) != s.node(level, h) {
                if !holds_key(s.node(level, h).pointers(), at) {
                    lemma_with_entry(s.node(level, h).pointers(), at, to);
                }
                assert(holds_key(u.node(level, h).pointers(), at));
            }
            lemma_index_child(u, level, h, c);
            let t = help.done(u);
            let p = s.page(level, h);
            assert(t.nodes[p] == linked_node(s, key, level));
            assert(linked_at(s, t, key, p, level));
            assert(t.nodes.dom() =~= s.nodes.dom());
            assert forall|q: PageId| #[trigger]
                s.nodes.contains_key(q) && t.nodes[q] != s.nodes[q] implies exists|l: int|
                linked_at(s, t, key, q, l) by {
                if q != p {
                    assert(u.nodes[q] == t.nodes[q]);
                    let l = choose|l: int| linked_at(s, u, key, q, l);
                    assert(linked_at(s, t, key, q, l));
                }
            }
        },
    }
}

proof fn lemma_quiet_search(s: Shape, helps: Seq<Help>, key: Seq<u8>)
    requires
        s.wf(),
        quiet(s, key),
        all_due(s, helps),
        all_for(helps, key),
    ensures
        helped(s, helps).wf(),
        only_linked(s, helped(s, helps), key),
    decreases helps.len(),
{
    if helps.len() > 0 {
        let fewer = helps.drop_last();
        assert forall|i: int| #![trigger fewer[i]] 0 <= i < fewer.len() implies fewer[i].key()
            == key by {
            assert(fewer[i] == helps[i]);
        }
        lemma_quiet_search(s, fewer, key);
        assert(helps.last() == helps[helps.len() - 1]);
        lemma_link_is_due(s, helped(s, fewer), key, helps.last());
    }
}

/// Where no merge had been announced on the way, a search that has done no more than
/// help comes across none.
pub(crate) proof fn lemma_stays_quiet(s: Shape, helps: Seq<Help>, key: Seq<u8>, l: int, i: int)
    requires
        s.wf(),
        quiet(s, key),
        all_due(s, helps),
        all_for(helps, key),
        on_the_way(helped(s, helps), key, l, i),
    ensures
        helped(s, helps).node(l, i).merging_child is None,
{
    lemma_quiet_search(s, helps, key);
    lemma_was_on_the_way(s, helped(s, helps), key, l, i);
}

/// A search that comes across no merge finds its way among the pages as they were,
/// and completes the splits on it: where a child had been split off that its parent
/// did not know, the path goes through the one in which the key belongs, and the
/// parent has come to know it.
pub proof fn law_search_finds_way(
    s: Shape,
    t: Shape,
    path: Seq<(PageId, Arc<Node>)>,
    key: Seq<u8>,
)
    requires
        s.wf(),
        quiet(s, key),
        searched(s, t, key),
        path_ok(t, path, key),
    ensures
        found_pages(s, t, path, key),
{
    let helps = choose|helps: Seq<Help>| #[trigger]
        all_due(s, helps) && t == helped(s, helps) && all_for(helps, key);
    lemma_quiet_search(s, helps, key);
    assert forall|j: int| #![trigger path[j]] 0 <= j < path.len() implies path[j].0 == s.page(
        j,
        s.home(j, key),
    ) && t.nodes[path[j].0] == if j < s.bottom() {
        linked_node(s, key, j)
    } else {
        s.node(j, s.home(j, key))
    } by {
        let h = s.home(j, key);
        lemma_only_linked_home(s, t, key, j);
        lemma_only_linked_node(s, t, key, j, h);
        assert(step_ok(t, path, key, j));
        assert(s.place_ok(j, h));
        if j < s.bottom() {
            lemma_only_linked_home(s, t, key, j + 1);
            lemma_only_linked_node(s, t, key, j + 1, s.home(j + 1, key));
            assert(step_ok(t, path, key, j + 1));
            if t.node(j, h) == s.node(j, h) {
                assert(holds_key(s.node(j, h).pointers(), s.node(j + 1, s.home(j + 1, key)).lo));
                assert(linked_node(s, key, j) =~= s.node(j, h));
            }
        }
    }
    assert forall|p: PageId| #[trigger]
        s.nodes.contains_key(p) && t.nodes[p] != s.nodes[p] implies exists|j: int|
        #![trigger path[j]]
        0 <= j < s.bottom() && path[j].0 == p by {
        let l = choose|l: int| linked_at(s, t, key, p, l);
        assert(path[l].0 == p);
    }
}

} // verus!
