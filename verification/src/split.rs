//! How nodes that have grown too large are split, from the leaf up to the root.

use crate::error::Error;
use crate::key::{copy_bytes, lemma_empty_key_is_least};
use crate::moves::{
    hoisted_root, hoisted_shape, lemma_hoist, lemma_split, lemma_split_contents, split_shape,
};
use crate::node::{lemma_halves, ChildSplit, Data, Frag, Node, NodeView, PageId, ParentSplit};
use crate::prefix::prefix_encode;
use crate::shape::Shape;
use crate::traverse::Path;
use crate::tree::{Tree, MAX_SPLIT_SIZE};
use std::sync::Arc;
use vstd::arithmetic::power2::{lemma2_to64, pow2};
use vstd::prelude::*;

verus! {

/// The number of bytes from which on a node is split. Nodes toward the root are larger.
pub open spec fn adjusted_max(split_size: nat, height: nat) -> nat {
    split_size * pow2(
        if height < 8 {
            height
        } else {
            8
        },
    )
}

impl<M: Fn(&[u8], Option<&[u8]>, &[u8]) -> Option<Vec<u8>>> Tree<M> {
    /// The number of bytes from which on a node is split.
    fn adjusted_max(&self, height: usize) -> (max: u64)
        requires
            self.config.blink_node_split_size <= MAX_SPLIT_SIZE,
        ensures
            max == adjusted_max(self.config.blink_node_split_size as nat, height as nat),
    {
        proof {
            lemma2_to64();
        }
        let multiplier: u64 = match height {
            0 => 1,
            1 => 2,
            2 => 4,
            3 => 8,
            4 => 16,
            5 => 32,
            6 => 64,
            7 => 128,
            _ => 256,
        };
        let size: u64 = self.config.blink_node_split_size as u64;
        assert(0 <= size * multiplier <= u64::MAX) by (nonlinear_arith)
            requires
                size <= 0x00ff_ffff_ffff_ffff,
                multiplier <= 256,
        ;
        size * multiplier
    }

    /// Halves `node`, on page `node_id`, if it is still there, and tells the new
    /// right sibling and where it starts.
    fn child_split(&mut self, node_id: PageId, node: &Node) -> (r: Result<
        Option<ParentSplit>,
        Error,
    >)
        requires
            old(self).wf(),
            !old(self).is_removed(),
            node.wf(),
            node@.len() >= 2,
            node@.merging_child is None,
            !node@.merging,
        ensures
            final(self).wf(),
            final(self).only_pages_changed(old(self)),
            final(self).root == old(self).root,
            r is Ok,
            r->Ok_0 is Some <==> old(self).shape().nodes.contains_key(node_id)
                && old(self).shape().nodes[node_id] == node@,
            match r->Ok_0 {
                Some(split) => {
                    &&& split.at@ == node@.right_half().lo
                    &&& !old(self).shape().nodes.contains_key(split.to)
                    &&& old(self).shape().placed(node_id)
                    &&& forall|l: int, i: int|
                        #![trigger old(self).shape().page(l, i)]
                        old(self).shape().place(l, i) && old(self).shape().page(l, i) == node_id
                            ==> final(self).shape() == split_shape(
                            old(self).shape(),
                            l,
                            i,
                            split.to,
                        )
                },
                None => final(self).shape() == old(self).shape(),
            },
    {
        let ghost s = self.shape();
        proof {
            lemma_halves(node@, 0);
        }
        let right = node.split();
        let at = copy_bytes(right.lo.as_slice());
        let (to, right) = self.pagecache.allocate(right);
        let split = ChildSplit { at: copy_bytes(at.as_slice()), to };
        match self.pagecache.link(
            node_id,
            node,
            Frag::ChildSplit(split),
            &self.config.merge_operator,
        ) {
            Ok(_) => {
                proof {
                    if node_id == to {
                        assert(self.pagecache@[node_id] == right@);
                        assert(node@.lo != right@.lo);
                    }
                    assert(s.nodes.contains_key(node_id) && s.nodes[node_id] == node@);
                    assert(s.placed(node_id));
                    let (l, i) = choose|l: int, i: int|
                        #![trigger s.page(l, i)]
                        s.place(l, i) && s.page(l, i) == node_id;
                    assert(s.page(l, i) == node_id);
                    let t = split_shape(s, l, i, to);
                    lemma_split(s, l, i, to);
                    lemma_split_contents(s, l, i, to);
                    assert(self.shape().nodes =~= t.nodes);
                    self.levels@ = t.levels;
                    assert(t.page(0, 0) == s.page(0, 0));
                }
                Ok(Some(ParentSplit { at, to }))
            },
            Err(_) => {
                let _ = self.pagecache.free(to, &right);
                assert(self.shape().nodes =~= s.nodes);
                Ok(None)
            },
        }
    }

    /// Puts a new root above the root level, if `from` is still the root. The root
    /// points to `from` and to page `to`, which starts at `at`.
    fn root_hoist(&mut self, from: PageId, to: PageId, at: Vec<u8>) -> (r: Result<(), Error>)
        requires
            old(self).wf(),
            !old(self).is_removed(),
            at@.len() > 0,
            from == old(self).root ==> old(self).shape().leads_to(0, to, at@),
        ensures
            r is Ok,
            final(self).wf(),
            final(self).only_pages_changed(old(self)),
            from == old(self).root ==> {
                &&& !old(self).shape().nodes.contains_key(final(self).root)
                &&& final(self).shape() == hoisted_shape(
                    old(self).shape(),
                    old(self).shape().place_of(0, to, at@),
                    final(self).root,
                )
            },
            from != old(self).root ==> final(self).root == old(self).root && final(self).shape()
                == old(self).shape(),
    {
        let ghost s = self.shape();
        let ghost c = s.place_of(0, to, at@);
        let mut pointers: Vec<(Vec<u8>, PageId)> = Vec::new();
        let empty: Vec<u8> = Vec::new();
        pointers.push((prefix_encode(empty.as_slice(), empty.as_slice()), from));
        pointers.push((prefix_encode(empty.as_slice(), at.as_slice()), to));
        let top = Node {
            data: Data::Index(pointers),
            next: None,
            lo: Vec::new(),
            hi: Vec::new(),
            merging_child: None,
            merging: false,
        };
        proof {
            lemma_empty_key_is_least(at@);
            assert(top@.lo =~= Seq::empty());
            assert(top@.hi =~= Seq::empty());
            assert(empty@ =~= Seq::empty());
            assert(top@.pointers() =~= hoisted_root(from, to, at@).pointers());
            assert(top@ == hoisted_root(from, to, at@));
            lemma_empty_key_is_least(Seq::empty());
            assert(top@.pointers()[0].0 == Seq::<u8>::empty());
            assert(top@.pointers()[1].0 == at@);
            assert(top@.ok());
            assert(top.wf());
            if from == self.root {
                assert(s.starts_at(0, c, to, at@));
                assert(s.place_ok(0, c));
                if c == 0 {
                    assert(s.node(0, 0).lo.len() == 0);
                }
            }
        }
        let (new_root, shared) = self.pagecache.allocate(top);
        match self.pagecache.cas_root_in_meta(
            self.tree_id.as_slice(),
            Some(from),
            Some(new_root),
        ) {
            Ok(()) => {
                self.root = new_root;
                proof {
                    let t = hoisted_shape(s, c, new_root);
                    lemma_hoist(s, c, new_root);
                    self.levels@ = t.levels;
                    assert(self.shape().nodes =~= t.nodes);
                    assert(t.page(0, 0) == new_root);
                }
                Ok(())
            },
            Err(_) => {
                let _ = self.pagecache.free(new_root, &shared);
                assert(self.shape().nodes =~= s.nodes);
                Ok(())
            },
        }
    }
}

/// The height that counts for step `j` of a path of `n` steps. The root counts for more.
pub open spec fn height(n: nat, j: int) -> nat {
    if j == 0 {
        n
    } else {
        (n - 1 - j) as nat
    }
}

/// Whether the node at step `j` of a path is to be split.
pub open spec fn grown(split_size: nat, path: Seq<(PageId, Arc<Node>)>, j: int) -> bool {
    path[j].1.oversized(adjusted_max(split_size, height(path.len(), j)))
}

/// Whether the node at step `j` of a path is still on its page.
pub open spec fn current(s: Shape, path: Seq<(PageId, Arc<Node>)>, j: int) -> bool {
    s.nodes.contains_key(path[j].0) && s.nodes[path[j].0] == path[j].1@
}

/// Whether the node at step `j` of a path gets split: it has grown, and no node
/// that has grown, from it down to the leaf, has been changed meanwhile.
pub open spec fn splits(
    s: Shape,
    split_size: nat,
    path: Seq<(PageId, Arc<Node>)>,
    j: int,
) -> bool {
    grown(split_size, path, j) && forall|k: int|
        j <= k < path.len() && #[trigger] grown(split_size, path, k) ==> current(s, path, k)
}

/// Page `p` has kept the left half of `node`, page `q` has got the right half.
pub open spec fn halved_to(t: Shape, p: PageId, node: NodeView, q: PageId) -> bool {
    &&& t.nodes.contains_key(p)
    &&& t.nodes.contains_key(q)
    &&& t.nodes[p] == node.with_child_split(node.right_half().lo, q)
    &&& t.nodes[q] == node.right_half()
}

/// Page `p` has kept the left half of `node`, a new page has got the right half.
pub open spec fn halved(s: Shape, t: Shape, p: PageId, node: NodeView) -> bool {
    exists|q: PageId| #[trigger] halved_to(t, p, node, q) && !s.nodes.contains_key(q)
}

/// Whether page `p` is on level `l`.
pub open spec fn on_level(s: Shape, l: int, p: PageId) -> bool {
    exists|i: int| #![trigger s.page(l, i)] s.place(l, i) && s.page(l, i) == p
}

/// What has become of step `j` of a path in the shape `t`, which has `up` more levels.
pub open spec fn step_done(
    s: Shape,
    t: Shape,
    split_size: nat,
    path: Seq<(PageId, Arc<Node>)>,
    j: int,
    up: int,
) -> bool {
    if splits(s, split_size, path, j) {
        &&& halved(s, t, path[j].0, path[j].1@)
        &&& t.levels[j + up].len() == s.levels[j].len() + 1
    } else {
        &&& t.nodes.contains_key(path[j].0)
        &&& t.nodes[path[j].0] == s.nodes[path[j].0]
        &&& t.levels[j + up] == s.levels[j]
    }
}

/// Nothing has become of step `j` of a path so far.
pub open spec fn step_waits(s: Shape, t: Shape, path: Seq<(PageId, Arc<Node>)>, j: int) -> bool {
    &&& t.nodes[path[j].0] == s.nodes[path[j].0]
    &&& t.levels[j] == s.levels[j]
    &&& on_level(t, j, path[j].0)
}

/// What has become of the steps of a path in the shape `t`, which has `up` more levels.
pub open spec fn all_steps_done(
    s: Shape,
    t: Shape,
    split_size: nat,
    path: Seq<(PageId, Arc<Node>)>,
    up: int,
) -> bool {
    &&& t.levels.len() == s.levels.len() + up
    &&& forall|j: int|
        0 <= j < path.len() ==> #[trigger] step_done(s, t, split_size, path, j, up)
}

/// Whether a node of a path that has grown is still on page `p`.
pub open spec fn may_split(
    s: Shape,
    split_size: nat,
    path: Seq<(PageId, Arc<Node>)>,
    p: PageId,
) -> bool {
    exists|j: int|
        0 <= j < path.len() && path[j].0 == p && #[trigger] grown(split_size, path, j) && current(
            s,
            path,
            j,
        )
}

/// The pages on which no node of a path stands that has grown have kept their nodes.
pub open spec fn others_kept(
    s: Shape,
    t: Shape,
    split_size: nat,
    path: Seq<(PageId, Arc<Node>)>,
) -> bool {
    forall|p: PageId| #[trigger]
        s.nodes.contains_key(p) ==> t.nodes.contains_key(p) && (!may_split(s, split_size, path, p)
            ==> t.nodes[p] == s.nodes[p])
}

/// The pages of a path are all there, and are different ones.
pub open spec fn path_known(s: Shape, path: Seq<(PageId, Arc<Node>)>) -> bool {
    &&& forall|j: int| #![trigger path[j]] 0 <= j < path.len() ==> s.nodes.contains_key(path[j].0)
    &&& forall|j: int, k: int|
        #![trigger path[j], path[k]]
        0 <= j < k < path.len() ==> path[j].0 != path[k].0
}

/// What has become of the page of step `j` of a path.
pub open spec fn page_done(
    s: Shape,
    t: Shape,
    split_size: nat,
    path: Seq<(PageId, Arc<Node>)>,
    j: int,
) -> bool {
    if splits(s, split_size, path, j) {
        halved(s, t, path[j].0, path[j].1@)
    } else {
        t.nodes.contains_key(path[j].0) && t.nodes[path[j].0] == s.nodes[path[j].0]
    }
}

/// What has become of the pages of a path.
pub open spec fn all_pages_done(
    s: Shape,
    t: Shape,
    split_size: nat,
    path: Seq<(PageId, Arc<Node>)>,
) -> bool {
    forall|j: int| 0 <= j < path.len() ==> #[trigger] page_done(s, t, split_size, path, j)
}

/// What has become of the pages of a path when all steps after `j` have been seen to.
spec fn pages_so_far(
    s: Shape,
    t: Shape,
    split_size: nat,
    path: Seq<(PageId, Arc<Node>)>,
    j: int,
) -> bool {
    &&& forall|k: int|
        j < k < path.len() && #[trigger] grown(split_size, path, k) ==> current(s, path, k)
    &&& forall|k: int| j < k < path.len() ==> #[trigger] page_done(s, t, split_size, path, k)
    &&& forall|k: int|
        #![trigger path[k]]
        0 <= k <= j && k < path.len() ==> t.nodes.contains_key(path[k].0) && t.nodes[path[k].0]
            == s.nodes[path[k].0]
}

/// Page `p` holds the right half of a step that splits.
pub open spec fn holds_half(
    s: Shape,
    t: Shape,
    split_size: nat,
    path: Seq<(PageId, Arc<Node>)>,
    p: PageId,
) -> bool {
    exists|j: int|
        0 <= j < path.len() && #[trigger] splits(s, split_size, path, j) && t.nodes[p]
            == path[j].1@.right_half()
}

/// Page `p` holds a new root above the two halves of the first step.
pub open spec fn holds_root(t: Shape, path: Seq<(PageId, Arc<Node>)>, p: PageId) -> bool {
    exists|q: PageId|
        {
            &&& #[trigger] halved_to(t, path[0].0, path[0].1@, q)
            &&& t.nodes[p] == hoisted_root(path[0].0, q, path[0].1@.right_half().lo)
        }
}

/// Every new page holds the right half of a step that splits; one may hold a new root.
pub open spec fn new_pages_ok(
    s: Shape,
    t: Shape,
    split_size: nat,
    path: Seq<(PageId, Arc<Node>)>,
    new_root: Option<PageId>,
) -> bool {
    &&& forall|p: PageId| #[trigger]
        t.nodes.contains_key(p) && !s.nodes.contains_key(p) && new_root != Some(p) ==> holds_half(
            s,
            t,
            split_size,
            path,
            p,
        )
    &&& new_root matches Some(p) ==> t.nodes.contains_key(p) && holds_root(t, path, p)
}

/// Whether no node of a path is to be split.
pub open spec fn none_grown(split_size: nat, path: Seq<(PageId, Arc<Node>)>) -> bool {
    forall|j: int| 0 <= j < path.len() ==> !#[trigger] grown(split_size, path, j)
}

/// The shape `t` below `new_root` is the shape `s` below `root`, split along a path.
/// Where the root has been split, there is a new root above it. No other page has
/// been written.
pub open spec fn split_along(
    s: Shape,
    root: PageId,
    t: Shape,
    new_root: PageId,
    split_size: nat,
    path: Seq<(PageId, Arc<Node>)>,
) -> bool {
    &&& others_kept(s, t, split_size, path)
    &&& if splits(s, split_size, path, 0) && path[0].0 == root {
        &&& !s.nodes.contains_key(new_root)
        &&& all_steps_done(s, t, split_size, path, 1)
        &&& new_pages_ok(s, t, split_size, path, Some(new_root))
    } else {
        &&& new_root == root
        &&& all_steps_done(s, t, split_size, path, 0)
        &&& new_pages_ok(s, t, split_size, path, None)
    }
}

/// The pages of a path are on the levels of its steps.
pub open spec fn path_placed(s: Shape, path: Seq<(PageId, Arc<Node>)>) -> bool {
    &&& path.len() == s.levels.len()
    &&& forall|j: int|
        #![trigger path[j]]
        0 <= j < path.len() ==> on_level(s, j, path[j].0)
}

/// The nodes of a path are well formed.
pub open spec fn path_wf(path: Seq<(PageId, Arc<Node>)>) -> bool {
    &&& path.len() > 0
    &&& forall|j: int| #![trigger path[j]] 0 <= j < path.len() ==> path[j].1.wf()
}

proof fn lemma_path_distinct(s: Shape, path: Seq<(PageId, Arc<Node>)>, j: int, k: int)
    requires
        s.wf(),
        path_placed(s, path),
        0 <= j < path.len(),
        0 <= k < path.len(),
        path[j].0 == path[k].0,
    ensures
        j == k,
        s.nodes.contains_key(path[j].0),
{
    assert(on_level(s, j, path[j].0) && on_level(s, k, path[k].0));
    let x = choose|i: int| #![trigger s.page(j, i)] s.place(j, i) && s.page(j, i) == path[j].0;
    let y = choose|i: int| #![trigger s.page(k, i)] s.place(k, i) && s.page(k, i) == path[k].0;
    assert(s.page(j, x) == s.page(k, y));
    assert(s.place_ok(j, x));
}

/// One split more along a path, upward from the leaf.
proof fn lemma_step_split(
    s: Shape,
    t: Shape,
    u: Shape,
    split_size: nat,
    path: Seq<(PageId, Arc<Node>)>,
    j: int,
    i: int,
    to: PageId,
)
    requires
        s.wf(),
        t.wf(),
        path_placed(s, path),
        0 <= j < path.len(),
        t.levels.len() == s.levels.len(),
        t.place(j, i),
        t.page(j, i) == path[j].0,
        !t.nodes.contains_key(to),
        u == split_shape(t, j, i, to),
        splits(s, split_size, path, j),
        t.nodes[path[j].0] == path[j].1@,
        t.levels[j] == s.levels[j],
        forall|p: PageId| s.nodes.contains_key(p) ==> #[trigger] t.nodes.contains_key(p),
        forall|k: int| j < k < path.len() ==> #[trigger] step_done(s, t, split_size, path, k, 0),
        forall|k: int| 0 <= k < j ==> #[trigger] step_waits(s, t, path, k),
        new_pages_ok(s, t, split_size, path, None),
    ensures
        new_pages_ok(s, u, split_size, path, None),
        forall|p: PageId| s.nodes.contains_key(p) ==> #[trigger] u.nodes.contains_key(p),
        forall|k: int| j <= k < path.len() ==> #[trigger] step_done(s, u, split_size, path, k, 0),
        forall|k: int| 0 <= k < j ==> #[trigger] step_waits(s, u, path, k),
{
    let p = path[j].0;
    lemma_path_distinct(s, path, j, j);
    assert(!s.nodes.contains_key(to)) by {
        if s.nodes.contains_key(to) {
            assert(t.nodes.contains_key(to));
        }
    }
    assert forall|q: PageId| #[trigger]
        u.nodes.contains_key(q) && !s.nodes.contains_key(q) implies holds_half(
        s,
        u,
        split_size,
        path,
        q,
    ) by {
        if q == to {
            assert(u.nodes[q] == path[j].1@.right_half());
        } else {
            assert(t.nodes.contains_key(q));
            assert(holds_half(s, t, split_size, path, q));
            let k = choose|k: int|
                0 <= k < path.len() && #[trigger] splits(s, split_size, path, k) && t.nodes[q]
                    == path[k].1@.right_half();
            assert(splits(s, split_size, path, k) && u.nodes[q] == t.nodes[q]);
        }
    }
    assert forall|k: int| j <= k < path.len() implies #[trigger] step_done(
        s,
        u,
        split_size,
        path,
        k,
        0,
    ) by {
        if k == j {
            assert(halved_to(u, p, path[j].1@, to));
        } else {
            assert(step_done(s, t, split_size, path, k, 0));
            lemma_path_distinct(s, path, k, k);
            if path[k].0 == p {
                lemma_path_distinct(s, path, j, k);
            }
            if splits(s, split_size, path, k) {
                let q = choose|q: PageId| #[trigger]
                    halved_to(t, path[k].0, path[k].1@, q) && !s.nodes.contains_key(q);
                assert(q != p && q != to);
                assert(halved_to(u, path[k].0, path[k].1@, q));
            }
        }
    }
    assert forall|k: int| 0 <= k < j implies #[trigger] step_waits(s, u, path, k) by {
        assert(step_waits(s, t, path, k));
        lemma_path_distinct(s, path, k, k);
        if path[k].0 == p {
            lemma_path_distinct(s, path, j, k);
        }
        assert(on_level(t, k, path[k].0));
        let x = choose|x: int| #![trigger t.page(k, x)] t.place(k, x) && t.page(k, x) == path[k].0;
        assert(u.place(k, x) && u.page(k, x) == path[k].0);
    }
}

impl<M: Fn(&[u8], Option<&[u8]>, &[u8]) -> Option<Vec<u8>>> Tree<M> {
    /// Splits the nodes of a path that have grown too large, from the leaf up. Stops
    /// at a node that has been changed meanwhile. Where the root is split, a new root
    /// is put above it.
    pub(crate) fn recursive_split(&mut self, path: &Path) -> (r: Result<(), Error>)
        requires
            old(self).wf(),
            !old(self).is_removed(),
            path_wf(path@),
        ensures
            r is Ok,
            final(self).wf(),
            final(self).only_pages_changed(old(self)),
            path_placed(old(self).shape(), path@) ==> split_along(
                old(self).shape(),
                old(self).root,
                final(self).shape(),
                final(self).root,
                old(self).setup().blink_node_split_size as nat,
                path@,
            ),
            others_kept(
                old(self).shape(),
                final(self).shape(),
                old(self).setup().blink_node_split_size as nat,
                path@,
            ),
            path_known(old(self).shape(), path@) ==> all_pages_done(
                old(self).shape(),
                final(self).shape(),
                old(self).setup().blink_node_split_size as nat,
                path@,
            ),
            none_grown(old(self).setup().blink_node_split_size as nat, path@)
                ==> final(self).shape() == old(self).shape() && final(self).root == old(self).root,
    {
        let ghost s = self.shape();
        let ghost size = self.config.blink_node_split_size as nat;
        let ghost placed = path_placed(s, path@);
        let ghost known = path_known(s, path@);
        let n: usize = path.len();
        let mut j: usize = n - 1;
        while j > 0
            invariant
                0 <= j < n == path@.len(),
                self.wf(),
                !self.is_removed(),
                self.only_pages_changed(old(self)),
                self.root == old(self).root,
                s == old(self).shape(),
                s.wf(),
                size == self.config.blink_node_split_size,
                path_wf(path@),
                placed == path_placed(s, path@),
                others_kept(s, self.shape(), size, path@),
                none_grown(size, path@) ==> self.shape() == s,
                known == path_known(s, path@),
                known ==> pages_so_far(s, self.shape(), size, path@, j as int),
                placed ==> {
                    &&& self.shape().levels.len() == s.levels.len()
                    &&& new_pages_ok(s, self.shape(), size, path@, None)
                    &&& forall|k: int|
                        j < k < n && #[trigger] grown(size, path@, k) ==> current(s, path@, k)
                    &&& forall|p: PageId|
                        s.nodes.contains_key(p) ==> #[trigger] self.shape().nodes.contains_key(p)
                    &&& forall|k: int|
                        j < k < n ==> #[trigger] step_done(s, self.shape(), size, path@, k, 0)
                    &&& forall|k: int|
                        0 <= k <= j ==> #[trigger] step_waits(s, self.shape(), path@, k)
                },
            decreases j,
        {
            let ghost t = self.shape();
            let max = self.adjusted_max(n - 1 - j);
            let ghost step = path@[j as int];
            proof {
                if placed {
                    assert(step_waits(s, t, path@, j as int));
                    lemma_path_distinct(s, path@, j as int, j as int);
                }
            }
            if path[j].1.should_split(max) {
                assert(grown(size, path@, j as int));
                match self.child_split(path[j].0, &path[j].1) {
                    Ok(Some(split)) => {
                        proof {
                            lemma_others_split(s, t, self.shape(), size, path@, j as int, split.to);
                            if placed {
                                assert(current(s, path@, j as int));
                                assert(splits(s, size, path@, j as int));
                                assert(on_level(t, j as int, step.0));
                                let i = choose|i: int|
                                    #![trigger t.page(j as int, i)]
                                    t.place(j as int, i) && t.page(j as int, i) == step.0;
                                assert(t.page(j as int, i) == step.0);
                                lemma_step_split(
                                    s,
                                    t,
                                    self.shape(),
                                    size,
                                    path@,
                                    j as int,
                                    i,
                                    split.to,
                                );
                            }
                        }
                    },
                    _ => {
                        proof {
                            if known {
                                lemma_pages_end(s, t, size, path@, j as int);
                            }
                            if placed {
                                assert(!current(s, path@, j as int));
                                lemma_steps_end(s, t, size, path@, j as int);
                            }
                        }
                        return Ok(());
                    },
                }
            } else {
                proof {
                    assert(!grown(size, path@, j as int));
                    if known {
                        assert(page_done(s, t, size, path@, j as int));
                    }
                    if placed {
                        assert(step_done(s, t, size, path@, j as int, 0));
                    }
                }
            }
            j = j - 1;
        }
        let ghost t = self.shape();
        let max = self.adjusted_max(n);
        let ghost step = path@[0];
        proof {
            if placed {
                assert(step_waits(s, t, path@, 0));
                lemma_path_distinct(s, path@, 0, 0);
            }
        }
        if path[0].1.should_split(max) {
            assert(grown(size, path@, 0));
            match self.child_split(path[0].0, &path[0].1) {
                Ok(Some(split)) => {
                    let ghost u = self.shape();
                    proof {
                        lemma_others_split(s, t, u, size, path@, 0, split.to);
                        lemma_halves(step.1@, split.to);
                        if step.0 == self.root {
                            assert(t.place(0, 0) && t.page(0, 0) == step.0) by {
                                assert(t.levels[0].len() > 0);
                            }
                            assert(u.levels[0][1] == split.to);
                            assert(u.starts_at(0, 1, split.to, split.at@));
                        }
                        if placed {
                            assert(current(s, path@, 0));
                            assert(splits(s, size, path@, 0));
                            assert(on_level(t, 0, step.0));
                            let i = choose|i: int|
                                #![trigger t.page(0, i)]
                                t.place(0, i) && t.page(0, i) == step.0;
                            assert(t.page(0, i) == step.0);
                            lemma_step_split(s, t, u, size, path@, 0, i, split.to);
                        }
                    }
                    let hoist = self.root_hoist(path[0].0, split.to, split.at);
                    proof {
                        if known {
                            lemma_pages_hoisted(s, u, self.shape(), size, path@);
                        }
                        if placed && step.0 == old(self).root {
                            lemma_steps_hoisted(
                                s,
                                u,
                                self.shape(),
                                size,
                                path@,
                                u.place_of(0, split.to, split.at@),
                                self.root,
                                split.to,
                            );
                        }
                        assert(others_kept(s, self.shape(), size, path@));
                    }
                    return hoist;
                },
                _ => {
                    proof {
                        if placed {
                            assert(!current(s, path@, 0));
                        }
                    }
                },
            }
        } else {
            proof {
                assert(!grown(size, path@, 0));
            }
        }
        proof {
            if known {
                lemma_pages_end(s, t, size, path@, 0);
            }
            if placed {
                lemma_steps_end(s, t, size, path@, 0);
            }
        }
        Ok(())
    }
}

/// A split of a page of a path leaves the other pages as they were.
proof fn lemma_others_split(
    s: Shape,
    t: Shape,
    u: Shape,
    split_size: nat,
    path: Seq<(PageId, Arc<Node>)>,
    j: int,
    to: PageId,
)
    requires
        others_kept(s, t, split_size, path),
        0 <= j < path.len(),
        grown(split_size, path, j),
        current(t, path, j),
        !t.nodes.contains_key(to),
        t.placed(path[j].0),
        forall|l: int, i: int|
            #![trigger t.page(l, i)]
            t.place(l, i) && t.page(l, i) == path[j].0 ==> u == split_shape(t, l, i, to),
    ensures
        others_kept(s, u, split_size, path),
        path_known(s, path) && pages_so_far(s, t, split_size, path, j) ==> pages_so_far(
            s,
            u,
            split_size,
            path,
            j - 1,
        ),
{
    let (l, i) = choose|l: int, i: int|
        #![trigger t.page(l, i)]
        t.place(l, i) && t.page(l, i) == path[j].0;
    assert(t.page(l, i) == path[j].0);
    assert forall|p: PageId| #[trigger] s.nodes.contains_key(p) implies u.nodes.contains_key(p) && (
    !may_split(s, split_size, path, p) ==> u.nodes[p] == s.nodes[p]) by {
        assert(t.nodes.contains_key(p));
        if p == path[j].0 && t.nodes[p] == s.nodes[p] {
            assert(grown(split_size, path, j) && current(s, path, j));
        }
    }
    if path_known(s, path) && pages_so_far(s, t, split_size, path, j) {
        assert(s.nodes.contains_key(path[j].0));
        assert(current(s, path, j));
        assert(!s.nodes.contains_key(to)) by {
            if s.nodes.contains_key(to) {
                assert(t.nodes.contains_key(to));
            }
        }
        assert(splits(s, split_size, path, j));
        assert forall|k: int| j - 1 < k < path.len() implies #[trigger] page_done(
            s,
            u,
            split_size,
            path,
            k,
        ) by {
            assert(s.nodes.contains_key(path[k].0));
            if k == j {
                assert(halved_to(u, path[j].0, path[j].1@, to));
            } else {
                assert(page_done(s, t, split_size, path, k));
                assert(path[j].0 != path[k].0);
                if splits(s, split_size, path, k) {
                    let q = choose|q: PageId| #[trigger]
                        halved_to(t, path[k].0, path[k].1@, q) && !s.nodes.contains_key(q);
                    assert(halved_to(u, path[k].0, path[k].1@, q));
                }
            }
        }
        assert forall|k: int| #![trigger path[k]] 0 <= k <= j - 1 implies u.nodes.contains_key(
            path[k].0,
        ) && u.nodes[path[k].0] == s.nodes[path[k].0] by {
            assert(s.nodes.contains_key(path[k].0));
            assert(path[k].0 != path[j].0);
        }
    }
}

/// Where a step does not split, the pages of the steps above it stay as they are.
proof fn lemma_pages_end(
    s: Shape,
    t: Shape,
    split_size: nat,
    path: Seq<(PageId, Arc<Node>)>,
    j: int,
)
    requires
        path_known(s, path),
        0 <= j < path.len(),
        pages_so_far(s, t, split_size, path, j),
        grown(split_size, path, j) ==> !current(t, path, j),
        grown(split_size, path, j) || j == 0,
    ensures
        all_pages_done(s, t, split_size, path),
{
    assert forall|k: int| 0 <= k < path.len() implies #[trigger] page_done(
        s,
        t,
        split_size,
        path,
        k,
    ) by {
        assert(s.nodes.contains_key(path[j].0));
        assert(s.nodes.contains_key(path[k].0));
        assert(!current(s, path, j) || j == 0 && !grown(split_size, path, j));
    }
}

/// A new page leaves the pages of a path as they are.
proof fn lemma_pages_hoisted(
    s: Shape,
    t: Shape,
    u: Shape,
    split_size: nat,
    path: Seq<(PageId, Arc<Node>)>,
)
    requires
        pages_so_far(s, t, split_size, path, -1),
        forall|p: PageId| #[trigger]
            t.nodes.contains_key(p) ==> u.nodes.contains_key(p) && u.nodes[p] == t.nodes[p],
    ensures
        all_pages_done(s, u, split_size, path),
{
    assert forall|k: int| 0 <= k < path.len() implies #[trigger] page_done(
        s,
        u,
        split_size,
        path,
        k,
    ) by {
        assert(page_done(s, t, split_size, path, k));
        if splits(s, split_size, path, k) {
            let q = choose|q: PageId| #[trigger]
                halved_to(t, path[k].0, path[k].1@, q) && !s.nodes.contains_key(q);
            assert(halved_to(u, path[k].0, path[k].1@, q));
        }
    }
}

/// Where a step does not split, the steps above it wait for nothing.
proof fn lemma_steps_end(
    s: Shape,
    t: Shape,
    split_size: nat,
    path: Seq<(PageId, Arc<Node>)>,
    j: int,
)
    requires
        s.wf(),
        path_placed(s, path),
        0 <= j < path.len(),
        t.levels.len() == s.levels.len(),
        grown(split_size, path, j) ==> !current(s, path, j),
        grown(split_size, path, j) || j == 0,
        forall|p: PageId| s.nodes.contains_key(p) ==> #[trigger] t.nodes.contains_key(p),
        forall|k: int| j < k < path.len() ==> #[trigger] step_done(s, t, split_size, path, k, 0),
        forall|k: int| 0 <= k <= j ==> #[trigger] step_waits(s, t, path, k),
    ensures
        all_steps_done(s, t, split_size, path, 0),
        !splits(s, split_size, path, 0),
{
    assert forall|k: int| 0 <= k < path.len() implies #[trigger] step_done(
        s,
        t,
        split_size,
        path,
        k,
        0,
    ) by {
        if k > j {
            assert(step_done(s, t, split_size, path, k, 0));
        } else {
            lemma_path_distinct(s, path, k, k);
            assert(step_waits(s, t, path, k));
        }
    }
}

/// A new root moves all steps down by a level.
proof fn lemma_steps_hoisted(
    s: Shape,
    t: Shape,
    u: Shape,
    split_size: nat,
    path: Seq<(PageId, Arc<Node>)>,
    c: int,
    root: PageId,
    to: PageId,
)
    requires
        s.wf(),
        path_placed(s, path),
        path.len() > 0,
        t.levels.len() == s.levels.len(),
        !t.nodes.contains_key(root),
        u == hoisted_shape(t, c, root),
        t.page(0, 0) == path[0].0,
        t.starts_at(0, c, to, path[0].1@.right_half().lo),
        halved_to(t, path[0].0, path[0].1@, to),
        new_pages_ok(s, t, split_size, path, None),
        forall|p: PageId| s.nodes.contains_key(p) ==> #[trigger] t.nodes.contains_key(p),
        forall|k: int| 0 <= k < path.len() ==> #[trigger] step_done(s, t, split_size, path, k, 0),
    ensures
        all_steps_done(s, u, split_size, path, 1),
        !s.nodes.contains_key(root),
        new_pages_ok(s, u, split_size, path, Some(root)),
{
    assert forall|q: PageId| #[trigger]
        u.nodes.contains_key(q) && !s.nodes.contains_key(q) && q != root implies holds_half(
        s,
        u,
        split_size,
        path,
        q,
    ) by {
        assert(t.nodes.contains_key(q));
        assert(holds_half(s, t, split_size, path, q));
        let k = choose|k: int|
            0 <= k < path.len() && #[trigger] splits(s, split_size, path, k) && t.nodes[q]
                == path[k].1@.right_half();
        assert(splits(s, split_size, path, k) && u.nodes[q] == t.nodes[q]);
    }
    assert(halved_to(u, path[0].0, path[0].1@, to));
    assert forall|k: int| 0 <= k < path.len() implies #[trigger] step_done(
        s,
        u,
        split_size,
        path,
        k,
        1,
    ) by {
        assert(step_done(s, t, split_size, path, k, 0));
        lemma_path_distinct(s, path, k, k);
        assert(u.levels[k + 1] == t.levels[k]);
        assert(t.nodes.contains_key(path[k].0));
        if splits(s, split_size, path, k) {
            let q = choose|q: PageId| #[trigger]
                halved_to(t, path[k].0, path[k].1@, q) && !s.nodes.contains_key(q);
            assert(halved_to(u, path[k].0, path[k].1@, q));
        }
    }
    if s.nodes.contains_key(root) {
        assert(t.nodes.contains_key(root));
    }
}

} // verus!
