//! The nodes of the tree, and the changes that are made to them.

use crate::entries::{
    append_entries, below, copy_entries, drop_at, drop_from, entries_size, entries_stored,
    entries_view, holds_key, larger_than, lemma_entry_found, lemma_rank, lemma_with_entry,
    lemma_without_entry, lookup, put, rank, same_entries, search, sorted, take_out, to_map,
    with_entry, without_entry,
};
use crate::key::{
    copy_bytes, group_key_order, is_before, is_same, key_le, key_lt, lemma_empty_key_is_least,
};
use crate::prefix::{decodable, decoded, encoded, prefix_decode, prefix_encode};
use vstd::prelude::*;

verus! {

/// The number of a page.
pub type PageId = u64;

/// What a node holds, its keys written out.
#[verifier::ext_equal]
pub enum DataView {
    /// Separators, each with the page that starts at it.
    Index(Seq<(Seq<u8>, PageId)>),
    /// Keys, each with its value.
    Leaf(Seq<(Seq<u8>, Seq<u8>)>),
}

/// A node, its keys written out.
#[verifier::ext_equal]
pub struct NodeView {
    /// What the node holds.
    pub data: DataView,
    /// The right sibling.
    pub next: Option<PageId>,
    /// The least key that belongs in the node.
    pub lo: Seq<u8>,
    /// The least key that no longer belongs in the node; empty where there is none.
    pub hi: Seq<u8>,
    /// The child that is being merged into its left sibling.
    pub merging_child: Option<PageId>,
    /// Whether the node is being merged into its left sibling.
    pub merging: bool,
}

/// Whether `key` is at least `lo` and, where `hi` is not empty, before `hi`.
pub open spec fn within(lo: Seq<u8>, hi: Seq<u8>, key: Seq<u8>) -> bool {
    key_le(lo, key) && (hi.len() > 0 ==> key_lt(key, hi))
}

/// Whether all keys of `s` are between the bounds.
pub open spec fn all_within<V>(lo: Seq<u8>, hi: Seq<u8>, s: Seq<(Seq<u8>, V)>) -> bool {
    forall|i: int| #![trigger s[i]] 0 <= i < s.len() ==> within(lo, hi, s[i].0)
}

/// The first position, from `i` on, at which `s` points to `pid`.
pub open spec fn pointer_at(s: Seq<(Seq<u8>, PageId)>, pid: PageId, i: int) -> int
    decreases s.len() - i,
{
    if 0 <= i < s.len() && s[i].1 != pid {
        pointer_at(s, pid, i + 1)
    } else {
        i
    }
}

/// The first position of a pointer, if there is one, is a position of it.
pub proof fn lemma_pointer_at(s: Seq<(Seq<u8>, PageId)>, pid: PageId, i: int)
    requires
        0 <= i <= s.len(),
    ensures
        i <= pointer_at(s, pid, i) <= s.len(),
        forall|j: int| #![trigger s[j]] i <= j < pointer_at(s, pid, i) ==> s[j].1 != pid,
        pointer_at(s, pid, i) < s.len() ==> s[pointer_at(s, pid, i)].1 == pid,
    decreases s.len() - i,
{
    if i < s.len() && s[i].1 != pid {
        lemma_pointer_at(s, pid, i + 1);
    }
}

impl NodeView {
    /// Whether the node holds keys and values.
    pub open spec fn is_leaf(self) -> bool {
        self.data is Leaf
    }

    /// The keys and values of a leaf.
    pub open spec fn entries(self) -> Seq<(Seq<u8>, Seq<u8>)> {
        self.data->Leaf_0
    }

    /// The separators and pages of an index node.
    pub open spec fn pointers(self) -> Seq<(Seq<u8>, PageId)> {
        self.data->Index_0
    }

    /// Whether `key` belongs in the node.
    pub open spec fn covers(self, key: Seq<u8>) -> bool {
        within(self.lo, self.hi, key)
    }

    /// The map that a leaf stands for.
    pub open spec fn contents(self) -> Map<Seq<u8>, Seq<u8>> {
        to_map(self.entries())
    }

    /// The node is well formed: its bounds are in order, its keys rise strictly
    /// between them, and an index node starts with a separator at its low key.
    pub open spec fn ok(self) -> bool {
        &&& self.hi.len() > 0 ==> key_lt(self.lo, self.hi)
        &&& match self.data {
            DataView::Leaf(s) => sorted(s) && all_within(self.lo, self.hi, s),
            DataView::Index(s) => {
                &&& sorted(s)
                &&& all_within(self.lo, self.hi, s)
                &&& s.len() > 0
                &&& s[0].0 == self.lo
            },
        }
    }

    /// The number of entries or separators.
    pub open spec fn len(self) -> nat {
        match self.data {
            DataView::Leaf(s) => s.len(),
            DataView::Index(s) => s.len(),
        }
    }

    /// The key of entry or separator `i`.
    pub open spec fn key_at(self, i: int) -> Seq<u8> {
        match self.data {
            DataView::Leaf(s) => s[i].0,
            DataView::Index(s) => s[i].0,
        }
    }

    /// The leaf with `value` for `key`; without the key where `value` is `None`.
    pub open spec fn with_value(self, key: Seq<u8>, value: Option<Seq<u8>>) -> NodeView {
        NodeView {
            data: DataView::Leaf(
                match value {
                    Some(v) => with_entry(self.entries(), key, v),
                    None => without_entry(self.entries(), key),
                },
            ),
            ..self
        }
    }

    /// The node that gave up all from `at` on to its new right sibling `to`.
    pub open spec fn with_child_split(self, at: Seq<u8>, to: PageId) -> NodeView {
        NodeView {
            data: match self.data {
                DataView::Leaf(s) => DataView::Leaf(below(s, at)),
                DataView::Index(s) => DataView::Index(below(s, at)),
            },
            hi: at,
            next: Some(to),
            ..self
        }
    }

    /// The index node with a separator `at` for page `to`, unless it has one there.
    pub open spec fn with_parent_split(self, at: Seq<u8>, to: PageId) -> NodeView {
        NodeView {
            data: DataView::Index(
                if holds_key(self.pointers(), at) {
                    self.pointers()
                } else {
                    with_entry(self.pointers(), at, to)
                },
            ),
            ..self
        }
    }

    /// The index node that no longer points to the child that has been merged.
    pub open spec fn with_merge_confirmed(self) -> NodeView {
        let s = self.pointers();
        NodeView {
            data: DataView::Index(s.remove(pointer_at(s, self.merging_child->0, 0))),
            merging_child: None,
            ..self
        }
    }

    /// The position at which the node is halved.
    pub open spec fn middle(self) -> int {
        self.len() as int / 2
    }

    /// The right half of the node, as a node of its own.
    pub open spec fn right_half(self) -> NodeView {
        NodeView {
            data: match self.data {
                DataView::Leaf(s) => DataView::Leaf(s.skip(self.middle())),
                DataView::Index(s) => DataView::Index(s.skip(self.middle())),
            },
            next: self.next,
            lo: self.key_at(self.middle()),
            hi: self.hi,
            merging_child: None,
            merging: false,
        }
    }

    /// The node that took over all that its right sibling held.
    pub open spec fn with_right_sibling(self, right: NodeView) -> NodeView {
        NodeView {
            data: match self.data {
                DataView::Leaf(s) => DataView::Leaf(s + right.entries()),
                DataView::Index(s) => DataView::Index(s + right.pointers()),
            },
            next: right.next,
            hi: right.hi,
            ..self
        }
    }
}

/// A change to a node. Keys are in their stored form.
#[derive(Debug)]
pub enum Frag {
    /// Puts a value under a key.
    Put(Vec<u8>, Vec<u8>),
    /// Takes a key out.
    Del(Vec<u8>),
    /// Combines a value with what is there, by the merge operator.
    Merge(Vec<u8>, Vec<u8>),
    /// Gives up all from a key on to a new right sibling.
    ChildSplit(ChildSplit),
    /// Adds the separator of a child that has been split off.
    ParentSplit(ParentSplit),
    /// Announces that a child is to be merged into its left sibling.
    ParentMergeIntention(PageId),
    /// Drops the child that has been merged into its left sibling.
    ParentMergeConfirm,
    /// Marks the node as being merged into its left sibling.
    ChildMergeCap,
}

/// Where a node is cut, and the page that takes over from there.
#[derive(Debug)]
pub struct ChildSplit {
    /// The first key that is given up.
    pub at: Vec<u8>,
    /// The new right sibling.
    pub to: PageId,
}

/// A separator for a parent, and the page that starts at it.
#[derive(Debug)]
pub struct ParentSplit {
    /// The low key of the page.
    pub at: Vec<u8>,
    /// The page.
    pub to: PageId,
}

/// A change to a node, its keys as sequences.
#[verifier::ext_equal]
pub enum FragView {
    Put(Seq<u8>, Seq<u8>),
    Del(Seq<u8>),
    Merge(Seq<u8>, Seq<u8>),
    ChildSplit(Seq<u8>, PageId),
    ParentSplit(Seq<u8>, PageId),
    ParentMergeIntention(PageId),
    ParentMergeConfirm,
    ChildMergeCap,
}

impl View for Frag {
    type V = FragView;

    open spec fn view(&self) -> FragView {
        match self {
            Frag::Put(k, v) => FragView::Put(k@, v@),
            Frag::Del(k) => FragView::Del(k@),
            Frag::Merge(k, v) => FragView::Merge(k@, v@),
            Frag::ChildSplit(split) => FragView::ChildSplit(split.at@, split.to),
            Frag::ParentSplit(split) => FragView::ParentSplit(split.at@, split.to),
            Frag::ParentMergeIntention(pid) => FragView::ParentMergeIntention(*pid),
            Frag::ParentMergeConfirm => FragView::ParentMergeConfirm,
            Frag::ChildMergeCap => FragView::ChildMergeCap,
        }
    }
}

/// The bytes behind a slice that may be missing.
pub open spec fn slice_view(slice: Option<&[u8]>) -> Option<Seq<u8>> {
    match slice {
        Some(s) => Some(s@),
        None => None,
    }
}

/// The bytes of a vector that may be missing.
pub open spec fn bytes_view(bytes: Option<Vec<u8>>) -> Option<Seq<u8>> {
    match bytes {
        Some(b) => Some(b@),
        None => None,
    }
}

/// Whether the merge operator can be called for `key` on what is there and on `operand`.
pub open spec fn operator_ready<M: Fn(&[u8], Option<&[u8]>, &[u8]) -> Option<Vec<u8>>>(
    operator: M,
    key: Seq<u8>,
    old_value: Option<Seq<u8>>,
    operand: Seq<u8>,
) -> bool {
    forall|k: &[u8], o: Option<&[u8]>, v: &[u8]|
        k@ == key && slice_view(o) == old_value && v@ == operand ==> #[trigger] call_requires(
            operator,
            (k, o, v),
        )
}

/// Whether the merge operator can answer `new_value`, called for `key` on what
/// was there and on `operand`.
pub open spec fn merges_to<M: Fn(&[u8], Option<&[u8]>, &[u8]) -> Option<Vec<u8>>>(
    operator: M,
    key: Seq<u8>,
    old_value: Option<Seq<u8>>,
    operand: Seq<u8>,
    new_value: Option<Seq<u8>>,
) -> bool {
    exists|k: &[u8], o: Option<&[u8]>, v: &[u8], n: Option<Vec<u8>>|
        {
            &&& k@ == key
            &&& slice_view(o) == old_value
            &&& v@ == operand
            &&& #[trigger] call_ensures(operator, (k, o, v), n)
            &&& bytes_view(n) == new_value
        }
}

/// Whether `stored` is the form in which `node` stores a key that belongs in it.
pub open spec fn stored_in(node: NodeView, stored: Seq<u8>) -> bool {
    &&& decodable(node.lo, stored)
    &&& stored == encoded(node.lo, decoded(node.lo, stored))
    &&& node.covers(decoded(node.lo, stored))
}

/// Whether `frag` can be applied to `node`.
pub open spec fn applicable<M: Fn(&[u8], Option<&[u8]>, &[u8]) -> Option<Vec<u8>>>(
    node: NodeView,
    frag: FragView,
    operator: Option<M>,
) -> bool {
    match frag {
        FragView::Put(k, _) => node.is_leaf() && stored_in(node, k),
        FragView::Del(k) => node.is_leaf() && stored_in(node, k),
        FragView::Merge(k, v) => {
            let key = decoded(node.lo, k);
            &&& node.is_leaf()
            &&& stored_in(node, k)
            &&& operator matches Some(op) && operator_ready(
                op,
                key,
                lookup(node.entries(), key),
                v,
            )
        },
        FragView::ChildSplit(at, _) => key_lt(node.lo, at) && node.covers(at),
        FragView::ParentSplit(at, _) => !node.is_leaf() && node.covers(at),
        FragView::ParentMergeIntention(_) => !node.is_leaf() && node.merging_child is None,
        FragView::ParentMergeConfirm => {
            &&& !node.is_leaf()
            &&& node.merging_child matches Some(child)
            &&& 0 < pointer_at(node.pointers(), child, 0) < node.pointers().len()
        },
        FragView::ChildMergeCap => !node.merging,
    }
}

/// Whether `after` can be the leaf `node` after `operand` was merged into `key`.
pub open spec fn merge_follows<M: Fn(&[u8], Option<&[u8]>, &[u8]) -> Option<Vec<u8>>>(
    node: NodeView,
    key: Seq<u8>,
    operand: Seq<u8>,
    operator: M,
    after: NodeView,
) -> bool {
    exists|new_value: Option<Seq<u8>>|
        {
            &&& #[trigger] merges_to(
                operator,
                key,
                lookup(node.entries(), key),
                operand,
                new_value,
            )
            &&& after == node.with_value(key, new_value)
        }
}

/// Whether `after` can be what `frag` makes of `node`.
pub open spec fn follows<M: Fn(&[u8], Option<&[u8]>, &[u8]) -> Option<Vec<u8>>>(
    node: NodeView,
    frag: FragView,
    operator: Option<M>,
    after: NodeView,
) -> bool {
    match frag {
        FragView::Put(k, v) => after == node.with_value(decoded(node.lo, k), Some(v)),
        FragView::Del(k) => after == node.with_value(decoded(node.lo, k), None),
        FragView::Merge(k, v) => merge_follows(
            node,
            decoded(node.lo, k),
            v,
            operator->0,
            after,
        ),
        FragView::ChildSplit(at, to) => after == node.with_child_split(at, to),
        FragView::ParentSplit(at, to) => after == node.with_parent_split(at, to),
        FragView::ParentMergeIntention(pid) => after == (NodeView {
            merging_child: Some(pid),
            ..node
        }),
        FragView::ParentMergeConfirm => after == node.with_merge_confirmed(),
        FragView::ChildMergeCap => after == (NodeView { merging: true, ..node }),
    }
}

// ---------------------------------------------------------------------------
// What the changes keep.

/// Changing what a leaf holds for a key that belongs in it keeps it well formed.
pub proof fn lemma_with_value(node: NodeView, key: Seq<u8>, value: Option<Seq<u8>>)
    requires
        node.ok(),
        node.is_leaf(),
        node.covers(key),
    ensures
        node.with_value(key, value).ok(),
        node.with_value(key, value).contents() == match value {
            Some(v) => node.contents().insert(key, v),
            None => node.contents().remove(key),
        },
{
    let s = node.entries();
    lemma_rank(s, key);
    match value {
        Some(v) => {
            lemma_with_entry(s, key, v);
            let t = with_entry(s, key, v);
            assert forall|i: int| #![trigger t[i]] 0 <= i < t.len() implies within(
                node.lo,
                node.hi,
                t[i].0,
            ) by {
                let r = rank(s, key);
                if i != r {
                    let j = if holds_key(s, key) || i < r {
                        i
                    } else {
                        i - 1
                    };
                    assert(t[i] == s[j]);
                }
            }
        },
        None => {
            lemma_without_entry(s, key);
            let t = without_entry(s, key);
            assert forall|i: int| #![trigger t[i]] 0 <= i < t.len() implies within(
                node.lo,
                node.hi,
                t[i].0,
            ) by {
                let r = rank(s, key);
                let j = if !holds_key(s, key) || i < r {
                    i
                } else {
                    i + 1
                };
                assert(t[i] == s[j]);
            }
        },
    }
}

proof fn lemma_below<V>(lo: Seq<u8>, hi: Seq<u8>, s: Seq<(Seq<u8>, V)>, at: Seq<u8>)
    requires
        sorted(s),
        all_within(lo, hi, s),
        key_lt(lo, at),
    ensures
        sorted(below(s, at)),
        all_within(lo, at, below(s, at)),
        s.len() > 0 && s[0].0 == lo ==> below(s, at).len() > 0 && below(s, at)[0] == s[0],
{
    lemma_rank(s, at);
    lemma_empty_key_is_least(at);
    let t = below(s, at);
    assert forall|i: int, j: int| #![trigger t[i], t[j]] 0 <= i < j < t.len() implies key_lt(
        t[i].0,
        t[j].0,
    ) by {
        assert(t[i] == s[i] && t[j] == s[j]);
    }
    assert forall|i: int| #![trigger t[i]] 0 <= i < t.len() implies within(lo, at, t[i].0) by {
        assert(t[i] == s[i]);
    }
    if s.len() > 0 && s[0].0 == lo && rank(s, at) == 0 {
        assert(key_le(at, s[0].0));
    }
}

/// Cutting a node keeps it well formed.
pub proof fn lemma_with_child_split(node: NodeView, at: Seq<u8>, to: PageId)
    requires
        node.ok(),
        key_lt(node.lo, at),
    ensures
        node.with_child_split(at, to).ok(),
{
    match node.data {
        DataView::Leaf(s) => lemma_below(node.lo, node.hi, s, at),
        DataView::Index(s) => lemma_below(node.lo, node.hi, s, at),
    }
}

/// Adding a separator keeps an index node well formed.
pub proof fn lemma_with_parent_split(node: NodeView, at: Seq<u8>, to: PageId)
    requires
        node.ok(),
        !node.is_leaf(),
        node.covers(at),
    ensures
        node.with_parent_split(at, to).ok(),
{
    broadcast use group_key_order;

    let s = node.pointers();
    if !holds_key(s, at) {
        lemma_rank(s, at);
        lemma_with_entry(s, at, to);
        let t = with_entry(s, at, to);
        let r = rank(s, at);
        assert(r > 0) by {
            if r == 0 {
                assert(key_le(at, s[0].0));
                lemma_entry_found(s, 0);
            }
        }
        assert(t[0] == s[0]);
        assert forall|i: int| #![trigger t[i]] 0 <= i < t.len() implies within(
            node.lo,
            node.hi,
            t[i].0,
        ) by {
            if i != r {
                let j = if i < r {
                    i
                } else {
                    i - 1
                };
                assert(t[i] == s[j]);
            }
        }
    }
}

/// Dropping a child that is not the first keeps an index node well formed.
pub proof fn lemma_with_merge_confirmed(node: NodeView)
    requires
        node.ok(),
        !node.is_leaf(),
        0 < pointer_at(node.pointers(), node.merging_child->0, 0) < node.pointers().len(),
    ensures
        node.with_merge_confirmed().ok(),
{
    let s = node.pointers();
    let p = pointer_at(s, node.merging_child->0, 0);
    let t = s.remove(p);
    assert(t[0] == s[0]);
    assert forall|i: int, j: int| #![trigger t[i], t[j]] 0 <= i < j < t.len() implies key_lt(
        t[i].0,
        t[j].0,
    ) by {
        let a = if i < p {
            i
        } else {
            i + 1
        };
        let b = if j < p {
            j
        } else {
            j + 1
        };
        assert(t[i] == s[a] && t[j] == s[b]);
    }
    assert forall|i: int| #![trigger t[i]] 0 <= i < t.len() implies within(
        node.lo,
        node.hi,
        t[i].0,
    ) by {
        let a = if i < p {
            i
        } else {
            i + 1
        };
        assert(t[i] == s[a]);
    }
}

proof fn lemma_upper_half<V>(lo: Seq<u8>, hi: Seq<u8>, s: Seq<(Seq<u8>, V)>, m: int)
    requires
        sorted(s),
        all_within(lo, hi, s),
        0 < m < s.len(),
    ensures
        key_lt(lo, s[m].0),
        within(lo, hi, s[m].0),
        rank(s, s[m].0) == m,
        sorted(s.skip(m)),
        all_within(s[m].0, hi, s.skip(m)),
{
    broadcast use group_key_order;

    lemma_entry_found(s, m);
    assert(key_lt(s[0].0, s[m].0));
    assert(within(lo, hi, s[0].0));
    let t = s.skip(m);
    assert forall|i: int, j: int| #![trigger t[i], t[j]] 0 <= i < j < t.len() implies key_lt(
        t[i].0,
        t[j].0,
    ) by {
        assert(t[i] == s[i + m] && t[j] == s[j + m]);
    }
    assert forall|i: int| #![trigger t[i]] 0 <= i < t.len() implies within(s[m].0, hi, t[i].0) by {
        assert(t[i] == s[i + m]);
    }
}

/// The halves of a node are well formed, and together hold what the node held.
pub proof fn lemma_halves(node: NodeView, to: PageId)
    requires
        node.ok(),
        node.len() >= 2,
    ensures
        0 < node.middle() < node.len(),
        key_lt(node.lo, node.right_half().lo),
        node.covers(node.right_half().lo),
        node.right_half().lo.len() > 0,
        node.right_half().ok(),
        node.with_child_split(node.right_half().lo, to).ok(),
        match node.data {
            DataView::Leaf(s) => node.with_child_split(node.right_half().lo, to).entries()
                == s.take(node.middle()),
            DataView::Index(s) => node.with_child_split(node.right_half().lo, to).pointers()
                == s.take(node.middle()),
        },
{
    broadcast use group_key_order;

    let m = node.middle();
    match node.data {
        DataView::Leaf(s) => lemma_upper_half(node.lo, node.hi, s, m),
        DataView::Index(s) => lemma_upper_half(node.lo, node.hi, s, m),
    }
    lemma_empty_key_is_least(node.lo);
    if node.right_half().lo.len() == 0 {
        assert(node.right_half().lo =~= Seq::empty());
    }
    lemma_with_child_split(node, node.right_half().lo, to);
}

proof fn lemma_joined<V>(
    lo: Seq<u8>,
    mid: Seq<u8>,
    hi: Seq<u8>,
    s: Seq<(Seq<u8>, V)>,
    t: Seq<(Seq<u8>, V)>,
)
    requires
        mid.len() > 0,
        key_lt(lo, mid),
        hi.len() > 0 ==> key_lt(mid, hi),
        sorted(s),
        sorted(t),
        all_within(lo, mid, s),
        all_within(mid, hi, t),
    ensures
        sorted(s + t),
        all_within(lo, hi, s + t),
{
    broadcast use group_key_order;

    let u = s + t;
    assert forall|i: int, j: int| #![trigger u[i], u[j]] 0 <= i < j < u.len() implies key_lt(
        u[i].0,
        u[j].0,
    ) by {
        if j < s.len() {
            assert(u[i] == s[i] && u[j] == s[j]);
        } else if i < s.len() {
            assert(u[i] == s[i] && u[j] == t[j - s.len()]);
            assert(within(lo, mid, s[i].0) && within(mid, hi, t[j - s.len()].0));
        } else {
            assert(u[i] == t[i - s.len()] && u[j] == t[j - s.len()]);
        }
    }
    assert forall|i: int| #![trigger u[i]] 0 <= i < u.len() implies within(lo, hi, u[i].0) by {
        if i < s.len() {
            assert(u[i] == s[i]);
        } else {
            assert(u[i] == t[i - s.len()]);
        }
    }
}

/// A node that took over its right sibling is well formed.
pub proof fn lemma_with_right_sibling(node: NodeView, right: NodeView)
    requires
        node.ok(),
        right.ok(),
        node.is_leaf() == right.is_leaf(),
        node.hi == right.lo,
        node.hi.len() > 0,
    ensures
        node.with_right_sibling(right).ok(),
{
    broadcast use group_key_order;

    match node.data {
        DataView::Leaf(s) => lemma_joined(node.lo, node.hi, right.hi, s, right.entries()),
        DataView::Index(s) => lemma_joined(node.lo, node.hi, right.hi, s, right.pointers()),
    }
}

// ---------------------------------------------------------------------------
// Nodes as they are stored.

/// What a node holds. Keys are in their stored form.
#[derive(Debug)]
pub enum Data {
    /// Separators, each with the page that starts at it.
    Index(Vec<(Vec<u8>, PageId)>),
    /// Keys, each with its value.
    Leaf(Vec<(Vec<u8>, Vec<u8>)>),
}

/// A node.
#[derive(Debug)]
pub struct Node {
    /// What the node holds.
    pub data: Data,
    /// The right sibling.
    pub next: Option<PageId>,
    /// The least key that belongs in the node.
    pub lo: Vec<u8>,
    /// The least key that no longer belongs in the node; empty where there is none.
    pub hi: Vec<u8>,
    /// The child that is being merged into its left sibling.
    pub merging_child: Option<PageId>,
    /// Whether the node is being merged into its left sibling.
    pub merging: bool,
}

impl View for Node {
    type V = NodeView;

    open spec fn view(&self) -> NodeView {
        NodeView {
            data: match self.data {
                Data::Index(items) => DataView::Index(entries_view(self.lo@, items@)),
                Data::Leaf(items) => DataView::Leaf(entries_view(self.lo@, items@)),
            },
            next: self.next,
            lo: self.lo@,
            hi: self.hi@,
            merging_child: self.merging_child,
            merging: self.merging,
        }
    }
}

impl Node {
    /// The node is well formed, and its keys are in their stored form.
    pub open spec fn wf(&self) -> bool {
        &&& self@.ok()
        &&& match self.data {
            Data::Index(items) => entries_stored(self.lo@, items@),
            Data::Leaf(items) => entries_stored(self.lo@, items@),
        }
    }

    /// The number of bytes that the node takes.
    pub open spec fn size(&self) -> nat {
        self.lo@.len() + self.hi@.len() + match self.data {
            Data::Index(items) => entries_size(items@, items@.len()),
            Data::Leaf(items) => entries_size(items@, items@.len()),
        }
    }

    /// Whether the node is to be split: it takes more than `max` bytes, has more
    /// than two entries, and takes part in no merge.
    pub open spec fn oversized(&self, max: nat) -> bool {
        &&& self.size() > max
        &&& self@.len() > 2
        &&& self@.merging_child is None
        &&& !self@.merging
    }

    /// An empty leaf for all keys.
    pub fn new_leaf() -> (node: Node)
        ensures
            node.wf(),
            node@ == (NodeView {
                data: DataView::Leaf(Seq::empty()),
                next: None,
                lo: Seq::empty(),
                hi: Seq::empty(),
                merging_child: None,
                merging: false,
            }),
    {
        let node = Node {
            data: Data::Leaf(Vec::new()),
            next: None,
            lo: Vec::new(),
            hi: Vec::new(),
            merging_child: None,
            merging: false,
        };
        assert(node@.entries() =~= Seq::empty());
        assert(node@.lo =~= Seq::empty());
        assert(node@.hi =~= Seq::empty());
        node
    }

    /// Copies the node.
    pub fn duplicate(&self) -> (copy: Node)
        requires
            self.wf(),
        ensures
            copy.wf(),
            copy@ == self@,
            copy@.is_leaf() == self@.is_leaf(),
    {
        let data = match &self.data {
            Data::Index(items) => Data::Index(copy_entries(items, self.lo.as_slice())),
            Data::Leaf(items) => Data::Leaf(copy_entries(items, self.lo.as_slice())),
        };
        Node {
            data,
            next: self.next,
            lo: copy_bytes(self.lo.as_slice()),
            hi: copy_bytes(self.hi.as_slice()),
            merging_child: self.merging_child,
            merging: self.merging,
        }
    }

    /// Tells whether two nodes are the same.
    pub fn same(&self, other: &Node) -> (r: bool)
        requires
            self.wf(),
            other.wf(),
        ensures
            r == (self@ == other@),
    {
        if self.next != other.next || self.merging_child != other.merging_child || self.merging
            != other.merging || !is_same(self.lo.as_slice(), other.lo.as_slice()) || !is_same(
            self.hi.as_slice(),
            other.hi.as_slice(),
        ) {
            return false;
        }
        match (&self.data, &other.data) {
            (Data::Index(a), Data::Index(b)) => same_entries(a, b, Ghost(self.lo@)),
            (Data::Leaf(a), Data::Leaf(b)) => same_entries(a, b, Ghost(self.lo@)),
            _ => false,
        }
    }

    /// Tells whether `key` is past the keys that belong in the node.
    pub fn is_past(&self, key: &[u8]) -> (r: bool)
        ensures
            r == (self@.hi.len() > 0 && key_le(self@.hi, key@)),
    {
        self.hi.len() > 0 && !is_before(key, self.hi.as_slice())
    }

    /// What a leaf holds for `key`.
    pub fn get(&self, key: &[u8]) -> (value: Option<Vec<u8>>)
        requires
            self.wf(),
            self@.is_leaf(),
        ensures
            bytes_view(value) == lookup(self@.entries(), key@),
    {
        match &self.data {
            Data::Leaf(items) => {
                let (at, found) = search(items, self.lo.as_slice(), key);
                if found {
                    Some(copy_bytes(items[at].1.as_slice()))
                } else {
                    None
                }
            },
            Data::Index(_) => None,
        }
    }

    /// Tells whether the node is to be split.
    pub fn should_split(&self, max: u64) -> (r: bool)
        requires
            self.wf(),
        ensures
            r == self.oversized(max as nat),
    {
        let few: bool = match &self.data {
            Data::Index(items) => items.len() <= 2,
            Data::Leaf(items) => items.len() <= 2,
        };
        if few || self.merging || self.merging_child.is_some() {
            return false;
        }
        let lo_size: u64 = self.lo.len() as u64;
        let hi_size: u64 = self.hi.len() as u64;
        if lo_size > max || hi_size > max - lo_size {
            return true;
        }
        let rest: u64 = max - lo_size - hi_size;
        match &self.data {
            Data::Index(items) => larger_than(items, rest),
            Data::Leaf(items) => larger_than(items, rest),
        }
    }

    /// The right half of the node, as a node of its own.
    pub fn split(&self) -> (right: Node)
        requires
            self.wf(),
            self@.len() >= 2,
        ensures
            right.wf(),
            right@ == self@.right_half(),
    {
        proof {
            lemma_halves(self@, 0);
        }
        let (data, lo) = match &self.data {
            Data::Index(items) => {
                let middle: usize = items.len() / 2;
                let lo = prefix_decode(self.lo.as_slice(), items[middle].0.as_slice());
                let mut upper: Vec<(Vec<u8>, PageId)> = Vec::new();
                append_entries(&mut upper, lo.as_slice(), items, self.lo.as_slice(), middle);
                proof {
                    assert(entries_view(lo@, upper@) =~= entries_view(self.lo@, items@).skip(
                        middle as int,
                    ));
                }
                (Data::Index(upper), lo)
            },
            Data::Leaf(items) => {
                let middle: usize = items.len() / 2;
                let lo = prefix_decode(self.lo.as_slice(), items[middle].0.as_slice());
                let mut upper: Vec<(Vec<u8>, Vec<u8>)> = Vec::new();
                append_entries(&mut upper, lo.as_slice(), items, self.lo.as_slice(), middle);
                proof {
                    assert(entries_view(lo@, upper@) =~= entries_view(self.lo@, items@).skip(
                        middle as int,
                    ));
                }
                (Data::Leaf(upper), lo)
            },
        };
        let right = Node {
            data,
            next: self.next,
            lo,
            hi: copy_bytes(self.hi.as_slice()),
            merging_child: None,
            merging: false,
        };
        assert(right@ =~= self@.right_half());
        right
    }

    /// The node that takes over all that its right sibling holds.
    pub fn receive_merge(&self, right: &Node) -> (merged: Node)
        requires
            self.wf(),
            right.wf(),
            self@.is_leaf() == right@.is_leaf(),
            self@.hi == right@.lo,
            self@.hi.len() > 0,
        ensures
            merged.wf(),
            merged@ == self@.with_right_sibling(right@),
    {
        proof {
            lemma_with_right_sibling(self@, right@);
        }
        let mut merged = self.duplicate();
        let lo = copy_bytes(self.lo.as_slice());
        match (&mut merged.data, &right.data) {
            (Data::Index(items), Data::Index(others)) => {
                append_entries(items, lo.as_slice(), others, right.lo.as_slice(), 0);
                assert(right@.pointers().skip(0) =~= right@.pointers());
            },
            (Data::Leaf(items), Data::Leaf(others)) => {
                append_entries(items, lo.as_slice(), others, right.lo.as_slice(), 0);
                assert(right@.entries().skip(0) =~= right@.entries());
            },
            _ => {},
        }
        merged.hi = copy_bytes(right.hi.as_slice());
        merged.next = right.next;
        assert(merged@ =~= self@.with_right_sibling(right@));
        merged
    }

    /// Makes a change to the node.
    pub fn apply<M: Fn(&[u8], Option<&[u8]>, &[u8]) -> Option<Vec<u8>>>(
        &mut self,
        frag: Frag,
        operator: &Option<M>,
    )
        requires
            old(self).wf(),
            applicable(old(self)@, frag@, *operator),
        ensures
            final(self).wf(),
            follows(old(self)@, frag@, *operator, final(self)@),
    {
        let ghost before = self@;
        match frag {
            Frag::Put(stored, value) => {
                proof {
                    lemma_with_value(before, decoded(before.lo, stored@), Some(value@));
                }
                self.put_leaf(stored, value);
            },
            Frag::Del(stored) => {
                proof {
                    lemma_with_value(before, decoded(before.lo, stored@), None);
                }
                self.del_leaf(stored);
            },
            Frag::Merge(stored, operand) => {
                self.merge_leaf(stored, operand, operator);
            },
            Frag::ChildSplit(split) => {
                proof {
                    lemma_with_child_split(before, split.at@, split.to);
                }
                self.child_split(split);
            },
            Frag::ParentSplit(split) => {
                proof {
                    lemma_with_parent_split(before, split.at@, split.to);
                }
                self.parent_split(split);
            },
            Frag::ParentMergeIntention(pid) => {
                self.merging_child = Some(pid);
                assert(self@ == (NodeView { merging_child: Some(pid), ..before }));
            },
            Frag::ParentMergeConfirm => {
                proof {
                    lemma_with_merge_confirmed(before);
                }
                self.confirm_merge();
            },
            Frag::ChildMergeCap => {
                self.merging = true;
                assert(self@ == (NodeView { merging: true, ..before }));
            },
        }
    }

    fn put_leaf(&mut self, stored: Vec<u8>, value: Vec<u8>)
        requires
            old(self).wf(),
            old(self)@.is_leaf(),
            stored_in(old(self)@, stored@),
        ensures
            final(self).wf(),
            final(self)@ == old(self)@.with_value(decoded(old(self)@.lo, stored@), Some(value@)),
    {
        let ghost before = self@;
        proof {
            lemma_with_value(before, decoded(before.lo, stored@), Some(value@));
        }
        match &mut self.data {
            Data::Leaf(items) => {
                put(items, self.lo.as_slice(), stored, value);
            },
            Data::Index(_) => {},
        }
        assert(self@ =~= before.with_value(decoded(before.lo, stored@), Some(value@)));
    }

    fn del_leaf(&mut self, stored: Vec<u8>)
        requires
            old(self).wf(),
            old(self)@.is_leaf(),
            stored_in(old(self)@, stored@),
        ensures
            final(self).wf(),
            final(self)@ == old(self)@.with_value(decoded(old(self)@.lo, stored@), None),
    {
        let ghost before = self@;
        proof {
            lemma_with_value(before, decoded(before.lo, stored@), None);
        }
        match &mut self.data {
            Data::Leaf(items) => {
                take_out(items, self.lo.as_slice(), stored.as_slice());
            },
            Data::Index(_) => {},
        }
        assert(self@ =~= before.with_value(decoded(before.lo, stored@), None));
    }

    fn merge_leaf<M: Fn(&[u8], Option<&[u8]>, &[u8]) -> Option<Vec<u8>>>(
        &mut self,
        stored: Vec<u8>,
        operand: Vec<u8>,
        operator: &Option<M>,
    )
        requires
            old(self).wf(),
            applicable(old(self)@, FragView::Merge(stored@, operand@), *operator),
        ensures
            final(self).wf(),
            follows(
                old(self)@,
                FragView::Merge(stored@, operand@),
                *operator,
                final(self)@,
            ),
    {
        let ghost before = self@;
        let key = prefix_decode(self.lo.as_slice(), stored.as_slice());
        let current = self.get(key.as_slice());
        let current_slice: Option<&[u8]> = match &current {
            Some(bytes) => Some(bytes.as_slice()),
            None => None,
        };
        if let Some(op) = operator {
            let outcome = op(key.as_slice(), current_slice, operand.as_slice());
            let ghost new_value = bytes_view(outcome);
            assert(merges_to(
                operator->0,
                key@,
                lookup(before.entries(), key@),
                operand@,
                new_value,
            ));
            match outcome {
                Some(value) => self.put_leaf(stored, value),
                None => self.del_leaf(stored),
            }
            assert(self@ == before.with_value(key@, new_value));
            assert(merge_follows(before, key@, operand@, operator->0, self@));
        }
    }

    fn child_split(&mut self, split: ChildSplit)
        requires
            old(self).wf(),
            key_lt(old(self)@.lo, split.at@),
        ensures
            final(self).wf(),
            final(self)@ == old(self)@.with_child_split(split.at@, split.to),
    {
        let ghost before = self@;
        proof {
            lemma_with_child_split(before, split.at@, split.to);
        }
        match &mut self.data {
            Data::Leaf(items) => {
                drop_from(items, self.lo.as_slice(), split.at.as_slice());
            },
            Data::Index(items) => {
                drop_from(items, self.lo.as_slice(), split.at.as_slice());
            },
        }
        self.hi = split.at;
        self.next = Some(split.to);
        assert(self@ =~= before.with_child_split(split.at@, split.to));
    }

    fn parent_split(&mut self, split: ParentSplit)
        requires
            old(self).wf(),
            !old(self)@.is_leaf(),
            old(self)@.covers(split.at@),
        ensures
            final(self).wf(),
            final(self)@ == old(self)@.with_parent_split(split.at@, split.to),
    {
        let ghost before = self@;
        proof {
            lemma_with_parent_split(before, split.at@, split.to);
        }
        match &mut self.data {
            Data::Index(items) => {
                let (_at, found) = search(items, self.lo.as_slice(), split.at.as_slice());
                if !found {
                    let stored = prefix_encode(self.lo.as_slice(), split.at.as_slice());
                    put(items, self.lo.as_slice(), stored, split.to);
                }
            },
            Data::Leaf(_) => {},
        }
        assert(self@ =~= before.with_parent_split(split.at@, split.to));
    }

    fn confirm_merge(&mut self)
        requires
            old(self).wf(),
            !old(self)@.is_leaf(),
            old(self)@.merging_child is Some,
            0 < pointer_at(old(self)@.pointers(), old(self)@.merging_child->0, 0)
                < old(self)@.pointers().len(),
        ensures
            final(self).wf(),
            final(self)@ == old(self)@.with_merge_confirmed(),
    {
        let ghost before = self@;
        proof {
            lemma_with_merge_confirmed(before);
        }
        let child = self.merging_child.unwrap();
        match &mut self.data {
            Data::Index(items) => {
                let at = find_pointer(items, self.lo.as_slice(), child);
                drop_at(items, self.lo.as_slice(), at);
            },
            Data::Leaf(_) => {},
        }
        self.merging_child = None;
        assert(self@ =~= before.with_merge_confirmed());
    }
}

/// The first position at which `items` point to `pid`.
pub fn find_pointer(items: &Vec<(Vec<u8>, PageId)>, lo: &[u8], pid: PageId) -> (at: usize)
    ensures
        at == pointer_at(entries_view(lo@, items@), pid, 0),
        at <= items.len(),
{
    let ghost s = entries_view(lo@, items@);
    let mut at: usize = 0;
    while at < items.len() && items[at].1 != pid
        invariant
            at <= items.len(),
            s == entries_view(lo@, items@),
            pointer_at(s, pid, 0) == pointer_at(s, pid, at as int),
        decreases items.len() - at,
    {
        assert(s[at as int].1 == items@[at as int].1);
        at = at + 1;
    }
    at
}

} // verus!
