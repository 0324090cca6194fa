//! The entries next to a bound, above it and below it.

use crate::entries::{
    binary_search_lub, entries_stored, entries_view, lemma_entry_found, lemma_rank, rank, search,
    sorted,
};
use crate::error::{Error, ErrorView};
use crate::key::{
    copy_bytes, group_key_order, is_before, is_same, key_le, key_lt, lemma_empty_key_is_least,
    parts_at,
};
use crate::moves::lemma_pointers_distinct;
use crate::node::{lemma_pointer_at, pointer_at, Data, Node, PageId};
use crate::prefix::prefix_decode;
use crate::shape::{lemma_chain_order, lemma_home, lemma_home_is, lemma_leaf_contents, Shape};
use crate::traverse::step_ok;
use crate::tree::Tree;
use std::sync::Arc;
use vstd::prelude::*;

verus! {

/// An end of a range of keys.
#[derive(Debug)]
pub enum Bound {
    /// The range ends at a key, which belongs to it.
    Included(Vec<u8>),
    /// The range ends at a key, which does not belong to it.
    Excluded(Vec<u8>),
    /// The range does not end.
    Unbounded,
}

/// An end of a range of keys, the key as a sequence.
#[verifier::ext_equal]
pub enum BoundView {
    Included(Seq<u8>),
    Excluded(Seq<u8>),
    Unbounded,
}

impl View for Bound {
    type V = BoundView;

    open spec fn view(&self) -> BoundView {
        match self {
            Bound::Included(key) => BoundView::Included(key@),
            Bound::Excluded(key) => BoundView::Excluded(key@),
            Bound::Unbounded => BoundView::Unbounded,
        }
    }
}

impl BoundView {
    /// Whether `key` is in a range that starts here.
    pub open spec fn starts(self, key: Seq<u8>) -> bool {
        match self {
            BoundView::Included(bound) => key_le(bound, key),
            BoundView::Excluded(bound) => key_lt(bound, key),
            BoundView::Unbounded => true,
        }
    }

    /// Whether `key` is in a range that ends here.
    pub open spec fn ends(self, key: Seq<u8>) -> bool {
        match self {
            BoundView::Included(bound) => key_le(key, bound),
            BoundView::Excluded(bound) => key_lt(key, bound),
            BoundView::Unbounded => true,
        }
    }
}

impl Bound {
    /// Copies the bound.
    pub fn duplicate(&self) -> (copy: Bound)
        ensures
            copy@ == self@,
    {
        match self {
            Bound::Included(key) => Bound::Included(copy_bytes(key.as_slice())),
            Bound::Excluded(key) => Bound::Excluded(copy_bytes(key.as_slice())),
            Bound::Unbounded => Bound::Unbounded,
        }
    }

    /// Tells whether `key` is in a range that starts here.
    pub fn is_start_of(&self, key: &[u8]) -> (r: bool)
        ensures
            r == self@.starts(key@),
    {
        match self {
            Bound::Included(bound) => !is_before(key, bound.as_slice()),
            Bound::Excluded(bound) => is_before(bound.as_slice(), key),
            Bound::Unbounded => true,
        }
    }

    /// Tells whether `key` is in a range that ends here.
    pub fn is_end_of(&self, key: &[u8]) -> (r: bool)
        ensures
            r == self@.ends(key@),
    {
        match self {
            Bound::Included(bound) => !is_before(bound.as_slice(), key),
            Bound::Excluded(bound) => is_before(key, bound.as_slice()),
            Bound::Unbounded => true,
        }
    }
}

/// A range that has started goes on upwards.
pub proof fn lemma_starts_later(bound: BoundView, a: Seq<u8>, b: Seq<u8>)
    requires
        bound.starts(a),
        key_lt(a, b),
    ensures
        bound.starts(b),
{
    broadcast use group_key_order;

}

/// A range that has not ended goes on downwards.
pub proof fn lemma_ends_earlier(bound: BoundView, a: Seq<u8>, b: Seq<u8>)
    requires
        bound.ends(b),
        key_lt(a, b),
    ensures
        bound.ends(a),
{
    broadcast use group_key_order;

}

/// Whether `key` is the least key of `map` in a range that starts at `bound`.
pub open spec fn is_least(map: Map<Seq<u8>, Seq<u8>>, bound: BoundView, key: Seq<u8>) -> bool {
    &&& map.contains_key(key)
    &&& bound.starts(key)
    &&& forall|k: Seq<u8>| #[trigger] map.contains_key(k) && bound.starts(k) ==> key_le(key, k)
}

/// Whether `key` is the greatest key of `map` in a range that ends at `bound`.
pub open spec fn is_greatest(map: Map<Seq<u8>, Seq<u8>>, bound: BoundView, key: Seq<u8>) -> bool {
    &&& map.contains_key(key)
    &&& bound.ends(key)
    &&& forall|k: Seq<u8>| #[trigger] map.contains_key(k) && bound.ends(k) ==> key_le(k, key)
}

/// The number of entries before the range that starts at `bound`.
fn count_before(items: &Vec<(Vec<u8>, Vec<u8>)>, lo: &[u8], bound: &Bound) -> (n: usize)
    requires
        entries_stored(lo@, items@),
        sorted(entries_view(lo@, items@)),
    ensures
        n <= items.len(),
        forall|i: int|
            #![trigger entries_view(lo@, items@)[i]]
            0 <= i < n ==> !bound@.starts(entries_view(lo@, items@)[i].0),
        forall|i: int|
            #![trigger entries_view(lo@, items@)[i]]
            n <= i < items.len() ==> bound@.starts(entries_view(lo@, items@)[i].0),
{
    broadcast use group_key_order;

    let ghost s = entries_view(lo@, items@);
    match bound {
        Bound::Included(key) => {
            let (at, _) = search(items, lo, key.as_slice());
            proof {
                lemma_rank(s, key@);
            }
            at
        },
        Bound::Excluded(key) => {
            let (at, found) = search(items, lo, key.as_slice());
            proof {
                lemma_rank(s, key@);
                assert forall|i: int| #![trigger s[i]] at <= i < s.len() && !(found && i
                    == at) implies key_lt(key@, s[i].0) by {
                    if found {
                        assert(key_lt(s[at as int].0, s[i].0));
                    } else if s[i].0 == key@ {
                        lemma_entry_found(s, i);
                    }
                }
            }
            if found {
                at + 1
            } else {
                at
            }
        },
        Bound::Unbounded => 0,
    }
}

/// The number of entries in the range that ends at `bound`.
fn count_until(items: &Vec<(Vec<u8>, Vec<u8>)>, lo: &[u8], bound: &Bound) -> (n: usize)
    requires
        entries_stored(lo@, items@),
        sorted(entries_view(lo@, items@)),
    ensures
        n <= items.len(),
        forall|i: int|
            #![trigger entries_view(lo@, items@)[i]]
            0 <= i < n ==> bound@.ends(entries_view(lo@, items@)[i].0),
        forall|i: int|
            #![trigger entries_view(lo@, items@)[i]]
            n <= i < items.len() ==> !bound@.ends(entries_view(lo@, items@)[i].0),
{
    broadcast use group_key_order;

    let ghost s = entries_view(lo@, items@);
    match bound {
        Bound::Included(key) => {
            let (at, found) = search(items, lo, key.as_slice());
            proof {
                lemma_rank(s, key@);
                assert forall|i: int| #![trigger s[i]] at <= i < s.len() && !(found && i
                    == at) implies key_lt(key@, s[i].0) by {
                    if found {
                        assert(key_lt(s[at as int].0, s[i].0));
                    } else if s[i].0 == key@ {
                        lemma_entry_found(s, i);
                    }
                }
            }
            if found {
                at + 1
            } else {
                at
            }
        },
        Bound::Excluded(key) => {
            let (at, _) = search(items, lo, key.as_slice());
            proof {
                lemma_rank(s, key@);
            }
            at
        },
        Bound::Unbounded => items.len(),
    }
}

/// A copy of an entry of a leaf, its key written out.
pub(crate) fn copy_entry(leaf: &Node, at: usize) -> (entry: (Vec<u8>, Vec<u8>))
    requires
        leaf.wf(),
        leaf@.is_leaf(),
        at < leaf@.entries().len(),
    ensures
        (entry.0@, entry.1@) == leaf@.entries()[at as int],
{
    match &leaf.data {
        Data::Leaf(items) => {
            let key = prefix_decode(leaf.lo.as_slice(), items[at].0.as_slice());
            (key, copy_bytes(items[at].1.as_slice()))
        },
        Data::Index(_) => (Vec::new(), Vec::new()),
    }
}

/// The entry of a leaf at `at` is an entry of the tree.
proof fn lemma_leaf_entry(s: Shape, i: int, at: int)
    requires
        s.wf(),
        s.place(s.bottom(), i),
        0 <= at < s.node(s.bottom(), i).entries().len(),
    ensures
        ({
            let (key, value) = s.node(s.bottom(), i).entries()[at];
            &&& s.contents().contains_key(key)
            &&& s.contents()[key] == value
            &&& s.home(s.bottom(), key) == i
        }),
{
    let node = s.node(s.bottom(), i);
    assert(s.place_ok(s.bottom(), i));
    let (key, value) = node.entries()[at];
    assert(node.covers(key));
    lemma_entry_found(node.entries(), at);
    lemma_leaf_contents(s, i, key);
    lemma_home_is(s, s.bottom(), i, key);
}

/// A key of the tree is an entry of its leaf.
pub proof fn lemma_key_entry(s: Shape, key: Seq<u8>) -> (at: int)
    requires
        s.wf(),
        s.contents().contains_key(key),
    ensures
        ({
            let h = s.home(s.bottom(), key);
            &&& s.place(s.bottom(), h)
            &&& s.node(s.bottom(), h).covers(key)
            &&& 0 <= at < s.node(s.bottom(), h).entries().len()
            &&& s.node(s.bottom(), h).entries()[at].0 == key
        }),
{
    let b = s.bottom();
    lemma_home(s, b, key);
    let node = s.node(b, s.home(b, key));
    assert(s.place_ok(b, s.home(b, key)));
    lemma_rank(node.entries(), key);
    rank(node.entries(), key)
}

/// The first entry of a leaf in a range is the least key in the range, if the
/// leaves before it have none.
pub proof fn lemma_first_in_leaf(s: Shape, bound: BoundView, i: int, n: int)
    requires
        s.wf(),
        s.place(s.bottom(), i),
        0 <= n <= s.node(s.bottom(), i).entries().len(),
        forall|k: int|
            #![trigger s.node(s.bottom(), i).entries()[k]]
            0 <= k < n ==> !bound.starts(s.node(s.bottom(), i).entries()[k].0),
        n < s.node(s.bottom(), i).entries().len() ==> bound.starts(
            s.node(s.bottom(), i).entries()[n].0,
        ),
        forall|key: Seq<u8>| #[trigger]
            s.contents().contains_key(key) && bound.starts(key) ==> s.home(s.bottom(), key) >= i,
    ensures
        n < s.node(s.bottom(), i).entries().len() ==> is_least(
            s.contents(),
            bound,
            s.node(s.bottom(), i).entries()[n].0,
        ) && s.contents()[s.node(s.bottom(), i).entries()[n].0] == s.node(
            s.bottom(),
            i,
        ).entries()[n].1,
        n == s.node(s.bottom(), i).entries().len() ==> forall|key: Seq<u8>| #[trigger]
            s.contents().contains_key(key) && bound.starts(key) ==> s.home(s.bottom(), key) > i,
{
    broadcast use group_key_order;

    let b = s.bottom();
    let entries = s.node(b, i).entries();
    assert(s.place_ok(b, i));
    if n < entries.len() {
        lemma_leaf_entry(s, i, n);
        let first = entries[n].0;
        assert(s.node(b, i).covers(first));
        assert forall|key: Seq<u8>| #[trigger]
            s.contents().contains_key(key) && bound.starts(key) implies key_le(first, key) by {
            let at = lemma_key_entry(s, key);
            let h = s.home(b, key);
            if h == i {
                assert(entries[at].0 == key);
                if at < n {
                    assert(!bound.starts(entries[at].0));
                } else if n < at {
                    assert(key_lt(entries[n].0, entries[at].0));
                }
            } else {
                lemma_chain_order(s, b, i, h);
            }
        }
    } else {
        assert forall|key: Seq<u8>| #[trigger]
            s.contents().contains_key(key) && bound.starts(key) implies s.home(b, key) > i by {
            let at = lemma_key_entry(s, key);
            if s.home(b, key) == i {
                assert(!bound.starts(entries[at].0));
            }
        }
    }
}

/// The last entry of a leaf in a range is the greatest key in the range, if the
/// leaves after it have none.
pub proof fn lemma_last_in_leaf(s: Shape, bound: BoundView, i: int, n: int)
    requires
        s.wf(),
        s.place(s.bottom(), i),
        0 <= n <= s.node(s.bottom(), i).entries().len(),
        forall|k: int|
            #![trigger s.node(s.bottom(), i).entries()[k]]
            n <= k < s.node(s.bottom(), i).entries().len() ==> !bound.ends(
                s.node(s.bottom(), i).entries()[k].0,
            ),
        n > 0 ==> bound.ends(s.node(s.bottom(), i).entries()[n - 1].0),
        forall|key: Seq<u8>| #[trigger]
            s.contents().contains_key(key) && bound.ends(key) ==> s.home(s.bottom(), key) <= i,
    ensures
        n > 0 ==> is_greatest(s.contents(), bound, s.node(s.bottom(), i).entries()[n - 1].0)
            && s.contents()[s.node(s.bottom(), i).entries()[n - 1].0] == s.node(
            s.bottom(),
            i,
        ).entries()[n - 1].1,
        n == 0 ==> forall|key: Seq<u8>| #[trigger]
            s.contents().contains_key(key) && bound.ends(key) ==> s.home(s.bottom(), key) < i,
{
    broadcast use group_key_order;

    let b = s.bottom();
    let entries = s.node(b, i).entries();
    assert(s.place_ok(b, i));
    if n > 0 {
        lemma_leaf_entry(s, i, n - 1);
        let last = entries[n - 1].0;
        assert(s.node(b, i).covers(last));
        assert forall|key: Seq<u8>| #[trigger]
            s.contents().contains_key(key) && bound.ends(key) implies key_le(key, last) by {
            let at = lemma_key_entry(s, key);
            let h = s.home(b, key);
            if h == i {
                assert(entries[at].0 == key);
                if at >= n {
                    assert(!bound.ends(entries[at].0));
                } else if at < n - 1 {
                    assert(key_lt(entries[at].0, entries[n - 1].0));
                }
            } else {
                lemma_chain_order(s, b, h, i);
            }
        }
    } else {
        assert forall|key: Seq<u8>| #[trigger]
            s.contents().contains_key(key) && bound.ends(key) implies s.home(b, key) < i by {
            let at = lemma_key_entry(s, key);
            if s.home(b, key) == i {
                assert(!bound.ends(entries[at].0));
            }
        }
    }
}

/// The homes of keys rise with the keys.
pub proof fn lemma_home_monotonic(s: Shape, a: Seq<u8>, b: Seq<u8>)
    requires
        s.wf(),
        key_le(a, b),
    ensures
        s.home(s.bottom(), a) <= s.home(s.bottom(), b),
{
    broadcast use group_key_order;

    let l = s.bottom();
    lemma_home(s, l, a);
    lemma_home(s, l, b);
    let i = s.home(l, a);
    let j = s.home(l, b);
    if j < i {
        lemma_chain_order(s, l, j, i);
    }
}

/// Some key before `key`, near it: the key that ends one byte earlier, if the last
/// byte is zero, or else one whose last byte is one less, with bytes that are as
/// large as can be after it.
fn possible_predecessor(key: &[u8]) -> (guess: Vec<u8>)
    requires
        key@.len() > 0,
    ensures
        key_lt(guess@, key@),
{
    let last: usize = key.len() - 1;
    let mut guess = copy_bytes(vstd::slice::slice_subrange(key, 0, last));
    let ghost head = guess@;
    if key[last] > 0 {
        guess.push(key[last] - 1);
        guess.push(255);
        guess.push(255);
        guess.push(255);
        guess.push(255);
    }
    proof {
        reveal(key_lt);
        assert forall|i: int| 0 <= i < last implies guess@[i] == key@[i] by {
            assert(guess@[i] == head[i]);
        }
        assert(parts_at(guess@, key@, last as int));
    }
    guess
}

impl<M> Tree<M> {
    /// The leaf in which `key` belongs, found without a change to any page.
    fn find_leaf(&self, key: &[u8]) -> (leaf: Arc<Node>)
        requires
            self.wf(),
            !self.is_removed(),
        ensures
            leaf.wf(),
            leaf@ == self.shape().leaf(key@),
    {
        let ghost s = self.shape();
        let ghost mut l: int = 0;
        let ghost mut i: int = 0;
        let mut cursor: PageId = self.root;
        proof {
            assert(s.levels[0].len() > 0);
            assert(s.place_ok(0, 0));
            lemma_empty_key_is_least(key@);
            assert(s.node(0, 0).lo =~= Seq::empty());
        }
        loop
            invariant
                self.wf(),
                !self.is_removed(),
                s == self.shape(),
                s.place(l, i),
                s.page(l, i) == cursor,
                key_le(s.node(l, i).lo, key@),
            decreases s.levels.len() - l, s.levels[l].len() - i,
        {
            proof {
                assert(s.place_ok(l, i));
            }
            let node = self.pagecache.materialized(cursor);
            if node.is_past(key) {
                cursor = node.next.unwrap();
                proof {
                    i = i + 1;
                }
                continue;
            }
            proof {
                lemma_home_is(s, l, i, key@);
            }
            let pointers = match &node.data {
                Data::Leaf(_) => return node,
                Data::Index(pointers) => pointers,
            };
            let mut at: usize = binary_search_lub(pointers, node.lo.as_slice(), key).unwrap();
            if node.merging_child == Some(pointers[at].1) {
                // The child before it may have taken over from it.
                proof {
                    assert(s.merging_ok(l, i));
                    lemma_pointer_at(node@.pointers(), pointers@[at as int].1, 0);
                    lemma_pointers_distinct(
                        s,
                        l,
                        i,
                        at as int,
                        pointer_at(node@.pointers(), pointers@[at as int].1, 0),
                    );
                }
                at = at - 1;
                proof {
                    assert(key_lt(node@.pointers()[at as int].0, node@.pointers()[at + 1].0));
                    lemma_keys_before(node@.pointers()[at as int].0, node@.pointers()[at + 1].0, key@);
                    if node@.merging_child == Some(pointers@[at as int].1) {
                        lemma_pointers_distinct(s, l, i, at as int, at + 1);
                    }
                }
            }
            cursor = pointers[at].1;
            proof {
                assert(s.pointer_ok(l, i, at as int));
                let (lo, p) = node@.pointers()[at as int];
                assert(s.leads_to(l + 1, p, lo));
                i = s.place_of(l + 1, p, lo);
                l = l + 1;
                assert(s.starts_at(l, i, p, lo));
            }
        }
    }
}

/// What comes before a key comes before all that is not before that key.
proof fn lemma_keys_before(a: Seq<u8>, b: Seq<u8>, c: Seq<u8>)
    requires
        key_lt(a, b),
        key_le(b, c),
    ensures
        key_lt(a, c),
        key_le(a, c),
{
    broadcast use group_key_order;

}

impl<M: Fn(&[u8], Option<&[u8]>, &[u8]) -> Option<Vec<u8>>> Tree<M> {
    /// The least entry in the range that starts at `bound`.
    pub(crate) fn entry_above(&mut self, bound: &Bound) -> (r: Result<
        Option<(Vec<u8>, Vec<u8>)>,
        Error,
    >)
        requires
            old(self).wf(),
        ensures
            final(self).wf(),
            final(self).only_tidied(old(self)),
            match r {
                Ok(Some((key, value))) => {
                    &&& !old(self).is_removed()
                    &&& is_least(old(self)@, bound@, key@)
                    &&& old(self)@[key@] == value@
                },
                Ok(None) => !old(self).is_removed() && forall|k: Seq<u8>| #[trigger]
                    old(self)@.contains_key(k) ==> !bound@.starts(k),
                Err(e) => old(self).is_removed() && e@ == ErrorView::CollectionNotFound(
                    old(self).spec_name(),
                ) && *final(self) == *old(self),
            },
    {
        let start = match bound {
            Bound::Included(key) => copy_bytes(key.as_slice()),
            Bound::Excluded(key) => copy_bytes(key.as_slice()),
            Bound::Unbounded => Vec::new(),
        };
        let path = match self.path_for_key(start.as_slice()) {
            Ok(path) => path,
            Err(e) => return Err(e),
        };
        let last: usize = path.len() - 1;
        let mut leaf = path[last].1.clone();
        let ghost s = self.shape();
        let ghost b = s.bottom();
        let ghost mut i = s.home(b, start@);
        proof {
            assert(step_ok(s, path@, start@, b));
            lemma_home(s, b, start@);
            assert forall|key: Seq<u8>| #[trigger]
                s.contents().contains_key(key) && bound@.starts(key) implies s.home(b, key) >= i by {
                lemma_empty_key_is_least(key);
                assert(start@.len() == 0 ==> start@ =~= Seq::empty());
                lemma_started(bound@, start@, key);
                lemma_home_monotonic(s, start@, key);
            }
        }
        loop
            invariant
                self.wf(),
                !self.is_removed(),
                self.only_tidied(old(self)),
                s == self.shape(),
                b == s.bottom(),
                leaf.wf(),
                s.place(b, i),
                s.node(b, i) == leaf@,
                forall|key: Seq<u8>| #[trigger]
                    s.contents().contains_key(key) && bound@.starts(key) ==> s.home(b, key) >= i,
            decreases s.levels[b].len() - i,
        {
            proof {
                assert(s.place_ok(b, i));
            }
            let (n, len) = match &leaf.data {
                Data::Leaf(items) => (
                    count_before(items, leaf.lo.as_slice(), bound),
                    items.len(),
                ),
                Data::Index(_) => (0, 0),
            };
            proof {
                lemma_first_in_leaf(s, bound@, i, n as int);
            }
            if n < len {
                return Ok(Some(copy_entry(&leaf, n)));
            }
            match leaf.next {
                Some(next) => {
                    proof {
                        i = i + 1;
                        assert(s.place_ok(b, i));
                    }
                    leaf = self.pagecache.materialized(next);
                },
                None => {
                    proof {
                        assert forall|k: Seq<u8>| #[trigger]
                            self@.contains_key(k) implies !bound@.starts(k) by {
                            lemma_home(s, b, k);
                        }
                    }
                    return Ok(None);
                },
            }
        }
    }

    /// The greatest entry in the range that ends at `bound`.
    pub(crate) fn entry_below(&mut self, bound: &Bound) -> (r: Result<
        Option<(Vec<u8>, Vec<u8>)>,
        Error,
    >)
        requires
            old(self).wf(),
        ensures
            final(self).wf(),
            final(self).only_tidied(old(self)),
            match r {
                Ok(Some((key, value))) => {
                    &&& !old(self).is_removed()
                    &&& is_greatest(old(self)@, bound@, key@)
                    &&& old(self)@[key@] == value@
                },
                Ok(None) => !old(self).is_removed() && forall|k: Seq<u8>| #[trigger]
                    old(self)@.contains_key(k) ==> !bound@.ends(k),
                Err(e) => old(self).is_removed() && e@ == ErrorView::CollectionNotFound(
                    old(self).spec_name(),
                ) && *final(self) == *old(self),
            },
    {
        let (start, rightmost) = match bound {
            Bound::Included(key) => (copy_bytes(key.as_slice()), false),
            Bound::Excluded(key) => (copy_bytes(key.as_slice()), false),
            Bound::Unbounded => (vec![255u8, 255u8, 255u8, 255u8], true),
        };
        let path = match self.path_for_key(start.as_slice()) {
            Ok(path) => path,
            Err(e) => return Err(e),
        };
        let last: usize = path.len() - 1;
        let mut leaf = path[last].1.clone();
        let ghost s = self.shape();
        let ghost b = s.bottom();
        let ghost mut i = s.home(b, start@);
        proof {
            assert(step_ok(s, path@, start@, b));
            lemma_home(s, b, start@);
        }
        if rightmost {
            leaf = self.rightmost_from(leaf, Ghost(i));
            proof {
                i = s.levels[b].len() - 1;
            }
        }
        proof {
            assert forall|key: Seq<u8>| #[trigger]
                s.contents().contains_key(key) && bound@.ends(key) implies s.home(b, key) <= i by {
                if rightmost {
                    lemma_home(s, b, key);
                } else {
                    lemma_ended(bound@, start@, key);
                    lemma_home_monotonic(s, key, start@);
                }
            }
        }
        loop
            invariant
                self.wf(),
                !self.is_removed(),
                self.only_tidied(old(self)),
                s == self.shape(),
                b == s.bottom(),
                leaf.wf(),
                s.place(b, i),
                s.node(b, i) == leaf@,
                forall|key: Seq<u8>| #[trigger]
                    s.contents().contains_key(key) && bound@.ends(key) ==> s.home(b, key) <= i,
            decreases i,
        {
            proof {
                assert(s.place_ok(b, i));
            }
            let n: usize = match &leaf.data {
                Data::Leaf(items) => count_until(items, leaf.lo.as_slice(), bound),
                Data::Index(_) => 0,
            };
            proof {
                lemma_last_in_leaf(s, bound@, i, n as int);
            }
            if n > 0 {
                return Ok(Some(copy_entry(&leaf, n - 1)));
            }
            if leaf.lo.len() == 0 {
                proof {
                    assert(i == 0) by {
                        if i > 0 {
                            assert(s.place_ok(b, i - 1));
                        }
                    }
                    assert forall|k: Seq<u8>| #[trigger] self@.contains_key(k) implies !bound@.ends(
                        k,
                    ) by {
                        lemma_home(s, b, k);
                    }
                }
                return Ok(None);
            }
            leaf = self.leaf_before(leaf.lo.as_slice(), Ghost(i));
            proof {
                i = i - 1;
            }
        }
    }
}

/// A range that starts at a key has no key before it.
proof fn lemma_started(bound: BoundView, start: Seq<u8>, key: Seq<u8>)
    requires
        bound.starts(key),
        match bound {
            BoundView::Included(k) => k == start,
            BoundView::Excluded(k) => k == start,
            BoundView::Unbounded => key_le(start, key),
        },
    ensures
        key_le(start, key),
{
    broadcast use group_key_order;

}

/// A range that ends at a key has no key after it.
proof fn lemma_ended(bound: BoundView, end: Seq<u8>, key: Seq<u8>)
    requires
        bound.ends(key),
        match bound {
            BoundView::Included(k) => k == end,
            BoundView::Excluded(k) => k == end,
            BoundView::Unbounded => key_le(key, end),
        },
    ensures
        key_le(key, end),
{
    broadcast use group_key_order;

}

impl<M> Tree<M> {
    /// The last leaf, to the right of a leaf.
    fn rightmost_from(&self, leaf: Arc<Node>, Ghost(i): Ghost<int>) -> (r: Arc<Node>)
        requires
            self.wf(),
            !self.is_removed(),
            leaf.wf(),
            self.shape().place(self.shape().bottom(), i),
            self.shape().node(self.shape().bottom(), i) == leaf@,
        ensures
            r.wf(),
            r@ == self.shape().node(
                self.shape().bottom(),
                self.shape().levels[self.shape().bottom()].len() - 1,
            ),
    {
        let ghost s = self.shape();
        let ghost b = s.bottom();
        let ghost mut i = i;
        let mut leaf = leaf;
        loop
            invariant
                self.wf(),
                !self.is_removed(),
                s == self.shape(),
                b == s.bottom(),
                leaf.wf(),
                s.place(b, i),
                s.node(b, i) == leaf@,
            decreases s.levels[b].len() - i,
        {
            proof {
                assert(s.place_ok(b, i));
            }
            match leaf.next {
                Some(next) => {
                    proof {
                        i = i + 1;
                        assert(s.place_ok(b, i));
                    }
                    leaf = self.pagecache.materialized(next);
                },
                None => return leaf,
            }
        }
    }

    /// The left sibling of the leaf that starts at `lo`.
    fn leaf_before(&self, lo: &[u8], Ghost(i): Ghost<int>) -> (r: Arc<Node>)
        requires
            self.wf(),
            !self.is_removed(),
            lo@.len() > 0,
            self.shape().place(self.shape().bottom(), i),
            self.shape().node(self.shape().bottom(), i).lo == lo@,
        ensures
            i > 0,
            r.wf(),
            r@ == self.shape().node(self.shape().bottom(), i - 1),
    {
        let ghost s = self.shape();
        let ghost b = s.bottom();
        let guess = possible_predecessor(lo);
        let mut leaf = self.find_leaf(guess.as_slice());
        let ghost mut j = s.home(b, guess@);
        proof {
            lemma_home(s, b, guess@);
            assert(s.place_ok(b, i));
            lemma_home_before(s, guess@, i);
        }
        while !is_same(leaf.hi.as_slice(), lo)
            invariant
                self.wf(),
                !self.is_removed(),
                s == self.shape(),
                b == s.bottom(),
                leaf.wf(),
                s.place(b, i),
                s.node(b, i).lo == lo@,
                0 <= j < i,
                s.node(b, j) == leaf@,
            decreases i - j,
        {
            proof {
                assert(s.place_ok(b, j));
                if j + 1 == i {
                    assert(leaf@.hi == lo@);
                }
                j = j + 1;
                assert(s.place_ok(b, j));
            }
            leaf = self.pagecache.materialized(leaf.next.unwrap());
        }
        proof {
            assert(s.place_ok(b, j));
            if j + 1 < i {
                lemma_chain_order(s, b, j + 1, i);
                lemma_not_before_itself(lo@);
            }
        }
        leaf
    }
}

/// No key comes before itself.
proof fn lemma_not_before_itself(key: Seq<u8>)
    ensures
        !key_lt(key, key),
{
    broadcast use group_key_order;

}

/// A key before a leaf is at home before it.
proof fn lemma_home_before(s: Shape, key: Seq<u8>, i: int)
    requires
        s.wf(),
        s.place(s.bottom(), i),
        key_lt(key, s.node(s.bottom(), i).lo),
    ensures
        0 <= s.home(s.bottom(), key) < i,
{
    broadcast use group_key_order;

    let b = s.bottom();
    lemma_home(s, b, key);
    let h = s.home(b, key);
    if i < h {
        lemma_chain_order(s, b, i, h);
    }
}

} // verus!
