//! Walking over the entries of a tree, in the order of their keys or against it.

use crate::entries::{leaf_search, Side};
use crate::error::{Error, ErrorView};
use crate::help::{lemma_only_tidied_further, lemma_searched_none};
use crate::key::{copy_bytes, group_key_order, is_same, key_le, key_lt};
use crate::neighbours::{
    copy_entry, is_greatest, is_least, lemma_first_in_leaf, lemma_home_monotonic,
    lemma_last_in_leaf, Bound, BoundView,
};
use crate::node::Data;
use crate::shape::lemma_home;
use crate::traverse::step_ok;
use crate::tree::Tree;
use vstd::prelude::*;

verus! {

/// Where a walk stands.
///
/// A walk over a range takes keys from both ends of it, until the ends meet. A
/// scan has two walks of its own, one from its start upwards and one from its
/// start downwards; a key at the start is met once.
#[verifier::ext_equal]
pub struct WalkView {
    /// Where the keys ahead start.
    pub lo: BoundView,
    /// Where the keys behind end.
    pub hi: BoundView,
    /// Whether the walk is a scan.
    pub is_scan: bool,
    /// Whether the walk is over.
    pub done: bool,
    /// Why the walk could not start, if it could not and has yet to tell.
    pub broken: Option<ErrorView>,
}

impl WalkView {
    /// Whether the walk has yet to come to `key`, going forward.
    pub open spec fn ahead(self, key: Seq<u8>) -> bool {
        self.lo.starts(key) && (self.is_scan || self.hi.ends(key))
    }

    /// Whether the walk has yet to come to `key`, going backward.
    pub open spec fn behind(self, key: Seq<u8>) -> bool {
        self.hi.ends(key) && (self.is_scan || self.lo.starts(key))
    }

    /// Whether `key` is the least key of `map` that is ahead.
    pub open spec fn meets(self, map: Map<Seq<u8>, Seq<u8>>, key: Seq<u8>) -> bool {
        &&& map.contains_key(key)
        &&& self.ahead(key)
        &&& forall|k: Seq<u8>| #[trigger] map.contains_key(k) && self.ahead(k) ==> key_le(key, k)
    }

    /// Whether `key` is the greatest key of `map` that is behind.
    pub open spec fn meets_back(self, map: Map<Seq<u8>, Seq<u8>>, key: Seq<u8>) -> bool {
        &&& map.contains_key(key)
        &&& self.behind(key)
        &&& forall|k: Seq<u8>| #[trigger] map.contains_key(k) && self.behind(k) ==> key_le(k, key)
    }

    /// The walk after it has gone forward to `key`.
    pub open spec fn past(self, key: Seq<u8>) -> WalkView {
        WalkView {
            lo: BoundView::Excluded(key),
            hi: if self.is_scan && self.hi == BoundView::Included(key) {
                BoundView::Excluded(key)
            } else {
                self.hi
            },
            ..self
        }
    }

    /// The walk after it has gone backward to `key`.
    pub open spec fn past_back(self, key: Seq<u8>) -> WalkView {
        WalkView {
            hi: BoundView::Excluded(key),
            lo: if self.is_scan && self.lo == BoundView::Included(key) {
                BoundView::Excluded(key)
            } else {
                self.lo
            },
            ..self
        }
    }

    /// The walk, over.
    pub open spec fn over(self) -> WalkView {
        WalkView { done: true, broken: None, ..self }
    }

    /// Whether the next step of the walk, in a tree that has been removed or not, is
    /// to tell what is wrong: once, why it could not start, or that there is no tree.
    pub open spec fn fails(self, removed: bool) -> bool {
        !self.done && (self.broken is Some || removed)
    }

    /// What is wrong, in a tree of that name.
    pub open spec fn failure(self, name: Seq<u8>) -> ErrorView {
        match self.broken {
            Some(e) => e,
            None => ErrorView::CollectionNotFound(name),
        }
    }
}

/// A walk over the entries of a tree.
pub struct Iter<'a, M> {
    /// The tree.
    pub tree: &'a mut Tree<M>,
    /// Where the keys ahead start.
    pub lo: Bound,
    /// Where the keys behind end.
    pub hi: Bound,
    /// Whether the walk is a scan.
    pub is_scan: bool,
    /// Whether the walk is over.
    pub done: bool,
    /// Why the walk could not start, if it could not and has yet to tell.
    pub broken: Option<Error>,
}

impl<'a, M> View for Iter<'a, M> {
    type V = WalkView;

    open spec fn view(&self) -> WalkView {
        WalkView {
            lo: self.lo@,
            hi: self.hi@,
            is_scan: self.is_scan,
            done: self.done,
            broken: match self.broken {
                Some(e) => Some(e@),
                None => None,
            },
        }
    }
}

/// Moves a bound past `key`, if it is at `key`.
fn step_over(bound: &mut Bound, key: &[u8])
    ensures
        final(bound)@ == if old(bound)@ == BoundView::Included(key@) {
            BoundView::Excluded(key@)
        } else {
            old(bound)@
        },
{
    let at = match bound {
        Bound::Included(start) => is_same(start.as_slice(), key),
        _ => false,
    };
    if at {
        *bound = Bound::Excluded(copy_bytes(key));
    }
}

impl<'a, M: Fn(&[u8], Option<&[u8]>, &[u8]) -> Option<Vec<u8>>> Iter<'a, M> {
    /// Goes on to the next entry ahead.
    pub fn next(&mut self) -> (r: Option<Result<(Vec<u8>, Vec<u8>), Error>>)
        requires
            old(self).tree.wf(),
        ensures
            final(self).tree.wf(),
            final(self).tree.only_tidied(old(self).tree),
            *final(final(self).tree) == *final(old(self).tree),
            old(self).done ==> r is None && final(self).done,
            !old(self).done && old(self).broken is Some ==> {
                &&& final(self).done
                &&& r matches Some(Err(e))
                &&& e == old(self).broken->0
            },
            !old(self).done && old(self).broken is None && old(self).tree.is_removed() ==> {
                &&& final(self).done
                &&& r matches Some(Err(Error::CollectionNotFound(name)))
                &&& name@ == old(self).tree.spec_name()
            },
            !old(self).done && old(self).broken is None && !old(self).tree.is_removed() ==> {
                &&& r is None ==> final(self).done
                &&& r matches Some(item) ==> {
                    &&& item is Ok
                    &&& !final(self).done
                    &&& final(self).broken is None
                    &&& final(self).is_scan == old(self).is_scan
                }
            },
            r matches Some(Ok((key, value))) ==> old(self).tree@.contains_key(key@) && old(self).tree@[key@]
                == value@,
            match r {
                Some(Ok((key, value))) => {
                    &&& !old(self)@.done
                    &&& !old(self)@.fails(old(self).tree.is_removed())
                    &&& old(self)@.meets(old(self).tree@, key@)
                    &&& old(self).tree@[key@] == value@
                    &&& final(self)@ == old(self)@.past(key@)
                },
                Some(Err(e)) => {
                    &&& old(self)@.fails(old(self).tree.is_removed())
                    &&& e@ == old(self)@.failure(old(self).tree.spec_name())
                    &&& final(self)@ == old(self)@.over()
                },
                None => {
                    &&& final(self)@ == if old(self)@.done {
                        old(self)@
                    } else {
                        old(self)@.over()
                    }
                    &&& !old(self)@.fails(old(self).tree.is_removed())
                    &&& !old(self)@.done ==> forall|k: Seq<u8>| #[trigger]
                        old(self).tree@.contains_key(k) ==> !old(self)@.ahead(k)
                },
            },
    {
        broadcast use group_key_order;

        if self.done {
            proof {
                lemma_searched_none(self.tree.shape(), Seq::empty());
            }
            return None;
        }
        if self.broken.is_some() {
            proof {
                lemma_searched_none(self.tree.shape(), Seq::empty());
            }
            self.done = true;
            return Some(Err(self.broken.take().unwrap()));
        }
        match self.tree.entry_above(&self.lo) {
            Ok(Some((key, value))) => {
                if !self.is_scan && !self.hi.is_end_of(key.as_slice()) {
                    self.done = true;
                    return None;
                }
                if self.is_scan {
                    step_over(&mut self.hi, key.as_slice());
                }
                self.lo = Bound::Excluded(copy_bytes(key.as_slice()));
                Some(Ok((key, value)))
            },
            Ok(None) => {
                self.done = true;
                None
            },
            Err(e) => {
                self.done = true;
                Some(Err(e))
            },
        }
    }

    /// Goes on to the next entry behind.
    pub fn next_back(&mut self) -> (r: Option<Result<(Vec<u8>, Vec<u8>), Error>>)
        requires
            old(self).tree.wf(),
        ensures
            final(self).tree.wf(),
            final(self).tree.only_tidied(old(self).tree),
            *final(final(self).tree) == *final(old(self).tree),
            old(self).done ==> r is None && final(self).done,
            !old(self).done && old(self).broken is Some ==> {
                &&& final(self).done
                &&& r matches Some(Err(e))
                &&& e == old(self).broken->0
            },
            !old(self).done && old(self).broken is None && old(self).tree.is_removed() ==> {
                &&& final(self).done
                &&& r matches Some(Err(Error::CollectionNotFound(name)))
                &&& name@ == old(self).tree.spec_name()
            },
            !old(self).done && old(self).broken is None && !old(self).tree.is_removed() ==> {
                &&& r is None ==> final(self).done
                &&& r matches Some(item) ==> {
                    &&& item is Ok
                    &&& !final(self).done
                    &&& final(self).broken is None
                    &&& final(self).is_scan == old(self).is_scan
                }
            },
            r matches Some(Ok((key, value))) ==> old(self).tree@.contains_key(key@) && old(self).tree@[key@]
                == value@,
            match r {
                Some(Ok((key, value))) => {
                    &&& !old(self)@.done
                    &&& !old(self)@.fails(old(self).tree.is_removed())
                    &&& old(self)@.meets_back(old(self).tree@, key@)
                    &&& old(self).tree@[key@] == value@
                    &&& final(self)@ == old(self)@.past_back(key@)
                },
                Some(Err(e)) => {
                    &&& old(self)@.fails(old(self).tree.is_removed())
                    &&& e@ == old(self)@.failure(old(self).tree.spec_name())
                    &&& final(self)@ == old(self)@.over()
                },
                None => {
                    &&& final(self)@ == if old(self)@.done {
                        old(self)@
                    } else {
                        old(self)@.over()
                    }
                    &&& !old(self)@.fails(old(self).tree.is_removed())
                    &&& !old(self)@.done ==> forall|k: Seq<u8>| #[trigger]
                        old(self).tree@.contains_key(k) ==> !old(self)@.behind(k)
                },
            },
    {
        broadcast use group_key_order;

        if self.done {
            proof {
                lemma_searched_none(self.tree.shape(), Seq::empty());
            }
            return None;
        }
        if self.broken.is_some() {
            proof {
                lemma_searched_none(self.tree.shape(), Seq::empty());
            }
            self.done = true;
            return Some(Err(self.broken.take().unwrap()));
        }
        match self.tree.entry_below(&self.hi) {
            Ok(Some((key, value))) => {
                if !self.is_scan && !self.lo.is_start_of(key.as_slice()) {
                    self.done = true;
                    return None;
                }
                if self.is_scan {
                    step_over(&mut self.lo, key.as_slice());
                }
                self.hi = Bound::Excluded(copy_bytes(key.as_slice()));
                Some(Ok((key, value)))
            },
            Ok(None) => {
                self.done = true;
                None
            },
            Err(e) => {
                self.done = true;
                Some(Err(e))
            },
        }
    }
}

impl<M: Fn(&[u8], Option<&[u8]>, &[u8]) -> Option<Vec<u8>>> Tree<M> {
    /// A walk over the entries whose keys are in a range, if it could be started: where
    /// `started` is an error, a walk whose first step tells that error.
    pub fn range_if<'a>(
        &'a mut self,
        started: Result<(), Error>,
        lo: Bound,
        hi: Bound,
    ) -> (iter: Iter<'a, M>)
        ensures
            *iter.tree == *old(self),
            *final(self) == *final(iter.tree),
            iter@ == match started {
                Ok(()) => WalkView { lo: lo@, hi: hi@, is_scan: false, done: false, broken: None },
                Err(e) => WalkView {
                    lo: BoundView::Unbounded,
                    hi: BoundView::Unbounded,
                    is_scan: false,
                    done: false,
                    broken: Some(e@),
                },
            },
            match started {
                Ok(()) => iter.lo == lo && iter.hi == hi && iter.broken is None,
                Err(e) => {
                    &&& iter.lo is Unbounded
                    &&& iter.hi is Unbounded
                    &&& iter.broken == Some(e)
                },
            },
            !iter.is_scan && !iter.done,
    {
        match started {
            Ok(()) => Iter { tree: self, lo, hi, is_scan: false, done: false, broken: None },
            Err(e) => Iter {
                tree: self,
                lo: Bound::Unbounded,
                hi: Bound::Unbounded,
                is_scan: false,
                done: false,
                broken: Some(e),
            },
        }
    }

    /// A walk over the entries whose keys are in a range.
    pub fn range<'a>(&'a mut self, lo: Bound, hi: Bound) -> (iter: Iter<'a, M>)
        ensures
            *iter.tree == *old(self),
            *final(self) == *final(iter.tree),
            iter@ == (WalkView { lo: lo@, hi: hi@, is_scan: false, done: false, broken: None }),
            iter.lo == lo && iter.hi == hi && !iter.is_scan && !iter.done && iter.broken is None,
    {
        self.range_if(Ok(()), lo, hi)
    }

    /// A walk over all entries.
    pub fn iter<'a>(&'a mut self) -> (iter: Iter<'a, M>)
        ensures
            *iter.tree == *old(self),
            *final(self) == *final(iter.tree),
            iter@ == (WalkView {
                lo: BoundView::Unbounded,
                hi: BoundView::Unbounded,
                is_scan: false,
                done: false,
                broken: None,
            }),
            iter.lo is Unbounded && iter.hi is Unbounded,
            !iter.is_scan && !iter.done && iter.broken is None,
    {
        self.range(Bound::Unbounded, Bound::Unbounded)
    }

    /// A walk that starts at `key`, if it could be started: where `started` is an error,
    /// a walk whose first step tells that error.
    pub fn scan_if<'a>(&'a mut self, started: Result<(), Error>, key: &[u8]) -> (iter: Iter<'a, M>)
        ensures
            *iter.tree == *old(self),
            *final(self) == *final(iter.tree),
            iter@ == match started {
                Ok(()) => WalkView {
                    lo: BoundView::Included(key@),
                    hi: BoundView::Included(key@),
                    is_scan: true,
                    done: false,
                    broken: None,
                },
                Err(e) => WalkView {
                    lo: BoundView::Unbounded,
                    hi: BoundView::Unbounded,
                    is_scan: true,
                    done: false,
                    broken: Some(e@),
                },
            },
            match started {
                Ok(()) => {
                    &&& iter.lo matches Bound::Included(start) && start@ == key@
                    &&& iter.hi matches Bound::Included(start) && start@ == key@
                    &&& iter.broken is None
                },
                Err(e) => {
                    &&& iter.lo is Unbounded
                    &&& iter.hi is Unbounded
                    &&& iter.broken == Some(e)
                },
            },
            iter.is_scan && !iter.done,
    {
        let lo = Bound::Included(copy_bytes(key));
        let hi = Bound::Included(copy_bytes(key));
        let mut iter = self.range_if(started, lo, hi);
        iter.is_scan = true;
        iter
    }

    /// A walk that starts at `key`: forward to the keys after it, backward to the
    /// keys before it.
    pub fn scan<'a>(&'a mut self, key: &[u8]) -> (iter: Iter<'a, M>)
        ensures
            *iter.tree == *old(self),
            *final(self) == *final(iter.tree),
            iter@ == (WalkView {
                lo: BoundView::Included(key@),
                hi: BoundView::Included(key@),
                is_scan: true,
                done: false,
                broken: None,
            }),
            iter.lo matches Bound::Included(start) && start@ == key@,
            iter.hi matches Bound::Included(start) && start@ == key@,
            iter.is_scan && !iter.done && iter.broken is None,
    {
        self.scan_if(Ok(()), key)
    }
}

/// A walk over the keys of a tree.
pub struct Keys<'a, M> {
    /// The walk over the entries.
    pub iter: Iter<'a, M>,
}

/// A walk over the values of a tree, in the order of their keys.
pub struct Values<'a, M> {
    /// The walk over the entries.
    pub iter: Iter<'a, M>,
}

impl<'a, M: Fn(&[u8], Option<&[u8]>, &[u8]) -> Option<Vec<u8>>> Iter<'a, M> {
    /// The same walk, over the keys.
    pub fn keys(self) -> (keys: Keys<'a, M>)
        ensures
            keys.iter == self,
    {
        Keys { iter: self }
    }

    /// The same walk, over the values.
    pub fn values(self) -> (values: Values<'a, M>)
        ensures
            values.iter == self,
    {
        Values { iter: self }
    }
}

impl<'a, M: Fn(&[u8], Option<&[u8]>, &[u8]) -> Option<Vec<u8>>> Keys<'a, M> {
    /// Goes on to the next key ahead.
    pub fn next(&mut self) -> (r: Option<Result<Vec<u8>, Error>>)
        requires
            old(self).iter.tree.wf(),
        ensures
            final(self).iter.tree.wf(),
            final(self).iter.tree.only_tidied(old(self).iter.tree),
            *final(final(self).iter.tree) == *final(old(self).iter.tree),
            old(self).iter.done ==> r is None && final(self).iter.done,
            !old(self).iter.done && old(self).iter.broken is Some ==> {
                &&& final(self).iter.done
                &&& r matches Some(Err(e))
                &&& e == old(self).iter.broken->0
            },
            !old(self).iter.done && old(self).iter.broken is None && old(self).iter.tree.is_removed() ==> {
                &&& final(self).iter.done
                &&& r matches Some(Err(Error::CollectionNotFound(name)))
                &&& name@ == old(self).iter.tree.spec_name()
            },
            !old(self).iter.done && old(self).iter.broken is None && !old(self).iter.tree.is_removed() ==> {
                &&& r is None ==> final(self).iter.done
                &&& r matches Some(item) ==> {
                    &&& item is Ok
                    &&& !final(self).iter.done
                    &&& final(self).iter.broken is None
                    &&& final(self).iter.is_scan == old(self).iter.is_scan
                }
            },
            r matches Some(Ok(key)) ==> old(self).iter.tree@.contains_key(key@),
            match r {
                Some(Ok(key)) => {
                    &&& !old(self).iter@.done
                    &&& !old(self).iter@.fails(old(self).iter.tree.is_removed())
                    &&& old(self).iter@.meets(old(self).iter.tree@, key@)
                    &&& final(self).iter@ == old(self).iter@.past(key@)
                },
                Some(Err(e)) => {
                    &&& old(self).iter@.fails(old(self).iter.tree.is_removed())
                    &&& e@ == old(self).iter@.failure(old(self).iter.tree.spec_name())
                    &&& final(self).iter@ == old(self).iter@.over()
                },
                None => {
                    &&& final(self).iter@ == if old(self).iter@.done {
                        old(self).iter@
                    } else {
                        old(self).iter@.over()
                    }
                    &&& !old(self).iter@.fails(old(self).iter.tree.is_removed())
                    &&& !old(self).iter@.done ==> forall|k: Seq<u8>| #[trigger]
                        old(self).iter.tree@.contains_key(k) ==> !old(self).iter@.ahead(k)
                },
            },
    {
        match self.iter.next() {
            Some(Ok((key, _))) => Some(Ok(key)),
            Some(Err(e)) => Some(Err(e)),
            None => None,
        }
    }

    /// Goes on to the next key behind.
    pub fn next_back(&mut self) -> (r: Option<Result<Vec<u8>, Error>>)
        requires
            old(self).iter.tree.wf(),
        ensures
            final(self).iter.tree.wf(),
            final(self).iter.tree.only_tidied(old(self).iter.tree),
            *final(final(self).iter.tree) == *final(old(self).iter.tree),
            old(self).iter.done ==> r is None && final(self).iter.done,
            !old(self).iter.done && old(self).iter.broken is Some ==> {
                &&& final(self).iter.done
                &&& r matches Some(Err(e))
                &&& e == old(self).iter.broken->0
            },
            !old(self).iter.done && old(self).iter.broken is None && old(self).iter.tree.is_removed() ==> {
                &&& final(self).iter.done
                &&& r matches Some(Err(Error::CollectionNotFound(name)))
                &&& name@ == old(self).iter.tree.spec_name()
            },
            !old(self).iter.done && old(self).iter.broken is None && !old(self).iter.tree.is_removed() ==> {
                &&& r is None ==> final(self).iter.done
                &&& r matches Some(item) ==> {
                    &&& item is Ok
                    &&& !final(self).iter.done
                    &&& final(self).iter.broken is None
                    &&& final(self).iter.is_scan == old(self).iter.is_scan
                }
            },
            r matches Some(Ok(key)) ==> old(self).iter.tree@.contains_key(key@),
            match r {
                Some(Ok(key)) => {
                    &&& !old(self).iter@.done
                    &&& !old(self).iter@.fails(old(self).iter.tree.is_removed())
                    &&& old(self).iter@.meets_back(old(self).iter.tree@, key@)
                    &&& final(self).iter@ == old(self).iter@.past_back(key@)
                },
                Some(Err(e)) => {
                    &&& old(self).iter@.fails(old(self).iter.tree.is_removed())
                    &&& e@ == old(self).iter@.failure(old(self).iter.tree.spec_name())
                    &&& final(self).iter@ == old(self).iter@.over()
                },
                None => {
                    &&& final(self).iter@ == if old(self).iter@.done {
                        old(self).iter@
                    } else {
                        old(self).iter@.over()
                    }
                    &&& !old(self).iter@.fails(old(self).iter.tree.is_removed())
                    &&& !old(self).iter@.done ==> forall|k: Seq<u8>| #[trigger]
                        old(self).iter.tree@.contains_key(k) ==> !old(self).iter@.behind(k)
                },
            },
    {
        match self.iter.next_back() {
            Some(Ok((key, _))) => Some(Ok(key)),
            Some(Err(e)) => Some(Err(e)),
            None => None,
        }
    }
}

impl<'a, M: Fn(&[u8], Option<&[u8]>, &[u8]) -> Option<Vec<u8>>> Values<'a, M> {
    /// Goes on to the value of the next key ahead.
    pub fn next(&mut self) -> (r: Option<Result<Vec<u8>, Error>>)
        requires
            old(self).iter.tree.wf(),
        ensures
            final(self).iter.tree.wf(),
            final(self).iter.tree.only_tidied(old(self).iter.tree),
            *final(final(self).iter.tree) == *final(old(self).iter.tree),
            old(self).iter.done ==> r is None && final(self).iter.done,
            !old(self).iter.done && old(self).iter.broken is Some ==> {
                &&& final(self).iter.done
                &&& r matches Some(Err(e))
                &&& e == old(self).iter.broken->0
            },
            !old(self).iter.done && old(self).iter.broken is None && old(self).iter.tree.is_removed() ==> {
                &&& final(self).iter.done
                &&& r matches Some(Err(Error::CollectionNotFound(name)))
                &&& name@ == old(self).iter.tree.spec_name()
            },
            !old(self).iter.done && old(self).iter.broken is None && !old(self).iter.tree.is_removed() ==> {
                &&& r is None ==> final(self).iter.done
                &&& r matches Some(item) ==> {
                    &&& item is Ok
                    &&& !final(self).iter.done
                    &&& final(self).iter.broken is None
                    &&& final(self).iter.is_scan == old(self).iter.is_scan
                }
            },
            r matches Some(Ok(value)) ==> old(self).iter.tree@.contains_value(value@),
            match r {
                Some(Ok(value)) => {
                    &&& !old(self).iter@.done
                    &&& !old(self).iter@.fails(old(self).iter.tree.is_removed())
                    &&& exists|key: Seq<u8>|
                        {
                            &&& #[trigger] old(self).iter@.meets(old(self).iter.tree@, key)
                            &&& old(self).iter.tree@[key] == value@
                            &&& final(self).iter@ == old(self).iter@.past(key)
                        }
                },
                Some(Err(e)) => {
                    &&& old(self).iter@.fails(old(self).iter.tree.is_removed())
                    &&& e@ == old(self).iter@.failure(old(self).iter.tree.spec_name())
                    &&& final(self).iter@ == old(self).iter@.over()
                },
                None => {
                    &&& final(self).iter@ == if old(self).iter@.done {
                        old(self).iter@
                    } else {
                        old(self).iter@.over()
                    }
                    &&& !old(self).iter@.fails(old(self).iter.tree.is_removed())
                    &&& !old(self).iter@.done ==> forall|k: Seq<u8>| #[trigger]
                        old(self).iter.tree@.contains_key(k) ==> !old(self).iter@.ahead(k)
                },
            },
    {
        match self.iter.next() {
            Some(Ok((_, value))) => Some(Ok(value)),
            Some(Err(e)) => Some(Err(e)),
            None => None,
        }
    }

    /// Goes on to the value of the next key behind.
    pub fn next_back(&mut self) -> (r: Option<Result<Vec<u8>, Error>>)
        requires
            old(self).iter.tree.wf(),
        ensures
            final(self).iter.tree.wf(),
            final(self).iter.tree.only_tidied(old(self).iter.tree),
            *final(final(self).iter.tree) == *final(old(self).iter.tree),
            old(self).iter.done ==> r is None && final(self).iter.done,
            !old(self).iter.done && old(self).iter.broken is Some ==> {
                &&& final(self).iter.done
                &&& r matches Some(Err(e))
                &&& e == old(self).iter.broken->0
            },
            !old(self).iter.done && old(self).iter.broken is None && old(self).iter.tree.is_removed() ==> {
                &&& final(self).iter.done
                &&& r matches Some(Err(Error::CollectionNotFound(name)))
                &&& name@ == old(self).iter.tree.spec_name()
            },
            !old(self).iter.done && old(self).iter.broken is None && !old(self).iter.tree.is_removed() ==> {
                &&& r is None ==> final(self).iter.done
                &&& r matches Some(item) ==> {
                    &&& item is Ok
                    &&& !final(self).iter.done
                    &&& final(self).iter.broken is None
                    &&& final(self).iter.is_scan == old(self).iter.is_scan
                }
            },
            r matches Some(Ok(value)) ==> old(self).iter.tree@.contains_value(value@),
            match r {
                Some(Ok(value)) => {
                    &&& !old(self).iter@.done
                    &&& !old(self).iter@.fails(old(self).iter.tree.is_removed())
                    &&& exists|key: Seq<u8>|
                        {
                            &&& #[trigger] old(self).iter@.meets_back(old(self).iter.tree@, key)
                            &&& old(self).iter.tree@[key] == value@
                            &&& final(self).iter@ == old(self).iter@.past_back(key)
                        }
                },
                Some(Err(e)) => {
                    &&& old(self).iter@.fails(old(self).iter.tree.is_removed())
                    &&& e@ == old(self).iter@.failure(old(self).iter.tree.spec_name())
                    &&& final(self).iter@ == old(self).iter@.over()
                },
                None => {
                    &&& final(self).iter@ == if old(self).iter@.done {
                        old(self).iter@
                    } else {
                        old(self).iter@.over()
                    }
                    &&& !old(self).iter@.fails(old(self).iter.tree.is_removed())
                    &&& !old(self).iter@.done ==> forall|k: Seq<u8>| #[trigger]
                        old(self).iter.tree@.contains_key(k) ==> !old(self).iter@.behind(k)
                },
            },
    {
        match self.iter.next_back() {
            Some(Ok((_, value))) => Some(Ok(value)),
            Some(Err(e)) => Some(Err(e)),
            None => None,
        }
    }
}

impl<M: Fn(&[u8], Option<&[u8]>, &[u8]) -> Option<Vec<u8>>> Tree<M> {
    /// A walk over keys that starts at `key`.
    pub fn keys<'a>(&'a mut self, key: &[u8]) -> (keys: Keys<'a, M>)
        ensures
            *keys.iter.tree == *old(self),
            *final(self) == *final(keys.iter.tree),
            keys.iter@ == (WalkView {
                lo: BoundView::Included(key@),
                hi: BoundView::Included(key@),
                is_scan: true,
                done: false,
                broken: None,
            }),
            keys.iter.lo matches Bound::Included(start) && start@ == key@,
            keys.iter.hi matches Bound::Included(start) && start@ == key@,
            keys.iter.is_scan && !keys.iter.done && keys.iter.broken is None,
    {
        self.scan(key).keys()
    }

    /// A walk over values that starts at the value of `key`.
    pub fn values<'a>(&'a mut self, key: &[u8]) -> (values: Values<'a, M>)
        ensures
            *values.iter.tree == *old(self),
            *final(self) == *final(values.iter.tree),
            values.iter@ == (WalkView {
                lo: BoundView::Included(key@),
                hi: BoundView::Included(key@),
                is_scan: true,
                done: false,
                broken: None,
            }),
            values.iter.lo matches Bound::Included(start) && start@ == key@,
            values.iter.hi matches Bound::Included(start) && start@ == key@,
            values.iter.is_scan && !values.iter.done && values.iter.broken is None,
    {
        self.scan(key).values()
    }

    /// The entry with the greatest key before `key`, if there is one.
    pub fn get_lt(&mut self, key: &[u8]) -> (r: Result<Option<(Vec<u8>, Vec<u8>)>, Error>)
        requires
            old(self).wf(),
        ensures
            final(self).wf(),
            final(self).only_tidied(old(self)),
            match r {
                Ok(Some((k, value))) => {
                    &&& !old(self).is_removed()
                    &&& is_greatest(old(self)@, BoundView::Excluded(key@), k@)
                    &&& old(self)@[k@] == value@
                },
                Ok(None) => !old(self).is_removed() && forall|k: Seq<u8>| #[trigger]
                    old(self)@.contains_key(k) ==> key_le(key@, k),
                Err(e) => old(self).is_removed() && e@ == ErrorView::CollectionNotFound(
                    old(self).spec_name(),
                ),
            },
            match r {
                Ok(Some((k, value))) => {
                    &&& old(self)@.contains_key(k@) && old(self)@[k@] == value@
                    &&& key_lt(k@, key@)
                    &&& forall|other: Seq<u8>| #[trigger]
                        old(self)@.contains_key(other) && key_lt(other, key@) ==> other == k@
                            || key_lt(other, k@)
                },
                Ok(None) => forall|k: Seq<u8>| #[trigger]
                    old(self)@.contains_key(k) ==> !key_lt(k, key@),
                Err(e) => e matches Error::CollectionNotFound(name) && name@ == old(
                    self,
                ).spec_name(),
            },
    {
        broadcast use group_key_order;

        let path = match self.path_for_key(key) {
            Ok(path) => path,
            Err(e) => return Err(e),
        };
        let last: usize = path.len() - 1;
        let leaf = path[last].1.clone();
        let ghost s = self.shape();
        let ghost b = s.bottom();
        let ghost h = s.home(b, key@);
        proof {
            assert(step_ok(s, path@, key@, b));
            lemma_home(s, b, key@);
            assert(s.place_ok(b, h));
        }
        let found = match &leaf.data {
            Data::Leaf(items) => leaf_search(Side::Less, items, leaf.lo.as_slice(), key),
            Data::Index(_) => None,
        };
        if let Some(at) = found {
            proof {
                assert forall|k: Seq<u8>| #[trigger]
                    s.contents().contains_key(k) && BoundView::Excluded(key@).ends(k) implies s.home(
                    b,
                    k,
                ) <= h by {
                    lemma_key_lt_le(k, key@);
                    lemma_home_monotonic(s, k, key@);
                }
                lemma_last_in_leaf(s, BoundView::Excluded(key@), h, at + 1);
            }
            return Ok(Some(copy_entry(&leaf, at)));
        }
        let ghost mid = *self;
        let mut iter = self.range(Bound::Unbounded, Bound::Excluded(copy_bytes(key)));
        let entry = iter.next_back();
        proof {
            lemma_only_tidied_further(old(self), &mid, iter.tree);
        }
        match entry {
            Some(Err(e)) => Err(e),
            Some(Ok(entry)) => Ok(Some(entry)),
            None => Ok(None),
        }
    }

    /// The entry with the least key after `key`, if there is one.
    pub fn get_gt(&mut self, key: &[u8]) -> (r: Result<Option<(Vec<u8>, Vec<u8>)>, Error>)
        requires
            old(self).wf(),
        ensures
            final(self).wf(),
            final(self).only_tidied(old(self)),
            match r {
                Ok(Some((k, value))) => {
                    &&& !old(self).is_removed()
                    &&& is_least(old(self)@, BoundView::Excluded(key@), k@)
                    &&& old(self)@[k@] == value@
                },
                Ok(None) => !old(self).is_removed() && forall|k: Seq<u8>| #[trigger]
                    old(self)@.contains_key(k) ==> key_le(k, key@),
                Err(e) => old(self).is_removed() && e@ == ErrorView::CollectionNotFound(
                    old(self).spec_name(),
                ),
            },
            match r {
                Ok(Some((k, value))) => {
                    &&& old(self)@.contains_key(k@) && old(self)@[k@] == value@
                    &&& key_lt(key@, k@)
                    &&& forall|other: Seq<u8>| #[trigger]
                        old(self)@.contains_key(other) && key_lt(key@, other) ==> other == k@
                            || key_lt(k@, other)
                },
                Ok(None) => forall|k: Seq<u8>| #[trigger]
                    old(self)@.contains_key(k) ==> !key_lt(key@, k),
                Err(e) => e matches Error::CollectionNotFound(name) && name@ == old(
                    self,
                ).spec_name(),
            },
    {
        broadcast use group_key_order;

        let path = match self.path_for_key(key) {
            Ok(path) => path,
            Err(e) => return Err(e),
        };
        let last: usize = path.len() - 1;
        let leaf = path[last].1.clone();
        let ghost s = self.shape();
        let ghost b = s.bottom();
        let ghost h = s.home(b, key@);
        proof {
            assert(step_ok(s, path@, key@, b));
            lemma_home(s, b, key@);
            assert(s.place_ok(b, h));
        }
        let found = match &leaf.data {
            Data::Leaf(items) => leaf_search(Side::Greater, items, leaf.lo.as_slice(), key),
            Data::Index(_) => None,
        };
        if let Some(at) = found {
            proof {
                assert forall|k: Seq<u8>| #[trigger]
                    s.contents().contains_key(k) && BoundView::Excluded(key@).starts(
                    k,
                ) implies s.home(b, k) >= h by {
                    lemma_key_lt_le(key@, k);
                    lemma_home_monotonic(s, key@, k);
                }
                lemma_first_in_leaf(s, BoundView::Excluded(key@), h, at as int);
            }
            return Ok(Some(copy_entry(&leaf, at)));
        }
        let ghost mid = *self;
        let mut iter = self.range(Bound::Excluded(copy_bytes(key)), Bound::Unbounded);
        let entry = iter.next();
        proof {
            lemma_only_tidied_further(old(self), &mid, iter.tree);
        }
        match entry {
            Some(Err(e)) => Err(e),
            Some(Ok(entry)) => Ok(Some(entry)),
            None => Ok(None),
        }
    }

    /// Tells whether the tree has no entries.
    pub fn is_empty(&mut self) -> (r: bool)
        requires
            old(self).wf(),
        ensures
            final(self).wf(),
            final(self).only_tidied(old(self)),
            r == (!old(self).is_removed() && old(self)@ == Map::<Seq<u8>, Seq<u8>>::empty()),
    {
        let ghost map = self@;
        let mut iter = self.iter();
        let r = iter.next().is_none();
        proof {
            if r {
                assert(map =~= Map::<Seq<u8>, Seq<u8>>::empty());
            }
        }
        r
    }
}

/// A key that comes before another does not come after it.
proof fn lemma_key_lt_le(a: Seq<u8>, b: Seq<u8>)
    requires
        key_lt(a, b),
    ensures
        key_le(a, b),
{
    broadcast use group_key_order;

}

} // verus!
