//! Calls that write, and how they are answered.

use crate::error::{Error, ErrorView};
use crate::node::{bytes_view, merges_to};
use crate::subscription::EventView;
use crate::tree::Tree;
use crate::write::{change_event, map_get};
use vstd::prelude::*;

verus! {

/// A call that writes.
#[verifier::ext_equal]
pub enum CallView {
    /// Sets a key to a value.
    Put(Seq<u8>, Seq<u8>),
    /// Takes a key out.
    Del(Seq<u8>),
    /// Swaps what is held for a key, if that is what is expected.
    Cas(Seq<u8>, Option<Seq<u8>>, Option<Seq<u8>>),
    /// Merges a value into what is held for a key.
    Merge(Seq<u8>, Seq<u8>),
}

/// What a call that writes is answered.
#[verifier::ext_equal]
pub enum AnswerView {
    /// The write has been made; this is what was held before.
    Previous(Option<Seq<u8>>),
    /// The swap has been made.
    Swapped,
    /// The swap has not been made; this is what is held.
    Refused(Option<Seq<u8>>),
    /// The merge has been made.
    Merged,
    /// Nothing has been done.
    Failed(ErrorView),
}

impl CallView {
    /// The key that is written.
    pub open spec fn key(self) -> Seq<u8> {
        match self {
            CallView::Put(key, _) => key,
            CallView::Del(key) => key,
            CallView::Cas(key, _, _) => key,
            CallView::Merge(key, _) => key,
        }
    }

    /// What watchers of the key are told, if the call is answered so in a tree that
    /// is not read-only.
    pub open spec fn event(self, answer: AnswerView) -> Option<EventView> {
        match (self, answer) {
            (CallView::Put(key, value), AnswerView::Previous(_)) => Some(
                EventView::Put(key, value),
            ),
            (CallView::Del(key), AnswerView::Previous(_)) => Some(EventView::Del(key)),
            (CallView::Cas(key, _, new), AnswerView::Swapped) => Some(change_event(key, new)),
            (CallView::Merge(key, value), AnswerView::Merged) => Some(
                EventView::Merge(key, value),
            ),
            _ => None,
        }
    }
}

/// The answer of `set` and `del`.
pub open spec fn previous_answer(r: Result<Option<Vec<u8>>, Error>) -> AnswerView {
    match r {
        Ok(previous) => AnswerView::Previous(bytes_view(previous)),
        Err(e) => AnswerView::Failed(e@),
    }
}

/// The answer of `cas`.
pub open spec fn swap_answer(r: Result<Result<(), Option<Vec<u8>>>, Error>) -> AnswerView {
    match r {
        Ok(Ok(())) => AnswerView::Swapped,
        Ok(Err(current)) => AnswerView::Refused(bytes_view(current)),
        Err(e) => AnswerView::Failed(e@),
    }
}

/// The answer of `merge`.
pub open spec fn merge_answer(r: Result<(), Error>) -> AnswerView {
    match r {
        Ok(()) => AnswerView::Merged,
        Err(e) => AnswerView::Failed(e@),
    }
}

impl<M> Tree<M> {
    /// Whether a write goes through.
    pub open(crate) spec fn is_writable(&self) -> bool {
        !self.setup().read_only && !self.is_removed()
    }
}

impl<M: Fn(&[u8], Option<&[u8]>, &[u8]) -> Option<Vec<u8>>> Tree<M> {
    /// The merge operator, called for `key` on what the tree `before` holds for it,
    /// has answered `merged`, and that is now held.
    pub open(crate) spec fn merged_in(
        &self,
        before: &Tree<M>,
        key: Seq<u8>,
        value: Seq<u8>,
        merged: Option<Seq<u8>>,
    ) -> bool {
        &&& merges_to(
            before.setup().merge_operator->0,
            key,
            map_get(before@, key),
            value,
            merged,
        )
        &&& self.wrote(before, key, merged, EventView::Merge(key, value))
    }

    /// The merge operator has answered some value, and that is now held.
    pub open(crate) spec fn merged_some(
        &self,
        before: &Tree<M>,
        key: Seq<u8>,
        value: Seq<u8>,
    ) -> bool {
        exists|merged: Option<Seq<u8>>| #[trigger] self.merged_in(before, key, value, merged)
    }

    /// Whether the tree is what `before` has become by `call`, with this answer.
    ///
    /// Where a tree is read-only, `set`, `cas` and `merge` fail and `del` does nothing;
    /// where it has been removed, all fail. Otherwise `set` and `del` make their write
    /// and tell what was held before, `cas` makes its write exactly if what is held is
    /// expected, and `merge` has the merge operator make a value of what is held.
    pub open(crate) spec fn answered(
        &self,
        before: &Tree<M>,
        call: CallView,
        answer: AnswerView,
    ) -> bool {
        let held = map_get(before@, call.key());
        if !before.is_writable() {
            &&& *self == *before
            &&& answer == if before.setup().read_only {
                match call {
                    CallView::Del(_) => AnswerView::Previous(None),
                    CallView::Cas(_, _, _) => AnswerView::Failed(
                        ErrorView::Unsupported("can not perform a cas on a read-only Tree"@),
                    ),
                    _ => AnswerView::Failed(
                        ErrorView::Unsupported("the database is in read-only mode"@),
                    ),
                }
            } else {
                AnswerView::Failed(ErrorView::CollectionNotFound(before.spec_name()))
            }
        } else {
            match call {
                CallView::Put(key, value) => {
                    &&& answer == AnswerView::Previous(held)
                    &&& self.wrote(before, key, Some(value), EventView::Put(key, value))
                },
                CallView::Del(key) => {
                    &&& answer == AnswerView::Previous(held)
                    &&& self.wrote(before, key, None, EventView::Del(key))
                },
                CallView::Cas(key, expected, new) => {
                    if held == expected {
                        &&& answer == AnswerView::Swapped
                        &&& self.wrote(before, key, new, change_event(key, new))
                    } else {
                        &&& answer == AnswerView::Refused(held)
                        &&& self.only_tidied(before)
                    }
                },
                CallView::Merge(key, value) => {
                    &&& answer == AnswerView::Merged
                    &&& self.merged_some(before, key, value)
                },
            }
        }
    }
}

} // verus!
