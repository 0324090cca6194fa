//! What can go wrong with a request.

use vstd::prelude::*;

verus! {

/// What went wrong.
#[derive(Debug, PartialEq, Eq)]
pub enum Error {
    /// The tree of this name has been removed.
    CollectionNotFound(Vec<u8>),
    /// The request cannot be served as the tree is set up.
    Unsupported(String),
    /// The pages of the tree are not what they should be.
    ReportableBug(String),
}

/// An error, its parts as sequences.
#[verifier::ext_equal]
pub enum ErrorView {
    CollectionNotFound(Seq<u8>),
    Unsupported(Seq<char>),
    ReportableBug(Seq<char>),
}

impl View for Error {
    type V = ErrorView;

    open spec fn view(&self) -> ErrorView {
        match self {
            Error::CollectionNotFound(name) => ErrorView::CollectionNotFound(name@),
            Error::Unsupported(message) => ErrorView::Unsupported(message@),
            Error::ReportableBug(message) => ErrorView::ReportableBug(message@),
        }
    }
}

} // verus!
