//! Errors the library reports to its callers.

use vstd::prelude::*;

verus! {

/// A refusal on safety grounds, or a failed local I/O operation, each with
/// an operator-facing message.
#[derive(Debug, Clone, PartialEq, Eq)]
pub enum InterspireError {
    Safety(String),
    Io(String),
}

/// An error as its kind and message.
pub enum ErrorView {
    Safety(Seq<char>),
    Io(Seq<char>),
}

impl View for InterspireError {
    type V = ErrorView;

    open spec fn view(&self) -> ErrorView {
        match self {
            InterspireError::Safety(m) => ErrorView::Safety(m@),
            InterspireError::Io(m) => ErrorView::Io(m@),
        }
    }
}

} // verus!
