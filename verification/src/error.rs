//! Errors of the library.

use vstd::prelude::*;

verus! {

/// What can go wrong.
#[derive(Debug)]
pub enum DominoError {
    /// A file could not be read.
    Io(String),
    /// A text could not be parsed.
    Parse(String),
    /// Anything else.
    Other(String),
}

/// The content of a `DominoError`.
pub enum ErrorView {
    Io(Seq<char>),
    Parse(Seq<char>),
    Other(Seq<char>),
}

impl View for DominoError {
    type V = ErrorView;

    open spec fn view(&self) -> ErrorView {
        match *self {
            DominoError::Io(m) => ErrorView::Io(m@),
            DominoError::Parse(m) => ErrorView::Parse(m@),
            DominoError::Other(m) => ErrorView::Other(m@),
        }
    }
}

/// The content of an error is its message, under its own kind.
pub proof fn error_content_is_its_message(e: DominoError)
    ensures
        match e {
            DominoError::Io(m) => e@ matches ErrorView::Io(text) && text == m@,
            DominoError::Parse(m) => e@ matches ErrorView::Parse(text) && text == m@,
            DominoError::Other(m) => e@ matches ErrorView::Other(text) && text == m@,
        },
{
}

} // verus!
