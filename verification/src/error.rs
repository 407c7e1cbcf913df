//! Errors of the operations.

use vstd::prelude::*;

verus! {

/// Why an operation was refused.
#[derive(Debug)]
pub enum ArcRunError {
    /// The target does not exist.
    NotFound {
        /// What was not found.
        message: String,
    },
    /// The target is in a state that does not allow the operation.
    InvalidState {
        /// Which state, and which are allowed.
        message: String,
    },
    /// An invariant of the stored rows does not hold.
    Internal(String),
}

/// An error, viewed mathematically.
pub enum ErrorView {
    NotFound(Seq<char>),
    InvalidState(Seq<char>),
    Internal(Seq<char>),
}

impl View for ArcRunError {
    type V = ErrorView;

    open spec fn view(&self) -> ErrorView {
        match self {
            ArcRunError::NotFound { message } => ErrorView::NotFound(message@),
            ArcRunError::InvalidState { message } => ErrorView::InvalidState(message@),
            ArcRunError::Internal(message) => ErrorView::Internal(message@),
        }
    }
}

impl ArcRunError {
    /// The HTTP status that the error is answered with.
    pub open spec fn status(self) -> u16 {
        match self {
            ArcRunError::NotFound { .. } => 404,
            ArcRunError::InvalidState { .. } => 400,
            ArcRunError::Internal(_) => 500,
        }
    }

    /// The HTTP status that the error is answered with: 404 for a missing target,
    /// 400 for a refused state, 500 for a broken invariant.
    pub fn status_code(&self) -> (r: u16)
        ensures
            r == self.status(),
    {
        match self {
            ArcRunError::NotFound { .. } => 404,
            ArcRunError::InvalidState { .. } => 400,
            ArcRunError::Internal(_) => 500,
        }
    }

    /// The message to show.
    pub fn message(&self) -> (r: &String)
        ensures
            r@ == match self@ {
                ErrorView::NotFound(m) => m,
                ErrorView::InvalidState(m) => m,
                ErrorView::Internal(m) => m,
            },
    {
        match self {
            ArcRunError::NotFound { message } => message,
            ArcRunError::InvalidState { message } => message,
            ArcRunError::Internal(message) => message,
        }
    }
}

} // verus!
