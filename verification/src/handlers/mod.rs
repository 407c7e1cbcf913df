//! What requests are answered.

pub mod answer_laws;
pub mod batch;
pub mod create;
pub mod health;
pub mod task;

use crate::error::{ArcRunError, ErrorView};
use crate::models::{texts, StatusKind};
use vstd::prelude::*;

verus! {

/// The worker loops that a request gives work to, and that should run at once
/// instead of waiting for their interval.
#[derive(Clone, Copy, Debug, PartialEq, Eq, Structural)]
pub struct Nudges {
    /// The start loop.
    pub start: bool,
    /// The delivery loop.
    pub delivery: bool,
}

/// The body of a response.
#[derive(Debug)]
pub enum Body {
    /// No body.
    Empty,
    /// Plain text.
    Text(String),
    /// An error message, with the current status of the task where that is the
    /// reason.
    Error {
        /// The message.
        error: String,
        /// The status that the task holds.
        current_status: Option<StatusKind>,
    },
    /// An error message, with the HTTP status repeated beside it.
    Refusal {
        /// The message.
        error: String,
        /// The HTTP status.
        status: u16,
    },
    /// The error "Validation failed", with what is wrong with the request.
    Invalid {
        /// The batch that was to be created.
        batch_id: Option<u128>,
        /// What is wrong.
        details: Vec<String>,
    },
}

/// A body, viewed mathematically.
pub enum BodyText {
    Empty,
    Text(Seq<char>),
    Error(Seq<char>, Option<StatusKind>),
    Refusal(Seq<char>, u16),
    Invalid(Option<u128>, Seq<Seq<char>>),
}

impl View for Body {
    type V = BodyText;

    open spec fn view(&self) -> BodyText {
        match self {
            Body::Empty => BodyText::Empty,
            Body::Text(t) => BodyText::Text(t@),
            Body::Error { error, current_status } => BodyText::Error(error@, *current_status),
            Body::Refusal { error, status } => BodyText::Refusal(error@, *status),
            Body::Invalid { batch_id, details } => BodyText::Invalid(*batch_id, texts(details@)),
        }
    }
}

/// A response.
#[derive(Debug)]
pub struct Reply {
    /// HTTP status.
    pub status: u16,
    /// Body.
    pub body: Body,
    /// Loops to run.
    pub nudges: Nudges,
}

/// A response, viewed mathematically.
pub struct ReplyView {
    pub status: u16,
    pub body: BodyText,
    pub nudges: Nudges,
}

impl View for Reply {
    type V = ReplyView;

    open spec fn view(&self) -> ReplyView {
        ReplyView { status: self.status, body: self.body@, nudges: self.nudges }
    }
}

/// No loop has to run.
pub open spec fn no_nudges() -> Nudges {
    Nudges { start: false, delivery: false }
}

/// A response with a message and its status.
pub open spec fn refusal_answer(status: u16, m: Seq<char>) -> ReplyView {
    ReplyView { status, body: BodyText::Refusal(m, status), nudges: no_nudges() }
}

/// The response to a refused operation.
pub open spec fn error_answer(e: ErrorView) -> ReplyView {
    match e {
        ErrorView::NotFound(m) => refusal_answer(404, m),
        ErrorView::InvalidState(m) => refusal_answer(400, m),
        ErrorView::Internal(m) => refusal_answer(500, m),
    }
}

/// Answers a refused operation: its status, and its message with the status beside it.
pub fn error_reply(e: &ArcRunError) -> (r: Reply)
    ensures
        r@ == error_answer(e@),
{
    let status: u16 = e.status_code();
    Reply {
        status,
        body: Body::Refusal { error: e.message().clone(), status },
        nudges: Nudges { start: false, delivery: false },
    }
}

/// The response to a request that is not valid.
pub open spec fn invalid_answer(batch_id: Option<u128>, details: Seq<Seq<char>>) -> ReplyView {
    ReplyView { status: 400, body: BodyText::Invalid(batch_id, details), nudges: no_nudges() }
}

/// Answers a request that is not valid with all that is wrong with it.
pub fn invalid_reply(batch_id: Option<u128>, details: Vec<String>) -> (r: Reply)
    ensures
        r@ == invalid_answer(batch_id, texts(details@)),
{
    Reply {
        status: 400,
        body: Body::Invalid { batch_id, details },
        nudges: Nudges { start: false, delivery: false },
    }
}

} // verus!
