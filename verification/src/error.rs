//! Why a streamed reply can fail.

use vstd::prelude::*;

verus! {

/// Why a streamed reply failed. `trailing` tells the text behind the last break,
/// which is read when the stream has ended, from what came before.
#[derive(Debug)]
pub enum StreamError {
    /// The request could not be sent.
    RequestFailed,
    /// The body of an unsuccessful response could not be read, or it is no JSON:
    /// then the parser's complaint is there.
    BadErrorBody(Option<String>),
    /// The API refused the request, and this is what it says.
    Refused(String),
    /// Reading the stream failed.
    ChunkFailed,
    /// A payload does not parse.
    InvalidPayload { trailing: bool },
    /// New text could not be handed on.
    DeliveryFailed { trailing: bool },
    /// The stream ended and the model had said nothing.
    NoModelText,
}

/// A `StreamError` as characters.
pub enum Failure {
    RequestFailed,
    BadErrorBody(Option<Seq<char>>),
    Refused(Seq<char>),
    ChunkFailed,
    InvalidPayload { trailing: bool },
    DeliveryFailed { trailing: bool },
    NoModelText,
}

impl View for StreamError {
    type V = Failure;

    open spec fn view(&self) -> Failure {
        match self {
            StreamError::RequestFailed => Failure::RequestFailed,
            StreamError::BadErrorBody(None) => Failure::BadErrorBody(None),
            StreamError::BadErrorBody(Some(detail)) => Failure::BadErrorBody(Some(detail@)),
            StreamError::Refused(text) => Failure::Refused(text@),
            StreamError::ChunkFailed => Failure::ChunkFailed,
            StreamError::InvalidPayload { trailing } => Failure::InvalidPayload {
                trailing: *trailing,
            },
            StreamError::DeliveryFailed { trailing } => Failure::DeliveryFailed {
                trailing: *trailing,
            },
            StreamError::NoModelText => Failure::NoModelText,
        }
    }
}

impl Failure {
    /// What the user is told.
    pub open spec fn message(self) -> Seq<char> {
        match self {
            Failure::RequestFailed => "HTTP request failed"@,
            Failure::BadErrorBody(_) => "failed to parse API error response"@,
            Failure::Refused(text) => text,
            Failure::ChunkFailed => "failed to read stream chunk"@,
            Failure::InvalidPayload { trailing: false } => "invalid SSE JSON payload"@,
            Failure::InvalidPayload { trailing: true } => "invalid trailing SSE JSON payload"@,
            Failure::DeliveryFailed { trailing: false } => "failed to send UI delta"@,
            Failure::DeliveryFailed { trailing: true } => "failed to send trailing UI delta"@,
            Failure::NoModelText => "stream ended without model text"@,
        }
    }
}

impl StreamError {
    /// What the user is told.
    pub fn message(&self) -> (text: String)
        ensures
            text@ == self@.message(),
    {
        let text: &str = match self {
            StreamError::RequestFailed => "HTTP request failed",
            StreamError::BadErrorBody(_) => "failed to parse API error response",
            StreamError::Refused(text) => text.as_str(),
            StreamError::ChunkFailed => "failed to read stream chunk",
            StreamError::InvalidPayload { trailing } => if *trailing {
                "invalid trailing SSE JSON payload"
            } else {
                "invalid SSE JSON payload"
            },
            StreamError::DeliveryFailed { trailing } => if *trailing {
                "failed to send trailing UI delta"
            } else {
                "failed to send UI delta"
            },
            StreamError::NoModelText => "stream ended without model text",
        };
        text.to_string()
    }
}

/// An error is seen whole: the text of a refusal, and a parser's complaint.
pub proof fn law_error_is_seen_whole(text: String)
    ensures
        StreamError::Refused(text)@.message() == text@,
        StreamError::BadErrorBody(Some(text))@ == Failure::BadErrorBody(Some(text@)),
{
}

} // verus!
