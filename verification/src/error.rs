//! Unified error type for the engine layer.

use crate::text::concat;
use vstd::prelude::*;

verus! {

/// Errors returned by an engine or by loading a backend.
///
/// A `From<AsrError> for String` conversion is provided for callers that work
/// with `Result<_, String>` at their boundaries.
#[derive(Debug)]
pub enum AsrError {
    /// The model file / directory does not exist.
    ModelNotFound(String),
    /// The model exists but failed to load (invalid format, memory, etc.).
    Load(String),
    /// Inference failed.
    Transcribe(String),
    /// Backend requested but not compiled into this binary or unavailable on the
    /// machine.
    BackendUnavailable(String),
    /// Operation unsupported by this backend.
    Unsupported(String),
    /// The caller cancelled the transcription before it finished: a normal
    /// interruption, not a failure.
    Cancelled,
}

/// An [`AsrError`] with its text as a sequence of characters.
pub enum ErrorView {
    ModelNotFound(Seq<char>),
    Load(Seq<char>),
    Transcribe(Seq<char>),
    BackendUnavailable(Seq<char>),
    Unsupported(Seq<char>),
    Cancelled,
}

impl View for AsrError {
    type V = ErrorView;

    open spec fn view(&self) -> ErrorView {
        match *self {
            AsrError::ModelNotFound(m) => ErrorView::ModelNotFound(m@),
            AsrError::Load(m) => ErrorView::Load(m@),
            AsrError::Transcribe(m) => ErrorView::Transcribe(m@),
            AsrError::BackendUnavailable(m) => ErrorView::BackendUnavailable(m@),
            AsrError::Unsupported(m) => ErrorView::Unsupported(m@),
            AsrError::Cancelled => ErrorView::Cancelled,
        }
    }
}

impl ErrorView {
    /// The sentence shown for the error.
    pub open spec fn message(self) -> Seq<char> {
        match self {
            ErrorView::ModelNotFound(m) => "model not found: "@ + m,
            ErrorView::Load(m) => "model load failed: "@ + m,
            ErrorView::Transcribe(m) => "transcription failed: "@ + m,
            ErrorView::BackendUnavailable(m) => "backend unavailable: "@ + m,
            ErrorView::Unsupported(m) => "unsupported: "@ + m,
            ErrorView::Cancelled => "transcription cancelled"@,
        }
    }
}

impl AsrError {
    /// The sentence shown for the error.
    pub fn message(&self) -> (r: String)
        ensures
            r@ == self@.message(),
    {
        match self {
            AsrError::ModelNotFound(m) => concat("model not found: ", m.as_str()),
            AsrError::Load(m) => concat("model load failed: ", m.as_str()),
            AsrError::Transcribe(m) => concat("transcription failed: ", m.as_str()),
            AsrError::BackendUnavailable(m) => concat("backend unavailable: ", m.as_str()),
            AsrError::Unsupported(m) => concat("unsupported: ", m.as_str()),
            AsrError::Cancelled => "transcription cancelled".to_owned(),
        }
    }
}

impl From<AsrError> for String {
    fn from(e: AsrError) -> (r: Self)
        ensures
            r@ == e@.message(),
    {
        e.message()
    }
}

impl vstd::std_specs::convert::FromSpecImpl<AsrError> for String {
    open spec fn obeys_from_spec() -> bool {
        false
    }

    open spec fn from_spec(e: AsrError) -> String {
        arbitrary()
    }
}

} // verus!
