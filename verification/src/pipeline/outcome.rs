//! What the pipeline takes and gives. Paths are held as texts.

use crate::text;
use crate::text::owned;
use vstd::prelude::*;

verus! {

/// What was archived of a task.
#[derive(Debug, Clone, PartialEq, Eq)]
pub struct PipelineResult {
    pub output_path: String,
    pub raw_path: String,
    pub snapshot_path: Option<String>,
    pub title: Option<String>,
    pub page_kind: String,
    pub content_source: String,
    pub summary: Option<String>,
}

/// A page that was fetched.
#[derive(Debug, Clone, PartialEq, Eq)]
pub struct HttpFetchResult {
    pub html: String,
    pub final_url: String,
}

#[derive(Debug, Clone, PartialEq, Eq)]
pub enum PipelineFailureKind {
    /// The user has to give the text of the page.
    AwaitingManualInput { page_kind: String },
    Failed,
}

#[derive(Debug, Clone, PartialEq, Eq)]
pub struct PipelineTaskError {
    pub kind: PipelineFailureKind,
    pub message: String,
    pub snapshot_path: Option<String>,
    pub content_source: Option<String>,
}

/// An error as plain values. `awaiting` is the kind of the page where the user has to give
/// its text.
pub struct ErrorData {
    pub awaiting: Option<Seq<char>>,
    pub message: Seq<char>,
    pub snapshot_path: Option<Seq<char>>,
    pub content_source: Option<Seq<char>>,
}

impl View for PipelineTaskError {
    type V = ErrorData;

    open spec fn view(&self) -> ErrorData {
        ErrorData {
            awaiting: match self.kind {
                PipelineFailureKind::AwaitingManualInput { page_kind } => Some(page_kind@),
                PipelineFailureKind::Failed => None,
            },
            message: self.message@,
            snapshot_path: text::opt_text(self.snapshot_path),
            content_source: text::opt_text(self.content_source),
        }
    }
}

pub open spec fn failed_error(message: Seq<char>) -> ErrorData {
    ErrorData { awaiting: None, message, snapshot_path: None, content_source: None }
}

pub open spec fn manual_error(page_kind: Seq<char>, message: Seq<char>) -> ErrorData {
    ErrorData { awaiting: Some(page_kind), message, snapshot_path: None, content_source: None }
}

pub open spec fn browser_error(
    page_kind: Seq<char>,
    message: Seq<char>,
    snapshot_path: Option<Seq<char>>,
) -> ErrorData {
    ErrorData {
        awaiting: Some(page_kind),
        message,
        snapshot_path,
        content_source: Some("browser_capture"@),
    }
}

impl PipelineTaskError {
    pub fn failed(message: String) -> (r: Self)
        ensures
            r@ == failed_error(message@),
    {
        PipelineTaskError {
            kind: PipelineFailureKind::Failed,
            message,
            snapshot_path: None,
            content_source: None,
        }
    }

    pub fn awaiting_manual_input(page_kind: &str, message: &str) -> (r: Self)
        ensures
            r@ == manual_error(page_kind@, message@),
    {
        PipelineTaskError {
            kind: PipelineFailureKind::AwaitingManualInput { page_kind: owned(page_kind) },
            message: owned(message),
            snapshot_path: None,
            content_source: None,
        }
    }

    pub fn browser_manual_input(page_kind: &str, message: String, snapshot_path: Option<String>) -> (r:
        Self)
        ensures
            r@ == browser_error(page_kind@, message@, text::opt_text(snapshot_path)),
    {
        PipelineTaskError {
            kind: PipelineFailureKind::AwaitingManualInput { page_kind: owned(page_kind) },
            message,
            snapshot_path,
            content_source: Some(owned("browser_capture")),
        }
    }
}

} // verus!
