//! A verified core for a PDF keyword-summarizer service.
//!
//! The library turns extracted document text into a frequency-ranked keyword
//! summary, keeps an in-memory store of ingested documents, and drives the
//! ingest / retrieve / delete pipeline whose file and network edges live in
//! the surrounding application.

pub mod pipeline;
pub mod store;
pub mod summarize;
pub mod text;

use vstd::prelude::*;

verus! {

/// The error taxonomy of the library.
///
/// `InvalidInput` rejects a bad upload (wrong extension or empty content);
/// `NotFound` an unknown identifier or a missing blob for a known one;
/// `ExtractionFailed` a document the text extractor cannot read;
/// `StorageFailed` a filesystem write or delete that went wrong;
/// `DuplicateId` an identifier collision (an internal invariant violation).
#[derive(Clone, Copy, Debug, PartialEq, Eq, Structural)]
pub enum DocError {
    InvalidInput,
    NotFound,
    ExtractionFailed,
    StorageFailed,
    DuplicateId,
}

impl DocError {
    /// A display message for the error, as the surrounding layer shows it.
    pub fn message(&self) -> (r: &'static str)
        ensures
            self is InvalidInput ==> r@ == "Only non-empty PDF files are accepted"@,
            self is NotFound ==> r@ == "Document not found"@,
            self is ExtractionFailed ==> r@ == "Failed to extract text"@,
            self is StorageFailed ==> r@ == "Failed to store or delete file"@,
            self is DuplicateId ==> r@ == "Duplicate document identifier"@,
    {
        match self {
            DocError::InvalidInput => "Only non-empty PDF files are accepted",
            DocError::NotFound => "Document not found",
            DocError::ExtractionFailed => "Failed to extract text",
            DocError::StorageFailed => "Failed to store or delete file",
            DocError::DuplicateId => "Duplicate document identifier",
        }
    }
}

} // verus!
