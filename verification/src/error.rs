//! The errors of the library.
use vstd::prelude::*;
use crate::types::{DocumentId, Position, Range};

verus! {

/// Everything that an operation of the library can fail with.
#[derive(Debug, Clone)]
pub enum LunaError {
    /// No open document has this id.
    DocumentNotFound(DocumentId),
    /// A document for this (canonical) path is open already.
    DocumentAlreadyOpen(String),
    /// The file does not exist.
    FileNotFound(String),
    /// The document has no path to be saved to.
    UnsavedDocument(DocumentId),
    /// The position is not inside the document or not at a character boundary.
    InvalidPosition { doc_id: DocumentId, position: Position, reason: String },
    /// The range is not inside the document, is reversed, or does not start
    /// and end at character boundaries.
    InvalidRange { doc_id: DocumentId, range: Range, reason: String },
    /// No command has this name.
    CommandNotFound(String),
    /// The handler of the command failed.
    CommandExecutionFailed { name: String, reason: String },
    /// Reading or writing a file failed.
    Io { path: String, reason: String },
    /// Any other failure, such as registering a command name twice.
    Internal(String),
}

} // verus!
