//! A verified core for a small text-editor API: documents held as lines of
//! UTF-8 text, edits by byte positions, a cursor that follows the edits, a
//! registry of named commands and a registry of event subscriptions.
pub mod api;
pub mod buffer;
pub mod commands;
pub mod content;
pub mod document;
pub mod error;
pub mod events;
pub mod line_breaks;
pub mod paths;
pub mod text;
pub mod types;

pub use api::LunaApi;
pub use error::LunaError;
pub use events::{Event, EventKind};
pub use types::{
    CommandId, CommandInfo, DocumentId, DocumentInfo, Position, Range, SubscriptionId,
};
