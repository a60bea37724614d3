//! Verified core of a replicated text buffer and work tree: logical clocks and
//! version vectors, two-dimensional points, line-indexed text, fragments and
//! their dense identifiers and summaries, anchors and selections, and the
//! replacements that turn one text into another.

pub mod anchor;
pub mod clock;
pub mod diff;
pub mod fragment_id;
pub mod fragment;
pub mod heap;
pub mod id;
pub mod index;
mod point;
pub mod replica_context;
pub mod summary;
pub mod text;
pub mod time;
mod utf16;

pub use crate::point::Point;
pub use crate::text::Text;

use vstd::prelude::*;

verus! {

/// Errors reported by the library.
#[derive(Clone, Debug, PartialEq, Eq, Structural)]
pub enum Error {
    InvalidOperations,
    InvalidBufferId,
    InvalidDirEntry,
    InvalidOperation,
    CursorExhausted,
    OffsetOutOfRange,
    DeserializeError,
}

} // verus!
