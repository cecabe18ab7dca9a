//! Row-oriented random access over a separator-delimited byte stream.
//!
//! A [`CachedRowCursor`] wraps a [`RowSource`] and tracks both the byte offset
//! and the number of completed rows, keeping a sparse sample index of
//! (row, byte offset) pairs so that seeks by row need not rescan from the start.
pub mod rows;
pub mod source;
pub mod cursor;

pub use cursor::{CachedRowCursor, CursorError, SeekFrom};
pub use source::{MemorySource, RowSource};
