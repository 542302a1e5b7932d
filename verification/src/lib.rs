//! Storage-layer primitives for a log-structured, columnar storage engine:
//! a size-budgeted delta buffer that stages sorted key/value entries before
//! they are flushed into an immutable columnar block, and a durable cursor
//! store that records log positions with optimistic concurrency control
//! against conditional-write blob storage.

pub mod columnar;
pub mod cursors;
pub mod delta;
pub mod json;
pub mod order;
pub mod sizing;
pub mod store;

pub use columnar::{ValueColumn, ValueColumnBuilder};
pub use cursors::{Cursor, CursorName, ETag, LogPosition, Witness};
pub use delta::{BlockKeyArrowBuilder, CompositeKey, KeyWrapper, StringValueStorage};
pub use sizing::SingleValueSizeTracker;
pub use store::{CursorStore, CursorStoreOptions, Error, MemoryBlobStore};
