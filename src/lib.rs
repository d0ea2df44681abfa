//! A log-structured key-value store: append-only log files, one per
//! generation, an index from each key to its latest record, and compaction
//! that copies the live records into a fresh generation once enough of the
//! log is stale. This crate holds the store's logic, proved with Verus:
//! file naming, record framing, replay on open, the index, and the
//! decisions of `set`, `remove`, `get` and compaction. Reading and writing
//! the files is left to the caller, which hands over what it read and is
//! told what to write.


pub mod catalog;
pub mod codec;
pub mod engine;
pub mod entry;
pub mod error;
pub mod index;
pub mod laws;
pub mod order;

pub use catalog::log_path;
pub use codec::Span;
pub use engine::{Engine, GenerationLog, LoggedEntry, COMPACTION_THRESHOLD};
pub use entry::LogEntry;
pub use error::KvsError;
pub use index::CommandPos;
