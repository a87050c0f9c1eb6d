//! Content-defined chunking for blockmap generation.
//!
//! A byte stream is split into variable-length chunks whose boundaries are
//! chosen by a Rabin-style rolling hash over a sliding window, subject to
//! minimum/maximum size constraints and an optional ZIP local-file-header
//! boundary hint. Each chunk carries a content digest so that unchanged
//! regions of a file can be recognized across versions.

pub mod chunker;
pub mod gf2;
pub mod laws;
pub mod rolling;
pub mod table;

pub use chunker::Chunk;
pub use chunker::Chunker;
pub use chunker::ChunkerOptions;
pub use chunker::Stats;
pub use table::Table;
pub use table::DEFAULT_WINDOW_SIZE;
