//! Storage engine building blocks for a heap table: the durable byte format,
//! record integrity checks, placement of records in data files, staging of
//! page writes, batched reads, recovery scanning and rebuilding, and the
//! policies that decide when staged writes are committed.

pub mod append;
pub mod bucket;
pub mod confirmed;
pub mod crc32;
pub mod data;
pub mod error;
pub mod format;
pub mod heap;
pub mod index;
pub mod io;
pub mod measure;
pub mod paged;
pub mod recovery;
pub mod registry;
pub mod ring;
pub mod rng;
pub mod sort;

pub use append::AppendPlacement;
pub use bucket::BucketPlacement;
pub use error::{HeapError, Result};
pub use heap::{HeapConfig, HeapStats, SyncPolicy};
pub use io::SyncIo;
pub use recovery::RecoveryReport;
pub use rng::{RandomSource, SplitMix64};
