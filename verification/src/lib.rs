//! Chunk planning, naming, ordering and scheduling for splitting a file into
//! byte-range chunks and merging the chunks back into one file.
//!
//! Everything here is pure: callers perform the reads and writes and hand the
//! library plain values.

pub mod decimal;
pub mod discovery;
pub mod error;
pub mod merge;
pub mod naming;
pub mod plan;
pub mod size;
pub mod split;
pub mod wave;

pub use discovery::{chunk_order, get_chunks, merge_order};
pub use error::ChunkError;
pub use merge::{merge_bytes, MergeAction, MergeJob, MergeTask};
pub use naming::{chunk_file_name, sort_key, split_file_name, NameParts};
pub use plan::{plan, ChunkPlan, ChunkRange};
pub use size::parse_size;
pub use split::{read_range, split_bytes, ChunkTask, SplitAction, SplitJob};
pub use wave::{Phase, WaveAction, WaveSchedule};
