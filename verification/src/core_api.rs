//! Core functionality for the `lf-slots` crate
pub use crate::bitshard::{shard_count, words_per_shard};
pub use crate::core_internal::{RawBatch, RawBatchIter, Word, ID};
pub use crate::slot_alloc::{BatchedRawSlotPool, RawSlotPool};
