//! `lf-slots` provides data structures for distributing and managing unique slot indices.
//!
//! A slot pool holds a fixed number of slots, numbered from zero. Pulling hands
//! out a free slot and marks it taken; putting it back frees it again. A pool
//! hands out each slot at most once until it is returned, refuses handles that
//! carry another ID than its own, and tells the number of free slots at any
//! time.
//!
//! ## Storage Types
//!
//! - [`InlineSlots`]: statically sized storage, its shard layout given by its
//!   type (see [`core_api::words_per_shard`] and [`core_api::shard_count`]).
//! - [`Slots`]: dynamically sized, heap-allocated storage.
//! - [`WordPool`] and [`WordSlots`]: pools whose slots are whole words of
//!   another pool.
//!
//! Slots are kept in bitsets split into shards; a [`cache_coherence::CoherenceProvider`]
//! picks the shard at which a scan for a free slot starts.
//!
//! Every pool is given its [`ID`](core_api::ID) when it is made; handles and
//! batches carry it, and a pool takes back only what carries its own ID. Pools
//! tell each other's handles apart when they were given distinct IDs.

pub mod batched;
pub mod bits;
pub mod bitshard;
pub mod buffer;
pub mod cache_coherence;
pub mod core_api;
pub mod core_internal;
pub mod laws;
pub mod prelude;
pub mod slot_alloc;
pub mod storage;

pub use crate::batched::{WordPool, WordSlots};
pub use crate::core_internal::{Batch, BatchIter, SlotHandle};
pub use crate::slot_alloc::{BatchedSlotPool, SlotPool, SlotPoolMeta};
pub use crate::storage::{InlineSlots, Slots};
