//! reexports common traits implemeneted by `lf-slot` types.
pub use crate::slot_alloc::{BatchedRawSlotPool, BatchedSlotPool, RawSlotPool, SlotPool, SlotPoolMeta};
