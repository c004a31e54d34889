use std::collections::{HashSet, VecDeque};
use std::sync::atomic::{AtomicUsize, Ordering};

use lf_slots::cache_coherence::NoCoherence;
use lf_slots::core_api::{shard_count, words_per_shard, BatchedRawSlotPool, RawSlotPool, ID};
use lf_slots::{Batch, BatchedSlotPool, InlineSlots, SlotPool, SlotPoolMeta, Slots};

type Storage2 = InlineSlots<2, 1, 1>;
type Storage10 = InlineSlots<10, 1, 1>;
type Storage42 = InlineSlots<42, 1, 1>;
type Storage2000 = InlineSlots<2000, 8, 4>;

const THREADS: usize = 4;
const COUNT: usize = 25_000;

fn id(n: u64) -> ID {
    ID::from_raw(n)
}

fn smoke<S: SlotPool>(mut storage: S) {
    let i0 = storage.pull().unwrap();
    let i1 = storage.pull().unwrap();
    assert_ne!(i0, i1);

    let i0_v = i0.as_usize();
    assert!(storage.put(i0).is_ok());
    let i2 = storage.pull().unwrap();
    assert_eq!(i0_v, i2.as_usize());
}

fn smoke_long<S: SlotPool>(mut storage: S) {
    assert_eq!(storage.capacity(), 10);

    assert!(storage.is_full());
    for _ in 0..10 {
        assert!(storage.pull().is_some());
    }
    assert!(storage.is_empty());
    assert_eq!(storage.len(), 0);

    assert!(storage.put_raw(5));
    assert!(!storage.is_empty());

    assert_eq!(storage.len(), 1);

    assert_eq!(storage.pull().map(|item| item.as_usize()), Some(5));

    for i in 0..10 {
        assert!(storage.put_raw(i));
    }

    assert!(storage.is_full());
    assert_eq!(storage.len(), 10);

    assert_eq!(storage.pull().map(|item| item.as_usize()), Some(0));
}

fn len_empty_full<S: SlotPool>(mut storage: S) {
    assert_eq!(storage.capacity(), 2);
    assert_eq!(storage.len(), 2);
    assert!(storage.is_full());
    assert!(!storage.is_empty());

    let i0 = storage.pull().unwrap();
    assert_eq!(storage.len(), 1);
    assert!(!storage.is_full());
    assert!(!storage.is_empty());

    let i1 = storage.pull().unwrap();
    assert_eq!(storage.len(), 0);
    assert!(!storage.is_full());
    assert!(storage.is_empty());

    assert!(storage.put(i0).is_ok());
    assert_eq!(storage.len(), 1);
    assert!(!storage.is_full());
    assert!(!storage.is_empty());

    assert!(storage.put(i1).is_ok());
    assert_eq!(storage.len(), 2);
    assert!(storage.is_full());
    assert!(!storage.is_empty());
}

// The workers of the multi-party scenarios below take turns, one step each in
// round robin order, so that many of them hold slots at the same time.

fn batch_slots(batch: &Batch) -> Vec<usize> {
    raw_slots(batch.raw())
}

fn raw_slots(raw: &lf_slots::core_api::RawBatch) -> Vec<usize> {
    let mut out = Vec::new();
    let mut it = raw.into_iter();
    while let Some(slot) = it.next() {
        out.push(slot);
    }
    out
}

/// One producer pulls slots and sends them; one consumer receives and returns them.
fn spsc<S: SlotPool>(mut storage: S) {
    let mut channel = VecDeque::new();
    let mut produced = 0;
    let mut consumed = 0;
    while consumed < COUNT {
        // The producer is faster than the consumer and runs ahead.
        for _ in 0..3 {
            if produced < COUNT {
                if let Some(idx) = storage.pull() {
                    channel.push_back(idx);
                    produced += 1;
                }
            }
        }
        if let Some(idx) = channel.pop_front() {
            assert!(storage.put(idx).is_ok());
            consumed += 1;
        }
    }
    assert!(storage.is_full());
}

/// `THREADS` producers pull slots and send them to one consumer, which returns them.
fn mpsc<S: SlotPool>(mut storage: S) {
    let mut channel = VecDeque::new();
    let mut produced = [0usize; THREADS];
    let mut consumed = 0;
    while consumed < THREADS * COUNT {
        for p in 0..THREADS {
            if produced[p] < COUNT {
                if let Some(idx) = storage.pull() {
                    channel.push_back(idx);
                    produced[p] += 1;
                }
            }
        }
        for _ in 0..2 {
            if let Some(idx) = channel.pop_front() {
                assert!(storage.put(idx).is_ok());
                consumed += 1;
            }
        }
    }
    assert!(storage.is_full());
}

/// `THREADS` workers each pull a slot, mark it as theirs, check the mark and
/// return it, `COUNT` times.
fn mpmc<S: SlotPool>(mut storage: S) {
    let capacity = storage.capacity();
    let tracker: Vec<AtomicUsize> = (0..capacity).map(|_| AtomicUsize::new(0)).collect();
    let mut held: Vec<Option<lf_slots::SlotHandle>> = (0..THREADS).map(|_| None).collect();
    let mut done = [0usize; THREADS];
    while done.iter().any(|&d| d < COUNT) {
        for thread_id in 0..THREADS {
            let owner_marker = thread_id + 1;
            match held[thread_id].take() {
                None => {
                    if done[thread_id] < COUNT {
                        if let Some(idx) = storage.pull() {
                            let old_owner = tracker[idx.as_usize()].swap(owner_marker, Ordering::AcqRel);
                            assert_eq!(old_owner, 0, "Race condition detected! Multiple threads acquired slot {}", idx.as_usize());
                            held[thread_id] = Some(idx);
                        }
                    }
                }
                Some(idx) => {
                    let current_owner = tracker[idx.as_usize()].load(Ordering::Acquire);
                    assert_eq!(current_owner, owner_marker, "Slot {} was hijacked by another thread!", idx.as_usize());
                    tracker[idx.as_usize()].store(0, Ordering::Release);
                    assert!(storage.put(idx).is_ok());
                    done[thread_id] += 1;
                }
            }
        }
    }
    assert!(storage.is_full());
}

/// As many workers as the pool has slots each pull and return a slot; every
/// pull succeeds.
fn linearizable<S: SlotPool>(mut storage: S) {
    let capacity = storage.capacity();
    for _ in 0..COUNT {
        let mut held = Vec::new();
        for _ in 0..capacity {
            held.push(storage.pull().unwrap());
        }
        for idx in held {
            assert!(storage.put(idx).is_ok());
        }
    }
}

fn batch_smoke<S: BatchedSlotPool>(mut storage: S) {
    let cap = storage.capacity();
    assert!(storage.is_full());

    let batch = storage.pull_batch().expect("Storage should not be empty");
    let batch_count = batch.count();
    assert!(batch_count > 0 && batch_count <= 64);
    assert_eq!(storage.len(), cap - batch_count);
    assert!(!storage.is_full());

    // Put safe batch back
    assert!(storage.put_batch(batch).is_ok());
    assert_eq!(storage.len(), cap);
    assert!(storage.is_full());

    // 2. Pull raw batch
    let raw_batch = storage.pull_raw_batch().expect("Storage should not be empty");
    assert_eq!(storage.len(), cap - raw_batch.count());

    assert!(storage.put_raw_batch(raw_batch));
    assert_eq!(storage.len(), cap);

    let batch = storage.pull_batch().unwrap();

    let c = batch.count();
    let (l, r) = batch.split_at(c + 1);
    assert!(r.is_none());
    assert_eq!(l.count(), c);

    let (l, r) = l.split_at(0);
    assert_eq!(l.count(), 0);
    let r = r.unwrap();
    assert_eq!(r.count(), c);

    let (l, r) = r.split_at(c / 2);
    let r = r.unwrap();
    assert_eq!(l.count() + r.count(), c);

    assert!(storage.put_batch(r).is_ok());
    assert_eq!(storage.len(), cap - l.count());
    assert!(storage.put_batch(l).is_ok());

    assert!(storage.is_full());
}

/// One producer pulls batches and sends them; one consumer returns them.
fn batch_spsc<S: BatchedSlotPool>(mut storage: S) {
    let mut channel: VecDeque<Batch> = VecDeque::new();
    let mut produced = 0;
    let mut consumed = 0;
    while consumed < COUNT {
        for _ in 0..3 {
            if produced < COUNT {
                if let Some(b) = storage.pull_batch() {
                    produced += b.count();
                    channel.push_back(b);
                }
            }
        }
        if let Some(batch) = channel.pop_front() {
            consumed += batch.count();
            assert!(storage.put_batch(batch).is_ok());
        }
    }
    while let Some(batch) = channel.pop_front() {
        assert!(storage.put_batch(batch).is_ok());
    }
    assert!(storage.is_full());
}

/// `THREADS` workers each pull a batch, mark its slots, check the marks and
/// return it, until each has processed `COUNT` slots.
fn batch_mpmc<S: BatchedSlotPool>(mut storage: S) {
    let capacity = storage.capacity();
    let tracker: Vec<AtomicUsize> = (0..capacity).map(|_| AtomicUsize::new(0)).collect();
    let mut held: Vec<Option<Batch>> = (0..THREADS).map(|_| None).collect();
    let mut processed = [0usize; THREADS];
    while processed.iter().any(|&p| p < COUNT) {
        for thread_id in 0..THREADS {
            let owner_marker = thread_id + 1;
            match held[thread_id].take() {
                None => {
                    if processed[thread_id] < COUNT {
                        if let Some(batch) = storage.pull_batch() {
                            for slot in batch_slots(&batch) {
                                let old_owner = tracker[slot].swap(owner_marker, Ordering::AcqRel);
                                assert_eq!(old_owner, 0, "Race condition! Slot {} in batch was claimed by thread {}", slot, old_owner);
                            }
                            held[thread_id] = Some(batch);
                        }
                    }
                }
                Some(batch) => {
                    let batch_len = batch.count();
                    for slot in batch_slots(&batch) {
                        let current_owner = tracker[slot].load(Ordering::Acquire);
                        assert_eq!(current_owner, owner_marker, "Slot {} in batch was hijacked by thread {}!", slot, current_owner);
                        tracker[slot].store(0, Ordering::Release);
                    }
                    assert!(storage.put_batch(batch).is_ok());
                    processed[thread_id] += batch_len;
                }
            }
        }
    }
    assert!(storage.is_full());
}

/// What a worker of `mixed_mpmc` holds between its two steps.
enum Held {
    Single(lf_slots::SlotHandle),
    Batched(Batch),
    Raw(lf_slots::core_api::RawBatch),
}

fn held_slots(h: &Held) -> Vec<usize> {
    match h {
        Held::Single(handle) => vec![handle.as_usize()],
        Held::Batched(b) => batch_slots(b),
        Held::Raw(r) => raw_slots(r),
    }
}

/// Workers interleave all allocation paths: single pulls, batch pulls and raw
/// batch pulls, marking and checking every slot they hold.
fn mixed_mpmc<S: BatchedSlotPool>(mut storage: S) {
    let capacity = storage.capacity();
    let tracker: Vec<AtomicUsize> = (0..capacity).map(|_| AtomicUsize::new(0)).collect();
    let mut held: Vec<Option<Held>> = (0..THREADS).map(|_| None).collect();
    let mut done = [0usize; THREADS];
    while done.iter().any(|&d| d < COUNT) {
        for thread_id in 0..THREADS {
            let owner_marker = thread_id + 1;
            match held[thread_id].take() {
                None => {
                    if done[thread_id] >= COUNT {
                        continue;
                    }
                    let got = match done[thread_id] % 3 {
                        0 => storage.pull().map(Held::Single),
                        1 => storage.pull_batch().map(Held::Batched),
                        _ => storage.pull_raw_batch().map(Held::Raw),
                    };
                    if let Some(h) = got {
                        for idx in held_slots(&h) {
                            let old = tracker[idx].swap(owner_marker, Ordering::AcqRel);
                            assert_eq!(old, 0, "Race condition on slot {}", idx);
                        }
                        held[thread_id] = Some(h);
                    }
                }
                Some(h) => {
                    for idx in held_slots(&h) {
                        assert_eq!(tracker[idx].load(Ordering::Acquire), owner_marker);
                        tracker[idx].store(0, Ordering::Release);
                    }
                    match h {
                        Held::Single(handle) => assert!(storage.put(handle).is_ok()),
                        Held::Batched(b) => assert!(storage.put_batch(b).is_ok()),
                        Held::Raw(r) => assert!(storage.put_raw_batch(r)),
                    }
                    done[thread_id] += 1;
                }
            }
        }
    }
    assert!(storage.is_full());
}


#[test]
fn layouts_match_the_shard_functions() {
    assert_eq!(words_per_shard(2), 1);
    assert_eq!(shard_count(2), 1);
    assert_eq!(words_per_shard(10), 1);
    assert_eq!(shard_count(10), 1);
    assert_eq!(words_per_shard(42), 1);
    assert_eq!(shard_count(42), 1);
    assert_eq!(words_per_shard(2000), 4);
    assert_eq!(shard_count(2000), 8);
}

#[test]
fn default_smoke_impl() {
    let storage = Storage2::new(id(1));
    smoke(storage);
}

#[test]
fn default_holds_n() {
    let mut storage = Storage42::new(id(2));

    while let Some(idx) = storage.pull_raw() {
        assert!(idx < 42);
    }

    for i in 0..42 {
        storage.put_raw(i);
    }

    while let Some(idx) = storage.pull() {
        assert!(idx.as_usize() < 42);
    }
}

#[test]
fn order() {
    let mut storage = Storage2000::with_coherence_provider::<NoCoherence>(id(3));
    for i in 0..storage.capacity() {
        assert_eq!(i, storage.pull_raw().unwrap());
    }
}

#[test]
fn default_len_impl() {
    let storage = Storage2::new(id(4));
    len_empty_full(storage);
}

#[test]
fn default_smoke_long_impl() {
    let storage = Storage10::new(id(5));
    smoke_long(storage);
}

#[test]
fn default_spsc_impl() {
    let storage = Storage2000::new(id(6));
    spsc(storage);
}

#[test]
fn default_mpsc_impl() {
    let storage = Storage2000::new(id(7));
    mpsc(storage);
}

#[test]
fn default_mpmc_impl() {
    let storage = Storage2000::new(id(8));
    mpmc(storage);
}

#[test]
fn default_linearizable_impl() {
    let storage = Storage10::new(id(9));
    linearizable(storage);
}

#[test]
fn default_smoke_batch_impl() {
    let storage = Storage2000::new(id(10));
    batch_smoke(storage);
}

#[test]
fn default_batch_spsc_impl() {
    let storage = Storage2000::new(id(11));
    batch_spsc(storage);
}

#[test]
fn default_batch_mpmc_impl() {
    let storage = Storage2000::new(id(12));
    batch_mpmc(storage);
}

#[test]
fn default_mixed_mpmc_impl() {
    let storage = Storage2000::new(id(13));
    mixed_mpmc(storage);
}

#[test]
fn heap_smoke_impl() {
    let storage = Slots::new(2, id(21));
    smoke(storage);
}

#[test]
fn heap_holds_n() {
    let mut storage = Slots::new(42, id(22));

    while let Some(idx) = storage.pull_raw() {
        assert!(idx < 42);
    }

    for i in 0..42 {
        storage.put_raw(i);
    }

    while let Some(idx) = storage.pull() {
        assert!(idx.as_usize() < 42);
    }
}

#[test]
fn heap_len_impl() {
    let storage = Slots::new(2, id(23));
    len_empty_full(storage);
}

#[test]
fn heap_smoke_long_impl() {
    let storage = Slots::new(10, id(24));
    smoke_long(storage);
}

#[test]
fn heap_spsc_impl() {
    let storage = Slots::new(2000, id(25));
    spsc(storage);
}

#[test]
fn heap_mpsc_impl() {
    let storage = Slots::new(2000, id(26));
    mpsc(storage);
}

#[test]
fn heap_mpmc_impl() {
    let storage = Slots::new(2000, id(27));
    mpmc(storage);
}

#[test]
fn heap_linearizable_impl() {
    let storage = Slots::new(10, id(28));
    linearizable(storage);
}

#[test]
fn heap_smoke_batch_impl() {
    let storage = Slots::new(2000, id(29));
    batch_smoke(storage);
}

#[test]
fn heap_batch_spsc_impl() {
    let storage = Slots::new(2000, id(30));
    batch_spsc(storage);
}

#[test]
fn heap_batch_mpmc_impl() {
    let storage = Slots::new(2000, id(31));
    batch_mpmc(storage);
}

#[test]
fn heap_mixed_mpmc_impl() {
    let storage = Slots::new(2000, id(32));
    mixed_mpmc(storage);
}

fn create_test_pool() -> Slots {
    Slots::new(2048, id(40))
}

#[test]
fn single_batch_single() {
    let mut pool = create_test_pool();
    let mut allocated = HashSet::new();

    // Pull a single item
    if let Some(idx) = pool.pull_raw() {
        assert!(allocated.insert(idx), "Duplicate slot returned");
    }

    // Pull a batch
    if let Some(batch) = pool.pull_raw_batch() {
        let mut it = batch.into_iter();
        while let Some(idx) = it.next() {
            assert!(allocated.insert(idx), "Batch slot {idx} overlaps with single pull");
        }
    }

    // Pull another single item
    if let Some(idx) = pool.pull_raw() {
        assert!(allocated.insert(idx), "Single slot {idx} overlaps with batch pull");
    }

    // Return everything back
    for &idx in &allocated {
        assert!(pool.put_raw(idx));
    }
}

#[test]
fn batch_exhaustion() {
    let mut pool = create_test_pool();
    let total_capacity = pool.capacity();
    let mut claimed_slots = HashSet::new();

    // Drain the entire pool using pull_raw_batch
    while let Some(batch) = pool.pull_raw_batch() {
        let mut it = batch.into_iter();
        while let Some(idx) = it.next() {
            assert!(claimed_slots.insert(idx), "Duplicate slot {idx} detected across batches");
        }
    }

    // Verify pool is now completely empty
    assert_eq!(pool.pull_raw(), None);
    assert_eq!(pool.pull_raw_batch(), None);
    assert_eq!(claimed_slots.len(), total_capacity, "Total claimed slots should equal pool capacity");
}

#[test]
fn pull_exact() {
    let mut pool = create_test_pool();

    let handles = pool.pull_exact::<16>().unwrap();
    assert_eq!(handles.len(), 16);
    assert_eq!(pool.len(), pool.capacity() - 16);
    for handle in handles {
        pool.put(handle).unwrap();
    }
    assert!(pool.is_full());
    assert_eq!(pool.pull_exact::<1>().unwrap().len(), 1);
}

#[test]
fn pool_exact_large() {
    let mut pool = Slots::new(128, id(41));

    assert!(pool.pull_exact::<256>().is_none());

    let batch_80 = pool.pull_exact::<80>().unwrap();
    assert_eq!(batch_80.len(), 80);

    // Verify the remaining 48 slots are still available and were not lost
    let batch_48 = pool.pull_exact::<48>();
    assert!(batch_48.is_some(), "Leftovers from previous batch split should still be in pool");

    // Pool should now be completely empty
    assert!(pool.pull_exact::<1>().is_none(), "Pool should be empty after taking 16 + 48");
    assert!(pool.is_empty());
}

fn assert_send_sync<S: Send + Sync>(_: S) {}

#[test]
fn send_sync_pools() {
    assert_send_sync(Storage2::new(id(50)));
    assert_send_sync(Slots::new(1, id(51)));
    assert_send_sync(lf_slots::WordPool::<InlineSlots<64, 1, 1>>::new(id(52)));
    assert_send_sync(lf_slots::WordSlots::new(1, id(53)));
}
