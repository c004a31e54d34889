use lf_slots::cache_coherence::NoCoherence;
use lf_slots::core_api::{shard_count, words_per_shard, BatchedRawSlotPool, RawSlotPool, ID};
use lf_slots::{BatchedSlotPool, InlineSlots, SlotHandle, SlotPool, SlotPoolMeta, Slots, WordPool, WordSlots};

fn drain_raw<P: RawSlotPool>(pool: &mut P) -> Vec<usize> {
    let mut out = Vec::new();
    while let Some(i) = pool.pull_raw() {
        out.push(i);
    }
    out
}

#[test]
fn new_pool_is_full() {
    let pool = Slots::new(42, ID::from_raw(1));
    assert_eq!(pool.capacity(), 42);
    assert_eq!(pool.len(), 42);
    assert!(pool.is_full());
    assert!(!pool.is_empty());

    let inline = InlineSlots::<42, 1, 1>::new(ID::from_raw(2));
    assert_eq!(inline.capacity(), 42);
    assert_eq!(inline.len(), 42);
    assert!(inline.is_full());
}

#[test]
fn readme_usage() {
    let mut pool = Slots::new(42, ID::from_raw(3));
    let handle = pool.pull().unwrap();
    assert_eq!(pool.len(), 41);
    let _ = handle.as_usize();
    assert!(pool.put(handle).is_ok());
    assert!(pool.is_full());
}

#[test]
fn dead_slots_are_never_handed_out() {
    // 70 slots in one shard of two words: the last 58 bits are padding.
    let mut pool = InlineSlots::<70, 1, 2>::new(ID::from_raw(4));
    let got = drain_raw(&mut pool);
    assert_eq!(got, (0..70).collect::<Vec<_>>());
    assert!(pool.is_empty());
    assert_eq!(pool.pull_raw_batch(), None);
}

#[test]
fn heap_pool_drains_in_order_from_shard_zero() {
    let mut pool = Slots::with_coherence_provider::<NoCoherence>(3000, ID::from_raw(5));
    let got = drain_raw(&mut pool);
    assert_eq!(got, (0..3000).collect::<Vec<_>>());
}

#[test]
fn pull_from_a_hinted_shard_walks_cyclically() {
    // Four shards of 64 slots; the scan starts at shard `hint % 4`.
    let mut pool = InlineSlots::<256, 4, 1>::new(ID::from_raw(6));
    assert_eq!(pool.pull_raw_from(2), Some(128));
    assert_eq!(pool.pull_raw_from(6), Some(129));
    // Empty shard 3, then a scan from shard 3 wraps around to shard 0.
    for i in 192..256 {
        assert_eq!(pool.pull_raw_from(3), Some(i));
    }
    assert_eq!(pool.pull_raw_from(3), Some(0));
    let b = pool.pull_raw_batch_from(1).unwrap();
    assert_eq!(b.count(), 64);
    let mut it = b.into_iter();
    assert_eq!(it.next(), Some(64));
}

#[test]
fn put_raw_reports_double_frees() {
    let mut pool = Slots::new(10, ID::from_raw(7));
    let i = pool.pull_raw().unwrap();
    assert!(pool.put_raw(i));
    assert!(!pool.put_raw(i));
    assert!(pool.is_full());
}

#[test]
fn put_refuses_foreign_handles() {
    let mut a = Slots::new(10, ID::from_raw(8));
    let mut b = Slots::new(10, ID::from_raw(9));
    let h = a.pull().unwrap();
    let back = b.put(h).unwrap_err();
    assert_eq!(b.len(), 10);
    assert!(a.put(back).is_ok());
}

#[test]
fn put_refuses_free_and_unknown_slots() {
    let mut pool = InlineSlots::<10, 1, 1>::new(ID::from_raw(10));
    // Slot 3 is free: a handle for it is refused.
    assert!(pool.put(SlotHandle::from_raw(ID::from_raw(10), 3)).is_err());
    // Slot 10 does not exist.
    assert!(pool.put(SlotHandle::from_raw(ID::from_raw(10), 10)).is_err());
    assert!(pool.put(SlotHandle::from_raw(ID::from_raw(10), usize::MAX)).is_err());
    assert_eq!(pool.len(), 10);
    // A handle for a taken slot is accepted, even if made by hand.
    let h = pool.pull().unwrap();
    assert_eq!(h.as_usize(), 0);
    assert!(pool.put(SlotHandle::from_raw(ID::from_raw(10), 0)).is_ok());
    assert!(pool.put(h).is_err());
}

#[test]
fn put_batch_refuses_foreign_and_out_of_range_batches() {
    let mut big = Slots::new(128, ID::from_raw(11));
    let mut small = Slots::new(70, ID::from_raw(11));
    let mut other = Slots::new(128, ID::from_raw(12));
    let b = big.pull_batch().unwrap();
    let b = other.put_batch(b).unwrap_err();
    // Same ID, but the second word of `big` holds slots 64..128 and `small` has only 70.
    let b2 = big.pull_batch().unwrap();
    let b2 = small.put_batch(b2).unwrap_err();
    assert_eq!(small.len(), 70);
    assert!(big.put_batch(b).is_ok());
    assert!(big.put_batch(b2).is_ok());
    assert!(big.is_full());
}

#[test]
fn batches_hold_whole_words() {
    let mut pool = Slots::with_coherence_provider::<NoCoherence>(200, ID::from_raw(13));
    let _ = pool.pull_raw();
    let b = pool.pull_raw_batch().unwrap();
    // The first word lost slot 0 already; the batch holds its other 63 slots.
    assert_eq!(b.count(), 63);
    assert_eq!(pool.len(), 200 - 64);
    let b2 = pool.pull_raw_batch().unwrap();
    assert_eq!(b2.count(), 64);
    let b3 = pool.pull_raw_batch().unwrap();
    assert_eq!(b3.count(), 64);
    let b4 = pool.pull_raw_batch().unwrap();
    assert_eq!(b4.count(), 8);
    assert_eq!(pool.pull_raw_batch(), None);
    assert!(pool.put_raw_batch(b4));
    assert_eq!(pool.len(), 8);
}

#[test]
fn pull_exact_edge_cases() {
    let mut pool = Slots::new(5, ID::from_raw(14));
    assert!(pool.pull_exact::<6>().is_none());
    assert_eq!(pool.len(), 5);
    let all = pool.pull_exact::<5>().unwrap();
    let mut slots: Vec<usize> = all.iter().map(|h| h.as_usize()).collect();
    slots.sort();
    assert_eq!(slots, vec![0, 1, 2, 3, 4]);
    assert!(pool.is_empty());
    // Nothing is free, yet an empty request is always met.
    assert_eq!(pool.pull_exact::<0>().map(|a| a.len()), Some(0));
    assert!(pool.is_empty());
    for h in all {
        assert!(pool.put(h).is_ok());
    }
    assert_eq!(pool.pull_exact::<0>().map(|a| a.len()), Some(0));
    assert!(pool.is_full());
}

#[test]
fn pull_raw_exact_takes_high_slots_of_the_last_word() {
    let mut pool = Slots::with_coherence_provider::<NoCoherence>(128, ID::from_raw(15));
    let got = pool.pull_raw_exact::<66>().unwrap();
    // Word 0 whole, then the two highest slots of word 1.
    let mut sorted = got.to_vec();
    sorted.sort();
    let mut expected: Vec<usize> = (0..64).collect();
    expected.push(126);
    expected.push(127);
    assert_eq!(sorted, expected);
    assert_eq!(pool.len(), 62);
}

#[test]
fn word_pools_hand_out_words() {
    let mut words = WordSlots::new(3, ID::from_raw(16));
    assert_eq!(words.capacity(), 3);
    assert_eq!(words.len(), 3);
    assert!(words.is_full());
    let w0 = words.pull_raw().unwrap();
    let w1 = words.pull_raw().unwrap();
    assert_ne!(w0, w1);
    assert_eq!(words.len(), 1);
    assert!(!words.is_full());
    assert!(words.put_raw(w0));
    let h = words.pull().unwrap();
    assert!(words.put(h).is_ok());
    assert!(words.put_raw(w1));
    assert!(words.is_full());
    let _ = words.pull_raw().unwrap();
    let _ = words.pull_raw().unwrap();
    let _ = words.pull_raw().unwrap();
    assert!(words.is_empty());
    assert_eq!(words.pull_raw(), None);

    let mut inline = WordPool::<InlineSlots<128, 1, 2>>::new(ID::from_raw(17));
    assert_eq!(inline.capacity(), 2);
    assert_eq!(inline.pull_raw(), Some(0));
    assert_eq!(inline.pull_raw(), Some(1));
    assert_eq!(inline.pull_raw(), None);
}

#[test]
fn shard_layout_functions() {
    // Zero slots still get the smallest shard, and need no shard at all.
    assert_eq!(words_per_shard(0), 1);
    assert_eq!(shard_count(0), 0);
    assert_eq!(words_per_shard(1), 1);
    assert_eq!(words_per_shard(512), 1);
    assert_eq!(words_per_shard(513), 2);
    assert_eq!(words_per_shard(2000), 4);
    // Large pools are capped at a cache line of words.
    let line = words_per_shard(usize::MAX / 4);
    assert!(line.is_power_of_two() && (2..=32).contains(&line));
    assert_eq!(shard_count(1), 1);
    assert_eq!(shard_count(4096), 8);
    assert_eq!(shard_count(513), 5);
}

#[test]
fn ids_and_handles() {
    let id = ID::from_raw(77);
    assert_eq!(id.as_raw(), 77);
    assert_eq!(id.clone(), id);
    assert_ne!(ID::from_raw(1), ID::from_raw(2));
    let h = SlotHandle::from_raw(id, 5);
    assert_eq!(h.as_usize(), 5);
}
