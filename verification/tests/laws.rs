use lf_slots::cache_coherence::NoCoherence;
use lf_slots::core_api::{BatchedRawSlotPool, RawSlotPool, ID};
use lf_slots::{InlineSlots, SlotPool, SlotPoolMeta, Slots};

#[test]
fn empty_exactly_when_nothing_can_be_pulled() {
    let mut pool = InlineSlots::<3, 1, 1>::new(ID::from_raw(1));
    for _ in 0..3 {
        assert!(!pool.is_empty());
        assert!(pool.pull_raw().is_some());
    }
    assert!(pool.is_empty());
    assert_eq!(pool.len(), 0);
    assert_eq!(pool.pull_raw(), None);
    assert!(pool.pull().is_none());
}

#[test]
fn len_stays_within_capacity() {
    let mut pool = Slots::new(100, ID::from_raw(2));
    for i in 0..100 {
        pool.put_raw(i);
        assert!(pool.len() <= pool.capacity());
    }
    assert_eq!(pool.len(), 100);
}

#[test]
fn pull_lowers_len_by_one_and_put_raises_it() {
    let mut pool = Slots::new(7, ID::from_raw(3));
    let i = pool.pull_raw().unwrap();
    assert_eq!(pool.len(), 6);
    assert!(pool.put_raw(i));
    assert_eq!(pool.len(), 7);
    // Putting back a free slot changes nothing.
    assert!(!pool.put_raw(i));
    assert_eq!(pool.len(), 7);
}

#[test]
fn two_pulls_differ() {
    let mut pool = InlineSlots::<2, 1, 1>::new(ID::from_raw(4));
    let a = pool.pull().unwrap();
    let b = pool.pull().unwrap();
    assert_ne!(a.as_usize(), b.as_usize());
}

#[test]
fn pulled_handle_is_accepted_and_restores_the_pool() {
    let mut pool = Slots::with_coherence_provider::<NoCoherence>(5, ID::from_raw(5));
    let h = pool.pull().unwrap();
    let slot = h.as_usize();
    assert!(pool.put(h).is_ok());
    assert!(pool.is_full());
    assert_eq!(pool.pull().unwrap().as_usize(), slot);
}

#[test]
fn batch_roundtrip_and_count() {
    let mut pool = Slots::new(100, ID::from_raw(6));
    let b = pool.pull_raw_batch().unwrap();
    assert!(b.count() >= 1);
    assert_eq!(pool.len() + b.count(), 100);
    assert!(pool.put_raw_batch(b));
    assert!(pool.is_full());
}

#[test]
fn split_roundtrip() {
    let mut pool = Slots::new(64, ID::from_raw(7));
    let b = pool.pull_raw_batch().unwrap();
    let (l, r) = b.split_at(20);
    let r = r.unwrap();
    assert!(pool.put_raw_batch(r));
    assert_eq!(pool.len(), 44);
    assert!(pool.put_raw_batch(l));
    assert!(pool.is_full());
}

#[test]
fn exact_pull_takes_as_many_distinct_slots() {
    let mut pool = Slots::new(200, ID::from_raw(8));
    let got = pool.pull_raw_exact::<70>().unwrap();
    let mut v = got.to_vec();
    v.sort();
    v.dedup();
    assert_eq!(v.len(), 70);
    assert_eq!(pool.len(), 130);
}

#[test]
fn scan_from_shard_zero_takes_the_lowest_free_slot() {
    let mut pool = InlineSlots::<256, 4, 1>::new(ID::from_raw(9));
    for _ in 0..5 {
        pool.pull_raw_from(0).unwrap();
    }
    assert!(pool.put_raw(2));
    assert_eq!(pool.pull_raw_from(0), Some(2));
    assert_eq!(pool.pull_raw_from(4), Some(5));
}

#[test]
fn a_pulled_handle_is_taken_back_and_restores_len() {
    let mut pool = Slots::new(42, ID::from_raw(30));
    let h = pool.pull().unwrap();
    assert_eq!(pool.len(), 41);
    assert!(pool.put(h).is_ok());
    assert!(pool.is_full());
    assert_eq!(pool.len(), 42);
}

#[test]
fn a_pulled_word_put_back_restores_the_word_pool() {
    let mut pool = lf_slots::WordSlots::new(3, ID::from_raw(31));
    let before = pool.len();
    let w = pool.pull_raw().unwrap();
    assert!(w < pool.capacity());
    assert_eq!(pool.len(), before - 1);
    assert!(pool.put_raw(w));
    assert_eq!(pool.len(), before);
    assert!(pool.is_full());
}

#[test]
fn pools_without_coherence_hand_out_the_lowest_free_slot() {
    let mut pool = InlineSlots::<2000, 8, 4>::with_coherence_provider::<NoCoherence>(ID::from_raw(32));
    for i in 0..300 {
        assert_eq!(pool.pull_raw(), Some(i));
    }
    assert!(pool.put_raw(5));
    assert!(pool.put_raw(250));
    assert_eq!(pool.pull_raw(), Some(5));
    assert_eq!(pool.pull_raw(), Some(250));
    let mut heap = Slots::new(10, ID::from_raw(33));
    let handles: Vec<_> = (0..10).map(|_| heap.pull().unwrap()).collect();
    for h in handles {
        assert!(heap.put(h).is_ok());
    }
    assert_eq!(heap.pull().map(|h| h.as_usize()), Some(0));
}

#[test]
fn word_pool_len_counts_free_words() {
    let mut pool = lf_slots::WordSlots::new(4, ID::from_raw(34));
    assert!(pool.is_full());
    let a = pool.pull_raw().unwrap();
    let b = pool.pull_raw().unwrap();
    assert_ne!(a, b);
    assert_eq!(pool.len(), 2);
    assert!(!pool.is_full());
    assert!(pool.put_raw(a));
    assert_eq!(pool.len(), 3);
    assert!(pool.put_raw(b));
    assert_eq!(pool.len(), 4);
    assert!(pool.is_full());
}
