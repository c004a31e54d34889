use lf_slots::cache_coherence::NoCoherence;
use lf_slots::core_api::{BatchedRawSlotPool, RawBatch, RawSlotPool, ID};
use lf_slots::{BatchedSlotPool, SlotPool, SlotPoolMeta, Slots};

fn full_batch(pool: &mut Slots<NoCoherence>) -> RawBatch {
    pool.pull_raw_batch().unwrap()
}

fn slots_of(b: &RawBatch) -> Vec<usize> {
    let mut it = b.into_iter();
    let mut out = Vec::new();
    while let Some(i) = it.next() {
        out.push(i);
    }
    out
}

#[test]
fn split_keeps_the_high_slots_first() {
    let mut pool = Slots::with_coherence_provider::<NoCoherence>(64, ID::from_raw(1));
    let b = full_batch(&mut pool);
    assert_eq!(b.count(), 64);
    let (high, low) = b.split_at(10);
    let low = low.unwrap();
    assert_eq!(slots_of(&high), (54..64).collect::<Vec<_>>());
    assert_eq!(slots_of(&low), (0..54).collect::<Vec<_>>());
    assert_eq!(high.count(), 10);
    assert_eq!(low.count(), 54);
}

#[test]
fn split_edges() {
    let mut pool = Slots::with_coherence_provider::<NoCoherence>(64, ID::from_raw(2));
    let b = full_batch(&mut pool);
    let (same, none) = b.split_at(64);
    assert_eq!(same, b);
    assert!(none.is_none());
    let (empty, all) = b.split_at(0);
    assert!(empty.is_empty());
    assert_eq!(empty.count(), 0);
    assert_eq!(all, Some(b));
    let (l, r) = b.split_at(63);
    assert_eq!(l.count(), 63);
    assert_eq!(slots_of(&r.unwrap()), vec![0]);
}

#[test]
fn iterator_hands_out_lowest_first() {
    let mut pool = Slots::with_coherence_provider::<NoCoherence>(64, ID::from_raw(3));
    for _ in 0..3 {
        pool.pull_raw().unwrap();
    }
    let b = full_batch(&mut pool);
    let mut it = b.into_iter();
    assert_eq!(it.size_hint(), (61, Some(61)));
    assert_eq!(it.next(), Some(3));
    assert_eq!(it.next(), Some(4));
    assert_eq!(it.size_hint(), (59, Some(59)));
    let rest: Vec<usize> = {
        let mut v = Vec::new();
        while let Some(i) = it.next() {
            v.push(i);
        }
        v
    };
    assert_eq!(rest, (5..64).collect::<Vec<_>>());
    assert_eq!(it.next(), None);
}

#[test]
fn safe_batches_carry_the_pool_id() {
    let mut pool = Slots::with_coherence_provider::<NoCoherence>(128, ID::from_raw(4));
    let b = pool.pull_batch().unwrap();
    assert_eq!(b.count(), 64);
    assert!(!b.is_empty());
    let (l, r) = b.split_at(4);
    let r = r.unwrap();
    let mut handles = l.into_iter();
    assert_eq!(handles.size_hint(), (4, Some(4)));
    let mut seen = Vec::new();
    while let Some(h) = handles.next() {
        seen.push(h.as_usize());
        assert!(pool.put(h).is_ok());
    }
    assert_eq!(seen, vec![60, 61, 62, 63]);
    assert_eq!(pool.len(), 64 + 4);
    assert!(pool.put_batch(r).is_ok());
    assert!(pool.is_full());
}

#[test]
fn batch_roundtrip_restores_the_pool() {
    let mut pool = Slots::new(300, ID::from_raw(5));
    let before = pool.len();
    let b = pool.pull_raw_batch().unwrap();
    assert_eq!(pool.len() + b.count(), before);
    assert!(pool.put_raw_batch(b));
    assert_eq!(pool.len(), before);
}

#[test]
fn collecting_a_batch_yields_each_slot_once_lowest_first() {
    let mut pool = Slots::with_coherence_provider::<NoCoherence>(64, ID::from_raw(6));
    for _ in 0..2 {
        pool.pull_raw().unwrap();
    }
    let b = full_batch(&mut pool);
    let mut it = b.into_iter();
    assert_eq!(it.next(), Some(2));
    let (left, _) = it.size_hint();
    let rest = it.collect_vec();
    assert_eq!(rest.len(), left);
    assert_eq!(rest, (3..64).collect::<Vec<_>>());
    assert_eq!(it.size_hint(), (0, Some(0)));
    assert_eq!(it.next(), None);
}

#[test]
fn collecting_handles_keeps_the_pool_id() {
    let mut pool = Slots::with_coherence_provider::<NoCoherence>(64, ID::from_raw(7));
    let b = pool.pull_batch().unwrap();
    let (high, _) = b.split_at(3);
    let mut it = high.into_iter();
    let handles = it.collect_vec();
    let slots: Vec<usize> = handles.iter().map(|h| h.as_usize()).collect();
    assert_eq!(slots, vec![61, 62, 63]);
    assert!(it.next().is_none());
    for h in handles {
        assert!(pool.put(h).is_ok());
    }
    assert_eq!(pool.len(), 3);
}

#[test]
fn safe_and_raw_splits_agree() {
    let mut pool = Slots::with_coherence_provider::<NoCoherence>(64, ID::from_raw(8));
    for _ in 0..5 {
        pool.pull_raw().unwrap();
    }
    let b = pool.pull_batch().unwrap();
    let raw = *b.raw();
    let (rl, rr) = raw.split_at(20);
    let (l, r) = b.split_at(20);
    assert_eq!(*l.raw(), rl);
    assert_eq!(r.map(|x| *x.raw()), rr);
}

#[test]
fn returning_a_split_part_raises_len_by_its_count() {
    let mut pool = Slots::with_coherence_provider::<NoCoherence>(64, ID::from_raw(9));
    let b = pool.pull_raw_batch().unwrap();
    assert_eq!(pool.len(), 0);
    let (high, low) = b.split_at(10);
    assert!(pool.put_raw_batch(high));
    assert_eq!(pool.len(), 10);
    let low = low.unwrap();
    assert!(pool.put_raw_batch(low));
    assert_eq!(pool.len(), 64);
}

#[test]
fn batch_handles_match_raw_items_one_by_one() {
    let mut pool = Slots::with_coherence_provider::<NoCoherence>(128, ID::from_raw(10));
    for _ in 0..7 {
        pool.pull_raw().unwrap();
    }
    let b = pool.pull_batch().unwrap();
    let raw_items = b.raw().into_iter().collect_vec();
    let handles = b.into_iter().collect_vec();
    assert_eq!(handles.len(), raw_items.len());
    for (h, r) in handles.iter().zip(raw_items.iter()) {
        assert_eq!(h.as_usize(), *r);
    }
    let before = pool.len();
    for h in handles {
        assert!(pool.put(h).is_ok());
    }
    assert_eq!(pool.len(), before + raw_items.len());
}
