//! Properties of slot pools that span several operations.
use vstd::prelude::*;

use crate::bits::{
    count_true,
    lemma_count_bounds,
    lemma_count_update,
    lemma_count_zero,
};
use crate::cache_coherence::round_robin_next;
use crate::core_internal::{split_parts, RawBatch, SlotHandle};
use crate::slot_alloc::{
    accepts,
    none_free,
    took_exactly,
    whole_word_of,
    with_batch,
    without_batch,
    SlotPool,
    RawSlotPool,
    SlotPoolMeta,
};
use crate::cache_coherence::CoherenceProvider;
use crate::storage::{scan_choice, InlineSlots, Slots};

verus! {

/// A pool is empty (its length is zero) exactly when no slot is free, which is
/// when pulling hands out nothing.
pub proof fn law_empty_iff_none_free<P: RawSlotPool>(pool: P)
    requires
        pool.pool_wf(),
    ensures
        (pool.spec_len() == 0) <==> none_free(pool.slots()),
{
    pool.lemma_len();
    lemma_count_zero(pool.slots());
}

/// A pool never holds more free slots than its capacity.
pub proof fn law_len_within_capacity<P: RawSlotPool>(pool: P)
    requires
        pool.pool_wf(),
    ensures
        pool.spec_len() <= pool.spec_capacity(),
{
    pool.lemma_len();
    pool.lemma_slots();
    lemma_count_bounds(pool.slots());
}

/// Pulling a slot lowers the length by one.
pub proof fn law_pull_len<P: RawSlotPool>(before: P, after: P, i: int)
    requires
        before.pool_wf(),
        after.pool_wf(),
        0 <= i < before.slots().len(),
        before.slots()[i],
        after.slots() == before.slots().update(i, false),
    ensures
        after.spec_len() + 1 == before.spec_len(),
{
    before.lemma_len();
    after.lemma_len();
    lemma_count_update(before.slots(), i, false);
}

/// Putting a slot back raises the length by one, unless the slot was free already.
pub proof fn law_put_len<P: RawSlotPool>(before: P, after: P, i: int)
    requires
        before.pool_wf(),
        after.pool_wf(),
        0 <= i < before.slots().len(),
        after.slots() == before.slots().update(i, true),
    ensures
        after.spec_len() == before.spec_len() + if before.slots()[i] {
            0int
        } else {
            1int
        },
{
    before.lemma_len();
    after.lemma_len();
    lemma_count_update(before.slots(), i, true);
}

/// Two pulls in a row hand out different slots.
pub proof fn law_pulls_distinct(before: Seq<bool>, i: int, j: int)
    requires
        0 <= i < before.len(),
        before[i],
        0 <= j < before.len(),
        before.update(i, false)[j],
    ensures
        i != j,
{
}

/// Putting back a pulled slot restores the free slots as they were.
pub proof fn law_pull_put_restores(before: Seq<bool>, i: int)
    requires
        0 <= i < before.len(),
        before[i],
    ensures
        before.update(i, false).update(i, true) == before,
{
    assert(before.update(i, false).update(i, true) =~= before);
}

/// A handle pulled from a pool is accepted back by it, and putting it back
/// restores the free slots.
pub proof fn law_pulled_handle_accepted<P: RawSlotPool>(before: P, after_pull: P, h: SlotHandle)
    requires
        h.spec_id() == before.spec_id(),
        h.spec_slot() < before.slots().len(),
        before.slots()[h.spec_slot() as int],
        after_pull.spec_id() == before.spec_id(),
        after_pull.slots() == before.slots().update(h.spec_slot() as int, false),
    ensures
        accepts(after_pull.spec_id(), after_pull.slots(), h),
        after_pull.slots().update(h.spec_slot() as int, true) == before.slots(),
{
    law_pull_put_restores(before.slots(), h.spec_slot() as int);
}

/// `put` of a handle that `pull` handed out answers `Ok`: the handle carries
/// the pool's ID and names a slot of it that is taken. Putting it back
/// restores the free slots, and the length that the pull lowered by one.
pub proof fn law_put_after_pull<P: SlotPool>(before: P, after_pull: P, after_put: P, h: SlotHandle)
    requires
        before.pool_wf(),
        after_pull.pool_wf(),
        after_put.pool_wf(),
        after_pull.spec_capacity() == before.spec_capacity(),
        after_pull.spec_id() == before.spec_id(),
        h.spec_id() == before.spec_id(),
        h.spec_slot() < before.slots().len(),
        before.slots()[h.spec_slot() as int],
        after_pull.slots() == before.slots().update(h.spec_slot() as int, false),
        after_put.slots() == after_pull.slots().update(h.spec_slot() as int, true),
    ensures
        h.spec_id() == after_pull.spec_id(),
        h.spec_slot() < after_pull.spec_capacity(),
        after_pull.put_frees(h.spec_slot() as int),
        after_pull.spec_len() + 1 == before.spec_len(),
        after_put.slots() == before.slots(),
        after_put.spec_len() == before.spec_len(),
{
    let i = h.spec_slot() as int;
    before.lemma_slots();
    after_pull.lemma_put_frees(i);
    law_pull_len(before, after_pull, i);
    law_pull_put_restores(before.slots(), i);
    before.lemma_len();
    after_put.lemma_len();
}

/// `put` of a handle that carries the pool's ID and names one of its slots that
/// is taken (one from `pull`, from `pull_exact`, or from iterating a batch of
/// `pull_batch`) answers `Ok`, frees the slot and raises the length by one.
pub proof fn law_put_taken<P: SlotPool>(before: P, after: P, h: SlotHandle)
    requires
        before.pool_wf(),
        after.pool_wf(),
        h.spec_id() == before.spec_id(),
        h.spec_slot() < before.spec_capacity(),
        !before.slots()[h.spec_slot() as int],
        after.slots() == before.slots().update(h.spec_slot() as int, true),
    ensures
        accepts(before.spec_id(), before.slots(), h),
        before.put_frees(h.spec_slot() as int),
        after.spec_len() == before.spec_len() + 1,
{
    before.lemma_slots();
    before.lemma_put_frees(h.spec_slot() as int);
    law_put_len(before, after, h.spec_slot() as int);
}

/// A handle for a free slot, or of another pool, is refused.
pub proof fn law_free_slot_refused(id: crate::core_internal::ID, slots: Seq<bool>, h: SlotHandle)
    requires
        h.spec_id() != id || (h.spec_slot() < slots.len() && slots[h.spec_slot() as int]),
    ensures
        !accepts(id, slots, h),
{
}

/// Taking a batch lowers the number of free slots by the batch's count.
pub proof fn law_batch_len(slots: Seq<bool>, b: RawBatch)
    requires
        whole_word_of(slots, b),
    ensures
        count_true(without_batch(slots, b)) + b.spec_count() == count_true(slots),
        b.spec_count() >= 1,
{
    crate::slot_alloc::lemma_batch_count(slots, b);
    crate::bits::lemma_popcount_zero(b.bits());
}

/// Putting back a batch whose slots are all taken raises the number of free
/// slots by the batch's count; this holds of a part of a split batch as of a
/// whole one.
pub proof fn law_put_batch_len(slots: Seq<bool>, b: RawBatch)
    requires
        forall|i: int| #[trigger] b.has(i) ==> 0 <= i < slots.len() && !slots[i],
    ensures
        count_true(with_batch(slots, b)) == count_true(slots) + b.spec_count(),
{
    let back = with_batch(slots, b);
    assert(without_batch(back, b) =~= slots);
    crate::slot_alloc::lemma_batch_count(back, b);
}

/// Each part of a split of a pulled batch is taken once the batch was pulled,
/// so putting it back raises the number of free slots by its count.
pub proof fn law_put_split_part_len(slots: Seq<bool>, whole: RawBatch, n: nat, l: RawBatch, r: RawBatch)
    requires
        whole_word_of(slots, whole),
        split_parts(whole, n, l, r),
    ensures
        count_true(with_batch(without_batch(slots, whole), l)) == count_true(without_batch(slots, whole)) + l.spec_count(),
        count_true(with_batch(without_batch(slots, whole), r)) == count_true(without_batch(slots, whole)) + r.spec_count(),
{
    let taken = without_batch(slots, whole);
    assert forall|i: int| #[trigger] l.has(i) implies 0 <= i < taken.len() && !taken[i] by {
        assert(whole.has(i));
    }
    assert forall|i: int| #[trigger] r.has(i) implies 0 <= i < taken.len() && !taken[i] by {
        assert(whole.has(i));
    }
    law_put_batch_len(taken, l);
    law_put_batch_len(taken, r);
}

/// A pulled batch, and each part of it after a split, lies within the pool, so
/// the pool takes it back.
pub proof fn law_pulled_batch_fits(slots: Seq<bool>, whole: RawBatch, n: nat, l: RawBatch, r: RawBatch)
    requires
        whole_word_of(slots, whole),
        split_parts(whole, n, l, r),
    ensures
        whole.start() < slots.len(),
        forall|i: int| #[trigger] whole.has(i) ==> i < slots.len(),
        l.start() < slots.len(),
        forall|i: int| #[trigger] l.has(i) ==> i < slots.len(),
        r.start() < slots.len(),
        forall|i: int| #[trigger] r.has(i) ==> i < slots.len(),
{
    assert forall|i: int| #[trigger] l.has(i) implies i < slots.len() by {
        assert(whole.has(i));
    }
    assert forall|i: int| #[trigger] r.has(i) implies i < slots.len() by {
        assert(whole.has(i));
    }
}

/// Putting back a pulled batch restores the free slots.
pub proof fn law_batch_roundtrip(slots: Seq<bool>, b: RawBatch)
    requires
        whole_word_of(slots, b),
    ensures
        with_batch(without_batch(slots, b), b) == slots,
{
    assert(with_batch(without_batch(slots, b), b) =~= slots);
}

/// Putting back both parts of a split batch restores the free slots; putting
/// back only the lower part leaves exactly the higher part taken.
pub proof fn law_split_roundtrip(slots: Seq<bool>, whole: RawBatch, n: nat, l: RawBatch, r: RawBatch)
    requires
        whole_word_of(slots, whole),
        split_parts(whole, n, l, r),
    ensures
        with_batch(without_batch(slots, whole), r) == without_batch(slots, l),
        with_batch(with_batch(without_batch(slots, whole), r), l) == slots,
{
    crate::slot_alloc::lemma_split_return(
        slots,
        whole,
        l,
        r,
        n,
        without_batch(slots, whole),
        with_batch(without_batch(slots, whole), r),
    );
    assert forall|i: int| 0 <= i < slots.len() implies with_batch(without_batch(slots, l), l)[i] == slots[i] by {
        if l.has(i) {
            let c = i - whole.start();
            assert(crate::bits::bit_set(whole.bits(), c) == (crate::bits::bit_set(l.bits(), c) || crate::bits::bit_set(r.bits(), c)));
            assert(whole.has(i));
        }
    }
    assert(with_batch(without_batch(slots, l), l) =~= slots);
}

/// Taking `got.len()` distinct free slots lowers the number of free slots by as many.
pub proof fn law_took_len(before: Seq<bool>, after: Seq<bool>, got: Seq<usize>)
    requires
        before.len() <= usize::MAX,
        took_exactly(before, after, got),
    ensures
        count_true(after) + got.len() == count_true(before),
    decreases got.len(),
{
    if got.len() == 0 {
        assert(after =~= before);
    } else {
        let rest = got.drop_last();
        let x = got.last();
        let mid = Seq::new(before.len(), |i: int| before[i] && !rest.contains(i as usize));
        assert forall|k: int| 0 <= k < rest.len() implies #[trigger] rest[k] < before.len() && before[rest[k] as int] by {
            assert(rest[k] == got[k]);
        }
        assert forall|k1: int, k2: int| 0 <= k1 < k2 < rest.len() implies #[trigger] rest[k1] != #[trigger] rest[k2] by {
            assert(rest[k1] == got[k1] && rest[k2] == got[k2]);
        }
        law_took_len(before, mid, rest);
        assert(got[got.len() - 1] == x);
        assert(!rest.contains(x)) by {
            if rest.contains(x) {
                let k = choose|k: int| 0 <= k < rest.len() && rest[k] == x;
                assert(got[k] == got[got.len() - 1]);
            }
        }
        assert(mid[x as int]);
        assert forall|i: int| 0 <= i < before.len() implies after[i] == mid.update(x as int, false)[i] by {
            if got.contains(i as usize) && i != x {
                let k = choose|k: int| 0 <= k < got.len() && got[k] == i as usize;
                assert(rest[k] == i as usize);
            }
            if rest.contains(i as usize) {
                let k = choose|k: int| 0 <= k < rest.len() && rest[k] == i as usize;
                assert(got[k] == i as usize);
            }
        }
        assert(after =~= mid.update(x as int, false));
        lemma_count_update(mid, x as int, false);
    }
}

/// Scanning from shard zero hands out the lowest free slot.
pub proof fn law_scan_from_zero_is_lowest(slots: Seq<bool>, shard_bits: int, shards: int, i: int)
    requires
        scan_choice(slots, 0, shard_bits, shards, i),
    ensures
        forall|j: int| 0 <= j < slots.len() && slots[j] ==> i <= j,
{
}

/// An inline pool whose coherence provider only ever hints shard zero (as
/// `NoCoherence` and `AutoCoherenceProvider` do) hands out its lowest free slot.
pub proof fn law_inline_hint_zero_pulls_lowest<const N: usize, const SHARDS: usize, const WORDS_PER_SHARD: usize, C: CoherenceProvider>(
    pool: InlineSlots<N, SHARDS, WORDS_PER_SHARD, C>,
    i: int,
)
    requires
        pool.pool_wf(),
        forall|h: usize| #[trigger] pool.provider().may_hint(h) ==> h == 0,
        pool.may_pull(i),
    ensures
        forall|j: int| 0 <= j < pool.slots().len() && pool.slots()[j] ==> i <= j,
{
    pool.lemma_layout();
    let h = choose|h: usize| #[trigger] pool.provider().may_hint(h) && scan_choice(pool.slots(), h as int % pool.shard_total(), pool.shard_slots(), pool.shard_total(), i);
    assert(h == 0);
    assert(0int % pool.shard_total() == 0);
    law_scan_from_zero_is_lowest(pool.slots(), pool.shard_slots(), pool.shard_total(), i);
}

/// A heap pool whose coherence provider only ever hints shard zero (as
/// `NoCoherence` and `AutoCoherenceProvider` do) hands out its lowest free slot.
pub proof fn law_heap_hint_zero_pulls_lowest<C: CoherenceProvider>(pool: Slots<C>, i: int)
    requires
        pool.pool_wf(),
        forall|h: usize| #[trigger] pool.provider().may_hint(h) ==> h == 0,
        pool.may_pull(i),
    ensures
        forall|j: int| 0 <= j < pool.slots().len() && pool.slots()[j] ==> i <= j,
{
    pool.lemma_layout();
    let h = choose|h: usize| #[trigger] pool.provider().may_hint(h) && scan_choice(pool.slots(), h as int % pool.shard_total(), pool.shard_slots(), pool.shard_total(), i);
    assert(h == 0);
    assert(0int % pool.shard_total() == 0);
    law_scan_from_zero_is_lowest(pool.slots(), pool.shard_slots(), pool.shard_total(), i);
}

/// Advancing a round robin walk by `a` and then by `b` bits ends where
/// advancing it by `a + b` bits at once does.
pub proof fn law_round_robin_additive(hint: int, counter: int, a: int, b: int, step: int)
    requires
        step > 0,
        0 <= hint,
        0 <= counter,
        0 <= a,
        0 <= b,
    ensures
        ({
            let first = round_robin_next(hint, counter, a, step);
            round_robin_next(first.0, first.1, b, step)
        }) == round_robin_next(hint, counter, a + b, step),
{
    let m = usize::MAX + 1;
    let c = counter + a;
    let q = c / step;
    let r = c % step;
    assert(c == q * step + r && 0 <= r < step && q >= 0) by (nonlinear_arith)
        requires
            step > 0,
            c >= 0,
            q == c / step,
            r == c % step,
    ;
    let d = r + b;
    let q2 = d / step;
    let r2 = d % step;
    assert(d == q2 * step + r2 && 0 <= r2 < step) by (nonlinear_arith)
        requires
            step > 0,
            d >= 0,
            q2 == d / step,
            r2 == d % step,
    ;
    assert(c + b == (q + q2) * step + r2) by (nonlinear_arith)
        requires
            c == q * step + r,
            d == r + b,
            d == q2 * step + r2,
    ;
    assert((c + b) / step == q + q2 && (c + b) % step == r2) by (nonlinear_arith)
        requires
            c + b == (q + q2) * step + r2,
            0 <= r2 < step,
            step > 0,
    ;
    vstd::arithmetic::div_mod::lemma_add_mod_noop(hint + q, q2, m);
    vstd::arithmetic::div_mod::lemma_mod_twice(hint + q, m);
    vstd::arithmetic::div_mod::lemma_add_mod_noop((hint + q) % m, q2, m);
}

} // verus!
