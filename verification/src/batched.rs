//! Word pools: slot pools whose slots are whole words of another pool.
use vstd::prelude::*;

use crate::bits::{
    count_true,
    lemma_bit_max,
    lemma_count_append,
    lemma_count_bounds,
    lemma_count_full,
    lemma_count_zero,
    lemma_trailing_zeros,
};
use crate::cache_coherence::{AutoCoherenceProvider, CoherenceProvider};
use crate::core_internal::{RawBatch, SlotHandle, Word, ID, WORD_BITS};
use crate::slot_alloc::{
    whole_word_of,
    with_batch,
    without_batch,
    BatchedRawSlotPool,
    BatchedSlotPool,
    RawSlotPool,
    SlotPool,
    SlotPoolMeta,
};
use crate::storage::{inline_layout_ok, InlineSlots, Slots};

verus! {

/// Word `w` of `inner` holds a free slot.
pub open spec fn word_free(inner: Seq<bool>, w: int) -> bool {
    exists|b: int| 0 <= b < 64 && #[trigger] inner[w * 64 + b]
}

/// Which words of `inner` hold a free slot.
pub open spec fn word_slots(inner: Seq<bool>) -> Seq<bool> {
    Seq::new(inner.len() / 64, |w: int| word_free(inner, w))
}

/// The inner slots once word `w` was taken: none of its slots is free.
pub open spec fn clear_word(inner: Seq<bool>, w: int) -> Seq<bool> {
    Seq::new(inner.len(), |i: int| inner[i] && !(w * 64 <= i < w * 64 + 64))
}

/// The inner slots once word `w` was returned: all of its slots are free.
pub open spec fn fill_word(inner: Seq<bool>, w: int) -> Seq<bool> {
    Seq::new(inner.len(), |i: int| inner[i] || (w * 64 <= i < w * 64 + 64))
}

/// The number of free inner slots in word `w`.
pub open spec fn free_in_word(inner: Seq<bool>, w: int) -> nat {
    count_true(inner.subrange(w * 64, w * 64 + 64))
}

/// Clearing a word removes its free slots from the count; filling it adds the
/// ones it lacked.
pub proof fn lemma_word_counts(inner: Seq<bool>, w: int)
    requires
        0 <= w,
        w * 64 + 64 <= inner.len(),
    ensures
        count_true(clear_word(inner, w)) + free_in_word(inner, w) == count_true(inner),
        count_true(fill_word(inner, w)) + free_in_word(inner, w) == count_true(inner) + 64,
        free_in_word(inner, w) <= 64,
{
    let lo = w * 64;
    let hi = w * 64 + 64;
    let a = inner.subrange(0, lo);
    let m = inner.subrange(lo, hi);
    let b = inner.subrange(hi, inner.len() as int);
    let zeros = Seq::new(64, |i: int| false);
    let ones = Seq::new(64, |i: int| true);
    assert(inner =~= a + m + b);
    assert(clear_word(inner, w) =~= a + zeros + b);
    assert(fill_word(inner, w) =~= a + ones + b);
    lemma_count_append(a + m, b);
    lemma_count_append(a, m);
    lemma_count_append(a + zeros, b);
    lemma_count_append(a, zeros);
    lemma_count_append(a + ones, b);
    lemma_count_append(a, ones);
    lemma_count_zero(zeros);
    lemma_count_full(ones);
    lemma_count_bounds(m);
}

/// Every word of `inner` is wholly free or wholly taken, as it is when the
/// inner pool is used through a word pool alone.
pub open spec fn words_whole(inner: Seq<bool>) -> bool {
    forall|w: int|
        0 <= w < inner.len() / 64 ==> #[trigger] free_in_word(inner, w) == 0 || free_in_word(inner, w) == 64
}

/// A word holds a free slot exactly when its count of free slots is not zero.
proof fn lemma_word_free_count(inner: Seq<bool>, w: int)
    requires
        0 <= w,
        w * 64 + 64 <= inner.len(),
    ensures
        word_free(inner, w) <==> free_in_word(inner, w) > 0,
{
    let m = inner.subrange(w * 64, w * 64 + 64);
    lemma_count_zero(m);
    if word_free(inner, w) {
        let c = choose|c: int| 0 <= c < 64 && #[trigger] inner[w * 64 + c];
        assert(m[c]);
    }
    if free_in_word(inner, w) > 0 {
        let c = choose|c: int| 0 <= c < m.len() && m[c];
        assert(inner[w * 64 + c]);
    }
}

/// When every word is wholly free or wholly taken, the free slots are 64 for
/// every free word.
pub proof fn lemma_count_whole_words(inner: Seq<bool>)
    requires
        inner.len() % 64 == 0,
        words_whole(inner),
    ensures
        count_true(inner) == 64 * count_true(word_slots(inner)),
    decreases inner.len(),
{
    if inner.len() > 0 {
        let n = inner.len() / 64;
        let cut = inner.len() - 64;
        let p = inner.subrange(0, cut);
        let last = inner.subrange(cut, inner.len() as int);
        assert(inner =~= p + last);
        lemma_count_append(p, last);
        assert(cut == (n - 1) * 64);
        assert(p.len() / 64 == n - 1);
        assert forall|w: int| 0 <= w < p.len() / 64 implies #[trigger] free_in_word(p, w) == 0
            || free_in_word(p, w) == 64 by {
            assert(w * 64 + 64 <= cut) by (nonlinear_arith)
                requires
                    w < n - 1,
                    cut == (n - 1) * 64,
            ;
            assert(p.subrange(w * 64, w * 64 + 64) =~= inner.subrange(w * 64, w * 64 + 64));
            assert(free_in_word(inner, w) == 0 || free_in_word(inner, w) == 64);
        }
        lemma_count_whole_words(p);
        assert forall|w: int| 0 <= w < n - 1 implies #[trigger] word_slots(inner)[w] == word_slots(p)[w] by {
            assert(w * 64 + 64 <= cut) by (nonlinear_arith)
                requires
                    w < n - 1,
                    cut == (n - 1) * 64,
            ;
            if word_free(inner, w) {
                let c = choose|c: int| 0 <= c < 64 && #[trigger] inner[w * 64 + c];
                assert(p[w * 64 + c]);
            }
            if word_free(p, w) {
                let c = choose|c: int| 0 <= c < 64 && #[trigger] p[w * 64 + c];
                assert(inner[w * 64 + c]);
            }
        }
        assert(word_slots(inner).drop_last() =~= word_slots(p));
        assert(last =~= inner.subrange((n - 1) * 64, (n - 1) * 64 + 64));
        lemma_word_free_count(inner, n - 1);
        assert(free_in_word(inner, n - 1) == 0 || free_in_word(inner, n - 1) == 64);
    }
}

/// Clearing or filling word `w` leaves the free slots of every other word as
/// they were, and leaves word `w` with none or all of its slots free.
proof fn lemma_word_counts_other(inner: Seq<bool>, w: int, v: int)
    requires
        inner.len() % 64 == 0,
        0 <= w < inner.len() / 64,
        0 <= v < inner.len() / 64,
    ensures
        v != w ==> free_in_word(clear_word(inner, w), v) == free_in_word(inner, v),
        v != w ==> free_in_word(fill_word(inner, w), v) == free_in_word(inner, v),
        free_in_word(clear_word(inner, w), w) == 0,
        free_in_word(fill_word(inner, w), w) == 64,
{
    assert(v * 64 + 64 <= inner.len() && w * 64 + 64 <= inner.len()) by (nonlinear_arith)
        requires
            w < inner.len() / 64,
            v < inner.len() / 64,
            inner.len() % 64 == 0,
    ;
    if v != w {
        assert(v * 64 + 64 <= w * 64 || w * 64 + 64 <= v * 64) by (nonlinear_arith)
            requires
                v != w,
        ;
        assert(clear_word(inner, w).subrange(v * 64, v * 64 + 64) =~= inner.subrange(v * 64, v * 64 + 64));
        assert(fill_word(inner, w).subrange(v * 64, v * 64 + 64) =~= inner.subrange(v * 64, v * 64 + 64));
    }
    lemma_count_zero(clear_word(inner, w).subrange(w * 64, w * 64 + 64));
    lemma_count_full(fill_word(inner, w).subrange(w * 64, w * 64 + 64));
}

/// A wrapper around SlotPools, which retinerepts Batches as Slots,
/// allowing some performance optimizations in some cases
pub struct WordPool<P> {
    inner: P,
}

impl<P> WordPool<P> {
    /// The pool whose words this pool hands out.
    pub closed spec fn spec_inner(&self) -> P {
        self.inner
    }

    /// Creates a new WordPool instance over slot pool P
    pub(crate) fn new_in(inner: P) -> (p: Self)
        ensures
            p.spec_inner() == inner,
    {
        Self { inner }
    }
}

impl<P: BatchedRawSlotPool> SlotPoolMeta for WordPool<P> {
    closed spec fn pool_wf(&self) -> bool {
        &&& self.inner.pool_wf()
        &&& self.inner.spec_capacity() % 64 == 0
        &&& words_whole(self.inner.slots())
    }

    closed spec fn spec_len(&self) -> nat {
        self.inner.spec_len() / 64
    }

    closed spec fn spec_capacity(&self) -> nat {
        self.inner.spec_capacity() / 64
    }

    fn len(&self) -> (n: usize) {
        self.inner.len() / WORD_BITS
    }

    fn capacity(&self) -> (n: usize) {
        self.inner.capacity() / WORD_BITS
    }

    fn is_empty(&self) -> (e: bool) {
        self.inner.len() < WORD_BITS
    }

    /// Full once fewer than a word of the inner slots is taken, which is when
    /// every word is free.
    fn is_full(&self) -> (f: bool)
        ensures
            f == (self.spec_inner().spec_capacity() - self.spec_inner().spec_len() < 64),
            f == (self.spec_len() == self.spec_capacity()),
    {
        proof {
            self.inner.lemma_len();
            self.inner.lemma_slots();
            lemma_count_bounds(self.inner.slots());
            lemma_count_whole_words(self.inner.slots());
            lemma_count_bounds(word_slots(self.inner.slots()));
        }
        (self.inner.capacity() - self.inner.len()) < WORD_BITS
    }
}

/// Taking the free slots of one word changes only whether that word is free.
proof fn lemma_take_word(old_slots: Seq<bool>, new_slots: Seq<bool>, b: RawBatch)
    requires
        old_slots.len() % 64 == 0,
        whole_word_of(old_slots, b),
        b.start() % 64 == 0,
        new_slots == without_batch(old_slots, b),
    ensures
        word_slots(new_slots) == word_slots(old_slots).update(b.start() / 64, false),
        b.start() / 64 < word_slots(old_slots).len(),
        word_slots(old_slots)[b.start() / 64],
{
    let w = b.start() / 64;
    let n = old_slots.len() / 64;
    assert(w < n) by (nonlinear_arith)
        requires
            w == b.start() / 64,
            b.start() % 64 == 0,
            b.start() < old_slots.len(),
            old_slots.len() % 64 == 0,
            n == old_slots.len() / 64,
    ;
    lemma_trailing_zeros(b.bits());
    let t = b.bits().trailing_zeros() as int;
    assert(b.has(b.start() + t));
    assert(old_slots[w * 64 + t]);
    assert forall|v: int| 0 <= v < n implies #[trigger] word_slots(new_slots)[v] == word_slots(
        old_slots,
    ).update(w, false)[v] by {
        assert(v * 64 + 64 <= old_slots.len()) by (nonlinear_arith)
            requires
                v < n,
                n == old_slots.len() / 64,
                old_slots.len() % 64 == 0,
        ;
        if v == w {
            if word_free(new_slots, v) {
                let c = choose|c: int| 0 <= c < 64 && #[trigger] new_slots[v * 64 + c];
                assert(b.has(v * 64 + c));
            }
        } else {
            if word_free(new_slots, v) {
                let c = choose|c: int| 0 <= c < 64 && #[trigger] new_slots[v * 64 + c];
                assert(old_slots[v * 64 + c]);
            }
            if word_free(old_slots, v) {
                let c = choose|c: int| 0 <= c < 64 && #[trigger] old_slots[v * 64 + c];
                assert(!b.has(v * 64 + c));
                assert(new_slots[v * 64 + c]);
            }
        }
    }
    assert(word_slots(new_slots) =~= word_slots(old_slots).update(w, false));
}

/// Returning a whole word makes that word free and changes nothing else.
proof fn lemma_return_word(old_slots: Seq<bool>, new_slots: Seq<bool>, b: RawBatch)
    requires
        old_slots.len() % 64 == 0,
        b.start() % 64 == 0,
        0 <= b.start() < old_slots.len(),
        b.bits() == u64::MAX,
        new_slots == with_batch(old_slots, b),
    ensures
        word_slots(new_slots) == word_slots(old_slots).update(b.start() / 64, true),
{
    let w = b.start() / 64;
    let n = old_slots.len() / 64;
    assert forall|v: int| 0 <= v < n implies #[trigger] word_slots(new_slots)[v] == word_slots(
        old_slots,
    ).update(w, true)[v] by {
        assert(v * 64 + 64 <= old_slots.len()) by (nonlinear_arith)
            requires
                v < n,
                n == old_slots.len() / 64,
                old_slots.len() % 64 == 0,
        ;
        if v == w {
            lemma_bit_max(0);
            assert(b.has(v * 64));
            assert(new_slots[v * 64 + 0]);
        } else {
            if word_free(new_slots, v) {
                let c = choose|c: int| 0 <= c < 64 && #[trigger] new_slots[v * 64 + c];
                assert(!b.has(v * 64 + c));
                assert(old_slots[v * 64 + c]);
            }
            if word_free(old_slots, v) {
                let c = choose|c: int| 0 <= c < 64 && #[trigger] old_slots[v * 64 + c];
                assert(new_slots[v * 64 + c]);
            }
        }
    }
    assert(word_slots(new_slots) =~= word_slots(old_slots).update(w, true));
}

impl<P: BatchedRawSlotPool> RawSlotPool for WordPool<P> {
    closed spec fn slots(&self) -> Seq<bool> {
        word_slots(self.inner.slots())
    }

    closed spec fn spec_id(&self) -> ID {
        self.inner.spec_id()
    }

    proof fn lemma_slots(&self) {
        self.inner.lemma_slots();
    }

    proof fn lemma_len(&self) {
        self.inner.lemma_len();
        self.inner.lemma_slots();
        lemma_count_whole_words(self.inner.slots());
    }

    /// The word handed out is the word of a batch that the inner pool may hand
    /// out.
    open spec fn may_pull(&self, i: int) -> bool {
        exists|b: RawBatch|
            #[trigger] self.spec_inner().may_pull_batch(b) && b.start() == i * 64 && whole_word_of(self.spec_inner().slots(), b)
    }

    /// Takes the free slots of a word of the inner pool and hands out that word.
    fn pull_raw(&mut self) -> (r: Option<usize>)
        ensures
            r is None ==> final(self).spec_inner().slots() == old(self).spec_inner().slots(),
            r is Some ==> final(self).spec_inner().slots() == clear_word(old(self).spec_inner().slots(), r->0 as int),
            r is Some ==> final(self).spec_inner().spec_len() + free_in_word(old(self).spec_inner().slots(), r->0 as int)
                == old(self).spec_inner().spec_len(),
    {
        proof {
            self.inner.lemma_slots();
        }
        let inner_batch = match self.inner.pull_raw_batch() {
            Some(b) => b,
            None => {
                proof {
                    let s = old(self).inner.slots();
                    assert forall|w: int| 0 <= w < word_slots(s).len() implies !word_slots(s)[w] by {
                        if word_free(s, w) {
                            let c = choose|c: int| 0 <= c < 64 && #[trigger] s[w * 64 + c];
                            assert(w * 64 + 64 <= s.len()) by (nonlinear_arith)
                                requires
                                    w < s.len() / 64,
                                    s.len() % 64 == 0,
                            ;
                        }
                    }
                }
                return None;
            },
        };
        let start = inner_batch.starting_idx();
        let word_idx = start / WORD_BITS;
        proof {
            let before = old(self).inner.slots();
            lemma_take_word(before, self.inner.slots(), inner_batch);
            assert(word_idx * 64 == start);
            assert(word_idx * 64 + 64 <= before.len()) by (nonlinear_arith)
                requires
                    word_idx * 64 == start,
                    start < before.len(),
                    before.len() % 64 == 0,
            ;
            assert(self.inner.slots() =~= clear_word(before, word_idx as int));
            law_words_whole_kept(before, word_idx as int);
            lemma_word_counts(before, word_idx as int);
            old(self).inner.lemma_len();
            self.inner.lemma_len();
            assert(old(self).spec_inner().may_pull_batch(inner_batch));
        }
        Some(word_idx)
    }

    /// Every word is taken back.
    open spec fn put_frees(&self, index: int) -> bool {
        true
    }

    proof fn lemma_put_frees(&self, index: int) {
    }

    /// Returns all slots of word `index` to the inner pool.
    fn put_raw(&mut self, index: usize) -> (freed: bool)
        ensures
            freed,
            final(self).spec_inner().slots() == fill_word(old(self).spec_inner().slots(), index as int),
            final(self).spec_inner().spec_len() + free_in_word(old(self).spec_inner().slots(), index as int)
                == old(self).spec_inner().spec_len() + 64,
    {
        proof {
            self.inner.lemma_slots();
            assert(index * 64 + 64 <= self.inner.spec_capacity()) by (nonlinear_arith)
                requires
                    index < self.inner.spec_capacity() / 64,
                    self.inner.spec_capacity() % 64 == 0,
            ;
        }
        let bit_idx = index * WORD_BITS;
        let full_word_batch = RawBatch::new(bit_idx, Word::MAX);
        proof {
            assert forall|i: int| #[trigger] full_word_batch.has(i) implies i < self.inner.spec_capacity() by {
            }
        }
        let done = self.inner.put_raw_batch(full_word_batch);
        proof {
            let before = old(self).inner.slots();
            lemma_return_word(before, self.inner.slots(), full_word_batch);
            assert forall|i: int| 0 <= i < before.len() implies self.inner.slots()[i] == fill_word(before, index as int)[i] by {
                if bit_idx <= i < bit_idx + 64 {
                    lemma_bit_max(i - bit_idx);
                }
            }
            assert(self.inner.slots() =~= fill_word(before, index as int));
            law_words_whole_kept(before, index as int);
            lemma_word_counts(before, index as int);
            old(self).inner.lemma_len();
            self.inner.lemma_len();
        }
        done
    }
}

impl<P: BatchedSlotPool> SlotPool for WordPool<P> {
    fn id(&self) -> (id: ID) {
        self.inner.id()
    }

    /// Returns the word of a handle of this pool; every word of the pool is
    /// taken back, whether it was handed out or not.
    fn put(&mut self, index: SlotHandle) -> (r: Result<(), SlotHandle>)
        ensures
            r is Ok == (index.spec_id() == old(self).spec_id() && index.spec_slot() < old(self).spec_capacity()),
    {
        if *index.id() != self.id() {
            return Err(index);
        }
        if index.as_usize() >= self.capacity() {
            return Err(index);
        }
        if self.put_raw(index.as_usize()) {
            Ok(())
        } else {
            Err(index)
        }
    }
}

impl<const BIT_CAPACITY: usize, const SHARDS: usize, const WORDS_PER_SHARD: usize> WordPool<InlineSlots<BIT_CAPACITY, SHARDS, WORDS_PER_SHARD, AutoCoherenceProvider>> {
    /// Constructs a new Inlined Word Pool; all its words are free.
    pub fn new(id: ID) -> (pool: Self)
        requires
            inline_layout_ok(BIT_CAPACITY as int, SHARDS as int, WORDS_PER_SHARD as int),
            BIT_CAPACITY % 64 == 0,
        ensures
            pool.pool_wf(),
            pool.slots() == Seq::new((BIT_CAPACITY / 64) as nat, |w: int| true),
            pool.spec_capacity() == BIT_CAPACITY / 64,
            pool.spec_len() == BIT_CAPACITY / 64,
            pool.spec_id() == id,
            words_whole(pool.spec_inner().slots()),
    {
        Self::with_coherence_provider(id)
    }

    /// Constructs a new inlined word pool with the specified coherence provider.
    pub fn with_coherence_provider<C: CoherenceProvider + Default>(id: ID) -> (pool: WordPool<InlineSlots<BIT_CAPACITY, SHARDS, WORDS_PER_SHARD, C>>)
        requires
            inline_layout_ok(BIT_CAPACITY as int, SHARDS as int, WORDS_PER_SHARD as int),
            BIT_CAPACITY % 64 == 0,
        ensures
            pool.pool_wf(),
            pool.slots() == Seq::new((BIT_CAPACITY / 64) as nat, |w: int| true),
            pool.spec_capacity() == BIT_CAPACITY / 64,
            pool.spec_len() == BIT_CAPACITY / 64,
            pool.spec_id() == id,
            words_whole(pool.spec_inner().slots()),
    {
        let pool = WordPool::new_in(InlineSlots::with_coherence_provider(id));
        proof {
            lemma_all_words_free(pool.inner.slots());
        }
        pool
    }
}

/// When every slot is free, so is every word.
proof fn lemma_all_words_free(s: Seq<bool>)
    requires
        forall|i: int| 0 <= i < s.len() ==> s[i],
        s.len() % 64 == 0,
    ensures
        word_slots(s) == Seq::new(s.len() / 64, |w: int| true),
        words_whole(s),
{
    assert forall|w: int| 0 <= w < s.len() / 64 implies #[trigger] free_in_word(s, w) == 64 by {
        assert(w * 64 + 64 <= s.len()) by (nonlinear_arith)
            requires
                w < s.len() / 64,
                s.len() % 64 == 0,
        ;
        lemma_count_full(s.subrange(w * 64, w * 64 + 64));
    }
    assert forall|w: int| 0 <= w < s.len() / 64 implies #[trigger] word_slots(s)[w] by {
        assert(w * 64 + 64 <= s.len()) by (nonlinear_arith)
            requires
                w < s.len() / 64,
                s.len() % 64 == 0,
        ;
        assert(s[w * 64 + 0]);
    }
    assert(word_slots(s) =~= Seq::new(s.len() / 64, |w: int| true));
}

/// Taking or returning a word keeps every word wholly free or wholly taken.
pub proof fn law_words_whole_kept(inner: Seq<bool>, w: int)
    requires
        inner.len() % 64 == 0,
        words_whole(inner),
        0 <= w < inner.len() / 64,
    ensures
        words_whole(clear_word(inner, w)),
        words_whole(fill_word(inner, w)),
{
    assert forall|v: int| 0 <= v < clear_word(inner, w).len() / 64 implies #[trigger] free_in_word(clear_word(inner, w), v) == 0
        || free_in_word(clear_word(inner, w), v) == 64 by {
        lemma_word_counts_other(inner, w, v);
    }
    assert forall|v: int| 0 <= v < fill_word(inner, w).len() / 64 implies #[trigger] free_in_word(fill_word(inner, w), v) == 0
        || free_in_word(fill_word(inner, w), v) == 64 by {
        lemma_word_counts_other(inner, w, v);
    }
}

/// A word that `pull_raw` hands out held all its inner slots (every word of a
/// word pool is wholly free or wholly taken), and `put_raw` of that word
/// afterwards restores the inner slots, the free words and the length.
pub proof fn law_word_pull_put_restores<P: BatchedRawSlotPool>(
    before: WordPool<P>,
    mid: WordPool<P>,
    after: WordPool<P>,
    w: int,
)
    requires
        before.pool_wf(),
        0 <= w < before.slots().len(),
        before.slots()[w],
        mid.spec_inner().slots() == clear_word(before.spec_inner().slots(), w),
        mid.spec_inner().spec_len() + free_in_word(before.spec_inner().slots(), w) == before.spec_inner().spec_len(),
        after.spec_inner().slots() == fill_word(mid.spec_inner().slots(), w),
        after.spec_inner().spec_len() + free_in_word(mid.spec_inner().slots(), w) == mid.spec_inner().spec_len() + 64,
    ensures
        free_in_word(before.spec_inner().slots(), w) == 64,
        after.spec_inner().slots() == before.spec_inner().slots(),
        after.spec_inner().spec_len() == before.spec_inner().spec_len(),
        after.spec_len() == before.spec_len(),
        after.slots() == before.slots(),
{
    let inner = before.inner.slots();
    before.inner.lemma_slots();
    assert(w * 64 + 64 <= inner.len()) by (nonlinear_arith)
        requires
            w < inner.len() / 64,
            inner.len() % 64 == 0,
    ;
    let c = choose|c: int| 0 <= c < 64 && #[trigger] inner[w * 64 + c];
    assert(inner.subrange(w * 64, w * 64 + 64)[c]);
    lemma_count_zero(inner.subrange(w * 64, w * 64 + 64));
    assert(free_in_word(inner, w) == 64);
    lemma_word_counts_other(inner, w, w);
    assert forall|i: int| 0 <= i < inner.len() implies fill_word(clear_word(inner, w), w)[i] == inner[i] by {
        if w * 64 <= i < w * 64 + 64 {
            assert(inner.subrange(w * 64, w * 64 + 64)[i - w * 64] == inner[i]);
            if !inner[i] {
                let s = inner.subrange(w * 64, w * 64 + 64);
                crate::bits::lemma_count_update(s, i - w * 64, true);
                crate::bits::lemma_count_bounds(s.update(i - w * 64, true));
            }
        }
    }
    assert(fill_word(clear_word(inner, w), w) =~= inner);
}

/// A word-granularity heap-allocated slot storage.
/// Slots are stored as words.
pub type WordSlots<C = AutoCoherenceProvider> = WordPool<Slots<C>>;

impl WordPool<Slots<AutoCoherenceProvider>> {
    /// Constructs a new `WordSlots` instance of `size` words; all are free.
    pub fn new(size: usize, id: ID) -> (pool: Self)
        requires
            0 < size,
            size * 64 <= usize::MAX / 2,
        ensures
            pool.pool_wf(),
            pool.slots() == Seq::new(size as nat, |w: int| true),
            pool.spec_capacity() == size,
            pool.spec_len() == size,
            pool.spec_id() == id,
            words_whole(pool.spec_inner().slots()),
    {
        Self::with_coherence_provider(size, id)
    }

    /// Constructs a new `WordSlots` instance with specified coherence provider.
    pub fn with_coherence_provider<C: CoherenceProvider + Default>(size: usize, id: ID) -> (pool: WordSlots<C>)
        requires
            0 < size,
            size * 64 <= usize::MAX / 2,
        ensures
            pool.pool_wf(),
            pool.slots() == Seq::new(size as nat, |w: int| true),
            pool.spec_capacity() == size,
            pool.spec_len() == size,
            pool.spec_id() == id,
            words_whole(pool.spec_inner().slots()),
    {
        let pool = WordPool::new_in(Slots::with_coherence_provider(size * WORD_BITS, id));
        proof {
            lemma_all_words_free(pool.inner.slots());
        }
        pool
    }
}

} // verus!
