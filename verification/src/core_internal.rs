//! Handles, identifiers and batches: the values a slot pool hands out.
use vstd::prelude::*;

use crate::bits::{
    bit_set,
    count_ones,
    lemma_bit_xor,
    lemma_clear_lowest,
    lemma_popcount_bound,
    lemma_popcount_clear_lowest,
    lemma_popcount_split,
    lemma_popcount_zero,
    lemma_trailing_zeros,
    popcount,
};

verus! {

/// The basic underlying storage unit.
pub type Word = u64;

/// The number of slots held by one `Word`.
pub const WORD_BITS: usize = 64;

/// The ID associated with a `SlotPool` and the slots handed out by it.
#[derive(Clone, Copy, Debug, PartialEq, Eq, Structural, PartialOrd, Ord, Hash)]
pub struct ID {
    repr: Word,
}

impl ID {
    /// The raw word this ID was made from.
    pub closed spec fn spec_repr(self) -> Word {
        self.repr
    }

    /// Constructs an `ID` from a raw `Word`.
    pub fn from_raw(raw: Word) -> (id: Self)
        ensures
            id.spec_repr() == raw,
    {
        Self { repr: raw }
    }

    /// The raw word of this ID.
    pub fn as_raw(&self) -> (raw: Word)
        ensures
            raw == self.spec_repr(),
    {
        self.repr
    }

    /// Another value of the same ID.
    pub fn clone(&self) -> (id: Self)
        ensures
            id == *self,
    {
        Self { repr: self.repr }
    }

    /// IDs are equal exactly when their raw words are.
    pub proof fn lemma_repr_injective(a: ID, b: ID)
        ensures
            (a == b) <==> (a.spec_repr() == b.spec_repr()),
    {
    }
}

/// An owned handle for an allocated slot in a storage.
///
/// This handle cannot be cloned or copied, as it should be returned exactly once to the storage which produced it.
#[derive(Debug, PartialEq, Eq, Structural, Hash)]
pub struct SlotHandle {
    pool_id: ID,
    slot: usize,
}

impl SlotHandle {
    /// The ID of the pool that handed out this slot.
    pub closed spec fn spec_id(&self) -> ID {
        self.pool_id
    }

    /// The slot index of this handle.
    pub closed spec fn spec_slot(&self) -> nat {
        self.slot as nat
    }

    pub(crate) fn new(idx: usize, id: ID) -> (h: Self)
        ensures
            h.spec_id() == id,
            h.spec_slot() == idx,
    {
        Self { pool_id: id, slot: idx }
    }

    pub(crate) fn id(&self) -> (id: &ID)
        ensures
            *id == self.spec_id(),
    {
        &self.pool_id
    }

    /// Constructs a SlotHandle from an ID and a slot.
    ///
    /// Constructing a handle this way is always possible; a pool accepts it back
    /// only under the conditions its `put` states.
    pub fn from_raw(pool_id: ID, slot: usize) -> (h: Self)
        ensures
            h.spec_id() == pool_id,
            h.spec_slot() == slot,
    {
        Self { pool_id, slot }
    }

    /// returns the underlying slot index of this handle
    pub fn as_usize(&self) -> (slot: usize)
        ensures
            slot == self.spec_slot(),
    {
        self.slot
    }
}

/// A raw acquired word.
/// A batch may contain between 0 and `Word::BITS` slots.
///
/// It covers the `Word::BITS` slots that start at its word-aligned starting
/// index; the mask tells which of them it holds.
#[derive(Clone, Copy, Debug, PartialEq, Eq, Structural, PartialOrd, Ord, Hash)]
pub struct RawBatch {
    pub(crate) starting_idx: usize,
    pub(crate) mask: Word,
}

/// The first slot of every batch is word aligned, and all its slots are
/// representable as `usize`.
pub open spec fn batch_start_ok(start: int) -> bool {
    &&& start % 64 == 0
    &&& 0 <= start
    &&& start + 64 <= usize::MAX
}

impl RawBatch {
    #[verifier::type_invariant]
    spec fn inv(self) -> bool {
        batch_start_ok(self.starting_idx as int)
    }

    /// The first slot that this batch covers.
    pub closed spec fn start(self) -> int {
        self.starting_idx as int
    }

    /// The first slot is an index.
    pub proof fn lemma_start(self)
        ensures
            0 <= self.start() <= usize::MAX,
    {
    }

    /// Which of the covered slots this batch holds, as a mask.
    pub closed spec fn bits(self) -> Word {
        self.mask
    }

    /// Whether this batch holds slot `i`.
    pub open spec fn has(self, i: int) -> bool {
        self.start() <= i < self.start() + 64 && bit_set(self.bits(), i - self.start())
    }

    /// The number of slots this batch holds.
    pub open spec fn spec_count(self) -> nat {
        popcount(self.bits())
    }

    pub(crate) fn new(starting_idx: usize, mask: Word) -> (b: Self)
        requires
            batch_start_ok(starting_idx as int),
        ensures
            b.start() == starting_idx,
            b.bits() == mask,
    {
        RawBatch { starting_idx, mask }
    }

    pub(crate) fn starting_idx(&self) -> (s: usize)
        ensures
            s == self.start(),
            batch_start_ok(self.start()),
    {
        proof {
            use_type_invariant(self);
        }
        self.starting_idx
    }

    pub(crate) fn mask(&self) -> (m: Word)
        ensures
            m == self.bits(),
    {
        self.mask
    }

    /// Counts the number of acquired slots in this batch
    pub fn count(&self) -> (n: usize)
        ensures
            n == self.spec_count(),
            n <= 64,
    {
        proof {
            lemma_popcount_bound(self.mask);
        }
        count_ones(self.mask) as usize
    }

    /// Is this batch empty?
    pub fn is_empty(&self) -> (e: bool)
        ensures
            e == (self.spec_count() == 0),
            e == (self.bits() == 0),
    {
        proof {
            lemma_popcount_zero(self.mask);
        }
        self.mask == 0
    }

    /// Splits the batch into two batches of sizes `n`, `self.count() - n`.
    /// If `n` >= `self.count()`, returns `(self, None)`.
    ///
    /// Splits into (high bits, low bits).
    pub fn split_at(self, n: usize) -> (res: (Self, Option<Self>))
        ensures
            n >= self.spec_count() ==> res.0 == self && res.1 is None,
            n < self.spec_count() ==> res.1 is Some && split_parts(self, n as nat, res.0, res.1->0),
    {
        proof {
            use_type_invariant(&self);
            lemma_popcount_bound(self.mask);
        }
        let total = self.count();
        if n >= total {
            return (self, None);
        }
        if n == 0 {
            proof {
                lemma_popcount_zero(0u64);
                assert forall|c: int| #[trigger] bit_set(self.mask, c) == (bit_set(0u64, c) || bit_set(self.mask, c)) by {
                    crate::bits::lemma_bit_zero(c);
                }
                assert forall|c: int| !(#[trigger] bit_set(0u64, c) && bit_set(self.mask, c)) by {
                    crate::bits::lemma_bit_zero(c);
                }
            }
            return (RawBatch { starting_idx: self.starting_idx, mask: 0 }, Some(self));
        }
        // Clear the lowest set bits until exactly `n` (the highest ones) remain.
        let mut high: Word = self.mask;
        let mut k: usize = 0;
        while k < total - n
            invariant
                k <= total - n,
                n < total,
                total == popcount(self.mask),
                popcount(high) + k == total,
                forall|c: int| #[trigger] bit_set(high, c) ==> bit_set(self.mask, c),
                forall|a: int, b: int|
                    #![trigger bit_set(high, a), bit_set(self.mask, b)]
                    bit_set(high, a) && bit_set(self.mask, b) && !bit_set(high, b) ==> b < a,
            decreases total - n - k,
        {
            proof {
                lemma_popcount_zero(high);
            }
            let lowered = high - 1;
            let next = high & lowered;
            proof {
                lemma_popcount_clear_lowest(high, lowered);
                lemma_trailing_zeros(high);
                let t = high.trailing_zeros() as int;
                assert forall|c: int| #[trigger] bit_set(next, c) implies bit_set(self.mask, c) by {
                    lemma_clear_lowest(high, lowered, c);
                }
                assert forall|a: int, b: int|
                    #![trigger bit_set(next, a), bit_set(self.mask, b)]
                    bit_set(next, a) && bit_set(self.mask, b) && !bit_set(next, b) implies b < a by {
                    lemma_clear_lowest(high, lowered, a);
                    lemma_clear_lowest(high, lowered, b);
                    if b != t {
                        assert(bit_set(high, a) && bit_set(self.mask, b) && !bit_set(high, b));
                    } else {
                        if a < t {
                            assert(!bit_set(high, a));
                        }
                    }
                }
            }
            high = next;
            k = k + 1;
        }
        let low = self.mask ^ high;
        proof {
            lemma_popcount_split(self.mask, high);
            assert forall|c: int| #[trigger] bit_set(self.mask, c) == (bit_set(high, c) || bit_set(low, c)) by {
                lemma_bit_xor(self.mask, high, c);
            }
            assert forall|c: int| !(#[trigger] bit_set(high, c) && bit_set(low, c)) by {
                lemma_bit_xor(self.mask, high, c);
            }
            assert forall|a: int, b: int|
                #![trigger bit_set(high, a), bit_set(low, b)]
                bit_set(high, a) && bit_set(low, b) implies b < a by {
                lemma_bit_xor(self.mask, high, b);
            }
        }
        (
            RawBatch { starting_idx: self.starting_idx, mask: high },
            Some(RawBatch { starting_idx: self.starting_idx, mask: low }),
        )
    }

    /// An iterator over the slots of this batch, lowest first.
    pub fn into_iter(self) -> (it: RawBatchIter)
        ensures
            it.remaining() == self,
    {
        RawBatchIter { batch: self }
    }
}

/// `l` and `r` split the slots of `whole`: `l` holds its `n` highest slots and
/// `r` the others.
pub open spec fn split_parts(whole: RawBatch, n: nat, l: RawBatch, r: RawBatch) -> bool {
    &&& l.start() == whole.start()
    &&& r.start() == whole.start()
    &&& forall|c: int| #[trigger] bit_set(whole.bits(), c) == (bit_set(l.bits(), c) || bit_set(r.bits(), c))
    &&& forall|c: int| !(#[trigger] bit_set(l.bits(), c) && bit_set(r.bits(), c))
    &&& forall|a: int, b: int| #![trigger bit_set(l.bits(), a), bit_set(r.bits(), b)]
        bit_set(l.bits(), a) && bit_set(r.bits(), b) ==> b < a
    &&& l.spec_count() == n
    &&& r.spec_count() + n == whole.spec_count()
}

/// The part of a split that holds the `n` highest slots takes every slot of
/// the batch above one of its own.
proof fn lemma_split_upward(whole: RawBatch, n: nat, l: RawBatch, r: RawBatch, a: int, b: int)
    requires
        split_parts(whole, n, l, r),
        bit_set(l.bits(), a),
        bit_set(whole.bits(), b),
        a < b,
    ensures
        bit_set(l.bits(), b),
{
    if !bit_set(l.bits(), b) {
        assert(bit_set(r.bits(), b));
    }
}

/// A split is determined by the batch and the number of slots asked for: any
/// two splits of `whole` at `n` give the same parts, so `Batch::split_at` and
/// `RawBatch::split_at` of the same slots agree.
pub proof fn law_split_unique(whole: RawBatch, n: nat, l1: RawBatch, r1: RawBatch, l2: RawBatch, r2: RawBatch)
    requires
        split_parts(whole, n, l1, r1),
        split_parts(whole, n, l2, r2),
    ensures
        l1 == l2,
        r1 == r2,
{
    // The higher parts are nested: neither holds a slot that the other lacks
    // while lacking one that the other holds.
    let nested12 = forall|c: int| #[trigger] bit_set(l1.bits(), c) ==> bit_set(l2.bits(), c);
    let nested21 = forall|c: int| #[trigger] bit_set(l2.bits(), c) ==> bit_set(l1.bits(), c);
    if !nested12 && !nested21 {
        let c1 = choose|c: int| #[trigger] bit_set(l1.bits(), c) && !bit_set(l2.bits(), c);
        let c2 = choose|c: int| #[trigger] bit_set(l2.bits(), c) && !bit_set(l1.bits(), c);
        assert(bit_set(whole.bits(), c1) && bit_set(whole.bits(), c2));
        if c1 < c2 {
            lemma_split_upward(whole, n, l1, r1, c1, c2);
        } else {
            lemma_split_upward(whole, n, l2, r2, c2, c1);
        }
    }
    if nested12 {
        lemma_popcount_split(l2.bits(), l1.bits());
        lemma_popcount_zero(l2.bits() ^ l1.bits());
        assert forall|c: int| 0 <= c < 64 implies bit_set(l1.bits(), c) == bit_set(l2.bits(), c) by {
            lemma_bit_xor(l2.bits(), l1.bits(), c);
            crate::bits::lemma_bit_zero(c);
        }
    } else {
        lemma_popcount_split(l1.bits(), l2.bits());
        lemma_popcount_zero(l1.bits() ^ l2.bits());
        assert forall|c: int| 0 <= c < 64 implies bit_set(l1.bits(), c) == bit_set(l2.bits(), c) by {
            lemma_bit_xor(l1.bits(), l2.bits(), c);
            crate::bits::lemma_bit_zero(c);
        }
    }
    crate::bits::lemma_word_ext(l1.bits(), l2.bits());
    assert forall|c: int| 0 <= c < 64 implies bit_set(r1.bits(), c) == bit_set(r2.bits(), c) by {
        assert(bit_set(whole.bits(), c) == (bit_set(l1.bits(), c) || bit_set(r1.bits(), c)));
        assert(bit_set(whole.bits(), c) == (bit_set(l2.bits(), c) || bit_set(r2.bits(), c)));
        assert(!(bit_set(l1.bits(), c) && bit_set(r1.bits(), c)));
        assert(!(bit_set(l2.bits(), c) && bit_set(r2.bits(), c)));
    }
    crate::bits::lemma_word_ext(r1.bits(), r2.bits());
}

/// Two strictly increasing sequences that hold the same values are equal.
proof fn lemma_sorted_same(a: Seq<int>, b: Seq<int>)
    requires
        forall|k1: int, k2: int| 0 <= k1 < k2 < a.len() ==> #[trigger] a[k1] < #[trigger] a[k2],
        forall|k1: int, k2: int| 0 <= k1 < k2 < b.len() ==> #[trigger] b[k1] < #[trigger] b[k2],
        forall|x: int| a.contains(x) <==> b.contains(x),
    ensures
        a == b,
    decreases a.len(),
{
    if a.len() == 0 {
        if b.len() > 0 {
            assert(b.contains(b[0]));
        }
        assert(a =~= b);
    } else {
        assert(a.contains(a[0]));
        if b.len() == 0 {
            assert(false);
        }
        assert(b.contains(b[0]));
        let j = choose|j: int| 0 <= j < b.len() && b[j] == a[0];
        let i = choose|i: int| 0 <= i < a.len() && a[i] == b[0];
        if j > 0 {
            assert(b[0] < b[j]);
        }
        if i > 0 {
            assert(a[0] < a[i]);
        }
        assert(a[0] == b[0]);
        let a1 = a.drop_first();
        let b1 = b.drop_first();
        assert forall|x: int| a1.contains(x) implies b1.contains(x) by {
            let k = choose|k: int| 0 <= k < a1.len() && a1[k] == x;
            assert(a[k + 1] == x);
            assert(a[0] < a[k + 1]);
            assert(b.contains(x));
            let m = choose|m: int| 0 <= m < b.len() && b[m] == x;
            assert(m != 0);
            assert(b1[m - 1] == x);
        }
        assert forall|x: int| b1.contains(x) implies a1.contains(x) by {
            let k = choose|k: int| 0 <= k < b1.len() && b1[k] == x;
            assert(b[k + 1] == x);
            assert(b[0] < b[k + 1]);
            assert(a.contains(x));
            let m = choose|m: int| 0 <= m < a.len() && a[m] == x;
            assert(m != 0);
            assert(a1[m - 1] == x);
        }
        assert forall|k1: int, k2: int| 0 <= k1 < k2 < a1.len() implies #[trigger] a1[k1] < #[trigger] a1[k2] by {
            assert(a[k1 + 1] < a[k2 + 1]);
        }
        assert forall|k1: int, k2: int| 0 <= k1 < k2 < b1.len() implies #[trigger] b1[k1] < #[trigger] b1[k2] by {
            assert(b[k1 + 1] < b[k2 + 1]);
        }
        lemma_sorted_same(a1, b1);
        assert(a.len() == b.len());
        assert forall|k: int| 0 <= k < a.len() implies a[k] == b[k] by {
            if k > 0 {
                assert(a[k] == a1[k - 1] && b[k] == b1[k - 1]);
            }
        }
        assert(a =~= b);
    }
}

/// Iterating a batch and iterating its raw batch hand out the same slots in
/// the same order: the handles that `BatchIter::collect_vec` gives name, one by
/// one, the slots that `RawBatchIter::collect_vec` gives for the same batch.
pub proof fn law_batch_items_agree(r: RawBatch, raw: Seq<usize>, hs: Seq<SlotHandle>)
    requires
        raw.len() == r.spec_count(),
        forall|k: int| 0 <= k < raw.len() ==> r.has(#[trigger] raw[k] as int),
        forall|k1: int, k2: int| 0 <= k1 < k2 < raw.len() ==> #[trigger] raw[k1] < #[trigger] raw[k2],
        forall|i: int| #[trigger] r.has(i) ==> raw.contains(i as usize),
        hs.len() == r.spec_count(),
        forall|k: int| 0 <= k < hs.len() ==> r.has((#[trigger] hs[k]).spec_slot() as int),
        forall|k1: int, k2: int| 0 <= k1 < k2 < hs.len() ==> (#[trigger] hs[k1]).spec_slot() < (#[trigger] hs[k2]).spec_slot(),
        forall|i: int| #[trigger] r.has(i) ==> exists|k: int| 0 <= k < hs.len() && (#[trigger] hs[k]).spec_slot() == i,
    ensures
        forall|k: int| 0 <= k < hs.len() ==> (#[trigger] hs[k]).spec_slot() == raw[k],
{
    let a = Seq::new(raw.len(), |k: int| raw[k] as int);
    let b = Seq::new(hs.len(), |k: int| hs[k].spec_slot() as int);
    assert forall|x: int| a.contains(x) implies b.contains(x) by {
        let k = choose|k: int| 0 <= k < a.len() && a[k] == x;
        assert(r.has(raw[k] as int));
        let m = choose|m: int| 0 <= m < hs.len() && (#[trigger] hs[m]).spec_slot() == x;
        assert(b[m] == x);
    }
    assert forall|x: int| b.contains(x) implies a.contains(x) by {
        let k = choose|k: int| 0 <= k < b.len() && b[k] == x;
        assert(r.has(hs[k].spec_slot() as int));
        assert(raw.contains(x as usize));
        let m = choose|m: int| 0 <= m < raw.len() && raw[m] == x as usize;
        assert(a[m] == x);
    }
    assert forall|k1: int, k2: int| 0 <= k1 < k2 < a.len() implies #[trigger] a[k1] < #[trigger] a[k2] by {
        assert(raw[k1] < raw[k2]);
    }
    assert forall|k1: int, k2: int| 0 <= k1 < k2 < b.len() implies #[trigger] b[k1] < #[trigger] b[k2] by {
        assert(hs[k1].spec_slot() < hs[k2].spec_slot());
    }
    lemma_sorted_same(a, b);
    assert forall|k: int| 0 <= k < hs.len() implies (#[trigger] hs[k]).spec_slot() == raw[k] by {
        assert(a[k] == b[k]);
    }
}

/// An Iterator over a `RawBatch`
#[derive(Clone, Debug)]
pub struct RawBatchIter {
    batch: RawBatch,
}

impl RawBatchIter {
    /// The slots not handed out yet.
    pub closed spec fn remaining(&self) -> RawBatch {
        self.batch
    }

    /// The lowest remaining slot, if any; it is removed from the remaining ones.
    pub fn next(&mut self) -> (item: Option<usize>)
        ensures
            final(self).remaining().start() == old(self).remaining().start(),
            old(self).remaining().bits() == 0 ==> item is None && *final(self) == *old(self),
            old(self).remaining().bits() != 0 ==> {
                &&& item is Some
                &&& old(self).remaining().has(item->0 as int)
                &&& forall|i: int| #[trigger] old(self).remaining().has(i) ==> item->0 <= i
                &&& forall|i: int| #[trigger] final(self).remaining().has(i) == (old(self).remaining().has(i) && i != item->0)
                &&& final(self).remaining().spec_count() + 1 == old(self).remaining().spec_count()
            },
    {
        if self.batch.mask == 0 {
            None
        } else {
            proof {
                use_type_invariant(&self.batch);
            }
            let m = self.batch.mask;
            let bit = m.trailing_zeros() as usize;
            let lowered = m - 1;
            proof {
                lemma_trailing_zeros(m);
                lemma_popcount_clear_lowest(m, lowered);
                assert forall|c: int| #[trigger] bit_set(m & lowered, c) == (bit_set(m, c) && c != bit) by {
                    lemma_clear_lowest(m, lowered, c);
                }
            }
            self.batch = RawBatch { starting_idx: self.batch.starting_idx, mask: m & lowered };
            Some(self.batch.starting_idx + bit)
        }
    }

    /// The exact number of remaining slots, as lower and upper bound.
    pub fn size_hint(&self) -> (hint: (usize, Option<usize>))
        ensures
            hint.0 == self.remaining().spec_count(),
            hint.1 == Some(hint.0),
    {
        let len = self.batch.count();
        (len, Some(len))
    }

    /// All remaining slots, in the order `next` hands them out: each slot of
    /// the batch once, lowest first, as many as `size_hint` counts. Nothing
    /// remains afterwards, so `next` answers `None`.
    pub fn collect_vec(&mut self) -> (v: Vec<usize>)
        ensures
            v.len() == old(self).remaining().spec_count(),
            forall|k: int| 0 <= k < v.len() ==> old(self).remaining().has(#[trigger] v@[k] as int),
            forall|k1: int, k2: int| 0 <= k1 < k2 < v.len() ==> #[trigger] v@[k1] < #[trigger] v@[k2],
            forall|i: int| #[trigger] old(self).remaining().has(i) ==> v@.contains(i as usize),
            final(self).remaining().start() == old(self).remaining().start(),
            final(self).remaining().bits() == 0,
    {
        let ghost first = self.remaining();
        let mut v: Vec<usize> = Vec::new();
        loop
            invariant
                self.remaining().start() == first.start(),
                v.len() + self.remaining().spec_count() == first.spec_count(),
                forall|i: int| #[trigger] self.remaining().has(i) ==> first.has(i),
                forall|k: int| 0 <= k < v.len() ==> first.has(#[trigger] v@[k] as int) && !self.remaining().has(v@[k] as int),
                forall|k1: int, k2: int| 0 <= k1 < k2 < v.len() ==> #[trigger] v@[k1] < #[trigger] v@[k2],
                forall|k: int, i: int| 0 <= k < v.len() && #[trigger] self.remaining().has(i) ==> #[trigger] v@[k] < i,
                forall|i: int| #[trigger] first.has(i) && !self.remaining().has(i) ==> v@.contains(i as usize),
            ensures
                self.remaining().bits() == 0,
            decreases self.remaining().spec_count(),
        {
            proof {
                lemma_popcount_zero(self.remaining().bits());
            }
            let ghost prev = self.remaining();
            let ghost prev_v = v@;
            match self.next() {
                Some(x) => {
                    v.push(x);
                    proof {
                        assert(v@[v.len() - 1] == x);
                        assert forall|i: int| #[trigger] first.has(i) && !self.remaining().has(i) implies v@.contains(i as usize) by {
                            if i == x {
                                assert(v@[v.len() - 1] == i as usize);
                            } else {
                                assert(!prev.has(i));
                                let k = choose|k: int| 0 <= k < prev_v.len() && prev_v[k] == i as usize;
                                assert(v@[k] == i as usize);
                            }
                        }
                        assert forall|k: int, i: int| 0 <= k < v.len() && #[trigger] self.remaining().has(i) implies #[trigger] v@[k] < i by {
                            assert(prev.has(i));
                            if k < v.len() - 1 {
                                assert(v@[k] == prev_v[k]);
                            }
                        }
                        assert forall|k1: int, k2: int| 0 <= k1 < k2 < v.len() implies #[trigger] v@[k1] < #[trigger] v@[k2] by {
                            assert(v@[k1] == prev_v[k1]);
                            if k2 < v.len() - 1 {
                                assert(v@[k2] == prev_v[k2]);
                            } else {
                                assert(prev.has(x as int));
                            }
                        }
                    }
                },
                None => {
                    break;
                },
            }
        }
        proof {
            assert forall|i: int| #[trigger] first.has(i) implies v@.contains(i as usize) by {
                crate::bits::lemma_bit_zero(i - first.start());
                assert(!self.remaining().has(i));
            }
            lemma_popcount_zero(0u64);
        }
        v
    }
}

/// An acquired word.
/// A `Batch` may contain between 0 and `Word::BITS` slots.
pub struct Batch {
    raw: RawBatch,
    id: ID,
}

impl Batch {
    /// The slots of this batch.
    pub closed spec fn spec_raw(&self) -> RawBatch {
        self.raw
    }

    /// The ID of the pool this batch came from.
    pub closed spec fn spec_id(&self) -> ID {
        self.id
    }

    pub(crate) fn new(id: ID, raw: RawBatch) -> (b: Self)
        ensures
            b.spec_id() == id,
            b.spec_raw() == raw,
    {
        Self { raw, id }
    }

    pub(crate) fn id(&self) -> (id: &ID)
        ensures
            *id == self.spec_id(),
    {
        &self.id
    }

    /// The slots of this batch as a `RawBatch`.
    pub fn raw(&self) -> (raw: &RawBatch)
        ensures
            *raw == self.spec_raw(),
    {
        &self.raw
    }

    /// Counts the number of acquired Slots in this batch.
    pub fn count(&self) -> (n: usize)
        ensures
            n == self.spec_raw().spec_count(),
            n <= 64,
    {
        self.raw.count()
    }

    /// Is this batch empty?
    pub fn is_empty(&self) -> (e: bool)
        ensures
            e == (self.spec_raw().spec_count() == 0),
    {
        self.raw.is_empty()
    }

    /// Splits the batch into two batches of sizes `n`, `self.count() - n`.
    /// If `n` >= `self.count()`, returns `(self, None)`.
    ///
    /// Splits into (high bits, low bits).
    pub fn split_at(self, n: usize) -> (res: (Self, Option<Self>))
        ensures
            res.0.spec_id() == self.spec_id(),
            n >= self.spec_raw().spec_count() ==> res.0.spec_raw() == self.spec_raw() && res.1 is None,
            n < self.spec_raw().spec_count() ==> res.1 is Some && res.1->0.spec_id() == self.spec_id()
                && split_parts(self.spec_raw(), n as nat, res.0.spec_raw(), res.1->0.spec_raw()),
    {
        let (r1, r2) = self.raw.split_at(n);
        let first = Batch { raw: r1, id: self.id.clone() };
        match r2 {
            Some(raw) => (first, Some(Batch { raw, id: self.id })),
            None => (first, None),
        }
    }

    /// An iterator over the slot handles of this batch, lowest slot first.
    pub fn into_iter(self) -> (it: BatchIter)
        ensures
            it.spec_raw() == self.spec_raw(),
            it.spec_id() == self.spec_id(),
    {
        BatchIter { raw: self.raw.into_iter(), id: self.id }
    }
}

/// An iterator over a `Batch`
pub struct BatchIter {
    raw: RawBatchIter,
    id: ID,
}

impl BatchIter {
    /// The slots not handed out yet.
    pub closed spec fn spec_raw(&self) -> RawBatch {
        self.raw.remaining()
    }

    /// The ID of the pool the slots came from.
    pub closed spec fn spec_id(&self) -> ID {
        self.id
    }

    /// A handle for the lowest remaining slot, if any; it is removed from the remaining ones.
    pub fn next(&mut self) -> (item: Option<SlotHandle>)
        ensures
            final(self).spec_id() == old(self).spec_id(),
            final(self).spec_raw().start() == old(self).spec_raw().start(),
            old(self).spec_raw().bits() == 0 ==> item is None && final(self).spec_raw() == old(self).spec_raw(),
            old(self).spec_raw().bits() != 0 ==> {
                &&& item is Some
                &&& item->0.spec_id() == old(self).spec_id()
                &&& old(self).spec_raw().has(item->0.spec_slot() as int)
                &&& forall|i: int| #[trigger] old(self).spec_raw().has(i) ==> item->0.spec_slot() <= i
                &&& forall|i: int| #[trigger] final(self).spec_raw().has(i) == (old(self).spec_raw().has(i) && i != item->0.spec_slot())
                &&& final(self).spec_raw().spec_count() + 1 == old(self).spec_raw().spec_count()
            },
    {
        match self.raw.next() {
            Some(index) => Some(SlotHandle::from_raw(self.id.clone(), index)),
            None => None,
        }
    }

    /// The exact number of remaining slots, as lower and upper bound.
    pub fn size_hint(&self) -> (hint: (usize, Option<usize>))
        ensures
            hint.0 == self.spec_raw().spec_count(),
            hint.1 == Some(hint.0),
    {
        self.raw.size_hint()
    }

    /// Handles for all remaining slots, in the order `next` hands them out:
    /// each slot of the batch once, lowest first, all with the batch's ID.
    /// Nothing remains afterwards, so `next` answers `None`.
    pub fn collect_vec(&mut self) -> (v: Vec<SlotHandle>)
        ensures
            v.len() == old(self).spec_raw().spec_count(),
            forall|k: int| 0 <= k < v.len() ==> (#[trigger] v@[k]).spec_id() == old(self).spec_id()
                && old(self).spec_raw().has(v@[k].spec_slot() as int),
            forall|k1: int, k2: int| 0 <= k1 < k2 < v.len() ==> (#[trigger] v@[k1]).spec_slot() < (#[trigger] v@[k2]).spec_slot(),
            forall|i: int| #[trigger] old(self).spec_raw().has(i) ==> exists|k: int| 0 <= k < v.len() && (#[trigger] v@[k]).spec_slot() == i,
            final(self).spec_id() == old(self).spec_id(),
            final(self).spec_raw().start() == old(self).spec_raw().start(),
            final(self).spec_raw().bits() == 0,
    {
        proof {
            use_type_invariant(&self.raw.batch);
        }
        let slots = self.raw.collect_vec();
        let mut v: Vec<SlotHandle> = Vec::new();
        let mut k: usize = 0;
        while k < slots.len()
            invariant
                k <= slots.len(),
                v.len() == k,
                forall|m: int| 0 <= m < k ==> (#[trigger] v@[m]).spec_id() == self.id && v@[m].spec_slot() == slots@[m],
            decreases slots.len() - k,
        {
            v.push(SlotHandle::from_raw(self.id.clone(), slots[k]));
            k = k + 1;
        }
        proof {
            assert forall|i: int| #[trigger] old(self).spec_raw().has(i) implies exists|k: int| 0 <= k < v.len() && (#[trigger] v@[k]).spec_slot() == i by {
                assert(slots@.contains(i as usize));
                let m = choose|m: int| 0 <= m < slots@.len() && slots@[m] == i as usize;
                assert(v@[m].spec_slot() == i);
            }
            assert forall|k1: int, k2: int| 0 <= k1 < k2 < v.len() implies (#[trigger] v@[k1]).spec_slot() < (#[trigger] v@[k2]).spec_slot() by {
                assert(slots@[k1] < slots@[k2]);
            }
            assert forall|k: int| 0 <= k < v.len() implies (#[trigger] v@[k]).spec_id() == old(self).spec_id()
                && old(self).spec_raw().has(v@[k].spec_slot() as int) by {
                assert(old(self).spec_raw().has(slots@[k] as int));
            }
        }
        v
    }
}

} // verus!
