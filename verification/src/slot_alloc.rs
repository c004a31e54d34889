//! The interfaces of slot pools.
use vstd::prelude::*;

use crate::bits::{bit_set, count_true};
use crate::core_internal::{Batch, RawBatch, SlotHandle, ID};

verus! {

/// The slots of a pool after the slots of batch `b` were taken.
pub open spec fn without_batch(slots: Seq<bool>, b: RawBatch) -> Seq<bool> {
    Seq::new(slots.len(), |i: int| slots[i] && !b.has(i))
}

/// The slots of a pool after the slots of batch `b` were returned.
pub open spec fn with_batch(slots: Seq<bool>, b: RawBatch) -> Seq<bool> {
    Seq::new(slots.len(), |i: int| slots[i] || b.has(i))
}

/// `b` holds exactly the free slots of the word it covers, which holds at least one.
pub open spec fn whole_word_of(slots: Seq<bool>, b: RawBatch) -> bool {
    &&& 0 <= b.start() < slots.len()
    &&& b.bits() != 0
    &&& forall|i: int| #[trigger] b.has(i) == (b.start() <= i < b.start() + 64 && i < slots.len() && slots[i])
}

/// No slot is free.
pub open spec fn none_free(slots: Seq<bool>) -> bool {
    forall|i: int| 0 <= i < slots.len() ==> !slots[i]
}

/// `got` lists distinct slots that were free in `before`, and `after` is
/// `before` with exactly those slots taken.
pub open spec fn took_exactly(before: Seq<bool>, after: Seq<bool>, got: Seq<usize>) -> bool {
    &&& after.len() == before.len()
    &&& forall|k: int| 0 <= k < got.len() ==> #[trigger] got[k] < before.len() && before[got[k] as int]
    &&& forall|k1: int, k2: int| 0 <= k1 < k2 < got.len() ==> #[trigger] got[k1] != #[trigger] got[k2]
    &&& forall|i: int| 0 <= i < before.len() ==> #[trigger] after[i] == (before[i] && !got.contains(i as usize))
}

/// A pool with ID `id` and free slots `slots` takes handle `h` back: it is one of
/// its handles, for a slot it has, that is not free.
pub open spec fn accepts(id: ID, slots: Seq<bool>, h: SlotHandle) -> bool {
    &&& h.spec_id() == id
    &&& h.spec_slot() < slots.len()
    &&& !slots[h.spec_slot() as int]
}

/// Metadata of a Storage
pub trait SlotPoolMeta {
    /// The pool's internal consistency.
    spec fn pool_wf(&self) -> bool;

    /// What `len` returns.
    spec fn spec_len(&self) -> nat;

    /// What `capacity` returns.
    spec fn spec_capacity(&self) -> nat;

    /// The length of a storage.
    ///
    /// In the context of this crate this is the number of free slots
    fn len(&self) -> (n: usize)
        requires
            self.pool_wf(),
        ensures
            n == self.spec_len(),
    ;

    /// The capacity of the storage.
    ///
    /// In the context of this crate this is the maximal number of free slots.
    fn capacity(&self) -> (n: usize)
        requires
            self.pool_wf(),
        ensures
            n == self.spec_capacity(),
    ;

    /// Is the storage empty?
    ///
    /// In the context of this crate a storage is empty if all slots are allocated.
    fn is_empty(&self) -> (e: bool)
        requires
            self.pool_wf(),
        ensures
            e == (self.spec_len() == 0),
    {
        self.len() == 0
    }

    /// Is the storage full?
    ///
    /// In the context of this crate a storage is full if all slots are free.
    fn is_full(&self) -> (f: bool)
        requires
            self.pool_wf(),
        default_ensures
            f == (self.spec_len() == self.spec_capacity()),
    {
        self.len() == self.capacity()
    }
}

/// Raw interface for an index storage.
///
/// Slots are numbered from 0; `slots()[i]` tells whether slot `i` is free.
pub trait RawSlotPool: SlotPoolMeta {
    /// Which slots are free.
    spec fn slots(&self) -> Seq<bool>;

    /// The ID of the pool.
    spec fn spec_id(&self) -> ID;

    /// There is one entry per slot of the capacity.
    proof fn lemma_slots(&self)
        requires
            self.pool_wf(),
        ensures
            self.slots().len() == self.spec_capacity(),
            self.spec_capacity() <= usize::MAX,
    ;

    /// Whether `pull_raw` may hand out slot `i` in the pool's present state,
    /// when it is free. Any free slot may be, unless an implementation says
    /// which.
    open spec fn may_pull(&self, i: int) -> bool {
        true
    }

    /// Pulls a raw slot index from the storage if it is not empty.
    fn pull_raw(&mut self) -> (r: Option<usize>)
        requires
            old(self).pool_wf(),
        ensures
            final(self).pool_wf(),
            final(self).spec_capacity() == old(self).spec_capacity(),
            final(self).spec_id() == old(self).spec_id(),
            r is None ==> final(self).slots() == old(self).slots() && none_free(old(self).slots()),
            r is Some ==> {
                &&& r->0 < old(self).slots().len()
                &&& old(self).slots()[r->0 as int]
                &&& old(self).may_pull(r->0 as int)
                &&& final(self).slots() == old(self).slots().update(r->0 as int, false)
            },
    ;

    /// The length is the number of free slots.
    proof fn lemma_len(&self)
        requires
            self.pool_wf(),
        ensures
            self.spec_len() == count_true(self.slots()),
    ;

    /// What `put_raw(index)` returns in the pool's present state.
    spec fn put_frees(&self, index: int) -> bool;

    /// Putting back a slot that is not free frees it.
    proof fn lemma_put_frees(&self, index: int)
        requires
            self.pool_wf(),
            0 <= index < self.spec_capacity(),
            !self.slots()[index],
        ensures
            self.put_frees(index),
    ;

    /// Puts back a raw slot index into the storage.
    ///
    /// The slot is free afterwards; what is returned tells whether the slot was
    /// freed by this call (see each storage type).
    fn put_raw(&mut self, index: usize) -> (freed: bool)
        requires
            old(self).pool_wf(),
            index < old(self).spec_capacity(),
        ensures
            final(self).pool_wf(),
            final(self).spec_capacity() == old(self).spec_capacity(),
            final(self).spec_id() == old(self).spec_id(),
            final(self).slots() == old(self).slots().update(index as int, true),
            freed == old(self).put_frees(index as int),
    ;
}

/// Raw interface for storages that hand out and take back whole words of slots.
pub trait BatchedRawSlotPool: RawSlotPool {

    /// Whether `pull_raw_batch` may hand out batch `b` in the pool's present
    /// state, when `b` holds the free slots of its word. Any such batch may
    /// be, unless an implementation says which.
    open spec fn may_pull_batch(&self, b: RawBatch) -> bool {
        true
    }

    /// Pulls a `RawBatch` from the storage if it is not empty.
    fn pull_raw_batch(&mut self) -> (r: Option<RawBatch>)
        requires
            old(self).pool_wf(),
        ensures
            final(self).pool_wf(),
            final(self).spec_capacity() == old(self).spec_capacity(),
            final(self).spec_id() == old(self).spec_id(),
            r is None ==> final(self).slots() == old(self).slots() && none_free(old(self).slots()),
            r is Some ==> whole_word_of(old(self).slots(), r->0) && final(self).slots() == without_batch(
                old(self).slots(),
                r->0,
            ),
            r is Some ==> old(self).may_pull_batch(r->0),
    ;

    /// Puts back a `RawBatch` into the storage and frees the associated slots.
    ///
    /// returns `true` if the slots were freed.
    fn put_raw_batch(&mut self, batch: RawBatch) -> (done: bool)
        requires
            old(self).pool_wf(),
            batch.start() < old(self).spec_capacity(),
            forall|i: int| #[trigger] batch.has(i) ==> i < old(self).spec_capacity(),
        ensures
            final(self).pool_wf(),
            final(self).spec_capacity() == old(self).spec_capacity(),
            final(self).spec_id() == old(self).spec_id(),
            final(self).slots() == with_batch(old(self).slots(), batch),
            done,
    ;

    /// Pulls a batch of exactly `N` SlotHandles from the storage, if it contains enough slots.
    fn pull_raw_exact<const N: usize>(&mut self) -> (r: Option<[usize; N]>)
        requires
            old(self).pool_wf(),
        ensures
            final(self).pool_wf(),
            final(self).spec_capacity() == old(self).spec_capacity(),
            final(self).spec_id() == old(self).spec_id(),
            r is Some <==> N <= old(self).spec_len(),
            r is None ==> final(self).slots() == old(self).slots(),
            r is Some ==> took_exactly(old(self).slots(), final(self).slots(), r->0@),
    {
        proof {
            self.lemma_len();
            self.lemma_slots();
        }
        if N > self.len() {
            return None;
        }
        let ghost before = self.slots();
        let mut batch: [usize; N] = [0usize; N];
        if N == 0 {
            // No slot is asked for: there are always enough.
            proof {
                assert(took_exactly(before, self.slots(), batch@));
            }
            return Some(batch);
        }
        let mut total_count: usize = 0;
        loop
            invariant
                self.pool_wf(),
                self.spec_capacity() == old(self).spec_capacity(),
                self.spec_id() == old(self).spec_id(),
                before == old(self).slots(),
                old(self).spec_len() == count_true(before),
                before.len() == self.spec_capacity(),
                self.slots().len() == before.len(),
                N <= count_true(before) <= usize::MAX,
                total_count == 0 || total_count < N,
                batch@.len() == N,
                took_exactly(before, self.slots(), batch@.take(total_count as int)),
                count_true(self.slots()) + total_count == count_true(before),
            ensures
                none_free(self.slots()),
            decreases count_true(self.slots()),
        {
            proof {
                self.lemma_len();
                self.lemma_slots();
            }
            let ghost mid = self.slots();
            let pulled = match self.pull_raw_batch() {
                Some(b) => b,
                None => break,
            };
            proof {
                lemma_batch_count(mid, pulled);
                self.lemma_slots();
            }
            let count = pulled.count();
            if count == 0 {
                proof {
                    crate::bits::lemma_popcount_zero(pulled.bits());
                }
                break;
            }
            if count + total_count >= N {
                let (l, rest) = pulled.split_at(N - total_count);
                let ghost taken = self.slots();
                match rest {
                    Some(r) => {
                        proof {
                            assert forall|i: int| #[trigger] r.has(i) implies i < self.spec_capacity() by {
                                assert(pulled.has(i));
                            }
                            assert(r.start() == pulled.start());
                        }
                        self.put_raw_batch(r);
                        proof {
                            lemma_split_return(mid, pulled, l, r, (N - total_count) as nat, taken, self.slots());
                        }
                    },
                    None => {
                        proof {
                            assert(l == pulled);
                        }
                    },
                }
                proof {
                    assert forall|i: int| #[trigger] l.has(i) implies pulled.has(i) by {
                        if rest is Some {
                        }
                    }
                }
                let ghost prior = batch@;
                let next = copy_batch(&mut batch, total_count, l);
                proof {
                    assert(batch@.take(total_count as int) =~= prior.take(total_count as int));
                    lemma_took_more(before, mid, self.slots(), batch@, total_count as int, N as int, l);
                    assert(batch@.take(N as int) =~= batch@);
                    assert(count_true(before) > 0);
                }
                return Some(batch);
            }
            let ghost prior = batch@;
            let next = copy_batch(&mut batch, total_count, pulled);
            proof {
                assert(batch@.take(total_count as int) =~= prior.take(total_count as int));
                lemma_took_more(before, mid, self.slots(), batch@, total_count as int, next as int, pulled);
            }
            total_count = next;
        }
        proof {
            self.lemma_slots();
            crate::bits::lemma_count_zero(self.slots());
            assert(total_count == 0);
            assert(self.slots() =~= before);
        }
        // Hand back whatever was taken when the pool ran dry.
        let mut k: usize = 0;
        while k < total_count
            invariant
                self.pool_wf(),
                self.spec_capacity() == old(self).spec_capacity(),
                self.spec_id() == old(self).spec_id(),
                k <= total_count,
                total_count == 0,
                self.slots() == before,
            decreases total_count - k,
        {
            self.put_raw(batch[k]);
            k = k + 1;
        }
        None
    }
}

/// Taking the slots of a batch whose slots are all free removes as many free
/// slots as the batch holds.
pub(crate) proof fn lemma_batch_count(slots: Seq<bool>, b: RawBatch)
    requires
        forall|i: int| #[trigger] b.has(i) ==> 0 <= i < slots.len() && slots[i],
    ensures
        count_true(without_batch(slots, b)) + b.spec_count() == count_true(slots),
{
    let len = slots.len() as int;
    let st = b.start();
    b.lemma_start();
    let h = Seq::new(len as nat, |i: int| b.has(i));
    assert forall|i: int| 0 <= i < len implies slots[i] == (without_batch(slots, b)[i] || h[i]) && !(
    without_batch(slots, b)[i] && h[i]) by {
    }
    crate::bits::lemma_count_split(slots, without_batch(slots, b), h);
    // `h` holds the bits of the batch's mask, shifted to its start.
    let top = if st + 64 > len {
        st + 64
    } else {
        len
    };
    let wide = Seq::new(top as nat, |i: int| b.has(i));
    let tail = Seq::new((top - len) as nat, |i: int| b.has(len + i));
    assert(wide =~= h + tail);
    crate::bits::lemma_count_append(h, tail);
    crate::bits::lemma_count_zero(tail);
    let lead = Seq::new(st as nat, |i: int| false);
    let after = Seq::new((top - st - 64) as nat, |i: int| false);
    assert forall|c: int| 0 <= c < 64 implies crate::bits::word_bits(b.bits())[c] == b.has(st + c) by {
    }
    assert(wide =~= lead + crate::bits::word_bits(b.bits()) + after);
    crate::bits::lemma_count_append(lead + crate::bits::word_bits(b.bits()), after);
    crate::bits::lemma_count_append(lead, crate::bits::word_bits(b.bits()));
    crate::bits::lemma_count_zero(lead);
    crate::bits::lemma_count_zero(after);
}

/// Taking a batch and returning its lower part leaves its higher part taken.
pub(crate) proof fn lemma_split_return(
    slots: Seq<bool>,
    whole: RawBatch,
    l: RawBatch,
    r: RawBatch,
    n: nat,
    taken: Seq<bool>,
    now: Seq<bool>,
)
    requires
        crate::core_internal::split_parts(whole, n, l, r),
        taken == without_batch(slots, whole),
        now == with_batch(taken, r),
        forall|i: int| #[trigger] whole.has(i) ==> 0 <= i < slots.len() && slots[i],
    ensures
        now == without_batch(slots, l),
{
    assert forall|i: int| 0 <= i < slots.len() implies now[i] == without_batch(slots, l)[i] by {
        if whole.start() <= i < whole.start() + 64 {
            let c = i - whole.start();
            assert(bit_set(whole.bits(), c) == (bit_set(l.bits(), c) || bit_set(r.bits(), c)));
            assert(!(bit_set(l.bits(), c) && bit_set(r.bits(), c)));
        }
    }
    assert(now =~= without_batch(slots, l));
}

/// Taking the slots of batch `b`, recorded in `arr[total .. next]`, extends what
/// `arr[.. total]` took.
proof fn lemma_took_more(
    before: Seq<bool>,
    mid: Seq<bool>,
    now: Seq<bool>,
    arr: Seq<usize>,
    total: int,
    next: int,
    b: RawBatch,
)
    requires
        0 <= total <= next <= arr.len(),
        before.len() <= usize::MAX,
        took_exactly(before, mid, arr.take(total)),
        now == without_batch(mid, b),
        forall|i: int| #[trigger] b.has(i) ==> 0 <= i < mid.len() && mid[i],
        forall|m: int| total <= m < next ==> b.has(#[trigger] arr[m] as int),
        forall|m1: int, m2: int| total <= m1 < m2 < next ==> #[trigger] arr[m1] != #[trigger] arr[m2],
        forall|i: int| #[trigger] b.has(i) ==> exists|m: int| total <= m < next && #[trigger] arr[m] == i,
    ensures
        took_exactly(before, now, arr.take(next)),
{
    let got = arr.take(next);
    let old_got = arr.take(total);
    assert forall|k: int| 0 <= k < got.len() implies #[trigger] got[k] < before.len() && before[got[k] as int] by {
        if k < total {
            assert(old_got[k] == got[k]);
        } else {
            assert(b.has(arr[k] as int));
            assert(!old_got.contains(arr[k]));
        }
    }
    assert forall|k1: int, k2: int| 0 <= k1 < k2 < got.len() implies #[trigger] got[k1] != #[trigger] got[k2] by {
        if k2 < total {
            assert(old_got[k1] == got[k1] && old_got[k2] == got[k2]);
        } else if k1 < total {
            assert(b.has(arr[k2] as int));
            assert(mid[arr[k2] as int]);
            assert(old_got[k1] == got[k1]);
            assert(old_got.contains(got[k1]));
        }
    }
    assert forall|i: int| 0 <= i < before.len() implies #[trigger] now[i] == (before[i] && !got.contains(i as usize)) by {
        if b.has(i) {
            let m = choose|m: int| total <= m < next && #[trigger] arr[m] == i;
            assert(got[m] == i);
        } else {
            if got.contains(i as usize) {
                let m = choose|m: int| 0 <= m < got.len() && got[m] == i as usize;
                if m >= total {
                    assert(b.has(arr[m] as int));
                } else {
                    assert(old_got[m] == i as usize);
                }
            }
            if old_got.contains(i as usize) {
                let m = choose|m: int| 0 <= m < old_got.len() && old_got[m] == i as usize;
                assert(got[m] == i as usize);
            }
        }
    }
}

/// The slots of `b` that were free and are taken afterwards, in the order the
/// batch iterator hands them out, are written to `arr[from ..]`.
fn copy_batch<const N: usize>(arr: &mut [usize; N], from: usize, b: RawBatch) -> (next: usize)
    requires
        from + b.spec_count() <= N,
    ensures
        next == from + b.spec_count(),
        forall|m: int| 0 <= m < from ==> #[trigger] final(arr)@[m] == old(arr)@[m],
        forall|m: int| from <= m < next ==> b.has(#[trigger] final(arr)@[m] as int),
        forall|m1: int, m2: int| from <= m1 < m2 < next ==> #[trigger] final(arr)@[m1] != #[trigger] final(arr)@[m2],
        forall|i: int| #[trigger] b.has(i) ==> exists|m: int| from <= m < next && #[trigger] final(arr)@[m] == i,
{
    let count = b.count();
    let end = from + count;
    let mut it = b.into_iter();
    let mut k = from;
    while k < end
        invariant
            end == from + b.spec_count(),
            from <= k <= end <= N,
            arr@.len() == N,
            k - from + it.remaining().spec_count() == b.spec_count(),
            it.remaining().start() == b.start(),
            forall|i: int| #[trigger] it.remaining().has(i) ==> b.has(i),
            forall|m: int| 0 <= m < from ==> #[trigger] arr@[m] == old(arr)@[m],
            forall|m: int| from <= m < k ==> b.has(#[trigger] arr@[m] as int) && !it.remaining().has(arr@[m] as int),
            forall|m1: int, m2: int| from <= m1 < m2 < k ==> #[trigger] arr@[m1] != #[trigger] arr@[m2],
            forall|i: int| #[trigger] b.has(i) && !it.remaining().has(i) ==> exists|m: int| from <= m < k && #[trigger] arr@[m] == i,
        decreases end - k,
    {
        proof {
            crate::bits::lemma_popcount_zero(it.remaining().bits());
        }
        let ghost prev = it.remaining();
        let ghost prev_arr = arr@;
        let v = it.next().unwrap();
        arr[k] = v;
        proof {
            assert forall|i: int| #[trigger] b.has(i) && !it.remaining().has(i) implies exists|m: int| from <= m < k + 1 && #[trigger] arr@[m] == i by {
                if i == v {
                    assert(arr@[k as int] == i);
                } else {
                    assert(!prev.has(i));
                    let m = choose|m: int| from <= m < k && #[trigger] prev_arr[m] == i;
                    assert(arr@[m] == i);
                }
            }
        }
        k = k + 1;
    }
    proof {
        crate::bits::lemma_popcount_zero(it.remaining().bits());
        assert forall|i: int| #[trigger] b.has(i) implies exists|m: int| from <= m < k && #[trigger] arr@[m] == i by {
            crate::bits::lemma_bit_zero(i - b.start());
            assert(!it.remaining().has(i));
        }
    }
    k
}

/// Safe interface for an index storage
///
/// This is a safe wrapper of `RawSlotPool`.
pub trait SlotPool: RawSlotPool {
    /// Returns the ID associated with this pool
    fn id(&self) -> (id: ID)
        requires
            self.pool_wf(),
        ensures
            id == self.spec_id(),
    ;

    /// Pull a `SlotHandle` from the storage if it is not empty.
    fn pull(&mut self) -> (r: Option<SlotHandle>)
        requires
            old(self).pool_wf(),
        ensures
            final(self).pool_wf(),
            final(self).spec_capacity() == old(self).spec_capacity(),
            final(self).spec_id() == old(self).spec_id(),
            r is None ==> final(self).slots() == old(self).slots() && none_free(old(self).slots()),
            r is Some ==> {
                let i = r->0.spec_slot() as int;
                &&& r->0.spec_id() == old(self).spec_id()
                &&& i < old(self).slots().len()
                &&& old(self).slots()[i]
                &&& old(self).may_pull(i)
                &&& final(self).slots() == old(self).slots().update(i, false)
            },
    {
        let id = self.id();
        match self.pull_raw() {
            Some(idx) => Some(SlotHandle::new(idx, id)),
            None => None,
        }
    }

    /// Put a `SlotHandle` back into the storage to free the associated slot.
    ///
    /// Errs and returns the `SlotHandle`, if the operation is not permitted:
    /// when the handle belongs to another pool or names no slot of this one.
    fn put(&mut self, index: SlotHandle) -> (r: Result<(), SlotHandle>)
        requires
            old(self).pool_wf(),
        ensures
            final(self).pool_wf(),
            final(self).spec_capacity() == old(self).spec_capacity(),
            final(self).spec_id() == old(self).spec_id(),
            r is Err ==> r->Err_0 == index,
            index.spec_id() != old(self).spec_id() || index.spec_slot() >= old(self).spec_capacity()
                ==> r is Err && final(self).slots() == old(self).slots(),
            index.spec_id() == old(self).spec_id() && index.spec_slot() < old(self).spec_capacity()
                ==> final(self).slots() == old(self).slots().update(index.spec_slot() as int, true),
            index.spec_id() == old(self).spec_id() && index.spec_slot() < old(self).spec_capacity()
                ==> (r is Ok <==> old(self).put_frees(index.spec_slot() as int)),
    {
        if *index.id() != self.id() {
            return Err(index);
        }
        if index.as_usize() >= self.capacity() {
            return Err(index);
        }
        if self.put_raw(index.as_usize()) {
            Ok(())
        } else {
            Err(index)
        }
    }
}

/// Safe interface for storages that hand out and take back whole words of slots.
pub trait BatchedSlotPool: SlotPool + BatchedRawSlotPool {
    /// Pull a `Batch` from the storage if it is not empty.
    fn pull_batch(&mut self) -> (r: Option<Batch>)
        requires
            old(self).pool_wf(),
        ensures
            final(self).pool_wf(),
            final(self).spec_capacity() == old(self).spec_capacity(),
            final(self).spec_id() == old(self).spec_id(),
            r is None ==> final(self).slots() == old(self).slots() && none_free(old(self).slots()),
            r is Some ==> {
                &&& r->0.spec_id() == old(self).spec_id()
                &&& whole_word_of(old(self).slots(), r->0.spec_raw())
                &&& old(self).may_pull_batch(r->0.spec_raw())
                &&& final(self).slots() == without_batch(old(self).slots(), r->0.spec_raw())
            },
    {
        let id = self.id();
        match self.pull_raw_batch() {
            Some(raw) => Some(Batch::new(id, raw)),
            None => None,
        }
    }

    /// Put a `Batch` back into the storage to free the associated slots.
    ///
    /// Errs and returns the `Batch` if the operation is not permitted: when the
    /// batch belongs to another pool or holds slots that this one does not have.
    fn put_batch(&mut self, batch: Batch) -> (r: Result<(), Batch>)
        requires
            old(self).pool_wf(),
        ensures
            final(self).pool_wf(),
            final(self).spec_capacity() == old(self).spec_capacity(),
            final(self).spec_id() == old(self).spec_id(),
            r is Err ==> r->Err_0 == batch && final(self).slots() == old(self).slots(),
            batch.spec_id() != old(self).spec_id() ==> r is Err,
            batch.spec_id() == old(self).spec_id() && batch.spec_raw().start() < old(self).spec_capacity()
                && (forall|i: int| #[trigger] batch.spec_raw().has(i) ==> i < old(self).spec_capacity())
                ==> r is Ok,
            r is Ok ==> final(self).slots() == with_batch(old(self).slots(), batch.spec_raw()),
    {
        if *batch.id() != self.id() {
            return Err(batch);
        }
        let cap = self.capacity();
        if !fits_below(batch.raw(), cap) {
            return Err(batch);
        }
        let raw = *batch.raw();
        if self.put_raw_batch(raw) {
            Ok(())
        } else {
            Err(batch)
        }
    }

    /// Pulls a batch of exactly `N` SlotHandles from the storage, if it contains enough slots.
    fn pull_exact<const N: usize>(&mut self) -> (r: Option<[SlotHandle; N]>)
        requires
            old(self).pool_wf(),
        ensures
            final(self).pool_wf(),
            final(self).spec_capacity() == old(self).spec_capacity(),
            final(self).spec_id() == old(self).spec_id(),
            r is Some <==> N <= old(self).spec_len(),
            r is None ==> final(self).slots() == old(self).slots(),
            r is Some ==> {
                &&& forall|k: int| 0 <= k < N ==> (#[trigger] r->0@[k]).spec_id() == old(self).spec_id()
                &&& took_exactly(old(self).slots(), final(self).slots(), handle_slots(r->0@))
            },
    {
        let batch = self.pull_raw_exact::<N>();
        let id = self.id();
        match batch {
            Some(arr) => {
                let hs = handles_of(arr, id);
                proof {
                    assert(handle_slots(hs@) =~= arr@);
                }
                Some(hs)
            },
            None => None,
        }
    }
}

/// The slot indices of a sequence of handles.
pub open spec fn handle_slots(hs: Seq<SlotHandle>) -> Seq<usize> {
    hs.map_values(|h: SlotHandle| h.spec_slot() as usize)
}

/// `<[usize; N]>::map` with `SlotHandle::new`: array element `k` becomes a
/// handle of pool `id` for slot `slots[k]`, as `map` applies its closure to each
/// element in order.
#[verifier::external_body]
fn handles_of<const N: usize>(slots: [usize; N], id: ID) -> (hs: [SlotHandle; N])
    ensures
        forall|k: int| 0 <= k < N ==> (#[trigger] hs@[k]).spec_id() == id && hs@[k].spec_slot() == slots@[k],
{
    slots.map(|slot| SlotHandle::new(slot, id))
}

/// Whether every slot of `b`, and its first one, lie below `cap`.
fn fits_below(b: &RawBatch, cap: usize) -> (ok: bool)
    ensures
        ok == (b.start() < cap && forall|i: int| #[trigger] b.has(i) ==> i < cap),
{
    let start = b.starting_idx();
    if start >= cap {
        return false;
    }
    let room = cap - start;
    if room >= 64 {
        return true;
    }
    let ok = b.mask() >> (room as u64) == 0;
    proof {
        let r = room as u64;
        let m = b.bits();
        if ok {
            assert forall|i: int| #[trigger] b.has(i) implies i < cap by {
                let k = (i - start) as u64;
                assert(r < 64 && k < 64 && m >> r == 0u64 && (m >> k) & 1u64 == 1u64 ==> k < r)
                    by (bit_vector);
            }
        } else {
            let x = m >> r;
            crate::bits::lemma_trailing_zeros(x);
            let t = x.trailing_zeros() as u64;
            assert(r < 64 && t < 64 && ((m >> r) >> t) & 1u64 == 1u64 ==> r + t < 64 && (m >> (r
                + t) as u64) & 1u64 == 1u64) by (bit_vector);
            let i = start + r + t;
            assert(b.has(i));
        }
    }
    ok
}

} // verus!
