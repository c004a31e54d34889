//! The sharded bitset pool and the storage types built on it.
use vstd::prelude::*;

use crate::bits::{
    bit_prefix,
    bit_set,
    count_ones,
    count_true,
    lemma_bit_and,
    lemma_bit_max,
    lemma_bit_not,
    lemma_bit_or,
    lemma_bit_single,
    lemma_bit_zero,
    lemma_count_bounds,
    lemma_count_prefix_clear,
    lemma_count_words,
    lemma_popcount_bound,
    lemma_trailing_zeros,
    lemma_word_bit_at,
    lemma_word_bit_update,
    lemma_word_zero,
    word_bit,
};
use crate::bitshard::{
    div_ceil,
    div_ceil_usize,
    is_pow2,
    lemma_div_ceil,
    line_words_ok,
    words_per_cache_line,
};
use crate::buffer::{Buffer, HeapBuf, InlineBuffer};
use crate::cache_coherence::{AutoCoherenceProvider, CoherenceProvider};
use crate::core_internal::{RawBatch, Word, ID, WORD_BITS};
use crate::core_internal::SlotHandle;
use crate::slot_alloc::{
    accepts,
    none_free,
    whole_word_of,
    with_batch,
    without_batch,
    BatchedRawSlotPool,
    BatchedSlotPool,
    RawSlotPool,
    SlotPool,
    SlotPoolMeta,
};

verus! {

/// The distance of slot `j` from `base` when slots are walked cyclically
/// through `0 .. total`.
pub open spec fn rot(j: int, base: int, total: int) -> int {
    if j >= base {
        j - base
    } else {
        j + total - base
    }
}

/// `i` is the first free slot of `slots` when they are walked cyclically from
/// `base` through `0 .. total`.
pub open spec fn first_free_from(slots: Seq<bool>, base: int, total: int, i: int) -> bool {
    &&& 0 <= i < slots.len()
    &&& slots[i]
    &&& forall|j: int| 0 <= j < slots.len() && slots[j] ==> rot(i, base, total) <= rot(j, base, total)
}

/// `b` holds exactly the free slots of the word it covers, and that word is the
/// first one holding a free slot when slots are walked cyclically from `base`
/// through `0 .. total`.
pub open spec fn first_word_from(slots: Seq<bool>, base: int, total: int, b: RawBatch) -> bool {
    &&& whole_word_of(slots, b)
    &&& forall|j: int| 0 <= j < slots.len() && slots[j] ==> rot(b.start(), base, total) <= rot(j, base, total)
}

/// `i` is the first free slot when the `shards` shards of `shard_bits` slots
/// each are walked cyclically, starting at shard `start`.
pub open spec fn scan_choice(slots: Seq<bool>, start: int, shard_bits: int, shards: int, i: int) -> bool {
    first_free_from(slots, start * shard_bits, shards * shard_bits, i)
}

/// `b` holds the free slots of the first word holding any, when the `shards`
/// shards of `shard_bits` slots each are walked cyclically, starting at shard
/// `start`.
pub open spec fn scan_word_choice(slots: Seq<bool>, start: int, shard_bits: int, shards: int, b: RawBatch) -> bool {
    first_word_from(slots, start * shard_bits, shards * shard_bits, b)
}

/// Bit `q` of shard `s`, for shards of `sb` bits.
pub open spec fn bit_in_shard(ws: Seq<Word>, s: int, sb: int, q: int) -> bool {
    word_bit(ws, s * sb + q)
}

/// Exact division.
proof fn lemma_div_exact(a: int, b: int, q: int)
    requires
        b > 0,
        q * b == a,
    ensures
        a / b == q,
{
    assert(a / b == q) by (nonlinear_arith)
        requires
            b > 0,
            q * b == a,
    ;
}

/// Facts about products of the shard layout.
proof fn lemma_layout(s: int, w: int, k: int, b: int)
    requires
        0 <= s,
        w > 0,
        0 <= k < w,
        0 <= b < 64,
    ensures
        (s * w + k) * 64 + b == s * (w * 64) + k * 64 + b,
        s * (w * 64) == (s * w) * 64,
        k * 64 + b < w * 64,
{
    assert((s * w + k) * 64 + b == s * (w * 64) + k * 64 + b) by (nonlinear_arith);
    assert(s * (w * 64) == (s * w) * 64) by (nonlinear_arith);
    assert(k * 64 + b < w * 64) by (nonlinear_arith)
        requires
            k < w,
            b < 64,
    ;
}

/// Walking shard `cur`, the `t`-th shard after shard `start`, covers the slots
/// at cyclic distance `t * sb .. t * sb + sb` from the start of shard `start`.
proof fn lemma_rot_shard(j: int, cur: int, t: int, start: int, shards: int, sb: int)
    requires
        0 <= start < shards,
        0 <= t < shards,
        sb > 0,
        cur == if start + t < shards {
            start + t
        } else {
            start + t - shards
        },
        0 <= j < shards * sb,
    ensures
        (cur * sb <= j < cur * sb + sb) == (t * sb <= rot(j, start * sb, shards * sb) < t * sb
            + sb),
        cur * sb <= j < cur * sb + sb ==> rot(j, start * sb, shards * sb) == t * sb + (j - cur
            * sb),
{
    let base = start * sb;
    let total = shards * sb;
    let ts = t * sb;
    let cs = cur * sb;
    if start + t < shards {
        assert(cs == base + ts) by (nonlinear_arith)
            requires
                cur == start + t,
                base == start * sb,
                cs == cur * sb,
                ts == t * sb,
        ;
        assert(total - base >= ts + sb) by (nonlinear_arith)
            requires
                start + t + 1 <= shards,
                base == start * sb,
                total == shards * sb,
                ts == t * sb,
                sb > 0,
        ;
        if j >= base {
            assert(rot(j, base, total) == j - base);
        } else {
            assert(rot(j, base, total) == j + total - base);
        }
    } else {
        assert(cs == base + ts - total) by (nonlinear_arith)
            requires
                cur == start + t - shards,
                base == start * sb,
                total == shards * sb,
                cs == cur * sb,
                ts == t * sb,
        ;
        assert(cs + sb <= base) by (nonlinear_arith)
            requires
                cur + 1 <= start,
                base == start * sb,
                cs == cur * sb,
                sb > 0,
        ;
        assert(total - base <= ts) by (nonlinear_arith)
            requires
                shards - start <= t,
                base == start * sb,
                total == shards * sb,
                ts == t * sb,
                sb > 0,
        ;
        if j >= base {
            assert(rot(j, base, total) == j - base);
        } else {
            assert(rot(j, base, total) == j + total - base);
        }
    }
}

/// The weight by which taking a word of slots advances the coherence provider:
/// a cache line of words for every word of a shard of `shard_bits` slots, so
/// that the provider moves on once a shard is exhausted.
pub open spec fn batch_advance(line_words: int, shard_bits: int) -> int {
    (line_words * 64 * 64) / shard_bits
}

/// A sharded bitset of slots: bit `j` set means slot `j` is free.
///
/// Slots at or beyond `capacity` exist only to fill the last shard; they are
/// never free.
pub(crate) struct GenericStorage<B, C> {
    buffer: B,
    coherence_hint: C,
    id: ID,
    capacity: usize,
    line_words: usize,
}

impl<B: Buffer, C> GenericStorage<B, C> {
    pub(crate) closed spec fn words(&self) -> Seq<Word> {
        self.buffer.words()
    }

    pub(crate) closed spec fn shard_words(&self) -> int {
        self.buffer.spec_shard_words() as int
    }

    pub(crate) closed spec fn shard_bits(&self) -> int {
        self.shard_words() * 64
    }

    pub(crate) closed spec fn shards(&self) -> int {
        self.words().len() as int / self.shard_words()
    }

    pub(crate) closed spec fn total_bits(&self) -> int {
        self.words().len() as int * 64
    }

    /// Which slots are free.
    pub(crate) closed spec fn slots(&self) -> Seq<bool> {
        bit_prefix(self.words(), self.capacity as int)
    }

    pub(crate) closed spec fn spec_capacity(&self) -> nat {
        self.capacity as nat
    }

    pub(crate) closed spec fn spec_id(&self) -> ID {
        self.id
    }

    pub(crate) closed spec fn spec_line_words(&self) -> int {
        self.line_words as int
    }

    pub(crate) closed spec fn wf(&self) -> bool {
        &&& self.buffer.buffer_wf()
        &&& self.shard_words() > 0
        &&& is_pow2(self.shard_words())
        &&& self.shards() * self.shard_words() == self.words().len()
        &&& self.shards() * self.shard_bits() == self.total_bits()
        &&& self.shards() >= 1
        &&& 0 < self.capacity <= self.total_bits()
        &&& (self.shards() - 1) * self.shard_bits() < self.capacity
        &&& self.total_bits() <= usize::MAX
        &&& line_words_ok(self.line_words as int)
        &&& forall|j: int| self.capacity <= j < self.total_bits() ==> !word_bit(self.words(), j)
    }

    /// The coherence provider.
    pub(crate) closed spec fn spec_provider(&self) -> C {
        self.coherence_hint
    }

    /// Everything but the words and the coherence provider is unchanged.
    pub(crate) closed spec fn same_layout(&self, other: &Self) -> bool {
        &&& self.capacity == other.capacity
        &&& self.id == other.id
        &&& self.line_words == other.line_words
        &&& self.shard_words() == other.shard_words()
        &&& self.words().len() == other.words().len()
    }

    /// Everything but the words is unchanged.
    pub(crate) closed spec fn same_shape(&self, other: &Self) -> bool {
        &&& self.same_layout(other)
        &&& self.coherence_hint == other.coherence_hint
    }

    pub(crate) proof fn lemma_wf(&self)
        requires
            self.wf(),
        ensures
            self.slots().len() == self.spec_capacity(),
            self.spec_capacity() > 0,
            self.shards() >= 1,
            self.shard_bits() > 0,
            self.shards() * self.shard_bits() == self.total_bits(),
            self.spec_capacity() <= self.total_bits() <= usize::MAX,
            self.shard_bits() <= self.total_bits(),
            self.shard_words() <= self.words().len(),
            forall|j: int| 0 <= j < self.spec_capacity() ==> self.slots()[j] == word_bit(self.words(), j),
            forall|j: int| #[trigger] word_bit(self.words(), j) ==> 0 <= j < self.spec_capacity(),
    {
        assert(self.shard_bits() <= self.total_bits() && self.shard_words() <= self.words().len())
            by (nonlinear_arith)
            requires
                self.shards() >= 1,
                self.shard_words() > 0,
                self.shard_bits() == self.shard_words() * 64,
                self.shards() * self.shard_bits() == self.total_bits(),
                self.shards() * self.shard_words() == self.words().len(),
        ;
    }

    /// Takes the lowest free slot of shard `s`, given as its offset in the shard.
    fn pull_in_shard(&mut self, s: usize) -> (r: Option<usize>)
        requires
            old(self).wf(),
            s < old(self).shards(),
        ensures
            final(self).wf(),
            final(self).same_shape(old(self)),
            r is None ==> *final(self) == *old(self) && forall|q: int|
                0 <= q < old(self).shard_bits() ==> !bit_in_shard(old(self).words(), s as int, old(self).shard_bits(), q),
            r is Some ==> {
                let q = r->0 as int;
                let j0 = s * old(self).shard_bits() + q;
                &&& q < old(self).shard_bits()
                &&& word_bit(old(self).words(), j0)
                &&& forall|q2: int| 0 <= q2 < q ==> !bit_in_shard(old(self).words(), s as int, old(self).shard_bits(), q2)
                &&& forall|j: int| #[trigger] word_bit(final(self).words(), j) == (word_bit(old(self).words(), j) && j != j0)
            },
    {
        let w = self.buffer.shard_words();
        let ghost sb = self.shard_bits();
        proof {
            assert(s * w < self.words().len()) by (nonlinear_arith)
                requires
                    s < self.shards(),
                    self.shards() * w == self.words().len(),
                    w > 0,
            ;
            assert((s + 1) * w <= self.words().len()) by (nonlinear_arith)
                requires
                    s + 1 <= self.shards(),
                    self.shards() * w == self.words().len(),
                    w > 0,
            ;
        }
        let first = s * w;
        proof {
            assert((s + 1) * w == s * w + w) by (nonlinear_arith);
        }
        let mut k: usize = 0;
        while k < w
            invariant
                *self == *old(self),
                old(self).wf(),
                w == old(self).shard_words(),
                sb == w * 64,
                first == s * w,
                first + w <= old(self).words().len(),
                k <= w,
                forall|q: int| 0 <= q < k * 64 ==> !bit_in_shard(old(self).words(), s as int, sb, q),
            decreases w - k,
        {
            let idx = first + k;
            let cur = self.buffer.word(idx);
            if cur != 0 {
                let bit = cur.trailing_zeros();
                let mask: Word = 1u64 << bit;
                let cleared = cur & !mask;
                proof {
                    lemma_trailing_zeros(cur);
                    lemma_layout(s as int, w as int, k as int, bit as int);
                }
                self.buffer.set_word(idx, cleared);
                proof {
                    let ow = old(self).words();
                    let j0 = s * sb + k * 64 + bit;
                    assert(idx * 64 + bit == j0);
                    lemma_word_bit_at(ow, idx as int, bit as int);
                    assert forall|j: int| #[trigger]
                        word_bit(self.words(), j) == (word_bit(ow, j) && j != j0) by {
                        lemma_word_bit_update(ow, idx as int, cleared, j);
                        if idx * 64 <= j < idx * 64 + 64 {
                            lemma_word_bit_at(ow, idx as int, j - idx * 64);
                            lemma_bit_and(cur, !mask, j - idx * 64);
                            lemma_bit_not(mask, j - idx * 64);
                            lemma_bit_single(bit as u64, j - idx * 64);
                        }
                    }
                    assert forall|q2: int| 0 <= q2 < k * 64 + bit implies !bit_in_shard(ow, s as int, sb, q2) by {
                        if q2 >= k * 64 {
                            lemma_layout(s as int, w as int, k as int, q2 - k * 64);
                            lemma_word_bit_at(ow, idx as int, q2 - k * 64);
                        }
                    }
                    assert forall|j: int| self.capacity <= j < self.total_bits() implies !word_bit(
                        self.words(),
                        j,
                    ) by {
                        assert(!word_bit(ow, j));
                    }
                }
                return Some(k * 64 + bit as usize);
            }
            proof {
                let ow = old(self).words();
                assert forall|q: int| 0 <= q < (k + 1) * 64 implies !bit_in_shard(ow, s as int, sb, q) by {
                    if q >= k * 64 {
                        lemma_layout(s as int, w as int, k as int, q - k * 64);
                        lemma_word_bit_at(ow, idx as int, q - k * 64);
                        lemma_word_zero(cur);
                    }
                }
            }
            k = k + 1;
        }
        None
    }

    /// Takes the first free slot when shards are walked cyclically from shard `start`.
    fn pull_in_order(&mut self, start: usize) -> (r: Option<usize>)
        requires
            old(self).wf(),
            start < old(self).shards(),
        ensures
            final(self).wf(),
            final(self).same_shape(old(self)),
            r is None ==> *final(self) == *old(self) && forall|j: int| !#[trigger] word_bit(old(self).words(), j),
            r is Some ==> {
                &&& first_free_from(old(self).slots(), start * old(self).shard_bits(), old(self).total_bits(), r->0 as int)
                &&& forall|j: int| #[trigger] word_bit(final(self).words(), j) == (word_bit(old(self).words(), j) && j != r->0)
            },
    {
        proof {
            self.lemma_wf();
        }
        let shards = self.buffer.capacity();
        let sb = self.buffer.shard_words() * WORD_BITS;
        proof {
            lemma_div_exact(self.words().len() as int, self.shard_words(), shards as int);
            assert(start * sb <= self.total_bits()) by (nonlinear_arith)
                requires
                    start < shards,
                    shards * sb == self.total_bits(),
                    sb > 0,
            ;
        }
        let ghost base = start * sb;
        let ghost total = self.total_bits();
        let mut cur = start;
        let mut offset = start * sb;
        let mut t: usize = 0;
        while t < shards
            invariant
                *self == *old(self),
                old(self).wf(),
                shards == old(self).shards(),
                sb == old(self).shard_bits(),
                sb > 0,
                shards * sb == total,
                total == old(self).total_bits(),
                start < shards,
                base == start * sb,
                t <= shards,
                cur < shards,
                t < shards ==> cur == if start + t < shards {
                    start + t
                } else {
                    start + t - shards
                },
                offset == cur * sb,
                forall|j: int| #[trigger] word_bit(old(self).words(), j) ==> rot(j, base, total) >= t * sb,
            decreases shards - t,
        {
            let got = self.pull_in_shard(cur);
            match got {
                Some(q) => {
                    proof {
                        let ow = old(self).words();
                        let i = cur * sb + q;
                        assert(cur * sb + sb <= total) by (nonlinear_arith)
                            requires
                                cur + 1 <= shards,
                                shards * sb == total,
                                sb > 0,
                        ;
                        lemma_rot_shard(i, cur as int, t as int, start as int, shards as int, sb as int);
                        assert forall|j: int| 0 <= j < old(self).slots().len() && old(self).slots()[j]
                            implies rot(i, base, total) <= rot(j, base, total) by {
                            assert(word_bit(ow, j));
                            lemma_rot_shard(j, cur as int, t as int, start as int, shards as int, sb as int);
                            if cur * sb <= j < cur * sb + sb {
                                let q2 = j - cur * sb;
                                assert(j == cur * sb + q2);
                                if q2 < q {
                                    assert(!bit_in_shard(ow, cur as int, sb as int, q2));
                                }
                            }
                        }
                    }
                    return Some(offset + q);
                },
                None => {
                    proof {
                        let ow = old(self).words();
                        assert((t + 1) * sb == t * sb + sb) by (nonlinear_arith);
                        assert forall|j: int| #[trigger] word_bit(ow, j) implies rot(j, base, total) >= (t + 1) * sb by {
                            lemma_rot_shard(j, cur as int, t as int, start as int, shards as int, sb as int);
                            if cur * sb <= j < cur * sb + sb {
                                let q2 = j - cur * sb;
                                assert(j == cur * sb + q2);
                                assert(!bit_in_shard(ow, cur as int, sb as int, q2));
                            }
                        }
                    }
                },
            }
            proof {
                assert(cur * sb + sb <= total) by (nonlinear_arith)
                    requires
                        cur + 1 <= shards,
                        shards * sb == total,
                        sb > 0,
                ;
            }
            cur = cur + 1;
            offset = offset + sb;
            if cur == shards {
                cur = 0;
                offset = 0;
            }
            t = t + 1;
            proof {
                assert(offset == cur * sb) by (nonlinear_arith)
                    requires
                        cur == 0 ==> offset == 0,
                        cur != 0 ==> offset == (cur - 1) * sb + sb,
                ;
            }
        }
        proof {
            assert forall|j: int| !#[trigger] word_bit(old(self).words(), j) by {
                if word_bit(old(self).words(), j) {
                    assert(rot(j, base, total) >= shards * sb);
                }
            }
        }
        None
    }
}


impl<B: Buffer, C> GenericStorage<B, C> {
    /// A pool over `buffer` (whose words are all set) with `capacity` free
    /// slots; the slots that only fill up the last shard are cleared.
    pub(crate) fn new(buffer: B, capacity: usize, id: ID, coherence_hint: C, line_words: usize) -> (p: Self)
        requires
            buffer.buffer_wf(),
            forall|i: int| 0 <= i < buffer.words().len() ==> buffer.words()[i] == u64::MAX,
            is_pow2(buffer.spec_shard_words() as int),
            buffer.words().len() * 64 <= usize::MAX,
            0 < capacity <= buffer.words().len() * 64,
            buffer.words().len() * 64 - buffer.spec_shard_words() * 64 < capacity,
            line_words_ok(line_words as int),
        ensures
            p.wf(),
            p.slots() == Seq::new(capacity as nat, |j: int| true),
            p.spec_id() == id,
            p.spec_capacity() == capacity,
            p.spec_line_words() == line_words,
            p.shard_words() == buffer.spec_shard_words(),
            p.words().len() == buffer.words().len(),
    {
        proof {
            buffer.lemma_buffer_shape();
        }
        let mut buffer = buffer;
        let shards = buffer.capacity();
        let w = buffer.shard_words();
        let ghost len = buffer.words().len() as int;
        proof {
            assert(w * 64 <= len * 64) by (nonlinear_arith)
                requires
                    shards * w == len,
                    w > 0,
                    shards * w > 0,
            ;
            assert(shards >= 1) by (nonlinear_arith)
                requires
                    shards * w == len,
                    len > 0,
                    w > 0,
            ;
            assert(shards * (w * 64) == len * 64) by (nonlinear_arith)
                requires
                    shards * w == len,
            ;
            assert((shards - 1) * (w * 64) == len * 64 - w * 64) by (nonlinear_arith)
                requires
                    shards * w == len,
            ;
        }
        let sb = w * WORD_BITS;
        let total_bits = shards * sb;
        let dead_slots = total_bits - capacity;
        let ghost last_first_g = len - w;
        let ghost tail_g = capacity - (len - w) * 64;
        // Word `i` ends up full below the tail, holding the low tail bits of the
        // tail word, and empty above.
        let ghost expect = |i: int, v: u64| if i * 64 + 64 <= capacity {
            v == u64::MAX
        } else if i * 64 < capacity {
            forall|b: int| 0 <= b < 64 ==> #[trigger] bit_set(v, b) == (i * 64 + b < capacity)
        } else {
            v == 0
        };
        if dead_slots > 0 {
            proof {
                assert((shards - 1) * w == len - w) by (nonlinear_arith)
                    requires
                        shards * w == len,
                ;
                assert((shards - 1) * sb == (len - w) * 64) by (nonlinear_arith)
                    requires
                        shards * w == len,
                        sb == w * 64,
                ;
                assert(capacity % sb == tail_g) by (nonlinear_arith)
                    requires
                        (shards - 1) * sb == (len - w) * 64,
                        tail_g == capacity - (len - w) * 64,
                        0 < tail_g < sb,
                        sb > 0,
                ;
            }
            let last_first = (shards - 1) * w;
            let tail_bits = capacity % sb;
            let mut valid_words = tail_bits / WORD_BITS;
            let rem_bits = tail_bits % WORD_BITS;
            proof {
                assert(valid_words < w) by (nonlinear_arith)
                    requires
                        valid_words == tail_bits / 64,
                        tail_bits < sb,
                        sb == w * 64,
                ;
            }
            if rem_bits > 0 {
                assert((1u64 << rem_bits) >= 1u64) by (bit_vector)
                    requires
                        rem_bits < 64,
                ;
                let mask: Word = (1u64 << rem_bits) - 1;
                let idx = last_first + valid_words;
                let cur = buffer.word(idx);
                buffer.set_word(idx, cur & mask);
                proof {
                    assert forall|b: int| 0 <= b < 64 implies #[trigger] bit_set(cur & mask, b) == (idx * 64 + b < capacity) by {
                        crate::bits::lemma_low_mask(rem_bits as u64, mask, b);
                        lemma_bit_and(cur, mask, b);
                        lemma_bit_max(b);
                    }
                }
                valid_words = valid_words + 1;
            }
            let mut k = valid_words;
            while k < w
                invariant
                    buffer.buffer_wf(),
                    buffer.spec_shard_words() == w,
                    buffer.words().len() == len,
                    len * 64 <= usize::MAX,
                    last_first == len - w,
                    valid_words <= k <= w,
                    last_first + valid_words > 0 ==> (last_first + valid_words - 1) * 64 < capacity,
                    (last_first + valid_words) * 64 >= capacity,
                    forall|i: int| 0 <= i < last_first + valid_words ==> expect(i, #[trigger] buffer.words()[i]),
                    forall|i: int| last_first + valid_words <= i < last_first + k ==> #[trigger] buffer.words()[i] == 0,
                    forall|i: int| last_first + k <= i < len ==> #[trigger] buffer.words()[i] == u64::MAX,
                decreases w - k,
            {
                buffer.set_word(last_first + k, 0);
                k = k + 1;
            }
        }
        let p = GenericStorage { buffer, coherence_hint, id, capacity, line_words };
        proof {
            assert(p.shards() == shards) by {
                lemma_div_exact(len, w as int, shards as int);
            }
            assert forall|j: int| 0 <= j < len * 64 implies #[trigger] word_bit(p.words(), j) == (j < capacity) by {
                let i = j / 64;
                let b = j % 64;
                lemma_word_bit_at(p.words(), i, b);
                lemma_bit_max(b);
                lemma_bit_zero(b);
            }
            assert(p.slots() =~= Seq::new(capacity as nat, |j: int| true));
        }
        p
    }
}


impl<B: Buffer, C> GenericStorage<B, C> {
    /// Frees slot `index`; tells whether it was taken before.
    pub(crate) fn put_raw(&mut self, index: usize) -> (freed: bool)
        requires
            old(self).wf(),
            index < old(self).spec_capacity(),
        ensures
            final(self).wf(),
            final(self).same_shape(old(self)),
            final(self).slots() == old(self).slots().update(index as int, true),
            freed == !old(self).slots()[index as int],
    {
        proof {
            self.lemma_wf();
        }
        let word_idx = index / WORD_BITS;
        let bit = index % WORD_BITS;
        let mask: Word = 1u64 << bit;
        let prev = self.buffer.word(word_idx);
        self.buffer.set_word(word_idx, prev | mask);
        proof {
            let ow = old(self).words();
            lemma_word_bit_at(ow, word_idx as int, bit as int);
            assert forall|j: int| #[trigger] word_bit(self.words(), j) == (word_bit(ow, j) || j == index) by {
                lemma_word_bit_update(ow, word_idx as int, prev | mask, j);
                if word_idx * 64 <= j < word_idx * 64 + 64 {
                    lemma_word_bit_at(ow, word_idx as int, j - word_idx * 64);
                    lemma_bit_or(prev, mask, j - word_idx * 64);
                    lemma_bit_single(bit as u64, j - word_idx * 64);
                }
            }
            assert(self.slots() =~= old(self).slots().update(index as int, true));
            let b = bit as u64;
            assert(b < 64 ==> ((prev & (1u64 << b) == 0u64) == ((prev >> b) & 1u64 != 1u64)))
                by (bit_vector);
        }
        prev & mask == 0
    }

    /// Takes the first word of shard `s` that holds a free slot; returns its
    /// place in the shard and its bits.
    fn pull_word_in_shard(&mut self, s: usize) -> (r: Option<(usize, Word)>)
        requires
            old(self).wf(),
            s < old(self).shards(),
        ensures
            final(self).wf(),
            final(self).same_shape(old(self)),
            r is None ==> *final(self) == *old(self) && forall|q: int|
                0 <= q < old(self).shard_bits() ==> !bit_in_shard(old(self).words(), s as int, old(self).shard_bits(), q),
            r is Some ==> {
                let k = (r->0).0 as int;
                let m = (r->0).1;
                let w0 = s * old(self).shard_words() + k;
                &&& k < old(self).shard_words()
                &&& m != 0
                &&& m == old(self).words()[w0]
                &&& forall|q: int| 0 <= q < k * 64 ==> !bit_in_shard(old(self).words(), s as int, old(self).shard_bits(), q)
                &&& final(self).words() == old(self).words().update(w0, 0)
            },
    {
        let w = self.buffer.shard_words();
        let ghost sb = self.shard_bits();
        proof {
            assert(s * w < self.words().len()) by (nonlinear_arith)
                requires
                    s < self.shards(),
                    self.shards() * w == self.words().len(),
                    w > 0,
            ;
            assert((s + 1) * w <= self.words().len()) by (nonlinear_arith)
                requires
                    s + 1 <= self.shards(),
                    self.shards() * w == self.words().len(),
                    w > 0,
            ;
            assert((s + 1) * w == s * w + w) by (nonlinear_arith);
        }
        let first = s * w;
        let mut k: usize = 0;
        while k < w
            invariant
                *self == *old(self),
                old(self).wf(),
                w == old(self).shard_words(),
                sb == w * 64,
                first == s * w,
                first + w <= old(self).words().len(),
                k <= w,
                forall|q: int| 0 <= q < k * 64 ==> !bit_in_shard(old(self).words(), s as int, sb, q),
            decreases w - k,
        {
            let idx = first + k;
            let cur = self.buffer.word(idx);
            if cur != 0 {
                self.buffer.set_word(idx, 0);
                proof {
                    let ow = old(self).words();
                    assert forall|j: int| self.capacity <= j < self.total_bits() implies !word_bit(
                        self.words(),
                        j,
                    ) by {
                        lemma_word_bit_update(ow, idx as int, 0, j);
                        lemma_bit_zero(j - idx * 64);
                    }
                }
                return Some((k, cur));
            }
            proof {
                let ow = old(self).words();
                assert forall|q: int| 0 <= q < (k + 1) * 64 implies !bit_in_shard(ow, s as int, sb, q) by {
                    if q >= k * 64 {
                        lemma_layout(s as int, w as int, k as int, q - k * 64);
                        lemma_word_bit_at(ow, idx as int, q - k * 64);
                        lemma_word_zero(cur);
                    }
                }
            }
            k = k + 1;
        }
        None
    }

    /// Takes the slots of the first word holding a free slot when shards are
    /// walked cyclically from shard `start`.
    fn pull_batch_in_order(&mut self, start: usize) -> (r: Option<RawBatch>)
        requires
            old(self).wf(),
            start < old(self).shards(),
        ensures
            final(self).wf(),
            final(self).same_shape(old(self)),
            r is None ==> *final(self) == *old(self) && forall|j: int| !#[trigger] word_bit(old(self).words(), j),
            r is Some ==> {
                &&& first_word_from(old(self).slots(), start * old(self).shard_bits(), old(self).total_bits(), r->0)
                &&& final(self).slots() == without_batch(old(self).slots(), r->0)
            },
    {
        proof {
            self.lemma_wf();
        }
        let shards = self.buffer.capacity();
        let w = self.buffer.shard_words();
        let sb = w * WORD_BITS;
        proof {
            lemma_div_exact(self.words().len() as int, self.shard_words(), shards as int);
            assert(start * sb <= self.total_bits()) by (nonlinear_arith)
                requires
                    start < shards,
                    shards * sb == self.total_bits(),
                    sb > 0,
            ;
        }
        let ghost base = start * sb;
        let ghost total = self.total_bits();
        let mut cur = start;
        let mut offset = start * sb;
        let mut t: usize = 0;
        while t < shards
            invariant
                *self == *old(self),
                old(self).wf(),
                shards == old(self).shards(),
                w == old(self).shard_words(),
                sb == w * 64,
                sb == old(self).shard_bits(),
                sb > 0,
                shards * sb == total,
                total == old(self).total_bits(),
                start < shards,
                base == start * sb,
                t <= shards,
                cur < shards,
                t < shards ==> cur == if start + t < shards {
                    start + t
                } else {
                    start + t - shards
                },
                offset == cur * sb,
                forall|j: int| #[trigger] word_bit(old(self).words(), j) ==> rot(j, base, total) >= t * sb,
            decreases shards - t,
        {
            let got = self.pull_word_in_shard(cur);
            match got {
                Some((k, m)) => {
                    let ghost ow = old(self).words();
                    let ghost w0 = cur * w + k;
                    proof {
                        assert(cur * sb + sb <= total) by (nonlinear_arith)
                            requires
                                cur + 1 <= shards,
                                shards * sb == total,
                                sb > 0,
                        ;
                        lemma_layout(cur as int, w as int, k as int, 0);
                        assert(offset + k * 64 + 64 <= total);
                        assert((offset + k * 64) % 64 == 0) by {
                            assert(offset + k * 64 == w0 * 64);
                        }
                    }
                    let batch = RawBatch::new(offset + k * WORD_BITS, m);
                    proof {
                        let st = offset + k * 64;
                        assert(st == w0 * 64);
                        assert forall|i: int| #[trigger] batch.has(i) == (st <= i < st + 64 && word_bit(ow, i)) by {
                            if st <= i < st + 64 {
                                lemma_word_bit_at(ow, w0, i - st);
                            }
                        }
                        lemma_trailing_zeros(m);
                        let low = st + m.trailing_zeros() as int;
                        assert(word_bit(ow, low)) by {
                            lemma_word_bit_at(ow, w0, m.trailing_zeros() as int);
                        }
                        lemma_rot_shard(st, cur as int, t as int, start as int, shards as int, sb as int);
                        assert forall|j: int| 0 <= j < old(self).slots().len() && old(self).slots()[j]
                            implies rot(st, base, total) <= rot(j, base, total) by {
                            assert(word_bit(ow, j));
                            lemma_rot_shard(j, cur as int, t as int, start as int, shards as int, sb as int);
                            if cur * sb <= j < cur * sb + sb {
                                let q2 = j - cur * sb;
                                assert(j == cur * sb + q2);
                                if q2 < k * 64 {
                                    assert(!bit_in_shard(ow, cur as int, sb as int, q2));
                                }
                            }
                        }
                        assert forall|j: int| #[trigger] word_bit(self.words(), j) == (word_bit(ow, j) && !batch.has(j)) by {
                            lemma_word_bit_update(ow, w0, 0, j);
                            lemma_bit_zero(j - w0 * 64);
                        }
                        assert(self.slots() =~= without_batch(old(self).slots(), batch));
                    }
                    return Some(batch);
                },
                None => {
                    proof {
                        let ow = old(self).words();
                        assert((t + 1) * sb == t * sb + sb) by (nonlinear_arith);
                        assert forall|j: int| #[trigger] word_bit(ow, j) implies rot(j, base, total) >= (t + 1) * sb by {
                            lemma_rot_shard(j, cur as int, t as int, start as int, shards as int, sb as int);
                            if cur * sb <= j < cur * sb + sb {
                                let q2 = j - cur * sb;
                                assert(j == cur * sb + q2);
                                assert(!bit_in_shard(ow, cur as int, sb as int, q2));
                            }
                        }
                    }
                },
            }
            proof {
                assert(cur * sb + sb <= total) by (nonlinear_arith)
                    requires
                        cur + 1 <= shards,
                        shards * sb == total,
                        sb > 0,
                ;
            }
            cur = cur + 1;
            offset = offset + sb;
            if cur == shards {
                cur = 0;
                offset = 0;
            }
            t = t + 1;
            proof {
                assert(offset == cur * sb) by (nonlinear_arith)
                    requires
                        cur == 0 ==> offset == 0,
                        cur != 0 ==> offset == (cur - 1) * sb + sb,
                ;
            }
        }
        proof {
            assert forall|j: int| !#[trigger] word_bit(old(self).words(), j) by {
                if word_bit(old(self).words(), j) {
                    assert(rot(j, base, total) >= shards * sb);
                }
            }
        }
        None
    }

    /// Returns the slots of batch `b` to the pool.
    pub(crate) fn put_raw_batch(&mut self, b: RawBatch) -> (done: bool)
        requires
            old(self).wf(),
            b.start() < old(self).spec_capacity(),
            forall|i: int| #[trigger] b.has(i) ==> i < old(self).spec_capacity(),
        ensures
            final(self).wf(),
            final(self).same_shape(old(self)),
            final(self).slots() == with_batch(old(self).slots(), b),
            done,
    {
        proof {
            self.lemma_wf();
        }
        let start = b.starting_idx();
        let word_idx = start / WORD_BITS;
        let m = b.mask();
        let prev = self.buffer.word(word_idx);
        self.buffer.set_word(word_idx, prev | m);
        proof {
            let ow = old(self).words();
            assert(word_idx * 64 == start);
            assert forall|j: int| #[trigger] word_bit(self.words(), j) == (word_bit(ow, j) || b.has(j)) by {
                lemma_word_bit_update(ow, word_idx as int, prev | m, j);
                if word_idx * 64 <= j < word_idx * 64 + 64 {
                    lemma_word_bit_at(ow, word_idx as int, j - word_idx * 64);
                    lemma_bit_or(prev, m, j - word_idx * 64);
                }
            }
            assert(self.slots() =~= with_batch(old(self).slots(), b));
        }
        true
    }

    /// The number of free slots.
    pub(crate) fn len(&self) -> (n: usize)
        requires
            self.wf(),
        ensures
            n == count_true(self.slots()),
    {
        proof {
            self.lemma_wf();
        }
        let words = self.buffer.capacity() * self.buffer.shard_words();
        let ghost ws = self.words();
        let mut sum: usize = 0;
        let mut i: usize = 0;
        while i < words
            invariant
                self.wf(),
                ws == self.words(),
                words == ws.len(),
                words * 64 <= usize::MAX,
                i <= words,
                sum == count_true(bit_prefix(ws, i * 64)),
                sum <= i * 64,
            decreases words - i,
        {
            let c = count_ones(self.buffer.word(i));
            proof {
                lemma_count_words(ws, i as int);
                lemma_popcount_bound(ws[i as int]);
            }
            sum = sum + c as usize;
            i = i + 1;
        }
        proof {
            lemma_count_prefix_clear(ws, self.capacity as int);
        }
        sum
    }
}


impl<B: Buffer, C> GenericStorage<B, C> {
    /// The ID of the pool.
    pub(crate) fn id(&self) -> (id: ID)
        ensures
            id == self.spec_id(),
    {
        self.id
    }

    /// The capacity of the pool.
    pub(crate) fn capacity(&self) -> (n: usize)
        ensures
            n == self.spec_capacity(),
    {
        self.capacity
    }

    /// Takes the first free slot when shards are walked cyclically from shard
    /// `hint % shards`.
    pub(crate) fn pull_raw_from(&mut self, hint: usize) -> (r: Option<usize>)
        requires
            old(self).wf(),
        ensures
            final(self).wf(),
            final(self).same_shape(old(self)),
            r is None ==> *final(self) == *old(self) && none_free(old(self).slots()),
            r is Some ==> {
                &&& scan_choice(old(self).slots(), hint as int % old(self).shards(), old(self).shard_bits(), old(self).shards(), r->0 as int)
                &&& final(self).slots() == old(self).slots().update(r->0 as int, false)
            },
    {
        proof {
            self.lemma_wf();
        }
        let shards = self.buffer.capacity();
        proof {
            lemma_div_exact(self.words().len() as int, self.shard_words(), shards as int);
            assert(self.total_bits() == self.shards() * self.shard_bits());
        }
        let r = self.pull_in_order(hint % shards);
        proof {
            self.lemma_wf();
            if r is Some {
                assert(self.slots() =~= old(self).slots().update(r->0 as int, false));
            }
        }
        r
    }

    /// Takes the slots of the first word holding a free slot when shards are
    /// walked cyclically from shard `hint % shards`.
    pub(crate) fn pull_raw_batch_from(&mut self, hint: usize) -> (r: Option<RawBatch>)
        requires
            old(self).wf(),
        ensures
            final(self).wf(),
            final(self).same_shape(old(self)),
            r is None ==> *final(self) == *old(self) && none_free(old(self).slots()),
            r is Some ==> {
                &&& scan_word_choice(old(self).slots(), hint as int % old(self).shards(), old(self).shard_bits(), old(self).shards(), r->0)
                &&& final(self).slots() == without_batch(old(self).slots(), r->0)
            },
    {
        proof {
            self.lemma_wf();
        }
        let shards = self.buffer.capacity();
        proof {
            lemma_div_exact(self.words().len() as int, self.shard_words(), shards as int);
            assert(self.total_bits() == self.shards() * self.shard_bits());
        }
        self.pull_batch_in_order(hint % shards)
    }
}

impl<B: Buffer, C: CoherenceProvider> GenericStorage<B, C> {
    /// Takes a free slot, scanning from the shard that the coherence provider
    /// hints at.
    pub(crate) fn pull_raw(&mut self) -> (r: Option<usize>)
        requires
            old(self).wf(),
        ensures
            final(self).wf(),
            final(self).same_layout(old(self)),
            final(self).shards() == old(self).shards(),
            r is None ==> final(self).slots() == old(self).slots() && none_free(old(self).slots()),
            r is None ==> final(self).spec_provider() == old(self).spec_provider(),
            r is Some ==> {
                &&& exists|hint: usize| #[trigger] old(self).spec_provider().may_hint(hint) && scan_choice(old(self).slots(), hint as int % old(self).shards(), old(self).shard_bits(), old(self).shards(), r->0 as int)
                &&& final(self).slots() == old(self).slots().update(r->0 as int, false)
                &&& old(self).spec_provider().may_advance_to(old(self).spec_line_words() as usize, &final(self).spec_provider())
            },
    {
        let hint = self.coherence_hint.current_hint();
        let r = self.pull_raw_from(hint);
        proof {
            old(self).lemma_wf();
            if r is Some {
                assert(old(self).spec_provider().may_hint(hint));
            }
        }
        if r.is_some() {
            // Move on once a word's worth of slots was taken, to dodge the puts that
            // follow on this shard.
            self.coherence_hint.advance_hint_by(self.line_words);
        }
        r
    }

    /// Takes the free slots of a word, scanning from the shard that the coherence
    /// provider hints at.
    pub(crate) fn pull_raw_batch(&mut self) -> (r: Option<RawBatch>)
        requires
            old(self).wf(),
        ensures
            final(self).wf(),
            final(self).same_layout(old(self)),
            final(self).shards() == old(self).shards(),
            r is None ==> final(self).slots() == old(self).slots() && none_free(old(self).slots()),
            r is None ==> final(self).spec_provider() == old(self).spec_provider(),
            r is Some ==> {
                &&& exists|hint: usize| #[trigger] old(self).spec_provider().may_hint(hint) && scan_word_choice(old(self).slots(), hint as int % old(self).shards(), old(self).shard_bits(), old(self).shards(), r->0)
                &&& final(self).slots() == without_batch(old(self).slots(), r->0)
                &&& old(self).spec_provider().may_advance_to(batch_advance(old(self).spec_line_words(), old(self).shard_bits()) as usize, &final(self).spec_provider())
            },
    {
        let hint = self.coherence_hint.current_hint();
        let r = self.pull_raw_batch_from(hint);
        proof {
            old(self).lemma_wf();
            if r is Some {
                assert(old(self).spec_provider().may_hint(hint));
            }
        }
        if r.is_some() {
            // Move on once all words of this shard are exhausted.
            let w = self.buffer.shard_words();
            let step = (self.line_words * WORD_BITS * WORD_BITS) / (w * WORD_BITS);
            assert(step == batch_advance(self.line_words as int, self.shard_bits()));
            self.coherence_hint.advance_hint_by(step);
        }
        r
    }
}


/// The shard layout of an `InlineSlots<n, shards, words, _>`: `shards` shards of
/// `words` words (a power of two) hold the `n > 0` slots, the last shard holding
/// at least one of them.
pub open spec fn inline_layout_ok(n: int, shards: int, words: int) -> bool {
    &&& n > 0
    &&& is_pow2(words)
    &&& shards == div_ceil(n, words * 64)
    &&& shards * words * 64 <= usize::MAX
}

/// A statically sized slot storage.
///
/// The storage has a capacity of `N`, distributed over `SHARDS` shards of
/// `WORDS_PER_SHARD` words each.
pub struct InlineSlots<const N: usize, const SHARDS: usize, const WORDS_PER_SHARD: usize, C = AutoCoherenceProvider> {
    raw: GenericStorage<InlineBuffer<SHARDS, WORDS_PER_SHARD>, C>,
}

impl<const N: usize, const SHARDS: usize, const WORDS_PER_SHARD: usize> InlineSlots<N, SHARDS, WORDS_PER_SHARD, AutoCoherenceProvider> {
    /// Constructs a new `InlineSlots` with auto config and the given ID; all
    /// `N` slots are free.
    pub fn new(id: ID) -> (pool: Self)
        requires
            inline_layout_ok(N as int, SHARDS as int, WORDS_PER_SHARD as int),
        ensures
            pool.pool_wf(),
            pool.slots() == Seq::new(N as nat, |i: int| true),
            pool.spec_capacity() == N,
            pool.spec_len() == N,
            pool.spec_id() == id,
            pool.shard_total() == SHARDS,
            pool.shard_slots() == WORDS_PER_SHARD * 64,
    {
        Self::with_coherence_provider(id)
    }

    /// Constructs a new `InlineSlots` with the specified coherence provider
    pub fn with_coherence_provider<C: CoherenceProvider + Default>(id: ID) -> (pool: InlineSlots<N, SHARDS, WORDS_PER_SHARD, C>)
        requires
            inline_layout_ok(N as int, SHARDS as int, WORDS_PER_SHARD as int),
        ensures
            pool.pool_wf(),
            pool.slots() == Seq::new(N as nat, |i: int| true),
            pool.spec_capacity() == N,
            pool.spec_len() == N,
            pool.spec_id() == id,
            pool.shard_total() == SHARDS,
            pool.shard_slots() == WORDS_PER_SHARD * 64,
    {
        let ghost w = WORDS_PER_SHARD as int;
        let ghost s = SHARDS as int;
        proof {
            crate::bitshard::lemma_words_pow2_pos(w);
            lemma_div_ceil(N as int, w * 64);
            assert(s * w * 64 == s * (w * 64)) by (nonlinear_arith);
            assert(s * (w * 64) - w * 64 == (s - 1) * (w * 64)) by (nonlinear_arith);
            assert(s * w <= s * w * 64) by (nonlinear_arith)
                requires
                    s >= 0,
                    w >= 0,
            ;
        }
        let buffer = InlineBuffer::<SHARDS, WORDS_PER_SHARD>::new(u64::MAX);
        let line_words = words_per_cache_line();
        let raw = GenericStorage::new(buffer, N, id, C::default(), line_words);
        let pool = InlineSlots { raw };
        proof {
            pool.raw.lemma_wf();
            lemma_div_exact((s * w) as int, w, s);
            crate::bits::lemma_count_full(pool.raw.slots());
        }
        pool
    }
}

/// A dynamically sized, allocated index storage.
pub struct Slots<C = AutoCoherenceProvider> {
    raw: GenericStorage<HeapBuf, C>,
}

impl Slots<AutoCoherenceProvider> {
    /// Constructs a new `Slots` instance with capacity `size` and the given ID;
    /// all slots are free.
    pub fn new(size: usize, id: ID) -> (pool: Self)
        requires
            0 < size <= usize::MAX / 2,
        ensures
            pool.pool_wf(),
            pool.slots() == Seq::new(size as nat, |i: int| true),
            pool.spec_capacity() == size,
            pool.spec_len() == size,
            pool.spec_id() == id,
            line_words_ok(pool.shard_slots() / 64),
            pool.shard_total() == div_ceil(size as int, pool.shard_slots()),
    {
        Self::with_coherence_provider(size, id)
    }

    /// Constructs a new `Slots` instance with specified coherence provider.
    pub fn with_coherence_provider<C: CoherenceProvider + Default>(size: usize, id: ID) -> (pool: Slots<C>)
        requires
            0 < size <= usize::MAX / 2,
        ensures
            pool.pool_wf(),
            pool.slots() == Seq::new(size as nat, |i: int| true),
            pool.spec_capacity() == size,
            pool.spec_len() == size,
            pool.spec_id() == id,
            line_words_ok(pool.shard_slots() / 64),
            pool.shard_total() == div_ceil(size as int, pool.shard_slots()),
    {
        let line_words = words_per_cache_line();
        let bits_per_line = line_words * WORD_BITS;
        let shards = div_ceil_usize(size, bits_per_line);
        let ghost w = line_words as int;
        let ghost s = shards as int;
        proof {
            lemma_div_ceil(size as int, w * 64);
            assert(s * (w * 64) <= size + w * 64) by (nonlinear_arith)
                requires
                    (s - 1) * (w * 64) < size,
            ;
            assert(s * w * 64 == s * (w * 64)) by (nonlinear_arith);
            assert(s * (w * 64) - w * 64 == (s - 1) * (w * 64)) by (nonlinear_arith);
            assert(s * w <= s * w * 64) by (nonlinear_arith)
                requires
                    s >= 0,
                    w >= 0,
            ;
            assert(is_pow2(w)) by {
                assert(is_pow2(1));
                assert(is_pow2(2));
                assert(is_pow2(4));
                assert(is_pow2(8));
                assert(is_pow2(16));
                assert(is_pow2(32));
            }
        }
        let buffer = HeapBuf::new(shards, line_words, u64::MAX);
        let raw = GenericStorage::new(buffer, size, id, C::default(), line_words);
        let pool = Slots { raw };
        proof {
            pool.raw.lemma_wf();
            lemma_div_exact((s * w) as int, w, s);
            crate::bits::lemma_count_full(pool.raw.slots());
            assert(pool.shard_slots() / 64 == w);
        }
        pool
    }
}

impl<const N: usize, const SHARDS: usize, const WORDS_PER_SHARD: usize, C> SlotPoolMeta for InlineSlots<N, SHARDS, WORDS_PER_SHARD, C> {
    closed spec fn pool_wf(&self) -> bool {
        self.raw.wf()
    }

    closed spec fn spec_len(&self) -> nat {
        count_true(self.raw.slots())
    }

    closed spec fn spec_capacity(&self) -> nat {
        self.raw.spec_capacity()
    }

    fn len(&self) -> (n: usize) {
        self.raw.len()
    }

    fn capacity(&self) -> (n: usize) {
        self.raw.capacity()
    }

    fn is_empty(&self) -> (e: bool) {
        self.raw.len() == 0
    }

    fn is_full(&self) -> (f: bool)
        ensures
            f == (self.spec_len() == self.spec_capacity()),
    {
        self.raw.len() == self.raw.capacity()
    }
}

impl<const N: usize, const SHARDS: usize, const WORDS_PER_SHARD: usize, C: CoherenceProvider> InlineSlots<N, SHARDS, WORDS_PER_SHARD, C> {
    /// The number of slots of one shard.
    pub closed spec fn shard_slots(&self) -> int {
        self.raw.shard_bits()
    }

    /// The number of shards.
    pub closed spec fn shard_total(&self) -> int {
        self.raw.shards()
    }

    /// The coherence provider, which names the shard a scan starts at.
    pub closed spec fn provider(&self) -> C {
        self.raw.spec_provider()
    }

    /// The number of words in a cache line.
    pub closed spec fn spec_line_words(&self) -> int {
        self.raw.spec_line_words()
    }

    /// The shard layout: shards of equal size that together cover the
    /// capacity, the last one holding at least one slot.
    pub proof fn lemma_layout(&self)
        requires
            self.pool_wf(),
        ensures
            self.shard_slots() > 0,
            self.shard_total() >= 1,
            self.shard_total() * self.shard_slots() >= self.spec_capacity(),
            (self.shard_total() - 1) * self.shard_slots() < self.spec_capacity(),
            self.slots().len() == self.spec_capacity(),
            self.spec_len() <= self.spec_capacity(),
    {
        self.raw.lemma_wf();
        lemma_count_bounds(self.raw.slots());
    }

    /// Pulls the first free slot, walking the shards cyclically from shard
    /// `hint % shards`.
    pub fn pull_raw_from(&mut self, hint: usize) -> (r: Option<usize>)
        requires
            old(self).pool_wf(),
        ensures
            final(self).pool_wf(),
            final(self).spec_capacity() == old(self).spec_capacity(),
            final(self).spec_id() == old(self).spec_id(),
            final(self).shard_slots() == old(self).shard_slots(),
            final(self).shard_total() == old(self).shard_total(),
            r is None ==> final(self).slots() == old(self).slots() && none_free(old(self).slots()),
            r is Some ==> {
                &&& scan_choice(old(self).slots(), hint as int % old(self).shard_total(), old(self).shard_slots(), old(self).shard_total(), r->0 as int)
                &&& final(self).slots() == old(self).slots().update(r->0 as int, false)
            },
    {
        self.raw.pull_raw_from(hint)
    }

    /// Pulls the free slots of the first word holding any, walking the shards
    /// cyclically from shard `hint % shards`.
    pub fn pull_raw_batch_from(&mut self, hint: usize) -> (r: Option<RawBatch>)
        requires
            old(self).pool_wf(),
        ensures
            final(self).pool_wf(),
            final(self).spec_capacity() == old(self).spec_capacity(),
            final(self).spec_id() == old(self).spec_id(),
            final(self).shard_slots() == old(self).shard_slots(),
            final(self).shard_total() == old(self).shard_total(),
            r is None ==> final(self).slots() == old(self).slots() && none_free(old(self).slots()),
            r is Some ==> {
                &&& scan_word_choice(old(self).slots(), hint as int % old(self).shard_total(), old(self).shard_slots(), old(self).shard_total(), r->0)
                &&& final(self).slots() == without_batch(old(self).slots(), r->0)
            },
    {
        self.raw.pull_raw_batch_from(hint)
    }
}

impl<const N: usize, const SHARDS: usize, const WORDS_PER_SHARD: usize, C: CoherenceProvider> RawSlotPool for InlineSlots<N, SHARDS, WORDS_PER_SHARD, C> {
    closed spec fn slots(&self) -> Seq<bool> {
        self.raw.slots()
    }

    closed spec fn spec_id(&self) -> ID {
        self.raw.spec_id()
    }

    proof fn lemma_slots(&self) {
        self.raw.lemma_wf();
    }

    proof fn lemma_len(&self) {
    }

    /// The slot taken is the first free one met when the shards are walked
    /// cyclically from the shard that a hint of the coherence provider names.
    open spec fn may_pull(&self, i: int) -> bool {
        exists|hint: usize| #[trigger] self.provider().may_hint(hint) && scan_choice(self.slots(), hint as int % self.shard_total(), self.shard_slots(), self.shard_total(), i)
    }

    /// Taking a slot advances the coherence provider by a cache line of words.
    fn pull_raw(&mut self) -> (r: Option<usize>)
        ensures
            final(self).shard_slots() == old(self).shard_slots(),
            final(self).shard_total() == old(self).shard_total(),
            final(self).spec_line_words() == old(self).spec_line_words(),
            r is None ==> final(self).provider() == old(self).provider(),
            r is Some ==> old(self).provider().may_advance_to(old(self).spec_line_words() as usize, &final(self).provider()),
    {
        let r = self.raw.pull_raw();
        proof {
            if r is Some {
                let hint = choose|hint: usize| #[trigger] old(self).raw.spec_provider().may_hint(hint) && scan_choice(old(self).raw.slots(), hint as int % old(self).raw.shards(), old(self).raw.shard_bits(), old(self).raw.shards(), r->0 as int);
                assert(old(self).provider().may_hint(hint));
                assert(scan_choice(old(self).slots(), hint as int % old(self).shard_total(), old(self).shard_slots(), old(self).shard_total(), r->0 as int));
            }
        }
        r
    }

    /// A slot is freed when it was taken.
    open spec fn put_frees(&self, index: int) -> bool {
        !self.slots()[index]
    }

    proof fn lemma_put_frees(&self, index: int) {
    }

    fn put_raw(&mut self, index: usize) -> (freed: bool)
        ensures
            freed == !old(self).slots()[index as int],
            final(self).shard_slots() == old(self).shard_slots(),
            final(self).shard_total() == old(self).shard_total(),
            final(self).spec_line_words() == old(self).spec_line_words(),
            final(self).provider() == old(self).provider(),
    {
        self.raw.put_raw(index)
    }
}

impl<const N: usize, const SHARDS: usize, const WORDS_PER_SHARD: usize, C: CoherenceProvider> BatchedRawSlotPool for InlineSlots<N, SHARDS, WORDS_PER_SHARD, C> {
    /// The word taken is the first one holding a free slot met when the shards
    /// are walked cyclically from the shard that a hint of the coherence
    /// provider names.
    open spec fn may_pull_batch(&self, b: RawBatch) -> bool {
        exists|hint: usize| #[trigger] self.provider().may_hint(hint) && scan_word_choice(self.slots(), hint as int % self.shard_total(), self.shard_slots(), self.shard_total(), b)
    }

    /// Taking a word advances the coherence provider by a cache line of words
    /// for every word of a shard.
    fn pull_raw_batch(&mut self) -> (r: Option<RawBatch>)
        ensures
            final(self).shard_slots() == old(self).shard_slots(),
            final(self).shard_total() == old(self).shard_total(),
            final(self).spec_line_words() == old(self).spec_line_words(),
            r is None ==> final(self).provider() == old(self).provider(),
            r is Some ==> old(self).provider().may_advance_to(batch_advance(old(self).spec_line_words(), old(self).shard_slots()) as usize, &final(self).provider()),
    {
        let r = self.raw.pull_raw_batch();
        proof {
            if r is Some {
                let hint = choose|hint: usize| #[trigger] old(self).raw.spec_provider().may_hint(hint) && scan_word_choice(old(self).raw.slots(), hint as int % old(self).raw.shards(), old(self).raw.shard_bits(), old(self).raw.shards(), r->0);
                assert(old(self).provider().may_hint(hint));
                assert(scan_word_choice(old(self).slots(), hint as int % old(self).shard_total(), old(self).shard_slots(), old(self).shard_total(), r->0));
                assert(old(self).may_pull_batch(r->0));
            }
        }
        r
    }

    fn put_raw_batch(&mut self, batch: RawBatch) -> (done: bool)
        ensures
            final(self).shard_slots() == old(self).shard_slots(),
            final(self).shard_total() == old(self).shard_total(),
            final(self).spec_line_words() == old(self).spec_line_words(),
            final(self).provider() == old(self).provider(),
    {
        self.raw.put_raw_batch(batch)
    }
}

impl<const N: usize, const SHARDS: usize, const WORDS_PER_SHARD: usize, C: CoherenceProvider> SlotPool for InlineSlots<N, SHARDS, WORDS_PER_SHARD, C> {
    fn id(&self) -> (id: ID) {
        self.raw.id()
    }

    fn put(&mut self, index: SlotHandle) -> (r: Result<(), SlotHandle>)
        ensures
            r is Ok == accepts(old(self).spec_id(), old(self).slots(), index),
    {
        if *index.id() != self.raw.id() {
            return Err(index);
        }
        if index.as_usize() >= self.raw.capacity() {
            return Err(index);
        }
        if self.raw.put_raw(index.as_usize()) {
            Ok(())
        } else {
            Err(index)
        }
    }
}

impl<const N: usize, const SHARDS: usize, const WORDS_PER_SHARD: usize, C: CoherenceProvider> BatchedSlotPool for InlineSlots<N, SHARDS, WORDS_PER_SHARD, C> {
}

impl<C> SlotPoolMeta for Slots<C> {
    closed spec fn pool_wf(&self) -> bool {
        self.raw.wf()
    }

    closed spec fn spec_len(&self) -> nat {
        count_true(self.raw.slots())
    }

    closed spec fn spec_capacity(&self) -> nat {
        self.raw.spec_capacity()
    }

    fn len(&self) -> (n: usize) {
        self.raw.len()
    }

    fn capacity(&self) -> (n: usize) {
        self.raw.capacity()
    }

    fn is_empty(&self) -> (e: bool) {
        self.raw.len() == 0
    }

    fn is_full(&self) -> (f: bool)
        ensures
            f == (self.spec_len() == self.spec_capacity()),
    {
        self.raw.len() == self.raw.capacity()
    }
}

impl<C: CoherenceProvider> Slots<C> {
    /// The number of slots of one shard.
    pub closed spec fn shard_slots(&self) -> int {
        self.raw.shard_bits()
    }

    /// The number of shards.
    pub closed spec fn shard_total(&self) -> int {
        self.raw.shards()
    }

    /// The coherence provider, which names the shard a scan starts at.
    pub closed spec fn provider(&self) -> C {
        self.raw.spec_provider()
    }

    /// The number of words in a cache line.
    pub closed spec fn spec_line_words(&self) -> int {
        self.raw.spec_line_words()
    }

    /// The shard layout: shards of equal size that together cover the
    /// capacity, the last one holding at least one slot.
    pub proof fn lemma_layout(&self)
        requires
            self.pool_wf(),
        ensures
            self.shard_slots() > 0,
            self.shard_total() >= 1,
            self.shard_total() * self.shard_slots() >= self.spec_capacity(),
            (self.shard_total() - 1) * self.shard_slots() < self.spec_capacity(),
            self.slots().len() == self.spec_capacity(),
            self.spec_len() <= self.spec_capacity(),
    {
        self.raw.lemma_wf();
        lemma_count_bounds(self.raw.slots());
    }

    /// Pulls the first free slot, walking the shards cyclically from shard
    /// `hint % shards`.
    pub fn pull_raw_from(&mut self, hint: usize) -> (r: Option<usize>)
        requires
            old(self).pool_wf(),
        ensures
            final(self).pool_wf(),
            final(self).spec_capacity() == old(self).spec_capacity(),
            final(self).spec_id() == old(self).spec_id(),
            final(self).shard_slots() == old(self).shard_slots(),
            final(self).shard_total() == old(self).shard_total(),
            r is None ==> final(self).slots() == old(self).slots() && none_free(old(self).slots()),
            r is Some ==> {
                &&& scan_choice(old(self).slots(), hint as int % old(self).shard_total(), old(self).shard_slots(), old(self).shard_total(), r->0 as int)
                &&& final(self).slots() == old(self).slots().update(r->0 as int, false)
            },
    {
        self.raw.pull_raw_from(hint)
    }

    /// Pulls the free slots of the first word holding any, walking the shards
    /// cyclically from shard `hint % shards`.
    pub fn pull_raw_batch_from(&mut self, hint: usize) -> (r: Option<RawBatch>)
        requires
            old(self).pool_wf(),
        ensures
            final(self).pool_wf(),
            final(self).spec_capacity() == old(self).spec_capacity(),
            final(self).spec_id() == old(self).spec_id(),
            final(self).shard_slots() == old(self).shard_slots(),
            final(self).shard_total() == old(self).shard_total(),
            r is None ==> final(self).slots() == old(self).slots() && none_free(old(self).slots()),
            r is Some ==> {
                &&& scan_word_choice(old(self).slots(), hint as int % old(self).shard_total(), old(self).shard_slots(), old(self).shard_total(), r->0)
                &&& final(self).slots() == without_batch(old(self).slots(), r->0)
            },
    {
        self.raw.pull_raw_batch_from(hint)
    }
}

impl<C: CoherenceProvider> RawSlotPool for Slots<C> {
    closed spec fn slots(&self) -> Seq<bool> {
        self.raw.slots()
    }

    closed spec fn spec_id(&self) -> ID {
        self.raw.spec_id()
    }

    proof fn lemma_slots(&self) {
        self.raw.lemma_wf();
    }

    proof fn lemma_len(&self) {
    }

    /// The slot taken is the first free one met when the shards are walked
    /// cyclically from the shard that a hint of the coherence provider names.
    open spec fn may_pull(&self, i: int) -> bool {
        exists|hint: usize| #[trigger] self.provider().may_hint(hint) && scan_choice(self.slots(), hint as int % self.shard_total(), self.shard_slots(), self.shard_total(), i)
    }

    /// Taking a slot advances the coherence provider by a cache line of words.
    fn pull_raw(&mut self) -> (r: Option<usize>)
        ensures
            final(self).shard_slots() == old(self).shard_slots(),
            final(self).shard_total() == old(self).shard_total(),
            final(self).spec_line_words() == old(self).spec_line_words(),
            r is None ==> final(self).provider() == old(self).provider(),
            r is Some ==> old(self).provider().may_advance_to(old(self).spec_line_words() as usize, &final(self).provider()),
    {
        let r = self.raw.pull_raw();
        proof {
            if r is Some {
                let hint = choose|hint: usize| #[trigger] old(self).raw.spec_provider().may_hint(hint) && scan_choice(old(self).raw.slots(), hint as int % old(self).raw.shards(), old(self).raw.shard_bits(), old(self).raw.shards(), r->0 as int);
                assert(old(self).provider().may_hint(hint));
                assert(scan_choice(old(self).slots(), hint as int % old(self).shard_total(), old(self).shard_slots(), old(self).shard_total(), r->0 as int));
            }
        }
        r
    }

    /// A slot is freed when it was taken.
    open spec fn put_frees(&self, index: int) -> bool {
        !self.slots()[index]
    }

    proof fn lemma_put_frees(&self, index: int) {
    }

    fn put_raw(&mut self, index: usize) -> (freed: bool)
        ensures
            freed == !old(self).slots()[index as int],
            final(self).shard_slots() == old(self).shard_slots(),
            final(self).shard_total() == old(self).shard_total(),
            final(self).spec_line_words() == old(self).spec_line_words(),
            final(self).provider() == old(self).provider(),
    {
        self.raw.put_raw(index)
    }
}

impl<C: CoherenceProvider> BatchedRawSlotPool for Slots<C> {
    /// The word taken is the first one holding a free slot met when the shards
    /// are walked cyclically from the shard that a hint of the coherence
    /// provider names.
    open spec fn may_pull_batch(&self, b: RawBatch) -> bool {
        exists|hint: usize| #[trigger] self.provider().may_hint(hint) && scan_word_choice(self.slots(), hint as int % self.shard_total(), self.shard_slots(), self.shard_total(), b)
    }

    /// Taking a word advances the coherence provider by a cache line of words
    /// for every word of a shard.
    fn pull_raw_batch(&mut self) -> (r: Option<RawBatch>)
        ensures
            final(self).shard_slots() == old(self).shard_slots(),
            final(self).shard_total() == old(self).shard_total(),
            final(self).spec_line_words() == old(self).spec_line_words(),
            r is None ==> final(self).provider() == old(self).provider(),
            r is Some ==> old(self).provider().may_advance_to(batch_advance(old(self).spec_line_words(), old(self).shard_slots()) as usize, &final(self).provider()),
    {
        let r = self.raw.pull_raw_batch();
        proof {
            if r is Some {
                let hint = choose|hint: usize| #[trigger] old(self).raw.spec_provider().may_hint(hint) && scan_word_choice(old(self).raw.slots(), hint as int % old(self).raw.shards(), old(self).raw.shard_bits(), old(self).raw.shards(), r->0);
                assert(old(self).provider().may_hint(hint));
                assert(scan_word_choice(old(self).slots(), hint as int % old(self).shard_total(), old(self).shard_slots(), old(self).shard_total(), r->0));
                assert(old(self).may_pull_batch(r->0));
            }
        }
        r
    }

    fn put_raw_batch(&mut self, batch: RawBatch) -> (done: bool)
        ensures
            final(self).shard_slots() == old(self).shard_slots(),
            final(self).shard_total() == old(self).shard_total(),
            final(self).spec_line_words() == old(self).spec_line_words(),
            final(self).provider() == old(self).provider(),
    {
        self.raw.put_raw_batch(batch)
    }
}

impl<C: CoherenceProvider> SlotPool for Slots<C> {
    fn id(&self) -> (id: ID) {
        self.raw.id()
    }

    fn put(&mut self, index: SlotHandle) -> (r: Result<(), SlotHandle>)
        ensures
            r is Ok == accepts(old(self).spec_id(), old(self).slots(), index),
    {
        if *index.id() != self.raw.id() {
            return Err(index);
        }
        if index.as_usize() >= self.raw.capacity() {
            return Err(index);
        }
        if self.raw.put_raw(index.as_usize()) {
            Ok(())
        } else {
            Err(index)
        }
    }
}

impl<C: CoherenceProvider> BatchedSlotPool for Slots<C> {
}

} // verus!
