//! Word buffers: where a pool keeps its words, shard after shard.
use vstd::prelude::*;

use crate::core_internal::Word;

verus! {

/// A sequence of words grouped into shards of equal size.
pub trait Buffer {
    /// All words, shard after shard.
    spec fn words(&self) -> Seq<Word>;

    /// The number of words in one shard.
    spec fn spec_shard_words(&self) -> nat;

    /// Shards hold at least one word and the words split into whole shards.
    spec fn buffer_wf(&self) -> bool;

    proof fn lemma_buffer_shape(&self)
        requires
            self.buffer_wf(),
        ensures
            self.spec_shard_words() > 0,
            self.words().len() % self.spec_shard_words() == 0,
    ;

    /// The number of shards.
    fn capacity(&self) -> (shards: usize)
        requires
            self.buffer_wf(),
        ensures
            shards * self.spec_shard_words() == self.words().len(),
    ;

    /// The number of words in one shard.
    fn shard_words(&self) -> (words: usize)
        requires
            self.buffer_wf(),
        ensures
            words == self.spec_shard_words(),
            words > 0,
    ;

    /// Word `i`.
    fn word(&self, i: usize) -> (w: Word)
        requires
            self.buffer_wf(),
            i < self.words().len(),
        ensures
            w == self.words()[i as int],
    ;

    /// Replaces word `i` by `w`.
    fn set_word(&mut self, i: usize, w: Word)
        requires
            old(self).buffer_wf(),
            i < old(self).words().len(),
        ensures
            final(self).buffer_wf(),
            final(self).words() == old(self).words().update(i as int, w),
            final(self).spec_shard_words() == old(self).spec_shard_words(),
    ;
}

/// A statically sized buffer of `N` shards of `WORDS` words each.
pub struct InlineBuffer<const N: usize, const WORDS: usize> {
    buf: [[Word; WORDS]; N],
}

impl<const N: usize, const WORDS: usize> InlineBuffer<N, WORDS> {
    /// A buffer whose words all hold `fill`.
    pub fn new(fill: Word) -> (b: Self)
        requires
            WORDS > 0,
            N * WORDS <= usize::MAX,
        ensures
            b.buffer_wf(),
            b.words().len() == N * WORDS,
            b.spec_shard_words() == WORDS,
            forall|i: int| 0 <= i < b.words().len() ==> b.words()[i] == fill,
    {
        let b = InlineBuffer { buf: [[fill; WORDS]; N] };
        proof {
            assert forall|i: int| 0 <= i < b.words().len() implies b.words()[i] == fill by {
                lemma_row_col(i, WORDS as int, N as int);
            }
        }
        b
    }
}

/// `i` splits into a row below `rows` and a column below `cols`.
proof fn lemma_row_col(i: int, cols: int, rows: int)
    requires
        cols > 0,
        0 <= i < rows * cols,
    ensures
        0 <= i / cols < rows,
        0 <= i % cols < cols,
        (i / cols) * cols + i % cols == i,
{
    assert(0 <= i / cols < rows && 0 <= i % cols < cols && (i / cols) * cols + i % cols == i)
        by (nonlinear_arith)
        requires
            cols > 0,
            0 <= i < rows * cols,
    ;
}

/// Distinct positions have distinct rows or columns.
proof fn lemma_row_col_injective(i: int, j: int, cols: int)
    requires
        cols > 0,
        0 <= i,
        0 <= j,
        i / cols == j / cols,
        i % cols == j % cols,
    ensures
        i == j,
{
    assert(i == (i / cols) * cols + i % cols && j == (j / cols) * cols + j % cols)
        by (nonlinear_arith)
        requires
            cols > 0,
    ;
}

impl<const N: usize, const WORDS: usize> Buffer for InlineBuffer<N, WORDS> {
    closed spec fn words(&self) -> Seq<Word> {
        Seq::new((N * WORDS) as nat, |i: int| self.buf@[i / WORDS as int]@[i % WORDS as int])
    }

    closed spec fn spec_shard_words(&self) -> nat {
        WORDS as nat
    }

    closed spec fn buffer_wf(&self) -> bool {
        WORDS > 0 && N * WORDS <= usize::MAX
    }

    proof fn lemma_buffer_shape(&self) {
        assert((N * WORDS) % (WORDS as int) == 0) by (nonlinear_arith)
            requires
                WORDS > 0,
        ;
    }

    fn capacity(&self) -> (shards: usize) {
        N
    }

    fn shard_words(&self) -> (words: usize) {
        WORDS
    }

    fn word(&self, i: usize) -> (w: Word) {
        proof {
            lemma_row_col(i as int, WORDS as int, N as int);
        }
        self.buf[i / WORDS][i % WORDS]
    }

    fn set_word(&mut self, i: usize, w: Word) {
        proof {
            lemma_row_col(i as int, WORDS as int, N as int);
        }
        let r = i / WORDS;
        let c = i % WORDS;
        let mut row = self.buf[r];
        row[c] = w;
        self.buf[r] = row;
        proof {
            assert forall|j: int| 0 <= j < self.words().len() implies self.words()[j] == old(
                self,
            ).words().update(i as int, w)[j] by {
                lemma_row_col(j, WORDS as int, N as int);
                if j != i {
                    if j / WORDS as int == r as int && j % WORDS as int == c as int {
                        lemma_row_col_injective(i as int, j, WORDS as int);
                    }
                }
            }
            assert(self.words() =~= old(self).words().update(i as int, w));
        }
    }
}

/// A heap allocated buffer of shards.
pub struct HeapBuf {
    raw: Vec<Word>,
    shard_words: usize,
}

impl HeapBuf {
    /// A buffer of `size` shards of `shard_words` words, all holding `fill`.
    pub fn new(size: usize, shard_words: usize, fill: Word) -> (b: Self)
        requires
            shard_words > 0,
            size * shard_words <= usize::MAX,
        ensures
            b.buffer_wf(),
            b.words().len() == size * shard_words,
            b.spec_shard_words() == shard_words,
            forall|i: int| 0 <= i < b.words().len() ==> b.words()[i] == fill,
    {
        let total = size * shard_words;
        let mut raw: Vec<Word> = Vec::new();
        let mut i: usize = 0;
        while i < total
            invariant
                i <= total,
                raw@.len() == i,
                forall|j: int| 0 <= j < i ==> raw@[j] == fill,
            decreases total - i,
        {
            raw.push(fill);
            i = i + 1;
        }
        let b = HeapBuf { raw, shard_words };
        proof {
            assert((size * shard_words) % (shard_words as int) == 0) by (nonlinear_arith)
                requires
                    shard_words > 0,
            ;
        }
        b
    }
}

impl Buffer for HeapBuf {
    closed spec fn words(&self) -> Seq<Word> {
        self.raw@
    }

    closed spec fn spec_shard_words(&self) -> nat {
        self.shard_words as nat
    }

    closed spec fn buffer_wf(&self) -> bool {
        self.shard_words > 0 && self.raw@.len() % (self.shard_words as nat) == 0
    }

    proof fn lemma_buffer_shape(&self) {
    }

    fn capacity(&self) -> (shards: usize) {
        let n = self.raw.len() / self.shard_words;
        proof {
            let len = self.raw@.len() as int;
            let w = self.shard_words as int;
            assert((len / w) * w == len) by (nonlinear_arith)
                requires
                    w > 0,
                    len % w == 0,
            ;
        }
        n
    }

    fn shard_words(&self) -> (words: usize) {
        self.shard_words
    }

    fn word(&self, i: usize) -> (w: Word) {
        self.raw[i]
    }

    fn set_word(&mut self, i: usize, w: Word) {
        self.raw.set(i, w);
    }
}

} // verus!
