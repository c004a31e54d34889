//! Word-level bit arithmetic: the mathematical reading of a `u64` bitset and
//! the facts about it that the slot pools rely on.
use vstd::prelude::*;

verus! {

/// Whether bit `b` (0 is the least significant) of `w` is set.
pub open spec fn bit_set(w: u64, b: int) -> bool {
    0 <= b < 64 && ((w >> (b as u64)) & 1u64) == 1u64
}

/// The 64 bits of `w`, least significant first.
pub open spec fn word_bits(w: u64) -> Seq<bool> {
    Seq::new(64, |b: int| bit_set(w, b))
}

/// The number of `true` entries of `s`.
pub open spec fn count_true(s: Seq<bool>) -> nat
    decreases s.len(),
{
    if s.len() == 0 {
        0
    } else {
        count_true(s.drop_last()) + if s.last() {
            1nat
        } else {
            0nat
        }
    }
}

/// The number of set bits of `w`.
pub open spec fn popcount(w: u64) -> nat {
    count_true(word_bits(w))
}

/// The number of ones in the binary representation of `w`, counted bit by bit.
pub fn count_ones(w: u64) -> (r: u32)
    ensures
        r == popcount(w),
{
    let mut n: u32 = 0;
    let mut k: u64 = 0;
    while k < 64
        invariant
            k <= 64,
            n == count_true(word_bits(w).take(k as int)),
        decreases 64 - k,
    {
        proof {
            lemma_count_bounds(word_bits(w).take(k as int));
            assert(word_bits(w).take(k + 1).drop_last() =~= word_bits(w).take(k as int));
        }
        if (w >> k) & 1u64 == 1u64 {
            n = n + 1;
        }
        k = k + 1;
    }
    proof {
        assert(word_bits(w).take(64) =~= word_bits(w));
    }
    n
}

// ---------------------------------------------------------------------------
// Counting
// ---------------------------------------------------------------------------

pub proof fn lemma_count_bounds(s: Seq<bool>)
    ensures
        count_true(s) <= s.len(),
    decreases s.len(),
{
    if s.len() > 0 {
        lemma_count_bounds(s.drop_last());
    }
}

pub proof fn lemma_count_append(a: Seq<bool>, b: Seq<bool>)
    ensures
        count_true(a + b) == count_true(a) + count_true(b),
    decreases b.len(),
{
    if b.len() == 0 {
        assert(a + b =~= a);
    } else {
        assert((a + b).drop_last() =~= a + b.drop_last());
        lemma_count_append(a, b.drop_last());
    }
}

pub proof fn lemma_count_update(s: Seq<bool>, i: int, v: bool)
    requires
        0 <= i < s.len(),
    ensures
        count_true(s.update(i, v)) + (if s[i] {
            1int
        } else {
            0int
        }) == count_true(s) + (if v {
            1int
        } else {
            0int
        }),
    decreases s.len(),
{
    if i == s.len() - 1 {
        assert(s.update(i, v).drop_last() =~= s.drop_last());
    } else {
        assert(s.update(i, v).drop_last() =~= s.drop_last().update(i, v));
        lemma_count_update(s.drop_last(), i, v);
    }
}

pub proof fn lemma_count_zero(s: Seq<bool>)
    ensures
        count_true(s) == 0 <==> (forall|i: int| 0 <= i < s.len() ==> !s[i]),
    decreases s.len(),
{
    if s.len() > 0 {
        lemma_count_zero(s.drop_last());
        if count_true(s) == 0 {
            assert forall|i: int| 0 <= i < s.len() implies !s[i] by {
                if i < s.len() - 1 {
                    assert(s[i] == s.drop_last()[i]);
                }
            }
        }
        if forall|i: int| 0 <= i < s.len() ==> !s[i] {
            assert forall|i: int| 0 <= i < s.drop_last().len() implies !s.drop_last()[i] by {
                assert(!s[i]);
            }
        }
    }
}

pub proof fn lemma_count_full(s: Seq<bool>)
    requires
        forall|i: int| 0 <= i < s.len() ==> s[i],
    ensures
        count_true(s) == s.len(),
    decreases s.len(),
{
    if s.len() > 0 {
        lemma_count_full(s.drop_last());
    }
}

/// Splitting a sequence pointwise into two disjoint parts splits its count.
pub proof fn lemma_count_split(a: Seq<bool>, b: Seq<bool>, c: Seq<bool>)
    requires
        a.len() == b.len(),
        a.len() == c.len(),
        forall|i: int| 0 <= i < a.len() ==> a[i] == (b[i] || c[i]),
        forall|i: int| 0 <= i < a.len() ==> !(b[i] && c[i]),
    ensures
        count_true(a) == count_true(b) + count_true(c),
    decreases a.len(),
{
    if a.len() > 0 {
        lemma_count_split(a.drop_last(), b.drop_last(), c.drop_last());
    }
}

// ---------------------------------------------------------------------------
// Whole-word facts
// ---------------------------------------------------------------------------

pub proof fn lemma_popcount_zero(w: u64)
    ensures
        (popcount(w) == 0) <==> (w == 0),
{
    lemma_count_zero(word_bits(w));
    lemma_word_zero(w);
    if popcount(w) == 0 {
        assert forall|c: int| !#[trigger] bit_set(w, c) by {
            if 0 <= c < 64 {
                assert(!word_bits(w)[c]);
            }
        }
    }
}

pub proof fn lemma_popcount_bound(w: u64)
    ensures
        popcount(w) <= 64,
{
    lemma_count_bounds(word_bits(w));
}

/// When the bits of `h` are among those of `m`, the bits of `m` split into
/// those of `h` and those of `m ^ h`.
pub proof fn lemma_popcount_split(m: u64, h: u64)
    requires
        forall|c: int| #[trigger] bit_set(h, c) ==> bit_set(m, c),
    ensures
        popcount(m) == popcount(h) + popcount(m ^ h),
{
    assert forall|i: int| 0 <= i < 64 implies word_bits(m)[i] == (word_bits(h)[i] || word_bits(
        m ^ h,
    )[i]) && !(word_bits(h)[i] && word_bits(m ^ h)[i]) by {
        lemma_bit_xor(m, h, i);
    }
    lemma_count_split(word_bits(m), word_bits(h), word_bits(m ^ h));
}

/// Clearing the lowest set bit removes exactly one bit from the count.
pub proof fn lemma_popcount_clear_lowest(w: u64, p: u64)
    requires
        w != 0,
        p == w - 1,
    ensures
        word_bits(w & p) == word_bits(w).update(w.trailing_zeros() as int, false),
        popcount(w & p) + 1 == popcount(w),
{
    lemma_trailing_zeros(w);
    let t = w.trailing_zeros() as int;
    assert forall|c: int| 0 <= c < 64 implies word_bits(w & p)[c] == word_bits(w).update(
        t,
        false,
    )[c] by {
        lemma_clear_lowest(w, p, c);
    }
    assert(word_bits(w & p) =~= word_bits(w).update(t, false));
    lemma_count_update(word_bits(w), t, false);
}

// ---------------------------------------------------------------------------
// Sequences of words, read as one long bitset
// ---------------------------------------------------------------------------

/// Bit `j` of the bitset made of the words `ws`, word 0 holding bits 0 to 63.
pub open spec fn word_bit(ws: Seq<u64>, j: int) -> bool {
    0 <= j < ws.len() * 64 && bit_set(ws[j / 64], j % 64)
}

/// The first `n` bits of the bitset made of the words `ws`.
pub open spec fn bit_prefix(ws: Seq<u64>, n: int) -> Seq<bool> {
    Seq::new(n as nat, |j: int| word_bit(ws, j))
}

/// Replacing word `k` changes exactly the bits `64 * k .. 64 * k + 64`.
pub proof fn lemma_word_bit_update(ws: Seq<u64>, k: int, v: u64, j: int)
    requires
        0 <= k < ws.len(),
    ensures
        word_bit(ws.update(k, v), j) == if k * 64 <= j < k * 64 + 64 {
            bit_set(v, j - k * 64)
        } else {
            word_bit(ws, j)
        },
{
    if k * 64 <= j < k * 64 + 64 {
        assert(j / 64 == k);
        assert(j % 64 == j - k * 64);
    } else if 0 <= j < ws.len() * 64 {
        assert(j / 64 != k);
    }
}

/// Bit `64 * k + b` is bit `b` of word `k`.
pub proof fn lemma_word_bit_at(ws: Seq<u64>, k: int, b: int)
    requires
        0 <= k < ws.len(),
        0 <= b < 64,
    ensures
        word_bit(ws, k * 64 + b) == bit_set(ws[k], b),
{
    assert((k * 64 + b) / 64 == k);
    assert((k * 64 + b) % 64 == b);
}

/// The bits of the first `k + 1` words count those of the first `k` words and
/// those of word `k`.
pub proof fn lemma_count_words(ws: Seq<u64>, k: int)
    requires
        0 <= k < ws.len(),
    ensures
        count_true(bit_prefix(ws, (k + 1) * 64)) == count_true(bit_prefix(ws, k * 64)) + popcount(
            ws[k],
        ),
{
    assert forall|b: int| 0 <= b < 64 implies word_bits(ws[k])[b] == word_bit(ws, k * 64 + b) by {
        lemma_word_bit_at(ws, k, b);
    }
    assert(bit_prefix(ws, (k + 1) * 64) =~= bit_prefix(ws, k * 64) + word_bits(ws[k]));
    lemma_count_append(bit_prefix(ws, k * 64), word_bits(ws[k]));
}

/// Counting the bits of all words: a prefix that leaves out only clear bits
/// counts them all.
pub proof fn lemma_count_prefix_clear(ws: Seq<u64>, n: int)
    requires
        0 <= n <= ws.len() * 64,
        forall|j: int| n <= j < ws.len() * 64 ==> !word_bit(ws, j),
    ensures
        count_true(bit_prefix(ws, n)) == count_true(bit_prefix(ws, (ws.len() * 64) as int)),
{
    let tail = Seq::new((ws.len() * 64 - n) as nat, |j: int| word_bit(ws, n + j));
    assert(bit_prefix(ws, (ws.len() * 64) as int) =~= bit_prefix(ws, n) + tail);
    lemma_count_append(bit_prefix(ws, n), tail);
    lemma_count_zero(tail);
}

// ---------------------------------------------------------------------------
// Single-bit facts
// ---------------------------------------------------------------------------

pub proof fn lemma_bit_or(w: u64, m: u64, c: int)
    ensures
        bit_set(w | m, c) == (bit_set(w, c) || bit_set(m, c)),
{
    if 0 <= c < 64 {
        let k = c as u64;
        assert((((w | m) >> k) & 1u64 == 1u64) == (((w >> k) & 1u64 == 1u64) || ((m >> k) & 1u64
            == 1u64))) by (bit_vector);
    }
}

pub proof fn lemma_bit_and(w: u64, m: u64, c: int)
    ensures
        bit_set(w & m, c) == (bit_set(w, c) && bit_set(m, c)),
{
    if 0 <= c < 64 {
        let k = c as u64;
        assert((((w & m) >> k) & 1u64 == 1u64) == (((w >> k) & 1u64 == 1u64) && ((m >> k) & 1u64
            == 1u64))) by (bit_vector);
    }
}

pub proof fn lemma_bit_xor(w: u64, m: u64, c: int)
    ensures
        bit_set(w ^ m, c) == (bit_set(w, c) != bit_set(m, c)),
{
    if 0 <= c < 64 {
        let k = c as u64;
        assert((((w ^ m) >> k) & 1u64 == 1u64) == (((w >> k) & 1u64 == 1u64) != ((m >> k) & 1u64
            == 1u64))) by (bit_vector);
    }
}

pub proof fn lemma_bit_not(w: u64, c: int)
    ensures
        0 <= c < 64 ==> bit_set(!w, c) == !bit_set(w, c),
{
    if 0 <= c < 64 {
        let k = c as u64;
        assert(k < 64 ==> ((((!w) >> k) & 1u64 == 1u64) == !((w >> k) & 1u64 == 1u64)))
            by (bit_vector);
    }
}

pub proof fn lemma_bit_single(b: u64, c: int)
    requires
        b < 64,
    ensures
        bit_set(1u64 << b, c) == (c == b),
{
    if 0 <= c < 64 {
        let k = c as u64;
        assert(b < 64 && k < 64 ==> ((((1u64 << b) >> k) & 1u64 == 1u64) == (k == b)))
            by (bit_vector);
    }
}

/// `(1 << r) - 1` has exactly the bits below `r`.
pub proof fn lemma_low_mask(r: u64, m: u64, c: int)
    requires
        0 < r < 64,
        m == (1u64 << r) - 1,
    ensures
        bit_set(m, c) == (0 <= c < r),
{
    if 0 <= c < 64 {
        let k = c as u64;
        assert(0 < r < 64 && k < 64 && m == (1u64 << r) - 1 ==> (((m >> k) & 1u64 == 1u64) == (k
            < r))) by (bit_vector);
    }
}

pub proof fn lemma_bit_zero(c: int)
    ensures
        !bit_set(0u64, c),
{
    if 0 <= c < 64 {
        let k = c as u64;
        assert(((0u64 >> k) & 1u64) == 0u64) by (bit_vector);
    }
}

pub proof fn lemma_bit_max(c: int)
    ensures
        bit_set(u64::MAX, c) == (0 <= c < 64),
{
    if 0 <= c < 64 {
        let k = c as u64;
        assert(k < 64 ==> ((u64::MAX >> k) & 1u64) == 1u64) by (bit_vector);
    }
}

/// A word is zero exactly when none of its bits is set.
pub proof fn lemma_word_zero(w: u64)
    ensures
        (w == 0) <==> (forall|c: int| !#[trigger] bit_set(w, c)),
{
    if w == 0 {
        assert forall|c: int| !#[trigger] bit_set(w, c) by {
            lemma_bit_zero(c);
        }
    } else {
        let t = w.trailing_zeros();
        vstd::std_specs::bits::axiom_u64_trailing_zeros(w);
        assert(bit_set(w, t as int));
    }
}

/// Two words with the same bits are equal.
pub proof fn lemma_word_ext(a: u64, b: u64)
    requires
        forall|c: int| 0 <= c < 64 ==> bit_set(a, c) == bit_set(b, c),
    ensures
        a == b,
{
    lemma_word_zero(a ^ b);
    assert forall|c: int| !#[trigger] bit_set(a ^ b, c) by {
        lemma_bit_xor(a, b, c);
    }
    assert(a ^ b == 0u64 ==> a == b) by (bit_vector);
}

/// `trailing_zeros` names the lowest set bit of a non-zero word.
pub proof fn lemma_trailing_zeros(w: u64)
    requires
        w != 0,
    ensures
        w.trailing_zeros() < 64,
        bit_set(w, w.trailing_zeros() as int),
        forall|c: int| 0 <= c < w.trailing_zeros() ==> !#[trigger] bit_set(w, c),
{
    vstd::std_specs::bits::axiom_u64_trailing_zeros(w);
    let t = w.trailing_zeros();
    assert forall|c: int| 0 <= c < t implies !#[trigger] bit_set(w, c) by {
        let k = c as u64;
        assert((w >> k) & 1u64 == 0u64);
    }
}

/// `w & (w - 1)` is `w` without its lowest set bit.
pub proof fn lemma_clear_lowest(w: u64, p: u64, c: int)
    requires
        w != 0,
        p == w - 1,
    ensures
        bit_set(w & p, c) == (bit_set(w, c) && c != w.trailing_zeros()),
{
    lemma_trailing_zeros(w);
    let t = w.trailing_zeros() as u64;
    if 0 <= c < 64 {
        let k = c as u64;
        if k < t {
            assert(!bit_set(w, c));
            assert(w != 0 && p == w - 1 && k < t && (w >> k) & 1u64 == 0u64 && (w >> t) & 1u64
                == 1u64 && t < 64 ==> ((w & p) >> k) & 1u64 == 0u64) by (bit_vector);
        } else if k == t {
            let a = (w >> t) << t;
            assert forall|c2: int| 0 <= c2 < 64 implies bit_set(a, c2) == bit_set(w, c2) by {
                let k2 = c2 as u64;
                if k2 < t {
                    assert(t < 64 && k2 < t ==> ((((w >> t) << t) >> k2) & 1u64) == 0u64)
                        by (bit_vector);
                } else {
                    assert(t < 64 && k2 >= t && k2 < 64 ==> ((((w >> t) << t) >> k2) & 1u64) == ((w
                        >> k2) & 1u64)) by (bit_vector);
                }
            }
            lemma_word_ext(a, w);
            assert(w != 0 && p == w - 1 && t < 64 && (w >> t) & 1u64 == 1u64 && ((w >> t) << t)
                == w ==> ((w & p) >> t) & 1u64 == 0u64) by (bit_vector);
        } else {
            assert(w != 0 && p == w - 1 && t < 64 && k > t && k < 64 && (w >> t) & 1u64 == 1u64
                ==> (((w & p) >> k) & 1u64) == ((w >> k) & 1u64)) by (bit_vector);
        }
    }
}

} // verus!
