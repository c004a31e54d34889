//! Shard layout: how many words a shard holds and how many shards a pool needs.
use vstd::prelude::*;

use crate::core_internal::WORD_BITS;

verus! {

/// The number of shards a pool aims for when sizing its shards.
pub const TARGET_SHARDS: usize = 8;

/// The number of bytes of a `Word`.
pub const WORD_BYTES: usize = 8;

/// `core::mem::align_of::<crossbeam_utils::CachePadded<()>>()`: the cache line
/// size that crossbeam pads to on the target. Its source sets that alignment to
/// 16, 32, 64, 128 or 256 bytes depending on the architecture; which one is not
/// stated, as it depends on the machine the library is built for.
#[verifier::external_body]
fn cache_line_bytes() -> (bytes: usize)
    ensures
        bytes == 16 || bytes == 32 || bytes == 64 || bytes == 128 || bytes == 256,
{
    core::mem::align_of::<crossbeam_utils::CachePadded<()>>()
}

/// The possible numbers of words in a cache line.
pub open spec fn line_words_ok(w: int) -> bool {
    w == 2 || w == 4 || w == 8 || w == 16 || w == 32
}

/// The number of words that fill one cache line on this target.
pub fn words_per_cache_line() -> (w: usize)
    ensures
        line_words_ok(w as int),
{
    cache_line_bytes() / WORD_BYTES
}

/// `p` is a power of two.
pub open spec fn is_pow2(p: int) -> bool
    decreases p,
{
    if p <= 0 {
        false
    } else if p == 1 {
        true
    } else {
        p % 2 == 0 && is_pow2(p / 2)
    }
}

/// A power of two is positive.
pub proof fn lemma_words_pow2_pos(p: int)
    requires
        is_pow2(p),
    ensures
        p >= 1,
{
}

/// `a / b` rounded up.
pub open spec fn div_ceil(a: int, b: int) -> int {
    a / b + if a % b == 0 {
        0int
    } else {
        1int
    }
}

/// The smallest power of two that is at least `x` (1 for `x <= 1`).
pub open spec fn next_pow2(x: int) -> int
    decreases x,
{
    if x <= 1 {
        1
    } else {
        2 * next_pow2((x + 1) / 2)
    }
}

/// The number of words per shard for `capacity` slots, when a cache line holds
/// `line_words` words.
pub open spec fn words_per_shard_spec(capacity: int, line_words: int) -> int {
    let ideal_bits_per_shard = div_ceil(capacity, TARGET_SHARDS as int);
    let ideal_words = div_ceil(ideal_bits_per_shard, WORD_BITS as int);
    let words_p2 = next_pow2(ideal_words);
    if words_p2 > line_words {
        line_words
    } else if words_p2 < 1 {
        1
    } else {
        words_p2
    }
}

/// The number of shards for `capacity` slots, when a cache line holds
/// `line_words` words.
pub open spec fn shard_count_spec(capacity: int, line_words: int) -> int {
    div_ceil(capacity, words_per_shard_spec(capacity, line_words) * WORD_BITS as int)
}

pub proof fn lemma_next_pow2(x: int)
    ensures
        is_pow2(next_pow2(x)),
        next_pow2(x) >= x,
        next_pow2(x) >= 1,
        x >= 1 ==> next_pow2(x) < 2 * x,
        forall|q: int| is_pow2(q) && q >= x ==> next_pow2(x) <= q,
    decreases x,
{
    if x > 1 {
        let h = (x + 1) / 2;
        lemma_next_pow2(h);
        let p = next_pow2(h);
        assert(is_pow2(2 * p)) by {
            assert((2 * p) / 2 == p);
        }
        assert forall|q: int| is_pow2(q) && q >= x implies next_pow2(x) <= q by {
            // q >= x > 1 is even, and q / 2 >= h
            assert(q > 1);
            assert(q % 2 == 0 && is_pow2(q / 2));
            assert(q / 2 >= h);
        }
    } else {
        assert forall|q: int| is_pow2(q) && q >= x implies next_pow2(x) <= q by {
            assert(q >= 1);
        }
    }
}

/// Of two powers of two, the smaller is at most half the larger.
pub proof fn lemma_pow2_gap(p: int, q: int)
    requires
        is_pow2(p),
        is_pow2(q),
        p < q,
    ensures
        2 * p <= q,
    decreases p + q,
{
    lemma_words_pow2_pos(p);
    lemma_words_pow2_pos(q);
    let h = q / 2;
    assert(q > 1);
    assert(q % 2 == 0 && is_pow2(h));
    lemma_words_pow2_pos(h);
    if p < h {
        lemma_pow2_gap(p, h);
    } else if h < p {
        lemma_pow2_gap(h, p);
    }
}

/// A shard of `w` words holds the slots of `capacity` spread over
/// [`TARGET_SHARDS`] shards exactly when `w` reaches the ideal word count.
proof fn lemma_shard_fit(capacity: int, w: int)
    requires
        capacity >= 0,
        w >= 0,
    ensures
        (w * 64 * TARGET_SHARDS >= capacity) <==> (w >= div_ceil(div_ceil(capacity, TARGET_SHARDS as int), WORD_BITS as int)),
{
    let ib = div_ceil(capacity, 8);
    let iw = div_ceil(ib, 64);
    lemma_div_ceil(capacity, 8);
    lemma_div_ceil(ib, 64);
    assert(ib >= 0 && iw >= 0) by (nonlinear_arith)
        requires
            ib * 8 >= capacity,
            capacity >= 0,
            ib == capacity / 8 + if capacity % 8 == 0 { 0int } else { 1int },
            iw == ib / 64 + if ib % 64 == 0 { 0int } else { 1int },
    ;
    if w >= iw {
        assert(w * 64 * 8 >= capacity) by (nonlinear_arith)
            requires
                w >= iw,
                iw * 64 >= ib,
                ib * 8 >= capacity,
        ;
    } else {
        assert(ib > 0);
        assert(capacity > 0) by {
            if capacity == 0 {
                assert(ib == 0);
            }
        }
        assert(w * 64 * 8 < capacity) by (nonlinear_arith)
            requires
                w < iw,
                w >= 0,
                (iw - 1) * 64 < ib,
                (ib - 1) * 8 < capacity,
        ;
    }
}

/// The words per shard, described without the formula that computes them:
/// a power of two no larger than a cache line; unless capped at the cache
/// line, enough that [`TARGET_SHARDS`] shards hold `capacity` slots; and no
/// more than that needs, since half of it would not be enough.
pub open spec fn shard_words_fit(capacity: int, line_words: int, w: int) -> bool {
    &&& is_pow2(w)
    &&& 1 <= w <= line_words
    &&& (w == line_words || w * 64 * TARGET_SHARDS >= capacity)
    &&& (w == 1 || (w / 2) * 64 * TARGET_SHARDS < capacity)
}

/// The words per shard for `capacity` slots are the smallest power of two whose
/// shards, [`TARGET_SHARDS`] of them, hold the slots, capped at a cache line
/// of `line_words` words.
pub proof fn law_words_per_shard_fit(capacity: int, line_words: int)
    requires
        capacity >= 0,
        line_words_ok(line_words),
    ensures
        shard_words_fit(capacity, line_words, words_per_shard_spec(capacity, line_words)),
{
    let ib = div_ceil(capacity, 8);
    let iw = div_ceil(ib, 64);
    let p = next_pow2(iw);
    let w = words_per_shard_spec(capacity, line_words);
    lemma_next_pow2(iw);
    lemma_words_per_shard(capacity, line_words);
    lemma_div_ceil(capacity, 8);
    assert(ib >= 0) by (nonlinear_arith)
        requires
            ib * 8 >= capacity,
            capacity >= 0,
            ib == capacity / 8 + if capacity % 8 == 0 { 0int } else { 1int },
    ;
    lemma_div_ceil(ib, 64);
    assert(is_pow2(line_words)) by {
        assert(is_pow2(1));
        assert(is_pow2(2));
        assert(is_pow2(4));
        assert(is_pow2(8));
        assert(is_pow2(16));
        assert(is_pow2(32));
    }
    if p > line_words {
        assert(w == line_words);
        // The cache line is a power of two below the ideal one, so it falls
        // short of the ideal word count, and so does its half.
        assert(line_words < iw);
        lemma_shard_fit(capacity, line_words / 2);
    } else {
        assert(w == p);
        lemma_shard_fit(capacity, p);
        if p > 1 {
            assert(p % 2 == 0 && is_pow2(p / 2));
            assert(p / 2 < iw) by {
                if p / 2 >= iw {
                    assert(p <= p / 2);
                }
            }
            lemma_shard_fit(capacity, p / 2);
        }
    }
}

/// [`shard_words_fit`] pins the words per shard down: no other word count
/// meets it.
pub proof fn law_words_per_shard_unique(capacity: int, line_words: int, w: int)
    requires
        capacity >= 0,
        line_words_ok(line_words),
        shard_words_fit(capacity, line_words, w),
    ensures
        w == words_per_shard_spec(capacity, line_words),
{
    let ib = div_ceil(capacity, 8);
    let iw = div_ceil(ib, 64);
    let p = next_pow2(iw);
    let r = words_per_shard_spec(capacity, line_words);
    law_words_per_shard_fit(capacity, line_words);
    lemma_next_pow2(iw);
    lemma_shard_fit(capacity, w);
    lemma_shard_fit(capacity, r);
    if w > 1 {
        lemma_shard_fit(capacity, w / 2);
        assert(w % 2 == 0 && is_pow2(w / 2));
    }
    if r > 1 {
        lemma_shard_fit(capacity, r / 2);
        assert(r % 2 == 0 && is_pow2(r / 2));
    }
    if w < r {
        lemma_pow2_gap(w, r);
        // w falls short of the cap, so it reaches the ideal count; then half
        // of r does too, against the minimality of r.
        assert(w >= iw);
        assert(r / 2 >= w);
    } else if r < w {
        lemma_pow2_gap(r, w);
        assert(r >= iw);
        assert(w / 2 >= r);
    }
}

pub(crate) fn div_ceil_usize(a: usize, b: usize) -> (r: usize)
    requires
        b > 0,
    ensures
        r == div_ceil(a as int, b as int),
{
    assert(a % b != 0 ==> a / b < usize::MAX) by (nonlinear_arith)
        requires
            b > 0,
    {
        if a % b != 0 {
            assert(b != 1);
            assert(a / b <= a / 2);
        }
    }
    a / b + if a % b == 0 {
        0
    } else {
        1
    }
}

fn next_pow2_usize(x: usize) -> (r: usize)
    requires
        x <= usize::MAX / 2,
    ensures
        r == next_pow2(x as int),
    decreases x,
{
    proof {
        lemma_next_pow2(x as int);
    }
    if x <= 1 {
        1
    } else {
        let h = next_pow2_usize(x / 2 + x % 2);
        assert((x + 1) / 2 == x / 2 + x % 2);
        2 * h
    }
}

/// [`words_per_shard`] for a cache line of `line_words` words.
pub fn words_per_shard_for(capacity: usize, line_words: usize) -> (words: usize)
    ensures
        words == words_per_shard_spec(capacity as int, line_words as int),
        line_words_ok(line_words as int) ==> 1 <= words <= line_words && is_pow2(words as int),
        line_words_ok(line_words as int) ==> shard_words_fit(capacity as int, line_words as int, words as int),
{
    proof {
        if line_words_ok(line_words as int) {
            lemma_words_per_shard(capacity as int, line_words as int);
            law_words_per_shard_fit(capacity as int, line_words as int);
        }
    }
    let ideal_bits_per_shard = div_ceil_usize(capacity, TARGET_SHARDS);
    let ideal_words = div_ceil_usize(ideal_bits_per_shard, WORD_BITS);
    let words_p2 = next_pow2_usize(ideal_words);
    if words_p2 > line_words {
        line_words
    } else if words_p2 < 1 {
        1
    } else {
        words_p2
    }
}

/// Computes the optimal number of words per shard to balance shard count with memory consumption.
/// Returns between 1 and `WORDS_PER_CACHE_LINE`, targetting at least `TARGET_SHARDS` shards per pool.
pub fn words_per_shard(capacity: usize) -> (words: usize)
    ensures
        exists|line_words: int|
            line_words_ok(line_words) && words == words_per_shard_spec(capacity as int, line_words)
                && shard_words_fit(capacity as int, line_words, words as int),
        1 <= words <= 32,
        is_pow2(words as int),
{
    let line_words = words_per_cache_line();
    words_per_shard_for(capacity, line_words)
}

/// [`shard_count`] for a cache line of `line_words` words.
pub fn shard_count_for(capacity: usize, line_words: usize) -> (shards: usize)
    requires
        line_words_ok(line_words as int),
    ensures
        shards == shard_count_spec(capacity as int, line_words as int),
        shards_fit(capacity as int, words_per_shard_spec(capacity as int, line_words as int), shards as int),
        words_per_shard_spec(capacity as int, line_words as int) < line_words ==> shards <= TARGET_SHARDS,
{
    proof {
        lemma_words_per_shard(capacity as int, line_words as int);
        law_shard_count_fit(capacity as int, line_words as int);
    }
    let words = words_per_shard_for(capacity, line_words);
    let shard_bits = words * WORD_BITS;
    div_ceil_usize(capacity, shard_bits)
}

/// Calculates the number of shards used to store `capacity` slots.
pub fn shard_count(capacity: usize) -> (shards: usize)
    ensures
        exists|line_words: int|
            line_words_ok(line_words) && shards == shard_count_spec(capacity as int, line_words)
                && shards_fit(capacity as int, words_per_shard_spec(capacity as int, line_words), shards as int),
        capacity == 0 ==> shards == 0,
        capacity > 0 ==> shards >= 1,
{
    let line_words = words_per_cache_line();
    proof {
        if capacity > 0 {
            lemma_shard_count(capacity as int, line_words as int);
        } else {
            lemma_words_per_shard(0, line_words as int);
            assert(div_ceil(0, words_per_shard_spec(0, line_words as int) * WORD_BITS as int) == 0);
        }
    }
    shard_count_for(capacity, line_words)
}

/// `shards` shards of `w` words each hold `capacity` slots, and one shard
/// fewer would not.
pub open spec fn shards_fit(capacity: int, w: int, shards: int) -> bool {
    &&& shards >= 0
    &&& shards * w * 64 >= capacity
    &&& (capacity > 0 ==> (shards - 1) * w * 64 < capacity)
    &&& (capacity == 0 ==> shards == 0)
}

/// The shard count is the fewest shards of [`words_per_shard_spec`] words that
/// hold the slots; unless the shards are capped at a cache line, there are no
/// more than [`TARGET_SHARDS`] of them.
pub proof fn law_shard_count_fit(capacity: int, line_words: int)
    requires
        capacity >= 0,
        line_words_ok(line_words),
    ensures
        shards_fit(capacity, words_per_shard_spec(capacity, line_words), shard_count_spec(capacity, line_words)),
        words_per_shard_spec(capacity, line_words) < line_words ==> shard_count_spec(capacity, line_words) <= TARGET_SHARDS,
{
    let w = words_per_shard_spec(capacity, line_words);
    let n = shard_count_spec(capacity, line_words);
    lemma_words_per_shard(capacity, line_words);
    law_words_per_shard_fit(capacity, line_words);
    lemma_div_ceil(capacity, w * 64);
    assert(n >= 0) by (nonlinear_arith)
        requires
            n * (w * 64) >= capacity,
            capacity >= 0,
            w >= 1,
            n == capacity / (w * 64) + if capacity % (w * 64) == 0 { 0int } else { 1int },
    ;
    assert(n * w * 64 == n * (w * 64)) by (nonlinear_arith);
    assert((n - 1) * w * 64 == (n - 1) * (w * 64)) by (nonlinear_arith);
    if capacity == 0 {
        assert(n == 0);
    }
    if w < line_words {
        assert(w * 64 * 8 >= capacity);
        if capacity > 0 {
            assert(n - 1 < 8) by (nonlinear_arith)
                requires
                    (n - 1) * (w * 64) < capacity,
                    w * 64 * 8 >= capacity,
                    w >= 1,
            ;
        }
    }
}

/// The words per shard are a power of two between 1 and the words of a cache
/// line.
pub proof fn lemma_words_per_shard(capacity: int, line_words: int)
    requires
        capacity >= 0,
        line_words_ok(line_words),
    ensures
        ({
            let w = words_per_shard_spec(capacity, line_words);
            &&& 1 <= w <= line_words
            &&& is_pow2(w)
        }),
{
    let ideal_bits_per_shard = div_ceil(capacity, TARGET_SHARDS as int);
    let ideal_words = div_ceil(ideal_bits_per_shard, WORD_BITS as int);
    lemma_next_pow2(ideal_words);
    assert(is_pow2(line_words)) by {
        assert(is_pow2(1));
        assert(is_pow2(2));
        assert(is_pow2(4));
        assert(is_pow2(8));
        assert(is_pow2(16));
        assert(is_pow2(32));
    }
}

/// The shards that [`shard_count`] picks hold all `capacity` slots, and the last
/// of them holds at least one.
pub proof fn lemma_shard_count(capacity: int, line_words: int)
    requires
        capacity > 0,
        line_words_ok(line_words),
    ensures
        ({
            let shard_bits = words_per_shard_spec(capacity, line_words) * WORD_BITS as int;
            let shards = shard_count_spec(capacity, line_words);
            &&& shards >= 1
            &&& shards * shard_bits >= capacity
            &&& (shards - 1) * shard_bits < capacity
        }),
{
    lemma_words_per_shard(capacity, line_words);
    let shard_bits = words_per_shard_spec(capacity, line_words) * WORD_BITS as int;
    lemma_div_ceil(capacity, shard_bits);
}

/// `div_ceil(a, b)` is the least `q` with `q * b >= a`.
pub proof fn lemma_div_ceil(a: int, b: int)
    requires
        a >= 0,
        b > 0,
    ensures
        div_ceil(a, b) * b >= a,
        a > 0 ==> (div_ceil(a, b) - 1) * b < a,
        a > 0 ==> div_ceil(a, b) >= 1,
{
    let q = a / b;
    let r = a % b;
    assert(a == q * b + r && 0 <= r < b) by (nonlinear_arith)
        requires
            b > 0,
            q == a / b,
            r == a % b,
    ;
    assert(q >= 0) by (nonlinear_arith)
        requires
            a >= 0,
            b > 0,
            q == a / b,
    ;
    if r == 0 {
        assert(div_ceil(a, b) * b == q * b);
        if a > 0 {
            assert((q - 1) * b == q * b - b) by (nonlinear_arith);
            assert(q >= 1) by (nonlinear_arith)
                requires
                    a == q * b,
                    a > 0,
                    b > 0,
            ;
        }
    } else {
        assert((q + 1) * b == q * b + b) by (nonlinear_arith);
        assert(div_ceil(a, b) == q + 1);
    }
}

} // verus!
