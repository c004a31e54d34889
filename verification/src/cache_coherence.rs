//! This module contains traits and types to alter the scheduling behaviour of `SlotPools`.
//! `SlotPools` use [`CoherenceProvider`]s to decide at which shard a scan starts,
//! which spreads the accesses of different callers over different shards.
//!
//! The default [`CoherenceProvider`] across this crate is [`AutoCoherenceProvider`].
//!
//! If no or very low contention is to be expected, [`NoCoherence`] should be used.
//! The stepping rule of the round robin providers is [`advance_round_robin`], and
//! the stripe selection of the striped one is [`stripe_index`].
use vstd::prelude::*;

verus! {

/// interface for a type used to improve cacheline coherence under contention
pub trait CoherenceProvider {
    /// Whether `current_hint` may return `hint` in the provider's present
    /// state. Any hint may be returned unless an implementation says more; one
    /// whose hint depends on the calling thread leaves it so.
    open spec fn may_hint(&self, hint: usize) -> bool {
        true
    }

    /// Whether `advance_hint_by(count)` may take the provider to `next`. Any
    /// state may follow unless an implementation says more.
    open spec fn may_advance_to(&self, count: usize, next: &Self) -> bool {
        true
    }

    /// returns a hint used to inform the slot pool of the identiy of the calling thread and its affinity towards a unit of storage.
    fn current_hint(&self) -> (hint: usize)
        ensures
            self.may_hint(hint),
    ;

    /// Advances the hints internal state with some weight `count`. This does not necessarily correspond to an increase of `current_hint`.
    ///
    /// count is measured conceptually (not stricly) in bits and may be interpreted as the weigthed "number of bits dirtied by this operation".
    /// thus, it can be used to weight how "dirty" a unit of storage should be before leaving it.
    fn advance_hint_by(&mut self, count: usize)
        ensures
            old(self).may_advance_to(count, &*final(self)),
    ;
}

/// Does not perform any scheduling.
#[derive(Debug, Clone, Copy)]
pub struct NoCoherence;

impl Default for NoCoherence {
    fn default() -> (p: Self)
        ensures
            p == NoCoherence,
    {
        NoCoherence
    }
}

impl CoherenceProvider for NoCoherence {
    /// The hint is always zero.
    open spec fn may_hint(&self, hint: usize) -> bool {
        hint == 0
    }

    /// Advancing changes nothing.
    open spec fn may_advance_to(&self, count: usize, next: &Self) -> bool {
        *next == *self
    }

    fn current_hint(&self) -> (hint: usize)
        ensures
            hint == 0,
    {
        0
    }

    fn advance_hint_by(&mut self, count: usize) {
    }
}

/// chooses a good default coherence provider
///
/// The pools of this crate are driven through exclusive references, so the
/// default does not spread callers over shards: it is [`NoCoherence`].
pub struct AutoCoherenceProvider {
    provider: NoCoherence,
}

impl AutoCoherenceProvider {
    /// Constructs a new `AutoCoherenceProvider`
    pub fn new() -> Self {
        AutoCoherenceProvider { provider: NoCoherence }
    }
}

impl Default for AutoCoherenceProvider {
    fn default() -> Self {
        Self::new()
    }
}

impl CoherenceProvider for AutoCoherenceProvider {
    /// The hint is always zero.
    open spec fn may_hint(&self, hint: usize) -> bool {
        hint == 0
    }

    /// Advancing changes nothing.
    open spec fn may_advance_to(&self, count: usize, next: &Self) -> bool {
        *next == *self
    }

    fn current_hint(&self) -> (hint: usize)
        ensures
            hint == 0,
    {
        self.provider.current_hint()
    }

    fn advance_hint_by(&mut self, count: usize)
        ensures
            *final(self) == *old(self),
    {
        self.provider.advance_hint_by(count);
    }
}

/// The state `(hint, counter)` of a round robin walk after `count` more dirtied
/// bits: the walk takes one step per `step` bits, the hint wrapping around.
pub open spec fn round_robin_next(hint: int, counter: int, count: int, step: int) -> (int, int) {
    ((hint + (counter + count) / step) % (usize::MAX + 1), (counter + count) % step)
}

/// Advances a round robin walk at `(hint, counter)` by `count` dirtied bits,
/// taking one step of the hint per `step` bits.
pub fn advance_round_robin(hint: usize, counter: usize, count: usize, step: usize) -> (next: (
    usize,
    usize,
))
    requires
        step > 0,
    ensures
        (next.0 as int, next.1 as int) == round_robin_next(
            hint as int,
            counter as int,
            count as int,
            step as int,
        ),
{
    let q1 = counter / step;
    let r1 = counter % step;
    let q2 = count / step;
    let r2 = count % step;
    let (carry, rest) = if r1 >= step - r2 {
        (1usize, r1 - (step - r2))
    } else {
        (0usize, r1 + r2)
    };
    let next_hint = hint.wrapping_add(q1).wrapping_add(q2).wrapping_add(carry);
    proof {
        let c = counter as int + count as int;
        let m = usize::MAX as int + 1;
        assert(counter == q1 * step + r1 && count == q2 * step + r2) by (nonlinear_arith)
            requires
                step > 0,
                q1 == counter / step,
                r1 == counter % step,
                q2 == count / step,
                r2 == count % step,
        ;
        assert(c == (q1 + q2 + carry) * step + rest) by (nonlinear_arith)
            requires
                c == counter as int + count as int,
                counter == q1 * step + r1,
                count == q2 * step + r2,
                r1 + r2 == carry * step + rest,
        ;
        assert(c / (step as int) == q1 + q2 + carry && c % (step as int) == rest) by (nonlinear_arith)
            requires
                c == (q1 + q2 + carry) * step + rest,
                0 <= rest < step,
                step > 0,
        ;
        let h1 = hint.wrapping_add(q1);
        let h2 = h1.wrapping_add(q2);
        lemma_wrapping_add(hint, q1);
        lemma_wrapping_add(h1, q2);
        lemma_wrapping_add(h2, carry);
        lemma_mod_add_small(hint + q1, q2 as int, m);
        lemma_mod_add_small(hint + q1 + q2, carry as int, m);
    }
    (next_hint, rest)
}

/// `wrapping_add` adds modulo `usize::MAX + 1`.
proof fn lemma_wrapping_add(x: usize, y: usize)
    ensures
        x.wrapping_add(y) == (x + y) % (usize::MAX as int + 1),
{
    let m = usize::MAX as int + 1;
    if x + y > usize::MAX {
        assert((x + y) % m == x + y - m) by (nonlinear_arith)
            requires
                m <= x + y < 2 * m,
        ;
    } else {
        assert((x + y) % m == x + y) by (nonlinear_arith)
            requires
                0 <= x + y < m,
        ;
    }
}

/// Reducing before adding a small number does not change the remainder.
proof fn lemma_mod_add_small(a: int, b: int, m: int)
    requires
        m > 0,
        a >= 0,
        0 <= b < m,
    ensures
        ((a % m) + b) % m == (a + b) % m,
{
    vstd::arithmetic::div_mod::lemma_add_mod_noop(a, b, m);
    vstd::arithmetic::div_mod::lemma_small_mod(b as nat, m as nat);
}

/// The golden ratio as a 64-bit fraction, used to scatter addresses.
pub const PHI: u64 = 0x9E37_79B9_7F4A_7C15;

/// The stripe of `stripes` stripes that an address falls into: the top four
/// bits of the address scattered by [`PHI`], reduced modulo `stripes`.
pub open spec fn stripe_of(addr: u64, stripes: int) -> int {
    ((vstd::wrapping::u64_specs::wrapping_mul(addr, PHI) >> 60u64) as int) % stripes
}

/// Heuristic to select a stripe from an address.
pub fn stripe_index(addr: u64, stripes: usize) -> (idx: usize)
    requires
        stripes > 0,
    ensures
        idx == stripe_of(addr, stripes as int),
        idx < stripes,
{
    let hash = addr.wrapping_mul(PHI);
    let top = hash >> 60u64;
    assert(top < 16u64) by (bit_vector)
        requires
            top == hash >> 60u64,
    ;
    (top as usize) % stripes
}

} // verus!
