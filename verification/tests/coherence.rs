use lf_slots::cache_coherence::{
    advance_round_robin, stripe_index, AutoCoherenceProvider, CoherenceProvider, NoCoherence, PHI,
};

#[test]
fn no_coherence_zero() {
    let mut p = NoCoherence;
    assert_eq!(p.current_hint(), 0);
    p.advance_hint_by(usize::MAX);
    assert_eq!(p.current_hint(), 0,);
}

#[test]
fn auto_coherence_starts_at_zero() {
    let mut p = AutoCoherenceProvider::new();
    assert_eq!(p.current_hint(), 0);
    p.advance_hint_by(1000);
    assert_eq!(p.current_hint(), 0);
}

#[test]
fn round_robin_one_step_per_bit() {
    // With a step of one bit, every dirtied bit moves the hint on by one.
    let (mut hint, mut counter) = (5usize, 1usize);
    for _ in 0..100 {
        let before = hint;
        let (h, c) = advance_round_robin(hint, counter, 1, 1);
        hint = h;
        counter = c;
        assert!(hint > before);
        assert_eq!(counter, 0);
    }
    // The counter starts at one, so the first advance takes two steps.
    assert_eq!(hint, 106);
}

#[test]
fn round_robin_counts_up_to_a_step() {
    assert_eq!(advance_round_robin(3, 0, 5, 8), (3, 5));
    assert_eq!(advance_round_robin(3, 5, 5, 8), (4, 2));
    assert_eq!(advance_round_robin(3, 2, 30, 8), (7, 0));
    assert_eq!(advance_round_robin(usize::MAX, 7, 1, 8), (0, 0));
}

#[test]
fn round_robin_does_not_overflow_the_counter() {
    assert_eq!(advance_round_robin(0, 9, usize::MAX, 10), (usize::MAX / 10 + 1, (usize::MAX % 10 + 9) % 10));
}

#[test]
fn round_robin_is_additive() {
    let (h1, c1) = advance_round_robin(11, 3, 77, 16);
    let (h2, c2) = advance_round_robin(h1, c1, 500, 16);
    assert_eq!(advance_round_robin(11, 3, 577, 16), (h2, c2));
}

#[test]
fn stripes_come_from_the_top_bits() {
    assert_eq!(stripe_index(0, 8), 0);
    let hash = 1u64.wrapping_mul(PHI);
    assert_eq!(stripe_index(1, 8), ((hash >> 60) as usize) % 8);
    assert_eq!(stripe_index(1, 16), 9);
    for addr in [3u64, 1 << 20, u64::MAX, 0xdead_beef] {
        assert!(stripe_index(addr, 5) < 5);
    }
}
