use grand_pattern::seed::{lcg_draws, LCG_MULTIPLIER, WEIGHT_SEED};
use grand_pattern::EntryKind;

#[test]
fn draws_follow_the_generator() {
    let draws = lcg_draws(WEIGHT_SEED, 4);
    assert_eq!(draws.len(), 4);
    let mut state: u64 = 0xC0FFEE;
    for d in draws {
        state = state.wrapping_mul(6364136223846793005).wrapping_add(1);
        assert_eq!(d, state >> 33);
        assert!(d < (1u64 << 31));
    }
}

#[test]
fn first_draw_exact_value() {
    // 0xC0FFEE * 6364136223846793005 + 1, modulo 2^64, shifted right by 33.
    let state = ((0xC0FFEEu128 * 6364136223846793005u128 + 1) % (1u128 << 64)) as u64;
    assert_eq!(lcg_draws(WEIGHT_SEED, 1), vec![state >> 33]);
    assert_eq!(LCG_MULTIPLIER, 6364136223846793005);
}

#[test]
fn zero_draws() {
    assert!(lcg_draws(7, 0).is_empty());
}

#[test]
fn entry_kinds_compare_by_variant() {
    assert_eq!(EntryKind::Surprise, EntryKind::Surprise);
    assert_ne!(EntryKind::Perception, EntryKind::Prediction);
    let k = EntryKind::Prediction;
    let copy = k;
    assert_eq!(k, copy);
}
