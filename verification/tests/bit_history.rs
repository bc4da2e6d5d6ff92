//! Bookkeeping of the bit predictor.

use infotheory::backends::bit_reservoir::{
    draw_reservoir, mix64, BitHistory, SplitMix64, WeightOverlay, TOTAL_SPARSE_FEATURES,
};

#[test]
fn histories_remember_the_last_bits() {
    let mut h = BitHistory::new(3);
    assert_eq!(h.recent_len(), 0);
    for bit in [true, true, false, true, false] {
        h.advance(bit);
    }
    assert_eq!(h.recent_len(), 3);
    assert!(!h.recent(0));
    assert!(h.recent(1));
    assert!(!h.recent(2));
    assert_eq!(h.phase(), 5);
    let copy = h.duplicate();
    assert_eq!(copy.phase(), 5);
    assert_eq!(
        copy.history_feature_index(20, 1023, 9),
        h.history_feature_index(20, 1023, 9)
    );
}

#[test]
fn feature_indices_stay_in_their_group() {
    let mask = 1023usize;
    let mut h = BitHistory::new(8);
    let mut seen: Vec<Vec<usize>> = Vec::new();
    for i in 0..100u32 {
        h.advance(i % 3 == 0);
        let mut row = Vec::new();
        for group in 0..TOTAL_SPARSE_FEATURES {
            let index = h.history_feature_index(group, mask, 0x1234_5678);
            assert_eq!(index / (mask + 1), group);
            row.push(index);
        }
        seen.push(row);
    }
    assert_ne!(seen[10], seen[11]);
}

#[test]
fn short_windows_see_the_last_bits_only() {
    let mut a = BitHistory::new(4);
    let mut b = BitHistory::new(4);
    for i in 0..72u32 {
        a.advance(i % 2 == 0 || i >= 64);
        b.advance(i % 5 == 0 || i >= 64);
    }
    for group in 0..8usize {
        assert_eq!(
            a.history_feature_index(group, 255, 3),
            b.history_feature_index(group, 255, 3)
        );
    }
    assert_ne!(
        a.history_feature_index(13, 65535, 3),
        b.history_feature_index(13, 65535, 3)
    );
}

#[test]
fn random_numbers_follow_their_formula() {
    let mut rng = SplitMix64::new(0);
    assert_eq!(rng.next_u64(), 0xe220_a839_7b1d_cdaf);
    assert_eq!(rng.next_u64(), 0x6e78_9e6a_a1b9_65f4);
    let mut again = SplitMix64::new(0);
    assert_eq!(again.next_usize(0), 0);
    assert_eq!(again.next_usize(10), (0xe220_a839_7b1d_cdafu64 % 10) as usize);
    assert_eq!(mix64(0x9E37_79B9_7F4A_7C15), 0xe220_a839_7b1d_cdaf);
}

#[test]
fn draws_have_their_sizes() {
    let d = draw_reservoir(7, 5);
    assert_eq!(d.source.len(), 5);
    assert_eq!(d.phase.len(), 40);
    assert!(d.source.iter().all(|&s| s < 5));
    assert!(d.recurrent.iter().all(|&x| x < 1 << 24));
    let mut rng = SplitMix64::new(7);
    let first = rng.next_u64();
    assert_eq!(d.source[0], (1 + (first % 4) as usize % 5) % 5);
    assert_eq!(d.recurrent[0] as u64, rng.next_u64() >> 40);
    assert_eq!(d.input[0] as u64, rng.next_u64() >> 40);
    assert_eq!(d.jitter[0] as u64, rng.next_u64() >> 40);
}

#[test]
fn overlays_hide_weights() {
    let mut overlay = WeightOverlay::new();
    assert_eq!(overlay.get(3), None);
    overlay.set_history_weight(3, 30);
    overlay.set_history_weight(4, 40);
    overlay.set_history_weight(3, 31);
    assert_eq!(overlay.get(3), Some(31));
    assert_eq!(overlay.get(4), Some(40));
    assert_eq!(overlay.get(5), None);
}
