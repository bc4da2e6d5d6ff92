//! Counts behind contexts of several lengths.

use infotheory::backends::ppmd::{ContextStats, PpmdModel, INLINE_CONTEXT_COUNTS};

const FNV_OFFSET: u64 = 0xCBF2_9CE4_8422_2325;
const FNV_PRIME: u64 = 0x1000_0000_01B3;

fn hash_bytes(bytes: &[u8]) -> u64 {
    let mut h = FNV_OFFSET;
    for &b in bytes {
        h = (h ^ u64::from(b)).wrapping_mul(FNV_PRIME);
    }
    h
}

fn reference_context_key(history: &[u8], ord: usize) -> u64 {
    if ord == 0 {
        0
    } else {
        hash_bytes(&history[history.len() - ord..])
    }
}

fn assert_suffix_keys_match_reference(model: &PpmdModel) {
    let max_order = model.longest_context();
    for ord in 0..=max_order {
        assert_eq!(
            model.context_key(ord),
            reference_context_key(model.history(), ord)
        );
    }
}

#[test]
fn rolling_suffix_keys_match_recomputed_suffix_hashes() {
    let mut model = PpmdModel::new(12, 1);
    let bytes = [
        0, 1, 2, 3, 255, 128, 64, 32, 16, 8, 4, 2, 1, 0, 251, 17, 99, 100,
    ];
    assert_suffix_keys_match_reference(&model);
    for &byte in &bytes {
        model.update(byte);
        assert_suffix_keys_match_reference(&model);
    }

    let mut cloned = model.duplicate();
    assert_suffix_keys_match_reference(&cloned);
    for &byte in &[7, 6, 5, 4, 3, 2, 1] {
        cloned.update_history_only(byte);
        assert_suffix_keys_match_reference(&cloned);
    }

    cloned.reset_history();
    assert_suffix_keys_match_reference(&cloned);
    assert_eq!(cloned.longest_context(), 0);

    for &byte in &[42, 43, 44, 45] {
        cloned.update_history_only(byte);
        assert_suffix_keys_match_reference(&cloned);
    }
}

#[test]
fn context_stats_spills_after_inline_capacity_without_changing_counts() {
    let mut ctx = ContextStats::new();
    for &symbol in &[1u8, 2, 3, 4, 5, 5, 4, 3, 2, 1] {
        ctx.observe(symbol);
    }

    assert_eq!(ctx.inline_count(), INLINE_CONTEXT_COUNTS);
    assert!(ctx.has_spilled());
    assert_eq!(ctx.distinct_len(), 5);

    let mut seen = [0u16; 256];
    for i in 0..ctx.distinct_len() {
        let entry = ctx.entry(i);
        seen[entry.symbol as usize] = entry.count;
    }
    assert_eq!(seen[1], 2);
    assert_eq!(seen[2], 2);
    assert_eq!(seen[3], 2);
    assert_eq!(seen[4], 2);
    assert_eq!(seen[5], 2);
    assert_eq!(ctx.total(), 10);
}

#[test]
fn active_contexts_follow_the_history() {
    let mut model = PpmdModel::new(3, 1);
    for &b in b"abcabcabc" {
        model.update(b);
    }
    model.reset_history();
    assert_eq!(model.active_contexts().len(), 1);
    model.update_history_only(b'a');
    model.update_history_only(b'b');
    let active = model.active_contexts();
    assert_eq!(active.len(), 3);
    let longest = active[active.len() - 1];
    assert_eq!(longest.distinct_len(), 1);
    assert_eq!(longest.entry(0).symbol, b'c');
    assert_eq!(longest.entry(0).count, 3);
}

#[test]
fn snapshots_bring_the_history_back() {
    let mut model = PpmdModel::new(4, 1);
    for &b in b"hello" {
        model.update(b);
    }
    let snapshot = model.lifecycle_snapshot();
    model.reset_history();
    assert_eq!(model.history().len(), 0);
    model.restore_lifecycle_snapshot(snapshot);
    assert_eq!(model.longest_context(), 4);
    assert_suffix_keys_match_reference(&model);
}

#[test]
fn counts_of_a_busy_context_are_halved() {
    let mut ctx = ContextStats::new();
    for _ in 0..70_000u32 {
        ctx.observe(9);
    }
    ctx.observe(8);
    let sum: u32 = (0..ctx.distinct_len()).map(|i| ctx.entry(i).count as u32).sum();
    assert_eq!(ctx.total(), sum);
}
