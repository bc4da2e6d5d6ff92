//! Counts behind contexts.

use infotheory::backends::context_counter::{
    finalize_hash, hash_byte, hash_u64, maximum_resident_bytes, ContextSlot, CounterError,
    HashedCounterCore, CONTEXT_COUNTER_MAX_HASH_BITS,
};
use infotheory::backends::context_models::{OrderNGramModel, WordContextModel};
use std::sync::Arc;

const BYTE_SYMBOLS: usize = 256;
const ALPHA: f64 = 0.5;

fn spread(slot: Option<&ContextSlot>, min_prob: f64) -> Vec<f64> {
    let mut pdf = vec![1.0 / 256.0; BYTE_SYMBOLS];
    if let Some(slot) = slot {
        let denom = (slot.total as f64) + ALPHA * 256.0;
        for (p, &count) in pdf.iter_mut().zip(slot.counts.iter()) {
            *p = (count as f64 + ALPHA) / denom;
        }
        let mut sum = 0.0;
        for p in pdf.iter_mut() {
            *p = p.max(min_prob);
            sum += *p;
        }
        for p in pdf.iter_mut() {
            *p *= 1.0 / sum;
        }
    }
    pdf
}

fn order_pdf(model: &OrderNGramModel, min_prob: f64) -> Vec<f64> {
    spread(model.current(), min_prob)
}

fn word_pdf(model: &WordContextModel, min_prob: f64) -> Vec<f64> {
    spread(model.current(), min_prob)
}

#[test]
fn order_ngram_learns_repeated_context() {
    let mut model = OrderNGramModel::new(2, 8).expect("model");
    for &b in b"abababababababab" {
        model.update(b);
    }
    model.update_history_only(b'a');
    let p_b = order_pdf(&model, 1e-9)[b'b' as usize];
    let p_x = order_pdf(&model, 1e-9)[b'x' as usize];
    assert!(p_b > p_x, "p_b={p_b} p_x={p_x}");
}

#[test]
fn word_context_learns_word_continuation() {
    let mut model = WordContextModel::new(8).expect("model");
    for &b in b"hello hello hello " {
        model.update(b);
    }
    for &b in b"hell" {
        model.update_history_only(b);
    }
    let p_o = word_pdf(&model, 1e-9)[b'o' as usize];
    let p_x = word_pdf(&model, 1e-9)[b'x' as usize];
    assert!(p_o > p_x, "p_o={p_o} p_x={p_x}");
}

#[test]
fn order_ngram_clone_shares_counts_until_the_cloned_context_is_mutated() {
    let mut original = OrderNGramModel::new(1, 8).expect("model");
    for _ in 0..32 {
        original.reset_history();
        original.update_history_only(b'a');
        original.update(b'b');
    }
    original.reset_history();
    original.update_history_only(b'a');
    let key = original.context_key().expect("complete context");
    let before = order_pdf(&original, 1e-12);

    let mut cloned = original.duplicate();
    {
        let original_counts = &original.table().lookup(key).expect("trained counts").counts;
        let cloned_counts = &cloned.table().lookup(key).expect("cloned counts").counts;
        assert!(
            Arc::ptr_eq(original_counts, cloned_counts),
            "model cloning must share immutable count payloads"
        );
    }

    cloned.update(b'b');
    let original_counts = &original.table().lookup(key).expect("counts").counts;
    let cloned_counts = &cloned.table().lookup(key).expect("detached counts").counts;
    assert!(
        !Arc::ptr_eq(original_counts, cloned_counts),
        "training the clone must detach only its mutated context"
    );
    assert_eq!(order_pdf(&original, 1e-12), before);
}

#[test]
fn maximum_resident_bytes_covers_slot_and_count_payloads() {
    let sparse_bucket_bytes = 4 * (std::mem::size_of::<(usize, ContextSlot)>() + 1);
    let per_slot = sparse_bucket_bytes + std::mem::size_of::<[u16; BYTE_SYMBOLS]>();
    assert_eq!(maximum_resident_bytes(1).expect("two slots"), 2 * per_slot);
    assert!(maximum_resident_bytes(0).is_err());
    assert!(maximum_resident_bytes(CONTEXT_COUNTER_MAX_HASH_BITS + 1).is_err());
}

#[test]
fn construction_is_lazy_even_at_the_largest_hash_width() {
    let order = OrderNGramModel::new(1, CONTEXT_COUNTER_MAX_HASH_BITS).expect("order model");
    let word = WordContextModel::new(CONTEXT_COUNTER_MAX_HASH_BITS).expect("word-context model");
    assert_eq!(order.table().occupied(), 0);
    assert_eq!(word.table().occupied(), 0);
    assert_eq!(order.table().capacity(), 0);
    assert_eq!(word.table().capacity(), 0);
}

#[test]
fn zero_and_one_tags_remain_distinct() {
    let mut core = HashedCounterCore::new(8).expect("core");
    let low_bits: u64 = 37;
    let zero_tag_key: u64 = low_bits;
    let one_tag_key: u64 = (1u64 << 8) | low_bits;
    let (zero_idx, zero_tag) = core.index_tag(zero_tag_key);
    let (one_idx, one_tag) = core.index_tag(one_tag_key);
    assert_eq!(zero_idx, one_idx, "fixture must target one bounded slot");
    assert_eq!(zero_tag, 0);
    assert_eq!(one_tag, 1);
    assert_ne!(zero_tag, one_tag);

    core.observe(zero_tag_key, b'a');
    assert!(core.lookup(zero_tag_key).is_some());
    core.observe(one_tag_key, b'b');
    assert!(
        core.lookup(zero_tag_key).is_none(),
        "a distinct tag at the same bounded index must evict the old context"
    );
    assert!(core.lookup(one_tag_key).is_some());
    assert_eq!(core.occupied(), 1);
}

#[test]
fn order_ngram_checkpoint_restores_counts_and_history_without_cloning_slots() {
    let mut model = OrderNGramModel::new(1, 16).expect("model");
    for _ in 0..32 {
        model.reset_history();
        model.update_history_only(b'a');
        model.update(b'b');
    }
    model.reset_history();
    model.update_history_only(b'a');
    let before = order_pdf(&model, 1e-12);
    let slot_count_before: usize = model.table().occupied();

    let checkpoint = model.checkpoint();
    model.update(b'c');
    model.update(b'd');
    assert_ne!(order_pdf(&model, 1e-12), before);

    model.restore_checkpoint(&checkpoint);
    assert_eq!(order_pdf(&model, 1e-12), before);
    assert_eq!(model.table().occupied(), slot_count_before);
    model.discard_checkpoint();
    assert_eq!(model.table().checkpoint_depth(), 0);
    assert_eq!(model.table().journal_len(), 0);
}

#[test]
fn word_context_checkpoint_restores_counts_and_text_state() {
    let mut model = WordContextModel::new(12).expect("model");
    for &symbol in b"hello hello hello " {
        model.update(symbol);
    }
    let before = word_pdf(&model, 1e-12);
    let checkpoint = model.checkpoint();
    for &symbol in b"different context" {
        model.update(symbol);
    }
    model.restore_checkpoint(&checkpoint);
    assert_eq!(word_pdf(&model, 1e-12), before);
    model.discard_checkpoint();
}

#[test]
fn parameters_out_of_range_are_refused() {
    assert!(matches!(OrderNGramModel::new(0, 8), Err(CounterError::Order)));
    assert!(matches!(OrderNGramModel::new(9, 8), Err(CounterError::Order)));
    assert!(matches!(OrderNGramModel::new(1, 0), Err(CounterError::HashBits)));
    assert!(matches!(WordContextModel::new(25), Err(CounterError::HashBits)));
    assert_eq!(
        CounterError::HashBits.message(),
        "context-counter hash_bits must be in 1..=24"
    );
    assert!(CounterError::Overflow.message().contains("overflow"));
}

#[test]
fn counts_are_halved_when_they_grow_too_large() {
    let mut core = HashedCounterCore::new(4).expect("core");
    for _ in 0..70_000u32 {
        core.observe(3, 7);
    }
    core.observe(3, 9);
    let slot = core.lookup(3).expect("slot");
    let sum: u32 = slot.counts.iter().map(|&c| c as u32).sum();
    assert_eq!(slot.total, sum);
    assert!(slot.counts[7] > slot.counts[9]);
    assert!(slot.counts[9] >= 1);
}

#[test]
fn hashes_follow_their_formulas() {
    let start: u64 = 0xcbf2_9ce4_8422_2325;
    assert_eq!(hash_byte(start, b'a'), 0xaf63_dc4c_8601_ec8c);
    let mut h = start;
    for b in 0x0102_0304_0506_0708u64.to_le_bytes() {
        h = hash_byte(h, b);
    }
    assert_eq!(hash_u64(start, 0x0102_0304_0506_0708), h);
    assert_eq!(finalize_hash(0), 0);
    assert_eq!(finalize_hash(1), 0xb456_bcfc_34c2_cb2c);
}

#[test]
fn lifecycle_snapshots_keep_the_counts() {
    let mut model = OrderNGramModel::new(1, 8).expect("model");
    model.update(b'a');
    model.update(b'b');
    let history = model.lifecycle_snapshot();
    model.reset_history();
    assert!(model.context_key().is_none());
    model.restore_lifecycle_snapshot(history);
    model.update(b'c');
    assert_eq!(model.table().occupied(), 2);
    let mut words = WordContextModel::new(8).expect("model");
    for &b in b"one two" {
        words.update(b);
    }
    let key = words.context_key();
    let snapshot = words.lifecycle_snapshot();
    words.update_history_only(b'x');
    assert_ne!(words.context_key(), key);
    words.restore_lifecycle_snapshot(&snapshot);
    assert_eq!(words.context_key(), key);
}
