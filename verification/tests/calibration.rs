//! Corrections of bit probabilities, and what they depend on.

use std::sync::Arc;

use infotheory::backends::calibration::{
    context_cardinality, context_index, interpolate_delta, pack_entry, quantize, unpack_count,
    unpack_delta, CalibrationContextKind, CalibrationError, CalibratorCore,
};
use infotheory::backends::text_context::{
    bucket_repeat_len, bucket_word_len, classify_byte, is_word_byte, TextContextAnalyzer,
};
use infotheory::byte_prefix::{advanced_prefix_code, MsbPrefixRange};

const HALF: i64 = 31 * 128;

fn new_core() -> CalibratorCore {
    CalibratorCore::new(CalibrationContextKind::Global, 32, 31)
}

#[test]
fn new_calibrator_preserves_base_bit_probabilities_before_training() {
    let mut core = new_core();
    core.begin_byte().expect("begin prefix");
    for pos in [0, 1, 255, 256, 4000, HALF, 7935, 7936, i64::MAX, i64::MIN] {
        assert_eq!(core.predict_bit(0, pos).expect("untrained prediction"), 0);
    }
    core.abort_empty_byte().expect("abort empty prefix");
}

#[test]
fn sse_rows_are_materialized_only_by_training() {
    let mut core = new_core();
    assert_eq!(
        core.trained_rows(),
        0,
        "new zero-correction SSE tables should not allocate dense rows"
    );

    core.begin_byte().expect("begin prefix");
    core.predict_bit(0, HALF).expect("predict bit");
    assert_eq!(
        core.trained_rows(),
        0,
        "prediction alone must keep absent rows implicit"
    );

    core.observe_bit(0, true, 8).expect("observe bit");
    assert_eq!(
        core.trained_rows(),
        1,
        "first trained bit should materialize exactly one SSE row"
    );
}

#[test]
fn observe_symbol_from_base_pdf_reports_active_prefix_violation() {
    let mut core = new_core();
    core.begin_byte().expect("begin prefix");
    let err = core
        .observe_symbol_from_base_pdf(0, &[HALF; 8], &[8; 8])
        .expect_err("fallback byte observation must reject active prefix state");
    assert!(err.message().contains("already active"));
    core.abort_empty_byte().expect("abort empty prefix");
}

#[test]
fn byte_prefix_finish_and_abort_validate_without_closing_nonempty_session() {
    let mut core = new_core();

    core.begin_byte().expect("begin prefix");
    let finish_err = core
        .finish_byte()
        .expect_err("empty prefix cannot finish as a byte");
    assert!(finish_err.message().contains("requires 8 observed bits, got 0"));
    assert!(core.byte_is_active());

    core.predict_bit(0, HALF).expect("predict bit 0");
    core.observe_bit(0, true, 8).expect("observe bit 0");
    let abort_err = core
        .abort_empty_byte()
        .expect_err("non-empty prefix cannot be aborted as empty");
    assert!(abort_err.message().contains("got 1"));
    assert!(core.byte_is_active());

    for bit_idx in 1..8usize {
        core.predict_bit(bit_idx, HALF)
            .expect("predict remaining prefix bit");
        core.observe_bit(bit_idx, false, -8)
            .expect("observe remaining prefix bit");
    }
    assert!(core.byte_is_active());
    core.finish_byte().expect("complete byte should finish");
    assert!(!core.byte_is_active());
}

#[test]
fn observe_symbol_from_base_pdf_closes_completed_prefix_session() {
    let mut core = new_core();
    let steps = |symbol: u8| std::array::from_fn(|i| if symbol >> (7 - i) & 1 == 1 { 8 } else { -8 });
    core.observe_symbol_from_base_pdf(0x80, &[HALF; 8], &steps(0x80))
        .expect("first fallback observation");
    assert!(!core.byte_is_active());
    core.observe_symbol_from_base_pdf(0x00, &[HALF; 8], &steps(0x00))
        .expect("second fallback observation should not see stale active state");
    assert!(!core.byte_is_active());
    assert_eq!(core.trained_rows(), 15);
}

#[test]
fn a_symbol_is_learned_bit_by_bit() {
    let positions: [i64; 8] = [0, 500, 1000, HALF, HALF, 5000, 7000, 7936];
    let steps: [i32; 8] = [7, -3, 2, 600, -600, 1, 0, -1];
    let symbol: u8 = 0b1011_0010;
    let mut whole = new_core();
    whole
        .observe_symbol_from_base_pdf(symbol, &positions, &steps)
        .expect("whole symbol");
    let mut single = new_core();
    single.begin_byte().expect("begin");
    for i in 0..8usize {
        single.predict_bit(i, positions[i]).expect("predict");
        single
            .observe_bit(i, symbol >> (7 - i) & 1 == 1, steps[i])
            .expect("observe");
    }
    single.finish_byte().expect("finish");
    for row in 0..255usize {
        assert_eq!(whole.trained_row(row), single.trained_row(row));
    }
    assert_eq!(whole.trained_rows(), 8);
    assert_eq!(whole.map_bit(0, 0b1101, 4096), 512);
    assert_eq!(whole.map_bit(0, 0b1101, HALF), 256);
    assert_eq!(whole.map_bit(0, 0b11011, 4096), -512);
    assert_eq!(whole.map_bit(0, 0, 0), 7);
    assert_eq!(whole.map_bit(0, 40_000, 0), whole.map_bit(0, 255, 0));
    assert_eq!(whole.current_context(), 0);
    assert_eq!(whole.prefix_code(), 1);
}

#[test]
fn cloned_calibrator_shares_sse_table_until_training_mutates_it() {
    let mut core = CalibratorCore::new(CalibrationContextKind::TextRepeat, 32, 31);
    core.observe_symbol_from_base_pdf(255, &[HALF; 8], &[8; 8])
        .expect("a symbol");
    core.reset_context();
    let rows = 255 * context_cardinality(CalibrationContextKind::TextRepeat);
    let checkpoint = core.duplicate();
    let shared = |core: &CalibratorCore| {
        (0..rows)
            .filter(|&row| match (core.trained_row(row), checkpoint.trained_row(row)) {
                (Some(one), Some(two)) => Arc::ptr_eq(one, two),
                (None, None) => true,
                _ => false,
            })
            .count()
    };
    assert_eq!(
        shared(&core),
        rows,
        "checkpoint clone should share the large SSE table"
    );

    core.begin_byte().expect("begin prefix");
    core.predict_bit(0, HALF).expect("predict bit");
    core.observe_bit(0, true, 8)
        .expect("training should detach table");

    assert_eq!(
        shared(&core),
        rows - 1,
        "training with a live checkpoint must fork the row that it trains"
    );
}

#[test]
fn incomplete_byte_rollback_restores_sse_rows() {
    let mut core = new_core();

    core.begin_byte().expect("begin prefix");
    core.predict_bit(0, HALF).expect("predict bit");
    core.observe_bit(0, true, 8).expect("observe bit");
    assert_eq!(
        core.trained_rows(),
        1,
        "training should materialize one row before rollback"
    );

    core.rollback_incomplete_byte()
        .expect("rollback incomplete byte");
    assert_eq!(
        core.trained_rows(),
        0,
        "rollback should remove rows first materialized by the abandoned byte"
    );
    assert!(!core.byte_is_active());
}

#[test]
fn corrections_are_learned_and_taken_back() {
    let mut core = new_core();
    core.observe_symbol_from_base_pdf(0xFF, &[HALF; 8], &[8; 8])
        .expect("a symbol");
    core.begin_byte().expect("begin");
    let learned = core.predict_bit(0, HALF).expect("predict");
    assert!(learned > 0);
    assert_eq!(core.pending_count(), Some(32));
    assert!(core.is_pending());
    core.observe_bit(0, true, i32::MAX).expect("observe");
    assert!(!core.is_pending());
    core.rollback_incomplete_byte().expect("rollback");
    core.begin_byte().expect("begin");
    assert_eq!(core.predict_bit(0, HALF).expect("predict"), learned);
    let mut copy = core.duplicate();
    copy.reset_context();
    copy.update_context_only(b'a');
    assert!(!copy.byte_is_active());
    assert_eq!(copy.trained_rows(), core.trained_rows());
}

#[test]
fn steps_out_of_turn_are_refused() {
    let mut core = new_core();
    assert_eq!(core.predict_bit(0, 0), Err(CalibrationError::NotActive));
    assert_eq!(core.finish_byte(), Err(CalibrationError::NotActive));
    assert_eq!(core.rollback_incomplete_byte(), Ok(()));
    core.begin_byte().expect("begin");
    assert_eq!(core.begin_byte(), Err(CalibrationError::AlreadyActive));
    assert_eq!(core.predict_bit(8, 0), Err(CalibrationError::BitOutOfRange(8)));
    assert_eq!(
        core.predict_bit(3, 0),
        Err(CalibrationError::BitOutOfTurn { given: 3, expected: 0 })
    );
    assert_eq!(core.observe_bit(0, true, 0), Err(CalibrationError::NotPredicted));
    for bit_idx in 0..7usize {
        core.condition_prefix_bit_for_rollback(bit_idx, true).expect("condition");
    }
    core.condition_prefix_bit_for_rollback(7, true).expect("condition");
    assert_eq!(core.validate_complete_byte(), Err(CalibrationError::FinishIncomplete(7)));
    assert_eq!(core.validate_empty_byte(), Err(CalibrationError::AbortNonEmpty(7)));
    core.predict_bit(7, HALF).expect("predict");
    core.observe_bit(7, true, 1).expect("observe");
    assert_eq!(core.rollback_incomplete_byte(), Err(CalibrationError::RollbackComplete));
    assert_eq!(
        CalibrationError::BitOutOfTurn { given: 3, expected: 0 }.message(),
        "calibrated SSE byte-prefix bit index 3 violated sequential stepping; expected 0"
    );
}

#[test]
fn entries_hold_corrections_and_counts() {
    for delta in [-20_000, -16_384, -1, 0, 1, 16_384, 20_000] {
        for count in [0u16, 1, 1023, 1024, 1025, u16::MAX] {
            let entry = pack_entry(delta, count);
            assert_eq!(unpack_delta(entry), delta.clamp(-16_384, 16_384));
            assert_eq!(unpack_count(entry), count & 1023);
        }
    }
    assert_eq!(pack_entry(-1, 5), 0xFFFF_FC05);
    assert_eq!(interpolate_delta(100, 200, 128), 150);
    assert_eq!(interpolate_delta(-100, -101, 128), -101);
    let q = quantize(300, 4);
    assert_eq!((q.lower_bin, q.weight_hi, q.nearest_bin), (1, 44, 1));
    let q = quantize(i64::MAX, 4);
    assert_eq!((q.lower_bin, q.weight_hi, q.nearest_bin), (2, 256, 3));
}

#[test]
fn contexts_are_numbered() {
    let mut analyzer = TextContextAnalyzer::new();
    for &b in b"Hello, (world)! Hello, " {
        analyzer.update(b);
    }
    let state = analyzer.state();
    for kind in [
        CalibrationContextKind::Global,
        CalibrationContextKind::ByteClass,
        CalibrationContextKind::Text,
        CalibrationContextKind::Repeat,
        CalibrationContextKind::TextRepeat,
    ] {
        assert!(context_index(kind, state) < context_cardinality(kind));
    }
    assert_eq!(context_index(CalibrationContextKind::Global, state), 0);
    assert_eq!(
        context_index(CalibrationContextKind::ByteClass, state),
        classify_byte(b' ') as usize
    );
    assert!(state.repeat_len_bucket > 0);
    assert!(state.has_history);
    let mut plain = TextContextAnalyzer::without_repeat_tracking();
    plain.update(b'a');
    assert!(plain.state().in_word);
    assert_eq!(plain.duplicate().state(), plain.state());
    assert!(is_word_byte(b'_') || is_word_byte(b'a'));
    assert!(bucket_word_len(1) <= bucket_word_len(9));
    assert!(bucket_repeat_len(0) < bucket_repeat_len(200));
}

#[test]
fn msb_prefix_range_tracks_cdf_halves() {
    let cdf: Vec<f64> = (0..257).map(|i| i as f64).collect();
    let prob_one = |r: MsbPrefixRange| {
        (cdf[r.hi] - cdf[r.mid()]) / (cdf[r.hi] - cdf[r.lo])
    };
    let mut range = MsbPrefixRange::full();
    assert_eq!(prob_one(range), 0.5);
    range.observe(true);
    assert_eq!(range.lo, 128);
    assert_eq!(range.hi, 256);
    assert_eq!(prob_one(range), 0.5);
    assert_eq!(range.observed(false), MsbPrefixRange { lo: 128, hi: 192 });
    assert_eq!(advanced_prefix_code(1, true), 3);
}
