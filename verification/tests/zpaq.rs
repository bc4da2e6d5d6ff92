//! The rate model on top of a streaming compressor.

use infotheory::backends::zpaq_rate::{
    measured, replayed, span_behind, validate_zpaq_rate_method, validation_text, with_span, BitSpan,
    ZpaqFault, ZpaqRateModel,
};
use zpaq_rs::StreamingCompressor;

const LN_2: f64 = std::f64::consts::LN_2;

fn delta(span: BitSpan) -> f64 {
    (f64::from_bits(span.after) - f64::from_bits(span.before)).max(0.0)
}

fn log_prob(span: BitSpan, min_prob: f64) -> f64 {
    (-(delta(span) * LN_2)).max(min_prob.ln())
}

fn model() -> ZpaqRateModel {
    match ZpaqRateModel::new("1") {
        Ok(m) => m,
        Err(e) => panic!("{}", e.message()),
    }
}

fn fed(history: &[u8]) -> ZpaqRateModel {
    let mut m = model();
    for &b in history {
        assert!(m.update(b).is_ok());
    }
    m
}

fn asked(m: &mut ZpaqRateModel, symbol: u8) -> f64 {
    match m.log_prob(symbol) {
        Ok(span) => log_prob(span, 1e-9),
        Err(e) => panic!("{}", e.message()),
    }
}

fn row(m: &ZpaqRateModel) -> Vec<f64> {
    match m.fill_log_probs() {
        Ok(spans) => spans.into_iter().map(|s| log_prob(s, 1e-9)).collect(),
        Err(e) => panic!("{}", e.message()),
    }
}

fn score(m: &mut ZpaqRateModel, data: &[u8]) -> f64 {
    match m.update_and_score(data) {
        Ok(spans) => spans.into_iter().map(delta).sum(),
        Err(e) => panic!("{}", e.message()),
    }
}

#[test]
fn zpaq_log_prob_update_matches_update_and_score() {
    let data = b"the quick brown fox jumps over the lazy dog";
    let mut model_a = model();
    let mut bits_a = 0.0;
    for &b in data {
        let logp = asked(&mut model_a, b);
        bits_a += -logp / LN_2;
        assert!(model_a.update(b).is_ok());
    }

    let mut model_b = model();
    let bits_b = score(&mut model_b, data);

    let diff = (bits_a - bits_b).abs();
    assert!(diff < 1e-6, "bits mismatch: {bits_a} vs {bits_b}");
    assert!(bits_b > 0.0);
}

#[test]
fn zpaq_update_and_score_keeps_raw_bit_deltas_when_floor_would_bind() {
    let data: Vec<u8> = (0u8..=255).collect();
    let mut raw_model = model();
    let mut raw_bits = 0.0;
    for &symbol in &data {
        raw_bits += score(&mut raw_model, &[symbol]);
    }
    assert!(
        raw_bits > data.len() as f64,
        "test requires raw ZPAQ cost to exceed the 1-bit floor cap"
    );

    let mut scored_model = model();
    let scored_bits = score(&mut scored_model, &data);

    assert!(
        (scored_bits - raw_bits).abs() < 1e-9,
        "metric path must preserve raw ZPAQ bit growth: scored={scored_bits} raw={raw_bits}"
    );
}

#[test]
fn zpaq_fill_log_probs_is_non_mutating() {
    let history = b"zpaq fill non mutating";
    let mut model_a = fed(history);
    let mut model_b = fed(history);

    let row = row(&model_b);

    let sym = b'x';
    let lp_a = asked(&mut model_a, sym);
    let lp_b = asked(&mut model_b, sym);
    assert!((lp_a - lp_b).abs() < 1e-9, "lp_a={lp_a} lp_b={lp_b}");
    assert!((row[sym as usize] - lp_a).abs() < 1e-9);

    assert!(model_a.update(sym).is_ok());
    assert!(model_b.update(sym).is_ok());
    let next_sym = b'y';
    let lp_a2 = asked(&mut model_a, next_sym);
    let lp_b2 = asked(&mut model_b, next_sym);
    assert!((lp_a2 - lp_b2).abs() < 1e-9, "lp_a2={lp_a2} lp_b2={lp_b2}");
}

#[test]
fn zpaq_fill_log_probs_preserves_pending_prediction_cache() {
    let history = b"zpaq fill preserves pending";
    let mut model_a = fed(history);
    let mut model_b = fed(history);

    let probe = b'x';
    let lp_before = asked(&mut model_a, probe);
    let row = row(&model_a);
    let from_history = match model_b.log_prob_from_history(probe) {
        Ok(span) => log_prob(span, 1e-9),
        Err(e) => panic!("{}", e.message()),
    };
    assert!(
        (row[probe as usize] - from_history).abs() < 1e-9,
        "fill must score committed history, not speculative pending state"
    );

    let lp_after = asked(&mut model_a, probe);
    assert!(
        (lp_before - lp_after).abs() < 1e-9,
        "fill must preserve the pending speculative cache: before={lp_before} after={lp_after}"
    );

    assert!(model_a.update(probe).is_ok());
    assert!(model_b.update(probe).is_ok());
    let next = b'y';
    let lp_a = asked(&mut model_a, next);
    let lp_b = asked(&mut model_b, next);
    assert!((lp_a - lp_b).abs() < 1e-9, "lp_a={lp_a} lp_b={lp_b}");
}

#[test]
fn zpaq_clone_preserves_pending_prediction_state() {
    let mut model_a = fed(b"clone preserves pending state");

    let probe = b'x';
    let lp_a = asked(&mut model_a, probe);
    let mut model_b = match model_a.duplicate() {
        Ok(m) => m,
        Err(e) => panic!("{}", e.message()),
    };
    let lp_b = asked(&mut model_b, probe);
    assert!((lp_a - lp_b).abs() < 1e-9, "lp_a={lp_a} lp_b={lp_b}");

    assert!(model_a.update(probe).is_ok());
    assert!(model_b.update(probe).is_ok());
    let next = b'y';
    let lp_a2 = asked(&mut model_a, next);
    let lp_b2 = asked(&mut model_b, next);
    assert!((lp_a2 - lp_b2).abs() < 1e-9, "lp_a2={lp_a2} lp_b2={lp_b2}");
}

#[test]
fn zpaq_interleaved_models_match_separate_baselines() {
    let history_a = b"interleaved zpaq model A";
    let history_b = b"interleaved zpaq model B";
    let sequence_a = b"ABACABA";
    let sequence_b = b"XYZYZZX";

    let mut interleaved_a = fed(history_a);
    let mut interleaved_b = fed(history_b);
    let mut baseline_a = fed(history_a);
    let mut baseline_b = fed(history_b);

    for (&sym_a, &sym_b) in sequence_a.iter().zip(sequence_b.iter()) {
        let lp_interleaved_a = asked(&mut interleaved_a, sym_a);
        let lp_baseline_a = asked(&mut baseline_a, sym_a);
        assert!(
            (lp_interleaved_a - lp_baseline_a).abs() < 1e-9,
            "interleaving drifted model A: interleaved={lp_interleaved_a} baseline={lp_baseline_a}"
        );
        assert!(interleaved_a.update(sym_a).is_ok());
        assert!(baseline_a.update(sym_a).is_ok());

        let lp_interleaved_b = asked(&mut interleaved_b, sym_b);
        let lp_baseline_b = asked(&mut baseline_b, sym_b);
        assert!(
            (lp_interleaved_b - lp_baseline_b).abs() < 1e-9,
            "interleaving drifted model B: interleaved={lp_interleaved_b} baseline={lp_baseline_b}"
        );
        assert!(interleaved_b.update(sym_b).is_ok());
        assert!(baseline_b.update(sym_b).is_ok());
    }
}

#[test]
fn zpaq_validate_method_is_non_intrusive_with_live_model() {
    let mut baseline = fed(b"validate zpaq method while model is live");
    let mut probe = fed(b"validate zpaq method while model is live");

    validate_zpaq_rate_method("1").expect("streaming method should validate");

    let lp_baseline = asked(&mut baseline, b'v');
    let lp_probe = asked(&mut probe, b'v');
    assert!(
        (lp_baseline - lp_probe).abs() < 1e-9,
        "validation disturbed live model state: baseline={lp_baseline} probe={lp_probe}"
    );
}

#[test]
fn methods_that_cannot_be_streamed_are_refused() {
    assert_eq!(
        validate_zpaq_rate_method("  ").unwrap_err(),
        "libzpaq: method string is empty"
    );
    assert!(validate_zpaq_rate_method("5").unwrap_err().contains("1..3 only"));
    for level in ["0", "4", "+9", "-1", "-0", " -2147483648 "] {
        assert!(
            validate_zpaq_rate_method(level).unwrap_err().contains("1..3 only"),
            "level {level}"
        );
        assert!(told(ZpaqRateModel::new(level)).contains("1..3 only"), "level {level}");
    }
    assert!(validate_zpaq_rate_method("+1").is_ok());
    assert_eq!(validation_text(Ok(())), Ok(()));
    assert_eq!(
        validation_text(Err(ZpaqFault::ZeroInMethod)),
        Err("string contained NUL byte".to_string())
    );
    assert_eq!(
        ZpaqFault::Lost.message(),
        "zpaq stream compressor must be initialized"
    );
}

#[test]
fn a_new_stream_forgets_the_old_one() {
    let mut used = fed(b"forget me");
    assert!(used.begin_stream().is_ok());
    let mut fresh = model();
    assert!(fresh.begin_stream().is_ok());
    assert!((asked(&mut used, b'q') - asked(&mut fresh, b'q')).abs() < 1e-12);
    assert!(used.reset().is_ok());
    assert_eq!(score(&mut used, b""), 0.0);
}

fn opened() -> Result<StreamingCompressor, ZpaqFault> {
    Ok(StreamingCompressor::new("1").expect("a compressor"))
}

fn refused<T>() -> Result<T, ZpaqFault> {
    Err(ZpaqFault::Library("no memory".to_string()))
}

fn told<T>(result: Result<T, ZpaqFault>) -> String {
    match result {
        Ok(_) => panic!("expected a failure"),
        Err(e) => e.message(),
    }
}

#[test]
fn a_failure_is_handed_on() {
    assert_eq!(told(replayed(refused(), b"abc")), "libzpaq: no memory");
    assert_eq!(told(measured(refused(), b"abc", b'd')), "libzpaq: no memory");
    assert_eq!(told(span_behind(7, refused())), "libzpaq: no memory");
    assert_eq!(told(with_span(Vec::new(), refused())), "libzpaq: no memory");
    assert_eq!(told(fed(b"abc").copied_onto(refused())), "libzpaq: no memory");
}

#[test]
fn readings_make_spans() {
    let span = BitSpan { before: 7, after: 9 };
    assert_eq!(span_behind(7, Ok(9)).ok(), Some(span));
    let more = BitSpan { before: 9, after: 12 };
    assert_eq!(with_span(vec![span], Ok(more)).ok(), Some(vec![span, more]));
}

#[test]
fn a_compressor_measures_behind_its_history() {
    let history = b"measured behind this";
    let own = measured(opened(), history, b'x').expect("a span");
    let by_model = fed(history).log_prob_from_history(b'x').expect("a span");
    assert_eq!(own, by_model);
    let mut c = replayed(opened(), history).ok().expect("a compressor");
    assert_eq!(c.bits().to_bits(), own.before);
    c.push(b'x').expect("a byte");
    assert_eq!(c.bits().to_bits(), own.after);
}

#[test]
fn a_zero_in_the_method_is_told() {
    assert_eq!(told(ZpaqRateModel::new("x\0")), "string contained NUL byte");
}

#[test]
fn what_feeding_gave_back_is_settled() {
    let mut m = model();
    let compressor = opened().expect("a compressor");
    let span = m.settled(compressor, Ok(24)).expect("a reading");
    assert_eq!((span.before, span.after), (0, 24));
    let span = m
        .settled(opened().expect("a compressor"), Ok(31))
        .expect("a reading");
    assert_eq!((span.before, span.after), (24, 31));
    assert_eq!(
        told(m.settled(opened().expect("a compressor"), refused())),
        told(refused::<u64>())
    );
    assert_eq!(told(m.update(b'a')), ZpaqFault::Lost.message());
    assert_eq!(told(m.log_prob(b'a')), ZpaqFault::Lost.message());
    assert_eq!(told(m.update_and_score(b"a")), ZpaqFault::Lost.message());
    assert!(m.update_and_score(b"").is_ok());
    assert!(m.reset().is_ok());
    assert!(m.update(b'a').is_ok());
}

#[test]
fn what_opening_gave_back_is_put_in_place() {
    let mut m = model();
    assert_eq!(told(m.seated(refused())), told(refused::<u64>()));
    assert_eq!(told(m.update(b'd')), ZpaqFault::Lost.message());
    assert!(m.seated(opened()).is_ok());
    let span = m.log_prob(b'd').expect("a reading");
    assert_eq!(span.before, 0);
    assert!(ZpaqRateModel::with_compressor("1", opened()).is_ok());
    assert_eq!(
        told(ZpaqRateModel::with_compressor("1", refused())),
        told(refused::<u64>())
    );
}
