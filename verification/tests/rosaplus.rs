//! The suffix-automaton predictor.

use infotheory::backends::rosaplus::image::RosaImage;
use infotheory::backends::rosaplus::index::{
    edge_ix, edge_usize, node_ix, node_usize, state_ix, state_usize,
};
use infotheory::backends::rosaplus::model::RosaPlus;
use infotheory::backends::rosaplus::query::{
    candidate_orders, entropy_chunks, BackoffTerm, NextSymbol,
};
use infotheory::backends::rosaplus::rng::RngStream;
use infotheory::backends::rosaplus::sam::SAM_STATE_NONE;
use infotheory::backends::rosaplus::scoring::{symbols_of, SymbolScore};
use infotheory::backends::rosaplus::wire::ImageError;

fn mixed(terms: &[BackoffTerm], unigram: u64, total_uni: u64, alpha_n: u32) -> f64 {
    let mut p = 0.0f64;
    let mut residual = 1.0f64;
    for t in terms {
        let n = t.total as f64;
        let lam = if t.types > 0 {
            n / ((t.total + t.types as u64) as f64)
        } else {
            1.0
        };
        if t.count > 0 {
            p += residual * lam * (t.count as f64 / n);
        }
        residual *= 1.0 - lam;
    }
    if total_uni > 0 && residual > 0.0 {
        p += residual * (unigram as f64 / total_uni as f64);
    } else if residual > 0.0 {
        p += residual / (alpha_n.max(1) as f64);
    }
    p.clamp(1e-12, 1.0)
}

fn prob(m: &RosaPlus, v: i32, ch: u32) -> f64 {
    let si = m.lm.find_sym(ch);
    if si < 0 {
        return 1.0 / (m.lm.alpha_n.max(1) as f64);
    }
    let terms = m.backoff_terms(v, si as u32);
    mixed(&terms, m.lm.unigram[si as usize], m.lm.total_uni, m.lm.alpha_n)
}

fn prob_for_last(m: &RosaPlus, ch: u32) -> f64 {
    prob(m, m.sam.last, ch)
}

fn nodes_of(m: &RosaPlus) -> Vec<(u32, u64, u32)> {
    let nodes = &m.lm.tallies.nodes;
    (0..nodes.len())
        .map(|i| (nodes.sym_idx(i), nodes.cnt(i), nodes.next(i)))
        .collect()
}

fn continuation(m: &RosaPlus, prompt: &[u8], steps: i32) -> Vec<u32> {
    let mut run = m.begin_generation(prompt, steps).expect("a language model");
    loop {
        match m.next_symbol(&run) {
            NextSymbol::Complete => return run.out,
            NextSymbol::Known(ch) => m.push_symbol(&mut run, ch),
            NextSymbol::Drawn => m.push_symbol(&mut run, 0),
        }
    }
}

#[test]
fn rosa_md_example_basic() {
    let x = b"ababa";
    let mut m = RosaPlus::new(1048576, false, 4, 0);
    m.train_example(x);
    m.build_lm();
    let out = continuation(&m, b"a", 10);
    assert!(!out.is_empty());
    assert_eq!(out.len(), 10);
}

#[test]
fn tx_rollback_restores_sam_and_unigram_counts() {
    let mut m = RosaPlus::new(4, false, 0, 123);
    m.train_example(b"hello");
    m.build_lm_full_bytes_no_finalize_endpos();

    let base_text = m.sam.text.clone();
    let base_text_len = m.sam.text.len();
    let base_total_uni = m.lm.total_uni;
    assert!(base_text_len > 0);

    let mut tx = m.begin_tx();
    m.train_example_tx(&mut tx, b"abc");
    assert_eq!(m.lm.total_uni, base_total_uni + 3);
    assert_eq!(m.sam.text.len(), base_text_len + 3);

    m.rollback_tx(tx);
    assert_eq!(m.sam.text, base_text);
    assert_eq!(m.lm.total_uni, base_total_uni);
}

fn assert_same(direct: &RosaPlus, tx_model: &RosaPlus) {
    assert_eq!(direct.sam.text, tx_model.sam.text);
    assert_eq!(direct.sam.text_states, tx_model.sam.text_states);
    assert_eq!(direct.sam.boundary_after, tx_model.sam.boundary_after);
    assert_eq!(direct.sam.last, tx_model.sam.last);
    assert_eq!(direct.lm.total_uni, tx_model.lm.total_uni);
    assert_eq!(direct.lm.unigram, tx_model.lm.unigram);
    assert_eq!(nodes_of(direct), nodes_of(tx_model));
    assert_eq!(direct.lm.tallies.ls, tx_model.lm.tallies.ls);
}

#[test]
fn train_sequence_matches_transactional_sequence_update() {
    let mut direct = RosaPlus::new(4, false, 0, 123);
    direct.build_lm_full_bytes_no_finalize_endpos();
    direct.train_sequence(b"abracadabra");
    direct.train_sequence(b" mississippi");

    let mut tx_model = RosaPlus::new(4, false, 0, 123);
    tx_model.build_lm_full_bytes_no_finalize_endpos();
    let mut tx = tx_model.begin_tx();
    tx_model.train_sequence_tx(&mut tx, b"abracadabra");
    let mut tx = tx_model.begin_tx();
    tx_model.train_sequence_tx(&mut tx, b" mississippi");

    assert_same(&direct, &tx_model);
    for ch in 0..256u32 {
        assert!((prob_for_last(&direct, ch) - prob_for_last(&tx_model, ch)).abs() < 1e-12);
    }
}

#[test]
fn repeated_single_byte_train_byte_matches_transactional_update() {
    let data = b"abracadabra mississippi";

    let mut direct = RosaPlus::new(4, false, 0, 123);
    direct.build_lm_full_bytes_no_finalize_endpos();
    for &b in data {
        direct.train_byte(b);
    }

    let mut tx_model = RosaPlus::new(4, false, 0, 123);
    tx_model.build_lm_full_bytes_no_finalize_endpos();
    for &b in data {
        let mut tx = tx_model.begin_tx();
        tx_model.train_sequence_tx(&mut tx, &[b]);
    }

    assert_same(&direct, &tx_model);
}

fn reference_prob(m: &RosaPlus, v: i32, sym: u32) -> f64 {
    let mut terms: Vec<BackoffTerm> = Vec::new();
    let mut u = v;
    while u != SAM_STATE_NONE {
        let state = &m.sam.st[u as usize];
        if !(m.max_order >= 0 && (state.len as i64) > m.max_order) {
            let ls = m.lm.tallies.ls[u as usize];
            if ls.total_n > 0 {
                terms.push(BackoffTerm {
                    total: ls.total_n,
                    types: ls.types_t,
                    count: m.lm.tallies.count_of(u as usize, sym),
                });
            }
        }
        u = state.link;
    }
    mixed(&terms, m.lm.unigram[sym as usize], m.lm.total_uni, m.lm.alpha_n)
}

fn probs_for_state(m: &RosaPlus, v: i32) -> Vec<f64> {
    let mut out = vec![0.0f64; m.lm.alpha_n as usize];
    let mut residual = 1.0f64;
    for u in m.context_path(v) {
        let ls = m.lm.tallies.ls[u as usize];
        if ls.total_n > 0 {
            let n = ls.total_n as f64;
            let lam = if ls.types_t > 0 {
                n / ((ls.total_n + u64::from(ls.types_t)) as f64)
            } else {
                1.0
            };
            for (sym, count) in m.lm.tallies.entries_of(u as usize) {
                out[sym as usize] += residual * lam * (count as f64 / n);
            }
            residual *= 1.0 - lam;
        }
    }
    for (slot, &count) in out.iter_mut().zip(&m.lm.unigram) {
        *slot += residual * (count as f64 / m.lm.total_uni as f64);
    }
    out
}

#[test]
fn max_order_capping_keeps_probability_semantics() {
    let mut m = RosaPlus::new(4, false, 0, 321);
    m.build_lm_full_bytes_no_finalize_endpos();
    m.train_sequence(b"abracadabra mississippi abracadabra abracadabra");

    let v = m.sam.last;
    for &sym in b"a mz" {
        let sym_idx = m.lm.find_sym(sym as u32);
        let expected = reference_prob(&m, v, sym_idx as u32);
        let got = prob(&m, v, sym as u32);
        assert!(
            (got - expected).abs() < 1e-12,
            "sym={sym} got={got} expected={expected}"
        );
    }

    let got = probs_for_state(&m, v);
    assert_eq!(got.len(), 256);
    for (idx, p) in got.iter().enumerate() {
        let expected = reference_prob(&m, v, idx as u32);
        assert!(
            (p - expected).abs() < 1e-12,
            "idx={idx} got={p} expected={expected}"
        );
    }
}

#[test]
fn checkpoint_restore_reverts_exact_state() {
    let mut m = RosaPlus::new(3, true, b'\n', 7);
    m.train_example(b"aaaa");
    m.build_lm_full_bytes_no_finalize_endpos();
    let before_prob = prob_for_last(&m, b'a' as u32);

    let ck = m.checkpoint();
    let base_text = m.sam.text.clone();
    let base_states = m.sam.text_states.clone();
    let base_boundary = m.sam.boundary_after.clone();
    let base_last = m.sam.last;

    m.train_example(b"bbbb");
    assert_ne!(m.sam.text, base_text);

    m.restore(&ck);
    assert_eq!(m.sam.text, base_text);
    assert_eq!(m.sam.text_states, base_states);
    assert_eq!(m.sam.boundary_after, base_boundary);
    assert_eq!(m.sam.last, base_last);
    assert!(m.lm_built);
    let after_prob = prob_for_last(&m, b'a' as u32);
    assert!(
        (after_prob - before_prob).abs() <= 1e-12,
        "checkpoint restore should recover exact predictive state: before={before_prob} after={after_prob}"
    );
}

#[test]
fn wide_index_helpers_preserve_large_indices() {
    let large = (i32::MAX as usize) + 17;
    assert_eq!(edge_usize(edge_ix(large)), large);
    assert_eq!(node_usize(node_ix(large)), large);
    assert_eq!(state_usize(state_ix(17)), 17);
}

#[test]
fn save_load_roundtrip_preserves_state_and_probabilities() {
    let mut m = RosaPlus::new(8, true, b'\n', 1234);
    m.train_example(b"abracadabra");
    m.build_lm();
    let before_prob = prob_for_last(&m, b'a' as u32);
    let before_size = m.estimated_size_bytes();
    let before_text = m.sam.text.clone();
    let before_states = m.sam.text_states.clone();
    let before_last = m.sam.last;
    let before_nodes = m.lm.tallies.nodes.len();

    let file = m.save_bytes().expect("save failed");
    let loaded = RosaPlus::load_bytes(&file).expect("load failed");

    assert_eq!(loaded.max_order, m.max_order);
    assert_eq!(loaded.use_eot, m.use_eot);
    assert_eq!(loaded.eot, m.eot);
    assert_eq!(loaded.seed, m.seed);
    assert_eq!(loaded.sam.text, before_text);
    assert_eq!(loaded.sam.text_states, before_states);
    assert_eq!(loaded.sam.last, before_last);
    assert_eq!(loaded.lm.tallies.nodes.len(), before_nodes);
    assert_eq!(loaded.estimated_size_bytes(), before_size);
    assert!((prob_for_last(&loaded, b'a' as u32) - before_prob).abs() < 1e-12);
}

#[test]
fn broken_model_files_are_refused() {
    let mut m = RosaPlus::new(2, false, 0, 1);
    m.train_example(b"xyxy");
    m.build_lm();
    let file = m.save_bytes().expect("save failed");
    assert!(RosaImage::decode(&file).is_ok());
    for n in 0..file.len() {
        assert!(RosaImage::decode(&file[..n]).is_err());
    }
    let mut other = file.clone();
    other[0] ^= 0xFF;
    let e: ImageError = match RosaPlus::load_bytes(&other) {
        Err(e) => e,
        Ok(_) => panic!("expected a refusal"),
    };
    assert!(!e.message().is_empty());
}

#[test]
fn cursors_walk_without_learning() {
    let mut m = RosaPlus::new(-1, false, 0, 1);
    m.train_example(b"abcabd");
    m.build_lm_full_bytes_no_finalize_endpos();
    let before = m.conditioning_cursor();
    m.reset_conditioning_cursor();
    m.advance_conditioning_byte(b'a');
    m.advance_conditioning_byte(b'b');
    assert_eq!(m.conditioning_cursor(), m.state_behind(b"ab"));
    assert!(prob_for_last(&m, b'c' as u32) > prob_for_last(&m, b'z' as u32));
    m.restore_conditioning_cursor(before);
    assert_eq!(m.conditioning_cursor(), before);
    assert_eq!(m.sam.text.len(), 6);
}

#[test]
fn forks_share_the_text_only() {
    let mut m = RosaPlus::new(3, false, 0, 5);
    m.train_example(b"banana");
    m.build_lm();
    let fork = m.fork_from_sam();
    assert_eq!(fork.sam.text, m.sam.text);
    assert!(!fork.lm_built);
    assert!(fork.begin_generation(b"b", 3).is_none());
    let copy = m.duplicate();
    assert_same(&copy, &m);
}

#[test]
fn random_numbers_follow_from_the_bytes() {
    let mut plain = RngStream::new();
    let first = plain.next_u64();
    assert_ne!(first, plain.next_u64());
    let mut bytes = RngStream::with_bytes(1, vec![1, 0, 0, 0, 0, 0, 0, 0, 2, 0, 0, 0, 0, 0, 0, 0]);
    assert_eq!(bytes.next_u64(), 2);
    assert_eq!(bytes.next_u64(), 1);
}

fn score_prob(score: &SymbolScore) -> f64 {
    match score.unigram {
        None => 1.0 / (score.symbols.max(1) as f64),
        Some(unigram) => mixed(&score.terms, unigram, score.total, score.symbols),
    }
}

fn mean_bits(scores: &[SymbolScore]) -> f64 {
    let total: f64 = scores.iter().map(|s| score_prob(s).log2()).sum();
    -total / (scores.len() as f64)
}

fn cross_entropy(m: &RosaPlus, data: &[u8]) -> f64 {
    mean_bits(&m.score_symbols(0, &symbols_of(data)))
}

fn entropy_rate_order(data: &[u8], max_order: i64, seed: u64) -> f64 {
    let mut m = RosaPlus::new(max_order, false, 0, seed);
    mean_bits(&m.chunked_scores(&symbols_of(data), true))
}

fn predictive_entropy_rate(data: &[u8], max_order: i64, seed: u64) -> f64 {
    if max_order >= 0 {
        return entropy_rate_order(data, max_order, seed);
    }
    candidate_orders(data.len())
        .into_iter()
        .map(|mo| entropy_rate_order(data, mo, seed))
        .fold(f64::INFINITY, f64::min)
}

fn manual_chunked_entropy_rate_bytes(data: &[u8], max_order: i64, seed: u64) -> f64 {
    if data.len() < 2 {
        return 0.0;
    }
    let num_chunks = 16;
    let chunk_size = data.len().div_ceil(num_chunks);
    let mut total_log_prob = 0.0f64;
    let mut count = 0usize;

    for i in 0..num_chunks {
        let start = i * chunk_size;
        let end = ((i + 1) * chunk_size).min(data.len());
        if start >= end {
            break;
        }
        if i == 0 {
            continue;
        }

        let mut m = RosaPlus::new(max_order, false, 0, seed);
        m.train_example(&data[..start]);
        m.build_lm();
        let mut v = m.sam.last;

        for &b in &data[start..end] {
            total_log_prob += prob(&m, v, b as u32).log2();
            count += 1;
            v = m.sam.advance(v, b as u32);
        }
    }

    if count == 0 {
        let mut m = RosaPlus::new(max_order, false, 0, seed);
        m.train_example(data);
        m.build_lm();
        cross_entropy(&m, data)
    } else {
        -total_log_prob / (count as f64)
    }
}

fn manual_chunked_entropy_rate_cps(data: &[u32], max_order: i64, seed: u64) -> f64 {
    let mut m = RosaPlus::new(max_order, false, 0, seed);
    let chunk_size = data.len().div_ceil(16);
    let mut total_log_prob = 0.0f64;
    let mut count = 0usize;
    for i in 0..16 {
        let start = i * chunk_size;
        let end = ((i + 1) * chunk_size).min(data.len());
        if start >= end {
            break;
        }
        let chunk = &data[start..end];
        if i > 0 {
            m.build_lm_no_finalize_endpos();
            let mut v = m.sam.text_states[start];
            for &ch in chunk {
                total_log_prob += prob(&m, v, ch).log2();
                count += 1;
                v = m.sam.advance(v, ch);
            }
        }
        for &ch in chunk {
            m.sam.feed(ch);
        }
    }
    -total_log_prob / (count as f64)
}

#[test]
fn predictive_entropy_rate_matches_chunked_reference_fixed_order() {
    let data = b"abracadabra abracadabra abracadabra";
    let seed = 11;
    let expected = manual_chunked_entropy_rate_bytes(data, 4, seed);
    let got = predictive_entropy_rate(data, 4, seed);
    assert!((got - expected).abs() < 1e-12);
}

#[test]
fn predictive_entropy_rate_uncapped_matches_candidate_search() {
    let data = b"the quick brown fox jumps over the lazy dog the quick brown fox";
    let seed = 29;
    let mut expected = f64::INFINITY;
    for &mo in &[0, 1, 2, 4, 8, 16, 32, 64] {
        if mo as usize >= data.len() {
            continue;
        }
        expected = expected.min(manual_chunked_entropy_rate_bytes(data, mo, seed));
    }
    let got = predictive_entropy_rate(data, -1, seed);
    assert!((got - expected).abs() < 1e-12);
}

#[test]
fn entropy_rate_cps_matches_chunked_reference() {
    let data = [0u32, 7, 0, 42, 7, 42, 0, 7, 42, 42];
    let seed = 31;
    let expected = manual_chunked_entropy_rate_cps(&data, -1, seed);
    let mut m = RosaPlus::new(-1, false, 0, seed);
    let got = mean_bits(&m.chunked_scores(&data, false));
    assert!((got - expected).abs() < 1e-12);
}

#[test]
fn chunks_and_orders() {
    assert_eq!(entropy_chunks(3), vec![(0, 1), (1, 2), (2, 3)]);
    assert_eq!(entropy_chunks(33).len(), 11);
    assert_eq!(entropy_chunks(33)[10], (30, 33));
    assert_eq!(candidate_orders(5), vec![0, 1, 2, 4]);
    let mut m = RosaPlus::new(2, false, 0, 1);
    m.train_example(b"abab");
    m.build_lm();
    let unknown = m.symbol_score(0, b'z' as u32);
    assert_eq!(unknown.unigram, None);
    assert_eq!(unknown.symbols, 2);
    assert_eq!(m.score_symbols(0, &symbols_of(b"ab")).len(), 2);
}

#[test]
fn footprint_grows_with_the_text() {
    let mut m = RosaPlus::new(2, false, 0, 1);
    let empty = m.estimated_size_bytes();
    m.train_example(b"ab");
    let trained = m.estimated_size_bytes();
    assert!(trained > empty);
    m.build_lm();
    assert!(m.estimated_size_bytes() > trained);
}

#[test]
fn chunks_read_from_the_root_or_from_what_is_in_front() {
    let data = [1u32, 2, 1, 2, 1, 2];
    let mut m = RosaPlus::new(-1, false, 0, 1);
    let from_root = m.chunked_scores(&data, true);
    let behind = m.chunked_scores(&data, false);
    assert_eq!(from_root.len(), 5);
    assert_eq!(behind.len(), 5);
    assert!(behind[4].terms.len() > from_root[4].terms.len());
}

#[test]
fn loaded_predictors_hold_what_the_file_holds() {
    let mut m = RosaPlus::new(2, false, 0, 1);
    m.train_example(b"xyxy");
    m.build_lm();
    let mut image = m.to_image();
    image.total_uni = 77;
    image.text[0] = 999;
    image.boundary_after[1] = 5;
    image.st[1].len = 40;
    image.unigram[0] = 3;
    let loaded = match RosaPlus::load_bytes(&image.encode()) {
        Ok(loaded) => loaded,
        Err(e) => panic!("{}", e.message()),
    };
    assert_eq!(loaded.lm.total_uni, 77);
    assert_eq!(loaded.sam.text, image.text);
    assert_eq!(loaded.sam.boundary_after, image.boundary_after);
    assert_eq!(loaded.sam.st.len(), image.st.len());
    assert_eq!(loaded.sam.st[1].len, 40);
    assert_eq!(loaded.sam.st[1].link, image.st[1].link);
    assert_eq!(loaded.lm.unigram, image.unigram);
    assert_eq!(loaded.lm.alphabet, image.alphabet);
    assert_eq!(loaded.lm.alpha_n as usize, image.alphabet.len());
    assert_eq!(loaded.sam.root_to, m.sam.root_to);
    assert!(loaded.lm_built);
    image.alphabet.swap(0, 1);
    let loaded = RosaPlus::from_image(image);
    assert_eq!(loaded.lm.alphabet, vec![b'y' as u32, b'x' as u32]);
    assert!(loaded.lm.has_byte_map);
    assert_eq!(loaded.lm.byte_map[b'y' as usize], 0);
    assert_eq!(loaded.lm.byte_map[b'x' as usize], 1);
    assert_eq!(loaded.lm.byte_map[b'z' as usize], -1);
}
