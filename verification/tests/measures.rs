//! Counts, distances, rankings and the choice of bytes.

use infotheory::api::generation::{
    any_finite, candidates, cutoff_count, drawn_byte, reached_count, GenerationConfig,
    GenerationRng, GenerationStrategy, GenerationUpdateMode,
};
use infotheory::api::metrics::{
    aligned_prefix, bit_counts, byte_counts, joint_bit_counts, pair_counts,
};
use infotheory::api::ncd::{
    ncd_from_sizes, ncd_matrix, unordered_pairs, CompressionPathBatchOptions, NcdComputeOptions,
    NcdRatio, NcdVariant, OperationParallelism,
};
use infotheory::api::ranking::{argmax_log_prob_byte, is_finite_score, order_place, ranked};

fn bit_histogram(data: &[u8]) -> [f64; 2] {
    let (total, ones) = bit_counts(data);
    if total == 0 {
        return [0.0, 0.0];
    }
    [
        (total - ones) as f64 / total as f64,
        ones as f64 / total as f64,
    ]
}

fn joint_bit_histogram(x: &[u8], y: &[u8]) -> [f64; 4] {
    let c = joint_bit_counts(x, y);
    let total = c.c00 + c.c01 + c.c10 + c.c11;
    if total == 0 {
        return [0.0; 4];
    }
    [c.c00, c.c01, c.c10, c.c11].map(|n| n as f64 / total as f64)
}

#[test]
fn bit_histogram_all_zeros_is_p1_zero() {
    let [p0, p1] = bit_histogram(&[0x00u8; 64]);
    assert_eq!(p0, 1.0);
    assert_eq!(p1, 0.0);
}

#[test]
fn bit_histogram_all_ones_is_p1_one() {
    let [p0, p1] = bit_histogram(&[0xFFu8; 64]);
    assert_eq!(p0, 0.0);
    assert_eq!(p1, 1.0);
}

#[test]
fn bit_histogram_empty_is_zero() {
    let h = bit_histogram(&[]);
    assert_eq!(h, [0.0, 0.0]);
}

#[test]
fn bit_histogram_sums_to_one() {
    let [p0, p1] = bit_histogram(b"hello world");
    assert!((p0 + p1 - 1.0).abs() < 1e-12);
}

#[test]
fn joint_bit_histogram_empty_is_zero() {
    let h = joint_bit_histogram(&[], &[]);
    assert_eq!(h, [0.0; 4]);
}

#[test]
fn joint_bit_histogram_sums_to_one() {
    let x = b"the quick brown fox";
    let y = b"jumps over the lazy";
    let probs = joint_bit_histogram(x, y);
    let sum: f64 = probs.iter().sum();
    assert!((sum - 1.0).abs() < 1e-12);
}

#[test]
fn joint_bit_histogram_identical_has_no_cross_terms() {
    let data = b"infotheory";
    let probs = joint_bit_histogram(data, data);
    assert_eq!(
        probs[1], 0.0,
        "P(x=0,y=1) must be zero for identical inputs"
    );
    assert_eq!(
        probs[2], 0.0,
        "P(x=1,y=0) must be zero for identical inputs"
    );
}

#[test]
fn bit_histogram_total_uses_widening_multiply() {
    let [p0, p1] = bit_histogram(&[0xAAu8; 1024]);
    assert!((p0 + p1 - 1.0).abs() < 1e-12);
    assert!((0.0..=1.0).contains(&p0));
    assert!((0.0..=1.0).contains(&p1));
}

#[test]
fn counts_of_bytes_and_pairs() {
    let counts = byte_counts(b"abca");
    assert_eq!(counts[b'a' as usize], 2);
    assert_eq!(counts[b'z' as usize], 0);
    assert_eq!(counts.iter().sum::<u64>(), 4);
    let pairs = pair_counts(b"ab", b"cde");
    assert_eq!(pairs[256 * (b'a' as usize) + b'c' as usize], 1);
    assert_eq!(pairs[256 * (b'c' as usize) + b'a' as usize], 0);
    assert_eq!(pairs.iter().sum::<u64>(), 2);
    let swapped = pair_counts(b"cde", b"ab");
    assert_eq!(swapped[256 * (b'c' as usize) + b'a' as usize], 1);
    assert_eq!(aligned_prefix(b"abc", b"de"), (&b"ab"[..], &b"de"[..]));
    let c = joint_bit_counts(&[0b1100], &[0b1010]);
    assert_eq!((c.c00, c.c01, c.c10, c.c11), (5, 1, 1, 1));
}

#[test]
fn distances_by_sizes() {
    let r = ncd_from_sizes(10, 8, 15, None, NcdVariant::Vitanyi);
    assert_eq!(r, NcdRatio { whole: 15, base: 8, over: 10 });
    let r = ncd_from_sizes(10, 8, 15, Some(14), NcdVariant::SymVitanyi);
    assert_eq!(r, NcdRatio { whole: 14, base: 8, over: 10 });
    let r = ncd_from_sizes(10, 8, 15, None, NcdVariant::Cons);
    assert_eq!(r, NcdRatio { whole: 15, base: 8, over: 15 });
    let r = ncd_from_sizes(10, 8, 15, Some(14), NcdVariant::SymCons);
    assert_eq!(r, NcdRatio { whole: 14, base: 8, over: 14 });
    assert!(NcdVariant::SymCons.is_symmetric());
    assert!(!NcdVariant::Cons.is_symmetric());
}

#[test]
fn matrices_are_symmetric_where_the_formula_is() {
    assert_eq!(unordered_pairs(3), vec![(0, 1), (0, 2), (1, 2)]);
    let sizes = [4u64, 6, 5];
    let pairs = [5u64, 9, 8, 10, 7, 7, 8, 8, 6];
    let m = ncd_matrix(&sizes, &pairs, NcdVariant::SymVitanyi);
    assert_eq!(m.len(), 9);
    assert_eq!(m[0], NcdRatio { whole: 5, base: 4, over: 4 });
    assert_eq!(m[4], ncd_from_sizes(6, 6, 7, Some(7), NcdVariant::SymVitanyi));
    assert_eq!(m[8], NcdRatio { whole: 6, base: 5, over: 5 });
    assert_eq!(m[1], m[3]);
    assert_eq!(m[1], NcdRatio { whole: 9, base: 4, over: 6 });
    let v = ncd_matrix(&sizes, &pairs, NcdVariant::Vitanyi);
    assert_eq!(v[3].whole, 10);
}

#[test]
fn one_thread_is_serial_work() {
    assert_eq!(
        NcdComputeOptions::default().parallelism,
        OperationParallelism::Auto
    );
    assert_eq!(
        CompressionPathBatchOptions::default().parallelism,
        OperationParallelism::Auto
    );
    assert_eq!(
        OperationParallelism::Threads(1).effective(),
        OperationParallelism::Serial
    );
    assert_eq!(
        OperationParallelism::Threads(2).effective(),
        OperationParallelism::Threads(2)
    );
}

fn sparse_logps(entries: &[(u8, f64)]) -> Vec<u64> {
    let mut logps = vec![f64::NEG_INFINITY.to_bits(); 256];
    for &(byte, logp) in entries {
        logps[byte as usize] = logp.to_bits();
    }
    logps
}

fn reaches(weights: &[f64], whole: f64, target: f64) -> Vec<bool> {
    let mut sum = 0.0;
    weights
        .iter()
        .map(|w| {
            sum += w / whole;
            sum >= target
        })
        .collect()
}

/// Hands the library the weights and sums that its decisions ask for.
fn pick_generated_byte(logps: &[u64], config: GenerationConfig, rng: &mut GenerationRng) -> u8 {
    if config.picks_likeliest() {
        return argmax_log_prob_byte(logps);
    }
    let temperature = f64::from_bits(config.temperature);
    let scaled: Vec<u64> = logps
        .iter()
        .map(|&l| (f64::from_bits(l) / temperature).to_bits())
        .collect();
    let list = candidates(&scaled, config.top_k);
    if !any_finite(&scaled, &list) {
        return drawn_byte(logps, &list, false, &[]);
    }
    let best = f64::from_bits(scaled[list[0]]);
    let weights: Vec<f64> = list
        .iter()
        .map(|&b| (f64::from_bits(scaled[b]) - best).exp())
        .map(|w| if w.is_finite() { w } else { 0.0 })
        .collect();
    let total: f64 = weights.iter().sum();
    let marks = reaches(&weights, total, f64::from_bits(config.top_p));
    let count = cutoff_count(list.len(), config.top_p, &marks);
    let mass: f64 = weights[..count].iter().sum();
    let drawn = rng.next_u64() as f64 / u64::MAX as f64 * mass;
    drawn_byte(logps, &list, true, &reaches(&weights[..count], 1.0, drawn))
}

#[test]
fn greedy_generation_picks_argmax() {
    let logps = sparse_logps(&[(7, -0.2), (42, -1.0)]);
    let mut rng = GenerationRng::new(123);
    let picked = pick_generated_byte(&logps, GenerationConfig::greedy_frozen(), &mut rng);
    assert_eq!(picked, 7);
}

#[test]
fn nonpositive_temperature_falls_back_to_argmax() {
    let logps = sparse_logps(&[(3, -0.1), (11, -0.3)]);
    let mut rng = GenerationRng::new(7);
    let mut config = GenerationConfig::sampled_frozen(7);
    config.temperature = 0.0f64.to_bits();
    let picked = pick_generated_byte(&logps, config, &mut rng);
    assert_eq!(picked, 3);
}

#[test]
fn top_k_sampling_respects_truncation() {
    let logps = sparse_logps(&[(9, -0.01), (10, -0.02), (11, -0.03)]);
    let mut rng = GenerationRng::new(99);
    let mut config = GenerationConfig::sampled_frozen(99);
    config.top_k = 1;
    let picked = pick_generated_byte(&logps, config, &mut rng);
    assert_eq!(picked, 9);
}

#[test]
fn top_p_sampling_keeps_only_minimal_prefix_mass() {
    let logps = sparse_logps(&[(5, 0.0), (6, -1.5), (7, -3.0)]);
    let mut rng = GenerationRng::new(5);
    let mut config = GenerationConfig::sampled_frozen(5);
    config.top_p = 0.5f64.to_bits();
    let picked = pick_generated_byte(&logps, config, &mut rng);
    assert_eq!(picked, 5);
}

#[test]
fn nonfinite_log_probs_do_not_panic() {
    let mut logps = vec![f64::NEG_INFINITY.to_bits(); 256];
    logps[0] = f64::NAN.to_bits();
    let mut rng = GenerationRng::new(17);
    let picked = pick_generated_byte(&logps, GenerationConfig::sampled_frozen(17), &mut rng);
    assert_eq!(picked, 0);
}

#[test]
fn configurations_have_their_defaults() {
    let config = GenerationConfig::default();
    assert_eq!(config, GenerationConfig::sampled_frozen(42));
    assert_eq!(config.strategy, GenerationStrategy::Sample);
    assert_eq!(config.update_mode, GenerationUpdateMode::Frozen);
    assert_eq!(config.seed, 42);
    assert_eq!(f64::from_bits(config.temperature), 1.0);
    assert!(!GenerationConfig::sampled_frozen(1).picks_likeliest());
}

#[test]
fn scores_are_ordered_as_numbers() {
    let numbers = [-1.5f64, 0.25, f64::NEG_INFINITY, 3.0, -0.0, 1e-300];
    let bits: Vec<u64> = numbers.iter().map(|x| x.to_bits()).collect();
    assert_eq!(ranked(&bits), vec![3, 1, 5, 4, 0, 2]);
    assert!(order_place(1.0f64.to_bits()) > order_place((-2.0f64).to_bits()));
    assert!(is_finite_score(0));
    assert!(!is_finite_score(f64::NAN.to_bits()));
    assert_eq!(reached_count(&[]), 1);
    assert_eq!(reached_count(&[false, true, false]), 2);
    assert_eq!(reached_count(&[false, false]), 2);
}

#[test]
fn the_random_generator_follows_its_formula() {
    let mut rng = GenerationRng::new(1);
    assert_eq!(rng.next_u64(), 0x4082_2041);
    let mut zero = GenerationRng::new(0);
    assert_ne!(zero.next_u64(), 0);
}

#[test]
fn an_infinite_score_stays_on_top_and_no_number_goes_last() {
    let mut logps = [0.0f64; 256];
    logps[200] = 1e300;
    let scaled: Vec<u64> = logps.iter().map(|&l| (l / 1e-10).to_bits()).collect();
    assert_eq!(f64::from_bits(scaled[200]), f64::INFINITY);
    let list = candidates(&scaled, 1);
    assert_eq!(list, vec![200]);
    assert!(!any_finite(&scaled, &list));
    let scores: Vec<u64> = logps.iter().map(|&l| l.to_bits()).collect();
    assert_eq!(drawn_byte(&scores, &list, false, &[]), 200);

    let mixed: Vec<u64> = [f64::NAN, -1.0, f64::NEG_INFINITY, f64::INFINITY, -f64::NAN, 3.0]
        .iter()
        .map(|l| l.to_bits())
        .collect();
    assert_eq!(candidates(&mixed, 0), vec![3, 5, 1, 0, 2, 4]);
}

#[test]
fn draws_are_decided_by_marks() {
    let logps = sparse_logps(&[(7, -0.2), (42, -1.0), (9, -3.0)]);
    let list = candidates(&logps, 3);
    assert_eq!(list, vec![7, 42, 9]);
    assert_eq!(drawn_byte(&logps, &list, true, &[false, true, true]), 42);
    assert_eq!(drawn_byte(&logps, &list, true, &[false, false]), 7);
    assert_eq!(drawn_byte(&logps, &[9, 42], false, &[true]), 7);
    assert_eq!(cutoff_count(3, 1.0f64.to_bits(), &[false, true]), 3);
    assert_eq!(cutoff_count(3, f64::NAN.to_bits(), &[true]), 3);
    assert_eq!(cutoff_count(3, 0.5f64.to_bits(), &[false, true, true]), 2);
    assert_eq!(cutoff_count(3, (-1.0f64).to_bits(), &[true, true, true]), 1);
    assert!(any_finite(&logps, &[0, 42]));
    assert!(!any_finite(&logps, &[0, 1]));
}
