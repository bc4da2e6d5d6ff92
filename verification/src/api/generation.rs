//! Picking and generating bytes.

use vstd::prelude::*;
use crate::coders;
use crate::api::session;
use crate::api::ranking;

use crate::api::predictor::OnlineBytePredictor;
use crate::api::ranking::{
    argmax_log_prob_byte, is_finite_score, is_no_number, order_place, ranked, MINUS_INFINITY, SIGN_BIT,
};
use crate::api::session::{ApiError, ApiFault, BytePicker, RateBackendSession};
use crate::coders::chain_total;
use crate::text::{push_text, string_of};

verus! {

/// State of a generator whose seed is zero.
pub const ZERO_SEED_STATE: u64 = 0xD00D_F00D_CAFE_BABE;

/// State after one number.
pub open spec fn shifted_state(x: u64) -> u64 {
    let a = x ^ (x << 13u64);
    let b = a ^ (a >> 7u64);
    b ^ (b << 17u64)
}

/// Generator of numbers.
#[derive(Clone, Copy, Debug, PartialEq, Eq, Structural)]
pub struct GenerationRng {
    pub state: u64,
}

/// A generator that begins at a seed.
pub open spec fn seeded(seed: u64) -> GenerationRng {
    GenerationRng {
        state: if seed == 0 {
            ZERO_SEED_STATE
        } else {
            seed
        },
    }
}

impl GenerationRng {
    /// A generator.
    pub fn new(seed: u64) -> (rng: Self)
        ensures
            rng == seeded(seed),
    {
        GenerationRng {
            state: if seed == 0 {
                ZERO_SEED_STATE
            } else {
                seed
            },
        }
    }

    /// The next number.
    pub fn next_u64(&mut self) -> (x: u64)
        ensures
            x == shifted_state(old(self).state),
            final(self).state == x,
    {
        let mut x: u64 = self.state;
        x = x ^ (x << 13u64);
        x = x ^ (x >> 7u64);
        x = x ^ (x << 17u64);
        self.state = x;
        x
    }
}

/// A generator never falls to zero, where it would stay.
pub proof fn law_state_stays_alive(x: u64)
    requires
        x != 0,
    ensures
        shifted_state(x) != 0,
{
    assert(x != 0 ==> ({
        let a = x ^ (x << 13u64);
        let b = a ^ (a >> 7u64);
        b ^ (b << 17u64)
    }) != 0) by (bit_vector);
}

/// How a byte is picked.
#[derive(Clone, Copy, Debug, PartialEq, Eq, Structural)]
pub enum GenerationStrategy {
    /// The likeliest one.
    Greedy,
    /// By chance, as likely as it is.
    Sample,
}

/// What a picked byte does to the model.
#[derive(Clone, Copy, Debug, PartialEq, Eq, Structural)]
pub enum GenerationUpdateMode {
    /// It is fitted.
    Adaptive,
    /// It is only conditioned on.
    Frozen,
}

/// How bytes are generated; numbers with a fraction by their bits.
#[derive(Clone, Copy, Debug, PartialEq, Eq, Structural)]
pub struct GenerationConfig {
    pub strategy: GenerationStrategy,
    pub update_mode: GenerationUpdateMode,
    /// Bits of the temperature.
    pub temperature: u64,
    /// How many bytes are considered; all where zero.
    pub top_k: usize,
    /// Bits of the share of the probability that is considered.
    pub top_p: u64,
    pub seed: u64,
}

/// Bits of one.
pub const ONE: u64 = 0x3ff0_0000_0000_0000;

/// The likeliest bytes, without fitting them.
pub open spec fn greedy_config() -> GenerationConfig {
    GenerationConfig { strategy: GenerationStrategy::Greedy, ..sampled_config(42) }
}

/// Bytes by chance, without fitting them.
pub open spec fn sampled_config(seed: u64) -> GenerationConfig {
    GenerationConfig {
        strategy: GenerationStrategy::Sample,
        update_mode: GenerationUpdateMode::Frozen,
        temperature: ONE,
        top_k: 0,
        top_p: ONE,
        seed,
    }
}

impl GenerationConfig {
    /// The likeliest bytes, without fitting them.
    pub fn greedy_frozen() -> (config: Self)
        ensures
            config == greedy_config(),
    {
        GenerationConfig {
            strategy: GenerationStrategy::Greedy,
            update_mode: GenerationUpdateMode::Frozen,
            temperature: ONE,
            top_k: 0,
            top_p: ONE,
            seed: 42,
        }
    }

    /// Bytes by chance, without fitting them.
    pub fn sampled_frozen(seed: u64) -> (config: Self)
        ensures
            config == sampled_config(seed),
    {
        GenerationConfig {
            strategy: GenerationStrategy::Sample,
            update_mode: GenerationUpdateMode::Frozen,
            temperature: ONE,
            top_k: 0,
            top_p: ONE,
            seed,
        }
    }

    /// Whether the likeliest byte is picked: because that is asked for, or because the temperature
    /// is no number above zero.
    pub fn picks_likeliest(&self) -> (yes: bool)
        ensures
            yes == (self.strategy == GenerationStrategy::Greedy || !ranking::finite_score(self.temperature)
                || self.temperature >= SIGN_BIT || self.temperature == 0),
    {
        self.strategy == GenerationStrategy::Greedy || !is_finite_score(self.temperature)
            || self.temperature >= SIGN_BIT || self.temperature == 0
    }
}

impl Default for GenerationConfig {
    fn default() -> (config: Self)
        ensures
            config == sampled_config(42),
    {
        GenerationConfig::sampled_frozen(42)
    }
}

/// How many of `n` candidates are considered.
pub open spec fn kept(top_k: usize, n: nat) -> nat {
    if top_k == 0 || top_k > n {
        n
    } else {
        top_k as nat
    }
}

/// Scores with minus infinity in place of those that are no number: nothing is below it. Infinity
/// stays above all others.
pub open spec fn sound_scores(scores: Seq<u64>) -> Seq<u64> {
    scores.map_values(
        |b: u64|
            if ranking::no_number(b) {
                MINUS_INFINITY
            } else {
                b
            },
    )
}

/// The candidates that are considered, from the likeliest down.
pub fn candidates(scores: &[u64], top_k: usize) -> (list: Vec<usize>)
    ensures
        list@.len() == kept(top_k, scores@.len()),
        exists|order: Seq<usize>|
            ranking::is_ranking(sound_scores(scores@), order) && list@ == order.take(
                list@.len() as int,
            ),
        forall|i: int| 0 <= i < list@.len() ==> #[trigger] list@[i] < scores@.len(),
{
    let n: usize = scores.len();
    let mut sound: Vec<u64> = Vec::new();
    let mut i: usize = 0;
    while i < n
        invariant
            i <= n == scores@.len(),
            sound@ == sound_scores(scores@).take(i as int),
        decreases n - i,
    {
        let b: u64 = scores[i];
        sound.push(
            if is_no_number(b) {
                MINUS_INFINITY
            } else {
                b
            },
        );
        proof {
            assert(sound@ =~= sound_scores(scores@).take(i + 1));
        }
        i += 1;
    }
    proof {
        assert(sound@ =~= sound_scores(scores@));
    }
    let mut order = ranked(sound.as_slice());
    let ghost whole = order@;
    let keep: usize = if top_k == 0 || top_k > n {
        n
    } else {
        top_k
    };
    order.truncate(keep);
    proof {
        assert(order@ =~= whole.take(keep as int));
    }
    order
}

/// Index of the first mark; the number of marks where none is set.
pub open spec fn first_mark(marks: Seq<bool>, from: int) -> int
    decreases marks.len() - from,
{
    if from < 0 || from >= marks.len() {
        marks.len() as int
    } else if marks[from] {
        from
    } else {
        first_mark(marks, from + 1)
    }
}

/// How many candidates it takes until a sum is reached.
pub open spec fn reached(marks: Seq<bool>) -> int {
    if marks.len() == 0 {
        1
    } else if first_mark(marks, 0) < marks.len() {
        first_mark(marks, 0) + 1
    } else {
        marks.len() as int
    }
}

/// How many candidates it takes until a sum is reached: `marks` tells, for each of them, whether
/// the sum up to it reaches. It takes one at least.
pub fn reached_count(marks: &[bool]) -> (count: usize)
    ensures
        count == reached(marks@),
{
    let n: usize = marks.len();
    let mut i: usize = 0;
    while i < n
        invariant
            i <= n == marks@.len(),
            first_mark(marks@, 0) == first_mark(marks@, i as int),
        decreases n - i,
    {
        if marks[i] {
            return i + 1;
        }
        i += 1;
    }
    if n == 0 {
        1
    } else {
        n
    }
}

/// Whether a share of the probability, by its bits, is all of it: one or more, or no number.
pub open spec fn is_whole(top_p: u64) -> bool {
    !ranking::finite_score(top_p) || ranking::place_of(top_p) >= ranking::place_of(ONE)
}

/// How many of the candidates a byte is drawn from: all of them where the share is all of the
/// probability, and else as many as it takes; `marks` tells, for each candidate, whether the
/// probability up to it reaches the share.
pub fn cutoff_count(candidates: usize, top_p: u64, marks: &[bool]) -> (count: usize)
    ensures
        count == if is_whole(top_p) {
            candidates as int
        } else {
            reached(marks@)
        },
{
    if !is_finite_score(top_p) || order_place(top_p) >= order_place(ONE) {
        candidates
    } else {
        reached_count(marks)
    }
}

/// Whether one of the candidates has a score that is a number.
pub fn any_finite(scores: &[u64], candidates: &[usize]) -> (yes: bool)
    requires
        forall|i: int| 0 <= i < candidates@.len() ==> #[trigger] candidates@[i] < scores@.len(),
    ensures
        yes == exists|i: int|
            0 <= i < candidates@.len() && ranking::finite_score(
                scores@[#[trigger] candidates@[i] as int],
            ),
{
    let n: usize = candidates.len();
    let mut i: usize = 0;
    while i < n
        invariant
            i <= n == candidates@.len(),
            forall|k: int| 0 <= k < candidates@.len() ==> #[trigger] candidates@[k] < scores@.len(),
            forall|k: int|
                0 <= k < i ==> !ranking::finite_score(scores@[#[trigger] candidates@[k] as int]),
        decreases n - i,
    {
        if is_finite_score(scores[candidates[i]]) {
            return true;
        }
        i += 1;
    }
    false
}

/// The byte that is drawn. Where the weights of the candidates have no sound sum, it is the byte
/// with the best score. Else it is the first candidate whose mark in `hits` is set: up to it the
/// weights reach what was drawn; and the first of all where none is.
pub fn drawn_byte(scores: &[u64], candidates: &[usize], sound: bool, hits: &[bool]) -> (byte: u8)
    requires
        scores@.len() == 256,
        candidates@.len() > 0,
        hits@.len() <= candidates@.len(),
        forall|i: int| 0 <= i < candidates@.len() ==> #[trigger] candidates@[i] < 256,
    ensures
        !sound ==> ranking::is_best(scores@, byte as int),
        sound ==> byte == candidates@[if first_mark(hits@, 0) < hits@.len() {
            first_mark(hits@, 0)
        } else {
            0
        }],
        sound ==> forall|i: int|
            0 <= i < hits@.len() && #[trigger] hits@[i] && (forall|j: int|
                0 <= j < i ==> !(#[trigger] hits@[j])) ==> byte == candidates@[i],
{
    proof {
        lemma_first_mark(hits@, 0);
    }
    if !sound {
        return argmax_log_prob_byte(scores);
    }
    let n: usize = hits.len();
    let mut i: usize = 0;
    while i < n
        invariant
            sound,
            i <= n == hits@.len() <= candidates@.len(),
            forall|k: int| 0 <= k < candidates@.len() ==> #[trigger] candidates@[k] < 256,
            first_mark(hits@, 0) == first_mark(hits@, i as int),
        decreases n - i,
    {
        if hits[i] {
            proof {
                lemma_first_mark(hits@, 0);
                assert forall|a: int|
                    0 <= a < hits@.len() && #[trigger] hits@[a] && (forall|j: int|
                        0 <= j < a ==> !(#[trigger] hits@[j])) implies a == i by {
                    if i < a {
                        assert(!hits@[i as int]);
                    }
                }
            }
            return candidates[i] as u8;
        }
        i += 1;
    }
    candidates[0] as u8
}

/// As many candidates are considered as are asked for, and all where none or more are.
pub proof fn law_kept(top_k: usize, n: nat)
    ensures
        kept(top_k, n) <= n,
        0 < top_k <= n ==> kept(top_k, n) == top_k,
        top_k == 0 || top_k >= n ==> kept(top_k, n) == n,
{
}

/// It takes as many candidates as there are up to the first mark, and all where there is no mark;
/// one at least.
pub proof fn law_reached(marks: Seq<bool>)
    ensures
        reached(marks) >= 1,
        marks.len() > 0 ==> reached(marks) <= marks.len(),
        forall|i: int| 0 <= i < reached(marks) - 1 && i < marks.len() ==> !(#[trigger] marks[i]),
        reached(marks) < marks.len() ==> marks[reached(marks) - 1],
        forall|i: int|
            0 <= i < marks.len() && #[trigger] marks[i] && (forall|j: int|
                0 <= j < i ==> !(#[trigger] marks[j])) ==> reached(marks) == i + 1,
{
    lemma_first_mark(marks, 0);
    assert forall|i: int|
        0 <= i < marks.len() && #[trigger] marks[i] && (forall|j: int|
            0 <= j < i ==> !(#[trigger] marks[j])) implies reached(marks) == i + 1 by {
        let f = first_mark(marks, 0);
        if f < i {
            assert(!marks[f]);
        }
    }
}

proof fn lemma_first_mark(marks: Seq<bool>, from: int)
    requires
        0 <= from <= marks.len(),
    ensures
        from <= first_mark(marks, from) <= marks.len(),
        first_mark(marks, from) < marks.len() ==> marks[first_mark(marks, from)],
        forall|i: int| from <= i < first_mark(marks, from) ==> !(#[trigger] marks[i]),
    decreases marks.len() - from,
{
    if from < marks.len() && !marks[from] {
        lemma_first_mark(marks, from + 1);
    }
}

// ---------------------------------------------------------------------------------------
// Continuations
// ---------------------------------------------------------------------------------------

/// Symbols of a stream of parts and what is generated behind them.
pub open spec fn stream_total(parts: Seq<&[u8]>, bytes: usize) -> u64 {
    if coders::chain_len(parts) + bytes <= u64::MAX {
        (coders::chain_len(parts) + bytes) as u64
    } else {
        u64::MAX
    }
}

/// State after parts.
pub open spec fn after_parts<P: OnlineBytePredictor>(state: P::State, parts: Seq<&[u8]>) -> P::State
    decreases parts.len(),
{
    if parts.len() == 0 {
        state
    } else {
        session::after_symbols::<P>(
            after_parts::<P>(state, parts.drop_last()),
            parts.last()@,
            false,
        )
    }
}

/// Text of a continuation that cannot begin.
pub open spec fn init_failed(text: Seq<char>) -> ApiFault {
    ApiFault::Runtime("rate backend generation init failed: "@ + text)
}

/// Text of a continuation that cannot end.
pub open spec fn finalize_failed(text: Seq<char>) -> ApiFault {
    ApiFault::Runtime("rate backend generation finalize failed: "@ + text)
}

/// Bytes behind the parts, or why there are none.
pub open spec fn continuation<P: OnlineBytePredictor, K: BytePicker<P::Table>>(
    built: Result<P, String>,
    parts: Seq<&[u8]>,
    bytes: usize,
    config: GenerationConfig,
    picker: K,
) -> Result<Seq<u8>, ApiFault> {
    if bytes == 0 {
        Ok(Seq::empty())
    } else {
        match built {
            Err(text) => Err(init_failed(text@)),
            Ok(predictor) => {
                let begun = P::stream_started(predictor.state(), Some(stream_total(parts, bytes)));
                let run = session::generation_run::<P, K>(
                    after_parts::<P>(begun.state, parts),
                    picker,
                    bytes as nat,
                    config,
                );
                match begun.error {
                    Some(text) => Err(init_failed(text)),
                    None => match P::stream_ended(run.state).error {
                        Some(text) => Err(finalize_failed(text)),
                        None => Ok(run.out),
                    },
                }
            },
        }
    }
}

/// Whether bytes, or an error, are what a continuation gives.
pub open spec fn continues(
    result: Result<Vec<u8>, ApiError>,
    continuation: Result<Seq<u8>, ApiFault>,
) -> bool {
    match continuation {
        Ok(bytes) => result matches Ok(out) && out@ == bytes,
        Err(fault) => result matches Err(e) && e@ == fault,
    }
}

proof fn lemma_chained_len(parts: Seq<&[u8]>)
    ensures
        coders::chain_len(parts) == coders::chained(parts).len(),
    decreases parts.len(),
{
    if parts.len() > 0 {
        lemma_chained_len(parts.drop_last());
    }
}

/// The stream is announced with all its symbols: those that are given and those that are asked for.
pub proof fn law_everything_is_announced(parts: Seq<&[u8]>, bytes: usize)
    requires
        coders::chained(parts).len() + bytes <= u64::MAX,
    ensures
        stream_total(parts, bytes) == coders::chained(parts).len() + bytes,
{
    lemma_chained_len(parts);
}

/// Parts one after the other leave a predictor as all their bytes at once do.
pub proof fn law_parts_as_one<P: OnlineBytePredictor>(state: P::State, parts: Seq<&[u8]>)
    ensures
        after_parts::<P>(state, parts) == session::after_symbols::<P>(
            state,
            coders::chained(parts),
            false,
        ),
    decreases parts.len(),
{
    if parts.len() > 0 {
        law_parts_as_one::<P>(state, parts.drop_last());
        session::law_symbols_join::<P>(
            state,
            coders::chained(parts.drop_last()),
            parts.last()@,
            false,
        );
    }
}

/// Only the bytes of the parts matter to a continuation, not where they are cut.
pub proof fn law_cuts_do_not_matter<P: OnlineBytePredictor, K: BytePicker<P::Table>>(
    built: Result<P, String>,
    parts: Seq<&[u8]>,
    others: Seq<&[u8]>,
    bytes: usize,
    config: GenerationConfig,
    picker: K,
)
    requires
        coders::chained(parts) == coders::chained(others),
    ensures
        continuation::<P, K>(built, parts, bytes, config, picker) == continuation::<P, K>(
            built,
            others,
            bytes,
            config,
            picker,
        ),
{
    lemma_chained_len(parts);
    lemma_chained_len(others);
    if let Ok(predictor) = built {
        let begun = P::stream_started(predictor.state(), Some(stream_total(parts, bytes)));
        law_parts_as_one::<P>(begun.state, parts);
        law_parts_as_one::<P>(begun.state, others);
    }
}

/// Where a continuation of some bytes succeeds, it gives as many as are asked for; nothing is asked
/// of the predictor for none.
pub proof fn law_continuation_length<P: OnlineBytePredictor, K: BytePicker<P::Table>>(
    built: Result<P, String>,
    parts: Seq<&[u8]>,
    bytes: usize,
    config: GenerationConfig,
    picker: K,
)
    ensures
        continuation::<P, K>(built, parts, bytes, config, picker) matches Ok(out) ==> out.len()
            == bytes,
        bytes == 0 ==> continuation::<P, K>(built, parts, bytes, config, picker) is Ok,
{
    if let Ok(predictor) = built {
        let begun = P::stream_started(predictor.state(), Some(stream_total(parts, bytes)));
        session::law_generation_as_given::<P, K>(
            after_parts::<P>(begun.state, parts),
            picker,
            bytes as nat,
            config,
        );
    }
}

fn prefixed(prefix: &str, error: ApiError) -> (e: ApiError)
    ensures
        e@ == ApiFault::Runtime(prefix@ + session::api_text(error@)),
{
    let mut out: Vec<char> = Vec::new();
    push_text(&mut out, prefix);
    push_text(&mut out, error.message().as_str());
    proof {
        assert(out@ =~= prefix@ + session::api_text(error@));
    }
    ApiError::Runtime(string_of(&out))
}

/// Bytes behind the parts, under a predictor that was built, or why there are none.
pub fn try_generate_bytes_conditional_chain_with_config<
    P: OnlineBytePredictor,
    K: BytePicker<P::Table>,
>(
    built: Result<P, String>,
    prefix_parts: &[&[u8]],
    bytes: usize,
    config: GenerationConfig,
    picker: &K,
) -> (result: Result<Vec<u8>, ApiError>)
    ensures
        continues(result, continuation(built, prefix_parts@, bytes, config, *picker)),
{
    if bytes == 0 {
        return Ok(Vec::new());
    }
    let total: u64 = chain_total(prefix_parts).saturating_add(bytes as u64);
    let mut session = match RateBackendSession::from_backend(built, Some(total)) {
        Ok(s) => s,
        Err(e) => {
            return Err(prefixed("rate backend generation init failed: ", e));
        },
    };
    let ghost start = session.predictor.state();
    let n: usize = prefix_parts.len();
    let mut i: usize = 0;
    while i < n
        invariant
            i <= n == prefix_parts@.len(),
            session.predictor.state() == after_parts::<P>(start, prefix_parts@.take(i as int)),
        decreases n - i,
    {
        session.observe(prefix_parts[i]);
        proof {
            assert(prefix_parts@.take(i + 1).drop_last() =~= prefix_parts@.take(i as int));
        }
        i += 1;
    }
    proof {
        assert(prefix_parts@.take(n as int) =~= prefix_parts@);
    }
    let out = session.generate_bytes(bytes, config, picker);
    match session.finish() {
        Ok(_) => Ok(out),
        Err(e) => Err(prefixed("rate backend generation finalize failed: ", e)),
    }
}

/// Bytes behind the parts, as the default configuration has it: by chance, from the seed 42, and
/// without fitting them.
pub fn try_generate_bytes_conditional_chain<P: OnlineBytePredictor, K: BytePicker<P::Table>>(
    built: Result<P, String>,
    prefix_parts: &[&[u8]],
    bytes: usize,
    picker: &K,
) -> (result: Result<Vec<u8>, ApiError>)
    ensures
        continues(result, continuation(built, prefix_parts@, bytes, sampled_config(42), *picker)),
{
    let config = GenerationConfig::default();
    try_generate_bytes_conditional_chain_with_config(built, prefix_parts, bytes, config, picker)
}

/// Bytes behind a prompt.
pub fn try_generate_bytes_with_config<P: OnlineBytePredictor, K: BytePicker<P::Table>>(
    built: Result<P, String>,
    prompt: &[u8],
    bytes: usize,
    config: GenerationConfig,
    picker: &K,
) -> (result: Result<Vec<u8>, ApiError>)
    ensures
        continues(result, continuation(built, seq![prompt], bytes, config, *picker)),
{
    let mut parts: Vec<&[u8]> = Vec::new();
    parts.push(prompt);
    proof {
        assert(parts@ =~= seq![prompt]);
    }
    try_generate_bytes_conditional_chain_with_config(
        built,
        parts.as_slice(),
        bytes,
        config,
        picker,
    )
}

/// Bytes behind a prompt, as the default configuration has it: by chance, from the seed 42, and
/// without fitting them.
pub fn try_generate_bytes<P: OnlineBytePredictor, K: BytePicker<P::Table>>(
    built: Result<P, String>,
    prompt: &[u8],
    bytes: usize,
    picker: &K,
) -> (result: Result<Vec<u8>, ApiError>)
    ensures
        continues(result, continuation(built, seq![prompt], bytes, sampled_config(42), *picker)),
{
    let config = GenerationConfig::default();
    try_generate_bytes_with_config(built, prompt, bytes, config, picker)
}

} // verus!
