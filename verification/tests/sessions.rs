//! Sessions over bytes and over bits.

use infotheory::api::bit_lifecycle::admit_semantics;
use infotheory::api::bit_session::{
    BufferedBytePrefixKind, BytePrefixMass, RateBackendBitSession, SessionError,
};
use infotheory::api::bit_updates::BitSource;
use infotheory::api::bits::{
    broken_stream_message, byte_packed_total_symbols, observed_bit, total_symbols_for_bit_semantics,
    with_bit, BitOrder, BitStreamSemantics,
};
use infotheory::api::generation::{
    try_generate_bytes, try_generate_bytes_conditional_chain,
    try_generate_bytes_conditional_chain_with_config, try_generate_bytes_with_config,
    GenerationConfig, GenerationRng, GenerationUpdateMode,
};
use infotheory::api::predictor::OnlineBytePredictor;
use infotheory::api::session::{ApiError, BytePicker, RateBackendSession};
use infotheory::backends::context_models::OrderNGramModel;
use infotheory::backends::order_stream::{LikeliestByte, OrderNGramPredictor};

/// A predictor that keeps what it was told, and may take bytes bit by bit.
struct Told {
    fitted: Vec<u8>,
    conditioned: Vec<u8>,
    progress: Option<Vec<bool>>,
    depth: usize,
    takes_bits: bool,
    abortable: bool,
}

struct ToldCheckpoint {
    fitted: Vec<u8>,
    conditioned: Vec<u8>,
    progress: Option<Vec<bool>>,
}

fn told(takes_bits: bool) -> Told {
    Told {
        fitted: Vec::new(),
        conditioned: Vec::new(),
        progress: None,
        depth: 0,
        takes_bits,
        abortable: true,
    }
}

impl Told {
    fn saved_now(&self) -> ToldCheckpoint {
        ToldCheckpoint {
            fitted: self.fitted.clone(),
            conditioned: self.conditioned.clone(),
            progress: self.progress.clone(),
        }
    }
}

impl OnlineBytePredictor for Told {
    type State = Told;
    type Checkpoint = ToldCheckpoint;
    type Table = [f64; 256];

    fn update(&mut self, symbol: u8) {
        self.fitted.push(symbol);
        self.conditioned.push(symbol);
    }

    fn update_frozen(&mut self, symbol: u8) {
        self.conditioned.push(symbol);
    }

    fn table(&mut self, _frozen: bool) -> [f64; 256] {
        [1.0 / 256.0; 256]
    }

    fn begin_stream(&mut self, total_symbols: Option<u64>) -> Result<(), String> {
        if total_symbols == Some(0) {
            return Err("an empty stream".to_string());
        }
        Ok(())
    }

    fn begin_fresh_stream(&mut self, _total_symbols: Option<u64>) -> Result<(), String> {
        self.conditioned.clear();
        Ok(())
    }

    fn reset_frozen(&mut self, _total_symbols: Option<u64>) -> Result<(), String> {
        self.conditioned.clear();
        Ok(())
    }

    fn finish_stream(&mut self) -> Result<(), String> {
        Ok(())
    }

    fn has_native_msb_byte_prefix(&self) -> bool {
        self.takes_bits
    }

    fn begin_native_msb_byte_prefix(&mut self) -> Result<bool, String> {
        if !self.abortable {
            return Ok(false);
        }
        if self.progress.is_some() {
            return Err("a byte is under way".to_string());
        }
        self.progress = Some(Vec::new());
        Ok(true)
    }

    fn observe_native_msb_prefix_bit(&mut self, at: usize, bit: bool) -> Result<(), String> {
        match &mut self.progress {
            Some(bits) if bits.len() == at => {
                bits.push(bit);
                Ok(())
            }
            _ => Err("out of turn".to_string()),
        }
    }

    fn condition_native_msb_prefix_bit_for_rollback(
        &mut self,
        at: usize,
        bit: bool,
    ) -> Result<(), String> {
        self.observe_native_msb_prefix_bit(at, bit)
    }

    fn finish_native_msb_byte_prefix(&mut self, symbol: u8) -> Result<(), String> {
        self.progress = None;
        self.update(symbol);
        Ok(())
    }

    fn abort_empty_native_msb_byte_prefix(&mut self) -> Result<bool, String> {
        let there = self.progress.is_some();
        self.progress = None;
        Ok(there)
    }

    fn abandon_incomplete_native_msb_byte_prefix_for_lifecycle(&mut self) -> Result<(), String> {
        self.progress = None;
        Ok(())
    }

    fn checkpoint(&mut self) -> ToldCheckpoint {
        self.depth += 1;
        self.saved_now()
    }

    fn native_prefix_start_checkpoint(&mut self) -> ToldCheckpoint {
        self.depth += 1;
        self.saved_now()
    }

    fn copy_checkpoint(checkpoint: &ToldCheckpoint) -> ToldCheckpoint {
        ToldCheckpoint {
            fitted: checkpoint.fitted.clone(),
            conditioned: checkpoint.conditioned.clone(),
            progress: checkpoint.progress.clone(),
        }
    }

    fn copy_table(table: &[f64; 256]) -> [f64; 256] {
        *table
    }

    fn restore_checkpoint(&mut self, checkpoint: &ToldCheckpoint) {
        self.fitted = checkpoint.fitted.clone();
        self.conditioned = checkpoint.conditioned.clone();
        self.progress = checkpoint.progress.clone();
    }

    fn discard_checkpoint(&mut self, _checkpoint: ToldCheckpoint) {
        self.depth -= 1;
    }

    fn clear_checkpoints_if_supported(&mut self) {
        self.depth = 0;
    }
}

type Session = RateBackendBitSession<Told>;

fn msb() -> BitStreamSemantics {
    BitStreamSemantics::BytePacked {
        order: BitOrder::MsbFirst,
    }
}

fn opened(
    name: &str,
    predictor: Told,
    bits: Option<u64>,
    semantics: BitStreamSemantics,
) -> Result<RateBackendBitSession<Told>, ApiError> {
    let code = name.as_bytes().to_vec();
    RateBackendBitSession::from_backend(code, name, true, true, Ok(predictor), bits, semantics)
}

fn session_with(predictor: Told, semantics: BitStreamSemantics) -> Session {
    match opened("told", predictor, Some(8), semantics) {
        Ok(s) => s,
        Err(e) => panic!("{}", e.message()),
    }
}

fn new_byte_packed_session() -> Session {
    session_with(told(true), msb())
}

fn depth(session: &Session) -> usize {
    session.predictor.depth
}

fn progress(session: &Session) -> Option<usize> {
    session.predictor.progress.as_ref().map(|bits| bits.len())
}

fn buffered_bits(session: &Session) -> Option<usize> {
    match session.prefix.as_ref().map(|prefix| &prefix.kind) {
        Some(BufferedBytePrefixKind::NativeMsb { bits, .. }) => Some(*bits),
        _ => None,
    }
}

fn has_start_checkpoint(session: &Session) -> Option<bool> {
    match session.prefix.as_ref().map(|prefix| &prefix.kind) {
        Some(BufferedBytePrefixKind::NativeMsb {
            start_checkpoint, ..
        }) => Some(start_checkpoint.is_some()),
        _ => None,
    }
}

fn ok<T>(result: Result<T, SessionError>) -> T {
    match result {
        Ok(value) => value,
        Err(e) => panic!("{}", e.message()),
    }
}

#[test]
fn frozen_native_byte_completion_releases_start_checkpoint() {
    let mut session = new_byte_packed_session();
    for bit in [true, false, true, false, false, true, true, false] {
        ok(session.try_condition_bit(bit));
    }
    assert!(session.prefix.is_none());
    assert_eq!(depth(&session), 0);
    assert_eq!(progress(&session), None);
    assert_eq!(session.predictor.conditioned, vec![0b1010_0110]);
    assert!(session.predictor.fitted.is_empty());

    assert_eq!(ok(session.predict_bit()), BitSource::Native { bits: 0 });
    assert_eq!(buffered_bits(&session), Some(0));
    assert_eq!(progress(&session), Some(0));
}

#[test]
fn reset_frozen_discards_inflight_native_prefix_checkpoint() {
    let mut session = new_byte_packed_session();
    ok(session.try_condition_bit(true));
    assert_eq!(depth(&session), 1);

    ok(session.reset_frozen(Some(8)));
    assert_eq!(depth(&session), 0);
}

#[test]
fn begin_bit_stream_discards_inflight_native_prefix_checkpoint() {
    let mut session = new_byte_packed_session();
    ok(session.try_condition_bit(true));
    assert_eq!(depth(&session), 1);

    ok(session.begin_bit_stream(Some(8), msb()));
    assert_eq!(depth(&session), 0);
}

#[test]
fn clear_checkpoints_after_empty_native_restore_drops_prefix_cleanly() {
    let mut session = new_byte_packed_session();
    ok(session.predict_bit());
    let checkpoint = session.checkpoint();
    ok(session.try_condition_bit(true));

    ok(session.restore_checkpoint(&checkpoint));
    assert_eq!(buffered_bits(&session), Some(0));
    assert_eq!(progress(&session), Some(0));

    ok(session.clear_checkpoints_if_supported());
    assert!(session.prefix.is_none());
    assert_eq!(depth(&session), 0);
    assert_eq!(progress(&session), None);

    ok(session.predict_bit());
    assert_eq!(buffered_bits(&session), Some(0));
    assert_eq!(progress(&session), Some(0));
}

#[test]
fn clear_checkpoints_converts_partial_native_prefix_to_mass() {
    let mut session = new_byte_packed_session();
    ok(session.try_condition_bit(true));
    ok(session.try_condition_bit(false));
    assert_eq!(buffered_bits(&session), Some(2));
    assert_eq!(progress(&session), Some(2));

    ok(session.predict_bit());
    ok(session.clear_checkpoints_if_supported());

    assert!(matches!(
        session.prefix.as_ref().map(|prefix| &prefix.kind),
        Some(BufferedBytePrefixKind::Mass(_))
    ));
    assert_eq!(depth(&session), 0);
    assert_eq!(progress(&session), None);

    assert_eq!(ok(session.predict_bit()), BitSource::Mass);
    for bit in [true, false, true, false, true, false] {
        ok(session.try_condition_bit(bit));
    }
    ok(session.finish());
    assert_eq!(session.predictor.conditioned, vec![0b1010_1010]);
}

#[test]
fn reset_frozen_rolls_back_adaptive_partial_native_prefix() {
    let mut session = new_byte_packed_session();
    ok(session.try_observe_bit(true));
    assert_eq!(depth(&session), 1);
    assert_eq!(progress(&session), Some(1));

    ok(session.reset_frozen(Some(8)));

    assert_eq!(depth(&session), 0);
    assert_eq!(progress(&session), None);
    assert!(session.predictor.fitted.is_empty());
}

#[test]
fn discardable_scope_avoids_adaptive_native_prefix_checkpoint() {
    let mut session = new_byte_packed_session();
    session.begin_discardable_scope();
    ok(session.predict_bit());
    ok(session.try_observe_bit(true));

    assert_eq!(buffered_bits(&session), Some(1));
    assert_eq!(
        has_start_checkpoint(&session),
        Some(false),
        "discardable adaptive prefixes must not retain restore-only checkpoints",
    );
    assert_eq!(depth(&session), 0);

    for bit in [false, true, false, true, false, true, false] {
        ok(session.try_observe_bit(bit));
    }
    assert!(session.prefix.is_none());
    assert_eq!(depth(&session), 0);
    assert_eq!(progress(&session), None);
    assert_eq!(session.predictor.fitted, vec![0b1010_1010]);
    session.clear_discardable_scopes();
    assert_eq!(session.discardable_scopes, 0);
}

#[test]
fn discardable_scope_keeps_frozen_native_prefix_checkpoint() {
    let mut session = new_byte_packed_session();
    session.begin_discardable_scope();
    ok(session.try_condition_bit(true));

    assert_eq!(buffered_bits(&session), Some(1));
    assert_eq!(
        has_start_checkpoint(&session),
        Some(true),
        "frozen native prefixes still need a start checkpoint to avoid learning action bytes",
    );
    assert_eq!(depth(&session), 1);
}

#[test]
fn begin_bit_stream_rolls_back_adaptive_partial_native_prefix() {
    let mut session = new_byte_packed_session();
    ok(session.try_observe_bit(true));
    assert_eq!(depth(&session), 1);
    assert_eq!(progress(&session), Some(1));

    ok(session.begin_bit_stream(Some(8), msb()));

    assert_eq!(depth(&session), 0);
    assert_eq!(progress(&session), None);
    ok(session.try_observe_bit(false));
}

#[test]
fn restore_checkpoint_discards_abandoned_native_prefix_checkpoint() {
    let mut session = new_byte_packed_session();
    let checkpoint = session.checkpoint();
    assert_eq!(depth(&session), 1);

    ok(session.try_condition_bit(true));
    assert_eq!(depth(&session), 2);

    ok(session.restore_checkpoint(&checkpoint));
    assert_eq!(depth(&session), 1);
}

#[test]
fn restore_mid_prefix_checkpoint_rebuilds_frozen_native_rollback_point() {
    let mut session = new_byte_packed_session();
    ok(session.try_condition_bit(true));
    let checkpoint = session.checkpoint();
    assert_eq!(depth(&session), 2);

    ok(session.try_condition_bit(false));
    ok(session.restore_checkpoint(&checkpoint));
    assert_eq!(depth(&session), 2);

    for bit in [false, true, false, true, false, true, false] {
        ok(session.try_condition_bit(bit));
    }
    assert_eq!(depth(&session), 1);
    assert_eq!(session.predictor.conditioned, vec![0b1010_1010]);
}

#[test]
fn predict_bit_mass_fallback_when_native_setup_is_not_abortable() {
    let mut predictor = told(true);
    predictor.abortable = false;
    let mut session = session_with(predictor, msb());
    assert_eq!(ok(session.predict_bit()), BitSource::Mass);
    assert!(matches!(
        session.prefix.as_ref().map(|p| &p.kind),
        Some(BufferedBytePrefixKind::Mass(_))
    ));
}

#[test]
fn record_buffered_byte_prefix_kind_and_related_sizes() {
    let byte_prefix_mass = std::mem::size_of::<BytePrefixMass<[f64; 256]>>();
    let buffered_kind = std::mem::size_of::<BufferedBytePrefixKind<Told>>();
    assert_eq!(
        buffered_kind, byte_prefix_mass,
        "post-box BufferedBytePrefixKind (NativeMsb) must not exceed Mass variant size ({} vs {}); \
         native-MSB rewind checkpoints must stay out-of-line",
        buffered_kind, byte_prefix_mass
    );
}

#[test]
fn modes_do_not_mix_within_a_byte() {
    let mut session = session_with(told(false), msb());
    ok(session.try_observe_bit(true));
    let err = session.try_condition_bit(false).expect_err("a refusal").message();
    assert!(err.contains("cannot mix adaptive and conditioning-only updates"));
    assert!(!session.holds_whole_byte());
    let err = session.finish().expect_err("a refusal").message();
    assert!(err.contains("whole-byte boundary"));
}

#[test]
fn bits_of_either_order_make_bytes() {
    let lsb = BitStreamSemantics::BytePacked {
        order: BitOrder::LsbFirst,
    };
    let mut session = session_with(told(true), lsb);
    for bit in [true, true, false, false, false, false, false, false] {
        ok(session.try_observe_bit(bit));
    }
    assert_eq!(session.predictor.fitted, vec![3]);
    let mut tokens = session_with(told(true), BitStreamSemantics::BinaryTokens);
    assert_eq!(ok(tokens.predict_bit()), BitSource::Tokens);
    ok(tokens.try_observe_bit(true));
    ok(tokens.try_condition_bit(false));
    assert_eq!(tokens.predictor.fitted, vec![1]);
    assert_eq!(tokens.predictor.conditioned, vec![1, 0]);
    ok(tokens.finish());
}

#[test]
fn broken_streams_and_foreign_checkpoints_are_refused() {
    let refused = opened("told", told(true), Some(9), msb());
    match refused {
        Err(e) => assert!(e.message().contains("got 9")),
        Ok(_) => panic!("expected a refusal"),
    }
    let refused = opened("told", told(true), Some(0), msb());
    match refused {
        Err(e) => assert_eq!(e.message(), "an empty stream"),
        Ok(_) => panic!("expected a refusal"),
    }
    let mut one = new_byte_packed_session();
    let checkpoint = one.checkpoint();
    let mut other = match opened("x", told(true), Some(8), msb()) {
        Ok(s) => s,
        Err(e) => panic!("{}", e.message()),
    };
    let err = other.restore_checkpoint(&checkpoint).expect_err("a refusal").message();
    assert!(err.contains("different backend or bit semantics"));
}

#[test]
fn bits_and_totals() {
    assert!(observed_bit(0b1000_0000, BitOrder::MsbFirst, 0));
    assert!(!observed_bit(0b1000_0000, BitOrder::LsbFirst, 0));
    assert_eq!(with_bit(0, BitOrder::MsbFirst, 0, true), 128);
    assert_eq!(with_bit(0, BitOrder::LsbFirst, 0, true), 1);
    assert_eq!(byte_packed_total_symbols(Some(16)), Ok(Some(2)));
    assert_eq!(byte_packed_total_symbols(Some(15)), Err(15));
    assert_eq!(
        total_symbols_for_bit_semantics(Some(15), BitStreamSemantics::BinaryTokens),
        Ok(Some(15))
    );
    assert!(broken_stream_message(15).contains("got 15"));
}

struct Always(u8);

impl<T> BytePicker<T> for Always {
    fn pick(&self, _table: &T, _config: GenerationConfig, _rng: &mut GenerationRng) -> u8 {
        self.0
    }
}

#[test]
fn byte_sessions_fit_condition_and_generate() {
    let mut session = match RateBackendSession::from_backend(Ok(told(false)), Some(4)) {
        Ok(s) => s,
        Err(e) => panic!("{}", e.message()),
    };
    session.observe(b"ab");
    session.condition(b"c");
    assert_eq!(session.predictor.fitted, b"ab".to_vec());
    assert_eq!(session.predictor.conditioned, b"abc".to_vec());
    let out = session.generate_bytes(2, GenerationConfig::greedy_frozen(), &Always(7));
    assert_eq!(out, vec![7, 7]);
    assert_eq!(session.predictor.fitted, b"ab".to_vec());
    let mut fitting = GenerationConfig::greedy_frozen();
    fitting.update_mode = GenerationUpdateMode::Adaptive;
    let out = session.generate_bytes(1, fitting, &Always(9));
    assert_eq!(out, vec![9]);
    assert_eq!(session.predictor.fitted, vec![b'a', b'b', 9]);
    assert!(session.reset_frozen(None).is_ok());
    assert!(session.predictor.conditioned.is_empty());
    assert!(session.begin_stream(None).is_ok());
    assert!(session.finish().is_ok());
}

#[test]
fn backends_that_cannot_be_built_are_reported() {
    let refused = RateBackendSession::<Told>::from_backend(Err("no such thing".to_string()), None);
    match refused {
        Err(ApiError::InvalidBackendConfig(text)) => assert_eq!(text, "no such thing"),
        _ => panic!("expected a refusal"),
    }
    let refused = RateBackendSession::from_backend(Ok(told(false)), Some(0));
    match refused {
        Err(ApiError::Runtime(text)) => assert_eq!(text, "an empty stream"),
        _ => panic!("expected a refusal"),
    }
}

#[test]
fn continuations_have_the_asked_length() {
    let out = try_generate_bytes(Ok(told(false)), b"abc", 3, &Always(5)).expect("bytes");
    assert_eq!(out, vec![5, 5, 5]);
    let mut config = GenerationConfig::greedy_frozen();
    config.update_mode = GenerationUpdateMode::Adaptive;
    let out = try_generate_bytes_with_config(Ok(told(false)), b"abc", 2, config, &Always(6))
        .expect("bytes");
    assert_eq!(out, vec![6, 6]);
    let out = try_generate_bytes_conditional_chain(
        Ok(told(false)),
        &[b"a", b"b"],
        1,
        &Always(8),
    )
    .expect("bytes");
    assert_eq!(out, vec![8]);
    let out = try_generate_bytes_conditional_chain_with_config(
        Err::<Told, String>("gone".to_string()),
        &[b"a"],
        1,
        config,
        &Always(8),
    );
    match out {
        Err(e) => assert!(e.message().contains("gone")),
        Ok(bytes) => assert!(bytes.is_empty()),
    }
}

/// Picks the next number that it draws.
struct Drawn;

impl<T> BytePicker<T> for Drawn {
    fn pick(&self, _table: &T, _config: GenerationConfig, rng: &mut GenerationRng) -> u8 {
        (rng.next_u64() >> 32) as u8
    }
}

fn drawn_from(seed: u64, bytes: usize) -> Vec<u8> {
    let mut rng = GenerationRng::new(seed);
    (0..bytes).map(|_| (rng.next_u64() >> 32) as u8).collect()
}

#[test]
fn bytes_are_drawn_from_the_seed() {
    let config = GenerationConfig::sampled_frozen(7);
    let out = try_generate_bytes_with_config(Ok(told(false)), b"abc", 6, config, &Drawn);
    assert_eq!(out.expect("bytes"), drawn_from(7, 6));
    let again = try_generate_bytes_with_config(Ok(told(false)), b"abc", 6, config, &Drawn);
    assert_eq!(again.expect("bytes"), drawn_from(7, 6));
    let short = try_generate_bytes(Ok(told(false)), b"abc", 6, &Drawn).expect("bytes");
    assert_eq!(short, drawn_from(42, 6));
    let default = GenerationConfig::default();
    let long = try_generate_bytes_with_config(Ok(told(false)), b"abc", 6, default, &Drawn);
    assert_eq!(long.expect("bytes"), short);
    assert_ne!(drawn_from(7, 6), drawn_from(42, 6));
}

#[test]
fn nothing_is_asked_for_no_bytes() {
    let gone = || Err::<Told, String>("gone".to_string());
    assert_eq!(try_generate_bytes(gone(), b"a", 0, &Drawn).expect("no bytes"), Vec::<u8>::new());
    let mut session = match RateBackendSession::from_backend(Ok(told(false)), Some(4)) {
        Ok(s) => s,
        Err(e) => panic!("{}", e.message()),
    };
    assert_eq!(session.generate_bytes(0, GenerationConfig::default(), &Drawn), Vec::<u8>::new());
    assert!(session.predictor.conditioned.is_empty());
}

fn counting() -> Result<OrderNGramPredictor, String> {
    Ok(OrderNGramPredictor::new(OrderNGramModel::new(1, 8).expect("model")))
}

#[test]
fn cuts_between_parts_do_not_matter() {
    let whole = try_generate_bytes(counting(), b"abcabcabc", 5, &LikeliestByte).expect("bytes");
    assert_eq!(whole, b"abcab".to_vec());
    let parts: [&[u8]; 4] = [b"abca", b"", b"bcab", b"c"];
    let cut = try_generate_bytes_conditional_chain(counting(), &parts, 5, &LikeliestByte);
    assert_eq!(cut.expect("bytes"), whole);
}

#[test]
fn generated_bytes_act_like_given_ones() {
    let mut fitting = GenerationConfig::greedy_frozen();
    fitting.update_mode = GenerationUpdateMode::Adaptive;
    for config in [fitting, GenerationConfig::greedy_frozen()] {
        let mut one = RateBackendSession::from_backend(counting(), None).expect("session");
        let mut two = RateBackendSession::from_backend(counting(), None).expect("session");
        one.observe(b"abacab");
        two.observe(b"abacab");
        let out = one.generate_bytes(5, config, &LikeliestByte);
        if config == fitting {
            two.observe(&out);
        } else {
            two.condition(&out);
        }
        for _ in 0..4 {
            assert_eq!(one.predictor.table(false), two.predictor.table(false));
            one.observe(b"c");
            two.observe(b"c");
        }
    }
}

#[test]
fn counting_predictors_continue_what_they_saw() {
    let model = OrderNGramModel::new(1, 8).expect("model");
    let predictor = OrderNGramPredictor::new(model);
    let mut session = match RateBackendSession::from_backend(Ok(predictor), None) {
        Ok(s) => s,
        Err(e) => panic!("{}", e.message()),
    };
    session.observe(b"abcabcabc");
    let greedy = GenerationConfig::greedy_frozen();
    let mut fitting = greedy;
    fitting.update_mode = GenerationUpdateMode::Adaptive;
    assert_eq!(session.generate_bytes(4, greedy, &LikeliestByte), b"abca".to_vec());
    let checkpoint = session.predictor.checkpoint();
    session.observe(b"zzzz");
    session.predictor.restore_checkpoint(&checkpoint);
    assert_eq!(session.generate_bytes(2, fitting, &LikeliestByte), b"bc".to_vec());
    let bits = session.predictor.finish_native_msb_byte_prefix(1);
    assert_eq!(bits, Err("order-ngram takes whole bytes only".to_string()));
}

#[test]
fn backends_without_byte_probabilities_take_no_packed_bytes() {
    let refused = |mass: bool, efficient: bool| match admit_semantics(msb(), mass, efficient, "told")
    {
        Err(ApiError::InvalidBackendConfig(text)) => text,
        _ => panic!("expected a refusal"),
    };
    let text = "backend 'told' does not support BitStreamSemantics::BytePacked";
    assert_eq!(refused(false, false), text);
    assert_eq!(refused(false, true), text);
    assert_eq!(
        refused(true, false),
        "backend 'told' can expose byte probabilities but does not support efficient BitStreamSemantics::BytePacked sessions; use BitStreamSemantics::BinaryTokens or a backend with native or cached byte-prefix support"
    );
    assert!(admit_semantics(msb(), true, true, "told").is_ok());
    let tokens = BitStreamSemantics::BinaryTokens;
    assert!(admit_semantics(tokens, false, false, "told").is_ok());
    let open = |mass: bool, built: Result<Told, String>, bits: u64| {
        RateBackendBitSession::from_backend(Vec::new(), "told", mass, true, built, Some(bits), msb())
    };
    match open(false, Err("gone".to_string()), 8) {
        Err(ApiError::InvalidBackendConfig(found)) => assert_eq!(found, text),
        _ => panic!("expected a refusal"),
    }
    match open(true, Err("gone".to_string()), 8) {
        Err(ApiError::InvalidBackendConfig(found)) => assert_eq!(found, "gone"),
        _ => panic!("expected a refusal"),
    }
    match open(false, Err("gone".to_string()), 9) {
        Err(ApiError::Runtime(found)) => assert!(found.contains("got 9")),
        _ => panic!("expected a refusal"),
    }
    assert!(open(true, Ok(told(true)), 8).is_ok());
}

#[test]
fn own_checkpoints_bring_back_open_bytes() {
    for frozen in [false, true] {
        let mut session = session_with(told(true), msb());
        for bit in [true, false, true] {
            let taken = if frozen {
                session.try_condition_bit(bit)
            } else {
                session.try_observe_bit(bit)
            };
            ok(taken);
        }
        let checkpoint = session.checkpoint();
        let finish = |session: &mut RateBackendBitSession<Told>| {
            let mut sources = Vec::new();
            for bit in [false, false, true, true, false] {
                sources.push(ok(session.predict_bit()));
                let taken = if frozen {
                    session.try_condition_bit(bit)
                } else {
                    session.try_observe_bit(bit)
                };
                ok(taken);
            }
            (sources, session.predictor.fitted.clone(), session.predictor.conditioned.clone())
        };
        let once = finish(&mut session);
        ok(session.restore_checkpoint(&checkpoint));
        let again = finish(&mut session);
        assert_eq!(once, again);
        ok(session.restore_checkpoint(&checkpoint));
        assert_eq!(finish(&mut session), once);
    }
}

#[test]
fn checkpoints_of_bytes_are_given_back() {
    let mut session = new_byte_packed_session();
    let kept = session.checkpoint();
    assert_eq!(depth(&session), 1);
    for bit in [true, false, true, false, false, true, true, false] {
        ok(session.try_observe_bit(bit));
    }
    assert_eq!(depth(&session), 1);
    ok(session.try_condition_bit(true));
    assert_eq!(depth(&session), 2);
    ok(session.restore_checkpoint(&kept));
    assert_eq!(depth(&session), 1);
    ok(session.try_condition_bit(true));
    let inside = session.checkpoint();
    assert_eq!(depth(&session), 3);
    ok(session.restore_checkpoint(&inside));
    assert_eq!(depth(&session), 3);
    assert!(ok(session.clear_checkpoints_if_supported()));
    assert_eq!(depth(&session), 0);
}

#[test]
fn counting_sessions_bring_bytes_back() {
    let code = b"order".to_vec();
    let opened =
        RateBackendBitSession::from_backend(code, "order", true, true, counting(), None, msb());
    let mut session = match opened {
        Ok(session) => session,
        Err(e) => panic!("{}", e.message()),
    };
    for bit in [false, true, true] {
        ok(session.try_observe_bit(bit));
    }
    let checkpoint = session.checkpoint();
    let finish = |session: &mut RateBackendBitSession<OrderNGramPredictor>| {
        for bit in [false, false, false, false, true] {
            assert_eq!(ok(session.predict_bit()), BitSource::Mass);
            ok(session.try_observe_bit(bit));
        }
        session.predictor.table(false)
    };
    let once = finish(&mut session);
    ok(session.restore_checkpoint(&checkpoint));
    assert_eq!(finish(&mut session), once);
}
