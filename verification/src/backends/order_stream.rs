//! The order model as a predictor of streams.

use vstd::prelude::*;
use crate::api::bit_lifecycle;
use crate::api::bit_replay;
use crate::api::predictor;
use crate::api::session;
use crate::backends::context_models;
use crate::backends::context_counter;

use crate::api::bit_replay::BitRequest;
use crate::api::bit_session::SessionModel;
use crate::api::generation::{GenerationConfig, GenerationRng};
use crate::api::predictor::{Journal, OnlineBytePredictor, Outcome};
use crate::api::session::BytePicker;
use crate::backends::context_models::{OrderModel, OrderNGramModel};

verus! {

broadcast use vstd::array::group_array_axioms;

/// Counts bytes behind the last bytes of a stream. The model is taken out while it is changed.
pub struct OrderNGramPredictor {
    model: Option<OrderNGramModel>,
}

/// Counts behind the last bytes; all zero where there are none.
pub open spec fn counts_behind(state: Option<OrderModel>) -> Seq<u16> {
    match state {
        Some(m) => match context_models::order_key(m.history, m.order) {
            Some(key) => match context_counter::slot_for(m.core, key) {
                Some(slot) => slot.counts,
                None => Seq::new(256, |i: int| 0u16),
            },
            None => Seq::new(256, |i: int| 0u16),
        },
        None => Seq::new(256, |i: int| 0u16),
    }
}

/// The same, with the last bytes forgotten.
pub open spec fn history_gone(state: Option<OrderModel>) -> Option<OrderModel> {
    match state {
        Some(m) => Some(OrderModel { history: Seq::empty(), ..m }),
        None => None,
    }
}

/// Nothing went wrong.
pub open spec fn fine(state: Option<OrderModel>) -> Outcome<Option<OrderModel>> {
    Outcome { state, yes: false, error: None }
}

/// Bytes cannot be taken bit by bit.
pub open spec fn no_bits(state: Option<OrderModel>) -> Outcome<Option<OrderModel>> {
    Outcome { state, yes: false, error: Some("order-ngram takes whole bytes only"@) }
}

impl OrderNGramPredictor {
    #[verifier::type_invariant]
    closed spec fn in_order(&self) -> bool {
        self.model matches Some(m) ==> m.wf()
    }

    /// A predictor with a model.
    pub fn new(model: OrderNGramModel) -> (predictor: Self)
        requires
            model.wf(),
        ensures
            predictor.state() == Some(model.model()),
    {
        OrderNGramPredictor { model: Some(model) }
    }

    fn copy(&self) -> (copy: Self)
        ensures
            copy.state() == self.state(),
    {
        proof {
            use_type_invariant(self);
        }
        match &self.model {
            Some(m) => OrderNGramPredictor { model: Some(m.duplicate()) },
            None => OrderNGramPredictor { model: None },
        }
    }

    fn forget(&mut self)
        ensures
            final(self).state() == history_gone(old(self).state()),
    {
        proof {
            use_type_invariant(&*self);
        }
        let mut held: Option<OrderNGramModel> = None;
        std::mem::swap(&mut held, &mut self.model);
        if let Some(mut m) = held {
            m.reset_history();
            self.model = Some(m);
        }
    }
}

/// The first of the highest of the first `n` counts.
pub open spec fn first_highest(counts: Seq<u16>, n: nat) -> int
    decreases n,
{
    if n <= 1 {
        0
    } else if counts[n - 1] > counts[first_highest(counts, (n - 1) as nat)] {
        n - 1
    } else {
        first_highest(counts, (n - 1) as nat)
    }
}

/// No count exceeds the first of the highest, and those in front of it are lower.
pub proof fn law_first_highest(counts: Seq<u16>, n: nat)
    requires
        0 < n <= counts.len(),
    ensures
        0 <= first_highest(counts, n) < n,
        forall|k: int|
            0 <= k < n ==> #[trigger] counts[k] <= counts[first_highest(counts, n)] && (k
                < first_highest(counts, n) ==> counts[k] < counts[first_highest(counts, n)]),
    decreases n,
{
    if n > 1 {
        law_first_highest(counts, (n - 1) as nat);
    }
}

/// Picks the byte that was seen most often; of several, the first. It draws no number.
pub struct LikeliestByte;

impl BytePicker<[u16; 256]> for LikeliestByte {
    open spec fn picked(
        &self,
        table: [u16; 256],
        config: GenerationConfig,
        rng: GenerationRng,
    ) -> u8 {
        first_highest(table@, 256) as u8
    }

    open spec fn after_pick(
        &self,
        table: [u16; 256],
        config: GenerationConfig,
        rng: GenerationRng,
    ) -> GenerationRng {
        rng
    }

    fn pick(&self, table: &[u16; 256], config: GenerationConfig, rng: &mut GenerationRng) -> (b:
        u8) {
        let mut best: usize = 0;
        let mut i: usize = 1;
        while i < 256
            invariant
                1 <= i <= 256,
                best < i,
                best == first_highest(table@, i as nat),
            decreases 256 - i,
        {
            if table[i] > table[best] {
                best = i;
            }
            i += 1;
        }
        best as u8
    }
}

impl OnlineBytePredictor for OrderNGramPredictor {
    type State = Option<OrderModel>;

    type Checkpoint = OrderNGramPredictor;

    type Table = [u16; 256];

    closed spec fn state(&self) -> Option<OrderModel> {
        match self.model {
            Some(m) => Some(m.model()),
            None => None,
        }
    }

    open spec fn journal(&self) -> Journal {
        Journal { kept: false, held: 0 }
    }

    open spec fn saved(checkpoint: OrderNGramPredictor) -> Option<OrderModel> {
        checkpoint.state()
    }

    open spec fn after_symbol(state: Option<OrderModel>, symbol: u8, frozen: bool) -> Option<
        OrderModel,
    > {
        match state {
            Some(m) => Some(
                if frozen {
                    OrderModel { history: context_models::history_after(m.history, symbol), ..m }
                } else {
                    context_models::order_fitted(m, symbol)
                },
            ),
            None => None,
        }
    }

    open spec fn table_in(state: Option<OrderModel>, frozen: bool) -> [u16; 256] {
        choose|table: [u16; 256]| table@ == counts_behind(state)
    }

    open spec fn stream_started(state: Option<OrderModel>, total: Option<u64>) -> Outcome<
        Option<OrderModel>,
    > {
        fine(state)
    }

    open spec fn stream_restarted(state: Option<OrderModel>, total: Option<u64>) -> Outcome<
        Option<OrderModel>,
    > {
        fine(history_gone(state))
    }

    open spec fn conditioning_reset(state: Option<OrderModel>, total: Option<u64>) -> Outcome<
        Option<OrderModel>,
    > {
        fine(history_gone(state))
    }

    open spec fn stream_ended(state: Option<OrderModel>) -> Outcome<Option<OrderModel>> {
        fine(state)
    }

    open spec fn takes_bits(state: Option<OrderModel>) -> bool {
        false
    }

    open spec fn prefix_started(state: Option<OrderModel>) -> Outcome<Option<OrderModel>> {
        fine(state)
    }

    open spec fn prefix_bit(
        state: Option<OrderModel>,
        at: nat,
        bit: bool,
        frozen: bool,
    ) -> Outcome<Option<OrderModel>> {
        no_bits(state)
    }

    open spec fn prefix_ended(state: Option<OrderModel>, symbol: u8) -> Outcome<
        Option<OrderModel>,
    > {
        no_bits(state)
    }

    open spec fn prefix_aborted(state: Option<OrderModel>) -> Outcome<Option<OrderModel>> {
        fine(state)
    }

    open spec fn prefix_abandoned(state: Option<OrderModel>) -> Outcome<Option<OrderModel>> {
        fine(state)
    }

    fn update(&mut self, symbol: u8) {
        proof {
            use_type_invariant(&*self);
        }
        let mut held: Option<OrderNGramModel> = None;
        std::mem::swap(&mut held, &mut self.model);
        if let Some(mut m) = held {
            m.update(symbol);
            self.model = Some(m);
        }
    }

    fn update_frozen(&mut self, symbol: u8) {
        proof {
            use_type_invariant(&*self);
        }
        let mut held: Option<OrderNGramModel> = None;
        std::mem::swap(&mut held, &mut self.model);
        if let Some(mut m) = held {
            m.update_history_only(symbol);
            self.model = Some(m);
        }
    }

    fn table(&mut self, frozen: bool) -> (table: [u16; 256]) {
        proof {
            use_type_invariant(&*self);
        }
        let ghost state = self.state();
        let mut table: [u16; 256] = [0; 256];
        if let Some(m) = &self.model {
            if let Some(slot) = m.current() {
                let mut i: usize = 0;
                while i < 256
                    invariant
                        i <= 256,
                        context_counter::slot_ok(slot@),
                        forall|k: int| 0 <= k < i ==> table@[k] == slot@.counts[k],
                    decreases 256 - i,
                {
                    table[i] = slot.counts[i];
                    i += 1;
                }
                proof {
                    assert(table@ =~= slot@.counts);
                }
            } else {
                proof {
                    assert(table@ =~= Seq::new(256, |i: int| 0u16));
                }
            }
        } else {
            proof {
                assert(table@ =~= Seq::new(256, |i: int| 0u16));
            }
        }
        proof {
            assert(table@ == counts_behind(state));
            let chosen = Self::table_in(state, frozen);
            assert(chosen@ == counts_behind(state));
            assert(chosen =~= table);
        }
        table
    }

    fn begin_stream(&mut self, total_symbols: Option<u64>) -> (result: Result<(), String>) {
        Ok(())
    }

    fn begin_fresh_stream(&mut self, total_symbols: Option<u64>) -> (result: Result<(), String>) {
        self.forget();
        Ok(())
    }

    fn reset_frozen(&mut self, total_symbols: Option<u64>) -> (result: Result<(), String>) {
        self.forget();
        Ok(())
    }

    fn finish_stream(&mut self) -> (result: Result<(), String>) {
        Ok(())
    }

    fn has_native_msb_byte_prefix(&self) -> (yes: bool) {
        false
    }

    fn begin_native_msb_byte_prefix(&mut self) -> (result: Result<bool, String>) {
        Ok(false)
    }

    fn observe_native_msb_prefix_bit(&mut self, at: usize, bit: bool) -> (result: Result<
        (),
        String,
    >) {
        Err("order-ngram takes whole bytes only".to_string())
    }

    fn condition_native_msb_prefix_bit_for_rollback(&mut self, at: usize, bit: bool) -> (result:
        Result<(), String>) {
        Err("order-ngram takes whole bytes only".to_string())
    }

    fn finish_native_msb_byte_prefix(&mut self, symbol: u8) -> (result: Result<(), String>) {
        Err("order-ngram takes whole bytes only".to_string())
    }

    fn abort_empty_native_msb_byte_prefix(&mut self) -> (result: Result<bool, String>) {
        Ok(false)
    }

    fn abandon_incomplete_native_msb_byte_prefix_for_lifecycle(&mut self) -> (result: Result<
        (),
        String,
    >) {
        Ok(())
    }

    fn checkpoint(&mut self) -> (checkpoint: OrderNGramPredictor) {
        self.copy()
    }

    fn native_prefix_start_checkpoint(&mut self) -> (checkpoint: OrderNGramPredictor) {
        self.copy()
    }

    fn copy_checkpoint(checkpoint: &OrderNGramPredictor) -> (copy: OrderNGramPredictor) {
        checkpoint.copy()
    }

    fn copy_table(table: &[u16; 256]) -> (copy: [u16; 256]) {
        *table
    }

    fn restore_checkpoint(&mut self, checkpoint: &OrderNGramPredictor) {
        *self = checkpoint.copy();
    }

    fn discard_checkpoint(&mut self, checkpoint: OrderNGramPredictor) {
    }

    fn clear_checkpoints_if_supported(&mut self) {
    }
}


// ---------------------------------------------------------------------------------------
// What sessions with this predictor keep
// ---------------------------------------------------------------------------------------

/// The predictor keeps what is asked of predictors that take bytes bit by bit; it takes none so.
pub proof fn law_order_predictor_replays()
    ensures
        predictor::replays_bits::<OrderNGramPredictor>(),
        forall|state: Option<OrderModel>| !#[trigger] OrderNGramPredictor::takes_bits(state),
{
}

/// Conditioning leaves the counts alone.
pub proof fn law_conditioning_keeps_counts(state: Option<OrderModel>, data: Seq<u8>)
    ensures
        match (state, session::after_symbols::<OrderNGramPredictor>(state, data, true)) {
            (Some(before), Some(after)) => after.core == before.core && after.order == before.order,
            (None, None) => true,
            _ => false,
        },
    decreases data.len(),
{
    if data.len() > 0 {
        law_conditioning_keeps_counts(state, data.drop_last());
    }
}

/// A generation that only conditions on its bytes leaves the counts alone.
pub proof fn law_frozen_generation_keeps_counts<K: BytePicker<[u16; 256]>>(
    state: Option<OrderModel>,
    picker: K,
    bytes: nat,
    config: GenerationConfig,
)
    requires
        session::freezes(config),
    ensures
        match (
            state,
            session::generation_run::<OrderNGramPredictor, K>(state, picker, bytes, config).state,
        ) {
            (Some(before), Some(after)) => after.core == before.core && after.order == before.order,
            (None, None) => true,
            _ => false,
        },
{
    session::law_generation_as_given::<OrderNGramPredictor, K>(state, picker, bytes, config);
    law_conditioning_keeps_counts(
        state,
        session::generated_bytes::<OrderNGramPredictor, K>(state, picker, bytes, config),
    );
}

/// Whether the byte of a session, if there is one, is taken whole.
pub open spec fn takes_whole_bytes(m: SessionModel<OrderNGramPredictor>) -> bool {
    m.prefix matches Some(p) ==> p.kind is Mass && m.semantics is BytePacked
}

/// Sessions with this predictor take bytes whole, whatever they are asked.
pub proof fn law_order_sessions_take_whole_bytes(
    m: SessionModel<OrderNGramPredictor>,
    requests: Seq<BitRequest>,
    n: int,
)
    requires
        takes_whole_bytes(m),
        0 <= n <= requests.len(),
    ensures
        takes_whole_bytes(bit_replay::after_requests(m, requests, n)),
        bit_replay::after_requests(m, requests, n).code == m.code,
        bit_replay::after_requests(m, requests, n).semantics == m.semantics,
    decreases n,
{
    if n > 0 {
        law_order_sessions_take_whole_bytes(m, requests, n - 1);
    }
}

/// A checkpoint that a session with this predictor takes after any requests is brought back with
/// success after any others, and whatever is asked then is answered as it would have been.
pub proof fn law_order_checkpoints_replay(
    m: SessionModel<OrderNGramPredictor>,
    before: Seq<BitRequest>,
    between: Seq<BitRequest>,
    after: Seq<BitRequest>,
)
    requires
        takes_whole_bytes(m),
    ensures
        ({
            let then = bit_replay::after_requests(m, before, before.len() as int);
            let later = bit_replay::after_requests(then, between, between.len() as int);
            let back = bit_lifecycle::brought_back(later, bit_lifecycle::checkpoint_of(then));
            &&& back.fault is None
            &&& bit_replay::answers(back.m, after, after.len() as int) == bit_replay::answers(
                SessionModel { scopes: later.scopes, journal: back.m.journal, ..then },
                after,
                after.len() as int,
            )
        }),
{
    let then = bit_replay::after_requests(m, before, before.len() as int);
    let later = bit_replay::after_requests(then, between, between.len() as int);
    law_order_sessions_take_whole_bytes(m, before, before.len() as int);
    law_order_sessions_take_whole_bytes(then, between, between.len() as int);
    bit_replay::law_checkpoint_replays(then, later, after);
}

} // verus!
