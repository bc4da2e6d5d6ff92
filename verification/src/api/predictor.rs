//! What the sessions ask of a predictor of bytes.

use vstd::prelude::*;

verus! {

/// State after an operation that may fail, and what it says.
pub struct Outcome<S> {
    /// State afterwards.
    pub state: S,
    /// Answer, where the operation gives one.
    pub yes: bool,
    /// Why it failed.
    pub error: Option<Seq<char>>,
}

/// Whether a result without a value is what the outcome says.
pub open spec fn ended<S>(result: Result<(), String>, outcome: Outcome<S>) -> bool {
    match result {
        Ok(_) => outcome.error is None,
        Err(e) => outcome.error == Some(e@),
    }
}

/// Whether a result with an answer is what the outcome says.
pub open spec fn answered<S>(result: Result<bool, String>, outcome: Outcome<S>) -> bool {
    match result {
        Ok(yes) => outcome.error is None && yes == outcome.yes,
        Err(e) => outcome.error == Some(e@),
    }
}

/// Checkpoints that a predictor counts. A predictor with a journal counts those that were taken and
/// not given up, and keeps the changes since; one whose checkpoints are copies of its state counts
/// none.
#[verifier::ext_equal]
pub struct Journal {
    /// Whether checkpoints are counted.
    pub kept: bool,
    /// How many there are.
    pub held: nat,
}

/// Journal after a checkpoint was taken.
pub open spec fn marked(journal: Journal) -> Journal {
    if journal.kept {
        Journal { held: journal.held + 1, ..journal }
    } else {
        journal
    }
}

/// Journal after a checkpoint was given up.
pub open spec fn released(journal: Journal) -> Journal {
    if journal.kept && journal.held > 0 {
        Journal { held: (journal.held - 1) as nat, ..journal }
    } else {
        journal
    }
}

/// Journal after all checkpoints were forgotten.
pub open spec fn cleared(journal: Journal) -> Journal {
    Journal { held: 0, ..journal }
}

/// Whether a byte can be begun bit by bit in a state.
pub open spec fn begins<P: OnlineBytePredictor>(state: P::State) -> bool {
    P::prefix_started(state).error is None && P::prefix_started(state).yes
}

/// Whether giving up goes back to a state.
pub open spec fn gives_up_to<P: OnlineBytePredictor>(state: P::State, back: P::State) -> bool {
    P::prefix_aborted(state).error is None && P::prefix_aborted(state).state == back
}

/// Whether a predictor can be taken back within a byte: where a byte can be begun, giving up leaves
/// the state alone, and giving up the byte right after it was begun comes back to the state.
pub open spec fn can_be_taken_back<P: OnlineBytePredictor>() -> bool {
    forall|state: P::State| #[trigger]
        begins::<P>(state) ==> gives_up_to::<P>(state, state) && gives_up_to::<P>(
            P::prefix_started(state).state,
            state,
        )
}

/// Whether bits that are conditioned on act within a byte as bits that are fitted do.
pub open spec fn bits_act_alike<P: OnlineBytePredictor>() -> bool {
    forall|state: P::State, at: nat, bit: bool| #[trigger]
        P::prefix_bit(state, at, bit, true) == P::prefix_bit(state, at, bit, false)
}

/// Whether a bit that is refused, and a byte that is not completed, leave the state alone.
pub open spec fn refusals_are_clean<P: OnlineBytePredictor>() -> bool {
    &&& forall|state: P::State, at: nat, bit: bool|
        (#[trigger] P::prefix_bit(state, at, bit, false)).error is Some ==> P::prefix_bit(
            state,
            at,
            bit,
            false,
        ).state == state
    &&& forall|state: P::State, symbol: u8|
        (#[trigger] P::prefix_ended(state, symbol)).error is Some ==> P::prefix_ended(
            state,
            symbol,
        ).state == state
}

/// Whether bytes that are taken bit by bit can be taken back and replayed.
pub open spec fn replays_bits<P: OnlineBytePredictor>() -> bool {
    can_be_taken_back::<P>() && bits_act_alike::<P>() && refusals_are_clean::<P>()
}

/// A predictor of bytes that learns from what it sees.
///
/// Symbols are either fitted, which changes what was learned, or only conditioned on. Asking for a
/// distribution changes nothing that a later distribution depends on. A predictor may take a byte
/// bit by bit, most significant bit first: that is its native prefix. One that does can be taken
/// back within a byte, and the bits replayed. A checkpoint brings the state back; giving one up
/// leaves the state alone. Checkpoints are counted in the journal, where there is one; nothing but
/// taking them, giving them up and forgetting them changes their number.
///
/// Each predictor says by the functions of its state what its operations do; of one that does not,
/// nothing is known.
pub trait OnlineBytePredictor: Sized {
    /// What the predictor knows.
    type State;

    /// What it takes to come back to a state.
    type Checkpoint;

    /// Distribution of the next byte.
    type Table;

    /// The state.
    open spec fn state(&self) -> Self::State {
        (vstd::pervasive::arbitrary::<spec_fn(Self) -> Self::State>())(*self)
    }

    /// The journal.
    open spec fn journal(&self) -> Journal {
        (vstd::pervasive::arbitrary::<spec_fn(Self) -> Journal>())(*self)
    }

    /// State that a checkpoint comes back to.
    open spec fn saved(checkpoint: Self::Checkpoint) -> Self::State {
        (vstd::pervasive::arbitrary::<spec_fn(Self::Checkpoint) -> Self::State>())(checkpoint)
    }

    /// State after a symbol.
    open spec fn after_symbol(state: Self::State, symbol: u8, frozen: bool) -> Self::State {
        (vstd::pervasive::arbitrary::<
            spec_fn(Self::State, u8, bool) -> Self::State,
        >())(state, symbol, frozen)
    }

    /// Distribution of the next byte.
    open spec fn table_in(state: Self::State, frozen: bool) -> Self::Table {
        (vstd::pervasive::arbitrary::<spec_fn(Self::State, bool) -> Self::Table>())(state, frozen)
    }

    /// A stream of `total` symbols begins.
    open spec fn stream_started(state: Self::State, total: Option<u64>) -> Outcome<Self::State> {
        (vstd::pervasive::arbitrary::<
            spec_fn(Self::State, Option<u64>) -> Outcome<Self::State>,
        >())(state, total)
    }

    /// A new stream begins, in the way that suits the predictor.
    open spec fn stream_restarted(state: Self::State, total: Option<u64>) -> Outcome<Self::State> {
        (vstd::pervasive::arbitrary::<
            spec_fn(Self::State, Option<u64>) -> Outcome<Self::State>,
        >())(state, total)
    }

    /// What was conditioned on is forgotten; what was learned stays.
    open spec fn conditioning_reset(state: Self::State, total: Option<u64>) -> Outcome<Self::State> {
        (vstd::pervasive::arbitrary::<
            spec_fn(Self::State, Option<u64>) -> Outcome<Self::State>,
        >())(state, total)
    }

    /// A stream ends.
    open spec fn stream_ended(state: Self::State) -> Outcome<Self::State> {
        (vstd::pervasive::arbitrary::<spec_fn(Self::State) -> Outcome<Self::State>>())(state)
    }

    /// Whether bytes can be taken bit by bit.
    open spec fn takes_bits(state: Self::State) -> bool {
        (vstd::pervasive::arbitrary::<spec_fn(Self::State) -> bool>())(state)
    }

    /// A byte is about to be taken bit by bit; the answer tells whether it will.
    open spec fn prefix_started(state: Self::State) -> Outcome<Self::State> {
        (vstd::pervasive::arbitrary::<spec_fn(Self::State) -> Outcome<Self::State>>())(state)
    }

    /// Bit number `at` of the byte.
    open spec fn prefix_bit(state: Self::State, at: nat, bit: bool, frozen: bool) -> Outcome<
        Self::State,
    > {
        (vstd::pervasive::arbitrary::<
            spec_fn(Self::State, nat, bool, bool) -> Outcome<Self::State>,
        >())(state, at, bit, frozen)
    }

    /// The byte is complete.
    open spec fn prefix_ended(state: Self::State, symbol: u8) -> Outcome<Self::State> {
        (vstd::pervasive::arbitrary::<
            spec_fn(Self::State, u8) -> Outcome<Self::State>,
        >())(state, symbol)
    }

    /// The byte is given up before its first bit; the answer tells whether there was one.
    open spec fn prefix_aborted(state: Self::State) -> Outcome<Self::State> {
        (vstd::pervasive::arbitrary::<spec_fn(Self::State) -> Outcome<Self::State>>())(state)
    }

    /// The byte is given up, because the stream is.
    open spec fn prefix_abandoned(state: Self::State) -> Outcome<Self::State> {
        (vstd::pervasive::arbitrary::<spec_fn(Self::State) -> Outcome<Self::State>>())(state)
    }

    /// Fits one symbol.
    fn update(&mut self, symbol: u8)
        ensures
            final(self).state() == Self::after_symbol(old(self).state(), symbol, false),
            final(self).journal() == old(self).journal(),
    ;

    /// Conditions on one symbol.
    fn update_frozen(&mut self, symbol: u8)
        ensures
            final(self).state() == Self::after_symbol(old(self).state(), symbol, true),
            final(self).journal() == old(self).journal(),
    ;

    /// Distribution of the next byte.
    fn table(&mut self, frozen: bool) -> (table: Self::Table)
        ensures
            table == Self::table_in(old(self).state(), frozen),
            final(self).state() == old(self).state(),
            final(self).journal() == old(self).journal(),
    ;

    /// Begins a stream.
    fn begin_stream(&mut self, total_symbols: Option<u64>) -> (result: Result<(), String>)
        ensures
            ended(result, Self::stream_started(old(self).state(), total_symbols)),
            final(self).state() == Self::stream_started(old(self).state(), total_symbols).state,
            final(self).journal() == old(self).journal(),
    ;

    /// Begins a new stream, in the way that suits the predictor.
    fn begin_fresh_stream(&mut self, total_symbols: Option<u64>) -> (result: Result<(), String>)
        ensures
            ended(result, Self::stream_restarted(old(self).state(), total_symbols)),
            final(self).state() == Self::stream_restarted(old(self).state(), total_symbols).state,
            final(self).journal() == old(self).journal(),
    ;

    /// Forgets what was conditioned on.
    fn reset_frozen(&mut self, total_symbols: Option<u64>) -> (result: Result<(), String>)
        ensures
            ended(result, Self::conditioning_reset(old(self).state(), total_symbols)),
            final(self).state() == Self::conditioning_reset(
                old(self).state(),
                total_symbols,
            ).state,
            final(self).journal() == old(self).journal(),
    ;

    /// Ends the stream.
    fn finish_stream(&mut self) -> (result: Result<(), String>)
        ensures
            ended(result, Self::stream_ended(old(self).state())),
            final(self).state() == Self::stream_ended(old(self).state()).state,
            final(self).journal() == old(self).journal(),
    ;

    /// Whether bytes can be taken bit by bit. If so, a byte that was just begun can be given up and
    /// leaves no trace, bits that are conditioned on act within a byte as bits that are fitted do,
    /// and what is refused leaves the state alone.
    fn has_native_msb_byte_prefix(&self) -> (yes: bool)
        ensures
            yes == Self::takes_bits(self.state()),
            yes ==> forall|state: Self::State|
                ({
                    let begun = #[trigger] Self::prefix_started(state);
                    let kept = Self::prefix_aborted(state);
                    let back = Self::prefix_aborted(begun.state);
                    begun.error is None && begun.yes ==> kept.error is None && kept.state == state
                        && back.error is None && back.state == state
                }),
            yes ==> forall|state: Self::State, at: nat, bit: bool|
                ({
                    let taken = #[trigger] Self::prefix_bit(state, at, bit, false);
                    &&& Self::prefix_bit(state, at, bit, true) == taken
                    &&& taken.error is Some ==> taken.state == state
                }),
            yes ==> forall|state: Self::State, symbol: u8|
                ({
                    let ended = #[trigger] Self::prefix_ended(state, symbol);
                    ended.error is Some ==> ended.state == state
                }),
    ;

    /// Gets ready to take a byte bit by bit.
    fn begin_native_msb_byte_prefix(&mut self) -> (result: Result<bool, String>)
        ensures
            answered(result, Self::prefix_started(old(self).state())),
            final(self).state() == Self::prefix_started(old(self).state()).state,
            final(self).journal() == old(self).journal(),
    ;

    /// Fits one bit.
    fn observe_native_msb_prefix_bit(&mut self, at: usize, bit: bool) -> (result: Result<
        (),
        String,
    >)
        ensures
            ended(result, Self::prefix_bit(old(self).state(), at as nat, bit, false)),
            final(self).state() == Self::prefix_bit(
                old(self).state(),
                at as nat,
                bit,
                false,
            ).state,
            final(self).journal() == old(self).journal(),
    ;

    /// Conditions on one bit of a byte that will be taken back.
    fn condition_native_msb_prefix_bit_for_rollback(&mut self, at: usize, bit: bool) -> (result:
        Result<(), String>)
        ensures
            ended(result, Self::prefix_bit(old(self).state(), at as nat, bit, true)),
            final(self).state() == Self::prefix_bit(
                old(self).state(),
                at as nat,
                bit,
                true,
            ).state,
            final(self).journal() == old(self).journal(),
    ;

    /// Completes the byte.
    fn finish_native_msb_byte_prefix(&mut self, symbol: u8) -> (result: Result<(), String>)
        ensures
            ended(result, Self::prefix_ended(old(self).state(), symbol)),
            final(self).state() == Self::prefix_ended(old(self).state(), symbol).state,
            final(self).journal() == old(self).journal(),
    ;

    /// Gives up the byte before its first bit.
    fn abort_empty_native_msb_byte_prefix(&mut self) -> (result: Result<bool, String>)
        ensures
            answered(result, Self::prefix_aborted(old(self).state())),
            final(self).state() == Self::prefix_aborted(old(self).state()).state,
            final(self).journal() == old(self).journal(),
    ;

    /// Gives up the byte, because the stream is.
    fn abandon_incomplete_native_msb_byte_prefix_for_lifecycle(&mut self) -> (result: Result<
        (),
        String,
    >)
        ensures
            ended(result, Self::prefix_abandoned(old(self).state())),
            final(self).state() == Self::prefix_abandoned(old(self).state()).state,
            final(self).journal() == old(self).journal(),
    ;

    /// Checkpoint of the state.
    fn checkpoint(&mut self) -> (checkpoint: Self::Checkpoint)
        ensures
            Self::saved(checkpoint) == old(self).state(),
            final(self).state() == old(self).state(),
            final(self).journal() == marked(old(self).journal()),
    ;

    /// Checkpoint of the state where a byte is about to be taken bit by bit.
    fn native_prefix_start_checkpoint(&mut self) -> (checkpoint: Self::Checkpoint)
        ensures
            Self::saved(checkpoint) == old(self).state(),
            final(self).state() == old(self).state(),
            final(self).journal() == marked(old(self).journal()),
    ;

    /// A second checkpoint of the same state.
    fn copy_checkpoint(checkpoint: &Self::Checkpoint) -> (copy: Self::Checkpoint)
        ensures
            Self::saved(copy) == Self::saved(*checkpoint),
    ;

    /// A second table of the same distribution.
    fn copy_table(table: &Self::Table) -> (copy: Self::Table)
        ensures
            copy == *table,
    ;

    /// Comes back to a state.
    fn restore_checkpoint(&mut self, checkpoint: &Self::Checkpoint)
        ensures
            final(self).state() == Self::saved(*checkpoint),
            final(self).journal() == old(self).journal(),
    ;

    /// Gives up a checkpoint.
    fn discard_checkpoint(&mut self, checkpoint: Self::Checkpoint)
        ensures
            final(self).state() == old(self).state(),
            final(self).journal() == released(old(self).journal()),
    ;

    /// Forgets all checkpoints.
    fn clear_checkpoints_if_supported(&mut self)
        ensures
            final(self).state() == old(self).state(),
            final(self).journal() == cleared(old(self).journal()),
    ;
}

} // verus!
