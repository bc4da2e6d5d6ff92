//! Sessions that feed a predictor of bytes bit by bit.

use vstd::prelude::*;
use crate::api::bit_replay;
use crate::api::predictor;
use crate::api::bits;

use crate::api::bits::{broken_stream_message, BitOrder, BitStreamSemantics};
use crate::api::predictor::{Journal, OnlineBytePredictor};
use crate::text::{push_text, string_of};

verus! {

/// How the bits of a byte are taken.
#[derive(Clone, Copy, Debug, PartialEq, Eq, Structural)]
pub enum BufferedByteUpdateMode {
    /// They are fitted.
    Adaptive,
    /// They are only conditioned on.
    Frozen,
}

impl BufferedByteUpdateMode {
    /// Word for the mode.
    pub open spec fn word(self) -> Seq<char> {
        match self {
            BufferedByteUpdateMode::Adaptive => "adaptive"@,
            BufferedByteUpdateMode::Frozen => "conditioning-only"@,
        }
    }

    /// Word for the mode.
    pub fn verb(self) -> (word: &'static str)
        ensures
            word@ == self.word(),
    {
        match self {
            BufferedByteUpdateMode::Adaptive => "adaptive",
            BufferedByteUpdateMode::Frozen => "conditioning-only",
        }
    }
}

/// Mode of an update.
pub open spec fn mode_of(frozen: bool) -> BufferedByteUpdateMode {
    if frozen {
        BufferedByteUpdateMode::Frozen
    } else {
        BufferedByteUpdateMode::Adaptive
    }
}

/// Distribution of a byte, and its bits so far.
pub struct BytePrefixMass<T> {
    /// Distribution of the byte.
    pub table: T,
    /// Which bit comes first.
    pub order: BitOrder,
    /// The bits so far.
    pub symbol: u8,
    /// How many there are.
    pub bits: usize,
}

/// A byte of which some bits are known.
pub enum BufferedBytePrefixKind<P: OnlineBytePredictor> {
    /// The predictor has given the distribution of the byte, and waits for the whole of it.
    Mass(BytePrefixMass<P::Table>),
    /// The predictor takes the byte bit by bit, most significant bit first.
    NativeMsb {
        /// Where to go back to when the byte is given up.
        start_checkpoint: Option<Box<P::Checkpoint>>,
        /// The bits so far.
        symbol: u8,
        /// How many there are.
        bits: usize,
    },
}

/// A byte of which some bits are known, and how they were taken.
pub struct BufferedBytePrefix<P: OnlineBytePredictor> {
    pub kind: BufferedBytePrefixKind<P>,
    pub update_mode: Option<BufferedByteUpdateMode>,
}

/// [`BufferedBytePrefixKind`] as a mathematical object.
pub enum PrefixKindModel<P: OnlineBytePredictor> {
    Mass { table: P::Table, order: BitOrder, seen: Seq<bool> },
    Native { start: Option<P::State>, seen: Seq<bool> },
}

/// [`BufferedBytePrefix`] as a mathematical object.
pub struct PrefixModel<P: OnlineBytePredictor> {
    pub kind: PrefixKindModel<P>,
    pub mode: Option<BufferedByteUpdateMode>,
}

/// State that a boxed checkpoint comes back to.
pub open spec fn start_of<P: OnlineBytePredictor>(start: Option<Box<P::Checkpoint>>) -> Option<
    P::State,
> {
    match start {
        Some(c) => Some(P::saved(*c)),
        None => None,
    }
}

impl<P: OnlineBytePredictor> BufferedBytePrefix<P> {
    /// The mathematical object.
    pub open spec fn model(&self) -> PrefixModel<P> {
        PrefixModel {
            kind: match self.kind {
                BufferedBytePrefixKind::Mass(BytePrefixMass { table, order, symbol, bits }) => PrefixKindModel::Mass {
                    table,
                    order,
                    seen: bits::first_bits(symbol, order, bits as nat),
                },
                BufferedBytePrefixKind::NativeMsb { start_checkpoint, symbol, bits } =>
                    PrefixKindModel::Native {
                        start: start_of::<P>(start_checkpoint),
                        seen: bits::first_bits(symbol, BitOrder::MsbFirst, bits as nat),
                    },
            },
            mode: self.update_mode,
        }
    }

    /// The byte holds its bits and nothing else. A whole byte is held only where the predictor
    /// would not complete it; one that is conditioned on can be taken back until then.
    pub open spec fn wf(&self) -> bool {
        match self.kind {
            BufferedBytePrefixKind::Mass(BytePrefixMass { table, order, symbol, bits }) => {
                &&& bits < 8
                &&& bits > 0 ==> self.update_mode is Some
                &&& symbol == bits::byte_of(order, bits::first_bits(symbol, order, bits as nat))
            },
            BufferedBytePrefixKind::NativeMsb { start_checkpoint, symbol, bits } => {
                &&& bits <= 8
                &&& bits > 0 ==> self.update_mode is Some
                &&& symbol == bits::byte_of(
                    BitOrder::MsbFirst,
                    bits::first_bits(symbol, BitOrder::MsbFirst, bits as nat),
                )
                &&& bits < 8 && self.update_mode == Some(BufferedByteUpdateMode::Frozen)
                    ==> start_checkpoint is Some
            },
        }
    }

    /// Whether a bit is known.
    pub fn has_partial_bits(&self) -> (yes: bool)
        ensures
            yes == (seen_in(self.model()).len() > 0),
    {
        match &self.kind {
            BufferedBytePrefixKind::Mass(BytePrefixMass { table, order, symbol, bits }) => *bits > 0,
            BufferedBytePrefixKind::NativeMsb { start_checkpoint, symbol, bits } => *bits > 0,
        }
    }

    pub(crate) fn copy(&self) -> (copy: Self)
        ensures
            copy.model() == self.model(),
            self.wf() ==> copy.wf(),
    {
        let kind = match &self.kind {
            BufferedBytePrefixKind::Mass(BytePrefixMass { table, order, symbol, bits }) => BufferedBytePrefixKind::Mass(BytePrefixMass {
                table: P::copy_table(table),
                order: *order,
                symbol: *symbol,
                bits: *bits,
            }),
            BufferedBytePrefixKind::NativeMsb { start_checkpoint, symbol, bits } => {
                let start = match start_checkpoint {
                    Some(c) => Some(Box::new(P::copy_checkpoint(c))),
                    None => None,
                };
                BufferedBytePrefixKind::NativeMsb {
                    start_checkpoint: start,
                    symbol: *symbol,
                    bits: *bits,
                }
            },
        };
        BufferedBytePrefix { kind, update_mode: self.update_mode }
    }
}

/// Bits that are known.
pub open spec fn seen_in<P: OnlineBytePredictor>(prefix: PrefixModel<P>) -> Seq<bool> {
    match prefix.kind {
        PrefixKindModel::Mass { table, order, seen } => seen,
        PrefixKindModel::Native { start, seen } => seen,
    }
}

/// What is wrong with a request to a session.
#[derive(Debug)]
pub enum SessionError {
    /// Bits of one byte would be taken in two ways.
    MixedModes { active: BufferedByteUpdateMode, requested: BufferedByteUpdateMode },
    /// The predictor failed.
    Predictor(String),
    /// The stream would end inside a byte.
    PartialByte,
    /// The checkpoint belongs to another session.
    ForeignCheckpoint,
    /// The checkpoint needs a predictor that takes bytes bit by bit.
    NativeUnsupported,
    /// The stream is no whole number of bytes.
    BrokenStream(u64),
    /// The stream would get another meaning.
    FixedSemantics,
}

/// [`SessionError`] as a mathematical object.
#[verifier::ext_equal]
pub enum SessionFault {
    MixedModes { active: BufferedByteUpdateMode, requested: BufferedByteUpdateMode },
    Predictor(Seq<char>),
    PartialByte,
    ForeignCheckpoint,
    NativeUnsupported,
    BrokenStream(u64),
    FixedSemantics,
}

impl View for SessionError {
    type V = SessionFault;

    open spec fn view(&self) -> SessionFault {
        match self {
            SessionError::MixedModes { active, requested } => SessionFault::MixedModes {
                active: *active,
                requested: *requested,
            },
            SessionError::Predictor(e) => SessionFault::Predictor(e@),
            SessionError::PartialByte => SessionFault::PartialByte,
            SessionError::ForeignCheckpoint => SessionFault::ForeignCheckpoint,
            SessionError::NativeUnsupported => SessionFault::NativeUnsupported,
            SessionError::BrokenStream(n) => SessionFault::BrokenStream(*n),
            SessionError::FixedSemantics => SessionFault::FixedSemantics,
        }
    }
}

/// Text of a fault.
pub open spec fn fault_text(fault: SessionFault) -> Seq<char> {
    match fault {
        SessionFault::MixedModes { active, requested } => "byte-packed bit sessions cannot mix "@
            + active.word() + " and "@ + requested.word()
            + " updates within the same buffered byte; finish the byte with one mode, use `try_observe_bit`/`try_condition_bit` to handle this error explicitly, or switch to BitStreamSemantics::BinaryTokens for mid-byte mode changes"@,
        SessionFault::Predictor(e) => e,
        SessionFault::PartialByte =>
            "byte-packed bit streams must finish on a whole-byte boundary; use BitStreamSemantics::BinaryTokens for arbitrary-length bit streams"@,
        SessionFault::ForeignCheckpoint =>
            "RateBackendBitSession checkpoint belongs to a different backend or bit semantics"@,
        SessionFault::NativeUnsupported =>
            "stored checkpoint requires native MSB-first byte-prefix support during restore"@,
        SessionFault::BrokenStream(n) => bits::broken_stream_text(n),
        SessionFault::FixedSemantics =>
            "bit stream semantics are fixed for a RateBackendBitSession; create a new session"@,
    }
}

impl SessionError {
    /// What to tell the user.
    pub fn message(&self) -> (text: String)
        ensures
            text@ == fault_text(self@),
    {
        let mut out: Vec<char> = Vec::new();
        match self {
            SessionError::MixedModes { active, requested } => {
                push_text(&mut out, "byte-packed bit sessions cannot mix ");
                push_text(&mut out, active.verb());
                push_text(&mut out, " and ");
                push_text(&mut out, requested.verb());
                push_text(
                    &mut out,
                    " updates within the same buffered byte; finish the byte with one mode, use `try_observe_bit`/`try_condition_bit` to handle this error explicitly, or switch to BitStreamSemantics::BinaryTokens for mid-byte mode changes",
                );
            },
            SessionError::Predictor(e) => push_text(&mut out, e.as_str()),
            SessionError::PartialByte => push_text(
                &mut out,
                "byte-packed bit streams must finish on a whole-byte boundary; use BitStreamSemantics::BinaryTokens for arbitrary-length bit streams",
            ),
            SessionError::ForeignCheckpoint => push_text(
                &mut out,
                "RateBackendBitSession checkpoint belongs to a different backend or bit semantics",
            ),
            SessionError::NativeUnsupported => push_text(
                &mut out,
                "stored checkpoint requires native MSB-first byte-prefix support during restore",
            ),
            SessionError::BrokenStream(n) => push_text(
                &mut out,
                broken_stream_message(*n).as_str(),
            ),
            SessionError::FixedSemantics => push_text(
                &mut out,
                "bit stream semantics are fixed for a RateBackendBitSession; create a new session",
            ),
        }
        proof {
            assert(out@ =~= fault_text(self@));
        }
        string_of(&out)
    }
}

/// A predictor of bytes that is fed bit by bit.
pub struct RateBackendBitSession<P: OnlineBytePredictor> {
    /// What tells the predictor from others.
    pub backend_code: Vec<u8>,
    /// The predictor.
    pub predictor: P,
    /// What the bits stand for.
    pub semantics: BitStreamSemantics,
    /// The byte of which some bits are known.
    pub prefix: Option<BufferedBytePrefix<P>>,
    /// Simulations under way whose effects nobody will take back.
    pub discardable_scopes: usize,
}

/// [`RateBackendBitSession`] as a mathematical object.
pub struct SessionModel<P: OnlineBytePredictor> {
    pub code: Seq<u8>,
    pub state: P::State,
    pub journal: Journal,
    pub semantics: BitStreamSemantics,
    pub prefix: Option<PrefixModel<P>>,
    pub scopes: usize,
}

/// What it takes to bring a session back.
pub struct RateBackendBitSessionCheckpoint<P: OnlineBytePredictor> {
    pub backend_code: Vec<u8>,
    pub predictor: P::Checkpoint,
    pub semantics: BitStreamSemantics,
    pub prefix: Option<BufferedBytePrefix<P>>,
}

/// [`RateBackendBitSessionCheckpoint`] as a mathematical object.
pub struct CheckpointModel<P: OnlineBytePredictor> {
    pub code: Seq<u8>,
    pub state: P::State,
    pub semantics: BitStreamSemantics,
    pub prefix: Option<PrefixModel<P>>,
}

/// A byte, if there is one, as a mathematical object.
pub open spec fn prefix_model<P: OnlineBytePredictor>(prefix: Option<BufferedBytePrefix<P>>) -> Option<
    PrefixModel<P>,
> {
    match prefix {
        Some(p) => Some(p.model()),
        None => None,
    }
}

impl<P: OnlineBytePredictor> RateBackendBitSessionCheckpoint<P> {
    /// The mathematical object.
    pub open spec fn model(&self) -> CheckpointModel<P> {
        CheckpointModel {
            code: self.backend_code@,
            state: P::saved(self.predictor),
            semantics: self.semantics,
            prefix: prefix_model(self.prefix),
        }
    }

    /// The byte holds its bits and nothing else.
    pub open spec fn wf(&self) -> bool {
        self.prefix matches Some(p) ==> p.wf()
    }
}

/// Session and fault after a request.
pub struct Moved<P: OnlineBytePredictor> {
    pub m: SessionModel<P>,
    pub fault: Option<SessionFault>,
}

/// Whether a result is what the model says.
pub open spec fn told<P: OnlineBytePredictor, T>(result: Result<T, SessionError>, moved: Moved<P>) -> bool {
    match result {
        Ok(_) => moved.fault is None,
        Err(e) => moved.fault == Some(e@),
    }
}

/// Nothing went wrong.
pub open spec fn done<P: OnlineBytePredictor>(m: SessionModel<P>) -> Moved<P> {
    Moved { m, fault: None }
}

/// The predictor failed.
pub open spec fn failed<P: OnlineBytePredictor>(m: SessionModel<P>, error: Seq<char>) -> Moved<P> {
    Moved { m, fault: Some(SessionFault::Predictor(error)) }
}

/// The byte is taken whole: the predictor has given its distribution.
pub open spec fn mass_started<P: OnlineBytePredictor>(
    m: SessionModel<P>,
    order: BitOrder,
    frozen: bool,
) -> SessionModel<P> {
    SessionModel {
        prefix: Some(
            PrefixModel {
                kind: PrefixKindModel::Mass {
                    table: P::table_in(m.state, frozen),
                    order,
                    seen: Seq::empty(),
                },
                mode: None,
            },
        ),
        ..m
    }
}

/// A byte is begun where none is: bit by bit where the predictor can, else whole.
pub open spec fn begun_byte<P: OnlineBytePredictor>(
    m: SessionModel<P>,
    order: BitOrder,
    frozen: bool,
    keep_start: bool,
) -> Moved<P> {
    if m.prefix is Some {
        done(m)
    } else if order == BitOrder::MsbFirst && P::takes_bits(m.state) {
        let o = P::prefix_started(m.state);
        match o.error {
            Some(e) => failed(SessionModel { state: o.state, ..m }, e),
            None => if o.yes {
                done(
                    SessionModel {
                        state: o.state,
                        journal: if keep_start {
                            predictor::marked(m.journal)
                        } else {
                            m.journal
                        },
                        prefix: Some(
                            PrefixModel {
                                kind: PrefixKindModel::Native {
                                    start: if keep_start {
                                        Some(m.state)
                                    } else {
                                        None
                                    },
                                    seen: Seq::empty(),
                                },
                                mode: None,
                            },
                        ),
                        ..m
                    },
                )
            } else {
                done(mass_started(SessionModel { state: o.state, ..m }, order, frozen))
            },
        }
    } else {
        done(mass_started(m, order, frozen))
    }
}

/// One bit of a byte that is taken whole.
pub open spec fn mass_bit<P: OnlineBytePredictor>(
    m: SessionModel<P>,
    table: P::Table,
    order: BitOrder,
    seen: Seq<bool>,
    bit: bool,
    frozen: bool,
) -> Moved<P> {
    let now = seen.push(bit);
    if now.len() < 8 {
        done(
            SessionModel {
                prefix: Some(
                    PrefixModel {
                        kind: PrefixKindModel::Mass { table, order, seen: now },
                        mode: Some(mode_of(frozen)),
                    },
                ),
                ..m
            },
        )
    } else {
        done(
            SessionModel {
                state: P::after_symbol(m.state, bits::byte_of(order, now), frozen),
                prefix: None,
                ..m
            },
        )
    }
}

/// A byte that is taken bit by bit.
pub open spec fn native<P: OnlineBytePredictor>(
    start: Option<P::State>,
    seen: Seq<bool>,
    frozen: bool,
) -> Option<PrefixModel<P>> {
    Some(
        PrefixModel {
            kind: PrefixKindModel::Native { start, seen },
            mode: Some(mode_of(frozen)),
        },
    )
}

/// One bit of a byte that is taken bit by bit. A byte that is only conditioned on is taken back
/// when it is complete, and then conditioned on as a whole.
pub open spec fn native_bit<P: OnlineBytePredictor>(
    m: SessionModel<P>,
    start: Option<P::State>,
    seen: Seq<bool>,
    bit: bool,
    frozen: bool,
) -> Moved<P> {
    let fresh = start is None && seen.len() == 0 && (frozen || m.scopes == 0);
    let begin = if fresh {
        Some(m.state)
    } else {
        start
    };
    let journal = if fresh {
        predictor::marked(m.journal)
    } else {
        m.journal
    };
    let freed = if begin is Some {
        predictor::released(journal)
    } else {
        journal
    };
    let o = P::prefix_bit(m.state, seen.len(), bit, frozen);
    let now = seen.push(bit);
    match o.error {
        Some(e) => failed(
            SessionModel { state: o.state, journal, prefix: native(begin, seen, frozen), ..m },
            e,
        ),
        None => if now.len() < 8 {
            done(SessionModel { state: o.state, journal, prefix: native(begin, now, frozen), ..m })
        } else if frozen {
            let a = P::prefix_aborted(begin->0);
            match a.error {
                Some(e) => failed(
                    SessionModel {
                        state: a.state,
                        journal: freed,
                        prefix: native(None, now, frozen),
                        ..m
                    },
                    e,
                ),
                None => done(
                    SessionModel {
                        state: P::after_symbol(a.state, bits::byte_of(BitOrder::MsbFirst, now), true),
                        journal: freed,
                        prefix: None,
                        ..m
                    },
                ),
            }
        } else {
            let f = P::prefix_ended(o.state, bits::byte_of(BitOrder::MsbFirst, now));
            match f.error {
                Some(e) => failed(
                    SessionModel { state: f.state, journal, prefix: native(begin, now, frozen), ..m },
                    e,
                ),
                None => done(SessionModel { state: f.state, journal: freed, prefix: None, ..m }),
            }
        },
    }
}

/// One bit of a byte that has been begun.
pub open spec fn byte_bit<P: OnlineBytePredictor>(
    m: SessionModel<P>,
    bit: bool,
    frozen: bool,
) -> Moved<P> {
    let p = m.prefix->0;
    if p.mode is Some && seen_in(p).len() > 0 && p.mode != Some(mode_of(frozen)) {
        Moved {
            m,
            fault: Some(
                SessionFault::MixedModes { active: p.mode->0, requested: mode_of(frozen) },
            ),
        }
    } else {
        match p.kind {
            PrefixKindModel::Mass { table, order, seen } => mass_bit(
                m,
                table,
                order,
                seen,
                bit,
                frozen,
            ),
            PrefixKindModel::Native { start, seen } => native_bit(m, start, seen, bit, frozen),
        }
    }
}

/// One bit.
pub open spec fn bit_taken<P: OnlineBytePredictor>(
    m: SessionModel<P>,
    bit: bool,
    frozen: bool,
) -> Moved<P> {
    match m.semantics {
        BitStreamSemantics::BinaryTokens => done(
            SessionModel {
                state: P::after_symbol(
                    m.state,
                    if bit {
                        1
                    } else {
                        0
                    },
                    frozen,
                ),
                ..m
            },
        ),
        BitStreamSemantics::BytePacked { order } => {
            let b = begun_byte(m, order, frozen, frozen);
            if b.fault is Some {
                b
            } else {
                byte_bit(b.m, bit, frozen)
            }
        },
    }
}

/// Whether a whole byte is held that the predictor would not complete.
pub open spec fn is_stuck<P: OnlineBytePredictor>(m: SessionModel<P>) -> bool {
    m.prefix matches Some(p) && seen_in(p).len() >= 8
}

impl<P: OnlineBytePredictor> RateBackendBitSession<P> {
    /// The mathematical object.
    pub open spec fn model(&self) -> SessionModel<P> {
        SessionModel {
            code: self.backend_code@,
            state: self.predictor.state(),
            journal: self.predictor.journal(),
            semantics: self.semantics,
            prefix: prefix_model(self.prefix),
            scopes: self.discardable_scopes,
        }
    }

    /// The byte holds its bits and nothing else.
    pub open spec fn wf(&self) -> bool {
        self.prefix matches Some(p) ==> p.wf()
    }

    /// Whether a whole byte is held that the predictor would not complete.
    pub fn holds_whole_byte(&self) -> (yes: bool)
        ensures
            yes == is_stuck(self.model()),
    {
        match &self.prefix {
            None => false,
            Some(p) => match &p.kind {
                BufferedBytePrefixKind::Mass(BytePrefixMass { table, order, symbol, bits }) => *bits >= 8,
                BufferedBytePrefixKind::NativeMsb { start_checkpoint, symbol, bits } => *bits >= 8,
            },
        }
    }

    pub(crate) fn ensure_mass_prefix(&mut self, order: BitOrder, frozen: bool)
        requires
            old(self).prefix is None,
        ensures
            final(self).model() == mass_started(old(self).model(), order, frozen),
            final(self).wf(),
    {
        let table = self.predictor.table(frozen);
        proof {
            assert(bits::first_bits(0u8, order, 0) =~= Seq::empty());
        }
        self.prefix = Some(
            BufferedBytePrefix {
                kind: BufferedBytePrefixKind::Mass(BytePrefixMass { table, order, symbol: 0, bits: 0 }),
                update_mode: None,
            },
        );
    }

    /// Begins a byte where none is begun.
    pub(crate) fn ensure_prefix(&mut self, order: BitOrder, frozen: bool, keep_start: bool) -> (result: Result<
        (),
        SessionError,
    >)
        requires
            old(self).wf(),
        ensures
            final(self).model() == begun_byte(old(self).model(), order, frozen, keep_start).m,
            told(result, begun_byte(old(self).model(), order, frozen, keep_start)),
            result is Ok ==> final(self).prefix is Some,
            final(self).wf(),
            old(self).semantics is BytePacked && old(self).is_sound() ==> final(self).is_sound(),
    {
        let ghost before = self.model();
        if self.prefix.is_some() {
            return Ok(());
        }
        let native: bool = order == BitOrder::MsbFirst && self.predictor.has_native_msb_byte_prefix();
        proof {
            if native {
                assert(predictor::replays_bits::<P>());
            }
            if before.semantics is BytePacked && bit_replay::sound(before) {
                bit_replay::lemma_begun_sound(before, order, frozen, keep_start);
            }
        }
        if native {
            let start = if keep_start {
                Some(self.predictor.native_prefix_start_checkpoint())
            } else {
                None
            };
            match self.predictor.begin_native_msb_byte_prefix() {
                Ok(yes) => {
                    if yes {
                        proof {
                            assert(bits::first_bits(0u8, BitOrder::MsbFirst, 0) =~= Seq::empty());
                        }
                        let boxed = match start {
                            Some(c) => Some(Box::new(c)),
                            None => None,
                        };
                        self.prefix = Some(
                            BufferedBytePrefix {
                                kind: BufferedBytePrefixKind::NativeMsb {
                                    start_checkpoint: boxed,
                                    symbol: 0,
                                    bits: 0,
                                },
                                update_mode: None,
                            },
                        );
                        return Ok(());
                    }
                    if let Some(c) = start {
                        self.predictor.discard_checkpoint(c);
                    }
                },
                Err(e) => {
                    if let Some(c) = start {
                        self.predictor.discard_checkpoint(c);
                    }
                    return Err(SessionError::Predictor(e));
                },
            }
        }
        self.ensure_mass_prefix(order, frozen);
        Ok(())
    }
}

} // verus!
