//! Beginning, ending and bringing back a session that is fed bit by bit.

use vstd::prelude::*;
use crate::api::bit_replay;
use crate::api::predictor;
use crate::api::bits;
use crate::api::bit_session;

use crate::api::bits::{observed_bit, total_symbols_for_bit_semantics, BitOrder, BitStreamSemantics};
use crate::api::bit_session::{BufferedBytePrefix, BufferedBytePrefixKind, BufferedByteUpdateMode, BytePrefixMass, CheckpointModel, Moved, PrefixKindModel, PrefixModel, RateBackendBitSession, RateBackendBitSessionCheckpoint, SessionError, SessionFault, SessionModel};
use crate::api::predictor::{OnlineBytePredictor, Outcome};
use crate::api::session::{ApiError, ApiFault};
use crate::coders::same_bytes;
use crate::text::{push_text, string_of};

verus! {

/// The byte is given up.
pub open spec fn byte_dropped<P: OnlineBytePredictor>(m: SessionModel<P>) -> Moved<P> {
    let empty = SessionModel { prefix: None, ..m };
    match m.prefix {
        None => bit_session::done(m),
        Some(p) => match p.kind {
            PrefixKindModel::Mass { table, order, seen } => bit_session::done(empty),
            PrefixKindModel::Native { start, seen } => {
                let journal = if start is Some {
                    predictor::released(m.journal)
                } else {
                    m.journal
                };
                let o = match start {
                    Some(s) => P::prefix_aborted(s),
                    None => if seen.len() == 0 {
                        P::prefix_aborted(m.state)
                    } else {
                        P::prefix_abandoned(m.state)
                    },
                };
                let after = SessionModel { state: o.state, journal, ..empty };
                match o.error {
                    Some(e) => bit_session::failed(after, e),
                    None => bit_session::done(after),
                }
            },
        },
    }
}

/// Session and fault after an operation of the predictor.
pub open spec fn moved_by<P: OnlineBytePredictor>(m: SessionModel<P>, o: Outcome<P::State>) -> Moved<P> {
    let after = SessionModel { state: o.state, ..m };
    match o.error {
        Some(e) => bit_session::failed(after, e),
        None => bit_session::done(after),
    }
}

/// What was conditioned on is forgotten.
pub open spec fn session_reset<P: OnlineBytePredictor>(m: SessionModel<P>, total_bits: Option<u64>) -> Moved<P> {
    match bits::symbols_in(total_bits, m.semantics) {
        Err(n) => Moved { m, fault: Some(SessionFault::BrokenStream(n)) },
        Ok(total) => {
            let d = byte_dropped(m);
            if d.fault is Some {
                d
            } else {
                moved_by(d.m, P::conditioning_reset(d.m.state, total))
            }
        },
    }
}

/// A new stream begins.
pub open spec fn session_restarted<P: OnlineBytePredictor>(
    m: SessionModel<P>,
    total_bits: Option<u64>,
    semantics: BitStreamSemantics,
) -> Moved<P> {
    if semantics != m.semantics {
        Moved { m, fault: Some(SessionFault::FixedSemantics) }
    } else {
        match bits::symbols_in(total_bits, m.semantics) {
            Err(n) => Moved { m, fault: Some(SessionFault::BrokenStream(n)) },
            Ok(total) => {
                let d = byte_dropped(m);
                if d.fault is Some {
                    d
                } else {
                    moved_by(d.m, P::stream_restarted(d.m.state, total))
                }
            },
        }
    }
}

/// The stream ends.
pub open spec fn session_ended<P: OnlineBytePredictor>(m: SessionModel<P>) -> Moved<P> {
    if m.semantics is BytePacked && (m.prefix matches Some(p) && bit_session::seen_in(p).len() > 0) {
        Moved { m, fault: Some(SessionFault::PartialByte) }
    } else {
        let d = byte_dropped(m);
        if d.fault is Some {
            d
        } else {
            moved_by(d.m, P::stream_ended(d.m.state))
        }
    }
}

/// A session gets rid of the checkpoint that its byte holds; the answer tells whether it could.
/// A byte that is taken bit by bit is taken back, and goes on as a whole.
pub open spec fn freed<P: OnlineBytePredictor>(m: SessionModel<P>) -> (Moved<P>, bool) {
    let empty = SessionModel { prefix: None, ..m };
    match m.prefix {
        None => (bit_session::done(m), true),
        Some(p) => match p.kind {
            PrefixKindModel::Mass { table, order, seen } => (bit_session::done(m), true),
            PrefixKindModel::Native { start: None, seen } => if seen.len() == 0 {
                (moved_by(empty, P::prefix_aborted(m.state)), true)
            } else {
                (bit_session::done(m), false)
            },
            PrefixKindModel::Native { start: Some(s), seen } => {
                let a = P::prefix_aborted(s);
                let journal = predictor::released(m.journal);
                let back = moved_by(SessionModel { journal, ..empty }, a);
                if back.fault is Some || seen.len() == 0 {
                    (back, true)
                } else {
                    let frozen = p.mode == Some(BufferedByteUpdateMode::Frozen);
                    (
                        bit_session::done(
                            SessionModel {
                                state: a.state,
                                journal,
                                prefix: Some(
                                    PrefixModel {
                                        kind: PrefixKindModel::Mass {
                                            table: P::table_in(a.state, frozen),
                                            order: BitOrder::MsbFirst,
                                            seen,
                                        },
                                        mode: p.mode,
                                    },
                                ),
                                ..m
                            },
                        ),
                        true,
                    )
                }
            },
        },
    }
}

/// A session forgets all checkpoints of its predictor, once its byte holds none; the answer tells
/// whether it could.
pub open spec fn session_cleared<P: OnlineBytePredictor>(m: SessionModel<P>) -> (Moved<P>, bool) {
    let (moved, yes) = freed(m);
    if moved.fault is None && yes {
        (
            bit_session::done(
                SessionModel { journal: predictor::cleared(moved.m.journal), ..moved.m },
            ),
            true,
        )
    } else {
        (moved, yes)
    }
}

/// Bits of a byte, from number `i` on.
pub open spec fn bits_replayed<P: OnlineBytePredictor>(state: P::State, seen: Seq<bool>, i: int) -> Outcome<
    P::State,
>
    decreases seen.len() - i,
{
    if i < 0 || i >= seen.len() {
        Outcome { state, yes: true, error: None }
    } else {
        let o = P::prefix_bit(state, i as nat, seen[i], false);
        if o.error is Some {
            o
        } else {
            bits_replayed::<P>(o.state, seen, i + 1)
        }
    }
}

/// Checkpoint of a session.
pub open spec fn checkpoint_of<P: OnlineBytePredictor>(m: SessionModel<P>) -> CheckpointModel<P> {
    CheckpointModel { code: m.code, state: m.state, semantics: m.semantics, prefix: m.prefix }
}

/// A session is brought back. A byte that can be taken back is begun anew, so that it can be
/// taken back again.
pub open spec fn brought_back<P: OnlineBytePredictor>(m: SessionModel<P>, c: CheckpointModel<P>) -> Moved<P> {
    if m.code != c.code || m.semantics != c.semantics {
        Moved { m, fault: Some(SessionFault::ForeignCheckpoint) }
    } else {
        let journal = if can_take_back(m) {
            predictor::released(m.journal)
        } else {
            m.journal
        };
        let empty = SessionModel { state: c.state, journal, prefix: None, ..m };
        match c.prefix {
            Some(
                PrefixModel { kind: PrefixKindModel::Native { start: Some(s), seen }, mode },
            ) => {
                let a = P::prefix_aborted(s);
                let b = P::prefix_started(a.state);
                let r = bits_replayed::<P>(b.state, seen, 0);
                if a.error is Some {
                    bit_session::failed(empty, a.error->0)
                } else if b.error is Some {
                    bit_session::failed(empty, b.error->0)
                } else if !b.yes {
                    Moved { m: empty, fault: Some(SessionFault::NativeUnsupported) }
                } else if r.error is Some {
                    bit_session::failed(empty, r.error->0)
                } else {
                    bit_session::done(
                        SessionModel {
                            state: r.state,
                            journal: predictor::marked(journal),
                            prefix: Some(
                                PrefixModel {
                                    kind: PrefixKindModel::Native { start: Some(a.state), seen },
                                    mode,
                                },
                            ),
                            ..m
                        },
                    )
                }
            },
            _ => bit_session::done(SessionModel { prefix: c.prefix, ..empty }),
        }
    }
}

/// Whether the byte of a session can be taken back.
pub open spec fn can_take_back<P: OnlineBytePredictor>(m: SessionModel<P>) -> bool {
    m.prefix matches Some(p) && p.kind matches PrefixKindModel::Native { start, seen } && start is Some
}

/// A checkpoint brings back the predictor and the byte, whatever happened in between, unless
/// the byte can be taken back.
pub proof fn law_checkpoint_restores<P: OnlineBytePredictor>(m: SessionModel<P>, later: SessionModel<P>)
    requires
        later.code == m.code,
        later.semantics == m.semantics,
        !can_take_back(m),
    ensures
        brought_back(later, checkpoint_of(m)) == bit_session::done(
            SessionModel {
                scopes: later.scopes,
                journal: if can_take_back(later) {
                    predictor::released(later.journal)
                } else {
                    later.journal
                },
                ..m
            },
        ),
{
}

/// Why a stream of this meaning cannot be had from a backend: bytes that come bit by bit take a
/// backend that gives the probabilities of bytes, and one that gives them at a fair price.
pub open spec fn semantics_refusal(
    semantics: BitStreamSemantics,
    supports_mass: bool,
    efficient: bool,
    name: Seq<char>,
) -> Option<Seq<char>> {
    if semantics is BinaryTokens {
        None
    } else if !supports_mass {
        Some("backend '"@ + name + "' does not support BitStreamSemantics::BytePacked"@)
    } else if !efficient {
        Some(
            "backend '"@ + name
                + "' can expose byte probabilities but does not support efficient BitStreamSemantics::BytePacked sessions; use BitStreamSemantics::BinaryTokens or a backend with native or cached byte-prefix support"@,
        )
    } else {
        None
    }
}

/// Checks that a stream of this meaning can be had from a backend. `supports_mass` tells whether it
/// gives the probabilities of bytes, `efficient` whether it does at a fair price.
pub fn admit_semantics(
    semantics: BitStreamSemantics,
    supports_mass: bool,
    efficient: bool,
    name: &str,
) -> (result: Result<(), ApiError>)
    ensures
        match semantics_refusal(semantics, supports_mass, efficient, name@) {
            None => result is Ok,
            Some(text) => result matches Err(e) && e@ == ApiFault::InvalidBackendConfig(text),
        },
{
    match semantics {
        BitStreamSemantics::BinaryTokens => {
            return Ok(());
        },
        BitStreamSemantics::BytePacked { order } => {},
    }
    if supports_mass && efficient {
        return Ok(());
    }
    let mut out: Vec<char> = Vec::new();
    push_text(&mut out, "backend '");
    push_text(&mut out, name);
    if !supports_mass {
        push_text(&mut out, "' does not support BitStreamSemantics::BytePacked");
    } else {
        push_text(
            &mut out,
            "' can expose byte probabilities but does not support efficient BitStreamSemantics::BytePacked sessions; use BitStreamSemantics::BinaryTokens or a backend with native or cached byte-prefix support",
        );
    }
    proof {
        assert(out@ =~= semantics_refusal(semantics, supports_mass, efficient, name@)->0);
    }
    Err(ApiError::InvalidBackendConfig(string_of(&out)))
}

/// A new session, or why there is none: a stream that is no whole number of bytes, a meaning that
/// the backend does not serve, a predictor that could not be built, and one whose stream does not
/// begin, in this order.
pub open spec fn session_opened<P: OnlineBytePredictor>(
    code: Seq<u8>,
    refusal: Option<Seq<char>>,
    built: Result<P, String>,
    total_bits: Option<u64>,
    semantics: BitStreamSemantics,
) -> Result<SessionModel<P>, ApiFault> {
    match bits::symbols_in(total_bits, semantics) {
        Err(n) => Err(ApiFault::Runtime(bits::broken_stream_text(n))),
        Ok(total) => match refusal {
            Some(text) => Err(ApiFault::InvalidBackendConfig(text)),
            None => match built {
                Err(text) => Err(ApiFault::InvalidBackendConfig(text@)),
                Ok(predictor) => {
                    let o = P::stream_started(predictor.state(), total);
                    match o.error {
                        Some(text) => Err(ApiFault::Runtime(text)),
                        None => Ok(
                            SessionModel {
                                code,
                                state: o.state,
                                journal: predictor.journal(),
                                semantics,
                                prefix: None,
                                scopes: 0,
                            },
                        ),
                    }
                },
            },
        },
    }
}

impl<P: OnlineBytePredictor> RateBackendBitSession<P> {
    /// A session with a predictor that was built for the backend, or with the reason why there is
    /// none.
    pub fn from_backend(
        backend_code: Vec<u8>,
        name: &str,
        supports_mass: bool,
        efficient: bool,
        built: Result<P, String>,
        total_bits: Option<u64>,
        semantics: BitStreamSemantics,
    ) -> (result: Result<Self, ApiError>)
        ensures
            match session_opened(
                backend_code@,
                semantics_refusal(semantics, supports_mass, efficient, name@),
                built,
                total_bits,
                semantics,
            ) {
                Ok(m) => result matches Ok(session) && session.wf() && session.is_sound()
                    && session.model() == m,
                Err(fault) => result matches Err(e) && e@ == fault,
            },
    {
        if let Err(n) = total_symbols_for_bit_semantics(total_bits, semantics) {
            return Err(ApiError::Runtime(SessionError::BrokenStream(n).message()));
        }
        if let Err(e) = admit_semantics(semantics, supports_mass, efficient, name) {
            return Err(e);
        }
        let predictor = match built {
            Ok(p) => p,
            Err(e) => {
                return Err(ApiError::InvalidBackendConfig(e));
            },
        };
        match RateBackendBitSession::start(backend_code, predictor, total_bits, semantics) {
            Ok(session) => Ok(session),
            Err(e) => Err(ApiError::Runtime(e.message())),
        }
    }

    /// A session with a predictor whose stream begins; what the backend serves is not asked.
    fn start(
        backend_code: Vec<u8>,
        predictor: P,
        total_bits: Option<u64>,
        semantics: BitStreamSemantics,
    ) -> (result: Result<Self, SessionError>)
        ensures
            match bits::symbols_in(total_bits, semantics) {
                Err(n) => result matches Err(e) && e@ == SessionFault::BrokenStream(n),
                Ok(total) => {
                    let o = P::stream_started(predictor.state(), total);
                    match o.error {
                        Some(text) => result matches Err(e) && e@ == SessionFault::Predictor(text),
                        None => result matches Ok(session) && session.wf() && session.model() == (
                        SessionModel::<P> {
                            code: backend_code@,
                            state: o.state,
                            journal: predictor.journal(),
                            semantics,
                            prefix: None,
                            scopes: 0,
                        }),
                    }
                },
            },
    {
        let total = match total_symbols_for_bit_semantics(total_bits, semantics) {
            Ok(t) => t,
            Err(n) => {
                return Err(SessionError::BrokenStream(n));
            },
        };
        let mut predictor = predictor;
        match predictor.begin_stream(total) {
            Ok(_) => {},
            Err(e) => {
                return Err(SessionError::Predictor(e));
            },
        }
        Ok(
            RateBackendBitSession {
                backend_code,
                predictor,
                semantics,
                prefix: None,
                discardable_scopes: 0,
            },
        )
    }

    /// Effects from here on will not be taken back.
    pub fn begin_discardable_scope(&mut self)
        ensures
            final(self).model() == (SessionModel {
                scopes: if old(self).discardable_scopes < usize::MAX {
                    (old(self).discardable_scopes + 1) as usize
                } else {
                    usize::MAX
                },
                ..old(self).model()
            }),
            old(self).wf() ==> final(self).wf(),
            old(self).is_sound() ==> final(self).is_sound(),
    {
        self.discardable_scopes = self.discardable_scopes.saturating_add(1);
    }

    /// Effects may be taken back again.
    pub fn clear_discardable_scopes(&mut self)
        ensures
            final(self).model() == (SessionModel { scopes: 0, ..old(self).model() }),
            old(self).wf() ==> final(self).wf(),
            old(self).is_sound() ==> final(self).is_sound(),
    {
        self.discardable_scopes = 0;
    }

    fn drop_byte(&mut self) -> (result: Result<(), SessionError>)
        ensures
            final(self).model() == byte_dropped(old(self).model()).m,
            bit_session::told(result, byte_dropped(old(self).model())),
            final(self).prefix is None,
    {
        let kind = match self.prefix.take() {
            None => {
                return Ok(());
            },
            Some(p) => p.kind,
        };
        match kind {
            BufferedBytePrefixKind::Mass(BytePrefixMass { table, order, symbol, bits }) => Ok(()),
            BufferedBytePrefixKind::NativeMsb { start_checkpoint, symbol, bits } => {
                let failure = match start_checkpoint {
                    Some(boxed) => {
                        let start = *boxed;
                        match self.restore_start_checkpoint_abort_and_discard(start) {
                            Ok(_) => None,
                            Err(e) => Some(e),
                        }
                    },
                    None => if bits == 0 {
                        match self.predictor.abort_empty_native_msb_byte_prefix() {
                            Ok(_) => None,
                            Err(e) => Some(e),
                        }
                    } else {
                        match self.predictor.abandon_incomplete_native_msb_byte_prefix_for_lifecycle() {
                            Ok(_) => None,
                            Err(e) => Some(e),
                        }
                    },
                };
                match failure {
                    None => Ok(()),
                    Some(e) => Err(SessionError::Predictor(e)),
                }
            },
        }
    }

    /// Forgets what was conditioned on; what was learned stays.
    pub fn reset_frozen(&mut self, total_bits: Option<u64>) -> (result: Result<(), SessionError>)
        requires
            old(self).wf(),
        ensures
            final(self).model() == session_reset(old(self).model(), total_bits).m,
            bit_session::told(result, session_reset(old(self).model(), total_bits)),
            final(self).wf(),
            old(self).is_sound() ==> final(self).is_sound(),
    {
        let total = match total_symbols_for_bit_semantics(total_bits, self.semantics) {
            Ok(t) => t,
            Err(n) => {
                return Err(SessionError::BrokenStream(n));
            },
        };
        match self.drop_byte() {
            Ok(_) => {},
            Err(e) => {
                return Err(e);
            },
        }
        match self.predictor.reset_frozen(total) {
            Ok(_) => Ok(()),
            Err(e) => Err(SessionError::Predictor(e)),
        }
    }

    /// Begins a new stream of the same meaning.
    pub fn begin_bit_stream(&mut self, total_bits: Option<u64>, semantics: BitStreamSemantics) -> (result:
        Result<(), SessionError>)
        requires
            old(self).wf(),
        ensures
            final(self).model() == session_restarted(old(self).model(), total_bits, semantics).m,
            bit_session::told(result, session_restarted(old(self).model(), total_bits, semantics)),
            final(self).wf(),
            old(self).is_sound() ==> final(self).is_sound(),
    {
        if semantics != self.semantics {
            return Err(SessionError::FixedSemantics);
        }
        let total = match total_symbols_for_bit_semantics(total_bits, self.semantics) {
            Ok(t) => t,
            Err(n) => {
                return Err(SessionError::BrokenStream(n));
            },
        };
        match self.drop_byte() {
            Ok(_) => {},
            Err(e) => {
                return Err(e);
            },
        }
        match self.predictor.begin_fresh_stream(total) {
            Ok(_) => Ok(()),
            Err(e) => Err(SessionError::Predictor(e)),
        }
    }

    /// Ends the stream, which must not be inside a byte.
    pub fn finish(&mut self) -> (result: Result<(), SessionError>)
        requires
            old(self).wf(),
        ensures
            final(self).model() == session_ended(old(self).model()).m,
            bit_session::told(result, session_ended(old(self).model())),
            final(self).wf(),
            old(self).is_sound() ==> final(self).is_sound(),
    {
        let packed: bool = match self.semantics {
            BitStreamSemantics::BytePacked { order } => true,
            BitStreamSemantics::BinaryTokens => false,
        };
        let partial: bool = match &self.prefix {
            Some(p) => p.has_partial_bits(),
            None => false,
        };
        if packed && partial {
            return Err(SessionError::PartialByte);
        }
        match self.drop_byte() {
            Ok(_) => {},
            Err(e) => {
                return Err(e);
            },
        }
        match self.predictor.finish_stream() {
            Ok(_) => Ok(()),
            Err(e) => Err(SessionError::Predictor(e)),
        }
    }

    /// Forgets all checkpoints of the predictor, once the byte holds none; the answer tells
    /// whether that could be done.
    pub fn clear_checkpoints_if_supported(&mut self) -> (result: Result<bool, SessionError>)
        requires
            old(self).wf(),
            !bit_session::is_stuck(old(self).model()),
        ensures
            final(self).model() == session_cleared(old(self).model()).0.m,
            bit_session::told(result, session_cleared(old(self).model()).0),
            result matches Ok(yes) ==> yes == session_cleared(old(self).model()).1,
            result matches Ok(yes) && yes ==> final(self).predictor.journal().held == 0,
            final(self).wf(),
            old(self).is_sound() ==> final(self).is_sound(),
    {
        let result = self.normalize_prefix_for_checkpoint_clear();
        if let Ok(true) = result {
            self.predictor.clear_checkpoints_if_supported();
        }
        result
    }

    fn normalize_prefix_for_checkpoint_clear(&mut self) -> (result: Result<bool, SessionError>)
        requires
            old(self).wf(),
            !bit_session::is_stuck(old(self).model()),
        ensures
            final(self).model() == freed(old(self).model()).0.m,
            bit_session::told(result, freed(old(self).model()).0),
            result matches Ok(yes) ==> yes == freed(old(self).model()).1,
            final(self).wf(),
    {
        let p = match self.prefix.take() {
            None => {
                return Ok(true);
            },
            Some(p) => p,
        };
        let mode = p.update_mode;
        match p.kind {
            BufferedBytePrefixKind::Mass(BytePrefixMass { table, order, symbol, bits }) => {
                self.prefix = Some(
                    BufferedBytePrefix {
                        kind: BufferedBytePrefixKind::Mass(BytePrefixMass { table, order, symbol, bits }),
                        update_mode: mode,
                    },
                );
                Ok(true)
            },
            BufferedBytePrefixKind::NativeMsb { start_checkpoint, symbol, bits } => {
                match start_checkpoint {
                    None => {
                        if bits == 0 {
                            return match self.predictor.abort_empty_native_msb_byte_prefix() {
                                Ok(_) => Ok(true),
                                Err(e) => Err(SessionError::Predictor(e)),
                            };
                        }
                        self.prefix = Some(
                            BufferedBytePrefix {
                                kind: BufferedBytePrefixKind::NativeMsb {
                                    start_checkpoint: None,
                                    symbol,
                                    bits,
                                },
                                update_mode: mode,
                            },
                        );
                        Ok(false)
                    },
                    Some(boxed) => {
                        let start = *boxed;
                        match self.restore_start_checkpoint_abort_and_discard(start) {
                            Ok(_) => {},
                            Err(e) => {
                                return Err(SessionError::Predictor(e));
                            },
                        }
                        if bits == 0 {
                            return Ok(true);
                        }
                        let frozen: bool = match mode {
                            Some(BufferedByteUpdateMode::Frozen) => true,
                            _ => false,
                        };
                        let table = self.predictor.table(frozen);
                        self.prefix = Some(
                            BufferedBytePrefix {
                                kind: BufferedBytePrefixKind::Mass(BytePrefixMass {
                                    table,
                                    order: BitOrder::MsbFirst,
                                    symbol,
                                    bits,
                                }),
                                update_mode: mode,
                            },
                        );
                        Ok(true)
                    },
                }
            },
        }
    }

    /// Checkpoint of the session.
    pub fn checkpoint(&mut self) -> (checkpoint: RateBackendBitSessionCheckpoint<P>)
        requires
            old(self).wf(),
        ensures
            checkpoint.model() == checkpoint_of(old(self).model()),
            checkpoint.wf(),
            old(self).is_sound() ==> checkpoint.is_sound(),
            final(self).model() == (SessionModel {
                journal: predictor::marked(old(self).model().journal),
                ..old(self).model()
            }),
            final(self).wf(),
            old(self).is_sound() ==> final(self).is_sound(),
    {
        let code = self.backend_code.clone();
        proof {
            assert(code@ =~= self.backend_code@);
        }
        let predictor = self.predictor.checkpoint();
        let prefix = match &self.prefix {
            Some(p) => Some(p.copy()),
            None => None,
        };
        RateBackendBitSessionCheckpoint {
            backend_code: code,
            predictor,
            semantics: self.semantics,
            prefix,
        }
    }

    fn release_byte(&mut self)
        ensures
            final(self).model() == (SessionModel {
                prefix: None,
                journal: if can_take_back(old(self).model()) {
                    predictor::released(old(self).model().journal)
                } else {
                    old(self).model().journal
                },
                ..old(self).model()
            }),
            final(self).prefix is None,
    {
        match self.prefix.take() {
            None => {},
            Some(p) => match p.kind {
                BufferedBytePrefixKind::Mass(BytePrefixMass { table, order, symbol, bits }) => {},
                BufferedBytePrefixKind::NativeMsb { start_checkpoint, symbol, bits } => {
                    if let Some(boxed) = start_checkpoint {
                        self.predictor.discard_checkpoint(*boxed);
                    }
                },
            },
        }
    }

    fn replay_bits(&mut self, symbol: u8, bits: usize) -> (result: Result<(), String>)
        requires
            bits <= 8,
        ensures
            ({
                let o = bits_replayed::<P>(
                    old(self).model().state,
                    bits::first_bits(symbol, BitOrder::MsbFirst, bits as nat),
                    0,
                );
                &&& predictor::ended(result, o)
                &&& final(self).model() == (SessionModel { state: o.state, ..old(self).model() })
                &&& final(self).prefix == old(self).prefix
            }),
    {
        let ghost seen = bits::first_bits(symbol, BitOrder::MsbFirst, bits as nat);
        let ghost before = self.model();
        let ghost goal = bits_replayed::<P>(before.state, seen, 0);
        let mut i: usize = 0;
        while i < bits
            invariant
                i <= bits <= 8,
                seen == bits::first_bits(symbol, BitOrder::MsbFirst, bits as nat),
                goal == bits_replayed::<P>(self.predictor.state(), seen, i as int),
                self.prefix == old(self).prefix,
                before == old(self).model(),
                goal == bits_replayed::<P>(before.state, seen, 0),
                self.model() == (SessionModel { state: self.predictor.state(), ..before }),
            decreases bits - i,
        {
            let bit: bool = observed_bit(symbol, BitOrder::MsbFirst, i);
            proof {
                assert(seen[i as int] == bit);
            }
            match self.predictor.observe_native_msb_prefix_bit(i, bit) {
                Ok(_) => {},
                Err(e) => {
                    return Err(e);
                },
            }
            i += 1;
        }
        Ok(())
    }

    /// Brings the session back. A checkpoint of another session is refused; one of this session is
    /// brought back with success, in the middle of a byte too.
    pub fn restore_checkpoint(&mut self, checkpoint: &RateBackendBitSessionCheckpoint<P>) -> (result:
        Result<(), SessionError>)
        requires
            old(self).wf(),
            checkpoint.wf(),
        ensures
            final(self).model() == brought_back(old(self).model(), checkpoint.model()).m,
            bit_session::told(result, brought_back(old(self).model(), checkpoint.model())),
            final(self).wf(),
            old(self).is_sound() && checkpoint.is_sound() ==> final(self).is_sound(),
            old(self).is_sound() && checkpoint.is_sound() && checkpoint.backend_code@
                == old(self).backend_code@ && checkpoint.semantics == old(self).semantics
                ==> result is Ok && bit_replay::alike(
                final(self).model(),
                bit_replay::as_then(checkpoint.model(), final(self).model()),
            ),
            !(checkpoint.backend_code@ == old(self).backend_code@ && checkpoint.semantics
                == old(self).semantics) ==> result is Err && final(self).model()
                == old(self).model(),
    {
        proof {
            let c = checkpoint.model();
            if self.is_sound() && checkpoint.is_sound() && c.code == self.model().code && c.semantics
                == self.model().semantics {
                bit_replay::lemma_brought_back(self.model(), c);
            }
        }
        let same: bool = same_bytes(
            self.backend_code.as_slice(),
            checkpoint.backend_code.as_slice(),
        );
        if !same || self.semantics != checkpoint.semantics {
            return Err(SessionError::ForeignCheckpoint);
        }
        self.release_byte();
        self.predictor.restore_checkpoint(&checkpoint.predictor);
        if let Some(p) = &checkpoint.prefix {
            if let BufferedBytePrefixKind::NativeMsb { start_checkpoint: Some(start), symbol, bits } =
                &p.kind {
                let restored = self.predictor.checkpoint();
                self.predictor.restore_checkpoint(start);
                match self.predictor.abort_empty_native_msb_byte_prefix() {
                    Ok(_) => {},
                    Err(e) => {
                        self.predictor.restore_checkpoint(&restored);
                        self.predictor.discard_checkpoint(restored);
                        return Err(SessionError::Predictor(e));
                    },
                }
                let fresh = self.predictor.native_prefix_start_checkpoint();
                match self.predictor.begin_native_msb_byte_prefix() {
                    Ok(true) => {},
                    Ok(false) => {
                        self.predictor.discard_checkpoint(fresh);
                        self.predictor.restore_checkpoint(&restored);
                        self.predictor.discard_checkpoint(restored);
                        return Err(SessionError::NativeUnsupported);
                    },
                    Err(e) => {
                        self.predictor.discard_checkpoint(fresh);
                        self.predictor.restore_checkpoint(&restored);
                        self.predictor.discard_checkpoint(restored);
                        return Err(SessionError::Predictor(e));
                    },
                }
                match self.replay_bits(*symbol, *bits) {
                    Ok(_) => {},
                    Err(e) => {
                        self.predictor.restore_checkpoint(&restored);
                        self.predictor.discard_checkpoint(fresh);
                        self.predictor.discard_checkpoint(restored);
                        return Err(SessionError::Predictor(e));
                    },
                }
                self.predictor.discard_checkpoint(restored);
                self.prefix = Some(
                    BufferedBytePrefix {
                        kind: BufferedBytePrefixKind::NativeMsb {
                            start_checkpoint: Some(Box::new(fresh)),
                            symbol: *symbol,
                            bits: *bits,
                        },
                        update_mode: p.update_mode,
                    },
                );
                return Ok(());
            }
        }
        self.prefix = match &checkpoint.prefix {
            Some(p) => Some(p.copy()),
            None => None,
        };
        Ok(())
    }
}

} // verus!
