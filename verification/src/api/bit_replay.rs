//! What a checkpoint of a bit session brings back, and how the session goes on from there.

use vstd::prelude::*;
use crate::api::bit_lifecycle;
use crate::api::bit_session;
use crate::api::bit_updates;
use crate::api::predictor;

use crate::api::bit_session::{
    BufferedByteUpdateMode, CheckpointModel, Moved, PrefixKindModel, PrefixModel,
    RateBackendBitSession, RateBackendBitSessionCheckpoint, SessionFault, SessionModel,
};
use crate::api::bit_updates::BitSource;
use crate::api::bits::{BitOrder, BitStreamSemantics};
use crate::api::predictor::OnlineBytePredictor;

verus! {

/// Whether the bits of a byte that begins in `clean` lead to a state.
pub open spec fn leads_to<P: OnlineBytePredictor>(
    clean: P::State,
    seen: Seq<bool>,
    state: P::State,
) -> bool {
    let o = bit_lifecycle::bits_replayed::<P>(P::prefix_started(clean).state, seen, 0);
    predictor::begins::<P>(clean) && o.error is None && o.state == state
}

/// Whether a byte that is taken bit by bit began in `clean`, and its bits led from there to the
/// state.
pub open spec fn began_in<P: OnlineBytePredictor>(
    state: P::State,
    prefix: Option<PrefixModel<P>>,
    clean: P::State,
) -> bool {
    prefix matches Some(p) && p.kind matches PrefixKindModel::Native { start, seen }
        && leads_to::<P>(clean, seen, state) && (start matches Some(s) ==> s == clean || s
        == P::prefix_started(clean).state)
}

/// Whether a byte is one that its bits account for, or none is there; a stream of symbols has none.
/// A predictor that takes a byte bit by bit can replay it.
pub open spec fn sound_byte<P: OnlineBytePredictor>(
    state: P::State,
    semantics: BitStreamSemantics,
    prefix: Option<PrefixModel<P>>,
) -> bool {
    &&& semantics is BinaryTokens ==> prefix is None
    &&& (prefix matches Some(p) && p.kind is Native) ==> predictor::replays_bits::<P>() && exists|
        clean: P::State,
    | #[trigger] began_in::<P>(state, prefix, clean)
}

/// How many of the checkpoints that the predictor counts belong to the byte.
pub open spec fn own_marks<P: OnlineBytePredictor>(m: SessionModel<P>) -> nat {
    if m.journal.kept && bit_lifecycle::can_take_back(m) {
        1
    } else {
        0
    }
}

/// How many of the checkpoints that the predictor counts belong to the users of the session.
pub open spec fn user_marks<P: OnlineBytePredictor>(m: SessionModel<P>) -> int {
    m.journal.held - own_marks(m)
}

/// Whether the byte of a session is sound, and its checkpoint is counted.
pub open spec fn sound<P: OnlineBytePredictor>(m: SessionModel<P>) -> bool {
    sound_byte::<P>(m.state, m.semantics, m.prefix) && user_marks(m) >= 0
}

impl<P: OnlineBytePredictor> RateBackendBitSession<P> {
    /// Whether the byte is one that its bits account for, and its checkpoint is counted. A new
    /// session is sound, and each request leaves it so.
    pub open spec fn is_sound(&self) -> bool {
        sound(self.model())
    }
}

impl<P: OnlineBytePredictor> RateBackendBitSessionCheckpoint<P> {
    /// Whether the byte is one that its bits account for. A checkpoint of a sound session is sound.
    pub open spec fn is_sound(&self) -> bool {
        sound_byte::<P>(self.model().state, self.model().semantics, self.model().prefix)
    }
}

proof fn lemma_one_more<P: OnlineBytePredictor>(
    state: P::State,
    seen: Seq<bool>,
    bit: bool,
    i: int,
)
    requires
        0 <= i <= seen.len(),
        bit_lifecycle::bits_replayed::<P>(state, seen, i).error is None,
        P::prefix_bit(
            bit_lifecycle::bits_replayed::<P>(state, seen, i).state,
            seen.len(),
            bit,
            false,
        ).error is None,
    ensures
        bit_lifecycle::bits_replayed::<P>(state, seen.push(bit), i).error is None,
        bit_lifecycle::bits_replayed::<P>(state, seen.push(bit), i).state == P::prefix_bit(
            bit_lifecycle::bits_replayed::<P>(state, seen, i).state,
            seen.len(),
            bit,
            false,
        ).state,
    decreases seen.len() - i,
{
    let more = seen.push(bit);
    if i < seen.len() {
        assert(more[i] == seen[i]);
        let o = P::prefix_bit(state, i as nat, seen[i], false);
        lemma_one_more::<P>(o.state, seen, bit, i + 1);
    } else {
        assert(more[i] == bit);
        let o = P::prefix_bit(state, i as nat, bit, false);
        assert(bit_lifecycle::bits_replayed::<P>(o.state, more, i + 1).state == o.state);
    }
}

/// A request to a session.
pub enum BitRequest {
    /// What the next bit is predicted from.
    Predict,
    /// A bit, fitted or only conditioned on.
    Bit { bit: bool, frozen: bool },
}

/// Session and fault after a request.
pub open spec fn requested<P: OnlineBytePredictor>(m: SessionModel<P>, request: BitRequest) -> Moved<
    P,
> {
    match request {
        BitRequest::Predict => bit_updates::predicted(m),
        BitRequest::Bit { bit, frozen } => bit_session::bit_taken(m, bit, frozen),
    }
}

/// What a session says to a request, and the state that the predictor is in then. All predictions
/// are made from that state.
#[verifier::ext_equal]
pub struct BitAnswer<S> {
    /// What is wrong.
    pub fault: Option<SessionFault>,
    /// What the next bit is predicted from, where that was asked.
    pub source: Option<BitSource>,
    /// State of the predictor.
    pub state: S,
}

/// What a session says to a request.
pub open spec fn answer<P: OnlineBytePredictor>(m: SessionModel<P>, request: BitRequest) -> BitAnswer<
    P::State,
> {
    let moved = requested(m, request);
    BitAnswer {
        fault: moved.fault,
        source: if request is Predict && moved.fault is None {
            Some(bit_updates::source_of(moved.m))
        } else {
            None
        },
        state: moved.m.state,
    }
}

/// Session after the first `n` requests.
pub open spec fn after_requests<P: OnlineBytePredictor>(
    m: SessionModel<P>,
    requests: Seq<BitRequest>,
    n: int,
) -> SessionModel<P>
    decreases n,
{
    if n <= 0 {
        m
    } else {
        requested(after_requests(m, requests, n - 1), requests[n - 1]).m
    }
}

/// What the session says to the first `n` requests.
pub open spec fn answers<P: OnlineBytePredictor>(
    m: SessionModel<P>,
    requests: Seq<BitRequest>,
    n: int,
) -> Seq<BitAnswer<P::State>>
    decreases n,
{
    if n <= 0 {
        Seq::empty()
    } else {
        answers(m, requests, n - 1).push(
            answer(after_requests(m, requests, n - 1), requests[n - 1]),
        )
    }
}

/// A byte that is begun is sound.
pub proof fn lemma_begun_sound<P: OnlineBytePredictor>(
    m: SessionModel<P>,
    order: BitOrder,
    frozen: bool,
    keep_start: bool,
)
    requires
        sound(m),
        m.semantics is BytePacked,
        m.prefix is None && order == BitOrder::MsbFirst && P::takes_bits(m.state)
            ==> predictor::replays_bits::<P>(),
    ensures
        sound(bit_session::begun_byte(m, order, frozen, keep_start).m),
        user_marks(bit_session::begun_byte(m, order, frozen, keep_start).m) == user_marks(m),
{
    let b = bit_session::begun_byte(m, order, frozen, keep_start);
    if m.prefix is None && b.fault is None && b.m.prefix->0.kind is Native {
        assert(began_in::<P>(b.m.state, b.m.prefix, m.state));
    }
}

/// Whether a byte that is conditioned on can be taken back, as long as it is not complete.
pub open spec fn held_to_account<P: OnlineBytePredictor>(m: SessionModel<P>) -> bool {
    (m.prefix matches Some(p) && p.kind matches PrefixKindModel::Native { start, seen } && seen.len()
        > 0) ==> {
        let p = m.prefix->0;
        p.mode is Some && (p.mode == Some(BufferedByteUpdateMode::Frozen)
            ==> p.kind->Native_start is Some)
    }
}

/// A bit, whether it is taken or refused, leaves a sound byte.
pub proof fn lemma_bit_sound<P: OnlineBytePredictor>(m: SessionModel<P>, bit: bool, frozen: bool)
    requires
        sound(m),
        m.prefix is Some,
        held_to_account(m),
    ensures
        sound(bit_session::byte_bit(m, bit, frozen).m),
        user_marks(bit_session::byte_bit(m, bit, frozen).m) == user_marks(m),
{
    let p = m.prefix->0;
    let after = bit_session::byte_bit(m, bit, frozen);
    if let PrefixKindModel::Native { start, seen } = p.kind {
        let clean = choose|clean: P::State| #[trigger] began_in::<P>(m.state, m.prefix, clean);
        assert(began_in::<P>(m.state, m.prefix, clean));
        assert(predictor::begins::<P>(clean));
        assert(P::prefix_bit(m.state, seen.len(), bit, true) == P::prefix_bit(
            m.state,
            seen.len(),
            bit,
            false,
        ));
        let o = P::prefix_bit(m.state, seen.len(), bit, false);
        if seen.len() == 0 {
            assert(bit_lifecycle::bits_replayed::<P>(
                P::prefix_started(clean).state,
                seen,
                0,
            ).state == P::prefix_started(clean).state);
        }
        if o.error is None {
            lemma_one_more::<P>(P::prefix_started(clean).state, seen, bit, 0);
        }
        if after.m.prefix is Some {
            assert(began_in::<P>(after.m.state, after.m.prefix, clean));
        }
    }
}

/// No request changes how many checkpoints the users of a session hold: what a byte takes, it gives
/// back.
pub proof fn law_requests_leave_the_users_checkpoints<P: OnlineBytePredictor>(
    m: SessionModel<P>,
    request: BitRequest,
)
    requires
        user_marks(m) >= 0,
    ensures
        user_marks(requested(m, request).m) == user_marks(m),
{
    if let BitStreamSemantics::BytePacked { order } = m.semantics {
        let frozen = request matches BitRequest::Bit { bit, frozen } && frozen;
        let b = bit_session::begun_byte(m, order, frozen, frozen);
        assert(user_marks(b.m) == user_marks(m));
    }
}

/// Ending, resetting and beginning streams gives the checkpoint of the byte back and leaves those of
/// the users, where it is not refused.
pub proof fn law_streams_release_the_byte<P: OnlineBytePredictor>(
    m: SessionModel<P>,
    total_bits: Option<u64>,
    semantics: BitStreamSemantics,
)
    requires
        user_marks(m) >= 0,
    ensures
        ({
            let reset = bit_lifecycle::session_reset(m, total_bits);
            let restarted = bit_lifecycle::session_restarted(m, total_bits, semantics);
            let ended = bit_lifecycle::session_ended(m);
            &&& user_marks(reset.m) == user_marks(m)
            &&& user_marks(restarted.m) == user_marks(m)
            &&& user_marks(ended.m) == user_marks(m)
            &&& reset.fault is None ==> reset.m.journal.held == user_marks(m)
            &&& restarted.fault is None ==> restarted.m.journal.held == user_marks(m)
            &&& ended.fault is None ==> ended.m.journal.held == user_marks(m)
        }),
{
}

/// Bringing a session back gives the checkpoint of its byte back. Those of the users are left, and
/// the byte that is brought back has one where it can be taken back.
pub proof fn law_restoring_releases_the_byte<P: OnlineBytePredictor>(
    m: SessionModel<P>,
    c: CheckpointModel<P>,
)
    requires
        user_marks(m) >= 0,
    ensures
        user_marks(bit_lifecycle::brought_back(m, c).m) == user_marks(m),
{
}

/// A byte that is complete has given its checkpoint back.
pub proof fn law_complete_bytes_hold_nothing<P: OnlineBytePredictor>(
    m: SessionModel<P>,
    bit: bool,
    frozen: bool,
)
    requires
        sound(m),
        m.prefix is Some,
        held_to_account(m),
    ensures
        ({
            let after = bit_session::byte_bit(m, bit, frozen).m;
            after.prefix is None ==> after.journal.held == user_marks(m)
        }),
{
    lemma_bit_sound(m, bit, frozen);
}

/// A session whose checkpoints are forgotten has none left, and no byte that holds one. It is told
/// so unless a byte is under way that cannot be taken back, and there is nothing to forget but what
/// its users took.
pub proof fn law_cleared_sessions_hold_nothing<P: OnlineBytePredictor>(m: SessionModel<P>)
    requires
        user_marks(m) >= 0,
    ensures
        ({
            let (moved, yes) = bit_lifecycle::session_cleared(m);
            &&& moved.fault is None && yes ==> moved.m.journal.held == 0
                && !bit_lifecycle::can_take_back(moved.m)
            &&& !(moved.fault is None && yes) ==> user_marks(moved.m) == user_marks(m)
        }),
{
}

/// Whether giving up from two states is the same.
pub open spec fn same_way_back<P: OnlineBytePredictor>(one: P::State, two: P::State) -> bool {
    P::prefix_aborted(one).error == P::prefix_aborted(two).error && P::prefix_aborted(one).state
        == P::prefix_aborted(two).state
}

/// Whether two sessions differ in nothing but the checkpoints that are counted and the states that
/// their bytes are taken back to, and in these only so that giving up from them is the same.
pub open spec fn alike<P: OnlineBytePredictor>(one: SessionModel<P>, two: SessionModel<P>) -> bool {
    &&& one.code == two.code
    &&& one.state == two.state
    &&& one.semantics == two.semantics
    &&& one.scopes == two.scopes
    &&& match (one.prefix, two.prefix) {
        (None, None) => true,
        (Some(p), Some(q)) => p.mode == q.mode && match (p.kind, q.kind) {
            (
                PrefixKindModel::Native { start: a, seen: x },
                PrefixKindModel::Native { start: b, seen: y },
            ) => x == y && match (a, b) {
                (Some(s), Some(t)) => same_way_back::<P>(s, t),
                (None, None) => true,
                _ => false,
            },
            _ => p.kind == q.kind,
        },
        _ => false,
    }
}

proof fn lemma_alike_step<P: OnlineBytePredictor>(
    one: SessionModel<P>,
    two: SessionModel<P>,
    request: BitRequest,
)
    requires
        alike(one, two),
    ensures
        answer(one, request) == answer(two, request),
        alike(requested(one, request).m, requested(two, request).m),
{
    if let BitStreamSemantics::BytePacked { order } = one.semantics {
        let frozen = request matches BitRequest::Bit { bit, frozen } && frozen;
        let b = bit_session::begun_byte(one, order, frozen, frozen);
        let c = bit_session::begun_byte(two, order, frozen, frozen);
        assert(alike(b.m, c.m));
        assert(b.fault == c.fault);
        if b.fault is None {
            if let BitRequest::Bit { bit, frozen: f } = request {
                lemma_alike_bit(b.m, c.m, bit, f);
            }
        }
    }
}

proof fn lemma_alike_bit<P: OnlineBytePredictor>(
    one: SessionModel<P>,
    two: SessionModel<P>,
    bit: bool,
    frozen: bool,
)
    requires
        alike(one, two),
        one.prefix is Some,
    ensures
        bit_session::byte_bit(one, bit, frozen).fault == bit_session::byte_bit(
            two,
            bit,
            frozen,
        ).fault,
        alike(
            bit_session::byte_bit(one, bit, frozen).m,
            bit_session::byte_bit(two, bit, frozen).m,
        ),
{
    let p = one.prefix->0;
    let q = two.prefix->0;
    assert(bit_session::seen_in(p) == bit_session::seen_in(q));
}

/// Sessions that differ only in the checkpoints that are counted, and in states from which giving up
/// is the same, answer all requests alike.
pub proof fn law_alike_sessions_answer_alike<P: OnlineBytePredictor>(
    one: SessionModel<P>,
    two: SessionModel<P>,
    requests: Seq<BitRequest>,
    n: int,
)
    requires
        alike(one, two),
        0 <= n <= requests.len(),
    ensures
        answers(one, requests, n) == answers(two, requests, n),
        alike(after_requests(one, requests, n), after_requests(two, requests, n)),
    decreases n,
{
    if n > 0 {
        law_alike_sessions_answer_alike(one, two, requests, n - 1);
        lemma_alike_step(
            after_requests(one, requests, n - 1),
            after_requests(two, requests, n - 1),
            requests[n - 1],
        );
    }
}

/// A session in the state of a checkpoint, with the journal and the scopes of another.
pub open spec fn as_then<P: OnlineBytePredictor>(
    c: CheckpointModel<P>,
    now: SessionModel<P>,
) -> SessionModel<P> {
    SessionModel {
        code: c.code,
        state: c.state,
        semantics: c.semantics,
        prefix: c.prefix,
        journal: now.journal,
        scopes: now.scopes,
    }
}

/// A sound checkpoint of the same backend and meaning is brought back with success, and the session
/// is as it was then, but for the state that its byte is taken back to.
pub proof fn lemma_brought_back<P: OnlineBytePredictor>(later: SessionModel<P>, c: CheckpointModel<P>)
    requires
        later.code == c.code,
        later.semantics == c.semantics,
        sound_byte::<P>(c.state, c.semantics, c.prefix),
        user_marks(later) >= 0,
    ensures
        ({
            let back = bit_lifecycle::brought_back(later, c);
            &&& back.fault is None
            &&& sound(back.m)
            &&& alike(back.m, as_then(c, back.m))
        }),
{
    let back = bit_lifecycle::brought_back(later, c);
    law_restoring_releases_the_byte(later, c);
    if let Some(p) = c.prefix {
        if let PrefixKindModel::Native { start, seen } = p.kind {
            let clean = choose|clean: P::State| #[trigger] began_in::<P>(c.state, c.prefix, clean);
            assert(began_in::<P>(c.state, c.prefix, clean));
            assert(predictor::begins::<P>(clean));
            if let Some(s) = start {
                assert(predictor::gives_up_to::<P>(s, clean));
                assert(predictor::gives_up_to::<P>(clean, clean));
            }
            assert(began_in::<P>(back.m.state, back.m.prefix, clean));
        }
    }
}

/// A checkpoint of one's own session is brought back with success, whatever happened in between and
/// in the middle of a byte too: the session is as it was, but for the state that its byte is taken
/// back to, and every later request is answered as it would have been then.
pub proof fn law_checkpoint_replays<P: OnlineBytePredictor>(
    m: SessionModel<P>,
    later: SessionModel<P>,
    requests: Seq<BitRequest>,
)
    requires
        later.code == m.code,
        later.semantics == m.semantics,
        sound(m),
        sound(later),
    ensures
        ({
            let back = bit_lifecycle::brought_back(later, bit_lifecycle::checkpoint_of(m));
            let then = SessionModel { scopes: later.scopes, journal: back.m.journal, ..m };
            &&& back.fault is None
            &&& alike(back.m, then)
            &&& answers(back.m, requests, requests.len() as int) == answers(
                then,
                requests,
                requests.len() as int,
            )
        }),
{
    let back = bit_lifecycle::brought_back(later, bit_lifecycle::checkpoint_of(m));
    let then = SessionModel { scopes: later.scopes, journal: back.m.journal, ..m };
    lemma_brought_back(later, bit_lifecycle::checkpoint_of(m));
    assert(as_then(bit_lifecycle::checkpoint_of(m), back.m) == then);
    law_alike_sessions_answer_alike(back.m, then, requests, requests.len() as int);
}

/// A checkpoint of another backend, or of a stream with another meaning, is refused, and the session
/// is left as it is.
pub proof fn law_foreign_checkpoints_are_refused<P: OnlineBytePredictor>(
    m: SessionModel<P>,
    other: SessionModel<P>,
)
    requires
        other.code != m.code || other.semantics != m.semantics,
    ensures
        bit_lifecycle::brought_back(m, bit_lifecycle::checkpoint_of(other)) == (Moved {
            m,
            fault: Some(SessionFault::ForeignCheckpoint),
        }),
{
}

} // verus!
