//! What a predictor is handed of the bits that a session is fed.

use vstd::prelude::*;
use crate::api::bit_lifecycle;
use crate::api::bit_session;
use crate::api::bits;
use crate::api::predictor;

use crate::api::bit_session::{
    BufferedByteUpdateMode, Moved, PrefixKindModel, PrefixModel, SessionFault, SessionModel,
};
use crate::api::bits::{BitOrder, BitStreamSemantics};
use crate::api::predictor::OnlineBytePredictor;

verus! {

/// Session after bits, one by one, until one is refused.
pub open spec fn after_bits<P: OnlineBytePredictor>(
    m: SessionModel<P>,
    seen: Seq<bool>,
    frozen: bool,
) -> Moved<P>
    decreases seen.len(),
{
    if seen.len() == 0 {
        bit_session::done(m)
    } else {
        let before = after_bits(m, seen.drop_last(), frozen);
        if before.fault is Some {
            before
        } else {
            bit_session::bit_taken(before.m, seen.last(), frozen)
        }
    }
}

/// Where bits are symbols, the predictor is handed each of them: zero or one.
pub proof fn law_bits_are_symbols<P: OnlineBytePredictor>(m: SessionModel<P>, bit: bool, frozen: bool)
    requires
        m.semantics is BinaryTokens,
    ensures
        ({
            let after = bit_session::bit_taken(m, bit, frozen);
            &&& after.fault is None
            &&& bit ==> after.m.state == P::after_symbol(m.state, 1, frozen)
            &&& !bit ==> after.m.state == P::after_symbol(m.state, 0, frozen)
            &&& after.m == (SessionModel { state: after.m.state, ..m })
        }),
{
}

proof fn lemma_some_bits<P: OnlineBytePredictor>(
    m: SessionModel<P>,
    order: BitOrder,
    seen: Seq<bool>,
    frozen: bool,
)
    requires
        m.semantics == (BitStreamSemantics::BytePacked { order }),
        m.prefix is None,
        !(order == BitOrder::MsbFirst && P::takes_bits(m.state)),
        0 < seen.len() < 8,
    ensures
        ({
            let after = after_bits(m, seen, frozen);
            &&& after.fault is None
            &&& after.m == (SessionModel {
                prefix: Some(
                    PrefixModel {
                        kind: PrefixKindModel::Mass { table: P::table_in(m.state, frozen), order, seen },
                        mode: Some(bit_session::mode_of(frozen)),
                    },
                ),
                ..m
            })
        }),
    decreases seen.len(),
{
    assert(seen.drop_last().push(seen.last()) =~= seen);
    if seen.len() > 1 {
        lemma_some_bits(m, order, seen.drop_last(), frozen);
    } else {
        assert(seen.drop_last() =~= Seq::empty());
        assert(after_bits(m, seen.drop_last(), frozen) == bit_session::done(m));
    }
}

/// The eight bits of a byte, in the order of the stream, hand the predictor that byte, once, and
/// leave everything else as it was.
pub proof fn law_eight_bits_are_a_byte<P: OnlineBytePredictor>(
    m: SessionModel<P>,
    order: BitOrder,
    symbol: u8,
    frozen: bool,
)
    requires
        m.semantics == (BitStreamSemantics::BytePacked { order }),
        m.prefix is None,
        !(order == BitOrder::MsbFirst && P::takes_bits(m.state)),
    ensures
        ({
            let after = after_bits(m, bits::first_bits(symbol, order, 8), frozen);
            &&& after.fault is None
            &&& after.m == (SessionModel { state: P::after_symbol(m.state, symbol, frozen), ..m })
        }),
{
    let seen = bits::first_bits(symbol, order, 8);
    lemma_some_bits(m, order, seen.drop_last(), frozen);
    assert(seen.drop_last().push(seen.last()) =~= seen);
    bits::law_byte_of_its_bits(symbol, order);
}

/// Before its eighth bit a byte changes nothing but what the session knows of it.
pub proof fn law_a_byte_waits_for_its_bits<P: OnlineBytePredictor>(
    m: SessionModel<P>,
    order: BitOrder,
    seen: Seq<bool>,
    frozen: bool,
)
    requires
        m.semantics == (BitStreamSemantics::BytePacked { order }),
        m.prefix is None,
        !(order == BitOrder::MsbFirst && P::takes_bits(m.state)),
        0 < seen.len() < 8,
    ensures
        ({
            let after = after_bits(m, seen, frozen);
            &&& after.fault is None
            &&& after.m.prefix matches Some(p) && bit_session::seen_in(p) == seen
            &&& after.m.state == m.state && after.m.journal == m.journal
        }),
{
    lemma_some_bits(m, order, seen, frozen);
}

/// Whether a session holds the bits of a byte that the predictor takes bit by bit.
spec fn takes<P: OnlineBytePredictor>(
    m: SessionModel<P>,
    after: SessionModel<P>,
    seen: Seq<bool>,
    frozen: bool,
) -> bool {
    &&& after.semantics == m.semantics && after.scopes == m.scopes && after.code == m.code
    &&& after.prefix matches Some(p) && p.mode == Some(bit_session::mode_of(frozen)) && (match p.kind {
        PrefixKindModel::Native { start, seen: known } => known == seen && (frozen ==> start == Some(
            m.state,
        )),
        PrefixKindModel::Mass { table, order, seen: known } => false,
    })
}

proof fn lemma_some_native_bits<P: OnlineBytePredictor>(m: SessionModel<P>, seen: Seq<bool>, frozen: bool)
    requires
        m.semantics == (BitStreamSemantics::BytePacked { order: BitOrder::MsbFirst }),
        m.prefix is None,
        P::takes_bits(m.state),
        predictor::begins::<P>(m.state),
        0 < seen.len() < 8,
        after_bits(m, seen, frozen).fault is None,
    ensures
        takes(m, after_bits(m, seen, frozen).m, seen, frozen),
    decreases seen.len(),
{
    assert(seen.drop_last().push(seen.last()) =~= seen);
    if seen.len() > 1 {
        lemma_some_native_bits(m, seen.drop_last(), frozen);
    } else {
        assert(seen.drop_last() =~= Seq::empty());
        assert(after_bits(m, seen.drop_last(), frozen) == bit_session::done(m));
    }
}

/// A predictor that takes a byte bit by bit is told in the end which byte it was. A byte that is only
/// conditioned on is taken back first, to where it began, and then handed over whole.
pub proof fn law_bit_by_bit_is_the_byte<P: OnlineBytePredictor>(
    m: SessionModel<P>,
    symbol: u8,
    frozen: bool,
)
    requires
        m.semantics == (BitStreamSemantics::BytePacked { order: BitOrder::MsbFirst }),
        m.prefix is None,
        P::takes_bits(m.state),
        predictor::begins::<P>(m.state),
        after_bits(m, bits::first_bits(symbol, BitOrder::MsbFirst, 8), frozen).fault is None,
    ensures
        ({
            let after = after_bits(m, bits::first_bits(symbol, BitOrder::MsbFirst, 8), frozen).m;
            &&& after.prefix is None
            &&& after.semantics == m.semantics && after.scopes == m.scopes && after.code == m.code
            &&& frozen ==> after.state == P::after_symbol(
                P::prefix_aborted(m.state).state,
                symbol,
                true,
            )
            &&& !frozen ==> exists|s: P::State| after.state == (#[trigger] P::prefix_ended(s, symbol)).state
        }),
{
    let order = BitOrder::MsbFirst;
    let seen = bits::first_bits(symbol, order, 8);
    let few = seen.drop_last();
    assert(few.push(seen.last()) =~= seen);
    lemma_some_native_bits(m, few, frozen);
    bits::law_byte_of_its_bits(symbol, order);
    let mid = after_bits(m, few, frozen).m;
    let o = P::prefix_bit(mid.state, few.len(), seen.last(), frozen);
    let f = P::prefix_ended(o.state, symbol);
    assert(!frozen ==> after_bits(m, seen, frozen).m.state == f.state);
}

/// More bits of a byte that is taken whole.
proof fn lemma_more_bits<P: OnlineBytePredictor>(
    m: SessionModel<P>,
    table: P::Table,
    order: BitOrder,
    seen: Seq<bool>,
    more: Seq<bool>,
    frozen: bool,
)
    requires
        m.semantics == (BitStreamSemantics::BytePacked { order }),
        m.prefix == Some(
            PrefixModel::<P> {
                kind: PrefixKindModel::Mass { table, order, seen },
                mode: Some(bit_session::mode_of(frozen)),
            },
        ),
        seen.len() + more.len() < 8,
    ensures
        ({
            let after = after_bits(m, more, frozen);
            &&& after.fault is None
            &&& after.m == (SessionModel {
                prefix: Some(
                    PrefixModel {
                        kind: PrefixKindModel::Mass { table, order, seen: seen + more },
                        mode: Some(bit_session::mode_of(frozen)),
                    },
                ),
                ..m
            })
        }),
    decreases more.len(),
{
    if more.len() == 0 {
        assert(seen + more =~= seen);
    } else {
        lemma_more_bits(m, table, order, seen, more.drop_last(), frozen);
        assert((seen + more.drop_last()).push(more.last()) =~= seen + more);
    }
}

/// Forgetting checkpoints forgets no bit: what is known of the byte stays known, and how it is taken.
pub proof fn law_clearing_keeps_the_bits<P: OnlineBytePredictor>(m: SessionModel<P>)
    ensures
        ({
            let after = bit_lifecycle::session_cleared(m).0;
            &&& after.m.code == m.code && after.m.semantics == m.semantics && after.m.scopes == m.scopes
            &&& after.fault is None && (m.prefix matches Some(p) && bit_session::seen_in(p).len() > 0)
                ==> (after.m.prefix matches Some(q) && bit_session::seen_in(q) == bit_session::seen_in(
                m.prefix->0,
            ) && q.mode == (m.prefix->0).mode)
            &&& m.prefix is None ==> after.m.prefix is None && after.m.state == m.state
        }),
{
}

/// A byte that the predictor took bit by bit goes on as a whole where checkpoints are forgotten in the
/// middle of it: the predictor is back where the byte began, and is handed the byte with its last bit.
pub proof fn law_cleared_bytes_go_on<P: OnlineBytePredictor>(
    m: SessionModel<P>,
    start: P::State,
    symbol: u8,
    n: nat,
    frozen: bool,
)
    requires
        0 < n < 8,
        m.semantics == (BitStreamSemantics::BytePacked { order: BitOrder::MsbFirst }),
        m.prefix == Some(
            PrefixModel::<P> {
                kind: PrefixKindModel::Native {
                    start: Some(start),
                    seen: bits::first_bits(symbol, BitOrder::MsbFirst, n),
                },
                mode: Some(bit_session::mode_of(frozen)),
            },
        ),
        P::prefix_aborted(start).error is None,
    ensures
        ({
            let (cleared, yes) = bit_lifecycle::session_cleared(m);
            let rest = bits::first_bits(symbol, BitOrder::MsbFirst, 8).skip(n as int);
            let after = after_bits(cleared.m, rest, frozen);
            &&& cleared.fault is None && yes
            &&& cleared.m.state == P::prefix_aborted(start).state
            &&& after.fault is None
            &&& after.m.prefix is None
            &&& after.m.state == P::after_symbol(P::prefix_aborted(start).state, symbol, frozen)
        }),
{
    let order = BitOrder::MsbFirst;
    let (cleared, yes) = bit_lifecycle::session_cleared(m);
    let all = bits::first_bits(symbol, order, 8);
    let seen = bits::first_bits(symbol, order, n);
    let rest = all.skip(n as int);
    assert(seen =~= all.take(n as int));
    assert(bit_session::mode_of(frozen) == BufferedByteUpdateMode::Frozen <==> frozen);
    let table = P::table_in(P::prefix_aborted(start).state, frozen);
    lemma_more_bits(cleared.m, table, order, seen, rest.drop_last(), frozen);
    assert((seen + rest.drop_last()).push(rest.last()) =~= all);
    bits::law_byte_of_its_bits(symbol, order);
}

/// A byte that was begun and is taken whole leaves no trace in the predictor when a stream is begun,
/// reset or ended; one of which bits are known keeps the stream from ending.
pub proof fn law_unfinished_bytes_leave_no_trace<P: OnlineBytePredictor>(
    m: SessionModel<P>,
    total_bits: Option<u64>,
)
    requires
        m.prefix matches Some(p) ==> p.kind is Mass,
    ensures
        bits::symbols_in(total_bits, m.semantics) matches Ok(total) ==> {
            let reset = bit_lifecycle::session_reset(m, total_bits).m;
            let restarted = bit_lifecycle::session_restarted(m, total_bits, m.semantics).m;
            &&& reset.state == P::conditioning_reset(m.state, total).state && reset.prefix is None
            &&& restarted.state == P::stream_restarted(m.state, total).state && restarted.prefix is None
        },
        ({
            let known = m.semantics is BytePacked && (m.prefix matches Some(p) && bit_session::seen_in(
                p,
            ).len() > 0);
            let ended = bit_lifecycle::session_ended(m);
            &&& known ==> ended.fault == Some(SessionFault::PartialByte) && ended.m == m
            &&& !known ==> ended.m.state == P::stream_ended(m.state).state && ended.m.prefix is None
        }),
{
}

} // verus!
