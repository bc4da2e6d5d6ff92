//! Requests to a session that is fed bit by bit.

use vstd::prelude::*;
use crate::api::bit_replay;
use crate::api::predictor;
use crate::api::bits;
use crate::api::bit_session;

use crate::api::bits::{with_bit, BitOrder, BitStreamSemantics};
use crate::api::bit_session::{
    BufferedBytePrefix, BufferedBytePrefixKind, BufferedByteUpdateMode, BytePrefixMass, Moved,
    PrefixKindModel, RateBackendBitSession, SessionError, SessionModel,
};
use crate::api::predictor::OnlineBytePredictor;

verus! {

/// What the next bit is predicted from.
#[derive(Clone, Copy, Debug, PartialEq, Eq, Structural)]
pub enum BitSource {
    /// From the symbols 0 and 1.
    Tokens,
    /// From the distribution of the byte and the bits that are known.
    Mass,
    /// By the predictor, which has taken `bits` bits of the byte.
    Native { bits: usize },
}

/// Session after a prediction.
pub open spec fn predicted<P: OnlineBytePredictor>(m: SessionModel<P>) -> Moved<P> {
    match m.semantics {
        BitStreamSemantics::BinaryTokens => bit_session::done(m),
        BitStreamSemantics::BytePacked { order } => bit_session::begun_byte(m, order, false, false),
    }
}

/// What the next bit is predicted from.
pub open spec fn source_of<P: OnlineBytePredictor>(m: SessionModel<P>) -> BitSource {
    match m.semantics {
        BitStreamSemantics::BinaryTokens => BitSource::Tokens,
        BitStreamSemantics::BytePacked { order } => match (m.prefix->0).kind {
            PrefixKindModel::Mass { table, order, seen } => BitSource::Mass,
            PrefixKindModel::Native { start, seen } => BitSource::Native {
                bits: seen.len() as usize,
            },
        },
    }
}

impl<P: OnlineBytePredictor> RateBackendBitSession<P> {
    /// Gets ready to predict the next bit, and says from what it is predicted.
    pub fn predict_bit(&mut self) -> (result: Result<BitSource, SessionError>)
        requires
            old(self).wf(),
        ensures
            final(self).model() == predicted(old(self).model()).m,
            bit_session::told(result, predicted(old(self).model())),
            result matches Ok(source) ==> source == source_of(final(self).model()),
            final(self).wf(),
            old(self).is_sound() ==> final(self).is_sound(),
    {
        match self.semantics {
            BitStreamSemantics::BinaryTokens => Ok(BitSource::Tokens),
            BitStreamSemantics::BytePacked { order } => {
                match self.ensure_prefix(order, false, false) {
                    Ok(_) => {},
                    Err(e) => {
                        return Err(e);
                    },
                }
                match &self.prefix {
                    Some(p) => match &p.kind {
                        BufferedBytePrefixKind::Mass(BytePrefixMass { table, order, symbol, bits }) => Ok(
                            BitSource::Mass,
                        ),
                        BufferedBytePrefixKind::NativeMsb { start_checkpoint, symbol, bits } => Ok(
                            BitSource::Native { bits: *bits },
                        ),
                    },
                    None => Ok(BitSource::Mass),
                }
            },
        }
    }

    fn take_symbol(&mut self, symbol: u8, frozen: bool)
        ensures
            final(self).model() == (SessionModel {
                state: P::after_symbol(old(self).model().state, symbol, frozen),
                ..old(self).model()
            }),
            final(self).prefix == old(self).prefix,
    {
        if frozen {
            self.predictor.update_frozen(symbol);
        } else {
            self.predictor.update(symbol);
        }
    }

    fn native_byte_bit(
        &mut self,
        start_checkpoint: Option<Box<P::Checkpoint>>,
        symbol: u8,
        bits: usize,
        bit: bool,
        frozen: bool,
    ) -> (result: Result<(), SessionError>)
        requires
            bits < 8,
            symbol == bits::byte_of(
                BitOrder::MsbFirst,
                bits::first_bits(symbol, BitOrder::MsbFirst, bits as nat),
            ),
            frozen && bits > 0 ==> start_checkpoint is Some,
            old(self).prefix is None,
        ensures
            ({
                let seen = bits::first_bits(symbol, BitOrder::MsbFirst, bits as nat);
                let moved = bit_session::native_bit(
                    old(self).model(),
                    bit_session::start_of::<P>(start_checkpoint),
                    seen,
                    bit,
                    frozen,
                );
                final(self).model() == moved.m && bit_session::told(result, moved)
            }),
            final(self).wf(),
    {
        let mode = if frozen {
            BufferedByteUpdateMode::Frozen
        } else {
            BufferedByteUpdateMode::Adaptive
        };
        let ghost seen = bits::first_bits(symbol, BitOrder::MsbFirst, bits as nat);
        let start: Option<Box<P::Checkpoint>> = if start_checkpoint.is_none() && bits == 0 && (
        frozen || self.discardable_scopes == 0) {
            Some(Box::new(self.predictor.native_prefix_start_checkpoint()))
        } else {
            start_checkpoint
        };
        let taken = if frozen {
            self.predictor.condition_native_msb_prefix_bit_for_rollback(bits, bit)
        } else {
            self.predictor.observe_native_msb_prefix_bit(bits, bit)
        };
        if let Err(e) = taken {
            self.prefix = Some(
                BufferedBytePrefix {
                    kind: BufferedBytePrefixKind::NativeMsb {
                        start_checkpoint: start,
                        symbol,
                        bits,
                    },
                    update_mode: Some(mode),
                },
            );
            return Err(SessionError::Predictor(e));
        }
        let now: u8 = with_bit(symbol, BitOrder::MsbFirst, bits, bit);
        let count: usize = bits + 1;
        proof {
            assert(bits::first_bits(now, BitOrder::MsbFirst, count as nat) == seen.push(bit));
        }
        if count < 8 {
            self.prefix = Some(
                BufferedBytePrefix {
                    kind: BufferedBytePrefixKind::NativeMsb {
                        start_checkpoint: start,
                        symbol: now,
                        bits: count,
                    },
                    update_mode: Some(mode),
                },
            );
            return Ok(());
        }
        if frozen {
            if let Some(boxed) = start {
                let checkpoint = *boxed;
                let aborted = self.restore_start_checkpoint_abort_and_discard(checkpoint);
                if let Err(e) = aborted {
                    self.prefix = Some(
                        BufferedBytePrefix {
                            kind: BufferedBytePrefixKind::NativeMsb {
                                start_checkpoint: None,
                                symbol: now,
                                bits: count,
                            },
                            update_mode: Some(mode),
                        },
                    );
                    return Err(SessionError::Predictor(e));
                }
                self.predictor.update_frozen(now);
            }
            return Ok(());
        }
        match self.predictor.finish_native_msb_byte_prefix(now) {
            Err(e) => {
                self.prefix = Some(
                    BufferedBytePrefix {
                        kind: BufferedBytePrefixKind::NativeMsb {
                            start_checkpoint: start,
                            symbol: now,
                            bits: count,
                        },
                        update_mode: Some(mode),
                    },
                );
                Err(SessionError::Predictor(e))
            },
            Ok(_) => {
                if let Some(boxed) = start {
                    self.predictor.discard_checkpoint(*boxed);
                }
                Ok(())
            },
        }
    }

    /// Goes back to the start of a byte, and gives the byte and the checkpoint up.
    pub(crate) fn restore_start_checkpoint_abort_and_discard(&mut self, start: P::Checkpoint) -> (result: Result<
        bool,
        String,
    >)
        ensures
            predictor::answered(result, P::prefix_aborted(P::saved(start))),
            final(self).model() == (SessionModel {
                state: P::prefix_aborted(P::saved(start)).state,
                journal: predictor::released(old(self).model().journal),
                ..old(self).model()
            }),
            final(self).prefix == old(self).prefix,
    {
        self.predictor.restore_checkpoint(&start);
        let result = self.predictor.abort_empty_native_msb_byte_prefix();
        self.predictor.discard_checkpoint(start);
        result
    }

    fn update_byte_packed_bit(&mut self, bit: bool, order: BitOrder, frozen: bool) -> (result: Result<
        (),
        SessionError,
    >)
        requires
            old(self).wf(),
            !bit_session::is_stuck(old(self).model()),
            old(self).semantics == (BitStreamSemantics::BytePacked { order }),
        ensures
            final(self).model() == bit_session::bit_taken(old(self).model(), bit, frozen).m,
            bit_session::told(result, bit_session::bit_taken(old(self).model(), bit, frozen)),
            final(self).wf(),
            old(self).is_sound() ==> final(self).is_sound(),
    {
        match self.ensure_prefix(order, frozen, frozen) {
            Ok(_) => {},
            Err(e) => {
                return Err(e);
            },
        }
        let ghost begun = self.model();
        proof {
            if bit_replay::sound(begun) {
                bit_replay::lemma_bit_sound(begun, bit, frozen);
            }
        }
        let mode = if frozen {
            BufferedByteUpdateMode::Frozen
        } else {
            BufferedByteUpdateMode::Adaptive
        };
        match self.prefix.take() {
            None => Ok(()),
            Some(p) => {
                proof {
                    assert(begun.prefix == Some(p.model()));
                }
                let partial: bool = p.has_partial_bits();
                if let Some(active) = p.update_mode {
                    if partial && active != mode {
                        self.prefix = Some(p);
                        return Err(SessionError::MixedModes { active, requested: mode });
                    }
                }
                match p.kind {
                    BufferedBytePrefixKind::Mass(BytePrefixMass { table, order: o, symbol, bits }) => {
                        let now: u8 = with_bit(symbol, o, bits, bit);
                        let count: usize = bits + 1;
                        if count < 8 {
                            self.prefix = Some(
                                BufferedBytePrefix {
                                    kind: BufferedBytePrefixKind::Mass(BytePrefixMass {
                                        table,
                                        order: o,
                                        symbol: now,
                                        bits: count,
                                    }),
                                    update_mode: Some(mode),
                                },
                            );
                        } else {
                            self.take_symbol(now, frozen);
                        }
                        Ok(())
                    },
                    BufferedBytePrefixKind::NativeMsb { start_checkpoint, symbol, bits } => {
                        self.native_byte_bit(start_checkpoint, symbol, bits, bit, frozen)
                    },
                }
            },
        }
    }

    /// Fits one bit.
    pub fn try_observe_bit(&mut self, bit: bool) -> (result: Result<(), SessionError>)
        requires
            old(self).wf(),
            !bit_session::is_stuck(old(self).model()),
        ensures
            final(self).model() == bit_session::bit_taken(old(self).model(), bit, false).m,
            bit_session::told(result, bit_session::bit_taken(old(self).model(), bit, false)),
            final(self).wf(),
            old(self).is_sound() ==> final(self).is_sound(),
    {
        match self.semantics {
            BitStreamSemantics::BinaryTokens => {
                self.predictor.update(
                    if bit {
                        1
                    } else {
                        0
                    },
                );
                Ok(())
            },
            BitStreamSemantics::BytePacked { order } => self.update_byte_packed_bit(
                bit,
                order,
                false,
            ),
        }
    }

    /// Conditions on one bit.
    pub fn try_condition_bit(&mut self, bit: bool) -> (result: Result<(), SessionError>)
        requires
            old(self).wf(),
            !bit_session::is_stuck(old(self).model()),
        ensures
            final(self).model() == bit_session::bit_taken(old(self).model(), bit, true).m,
            bit_session::told(result, bit_session::bit_taken(old(self).model(), bit, true)),
            final(self).wf(),
            old(self).is_sound() ==> final(self).is_sound(),
    {
        match self.semantics {
            BitStreamSemantics::BinaryTokens => {
                self.predictor.update_frozen(
                    if bit {
                        1
                    } else {
                        0
                    },
                );
                Ok(())
            },
            BitStreamSemantics::BytePacked { order } => self.update_byte_packed_bit(
                bit,
                order,
                true,
            ),
        }
    }
}

} // verus!
