//! The predictive model: an automaton of all text seen, and a language model over its contexts.

use vstd::prelude::*;
use crate::backends::rosaplus::tallies;
use crate::backends::rosaplus::sam_walk;
use crate::backends::rosaplus::sam;
use crate::backends::rosaplus::lm_build;
use crate::backends::rosaplus::lm;

use crate::backends::rosaplus::lm::{LM, LmModel};
use crate::backends::rosaplus::rng::{RngModel, RngStream};
use crate::backends::rosaplus::sam::{Sam, SamModel, SamSnapshot, SamTx};
use crate::backends::rosaplus::tallies::{TallyLog, TallyModel, TallySnapshot};

verus! {

/// Suffix-automaton predictor with transactional updates.
pub struct RosaPlus {
    pub max_order: i64,
    pub use_eot: bool,
    pub eot: u32,
    pub seed: u64,
    pub sam: Sam,
    pub lm: LM,
    pub lm_built: bool,
    pub rng: RngStream,
}

/// The predictor as a mathematical object.
#[verifier::ext_equal]
pub struct RosaModel {
    pub max_order: int,
    pub use_eot: bool,
    pub eot: u32,
    pub seed: u64,
    pub sam: SamModel,
    pub lm: LmModel,
    pub lm_built: bool,
    pub rng: RngModel,
}

/// Everything the predictor holds, down to the layout of its tables.
#[verifier::ext_equal]
pub struct RosaSnapshot {
    pub max_order: i64,
    pub use_eot: bool,
    pub eot: u32,
    pub seed: u64,
    pub sam: SamSnapshot,
    pub tallies: TallySnapshot,
    pub alphabet: Seq<u32>,
    pub unigram: Seq<u64>,
    pub alpha_n: u32,
    pub total_uni: u64,
    pub has_byte_map: bool,
    pub byte_map: Seq<i16>,
    pub lm_built: bool,
    pub rng: RngModel,
}

/// A full copy of a predictor.
pub struct RosaCheckpoint {
    model: RosaPlus,
}

/// What a temporary update changed.
pub struct RosaTx {
    pub sam: SamTx,
    pub lm: LmTx,
    pub seg_start: usize,
    pub seg_len: usize,
    pub old_lm_built: bool,
    /// The predictor when the transaction began.
    pub base: Ghost<RosaSnapshot>,
}

/// What a temporary update changed in the language model.
pub struct LmTx {
    pub log: TallyLog,
    pub uni_delta: Vec<u64>,
    pub total_uni_add: u64,
}

// ---------------------------------------------------------------------------------------
// Mathematical model of training
// ---------------------------------------------------------------------------------------

/// Bytes as symbols.
pub open spec fn symbols(bytes: Seq<u8>) -> Seq<u32> {
    bytes.map_values(|b: u8| b as u32)
}

/// The automaton after all of `syms`.
pub open spec fn fed_all(m: SamModel, syms: Seq<u32>) -> SamModel
    decreases syms.len(),
{
    if syms.len() == 0 {
        m
    } else {
        fed_all(sam::fed(m, syms[0]), syms.drop_first())
    }
}

/// Whether the automaton can be numbered after each of `syms`.
pub open spec fn fits_all(m: SamModel, syms: Seq<u32>) -> bool
    decreases syms.len(),
{
    syms.len() == 0 || (sam::fits(sam::fed(m, syms[0])) && fits_all(sam::fed(m, syms[0]), syms.drop_first()))
}

/// What [`RosaPlus::train_example`] appends for `bytes`.
pub open spec fn example_symbols(m: RosaModel, bytes: Seq<u8>) -> Seq<u32> {
    if m.use_eot {
        symbols(bytes).push(m.eot)
    } else {
        symbols(bytes)
    }
}

/// The predictor after an example.
pub open spec fn with_example(m: RosaModel, bytes: Seq<u8>) -> RosaModel {
    if bytes.len() == 0 {
        m
    } else {
        RosaModel {
            sam: sam::bounded(fed_all(m.sam, example_symbols(m, bytes))),
            lm_built: false,
            ..m
        }
    }
}

/// The language model of an automaton over its own symbols.
pub open spec fn is_own_lm(lm: LmModel, sam: SamModel, max_order: int) -> bool {
    &&& lm::is_alphabet(lm.alphabet, sam.text)
    &&& lm::is_unigram(lm.unigram, lm.alphabet, sam.text)
    &&& lm.total_uni == (if sam.text.len() == 0 {
        1
    } else {
        sam.text.len()
    })
    &&& lm.tallies == lm_build::built_tallies(sam, max_order, lm.alphabet)
}

/// Whether the counts of an automaton's text over its own symbols can be numbered.
pub open spec fn can_build_lm(sam: SamModel, max_order: int) -> bool {
    forall|alphabet: Seq<u32>| #[trigger]
        lm::is_alphabet(alphabet, sam.text) ==> tallies::nodes_needed(lm_build::built_tallies(sam, max_order, alphabet))
            <= u32::MAX
}

/// All byte values in order.
pub open spec fn all_bytes() -> Seq<u32> {
    Seq::new(256, |c: int| c as u32)
}

/// Number of symbols of `text` that are bytes.
pub open spec fn byte_symbols(text: Seq<u32>) -> nat
    decreases text.len(),
{
    if text.len() == 0 {
        0
    } else {
        byte_symbols(text.drop_last()) + if text.last() < 256 {
            1nat
        } else {
            0
        }
    }
}

/// The language model of an automaton over all byte values.
pub open spec fn byte_lm(sam: SamModel, max_order: int) -> LmModel {
    let total = byte_symbols(sam.text);
    LmModel {
        alphabet: all_bytes(),
        unigram: Seq::new(
            256,
            |c: int|
                if total == 0 {
                    1u64
                } else {
                    lm::times(sam.text, c as u32) as u64
                },
        ),
        total_uni: if total == 0 {
            256
        } else {
            total
        },
        tallies: lm_build::built_tallies(sam, max_order, all_bytes()),
    }
}

/// `ts` after `sym` was counted once behind the first `k` contexts of `path`.
pub open spec fn along_path(ts: Seq<TallyModel>, path: Seq<int>, sym: u32, k: int) -> Seq<TallyModel>
    decreases k,
{
    if k <= 0 {
        ts
    } else {
        tallies::bumped(along_path(ts, path, sym, k - 1), path[k - 1], sym, 1)
    }
}

/// `ts` after the symbol at `i + 1` was counted behind every context that ends at `i`.
pub open spec fn with_transition(
    ts: Seq<TallyModel>,
    m: SamModel,
    max_order: int,
    alphabet: Seq<u32>,
    i: int,
) -> Seq<TallyModel> {
    let sym = lm::symbol_index(alphabet, m.text[i + 1]);
    let path = sam::path_of(m.states, sam_walk::capped(m.states, max_order, m.text_states[i + 1]));
    if sym >= 0 {
        along_path(ts, path, sym as u32, path.len() as int)
    } else {
        ts
    }
}

/// `ts` after the transitions from `from` up to but without `to` were counted.
pub open spec fn with_transitions(
    ts: Seq<TallyModel>,
    m: SamModel,
    max_order: int,
    alphabet: Seq<u32>,
    from: int,
    to: int,
) -> Seq<TallyModel>
    decreases to - from,
{
    if from >= to {
        ts
    } else {
        with_transition(
            with_transitions(ts, m, max_order, alphabet, from, to - 1),
            m,
            max_order,
            alphabet,
            to - 1,
        )
    }
}

/// `ts` with contexts that nothing followed added until there are `n`.
pub open spec fn grown(ts: Seq<TallyModel>, n: nat) -> Seq<TallyModel> {
    if ts.len() < n {
        ts + lm_build::no_tallies((n - ts.len()) as nat)
    } else {
        ts
    }
}

/// First transition that new text behind the first `start` symbols adds: the one into it, where
/// the text goes on without a boundary, or the first inside.
pub open spec fn first_transition(m: SamModel, start: int, separate: bool) -> int {
    if !separate && start > 0 && m.boundary_after[start - 1] == 0 {
        start - 1
    } else {
        start
    }
}

/// Occurrences of the byte `c` in `bytes`.
pub open spec fn byte_times(bytes: Seq<u8>, c: u8) -> nat
    decreases bytes.len(),
{
    if bytes.len() == 0 {
        0
    } else {
        byte_times(bytes.drop_last(), c) + if bytes.last() == c {
            1nat
        } else {
            0
        }
    }
}

/// The predictor after `bytes` were learned on top of its language model over all byte values;
/// `separate` text gets a boundary of its own.
pub open spec fn with_bytes_learned(m: RosaModel, bytes: Seq<u8>, separate: bool) -> RosaModel {
    if bytes.len() == 0 {
        m
    } else {
        let fed_sam = fed_all(m.sam, symbols(bytes));
        let sam = if separate {
            sam::bounded(fed_sam)
        } else {
            fed_sam
        };
        let start = m.sam.text.len() as int;
        RosaModel {
            sam,
            lm: LmModel {
                unigram: Seq::new(
                    m.lm.unigram.len(),
                    |c: int| (m.lm.unigram[c] + byte_times(bytes, c as u8)) as u64,
                ),
                total_uni: m.lm.total_uni + bytes.len(),
                tallies: with_transitions(
                    grown(m.lm.tallies, sam.states.len()),
                    sam,
                    m.max_order,
                    m.lm.alphabet,
                    first_transition(sam, start, separate),
                    sam.text.len() - 1,
                ),
                ..m.lm
            },
            lm_built: true,
            ..m
        }
    }
}

/// Whether the language model is over all byte values.
pub open spec fn is_byte_model(m: RosaModel) -> bool {
    m.lm.alphabet == all_bytes()
}

/// The predictor with a language model over all byte values, built anew if there is none.
pub open spec fn with_byte_lm(m: RosaModel) -> RosaModel {
    if m.lm_built && is_byte_model(m) {
        m
    } else {
        RosaModel { lm: byte_lm(m.sam, m.max_order), lm_built: true, ..m }
    }
}

/// Whether learning `bytes` stays within the index spaces.
pub open spec fn can_learn(m: RosaModel, bytes: Seq<u8>, separate: bool) -> bool {
    &&& fits_all(m.sam, symbols(bytes))
    &&& tallies::nodes_needed(with_bytes_learned(m, bytes, separate).lm.tallies) <= u32::MAX
}

/// Whether learning `bytes` as a continuation stays within the index spaces.
pub open spec fn can_extend(m: RosaModel, bytes: Seq<u8>) -> bool {
    &&& m.lm_built && is_byte_model(m) || tallies::nodes_needed(
        lm_build::built_tallies(m.sam, m.max_order, all_bytes()),
    ) <= u32::MAX
    &&& can_learn(with_byte_lm(m), bytes, false)
}

// ---------------------------------------------------------------------------------------
// Consistency
// ---------------------------------------------------------------------------------------

/// A snapshot is that of a consistent predictor.
pub open spec fn rosa_wf(s: RosaSnapshot) -> bool {
    &&& sam::snapshot_wf(s.sam)
    &&& tallies::tallies_wf(s.tallies)
    &&& s.eot < 256
    &&& lm::index_ok(s.alphabet, s.unigram, s.alpha_n, s.has_byte_map, s.byte_map)
    &&& s.tallies.ls.len() <= s.sam.st.len()
    &&& forall|v: int|
        #![trigger s.tallies.ls[v]]
        0 <= v < s.tallies.ls.len() ==> s.tallies.ls[v].total_n <= 2 * s.sam.text.len()
    &&& s.total_uni <= s.sam.text.len() + 256
    &&& forall|c: int|
        0 <= c < s.unigram.len() ==> #[trigger] s.unigram[c] <= s.sam.text.len() + 1
}

impl View for RosaPlus {
    type V = RosaModel;

    open spec fn view(&self) -> RosaModel {
        RosaModel {
            max_order: self.max_order as int,
            use_eot: self.use_eot,
            eot: self.eot,
            seed: self.seed,
            sam: self.sam@,
            lm: self.lm@,
            lm_built: self.lm_built,
            rng: self.rng@,
        }
    }
}

impl RosaPlus {
    /// Contents.
    pub open spec fn snap(&self) -> RosaSnapshot {
        RosaSnapshot {
            max_order: self.max_order,
            use_eot: self.use_eot,
            eot: self.eot,
            seed: self.seed,
            sam: self.sam.snap(),
            tallies: self.lm.tallies.snap(),
            alphabet: self.lm.alphabet@,
            unigram: self.lm.unigram@,
            alpha_n: self.lm.alpha_n,
            total_uni: self.lm.total_uni,
            has_byte_map: self.lm.has_byte_map,
            byte_map: self.lm.byte_map@,
            lm_built: self.lm_built,
            rng: self.rng@,
        }
    }

    /// The predictor is consistent.
    pub open spec fn wf(&self) -> bool {
        &&& self.sam.wf()
        &&& self.lm.wf()
        &&& self.rng.wf()
        &&& rosa_wf(self.snap())
    }
}

impl RosaCheckpoint {
    /// The predictor that was kept.
    pub closed spec fn saved(&self) -> RosaSnapshot {
        self.model.snap()
    }

    /// The predictor that was kept is consistent.
    pub closed spec fn wf(&self) -> bool {
        self.model.wf()
    }

    /// Keeps `model`.
    pub fn of(model: RosaPlus) -> (ck: RosaCheckpoint)
        requires
            model.wf(),
        ensures
            ck.wf(),
            ck.saved() == model.snap(),
    {
        RosaCheckpoint { model }
    }

    /// The predictor that was kept.
    pub fn held(&self) -> (model: &RosaPlus)
        requires
            self.wf(),
        ensures
            model.wf(),
            model.snap() == self.saved(),
    {
        &self.model
    }
}

/// The transaction leads from the predictor `s` back to the one it began with.
pub open spec fn rosa_tx_ok(tx: RosaTx, s: RosaSnapshot) -> bool {
    let b = tx.base@;
    &&& rosa_wf(b)
    &&& tx.sam.base@ == b.sam
    &&& sam::tx_ok(tx.sam, s.sam)
    &&& tx.lm.log.base@ == b.tallies
    &&& tallies::tally_log_ok(tx.lm.log, s.tallies.ls, s.tallies.nodes)
    &&& tx.seg_start == b.sam.text.len()
    &&& tx.old_lm_built == b.lm_built
    &&& tx.lm.uni_delta@.len() == 256
    &&& s == (RosaSnapshot {
        sam: s.sam,
        tallies: s.tallies,
        unigram: s.unigram,
        total_uni: s.total_uni,
        lm_built: s.lm_built,
        ..b
    })
    &&& s.unigram.len() == b.unigram.len()
    &&& forall|c: int|
        0 <= c < s.unigram.len() ==> #[trigger] s.unigram[c] == b.unigram[c] + (if c < 256 {
            tx.lm.uni_delta@[c]
        } else {
            0
        })
    &&& s.total_uni == b.total_uni + tx.lm.total_uni_add
}

} // verus!
