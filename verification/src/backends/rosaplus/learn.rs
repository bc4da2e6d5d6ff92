//! The predictor's public operations: building the language model, training, rolling back.

use vstd::prelude::*;
use crate::backends::rosaplus::train;
use crate::backends::rosaplus::tallies;
use crate::backends::rosaplus::sam_walk;
use crate::backends::rosaplus::sam;
use crate::backends::rosaplus::model;
use crate::backends::rosaplus::lm_build;
use crate::backends::rosaplus::lm;

use crate::backends::rosaplus::lm::{LM, LmModel};
use crate::backends::rosaplus::model::{LmTx, RosaCheckpoint, RosaModel, RosaPlus, RosaSnapshot, RosaTx};
use crate::backends::rosaplus::rng::{RngModel, RngStream, ROSA_RNG_START};
use crate::backends::rosaplus::sam::{Sam, SamModel};

verus! {

proof fn lemma_byte_symbols(text: Seq<u32>)
    ensures
        model::byte_symbols(text) <= text.len(),
    decreases text.len(),
{
    if text.len() > 0 {
        lemma_byte_symbols(text.drop_last());
    }
}

proof fn lemma_times_bytes(text: Seq<u32>, c: u32)
    requires
        c < 256,
    ensures
        lm::times(text, c) <= model::byte_symbols(text),
    decreases text.len(),
{
    if text.len() > 0 {
        lemma_times_bytes(text.drop_last(), c);
    }
}

/// The alphabet of all byte values.
fn byte_alphabet() -> (alphabet: Vec<u32>)
    ensures
        alphabet@ == model::all_bytes(),
{
    let mut alphabet: Vec<u32> = Vec::new();
    while alphabet.len() < 256
        invariant
            alphabet@.len() <= 256,
            forall|c: int| 0 <= c < alphabet@.len() ==> #[trigger] alphabet@[c] == c,
        decreases 256 - alphabet@.len(),
    {
        let c: u32 = alphabet.len() as u32;
        alphabet.push(c);
    }
    proof {
        assert(alphabet@ =~= model::all_bytes());
    }
    alphabet
}

/// 256 times `value`.
fn byte_table(value: u64) -> (table: Vec<u64>)
    ensures
        table@ == Seq::new(256, |c: int| value),
{
    let mut table: Vec<u64> = Vec::new();
    while table.len() < 256
        invariant
            table@.len() <= 256,
            forall|c: int| 0 <= c < table@.len() ==> #[trigger] table@[c] == value,
        decreases 256 - table@.len(),
    {
        table.push(value);
    }
    proof {
        assert(table@ =~= Seq::new(256, |c: int| value));
    }
    table
}

impl RosaPlus {
    /// A predictor that has seen nothing. A negative `max_order` sets no limit on contexts.
    pub fn new(max_order: i64, use_eot: bool, eot_char: u8, seed: u64) -> (model: RosaPlus)
        ensures
            model.wf(),
            model@ == (RosaModel {
                max_order: max_order as int,
                use_eot,
                eot: eot_char as u32,
                seed,
                sam: sam::empty_sam(),
                lm: LmModel {
                    alphabet: Seq::empty(),
                    unigram: Seq::empty(),
                    total_uni: 0,
                    tallies: Seq::empty(),
                },
                lm_built: false,
                rng: RngModel { buf: Seq::empty(), pos: 0, xs: ROSA_RNG_START },
            }),
    {
        RosaPlus {
            max_order,
            use_eot,
            eot: eot_char as u32,
            seed,
            sam: Sam::new(),
            lm: LM::new(),
            lm_built: false,
            rng: RngStream::new(),
        }
    }

    /// Draws random numbers from `bytes` from now on, where there are enough of them.
    pub fn set_rng_bytes(&mut self, bytes: Vec<u8>)
        requires
            old(self).wf(),
        ensures
            final(self).wf(),
            final(self).snap() == (RosaSnapshot { rng: final(self).rng@, ..old(self).snap() }),
            final(self).rng@ == (if bytes@.len() >= 8 {
                RngModel {
                    buf: bytes@,
                    pos: (old(self).seed.wrapping_mul(8) as usize) as int % bytes@.len() as int,
                    xs: ROSA_RNG_START,
                }
            } else {
                RngModel { buf: Seq::empty(), pos: 0, xs: ROSA_RNG_START }
            }),
    {
        self.rng = RngStream::with_bytes(self.seed, bytes);
    }

    /// Appends one example, its end marker if there is one, and a boundary. The language model
    /// has to be built again afterwards.
    pub fn train_example(&mut self, s: &[u8])
        requires
            old(self).wf(),
            model::fits_all(old(self)@.sam, model::example_symbols(old(self)@, s@)),
        ensures
            final(self).wf(),
            final(self)@ == model::with_example(old(self)@, s@),
    {
        if s.len() == 0 {
            return ;
        }
        let mut appended: Vec<u32> = Vec::new();
        let mut i: usize = 0;
        while i < s.len()
            invariant
                i <= s@.len(),
                appended@ == model::symbols(s@).take(i as int),
            decreases s@.len() - i,
        {
            appended.push(s[i] as u32);
            i += 1;
            proof {
                assert(appended@ =~= model::symbols(s@).take(i as int));
            }
        }
        if self.use_eot {
            appended.push(self.eot);
        }
        proof {
            assert(appended@ =~= model::example_symbols(old(self)@, s@));
        }
        self.sam.feed_symbols(appended.as_slice());
        self.sam.mark_boundary();
        self.lm_built = false;
        proof {
            assert forall|v: int|
                #![trigger self.lm.tallies.ls@[v]]
                0 <= v < self.lm.tallies.ls@.len() implies self.lm.tallies.ls@[v].total_n <= 2
                * self.sam.text@.len() by {
                assert(old(self).snap().tallies.ls[v].total_n <= 2 * old(self).sam.text@.len());
            }
            assert forall|c: int| 0 <= c < self.lm.unigram@.len() implies #[trigger] self.lm.unigram@[c]
                <= self.sam.text@.len() + 1 by {
                assert(old(self).snap().unigram[c] <= old(self).sam.text@.len() + 1);
            }
        }
    }

    /// Appends symbols to the automaton alone.
    pub fn feed_symbols(&mut self, symbols: &[u32])
        requires
            old(self).wf(),
            model::fits_all(old(self)@.sam, symbols@),
        ensures
            final(self).wf(),
            final(self)@ == (RosaModel { sam: model::fed_all(old(self)@.sam, symbols@), ..old(self)@ }),
    {
        self.sam.feed_symbols(symbols);
        proof {
            assert forall|v: int|
                #![trigger self.lm.tallies.ls@[v]]
                0 <= v < self.lm.tallies.ls@.len() implies self.lm.tallies.ls@[v].total_n <= 2
                * self.sam.text@.len() by {
                assert(old(self).snap().tallies.ls[v].total_n <= 2 * old(self).sam.text@.len());
            }
            assert forall|c: int| 0 <= c < self.lm.unigram@.len() implies #[trigger] self.lm.unigram@[c]
                <= self.sam.text@.len() + 1 by {
                assert(old(self).snap().unigram[c] <= old(self).sam.text@.len() + 1);
            }
        }
    }

    /// Forgets the text and the language model.
    pub fn restart(&mut self)
        requires
            old(self).wf(),
        ensures
            final(self).wf(),
            final(self)@ == (RosaModel {
                sam: sam::empty_sam(),
                lm: LmModel {
                    alphabet: Seq::empty(),
                    unigram: Seq::empty(),
                    total_uni: 0,
                    tallies: Seq::empty(),
                },
                lm_built: false,
                ..old(self)@
            }),
    {
        self.sam = Sam::new();
        self.lm = LM::new();
        self.lm_built = false;
    }

    /// Builds the language model over the symbols of the text.
    pub fn build_lm_no_finalize_endpos(&mut self)
        requires
            old(self).wf(),
            model::can_build_lm(old(self)@.sam, old(self)@.max_order),
        ensures
            final(self).wf(),
            model::is_own_lm(final(self)@.lm, old(self)@.sam, old(self)@.max_order),
            final(self)@ == (RosaModel { lm: final(self)@.lm, lm_built: true, ..old(self)@ }),
            final(self).lm.tallies.ls@.len() == final(self).sam.st@.len(),
    {
        let mut lm = LM::new();
        lm.build_alphabet(&self.sam.text);
        proof {
            assert(lm::is_alphabet(lm.alphabet@, self@.sam.text));
        }
        lm.build_counts(&self.sam, self.max_order);
        proof {
            let text = self.sam.text@;
            assert forall|c: int| 0 <= c < lm.unigram@.len() implies #[trigger] lm.unigram@[c]
                <= text.len() + 1 by {
                lm::lemma_times_bound(text, lm.alphabet@[c]);
            }
            assert forall|v: int|
                #![trigger lm.tallies.ls@[v]]
                0 <= v < lm.tallies.ls@.len() implies lm.tallies.ls@[v].total_n <= 2
                * text.len() by {
                assert(lm.tallies@[v].total <= 2 * text.len());
            }
        }
        self.lm = lm;
        self.lm_built = true;
    }

    /// Builds the language model after handing end positions to the shorter contexts.
    pub fn build_lm(&mut self)
        requires
            old(self).wf(),
            model::can_build_lm(sam_walk::ends_handed_up(old(self)@.sam), old(self)@.max_order),
        ensures
            final(self).wf(),
            model::is_own_lm(
                final(self)@.lm,
                sam_walk::ends_handed_up(old(self)@.sam),
                old(self)@.max_order,
            ),
            final(self)@ == (RosaModel {
                sam: sam_walk::ends_handed_up(old(self)@.sam),
                lm: final(self)@.lm,
                lm_built: true,
                ..old(self)@
            }),
            final(self).lm.tallies.ls@.len() == final(self).sam.st@.len(),
    {
        self.sam.finalize_endpos();
        proof {
            assert(self.sam.text@ == self.sam@.text);
            assert(old(self).sam.text@ == old(self).sam@.text);
            lemma_rosa_moved(old(self).snap(), self.snap());
        }
        self.build_lm_no_finalize_endpos();
    }

    /// Builds the language model unless it is built.
    pub fn ensure_lm_built_no_finalize_endpos(&mut self)
        requires
            old(self).wf(),
            !old(self).lm_built ==> model::can_build_lm(old(self)@.sam, old(self)@.max_order),
        ensures
            final(self).wf(),
            old(self).lm_built ==> *final(self) == *old(self),
            !old(self).lm_built ==> {
                &&& model::is_own_lm(final(self)@.lm, old(self)@.sam, old(self)@.max_order)
                &&& final(self)@ == (RosaModel {
                    lm: final(self)@.lm,
                    lm_built: true,
                    ..old(self)@
                })
            },
    {
        if !self.lm_built {
            self.build_lm_no_finalize_endpos();
        }
    }

    /// Builds the language model over all byte values.
    pub fn build_lm_full_bytes_no_finalize_endpos(&mut self)
        requires
            old(self).wf(),
            tallies::nodes_needed(lm_build::built_tallies(old(self)@.sam, old(self)@.max_order, model::all_bytes()))
                <= u32::MAX,
        ensures
            final(self).wf(),
            final(self)@ == (RosaModel {
                lm: model::byte_lm(old(self)@.sam, old(self)@.max_order),
                lm_built: true,
                ..old(self)@
            }),
            final(self).lm.tallies.ls@.len() == final(self).sam.st@.len(),
    {
        let ghost text = self.sam.text@;
        let n: usize = self.sam.text.len();
        let mut lm = LM::new();
        lm.alphabet = byte_alphabet();
        lm.alpha_n = 256;
        let mut counts = byte_table(0);
        let mut total: u64 = 0;
        let mut i: usize = 0;
        while i < n
            invariant
                i <= n == text.len(),
                text == self.sam.text@,
                *self == *old(self),
                counts@.len() == 256,
                total == model::byte_symbols(text.take(i as int)),
                total <= i,
                forall|c: int|
                    0 <= c < 256 ==> #[trigger] counts@[c] == lm::times(
                        text.take(i as int),
                        c as u32,
                    ),
            decreases n - i,
        {
            let v: u32 = self.sam.text[i];
            let ghost seen = text.take(i as int);
            let ghost now = text.take(i + 1);
            proof {
                assert(now.drop_last() =~= seen);
                assert(now.last() == v);
                lemma_byte_symbols(now);
            }
            if v < 256 {
                let cnt: u64 = counts[v as usize];
                proof {
                    assert(counts@[v as int] == lm::times(seen, v));
                    lm::lemma_times_bound(seen, v);
                }
                counts.set(v as usize, cnt + 1);
                total = total + 1;
            }
            i += 1;
        }
        proof {
            assert(text.take(n as int) =~= text);
            lemma_byte_symbols(text);
        }
        if total == 0 {
            counts = byte_table(1);
            total = 256;
        }
        lm.unigram = counts;
        lm.total_uni = total;
        proof {
            assert forall|c: u32| c < 256 implies #[trigger] lm::symbol_index(model::all_bytes(), c) == c by {
                train::lemma_all_bytes(c);
            }
            train::lemma_all_bytes(0);
        }
        lm.index_bytes();
        lm.build_counts(&self.sam, self.max_order);
        proof {
            assert(lm.unigram@ =~= model::byte_lm(self.sam@, self.max_order as int).unigram) by {
                assert forall|c: int| 0 <= c < 256 implies lm.unigram@[c] == model::byte_lm(
                    self.sam@,
                    self.max_order as int,
                ).unigram[c] by {
                    lm::lemma_times_bound(text, c as u32);
                }
            }
            assert forall|c: int| 0 <= c < lm.unigram@.len() implies #[trigger] lm.unigram@[c]
                <= text.len() + 1 by {
                lm::lemma_times_bound(text, c as u32);
            }
            assert forall|v: int|
                #![trigger lm.tallies.ls@[v]]
                0 <= v < lm.tallies.ls@.len() implies lm.tallies.ls@[v].total_n <= 2
                * text.len() by {
                assert(lm.tallies@[v].total <= 2 * text.len());
            }
        }
        self.lm = lm;
        self.lm_built = true;
    }

    /// Begins a reversible update.
    pub fn begin_tx(&self) -> (tx: RosaTx)
        requires
            self.wf(),
        ensures
            model::rosa_tx_ok(tx, self.snap()),
            tx.base@ == self.snap(),
    {
        RosaTx {
            sam: self.sam.begin_tx(),
            lm: LmTx { log: self.lm.tallies.begin_log(), uni_delta: byte_table(0), total_uni_add: 0 },
            seg_start: self.sam.text.len(),
            seg_len: 0,
            old_lm_built: self.lm_built,
            base: Ghost(self.snap()),
        }
    }

    /// Learns `s` as an example of its own, on top of a language model over all byte values.
    pub fn train_example_tx(&mut self, tx: &mut RosaTx, s: &[u8])
        requires
            old(self).wf(),
            model::rosa_tx_ok(*old(tx), old(self).snap()),
            model::is_byte_model(old(self)@),
            model::can_learn(old(self)@, s@, true),
        ensures
            final(self).wf(),
            final(self)@ == model::with_bytes_learned(old(self)@, s@, true),
            model::rosa_tx_ok(*final(tx), final(self).snap()),
            final(tx).base@ == old(tx).base@,
    {
        self.train_example_tx_impl(tx, s, true);
    }

    /// Learns `s` as the continuation of the text, on top of a language model over all byte
    /// values.
    pub fn train_sequence_tx(&mut self, tx: &mut RosaTx, s: &[u8])
        requires
            old(self).wf(),
            model::rosa_tx_ok(*old(tx), old(self).snap()),
            model::is_byte_model(old(self)@),
            model::can_learn(old(self)@, s@, false),
        ensures
            final(self).wf(),
            final(self)@ == model::with_bytes_learned(old(self)@, s@, false),
            model::rosa_tx_ok(*final(tx), final(self).snap()),
            final(tx).base@ == old(tx).base@,
    {
        self.train_example_tx_impl(tx, s, false);
    }

    fn train_example_tx_impl(&mut self, tx: &mut RosaTx, s: &[u8], mark_boundary: bool)
        requires
            old(self).wf(),
            model::rosa_tx_ok(*old(tx), old(self).snap()),
            model::is_byte_model(old(self)@),
            model::can_learn(old(self)@, s@, mark_boundary),
        ensures
            final(self).wf(),
            final(self)@ == model::with_bytes_learned(old(self)@, s@, mark_boundary),
            model::rosa_tx_ok(*final(tx), final(self).snap()),
            final(tx).base@ == old(tx).base@,
    {
        let n: usize = s.len();
        if n == 0 {
            return ;
        }
        let ghost m0 = self@;
        let ghost bytes = s@;
        let ghost base = tx.base@;
        let ghost goal = model::with_bytes_learned(m0, bytes, mark_boundary);
        let start: usize = self.sam.text.len();
        self.sam.feed_bytes_tx(&mut tx.sam, s);
        if mark_boundary {
            self.sam.mark_boundary();
        }
        proof {
            assert(self.sam@ == goal.sam);
            assert(self.sam.text@.len() == start + n);
            assert(self.sam.text@ == self.sam@.text);
            assert(self.sam.boundary_after@ == self.sam@.boundary_after);
        }
        let ghost ls0 = self.lm.tallies.ls@;
        let ghost ts0 = self.lm.tallies@;
        self.lm.tallies.grow_tx(&mut tx.lm.log, self.sam.st.len());
        proof {
            assert(self.lm.tallies@ =~= model::grown(ts0, self.sam.st@.len()));
            assert(old(self).lm.unigram@.len() == 256);
        }
        let ghost u0 = self.lm.unigram@;
        let ghost d0 = tx.lm.uni_delta@;
        proof {
            assert forall|c: int| 0 <= c < 256 implies #[trigger] u0[c] + n <= u64::MAX && d0[c]
                + n <= u64::MAX by {
                assert(old(self).snap().unigram[c] <= start + 1);
                assert(old(self).snap().unigram[c] == base.unigram[c] + d0[c]);
            }
        }
        add_bytes(&mut self.lm.unigram, s);
        proof {
            assert forall|c: int| 0 <= c < 256 implies #[trigger] tx.lm.uni_delta@[c] + n
                <= u64::MAX by {
                assert(u0[c] + n <= u64::MAX);
            }
        }
        add_bytes(&mut tx.lm.uni_delta, s);
        self.lm.total_uni = self.lm.total_uni + n as u64;
        tx.lm.total_uni_add = tx.lm.total_uni_add + n as u64;
        tx.seg_len = start + n - tx.seg_start;
        let mut from: usize = start;
        if !mark_boundary && start > 0 && self.sam.boundary_after[start - 1] == 0 {
            from = start - 1;
        }
        proof {
            assert(self.lm.alphabet_wf());
            assert forall|v: int| 0 <= v < self.lm.tallies@.len() implies (#[trigger] self.lm.tallies@[v]).total
                <= 2 * start by {
                if v < ls0.len() {
                    assert(old(self).snap().tallies.ls[v].total_n <= 2 * start);
                    assert(ts0[v].total <= 2 * start);
                }
            }
            assert(from == model::first_transition(goal.sam, start as int, mark_boundary));
        }
        let ghost mid = *self;
        self.count_transitions(&mut tx.lm.log, from, start + n - 1);
        self.lm_built = true;
        proof {
            assert forall|c: int| 0 <= c < 256 implies #[trigger] self.lm.unigram@[c] <= start + n
                + 1 by {
                assert(old(self).snap().unigram[c] <= start + 1);
                lemma_byte_times(bytes, c as u8);
                assert(mid.lm.unigram@[c] == u0[c] + model::byte_times(bytes, c as u8));
            }
            assert(self.lm.unigram@ =~= goal.lm.unigram) by {
                assert forall|c: int| 0 <= c < 256 implies self.lm.unigram@[c]
                    == goal.lm.unigram[c] by {
                    assert(old(self).snap().unigram[c] <= start + 1);
                    lemma_byte_times(bytes, c as u8);
                    assert(mid.lm.unigram@[c] == u0[c] + model::byte_times(bytes, c as u8));
                }
            }
            assert forall|v: int|
                #![trigger self.lm.tallies.ls@[v]]
                0 <= v < self.lm.tallies.ls@.len() implies self.lm.tallies.ls@[v].total_n <= 2
                * self.sam.text@.len() by {
                assert(self.lm.tallies@[v].total <= mid.lm.tallies@[v].total + n);
                assert(mid.lm.tallies@[v].total <= 2 * start);
            }
            assert forall|c: int| 0 <= c < 256 implies #[trigger] self.lm.unigram@[c]
                == base.unigram[c] + tx.lm.uni_delta@[c] by {
                assert(old(self).snap().unigram[c] == base.unigram[c] + d0[c]);
                assert(mid.lm.unigram@[c] == u0[c] + model::byte_times(bytes, c as u8));
            }
            assert(self@.lm == goal.lm);
            assert(self@ == goal);
        }
    }

    /// Learns `s` as the continuation of the text; builds the language model over all byte
    /// values first where it is not built.
    pub fn train_sequence(&mut self, s: &[u8])
        requires
            old(self).wf(),
            s@.len() > 0 ==> model::can_extend(old(self)@, s@),
        ensures
            final(self).wf(),
            final(self)@ == (if s@.len() == 0 {
                old(self)@
            } else {
                model::with_bytes_learned(model::with_byte_lm(old(self)@), s@, false)
            }),
    {
        if s.len() == 0 {
            return ;
        }
        self.ensure_byte_lm();
        let mut tx = self.begin_tx();
        self.train_example_tx_impl(&mut tx, s, false);
    }

    /// Learns one byte as the continuation of the text; builds the language model over all byte
    /// values first where it is not built.
    pub fn train_byte(&mut self, b: u8)
        requires
            old(self).wf(),
            model::can_extend(old(self)@, seq![b]),
        ensures
            final(self).wf(),
            final(self)@ == model::with_bytes_learned(model::with_byte_lm(old(self)@), seq![b], false),
    {
        self.ensure_byte_lm();
        let mut tx = self.begin_tx();
        let mut one: Vec<u8> = Vec::new();
        one.push(b);
        proof {
            assert(one@ =~= seq![b]);
        }
        self.train_example_tx_impl(&mut tx, one.as_slice(), false);
    }

    fn ensure_byte_lm(&mut self)
        requires
            old(self).wf(),
            old(self).lm_built && model::is_byte_model(old(self)@) || tallies::nodes_needed(
                lm_build::built_tallies(old(self)@.sam, old(self)@.max_order, model::all_bytes()),
            ) <= u32::MAX,
        ensures
            final(self).wf(),
            final(self)@ == model::with_byte_lm(old(self)@),
            model::is_byte_model(final(self)@),
    {
        if self.lm_built && self.lm.has_byte_map && self.lm.alpha_n == 256 {
            proof {
                lemma_full_alphabet(self.lm.alphabet@);
            }
            return ;
        }
        proof {
            if self.lm_built && model::is_byte_model(self@) {
                assert(self.lm.alphabet@.last() == model::all_bytes()[255]);
            }
        }
        self.build_lm_full_bytes_no_finalize_endpos();
    }

    /// Puts the predictor back to where the transaction began.
    pub fn rollback_tx(&mut self, tx: RosaTx)
        requires
            old(self).wf(),
            model::rosa_tx_ok(tx, old(self).snap()),
        ensures
            final(self).wf(),
            final(self).snap() == tx.base@,
    {
        let ghost base = tx.base@;
        let ghost u0 = self.lm.unigram@;
        let n: usize = self.lm.unigram.len();
        let mut i: usize = 0;
        while i < n && i < 256
            invariant
                i <= n,
                i <= 256,
                n == u0.len(),
                n == self.lm.unigram@.len(),
                n == base.unigram.len(),
                tx.lm.uni_delta@.len() == 256,
                u0 == old(self).lm.unigram@,
                forall|c: int|
                    0 <= c < n ==> #[trigger] u0[c] == base.unigram[c] + (if c < 256 {
                        tx.lm.uni_delta@[c]
                    } else {
                        0
                    }),
                forall|c: int|
                    0 <= c < n ==> #[trigger] self.lm.unigram@[c] == if c < i {
                        base.unigram[c]
                    } else {
                        u0[c]
                    },
                *self == (RosaPlus {
                    lm: LM { unigram: self.lm.unigram, ..old(self).lm },
                    ..*old(self)
                }),
            decreases 256 - i,
        {
            let cnt: u64 = self.lm.unigram[i];
            proof {
                assert(u0[i as int] == base.unigram[i as int] + tx.lm.uni_delta@[i as int]);
            }
            self.lm.unigram.set(i, cnt - tx.lm.uni_delta[i]);
            i += 1;
        }
        self.lm.total_uni = self.lm.total_uni - tx.lm.total_uni_add;
        proof {
            assert(self.lm.unigram@ =~= base.unigram);
        }
        self.lm.tallies.rollback(tx.lm.log);
        self.sam.rollback_tx(tx.sam);
        self.lm_built = tx.old_lm_built;
    }

    /// Puts the predictive cursor back to the empty context.
    pub fn reset_conditioning_cursor(&mut self)
        requires
            old(self).wf(),
        ensures
            final(self).wf(),
            final(self)@ == (RosaModel {
                sam: SamModel { last: 0, ..old(self)@.sam },
                ..old(self)@
            }),
    {
        self.sam.last = 0;
        proof {
            lemma_rosa_moved(old(self).snap(), self.snap());
        }
    }

    /// The predictive cursor.
    pub fn conditioning_cursor(&self) -> (cursor: i32)
        ensures
            cursor == self@.sam.last,
    {
        self.sam.last
    }

    /// Puts the predictive cursor to a state.
    pub fn restore_conditioning_cursor(&mut self, cursor: i32)
        requires
            old(self).wf(),
            0 <= cursor < old(self).sam.st@.len(),
        ensures
            final(self).wf(),
            final(self)@ == (RosaModel {
                sam: SamModel { last: cursor as int, ..old(self)@.sam },
                ..old(self)@
            }),
    {
        self.sam.last = cursor;
        proof {
            lemma_rosa_moved(old(self).snap(), self.snap());
        }
    }

    /// Moves the predictive cursor on by one byte, without learning it.
    pub fn advance_conditioning_byte(&mut self, b: u8)
        requires
            old(self).wf(),
        ensures
            final(self).wf(),
            final(self)@ == (RosaModel {
                sam: SamModel {
                    last: sam::advanced(old(self)@.sam.states, old(self)@.sam.last, b as u32),
                    ..old(self)@.sam
                },
                ..old(self)@
            }),
    {
        self.sam.last = self.sam.advance(self.sam.last, b as u32);
        proof {
            lemma_rosa_moved(old(self).snap(), self.snap());
        }
    }

    /// Number of symbols of the language model; 0 where it is not built.
    pub fn lm_alpha_n(&self) -> (n: usize)
        requires
            self.wf(),
        ensures
            n == (if self.lm_built {
                self@.lm.alphabet.len()
            } else {
                0
            }),
    {
        if !self.lm_built {
            0
        } else {
            self.lm.alpha_n as usize
        }
    }

    /// A predictor with the same text, without a language model, whose random numbers start
    /// anew.
    pub fn fork_from_sam(&self) -> (fork: RosaPlus)
        requires
            self.wf(),
        ensures
            fork.wf(),
            fork@ == (RosaModel {
                lm: LmModel {
                    alphabet: Seq::empty(),
                    unigram: Seq::empty(),
                    total_uni: 0,
                    tallies: Seq::empty(),
                },
                lm_built: false,
                rng: RngModel { buf: Seq::empty(), pos: 0, xs: ROSA_RNG_START },
                ..self@
            }),
    {
        RosaPlus {
            max_order: self.max_order,
            use_eot: self.use_eot,
            eot: self.eot,
            seed: self.seed,
            sam: self.sam.duplicate(),
            lm: LM::new(),
            lm_built: false,
            rng: RngStream::new(),
        }
    }

    /// A copy.
    pub fn duplicate(&self) -> (copy: RosaPlus)
        requires
            self.wf(),
        ensures
            copy.wf(),
            copy.snap() == self.snap(),
    {
        let copy = RosaPlus {
            max_order: self.max_order,
            use_eot: self.use_eot,
            eot: self.eot,
            seed: self.seed,
            sam: self.sam.duplicate(),
            lm: LM {
                alphabet: self.lm.alphabet.clone(),
                unigram: self.lm.unigram.clone(),
                alpha_n: self.lm.alpha_n,
                total_uni: self.lm.total_uni,
                has_byte_map: self.lm.has_byte_map,
                byte_map: self.lm.byte_map.clone(),
                tallies: self.lm.tallies.duplicate(),
            },
            lm_built: self.lm_built,
            rng: self.rng.clone(),
        };
        proof {
            assert(copy.lm.alphabet@ =~= self.lm.alphabet@);
            assert(copy.lm.unigram@ =~= self.lm.unigram@);
            assert(copy.lm.byte_map@ =~= self.lm.byte_map@);
        }
        copy
    }

    /// Keeps a full copy of the predictor.
    pub fn checkpoint(&self) -> (ck: RosaCheckpoint)
        requires
            self.wf(),
        ensures
            ck.wf(),
            ck.saved() == self.snap(),
    {
        RosaCheckpoint::of(self.duplicate())
    }

    /// Puts the predictor back to a checkpoint.
    pub fn restore(&mut self, ck: &RosaCheckpoint)
        requires
            ck.wf(),
        ensures
            final(self).wf(),
            final(self).snap() == ck.saved(),
    {
        *self = ck.held().duplicate();
    }
}

/// A change of the automaton that keeps its text keeps the predictor consistent.
proof fn lemma_rosa_moved(a: RosaSnapshot, b: RosaSnapshot)
    requires
        model::rosa_wf(a),
        sam::snapshot_wf(b.sam),
        b.sam.text.len() == a.sam.text.len(),
        b.sam.st.len() == a.sam.st.len(),
        b == (RosaSnapshot { sam: b.sam, ..a }),
    ensures
        model::rosa_wf(b),
{
    assert forall|v: int| #![trigger b.tallies.ls[v]] 0 <= v < b.tallies.ls.len() implies b.tallies.ls[v].total_n
        <= 2 * b.sam.text.len() by {
        assert(a.tallies.ls[v].total_n <= 2 * a.sam.text.len());
    }
    assert forall|c: int| 0 <= c < b.unigram.len() implies #[trigger] b.unigram[c]
        <= b.sam.text.len() + 1 by {
        assert(a.unigram[c] <= a.sam.text.len() + 1);
    }
}

proof fn lemma_byte_times(bytes: Seq<u8>, c: u8)
    ensures
        model::byte_times(bytes, c) <= bytes.len(),
    decreases bytes.len(),
{
    if bytes.len() > 0 {
        lemma_byte_times(bytes.drop_last(), c);
    }
}

/// 256 increasing bytes are all byte values.
proof fn lemma_full_alphabet(alphabet: Seq<u32>)
    requires
        lm::is_increasing(alphabet),
        alphabet.len() == 256,
        forall|i: int| 0 <= i < 256 ==> #[trigger] alphabet[i] < 256,
    ensures
        alphabet == model::all_bytes(),
{
    assert forall|i: int| 0 <= i < 256 implies alphabet[i] == model::all_bytes()[i] by {
        lm::lemma_increasing_gap(alphabet, i);
        lemma_increasing_room(alphabet, i);
    }
    assert(alphabet =~= model::all_bytes());
}

proof fn lemma_increasing_room(s: Seq<u32>, i: int)
    requires
        lm::is_increasing(s),
        s.len() == 256,
        s[255] < 256,
        0 <= i < 256,
    ensures
        s[i] <= i,
    decreases 255 - i,
{
    if i < 255 {
        lemma_increasing_room(s, i + 1);
        assert(s[i] < s[i + 1]);
    }
}

/// Adds the occurrences of every byte of `s` to a table.
fn add_bytes(table: &mut Vec<u64>, s: &[u8])
    requires
        old(table)@.len() == 256,
        forall|c: int| 0 <= c < 256 ==> #[trigger] old(table)@[c] + s@.len() <= u64::MAX,
    ensures
        final(table)@.len() == 256,
        forall|c: int|
            0 <= c < 256 ==> #[trigger] final(table)@[c] == old(table)@[c] + model::byte_times(
                s@,
                c as u8,
            ),
{
    let n: usize = s.len();
    let mut i: usize = 0;
    while i < n
        invariant
            i <= n == s@.len(),
            table@.len() == 256,
            old(table)@.len() == 256,
            forall|c: int| 0 <= c < 256 ==> #[trigger] old(table)@[c] + n <= u64::MAX,
            forall|c: int|
                0 <= c < 256 ==> #[trigger] table@[c] == old(table)@[c] + model::byte_times(
                    s@.take(i as int),
                    c as u8,
                ),
        decreases n - i,
    {
        let b: u8 = s[i];
        let cnt: u64 = table[b as usize];
        let ghost seen = s@.take(i as int);
        let ghost now = s@.take(i + 1);
        proof {
            assert(now.drop_last() =~= seen);
            lemma_byte_times(seen, b);
            assert(table@[b as int] == old(table)@[b as int] + model::byte_times(seen, b));
            assert(old(table)@[b as int] + n <= u64::MAX);
        }
        let ghost before = table@;
        table.set(b as usize, cnt + 1);
        i += 1;
        proof {
            assert forall|c: int| 0 <= c < 256 implies #[trigger] table@[c] == old(table)@[c]
                + model::byte_times(now, c as u8) by {
                assert(before[c] == old(table)@[c] + model::byte_times(seen, c as u8));
            }
        }
    }
    proof {
        assert(s@.take(n as int) =~= s@);
    }
}

} // verus!
