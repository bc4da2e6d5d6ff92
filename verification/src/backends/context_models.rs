//! Byte models that count behind the last bytes, or behind the last words.

use vstd::prelude::*;
use crate::backends::text_context;
use crate::backends::context_counter;

use crate::backends::context_counter::{
    finalize_hash, hash_byte, hash_u64, ContextSlot, CoreModel, CounterError,
    HashedCounterCore, FNV_OFFSET, ORDER_NGRAM_MAX_ORDER,
};
use crate::backends::text_context::{bucket_word_len, is_word_byte, AnalyzerModel, NeuralContextState, TextContextAnalyzer};

verus! {

/// Last bytes after one more.
pub open spec fn history_after(h: Seq<u8>, b: u8) -> Seq<u8> {
    if h.len() < ORDER_NGRAM_MAX_ORDER {
        h.push(b)
    } else {
        h.drop_first().push(b)
    }
}

/// Key of the context of the last `order` bytes.
pub open spec fn order_key(h: Seq<u8>, order: nat) -> Option<u64> {
    if h.len() < order {
        None
    } else {
        Some(
            context_counter::mixed_hash(
                context_counter::hashed_bytes(
                    FNV_OFFSET ^ (order as u64),
                    h.subrange(h.len() - order, h.len() as int),
                ),
            ),
        )
    }
}

/// Counts bytes behind the last bytes.
pub struct OrderNGramModel {
    core: HashedCounterCore,
    order: usize,
    history: Vec<u8>,
}

/// [`OrderNGramModel`] as a mathematical object.
#[verifier::ext_equal]
pub struct OrderModel {
    pub core: CoreModel,
    pub order: nat,
    pub history: Seq<u8>,
}

/// What it takes to bring an order model back.
pub struct OrderNGramCheckpoint {
    journal_len: usize,
    history: Vec<u8>,
}

/// State after a byte was fitted.
pub open spec fn order_fitted(m: OrderModel, b: u8) -> OrderModel {
    OrderModel {
        core: match order_key(m.history, m.order) {
            Some(key) => context_counter::observed_in(m.core, key, b),
            None => m.core,
        },
        history: history_after(m.history, b),
        ..m
    }
}

/// State after bytes were fitted.
pub open spec fn order_fitted_all(m: OrderModel, data: Seq<u8>) -> OrderModel
    decreases data.len(),
{
    if data.len() == 0 {
        m
    } else {
        order_fitted(order_fitted_all(m, data.drop_last()), data.last())
    }
}

/// State that a marker and a history bring back.
pub open spec fn order_restored(m: OrderModel, marker: int, history: Seq<u8>) -> OrderModel {
    OrderModel {
        core: CoreModel {
            slots: context_counter::rolled_back(m.core.slots, m.core.journal, marker),
            journal: m.core.journal.take(marker),
            ..m.core
        },
        history,
        ..m
    }
}

proof fn lemma_fitting_keeps_marker(m: OrderModel, data: Seq<u8>, n: int)
    requires
        m.core.depth > 0,
        0 <= n <= m.core.journal.len(),
    ensures
        ({
            let after = order_fitted_all(m, data);
            &&& after.core.depth == m.core.depth
            &&& after.core.hash_bits == m.core.hash_bits
            &&& after.order == m.order
            &&& after.core.journal.len() >= m.core.journal.len()
            &&& after.core.journal.take(n) == m.core.journal.take(n)
            &&& context_counter::rolled_back(after.core.slots, after.core.journal, n) == context_counter::rolled_back(
                m.core.slots,
                m.core.journal,
                n,
            )
        }),
    decreases data.len(),
{
    if data.len() > 0 {
        let before = order_fitted_all(m, data.drop_last());
        lemma_fitting_keeps_marker(m, data.drop_last(), n);
        if let Some(key) = order_key(before.history, before.order) {
            context_counter::law_counting_can_be_taken_back(before.core, key, data.last(), n);
            let after = context_counter::observed_in(before.core, key, data.last());
            assert(after.journal.take(n) =~= before.core.journal.take(n));
        }
    }
}

/// A checkpoint brings back the counts and the history, whatever was fitted since.
pub proof fn law_order_checkpoint_restores(m: OrderModel, data: Seq<u8>)
    requires
        m.core.depth > 0,
    ensures
        order_restored(
            order_fitted_all(m, data),
            m.core.journal.len() as int,
            m.history,
        ) == m,
{
    let n = m.core.journal.len() as int;
    lemma_fitting_keeps_marker(m, data, n);
    assert(m.core.journal.take(n) =~= m.core.journal);
    assert(order_restored(order_fitted_all(m, data), n, m.history) =~= m);
}

impl OrderNGramCheckpoint {
    /// How many changes there were.
    pub closed spec fn marker(&self) -> int {
        self.journal_len as int
    }

    /// The last bytes.
    pub closed spec fn past(&self) -> Seq<u8> {
        self.history@
    }
}

impl OrderNGramModel {
    /// The mathematical object.
    pub closed spec fn model(&self) -> OrderModel {
        OrderModel {
            core: self.core.model(),
            order: self.order as nat,
            history: self.history@,
        }
    }

    /// The table is in order, and no more bytes are kept than there is room for.
    pub closed spec fn wf(&self) -> bool {
        &&& self.core.wf()
        &&& 1 <= self.order <= ORDER_NGRAM_MAX_ORDER
        &&& self.history@.len() <= ORDER_NGRAM_MAX_ORDER
    }

    /// A model of the order.
    pub fn new(order: usize, hash_bits: usize) -> (result: Result<Self, CounterError>)
        ensures
            if !(1 <= order <= ORDER_NGRAM_MAX_ORDER) {
                result == Err::<OrderNGramModel, CounterError>(CounterError::Order)
            } else if !(1 <= hash_bits
                <= crate::backends::context_counter::CONTEXT_COUNTER_MAX_HASH_BITS) {
                result == Err::<OrderNGramModel, CounterError>(CounterError::HashBits)
            } else {
                result matches Ok(model) && model.wf() && model.model() == (OrderModel {
                    core: context_counter::empty_core(hash_bits as nat),
                    order: order as nat,
                    history: Seq::empty(),
                })
            },
    {
        if !(1 <= order && order <= ORDER_NGRAM_MAX_ORDER) {
            return Err(CounterError::Order);
        }
        match HashedCounterCore::new(hash_bits) {
            Ok(core) => {
                let model = OrderNGramModel { core, order, history: Vec::new() };
                proof {
                    assert(model.history@ =~= Seq::empty());
                }
                Ok(model)
            },
            Err(e) => Err(e),
        }
    }

    /// A second model in the same state.
    pub fn duplicate(&self) -> (copy: Self)
        requires
            self.wf(),
        ensures
            copy.wf(),
            copy.model() == self.model(),
    {
        let history = self.history.clone();
        proof {
            assert(history@ =~= self.history@);
        }
        OrderNGramModel { core: self.core.duplicate(), order: self.order, history }
    }

    /// The table.
    pub fn table(&self) -> (core: &HashedCounterCore)
        requires
            self.wf(),
        ensures
            core.wf(),
            core.model() == self.model().core,
    {
        &self.core
    }

    /// Key of the context.
    pub fn context_key(&self) -> (key: Option<u64>)
        requires
            self.wf(),
        ensures
            key == order_key(self.model().history, self.model().order),
    {
        let n: usize = self.history.len();
        if n < self.order {
            return None;
        }
        let start: usize = n - self.order;
        let ghost part = self.history@.subrange(start as int, n as int);
        let mut h: u64 = FNV_OFFSET ^ (self.order as u64);
        let ghost first = h;
        let mut i: usize = start;
        while i < n
            invariant
                start <= i <= n == self.history@.len(),
                part == self.history@.subrange(start as int, n as int),
                h == context_counter::hashed_bytes(first, part.take(i - start)),
            decreases n - i,
        {
            h = hash_byte(h, self.history[i]);
            proof {
                assert(part.take(i + 1 - start).drop_last() =~= part.take(i - start));
                assert(part.take(i + 1 - start).last() == self.history@[i as int]);
            }
            i += 1;
        }
        proof {
            assert(part.take(n - start) =~= part);
        }
        Some(finalize_hash(h))
    }

    /// Counts behind the last bytes, where there are any.
    pub fn current(&self) -> (slot: Option<&ContextSlot>)
        requires
            self.wf(),
        ensures
            match order_key(self.model().history, self.model().order) {
                None => slot is None,
                Some(key) => match slot {
                    Some(s) => context_counter::slot_for(self.model().core, key) == Some(s@) && context_counter::slot_ok(s@),
                    None => context_counter::slot_for(self.model().core, key) is None,
                },
            },
    {
        match self.context_key() {
            Some(key) => self.core.lookup(key),
            None => None,
        }
    }

    /// Fits a byte.
    pub fn update(&mut self, symbol: u8)
        requires
            old(self).wf(),
        ensures
            final(self).wf(),
            final(self).model() == order_fitted(old(self).model(), symbol),
    {
        if let Some(key) = self.context_key() {
            self.core.observe(key, symbol);
        }
        self.push_history(symbol);
    }

    /// Conditions on a byte.
    pub fn update_history_only(&mut self, symbol: u8)
        requires
            old(self).wf(),
        ensures
            final(self).wf(),
            final(self).model() == (OrderModel {
                history: history_after(old(self).model().history, symbol),
                ..old(self).model()
            }),
    {
        self.push_history(symbol);
    }

    /// Forgets the last bytes; the counts stay.
    pub fn reset_history(&mut self)
        requires
            old(self).wf(),
        ensures
            final(self).wf(),
            final(self).model() == (OrderModel { history: Seq::empty(), ..old(self).model() }),
    {
        self.history.clear();
        proof {
            assert(self.history@ =~= Seq::empty());
        }
    }

    /// Takes a checkpoint.
    pub fn checkpoint(&mut self) -> (checkpoint: OrderNGramCheckpoint)
        requires
            old(self).wf(),
            old(self).model().core.depth < usize::MAX,
        ensures
            final(self).wf(),
            final(self).model() == (OrderModel {
                core: CoreModel {
                    depth: old(self).model().core.depth + 1,
                    ..old(self).model().core
                },
                ..old(self).model()
            }),
            checkpoint.marker() == old(self).model().core.journal.len(),
            checkpoint.past() == old(self).model().history,
    {
        let journal_len: usize = self.core.begin_checkpoint();
        let history = self.history.clone();
        proof {
            assert(history@ =~= self.history@);
        }
        OrderNGramCheckpoint { journal_len, history }
    }

    /// Goes back to a checkpoint.
    pub fn restore_checkpoint(&mut self, checkpoint: &OrderNGramCheckpoint)
        requires
            old(self).wf(),
            old(self).model().core.depth > 0,
            checkpoint.marker() <= old(self).model().core.journal.len(),
            checkpoint.past().len() <= ORDER_NGRAM_MAX_ORDER,
        ensures
            final(self).wf(),
            final(self).model() == order_restored(
                old(self).model(),
                checkpoint.marker(),
                checkpoint.past(),
            ),
    {
        self.core.restore_checkpoint(checkpoint.journal_len);
        self.history = checkpoint.history.clone();
        proof {
            assert(self.history@ =~= checkpoint.history@);
        }
    }

    /// Gives a checkpoint up.
    pub fn discard_checkpoint(&mut self)
        requires
            old(self).wf(),
            old(self).model().core.depth > 0,
        ensures
            final(self).wf(),
            final(self).model() == (OrderModel {
                core: CoreModel {
                    depth: (old(self).model().core.depth - 1) as nat,
                    journal: if old(self).model().core.depth == 1 {
                        Seq::empty()
                    } else {
                        old(self).model().core.journal
                    },
                    ..old(self).model().core
                },
                ..old(self).model()
            }),
    {
        self.core.discard_checkpoint();
    }

    /// Gives all checkpoints up.
    pub fn clear_checkpoints(&mut self)
        requires
            old(self).wf(),
        ensures
            final(self).wf(),
            final(self).model() == (OrderModel {
                core: CoreModel { depth: 0, journal: Seq::empty(), ..old(self).model().core },
                ..old(self).model()
            }),
    {
        self.core.clear_checkpoints();
    }

    /// The last bytes, to come back to.
    pub fn lifecycle_snapshot(&self) -> (history: Vec<u8>)
        ensures
            history@ == self.model().history,
    {
        let history = self.history.clone();
        proof {
            assert(history@ =~= self.history@);
        }
        history
    }

    /// Comes back to last bytes; the counts stay.
    pub fn restore_lifecycle_snapshot(&mut self, history: Vec<u8>)
        requires
            old(self).wf(),
            history@.len() <= ORDER_NGRAM_MAX_ORDER,
        ensures
            final(self).wf(),
            final(self).model() == (OrderModel { history: history@, ..old(self).model() }),
    {
        self.history = history;
    }

    fn push_history(&mut self, symbol: u8)
        requires
            old(self).wf(),
        ensures
            final(self).wf(),
            final(self).model() == (OrderModel {
                history: history_after(old(self).model().history, symbol),
                ..old(self).model()
            }),
    {
        let ghost before = self.history@;
        if self.history.len() == ORDER_NGRAM_MAX_ORDER {
            self.history.remove(0);
            proof {
                assert(self.history@ =~= before.drop_first());
            }
        }
        self.history.push(symbol);
    }
}

// ---------------------------------------------------------------------------------------
// Words
// ---------------------------------------------------------------------------------------

/// Counts bytes behind the words around them.
pub struct WordContextModel {
    core: HashedCounterCore,
    analyzer: TextContextAnalyzer,
    current_word_hash: u64,
    current_word_len: u16,
    previous_word_hash: u64,
}

/// The words around a place.
#[verifier::ext_equal]
pub struct WordsModel {
    pub analyzer: AnalyzerModel,
    pub current_hash: u64,
    pub current_len: u16,
    pub previous_hash: u64,
}

/// [`WordContextModel`] as a mathematical object.
#[verifier::ext_equal]
pub struct WordModel {
    pub core: CoreModel,
    pub words: WordsModel,
}

/// What it takes to bring the words back.
pub struct WordContextLifecycleSnapshot {
    analyzer: TextContextAnalyzer,
    current_word_hash: u64,
    current_word_len: u16,
    previous_word_hash: u64,
}

/// What it takes to bring a word model back.
pub struct WordContextCheckpoint {
    journal_len: usize,
    words: WordContextLifecycleSnapshot,
}

/// In front of the first word.
pub open spec fn no_words() -> WordsModel {
    WordsModel {
        analyzer: text_context::blank_analyzer(false),
        current_hash: 0,
        current_len: 0,
        previous_hash: 0,
    }
}

/// A byte without its case.
pub open spec fn caseless(b: u8) -> u8 {
    if 65 <= b <= 90 {
        (b + 32) as u8
    } else {
        b
    }
}

/// The words after one more byte.
pub open spec fn words_after(w: WordsModel, b: u8) -> WordsModel {
    let analyzer = text_context::analyzed(w.analyzer, b);
    if text_context::in_words(b) {
        WordsModel {
            analyzer,
            current_hash: context_counter::hashed_byte(
                if w.current_len == 0 {
                    FNV_OFFSET
                } else {
                    w.current_hash
                },
                caseless(b),
            ),
            current_len: if w.current_len < u16::MAX {
                (w.current_len + 1) as u16
            } else {
                u16::MAX
            },
            previous_hash: w.previous_hash,
        }
    } else if w.current_len > 0 {
        WordsModel {
            analyzer,
            current_hash: 0,
            current_len: 0,
            previous_hash: context_counter::mixed_hash(w.current_hash),
        }
    } else {
        WordsModel { analyzer, ..w }
    }
}

/// A flag as a byte.
pub open spec fn flag(b: bool) -> u8 {
    if b {
        1
    } else {
        0
    }
}

/// What the text looks like, as bytes of a key.
pub open spec fn look_bytes(len: u16, s: NeuralContextState) -> Seq<u8> {
    seq![
        text_context::word_bucket(len),
        s.prev1,
        s.prev2,
        s.prev1_class,
        s.prev2_class,
        flag(s.in_word),
        s.word_len_bucket,
        s.prev_word_class,
        s.bracket_bucket,
        s.quote_flags,
        flag(s.sentence_boundary),
        flag(s.paragraph_break),
        s.utf8_left,
    ]
}

/// Key of the context of the words.
pub open spec fn words_key(w: WordsModel) -> u64 {
    let a = context_counter::hashed_bytes(
        FNV_OFFSET ^ 0x9e37_79b9_7f4a_7c15,
        context_counter::bytes_of_number(w.previous_hash),
    );
    let b = context_counter::hashed_bytes(a, context_counter::bytes_of_number(w.current_hash));
    context_counter::mixed_hash(context_counter::hashed_bytes(b, look_bytes(w.current_len, w.analyzer.state)))
}

/// State after a byte was fitted.
pub open spec fn words_fitted(m: WordModel, b: u8) -> WordModel {
    WordModel { core: context_counter::observed_in(m.core, words_key(m.words), b), words: words_after(m.words, b) }
}

/// State after bytes were fitted.
pub open spec fn words_fitted_all(m: WordModel, data: Seq<u8>) -> WordModel
    decreases data.len(),
{
    if data.len() == 0 {
        m
    } else {
        words_fitted(words_fitted_all(m, data.drop_last()), data.last())
    }
}

/// State that a marker and words bring back.
pub open spec fn words_restored(m: WordModel, marker: int, words: WordsModel) -> WordModel {
    WordModel {
        core: CoreModel {
            slots: context_counter::rolled_back(m.core.slots, m.core.journal, marker),
            journal: m.core.journal.take(marker),
            ..m.core
        },
        words,
    }
}

proof fn lemma_words_keep_marker(m: WordModel, data: Seq<u8>, n: int)
    requires
        m.core.depth > 0,
        0 <= n <= m.core.journal.len(),
    ensures
        ({
            let after = words_fitted_all(m, data);
            &&& after.core.depth == m.core.depth
            &&& after.core.hash_bits == m.core.hash_bits
            &&& after.core.journal.len() >= m.core.journal.len()
            &&& after.core.journal.take(n) == m.core.journal.take(n)
            &&& context_counter::rolled_back(after.core.slots, after.core.journal, n) == context_counter::rolled_back(
                m.core.slots,
                m.core.journal,
                n,
            )
        }),
    decreases data.len(),
{
    if data.len() > 0 {
        let before = words_fitted_all(m, data.drop_last());
        lemma_words_keep_marker(m, data.drop_last(), n);
        let key = words_key(before.words);
        context_counter::law_counting_can_be_taken_back(before.core, key, data.last(), n);
        let after = context_counter::observed_in(before.core, key, data.last());
        assert(after.journal.take(n) =~= before.core.journal.take(n));
    }
}

/// A checkpoint brings back the counts and the words, whatever was fitted since.
pub proof fn law_words_checkpoint_restores(m: WordModel, data: Seq<u8>)
    requires
        m.core.depth > 0,
    ensures
        words_restored(words_fitted_all(m, data), m.core.journal.len() as int, m.words) == m,
{
    let n = m.core.journal.len() as int;
    lemma_words_keep_marker(m, data, n);
    assert(m.core.journal.take(n) =~= m.core.journal);
    assert(words_restored(words_fitted_all(m, data), n, m.words) =~= m);
}

impl WordContextLifecycleSnapshot {
    /// The words.
    pub closed spec fn model(&self) -> WordsModel {
        WordsModel {
            analyzer: self.analyzer@,
            current_hash: self.current_word_hash,
            current_len: self.current_word_len,
            previous_hash: self.previous_word_hash,
        }
    }

    /// The analyzer is in order, and does not look for repeats.
    pub closed spec fn wf(&self) -> bool {
        self.analyzer.wf() && self.analyzer@.seen is None
    }
}

impl WordContextCheckpoint {
    /// How many changes there were.
    pub closed spec fn marker(&self) -> int {
        self.journal_len as int
    }

    /// The words.
    pub closed spec fn past(&self) -> WordsModel {
        self.words.model()
    }

    /// The words are in order.
    pub closed spec fn wf(&self) -> bool {
        self.words.wf()
    }
}

impl WordContextModel {
    /// The mathematical object.
    pub closed spec fn model(&self) -> WordModel {
        WordModel {
            core: self.core.model(),
            words: WordsModel {
                analyzer: self.analyzer@,
                current_hash: self.current_word_hash,
                current_len: self.current_word_len,
                previous_hash: self.previous_word_hash,
            },
        }
    }

    /// The table and the analyzer are in order, and no repeats are looked for.
    pub closed spec fn wf(&self) -> bool {
        self.core.wf() && self.analyzer.wf() && self.analyzer@.seen is None
    }

    /// A model whose slots are found by `hash_bits` bits.
    pub fn new(hash_bits: usize) -> (result: Result<Self, CounterError>)
        ensures
            if 1 <= hash_bits <= crate::backends::context_counter::CONTEXT_COUNTER_MAX_HASH_BITS {
                result matches Ok(model) && model.wf() && model.model() == (WordModel {
                    core: context_counter::empty_core(hash_bits as nat),
                    words: no_words(),
                })
            } else {
                result == Err::<WordContextModel, CounterError>(CounterError::HashBits)
            },
    {
        match HashedCounterCore::new(hash_bits) {
            Ok(core) => Ok(
                WordContextModel {
                    core,
                    analyzer: TextContextAnalyzer::without_repeat_tracking(),
                    current_word_hash: 0,
                    current_word_len: 0,
                    previous_word_hash: 0,
                },
            ),
            Err(e) => Err(e),
        }
    }

    /// A second model in the same state.
    pub fn duplicate(&self) -> (copy: Self)
        requires
            self.wf(),
        ensures
            copy.wf(),
            copy.model() == self.model(),
    {
        WordContextModel {
            core: self.core.duplicate(),
            analyzer: self.analyzer.duplicate(),
            current_word_hash: self.current_word_hash,
            current_word_len: self.current_word_len,
            previous_word_hash: self.previous_word_hash,
        }
    }

    /// The table.
    pub fn table(&self) -> (core: &HashedCounterCore)
        requires
            self.wf(),
        ensures
            core.wf(),
            core.model() == self.model().core,
    {
        &self.core
    }

    /// Key of the context.
    pub fn context_key(&self) -> (key: u64)
        requires
            self.wf(),
        ensures
            key == words_key(self.model().words),
    {
        let s = self.analyzer.state();
        let mut h: u64 = FNV_OFFSET ^ 0x9e37_79b9_7f4a_7c15;
        h = hash_u64(h, self.previous_word_hash);
        h = hash_u64(h, self.current_word_hash);
        let mut look: Vec<u8> = Vec::new();
        look.push(bucket_word_len(self.current_word_len));
        look.push(s.prev1);
        look.push(s.prev2);
        look.push(s.prev1_class);
        look.push(s.prev2_class);
        look.push(
            if s.in_word {
                1
            } else {
                0
            },
        );
        look.push(s.word_len_bucket);
        look.push(s.prev_word_class);
        look.push(s.bracket_bucket);
        look.push(s.quote_flags);
        look.push(
            if s.sentence_boundary {
                1
            } else {
                0
            },
        );
        look.push(
            if s.paragraph_break {
                1
            } else {
                0
            },
        );
        look.push(s.utf8_left);
        let ghost bytes = look@;
        proof {
            assert(bytes =~= look_bytes(self.current_word_len, s));
        }
        let ghost first = h;
        let n: usize = look.len();
        let mut i: usize = 0;
        while i < n
            invariant
                i <= n == look@.len(),
                bytes == look@,
                h == context_counter::hashed_bytes(first, bytes.take(i as int)),
            decreases n - i,
        {
            h = hash_byte(h, look[i]);
            proof {
                assert(bytes.take(i + 1).drop_last() =~= bytes.take(i as int));
            }
            i += 1;
        }
        proof {
            assert(bytes.take(n as int) =~= bytes);
        }
        finalize_hash(h)
    }

    /// Counts behind the words, where there are any.
    pub fn current(&self) -> (slot: Option<&ContextSlot>)
        requires
            self.wf(),
        ensures
            match slot {
                Some(s) => context_counter::slot_for(self.model().core, words_key(self.model().words)) == Some(s@)
                    && context_counter::slot_ok(s@),
                None => context_counter::slot_for(self.model().core, words_key(self.model().words)) is None,
            },
    {
        let key: u64 = self.context_key();
        self.core.lookup(key)
    }

    /// Fits a byte.
    pub fn update(&mut self, symbol: u8)
        requires
            old(self).wf(),
        ensures
            final(self).wf(),
            final(self).model() == words_fitted(old(self).model(), symbol),
    {
        let key: u64 = self.context_key();
        self.core.observe(key, symbol);
        self.update_history(symbol);
    }

    /// Conditions on a byte.
    pub fn update_history_only(&mut self, symbol: u8)
        requires
            old(self).wf(),
        ensures
            final(self).wf(),
            final(self).model() == (WordModel {
                words: words_after(old(self).model().words, symbol),
                ..old(self).model()
            }),
    {
        self.update_history(symbol);
    }

    /// Forgets the words; the counts stay.
    pub fn reset_history(&mut self)
        requires
            old(self).wf(),
        ensures
            final(self).wf(),
            final(self).model() == (WordModel { words: no_words(), ..old(self).model() }),
    {
        self.analyzer = TextContextAnalyzer::without_repeat_tracking();
        self.current_word_hash = 0;
        self.current_word_len = 0;
        self.previous_word_hash = 0;
    }

    /// The words, to come back to.
    pub fn lifecycle_snapshot(&self) -> (snapshot: WordContextLifecycleSnapshot)
        requires
            self.wf(),
        ensures
            snapshot.wf(),
            snapshot.model() == self.model().words,
    {
        WordContextLifecycleSnapshot {
            analyzer: self.analyzer.duplicate(),
            current_word_hash: self.current_word_hash,
            current_word_len: self.current_word_len,
            previous_word_hash: self.previous_word_hash,
        }
    }

    /// Comes back to words; the counts stay.
    pub fn restore_lifecycle_snapshot(&mut self, snapshot: &WordContextLifecycleSnapshot)
        requires
            old(self).wf(),
            snapshot.wf(),
        ensures
            final(self).wf(),
            final(self).model() == (WordModel { words: snapshot.model(), ..old(self).model() }),
    {
        self.analyzer = snapshot.analyzer.duplicate();
        self.current_word_hash = snapshot.current_word_hash;
        self.current_word_len = snapshot.current_word_len;
        self.previous_word_hash = snapshot.previous_word_hash;
    }

    /// Takes a checkpoint.
    pub fn checkpoint(&mut self) -> (checkpoint: WordContextCheckpoint)
        requires
            old(self).wf(),
            old(self).model().core.depth < usize::MAX,
        ensures
            final(self).wf(),
            final(self).model() == (WordModel {
                core: CoreModel {
                    depth: old(self).model().core.depth + 1,
                    ..old(self).model().core
                },
                ..old(self).model()
            }),
            checkpoint.wf(),
            checkpoint.marker() == old(self).model().core.journal.len(),
            checkpoint.past() == old(self).model().words,
    {
        let journal_len: usize = self.core.begin_checkpoint();
        WordContextCheckpoint { journal_len, words: self.lifecycle_snapshot() }
    }

    /// Goes back to a checkpoint.
    pub fn restore_checkpoint(&mut self, checkpoint: &WordContextCheckpoint)
        requires
            old(self).wf(),
            old(self).model().core.depth > 0,
            checkpoint.wf(),
            checkpoint.marker() <= old(self).model().core.journal.len(),
        ensures
            final(self).wf(),
            final(self).model() == words_restored(
                old(self).model(),
                checkpoint.marker(),
                checkpoint.past(),
            ),
    {
        self.core.restore_checkpoint(checkpoint.journal_len);
        self.restore_lifecycle_snapshot(&checkpoint.words);
    }

    /// Gives a checkpoint up.
    pub fn discard_checkpoint(&mut self)
        requires
            old(self).wf(),
            old(self).model().core.depth > 0,
        ensures
            final(self).wf(),
            final(self).model() == (WordModel {
                core: CoreModel {
                    depth: (old(self).model().core.depth - 1) as nat,
                    journal: if old(self).model().core.depth == 1 {
                        Seq::empty()
                    } else {
                        old(self).model().core.journal
                    },
                    ..old(self).model().core
                },
                ..old(self).model()
            }),
    {
        self.core.discard_checkpoint();
    }

    /// Gives all checkpoints up.
    pub fn clear_checkpoints(&mut self)
        requires
            old(self).wf(),
        ensures
            final(self).wf(),
            final(self).model() == (WordModel {
                core: CoreModel { depth: 0, journal: Seq::empty(), ..old(self).model().core },
                ..old(self).model()
            }),
    {
        self.core.clear_checkpoints();
    }

    fn update_history(&mut self, symbol: u8)
        requires
            old(self).wf(),
        ensures
            final(self).wf(),
            final(self).model() == (WordModel {
                words: words_after(old(self).model().words, symbol),
                ..old(self).model()
            }),
    {
        if is_word_byte(symbol) {
            let base: u64 = if self.current_word_len == 0 {
                FNV_OFFSET
            } else {
                self.current_word_hash
            };
            let b: u8 = if 65 <= symbol && symbol <= 90 {
                symbol + 32
            } else {
                symbol
            };
            self.current_word_hash = hash_byte(base, b);
            self.current_word_len = self.current_word_len.saturating_add(1);
        } else if self.current_word_len > 0 {
            self.previous_word_hash = finalize_hash(self.current_word_hash);
            self.current_word_hash = 0;
            self.current_word_len = 0;
        }
        self.analyzer.update(symbol);
    }
}

} // verus!
