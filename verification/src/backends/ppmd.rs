//! Byte model that counts behind contexts of several lengths, within a bounded memory.

use std::collections::VecDeque;
use vstd::prelude::*;
use crate::backends::ppmd_laws;
use crate::places;

use crate::hashed_store::{HashedStore, Twin};

verus! {

/// Counts that a context holds without a list of its own.
pub const INLINE_CONTEXT_COUNTS: usize = 4;

/// Total above which counts are halved.
pub const PPMD_RESCALE: u32 = 4096;

/// Start of a hash.
pub const PPMD_HASH_START: u64 = 0xCBF2_9CE4_8422_2325;

/// Factor of a hash.
pub const PPMD_HASH_FACTOR: u64 = 0x1000_0000_01B3;

/// Count of a byte.
#[derive(Clone, Copy, Debug, PartialEq, Eq, Structural)]
pub struct CountEntry {
    pub symbol: u8,
    pub count: u16,
}

// ---------------------------------------------------------------------------------------
// One context
// ---------------------------------------------------------------------------------------

/// Counts of the bytes that followed a context, in the order in which they first did.
pub struct ContextStats {
    inline_counts: [CountEntry; 4],
    inline_len: u8,
    spill_counts: Option<Vec<CountEntry>>,
    total: u32,
}

/// [`ContextStats`] as a mathematical object.
#[verifier::ext_equal]
pub struct StatsModel {
    pub entries: Seq<CountEntry>,
    pub total: nat,
}

impl View for ContextStats {
    type V = StatsModel;

    closed spec fn view(&self) -> StatsModel {
        StatsModel {
            entries: self.inline_counts@.take(self.inline_len as int) + (match self.spill_counts {
                Some(list) => list@,
                None => Seq::empty(),
            }),
            total: self.total as nat,
        }
    }
}

/// Sum of the first `n` counts.
pub open spec fn entries_sum(entries: Seq<CountEntry>, n: int) -> nat
    decreases n,
{
    if n <= 0 {
        0
    } else {
        entries_sum(entries, n - 1) + entries[n - 1].count as nat
    }
}

/// Index of a byte, from `i` on; the number of entries where it has none.
pub open spec fn entry_index(entries: Seq<CountEntry>, symbol: u8, i: int) -> int
    decreases entries.len() - i,
{
    if i < 0 || i >= entries.len() {
        entries.len() as int
    } else if entries[i].symbol == symbol {
        i
    } else {
        entry_index(entries, symbol, i + 1)
    }
}

/// No counts.
pub open spec fn no_stats() -> StatsModel {
    StatsModel { entries: Seq::empty(), total: 0 }
}

/// A count that is halved, upwards.
pub open spec fn halved_entry(e: CountEntry) -> CountEntry {
    CountEntry { symbol: e.symbol, count: ((e.count + 1) / 2) as u16 }
}

/// Counts that are halved.
pub open spec fn halved_entries(entries: Seq<CountEntry>) -> Seq<CountEntry> {
    entries.map_values(|e: CountEntry| halved_entry(e))
}

/// Entries with one more byte.
pub open spec fn entries_after(entries: Seq<CountEntry>, symbol: u8) -> Seq<CountEntry> {
    let at = entry_index(entries, symbol, 0);
    if at < entries.len() {
        entries.update(
            at,
            CountEntry { symbol, count: (entries[at].count + 1) as u16 },
        )
    } else {
        entries.push(CountEntry { symbol, count: 1 })
    }
}

/// Counts with one more byte; they are halved once their total is too large.
pub open spec fn stats_after(s: StatsModel, symbol: u8) -> StatsModel {
    let entries = entries_after(s.entries, symbol);
    if s.total + 1 > PPMD_RESCALE {
        let half = halved_entries(entries);
        StatsModel { entries: half, total: entries_sum(half, half.len() as int) }
    } else {
        StatsModel { entries, total: s.total + 1 }
    }
}

/// Each byte is counted once and at least one time, and the total is the sum of the counts.
pub open spec fn stats_ok(s: StatsModel) -> bool {
    &&& s.total == entries_sum(s.entries, s.entries.len() as int)
    &&& s.total <= PPMD_RESCALE
    &&& forall|i: int| 0 <= i < s.entries.len() ==> (#[trigger] s.entries[i]).count >= 1
    &&& forall|i: int, j: int|
        0 <= i < j < s.entries.len() ==> (#[trigger] s.entries[i]).symbol != (
        #[trigger] s.entries[j]).symbol
}

/// Where a byte is found first.
pub proof fn lemma_entry_index(entries: Seq<CountEntry>, symbol: u8, i: int)
    requires
        0 <= i <= entries.len(),
    ensures
        i <= entry_index(entries, symbol, i) <= entries.len(),
        entry_index(entries, symbol, i) < entries.len() ==> entries[entry_index(
            entries,
            symbol,
            i,
        )].symbol == symbol,
        forall|j: int|
            i <= j < entry_index(entries, symbol, i) ==> (#[trigger] entries[j]).symbol != symbol,
    decreases entries.len() - i,
{
    if i < entries.len() && entries[i].symbol != symbol {
        lemma_entry_index(entries, symbol, i + 1);
    }
}

proof fn lemma_entries_sum_update(entries: Seq<CountEntry>, at: int, e: CountEntry, n: int)
    requires
        0 <= at < entries.len(),
        0 <= n <= entries.len(),
    ensures
        entries_sum(entries.update(at, e), n) == if at < n {
            entries_sum(entries, n) - entries[at].count + e.count
        } else {
            entries_sum(entries, n) as int
        },
    decreases n,
{
    if n > 0 {
        lemma_entries_sum_update(entries, at, e, n - 1);
    }
}

proof fn lemma_entries_sum_prefix(entries: Seq<CountEntry>, more: Seq<CountEntry>, n: int)
    requires
        0 <= n <= entries.len() <= more.len(),
        forall|i: int| 0 <= i < n ==> entries[i] == more[i],
    ensures
        entries_sum(entries, n) == entries_sum(more, n),
    decreases n,
{
    if n > 0 {
        lemma_entries_sum_prefix(entries, more, n - 1);
    }
}

/// A count is no larger than the sum, and halving keeps about half of it.
pub proof fn lemma_entries_sum_bounds(entries: Seq<CountEntry>, n: int)
    requires
        0 <= n <= entries.len(),
        forall|i: int| 0 <= i < entries.len() ==> (#[trigger] entries[i]).count >= 1,
    ensures
        n <= entries_sum(entries, n),
        forall|i: int| 0 <= i < n ==> (#[trigger] entries[i]).count <= entries_sum(entries, n),
        2 * entries_sum(halved_entries(entries), n) <= entries_sum(entries, n) + n,
    decreases n,
{
    if n > 0 {
        lemma_entries_sum_bounds(entries, n - 1);
    }
}

proof fn lemma_few_entries(entries: Seq<CountEntry>)
    requires
        forall|i: int, j: int|
            0 <= i < j < entries.len() ==> (#[trigger] entries[i]).symbol != (
            #[trigger] entries[j]).symbol,
    ensures
        entries.len() <= 256,
{
    let symbols = entries.map_values(|e: CountEntry| e.symbol as int);
    assert(symbols.no_duplicates()) by {
        assert forall|a: int, b: int|
            0 <= a < symbols.len() && 0 <= b < symbols.len() && a != b implies symbols[a]
            != symbols[b] by {
            if a < b {
                assert(entries[a].symbol != entries[b].symbol);
            } else {
                assert(entries[b].symbol != entries[a].symbol);
            }
        }
    }
    vstd::seq_lib::seq_to_set_is_finite(symbols);
    symbols.unique_seq_to_set();
    vstd::set_lib::lemma_int_range(0, 256);
    let all = vstd::set_lib::set_int_range(0, 256);
    assert(symbols.to_set().subset_of(all)) by {
        assert forall|x: int| symbols.to_set().contains(x) implies all.contains(x) by {
            let k = choose|k: int| 0 <= k < symbols.len() && symbols[k] == x;
            assert(entries[k].symbol as int == x);
        }
    }
    vstd::set_lib::lemma_len_subset(symbols.to_set(), all);
}

proof fn lemma_halved_order(entries: Seq<CountEntry>)
    requires
        forall|i: int| 0 <= i < entries.len() ==> (#[trigger] entries[i]).count >= 1,
        forall|i: int, j: int|
            0 <= i < j < entries.len() ==> (#[trigger] entries[i]).symbol != (
            #[trigger] entries[j]).symbol,
    ensures
        ({
            let half = halved_entries(entries);
            &&& half.len() == entries.len()
            &&& forall|i: int| 0 <= i < half.len() ==> (#[trigger] half[i]).count >= 1
            &&& forall|i: int, j: int|
                0 <= i < j < half.len() ==> (#[trigger] half[i]).symbol != (
                #[trigger] half[j]).symbol
        }),
{
    let half = halved_entries(entries);
    assert forall|i: int, j: int| 0 <= i < j < half.len() implies (#[trigger] half[i]).symbol != (
    #[trigger] half[j]).symbol by {
        assert(entries[i].symbol != entries[j].symbol);
    }
}

/// Counting keeps the counts in order: the total stays their sum, and no byte is counted twice.
pub proof fn law_stats_stay_ok(s: StatsModel, symbol: u8)
    requires
        stats_ok(s),
    ensures
        stats_ok(stats_after(s, symbol)),
        entries_sum(entries_after(s.entries, symbol), entries_after(s.entries, symbol).len() as int)
            == s.total + 1,
        entries_after(s.entries, symbol).len() <= 256,
        forall|i: int|
            0 <= i < entries_after(s.entries, symbol).len() ==> (#[trigger] entries_after(
                s.entries,
                symbol,
            )[i]).count >= 1,
{
    let entries = s.entries;
    let at = entry_index(entries, symbol, 0);
    let after = entries_after(entries, symbol);
    lemma_entry_index(entries, symbol, 0);
    lemma_entries_sum_bounds(entries, entries.len() as int);
    if at < entries.len() {
        let e = CountEntry { symbol, count: (entries[at].count + 1) as u16 };
        lemma_entries_sum_update(entries, at, e, entries.len() as int);
    } else {
        lemma_entries_sum_prefix(entries, after, entries.len() as int);
    }
    assert forall|i: int, j: int| 0 <= i < j < after.len() implies (#[trigger] after[i]).symbol
        != (#[trigger] after[j]).symbol by {
        if j < entries.len() {
            assert(entries[i].symbol != entries[j].symbol);
        } else {
            assert(entries[i].symbol != symbol);
        }
    }
    assert(entries_sum(after, after.len() as int) == s.total + 1);
    lemma_few_entries(after);
    lemma_entries_sum_bounds(after, after.len() as int);
    lemma_halved_order(after);
}

impl Twin for ContextStats {
    closed spec fn valid(&self) -> bool {
        self.wf()
    }

    fn twin(&self) -> (twin: Self) {
        let spill = match &self.spill_counts {
            Some(list) => {
                let copy = list.clone();
                proof {
                    assert(copy@ =~= list@);
                }
                Some(copy)
            },
            None => None,
        };
        ContextStats {
            inline_counts: self.inline_counts,
            inline_len: self.inline_len,
            spill_counts: spill,
            total: self.total,
        }
    }
}

impl ContextStats {
    /// The counts are in order, and a list is there only once there is no room without it.
    pub closed spec fn wf(&self) -> bool {
        &&& self.inline_len <= 4
        &&& self.spill_counts matches Some(list) ==> self.inline_len == 4 && list@.len() > 0
        &&& stats_ok(self@)
    }

    /// No counts.
    pub fn new() -> (stats: Self)
        ensures
            stats.wf(),
            stats@ == no_stats(),
    {
        let blank = CountEntry { symbol: 0, count: 0 };
        let stats = ContextStats {
            inline_counts: [blank, blank, blank, blank],
            inline_len: 0,
            spill_counts: None,
            total: 0,
        };
        proof {
            assert(stats@.entries =~= Seq::empty());
        }
        stats
    }

    /// How many bytes are counted without a list.
    pub fn inline_count(&self) -> (n: usize)
        requires
            self.wf(),
        ensures
            n == if self@.entries.len() <= 4 {
                self@.entries.len()
            } else {
                4
            },
    {
        self.inline_len as usize
    }

    /// Whether there is a list.
    pub fn has_spilled(&self) -> (yes: bool)
        requires
            self.wf(),
        ensures
            yes == (self@.entries.len() > 4),
    {
        self.spill_counts.is_some()
    }

    /// Sum of the counts.
    pub fn total(&self) -> (total: u32)
        ensures
            total == self@.total,
    {
        self.total
    }

    /// How many bytes are counted.
    pub fn distinct_len(&self) -> (n: usize)
        requires
            self.wf(),
        ensures
            n == self@.entries.len(),
    {
        let spilled: usize = match &self.spill_counts {
            Some(list) => list.len(),
            None => 0,
        };
        proof {
            lemma_few_entries(self@.entries);
        }
        self.inline_len as usize + spilled
    }

    /// Entry number `i`.
    pub fn entry(&self, i: usize) -> (e: CountEntry)
        requires
            self.wf(),
            i < self@.entries.len(),
        ensures
            e == self@.entries[i as int],
    {
        if i < self.inline_len as usize {
            self.inline_counts[i]
        } else {
            match &self.spill_counts {
                Some(list) => list[i - self.inline_len as usize],
                None => self.inline_counts[0],
            }
        }
    }

    fn set_entry(&mut self, i: usize, e: CountEntry)
        requires
            old(self).inline_len <= 4,
            old(self).spill_counts is Some ==> old(self).inline_len == 4,
            i < old(self)@.entries.len(),
        ensures
            final(self).inline_len == old(self).inline_len,
            final(self).spill_counts is Some == old(self).spill_counts is Some,
            final(self)@ == (StatsModel {
                entries: old(self)@.entries.update(i as int, e),
                ..old(self)@
            }),
    {
        let ghost before = self@;
        let n: usize = self.inline_len as usize;
        if i < n {
            self.inline_counts[i] = e;
        } else {
            match &mut self.spill_counts {
                Some(list) => {
                    list.set(i - n, e);
                },
                None => {},
            }
        }
        proof {
            assert(self@.entries =~= before.entries.update(i as int, e));
        }
    }

    fn push_new(&mut self, symbol: u8)
        requires
            old(self).inline_len <= 4,
            old(self).spill_counts is Some ==> old(self).inline_len == 4,
        ensures
            final(self).inline_len <= 4,
            final(self).spill_counts matches Some(list) ==> final(self).inline_len == 4
                && list@.len() > 0,
            final(self)@ == (StatsModel {
                entries: old(self)@.entries.push(CountEntry { symbol, count: 1 }),
                ..old(self)@
            }),
    {
        let ghost before = self@;
        let e = CountEntry { symbol, count: 1 };
        if (self.inline_len as usize) < INLINE_CONTEXT_COUNTS {
            let n: usize = self.inline_len as usize;
            self.inline_counts[n] = e;
            self.inline_len = self.inline_len + 1;
        } else {
            let mut list: Vec<CountEntry> = match self.spill_counts.take() {
                Some(list) => list,
                None => Vec::new(),
            };
            list.push(e);
            self.spill_counts = Some(list);
        }
        proof {
            assert(self@.entries =~= before.entries.push(e));
        }
    }

    /// Counts a byte.
    pub fn observe(&mut self, symbol: u8)
        requires
            old(self).wf(),
        ensures
            final(self).wf(),
            final(self)@ == stats_after(old(self)@, symbol),
    {
        let ghost before = self@;
        proof {
            law_stats_stay_ok(before, symbol);
            lemma_entries_sum_bounds(before.entries, before.entries.len() as int);
            lemma_entry_index(before.entries, symbol, 0);
        }
        let n: usize = self.distinct_len();
        let mut at: usize = 0;
        while at < n && self.entry(at).symbol != symbol
            invariant
                at <= n == self@.entries.len(),
                self.wf(),
                self@ == before,
                entry_index(before.entries, symbol, 0) == entry_index(
                    before.entries,
                    symbol,
                    at as int,
                ),
            decreases n - at,
        {
            at += 1;
        }
        if at < n {
            let e = self.entry(at);
            self.set_entry(at, CountEntry { symbol, count: e.count + 1 });
        } else {
            self.push_new(symbol);
        }
        self.total = self.total + 1;
        proof {
            assert(self@.entries =~= entries_after(before.entries, symbol));
        }
        if self.total > PPMD_RESCALE {
            self.rescale();
        }
    }

    fn rescale(&mut self)
        requires
            old(self).inline_len <= 4,
            old(self).spill_counts is Some ==> old(self).inline_len == 4,
            old(self)@.entries.len() <= 256,
            forall|i: int|
                0 <= i < old(self)@.entries.len() ==> (#[trigger] old(self)@.entries[i]).count >= 1,
            old(self)@.total == entries_sum(
                old(self)@.entries,
                old(self)@.entries.len() as int,
            ),
        ensures
            final(self).inline_len == old(self).inline_len,
            final(self).spill_counts is Some == old(self).spill_counts is Some,
            final(self)@.entries == halved_entries(old(self)@.entries),
            final(self)@.total == entries_sum(
                final(self)@.entries,
                final(self)@.entries.len() as int,
            ),
    {
        let ghost before = self@.entries;
        let ghost half = halved_entries(before);
        let spilled: usize = match &self.spill_counts {
            Some(list) => list.len(),
            None => 0,
        };
        let n: usize = self.inline_len as usize + spilled;
        proof {
            lemma_entries_sum_bounds(before, before.len() as int);
        }
        let mut total: u32 = 0;
        let mut i: usize = 0;
        while i < n
            invariant
                i <= n == before.len(),
                n <= 256,
                half == halved_entries(before),
                self.inline_len == old(self).inline_len,
                self.inline_len <= 4,
                self.spill_counts is Some == old(self).spill_counts is Some,
                self.spill_counts is Some ==> self.inline_len == 4,
                self@.entries.len() == n,
                self@.total == old(self)@.total,
                forall|j: int| 0 <= j < i ==> self@.entries[j] == half[j],
                forall|j: int| i <= j < n ==> self@.entries[j] == before[j],
                total == entries_sum(half, i as int),
                total <= i * 65536,
            decreases n - i,
        {
            let inline: usize = self.inline_len as usize;
            let e = if i < inline {
                self.inline_counts[i]
            } else {
                match &self.spill_counts {
                    Some(list) => list[i - inline],
                    None => self.inline_counts[0],
                }
            };
            proof {
                assert(e == self@.entries[i as int]);
                assert(half[i as int] == halved_entry(e));
            }
            let c: u16 = e.count / 2 + e.count % 2;
            self.set_entry(i, CountEntry { symbol: e.symbol, count: c });
            total = total + c as u32;
            i += 1;
        }
        self.total = total;
        proof {
            assert(self@.entries =~= half);
        }
    }
}

// ---------------------------------------------------------------------------------------
// All contexts
// ---------------------------------------------------------------------------------------

/// A hash with one more byte.
pub open spec fn ppmd_hash(hash: u64, byte: u8) -> u64 {
    (hash ^ (byte as u64)).wrapping_mul(PPMD_HASH_FACTOR)
}

/// Hash of bytes.
pub open spec fn ppmd_hash_of(bytes: Seq<u8>) -> u64
    decreases bytes.len(),
{
    if bytes.len() == 0 {
        PPMD_HASH_START
    } else {
        ppmd_hash(ppmd_hash_of(bytes.drop_last()), bytes.last())
    }
}

/// Key of the context of the last `ord` bytes.
pub open spec fn suffix_key(h: Seq<u8>, ord: int) -> u64 {
    if ord == 0 {
        0
    } else {
        ppmd_hash_of(h.subrange(h.len() - ord, h.len() as int))
    }
}

/// Keys roll: the key of a longer history is the key of the shorter context with one more byte.
pub proof fn law_keys_roll(h: Seq<u8>, b: u8, ord: int)
    requires
        1 <= ord <= h.len() + 1,
    ensures
        suffix_key(h.push(b), ord) == ppmd_hash(
            if ord == 1 {
                PPMD_HASH_START
            } else {
                suffix_key(h, ord - 1)
            },
            b,
        ),
{
    let long = h.push(b).subrange(h.len() + 1 - ord, (h.len() + 1) as int);
    assert(long.drop_last() =~= h.subrange(h.len() - (ord - 1), h.len() as int));
    assert(long.last() == b);
    assert(suffix_key(h.push(b), ord) == ppmd_hash_of(long));
    if ord == 1 {
        assert(long.drop_last().len() == 0);
        assert(ppmd_hash_of(long.drop_last()) == PPMD_HASH_START);
    }
}

/// State of a model.
#[verifier::ext_equal]
pub struct PpmdView {
    pub order: nat,
    pub max_contexts: nat,
    /// Counts by key, for each length of a context.
    pub contexts: Seq<Map<u64, StatsModel>>,
    /// Contexts in the order in which they came.
    pub queue: Seq<(usize, u64)>,
    pub history: Seq<u8>,
}

/// The longest context that there is.
pub open spec fn longest(m: PpmdView) -> nat {
    if m.order <= m.history.len() {
        m.order
    } else {
        m.history.len()
    }
}

/// A byte is counted behind the context of `ord` bytes. A context that is new joins the queue.
pub open spec fn counted_behind(m: PpmdView, symbol: u8, ord: int) -> PpmdView {
    let key = suffix_key(m.history, ord);
    let map = m.contexts[ord];
    if map.dom().contains(key) {
        PpmdView {
            contexts: m.contexts.update(ord, map.insert(key, stats_after(map[key], symbol))),
            ..m
        }
    } else {
        PpmdView {
            contexts: m.contexts.update(ord, map.insert(key, stats_after(no_stats(), symbol))),
            queue: m.queue.push((ord as usize, key)),
            ..m
        }
    }
}

/// A byte is counted behind the contexts of fewer than `n` bytes.
pub open spec fn counted_behind_all(m: PpmdView, symbol: u8, n: int) -> PpmdView
    decreases n,
{
    if n <= 0 {
        m
    } else {
        counted_behind(counted_behind_all(m, symbol, n - 1), symbol, n - 1)
    }
}

/// How many contexts there are, of fewer than `n` bytes.
pub open spec fn contexts_held(contexts: Seq<Map<u64, StatsModel>>, n: int) -> nat
    decreases n,
{
    if n <= 0 {
        0
    } else {
        contexts_held(contexts, n - 1) + contexts[n - 1].dom().len()
    }
}

/// While there are too many contexts, the oldest goes.
pub open spec fn pruned(m: PpmdView) -> PpmdView
    decreases m.queue.len(),
{
    if contexts_held(m.contexts, m.contexts.len() as int) <= m.max_contexts || m.queue.len() == 0 {
        m
    } else {
        let (ord, key) = m.queue[0];
        pruned(
            PpmdView {
                contexts: m.contexts.update(ord as int, m.contexts[ord as int].remove(key)),
                queue: m.queue.drop_first(),
                ..m
            },
        )
    }
}

/// State after a byte was fitted.
pub open spec fn ppmd_fitted(m: PpmdView, symbol: u8) -> PpmdView {
    let p = pruned(counted_behind_all(m, symbol, (longest(m) + 1) as int));
    PpmdView { history: p.history.push(symbol), ..p }
}

/// The contexts of fewer than `n` bytes that are held, the shortest first.
pub open spec fn active_stats(m: PpmdView, n: int) -> Seq<StatsModel>
    decreases n,
{
    if n <= 0 {
        Seq::empty()
    } else {
        let key = suffix_key(m.history, n - 1);
        let map = m.contexts[n - 1];
        if map.dom().contains(key) {
            active_stats(m, n - 1).push(map[key])
        } else {
            active_stats(m, n - 1)
        }
    }
}

/// Byte model that counts behind contexts of several lengths.
pub struct PpmdModel {
    order: usize,
    max_contexts: usize,
    contexts: Vec<HashedStore<ContextStats>>,
    queue: VecDeque<(usize, u64)>,
    history: Vec<u8>,
    suffix_keys: Vec<u64>,
}

/// What it takes to bring the history back.
pub struct PpmdLifecycleSnapshot {
    history: Vec<u8>,
    suffix_keys: Vec<u64>,
}

/// Contexts as mathematical objects.
pub open spec fn stores_view(list: Seq<HashedStore<ContextStats>>) -> Seq<Map<u64, StatsModel>> {
    list.map_values(|s: HashedStore<ContextStats>| s@)
}

/// Whether keys are those of the last bytes.
pub open spec fn keys_match(keys: Seq<u64>, h: Seq<u8>, order: int) -> bool {
    &&& keys.len() == order + 1
    &&& forall|ord: int|
        1 <= ord <= order && ord <= h.len() ==> #[trigger] keys[ord] == suffix_key(h, ord)
}

/// How many contexts a budget in units of 2^20 bytes allows.
pub open spec fn contexts_allowed(memory_mb: nat) -> nat {
    let mb = if memory_mb == 0 {
        1
    } else {
        memory_mb
    };
    let n = mb * 1048576 / 96;
    if n < 1024 {
        1024
    } else {
        n
    }
}

impl PpmdLifecycleSnapshot {
    /// The history.
    pub closed spec fn past(&self) -> Seq<u8> {
        self.history@
    }

    /// The keys are those of the history, for a model of the order.
    pub closed spec fn fits(&self, order: nat) -> bool {
        keys_match(self.suffix_keys@, self.history@, order as int)
    }
}

/// The places of the queue are lengths of contexts.
pub open spec fn queue_ok(queue: Seq<(usize, u64)>, order: int) -> bool {
    forall|i: int| 0 <= i < queue.len() ==> (#[trigger] queue[i]).0 <= order
}

/// Each context that is held is in the queue.
pub open spec fn all_queued(m: PpmdView) -> bool {
    forall|ord: int, key: u64|
        0 <= ord < m.contexts.len() && (#[trigger] m.contexts[ord]).dom().contains(key)
            ==> #[trigger] m.queue.contains((ord as usize, key))
}

proof fn lemma_queued_counted(m: PpmdView, symbol: u8, ord: int)
    requires
        all_queued(m),
        0 <= ord < m.contexts.len(),
        m.contexts.len() <= usize::MAX,
    ensures
        all_queued(counted_behind(m, symbol, ord)),
{
    let after = counted_behind(m, symbol, ord);
    let new_key = suffix_key(m.history, ord);
    assert forall|o: int, key: u64|
        0 <= o < after.contexts.len() && (#[trigger] after.contexts[o]).dom().contains(
            key,
        ) implies #[trigger] after.queue.contains((o as usize, key)) by {
        if m.contexts[o].dom().contains(key) {
            assert(m.queue.contains((o as usize, key)));
            let i = choose|i: int| 0 <= i < m.queue.len() && m.queue[i] == (o as usize, key);
            assert(after.queue[i] == (o as usize, key));
        } else {
            assert(o == ord && key == new_key);
            assert(after.queue.last() == (o as usize, key));
        }
    }
}

proof fn lemma_held_nothing(contexts: Seq<Map<u64, StatsModel>>, n: int)
    requires
        0 <= n <= contexts.len(),
        forall|o: int, key: u64|
            0 <= o < contexts.len() ==> !(#[trigger] contexts[o].dom().contains(key)),
    ensures
        contexts_held(contexts, n) == 0,
    decreases n,
{
    if n > 0 {
        lemma_held_nothing(contexts, n - 1);
        assert(contexts[n - 1].dom() =~= Set::empty());
    }
}

proof fn lemma_queued_pruned(m: PpmdView)
    requires
        all_queued(m),
        m.contexts.len() <= usize::MAX,
        m.queue.len() > 0,
        queue_ok(m.queue, m.contexts.len() - 1),
    ensures
        queue_ok(m.queue.drop_first(), m.contexts.len() - 1),
        all_queued(
            PpmdView {
                contexts: m.contexts.update(
                    m.queue[0].0 as int,
                    m.contexts[m.queue[0].0 as int].remove(m.queue[0].1),
                ),
                queue: m.queue.drop_first(),
                ..m
            },
        ),
{
    let (ord, key) = m.queue[0];
    assert(m.queue[0].0 <= m.contexts.len() - 1);
    let next = PpmdView {
        contexts: m.contexts.update(ord as int, m.contexts[ord as int].remove(key)),
        queue: m.queue.drop_first(),
        ..m
    };
    assert forall|i: int| 0 <= i < next.queue.len() implies (#[trigger] next.queue[i]).0
        <= m.contexts.len() - 1 by {
        assert(m.queue[i + 1].0 <= m.contexts.len() - 1);
    }
    assert forall|o: int, k: u64|
        0 <= o < next.contexts.len() && (#[trigger] next.contexts[o]).dom().contains(
            k,
        ) implies #[trigger] next.queue.contains((o as usize, k)) by {
        assert(m.contexts[o].dom().contains(k));
        assert(m.queue.contains((o as usize, k)));
        let i = choose|i: int| 0 <= i < m.queue.len() && m.queue[i] == (o as usize, k);
        assert(i != 0);
        assert(next.queue[i - 1] == (o as usize, k));
    }
}

/// Where each context that is held is in the queue, there are not too many contexts once the oldest
/// have gone.
pub proof fn law_memory_bounded(m: PpmdView)
    requires
        all_queued(m),
        queue_ok(m.queue, m.contexts.len() - 1),
        m.contexts.len() <= usize::MAX,
    ensures
        all_queued(pruned(m)),
        contexts_held(pruned(m).contexts, pruned(m).contexts.len() as int) <= m.max_contexts,
    decreases m.queue.len(),
{
    if contexts_held(m.contexts, m.contexts.len() as int) <= m.max_contexts {
    } else if m.queue.len() == 0 {
        assert forall|o: int, key: u64| 0 <= o < m.contexts.len() implies !(
        #[trigger] m.contexts[o].dom().contains(key)) by {
            if m.contexts[o].dom().contains(key) {
                assert(m.queue.contains((o as usize, key)));
            }
        }
        lemma_held_nothing(m.contexts, m.contexts.len() as int);
    } else {
        let (ord, key) = m.queue[0];
        let next = PpmdView {
            contexts: m.contexts.update(ord as int, m.contexts[ord as int].remove(key)),
            queue: m.queue.drop_first(),
            ..m
        };
        lemma_queued_pruned(m);
        law_memory_bounded(next);
    }
}

proof fn lemma_held_update(
    contexts: Seq<Map<u64, StatsModel>>,
    ord: int,
    key: u64,
    n: int,
)
    requires
        0 <= ord < contexts.len(),
        0 <= n <= contexts.len(),
        contexts[ord].dom().finite(),
    ensures
        contexts_held(contexts.update(ord, contexts[ord].remove(key)), n) == if ord < n
            && contexts[ord].dom().contains(key) {
            contexts_held(contexts, n) - 1
        } else {
            contexts_held(contexts, n) as int
        },
    decreases n,
{
    if n > 0 {
        lemma_held_update(contexts, ord, key, n - 1);
        if n - 1 == ord {
            let map = contexts[ord];
            assert(map.remove(key).dom() =~= map.dom().remove(key));
        }
    }
}

impl PpmdModel {
    /// The mathematical object.
    pub closed spec fn model(&self) -> PpmdView {
        PpmdView {
            order: self.order as nat,
            max_contexts: self.max_contexts as nat,
            contexts: stores_view(self.contexts@),
            queue: self.queue@,
            history: self.history@,
        }
    }

    /// There is a store for each length of a context, the keys are those of the last bytes, and
    /// the queue speaks of stores that are there and of each context that is held.
    pub closed spec fn wf(&self) -> bool {
        &&& 1 <= self.order < usize::MAX
        &&& self.contexts@.len() == self.order + 1
        &&& forall|i: int| 0 <= i < self.contexts@.len() ==> (#[trigger] self.contexts@[i]).wf()
        &&& queue_ok(self.queue@, self.order as int)
        &&& all_queued(self.model())
        &&& keys_match(self.suffix_keys@, self.history@, self.order as int)
    }

    /// A model with contexts of up to `order` bytes, and room for `memory_mb` times 2^20 bytes.
    pub fn new(order: usize, memory_mb: usize) -> (model: Self)
        requires
            order < usize::MAX,
            memory_mb * 1048576 <= usize::MAX,
        ensures
            model.wf(),
            model.model() == (PpmdView {
                order: if order == 0 {
                    1
                } else {
                    order as nat
                },
                max_contexts: contexts_allowed(memory_mb as nat),
                contexts: Seq::new(
                    if order == 0 {
                        2
                    } else {
                        order as nat + 1
                    },
                    |i: int| Map::<u64, StatsModel>::empty(),
                ),
                queue: Seq::empty(),
                history: Seq::empty(),
            }),
    {
        let order: usize = if order == 0 {
            1
        } else {
            order
        };
        let mb: usize = if memory_mb == 0 {
            1
        } else {
            memory_mb
        };
        let room: usize = mb * 1048576 / 96;
        let max_contexts: usize = if room < 1024 {
            1024
        } else {
            room
        };
        let mut contexts: Vec<HashedStore<ContextStats>> = Vec::new();
        let mut i: usize = 0;
        while i <= order
            invariant
                i <= order + 1,
                order < usize::MAX,
                contexts@.len() == i,
                forall|j: int|
                    0 <= j < i ==> (#[trigger] contexts@[j]).wf() && contexts@[j]@ == Map::<
                        u64,
                        StatsModel,
                    >::empty(),
            decreases order + 1 - i,
        {
            contexts.push(HashedStore::new());
            i += 1;
        }
        let suffix_keys: Vec<u64> = vec![0; order + 1];
        let model = PpmdModel {
            order,
            max_contexts,
            contexts,
            queue: VecDeque::new(),
            history: Vec::new(),
            suffix_keys,
        };
        proof {
            assert(model.model().contexts =~= Seq::new(
                (order + 1) as nat,
                |i: int| Map::<u64, StatsModel>::empty(),
            ));
            assert(model.model().queue =~= Seq::empty());
            assert(model.model().history =~= Seq::empty());
        }
        model
    }

    /// Key of the context of the last `ord` bytes.
    pub fn context_key(&self, ord: usize) -> (key: u64)
        requires
            self.wf(),
            ord <= longest(self.model()),
        ensures
            key == suffix_key(self.model().history, ord as int),
    {
        if ord == 0 {
            0
        } else {
            self.suffix_keys[ord]
        }
    }

    /// The last bytes.
    pub fn history(&self) -> (history: &Vec<u8>)
        ensures
            history@ == self.model().history,
    {
        &self.history
    }

    /// The longest context that there is.
    pub fn longest_context(&self) -> (n: usize)
        ensures
            n == longest(self.model()),
    {
        if self.order <= self.history.len() {
            self.order
        } else {
            self.history.len()
        }
    }

    fn count_behind(&mut self, ord: usize, symbol: u8)
        requires
            old(self).wf(),
            ord <= longest(old(self).model()),
        ensures
            final(self).wf(),
            final(self).model() == counted_behind(old(self).model(), symbol, ord as int),
    {
        let ghost before = self.model();
        let ghost stores = self.contexts@;
        let key: u64 = self.context_key(ord);
        let fresh: bool = self.contexts[ord].get(key).is_none();
        proof {
            assert(before.contexts[ord as int] == stores[ord as int]@);
        }
        if fresh {
            self.queue.push_back((ord, key));
            let mut stats = ContextStats::new();
            stats.observe(symbol);
            let store = &mut self.contexts[ord];
            store.insert(key, stats);
        } else {
            let store = &mut self.contexts[ord];
            match store.get_mut(key) {
                Some(stats) => {
                    stats.observe(symbol);
                },
                None => {},
            }
        }
        proof {
            lemma_queued_counted(before, symbol, ord as int);
            assert(self.model().contexts =~= counted_behind(before, symbol, ord as int).contexts);
            assert(self.model().queue =~= counted_behind(before, symbol, ord as int).queue);
        }
    }

    /// Fits a byte.
    pub fn update(&mut self, symbol: u8)
        requires
            old(self).wf(),
        ensures
            final(self).wf(),
            final(self).model() == ppmd_fitted(old(self).model(), symbol),
            contexts_held(
                final(self).model().contexts,
                final(self).model().contexts.len() as int,
            ) <= final(self).model().max_contexts,
    {
        let ghost before = self.model();
        let top: usize = self.longest_context();
        let mut ord: usize = 0;
        while ord <= top
            invariant
                self.wf(),
                ord <= top + 1,
                top == longest(before),
                top < usize::MAX,
                self.model() == counted_behind_all(before, symbol, ord as int),
                self.model().history == before.history,
                self.model().order == before.order,
            decreases top + 1 - ord,
        {
            self.count_behind(ord, symbol);
            ord += 1;
        }
        self.prune();
        self.append_history_symbol(symbol);
    }

    fn prune(&mut self)
        requires
            old(self).wf(),
        ensures
            final(self).wf(),
            final(self).model() == pruned(old(self).model()),
            final(self).model().history == old(self).model().history,
            final(self).model().max_contexts == old(self).model().max_contexts,
            contexts_held(
                final(self).model().contexts,
                final(self).model().contexts.len() as int,
            ) <= final(self).model().max_contexts,
    {
        let ghost before = self.model();
        proof {
            law_memory_bounded(before);
        }
        let n: usize = self.contexts.len();
        let mut total: u128 = 0;
        let mut i: usize = 0;
        while i < n
            invariant
                self.wf(),
                self.model() == before,
                i <= n == self.contexts@.len(),
                total == contexts_held(before.contexts, i as int),
                total <= i * 0x1_0000_0000_0000_0000,
            decreases n - i,
        {
            let len: usize = self.contexts[i].len();
            proof {
                assert(before.contexts[i as int] == self.contexts@[i as int]@);
            }
            total = total + len as u128;
            i += 1;
        }
        let most: u128 = self.max_contexts as u128;
        while total > most && self.queue.len() > 0
            invariant
                self.wf(),
                self.max_contexts == before.max_contexts,
                most == self.max_contexts,
                self.model().history == before.history,
                total == contexts_held(self.model().contexts, self.contexts@.len() as int),
                pruned(self.model()) == pruned(before),
            decreases self.queue@.len(),
        {
            let ghost m = self.model();
            let ghost stores = self.contexts@;
            match self.queue.pop_front() {
                None => {},
                Some((ord, key)) => {
                    proof {
                        assert(m.queue[0] == (ord, key));
                        assert(ord <= self.order);
                        assert(m.contexts[ord as int] == stores[ord as int]@);
                    }
                    let known: usize = self.contexts[ord].len();
                    proof {
                        lemma_held_update(m.contexts, ord as int, key, m.contexts.len() as int);
                    }
                    let store = &mut self.contexts[ord];
                    let gone = store.remove(key);
                    if gone.is_some() {
                        total = total - 1;
                    }
                    proof {
                        assert(self.model().contexts =~= m.contexts.update(
                            ord as int,
                            m.contexts[ord as int].remove(key),
                        ));
                        assert(self.model().queue =~= m.queue.drop_first());
                        lemma_queued_pruned(m);
                    }
                },
            }
        }
    }

    fn append_history_symbol(&mut self, symbol: u8)
        requires
            old(self).wf(),
        ensures
            final(self).wf(),
            final(self).model() == (PpmdView {
                history: old(self).model().history.push(symbol),
                ..old(self).model()
            }),
    {
        let ghost h = self.history@;
        let ghost keys = self.suffix_keys@;
        let n: usize = self.history.len();
        let top: usize = if self.order <= n {
            self.order
        } else {
            n + 1
        };
        let mut ord: usize = top;
        while ord >= 1
            invariant
                ord <= top,
                top <= self.order,
                top <= h.len() + 1,
                top == self.order || top == h.len() + 1,
                self.suffix_keys@.len() == self.order + 1,
                keys_match(keys, h, self.order as int),
                self.order == old(self).order,
                self.max_contexts == old(self).max_contexts,
                self.contexts == old(self).contexts,
                self.queue == old(self).queue,
                self.history == old(self).history,
                h == self.history@,
                forall|k: int| ord < k <= top ==> #[trigger] self.suffix_keys@[k] == suffix_key(
                    h.push(symbol),
                    k,
                ),
                forall|k: int| 0 <= k <= ord ==> #[trigger] self.suffix_keys@[k] == keys[k],
            decreases ord,
        {
            let base: u64 = if ord == 1 {
                PPMD_HASH_START
            } else {
                self.suffix_keys[ord - 1]
            };
            let key: u64 = (base ^ (symbol as u64)).wrapping_mul(PPMD_HASH_FACTOR);
            proof {
                law_keys_roll(h, symbol, ord as int);
                if ord > 1 {
                    assert(keys[ord - 1] == suffix_key(h, ord - 1));
                }
            }
            self.suffix_keys.set(ord, key);
            ord -= 1;
        }
        self.suffix_keys.set(0, 0);
        self.history.push(symbol);
        proof {
            assert(self.model().contexts == old(self).model().contexts);
            assert(self.model().queue == old(self).model().queue);
            assert(all_queued(self.model()));
        }
    }

    /// Forgets the last bytes; the counts stay.
    pub fn reset_history(&mut self)
        requires
            old(self).wf(),
        ensures
            final(self).wf(),
            final(self).model() == (PpmdView { history: Seq::empty(), ..old(self).model() }),
    {
        self.history.clear();
        let n: usize = self.suffix_keys.len();
        self.suffix_keys = vec![0; n];
        proof {
            assert(self.history@ =~= Seq::empty());
        }
    }

    /// Conditions on a byte.
    pub fn update_history_only(&mut self, symbol: u8)
        requires
            old(self).wf(),
        ensures
            final(self).wf(),
            final(self).model() == (PpmdView {
                history: old(self).model().history.push(symbol),
                ..old(self).model()
            }),
    {
        self.append_history_symbol(symbol);
    }

    /// The last bytes, to come back to.
    pub fn lifecycle_snapshot(&self) -> (snapshot: PpmdLifecycleSnapshot)
        requires
            self.wf(),
        ensures
            snapshot.past() == self.model().history,
            snapshot.fits(self.model().order),
    {
        let history = self.history.clone();
        let suffix_keys = self.suffix_keys.clone();
        proof {
            assert(history@ =~= self.history@);
            assert(suffix_keys@ =~= self.suffix_keys@);
        }
        PpmdLifecycleSnapshot { history, suffix_keys }
    }

    /// Comes back to last bytes; the counts stay.
    pub fn restore_lifecycle_snapshot(&mut self, snapshot: PpmdLifecycleSnapshot)
        requires
            old(self).wf(),
            snapshot.fits(old(self).model().order),
        ensures
            final(self).wf(),
            final(self).model() == (PpmdView { history: snapshot.past(), ..old(self).model() }),
    {
        self.history = snapshot.history;
        self.suffix_keys = snapshot.suffix_keys;
    }

    /// A second model in the same state.
    pub fn duplicate(&self) -> (copy: Self)
        requires
            self.wf(),
        ensures
            copy.wf(),
            copy.model() == self.model(),
    {
        let mut contexts: Vec<HashedStore<ContextStats>> = Vec::new();
        let n: usize = self.contexts.len();
        let mut i: usize = 0;
        while i < n
            invariant
                self.wf(),
                i <= n == self.contexts@.len(),
                contexts@.len() == i,
                forall|j: int|
                    0 <= j < i ==> (#[trigger] contexts@[j]).wf() && contexts@[j]@
                        == self.contexts@[j]@,
            decreases n - i,
        {
            let c = self.contexts[i].duplicate();
            contexts.push(c);
            i += 1;
        }
        let mut queue: VecDeque<(usize, u64)> = VecDeque::new();
        let q: usize = self.queue.len();
        let mut k: usize = 0;
        while k < q
            invariant
                k <= q == self.queue@.len(),
                queue@ == self.queue@.take(k as int),
            decreases q - k,
        {
            let e: (usize, u64) = self.queue[k];
            queue.push_back(e);
            proof {
                assert(queue@ =~= self.queue@.take(k + 1));
            }
            k += 1;
        }
        let snapshot = self.lifecycle_snapshot();
        let copy = PpmdModel {
            order: self.order,
            max_contexts: self.max_contexts,
            contexts,
            queue,
            history: snapshot.history,
            suffix_keys: snapshot.suffix_keys,
        };
        proof {
            assert(self.queue@.take(q as int) =~= self.queue@);
            assert(copy.model().contexts =~= self.model().contexts);
        }
        copy
    }

    /// The contexts that the last bytes end with and that are held, the shortest first.
    pub fn active_contexts(&self) -> (list: Vec<&ContextStats>)
        requires
            self.wf(),
        ensures
            list@.map_values(|s: &ContextStats| s@) == active_stats(
                self.model(),
                (longest(self.model()) + 1) as int,
            ),
            forall|i: int| 0 <= i < list@.len() ==> (#[trigger] list@[i]).wf(),
            forall|ord: int|
                0 <= ord <= self.model().order && ord <= self.model().history.len()
                    && #[trigger] self.model().contexts[ord].dom().contains(
                    suffix_key(self.model().history, ord),
                ) ==> exists|at: int|
                    0 <= at < list@.len() && (#[trigger] list@[at])@ == self.model().contexts[ord][suffix_key(
                        self.model().history,
                        ord,
                    )],
    {
        let top: usize = self.longest_context();
        let ghost m = self.model();
        let mut list: Vec<&ContextStats> = Vec::new();
        let mut ord: usize = 0;
        proof {
            assert(list@.map_values(|s: &ContextStats| s@) =~= active_stats(m, 0));
        }
        while ord <= top
            invariant
                self.wf(),
                m == self.model(),
                ord <= top + 1,
                top == longest(m),
                top < usize::MAX,
                list@.map_values(|s: &ContextStats| s@) == active_stats(m, ord as int),
                forall|i: int| 0 <= i < list@.len() ==> (#[trigger] list@[i]).wf(),
            decreases top + 1 - ord,
        {
            let key: u64 = self.context_key(ord);
            match self.contexts[ord].get(key) {
                Some(s) => {
                    list.push(s);
                },
                None => {},
            }
            proof {
                assert(m.contexts[ord as int] == self.contexts@[ord as int]@);
                assert(list@.map_values(|s: &ContextStats| s@) =~= active_stats(m, ord + 1));
            }
            ord += 1;
        }
        proof {
            let seen = list@.map_values(|s: &ContextStats| s@);
            assert forall|o: int|
                0 <= o <= m.order && o <= m.history.len() && #[trigger] m.contexts[o].dom().contains(
                    suffix_key(m.history, o),
                ) implies exists|at: int|
                0 <= at < list@.len() && (#[trigger] list@[at])@ == m.contexts[o][suffix_key(
                    m.history,
                    o,
                )] by {
                ppmd_laws::law_active_contexts(m, o);
                let at = places::places(o, ppmd_laws::is_held(m)) as int;
                assert(seen[at] == list@[at]@);
            }
        }
        list
    }
}

} // verus!
