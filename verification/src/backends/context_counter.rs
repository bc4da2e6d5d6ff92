//! Counters of the bytes that follow a context, in a table of bounded size.

use std::sync::Arc;
use vstd::prelude::*;

use crate::hashed_store::{HashedStore, Twin};
use crate::shared::own_shared;

verus! {

/// Largest number of bits that a slot is found by.
pub const CONTEXT_COUNTER_MAX_HASH_BITS: usize = 24;

/// Longest context of an order model.
pub const ORDER_NGRAM_MAX_ORDER: usize = 8;

/// Total at which counts are halved.
pub const RESCALE_TOTAL: u32 = 0x10_0000;

/// Start of a hash.
pub const FNV_OFFSET: u64 = 0xcbf2_9ce4_8422_2325;

/// Factor of a hash.
pub const FNV_PRIME: u64 = 0x0000_0100_0000_01b3;

// ---------------------------------------------------------------------------------------
// Hashes
// ---------------------------------------------------------------------------------------

/// A hash with one more byte.
pub open spec fn hashed_byte(hash: u64, byte: u8) -> u64 {
    (hash ^ (byte as u64)).wrapping_mul(FNV_PRIME)
}

/// A hash with more bytes.
pub open spec fn hashed_bytes(hash: u64, bytes: Seq<u8>) -> u64
    decreases bytes.len(),
{
    if bytes.len() == 0 {
        hash
    } else {
        hashed_byte(hashed_bytes(hash, bytes.drop_last()), bytes.last())
    }
}

/// A hash with its bits mixed.
pub open spec fn mixed_hash(x: u64) -> u64 {
    let a = x ^ (x >> 33u64);
    let b = a.wrapping_mul(0xff51_afd7_ed55_8ccd);
    let c = b ^ (b >> 33u64);
    let d = c.wrapping_mul(0xc4ce_b9fe_1a85_ec53);
    d ^ (d >> 33u64)
}

/// Byte number `i` of a number, the lowest first.
pub open spec fn byte_of_number(value: u64, i: int) -> u8 {
    ((value >> ((8 * i) as u64)) & 0xff) as u8
}

/// Bytes of a number, the lowest first.
pub open spec fn bytes_of_number(value: u64) -> Seq<u8> {
    Seq::new(8, |i: int| byte_of_number(value, i))
}

/// A hash with one more byte.
pub fn hash_byte(hash: u64, byte: u8) -> (next: u64)
    ensures
        next == hashed_byte(hash, byte),
{
    (hash ^ (byte as u64)).wrapping_mul(FNV_PRIME)
}

/// A hash with the bytes of a number.
pub fn hash_u64(hash: u64, value: u64) -> (next: u64)
    ensures
        next == hashed_bytes(hash, bytes_of_number(value)),
{
    let ghost bytes = bytes_of_number(value);
    let mut h: u64 = hash;
    let mut i: u64 = 0;
    while i < 8
        invariant
            i <= 8,
            bytes == bytes_of_number(value),
            h == hashed_bytes(hash, bytes.take(i as int)),
        decreases 8 - i,
    {
        let b: u8 = ((value >> (8 * i)) & 0xff) as u8;
        proof {
            assert(bytes[i as int] == b);
            assert(bytes.take(i + 1).drop_last() =~= bytes.take(i as int));
        }
        h = hash_byte(h, b);
        i += 1;
    }
    proof {
        assert(bytes.take(8) =~= bytes);
    }
    h
}

/// A hash with its bits mixed.
pub fn finalize_hash(x: u64) -> (mixed: u64)
    ensures
        mixed == mixed_hash(x),
{
    let mut x: u64 = x;
    x = x ^ (x >> 33u64);
    x = x.wrapping_mul(0xff51_afd7_ed55_8ccd);
    x = x ^ (x >> 33u64);
    x = x.wrapping_mul(0xc4ce_b9fe_1a85_ec53);
    x ^ (x >> 33u64)
}

// ---------------------------------------------------------------------------------------
// Slots
// ---------------------------------------------------------------------------------------

/// Counts of the bytes that followed a context. Copies share the counts until one of them is
/// changed.
pub struct ContextSlot {
    pub tag: u64,
    pub total: u32,
    pub counts: Arc<Vec<u16>>,
}

/// [`ContextSlot`] as a mathematical object.
#[verifier::ext_equal]
pub struct SlotModel {
    pub tag: u64,
    pub total: nat,
    pub counts: Seq<u16>,
}

impl View for ContextSlot {
    type V = SlotModel;

    open spec fn view(&self) -> SlotModel {
        SlotModel { tag: self.tag, total: self.total as nat, counts: self.counts@ }
    }
}

impl Twin for ContextSlot {
    open spec fn valid(&self) -> bool {
        slot_ok(self@)
    }

    fn twin(&self) -> (twin: Self) {
        ContextSlot { tag: self.tag, total: self.total, counts: self.counts.clone() }
    }
}

/// Sum of the first `n` counts.
pub open spec fn counts_sum(counts: Seq<u16>, n: int) -> nat
    decreases n,
{
    if n <= 0 {
        0
    } else {
        counts_sum(counts, n - 1) + counts[n - 1] as nat
    }
}

/// A count that is halved, but not to nothing.
pub open spec fn halved(count: u16) -> u16 {
    if count == 1 {
        1
    } else {
        count / 2
    }
}

/// No counts.
pub open spec fn fresh_slot(tag: u64) -> SlotModel {
    SlotModel { tag, total: 0, counts: Seq::new(256, |i: int| 0u16) }
}

/// Counts that are halved.
pub open spec fn rescaled(slot: SlotModel) -> SlotModel {
    let counts = slot.counts.map_values(|c: u16| halved(c));
    SlotModel { tag: slot.tag, total: counts_sum(counts, 256), counts }
}

/// Counts with one more byte. They are halved before they grow too large.
pub open spec fn counted_once(slot: SlotModel, symbol: u8) -> SlotModel {
    let base = if slot.total >= RESCALE_TOTAL || slot.counts[symbol as int] == u16::MAX {
        rescaled(slot)
    } else {
        slot
    };
    SlotModel {
        tag: slot.tag,
        total: base.total + 1,
        counts: base.counts.update(symbol as int, (base.counts[symbol as int] + 1) as u16),
    }
}

/// There is a count for each byte, and the total is their sum.
pub open spec fn slot_ok(slot: SlotModel) -> bool {
    &&& slot.counts.len() == 256
    &&& slot.total == counts_sum(slot.counts, 256)
    &&& slot.total <= RESCALE_TOTAL
}

proof fn lemma_sum_update(counts: Seq<u16>, at: int, value: u16, n: int)
    requires
        0 <= at < counts.len(),
        0 <= n <= counts.len(),
    ensures
        counts_sum(counts.update(at, value), n) == if at < n {
            counts_sum(counts, n) - counts[at] + value
        } else {
            counts_sum(counts, n) as int
        },
    decreases n,
{
    if n > 0 {
        lemma_sum_update(counts, at, value, n - 1);
    }
}

proof fn lemma_sum_zero(n: int)
    requires
        0 <= n <= 256,
    ensures
        counts_sum(Seq::new(256, |i: int| 0u16), n) == 0,
    decreases n,
{
    if n > 0 {
        lemma_sum_zero(n - 1);
    }
}

proof fn lemma_sum_halved(counts: Seq<u16>, n: int)
    requires
        0 <= n <= counts.len(),
    ensures
        2 * counts_sum(counts.map_values(|c: u16| halved(c)), n) <= counts_sum(counts, n) + n,
    decreases n,
{
    if n > 0 {
        lemma_sum_halved(counts, n - 1);
    }
}

/// Counting keeps the total the sum of the counts.
pub proof fn law_counting_keeps_order(slot: SlotModel, symbol: u8)
    requires
        slot_ok(slot),
    ensures
        slot_ok(counted_once(slot, symbol)),
{
    let base = if slot.total >= RESCALE_TOTAL || slot.counts[symbol as int] == u16::MAX {
        rescaled(slot)
    } else {
        slot
    };
    lemma_sum_halved(slot.counts, 256);
    lemma_sum_update(
        base.counts,
        symbol as int,
        (base.counts[symbol as int] + 1) as u16,
        256,
    );
}

/// A context that was never seen has counts in order.
pub proof fn law_fresh_slot(tag: u64)
    ensures
        slot_ok(fresh_slot(tag)),
{
    lemma_sum_zero(256);
}

fn new_slot(tag: u64) -> (slot: ContextSlot)
    ensures
        slot@ == fresh_slot(tag),
{
    let counts: Vec<u16> = vec![0; 256];
    proof {
        assert(counts@ =~= Seq::new(256, |i: int| 0u16));
    }
    ContextSlot { tag, total: 0, counts: Arc::new(counts) }
}

fn halve_counts(counts: &mut Vec<u16>) -> (total: u32)
    requires
        old(counts)@.len() == 256,
        counts_sum(old(counts)@, 256) <= u32::MAX - 256,
    ensures
        final(counts)@ == old(counts)@.map_values(|c: u16| halved(c)),
        total == counts_sum(final(counts)@, 256),
{
    let ghost before = counts@;
    let ghost goal = before.map_values(|c: u16| halved(c));
    let mut total: u32 = 0;
    let mut i: usize = 0;
    while i < 256
        invariant
            i <= 256,
            counts@.len() == 256 == before.len(),
            goal == before.map_values(|c: u16| halved(c)),
            forall|j: int| 0 <= j < i ==> counts@[j] == goal[j],
            forall|j: int| i <= j < 256 ==> counts@[j] == before[j],
            total == counts_sum(goal, i as int),
            counts_sum(before, 256) <= u32::MAX - 256,
        decreases 256 - i,
    {
        let c: u16 = counts[i];
        let h: u16 = if c == 1 {
            1
        } else {
            c / 2
        };
        counts.set(i, h);
        proof {
            lemma_sum_halved(before, i as int);
            lemma_sum_grows(before, i + 1, 256);
            assert(goal[i as int] == h);
        }
        total = total + h as u32;
        i += 1;
    }
    proof {
        assert(counts@ =~= goal);
    }
    total
}

proof fn lemma_sum_grows(counts: Seq<u16>, a: int, b: int)
    requires
        0 <= a <= b,
    ensures
        counts_sum(counts, a) <= counts_sum(counts, b),
    decreases b - a,
{
    if a < b {
        lemma_sum_grows(counts, a, b - 1);
    }
}

impl ContextSlot {
    fn observe(&mut self, symbol: u8)
        requires
            slot_ok(old(self)@),
        ensures
            final(self)@ == counted_once(old(self)@, symbol),
            slot_ok(final(self)@),
    {
        let ghost before = self@;
        proof {
            law_counting_keeps_order(before, symbol);
            lemma_sum_halved(before.counts, 256);
        }
        let at: usize = symbol as usize;
        let full: bool = self.total >= RESCALE_TOTAL || self.counts[at] == u16::MAX;
        let own = own_shared(&mut self.counts);
        proof {
            assert(own@ =~= before.counts);
        }
        if full {
            self.total = halve_counts(own);
        }
        let c: u16 = own[at];
        proof {
            assert(c < u16::MAX);
        }
        own.set(at, c + 1);
        self.total = self.total + 1;
        proof {
            assert(self@ =~= counted_once(before, symbol));
        }
    }
}

// ---------------------------------------------------------------------------------------
// Table
// ---------------------------------------------------------------------------------------

/// Why a model was refused.
#[derive(Clone, Copy, Debug, PartialEq, Eq, Structural)]
pub enum CounterError {
    /// The number of bits is out of range.
    HashBits,
    /// The order is out of range.
    Order,
    /// The size cannot be represented.
    Overflow,
}

impl CounterError {
    /// What to tell the user.
    pub fn message(&self) -> (text: &'static str)
        ensures
            text@ == (match self {
                CounterError::HashBits => "context-counter hash_bits must be in 1..=24"@,
                CounterError::Order => "order-ngram order must be in 1..=8"@,
                CounterError::Overflow =>
                    "context-counter maximum resident payload size overflow"@,
            }),
    {
        match self {
            CounterError::HashBits => "context-counter hash_bits must be in 1..=24",
            CounterError::Order => "order-ngram order must be in 1..=8",
            CounterError::Overflow => "context-counter maximum resident payload size overflow",
        }
    }
}

/// Slot of a key.
pub open spec fn slot_index(key: u64, bits: u64) -> u64 {
    key & (((1u64 << bits) - 1) as u64)
}

/// What tells the key from others of the same slot.
pub open spec fn slot_tag(key: u64, bits: u64) -> u64 {
    key >> bits
}

/// Two keys with the same slot and the same tag are the same.
pub proof fn law_slot_and_tag_determine_key(a: u64, b: u64, bits: u64)
    requires
        bits < 64,
        slot_index(a, bits) == slot_index(b, bits),
        slot_tag(a, bits) == slot_tag(b, bits),
    ensures
        a == b,
{
    assert(bits < 64 ==> 1u64 << bits >= 1) by (bit_vector);
    let mask = ((1u64 << bits) - 1) as u64;
    assert(bits < 64 && mask == ((1u64 << bits) - 1) as u64 && a & mask == b & mask && a >> bits
        == b >> bits ==> a == b) by (bit_vector);
}

/// A slot as it was.
pub struct SlotUndo {
    pub index: u64,
    pub previous: Option<ContextSlot>,
}

/// A slot, if there is one, as a mathematical object.
pub open spec fn slot_model(slot: Option<ContextSlot>) -> Option<SlotModel> {
    match slot {
        Some(s) => Some(s@),
        None => None,
    }
}

/// Slots with one as it was.
pub open spec fn slot_put_back(
    slots: Map<u64, SlotModel>,
    index: u64,
    previous: Option<SlotModel>,
) -> Map<u64, SlotModel> {
    match previous {
        Some(s) => slots.insert(index, s),
        None => slots.remove(index),
    }
}

/// Slots as they were when the journal had `n` entries.
pub open spec fn rolled_back(
    slots: Map<u64, SlotModel>,
    journal: Seq<(u64, Option<SlotModel>)>,
    n: int,
) -> Map<u64, SlotModel>
    decreases journal.len(),
{
    if journal.len() <= n || journal.len() == 0 {
        slots
    } else {
        rolled_back(
            slot_put_back(slots, journal.last().0, journal.last().1),
            journal.drop_last(),
            n,
        )
    }
}

/// Counters by context.
pub struct HashedCounterCore {
    slots: HashedStore<ContextSlot>,
    hash_bits: u64,
    journal: Vec<SlotUndo>,
    depth: usize,
}

/// [`HashedCounterCore`] as a mathematical object.
#[verifier::ext_equal]
pub struct CoreModel {
    pub slots: Map<u64, SlotModel>,
    pub hash_bits: u64,
    pub journal: Seq<(u64, Option<SlotModel>)>,
    pub depth: nat,
}

/// Journal as a mathematical object.
pub open spec fn journal_model(journal: Seq<SlotUndo>) -> Seq<(u64, Option<SlotModel>)> {
    journal.map_values(|u: SlotUndo| (u.index, slot_model(u.previous)))
}

/// No counts.
pub open spec fn empty_core(bits: nat) -> CoreModel {
    CoreModel {
        slots: Map::empty(),
        hash_bits: bits as u64,
        journal: Seq::empty(),
        depth: 0,
    }
}

/// Counts of a context, where it has any.
pub open spec fn slot_for(m: CoreModel, key: u64) -> Option<SlotModel> {
    let index = slot_index(key, m.hash_bits);
    if m.slots.dom().contains(index) && m.slots[index].tag == slot_tag(key, m.hash_bits) {
        Some(m.slots[index])
    } else {
        None
    }
}

/// A byte is counted behind a context. A context that finds its slot taken by another drives it
/// out.
pub open spec fn observed_in(m: CoreModel, key: u64, symbol: u8) -> CoreModel {
    let index = slot_index(key, m.hash_bits);
    let base = match slot_for(m, key) {
        Some(s) => s,
        None => fresh_slot(slot_tag(key, m.hash_bits)),
    };
    CoreModel {
        slots: m.slots.insert(index, counted_once(base, symbol)),
        journal: if m.depth > 0 {
            m.journal.push(
                (
                    index,
                    if m.slots.dom().contains(index) {
                        Some(m.slots[index])
                    } else {
                        None
                    },
                ),
            )
        } else {
            m.journal
        },
        ..m
    }
}

/// What is counted under a checkpoint can be taken back.
pub proof fn law_counting_can_be_taken_back(m: CoreModel, key: u64, symbol: u8, n: int)
    requires
        m.depth > 0,
        0 <= n <= m.journal.len(),
    ensures
        ({
            let after = observed_in(m, key, symbol);
            rolled_back(after.slots, after.journal, n) == rolled_back(m.slots, m.journal, n)
        }),
{
    let after = observed_in(m, key, symbol);
    assert(after.journal.drop_last() =~= m.journal);
    assert(slot_put_back(after.slots, after.journal.last().0, after.journal.last().1) =~= m.slots);
}

/// A context that is counted does not touch those of other slots.
pub proof fn law_counting_touches_one_slot(m: CoreModel, key: u64, symbol: u8, other: u64)
    requires
        slot_index(other, m.hash_bits) != slot_index(key, m.hash_bits),
    ensures
        slot_for(observed_in(m, key, symbol), other) == slot_for(m, other),
{
}

fn slot_count_ok(hash_bits: usize) -> (yes: bool)
    ensures
        yes == (1 <= hash_bits <= CONTEXT_COUNTER_MAX_HASH_BITS),
{
    1 <= hash_bits && hash_bits <= CONTEXT_COUNTER_MAX_HASH_BITS
}

impl HashedCounterCore {
    /// The mathematical object.
    pub closed spec fn model(&self) -> CoreModel {
        CoreModel {
            slots: self.slots@,
            hash_bits: self.hash_bits,
            journal: journal_model(self.journal@),
            depth: self.depth as nat,
        }
    }

    /// All counts are in order, also those that may come back.
    pub closed spec fn wf(&self) -> bool {
        &&& self.slots.wf()
        &&& 1 <= self.hash_bits <= CONTEXT_COUNTER_MAX_HASH_BITS
        &&& forall|k: u64| #[trigger] self.slots@.dom().contains(k) ==> slot_ok(self.slots@[k])
        &&& forall|i: int|
            0 <= i < self.journal@.len() ==> ((#[trigger] self.journal@[i]).previous matches Some(
                s,
            ) ==> slot_ok(s@))
        &&& self.depth == 0 ==> self.journal@.len() == 0
    }

    /// A table whose slots are found by `hash_bits` bits.
    pub fn new(hash_bits: usize) -> (result: Result<Self, CounterError>)
        ensures
            if 1 <= hash_bits <= CONTEXT_COUNTER_MAX_HASH_BITS {
                result matches Ok(core) && core.wf() && core.model() == empty_core(
                    hash_bits as nat,
                )
            } else {
                result == Err::<HashedCounterCore, CounterError>(CounterError::HashBits)
            },
    {
        if !slot_count_ok(hash_bits) {
            return Err(CounterError::HashBits);
        }
        let core = HashedCounterCore {
            slots: HashedStore::new(),
            hash_bits: hash_bits as u64,
            journal: Vec::new(),
            depth: 0,
        };
        proof {
            assert(core.model() =~= empty_core(hash_bits as nat));
        }
        Ok(core)
    }

    /// A second table with the same counts.
    pub fn duplicate(&self) -> (copy: Self)
        requires
            self.wf(),
        ensures
            copy.wf(),
            copy.model() == self.model(),
    {
        let mut journal: Vec<SlotUndo> = Vec::new();
        let n: usize = self.journal.len();
        let mut i: usize = 0;
        while i < n
            invariant
                i <= n == self.journal@.len(),
                journal@.len() == i,
                self.wf(),
                forall|j: int|
                    0 <= j < i ==> (#[trigger] journal@[j]).index == self.journal@[j].index
                        && slot_model(journal@[j].previous) == slot_model(
                        self.journal@[j].previous,
                    ),
            decreases n - i,
        {
            let previous = match &self.journal[i].previous {
                Some(s) => Some(s.twin()),
                None => None,
            };
            journal.push(SlotUndo { index: self.journal[i].index, previous });
            i += 1;
        }
        let copy = HashedCounterCore {
            slots: self.slots.duplicate(),
            hash_bits: self.hash_bits,
            journal,
            depth: self.depth,
        };
        proof {
            assert(journal_model(copy.journal@) =~= journal_model(self.journal@));
            assert forall|j: int| 0 <= j < copy.journal@.len() implies ((
            #[trigger] copy.journal@[j]).previous matches Some(s) ==> slot_ok(s@)) by {
                assert(slot_model(copy.journal@[j].previous) == slot_model(
                    self.journal@[j].previous,
                ));
            }
        }
        copy
    }

    /// How many slots are taken.
    pub fn occupied(&self) -> (n: usize)
        requires
            self.wf(),
        ensures
            n == self.model().slots.dom().len(),
    {
        self.slots.len()
    }

    /// How many slots can be taken before the table grows: those that are taken at least. How many
    /// more is up to the allocator.
    pub fn capacity(&self) -> (n: usize)
        ensures
            self.model().slots.dom().len() <= n,
    {
        self.slots.capacity()
    }

    /// How many checkpoints are held.
    pub fn checkpoint_depth(&self) -> (n: usize)
        ensures
            n == self.model().depth,
    {
        self.depth
    }

    /// How many changes can be taken back.
    pub fn journal_len(&self) -> (n: usize)
        ensures
            n == self.model().journal.len(),
    {
        self.journal.len()
    }

    /// Slot of a key, and what tells the key from others of the same slot.
    pub fn index_tag(&self, key: u64) -> (pair: (u64, u64))
        requires
            self.wf(),
        ensures
            pair.0 == slot_index(key, self.model().hash_bits),
            pair.1 == slot_tag(key, self.model().hash_bits),
    {
        let bits: u64 = self.hash_bits;
        proof {
            assert(bits < 64 ==> 1u64 << bits >= 1) by (bit_vector);
        }
        (key & ((1u64 << bits) - 1), key >> bits)
    }

    /// Counts of a context, where it has any.
    pub fn lookup(&self, key: u64) -> (slot: Option<&ContextSlot>)
        requires
            self.wf(),
        ensures
            match slot {
                Some(s) => slot_for(self.model(), key) == Some(s@) && slot_ok(s@),
                None => slot_for(self.model(), key) is None,
            },
    {
        let (index, tag) = self.index_tag(key);
        match self.slots.get(index) {
            Some(s) => if s.tag == tag {
                Some(s)
            } else {
                None
            },
            None => None,
        }
    }

    /// Counts a byte behind a context.
    pub fn observe(&mut self, key: u64, symbol: u8)
        requires
            old(self).wf(),
        ensures
            final(self).wf(),
            final(self).model() == observed_in(old(self).model(), key, symbol),
    {
        let ghost before = self.model();
        let (index, tag) = self.index_tag(key);
        if self.depth > 0 {
            let previous = match self.slots.get(index) {
                Some(s) => Some(s.twin()),
                None => None,
            };
            self.journal.push(SlotUndo { index, previous });
        }
        proof {
            law_fresh_slot(tag);
            assert(journal_model(self.journal@) =~= observed_in(before, key, symbol).journal);
        }
        let fresh: bool = match self.slots.get(index) {
            Some(s) => s.tag != tag,
            None => true,
        };
        if fresh {
            let mut slot = new_slot(tag);
            slot.observe(symbol);
            self.slots.insert(index, slot);
        } else {
            match self.slots.get_mut(index) {
                Some(slot) => {
                    slot.observe(symbol);
                },
                None => {},
            }
        }
        proof {
            assert(self.model().slots =~= observed_in(before, key, symbol).slots);
            assert(self.model() =~= observed_in(before, key, symbol));
        }
    }

    /// Takes a checkpoint: the number of changes so far.
    pub fn begin_checkpoint(&mut self) -> (marker: usize)
        requires
            old(self).wf(),
            old(self).model().depth < usize::MAX,
        ensures
            final(self).wf(),
            final(self).model() == (CoreModel {
                depth: old(self).model().depth + 1,
                ..old(self).model()
            }),
            marker == old(self).model().journal.len(),
    {
        self.depth = self.depth + 1;
        self.journal.len()
    }

    /// Goes back to a checkpoint.
    pub fn restore_checkpoint(&mut self, marker: usize)
        requires
            old(self).wf(),
            marker <= old(self).model().journal.len(),
            old(self).model().depth > 0,
        ensures
            final(self).wf(),
            final(self).model() == (CoreModel {
                slots: rolled_back(
                    old(self).model().slots,
                    old(self).model().journal,
                    marker as int,
                ),
                journal: old(self).model().journal.take(marker as int),
                ..old(self).model()
            }),
    {
        let ghost before = self.model();
        proof {
            assert(before.journal.take(before.journal.len() as int) =~= before.journal);
        }
        while self.journal.len() > marker
            invariant
                self.wf(),
                marker <= self.journal@.len() <= before.journal.len(),
                self.hash_bits == before.hash_bits,
                self.depth == before.depth,
                self.depth > 0,
                journal_model(self.journal@) == before.journal.take(self.journal@.len() as int),
                rolled_back(self.slots@, journal_model(self.journal@), marker as int)
                    == rolled_back(before.slots, before.journal, marker as int),
            decreases self.journal@.len(),
        {
            let ghost j = self.journal@;
            let ghost s = self.slots@;
            let last = self.journal.pop();
            proof {
                assert(journal_model(self.journal@) =~= journal_model(j).drop_last());
                assert(journal_model(j).last() == (
                    j.last().index,
                    slot_model(j.last().previous),
                ));
                assert(before.journal.take(j.len() as int).drop_last() =~= before.journal.take(
                    j.len() - 1,
                ));
                assert(slot_model(j.last().previous) is Some ==> slot_ok(
                    slot_model(j.last().previous)->0,
                ));
            }
            match last {
                Some(u) => match u.previous {
                    Some(slot) => {
                        self.slots.insert(u.index, slot);
                    },
                    None => {
                        self.slots.remove(u.index);
                    },
                },
                None => {},
            }
            proof {
                assert(self.slots@ == slot_put_back(
                    s,
                    journal_model(j).last().0,
                    journal_model(j).last().1,
                ));
            }
        }
        proof {
            assert(journal_model(self.journal@) == before.journal.take(marker as int));
            assert(rolled_back(self.slots@, journal_model(self.journal@), marker as int)
                == self.slots@);
        }
    }

    /// Gives a checkpoint up. With the last one the changes can no longer be taken back.
    pub fn discard_checkpoint(&mut self)
        requires
            old(self).wf(),
            old(self).model().depth > 0,
        ensures
            final(self).wf(),
            final(self).model() == (CoreModel {
                depth: (old(self).model().depth - 1) as nat,
                journal: if old(self).model().depth == 1 {
                    Seq::empty()
                } else {
                    old(self).model().journal
                },
                ..old(self).model()
            }),
    {
        self.depth = self.depth - 1;
        if self.depth == 0 {
            self.journal.clear();
            proof {
                assert(journal_model(self.journal@) =~= Seq::empty());
            }
        }
    }

    /// Gives all checkpoints up.
    pub fn clear_checkpoints(&mut self)
        requires
            old(self).wf(),
        ensures
            final(self).wf(),
            final(self).model() == (CoreModel {
                depth: 0,
                journal: Seq::empty(),
                ..old(self).model()
            }),
    {
        self.depth = 0;
        self.journal.clear();
        proof {
            assert(journal_model(self.journal@) =~= Seq::empty());
        }
    }
}

/// Bytes that a table may come to occupy: for each slot four times its entry in the table with a
/// byte to spare, and the counts.
pub open spec fn resident_bytes(hash_bits: nat) -> nat {
    vstd::arithmetic::power2::pow2(hash_bits) * (4 * (vstd::layout::size_of::<
        (usize, ContextSlot),
    >() + 1) + 512)
}

/// Bytes that a table may come to occupy.
pub fn maximum_resident_bytes(hash_bits: usize) -> (result: Result<usize, CounterError>)
    ensures
        match result {
            Ok(n) => 1 <= hash_bits <= CONTEXT_COUNTER_MAX_HASH_BITS && n == resident_bytes(
                hash_bits as nat,
            ),
            Err(CounterError::HashBits) => !(1 <= hash_bits <= CONTEXT_COUNTER_MAX_HASH_BITS),
            Err(e) => e == CounterError::Overflow && 1 <= hash_bits
                <= CONTEXT_COUNTER_MAX_HASH_BITS && resident_bytes(hash_bits as nat) > usize::MAX,
        },
{
    if !slot_count_ok(hash_bits) {
        return Err(CounterError::HashBits);
    }
    let slots: usize = 1usize << hash_bits;
    proof {
        vstd::arithmetic::power2::lemma_pow2_strictly_increases(hash_bits as nat, 31);
        vstd::arithmetic::power2::lemma2_to64();
        vstd::bits::lemma_usize_shl_is_mul(1, hash_bits);
        assert(slots == vstd::arithmetic::power2::pow2(hash_bits as nat));
    }
    let entry: usize = core::mem::size_of::<(usize, ContextSlot)>();
    let ghost e = entry as int;
    let ghost p = slots as int;
    proof {
        assert(p * (4 * (e + 1) + 512) == p * (4 * (e + 1)) + p * 512) by (nonlinear_arith);
        assert(p >= 1);
        assert(p * (4 * (e + 1)) >= 4 * (e + 1)) by (nonlinear_arith)
            requires
                p >= 1,
                e >= 0,
        ;
    }
    let with_byte: usize = match entry.checked_add(1) {
        Some(x) => x,
        None => {
            return Err(CounterError::Overflow);
        },
    };
    let bucket: usize = match with_byte.checked_mul(4) {
        Some(x) => x,
        None => {
            return Err(CounterError::Overflow);
        },
    };
    let slot_bytes: usize = match slots.checked_mul(bucket) {
        Some(x) => x,
        None => {
            return Err(CounterError::Overflow);
        },
    };
    let count_bytes: usize = match slots.checked_mul(512) {
        Some(x) => x,
        None => {
            return Err(CounterError::Overflow);
        },
    };
    match slot_bytes.checked_add(count_bytes) {
        Some(x) => Ok(x),
        None => Err(CounterError::Overflow),
    }
}

} // verus!
