//! Corrections of bit probabilities that are learned while they are used.

use std::sync::Arc;
use vstd::prelude::*;
use crate::api::bits;
use crate::byte_prefix;
use crate::backends::text_context;
use crate::text;

use crate::api::bits::BitOrder;
use crate::backends::text_context::{AnalyzerModel, NeuralContextState, TextContextAnalyzer, NO_PLACE};
use crate::byte_prefix::advanced_prefix_code;
use crate::shared::own_shared;
use crate::text::{decimal_of, push_chars, push_text, string_of};

verus! {

/// Largest count of an entry.
pub const MAX_COUNT: u16 = 1023;

/// Largest correction of an entry, either way.
pub const CORRECTION_CLIP: i32 = 16_384;

/// Largest single correction, either way.
pub const MAX_CORRECTION_STEP: i32 = 512;

/// Parts that the distance between two bins is measured in.
pub const INTERP_SCALE: i32 = 256;

/// Prefixes of fewer than eight bits.
pub const BYTE_PREFIX_STATES: usize = 255;

// ---------------------------------------------------------------------------------------
// Entries
// ---------------------------------------------------------------------------------------

/// A correction within its limits.
pub open spec fn clipped(delta: int) -> int {
    if delta < -16_384 {
        -16_384
    } else if delta > 16_384 {
        16_384
    } else {
        delta
    }
}

/// Correction and count in one number: 22 bits, and the low 10 bits of the count.
pub open spec fn packed(delta: int, count: int) -> int {
    let d = clipped(delta);
    (if d < 0 {
        d + 4_194_304
    } else {
        d
    }) * 1024 + count % 1024
}

/// Correction of an entry.
pub open spec fn delta_of(entry: u32) -> int {
    let raw = entry as int / 1024;
    clipped(
        if raw >= 2_097_152 {
            raw - 4_194_304
        } else {
            raw
        },
    )
}

/// Count of an entry.
pub open spec fn count_of_entry(entry: u32) -> int {
    entry as int % 1024
}

/// An entry holds the correction that was put into it, as far as corrections go, and the low bits of
/// the count: a count that fits comes back as it was.
pub proof fn law_entry_round_trip(delta: int, count: int)
    requires
        0 <= count,
    ensures
        0 <= packed(delta, count) <= u32::MAX,
        delta_of(packed(delta, count) as u32) == clipped(delta),
        count_of_entry(packed(delta, count) as u32) == count % 1024,
        count < 1024 ==> count_of_entry(packed(delta, count) as u32) == count,
{
}

/// Correction and the low bits of the count in one number.
pub fn pack_entry(delta: i32, count: u16) -> (entry: u32)
    ensures
        entry == packed(delta as int, count as int),
{
    proof {
        law_entry_round_trip(delta as int, count as int);
    }
    let d: i32 = if delta < -CORRECTION_CLIP {
        -CORRECTION_CLIP
    } else if delta > CORRECTION_CLIP {
        CORRECTION_CLIP
    } else {
        delta
    };
    let high: u32 = if d < 0 {
        (d + 4_194_304) as u32
    } else {
        d as u32
    };
    high * 1024 + (count % 1024) as u32
}

/// Correction of an entry.
pub fn unpack_delta(entry: u32) -> (delta: i32)
    ensures
        delta == delta_of(entry),
        -CORRECTION_CLIP <= delta <= CORRECTION_CLIP,
{
    let raw: u32 = entry / 1024;
    let d: i32 = if raw >= 2_097_152 {
        raw as i32 - 4_194_304
    } else {
        raw as i32
    };
    if d < -CORRECTION_CLIP {
        -CORRECTION_CLIP
    } else if d > CORRECTION_CLIP {
        CORRECTION_CLIP
    } else {
        d
    }
}

/// Count of an entry.
pub fn unpack_count(entry: u32) -> (count: u16)
    ensures
        count == count_of_entry(entry),
        count < 1024,
{
    (entry % 1024) as u16
}

/// A number over 256, rounded to the nearest; halves go away from zero.
pub open spec fn rounded(n: int) -> int {
    if n >= 0 {
        (n + 128) / 256
    } else {
        -((-n + 128) / 256)
    }
}

/// Correction between two bins.
pub fn interpolate_delta(lo_delta: i32, hi_delta: i32, weight_hi: i32) -> (delta: i32)
    requires
        -CORRECTION_CLIP <= lo_delta <= CORRECTION_CLIP,
        -CORRECTION_CLIP <= hi_delta <= CORRECTION_CLIP,
        0 <= weight_hi <= INTERP_SCALE,
    ensures
        delta == rounded(lo_delta * (256 - weight_hi) + hi_delta * weight_hi),
{
    proof {
        assert(-16_384 * 256 <= lo_delta * (256 - weight_hi) <= 16_384 * 256) by (nonlinear_arith)
            requires
                -16_384 <= lo_delta <= 16_384,
                0 <= weight_hi <= 256,
        ;
        assert(-16_384 * 256 <= hi_delta * weight_hi <= 16_384 * 256) by (nonlinear_arith)
            requires
                -16_384 <= hi_delta <= 16_384,
                0 <= weight_hi <= 256,
        ;
    }
    let n: i32 = lo_delta * (INTERP_SCALE - weight_hi) + hi_delta * weight_hi;
    if n >= 0 {
        (n + 128) / 256
    } else {
        -((-n + 128) / 256)
    }
}

// ---------------------------------------------------------------------------------------
// Contexts
// ---------------------------------------------------------------------------------------

/// What a correction depends on.
#[derive(Clone, Copy, Debug, PartialEq, Eq, Structural)]
pub enum CalibrationContextKind {
    /// Nothing.
    Global,
    /// The class of the last byte.
    ByteClass,
    /// What the text looks like.
    Text,
    /// Repeats.
    Repeat,
    /// What the text looks like, and repeats.
    TextRepeat,
}

/// How many contexts there are.
pub open spec fn cardinality(kind: CalibrationContextKind) -> int {
    match kind {
        CalibrationContextKind::Global => 1,
        CalibrationContextKind::ByteClass => 8,
        CalibrationContextKind::Text => 256,
        CalibrationContextKind::Repeat => 64,
        CalibrationContextKind::TextRepeat => 512,
    }
}

/// How many contexts there are.
pub fn context_cardinality(kind: CalibrationContextKind) -> (n: usize)
    ensures
        n == cardinality(kind),
{
    match kind {
        CalibrationContextKind::Global => 1,
        CalibrationContextKind::ByteClass => 8,
        CalibrationContextKind::Text => 256,
        CalibrationContextKind::Repeat => 64,
        CalibrationContextKind::TextRepeat => 512,
    }
}

/// A hash with one more value.
pub open spec fn state_hash_step(h: u32, value: u8) -> u32 {
    let x = h ^ (value as u32);
    ((x << 5u32) | (x >> 27u32)).wrapping_mul(0x85EB_CA6B)
}

/// Hash of values.
pub open spec fn state_hash(values: Seq<u8>) -> u32
    decreases values.len(),
{
    if values.len() == 0 {
        0x9E37_79B9
    } else {
        state_hash_step(state_hash(values.drop_last()), values.last())
    }
}

fn hash_state(values: &[u8], modulo: usize) -> (h: usize)
    requires
        0 < modulo <= 512,
    ensures
        h == state_hash(values@) as int % modulo as int,
        h < modulo,
{
    let mut h: u32 = 0x9E37_79B9;
    let n: usize = values.len();
    let mut i: usize = 0;
    while i < n
        invariant
            i <= n == values@.len(),
            h == state_hash(values@.take(i as int)),
        decreases n - i,
    {
        let x: u32 = h ^ (values[i] as u32);
        h = ((x << 5u32) | (x >> 27u32)).wrapping_mul(0x85EB_CA6B);
        proof {
            assert(values@.take(i + 1).drop_last() =~= values@.take(i as int));
        }
        i += 1;
    }
    proof {
        assert(values@.take(n as int) =~= values@);
    }
    (h % modulo as u32) as usize
}

/// A flag as a byte.
pub open spec fn mark(b: bool) -> u8 {
    if b {
        1
    } else {
        0
    }
}

fn marked(b: bool) -> (byte: u8)
    ensures
        byte == mark(b),
{
    if b {
        1
    } else {
        0
    }
}

/// What a correction depends on, as bytes.
pub open spec fn context_bytes(kind: CalibrationContextKind, s: NeuralContextState) -> Seq<u8> {
    match kind {
        CalibrationContextKind::Text => seq![
            s.prev1_class,
            s.prev2_class,
            s.word_len_bucket,
            s.prev_word_class,
            s.bracket_bucket,
            s.quote_flags,
            s.utf8_left,
            mark(s.sentence_boundary),
            mark(s.paragraph_break),
        ],
        CalibrationContextKind::Repeat => seq![
            s.repeat_len_bucket,
            mark(s.copied_last_byte),
            if s.run_len > 31 {
                31u8
            } else {
                s.run_len as u8
            },
        ],
        CalibrationContextKind::TextRepeat => seq![
            s.prev1_class,
            s.word_len_bucket,
            s.prev_word_class,
            s.bracket_bucket,
            s.quote_flags,
            s.repeat_len_bucket,
            mark(s.copied_last_byte),
            mark(s.paragraph_break),
        ],
        _ => Seq::empty(),
    }
}

/// Number of the context.
pub open spec fn context_number(kind: CalibrationContextKind, s: NeuralContextState) -> int {
    match kind {
        CalibrationContextKind::Global => 0,
        CalibrationContextKind::ByteClass => s.prev1_class as int,
        _ => state_hash(context_bytes(kind, s)) as int % cardinality(kind),
    }
}

/// Number of the context.
pub fn context_index(kind: CalibrationContextKind, state: NeuralContextState) -> (index: usize)
    requires
        state.prev1_class <= 6,
    ensures
        index == context_number(kind, state),
        index < cardinality(kind),
{
    let mut bytes: Vec<u8> = Vec::new();
    match kind {
        CalibrationContextKind::Global => 0,
        CalibrationContextKind::ByteClass => state.prev1_class as usize,
        CalibrationContextKind::Text => {
            bytes.push(state.prev1_class);
            bytes.push(state.prev2_class);
            bytes.push(state.word_len_bucket);
            bytes.push(state.prev_word_class);
            bytes.push(state.bracket_bucket);
            bytes.push(state.quote_flags);
            bytes.push(state.utf8_left);
            bytes.push(marked(state.sentence_boundary));
            bytes.push(marked(state.paragraph_break));
            proof {
                assert(bytes@ =~= context_bytes(kind, state));
            }
            hash_state(bytes.as_slice(), 256)
        },
        CalibrationContextKind::Repeat => {
            bytes.push(state.repeat_len_bucket);
            bytes.push(marked(state.copied_last_byte));
            bytes.push(
                if state.run_len > 31 {
                    31
                } else {
                    state.run_len as u8
                },
            );
            proof {
                assert(bytes@ =~= context_bytes(kind, state));
            }
            hash_state(bytes.as_slice(), 64)
        },
        CalibrationContextKind::TextRepeat => {
            bytes.push(state.prev1_class);
            bytes.push(state.word_len_bucket);
            bytes.push(state.prev_word_class);
            bytes.push(state.bracket_bucket);
            bytes.push(state.quote_flags);
            bytes.push(state.repeat_len_bucket);
            bytes.push(marked(state.copied_last_byte));
            bytes.push(marked(state.paragraph_break));
            proof {
                assert(bytes@ =~= context_bytes(kind, state));
            }
            hash_state(bytes.as_slice(), 512)
        },
    }
}

// ---------------------------------------------------------------------------------------
// Bins
// ---------------------------------------------------------------------------------------

/// Where a probability falls between the bins.
#[derive(Clone, Copy, Debug, PartialEq, Eq, Structural)]
pub struct SseQuantization {
    pub lower_bin: usize,
    pub weight_hi: i32,
    pub nearest_bin: usize,
}

/// A position within the bins.
pub open spec fn held_position(pos: int, bins: int) -> int {
    if pos < 0 {
        0
    } else if pos > (bins - 1) * 256 {
        (bins - 1) * 256
    } else {
        pos
    }
}

/// Lower of the two bins that a position lies between.
pub open spec fn lower_bin_of(pos: int, bins: int) -> int {
    let b = held_position(pos, bins) / 256;
    if b > bins - 2 {
        bins - 2
    } else {
        b
    }
}

/// Weight of the upper bin, in parts of 256.
pub open spec fn upper_weight(pos: int, bins: int) -> int {
    let p = held_position(pos, bins);
    if p >= (bins - 1) * 256 {
        256
    } else {
        p % 256
    }
}

/// The nearer of the two bins.
pub open spec fn nearest_bin_of(pos: int, bins: int) -> int {
    if upper_weight(pos, bins) * 2 >= 256 {
        lower_bin_of(pos, bins) + 1
    } else {
        lower_bin_of(pos, bins)
    }
}

/// Where a position falls between the bins.
pub fn quantize(pos: i64, bins: usize) -> (q: SseQuantization)
    requires
        2 <= bins <= 256,
    ensures
        q.lower_bin == lower_bin_of(pos as int, bins as int),
        q.weight_hi == upper_weight(pos as int, bins as int),
        q.nearest_bin == nearest_bin_of(pos as int, bins as int),
        q.lower_bin + 1 < bins,
        q.nearest_bin < bins,
        0 <= q.weight_hi <= INTERP_SCALE,
{
    let top: i64 = (bins as i64 - 1) * 256;
    let p: i64 = if pos < 0 {
        0
    } else if pos > top {
        top
    } else {
        pos
    };
    let b: usize = (p / 256) as usize;
    let lower: usize = if b > bins - 2 {
        bins - 2
    } else {
        b
    };
    let weight: i32 = if p >= top {
        256
    } else {
        (p % 256) as i32
    };
    let nearest: usize = if weight * 2 >= 256 {
        lower + 1
    } else {
        lower
    };
    SseQuantization { lower_bin: lower, weight_hi: weight, nearest_bin: nearest }
}

// ---------------------------------------------------------------------------------------
// Faults
// ---------------------------------------------------------------------------------------

/// What is wrong with a step.
#[derive(Clone, Copy, Debug, PartialEq, Eq, Structural)]
pub enum CalibrationError {
    /// A byte is open already.
    AlreadyActive,
    /// Bits of the byte were seen.
    AbortNonEmpty(u8),
    /// Bits of the byte are missing.
    FinishIncomplete(u8),
    /// No byte is open.
    NotActive,
    /// All bits of the byte were seen.
    RollbackComplete,
    /// A byte has no such bit.
    BitOutOfRange(usize),
    /// It is another bit's turn.
    BitOutOfTurn {
        given: usize,
        expected: u8,
    },
    /// The bit was not predicted.
    NotPredicted,
}

/// What to tell the user.
pub open spec fn calibration_text(error: CalibrationError) -> Seq<char> {
    match error {
        CalibrationError::AlreadyActive => "calibrated SSE byte-prefix step is already active"@,
        CalibrationError::AbortNonEmpty(bits) =>
            "calibrated SSE byte-prefix abort requires zero observed bits, got "@ + text::decimal(
                bits as nat,
            ),
        CalibrationError::FinishIncomplete(bits) =>
            "calibrated SSE byte-prefix finish requires 8 observed bits, got "@ + text::decimal(
                bits as nat,
            ),
        CalibrationError::NotActive => "calibrated SSE byte-prefix step is not active"@,
        CalibrationError::RollbackComplete =>
            "calibrated SSE byte-prefix rollback cannot undo a completed byte"@,
        CalibrationError::BitOutOfRange(given) => "calibrated SSE byte-prefix bit index "@ + text::decimal(
            given as nat,
        ) + " is out of range; expected 0..8"@,
        CalibrationError::BitOutOfTurn { given, expected } =>
            "calibrated SSE byte-prefix bit index "@ + text::decimal(given as nat)
                + " violated sequential stepping; expected "@ + text::decimal(expected as nat),
        CalibrationError::NotPredicted =>
            "calibrated SSE bit observation requires a preceding prediction"@,
    }
}

impl CalibrationError {
    /// What to tell the user.
    pub fn message(&self) -> (text: String)
        ensures
            text@ == calibration_text(*self),
    {
        let mut out: Vec<char> = Vec::new();
        match self {
            CalibrationError::AlreadyActive => {
                push_text(&mut out, "calibrated SSE byte-prefix step is already active");
            },
            CalibrationError::AbortNonEmpty(bits) => {
                push_text(
                    &mut out,
                    "calibrated SSE byte-prefix abort requires zero observed bits, got ",
                );
                push_chars(&mut out, &decimal_of(*bits as u64));
            },
            CalibrationError::FinishIncomplete(bits) => {
                push_text(
                    &mut out,
                    "calibrated SSE byte-prefix finish requires 8 observed bits, got ",
                );
                push_chars(&mut out, &decimal_of(*bits as u64));
            },
            CalibrationError::NotActive => {
                push_text(&mut out, "calibrated SSE byte-prefix step is not active");
            },
            CalibrationError::RollbackComplete => {
                push_text(
                    &mut out,
                    "calibrated SSE byte-prefix rollback cannot undo a completed byte",
                );
            },
            CalibrationError::BitOutOfRange(given) => {
                push_text(&mut out, "calibrated SSE byte-prefix bit index ");
                push_chars(&mut out, &decimal_of(*given as u64));
                push_text(&mut out, " is out of range; expected 0..8");
            },
            CalibrationError::BitOutOfTurn { given, expected } => {
                push_text(&mut out, "calibrated SSE byte-prefix bit index ");
                push_chars(&mut out, &decimal_of(*given as u64));
                push_text(&mut out, " violated sequential stepping; expected ");
                push_chars(&mut out, &decimal_of(*expected as u64));
            },
            CalibrationError::NotPredicted => {
                push_text(
                    &mut out,
                    "calibrated SSE bit observation requires a preceding prediction",
                );
            },
        }
        proof {
            assert(out@ =~= calibration_text(*self));
        }
        string_of(&out)
    }
}

// ---------------------------------------------------------------------------------------
// The table
// ---------------------------------------------------------------------------------------

/// An entry as it was.
#[derive(Clone, Copy, Debug, PartialEq, Eq, Structural)]
pub struct SseUndo {
    pub row: usize,
    pub bin: usize,
    pub previous: Option<u32>,
}

/// Rows of entries; a row that was never trained is not there.
pub type SseTableRows = Vec<Option<Arc<Vec<u32>>>>;

/// A row, if it is there.
pub open spec fn row_model(row: Option<Arc<Vec<u32>>>) -> Option<Seq<u32>> {
    match row {
        Some(entries) => Some(entries@),
        None => None,
    }
}

/// Rows as a mathematical object.
pub open spec fn rows_model(rows: Seq<Option<Arc<Vec<u32>>>>) -> Seq<Option<Seq<u32>>> {
    Seq::new(rows.len(), |i: int| row_model(rows[i]))
}

/// Every row that is there has an entry for every bin.
pub open spec fn rows_ok(rows: Seq<Option<Seq<u32>>>, bins: int) -> bool {
    forall|i: int| 0 <= i < rows.len() && rows[i] is Some ==> (#[trigger] rows[i])->0.len() == bins
}

/// An untrained row.
pub open spec fn fresh_row(bins: nat, initial: u32) -> Seq<u32> {
    Seq::new(bins, |i: int| initial)
}

/// A row to be trained.
pub open spec fn row_to_train(row: Option<Seq<u32>>, bins: nat, initial: u32) -> Seq<u32> {
    match row {
        Some(entries) => entries,
        None => fresh_row(bins, initial),
    }
}

/// An entry that was corrected once more.
pub open spec fn trained_entry(entry: u32, step: int) -> u32 {
    packed(
        delta_of(entry) + step,
        if count_of_entry(entry) + 1 < 1023 {
            count_of_entry(entry) + 1
        } else {
            1023
        },
    ) as u32
}

/// A table with one entry corrected.
pub open spec fn trained_table(
    table: Seq<Option<Seq<u32>>>,
    row: int,
    bin: int,
    bins: nat,
    initial: u32,
    step: int,
) -> Seq<Option<Seq<u32>>> {
    let entries = row_to_train(table[row], bins, initial);
    table.update(row, Some(entries.update(bin, trained_entry(entries[bin], step))))
}

/// What to note before a correction.
pub open spec fn undo_of(table: Seq<Option<Seq<u32>>>, row: usize, bin: usize) -> SseUndo {
    SseUndo {
        row,
        bin,
        previous: match table[row as int] {
            Some(entries) => Some(entries[bin as int]),
            None => None,
        },
    }
}

/// A table with one entry as it was.
pub open spec fn restored(table: Seq<Option<Seq<u32>>>, undo: SseUndo) -> Seq<Option<Seq<u32>>> {
    match undo.previous {
        Some(previous) => match table[undo.row as int] {
            Some(entries) => table.update(
                undo.row as int,
                Some(entries.update(undo.bin as int, previous)),
            ),
            None => table,
        },
        None => table.update(undo.row as int, None),
    }
}

/// A table with all noted entries as they were, the last one first.
pub open spec fn all_restored(table: Seq<Option<Seq<u32>>>, undo: Seq<SseUndo>) -> Seq<
    Option<Seq<u32>>,
>
    decreases undo.len(),
{
    if undo.len() == 0 {
        table
    } else {
        all_restored(restored(table, undo.last()), undo.drop_last())
    }
}

/// Taking a correction back gives the table from before it.
pub proof fn law_training_can_be_taken_back(
    table: Seq<Option<Seq<u32>>>,
    row: usize,
    bin: usize,
    bins: nat,
    initial: u32,
    step: int,
    undo: Seq<SseUndo>,
)
    requires
        row < table.len(),
        bin < bins,
        rows_ok(table, bins as int),
    ensures
        all_restored(
            trained_table(table, row as int, bin as int, bins, initial, step),
            undo.push(undo_of(table, row, bin)),
        ) == all_restored(table, undo),
{
    let after = trained_table(table, row as int, bin as int, bins, initial, step);
    let u = undo_of(table, row, bin);
    assert(undo.push(u).drop_last() =~= undo);
    assert(restored(after, u) =~= table) by {
        match table[row as int] {
            Some(entries) => {
                assert(entries.len() == bins);
                assert((after[row as int]->0).update(bin as int, entries[bin as int]) =~= entries);
            },
            None => {},
        }
    }
}

fn fresh_rows(rows: usize) -> (table: SseTableRows)
    ensures
        rows_model(table@) == Seq::new(rows as nat, |i: int| None::<Seq<u32>>),
{
    let mut table: SseTableRows = Vec::new();
    let mut i: usize = 0;
    while i < rows
        invariant
            i <= rows,
            table@.len() == i,
            forall|k: int| 0 <= k < i ==> (#[trigger] table@[k]) is None,
        decreases rows - i,
    {
        table.push(None);
        i += 1;
    }
    proof {
        assert(rows_model(table@) =~= Seq::new(rows as nat, |i: int| None::<Seq<u32>>));
    }
    table
}

fn initial_sse_row(bins: usize, initial_entry: u32) -> (row: Arc<Vec<u32>>)
    ensures
        row@ == fresh_row(bins as nat, initial_entry),
{
    let mut entries: Vec<u32> = Vec::new();
    let mut i: usize = 0;
    while i < bins
        invariant
            i <= bins,
            entries@.len() == i,
            forall|k: int| 0 <= k < i ==> entries@[k] == initial_entry,
        decreases bins - i,
    {
        entries.push(initial_entry);
        i += 1;
    }
    proof {
        assert(entries@ =~= fresh_row(bins as nat, initial_entry));
    }
    Arc::new(entries)
}

fn set_entry(row: &mut Arc<Vec<u32>>, bin: usize, entry: u32)
    requires
        bin < old(row)@.len(),
    ensures
        final(row)@ == old(row)@.update(bin as int, entry),
{
    let ghost before = row@;
    let entries: &mut Vec<u32> = own_shared(row);
    proof {
        assert(entries@ =~= before);
    }
    entries.set(bin, entry);
}

/// Corrects an entry; says what it was.
fn train_row(table: &mut SseTableRows, row: usize, bin: usize, bins: usize, initial: u32, step: i32) -> (
    undo: SseUndo)
    requires
        row < old(table)@.len(),
        bin < bins,
        rows_ok(rows_model(old(table)@), bins as int),
        -MAX_CORRECTION_STEP <= step <= MAX_CORRECTION_STEP,
    ensures
        undo == undo_of(rows_model(old(table)@), row, bin),
        rows_model(final(table)@) == trained_table(
            rows_model(old(table)@),
            row as int,
            bin as int,
            bins as nat,
            initial,
            step as int,
        ),
        rows_ok(rows_model(final(table)@), bins as int),
{
    let ghost before = rows_model(table@);
    proof {
        assert(before[row as int] == row_model(table@[row as int]));
    }
    let (previous, mut entries): (Option<u32>, Arc<Vec<u32>>) = match &table[row] {
        Some(entries) => (Some(entries[bin]), entries.clone()),
        None => (None, initial_sse_row(bins, initial)),
    };
    table.set(row, None);
    let entry: u32 = entries[bin];
    let delta: i32 = unpack_delta(entry) + step;
    let count: u16 = unpack_count(entry);
    let next_count: u16 = if count + 1 < MAX_COUNT {
        count + 1
    } else {
        MAX_COUNT
    };
    proof {
        law_entry_round_trip(delta as int, next_count as int);
    }
    set_entry(&mut entries, bin, pack_entry(delta, next_count));
    table.set(row, Some(entries));
    proof {
        assert(rows_model(table@) =~= trained_table(
            before,
            row as int,
            bin as int,
            bins as nat,
            initial,
            step as int,
        ));
    }
    SseUndo { row, bin, previous }
}

/// Puts an entry back.
fn restore_entry(table: &mut SseTableRows, undo: SseUndo, bins: usize)
    requires
        undo.row < old(table)@.len(),
        undo.bin < bins,
        rows_ok(rows_model(old(table)@), bins as int),
    ensures
        final(table)@.len() == old(table)@.len(),
        rows_model(final(table)@) == restored(rows_model(old(table)@), undo),
        rows_ok(rows_model(final(table)@), bins as int),
{
    let ghost before = rows_model(table@);
    proof {
        assert(before[undo.row as int] == row_model(table@[undo.row as int]));
    }
    match undo.previous {
        Some(previous) => {
            let held: Option<Arc<Vec<u32>>> = match &table[undo.row] {
                Some(entries) => Some(entries.clone()),
                None => None,
            };
            if let Some(mut entries) = held {
                table.set(undo.row, None);
                set_entry(&mut entries, undo.bin, previous);
                table.set(undo.row, Some(entries));
            }
        },
        None => {
            table.set(undo.row, None);
        },
    }
    proof {
        assert(rows_model(table@) =~= restored(before, undo));
    }
}

// ---------------------------------------------------------------------------------------
// The calibrator
// ---------------------------------------------------------------------------------------

/// Learns how bit probabilities have to be corrected: by context, by the bits of the byte so far,
/// and by the probability itself.
pub struct CalibratorCore {
    analyzer: TextContextAnalyzer,
    context: CalibrationContextKind,
    bins: usize,
    initial_entry: u32,
    table: SseTableRows,
    prefix: u16,
    active_bits: Option<u8>,
    active_context: usize,
    pending: Option<(usize, usize)>,
    undo: Vec<SseUndo>,
}

/// [`CalibratorCore`] as a mathematical object.
#[verifier::ext_equal]
pub struct CalibratorModel {
    pub analyzer: AnalyzerModel,
    pub context: CalibrationContextKind,
    pub bins: nat,
    /// Entry that no correction has changed.
    pub initial: u32,
    pub table: Seq<Option<Seq<u32>>>,
    /// A one, followed by the bits of the byte so far.
    pub prefix: u16,
    /// How many bits of the byte were seen, where one is open.
    pub active: Option<u8>,
    /// Context of the open byte.
    pub active_context: usize,
    /// Row and bin of the last prediction.
    pub pending: Option<(usize, usize)>,
    /// What the open byte has changed.
    pub undo: Seq<SseUndo>,
}

/// A calibrator that has learned nothing.
pub open spec fn new_calibrator(
    context: CalibrationContextKind,
    bins: nat,
    initial_count: int,
) -> CalibratorModel {
    CalibratorModel {
        analyzer: text_context::blank_analyzer(true),
        context,
        bins,
        initial: packed(0, initial_count) as u32,
        table: Seq::new((cardinality(context) * 255) as nat, |i: int| None::<Seq<u32>>),
        prefix: 1,
        active: None,
        active_context: 0,
        pending: None,
        undo: Seq::empty(),
    }
}

/// With no byte open.
pub open spec fn byte_closed(m: CalibratorModel) -> CalibratorModel {
    CalibratorModel {
        prefix: 1,
        active: None,
        active_context: 0,
        pending: None,
        undo: Seq::empty(),
        ..m
    }
}

/// With a byte open, and none of its bits seen.
pub open spec fn byte_opened(m: CalibratorModel) -> CalibratorModel {
    CalibratorModel {
        prefix: 1,
        active: Some(0),
        active_context: context_number(m.context, m.analyzer.state) as usize,
        pending: None,
        undo: Seq::empty(),
        ..m
    }
}

/// What keeps a bit from being the next one.
pub open spec fn bit_fault(m: CalibratorModel, bit_idx: usize) -> Option<CalibrationError> {
    if bit_idx >= 8 {
        Some(CalibrationError::BitOutOfRange(bit_idx))
    } else {
        match m.active {
            Some(expected) => if expected == bit_idx {
                None
            } else {
                Some(CalibrationError::BitOutOfTurn { given: bit_idx, expected })
            },
            None => Some(CalibrationError::NotActive),
        }
    }
}

/// Row for the bits so far.
pub open spec fn row_of(m: CalibratorModel) -> int {
    m.active_context * 255 + m.prefix - 1
}

/// Correction at a position between the bins.
pub open spec fn correction_at(row: Option<Seq<u32>>, pos: int, bins: int) -> int {
    match row {
        Some(entries) => {
            let lower = lower_bin_of(pos, bins);
            let weight = upper_weight(pos, bins);
            rounded(
                delta_of(entries[lower]) * (256 - weight) + delta_of(entries[lower + 1]) * weight,
            )
        },
        None => 0,
    }
}

/// Row for a context and a prefix code; long codes share the last row of the context.
pub open spec fn row_at(context: int, prefix: int) -> int {
    context * 255 + if prefix <= 1 {
        0
    } else if prefix > 255 {
        254
    } else {
        prefix - 1
    }
}

/// After a prediction.
pub open spec fn after_prediction(m: CalibratorModel, pos: int) -> CalibratorModel {
    CalibratorModel {
        pending: Some((row_of(m) as usize, nearest_bin_of(pos, m.bins as int) as usize)),
        ..m
    }
}

/// A bit as a number.
pub open spec fn bit_number(bit: bool) -> int {
    if bit {
        1
    } else {
        0
    }
}

/// A correction that one bit may make.
pub open spec fn held_step(step: int) -> int {
    if step < -512 {
        -512
    } else if step > 512 {
        512
    } else {
        step
    }
}

/// After a bit was learned.
pub open spec fn bit_learned(m: CalibratorModel, bit: bool, step: int) -> CalibratorModel {
    let at = m.pending->0;
    let next = 2 * m.prefix + bit_number(bit);
    CalibratorModel {
        table: trained_table(
            m.table,
            at.0 as int,
            at.1 as int,
            m.bins,
            m.initial,
            held_step(step),
        ),
        undo: m.undo.push(undo_of(m.table, at.0, at.1)),
        pending: None,
        analyzer: if next >= 256 {
            text_context::analyzed(m.analyzer, (next - 256) as u8)
        } else {
            m.analyzer
        },
        prefix: if next >= 256 {
            1
        } else {
            next as u16
        },
        active: Some((m.active->0 + 1) as u8),
        ..m
    }
}

/// After a bit that nothing is learned from. The last bit of a byte does not count.
pub open spec fn bit_passed(m: CalibratorModel, bit_idx: usize, bit: bool) -> CalibratorModel {
    if bit_idx < 7 {
        CalibratorModel {
            pending: None,
            prefix: (2 * m.prefix + bit_number(bit)) as u16,
            active: Some((m.active->0 + 1) as u8),
            ..m
        }
    } else {
        CalibratorModel { pending: None, ..m }
    }
}

/// Bit number `at` of a byte, the most significant one first.
pub open spec fn bit_of_symbol(symbol: u8, at: int) -> bool {
    symbol & (1u8 << ((7 - at) as u8)) != 0
}

/// After the first `n` bits of a byte were predicted and learned.
pub open spec fn bits_learned(
    m: CalibratorModel,
    symbol: u8,
    positions: Seq<i64>,
    steps: Seq<i32>,
    n: int,
) -> CalibratorModel
    decreases n,
{
    if n <= 0 {
        m
    } else {
        bit_learned(
            after_prediction(bits_learned(m, symbol, positions, steps, n - 1), positions[n - 1] as int),
            bit_of_symbol(symbol, n - 1),
            steps[n - 1] as int,
        )
    }
}

/// A calibrator between two steps.
pub open spec fn calibrator_ok(m: CalibratorModel) -> bool {
    &&& 2 <= m.bins <= 256
    &&& m.table.len() == cardinality(m.context) * 255
    &&& rows_ok(m.table, m.bins as int)
    &&& m.active_context < cardinality(m.context)
    &&& match m.active {
        Some(bits) => {
            &&& bits <= 8
            &&& m.undo.len() <= bits
            &&& bits < 8 ==> byte_prefix::bytes_left(bits as int) * m.prefix >= 256
            &&& bits < 8 ==> byte_prefix::bytes_left(bits as int) * m.prefix < 512
            &&& bits == 8 ==> m.prefix == 1 && m.pending is None
        },
        None => m.prefix == 1 && m.undo.len() == 0,
    }
    &&& (m.pending matches Some(at) ==> at.0 < m.table.len() && at.1 < m.bins && m.active is Some)
    &&& forall|k: int|
        0 <= k < m.undo.len() ==> (#[trigger] m.undo[k]).row < m.table.len() && m.undo[k].bin
            < m.bins
}

proof fn lemma_row(m: CalibratorModel)
    requires
        calibrator_ok(m),
        m.active matches Some(bits) && bits < 8,
    ensures
        1 <= m.prefix <= 255,
        0 <= row_of(m) < m.table.len(),
{
    let c = cardinality(m.context);
    assert(m.active_context * 255 <= (c - 1) * 255) by (nonlinear_arith)
        requires
            m.active_context < c,
    ;
}

proof fn lemma_longer_prefix(bits: int, prefix: int, bit: bool)
    requires
        0 <= bits < 7,
        256 <= byte_prefix::bytes_left(bits) * prefix < 512,
    ensures
        256 <= byte_prefix::bytes_left(bits + 1) * (2 * prefix + bit_number(bit)) < 512,
        2 * prefix + bit_number(bit) < 256,
{
    if bits == 0 {
    } else if bits == 1 {
    } else if bits == 2 {
    } else if bits == 3 {
    } else if bits == 4 {
    } else if bits == 5 {
    } else {
    }
}

impl View for CalibratorCore {
    type V = CalibratorModel;

    closed spec fn view(&self) -> CalibratorModel {
        CalibratorModel {
            analyzer: self.analyzer@,
            context: self.context,
            bins: self.bins as nat,
            initial: self.initial_entry,
            table: rows_model(self.table@),
            prefix: self.prefix,
            active: self.active_bits,
            active_context: self.active_context,
            pending: self.pending,
            undo: self.undo@,
        }
    }
}

impl CalibratorCore {
    /// The calibrator is between two steps.
    pub closed spec fn wf(&self) -> bool {
        &&& calibrator_ok(self@)
        &&& self.analyzer.wf()
        &&& self.analyzer@.seen is Some
    }

    /// A calibrator that has learned nothing: with at least 2 and at most 256 bins, and entries
    /// that weigh as if they were made of `initial_count` bits.
    pub fn new(context: CalibrationContextKind, bins: usize, initial_count: u16) -> (core: Self)
        ensures
            core.wf(),
            core@ == new_calibrator(
                context,
                (if bins < 2 {
                    2
                } else if bins > 256 {
                    256
                } else {
                    bins as int
                }) as nat,
                if initial_count > 1023 {
                    1023
                } else {
                    initial_count as int
                },
            ),
    {
        let held: usize = if bins < 2 {
            2
        } else if bins > 256 {
            256
        } else {
            bins
        };
        let count: u16 = if initial_count > MAX_COUNT {
            MAX_COUNT
        } else {
            initial_count
        };
        let rows: usize = context_cardinality(context) * BYTE_PREFIX_STATES;
        let core = CalibratorCore {
            analyzer: TextContextAnalyzer::new(),
            context,
            bins: held,
            initial_entry: pack_entry(0, count),
            table: fresh_rows(rows),
            prefix: 1,
            active_bits: None,
            active_context: 0,
            pending: None,
            undo: Vec::new(),
        };
        proof {
            law_entry_round_trip(0, count as int);
            assert(core@ =~= new_calibrator(context, held as nat, count as int));
        }
        core
    }

    /// How many rows were trained.
    pub fn trained_rows(&self) -> (n: usize)
        ensures
            n == rows_held(self@.table),
    {
        let len: usize = self.table.len();
        let mut n: usize = 0;
        let mut i: usize = 0;
        let ghost rows = rows_model(self.table@);
        while i < len
            invariant
                n <= i <= len == self.table@.len(),
                rows == rows_model(self.table@),
                n == rows_held(rows.take(i as int)),
            decreases len - i,
        {
            proof {
                assert(rows.take(i + 1).drop_last() =~= rows.take(i as int));
                assert(rows[i as int] == row_model(self.table@[i as int]));
            }
            if self.table[i].is_some() {
                n += 1;
            }
            i += 1;
        }
        proof {
            assert(rows.take(len as int) =~= rows);
        }
        n
    }

    /// Whether a byte is open.
    pub fn byte_is_active(&self) -> (yes: bool)
        ensures
            yes == self@.active is Some,
    {
        self.active_bits.is_some()
    }

    /// Whether a bit was predicted and is still to be learned.
    pub fn is_pending(&self) -> (yes: bool)
        ensures
            yes == self@.pending is Some,
    {
        self.pending.is_some()
    }

    /// A second calibrator in the same state; untouched rows are shared.
    pub fn duplicate(&self) -> (copy: Self)
        requires
            self.wf(),
        ensures
            copy.wf(),
            copy@ == self@,
    {
        let len: usize = self.table.len();
        let mut table: SseTableRows = Vec::new();
        let mut i: usize = 0;
        while i < len
            invariant
                i <= len == self.table@.len(),
                table@.len() == i,
                forall|k: int| 0 <= k < i ==> row_model(table@[k]) == row_model(self.table@[k]),
            decreases len - i,
        {
            let row: Option<Arc<Vec<u32>>> = match &self.table[i] {
                Some(entries) => Some(entries.clone()),
                None => None,
            };
            table.push(row);
            i += 1;
        }
        let undo = self.undo.clone();
        proof {
            assert(undo@ =~= self.undo@);
            assert(rows_model(table@) =~= rows_model(self.table@));
        }
        CalibratorCore {
            analyzer: self.analyzer.duplicate(),
            context: self.context,
            bins: self.bins,
            initial_entry: self.initial_entry,
            table,
            prefix: self.prefix,
            active_bits: self.active_bits,
            active_context: self.active_context,
            pending: self.pending,
            undo,
        }
    }

    fn close(&mut self)
        requires
            old(self).wf(),
        ensures
            final(self).wf(),
            final(self)@ == byte_closed(old(self)@),
    {
        let ghost before = self@;
        self.active_bits = None;
        self.prefix = 1;
        self.active_context = 0;
        self.pending = None;
        self.undo = Vec::new();
        proof {
            assert(self@ =~= byte_closed(before));
        }
    }

    /// Opens a byte.
    pub fn begin_byte(&mut self) -> (result: Result<(), CalibrationError>)
        requires
            old(self).wf(),
        ensures
            final(self).wf(),
            if old(self)@.active is Some {
                result == Err::<(), CalibrationError>(CalibrationError::AlreadyActive)
                    && final(self)@ == old(self)@
            } else {
                result is Ok && final(self)@ == byte_opened(old(self)@)
            },
    {
        if self.active_bits.is_some() {
            return Err(CalibrationError::AlreadyActive);
        }
        let ghost before = self@;
        self.active_context = context_index(self.context, self.analyzer.state());
        self.active_bits = Some(0);
        self.prefix = 1;
        self.pending = None;
        self.undo = Vec::new();
        proof {
            assert(self@ =~= byte_opened(before));
        }
        Ok(())
    }

    /// Whether the open byte, if there is one, could be given up.
    pub fn validate_empty_byte(&self) -> (result: Result<(), CalibrationError>)
        ensures
            result == (match self@.active {
                Some(bits) => if bits == 0 {
                    Ok(())
                } else {
                    Err(CalibrationError::AbortNonEmpty(bits))
                },
                None => Ok(()),
            }),
    {
        match self.active_bits {
            Some(bits) => if bits == 0 {
                Ok(())
            } else {
                Err(CalibrationError::AbortNonEmpty(bits))
            },
            None => Ok(()),
        }
    }

    /// Gives up the open byte, if there is one, before any of its bits was seen.
    pub fn abort_empty_byte(&mut self) -> (result: Result<(), CalibrationError>)
        requires
            old(self).wf(),
        ensures
            final(self).wf(),
            match old(self)@.active {
                Some(bits) if bits != 0 => result == Err::<(), CalibrationError>(
                    CalibrationError::AbortNonEmpty(bits),
                ) && final(self)@ == old(self)@,
                _ => result is Ok && final(self)@ == byte_closed(old(self)@),
            },
    {
        match self.validate_empty_byte() {
            Ok(_) => {
                self.close();
                Ok(())
            },
            Err(e) => Err(e),
        }
    }

    /// Whether all bits of the open byte were seen.
    pub fn validate_complete_byte(&self) -> (result: Result<(), CalibrationError>)
        ensures
            result == (match self@.active {
                Some(bits) => if bits == 8 {
                    Ok(())
                } else {
                    Err(CalibrationError::FinishIncomplete(bits))
                },
                None => Err(CalibrationError::NotActive),
            }),
    {
        match self.active_bits {
            Some(bits) => if bits == 8 {
                Ok(())
            } else {
                Err(CalibrationError::FinishIncomplete(bits))
            },
            None => Err(CalibrationError::NotActive),
        }
    }

    /// Closes a byte whose bits were all seen.
    pub fn finish_byte(&mut self) -> (result: Result<(), CalibrationError>)
        requires
            old(self).wf(),
        ensures
            final(self).wf(),
            match old(self)@.active {
                Some(bits) => if bits == 8 {
                    result is Ok && final(self)@ == byte_closed(old(self)@)
                } else {
                    result == Err::<(), CalibrationError>(CalibrationError::FinishIncomplete(bits))
                        && final(self)@ == old(self)@
                },
                None => result == Err::<(), CalibrationError>(CalibrationError::NotActive)
                    && final(self)@ == old(self)@,
            },
    {
        match self.validate_complete_byte() {
            Ok(_) => {
                self.close();
                Ok(())
            },
            Err(e) => Err(e),
        }
    }

    /// Gives up the open byte, if there is one, and takes back what was learned from it.
    pub fn rollback_incomplete_byte(&mut self) -> (result: Result<(), CalibrationError>)
        requires
            old(self).wf(),
        ensures
            final(self).wf(),
            match old(self)@.active {
                Some(bits) => if bits == 8 {
                    result == Err::<(), CalibrationError>(CalibrationError::RollbackComplete)
                        && final(self)@ == old(self)@
                } else {
                    result is Ok && final(self)@ == byte_closed(
                        (CalibratorModel {
                            table: all_restored(old(self)@.table, old(self)@.undo),
                            ..old(self)@
                        }),
                    )
                },
                None => result is Ok && final(self)@ == old(self)@,
            },
    {
        match self.active_bits {
            Some(bits) => {
                if bits == 8 {
                    return Err(CalibrationError::RollbackComplete);
                }
            },
            None => {
                return Ok(());
            },
        }
        let ghost before = self@;
        let bins: usize = self.bins;
        let mut n: usize = self.undo.len();
        proof {
            assert(before.undo.take(n as int) =~= before.undo);
        }
        while n > 0
            invariant
                n <= self.undo@.len(),
                self.undo@ == before.undo,
                bins == self.bins == before.bins,
                self.context == before.context,
                self.initial_entry == before.initial,
                self.analyzer@ == before.analyzer,
                self.analyzer.wf(),
                self.analyzer@.seen is Some,
                self.active_bits == before.active,
                self.active_bits matches Some(b) && b < 8,
                self.prefix == before.prefix,
                self.active_context == before.active_context,
                self.pending == before.pending,
                calibrator_ok(before),
                self.table@.len() == before.table.len(),
                rows_ok(rows_model(self.table@), bins as int),
                all_restored(rows_model(self.table@), before.undo.take(n as int)) == all_restored(
                    before.table,
                    before.undo,
                ),
            decreases n,
        {
            let undo: SseUndo = self.undo[n - 1];
            proof {
                assert(before.undo[n - 1] == undo);
                assert(before.undo.take(n as int).drop_last() =~= before.undo.take(n - 1));
                assert(before.undo.take(n as int).last() == undo);
            }
            restore_entry(&mut self.table, undo, bins);
            n -= 1;
        }
        let ghost rolled = self@;
        proof {
            assert(before.undo.take(0) =~= Seq::<SseUndo>::empty());
            assert(rolled =~= (CalibratorModel {
                table: all_restored(before.table, before.undo),
                ..before
            }));
        }
        self.close();
        Ok(())
    }

    fn check_bit(&self, bit_idx: usize) -> (fault: Option<CalibrationError>)
        ensures
            fault == bit_fault(self@, bit_idx),
    {
        if bit_idx >= 8 {
            return Some(CalibrationError::BitOutOfRange(bit_idx));
        }
        match self.active_bits {
            Some(expected) => if expected as usize == bit_idx {
                None
            } else {
                Some(CalibrationError::BitOutOfTurn { given: bit_idx, expected })
            },
            None => Some(CalibrationError::NotActive),
        }
    }

    /// Context of the text so far.
    pub fn current_context(&self) -> (context: usize)
        requires
            self.wf(),
        ensures
            context == context_number(self@.context, self@.analyzer.state),
            context < cardinality(self@.context),
    {
        context_index(self.context, self.analyzer.state())
    }

    /// A one, followed by the bits of the byte so far.
    pub fn prefix_code(&self) -> (prefix: u16)
        requires
            self.wf(),
        ensures
            prefix == self@.prefix,
            1 <= prefix <= 255,
    {
        proof {
            if self@.active matches Some(bits) && bits < 8 {
                lemma_row(self@);
            }
        }
        self.prefix
    }

    /// A row, if it was trained.
    pub fn trained_row(&self, row: usize) -> (entries: Option<&Arc<Vec<u32>>>)
        requires
            row < self@.table.len(),
        ensures
            match self@.table[row as int] {
                Some(model) => entries matches Some(e) && e@ == model,
                None => entries is None,
            },
    {
        proof {
            assert(self@.table[row as int] == row_model(self.table@[row as int]));
        }
        match &self.table[row] {
            Some(entries) => Some(entries),
            None => None,
        }
    }

    /// Correction in a context, behind the bits of a prefix code. `pos` says where the probability
    /// lies between the bins, in parts of 256.
    pub fn map_bit(&self, context: usize, prefix: u16, pos: i64) -> (delta: i32)
        requires
            self.wf(),
            context < cardinality(self@.context),
        ensures
            delta == correction_at(
                self@.table[row_at(context as int, prefix as int)],
                pos as int,
                self@.bins as int,
            ),
    {
        let at: usize = if prefix <= 1 {
            0
        } else if prefix > 255 {
            254
        } else {
            prefix as usize - 1
        };
        proof {
            let c = cardinality(self@.context);
            assert(context * 255 <= (c - 1) * 255) by (nonlinear_arith)
                requires
                    context < c,
            ;
        }
        let q: SseQuantization = quantize(pos, self.bins);
        let row: usize = context * BYTE_PREFIX_STATES + at;
        proof {
            assert(self@.table[row as int] == row_model(self.table@[row as int]));
        }
        match &self.table[row] {
            Some(entries) => interpolate_delta(
                unpack_delta(entries[q.lower_bin]),
                unpack_delta(entries[q.lower_bin + 1]),
                q.weight_hi,
            ),
            None => 0,
        }
    }

    /// Correction for the next bit. `pos` says where its probability lies between the bins, in
    /// parts of 256.
    pub fn predict_bit(&mut self, bit_idx: usize, pos: i64) -> (result: Result<
        i32,
        CalibrationError,
    >)
        requires
            old(self).wf(),
        ensures
            final(self).wf(),
            match bit_fault(old(self)@, bit_idx) {
                Some(fault) => result == Err::<i32, CalibrationError>(fault) && final(self)@
                    == old(self)@,
                None => {
                    &&& result matches Ok(delta)
                    &&& delta == correction_at(
                        old(self)@.table[row_of(old(self)@)],
                        pos as int,
                        old(self)@.bins as int,
                    )
                    &&& final(self)@ == after_prediction(old(self)@, pos as int)
                },
            },
    {
        if let Some(fault) = self.check_bit(bit_idx) {
            return Err(fault);
        }
        let ghost before = self@;
        proof {
            lemma_row(before);
        }
        let delta: i32 = self.map_bit(self.active_context, self.prefix, pos);
        let q: SseQuantization = quantize(pos, self.bins);
        let row: usize = self.active_context * BYTE_PREFIX_STATES + (self.prefix as usize - 1);
        self.pending = Some((row, q.nearest_bin));
        proof {
            assert(self@ =~= after_prediction(before, pos as int));
        }
        Ok(delta)
    }

    /// How many bits the predicted entry was made of, where a bit was predicted.
    pub fn pending_count(&self) -> (count: Option<u16>)
        requires
            self.wf(),
        ensures
            match self@.pending {
                Some(at) => count matches Some(c) && c == count_of_entry(
                    row_to_train(
                        self@.table[at.0 as int],
                        self@.bins,
                        self@.initial,
                    )[at.1 as int],
                ),
                None => count is None,
            },
    {
        match self.pending {
            Some((row, bin)) => {
                proof {
                    assert(self@.table[row as int] == row_model(self.table@[row as int]));
                }
                match &self.table[row] {
                    Some(entries) => Some(unpack_count(entries[bin])),
                    None => Some(unpack_count(self.initial_entry)),
                }
            },
            None => None,
        }
    }

    /// Learns the predicted bit: its entry is corrected by `step`, which is held to
    /// [`MAX_CORRECTION_STEP`] either way.
    pub fn observe_bit(&mut self, bit_idx: usize, bit: bool, step: i32) -> (result: Result<
        (),
        CalibrationError,
    >)
        requires
            old(self).wf(),
            old(self)@.analyzer.seen->0.len() + 1 < NO_PLACE,
        ensures
            final(self).wf(),
            match bit_fault(old(self)@, bit_idx) {
                Some(fault) => result == Err::<(), CalibrationError>(fault) && final(self)@
                    == old(self)@,
                None => if old(self)@.pending is None {
                    result == Err::<(), CalibrationError>(CalibrationError::NotPredicted)
                        && final(self)@ == old(self)@
                } else {
                    result is Ok && final(self)@ == bit_learned(old(self)@, bit, step as int)
                },
            },
            result is Ok && bit_idx < 7 ==> final(self)@.analyzer == old(self)@.analyzer,
            result is Ok && bit_idx == 7 ==> final(self)@.analyzer == text_context::analyzed(
                old(self)@.analyzer,
                (2 * old(self)@.prefix + bit_number(bit) - 256) as u8,
            ),
    {
        if let Some(fault) = self.check_bit(bit_idx) {
            return Err(fault);
        }
        let ghost before = self@;
        let (row, bin): (usize, usize) = match self.pending {
            Some(at) => at,
            None => {
                return Err(CalibrationError::NotPredicted);
            },
        };
        let held: i32 = if step < -MAX_CORRECTION_STEP {
            -MAX_CORRECTION_STEP
        } else if step > MAX_CORRECTION_STEP {
            MAX_CORRECTION_STEP
        } else {
            step
        };
        proof {
            lemma_row(before);
            if bit_idx < 7 {
                lemma_longer_prefix(bit_idx as int, before.prefix as int, bit);
            } else {
                assert(byte_prefix::bytes_left(7) == 2);
                assert(before.prefix >= 128);
            }
        }
        let undo: SseUndo = train_row(
            &mut self.table,
            row,
            bin,
            self.bins,
            self.initial_entry,
            held,
        );
        self.undo.push(undo);
        self.pending = None;
        let next: u16 = advanced_prefix_code(self.prefix, bit);
        if next >= 256 {
            self.analyzer.update((next - 256) as u8);
            self.prefix = 1;
        } else {
            self.prefix = next;
        }
        self.active_bits = Some(bit_idx as u8 + 1);
        proof {
            assert(self@ =~= bit_learned(before, bit, step as int));
        }
        Ok(())
    }

    /// Learns a whole byte: its bits are predicted at `positions` and corrected by `steps`, one after
    /// the other. Where a byte is open, nothing happens.
    pub fn observe_symbol_from_base_pdf(
        &mut self,
        symbol: u8,
        positions: &[i64; 8],
        steps: &[i32; 8],
    ) -> (result: Result<(), CalibrationError>)
        requires
            old(self).wf(),
            old(self)@.analyzer.seen->0.len() + 1 < NO_PLACE,
        ensures
            final(self).wf(),
            if old(self)@.active is Some {
                result == Err::<(), CalibrationError>(CalibrationError::AlreadyActive)
                    && final(self)@ == old(self)@
            } else {
                result is Ok && final(self)@ == byte_closed(
                    bits_learned(byte_opened(old(self)@), symbol, positions@, steps@, 8),
                ) && final(self)@.analyzer == text_context::analyzed(old(self)@.analyzer, symbol)
            },
    {
        match self.begin_byte() {
            Ok(_) => {},
            Err(e) => {
                return Err(e);
            },
        }
        let ghost opened = self@;
        proof {
            lemma_bits_so_far(old(self)@, symbol, positions@, steps@, 8);
        }
        let mut i: usize = 0;
        while i < 8
            invariant
                i <= 8,
                self.wf(),
                self@.active == Some(i as u8),
                i < 8 ==> self@.analyzer == opened.analyzer,
                opened.analyzer.seen->0.len() + 1 < NO_PLACE,
                self@ == bits_learned(opened, symbol, positions@, steps@, i as int),
            decreases 8 - i,
        {
            let bit: bool = symbol & (1u8 << (7 - i as u8)) != 0;
            proof {
                lemma_row(self@);
                if i < 7 {
                    lemma_longer_prefix(i as int, self@.prefix as int, bit);
                }
            }
            match self.predict_bit(i, positions[i]) {
                Ok(_) => {},
                Err(e) => {
                    return Err(e);
                },
            }
            match self.observe_bit(i, bit, steps[i]) {
                Ok(_) => {},
                Err(e) => {
                    return Err(e);
                },
            }
            i += 1;
        }
        self.finish_byte()
    }

    /// Goes on by a bit without learning from it. The last bit of a byte does not count.
    pub fn condition_prefix_bit_for_rollback(&mut self, bit_idx: usize, bit: bool) -> (result: Result<
        (),
        CalibrationError,
    >)
        requires
            old(self).wf(),
        ensures
            final(self).wf(),
            match bit_fault(old(self)@, bit_idx) {
                Some(fault) => result == Err::<(), CalibrationError>(fault) && final(self)@
                    == old(self)@,
                None => result is Ok && final(self)@ == bit_passed(old(self)@, bit_idx, bit),
            },
    {
        if let Some(fault) = self.check_bit(bit_idx) {
            return Err(fault);
        }
        let ghost before = self@;
        proof {
            lemma_row(before);
        }
        self.pending = None;
        if bit_idx < 7 {
            proof {
                lemma_longer_prefix(bit_idx as int, before.prefix as int, bit);
            }
            self.prefix = advanced_prefix_code(self.prefix, bit);
            self.active_bits = Some(bit_idx as u8 + 1);
        }
        proof {
            assert(self@ =~= bit_passed(before, bit_idx, bit));
        }
        Ok(())
    }

    /// Forgets the text; what was learned stays.
    pub fn reset_context(&mut self)
        requires
            old(self).wf(),
        ensures
            final(self).wf(),
            final(self)@ == byte_closed(
                (CalibratorModel { analyzer: text_context::blank_analyzer(true), ..old(self)@ }),
            ),
    {
        self.analyzer = TextContextAnalyzer::new();
        self.close();
    }

    /// Goes on by a byte without learning from it.
    pub fn update_context_only(&mut self, symbol: u8)
        requires
            old(self).wf(),
            old(self)@.analyzer.seen->0.len() + 1 < NO_PLACE,
        ensures
            final(self).wf(),
            final(self)@ == byte_closed(
                (CalibratorModel { analyzer: text_context::analyzed(old(self)@.analyzer, symbol), ..old(self)@ }),
            ),
    {
        self.analyzer.update(symbol);
        self.close();
    }
}

/// How many rows are there.
pub open spec fn rows_held(rows: Seq<Option<Seq<u32>>>) -> nat
    decreases rows.len(),
{
    if rows.len() == 0 {
        0
    } else {
        rows_held(rows.drop_last()) + if rows.last() is Some {
            1nat
        } else {
            0nat
        }
    }
}

/// Learning a bit does not change what a rollback goes back to: the table from before the byte.
pub proof fn law_rollback_ignores_bits(m: CalibratorModel, bit: bool, step: int)
    requires
        calibrator_ok(m),
        m.pending is Some,
    ensures
        all_restored(bit_learned(m, bit, step).table, bit_learned(m, bit, step).undo)
            == all_restored(m.table, m.undo),
        all_restored(byte_opened(m).table, byte_opened(m).undo) == m.table,
{
    let at = m.pending->0;
    law_training_can_be_taken_back(
        m.table,
        at.0,
        at.1,
        m.bins,
        m.initial,
        held_step(step),
        m.undo,
    );
}

/// Before anything was learned no probability is corrected, wherever it lies.
pub proof fn law_fresh_calibrator_corrects_nothing(
    context: CalibrationContextKind,
    bins: nat,
    count: int,
    row: int,
    pos: int,
)
    requires
        0 <= row < cardinality(context) * 255,
    ensures
        correction_at(new_calibrator(context, bins, count).table[row], pos, bins as int) == 0,
{
}

/// While a byte is learned, each bit is predicted behind a one and the bits in front of it, in the
/// context that the byte began in.
proof fn lemma_bits_so_far(
    m: CalibratorModel,
    symbol: u8,
    positions: Seq<i64>,
    steps: Seq<i32>,
    n: nat,
)
    requires
        n <= 8,
    ensures
        ({
            let b = bits_learned(byte_opened(m), symbol, positions, steps, n as int);
            let code = byte_prefix::code_of(bits::first_bits(symbol, BitOrder::MsbFirst, n));
            &&& b.active == Some(n as u8)
            &&& b.active_context == byte_opened(m).active_context
            &&& b.context == m.context && b.bins == m.bins && b.initial == m.initial
            &&& n < 8 ==> b.prefix == code && b.analyzer == m.analyzer
            &&& n == 8 ==> b.prefix == 1 && b.analyzer == text_context::analyzed(m.analyzer, symbol)
        }),
    decreases n,
{
    let seen = bits::first_bits(symbol, BitOrder::MsbFirst, n);
    byte_prefix::lemma_code(seen);
    if n == 0 {
        assert(byte_prefix::code_of(seen) == 1);
    } else {
        let k = (n - 1) as nat;
        lemma_bits_so_far(m, symbol, positions, steps, k);
        let before = bits::first_bits(symbol, BitOrder::MsbFirst, k);
        byte_prefix::lemma_code(before);
        byte_prefix::lemma_first_byte(before);
        assert(seen.drop_last() =~= before);
        assert(seen.last() == bit_of_symbol(symbol, n - 1));
        assert(bits_learned(byte_opened(m), symbol, positions, steps, n as int) == bit_learned(
            after_prediction(
                bits_learned(byte_opened(m), symbol, positions, steps, k as int),
                positions[n - 1] as int,
            ),
            bit_of_symbol(symbol, n - 1),
            steps[n - 1] as int,
        ));
        let c = byte_prefix::code_of(before);
        assert(c < 256) by (nonlinear_arith)
            requires
                c * byte_prefix::bytes_left(k as int) < 512,
                byte_prefix::bytes_left(k as int) >= 2,
        ;
        if n == 8 {
            byte_prefix::law_code_of_byte(seen);
            bits::law_byte_of_its_bits(symbol, BitOrder::MsbFirst);
            let code = byte_prefix::code_of(seen);
            assert(code == 256 + symbol);
            assert(code == 2 * c + bit_number(bit_of_symbol(symbol, n - 1)));
            assert((code - 256) as u8 == symbol);
        } else {
            let code = byte_prefix::code_of(seen);
            byte_prefix::lemma_first_byte(seen);
            assert(code < 256) by (nonlinear_arith)
                requires
                    code * byte_prefix::bytes_left(n as int) < 512,
                    byte_prefix::bytes_left(n as int) >= 2,
            ;
        }
    }
}

/// A byte that was learned is the last byte of the text: the context of the next byte is taken from
/// the text from before and that byte, as it is where the byte is only taken in.
pub proof fn law_learned_byte_enters_text(
    m: CalibratorModel,
    symbol: u8,
    positions: Seq<i64>,
    steps: Seq<i32>,
)
    ensures
        ({
            let after = byte_closed(bits_learned(byte_opened(m), symbol, positions, steps, 8));
            let taken = byte_closed(
                CalibratorModel { analyzer: text_context::analyzed(m.analyzer, symbol), ..m },
            );
            &&& after.analyzer == taken.analyzer
            &&& after.analyzer.state.prev1 == symbol
            &&& after.analyzer.state.prev2 == m.analyzer.state.prev1
            &&& m.analyzer.seen matches Some(h) ==> after.analyzer.seen == Some(h.push(symbol))
            &&& after == (CalibratorModel { table: after.table, ..taken })
            &&& byte_opened(after).active_context == byte_opened(taken).active_context
            &&& m.context == CalibrationContextKind::ByteClass ==> byte_opened(after).active_context
                == text_context::class_of(symbol)
        }),
{
    lemma_bits_so_far(m, symbol, positions, steps, 8);
}

/// Calibrator after bytes were learned, one after the other. `positions` and `steps` hold those of
/// each byte.
pub open spec fn text_learned(
    m: CalibratorModel,
    bytes: Seq<u8>,
    positions: Seq<Seq<i64>>,
    steps: Seq<Seq<i32>>,
) -> CalibratorModel
    decreases bytes.len(),
{
    if bytes.len() == 0 {
        m
    } else {
        let n = bytes.len() - 1;
        byte_closed(
            bits_learned(
                byte_opened(text_learned(m, bytes.drop_last(), positions, steps)),
                bytes.last(),
                positions[n],
                steps[n],
                8,
            ),
        )
    }
}

/// After bytes were learned, the context is that of the text that they make, whatever was learned
/// from them: the text is what was seen, and its last bytes are the last ones.
pub proof fn law_context_follows_text(
    m: CalibratorModel,
    bytes: Seq<u8>,
    positions: Seq<Seq<i64>>,
    steps: Seq<Seq<i32>>,
)
    ensures
        ({
            let after = text_learned(m, bytes, positions, steps);
            &&& after.analyzer == text_context::analyzed_text(m.analyzer, bytes)
            &&& after.context == m.context
            &&& m.analyzer.seen matches Some(h) ==> after.analyzer.seen == Some(h + bytes)
            &&& bytes.len() > 0 ==> after.analyzer.state.prev1 == bytes.last()
                && after.analyzer.state.prev1_class == text_context::class_of(bytes.last())
            &&& bytes.len() > 1 ==> after.analyzer.state.prev2 == bytes[bytes.len() - 2]
        }),
    decreases bytes.len(),
{
    if bytes.len() > 0 {
        let rest = bytes.drop_last();
        law_context_follows_text(m, rest, positions, steps);
        let n = bytes.len() - 1;
        let before = text_learned(m, rest, positions, steps);
        law_learned_byte_enters_text(before, bytes.last(), positions[n], steps[n]);
        if let Some(h) = m.analyzer.seen {
            assert((h + rest).push(bytes.last()) =~= h + bytes);
        }
    } else if let Some(h) = m.analyzer.seen {
        assert(h + bytes =~= h);
    }
}

/// Learning a bit changes one entry: in the row of the context and the bits so far, at the bin
/// nearest to the position that it was predicted at. A step above zero never lowers its correction,
/// a step below zero never raises it, and within the clip the correction moves by the step.
pub proof fn law_bit_trains_its_entry(m: CalibratorModel, pos: int, bit: bool, step: int)
    requires
        calibrator_ok(m),
        m.active matches Some(n) && n < 8,
    ensures
        ({
            let after = bit_learned(after_prediction(m, pos), bit, step);
            let row = m.active_context * 255 + m.prefix - 1;
            let bin = nearest_bin_of(pos, m.bins as int);
            let old_row = row_to_train(m.table[row], m.bins, m.initial);
            &&& 0 <= row < m.table.len() && 0 <= bin < m.bins
            &&& forall|r: int| 0 <= r < m.table.len() && r != row ==> #[trigger] after.table[r] == m.table[r]
            &&& after.table[row] matches Some(new_row) && new_row.len() == m.bins && (forall|b: int|
                0 <= b < m.bins && b != bin ==> #[trigger] new_row[b] == old_row[b]) && {
                let was = delta_of(old_row[bin]);
                let now = delta_of(new_row[bin]);
                &&& step >= 0 && was >= -CORRECTION_CLIP && was <= CORRECTION_CLIP ==> now >= was
                &&& step <= 0 && was >= -CORRECTION_CLIP && was <= CORRECTION_CLIP ==> now <= was
                &&& -512 <= step <= 512 && -CORRECTION_CLIP <= was + step <= CORRECTION_CLIP ==> now
                    == was + step
                &&& count_of_entry(new_row[bin]) >= 1
            }
        }),
{
    lemma_row(m);
    let after = bit_learned(after_prediction(m, pos), bit, step);
    let row = row_of(m);
    let bin = nearest_bin_of(pos, m.bins as int);
    let old_row = row_to_train(m.table[row], m.bins, m.initial);
    assert(old_row.len() == m.bins);
    let entry = old_row[bin];
    let delta = delta_of(entry) + held_step(step);
    let count = if count_of_entry(entry) + 1 < 1023 {
        count_of_entry(entry) + 1
    } else {
        1023
    };
    law_entry_round_trip(delta, count);
}

} // verus!
