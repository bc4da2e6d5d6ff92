//! What the corrections of a calibrator come to.

use vstd::prelude::*;
use crate::backends::calibration;

use crate::backends::calibration::{CalibrationContextKind, CORRECTION_CLIP};
use crate::backends::text_context::NeuralContextState;

verus! {

/// A position lies between two bins that stand side by side, by its weight, and the bin that is
/// trained is the nearer of them. A position beside the bins counts as that of the first or the last.
pub proof fn law_positions_lie_between_bins(pos: int, bins: int)
    requires
        2 <= bins,
    ensures
        ({
            let lower = calibration::lower_bin_of(pos, bins);
            let weight = calibration::upper_weight(pos, bins);
            let nearest = calibration::nearest_bin_of(pos, bins);
            &&& 0 <= lower && lower + 1 < bins
            &&& 0 <= weight <= 256
            &&& 0 <= pos <= 256 * (bins - 1) ==> 256 * lower + weight == pos
            &&& pos < 0 ==> lower == 0 && weight == 0
            &&& pos > 256 * (bins - 1) ==> lower == bins - 2 && weight == 256
            &&& 0 <= pos <= 256 * (bins - 1) ==> -128 <= pos - 256 * nearest <= 128
            &&& 0 <= nearest < bins
        }),
{
}

/// Rounding takes the nearest whole number, and treats both signs alike.
pub proof fn law_rounded_is_nearest(n: int)
    ensures
        -128 <= 256 * calibration::rounded(n) - n <= 128,
        calibration::rounded(-n) == -calibration::rounded(n),
{
}

proof fn lemma_rounded_within(n: int, low: int, high: int)
    requires
        256 * low <= n <= 256 * high,
    ensures
        low <= calibration::rounded(n) <= high,
{
}

/// A correction at a bin is the one that the bin holds; between two bins it lies between theirs, and a
/// row that is not there corrects nothing.
pub proof fn law_corrections_lie_between_bins(entries: Seq<u32>, pos: int, bins: int)
    requires
        2 <= bins <= entries.len(),
    ensures
        calibration::correction_at(None, pos, bins) == 0,
        ({
            let c = calibration::correction_at(Some(entries), pos, bins);
            let lower = calibration::lower_bin_of(pos, bins);
            let a = calibration::delta_of(entries[lower]);
            let b = calibration::delta_of(entries[lower + 1]);
            &&& a <= b ==> a <= c <= b
            &&& b <= a ==> b <= c <= a
        }),
        forall|bin: int|
            0 <= bin < bins && pos == 256 * bin ==> calibration::correction_at(Some(entries), pos, bins)
                == calibration::delta_of(#[trigger] entries[bin]),
{
    law_positions_lie_between_bins(pos, bins);
    let lower = calibration::lower_bin_of(pos, bins);
    let w = calibration::upper_weight(pos, bins);
    let a = calibration::delta_of(entries[lower]);
    let b = calibration::delta_of(entries[lower + 1]);
    let n = a * (256 - w) + b * w;
    assert(n == 256 * a + (b - a) * w) by (nonlinear_arith)
        requires
            n == a * (256 - w) + b * w,
    ;
    if a <= b {
        assert(0 <= (b - a) * w <= (b - a) * 256) by (nonlinear_arith)
            requires
                0 <= w <= 256,
                a <= b,
        ;
        lemma_rounded_within(n, a, b);
    }
    if b <= a {
        assert((b - a) * 256 <= (b - a) * w <= 0) by (nonlinear_arith)
            requires
                0 <= w <= 256,
                b <= a,
        ;
        lemma_rounded_within(n, b, a);
    }
    assert forall|bin: int| 0 <= bin < bins && pos == 256 * bin implies calibration::correction_at(
        Some(entries),
        pos,
        bins,
    ) == calibration::delta_of(#[trigger] entries[bin]) by {
        if bin == lower {
            assert(w == 0);
            assert((b - a) * 0 == 0);
            lemma_rounded_within(n, a, a);
        } else {
            assert(w == 256 && bin == lower + 1);
            lemma_rounded_within(n, b, b);
        }
    }
}

/// Training moves the correction of an entry by the step, as far as corrections go, and counts one
/// more, as far as there is room.
pub proof fn law_trained_entry(entry: u32, step: int)
    ensures
        ({
            let next = calibration::trained_entry(entry, step);
            let was = calibration::delta_of(entry);
            let now = calibration::delta_of(next);
            &&& -CORRECTION_CLIP <= was + step <= CORRECTION_CLIP ==> now == was + step
            &&& was + step > CORRECTION_CLIP ==> now == CORRECTION_CLIP
            &&& was + step < -CORRECTION_CLIP ==> now == -CORRECTION_CLIP
            &&& calibration::count_of_entry(entry) < 1023 ==> calibration::count_of_entry(next)
                == calibration::count_of_entry(entry) + 1
            &&& calibration::count_of_entry(entry) == 1023 ==> calibration::count_of_entry(next) == 1023
        }),
{
    let count = calibration::count_of_entry(entry);
    calibration::law_entry_round_trip(
        calibration::delta_of(entry) + step,
        if count + 1 < 1023 {
            count + 1
        } else {
            1023
        },
    );
}

/// Each context has rows of its own: one for each string of fewer than eight bits.
pub proof fn law_rows_tell_context_and_bits(context: int, prefix: int, other: int, bits: int)
    requires
        0 <= context,
        0 <= other,
        1 <= prefix <= 255,
        1 <= bits <= 255,
    ensures
        calibration::row_at(context, prefix) == calibration::row_at(other, bits) <==> context == other
            && prefix == bits,
{
}

// ---------------------------------------------------------------------------------------
// Contexts
// ---------------------------------------------------------------------------------------

proof fn lemma_factor_undone(x: u32)
    ensures
        (x.wrapping_mul(0x85EB_CA6B) * 0xa5cb_9243) % 0x1_0000_0000 == x,
{
    let m = 0x1_0000_0000int;
    let p = 0x85EB_CA6Bint;
    let back = 0xa5cb_9243int;
    let t = 0x85EB_CA6Bint * 0xa5cb_9243int / 0x1_0000_0000int;
    assert(p * back == 1 + t * m);
    let y = x * p;
    vstd::arithmetic::div_mod::lemma_mul_mod_noop_left(y, back, m);
    assert(x.wrapping_mul(0x85EB_CA6B) == y % m);
    assert(y * back == x + (x * t) * m) by (nonlinear_arith)
        requires
            y == x * p,
            p * back == 1 + t * m,
    ;
    vstd::arithmetic::div_mod::lemma_mod_multiples_vanish(x * t, x as int, m);
    vstd::arithmetic::div_mod::lemma_small_mod(x as nat, m as nat);
}

proof fn lemma_hash_step(h: u32, g: u32, a: u8, b: u8)
    ensures
        h != g ==> calibration::state_hash_step(h, a) != calibration::state_hash_step(g, a),
        a != b ==> calibration::state_hash_step(h, a) != calibration::state_hash_step(h, b),
{
    let x = h ^ (a as u32);
    let y = g ^ (a as u32);
    let z = h ^ (b as u32);
    assert(h != g ==> (h ^ (a as u32)) != (g ^ (a as u32))) by (bit_vector);
    assert(a != b ==> (h ^ (a as u32)) != (h ^ (b as u32))) by (bit_vector);
    assert(x != y ==> ((x << 5u32) | (x >> 27u32)) != ((y << 5u32) | (y >> 27u32))) by (bit_vector);
    assert(x != z ==> ((x << 5u32) | (x >> 27u32)) != ((z << 5u32) | (z >> 27u32))) by (bit_vector);
    lemma_factor_undone((x << 5u32) | (x >> 27u32));
    lemma_factor_undone((y << 5u32) | (y >> 27u32));
    lemma_factor_undone((z << 5u32) | (z >> 27u32));
}

/// Each value counts: two lists of values that differ in one place only are hashed differently.
pub proof fn law_hash_tells_each_value(a: Seq<u8>, b: Seq<u8>, k: int)
    requires
        a.len() == b.len(),
        0 <= k < a.len(),
        a[k] != b[k],
        forall|i: int| 0 <= i < a.len() && i != k ==> a[i] == b[i],
    ensures
        calibration::state_hash(a) != calibration::state_hash(b),
    decreases a.len(),
{
    let x = a.drop_last();
    let y = b.drop_last();
    if k == a.len() - 1 {
        assert(x =~= y);
    } else {
        assert(x[k] != y[k]);
        law_hash_tells_each_value(x, y, k);
    }
    lemma_hash_step(calibration::state_hash(x), calibration::state_hash(y), a.last(), b.last());
}

/// What a context looks at: the classes of bytes and words, brackets, quotes and boundaries for the
/// text; the repeat, whether it goes on and the run, up to a length, for repeats; some of each for
/// both. Other contexts hash nothing.
pub proof fn law_what_contexts_look_at(a: NeuralContextState, b: NeuralContextState)
    ensures
        calibration::context_bytes(CalibrationContextKind::Text, a) == calibration::context_bytes(
            CalibrationContextKind::Text,
            b,
        ) <==> a.prev1_class == b.prev1_class && a.prev2_class == b.prev2_class && a.word_len_bucket
            == b.word_len_bucket && a.prev_word_class == b.prev_word_class && a.bracket_bucket
            == b.bracket_bucket && a.quote_flags == b.quote_flags && a.utf8_left == b.utf8_left
            && a.sentence_boundary == b.sentence_boundary && a.paragraph_break == b.paragraph_break,
        calibration::context_bytes(CalibrationContextKind::Repeat, a) == calibration::context_bytes(
            CalibrationContextKind::Repeat,
            b,
        ) <==> a.repeat_len_bucket == b.repeat_len_bucket && a.copied_last_byte == b.copied_last_byte && (
        a.run_len == b.run_len || (a.run_len >= 31 && b.run_len >= 31)),
        calibration::context_bytes(CalibrationContextKind::TextRepeat, a) == calibration::context_bytes(
            CalibrationContextKind::TextRepeat,
            b,
        ) <==> a.prev1_class == b.prev1_class && a.word_len_bucket == b.word_len_bucket
            && a.prev_word_class == b.prev_word_class && a.bracket_bucket == b.bracket_bucket
            && a.quote_flags == b.quote_flags && a.repeat_len_bucket == b.repeat_len_bucket
            && a.copied_last_byte == b.copied_last_byte && a.paragraph_break == b.paragraph_break,
        calibration::context_number(CalibrationContextKind::Global, a) == 0,
        calibration::context_number(CalibrationContextKind::ByteClass, a) == a.prev1_class,
{
    let x = calibration::context_bytes(CalibrationContextKind::Text, a);
    let y = calibration::context_bytes(CalibrationContextKind::Text, b);
    if x == y {
        assert(x[0] == y[0] && x[1] == y[1] && x[2] == y[2] && x[3] == y[3] && x[4] == y[4]);
        assert(x[5] == y[5] && x[6] == y[6] && x[7] == y[7] && x[8] == y[8]);
    }
    let x = calibration::context_bytes(CalibrationContextKind::Repeat, a);
    let y = calibration::context_bytes(CalibrationContextKind::Repeat, b);
    if x == y {
        assert(x[0] == y[0] && x[1] == y[1] && x[2] == y[2]);
    }
    let x = calibration::context_bytes(CalibrationContextKind::TextRepeat, a);
    let y = calibration::context_bytes(CalibrationContextKind::TextRepeat, b);
    if x == y {
        assert(x[0] == y[0] && x[1] == y[1] && x[2] == y[2] && x[3] == y[3] && x[4] == y[4]);
        assert(x[5] == y[5] && x[6] == y[6] && x[7] == y[7]);
    }
}

} // verus!
