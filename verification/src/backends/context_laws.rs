//! What counts behind contexts say of the text that was fitted.

use vstd::prelude::*;
use crate::backends::context_counter;
use crate::backends::context_models;
use crate::backends::ppmd;
use crate::backends::text_context;
use crate::places;

use crate::backends::context_counter::{CoreModel, SlotModel, FNV_OFFSET, FNV_PRIME, RESCALE_TOTAL};
use crate::backends::context_models::{OrderModel, WordModel, WordsModel};
use crate::backends::ppmd::PPMD_HASH_FACTOR;

verus! {

// ---------------------------------------------------------------------------------------
// Keys
// ---------------------------------------------------------------------------------------

/// Multiplying by an odd factor can be undone.
proof fn lemma_factor_undone(x: u64, factor: u64, back: int, t: int)
    requires
        factor * back == 1 + t * 0x1_0000_0000_0000_0000,
    ensures
        (x.wrapping_mul(factor) * back) % 0x1_0000_0000_0000_0000 == x,
{
    let m = 0x1_0000_0000_0000_0000int;
    let p = factor as int;
    let y = x * p;
    vstd::arithmetic::div_mod::lemma_mul_mod_noop_left(y, back, m);
    assert(x.wrapping_mul(factor) == y % m);
    assert(y * back == x + (x * t) * m) by (nonlinear_arith)
        requires
            y == x * p,
            p * back == 1 + t * m,
    ;
    vstd::arithmetic::div_mod::lemma_mod_multiples_vanish(x * t, x as int, m);
    vstd::arithmetic::div_mod::lemma_small_mod(x as nat, m as nat);
}

/// Different hashes stay different behind the same byte, and different bytes make different hashes.
proof fn lemma_hashed_byte(h: u64, g: u64, a: u8, b: u8)
    ensures
        h != g ==> context_counter::hashed_byte(h, a) != context_counter::hashed_byte(g, a),
        a != b ==> context_counter::hashed_byte(h, a) != context_counter::hashed_byte(h, b),
        h != g ==> ppmd::ppmd_hash(h, a) != ppmd::ppmd_hash(g, a),
        a != b ==> ppmd::ppmd_hash(h, a) != ppmd::ppmd_hash(h, b),
{
    assert(0x100_0000_01b3int * 0xce96_5057_aff6_957bint == 1 + 887285111055int
        * 0x1_0000_0000_0000_0000int) by (nonlinear_arith);
    assert(0x1000_0000_01B3int * 0xb46d_d957_aff6_957bint == 1 + 12398993177650int
        * 0x1_0000_0000_0000_0000int) by (nonlinear_arith);
    assert(h != g ==> (h ^ (a as u64)) != (g ^ (a as u64))) by (bit_vector);
    assert(a != b ==> (h ^ (a as u64)) != (h ^ (b as u64))) by (bit_vector);
    let x = h ^ (a as u64);
    let y = g ^ (a as u64);
    let z = h ^ (b as u64);
    lemma_factor_undone(x, FNV_PRIME, 0xce96_5057_aff6_957bint, 887285111055);
    lemma_factor_undone(y, FNV_PRIME, 0xce96_5057_aff6_957bint, 887285111055);
    lemma_factor_undone(z, FNV_PRIME, 0xce96_5057_aff6_957bint, 887285111055);
    lemma_factor_undone(x, PPMD_HASH_FACTOR, 0xb46d_d957_aff6_957bint, 12398993177650);
    lemma_factor_undone(y, PPMD_HASH_FACTOR, 0xb46d_d957_aff6_957bint, 12398993177650);
    lemma_factor_undone(z, PPMD_HASH_FACTOR, 0xb46d_d957_aff6_957bint, 12398993177650);
}

proof fn lemma_shifted(x: u64, y: u64)
    ensures
        x != y ==> (x ^ (x >> 33u64)) != (y ^ (y >> 33u64)),
{
    assert(x != y ==> (x ^ (x >> 33u64)) != (y ^ (y >> 33u64))) by (bit_vector);
}

/// Mixing the bits of a hash keeps different hashes different.
pub proof fn law_mixing_keeps_apart(x: u64, y: u64)
    requires
        x != y,
    ensures
        context_counter::mixed_hash(x) != context_counter::mixed_hash(y),
{
    assert(0xff51_afd7_ed55_8ccdint * 0x4f74_430c_22a5_4005int == 1 + 5710046619856821070int
        * 0x1_0000_0000_0000_0000int) by (nonlinear_arith);
    assert(0xc4ce_b9fe_1a85_ec53int * 0x9cb4_b2f8_1293_37dbint == 1 + 8680939279959119233int
        * 0x1_0000_0000_0000_0000int) by (nonlinear_arith);
    lemma_shifted(x, y);
    let a = x ^ (x >> 33u64);
    let a2 = y ^ (y >> 33u64);
    lemma_factor_undone(a, 0xff51_afd7_ed55_8ccd, 0x4f74_430c_22a5_4005int, 5710046619856821070);
    lemma_factor_undone(a2, 0xff51_afd7_ed55_8ccd, 0x4f74_430c_22a5_4005int, 5710046619856821070);
    let b = a.wrapping_mul(0xff51_afd7_ed55_8ccd);
    let b2 = a2.wrapping_mul(0xff51_afd7_ed55_8ccd);
    lemma_shifted(b, b2);
    let c = b ^ (b >> 33u64);
    let c2 = b2 ^ (b2 >> 33u64);
    lemma_factor_undone(c, 0xc4ce_b9fe_1a85_ec53, 0x9cb4_b2f8_1293_37dbint, 8680939279959119233);
    lemma_factor_undone(c2, 0xc4ce_b9fe_1a85_ec53, 0x9cb4_b2f8_1293_37dbint, 8680939279959119233);
    lemma_shifted(
        c.wrapping_mul(0xc4ce_b9fe_1a85_ec53),
        c2.wrapping_mul(0xc4ce_b9fe_1a85_ec53),
    );
}

/// Whether two byte strings of the same length differ at one place, and there only.
pub open spec fn differ_at(x: Seq<u8>, y: Seq<u8>, at: int) -> bool {
    &&& x.len() == y.len()
    &&& 0 <= at < x.len()
    &&& x[at] != y[at]
    &&& forall|i: int| 0 <= i < x.len() && i != at ==> x[i] == y[i]
}

proof fn lemma_hashes_differ(h: u64, x: Seq<u8>, y: Seq<u8>, at: int)
    requires
        differ_at(x, y, at),
    ensures
        context_counter::hashed_bytes(h, x) != context_counter::hashed_bytes(h, y),
        ppmd::ppmd_hash_of(x) != ppmd::ppmd_hash_of(y),
    decreases x.len(),
{
    let a = x.drop_last();
    let b = y.drop_last();
    if at == x.len() - 1 {
        assert(a =~= b);
        lemma_hashed_byte(context_counter::hashed_bytes(h, a), 0, x.last(), y.last());
        lemma_hashed_byte(ppmd::ppmd_hash_of(a), 0, x.last(), y.last());
    } else {
        assert forall|i: int| 0 <= i < a.len() && i != at implies a[i] == b[i] by {
            assert(x[i] == y[i]);
        }
        assert(differ_at(a, b, at));
        lemma_hashes_differ(h, a, b, at);
        assert(x.last() == y.last());
        lemma_hashed_byte(
            context_counter::hashed_bytes(h, a),
            context_counter::hashed_bytes(h, b),
            x.last(),
            x.last(),
        );
        lemma_hashed_byte(ppmd::ppmd_hash_of(a), ppmd::ppmd_hash_of(b), x.last(), x.last());
    }
}

/// The key of a context tells all of its bytes: contexts that differ in one byte, whichever, have
/// different keys, and contexts of the same bytes have the same key, whatever stands in front. There
/// is a key exactly where there are enough bytes.
pub proof fn law_order_keys(h: Seq<u8>, g: Seq<u8>, order: nat, at: int)
    ensures
        context_models::order_key(h, order) is Some <==> h.len() >= order,
        order <= h.len() && order <= g.len() ==> {
            let x = h.subrange(h.len() - order, h.len() as int);
            let y = g.subrange(g.len() - order, g.len() as int);
            &&& x == y ==> context_models::order_key(h, order) == context_models::order_key(g, order)
            &&& differ_at(x, y, at) ==> context_models::order_key(h, order)
                != context_models::order_key(g, order)
        },
{
    if order <= h.len() && order <= g.len() {
        let x = h.subrange(h.len() - order, h.len() as int);
        let y = g.subrange(g.len() - order, g.len() as int);
        let start = FNV_OFFSET ^ (order as u64);
        if differ_at(x, y, at) {
            lemma_hashes_differ(start, x, y, at);
            law_mixing_keeps_apart(
                context_counter::hashed_bytes(start, x),
                context_counter::hashed_bytes(start, y),
            );
        }
    }
}

/// The key of the last bytes tells all of them: last bytes that differ in one byte, whichever, have
/// different keys.
pub proof fn law_suffix_keys(h: Seq<u8>, g: Seq<u8>, ord: int, at: int)
    requires
        1 <= ord <= h.len(),
        ord <= g.len(),
        differ_at(
            h.subrange(h.len() - ord, h.len() as int),
            g.subrange(g.len() - ord, g.len() as int),
            at,
        ),
    ensures
        ppmd::suffix_key(h, ord) != ppmd::suffix_key(g, ord),
{
    lemma_hashes_differ(
        0,
        h.subrange(h.len() - ord, h.len() as int),
        g.subrange(g.len() - ord, g.len() as int),
        at,
    );
}

// ---------------------------------------------------------------------------------------
// Counts
// ---------------------------------------------------------------------------------------

/// Counting a byte raises its own count by one and no other, and the total by one, until the counts
/// are so large that they are halved; halved or not, a byte that was counted stays counted, and one
/// that was not stays so.
pub proof fn law_slot_counts(slot: SlotModel, b: u8, other: u8)
    requires
        context_counter::slot_ok(slot),
    ensures
        ({
            let after = context_counter::counted_once(slot, b);
            &&& after.tag == slot.tag
            &&& slot.total < RESCALE_TOTAL && slot.counts[b as int] < u16::MAX ==> {
                &&& after.total == slot.total + 1
                &&& after.counts[b as int] == slot.counts[b as int] + 1
                &&& other != b ==> after.counts[other as int] == slot.counts[other as int]
            }
            &&& after.counts[b as int] > 0
            &&& other != b ==> (after.counts[other as int] > 0 <==> slot.counts[other as int] > 0)
        }),
{
}

/// A context that was counted is found, with one byte more than it had; where another context stood
/// in its place, with that byte alone.
pub proof fn law_counted_context_is_found(m: CoreModel, key: u64, b: u8)
    ensures
        ({
            let before = context_counter::slot_for(m, key);
            let after = context_counter::slot_for(context_counter::observed_in(m, key, b), key);
            &&& after is Some
            &&& before is Some && context_counter::slot_ok(before->0) && before->0.total < RESCALE_TOTAL
                && before->0.counts[b as int] <= 65534 ==> after->0.total == before->0.total + 1
                && after->0.counts[b as int] == before->0.counts[b as int] + 1 && forall|o: int|
                0 <= o < 256 && o != b ==> #[trigger] after->0.counts[o] == before->0.counts[o]
            &&& before is None ==> after->0.total == 1 && after->0.counts[b as int] == 1 && forall|o: int|
                0 <= o < 256 && o != b ==> #[trigger] after->0.counts[o] == 0
        }),
{
    context_counter::law_fresh_slot(context_counter::slot_tag(key, m.hash_bits));
}

// ---------------------------------------------------------------------------------------
// Text
// ---------------------------------------------------------------------------------------

/// Last eight bytes.
pub open spec fn last_eight(data: Seq<u8>) -> Seq<u8> {
    if data.len() <= 8 {
        data
    } else {
        data.subrange(data.len() - 8, data.len() as int)
    }
}

/// A model that has seen nothing.
pub open spec fn is_blank_order(m: OrderModel) -> bool {
    m.history.len() == 0 && m.core.slots == Map::<u64, SlotModel>::empty() && m.order <= 8
}

/// Places whose context has the key.
pub open spec fn order_places(data: Seq<u8>, order: nat, key: u64) -> spec_fn(int) -> bool {
    |i: int| context_models::order_key(data.take(i), order) == Some(key)
}

/// Those of them at which the byte stands.
pub open spec fn order_byte_places(data: Seq<u8>, order: nat, key: u64, b: u8) -> spec_fn(int) -> bool {
    |i: int| context_models::order_key(data.take(i), order) == Some(key) && data[i] == b
}

/// Whether no other context of the text shares the slot of a key.
pub open spec fn is_alone(data: Seq<u8>, order: nat, bits: u64, key: u64) -> bool {
    forall|i: int|
        0 <= i < data.len() ==> (#[trigger] context_models::order_key(data.take(i), order) matches Some(k)
            ==> context_counter::slot_index(k, bits) == context_counter::slot_index(key, bits) ==> k
            == key)
}

/// A model of an order counts the text: behind a context that shares its slot with no other, each
/// byte is counted as often as it stands behind the context in the text, as long as the counts are
/// not halved; and what is kept of the text are its last eight bytes.
pub proof fn law_order_counts_the_text(m: OrderModel, data: Seq<u8>, key: u64, b: u8)
    requires
        is_blank_order(m),
        is_alone(data, m.order, m.core.hash_bits, key),
        data.len() < u16::MAX,
    ensures
        ({
            let after = context_models::order_fitted_all(m, data);
            let n = data.len() as int;
            let all = places::places(n, order_places(data, m.order, key));
            let own = places::places(n, order_byte_places(data, m.order, key, b));
            &&& after.history == last_eight(data)
            &&& after.order == m.order
            &&& after.core.hash_bits == m.core.hash_bits
            &&& match context_counter::slot_for(after.core, key) {
                Some(s) => all > 0 && s.total == all && s.counts[b as int] == own
                    && context_counter::slot_ok(s),
                None => all == 0,
            }
            &&& all == 0 ==> !after.core.slots.dom().contains(
                context_counter::slot_index(key, m.core.hash_bits),
            )
            &&& all <= n && own <= all
        }),
    decreases data.len(),
{
    let n = data.len() as int;
    if n > 0 {
        let rest = data.drop_last();
        let c = data.last();
        assert forall|i: int| 0 <= i < rest.len() implies (
        #[trigger] context_models::order_key(rest.take(i), m.order) matches Some(k)
            ==> context_counter::slot_index(k, m.core.hash_bits) == context_counter::slot_index(
            key,
            m.core.hash_bits,
        ) ==> k == key) by {
            assert(rest.take(i) =~= data.take(i));
            assert(context_models::order_key(data.take(i), m.order) == context_models::order_key(
                rest.take(i),
                m.order,
            ));
        }
        law_order_counts_the_text(m, rest, key, b);
        let before = context_models::order_fitted_all(m, rest);
        let after = context_models::order_fitted_all(m, data);
        assert(data.take(n - 1) =~= rest);
        assert(context_models::history_after(before.history, c) =~= last_eight(data));
        assert(context_models::order_key(before.history, m.order) == context_models::order_key(
            rest,
            m.order,
        )) by {
            if rest.len() >= m.order {
                assert(before.history.subrange(
                    before.history.len() - m.order,
                    before.history.len() as int,
                ) =~= rest.subrange(rest.len() - m.order, rest.len() as int));
            }
        }
        assert forall|i: int| 0 <= i < n - 1 implies #[trigger] order_places(data, m.order, key)(i)
            == order_places(rest, m.order, key)(i) by {
            assert(rest.take(i) =~= data.take(i));
        }
        assert forall|i: int| 0 <= i < n - 1 implies #[trigger] order_byte_places(
            data,
            m.order,
            key,
            b,
        )(i) == order_byte_places(rest, m.order, key, b)(i) by {
            assert(rest.take(i) =~= data.take(i));
        }
        places::lemma_places_same(n - 1, order_places(data, m.order, key), order_places(rest, m.order, key));
        places::lemma_places_same(
            n - 1,
            order_byte_places(data, m.order, key, b),
            order_byte_places(rest, m.order, key, b),
        );
        let here = context_models::order_key(rest, m.order);
        if let Some(k) = here {
            assert(context_models::order_key(data.take(n - 1), m.order) == Some(k));
            context_counter::law_fresh_slot(context_counter::slot_tag(k, m.core.hash_bits));
            if context_counter::slot_index(k, m.core.hash_bits) == context_counter::slot_index(
                key,
                m.core.hash_bits,
            ) {
                assert(k == key);
                let s = match context_counter::slot_for(before.core, key) {
                    Some(s) => s,
                    None => context_counter::fresh_slot(
                        context_counter::slot_tag(key, m.core.hash_bits),
                    ),
                };
                law_slot_counts(s, c, b);
                law_slot_counts(s, c, c);
                context_counter::law_counting_keeps_order(s, c);
                lemma_count_small(s, c);
            } else {
                context_counter::law_counting_touches_one_slot(before.core, k, c, key);
            }
        }
    }
}

/// A count is no larger than the total.
proof fn lemma_count_small(s: SlotModel, b: u8)
    requires
        context_counter::slot_ok(s),
    ensures
        s.counts[b as int] <= s.total,
{
    lemma_count_in_sum(s.counts, b as int, 256);
}

proof fn lemma_count_in_sum(counts: Seq<u16>, at: int, n: int)
    requires
        0 <= at < n <= counts.len(),
    ensures
        counts[at] <= context_counter::counts_sum(counts, n),
    decreases n,
{
    if at < n - 1 {
        lemma_count_in_sum(counts, at, n - 1);
    }
}

// ---------------------------------------------------------------------------------------
// Words
// ---------------------------------------------------------------------------------------

/// Words after bytes.
pub open spec fn words_of(w: WordsModel, data: Seq<u8>) -> WordsModel
    decreases data.len(),
{
    if data.len() == 0 {
        w
    } else {
        context_models::words_after(words_of(w, data.drop_last()), data.last())
    }
}

proof fn lemma_word_analyzer(w: WordsModel, b: u8)
    ensures
        context_models::words_after(w, b).analyzer == text_context::analyzed(w.analyzer, b),
{
}

/// A word model follows the text: the words in front of the next byte are what the bytes so far
/// make.
pub proof fn law_words_follow_the_text(m: WordModel, data: Seq<u8>)
    ensures
        context_models::words_fitted_all(m, data).words == words_of(m.words, data),
        context_models::words_fitted_all(m, data).core.hash_bits == m.core.hash_bits,
        words_of(m.words, data).analyzer == text_context::analyzed_text(m.words.analyzer, data),
    decreases data.len(),
{
    if data.len() > 0 {
        let rest = data.drop_last();
        law_words_follow_the_text(m, rest);
        lemma_word_analyzer(words_of(m.words, rest), data.last());
    }
}

/// A byte that was fitted is counted behind the words in front of it: the context that they name is
/// found, with one more of the byte, and with nothing else where it was not there before.
pub proof fn law_byte_is_counted_behind_words(m: WordModel, b: u8)
    ensures
        ({
            let key = context_models::words_key(m.words);
            let before = context_counter::slot_for(m.core, key);
            let after = context_counter::slot_for(context_models::words_fitted(m, b).core, key);
            &&& after is Some
            &&& before is Some && context_counter::slot_ok(before->0) && before->0.total < RESCALE_TOTAL
                && before->0.counts[b as int] <= 65534 ==> after->0.counts[b as int]
                == before->0.counts[b as int] + 1
            &&& before is None ==> after->0.total == 1 && after->0.counts[b as int] == 1
        }),
{
    law_counted_context_is_found(m.core, context_models::words_key(m.words), b);
}

/// Words do not tell capital letters from small ones; a byte that belongs to no word ends the word
/// and makes it the previous one, and a word that begins anew knows nothing of the one before.
pub proof fn law_words(w: WordsModel, a: u8, b: u8)
    ensures
        ({
            let wa = context_models::words_after(w, a);
            let wb = context_models::words_after(w, b);
            &&& 65 <= a <= 90 && b == a + 32 ==> wa.current_hash == wb.current_hash && wa.current_len
                == wb.current_len && wa.previous_hash == wb.previous_hash
            &&& !text_context::in_words(a) ==> wa.current_len == 0
            &&& !text_context::in_words(a) && w.current_len > 0 ==> wa.previous_hash
                == context_counter::mixed_hash(w.current_hash)
            &&& !text_context::in_words(a) && w.current_len == 0 ==> wa.previous_hash == w.previous_hash
            &&& text_context::in_words(a) ==> wa.previous_hash == w.previous_hash && wa.current_len > 0
            &&& text_context::in_words(a) && text_context::in_words(b) && context_models::caseless(a)
                != context_models::caseless(b) ==> wa.current_hash != wb.current_hash
        }),
{
    let h = if w.current_len == 0 {
        FNV_OFFSET
    } else {
        w.current_hash
    };
    lemma_hashed_byte(h, 0, context_models::caseless(a), context_models::caseless(b));
}

} // verus!
