//! What the counts behind contexts say of the text that was fitted.

use vstd::prelude::*;
use crate::backends::ppmd;
use crate::places;

use crate::backends::ppmd::{PpmdView, StatsModel, PPMD_RESCALE};

verus! {

// ---------------------------------------------------------------------------------------
// One context
// ---------------------------------------------------------------------------------------

/// Count of a byte; zero where it has none.
pub open spec fn count_of(s: StatsModel, b: u8) -> nat {
    let at = ppmd::entry_index(s.entries, b, 0);
    if at < s.entries.len() {
        s.entries[at].count as nat
    } else {
        0
    }
}

/// Where a byte is counted, its count is that of its entry.
pub proof fn lemma_count_of(s: StatsModel, b: u8, i: int)
    requires
        ppmd::stats_ok(s),
        0 <= i < s.entries.len(),
        s.entries[i].symbol == b,
    ensures
        count_of(s, b) == s.entries[i].count,
{
    ppmd::lemma_entry_index(s.entries, b, 0);
    let at = ppmd::entry_index(s.entries, b, 0);
    if at < i {
        assert(s.entries[at].symbol != s.entries[i].symbol);
    }
}

/// A byte that is not counted has no entry.
proof fn lemma_no_count(s: StatsModel, b: u8)
    requires
        ppmd::stats_ok(s),
    ensures
        count_of(s, b) == 0 ==> forall|i: int|
            0 <= i < s.entries.len() ==> (#[trigger] s.entries[i]).symbol != b,
        count_of(s, b) > 0 ==> exists|i: int|
            0 <= i < s.entries.len() && (#[trigger] s.entries[i]).symbol == b,
{
    ppmd::lemma_entry_index(s.entries, b, 0);
    let at = ppmd::entry_index(s.entries, b, 0);
    if at < s.entries.len() {
        assert(s.entries[at].count >= 1);
    }
}

/// Counting a byte raises its own count by one and no other, and the total by one, until the total
/// is so large that all counts are halved; then no count falls to zero.
pub proof fn law_byte_is_counted(s: StatsModel, b: u8, other: u8)
    requires
        ppmd::stats_ok(s),
    ensures
        ({
            let after = ppmd::stats_after(s, b);
            &&& ppmd::stats_ok(after)
            &&& s.total < PPMD_RESCALE ==> {
                &&& after.total == s.total + 1
                &&& count_of(after, b) == count_of(s, b) + 1
                &&& other != b ==> count_of(after, other) == count_of(s, other)
            }
            &&& count_of(after, b) > 0
            &&& count_of(s, other) > 0 ==> count_of(after, other) > 0
            &&& count_of(s, other) == 0 && other != b ==> count_of(after, other) == 0
        }),
{
    let entries = s.entries;
    let more = ppmd::entries_after(entries, b);
    let after = ppmd::stats_after(s, b);
    let at = ppmd::entry_index(entries, b, 0);
    ppmd::law_stats_stay_ok(s, b);
    ppmd::lemma_entry_index(entries, b, 0);
    ppmd::lemma_entry_index(entries, other, 0);
    ppmd::lemma_entries_sum_bounds(entries, entries.len() as int);
    ppmd::lemma_entries_sum_bounds(more, more.len() as int);
    let from = ppmd::entry_index(entries, other, 0);
    let own = if at < entries.len() {
        at
    } else {
        entries.len() as int
    };
    assert(more[own].symbol == b);
    assert(after.entries[own].symbol == b);
    lemma_count_of(after, b, own);
    if from < entries.len() {
        assert(after.entries[from].symbol == other);
        lemma_count_of(after, other, from);
    } else if other != b {
        lemma_no_count(after, other);
        if count_of(after, other) > 0 {
            let i = choose|i: int|
                0 <= i < after.entries.len() && (#[trigger] after.entries[i]).symbol == other;
            assert(more[i].symbol == other);
            assert(entries[i].symbol == other);
        }
    }
    assert(after.entries[own].count >= 1);
}

// ---------------------------------------------------------------------------------------
// All contexts
// ---------------------------------------------------------------------------------------

/// Whether the context of the last `ord` bytes is held.
pub open spec fn is_held(m: PpmdView) -> spec_fn(int) -> bool {
    |ord: int| m.contexts[ord].dom().contains(ppmd::suffix_key(m.history, ord))
}

/// The contexts that the last bytes end with: for each length from none up to the order, as far as
/// there are so many bytes, the counts of the last bytes of that length, where they are held; the
/// shortest first, and nothing else.
pub proof fn law_active_contexts(m: PpmdView, ord: int)
    ensures
        ({
            let list = ppmd::active_stats(m, (ppmd::longest(m) + 1) as int);
            &&& m.order <= m.history.len() ==> list.len() == places::places((m.order + 1) as int, is_held(m))
            &&& m.history.len() <= m.order ==> list.len() == places::places(
                (m.history.len() + 1) as int,
                is_held(m),
            )
            &&& 0 <= ord <= m.order && ord <= m.history.len() && m.contexts[ord].dom().contains(
                ppmd::suffix_key(m.history, ord),
            ) ==> {
                let at = places::places(ord, is_held(m)) as int;
                at < list.len() && list[at] == m.contexts[ord][ppmd::suffix_key(m.history, ord)]
            }
        }),
{
    lemma_active(m, (ppmd::longest(m) + 1) as int, ord);
}

proof fn lemma_active(m: PpmdView, n: int, ord: int)
    ensures
        ({
            let list = ppmd::active_stats(m, n);
            &&& list.len() == places::places(n, is_held(m))
            &&& 0 <= ord < n && is_held(m)(ord) ==> {
                let at = places::places(ord, is_held(m)) as int;
                at < list.len() && list[at] == m.contexts[ord][ppmd::suffix_key(m.history, ord)]
            }
        }),
    decreases n,
{
    if n > 0 {
        lemma_active(m, n - 1, ord);
        assert(places::places(n, is_held(m)) == places::places(n - 1, is_held(m)) + if is_held(m)(
            n - 1,
        ) {
            1nat
        } else {
            0
        });
    }
}

/// Counting behind contexts of fewer than `n` bytes counts behind each of them, and behind no other.
proof fn lemma_counted_all(m: PpmdView, b: u8, n: int, ord: int)
    requires
        0 <= n <= m.contexts.len(),
        0 <= ord < m.contexts.len(),
    ensures
        ({
            let after = ppmd::counted_behind_all(m, b, n);
            let key = ppmd::suffix_key(m.history, ord);
            let map = m.contexts[ord];
            &&& after.history == m.history
            &&& after.order == m.order
            &&& after.max_contexts == m.max_contexts
            &&& after.contexts.len() == m.contexts.len()
            &&& after.contexts[ord] == (if ord < n {
                map.insert(
                    key,
                    ppmd::stats_after(
                        if map.dom().contains(key) {
                            map[key]
                        } else {
                            ppmd::no_stats()
                        },
                        b,
                    ),
                )
            } else {
                map
            })
        }),
    decreases n,
{
    if n > 0 {
        lemma_counted_all(m, b, n - 1, ord);
    }
}

/// State after bytes were fitted, one after the other.
pub open spec fn fitted_all(m: PpmdView, bytes: Seq<u8>) -> PpmdView
    decreases bytes.len(),
{
    if bytes.len() == 0 {
        m
    } else {
        ppmd::ppmd_fitted(fitted_all(m, bytes.drop_last()), bytes.last())
    }
}

/// Whether no context had to go while bytes were fitted.
pub open spec fn all_kept(m: PpmdView, bytes: Seq<u8>) -> bool
    decreases bytes.len(),
{
    bytes.len() == 0 || (all_kept(m, bytes.drop_last()) && {
        let before = fitted_all(m, bytes.drop_last());
        let after = fitted_all(m, bytes);
        ppmd::contexts_held(
            ppmd::counted_behind_all(
                before,
                bytes.last(),
                (ppmd::longest(before) + 1) as int,
            ).contexts,
            before.contexts.len() as int,
        ) <= before.max_contexts
    })
}

/// A model that has seen nothing.
pub open spec fn is_blank(m: PpmdView) -> bool {
    &&& m.contexts.len() == m.order + 1
    &&& m.history.len() == 0
    &&& forall|ord: int, key: u64|
        0 <= ord < m.contexts.len() ==> !(#[trigger] m.contexts[ord].dom().contains(key))
}

/// Places of the text at which the context of `ord` bytes with the key stands in front.
pub open spec fn behind_key(bytes: Seq<u8>, ord: int, key: u64) -> spec_fn(int) -> bool {
    |i: int| ord <= i && ppmd::suffix_key(bytes.take(i), ord) == key
}

/// Those of them at which the byte is `b`.
pub open spec fn byte_behind_key(bytes: Seq<u8>, ord: int, key: u64, b: u8) -> spec_fn(int) -> bool {
    |i: int| ord <= i && ppmd::suffix_key(bytes.take(i), ord) == key && bytes[i] == b
}

proof fn lemma_places_longer(bytes: Seq<u8>, ord: int, key: u64, b: u8)
    requires
        bytes.len() > 0,
    ensures
        ({
            let n = bytes.len() as int;
            let rest = bytes.drop_last();
            let here = ord <= n - 1 && ppmd::suffix_key(rest, ord) == key;
            &&& places::places(n, behind_key(bytes, ord, key)) == places::places(
                n - 1,
                behind_key(rest, ord, key),
            ) + if here {
                1nat
            } else {
                0
            }
            &&& places::places(n, byte_behind_key(bytes, ord, key, b)) == places::places(
                n - 1,
                byte_behind_key(rest, ord, key, b),
            ) + if here && bytes.last() == b {
                1nat
            } else {
                0
            }
        }),
{
    let n = bytes.len() as int;
    let rest = bytes.drop_last();
    assert forall|i: int| 0 <= i < n - 1 implies #[trigger] behind_key(bytes, ord, key)(i)
        == behind_key(rest, ord, key)(i) by {
        assert(bytes.take(i) =~= rest.take(i));
    }
    assert forall|i: int| 0 <= i < n - 1 implies #[trigger] byte_behind_key(bytes, ord, key, b)(i)
        == byte_behind_key(rest, ord, key, b)(i) by {
        assert(bytes.take(i) =~= rest.take(i));
    }
    places::lemma_places_same(n - 1, behind_key(bytes, ord, key), behind_key(rest, ord, key));
    places::lemma_places_same(
        n - 1,
        byte_behind_key(bytes, ord, key, b),
        byte_behind_key(rest, ord, key, b),
    );
    assert(bytes.take(n - 1) =~= rest);
}

/// A model counts the text: while no context had to go, behind the context of each length up to the
/// order each byte is counted as often as it stands behind such a context in the text, as long as
/// the counts are not halved. A context that stands nowhere is not held, and a byte that never
/// stands behind it is not counted; one that does is, halved or not.
pub proof fn law_fitted_text_is_counted(m: PpmdView, bytes: Seq<u8>, ord: int, key: u64, b: u8)
    requires
        is_blank(m),
        all_kept(m, bytes),
        0 <= ord <= m.order,
    ensures
        ({
            let after = fitted_all(m, bytes);
            let map = after.contexts[ord];
            let n = bytes.len() as int;
            let all = places::places(n, behind_key(bytes, ord, key));
            let own = places::places(n, byte_behind_key(bytes, ord, key, b));
            &&& after.history == bytes
            &&& after.order == m.order
            &&& after.contexts.len() == m.contexts.len()
            &&& map.dom().contains(key) <==> all > 0
            &&& all > 0 ==> ppmd::stats_ok(map[key])
            &&& all > 0 && all <= PPMD_RESCALE ==> map[key].total == all && count_of(map[key], b) == own
            &&& all > 0 ==> (count_of(map[key], b) > 0 <==> own > 0)
        }),
    decreases bytes.len(),
{
    if bytes.len() == 0 {
        assert(m.history =~= bytes);
    } else {
        let rest = bytes.drop_last();
        let c = bytes.last();
        law_fitted_text_is_counted(m, rest, ord, key, b);
        let before = fitted_all(m, rest);
        let top = (ppmd::longest(before) + 1) as int;
        let counted = ppmd::counted_behind_all(before, c, top);
        lemma_counted_all(before, c, top, ord);
        assert(ppmd::pruned(counted) == counted);
        assert(rest.push(c) =~= bytes);
        lemma_places_longer(bytes, ord, key, b);
        let here = ppmd::suffix_key(rest, ord);
        let s = if before.contexts[ord].dom().contains(key) {
            before.contexts[ord][key]
        } else {
            ppmd::no_stats()
        };
        places::lemma_places_some(rest.len() as int, behind_key(rest, ord, key));
        places::lemma_places_some(rest.len() as int, byte_behind_key(rest, ord, key, b));
        let all = places::places(rest.len() as int, behind_key(rest, ord, key));
        let own = places::places(rest.len() as int, byte_behind_key(rest, ord, key, b));
        if all == 0 && own > 0 {
            let i = choose|i: int|
                0 <= i < rest.len() && #[trigger] byte_behind_key(rest, ord, key, b)(i);
            assert(behind_key(rest, ord, key)(i));
        }
        assert(ppmd::stats_ok(s));
        if ord < top && key == here {
            law_byte_is_counted(s, c, b);
        }
    }
}

/// The last of the contexts behind a text is the one of as many bytes as the order, where the text
/// has held these bytes before: it counts each byte that stood behind them, and no other.
pub proof fn law_longest_context_tells(
    m: PpmdView,
    bytes: Seq<u8>,
    history: Seq<u8>,
    i: int,
    b: u8,
)
    requires
        is_blank(m),
        m.order > 0,
        all_kept(m, bytes),
        m.order <= i < bytes.len(),
        m.order <= history.len(),
        history.subrange(history.len() - m.order, history.len() as int) == bytes.subrange(
            i - m.order,
            i,
        ),
    ensures
        ({
            let seen = PpmdView { history, ..fitted_all(m, bytes) };
            let list = ppmd::active_stats(seen, (ppmd::longest(seen) + 1) as int);
            let key = ppmd::suffix_key(history, m.order as int);
            &&& list.len() > 0
            &&& count_of(list.last(), bytes[i]) > 0
            &&& count_of(list.last(), b) > 0 <==> places::places(
                bytes.len() as int,
                byte_behind_key(bytes, m.order as int, key, b),
            ) > 0
        }),
{
    let after = fitted_all(m, bytes);
    let seen = PpmdView { history, ..after };
    let ord = m.order as int;
    let key = ppmd::suffix_key(history, ord);
    let list = ppmd::active_stats(seen, (ppmd::longest(seen) + 1) as int);
    assert(bytes.take(i).subrange(i - ord, i) =~= bytes.subrange(i - ord, i));
    assert(ppmd::suffix_key(bytes.take(i), ord) == key);
    law_fitted_text_is_counted(m, bytes, ord, key, bytes[i]);
    law_fitted_text_is_counted(m, bytes, ord, key, b);
    assert(behind_key(bytes, ord, key)(i));
    assert(byte_behind_key(bytes, ord, key, bytes[i])(i));
    places::lemma_places_some(bytes.len() as int, behind_key(bytes, ord, key));
    places::lemma_places_some(bytes.len() as int, byte_behind_key(bytes, ord, key, bytes[i]));
    lemma_active(seen, ord + 1, ord);
    assert(list[places::places(ord, is_held(seen)) as int] == seen.contexts[ord][key]);
    assert(list.len() == places::places(ord, is_held(seen)) + 1);
}

} // verus!
