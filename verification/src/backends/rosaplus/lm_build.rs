//! Building the context counts of the language model from a whole text.

use vstd::prelude::*;
use crate::backends::rosaplus::tallies;
use crate::backends::rosaplus::sam_walk;
use crate::backends::rosaplus::sam;
use crate::backends::rosaplus::text_laws;
use crate::backends::rosaplus::lm;

use crate::backends::rosaplus::lm::LM;
use crate::backends::rosaplus::sam::{Sam, SamModel, StateModel};
use crate::backends::rosaplus::tallies::{Tallies, TallyModel};

verus! {

/// Context state behind the symbol at `i`, read from the last boundary before it.
pub open spec fn context_after(m: SamModel, i: int) -> int
    decreases i,
{
    let before = if i <= 0 || m.boundary_after[i - 1] != 0 {
        0
    } else {
        context_after(m, i - 1)
    };
    sam::advanced(m.states, before, m.text[i])
}

/// Whether the symbol at `i + 1` is counted behind the context that ends at `i`.
pub open spec fn is_counted(m: SamModel, alphabet: Seq<u32>, i: int) -> bool {
    &&& 0 <= i
    &&& i + 1 < m.text.len()
    &&& m.boundary_after[i] == 0
    &&& lm::symbol_index(alphabet, m.text[i + 1]) >= 0
}

/// `ts` after the pair at `i` is counted, if it is.
pub open spec fn with_pair(
    ts: Seq<TallyModel>,
    m: SamModel,
    max_order: int,
    alphabet: Seq<u32>,
    i: int,
) -> Seq<TallyModel> {
    if is_counted(m, alphabet, i) {
        tallies::bumped(
            ts,
            sam_walk::capped(m.states, max_order, context_after(m, i)),
            lm::symbol_index(alphabet, m.text[i + 1]) as u32,
            1,
        )
    } else {
        ts
    }
}

/// `ts` after the pairs from `from` up to but without `to` are counted.
pub open spec fn with_pairs(
    ts: Seq<TallyModel>,
    m: SamModel,
    max_order: int,
    alphabet: Seq<u32>,
    from: int,
    to: int,
) -> Seq<TallyModel>
    decreases to - from,
{
    if from >= to {
        ts
    } else {
        with_pair(
            with_pairs(ts, m, max_order, alphabet, from, to - 1),
            m,
            max_order,
            alphabet,
            to - 1,
        )
    }
}

/// `ts` after the counts of context `v` are handed to its suffix link.
pub open spec fn handed_up(ts: Seq<TallyModel>, states: Seq<StateModel>, v: int) -> Seq<TallyModel> {
    let p = states[v].link;
    if 0 <= p < ts.len() {
        ts.update(p, tallies::merged(ts[p], ts[v]))
    } else {
        ts
    }
}

/// `ts` after the counts are handed up, from the last of the first `n` entries of `order` to the
/// first.
pub open spec fn handed_up_all(
    ts: Seq<TallyModel>,
    states: Seq<StateModel>,
    order: Seq<int>,
    n: int,
) -> Seq<TallyModel>
    decreases n,
{
    if n <= 0 || n > order.len() {
        ts
    } else {
        handed_up_all(handed_up(ts, states, order[n - 1]), states, order, n - 1)
    }
}

/// `n` contexts that nothing followed.
pub open spec fn no_tallies(n: nat) -> Seq<TallyModel> {
    Seq::new(n, |v: int| tallies::no_tally())
}

/// Counts of every context of an automaton's text, each handed up to the shorter contexts.
pub open spec fn built_tallies(m: SamModel, max_order: int, alphabet: Seq<u32>) -> Seq<TallyModel> {
    handed_up_all(
        with_pairs(
            no_tallies(m.states.len()),
            m,
            max_order,
            alphabet,
            0,
            m.text.len() - 1,
        ),
        m.states,
        sam_walk::length_order(sam_walk::lengths(m.states)),
        m.states.len() as int,
    )
}

// ---------------------------------------------------------------------------------------
// Totals stay small
// ---------------------------------------------------------------------------------------

/// Totals of the first `k` contexts of `order` together.
spec fn pending(ts: Seq<TallyModel>, order: Seq<int>, k: int) -> nat
    decreases k,
{
    if k <= 0 {
        0
    } else {
        pending(ts, order, k - 1) + ts[order[k - 1]].total
    }
}

proof fn lemma_pending_update(ts: Seq<TallyModel>, order: Seq<int>, k: int, p: int, t: TallyModel)
    requires
        0 <= k <= order.len(),
        0 <= p < ts.len(),
        forall|i: int| 0 <= i < order.len() ==> 0 <= #[trigger] order[i] < ts.len(),
        order.no_duplicates(),
    ensures
        order.take(k).contains(p) ==> pending(ts.update(p, t), order, k) + ts[p].total == pending(
            ts,
            order,
            k,
        ) + t.total,
        !order.take(k).contains(p) ==> pending(ts.update(p, t), order, k) == pending(ts, order, k),
    decreases k,
{
    if k > 0 {
        lemma_pending_update(ts, order, k - 1, p, t);
        let here = order.take(k);
        let less = order.take(k - 1);
        if order[k - 1] == p {
            assert(here[k - 1] == p);
            assert(!less.contains(p)) by {
                if less.contains(p) {
                    let i = choose|i: int| 0 <= i < less.len() && less[i] == p;
                    assert(order[i] == order[k - 1]);
                }
            }
        } else {
            assert(here.contains(p) <==> less.contains(p)) by {
                if here.contains(p) {
                    let i = choose|i: int| 0 <= i < here.len() && here[i] == p;
                    assert(less[i] == p);
                }
                if less.contains(p) {
                    let i = choose|i: int| 0 <= i < less.len() && less[i] == p;
                    assert(here[i] == p);
                }
            }
        }
    }
}

proof fn lemma_pending_part(ts: Seq<TallyModel>, order: Seq<int>, k: int, p: int)
    requires
        0 <= k <= order.len(),
        order.take(k).contains(p),
    ensures
        ts[p].total <= pending(ts, order, k),
    decreases k,
{
    if k > 0 {
        let here = order.take(k);
        if order[k - 1] != p {
            let i = choose|i: int| 0 <= i < here.len() && here[i] == p;
            assert(order.take(k - 1)[i] == p);
            lemma_pending_part(ts, order, k - 1, p);
        }
    }
}

proof fn lemma_pending_none(n: nat, order: Seq<int>, k: int)
    requires
        0 <= k <= order.len(),
        forall|i: int| 0 <= i < order.len() ==> 0 <= #[trigger] order[i] < n,
    ensures
        pending(no_tallies(n), order, k) == 0,
    decreases k,
{
    if k > 0 {
        lemma_pending_none(n, order, k - 1);
    }
}

proof fn lemma_order_distinct(order: Seq<int>, lens: Seq<int>)
    requires
        sam_walk::is_length_order(order, lens),
    ensures
        order.no_duplicates(),
{
    assert forall|i: int, j: int|
        0 <= i < order.len() && 0 <= j < order.len() && i != j implies order[i] != order[j] by {
        if i < j {
            assert(sam_walk::comes_before(lens, order[i], order[j]));
        } else {
            assert(sam_walk::comes_before(lens, order[j], order[i]));
        }
    }
}

// ---------------------------------------------------------------------------------------
// Counts only grow
// ---------------------------------------------------------------------------------------

/// Every context counts finitely many symbols.
pub open spec fn all_finite(ts: Seq<TallyModel>) -> bool {
    forall|v: int| 0 <= v < ts.len() ==> (#[trigger] ts[v]).counts.dom().finite()
}

/// Every context of `b` counts what it counts in `a`.
pub open spec fn all_within(a: Seq<TallyModel>, b: Seq<TallyModel>) -> bool {
    &&& a.len() == b.len()
    &&& forall|v: int| 0 <= v < a.len() ==> #[trigger] tallies::tally_within(a[v], b[v])
}

pub proof fn lemma_within_trans(a: Seq<TallyModel>, b: Seq<TallyModel>, c: Seq<TallyModel>)
    requires
        all_within(a, b),
        all_within(b, c),
    ensures
        all_within(a, c),
{
    assert forall|v: int| 0 <= v < a.len() implies #[trigger] tallies::tally_within(a[v], c[v]) by {
        assert(tallies::tally_within(a[v], b[v]));
        assert(tallies::tally_within(b[v], c[v]));
    }
}

pub proof fn lemma_bumped_grows(ts: Seq<TallyModel>, v: int, sym: u32, more: nat)
    requires
        all_finite(ts),
        0 <= v < ts.len(),
    ensures
        all_finite(tallies::bumped(ts, v, sym, more)),
        all_within(ts, tallies::bumped(ts, v, sym, more)),
{
    let us = tallies::bumped(ts, v, sym, more);
    assert(us[v].counts.dom() =~= ts[v].counts.dom().insert(sym));
    assert forall|w: int| 0 <= w < ts.len() implies #[trigger] tallies::tally_within(ts[w], us[w]) by {
        assert(ts[w].counts.dom().finite());
    }
}

/// Counting a pair keeps the number of contexts and what they count.
proof fn lemma_pair_grows(
    ts: Seq<TallyModel>,
    m: SamModel,
    max_order: int,
    alphabet: Seq<u32>,
    i: int,
)
    requires
        all_finite(ts),
        is_counted(m, alphabet, i) ==> 0 <= sam_walk::capped(m.states, max_order, context_after(m, i))
            < ts.len(),
    ensures
        all_finite(with_pair(ts, m, max_order, alphabet, i)),
        all_within(ts, with_pair(ts, m, max_order, alphabet, i)),
{
    if is_counted(m, alphabet, i) {
        lemma_bumped_grows(
            ts,
            sam_walk::capped(m.states, max_order, context_after(m, i)),
            lm::symbol_index(alphabet, m.text[i + 1]) as u32,
            1,
        );
    } else {
        assert forall|w: int| 0 <= w < ts.len() implies #[trigger] tallies::tally_within(ts[w], ts[w]) by {
            assert(ts[w].counts.dom().finite());
        }
    }
}

proof fn lemma_handed_grows(ts: Seq<TallyModel>, states: Seq<StateModel>, v: int)
    requires
        all_finite(ts),
        0 <= v < ts.len(),
    ensures
        all_finite(handed_up(ts, states, v)),
        all_within(ts, handed_up(ts, states, v)),
{
    let us = handed_up(ts, states, v);
    let p = states[v].link;
    assert(ts[v].counts.dom().finite());
    if 0 <= p < ts.len() {
        assert(us[p].counts.dom() =~= ts[p].counts.dom().union(ts[v].counts.dom()));
        assert(ts[p].counts.dom().finite());
    }
    assert forall|w: int| 0 <= w < ts.len() implies #[trigger] tallies::tally_within(ts[w], us[w]) by {
        assert(ts[w].counts.dom().finite());
    }
}

proof fn lemma_handed_all_grows(
    ts: Seq<TallyModel>,
    states: Seq<StateModel>,
    order: Seq<int>,
    n: int,
)
    requires
        all_finite(ts),
        forall|i: int| 0 <= i < order.len() ==> 0 <= #[trigger] order[i] < ts.len(),
    ensures
        all_finite(handed_up_all(ts, states, order, n)),
        all_within(ts, handed_up_all(ts, states, order, n)),
    decreases n,
{
    if n <= 0 || n > order.len() {
        assert forall|w: int| 0 <= w < ts.len() implies #[trigger] tallies::tally_within(ts[w], ts[w]) by {
            assert(ts[w].counts.dom().finite());
        }
    } else {
        let v = order[n - 1];
        lemma_handed_grows(ts, states, v);
        let us = handed_up(ts, states, v);
        lemma_handed_all_grows(us, states, order, n - 1);
        lemma_within_trans(ts, us, handed_up_all(ts, states, order, n));
    }
}

/// Counting the pairs after `k` only adds to the counts of those before.
proof fn lemma_pairs_grow(
    ts: Seq<TallyModel>,
    m: SamModel,
    max_order: int,
    alphabet: Seq<u32>,
    k: int,
    n: int,
)
    requires
        0 <= k <= n,
        all_finite(with_pairs(ts, m, max_order, alphabet, 0, k)),
        forall|i: int|
            is_counted(m, alphabet, i) ==> 0 <= #[trigger] sam_walk::capped(
                m.states,
                max_order,
                context_after(m, i),
            ) < with_pairs(ts, m, max_order, alphabet, 0, k).len(),
    ensures
        all_finite(with_pairs(ts, m, max_order, alphabet, 0, n)),
        all_within(
            with_pairs(ts, m, max_order, alphabet, 0, k),
            with_pairs(ts, m, max_order, alphabet, 0, n),
        ),
    decreases n - k,
{
    let us = with_pairs(ts, m, max_order, alphabet, 0, k);
    if k < n {
        lemma_pairs_grow(ts, m, max_order, alphabet, k, n - 1);
        let ws = with_pairs(ts, m, max_order, alphabet, 0, n - 1);
        lemma_pair_grows(ws, m, max_order, alphabet, n - 1);
        lemma_within_trans(us, ws, with_pairs(ts, m, max_order, alphabet, 0, n));
    } else {
        assert forall|w: int| 0 <= w < us.len() implies #[trigger] tallies::tally_within(us[w], us[w]) by {
            assert(us[w].counts.dom().finite());
        }
    }
}

/// The context behind every symbol is a state, and so is the one that stands for it.
pub proof fn lemma_context_range(sam: &Sam, max_order: int, i: int)
    requires
        sam.wf(),
        0 <= i < sam.text@.len(),
    ensures
        0 <= context_after(sam@, i) < sam.st@.len(),
        0 <= sam_walk::capped(sam@.states, max_order, context_after(sam@, i)) < sam.st@.len(),
    decreases i,
{
    let m = sam@;
    let before = if i <= 0 || m.boundary_after[i - 1] != 0 {
        0
    } else {
        context_after(m, i - 1)
    };
    if !(i <= 0 || m.boundary_after[i - 1] != 0) {
        lemma_context_range(sam, max_order, i - 1);
    }
    sam_walk::lemma_advanced_range(sam, before, m.text[i]);
    sam_walk::lemma_capped_range(sam, max_order, context_after(m, i));
}

impl LM {
    /// Counts the text of `sam`.
    pub fn build_counts(&mut self, sam: &Sam, max_order: i64)
        requires
            sam.wf(),
            old(self).alphabet_wf(),
            tallies::nodes_needed(built_tallies(sam@, max_order as int, old(self).alphabet@)) <= u32::MAX,
        ensures
            final(self).wf(),
            final(self).alphabet == old(self).alphabet,
            final(self).unigram == old(self).unigram,
            final(self).total_uni == old(self).total_uni,
            final(self).tallies.ls@.len() == sam.st@.len(),
            final(self).tallies@ == built_tallies(sam@, max_order as int, old(self).alphabet@),
            text_laws::counts_the_text(
                sam@,
                max_order as int,
                old(self).alphabet@,
                final(self).tallies@,
            ),
            forall|v: int|
                0 <= v < final(self).tallies@.len() ==> (#[trigger] final(self).tallies@[v]).total
                    <= 2 * sam.text@.len(),
    {
        let ghost m = sam@;
        let ghost mo = max_order as int;
        let ghost ab = self.alphabet@;
        let ghost none = no_tallies(m.states.len());
        let n: usize = sam.st.len();
        let order = sam.states_by_length();
        let ghost ord = order@.map_values(|v: u32| v as int);
        let ghost goal = built_tallies(m, mo, ab);
        proof {
            text_laws::law_built_counts_the_text(m, mo, ab);
            lemma_order_distinct(ord, sam_walk::lengths(m.states));
            lemma_pending_none(m.states.len(), ord, ord.len() as int);
            assert forall|i: int| is_counted(m, ab, i) implies 0 <= #[trigger] sam_walk::capped(
                m.states,
                mo,
                context_after(m, i),
            ) < n by {
                lemma_context_range(sam, mo, i);
            }
        }
        let mut tallies = Tallies::new();
        let mut log = tallies.begin_log();
        tallies.grow_tx(&mut log, n);
        proof {
            assert(tallies@ =~= none);
            assert(all_finite(none));
        }
        let len: usize = sam.text.len();
        let pairs: usize = if len == 0 {
            0
        } else {
            len - 1
        };
        let mut v: i32 = 0;
        let mut i: usize = 0;
        while i < pairs
            invariant
                i <= pairs,
                pairs == if len == 0 {
                    0
                } else {
                    len - 1
                },
                len == sam.text@.len(),
                n == sam.st@.len(),
                m == sam@,
                mo == max_order,
                ab == self.alphabet@,
                *self == *old(self),
                self.alphabet_wf(),
                sam.wf(),
                tallies.wf(),
                tallies.ls@.len() == n,
                none == no_tallies(m.states.len()),
                all_finite(none),
                ord == sam_walk::length_order(sam_walk::lengths(m.states)),
                sam_walk::is_length_order(ord, sam_walk::lengths(m.states)),
                ord.no_duplicates(),
                goal == built_tallies(m, mo, ab),
                tallies::nodes_needed(goal) <= u32::MAX,
                0 <= v < n,
                i > 0 && m.boundary_after[i - 1] == 0 ==> v == context_after(m, i - 1),
                i == 0 || m.boundary_after[i - 1] != 0 ==> v == 0,
                tallies@ == with_pairs(none, m, mo, ab, 0, i as int),
                pending(tallies@, ord, ord.len() as int) <= i,
                forall|w: int| 0 <= w < n ==> (#[trigger] tallies@[w]).total <= i,
                forall|j: int|
                    is_counted(m, ab, j) ==> 0 <= #[trigger] sam_walk::capped(
                        m.states,
                        mo,
                        context_after(m, j),
                    ) < n,
            decreases pairs - i,
        {
            let ch: u32 = sam.text[i];
            v = sam.advance(v, ch);
            proof {
                assert(v == context_after(m, i as int));
            }
            let ghost ts = tallies@;
            let ghost next = with_pairs(none, m, mo, ab, 0, i + 1);
            if sam.boundary_after[i] == 0 {
                let ctx: i32 = sam.capped_start_state(max_order, v);
                let si: i32 = self.find_sym(sam.text[i + 1]);
                if si >= 0 {
                    proof {
                        assert(is_counted(m, ab, i as int));
                        assert(next == tallies::bumped(ts, ctx as int, si as u32, 1));
                        assert forall|w: int| 0 <= w < ts.len() implies (#[trigger] ts[w]).counts.dom().finite() by {
                            tallies::lemma_finite_tally(tallies.snap(), w);
                        }
                        lemma_pairs_grow(none, m, mo, ab, i as int, i + 1);
                        lemma_pairs_grow(none, m, mo, ab, i + 1, m.text.len() - 1);
                        let full = with_pairs(none, m, mo, ab, 0, m.text.len() - 1);
                        lemma_handed_all_grows(full, m.states, ord, m.states.len() as int);
                        lemma_within_trans(next, full, goal);
                        tallies::lemma_needed_grows(next, goal);
                        lemma_pending_update(
                            ts,
                            ord,
                            ord.len() as int,
                            ctx as int,
                            tallies::counted(ts[ctx as int], si as u32, 1),
                        );
                        assert(ts[ctx as int].total <= i);
                    }
                    tallies.inc(ctx as usize, si as u32, 1);
                    proof {
                        assert forall|w: int| 0 <= w < n implies (#[trigger] tallies@[w]).total
                            <= i + 1 by {
                            assert(ts[w].total <= i);
                        }
                    }
                } else {
                    proof {
                        assert(!is_counted(m, ab, i as int));
                    }
                }
            } else {
                v = 0;
            }
            i += 1;
        }
        let mut k: usize = n;
        let ghost limit = 2 * pairs as nat;
        proof {
            if len == 0 {
                assert(with_pairs(none, m, mo, ab, 0, m.text.len() - 1) == none);
                assert(with_pairs(none, m, mo, ab, 0, 0) == none);
            }
            assert(handed_up_all(tallies@, m.states, ord, n as int) == goal);
        }
        while k > 0
            invariant
                k <= n == sam.st@.len(),
                m == sam@,
                sam.wf(),
                *self == *old(self),
                n == order@.len(),
                ord == order@.map_values(|v: u32| v as int),
                sam_walk::is_length_order(ord, sam_walk::lengths(m.states)),
                ord.no_duplicates(),
                tallies.wf(),
                tallies.ls@.len() == n,
                tallies::nodes_needed(goal) <= u32::MAX,
                handed_up_all(tallies@, m.states, ord, k as int) == goal,
                pairs <= i32::MAX,
                pairs <= sam.text@.len(),
                limit == 2 * pairs,
                pending(tallies@, ord, k as int) <= pairs,
                forall|w: int|
                    0 <= w < n ==> (#[trigger] tallies@[w]).total + pending(tallies@, ord, k as int)
                        <= limit,
            decreases k,
        {
            k -= 1;
            let ghost ts = tallies@;
            let v: usize = order[k] as usize;
            proof {
                assert(ord[k as int] == v);
                assert(sam::link_ok(sam.st@, sam.rank@, v as int));
                assert forall|w: int| 0 <= w < ts.len() implies (#[trigger] ts[w]).counts.dom().finite() by {
                    tallies::lemma_finite_tally(tallies.snap(), w);
                }
                lemma_handed_grows(ts, m.states, v as int);
                let us = handed_up(ts, m.states, v as int);
                lemma_handed_all_grows(us, m.states, ord, k as int);
                tallies::lemma_needed_grows(us, goal);
            }
            let p: i32 = sam.st[v].link;
            if p >= 0 {
                proof {
                    let pi = p as int;
                    lemma_pending_update(ts, ord, k as int, pi, tallies::merged(ts[pi], ts[v as int]));
                    let us = ts.update(pi, tallies::merged(ts[pi], ts[v as int]));
                    assert(ts[pi].total + pending(ts, ord, k + 1) <= limit);
                    if ord.take(k as int).contains(pi) {
                        lemma_pending_part(us, ord, k as int, pi);
                    }
                    assert forall|w: int| 0 <= w < n implies (#[trigger] us[w]).total + pending(
                        us,
                        ord,
                        k as int,
                    ) <= limit by {
                        assert(ts[w].total + pending(ts, ord, k + 1) <= limit);
                    }
                }
                tallies.merge(p as usize, v);
            } else {
                proof {
                    assert forall|w: int| 0 <= w < n implies (#[trigger] tallies@[w]).total
                        + pending(tallies@, ord, k as int) <= limit by {
                        assert(ts[w].total + pending(ts, ord, k + 1) <= limit);
                    }
                }
            }
        }
        proof {
            assert forall|w: int| 0 <= w < n implies (#[trigger] tallies@[w]).total <= 2
                * sam.text@.len() by {
                assert(tallies@[w].total + pending(tallies@, ord, 0) <= limit);
            }
        }
        self.tallies = tallies;
    }
}

} // verus!
