//! Training the predictor: whole examples, streams and reversible updates.

use vstd::prelude::*;
use crate::backends::rosaplus::tallies;
use crate::backends::rosaplus::sam_walk;
use crate::backends::rosaplus::sam;
use crate::backends::rosaplus::model;
use crate::backends::rosaplus::lm_build;
use crate::backends::rosaplus::lm;

use crate::backends::rosaplus::lm::LM;
use crate::backends::rosaplus::model::RosaPlus;
use crate::backends::rosaplus::sam::{Sam, SamTx, SAM_STATE_NONE};
use crate::backends::rosaplus::tallies::{Tallies, TallyLog, TallyModel};

verus! {

// ---------------------------------------------------------------------------------------
// Facts about transitions
// ---------------------------------------------------------------------------------------

proof fn lemma_along_grows(ts: Seq<TallyModel>, path: Seq<int>, sym: u32, k: int)
    requires
        lm_build::all_finite(ts),
        0 <= k <= path.len(),
        forall|i: int| 0 <= i < path.len() ==> 0 <= #[trigger] path[i] < ts.len(),
    ensures
        lm_build::all_finite(model::along_path(ts, path, sym, k)),
        lm_build::all_within(ts, model::along_path(ts, path, sym, k)),
    decreases k,
{
    if k > 0 {
        lemma_along_grows(ts, path, sym, k - 1);
        let us = model::along_path(ts, path, sym, k - 1);
        lm_build::lemma_bumped_grows(us, path[k - 1], sym, 1);
        lm_build::lemma_within_trans(ts, us, model::along_path(ts, path, sym, k));
    } else {
        assert forall|w: int| 0 <= w < ts.len() implies #[trigger] tallies::tally_within(ts[w], ts[w]) by {
            assert(ts[w].counts.dom().finite());
        }
    }
}

proof fn lemma_along_more(ts: Seq<TallyModel>, path: Seq<int>, sym: u32, j: int, k: int)
    requires
        lm_build::all_finite(ts),
        0 <= j <= k <= path.len(),
        forall|i: int| 0 <= i < path.len() ==> 0 <= #[trigger] path[i] < ts.len(),
    ensures
        lm_build::all_finite(model::along_path(ts, path, sym, k)),
        lm_build::all_within(model::along_path(ts, path, sym, j), model::along_path(ts, path, sym, k)),
    decreases k - j,
{
    lemma_along_grows(ts, path, sym, j);
    let us = model::along_path(ts, path, sym, j);
    if j < k {
        lemma_along_more(ts, path, sym, j, k - 1);
        let ws = model::along_path(ts, path, sym, k - 1);
        lm_build::lemma_bumped_grows(ws, path[k - 1], sym, 1);
        lm_build::lemma_within_trans(us, ws, model::along_path(ts, path, sym, k));
    } else {
        assert forall|w: int| 0 <= w < us.len() implies #[trigger] tallies::tally_within(us[w], us[w]) by {
            assert(us[w].counts.dom().finite());
        }
    }
}

/// The contexts that a transition touches are states, and each occurs once.
proof fn lemma_transition_path(sam: &Sam, max_order: int, i: int)
    requires
        sam.wf(),
        0 <= i < sam.text@.len(),
    ensures
        ({
            let m = sam@;
            let path = sam::path_of(m.states, sam_walk::capped(m.states, max_order, m.text_states[i + 1]));
            &&& 0 <= m.text_states[i + 1] < m.states.len()
            &&& forall|k: int| 0 <= k < path.len() ==> 0 <= #[trigger] path[k] < m.states.len()
            &&& path.no_duplicates()
        }),
{
    let m = sam@;
    assert(0 <= sam.text_states@[i + 1] < sam.st@.len());
    sam_walk::lemma_capped_range(sam, max_order, m.text_states[i + 1]);
    let c = sam_walk::capped(m.states, max_order, m.text_states[i + 1]);
    let path = sam::path_of(m.states, c);
    sam::lemma_graph_links(sam.st@, sam.ed@, sam.owner@, sam.rank@, sam.text@.len() as int);
    sam::lemma_path_ranks(m.states, sam.rank@, c);
    assert forall|a: int, b: int|
        0 <= a < path.len() && 0 <= b < path.len() && a != b implies path[a] != path[b] by {
        if a < b {
            assert(sam.rank@[path[b]] < sam.rank@[path[a]]);
        } else {
            assert(sam.rank@[path[a]] < sam.rank@[path[b]]);
        }
    }
}

proof fn lemma_transition_grows(
    ts: Seq<TallyModel>,
    sam: &Sam,
    max_order: int,
    alphabet: Seq<u32>,
    i: int,
)
    requires
        sam.wf(),
        lm_build::all_finite(ts),
        ts.len() == sam.st@.len(),
        0 <= i < sam.text@.len() - 1,
    ensures
        lm_build::all_finite(model::with_transition(ts, sam@, max_order, alphabet, i)),
        lm_build::all_within(ts, model::with_transition(ts, sam@, max_order, alphabet, i)),
{
    let m = sam@;
    let sym = lm::symbol_index(alphabet, m.text[i + 1]);
    let path = sam::path_of(m.states, sam_walk::capped(m.states, max_order, m.text_states[i + 1]));
    lemma_transition_path(sam, max_order, i);
    if sym >= 0 {
        lemma_along_grows(ts, path, sym as u32, path.len() as int);
    } else {
        assert forall|w: int| 0 <= w < ts.len() implies #[trigger] tallies::tally_within(ts[w], ts[w]) by {
            assert(ts[w].counts.dom().finite());
        }
    }
}

proof fn lemma_transitions_grow(
    ts: Seq<TallyModel>,
    sam: &Sam,
    max_order: int,
    alphabet: Seq<u32>,
    from: int,
    k: int,
    n: int,
)
    requires
        sam.wf(),
        lm_build::all_finite(ts),
        ts.len() == sam.st@.len(),
        0 <= from,
        from <= k <= n < sam.text@.len(),
    ensures
        lm_build::all_finite(model::with_transitions(ts, sam@, max_order, alphabet, from, k)),
        lm_build::all_finite(model::with_transitions(ts, sam@, max_order, alphabet, from, n)),
        lm_build::all_within(
            model::with_transitions(ts, sam@, max_order, alphabet, from, k),
            model::with_transitions(ts, sam@, max_order, alphabet, from, n),
        ),
        model::with_transitions(ts, sam@, max_order, alphabet, from, n).len() == ts.len(),
    decreases n - from,
{
    let us = model::with_transitions(ts, sam@, max_order, alphabet, from, k);
    let zs = model::with_transitions(ts, sam@, max_order, alphabet, from, n);
    if from < n {
        let ws = model::with_transitions(ts, sam@, max_order, alphabet, from, n - 1);
        if k < n {
            lemma_transitions_grow(ts, sam, max_order, alphabet, from, k, n - 1);
            lemma_transition_grows(ws, sam, max_order, alphabet, n - 1);
            lm_build::lemma_within_trans(us, ws, zs);
        } else {
            lemma_transitions_grow(ts, sam, max_order, alphabet, from, n - 1, n - 1);
            lemma_transition_grows(ws, sam, max_order, alphabet, n - 1);
        }
    }
    if k == n {
        assert forall|w: int| 0 <= w < us.len() implies #[trigger] tallies::tally_within(us[w], us[w]) by {
            assert(us[w].counts.dom().finite());
        }
    }
}

proof fn lemma_tallies_finite(tallies: &Tallies)
    requires
        tallies.wf(),
    ensures
        lm_build::all_finite(tallies@),
{
    assert forall|w: int| 0 <= w < tallies@.len() implies (#[trigger] tallies@[w]).counts.dom().finite() by {
        tallies::lemma_finite_tally(tallies.snap(), w);
    }
}

// ---------------------------------------------------------------------------------------
// Feeding
// ---------------------------------------------------------------------------------------

impl Sam {
    /// Appends `bytes`, logging every change to what was there before.
    pub fn feed_bytes_tx(&mut self, tx: &mut SamTx, bytes: &[u8])
        requires
            old(self).wf(),
            sam::tx_ok(*old(tx), old(self).snap()),
            model::fits_all(old(self)@, model::symbols(bytes@)),
        ensures
            final(self).wf(),
            final(self)@ == model::fed_all(old(self)@, model::symbols(bytes@)),
            final(self).text@ == old(self).text@ + model::symbols(bytes@),
            sam::tx_ok(*final(tx), final(self).snap()),
            sam::same_base(*old(tx), *final(tx)),
            final(self).st@.len() >= old(self).st@.len(),
    {
        let ghost syms = model::symbols(bytes@);
        let ghost goal = model::fed_all(self@, syms);
        let n: usize = bytes.len();
        let mut i: usize = 0;
        proof {
            assert(syms.skip(0) =~= syms);
            assert(self.text@ =~= self.text@ + syms.take(0));
        }
        while i < n
            invariant
                i <= n == bytes@.len(),
                syms == model::symbols(bytes@),
                self.wf(),
                sam::tx_ok(*tx, self.snap()),
                sam::same_base(*old(tx), *tx),
                model::fits_all(self@, syms.skip(i as int)),
                model::fed_all(self@, syms.skip(i as int)) == goal,
                self.text@ == old(self).text@ + syms.take(i as int),
                self.st@.len() >= old(self).st@.len(),
            decreases n - i,
        {
            let ghost rest = syms.skip(i as int);
            let ghost before = self.snap();
            proof {
                assert(rest[0] == bytes@[i as int] as u32);
                assert(rest.drop_first() =~= syms.skip(i + 1));
                sam::lemma_fed_more(before, rest[0]);
            }
            self.feed_tx(tx, bytes[i] as u32);
            i += 1;
            proof {
                assert(self.text@ == self@.text);
                assert(self.st@.len() == self@.states.len());
                assert(self.text@ =~= old(self).text@ + syms.take(i as int));
            }
        }
        proof {
            assert(syms.skip(n as int) =~= Seq::empty());
            assert(syms.take(n as int) =~= syms);
        }
    }

    /// Appends `symbols`.
    pub fn feed_symbols(&mut self, symbols: &[u32])
        requires
            old(self).wf(),
            model::fits_all(old(self)@, symbols@),
        ensures
            final(self).wf(),
            final(self)@ == model::fed_all(old(self)@, symbols@),
            final(self).text@ == old(self).text@ + symbols@,
            final(self).st@.len() >= old(self).st@.len(),
    {
        let ghost syms = symbols@;
        let ghost goal = model::fed_all(self@, syms);
        let n: usize = symbols.len();
        let mut i: usize = 0;
        proof {
            assert(syms.skip(0) =~= syms);
            assert(self.text@ =~= self.text@ + syms.take(0));
        }
        while i < n
            invariant
                i <= n == symbols@.len(),
                syms == symbols@,
                self.wf(),
                model::fits_all(self@, syms.skip(i as int)),
                model::fed_all(self@, syms.skip(i as int)) == goal,
                self.text@ == old(self).text@ + syms.take(i as int),
                self.st@.len() >= old(self).st@.len(),
            decreases n - i,
        {
            let ghost rest = syms.skip(i as int);
            let ghost before = self.snap();
            proof {
                assert(rest.drop_first() =~= syms.skip(i + 1));
                sam::lemma_fed_more(before, rest[0]);
            }
            self.feed(symbols[i]);
            i += 1;
            proof {
                assert(self.text@ == self@.text);
                assert(self.st@.len() == self@.states.len());
                assert(self.text@ =~= old(self).text@ + syms.take(i as int));
            }
        }
        proof {
            assert(syms.skip(n as int) =~= Seq::empty());
            assert(syms.take(n as int) =~= syms);
        }
    }
}

pub proof fn lemma_all_bytes(c: u32)
    requires
        c < 256,
    ensures
        lm::symbol_index(model::all_bytes(), c) == c,
        lm::is_increasing(model::all_bytes()),
{
    assert(model::all_bytes()[c as int] == c);
    assert(model::all_bytes().contains(c));
    let k = model::all_bytes().index_of(c);
    assert(0 <= k < 256 && model::all_bytes()[k] == c);
}

impl RosaPlus {
    /// Counts the transitions from `from` up to but without `to`.
    pub fn count_transitions(&mut self, log: &mut TallyLog, from: usize, to: usize)
        requires
            old(self).sam.wf(),
            old(self).lm.wf(),
            old(self).lm.tallies.ls@.len() == old(self).sam.st@.len(),
            from <= to < old(self).sam.text@.len(),
            tallies::tally_log_ok(*old(log), old(self).lm.tallies.ls@, old(self).lm.tallies.nodes@),
            forall|v: int|
                0 <= v < old(self).lm.tallies@.len() ==> (#[trigger] old(self).lm.tallies@[v]).total + (to - from) <= u64::MAX,
            tallies::nodes_needed(
                model::with_transitions(
                    old(self).lm.tallies@,
                    old(self).sam@,
                    old(self).max_order as int,
                    old(self).lm.alphabet@,
                    from as int,
                    to as int,
                ),
            ) <= u32::MAX,
        ensures
            final(self).lm.wf(),
            final(self).lm.tallies@ == model::with_transitions(
                old(self).lm.tallies@,
                old(self).sam@,
                old(self).max_order as int,
                old(self).lm.alphabet@,
                from as int,
                to as int,
            ),
            final(self).lm.tallies.ls@.len() == old(self).lm.tallies.ls@.len(),
            forall|v: int|
                0 <= v < final(self).lm.tallies@.len() ==> (#[trigger] final(self).lm.tallies@[v]).total <= old(self).lm.tallies@[v].total + (to - from),
            tallies::tally_log_ok(*final(log), final(self).lm.tallies.ls@, final(self).lm.tallies.nodes@),
            tallies::same_log(*final(log), *old(log)),
            *final(self) == (RosaPlus {
                lm: LM { tallies: final(self).lm.tallies, ..old(self).lm },
                ..*old(self)
            }),
    {
        let ghost m = self.sam@;
        let ghost mo = self.max_order as int;
        let ghost ab = self.lm.alphabet@;
        let ghost ts0 = self.lm.tallies@;
        let ghost goal = model::with_transitions(ts0, m, mo, ab, from as int, to as int);
        proof {
            lemma_tallies_finite(&self.lm.tallies);
        }
        let mut i: usize = from;
        while i < to
            invariant
                from <= i <= to,
                to < self.sam.text@.len(),
                self.sam.wf(),
                self.lm.wf(),
                m == self.sam@,
                mo == self.max_order,
                ab == self.lm.alphabet@,
                ts0 == old(self).lm.tallies@,
                lm_build::all_finite(ts0),
                ts0.len() == self.sam.st@.len(),
                self.lm.tallies.ls@.len() == self.sam.st@.len(),
                goal == model::with_transitions(ts0, m, mo, ab, from as int, to as int),
                tallies::nodes_needed(goal) <= u32::MAX,
                self.lm.tallies@ == model::with_transitions(ts0, m, mo, ab, from as int, i as int),
                tallies::tally_log_ok(*log, self.lm.tallies.ls@, self.lm.tallies.nodes@),
                tallies::same_log(*log, *old(log)),
                *self == (RosaPlus {
                    lm: LM { tallies: self.lm.tallies, ..old(self).lm },
                    ..*old(self)
                }),
                forall|v: int|
                    0 <= v < ts0.len() ==> (#[trigger] ts0[v]).total + (to - from) <= u64::MAX,
                forall|v: int|
                    0 <= v < ts0.len() ==> (#[trigger] self.lm.tallies@[v]).total <= ts0[v].total
                        + (i - from),
            decreases to - i,
        {
            let ghost ts = self.lm.tallies@;
            let ghost next = model::with_transitions(ts0, m, mo, ab, from as int, i + 1);
            let ghost c = sam_walk::capped(m.states, mo, m.text_states[i + 1]);
            let ghost path = sam::path_of(m.states, c);
            proof {
                lemma_transition_path(&self.sam, mo, i as int);
                lemma_transitions_grow(ts0, &self.sam, mo, ab, from as int, i as int, i + 1);
                lemma_transitions_grow(ts0, &self.sam, mo, ab, from as int, i + 1, to as int);
                sam::lemma_graph_links(
                    self.sam.st@,
                    self.sam.ed@,
                    self.sam.owner@,
                    self.sam.rank@,
                    self.sam.text@.len() as int,
                );
            }
            let ctx: i32 = self.sam.capped_start_state(self.max_order, self.sam.text_states[i + 1]);
            let si: i32 = self.lm.find_sym(self.sam.text[i + 1]);
            if si >= 0 {
                let ghost rank = self.sam.rank@;
                proof {
                    sam::lemma_path_ranks(m.states, rank, c);
                }
                let mut u: i32 = ctx;
                let ghost mut k: int = 0;
                while u != SAM_STATE_NONE
                    invariant
                        to < self.sam.text@.len(),
                        from <= i < to,
                        self.sam.wf(),
                        self.lm.wf(),
                        m == self.sam@,
                        mo == self.max_order,
                        rank == self.sam.rank@,
                        sam::links_ranked(m.states, rank),
                        0 <= c < m.states.len(),
                        path == sam::path_of(m.states, c),
                        forall|j: int| 0 <= j < path.len() ==> 0 <= #[trigger] path[j] < m.states.len(),
                        path.no_duplicates(),
                        0 <= k <= path.len(),
                        u == if k < path.len() {
                            path[k]
                        } else {
                            -1
                        },
                        si >= 0,
                        ts0.len() == self.sam.st@.len(),
                        ts.len() == ts0.len(),
                        lm_build::all_finite(ts),
                        self.lm.tallies.ls@.len() == self.sam.st@.len(),
                        self.lm.tallies@ == model::along_path(ts, path, si as u32, k),
                        next == model::along_path(ts, path, si as u32, path.len() as int),
                        lm_build::all_within(next, goal),
                        tallies::nodes_needed(goal) <= u32::MAX,
                        tallies::tally_log_ok(*log, self.lm.tallies.ls@, self.lm.tallies.nodes@),
                        tallies::same_log(*log, *old(log)),
                        *self == (RosaPlus {
                            lm: LM { tallies: self.lm.tallies, ..old(self).lm },
                            ..*old(self)
                        }),
                        forall|v: int|
                            0 <= v < ts0.len() ==> (#[trigger] ts0[v]).total + (to - from)
                                <= u64::MAX,
                        forall|v: int|
                            0 <= v < ts0.len() ==> (#[trigger] ts[v]).total <= ts0[v].total + (i
                                - from),
                        forall|v: int|
                            0 <= v < ts0.len() ==> (#[trigger] self.lm.tallies@[v]).total
                                <= ts[v].total + 1,
                        forall|j: int|
                            k <= j < path.len() ==> self.lm.tallies@[#[trigger] path[j]].total
                                <= ts[path[j]].total,
                    decreases path.len() - k,
                {
                    let ghost us = self.lm.tallies@;
                    proof {
                        sam::lemma_path_next(m.states, rank, c, k);
                        assert(path[k] == u);
                        assert(us[path[k]].total <= ts[path[k]].total);
                        lemma_along_more(ts, path, si as u32, k + 1, path.len() as int);
                        let ws = model::along_path(ts, path, si as u32, k + 1);
                        lm_build::lemma_within_trans(ws, next, goal);
                        tallies::lemma_needed_grows(ws, goal);
                        assert(ts[u as int].total <= ts0[u as int].total + (i - from));
                        assert(ts0[u as int].total + (to - from) <= u64::MAX);
                    }
                    self.lm.tallies.inc_tx(log, u as usize, si as u32, 1);
                    u = self.sam.st[u as usize].link;
                    proof {
                        let ws = self.lm.tallies@;
                        assert forall|v: int| 0 <= v < ts0.len() implies (#[trigger] ws[v]).total
                            <= ts[v].total + 1 by {
                            assert(us[v].total <= ts[v].total + 1);
                        }
                        assert forall|j: int| k + 1 <= j < path.len() implies ws[#[trigger] path[j]].total
                            <= ts[path[j]].total by {
                            assert(path[j] != path[k]);
                            assert(us[path[j]].total <= ts[path[j]].total);
                        }
                        k = k + 1;
                    }
                }
            }
            i += 1;
            proof {
                assert(self.lm.tallies@ == next);
                assert forall|v: int| 0 <= v < ts0.len() implies (#[trigger] self.lm.tallies@[v]).total
                    <= ts0[v].total + (i - from) by {
                    assert(ts[v].total <= ts0[v].total + (i - 1 - from));
                }
            }
        }
    }
}

} // verus!
