//! What the predictor hands out: the counts along a context, continuations, evaluation chunks.

use vstd::prelude::*;
use crate::backends::rosaplus::tallies;
use crate::backends::rosaplus::sam_walk;
use crate::backends::rosaplus::sam;
use crate::backends::rosaplus::text_laws;

use crate::backends::rosaplus::model::RosaPlus;
use crate::backends::rosaplus::nodes::LM_NODE_NONE;
use crate::backends::rosaplus::sam::{Sam, SamModel, SAM_STATE_NONE};
use crate::backends::rosaplus::tallies::{is_implicit_single, LmState, Tallies, TallyModel};

verus! {

/// Chunks that a sequence is cut into for evaluation.
pub const ENTROPY_CHUNKS: usize = 16;

/// What one context says of a symbol.
#[derive(Clone, Copy, Debug, PartialEq, Eq)]
pub struct BackoffTerm {
    /// Symbols counted behind the context.
    pub total: u64,
    /// Distinct symbols among them.
    pub types: u32,
    /// Occurrences of the symbol among them.
    pub count: u64,
}

/// Terms of the contexts `path[..k]` that something followed, longest first.
pub open spec fn terms_along(ts: Seq<TallyModel>, path: Seq<int>, sym: u32, k: int) -> Seq<BackoffTerm>
    decreases k,
{
    if k <= 0 {
        Seq::empty()
    } else {
        let before = terms_along(ts, path, sym, k - 1);
        let t = ts[path[k - 1]];
        if t.total > 0 {
            before.push(
                BackoffTerm {
                    total: t.total as u64,
                    types: t.counts.dom().len() as u32,
                    count: tallies::count_in(t, sym) as u64,
                },
            )
        } else {
            before
        }
    }
}

/// Symbols and counts as a map.
pub open spec fn entry_map(entries: Seq<(u32, u64)>) -> Map<u32, nat>
    decreases entries.len(),
{
    if entries.len() == 0 {
        Map::empty()
    } else {
        entry_map(entries.drop_last()).insert(entries.last().0, entries.last().1 as nat)
    }
}

/// Automaton state after the bytes of a prompt.
pub open spec fn state_after(m: SamModel, prompt: Seq<u8>) -> int
    decreases prompt.len(),
{
    if prompt.len() == 0 {
        0
    } else {
        sam::advanced(m.states, state_after(m, prompt.drop_last()), prompt.last() as u32)
    }
}

impl Tallies {
    /// Symbols counted behind context `state`, each once, with their counts.
    pub fn entries_of(&self, state: usize) -> (entries: Vec<(u32, u64)>)
        requires
            self.wf(),
            state < self.ls@.len(),
        ensures
            entry_map(entries@) == self@[state as int].counts,
            entries@.len() == self@[state as int].counts.dom().len(),
    {
        let ghost a = self.snap();
        let s: LmState = self.ls[state];
        let mut entries: Vec<(u32, u64)> = Vec::new();
        proof {
            assert(tallies::record_ok(a.ls[state as int], a.nodes, a.owner, state as int));
            tallies::lemma_finite_tally(a, state as int);
        }
        if s.head == LM_NODE_NONE {
            if is_implicit_single(&s) {
                entries.push((s.last_sym, s.total_n));
                proof {
                    assert(entries@.drop_last() =~= Seq::empty());
                    assert(entry_map(entries@.drop_last()) == Map::<u32, nat>::empty());
                    assert(entry_map(entries@) =~= self@[state as int].counts);
                }
            }
            return entries;
        }
        let mut rev: Vec<(u32, u64)> = Vec::new();
        let mut ni: u32 = s.head;
        while ni != LM_NODE_NONE
            invariant
                self.wf(),
                a == self.snap(),
                ni == LM_NODE_NONE || ni < a.nodes.len(),
                s.head < a.nodes.len(),
                entry_prepend(rev@, tallies::list_counts(a.nodes, ni)) == tallies::list_counts(a.nodes, s.head),
                rev@.len() + tallies::list_counts(a.nodes, ni).dom().len() == tallies::list_counts(
                    a.nodes,
                    s.head,
                ).dom().len(),
                tallies::list_counts(a.nodes, ni).dom().finite(),
            decreases if ni == LM_NODE_NONE {
                0int
            } else {
                ni + 1
            },
        {
            let node = self.nodes.get(ni as usize);
            proof {
                assert(tallies::node_ok(a.nodes, a.owner, a.ls.len() as int, ni as int));
                tallies::lemma_list_front(a, ni);
            }
            let ghost before = rev@;
            rev.push((node.sym_idx, node.cnt));
            ni = node.next;
            proof {
                assert(rev@.drop_last() =~= before);
                assert(rev@.last() == (node.sym_idx, node.cnt));
            }
        }
        let n: usize = rev.len();
        let mut i: usize = n;
        proof {
            assert(rev@.take(n as int) =~= rev@);
            assert(tallies::list_counts(a.nodes, LM_NODE_NONE) == Map::<u32, nat>::empty());
            assert(entry_map(entries@) == Map::<u32, nat>::empty());
        }
        while i > 0
            invariant
                i <= n == rev@.len(),
                entry_prepend(rev@.take(i as int), entry_map(entries@)) == tallies::list_counts(
                    a.nodes,
                    s.head,
                ),
                entries@.len() == n - i,
            decreases i,
        {
            i -= 1;
            let ghost before = entries@;
            entries.push(rev[i]);
            proof {
                assert(entries@.drop_last() =~= before);
                assert(rev@.take(i + 1).drop_last() =~= rev@.take(i as int));
                assert(rev@.take(i + 1).last() == rev@[i as int]);
            }
        }
        proof {
            assert(rev@.take(0) =~= Seq::empty());
        }
        entries
    }
}

/// `behind` with the entries put in front, the last of them first.
spec fn entry_prepend(front: Seq<(u32, u64)>, behind: Map<u32, nat>) -> Map<u32, nat>
    decreases front.len(),
{
    if front.len() == 0 {
        behind
    } else {
        entry_prepend(
            front.drop_last(),
            behind.insert(front.last().0, front.last().1 as nat),
        )
    }
}

impl Sam {
    /// States on the suffix path of `v`, the longest context first.
    pub fn path_states(&self, v: i32) -> (path: Vec<i32>)
        requires
            self.wf(),
            0 <= v < self.st@.len(),
        ensures
            path@.map_values(|u: i32| u as int) == sam::path_of(self@.states, v as int),
            forall|i: int| 0 <= i < path@.len() ==> 0 <= #[trigger] path@[i] < self.st@.len(),
    {
        let ghost states = self@.states;
        let ghost rank = self.rank@;
        let ghost goal = sam::path_of(states, v as int);
        proof {
            sam::lemma_graph_links(self.st@, self.ed@, self.owner@, self.rank@, self.text@.len() as int);
            sam::lemma_path_ranks(states, rank, v as int);
        }
        let mut path: Vec<i32> = Vec::new();
        let mut u: i32 = v;
        while u != SAM_STATE_NONE
            invariant
                self.wf(),
                states == self@.states,
                rank == self.rank@,
                0 <= v < self.st@.len(),
                sam::links_ranked(states, rank),
                goal == sam::path_of(states, v as int),
                forall|i: int| 0 <= i < goal.len() ==> 0 <= #[trigger] goal[i] < states.len(),
                path@.len() <= goal.len(),
                forall|i: int| 0 <= i < path@.len() ==> #[trigger] path@[i] == goal[i],
                u == if path@.len() < goal.len() {
                    goal[path@.len() as int]
                } else {
                    -1
                },
            decreases goal.len() - path@.len(),
        {
            proof {
                sam::lemma_path_next(states, rank, v as int, path@.len() as int);
            }
            path.push(u);
            u = self.st[u as usize].link;
        }
        proof {
            assert(path@.map_values(|u: i32| u as int) =~= goal);
        }
        path
    }
}

impl RosaPlus {
    /// Every context has its counts.
    pub open spec fn is_scored(&self) -> bool {
        self.lm.tallies.ls@.len() == self.sam.st@.len()
    }

    /// Contexts to ask for the symbol behind state `v`, longest first.
    pub fn context_path(&self, v: i32) -> (path: Vec<i32>)
        requires
            self.wf(),
            0 <= v < self.sam.st@.len(),
        ensures
            path@.map_values(|u: i32| u as int) == sam::path_of(
                self@.sam.states,
                sam_walk::capped(self@.sam.states, self@.max_order, v as int),
            ),
            forall|i: int| 0 <= i < path@.len() ==> 0 <= #[trigger] path@[i] < self.sam.st@.len(),
    {
        let start: i32 = self.sam.capped_start_state(self.max_order, v);
        self.sam.path_states(start)
    }

    /// What the contexts behind state `v` say of the symbol with index `sym`.
    pub fn backoff_terms(&self, v: i32, sym: u32) -> (terms: Vec<BackoffTerm>)
        requires
            self.wf(),
            self.is_scored(),
            0 <= v < self.sam.st@.len(),
        ensures
            ({
                let path = sam::path_of(
                    self@.sam.states,
                    sam_walk::capped(self@.sam.states, self@.max_order, v as int),
                );
                terms@ == terms_along(self@.lm.tallies, path, sym, path.len() as int)
            }),
    {
        let path = self.context_path(v);
        let ghost gpath = path@.map_values(|u: i32| u as int);
        let ghost ts = self.lm.tallies@;
        let mut terms: Vec<BackoffTerm> = Vec::new();
        let n: usize = path.len();
        let mut i: usize = 0;
        while i < n
            invariant
                i <= n == path@.len(),
                self.wf(),
                self.is_scored(),
                gpath == path@.map_values(|u: i32| u as int),
                ts == self.lm.tallies@,
                forall|k: int| 0 <= k < path@.len() ==> 0 <= #[trigger] path@[k] < self.sam.st@.len(),
                terms@ == terms_along(ts, gpath, sym, i as int),
            decreases n - i,
        {
            let u: usize = path[i] as usize;
            proof {
                assert(gpath[i as int] == u);
                tallies::lemma_finite_tally(self.lm.tallies.snap(), u as int);
            }
            let s: LmState = self.lm.tallies.ls[u];
            if s.total_n > 0 {
                let count: u64 = self.lm.tallies.count_of(u, sym);
                terms.push(BackoffTerm { total: s.total_n, types: s.types_t, count });
            }
            i += 1;
        }
        terms
    }

    /// Automaton state after `context`.
    pub fn state_behind(&self, context: &[u8]) -> (v: i32)
        requires
            self.wf(),
        ensures
            v == state_after(self@.sam, context@),
            0 <= v < self.sam.st@.len(),
    {
        let n: usize = context.len();
        let mut v: i32 = 0;
        let mut i: usize = 0;
        while i < n
            invariant
                i <= n == context@.len(),
                self.wf(),
                0 <= v < self.sam.st@.len(),
                v == state_after(self@.sam, context@.take(i as int)),
            decreases n - i,
        {
            v = self.sam.advance(v, context[i] as u32);
            i += 1;
            proof {
                assert(context@.take(i as int).drop_last() =~= context@.take(i - 1));
            }
        }
        proof {
            assert(context@.take(n as int) =~= context@);
        }
        v
    }
}

// ---------------------------------------------------------------------------------------
// Continuations
// ---------------------------------------------------------------------------------------

/// A continuation in the making.
pub struct RosaGeneration {
    pub v: i32,
    pub out: Vec<u32>,
    pub left: usize,
}

/// What a continuation needs next.
#[derive(Clone, Copy, Debug, PartialEq, Eq)]
pub enum NextSymbol {
    /// Nothing: it is complete.
    Complete,
    /// The symbol that followed when the context last occurred.
    Known(u32),
    /// A symbol drawn from the distribution behind the context.
    Drawn,
}

impl RosaPlus {
    /// Begins a continuation of `prompt` by at most `steps` symbols; none where the language model
    /// is not built.
    pub fn begin_generation(&self, prompt: &[u8], steps: i32) -> (run: Option<RosaGeneration>)
        requires
            self.wf(),
        ensures
            run.is_some() == self.lm_built,
            run matches Some(r) ==> {
                &&& r.v == state_after(self@.sam, prompt@)
                &&& 0 <= r.v < self.sam.st@.len()
                &&& r.out@ == Seq::<u32>::empty()
                &&& r.left == (if steps > 0 {
                    steps as int
                } else {
                    0
                })
            },
    {
        if !self.lm_built {
            return None;
        }
        let v: i32 = self.state_behind(prompt);
        let left: usize = if steps > 0 {
            steps as usize
        } else {
            0
        };
        Some(RosaGeneration { v, out: Vec::new(), left })
    }

    /// What the continuation needs next.
    pub fn next_symbol(&self, run: &RosaGeneration) -> (next: NextSymbol)
        requires
            self.wf(),
            0 <= run.v < self.sam.st@.len(),
        ensures
            next == (if run.left == 0 {
                NextSymbol::Complete
            } else {
                match sam::first_follower(self@.sam, sam::path_of(self@.sam.states, run.v as int), 0) {
                    Some(ch) => NextSymbol::Known(ch),
                    None => NextSymbol::Drawn,
                }
            }),
            next matches NextSymbol::Known(ch) ==> text_laws::is_first_on_path(
                self@.sam,
                sam::path_of(self@.sam.states, run.v as int),
                Some(ch),
            ),
            next is Drawn ==> text_laws::is_first_on_path(
                self@.sam,
                sam::path_of(self@.sam.states, run.v as int),
                None,
            ),
    {
        if run.left == 0 {
            return NextSymbol::Complete;
        }
        match self.sam.predict_det(run.v) {
            Some(ch) => NextSymbol::Known(ch),
            None => NextSymbol::Drawn,
        }
    }

    /// Appends `ch` to the continuation, which ends with the end marker.
    pub fn push_symbol(&self, run: &mut RosaGeneration, ch: u32)
        requires
            self.wf(),
            0 <= old(run).v < self.sam.st@.len(),
            old(run).left > 0,
        ensures
            final(run).out@ == old(run).out@.push(ch),
            0 <= final(run).v < self.sam.st@.len(),
            self.use_eot && ch == self.eot ==> final(run).left == 0 && final(run).v == old(run).v,
            !(self.use_eot && ch == self.eot) ==> final(run).left == old(run).left - 1
                && final(run).v == sam::advanced(self@.sam.states, old(run).v as int, ch),
    {
        run.out.push(ch);
        if self.use_eot && ch == self.eot {
            run.left = 0;
        } else {
            run.left = run.left - 1;
            run.v = self.sam.advance(run.v, ch);
        }
    }
}

// ---------------------------------------------------------------------------------------
// Evaluation
// ---------------------------------------------------------------------------------------

/// Length of an evaluation chunk of `n` symbols.
pub open spec fn chunk_len(n: int) -> int {
    (n + 15) / 16
}

/// Bounds of the evaluation chunk `i` of `n` symbols.
pub open spec fn chunk_bounds(n: int, i: int) -> (int, int) {
    let size = chunk_len(n);
    (i * size, if (i + 1) * size < n {
        (i + 1) * size
    } else {
        n
    })
}

/// Cuts `n` symbols into the chunks that are scored one after the other.
pub fn entropy_chunks(n: usize) -> (chunks: Vec<(usize, usize)>)
    ensures
        chunks@.len() <= 16,
        forall|i: int|
            0 <= i < chunks@.len() ==> (
            (#[trigger] chunks@[i]).0 as int, chunks@[i].1 as int) == chunk_bounds(n as int, i),
        forall|i: int| 0 <= i < chunks@.len() ==> (#[trigger] chunks@[i]).0 < chunks@[i].1,
        chunks@.len() < 16 ==> chunks@.len() * chunk_len(n as int) >= n,
        n > 0 ==> chunks@.len() > 0 && chunks@[0].0 == 0 && chunks@.last().1 == n,
{
    let size: usize = n / 16 + if n % 16 == 0 {
        0
    } else {
        1
    };
    let mut chunks: Vec<(usize, usize)> = Vec::new();
    let mut start: usize = 0;
    while chunks.len() < ENTROPY_CHUNKS && start < n
        invariant
            chunks@.len() <= 16,
            size == chunk_len(n as int),
            start == (if chunks@.len() * size < n {
                chunks@.len() * size
            } else {
                n as int
            }),
            forall|i: int|
                0 <= i < chunks@.len() ==> (
                (#[trigger] chunks@[i]).0 as int, chunks@[i].1 as int) == chunk_bounds(
                    n as int,
                    i,
                ),
            forall|i: int| 0 <= i < chunks@.len() ==> (#[trigger] chunks@[i]).0 < chunks@[i].1,
            chunks@.len() > 0 ==> chunks@.last().1 == start,
            chunks@.len() == 0 ==> start == 0,
        decreases 16 - chunks@.len(),
    {
        let ghost k = chunks@.len() as int;
        proof {
            assert((k + 1) * size == k * size + size) by (nonlinear_arith);
            assert(size > 0);
        }
        let end: usize = if size < n - start {
            start + size
        } else {
            n
        };
        chunks.push((start, end));
        start = end;
    }
    proof {
        assert(16 * chunk_len(n as int) >= n);
        if n > 0 && chunks@.len() == 16 {
            assert(start == n);
        }
        if chunks@.len() > 0 {
            assert(chunks@[0].0 == chunk_bounds(n as int, 0).0);
            assert(0 * chunk_len(n as int) == 0) by (nonlinear_arith);
        }
    }
    chunks
}

/// Orders that are tried where no order is set: those shorter than the data.
pub fn candidate_orders(n: usize) -> (orders: Vec<i64>)
    ensures
        ({
            let all: Seq<i64> = seq![0i64, 1, 2, 4, 8, 16, 32, 64];
            orders@ == all.filter(|mo: i64| mo < n)
        }),
{
    let mut all: Vec<i64> = Vec::new();
    all.push(0);
    all.push(1);
    all.push(2);
    all.push(4);
    all.push(8);
    all.push(16);
    all.push(32);
    all.push(64);
    let ghost goal: Seq<i64> = seq![0i64, 1, 2, 4, 8, 16, 32, 64];
    proof {
        assert(all@ =~= goal);
    }
    let mut orders: Vec<i64> = Vec::new();
    let mut i: usize = 0;
    while i < all.len()
        invariant
            i <= all@.len(),
            all@ == goal,
            goal == (seq![0i64, 1, 2, 4, 8, 16, 32, 64]),
            orders@ == goal.take(i as int).filter(|mo: i64| mo < n),
        decreases all@.len() - i,
    {
        let mo: i64 = all[i];
        proof {
            assert(goal.take(i + 1).drop_last() =~= goal.take(i as int));
            assert(goal.take(i + 1).last() == mo);
            assert(0 <= mo <= 64);
            reveal(Seq::filter);
        }
        if (mo as usize) < n {
            orders.push(mo);
        }
        i += 1;
    }
    proof {
        assert(goal.take(all@.len() as int) =~= goal);
    }
    orders
}

} // verus!
