//! Online suffix automaton with an undo log.
//!
//! States are numbered in order of creation; state 0 is the root. A state keeps its first
//! few outgoing edges inline and the rest in a linked list through a shared edge table.

use vstd::prelude::*;

use crate::backends::rosaplus::index::{edge_ix, state_ix};

verus! {

/// Edges kept inside a state.
pub const SAM_SMALL_MAX: usize = 4;

/// Marks the absence of a state.
pub const SAM_STATE_NONE: i32 = -1;

/// Marks the absence of an edge.
pub const SAM_EDGE_NONE: u32 = 4294967295;

/// Number of byte symbols.
pub const BYTE_ALPHA_N: usize = 256;

/// One automaton state.
#[derive(Clone, Copy, Debug)]
pub struct SamState {
    pub link: i32,
    pub len: i32,
    pub endpos: i32,
    pub head: u32,
    pub small_ch: [u32; 4],
    pub small_to: [i32; 4],
    pub small_n: u8,
}

/// One edge of the shared table.
#[derive(Clone, Copy, Debug)]
pub struct SamEdge {
    pub ch: u32,
    pub to: i32,
    pub next: u32,
}

/// Suffix automaton over `u32` symbols.
pub struct Sam {
    pub st: Vec<SamState>,
    pub ed: Vec<SamEdge>,
    pub last: i32,
    pub root_to: Vec<i32>,
    pub text: Vec<u32>,
    pub text_states: Vec<i32>,
    pub boundary_after: Vec<u8>,
    /// State whose list holds each edge.
    pub owner: Ghost<Seq<int>>,
    /// Numbers that decrease along suffix links.
    pub rank: Ghost<Seq<nat>>,
}

/// Contents of a [`Sam`].
#[verifier::ext_equal]
pub struct SamSnapshot {
    pub st: Seq<SamState>,
    pub ed: Seq<SamEdge>,
    pub last: i32,
    pub root_to: Seq<i32>,
    pub text: Seq<u32>,
    pub text_states: Seq<i32>,
    pub boundary_after: Seq<u8>,
    pub owner: Seq<int>,
    pub rank: Seq<nat>,
}

/// A state of the automaton as a mathematical object.
#[verifier::ext_equal]
pub struct StateModel {
    pub link: int,
    pub len: int,
    pub endpos: int,
    pub edges: Map<u32, int>,
}

/// The automaton as a mathematical object.
#[verifier::ext_equal]
pub struct SamModel {
    pub states: Seq<StateModel>,
    pub last: int,
    pub text: Seq<u32>,
    pub text_states: Seq<int>,
    pub boundary_after: Seq<u8>,
}

// ---------------------------------------------------------------------------------------
// Edges of a state
// ---------------------------------------------------------------------------------------

/// First edge of the list that starts at `ei` and is labelled `ch`.
pub open spec fn stop_at(ed: Seq<SamEdge>, ei: u32, ch: u32) -> u32
    decreases ei,
{
    if ei >= ed.len() {
        SAM_EDGE_NONE
    } else if ed[ei as int].ch == ch {
        ei
    } else if ed[ei as int].next < ei {
        stop_at(ed, ed[ei as int].next, ch)
    } else {
        SAM_EDGE_NONE
    }
}

/// Target of the edge labelled `ch` in the list that starts at `ei`; -1 if there is none.
pub open spec fn list_target(ed: Seq<SamEdge>, ei: u32, ch: u32) -> int {
    let e = stop_at(ed, ei, ch);
    if e >= ed.len() {
        -1
    } else {
        ed[e as int].to as int
    }
}

/// Whether inline slot `i` holds the edge labelled `ch`.
pub open spec fn slot_has(s: SamState, i: int, ch: u32) -> bool {
    i < s.small_n && s.small_ch@[i] == ch
}

/// Target of the inline edge labelled `ch`; -1 if there is none.
pub open spec fn small_target(s: SamState, ch: u32) -> int {
    if slot_has(s, 0, ch) {
        s.small_to@[0] as int
    } else if slot_has(s, 1, ch) {
        s.small_to@[1] as int
    } else if slot_has(s, 2, ch) {
        s.small_to@[2] as int
    } else if slot_has(s, 3, ch) {
        s.small_to@[3] as int
    } else {
        -1
    }
}

/// Target of the edge of state `v` labelled `ch`; -1 if there is none.
pub open spec fn target(st: Seq<SamState>, ed: Seq<SamEdge>, v: int, ch: u32) -> int {
    let inline = small_target(st[v], ch);
    if inline != -1 {
        inline
    } else {
        list_target(ed, st[v].head, ch)
    }
}

/// State `v` as a mathematical object.
pub open spec fn state_model(st: Seq<SamState>, ed: Seq<SamEdge>, v: int) -> StateModel {
    StateModel {
        link: st[v].link as int,
        len: st[v].len as int,
        endpos: st[v].endpos as int,
        edges: Map::new(
            |ch: u32| target(st, ed, v, ch) != -1,
            |ch: u32| target(st, ed, v, ch),
        ),
    }
}

/// All states as mathematical objects.
pub open spec fn states_model(st: Seq<SamState>, ed: Seq<SamEdge>) -> Seq<StateModel> {
    Seq::new(st.len(), |v: int| state_model(st, ed, v))
}

// ---------------------------------------------------------------------------------------
// Well-formedness
// ---------------------------------------------------------------------------------------

/// Edge `e` leads to a state other than the root, its successor in the list is older and of the same owner, and
/// its label does not occur again behind it.
pub open spec fn edge_ok(n: int, ed: Seq<SamEdge>, owner: Seq<int>, e: int) -> bool {
    let x = ed[e];
    &&& 0 < x.to < n
    &&& 0 <= owner[e] < n
    &&& x.next == SAM_EDGE_NONE || (x.next < e && owner[x.next as int] == owner[e])
    &&& list_target(ed, x.next, x.ch) == -1
}

/// State `v` has distinct labels, valid targets, and numbers within the text.
pub open spec fn state_ok(
    st: Seq<SamState>,
    ed: Seq<SamEdge>,
    owner: Seq<int>,
    text_len: int,
    v: int,
) -> bool {
    let s = st[v];
    &&& s.small_n <= 4
    &&& forall|i: int| 0 <= i < s.small_n ==> 0 < #[trigger] s.small_to@[i] < st.len()
    &&& forall|i: int, j: int|
        0 <= i < j < s.small_n ==> #[trigger] s.small_ch@[i] != #[trigger] s.small_ch@[j]
    &&& forall|i: int|
        0 <= i < s.small_n ==> list_target(ed, s.head, #[trigger] s.small_ch@[i]) == -1
    &&& s.head == SAM_EDGE_NONE || (s.head < ed.len() && owner[s.head as int] == v)
    &&& 0 <= s.len <= text_len
    &&& -1 <= s.endpos < text_len
}

/// The root has no suffix link; every other state's link is a state of lower rank.
pub open spec fn link_ok(st: Seq<SamState>, rank: Seq<nat>, v: int) -> bool {
    &&& rank[v] < st.len()
    &&& if v == 0 {
        st[v].link == SAM_STATE_NONE
    } else {
        0 <= st[v].link < st.len() && rank[st[v].link as int] < rank[v]
    }
}

/// The automaton's graph is consistent.
pub open spec fn graph_wf(
    st: Seq<SamState>,
    ed: Seq<SamEdge>,
    owner: Seq<int>,
    rank: Seq<nat>,
    text_len: int,
) -> bool {
    &&& 1 <= st.len() <= i32::MAX
    &&& ed.len() < u32::MAX
    &&& owner.len() == ed.len()
    &&& rank.len() == st.len()
    &&& forall|v: int| 0 <= v < st.len() ==> #[trigger] state_ok(st, ed, owner, text_len, v)
    &&& forall|v: int| 0 <= v < st.len() ==> #[trigger] link_ok(st, rank, v)
    &&& forall|e: int| 0 <= e < ed.len() ==> #[trigger] edge_ok(st.len() as int, ed, owner, e)
}

/// Number of edges of the list that starts at `ei`.
pub open spec fn list_size(ed: Seq<SamEdge>, ei: u32) -> nat
    decreases ei,
{
    if ei >= ed.len() {
        0
    } else if ed[ei as int].next < ei {
        list_size(ed, ed[ei as int].next) + 1
    } else {
        1
    }
}

/// Edges of a state that do not fit into it.
pub open spec fn edge_excess(s: StateModel) -> nat {
    if s.edges.dom().len() > SAM_SMALL_MAX {
        (s.edges.dom().len() - SAM_SMALL_MAX) as nat
    } else {
        0
    }
}

/// Entries of the shared table that the states take.
pub open spec fn edges_needed(states: Seq<StateModel>) -> nat
    decreases states.len(),
{
    if states.len() == 0 {
        0
    } else {
        edges_needed(states.drop_last()) + edge_excess(states.last())
    }
}

/// Whether the automaton's states and edges can be numbered.
pub open spec fn fits(m: SamModel) -> bool {
    m.states.len() <= i32::MAX && edges_needed(m.states) < u32::MAX
}

/// State `v` has as many labels as slots and list entries, and a list only once its slots are
/// taken.
pub open spec fn sized(st: Seq<SamState>, ed: Seq<SamEdge>, v: int) -> bool {
    let dom = state_model(st, ed, v).edges.dom();
    &&& dom.finite()
    &&& dom.len() == st[v].small_n + list_size(ed, st[v].head)
    &&& st[v].head != SAM_EDGE_NONE ==> st[v].small_n == 4
}

/// The shared table holds exactly the edges that do not fit into their states.
pub open spec fn table_ok(st: Seq<SamState>, ed: Seq<SamEdge>) -> bool {
    &&& forall|v: int| 0 <= v < st.len() ==> #[trigger] sized(st, ed, v)
    &&& ed.len() == edges_needed(states_model(st, ed))
}

/// The root cache repeats the root's byte edges.
pub open spec fn root_cache_ok(st: Seq<SamState>, ed: Seq<SamEdge>, root_to: Seq<i32>) -> bool {
    &&& root_to.len() == 256
    &&& forall|c: u32| c < 256 ==> #[trigger] root_to[c as int] as int == target(st, ed, 0, c)
}

/// A snapshot is that of a consistent automaton.
pub open spec fn snapshot_wf(s: SamSnapshot) -> bool {
    &&& graph_wf(s.st, s.ed, s.owner, s.rank, s.text.len() as int)
    &&& table_ok(s.st, s.ed)
    &&& root_cache_ok(s.st, s.ed, s.root_to)
    &&& 0 <= s.last < s.st.len()
    &&& s.text.len() < s.st.len() <= 2 * s.text.len() + 1
    &&& s.boundary_after.len() == s.text.len()
    &&& s.text_states.len() == s.text.len() + 1
    &&& forall|i: int|
        0 <= i < s.text_states.len() ==> 0 <= #[trigger] s.text_states[i] < s.st.len()
}

/// The automaton of a snapshot.
pub open spec fn snapshot_model(s: SamSnapshot) -> SamModel {
    SamModel {
        states: states_model(s.st, s.ed),
        last: s.last as int,
        text: s.text,
        text_states: s.text_states.map_values(|v: i32| v as int),
        boundary_after: s.boundary_after,
    }
}

// ---------------------------------------------------------------------------------------
// Suffix paths
// ---------------------------------------------------------------------------------------

/// States met from `p` on along suffix links, at most `fuel` of them.
pub open spec fn suffix_path(states: Seq<StateModel>, p: int, fuel: nat) -> Seq<int>
    decreases fuel,
{
    if fuel == 0 || p < 0 || p >= states.len() {
        Seq::empty()
    } else {
        seq![p] + suffix_path(states, states[p].link, (fuel - 1) as nat)
    }
}

/// States met from `p` on along suffix links.
pub open spec fn path_of(states: Seq<StateModel>, p: int) -> Seq<int> {
    suffix_path(states, p, states.len())
}

/// Index of the first state of `path[from..]` that has an edge labelled `ch`; the path's
/// length if none has.
pub open spec fn first_with_edge(
    states: Seq<StateModel>,
    path: Seq<int>,
    ch: u32,
    from: int,
) -> int
    decreases path.len() - from,
{
    if from < 0 || from >= path.len() {
        path.len() as int
    } else if states[path[from]].edges.contains_key(ch) {
        from
    } else {
        first_with_edge(states, path, ch, from + 1)
    }
}

/// Index of the first state of `path[from..]` whose edge labelled `ch` does not lead to `q`.
pub open spec fn first_elsewhere(
    states: Seq<StateModel>,
    path: Seq<int>,
    ch: u32,
    q: int,
    from: int,
) -> int
    decreases path.len() - from,
{
    if from < 0 || from >= path.len() {
        path.len() as int
    } else if states[path[from]].edges.contains_key(ch) && states[path[from]].edges[ch] == q {
        first_elsewhere(states, path, ch, q, from + 1)
    } else {
        from
    }
}

/// `states` with the edge `ch` of every state of `vs` leading to `to`.
pub open spec fn with_edges(
    states: Seq<StateModel>,
    vs: Seq<int>,
    ch: u32,
    to: int,
) -> Seq<StateModel> {
    Seq::new(
        states.len(),
        |v: int|
            if vs.contains(v) {
                StateModel { edges: states[v].edges.insert(ch, to), ..states[v] }
            } else {
                states[v]
            },
    )
}

/// `states` with the suffix link of `v` leading to `to`.
pub open spec fn with_link(states: Seq<StateModel>, v: int, to: int) -> Seq<StateModel> {
    states.update(v, StateModel { link: to, ..states[v] })
}

/// States after a new state for `ch` was linked in behind state `g`: the states on the suffix
/// path of `g` that lack the symbol get an edge to the new state; where one has it, the new
/// state's suffix link is that edge's target, split first if it stands for longer contexts too.
pub open spec fn linked_states(states: Seq<StateModel>, g: int, ch: u32, at: int) -> Seq<
    StateModel,
> {
    let r = states.len() as int;
    let path = path_of(states, g);
    let k = first_with_edge(states, path, ch, 0);
    let fresh = StateModel {
        link: 0,
        len: states[g].len + 1,
        endpos: at,
        edges: Map::empty(),
    };
    let joined = with_edges(states.push(fresh), path.subrange(0, k), ch, r);
    if k == path.len() {
        joined
    } else {
        let p = path[k];
        let q = states[p].edges[ch];
        if states[p].len + 1 == states[q].len {
            with_link(joined, r, q)
        } else {
            let u = r + 1;
            let split = StateModel { len: states[p].len + 1, ..joined[q] };
            let end = first_elsewhere(states, path, ch, q, k);
            let moved = with_edges(joined.push(split), path.subrange(k, end), ch, u);
            with_link(with_link(moved, q, u), r, u)
        }
    }
}

/// The automaton after one more symbol.
pub open spec fn fed(m: SamModel, ch: u32) -> SamModel {
    let at = m.text.len() as int;
    let r = m.states.len() as int;
    SamModel {
        states: linked_states(m.states, m.last, ch, at),
        last: r,
        text: m.text.push(ch),
        text_states: m.text_states.push(r),
        boundary_after: m.boundary_after.push(0),
    }
}

/// The automaton after a boundary was put behind its last symbol.
pub open spec fn bounded(m: SamModel) -> SamModel {
    SamModel {
        last: 0,
        boundary_after: if m.text.len() > 0 {
            m.boundary_after.update(m.text.len() - 1, 1)
        } else {
            m.boundary_after
        },
        ..m
    }
}

/// State reached from `v` by `ch`: the edge of the first state on the suffix path that has
/// one, the root if none has.
pub open spec fn advanced(states: Seq<StateModel>, v: int, ch: u32) -> int {
    let path = path_of(states, v);
    let k = first_with_edge(states, path, ch, 0);
    if k < path.len() {
        states[path[k]].edges[ch]
    } else {
        0
    }
}

/// Symbol that follows the last occurrence of the context of `v`, unless a boundary lies
/// between.
pub open spec fn follows(m: SamModel, v: int) -> Option<u32> {
    let s = m.states[v];
    if s.len > 0 && s.endpos + 1 < m.text.len() && !(s.endpos >= 0 && m.boundary_after[s.endpos]
        != 0) {
        Some(m.text[s.endpos + 1])
    } else {
        None
    }
}

/// What follows the longest context on `path[from..]` that something follows.
pub open spec fn first_follower(m: SamModel, path: Seq<int>, from: int) -> Option<u32>
    decreases path.len() - from,
{
    if from < 0 || from >= path.len() {
        None
    } else if follows(m, path[from]) is Some {
        follows(m, path[from])
    } else {
        first_follower(m, path, from + 1)
    }
}

// ---------------------------------------------------------------------------------------
// Undo log
// ---------------------------------------------------------------------------------------

/// `s` with the logged entries put back, newest first.
pub open spec fn undone<T>(s: Seq<T>, log: Seq<(usize, T)>) -> Seq<T>
    decreases log.len(),
{
    if log.len() == 0 {
        s
    } else {
        let (idx, before) = log.last();
        let t = if idx < s.len() {
            s.update(idx as int, before)
        } else {
            s
        };
        undone(t, log.drop_last())
    }
}

/// Undo log of an automaton since [`Sam::begin_tx`].
pub struct SamTx {
    pub old_last: i32,
    pub old_text_len: usize,
    pub old_text_states_len: usize,
    pub old_boundary_len: usize,
    pub old_st_len: usize,
    pub old_ed_len: usize,
    pub st_changes: Vec<(usize, SamState)>,
    pub ed_changes: Vec<(usize, SamEdge)>,
    /// The automaton when the log began.
    pub base: Ghost<SamSnapshot>,
}

/// Whether `a` begins with all of `b`.
pub open spec fn extends<T>(a: Seq<T>, b: Seq<T>) -> bool {
    b.len() <= a.len() && forall|i: int| 0 <= i < b.len() ==> #[trigger] a[i] == b[i]
}

/// The log leads from `st` and `ed` back to the automaton it began with.
pub open spec fn log_ok(tx: SamTx, st: Seq<SamState>, ed: Seq<SamEdge>) -> bool {
    &&& snapshot_wf(tx.base@)
    &&& tx.old_last == tx.base@.last
    &&& tx.old_st_len == tx.base@.st.len()
    &&& tx.old_ed_len == tx.base@.ed.len()
    &&& tx.old_text_len == tx.base@.text.len()
    &&& tx.old_text_states_len == tx.base@.text_states.len()
    &&& tx.old_boundary_len == tx.base@.boundary_after.len()
    &&& forall|i: int|
        0 <= i < tx.st_changes@.len() ==> (#[trigger] tx.st_changes@[i]).0 < st.len()
    &&& forall|i: int|
        0 <= i < tx.ed_changes@.len() ==> (#[trigger] tx.ed_changes@[i]).0 < ed.len()
    &&& extends(undone(st, tx.st_changes@), tx.base@.st)
    &&& extends(undone(ed, tx.ed_changes@), tx.base@.ed)
    &&& st.len() >= tx.base@.st.len()
    &&& ed.len() >= tx.base@.ed.len()
}

/// The log leads from the automaton `s` back to the one it began with.
pub open spec fn tx_ok(tx: SamTx, s: SamSnapshot) -> bool {
    &&& log_ok(tx, s.st, s.ed)
    &&& extends(s.text, tx.base@.text)
    &&& extends(s.text_states, tx.base@.text_states)
    &&& extends(s.boundary_after, tx.base@.boundary_after)
}

pub proof fn lemma_undone_len<T>(s: Seq<T>, log: Seq<(usize, T)>)
    ensures
        undone(s, log).len() == s.len(),
    decreases log.len(),
{
    if log.len() > 0 {
        let (idx, before) = log.last();
        let t = if idx < s.len() {
            s.update(idx as int, before)
        } else {
            s
        };
        lemma_undone_len(t, log.drop_last());
    }
}

/// Logging an entry and then changing it leaves what the log leads back to.
pub proof fn lemma_undone_record<T>(s: Seq<T>, log: Seq<(usize, T)>, idx: usize, x: T)
    requires
        idx < s.len(),
    ensures
        undone(s.update(idx as int, x), log.push((idx, s[idx as int]))) == undone(s, log),
{
    let l2 = log.push((idx, s[idx as int]));
    assert(l2.drop_last() =~= log);
    assert(s.update(idx as int, x).update(idx as int, s[idx as int]) =~= s);
}

/// Entries past the first `n` do not matter for the first `n`.
pub proof fn lemma_undone_agree<T>(a: Seq<T>, b: Seq<T>, log: Seq<(usize, T)>, n: int)
    requires
        0 <= n <= a.len(),
        n <= b.len(),
        forall|i: int| 0 <= i < n ==> a[i] == b[i],
    ensures
        forall|i: int| 0 <= i < n ==> #[trigger] undone(a, log)[i] == undone(b, log)[i],
    decreases log.len(),
{
    if log.len() > 0 {
        let (idx, before) = log.last();
        let a2 = if idx < a.len() {
            a.update(idx as int, before)
        } else {
            a
        };
        let b2 = if idx < b.len() {
            b.update(idx as int, before)
        } else {
            b
        };
        lemma_undone_agree(a2, b2, log.drop_last(), n);
        assert(undone(a, log) == undone(a2, log.drop_last()));
        assert(undone(b, log) == undone(b2, log.drop_last()));
        assert forall|i: int| 0 <= i < n implies #[trigger] undone(a, log)[i] == undone(b, log)[i] by {
            assert(undone(a2, log.drop_last())[i] == undone(b2, log.drop_last())[i]);
        }
    }
}

// ---------------------------------------------------------------------------------------
// Facts about edge lists
// ---------------------------------------------------------------------------------------

proof fn lemma_stop_at_prefix(a: Seq<SamEdge>, b: Seq<SamEdge>, ei: u32, ch: u32)
    requires
        extends(b, a),
        ei < a.len() || ei >= b.len(),
    ensures
        stop_at(a, ei, ch) == stop_at(b, ei, ch),
        stop_at(a, ei, ch) < a.len() || stop_at(a, ei, ch) == SAM_EDGE_NONE,
    decreases ei,
{
    if ei < a.len() && a[ei as int].ch != ch && a[ei as int].next < ei {
        lemma_stop_at_prefix(a, b, a[ei as int].next, ch);
    }
}

proof fn lemma_stop_at(ed: Seq<SamEdge>, ei: u32, ch: u32)
    requires
        ed.len() < u32::MAX,
    ensures
        stop_at(ed, ei, ch) < ed.len() || stop_at(ed, ei, ch) == SAM_EDGE_NONE,
        stop_at(ed, ei, ch) < ed.len() ==> ed[stop_at(ed, ei, ch) as int].ch == ch,
    decreases ei,
{
    if ei < ed.len() && ed[ei as int].ch != ch && ed[ei as int].next < ei {
        lemma_stop_at(ed, ed[ei as int].next, ch);
    }
}

proof fn lemma_stop_at_owner(ed: Seq<SamEdge>, owner: Seq<int>, n: int, ei: u32, ch: u32)
    requires
        owner.len() == ed.len(),
        ed.len() < u32::MAX,
        forall|e: int| 0 <= e < ed.len() ==> #[trigger] edge_ok(n, ed, owner, e),
        ei < ed.len(),
        stop_at(ed, ei, ch) < ed.len(),
    ensures
        owner[stop_at(ed, ei, ch) as int] == owner[ei as int],
    decreases ei,
{
    assert(edge_ok(n, ed, owner, ei as int));
    if ed[ei as int].ch != ch && ed[ei as int].next < ei {
        lemma_stop_at_owner(ed, owner, n, ed[ei as int].next, ch);
    }
}

/// Changing an edge's target leaves the places where searches stop.
proof fn lemma_stop_at_retarget(ed: Seq<SamEdge>, at: int, to: i32, ei: u32, ch: u32)
    requires
        0 <= at < ed.len(),
    ensures
        stop_at(ed.update(at, SamEdge { to, ..ed[at] }), ei, ch) == stop_at(ed, ei, ch),
    decreases ei,
{
    if ei < ed.len() && ed[ei as int].ch != ch && ed[ei as int].next < ei {
        lemma_stop_at_retarget(ed, at, to, ed[ei as int].next, ch);
    }
}

/// Targets are states.
pub proof fn lemma_target_range(
    st: Seq<SamState>,
    ed: Seq<SamEdge>,
    owner: Seq<int>,
    rank: Seq<nat>,
    text_len: int,
    v: int,
    ch: u32,
)
    requires
        graph_wf(st, ed, owner, rank, text_len),
        0 <= v < st.len(),
    ensures
        -1 <= target(st, ed, v, ch) < st.len(),
        target(st, ed, v, ch) != 0,
        target(st, ed, v, ch) == -1 ==> small_target(st[v], ch) == -1 && list_target(
            ed,
            st[v].head,
            ch,
        ) == -1,
{
    assert(state_ok(st, ed, owner, text_len, v));
    lemma_stop_at(ed, st[v].head, ch);
    let e = stop_at(ed, st[v].head, ch);
    if e < ed.len() {
        assert(edge_ok(st.len() as int, ed, owner, e as int));
    }
    let s = st[v];
    assert(s.small_n > 0 ==> s.small_to@[0] > 0);
    assert(s.small_n > 1 ==> s.small_to@[1] > 0);
    assert(s.small_n > 2 ==> s.small_to@[2] > 0);
    assert(s.small_n > 3 ==> s.small_to@[3] > 0);
}

/// Effect of a new overflow edge.
proof fn lemma_push_edge(
    st: Seq<SamState>,
    ed: Seq<SamEdge>,
    owner: Seq<int>,
    rank: Seq<nat>,
    text_len: int,
    v: int,
    ch: u32,
    to: i32,
)
    requires
        graph_wf(st, ed, owner, rank, text_len),
        0 <= v < st.len(),
        0 < to < st.len(),
        target(st, ed, v, ch) == -1,
        ed.len() + 1 < u32::MAX,
    ensures
        ({
            let e2 = ed.push(SamEdge { ch, to, next: st[v].head });
            let s2 = st.update(v, SamState { head: ed.len() as u32, ..st[v] });
            &&& graph_wf(s2, e2, owner.push(v), rank, text_len)
            &&& forall|w: int, x: u32|
                0 <= w < st.len() ==> #[trigger] target(s2, e2, w, x) == if w == v && x == ch {
                    to as int
                } else {
                    target(st, ed, w, x)
                }
        }),
{
    let e2 = ed.push(SamEdge { ch, to, next: st[v].head });
    let s2 = st.update(v, SamState { head: ed.len() as u32, ..st[v] });
    let o2 = owner.push(v);
    let n = st.len() as int;
    lemma_target_range(st, ed, owner, rank, text_len, v, ch);
    assert(extends(e2, ed));
    assert forall|ei: u32, x: u32| ei < ed.len() || ei == SAM_EDGE_NONE implies #[trigger] list_target(
        e2,
        ei,
        x,
    ) == list_target(ed, ei, x) by {
        lemma_stop_at_prefix(ed, e2, ei, x);
    }
    assert(state_ok(st, ed, owner, text_len, v));
    assert forall|x: u32| #[trigger] list_target(e2, ed.len() as u32, x) == if x == ch {
        to as int
    } else {
        list_target(ed, st[v].head, x)
    } by {
        let head = st[v].head;
        if x != ch {
            lemma_stop_at_prefix(ed, e2, head, x);
            if head == SAM_EDGE_NONE {
                assert(stop_at(e2, ed.len() as u32, x) == SAM_EDGE_NONE);
                assert(stop_at(ed, head, x) == SAM_EDGE_NONE);
            } else {
                assert(stop_at(e2, ed.len() as u32, x) == stop_at(e2, head, x));
            }
        }
    }
    assert forall|e: int| 0 <= e < e2.len() implies #[trigger] edge_ok(n, e2, o2, e) by {
        if e < ed.len() {
            assert(edge_ok(n, ed, owner, e));
        }
    }
    assert forall|w: int| 0 <= w < n implies #[trigger] state_ok(s2, e2, o2, text_len, w) by {
        assert(state_ok(st, ed, owner, text_len, w));
        if w == v {
            assert forall|i: int| 0 <= i < s2[w].small_n implies list_target(
                e2,
                s2[w].head,
                #[trigger] s2[w].small_ch@[i],
            ) == -1 by {
                assert(slot_has(st[v], i, s2[w].small_ch@[i]));
                assert(s2[w].small_ch@[i] != ch);
            }
        }
    }
    assert forall|w: int| 0 <= w < n implies #[trigger] link_ok(s2, rank, w) by {
        assert(link_ok(st, rank, w));
    }
    assert forall|w: int, x: u32| 0 <= w < st.len() implies #[trigger] target(s2, e2, w, x) == if w
        == v && x == ch {
        to as int
    } else {
        target(st, ed, w, x)
    } by {
        assert(state_ok(st, ed, owner, text_len, w));
    }
}

/// Effect of a new inline edge.
proof fn lemma_push_small(
    st: Seq<SamState>,
    ed: Seq<SamEdge>,
    owner: Seq<int>,
    rank: Seq<nat>,
    text_len: int,
    v: int,
    ch: u32,
    to: i32,
    s: SamState,
)
    requires
        graph_wf(st, ed, owner, rank, text_len),
        0 <= v < st.len(),
        0 < to < st.len(),
        target(st, ed, v, ch) == -1,
        st[v].small_n < 4,
        s.link == st[v].link && s.len == st[v].len && s.endpos == st[v].endpos && s.head
            == st[v].head && s.small_n == st[v].small_n + 1,
        s.small_ch@ == st[v].small_ch@.update(st[v].small_n as int, ch),
        s.small_to@ == st[v].small_to@.update(st[v].small_n as int, to),
    ensures
        ({
            let s2 = st.update(v, s);
            &&& graph_wf(s2, ed, owner, rank, text_len)
            &&& forall|w: int, x: u32|
                0 <= w < st.len() ==> #[trigger] target(s2, ed, w, x) == if w == v && x == ch {
                    to as int
                } else {
                    target(st, ed, w, x)
                }
        }),
{
    let s2 = st.update(v, s);
    let n = st.len() as int;
    lemma_target_range(st, ed, owner, rank, text_len, v, ch);
    let k = st[v].small_n as int;
    assert(state_ok(st, ed, owner, text_len, v));
    assert(st[v].small_ch@.len() == 4 && st[v].small_to@.len() == 4);
    assert forall|i: int| 0 <= i < k implies st[v].small_ch@[i] != ch by {
        assert(st[v].small_to@[i] >= 0);
        assert(slot_has(st[v], i, st[v].small_ch@[i]));
        if st[v].small_ch@[i] == ch {
            assert(slot_has(st[v], i, ch));
            assert(st[v].small_to@[0] >= 0);
            assert(k > 1 ==> st[v].small_to@[1] >= 0);
            assert(k > 2 ==> st[v].small_to@[2] >= 0);
        }
    }
    assert forall|w: int| 0 <= w < n implies #[trigger] state_ok(s2, ed, owner, text_len, w) by {
        assert(state_ok(st, ed, owner, text_len, w));
        if w == v {
            assert forall|i: int, j: int| 0 <= i < j < s.small_n implies #[trigger] s.small_ch@[i]
                != #[trigger] s.small_ch@[j] by {
                if j < k {
                    assert(st[v].small_ch@[i] != st[v].small_ch@[j]);
                }
            }
            assert forall|i: int| 0 <= i < s.small_n implies list_target(
                ed,
                s.head,
                #[trigger] s.small_ch@[i],
            ) == -1 by {
                if i < k {
                    assert(list_target(ed, st[v].head, st[v].small_ch@[i]) == -1);
                }
            }
            assert forall|i: int| 0 <= i < s.small_n implies 0 < #[trigger] s.small_to@[i]
                < n by {
                if i < k {
                    assert(0 < st[v].small_to@[i] < n);
                }
            }
        }
    }
    assert forall|w: int| 0 <= w < n implies #[trigger] link_ok(s2, rank, w) by {
        assert(link_ok(st, rank, w));
    }
    assert forall|w: int, x: u32| 0 <= w < st.len() implies #[trigger] target(s2, ed, w, x) == if w
        == v && x == ch {
        to as int
    } else {
        target(st, ed, w, x)
    } by {
        if w == v {
            if x == ch {
                assert(slot_has(s, k, ch));
                assert(forall|i: int| 0 <= i < k ==> !slot_has(s, i, ch));
            } else {
                assert(!slot_has(s, k, x));
                assert(forall|i: int|
                    0 <= i < k ==> slot_has(s, i, x) == slot_has(st[v], i, x));
                assert(forall|i: int| k < i < 4 ==> !slot_has(s, i, x) && !slot_has(st[v], i, x));
                assert(!slot_has(st[v], k, x));
                assert(small_target(s, x) == small_target(st[v], x));
            }
        }
    }
}

/// Effect of redirecting an inline edge.
proof fn lemma_replace_small(
    st: Seq<SamState>,
    ed: Seq<SamEdge>,
    owner: Seq<int>,
    rank: Seq<nat>,
    text_len: int,
    v: int,
    k: int,
    to: i32,
    s: SamState,
)
    requires
        graph_wf(st, ed, owner, rank, text_len),
        0 <= v < st.len(),
        0 < to < st.len(),
        0 <= k < st[v].small_n,
        s.link == st[v].link && s.len == st[v].len && s.endpos == st[v].endpos && s.head
            == st[v].head && s.small_n == st[v].small_n && s.small_ch == st[v].small_ch,
        s.small_to@ == st[v].small_to@.update(k, to),
    ensures
        ({
            let s2 = st.update(v, s);
            let ch = st[v].small_ch@[k];
            &&& graph_wf(s2, ed, owner, rank, text_len)
            &&& target(st, ed, v, ch) == st[v].small_to@[k]
            &&& forall|w: int, x: u32|
                0 <= w < st.len() ==> #[trigger] target(s2, ed, w, x) == if w == v && x == ch {
                    to as int
                } else {
                    target(st, ed, w, x)
                }
        }),
{
    let s2 = st.update(v, s);
    let n = st.len() as int;
    let ch = st[v].small_ch@[k];
    assert(state_ok(st, ed, owner, text_len, v));
    assert(st[v].small_ch@.len() == 4 && st[v].small_to@.len() == 4);
    assert forall|i: int| 0 <= i < 4 && slot_has(st[v], i, ch) implies i == k by {
        if i < k {
            assert(st[v].small_ch@[i] != st[v].small_ch@[k]);
        } else if k < i {
            assert(st[v].small_ch@[k] != st[v].small_ch@[i]);
        }
    }
    assert(slot_has(st[v], k, ch));
    assert(0 <= st[v].small_to@[k]);
    assert forall|i: int, x: u32| slot_has(s, i, x) == slot_has(st[v], i, x) by {}
    assert forall|w: int| 0 <= w < n implies #[trigger] state_ok(s2, ed, owner, text_len, w) by {
        assert(state_ok(st, ed, owner, text_len, w));
        if w == v {
            assert forall|i: int| 0 <= i < s.small_n implies 0 < #[trigger] s.small_to@[i]
                < n by {
                assert(0 < st[v].small_to@[i] < n);
            }
        }
    }
    assert forall|w: int| 0 <= w < n implies #[trigger] link_ok(s2, rank, w) by {
        assert(link_ok(st, rank, w));
    }
    assert forall|w: int, x: u32| 0 <= w < st.len() implies #[trigger] target(s2, ed, w, x) == if w
        == v && x == ch {
        to as int
    } else {
        target(st, ed, w, x)
    } by {
        if w == v && x != ch {
            assert(!slot_has(st[v], k, x));
            assert(small_target(s, x) == small_target(st[v], x));
        }
    }
}

/// Effect of redirecting an overflow edge.
proof fn lemma_replace_list(
    st: Seq<SamState>,
    ed: Seq<SamEdge>,
    owner: Seq<int>,
    rank: Seq<nat>,
    text_len: int,
    v: int,
    e: u32,
    to: i32,
)
    requires
        graph_wf(st, ed, owner, rank, text_len),
        0 <= v < st.len(),
        0 < to < st.len(),
        e < ed.len(),
        stop_at(ed, st[v].head, ed[e as int].ch) == e,
        small_target(st[v], ed[e as int].ch) == -1,
    ensures
        ({
            let e2 = ed.update(e as int, SamEdge { to, ..ed[e as int] });
            let ch = ed[e as int].ch;
            &&& graph_wf(st, e2, owner, rank, text_len)
            &&& target(st, ed, v, ch) == ed[e as int].to
            &&& forall|w: int, x: u32|
                0 <= w < st.len() ==> #[trigger] target(st, e2, w, x) == if w == v && x == ch {
                    to as int
                } else {
                    target(st, ed, w, x)
                }
        }),
{
    let e2 = ed.update(e as int, SamEdge { to, ..ed[e as int] });
    let n = st.len() as int;
    let ch = ed[e as int].ch;
    assert(state_ok(st, ed, owner, text_len, v));
    lemma_stop_at_owner(ed, owner, n, st[v].head, ch);
    assert(owner[e as int] == v);
    assert forall|ei: u32, x: u32| #[trigger] stop_at(e2, ei, x) == stop_at(ed, ei, x) by {
        lemma_stop_at_retarget(ed, e as int, to, ei, x);
    }
    assert forall|d: int| 0 <= d < e2.len() implies #[trigger] edge_ok(n, e2, owner, d) by {
        assert(edge_ok(n, ed, owner, d));
        let x = ed[d];
        lemma_stop_at(ed, x.next, x.ch);
        if stop_at(ed, x.next, x.ch) < ed.len() {
            assert(edge_ok(n, ed, owner, stop_at(ed, x.next, x.ch) as int));
        }
    }
    assert forall|w: int| 0 <= w < n implies #[trigger] state_ok(st, e2, owner, text_len, w) by {
        assert(state_ok(st, ed, owner, text_len, w));
        assert forall|i: int| 0 <= i < st[w].small_n implies list_target(
            e2,
            st[w].head,
            #[trigger] st[w].small_ch@[i],
        ) == -1 by {
            let x = st[w].small_ch@[i];
            assert(list_target(ed, st[w].head, x) == -1);
            lemma_stop_at(ed, st[w].head, x);
            if stop_at(ed, st[w].head, x) < ed.len() {
                assert(edge_ok(n, ed, owner, stop_at(ed, st[w].head, x) as int));
            }
        }
    }
    assert forall|w: int, x: u32| 0 <= w < st.len() implies #[trigger] target(st, e2, w, x) == if w
        == v && x == ch {
        to as int
    } else {
        target(st, ed, w, x)
    } by {
        assert(state_ok(st, ed, owner, text_len, w));
        lemma_stop_at(ed, st[w].head, x);
        let d = stop_at(ed, st[w].head, x);
        if d == e {
            assert(x == ch);
            lemma_stop_at_owner(ed, owner, n, st[w].head, x);
            assert(w == v);
        }
    }
}

/// Effect of a new state without overflow edges.
proof fn lemma_push_state(
    st: Seq<SamState>,
    ed: Seq<SamEdge>,
    owner: Seq<int>,
    rank: Seq<nat>,
    text_len: int,
    s: SamState,
    rank2: Seq<nat>,
)
    requires
        graph_wf(st, ed, owner, rank, text_len),
        st.len() + 1 <= i32::MAX,
        rank2.len() == st.len() + 1,
        s.head == SAM_EDGE_NONE,
        s.small_n <= 4,
        0 <= s.len <= text_len,
        -1 <= s.endpos < text_len,
        forall|i: int| 0 <= i < s.small_n ==> 0 < #[trigger] s.small_to@[i] < st.len(),
        forall|i: int, j: int|
            0 <= i < j < s.small_n ==> #[trigger] s.small_ch@[i] != #[trigger] s.small_ch@[j],
        forall|v: int| 0 <= v <= st.len() ==> #[trigger] link_ok(st.push(s), rank2, v),
    ensures
        graph_wf(st.push(s), ed, owner, rank2, text_len),
        forall|w: int, x: u32|
            0 <= w < st.len() ==> #[trigger] target(st.push(s), ed, w, x) == target(st, ed, w, x),
        forall|x: u32|
            #[trigger] target(st.push(s), ed, st.len() as int, x) == small_target(s, x),
{
    let s2 = st.push(s);
    let n = st.len() as int;
    assert forall|x: u32| #[trigger] list_target(ed, SAM_EDGE_NONE, x) == -1 by {
        lemma_stop_at(ed, SAM_EDGE_NONE, x);
    }
    assert forall|e: int| 0 <= e < ed.len() implies #[trigger] edge_ok(n + 1, ed, owner, e) by {
        assert(edge_ok(n, ed, owner, e));
    }
    assert forall|w: int| 0 <= w < n + 1 implies #[trigger] state_ok(
        s2,
        ed,
        owner,
        text_len,
        w,
    ) by {
        if w < n {
            assert(state_ok(st, ed, owner, text_len, w));
        }
    }
}

/// Effect of changing a state's link, length or end position.
pub proof fn lemma_relabel(
    st: Seq<SamState>,
    ed: Seq<SamEdge>,
    owner: Seq<int>,
    rank: Seq<nat>,
    text_len: int,
    v: int,
    s: SamState,
)
    requires
        graph_wf(st, ed, owner, rank, text_len),
        0 <= v < st.len(),
        s.head == st[v].head && s.small_n == st[v].small_n && s.small_ch == st[v].small_ch
            && s.small_to == st[v].small_to,
        0 <= s.len <= text_len,
        -1 <= s.endpos < text_len,
        link_ok(st.update(v, s), rank, v),
    ensures
        graph_wf(st.update(v, s), ed, owner, rank, text_len),
        forall|w: int, x: u32|
            0 <= w < st.len() ==> #[trigger] target(st.update(v, s), ed, w, x) == target(
                st,
                ed,
                w,
                x,
            ),
{
    let s2 = st.update(v, s);
    assert forall|w: int| 0 <= w < st.len() implies #[trigger] state_ok(
        s2,
        ed,
        owner,
        text_len,
        w,
    ) by {
        assert(state_ok(st, ed, owner, text_len, w));
    }
    assert forall|w: int| 0 <= w < st.len() implies #[trigger] link_ok(s2, rank, w) by {
        assert(link_ok(st, rank, w));
    }
}

/// A longer text keeps a graph consistent.
proof fn lemma_longer_text(
    st: Seq<SamState>,
    ed: Seq<SamEdge>,
    owner: Seq<int>,
    rank: Seq<nat>,
    a: int,
    b: int,
)
    requires
        graph_wf(st, ed, owner, rank, a),
        a <= b,
    ensures
        graph_wf(st, ed, owner, rank, b),
{
    assert forall|w: int| 0 <= w < st.len() implies #[trigger] state_ok(st, ed, owner, b, w) by {
        assert(state_ok(st, ed, owner, a, w));
    }
}

// ---------------------------------------------------------------------------------------
// Facts about the size of the table
// ---------------------------------------------------------------------------------------

proof fn lemma_size_prefix(a: Seq<SamEdge>, b: Seq<SamEdge>, ei: u32)
    requires
        extends(b, a),
        b.len() < u32::MAX,
        ei < a.len() || ei == SAM_EDGE_NONE,
    ensures
        list_size(a, ei) == list_size(b, ei),
    decreases ei,
{
    if ei < a.len() && a[ei as int].next < ei {
        assert(b[ei as int] == a[ei as int]);
        lemma_size_prefix(a, b, a[ei as int].next);
    }
}

proof fn lemma_size_retarget(ed: Seq<SamEdge>, at: int, to: i32, ei: u32)
    requires
        0 <= at < ed.len(),
    ensures
        list_size(ed.update(at, SamEdge { to, ..ed[at] }), ei) == list_size(ed, ei),
    decreases ei,
{
    if ei < ed.len() && ed[ei as int].next < ei {
        lemma_size_retarget(ed, at, to, ed[ei as int].next);
    }
}

proof fn lemma_needed_change(states: Seq<StateModel>, v: int, x: StateModel)
    requires
        0 <= v < states.len(),
    ensures
        edges_needed(states.update(v, x)) + edge_excess(states[v]) == edges_needed(states)
            + edge_excess(x),
    decreases states.len(),
{
    let t = states.update(v, x);
    if v == states.len() - 1 {
        assert(t.drop_last() =~= states.drop_last());
    } else {
        assert(t.drop_last() =~= states.drop_last().update(v, x));
        lemma_needed_change(states.drop_last(), v, x);
    }
}

proof fn lemma_needed_append(states: Seq<StateModel>, x: StateModel)
    ensures
        edges_needed(states.push(x)) == edges_needed(states) + edge_excess(x),
{
    assert(states.push(x).drop_last() =~= states);
}

/// Every label of `a` is one of `b`.
pub open spec fn labels_within(a: StateModel, b: StateModel) -> bool {
    b.edges.dom().finite() && a.edges.dom().subset_of(b.edges.dom())
}

/// More states with more labels take no less of the table.
pub proof fn lemma_needed_more(a: Seq<StateModel>, b: Seq<StateModel>)
    requires
        a.len() <= b.len(),
        forall|v: int| 0 <= v < a.len() ==> #[trigger] labels_within(a[v], b[v]),
    ensures
        edges_needed(a) <= edges_needed(b),
    decreases b.len(),
{
    if b.len() > a.len() {
        assert forall|v: int| 0 <= v < a.len() implies #[trigger] labels_within(
            a[v],
            b.drop_last()[v],
        ) by {
            assert(labels_within(a[v], b[v]));
        }
        lemma_needed_more(a, b.drop_last());
    } else if a.len() > 0 {
        let n = a.len() - 1;
        assert(labels_within(a[n], b[n]));
        vstd::set_lib::lemma_len_subset(a[n].edges.dom(), b[n].edges.dom());
        assert forall|v: int| 0 <= v < n implies #[trigger] labels_within(
            a.drop_last()[v],
            b.drop_last()[v],
        ) by {
            assert(labels_within(a[v], b[v]));
        }
        lemma_needed_more(a.drop_last(), b.drop_last());
    }
}

/// States whose labels, slots and list sizes are the same take the same part of the table.
pub proof fn lemma_table_kept(
    st: Seq<SamState>,
    ed: Seq<SamEdge>,
    s2: Seq<SamState>,
    e2: Seq<SamEdge>,
)
    requires
        table_ok(st, ed),
        s2.len() == st.len(),
        e2.len() == ed.len(),
        forall|v: int|
            #![trigger s2[v]]
            0 <= v < st.len() ==> s2[v].small_n == st[v].small_n && s2[v].head == st[v].head
                && list_size(e2, s2[v].head) == list_size(ed, st[v].head),
        forall|v: int, x: u32|
            0 <= v < st.len() ==> (#[trigger] target(s2, e2, v, x) == -1) == (target(st, ed, v, x)
                == -1),
    ensures
        table_ok(s2, e2),
{
    let a = states_model(st, ed);
    let b = states_model(s2, e2);
    assert forall|v: int| 0 <= v < st.len() implies #[trigger] sized(s2, e2, v) && b[v].edges.dom()
        == a[v].edges.dom() by {
        assert(sized(st, ed, v));
        assert(s2[v].head == st[v].head);
        assert(b[v].edges.dom() =~= a[v].edges.dom());
    }
    assert forall|v: int| 0 <= v < a.len() implies #[trigger] labels_within(a[v], b[v]) by {
        assert(sized(s2, e2, v));
    }
    assert forall|v: int| 0 <= v < a.len() implies #[trigger] labels_within(b[v], a[v]) by {
        assert(sized(s2, e2, v));
        assert(sized(st, ed, v));
    }
    lemma_needed_more(a, b);
    lemma_needed_more(b, a);
}

/// A new overflow edge takes one entry.
proof fn lemma_table_push_edge(
    st: Seq<SamState>,
    ed: Seq<SamEdge>,
    owner: Seq<int>,
    rank: Seq<nat>,
    text_len: int,
    v: int,
    ch: u32,
    to: i32,
)
    requires
        graph_wf(st, ed, owner, rank, text_len),
        table_ok(st, ed),
        0 <= v < st.len(),
        0 < to < st.len(),
        target(st, ed, v, ch) == -1,
        ed.len() + 1 < u32::MAX,
        st[v].small_n == 4,
    ensures
        ({
            let e2 = ed.push(SamEdge { ch, to, next: st[v].head });
            let s2 = st.update(v, SamState { head: ed.len() as u32, ..st[v] });
            table_ok(s2, e2)
        }),
{
    let e2 = ed.push(SamEdge { ch, to, next: st[v].head });
    let s2 = st.update(v, SamState { head: ed.len() as u32, ..st[v] });
    let a = states_model(st, ed);
    let b = states_model(s2, e2);
    lemma_push_edge(st, ed, owner, rank, text_len, v, ch, to);
    assert(sized(st, ed, v));
    assert(state_ok(st, ed, owner, text_len, v));
    assert(extends(e2, ed));
    assert(b[v].edges.dom() =~= a[v].edges.dom().insert(ch));
    lemma_size_prefix(ed, e2, st[v].head);
    assert(e2[ed.len() as int].next == st[v].head);
    assert(list_size(e2, ed.len() as u32) == list_size(ed, st[v].head) + 1) by {
        if st[v].head == SAM_EDGE_NONE {
            assert(list_size(ed, st[v].head) == 0);
        }
    }
    assert forall|w: int| 0 <= w < st.len() implies #[trigger] sized(s2, e2, w) by {
        assert(sized(st, ed, w));
        assert(state_ok(st, ed, owner, text_len, w));
        if w != v {
            lemma_size_prefix(ed, e2, st[w].head);
            assert(b[w].edges.dom() =~= a[w].edges.dom());
        }
    }
    let c = a.update(v, b[v]);
    lemma_needed_change(a, v, b[v]);
    lemma_same_labels_needed(b, c);
}

proof fn lemma_same_labels_needed(a: Seq<StateModel>, b: Seq<StateModel>)
    requires
        a.len() == b.len(),
        forall|v: int|
            #![trigger a[v]]
            0 <= v < a.len() ==> a[v].edges.dom() =~= b[v].edges.dom(),
    ensures
        edges_needed(a) == edges_needed(b),
    decreases a.len(),
{
    if a.len() > 0 {
        let n = a.len() - 1;
        assert(a[n].edges.dom() =~= b[n].edges.dom());
        assert forall|v: int| #![trigger a.drop_last()[v]] 0 <= v < n implies a.drop_last()[v].edges.dom()
            =~= b.drop_last()[v].edges.dom() by {
            assert(a[v].edges.dom() =~= b[v].edges.dom());
        }
        lemma_same_labels_needed(a.drop_last(), b.drop_last());
    }
}

/// A new inline edge takes no entry.
proof fn lemma_table_push_small(
    st: Seq<SamState>,
    ed: Seq<SamEdge>,
    v: int,
    ch: u32,
    to: int,
    s: SamState,
)
    requires
        table_ok(st, ed),
        ed.len() < u32::MAX,
        0 <= v < st.len(),
        to != -1,
        target(st, ed, v, ch) == -1,
        st[v].small_n < 4,
        s.head == st[v].head,
        s.small_n == st[v].small_n + 1,
        forall|w: int, x: u32|
            0 <= w < st.len() ==> #[trigger] target(st.update(v, s), ed, w, x) == if w == v && x
                == ch {
                to
            } else {
                target(st, ed, w, x)
            },
    ensures
        table_ok(st.update(v, s), ed),
{
    let s2 = st.update(v, s);
    let a = states_model(st, ed);
    let b = states_model(s2, ed);
    assert(sized(st, ed, v));
    assert(b[v].edges.dom() =~= a[v].edges.dom().insert(ch));
    assert(list_size(ed, SAM_EDGE_NONE) == 0);
    assert forall|w: int| 0 <= w < st.len() implies #[trigger] sized(s2, ed, w) by {
        assert(sized(st, ed, w));
        if w != v {
            assert(b[w].edges.dom() =~= a[w].edges.dom());
        }
    }
    let c = a.update(v, b[v]);
    lemma_needed_change(a, v, b[v]);
    assert forall|w: int| #![trigger b[w]] 0 <= w < b.len() implies b[w].edges.dom()
        =~= c[w].edges.dom() by {}
    lemma_same_labels_needed(b, c);
}

/// Inline labels are as many as the slots in use.
proof fn lemma_small_labels(s: SamState, dom: Set<u32>)
    requires
        s.small_n == 4,
        s.small_ch@.len() == 4,
        forall|i: int| 0 <= i < 4 ==> #[trigger] s.small_to@[i] > 0,
        forall|i: int, j: int|
            0 <= i < j < 4 ==> #[trigger] s.small_ch@[i] != #[trigger] s.small_ch@[j],
        forall|x: u32| #[trigger] dom.contains(x) <==> small_target(s, x) != -1,
    ensures
        dom.finite(),
        dom.len() == 4,
{
    let c0 = s.small_ch@[0];
    let c1 = s.small_ch@[1];
    let c2 = s.small_ch@[2];
    let c3 = s.small_ch@[3];
    let four = Set::<u32>::empty().insert(c0).insert(c1).insert(c2).insert(c3);
    assert(s.small_to@[0] > 0 && s.small_to@[1] > 0 && s.small_to@[2] > 0 && s.small_to@[3] > 0);
    assert(c0 != c1 && c0 != c2 && c0 != c3 && c1 != c2 && c1 != c3 && c2 != c3);
    assert forall|x: u32| dom.contains(x) <==> #[trigger] four.contains(x) by {}
    assert(dom =~= four);
}

/// A new state without overflow edges takes no entry.
proof fn lemma_table_push_state(st: Seq<SamState>, ed: Seq<SamEdge>, s: SamState)
    requires
        table_ok(st, ed),
        s.head == SAM_EDGE_NONE,
        forall|w: int, x: u32|
            0 <= w < st.len() ==> #[trigger] target(st.push(s), ed, w, x) == target(st, ed, w, x),
        state_model(st.push(s), ed, st.len() as int).edges.dom().finite(),
        state_model(st.push(s), ed, st.len() as int).edges.dom().len() == s.small_n,
        s.small_n <= 4,
        ed.len() < u32::MAX,
    ensures
        table_ok(st.push(s), ed),
{
    let s2 = st.push(s);
    let a = states_model(st, ed);
    let b = states_model(s2, ed);
    assert(list_size(ed, SAM_EDGE_NONE) == 0);
    assert forall|w: int| 0 <= w < s2.len() implies #[trigger] sized(s2, ed, w) by {
        if w < st.len() {
            assert(sized(st, ed, w));
            assert(b[w].edges.dom() =~= a[w].edges.dom());
        }
    }
    let c = a.push(b[st.len() as int]);
    lemma_needed_append(a, b[st.len() as int]);
    assert forall|w: int| #![trigger b[w]] 0 <= w < b.len() implies b[w].edges.dom()
        =~= c[w].edges.dom() by {}
    lemma_same_labels_needed(b, c);
}

/// Every state has finitely many labels.
pub open spec fn finite_labels(states: Seq<StateModel>) -> bool {
    forall|v: int| 0 <= v < states.len() ==> (#[trigger] states[v]).edges.dom().finite()
}

pub proof fn lemma_finite_labels(st: Seq<SamState>, ed: Seq<SamEdge>)
    requires
        table_ok(st, ed),
    ensures
        finite_labels(states_model(st, ed)),
{
    assert forall|v: int| 0 <= v < st.len() implies (#[trigger] states_model(
        st,
        ed,
    )[v]).edges.dom().finite() by {
        assert(sized(st, ed, v));
    }
}

/// What a symbol adds stays within what the automaton after it holds.
proof fn lemma_linked_more(states: Seq<StateModel>, g: int, ch: u32, at: int, j: int)
    requires
        finite_labels(states),
        0 <= g < states.len(),
        forall|i: int|
            0 <= i < path_of(states, g).len() ==> 0 <= #[trigger] path_of(states, g)[i]
                < states.len(),
        0 <= j <= first_with_edge(states, path_of(states, g), ch, 0) <= path_of(states, g).len(),
        ({
            let path = path_of(states, g);
            let k = first_with_edge(states, path, ch, 0);
            k < path.len() ==> 0 <= states[path[k]].edges[ch] < states.len() && k <= first_elsewhere(
                states,
                path,
                ch,
                states[path[k]].edges[ch],
                k,
            ) <= path.len()
        }),
    ensures
        ({
            let path = path_of(states, g);
            let fresh = StateModel {
                link: 0,
                len: states[g].len + 1,
                endpos: at,
                edges: Map::empty(),
            };
            let some = with_edges(states.push(fresh), path.subrange(0, j), ch, states.len() as int);
            let all = linked_states(states, g, ch, at);
            let k = first_with_edge(states, path, ch, 0);
            &&& finite_labels(all)
            &&& edges_needed(some) <= edges_needed(all)
            &&& edges_needed(states) <= edges_needed(all)
            &&& states.len() < all.len()
            &&& k < path.len() && states[path[k]].len + 1 != states[states[path[k]].edges[ch]].len
                ==> {
                let joined = with_edges(
                    states.push(fresh),
                    path.subrange(0, k),
                    ch,
                    states.len() as int,
                );
                let q = states[path[k]].edges[ch];
                &&& edges_needed(
                    joined.push(StateModel { len: states[path[k]].len + 1, ..joined[q] }),
                ) <= edges_needed(all)
                &&& all.len() == states.len() + 2
            }
        }),
{
    let path = path_of(states, g);
    let k = first_with_edge(states, path, ch, 0);
    let n = states.len() as int;
    let fresh = StateModel { link: 0, len: states[g].len + 1, endpos: at, edges: Map::empty() };
    let some = with_edges(states.push(fresh), path.subrange(0, j), ch, n);
    let joined = with_edges(states.push(fresh), path.subrange(0, k), ch, n);
    let all = linked_states(states, g, ch, at);
    assert(Map::<u32, int>::empty().dom() =~= Set::empty());
    assert(finite_labels(joined)) by {
        assert forall|v: int| 0 <= v < joined.len() implies (#[trigger] joined[v]).edges.dom().finite() by {
            if v < n {
                assert(states[v].edges.dom().finite());
                assert(states.push(fresh)[v] == states[v]);
                assert(states[v].edges.insert(ch, n).dom() =~= states[v].edges.dom().insert(ch));
            } else {
                assert(states.push(fresh)[v] == fresh);
                assert(fresh.edges.insert(ch, n).dom() =~= fresh.edges.dom().insert(ch));
            }
        }
    }
    if k < path.len() {
        let p = path[k];
        let q = states[p].edges[ch];
        if states[p].len + 1 != states[q].len {
            let split = StateModel { len: states[p].len + 1, ..joined[q] };
            let end = first_elsewhere(states, path, ch, q, k);
            let grown = joined.push(split);
            let moved = with_edges(grown, path.subrange(k, end), ch, n + 1);
            assert(joined[q].edges.dom().finite());
            assert forall|v: int| 0 <= v < grown.len() implies #[trigger] labels_within(
                grown[v],
                moved[v],
            ) && moved[v].edges.dom().finite() by {
                if v < joined.len() {
                    assert(joined[v].edges.dom().finite());
                }
                assert(grown[v].edges.insert(ch, n + 1).dom() =~= grown[v].edges.dom().insert(ch));
            }
            assert forall|v: int| 0 <= v < all.len() implies #[trigger] all[v].edges
                == moved[v].edges by {}
            assert forall|v: int| 0 <= v < grown.len() implies #[trigger] labels_within(
                grown[v],
                all[v],
            ) by {
                assert(labels_within(grown[v], moved[v]));
                assert(all[v].edges == moved[v].edges);
            }
            lemma_needed_more(grown, all);
            assert(finite_labels(all)) by {
                assert forall|v: int| 0 <= v < all.len() implies (#[trigger] all[v]).edges.dom().finite() by {
                    assert(labels_within(grown[v], all[v]));
                }
            }
            assert forall|v: int| 0 <= v < joined.len() implies #[trigger] labels_within(
                joined[v],
                all[v],
            ) by {
                assert(labels_within(grown[v], all[v]));
            }
        } else {
            assert forall|v: int| 0 <= v < joined.len() implies #[trigger] labels_within(
                joined[v],
                all[v],
            ) by {
                assert(joined[v].edges.dom().finite());
            }
            assert(finite_labels(all)) by {
                assert forall|v: int| 0 <= v < all.len() implies (#[trigger] all[v]).edges.dom().finite() by {
                    assert(joined[v].edges.dom().finite());
                }
            }
        }
    } else {
        assert forall|v: int| 0 <= v < joined.len() implies #[trigger] labels_within(
            joined[v],
            all[v],
        ) by {
            assert(joined[v].edges.dom().finite());
        }
    }
    assert forall|v: int| 0 <= v < some.len() implies #[trigger] labels_within(
        some[v],
        all[v],
    ) by {
        assert(labels_within(joined[v], all[v]));
        if path.subrange(0, j).contains(v) {
            let i = choose|i: int| 0 <= i < j && path.subrange(0, j)[i] == v;
            assert(path.subrange(0, k)[i] == v);
        }
        assert(some[v].edges.dom().subset_of(joined[v].edges.dom()));
    }
    lemma_needed_more(some, all);
    assert forall|v: int| 0 <= v < n implies #[trigger] labels_within(states[v], all[v]) by {
        assert(labels_within(joined[v], all[v]));
        assert(states.push(fresh)[v] == states[v]);
    }
    lemma_needed_more(states, all);
}

// ---------------------------------------------------------------------------------------
// Facts about suffix paths
// ---------------------------------------------------------------------------------------

/// Links of `states` are those of a consistent graph.
pub open spec fn links_ranked(states: Seq<StateModel>, rank: Seq<nat>) -> bool {
    &&& rank.len() == states.len()
    &&& states.len() > 0
    &&& forall|v: int|
        0 <= v < states.len() ==> {
            &&& (#[trigger] rank[v]) < states.len()
            &&& if v == 0 {
                states[v].link == -1
            } else {
                0 <= states[v].link < states.len() && rank[states[v].link] < rank[v]
            }
        }
}

pub proof fn lemma_graph_links(
    st: Seq<SamState>,
    ed: Seq<SamEdge>,
    owner: Seq<int>,
    rank: Seq<nat>,
    text_len: int,
)
    requires
        graph_wf(st, ed, owner, rank, text_len),
    ensures
        links_ranked(states_model(st, ed), rank),
{
    let states = states_model(st, ed);
    assert forall|v: int| 0 <= v < states.len() implies {
        &&& (#[trigger] rank[v]) < states.len()
        &&& if v == 0 {
            states[v].link == -1
        } else {
            0 <= states[v].link < states.len() && rank[states[v].link] < rank[v]
        }
    } by {
        assert(link_ok(st, rank, v));
    }
}

/// With more fuel than its rank a state's path is complete.
proof fn lemma_path_fuel(states: Seq<StateModel>, rank: Seq<nat>, p: int, f: nat, g: nat)
    requires
        links_ranked(states, rank),
        -1 <= p < states.len(),
        p >= 0 ==> rank[p] < f && rank[p] < g,
    ensures
        suffix_path(states, p, f) == suffix_path(states, p, g),
    decreases f,
{
    if p >= 0 {
        lemma_path_fuel(states, rank, states[p].link, (f - 1) as nat, (g - 1) as nat);
    }
}

/// A path is its first state followed by the path of that state's link.
pub proof fn lemma_path_step(states: Seq<StateModel>, rank: Seq<nat>, p: int)
    requires
        links_ranked(states, rank),
        0 <= p < states.len(),
    ensures
        path_of(states, p) == seq![p] + path_of(states, states[p].link),
        -1 <= states[p].link < states.len(),
{
    assert(rank[p] < states.len());
    lemma_path_fuel(
        states,
        rank,
        states[p].link,
        (states.len() - 1) as nat,
        states.len(),
    );
}

/// States on a path are valid and their ranks decrease; a nonempty path ends at the root.
pub proof fn lemma_path_ranks(states: Seq<StateModel>, rank: Seq<nat>, p: int)
    requires
        links_ranked(states, rank),
        -1 <= p < states.len(),
    ensures
        forall|i: int|
            0 <= i < path_of(states, p).len() ==> 0 <= #[trigger] path_of(states, p)[i]
                < states.len(),
        forall|i: int, j: int|
            0 <= i < j < path_of(states, p).len() ==> rank[#[trigger] path_of(states, p)[j]]
                < rank[#[trigger] path_of(states, p)[i]],
        p >= 0 ==> path_of(states, p).len() > 0 && path_of(states, p)[0] == p && path_of(
            states,
            p,
        ).last() == 0,
        p < 0 ==> path_of(states, p).len() == 0,
    decreases
        if p < 0 {
            0
        } else {
            rank[p] + 1
        },
{
    if p >= 0 {
        let link = states[p].link;
        lemma_path_step(states, rank, p);
        assert(rank[p] < states.len());
        lemma_path_ranks(states, rank, link);
        let a = path_of(states, p);
        let b = path_of(states, link);
        assert(a.len() == b.len() + 1);
        assert forall|i: int| 0 < i < a.len() implies #[trigger] a[i] == b[i - 1] by {}
        if link >= 0 {
            assert(a.last() == b.last());
        } else {
            assert(p == 0);
        }
    }
}

/// The tail of a path from index `i` on is the path of its state there.
pub proof fn lemma_path_tail(states: Seq<StateModel>, rank: Seq<nat>, p: int, i: int)
    requires
        links_ranked(states, rank),
        0 <= p < states.len(),
        0 <= i < path_of(states, p).len(),
    ensures
        0 <= path_of(states, p)[i] < states.len(),
        path_of(states, p).subrange(i, path_of(states, p).len() as int) == path_of(
            states,
            path_of(states, p)[i],
        ),
    decreases i,
{
    let path = path_of(states, p);
    lemma_path_step(states, rank, p);
    let link = states[p].link;
    let rest = path_of(states, link);
    if i == 0 {
        assert(path.subrange(0, path.len() as int) =~= path);
    } else {
        assert(link >= 0);
        lemma_path_tail(states, rank, link, i - 1);
        assert(path[i] == rest[i - 1]);
        assert(path.subrange(i, path.len() as int) =~= rest.subrange(i - 1, rest.len() as int));
    }
}

/// The link of a state on a path is the next state of the path, or none at its end.
pub proof fn lemma_path_next(states: Seq<StateModel>, rank: Seq<nat>, p: int, i: int)
    requires
        links_ranked(states, rank),
        0 <= p < states.len(),
        0 <= i < path_of(states, p).len(),
    ensures
        0 <= path_of(states, p)[i] < states.len(),
        states[path_of(states, p)[i]].link == if i + 1 < path_of(states, p).len() {
            path_of(states, p)[i + 1]
        } else {
            -1
        },
{
    let path = path_of(states, p);
    let v = path[i];
    lemma_path_tail(states, rank, p, i);
    lemma_path_step(states, rank, v);
    let link = states[v].link;
    let tail = path.subrange(i, path.len() as int);
    assert(tail == seq![v] + path_of(states, link));
    if link >= 0 {
        lemma_path_step(states, rank, link);
        assert(tail[1] == link);
        assert(path[i + 1] == link);
    } else {
        assert(path_of(states, link).len() == 0);
        assert(tail.len() == 1);
        assert(rank[v] < states.len());
    }
}

/// Paths depend on links only.
pub proof fn lemma_path_same_links(a: Seq<StateModel>, b: Seq<StateModel>, p: int, fuel: nat)
    requires
        a.len() == b.len(),
        forall|v: int| 0 <= v < a.len() ==> (#[trigger] a[v]).link == b[v].link,
    ensures
        suffix_path(a, p, fuel) == suffix_path(b, p, fuel),
    decreases fuel,
{
    if fuel > 0 && 0 <= p < a.len() {
        assert(a[p].link == b[p].link);
        lemma_path_same_links(a, b, a[p].link, (fuel - 1) as nat);
    }
}

proof fn lemma_first_with_edge(states: Seq<StateModel>, path: Seq<int>, ch: u32, from: int, k: int)
    requires
        0 <= from <= k <= path.len(),
        forall|i: int| from <= i < k ==> !states[#[trigger] path[i]].edges.contains_key(ch),
        k < path.len() ==> states[path[k]].edges.contains_key(ch),
    ensures
        first_with_edge(states, path, ch, from) == k,
    decreases k - from,
{
    if from < k {
        assert(!states[path[from]].edges.contains_key(ch));
        lemma_first_with_edge(states, path, ch, from + 1, k);
    }
}

proof fn lemma_first_elsewhere(
    states: Seq<StateModel>,
    path: Seq<int>,
    ch: u32,
    q: int,
    from: int,
    k: int,
)
    requires
        0 <= from <= k <= path.len(),
        forall|i: int|
            from <= i < k ==> states[#[trigger] path[i]].edges.contains_key(ch)
                && states[path[i]].edges[ch] == q,
        k < path.len() ==> !(states[path[k]].edges.contains_key(ch) && states[path[k]].edges[ch]
            == q),
    ensures
        first_elsewhere(states, path, ch, q, from) == k,
    decreases k - from,
{
    if from < k {
        assert(states[path[from]].edges.contains_key(ch));
        lemma_first_elsewhere(states, path, ch, q, from + 1, k);
    }
}

proof fn lemma_path_len(states: Seq<StateModel>, p: int, fuel: nat)
    ensures
        suffix_path(states, p, fuel).len() <= fuel,
    decreases fuel,
{
    if fuel > 0 && 0 <= p < states.len() {
        lemma_path_len(states, states[p].link, (fuel - 1) as nat);
    }
}

/// States of a path are pairwise different.
pub proof fn lemma_path_distinct(states: Seq<StateModel>, rank: Seq<nat>, p: int, a: int, b: int)
    requires
        links_ranked(states, rank),
        0 <= p < states.len(),
        0 <= a <= b < path_of(states, p).len(),
    ensures
        !path_of(states, p).subrange(a, b).contains(path_of(states, p)[b]),
{
    let path = path_of(states, p);
    lemma_path_ranks(states, rank, p);
    let part = path.subrange(a, b);
    if part.contains(path[b]) {
        let i = choose|i: int| 0 <= i < part.len() && part[i] == path[b];
        assert(path[a + i] == path[b]);
        assert(rank[path[b]] < rank[path[a + i]]);
    }
}

// ---------------------------------------------------------------------------------------
// Edits
// ---------------------------------------------------------------------------------------

/// Everything but the graph is the same.
pub open spec fn same_text(a: SamSnapshot, b: SamSnapshot) -> bool {
    &&& a.last == b.last
    &&& a.text == b.text
    &&& a.text_states == b.text_states
    &&& a.boundary_after == b.boundary_after
}

/// The graph and its root cache are consistent.
pub open spec fn graph_ok(s: SamSnapshot) -> bool {
    &&& graph_wf(s.st, s.ed, s.owner, s.rank, s.text.len() as int)
    &&& table_ok(s.st, s.ed)
    &&& root_cache_ok(s.st, s.ed, s.root_to)
}

/// Links, lengths and end positions are the same.
pub open spec fn same_labels(a: Seq<SamState>, b: Seq<SamState>) -> bool {
    &&& a.len() == b.len()
    &&& forall|w: int|
        0 <= w < a.len() ==> (#[trigger] a[w]).link == b[w].link && a[w].len == b[w].len
            && a[w].endpos == b[w].endpos
}

/// `b` is `a` with the edge `ch` of state `v` leading to `to`.
pub open spec fn edited(a: SamSnapshot, b: SamSnapshot, v: int, ch: u32, to: int) -> bool {
    &&& same_text(a, b)
    &&& same_labels(a.st, b.st)
    &&& a.rank == b.rank
    &&& forall|w: int, x: u32|
        0 <= w < a.st.len() ==> #[trigger] target(b.st, b.ed, w, x) == if w == v && x == ch {
            to
        } else {
            target(a.st, a.ed, w, x)
        }
}

proof fn lemma_model_edit(a: SamSnapshot, b: SamSnapshot, v: int, ch: u32, to: int)
    requires
        edited(a, b, v, ch, to),
        0 <= v < a.st.len(),
        to != -1,
    ensures
        ({
            let m = states_model(a.st, a.ed);
            states_model(b.st, b.ed) == m.update(
                v,
                StateModel { edges: m[v].edges.insert(ch, to), ..m[v] },
            )
        }),
{
    let m = states_model(a.st, a.ed);
    let m2 = states_model(b.st, b.ed);
    let goal = m.update(v, StateModel { edges: m[v].edges.insert(ch, to), ..m[v] });
    assert forall|w: int| 0 <= w < m.len() implies m2[w] == goal[w] by {
        assert(a.st[w].link == b.st[w].link);
        assert(m2[w].edges =~= goal[w].edges) by {
            assert forall|x: u32| true implies m2[w].edges.contains_key(x) == goal[w].edges.contains_key(x)
                && (m2[w].edges.contains_key(x) ==> m2[w].edges[x] == goal[w].edges[x]) by {
                let t2 = target(b.st, b.ed, w, x);
                let t = target(a.st, a.ed, w, x);
                assert(t2 == if w == v && x == ch { to } else { t });
            }
        }
    }
    assert(m2 =~= goal);
}

proof fn lemma_with_edges_step(states: Seq<StateModel>, vs: Seq<int>, v: int, ch: u32, to: int)
    requires
        0 <= v < states.len(),
        !vs.contains(v),
    ensures
        ({
            let m = with_edges(states, vs, ch, to);
            with_edges(states, vs.push(v), ch, to) == m.update(
                v,
                StateModel { edges: m[v].edges.insert(ch, to), ..m[v] },
            )
        }),
{
    let m = with_edges(states, vs, ch, to);
    let m2 = with_edges(states, vs.push(v), ch, to);
    let goal = m.update(v, StateModel { edges: m[v].edges.insert(ch, to), ..m[v] });
    assert forall|w: int| 0 <= w < m.len() implies m2[w] == goal[w] by {
        assert(vs.push(v)[vs.len() as int] == v);
        if w != v {
            if vs.contains(w) {
                let i = choose|i: int| 0 <= i < vs.len() && vs[i] == w;
                assert(vs.push(v)[i] == w);
            } else if vs.push(v).contains(w) {
                let i = choose|i: int| 0 <= i < vs.push(v).len() && vs.push(v)[i] == w;
                assert(vs[i] == w);
            }
        }
    }
    assert(m2 =~= goal);
}

proof fn lemma_root_cache_edit(a: SamSnapshot, b: SamSnapshot, v: int, ch: u32, to: i32)
    requires
        root_cache_ok(a.st, a.ed, a.root_to),
        edited(a, b, v, ch, to as int),
        a.st.len() > 0,
        b.root_to == if v == 0 && ch < 256 {
            a.root_to.update(ch as int, to)
        } else {
            a.root_to
        },
    ensures
        root_cache_ok(b.st, b.ed, b.root_to),
{
    assert forall|c: u32| c < 256 implies #[trigger] b.root_to[c as int] as int == target(
        b.st,
        b.ed,
        0,
        c,
    ) by {
        assert(a.root_to[c as int] as int == target(a.st, a.ed, 0, c));
    }
}

/// Two logs that began together.
pub open spec fn same_base(a: SamTx, b: SamTx) -> bool {
    &&& a.old_last == b.old_last
    &&& a.old_text_len == b.old_text_len
    &&& a.old_text_states_len == b.old_text_states_len
    &&& a.old_boundary_len == b.old_boundary_len
    &&& a.old_st_len == b.old_st_len
    &&& a.old_ed_len == b.old_ed_len
    &&& a.base@ == b.base@
}

proof fn lemma_log_state(
    t1: SamTx,
    t2: SamTx,
    st: Seq<SamState>,
    ed: Seq<SamEdge>,
    v: usize,
    s: SamState,
)
    requires
        log_ok(t1, st, ed),
        same_base(t1, t2),
        v < st.len(),
        t2.st_changes@ == t1.st_changes@.push((v, st[v as int])),
        t2.ed_changes@ == t1.ed_changes@,
    ensures
        log_ok(t2, st.update(v as int, s), ed),
{
    lemma_undone_record(st, t1.st_changes@, v, s);
}

proof fn lemma_log_edge(
    t1: SamTx,
    t2: SamTx,
    st: Seq<SamState>,
    ed: Seq<SamEdge>,
    e: usize,
    x: SamEdge,
)
    requires
        log_ok(t1, st, ed),
        same_base(t1, t2),
        e < ed.len(),
        t2.ed_changes@ == t1.ed_changes@.push((e, ed[e as int])),
        t2.st_changes@ == t1.st_changes@,
    ensures
        log_ok(t2, st, ed.update(e as int, x)),
{
    lemma_undone_record(ed, t1.ed_changes@, e, x);
}

proof fn lemma_log_push_state(tx: SamTx, st: Seq<SamState>, ed: Seq<SamEdge>, s: SamState)
    requires
        log_ok(tx, st, ed),
    ensures
        log_ok(tx, st.push(s), ed),
{
    lemma_undone_len(st, tx.st_changes@);
    lemma_undone_len(st.push(s), tx.st_changes@);
    lemma_undone_agree(st.push(s), st, tx.st_changes@, st.len() as int);
}

proof fn lemma_log_push_edge(tx: SamTx, st: Seq<SamState>, ed: Seq<SamEdge>, x: SamEdge)
    requires
        log_ok(tx, st, ed),
    ensures
        log_ok(tx, st, ed.push(x)),
{
    lemma_undone_len(ed, tx.ed_changes@);
    lemma_undone_len(ed.push(x), tx.ed_changes@);
    lemma_undone_agree(ed.push(x), ed, tx.ed_changes@, ed.len() as int);
}

proof fn lemma_log_new_state(tx: SamTx, st: Seq<SamState>, ed: Seq<SamEdge>, v: int, s: SamState)
    requires
        log_ok(tx, st, ed),
        tx.base@.st.len() <= v < st.len(),
    ensures
        log_ok(tx, st.update(v, s), ed),
{
    lemma_undone_len(st, tx.st_changes@);
    lemma_undone_len(st.update(v, s), tx.st_changes@);
    lemma_undone_agree(st.update(v, s), st, tx.st_changes@, tx.base@.st.len() as int);
}

fn blank_state(len: i32, endpos: i32) -> (s: SamState)
    ensures
        s.link == 0 && s.len == len && s.endpos == endpos && s.head == SAM_EDGE_NONE && s.small_n
            == 0,
{
    SamState {
        link: 0,
        len,
        endpos,
        head: SAM_EDGE_NONE,
        small_ch: [0, 0, 0, 0],
        small_to: [0, 0, 0, 0],
        small_n: 0,
    }
}

impl Sam {
    /// Everything the automaton holds.
    pub open spec fn snap(&self) -> SamSnapshot {
        SamSnapshot {
            st: self.st@,
            ed: self.ed@,
            last: self.last,
            root_to: self.root_to@,
            text: self.text@,
            text_states: self.text_states@,
            boundary_after: self.boundary_after@,
            owner: self.owner@,
            rank: self.rank@,
        }
    }

    /// The automaton is consistent.
    pub open spec fn wf(&self) -> bool {
        snapshot_wf(self.snap())
    }

    /// The automaton of the empty text.
    pub fn new() -> (sam: Sam)
        ensures
            sam.wf(),
            sam@ == empty_sam(),
            sam.st@.len() == 1,
            sam.ed@.len() == 0,
    {
        let mut st: Vec<SamState> = Vec::new();
        let mut root = blank_state(0, -1);
        root.link = SAM_STATE_NONE;
        st.push(root);
        let ed: Vec<SamEdge> = Vec::new();
        let mut root_to: Vec<i32> = Vec::new();
        while root_to.len() < 256
            invariant
                root_to@.len() <= 256,
                forall|i: int| 0 <= i < root_to@.len() ==> root_to@[i] == -1,
            decreases 256 - root_to@.len(),
        {
            root_to.push(SAM_STATE_NONE);
        }
        let mut text_states: Vec<i32> = Vec::new();
        text_states.push(0);
        let ghost root_rank: Seq<nat> = seq![0nat];
        let sam = Sam {
            st,
            ed,
            last: 0,
            root_to,
            text: Vec::new(),
            text_states,
            boundary_after: Vec::new(),
            owner: Ghost(Seq::empty()),
            rank: Ghost(root_rank),
        };
        proof {
            assert forall|x: u32| #[trigger] target(sam.st@, sam.ed@, 0, x) == -1 by {
                lemma_stop_at(sam.ed@, SAM_EDGE_NONE, x);
            }
            assert(state_ok(sam.st@, sam.ed@, sam.owner@, 0, 0));
            assert(link_ok(sam.st@, sam.rank@, 0));
            assert(sam@.states[0].edges =~= Map::empty());
            assert(Map::<u32, int>::empty().dom() =~= Set::empty());
            assert(sized(sam.st@, sam.ed@, 0));
            assert(sam@.states.drop_last() =~= Seq::empty());
            assert(edges_needed(sam@.states.drop_last()) == 0);
            assert(edge_excess(sam@.states.last()) == 0);
            assert(sam@.states =~= empty_sam().states);
            assert(sam@.text_states =~= empty_sam().text_states);
        }
        sam
    }

    /// Target of the edge of `v` labelled `ch`; -1 if there is none.
    pub fn get_edge(&self, v: i32, ch: u32) -> (to: i32)
        requires
            graph_ok(self.snap()),
            0 <= v < self.st@.len(),
        ensures
            to == target(self.st@, self.ed@, v as int, ch),
            -1 <= to < self.st@.len(),
            to != 0,
    {
        proof {
            lemma_target_range(
                self.st@,
                self.ed@,
                self.owner@,
                self.rank@,
                self.text@.len() as int,
                v as int,
                ch,
            );
            assert(state_ok(self.st@, self.ed@, self.owner@, self.text@.len() as int, v as int));
        }
        if v == 0 && ch < 256 {
            return self.root_to[ch as usize];
        }
        let s = &self.st[v as usize];
        let n: usize = s.small_n as usize;
        let mut i: usize = 0;
        while i < n
            invariant
                i <= n <= 4,
                n == s.small_n,
                0 <= v < self.st@.len(),
                *s == self.st@[v as int],
                state_ok(self.st@, self.ed@, self.owner@, self.text@.len() as int, v as int),
                forall|j: int| 0 <= j < i ==> !slot_has(*s, j, ch),
            decreases n - i,
        {
            if s.small_ch[i] == ch {
                assert(slot_has(*s, i as int, ch));
                assert(s.small_to@[i as int] >= 0);
                return s.small_to[i];
            }
            assert(!slot_has(*s, i as int, ch));
            i += 1;
        }
        assert(small_target(*s, ch) == -1);
        let mut ei: u32 = s.head;
        while ei != SAM_EDGE_NONE
            invariant
                graph_ok(self.snap()),
                0 <= v < self.st@.len(),
                *s == self.st@[v as int],
                small_target(*s, ch) == -1,
                ei == SAM_EDGE_NONE || ei < self.ed@.len(),
                list_target(self.ed@, s.head, ch) == list_target(self.ed@, ei, ch),
            decreases
                if ei == SAM_EDGE_NONE {
                    0
                } else {
                    ei + 1
                },
        {
            assert(edge_ok(self.st@.len() as int, self.ed@, self.owner@, ei as int));
            let e = self.ed[ei as usize];
            if e.ch == ch {
                return e.to;
            }
            ei = e.next;
        }
        SAM_STATE_NONE
    }

    /// Adds an overflow edge that `v` does not have yet.
    fn add_edge_tx(&mut self, tx: &mut SamTx, v: i32, ch: u32, to: i32)
        requires
            graph_ok(old(self).snap()),
            log_ok(*old(tx), old(self).st@, old(self).ed@),
            0 <= v < old(self).st@.len(),
            0 < to < old(self).st@.len(),
            target(old(self).st@, old(self).ed@, v as int, ch) == -1,
            old(self).st@[v as int].small_n == 4,
            old(self).ed@.len() + 1 < u32::MAX,
        ensures
            edited(old(self).snap(), final(self).snap(), v as int, ch, to as int),
            graph_ok(final(self).snap()),
            log_ok(*final(tx), final(self).st@, final(self).ed@),
            same_base(*old(tx), *final(tx)),
            final(self).ed@ == old(self).ed@.push(
                SamEdge { ch, to, next: old(self).st@[v as int].head },
            ),
            final(self).st@ == old(self).st@.update(
                v as int,
                SamState { head: old(self).ed@.len() as u32, ..old(self).st@[v as int] },
            ),
    {
        let ghost before = self.snap();
        proof {
            lemma_table_push_edge(
                self.st@,
                self.ed@,
                self.owner@,
                self.rank@,
                self.text@.len() as int,
                v as int,
                ch,
                to,
            );
            lemma_push_edge(
                self.st@,
                self.ed@,
                self.owner@,
                self.rank@,
                self.text@.len() as int,
                v as int,
                ch,
                to,
            );
            lemma_log_push_edge(
                *tx,
                self.st@,
                self.ed@,
                SamEdge { ch, to, next: self.st@[v as int].head },
            );
        }
        let idx: u32 = edge_ix(self.ed.len());
        let mut s = self.st[v as usize];
        self.ed.push(SamEdge { ch, to, next: s.head });
        let ghost tx1 = *tx;
        tx.st_changes.push((v as usize, s));
        s.head = idx;
        proof {
            lemma_log_state(tx1, *tx, before.st, self.ed@, v as usize, s);
        }
        self.st.set(v as usize, s);
        if v == 0 && ch < 256 {
            self.root_to.set(ch as usize, to);
        }
        proof {
            self.owner@ = self.owner@.push(v as int);
            lemma_root_cache_edit(before, self.snap(), v as int, ch, to);
        }
    }

    /// Adds an edge that `v` does not have yet.
    fn add_edge_absent_tx(&mut self, tx: &mut SamTx, v: i32, ch: u32, to: i32)
        requires
            graph_ok(old(self).snap()),
            log_ok(*old(tx), old(self).st@, old(self).ed@),
            0 <= v < old(self).st@.len(),
            0 < to < old(self).st@.len(),
            target(old(self).st@, old(self).ed@, v as int, ch) == -1,
            ({
                let m = states_model(old(self).st@, old(self).ed@);
                edges_needed(
                    m.update(
                        v as int,
                        StateModel {
                            edges: m[v as int].edges.insert(ch, to as int),
                            ..m[v as int]
                        },
                    ),
                ) < u32::MAX
            }),
        ensures
            edited(old(self).snap(), final(self).snap(), v as int, ch, to as int),
            graph_ok(final(self).snap()),
            log_ok(*final(tx), final(self).st@, final(self).ed@),
            same_base(*old(tx), *final(tx)),
    {
        let ghost before = self.snap();
        assert(state_ok(self.st@, self.ed@, self.owner@, self.text@.len() as int, v as int));
        let mut s = self.st[v as usize];
        if s.small_n < 4 {
            let ghost tx1 = *tx;
            tx.st_changes.push((v as usize, s));
            let i: usize = s.small_n as usize;
            s.small_ch[i] = ch;
            s.small_to[i] = to;
            s.small_n = s.small_n + 1;
            proof {
                lemma_push_small(
                    self.st@,
                    self.ed@,
                    self.owner@,
                    self.rank@,
                    self.text@.len() as int,
                    v as int,
                    ch,
                    to,
                    s,
                );
                lemma_table_push_small(self.st@, self.ed@, v as int, ch, to as int, s);
                lemma_log_state(tx1, *tx, self.st@, self.ed@, v as usize, s);
            }
            self.st.set(v as usize, s);
            if v == 0 && ch < 256 {
                self.root_to.set(ch as usize, to);
            }
            proof {
                lemma_root_cache_edit(before, self.snap(), v as int, ch, to);
            }
        } else {
            proof {
                let m = states_model(self.st@, self.ed@);
                let x = StateModel {
                    edges: m[v as int].edges.insert(ch, to as int),
                    ..m[v as int]
                };
                assert(sized(self.st@, self.ed@, v as int));
                assert(x.edges.dom() =~= m[v as int].edges.dom().insert(ch));
                lemma_needed_change(m, v as int, x);
            }
            self.add_edge_tx(tx, v, ch, to);
        }
    }

    /// Redirects the edge of `v` labelled `ch` from `old_to` to `new_to`; tells whether it led
    /// there.
    fn replace_edge_to_tx(
        &mut self,
        tx: &mut SamTx,
        v: i32,
        ch: u32,
        old_to: i32,
        new_to: i32,
    ) -> (found: bool)
        requires
            graph_ok(old(self).snap()),
            log_ok(*old(tx), old(self).st@, old(self).ed@),
            0 <= v < old(self).st@.len(),
            0 <= old_to < old(self).st@.len(),
            0 < new_to < old(self).st@.len(),
        ensures
            found == (target(old(self).st@, old(self).ed@, v as int, ch) == old_to),
            found ==> edited(old(self).snap(), final(self).snap(), v as int, ch, new_to as int),
            !found ==> final(self).snap() == old(self).snap(),
            graph_ok(final(self).snap()),
            log_ok(*final(tx), final(self).st@, final(self).ed@),
            same_base(*old(tx), *final(tx)),
            final(self).ed@.len() == old(self).ed@.len(),
    {
        let ghost before = self.snap();
        let ghost tl = self.text@.len() as int;
        assert(state_ok(self.st@, self.ed@, self.owner@, tl, v as int));
        let mut s = self.st[v as usize];
        let n: usize = s.small_n as usize;
        let mut i: usize = 0;
        while i < n
            invariant
                i <= n <= 4,
                n == s.small_n,
                graph_ok(self.snap()),
                before == self.snap(),
                before == old(self).snap(),
                log_ok(*tx, self.st@, self.ed@),
                *tx == *old(tx),
                0 <= v < self.st@.len(),
                0 < new_to < self.st@.len(),
                0 <= old_to,
                s == self.st@[v as int],
                tl == self.text@.len(),
                state_ok(self.st@, self.ed@, self.owner@, tl, v as int),
                forall|j: int| 0 <= j < i ==> !slot_has(s, j, ch),
            decreases n - i,
        {
            if s.small_ch[i] == ch {
                assert(slot_has(s, i as int, ch));
                assert(s.small_to@[i as int] >= 0);
                if s.small_to[i] != old_to {
                    return false;
                }
                let ghost tx1 = *tx;
                tx.st_changes.push((v as usize, s));
                s.small_to[i] = new_to;
                proof {
                    lemma_replace_small(
                        self.st@,
                        self.ed@,
                        self.owner@,
                        self.rank@,
                        tl,
                        v as int,
                        i as int,
                        new_to,
                        s,
                    );
                    lemma_table_kept(self.st@, self.ed@, self.st@.update(v as int, s), self.ed@);
                    lemma_log_state(tx1, *tx, self.st@, self.ed@, v as usize, s);
                }
                self.st.set(v as usize, s);
                if v == 0 && ch < 256 {
                    self.root_to.set(ch as usize, new_to);
                }
                proof {
                    lemma_root_cache_edit(before, self.snap(), v as int, ch, new_to);
                }
                return true;
            }
            assert(!slot_has(s, i as int, ch));
            i += 1;
        }
        assert(small_target(s, ch) == -1);
        let mut ei: u32 = s.head;
        while ei != SAM_EDGE_NONE
            invariant
                graph_ok(self.snap()),
                before == self.snap(),
                before == old(self).snap(),
                log_ok(*tx, self.st@, self.ed@),
                *tx == *old(tx),
                0 <= v < self.st@.len(),
                0 < new_to < self.st@.len(),
                0 <= old_to,
                s == self.st@[v as int],
                tl == self.text@.len(),
                small_target(s, ch) == -1,
                ei == SAM_EDGE_NONE || ei < self.ed@.len(),
                stop_at(self.ed@, s.head, ch) == stop_at(self.ed@, ei, ch),
            decreases
                if ei == SAM_EDGE_NONE {
                    0
                } else {
                    ei + 1
                },
        {
            assert(edge_ok(self.st@.len() as int, self.ed@, self.owner@, ei as int));
            let mut e = self.ed[ei as usize];
            if e.ch == ch {
                if e.to != old_to {
                    return false;
                }
                let ghost tx1 = *tx;
                tx.ed_changes.push((ei as usize, e));
                e.to = new_to;
                proof {
                    lemma_replace_list(
                        self.st@,
                        self.ed@,
                        self.owner@,
                        self.rank@,
                        tl,
                        v as int,
                        ei,
                        new_to,
                    );
                    assert forall|w: int| #![trigger self.st@[w]] 0 <= w < self.st@.len() implies list_size(
                        self.ed@.update(ei as int, e),
                        self.st@[w].head,
                    ) == list_size(self.ed@, self.st@[w].head) by {
                        lemma_size_retarget(self.ed@, ei as int, new_to, self.st@[w].head);
                    }
                    lemma_table_kept(
                        self.st@,
                        self.ed@,
                        self.st@,
                        self.ed@.update(ei as int, e),
                    );
                    lemma_log_edge(tx1, *tx, self.st@, self.ed@, ei as usize, e);
                }
                self.ed.set(ei as usize, e);
                if v == 0 && ch < 256 {
                    self.root_to.set(ch as usize, new_to);
                }
                proof {
                    lemma_root_cache_edit(before, self.snap(), v as int, ch, new_to);
                }
                return true;
            }
            ei = e.next;
        }
        false
    }
}

/// The automaton of the empty text as a mathematical object.
pub open spec fn empty_sam() -> SamModel {
    SamModel {
        states: seq![StateModel { link: -1, len: 0, endpos: -1, edges: Map::empty() }],
        last: 0,
        text: Seq::empty(),
        text_states: seq![0int],
        boundary_after: Seq::empty(),
    }
}

impl View for Sam {
    type V = SamModel;

    open spec fn view(&self) -> SamModel {
        snapshot_model(self.snap())
    }
}


// ---------------------------------------------------------------------------------------
// Growing the automaton
// ---------------------------------------------------------------------------------------

/// Inline labels do not occur in the list.
proof fn lemma_small_excludes_list(
    st: Seq<SamState>,
    ed: Seq<SamEdge>,
    owner: Seq<int>,
    text_len: int,
    v: int,
    ch: u32,
)
    requires
        state_ok(st, ed, owner, text_len, v),
        list_target(ed, st[v].head, ch) != -1,
    ensures
        small_target(st[v], ch) == -1,
{
    let s = st[v];
    assert(slot_has(s, 0, ch) ==> list_target(ed, s.head, s.small_ch@[0]) == -1);
    assert(slot_has(s, 1, ch) ==> list_target(ed, s.head, s.small_ch@[1]) == -1);
    assert(slot_has(s, 2, ch) ==> list_target(ed, s.head, s.small_ch@[2]) == -1);
    assert(slot_has(s, 3, ch) ==> list_target(ed, s.head, s.small_ch@[3]) == -1);
}

/// A list with one more edge in front.
proof fn lemma_list_push(ed: Seq<SamEdge>, e: SamEdge, ch: u32)
    requires
        ed.len() + 1 < u32::MAX,
        e.next == SAM_EDGE_NONE || e.next < ed.len(),
    ensures
        list_target(ed.push(e), ed.len() as u32, ch) == if ch == e.ch {
            e.to as int
        } else {
            list_target(ed, e.next, ch)
        },
{
    let e2 = ed.push(e);
    lemma_stop_at_prefix(ed, e2, e.next, ch);
    if ch != e.ch {
        if e.next == SAM_EDGE_NONE {
            assert(stop_at(e2, ed.len() as u32, ch) == SAM_EDGE_NONE);
            assert(stop_at(ed, e.next, ch) == SAM_EDGE_NONE);
        } else {
            assert(stop_at(e2, ed.len() as u32, ch) == stop_at(e2, e.next, ch));
        }
    }
}

proof fn lemma_model_push(st: Seq<SamState>, ed: Seq<SamEdge>, s: SamState, edges: Map<u32, int>)
    requires
        forall|w: int, x: u32|
            0 <= w < st.len() ==> #[trigger] target(st.push(s), ed, w, x) == target(st, ed, w, x),
        forall|x: u32|
            edges.contains_key(x) == (#[trigger] target(st.push(s), ed, st.len() as int, x) != -1),
        forall|x: u32|
            edges.contains_key(x) ==> edges[x] == #[trigger] target(
                st.push(s),
                ed,
                st.len() as int,
                x,
            ),
    ensures
        states_model(st.push(s), ed) == states_model(st, ed).push(
            StateModel {
                link: s.link as int,
                len: s.len as int,
                endpos: s.endpos as int,
                edges,
            },
        ),
{
    let a = states_model(st.push(s), ed);
    let b = states_model(st, ed).push(
        StateModel { link: s.link as int, len: s.len as int, endpos: s.endpos as int, edges },
    );
    assert forall|w: int| 0 <= w < a.len() implies a[w] == b[w] by {
        assert(a[w].edges =~= b[w].edges);
    }
    assert(a =~= b);
}

pub proof fn lemma_model_relabel(st: Seq<SamState>, ed: Seq<SamEdge>, v: int, s: SamState)
    requires
        0 <= v < st.len(),
        forall|w: int, x: u32|
            0 <= w < st.len() ==> #[trigger] target(st.update(v, s), ed, w, x) == target(
                st,
                ed,
                w,
                x,
            ),
    ensures
        states_model(st.update(v, s), ed) == states_model(st, ed).update(
            v,
            StateModel {
                link: s.link as int,
                len: s.len as int,
                endpos: s.endpos as int,
                edges: states_model(st, ed)[v].edges,
            },
        ),
{
    let a = states_model(st.update(v, s), ed);
    let b = states_model(st, ed).update(
        v,
        StateModel {
            link: s.link as int,
            len: s.len as int,
            endpos: s.endpos as int,
            edges: states_model(st, ed)[v].edges,
        },
    );
    assert forall|w: int| 0 <= w < a.len() implies a[w] == b[w] by {
        assert(a[w].edges =~= b[w].edges);
    }
    assert(a =~= b);
}

/// The first state with the edge comes after those without it.
proof fn lemma_first_with_edge_past(
    states: Seq<StateModel>,
    path: Seq<int>,
    ch: u32,
    from: int,
    k: int,
)
    requires
        0 <= from <= k <= path.len(),
        forall|i: int| from <= i < k ==> !states[#[trigger] path[i]].edges.contains_key(ch),
    ensures
        k <= first_with_edge(states, path, ch, from) <= path.len(),
    decreases path.len() - from,
{
    if from < k {
        assert(!states[path[from]].edges.contains_key(ch));
        lemma_first_with_edge_past(states, path, ch, from + 1, k);
    } else if from < path.len() && !states[path[from]].edges.contains_key(ch) {
        lemma_first_with_edge_past(states, path, ch, from + 1, from + 1);
    }
}

proof fn lemma_first_elsewhere_range(
    states: Seq<StateModel>,
    path: Seq<int>,
    ch: u32,
    q: int,
    from: int,
)
    requires
        0 <= from <= path.len(),
    ensures
        from <= first_elsewhere(states, path, ch, q, from) <= path.len(),
    decreases path.len() - from,
{
    if from < path.len() {
        lemma_first_elsewhere_range(states, path, ch, q, from + 1);
    }
}

/// What appending a symbol has added after its first `j` edges fits if the result does.
proof fn lemma_fed_step(s: SamSnapshot, ch: u32, j: int)
    requires
        snapshot_wf(s),
        ({
            let m = states_model(s.st, s.ed);
            0 <= j <= first_with_edge(m, path_of(m, s.last as int), ch, 0)
        }),
    ensures
        ({
            let m = states_model(s.st, s.ed);
            let path = path_of(m, s.last as int);
            let fresh = StateModel {
                link: 0,
                len: m[s.last as int].len + 1,
                endpos: s.text.len() as int,
                edges: Map::empty(),
            };
            let some = with_edges(m.push(fresh), path.subrange(0, j), ch, m.len() as int);
            let all = fed(snapshot_model(s), ch).states;
            let k = first_with_edge(m, path, ch, 0);
            &&& finite_labels(all)
            &&& edges_needed(some) <= edges_needed(all)
            &&& edges_needed(m) <= edges_needed(all)
            &&& m.len() < all.len()
            &&& k < path.len() && m[path[k]].len + 1 != m[m[path[k]].edges[ch]].len ==> {
                let joined = with_edges(m.push(fresh), path.subrange(0, k), ch, m.len() as int);
                let q = m[path[k]].edges[ch];
                &&& edges_needed(joined.push(StateModel { len: m[path[k]].len + 1, ..joined[q] }))
                    <= edges_needed(all)
                &&& all.len() == m.len() + 2
            }
        }),
{
    let m = states_model(s.st, s.ed);
    let g = s.last as int;
    let path = path_of(m, g);
    lemma_graph_links(s.st, s.ed, s.owner, s.rank, s.text.len() as int);
    lemma_path_ranks(m, s.rank, g);
    lemma_finite_labels(s.st, s.ed);
    lemma_first_with_edge_past(m, path, ch, 0, 0);
    let k = first_with_edge(m, path, ch, 0);
    if k < path.len() {
        lemma_edge_there(m, path, ch, 0);
        lemma_target_range(s.st, s.ed, s.owner, s.rank, s.text.len() as int, path[k], ch);
        lemma_first_elsewhere_range(m, path, ch, m[path[k]].edges[ch], k);
    }
    lemma_linked_more(m, g, ch, s.text.len() as int, j);
}

proof fn lemma_edge_there(states: Seq<StateModel>, path: Seq<int>, ch: u32, from: int)
    requires
        0 <= from <= path.len(),
    ensures
        first_with_edge(states, path, ch, from) < path.len() ==> states[path[first_with_edge(
            states,
            path,
            ch,
            from,
        )]].edges.contains_key(ch),
    decreases path.len() - from,
{
    if from < path.len() && !states[path[from]].edges.contains_key(ch) {
        lemma_edge_there(states, path, ch, from + 1);
    }
}

/// An automaton without text is the one that [`Sam::new`] makes.
pub proof fn law_empty_automaton(s: SamSnapshot)
    requires
        snapshot_wf(s),
        s.text.len() == 0,
    ensures
        snapshot_model(s) == empty_sam(),
        s.st.len() == 1,
{
    let m = snapshot_model(s);
    assert(state_ok(s.st, s.ed, s.owner, 0, 0));
    assert(link_ok(s.st, s.rank, 0));
    assert forall|x: u32| target(s.st, s.ed, 0, x) == -1 by {
        lemma_target_range(s.st, s.ed, s.owner, s.rank, 0, 0, x);
    }
    assert(m.states[0].edges =~= Map::empty());
    assert(0 <= s.text_states[0] < s.st.len());
    assert(m.states =~= empty_sam().states);
    assert(m.text_states =~= empty_sam().text_states);
}

/// A symbol never shrinks the automaton.
pub proof fn lemma_fed_more(s: SamSnapshot, ch: u32)
    requires
        snapshot_wf(s),
    ensures
        s.st.len() < fed(snapshot_model(s), ch).states.len(),
        edges_needed(states_model(s.st, s.ed)) <= edges_needed(fed(snapshot_model(s), ch).states),
        fits(fed(snapshot_model(s), ch)) ==> fits(snapshot_model(s)),
{
    let m = states_model(s.st, s.ed);
    lemma_first_with_edge_past(m, path_of(m, s.last as int), ch, 0, 0);
    lemma_fed_step(s, ch, 0);
}

/// States that keep the same edges in their used slots are alike.
pub open spec fn same_slots(a: SamState, b: SamState) -> bool {
    &&& a.link == b.link
    &&& a.len == b.len
    &&& a.endpos == b.endpos
    &&& a.head == b.head
    &&& a.small_n == b.small_n
    &&& a.small_n <= 4
    &&& forall|i: int|
        0 <= i < a.small_n ==> #[trigger] a.small_ch@[i] == b.small_ch@[i] && a.small_to@[i]
            == b.small_to@[i]
}

/// What stands in unused slots does not matter.
pub proof fn lemma_same_slots(s: SamSnapshot, t: SamSnapshot)
    requires
        snapshot_wf(s),
        t == (SamSnapshot { st: t.st, ..s }),
        t.st.len() == s.st.len(),
        forall|v: int| #![trigger t.st[v]] 0 <= v < s.st.len() ==> same_slots(s.st[v], t.st[v]),
    ensures
        snapshot_wf(t),
        snapshot_model(t) == snapshot_model(s),
{
    let n = s.st.len() as int;
    let tl = s.text.len() as int;
    assert forall|v: int, x: u32| 0 <= v < n implies #[trigger] target(t.st, t.ed, v, x) == target(
        s.st,
        s.ed,
        v,
        x,
    ) by {
        let a = s.st[v];
        let b = t.st[v];
        assert(same_slots(a, b));
        assert(a.small_n > 0 ==> a.small_ch@[0] == b.small_ch@[0]);
        assert(a.small_n > 1 ==> a.small_ch@[1] == b.small_ch@[1]);
        assert(a.small_n > 2 ==> a.small_ch@[2] == b.small_ch@[2]);
        assert(a.small_n > 3 ==> a.small_ch@[3] == b.small_ch@[3]);
    }
    assert forall|v: int| 0 <= v < n implies #[trigger] state_ok(
        t.st,
        t.ed,
        t.owner,
        tl,
        v,
    ) by {
        assert(state_ok(s.st, s.ed, s.owner, tl, v));
        let a = s.st[v];
        let b = t.st[v];
        assert(same_slots(a, b));
        assert forall|i: int| 0 <= i < b.small_n implies 0 < #[trigger] b.small_to@[i] < n by {
            assert(a.small_ch@[i] == b.small_ch@[i]);
            assert(0 < a.small_to@[i] < n);
        }
        assert forall|i: int, j: int| 0 <= i < j < b.small_n implies #[trigger] b.small_ch@[i]
            != #[trigger] b.small_ch@[j] by {
            assert(a.small_ch@[i] == b.small_ch@[i]);
            assert(a.small_ch@[j] == b.small_ch@[j]);
        }
        assert forall|i: int| 0 <= i < b.small_n implies list_target(
            t.ed,
            b.head,
            #[trigger] b.small_ch@[i],
        ) == -1 by {
            assert(a.small_ch@[i] == b.small_ch@[i]);
        }
    }
    assert forall|v: int| 0 <= v < n implies #[trigger] link_ok(t.st, t.rank, v) by {
        assert(link_ok(s.st, s.rank, v));
        assert(same_slots(s.st[v], t.st[v]));
    }
    assert forall|v: int| #![trigger t.st[v]] 0 <= v < n implies t.st[v].small_n == s.st[v].small_n
        && t.st[v].head == s.st[v].head && list_size(t.ed, t.st[v].head) == list_size(
        s.ed,
        s.st[v].head,
    ) by {
        assert(same_slots(s.st[v], t.st[v]));
    }
    lemma_table_kept(s.st, s.ed, t.st, t.ed);
    assert(root_cache_ok(t.st, t.ed, t.root_to)) by {
        assert forall|c: u32| c < 256 implies #[trigger] t.root_to[c as int] as int == target(
            t.st,
            t.ed,
            0,
            c,
        ) by {
            assert(s.root_to[c as int] as int == target(s.st, s.ed, 0, c));
        }
    }
    let a = states_model(s.st, s.ed);
    let b = states_model(t.st, t.ed);
    assert forall|v: int| 0 <= v < n implies a[v] == b[v] by {
        assert(same_slots(s.st[v], t.st[v]));
        assert(a[v].edges =~= b[v].edges);
    }
    assert(a =~= b);
}

/// `rank` with room made for one more state right below `q`.
spec fn split_rank(rank: Seq<nat>, q: int) -> Seq<nat> {
    Seq::new(
        rank.len() + 1,
        |w: int|
            if w >= rank.len() {
                rank[q]
            } else if rank[w] >= rank[q] {
                rank[w] + 1
            } else {
                rank[w]
            },
    )
}

impl Sam {
    /// Gives `dst`, whose inline edges are those of `src`, the overflow edges of `src` too.
    fn clone_overflow_edges_tx(&mut self, tx: &mut SamTx, src: i32, dst: i32)
        requires
            graph_ok(old(self).snap()),
            log_ok(*old(tx), old(self).st@, old(self).ed@),
            0 <= src < old(self).st@.len(),
            0 < dst < old(self).st@.len(),
            src != dst,
            old(self).st@[dst as int].head == SAM_EDGE_NONE,
            forall|x: u32|
                #[trigger] small_target(old(self).st@[dst as int], x) == small_target(
                    old(self).st@[src as int],
                    x,
                ),
            old(self).st@[dst as int].small_n == old(self).st@[src as int].small_n,
            old(self).ed@.len() + list_size(old(self).ed@, old(self).st@[src as int].head)
                < u32::MAX,
        ensures
            same_text(old(self).snap(), final(self).snap()),
            same_labels(old(self).st@, final(self).st@),
            final(self).rank@ == old(self).rank@,
            forall|w: int, x: u32|
                0 <= w < old(self).st@.len() ==> #[trigger] target(
                    final(self).st@,
                    final(self).ed@,
                    w,
                    x,
                ) == target(
                    old(self).st@,
                    old(self).ed@,
                    if w == dst {
                        src as int
                    } else {
                        w
                    },
                    x,
                ),
            graph_ok(final(self).snap()),
            log_ok(*final(tx), final(self).st@, final(self).ed@),
            same_base(*old(tx), *final(tx)),
    {
        let ghost s0 = self.snap();
        let ghost n = self.st@.len() as int;
        let ghost tl = self.text@.len() as int;
        let ghost head0 = self.st@[src as int].head;
        proof {
            assert(state_ok(s0.st, s0.ed, s0.owner, tl, src as int));
            assert(sized(s0.st, s0.ed, src as int));
            assert(list_size(s0.ed, SAM_EDGE_NONE) == 0);
            assert forall|x: u32| #[trigger] list_target(s0.ed, SAM_EDGE_NONE, x) == -1 by {
                lemma_stop_at(s0.ed, SAM_EDGE_NONE, x);
            }
        }
        let mut ei: u32 = self.st[src as usize].head;
        while ei != SAM_EDGE_NONE
            invariant
                graph_ok(self.snap()),
                graph_ok(s0),
                s0 == old(self).snap(),
                log_ok(*tx, self.st@, self.ed@),
                same_base(*old(tx), *tx),
                same_text(s0, self.snap()),
                same_labels(s0.st, self.st@),
                self.rank@ == s0.rank,
                n == s0.st.len(),
                tl == s0.text.len(),
                0 <= src < n,
                0 < dst < n,
                src != dst,
                head0 == s0.st[src as int].head,
                state_ok(s0.st, s0.ed, s0.owner, tl, src as int),
                extends(self.ed@, s0.ed),
                ei == SAM_EDGE_NONE || ei < s0.ed.len(),
                self.ed@.len() + list_size(s0.ed, ei) == s0.ed.len() + list_size(s0.ed, head0),
                s0.ed.len() + list_size(s0.ed, head0) < u32::MAX,
                self.st@[dst as int].small_n == s0.st[src as int].small_n,
                head0 != SAM_EDGE_NONE ==> s0.st[src as int].small_n == 4,
                ei != SAM_EDGE_NONE ==> head0 != SAM_EDGE_NONE,
                forall|x: u32|
                    #[trigger] small_target(self.st@[dst as int], x) == small_target(
                        s0.st[src as int],
                        x,
                    ),
                forall|w: int, x: u32|
                    0 <= w < n && w != dst ==> #[trigger] target(self.st@, self.ed@, w, x)
                        == target(s0.st, s0.ed, w, x),
                forall|x: u32|
                    #![trigger list_target(s0.ed, head0, x)]
                    {
                        let a = list_target(self.ed@, self.st@[dst as int].head, x);
                        let b = list_target(s0.ed, ei, x);
                        &&& list_target(s0.ed, head0, x) == if a != -1 {
                            a
                        } else {
                            b
                        }
                        &&& a == -1 || b == -1
                    },
            decreases
                if ei == SAM_EDGE_NONE {
                    0
                } else {
                    ei + 1
                },
        {
            let e = self.ed[ei as usize];
            let ghost ed1 = self.ed@;
            let ghost d1 = self.st@[dst as int];
            let ghost h1 = d1.head;
            proof {
                assert(e == s0.ed[ei as int]);
                assert(edge_ok(n, s0.ed, s0.owner, ei as int));
                assert(stop_at(s0.ed, ei, e.ch) == ei);
                assert(list_target(s0.ed, head0, e.ch) == e.to);
                assert(list_size(s0.ed, ei) == 1 + list_size(s0.ed, e.next)) by {
                    assert(list_size(s0.ed, SAM_EDGE_NONE) == 0);
                }
                lemma_small_excludes_list(s0.st, s0.ed, s0.owner, tl, src as int, e.ch);
                assert(small_target(self.st@[dst as int], e.ch) == -1);
                assert(target(self.st@, self.ed@, dst as int, e.ch) == -1);
                assert(state_ok(self.st@, self.ed@, self.owner@, tl, dst as int));
            }
            self.add_edge_tx(tx, dst, e.ch, e.to);
            proof {
                let added = SamEdge { ch: e.ch, to: e.to, next: h1 };
                assert forall|x: u32|
                    #![trigger list_target(s0.ed, head0, x)]
                    {
                        let a = list_target(self.ed@, self.st@[dst as int].head, x);
                        let b = list_target(s0.ed, e.next, x);
                        &&& list_target(s0.ed, head0, x) == if a != -1 {
                            a
                        } else {
                            b
                        }
                        &&& a == -1 || b == -1
                    } by {
                    lemma_list_push(ed1, added, x);
                    let a1 = list_target(ed1, h1, x);
                    let b1 = list_target(s0.ed, ei, x);
                    assert(list_target(s0.ed, head0, x) == if a1 != -1 {
                        a1
                    } else {
                        b1
                    });
                    if x == e.ch {
                        assert(list_target(s0.ed, e.next, x) == -1);
                    } else if e.next == SAM_EDGE_NONE {
                        assert(stop_at(s0.ed, ei, x) == SAM_EDGE_NONE);
                    } else {
                        assert(stop_at(s0.ed, ei, x) == stop_at(s0.ed, e.next, x));
                    }
                }
                assert forall|x: u32|
                    #[trigger] small_target(self.st@[dst as int], x) == small_target(
                        s0.st[src as int],
                        x,
                    ) by {
                    assert(small_target(d1, x) == small_target(s0.st[src as int], x));
                }
            }
            ei = e.next;
        }
        assert forall|w: int, x: u32| 0 <= w < n implies #[trigger] target(
            self.st@,
            self.ed@,
            w,
            x,
        ) == target(
            s0.st,
            s0.ed,
            if w == dst {
                src as int
            } else {
                w
            },
            x,
        ) by {
            if w == dst {
                assert(list_target(s0.ed, head0, x) == list_target(
                    self.ed@,
                    self.st@[dst as int].head,
                    x,
                ));
            }
        }
    }

    /// Sets the suffix link of a state that the log does not cover.
    fn link_new_state(&mut self, tx: &SamTx, v: i32, to: i32)
        requires
            graph_ok(old(self).snap()),
            log_ok(*tx, old(self).st@, old(self).ed@),
            tx.base@.st.len() <= v < old(self).st@.len(),
            0 <= to < old(self).st@.len(),
            old(self).rank@[to as int] < old(self).rank@[v as int],
        ensures
            graph_ok(final(self).snap()),
            log_ok(*tx, final(self).st@, final(self).ed@),
            same_text(old(self).snap(), final(self).snap()),
            final(self).rank@ == old(self).rank@,
            final(self).st@.len() == old(self).st@.len(),
            states_model(final(self).st@, final(self).ed@) == with_link(
                states_model(old(self).st@, old(self).ed@),
                v as int,
                to as int,
            ),
    {
        let ghost s0 = self.snap();
        let mut s = self.st[v as usize];
        s.link = to;
        proof {
            assert(state_ok(s0.st, s0.ed, s0.owner, s0.text.len() as int, v as int));
            assert(link_ok(s0.st, s0.rank, v as int));
            lemma_relabel(
                s0.st,
                s0.ed,
                s0.owner,
                s0.rank,
                s0.text.len() as int,
                v as int,
                s,
            );
            lemma_log_new_state(*tx, s0.st, s0.ed, v as int, s);
            lemma_model_relabel(s0.st, s0.ed, v as int, s);
            lemma_table_kept(s0.st, s0.ed, s0.st.update(v as int, s), s0.ed);
        }
        self.st.set(v as usize, s);
        assert(states_model(self.st@, self.ed@) =~= with_link(
            states_model(s0.st, s0.ed),
            v as int,
            to as int,
        ));
    }

    /// Sets the suffix link of a state.
    fn link_state(&mut self, tx: &mut SamTx, v: i32, to: i32)
        requires
            graph_ok(old(self).snap()),
            log_ok(*old(tx), old(self).st@, old(self).ed@),
            0 < v < old(self).st@.len(),
            0 <= to < old(self).st@.len(),
            old(self).rank@[to as int] < old(self).rank@[v as int],
        ensures
            graph_ok(final(self).snap()),
            log_ok(*final(tx), final(self).st@, final(self).ed@),
            same_base(*old(tx), *final(tx)),
            same_text(old(self).snap(), final(self).snap()),
            final(self).rank@ == old(self).rank@,
            final(self).st@.len() == old(self).st@.len(),
            states_model(final(self).st@, final(self).ed@) == with_link(
                states_model(old(self).st@, old(self).ed@),
                v as int,
                to as int,
            ),
    {
        let ghost s0 = self.snap();
        let ghost tx1 = *tx;
        let mut s = self.st[v as usize];
        tx.st_changes.push((v as usize, s));
        s.link = to;
        proof {
            assert(state_ok(s0.st, s0.ed, s0.owner, s0.text.len() as int, v as int));
            assert(link_ok(s0.st, s0.rank, v as int));
            lemma_relabel(
                s0.st,
                s0.ed,
                s0.owner,
                s0.rank,
                s0.text.len() as int,
                v as int,
                s,
            );
            lemma_log_state(tx1, *tx, s0.st, s0.ed, v as usize, s);
            lemma_model_relabel(s0.st, s0.ed, v as int, s);
            lemma_table_kept(s0.st, s0.ed, s0.st.update(v as int, s), s0.ed);
        }
        self.st.set(v as usize, s);
        assert(states_model(self.st@, self.ed@) =~= with_link(
            states_model(s0.st, s0.ed),
            v as int,
            to as int,
        ));
    }

    /// Appends a copy of state `q` for contexts of length `len`.
    fn split_state(&mut self, tx: &mut SamTx, q: i32, len: i32)
        requires
            graph_ok(old(self).snap()),
            log_ok(*old(tx), old(self).st@, old(self).ed@),
            0 < q < old(self).st@.len(),
            0 <= len <= old(self).text@.len(),
            old(self).st@.len() + 1 <= i32::MAX,
            ({
                let m = states_model(old(self).st@, old(self).ed@);
                edges_needed(m.push(StateModel { len: len as int, ..m[q as int] })) < u32::MAX
            }),
        ensures
            graph_ok(final(self).snap()),
            log_ok(*final(tx), final(self).st@, final(self).ed@),
            same_base(*old(tx), *final(tx)),
            same_text(old(self).snap(), final(self).snap()),
            final(self).rank@ == split_rank(old(self).rank@, q as int),
            states_model(final(self).st@, final(self).ed@) == ({
                let m = states_model(old(self).st@, old(self).ed@);
                m.push(StateModel { len: len as int, ..m[q as int] })
            }),
    {
        let ghost s0 = self.snap();
        let ghost n = s0.st.len() as int;
        let ghost tl = s0.text.len() as int;
        let ghost m0 = states_model(s0.st, s0.ed);
        let u: i32 = state_ix(self.st.len());
        let mut s = self.st[q as usize];
        s.len = len;
        s.head = SAM_EDGE_NONE;
        let ghost rank2 = split_rank(s0.rank, q as int);
        proof {
            assert(state_ok(s0.st, s0.ed, s0.owner, tl, q as int));
            assert forall|v: int| 0 <= v <= n implies #[trigger] link_ok(
                s0.st.push(s),
                rank2,
                v,
            ) by {
                assert(link_ok(s0.st, s0.rank, q as int));
                if v < n {
                    assert(link_ok(s0.st, s0.rank, v));
                }
            }
            lemma_push_state(s0.st, s0.ed, s0.owner, s0.rank, tl, s, rank2);
            lemma_log_push_state(*tx, s0.st, s0.ed, s);
            let copy = StateModel { len: len as int, ..m0[q as int] };
            lemma_needed_append(m0, copy);
            assert(sized(s0.st, s0.ed, q as int));
            let dom = state_model(s0.st.push(s), s0.ed, n).edges.dom();
            assert forall|x: u32| #[trigger] dom.contains(x) <==> small_target(s, x) != -1 by {
                assert(target(s0.st.push(s), s0.ed, n, x) == small_target(s, x));
            }
            if s0.st[q as int].head == SAM_EDGE_NONE {
                assert(list_size(s0.ed, SAM_EDGE_NONE) == 0);
                assert forall|x: u32| #[trigger] list_target(s0.ed, SAM_EDGE_NONE, x) == -1 by {
                    lemma_stop_at(s0.ed, SAM_EDGE_NONE, x);
                }
                assert(dom =~= m0[q as int].edges.dom()) by {
                    assert forall|x: u32| #[trigger] dom.contains(x) <==> m0[q as int].edges.dom().contains(x) by {
                        assert(target(s0.st, s0.ed, q as int, x) == small_target(s, x));
                    }
                }
            } else {
                lemma_small_labels(s, dom);
            }
            lemma_table_push_state(s0.st, s0.ed, s);
        }
        self.st.push(s);
        proof {
            self.rank@ = rank2;
            assert(root_cache_ok(self.st@, self.ed@, self.root_to@)) by {
                assert forall|c: u32| c < 256 implies #[trigger] self.root_to@[c as int] as int
                    == target(self.st@, self.ed@, 0, c) by {
                    assert(s0.root_to[c as int] as int == target(s0.st, s0.ed, 0, c));
                }
            }
            assert forall|x: u32|
                #[trigger] small_target(self.st@[u as int], x) == small_target(
                    self.st@[q as int],
                    x,
                ) by {}
        }
        let ghost s1 = self.snap();
        self.clone_overflow_edges_tx(tx, q, u);
        proof {
            let a = states_model(self.st@, self.ed@);
            let b = m0.push(StateModel { len: len as int, ..m0[q as int] });
            assert forall|w: int| 0 <= w < a.len() implies a[w] == b[w] by {
                assert(self.st@[w].link == s1.st[w].link);
                let w0 = if w == u {
                    q as int
                } else {
                    w
                };
                assert forall|x: u32| #[trigger] target(self.st@, self.ed@, w, x) == target(
                    s0.st,
                    s0.ed,
                    w0,
                    x,
                ) by {
                    assert(target(s1.st, s1.ed, w0, x) == target(s0.st, s0.ed, w0, x));
                }
                assert(a[w].edges =~= b[w].edges);
            }
            assert(a =~= b);
        }
    }
}


impl Sam {
    /// Appends the state of a new symbol, not linked in yet, and the symbol itself.
    fn append_symbol(&mut self, tx: &SamTx, ch: u32)
        requires
            old(self).wf(),
            tx_ok(*tx, old(self).snap()),
            old(self).st@.len() < i32::MAX,
        ensures
            graph_ok(final(self).snap()),
            log_ok(*tx, final(self).st@, final(self).ed@),
            final(self).last == old(self).last,
            final(self).text@ == old(self).text@.push(ch),
            final(self).boundary_after@ == old(self).boundary_after@.push(0),
            final(self).text_states@ == old(self).text_states@,
            final(self).rank@ == old(self).rank@.push(old(self).st@.len()),
            final(self).ed@ == old(self).ed@,
            states_model(final(self).st@, final(self).ed@) == old(self)@.states.push(
                StateModel {
                    link: 0,
                    len: old(self)@.states[old(self).last as int].len + 1,
                    endpos: old(self).text@.len() as int,
                    edges: Map::empty(),
                },
            ),
    {
        let ghost s0 = self.snap();
        let ghost n = s0.st.len() as int;
        let ghost tl = s0.text.len() as int;
        let i: i32 = self.text.len() as i32;
        self.text.push(ch);
        self.boundary_after.push(0);
        assert(state_ok(s0.st, s0.ed, s0.owner, tl, s0.last as int));
        let s = blank_state(self.st[self.last as usize].len + 1, i);
        let ghost rank2 = s0.rank.push(n as nat);
        proof {
            lemma_longer_text(s0.st, s0.ed, s0.owner, s0.rank, tl, tl + 1);
            assert forall|v: int| 0 <= v <= n implies #[trigger] link_ok(
                s0.st.push(s),
                rank2,
                v,
            ) by {
                assert(link_ok(s0.st, s0.rank, 0));
                if v < n {
                    assert(link_ok(s0.st, s0.rank, v));
                }
            }
            lemma_push_state(s0.st, s0.ed, s0.owner, s0.rank, tl + 1, s, rank2);
            lemma_log_push_state(*tx, s0.st, s0.ed, s);
            lemma_model_push(s0.st, s0.ed, s, Map::empty());
            assert(Map::<u32, int>::empty().dom() =~= Set::empty());
            assert(state_model(s0.st.push(s), s0.ed, n).edges =~= Map::empty());
            lemma_table_push_state(s0.st, s0.ed, s);
        }
        self.st.push(s);
        proof {
            self.rank@ = rank2;
            assert forall|c: u32| c < 256 implies #[trigger] self.root_to@[c as int] as int
                == target(self.st@, self.ed@, 0, c) by {
                assert(s0.root_to[c as int] as int == target(s0.st, s0.ed, 0, c));
            }
        }
    }

    /// Appends one symbol, logging every change to what was there before.
    pub fn feed_tx(&mut self, tx: &mut SamTx, ch: u32)
        requires
            old(self).wf(),
            tx_ok(*old(tx), old(self).snap()),
            fits(fed(old(self)@, ch)),
        ensures
            final(self).wf(),
            final(self)@ == fed(old(self)@, ch),
            tx_ok(*final(tx), final(self).snap()),
            same_base(*old(tx), *final(tx)),
    {
        let ghost s0 = self.snap();
        let ghost m0 = states_model(s0.st, s0.ed);
        let ghost n = s0.st.len() as int;
        let ghost rank0 = s0.rank;
        let g: i32 = self.last;
        let r: i32 = state_ix(self.st.len());
        let ghost path = path_of(m0, g as int);
        proof {
            lemma_graph_links(s0.st, s0.ed, s0.owner, s0.rank, s0.text.len() as int);
            lemma_path_ranks(m0, rank0, g as int);
            lemma_path_len(m0, g as int, m0.len());
            lemma_finite_labels(s0.st, s0.ed);
            lemma_fed_more(s0, ch);
        }
        let ghost goal_states = fed(snapshot_model(s0), ch).states;
        self.append_symbol(tx, ch);
        let ghost m1 = states_model(self.st@, self.ed@);
        let ghost rank1 = self.rank@;
        let mut p: i32 = g;
        let mut q: i32 = SAM_STATE_NONE;
        let ghost mut j: int = 0;
        proof {
            assert(with_edges(m1, path.subrange(0, 0), ch, r as int) =~= m1);
        }
        while p != SAM_STATE_NONE && q == SAM_STATE_NONE
            invariant
                graph_ok(self.snap()),
                log_ok(*tx, self.st@, self.ed@),
                same_base(*old(tx), *tx),
                self.last == g,
                self.text@ == s0.text.push(ch),
                self.boundary_after@ == s0.boundary_after.push(0),
                self.text_states@ == s0.text_states,
                self.rank@ == rank1,
                rank1 == rank0.push(n as nat),
                n == m0.len(),
                n == r,
                n >= 1,
                m1.len() == n + 1,
                forall|v: int| 0 <= v < n ==> #[trigger] m1[v] == m0[v],
                links_ranked(m0, rank0),
                0 <= g < n,
                path == path_of(m0, g as int),
                path.len() <= n,
                forall|i: int| 0 <= i < path.len() ==> 0 <= #[trigger] path[i] < n,
                0 <= j <= path.len(),
                p == if j < path.len() {
                    path[j]
                } else {
                    -1
                },
                states_model(self.st@, self.ed@) == with_edges(
                    m1,
                    path.subrange(0, j),
                    ch,
                    r as int,
                ),
                forall|i: int| 0 <= i < j ==> !m0[#[trigger] path[i]].edges.contains_key(ch),
                snapshot_wf(s0),
                g == s0.last,
                m0 == states_model(s0.st, s0.ed),
                m1 == m0.push(
                    StateModel {
                        link: 0,
                        len: m0[g as int].len + 1,
                        endpos: s0.text.len() as int,
                        edges: Map::empty(),
                    },
                ),
                edges_needed(goal_states) < u32::MAX,
                goal_states == fed(snapshot_model(s0), ch).states,
                q != SAM_STATE_NONE ==> p != SAM_STATE_NONE && q == target(
                    self.st@,
                    self.ed@,
                    p as int,
                    ch,
                ) && 0 < q < n + 1,
            decreases path.len() - j, if q == SAM_STATE_NONE { 1int } else { 0int },
        {
            let ghost now = states_model(self.st@, self.ed@);
            proof {
                lemma_path_next(m0, rank0, g as int, j);
                lemma_path_distinct(m0, rank0, g as int, 0, j);
                assert(now[p as int] == m0[p as int]);
            }
            q = self.get_edge(p, ch);
            if q == SAM_STATE_NONE {
                let ghost before = self.snap();
                proof {
                    lemma_with_edges_step(m1, path.subrange(0, j), p as int, ch, r as int);
                    assert(path.subrange(0, j).push(p as int) =~= path.subrange(0, j + 1));
                    lemma_first_with_edge_past(m0, path, ch, 0, j + 1);
                    lemma_fed_step(s0, ch, j + 1);
                }
                self.add_edge_absent_tx(tx, p, ch, r);
                proof {
                    lemma_model_edit(before, self.snap(), p as int, ch, r as int);
                    lemma_with_edges_step(m1, path.subrange(0, j), p as int, ch, r as int);
                    assert(path.subrange(0, j).push(p as int) =~= path.subrange(0, j + 1));
                    j = j + 1;
                    assert(self.st@[p as int].link == states_model(self.st@, self.ed@)[p as int].link);
                }
                p = self.st[p as usize].link;
            }
        }
        let ghost joined = with_edges(m1, path.subrange(0, j), ch, r as int);
        if p == SAM_STATE_NONE {
            proof {
                lemma_first_with_edge(m0, path, ch, 0, path.len() as int);
                assert(j == path.len());
            }
        } else {
            let ghost now = states_model(self.st@, self.ed@);
            proof {
                lemma_path_distinct(m0, rank0, g as int, 0, j);
                assert(now[p as int] == m0[p as int]);
                assert(now[p as int].edges.contains_key(ch));
                assert(now[p as int].edges[ch] == q);
                lemma_first_with_edge(m0, path, ch, 0, j);
                lemma_target_range(
                    s0.st,
                    s0.ed,
                    s0.owner,
                    s0.rank,
                    s0.text.len() as int,
                    p as int,
                    ch,
                );
                assert(m0[p as int].edges[ch] == q);
                assert(0 < q < n);
                assert(state_ok(s0.st, s0.ed, s0.owner, s0.text.len() as int, p as int));
                assert(now[q as int].len == m1[q as int].len);
                assert(now[p as int].len == self.st@[p as int].len);
                assert(now[q as int].len == self.st@[q as int].len);
                assert(m0[p as int].len == s0.st[p as int].len);
            }
            let p_len: i32 = self.st[p as usize].len;
            if p_len + 1 == self.st[q as usize].len {
                proof {
                    assert(rank0[q as int] < n) by {
                        assert(link_ok(s0.st, s0.rank, q as int));
                    }
                }
                self.link_new_state(tx, r, q);
            } else {
                let ghost k = j;
                let u: i32 = state_ix(self.st.len());
                proof {
                    lemma_fed_step(s0, ch, k);
                }
                self.split_state(tx, q, p_len + 1);
                let ghost split = StateModel { len: p_len + 1, ..joined[q as int] };
                let ghost base = joined.push(split);
                let ghost rank2 = self.rank@;
                proof {
                    assert(with_edges(base, path.subrange(k, k), ch, u as int) =~= base);
                    assert(states_model(self.st@, self.ed@).len() == self.st@.len());
                }
                let mut more: bool = true;
                while p != SAM_STATE_NONE && more
                    invariant
                        graph_ok(self.snap()),
                        log_ok(*tx, self.st@, self.ed@),
                        same_base(*old(tx), *tx),
                        self.last == g,
                        self.text@ == s0.text.push(ch),
                        self.boundary_after@ == s0.boundary_after.push(0),
                        self.text_states@ == s0.text_states,
                        self.rank@ == rank2,
                        n == m0.len(),
                        n == r,
                        n + 1 == u,
                        0 < q < n,
                        base.len() == n + 2,
                        self.st@.len() == n + 2,
                        forall|i: int| k <= i < path.len() ==> base[#[trigger] path[i]] == m0[path[i]],
                        links_ranked(m0, rank0),
                        0 <= g < n,
                        path == path_of(m0, g as int),
                        forall|i: int| 0 <= i < path.len() ==> 0 <= #[trigger] path[i] < n,
                        0 <= k <= j <= path.len(),
                        p == if j < path.len() {
                            path[j]
                        } else {
                            -1
                        },
                        states_model(self.st@, self.ed@) == with_edges(
                            base,
                            path.subrange(k, j),
                            ch,
                            u as int,
                        ),
                        forall|i: int|
                            k <= i < j ==> m0[#[trigger] path[i]].edges.contains_key(ch)
                                && m0[path[i]].edges[ch] == q,
                        !more ==> j < path.len() && !(m0[path[j]].edges.contains_key(ch)
                            && m0[path[j]].edges[ch] == q),
                    decreases path.len() - j, if more { 1int } else { 0int },
                {
                    let ghost now2 = states_model(self.st@, self.ed@);
                    proof {
                        lemma_path_next(m0, rank0, g as int, j);
                        lemma_path_distinct(m0, rank0, g as int, k, j);
                        assert(now2[p as int] == base[p as int]);
                        assert(base[path[j]] == m0[path[j]]);
                    }
                    let ghost before = self.snap();
                    more = self.replace_edge_to_tx(tx, p, ch, q, u);
                    if more {
                        proof {
                            lemma_model_edit(before, self.snap(), p as int, ch, u as int);
                            lemma_with_edges_step(base, path.subrange(k, j), p as int, ch, u as int);
                            assert(path.subrange(k, j).push(p as int) =~= path.subrange(k, j + 1));
                            j = j + 1;
                            assert(self.st@[p as int].link == states_model(
                                self.st@,
                                self.ed@,
                            )[p as int].link);
                        }
                        p = self.st[p as usize].link;
                    }
                }
                proof {
                    lemma_first_elsewhere(m0, path, ch, q as int, k, j);
                    assert(rank2[u as int] == rank1[q as int]);
                    assert(rank2[q as int] == rank1[q as int] + 1);
                    assert(rank2[r as int] == n + 1);
                    assert(rank0[q as int] < n) by {
                        assert(link_ok(s0.st, s0.rank, q as int));
                    }
                }
                self.link_state(tx, q, u);
                self.link_new_state(tx, r, u);
            }
        }
        self.last = r;
        self.text_states.push(r);
        proof {
            assert(self.st@.len() == states_model(self.st@, self.ed@).len());
            let goal = fed(snapshot_model(s0), ch);
            assert(self@.states == goal.states);
            assert(self@.text_states =~= goal.text_states);
            assert(self@ == goal);
        }
    }

    /// Appends one symbol.
    pub fn feed(&mut self, ch: u32)
        requires
            old(self).wf(),
            fits(fed(old(self)@, ch)),
        ensures
            final(self).wf(),
            final(self)@ == fed(old(self)@, ch),
    {
        let mut tx = self.begin_tx();
        self.feed_tx(&mut tx, ch);
    }

    /// Starts an undo log.
    pub fn begin_tx(&self) -> (tx: SamTx)
        requires
            self.wf(),
        ensures
            tx_ok(tx, self.snap()),
            tx.base@ == self.snap(),
    {
        SamTx {
            old_last: self.last,
            old_text_len: self.text.len(),
            old_text_states_len: self.text_states.len(),
            old_boundary_len: self.boundary_after.len(),
            old_st_len: self.st.len(),
            old_ed_len: self.ed.len(),
            st_changes: Vec::new(),
            ed_changes: Vec::new(),
            base: Ghost(self.snap()),
        }
    }
}


/// Target of the edge of state `v` labelled `ch`, found in the tables alone; -1 if there is none.
fn find_target(st: &Vec<SamState>, ed: &Vec<SamEdge>, v: usize, ch: u32) -> (to: i32)
    requires
        v < st@.len(),
        ed@.len() < u32::MAX,
        tables_usable(st@[v as int], ed@),
    ensures
        to == target(st@, ed@, v as int, ch),
{
    let s = st[v];
    let n: usize = s.small_n as usize;
    let mut i: usize = 0;
    while i < n
        invariant
            i <= n <= 4,
            n == s.small_n,
            s == st@[v as int],
            tables_usable(s, ed@),
            forall|j: int| 0 <= j < i ==> !slot_has(s, j, ch),
        decreases n - i,
    {
        if s.small_ch[i] == ch {
            assert(slot_has(s, i as int, ch));
            assert(s.small_to@[i as int] >= 0);
            return s.small_to[i];
        }
        assert(!slot_has(s, i as int, ch));
        i += 1;
    }
    assert(small_target(s, ch) == -1);
    let mut ei: u32 = s.head;
    while ei != SAM_EDGE_NONE
        invariant
            ed@.len() < u32::MAX,
            s == st@[v as int],
            tables_usable(s, ed@),
            small_target(s, ch) == -1,
            ei == SAM_EDGE_NONE || ei < ed@.len(),
            list_target(ed@, s.head, ch) == list_target(ed@, ei, ch),
        decreases if ei == SAM_EDGE_NONE {
            0
        } else {
            ei + 1
        },
    {
        let e = ed[ei as usize];
        assert(edge_usable(ed@, ei as int));
        if e.ch == ch {
            return e.to;
        }
        ei = e.next;
    }
    SAM_STATE_NONE
}

/// Edge `e` leads somewhere, and what follows it in its list is older.
pub open spec fn edge_usable(ed: Seq<SamEdge>, e: int) -> bool {
    ed[e].to >= 0 && (ed[e].next == SAM_EDGE_NONE || ed[e].next < e)
}

/// The edges of a state can be walked.
pub open spec fn tables_usable(s: SamState, ed: Seq<SamEdge>) -> bool {
    &&& s.small_n <= 4
    &&& forall|i: int| 0 <= i < s.small_n ==> 0 <= #[trigger] s.small_to@[i]
    &&& s.head == SAM_EDGE_NONE || s.head < ed.len()
    &&& forall|e: int| 0 <= e < ed.len() ==> #[trigger] edge_usable(ed, e)
}

/// Root cache rebuilt from the root's edges.
pub fn root_cache(st: &Vec<SamState>, ed: &Vec<SamEdge>) -> (root_to: Vec<i32>)
    requires
        st@.len() > 0,
        ed@.len() < u32::MAX,
        tables_usable(st@[0], ed@),
    ensures
        root_cache_ok(st@, ed@, root_to@),
{
    let mut root_to: Vec<i32> = Vec::new();
    while root_to.len() < 256
        invariant
            root_to@.len() <= 256,
            st@.len() > 0,
            ed@.len() < u32::MAX,
            tables_usable(st@[0], ed@),
            forall|c: u32|
                c < root_to@.len() ==> #[trigger] root_to@[c as int] as int == target(
                    st@,
                    ed@,
                    0,
                    c,
                ),
        decreases 256 - root_to@.len(),
    {
        let c: u32 = root_to.len() as u32;
        let to: i32 = find_target(st, ed, 0, c);
        root_to.push(to);
    }
    root_to
}

pub proof fn lemma_tables_usable(s: SamSnapshot, v: int)
    requires
        graph_wf(s.st, s.ed, s.owner, s.rank, s.text.len() as int),
        0 <= v < s.st.len(),
    ensures
        tables_usable(s.st[v], s.ed),
{
    assert(state_ok(s.st, s.ed, s.owner, s.text.len() as int, v));
    assert forall|e: int| 0 <= e < s.ed.len() implies #[trigger] edge_usable(s.ed, e) by {
        assert(edge_ok(s.st.len() as int, s.ed, s.owner, e));
    }
}

impl Sam {
    /// Puts the automaton back to where the log began.
    pub fn rollback_tx(&mut self, tx: SamTx)
        requires
            tx_ok(tx, old(self).snap()),
        ensures
            final(self).snap() == tx.base@,
            final(self).wf(),
    {
        let ghost base = tx.base@;
        let mut k: usize = tx.ed_changes.len();
        let ghost ed_all = undone(self.ed@, tx.ed_changes@);
        proof {
            assert(tx.ed_changes@.subrange(0, k as int) =~= tx.ed_changes@);
        }
        while k > 0
            invariant
                k <= tx.ed_changes@.len(),
                undone(self.ed@, tx.ed_changes@.subrange(0, k as int)) == ed_all,
                self.st@ == old(self).st@,
                self.text@ == old(self).text@,
                self.text_states@ == old(self).text_states@,
                self.boundary_after@ == old(self).boundary_after@,
            decreases k,
        {
            let ghost log = tx.ed_changes@.subrange(0, k as int);
            k -= 1;
            let (idx, before) = tx.ed_changes[k];
            assert(log.drop_last() =~= tx.ed_changes@.subrange(0, k as int));
            assert(log.last() == tx.ed_changes@[k as int]);
            if idx < self.ed.len() {
                self.ed.set(idx, before);
            }
        }
        let mut k: usize = tx.st_changes.len();
        let ghost st_all = undone(self.st@, tx.st_changes@);
        proof {
            assert(tx.ed_changes@.subrange(0, 0) =~= Seq::empty());
            assert(self.ed@ == ed_all);
            assert(tx.st_changes@.subrange(0, k as int) =~= tx.st_changes@);
        }
        while k > 0
            invariant
                k <= tx.st_changes@.len(),
                undone(self.st@, tx.st_changes@.subrange(0, k as int)) == st_all,
                self.ed@ == ed_all,
                self.text@ == old(self).text@,
                self.text_states@ == old(self).text_states@,
                self.boundary_after@ == old(self).boundary_after@,
            decreases k,
        {
            let ghost log = tx.st_changes@.subrange(0, k as int);
            k -= 1;
            let (idx, before) = tx.st_changes[k];
            assert(log.drop_last() =~= tx.st_changes@.subrange(0, k as int));
            assert(log.last() == tx.st_changes@[k as int]);
            if idx < self.st.len() {
                self.st.set(idx, before);
            }
        }
        proof {
            assert(tx.st_changes@.subrange(0, 0) =~= Seq::empty());
            assert(self.st@ == st_all);
        }
        self.st.truncate(tx.old_st_len);
        self.ed.truncate(tx.old_ed_len);
        self.text.truncate(tx.old_text_len);
        self.text_states.truncate(tx.old_text_states_len);
        self.boundary_after.truncate(tx.old_boundary_len);
        self.last = tx.old_last;
        proof {
            assert(self.st@ =~= base.st);
            assert(self.ed@ =~= base.ed);
            assert(self.text@ =~= base.text);
            assert(self.text_states@ =~= base.text_states);
            assert(self.boundary_after@ =~= base.boundary_after);
            self.owner@ = base.owner;
            self.rank@ = base.rank;
            lemma_tables_usable(base, 0);
        }
        self.root_to = root_cache(&self.st, &self.ed);
        proof {
            assert forall|c: int| 0 <= c < 256 implies self.root_to@[c] == base.root_to[c] by {
                let cu = c as u32;
                assert(self.root_to@[cu as int] as int == target(base.st, base.ed, 0, cu));
                assert(base.root_to[cu as int] as int == target(base.st, base.ed, 0, cu));
            }
            assert(self.root_to@ =~= base.root_to);
        }
    }

    /// Puts a boundary behind the last symbol.
    pub fn mark_boundary(&mut self)
        requires
            old(self).wf(),
        ensures
            final(self).wf(),
            final(self)@ == bounded(old(self)@),
            forall|tx: SamTx|
                #[trigger] tx_ok(tx, old(self).snap()) && tx.base@.text.len() < old(self).text@.len()
                    ==> tx_ok(tx, final(self).snap()),
            final(self).st@ == old(self).st@,
            final(self).ed@ == old(self).ed@,
            final(self).text@ == old(self).text@,
    {
        if self.text.len() > 0 {
            let i: usize = self.text.len() - 1;
            self.boundary_after.set(i, 1);
        }
        self.last = 0;
    }

    /// The same automaton once more.
    pub fn duplicate(&self) -> (copy: Sam)
        ensures
            copy.snap() == self.snap(),
    {
        let copy = Sam {
            st: self.st.clone(),
            ed: self.ed.clone(),
            last: self.last,
            root_to: self.root_to.clone(),
            text: self.text.clone(),
            text_states: self.text_states.clone(),
            boundary_after: self.boundary_after.clone(),
            owner: Ghost(self.owner@),
            rank: Ghost(self.rank@),
        };
        proof {
            assert(copy.st@ =~= self.st@);
            assert(copy.ed@ =~= self.ed@);
            assert(copy.root_to@ =~= self.root_to@);
            assert(copy.text@ =~= self.text@);
            assert(copy.text_states@ =~= self.text_states@);
            assert(copy.boundary_after@ =~= self.boundary_after@);
        }
        copy
    }
}

} // verus!
