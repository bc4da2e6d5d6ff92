//! Counts of the symbols that followed each context, with an undo log.
//!
//! A context that was followed by one symbol only keeps it in its own record; from the second
//! symbol on, the counts stand in a linked list of nodes, newest first.

use vstd::prelude::*;
use crate::backends::rosaplus::sam;

use crate::backends::rosaplus::nodes::{CountNode, LmNodes, LM_NODE_NONE};

verus! {

/// Record of one context.
#[derive(Clone, Copy, Debug, PartialEq, Eq)]
pub struct LmState {
    pub head: u32,
    pub total_n: u64,
    pub types_t: u32,
    pub last_sym: u32,
    pub last_node: u32,
}

/// What followed one context: how often each symbol did, and how often any did.
#[verifier::ext_equal]
pub struct TallyModel {
    pub counts: Map<u32, nat>,
    pub total: nat,
}

/// Counts of all contexts.
pub struct Tallies {
    pub ls: Vec<LmState>,
    pub nodes: LmNodes,
    /// Context whose list holds each node.
    pub owner: Ghost<Seq<int>>,
}

/// Contents of a [`Tallies`].
#[verifier::ext_equal]
pub struct TallySnapshot {
    pub ls: Seq<LmState>,
    pub nodes: Seq<CountNode>,
    pub owner: Seq<int>,
}

/// Undo log of a [`Tallies`] since [`Tallies::begin_log`].
pub struct TallyLog {
    pub old_ls_len: usize,
    pub old_nodes_len: usize,
    pub ls_changes: Vec<(usize, LmState)>,
    pub node_changes: Vec<(usize, CountNode)>,
    /// The counts when the log began.
    pub base: Ghost<TallySnapshot>,
}

// ---------------------------------------------------------------------------------------
// Mathematical model
// ---------------------------------------------------------------------------------------

/// A context that nothing followed.
pub open spec fn no_tally() -> TallyModel {
    TallyModel { counts: Map::empty(), total: 0 }
}

/// How often `sym` followed.
pub open spec fn count_in(t: TallyModel, sym: u32) -> nat {
    if t.counts.contains_key(sym) {
        t.counts[sym]
    } else {
        0
    }
}

/// `t` after `sym` followed `more` times.
pub open spec fn counted(t: TallyModel, sym: u32, more: nat) -> TallyModel {
    TallyModel { counts: t.counts.insert(sym, count_in(t, sym) + more), total: t.total + more }
}

/// `ts` after `sym` followed context `v` `more` times.
pub open spec fn bumped(ts: Seq<TallyModel>, v: int, sym: u32, more: nat) -> Seq<TallyModel> {
    ts.update(v, counted(ts[v], sym, more))
}

/// What followed `a` or `b`.
pub open spec fn merged(a: TallyModel, b: TallyModel) -> TallyModel {
    TallyModel {
        counts: Map::new(
            |sym: u32| a.counts.contains_key(sym) || b.counts.contains_key(sym),
            |sym: u32| count_in(a, sym) + count_in(b, sym),
        ),
        total: a.total + b.total,
    }
}

/// Nodes that one context takes.
pub open spec fn nodes_of(t: TallyModel) -> nat {
    if t.counts.dom().len() >= 2 {
        t.counts.dom().len()
    } else {
        0
    }
}

/// Nodes that all contexts take.
pub open spec fn nodes_needed(ts: Seq<TallyModel>) -> nat
    decreases ts.len(),
{
    if ts.len() == 0 {
        0
    } else {
        nodes_needed(ts.drop_last()) + nodes_of(ts.last())
    }
}

/// First node for `sym` in the list that starts at `ni`.
pub open spec fn seek(nodes: Seq<CountNode>, ni: u32, sym: u32) -> u32
    decreases ni,
{
    if ni >= nodes.len() {
        LM_NODE_NONE
    } else if nodes[ni as int].sym_idx == sym {
        ni
    } else if nodes[ni as int].next < ni {
        seek(nodes, nodes[ni as int].next, sym)
    } else {
        LM_NODE_NONE
    }
}

/// Counts in the list that starts at `ni`.
pub open spec fn list_counts(nodes: Seq<CountNode>, ni: u32) -> Map<u32, nat>
    decreases ni,
{
    if ni >= nodes.len() {
        Map::empty()
    } else {
        let node = nodes[ni as int];
        let behind = if node.next < ni {
            list_counts(nodes, node.next)
        } else {
            Map::empty()
        };
        behind.insert(node.sym_idx, node.cnt as nat)
    }
}

/// Sum of the counts in the list that starts at `ni`.
pub open spec fn list_sum(nodes: Seq<CountNode>, ni: u32) -> nat
    decreases ni,
{
    if ni >= nodes.len() {
        0
    } else {
        let node = nodes[ni as int];
        let behind = if node.next < ni {
            list_sum(nodes, node.next)
        } else {
            0
        };
        behind + node.cnt as nat
    }
}

/// What a record and the nodes say of a context.
pub open spec fn tally_of(s: LmState, nodes: Seq<CountNode>) -> TallyModel {
    TallyModel {
        counts: if s.head != LM_NODE_NONE {
            list_counts(nodes, s.head)
        } else if s.total_n > 0 {
            Map::empty().insert(s.last_sym, s.total_n as nat)
        } else {
            Map::empty()
        },
        total: s.total_n as nat,
    }
}

/// What the records and the nodes say of all contexts.
pub open spec fn tallies_of(ls: Seq<LmState>, nodes: Seq<CountNode>) -> Seq<TallyModel> {
    Seq::new(ls.len(), |v: int| tally_of(ls[v], nodes))
}

/// Node `e` counts something, what follows it in the list is older and of the same context,
/// and its symbol does not occur again behind it.
pub open spec fn node_ok(nodes: Seq<CountNode>, owner: Seq<int>, n: int, e: int) -> bool {
    let x = nodes[e];
    &&& x.cnt > 0
    &&& 0 <= owner[e] < n
    &&& x.next == LM_NODE_NONE || (x.next < e && owner[x.next as int] == owner[e])
    &&& seek(nodes, x.next, x.sym_idx) == LM_NODE_NONE
}

/// The record of context `v` agrees with its list.
pub open spec fn record_ok(
    s: LmState,
    nodes: Seq<CountNode>,
    owner: Seq<int>,
    v: int,
) -> bool {
    if s.head == LM_NODE_NONE {
        &&& s.last_node == LM_NODE_NONE
        &&& s.types_t == (if s.total_n > 0 {
            1int
        } else {
            0int
        })
    } else {
        &&& s.head < nodes.len()
        &&& owner[s.head as int] == v
        &&& s.total_n == list_sum(nodes, s.head)
        &&& s.types_t == list_counts(nodes, s.head).dom().len()
        &&& s.types_t >= 2
        &&& s.last_node == LM_NODE_NONE || (s.last_node < nodes.len() && seek(
            nodes,
            s.head,
            s.last_sym,
        ) == s.last_node)
    }
}

/// A snapshot is that of consistent counts.
pub open spec fn tallies_wf(s: TallySnapshot) -> bool {
    &&& s.nodes.len() <= u32::MAX
    &&& s.owner.len() == s.nodes.len()
    &&& s.nodes.len() == nodes_needed(tallies_of(s.ls, s.nodes))
    &&& forall|e: int|
        0 <= e < s.nodes.len() ==> #[trigger] node_ok(s.nodes, s.owner, s.ls.len() as int, e)
    &&& forall|v: int|
        #![trigger s.ls[v]]
        0 <= v < s.ls.len() ==> record_ok(s.ls[v], s.nodes, s.owner, v)
}

/// The log leads from `ls` and `nodes` back to the counts it began with.
pub open spec fn tally_log_ok(log: TallyLog, ls: Seq<LmState>, nodes: Seq<CountNode>) -> bool {
    &&& tallies_wf(log.base@)
    &&& log.old_ls_len == log.base@.ls.len()
    &&& log.old_nodes_len == log.base@.nodes.len()
    &&& sam::extends(sam::undone(ls, log.ls_changes@), log.base@.ls)
    &&& sam::extends(sam::undone(nodes, log.node_changes@), log.base@.nodes)
    &&& ls.len() >= log.base@.ls.len()
    &&& nodes.len() >= log.base@.nodes.len()
}

/// Two logs that began together.
pub open spec fn same_log(a: TallyLog, b: TallyLog) -> bool {
    &&& a.old_ls_len == b.old_ls_len
    &&& a.old_nodes_len == b.old_nodes_len
    &&& a.base@ == b.base@
}

// ---------------------------------------------------------------------------------------
// Facts about lists
// ---------------------------------------------------------------------------------------

proof fn lemma_seek(nodes: Seq<CountNode>, ni: u32, sym: u32)
    requires
        nodes.len() <= u32::MAX,
    ensures
        list_counts(nodes, ni).dom().finite(),
        list_counts(nodes, ni).contains_key(sym) <==> seek(nodes, ni, sym) != LM_NODE_NONE,
        seek(nodes, ni, sym) != LM_NODE_NONE ==> {
            let at = seek(nodes, ni, sym);
            &&& at < nodes.len()
            &&& at <= ni
            &&& nodes[at as int].sym_idx == sym
            &&& list_counts(nodes, ni)[sym] == nodes[at as int].cnt
            &&& nodes[at as int].cnt <= list_sum(nodes, ni)
        },
    decreases ni,
{
    if ni < nodes.len() && nodes[ni as int].next < ni {
        lemma_seek(nodes, nodes[ni as int].next, sym);
    }
}

proof fn lemma_list_prefix(a: Seq<CountNode>, b: Seq<CountNode>, ni: u32)
    requires
        ni < a.len(),
        ni < b.len(),
        forall|i: int| 0 <= i <= ni ==> a[i] == b[i],
    ensures
        list_counts(a, ni) == list_counts(b, ni),
        list_sum(a, ni) == list_sum(b, ni),
        forall|sym: u32| #[trigger] seek(a, ni, sym) == seek(b, ni, sym),
    decreases ni,
{
    let next = a[ni as int].next;
    assert(a[ni as int] == b[ni as int]);
    if next < ni {
        lemma_list_prefix(a, b, next);
    }
    assert forall|sym: u32| #[trigger] seek(a, ni, sym) == seek(b, ni, sym) by {
        if next < ni {
            assert(seek(a, next, sym) == seek(b, next, sym));
        }
    }
}

/// A list of another context does not see a change of count in node `at`.
proof fn lemma_list_other(
    nodes: Seq<CountNode>,
    owner: Seq<int>,
    n: int,
    at: int,
    x: CountNode,
    ni: u32,
)
    requires
        nodes.len() <= u32::MAX,
        owner.len() == nodes.len(),
        0 <= at < nodes.len(),
        ni < nodes.len(),
        owner[ni as int] != owner[at],
        forall|e: int| 0 <= e < nodes.len() ==> #[trigger] node_ok(nodes, owner, n, e),
    ensures
        list_counts(nodes.update(at, x), ni) == list_counts(nodes, ni),
        list_sum(nodes.update(at, x), ni) == list_sum(nodes, ni),
    decreases ni,
{
    assert(node_ok(nodes, owner, n, ni as int));
    let next = nodes[ni as int].next;
    if next < ni {
        lemma_list_other(nodes, owner, n, at, x, next);
    }
}

proof fn lemma_seek_kept(nodes: Seq<CountNode>, at: int, x: CountNode, ni: u32, sym: u32)
    requires
        0 <= at < nodes.len(),
        x.sym_idx == nodes[at].sym_idx,
        x.next == nodes[at].next,
    ensures
        seek(nodes.update(at, x), ni, sym) == seek(nodes, ni, sym),
    decreases ni,
{
    if ni < nodes.len() && nodes[ni as int].next < ni {
        lemma_seek_kept(nodes, at, x, nodes[ni as int].next, sym);
    }
}

/// Raising the count of the node that stands for a symbol raises it in its list.
proof fn lemma_list_raise(nodes: Seq<CountNode>, at: u32, more: u64, ni: u32)
    requires
        nodes.len() <= u32::MAX,
        at < nodes.len(),
        seek(nodes, ni, nodes[at as int].sym_idx) == at,
        nodes[at as int].cnt + more <= u64::MAX,
    ensures
        ({
            let node = nodes[at as int];
            let x = CountNode { cnt: (node.cnt + more) as u64, ..node };
            let raised = nodes.update(at as int, x);
            &&& list_counts(raised, ni) == list_counts(nodes, ni).insert(
                node.sym_idx,
                (node.cnt + more) as nat,
            )
            &&& list_sum(raised, ni) == list_sum(nodes, ni) + more
        }),
    decreases ni,
{
    let node = nodes[at as int];
    let x = CountNode { cnt: (node.cnt + more) as u64, ..node };
    let raised = nodes.update(at as int, x);
    let next = nodes[ni as int].next;
    if ni == at {
        if next < ni {
            lemma_list_prefix(raised, nodes, next);
        }
        assert(list_counts(raised, ni) =~= list_counts(nodes, ni).insert(
            node.sym_idx,
            (node.cnt + more) as nat,
        ));
    } else {
        lemma_list_raise(nodes, at, more, next);
        assert(list_counts(raised, ni) =~= list_counts(nodes, ni).insert(
            node.sym_idx,
            (node.cnt + more) as nat,
        ));
    }
}

proof fn lemma_needed_update(ts: Seq<TallyModel>, v: int, t: TallyModel)
    requires
        0 <= v < ts.len(),
    ensures
        nodes_needed(ts.update(v, t)) + nodes_of(ts[v]) == nodes_needed(ts) + nodes_of(t),
    decreases ts.len(),
{
    let us = ts.update(v, t);
    if v == ts.len() - 1 {
        assert(us.drop_last() =~= ts.drop_last());
    } else {
        assert(us.drop_last() =~= ts.drop_last().update(v, t));
        lemma_needed_update(ts.drop_last(), v, t);
    }
}

/// Contexts that nothing followed take no nodes.
proof fn lemma_needed_push(ts: Seq<TallyModel>, t: TallyModel)
    ensures
        nodes_needed(ts.push(t)) == nodes_needed(ts) + nodes_of(t),
{
    assert(ts.push(t).drop_last() =~= ts);
}

proof fn lemma_needed_part(ts: Seq<TallyModel>, v: int)
    requires
        0 <= v < ts.len(),
    ensures
        nodes_of(ts[v]) <= nodes_needed(ts),
    decreases ts.len(),
{
    if v < ts.len() - 1 {
        lemma_needed_part(ts.drop_last(), v);
    }
}

/// Every symbol that `a` counts, `b` counts too.
pub open spec fn tally_within(a: TallyModel, b: TallyModel) -> bool {
    b.counts.dom().finite() && a.counts.dom().subset_of(b.counts.dom())
}

/// Counts that grow take no fewer nodes.
pub proof fn lemma_needed_grows(a: Seq<TallyModel>, b: Seq<TallyModel>)
    requires
        a.len() == b.len(),
        forall|v: int| 0 <= v < a.len() ==> #[trigger] tally_within(a[v], b[v]),
    ensures
        nodes_needed(a) <= nodes_needed(b),
    decreases a.len(),
{
    if a.len() > 0 {
        let n = a.len() - 1;
        assert(tally_within(a[n], b[n]));
        vstd::set_lib::lemma_len_subset(a[n].counts.dom(), b[n].counts.dom());
        assert forall|v: int| 0 <= v < n implies #[trigger] tally_within(
            a.drop_last()[v],
            b.drop_last()[v],
        ) by {
            assert(tally_within(a[v], b[v]));
        }
        lemma_needed_grows(a.drop_last(), b.drop_last());
    }
}

/// What is known of a list node's counts in every consistent state.
proof fn lemma_list_record(s: TallySnapshot, v: int, sym: u32)
    requires
        tallies_wf(s),
        0 <= v < s.ls.len(),
    ensures
        tally_of(s.ls[v], s.nodes).counts.dom().finite(),
        tally_of(s.ls[v], s.nodes).counts.dom().len() == s.ls[v].types_t,
        count_in(tally_of(s.ls[v], s.nodes), sym) <= s.ls[v].total_n,
{
    assert(record_ok(s.ls[v], s.nodes, s.owner, v));
    if s.ls[v].head != LM_NODE_NONE {
        lemma_seek(s.nodes, s.ls[v].head, sym);
    } else if s.ls[v].total_n > 0 {
        let m: Map<u32, nat> = Map::empty().insert(s.ls[v].last_sym, s.ls[v].total_n as nat);
        assert(m.dom() =~= Set::empty().insert(s.ls[v].last_sym));
    } else {
        assert(Map::<u32, nat>::empty().dom() =~= Set::empty());
    }
}

/// A change of one record that leaves the nodes alone.
proof fn lemma_record_changed(a: TallySnapshot, v: int, s: LmState, sym: u32, more: nat)
    requires
        tallies_wf(a),
        0 <= v < a.ls.len(),
        record_ok(s, a.nodes, a.owner, v),
        tally_of(s, a.nodes) == counted(tally_of(a.ls[v], a.nodes), sym, more),
        nodes_of(tally_of(s, a.nodes)) == nodes_of(tally_of(a.ls[v], a.nodes)),
    ensures
        ({
            let b = TallySnapshot { ls: a.ls.update(v, s), ..a };
            &&& tallies_wf(b)
            &&& tallies_of(b.ls, b.nodes) == bumped(tallies_of(a.ls, a.nodes), v, sym, more)
        }),
{
    let b = TallySnapshot { ls: a.ls.update(v, s), ..a };
    let ts = tallies_of(a.ls, a.nodes);
    assert(tallies_of(b.ls, b.nodes) =~= bumped(ts, v, sym, more));
    lemma_needed_update(ts, v, counted(ts[v], sym, more));
    assert forall|w: int| #![trigger b.ls[w]] 0 <= w < b.ls.len() implies record_ok(
        b.ls[w],
        b.nodes,
        b.owner,
        w,
    ) by {
        assert(a.ls[w] == a.ls[w]);
    }
}

/// A raise of the count of one node of the list of `v`.
proof fn lemma_node_raised(a: TallySnapshot, v: int, at: u32, s: LmState, more: u64)
    requires
        tallies_wf(a),
        0 <= v < a.ls.len(),
        a.ls[v].head != LM_NODE_NONE,
        at < a.nodes.len(),
        seek(a.nodes, a.ls[v].head, a.nodes[at as int].sym_idx) == at,
        a.ls[v].total_n + more <= u64::MAX,
        s.head == a.ls[v].head,
        s.total_n == a.ls[v].total_n + more,
        s.types_t == a.ls[v].types_t,
        s.last_node == at,
        s.last_sym == a.nodes[at as int].sym_idx,
    ensures
        ({
            let node = a.nodes[at as int];
            let x = CountNode { cnt: (node.cnt + more) as u64, ..node };
            let b = TallySnapshot {
                ls: a.ls.update(v, s),
                nodes: a.nodes.update(at as int, x),
                owner: a.owner,
            };
            &&& node.cnt + more <= u64::MAX
            &&& a.owner[at as int] == v
            &&& tallies_wf(b)
            &&& tallies_of(b.ls, b.nodes) == bumped(
                tallies_of(a.ls, a.nodes),
                v,
                node.sym_idx,
                more as nat,
            )
        }),
{
    let n = a.ls.len() as int;
    let node = a.nodes[at as int];
    let sym = node.sym_idx;
    let head = a.ls[v].head;
    let x = CountNode { cnt: (node.cnt + more) as u64, ..node };
    let b = TallySnapshot {
        ls: a.ls.update(v, s),
        nodes: a.nodes.update(at as int, x),
        owner: a.owner,
    };
    let ts = tallies_of(a.ls, a.nodes);
    assert(record_ok(a.ls[v], a.nodes, a.owner, v));
    lemma_seek(a.nodes, head, sym);
    lemma_list_raise(a.nodes, at, more, head);
    lemma_seek_owner(a, head, sym);
    assert forall|e: int| 0 <= e < b.nodes.len() implies #[trigger] node_ok(
        b.nodes,
        b.owner,
        n,
        e,
    ) by {
        assert(node_ok(a.nodes, a.owner, n, e));
        lemma_seek_kept(a.nodes, at as int, x, a.nodes[e].next, a.nodes[e].sym_idx);
    }
    assert(list_counts(b.nodes, head).dom() =~= list_counts(a.nodes, head).dom());
    assert forall|w: int| #![trigger b.ls[w]] 0 <= w < n implies record_ok(
        b.ls[w],
        b.nodes,
        b.owner,
        w,
    ) by {
        assert(record_ok(a.ls[w], a.nodes, a.owner, w));
        lemma_seek_kept(a.nodes, at as int, x, b.ls[w].head, b.ls[w].last_sym);
        if w != v && a.ls[w].head != LM_NODE_NONE {
            lemma_list_other(a.nodes, a.owner, n, at as int, x, a.ls[w].head);
        }
    }
    let us = tallies_of(b.ls, b.nodes);
    assert forall|w: int| 0 <= w < n implies #[trigger] us[w] == bumped(
        ts,
        v,
        sym,
        more as nat,
    )[w] by {
        assert(record_ok(a.ls[w], a.nodes, a.owner, w));
        if w != v && a.ls[w].head != LM_NODE_NONE {
            lemma_list_other(a.nodes, a.owner, n, at as int, x, a.ls[w].head);
        }
    }
    assert(us =~= bumped(ts, v, sym, more as nat));
    lemma_needed_update(ts, v, counted(ts[v], sym, more as nat));
}

proof fn lemma_seek_owner(a: TallySnapshot, ni: u32, sym: u32)
    requires
        tallies_wf(a),
        ni < a.nodes.len(),
        seek(a.nodes, ni, sym) != LM_NODE_NONE,
    ensures
        seek(a.nodes, ni, sym) < a.nodes.len(),
        a.owner[seek(a.nodes, ni, sym) as int] == a.owner[ni as int],
    decreases ni,
{
    assert(node_ok(a.nodes, a.owner, a.ls.len() as int, ni as int));
    let next = a.nodes[ni as int].next;
    if a.nodes[ni as int].sym_idx != sym && next < ni {
        lemma_seek_owner(a, next, sym);
    }
}

/// One more node for `v`, in front of its list.
proof fn lemma_node_pushed(
    nodes: Seq<CountNode>,
    owner: Seq<int>,
    n: int,
    v: int,
    x: CountNode,
)
    requires
        nodes.len() < u32::MAX,
        owner.len() == nodes.len(),
        0 <= v < n,
        forall|e: int| 0 <= e < nodes.len() ==> #[trigger] node_ok(nodes, owner, n, e),
        x.cnt > 0,
        x.next == LM_NODE_NONE || (x.next < nodes.len() && owner[x.next as int] == v),
        seek(nodes, x.next, x.sym_idx) == LM_NODE_NONE,
    ensures
        forall|e: int|
            0 <= e < nodes.len() + 1 ==> #[trigger] node_ok(nodes.push(x), owner.push(v), n, e),
        forall|ni: u32|
            ni < nodes.len() || ni == LM_NODE_NONE ==> #[trigger] list_counts(nodes.push(x), ni)
                == list_counts(nodes, ni),
        forall|ni: u32|
            ni < nodes.len() || ni == LM_NODE_NONE ==> #[trigger] list_sum(nodes.push(x), ni)
                == list_sum(nodes, ni),
        forall|ni: u32, sym: u32|
            ni < nodes.len() || ni == LM_NODE_NONE ==> #[trigger] seek(nodes.push(x), ni, sym)
                == seek(nodes, ni, sym),
        list_counts(nodes.push(x), nodes.len() as u32) == list_counts(nodes, x.next).insert(
            x.sym_idx,
            x.cnt as nat,
        ),
        list_sum(nodes.push(x), nodes.len() as u32) == list_sum(nodes, x.next) + x.cnt,
        seek(nodes.push(x), nodes.len() as u32, x.sym_idx) == nodes.len(),
{
    let more = nodes.push(x);
    let top = nodes.len() as u32;
    assert(more[top as int] == x);
    assert(list_counts(nodes, LM_NODE_NONE) == Map::<u32, nat>::empty());
    assert(list_sum(nodes, LM_NODE_NONE) == 0);
    assert(x.next < top || x.next == LM_NODE_NONE);
    assert forall|ni: u32| ni < nodes.len() || ni == LM_NODE_NONE implies #[trigger] list_counts(
        more,
        ni,
    ) == list_counts(nodes, ni) && list_sum(more, ni) == list_sum(nodes, ni) by {
        if ni < nodes.len() {
            lemma_list_prefix(more, nodes, ni);
        }
    }
    assert forall|ni: u32| ni < nodes.len() || ni == LM_NODE_NONE implies #[trigger] list_sum(
        more,
        ni,
    ) == list_sum(nodes, ni) by {
        if ni < nodes.len() {
            lemma_list_prefix(more, nodes, ni);
        }
    }
    assert forall|ni: u32, sym: u32|
        ni < nodes.len() || ni == LM_NODE_NONE implies #[trigger] seek(more, ni, sym) == seek(
        nodes,
        ni,
        sym,
    ) by {
        if ni < nodes.len() {
            lemma_list_prefix(more, nodes, ni);
        }
    }
    if x.next < top {
        lemma_list_prefix(more, nodes, x.next);
    } else {
        assert(!(x.next < top));
    }
    assert(list_counts(more, top) =~= list_counts(nodes, x.next).insert(x.sym_idx, x.cnt as nat));
    assert(list_sum(more, top) == list_sum(nodes, x.next) + x.cnt);
    assert forall|e: int| 0 <= e < nodes.len() + 1 implies #[trigger] node_ok(
        more,
        owner.push(v),
        n,
        e,
    ) by {
        if e < nodes.len() {
            assert(node_ok(nodes, owner, n, e));
        }
    }
}

/// The front node of a list counts a symbol that does not occur behind it.
pub proof fn lemma_list_front(a: TallySnapshot, ni: u32)
    requires
        tallies_wf(a),
        ni < a.nodes.len(),
    ensures
        ({
            let node = a.nodes[ni as int];
            &&& list_counts(a.nodes, ni) == list_counts(a.nodes, node.next).insert(
                node.sym_idx,
                node.cnt as nat,
            )
            &&& list_counts(a.nodes, node.next).dom().finite()
            &&& list_counts(a.nodes, ni).dom().len() == list_counts(
                a.nodes,
                node.next,
            ).dom().len() + 1
        }),
{
    let node = a.nodes[ni as int];
    assert(node_ok(a.nodes, a.owner, a.ls.len() as int, ni as int));
    lemma_seek(a.nodes, node.next, node.sym_idx);
    assert(list_counts(a.nodes, LM_NODE_NONE) == Map::<u32, nat>::empty());
    assert(list_counts(a.nodes, ni).dom() =~= list_counts(a.nodes, node.next).dom().insert(
        node.sym_idx,
    ));
}

/// Every context counts finitely many symbols, and as many as its record says.
pub proof fn lemma_finite_tally(s: TallySnapshot, v: int)
    requires
        tallies_wf(s),
        0 <= v < s.ls.len(),
    ensures
        tally_of(s.ls[v], s.nodes).counts.dom().finite(),
        tally_of(s.ls[v], s.nodes).counts.dom().len() == s.ls[v].types_t,
{
    lemma_list_record(s, v, 0);
}

/// What is left of the list at `ni` while it is handed to another context.
spec fn handed(
    c: TallyModel,
    before: TallyModel,
    from: TallyModel,
    nodes: Seq<CountNode>,
    ni: u32,
) -> bool {
    let left = TallyModel { counts: list_counts(nodes, ni), total: list_sum(nodes, ni) };
    &&& c.total + left.total == before.total + from.total
    &&& forall|sym: u32|
        #![trigger c.counts.contains_key(sym)]
        #![trigger count_in(c, sym)]
        {
            &&& count_in(c, sym) + count_in(left, sym) == count_in(before, sym) + count_in(
                from,
                sym,
            )
            &&& (c.counts.contains_key(sym) || left.counts.contains_key(sym)) == (
            before.counts.contains_key(sym) || from.counts.contains_key(sym))
        }
}

// ---------------------------------------------------------------------------------------
// Facts about the log
// ---------------------------------------------------------------------------------------

proof fn lemma_tally_log_state(
    t1: TallyLog,
    t2: TallyLog,
    ls: Seq<LmState>,
    nodes: Seq<CountNode>,
    v: usize,
    s: LmState,
)
    requires
        tally_log_ok(t1, ls, nodes),
        same_log(t1, t2),
        v < ls.len(),
        t2.ls_changes@ == t1.ls_changes@.push((v, ls[v as int])),
        t2.node_changes@ == t1.node_changes@,
    ensures
        tally_log_ok(t2, ls.update(v as int, s), nodes),
{
    sam::lemma_undone_record(ls, t1.ls_changes@, v, s);
}

proof fn lemma_tally_log_node(
    t1: TallyLog,
    t2: TallyLog,
    ls: Seq<LmState>,
    nodes: Seq<CountNode>,
    e: usize,
    x: CountNode,
)
    requires
        tally_log_ok(t1, ls, nodes),
        same_log(t1, t2),
        e < nodes.len(),
        t2.node_changes@ == t1.node_changes@.push((e, nodes[e as int])),
        t2.ls_changes@ == t1.ls_changes@,
    ensures
        tally_log_ok(t2, ls, nodes.update(e as int, x)),
{
    sam::lemma_undone_record(nodes, t1.node_changes@, e, x);
}

proof fn lemma_tally_log_push(
    log: TallyLog,
    ls: Seq<LmState>,
    nodes: Seq<CountNode>,
    x: CountNode,
)
    requires
        tally_log_ok(log, ls, nodes),
    ensures
        tally_log_ok(log, ls, nodes.push(x)),
{
    sam::lemma_undone_len(nodes, log.node_changes@);
    sam::lemma_undone_len(nodes.push(x), log.node_changes@);
    sam::lemma_undone_agree(nodes.push(x), nodes, log.node_changes@, nodes.len() as int);
}

proof fn lemma_tally_log_grow(
    log: TallyLog,
    ls: Seq<LmState>,
    nodes: Seq<CountNode>,
    s: LmState,
)
    requires
        tally_log_ok(log, ls, nodes),
    ensures
        tally_log_ok(log, ls.push(s), nodes),
{
    sam::lemma_undone_len(ls, log.ls_changes@);
    sam::lemma_undone_len(ls.push(s), log.ls_changes@);
    sam::lemma_undone_agree(ls.push(s), ls, log.ls_changes@, ls.len() as int);
}

// ---------------------------------------------------------------------------------------
// Operations
// ---------------------------------------------------------------------------------------

/// Record of a context that nothing followed.
pub fn blank_record() -> (s: LmState)
    ensures
        s.head == LM_NODE_NONE,
        s.total_n == 0,
        s.types_t == 0,
        s.last_sym == 0,
        s.last_node == LM_NODE_NONE,
{
    LmState { head: LM_NODE_NONE, total_n: 0, types_t: 0, last_sym: 0, last_node: LM_NODE_NONE }
}

/// Whether a record stands for one symbol without a list.
pub fn is_implicit_single(s: &LmState) -> (b: bool)
    ensures
        b == (s.head == LM_NODE_NONE && s.types_t == 1 && s.total_n > 0),
{
    s.head == LM_NODE_NONE && s.types_t == 1 && s.total_n > 0
}

impl View for Tallies {
    type V = Seq<TallyModel>;

    open spec fn view(&self) -> Seq<TallyModel> {
        tallies_of(self.ls@, self.nodes@)
    }
}

impl Tallies {
    /// Contents.
    pub open spec fn snap(&self) -> TallySnapshot {
        TallySnapshot { ls: self.ls@, nodes: self.nodes@, owner: self.owner@ }
    }

    /// The counts are consistent.
    pub open spec fn wf(&self) -> bool {
        self.nodes.wf() && tallies_wf(self.snap())
    }

    /// No contexts.
    pub fn new() -> (tallies: Tallies)
        ensures
            tallies.wf(),
            tallies@ == Seq::<TallyModel>::empty(),
    {
        let ghost none: Seq<int> = Seq::empty();
        let tallies = Tallies { ls: Vec::new(), nodes: LmNodes::new(), owner: Ghost(none) };
        proof {
            assert(tallies@ =~= Seq::<TallyModel>::empty());
        }
        tallies
    }

    /// Adds contexts that nothing followed until there are `n`.
    pub fn grow_tx(&mut self, log: &mut TallyLog, n: usize)
        requires
            old(self).wf(),
            n >= old(self).ls@.len(),
            tally_log_ok(*old(log), old(self).ls@, old(self).nodes@),
        ensures
            final(self).wf(),
            final(self).ls@.len() == n,
            final(self)@ == old(self)@ + Seq::new(
                (n - old(self)@.len()) as nat,
                |i: int| no_tally(),
            ),
            same_log(*final(log), *old(log)),
            tally_log_ok(*final(log), final(self).ls@, final(self).nodes@),
    {
        let ghost first = old(self)@.len();
        proof {
            assert(self@ =~= old(self)@ + Seq::new(0nat, |i: int| no_tally()));
        }
        while self.ls.len() < n
            invariant
                self.wf(),
                n >= self.ls@.len() >= first,
                self@ == old(self)@ + Seq::new(
                    (self.ls@.len() - first) as nat,
                    |i: int| no_tally(),
                ),
                *log == *old(log),
                tally_log_ok(*log, self.ls@, self.nodes@),
            decreases n - self.ls@.len(),
        {
            let s = blank_record();
            let ghost before = *self;
            proof {
                lemma_tally_log_grow(*log, self.ls@, self.nodes@, s);
            }
            self.ls.push(s);
            proof {
                assert(tally_of(s, self.nodes@) == no_tally());
                assert(self@ =~= before@.push(no_tally()));
                lemma_needed_push(before@, no_tally());
                assert(Map::<u32, nat>::empty().dom() =~= Set::empty());
                assert forall|e: int| 0 <= e < self.nodes@.len() implies #[trigger] node_ok(
                    self.nodes@,
                    self.owner@,
                    self.ls@.len() as int,
                    e,
                ) by {
                    assert(node_ok(before.nodes@, before.owner@, before.ls@.len() as int, e));
                }
                assert forall|v: int| #![trigger self.ls@[v]] 0 <= v < self.ls@.len() implies record_ok(
                    self.ls@[v],
                    self.nodes@,
                    self.owner@,
                    v,
                ) by {
                    if v < before.ls@.len() {
                        assert(before.ls@[v] == self.ls@[v]);
                    }
                }
                assert(self@ =~= old(self)@ + Seq::new(
                    (self.ls@.len() - first) as nat,
                    |i: int| no_tally(),
                ));
            }
        }
    }

    /// Starts a log at the present counts.
    pub fn begin_log(&self) -> (log: TallyLog)
        requires
            self.wf(),
        ensures
            log.base@ == self.snap(),
            tally_log_ok(log, self.ls@, self.nodes@),
    {
        TallyLog {
            old_ls_len: self.ls.len(),
            old_nodes_len: self.nodes.len(),
            ls_changes: Vec::new(),
            node_changes: Vec::new(),
            base: Ghost(self.snap()),
        }
    }

    /// Counts `more` occurrences of `sym` behind context `state`.
    pub fn inc_tx(&mut self, log: &mut TallyLog, state: usize, sym: u32, more: u64)
        requires
            old(self).wf(),
            state < old(self).ls@.len(),
            more > 0,
            old(self)@[state as int].total + more <= u64::MAX,
            nodes_needed(bumped(old(self)@, state as int, sym, more as nat)) <= u32::MAX,
            tally_log_ok(*old(log), old(self).ls@, old(self).nodes@),
        ensures
            final(self).wf(),
            final(self)@ == bumped(old(self)@, state as int, sym, more as nat),
            final(self).ls@.len() == old(self).ls@.len(),
            same_log(*final(log), *old(log)),
            tally_log_ok(*final(log), final(self).ls@, final(self).nodes@),
            sam::extends(final(self).owner@, old(self).owner@),
            forall|w: int|
                #![trigger final(self).ls@[w]]
                0 <= w < old(self).ls@.len() && w != state ==> final(self).ls@[w] == old(self).ls@[w],
            forall|e: int|
                #![trigger final(self).nodes@[e]]
                0 <= e < old(self).nodes@.len() && old(self).owner@[e] != state ==> final(self).nodes@[e] == old(self).nodes@[e],
    {
        let ghost a = self.snap();
        let ghost v = state as int;
        let ghost ts = self@;
        let ghost n = self.ls@.len() as int;
        let ghost log0 = *log;
        let mut s: LmState = self.ls[state];
        log.ls_changes.push((state, s));
        let ghost logged = *log;
        proof {
            assert(record_ok(a.ls[v], a.nodes, a.owner, v));
            lemma_list_record(a, v, sym);
            lemma_needed_update(ts, v, counted(ts[v], sym, more as nat));
        }
        if s.head == LM_NODE_NONE {
            if s.total_n == 0 {
                s.total_n = more;
                s.types_t = 1;
                s.last_sym = sym;
                s.last_node = LM_NODE_NONE;
                self.ls.set(state, s);
                proof {
                    lemma_tally_log_state(log0, logged, a.ls, a.nodes, state, s);
                    assert(tally_of(s, a.nodes).counts =~= counted(
                        ts[v],
                        sym,
                        more as nat,
                    ).counts);
                    let m: Map<u32, nat> = Map::empty().insert(sym, more as nat);
                    assert(m.dom() =~= Set::empty().insert(sym));
                    lemma_record_changed(a, v, s, sym, more as nat);
                }
                return ;
            }
            if s.last_sym == sym {
                s.total_n = s.total_n + more;
                s.last_node = LM_NODE_NONE;
                self.ls.set(state, s);
                proof {
                    lemma_tally_log_state(log0, logged, a.ls, a.nodes, state, s);
                    assert(tally_of(s, a.nodes).counts =~= counted(
                        ts[v],
                        sym,
                        more as nat,
                    ).counts);
                    let m: Map<u32, nat> = Map::empty().insert(sym, s.total_n as nat);
                    assert(m.dom() =~= Set::empty().insert(sym));
                    lemma_record_changed(a, v, s, sym, more as nat);
                }
                return ;
            }
            proof {
                let t2 = counted(ts[v], sym, more as nat);
                assert(t2.counts.dom() =~= Set::empty().insert(s.last_sym).insert(sym));
                assert(nodes_of(t2) == 2);
                assert(nodes_of(ts[v]) == 0);
            }
            let old_idx: u32 = self.nodes.len() as u32;
            let single = CountNode { sym_idx: s.last_sym, cnt: s.total_n, next: LM_NODE_NONE };
            let ghost s0 = s;
            proof {
                lemma_node_pushed(a.nodes, a.owner, n, v, single);
            }
            self.nodes.push(single);
            let ghost mid = self.nodes@;
            let new_idx: u32 = self.nodes.len() as u32;
            let fresh = CountNode { sym_idx: sym, cnt: more, next: old_idx };
            proof {
                assert(mid[old_idx as int] == single);
                assert(seek(mid, old_idx, sym) == LM_NODE_NONE);
                lemma_node_pushed(mid, a.owner.push(v), n, v, fresh);
            }
            self.nodes.push(fresh);
            s.head = new_idx;
            s.total_n = s.total_n + more;
            s.types_t = 2;
            s.last_node = new_idx;
            s.last_sym = sym;
            self.ls.set(state, s);
            proof {
                self.owner@ = a.owner.push(v).push(v);
                let b = self.snap();
                lemma_tally_log_push(log0, a.ls, a.nodes, single);
                lemma_tally_log_push(log0, a.ls, mid, fresh);
                lemma_tally_log_state(log0, logged, a.ls, b.nodes, state, s);
                assert(b.nodes == mid.push(fresh));
                assert(list_counts(a.nodes, LM_NODE_NONE) =~= Map::empty());
                assert(list_counts(mid, old_idx) =~= Map::empty().insert(
                    s0.last_sym,
                    s0.total_n as nat,
                ));
                assert(list_counts(b.nodes, new_idx) =~= counted(
                    ts[v],
                    sym,
                    more as nat,
                ).counts);
                assert forall|w: int| #![trigger b.ls[w]] 0 <= w < n implies record_ok(
                    b.ls[w],
                    b.nodes,
                    b.owner,
                    w,
                ) by {
                    assert(record_ok(a.ls[w], a.nodes, a.owner, w));
                }
                let us = tallies_of(b.ls, b.nodes);
                assert forall|w: int| 0 <= w < n implies #[trigger] us[w] == bumped(
                    ts,
                    v,
                    sym,
                    more as nat,
                )[w] by {
                    assert(record_ok(a.ls[w], a.nodes, a.owner, w));
                }
                assert(us =~= bumped(ts, v, sym, more as nat));
            }
            return ;
        }
        let last: u32 = s.last_node;
        if last != LM_NODE_NONE && self.nodes.sym_idx(last as usize) == sym {
            let at: usize = last as usize;
            let was = self.nodes.get(at);
            log.node_changes.push((at, was));
            s.total_n = s.total_n + more;
            proof {
                lemma_seek(a.nodes, s.head, s.last_sym);
                lemma_node_raised(a, v, last, s, more);
                let x = CountNode { cnt: (was.cnt + more) as u64, ..was };
                lemma_tally_log_state(log0, logged, a.ls, a.nodes, state, s);
                lemma_tally_log_node(logged, *log, a.ls.update(v, s), a.nodes, at, x);
            }
            self.nodes.add_cnt(at, more);
            self.ls.set(state, s);
            return ;
        }
        let mut ni: u32 = s.head;
        while ni != LM_NODE_NONE
            invariant
                a == old(self).snap(),
                v == state,
                n == a.ls.len(),
                ts == old(self)@,
                log0 == *old(log),
                logged == *log,
                self.wf(),
                *self == *old(self),
                s == a.ls[v],
                state < a.ls.len(),
                s.head != LM_NODE_NONE,
                s.head < a.nodes.len(),
                more > 0,
                ts[v].total + more <= u64::MAX,
                ni == LM_NODE_NONE || ni < a.nodes.len(),
                seek(a.nodes, s.head, sym) == seek(a.nodes, ni, sym),
                tally_log_ok(log0, a.ls, a.nodes),
                same_log(log0, logged),
                logged.ls_changes@ == log0.ls_changes@.push((state, s)),
                logged.node_changes@ == log0.node_changes@,
            decreases if ni == LM_NODE_NONE {
                0int
            } else {
                ni + 1
            },
        {
            let idx: usize = ni as usize;
            proof {
                assert(node_ok(a.nodes, a.owner, n, idx as int));
            }
            if self.nodes.sym_idx(idx) == sym {
                let was = self.nodes.get(idx);
                log.node_changes.push((idx, was));
                s.total_n = s.total_n + more;
                s.last_node = ni;
                s.last_sym = sym;
                proof {
                    lemma_node_raised(a, v, ni, s, more);
                    let x = CountNode { cnt: (was.cnt + more) as u64, ..was };
                    lemma_tally_log_state(log0, logged, a.ls, a.nodes, state, s);
                    lemma_tally_log_node(logged, *log, a.ls.update(v, s), a.nodes, idx, x);
                }
                self.nodes.add_cnt(idx, more);
                self.ls.set(state, s);
                return ;
            }
            ni = self.nodes.next(idx);
        }
        proof {
            lemma_seek(a.nodes, s.head, sym);
            let t2 = counted(ts[v], sym, more as nat);
            assert(t2.counts.dom() =~= ts[v].counts.dom().insert(sym));
            assert(nodes_of(t2) == nodes_of(ts[v]) + 1);
            lemma_needed_part(bumped(ts, v, sym, more as nat), v);
        }
        let idx: u32 = self.nodes.len() as u32;
        let fresh = CountNode { sym_idx: sym, cnt: more, next: s.head };
        proof {
            lemma_node_pushed(a.nodes, a.owner, n, v, fresh);
        }
        self.nodes.push(fresh);
        s.head = idx;
        s.total_n = s.total_n + more;
        s.types_t = s.types_t + 1;
        s.last_node = idx;
        s.last_sym = sym;
        self.ls.set(state, s);
        proof {
            self.owner@ = a.owner.push(v);
            let b = self.snap();
            lemma_tally_log_push(log0, a.ls, a.nodes, fresh);
            lemma_tally_log_state(log0, logged, a.ls, b.nodes, state, s);
            assert(list_counts(b.nodes, idx) =~= counted(ts[v], sym, more as nat).counts);
            assert(list_counts(b.nodes, idx).dom() =~= ts[v].counts.dom().insert(sym));
            assert forall|w: int| #![trigger b.ls[w]] 0 <= w < n implies record_ok(
                b.ls[w],
                b.nodes,
                b.owner,
                w,
            ) by {
                assert(record_ok(a.ls[w], a.nodes, a.owner, w));
            }
            let us = tallies_of(b.ls, b.nodes);
            assert forall|w: int| 0 <= w < n implies #[trigger] us[w] == bumped(
                ts,
                v,
                sym,
                more as nat,
            )[w] by {
                assert(record_ok(a.ls[w], a.nodes, a.owner, w));
            }
            assert(us =~= bumped(ts, v, sym, more as nat));
        }
    }

    /// Counts `more` occurrences of `sym` behind context `state`, without a log.
    pub fn inc(&mut self, state: usize, sym: u32, more: u64)
        requires
            old(self).wf(),
            state < old(self).ls@.len(),
            more > 0,
            old(self)@[state as int].total + more <= u64::MAX,
            nodes_needed(bumped(old(self)@, state as int, sym, more as nat)) <= u32::MAX,
        ensures
            final(self).wf(),
            final(self)@ == bumped(old(self)@, state as int, sym, more as nat),
            final(self).ls@.len() == old(self).ls@.len(),
            sam::extends(final(self).owner@, old(self).owner@),
            forall|w: int|
                #![trigger final(self).ls@[w]]
                0 <= w < old(self).ls@.len() && w != state ==> final(self).ls@[w] == old(self).ls@[w],
            forall|e: int|
                #![trigger final(self).nodes@[e]]
                0 <= e < old(self).nodes@.len() && old(self).owner@[e] != state ==> final(self).nodes@[e] == old(self).nodes@[e],
    {
        let mut log = self.begin_log();
        self.inc_tx(&mut log, state, sym, more);
    }

    /// Counts behind context `p` all that followed context `v`.
    pub fn merge(&mut self, p: usize, v: usize)
        requires
            old(self).wf(),
            p < old(self).ls@.len(),
            v < old(self).ls@.len(),
            p != v,
            old(self)@[p as int].total + old(self)@[v as int].total <= u64::MAX,
            nodes_needed(
                old(self)@.update(p as int, merged(old(self)@[p as int], old(self)@[v as int])),
            ) <= u32::MAX,
        ensures
            final(self).wf(),
            final(self).ls@.len() == old(self).ls@.len(),
            final(self)@ == old(self)@.update(
                p as int,
                merged(old(self)@[p as int], old(self)@[v as int]),
            ),
    {
        let ghost a = self.snap();
        let ghost ts = self@;
        let ghost tp = ts[p as int];
        let ghost tv = ts[v as int];
        let ghost all = merged(tp, tv);
        let ghost goal = ts.update(p as int, all);
        proof {
            assert(record_ok(a.ls[v as int], a.nodes, a.owner, v as int));
            lemma_finite_tally(a, p as int);
            lemma_finite_tally(a, v as int);
            assert(all.counts.dom() =~= tp.counts.dom().union(tv.counts.dom()));
            assert forall|w: int| 0 <= w < ts.len() implies #[trigger] ts[w].counts.dom().finite() by {
                lemma_finite_tally(a, w);
            }
        }
        let s: LmState = self.ls[v];
        if s.total_n == 0 {
            proof {
                if s.head != LM_NODE_NONE {
                    lemma_finite_tally(a, v as int);
                    assert(node_ok(a.nodes, a.owner, a.ls.len() as int, s.head as int));
                }
                assert(all =~= tp);
                assert(goal =~= ts);
            }
            return ;
        }
        if is_implicit_single(&s) {
            proof {
                assert(counted(tp, s.last_sym, s.total_n as nat) =~= all);
                assert(bumped(ts, p as int, s.last_sym, s.total_n as nat) =~= goal);
            }
            self.inc(p, s.last_sym, s.total_n);
            return ;
        }
        let mut ni: u32 = s.head;
        proof {
            assert(handed(tp, tp, tv, a.nodes, ni));
            assert(self@ =~= ts.update(p as int, tp));
        }
        while ni != LM_NODE_NONE
            invariant
                self.wf(),
                self.ls@.len() == a.ls.len(),
                tallies_wf(a),
                p < a.ls.len(),
                v < a.ls.len(),
                p != v,
                ts == tallies_of(a.ls, a.nodes),
                tp == ts[p as int],
                tv == ts[v as int],
                all == merged(tp, tv),
                goal == ts.update(p as int, all),
                all.counts.dom().finite(),
                tp.total + tv.total <= u64::MAX,
                nodes_needed(goal) <= u32::MAX,
                forall|w: int| 0 <= w < ts.len() ==> #[trigger] ts[w].counts.dom().finite(),
                self@ == ts.update(p as int, self@[p as int]),
                sam::extends(self.owner@, a.owner),
                self.nodes@.len() >= a.nodes.len(),
                forall|e: int|
                    #![trigger self.nodes@[e]]
                    0 <= e < a.nodes.len() && a.owner[e] == v ==> self.nodes@[e] == a.nodes[e],
                ni == LM_NODE_NONE || (ni < a.nodes.len() && a.owner[ni as int] == v),
                handed(self@[p as int], tp, tv, a.nodes, ni),
            decreases if ni == LM_NODE_NONE {
                0int
            } else {
                ni + 1
            },
        {
            let node = self.nodes.get(ni as usize);
            let ghost c = self@[p as int];
            let ghost before = *self;
            proof {
                assert(node_ok(a.nodes, a.owner, a.ls.len() as int, ni as int));
                assert(self.nodes@[ni as int] == a.nodes[ni as int]);
                let c2 = counted(c, node.sym_idx, node.cnt as nat);
                let us = bumped(self@, p as int, node.sym_idx, node.cnt as nat);
                assert(list_counts(a.nodes, ni).contains_key(node.sym_idx));
                assert(count_in(c, node.sym_idx) >= 0);
                assert forall|w: int| 0 <= w < us.len() implies #[trigger] tally_within(
                    us[w],
                    goal[w],
                ) by {
                    if w == p {
                        assert forall|sym: u32| c2.counts.contains_key(sym) implies all.counts.contains_key(
                            sym,
                        ) by {
                            assert(c.counts.contains_key(sym) || sym == node.sym_idx);
                            assert(c.counts.contains_key(node.sym_idx) || true);
                        }
                    } else {
                        assert(us[w] == ts[w]);
                    }
                }
                lemma_needed_grows(us, goal);
                lemma_seek(a.nodes, node.next, node.sym_idx);
            }
            self.inc(p, node.sym_idx, node.cnt);
            ni = node.next;
            proof {
                let c2 = self@[p as int];
                assert(c2 == counted(c, node.sym_idx, node.cnt as nat));
                assert(self@ =~= ts.update(p as int, c2));
                assert forall|sym: u32|
                    #![trigger c2.counts.contains_key(sym)]
                    #![trigger count_in(c2, sym)]
                    {
                        let left = TallyModel {
                            counts: list_counts(a.nodes, ni),
                            total: list_sum(a.nodes, ni),
                        };
                        &&& count_in(c2, sym) + count_in(left, sym) == count_in(tp, sym)
                            + count_in(tv, sym)
                        &&& (c2.counts.contains_key(sym) || left.counts.contains_key(sym)) == (
                        tp.counts.contains_key(sym) || tv.counts.contains_key(sym))
                    } by {
                    assert(count_in(c, sym) >= 0);
                    assert(c.counts.contains_key(sym) || true);
                }
                assert(handed(c2, tp, tv, a.nodes, ni));
                assert forall|e: int|
                    #![trigger self.nodes@[e]]
                    0 <= e < a.nodes.len() && a.owner[e] == v implies self.nodes@[e]
                    == a.nodes[e] by {
                    assert(before.owner@[e] == a.owner[e]);
                    assert(before.nodes@[e] == a.nodes[e]);
                }
            }
        }
        proof {
            let c = self@[p as int];
            assert forall|sym: u32| #[trigger] c.counts.contains_key(sym)
                == all.counts.contains_key(sym) && (c.counts.contains_key(sym) ==> c.counts[sym]
                == all.counts[sym]) by {
                assert(count_in(c, sym) >= 0);
            }
            assert(c.counts =~= all.counts);
            assert(self@ =~= goal);
        }
    }

    /// How often `sym` followed context `state`.
    pub fn count_of(&self, state: usize, sym: u32) -> (cnt: u64)
        requires
            self.wf(),
            state < self.ls@.len(),
        ensures
            cnt == count_in(self@[state as int], sym),
    {
        let ghost a = self.snap();
        let s: LmState = self.ls[state];
        proof {
            assert(record_ok(a.ls[state as int], a.nodes, a.owner, state as int));
        }
        if s.head == LM_NODE_NONE {
            if is_implicit_single(&s) && s.last_sym == sym {
                return s.total_n;
            }
            return 0;
        }
        proof {
            lemma_seek(a.nodes, s.head, sym);
        }
        if s.last_node != LM_NODE_NONE && s.last_sym == sym {
            return self.nodes.cnt(s.last_node as usize);
        }
        let mut ni: u32 = s.head;
        while ni != LM_NODE_NONE
            invariant
                self.wf(),
                a == self.snap(),
                s == a.ls[state as int],
                state < a.ls.len(),
                s.head != LM_NODE_NONE,
                ni == LM_NODE_NONE || ni < a.nodes.len(),
                seek(a.nodes, s.head, sym) == seek(a.nodes, ni, sym),
                list_counts(a.nodes, s.head).contains_key(sym) <==> seek(a.nodes, s.head, sym)
                    != LM_NODE_NONE,
                seek(a.nodes, s.head, sym) != LM_NODE_NONE ==> list_counts(a.nodes, s.head)[sym]
                    == a.nodes[seek(a.nodes, s.head, sym) as int].cnt,
            decreases if ni == LM_NODE_NONE {
                0int
            } else {
                ni + 1
            },
        {
            let idx: usize = ni as usize;
            proof {
                assert(node_ok(a.nodes, a.owner, a.ls.len() as int, idx as int));
            }
            if self.nodes.sym_idx(idx) == sym {
                return self.nodes.cnt(idx);
            }
            ni = self.nodes.next(idx);
        }
        0
    }

    /// Puts the counts back to where the log began.
    pub fn rollback(&mut self, log: TallyLog)
        requires
            old(self).wf(),
            tally_log_ok(log, old(self).ls@, old(self).nodes@),
        ensures
            final(self).snap() == log.base@,
            final(self).wf(),
    {
        let ghost base = log.base@;
        let mut k: usize = log.node_changes.len();
        let ghost nodes_all = sam::undone(self.nodes@, log.node_changes@);
        proof {
            assert(log.node_changes@.subrange(0, k as int) =~= log.node_changes@);
        }
        while k > 0
            invariant
                k <= log.node_changes@.len(),
                sam::undone(self.nodes@, log.node_changes@.subrange(0, k as int)) == nodes_all,
                self.nodes.wf(),
                self.ls@ == old(self).ls@,
            decreases k,
        {
            let ghost changes = log.node_changes@.subrange(0, k as int);
            k -= 1;
            let (idx, before) = log.node_changes[k];
            assert(changes.drop_last() =~= log.node_changes@.subrange(0, k as int));
            assert(changes.last() == log.node_changes@[k as int]);
            if idx < self.nodes.len() {
                self.nodes.set(idx, before);
            }
        }
        let mut k: usize = log.ls_changes.len();
        let ghost ls_all = sam::undone(self.ls@, log.ls_changes@);
        proof {
            assert(log.node_changes@.subrange(0, 0) =~= Seq::empty());
            assert(self.nodes@ == nodes_all);
            assert(log.ls_changes@.subrange(0, k as int) =~= log.ls_changes@);
        }
        while k > 0
            invariant
                k <= log.ls_changes@.len(),
                sam::undone(self.ls@, log.ls_changes@.subrange(0, k as int)) == ls_all,
                self.nodes@ == nodes_all,
                self.nodes.wf(),
            decreases k,
        {
            let ghost changes = log.ls_changes@.subrange(0, k as int);
            k -= 1;
            let (idx, before) = log.ls_changes[k];
            assert(changes.drop_last() =~= log.ls_changes@.subrange(0, k as int));
            assert(changes.last() == log.ls_changes@[k as int]);
            if idx < self.ls.len() {
                self.ls.set(idx, before);
            }
        }
        proof {
            assert(log.ls_changes@.subrange(0, 0) =~= Seq::empty());
            assert(self.ls@ == ls_all);
        }
        self.ls.truncate(log.old_ls_len);
        self.nodes.truncate(log.old_nodes_len);
        proof {
            assert(self.ls@ =~= base.ls);
            assert(self.nodes@ =~= base.nodes);
            self.owner@ = base.owner;
        }
    }

    /// A copy.
    pub fn duplicate(&self) -> (copy: Tallies)
        requires
            self.wf(),
        ensures
            copy.wf(),
            copy.snap() == self.snap(),
    {
        let copy = Tallies {
            ls: self.ls.clone(),
            nodes: self.nodes.duplicate(),
            owner: Ghost(self.owner@),
        };
        proof {
            assert(copy.ls@ =~= self.ls@);
        }
        copy
    }
}

} // verus!
