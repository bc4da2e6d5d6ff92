//! Walking a suffix automaton: contexts, predictions and end positions.

use vstd::prelude::*;
use crate::backends::rosaplus::sam;
use crate::backends::rosaplus::text_laws;
use crate::backends::rosaplus::sam::{Sam, SamModel, SamState, StateModel, SAM_STATE_NONE};

verus! {

/// Indices of states in order of length, earlier states first among equals.
pub open spec fn is_length_order(order: Seq<int>, lens: Seq<int>) -> bool {
    &&& order.len() == lens.len()
    &&& forall|i: int| 0 <= i < order.len() ==> 0 <= #[trigger] order[i] < lens.len()
    &&& forall|i: int, j: int|
        0 <= i < j < order.len() ==> comes_before(lens, #[trigger] order[i], #[trigger] order[j])
}

/// Whether state `a` is shorter than `b`, or as long and earlier.
pub open spec fn comes_before(lens: Seq<int>, a: int, b: int) -> bool {
    lens[a] < lens[b] || (lens[a] == lens[b] && a < b)
}

/// The order of states by length.
pub open spec fn length_order(lens: Seq<int>) -> Seq<int> {
    choose|order: Seq<int>| is_length_order(order, lens)
}

/// Every state stands somewhere in the order.
pub proof fn lemma_order_covers(order: Seq<int>, lens: Seq<int>, v: int)
    requires
        is_length_order(order, lens),
        0 <= v < lens.len(),
    ensures
        order.contains(v),
{
    let n = lens.len() as int;
    assert(order.no_duplicates()) by {
        assert forall|i: int, j: int|
            0 <= i < order.len() && 0 <= j < order.len() && i != j implies order[i] != order[j] by {
            if i < j {
                assert(comes_before(lens, order[i], order[j]));
            } else {
                assert(comes_before(lens, order[j], order[i]));
            }
        }
    }
    order.unique_seq_to_set();
    vstd::set_lib::lemma_int_range(0, n);
    let all = vstd::set_lib::set_int_range(0, n);
    assert(order.to_set().subset_of(all));
    vstd::set_lib::lemma_subset_equality(order.to_set(), all);
    assert(order.to_set().contains(v));
}

/// There is only one order of states by length.
pub proof fn lemma_order_unique(a: Seq<int>, b: Seq<int>, lens: Seq<int>)
    requires
        is_length_order(a, lens),
        is_length_order(b, lens),
    ensures
        a == b,
{
    assert forall|n: int| 0 <= n <= a.len() implies #[trigger] a.take(n) == b.take(n) by {
        lemma_orders_agree(a, b, lens, n);
    }
    assert(a.take(a.len() as int) == b.take(a.len() as int));
    assert(a =~= a.take(a.len() as int));
    assert(b =~= b.take(a.len() as int));
}

proof fn lemma_orders_agree(a: Seq<int>, b: Seq<int>, lens: Seq<int>, n: int)
    requires
        is_length_order(a, lens),
        is_length_order(b, lens),
        0 <= n <= a.len(),
    ensures
        a.take(n) == b.take(n),
    decreases n,
{
    if n > 0 {
        lemma_orders_agree(a, b, lens, n - 1);
        let i = n - 1;
        assert forall|k: int| 0 <= k < i implies a[k] == b[k] by {
            assert(a.take(i)[k] == b.take(i)[k]);
        }
        if a[i] != b[i] {
            lemma_order_covers(b, lens, a[i]);
            lemma_order_covers(a, lens, b[i]);
            let j = choose|j: int| 0 <= j < b.len() && b[j] == a[i];
            let k = choose|k: int| 0 <= k < a.len() && a[k] == b[i];
            if j < i {
                assert(comes_before(lens, a[j], a[i]));
            }
            if k < i {
                assert(comes_before(lens, b[k], b[i]));
            }
            assert(comes_before(lens, b[i], b[j]));
            assert(comes_before(lens, a[i], a[k]));
            assert(false);
        }
        assert(a.take(n) =~= b.take(n));
    }
}

/// Lengths of states.
pub open spec fn lengths(states: Seq<StateModel>) -> Seq<int> {
    states.map_values(|s: StateModel| s.len)
}

/// `states` with the end position of state `v` handed up to its suffix link if it is later.
pub open spec fn endpos_raised(states: Seq<StateModel>, v: int) -> Seq<StateModel> {
    let p = states[v].link;
    if 0 <= p < states.len() && states[v].endpos > states[p].endpos {
        states.update(p, StateModel { endpos: states[v].endpos, ..states[p] })
    } else {
        states
    }
}

/// `states` with end positions handed up, from the last of the first `n` entries of `order` to
/// the first.
pub open spec fn endpos_raised_all(states: Seq<StateModel>, order: Seq<int>, n: int) -> Seq<
    StateModel,
>
    decreases n,
{
    if n <= 0 || n > order.len() {
        states
    } else {
        endpos_raised_all(endpos_raised(states, order[n - 1]), order, n - 1)
    }
}

/// The automaton with the end position of every state handed up to its suffix link, longest
/// contexts first.
pub open spec fn ends_handed_up(m: SamModel) -> SamModel {
    SamModel {
        states: endpos_raised_all(
            m.states,
            length_order(lengths(m.states)),
            m.states.len() as int,
        ),
        ..m
    }
}

/// Longest context of at most `max_order` symbols on the suffix path of `v`; `v` itself where
/// the order is unlimited, the root where no context is short enough.
pub open spec fn capped(states: Seq<StateModel>, max_order: int, v: int) -> int {
    if max_order < 0 {
        v
    } else {
        first_short(states, sam::path_of(states, v), max_order, 0)
    }
}

/// First state of `path[from..]` no longer than `max_order`; the root if there is none.
pub open spec fn first_short(
    states: Seq<StateModel>,
    path: Seq<int>,
    max_order: int,
    from: int,
) -> int
    decreases path.len() - from,
{
    if from < 0 || from >= path.len() {
        0
    } else if states[path[from]].len > max_order {
        first_short(states, path, max_order, from + 1)
    } else {
        path[from]
    }
}

proof fn lemma_first_short_range(states: Seq<StateModel>, path: Seq<int>, max_order: int, from: int)
    requires
        states.len() > 0,
        0 <= from,
        forall|i: int| 0 <= i < path.len() ==> 0 <= #[trigger] path[i] < states.len(),
    ensures
        0 <= first_short(states, path, max_order, from) < states.len(),
    decreases path.len() - from,
{
    if from < path.len() && states[path[from]].len > max_order {
        lemma_first_short_range(states, path, max_order, from + 1);
    }
}

/// The context that stands for a state is a state.
pub proof fn lemma_capped_range(sam: &Sam, max_order: int, v: int)
    requires
        sam.wf(),
        0 <= v < sam.st@.len(),
    ensures
        0 <= capped(sam@.states, max_order, v) < sam.st@.len(),
{
    sam::lemma_graph_links(sam.st@, sam.ed@, sam.owner@, sam.rank@, sam.text@.len() as int);
    sam::lemma_path_ranks(sam@.states, sam.rank@, v);
    if max_order >= 0 {
        lemma_first_short_range(sam@.states, sam::path_of(sam@.states, v), max_order, 0);
    }
}

proof fn lemma_first_with_edge_range(states: Seq<StateModel>, path: Seq<int>, ch: u32, from: int)
    requires
        0 <= from <= path.len(),
    ensures
        from <= sam::first_with_edge(states, path, ch, from) <= path.len(),
        sam::first_with_edge(states, path, ch, from) < path.len() ==> states[path[sam::first_with_edge(
            states,
            path,
            ch,
            from,
        )]].edges.contains_key(ch),
    decreases path.len() - from,
{
    if from < path.len() && !states[path[from]].edges.contains_key(ch) {
        lemma_first_with_edge_range(states, path, ch, from + 1);
    }
}

/// The state reached by a symbol is a state.
pub proof fn lemma_advanced_range(sam: &Sam, v: int, ch: u32)
    requires
        sam.wf(),
        0 <= v < sam.st@.len(),
    ensures
        0 <= sam::advanced(sam@.states, v, ch) < sam.st@.len(),
{
    let states = sam@.states;
    let path = sam::path_of(states, v);
    sam::lemma_graph_links(sam.st@, sam.ed@, sam.owner@, sam.rank@, sam.text@.len() as int);
    sam::lemma_path_ranks(states, sam.rank@, v);
    lemma_first_with_edge_range(states, path, ch, 0);
    let j = sam::first_with_edge(states, path, ch, 0);
    if j < path.len() {
        sam::lemma_target_range(
            sam.st@,
            sam.ed@,
            sam.owner@,
            sam.rank@,
            sam.text@.len() as int,
            path[j],
            ch,
        );
    }
}

/// Indices below `n` whose length is `l`, in increasing order.
spec fn bucket_ok(bucket: Seq<u32>, lens: Seq<int>, n: int, l: int) -> bool {
    &&& forall|i: int| 0 <= i < bucket.len() ==> (#[trigger] bucket[i]) < n && lens[bucket[i] as int] == l
    &&& forall|i: int, j: int| 0 <= i < j < bucket.len() ==> (#[trigger] bucket[i]) < (#[trigger] bucket[j])
    &&& forall|v: int| 0 <= v < n && #[trigger] lens[v] == l ==> bucket.contains(v as u32)
}

/// A list without repetition that holds every number below `n`, and no other, has `n` entries.
proof fn lemma_full_list(s: Seq<u32>, n: int)
    requires
        0 <= n <= u32::MAX,
        forall|i: int, j: int| 0 <= i < j < s.len() ==> #[trigger] s[i] != #[trigger] s[j],
        forall|i: int| 0 <= i < s.len() ==> (#[trigger] s[i]) < n,
        forall|v: int| 0 <= v < n ==> s.contains(#[trigger] (v as u32)),
    ensures
        s.len() == n,
    decreases n,
{
    if n > 0 {
        let top = (n - 1) as u32;
        assert(s.contains(top));
        let k = choose|k: int| 0 <= k < s.len() && s[k] == top;
        let t = s.remove(k);
        assert forall|i: int| 0 <= i < t.len() implies (#[trigger] t[i]) < n - 1 by {
            let i0 = if i < k { i } else { i + 1 };
            assert(t[i] == s[i0]);
            if i0 < k {
                assert(s[i0] != s[k]);
            } else {
                assert(s[k] != s[i0]);
            }
        }
        assert forall|i: int, j: int| 0 <= i < j < t.len() implies #[trigger] t[i] != #[trigger] t[j] by {
            let i0 = if i < k { i } else { i + 1 };
            let j0 = if j < k { j } else { j + 1 };
            assert(s[i0] != s[j0]);
        }
        assert forall|v: int| 0 <= v < n - 1 implies t.contains(#[trigger] (v as u32)) by {
            assert(s.contains(v as u32));
            let i = choose|i: int| 0 <= i < s.len() && s[i] == v as u32;
            assert(i != k);
            assert(t[if i < k { i } else { i - 1 }] == v as u32);
        }
        lemma_full_list(t, n - 1);
    } else {
        if s.len() > 0 {
            assert(s[0] < n);
        }
    }
}

impl Sam {
    /// State reached from `v` by `ch`.
    pub fn advance(&self, v: i32, ch: u32) -> (to: i32)
        requires
            self.wf(),
            0 <= v < self.st@.len(),
        ensures
            to == sam::advanced(self@.states, v as int, ch),
            0 <= to < self.st@.len(),
    {
        let ghost states = self@.states;
        let ghost rank = self.rank@;
        let ghost path = sam::path_of(states, v as int);
        proof {
            sam::lemma_graph_links(self.st@, self.ed@, self.owner@, self.rank@, self.text@.len() as int);
            sam::lemma_path_ranks(states, rank, v as int);
        }
        let mut p: i32 = v;
        let ghost mut j: int = 0;
        while p != SAM_STATE_NONE
            invariant
                self.wf(),
                states == self@.states,
                rank == self.rank@,
                0 <= v < self.st@.len(),
                sam::links_ranked(states, rank),
                path == sam::path_of(states, v as int),
                forall|i: int| 0 <= i < path.len() ==> 0 <= #[trigger] path[i] < states.len(),
                0 <= j <= path.len(),
                p == if j < path.len() { path[j] } else { -1 },
                sam::first_with_edge(states, path, ch, 0) == sam::first_with_edge(states, path, ch, j),
            decreases path.len() - j,
        {
            proof {
                sam::lemma_path_next(states, rank, v as int, j);
                sam::lemma_target_range(
                    self.st@,
                    self.ed@,
                    self.owner@,
                    self.rank@,
                    self.text@.len() as int,
                    p as int,
                    ch,
                );
            }
            let to: i32 = self.get_edge(p, ch);
            if to != SAM_STATE_NONE {
                return to;
            }
            p = self.st[p as usize].link;
            proof {
                j = j + 1;
            }
        }
        0
    }

    /// Symbol that followed the longest context of `v` when it last occurred.
    pub fn predict_det(&self, v: i32) -> (next: Option<u32>)
        requires
            self.wf(),
            0 <= v < self.st@.len(),
        ensures
            next == sam::first_follower(self@, sam::path_of(self@.states, v as int), 0),
            text_laws::is_first_on_path(self@, sam::path_of(self@.states, v as int), next),
    {
        let ghost states = self@.states;
        let ghost rank = self.rank@;
        let ghost path = sam::path_of(states, v as int);
        proof {
            sam::lemma_graph_links(self.st@, self.ed@, self.owner@, self.rank@, self.text@.len() as int);
            sam::lemma_path_ranks(states, rank, v as int);
        }
        proof {
            text_laws::law_first_on_path(self@, path, 0);
        }
        let mut u: i32 = v;
        let ghost mut j: int = 0;
        while u != SAM_STATE_NONE
            invariant
                self.wf(),
                states == self@.states,
                rank == self.rank@,
                0 <= v < self.st@.len(),
                sam::links_ranked(states, rank),
                path == sam::path_of(states, v as int),
                forall|i: int| 0 <= i < path.len() ==> 0 <= #[trigger] path[i] < states.len(),
                0 <= j <= path.len(),
                u == if j < path.len() { path[j] } else { -1 },
                text_laws::is_first_on_path(self@, path, sam::first_follower(self@, path, 0)),
                sam::first_follower(self@, path, 0) == sam::first_follower(self@, path, j),
            decreases path.len() - j,
        {
            proof {
                sam::lemma_path_next(states, rank, v as int, j);
                assert(sam::state_ok(
                    self.st@,
                    self.ed@,
                    self.owner@,
                    self.text@.len() as int,
                    u as int,
                ));
            }
            let s: SamState = self.st[u as usize];
            let i: i32 = s.endpos;
            if s.len > 0 && ((i + 1) as usize) < self.text.len() {
                if !(i >= 0 && self.boundary_after[i as usize] != 0) {
                    return Some(self.text[(i + 1) as usize]);
                }
            }
            u = s.link;
            proof {
                j = j + 1;
            }
        }
        None
    }

    /// State whose counts stand for the context of `v` under an order limit.
    pub fn capped_start_state(&self, max_order: i64, v: i32) -> (to: i32)
        requires
            self.wf(),
            0 <= v < self.st@.len(),
        ensures
            to == capped(self@.states, max_order as int, v as int),
            0 <= to < self.st@.len(),
    {
        if max_order < 0 {
            return v;
        }
        let ghost states = self@.states;
        let ghost rank = self.rank@;
        let ghost path = sam::path_of(states, v as int);
        proof {
            sam::lemma_graph_links(self.st@, self.ed@, self.owner@, self.rank@, self.text@.len() as int);
            sam::lemma_path_ranks(states, rank, v as int);
        }
        let mut u: i32 = v;
        let ghost mut j: int = 0;
        while u != SAM_STATE_NONE
            invariant
                self.wf(),
                states == self@.states,
                rank == self.rank@,
                0 <= v < self.st@.len(),
                sam::links_ranked(states, rank),
                path == sam::path_of(states, v as int),
                forall|i: int| 0 <= i < path.len() ==> 0 <= #[trigger] path[i] < states.len(),
                0 <= j <= path.len(),
                u == if j < path.len() { path[j] } else { -1 },
                max_order >= 0,
                first_short(states, path, max_order as int, 0) == first_short(
                    states,
                    path,
                    max_order as int,
                    j,
                ),
            decreases path.len() - j,
        {
            proof {
                sam::lemma_path_next(states, rank, v as int, j);
            }
            if (self.st[u as usize].len as i64) <= max_order {
                return u;
            }
            u = self.st[u as usize].link;
            proof {
                j = j + 1;
            }
        }
        0
    }

    /// States in order of length.
    pub fn states_by_length(&self) -> (order: Vec<u32>)
        requires
            self.wf(),
        ensures
            is_length_order(order@.map_values(|v: u32| v as int), lengths(self@.states)),
            order@.map_values(|v: u32| v as int) == length_order(lengths(self@.states)),
    {
        let ghost lens = lengths(self@.states);
        let n: usize = self.st.len();
        let mut max_len: usize = 0;
        let mut v: usize = 0;
        while v < n
            invariant
                v <= n == self.st@.len(),
                self.wf(),
                lens == lengths(self@.states),
                forall|w: int| 0 <= w < v ==> 0 <= #[trigger] lens[w] <= max_len,
                max_len <= i32::MAX,
            decreases n - v,
        {
            assert(sam::state_ok(self.st@, self.ed@, self.owner@, self.text@.len() as int, v as int));
            let l: usize = self.st[v].len as usize;
            if l > max_len {
                max_len = l;
            }
            v += 1;
        }
        let mut buckets: Vec<Vec<u32>> = Vec::new();
        while buckets.len() <= max_len
            invariant
                buckets@.len() <= max_len + 1,
                max_len <= i32::MAX,
                forall|l: int| 0 <= l < buckets@.len() ==> (#[trigger] buckets@[l])@.len() == 0,
            decreases max_len + 1 - buckets@.len(),
        {
            buckets.push(Vec::new());
        }
        let mut v: usize = 0;
        while v < n
            invariant
                v <= n == self.st@.len(),
                self.wf(),
                lens == lengths(self@.states),
                buckets@.len() == max_len + 1,
                forall|w: int| 0 <= w < n ==> 0 <= #[trigger] lens[w] <= max_len,
                forall|l: int|
                    0 <= l < buckets@.len() ==> bucket_ok((#[trigger] buckets@[l])@, lens, v as int, l),
            decreases n - v,
        {
            assert(lens[v as int] == self.st@[v as int].len);
            let l: usize = self.st[v].len as usize;
            let ghost before = buckets@;
            let ghost own = before[l as int]@;
            let mut b: Vec<u32> = Vec::new();
            std::mem::swap(&mut b, &mut buckets[l]);
            b.push(v as u32);
            buckets.set(l, b);
            proof {
                assert(buckets@ =~= before.update(l as int, b));
                assert(b@ == own.push(v as u32));
                assert forall|k: int| 0 <= k < buckets@.len() implies bucket_ok(
                    (#[trigger] buckets@[k])@,
                    lens,
                    v + 1,
                    k,
                ) by {
                    assert(bucket_ok(before[k]@, lens, v as int, k));
                    if k == l {
                        assert forall|w: int| 0 <= w < v + 1 && #[trigger] lens[w] == k implies b@.contains(
                            w as u32,
                        ) by {
                            if w < v {
                                assert(own.contains(w as u32));
                                let i = choose|i: int| 0 <= i < own.len() && own[i] == w as u32;
                                assert(b@[i] == w as u32);
                            } else {
                                assert(b@[own.len() as int] == w as u32);
                            }
                        }
                    }
                }
            }
            v += 1;
        }
        let mut order: Vec<u32> = Vec::new();
        let mut l: usize = 0;
        while l <= max_len
            invariant
                l <= max_len + 1,
                max_len <= i32::MAX,
                buckets@.len() == max_len + 1,
                forall|k: int|
                    0 <= k < buckets@.len() ==> bucket_ok((#[trigger] buckets@[k])@, lens, n as int, k),
                n == lens.len(),
                n <= i32::MAX,
                forall|i: int| 0 <= i < order@.len() ==> (#[trigger] order@[i]) < n && lens[order@[i] as int] < l,
                forall|i: int, j: int|
                    0 <= i < j < order@.len() ==> comes_before(
                        lens,
                        (#[trigger] order@[i]) as int,
                        (#[trigger] order@[j]) as int,
                    ),
                forall|w: int| 0 <= w < n && #[trigger] lens[w] < l ==> order@.contains(w as u32),
                forall|w: int| 0 <= w < n ==> 0 <= #[trigger] lens[w],
            decreases max_len + 1 - l,
        {
            let ghost before = order@;
            let bucket = &buckets[l];
            assert(bucket_ok(bucket@, lens, n as int, l as int));
            let mut k: usize = 0;
            while k < bucket.len()
                invariant
                    k <= bucket@.len(),
                    order@ == before + bucket@.subrange(0, k as int),
                decreases bucket@.len() - k,
            {
                order.push(bucket[k]);
                k += 1;
                assert(bucket@.subrange(0, k as int) =~= bucket@.subrange(0, k - 1).push(
                    bucket@[k - 1],
                ));
            }
            proof {
                assert(bucket@.subrange(0, bucket@.len() as int) =~= bucket@);
                assert(order@ == before + bucket@);
                assert forall|i: int| 0 <= i < order@.len() implies (#[trigger] order@[i]) < n
                    && lens[order@[i] as int] < l + 1 by {
                    if i < before.len() {
                        assert(before[i] == order@[i]);
                    } else {
                        assert(bucket@[i - before.len()] == order@[i]);
                    }
                }
                assert forall|i: int, j: int| 0 <= i < j < order@.len() implies comes_before(
                    lens,
                    (#[trigger] order@[i]) as int,
                    (#[trigger] order@[j]) as int,
                ) by {
                    if j < before.len() {
                        assert(before[i] == order@[i] && before[j] == order@[j]);
                    } else if i < before.len() {
                        assert(before[i] == order@[i]);
                        assert(bucket@[j - before.len()] == order@[j]);
                    } else {
                        assert(bucket@[i - before.len()] == order@[i]);
                        assert(bucket@[j - before.len()] == order@[j]);
                    }
                }
                assert forall|w: int| 0 <= w < n && #[trigger] lens[w] < l + 1 implies order@.contains(
                    w as u32,
                ) by {
                    if lens[w] < l {
                        assert(before.contains(w as u32));
                        let i = choose|i: int| 0 <= i < before.len() && before[i] == w as u32;
                        assert(order@[i] == w as u32);
                    } else {
                        assert(bucket@.contains(w as u32));
                        let i = choose|i: int| 0 <= i < bucket@.len() && bucket@[i] == w as u32;
                        assert(order@[before.len() + i] == w as u32);
                    }
                }
            }
            l += 1;
        }
        proof {
            assert forall|v: int| 0 <= v < n implies order@.contains(#[trigger] (v as u32)) by {
                assert(lens[v] < l);
            }
            assert forall|i: int, j: int| 0 <= i < j < order@.len() implies #[trigger] order@[i]
                != #[trigger] order@[j] by {
                assert(comes_before(lens, order@[i] as int, order@[j] as int));
            }
            lemma_full_list(order@, n as int);
            let view = order@.map_values(|v: u32| v as int);
            assert forall|i: int, j: int| 0 <= i < j < view.len() implies comes_before(
                lens,
                #[trigger] view[i],
                #[trigger] view[j],
            ) by {
                assert(comes_before(lens, order@[i] as int, order@[j] as int));
            }
            assert forall|i: int| 0 <= i < view.len() implies 0 <= #[trigger] view[i] < lens.len() by {
                assert(order@[i] < n);
            }
            assert(is_length_order(view, lens));
            lemma_order_unique(view, length_order(lens), lens);
        }
        order
    }

    /// Hands the end position of every state up to its suffix link, longest contexts first.
    pub fn finalize_endpos(&mut self)
        requires
            old(self).wf(),
        ensures
            final(self).wf(),
            final(self)@ == ends_handed_up(old(self)@),
            final(self).st@.len() == old(self).st@.len(),
            final(self).ed@ == old(self).ed@,
    {
        let order = self.states_by_length();
        let ghost ord = order@.map_values(|v: u32| v as int);
        let ghost m0 = self@;
        let ghost all = endpos_raised_all(m0.states, ord, ord.len() as int);
        let mut k: usize = order.len();
        while k > 0
            invariant
                k <= order@.len(),
                ord == order@.map_values(|v: u32| v as int),
                self.wf(),
                self@ == (SamModel { states: self@.states, ..m0 }),
                self@.states.len() == m0.states.len(),
                self.st@.len() == m0.states.len(),
                self.ed@ == old(self).ed@,
                endpos_raised_all(self@.states, ord, k as int) == all,
                forall|i: int| 0 <= i < ord.len() ==> 0 <= #[trigger] ord[i] < m0.states.len(),
            decreases k,
        {
            k -= 1;
            let v: usize = order[k] as usize;
            let ghost now = self@;
            proof {
                assert(ord[k as int] == v);
                assert(sam::link_ok(self.st@, self.rank@, v as int));
                assert(sam::state_ok(
                    self.st@,
                    self.ed@,
                    self.owner@,
                    self.text@.len() as int,
                    v as int,
                ));
            }
            let p: i32 = self.st[v].link;
            if p >= 0 {
                let at: i32 = self.st[v].endpos;
                let mut s = self.st[p as usize];
                if at > s.endpos {
                    let ghost s0 = self.snap();
                    s.endpos = at;
                    proof {
                        assert(sam::state_ok(
                            s0.st,
                            s0.ed,
                            s0.owner,
                            s0.text.len() as int,
                            p as int,
                        ));
                        assert(sam::link_ok(s0.st, s0.rank, p as int));
                        sam::lemma_relabel(
                            s0.st,
                            s0.ed,
                            s0.owner,
                            s0.rank,
                            s0.text.len() as int,
                            p as int,
                            s,
                        );
                        sam::lemma_model_relabel(s0.st, s0.ed, p as int, s);
                        sam::lemma_table_kept(s0.st, s0.ed, s0.st.update(p as int, s), s0.ed);
                    }
                    self.st.set(p as usize, s);
                    proof {
                        assert(self@.states =~= endpos_raised(now.states, v as int));
                        assert forall|c: u32| c < 256 implies #[trigger] self.root_to@[c as int] as int
                            == sam::target(self.st@, self.ed@, 0, c) by {
                            assert(s0.root_to[c as int] as int == sam::target(s0.st, s0.ed, 0, c));
                        }
                    }
                }
            }
            assert(self@.states == endpos_raised(now.states, v as int));
        }
        assert(self@.states == all);
        assert(is_length_order(ord, lengths(m0.states)));
    }
}

} // verus!
