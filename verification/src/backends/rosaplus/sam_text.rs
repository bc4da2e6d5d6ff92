//! What the states of a suffix automaton stand for: strings of its text.

use vstd::prelude::*;
use crate::backends::rosaplus::sam;
use crate::backends::rosaplus::lm_build;
use crate::backends::rosaplus::sam_walk;
use crate::backends::rosaplus::scoring;

use crate::backends::rosaplus::sam::{SamModel, StateModel};

verus! {

// ---------------------------------------------------------------------------------------
// Strings
// ---------------------------------------------------------------------------------------

/// Last `k` symbols of a string.
pub open spec fn tail(w: Seq<u32>, k: int) -> Seq<u32> {
    w.subrange(w.len() - k, w.len() as int)
}

/// Whether a string ends with another one.
pub open spec fn ends_with(w: Seq<u32>, s: Seq<u32>) -> bool {
    s.len() <= w.len() && tail(w, s.len() as int) == s
}

proof fn lemma_tail_tail(w: Seq<u32>, k: int, j: int)
    requires
        0 <= j <= k <= w.len(),
    ensures
        tail(tail(w, k), j) == tail(w, j),
        tail(w, k).len() == k,
        ends_with(w, tail(w, k)),
        ends_with(tail(w, k), tail(w, j)),
{
    assert(tail(tail(w, k), j) =~= tail(w, j));
}

proof fn lemma_ends_trans(w: Seq<u32>, s: Seq<u32>, t: Seq<u32>)
    requires
        ends_with(w, s),
        ends_with(s, t),
    ensures
        ends_with(w, t),
{
    lemma_tail_tail(w, s.len() as int, t.len() as int);
}

/// Of two ends of a string the longer one ends with the shorter one.
proof fn lemma_ends_nested(w: Seq<u32>, s: Seq<u32>, t: Seq<u32>)
    requires
        ends_with(w, s),
        ends_with(w, t),
        t.len() <= s.len(),
    ensures
        ends_with(s, t),
        s.len() == t.len() ==> s == t,
{
    lemma_tail_tail(w, s.len() as int, t.len() as int);
}

proof fn lemma_ends_push(w: Seq<u32>, s: Seq<u32>, c: u32, d: u32)
    ensures
        ends_with(w.push(c), s.push(d)) <==> c == d && ends_with(w, s),
{
    let a = w.push(c);
    let b = s.push(d);
    if s.len() <= w.len() {
        let ta = tail(a, b.len() as int);
        let tw = tail(w, s.len() as int);
        assert(ta =~= tw.push(c));
        if ta == b {
            assert(tw =~= ta.drop_last());
            assert(s =~= b.drop_last());
            assert(ta.last() == c);
            assert(b.last() == d);
        }
    }
}

// ---------------------------------------------------------------------------------------
// Strings of a text
// ---------------------------------------------------------------------------------------

/// Text of an example up to and with the symbol at `i`.
pub open spec fn prefix_at(m: SamModel, i: int) -> Seq<u32>
    decreases i,
{
    if i < 0 {
        Seq::empty()
    } else if i == 0 || m.boundary_after[i - 1] != 0 {
        seq![m.text[i]]
    } else {
        prefix_at(m, i - 1).push(m.text[i])
    }
}

/// Text of the example that goes on.
pub open spec fn open_example(m: SamModel) -> Seq<u32> {
    if m.text.len() == 0 || m.boundary_after[m.text.len() - 1] != 0 {
        Seq::empty()
    } else {
        prefix_at(m, m.text.len() - 1)
    }
}

/// Whether a string ends at the symbol at `i`, within its example.
pub open spec fn ends_at(m: SamModel, w: Seq<u32>, i: int) -> bool {
    &&& w.len() <= i + 1 <= m.text.len()
    &&& 0 <= i
    &&& forall|k: int| 0 <= k < w.len() ==> #[trigger] w[k] == m.text[i + 1 - w.len() + k]
    &&& forall|b: int| i + 1 - w.len() <= b < i ==> #[trigger] m.boundary_after[b] == 0
}

/// Whether a string stands somewhere in the text, within an example.
pub open spec fn stands_in(m: SamModel, w: Seq<u32>) -> bool {
    w.len() == 0 || exists|i: int| #[trigger] ends_at(m, w, i)
}

spec fn ending(m: SamModel, w: Seq<u32>, i: int) -> bool {
    0 <= i < m.text.len() && ends_with(prefix_at(m, i), w)
}

spec fn factor(m: SamModel, w: Seq<u32>) -> bool {
    w.len() == 0 || exists|i: int| #[trigger] ending(m, w, i)
}

/// A string ends at a place exactly where the example up to there ends with it.
proof fn lemma_ending(m: SamModel, w: Seq<u32>, i: int)
    requires
        m.boundary_after.len() == m.text.len(),
    ensures
        ending(m, w, i) == ends_at(m, w, i),
    decreases w.len(),
{
    if 0 <= i < m.text.len() {
        let p = prefix_at(m, i);
        if w.len() == 0 {
            assert(tail(p, 0) =~= w);
        } else {
            let rest = w.drop_last();
            assert(w =~= rest.push(w.last()));
            if i == 0 || m.boundary_after[i - 1] != 0 {
                assert(p =~= Seq::<u32>::empty().push(m.text[i]));
                lemma_ends_push(Seq::empty(), rest, m.text[i], w.last());
                if ends_with(p, w) {
                    assert(rest.len() == 0);
                    assert(w[0] == m.text[i]);
                }
                if ends_at(m, w, i) {
                    if w.len() > 1 {
                        assert(i > 0);
                        assert(m.boundary_after[i - 1] == 0);
                    }
                    assert(w[0] == m.text[i + 1 - w.len()]);
                    assert(tail(Seq::<u32>::empty(), 0) =~= rest);
                }
            } else {
                lemma_ending(m, rest, i - 1);
                lemma_ends_push(prefix_at(m, i - 1), rest, m.text[i], w.last());
                if ends_with(p, w) {
                    assert(ends_at(m, rest, i - 1));
                    assert forall|k: int| 0 <= k < w.len() implies #[trigger] w[k] == m.text[i + 1
                        - w.len() + k] by {
                        if k < rest.len() {
                            assert(rest[k] == w[k]);
                        }
                    }
                    assert forall|b: int| i + 1 - w.len() <= b < i implies
                        #[trigger] m.boundary_after[b] == 0 by {}
                }
                if ends_at(m, w, i) {
                    assert(w[w.len() - 1] == m.text[i]);
                    assert forall|k: int| 0 <= k < rest.len() implies #[trigger] rest[k]
                        == m.text[i - rest.len() + k] by {
                        assert(w[k] == m.text[i + 1 - w.len() + k]);
                    }
                }
            }
        }
    }
}

proof fn lemma_stands_in(m: SamModel, w: Seq<u32>)
    requires
        m.boundary_after.len() == m.text.len(),
    ensures
        factor(m, w) == stands_in(m, w),
{
    if factor(m, w) && w.len() > 0 {
        let i = choose|i: int| #[trigger] ending(m, w, i);
        lemma_ending(m, w, i);
    }
    if stands_in(m, w) && w.len() > 0 {
        let i = choose|i: int| #[trigger] ends_at(m, w, i);
        lemma_ending(m, w, i);
    }
}

proof fn lemma_factor_end(m: SamModel, w: Seq<u32>, s: Seq<u32>)
    requires
        factor(m, w),
        ends_with(w, s),
    ensures
        factor(m, s),
{
    if s.len() > 0 {
        let i = choose|i: int| #[trigger] ending(m, w, i);
        lemma_ends_trans(prefix_at(m, i), w, s);
        assert(ending(m, s, i));
    }
}

// ---------------------------------------------------------------------------------------
// Reading
// ---------------------------------------------------------------------------------------

/// Where the edge of a state leads; below zero where there is none.
pub open spec fn edge_to(states: Seq<StateModel>, v: int, ch: u32) -> int {
    if states[v].edges.contains_key(ch) {
        states[v].edges[ch]
    } else {
        -1
    }
}

/// State that a string leads to from the root, edge by edge; below zero where an edge is missing.
pub open spec fn read(states: Seq<StateModel>, w: Seq<u32>) -> int
    decreases w.len(),
{
    if w.len() == 0 {
        0
    } else {
        let v = read(states, w.drop_last());
        if v < 0 {
            -1
        } else {
            edge_to(states, v, w.last())
        }
    }
}

/// Whether a state stands for the ends of `l` that are longer than what its suffix link stands for,
/// and for nothing else.
#[verifier::opaque]
spec fn stands_for(states: Seq<StateModel>, t: int, l: Seq<u32>) -> bool {
    let link = states[t].link;
    &&& l.len() == states[t].len
    &&& read(states, l) == t
    &&& 0 <= link < states.len()
    &&& 0 <= states[link].len < states[t].len
    &&& read(states, tail(l, states[link].len)) == link
    &&& forall|k: int|
        states[link].len < k <= states[t].len ==> read(states, #[trigger] tail(l, k)) == t
    &&& forall|w: Seq<u32>| #[trigger]
        read(states, w) == t ==> ends_with(l, w) && w.len() > states[link].len
}

proof fn lemma_stands(states: Seq<StateModel>, t: int, l: Seq<u32>)
    requires
        stands_for(states, t, l),
    ensures
        ({
            let link = states[t].link;
            &&& l.len() == states[t].len
            &&& read(states, l) == t
            &&& 0 <= link < states.len()
            &&& 0 <= states[link].len < states[t].len
            &&& read(states, tail(l, states[link].len)) == link
        }),
{
    reveal(stands_for);
}

proof fn lemma_stands_end(states: Seq<StateModel>, t: int, l: Seq<u32>, k: int)
    requires
        stands_for(states, t, l),
        states[states[t].link].len < k <= states[t].len,
    ensures
        read(states, tail(l, k)) == t,
{
    reveal(stands_for);
}

proof fn lemma_stands_only(states: Seq<StateModel>, t: int, l: Seq<u32>, w: Seq<u32>)
    requires
        stands_for(states, t, l),
        read(states, w) == t,
    ensures
        ends_with(l, w),
        w.len() > states[states[t].link].len,
{
    reveal(stands_for);
}

/// Longest string that a state stands for.
spec fn longest_of(states: Seq<StateModel>, t: int) -> Seq<u32> {
    if t == 0 {
        Seq::empty()
    } else {
        choose|l: Seq<u32>| stands_for(states, t, l)
    }
}

/// Whether a string is the longest that a state stands for.
spec fn is_longest(states: Seq<StateModel>, t: int, l: Seq<u32>) -> bool {
    if t == 0 {
        l.len() == 0
    } else {
        0 < t < states.len() && stands_for(states, t, l)
    }
}

spec fn graph_sound(states: Seq<StateModel>) -> bool {
    &&& states.len() > 0
    &&& states[0].len == 0
    &&& states[0].link == -1
    &&& forall|v: int, ch: u32|
        0 <= v < states.len() ==> #[trigger] edge_to(states, v, ch) < states.len() && (if states[v].edges.contains_key(
            ch,
        ) {
            edge_to(states, v, ch) > 0
        } else {
            edge_to(states, v, ch) == -1
        })
}

/// The strings that can be read are those of the text, and the states that they lead to stand for
/// strings.
spec fn strings_sound(m: SamModel) -> bool {
    &&& forall|w: Seq<u32>| (#[trigger] read(m.states, w) >= 0) == factor(m, w)
    &&& forall|w: Seq<u32>| #[trigger]
        read(m.states, w) > 0 ==> is_longest(
            m.states,
            read(m.states, w),
            longest_of(m.states, read(m.states, w)),
        )
    &&& forall|i: int|
        0 <= i < m.text.len() ==> m.states[read(m.states, #[trigger] prefix_at(m, i))].len
            == prefix_at(m, i).len()
}

/// The automaton goes on where its open example ends: in the state of it, or in one that stands
/// beside that state and that no string leads to.
spec fn last_sound(m: SamModel) -> bool {
    let c = open_example(m);
    let g = m.last;
    &&& 0 <= g < m.states.len()
    &&& m.states[g].len == c.len()
    &&& g == read(m.states, c) || {
        &&& g > 0
        &&& m.states[g].link == read(m.states, c)
        &&& c.len() < m.text.len()
        &&& forall|ch: u32| #[trigger] edge_to(m.states, g, ch) == -1
        &&& forall|w: Seq<u32>| #[trigger] read(m.states, w) != g
    }
}

/// Whether an automaton is one of its text: exactly the strings of the text can be read, each state
/// that they lead to stands for strings that end at the same places, and suffix links lead to the
/// states of the shorter ends.
pub closed spec fn is_automaton(m: SamModel) -> bool {
    &&& m.boundary_after.len() == m.text.len()
    &&& m.states.len() > m.text.len()
    &&& graph_sound(m.states)
    &&& strings_sound(m)
    &&& last_sound(m)
}

proof fn lemma_read_range(states: Seq<StateModel>, w: Seq<u32>)
    requires
        graph_sound(states),
    ensures
        -1 <= read(states, w) < states.len(),
        read(states, w) == 0 <==> w.len() == 0,
    decreases w.len(),
{
    if w.len() > 0 {
        lemma_read_range(states, w.drop_last());
    }
}

proof fn lemma_read_push(states: Seq<StateModel>, w: Seq<u32>, c: u32)
    ensures
        read(states, w.push(c)) == (if read(states, w) < 0 {
            -1
        } else {
            edge_to(states, read(states, w), c)
        }),
{
    assert(w.push(c).drop_last() =~= w);
    assert(w.push(c).last() == c);
}

/// What a string that can be read is: an end of the longest one of its state.
proof fn lemma_read_longest(m: SamModel, w: Seq<u32>)
    requires
        graph_sound(m.states),
        strings_sound(m),
        read(m.states, w) >= 0,
    ensures
        ({
            let t = read(m.states, w);
            let l = longest_of(m.states, t);
            &&& 0 <= t < m.states.len()
            &&& is_longest(m.states, t, l)
            &&& l.len() == m.states[t].len
            &&& read(m.states, l) == t
            &&& ends_with(l, w)
            &&& factor(m, w)
            &&& w.len() == l.len() ==> w == l
        }),
{
    lemma_read_range(m.states, w);
    let t = read(m.states, w);
    let l = longest_of(m.states, t);
    if t == 0 {
        assert(w =~= l);
        assert(tail(l, 0) =~= w);
    } else {
        lemma_stands(m.states, t, l);
        lemma_stands_only(m.states, t, l, w);
    }
    if w.len() == l.len() {
        assert(tail(l, l.len() as int) =~= l);
    }
}

// ---------------------------------------------------------------------------------------
// Suffix paths
// ---------------------------------------------------------------------------------------

/// States of a path, from the longest strings to the shortest, and the ends of `l` among them.
spec fn path_sound(states: Seq<StateModel>, l: Seq<u32>, path: Seq<int>) -> bool {
    &&& path.len() > 0
    &&& path.last() == 0
    &&& forall|j: int|
        0 <= j < path.len() ==> 0 <= #[trigger] path[j] < states.len() && 0 <= states[path[j]].len
            <= l.len() && path[j] == read(states, tail(l, states[path[j]].len))
    &&& forall|i: int, j: int|
        0 <= i < j < path.len() ==> states[#[trigger] path[i]].len > states[#[trigger] path[j]].len
    &&& forall|k: int| 0 <= k <= l.len() ==> path.contains(read(states, #[trigger] tail(l, k)))
}

proof fn lemma_path_sound(m: SamModel, t: int, l: Seq<u32>, fuel: nat)
    requires
        graph_sound(m.states),
        strings_sound(m),
        is_longest(m.states, t, l),
        fuel > l.len(),
    ensures
        path_sound(m.states, l, sam::suffix_path(m.states, t, fuel)),
        sam::suffix_path(m.states, t, fuel)[0] == t,
    decreases l.len(),
{
    let states = m.states;
    let path = sam::suffix_path(states, t, fuel);
    let link = states[t].link;
    let rest = sam::suffix_path(states, link, (fuel - 1) as nat);
    assert(path == seq![t] + rest);
    if t == 0 {
        assert(rest =~= Seq::empty());
        assert(path =~= seq![0int]);
        assert(tail(l, 0) =~= l);
        assert forall|k: int| 0 <= k <= l.len() implies path.contains(
            read(states, #[trigger] tail(l, k)),
        ) by {
            assert(tail(l, k) =~= l);
            assert(path[0] == read(states, l));
        }
    } else {
        lemma_stands(states, t, l);
        let n = states[link].len;
        let s = tail(l, n);
        lemma_read_range(states, s);
        lemma_tail_tail(l, n, n);
        lemma_read_longest(m, s);
        assert(is_longest(states, link, s));
        lemma_path_sound(m, link, s, (fuel - 1) as nat);
        assert(tail(l, l.len() as int) =~= l);
        assert forall|j: int| 0 <= j < path.len() implies 0 <= #[trigger] path[j] < states.len() && 0
            <= states[path[j]].len <= l.len() && path[j] == read(
            states,
            tail(l, states[path[j]].len),
        ) by {
            if j > 0 {
                assert(path[j] == rest[j - 1]);
                lemma_tail_tail(l, n, states[path[j]].len);
            }
        }
        assert forall|i: int, j: int| 0 <= i < j < path.len() implies states[#[trigger] path[i]].len
            > states[#[trigger] path[j]].len by {
            assert(path[j] == rest[j - 1]);
            if i > 0 {
                assert(path[i] == rest[i - 1]);
            }
        }
        assert forall|k: int| 0 <= k <= l.len() implies path.contains(
            read(states, #[trigger] tail(l, k)),
        ) by {
            if k > n {
                lemma_stands_end(states, t, l, k);
                assert(path[0] == read(states, tail(l, k)));
            } else {
                lemma_tail_tail(l, n, k);
                assert(rest.contains(read(states, tail(s, k))));
                let j = choose|j: int| 0 <= j < rest.len() && rest[j] == read(states, tail(s, k));
                assert(path[j + 1] == rest[j]);
            }
        }
        assert(path.last() == rest.last());
    }
}

// ---------------------------------------------------------------------------------------
// One more symbol
// ---------------------------------------------------------------------------------------

proof fn lemma_prefix_len(m: SamModel, i: int)
    ensures
        i >= 0 ==> 1 <= prefix_at(m, i).len() <= i + 1,
    decreases i,
{
    if i > 0 {
        lemma_prefix_len(m, i - 1);
    }
}

proof fn lemma_open_example(m: SamModel)
    requires
        is_automaton(m),
    ensures
        ({
            let c = open_example(m);
            let t = read(m.states, c);
            &&& c.len() <= m.text.len()
            &&& factor(m, c)
            &&& 0 <= t < m.states.len()
            &&& m.states[t].len == c.len()
            &&& is_longest(m.states, t, c)
        }),
{
    let c = open_example(m);
    if c.len() > 0 {
        let i = m.text.len() - 1;
        lemma_prefix_len(m, i);
        assert(c == prefix_at(m, i));
        assert(tail(c, c.len() as int) =~= c);
        assert(ending(m, c, i));
    }
    assert(read(m.states, c) >= 0);
    lemma_read_longest(m, c);
}

/// The path that a new symbol is linked in along: the states of the ends of the open example.
proof fn lemma_own_path(m: SamModel)
    requires
        is_automaton(m),
    ensures
        ({
            let states = m.states;
            let path = sam::path_of(states, m.last);
            let c = open_example(m);
            &&& path.len() > 0
            &&& forall|j: int|
                0 <= j < path.len() ==> 0 <= #[trigger] path[j] < states.len() && 0
                    <= states[path[j]].len <= c.len() && (path[j] == read(
                    states,
                    tail(c, states[path[j]].len),
                ) || (j == 0 && path[j] == m.last && m.last != read(states, c)))
            &&& forall|i: int, j: int|
                0 <= i < j < path.len() ==> states[#[trigger] path[i]].len
                    >= states[#[trigger] path[j]].len && (states[path[i]].len > states[path[j]].len
                    || (i == 0 && m.last != read(states, c)))
            &&& forall|k: int|
                0 <= k <= c.len() ==> path.contains(read(states, #[trigger] tail(c, k)))
        }),
{
    let states = m.states;
    let c = open_example(m);
    let t = read(states, c);
    let path = sam::path_of(states, m.last);
    lemma_open_example(m);
    if m.last == t {
        lemma_path_sound(m, t, c, states.len());
    } else {
        let rest = sam::suffix_path(states, t, (states.len() - 1) as nat);
        lemma_path_sound(m, t, c, (states.len() - 1) as nat);
        assert(path == seq![m.last] + rest);
        assert forall|j: int| 0 <= j < path.len() implies 0 <= #[trigger] path[j] < states.len() && 0
            <= states[path[j]].len <= c.len() && (path[j] == read(
            states,
            tail(c, states[path[j]].len),
        ) || (j == 0 && path[j] == m.last && m.last != read(states, c))) by {
            if j > 0 {
                assert(path[j] == rest[j - 1]);
            }
        }
        assert forall|i: int, j: int| 0 <= i < j < path.len() implies states[#[trigger] path[i]].len
            >= states[#[trigger] path[j]].len && (states[path[i]].len > states[path[j]].len || (i == 0
            && m.last != read(states, c))) by {
            assert(path[j] == rest[j - 1]);
            if i > 0 {
                assert(path[i] == rest[i - 1]);
            }
        }
        assert forall|k: int| 0 <= k <= c.len() implies path.contains(
            read(states, #[trigger] tail(c, k)),
        ) by {
            assert(rest.contains(read(states, tail(c, k))));
            let j = choose|j: int| 0 <= j < rest.len() && rest[j] == read(states, tail(c, k));
            assert(path[j + 1] == rest[j]);
        }
    }
}

proof fn lemma_first_edge(states: Seq<StateModel>, path: Seq<int>, ch: u32, from: int)
    requires
        0 <= from <= path.len(),
    ensures
        ({
            let k = sam::first_with_edge(states, path, ch, from);
            &&& from <= k <= path.len()
            &&& k < path.len() ==> edge_to(states, path[k], ch) == states[path[k]].edges[ch]
                && states[path[k]].edges.contains_key(ch)
            &&& forall|i: int| from <= i < k ==> edge_to(states, #[trigger] path[i], ch) == -1
        }),
    decreases path.len() - from,
{
    if from < path.len() && !states[path[from]].edges.contains_key(ch) {
        lemma_first_edge(states, path, ch, from + 1);
    }
}

proof fn lemma_first_other(states: Seq<StateModel>, path: Seq<int>, ch: u32, q: int, from: int)
    requires
        0 <= from <= path.len(),
        q >= 0,
    ensures
        ({
            let k = sam::first_elsewhere(states, path, ch, q, from);
            &&& from <= k <= path.len()
            &&& k < path.len() ==> edge_to(states, path[k], ch) != q
            &&& forall|i: int| from <= i < k ==> edge_to(states, #[trigger] path[i], ch) == q
        }),
    decreases path.len() - from,
{
    if from < path.len() && states[path[from]].edges.contains_key(ch) && states[path[from]].edges[ch]
        == q {
        lemma_first_other(states, path, ch, q, from + 1);
    }
}

/// Index of the first state on the path that has the symbol.
spec fn met_at(m: SamModel, ch: u32) -> int {
    sam::first_with_edge(m.states, sam::path_of(m.states, m.last), ch, 0)
}

/// Whether some state on the path has the symbol.
spec fn is_met(m: SamModel, ch: u32) -> bool {
    met_at(m, ch) < sam::path_of(m.states, m.last).len()
}

/// Length of the longest end of the open example that the symbol stands behind somewhere.
spec fn met_len(m: SamModel, ch: u32) -> int {
    if is_met(m, ch) {
        m.states[sam::path_of(m.states, m.last)[met_at(m, ch)]].len
    } else {
        -1
    }
}

/// Where the symbol leads from there.
spec fn met_target(m: SamModel, ch: u32) -> int {
    m.states[sam::path_of(m.states, m.last)[met_at(m, ch)]].edges[ch]
}

/// Whether the state that the symbol leads to stands for longer strings too.
spec fn splits(m: SamModel, ch: u32) -> bool {
    is_met(m, ch) && met_len(m, ch) + 1 != m.states[met_target(m, ch)].len
}

/// States that the new one is hung behind.
spec fn front_of(m: SamModel, ch: u32) -> Seq<int> {
    sam::path_of(m.states, m.last).subrange(0, met_at(m, ch))
}

/// States that lead to the half that is split off.
spec fn moved_of(m: SamModel, ch: u32) -> Seq<int> {
    let path = sam::path_of(m.states, m.last);
    path.subrange(
        met_at(m, ch),
        sam::first_elsewhere(m.states, path, ch, met_target(m, ch), met_at(m, ch)),
    )
}

/// An end of the open example stands somewhere in front of the symbol exactly where it is no longer
/// than the longest one that does.
proof fn lemma_threshold(m: SamModel, ch: u32, s: Seq<u32>)
    requires
        is_automaton(m),
        ends_with(open_example(m), s),
    ensures
        read(m.states, s) >= 0,
        factor(m, s.push(ch)) == (s.len() <= met_len(m, ch)),
        sam::path_of(m.states, m.last).contains(read(m.states, s)),
{
    let states = m.states;
    let path = sam::path_of(states, m.last);
    let c = open_example(m);
    let k = met_at(m, ch);
    lemma_own_path(m);
    lemma_first_edge(states, path, ch, 0);
    assert(s == tail(c, s.len() as int));
    assert(path.contains(read(states, tail(c, s.len() as int))));
    let j = choose|j: int| 0 <= j < path.len() && path[j] == read(states, s);
    assert(0 <= path[j]);
    lemma_read_push(states, s, ch);
    lemma_read_longest(m, s);
    assert((read(states, s.push(ch)) >= 0) == factor(m, s.push(ch)));
    if s.len() <= met_len(m, ch) {
        let p = path[k];
        let n = states[p].len;
        let lp = tail(c, n);
        assert(edge_to(states, p, ch) >= 0);
        assert(p == read(states, lp));
        lemma_read_push(states, lp, ch);
        assert(read(states, lp.push(ch)) >= 0);
        assert(factor(m, lp.push(ch)));
        lemma_tail_tail(c, n, s.len() as int);
        lemma_ends_push(lp, s, ch, ch);
        lemma_factor_end(m, lp.push(ch), s.push(ch));
    } else {
        if j >= k {
            assert(states[path[j]].len <= states[path[k]].len);
        }
        assert(j < k);
        assert(edge_to(states, path[j], ch) == -1);
    }
}

/// What the first state on the path that has the symbol, and the state that it leads to, stand for.
proof fn lemma_met(m: SamModel, ch: u32)
    requires
        is_automaton(m),
        is_met(m, ch),
    ensures
        ({
            let states = m.states;
            let path = sam::path_of(states, m.last);
            let p = path[met_at(m, ch)];
            let q = met_target(m, ch);
            let n = met_len(m, ch);
            let lp = tail(open_example(m), n);
            let lq = longest_of(states, q);
            &&& 0 <= met_at(m, ch) < path.len()
            &&& 0 <= n <= open_example(m).len()
            &&& n == states[p].len
            &&& p == read(states, lp)
            &&& lp.len() == n
            &&& ends_with(open_example(m), lp)
            &&& edge_to(states, p, ch) == q
            &&& q == read(states, lp.push(ch))
            &&& 0 < q < states.len()
            &&& stands_for(states, q, lq)
            &&& ends_with(lq, lp.push(ch))
            &&& n + 1 <= states[q].len
            &&& !splits(m, ch) ==> lq == lp.push(ch)
            &&& states[states[q].link].len < n + 1
        }),
{
    let states = m.states;
    let path = sam::path_of(states, m.last);
    let c = open_example(m);
    let k = met_at(m, ch);
    lemma_own_path(m);
    lemma_first_edge(states, path, ch, 0);
    let p = path[k];
    let q = met_target(m, ch);
    let n = states[p].len;
    let lp = tail(c, n);
    assert(edge_to(states, p, ch) != -1);
    lemma_tail_tail(c, n, n);
    lemma_read_push(states, lp, ch);
    assert(read(states, lp.push(ch)) == q);
    lemma_read_longest(m, lp.push(ch));
    lemma_stands(states, q, longest_of(states, q));
    lemma_stands_only(states, q, longest_of(states, q), lp.push(ch));
}

/// Strings whose states the new state is hung behind: the ends of the open example that are longer
/// than those that the symbol stands behind already.
proof fn lemma_front(m: SamModel, ch: u32, v: Seq<u32>)
    requires
        is_automaton(m),
        read(m.states, v) >= 0,
    ensures
        front_of(m, ch).contains(read(m.states, v)) == (ends_with(open_example(m), v) && v.len()
            > met_len(m, ch)),
{
    let states = m.states;
    let path = sam::path_of(states, m.last);
    let c = open_example(m);
    let k = met_at(m, ch);
    let front = front_of(m, ch);
    let x = read(states, v);
    lemma_own_path(m);
    lemma_first_edge(states, path, ch, 0);
    lemma_read_longest(m, v);
    if front.contains(x) {
        let j = choose|j: int| 0 <= j < front.len() && front[j] == x;
        assert(path[j] == x);
        assert(x == read(states, tail(c, states[x].len)));
        let s = tail(c, states[x].len);
        lemma_tail_tail(c, states[x].len, states[x].len);
        lemma_read_longest(m, s);
        assert(s == longest_of(states, x));
        lemma_ends_trans(c, s, v);
        lemma_threshold(m, ch, v);
        lemma_read_push(states, v, ch);
        assert(edge_to(states, path[j], ch) == -1);
        assert((read(states, v.push(ch)) >= 0) == factor(m, v.push(ch)));
    }
    if ends_with(c, v) && v.len() > met_len(m, ch) {
        lemma_threshold(m, ch, v);
        let j = choose|j: int| 0 <= j < path.len() && path[j] == x;
        if j >= k {
            assert(states[path[j]].len <= states[path[k]].len);
        }
        assert(front[j] == x);
    }
}

/// Strings whose states lead to the half that is split off: those that the symbol is put behind, and
/// that are no longer than the longest end of the open example that it stands behind.
proof fn lemma_moved(m: SamModel, ch: u32, v: Seq<u32>)
    requires
        is_automaton(m),
        splits(m, ch),
        read(m.states, v) >= 0,
    ensures
        moved_of(m, ch).contains(read(m.states, v)) == (edge_to(m.states, read(m.states, v), ch)
            == met_target(m, ch) && v.len() <= met_len(m, ch)),
{
    let states = m.states;
    let path = sam::path_of(states, m.last);
    let c = open_example(m);
    let k = met_at(m, ch);
    let q = met_target(m, ch);
    let n = met_len(m, ch);
    let end = sam::first_elsewhere(states, path, ch, q, k);
    let moved = moved_of(m, ch);
    let x = read(states, v);
    lemma_own_path(m);
    lemma_first_edge(states, path, ch, 0);
    lemma_met(m, ch);
    lemma_first_other(states, path, ch, q, k);
    lemma_read_longest(m, v);
    let lp = tail(c, n);
    let lq = longest_of(states, q);
    if moved.contains(x) {
        let i = choose|i: int| 0 <= i < moved.len() && moved[i] == x;
        let j = k + i;
        assert(path[j] == x);
        assert(states[path[j]].len <= states[path[k]].len);
    }
    if edge_to(states, x, ch) == q && v.len() <= n {
        let w = v.push(ch);
        lemma_read_push(states, v, ch);
        assert(read(states, w) == q);
        lemma_stands(states, q, lq);
        lemma_stands_only(states, q, lq, w);
        lemma_ends_nested(lq, lp.push(ch), w);
        lemma_ends_push(lp, v, ch, ch);
        lemma_ends_trans(c, lp, v);
        lemma_threshold(m, ch, v);
        let j = choose|j: int| 0 <= j < path.len() && path[j] == x;
        if j < k {
            assert(edge_to(states, path[j], ch) == -1);
        }
        if end <= j {
            let y = path[end];
            let b = states[y].len;
            assert(states[path[end]].len >= states[path[j]].len);
            assert(b >= v.len());
            assert(states[path[k]].len >= states[path[end]].len);
            let ly = tail(c, b);
            assert(edge_to(states, path[k], ch) == q);
            assert(end > k);
            assert(y == read(states, ly));
            lemma_tail_tail(c, n, b);
            lemma_ends_push(lp, ly, ch, ch);
            lemma_ends_trans(lq, lp.push(ch), ly.push(ch));
            assert(ly.push(ch) == tail(lq, b + 1));
            lemma_stands_end(states, q, lq, b + 1);
            lemma_read_push(states, ly, ch);
        }
        assert(moved[j - k] == x);
    }
}

/// The states after one more symbol.
proof fn lemma_shape(m: SamModel, ch: u32)
    requires
        is_automaton(m),
    ensures
        ({
            let s = m.states;
            let t = sam::fed(m, ch).states;
            let r = s.len() as int;
            let u = r + 1;
            let q = met_target(m, ch);
            let split = splits(m, ch);
            &&& t.len() == (if split {
                r + 2
            } else {
                r + 1
            })
            &&& forall|x: int|
                0 <= x < r ==> (#[trigger] t[x]).len == s[x].len && t[x].endpos == s[x].endpos
                    && t[x].link == (if split && x == q {
                    u
                } else {
                    s[x].link
                })
            &&& forall|x: int, c: u32|
                0 <= x < r ==> #[trigger] edge_to(t, x, c) == (if c == ch && front_of(
                    m,
                    ch,
                ).contains(x) {
                    r
                } else if split && c == ch && moved_of(m, ch).contains(x) {
                    u
                } else {
                    edge_to(s, x, c)
                })
            &&& forall|c: u32| #[trigger] edge_to(t, r, c) == -1
            &&& t[r].len == s[m.last].len + 1
            &&& t[r].endpos == m.text.len()
            &&& t[r].link == (if !is_met(m, ch) {
                0
            } else if split {
                u
            } else {
                q
            })
            &&& split ==> {
                &&& t[u].len == met_len(m, ch) + 1
                &&& t[u].link == s[q].link
                &&& t[u].endpos == s[q].endpos
                &&& forall|c: u32| #[trigger]
                    edge_to(t, u, c) == (if c == ch && front_of(m, ch).contains(q) {
                        r
                    } else {
                        edge_to(s, q, c)
                    })
            }
        }),
{
    let s = m.states;
    let r = s.len() as int;
    let u = r + 1;
    let path = sam::path_of(s, m.last);
    let k = met_at(m, ch);
    let t = sam::fed(m, ch).states;
    let front = front_of(m, ch);
    let q = met_target(m, ch);
    let fresh = StateModel {
        link: 0,
        len: s[m.last].len + 1,
        endpos: m.text.len() as int,
        edges: Map::empty(),
    };
    let joined = sam::with_edges(s.push(fresh), front, ch, r);
    lemma_own_path(m);
    lemma_first_edge(s, path, ch, 0);
    assert forall|x: int| front.contains(x) implies 0 <= x < r by {
        let j = choose|j: int| 0 <= j < front.len() && front[j] == x;
        assert(path[j] == x);
    }
    assert(!front.contains(r));
    assert(t == sam::linked_states(s, m.last, ch, m.text.len() as int));
    if is_met(m, ch) {
        lemma_met(m, ch);
        if splits(m, ch) {
            let end = sam::first_elsewhere(s, path, ch, q, k);
            let moved = moved_of(m, ch);
            lemma_first_other(s, path, ch, q, k);
            assert forall|x: int| moved.contains(x) implies 0 <= x < r && x != q && !front.contains(x) by {
                let i = choose|i: int| 0 <= i < moved.len() && moved[i] == x;
                assert(path[k + i] == x);
                assert(s[path[k + i]].len <= s[path[k]].len);
                assert(s[x].len < s[q].len);
                assert(edge_to(s, path[k + i], ch) == q);
                if front.contains(x) {
                    let j = choose|j: int| 0 <= j < front.len() && front[j] == x;
                    assert(path[j] == x);
                    assert(edge_to(s, path[j], ch) == -1);
                }
            }
            assert(!moved.contains(u));
            assert(!moved.contains(r));
        }
    }
}

/// State that a string leads to after one more symbol.
spec fn read_after(m: SamModel, ch: u32, w: Seq<u32>) -> int {
    if factor(m, w) {
        if splits(m, ch) && read(m.states, w) == met_target(m, ch) && w.len() <= met_len(m, ch) + 1 {
            (m.states.len() + 1) as int
        } else {
            read(m.states, w)
        }
    } else if ends_with(open_example(m).push(ch), w) {
        m.states.len() as int
    } else {
        -1
    }
}

proof fn lemma_read_after(m: SamModel, ch: u32, w: Seq<u32>)
    requires
        is_automaton(m),
    ensures
        read(sam::fed(m, ch).states, w) == read_after(m, ch, w),
    decreases w.len(),
{
    let s = m.states;
    let t = sam::fed(m, ch).states;
    let c = open_example(m);
    let q = met_target(m, ch);
    let r = s.len() as int;
    let n = met_len(m, ch);
    lemma_open_example(m);
    if w.len() == 0 {
        assert(read(s, w) == 0);
        if splits(m, ch) {
            lemma_met(m, ch);
        }
    } else {
        let v = w.drop_last();
        let d = w.last();
        assert(w =~= v.push(d));
        lemma_read_after(m, ch, v);
        lemma_shape(m, ch);
        lemma_read_push(s, v, d);
        lemma_read_push(t, v, d);
        lemma_ends_push(c, v, ch, d);
        assert((read(s, w) >= 0) == factor(m, w));
        assert((read(s, v) >= 0) == factor(m, v));
        if ends_with(c, v) {
            lemma_factor_end(m, c, v);
        }
        if factor(m, v) {
            lemma_read_range(s, v);
            let x = read(s, v);
            lemma_front(m, ch, v);
            if splits(m, ch) {
                lemma_met(m, ch);
                lemma_moved(m, ch, v);
            }
            if ends_with(c, v) {
                lemma_threshold(m, ch, v);
            }
            if splits(m, ch) && x == q && v.len() <= n + 1 {
                lemma_read_longest(m, v);
                lemma_moved_is_short(m, ch, v);
            }
            if factor(m, w) && splits(m, ch) && read(s, w) == q && w.len() <= n + 1 && d != ch {
                let lp = tail(c, n);
                let lq = longest_of(s, q);
                lemma_stands_only(s, q, lq, w);
                lemma_ends_nested(lq, lp.push(ch), w);
                lemma_ends_push(lp, v, ch, d);
            }
        } else {
            if ends_with(c.push(ch), v) {
                assert(read(t, v) == r);
                assert(edge_to(t, r, d) == -1);
            }
        }
    }
}

/// The state that is split leads on by the symbol to a longer one.
proof fn lemma_moved_is_short(m: SamModel, ch: u32, v: Seq<u32>)
    requires
        is_automaton(m),
        splits(m, ch),
        read(m.states, v) == met_target(m, ch),
    ensures
        edge_to(m.states, met_target(m, ch), ch) != met_target(m, ch),
        !moved_of(m, ch).contains(met_target(m, ch)),
{
    let s = m.states;
    let q = met_target(m, ch);
    lemma_met(m, ch);
    lemma_read_longest(m, v);
    let l = longest_of(s, q);
    lemma_stands(s, q, l);
    lemma_read_push(s, l, ch);
    if edge_to(s, q, ch) == q {
        lemma_stands_only(s, q, l, l.push(ch));
    }
    lemma_moved(m, ch, v);
}

proof fn lemma_prefix_kept(m: SamModel, ch: u32, i: int)
    requires
        m.boundary_after.len() == m.text.len(),
        i < m.text.len(),
    ensures
        prefix_at(sam::fed(m, ch), i) == prefix_at(m, i),
    decreases i,
{
    if i > 0 {
        lemma_prefix_kept(m, ch, i - 1);
    }
}

/// The strings after one more symbol are those from before and the ends of the open example.
proof fn lemma_factor_after(m: SamModel, ch: u32, w: Seq<u32>)
    requires
        m.boundary_after.len() == m.text.len(),
    ensures
        open_example(sam::fed(m, ch)) == open_example(m).push(ch),
        prefix_at(sam::fed(m, ch), m.text.len() as int) == open_example(m).push(ch),
        factor(sam::fed(m, ch), w) == (factor(m, w) || ends_with(open_example(m).push(ch), w)),
{
    let next = sam::fed(m, ch);
    let n = m.text.len() as int;
    let c = open_example(m).push(ch);
    lemma_prefix_kept(m, ch, n - 1);
    assert(prefix_at(next, n) =~= c);
    if w.len() > 0 {
        if factor(next, w) {
            let i = choose|i: int| #[trigger] ending(next, w, i);
            if i < n {
                lemma_prefix_kept(m, ch, i);
                assert(ending(m, w, i));
            }
        }
        if factor(m, w) {
            let i = choose|i: int| #[trigger] ending(m, w, i);
            lemma_prefix_kept(m, ch, i);
            assert(ending(next, w, i));
        }
        if ends_with(c, w) {
            assert(ending(next, w, n));
        }
    }
}

proof fn lemma_old_state(m: SamModel, ch: u32, w: Seq<u32>)
    requires
        is_automaton(m),
        0 < read(sam::fed(m, ch).states, w) < m.states.len(),
    ensures
        ({
            let t = read(sam::fed(m, ch).states, w);
            stands_for(sam::fed(m, ch).states, t, longest_of(m.states, t))
        }),
{
    let s = m.states;
    let s2 = sam::fed(m, ch).states;
    let t = read(s2, w);
    let q = met_target(m, ch);
    let n = met_len(m, ch);
    let c = open_example(m);
    let l = longest_of(s, t);
    let split = splits(m, ch);
    lemma_read_after(m, ch, w);
    lemma_shape(m, ch);
    lemma_read_longest(m, w);
    lemma_stands(s, t, l);
    if split {
        lemma_met(m, ch);
    }
    let link = s[t].link;
    let link2 = s2[t].link;
    assert(factor(m, l)) by {
        assert((read(s, l) >= 0) == factor(m, l));
    }
    lemma_read_after(m, ch, l);
    if split && t == q {
        let lp = tail(c, n);
        lemma_ends_nested(l, lp.push(ch), lp.push(ch));
        assert(tail(l, n + 1) == lp.push(ch));
        lemma_read_after(m, ch, lp.push(ch));
        assert((read(s, lp.push(ch)) >= 0) == factor(m, lp.push(ch)));
    } else {
        let x = tail(l, s[link].len);
        lemma_read_after(m, ch, x);
        assert((read(s, x) >= 0) == factor(m, x));
    }
    assert forall|k: int| s2[link2].len < k <= s2[t].len implies read(s2, #[trigger] tail(l, k)) == t by {
        lemma_stands_end(s, t, l, k);
        lemma_read_after(m, ch, tail(l, k));
        assert((read(s, tail(l, k)) >= 0) == factor(m, tail(l, k)));
        lemma_tail_tail(l, k, k);
    }
    assert forall|x: Seq<u32>| #[trigger] read(s2, x) == t implies ends_with(l, x) && x.len()
        > s2[link2].len by {
        lemma_read_after(m, ch, x);
        lemma_stands_only(s, t, l, x);
    }
    reveal(stands_for);
}

proof fn lemma_new_state(m: SamModel, ch: u32, w: Seq<u32>)
    requires
        is_automaton(m),
        read(sam::fed(m, ch).states, w) == m.states.len(),
    ensures
        stands_for(
            sam::fed(m, ch).states,
            m.states.len() as int,
            open_example(m).push(ch),
        ),
{
    let s = m.states;
    let s2 = sam::fed(m, ch).states;
    let r = s.len() as int;
    let q = met_target(m, ch);
    let n = met_len(m, ch);
    let c = open_example(m);
    let l = c.push(ch);
    lemma_read_after(m, ch, w);
    lemma_shape(m, ch);
    lemma_open_example(m);
    lemma_read_range(s, w);
    if factor(m, w) {
        assert((read(s, w) >= 0) == factor(m, w));
    }
    assert(!factor(m, l)) by {
        if factor(m, l) {
            lemma_factor_end(m, l, w);
        }
    }
    assert(tail(l, l.len() as int) =~= l);
    lemma_read_after(m, ch, l);
    let link = s2[r].link;
    if is_met(m, ch) {
        lemma_met(m, ch);
        let lp = tail(c, n);
        lemma_ends_push(c, lp, ch, ch);
        assert(tail(l, n + 1) == lp.push(ch));
        lemma_read_after(m, ch, lp.push(ch));
        assert((read(s, lp.push(ch)) >= 0) == factor(m, lp.push(ch)));
        assert(read(s2, tail(l, n + 1)) == link);
    } else {
        assert(tail(l, 0) =~= Seq::empty());
        assert(read(s2, tail(l, 0)) == 0);
    }
    assert(s2[link].len == n + 1);
    assert(c.len() > n) by {
        assert(tail(c, c.len() as int) =~= c);
        lemma_threshold(m, ch, c);
    }
    assert forall|k: int| s2[link].len < k <= s2[r].len implies read(s2, #[trigger] tail(l, k)) == r by {
        let v = tail(c, k - 1);
        lemma_tail_tail(c, k - 1, k - 1);
        lemma_ends_push(c, v, ch, ch);
        assert(tail(l, k) == v.push(ch));
        lemma_threshold(m, ch, v);
        lemma_read_after(m, ch, v.push(ch));
    }
    assert forall|x: Seq<u32>| #[trigger] read(s2, x) == r implies ends_with(l, x) && x.len()
        > s2[link].len by {
        lemma_read_after(m, ch, x);
        lemma_read_range(s, x);
        let v = x.drop_last();
        assert(x =~= v.push(x.last()));
        lemma_ends_push(c, v, ch, x.last());
        lemma_threshold(m, ch, v);
    }
    reveal(stands_for);
}

proof fn lemma_split_state(m: SamModel, ch: u32)
    requires
        is_automaton(m),
        splits(m, ch),
    ensures
        stands_for(
            sam::fed(m, ch).states,
            (m.states.len() + 1) as int,
            tail(open_example(m), met_len(m, ch)).push(ch),
        ),
{
    let s = m.states;
    let s2 = sam::fed(m, ch).states;
    let u = (s.len() + 1) as int;
    let q = met_target(m, ch);
    let n = met_len(m, ch);
    let c = open_example(m);
    let l = tail(c, n).push(ch);
    let lq = longest_of(s, q);
    lemma_shape(m, ch);
    lemma_met(m, ch);
    lemma_stands(s, q, lq);
    lemma_read_after(m, ch, l);
    assert((read(s, l) >= 0) == factor(m, l));
    let link = s[q].link;
    let b = s[link].len;
    lemma_tail_tail(lq, n + 1, b);
    assert(tail(lq, n + 1) == l);
    let x = tail(lq, b);
    lemma_read_after(m, ch, x);
    assert((read(s, x) >= 0) == factor(m, x));
    assert forall|k: int| s2[link].len < k <= n + 1 implies read(s2, #[trigger] tail(l, k)) == u by {
        lemma_tail_tail(lq, n + 1, k);
        lemma_stands_end(s, q, lq, k);
        lemma_read_after(m, ch, tail(lq, k));
        assert((read(s, tail(lq, k)) >= 0) == factor(m, tail(lq, k)));
    }
    assert forall|y: Seq<u32>| #[trigger] read(s2, y) == u implies ends_with(l, y) && y.len()
        > s2[link].len by {
        lemma_read_after(m, ch, y);
        lemma_read_range(s, y);
        lemma_stands_only(s, q, lq, y);
        lemma_ends_nested(lq, l, y);
    }
    reveal(stands_for);
}

proof fn lemma_graph_after(m: SamModel, ch: u32)
    requires
        is_automaton(m),
    ensures
        graph_sound(sam::fed(m, ch).states),
{
    let s = m.states;
    let s2 = sam::fed(m, ch).states;
    lemma_shape(m, ch);
    if splits(m, ch) {
        lemma_met(m, ch);
    }
    assert forall|v: int, c: u32| 0 <= v < s2.len() implies #[trigger] edge_to(s2, v, c) < s2.len() && (
    if s2[v].edges.contains_key(c) {
        edge_to(s2, v, c) > 0
    } else {
        edge_to(s2, v, c) == -1
    }) by {
        if v < s.len() {
            assert(edge_to(s, v, c) < s.len());
        } else if v > s.len() {
            assert(edge_to(s, met_target(m, ch), c) < s.len());
        }
        if s2[v].edges.contains_key(c) && edge_to(s2, v, c) == -1 {
            lemma_no_false_edges(m, ch, v, c);
        }
    }
}

proof fn lemma_no_false_edges(m: SamModel, ch: u32, v: int, c: u32)
    requires
        is_automaton(m),
        0 <= v < sam::fed(m, ch).states.len(),
        sam::fed(m, ch).states[v].edges.contains_key(c),
    ensures
        sam::fed(m, ch).states[v].edges[c] != -1,
{
    let s = m.states;
    let r = s.len() as int;
    let path = sam::path_of(s, m.last);
    let front = front_of(m, ch);
    let q = met_target(m, ch);
    let fresh = StateModel {
        link: 0,
        len: s[m.last].len + 1,
        endpos: m.text.len() as int,
        edges: Map::empty(),
    };
    let joined = sam::with_edges(s.push(fresh), front, ch, r);
    lemma_own_path(m);
    lemma_first_edge(s, path, ch, 0);
    if is_met(m, ch) {
        lemma_met(m, ch);
    }
    if v < r {
        assert(edge_to(s, v, c) < s.len());
    }
    assert forall|x: int| front.contains(x) implies 0 <= x < r by {
        let j = choose|j: int| 0 <= j < front.len() && front[j] == x;
        assert(path[j] == x);
    }
    assert(edge_to(s, q, c) < s.len() || !is_met(m, ch));
    if splits(m, ch) {
        let end = sam::first_elsewhere(s, path, ch, q, met_at(m, ch));
        lemma_first_other(s, path, ch, q, met_at(m, ch));
        let moved = moved_of(m, ch);
        assert forall|x: int| moved.contains(x) implies 0 <= x < r by {
            let i = choose|i: int| 0 <= i < moved.len() && moved[i] == x;
            assert(path[met_at(m, ch) + i] == x);
        }
    }
}

/// One more symbol: the automaton is one of the longer text.
pub proof fn law_fed_automaton(m: SamModel, ch: u32)
    requires
        is_automaton(m),
    ensures
        is_automaton(sam::fed(m, ch)),
{
    let next = sam::fed(m, ch);
    let s = m.states;
    let s2 = next.states;
    let r = s.len() as int;
    let n = met_len(m, ch);
    let c = open_example(m);
    let c2 = c.push(ch);
    lemma_shape(m, ch);
    lemma_graph_after(m, ch);
    lemma_open_example(m);
    lemma_factor_after(m, ch, c2);
    if is_met(m, ch) {
        lemma_met(m, ch);
    }
    assert forall|w: Seq<u32>| (#[trigger] read(s2, w) >= 0) == factor(next, w) by {
        lemma_read_after(m, ch, w);
        lemma_factor_after(m, ch, w);
        assert((read(s, w) >= 0) == factor(m, w));
    }
    assert forall|w: Seq<u32>| #[trigger] read(s2, w) > 0 implies is_longest(
        s2,
        read(s2, w),
        longest_of(s2, read(s2, w)),
    ) by {
        let t = read(s2, w);
        lemma_read_range(s2, w);
        if t < r {
            lemma_old_state(m, ch, w);
        } else if t == r {
            lemma_new_state(m, ch, w);
        } else {
            lemma_split_state(m, ch);
        }
    }
    lemma_read_after(m, ch, c2);
    assert(tail(c, c.len() as int) =~= c);
    assert(tail(c2, c2.len() as int) =~= c2);
    lemma_threshold(m, ch, c);
    if factor(m, c2) {
        assert(is_met(m, ch));
        assert(n == c.len());
        assert(tail(c, n) == c);
        assert(read(s, c2) == met_target(m, ch));
    }
    assert forall|i: int| 0 <= i < next.text.len() implies s2[read(s2, #[trigger] prefix_at(next, i))].len
        == prefix_at(next, i).len() by {
        if i < m.text.len() {
            lemma_prefix_kept(m, ch, i);
            let p = prefix_at(m, i);
            assert(tail(p, p.len() as int) =~= p);
            assert(ending(m, p, i));
            assert(factor(m, p));
            lemma_read_after(m, ch, p);
            assert((read(s, p) >= 0) == factor(m, p));
            lemma_read_range(s, p);
            assert(s[read(s, p)].len == p.len());
        }
    }
    if factor(m, c2) {
        assert(c2.len() < next.text.len()) by {
            let i = choose|i: int| #[trigger] ending(m, c2, i);
            lemma_prefix_len(m, i);
        }
        assert forall|w: Seq<u32>| #[trigger] read(s2, w) != r by {
            lemma_read_after(m, ch, w);
            lemma_read_range(s, w);
            if read(s2, w) == r {
                lemma_factor_end(m, c2, w);
            }
        }
        assert forall|d: u32| #[trigger] edge_to(s2, r, d) == -1 by {}
    }
}

// ---------------------------------------------------------------------------------------
// Where automata come from
// ---------------------------------------------------------------------------------------

/// The automaton of the empty text is one.
pub proof fn law_empty_is_automaton()
    ensures
        is_automaton(sam::empty_sam()),
{
    let m = sam::empty_sam();
    assert(open_example(m) =~= Seq::empty());
    assert forall|w: Seq<u32>| (#[trigger] read(m.states, w) >= 0) == factor(m, w) && read(m.states, w)
        <= 0 by {
        lemma_empty_read(w);
    }
}

proof fn lemma_empty_read(w: Seq<u32>)
    ensures
        read(sam::empty_sam().states, w) == (if w.len() == 0 {
            0int
        } else {
            -1
        }),
        factor(sam::empty_sam(), w) == (w.len() == 0),
    decreases w.len(),
{
    if w.len() > 0 {
        lemma_empty_read(w.drop_last());
    }
}

proof fn lemma_bounded_prefix(m: SamModel, i: int)
    requires
        m.boundary_after.len() == m.text.len(),
        i < m.text.len(),
    ensures
        prefix_at(sam::bounded(m), i) == prefix_at(m, i),
    decreases i,
{
    if i > 0 {
        lemma_bounded_prefix(m, i - 1);
    }
}

/// A boundary ends the open example and leaves the strings of the text as they are.
pub proof fn law_bounded_automaton(m: SamModel)
    requires
        is_automaton(m),
    ensures
        is_automaton(sam::bounded(m)),
{
    let next = sam::bounded(m);
    assert(open_example(next) =~= Seq::empty());
    assert forall|w: Seq<u32>| (#[trigger] read(next.states, w) >= 0) == factor(next, w) by {
        assert((read(m.states, w) >= 0) == factor(m, w));
        if factor(m, w) && w.len() > 0 {
            let i = choose|i: int| #[trigger] ending(m, w, i);
            lemma_bounded_prefix(m, i);
            assert(ending(next, w, i));
        }
        if factor(next, w) && w.len() > 0 {
            let i = choose|i: int| #[trigger] ending(next, w, i);
            lemma_bounded_prefix(m, i);
            assert(ending(m, w, i));
        }
    }
    assert forall|i: int| 0 <= i < next.text.len() implies next.states[read(
        next.states,
        #[trigger] prefix_at(next, i),
    )].len == prefix_at(next, i).len() by {
        lemma_bounded_prefix(m, i);
        assert(m.states[read(m.states, prefix_at(m, i))].len == prefix_at(m, i).len());
    }
}

/// Whether two automata differ in end positions only.
pub open spec fn same_graph(a: SamModel, b: SamModel) -> bool {
    &&& a.text == b.text
    &&& a.boundary_after == b.boundary_after
    &&& a.last == b.last
    &&& a.states.len() == b.states.len()
    &&& forall|v: int|
        0 <= v < a.states.len() ==> (#[trigger] a.states[v]).link == b.states[v].link && a.states[v].len
            == b.states[v].len && a.states[v].edges == b.states[v].edges
}

proof fn lemma_same_read(a: SamModel, b: SamModel, w: Seq<u32>)
    requires
        same_graph(a, b),
        graph_sound(a.states),
    ensures
        read(a.states, w) == read(b.states, w),
    decreases w.len(),
{
    if w.len() > 0 {
        lemma_same_read(a, b, w.drop_last());
        lemma_read_range(a.states, w.drop_last());
    }
}

pub proof fn lemma_same_prefixes(a: SamModel, b: SamModel, i: int)
    requires
        same_graph(a, b),
    ensures
        prefix_at(a, i) == prefix_at(b, i),
    decreases i,
{
    if i > 0 {
        lemma_same_prefixes(a, b, i - 1);
    }
}

/// End positions do not matter for what the states stand for.
pub proof fn law_same_graph(a: SamModel, b: SamModel)
    requires
        is_automaton(a),
        same_graph(a, b),
    ensures
        is_automaton(b),
        forall|w: Seq<u32>| #[trigger] read(a.states, w) == read(b.states, w),
{
    assert forall|w: Seq<u32>| #[trigger] read(a.states, w) == read(b.states, w) by {
        lemma_same_read(a, b, w);
    }
    assert forall|v: int, ch: u32| 0 <= v < b.states.len() implies #[trigger] edge_to(b.states, v, ch)
        == edge_to(a.states, v, ch) by {
        assert(a.states[v].edges == b.states[v].edges);
    }
    assert(a.states[0].len == b.states[0].len);
    assert forall|i: int| prefix_at(a, i) == #[trigger] prefix_at(b, i) by {
        lemma_same_prefixes(a, b, i);
    }
    assert(open_example(a) == open_example(b));
    assert forall|w: Seq<u32>| (#[trigger] read(b.states, w) >= 0) == factor(b, w) by {
        assert((read(a.states, w) >= 0) == factor(a, w));
        if factor(a, w) && w.len() > 0 {
            let i = choose|i: int| #[trigger] ending(a, w, i);
            assert(prefix_at(a, i) == prefix_at(b, i));
            assert(ending(b, w, i));
        }
        if factor(b, w) && w.len() > 0 {
            let i = choose|i: int| #[trigger] ending(b, w, i);
            assert(prefix_at(a, i) == prefix_at(b, i));
            assert(ending(a, w, i));
        }
    }
    assert forall|w: Seq<u32>| #[trigger] read(b.states, w) > 0 implies is_longest(
        b.states,
        read(b.states, w),
        longest_of(b.states, read(b.states, w)),
    ) by {
        assert(read(a.states, w) > 0);
        let t = read(a.states, w);
        let l = longest_of(a.states, t);
        lemma_read_longest(a, w);
        lemma_stands(a.states, t, l);
        let link = a.states[t].link;
        assert(a.states[t].len == b.states[t].len);
        assert(a.states[link].len == b.states[link].len);
        assert(read(b.states, l) == read(a.states, l));
        let e = tail(l, a.states[link].len);
        assert(read(b.states, e) == read(a.states, e));
        assert forall|k: int| b.states[link].len < k <= b.states[t].len implies read(
            b.states,
            #[trigger] tail(l, k),
        ) == t by {
            lemma_stands_end(a.states, t, l, k);
            lemma_same_read(a, b, tail(l, k));
        }
        assert forall|x: Seq<u32>| #[trigger] read(b.states, x) == t implies ends_with(l, x) && x.len()
            > b.states[link].len by {
            lemma_same_read(a, b, x);
            lemma_stands_only(a.states, t, l, x);
        }
        assert(stands_for(b.states, t, l)) by {
            reveal(stands_for);
        }
    }
    assert forall|i: int| 0 <= i < b.text.len() implies b.states[read(
        b.states,
        #[trigger] prefix_at(b, i),
    )].len == prefix_at(b, i).len() by {
        let p = prefix_at(a, i);
        assert(tail(p, p.len() as int) =~= p);
        assert(ending(a, p, i));
        assert((read(a.states, p) >= 0) == factor(a, p));
        lemma_read_range(a.states, p);
        assert(a.states[read(a.states, p)].len == b.states[read(a.states, p)].len);
    }
    let c = open_example(a);
    assert(a.states[a.last].len == b.states[b.last].len);
    assert(read(a.states, c) == read(b.states, c));
    if a.last != read(a.states, c) {
        assert forall|ch: u32| #[trigger] edge_to(b.states, b.last, ch) == -1 by {
            assert(edge_to(a.states, a.last, ch) == -1);
            assert(edge_to(b.states, b.last, ch) == edge_to(a.states, a.last, ch));
        }
        assert forall|w: Seq<u32>| #[trigger] read(b.states, w) != b.last by {
            assert(read(a.states, w) != a.last);
        }
    }
}

// ---------------------------------------------------------------------------------------
// Prompts
// ---------------------------------------------------------------------------------------

/// Whether `s` is the longest end of a prompt that stands in the text.
pub open spec fn is_longest_match(m: SamModel, prompt: Seq<u32>, s: Seq<u32>) -> bool {
    &&& ends_with(prompt, s)
    &&& stands_in(m, s)
    &&& forall|e: Seq<u32>|
        ends_with(prompt, e) && e.len() > s.len() ==> !(#[trigger] stands_in(m, e))
}

/// One symbol behind a prompt: the state of the longest end that stands in the text.
proof fn lemma_advanced(m: SamModel, prompt: Seq<u32>, s: Seq<u32>, ch: u32)
    requires
        is_automaton(m),
        is_longest_match(m, prompt, s),
    ensures
        exists|s2: Seq<u32>| #[trigger]
            is_longest_match(m, prompt.push(ch), s2) && sam::advanced(
                m.states,
                read(m.states, s),
                ch,
            ) == read(m.states, s2),
{
    let states = m.states;
    lemma_stands_in(m, s);
    assert((read(states, s) >= 0) == factor(m, s));
    lemma_read_longest(m, s);
    let t = read(states, s);
    let l = longest_of(states, t);
    let path = sam::path_of(states, t);
    assert(l.len() < states.len()) by {
        assert((read(states, l) >= 0) == factor(m, l));
        if l.len() > 0 {
            let i = choose|i: int| #[trigger] ending(m, l, i);
            lemma_prefix_len(m, i);
        }
    }
    lemma_path_sound(m, t, l, states.len());
    lemma_first_edge(states, path, ch, 0);
    let k = sam::first_with_edge(states, path, ch, 0);
    let p2 = prompt.push(ch);
    let b = if k == path.len() {
        -1
    } else if k == 0 {
        s.len() as int
    } else {
        states[path[k]].len
    };
    if 0 < k < path.len() {
        assert(t != 0) by {
            if t == 0 {
                assert(states[path[0]].len > states[path[k]].len);
            }
        }
        lemma_stands(states, t, l);
        lemma_stands_only(states, t, l, s);
        lemma_paths_link(states, t, states.len());
        assert(path[1] == states[t].link);
        if k > 1 {
            assert(states[path[1]].len > states[path[k]].len);
        }
        assert(b < s.len());
    }
    let e = tail(s, b);
    let s2 = if k == path.len() {
        Seq::<u32>::empty()
    } else {
        e.push(ch)
    };
    if k < path.len() {
        lemma_tail_tail(s, s.len() as int, s.len() as int);
        assert(tail(s, s.len() as int) =~= s);
        lemma_tail_tail(s, s.len() as int, b);
        lemma_ends_nested(l, s, tail(s, s.len() as int));
        lemma_tail_tail(l, s.len() as int, b);
        assert(e == tail(l, b));
        assert(path[k] == read(states, e));
        lemma_read_push(states, e, ch);
        lemma_ends_trans(prompt, s, e);
        lemma_ends_push(prompt, e, ch, ch);
        assert((read(states, s2) >= 0) == factor(m, s2));
        lemma_stands_in(m, s2);
    } else {
        assert(tail(p2, 0) =~= s2);
    }
    assert forall|x: Seq<u32>| ends_with(p2, x) && x.len() > s2.len() implies !(#[trigger] stands_in(
        m,
        x,
    )) by {
        let y = x.drop_last();
        assert(x =~= y.push(x.last()));
        lemma_ends_push(prompt, y, ch, x.last());
        lemma_stands_in(m, x);
        lemma_stands_in(m, y);
        lemma_read_push(states, y, ch);
        assert((read(states, x) >= 0) == factor(m, x));
        assert((read(states, y) >= 0) == factor(m, y));
        if y.len() > s.len() {
            assert(!stands_in(m, y));
        } else {
            lemma_ends_nested(prompt, s, y);
            lemma_ends_trans(l, s, y);
            assert(path.contains(read(states, tail(l, y.len() as int))));
            let j = choose|j: int| 0 <= j < path.len() && path[j] == read(states, y);
            lemma_read_longest(m, y);
            if k < path.len() && j >= k {
                if j > k {
                    assert(states[path[k]].len > states[path[j]].len);
                }
                assert(y.len() <= states[path[k]].len);
                assert(k == 0);
                assert(false);
            }
            assert(edge_to(states, path[j], ch) == -1);
        }
    }
    assert(is_longest_match(m, p2, s2));
}

/// Along a path each state is the suffix link of the one in front of it.
proof fn lemma_paths_link(states: Seq<StateModel>, t: int, fuel: nat)
    ensures
        ({
            let path = sam::suffix_path(states, t, fuel);
            &&& path.len() > 0 ==> path[0] == t && 0 <= t < states.len()
            &&& forall|j: int|
                0 <= j < path.len() - 1 ==> #[trigger] path[j + 1] == states[path[j]].link
        }),
    decreases fuel,
{
    let path = sam::suffix_path(states, t, fuel);
    if fuel > 0 && 0 <= t < states.len() {
        let rest = sam::suffix_path(states, states[t].link, (fuel - 1) as nat);
        lemma_paths_link(states, states[t].link, (fuel - 1) as nat);
        assert(path == seq![t] + rest);
        assert forall|j: int| 0 <= j < path.len() - 1 implies #[trigger] path[j + 1]
            == states[path[j]].link by {
            if j > 0 {
                assert(rest[(j - 1) + 1] == states[rest[j - 1]].link);
                assert(path[j] == rest[j - 1]);
            }
        }
    }
}

/// Behind a prompt the automaton is in the state of the longest end of the prompt that stands in the
/// text; behind one that stands there as a whole, in the state that it is read as.
pub proof fn law_prompt_state(m: SamModel, prompt: Seq<u32>)
    requires
        is_automaton(m),
    ensures
        exists|s: Seq<u32>| #[trigger]
            is_longest_match(m, prompt, s) && scoring::walked(m, 0, prompt) == read(m.states, s),
        stands_in(m, prompt) ==> scoring::walked(m, 0, prompt) == read(m.states, prompt),
    decreases prompt.len(),
{
    if prompt.len() == 0 {
        assert(tail(prompt, 0) =~= prompt);
        assert(is_longest_match(m, prompt, prompt));
    } else {
        let rest = prompt.drop_last();
        law_prompt_state(m, rest);
        let s = choose|s: Seq<u32>| #[trigger]
            is_longest_match(m, rest, s) && scoring::walked(m, 0, rest) == read(m.states, s);
        lemma_advanced(m, rest, s, prompt.last());
        assert(rest.push(prompt.last()) =~= prompt);
        let s2 = choose|s2: Seq<u32>| #[trigger]
            is_longest_match(m, prompt, s2) && sam::advanced(
                m.states,
                read(m.states, s),
                prompt.last(),
            ) == read(m.states, s2);
        assert(is_longest_match(m, prompt, s2) && scoring::walked(m, 0, prompt) == read(
            m.states,
            s2,
        ));
        if stands_in(m, prompt) {
            assert(tail(prompt, prompt.len() as int) =~= prompt);
            assert(s2.len() >= prompt.len());
            assert(s2 =~= prompt);
        }
    }
}

// ---------------------------------------------------------------------------------------
// Contexts
// ---------------------------------------------------------------------------------------

/// A path that leads by suffix links from a state to the root, through ever shorter strings.
pub open spec fn is_tidy_path(states: Seq<StateModel>, start: int, path: Seq<int>) -> bool {
    &&& path.len() > 0
    &&& path[0] == start
    &&& path.last() == 0
    &&& forall|j: int| 0 <= j < path.len() ==> 0 <= #[trigger] path[j] < states.len()
    &&& forall|i: int, j: int|
        0 <= i < j < path.len() ==> states[#[trigger] path[i]].len > states[#[trigger] path[j]].len
    &&& forall|j: int| 0 <= j < path.len() - 1 ==> #[trigger] path[j + 1] == states[path[j]].link
}

proof fn lemma_longest_short(m: SamModel, l: Seq<u32>)
    requires
        is_automaton(m),
        read(m.states, l) >= 0,
    ensures
        l.len() < m.states.len(),
{
    assert((read(m.states, l) >= 0) == factor(m, l));
    if l.len() > 0 {
        let i = choose|i: int| #[trigger] ending(m, l, i);
        lemma_prefix_len(m, i);
    }
}

proof fn lemma_first_short(states: Seq<StateModel>, path: Seq<int>, max_order: int, from: int)
    requires
        0 <= from < path.len(),
        path.last() == 0,
        states[0].len == 0,
        max_order >= 0,
    ensures
        exists|j: int|
            from <= j < path.len() && sam_walk::first_short(states, path, max_order, from)
                == #[trigger] path[j] && states[path[j]].len <= max_order && forall|i: int|
                from <= i < j ==> states[#[trigger] path[i]].len > max_order,
    decreases path.len() - from,
{
    if states[path[from]].len > max_order {
        lemma_first_short(states, path, max_order, from + 1);
        let j = choose|j: int|
            from + 1 <= j < path.len() && sam_walk::first_short(states, path, max_order, from + 1)
                == #[trigger] path[j] && states[path[j]].len <= max_order && forall|i: int|
                from + 1 <= i < j ==> states[#[trigger] path[i]].len > max_order;
        assert(sam_walk::first_short(states, path, max_order, from) == path[j]);
    } else {
        assert(sam_walk::first_short(states, path, max_order, from) == path[from]);
    }
}

/// The states behind a string that is the longest of its state: those of its ends, as far as their
/// order is allowed.
pub proof fn lemma_contexts(m: SamModel, p: Seq<u32>, max_order: int)
    requires
        is_automaton(m),
        read(m.states, p) >= 0,
        m.states[read(m.states, p)].len == p.len(),
    ensures
        ({
            let start = sam_walk::capped(m.states, max_order, read(m.states, p));
            let path = sam::path_of(m.states, start);
            &&& is_tidy_path(m.states, start, path)
            &&& max_order >= 0 ==> m.states[start].len <= max_order
            &&& forall|c: Seq<u32>|
                stands_in(m, c) ==> path.contains(#[trigger] read(m.states, c)) == (ends_with(p, c)
                    && (max_order < 0 || m.states[read(m.states, c)].len <= max_order))
        }),
{
    let states = m.states;
    let t = read(states, p);
    let whole = sam::path_of(states, t);
    lemma_read_longest(m, p);
    lemma_longest_short(m, p);
    lemma_path_sound(m, t, p, states.len());
    let start = sam_walk::capped(states, max_order, t);
    let path = sam::path_of(states, start);
    let at = if max_order < 0 {
        0
    } else {
        lemma_first_short(states, whole, max_order, 0);
        choose|j: int|
            0 <= j < whole.len() && sam_walk::first_short(states, whole, max_order, 0)
                == #[trigger] whole[j] && states[whole[j]].len <= max_order && forall|i: int|
                0 <= i < j ==> states[#[trigger] whole[i]].len > max_order
    };
    assert(start == whole[at]);
    let n = states[start].len;
    let l = tail(p, n);
    lemma_tail_tail(p, n, n);
    assert(tail(p, p.len() as int) =~= p);
    assert(start == read(states, l));
    lemma_read_longest(m, l);
    lemma_path_sound(m, start, l, states.len());
    lemma_paths_link(states, start, states.len());
    assert forall|c: Seq<u32>| stands_in(m, c) implies path.contains(#[trigger] read(states, c)) == (
    ends_with(p, c) && (max_order < 0 || states[read(states, c)].len <= max_order)) by {
        lemma_stands_in(m, c);
        assert((read(states, c) >= 0) == factor(m, c));
        lemma_read_longest(m, c);
        let v = read(states, c);
        if path.contains(v) {
            let j = choose|j: int| 0 <= j < path.len() && path[j] == v;
            let e = tail(l, states[v].len);
            assert(v == read(states, e));
            lemma_tail_tail(l, states[v].len, states[v].len);
            lemma_read_longest(m, e);
            lemma_ends_trans(l, e, c);
            lemma_ends_trans(p, l, c);
        }
        if ends_with(p, c) && (max_order < 0 || states[v].len <= max_order) {
            assert(c == tail(p, c.len() as int));
            assert(whole.contains(read(states, tail(p, c.len() as int))));
            let j = choose|j: int| 0 <= j < whole.len() && whole[j] == v;
            if max_order >= 0 && j < at {
                assert(states[whole[j]].len > max_order);
            }
            if j > at {
                assert(states[whole[at]].len > states[whole[j]].len);
            }
            lemma_ends_nested(p, l, c);
            assert(path.contains(read(states, tail(l, c.len() as int))));
        }
    }
}

/// The state behind the symbol at `i`, read from the last boundary in front of it, is that of the
/// example up to there.
pub proof fn lemma_context_after(m: SamModel, i: int)
    requires
        is_automaton(m),
        0 <= i < m.text.len(),
    ensures
        lm_build::context_after(m, i) == read(m.states, prefix_at(m, i)),
        read(m.states, prefix_at(m, i)) >= 0,
        m.states[read(m.states, prefix_at(m, i))].len == prefix_at(m, i).len(),
        stands_in(m, prefix_at(m, i)),
    decreases i,
{
    let states = m.states;
    let p = prefix_at(m, i);
    assert(tail(p, p.len() as int) =~= p);
    assert(ending(m, p, i));
    assert((read(states, p) >= 0) == factor(m, p));
    lemma_stands_in(m, p);
    let before = if i == 0 || m.boundary_after[i - 1] != 0 {
        Seq::<u32>::empty()
    } else {
        prefix_at(m, i - 1)
    };
    if !(i == 0 || m.boundary_after[i - 1] != 0) {
        lemma_context_after(m, i - 1);
    }
    assert(p =~= before.push(m.text[i]));
    lemma_read_push(states, before, m.text[i]);
    lemma_read_range(states, before);
    let v = read(states, before);
    let path = sam::path_of(states, v);
    lemma_paths_link(states, v, states.len());
    assert(path == seq![v] + sam::suffix_path(states, states[v].link, (states.len() - 1) as nat));
    assert(path[0] == v);
    assert(states[path[0]].edges.contains_key(m.text[i]));
    assert(sam::first_with_edge(states, path, m.text[i], 0) == 0);
}

/// The contexts that are counted behind the symbol at `i`: the strings that end there.
pub proof fn lemma_contexts_at(m: SamModel, i: int, max_order: int)
    requires
        is_automaton(m),
        0 <= i < m.text.len(),
    ensures
        ({
            let start = sam_walk::capped(m.states, max_order, lm_build::context_after(m, i));
            let path = sam::path_of(m.states, start);
            &&& is_tidy_path(m.states, start, path)
            &&& forall|c: Seq<u32>|
                stands_in(m, c) ==> path.contains(#[trigger] read(m.states, c)) == (ends_at(m, c, i) && (
                max_order < 0 || m.states[read(m.states, c)].len <= max_order))
        }),
{
    let p = prefix_at(m, i);
    lemma_context_after(m, i);
    lemma_contexts(m, p, max_order);
    let start = sam_walk::capped(m.states, max_order, lm_build::context_after(m, i));
    let path = sam::path_of(m.states, start);
    assert forall|c: Seq<u32>| stands_in(m, c) implies path.contains(#[trigger] read(m.states, c)) == (
    ends_at(m, c, i) && (max_order < 0 || m.states[read(m.states, c)].len <= max_order)) by {
        lemma_ending(m, c, i);
    }
}

/// A string that stands in the text is read as a state.
pub proof fn lemma_read_state(m: SamModel, c: Seq<u32>)
    requires
        is_automaton(m),
        stands_in(m, c),
    ensures
        0 <= read(m.states, c) < m.states.len(),
        m.states[read(m.states, c)].len >= c.len(),
        m.states[0].len == 0,
        m.states[0].link == -1,
{
    lemma_stands_in(m, c);
    assert((read(m.states, c) >= 0) == factor(m, c));
    lemma_read_longest(m, c);
}

// ---------------------------------------------------------------------------------------
// End positions
// ---------------------------------------------------------------------------------------

spec fn is_named(states: Seq<StateModel>, x: int) -> bool {
    exists|w: Seq<u32>| #[trigger] read(states, w) == x
}

/// The strings of a state, and those of its suffix link, end at its end position.
spec fn mark_ok(m: SamModel, v: int, w: Seq<u32>) -> bool {
    read(m.states, w) == v || read(m.states, w) == m.states[v].link ==> ending(
        m,
        w,
        m.states[v].endpos,
    )
}

/// Whether the end position of each state is a place at which its strings end.
pub closed spec fn ends_sound(m: SamModel) -> bool {
    &&& forall|v: int|
        0 < v < m.states.len() ==> 0 <= (#[trigger] m.states[v]).link < m.states.len() && is_named(
            m.states,
            m.states[v].link,
        )
    &&& forall|v: int, w: Seq<u32>| 0 < v < m.states.len() ==> #[trigger] mark_ok(m, v, w)
}

/// Whether each place of the text is an end position of the state of the example up to it, or one
/// in front of that.
pub open spec fn all_marked(m: SamModel) -> bool {
    forall|i: int|
        0 <= i < m.text.len() ==> m.states[read(m.states, #[trigger] prefix_at(m, i))].endpos >= i
}

/// The strings of a state end at its end position.
pub proof fn lemma_marked(m: SamModel, w: Seq<u32>)
    requires
        is_automaton(m),
        ends_sound(m),
        read(m.states, w) > 0,
    ensures
        ends_at(m, w, m.states[read(m.states, w)].endpos),
{
    lemma_read_range(m.states, w);
    assert(mark_ok(m, read(m.states, w), w));
    lemma_ending(m, w, m.states[read(m.states, w)].endpos);
}

proof fn lemma_named_after(m: SamModel, ch: u32, x: int)
    requires
        is_automaton(m),
        is_named(m.states, x),
        0 <= x < m.states.len(),
    ensures
        is_named(sam::fed(m, ch).states, x),
{
    let s = m.states;
    let w = choose|w: Seq<u32>| #[trigger] read(s, w) == x;
    lemma_read_longest(m, w);
    let l = longest_of(s, x);
    lemma_read_after(m, ch, l);
    assert((read(s, l) >= 0) == factor(m, l));
    if splits(m, ch) {
        lemma_met(m, ch);
    }
    assert(read(sam::fed(m, ch).states, l) == x);
}

/// Where strings end, they end after one more symbol too.
proof fn lemma_ending_kept(m: SamModel, ch: u32, w: Seq<u32>, i: int)
    requires
        m.boundary_after.len() == m.text.len(),
        ending(m, w, i),
    ensures
        ending(sam::fed(m, ch), w, i),
{
    lemma_prefix_kept(m, ch, i);
}

/// End positions are kept right by one more symbol.
pub proof fn law_fed_ends(m: SamModel, ch: u32)
    requires
        is_automaton(m),
        ends_sound(m),
    ensures
        ends_sound(sam::fed(m, ch)),
{
    let next = sam::fed(m, ch);
    let s = m.states;
    let s2 = next.states;
    let r = s.len() as int;
    let u = r + 1;
    let q = met_target(m, ch);
    let n = met_len(m, ch);
    let c = open_example(m);
    let split = splits(m, ch);
    lemma_shape(m, ch);
    lemma_open_example(m);
    lemma_factor_after(m, ch, c);
    if is_met(m, ch) {
        lemma_met(m, ch);
        let lp = tail(c, n);
        lemma_read_after(m, ch, lp.push(ch));
        assert((read(s, lp.push(ch)) >= 0) == factor(m, lp.push(ch)));
        assert(read(s2, lp.push(ch)) == s2[r].link);
        assert(is_named(s2, s2[r].link));
        if split {
            assert(is_named(s2, u));
            assert(is_named(s, s[q].link));
            lemma_named_after(m, ch, s[q].link);
        }
    } else {
        assert(read(s2, Seq::empty()) == 0);
        assert(is_named(s2, s2[r].link));
    }
    assert forall|v: int| 0 < v < s2.len() implies 0 <= (#[trigger] s2[v]).link < s2.len() && is_named(
        s2,
        s2[v].link,
    ) by {
        if v < r {
            assert(s[v].link < s.len());
            lemma_named_after(m, ch, s[v].link);
        }
    }
    assert forall|v: int, w: Seq<u32>| 0 < v < s2.len() implies #[trigger] mark_ok(next, v, w) by {
        lemma_read_after(m, ch, w);
        lemma_read_range(s, w);
        let x = read(s2, w);
        if x == v || x == s2[v].link {
            if v < r {
                assert(mark_ok(m, v, w));
                assert(s[v].link < s.len());
                assert(read(s, w) == v || read(s, w) == s[v].link);
                lemma_ending_kept(m, ch, w, s[v].endpos);
            } else if v == r {
                if x == r {
                    assert(ending(next, w, m.text.len() as int));
                } else if !is_met(m, ch) {
                    lemma_read_range_of_fed(m, ch, w);
                    assert(tail(c.push(ch), 0) =~= w);
                } else {
                    let lp = tail(c, n);
                    let lq = longest_of(s, q);
                    assert(read(s, w) == q);
                    lemma_stands_only(s, q, lq, w);
                    lemma_stands(s, q, lq);
                    lemma_ends_nested(lq, lp.push(ch), w);
                    lemma_ends_push(c, lp, ch, ch);
                    lemma_ends_trans(c.push(ch), lp.push(ch), w);
                }
            } else {
                assert(mark_ok(m, q, w));
                assert(s[q].link < s.len());
                assert(read(s, w) == q || read(s, w) == s[q].link);
                lemma_ending_kept(m, ch, w, s[q].endpos);
            }
        }
    }
}

proof fn lemma_read_range_of_fed(m: SamModel, ch: u32, w: Seq<u32>)
    requires
        is_automaton(m),
        read(sam::fed(m, ch).states, w) == 0,
    ensures
        w.len() == 0,
{
    lemma_graph_after(m, ch);
    lemma_read_range(sam::fed(m, ch).states, w);
}

/// A boundary leaves end positions right.
pub proof fn law_bounded_ends(m: SamModel)
    requires
        is_automaton(m),
        ends_sound(m),
    ensures
        ends_sound(sam::bounded(m)),
        all_marked(m) ==> all_marked(sam::bounded(m)),
{
    let next = sam::bounded(m);
    assert forall|v: int, w: Seq<u32>| 0 < v < next.states.len() implies #[trigger] mark_ok(next, v, w) by {
        assert(mark_ok(m, v, w));
        if ending(m, w, m.states[v].endpos) {
            lemma_bounded_prefix(m, m.states[v].endpos);
        }
    }
    if all_marked(m) {
        assert forall|i: int| 0 <= i < next.text.len() implies next.states[read(
            next.states,
            #[trigger] prefix_at(next, i),
        )].endpos >= i by {
            lemma_bounded_prefix(m, i);
            assert(m.states[read(m.states, prefix_at(m, i))].endpos >= i);
        }
    }
}

/// The automaton of the empty text has no end positions.
pub proof fn law_empty_ends()
    ensures
        ends_sound(sam::empty_sam()),
        all_marked(sam::empty_sam()),
{
}

/// Handing an end position up to the suffix link leaves end positions right.
proof fn lemma_raised_ends(m: SamModel, v: int)
    requires
        is_automaton(m),
        ends_sound(m),
        0 <= v < m.states.len(),
    ensures
        ({
            let next = SamModel { states: sam_walk::endpos_raised(m.states, v), ..m };
            &&& is_automaton(next)
            &&& ends_sound(next)
            &&& same_graph(m, next)
            &&& forall|x: int|
                0 <= x < m.states.len() ==> (#[trigger] next.states[x]).endpos >= m.states[x].endpos
            &&& v > 0 ==> next.states[m.states[v].link].endpos >= m.states[v].endpos
        }),
{
    let s = m.states;
    let s2 = sam_walk::endpos_raised(s, v);
    let next = SamModel { states: s2, ..m };
    let p = s[v].link;
    law_same_graph(m, next);
    if v > 0 {
        assert(0 <= s[v].link < s.len());
    }
    assert forall|x: int| 0 < x < s2.len() implies 0 <= (#[trigger] s2[x]).link < s2.len() && is_named(
        s2,
        s2[x].link,
    ) by {
        assert(s[x].link < s.len());
        let w = choose|w: Seq<u32>| #[trigger] read(s, w) == s[x].link;
        assert(read(s2, w) == read(s, w));
    }
    assert forall|x: int, w: Seq<u32>| 0 < x < s2.len() implies #[trigger] mark_ok(next, x, w) by {
        assert(read(s2, w) == read(s, w));
        assert(mark_ok(m, x, w));
        if x == p && v > 0 && s[v].endpos > s[p].endpos && (read(s, w) == p || read(s, w) == s[p].link) {
            assert(mark_ok(m, v, w));
            let b = choose|b: Seq<u32>| #[trigger] read(s, b) == p;
            assert(is_named(s, s[v].link));
            lemma_read_longest(m, b);
            let l = longest_of(s, p);
            assert(mark_ok(m, v, l));
            if read(s, w) != p {
                lemma_stands(s, p, l);
                let e = tail(l, s[s[p].link].len);
                lemma_read_longest(m, e);
                lemma_read_longest(m, w);
                lemma_tail_tail(l, s[s[p].link].len, s[s[p].link].len);
                lemma_ends_trans(l, e, w);
                lemma_ends_trans(prefix_at(m, s[v].endpos), l, w);
            }
            lemma_same_prefixes(m, next, s[v].endpos);
        }
        if ending(m, w, s[x].endpos) {
            lemma_same_prefixes(m, next, s[x].endpos);
        }
    }
}

/// Handing end positions up leaves them right, and the strings as they are.
pub proof fn lemma_raised_all_ends(m: SamModel, order: Seq<int>, n: int)
    requires
        is_automaton(m),
        ends_sound(m),
        forall|i: int| 0 <= i < order.len() ==> 0 <= #[trigger] order[i] < m.states.len(),
    ensures
        ({
            let next = SamModel { states: sam_walk::endpos_raised_all(m.states, order, n), ..m };
            &&& is_automaton(next)
            &&& ends_sound(next)
            &&& same_graph(m, next)
            &&& forall|x: int|
                0 <= x < m.states.len() ==> (#[trigger] next.states[x]).endpos >= m.states[x].endpos
        }),
    decreases n,
{
    if n <= 0 || n > order.len() {
    } else {
        let v = order[n - 1];
        let mid = SamModel { states: sam_walk::endpos_raised(m.states, v), ..m };
        lemma_raised_ends(m, v);
        lemma_raised_all_ends(mid, order, n - 1);
        let next = SamModel { states: sam_walk::endpos_raised_all(m.states, order, n), ..m };
        assert forall|x: int| 0 <= x < m.states.len() implies (#[trigger] next.states[x]).endpos
            >= m.states[x].endpos by {
            assert(mid.states[x].endpos >= m.states[x].endpos);
        }
        assert forall|x: int| 0 <= x < m.states.len() implies (#[trigger] m.states[x]).link
            == next.states[x].link && m.states[x].len == next.states[x].len && m.states[x].edges
            == next.states[x].edges by {
            assert(m.states[x].link == mid.states[x].link);
            assert(mid.states[x].link == next.states[x].link);
        }
    }
}

/// One step of handing up, for those who follow it.
pub proof fn lemma_raised_step(m: SamModel, v: int)
    requires
        is_automaton(m),
        ends_sound(m),
        0 <= v < m.states.len(),
    ensures
        ({
            let next = SamModel { states: sam_walk::endpos_raised(m.states, v), ..m };
            &&& is_automaton(next)
            &&& ends_sound(next)
            &&& same_graph(m, next)
            &&& forall|x: int|
                0 <= x < m.states.len() ==> (#[trigger] next.states[x]).endpos >= m.states[x].endpos
            &&& v > 0 ==> 0 <= m.states[v].link < m.states.len()
                && next.states[m.states[v].link].endpos >= m.states[v].endpos
        }),
{
    lemma_raised_ends(m, v);
    if v > 0 {
        assert(0 <= m.states[v].link < m.states.len());
    }
}

/// Where the text has no boundary, each place is marked, and stays so with one more symbol.
pub proof fn law_one_example_marked(m: SamModel, ch: u32)
    requires
        is_automaton(m),
        all_marked(m),
        forall|b: int| 0 <= b < m.text.len() ==> #[trigger] m.boundary_after[b] == 0,
    ensures
        all_marked(sam::fed(m, ch)),
        forall|b: int|
            0 <= b < sam::fed(m, ch).text.len() ==> #[trigger] sam::fed(m, ch).boundary_after[b] == 0,
{
    let next = sam::fed(m, ch);
    let s = m.states;
    let s2 = next.states;
    let c = open_example(m);
    let c2 = c.push(ch);
    lemma_shape(m, ch);
    lemma_factor_after(m, ch, c2);
    lemma_whole_prefix(m, m.text.len() - 1);
    assert(c.len() == m.text.len());
    assert(!factor(m, c2)) by {
        if factor(m, c2) {
            let i = choose|i: int| #[trigger] ending(m, c2, i);
            lemma_prefix_len(m, i);
        }
    }
    lemma_read_after(m, ch, c2);
    assert(tail(c2, c2.len() as int) =~= c2);
    if splits(m, ch) {
        lemma_met(m, ch);
    }
    assert forall|i: int| 0 <= i < next.text.len() implies s2[read(s2, #[trigger] prefix_at(next, i))].endpos
        >= i by {
        if i < m.text.len() {
            lemma_prefix_kept(m, ch, i);
            let p = prefix_at(m, i);
            assert(tail(p, p.len() as int) =~= p);
            assert(ending(m, p, i));
            lemma_read_after(m, ch, p);
            assert((read(s, p) >= 0) == factor(m, p));
            lemma_read_range(s, p);
            assert(s[read(s, p)].len == p.len());
            assert(s[read(s, p)].endpos >= i);
        }
    }
}

proof fn lemma_whole_prefix(m: SamModel, i: int)
    requires
        i < m.text.len(),
        forall|b: int| 0 <= b < m.text.len() ==> #[trigger] m.boundary_after[b] == 0,
    ensures
        i >= 0 ==> prefix_at(m, i).len() == i + 1,
    decreases i,
{
    if i > 0 {
        assert(m.boundary_after[i - 1] == 0);
        lemma_whole_prefix(m, i - 1);
    }
}

/// The path of the state of a string: the states of its ends.
pub proof fn lemma_match_path(m: SamModel, s: Seq<u32>)
    requires
        is_automaton(m),
        stands_in(m, s),
    ensures
        ({
            let states = m.states;
            let path = sam::path_of(states, read(states, s));
            &&& is_tidy_path(states, read(states, s), path)
            &&& s.len() <= states[path[0]].len
            &&& forall|j: int|
                0 < j < path.len() ==> 0 <= states[#[trigger] path[j]].len < s.len() && path[j] == read(
                    states,
                    tail(s, states[path[j]].len),
                )
            &&& forall|e: Seq<u32>|
                ends_with(s, e) ==> path.contains(#[trigger] read(states, e)) && stands_in(m, e)
                    && states[read(states, e)].len >= e.len()
        }),
{
    let states = m.states;
    lemma_stands_in(m, s);
    assert((read(states, s) >= 0) == factor(m, s));
    lemma_read_longest(m, s);
    let t = read(states, s);
    let l = longest_of(states, t);
    let path = sam::path_of(states, t);
    lemma_longest_short(m, l);
    lemma_path_sound(m, t, l, states.len());
    lemma_paths_link(states, t, states.len());
    assert forall|j: int| 0 < j < path.len() implies 0 <= states[#[trigger] path[j]].len < s.len()
        && path[j] == read(states, tail(s, states[path[j]].len)) by {
        assert(t != 0) by {
            if t == 0 {
                assert(states[path[0]].len > states[path[j]].len);
            }
        }
        lemma_stands(states, t, l);
        lemma_stands_only(states, t, l, s);
        assert(path[0int + 1] == states[path[0]].link);
        if j > 1 {
            assert(states[path[1]].len > states[path[j]].len);
        }
        let b = states[path[j]].len;
        lemma_tail_tail(l, s.len() as int, b);
        assert(tail(s, b) == tail(l, b));
    }
    assert forall|e: Seq<u32>| ends_with(s, e) implies path.contains(#[trigger] read(states, e))
        && stands_in(m, e) && states[read(states, e)].len >= e.len() by {
        lemma_ends_trans(l, s, e);
        assert(path.contains(read(states, tail(l, e.len() as int))));
        lemma_factor_end(m, s, e);
        lemma_stands_in(m, e);
        assert((read(states, e) >= 0) == factor(m, e));
        lemma_read_longest(m, e);
    }
}

/// Ends of a string, and ends of its ends.
pub proof fn lemma_tails(w: Seq<u32>, k: int, j: int)
    requires
        0 <= j <= k <= w.len(),
    ensures
        tail(tail(w, k), j) == tail(w, j),
        tail(w, k).len() == k,
        ends_with(w, tail(w, k)),
{
    lemma_tail_tail(w, k, j);
}

/// Of two ends of a string the longer one ends with the shorter one.
pub proof fn lemma_ends_of_ends(w: Seq<u32>, s: Seq<u32>, t: Seq<u32>)
    requires
        ends_with(w, s),
        ends_with(w, t),
    ensures
        t.len() <= s.len() ==> ends_with(s, t),
        s.len() == t.len() ==> s == t,
{
    if t.len() <= s.len() {
        lemma_ends_nested(w, s, t);
    }
}

/// What ends with a string ends with what that ends with.
pub proof fn lemma_ends_through(w: Seq<u32>, s: Seq<u32>, t: Seq<u32>)
    requires
        ends_with(w, s),
        ends_with(s, t),
    ensures
        ends_with(w, t),
{
    lemma_ends_trans(w, s, t);
}

/// Only the empty string is read as the root.
pub proof fn lemma_root_reads_nothing(m: SamModel, w: Seq<u32>)
    requires
        is_automaton(m),
    ensures
        read(m.states, w) == 0 <==> w.len() == 0,
{
    lemma_read_range(m.states, w);
}

// ---------------------------------------------------------------------------------------
// States behind the symbols
// ---------------------------------------------------------------------------------------

/// Whether a state is that of an example up to a place, or stands beside it.
spec fn stands_behind(m: SamModel, i: int, t: int) -> bool {
    let p = prefix_at(m, i);
    &&& 0 <= t < m.states.len()
    &&& m.states[t].len == p.len()
    &&& t == read(m.states, p) || {
        &&& m.states[t].link == read(m.states, p)
        &&& p.len() < m.text.len()
        &&& forall|w: Seq<u32>| #[trigger] read(m.states, w) != t
    }
}

/// Whether the states that are kept behind the symbols are those of the examples up to there.
pub closed spec fn states_sound(m: SamModel) -> bool {
    &&& m.text_states.len() == m.text.len() + 1
    &&& forall|i: int|
        0 <= i < m.text.len() ==> stands_behind(m, i, #[trigger] m.text_states[i + 1])
}

/// In the empty text there are no states behind symbols.
pub proof fn law_empty_states()
    ensures
        states_sound(sam::empty_sam()),
{
}

/// One more symbol: its state is kept.
pub proof fn law_fed_states(m: SamModel, ch: u32)
    requires
        is_automaton(m),
        states_sound(m),
    ensures
        states_sound(sam::fed(m, ch)),
        sam::fed(m, ch).states.len() > m.states.len(),
{
    let next = sam::fed(m, ch);
    let s = m.states;
    let s2 = next.states;
    let n = m.text.len() as int;
    law_fed_automaton(m, ch);
    lemma_shape(m, ch);
    lemma_factor_after(m, ch, open_example(m));
    if splits(m, ch) {
        lemma_met(m, ch);
    }
    assert forall|i: int| 0 <= i < next.text.len() implies stands_behind(
        next,
        i,
        #[trigger] next.text_states[i + 1],
    ) by {
        if i < n {
            let t = m.text_states[i + 1];
            assert(stands_behind(m, i, t));
            assert(next.text_states[i + 1] == t);
            lemma_prefix_kept(m, ch, i);
            let p = prefix_at(m, i);
            assert(tail(p, p.len() as int) =~= p);
            assert(ending(m, p, i));
            lemma_read_after(m, ch, p);
            assert((read(s, p) >= 0) == factor(m, p));
            lemma_read_range(s, p);
            assert(s[read(s, p)].len == p.len());
            if t != read(s, p) {
                assert forall|w: Seq<u32>| #[trigger] read(s2, w) != t by {
                    lemma_read_after(m, ch, w);
                    assert(read(s, w) != t);
                }
                if splits(m, ch) {
                    assert(read(s, tail(open_example(m), met_len(m, ch)).push(ch)) != t);
                }
            }
        } else {
            assert(next.text_states[n + 1] == s.len());
            assert(prefix_at(next, n) == open_example(next));
        }
    }
}

/// A boundary leaves the states behind the symbols.
pub proof fn law_bounded_states(m: SamModel)
    requires
        is_automaton(m),
        states_sound(m),
    ensures
        states_sound(sam::bounded(m)),
{
    let next = sam::bounded(m);
    assert forall|i: int| 0 <= i < next.text.len() implies stands_behind(
        next,
        i,
        #[trigger] next.text_states[i + 1],
    ) by {
        lemma_bounded_prefix(m, i);
        assert(stands_behind(m, i, m.text_states[i + 1]));
    }
}

/// End positions do not matter for the states behind the symbols.
pub proof fn law_same_graph_states(a: SamModel, b: SamModel)
    requires
        is_automaton(a),
        states_sound(a),
        same_graph(a, b),
        a.text_states == b.text_states,
    ensures
        states_sound(b),
{
    law_same_graph(a, b);
    assert forall|i: int| 0 <= i < b.text.len() implies stands_behind(
        b,
        i,
        #[trigger] b.text_states[i + 1],
    ) by {
        let t = a.text_states[i + 1];
        lemma_same_prefixes(a, b, i);
        assert(stands_behind(a, i, t));
        assert(a.states[t].len == b.states[t].len);
        let p = prefix_at(a, i);
        assert(read(a.states, p) == read(b.states, p));
        if t != read(a.states, p) {
            assert forall|w: Seq<u32>| #[trigger] read(b.states, w) != t by {
                assert(read(a.states, w) != t);
            }
        }
    }
}

/// Strings whose states a path holds.
proof fn lemma_path_strings(m: SamModel, l: Seq<u32>, path: Seq<int>, c: Seq<u32>)
    requires
        is_automaton(m),
        path_sound(m.states, l, path),
        read(m.states, l) >= 0,
        stands_in(m, c),
    ensures
        path.contains(read(m.states, c)) == ends_with(l, c),
{
    let states = m.states;
    lemma_stands_in(m, c);
    assert((read(states, c) >= 0) == factor(m, c));
    lemma_read_longest(m, c);
    let v = read(states, c);
    if path.contains(v) {
        let j = choose|j: int| 0 <= j < path.len() && path[j] == v;
        assert(0 <= path[j]);
        let e = tail(l, states[v].len);
        lemma_tail_tail(l, states[v].len, states[v].len);
        lemma_read_longest(m, e);
        lemma_ends_trans(l, e, c);
    }
    if ends_with(l, c) {
        assert(path.contains(read(states, tail(l, c.len() as int))));
    }
}

/// The contexts that a symbol is learned behind: the strings that end in front of it, as far as
/// their order is allowed; each once.
pub proof fn lemma_learned_contexts(m: SamModel, i: int, max_order: int)
    requires
        is_automaton(m),
        states_sound(m),
        0 <= i < m.text.len(),
    ensures
        ({
            let path = sam::path_of(
                m.states,
                sam_walk::capped(m.states, max_order, m.text_states[i + 1]),
            );
            &&& forall|j: int| 0 <= j < path.len() ==> 0 <= #[trigger] path[j] < m.states.len()
            &&& path.no_duplicates()
            &&& forall|c: Seq<u32>|
                stands_in(m, c) ==> path.contains(#[trigger] read(m.states, c)) == (ends_at(m, c, i) && (
                max_order < 0 || m.states[read(m.states, c)].len <= max_order))
        }),
{
    let states = m.states;
    let p = prefix_at(m, i);
    let d = m.text_states[i + 1];
    let t = read(states, p);
    assert(stands_behind(m, i, d));
    lemma_context_after(m, i);
    let start = sam_walk::capped(states, max_order, d);
    let path = sam::path_of(states, start);
    lemma_contexts(m, p, max_order);
    lemma_read_longest(m, p);
    lemma_longest_short(m, p);
    lemma_path_sound(m, t, p, states.len());
    if d == t {
        assert forall|x: int, y: int|
            0 <= x < path.len() && 0 <= y < path.len() && x != y implies path[x] != path[y] by {
            if x < y {
                assert(states[path[x]].len > states[path[y]].len);
            } else {
                assert(states[path[y]].len > states[path[x]].len);
            }
        }
        assert forall|c: Seq<u32>| stands_in(m, c) implies path.contains(#[trigger] read(states, c))
            == (ends_at(m, c, i) && (max_order < 0 || states[read(states, c)].len <= max_order)) by {
            lemma_ending(m, c, i);
        }
    } else {
        let whole = sam::path_of(states, d);
        let rest = sam::suffix_path(states, t, (states.len() - 1) as nat);
        lemma_path_sound(m, t, p, (states.len() - 1) as nat);
        assert(whole == seq![d] + rest);
        if max_order < 0 || states[d].len <= max_order {
            if max_order >= 0 {
                assert(whole[0] == d);
                assert(sam_walk::first_short(states, whole, max_order, 0) == d);
            }
            assert(start == d);
            assert(path == whole);
            assert forall|x: int, y: int|
                0 <= x < path.len() && 0 <= y < path.len() && x != y implies path[x] != path[y] by {
                let (a, b) = if x < y {
                    (x, y)
                } else {
                    (y, x)
                };
                assert(path[b] == rest[b - 1]);
                if a == 0 {
                    assert(rest[b - 1] == read(states, tail(p, states[rest[b - 1]].len)));
                } else {
                    assert(path[a] == rest[a - 1]);
                    assert(states[rest[a - 1]].len > states[rest[b - 1]].len);
                }
            }
            assert forall|j: int| 0 <= j < path.len() implies 0 <= #[trigger] path[j] < states.len() by {
                if j > 0 {
                    assert(path[j] == rest[j - 1]);
                }
            }
            assert forall|c: Seq<u32>| stands_in(m, c) implies path.contains(#[trigger] read(states, c))
                == (ends_at(m, c, i) && (max_order < 0 || states[read(states, c)].len <= max_order)) by {
                lemma_path_strings(m, p, rest, c);
                lemma_ending(m, c, i);
                let v = read(states, c);
                assert(v != d);
                if path.contains(v) {
                    let j = choose|j: int| 0 <= j < path.len() && path[j] == v;
                    assert(rest[j - 1] == v);
                }
                if rest.contains(v) {
                    let j = choose|j: int| 0 <= j < rest.len() && rest[j] == v;
                    assert(path[j + 1] == v);
                    assert(states[rest[j]].len <= p.len());
                }
            }
        } else {
            assert(whole[0] == d);
            lemma_first_short(states, whole, max_order, 1);
            let j = choose|j: int|
                1 <= j < whole.len() && sam_walk::first_short(states, whole, max_order, 1)
                    == #[trigger] whole[j] && states[whole[j]].len <= max_order && forall|k: int|
                    1 <= k < j ==> states[#[trigger] whole[k]].len > max_order;
            assert(start == whole[j]);
            assert(whole[j] == rest[j - 1]);
            let n = states[start].len;
            let l = tail(p, n);
            lemma_tail_tail(p, n, n);
            assert(start == read(states, l));
            lemma_read_longest(m, l);
            lemma_path_sound(m, start, l, states.len());
            assert forall|x: int, y: int|
                0 <= x < path.len() && 0 <= y < path.len() && x != y implies path[x] != path[y] by {
                if x < y {
                    assert(states[path[x]].len > states[path[y]].len);
                } else {
                    assert(states[path[y]].len > states[path[x]].len);
                }
            }
            assert forall|c: Seq<u32>| stands_in(m, c) implies path.contains(#[trigger] read(states, c))
                == (ends_at(m, c, i) && (max_order < 0 || states[read(states, c)].len <= max_order)) by {
                lemma_path_strings(m, l, path, c);
                lemma_path_strings(m, p, rest, c);
                lemma_ending(m, c, i);
                let v = read(states, c);
                lemma_stands_in(m, c);
                assert((read(states, c) >= 0) == factor(m, c));
                lemma_read_longest(m, c);
                if ends_with(l, c) {
                    lemma_ends_trans(p, l, c);
                    let k = choose|k: int| 0 <= k < path.len() && path[k] == v;
                    assert(states[path[k]].len <= l.len());
                }
                if ends_with(p, c) && states[v].len <= max_order {
                    let k = choose|k: int| 0 <= k < rest.len() && rest[k] == v;
                    assert(whole[k + 1] == v);
                    if k + 1 < j {
                        assert(states[whole[k + 1]].len > max_order);
                    }
                    if k > j - 1 {
                        assert(states[rest[j - 1]].len > states[rest[k]].len);
                    }
                    lemma_ends_nested(p, l, c);
                }
            }
        }
    }
}

proof fn lemma_one_example(m: SamModel, i: int)
    requires
        -1 <= i < m.text.len(),
        m.boundary_after.len() == m.text.len(),
        forall|b: int| 0 <= b < m.text.len() ==> #[trigger] m.boundary_after[b] == 0,
    ensures
        prefix_at(m, i) == m.text.take(i + 1),
    decreases i + 1,
{
    if i < 0 {
        assert(m.text.take(0) =~= Seq::empty());
    } else {
        lemma_one_example(m, i - 1);
        assert(m.text.take(i + 1) =~= m.text.take(i).push(m.text[i]));
        assert(m.text.take(0).push(m.text[0]) =~= seq![m.text[0]]);
    }
}

/// Behind a text of one example the state that is kept is that of the whole text.
pub proof fn law_state_of_the_text(m: SamModel)
    requires
        is_automaton(m),
        states_sound(m),
        m.text.len() > 0,
        forall|b: int| 0 <= b < m.text.len() ==> #[trigger] m.boundary_after[b] == 0,
    ensures
        stands_in(m, m.text),
        m.text_states[m.text.len() as int] == read(m.states, m.text),
{
    let i = m.text.len() - 1;
    lemma_one_example(m, i);
    assert(m.text.take(i + 1) =~= m.text);
    assert(stands_behind(m, i, m.text_states[i + 1]));
    assert(ends_at(m, m.text, i));
}

} // verus!
