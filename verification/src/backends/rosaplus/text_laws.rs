//! What the language model and the predictor say of a text.

use vstd::prelude::*;
use crate::places;
use crate::backends::rosaplus::lm;
use crate::backends::rosaplus::lm_build;
use crate::backends::rosaplus::model;
use crate::backends::rosaplus::query;
use crate::backends::rosaplus::sam;
use crate::backends::rosaplus::sam_text;
use crate::backends::rosaplus::sam_walk;
use crate::backends::rosaplus::scoring;
use crate::backends::rosaplus::tallies;

use crate::backends::rosaplus::lm::LmModel;
use crate::backends::rosaplus::model::RosaModel;
use crate::backends::rosaplus::query::BackoffTerm;
use crate::backends::rosaplus::sam::SamModel;
use crate::backends::rosaplus::scoring::ScoreModel;
use crate::backends::rosaplus::tallies::TallyModel;

verus! {

// ---------------------------------------------------------------------------------------
// Counts
// ---------------------------------------------------------------------------------------

/// The contexts that the symbol behind place `i` is counted for.
spec fn path_at(m: SamModel, max_order: int, i: int) -> Seq<int> {
    sam::path_of(m.states, sam_walk::capped(m.states, max_order, lm_build::context_after(m, i)))
}

/// Index of the symbol behind place `i`.
spec fn symbol_behind(m: SamModel, alphabet: Seq<u32>, i: int) -> u32 {
    lm::symbol_index(alphabet, m.text[i + 1]) as u32
}

/// Whether the counts of a state were handed up: it stands behind the first `n` of the order.
spec fn is_handed(order: Seq<int>, n: int, x: int) -> bool {
    exists|j: int| n <= j < order.len() && #[trigger] order[j] == x
}

/// Whether what stands behind place `i` has come to a state.
spec fn has_come(path: Seq<int>, order: Seq<int>, n: int, v: int) -> bool {
    exists|a: int|
        0 <= a < path.len() && #[trigger] path[a] == v && (a == 0 || is_handed(order, n, path[a - 1]))
}

spec fn counted_at(
    m: SamModel,
    max_order: int,
    alphabet: Seq<u32>,
    order: Seq<int>,
    n: int,
    v: int,
    sym: u32,
) -> spec_fn(int) -> bool {
    |i: int|
        lm_build::is_counted(m, alphabet, i) && symbol_behind(m, alphabet, i) == sym && has_come(
            path_at(m, max_order, i),
            order,
            n,
            v,
        )
}

spec fn total_at(
    m: SamModel,
    max_order: int,
    alphabet: Seq<u32>,
    order: Seq<int>,
    n: int,
    v: int,
) -> spec_fn(int) -> bool {
    |i: int|
        lm_build::is_counted(m, alphabet, i) && has_come(path_at(m, max_order, i), order, n, v)
}

/// Places that are counted for a state first.
spec fn first_at(m: SamModel, max_order: int, alphabet: Seq<u32>, v: int, sym: u32) -> spec_fn(
    int,
) -> bool {
    |i: int|
        lm_build::is_counted(m, alphabet, i) && symbol_behind(m, alphabet, i) == sym && path_at(
            m,
            max_order,
            i,
        )[0] == v
}

spec fn first_total_at(m: SamModel, max_order: int, alphabet: Seq<u32>, v: int) -> spec_fn(int) -> bool {
    |i: int| lm_build::is_counted(m, alphabet, i) && path_at(m, max_order, i)[0] == v
}

/// A tally that counts the places that have come to a state.
spec fn state_matches(
    t: TallyModel,
    m: SamModel,
    max_order: int,
    alphabet: Seq<u32>,
    order: Seq<int>,
    n: int,
    v: int,
) -> bool {
    let k = m.text.len() - 1;
    &&& t.total == places::places(k, total_at(m, max_order, alphabet, order, n, v))
    &&& forall|sym: u32|
        (#[trigger] tallies::count_in(t, sym)) == places::places(
            k,
            counted_at(m, max_order, alphabet, order, n, v, sym),
        ) && (t.counts.contains_key(sym) <==> tallies::count_in(t, sym) > 0)
}

spec fn all_match(
    ts: Seq<TallyModel>,
    m: SamModel,
    max_order: int,
    alphabet: Seq<u32>,
    order: Seq<int>,
    n: int,
) -> bool {
    &&& ts.len() == m.states.len()
    &&& forall|v: int|
        0 <= v < ts.len() ==> #[trigger] state_matches(
            ts[v],
            m,
            max_order,
            alphabet,
            order,
            n,
            v,
        )
}

/// Counting the pairs of the text, before anything is handed up.
proof fn lemma_pairs_match(m: SamModel, max_order: int, alphabet: Seq<u32>, k: int, v: int)
    requires
        sam_text::is_automaton(m),
        0 <= v < m.states.len(),
        k < m.text.len(),
    ensures
        ({
            let ts = lm_build::with_pairs(
                lm_build::no_tallies(m.states.len()),
                m,
                max_order,
                alphabet,
                0,
                k,
            );
            &&& ts.len() == m.states.len()
            &&& ts[v].total == places::places(k, first_total_at(m, max_order, alphabet, v))
            &&& forall|sym: u32|
                (#[trigger] tallies::count_in(ts[v], sym)) == places::places(
                    k,
                    first_at(m, max_order, alphabet, v, sym),
                ) && (ts[v].counts.contains_key(sym) <==> tallies::count_in(ts[v], sym) > 0)
        }),
    decreases k,
{
    if k > 0 {
        lemma_pairs_match(m, max_order, alphabet, k - 1, v);
        let i = k - 1;
        sam_text::lemma_contexts_at(m, i, max_order);
        let start = sam_walk::capped(m.states, max_order, lm_build::context_after(m, i));
        assert(path_at(m, max_order, i)[0] == start);
        let ts = lm_build::with_pairs(
            lm_build::no_tallies(m.states.len()),
            m,
            max_order,
            alphabet,
            0,
            k - 1,
        );
        let us = lm_build::with_pair(ts, m, max_order, alphabet, i);
        assert(0 <= start < m.states.len());
        assert forall|sym: u32|
            (#[trigger] tallies::count_in(us[v], sym)) == places::places(
                k,
                first_at(m, max_order, alphabet, v, sym),
            ) && (us[v].counts.contains_key(sym) <==> tallies::count_in(us[v], sym) > 0) by {
            let has = first_at(m, max_order, alphabet, v, sym);
            assert(tallies::count_in(ts[v], sym) == places::places(k - 1, has));
            assert(has(i) == (lm_build::is_counted(m, alphabet, i) && symbol_behind(m, alphabet, i)
                == sym && start == v));
            assert(places::places(k, has) == places::places(k - 1, has) + if has(i) {
                1nat
            } else {
                0
            });
        }
    }
}

proof fn lemma_all_handed(order: Seq<int>, lens: Seq<int>, x: int)
    requires
        sam_walk::is_length_order(order, lens),
        0 <= x < lens.len(),
    ensures
        is_handed(order, 0, x),
        !is_handed(order, order.len() as int, x),
{
    sam_walk::lemma_order_covers(order, lens, x);
    let j = choose|j: int| 0 <= j < order.len() && order[j] == x;
    assert(order[j] == x);
}

/// Handing up the counts of one state brings what stands behind a place one state further.
proof fn lemma_come_step(
    m: SamModel,
    order: Seq<int>,
    n: int,
    start: int,
    path: Seq<int>,
    w: int,
)
    requires
        sam_text::is_tidy_path(m.states, start, path),
        m.states[0].link == -1,
        sam_walk::is_length_order(order, sam_walk::lengths(m.states)),
        0 < n <= order.len(),
    ensures
        ({
            let v = order[n - 1];
            let p = m.states[v].link;
            &&& has_come(path, order, n, v) == path.contains(v)
            &&& has_come(path, order, n - 1, w) == (has_come(path, order, n, w) || (w == p
                && has_come(path, order, n, v) && 0 <= p))
            &&& !(has_come(path, order, n, p) && has_come(path, order, n, v))
        }),
{
    let states = m.states;
    let lens = sam_walk::lengths(states);
    let v = order[n - 1];
    let p = states[v].link;
    assert(0 <= v < states.len());
    assert forall|x: int, y: int|
        0 <= x < path.len() && 0 <= y < path.len() && path[x] == path[y] implies x == y by {
        if x < y {
            assert(states[path[x]].len > states[path[y]].len);
        } else if y < x {
            assert(states[path[y]].len > states[path[x]].len);
        }
    }
    assert(!is_handed(order, n, v)) by {
        if is_handed(order, n, v) {
            let j = choose|j: int| n <= j < order.len() && #[trigger] order[j] == v;
            assert(sam_walk::comes_before(lens, order[n - 1], order[j]));
        }
    }
    assert forall|x: int| is_handed(order, n - 1, x) == (is_handed(order, n, x) || x == v) by {
        if is_handed(order, n - 1, x) {
            let j = choose|j: int| n - 1 <= j < order.len() && #[trigger] order[j] == x;
            if j >= n {
                assert(order[j] == x);
            }
        }
        if is_handed(order, n, x) {
            let j = choose|j: int| n <= j < order.len() && #[trigger] order[j] == x;
            assert(order[j] == x);
        }
        if x == v {
            assert(order[n - 1] == x);
        }
    }
    if path.contains(v) {
        let b = choose|b: int| 0 <= b < path.len() && path[b] == v;
        if b > 0 {
            let x = path[b - 1];
            assert(states[path[b - 1]].len > states[path[b]].len);
            assert(0 <= path[b - 1] < states.len());
            sam_walk::lemma_order_covers(order, lens, x);
            let j = choose|j: int| 0 <= j < order.len() && order[j] == x;
            if j < n - 1 {
                assert(sam_walk::comes_before(lens, order[j], order[n - 1]));
            }
            assert(order[j] == x);
            assert(is_handed(order, n, x));
        }
        assert(path[b] == v);
        assert(has_come(path, order, n, v));
        if b + 1 < path.len() {
            assert(path[b + 1] == states[path[b]].link);
        } else {
            assert(v == 0);
        }
        if has_come(path, order, n - 1, w) && !has_come(path, order, n, w) {
            let a = choose|a: int|
                0 <= a < path.len() && #[trigger] path[a] == w && (a == 0 || is_handed(
                    order,
                    n - 1,
                    path[a - 1],
                ));
            assert(path[a - 1] == v);
            assert(path[(a - 1) + 1] == states[path[a - 1]].link);
            assert(0 <= path[a]);
        }
        if w == p && 0 <= p {
            assert(path[b + 1] == w);
            assert(is_handed(order, n - 1, path[b]));
            assert(has_come(path, order, n - 1, w));
        }
        if has_come(path, order, n, p) {
            let a = choose|a: int|
                0 <= a < path.len() && #[trigger] path[a] == p && (a == 0 || is_handed(
                    order,
                    n,
                    path[a - 1],
                ));
            assert(0 <= path[a]);
            assert(path[b + 1] == path[a]);
            assert(a == b + 1);
            assert(path[a - 1] == v);
        }
    } else {
        if has_come(path, order, n - 1, w) && !has_come(path, order, n, w) {
            let a = choose|a: int|
                0 <= a < path.len() && #[trigger] path[a] == w && (a == 0 || is_handed(
                    order,
                    n - 1,
                    path[a - 1],
                ));
            assert(path[a - 1] == v);
            assert(path.contains(path[a - 1]));
        }
    }
    if has_come(path, order, n, w) {
        let a = choose|a: int|
            0 <= a < path.len() && #[trigger] path[a] == w && (a == 0 || is_handed(
                order,
                n,
                path[a - 1],
            ));
        assert(path[a] == w);
        assert(has_come(path, order, n - 1, w));
    }
}

proof fn lemma_handed_match(
    ts: Seq<TallyModel>,
    m: SamModel,
    max_order: int,
    alphabet: Seq<u32>,
    order: Seq<int>,
    n: int,
)
    requires
        sam_text::is_automaton(m),
        m.states[0].link == -1,
        sam_walk::is_length_order(order, sam_walk::lengths(m.states)),
        0 < n <= order.len(),
        all_match(ts, m, max_order, alphabet, order, n),
    ensures
        all_match(
            lm_build::handed_up(ts, m.states, order[n - 1]),
            m,
            max_order,
            alphabet,
            order,
            n - 1,
        ),
{
    let v = order[n - 1];
    let p = m.states[v].link;
    let us = lm_build::handed_up(ts, m.states, v);
    let k = m.text.len() - 1;
    assert(0 <= v < m.states.len());
    assert forall|i: int, w: int|
        0 <= i < k implies #[trigger] has_come(path_at(m, max_order, i), order, n - 1, w) == (has_come(
        path_at(m, max_order, i),
        order,
        n,
        w,
    ) || (w == p && has_come(path_at(m, max_order, i), order, n, v) && 0 <= p)) && !(has_come(
        path_at(m, max_order, i),
        order,
        n,
        p,
    ) && has_come(path_at(m, max_order, i), order, n, v)) by {
        sam_text::lemma_contexts_at(m, i, max_order);
        lemma_come_step(
            m,
            order,
            n,
            sam_walk::capped(m.states, max_order, lm_build::context_after(m, i)),
            path_at(m, max_order, i),
            w,
        );
    }
    assert forall|w: int| 0 <= w < us.len() implies #[trigger] state_matches(
        us[w],
        m,
        max_order,
        alphabet,
        order,
        n - 1,
        w,
    ) by {
        assert(state_matches(ts[w], m, max_order, alphabet, order, n, w));
        assert(state_matches(ts[v], m, max_order, alphabet, order, n, v));
        let all = total_at(m, max_order, alphabet, order, n - 1, w);
        let all_w = total_at(m, max_order, alphabet, order, n, w);
        let all_v = total_at(m, max_order, alphabet, order, n, v);
        if w == p && 0 <= p {
            places::lemma_places_split(k, all, all_w, all_v);
        } else {
            places::lemma_places_same(k, all, all_w);
        }
        assert forall|sym: u32|
            (#[trigger] tallies::count_in(us[w], sym)) == places::places(
                k,
                counted_at(m, max_order, alphabet, order, n - 1, w, sym),
            ) && (us[w].counts.contains_key(sym) <==> tallies::count_in(us[w], sym) > 0) by {
            let one = counted_at(m, max_order, alphabet, order, n - 1, w, sym);
            let one_w = counted_at(m, max_order, alphabet, order, n, w, sym);
            let one_v = counted_at(m, max_order, alphabet, order, n, v, sym);
            assert(tallies::count_in(ts[w], sym) == places::places(k, one_w));
            assert(tallies::count_in(ts[v], sym) == places::places(k, one_v));
            if w == p && 0 <= p {
                places::lemma_places_split(k, one, one_w, one_v);
            } else {
                places::lemma_places_same(k, one, one_w);
            }
        }
    }
}

proof fn lemma_handed_all_match(
    ts: Seq<TallyModel>,
    m: SamModel,
    max_order: int,
    alphabet: Seq<u32>,
    order: Seq<int>,
    n: int,
)
    requires
        sam_text::is_automaton(m),
        m.states[0].link == -1,
        sam_walk::is_length_order(order, sam_walk::lengths(m.states)),
        0 <= n <= order.len(),
        all_match(ts, m, max_order, alphabet, order, n),
    ensures
        all_match(
            lm_build::handed_up_all(ts, m.states, order, n),
            m,
            max_order,
            alphabet,
            order,
            0,
        ),
    decreases n,
{
    if n > 0 {
        lemma_handed_match(ts, m, max_order, alphabet, order, n);
        lemma_handed_all_match(
            lm_build::handed_up(ts, m.states, order[n - 1]),
            m,
            max_order,
            alphabet,
            order,
            n - 1,
        );
    }
}

/// There is an order of states by length.
proof fn lemma_order_exists(lens: Seq<int>)
    ensures
        sam_walk::is_length_order(sam_walk::length_order(lens), lens),
{
    let n = lens.len();
    let leq = |a: int, b: int| lens[a] < lens[b] || (lens[a] == lens[b] && a <= b);
    let all = Seq::new(n, |i: int| i);
    let order = all.sort_by(leq);
    all.lemma_sort_by_ensures(leq);
    all.to_multiset_ensures();
    order.to_multiset_ensures();
    assert(all.no_duplicates());
    all.lemma_multiset_has_no_duplicates();
    order.lemma_multiset_has_no_duplicates_conv();
    assert(order.len() == n);
    assert forall|i: int| 0 <= i < order.len() implies 0 <= #[trigger] order[i] < lens.len() by {
        assert(order.contains(order[i]));
        assert(all.contains(order[i]));
    }
    assert forall|i: int, j: int| 0 <= i < j < order.len() implies sam_walk::comes_before(
        lens,
        #[trigger] order[i],
        #[trigger] order[j],
    ) by {
        assert(leq(order[i], order[j]));
        assert(order[i] != order[j]);
    }
    assert(sam_walk::is_length_order(order, lens));
}

spec fn held_at(m: SamModel, max_order: int, alphabet: Seq<u32>, v: int, sym: u32) -> spec_fn(
    int,
) -> bool {
    |i: int|
        lm_build::is_counted(m, alphabet, i) && symbol_behind(m, alphabet, i) == sym && path_at(
            m,
            max_order,
            i,
        ).contains(v)
}

spec fn held_total_at(m: SamModel, max_order: int, alphabet: Seq<u32>, v: int) -> spec_fn(int) -> bool {
    |i: int| lm_build::is_counted(m, alphabet, i) && path_at(m, max_order, i).contains(v)
}

/// Counts of a built language model, by state: what stands behind the places whose contexts hold the
/// state.
proof fn lemma_built(m: SamModel, max_order: int, alphabet: Seq<u32>, v: int, sym: u32)
    requires
        sam_text::is_automaton(m),
        0 <= v < m.states.len(),
    ensures
        ({
            let t = lm_build::built_tallies(m, max_order, alphabet)[v];
            let one = held_at(m, max_order, alphabet, v, sym);
            let all = held_total_at(m, max_order, alphabet, v);
            &&& lm_build::built_tallies(m, max_order, alphabet).len() == m.states.len()
            &&& tallies::count_in(t, sym) == places::places(m.text.len() - 1, one)
            &&& t.total == places::places(m.text.len() - 1, all)
            &&& t.counts.contains_key(sym) <==> places::places(m.text.len() - 1, one) > 0
        }),
{
    let k = m.text.len() - 1;
    let lens = sam_walk::lengths(m.states);
    let order = sam_walk::length_order(lens);
    lemma_order_exists(lens);
    sam_text::lemma_read_state(m, Seq::empty());
    let ts = lm_build::with_pairs(
        lm_build::no_tallies(m.states.len()),
        m,
        max_order,
        alphabet,
        0,
        k,
    );
    assert(ts.len() == m.states.len()) by {
        lemma_pairs_match(m, max_order, alphabet, k, v);
    }
    let n = order.len() as int;
    assert forall|w: int| 0 <= w < ts.len() implies #[trigger] state_matches(
        ts[w],
        m,
        max_order,
        alphabet,
        order,
        n,
        w,
    ) by {
        lemma_pairs_match(m, max_order, alphabet, k, w);
        assert forall|i: int| 0 <= i < k implies #[trigger] has_come(
            path_at(m, max_order, i),
            order,
            n,
            w,
        ) == (path_at(m, max_order, i)[0] == w) by {
            sam_text::lemma_contexts_at(m, i, max_order);
            let path = path_at(m, max_order, i);
            if path[0] == w {
                assert(has_come(path, order, n, w));
            }
        }
        places::lemma_places_same(
            k,
            total_at(m, max_order, alphabet, order, n, w),
            first_total_at(m, max_order, alphabet, w),
        );
        assert forall|s: u32|
            (#[trigger] tallies::count_in(ts[w], s)) == places::places(
                k,
                counted_at(m, max_order, alphabet, order, n, w, s),
            ) && (ts[w].counts.contains_key(s) <==> tallies::count_in(ts[w], s) > 0) by {
            places::lemma_places_same(
                k,
                counted_at(m, max_order, alphabet, order, n, w, s),
                first_at(m, max_order, alphabet, w, s),
            );
            assert(tallies::count_in(ts[w], s) == places::places(k, first_at(m, max_order, alphabet, w, s)));
        }
    }
    lemma_handed_all_match(ts, m, max_order, alphabet, order, n);
    let built = lm_build::built_tallies(m, max_order, alphabet);
    assert(built == lm_build::handed_up_all(ts, m.states, order, n));
    let one = held_at(m, max_order, alphabet, v, sym);
    let all = held_total_at(m, max_order, alphabet, v);
    let one1 = counted_at(m, max_order, alphabet, order, 0, v, sym);
    let all1 = total_at(m, max_order, alphabet, order, 0, v);
    assert(state_matches(built[v], m, max_order, alphabet, order, 0, v));
    assert forall|i: int| 0 <= i < k implies #[trigger] has_come(
        path_at(m, max_order, i),
        order,
        0,
        v,
    ) == path_at(m, max_order, i).contains(v) by {
        sam_text::lemma_contexts_at(m, i, max_order);
        let path = path_at(m, max_order, i);
        if path.contains(v) {
            let a = choose|a: int| 0 <= a < path.len() && path[a] == v;
            if a > 0 {
                assert(0 <= path[a - 1] < m.states.len());
                lemma_all_handed(order, lens, path[a - 1]);
            }
            assert(path[a] == v);
            assert(has_come(path, order, 0, v));
        }
    }
    places::lemma_places_same(k, one1, one);
    places::lemma_places_same(k, all1, all);
    assert(tallies::count_in(built[v], sym) == places::places(k, one1));
}

/// Places at which the context stands with the symbol behind it.
pub open spec fn followed_by(m: SamModel, c: Seq<u32>, ch: u32) -> spec_fn(int) -> bool {
    |i: int|
        sam_text::ends_at(m, c, i) && m.boundary_after[i] == 0 && i + 1 < m.text.len() && m.text[i + 1]
            == ch
}

/// Places at which the context stands with a symbol of the alphabet behind it.
pub open spec fn followed(m: SamModel, alphabet: Seq<u32>, c: Seq<u32>) -> spec_fn(int) -> bool {
    |i: int|
        sam_text::ends_at(m, c, i) && m.boundary_after[i] == 0 && i + 1 < m.text.len()
            && alphabet.contains(m.text[i + 1])
}

/// A built language model counts the text: behind each string that stands in it, and that the order
/// lets in, each symbol is counted as often as it stands right behind the string within an example,
/// and a symbol that never does is not among those that follow. Contexts beyond the order count
/// nothing.
pub proof fn law_counts_of_the_text(
    m: SamModel,
    max_order: int,
    alphabet: Seq<u32>,
    c: Seq<u32>,
    ch: u32,
)
    requires
        sam_text::is_automaton(m),
        sam_text::stands_in(m, c),
        alphabet.contains(ch),
        alphabet.len() <= u32::MAX,
    ensures
        ({
            let v = scoring::walked(m, 0, c);
            let t = lm_build::built_tallies(m, max_order, alphabet)[v];
            let sym = lm::symbol_index(alphabet, ch) as u32;
            let n = m.text.len() as int;
            &&& 0 <= v < m.states.len()
            &&& max_order < 0 || m.states[v].len <= max_order ==> {
                &&& tallies::count_in(t, sym) == places::places(n, followed_by(m, c, ch))
                &&& t.total == places::places(n, followed(m, alphabet, c))
                &&& t.counts.contains_key(sym) <==> places::places(n, followed_by(m, c, ch)) > 0
            }
            &&& max_order >= 0 && m.states[v].len > max_order ==> t.total == 0 && tallies::count_in(
                t,
                sym,
            ) == 0
        }),
{
    let v = scoring::walked(m, 0, c);
    let sym = lm::symbol_index(alphabet, ch) as u32;
    let k = m.text.len() - 1;
    sam_text::law_prompt_state(m, c);
    sam_text::lemma_read_state(m, c);
    assert(v == sam_text::read(m.states, c));
    lemma_built(m, max_order, alphabet, v, sym);
    let one = held_at(m, max_order, alphabet, v, sym);
    let all = held_total_at(m, max_order, alphabet, v);
    let is_in = max_order < 0 || m.states[v].len <= max_order;
    assert forall|i: int| 0 <= i < k implies #[trigger] path_at(m, max_order, i).contains(v) == (
    sam_text::ends_at(m, c, i) && is_in) by {
        sam_text::lemma_contexts_at(m, i, max_order);
        assert(path_at(m, max_order, i).contains(sam_text::read(m.states, c)) == (sam_text::ends_at(
            m,
            c,
            i,
        ) && is_in));
    }
    assert forall|i: int| 0 <= i < k && lm_build::is_counted(m, alphabet, i) implies (
    #[trigger] symbol_behind(m, alphabet, i) == sym) == (m.text[i + 1] == ch) by {
        let a = m.text[i + 1];
        assert(alphabet.contains(a));
        let x = choose|x: int| 0 <= x < alphabet.len() && alphabet[x] == a;
        let y = choose|y: int| 0 <= y < alphabet.len() && alphabet[y] == ch;
        assert(alphabet[alphabet.index_of(a)] == a && 0 <= alphabet.index_of(a) < alphabet.len());
        assert(alphabet[alphabet.index_of(ch)] == ch && 0 <= alphabet.index_of(ch) < alphabet.len());
    }
    if is_in {
        places::lemma_places_same(k, one, followed_by(m, c, ch));
        places::lemma_places_same(k, all, followed(m, alphabet, c));
        assert(places::places(m.text.len() as int, followed_by(m, c, ch)) == places::places(k, followed_by(m, c, ch)));
        assert(places::places(m.text.len() as int, followed(m, alphabet, c)) == places::places(
            k,
            followed(m, alphabet, c),
        ));
    } else {
        places::lemma_places_none(k, one);
        places::lemma_places_none(k, all);
    }
}

/// Whether tallies count a symbol behind a string that stands in the text, where the order lets the
/// string in, as often as the symbol stands right behind it within an example.
pub open spec fn counts_behind(
    m: SamModel,
    max_order: int,
    alphabet: Seq<u32>,
    ts: Seq<TallyModel>,
    c: Seq<u32>,
    ch: u32,
) -> bool {
    let v = scoring::walked(m, 0, c);
    max_order < 0 || m.states[v].len <= max_order ==> {
        &&& tallies::count_in(ts[v], lm::symbol_index(alphabet, ch) as u32) == places::places(
            m.text.len() as int,
            followed_by(m, c, ch),
        )
        &&& ts[v].total == places::places(m.text.len() as int, followed(m, alphabet, c))
    }
}

/// Whether tallies count the text of an automaton: behind each string that stands in it, and that
/// the order lets in, each symbol as often as it stands right behind the string within an example.
pub open spec fn counts_the_text(
    m: SamModel,
    max_order: int,
    alphabet: Seq<u32>,
    ts: Seq<TallyModel>,
) -> bool {
    sam_text::is_automaton(m) ==> forall|c: Seq<u32>, ch: u32|
        sam_text::stands_in(m, c) && alphabet.contains(ch) ==> #[trigger] counts_behind(
            m,
            max_order,
            alphabet,
            ts,
            c,
            ch,
        )
}

/// A built language model counts the text.
pub proof fn law_built_counts_the_text(m: SamModel, max_order: int, alphabet: Seq<u32>)
    requires
        alphabet.len() <= u32::MAX,
    ensures
        counts_the_text(m, max_order, alphabet, lm_build::built_tallies(m, max_order, alphabet)),
{
    if sam_text::is_automaton(m) {
        let ts = lm_build::built_tallies(m, max_order, alphabet);
        assert forall|c: Seq<u32>, ch: u32|
            sam_text::stands_in(m, c) && alphabet.contains(ch) implies #[trigger] counts_behind(
            m,
            max_order,
            alphabet,
            ts,
            c,
            ch,
        ) by {
            law_counts_of_the_text(m, max_order, alphabet, c, ch);
        }
    }
}

// ---------------------------------------------------------------------------------------
// End positions
// ---------------------------------------------------------------------------------------

/// What stands at a place has marked the states that it has come to.
spec fn marks_come(m: SamModel, order: Seq<int>, n: int) -> bool {
    forall|i: int, x: int|
        0 <= i < m.text.len() && #[trigger] has_come(path_at(m, -1, i), order, n, x)
            ==> m.states[x].endpos >= i
}

proof fn lemma_same_path_at(a: SamModel, b: SamModel, i: int)
    requires
        sam_text::is_automaton(a),
        sam_text::is_automaton(b),
        sam_text::same_graph(a, b),
        0 <= i < a.text.len(),
    ensures
        path_at(a, -1, i) == path_at(b, -1, i),
{
    sam_text::lemma_context_after(a, i);
    sam_text::lemma_context_after(b, i);
    sam_text::law_same_graph(a, b);
    sam_text::lemma_same_prefixes(a, b, i);
    let w = sam_text::prefix_at(a, i);
    assert(sam_text::read(a.states, w) == sam_text::read(b.states, w));
    sam::lemma_path_same_links(
        a.states,
        b.states,
        lm_build::context_after(a, i),
        a.states.len(),
    );
}

proof fn lemma_marks(m: SamModel, order: Seq<int>, n: int)
    requires
        sam_text::is_automaton(m),
        sam_text::ends_sound(m),
        sam_walk::is_length_order(order, sam_walk::lengths(m.states)),
        0 <= n <= order.len(),
        marks_come(m, order, n),
    ensures
        marks_come(
            SamModel { states: sam_walk::endpos_raised_all(m.states, order, n), ..m },
            order,
            0,
        ),
    decreases n,
{
    if n > 0 {
        let v = order[n - 1];
        let mid = SamModel { states: sam_walk::endpos_raised(m.states, v), ..m };
        assert(0 <= v < m.states.len());
        sam_text::lemma_raised_step(m, v);
        sam_text::lemma_read_state(m, Seq::empty());
        assert(sam_walk::lengths(mid.states) =~= sam_walk::lengths(m.states)) by {
            assert forall|x: int| 0 <= x < m.states.len() implies mid.states[x].len
                == m.states[x].len by {
                assert(m.states[x].len == mid.states[x].len);
            }
        }
        assert forall|i: int, x: int|
            0 <= i < mid.text.len() && #[trigger] has_come(path_at(mid, -1, i), order, n - 1, x) implies
            mid.states[x].endpos >= i by {
            lemma_same_path_at(m, mid, i);
            sam_text::lemma_contexts_at(m, i, -1);
            let path = path_at(m, -1, i);
            lemma_come_step(
                m,
                order,
                n,
                sam_walk::capped(m.states, -1, lm_build::context_after(m, i)),
                path,
                x,
            );
            let a = choose|a: int|
                0 <= a < path.len() && #[trigger] path[a] == x && (a == 0 || is_handed(
                    order,
                    n - 1,
                    path[a - 1],
                ));
            assert(0 <= path[a] < m.states.len());
            if has_come(path, order, n, x) {
                assert(m.states[x].endpos >= i);
            } else {
                assert(has_come(path, order, n, v));
                assert(m.states[v].endpos >= i);
            }
            assert(mid.states[x].endpos >= m.states[x].endpos);
        }
        lemma_marks(mid, order, n - 1);
    }
}

/// The last place at which a string stands.
pub open spec fn is_last_place(m: SamModel, w: Seq<u32>, i: int) -> bool {
    sam_text::ends_at(m, w, i) && forall|j: int| #[trigger] sam_text::ends_at(m, w, j) ==> j <= i
}

/// Handing end positions up leaves the strings as they are and the end positions places at which
/// they stand; where each place was marked, the end position of a string is the last place at which
/// it stands.
pub proof fn law_last_places(m: SamModel, w: Seq<u32>)
    requires
        sam_text::is_automaton(m),
        sam_text::ends_sound(m),
    ensures
        ({
            let next = sam_walk::ends_handed_up(m);
            &&& sam_text::is_automaton(next)
            &&& sam_text::ends_sound(next)
            &&& sam_text::same_graph(m, next)
            &&& sam_text::all_marked(m) && w.len() > 0 && sam_text::stands_in(m, w) ==> is_last_place(
                next,
                w,
                next.states[sam_text::read(next.states, w)].endpos,
            )
        }),
{
    let lens = sam_walk::lengths(m.states);
    let order = sam_walk::length_order(lens);
    lemma_order_exists(lens);
    let n = m.states.len() as int;
    let next = sam_walk::ends_handed_up(m);
    sam_text::lemma_raised_all_ends(m, order, n);
    if sam_text::all_marked(m) && w.len() > 0 && sam_text::stands_in(m, w) {
        assert forall|i: int, x: int|
            0 <= i < m.text.len() && #[trigger] has_come(path_at(m, -1, i), order, n, x) implies
            m.states[x].endpos >= i by {
            sam_text::lemma_contexts_at(m, i, -1);
            sam_text::lemma_context_after(m, i);
            let path = path_at(m, -1, i);
            let a = choose|a: int|
                0 <= a < path.len() && #[trigger] path[a] == x && (a == 0 || is_handed(
                    order,
                    n,
                    path[a - 1],
                ));
            assert(a == 0);
            assert(m.states[sam_text::read(m.states, sam_text::prefix_at(m, i))].endpos >= i);
        }
        lemma_marks(m, order, n);
        sam_text::law_same_graph(m, next);
        assert(sam_text::stands_in(next, w)) by {
            let i = choose|i: int| #[trigger] sam_text::ends_at(m, w, i);
            assert(sam_text::ends_at(next, w, i));
        }
        sam_text::lemma_read_state(next, w);
        sam_text::lemma_root_reads_nothing(next, w);
        let v = sam_text::read(next.states, w);
        sam_text::lemma_marked(next, w);
        assert forall|j: int| #[trigger] sam_text::ends_at(next, w, j) implies j
            <= next.states[v].endpos by {
            sam_text::lemma_contexts_at(next, j, -1);
            let path = path_at(next, -1, j);
            assert(path.contains(sam_text::read(next.states, w)));
            let a = choose|a: int| 0 <= a < path.len() && path[a] == v;
            if a > 0 {
                assert(0 <= path[a - 1] < next.states.len());
                lemma_all_handed(order, lens, path[a - 1]);
            }
            assert(path[a] == v);
            assert(has_come(path, order, 0, v));
        }
    }
}

// ---------------------------------------------------------------------------------------
// Predictions
// ---------------------------------------------------------------------------------------

/// Whether nothing of the example stands behind a place.
pub open spec fn is_end(m: SamModel, i: int) -> bool {
    i + 1 >= m.text.len() || m.boundary_after[i] != 0
}

/// Whether a state has no symbol to hand out: it is the root, or its end position is at the end of
/// an example.
pub open spec fn is_silent(m: SamModel, v: int) -> bool {
    let s = m.states[v];
    s.len <= 0 || s.endpos + 1 >= m.text.len() || (s.endpos >= 0 && m.boundary_after[s.endpos] != 0)
}

/// Whether what is handed out for a path comes from the first of its states that has something to
/// hand out: the symbol behind its end position; and is nothing where none has.
pub open spec fn is_first_on_path(m: SamModel, path: Seq<int>, next: Option<u32>) -> bool {
    match next {
        Some(x) => exists|j: int|
            0 <= j < path.len() && !is_silent(m, #[trigger] path[j]) && x
                == m.text[m.states[path[j]].endpos + 1] && forall|i: int|
                0 <= i < j ==> is_silent(m, #[trigger] path[i]),
        None => forall|i: int| 0 <= i < path.len() ==> is_silent(m, #[trigger] path[i]),
    }
}

/// What is handed out for a path comes from the first of its states that has something to hand out:
/// the symbol behind its end position. Nothing is handed out exactly where none has.
pub proof fn law_first_on_path(m: SamModel, path: Seq<int>, from: int)
    requires
        0 <= from <= path.len(),
    ensures
        match sam::first_follower(m, path, from) {
            Some(x) => exists|j: int|
                from <= j < path.len() && !is_silent(m, #[trigger] path[j]) && x
                    == m.text[m.states[path[j]].endpos + 1] && forall|i: int|
                    from <= i < j ==> is_silent(m, #[trigger] path[i]),
            None => forall|i: int| from <= i < path.len() ==> is_silent(m, #[trigger] path[i]),
        },
    decreases path.len() - from,
{
    if from < path.len() {
        law_first_on_path(m, path, from + 1);
        if is_silent(m, path[from]) {
            if let Some(x) = sam::first_follower(m, path, from + 1) {
                let j = choose|j: int|
                    from + 1 <= j < path.len() && !is_silent(m, #[trigger] path[j]) && x
                        == m.text[m.states[path[j]].endpos + 1] && forall|i: int|
                        from + 1 <= i < j ==> is_silent(m, #[trigger] path[i]);
                assert(!is_silent(m, path[j]));
            }
        } else {
            assert(!is_silent(m, path[from]));
        }
    }
}

/// Place that an automaton keeps of a string.
pub open spec fn kept_place(m: SamModel, w: Seq<u32>) -> int {
    m.states[sam_text::read(m.states, w)].endpos
}

/// What is handed out behind a prompt stands in the text behind an end of the prompt, at the place
/// that is kept of it; and every longer end of the prompt that stands in the text stands at the end
/// of an example, at the place that is kept of it. Nothing is handed out exactly where that holds of
/// all ends of the prompt.
pub proof fn law_longest_context_decides(m: SamModel, prompt: Seq<u32>)
    requires
        sam_text::is_automaton(m),
        sam_text::ends_sound(m),
    ensures
        match sam::first_follower(m, sam::path_of(m.states, scoring::walked(m, 0, prompt)), 0) {
            Some(x) => exists|s: Seq<u32>| #[trigger]
                sam_text::ends_with(prompt, s) && s.len() > 0 && sam_text::ends_at(
                    m,
                    s,
                    kept_place(m, s),
                ) && !is_end(m, kept_place(m, s)) && x == m.text[kept_place(m, s) + 1] && forall|
                    e: Seq<u32>,
                |
                    sam_text::ends_with(prompt, e) && e.len() > s.len() && #[trigger] sam_text::stands_in(
                        m,
                        e,
                    ) ==> sam_text::ends_at(m, e, kept_place(m, e)) && is_end(m, kept_place(m, e)),
            None => forall|e: Seq<u32>|
                sam_text::ends_with(prompt, e) && e.len() > 0 && #[trigger] sam_text::stands_in(m, e)
                    ==> sam_text::ends_at(m, e, kept_place(m, e)) && is_end(m, kept_place(m, e)),
        },
{
    let states = m.states;
    sam_text::law_prompt_state(m, prompt);
    let s0 = choose|s: Seq<u32>| #[trigger]
        sam_text::is_longest_match(m, prompt, s) && scoring::walked(m, 0, prompt) == sam_text::read(
            states,
            s,
        );
    let v = sam_text::read(states, s0);
    let path = sam::path_of(states, v);
    sam_text::lemma_match_path(m, s0);
    law_first_on_path(m, path, 0);
    assert forall|e: Seq<u32>|
        sam_text::ends_with(prompt, e) && e.len() > 0 && #[trigger] sam_text::stands_in(m, e) implies
        sam_text::ends_at(m, e, kept_place(m, e)) && e.len() <= s0.len() && sam_text::ends_with(s0, e)
        && path.contains(sam_text::read(states, e)) && states[sam_text::read(states, e)].len
        >= e.len() by {
        if e.len() > s0.len() {
            assert(!sam_text::stands_in(m, e));
        }
        sam_text::lemma_ends_of_ends(prompt, s0, e);
        sam_text::lemma_read_state(m, e);
        sam_text::lemma_root_reads_nothing(m, e);
        sam_text::lemma_marked(m, e);
        assert(path.contains(sam_text::read(states, e)));
    }
    match sam::first_follower(m, path, 0) {
        Some(x) => {
            let j = choose|j: int|
                0 <= j < path.len() && !is_silent(m, #[trigger] path[j]) && x
                    == m.text[states[path[j]].endpos + 1] && forall|i: int|
                    0 <= i < j ==> is_silent(m, #[trigger] path[i]);
            let s = if j == 0 {
                s0
            } else {
                sam_text::tail(s0, states[path[j]].len)
            };
            if j > 0 {
                sam_text::lemma_tails(s0, states[path[j]].len, states[path[j]].len);
                sam_text::lemma_ends_through(prompt, s0, s);
            }
            assert(sam_text::read(states, s) == path[j]);
            sam_text::lemma_root_reads_nothing(m, s);
            sam_text::lemma_read_state(m, Seq::empty());
            assert(s.len() > 0);
            assert(sam_text::ends_with(s0, s)) by {
                sam_text::lemma_ends_of_ends(prompt, s0, s);
            }
            assert(sam_text::stands_in(m, s)) by {
                assert(path.contains(sam_text::read(states, s)));
            }
            assert(sam_text::ends_with(prompt, s));
            assert forall|e: Seq<u32>|
                sam_text::ends_with(prompt, e) && e.len() > s.len() && #[trigger] sam_text::stands_in(
                    m,
                    e,
                ) implies sam_text::ends_at(m, e, kept_place(m, e)) && is_end(m, kept_place(m, e)) by {
                assert(path.contains(sam_text::read(states, e)));
                let i = choose|i: int| 0 <= i < path.len() && path[i] == sam_text::read(states, e);
                if j > 0 {
                    assert(0 <= states[path[j]].len < s0.len());
                    if i >= j {
                        if i > j {
                            assert(states[path[j]].len > states[path[i]].len);
                        }
                    }
                    assert(is_silent(m, path[i]));
                }
            }
        },
        None => {
            assert forall|e: Seq<u32>|
                sam_text::ends_with(prompt, e) && e.len() > 0 && #[trigger] sam_text::stands_in(
                    m,
                    e,
                ) implies sam_text::ends_at(m, e, kept_place(m, e)) && is_end(m, kept_place(m, e)) by {
                assert(path.contains(sam_text::read(states, e)));
                let i = choose|i: int| 0 <= i < path.len() && path[i] == sam_text::read(states, e);
                assert(is_silent(m, path[i]));
            }
        },
    }
}

// ---------------------------------------------------------------------------------------
// Scores
// ---------------------------------------------------------------------------------------

proof fn lemma_first_term(ts: Seq<TallyModel>, path: Seq<int>, sym: u32, k: int)
    requires
        0 < k <= path.len(),
        ts[path[0]].total > 0,
    ensures
        ({
            let t = ts[path[0]];
            let terms = query::terms_along(ts, path, sym, k);
            terms.len() > 0 && terms[0] == (BackoffTerm {
                total: t.total as u64,
                types: t.counts.dom().len() as u32,
                count: tallies::count_in(t, sym) as u64,
            })
        }),
    decreases k,
{
    if k > 1 {
        lemma_first_term(ts, path, sym, k - 1);
    } else {
        assert(query::terms_along(ts, path, sym, 0) =~= Seq::empty());
    }
}

/// Contexts on a path that something was counted for.
pub open spec fn has_counts(ts: Seq<TallyModel>, path: Seq<int>) -> spec_fn(int) -> bool {
    |a: int| ts[path[a]].total > 0
}

/// The terms of a path are those of its contexts that something was counted for, in the order of the
/// path: each with what was counted in all, how many symbols that were, and how often it was the
/// symbol that is asked for.
pub proof fn law_terms_along(ts: Seq<TallyModel>, path: Seq<int>, sym: u32, k: int, a: int)
    requires
        0 <= a < k <= path.len(),
    ensures
        query::terms_along(ts, path, sym, k).len() == places::places(k, has_counts(ts, path)),
        ts[path[a]].total > 0 ==> {
            let at = places::places(a, has_counts(ts, path)) as int;
            let term = query::terms_along(ts, path, sym, k)[at];
            &&& at < query::terms_along(ts, path, sym, k).len()
            &&& term.total == ts[path[a]].total as u64
            &&& term.types == ts[path[a]].counts.dom().len() as u32
            &&& term.count == tallies::count_in(ts[path[a]], sym) as u64
        },
    decreases k,
{
    let has = has_counts(ts, path);
    if k == 1 {
        assert(query::terms_along(ts, path, sym, 0) =~= Seq::empty());
        assert(places::places(0, has) == 0);
        assert(places::places(1, has) == places::places(0, has) + if has(0) {
            1nat
        } else {
            0
        });
    } else {
        law_terms_along(
            ts,
            path,
            sym,
            k - 1,
            if a < k - 1 {
                a
            } else {
                0
            },
        );
        assert(places::places(k, has) == places::places(k - 1, has) + if has(k - 1) {
            1nat
        } else {
            0
        });
    }
}

/// Symbols of the alphabet that stand behind a context somewhere, by their index.
pub open spec fn followers(m: SamModel, alphabet: Seq<u32>, c: Seq<u32>) -> Set<u32> {
    Set::new(
        |x: u32|
            x < alphabet.len() && places::places(m.text.len() as int, followed_by(m, c, alphabet[x as int]))
                > 0,
    )
}

/// The score of a symbol behind a string that stands in the text, and that something stands behind,
/// begins with the counts of the string itself: how often something stands behind it, how many
/// symbols do, and how often it is the symbol that is asked for.
pub proof fn law_score_of_the_text(
    m: SamModel,
    lm: LmModel,
    max_order: int,
    c: Seq<u32>,
    ch: u32,
)
    requires
        sam_text::is_automaton(m),
        sam_text::stands_in(m, c),
        lm.tallies == lm_build::built_tallies(m, max_order, lm.alphabet),
        lm::is_increasing(lm.alphabet),
        lm.alphabet.len() <= u32::MAX,
        lm.alphabet.contains(ch),
        max_order < 0 || m.states[scoring::walked(m, 0, c)].len <= max_order,
        places::places(m.text.len() as int, followed(m, lm.alphabet, c)) > 0,
    ensures
        ({
            let score = scoring::score_of(m, lm, max_order, scoring::walked(m, 0, c), ch);
            let n = m.text.len() as int;
            &&& score.terms.len() > 0
            &&& score.terms[0].total == places::places(n, followed(m, lm.alphabet, c)) as u64
            &&& score.terms[0].count == places::places(n, followed_by(m, c, ch)) as u64
            &&& score.terms[0].types == followers(m, lm.alphabet, c).len() as u32
            &&& score.total == lm.total_uni
            &&& score.symbols == lm.alphabet.len()
            &&& score.unigram == Some(lm.unigram[lm::symbol_index(lm.alphabet, ch)])
        }),
{
    let alphabet = lm.alphabet;
    let v = scoring::walked(m, 0, c);
    let sym = lm::symbol_index(alphabet, ch) as u32;
    let n = m.text.len() as int;
    law_counts_of_the_text(m, max_order, alphabet, c, ch);
    sam_text::law_prompt_state(m, c);
    sam_text::lemma_read_state(m, c);
    let start = sam_walk::capped(m.states, max_order, v);
    let path = sam::path_of(m.states, start);
    assert(alphabet[alphabet.index_of(ch)] == ch && 0 <= alphabet.index_of(ch) < alphabet.len());
    assert(sam::path_of(m.states, v)[0] == v) by {
        sam_text::lemma_match_path(m, c);
    }
    assert(start == v);
    sam_text::lemma_match_path(m, c);
    lemma_first_term(lm.tallies, path, sym, path.len() as int);
    let t = lm.tallies[v];
    assert(t.counts.dom() =~= followers(m, alphabet, c)) by {
        assert forall|x: u32| t.counts.dom().contains(x) == followers(m, alphabet, c).contains(x) by {
            lemma_built(m, max_order, alphabet, v, x);
            if x < alphabet.len() {
                let d = alphabet[x as int];
                assert(alphabet.contains(d));
                lm::lemma_symbol_at(alphabet, x as int);
                law_counts_of_the_text(m, max_order, alphabet, c, d);
            } else {
                let has = held_at(m, max_order, alphabet, v, x);
                assert forall|i: int| 0 <= i < m.text.len() - 1 implies !(#[trigger] has(i)) by {
                    if lm_build::is_counted(m, alphabet, i) {
                        let d = m.text[i + 1];
                        assert(alphabet.contains(d));
                        assert(alphabet[alphabet.index_of(d)] == d && 0 <= alphabet.index_of(d)
                            < alphabet.len());
                    }
                }
                places::lemma_places_none(m.text.len() - 1, has);
            }
        }
    }
}

// ---------------------------------------------------------------------------------------
// Training
// ---------------------------------------------------------------------------------------

/// Feeding symbols keeps the automaton one of its text.
pub proof fn law_fed_all_automaton(m: SamModel, syms: Seq<u32>)
    requires
        sam_text::is_automaton(m),
        sam_text::ends_sound(m),
    ensures
        ({
            let next = model::fed_all(m, syms);
            &&& sam_text::is_automaton(next)
            &&& sam_text::ends_sound(next)
            &&& next.text == m.text + syms
            &&& next.boundary_after.len() == m.boundary_after.len() + syms.len()
            &&& forall|b: int|
                0 <= b < m.boundary_after.len() ==> #[trigger] next.boundary_after[b]
                    == m.boundary_after[b]
            &&& forall|b: int|
                m.boundary_after.len() <= b < next.boundary_after.len()
                    ==> #[trigger] next.boundary_after[b] == 0
            &&& sam_text::all_marked(m) && (forall|b: int|
                0 <= b < m.text.len() ==> #[trigger] m.boundary_after[b] == 0) ==> sam_text::all_marked(
                next,
            )
        }),
    decreases syms.len(),
{
    if syms.len() == 0 {
        assert(m.text + syms =~= m.text);
    } else {
        let mid = sam::fed(m, syms[0]);
        let rest = syms.drop_first();
        sam_text::law_fed_automaton(m, syms[0]);
        sam_text::law_fed_ends(m, syms[0]);
        if sam_text::all_marked(m) && (forall|b: int|
            0 <= b < m.text.len() ==> #[trigger] m.boundary_after[b] == 0) {
            sam_text::law_one_example_marked(m, syms[0]);
        }
        law_fed_all_automaton(mid, rest);
        assert(m.text.push(syms[0]) + rest =~= m.text + syms);
        let next = model::fed_all(m, syms);
        assert forall|b: int| 0 <= b < m.boundary_after.len() implies #[trigger] next.boundary_after[b]
            == m.boundary_after[b] by {
            assert(next.boundary_after[b] == mid.boundary_after[b]);
        }
        assert forall|b: int|
            m.boundary_after.len() <= b < next.boundary_after.len() implies #[trigger] next.boundary_after[b]
            == 0 by {
            if b == m.boundary_after.len() {
                assert(next.boundary_after[b] == mid.boundary_after[b]);
            }
        }
    }
}

/// An example is appended to the text, with the end marker where there is one, and ends with a
/// boundary; the text from before, its boundaries and the settings stay, and the automaton is one of
/// the longer text. An empty example changes nothing.
pub proof fn law_example_is_appended(m: RosaModel, bytes: Seq<u8>)
    requires
        sam_text::is_automaton(m.sam),
        sam_text::ends_sound(m.sam),
        m.sam.boundary_after.len() == m.sam.text.len(),
    ensures
        ({
            let after = model::with_example(m, bytes);
            let n = m.sam.text.len() as int;
            let k = bytes.len() as int;
            let eot = if m.use_eot {
                1int
            } else {
                0
            };
            &&& sam_text::is_automaton(after.sam)
            &&& sam_text::ends_sound(after.sam)
            &&& k == 0 ==> after == m
            &&& k > 0 ==> {
                &&& after.sam.text.len() == n + k + eot
                &&& forall|i: int| 0 <= i < n ==> #[trigger] after.sam.text[i] == m.sam.text[i]
                &&& forall|i: int| n <= i < n + k ==> #[trigger] after.sam.text[i] == bytes[i - n]
                &&& m.use_eot ==> after.sam.text[n + k] == m.eot
                &&& forall|b: int|
                    0 <= b < n ==> #[trigger] after.sam.boundary_after[b] == m.sam.boundary_after[b]
                &&& forall|b: int|
                    n <= b < n + k + eot - 1 ==> #[trigger] after.sam.boundary_after[b] == 0
                &&& after.sam.boundary_after[n + k + eot - 1] != 0
                &&& !after.lm_built
                &&& after == (RosaModel { sam: after.sam, lm_built: false, ..m })
            }
        }),
{
    if bytes.len() > 0 {
        let syms = model::example_symbols(m, bytes);
        law_fed_all_automaton(m.sam, syms);
        let fed = model::fed_all(m.sam, syms);
        sam_text::law_bounded_automaton(fed);
        sam_text::law_bounded_ends(fed);
        let after = model::with_example(m, bytes);
        assert(after.sam.text == m.sam.text + syms);
        let n = m.sam.text.len() as int;
        assert forall|b: int| 0 <= b < n implies #[trigger] after.sam.boundary_after[b]
            == m.sam.boundary_after[b] by {
            assert(fed.boundary_after[b] == m.sam.boundary_after[b]);
        }
        assert forall|b: int| n <= b < fed.text.len() - 1 implies #[trigger] after.sam.boundary_after[b]
            == 0 by {
            assert(fed.boundary_after[b] == 0);
        }
    }
}

/// After one example was taken in and end positions were handed up, a prompt is gone on with as its
/// longest end that stands in the text went on where it stood last: what is handed out stands behind
/// the last place of an end of the prompt, and every longer end of it that stands in the text stood
/// last at the end of the text.
pub proof fn law_one_example_goes_on(syms: Seq<u32>, prompt: Seq<u32>)
    ensures
        ({
            let m = sam_walk::ends_handed_up(
                sam::bounded(model::fed_all(sam::empty_sam(), syms)),
            );
            &&& m.text == syms
            &&& sam_text::is_automaton(m)
            &&& match sam::first_follower(
                m,
                sam::path_of(m.states, scoring::walked(m, 0, prompt)),
                0,
            ) {
                Some(x) => exists|s: Seq<u32>, i: int|
                    sam_text::ends_with(prompt, s) && s.len() > 0 && #[trigger] is_last_place(m, s, i)
                        && !is_end(m, i) && x == m.text[i + 1] && forall|e: Seq<u32>|
                        sam_text::ends_with(prompt, e) && e.len() > s.len()
                            && #[trigger] sam_text::stands_in(m, e) ==> is_last_place(
                            m,
                            e,
                            m.text.len() - 1,
                        ),
                None => forall|e: Seq<u32>|
                    sam_text::ends_with(prompt, e) && e.len() > 0 && #[trigger] sam_text::stands_in(
                        m,
                        e,
                    ) ==> is_last_place(m, e, m.text.len() - 1),
            }
        }),
{
    let fed = model::fed_all(sam::empty_sam(), syms);
    let m0 = sam::bounded(fed);
    let m = sam_walk::ends_handed_up(m0);
    sam_text::law_empty_is_automaton();
    sam_text::law_empty_ends();
    law_fed_all_automaton(sam::empty_sam(), syms);
    assert(Seq::<u32>::empty() + syms =~= syms);
    sam_text::law_bounded_automaton(fed);
    sam_text::law_bounded_ends(fed);
    law_last_places(m0, Seq::empty());
    law_longest_context_decides(m, prompt);
    assert forall|e: Seq<u32>| e.len() > 0 && #[trigger] sam_text::stands_in(m, e) implies is_last_place(
        m,
        e,
        kept_place(m, e),
    ) && (is_end(m, kept_place(m, e)) ==> kept_place(m, e) == m.text.len() - 1) by {
        assert(sam_text::stands_in(m0, e)) by {
            let i = choose|i: int| #[trigger] sam_text::ends_at(m, e, i);
            assert(sam_text::ends_at(m0, e, i));
        }
        law_last_places(m0, e);
        let k = kept_place(m, e);
        assert(sam_text::ends_at(m, e, k));
        if k < m.text.len() - 1 {
            assert(fed.boundary_after[k] == 0);
        }
    }
    if let Some(x) = sam::first_follower(
        m,
        sam::path_of(m.states, scoring::walked(m, 0, prompt)),
        0,
    ) {
        let s = choose|s: Seq<u32>| #[trigger]
            sam_text::ends_with(prompt, s) && s.len() > 0 && sam_text::ends_at(m, s, kept_place(m, s))
                && !is_end(m, kept_place(m, s)) && x == m.text[kept_place(m, s) + 1] && forall|
                e: Seq<u32>,
            |
                sam_text::ends_with(prompt, e) && e.len() > s.len() && #[trigger] sam_text::stands_in(
                    m,
                    e,
                ) ==> sam_text::ends_at(m, e, kept_place(m, e)) && is_end(m, kept_place(m, e));
        assert(sam_text::stands_in(m, s));
        assert(is_last_place(m, s, kept_place(m, s)));
    }
}

// ---------------------------------------------------------------------------------------
// Learning
// ---------------------------------------------------------------------------------------

proof fn lemma_along_path(ts: Seq<TallyModel>, path: Seq<int>, sym: u32, k: int, v: int, x: u32)
    requires
        0 <= k <= path.len(),
        path.no_duplicates(),
        forall|j: int| 0 <= j < path.len() ==> 0 <= #[trigger] path[j] < ts.len(),
        0 <= v < ts.len(),
    ensures
        ({
            let us = model::along_path(ts, path, sym, k);
            let met = path.take(k).contains(v);
            &&& us.len() == ts.len()
            &&& us[v].total == ts[v].total + if met {
                1nat
            } else {
                0
            }
            &&& tallies::count_in(us[v], x) == tallies::count_in(ts[v], x) + if met && x == sym {
                1nat
            } else {
                0
            }
        }),
    decreases k,
{
    if k > 0 {
        lemma_along_path(ts, path, sym, k - 1, v, x);
        let less = path.take(k - 1);
        let here = path.take(k);
        let w = path[k - 1];
        assert(0 <= path[k - 1] < ts.len());
        lemma_along_path(ts, path, sym, k - 1, w, x);
        assert(here[k - 1] == w);
        if less.contains(v) {
            let j = choose|j: int| 0 <= j < less.len() && less[j] == v;
            assert(path[j] == v);
            assert(here[j] == v);
        }
        if here.contains(v) && v != w {
            let j = choose|j: int| 0 <= j < here.len() && here[j] == v;
            assert(less[j] == v);
        }
    }
}

/// Places from `from` on at which the context stands with the symbol behind it.
pub open spec fn newly_followed_by(m: SamModel, c: Seq<u32>, ch: u32, from: int) -> spec_fn(int) -> bool {
    |i: int| from <= i && sam_text::ends_at(m, c, i) && m.text[i + 1] == ch
}

/// Learning symbols behind a language model counts each of them once behind every string that ends
/// in front of it and that the order lets in, and behind no other; nothing that was counted is lost.
pub proof fn law_learned_symbols_are_counted(
    ts: Seq<TallyModel>,
    m: SamModel,
    max_order: int,
    alphabet: Seq<u32>,
    from: int,
    to: int,
    c: Seq<u32>,
    ch: u32,
)
    requires
        sam_text::is_automaton(m),
        sam_text::states_sound(m),
        ts.len() == m.states.len(),
        0 <= from,
        to < m.text.len(),
        alphabet.contains(ch),
        alphabet.len() <= u32::MAX,
        sam_text::stands_in(m, c),
    ensures
        ({
            let us = model::with_transitions(ts, m, max_order, alphabet, from, to);
            let v = scoring::walked(m, 0, c);
            let sym = lm::symbol_index(alphabet, ch) as u32;
            &&& us.len() == ts.len()
            &&& 0 <= v < ts.len()
            &&& tallies::count_in(us[v], sym) == tallies::count_in(ts[v], sym) + (if max_order < 0
                || m.states[v].len <= max_order {
                places::places(to, newly_followed_by(m, c, ch, from))
            } else {
                0
            })
        }),
    decreases to - from,
{
    let v = scoring::walked(m, 0, c);
    let sym = lm::symbol_index(alphabet, ch) as u32;
    let has = newly_followed_by(m, c, ch, from);
    sam_text::law_prompt_state(m, c);
    sam_text::lemma_read_state(m, c);
    if from >= to {
        places::lemma_places_none(to, has);
    } else {
        law_learned_symbols_are_counted(ts, m, max_order, alphabet, from, to - 1, c, ch);
        let us = model::with_transitions(ts, m, max_order, alphabet, from, to - 1);
        let i = to - 1;
        let x = lm::symbol_index(alphabet, m.text[i + 1]);
        let path = sam::path_of(
            m.states,
            sam_walk::capped(m.states, max_order, m.text_states[i + 1]),
        );
        sam_text::lemma_learned_contexts(m, i, max_order);
        assert(path.contains(sam_text::read(m.states, c)) == (sam_text::ends_at(m, c, i) && (max_order
            < 0 || m.states[v].len <= max_order)));
        assert(path.take(path.len() as int) =~= path);
        if x >= 0 {
            lemma_along_path(us, path, x as u32, path.len() as int, v, sym);
            let a = m.text[i + 1];
            assert(alphabet[alphabet.index_of(a)] == a && 0 <= alphabet.index_of(a) < alphabet.len());
        }
        assert(alphabet[alphabet.index_of(ch)] == ch && 0 <= alphabet.index_of(ch) < alphabet.len());
        assert((x >= 0 && x as u32 == sym) == (m.text[i + 1] == ch));
        assert(places::places(to, has) == places::places(to - 1, has) + if has(to - 1) {
            1nat
        } else {
            0
        });
    }
}

proof fn lemma_fed_all_states(m: SamModel, syms: Seq<u32>)
    requires
        sam_text::is_automaton(m),
        sam_text::states_sound(m),
    ensures
        sam_text::states_sound(model::fed_all(m, syms)),
        model::fed_all(m, syms).states.len() >= m.states.len(),
    decreases syms.len(),
{
    if syms.len() > 0 {
        sam_text::law_fed_automaton(m, syms[0]);
        sam_text::law_fed_states(m, syms[0]);
        lemma_fed_all_states(sam::fed(m, syms[0]), syms.drop_first());
    }
}

/// Bytes that are learned are appended to the text, with a boundary behind them where they are
/// separate. Each byte that was appended is counted behind every string that ends in front of it and
/// that the order lets in: the first of them too, where the text goes on. What was counted stays,
/// and so do the settings; the bytes are counted as symbols too.
pub proof fn law_learned_bytes(m: RosaModel, bytes: Seq<u8>, separate: bool, c: Seq<u32>, ch: u8)
    requires
        sam_text::is_automaton(m.sam),
        sam_text::ends_sound(m.sam),
        sam_text::states_sound(m.sam),
        m.sam.boundary_after.len() == m.sam.text.len(),
        m.lm.tallies.len() <= m.sam.states.len(),
        m.lm.alphabet == model::all_bytes(),
        m.lm.unigram.len() == 256,
        bytes.len() > 0,
    ensures
        ({
            let after = model::with_bytes_learned(m, bytes, separate);
            let n = m.sam.text.len() as int;
            let k = bytes.len() as int;
            let v = scoring::walked(after.sam, 0, c);
            let first = if separate || n == 0 || m.sam.boundary_after[n - 1] != 0 {
                n
            } else {
                n - 1
            };
            &&& sam_text::is_automaton(after.sam)
            &&& sam_text::ends_sound(after.sam)
            &&& sam_text::states_sound(after.sam)
            &&& after.sam.text.len() == n + k
            &&& forall|i: int| 0 <= i < n ==> #[trigger] after.sam.text[i] == m.sam.text[i]
            &&& forall|i: int| n <= i < n + k ==> #[trigger] after.sam.text[i] == bytes[i - n]
            &&& forall|b: int|
                0 <= b < n ==> #[trigger] after.sam.boundary_after[b] == m.sam.boundary_after[b]
            &&& forall|b: int| n <= b < n + k - 1 ==> #[trigger] after.sam.boundary_after[b] == 0
            &&& (after.sam.boundary_after[n + k - 1] != 0) == separate
            &&& after.lm_built
            &&& after.lm.total_uni == m.lm.total_uni + k
            &&& after.lm.unigram[ch as int] == (m.lm.unigram[ch as int] + model::byte_times(bytes, ch)) as u64
            &&& after.max_order == m.max_order && after.use_eot == m.use_eot && after.eot == m.eot
                && after.seed == m.seed && after.lm.alphabet == m.lm.alphabet
            &&& sam_text::stands_in(after.sam, c) && (m.max_order < 0 || after.sam.states[v].len
                <= m.max_order) ==> tallies::count_in(after.lm.tallies[v], ch as u32) == (if v
                < m.lm.tallies.len() {
                tallies::count_in(m.lm.tallies[v], ch as u32)
            } else {
                0
            }) + places::places(n + k - 1, newly_followed_by(after.sam, c, ch as u32, first))
        }),
{
    let syms = model::symbols(bytes);
    let after = model::with_bytes_learned(m, bytes, separate);
    let fed = model::fed_all(m.sam, syms);
    let n = m.sam.text.len() as int;
    let k = bytes.len() as int;
    law_fed_all_automaton(m.sam, syms);
    lemma_fed_all_states(m.sam, syms);
    if separate {
        sam_text::law_bounded_automaton(fed);
        sam_text::law_bounded_ends(fed);
        sam_text::law_bounded_states(fed);
    }
    assert forall|b: int| 0 <= b < n implies #[trigger] after.sam.boundary_after[b]
        == m.sam.boundary_after[b] by {
        assert(fed.boundary_after[b] == m.sam.boundary_after[b]);
    }
    assert forall|b: int| n <= b < n + k - 1 implies #[trigger] after.sam.boundary_after[b] == 0 by {
        assert(fed.boundary_after[b] == 0);
    }
    assert(fed.boundary_after[n + k - 1] == 0);
    if sam_text::stands_in(after.sam, c) {
        let alphabet = model::all_bytes();
        assert(alphabet[ch as int] == ch as u32);
        assert(alphabet.contains(ch as u32));
        lm::lemma_symbol_at(alphabet, ch as int);
        let ts = model::grown(m.lm.tallies, after.sam.states.len());
        let first = model::first_transition(after.sam, n, separate);
        if n > 0 {
            assert(after.sam.boundary_after[n - 1] == m.sam.boundary_after[n - 1]);
        }
        law_learned_symbols_are_counted(
            ts,
            after.sam,
            m.max_order,
            alphabet,
            first,
            n + k - 1,
            c,
            ch as u32,
        );
        let v = scoring::walked(after.sam, 0, c);
        assert(tallies::count_in(ts[v], ch as u32) == (if v < m.lm.tallies.len() {
            tallies::count_in(m.lm.tallies[v], ch as u32)
        } else {
            0
        }));
    }
}

/// How often a byte stands in bytes.
pub proof fn law_byte_times(bytes: Seq<u8>, b: u8)
    ensures
        model::byte_times(bytes, b) == places::places(bytes.len() as int, |i: int| bytes[i] == b),
    decreases bytes.len(),
{
    if bytes.len() > 0 {
        let rest = bytes.drop_last();
        law_byte_times(rest, b);
        places::lemma_places_same(
            rest.len() as int,
            |i: int| rest[i] == b,
            |i: int| bytes[i] == b,
        );
    }
}

/// How often a symbol stands in a text.
pub proof fn law_times(text: Seq<u32>, ch: u32)
    ensures
        lm::times(text, ch) == places::places(text.len() as int, |i: int| text[i] == ch),
    decreases text.len(),
{
    if text.len() > 0 {
        let rest = text.drop_last();
        law_times(rest, ch);
        places::lemma_places_same(
            rest.len() as int,
            |i: int| rest[i] == ch,
            |i: int| text[i] == ch,
        );
    }
}

proof fn lemma_byte_symbols(text: Seq<u32>)
    ensures
        model::byte_symbols(text) == places::places(text.len() as int, |i: int| text[i] < 256),
    decreases text.len(),
{
    if text.len() > 0 {
        let rest = text.drop_last();
        lemma_byte_symbols(rest);
        places::lemma_places_same(
            rest.len() as int,
            |i: int| rest[i] < 256,
            |i: int| text[i] < 256,
        );
    }
}

/// The language model over all byte values counts the text: each byte as often as it stands there, all
/// bytes together, and behind each string what stands behind it. Where no byte stands in the text each
/// byte counts once.
pub proof fn law_byte_model_counts_the_text(m: SamModel, max_order: int, b: u8)
    requires
        m.text.len() <= u64::MAX,
    ensures
        ({
            let lm = model::byte_lm(m, max_order);
            let n = m.text.len() as int;
            let bytes = places::places(n, |i: int| m.text[i] < 256);
            &&& lm.alphabet.len() == 256 && lm.alphabet[b as int] == b
            &&& bytes > 0 ==> lm.unigram[b as int] == places::places(n, |i: int| m.text[i] == b as u32)
                && lm.total_uni == bytes
            &&& bytes == 0 ==> lm.unigram[b as int] == 1 && lm.total_uni == 256
            &&& counts_the_text(m, max_order, lm.alphabet, lm.tallies)
        }),
{
    lemma_byte_symbols(m.text);
    law_times(m.text, b as u32);
    law_built_counts_the_text(m, max_order, model::all_bytes());
    lemma_times_bounded(m.text, b as u32);
}

proof fn lemma_times_bounded(text: Seq<u32>, ch: u32)
    ensures
        lm::times(text, ch) <= text.len(),
    decreases text.len(),
{
    if text.len() > 0 {
        lemma_times_bounded(text.drop_last(), ch);
    }
}

/// The language model over a text's own symbols lists each of them once, and counts how often each
/// stands there; all of them are counted together.
pub proof fn law_own_model_counts_the_text(lm: LmModel, m: SamModel, max_order: int, ch: u32)
    requires
        model::is_own_lm(lm, m, max_order),
        m.text.len() > 0,
        lm.alphabet.len() <= u32::MAX,
    ensures
        lm.alphabet.contains(ch) <==> places::places(m.text.len() as int, |i: int| m.text[i] == ch) > 0,
        lm.alphabet.no_duplicates(),
        lm.alphabet.contains(ch) ==> lm.unigram[lm.alphabet.index_of(ch)] == places::places(
            m.text.len() as int,
            |i: int| m.text[i] == ch,
        ),
        lm.total_uni == m.text.len(),
        counts_the_text(m, max_order, lm.alphabet, lm.tallies),
{
    let has = |i: int| m.text[i] == ch;
    law_times(m.text, ch);
    places::lemma_places_some(m.text.len() as int, has);
    law_built_counts_the_text(m, max_order, lm.alphabet);
    if m.text.contains(ch) {
        let i = choose|i: int| 0 <= i < m.text.len() && m.text[i] == ch;
        assert(has(i));
    }
    if lm.alphabet.contains(ch) {
        let k = lm.alphabet.index_of(ch);
        assert(0 <= k < lm.alphabet.len() && lm.alphabet[k] == ch);
    }
    assert(places::places(m.text.len() as int, |i: int| m.text[i] == ch) == places::places(
        m.text.len() as int,
        has,
    )) by {
        places::lemma_places_same(m.text.len() as int, |i: int| m.text[i] == ch, has);
    }
}

/// A prompt of bytes leads to the state of its symbols.
pub proof fn law_prompt_bytes(m: SamModel, prompt: Seq<u8>)
    ensures
        query::state_after(m, prompt) == scoring::walked(m, 0, model::symbols(prompt)),
    decreases prompt.len(),
{
    if prompt.len() > 0 {
        law_prompt_bytes(m, prompt.drop_last());
        assert(model::symbols(prompt).drop_last() =~= model::symbols(prompt.drop_last()));
    }
}

// ---------------------------------------------------------------------------------------
// Scores in chunks
// ---------------------------------------------------------------------------------------

/// The symbols are cut into chunks of one length, at most sixteen and no more than needed; each stands
/// in the chunk that begins in front of it and ends behind it.
pub proof fn law_chunks(n: int, j: int)
    requires
        0 <= j < n,
    ensures
        ({
            let len = query::chunk_len(n);
            let start = scoring::chunk_start(n, j);
            &&& 0 <= start <= j < start + len
            &&& start % len == 0
            &&& 16 * (len - 1) < n <= 16 * len
            &&& exists|i: int| #[trigger]
                query::chunk_bounds(n, i).0 == start && j < query::chunk_bounds(n, i).1 <= n && 0 <= i < 16
        }),
{
    let len = query::chunk_len(n);
    let i = j / len;
    vstd::arithmetic::div_mod::lemma_fundamental_div_mod(j, len);
    vstd::arithmetic::div_mod::lemma_mod_multiples_basic(i, len);
    vstd::arithmetic::div_mod::lemma_div_pos_is_pos(j, len);
    assert(i * len == len * i) by (nonlinear_arith);
    assert((i + 1) * len == i * len + len) by (nonlinear_arith);
    assert(0 <= i * len) by (nonlinear_arith)
        requires
            0 <= i,
            0 < len,
    ;
    assert(i < 16) by (nonlinear_arith)
        requires
            i * len <= j,
            j < 16 * len,
            0 < len,
    ;
    assert(query::chunk_bounds(n, i).0 == scoring::chunk_start(n, j));
}

proof fn lemma_walked_on(m: SamModel, v: int, a: Seq<u32>, b: Seq<u32>)
    ensures
        scoring::walked(m, v, a + b) == scoring::walked(m, scoring::walked(m, v, a), b),
    decreases b.len(),
{
    if b.len() == 0 {
        assert(a + b =~= a);
    } else {
        lemma_walked_on(m, v, a, b.drop_last());
        assert((a + b).drop_last() =~= a + b.drop_last());
    }
}

/// Whether a score is that of a symbol behind a prompt, by what was learned of a text: the string
/// that decides is the longest end of the prompt that stands in the text.
pub open spec fn is_score_behind(
    text: Seq<u32>,
    max_order: int,
    prompt: Seq<u32>,
    ch: u32,
    score: ScoreModel,
) -> bool {
    exists|m: SamModel, lm: LmModel, s: Seq<u32>|
        {
            &&& #[trigger] model::is_own_lm(lm, m, max_order)
            &&& sam_text::is_automaton(m)
            &&& m.text == text
            &&& forall|b: int| 0 <= b < m.text.len() ==> #[trigger] m.boundary_after[b] == 0
            &&& #[trigger] sam_text::is_longest_match(m, prompt, s)
            &&& score == scoring::score_of(m, lm, max_order, sam_text::read(m.states, s), ch)
        }
}

/// A symbol is scored by what was learned of all the symbols in front of its chunk and of nothing
/// else, behind everything in front of it, or behind what its chunk holds in front of it where a
/// chunk is read for itself.
pub proof fn law_scored_by_the_text_before(
    syms: Seq<u32>,
    max_order: int,
    from_root: bool,
    j: int,
    score: ScoreModel,
)
    requires
        0 <= j < syms.len(),
        scoring::scored_at(syms, max_order, from_root, j, score),
    ensures
        exists|start: int|
            {
                &&& 0 <= start <= j < start + query::chunk_len(syms.len() as int)
                &&& start % query::chunk_len(syms.len() as int) == 0
                &&& is_score_behind(
                    #[trigger] syms.take(start),
                    max_order,
                    if from_root {
                        syms.subrange(start, j)
                    } else {
                        syms.take(j)
                    },
                    syms[j],
                    score,
                )
            },
{
    let n = syms.len() as int;
    law_chunks(n, j);
    let start = scoring::chunk_start(n, j);
    let before = syms.take(start);
    let m = model::fed_all(sam::empty_sam(), before);
    sam_text::law_empty_is_automaton();
    sam_text::law_empty_ends();
    sam_text::law_empty_states();
    law_fed_all_automaton(sam::empty_sam(), before);
    lemma_fed_all_states(sam::empty_sam(), before);
    assert(m.text =~= before);
    let part = syms.subrange(start, j);
    assert(before + part =~= syms.take(j));
    let prompt = if from_root {
        part
    } else {
        syms.take(j)
    };
    let v = if from_root {
        0
    } else {
        m.text_states[start]
    };
    if !from_root {
        if start > 0 {
            sam_text::law_state_of_the_text(m);
            sam_text::law_prompt_state(m, before);
            lemma_walked_on(m, 0, before, part);
        } else {
            assert(part =~= syms.take(j));
            assert(m.text_states[0] == 0);
        }
    }
    assert(scoring::walked(m, v, part) == scoring::walked(m, 0, prompt));
    sam_text::law_prompt_state(m, prompt);
    let s = choose|s: Seq<u32>| #[trigger]
        sam_text::is_longest_match(m, prompt, s) && scoring::walked(m, 0, prompt) == sam_text::read(
            m.states,
            s,
        );
    let lm = choose|lm: LmModel| #[trigger]
        model::is_own_lm(lm, m, max_order) && score == scoring::score_of(
            m,
            lm,
            max_order,
            scoring::walked(m, v, part),
            syms[j],
        );
    assert(model::is_own_lm(lm, m, max_order) && sam_text::is_longest_match(m, prompt, s) && score
        == scoring::score_of(m, lm, max_order, sam_text::read(m.states, s), syms[j]));
    assert(is_score_behind(before, max_order, prompt, syms[j], score));
    assert(syms.take(start) == before);
}

} // verus!
