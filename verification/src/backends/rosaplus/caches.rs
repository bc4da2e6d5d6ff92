//! Tables that a predictor read from a file makes anew: the edges of the root by byte, and the
//! symbols of the alphabet by byte.

use vstd::prelude::*;
use crate::backends::rosaplus::lm;
use crate::backends::rosaplus::sam;

use crate::backends::rosaplus::sam::{SamEdge, SamState, SAM_STATE_NONE};

verus! {

broadcast use vstd::array::group_array_axioms;

/// No edges.
pub open spec fn no_edges() -> Seq<i32> {
    Seq::new(256, |c: int| SAM_STATE_NONE)
}

/// A table with the target of an edge, where its label is a byte.
pub open spec fn with_edge(table: Seq<i32>, ch: u32, to: i32) -> Seq<i32> {
    if ch < 256 {
        table.update(ch as int, to)
    } else {
        table
    }
}

/// A table with the first `n` inline edges of a state.
pub open spec fn with_inline(table: Seq<i32>, s: SamState, n: int) -> Seq<i32>
    decreases n,
{
    if n <= 0 {
        table
    } else {
        with_edge(with_inline(table, s, n - 1), s.small_ch@[n - 1], s.small_to@[n - 1])
    }
}

/// A table with at most `steps` edges of the list that starts at `ei`.
pub open spec fn with_list(table: Seq<i32>, ed: Seq<SamEdge>, ei: u32, steps: nat) -> Seq<i32>
    decreases steps,
{
    if steps == 0 || ei >= ed.len() {
        table
    } else {
        with_list(
            with_edge(table, ed[ei as int].ch, ed[ei as int].to),
            ed,
            ed[ei as int].next,
            (steps - 1) as nat,
        )
    }
}

/// Targets of the root's edges by byte: the inline ones first, then those of its list, which has no
/// more edges than there are.
pub open spec fn root_table(st: Seq<SamState>, ed: Seq<SamEdge>) -> Seq<i32> {
    if st.len() == 0 {
        no_edges()
    } else {
        with_list(
            with_inline(no_edges(), st[0], st[0].small_n as int),
            ed,
            st[0].head,
            ed.len(),
        )
    }
}

fn put_edge(table: &mut Vec<i32>, ch: u32, to: i32)
    requires
        old(table)@.len() == 256,
    ensures
        final(table)@ == with_edge(old(table)@, ch, to),
        final(table)@.len() == 256,
{
    if ch < 256 {
        table.set(ch as usize, to);
    }
}

/// Targets of the root's edges by byte.
pub fn root_edges(st: &Vec<SamState>, ed: &Vec<SamEdge>) -> (table: Vec<i32>)
    requires
        st@.len() > 0 ==> st@[0].small_n <= 4,
    ensures
        table@ == root_table(st@, ed@),
{
    let mut table: Vec<i32> = Vec::new();
    while table.len() < 256
        invariant
            table@.len() <= 256,
            forall|c: int| 0 <= c < table@.len() ==> #[trigger] table@[c] == SAM_STATE_NONE,
        decreases 256 - table@.len(),
    {
        table.push(SAM_STATE_NONE);
    }
    proof {
        assert(table@ =~= no_edges());
    }
    if st.len() == 0 {
        return table;
    }
    let root: &SamState = &st[0];
    let mut i: usize = 0;
    while i < root.small_n as usize
        invariant
            i <= root.small_n <= 4,
            table@ == with_inline(no_edges(), *root, i as int),
            table@.len() == 256,
        decreases root.small_n - i,
    {
        put_edge(&mut table, root.small_ch[i], root.small_to[i]);
        i += 1;
    }
    let n: usize = ed.len();
    let mut ei: u32 = root.head;
    let mut steps: usize = n;
    while steps > 0 && (ei as usize) < n
        invariant
            n == ed@.len(),
            table@.len() == 256,
            st@.len() > 0,
            with_list(table@, ed@, ei, steps as nat) == root_table(st@, ed@),
        decreases steps,
    {
        let e: SamEdge = ed[ei as usize];
        put_edge(&mut table, e.ch, e.to);
        ei = e.next;
        steps -= 1;
    }
    table
}

proof fn lemma_inline(s: SamState, c: u32)
    requires
        s.small_n <= 4,
        c < 256,
        forall|i: int, j: int|
            0 <= i < j < s.small_n ==> #[trigger] s.small_ch@[i] != #[trigger] s.small_ch@[j],
    ensures
        with_inline(no_edges(), s, s.small_n as int).len() == 256,
        with_inline(no_edges(), s, s.small_n as int)[c as int] as int == sam::small_target(s, c),
{
    reveal_with_fuel(with_inline, 5);
    assert(no_edges()[c as int] == SAM_STATE_NONE);
}

proof fn lemma_list(table: Seq<i32>, n: int, ed: Seq<SamEdge>, owner: Seq<int>, ei: u32, steps: nat, c: u32)
    requires
        table.len() == 256,
        c < 256,
        ed.len() < u32::MAX,
        forall|e: int| 0 <= e < ed.len() ==> #[trigger] sam::edge_ok(n, ed, owner, e),
        ei < ed.len() ==> ei < steps,
    ensures
        with_list(table, ed, ei, steps).len() == 256,
        with_list(table, ed, ei, steps)[c as int] as int == if sam::list_target(ed, ei, c) != -1 {
            sam::list_target(ed, ei, c)
        } else {
            table[c as int] as int
        },
    decreases steps,
{
    if ei < ed.len() {
        assert(sam::edge_ok(n, ed, owner, ei as int));
        let e = ed[ei as int];
        lemma_list(with_edge(table, e.ch, e.to), n, ed, owner, e.next, (steps - 1) as nat, c);
    }
}

/// In a consistent automaton the table repeats the root's byte edges.
pub proof fn lemma_root_table(
    st: Seq<SamState>,
    ed: Seq<SamEdge>,
    owner: Seq<int>,
    rank: Seq<nat>,
    text_len: int,
)
    requires
        sam::graph_wf(st, ed, owner, rank, text_len),
    ensures
        sam::root_cache_ok(st, ed, root_table(st, ed)),
{
    assert(sam::state_ok(st, ed, owner, text_len, 0));
    let s = st[0];
    let inline = with_inline(no_edges(), s, s.small_n as int);
    lemma_inline(s, 0);
    lemma_list(inline, st.len() as int, ed, owner, s.head, ed.len(), 0);
    assert forall|c: u32| c < 256 implies #[trigger] root_table(st, ed)[c as int] as int
        == sam::target(st, ed, 0, c) by {
        lemma_inline(s, c);
        lemma_list(inline, st.len() as int, ed, owner, s.head, ed.len(), c);
    }
}

// ---------------------------------------------------------------------------------------
// Bytes of the alphabet
// ---------------------------------------------------------------------------------------

/// Whether all symbols are bytes.
pub open spec fn all_bytes(alphabet: Seq<u32>) -> bool {
    forall|i: int| 0 <= i < alphabet.len() ==> #[trigger] alphabet[i] < 256
}

/// Last of the first `n` places that hold a symbol; -1 where none does.
pub open spec fn last_place(alphabet: Seq<u32>, ch: u32, n: int) -> int
    decreases n,
{
    if n <= 0 {
        -1
    } else if alphabet[n - 1] == ch {
        n - 1
    } else {
        last_place(alphabet, ch, n - 1)
    }
}

/// Place of each byte in an alphabet of bytes; -1 for each where not all symbols are bytes.
pub open spec fn byte_places(alphabet: Seq<u32>) -> Seq<i16> {
    Seq::new(
        256,
        |c: int|
            if all_bytes(alphabet) {
                last_place(alphabet, c as u32, alphabet.len() as int) as i16
            } else {
                -1i16
            },
    )
}

/// Whether all symbols are bytes, and the place of each byte then.
pub fn index_of_bytes(alphabet: &Vec<u32>) -> (index: (bool, Vec<i16>))
    ensures
        index.0 == all_bytes(alphabet@),
        index.1@ == byte_places(alphabet@),
{
    let n: usize = alphabet.len();
    let mut places: Vec<i16> = Vec::new();
    while places.len() < 256
        invariant
            places@.len() <= 256,
            forall|c: int| 0 <= c < places@.len() ==> #[trigger] places@[c] == -1,
        decreases 256 - places@.len(),
    {
        places.push(-1);
    }
    let mut i: usize = 0;
    while i < n
        invariant
            i <= n == alphabet@.len(),
            places@.len() == 256,
            forall|c: int| 0 <= c < 256 ==> #[trigger] places@[c] == -1,
            forall|k: int| 0 <= k < i ==> #[trigger] alphabet@[k] < 256,
        decreases n - i,
    {
        if alphabet[i] >= 256 {
            proof {
                assert(!all_bytes(alphabet@));
                assert(places@ =~= byte_places(alphabet@));
            }
            return (false, places);
        }
        i += 1;
    }
    let mut i: usize = 0;
    while i < n
        invariant
            i <= n == alphabet@.len(),
            all_bytes(alphabet@),
            places@.len() == 256,
            forall|c: u32|
                c < 256 ==> #[trigger] places@[c as int] == last_place(
                    alphabet@,
                    c,
                    i as int,
                ) as i16,
        decreases n - i,
    {
        let ghost before = places@;
        let ch: u32 = alphabet[i];
        places.set(ch as usize, i as i16);
        i += 1;
        proof {
            assert forall|c: u32| c < 256 implies #[trigger] places@[c as int] == last_place(
                alphabet@,
                c,
                i as int,
            ) as i16 by {
                if c != ch {
                    assert(places@[c as int] == before[c as int]);
                }
            }
        }
    }
    proof {
        assert forall|c: int| 0 <= c < 256 implies places@[c] == #[trigger] byte_places(
            alphabet@,
        )[c] by {
            assert(places@[(c as u32) as int] == last_place(alphabet@, c as u32, n as int) as i16);
        }
        assert(places@ =~= byte_places(alphabet@));
    }
    (true, places)
}

proof fn lemma_last_place(alphabet: Seq<u32>, ch: u32, n: int)
    requires
        0 <= n <= alphabet.len(),
    ensures
        -1 <= last_place(alphabet, ch, n) < n,
        last_place(alphabet, ch, n) >= 0 ==> alphabet[last_place(alphabet, ch, n)] == ch,
        last_place(alphabet, ch, n) == -1 ==> forall|k: int|
            0 <= k < n ==> #[trigger] alphabet[k] != ch,
    decreases n,
{
    if n > 0 && alphabet[n - 1] != ch {
        lemma_last_place(alphabet, ch, n - 1);
    }
}

/// In an alphabet that is in order the places are the symbols' indices.
pub proof fn lemma_byte_places(alphabet: Seq<u32>, unigram: Seq<u64>)
    requires
        lm::is_increasing(alphabet),
        alphabet.len() <= i32::MAX,
        unigram.len() == alphabet.len(),
    ensures
        lm::index_ok(
            alphabet,
            unigram,
            alphabet.len() as u32,
            all_bytes(alphabet),
            byte_places(alphabet),
        ),
{
    let n = alphabet.len() as int;
    if all_bytes(alphabet) {
        assert forall|c: u32| c < 256 implies #[trigger] byte_places(alphabet)[c as int]
            == lm::symbol_index(alphabet, c) by {
            lemma_last_place(alphabet, c, n);
            let k = last_place(alphabet, c, n);
            if alphabet.contains(c) {
                let j = alphabet.index_of(c);
                assert(0 <= j < n && alphabet[j] == c);
                assert(k >= 0);
                if j < k {
                    assert(alphabet[j] < alphabet[k]);
                }
                if k < j {
                    assert(alphabet[k] < alphabet[j]);
                }
                lm::lemma_increasing_gap(alphabet, k);
            } else if k >= 0 {
                assert(alphabet.contains(alphabet[k]));
            }
        }
    } else {
        let i = choose|i: int| 0 <= i < n && #[trigger] alphabet[i] >= 256;
        if i < n - 1 {
            assert(alphabet[i] < alphabet[n - 1]);
        }
    }
}

} // verus!
