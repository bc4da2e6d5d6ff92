//! What the probability of each symbol of a sequence is made of.

use vstd::prelude::*;
use crate::backends::rosaplus::sam_walk;
use crate::backends::rosaplus::sam;
use crate::backends::rosaplus::query;
use crate::backends::rosaplus::model;
use crate::backends::rosaplus::lm;
use vstd::slice::slice_subrange;

use crate::backends::rosaplus::lm::LmModel;
use crate::backends::rosaplus::model::RosaPlus;
use crate::backends::rosaplus::query::{entropy_chunks, BackoffTerm};
use crate::backends::rosaplus::sam::SamModel;

verus! {

/// What the probability of a symbol is made of: the counts of its contexts, longest first, and how
/// often it occurs at all.
#[derive(Debug)]
pub struct SymbolScore {
    /// Contexts that something followed; none for a symbol that never occurred.
    pub terms: Vec<BackoffTerm>,
    /// Occurrences of the symbol; none where it is not among the symbols.
    pub unigram: Option<u64>,
    /// Occurrences of all symbols.
    pub total: u64,
    /// How many symbols there are.
    pub symbols: u32,
}

/// [`SymbolScore`] as a mathematical object.
#[verifier::ext_equal]
pub struct ScoreModel {
    pub terms: Seq<BackoffTerm>,
    pub unigram: Option<u64>,
    pub total: nat,
    pub symbols: nat,
}

impl View for SymbolScore {
    type V = ScoreModel;

    open spec fn view(&self) -> ScoreModel {
        ScoreModel {
            terms: self.terms@,
            unigram: self.unigram,
            total: self.total as nat,
            symbols: self.symbols as nat,
        }
    }
}

/// State reached from `v` by symbols.
pub open spec fn walked(m: SamModel, v: int, syms: Seq<u32>) -> int
    decreases syms.len(),
{
    if syms.len() == 0 {
        v
    } else {
        sam::advanced(m.states, walked(m, v, syms.drop_last()), syms.last())
    }
}

/// What the probability of `ch` behind state `v` is made of.
pub open spec fn score_of(sam: SamModel, lm: LmModel, max_order: int, v: int, ch: u32) -> ScoreModel {
    let si = lm::symbol_index(lm.alphabet, ch);
    let path = sam::path_of(sam.states, sam_walk::capped(sam.states, max_order, v));
    ScoreModel {
        terms: if si < 0 {
            Seq::empty()
        } else {
            query::terms_along(lm.tallies, path, si as u32, path.len() as int)
        },
        unigram: if si < 0 {
            None
        } else {
            Some(lm.unigram[si])
        },
        total: lm.total_uni,
        symbols: lm.alphabet.len(),
    }
}

impl RosaPlus {
    /// What the probability of `ch` behind state `v` is made of.
    pub fn symbol_score(&self, v: i32, ch: u32) -> (score: SymbolScore)
        requires
            self.wf(),
            self.is_scored(),
            0 <= v < self.sam.st@.len(),
        ensures
            score@ == score_of(self@.sam, self@.lm, self@.max_order, v as int, ch),
    {
        let si: i32 = self.lm.find_sym(ch);
        if si < 0 {
            let score = SymbolScore {
                terms: Vec::new(),
                unigram: None,
                total: self.lm.total_uni,
                symbols: self.lm.alpha_n,
            };
            proof {
                assert(score@.terms =~= Seq::empty());
            }
            return score;
        }
        SymbolScore {
            terms: self.backoff_terms(v, si as u32),
            unigram: Some(self.lm.unigram[si as usize]),
            total: self.lm.total_uni,
            symbols: self.lm.alpha_n,
        }
    }

    /// What the probabilities of symbols are made of, one behind the other from state `v` on.
    pub fn score_symbols(&self, v: i32, syms: &[u32]) -> (scores: Vec<SymbolScore>)
        requires
            self.wf(),
            self.is_scored(),
            0 <= v < self.sam.st@.len(),
        ensures
            scores@.len() == syms@.len(),
            forall|i: int|
                0 <= i < syms@.len() ==> (#[trigger] scores@[i])@ == score_of(
                    self@.sam,
                    self@.lm,
                    self@.max_order,
                    walked(self@.sam, v as int, syms@.take(i)),
                    syms@[i],
                ),
    {
        let n: usize = syms.len();
        let mut scores: Vec<SymbolScore> = Vec::new();
        let mut u: i32 = v;
        let mut i: usize = 0;
        while i < n
            invariant
                i <= n == syms@.len(),
                self.wf(),
                self.is_scored(),
                0 <= u < self.sam.st@.len(),
                u == walked(self@.sam, v as int, syms@.take(i as int)),
                scores@.len() == i,
                forall|k: int|
                    0 <= k < i ==> (#[trigger] scores@[k])@ == score_of(
                        self@.sam,
                        self@.lm,
                        self@.max_order,
                        walked(self@.sam, v as int, syms@.take(k)),
                        syms@[k],
                    ),
            decreases n - i,
        {
            scores.push(self.symbol_score(u, syms[i]));
            u = self.sam.advance(u, syms[i]);
            proof {
                assert(syms@.take(i + 1).drop_last() =~= syms@.take(i as int));
            }
            i += 1;
        }
        scores
    }
}

/// Feeding one part behind the other comes to feeding the whole.
pub proof fn law_feeding_parts(m: SamModel, a: Seq<u32>, b: Seq<u32>)
    ensures
        model::fed_all(m, a + b) == model::fed_all(model::fed_all(m, a), b),
        model::fits_all(m, a + b) ==> model::fits_all(m, a) && model::fits_all(model::fed_all(m, a), b),
    decreases a.len(),
{
    if a.len() == 0 {
        assert(a + b =~= b);
    } else {
        assert((a + b).drop_first() =~= a.drop_first() + b);
        law_feeding_parts(sam::fed(m, a[0]), a.drop_first(), b);
    }
}

/// The automaton keeps what it was fed.
pub proof fn law_fed_text(m: SamModel, a: Seq<u32>)
    ensures
        model::fed_all(m, a).text == m.text + a,
    decreases a.len(),
{
    if a.len() == 0 {
        assert(m.text + a =~= m.text);
    } else {
        law_fed_text(sam::fed(m, a[0]), a.drop_first());
        assert(m.text.push(a[0]) + a.drop_first() =~= m.text + a);
    }
}

/// First symbol of the evaluation chunk that holds symbol `j` of `n`.
pub open spec fn chunk_start(n: int, j: int) -> int {
    (j / query::chunk_len(n)) * query::chunk_len(n)
}

/// Whether a score is that of symbol `j`: by the language model of all symbols in front of its
/// chunk, and behind the symbols of the chunk, read from the root or from the state where the
/// symbols in front of the chunk end.
pub open spec fn scored_at(
    syms: Seq<u32>,
    max_order: int,
    from_root: bool,
    j: int,
    score: ScoreModel,
) -> bool {
    let start = chunk_start(syms.len() as int, j);
    let sam = model::fed_all(sam::empty_sam(), syms.take(start));
    let v = if from_root {
        0
    } else {
        sam.text_states[start]
    };
    exists|lm: LmModel| #[trigger]
        model::is_own_lm(lm, sam, max_order) && score == score_of(
            sam,
            lm,
            max_order,
            walked(sam, v, syms.subrange(start, j)),
            syms[j],
        )
}

/// Whether the language models in front of all chunks but the first can be numbered.
pub open spec fn chunks_fit(syms: Seq<u32>, max_order: int) -> bool {
    forall|start: int|
        0 < start < syms.len() && start % query::chunk_len(syms.len() as int) == 0 ==> model::can_build_lm(
            #[trigger] model::fed_all(sam::empty_sam(), syms.take(start)),
            max_order,
        )
}

proof fn lemma_chunk(n: int, i: int, j: int)
    requires
        0 < n,
        0 <= i,
        i * query::chunk_len(n) <= j < (i + 1) * query::chunk_len(n),
    ensures
        chunk_start(n, j) == i * query::chunk_len(n),
{
    let c = query::chunk_len(n);
    assert(c > 0);
    assert((i + 1) * c == i * c + c) by (nonlinear_arith);
    vstd::arithmetic::div_mod::lemma_fundamental_div_mod_converse(j, c, i, j - i * c);
}

impl RosaPlus {
    /// Reads symbols chunk by chunk, and tells before each chunk but the first what the
    /// probabilities of its symbols are made of. A chunk is read from the root, or from where the
    /// chunk in front of it ends. What was read before is forgotten.
    pub fn chunked_scores(&mut self, syms: &[u32], from_root: bool) -> (scores: Vec<SymbolScore>)
        requires
            old(self).wf(),
            model::fits_all(sam::empty_sam(), syms@),
            chunks_fit(syms@, old(self)@.max_order),
        ensures
            final(self).wf(),
            final(self)@.sam == model::fed_all(sam::empty_sam(), syms@),
            final(self)@.max_order == old(self)@.max_order,
            ({
                let n = syms@.len() as int;
                let first = if n < query::chunk_len(n) {
                    n
                } else {
                    query::chunk_len(n)
                };
                &&& scores@.len() == n - first
                &&& forall|j: int|
                    first <= j < n ==> scored_at(
                        syms@,
                        old(self)@.max_order,
                        from_root,
                        j,
                        (#[trigger] scores@[j - first])@,
                    )
            }),
    {
        self.restart();
        let n: usize = syms.len();
        let chunks = entropy_chunks(n);
        let mut scores: Vec<SymbolScore> = Vec::new();
        let ghost s = syms@;
        let ghost order = self@.max_order;
        let ghost c = query::chunk_len(n as int);
        let ghost first = if n < c {
            n as int
        } else {
            c
        };
        let mut k: usize = 0;
        let mut done: usize = 0;
        proof {
            assert(s.take(0) =~= Seq::empty());
            if n > 0 {
                assert(chunks@[0].1 == query::chunk_bounds(n as int, 0).1);
            }
        }
        while k < chunks.len()
            invariant
                k <= chunks@.len(),
                s == syms@,
                n == s.len(),
                c == query::chunk_len(n as int),
                first == (if n < c {
                    n as int
                } else {
                    c
                }),
                forall|i: int|
                    0 <= i < chunks@.len() ==> ((#[trigger] chunks@[i]).0 as int, chunks@[i].1 as int)
                        == query::chunk_bounds(n as int, i),
                forall|i: int|
                    0 <= i < chunks@.len() ==> (#[trigger] chunks@[i]).0 < chunks@[i].1,
                done == (if k == 0 {
                    0
                } else {
                    chunks@[k - 1].1 as int
                }),
                done <= n,
                self.wf(),
                self@.max_order == order,
                self@.sam == model::fed_all(sam::empty_sam(), s.take(done as int)),
                model::fits_all(sam::empty_sam(), s),
                chunks_fit(s, order),
                scores@.len() == (if k == 0 {
                    0
                } else {
                    done - first
                }),
                k > 0 ==> done >= first,
                forall|j: int|
                    first <= j < done ==> scored_at(
                        s,
                        order,
                        from_root,
                        j,
                        (#[trigger] scores@[j - first])@,
                    ),
            decreases chunks@.len() - k,
        {
            let (start, end): (usize, usize) = chunks[k];
            proof {
                assert((chunks@[k as int].0 as int, chunks@[k as int].1 as int) == query::chunk_bounds(
                    n as int,
                    k as int,
                ));
                assert((k + 1) * c == k * c + c) by (nonlinear_arith);
                if k > 0 {
                    assert((chunks@[k - 1].0 as int, chunks@[k - 1].1 as int) == query::chunk_bounds(
                        n as int,
                        k - 1,
                    ));
                    assert((k - 1 + 1) * c == k * c);
                } else {
                    assert(0 * c == 0) by (nonlinear_arith);
                }
                assert(start == done);
                assert(s.take(start as int) + s.subrange(start as int, end as int) =~= s.take(
                    end as int,
                ));
                assert(s.take(end as int) + s.skip(end as int) =~= s);
                law_feeding_parts(sam::empty_sam(), s.take(end as int), s.skip(end as int));
                law_feeding_parts(
                    sam::empty_sam(),
                    s.take(start as int),
                    s.subrange(start as int, end as int),
                );
            }
            let chunk = slice_subrange(syms, start, end);
            if k > 0 {
                proof {
                    assert(start as int % c == 0) by {
                        vstd::arithmetic::div_mod::lemma_mod_multiples_basic(k as int, c);
                    }
                }
                let ghost sam = self@.sam;
                self.build_lm_no_finalize_endpos();
                proof {
                    law_fed_text(sam::empty_sam(), s.take(start as int));
                    assert(self.sam.text@ == self@.sam.text);
                    assert(self.sam.text@.len() == start);
                    assert(self.sam.text_states@[start as int] == sam.text_states[start as int]) by {
                        assert(self@.sam.text_states[start as int]
                            == self.sam.text_states@[start as int] as int);
                    }
                }
                let v: i32 = if from_root {
                    0
                } else {
                    self.sam.text_states[start]
                };
                let ghost lm = self@.lm;
                let ghost before = scores@;
                let mut part = self.score_symbols(v, chunk);
                let ghost told = part@;
                scores.append(&mut part);
                proof {
                    assert forall|j: int| first <= j < end implies scored_at(
                        s,
                        order,
                        from_root,
                        j,
                        (#[trigger] scores@[j - first])@,
                    ) by {
                        if j < start {
                            assert(scores@[j - first] == before[j - first]);
                        } else {
                            assert(scores@[j - first] == told[j - start]);
                            lemma_chunk(n as int, k as int, j);
                            assert(s.subrange(start as int, end as int).take(j - start)
                                =~= s.subrange(start as int, j));
                            assert(model::is_own_lm(lm, sam, order));
                        }
                    }
                }
            }
            self.feed_symbols(chunk);
            done = end;
            k += 1;
        }
        proof {
            assert(s.take(n as int) =~= s);
            if n == 0 {
                assert(s.take(0) =~= s);
            }
        }
        scores
    }
}

/// Bytes as symbols.
pub fn symbols_of(bytes: &[u8]) -> (syms: Vec<u32>)
    ensures
        syms@ == model::symbols(bytes@),
{
    let n: usize = bytes.len();
    let mut syms: Vec<u32> = Vec::new();
    let mut i: usize = 0;
    while i < n
        invariant
            i <= n == bytes@.len(),
            syms@ == model::symbols(bytes@).take(i as int),
        decreases n - i,
    {
        syms.push(bytes[i] as u32);
        proof {
            assert(model::symbols(bytes@).take(i + 1) =~= model::symbols(bytes@).take(i as int).push(
                model::symbols(bytes@)[i as int],
            ));
        }
        i += 1;
    }
    proof {
        assert(model::symbols(bytes@).take(n as int) =~= model::symbols(bytes@));
    }
    syms
}

} // verus!
