//! Alphabet and context counts of the language model.

use vstd::prelude::*;

use crate::backends::rosaplus::tallies::{Tallies, TallyModel};

verus! {

// ---------------------------------------------------------------------------------------
// Alphabet
// ---------------------------------------------------------------------------------------

/// Strictly increasing numbers.
pub open spec fn is_increasing(s: Seq<u32>) -> bool {
    forall|i: int, j: int| 0 <= i < j < s.len() ==> #[trigger] s[i] < #[trigger] s[j]
}

/// Number of occurrences of `ch` in `text`.
pub open spec fn times(text: Seq<u32>, ch: u32) -> nat
    decreases text.len(),
{
    if text.len() == 0 {
        0
    } else {
        times(text.drop_last(), ch) + if text.last() == ch {
            1nat
        } else {
            0
        }
    }
}

/// `alphabet` lists the symbols of `text` once each, in increasing order; a line feed stands in
/// for an empty text.
pub open spec fn is_alphabet(alphabet: Seq<u32>, text: Seq<u32>) -> bool {
    if text.len() == 0 {
        alphabet == seq![10u32]
    } else {
        is_increasing(alphabet) && forall|ch: u32| #[trigger]
            alphabet.contains(ch) <==> text.contains(ch)
    }
}

/// `unigram` tells how often each symbol of `alphabet` occurs in `text`; the stand-in of an
/// empty text counts once.
pub open spec fn is_unigram(unigram: Seq<u64>, alphabet: Seq<u32>, text: Seq<u32>) -> bool {
    &&& unigram.len() == alphabet.len()
    &&& if text.len() == 0 {
        unigram == seq![1u64]
    } else {
        forall|i: int|
            0 <= i < unigram.len() ==> #[trigger] unigram[i] == times(text, alphabet[i])
    }
}

/// Position of `ch` in `alphabet`; -1 if it is not there.
pub open spec fn symbol_index(alphabet: Seq<u32>, ch: u32) -> int {
    if alphabet.contains(ch) {
        alphabet.index_of(ch)
    } else {
        -1
    }
}

/// A symbol of the alphabet is found where it stands.
pub proof fn lemma_symbol_at(alphabet: Seq<u32>, i: int)
    requires
        is_increasing(alphabet),
        0 <= i < alphabet.len(),
    ensures
        symbol_index(alphabet, alphabet[i]) == i,
{
    let ch = alphabet[i];
    assert(alphabet.contains(ch));
    let k = alphabet.index_of(ch);
    assert(0 <= k < alphabet.len() && alphabet[k] == ch);
}

/// The alphabet is increasing, and its index tells the position of every byte where all symbols
/// are bytes.
pub open spec fn index_ok(
    alphabet: Seq<u32>,
    unigram: Seq<u64>,
    alpha_n: u32,
    has_byte_map: bool,
    byte_map: Seq<i16>,
) -> bool {
    &&& is_increasing(alphabet)
    &&& alphabet.len() <= i32::MAX
    &&& alpha_n == alphabet.len()
    &&& unigram.len() == alphabet.len()
    &&& byte_map.len() == 256
    &&& has_byte_map ==> (forall|i: int| 0 <= i < alphabet.len() ==> #[trigger] alphabet[i] < 256)
    &&& !has_byte_map && alphabet.len() > 0 ==> alphabet.last() >= 256
    &&& has_byte_map ==> forall|c: u32|
        c < 256 ==> #[trigger] byte_map[c as int] == symbol_index(alphabet, c)
}

/// Language model over the contexts of a suffix automaton.
pub struct LM {
    pub alphabet: Vec<u32>,
    pub unigram: Vec<u64>,
    pub alpha_n: u32,
    pub total_uni: u64,
    pub has_byte_map: bool,
    pub byte_map: Vec<i16>,
    pub tallies: Tallies,
}

/// A language model as a mathematical object.
#[verifier::ext_equal]
pub struct LmModel {
    pub alphabet: Seq<u32>,
    pub unigram: Seq<u64>,
    pub total_uni: nat,
    pub tallies: Seq<TallyModel>,
}

impl View for LM {
    type V = LmModel;

    open spec fn view(&self) -> LmModel {
        LmModel {
            alphabet: self.alphabet@,
            unigram: self.unigram@,
            total_uni: self.total_uni as nat,
            tallies: self.tallies@,
        }
    }
}

/// First position in `alphabet` whose symbol is not below `ch`.
fn lower_bound(alphabet: &Vec<u32>, ch: u32) -> (at: usize)
    requires
        is_increasing(alphabet@),
    ensures
        at <= alphabet@.len(),
        forall|i: int| 0 <= i < at ==> #[trigger] alphabet@[i] < ch,
        forall|i: int| at <= i < alphabet@.len() ==> #[trigger] alphabet@[i] >= ch,
{
    let mut lo: usize = 0;
    let mut hi: usize = alphabet.len();
    while lo < hi
        invariant
            lo <= hi <= alphabet@.len(),
            is_increasing(alphabet@),
            forall|i: int| 0 <= i < lo ==> #[trigger] alphabet@[i] < ch,
            forall|i: int| hi <= i < alphabet@.len() ==> #[trigger] alphabet@[i] >= ch,
        decreases hi - lo,
    {
        let mid: usize = lo + (hi - lo) / 2;
        if alphabet[mid] < ch {
            lo = mid + 1;
        } else {
            hi = mid;
        }
    }
    lo
}

pub proof fn lemma_times_bound(text: Seq<u32>, ch: u32)
    ensures
        times(text, ch) <= text.len(),
        times(text, ch) > 0 <==> text.contains(ch),
    decreases text.len(),
{
    if text.len() > 0 {
        lemma_times_bound(text.drop_last(), ch);
        let init = text.drop_last();
        if text.last() == ch {
            assert(text[text.len() - 1] == ch);
        }
        if init.contains(ch) {
            let i = choose|i: int| 0 <= i < init.len() && init[i] == ch;
            assert(text[i] == ch);
        }
        if text.contains(ch) && text.last() != ch {
            let i = choose|i: int| 0 <= i < text.len() && text[i] == ch;
            assert(init[i] == ch);
        }
    }
}

impl LM {
    /// The alphabet and its index agree.
    pub open spec fn alphabet_wf(&self) -> bool {
        index_ok(
            self.alphabet@,
            self.unigram@,
            self.alpha_n,
            self.has_byte_map,
            self.byte_map@,
        )
    }

    /// The alphabet and the counts are consistent.
    pub open spec fn wf(&self) -> bool {
        self.alphabet_wf() && self.tallies.wf()
    }

    /// A model of nothing.
    pub fn new() -> (lm: LM)
        ensures
            lm.wf(),
            lm@ == (LmModel {
                alphabet: Seq::empty(),
                unigram: Seq::empty(),
                total_uni: 0,
                tallies: Seq::empty(),
            }),
    {
        LM {
            alphabet: Vec::new(),
            unigram: Vec::new(),
            alpha_n: 0,
            total_uni: 0,
            has_byte_map: false,
            byte_map: no_bytes(),
            tallies: Tallies::new(),
        }
    }

    /// Indexes the alphabet by byte where every symbol is a byte.
    pub fn index_bytes(&mut self)
        requires
            is_increasing(old(self).alphabet@),
            old(self).alphabet@.len() <= i32::MAX,
            old(self).alpha_n == old(self).alphabet@.len(),
            old(self).unigram@.len() == old(self).alphabet@.len(),
        ensures
            final(self).alphabet_wf(),
            final(self).has_byte_map == (forall|i: int|
                0 <= i < old(self).alphabet@.len() ==> #[trigger] old(self).alphabet@[i] < 256),
            final(self).alphabet == old(self).alphabet,
            final(self).unigram == old(self).unigram,
            final(self).alpha_n == old(self).alpha_n,
            final(self).total_uni == old(self).total_uni,
            final(self).tallies == old(self).tallies,
    {
        self.byte_map = no_bytes();
        let n: usize = self.alphabet.len();
        self.has_byte_map = n == 0 || self.alphabet[n - 1] < 256;
        if !self.has_byte_map {
            proof {
                assert(self.alphabet@[n - 1] >= 256);
            }
            return ;
        }
        proof {
            if n > 256 {
                lemma_increasing_gap(self.alphabet@, n - 1);
            }
            assert forall|c: u32| c < 256 implies #[trigger] self.byte_map@[c as int] == (
            if self.alphabet@.contains(c) && self.alphabet@.index_of(c) < 0 {
                self.alphabet@.index_of(c)
            } else {
                -1
            }) by {
                if self.alphabet@.contains(c) {
                    let k = self.alphabet@.index_of(c);
                    assert(0 <= k < self.alphabet@.len() && self.alphabet@[k] == c);
                }
            }
        }
        let mut i: usize = 0;
        while i < n
            invariant
                i <= n == self.alphabet@.len(),
                n <= 256,
                is_increasing(self.alphabet@),
                self.alphabet == old(self).alphabet,
                self.unigram == old(self).unigram,
                self.alpha_n == old(self).alpha_n,
                self.total_uni == old(self).total_uni,
                self.tallies == old(self).tallies,
                self.has_byte_map,
                self.byte_map@.len() == 256,
                n > 0 ==> self.alphabet@[n - 1] < 256,
                forall|c: u32|
                    c < 256 ==> #[trigger] self.byte_map@[c as int] == (if self.alphabet@.contains(
                        c,
                    ) && self.alphabet@.index_of(c) < i {
                        self.alphabet@.index_of(c)
                    } else {
                        -1
                    }),
            decreases n - i,
        {
            let c: u32 = self.alphabet[i];
            let ghost before = self.byte_map@;
            proof {
                if i < n - 1 {
                    assert(self.alphabet@[i as int] < self.alphabet@[n - 1]);
                }
                lemma_symbol_at(self.alphabet@, i as int);
            }
            self.byte_map.set(c as usize, i as i16);
            i += 1;
            proof {
                assert forall|d: u32| d < 256 implies #[trigger] self.byte_map@[d as int] == (
                if self.alphabet@.contains(d) && self.alphabet@.index_of(d) < i {
                    self.alphabet@.index_of(d)
                } else {
                    -1
                }) by {
                    assert(d != c ==> self.byte_map@[d as int] == before[d as int]);
                    if self.alphabet@.contains(d) {
                        let k = self.alphabet@.index_of(d);
                        assert(0 <= k < self.alphabet@.len() && self.alphabet@[k] == d);
                    } else {
                        assert(d != c);
                    }
                }
            }
        }
        proof {
            assert forall|j: int| 0 <= j < self.alphabet@.len() implies #[trigger] self.alphabet@[j]
                < 256 by {
                if j < n - 1 {
                    assert(self.alphabet@[j] < self.alphabet@[n - 1]);
                }
            }
            assert forall|c: u32| c < 256 implies #[trigger] self.byte_map@[c as int]
                == symbol_index(self.alphabet@, c) by {
                if self.alphabet@.contains(c) {
                    let k = self.alphabet@.index_of(c);
                    assert(0 <= k < self.alphabet@.len() && self.alphabet@[k] == c);
                }
            }
        }
    }

    /// Takes the alphabet and the symbol counts from `text`.
    pub fn build_alphabet(&mut self, text: &Vec<u32>)
        requires
            text@.len() < i32::MAX,
        ensures
            final(self).alphabet_wf(),
            is_alphabet(final(self).alphabet@, text@),
            is_unigram(final(self).unigram@, final(self).alphabet@, text@),
            final(self).total_uni == (if text@.len() == 0 {
                1
            } else {
                text@.len()
            }),
            final(self).has_byte_map == (forall|i: int|
                0 <= i < text@.len() ==> #[trigger] text@[i] < 256),
            final(self).tallies == old(self).tallies,
    {
        let n: usize = text.len();
        let mut alphabet: Vec<u32> = Vec::new();
        let mut unigram: Vec<u64> = Vec::new();
        if n == 0 {
            alphabet.push(10);
            unigram.push(1);
            proof {
                assert(alphabet@ =~= seq![10u32]);
                assert(unigram@ =~= seq![1u64]);
            }
        }
        let mut i: usize = 0;
        while i < n
            invariant
                i <= n == text@.len(),
                n < i32::MAX,
                n == 0 ==> alphabet@ == seq![10u32] && unigram@ == seq![1u64],
                n > 0 ==> alphabet@.len() <= i,
                alphabet@.len() <= n + 1,
                is_increasing(alphabet@),
                unigram@.len() == alphabet@.len(),
                n > 0 ==> forall|ch: u32| #[trigger]
                    alphabet@.contains(ch) <==> text@.take(i as int).contains(ch),
                n > 0 ==> forall|k: int|
                    0 <= k < unigram@.len() ==> #[trigger] unigram@[k] == times(
                        text@.take(i as int),
                        alphabet@[k],
                    ),
            decreases n - i,
        {
            let ch: u32 = text[i];
            let at: usize = lower_bound(&alphabet, ch);
            let ghost seen = text@.take(i as int);
            let ghost now = text@.take(i + 1);
            let ghost a0 = alphabet@;
            let ghost u0 = unigram@;
            proof {
                assert(now.drop_last() =~= seen);
                assert(now.last() == ch);
                assert forall|c: u32| now.contains(c) <==> seen.contains(c) || c == ch by {
                    lemma_times_bound(now, c);
                    lemma_times_bound(seen, c);
                }
            }
            if at < alphabet.len() && alphabet[at] == ch {
                let cnt: u64 = unigram[at];
                proof {
                    lemma_times_bound(seen, ch);
                    assert(a0[at as int] == ch);
                    assert(u0[at as int] == times(seen, a0[at as int]));
                }
                unigram.set(at, cnt + 1);
                proof {
                    assert(a0.contains(ch));
                    assert forall|k: int| 0 <= k < unigram@.len() implies #[trigger] unigram@[k]
                        == times(now, alphabet@[k]) by {
                        assert(u0[k] == times(seen, a0[k]));
                        if k < at {
                            assert(a0[k] < a0[at as int]);
                        } else if k > at {
                            assert(a0[at as int] < a0[k]);
                        }
                    }
                }
            } else {
                alphabet.insert(at, ch);
                unigram.insert(at, 1);
                proof {
                    assert(!a0.contains(ch)) by {
                        if a0.contains(ch) {
                            let k = choose|k: int| 0 <= k < a0.len() && a0[k] == ch;
                            if k > at {
                                assert(a0[at as int] < a0[k]);
                                assert(a0[at as int] >= ch);
                            }
                        }
                    }
                    lemma_times_bound(seen, ch);
                    assert forall|c: u32| #[trigger] alphabet@.contains(c) <==> now.contains(c) by {
                        if a0.contains(c) {
                            let k = choose|k: int| 0 <= k < a0.len() && a0[k] == c;
                            let k2 = if k < at {
                                k
                            } else {
                                k + 1
                            };
                            assert(alphabet@[k2] == c);
                        }
                        assert(alphabet@[at as int] == ch);
                        if alphabet@.contains(c) && c != ch {
                            let k = choose|k: int| 0 <= k < alphabet@.len() && alphabet@[k] == c;
                            let k0 = if k < at {
                                k
                            } else {
                                k - 1
                            };
                            assert(a0[k0] == c);
                        }
                        assert(a0.contains(c) <==> seen.contains(c));
                    }
                    assert forall|k: int| 0 <= k < unigram@.len() implies #[trigger] unigram@[k]
                        == times(now, alphabet@[k]) by {
                        if k != at {
                            let k0 = if k < at {
                                k
                            } else {
                                k - 1
                            };
                            assert(u0[k0] == times(seen, a0[k0]));
                            assert(a0[k0] != ch) by {
                                assert(a0.contains(a0[k0]));
                            }
                        }
                    }
                    assert forall|j: int, k: int| 0 <= j < k < alphabet@.len() implies #[trigger] alphabet@[j]
                        < #[trigger] alphabet@[k] by {
                        let j0 = if j < at {
                            j
                        } else {
                            j - 1
                        };
                        let k0 = if k < at {
                            k
                        } else {
                            k - 1
                        };
                        if j != at && k != at {
                            assert(a0[j0] < a0[k0]);
                        } else if j == at {
                            assert(a0[k0] >= ch);
                            assert(a0.contains(a0[k0]));
                        } else {
                            assert(a0[j0] < ch);
                        }
                    }
                }
            }
            i += 1;
        }
        proof {
            assert(text@.take(n as int) =~= text@);
        }
        self.alpha_n = alphabet.len() as u32;
        self.total_uni = if n == 0 {
            1
        } else {
            n as u64
        };
        self.alphabet = alphabet;
        self.unigram = unigram;
        self.index_bytes();
        proof {
            let ab = self.alphabet@;
            if self.has_byte_map {
                assert forall|k: int| 0 <= k < text@.len() implies #[trigger] text@[k] < 256 by {
                    assert(text@.contains(text@[k]));
                    assert(ab.contains(text@[k]));
                    let j = choose|j: int| 0 <= j < ab.len() && ab[j] == text@[k];
                    assert(ab[j] < 256);
                }
            } else {
                let j = choose|j: int| 0 <= j < ab.len() && ab[j] >= 256;
                assert(ab.contains(ab[j]));
                if n > 0 {
                    assert(text@.contains(ab[j]));
                }
            }
        }
    }

    /// Position of `ch` in the alphabet; -1 if it is not there.
    pub fn find_sym(&self, ch: u32) -> (si: i32)
        requires
            self.alphabet_wf(),
        ensures
            si == symbol_index(self.alphabet@, ch),
            -1 <= si < self.alphabet@.len(),
    {
        if self.has_byte_map && ch < 256 {
            let si: i16 = self.byte_map[ch as usize];
            proof {
                assert(self.byte_map@[ch as int] == symbol_index(self.alphabet@, ch));
                if self.alphabet@.contains(ch) {
                    let k = self.alphabet@.index_of(ch);
                    assert(0 <= k < self.alphabet@.len() && self.alphabet@[k] == ch);
                }
            }
            return si as i32;
        }
        let at: usize = lower_bound(&self.alphabet, ch);
        if at < self.alphabet.len() && self.alphabet[at] == ch {
            proof {
                lemma_symbol_at(self.alphabet@, at as int);
            }
            at as i32
        } else {
            proof {
                if self.alphabet@.contains(ch) {
                    let k = self.alphabet@.index_of(ch);
                    assert(0 <= k < self.alphabet@.len() && self.alphabet@[k] == ch);
                    if k > at {
                        assert(self.alphabet@[at as int] < self.alphabet@[k]);
                        assert(self.alphabet@[at as int] >= ch);
                    }
                }
            }
            -1
        }
    }
}

/// Increasing numbers are at least as large as their positions.
pub proof fn lemma_increasing_gap(s: Seq<u32>, i: int)
    requires
        is_increasing(s),
        0 <= i < s.len(),
    ensures
        s[i] >= i,
    decreases i,
{
    if i > 0 {
        lemma_increasing_gap(s, i - 1);
        assert(s[i - 1] < s[i]);
    }
}

/// A byte index without entries.
fn no_bytes() -> (map: Vec<i16>)
    ensures
        map@.len() == 256,
        forall|c: int| 0 <= c < 256 ==> #[trigger] map@[c] == -1,
{
    let mut map: Vec<i16> = Vec::new();
    while map.len() < 256
        invariant
            map@.len() <= 256,
            forall|c: int| 0 <= c < map@.len() ==> #[trigger] map@[c] == -1,
        decreases 256 - map@.len(),
    {
        map.push(-1);
    }
    map
}

} // verus!
