//! How much memory a predictor's buffers take.

use vstd::prelude::*;

use crate::backends::rosaplus::model::RosaPlus;
use crate::backends::rosaplus::sam::{Sam, SamEdge, SamState};
use crate::backends::rosaplus::tallies::LmState;

verus! {

/// At most the largest size there is.
pub open spec fn capped_size(n: int) -> int {
    if n > usize::MAX {
        usize::MAX as int
    } else {
        n
    }
}

/// Bytes of the automaton's buffers.
pub open spec fn sam_bytes(sam: Sam) -> nat {
    sam.st@.len() * vstd::layout::size_of::<SamState>() + sam.ed@.len() * vstd::layout::size_of::<
        SamEdge,
    >() + sam.text@.len() * 4 + sam.text_states@.len() * 4 + sam.root_to@.len() * 4
        + sam.boundary_after@.len()
}

/// Bytes of all buffers. A count node takes nine bytes, a symbol that spilled eight more and a
/// count that spilled twelve more.
pub open spec fn buffer_bytes(m: RosaPlus) -> nat {
    let nodes = m.lm.tallies.nodes;
    sam_bytes(m.sam) + m.lm.alphabet@.len() * 4 + m.lm.unigram@.len() * 8 + m.lm.tallies.ls@.len()
        * vstd::layout::size_of::<LmState>() + nodes@.len() * 9 + nodes.spilled_symbols() * 8
        + nodes.spilled_counts() * 12 + m.rng@.buf.len()
}

/// `n` bytes and a buffer more.
fn with_buffer(n: usize, len: usize, each: usize, Ghost(before): Ghost<nat>) -> (sum: usize)
    requires
        n == capped_size(before as int),
    ensures
        sum == capped_size(before + len * each),
{
    proof {
        assert(len * each >= 0) by (nonlinear_arith);
    }
    match len.checked_mul(each) {
        Some(size) => n.saturating_add(size),
        None => usize::MAX,
    }
}

impl RosaPlus {
    /// Approximate in-memory footprint of major model buffers.
    pub fn estimated_size_bytes(&self) -> (n: usize)
        ensures
            n == capped_size(buffer_bytes(*self) as int),
    {
        let state: usize = core::mem::size_of::<SamState>();
        let edge: usize = core::mem::size_of::<SamEdge>();
        let tally: usize = core::mem::size_of::<LmState>();
        let (nodes, symbols, counts): (usize, usize, usize) = self.lm.tallies.nodes.sizes();
        let ghost a1 = (self.sam.st@.len() * state) as nat;
        let ghost a2 = (a1 + self.sam.ed@.len() * edge) as nat;
        proof {
            assert(self.sam.st@.len() * state >= 0) by (nonlinear_arith);
            assert(self.sam.ed@.len() * edge >= 0) by (nonlinear_arith);
            assert(self.lm.tallies.ls@.len() * tally >= 0) by (nonlinear_arith);
        }
        let mut n: usize = with_buffer(0, self.sam.st.len(), state, Ghost(0));
        n = with_buffer(n, self.sam.ed.len(), edge, Ghost(a1));
        let ghost a3 = a2 + self.sam.text@.len() * 4;
        let ghost a4 = a3 + self.sam.text_states@.len() * 4;
        let ghost a5 = a4 + self.sam.root_to@.len() * 4;
        let ghost a6 = a5 + self.sam.boundary_after@.len();
        n = with_buffer(n, self.sam.text.len(), 4, Ghost(a2));
        n = with_buffer(n, self.sam.text_states.len(), 4, Ghost(a3));
        n = with_buffer(n, self.sam.root_to.len(), 4, Ghost(a4));
        n = with_buffer(n, self.sam.boundary_after.len(), 1, Ghost(a5));
        let ghost b1 = a6 + self.lm.alphabet@.len() * 4;
        let ghost b2 = b1 + self.lm.unigram@.len() * 8;
        let ghost b3 = (b2 + self.lm.tallies.ls@.len() * tally) as nat;
        n = with_buffer(n, self.lm.alphabet.len(), 4, Ghost(a6));
        n = with_buffer(n, self.lm.unigram.len(), 8, Ghost(b1));
        n = with_buffer(n, self.lm.tallies.ls.len(), tally, Ghost(b2));
        let ghost b4 = b3 + self.lm.tallies.nodes@.len() * 9;
        let ghost b5 = b4 + self.lm.tallies.nodes.spilled_symbols() * 8;
        let ghost b6 = b5 + self.lm.tallies.nodes.spilled_counts() * 12;
        n = with_buffer(n, nodes, 9, Ghost(b3));
        n = with_buffer(n, symbols, 8, Ghost(b4));
        n = with_buffer(n, counts, 12, Ghost(b5));
        with_buffer(n, self.rng.buffered(), 1, Ghost(b6))
    }
}

} // verus!
