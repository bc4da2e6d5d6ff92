//! Deterministic random numbers for sampling.

use vstd::bytes::u64_from_le_bytes;
use vstd::prelude::*;

verus! {

/// Where the generator starts.
pub const ROSA_RNG_START: u64 = 88172645463325252;

/// Numbers from a recorded byte buffer, read round and round, or from a shift-register
/// generator where there is no such buffer.
#[derive(Debug)]
pub struct RngStream {
    buf: Vec<u8>,
    pos: usize,
    xs: u64,
}

/// State of an [`RngStream`].
#[verifier::ext_equal]
pub struct RngModel {
    pub buf: Seq<u8>,
    pub pos: int,
    pub xs: u64,
}

/// Next state of the shift register.
pub open spec fn shifted(xs: u64) -> u64 {
    let a = xs ^ (xs << 7);
    a ^ (a >> 9)
}

/// Eight bytes from position `pos` of `buf`, going on at the start behind its end.
pub open spec fn eight_from(buf: Seq<u8>, pos: int) -> Seq<u8> {
    Seq::new(8, |i: int| buf[(pos + i) % buf.len() as int])
}

impl View for RngStream {
    type V = RngModel;

    closed spec fn view(&self) -> RngModel {
        RngModel { buf: self.buf@, pos: self.pos as int, xs: self.xs }
    }
}

impl Clone for RngStream {
    fn clone(&self) -> (copy: RngStream)
        ensures
            copy@ == self@,
    {
        let copy = RngStream { buf: self.buf.clone(), pos: self.pos, xs: self.xs };
        proof {
            assert(copy.buf@ =~= self.buf@);
        }
        copy
    }
}

impl RngStream {
    /// How many bytes the numbers are read from.
    pub fn buffered(&self) -> (n: usize)
        ensures
            n == self@.buf.len(),
    {
        self.buf.len()
    }

    /// The reading position lies in the buffer.
    pub open spec fn wf(&self) -> bool {
        self@.buf.len() >= 8 ==> 0 <= self@.pos < self@.buf.len()
    }

    /// The shift-register generator.
    pub fn new() -> (rng: RngStream)
        ensures
            rng.wf(),
            rng@ == (RngModel { buf: Seq::empty(), pos: 0, xs: ROSA_RNG_START }),
    {
        RngStream { buf: Vec::new(), pos: 0, xs: ROSA_RNG_START }
    }

    /// Numbers from `bytes`, from the position that `seed` picks; the shift-register generator
    /// where there are fewer than eight bytes.
    pub fn with_bytes(seed: u64, bytes: Vec<u8>) -> (rng: RngStream)
        ensures
            rng.wf(),
            rng@ == (if bytes@.len() >= 8 {
                RngModel {
                    buf: bytes@,
                    pos: (seed.wrapping_mul(8) as usize) as int % bytes@.len() as int,
                    xs: ROSA_RNG_START,
                }
            } else {
                RngModel { buf: Seq::empty(), pos: 0, xs: ROSA_RNG_START }
            }),
    {
        let n: usize = bytes.len();
        if n < 8 {
            return RngStream::new();
        }
        let pos: usize = (seed.wrapping_mul(8) as usize) % n;
        RngStream { buf: bytes, pos, xs: ROSA_RNG_START }
    }

    /// Next number.
    pub fn next_u64(&mut self) -> (x: u64)
        requires
            old(self).wf(),
        ensures
            final(self).wf(),
            ({
                let m = old(self)@;
                if m.buf.len() < 8 {
                    &&& x == shifted(m.xs)
                    &&& final(self)@ == (RngModel { xs: shifted(m.xs), ..m })
                } else {
                    &&& x == vstd::bytes::spec_u64_from_le_bytes(eight_from(m.buf, m.pos))
                    &&& final(self)@ == (RngModel {
                        pos: (m.pos + 8) % m.buf.len() as int,
                        ..m
                    })
                }
            }),
    {
        let n: usize = self.buf.len();
        if n < 8 {
            let a: u64 = self.xs ^ (self.xs << 7);
            self.xs = a ^ (a >> 9);
            return self.xs;
        }
        let ghost m = self@;
        let mut b: Vec<u8> = Vec::new();
        proof {
            vstd::arithmetic::div_mod::lemma_small_mod(m.pos as nat, n as nat);
        }
        while b.len() < 8
            invariant
                b@.len() <= 8,
                n == self.buf@.len(),
                n >= 8,
                self.pos < n,
                self.buf@ == m.buf,
                self.xs == m.xs,
                0 <= m.pos < n,
                self.pos == (m.pos + b@.len()) % n as int,
                forall|i: int| 0 <= i < b@.len() ==> #[trigger] b@[i] == m.buf[(m.pos + i) % n as int],
            decreases 8 - b@.len(),
        {
            let ghost k = b@.len() as int;
            b.push(self.buf[self.pos]);
            proof {
                vstd::arithmetic::div_mod::lemma_add_mod_noop(m.pos + k, 1, n as int);
                if self.pos + 1 == n {
                    vstd::arithmetic::div_mod::lemma_mod_self_0(n as int);
                } else {
                    vstd::arithmetic::div_mod::lemma_small_mod((self.pos + 1) as nat, n as nat);
                }
                vstd::arithmetic::div_mod::lemma_small_mod(1, n as nat);
            }
            self.pos = self.pos + 1;
            if self.pos >= n {
                self.pos = 0;
            }
        }
        proof {
            assert(b@ =~= eight_from(m.buf, m.pos));
        }
        u64_from_le_bytes(b.as_slice())
    }
}

} // verus!
