//! Bytes whose first bits are known, the most significant bit first.

use vstd::prelude::*;
use crate::api::bits;

use crate::api::bits::BitOrder;

verus! {

/// Number of bytes.
pub const BYTE_SYMBOLS: usize = 256;

/// How many bytes begin with `n` given bits.
pub open spec fn bytes_left(n: int) -> int {
    if n <= 0 {
        256
    } else if n == 1 {
        128
    } else if n == 2 {
        64
    } else if n == 3 {
        32
    } else if n == 4 {
        16
    } else if n == 5 {
        8
    } else if n == 6 {
        4
    } else if n == 7 {
        2
    } else {
        1
    }
}

/// The first byte that begins with the bits.
pub open spec fn first_byte(seen: Seq<bool>) -> int
    decreases seen.len(),
{
    if seen.len() == 0 {
        0
    } else if seen.last() {
        first_byte(seen.drop_last()) + bytes_left(seen.len() as int)
    } else {
        first_byte(seen.drop_last())
    }
}

/// A one followed by the bits, as a number.
pub open spec fn code_of(seen: Seq<bool>) -> int
    decreases seen.len(),
{
    if seen.len() == 0 {
        1
    } else {
        2 * code_of(seen.drop_last()) + if seen.last() {
            1int
        } else {
            0int
        }
    }
}

proof fn lemma_shift_place(n: int)
    requires
        0 <= n < 8,
    ensures
        (1u8 << ((7 - n) as u8)) == bytes_left(n + 1),
{
    assert(1u8 << 7u8 == 128 && 1u8 << 6u8 == 64 && 1u8 << 5u8 == 32 && 1u8 << 4u8 == 16 && 1u8
        << 3u8 == 8 && 1u8 << 2u8 == 4 && 1u8 << 1u8 == 2 && 1u8 << 0u8 == 1) by (bit_vector);
}

/// The byte that holds the bits and nothing else is the first that begins with them.
pub proof fn lemma_first_byte(seen: Seq<bool>)
    requires
        seen.len() <= 8,
    ensures
        first_byte(seen) == bits::byte_of(BitOrder::MsbFirst, seen),
        0 <= first_byte(seen) <= 256 - bytes_left(seen.len() as int),
    decreases seen.len(),
{
    if seen.len() > 0 {
        let rest = seen.drop_last();
        let n = rest.len() as int;
        lemma_first_byte(rest);
        bits::lemma_byte_holds(BitOrder::MsbFirst, rest);
        lemma_shift_place(n);
        let b = bits::byte_of(BitOrder::MsbFirst, rest);
        let t = (7 - n) as u8;
        assert(!bits::bit_at(b, BitOrder::MsbFirst, n));
        assert(bits::shift_of(BitOrder::MsbFirst, n) == t);
        assert(b & (1u8 << t) == 0);
        let w = 1u8 << t;
        assert(b & w == 0 ==> (b | w) == b + w) by (bit_vector);
    }
}

/// The number of a one followed by the bits leads to the byte that holds them.
pub proof fn lemma_code(seen: Seq<bool>)
    requires
        seen.len() <= 8,
    ensures
        code_of(seen) * bytes_left(seen.len() as int) == 256 + first_byte(seen),
        1 <= code_of(seen) < 512,
    decreases seen.len(),
{
    if seen.len() > 0 {
        let rest = seen.drop_last();
        lemma_code(rest);
        lemma_first_byte(seen);
        let n = rest.len() as int;
        let c = code_of(rest);
        assert(bytes_left(n) == 2 * bytes_left(n + 1));
        let w = bytes_left(n + 1);
        let d: int = if seen.last() {
            1
        } else {
            0
        };
        assert((2 * c + d) * w == c * (2 * w) + d * w) by (nonlinear_arith);
        assert(d * w == if seen.last() {
            w
        } else {
            0
        }) by (nonlinear_arith)
            requires
                d == if seen.last() {
                    1int
                } else {
                    0int
                },
        ;
        let k = 2 * c + d;
        assert(k * w == 256 + first_byte(seen));
        assert(k < 512) by (nonlinear_arith)
            requires
                k * w < 512,
                w >= 1,
        ;
        assert(k >= 1);
    }
}

/// Eight bits behind a one are their byte behind 256.
pub proof fn law_code_of_byte(seen: Seq<bool>)
    requires
        seen.len() == 8,
    ensures
        code_of(seen) == 256 + bits::byte_of(BitOrder::MsbFirst, seen),
{
    lemma_code(seen);
    lemma_first_byte(seen);
}

/// The bytes that begin with the bits seen so far.
#[derive(Clone, Copy, Debug, PartialEq, Eq, Structural)]
pub struct MsbPrefixRange {
    pub lo: usize,
    pub hi: usize,
}

/// The bytes that begin with the bits.
pub open spec fn byte_range(seen: Seq<bool>) -> MsbPrefixRange {
    MsbPrefixRange {
        lo: first_byte(seen) as usize,
        hi: (first_byte(seen) + bytes_left(seen.len() as int)) as usize,
    }
}

/// A byte is in the range exactly where it begins with the bits.
pub proof fn law_range_holds_prefix(seen: Seq<bool>, b: u8)
    requires
        seen.len() <= 8,
    ensures
        (byte_range(seen).lo <= b < byte_range(seen).hi) <==> bits::first_bits(
            b,
            BitOrder::MsbFirst,
            seen.len(),
        ) == seen,
    decreases seen.len(),
{
    lemma_first_byte(seen);
    if seen.len() == 0 {
        assert(bits::first_bits(b, BitOrder::MsbFirst, 0) =~= seen);
    } else {
        let rest = seen.drop_last();
        let n = rest.len() as int;
        lemma_first_byte(rest);
        law_range_holds_prefix(rest, b);
        lemma_shift_place(n);
        let all = bits::first_bits(b, BitOrder::MsbFirst, seen.len());
        assert(all.drop_last() =~= bits::first_bits(b, BitOrder::MsbFirst, rest.len()));
        if all == seen {
            assert(all.drop_last() =~= rest);
        }
        assert(all.last() == bits::bit_at(b, BitOrder::MsbFirst, n));
        if all.drop_last() == rest {
            lemma_tail_bit(b, rest);
            if all.last() == seen.last() {
                assert(all =~= all.drop_last().push(all.last()));
                assert(seen =~= rest.push(seen.last()));
            }
        }
    }
}

/// The next bit of a byte tells in which half of the range it is.
proof fn lemma_tail_bit(b: u8, rest: Seq<bool>)
    requires
        rest.len() < 8,
        bits::first_bits(b, BitOrder::MsbFirst, rest.len()) == rest,
        first_byte(rest) <= b < first_byte(rest) + bytes_left(rest.len() as int),
    ensures
        bits::bit_at(b, BitOrder::MsbFirst, rest.len() as int) == (b >= first_byte(rest) + bytes_left(
            (rest.len() + 1) as int,
        )),
{
    let n = rest.len() as int;
    lemma_code(rest);
    lemma_shift_place(n);
    let w = bytes_left(n + 1);
    let c = code_of(rest);
    let lo = first_byte(rest);
    // The range begins at a multiple of its length.
    assert(c * (2 * w) == 256 + lo);
    let t = (7 - n) as u8;
    let u = 1u8 << t;
    assert(u == w);
    let r = b - lo;
    assert(256 + b == c * (2 * w) + r);
    vstd::arithmetic::div_mod::lemma_fundamental_div_mod_converse(256 + b, 2 * w, c, r);
    assert((256 + b) % (2 * w) == r);
    assert(256int % 256 == 0 && 256int % 128 == 0 && 256int % 64 == 0 && 256int % 32 == 0 && 256int
        % 16 == 0 && 256int % 8 == 0 && 256int % 4 == 0 && 256int % 2 == 0);
    assert(256int % (2 * w) == 0);
    vstd::arithmetic::div_mod::lemma_mod_adds(256, b as int, 2 * w);
    assert(b as int % (2 * w) == r) by {
        vstd::arithmetic::div_mod::lemma_add_mod_noop(256, b as int, 2 * w);
        vstd::arithmetic::div_mod::lemma_mod_twice(b as int, 2 * w);
    }
    lemma_bit_by_mod(b, n);
}

proof fn lemma_bit_by_mod(b: u8, n: int)
    requires
        0 <= n < 8,
    ensures
        bits::bit_at(b, BitOrder::MsbFirst, n) == (b as int % (2 * bytes_left(n + 1)) >= bytes_left(
            n + 1,
        )),
{
    assert((b & (1u8 << 7u8) != 0) == (b as u16 % 256 >= 128) && (b & (1u8 << 6u8) != 0) == (b as u16
        % 128 >= 64) && (b & (1u8 << 5u8) != 0) == (b as u16 % 64 >= 32) && (b & (1u8 << 4u8) != 0)
        == (b as u16 % 32 >= 16) && (b & (1u8 << 3u8) != 0) == (b as u16 % 16 >= 8) && (b & (1u8
        << 2u8) != 0) == (b as u16 % 8 >= 4) && (b & (1u8 << 1u8) != 0) == (b as u16 % 4 >= 2) && (b
        & (1u8 << 0u8) != 0) == (b as u16 % 2 >= 1)) by (bit_vector);
}

impl MsbPrefixRange {
    /// All bytes.
    pub fn full() -> (range: Self)
        ensures
            range == byte_range(Seq::empty()),
    {
        MsbPrefixRange { lo: 0, hi: BYTE_SYMBOLS }
    }

    /// First byte of the half whose next bit is set.
    pub fn mid(self) -> (mid: usize)
        requires
            self.lo <= self.hi <= BYTE_SYMBOLS,
        ensures
            mid == (self.lo + self.hi) / 2,
    {
        (self.lo + self.hi) / 2
    }

    /// The half that the next bit leads to.
    pub fn observed(self, bit: bool) -> (next: Self)
        requires
            self.lo <= self.hi <= BYTE_SYMBOLS,
        ensures
            next == (if bit {
                MsbPrefixRange { lo: ((self.lo + self.hi) / 2) as usize, hi: self.hi }
            } else {
                MsbPrefixRange { lo: self.lo, hi: ((self.lo + self.hi) / 2) as usize }
            }),
            forall|seen: Seq<bool>|
                seen.len() < 8 && self == #[trigger] byte_range(seen) ==> next == byte_range(
                    seen.push(bit),
                ),
    {
        let mid: usize = self.mid();
        let next = if bit {
            MsbPrefixRange { lo: mid, hi: self.hi }
        } else {
            MsbPrefixRange { lo: self.lo, hi: mid }
        };
        proof {
            assert forall|seen: Seq<bool>|
                seen.len() < 8 && self == #[trigger] byte_range(seen) implies next == byte_range(
                seen.push(bit),
            ) by {
                lemma_first_byte(seen);
                assert(seen.push(bit).drop_last() =~= seen);
            }
        }
        next
    }

    /// Goes on to the half that the next bit leads to.
    pub fn observe(&mut self, bit: bool)
        requires
            old(self).lo <= old(self).hi <= BYTE_SYMBOLS,
        ensures
            *final(self) == (if bit {
                MsbPrefixRange { lo: ((old(self).lo + old(self).hi) / 2) as usize, hi: old(self).hi }
            } else {
                MsbPrefixRange { lo: old(self).lo, hi: ((old(self).lo + old(self).hi) / 2) as usize }
            }),
            forall|seen: Seq<bool>|
                seen.len() < 8 && *old(self) == #[trigger] byte_range(seen) ==> *final(self)
                    == byte_range(seen.push(bit)),
    {
        *self = self.observed(bit);
    }
}

/// A one followed by bits, with one more bit.
pub fn advanced_prefix_code(prefix: u16, bit: bool) -> (next: u16)
    requires
        prefix < 0x8000,
    ensures
        next == 2 * prefix + if bit {
            1int
        } else {
            0int
        },
{
    if bit {
        2 * prefix + 1
    } else {
        2 * prefix
    }
}

} // verus!
