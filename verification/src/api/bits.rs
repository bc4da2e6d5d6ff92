//! Bits of a byte, and streams of bits.

use vstd::prelude::*;
use crate::text;

use crate::text::{decimal_of, push_chars, push_text, string_of};

verus! {

/// Which bit of a byte comes first.
#[derive(Clone, Copy, Debug, PartialEq, Eq, Structural)]
pub enum BitOrder {
    /// The most significant one.
    MsbFirst,
    /// The least significant one.
    LsbFirst,
}

/// What the bits of a stream stand for.
#[derive(Clone, Copy, Debug, PartialEq, Eq, Structural)]
pub enum BitStreamSemantics {
    /// Eight bits are a byte.
    BytePacked {
        /// Which bit of a byte comes first.
        order: BitOrder,
    },
    /// Each bit is a symbol.
    BinaryTokens,
}

/// Where bit number `at` stands in a byte.
pub open spec fn shift_of(order: BitOrder, at: int) -> u8 {
    match order {
        BitOrder::MsbFirst => (7 - at) as u8,
        BitOrder::LsbFirst => at as u8,
    }
}

/// Bit number `at` of a byte.
pub open spec fn bit_at(symbol: u8, order: BitOrder, at: int) -> bool {
    symbol & (1u8 << shift_of(order, at)) != 0
}

/// Byte whose first bits are `seen`; the other bits are zero.
pub open spec fn byte_of(order: BitOrder, seen: Seq<bool>) -> u8
    decreases seen.len(),
{
    if seen.len() == 0 {
        0
    } else if seen.last() {
        byte_of(order, seen.drop_last()) | (1u8 << shift_of(order, seen.len() - 1))
    } else {
        byte_of(order, seen.drop_last())
    }
}

/// First bits of a byte.
pub open spec fn first_bits(symbol: u8, order: BitOrder, n: nat) -> Seq<bool> {
    Seq::new(n, |i: int| bit_at(symbol, order, i))
}

/// A byte made of bits holds them, and nothing else.
pub proof fn lemma_byte_holds(order: BitOrder, seen: Seq<bool>)
    requires
        seen.len() <= 8,
    ensures
        forall|i: int|
            0 <= i < 8 ==> #[trigger] bit_at(byte_of(order, seen), order, i) == (i < seen.len()
                && seen[i]),
    decreases seen.len(),
{
    if seen.len() == 0 {
        assert forall|i: int| 0 <= i < 8 implies !(#[trigger] bit_at(0u8, order, i)) by {
            let s = shift_of(order, i);
            assert(0u8 & (1u8 << s) == 0) by (bit_vector);
        }
    } else {
        let rest = seen.drop_last();
        lemma_byte_holds(order, rest);
        let n = seen.len() - 1;
        let b = byte_of(order, rest);
        let t = shift_of(order, n);
        assert forall|i: int| 0 <= i < 8 implies #[trigger] bit_at(byte_of(order, seen), order, i)
            == (i < seen.len() && seen[i]) by {
            let s = shift_of(order, i);
            assert(bit_at(b, order, i) == (i < rest.len() && rest[i]));
            assert(0 <= s < 8 && 0 <= t < 8);
            assert(i != n ==> s != t);
            assert(s < 8 && t < 8 ==> (b | (1u8 << t)) & (1u8 << s) != 0 == (s == t || b & (1u8
                << s) != 0)) by (bit_vector);
            if i < n {
                assert(rest[i] == seen[i]);
            }
        }
    }
}

/// The first bits of a byte made of bits are those bits.
pub proof fn lemma_first_bits(order: BitOrder, seen: Seq<bool>)
    requires
        seen.len() <= 8,
    ensures
        first_bits(byte_of(order, seen), order, seen.len()) == seen,
{
    lemma_byte_holds(order, seen);
    assert(first_bits(byte_of(order, seen), order, seen.len()) =~= seen);
}

/// Two bytes with the same eight bits are the same.
pub proof fn law_bits_determine_byte(a: u8, b: u8, order: BitOrder)
    requires
        first_bits(a, order, 8) == first_bits(b, order, 8),
    ensures
        a == b,
{
    assert forall|i: int| 0 <= i < 8 implies bit_at(a, order, i) == #[trigger] bit_at(
        b,
        order,
        i,
    ) by {
        let sa = first_bits(a, order, 8);
        let sb = first_bits(b, order, 8);
        assert(sa[i] == bit_at(a, order, i));
        assert(sb[i] == bit_at(b, order, i));
    }
    assert(bit_at(a, order, 0) == bit_at(b, order, 0));
    assert(bit_at(a, order, 1) == bit_at(b, order, 1));
    assert(bit_at(a, order, 2) == bit_at(b, order, 2));
    assert(bit_at(a, order, 3) == bit_at(b, order, 3));
    assert(bit_at(a, order, 4) == bit_at(b, order, 4));
    assert(bit_at(a, order, 5) == bit_at(b, order, 5));
    assert(bit_at(a, order, 6) == bit_at(b, order, 6));
    assert(bit_at(a, order, 7) == bit_at(b, order, 7));
    assert((a & (1u8 << 0u8) != 0) == (b & (1u8 << 0u8) != 0) && (a & (1u8 << 1u8) != 0) == (b & (
    1u8 << 1u8) != 0) && (a & (1u8 << 2u8) != 0) == (b & (1u8 << 2u8) != 0) && (a & (1u8 << 3u8)
        != 0) == (b & (1u8 << 3u8) != 0) && (a & (1u8 << 4u8) != 0) == (b & (1u8 << 4u8) != 0)
        && (a & (1u8 << 5u8) != 0) == (b & (1u8 << 5u8) != 0) && (a & (1u8 << 6u8) != 0) == (b & (
    1u8 << 6u8) != 0) && (a & (1u8 << 7u8) != 0) == (b & (1u8 << 7u8) != 0) ==> a == b)
        by (bit_vector);
}

/// A byte is the one that its eight bits make.
pub proof fn law_byte_of_its_bits(symbol: u8, order: BitOrder)
    ensures
        byte_of(order, first_bits(symbol, order, 8)) == symbol,
{
    let seen = first_bits(symbol, order, 8);
    lemma_first_bits(order, seen);
    law_bits_determine_byte(byte_of(order, seen), symbol, order);
}

fn place(order: BitOrder, at: usize) -> (shift: u8)
    requires
        at < 8,
    ensures
        shift == shift_of(order, at as int),
        shift < 8,
{
    match order {
        BitOrder::MsbFirst => 7 - at as u8,
        BitOrder::LsbFirst => at as u8,
    }
}

/// Bit number `at` of a byte.
pub fn observed_bit(symbol: u8, order: BitOrder, at: usize) -> (bit: bool)
    requires
        at < 8,
    ensures
        bit == bit_at(symbol, order, at as int),
{
    let s: u8 = place(order, at);
    symbol & (1u8 << s) != 0
}

/// A byte with one more bit.
pub fn with_bit(symbol: u8, order: BitOrder, at: usize, bit: bool) -> (next: u8)
    requires
        at < 8,
        symbol == byte_of(order, first_bits(symbol, order, at as nat)),
    ensures
        next == byte_of(order, first_bits(symbol, order, at as nat).push(bit)),
        first_bits(next, order, at as nat + 1) == first_bits(symbol, order, at as nat).push(bit),
{
    let s: u8 = place(order, at);
    let next: u8 = if bit {
        symbol | (1u8 << s)
    } else {
        symbol
    };
    proof {
        let seen = first_bits(symbol, order, at as nat);
        assert(seen.push(bit).drop_last() =~= seen);
        lemma_first_bits(order, seen.push(bit));
    }
    next
}

// ---------------------------------------------------------------------------------------
// Lengths of streams
// ---------------------------------------------------------------------------------------

/// Bytes in a stream of whole bytes; a stream that is none is refused.
pub open spec fn whole_bytes(total_bits: Option<u64>) -> Result<Option<u64>, u64> {
    match total_bits {
        None => Ok(None),
        Some(n) => if n % 8 != 0 {
            Err(n)
        } else {
            Ok(Some(n / 8))
        },
    }
}

/// Symbols in a stream; the number of bits where it is refused.
pub open spec fn symbols_in(total_bits: Option<u64>, semantics: BitStreamSemantics) -> Result<
    Option<u64>,
    u64,
> {
    match semantics {
        BitStreamSemantics::BytePacked { order } => whole_bytes(total_bits),
        BitStreamSemantics::BinaryTokens => Ok(total_bits),
    }
}

/// Bytes in a stream of whole bytes.
pub fn byte_packed_total_symbols(total_bits: Option<u64>) -> (r: Result<Option<u64>, u64>)
    ensures
        r == whole_bytes(total_bits),
{
    match total_bits {
        None => Ok(None),
        Some(n) => if n % 8 != 0 {
            Err(n)
        } else {
            Ok(Some(n / 8))
        },
    }
}

/// Symbols in a stream.
pub fn total_symbols_for_bit_semantics(
    total_bits: Option<u64>,
    semantics: BitStreamSemantics,
) -> (r: Result<Option<u64>, u64>)
    ensures
        r == symbols_in(total_bits, semantics),
{
    match semantics {
        BitStreamSemantics::BytePacked { order } => byte_packed_total_symbols(total_bits),
        BitStreamSemantics::BinaryTokens => Ok(total_bits),
    }
}

/// What to tell of a stream that is no whole number of bytes.
pub open spec fn broken_stream_text(bits: u64) -> Seq<char> {
    "byte-packed bit streams require a whole number of bytes; got "@ + text::decimal(bits as nat)
        + " bits. Use BitStreamSemantics::BinaryTokens for arbitrary-length bit streams"@
}

/// What to tell of a stream that is no whole number of bytes.
pub fn broken_stream_message(bits: u64) -> (text: String)
    ensures
        text@ == broken_stream_text(bits),
{
    let mut out: Vec<char> = Vec::new();
    push_text(&mut out, "byte-packed bit streams require a whole number of bytes; got ");
    push_chars(&mut out, decimal_of(bits).as_slice());
    push_text(
        &mut out,
        " bits. Use BitStreamSemantics::BinaryTokens for arbitrary-length bit streams",
    );
    proof {
        assert(out@ =~= broken_stream_text(bits));
    }
    string_of(&out)
}

} // verus!
