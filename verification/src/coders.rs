//! Entropy coder selection and checksums.

use vstd::prelude::*;
use vstd::arithmetic::power::pow;


verus! {

/// Entropy coder of a compressed payload.
#[derive(Clone, Copy, Debug, PartialEq, Eq, Structural)]
pub enum CoderType {
    /// Arithmetic coding.
    AC,
    /// Range variant of asymmetric numeral systems.
    RANS,
}

impl CoderType {
    /// Name of the coder.
    pub fn name(&self) -> (name: &'static str)
        ensures
            name@ == (match self {
                CoderType::AC => "AC"@,
                CoderType::RANS => "rANS"@,
            }),
    {
        match self {
            CoderType::AC => "AC",
            CoderType::RANS => "rANS",
        }
    }
}

/// Register of a CRC-32 after `n` single steps: each shifts one bit out, and where that bit was set
/// the reflected polynomial is taken off.
pub open spec fn crc_stepped(register: u32, n: nat) -> u32
    decreases n,
{
    if n == 0 {
        register
    } else {
        let r = crc_stepped(register, (n - 1) as nat);
        if r & 1 == 1 {
            (r >> 1u32) ^ 0xEDB8_8320
        } else {
            r >> 1u32
        }
    }
}

/// Register of a CRC-32 after bytes: all ones at first, then eight steps for each byte.
pub open spec fn crc_register(data: Seq<u8>) -> u32
    decreases data.len(),
{
    if data.len() == 0 {
        0xFFFF_FFFF
    } else {
        crc_stepped(crc_register(data.drop_last()) ^ (data.last() as u32), 8)
    }
}

/// CRC-32 of bytes: the register with each bit turned over.
pub open spec fn crc32_of(data: Seq<u8>) -> u32 {
    crc_register(data) ^ 0xFFFF_FFFF
}

/// `crc32fast::hash` computes the CRC-32 of a buffer as zlib and Ethernet have it: reflected, with
/// the polynomial 0x04C11DB7, from a register of ones that is turned over at the end.
#[verifier::external_body]
fn crc32fast_hash(data: &[u8]) -> (crc: u32)
    ensures
        crc == crc32_of(data@),
{
    crc32fast::hash(data)
}

/// Checksum of `data`.
pub fn crc32(data: &[u8]) -> (crc: u32)
    ensures
        crc == crc32_of(data@),
{
    crc32fast_hash(data)
}

/// The bytes of `parts` one after the other.
pub open spec fn chained(parts: Seq<&[u8]>) -> Seq<u8>
    decreases parts.len(),
{
    if parts.len() == 0 {
        Seq::empty()
    } else {
        chained(parts.drop_last()) + parts.last()@
    }
}

/// The bytes of `parts` one after the other.
pub fn join_parts(parts: &[&[u8]]) -> (all: Vec<u8>)
    ensures
        all@ == chained(parts@),
{
    let mut all: Vec<u8> = Vec::new();
    let n: usize = parts.len();
    let mut i: usize = 0;
    while i < n
        invariant
            i <= n == parts@.len(),
            all@ == chained(parts@.take(i as int)),
        decreases n - i,
    {
        let part: &[u8] = parts[i];
        let ghost before = all@;
        let m: usize = part.len();
        let mut j: usize = 0;
        proof {
            assert(all@ =~= before + part@.take(0));
        }
        while j < m
            invariant
                j <= m == part@.len(),
                all@ == before + part@.take(j as int),
            decreases m - j,
        {
            all.push(part[j]);
            j += 1;
            proof {
                assert(all@ =~= before + part@.take(j as int));
            }
        }
        i += 1;
        proof {
            assert(part@.take(m as int) =~= part@);
            assert(parts@.take(i as int).drop_last() =~= parts@.take(i - 1));
        }
    }
    proof {
        assert(parts@.take(n as int) =~= parts@);
    }
    all
}

/// Checksum of the bytes of `parts` one after the other.
pub fn crc32_chain(parts: &[&[u8]]) -> (crc: u32)
    ensures
        crc == crc32_of(chained(parts@)),
{
    crc32(join_parts(parts).as_slice())
}

/// Hexadecimal digit `d`.
pub open spec fn hex_char(d: nat) -> char {
    if d < 10 {
        (48 + d) as char
    } else {
        (55 + d) as char
    }
}

/// The last `n` hexadecimal digits of `x`.
pub open spec fn hex_text(x: nat, n: nat) -> Seq<char>
    decreases n,
{
    if n == 0 {
        Seq::empty()
    } else {
        hex_text(x / 16, (n - 1) as nat).push(hex_char(x % 16))
    }
}

/// The last `n` hexadecimal digits of `x`.
pub fn hex_digits(x: u64, n: usize) -> (digits: Vec<char>)
    ensures
        digits@ == hex_text(x as nat, n as nat),
    decreases n,
{
    if n == 0 {
        return Vec::new();
    }
    let mut digits = hex_digits(x / 16, n - 1);
    let d: u8 = (x % 16) as u8;
    let c: char = if d < 10 {
        (48 + d) as char
    } else {
        (55 + d) as char
    };
    digits.push(c);
    digits
}

/// Whether two byte strings are the same.
pub fn same_bytes(a: &[u8], b: &[u8]) -> (yes: bool)
    ensures
        yes == (a@ == b@),
{
    if a.len() != b.len() {
        return false;
    }
    let n: usize = a.len();
    let mut i: usize = 0;
    while i < n
        invariant
            i <= n == a@.len() == b@.len(),
            forall|j: int| 0 <= j < i ==> a@[j] == b@[j],
        decreases n - i,
    {
        if a[i] != b[i] {
            return false;
        }
        i += 1;
    }
    assert(a@ =~= b@);
    true
}

/// Bytes of the parts together.
pub open spec fn chain_len(parts: Seq<&[u8]>) -> nat
    decreases parts.len(),
{
    if parts.len() == 0 {
        0
    } else {
        chain_len(parts.drop_last()) + parts.last()@.len()
    }
}

/// Bytes of the parts together, as far as they can be counted.
pub fn chain_total(parts: &[&[u8]]) -> (total: u64)
    ensures
        total == if chain_len(parts@) <= u64::MAX {
            chain_len(parts@)
        } else {
            u64::MAX as nat
        },
{
    let n: usize = parts.len();
    let mut total: u64 = 0;
    let mut i: usize = 0;
    while i < n
        invariant
            i <= n == parts@.len(),
            total == if chain_len(parts@.take(i as int)) <= u64::MAX {
                chain_len(parts@.take(i as int))
            } else {
                u64::MAX as nat
            },
        decreases n - i,
    {
        let len: usize = parts[i].len();
        proof {
            assert(parts@.take(i + 1).drop_last() =~= parts@.take(i as int));
            assert(parts@.take(i + 1).last() == parts@[i as int]);
        }
        total = total.saturating_add(len as u64);
        i += 1;
    }
    proof {
        assert(parts@.take(n as int) =~= parts@);
    }
    total
}

/// Parts stand one behind the other as they are, in their order, and their bytes are counted together.
pub proof fn law_parts_in_order(a: Seq<&[u8]>, b: Seq<&[u8]>, part: &[u8])
    ensures
        chained(a + b) == chained(a) + chained(b),
        chained(seq![part]) == part@,
        chain_len(a) == chained(a).len(),
    decreases a.len() + b.len(),
{
    if b.len() > 0 {
        law_parts_in_order(a, b.drop_last(), part);
        assert((a + b).drop_last() =~= a + b.drop_last());
        assert(chained(a + b) =~= chained(a) + chained(b));
    } else {
        assert(a + b =~= a);
        assert(chained(a) + chained(b) =~= chained(a));
        if a.len() > 0 {
            law_parts_in_order(a.drop_last(), b, part);
        }
    }
    let one = seq![part];
    assert(one.len() == 1 && one.last() == part);
    assert(chained(one.drop_last()) =~= Seq::empty());
    assert(chained(one) == chained(one.drop_last()) + one.last()@);
    assert(chained(one) =~= part@);
}

/// As many digits are written as are asked for; numbers that have no more than these are written
/// differently where they differ.
pub proof fn law_digits_tell(x: nat, y: nat, n: nat)
    ensures
        hex_text(x, n).len() == n,
        x < pow(16, n) && y < pow(16, n) && x != y ==> hex_text(x, n) != hex_text(y, n),
    decreases n,
{
    reveal(pow);
    if n > 0 {
        let m = (n - 1) as nat;
        law_digits_tell(x / 16, y / 16, m);
        if x < pow(16, n) && y < pow(16, n) && hex_text(x, n) == hex_text(y, n) {
            assert(hex_text(x, n).drop_last() =~= hex_text(x / 16, m));
            assert(hex_text(y, n).drop_last() =~= hex_text(y / 16, m));
            assert(hex_text(x, n).last() == hex_char(x % 16));
            assert(hex_text(y, n).last() == hex_char(y % 16));
            assert(pow(16, n) == 16 * pow(16, m));
            assert(x / 16 == y / 16);
            assert(x % 16 == y % 16);
        }
    }
}

} // verus!
