//! Counts that the empirical measures rest on.

use vstd::prelude::*;
use crate::places;
use vstd::slice::slice_subrange;

verus! {

/// The shorter of two lengths.
pub open spec fn common_len(x: Seq<u8>, y: Seq<u8>) -> int {
    if x.len() <= y.len() {
        x.len() as int
    } else {
        y.len() as int
    }
}

/// The parts of two byte strings that stand side by side.
pub fn aligned_prefix<'a>(x: &'a [u8], y: &'a [u8]) -> (pair: (&'a [u8], &'a [u8]))
    ensures
        pair.0@ == x@.take(common_len(x@, y@)),
        pair.1@ == y@.take(common_len(x@, y@)),
{
    let n: usize = if x.len() <= y.len() {
        x.len()
    } else {
        y.len()
    };
    (slice_subrange(x, 0, n), slice_subrange(y, 0, n))
}

/// How often a byte occurs.
pub open spec fn count_byte(data: Seq<u8>, b: int) -> nat
    decreases data.len(),
{
    if data.len() == 0 {
        0
    } else {
        count_byte(data.drop_last(), b) + if data.last() as int == b {
            1nat
        } else {
            0nat
        }
    }
}

/// How often a pair of bytes stands side by side.
pub open spec fn count_pair(x: Seq<u8>, y: Seq<u8>, a: int, b: int, n: int) -> nat
    decreases n,
{
    if n <= 0 {
        0
    } else {
        count_pair(x, y, a, b, n - 1) + if x[n - 1] as int == a && y[n - 1] as int == b {
            1nat
        } else {
            0nat
        }
    }
}

proof fn lemma_count_byte_len(data: Seq<u8>, b: int)
    ensures
        count_byte(data, b) <= data.len(),
    decreases data.len(),
{
    if data.len() > 0 {
        lemma_count_byte_len(data.drop_last(), b);
    }
}

proof fn lemma_count_pair_len(x: Seq<u8>, y: Seq<u8>, a: int, b: int, n: int)
    requires
        n >= 0,
    ensures
        count_pair(x, y, a, b, n) <= n,
    decreases n,
{
    if n > 0 {
        lemma_count_pair_len(x, y, a, b, n - 1);
    }
}

/// How often each byte occurs.
pub fn byte_counts(data: &[u8]) -> (counts: Vec<u64>)
    ensures
        counts@.len() == 256,
        forall|b: int| 0 <= b < 256 ==> #[trigger] counts@[b] == count_byte(data@, b),
{
    let n: usize = data.len();
    let mut counts: Vec<u64> = vec![0; 256];
    let mut i: usize = 0;
    while i < n
        invariant
            i <= n == data@.len(),
            counts@.len() == 256,
            forall|b: int|
                0 <= b < 256 ==> #[trigger] counts@[b] == count_byte(data@.take(i as int), b),
        decreases n - i,
    {
        let at: usize = data[i] as usize;
        proof {
            lemma_count_byte_len(data@.take(i as int), at as int);
            assert(data@.take(i + 1).drop_last() =~= data@.take(i as int));
            assert(data@.take(i + 1).last() == data@[i as int]);
        }
        let c: u64 = counts[at] + 1;
        counts.set(at, c);
        i += 1;
    }
    proof {
        assert(data@.take(n as int) =~= data@);
    }
    counts
}

/// How often each pair of bytes stands side by side; the pair `(a, b)` has index `256 a + b`.
pub fn pair_counts(x: &[u8], y: &[u8]) -> (counts: Vec<u64>)
    ensures
        counts@.len() == 65536,
        forall|a: int, b: int|
            0 <= a < 256 && 0 <= b < 256 ==> counts@[256 * a + b] == #[trigger] count_pair(
                x@,
                y@,
                a,
                b,
                common_len(x@, y@),
            ),
{
    let n: usize = if x.len() <= y.len() {
        x.len()
    } else {
        y.len()
    };
    let mut counts: Vec<u64> = vec![0; 65536];
    let mut i: usize = 0;
    while i < n
        invariant
            i <= n,
            n <= x@.len(),
            n <= y@.len(),
            counts@.len() == 65536,
            forall|a: int, b: int|
                0 <= a < 256 && 0 <= b < 256 ==> counts@[256 * a + b] == #[trigger] count_pair(
                    x@,
                    y@,
                    a,
                    b,
                    i as int,
                ),
        decreases n - i,
    {
        let a: usize = x[i] as usize;
        let b: usize = y[i] as usize;
        let at: usize = 256 * a + b;
        proof {
            lemma_count_pair_len(x@, y@, a as int, b as int, i as int);
            assert(counts@[256 * (a as int) + b as int] == count_pair(
                x@,
                y@,
                a as int,
                b as int,
                i as int,
            ));
        }
        let c: u64 = counts[at] + 1;
        let ghost before = counts@;
        counts.set(at, c);
        proof {
            assert forall|p: int, q: int| 0 <= p < 256 && 0 <= q < 256 implies counts@[256 * p + q]
                == #[trigger] count_pair(x@, y@, p, q, i + 1) by {
                assert(before[256 * p + q] == count_pair(x@, y@, p, q, i as int));
            }
        }
        i += 1;
    }
    counts
}

/// Whether bit number `k` of a byte is set.
pub open spec fn has_bit(b: u8, k: int) -> bool {
    b & (1u8 << (k as u8)) != 0
}

/// Among the first `k` bits of two bytes, those where the one is `a` and the other is `b`.
pub open spec fn joint_bits(x: u8, y: u8, a: bool, b: bool, k: int) -> nat
    decreases k,
{
    if k <= 0 {
        0
    } else {
        joint_bits(x, y, a, b, k - 1) + if has_bit(x, k - 1) == a && has_bit(y, k - 1) == b {
            1nat
        } else {
            0nat
        }
    }
}

/// Among the bits of the first `n` bytes, those where the one is `a` and the other is `b`.
pub open spec fn joint_ones(x: Seq<u8>, y: Seq<u8>, a: bool, b: bool, n: int) -> nat
    decreases n,
{
    if n <= 0 {
        0
    } else {
        joint_ones(x, y, a, b, n - 1) + joint_bits(x[n - 1], y[n - 1], a, b, 8)
    }
}

/// Among the bits of bytes, those that are set.
pub open spec fn ones_in(data: Seq<u8>) -> nat {
    joint_ones(data, data, true, true, data.len() as int)
}

proof fn lemma_bits_sum(x: u8, y: u8, k: int)
    requires
        k >= 0,
    ensures
        joint_bits(x, y, false, false, k) + joint_bits(x, y, false, true, k) + joint_bits(
            x,
            y,
            true,
            false,
            k,
        ) + joint_bits(x, y, true, true, k) == k,
    decreases k,
{
    if k > 0 {
        lemma_bits_sum(x, y, k - 1);
    }
}

/// Each pair of bits is counted once.
pub proof fn law_joint_bits_add_up(x: Seq<u8>, y: Seq<u8>, n: int)
    requires
        n >= 0,
    ensures
        joint_ones(x, y, false, false, n) + joint_ones(x, y, false, true, n) + joint_ones(
            x,
            y,
            true,
            false,
            n,
        ) + joint_ones(x, y, true, true, n) == 8 * n,
    decreases n,
{
    if n > 0 {
        law_joint_bits_add_up(x, y, n - 1);
        lemma_bits_sum(x[n - 1], y[n - 1], 8);
    }
}

proof fn lemma_same_bits(x: u8, k: int)
    requires
        k >= 0,
    ensures
        joint_bits(x, x, false, true, k) == 0,
        joint_bits(x, x, true, false, k) == 0,
    decreases k,
{
    if k > 0 {
        lemma_same_bits(x, k - 1);
    }
}

/// Bytes do not differ from themselves in any bit.
pub proof fn law_same_bytes_no_cross_bits(x: Seq<u8>, n: int)
    requires
        n >= 0,
    ensures
        joint_ones(x, x, false, true, n) == 0,
        joint_ones(x, x, true, false, n) == 0,
    decreases n,
{
    if n > 0 {
        law_same_bytes_no_cross_bits(x, n - 1);
        lemma_same_bits(x[n - 1], 8);
    }
}

proof fn lemma_bits_swap(x: u8, y: u8, a: bool, b: bool, k: int)
    requires
        k >= 0,
    ensures
        joint_bits(x, y, a, b, k) == joint_bits(y, x, b, a, k),
    decreases k,
{
    if k > 0 {
        lemma_bits_swap(x, y, a, b, k - 1);
    }
}

/// The order of the two byte strings only swaps the two kinds of difference.
pub proof fn law_joint_bits_symmetric(x: Seq<u8>, y: Seq<u8>, a: bool, b: bool, n: int)
    requires
        n >= 0,
    ensures
        joint_ones(x, y, a, b, n) == joint_ones(y, x, b, a, n),
    decreases n,
{
    if n > 0 {
        law_joint_bits_symmetric(x, y, a, b, n - 1);
        lemma_bits_swap(x[n - 1], y[n - 1], a, b, 8);
    }
}

/// Pairs of bytes count as their swaps do.
pub proof fn law_pairs_symmetric(x: Seq<u8>, y: Seq<u8>, a: int, b: int, n: int)
    requires
        n >= 0,
    ensures
        count_pair(x, y, a, b, n) == count_pair(y, x, b, a, n),
    decreases n,
{
    if n > 0 {
        law_pairs_symmetric(x, y, a, b, n - 1);
    }
}

/// How often the pairs of bits occur among the bytes that stand side by side.
#[derive(Clone, Copy, Debug, PartialEq, Eq, Structural)]
pub struct JointBits {
    pub c00: u64,
    pub c01: u64,
    pub c10: u64,
    pub c11: u64,
}

fn joint_bits_of(x: u8, y: u8) -> (c: JointBits)
    ensures
        c.c00 == joint_bits(x, y, false, false, 8),
        c.c01 == joint_bits(x, y, false, true, 8),
        c.c10 == joint_bits(x, y, true, false, 8),
        c.c11 == joint_bits(x, y, true, true, 8),
{
    let mut c = JointBits { c00: 0, c01: 0, c10: 0, c11: 0 };
    let mut k: u8 = 0;
    while k < 8
        invariant
            k <= 8,
            c.c00 <= k,
            c.c01 <= k,
            c.c10 <= k,
            c.c11 <= k,
            c.c00 == joint_bits(x, y, false, false, k as int),
            c.c01 == joint_bits(x, y, false, true, k as int),
            c.c10 == joint_bits(x, y, true, false, k as int),
            c.c11 == joint_bits(x, y, true, true, k as int),
        decreases 8 - k,
    {
        let a: bool = x & (1u8 << k) != 0;
        let b: bool = y & (1u8 << k) != 0;
        if a && b {
            c.c11 = c.c11 + 1;
        } else if a {
            c.c10 = c.c10 + 1;
        } else if b {
            c.c01 = c.c01 + 1;
        } else {
            c.c00 = c.c00 + 1;
        }
        k += 1;
    }
    c
}

/// How often the pairs of bits occur among the bytes that stand side by side.
pub fn joint_bit_counts(x: &[u8], y: &[u8]) -> (c: JointBits)
    requires
        8 * common_len(x@, y@) <= u64::MAX,
    ensures
        c.c00 == joint_ones(x@, y@, false, false, common_len(x@, y@)),
        c.c01 == joint_ones(x@, y@, false, true, common_len(x@, y@)),
        c.c10 == joint_ones(x@, y@, true, false, common_len(x@, y@)),
        c.c11 == joint_ones(x@, y@, true, true, common_len(x@, y@)),
{
    let n: usize = if x.len() <= y.len() {
        x.len()
    } else {
        y.len()
    };
    let mut c = JointBits { c00: 0, c01: 0, c10: 0, c11: 0 };
    let mut i: usize = 0;
    while i < n
        invariant
            i <= n,
            n <= x@.len(),
            n <= y@.len(),
            8 * n <= u64::MAX,
            c.c00 == joint_ones(x@, y@, false, false, i as int),
            c.c01 == joint_ones(x@, y@, false, true, i as int),
            c.c10 == joint_ones(x@, y@, true, false, i as int),
            c.c11 == joint_ones(x@, y@, true, true, i as int),
        decreases n - i,
    {
        let d = joint_bits_of(x[i], y[i]);
        proof {
            law_joint_bits_add_up(x@, y@, i + 1);
        }
        c.c00 = c.c00 + d.c00;
        c.c01 = c.c01 + d.c01;
        c.c10 = c.c10 + d.c10;
        c.c11 = c.c11 + d.c11;
        i += 1;
    }
    c
}

/// How many bits there are, and how many of them are set.
pub fn bit_counts(data: &[u8]) -> (counts: (u64, u64))
    requires
        8 * data@.len() <= u64::MAX,
    ensures
        counts.0 == 8 * data@.len(),
        counts.1 == ones_in(data@),
{
    let c = joint_bit_counts(data, data);
    let n: u64 = data.len() as u64;
    (n * 8, c.c11)
}

/// What stands side by side of two byte strings is as long as the shorter one.
pub proof fn law_common_len(x: Seq<u8>, y: Seq<u8>)
    ensures
        common_len(x, y) <= x.len(),
        common_len(x, y) <= y.len(),
        common_len(x, y) == x.len() || common_len(x, y) == y.len(),
        common_len(x, y) == common_len(y, x),
{
}

/// A byte occurs at as many places as it is counted, and a pair stands at as many places side by
/// side.
pub proof fn law_counts_are_places(x: Seq<u8>, y: Seq<u8>, a: int, b: int, n: int)
    requires
        0 <= n <= x.len(),
        n <= y.len(),
    ensures
        count_byte(x, a) == places::places(x.len() as int, |i: int| x[i] == a),
        count_pair(x, y, a, b, n) == places::places(n, |i: int| x[i] == a && y[i] == b),
    decreases x.len() + n,
{
    if x.len() > 0 {
        lemma_count_byte_places(x, a);
    }
    if n > 0 {
        law_counts_are_places(x, y, a, b, n - 1);
    }
}

proof fn lemma_count_byte_places(x: Seq<u8>, a: int)
    ensures
        count_byte(x, a) == places::places(x.len() as int, |i: int| x[i] == a),
    decreases x.len(),
{
    if x.len() > 0 {
        let rest = x.drop_last();
        lemma_count_byte_places(rest, a);
        places::lemma_places_same(
            rest.len() as int,
            |i: int| rest[i] == a,
            |i: int| x[i] == a,
        );
    }
}

/// Sum of what is counted for the first `k` bytes.
pub open spec fn count_sum(counts: spec_fn(int) -> nat, k: int) -> nat
    decreases k,
{
    if k <= 0 {
        0
    } else {
        count_sum(counts, k - 1) + counts(k - 1)
    }
}

proof fn lemma_count_sum_step(
    more: spec_fn(int) -> nat,
    less: spec_fn(int) -> nat,
    at: int,
    d: nat,
    k: int,
)
    requires
        forall|b: int|
            0 <= b < k ==> #[trigger] more(b) == less(b) + if b == at {
                d
            } else {
                0
            },
    ensures
        count_sum(more, k) == count_sum(less, k) + if 0 <= at < k {
            d
        } else {
            0
        },
    decreases k,
{
    if k > 0 {
        lemma_count_sum_step(more, less, at, d, k - 1);
        assert(more(k - 1) == less(k - 1) + if k - 1 == at {
            d
        } else {
            0
        });
    }
}

proof fn lemma_count_sum_none(counts: spec_fn(int) -> nat, k: int)
    requires
        forall|b: int| 0 <= b < k ==> #[trigger] counts(b) == 0,
    ensures
        count_sum(counts, k) == 0,
    decreases k,
{
    if k > 0 {
        lemma_count_sum_none(counts, k - 1);
        assert(counts(k - 1) == 0);
    }
}

/// Each byte of a string is counted once, and each pair of two strings too: the counts of all bytes
/// are as many as there are bytes, and those of the pairs that begin with a byte are as many as that
/// byte has places among those that stand side by side.
pub proof fn law_counts_add_up(x: Seq<u8>, y: Seq<u8>, a: int, n: int)
    requires
        0 <= n <= x.len(),
        n <= y.len(),
    ensures
        count_sum(|b: int| count_byte(x, b), 256) == x.len(),
        count_sum(|b: int| count_pair(x, y, a, b, n), 256) == count_byte(x.take(n), a),
    decreases x.len() + n,
{
    lemma_byte_counts_add_up(x);
    if n == 0 {
        lemma_count_sum_none(|b: int| count_pair(x, y, a, b, n), 256);
        assert(x.take(0) =~= Seq::<u8>::empty());
    } else {
        law_counts_add_up(x, y, a, n - 1);
        let d = if x[n - 1] as int == a {
            1nat
        } else {
            0
        };
        lemma_count_sum_step(
            |b: int| count_pair(x, y, a, b, n),
            |b: int| count_pair(x, y, a, b, n - 1),
            y[n - 1] as int,
            d,
            256,
        );
        assert(x.take(n).drop_last() =~= x.take(n - 1));
        assert(x.take(n).last() == x[n - 1]);
    }
}

proof fn lemma_byte_counts_add_up(x: Seq<u8>)
    ensures
        count_sum(|b: int| count_byte(x, b), 256) == x.len(),
    decreases x.len(),
{
    if x.len() == 0 {
        lemma_count_sum_none(|b: int| count_byte(x, b), 256);
    } else {
        let rest = x.drop_last();
        lemma_byte_counts_add_up(rest);
        lemma_count_sum_step(
            |b: int| count_byte(x, b),
            |b: int| count_byte(rest, b),
            x.last() as int,
            1,
            256,
        );
    }
}

/// The bits that are set in bytes are as many as each byte has.
pub proof fn law_ones_in_parts(x: Seq<u8>, b: u8)
    ensures
        ones_in(x.push(b)) == ones_in(x) + joint_bits(b, b, true, true, 8),
        ones_in(Seq::<u8>::empty()) == 0,
{
    lemma_ones_prefix(x.push(b), x, x.len() as int);
}

proof fn lemma_ones_prefix(longer: Seq<u8>, x: Seq<u8>, n: int)
    requires
        0 <= n <= x.len() <= longer.len(),
        forall|i: int| 0 <= i < n ==> longer[i] == x[i],
    ensures
        joint_ones(longer, longer, true, true, n) == joint_ones(x, x, true, true, n),
    decreases n,
{
    if n > 0 {
        lemma_ones_prefix(longer, x, n - 1);
    }
}

} // verus!
