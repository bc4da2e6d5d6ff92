//! Order of scores. A score is a number with a fraction, given by its 64 bits: a sign, an exponent
//! of 11 bits and a mantissa.

use vstd::prelude::*;

verus! {

/// Bit of the sign.
pub const SIGN_BIT: u64 = 0x8000_0000_0000_0000;

/// Bits of the exponent.
pub const EXPONENT_BITS: u64 = 0x7ff0_0000_0000_0000;

/// Bits of infinity.
pub const INFINITY: u64 = 0x7ff0_0000_0000_0000;

/// Bits of minus infinity.
pub const MINUS_INFINITY: u64 = 0xfff0_0000_0000_0000;

/// Whether a score is a number that is not infinite.
pub open spec fn finite_score(bits: u64) -> bool {
    bits & EXPONENT_BITS != EXPONENT_BITS
}

/// Whether a score is no number.
pub open spec fn no_number(bits: u64) -> bool {
    INFINITY < bits < SIGN_BIT || bits > MINUS_INFINITY
}

/// Place of a score in the order of all scores, with minus zero below zero.
pub open spec fn place_of(bits: u64) -> u64 {
    if bits >= SIGN_BIT {
        (u64::MAX - bits) as u64
    } else {
        (bits + SIGN_BIT) as u64
    }
}

/// Place of a score by its value: both zeros are the same.
pub open spec fn value_place(bits: u64) -> u64 {
    if bits == SIGN_BIT {
        SIGN_BIT
    } else {
        place_of(bits)
    }
}

/// Whether a score is a number that is not infinite.
pub fn is_finite_score(bits: u64) -> (yes: bool)
    ensures
        yes == finite_score(bits),
{
    bits & EXPONENT_BITS != EXPONENT_BITS
}

/// Whether a score is no number.
pub fn is_no_number(bits: u64) -> (yes: bool)
    ensures
        yes == no_number(bits),
{
    (INFINITY < bits && bits < SIGN_BIT) || bits > MINUS_INFINITY
}

/// Place of a score in the order of all scores.
pub fn order_place(bits: u64) -> (place: u64)
    ensures
        place == place_of(bits),
{
    if bits >= SIGN_BIT {
        u64::MAX - bits
    } else {
        bits + SIGN_BIT
    }
}

/// Different scores have different places.
pub proof fn law_places_differ(a: u64, b: u64)
    requires
        place_of(a) == place_of(b),
    ensures
        a == b,
{
}

/// Places follow the numbers: among numbers without a sign the larger bits are the larger number and
/// stand higher, with a sign lower, and those with a sign stand below those without.
pub proof fn law_places_follow_numbers(a: u64, b: u64)
    ensures
        a < SIGN_BIT && b < SIGN_BIT ==> (place_of(a) < place_of(b) <==> a < b),
        a >= SIGN_BIT && b >= SIGN_BIT ==> (place_of(a) < place_of(b) <==> b < a),
        a >= SIGN_BIT && b < SIGN_BIT ==> place_of(a) < place_of(b),
        a != 0 && b != 0 && a != SIGN_BIT && b != SIGN_BIT ==> (value_place(a) < value_place(b)
            <==> place_of(a) < place_of(b)),
        value_place(0) == value_place(SIGN_BIT),
        b < SIGN_BIT && b > 0 ==> value_place(SIGN_BIT) < value_place(b),
        a > SIGN_BIT ==> value_place(a) < value_place(SIGN_BIT),
{
}

/// A score is finite exactly where the bits of its exponent are not all ones; it is no number where
/// they are and the mantissa is not zero, whatever its sign.
pub proof fn law_kinds_of_scores(bits: u64)
    ensures
        finite_score(bits) <==> (bits as int / 0x10_0000_0000_0000) % 2048 != 2047,
        no_number(bits) <==> (bits as int / 0x10_0000_0000_0000) % 2048 == 2047 && bits as int
            % 0x10_0000_0000_0000 != 0,
{
    assert((bits & 0x7ff0_0000_0000_0000 != 0x7ff0_0000_0000_0000) == ((bits / 0x10_0000_0000_0000u64)
        % 2048 != 2047)) by (bit_vector);
}

/// Whether `best` is the first of the finite scores that none exceeds; it is 0 where none is
/// finite.
pub open spec fn is_best(scores: Seq<u64>, best: int) -> bool {
    &&& 0 <= best < scores.len()
    &&& finite_score(scores[best]) ==> (forall|j: int|
        0 <= j < scores.len() && finite_score(#[trigger] scores[j]) ==> if j < best {
            value_place(scores[j]) < value_place(scores[best])
        } else {
            value_place(scores[j]) <= value_place(scores[best])
        })
    &&& !finite_score(scores[best]) ==> best == 0 && forall|j: int|
        0 <= j < scores.len() ==> !finite_score(#[trigger] scores[j])
}

/// There is one best score.
pub proof fn law_best_unique(scores: Seq<u64>, a: int, b: int)
    requires
        is_best(scores, a),
        is_best(scores, b),
    ensures
        a == b,
{
    if finite_score(scores[a]) {
        assert(finite_score(scores[b]));
    }
}

/// Byte with the best score.
pub fn argmax_log_prob_byte(scores: &[u64]) -> (best: u8)
    requires
        scores@.len() == 256,
    ensures
        is_best(scores@, best as int),
{
    let mut best: usize = 0;
    let mut found: bool = false;
    let mut top: u64 = 0;
    let mut i: usize = 0;
    while i < 256
        invariant
            i <= 256 == scores@.len(),
            best < 256,
            best < i || (best == 0 && i == 0),
            found ==> finite_score(scores@[best as int]) && top == value_place(
                scores@[best as int],
            ),
            found ==> forall|j: int|
                0 <= j < i && finite_score(#[trigger] scores@[j]) ==> if j < best {
                    value_place(scores@[j]) < top
                } else {
                    value_place(scores@[j]) <= top
                },
            !found ==> best == 0 && forall|j: int| 0 <= j < i ==> !finite_score(#[trigger] scores@[j]),
        decreases 256 - i,
    {
        let bits: u64 = scores[i];
        if is_finite_score(bits) {
            let place: u64 = if bits == SIGN_BIT {
                SIGN_BIT
            } else {
                order_place(bits)
            };
            if !found || place > top {
                found = true;
                top = place;
                best = i;
            }
        }
        i += 1;
    }
    best as u8
}

/// Whether score `a` stands before score `b`: it is higher, or as high and earlier.
pub open spec fn stands_before(scores: Seq<u64>, a: int, b: int) -> bool {
    place_of(scores[a]) > place_of(scores[b]) || (place_of(scores[a]) == place_of(scores[b]) && a
        < b)
}

/// Whether `order` lists the scores from the highest down, equal ones in their order.
pub open spec fn is_ranking(scores: Seq<u64>, order: Seq<usize>) -> bool {
    &&& order.len() == scores.len()
    &&& forall|k: int| 0 <= k < order.len() ==> (#[trigger] order[k]) < scores.len()
    &&& forall|a: int, b: int|
        0 <= a < b < order.len() ==> stands_before(
            scores,
            #[trigger] order[a] as int,
            #[trigger] order[b] as int,
        )
}

/// There is one ranking.
pub proof fn law_ranking_unique(scores: Seq<u64>, p: Seq<usize>, q: Seq<usize>)
    requires
        is_ranking(scores, p),
        is_ranking(scores, q),
    ensures
        p == q,
{
    let n = scores.len() as int;
    assert forall|k: int| 0 <= k < n implies p[k] == q[k] by {
        lemma_ranked_same(scores, p, q, k);
    }
    assert(p =~= q);
}

/// The first scores of a ranking are the highest: none of those behind them is higher, and each
/// score is either among them or behind them.
pub proof fn law_first_are_highest(scores: Seq<u64>, order: Seq<usize>, n: int, v: usize)
    requires
        is_ranking(scores, order),
        0 <= n <= scores.len(),
        v < scores.len(),
    ensures
        order.contains(v),
        !order.take(n).contains(v) ==> forall|k: int|
            0 <= k < n ==> place_of(scores[(#[trigger] order[k]) as int]) >= place_of(scores[v as int]),
{
    lemma_ranking_covers(scores, order, v);
    let at = choose|at: int| 0 <= at < order.len() && order[at] == v;
    if at < n {
        assert(order.take(n)[at] == v);
    } else {
        assert forall|k: int| 0 <= k < n implies place_of(scores[(#[trigger] order[k]) as int])
            >= place_of(scores[v as int]) by {
            assert(stands_before(scores, order[k] as int, order[at] as int));
        }
    }
}

/// Among scores that are as high as each other the earlier one comes first.
pub proof fn law_equal_scores_stay_in_order(scores: Seq<u64>, order: Seq<usize>, a: int, b: int)
    requires
        is_ranking(scores, order),
        0 <= a < b < order.len(),
        scores[order[a] as int] == scores[order[b] as int],
    ensures
        order[a] < order[b],
{
    assert(stands_before(scores, order[a] as int, order[b] as int));
}

/// The best score is as high as any, and the first that is; it is finite where any score is.
pub proof fn law_best_is_first_of_the_highest(scores: Seq<u64>, best: int, j: int)
    requires
        is_best(scores, best),
        0 <= j < scores.len(),
        finite_score(scores[j]),
    ensures
        finite_score(scores[best]),
        value_place(scores[best]) >= value_place(scores[j]),
        value_place(scores[best]) == value_place(scores[j]) ==> best <= j,
{
}

/// Each index stands in a ranking.
proof fn lemma_ranking_covers(scores: Seq<u64>, p: Seq<usize>, v: usize)
    requires
        is_ranking(scores, p),
        v < scores.len(),
    ensures
        p.contains(v),
{
    if !p.contains(v) {
        let n = scores.len();
        let held = p.to_set();
        vstd::seq_lib::seq_to_set_is_finite(p);
        assert forall|a: int, b: int| 0 <= a < p.len() && 0 <= b < p.len() && a != b implies p[a]
            != p[b] by {
            if a < b {
                assert(stands_before(scores, p[a] as int, p[b] as int));
            } else {
                assert(stands_before(scores, p[b] as int, p[a] as int));
            }
        }
        assert(p.no_duplicates());
        p.unique_seq_to_set();
        let mapped = held.map(|x: usize| x as int);
        vstd::set_lib::lemma_map_size(held, mapped, |x: usize| x as int);
        let range = vstd::set_lib::set_int_range(0, n as int);
        vstd::set_lib::lemma_int_range(0, n as int);
        assert(mapped.subset_of(range.remove(v as int))) by {
            assert forall|x: int| mapped.contains(x) implies range.remove(v as int).contains(x) by {
                let y = choose|y: usize| held.contains(y) && y as int == x;
                assert(p.contains(y));
                let k = choose|k: int| 0 <= k < p.len() && p[k] == y;
                assert(p[k] < n);
            }
        }
        vstd::set_lib::lemma_len_subset(mapped, range.remove(v as int));
        assert(false);
    }
}

/// Two rankings agree at each place.
proof fn lemma_ranked_same(scores: Seq<u64>, p: Seq<usize>, q: Seq<usize>, k: int)
    requires
        is_ranking(scores, p),
        is_ranking(scores, q),
        0 <= k < scores.len(),
    ensures
        p[k] == q[k],
    decreases k,
{
    assert forall|j: int| 0 <= j < k implies #[trigger] p[j] == q[j] by {
        lemma_ranked_same(scores, p, q, j);
    }
    if p[k] != q[k] {
        lemma_ranking_covers(scores, q, p[k]);
        lemma_ranking_covers(scores, p, q[k]);
        let a = choose|a: int| 0 <= a < q.len() && q[a] == p[k];
        let b = choose|b: int| 0 <= b < p.len() && p[b] == q[k];
        if a < k {
            assert(p[a] == q[a]);
            assert(stands_before(scores, p[a] as int, p[k] as int));
        } else if b < k {
            assert(p[b] == q[b]);
            assert(stands_before(scores, q[b] as int, q[k] as int));
        } else {
            assert(stands_before(scores, q[k] as int, q[a] as int));
            assert(stands_before(scores, p[k] as int, p[b] as int));
        }
    }
}

/// Indices of the scores from the highest down, equal ones in their order.
pub fn ranked(scores: &[u64]) -> (order: Vec<usize>)
    ensures
        is_ranking(scores@, order@),
{
    let n: usize = scores.len();
    let mut order: Vec<usize> = Vec::new();
    let mut i: usize = 0;
    while i < n
        invariant
            i <= n == scores@.len(),
            order@.len() == i,
            forall|k: int| 0 <= k < order@.len() ==> (#[trigger] order@[k]) < i,
            forall|a: int, b: int|
                0 <= a < b < order@.len() ==> stands_before(
                    scores@,
                    #[trigger] order@[a] as int,
                    #[trigger] order@[b] as int,
                ),
        decreases n - i,
    {
        let place: u64 = order_place(scores[i]);
        let mut at: usize = 0;
        while at < order.len() && order_place(scores[order[at]]) >= place
            invariant
                i < n == scores@.len(),
                place == place_of(scores@[i as int]),
                at <= order@.len() == i,
                forall|k: int| 0 <= k < order@.len() ==> (#[trigger] order@[k]) < i,
                forall|k: int|
                    0 <= k < at ==> place_of(scores@[(#[trigger] order@[k]) as int]) >= place,
            decreases order@.len() - at,
        {
            at += 1;
        }
        let ghost before = order@;
        order.insert(at, i);
        proof {
            assert(order@ == before.insert(at as int, i));
            assert forall|a: int, b: int| 0 <= a < b < order@.len() implies stands_before(
                scores@,
                #[trigger] order@[a] as int,
                #[trigger] order@[b] as int,
            ) by {
                if a < at && b == at {
                    assert(order@[a] == before[a]);
                } else if a == at {
                    assert(order@[b] == before[b - 1]);
                    if at < b - 1 {
                        assert(stands_before(
                            scores@,
                            before[at as int] as int,
                            before[b - 1] as int,
                        ));
                    }
                } else if b < at {
                    assert(order@[a] == before[a] && order@[b] == before[b]);
                } else if a > at {
                    assert(order@[a] == before[a - 1] && order@[b] == before[b - 1]);
                } else {
                    assert(order@[a] == before[a] && order@[b] == before[b - 1]);
                }
            }
            assert forall|k: int| 0 <= k < order@.len() implies (#[trigger] order@[k]) < i + 1 by {
                if k < at {
                    assert(order@[k] == before[k]);
                } else if k > at {
                    assert(order@[k] == before[k - 1]);
                }
            }
        }
        i += 1;
    }
    order
}

} // verus!
