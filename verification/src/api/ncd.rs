//! Distances by compressed sizes.

use vstd::prelude::*;

verus! {

/// How much may happen at the same time.
#[derive(Clone, Copy, Debug, PartialEq, Eq, Structural)]
pub enum OperationParallelism {
    /// One thing after another.
    Serial,
    /// As many as there are threads.
    Auto,
    /// At most so many.
    Threads(usize),
}

impl Default for OperationParallelism {
    fn default() -> (parallelism: Self)
        ensures
            parallelism == OperationParallelism::Auto,
    {
        OperationParallelism::Auto
    }
}

impl OperationParallelism {
    /// How much happens at the same time: one thread or fewer come to one thing after another.
    pub fn effective(self) -> (parallelism: Self)
        ensures
            parallelism == (match self {
                OperationParallelism::Threads(threads) => if threads <= 1 {
                    OperationParallelism::Serial
                } else {
                    self
                },
                _ => self,
            }),
    {
        match self {
            OperationParallelism::Threads(threads) => if threads <= 1 {
                OperationParallelism::Serial
            } else {
                self
            },
            _ => self,
        }
    }
}

/// How distances are computed.
#[derive(Clone, Copy, Debug, PartialEq, Eq, Structural)]
pub struct NcdComputeOptions {
    pub parallelism: OperationParallelism,
}

impl Default for NcdComputeOptions {
    fn default() -> (options: Self)
        ensures
            options.parallelism == OperationParallelism::Auto,
    {
        NcdComputeOptions { parallelism: OperationParallelism::default() }
    }
}

/// How the sizes of files are computed.
#[derive(Clone, Copy, Debug, PartialEq, Eq, Structural)]
pub struct CompressionPathBatchOptions {
    pub parallelism: OperationParallelism,
}

impl Default for CompressionPathBatchOptions {
    fn default() -> (options: Self)
        ensures
            options.parallelism == OperationParallelism::Auto,
    {
        CompressionPathBatchOptions { parallelism: OperationParallelism::default() }
    }
}

/// Which formula a distance follows.
#[derive(Clone, Copy, Debug, PartialEq, Eq, Structural)]
pub enum NcdVariant {
    /// `(C(xy) - min(C(x), C(y))) / max(C(x), C(y))`.
    Vitanyi,
    /// The same with `min(C(xy), C(yx))`.
    SymVitanyi,
    /// `(C(xy) - min(C(x), C(y))) / C(xy)`.
    Cons,
    /// The same with `min(C(xy), C(yx))`.
    SymCons,
}

impl NcdVariant {
    /// Whether the formula asks for `C(yx)` too.
    pub open spec fn symmetric(self) -> bool {
        self == NcdVariant::SymVitanyi || self == NcdVariant::SymCons
    }

    /// Whether the formula asks for `C(yx)` too.
    pub fn is_symmetric(&self) -> (yes: bool)
        ensures
            yes == self.symmetric(),
    {
        match self {
            NcdVariant::SymVitanyi => true,
            NcdVariant::SymCons => true,
            _ => false,
        }
    }
}

/// The distance `(whole - base) / over`; it is zero where `over` is.
#[derive(Clone, Copy, Debug, PartialEq, Eq, Structural)]
pub struct NcdRatio {
    pub whole: u64,
    pub base: u64,
    pub over: u64,
}

/// The smaller of two sizes.
pub open spec fn least(a: u64, b: u64) -> u64 {
    if a <= b {
        a
    } else {
        b
    }
}

/// The larger of two sizes.
pub open spec fn most(a: u64, b: u64) -> u64 {
    if a <= b {
        b
    } else {
        a
    }
}

/// Distance by compressed sizes.
pub open spec fn ratio_of(cx: u64, cy: u64, cxy: u64, cyx: u64, variant: NcdVariant) -> NcdRatio {
    let whole = if variant.symmetric() {
        least(cxy, cyx)
    } else {
        cxy
    };
    NcdRatio {
        whole,
        base: least(cx, cy),
        over: match variant {
            NcdVariant::Vitanyi => most(cx, cy),
            NcdVariant::SymVitanyi => most(cx, cy),
            NcdVariant::Cons => whole,
            NcdVariant::SymCons => whole,
        },
    }
}

/// A symmetric formula does not care which of the two comes first.
pub proof fn law_symmetric_variants(cx: u64, cy: u64, cxy: u64, cyx: u64, variant: NcdVariant)
    requires
        variant.symmetric(),
    ensures
        ratio_of(cx, cy, cxy, cyx, variant) == ratio_of(cy, cx, cyx, cxy, variant),
{
}

/// What is subtracted is the size of one of the two strings and exceeds neither; what is divided by
/// is the size of one of the two and neither exceeds it, or the size of both together; and the size
/// of both together is one of the sizes that were measured, the smaller one where both are asked
/// for.
pub proof fn law_ratio_parts(cx: u64, cy: u64, cxy: u64, cyx: u64, variant: NcdVariant)
    ensures
        ({
            let ratio = ratio_of(cx, cy, cxy, cyx, variant);
            &&& ratio.base <= cx && ratio.base <= cy && (ratio.base == cx || ratio.base == cy)
            &&& match variant {
                NcdVariant::Vitanyi => ratio.whole == cxy,
                NcdVariant::Cons => ratio.whole == cxy,
                _ => ratio.whole <= cxy && ratio.whole <= cyx && (ratio.whole == cxy || ratio.whole
                    == cyx),
            }
            &&& match variant {
                NcdVariant::Cons => ratio.over == ratio.whole,
                NcdVariant::SymCons => ratio.over == ratio.whole,
                _ => ratio.over >= cx && ratio.over >= cy && (ratio.over == cx || ratio.over == cy),
            }
        }),
{
}

/// Only the size of both together tells the order of the two strings: with that size kept, they can
/// be exchanged.
pub proof fn law_sizes_exchanged(cx: u64, cy: u64, cxy: u64, cyx: u64, variant: NcdVariant)
    ensures
        ratio_of(cx, cy, cxy, cyx, variant) == ratio_of(cy, cx, cxy, cyx, variant),
        variant == NcdVariant::Vitanyi || variant == NcdVariant::Cons ==> forall|other: u64|
            ratio_of(cx, cy, cxy, cyx, variant) == #[trigger] ratio_of(cx, cy, cxy, other, variant),
{
}

/// Where both together take no more than the larger one and no less than the smaller one, the
/// distance lies between zero and one: a string and itself, if doubling it costs nothing, are at
/// distance zero.
pub proof fn law_ratio_bounds(cx: u64, cy: u64, cxy: u64, cyx: u64, variant: NcdVariant)
    requires
        cx <= cxy && cy <= cxy && cx <= cyx && cy <= cyx,
    ensures
        ({
            let ratio = ratio_of(cx, cy, cxy, cyx, variant);
            &&& ratio.base <= ratio.whole
            &&& cxy <= cx + cy ==> ratio.whole - ratio.base <= ratio.over
            &&& cx == cy && cxy == cx ==> ratio.whole == ratio.base
        }),
{
}

/// Distance by compressed sizes. A formula that asks for `C(yx)` needs it.
pub fn ncd_from_sizes(cx: u64, cy: u64, cxy: u64, cyx: Option<u64>, variant: NcdVariant) -> (ratio:
    NcdRatio)
    requires
        variant.symmetric() ==> cyx is Some,
    ensures
        ratio == ratio_of(
            cx,
            cy,
            cxy,
            match cyx {
                Some(c) => c,
                None => cxy,
            },
            variant,
        ),
        ratio.base <= cx,
        ratio.base <= cy,
        ratio.base == cx || ratio.base == cy,
{
    let low: u64 = if cx <= cy {
        cx
    } else {
        cy
    };
    let high: u64 = if cx <= cy {
        cy
    } else {
        cx
    };
    let other: u64 = match cyx {
        Some(c) => c,
        None => cxy,
    };
    let whole: u64 = if variant.is_symmetric() && other < cxy {
        other
    } else {
        cxy
    };
    let over: u64 = match variant {
        NcdVariant::Vitanyi => high,
        NcdVariant::SymVitanyi => high,
        NcdVariant::Cons => whole,
        NcdVariant::SymCons => whole,
    };
    NcdRatio { whole, base: low, over }
}

/// Distance between the strings number `i` and `j`.
pub open spec fn matrix_entry(
    sizes: Seq<u64>,
    pairs: Seq<u64>,
    variant: NcdVariant,
    i: int,
    j: int,
) -> NcdRatio {
    let n = sizes.len() as int;
    ratio_of(sizes[i], sizes[j], pairs[i * n + j], pairs[j * n + i], variant)
}

/// Entry number `k` of the matrix, row by row.
pub open spec fn matrix_at(sizes: Seq<u64>, pairs: Seq<u64>, variant: NcdVariant, k: int) -> NcdRatio {
    matrix_entry(sizes, pairs, variant, k / (sizes.len() as int), k % (sizes.len() as int))
}

proof fn lemma_cell(i: int, j: int, n: int)
    requires
        0 <= i < n,
        0 <= j < n,
    ensures
        0 <= i * n + j < n * n,
        (i * n + j) / n == i,
        (i * n + j) % n == j,
{
    assert(0 <= i * n + j < n * n) by (nonlinear_arith)
        requires
            0 <= i < n,
            0 <= j < n,
    ;
    vstd::arithmetic::div_mod::lemma_fundamental_div_mod_converse(i * n + j, n, i, j);
}

/// Matrix of distances, row by row. `sizes` holds the size of each string, `pairs` that of each
/// string followed by each, itself among them, row by row.
pub fn ncd_matrix(sizes: &[u64], pairs: &[u64], variant: NcdVariant) -> (out: Vec<NcdRatio>)
    requires
        pairs@.len() == sizes@.len() * sizes@.len(),
    ensures
        out@.len() == sizes@.len() * sizes@.len(),
        forall|i: int, j: int|
            0 <= i < sizes@.len() && 0 <= j < sizes@.len() ==> out@[i * sizes@.len() + j]
                == #[trigger] matrix_entry(sizes@, pairs@, variant, i, j),
{
    let n: usize = sizes.len();
    let total: usize = pairs.len();
    let mut out: Vec<NcdRatio> = Vec::new();
    let mut i: usize = 0;
    proof {
        assert(0 * n == 0) by (nonlinear_arith);
    }
    while i < n
        invariant
            i <= n == sizes@.len(),
            total == pairs@.len() == n * n,
            out@.len() == i * n,
            forall|k: int|
                0 <= k < out@.len() ==> #[trigger] out@[k] == matrix_at(
                    sizes@,
                    pairs@,
                    variant,
                    k,
                ),
        decreases n - i,
    {
        let mut j: usize = 0;
        while j < n
            invariant
                i < n,
                j <= n == sizes@.len(),
                total == pairs@.len() == n * n,
                out@.len() == i * n + j,
                forall|k: int|
                    0 <= k < out@.len() ==> #[trigger] out@[k] == matrix_at(
                        sizes@,
                        pairs@,
                        variant,
                        k,
                    ),
            decreases n - j,
        {
            proof {
                lemma_cell(i as int, j as int, n as int);
                lemma_cell(j as int, i as int, n as int);
                assert(i * n <= n * n && j * n <= n * n) by (nonlinear_arith)
                    requires
                        0 <= i < n,
                        0 <= j < n,
                ;
            }
            let ratio = ncd_from_sizes(
                sizes[i],
                sizes[j],
                pairs[i * n + j],
                Some(pairs[j * n + i]),
                variant,
            );
            out.push(ratio);
            j += 1;
        }
        i += 1;
        proof {
            assert((i - 1) * n + n == i * n) by (nonlinear_arith);
        }
    }
    proof {
        assert forall|p: int, q: int| 0 <= p < n && 0 <= q < n implies out@[p * n + q]
            == #[trigger] matrix_entry(sizes@, pairs@, variant, p, q) by {
            lemma_cell(p, q, n as int);
            assert(out@[p * n + q] == matrix_at(sizes@, pairs@, variant, p * n + q));
        }
    }
    out
}

/// The matrix of a symmetric formula is symmetric.
pub proof fn law_matrix_symmetric(
    sizes: Seq<u64>,
    pairs: Seq<u64>,
    variant: NcdVariant,
    i: int,
    j: int,
)
    requires
        0 <= i < sizes.len(),
        0 <= j < sizes.len(),
    ensures
        variant.symmetric() ==> matrix_entry(sizes, pairs, variant, i, j) == matrix_entry(
            sizes,
            pairs,
            variant,
            j,
            i,
        ),
{
}

/// A cell of the matrix compares the two strings of its row and column: the pair in their order, or
/// the shorter of both orders where the formula is symmetric, with the smaller of their own sizes, over
/// the larger of them or over the pair.
pub proof fn law_matrix_cells(
    sizes: Seq<u64>,
    pairs: Seq<u64>,
    variant: NcdVariant,
    i: int,
    j: int,
)
    requires
        0 <= i < sizes.len(),
        0 <= j < sizes.len(),
        pairs.len() == sizes.len() * sizes.len(),
    ensures
        ({
            let n = sizes.len() as int;
            let cell = matrix_entry(sizes, pairs, variant, i, j);
            let there = pairs[i * n + j];
            let back = pairs[j * n + i];
            &&& variant is Vitanyi || variant is Cons ==> cell.whole == there
            &&& variant is SymVitanyi || variant is SymCons ==> cell.whole <= there && cell.whole <= back
                && (cell.whole == there || cell.whole == back)
            &&& cell.base <= sizes[i] && cell.base <= sizes[j] && (cell.base == sizes[i] || cell.base
                == sizes[j])
            &&& variant is Vitanyi || variant is SymVitanyi ==> cell.over >= sizes[i] && cell.over
                >= sizes[j] && (cell.over == sizes[i] || cell.over == sizes[j])
            &&& variant is Cons || variant is SymCons ==> cell.over == cell.whole
        }),
{
}

/// The pairs of `n` strings, each once: the pair behind `(i, j)`.
pub open spec fn pairs_of(n: int, i: int, j: int) -> Seq<(usize, usize)>
    decreases n - i, n - j,
{
    if i < 0 || i >= n {
        Seq::empty()
    } else if j >= n {
        pairs_of(n, i + 1, i + 2)
    } else {
        seq![(i as usize, j as usize)] + pairs_of(n, i, j + 1)
    }
}

proof fn lemma_pairs_of(n: int, i: int, j: int, k: int)
    requires
        0 <= i,
        i < j,
        n <= usize::MAX,
        0 <= k < pairs_of(n, i, j).len(),
    ensures
        ({
            let (a, b) = pairs_of(n, i, j)[k];
            i <= a < b < n && (a == i ==> j <= b)
        }),
    decreases n - i, n - j,
{
    if i < n {
        if j >= n {
            lemma_pairs_of(n, i + 1, i + 2, k);
        } else if k > 0 {
            lemma_pairs_of(n, i, j + 1, k - 1);
        }
    }
}

proof fn lemma_pairs_once(n: int, i: int, j: int, k: int, l: int)
    requires
        0 <= i,
        i < j,
        n <= usize::MAX,
        0 <= k < l < pairs_of(n, i, j).len(),
    ensures
        pairs_of(n, i, j)[k] != pairs_of(n, i, j)[l],
    decreases n - i, n - j,
{
    if i < n {
        if j >= n {
            lemma_pairs_once(n, i + 1, i + 2, k, l);
        } else {
            let rest = pairs_of(n, i, j + 1);
            assert(pairs_of(n, i, j)[l] == rest[l - 1]);
            if k > 0 {
                lemma_pairs_once(n, i, j + 1, k - 1, l - 1);
            } else {
                lemma_pairs_of(n, i, j + 1, l - 1);
            }
        }
    }
}

proof fn lemma_pairs_all(n: int, i: int, j: int, a: int, b: int)
    requires
        0 <= i <= a < b < n,
        i < j,
        a == i ==> j <= b,
        n <= usize::MAX,
    ensures
        pairs_of(n, i, j).contains((a as usize, b as usize)),
    decreases n - i, n - j,
{
    let list = pairs_of(n, i, j);
    if j >= n {
        lemma_pairs_all(n, i + 1, i + 2, a, b);
    } else if a == i && b == j {
        assert(list[0] == (a as usize, b as usize));
    } else {
        let rest = pairs_of(n, i, j + 1);
        lemma_pairs_all(n, i, j + 1, a, b);
        let k = choose|k: int| 0 <= k < rest.len() && rest[k] == (a as usize, b as usize);
        assert(list[k + 1] == rest[k]);
    }
}

/// The list of pairs holds each two different strings once, the one with the smaller number first,
/// and nothing else.
pub proof fn law_pairs_once(n: usize)
    ensures
        forall|a: usize, b: usize|
            pairs_of(n as int, 0, 1).contains((a, b)) <==> a < b && b < n,
        pairs_of(n as int, 0, 1).no_duplicates(),
{
    let list = pairs_of(n as int, 0, 1);
    assert forall|a: usize, b: usize| list.contains((a, b)) <==> a < b && b < n by {
        if list.contains((a, b)) {
            let k = choose|k: int| 0 <= k < list.len() && list[k] == (a, b);
            lemma_pairs_of(n as int, 0, 1, k);
        }
        if a < b && b < n {
            lemma_pairs_all(n as int, 0, 1, a as int, b as int);
        }
    }
    assert forall|k: int, l: int| 0 <= k < list.len() && 0 <= l < list.len() && k != l implies list[k]
        != list[l] by {
        if k < l {
            lemma_pairs_once(n as int, 0, 1, k, l);
        } else {
            lemma_pairs_once(n as int, 0, 1, l, k);
        }
    }
}

/// The pairs of `n` strings, each once.
pub fn unordered_pairs(n: usize) -> (list: Vec<(usize, usize)>)
    ensures
        list@ == pairs_of(n as int, 0, 1),
{
    let mut list: Vec<(usize, usize)> = Vec::new();
    let ghost goal = pairs_of(n as int, 0, 1);
    let mut i: usize = 0;
    proof {
        assert(list@ + pairs_of(n as int, 0, 1) =~= goal);
    }
    while i < n
        invariant
            i <= n,
            list@ + pairs_of(n as int, i as int, i + 1) == goal,
        decreases n - i,
    {
        let mut j: usize = i + 1;
        while j < n
            invariant
                i < n,
                i < j <= n,
                list@ + pairs_of(n as int, i as int, j as int) == goal,
            decreases n - j,
        {
            let ghost before = list@;
            list.push((i, j));
            proof {
                assert(list@ + pairs_of(n as int, i as int, j + 1) =~= before + (seq![(i, j)]
                    + pairs_of(n as int, i as int, j + 1)));
            }
            j += 1;
        }
        i += 1;
    }
    proof {
        assert(list@ + pairs_of(n as int, i as int, i + 1) =~= list@);
    }
    list
}

} // verus!
