//! How many places have a property.

use vstd::prelude::*;

verus! {

/// How many of the first `n` places have a property.
pub open spec fn places(n: int, has: spec_fn(int) -> bool) -> nat
    decreases n,
{
    if n <= 0 {
        0
    } else {
        places(n - 1, has) + if has(n - 1) {
            1nat
        } else {
            0
        }
    }
}

/// Two properties that the same places have are had by as many.
pub proof fn lemma_places_same(n: int, a: spec_fn(int) -> bool, b: spec_fn(int) -> bool)
    requires
        forall|i: int| 0 <= i < n ==> #[trigger] a(i) == b(i),
    ensures
        places(n, a) == places(n, b),
    decreases n,
{
    if n > 0 {
        lemma_places_same(n - 1, a, b);
        assert(a(n - 1) == b(n - 1));
    }
}

/// Places that have one of two properties, and none both, are as many as those of the one and those
/// of the other.
pub proof fn lemma_places_split(
    n: int,
    whole: spec_fn(int) -> bool,
    a: spec_fn(int) -> bool,
    b: spec_fn(int) -> bool,
)
    requires
        forall|i: int|
            0 <= i < n ==> #[trigger] whole(i) == (a(i) || b(i)) && !(a(i) && b(i)),
    ensures
        places(n, whole) == places(n, a) + places(n, b),
    decreases n,
{
    if n > 0 {
        lemma_places_split(n - 1, whole, a, b);
        assert(whole(n - 1) == (a(n - 1) || b(n - 1)));
    }
}

/// A property that no place has is had by none.
pub proof fn lemma_places_none(n: int, has: spec_fn(int) -> bool)
    requires
        forall|i: int| 0 <= i < n ==> !(#[trigger] has(i)),
    ensures
        places(n, has) == 0,
    decreases n,
{
    if n > 0 {
        lemma_places_none(n - 1, has);
    }
}

/// There are places with a property exactly where one has it.
pub proof fn lemma_places_some(n: int, has: spec_fn(int) -> bool)
    ensures
        places(n, has) > 0 <==> exists|i: int| 0 <= i < n && #[trigger] has(i),
    decreases n,
{
    if n > 0 {
        lemma_places_some(n - 1, has);
        if has(n - 1) {
        }
    }
}

} // verus!
