//! Values that copies share until one of them is changed.

use std::sync::Arc;
use vstd::prelude::*;

verus! {

/// Calls `std::sync::Arc::make_mut`: a mutable view of the value, which is first copied where others
/// share it.
#[verifier::external_body]
pub(crate) fn own_shared<T: Clone>(shared: &mut Arc<T>) -> (own: &mut T)
    ensures
        cloned::<T>(**old(shared), *own),
        **final(shared) == *final(own),
{
    Arc::make_mut(shared)
}

} // verus!
