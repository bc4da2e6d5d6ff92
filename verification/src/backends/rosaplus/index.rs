//! Places in the tables of the model, as they are stored.

use vstd::prelude::*;

verus! {

/// Place of a state, as it is stored.
pub fn state_ix(idx: usize) -> (ix: i32)
    requires
        idx <= i32::MAX,
    ensures
        ix == idx,
{
    idx as i32
}

/// Place of a state.
pub fn state_usize(ix: i32) -> (idx: usize)
    requires
        ix >= 0,
    ensures
        idx == ix,
{
    ix as usize
}

/// Place of an edge, as it is stored.
pub fn edge_ix(idx: usize) -> (ix: u32)
    requires
        idx <= u32::MAX,
    ensures
        ix == idx,
{
    idx as u32
}

/// Place of an edge.
pub fn edge_usize(ix: u32) -> (idx: usize)
    ensures
        idx == ix,
{
    ix as usize
}

/// Place of a count, as it is stored.
pub fn node_ix(idx: usize) -> (ix: u32)
    requires
        idx <= u32::MAX,
    ensures
        ix == idx,
{
    idx as u32
}

/// Place of a count.
pub fn node_usize(ix: u32) -> (idx: usize)
    ensures
        idx == ix,
{
    ix as usize
}

} // verus!
