//! A directed relationship's identity in the frame graph.

use vstd::prelude::*;

verus! {

/// One directed relationship, named by the interned indices of its parent
/// and child frames in the store's frame table.
#[derive(Clone, Copy, PartialEq, Eq, Debug)]
pub struct TfGraphNode {
    pub parent: usize,
    pub child: usize,
}

} // verus!
