//! Parameters of a tree.

use vstd::prelude::*;

verus! {

/// Parameters that a tree is built with.
pub trait RTreeParams {
    /// The least number of children of an inner node.
    const MIN_SIZE: usize;
}

/// The parameters of a tree that does not choose its own.
pub struct DefaultParams;

impl RTreeParams for DefaultParams {
    const MIN_SIZE: usize = 3;
}

} // verus!
