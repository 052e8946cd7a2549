//! What the scan reports for each closed block.

use vstd::prelude::*;

verus! {

/// One closed block of a program: where it starts, and the registry entry
/// that its instructions match, if any.
#[derive(Debug, Clone, Copy, PartialEq, Eq, PartialOrd)]
pub struct BlockInfo {
    /// The index of the block's first instruction in the whole program.
    pub block_start_idx: usize,
    /// The index of this block in the registry, or `None` if the registry
    /// does not hold it.
    pub registry_idx: Option<usize>,
}

} // verus!
