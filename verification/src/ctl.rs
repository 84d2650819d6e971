//! Plain data carried on the control bus between node daemons; only the
//! position record is free of wire-encoding concerns and lives here.

use vstd::prelude::*;

verus! {

/// Information about a block's position and a transaction's position in it.
#[derive(Debug, Clone, Copy, PartialEq, Eq, Structural, Hash)]
pub struct BlockPos {
    /// Depth from the chain tip; always greater than 0.
    pub depth: u32,
    /// Height of the block containing the transaction.
    pub height: u32,
    /// The transaction's position within the block.
    pub pos: u32,
}

} // verus!
