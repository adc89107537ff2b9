//! What a column of the columnar store records about each of its blocks.

use vstd::prelude::*;

verus! {

/// The entry of one block of a column.
#[derive(Debug, Clone, Copy, PartialEq, Eq, Structural)]
pub struct BlockEntry {
    /// Number of rows in the block.
    pub row_count: u32,
}

impl BlockEntry {
    /// Creates the entry of a block with the given number of rows.
    #[must_use]
    pub fn new(row_count: u32) -> (r: Self)
        ensures
            r == (BlockEntry { row_count }),
    {
        Self { row_count }
    }
}

} // verus!
