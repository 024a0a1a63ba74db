//! Blocks of the ledger.

use vstd::prelude::*;

verus! {

pub type BlockNumber = u32;

/// A block, linked to its parent by number. The genesis block is its own
/// parent.
#[derive(Clone, Copy, Debug, PartialEq, Eq, Structural)]
pub struct Block {
    pub number: BlockNumber,
    pub parent: BlockNumber,
}

impl Block {
    pub fn new(number: BlockNumber, parent: BlockNumber) -> (block: Self)
        ensures
            block.number == number,
            block.parent == parent,
    {
        Self { number, parent }
    }

    /// The genesis block as the contracts see it.
    pub open spec fn genesis() -> Block {
        Block { number: 0, parent: 0 }
    }

    pub fn is_genesis(&self) -> (genesis: bool)
        ensures
            genesis == (*self == Block::genesis()),
    {
        self.number == 0 && self.parent == 0
    }
}

} // verus!
