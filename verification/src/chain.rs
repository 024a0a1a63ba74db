//! The ledger: a tree of blocks rooted at genesis, and the record of which
//! blocks were finalized, in which round and by which certificate.

use std::collections::HashMap;
use vstd::prelude::*;
use crate::block::{Block, BlockNumber};
use crate::voting::{Commit, RoundNumber};

verus! {

broadcast use vstd::std_specs::hash::group_hash_axioms;

/// The longest parent chain that a traversal follows. A block that lies
/// deeper than this is taken as a sign of a corrupted ledger.
pub const MAX_CHAIN_LENGTH: u32 = 10000;

/// Why a ledger operation was refused.
#[derive(Clone, Copy, Debug, PartialEq, Eq, Structural)]
pub enum ChainError {
    /// The parent of the block to insert is not in the ledger.
    UnknownParent,
    /// A block of that number is in the ledger already.
    DuplicateBlock,
    /// The block has a certificate already.
    AlreadyFinalized,
    /// The certificate is for another block.
    TargetMismatch,
    /// A traversal took more than `MAX_CHAIN_LENGTH` steps.
    CycleDetected,
    /// The block is not in the ledger.
    UnknownBlock,
}

/// `rank` gives every block but genesis a parent in the ledger that ranks
/// strictly lower.
pub open spec fn ranked(blocks: Map<BlockNumber, Block>, rank: Map<BlockNumber, nat>) -> bool {
    forall|n: BlockNumber|
        #![trigger blocks[n]]
        blocks.contains_key(n) && n != 0 ==> {
            &&& blocks.contains_key(blocks[n].parent)
            &&& rank[blocks[n].parent] < rank[n]
        }
}

/// The blocks form a tree rooted at genesis: genesis is there, every block
/// is filed under its own number, and parent links lead down to genesis.
pub open spec fn is_tree(blocks: Map<BlockNumber, Block>) -> bool {
    &&& blocks.contains_key(0)
    &&& blocks[0] == Block::genesis()
    &&& forall|n: BlockNumber| #![trigger blocks[n]] blocks.contains_key(n) ==> blocks[n].number == n
    &&& exists|rank: Map<BlockNumber, nat>| ranked(blocks, rank)
}

/// Some ranking of a tree of blocks.
pub open spec fn a_rank(blocks: Map<BlockNumber, Block>) -> Map<BlockNumber, nat> {
    choose|rank: Map<BlockNumber, nat>| ranked(blocks, rank)
}

/// The blocks met when walking from `n` along parent links, `n` first, up to
/// but without genesis. Empty for genesis, for a block that is not in the
/// ledger, and where the blocks are no tree.
pub open spec fn parent_walk(blocks: Map<BlockNumber, Block>, n: BlockNumber) -> Seq<Block>
    decreases a_rank(blocks)[n],
    when is_tree(blocks) && blocks.contains_key(n)
{
    if n == 0 {
        Seq::empty()
    } else {
        seq![blocks[n]] + parent_walk(blocks, blocks[n].parent)
    }
}

/// The walk from `n`, or nothing where there is no walk to speak of.
pub open spec fn walk(blocks: Map<BlockNumber, Block>, n: BlockNumber) -> Seq<Block> {
    if is_tree(blocks) && blocks.contains_key(n) {
        parent_walk(blocks, n)
    } else {
        Seq::empty()
    }
}

/// The number of parent links between `n` and genesis.
pub open spec fn height(blocks: Map<BlockNumber, Block>, n: BlockNumber) -> nat {
    walk(blocks, n).len()
}

/// `ancestor` is the parent of `n` or of one of the blocks above it: it is
/// met after `n` itself when walking from `n` to genesis, genesis included.
pub open spec fn descends(
    blocks: Map<BlockNumber, Block>,
    n: BlockNumber,
    ancestor: BlockNumber,
) -> bool {
    exists|i: int| 0 <= i < walk(blocks, n).len() && #[trigger] walk(blocks, n)[i].parent == ancestor
}

/// The chain up to `ancestor` is part of the chain up to `n`.
pub open spec fn includes(
    blocks: Map<BlockNumber, Block>,
    n: BlockNumber,
    ancestor: BlockNumber,
) -> bool {
    n == ancestor || descends(blocks, n, ancestor)
}

/// A traversal from `n` would take more steps than are allowed.
pub open spec fn too_deep(blocks: Map<BlockNumber, Block>, n: BlockNumber) -> bool {
    height(blocks, n) > MAX_CHAIN_LENGTH
}

/// A walk starts with the block it starts from and goes on from its parent.
pub proof fn lemma_walk_step(blocks: Map<BlockNumber, Block>, n: BlockNumber)
    requires
        is_tree(blocks),
        blocks.contains_key(n),
        n != 0,
    ensures
        blocks.contains_key(blocks[n].parent),
        walk(blocks, n) == seq![blocks[n]] + walk(blocks, blocks[n].parent),
        height(blocks, n) == height(blocks, blocks[n].parent) + 1,
{
    assert(ranked(blocks, a_rank(blocks)));
}

/// Every block of a walk is in the ledger under its own number, is not
/// genesis, and ranks no higher than the block that the walk starts from.
proof fn lemma_walk_members(
    blocks: Map<BlockNumber, Block>,
    rank: Map<BlockNumber, nat>,
    n: BlockNumber,
    i: int,
)
    requires
        is_tree(blocks),
        ranked(blocks, rank),
        blocks.contains_key(n),
        0 <= i < walk(blocks, n).len(),
    ensures
        walk(blocks, n)[i].number != 0,
        blocks.contains_key(walk(blocks, n)[i].number),
        blocks[walk(blocks, n)[i].number] == walk(blocks, n)[i],
        blocks.contains_key(walk(blocks, n)[i].parent),
        rank[walk(blocks, n)[i].number] <= rank[n],
        rank[walk(blocks, n)[i].parent] < rank[n],
    decreases i,
{
    lemma_walk_step(blocks, n);
    if i > 0 {
        lemma_walk_members(blocks, rank, blocks[n].parent, i - 1);
    }
}

/// Adding a block under a known parent, with a number that is new, keeps
/// the tree, leaves every walk as it was, and gives the new block the walk
/// of its parent with itself in front.
pub proof fn lemma_insert_keeps_walks(blocks: Map<BlockNumber, Block>, block: Block)
    requires
        is_tree(blocks),
        blocks.contains_key(block.parent),
        !blocks.contains_key(block.number),
    ensures
        is_tree(blocks.insert(block.number, block)),
        forall|n: BlockNumber|
            blocks.contains_key(n) ==> #[trigger] walk(blocks.insert(block.number, block), n)
                == walk(blocks, n),
        walk(blocks.insert(block.number, block), block.number) == seq![block] + walk(
            blocks,
            block.parent,
        ),
{
    let rank = a_rank(blocks);
    let grown = blocks.insert(block.number, block);
    let grown_rank = rank.insert(block.number, rank[block.parent] + 1);
    assert(ranked(blocks, rank));
    assert(ranked(grown, grown_rank)) by {
        assert forall|n: BlockNumber| #![trigger grown[n]] grown.contains_key(n) && n != 0 implies {
            &&& grown.contains_key(grown[n].parent)
            &&& grown_rank[grown[n].parent] < grown_rank[n]
        } by {
            if n != block.number {
                assert(blocks.contains_key(blocks[n].parent));
            }
        }
    }
    assert(is_tree(grown));
    assert forall|n: BlockNumber| blocks.contains_key(n) implies #[trigger] walk(grown, n) == walk(
        blocks,
        n,
    ) by {
        lemma_insert_keeps_walk_of(blocks, block, n);
    }
    lemma_walk_step(grown, block.number);
}

/// Adding a block leaves the walk from a block that was there as it was.
proof fn lemma_insert_keeps_walk_of(
    blocks: Map<BlockNumber, Block>,
    block: Block,
    n: BlockNumber,
)
    requires
        is_tree(blocks),
        is_tree(blocks.insert(block.number, block)),
        blocks.contains_key(block.parent),
        !blocks.contains_key(block.number),
        blocks.contains_key(n),
    ensures
        walk(blocks.insert(block.number, block), n) == walk(blocks, n),
    decreases a_rank(blocks)[n],
{
    let grown = blocks.insert(block.number, block);
    assert(ranked(blocks, a_rank(blocks)));
    if n != 0 {
        lemma_walk_step(blocks, n);
        lemma_walk_step(grown, n);
        lemma_insert_keeps_walk_of(blocks, block, blocks[n].parent);
    }
}

/// The blocks from the child of genesis down to `n`, oldest first.
pub open spec fn chain_of_blocks(blocks: Map<BlockNumber, Block>, n: BlockNumber) -> Seq<Block> {
    walk(blocks, n).reverse()
}

/// What comes of inserting the blocks `more`, given as pairs of a number and
/// its parent's number, one after the other: the grown tree, or the reason
/// why the first block that could not be inserted was refused.
pub open spec fn grow(blocks: Map<BlockNumber, Block>, more: Seq<(BlockNumber, BlockNumber)>)
    -> Result<Map<BlockNumber, Block>, ChainError>
    decreases more.len(),
{
    if more.len() == 0 {
        Ok(blocks)
    } else {
        let block = Block { number: more[0].0, parent: more[0].1 };
        if !blocks.contains_key(block.parent) {
            Err(ChainError::UnknownParent)
        } else if blocks.contains_key(block.number) {
            Err(ChainError::DuplicateBlock)
        } else {
            grow(blocks.insert(block.number, block), more.drop_first())
        }
    }
}

/// The pairs list blocks that can be inserted one after the other: each has
/// a number that is neither in the ledger nor listed before, and a parent that
/// is in the ledger or listed before.
pub open spec fn insertable(
    blocks: Map<BlockNumber, Block>,
    more: Seq<(BlockNumber, BlockNumber)>,
) -> bool {
    forall|i: int|
        0 <= i < more.len() ==> {
            &&& !blocks.contains_key((#[trigger] more[i]).0)
            &&& forall|j: int| 0 <= j < i ==> more[j].0 != more[i].0
            &&& blocks.contains_key(more[i].1) || exists|j: int|
                0 <= j < i && more[j].0 == more[i].1
        }
}

/// A list of blocks that can be inserted one after the other is inserted
/// without a failure, and then every block of the list is in the ledger.
pub proof fn lemma_insertable_blocks_grow(
    blocks: Map<BlockNumber, Block>,
    more: Seq<(BlockNumber, BlockNumber)>,
)
    requires
        insertable(blocks, more),
    ensures
        grow(blocks, more) is Ok,
        forall|n: BlockNumber|
            blocks.contains_key(n) ==> #[trigger] grow(blocks, more)->Ok_0.contains_key(n),
        forall|i: int|
            0 <= i < more.len() ==> grow(blocks, more)->Ok_0.contains_key((#[trigger] more[i]).0),
    decreases more.len(),
{
    if more.len() > 0 {
        let first = Block { number: more[0].0, parent: more[0].1 };
        let rest = more.drop_first();
        let grown = blocks.insert(first.number, first);
        assert(!blocks.contains_key(more[0].0));
        assert(blocks.contains_key(more[0].1));
        assert forall|i: int| 0 <= i < rest.len() implies {
            &&& !grown.contains_key((#[trigger] rest[i]).0)
            &&& forall|j: int| 0 <= j < i ==> rest[j].0 != rest[i].0
            &&& grown.contains_key(rest[i].1) || exists|j: int|
                0 <= j < i && rest[j].0 == rest[i].1
        } by {
            assert(rest[i] == more[i + 1]);
            assert(!blocks.contains_key(more[i + 1].0));
            assert(more[0].0 != more[i + 1].0);
            assert forall|j: int| 0 <= j < i implies rest[j].0 != rest[i].0 by {
                assert(rest[j] == more[j + 1]);
            }
            if !blocks.contains_key(more[i + 1].1) {
                let j = choose|j: int| 0 <= j < i + 1 && more[j].0 == more[i + 1].1;
                if j > 0 {
                    assert(rest[j - 1] == more[j]);
                }
            }
        }
        lemma_insertable_blocks_grow(grown, rest);
        assert(grow(blocks, more) == grow(grown, rest));
        assert forall|n: BlockNumber| blocks.contains_key(n) implies #[trigger] grow(
            blocks,
            more,
        )->Ok_0.contains_key(n) by {
            assert(grown.contains_key(n));
        }
        assert forall|i: int| 0 <= i < more.len() implies grow(blocks, more)->Ok_0.contains_key(
            (#[trigger] more[i]).0,
        ) by {
            if i == 0 {
                assert(grown.contains_key(more[0].0));
            } else {
                assert(rest[i - 1] == more[i]);
            }
        }
    }
}

/// A block lies one parent link further from genesis than its parent.
pub proof fn lemma_height_is_one_more_than_parents(blocks: Map<BlockNumber, Block>, n: BlockNumber)
    requires
        is_tree(blocks),
        blocks.contains_key(n),
        n != 0,
    ensures
        height(blocks, n) == height(blocks, blocks[n].parent) + 1,
{
    lemma_walk_step(blocks, n);
}

/// Every block includes itself.
pub proof fn lemma_block_includes_itself(blocks: Map<BlockNumber, Block>, n: BlockNumber)
    ensures
        includes(blocks, n, n),
{
}

/// No block descends from itself.
pub proof fn lemma_no_block_descends_from_itself(blocks: Map<BlockNumber, Block>, n: BlockNumber)
    ensures
        !descends(blocks, n, n),
{
    if descends(blocks, n, n) {
        let i = choose|i: int| 0 <= i < walk(blocks, n).len() && #[trigger] walk(blocks, n)[i].parent
            == n;
        let rank = a_rank(blocks);
        assert(ranked(blocks, rank));
        lemma_walk_members(blocks, rank, n, i);
    }
}

/// The chain of blocks of `n`, read backwards, is the walk from `n` along
/// parent links up to, and without, genesis.
pub proof fn lemma_chain_of_blocks_reversed_is_walk(
    blocks: Map<BlockNumber, Block>,
    n: BlockNumber,
)
    ensures
        chain_of_blocks(blocks, n).reverse() == walk(blocks, n),
{
    assert(walk(blocks, n).reverse().reverse() =~= walk(blocks, n));
}

/// In a walk each block is the parent of the one before it, the first is the
/// block that the walk starts from, and the last is a child of genesis.
pub proof fn lemma_walk_follows_parents(blocks: Map<BlockNumber, Block>, n: BlockNumber)
    ensures
        walk(blocks, n).len() > 0 ==> walk(blocks, n)[0] == blocks[n] && walk(blocks, n).last().parent
            == 0,
        forall|i: int|
            0 <= i < walk(blocks, n).len() - 1 ==> (#[trigger] walk(blocks, n)[i]).parent == walk(
                blocks,
                n,
            )[i + 1].number,
    decreases height(blocks, n),
{
    if walk(blocks, n).len() > 0 {
        lemma_walk_step(blocks, n);
        let up = blocks[n].parent;
        lemma_walk_follows_parents(blocks, up);
        if walk(blocks, up).len() == 0 {
            assert(ranked(blocks, a_rank(blocks)));
            assert(up == 0);
        }
        assert forall|i: int| 0 <= i < walk(blocks, n).len() - 1 implies (#[trigger] walk(
            blocks,
            n,
        )[i]).parent == walk(blocks, n)[i + 1].number by {
            if i > 0 {
                assert(walk(blocks, n)[i] == walk(blocks, up)[i - 1]);
                assert(walk(blocks, n)[i + 1] == walk(blocks, up)[i]);
            }
        }
    }
}

/// The ledger of one participant.
#[derive(Debug, Clone)]
pub struct Chain {
    blocks: HashMap<BlockNumber, Block>,
    commits: HashMap<BlockNumber, Commit>,
    finalized_rounds: HashMap<BlockNumber, RoundNumber>,
    // The finalized blocks in the order in which they were finalized.
    finalized: Vec<BlockNumber>,
}

impl Chain {
    /// The blocks of the ledger, by number.
    pub closed spec fn blocks(&self) -> Map<BlockNumber, Block> {
        self.blocks@
    }

    /// The certificates of the finalized blocks, by block number.
    pub closed spec fn commits_map(&self) -> Map<BlockNumber, Commit> {
        self.commits@
    }

    /// The rounds in which the finalized blocks were finalized.
    pub closed spec fn rounds_map(&self) -> Map<BlockNumber, RoundNumber> {
        self.finalized_rounds@
    }

    /// The finalized blocks, in the order in which they were finalized.
    pub closed spec fn finalized_order(&self) -> Seq<BlockNumber> {
        self.finalized@
    }

    /// The ledger is well formed: its blocks are a tree rooted at genesis,
    /// and each finalized block has one certificate, which names it, and one
    /// round.
    pub open spec fn wf(&self) -> bool {
        &&& is_tree(self.blocks())
        &&& self.finalized_order().no_duplicates()
        &&& forall|n: BlockNumber|
            self.commits_map().contains_key(n) <==> self.finalized_order().contains(n)
        &&& forall|n: BlockNumber|
            self.rounds_map().contains_key(n) <==> self.finalized_order().contains(n)
        &&& forall|n: BlockNumber|
            #![trigger self.commits_map()[n]]
            self.commits_map().contains_key(n) ==> self.commits_map()[n].target_number == n
    }

    /// A ledger that holds genesis and nothing else.
    pub fn new() -> (chain: Self)
        ensures
            chain.wf(),
            chain.blocks() == Map::<BlockNumber, Block>::empty().insert(0, Block::genesis()),
            chain.commits_map() == Map::<BlockNumber, Commit>::empty(),
            chain.rounds_map() == Map::<BlockNumber, RoundNumber>::empty(),
            chain.finalized_order() == Seq::<BlockNumber>::empty(),
    {
        let mut blocks = HashMap::new();
        let genesis = Block { number: 0, parent: 0 };
        blocks.insert(genesis.number, genesis);
        let chain = Self {
            blocks,
            commits: HashMap::new(),
            finalized_rounds: HashMap::new(),
            finalized: Vec::new(),
        };
        proof {
            let rank = Map::<BlockNumber, nat>::empty();
            assert(ranked(chain.blocks(), rank));
        }
        chain
    }

    /// A ledger that holds genesis and the blocks `blocks`, given as pairs of
    /// a number and its parent's number and inserted one after the other.
    pub fn new_from(blocks: &[(BlockNumber, BlockNumber)]) -> (result: Result<Self, ChainError>)
        ensures
            insertable(
                Map::<BlockNumber, Block>::empty().insert(0, Block::genesis()),
                blocks@,
            ) ==> result is Ok,
            match result {
                Ok(chain) => {
                    &&& chain.wf()
                    &&& grow(Map::<BlockNumber, Block>::empty().insert(0, Block::genesis()), blocks@)
                        == Ok::<Map<BlockNumber, Block>, ChainError>(chain.blocks())
                    &&& chain.commits_map() == Map::<BlockNumber, Commit>::empty()
                    &&& chain.rounds_map() == Map::<BlockNumber, RoundNumber>::empty()
                    &&& chain.finalized_order() == Seq::<BlockNumber>::empty()
                },
                Err(e) => grow(
                    Map::<BlockNumber, Block>::empty().insert(0, Block::genesis()),
                    blocks@,
                ) == Err::<Map<BlockNumber, Block>, ChainError>(e),
            },
    {
        let mut chain = Chain::new();
        let ghost start = chain.blocks();
        proof {
            if insertable(start, blocks@) {
                lemma_insertable_blocks_grow(start, blocks@);
            }
        }
        let mut i: usize = 0;
        assert(blocks@.subrange(0, blocks@.len() as int) == blocks@);
        while i < blocks.len()
            invariant
                i <= blocks.len(),
                chain.wf(),
                start == Map::<BlockNumber, Block>::empty().insert(0, Block::genesis()),
                insertable(start, blocks@) ==> grow(start, blocks@) is Ok,
                chain.commits_map() == Map::<BlockNumber, Commit>::empty(),
                chain.rounds_map() == Map::<BlockNumber, RoundNumber>::empty(),
                chain.finalized_order() == Seq::<BlockNumber>::empty(),
                grow(start, blocks@) == grow(
                    chain.blocks(),
                    blocks@.subrange(i as int, blocks@.len() as int),
                ),
            decreases blocks.len() - i,
        {
            let ghost rest = blocks@.subrange(i as int, blocks@.len() as int);
            assert(rest[0] == blocks@[i as int]);
            assert(rest.drop_first() == blocks@.subrange(i + 1, blocks@.len() as int));
            let pair = blocks[i];
            assert(pair == rest[0]);
            match chain.add_block(Block::new(pair.0, pair.1)) {
                Ok(()) => {},
                Err(e) => {
                    return Err(e);
                },
            }
            i += 1;
        }
        assert(blocks@.subrange(i as int, blocks@.len() as int).len() == 0);
        Ok(chain)
    }

    /// Inserts a block whose parent is known and whose number is new.
    pub fn add_block(&mut self, block: Block) -> (result: Result<(), ChainError>)
        requires
            old(self).wf(),
        ensures
            final(self).wf(),
            final(self).commits_map() == old(self).commits_map(),
            final(self).rounds_map() == old(self).rounds_map(),
            final(self).finalized_order() == old(self).finalized_order(),
            !old(self).blocks().contains_key(block.parent) ==> result == Err::<(), ChainError>(
                ChainError::UnknownParent,
            ),
            old(self).blocks().contains_key(block.parent) && old(self).blocks().contains_key(
                block.number,
            ) ==> result == Err::<(), ChainError>(ChainError::DuplicateBlock),
            old(self).blocks().contains_key(block.parent) && !old(self).blocks().contains_key(
                block.number,
            ) ==> result == Ok::<(), ChainError>(()),
            result is Err ==> *final(self) == *old(self),
            result is Ok ==> final(self).blocks() == old(self).blocks().insert(block.number, block),
            result is Ok ==> height(final(self).blocks(), block.number) == height(
                final(self).blocks(),
                block.parent,
            ) + 1,
            result is Ok ==> forall|n: BlockNumber|
                old(self).blocks().contains_key(n) ==> #[trigger] walk(final(self).blocks(), n)
                    == walk(old(self).blocks(), n),
    {
        if !self.blocks.contains_key(&block.parent) {
            return Err(ChainError::UnknownParent);
        }
        if self.blocks.contains_key(&block.number) {
            return Err(ChainError::DuplicateBlock);
        }
        proof {
            lemma_insert_keeps_walks(self.blocks(), block);
        }
        self.blocks.insert(block.number, block);
        assert(self.blocks() == old(self).blocks().insert(block.number, block));
        assert(self.finalized_order() == old(self).finalized_order());
        assert(self.commits_map() == old(self).commits_map());
        Ok(())
    }

    /// Records that `block` was finalized in `round_number` by `commit`.
    pub fn finalize_block(
        &mut self,
        block: BlockNumber,
        round_number: RoundNumber,
        commit: Commit,
    ) -> (result: Result<(), ChainError>)
        requires
            old(self).wf(),
        ensures
            final(self).wf(),
            final(self).blocks() == old(self).blocks(),
            block != commit.target_number ==> result == Err::<(), ChainError>(
                ChainError::TargetMismatch,
            ),
            block == commit.target_number && old(self).commits_map().contains_key(block)
                ==> result == Err::<(), ChainError>(ChainError::AlreadyFinalized),
            block == commit.target_number && !old(self).commits_map().contains_key(block)
                ==> result == Ok::<(), ChainError>(()),
            result is Err ==> *final(self) == *old(self),
            result is Ok ==> {
                &&& final(self).commits_map() == old(self).commits_map().insert(block, commit)
                &&& final(self).rounds_map() == old(self).rounds_map().insert(block, round_number)
                &&& final(self).finalized_order() == old(self).finalized_order().push(block)
            },
    {
        if block != commit.target_number {
            return Err(ChainError::TargetMismatch);
        }
        if self.commits.contains_key(&block) {
            return Err(ChainError::AlreadyFinalized);
        }
        self.commits.insert(block, commit);
        self.finalized_rounds.insert(block, round_number);
        self.finalized.push(block);
        proof {
            let before = old(self).finalized_order();
            let after = self.finalized_order();
            assert(after == before.push(block));
            assert forall|n: BlockNumber| after.contains(n) <==> (before.contains(n) || n
                == block) by {
                if before.contains(n) {
                    let i = choose|i: int| 0 <= i < before.len() && before[i] == n;
                    assert(after[i] == n);
                }
                if n == block {
                    assert(after[before.len() as int] == n);
                }
            }
            assert(!before.contains(block));
            assert(after.no_duplicates());
        }
        Ok(())
    }

    /// The number of parent links between `block` and genesis.
    pub fn block_height(&self, block: BlockNumber) -> (result: Result<u32, ChainError>)
        requires
            self.wf(),
        ensures
            !self.blocks().contains_key(block) ==> result == Err::<u32, ChainError>(
                ChainError::UnknownBlock,
            ),
            self.blocks().contains_key(block) && too_deep(self.blocks(), block) ==> result
                == Err::<u32, ChainError>(ChainError::CycleDetected),
            self.blocks().contains_key(block) && !too_deep(self.blocks(), block) ==> result
                == Ok::<u32, ChainError>(height(self.blocks(), block) as u32),
    {
        let mut current: Block = match self.blocks.get(&block) {
            Some(b) => *b,
            None => {
                return Err(ChainError::UnknownBlock);
            },
        };
        let mut steps: u32 = 0;
        while current.number != 0
            invariant
                self.wf(),
                steps <= MAX_CHAIN_LENGTH,
                self.blocks().contains_key(current.number),
                self.blocks()[current.number] == current,
                height(self.blocks(), block) == steps + height(self.blocks(), current.number),
            decreases MAX_CHAIN_LENGTH - steps,
        {
            proof {
                lemma_walk_step(self.blocks(), current.number);
            }
            if steps == MAX_CHAIN_LENGTH {
                return Err(ChainError::CycleDetected);
            }
            current = match self.blocks.get(&current.parent) {
                Some(b) => *b,
                None => {
                    return Err(ChainError::CycleDetected);
                },
            };
            steps += 1;
        }
        Ok(steps)
    }

    /// Whether `ancestor` is met when walking from `block` to genesis,
    /// `block` itself left out. A block that the ledger does not know descends
    /// from nothing.
    pub fn is_descendent(&self, block: BlockNumber, ancestor: BlockNumber) -> (result: Result<
        bool,
        ChainError,
    >)
        requires
            self.wf(),
        ensures
            too_deep(self.blocks(), block) ==> result == Err::<bool, ChainError>(
                ChainError::CycleDetected,
            ),
            !too_deep(self.blocks(), block) ==> result == Ok::<bool, ChainError>(
                descends(self.blocks(), block, ancestor),
            ),
    {
        let mut current: Block = match self.blocks.get(&block) {
            Some(b) => *b,
            None => {
                return Ok(false);
            },
        };
        let mut steps: u32 = 0;
        let mut found = false;
        let ghost full = walk(self.blocks(), block);
        while current.number != 0
            invariant
                self.wf(),
                steps <= MAX_CHAIN_LENGTH,
                self.blocks().contains_key(current.number),
                self.blocks()[current.number] == current,
                full == walk(self.blocks(), block),
                steps <= full.len(),
                full.subrange(steps as int, full.len() as int) == walk(
                    self.blocks(),
                    current.number,
                ),
                found == exists|i: int| 0 <= i < steps && #[trigger] full[i].parent == ancestor,
            decreases MAX_CHAIN_LENGTH - steps,
        {
            proof {
                lemma_walk_step(self.blocks(), current.number);
            }
            if steps == MAX_CHAIN_LENGTH {
                return Err(ChainError::CycleDetected);
            }
            let ghost rest = full.subrange(steps as int, full.len() as int);
            assert(rest[0] == current);
            assert(full[steps as int] == current);
            assert(full.subrange(steps + 1, full.len() as int) == rest.subrange(
                1,
                rest.len() as int,
            ));
            assert(rest.subrange(1, rest.len() as int) == walk(self.blocks(), current.parent));
            if current.parent == ancestor {
                found = true;
            }
            current = match self.blocks.get(&current.parent) {
                Some(b) => *b,
                None => {
                    return Err(ChainError::CycleDetected);
                },
            };
            steps += 1;
        }
        assert(steps == full.len());
        Ok(found)
    }

    /// Whether the chain up to `ancestor` is part of the chain up to `block`:
    /// the two are the same block, or `block` descends from `ancestor`.
    pub fn block_includes(&self, block: BlockNumber, ancestor: BlockNumber) -> (result: Result<
        bool,
        ChainError,
    >)
        requires
            self.wf(),
        ensures
            block == ancestor ==> result == Ok::<bool, ChainError>(true),
            block != ancestor && too_deep(self.blocks(), block) ==> result == Err::<
                bool,
                ChainError,
            >(ChainError::CycleDetected),
            block != ancestor && !too_deep(self.blocks(), block) ==> result == Ok::<
                bool,
                ChainError,
            >(includes(self.blocks(), block, ancestor)),
    {
        if block == ancestor {
            Ok(true)
        } else {
            self.is_descendent(block, ancestor)
        }
    }

    /// The blocks from the child of genesis down to `block`, oldest first.
    /// Empty for genesis and for a block that the ledger does not know.
    pub fn get_chain_of_blocks(&self, block: BlockNumber) -> (result: Result<
        Vec<Block>,
        ChainError,
    >)
        requires
            self.wf(),
        ensures
            too_deep(self.blocks(), block) ==> result == Err::<Vec<Block>, ChainError>(
                ChainError::CycleDetected,
            ),
            !too_deep(self.blocks(), block) ==> result is Ok && result->Ok_0@ == chain_of_blocks(
                self.blocks(),
                block,
            ),
    {
        let mut current: Block = match self.blocks.get(&block) {
            Some(b) => *b,
            None => {
                return Ok(Vec::new());
            },
        };
        let mut youngest_first: Vec<Block> = Vec::new();
        let ghost full = walk(self.blocks(), block);
        while current.number != 0
            invariant
                self.wf(),
                youngest_first.len() <= MAX_CHAIN_LENGTH,
                self.blocks().contains_key(current.number),
                self.blocks()[current.number] == current,
                full == walk(self.blocks(), block),
                full == youngest_first@ + walk(self.blocks(), current.number),
            decreases MAX_CHAIN_LENGTH - youngest_first.len(),
        {
            proof {
                lemma_walk_step(self.blocks(), current.number);
            }
            if youngest_first.len() == MAX_CHAIN_LENGTH as usize {
                return Err(ChainError::CycleDetected);
            }
            let ghost before = youngest_first@;
            youngest_first.push(current);
            assert(before + (seq![current] + walk(self.blocks(), current.parent)) == (before.push(
                current,
            )) + walk(self.blocks(), current.parent));
            current = match self.blocks.get(&current.parent) {
                Some(b) => *b,
                None => {
                    return Err(ChainError::CycleDetected);
                },
            };
        }
        assert(full == youngest_first@);
        let mut oldest_first: Vec<Block> = Vec::new();
        let mut left: usize = youngest_first.len();
        while left > 0
            invariant
                left <= youngest_first.len(),
                oldest_first.len() == youngest_first.len() - left,
                forall|i: int|
                    0 <= i < oldest_first.len() ==> oldest_first[i] == youngest_first[
                        youngest_first.len() - 1 - i],
            decreases left,
        {
            left -= 1;
            oldest_first.push(youngest_first[left]);
        }
        assert(oldest_first@ == youngest_first@.reverse());
        Ok(oldest_first)
    }

    pub fn commit_for_block(&self, block: BlockNumber) -> (found: Option<&Commit>)
        ensures
            match found {
                Some(c) => self.commits_map().contains_key(block) && *c == self.commits_map()[block],
                None => !self.commits_map().contains_key(block),
            },
    {
        self.commits.get(&block)
    }

    /// The certificates of the finalized blocks, by block number.
    pub fn commits(&self) -> (all: &HashMap<BlockNumber, Commit>)
        ensures
            all@ == self.commits_map(),
    {
        &self.commits
    }

    /// The round in which `block` was finalized.
    pub fn finalized_round(&self, block: BlockNumber) -> (found: Option<&RoundNumber>)
        ensures
            match found {
                Some(r) => self.rounds_map().contains_key(block) && *r == self.rounds_map()[block],
                None => !self.rounds_map().contains_key(block),
            },
    {
        self.finalized_rounds.get(&block)
    }

    /// The finalized blocks, in the order in which they were finalized.
    pub fn finalized_blocks(&self) -> (order: &Vec<BlockNumber>)
        ensures
            order@ == self.finalized_order(),
    {
        &self.finalized
    }

    pub fn knows_about_block(&self, block: BlockNumber) -> (known: bool)
        ensures
            known == self.blocks().contains_key(block),
    {
        self.blocks.contains_key(&block)
    }

    pub fn get_block(&self, block: BlockNumber) -> (found: Option<&Block>)
        ensures
            match found {
                Some(b) => self.blocks().contains_key(block) && *b == self.blocks()[block],
                None => !self.blocks().contains_key(block),
            },
    {
        self.blocks.get(&block)
    }
}

impl Default for Chain {
    fn default() -> (chain: Self)
        ensures
            chain.wf(),
            chain.blocks() == Map::<BlockNumber, Block>::empty().insert(0, Block::genesis()),
            chain.commits_map() == Map::<BlockNumber, Commit>::empty(),
            chain.rounds_map() == Map::<BlockNumber, RoundNumber>::empty(),
            chain.finalized_order() == Seq::<BlockNumber>::empty(),
    {
        Self::new()
    }
}

} // verus!
