use accountable_safety::block::Block;
use accountable_safety::chain::{Chain, ChainError, MAX_CHAIN_LENGTH};
use accountable_safety::voting::{Commit, Precommit};

fn create_test_chain() -> Chain {
    // 0 -> 1 -> 2 -> 3 -> 4
    //       \-> 5 -> 6 -> 7 -> 8
    let mut chain = Chain::new();
    chain.add_block(Block::new(1, 0)).unwrap();

    // First fork
    chain.add_block(Block::new(2, 1)).unwrap();
    chain.add_block(Block::new(3, 2)).unwrap();
    chain.add_block(Block::new(4, 3)).unwrap();

    // Second, longer, fork
    chain.add_block(Block::new(5, 1)).unwrap();
    chain.add_block(Block::new(6, 5)).unwrap();
    chain.add_block(Block::new(7, 6)).unwrap();
    chain.add_block(Block::new(8, 7)).unwrap();

    assert_eq!(chain.block_height(4), Ok(4));
    assert_eq!(chain.block_height(8), Ok(5));
    chain
}

#[test]
fn block_height() {
    let mut chain = Chain::new();
    chain.add_block(Block::new(1, 0)).unwrap();
    chain.add_block(Block::new(2, 1)).unwrap();
    chain.add_block(Block::new(3, 2)).unwrap();
    chain.add_block(Block::new(4, 3)).unwrap();

    assert_eq!(chain.block_height(4), Ok(4));
}

#[test]
fn fork_updates_head() {
    let mut chain = Chain::new();
    chain.add_block(Block::new(1, 0)).unwrap();
    chain.add_block(Block::new(2, 1)).unwrap();
    chain.add_block(Block::new(3, 2)).unwrap();
    chain.add_block(Block::new(4, 3)).unwrap();

    chain.add_block(Block::new(5, 1)).unwrap();
    chain.add_block(Block::new(6, 5)).unwrap();
    chain.add_block(Block::new(7, 6)).unwrap();
    chain.add_block(Block::new(8, 7)).unwrap();

    assert_eq!(chain.block_height(8), Ok(5));
}

#[test]
fn is_ancestor() {
    let chain = create_test_chain();

    assert!(!chain.is_descendent(1, 1).unwrap());
    assert!(!chain.is_descendent(2, 2).unwrap());
    assert!(!chain.is_descendent(3, 3).unwrap());
    assert!(!chain.is_descendent(4, 4).unwrap());

    assert!(chain.block_includes(1, 1).unwrap());
    assert!(chain.block_includes(2, 2).unwrap());
    assert!(chain.block_includes(3, 3).unwrap());
    assert!(chain.block_includes(4, 4).unwrap());

    assert!(chain.is_descendent(2, 1).unwrap());
    assert!(chain.is_descendent(3, 1).unwrap());
    assert!(chain.is_descendent(4, 1).unwrap());

    assert!(chain.block_includes(2, 1).unwrap());
    assert!(chain.block_includes(3, 1).unwrap());
    assert!(chain.block_includes(4, 1).unwrap());

    assert!(!chain.is_descendent(2, 5).unwrap());
    assert!(!chain.is_descendent(3, 5).unwrap());
    assert!(!chain.is_descendent(4, 5).unwrap());

    assert!(chain.is_descendent(5, 1).unwrap());
    assert!(chain.is_descendent(6, 1).unwrap());
    assert!(chain.is_descendent(7, 1).unwrap());
    assert!(chain.is_descendent(8, 1).unwrap());

    assert!(!chain.is_descendent(5, 2).unwrap());
    assert!(!chain.is_descendent(6, 2).unwrap());
    assert!(!chain.is_descendent(7, 2).unwrap());
    assert!(!chain.is_descendent(8, 2).unwrap());
}

#[test]
fn get_chain_of_blocks() {
    let chain = create_test_chain();
    assert_eq!(
        chain.get_chain_of_blocks(3),
        Ok(vec![
            Block {
                number: 1,
                parent: 0,
            },
            Block {
                number: 2,
                parent: 1,
            },
            Block {
                number: 3,
                parent: 2,
            },
        ])
    );
}

#[test]
fn genesis_is_there_from_the_start() {
    let chain = Chain::new();
    assert!(chain.knows_about_block(0));
    assert_eq!(chain.get_block(0), Some(&Block::new(0, 0)));
    assert!(Block::new(0, 0).is_genesis());
    assert!(!Block::new(1, 0).is_genesis());
    assert_eq!(chain.block_height(0), Ok(0));
    assert!(chain.commits().is_empty());
    assert!(chain.finalized_blocks().is_empty());
}

#[test]
fn add_block_refuses_unknown_parent_and_duplicates() {
    let mut chain = Chain::new();
    assert_eq!(chain.add_block(Block::new(2, 1)), Err(ChainError::UnknownParent));
    assert!(!chain.knows_about_block(2));
    assert_eq!(chain.add_block(Block::new(1, 0)), Ok(()));
    assert_eq!(chain.add_block(Block::new(1, 0)), Err(ChainError::DuplicateBlock));
    assert_eq!(chain.add_block(Block::new(0, 0)), Err(ChainError::DuplicateBlock));
    assert_eq!(chain.add_block(Block::new(5, 5)), Err(ChainError::UnknownParent));
    assert_eq!(chain.get_block(1), Some(&Block::new(1, 0)));
}

#[test]
fn height_is_one_more_than_the_parents() {
    let chain = create_test_chain();
    for number in 1..=8u32 {
        let parent = chain.get_block(number).unwrap().parent;
        assert_eq!(
            chain.block_height(number).unwrap(),
            chain.block_height(parent).unwrap() + 1
        );
    }
}

#[test]
fn unknown_blocks_have_no_height_and_no_chain() {
    let chain = create_test_chain();
    assert_eq!(chain.block_height(9), Err(ChainError::UnknownBlock));
    assert_eq!(chain.get_chain_of_blocks(9), Ok(vec![]));
    assert_eq!(chain.get_chain_of_blocks(0), Ok(vec![]));
    assert_eq!(chain.is_descendent(9, 1), Ok(false));
    assert_eq!(chain.block_includes(9, 9), Ok(true));
    assert_eq!(chain.block_includes(9, 1), Ok(false));
    assert_eq!(chain.is_descendent(0, 0), Ok(false));
    assert_eq!(chain.is_descendent(1, 0), Ok(true));
}

#[test]
fn chain_of_blocks_reversed_is_the_parent_walk() {
    let chain = create_test_chain();
    let mut blocks = chain.get_chain_of_blocks(8).unwrap();
    blocks.reverse();
    let mut walk = Vec::new();
    let mut at = 8;
    while at != 0 {
        let block = chain.get_block(at).unwrap().clone();
        at = block.parent;
        walk.push(block);
    }
    assert_eq!(blocks, walk);
    assert_eq!(walk.len(), 5);
}

#[test]
fn new_from_inserts_in_order() {
    let chain = Chain::new_from(&[(1, 0), (2, 1), (5, 1)]).unwrap();
    assert_eq!(chain.block_height(2), Ok(2));
    assert_eq!(chain.block_height(5), Ok(2));
    assert_eq!(
        Chain::new_from(&[(1, 0), (3, 2)]).err(),
        Some(ChainError::UnknownParent)
    );
    assert_eq!(
        Chain::new_from(&[(1, 0), (1, 0)]).err(),
        Some(ChainError::DuplicateBlock)
    );
}

#[test]
fn finalize_block_records_commit_and_round() {
    let mut chain = create_test_chain();
    let commit = Commit::new(2, vec![Precommit::new(2, "Alice"), Precommit::new(2, "Bob")]);
    assert_eq!(
        chain.finalize_block(3, 7, commit.clone()),
        Err(ChainError::TargetMismatch)
    );
    assert_eq!(chain.commit_for_block(2), None);
    assert_eq!(chain.finalize_block(2, 7, commit.clone()), Ok(()));
    assert_eq!(chain.commit_for_block(2), Some(&commit));
    assert_eq!(chain.finalized_round(2), Some(&7));
    assert_eq!(chain.finalized_round(3), None);
    assert_eq!(
        chain.finalize_block(2, 8, commit.clone()),
        Err(ChainError::AlreadyFinalized)
    );
    assert_eq!(chain.finalized_round(2), Some(&7));
    let later = Commit::new(8, vec![Precommit::new(8, "Dave")]);
    assert_eq!(chain.finalize_block(8, 9, later), Ok(()));
    assert_eq!(chain.finalized_blocks(), &vec![2, 8]);
    assert_eq!(chain.commits().len(), 2);
}

#[test]
fn traversals_stop_at_the_bound() {
    let mut chain = Chain::new();
    for number in 1..=(MAX_CHAIN_LENGTH + 1) {
        chain.add_block(Block::new(number, number - 1)).unwrap();
    }
    assert_eq!(chain.block_height(MAX_CHAIN_LENGTH), Ok(MAX_CHAIN_LENGTH));
    assert_eq!(chain.is_descendent(MAX_CHAIN_LENGTH, 1), Ok(true));
    assert_eq!(
        chain.get_chain_of_blocks(MAX_CHAIN_LENGTH).unwrap().len(),
        MAX_CHAIN_LENGTH as usize
    );
    let deep = MAX_CHAIN_LENGTH + 1;
    assert_eq!(chain.block_height(deep), Err(ChainError::CycleDetected));
    assert_eq!(chain.is_descendent(deep, 1), Err(ChainError::CycleDetected));
    assert_eq!(chain.block_includes(deep, 1), Err(ChainError::CycleDetected));
    assert_eq!(chain.block_includes(deep, deep), Ok(true));
    assert_eq!(chain.get_chain_of_blocks(deep), Err(ChainError::CycleDetected));
}
