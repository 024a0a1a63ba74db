use accountable_safety::action::Action;
use accountable_safety::block::Block;
use accountable_safety::chain::{Chain, ChainError, MAX_CHAIN_LENGTH};
use accountable_safety::fault::Fault;
use accountable_safety::message::{Message, Payload, Request, Response};
use accountable_safety::protocol::{
    Equivocation, EquivocationDetected, PrevoteQuery, Query, QueryResponse,
};
use accountable_safety::voter::{Behaviour, Voter, DELAY};
use accountable_safety::voting::{Commit, Precommit, Prevote, VoterSet, VotingRound, VotingRounds};

fn owned(names: &[&str]) -> Vec<String> {
    names.iter().map(|name| name.to_string()).collect()
}

fn precommits(votes: &[(u32, &'static str)]) -> Vec<Precommit> {
    votes.iter().map(|(n, id)| Precommit::new(*n, id)).collect()
}

fn prevotes(votes: &[(u32, &'static str)]) -> Vec<Prevote> {
    votes.iter().map(|(n, id)| Prevote::new(*n, id)).collect()
}

fn commit_for_two() -> Commit {
    Commit::new(2, precommits(&[(2, "Alice"), (2, "Bob"), (2, "Carol")]))
}

fn commit_for_eight() -> Commit {
    Commit::new(8, precommits(&[(8, "Alice"), (8, "Bob"), (8, "Dave"), (8, "Bob")]))
}

// Carol knows the first fork, and that block 1 and block 2 were finalized.
//
// 0 -> 1 -> 2 -> 3 -> 4
fn carol(behaviour: Option<Behaviour>) -> Voter {
    let voter_set = VoterSet::new(&["Alice", "Bob", "Carol", "Dave"]);
    let mut chain = Chain::new_from(&[(1, 0), (2, 1), (3, 2), (4, 3)]).unwrap();
    let mut rounds = VotingRounds::new();
    let mut round = VotingRound::new(1, voter_set.clone());
    round.prevote(&[(1, "Alice"), (1, "Bob"), (1, "Carol"), (1, "Dave")]).unwrap();
    round.precommit(&[(1, "Alice"), (1, "Bob"), (1, "Carol"), (1, "Dave")]).unwrap();
    chain.finalize_block(1, 1, Commit::new(1, round.precommits.clone())).unwrap();
    rounds.add(round);
    let mut round = VotingRound::new(2, voter_set.clone());
    round.prevote(&[(4, "Alice"), (4, "Bob"), (2, "Carol")]).unwrap();
    round.precommit(&[(2, "Alice"), (2, "Bob"), (2, "Carol")]).unwrap();
    chain.finalize_block(2, 2, commit_for_two()).unwrap();
    rounds.add(round);
    Voter::new("Carol".to_string(), chain, voter_set, rounds, behaviour)
}

// Alice has two records of round 2, one for each of her faces.
fn alice(behaviour: Option<Behaviour>) -> Voter {
    let voter_set = VoterSet::new(&["Alice", "Bob", "Carol", "Dave"]);
    let chain =
        Chain::new_from(&[(1, 0), (2, 1), (3, 2), (4, 3), (5, 1), (6, 5), (7, 6), (8, 7)]).unwrap();
    let mut rounds = VotingRounds::new();
    let mut round = VotingRound::new_with_tag(2, voter_set.clone(), 0);
    round.prevote(&[(4, "Alice"), (4, "Bob"), (2, "Carol")]).unwrap();
    round.precommit(&[(2, "Alice"), (2, "Bob"), (2, "Carol")]).unwrap();
    rounds.add(round);
    let mut round = VotingRound::new_with_tag(2, voter_set.clone(), 1);
    round.prevote(&[(1, "Alice"), (1, "Bob"), (5, "Dave")]).unwrap();
    round.precommit(&[(1, "Alice"), (1, "Bob"), (1, "Dave")]).unwrap();
    rounds.add(round);
    Voter::new("Alice".to_string(), chain, voter_set, rounds, behaviour)
}

fn second_fork() -> Vec<Block> {
    vec![
        Block::new(1, 0),
        Block::new(5, 1),
        Block::new(6, 5),
        Block::new(7, 6),
        Block::new(8, 7),
    ]
}

fn state_of(voter: &Voter) -> String {
    let mut blocks: Vec<u32> = (0..20).filter(|n| voter.chain.knows_about_block(*n)).collect();
    blocks.sort();
    format!(
        "{:?} {:?} {:?} {:?} {:?}",
        blocks,
        voter.chain.finalized_blocks(),
        voter.actions,
        voter.accountable_safety,
        voter.equivocations_detected()
    )
}

#[test]
fn a_new_voter_has_resolved_nothing() {
    let voter = carol(None);
    assert_eq!(voter.id, "Carol");
    assert!(voter.actions.is_empty());
    assert!(voter.accountable_safety.is_empty());
    assert!(voter.behaviour.is_none());
    assert_eq!(voter.commits().len(), 2);
    assert_eq!(voter.commits().get(&2), Some(&commit_for_two()));
    assert!(voter.equivocations_detected().is_empty());
}

#[test]
fn add_actions_appends() {
    let mut voter = carol(None);
    voter.add_actions(vec![(10, Action::BroadcastCommits)]);
    voter.add_actions(vec![(5, Action::SendBlock("Dave".to_string(), 2)), (7, Action::BroadcastCommits)]);
    assert_eq!(voter.actions.len(), 3);
    assert_eq!(voter.actions[0].0, 10);
    assert!(matches!(voter.actions[0].1, Action::BroadcastCommits));
    assert_eq!(voter.actions[1].0, 5);
    assert!(matches!(&voter.actions[1].1, Action::SendBlock(to, 2) if to == "Dave"));
    assert_eq!(voter.actions[2].0, 7);
}

#[test]
fn a_known_commit_changes_nothing() {
    let mut voter = carol(None);
    let before = state_of(&voter);
    let request = Request::HereIsCommit(2, commit_for_two());
    let answers = voter.handle_request(("Dave".to_string(), request.clone()), 3).unwrap();
    assert!(answers.is_empty());
    assert_eq!(state_of(&voter), before);
    let answers = voter.handle_request(("Dave".to_string(), request), 4).unwrap();
    assert!(answers.is_empty());
    assert_eq!(state_of(&voter), before);
}

#[test]
fn a_commit_that_differs_from_the_known_one_is_a_failure() {
    let mut voter = carol(None);
    let before = state_of(&voter);
    let other = Commit::new(2, precommits(&[(2, "Alice"), (2, "Bob"), (2, "Dave")]));
    let result = voter.handle_request(("Dave".to_string(), Request::HereIsCommit(2, other)), 3);
    assert_eq!(result.err(), Some(Fault::CommitMismatch));
    assert_eq!(state_of(&voter), before);
}

#[test]
fn a_commit_for_an_unknown_block_waits_for_the_block() {
    let mut voter = carol(None);
    let request = Request::HereIsCommit(4, commit_for_eight());
    let answers = voter.handle_request(("Dave".to_string(), request), 30).unwrap();
    assert_eq!(answers.len(), 1);
    assert_eq!(answers[0].0, "Dave");
    assert!(matches!(answers[0].1, Response::RequestBlock(8)));
    assert_eq!(voter.actions.len(), 1);
    assert_eq!(voter.actions[0].0, 30 + DELAY);
    assert!(matches!(
        &voter.actions[0].1,
        Action::RequeueRequest((from, Request::HereIsCommit(4, commit)))
            if from == "Dave" && *commit == commit_for_eight()
    ));
    assert!(voter.accountable_safety.is_empty());

    // While the block is unknown the request is put off.
    let messages = voter.process_actions(40).unwrap();
    assert!(messages.is_empty());
    assert_eq!(voter.actions.len(), 1);
    assert_eq!(voter.actions[0].0, 40 + DELAY);

    // Once the block is known the request comes back as a message to itself.
    let answers = voter
        .handle_request(("Dave".to_string(), Request::HereAreBlocks(second_fork())), 41)
        .unwrap();
    assert!(answers.is_empty());
    let messages = voter.process_actions(49).unwrap();
    assert!(messages.is_empty());
    let messages = voter.process_actions(50).unwrap();
    assert_eq!(messages.len(), 1);
    assert_eq!(messages[0].sender, "Dave");
    assert_eq!(messages[0].receiver, "Carol");
    assert!(matches!(
        &messages[0].content,
        Payload::Request(Request::HereIsCommit(4, commit)) if *commit == commit_for_eight()
    ));
    assert!(voter.actions.is_empty());
}

#[test]
fn a_conflicting_commit_starts_the_protocol() {
    let mut voter = carol(None);
    voter.handle_request(("Dave".to_string(), Request::HereAreBlocks(second_fork())), 1).unwrap();
    let request = Request::HereIsCommit(4, commit_for_eight());
    let answers = voter.handle_request(("Dave".to_string(), request), 30).unwrap();
    assert!(answers.is_empty());
    // Block 1 is an ancestor of block 8; block 2 is on the other fork.
    assert_eq!(voter.accountable_safety.len(), 1);
    assert_eq!(voter.actions.len(), 1);
    assert_eq!(voter.actions[0].0, 40);
    match &voter.actions[0].1 {
        Action::AskVotersAboutEstimate(query) => {
            assert_eq!(query.round, 4);
            assert_eq!(query.block_not_included, 2);
            assert_eq!(query.receivers, owned(&["Alice", "Bob", "Dave"]));
        }
        other => panic!("unexpected {:?}", other),
    }
    let messages = voter.process_actions(40).unwrap();
    assert_eq!(messages.len(), 3);
    for (message, receiver) in messages.iter().zip(["Alice", "Bob", "Dave"]) {
        assert_eq!(message.sender, "Carol");
        assert_eq!(message.receiver, receiver);
        assert!(matches!(
            message.content,
            Payload::Request(Request::WhyDidEstimateForRoundNotIncludeBlock(4, 2))
        ));
    }
    assert!(voter.actions.is_empty());
}

#[test]
fn a_commit_on_the_same_fork_is_recorded_and_starts_nothing() {
    let mut voter = carol(None);
    let commit = Commit::new(4, precommits(&[(4, "Alice"), (4, "Bob"), (4, "Carol")]));
    let request = Request::HereIsCommit(3, commit.clone());
    let answers = voter.handle_request(("Dave".to_string(), request.clone()), 30).unwrap();
    assert!(answers.is_empty());
    assert!(voter.actions.is_empty());
    assert!(voter.accountable_safety.is_empty());
    assert_eq!(voter.chain.finalized_blocks(), &vec![1, 2, 4]);
    assert_eq!(voter.chain.commit_for_block(4), Some(&commit));
    assert_eq!(voter.chain.finalized_round(4), Some(&3));
    let after_first = state_of(&voter);
    let answers = voter.handle_request(("Dave".to_string(), request), 31).unwrap();
    assert!(answers.is_empty());
    assert_eq!(state_of(&voter), after_first);
}

#[test]
fn a_conflicting_commit_delivered_twice_starts_the_protocol_once() {
    let mut voter = carol(None);
    voter.handle_request(("Dave".to_string(), Request::HereAreBlocks(second_fork())), 1).unwrap();
    let request = Request::HereIsCommit(4, commit_for_eight());
    let answers = voter.handle_request(("Dave".to_string(), request.clone()), 30).unwrap();
    assert!(answers.is_empty());
    assert_eq!(voter.accountable_safety.len(), 1);
    assert_eq!(voter.actions.len(), 1);
    // The certificate is on record now.
    assert_eq!(voter.chain.commit_for_block(8), Some(&commit_for_eight()));
    assert_eq!(voter.chain.finalized_round(8), Some(&4));
    assert_eq!(voter.chain.finalized_blocks(), &vec![1, 2, 8]);
    let after_first = state_of(&voter);
    for tick in [30, 31, usize::MAX] {
        let answers = voter.handle_request(("Dave".to_string(), request.clone()), tick).unwrap();
        assert!(answers.is_empty());
        assert_eq!(voter.accountable_safety.len(), 1);
        assert_eq!(voter.actions.len(), 1);
        assert_eq!(state_of(&voter), after_first);
    }
    // Another certificate for the same block is a failure.
    let other = Commit::new(8, precommits(&[(8, "Dave")]));
    assert_eq!(
        voter.handle_request(("Dave".to_string(), Request::HereIsCommit(4, other)), 32).err(),
        Some(Fault::CommitMismatch)
    );
    assert_eq!(state_of(&voter), after_first);
}

#[test]
fn nothing_can_be_put_off_from_the_last_ticks() {
    let late = usize::MAX - DELAY + 1;
    let mut voter = carol(None);
    let before = state_of(&voter);
    // A certificate that is not on record needs room, whatever comes of it.
    let request = Request::HereIsCommit(4, commit_for_eight());
    assert_eq!(
        voter.handle_request(("Dave".to_string(), request.clone()), late).err(),
        Some(Fault::OutOfTicks)
    );
    assert_eq!(
        voter.handle_response(("Dave".to_string(), Response::RequestBlock(2)), late),
        Err(Fault::OutOfTicks)
    );
    let reply = QueryResponse::Precommits(precommits(&[(1, "Alice")]));
    assert_eq!(
        voter.handle_response(("Dave".to_string(), Response::ExplainEstimate(4, reply)), late),
        Err(Fault::OutOfTicks)
    );
    assert_eq!(state_of(&voter), before);
    // One tick earlier there is room.
    let answers = voter.handle_request(("Dave".to_string(), request.clone()), late - 1).unwrap();
    assert_eq!(answers.len(), 1);
    assert_eq!(voter.actions.len(), 1);
    assert_eq!(voter.actions[0].0, usize::MAX);
    // The request that waits cannot be put off again.
    let waiting = state_of(&voter);
    assert_eq!(voter.process_actions(usize::MAX).err(), Some(Fault::OutOfTicks));
    assert_eq!(state_of(&voter), waiting);
    // Blocks and questions need no room.
    assert!(voter
        .handle_request(("Dave".to_string(), Request::HereAreBlocks(second_fork())), usize::MAX)
        .unwrap()
        .is_empty());
    assert_eq!(
        voter
            .handle_request(("Dave".to_string(), Request::WhichPrevotesSeenInRound(2)), usize::MAX)
            .unwrap()
            .len(),
        1
    );
    let messages = voter.process_actions(usize::MAX).unwrap();
    assert_eq!(messages.len(), 1);
}

#[test]
fn blocks_delivered_twice_change_nothing_the_second_time() {
    let mut voter = carol(None);
    let request = Request::HereAreBlocks(second_fork());
    let answers = voter.handle_request(("Dave".to_string(), request.clone()), 1).unwrap();
    assert!(answers.is_empty());
    assert_eq!(voter.chain.block_height(8), Ok(5));
    assert_eq!(voter.chain.get_block(5), Some(&Block::new(5, 1)));
    let after_first = state_of(&voter);
    let answers = voter.handle_request(("Dave".to_string(), request), 2).unwrap();
    assert!(answers.is_empty());
    assert_eq!(state_of(&voter), after_first);
}

#[test]
fn a_block_that_differs_from_the_known_one_is_a_failure() {
    let mut voter = carol(None);
    let blocks = vec![Block::new(5, 1), Block::new(3, 1), Block::new(6, 5)];
    let result = voter.handle_request(("Dave".to_string(), Request::HereAreBlocks(blocks.clone())), 1);
    assert_eq!(result.err(), Some(Fault::BlockMismatch));
    // The blocks before the failure were taken in, those behind it were not.
    assert!(voter.chain.knows_about_block(5));
    assert!(!voter.chain.knows_about_block(6));
    assert_eq!(voter.chain.get_block(3), Some(&Block::new(3, 2)));
    let after_first = state_of(&voter);
    let result = voter.handle_request(("Dave".to_string(), Request::HereAreBlocks(blocks)), 2);
    assert_eq!(result.err(), Some(Fault::BlockMismatch));
    assert_eq!(state_of(&voter), after_first);
}

#[test]
fn a_block_without_its_parent_is_a_failure() {
    let mut voter = carol(None);
    let blocks = vec![Block::new(6, 5)];
    let result = voter.handle_request(("Dave".to_string(), Request::HereAreBlocks(blocks)), 1);
    assert_eq!(result.err(), Some(Fault::Ledger(ChainError::UnknownParent)));
    assert!(!voter.chain.knows_about_block(6));
}

#[test]
fn the_estimate_is_explained_by_the_one_valid_record() {
    let mut voter = alice(None);
    let request = Request::WhyDidEstimateForRoundNotIncludeBlock(3, 2);
    let answers = voter.handle_request(("Carol".to_string(), request.clone()), 40).unwrap();
    assert_eq!(answers.len(), 1);
    assert_eq!(answers[0].0, "Carol");
    match &answers[0].1 {
        Response::ExplainEstimate(3, QueryResponse::Precommits(votes)) => {
            assert_eq!(votes, &precommits(&[(1, "Alice"), (1, "Bob"), (1, "Dave")]));
        }
        other => panic!("unexpected {:?}", other),
    }
    assert!(voter.actions.is_empty());

    let mut voter = alice(Some(Behaviour::ReturnPrecommits));
    let answers = voter.handle_request(("Carol".to_string(), request.clone()), 40).unwrap();
    assert!(matches!(
        &answers[0].1,
        Response::ExplainEstimate(3, QueryResponse::Precommits(votes)) if votes.len() == 3
    ));

    let mut voter = alice(Some(Behaviour::ReturnPrevotes));
    let answers = voter.handle_request(("Carol".to_string(), request), 40).unwrap();
    match &answers[0].1 {
        Response::ExplainEstimate(3, QueryResponse::Prevotes(votes)) => {
            assert_eq!(votes, &prevotes(&[(1, "Alice"), (1, "Bob"), (5, "Dave")]));
        }
        other => panic!("unexpected {:?}", other),
    }
}

#[test]
fn the_estimate_cannot_be_explained_without_one_valid_record() {
    let mut voter = alice(None);
    // No record of round 4.
    let request = Request::WhyDidEstimateForRoundNotIncludeBlock(5, 2);
    assert_eq!(
        voter.handle_request(("Carol".to_string(), request), 40).err(),
        Some(Fault::NoVotesRecorded)
    );
    // Round 0 has no round before it.
    let request = Request::WhyDidEstimateForRoundNotIncludeBlock(0, 2);
    assert_eq!(
        voter.handle_request(("Carol".to_string(), request), 40).err(),
        Some(Fault::NoEarlierRound)
    );
    // Both records of round 2 show that block 8 had no supermajority.
    let request = Request::WhyDidEstimateForRoundNotIncludeBlock(3, 8);
    assert_eq!(
        voter.handle_request(("Carol".to_string(), request), 40).err(),
        Some(Fault::AmbiguousEstimate)
    );
    // Neither shows it of block 1.
    let request = Request::WhyDidEstimateForRoundNotIncludeBlock(3, 1);
    assert_eq!(
        voter.handle_request(("Carol".to_string(), request), 40).err(),
        Some(Fault::AmbiguousEstimate)
    );
}

#[test]
fn the_prevotes_seen_are_those_of_all_records() {
    let mut voter = alice(None);
    let answers = voter
        .handle_request(("Carol".to_string(), Request::WhichPrevotesSeenInRound(2)), 60)
        .unwrap();
    assert_eq!(answers.len(), 1);
    assert_eq!(answers[0].0, "Carol");
    match &answers[0].1 {
        Response::PrevotesSeen(2, QueryResponse::Prevotes(votes)) => {
            assert_eq!(
                votes,
                &prevotes(&[
                    (4, "Alice"),
                    (4, "Bob"),
                    (2, "Carol"),
                    (1, "Alice"),
                    (1, "Bob"),
                    (5, "Dave")
                ])
            );
        }
        other => panic!("unexpected {:?}", other),
    }
    let answers = voter
        .handle_request(("Carol".to_string(), Request::WhichPrevotesSeenInRound(9)), 60)
        .unwrap();
    assert!(matches!(
        &answers[0].1,
        Response::PrevotesSeen(9, QueryResponse::Prevotes(votes)) if votes.is_empty()
    ));
}

#[test]
fn a_request_for_a_block_is_answered_later() {
    let mut voter = alice(None);
    assert_eq!(
        voter.handle_response(("Carol".to_string(), Response::RequestBlock(8)), 10),
        Ok(())
    );
    assert_eq!(voter.actions.len(), 1);
    assert_eq!(voter.actions[0].0, 20);
    assert!(matches!(&voter.actions[0].1, Action::SendBlock(to, 8) if to == "Carol"));
    assert!(voter.process_actions(19).unwrap().is_empty());
    let messages = voter.process_actions(20).unwrap();
    assert_eq!(messages.len(), 1);
    assert_eq!(messages[0].sender, "Alice");
    assert_eq!(messages[0].receiver, "Carol");
    assert!(matches!(
        &messages[0].content,
        Payload::Request(Request::HereAreBlocks(blocks)) if *blocks == second_fork()
    ));
    assert!(voter.actions.is_empty());
}

#[test]
fn the_chain_of_an_unknown_block_is_not_sent() {
    let mut voter = alice(None);
    voter.add_actions(vec![
        (1, Action::SendBlock("Carol".to_string(), 9)),
        (1, Action::SendBlock("Carol".to_string(), 0)),
    ]);
    assert!(voter.process_actions(1).unwrap().is_empty());
    assert!(voter.actions.is_empty());
}

#[test]
fn answers_need_a_run_of_the_protocol() {
    let mut voter = carol(None);
    let reply = QueryResponse::Precommits(precommits(&[(1, "Alice")]));
    assert_eq!(
        voter.handle_response(("Alice".to_string(), Response::ExplainEstimate(4, reply.clone())), 40),
        Err(Fault::NoActiveInstance)
    );
    assert_eq!(
        voter.handle_response(("Alice".to_string(), Response::PrevotesSeen(4, reply)), 40),
        Err(Fault::NoActiveInstance)
    );
    assert!(voter.actions.is_empty());
}

#[test]
fn answers_drive_the_first_run() {
    let mut voter = carol(None);
    voter.handle_request(("Dave".to_string(), Request::HereAreBlocks(second_fork())), 1).unwrap();
    voter
        .handle_request(("Dave".to_string(), Request::HereIsCommit(4, commit_for_eight())), 30)
        .unwrap();
    voter.process_actions(40).unwrap();

    // An answer for a round that was not asked about.
    let reply = QueryResponse::Precommits(precommits(&[(1, "Alice"), (1, "Bob"), (1, "Dave")]));
    assert_eq!(
        voter.handle_response(("Alice".to_string(), Response::ExplainEstimate(7, reply.clone())), 40),
        Err(Fault::UnknownRound)
    );

    // The first answer about round 4 leads to round 3.
    assert_eq!(
        voter.handle_response(("Alice".to_string(), Response::ExplainEstimate(4, reply.clone())), 40),
        Ok(())
    );
    assert_eq!(voter.actions.len(), 1);
    assert_eq!(voter.actions[0].0, 50);
    assert!(matches!(
        &voter.actions[0].1,
        Action::AskVotersAboutEstimate(Query { round: 3, block_not_included: 2, receivers })
            if *receivers == owned(&["Alice", "Bob", "Dave"])
    ));
    // The second does not.
    assert_eq!(
        voter.handle_response(("Bob".to_string(), Response::ExplainEstimate(4, reply.clone())), 40),
        Ok(())
    );
    assert_eq!(voter.actions.len(), 1);
    voter.process_actions(50).unwrap();

    // Precommits about round 3 are checked against the commit for block 2.
    assert_eq!(
        voter.handle_response(("Alice".to_string(), Response::ExplainEstimate(3, reply)), 50),
        Ok(())
    );
    assert!(voter.actions.is_empty());
    let found = vec![
        Equivocation {
            voter: "Alice".to_string(),
            blocks: vec![1, 2],
        },
        Equivocation {
            voter: "Bob".to_string(),
            blocks: vec![1, 2],
        },
    ];
    assert_eq!(voter.equivocations_detected(), vec![EquivocationDetected::Precommit(found)]);

    // Prevotes about round 3 lead to the signers of that commit.
    let reply = QueryResponse::Prevotes(prevotes(&[(1, "Alice"), (1, "Bob"), (5, "Dave")]));
    assert_eq!(
        voter.handle_response(("Bob".to_string(), Response::ExplainEstimate(3, reply)), 50),
        Ok(())
    );
    assert_eq!(voter.actions.len(), 1);
    assert_eq!(voter.actions[0].0, 60);
    assert!(matches!(
        &voter.actions[0].1,
        Action::AskVotersWhichPrevotesSeen(PrevoteQuery { round: 2, receivers })
            if *receivers == owned(&["Alice", "Bob", "Carol"])
    ));
    let messages = voter.process_actions(60).unwrap();
    assert_eq!(messages.len(), 3);
    for (message, receiver) in messages.iter().zip(["Alice", "Bob", "Carol"]) {
        assert_eq!(message.sender, "Carol");
        assert_eq!(message.receiver, receiver);
        assert!(matches!(
            message.content,
            Payload::Request(Request::WhichPrevotesSeenInRound(2))
        ));
    }
    let seen = QueryResponse::Prevotes(prevotes(&[(4, "Alice"), (4, "Bob"), (2, "Carol")]));
    assert_eq!(
        voter.handle_response(("Carol".to_string(), Response::PrevotesSeen(2, seen)), 60),
        Ok(())
    );
    // What was found about round 2 comes before what was found about round 3.
    assert_eq!(voter.equivocations_detected().len(), 2);
    assert!(matches!(
        &voter.equivocations_detected()[0],
        EquivocationDetected::Prevote(found) if found.len() == 2 && found[0].blocks == vec![1, 4]
    ));
    assert!(matches!(
        &voter.equivocations_detected()[1],
        EquivocationDetected::Precommit(found) if found.len() == 2 && found[0].blocks == vec![1, 2]
    ));
}

#[test]
fn broadcast_sends_every_commit_to_every_other_voter() {
    let mut voter = carol(None);
    voter.add_actions(vec![(10, Action::BroadcastCommits), (11, Action::BroadcastCommits)]);
    assert!(voter.process_actions(9).unwrap().is_empty());
    let messages = voter.process_actions(10).unwrap();
    assert_eq!(voter.actions.len(), 1);
    assert_eq!(voter.actions[0].0, 11);
    let sent: Vec<(String, u64, u32)> = messages
        .iter()
        .map(|message: &Message| match &message.content {
            Payload::Request(Request::HereIsCommit(round, commit)) => {
                assert_eq!(message.sender, "Carol");
                assert_eq!(voter.commits().get(&commit.target_number), Some(commit));
                (message.receiver.clone(), *round, commit.target_number)
            }
            other => panic!("unexpected {:?}", other),
        })
        .collect();
    assert_eq!(
        sent,
        vec![
            ("Alice".to_string(), 1, 1),
            ("Alice".to_string(), 2, 2),
            ("Bob".to_string(), 1, 1),
            ("Bob".to_string(), 2, 2),
            ("Dave".to_string(), 1, 1),
            ("Dave".to_string(), 2, 2),
        ]
    );
}

#[test]
fn a_failing_action_leaves_the_queue_as_it_was() {
    let voter_set = VoterSet::new(&["Alice"]);
    let mut chain = Chain::new();
    for number in 1..=(MAX_CHAIN_LENGTH + 1) {
        chain.add_block(Block::new(number, number - 1)).unwrap();
    }
    let mut voter = Voter::new("Alice".to_string(), chain, voter_set, VotingRounds::new(), None);
    voter.add_actions(vec![
        (1, Action::SendBlock("Bob".to_string(), 3)),
        (9, Action::BroadcastCommits),
        (1, Action::SendBlock("Bob".to_string(), MAX_CHAIN_LENGTH + 1)),
    ]);
    assert_eq!(
        voter.process_actions(5).err(),
        Some(Fault::Ledger(ChainError::CycleDetected))
    );
    assert_eq!(voter.actions.len(), 3);
    assert_eq!(voter.actions[0].0, 1);
    assert!(matches!(&voter.actions[2].1, Action::SendBlock(_, n) if *n == MAX_CHAIN_LENGTH + 1));
}
