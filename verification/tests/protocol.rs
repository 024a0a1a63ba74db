use accountable_safety::chain::Chain;
use accountable_safety::fault::Fault;
use accountable_safety::chain::ChainError;
use accountable_safety::block::Block;
use accountable_safety::chain::MAX_CHAIN_LENGTH;
use accountable_safety::protocol::{
    AccountableSafety, Equivocation, EquivocationDetected, NextQuery, QueryResponse,
};
use accountable_safety::voting::{Commit, Precommit, Prevote};

fn forked_chain() -> Chain {
    // 0 -> 1 -> 2 -> 3 -> 4
    //       \-> 5 -> 6 -> 7 -> 8
    Chain::new_from(&[(1, 0), (2, 1), (3, 2), (4, 3), (5, 1), (6, 5), (7, 6), (8, 7)]).unwrap()
}

fn owned(names: &[&str]) -> Vec<String> {
    names.iter().map(|name| name.to_string()).collect()
}

fn precommits(votes: &[(u32, &'static str)]) -> QueryResponse {
    QueryResponse::Precommits(votes.iter().map(|(n, id)| Precommit::new(*n, id)).collect())
}

fn prevotes(votes: &[(u32, &'static str)]) -> QueryResponse {
    QueryResponse::Prevotes(votes.iter().map(|(n, id)| Prevote::new(*n, id)).collect())
}

// Block 2 was finalized in round 2 by Alice, Bob and Carol.
fn run_about_block_two() -> AccountableSafety {
    AccountableSafety::start(
        2,
        2,
        Commit::new(
            2,
            vec![Precommit::new(2, "Alice"), Precommit::new(2, "Bob"), Precommit::new(2, "Carol")],
        ),
    )
}

fn alice_and_bob(first: u32, second: u32) -> Vec<Equivocation> {
    vec![
        Equivocation {
            voter: "Alice".to_string(),
            blocks: vec![first, second],
        },
        Equivocation {
            voter: "Bob".to_string(),
            blocks: vec![first, second],
        },
    ]
}

#[test]
fn a_query_round_asks_the_voters_about_the_block() {
    let mut run = run_about_block_two();
    let query = run.start_query_round(4, owned(&["Alice", "Bob", "Dave"]));
    assert_eq!(query.round, 4);
    assert_eq!(query.receivers, owned(&["Alice", "Bob", "Dave"]));
    assert_eq!(query.block_not_included, 2);
    assert_eq!(query.clone().receivers, query.receivers);
    assert!(run.equivocations_detected().is_empty());
}

#[test]
fn an_answer_to_no_question_is_a_failure() {
    let chain = forked_chain();
    let mut run = run_about_block_two();
    let reply = precommits(&[(1, "Alice")]);
    assert_eq!(
        run.add_response(4, "Alice".to_string(), reply.clone(), &chain).err(),
        Some(Fault::UnknownRound)
    );
    run.start_query_round(4, owned(&["Alice"]));
    assert_eq!(
        run.add_response(3, "Alice".to_string(), reply.clone(), &chain).err(),
        Some(Fault::UnknownRound)
    );
    assert_eq!(
        run.add_prevote_response(4, "Alice".to_string(), reply).err(),
        Some(Fault::UnknownRound)
    );
    assert!(run.equivocations_detected().is_empty());
}

#[test]
fn an_invalid_answer_is_recorded_and_leads_nowhere() {
    let chain = forked_chain();
    let mut run = run_about_block_two();
    run.start_query_round(4, owned(&["Alice", "Bob", "Dave"]));
    // All three support block 2: this shows no impossibility.
    let reply = precommits(&[(2, "Alice"), (3, "Bob"), (4, "Dave")]);
    let next = run.add_response(4, "Bob".to_string(), reply, &chain).unwrap();
    assert!(next.is_none());
    assert_eq!(
        run.equivocations_detected(),
        vec![EquivocationDetected::InvalidResponse("Bob".to_string())]
    );
    // An answer that names a voter twice is invalid too.
    let reply = precommits(&[(1, "Alice"), (5, "Alice")]);
    let next = run.add_response(4, "Dave".to_string(), reply, &chain).unwrap();
    assert!(next.is_none());
    assert_eq!(
        run.equivocations_detected(),
        vec![
            EquivocationDetected::InvalidResponse("Bob".to_string()),
            EquivocationDetected::InvalidResponse("Dave".to_string()),
        ]
    );
}

#[test]
fn a_valid_answer_leads_to_the_round_before_once() {
    let chain = forked_chain();
    let mut run = run_about_block_two();
    run.start_query_round(5, owned(&["Alice", "Bob", "Dave"]));
    let reply = precommits(&[(1, "Dave"), (1, "Alice"), (1, "Bob")]);
    let next = run.add_response(5, "Alice".to_string(), reply.clone(), &chain).unwrap();
    match next {
        Some(NextQuery::AskAboutRound(query)) => {
            assert_eq!(query.round, 4);
            assert_eq!(query.receivers, owned(&["Dave", "Alice", "Bob"]));
            assert_eq!(query.block_not_included, 2);
        }
        other => panic!("unexpected {:?}", other),
    }
    let next = run.add_response(5, "Bob".to_string(), reply, &chain).unwrap();
    assert!(next.is_none());
    assert!(run.equivocations_detected().is_empty());
}

#[test]
fn precommits_for_the_round_after_are_checked_against_the_commit() {
    let chain = forked_chain();
    let mut run = run_about_block_two();
    run.start_query_round(3, owned(&["Alice", "Bob", "Dave"]));
    let reply = precommits(&[(1, "Alice"), (1, "Bob"), (1, "Dave")]);
    let next = run.add_response(3, "Alice".to_string(), reply.clone(), &chain).unwrap();
    assert!(next.is_none());
    assert_eq!(
        run.equivocations_detected(),
        vec![EquivocationDetected::Precommit(alice_and_bob(1, 2))]
    );
    let next = run.add_response(3, "Dave".to_string(), reply, &chain).unwrap();
    assert!(next.is_none());
    assert_eq!(
        run.equivocations_detected(),
        vec![
            EquivocationDetected::Precommit(alice_and_bob(1, 2)),
            EquivocationDetected::Precommit(alice_and_bob(1, 2)),
        ]
    );
}

#[test]
fn finding_no_equivocation_at_the_last_step_is_a_failure() {
    let chain = forked_chain();
    let mut run = run_about_block_two();
    run.start_query_round(3, owned(&["Dave", "Eve", "Frank", "Grace"]));
    let reply = precommits(&[(1, "Dave"), (1, "Eve"), (1, "Frank"), (1, "Grace")]);
    assert_eq!(
        run.add_response(3, "Dave".to_string(), reply, &chain).err(),
        Some(Fault::NoEquivocationFound)
    );
    assert!(run.equivocations_detected().is_empty());
}

#[test]
fn prevotes_for_the_round_after_lead_to_the_signers_of_the_commit() {
    let chain = forked_chain();
    let mut run = run_about_block_two();
    run.start_query_round(3, owned(&["Alice", "Bob", "Dave"]));
    let reply = prevotes(&[(1, "Alice"), (1, "Bob"), (5, "Dave")]);
    for voter in ["Alice", "Bob"] {
        let next = run.add_response(3, voter.to_string(), reply.clone(), &chain).unwrap();
        match next {
            Some(NextQuery::PrevotesForRound(query)) => {
                assert_eq!(query.round, 2);
                assert_eq!(query.receivers, owned(&["Alice", "Bob", "Carol"]));
                assert_eq!(query.clone().round, 2);
            }
            other => panic!("unexpected {:?}", other),
        }
    }
    assert!(run.equivocations_detected().is_empty());

    // Carol saw the other prevotes of Alice and Bob.
    let seen = prevotes(&[(4, "Alice"), (4, "Bob"), (2, "Carol")]);
    assert_eq!(run.add_prevote_response(2, "Carol".to_string(), seen.clone()), Ok(()));
    assert_eq!(
        run.equivocations_detected(),
        vec![EquivocationDetected::Prevote(alice_and_bob(1, 4))]
    );
    // The same finding is not recorded twice.
    assert_eq!(run.add_prevote_response(2, "Alice".to_string(), seen), Ok(()));
    assert_eq!(
        run.equivocations_detected(),
        vec![EquivocationDetected::Prevote(alice_and_bob(1, 4))]
    );
    // Another finding is.
    let seen = prevotes(&[(3, "Alice"), (1, "Bob"), (2, "Carol")]);
    assert_eq!(run.add_prevote_response(2, "Bob".to_string(), seen), Ok(()));
    assert_eq!(
        run.equivocations_detected(),
        vec![
            EquivocationDetected::Prevote(alice_and_bob(1, 4)),
            EquivocationDetected::Prevote(vec![Equivocation {
                voter: "Alice".to_string(),
                blocks: vec![1, 3],
            }]),
        ]
    );
}

#[test]
fn answers_about_prevotes_must_be_prevotes_that_show_something() {
    let chain = forked_chain();
    let mut run = run_about_block_two();
    run.start_query_round(3, owned(&["Alice", "Bob", "Dave"]));
    let reply = prevotes(&[(1, "Alice"), (1, "Bob"), (5, "Dave")]);
    run.add_response(3, "Alice".to_string(), reply.clone(), &chain).unwrap();
    assert_eq!(
        run.add_prevote_response(2, "Carol".to_string(), precommits(&[(2, "Carol")])),
        Err(Fault::UnexpectedResponse)
    );
    assert_eq!(
        run.add_prevote_response(2, "Carol".to_string(), reply),
        Err(Fault::NoEquivocationFound)
    );
    assert_eq!(
        run.add_prevote_response(2, "Carol".to_string(), prevotes(&[])),
        Err(Fault::NoEquivocationFound)
    );
    assert!(run.equivocations_detected().is_empty());
}

#[test]
fn round_zero_has_no_round_before_it() {
    let chain = forked_chain();
    let mut run = AccountableSafety::start(2, 7, Commit::new(2, vec![Precommit::new(2, "Alice")]));
    run.start_query_round(0, owned(&["Alice"]));
    assert_eq!(
        run.add_response(0, "Alice".to_string(), precommits(&[(1, "Alice")]), &chain).err(),
        Some(Fault::NoEarlierRound)
    );
}

#[test]
fn a_ledger_too_deep_fails_the_answer() {
    let mut chain = Chain::new();
    for number in 1..=(MAX_CHAIN_LENGTH + 1) {
        chain.add_block(Block::new(number, number - 1)).unwrap();
    }
    let mut run = run_about_block_two();
    run.start_query_round(4, owned(&["Alice"]));
    let reply = precommits(&[(MAX_CHAIN_LENGTH + 1, "Alice")]);
    assert_eq!(
        run.add_response(4, "Alice".to_string(), reply, &chain).err(),
        Some(Fault::Ledger(ChainError::CycleDetected))
    );
    assert!(run.equivocations_detected().is_empty());
}

#[test]
fn what_was_detected_comes_in_ascending_order_of_the_rounds() {
    let chain = forked_chain();
    let mut run = run_about_block_two();
    run.start_query_round(5, owned(&["Alice", "Bob", "Dave"]));
    run.start_query_round(3, owned(&["Alice", "Bob", "Dave"]));
    run.start_query_round(4, owned(&["Alice", "Bob", "Dave"]));
    let invalid = precommits(&[(2, "Alice"), (2, "Bob"), (2, "Dave")]);
    run.add_response(5, "Eve".to_string(), invalid.clone(), &chain).unwrap();
    run.add_response(4, "Dave".to_string(), invalid.clone(), &chain).unwrap();
    let reply = precommits(&[(1, "Alice"), (1, "Bob"), (1, "Dave")]);
    run.add_response(3, "Alice".to_string(), reply, &chain).unwrap();
    run.add_response(4, "Bob".to_string(), invalid, &chain).unwrap();
    assert_eq!(
        run.equivocations_detected(),
        vec![
            EquivocationDetected::Precommit(alice_and_bob(1, 2)),
            EquivocationDetected::InvalidResponse("Dave".to_string()),
            EquivocationDetected::InvalidResponse("Bob".to_string()),
            EquivocationDetected::InvalidResponse("Eve".to_string()),
        ]
    );
    // Asking anew about a round forgets what was known of it.
    run.start_query_round(4, owned(&["Alice"]));
    assert_eq!(
        run.equivocations_detected(),
        vec![
            EquivocationDetected::Precommit(alice_and_bob(1, 2)),
            EquivocationDetected::InvalidResponse("Eve".to_string()),
        ]
    );
}

#[test]
fn what_was_detected_is_ordered_by_round_over_both_kinds_of_query() {
    let chain = forked_chain();
    // Block 2 was finalized in round 4 here, so that round 5 is the last step.
    let mut run = AccountableSafety::start(
        2,
        4,
        Commit::new(2, vec![Precommit::new(2, "Alice"), Precommit::new(2, "Carol")]),
    );
    run.start_query_round(6, owned(&["Alice", "Bob", "Dave"]));
    run.start_query_round(5, owned(&["Alice", "Bob", "Dave"]));
    run.start_query_round(3, owned(&["Alice", "Bob", "Dave"]));
    let invalid = precommits(&[(2, "Alice"), (2, "Bob"), (2, "Dave")]);
    run.add_response(6, "Eve".to_string(), invalid.clone(), &chain).unwrap();
    run.add_response(3, "Frank".to_string(), invalid.clone(), &chain).unwrap();
    // Prevotes about round 5 open the query about the prevotes of round 4.
    let reply = prevotes(&[(1, "Alice"), (1, "Bob"), (5, "Dave")]);
    let next = run.add_response(5, "Alice".to_string(), reply, &chain).unwrap();
    assert!(matches!(next, Some(NextQuery::PrevotesForRound(query)) if query.round == 4));
    run.add_response(5, "Grace".to_string(), invalid, &chain).unwrap();
    let seen = prevotes(&[(4, "Alice"), (4, "Bob"), (2, "Carol")]);
    assert_eq!(run.add_prevote_response(4, "Carol".to_string(), seen), Ok(()));
    assert_eq!(
        run.equivocations_detected(),
        vec![
            EquivocationDetected::InvalidResponse("Frank".to_string()),
            EquivocationDetected::Prevote(alice_and_bob(1, 4)),
            EquivocationDetected::InvalidResponse("Grace".to_string()),
            EquivocationDetected::InvalidResponse("Eve".to_string()),
        ]
    );
}

#[test]
fn query_response_lists_voters_and_targets() {
    let reply = prevotes(&[(4, "Bob"), (1, "Alice"), (2, "Bob"), (4, "Alice"), (7, "Carol")]);
    assert_eq!(reply.ids(), vec!["Bob", "Alice", "Bob", "Alice", "Carol"]);
    assert_eq!(reply.target_numbers(), vec![4, 1, 2, 4, 7]);
    // Each voter once, where it is first named.
    assert_eq!(reply.voters(), owned(&["Bob", "Alice", "Carol"]));
    let reply = precommits(&[(3, "Dave"), (3, "Dave")]);
    assert_eq!(reply.ids(), vec!["Dave", "Dave"]);
    assert_eq!(reply.target_numbers(), vec![3, 3]);
    assert_eq!(reply.voters(), owned(&["Dave"]));
    assert!(matches!(reply.clone(), QueryResponse::Precommits(votes) if votes.len() == 2));
}

#[test]
fn detections_compare_by_what_they_hold() {
    let found = EquivocationDetected::Prevote(alice_and_bob(1, 4));
    assert!(found.same_as(&found.clone()));
    assert_eq!(found.clone(), found);
    assert!(!found.same_as(&EquivocationDetected::Precommit(alice_and_bob(1, 4))));
    assert!(!found.same_as(&EquivocationDetected::Prevote(alice_and_bob(1, 5))));
    assert!(!found.same_as(&EquivocationDetected::Prevote(vec![])));
    let invalid = EquivocationDetected::InvalidResponse("Bob".to_string());
    assert!(invalid.same_as(&invalid.clone()));
    assert!(!invalid.same_as(&EquivocationDetected::InvalidResponse("Alice".to_string())));
    assert!(!invalid.same_as(&found));
    let one = Equivocation {
        voter: "Alice".to_string(),
        blocks: vec![1, 2],
    };
    assert!(one.same_as(&one.clone()));
    assert!(!one.same_as(&Equivocation {
        voter: "Alice".to_string(),
        blocks: vec![1, 2, 3],
    }));
}
