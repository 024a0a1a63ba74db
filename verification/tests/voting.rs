use accountable_safety::block::Block;
use accountable_safety::chain::{Chain, ChainError, MAX_CHAIN_LENGTH};
use accountable_safety::fault::Fault;
use accountable_safety::protocol::{Equivocation, QueryResponse};
use accountable_safety::voting::{
    check_query_reply_is_valid, copy_votes, cross_check_votes, names_of, Commit, Precommit,
    Prevote, Vote, VoterSet, VotingRound, VotingRounds,
};

#[test]
fn cross_check_votes_without_equivocations() {
    let precommits = vec![
        Precommit {
            target_number: 1,
            id: "Alice",
        },
        Precommit {
            target_number: 1,
            id: "Bob",
        },
    ];
    let commit = Commit {
        target_number: 1,
        precommits: vec![
            Precommit {
                target_number: 1,
                id: "Alice",
            },
            Precommit {
                target_number: 1,
                id: "Bob",
            },
        ],
    };
    assert_eq!(cross_check_votes(precommits, commit.precommits), None);
}

#[test]
fn cross_check_votes_with_equivocations() {
    let precommits = vec![
        Precommit {
            target_number: 1,
            id: "Alice",
        },
        Precommit {
            target_number: 1,
            id: "Bob",
        },
    ];
    let commit = Commit {
        target_number: 1,
        precommits: vec![
            Precommit {
                target_number: 2,
                id: "Alice",
            },
            Precommit {
                target_number: 1,
                id: "Bob",
            },
        ],
    };
    assert_eq!(
        cross_check_votes(precommits, commit.precommits),
        Some(vec![Equivocation {
            voter: "Alice".to_string(),
            blocks: vec![1, 2],
        }]),
    )
}

#[test]
fn cross_check_votes_with_no_shared_voter_finds_nothing() {
    let first = vec![Prevote::new(1, "Alice"), Prevote::new(2, "Bob")];
    let second = vec![Prevote::new(3, "Carol"), Prevote::new(4, "Dave")];
    assert_eq!(cross_check_votes(first, second), None);
    assert_eq!(cross_check_votes(Vec::<Prevote>::new(), Vec::new()), None);
}

#[test]
fn cross_check_votes_lists_each_equivocator_once_and_sorted() {
    let first = vec![
        Prevote::new(7, "Dave"),
        Prevote::new(9, "Bob"),
        Prevote::new(4, "Alice"),
        Prevote::new(3, "Carol"),
    ];
    let second = vec![
        Prevote::new(2, "Bob"),
        Prevote::new(4, "Alice"),
        Prevote::new(5, "Bob"),
        Prevote::new(9, "Bob"),
        Prevote::new(1, "Dave"),
    ];
    assert_eq!(
        cross_check_votes(first, second),
        Some(vec![
            Equivocation {
                voter: "Bob".to_string(),
                blocks: vec![2, 5, 9],
            },
            Equivocation {
                voter: "Dave".to_string(),
                blocks: vec![1, 7],
            },
        ])
    );
}

#[test]
fn cross_check_votes_orders_voters_as_strings_are_ordered() {
    let names = ["bob", "Zoë", "", "Bob", "alice", "Zoe", "Al", "Alice"];
    let first: Vec<Prevote> = names.iter().map(|name| Prevote::new(1, name)).collect();
    let second: Vec<Prevote> = names.iter().map(|name| Prevote::new(2, name)).collect();
    let found = cross_check_votes(first, second).unwrap();
    let mut sorted: Vec<String> = names.iter().map(|name| name.to_string()).collect();
    sorted.sort();
    assert_eq!(found.iter().map(|e| e.voter.clone()).collect::<Vec<_>>(), sorted);
    assert!(found.iter().all(|e| e.blocks == vec![1, 2]));
}

#[test]
fn cross_check_votes_finds_a_voter_who_votes_twice_in_one_set() {
    let first = vec![Precommit::new(2, "Alice"), Precommit::new(1, "Alice")];
    assert_eq!(
        cross_check_votes(first, Vec::new()),
        Some(vec![Equivocation {
            voter: "Alice".to_string(),
            blocks: vec![1, 2],
        }])
    );
}

fn forked_chain() -> Chain {
    // 0 -> 1 -> 2 -> 3 -> 4
    //       \-> 5 -> 6 -> 7 -> 8
    Chain::new_from(&[(1, 0), (2, 1), (3, 2), (4, 3), (5, 1), (6, 5), (7, 6), (8, 7)]).unwrap()
}

fn owned(names: &[&str]) -> Vec<String> {
    names.iter().map(|name| name.to_string()).collect()
}

fn precommits(votes: &[(u32, &'static str)]) -> QueryResponse {
    QueryResponse::Precommits(votes.iter().map(|(n, id)| Precommit::new(*n, id)).collect())
}

fn prevotes(votes: &[(u32, &'static str)]) -> QueryResponse {
    QueryResponse::Prevotes(votes.iter().map(|(n, id)| Prevote::new(*n, id)).collect())
}

#[test]
fn a_reply_is_valid_if_a_supermajority_is_impossible() {
    let chain = forked_chain();
    let four = owned(&["Alice", "Bob", "Carol", "Dave"]);
    // Three votes for blocks that include block 2, one voter absent:
    // 3 * (3 + 1) = 12 > 2 * 4.
    let reply = precommits(&[(2, "Alice"), (4, "Bob"), (3, "Carol")]);
    assert_eq!(check_query_reply_is_valid(&reply, 2, &four, &chain), Ok(false));
    // No vote for a block that includes block 2, one voter absent:
    // 3 * (0 + 1) = 3 <= 8.
    let reply = precommits(&[(1, "Alice"), (1, "Bob"), (5, "Dave")]);
    assert_eq!(check_query_reply_is_valid(&reply, 2, &four, &chain), Ok(true));
    // Two votes in favour, nobody absent: 3 * 2 = 6 <= 8.
    let reply = prevotes(&[(2, "Alice"), (3, "Bob"), (5, "Carol"), (8, "Dave")]);
    assert_eq!(check_query_reply_is_valid(&reply, 2, &four, &chain), Ok(true));
    // Two votes in favour, one absent: 3 * 3 = 9 > 8.
    let reply = prevotes(&[(2, "Alice"), (3, "Bob"), (5, "Carol")]);
    assert_eq!(check_query_reply_is_valid(&reply, 2, &four, &chain), Ok(false));
}

#[test]
fn validity_is_on_the_boundary_at_two_thirds() {
    let chain = forked_chain();
    let three = owned(&["Alice", "Bob", "Carol"]);
    // 3 * (2 + 0) = 6 <= 2 * 3: two thirds are no supermajority.
    let reply = precommits(&[(2, "Alice"), (2, "Bob"), (1, "Carol")]);
    assert_eq!(check_query_reply_is_valid(&reply, 2, &three, &chain), Ok(true));
    // 3 * (1 + 1) = 6 <= 6.
    let reply = precommits(&[(2, "Alice"), (1, "Carol")]);
    assert_eq!(check_query_reply_is_valid(&reply, 2, &three, &chain), Ok(true));
    // 3 * (3 + 0) = 9 > 6.
    let reply = precommits(&[(2, "Alice"), (2, "Bob"), (2, "Carol")]);
    assert_eq!(check_query_reply_is_valid(&reply, 2, &three, &chain), Ok(false));
    // Nobody answered: 3 * (0 + 3) = 9 > 6.
    let reply = precommits(&[]);
    assert_eq!(check_query_reply_is_valid(&reply, 2, &three, &chain), Ok(false));
    // Nobody was asked: 0 <= 0.
    assert_eq!(check_query_reply_is_valid(&reply, 2, &[], &chain), Ok(true));
}

#[test]
fn more_support_or_absence_never_makes_a_reply_valid() {
    let chain = forked_chain();
    let voters = owned(&["Alice", "Bob", "Carol", "Dave", "Eve", "Frank"]);
    let names = ["Alice", "Bob", "Carol", "Dave", "Eve", "Frank"];
    // With six voters a reply is valid up to four votes in favour or absent.
    for present in 0..=6usize {
        let mut last = true;
        for in_favour in 0..=present {
            let votes: Vec<(u32, &'static str)> = (0..present)
                .map(|i| (if i < in_favour { 3 } else { 5 }, names[i]))
                .collect();
            let absent = 6 - present;
            let valid = check_query_reply_is_valid(&precommits(&votes), 2, &voters, &chain);
            assert_eq!(valid, Ok(3 * (in_favour + absent) <= 12));
            // Once invalid, more support does not bring validity back.
            assert!(last || !valid.unwrap());
            last = valid.unwrap();
        }
    }
}

#[test]
fn voters_asked_twice_count_once() {
    let chain = forked_chain();
    let voters = owned(&["Alice", "Bob", "Alice", "Carol", "Bob"]);
    // Three voters, two of them absent: 3 * (1 + 2) = 9 > 6.
    let reply = precommits(&[(2, "Alice")]);
    assert_eq!(check_query_reply_is_valid(&reply, 2, &voters, &chain), Ok(false));
    // 3 * (0 + 2) = 6 <= 6.
    let reply = precommits(&[(5, "Alice")]);
    assert_eq!(check_query_reply_is_valid(&reply, 2, &voters, &chain), Ok(true));
    // One absent: 3 * (1 + 1) = 6 <= 6.
    let reply = precommits(&[(2, "Alice"), (1, "Carol")]);
    assert_eq!(check_query_reply_is_valid(&reply, 2, &voters, &chain), Ok(true));
}

#[test]
fn the_absent_are_the_voters_less_the_voters_named() {
    let chain = forked_chain();
    let three = owned(&["Alice", "Bob", "Carol"]);
    // Two are named, one of them a stranger: one absent, 3 * (1 + 1) = 6 <= 6.
    let reply = precommits(&[(2, "Alice"), (1, "Mallory")]);
    assert_eq!(check_query_reply_is_valid(&reply, 2, &three, &chain), Ok(true));
    // A stranger's vote counts in favour like any other: 3 * (2 + 1) = 9 > 6.
    let reply = precommits(&[(2, "Alice"), (3, "Mallory")]);
    assert_eq!(check_query_reply_is_valid(&reply, 2, &three, &chain), Ok(false));
    // More are named than there are voters: 3 * (2 - 1) = 3 <= 6.
    let reply = precommits(&[(2, "Alice"), (3, "Mallory"), (5, "Eve"), (5, "Trent")]);
    assert_eq!(check_query_reply_is_valid(&reply, 2, &three, &chain), Ok(true));
    // Nobody was asked, one vote in favour: 3 * (1 - 1) = 0 <= 0.
    let reply = precommits(&[(2, "Alice")]);
    assert_eq!(check_query_reply_is_valid(&reply, 2, &[], &chain), Ok(true));
}

#[test]
fn a_reply_that_names_a_voter_twice_is_invalid() {
    let chain = forked_chain();
    let four = owned(&["Alice", "Bob", "Carol", "Dave"]);
    let reply = precommits(&[(1, "Alice"), (1, "Bob"), (5, "Alice"), (1, "Dave")]);
    assert_eq!(check_query_reply_is_valid(&reply, 2, &four, &chain), Ok(false));
    let reply = precommits(&[(1, "Alice"), (1, "Alice")]);
    assert_eq!(check_query_reply_is_valid(&reply, 2, &four, &chain), Ok(false));
}

#[test]
fn a_vote_for_an_unknown_block_supports_only_that_block() {
    let chain = forked_chain();
    let three = owned(&["Alice", "Bob", "Carol"]);
    let reply = precommits(&[(9, "Alice"), (9, "Bob"), (9, "Carol")]);
    assert_eq!(check_query_reply_is_valid(&reply, 2, &three, &chain), Ok(true));
    assert_eq!(check_query_reply_is_valid(&reply, 9, &three, &chain), Ok(false));
}

#[test]
fn checking_a_reply_fails_where_the_ledger_is_too_deep() {
    let mut chain = Chain::new();
    for number in 1..=(MAX_CHAIN_LENGTH + 1) {
        chain.add_block(Block::new(number, number - 1)).unwrap();
    }
    let voters = owned(&["Alice"]);
    let deep = MAX_CHAIN_LENGTH + 1;
    let reply = precommits(&[(deep, "Alice")]);
    assert_eq!(
        check_query_reply_is_valid(&reply, 1, &voters, &chain),
        Err(ChainError::CycleDetected)
    );
    assert_eq!(check_query_reply_is_valid(&reply, deep, &voters, &chain), Ok(false));
    let twice = precommits(&[(deep, "Alice"), (deep, "Alice")]);
    assert_eq!(check_query_reply_is_valid(&twice, 1, &voters, &chain), Ok(false));
}

#[test]
fn voter_set_holds_each_voter_once() {
    let set = VoterSet::new(&["Bob", "Alice", "Bob", "Carol", "Alice"]);
    assert_eq!(set.voter_ids(), owned(&["Bob", "Alice", "Carol"]));
    assert!(set.is_member("Alice"));
    assert!(set.is_member("Carol"));
    assert!(!set.is_member("Dave"));
    assert!(!VoterSet::new(&[]).is_member("Alice"));
    assert_eq!(VoterSet::new(&[]).voter_ids(), owned(&[]));
}

#[test]
fn voting_round_records_votes_of_members_only() {
    let set = VoterSet::new(&["Alice", "Bob"]);
    let mut round = VotingRound::new(3, set.clone());
    assert_eq!(round.round_number, 3);
    assert_eq!(round.tag, 0);
    assert_eq!(round.finalized, None);
    assert_eq!(round.prevote(&[(1, "Alice")]), Ok(()));
    assert_eq!(round.prevote(&[(2, "Bob"), (2, "Alice")]), Ok(()));
    assert_eq!(
        round.prevotes,
        vec![Prevote::new(1, "Alice"), Prevote::new(2, "Bob"), Prevote::new(2, "Alice")]
    );
    assert_eq!(round.prevote(&[(4, "Bob"), (4, "Carol")]), Err(Fault::NotAMember));
    assert_eq!(round.prevotes.len(), 3);
    assert_eq!(round.precommit(&[(4, "Carol")]), Err(Fault::NotAMember));
    assert!(round.precommits.is_empty());
    assert_eq!(round.precommit(&[(4, "Bob")]), Ok(()));
    assert_eq!(round.precommits, vec![Precommit::new(4, "Bob")]);
    assert_eq!(round.prevotes.len(), 3);
    let tagged = VotingRound::new_with_tag(3, set, 7);
    assert_eq!(tagged.tag, 7);
    assert_eq!(tagged.round_number, 3);
    assert!(tagged.prevotes.is_empty());
}

#[test]
fn voting_rounds_keep_every_record_of_a_round() {
    let set = VoterSet::new(&["Alice", "Bob"]);
    let mut rounds = VotingRounds::new();
    assert!(rounds.get(&2).is_none());
    rounds.add(VotingRound::new_with_tag(2, set.clone(), 0));
    rounds.add(VotingRound::new_with_tag(3, set.clone(), 0));
    rounds.add(VotingRound::new_with_tag(2, set.clone(), 1));
    let records = rounds.get(&2).unwrap();
    assert_eq!(records.len(), 2);
    assert_eq!(records[0].tag, 0);
    assert_eq!(records[1].tag, 1);
    assert_eq!(rounds.get(&3).unwrap().len(), 1);
    assert!(rounds.get(&4).is_none());
    assert!(VotingRounds::default().get(&2).is_none());
}

#[test]
fn extend_replaces_the_records_of_shared_rounds() {
    let set = VoterSet::new(&["Alice", "Bob"]);
    let mut rounds = VotingRounds::new();
    rounds.add(VotingRound::new_with_tag(1, set.clone(), 0));
    rounds.add(VotingRound::new_with_tag(2, set.clone(), 0));
    rounds.add(VotingRound::new_with_tag(2, set.clone(), 1));
    let mut other = VotingRounds::new();
    other.add(VotingRound::new_with_tag(2, set.clone(), 5));
    other.add(VotingRound::new_with_tag(3, set.clone(), 6));
    rounds.extend(other);
    assert_eq!(rounds.get(&1).unwrap().len(), 1);
    assert_eq!(rounds.get(&2).unwrap().len(), 1);
    assert_eq!(rounds.get(&2).unwrap()[0].tag, 5);
    assert_eq!(rounds.get(&3).unwrap()[0].tag, 6);
}

#[test]
fn commit_lists_its_voters() {
    let commit = Commit::new(
        2,
        vec![Precommit::new(2, "Bob"), Precommit::new(2, "Alice"), Precommit::new(2, "Bob")],
    );
    assert_eq!(commit.target_number, 2);
    assert_eq!(commit.names(), vec!["Bob", "Alice", "Bob"]);
    assert_eq!(commit.ids(), owned(&["Bob", "Alice", "Bob"]));
    assert_eq!(commit.clone(), commit);
    assert!(commit.same_as(&commit.clone()));
    assert!(!commit.same_as(&Commit::new(3, commit.precommits.clone())));
    assert!(!commit.same_as(&Commit::new(2, vec![Precommit::new(2, "Bob")])));
    assert!(!commit.same_as(&Commit::new(
        2,
        vec![Precommit::new(2, "Bob"), Precommit::new(2, "Alice"), Precommit::new(2, "Carol")],
    )));
    assert!(!commit.same_as(&Commit::new(
        2,
        vec![Precommit::new(2, "Bob"), Precommit::new(1, "Alice"), Precommit::new(2, "Bob")],
    )));
}

#[test]
fn votes_tell_their_voter_and_target() {
    let prevote = Prevote::new(3, "Alice");
    let precommit = Precommit::new(4, "Bob");
    assert_eq!(Vote::id(&prevote), "Alice");
    assert_eq!(Vote::target(&prevote), 3);
    assert_eq!(Vote::id(&precommit), "Bob");
    assert_eq!(Vote::target(&precommit), 4);
    assert_eq!(names_of(&vec![prevote, Prevote::new(1, "Bob")]), owned(&["Alice", "Bob"]));
    assert_eq!(copy_votes(&vec![precommit]), vec![precommit]);
}
