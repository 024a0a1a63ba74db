use accountable_safety::action::Action;
use accountable_safety::chain::Chain;
use accountable_safety::fault::Fault;
use accountable_safety::message::{Message, Payload, Request, Response};
use accountable_safety::voter::Voter;
use accountable_safety::voting::{VoterSet, VotingRounds};
use accountable_safety::world::{World, MAX_TICKS};

fn voter(name: &str) -> Voter {
    Voter::new(
        name.to_string(),
        Chain::new_from(&[(1, 0), (2, 1)]).unwrap(),
        VoterSet::new(&["Alice", "Bob"]),
        VotingRounds::new(),
        None,
    )
}

fn message(sender: &str, receiver: &str, content: Payload) -> Message {
    Message {
        sender: sender.to_string(),
        receiver: receiver.to_string(),
        content,
    }
}

#[test]
fn the_world_ticks_until_it_is_done() {
    let mut world = World::new(vec![voter("Alice")]);
    assert_eq!(world.current_tick(), 0);
    assert!(!world.completed());
    world.tick();
    assert_eq!(world.current_tick(), 1);
    for _ in 1..MAX_TICKS - 1 {
        world.tick();
    }
    assert!(!world.completed());
    world.tick();
    assert_eq!(world.current_tick(), MAX_TICKS);
    assert!(world.completed());
}

#[test]
fn messages_reach_the_voter_they_are_addressed_to() {
    let mut alice = voter("Alice");
    alice.add_actions(vec![(0, Action::SendBlock("Bob".to_string(), 2))]);
    let mut world = World::new(vec![alice, voter("Bob")]);
    let requests = world.process_actions().unwrap();
    assert_eq!(requests.len(), 1);
    assert_eq!(requests[0].sender, "Alice");
    assert_eq!(requests[0].receiver, "Bob");
    let responses = world.handle_requests(requests).unwrap();
    assert!(responses.is_empty());

    let request = message("Alice", "Bob", Payload::Request(Request::WhichPrevotesSeenInRound(3)));
    let responses = world.handle_requests(vec![request]).unwrap();
    assert_eq!(responses.len(), 1);
    assert_eq!(responses[0].sender, "Bob");
    assert_eq!(responses[0].receiver, "Alice");
    assert!(matches!(
        responses[0].content,
        Payload::Response(Response::PrevotesSeen(3, _))
    ));
    assert!(matches!(responses[0].content.response(), Some(Response::PrevotesSeen(3, _))));
    assert!(responses[0].content.request().is_none());

    let response = message("Bob", "Alice", Payload::Response(Response::RequestBlock(1)));
    assert_eq!(world.handle_responses(vec![response]), Ok(()));
    for _ in 0..10 {
        assert!(world.process_actions().unwrap().is_empty());
        world.tick();
    }
    let requests = world.process_actions().unwrap();
    assert_eq!(requests.len(), 1);
    assert_eq!(requests[0].sender, "Alice");
    assert_eq!(requests[0].receiver, "Bob");
    assert!(matches!(
        requests[0].content.request(),
        Some(Request::HereAreBlocks(blocks)) if blocks.len() == 1
    ));
    assert!(requests[0].content.response().is_none());
    assert!(world.equivocations_detected().is_empty());
}

#[test]
fn the_world_holds_each_name_once_in_ascending_order() {
    let mut late_bob = voter("Bob");
    late_bob.add_actions(vec![(7, Action::BroadcastCommits)]);
    let world = World::new(vec![voter("Dave"), voter("Bob"), voter("Alice"), late_bob, voter("Carol")]);
    let names: Vec<&str> = world.voters().iter().map(|voter| voter.id.as_str()).collect();
    assert_eq!(names, vec!["Alice", "Bob", "Carol", "Dave"]);
    // Of the two called Bob the later one stayed.
    assert_eq!(world.voters()[1].actions.len(), 1);
    assert!(World::new(vec![]).voters().is_empty());
}

#[test]
fn the_voters_act_in_the_order_of_their_names() {
    let mut voters = Vec::new();
    for name in ["Carol", "Alice", "Bob"] {
        let mut one = voter(name);
        one.add_actions(vec![(0, Action::SendBlock("Dave".to_string(), 1))]);
        voters.push(one);
    }
    let mut world = World::new(voters);
    let requests = world.process_actions().unwrap();
    let senders: Vec<&str> = requests.iter().map(|request| request.sender.as_str()).collect();
    assert_eq!(senders, vec!["Alice", "Bob", "Carol"]);
}

#[test]
fn a_message_to_nobody_is_a_failure() {
    let mut world = World::new(vec![voter("Alice"), voter("Bob")]);
    let request = message("Alice", "Carol", Payload::Request(Request::WhichPrevotesSeenInRound(3)));
    assert_eq!(world.handle_requests(vec![request]).err(), Some(Fault::UnknownVoter));
    let response = message("Alice", "Carol", Payload::Response(Response::RequestBlock(1)));
    assert_eq!(world.handle_responses(vec![response]), Err(Fault::UnknownVoter));
}

#[test]
fn a_message_of_the_wrong_kind_is_a_failure() {
    let mut world = World::new(vec![voter("Alice"), voter("Bob")]);
    let response = message("Alice", "Bob", Payload::Response(Response::RequestBlock(1)));
    assert_eq!(world.handle_requests(vec![response]).err(), Some(Fault::WrongPayload));
    let request = message("Alice", "Bob", Payload::Request(Request::WhichPrevotesSeenInRound(3)));
    assert_eq!(world.handle_responses(vec![request]), Err(Fault::WrongPayload));
}

#[test]
fn delivery_stops_at_the_first_failure() {
    let mut world = World::new(vec![voter("Alice"), voter("Bob")]);
    let responses = vec![
        message("Bob", "Alice", Payload::Response(Response::RequestBlock(1))),
        message("Bob", "Carol", Payload::Response(Response::RequestBlock(1))),
        message("Alice", "Bob", Payload::Response(Response::RequestBlock(1))),
    ];
    assert_eq!(world.handle_responses(responses), Err(Fault::UnknownVoter));
    for _ in 0..10 {
        world.tick();
    }
    // Alice got her message, Bob did not get his.
    let requests = world.process_actions().unwrap();
    assert_eq!(requests.len(), 1);
    assert_eq!(requests[0].sender, "Alice");
}
