//! A participant: its ledger, its record of the votes, what it has resolved
//! to do, and the runs of the protocol that it has started.

use std::collections::HashMap;
use vstd::prelude::*;
use crate::action::{Action, ActionView, TriggerAtTick};
use crate::block::{Block, BlockNumber};
use crate::chain::{chain_of_blocks, includes, too_deep, Chain, ChainError};
use crate::fault::Fault;
use crate::message::{
    Message, MessageView, Payload, PayloadView, Request, RequestView, Response, ResponseView,
};
use crate::names::{first_occurrences, same_name, unique_names, Name};
use crate::protocol::{
    add_prevote_response_step, add_response_step, fresh_state, outcome_view, AccountableSafety,
    DetectedView, EquivocationDetected, NextQuery, NextQueryView, QueryResponse, QueryView,
    ReplyView, SafetyView,
};
use crate::voting::{
    ballots_of, check_query_reply_is_valid, clone_names, copy_votes, names_of, reply_check,
    voter_names, Ballot, Commit, CommitView, Prevote, RoundNumber, VoterSet, VotingRound,
    VotingRounds,
};

pub use crate::names::{VoterId, VoterName};

verus! {

/// How long a voter waits before it acts on what it has resolved to do.
pub const DELAY: usize = 10;

/// Which votes a voter gives in answer to the question about an estimate.
/// This serves to play a voter who answers with prevotes where precommits
/// are the rule.
#[derive(Copy, Clone, Debug, PartialEq, Eq, Structural)]
pub enum Behaviour {
    ReturnPrecommits,
    ReturnPrevotes,
}

/// A participant of the protocol.
pub struct Voter {
    pub id: VoterId,
    pub chain: Chain,
    pub voter_set: VoterSet,
    pub voting_rounds: VotingRounds,
    pub actions: Vec<(TriggerAtTick, Action)>,
    pub accountable_safety: Vec<AccountableSafety>,
    pub behaviour: Option<Behaviour>,
}

/// The requests that tell of the finalized blocks of a ledger, one for each
/// block, in the order in which the blocks were finalized.
pub open spec fn commit_notices(chain: Chain) -> Seq<RequestView> {
    chain.finalized_order().map_values(
        |n: BlockNumber|
            RequestView::HereIsCommit(chain.rounds_map()[n], chain.commits_map()[n].deep_view()),
    )
}

/// The requests as messages from `sender` to `receiver`.
pub open spec fn addressed(sender: Name, receiver: Name, requests: Seq<RequestView>) -> Seq<
    MessageView,
> {
    requests.map_values(
        |request: RequestView|
            MessageView { sender, receiver, content: PayloadView::Request(request) },
    )
}

/// The messages that send each of the requests to each of the receivers but
/// to the sender itself: receiver by receiver, and for each receiver request
/// by request.
pub open spec fn broadcast(sender: Name, receivers: Seq<Name>, requests: Seq<RequestView>) -> Seq<
    MessageView,
>
    decreases receivers.len(),
{
    if receivers.len() == 0 {
        Seq::empty()
    } else {
        broadcast(sender, receivers.drop_last(), requests) + if receivers.last() == sender {
            Seq::empty()
        } else {
            addressed(sender, receivers.last(), requests)
        }
    }
}

/// From the tick `tick` something can be put off by `DELAY` ticks.
pub open spec fn has_room(tick: TriggerAtTick) -> bool {
    tick + DELAY <= usize::MAX
}

/// What comes of an action that is due: messages to send, or the action put
/// off.
pub enum Effect {
    Send(Seq<MessageView>),
    Postpone,
}

/// What has come of the actions of a queue: the messages to send, the actions
/// that were not yet due, and the actions that were put off.
pub struct Processed {
    pub messages: Seq<MessageView>,
    pub kept: Seq<(TriggerAtTick, ActionView)>,
    pub postponed: Seq<(TriggerAtTick, ActionView)>,
}

/// Whether a request that had to wait can be taken up: a certificate waits
/// until its block is in the ledger, and nothing else waits.
pub open spec fn is_ready(blocks: Map<BlockNumber, Block>, request: RequestView) -> bool {
    match request {
        RequestView::HereIsCommit(_, commit) => blocks.contains_key(commit.target),
        _ => true,
    }
}

/// The question about an estimate as messages from `sender` to its receivers.
pub open spec fn estimate_questions(sender: Name, query: QueryView) -> Seq<MessageView> {
    query.receivers.map_values(
        |receiver: Name|
            MessageView {
                sender,
                receiver,
                content: PayloadView::Request(
                    RequestView::WhyDidEstimateForRoundNotIncludeBlock(
                        query.round,
                        query.block_not_included,
                    ),
                ),
            },
    )
}

/// The question about the prevotes seen in `round` as messages from `sender`
/// to `receivers`.
pub open spec fn prevote_questions(sender: Name, round: RoundNumber, receivers: Seq<Name>) -> Seq<
    MessageView,
> {
    receivers.map_values(
        |receiver: Name|
            MessageView {
                sender,
                receiver,
                content: PayloadView::Request(RequestView::WhichPrevotesSeenInRound(round)),
            },
    )
}

/// Neither block includes the other: they lie on different forks.
pub open spec fn conflicting(
    blocks: Map<BlockNumber, Block>,
    a: BlockNumber,
    b: BlockNumber,
) -> bool {
    !includes(blocks, a, b) && !includes(blocks, b, a)
}

/// Those of the finalized blocks that conflict with `target`, in their order.
pub open spec fn conflicts_among(
    blocks: Map<BlockNumber, Block>,
    finalized: Seq<BlockNumber>,
    target: BlockNumber,
) -> Seq<BlockNumber>
    decreases finalized.len(),
{
    if finalized.len() == 0 {
        Seq::empty()
    } else {
        conflicts_among(blocks, finalized.drop_last(), target) + if conflicting(
            blocks,
            target,
            finalized.last(),
        ) {
            seq![finalized.last()]
        } else {
            Seq::empty()
        }
    }
}

/// The search for conflicts with `target` cannot be done: there is a
/// finalized block other than `target`, and it or `target` lies too deep.
pub open spec fn search_fails(
    blocks: Map<BlockNumber, Block>,
    finalized: Seq<BlockNumber>,
    target: BlockNumber,
) -> bool {
    exists|i: int|
        0 <= i < finalized.len() && #[trigger] finalized[i] != target && (too_deep(blocks, target)
            || too_deep(blocks, finalized[i]))
}

/// The run of the protocol that is started about the finalized block
/// `block` of the ledger `chain`, with its first question, about `round`,
/// put to `receivers`.
pub open spec fn opened_run(
    chain: Chain,
    block: BlockNumber,
    round: RoundNumber,
    receivers: Seq<Name>,
) -> SafetyView {
    SafetyView {
        block_not_included: block,
        round_not_included: chain.rounds_map()[block],
        commit: chain.commits_map()[block].deep_view(),
        querying_rounds: Map::empty().insert(round, fresh_state(round, receivers)),
        prevote_queries: Map::empty(),
    }
}

/// The resolve to put the first question of the run about `block`, made at
/// the tick `tick`.
pub open spec fn first_question(
    block: BlockNumber,
    round: RoundNumber,
    receivers: Seq<Name>,
    tick: TriggerAtTick,
) -> (TriggerAtTick, ActionView) {
    (
        (tick + DELAY) as usize,
        ActionView::AskVotersAboutEstimate(
            QueryView { round, receivers, block_not_included: block },
        ),
    )
}

/// What comes of taking in blocks one after the other: the grown ledger, and
/// the failure that ended it, if one did. A block that is in the ledger
/// already changes nothing if it is the same, and is a failure if not. A new
/// block needs its parent to be there.
pub open spec fn take_in(blocks: Map<BlockNumber, Block>, incoming: Seq<Block>) -> (
    Map<BlockNumber, Block>,
    Option<Fault>,
)
    decreases incoming.len(),
{
    if incoming.len() == 0 {
        (blocks, None)
    } else {
        let block = incoming[0];
        if blocks.contains_key(block.number) {
            if blocks[block.number] == block {
                take_in(blocks, incoming.drop_first())
            } else {
                (blocks, Some(Fault::BlockMismatch))
            }
        } else if !blocks.contains_key(block.parent) {
            (blocks, Some(Fault::Ledger(ChainError::UnknownParent)))
        } else {
            take_in(blocks.insert(block.number, block), incoming.drop_first())
        }
    }
}

/// Every one of the blocks `incoming` is in the ledger, as it comes.
pub open spec fn all_there(blocks: Map<BlockNumber, Block>, incoming: Seq<Block>) -> bool {
    forall|i: int|
        0 <= i < incoming.len() ==> blocks.contains_key((#[trigger] incoming[i]).number)
            && blocks[incoming[i].number] == incoming[i]
}

/// Blocks that are all in the ledger are taken in without a change and
/// without a failure.
pub proof fn lemma_take_in_what_is_there(blocks: Map<BlockNumber, Block>, incoming: Seq<Block>)
    requires
        all_there(blocks, incoming),
    ensures
        take_in(blocks, incoming) == (blocks, None::<Fault>),
    decreases incoming.len(),
{
    if incoming.len() > 0 {
        let rest = incoming.drop_first();
        assert(blocks.contains_key(incoming[0].number) && blocks[incoming[0].number]
            == incoming[0]);
        assert forall|i: int| 0 <= i < rest.len() implies blocks.contains_key(
            (#[trigger] rest[i]).number,
        ) && blocks[rest[i].number] == rest[i] by {
            assert(rest[i] == incoming[i + 1]);
        }
        lemma_take_in_what_is_there(blocks, rest);
    }
}

/// Blocks that were taken in without a failure are all in the ledger.
pub proof fn lemma_taken_in_is_there(blocks: Map<BlockNumber, Block>, incoming: Seq<Block>)
    requires
        take_in(blocks, incoming).1 is None,
    ensures
        all_there(take_in(blocks, incoming).0, incoming),
    decreases incoming.len(),
{
    if incoming.len() > 0 {
        let block = incoming[0];
        let rest = incoming.drop_first();
        let next = if blocks.contains_key(block.number) {
            blocks
        } else {
            blocks.insert(block.number, block)
        };
        let taken = take_in(blocks, incoming);
        assert(taken == take_in(next, rest));
        lemma_taken_in_is_there(next, rest);
        lemma_take_in_twice(next, rest);
        assert(next.contains_key(block.number) && next[block.number] == block);
        assert(holds_all_of(taken.0, next));
        assert(taken.0.contains_key(block.number));
        assert(taken.0[block.number] == next[block.number]);
        assert forall|i: int| 0 <= i < incoming.len() implies taken.0.contains_key(
            (#[trigger] incoming[i]).number,
        ) && taken.0[incoming[i].number] == incoming[i] by {
            if i > 0 {
                assert(rest[i - 1] == incoming[i]);
            }
        }
    }
}

/// The answers that the records of a round offer: of each record its
/// prevotes, for a voter that answers with prevotes, and its precommits
/// otherwise.
pub open spec fn candidates(records: Seq<VotingRound>, behaviour: Option<Behaviour>) -> Seq<
    ReplyView,
> {
    records.map_values(
        |record: VotingRound|
            match behaviour {
                Some(Behaviour::ReturnPrevotes) => ReplyView::Prevotes(record.prevotes.deep_view()),
                _ => ReplyView::Precommits(record.precommits.deep_view()),
            },
    )
}

/// Those of the answers that are valid, in their order; or the failure of
/// the first check that failed.
pub open spec fn select_valid(
    blocks: Map<BlockNumber, Block>,
    offered: Seq<ReplyView>,
    block: BlockNumber,
    voters: Seq<Name>,
) -> Result<Seq<ReplyView>, ChainError>
    decreases offered.len(),
{
    if offered.len() == 0 {
        Ok(Seq::empty())
    } else {
        match select_valid(blocks, offered.drop_last(), block, voters) {
            Err(e) => Err(e),
            Ok(valid) => match reply_check(blocks, offered.last().ballots(), block, voters) {
                Err(e) => Err(e),
                Ok(true) => Ok(valid.push(offered.last())),
                Ok(false) => Ok(valid),
            },
        }
    }
}

/// All the prevotes of the records, record by record.
pub open spec fn prevotes_on_record(records: Seq<VotingRound>) -> Seq<Ballot>
    decreases records.len(),
{
    if records.len() == 0 {
        Seq::empty()
    } else {
        prevotes_on_record(records.drop_last()) + records.last().prevotes.deep_view()
    }
}

/// Answers as the contracts see it, each with the voter that it goes to.
pub open spec fn answers_view(result: Result<Vec<(VoterId, Response)>, Fault>) -> Result<
    Seq<(Name, ResponseView)>,
    Fault,
> {
    match result {
        Ok(answers) => Ok(answers.deep_view()),
        Err(fault) => Err(fault),
    }
}

/// No answer, and no failure.
pub open spec fn no_answer() -> Result<Seq<(Name, ResponseView)>, Fault> {
    Ok(Seq::empty())
}

/// A failure in place of answers.
pub open spec fn failed(fault: Fault) -> Result<Seq<(Name, ResponseView)>, Fault> {
    Err(fault)
}

/// One answer, to `to`.
pub open spec fn one_answer(to: Name, response: ResponseView) -> Result<
    Seq<(Name, ResponseView)>,
    Fault,
> {
    Ok(seq![(to, response)])
}

impl Voter {
    /// The voter is well formed: its ledger is, and so are its runs of the
    /// protocol.
    pub open spec fn wf(&self) -> bool {
        &&& self.chain.wf()
        &&& forall|i: int|
            0 <= i < self.accountable_safety.len() ==> (#[trigger] self.accountable_safety[i]).wf()
    }

    /// What the voter has resolved to do, and when.
    pub open spec fn queue(&self) -> Seq<(TriggerAtTick, ActionView)> {
        self.actions.deep_view()
    }

    /// The runs of the protocol that the voter has started.
    pub open spec fn runs(&self) -> Seq<SafetyView> {
        self.accountable_safety.deep_view()
    }

    pub fn new(
        id: VoterId,
        chain: Chain,
        voter_set: VoterSet,
        voting_rounds: VotingRounds,
        behaviour: Option<Behaviour>,
    ) -> (voter: Self)
        ensures
            voter.id == id,
            voter.chain == chain,
            voter.voter_set == voter_set,
            voter.voting_rounds == voting_rounds,
            voter.behaviour == behaviour,
            voter.queue() == Seq::<(TriggerAtTick, ActionView)>::empty(),
            voter.runs() == Seq::<SafetyView>::empty(),
            chain.wf() ==> voter.wf(),
    {
        let voter = Self {
            id,
            chain,
            voter_set,
            voting_rounds,
            actions: Vec::new(),
            accountable_safety: Vec::new(),
            behaviour,
        };
        assert(voter.queue() =~= Seq::<(TriggerAtTick, ActionView)>::empty());
        assert(voter.runs() =~= Seq::<SafetyView>::empty());
        voter
    }

    /// Adds actions to the end of what the voter has resolved to do.
    pub fn add_actions(&mut self, actions: Vec<(usize, Action)>)
        ensures
            final(self).queue() == old(self).queue() + actions.deep_view(),
            final(self).id == old(self).id,
            final(self).chain == old(self).chain,
            final(self).voter_set == old(self).voter_set,
            final(self).voting_rounds == old(self).voting_rounds,
            final(self).accountable_safety == old(self).accountable_safety,
            final(self).behaviour == old(self).behaviour,
    {
        let mut more = actions;
        self.actions.append(&mut more);
        assert(self.queue() =~= old(self).queue() + actions.deep_view());
    }

    /// The certificates that the voter knows, by block number.
    pub fn commits(&self) -> (all: &HashMap<u32, Commit>)
        ensures
            all@ == self.chain.commits_map(),
    {
        self.chain.commits()
    }

    /// The messages that tell every other voter of every certificate that
    /// this voter knows.
    fn create_broadcast_commit_messages(&self) -> (messages: Vec<Message>)
        requires
            self.chain.wf(),
        ensures
            messages.deep_view() == broadcast(
                self.id@,
                self.voter_set.names(),
                commit_notices(self.chain),
            ),
    {
        let receivers = self.voter_set.voter_ids();
        let finalized = self.chain.finalized_blocks();
        let ghost names = self.voter_set.names();
        let ghost notices = commit_notices(self.chain);
        let mut messages: Vec<Message> = Vec::new();
        let mut i: usize = 0;
        assert(names.subrange(0, 0) =~= Seq::<Name>::empty());
        assert(messages.deep_view() =~= Seq::<MessageView>::empty());
        while i < receivers.len()
            invariant
                i <= receivers.len(),
                self.chain.wf(),
                receivers.deep_view() == names,
                finalized@ == self.chain.finalized_order(),
                notices == commit_notices(self.chain),
                messages.deep_view() == broadcast(self.id@, names.subrange(0, i as int), notices),
            decreases receivers.len() - i,
        {
            let ghost next = names.subrange(0, i + 1);
            assert(next.drop_last() == names.subrange(0, i as int));
            assert(next.last() == names[i as int]);
            assert(names[i as int] == receivers[i as int]@);
            let ghost before = messages.deep_view();
            if !same_name(receivers[i].as_str(), self.id.as_str()) {
                let mut k: usize = 0;
                let ghost to_one = addressed(self.id@, receivers[i as int]@, notices);
                assert(before + to_one.subrange(0, 0) =~= before);
                while k < finalized.len()
                    invariant
                        k <= finalized.len(),
                        i < receivers.len(),
                        self.chain.wf(),
                        finalized@ == self.chain.finalized_order(),
                        notices == commit_notices(self.chain),
                        to_one == addressed(self.id@, receivers[i as int]@, notices),
                        messages.deep_view() == before + to_one.subrange(0, k as int),
                    decreases finalized.len() - k,
                {
                    let block = finalized[k];
                    assert(self.chain.finalized_order().contains(block));
                    let round = match self.chain.finalized_round(block) {
                        Some(round) => *round,
                        None => 0,
                    };
                    let commit = match self.chain.commit_for_block(block) {
                        Some(commit) => commit.clone(),
                        None => Commit::new(block, Vec::new()),
                    };
                    let message = Message {
                        sender: self.id.clone(),
                        receiver: receivers[i].clone(),
                        content: Payload::Request(Request::HereIsCommit(round, commit)),
                    };
                    let ghost so_far = messages.deep_view();
                    assert(message.deep_view() == to_one[k as int]);
                    messages.push(message);
                    assert(messages.deep_view() =~= so_far.push(message.deep_view()));
                    assert(to_one.subrange(0, k + 1) =~= to_one.subrange(0, k as int).push(
                        to_one[k as int],
                    ));
                    k += 1;
                }
                assert(to_one.subrange(0, k as int) == to_one);
            } else {
                assert(before + Seq::<MessageView>::empty() =~= before);
            }
            i += 1;
        }
        assert(names.subrange(0, i as int) == names);
        messages
    }

    /// What comes of `action` when this voter carries it out.
    ///
    /// A broadcast sends every known certificate to every other voter. The
    /// chain of a block is sent if there is one: an unknown block and genesis
    /// have none, and then nothing is sent. A request that had to wait is
    /// handed to this voter again, as a message to itself from whoever sent
    /// it, if it is ready, and is put off if not. A question is put to each of
    /// its receivers.
    pub open spec fn effect_of(&self, action: ActionView) -> Result<Effect, Fault> {
        match action {
            ActionView::BroadcastCommits => Ok(
                Effect::Send(
                    broadcast(self.id@, self.voter_set.names(), commit_notices(self.chain)),
                ),
            ),
            ActionView::SendBlock(to, block) => {
                if too_deep(self.chain.blocks(), block) {
                    Err(Fault::Ledger(ChainError::CycleDetected))
                } else if chain_of_blocks(self.chain.blocks(), block).len() == 0 {
                    Ok(Effect::Send(Seq::empty()))
                } else {
                    Ok(
                        Effect::Send(
                            seq![
                                MessageView {
                                    sender: self.id@,
                                    receiver: to,
                                    content: PayloadView::Request(
                                        RequestView::HereAreBlocks(
                                            chain_of_blocks(self.chain.blocks(), block),
                                        ),
                                    ),
                                },
                            ],
                        ),
                    )
                }
            },
            ActionView::RequeueRequest(waiting) => {
                if is_ready(self.chain.blocks(), waiting.1) {
                    Ok(
                        Effect::Send(
                            seq![
                                MessageView {
                                    sender: waiting.0,
                                    receiver: self.id@,
                                    content: PayloadView::Request(waiting.1),
                                },
                            ],
                        ),
                    )
                } else {
                    Ok(Effect::Postpone)
                }
            },
            ActionView::AskVotersAboutEstimate(query) => Ok(
                Effect::Send(estimate_questions(self.id@, query)),
            ),
            ActionView::AskVotersWhichPrevotesSeen(query) => Ok(
                Effect::Send(prevote_questions(self.id@, query.round, query.receivers)),
            ),
        }
    }

    /// What comes of going through `queue` at the tick `tick`, action by
    /// action: an action that is not yet due is kept; one that is due is
    /// carried out, and its messages are sent or it is put off by `DELAY`
    /// ticks, which is a failure where the ticks do not reach so far. The
    /// first failure ends it all.
    pub open spec fn process(
        &self,
        queue: Seq<(TriggerAtTick, ActionView)>,
        tick: TriggerAtTick,
    ) -> Result<Processed, Fault>
        decreases queue.len(),
    {
        if queue.len() == 0 {
            Ok(Processed { messages: Seq::empty(), kept: Seq::empty(), postponed: Seq::empty() })
        } else {
            match self.process(queue.drop_last(), tick) {
                Err(fault) => Err(fault),
                Ok(done) => {
                    let (due_at, action) = queue.last();
                    if due_at > tick {
                        Ok(Processed { kept: done.kept.push(queue.last()), ..done })
                    } else {
                        match self.effect_of(action) {
                            Err(fault) => Err(fault),
                            Ok(Effect::Send(messages)) => Ok(
                                Processed { messages: done.messages + messages, ..done },
                            ),
                            Ok(Effect::Postpone) => if has_room(due_at) {
                                Ok(
                                    Processed {
                                        postponed: done.postponed.push(
                                            ((due_at + DELAY) as usize, action),
                                        ),
                                        ..done
                                    },
                                )
                            } else {
                                Err(Fault::OutOfTicks)
                            },
                        }
                    }
                },
            }
        }
    }

    /// Once going through a queue has failed, going on does not mend it.
    pub proof fn lemma_failure_stays(
        &self,
        queue: Seq<(TriggerAtTick, ActionView)>,
        upto: int,
        tick: TriggerAtTick,
    )
        requires
            0 <= upto <= queue.len(),
            self.process(queue.subrange(0, upto), tick) is Err,
        ensures
            self.process(queue, tick) == self.process(queue.subrange(0, upto), tick),
        decreases queue.len() - upto,
    {
        if upto == queue.len() {
            assert(queue.subrange(0, upto) == queue);
        } else {
            let longer = queue.subrange(0, upto + 1);
            assert(longer.drop_last() == queue.subrange(0, upto));
            self.lemma_failure_stays(queue, upto + 1, tick);
        }
    }

    /// Carries out `action` and adds the messages that it sends to
    /// `messages`. Returns whether the action is put off instead.
    fn carry_out(&self, action: &Action, messages: &mut Vec<Message>) -> (result: Result<
        bool,
        Fault,
    >)
        requires
            self.chain.wf(),
        ensures
            match (result, self.effect_of(action.deep_view())) {
                (Ok(true), Ok(Effect::Postpone)) => final(messages).deep_view() == old(
                    messages,
                ).deep_view(),
                (Ok(false), Ok(Effect::Send(sent))) => final(messages).deep_view() == old(
                    messages,
                ).deep_view() + sent,
                (Err(fault), Err(expected)) => fault == expected,
                _ => false,
            },
    {
        let ghost before = messages.deep_view();
        match action {
            Action::BroadcastCommits => {
                let mut more = self.create_broadcast_commit_messages();
                let ghost sent = more.deep_view();
                messages.append(&mut more);
                assert(messages.deep_view() =~= before + sent);
                assert(self.effect_of(action.deep_view()) == Ok::<Effect, Fault>(
                    Effect::Send(sent),
                ));
                Ok(false)
            },
            Action::SendBlock(to, block_number) => {
                let blocks = match self.chain.get_chain_of_blocks(*block_number) {
                    Ok(blocks) => blocks,
                    Err(e) => {
                        return Err(Fault::Ledger(e));
                    },
                };
                if blocks.len() > 0 {
                    let message = Message {
                        sender: self.id.clone(),
                        receiver: to.clone(),
                        content: Payload::Request(Request::HereAreBlocks(blocks)),
                    };
                    let ghost sent = seq![message.deep_view()];
                    messages.push(message);
                    assert(messages.deep_view() =~= before + sent);
                    assert(self.effect_of(action.deep_view()) == Ok::<Effect, Fault>(
                        Effect::Send(sent),
                    ));
                } else {
                    let ghost sent = Seq::<MessageView>::empty();
                    assert(messages.deep_view() =~= before + sent);
                    assert(self.effect_of(action.deep_view()) == Ok::<Effect, Fault>(
                        Effect::Send(sent),
                    ));
                }
                Ok(false)
            },
            Action::RequeueRequest(waiting) => {
                let ready = match &waiting.1 {
                    Request::HereIsCommit(_round, commit) => self.chain.knows_about_block(
                        commit.target_number,
                    ),
                    _ => true,
                };
                if ready {
                    let message = Message {
                        sender: waiting.0.clone(),
                        receiver: self.id.clone(),
                        content: Payload::Request(waiting.1.clone()),
                    };
                    let ghost sent = seq![message.deep_view()];
                    messages.push(message);
                    assert(messages.deep_view() =~= before + sent);
                    assert(self.effect_of(action.deep_view()) == Ok::<Effect, Fault>(
                        Effect::Send(sent),
                    ));
                    Ok(false)
                } else {
                    Ok(true)
                }
            },
            Action::AskVotersAboutEstimate(query) => {
                let ghost sent = estimate_questions(self.id@, query.deep_view());
                let mut i: usize = 0;
                assert(before + sent.subrange(0, 0) =~= before);
                while i < query.receivers.len()
                    invariant
                        i <= query.receivers.len(),
                        sent == estimate_questions(self.id@, query.deep_view()),
                        messages.deep_view() == before + sent.subrange(0, i as int),
                    decreases query.receivers.len() - i,
                {
                    let message = Message {
                        sender: self.id.clone(),
                        receiver: query.receivers[i].clone(),
                        content: Payload::Request(
                            Request::WhyDidEstimateForRoundNotIncludeBlock(
                                query.round,
                                query.block_not_included,
                            ),
                        ),
                    };
                    let ghost so_far = messages.deep_view();
                    assert(query.deep_view().receivers[i as int] == query.receivers[i as int]@);
                    assert(message.deep_view() == sent[i as int]);
                    messages.push(message);
                    assert(messages.deep_view() =~= so_far.push(message.deep_view()));
                    assert(sent.subrange(0, i + 1) =~= sent.subrange(0, i as int).push(
                        sent[i as int],
                    ));
                    i += 1;
                }
                assert(sent.subrange(0, i as int) == sent);
                assert(self.effect_of(action.deep_view()) == Ok::<Effect, Fault>(
                    Effect::Send(sent),
                ));
                Ok(false)
            },
            Action::AskVotersWhichPrevotesSeen(query) => {
                let ghost sent = prevote_questions(
                    self.id@,
                    query.round,
                    query.receivers.deep_view(),
                );
                let mut i: usize = 0;
                assert(before + sent.subrange(0, 0) =~= before);
                while i < query.receivers.len()
                    invariant
                        i <= query.receivers.len(),
                        sent == prevote_questions(
                            self.id@,
                            query.round,
                            query.receivers.deep_view(),
                        ),
                        messages.deep_view() == before + sent.subrange(0, i as int),
                    decreases query.receivers.len() - i,
                {
                    let message = Message {
                        sender: self.id.clone(),
                        receiver: query.receivers[i].clone(),
                        content: Payload::Request(Request::WhichPrevotesSeenInRound(query.round)),
                    };
                    let ghost so_far = messages.deep_view();
                    assert(query.receivers.deep_view()[i as int] == query.receivers[i as int]@);
                    assert(message.deep_view() == sent[i as int]);
                    messages.push(message);
                    assert(messages.deep_view() =~= so_far.push(message.deep_view()));
                    assert(sent.subrange(0, i + 1) =~= sent.subrange(0, i as int).push(
                        sent[i as int],
                    ));
                    i += 1;
                }
                assert(sent.subrange(0, i as int) == sent);
                assert(self.effect_of(action.deep_view()) == Ok::<Effect, Fault>(
                    Effect::Send(sent),
                ));
                Ok(false)
            },
        }
    }

    /// Carries out the actions that are due at `current_tick`, in the order
    /// in which they were resolved on, and returns the messages that they
    /// send. The actions that are not yet due stay, and behind them come the
    /// actions that were put off. If an action fails, nothing changes.
    pub fn process_actions(&mut self, current_tick: usize) -> (result: Result<Vec<Message>, Fault>)
        requires
            old(self).wf(),
        ensures
            final(self).wf(),
            final(self).id == old(self).id,
            final(self).chain == old(self).chain,
            final(self).voter_set == old(self).voter_set,
            final(self).voting_rounds == old(self).voting_rounds,
            final(self).accountable_safety == old(self).accountable_safety,
            final(self).behaviour == old(self).behaviour,
            match result {
                Ok(messages) => {
                    &&& old(self).process(old(self).queue(), current_tick) is Ok
                    &&& messages.deep_view() == old(self).process(
                        old(self).queue(),
                        current_tick,
                    )->Ok_0.messages
                    &&& final(self).queue() == old(self).process(
                        old(self).queue(),
                        current_tick,
                    )->Ok_0.kept + old(self).process(old(self).queue(), current_tick)->Ok_0.postponed
                },
                Err(fault) => {
                    &&& old(self).process(old(self).queue(), current_tick) == Err::<
                        Processed,
                        Fault,
                    >(fault)
                    &&& *final(self) == *old(self)
                },
            },
    {
        let ghost queue = self.queue();
        let mut messages: Vec<Message> = Vec::new();
        let mut kept: Vec<(TriggerAtTick, Action)> = Vec::new();
        let mut postponed: Vec<(TriggerAtTick, Action)> = Vec::new();
        let mut i: usize = 0;
        assert(queue.subrange(0, 0) =~= Seq::<(TriggerAtTick, ActionView)>::empty());
        assert(messages.deep_view() =~= Seq::<MessageView>::empty());
        assert(kept.deep_view() =~= Seq::<(TriggerAtTick, ActionView)>::empty());
        assert(postponed.deep_view() =~= Seq::<(TriggerAtTick, ActionView)>::empty());
        while i < self.actions.len()
            invariant
                i <= self.actions.len(),
                *self == *old(self),
                self.wf(),
                queue == self.queue(),
                self.process(queue.subrange(0, i as int), current_tick) == Ok::<Processed, Fault>(
                    Processed {
                        messages: messages.deep_view(),
                        kept: kept.deep_view(),
                        postponed: postponed.deep_view(),
                    },
                ),
            decreases self.actions.len() - i,
        {
            let ghost next = queue.subrange(0, i + 1);
            assert(next.drop_last() == queue.subrange(0, i as int));
            assert(next.last() == queue[i as int]);
            assert(queue[i as int] == self.actions[i as int].deep_view());
            let due_at = self.actions[i].0;
            if due_at > current_tick {
                let entry = (due_at, self.actions[i].1.clone());
                let ghost so_far = kept.deep_view();
                kept.push(entry);
                assert(kept.deep_view() =~= so_far.push(entry.deep_view()));
            } else {
                match self.carry_out(&self.actions[i].1, &mut messages) {
                    Err(fault) => {
                        proof {
                            self.lemma_failure_stays(queue, i + 1, current_tick);
                        }
                        return Err(fault);
                    },
                    Ok(true) => {
                        if due_at > usize::MAX - DELAY {
                            proof {
                                self.lemma_failure_stays(queue, i + 1, current_tick);
                            }
                            return Err(Fault::OutOfTicks);
                        }
                        let entry = (due_at + DELAY, self.actions[i].1.clone());
                        let ghost so_far = postponed.deep_view();
                        postponed.push(entry);
                        assert(postponed.deep_view() =~= so_far.push(entry.deep_view()));
                    },
                    Ok(false) => {},
                }
            }
            i += 1;
        }
        assert(queue.subrange(0, i as int) == queue);
        let ghost first = kept.deep_view();
        let ghost second = postponed.deep_view();
        kept.append(&mut postponed);
        assert(kept.deep_view() =~= first + second);
        self.actions = kept;
        Ok(messages)
    }

    /// The answer of this voter to the question why its estimate for the
    /// round before `round` did not include `block`: the one valid answer that
    /// its records of that round offer. There must be one and no more.
    pub open spec fn explanation(&self, sender: Name, round: RoundNumber, block: BlockNumber) -> Result<
        Seq<(Name, ResponseView)>,
        Fault,
    > {
        let before = (round - 1) as RoundNumber;
        if round == 0 {
            failed(Fault::NoEarlierRound)
        } else if !self.voting_rounds.0@.contains_key(before) {
            failed(Fault::NoVotesRecorded)
        } else {
            match select_valid(
                self.chain.blocks(),
                candidates(self.voting_rounds.0@[before]@, self.behaviour),
                block,
                self.voter_set.names(),
            ) {
                Err(e) => failed(Fault::Ledger(e)),
                Ok(valid) => if valid.len() == 1 {
                    one_answer(sender, ResponseView::ExplainEstimate(round, valid[0]))
                } else {
                    failed(Fault::AmbiguousEstimate)
                },
            }
        }
    }

    /// The prevotes that this voter has on record for `round`. A voter with
    /// several records of the round has seen the prevotes of all of them, and
    /// those of all of them are meant, record by record.
    pub open spec fn prevotes_seen(&self, round: RoundNumber) -> Seq<Ballot> {
        if self.voting_rounds.0@.contains_key(round) {
            prevotes_on_record(self.voting_rounds.0@[round]@)
        } else {
            Seq::empty()
        }
    }
}

/// The ledger `post` records the same blocks as finalized as the ledger
/// `pre`, by the same certificates and in the same rounds.
pub open spec fn finality_kept(pre: Chain, post: Chain) -> bool {
    &&& post.commits_map() == pre.commits_map()
    &&& post.rounds_map() == pre.rounds_map()
    &&& post.finalized_order() == pre.finalized_order()
}

/// The ledger `post` is the ledger `pre` with the block of `commit`
/// recorded as finalized in `round` by `commit`, last of all.
pub open spec fn certificate_recorded(
    pre: Chain,
    round: RoundNumber,
    commit: CommitView,
    post: Chain,
) -> bool {
    &&& post.commits_map().contains_key(commit.target)
    &&& post.commits_map()[commit.target].deep_view() == commit
    &&& post.commits_map().remove(commit.target) == pre.commits_map()
    &&& post.rounds_map() == pre.rounds_map().insert(commit.target, round)
    &&& post.finalized_order() == pre.finalized_order().push(commit.target)
}

/// The step that a certificate makes: from the state `pre` of a voter, the
/// certificate `commit` for a block finalized in `round`, sent by `sender`
/// and taken in at the tick `tick`, leads to the state `post` and to `result`.
///
/// A certificate for a block that has one already changes nothing; it is a
/// failure if the two differ. Any other certificate needs room to put
/// something off. If the ledger does not know its block, it is put aside to
/// be taken up later, and the block is asked for. Otherwise it is held
/// against the finalized blocks: for each that conflicts with its block a run
/// of the protocol is started, and its first question, about the round of the
/// certificate and to those who signed it, is resolved on. Then the
/// certificate is recorded in the ledger, so that it does all this once.
pub open spec fn certificate_step(
    pre: Voter,
    sender: Name,
    round: RoundNumber,
    commit: CommitView,
    tick: TriggerAtTick,
    post: Voter,
    result: Result<Seq<(Name, ResponseView)>, Fault>,
) -> bool {
    &&& post.chain.blocks() == pre.chain.blocks()
    &&& if pre.chain.commits_map().contains_key(commit.target) {
        &&& post == pre
        &&& result == (if pre.chain.commits_map()[commit.target].deep_view() == commit {
            no_answer()
        } else {
            failed(Fault::CommitMismatch)
        })
    } else if !has_room(tick) {
        &&& post == pre
        &&& result == failed(Fault::OutOfTicks)
    } else if !pre.chain.blocks().contains_key(commit.target) {
        &&& post.chain == pre.chain
        &&& post.accountable_safety == pre.accountable_safety
        &&& post.queue() == pre.queue().push(
            (
                (tick + DELAY) as usize,
                ActionView::RequeueRequest((sender, RequestView::HereIsCommit(round, commit))),
            ),
        )
        &&& result == one_answer(sender, ResponseView::RequestBlock(commit.target))
    } else if search_fails(pre.chain.blocks(), pre.chain.finalized_order(), commit.target) {
        &&& post == pre
        &&& result == failed(Fault::Ledger(ChainError::CycleDetected))
    } else {
        let found = conflicts_among(
            pre.chain.blocks(),
            pre.chain.finalized_order(),
            commit.target,
        );
        let receivers = first_occurrences(voter_names(commit.precommits));
        &&& certificate_recorded(pre.chain, round, commit, post.chain)
        &&& post.queue() == pre.queue() + found.map_values(
            |block: BlockNumber| first_question(block, round, receivers, tick),
        )
        &&& post.runs() == pre.runs() + found.map_values(
            |block: BlockNumber| opened_run(pre.chain, block, round, receivers),
        )
        &&& result == no_answer()
    }
}

/// The step that a request makes: from the state `pre` of a voter, the
/// request `request` of `sender`, taken in at the tick `tick`, leads to the
/// state `post` and to `result`, the answers with the voters that they go to.
///
/// A certificate makes its own step. Blocks are taken into the ledger. The
/// question about an estimate and the question about prevotes seen are
/// answered from the records, and change nothing.
pub open spec fn request_step(
    pre: Voter,
    sender: Name,
    request: RequestView,
    tick: TriggerAtTick,
    post: Voter,
    result: Result<Seq<(Name, ResponseView)>, Fault>,
) -> bool {
    &&& post.id == pre.id
    &&& post.voter_set == pre.voter_set
    &&& post.voting_rounds == pre.voting_rounds
    &&& post.behaviour == pre.behaviour
    &&& match request {
        RequestView::HereIsCommit(round, commit) => certificate_step(
            pre,
            sender,
            round,
            commit,
            tick,
            post,
            result,
        ),
        RequestView::HereAreBlocks(blocks) => {
            &&& post.actions == pre.actions
            &&& post.accountable_safety == pre.accountable_safety
            &&& finality_kept(pre.chain, post.chain)
            &&& post.chain.blocks() == take_in(pre.chain.blocks(), blocks).0
            &&& post.chain.blocks() == pre.chain.blocks() ==> post.chain == pre.chain
            &&& all_there(pre.chain.blocks(), blocks) ==> post == pre && result == no_answer()
            &&& result is Ok ==> all_there(post.chain.blocks(), blocks)
            &&& result == (match take_in(pre.chain.blocks(), blocks).1 {
                None => no_answer(),
                Some(fault) => failed(fault),
            })
        },
        RequestView::WhyDidEstimateForRoundNotIncludeBlock(round, block) => {
            &&& post == pre
            &&& result == pre.explanation(sender, round, block)
        },
        RequestView::WhichPrevotesSeenInRound(round) => {
            &&& post == pre
            &&& result == one_answer(
                sender,
                ResponseView::PrevotesSeen(round, ReplyView::Prevotes(pre.prevotes_seen(round))),
            )
        },
    }
}

impl Voter {
    /// Those of the finalized blocks that conflict with `target`.
    fn find_conflicts(&self, target: BlockNumber) -> (result: Result<Vec<BlockNumber>, Fault>)
        requires
            self.chain.wf(),
        ensures
            match result {
                Ok(found) => {
                    &&& !search_fails(
                        self.chain.blocks(),
                        self.chain.finalized_order(),
                        target,
                    )
                    &&& found@ == conflicts_among(
                        self.chain.blocks(),
                        self.chain.finalized_order(),
                        target,
                    )
                    &&& forall|k: int|
                        0 <= k < found.len() ==> self.chain.finalized_order().contains(
                            #[trigger] found[k],
                        )
                },
                Err(fault) => fault == Fault::Ledger(ChainError::CycleDetected) && search_fails(
                    self.chain.blocks(),
                    self.chain.finalized_order(),
                    target,
                ),
            },
    {
        let finalized = self.chain.finalized_blocks();
        let ghost order = self.chain.finalized_order();
        let ghost blocks = self.chain.blocks();
        let mut found: Vec<BlockNumber> = Vec::new();
        let mut i: usize = 0;
        assert(order.subrange(0, 0) =~= Seq::<BlockNumber>::empty());
        while i < finalized.len()
            invariant
                i <= finalized.len(),
                self.chain.wf(),
                finalized@ == order,
                order == self.chain.finalized_order(),
                blocks == self.chain.blocks(),
                found@ == conflicts_among(blocks, order.subrange(0, i as int), target),
                forall|k: int| 0 <= k < found.len() ==> order.contains(#[trigger] found[k]),
                forall|k: int|
                    0 <= k < i ==> !(#[trigger] order[k] != target && (too_deep(blocks, target)
                        || too_deep(blocks, order[k]))),
            decreases finalized.len() - i,
        {
            let ghost next = order.subrange(0, i + 1);
            assert(next.drop_last() == order.subrange(0, i as int));
            assert(next.last() == order[i as int]);
            let block = finalized[i];
            let ghost before = found@;
            if block != target {
                let above = match self.chain.block_includes(target, block) {
                    Ok(above) => above,
                    Err(e) => {
                        return Err(Fault::Ledger(e));
                    },
                };
                let below = match self.chain.block_includes(block, target) {
                    Ok(below) => below,
                    Err(e) => {
                        return Err(Fault::Ledger(e));
                    },
                };
                if !above && !below {
                    found.push(block);
                    assert(order[i as int] == block);
                    assert(found@ =~= before + seq![block]);
                } else {
                    assert(found@ =~= before + Seq::<BlockNumber>::empty());
                }
            } else {
                assert(found@ =~= before + Seq::<BlockNumber>::empty());
            }
            i += 1;
        }
        assert(order.subrange(0, i as int) == order);
        Ok(found)
    }

    /// Takes in a certificate.
    fn receive_commit(
        &mut self,
        sender: VoterId,
        round_number: RoundNumber,
        commit: Commit,
        current_tick: usize,
    ) -> (result: Result<Vec<(VoterId, Response)>, Fault>)
        requires
            old(self).wf(),
        ensures
            final(self).wf(),
            request_step(
                *old(self),
                sender@,
                RequestView::HereIsCommit(round_number, commit.deep_view()),
                current_tick,
                *final(self),
                answers_view(result),
            ),
    {
        match self.chain.commit_for_block(commit.target_number) {
            Some(known) => {
                if commit.same_as(known) {
                    let none: Vec<(VoterId, Response)> = Vec::new();
                    assert(none.deep_view() =~= Seq::<(Name, ResponseView)>::empty());
                    return Ok(none);
                } else {
                    return Err(Fault::CommitMismatch);
                }
            },
            None => {},
        }
        if current_tick > usize::MAX - DELAY {
            return Err(Fault::OutOfTicks);
        }
        if !self.chain.knows_about_block(commit.target_number) {
            let target = commit.target_number;
            let waiting = Action::RequeueRequest(
                (sender.clone(), Request::HereIsCommit(round_number, commit)),
            );
            let entry = (current_tick + DELAY, waiting);
            let ghost before = self.queue();
            self.actions.push(entry);
            assert(self.queue() =~= before.push(entry.deep_view()));
            let mut answers: Vec<(VoterId, Response)> = Vec::new();
            let answer = (sender, Response::RequestBlock(target));
            answers.push(answer);
            assert(answers.deep_view() =~= seq![answer.deep_view()]);
            return Ok(answers);
        }
        let found = match self.find_conflicts(commit.target_number) {
            Ok(found) => found,
            Err(fault) => {
                return Err(fault);
            },
        };
        assert(ballots_of(commit.precommits@) =~= commit.precommits.deep_view());
        let receivers = unique_names(names_of(&commit.precommits));
        let ghost asked = first_occurrences(voter_names(commit.deep_view().precommits));
        let ghost queue = self.queue();
        let ghost runs = self.runs();
        let ghost questions = found@.map_values(
            |block: BlockNumber| first_question(block, round_number, asked, current_tick),
        );
        let ghost opened = found@.map_values(
            |block: BlockNumber| opened_run(old(self).chain, block, round_number, asked),
        );
        let mut k: usize = 0;
        assert(queue + questions.subrange(0, 0) =~= queue);
        assert(runs + opened.subrange(0, 0) =~= runs);
        while k < found.len()
            invariant
                k <= found.len(),
                self.wf(),
                has_room(current_tick),
                self.id == old(self).id,
                self.chain == old(self).chain,
                self.voter_set == old(self).voter_set,
                self.voting_rounds == old(self).voting_rounds,
                self.behaviour == old(self).behaviour,
                receivers.deep_view() == asked,
                forall|j: int|
                    0 <= j < found.len() ==> self.chain.finalized_order().contains(
                        #[trigger] found[j],
                    ),
                questions == found@.map_values(
                    |block: BlockNumber| first_question(block, round_number, asked, current_tick),
                ),
                opened == found@.map_values(
                    |block: BlockNumber| opened_run(old(self).chain, block, round_number, asked),
                ),
                self.queue() == queue + questions.subrange(0, k as int),
                self.runs() == runs + opened.subrange(0, k as int),
            decreases found.len() - k,
        {
            let block = found[k];
            assert(self.chain.finalized_order().contains(block));
            let finalized_in = match self.chain.finalized_round(block) {
                Some(round) => *round,
                None => 0,
            };
            let certificate = match self.chain.commit_for_block(block) {
                Some(known) => known.clone(),
                None => Commit::new(block, Vec::new()),
            };
            let mut run = AccountableSafety::start(block, finalized_in, certificate);
            let query = run.start_query_round(round_number, clone_names(receivers.as_slice()));
            assert(run.deep_view() == opened[k as int]);
            let entry = (current_tick + DELAY, Action::AskVotersAboutEstimate(query));
            assert(entry.deep_view() == questions[k as int]);
            let ghost queue_so_far = self.queue();
            let ghost runs_so_far = self.runs();
            self.actions.push(entry);
            self.accountable_safety.push(run);
            assert(self.queue() =~= queue_so_far.push(entry.deep_view()));
            assert(self.runs() =~= runs_so_far.push(run.deep_view()));
            assert(questions.subrange(0, k + 1) =~= questions.subrange(0, k as int).push(
                questions[k as int],
            ));
            assert(opened.subrange(0, k + 1) =~= opened.subrange(0, k as int).push(
                opened[k as int],
            ));
            k += 1;
        }
        assert(questions.subrange(0, k as int) == questions);
        assert(opened.subrange(0, k as int) == opened);
        let ghost certificate = commit.deep_view();
        let ghost before = self.chain.commits_map();
        match self.chain.finalize_block(commit.target_number, round_number, commit) {
            Ok(()) => {},
            Err(e) => {
                return Err(Fault::Ledger(e));
            },
        }
        assert(self.chain.commits_map().remove(certificate.target) =~= before);
        assert(certificate_recorded(old(self).chain, round_number, certificate, self.chain));
        let none: Vec<(VoterId, Response)> = Vec::new();
        assert(none.deep_view() =~= Seq::<(Name, ResponseView)>::empty());
        Ok(none)
    }

    /// Takes blocks into the ledger, one after the other.
    fn receive_blocks(&mut self, blocks: Vec<Block>) -> (result: Result<
        Vec<(VoterId, Response)>,
        Fault,
    >)
        requires
            old(self).wf(),
        ensures
            final(self).wf(),
            final(self).id == old(self).id,
            final(self).voter_set == old(self).voter_set,
            final(self).voting_rounds == old(self).voting_rounds,
            final(self).behaviour == old(self).behaviour,
            final(self).actions == old(self).actions,
            final(self).accountable_safety == old(self).accountable_safety,
            final(self).chain.commits_map() == old(self).chain.commits_map(),
            final(self).chain.rounds_map() == old(self).chain.rounds_map(),
            final(self).chain.finalized_order() == old(self).chain.finalized_order(),
            final(self).chain.blocks() == take_in(old(self).chain.blocks(), blocks@).0,
            final(self).chain.blocks() == old(self).chain.blocks() ==> final(self).chain == old(
                self,
            ).chain,
            all_there(old(self).chain.blocks(), blocks@) ==> take_in(
                old(self).chain.blocks(),
                blocks@,
            ) == (old(self).chain.blocks(), None::<Fault>),
            take_in(old(self).chain.blocks(), blocks@).1 is None ==> all_there(
                final(self).chain.blocks(),
                blocks@,
            ),
            answers_view(result) == (match take_in(old(self).chain.blocks(), blocks@).1 {
                None => no_answer(),
                Some(fault) => failed(fault),
            }),
    {
        let ghost start = self.chain.blocks();
        let mut i: usize = 0;
        proof {
            if all_there(start, blocks@) {
                lemma_take_in_what_is_there(start, blocks@);
            }
            if take_in(start, blocks@).1 is None {
                lemma_taken_in_is_there(start, blocks@);
            }
        }
        assert(blocks@.subrange(0, blocks@.len() as int) == blocks@);
        while i < blocks.len()
            invariant
                i <= blocks.len(),
                self.wf(),
                self.id == old(self).id,
                self.voter_set == old(self).voter_set,
                self.voting_rounds == old(self).voting_rounds,
                self.behaviour == old(self).behaviour,
                self.actions == old(self).actions,
                self.accountable_safety == old(self).accountable_safety,
                self.chain.commits_map() == old(self).chain.commits_map(),
                self.chain.rounds_map() == old(self).chain.rounds_map(),
                self.chain.finalized_order() == old(self).chain.finalized_order(),
                start == old(self).chain.blocks(),
                holds_all_of(self.chain.blocks(), start),
                self.chain == old(self).chain || exists|n: BlockNumber|
                    #[trigger] self.chain.blocks().contains_key(n) && !start.contains_key(n),
                take_in(start, blocks@) == take_in(
                    self.chain.blocks(),
                    blocks@.subrange(i as int, blocks@.len() as int),
                ),
            decreases blocks.len() - i,
        {
            let ghost rest = blocks@.subrange(i as int, blocks@.len() as int);
            assert(rest[0] == blocks@[i as int]);
            assert(rest.drop_first() == blocks@.subrange(i + 1, blocks@.len() as int));
            let block = blocks[i];
            match self.chain.get_block(block.number) {
                Some(known) => {
                    if *known != block {
                        return Err(Fault::BlockMismatch);
                    }
                },
                None => {
                    let ghost before = self.chain.blocks();
                    match self.chain.add_block(block) {
                        Ok(()) => {
                            assert(self.chain.blocks().contains_key(block.number));
                            assert(!start.contains_key(block.number)) by {
                                if start.contains_key(block.number) {
                                    assert(before.contains_key(block.number));
                                }
                            }
                            assert forall|n: BlockNumber| start.contains_key(n) implies (
                            #[trigger] self.chain.blocks().contains_key(n)) && self.chain.blocks()[n]
                                == start[n] by {
                                assert(before.contains_key(n));
                            }
                        },
                        Err(e) => {
                            return Err(Fault::Ledger(e));
                        },
                    }
                },
            }
            i += 1;
        }
        let none: Vec<(VoterId, Response)> = Vec::new();
        assert(none.deep_view() =~= Seq::<(Name, ResponseView)>::empty());
        Ok(none)
    }

    /// Picks the one valid answer among those offered. There must be one and
    /// no more.
    fn select_valid_query_response(
        &self,
        potential_query_responses: Vec<QueryResponse>,
        block_not_included: BlockNumber,
    ) -> (result: Result<QueryResponse, Fault>)
        requires
            self.chain.wf(),
        ensures
            match select_valid(
                self.chain.blocks(),
                potential_query_responses.deep_view(),
                block_not_included,
                self.voter_set.names(),
            ) {
                Err(e) => result == Err::<QueryResponse, Fault>(Fault::Ledger(e)),
                Ok(valid) => if valid.len() == 1 {
                    result is Ok && result->Ok_0.deep_view() == valid[0]
                } else {
                    result == Err::<QueryResponse, Fault>(Fault::AmbiguousEstimate)
                },
            },
    {
        let voters = self.voter_set.voter_ids();
        let ghost offered = potential_query_responses.deep_view();
        let ghost blocks = self.chain.blocks();
        let ghost names = self.voter_set.names();
        let mut valid: Vec<usize> = Vec::new();
        let ghost mut chosen = Seq::<ReplyView>::empty();
        let mut i: usize = 0;
        assert(offered.subrange(0, 0) =~= Seq::<ReplyView>::empty());
        while i < potential_query_responses.len()
            invariant
                i <= potential_query_responses.len(),
                self.chain.wf(),
                blocks == self.chain.blocks(),
                names == self.voter_set.names(),
                voters.deep_view() == names,
                offered == potential_query_responses.deep_view(),
                select_valid(blocks, offered.subrange(0, i as int), block_not_included, names)
                    == Ok::<Seq<ReplyView>, ChainError>(chosen),
                valid.len() == chosen.len(),
                forall|k: int|
                    0 <= k < valid.len() ==> (#[trigger] valid[k]) < i && offered[valid[k] as int]
                        == chosen[k],
            decreases potential_query_responses.len() - i,
        {
            let ghost next = offered.subrange(0, i + 1);
            assert(next.drop_last() == offered.subrange(0, i as int));
            assert(next.last() == offered[i as int]);
            assert(offered[i as int] == potential_query_responses[i as int].deep_view());
            match check_query_reply_is_valid(
                &potential_query_responses[i],
                block_not_included,
                voters.as_slice(),
                &self.chain,
            ) {
                Err(e) => {
                    proof {
                        lemma_selection_failure_stays(
                            blocks,
                            offered,
                            i + 1,
                            block_not_included,
                            names,
                        );
                    }
                    return Err(Fault::Ledger(e));
                },
                Ok(true) => {
                    valid.push(i);
                    proof {
                        chosen = chosen.push(offered[i as int]);
                    }
                },
                Ok(false) => {},
            }
            i += 1;
        }
        assert(offered.subrange(0, i as int) == offered);
        if valid.len() == 1 {
            Ok(potential_query_responses[valid[0]].clone())
        } else {
            Err(Fault::AmbiguousEstimate)
        }
    }

    /// Answers the question why the estimate for the round before `round`
    /// did not include `block_not_included`.
    fn explain_estimate(
        &self,
        sender: VoterId,
        round: RoundNumber,
        block_not_included: BlockNumber,
    ) -> (result: Result<Vec<(VoterId, Response)>, Fault>)
        requires
            self.chain.wf(),
        ensures
            answers_view(result) == self.explanation(sender@, round, block_not_included),
    {
        if round == 0 {
            return Err(Fault::NoEarlierRound);
        }
        let before = round - 1;
        let records = match self.voting_rounds.get(&before) {
            Some(records) => records,
            None => {
                return Err(Fault::NoVotesRecorded);
            },
        };
        let returns_prevotes = match self.behaviour {
            Some(Behaviour::ReturnPrevotes) => true,
            _ => false,
        };
        let mut offered: Vec<QueryResponse> = Vec::new();
        let mut i: usize = 0;
        while i < records.len()
            invariant
                i <= records.len(),
                returns_prevotes == (self.behaviour == Some(Behaviour::ReturnPrevotes)),
                offered.len() == i,
                forall|k: int|
                    0 <= k < i ==> offered[k].deep_view() == candidates(
                        records@,
                        self.behaviour,
                    )[k],
            decreases records.len() - i,
        {
            let offer = if returns_prevotes {
                let votes = copy_votes(&records[i].prevotes);
                assert(votes.deep_view() =~= records[i as int].prevotes.deep_view());
                QueryResponse::Prevotes(votes)
            } else {
                let votes = copy_votes(&records[i].precommits);
                assert(votes.deep_view() =~= records[i as int].precommits.deep_view());
                QueryResponse::Precommits(votes)
            };
            offered.push(offer);
            i += 1;
        }
        assert(offered.deep_view() =~= candidates(records@, self.behaviour));
        let response = match self.select_valid_query_response(offered, block_not_included) {
            Ok(response) => response,
            Err(fault) => {
                return Err(fault);
            },
        };
        let mut answers: Vec<(VoterId, Response)> = Vec::new();
        let answer = (sender, Response::ExplainEstimate(round, response));
        answers.push(answer);
        assert(answers.deep_view() =~= seq![answer.deep_view()]);
        Ok(answers)
    }

    /// Answers the question which prevotes this voter has seen in `round`.
    fn report_prevotes(&self, sender: VoterId, round: RoundNumber) -> (answers: Vec<
        (VoterId, Response),
    >)
        ensures
            answers.deep_view() == seq![
                (
                    sender@,
                    ResponseView::PrevotesSeen(round, ReplyView::Prevotes(self.prevotes_seen(round))),
                ),
            ],
    {
        let mut seen: Vec<Prevote> = Vec::new();
        assert(seen.deep_view() =~= Seq::<Ballot>::empty());
        match self.voting_rounds.get(&round) {
            Some(records) => {
                let ghost all = records@;
                let mut i: usize = 0;
                assert(all.subrange(0, 0) =~= Seq::<VotingRound>::empty());
                while i < records.len()
                    invariant
                        i <= records.len(),
                        all == records@,
                        seen.deep_view() == prevotes_on_record(all.subrange(0, i as int)),
                    decreases records.len() - i,
                {
                    let ghost next = all.subrange(0, i + 1);
                    assert(next.drop_last() == all.subrange(0, i as int));
                    assert(next.last() == all[i as int]);
                    let ghost before = seen.deep_view();
                    let mut more = copy_votes(&records[i].prevotes);
                    assert(more.deep_view() =~= records[i as int].prevotes.deep_view());
                    seen.append(&mut more);
                    assert(seen.deep_view() =~= before + records[i as int].prevotes.deep_view());
                    i += 1;
                }
                assert(all.subrange(0, i as int) == all);
            },
            None => {},
        }
        let mut answers: Vec<(VoterId, Response)> = Vec::new();
        let answer = (sender, Response::PrevotesSeen(round, QueryResponse::Prevotes(seen)));
        answers.push(answer);
        assert(answers.deep_view() =~= seq![answer.deep_view()]);
        answers
    }

    /// Takes in the request `request.1` of the voter `request.0` at the tick
    /// `current_tick`, and returns the answers, each with the voter that it
    /// goes to.
    pub fn handle_request(
        &mut self,
        request: (VoterId, Request),
        current_tick: usize,
    ) -> (result: Result<Vec<(VoterId, Response)>, Fault>)
        requires
            old(self).wf(),
        ensures
            final(self).wf(),
            request_step(
                *old(self),
                request.0@,
                request.1.deep_view(),
                current_tick,
                *final(self),
                answers_view(result),
            ),
            result is Ok ==> result->Ok_0@.len() == answers_view(result)->Ok_0.len(),
    {
        let (sender, content) = request;
        match content {
            Request::HereIsCommit(round_number, commit) => self.receive_commit(
                sender,
                round_number,
                commit,
                current_tick,
            ),
            Request::HereAreBlocks(blocks) => self.receive_blocks(blocks),
            Request::WhyDidEstimateForRoundNotIncludeBlock(round, block_not_included) => {
                self.explain_estimate(sender, round, block_not_included)
            },
            Request::WhichPrevotesSeenInRound(round) => Ok(self.report_prevotes(sender, round)),
        }
    }
}

/// The resolve that the question `next` leads to, made at the tick `tick`.
pub open spec fn next_question(next: NextQueryView, tick: TriggerAtTick) -> (
    TriggerAtTick,
    ActionView,
) {
    (
        (tick + DELAY) as usize,
        match next {
            NextQueryView::AskAboutRound(query) => ActionView::AskVotersAboutEstimate(query),
            NextQueryView::PrevotesForRound(query) => ActionView::AskVotersWhichPrevotesSeen(query),
        },
    )
}

/// What a response leaves as it was: who the voter is, its ledger and its
/// records, and every run of the protocol but the first.
pub open spec fn response_keeps(pre: Voter, post: Voter) -> bool {
    &&& post.id == pre.id
    &&& post.chain == pre.chain
    &&& post.voter_set == pre.voter_set
    &&& post.voting_rounds == pre.voting_rounds
    &&& post.behaviour == pre.behaviour
    &&& post.runs().len() == pre.runs().len()
    &&& forall|i: int| 1 <= i < pre.runs().len() ==> post.runs()[i] == pre.runs()[i]
}

/// The step that an answer about an estimate makes: the first run of the
/// protocol takes its step, and the question that it asks next, if it asks
/// one, is resolved on. Without room to put the question off, and without a
/// run, the answer is a failure and changes nothing.
pub open spec fn explanation_step(
    pre: Voter,
    sender: Name,
    round: RoundNumber,
    reply: ReplyView,
    tick: TriggerAtTick,
    post: Voter,
    result: Result<(), Fault>,
) -> bool {
    if !has_room(tick) {
        &&& post == pre
        &&& result == Err::<(), Fault>(Fault::OutOfTicks)
    } else if pre.runs().len() == 0 {
        &&& post == pre
        &&& result == Err::<(), Fault>(Fault::NoActiveInstance)
    } else {
        exists|outcome: Result<Option<NextQueryView>, Fault>|
            {
                &&& #[trigger] add_response_step(
                    pre.runs()[0],
                    pre.chain.blocks(),
                    round,
                    sender,
                    reply,
                    post.runs()[0],
                    outcome,
                )
                &&& resolved_after(pre, outcome, tick, post, result)
            }
    }
}

/// What follows the step of a run that ended in `outcome`: a failure is
/// handed on, and the question to ask next, if there is one, is resolved on.
pub open spec fn resolved_after(
    pre: Voter,
    outcome: Result<Option<NextQueryView>, Fault>,
    tick: TriggerAtTick,
    post: Voter,
    result: Result<(), Fault>,
) -> bool {
    match outcome {
        Err(fault) => post.queue() == pre.queue() && result == Err::<(), Fault>(fault),
        Ok(None) => post.queue() == pre.queue() && result == Ok::<(), Fault>(()),
        Ok(Some(next)) => post.queue() == pre.queue().push(next_question(next, tick)) && result
            == Ok::<(), Fault>(()),
    }
}

/// The step that an answer about prevotes seen makes: the first run of the
/// protocol takes its step. Without a run the answer is a failure.
pub open spec fn prevotes_seen_step(
    pre: Voter,
    sender: Name,
    round: RoundNumber,
    reply: ReplyView,
    post: Voter,
    result: Result<(), Fault>,
) -> bool {
    &&& post.actions == pre.actions
    &&& if pre.runs().len() == 0 {
        post == pre && result == Err::<(), Fault>(Fault::NoActiveInstance)
    } else {
        add_prevote_response_step(pre.runs()[0], round, sender, reply, post.runs()[0], result)
    }
}

/// The step that a response makes: from the state `pre` of a voter, the
/// response `response` of `sender`, taken in at the tick `tick`, leads to the
/// state `post` and to `result`.
///
/// A request for a block leads to the resolve to send it, and is a failure
/// where there is no room to put the sending off. An answer about an
/// estimate, and one about prevotes seen, goes to the first run of the
/// protocol, also where the voter has started more than one.
pub open spec fn response_step(
    pre: Voter,
    sender: Name,
    response: ResponseView,
    tick: TriggerAtTick,
    post: Voter,
    result: Result<(), Fault>,
) -> bool {
    &&& response_keeps(pre, post)
    &&& match response {
        ResponseView::RequestBlock(block) => {
            &&& post.accountable_safety == pre.accountable_safety
            &&& if has_room(tick) {
                &&& post.queue() == pre.queue().push(
                    ((tick + DELAY) as usize, ActionView::SendBlock(sender, block)),
                )
                &&& result == Ok::<(), Fault>(())
            } else {
                &&& post == pre
                &&& result == Err::<(), Fault>(Fault::OutOfTicks)
            }
        },
        ResponseView::ExplainEstimate(round, reply) => explanation_step(
            pre,
            sender,
            round,
            reply,
            tick,
            post,
            result,
        ),
        ResponseView::PrevotesSeen(round, reply) => prevotes_seen_step(
            pre,
            sender,
            round,
            reply,
            post,
            result,
        ),
    }
}

/// Everything that the runs have detected, run by run.
pub open spec fn detected_by(runs: Seq<SafetyView>) -> Seq<DetectedView>
    decreases runs.len(),
{
    if runs.len() == 0 {
        Seq::empty()
    } else {
        detected_by(runs.drop_last()) + runs.last().equivocations_detected()
    }
}

impl Voter {
    /// Resolves to send the block that `sender` asks for.
    fn receive_block_request(
        &mut self,
        sender: VoterId,
        block_number: BlockNumber,
        current_tick: usize,
    ) -> (result: Result<(), Fault>)
        requires
            old(self).wf(),
        ensures
            final(self).wf(),
            response_step(
                *old(self),
                sender@,
                ResponseView::RequestBlock(block_number),
                current_tick,
                *final(self),
                result,
            ),
    {
        if current_tick > usize::MAX - DELAY {
            return Err(Fault::OutOfTicks);
        }
        let ghost queue = self.queue();
        let entry = (current_tick + DELAY, Action::SendBlock(sender, block_number));
        self.actions.push(entry);
        assert(self.queue() =~= queue.push(entry.deep_view()));
        Ok(())
    }

    /// Hands an answer about an estimate to the first run of the protocol.
    fn receive_explanation(
        &mut self,
        sender: VoterId,
        round_number: RoundNumber,
        query_response: QueryResponse,
        current_tick: usize,
    ) -> (result: Result<(), Fault>)
        requires
            old(self).wf(),
        ensures
            final(self).wf(),
            response_step(
                *old(self),
                sender@,
                ResponseView::ExplainEstimate(round_number, query_response.deep_view()),
                current_tick,
                *final(self),
                result,
            ),
    {
        let ghost queue = self.queue();
        let ghost runs = self.runs();
        if current_tick > usize::MAX - DELAY {
            return Err(Fault::OutOfTicks);
        }
        if self.accountable_safety.len() == 0 {
            return Err(Fault::NoActiveInstance);
        }
        assert(runs[0] == self.accountable_safety[0].deep_view());
        let outcome = self.accountable_safety[0].add_response(
            round_number,
            sender,
            query_response,
            &self.chain,
        );
        assert(self.runs()[0] == self.accountable_safety[0].deep_view());
        assert(self.runs().len() == runs.len());
        assert forall|i: int| 1 <= i < runs.len() implies self.runs()[i] == runs[i] by {
            assert(self.accountable_safety[i] == old(self).accountable_safety[i]);
        }
        let ghost stepped = outcome_view(outcome);
        assert(add_response_step(
            runs[0],
            self.chain.blocks(),
            round_number,
            sender@,
            query_response.deep_view(),
            self.runs()[0],
            stepped,
        ));
        let result = match outcome {
            Err(fault) => Err(fault),
            Ok(None) => Ok(()),
            Ok(Some(next)) => {
                let ghost asked = next.deep_view();
                let action = match next {
                    NextQuery::AskAboutRound(query) => Action::AskVotersAboutEstimate(query),
                    NextQuery::PrevotesForRound(query) => Action::AskVotersWhichPrevotesSeen(query),
                };
                let entry = (current_tick + DELAY, action);
                assert(entry.deep_view() == next_question(asked, current_tick));
                self.actions.push(entry);
                assert(self.queue() =~= queue.push(entry.deep_view()));
                Ok(())
            },
        };
        assert(self.runs()[0] == self.accountable_safety[0].deep_view());
        assert(self.runs().len() == runs.len());
        assert forall|i: int| 1 <= i < runs.len() implies self.runs()[i] == runs[i] by {
            assert(self.accountable_safety[i] == old(self).accountable_safety[i]);
        }
        assert(add_response_step(
            old(self).runs()[0],
            old(self).chain.blocks(),
            round_number,
            sender@,
            query_response.deep_view(),
            self.runs()[0],
            stepped,
        ));
        assert(resolved_after(*old(self), stepped, current_tick, *self, result));
        assert(explanation_step(
            *old(self),
            sender@,
            round_number,
            query_response.deep_view(),
            current_tick,
            *self,
            result,
        ));
        assert(response_keeps(*old(self), *self));
        result
    }

    /// Hands an answer about prevotes seen to the first run of the protocol.
    fn receive_prevotes_seen(
        &mut self,
        sender: VoterId,
        round_number: RoundNumber,
        query_response: QueryResponse,
        current_tick: usize,
    ) -> (result: Result<(), Fault>)
        requires
            old(self).wf(),
        ensures
            final(self).wf(),
            response_step(
                *old(self),
                sender@,
                ResponseView::PrevotesSeen(round_number, query_response.deep_view()),
                current_tick,
                *final(self),
                result,
            ),
    {
        let ghost runs = self.runs();
        if self.accountable_safety.len() == 0 {
            return Err(Fault::NoActiveInstance);
        }
        assert(runs[0] == self.accountable_safety[0].deep_view());
        let outcome = self.accountable_safety[0].add_prevote_response(
            round_number,
            sender,
            query_response,
        );
        assert(self.runs()[0] == self.accountable_safety[0].deep_view());
        assert(self.runs().len() == runs.len());
        assert forall|i: int| 1 <= i < runs.len() implies self.runs()[i] == runs[i] by {
            assert(self.accountable_safety[i] == old(self).accountable_safety[i]);
        }
        outcome
    }

    /// Takes in the response `response.1` of the voter `response.0` at the
    /// tick `current_tick`.
    pub fn handle_response(
        &mut self,
        response: (VoterId, Response),
        current_tick: usize,
    ) -> (result: Result<(), Fault>)
        requires
            old(self).wf(),
        ensures
            final(self).wf(),
            response_step(
                *old(self),
                response.0@,
                response.1.deep_view(),
                current_tick,
                *final(self),
                result,
            ),
    {
        let (sender, content) = response;
        match content {
            Response::RequestBlock(block_number) => self.receive_block_request(
                sender,
                block_number,
                current_tick,
            ),
            Response::ExplainEstimate(round_number, query_response) => self.receive_explanation(
                sender,
                round_number,
                query_response,
                current_tick,
            ),
            Response::PrevotesSeen(round_number, query_response) => self.receive_prevotes_seen(
                sender,
                round_number,
                query_response,
                current_tick,
            ),
        }
    }

    /// Everything that the runs of this voter have detected, run by run.
    pub fn equivocations_detected(&self) -> (all: Vec<EquivocationDetected>)
        ensures
            all.deep_view() == detected_by(self.runs()),
    {
        let ghost runs = self.runs();
        let mut all: Vec<EquivocationDetected> = Vec::new();
        let mut i: usize = 0;
        assert(runs.subrange(0, 0) =~= Seq::<SafetyView>::empty());
        assert(all.deep_view() =~= Seq::<DetectedView>::empty());
        while i < self.accountable_safety.len()
            invariant
                i <= self.accountable_safety.len(),
                runs == self.runs(),
                all.deep_view() == detected_by(runs.subrange(0, i as int)),
            decreases self.accountable_safety.len() - i,
        {
            let ghost next = runs.subrange(0, i + 1);
            assert(next.drop_last() == runs.subrange(0, i as int));
            assert(next.last() == runs[i as int]);
            assert(runs[i as int] == self.accountable_safety[i as int].deep_view());
            let ghost before = all.deep_view();
            let mut more = self.accountable_safety[i].equivocations_detected();
            let ghost added = more.deep_view();
            all.append(&mut more);
            assert(all.deep_view() =~= before + added);
            i += 1;
        }
        assert(runs.subrange(0, i as int) == runs);
        all
    }
}

/// The two voters are in the same state: they are the same voter, with the
/// same ledger, the same records, the same resolves and the same runs of the
/// protocol.
pub open spec fn same_state(a: Voter, b: Voter) -> bool {
    &&& a.id == b.id
    &&& a.voter_set == b.voter_set
    &&& a.voting_rounds == b.voting_rounds
    &&& a.behaviour == b.behaviour
    &&& a.chain.blocks() == b.chain.blocks()
    &&& a.chain.commits_map() == b.chain.commits_map()
    &&& a.chain.rounds_map() == b.chain.rounds_map()
    &&& a.chain.finalized_order() == b.chain.finalized_order()
    &&& a.queue() == b.queue()
    &&& a.runs() == b.runs()
}

/// The ledger `grown` holds every block of `blocks`, as `blocks` holds it.
pub open spec fn holds_all_of(
    grown: Map<BlockNumber, Block>,
    blocks: Map<BlockNumber, Block>,
) -> bool {
    forall|n: BlockNumber|
        blocks.contains_key(n) ==> #[trigger] grown.contains_key(n) && grown[n] == blocks[n]
}

/// Taking blocks in adds to the ledger and overwrites nothing; and taking
/// the same blocks in once more changes nothing and ends as it ended before.
pub proof fn lemma_take_in_twice(blocks: Map<BlockNumber, Block>, incoming: Seq<Block>)
    ensures
        holds_all_of(take_in(blocks, incoming).0, blocks),
        take_in(take_in(blocks, incoming).0, incoming) == take_in(blocks, incoming),
    decreases incoming.len(),
{
    let taken = take_in(blocks, incoming);
    if incoming.len() > 0 {
        let block = incoming[0];
        let rest = incoming.drop_first();
        if blocks.contains_key(block.number) {
            if blocks[block.number] == block {
                lemma_take_in_twice(blocks, rest);
                assert(taken == take_in(blocks, rest));
                assert(taken.0.contains_key(block.number));
                assert(take_in(taken.0, incoming) == take_in(taken.0, rest));
            } else {
                assert(taken.0 == blocks);
            }
        } else if blocks.contains_key(block.parent) {
            let grown = blocks.insert(block.number, block);
            lemma_take_in_twice(grown, rest);
            assert(taken == take_in(grown, rest));
            assert(grown.contains_key(block.number));
            assert(taken.0.contains_key(block.number) && taken.0[block.number] == block);
            assert(take_in(taken.0, incoming) == take_in(taken.0, rest));
            assert forall|n: BlockNumber| blocks.contains_key(n) implies #[trigger] taken.0.contains_key(
                n,
            ) && taken.0[n] == blocks[n] by {
                assert(grown.contains_key(n));
            }
        } else {
            assert(taken.0 == blocks);
        }
    }
}

/// Blocks delivered a second time change nothing: whatever the first
/// delivery came to, the second leaves the voter in the state in which the
/// first left it, and ends as the first did.
pub proof fn lemma_blocks_delivered_twice(
    pre: Voter,
    sender: Name,
    blocks: Seq<Block>,
    first_tick: TriggerAtTick,
    between: Voter,
    first: Result<Seq<(Name, ResponseView)>, Fault>,
    second_tick: TriggerAtTick,
    post: Voter,
    second: Result<Seq<(Name, ResponseView)>, Fault>,
)
    requires
        request_step(pre, sender, RequestView::HereAreBlocks(blocks), first_tick, between, first),
        request_step(
            between,
            sender,
            RequestView::HereAreBlocks(blocks),
            second_tick,
            post,
            second,
        ),
    ensures
        same_state(post, between),
        second == first,
        first is Ok ==> second == no_answer(),
{
    lemma_take_in_twice(pre.chain.blocks(), blocks);
}

/// A block equal to the block that the ledger holds under its number
/// changes nothing and is no failure.
pub proof fn lemma_equal_block_changes_nothing(
    pre: Voter,
    sender: Name,
    block: Block,
    tick: TriggerAtTick,
    post: Voter,
    result: Result<Seq<(Name, ResponseView)>, Fault>,
)
    requires
        pre.chain.blocks().contains_key(block.number),
        pre.chain.blocks()[block.number] == block,
        request_step(pre, sender, RequestView::HereAreBlocks(seq![block]), tick, post, result),
    ensures
        same_state(post, pre),
        result == no_answer(),
{
    let incoming = seq![block];
    assert(incoming[0] == block);
    assert(incoming.drop_first().len() == 0);
    assert(take_in(pre.chain.blocks(), incoming) == take_in(
        pre.chain.blocks(),
        incoming.drop_first(),
    ));
}

/// A block that differs from the block that the ledger holds under its
/// number is a failure, and leaves the ledger and the voter as they were.
pub proof fn lemma_different_block_fails(
    pre: Voter,
    sender: Name,
    block: Block,
    tick: TriggerAtTick,
    post: Voter,
    result: Result<Seq<(Name, ResponseView)>, Fault>,
)
    requires
        pre.chain.blocks().contains_key(block.number),
        pre.chain.blocks()[block.number] != block,
        request_step(pre, sender, RequestView::HereAreBlocks(seq![block]), tick, post, result),
    ensures
        same_state(post, pre),
        result == failed(Fault::BlockMismatch),
{
    let incoming = seq![block];
    assert(incoming[0] == block);
}

/// A certificate equal to the one that the ledger holds for its block
/// changes nothing and is answered with nothing, at whatever tick it comes.
pub proof fn lemma_known_certificate_changes_nothing(
    pre: Voter,
    sender: Name,
    round: RoundNumber,
    commit: CommitView,
    tick: TriggerAtTick,
    post: Voter,
    result: Result<Seq<(Name, ResponseView)>, Fault>,
)
    requires
        pre.chain.commits_map().contains_key(commit.target),
        pre.chain.commits_map()[commit.target].deep_view() == commit,
        request_step(pre, sender, RequestView::HereIsCommit(round, commit), tick, post, result),
    ensures
        same_state(post, pre),
        result == no_answer(),
{
    assert(certificate_step(pre, sender, round, commit, tick, post, result));
}

/// Of two deliveries of a certificate for `target`, at the ticks
/// `first_tick` and `second_tick`, to a voter in the state `pre`, the second
/// is the first to act or acts again: the block has no certificate yet, the
/// second tick leaves room, and either the ledger does not know the block, so
/// that the certificate is put aside once more, or the first tick left no
/// room, so that the search for conflicts is yet to be made.
pub open spec fn second_delivery_acts(
    pre: Voter,
    target: BlockNumber,
    first_tick: TriggerAtTick,
    second_tick: TriggerAtTick,
) -> bool {
    &&& !pre.chain.commits_map().contains_key(target)
    &&& has_room(second_tick)
    &&& {
        ||| !pre.chain.blocks().contains_key(target)
        ||| !has_room(first_tick) && !search_fails(
            pre.chain.blocks(),
            pre.chain.finalized_order(),
            target,
        )
    }
}

/// A certificate delivered a second time changes nothing and starts no
/// second run of the protocol: the second delivery leaves the voter in the
/// state in which the first left it, runs and resolves included. Where the
/// first delivery was taken in, and not put aside for want of the block, the
/// second is answered with nothing. Left out are only the deliveries of which
/// the second is the first to act, or is put aside again.
pub proof fn lemma_certificate_delivered_twice(
    pre: Voter,
    sender: Name,
    round: RoundNumber,
    commit: CommitView,
    first_tick: TriggerAtTick,
    between: Voter,
    first: Result<Seq<(Name, ResponseView)>, Fault>,
    second_tick: TriggerAtTick,
    post: Voter,
    second: Result<Seq<(Name, ResponseView)>, Fault>,
)
    requires
        !second_delivery_acts(pre, commit.target, first_tick, second_tick),
        request_step(
            pre,
            sender,
            RequestView::HereIsCommit(round, commit),
            first_tick,
            between,
            first,
        ),
        request_step(
            between,
            sender,
            RequestView::HereIsCommit(round, commit),
            second_tick,
            post,
            second,
        ),
    ensures
        same_state(post, between),
        first is Ok && (pre.chain.commits_map().contains_key(commit.target)
            || pre.chain.blocks().contains_key(commit.target)) ==> second == no_answer(),
{
    assert(certificate_step(pre, sender, round, commit, first_tick, between, first));
    assert(certificate_step(between, sender, round, commit, second_tick, post, second));
}

/// A certificate that has started its runs starts none when it comes again:
/// where the first delivery found the block in the ledger, without a
/// certificate, and was taken in, the second delivery changes neither the
/// runs nor the resolves nor the ledger, and is answered with nothing.
pub proof fn lemma_runs_are_started_once(
    pre: Voter,
    sender: Name,
    round: RoundNumber,
    commit: CommitView,
    first_tick: TriggerAtTick,
    between: Voter,
    first: Result<Seq<(Name, ResponseView)>, Fault>,
    second_tick: TriggerAtTick,
    post: Voter,
    second: Result<Seq<(Name, ResponseView)>, Fault>,
)
    requires
        pre.chain.blocks().contains_key(commit.target),
        !pre.chain.commits_map().contains_key(commit.target),
        first is Ok,
        request_step(
            pre,
            sender,
            RequestView::HereIsCommit(round, commit),
            first_tick,
            between,
            first,
        ),
        request_step(
            between,
            sender,
            RequestView::HereIsCommit(round, commit),
            second_tick,
            post,
            second,
        ),
    ensures
        between.chain.commits_map().contains_key(commit.target),
        post.runs() == between.runs(),
        post.queue() == between.queue(),
        same_state(post, between),
        second == no_answer(),
{
    assert(certificate_step(pre, sender, round, commit, first_tick, between, first));
    assert(certificate_step(between, sender, round, commit, second_tick, post, second));
}

/// Once the choice among answers has failed, going on does not mend it.
pub proof fn lemma_selection_failure_stays(
    blocks: Map<BlockNumber, Block>,
    offered: Seq<ReplyView>,
    upto: int,
    block: BlockNumber,
    voters: Seq<Name>,
)
    requires
        0 <= upto <= offered.len(),
        select_valid(blocks, offered.subrange(0, upto), block, voters) is Err,
    ensures
        select_valid(blocks, offered, block, voters) == select_valid(
            blocks,
            offered.subrange(0, upto),
            block,
            voters,
        ),
    decreases offered.len() - upto,
{
    if upto == offered.len() {
        assert(offered.subrange(0, upto) == offered);
    } else {
        let longer = offered.subrange(0, upto + 1);
        assert(longer.drop_last() == offered.subrange(0, upto));
        lemma_selection_failure_stays(blocks, offered, upto + 1, block, voters);
    }
}

} // verus!
