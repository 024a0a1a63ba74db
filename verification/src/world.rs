//! The scheduler: it lets the voters act tick by tick and carries their
//! messages.
//!
//! Within a tick the actions of all voters that are due are collected first,
//! then all requests are delivered, and then all responses: a question and
//! its answer never meet in one tick.

use vstd::prelude::*;
use crate::action::TriggerAtTick;
use crate::fault::Fault;
use crate::message::{Message, MessageView, Payload, PayloadView, ResponseView};
use crate::names::{
    lemma_name_lt_total, lemma_name_lt_transitive, name_before, name_lt, names_ascending,
    same_name, Name,
};
use crate::protocol::{DetectedView, EquivocationDetected};
use crate::voter::{request_step, response_step, Voter};

verus! {

/// The number of ticks after which the scheduler is done.
pub const MAX_TICKS: usize = 5000;

pub struct World {
    voters: Vec<Voter>,
    current_tick: usize,
}

/// The names of the voters, voter by voter.
pub open spec fn ids_of(voters: Seq<Voter>) -> Seq<Name> {
    voters.map_values(|voter: Voter| voter.id@)
}

/// The voters stand in ascending order of their names, so that each name is
/// there once.
pub open spec fn in_name_order(voters: Seq<Voter>) -> bool {
    names_ascending(ids_of(voters))
}

/// How many voters stand at the front whose names come before `name`.
pub open spec fn names_below(voters: Seq<Voter>, name: Name) -> nat
    decreases voters.len(),
{
    if voters.len() == 0 || !name_lt(voters[0].id@, name) {
        0
    } else {
        1 + names_below(voters.drop_first(), name)
    }
}

/// The voters with `voter` among them, where its name puts it; a voter of
/// the same name gives way to it.
pub open spec fn seat(voters: Seq<Voter>, voter: Voter) -> Seq<Voter> {
    let at = names_below(voters, voter.id@) as int;
    if at < voters.len() && voters[at].id@ == voter.id@ {
        voters.update(at, voter)
    } else {
        voters.insert(at, voter)
    }
}

/// The voters in ascending order of their names. Of voters of one name the
/// last stays.
pub open spec fn seated(voters: Seq<Voter>) -> Seq<Voter>
    decreases voters.len(),
{
    if voters.len() == 0 {
        Seq::empty()
    } else {
        seat(seated(voters.drop_last()), voters.last())
    }
}

/// In front of where the lower names end stand the lower names, and behind
/// it, where the names ascend, the name itself or higher names.
pub proof fn lemma_names_below(voters: Seq<Voter>, name: Name)
    ensures
        names_below(voters, name) <= voters.len(),
        forall|i: int| 0 <= i < names_below(voters, name) ==> name_lt(voters[i].id@, name),
        names_below(voters, name) < voters.len() ==> !name_lt(
            voters[names_below(voters, name) as int].id@,
            name,
        ),
        in_name_order(voters) ==> forall|i: int|
            names_below(voters, name) < i < voters.len() ==> name_lt(name, voters[i].id@),
    decreases voters.len(),
{
    let at = names_below(voters, name);
    if !(voters.len() == 0 || !name_lt(voters[0].id@, name)) {
        let rest = voters.drop_first();
        lemma_names_below(rest, name);
        assert forall|i: int| 0 <= i < at implies name_lt(voters[i].id@, name) by {
            if i > 0 {
                assert(rest[i - 1] == voters[i]);
            }
        }
        if at < voters.len() {
            assert(rest[at - 1] == voters[at as int]);
        }
    }
    if in_name_order(voters) {
        assert forall|i: int| at < i < voters.len() implies name_lt(name, voters[i].id@) by {
            let ids = ids_of(voters);
            assert(ids[at as int] == voters[at as int].id@ && ids[i] == voters[i].id@);
            assert(name_lt(ids[at as int], ids[i]));
            lemma_name_lt_total(voters[at as int].id@, name);
            if voters[at as int].id@ != name {
                lemma_name_lt_transitive(name, voters[at as int].id@, voters[i].id@);
            }
        }
    }
}

/// Seating a voter keeps the order of the names, and keeps the voters well
/// formed.
pub proof fn lemma_seat_keeps_order(voters: Seq<Voter>, voter: Voter)
    requires
        in_name_order(voters),
    ensures
        in_name_order(seat(voters, voter)),
        all_wf(voters) && voter.wf() ==> all_wf(seat(voters, voter)),
{
    lemma_names_below(voters, voter.id@);
    let name = voter.id@;
    let at = names_below(voters, name) as int;
    let after = seat(voters, voter);
    let ids = ids_of(voters);
    let new_ids = ids_of(after);
    let replaced = at < voters.len() && voters[at].id@ == name;
    assert forall|i: int, j: int| 0 <= i < j < new_ids.len() implies name_lt(
        new_ids[i],
        new_ids[j],
    ) by {
        assert(new_ids[i] == after[i].id@ && new_ids[j] == after[j].id@);
        if replaced {
            assert(ids[i] == voters[i].id@ && ids[j] == voters[j].id@);
            assert(name_lt(ids[i], ids[j]));
        } else {
            let oi = if i < at {
                i
            } else {
                i - 1
            };
            let oj = if j < at {
                j
            } else {
                j - 1
            };
            if i != at && j != at {
                assert(ids[oi] == voters[oi].id@ && ids[oj] == voters[oj].id@);
                assert(name_lt(ids[oi], ids[oj]));
            } else if i == at {
                // The voter that stood here has a higher name, and so have
                // those behind it.
                if oj == at {
                    lemma_name_lt_total(voters[at].id@, name);
                }
            }
        }
    }
    if all_wf(voters) && voter.wf() {
        assert forall|i: int| 0 <= i < after.len() implies (#[trigger] after[i]).wf() by {
            if replaced {
                if i != at {
                    assert(after[i] == voters[i]);
                }
            } else if i < at {
                assert(after[i] == voters[i]);
            } else if i > at {
                assert(after[i] == voters[i - 1]);
            }
        }
    }
}

/// The seated voters stand in the order of their names; and they are well
/// formed if the voters are.
pub proof fn lemma_seated_in_order(voters: Seq<Voter>)
    ensures
        in_name_order(seated(voters)),
        all_wf(voters) ==> all_wf(seated(voters)),
    decreases voters.len(),
{
    if voters.len() > 0 {
        let init = voters.drop_last();
        lemma_seated_in_order(init);
        lemma_seat_keeps_order(seated(init), voters.last());
        if all_wf(voters) {
            assert forall|i: int| 0 <= i < init.len() implies (#[trigger] init[i]).wf() by {
                assert(init[i] == voters[i]);
            }
            assert(voters.last() == voters[voters.len() - 1]);
        }
    }
}

/// Voters that keep their names keep their order.
pub proof fn lemma_same_names_same_order(pre: Seq<Voter>, post: Seq<Voter>)
    requires
        in_name_order(pre),
        post.len() == pre.len(),
        forall|i: int| 0 <= i < pre.len() ==> (#[trigger] post[i]).id == pre[i].id,
    ensures
        in_name_order(post),
{
    assert(ids_of(post) =~= ids_of(pre));
}

/// How many voters stand at the front that are not called `name`.
pub open spec fn voters_before(voters: Seq<Voter>, name: Name) -> nat
    decreases voters.len(),
{
    if voters.len() == 0 || voters[0].id@ == name {
        0
    } else {
        1 + voters_before(voters.drop_first(), name)
    }
}

/// The answers of the voter `from` as messages.
pub open spec fn as_messages(from: Name, answers: Seq<(Name, ResponseView)>) -> Seq<MessageView> {
    answers.map_values(
        |answer: (Name, ResponseView)|
            MessageView {
                sender: from,
                receiver: answer.0,
                content: PayloadView::Response(answer.1),
            },
    )
}

/// How many voters stand at the front whose actions can be gone through
/// without a failure.
pub open spec fn unfailing_voters(voters: Seq<Voter>, tick: TriggerAtTick) -> nat
    decreases voters.len(),
{
    if voters.len() == 0 || voters[0].process(voters[0].queue(), tick) is Err {
        0
    } else {
        1 + unfailing_voters(voters.drop_first(), tick)
    }
}

/// The messages that the actions of the voters send, voter by voter.
pub open spec fn gathered(voters: Seq<Voter>, tick: TriggerAtTick) -> Seq<MessageView>
    decreases voters.len(),
{
    if voters.len() == 0 {
        Seq::empty()
    } else {
        gathered(voters.drop_last(), tick) + voters.last().process(
            voters.last().queue(),
            tick,
        )->Ok_0.messages
    }
}

/// The voter `post` is the voter `pre` after its actions were gone through:
/// its queue holds what was kept and, behind it, what was put off, and
/// nothing else has changed.
pub open spec fn has_acted(pre: Voter, tick: TriggerAtTick, post: Voter) -> bool {
    &&& post.id == pre.id
    &&& post.chain == pre.chain
    &&& post.voter_set == pre.voter_set
    &&& post.voting_rounds == pre.voting_rounds
    &&& post.accountable_safety == pre.accountable_safety
    &&& post.behaviour == pre.behaviour
    &&& post.queue() == pre.process(pre.queue(), tick)->Ok_0.kept + pre.process(
        pre.queue(),
        tick,
    )->Ok_0.postponed
}

/// The step of collecting the actions that are due: the voters act one after
/// the other, until one fails. Those before it have acted; it and those
/// behind it are as they were.
pub open spec fn actions_step(
    pre: Seq<Voter>,
    tick: TriggerAtTick,
    post: Seq<Voter>,
    result: Result<Seq<MessageView>, Fault>,
) -> bool {
    let acted = unfailing_voters(pre, tick) as int;
    &&& post.len() == pre.len()
    &&& forall|i: int| 0 <= i < acted ==> has_acted(pre[i], tick, #[trigger] post[i])
    &&& forall|i: int| acted <= i < pre.len() ==> #[trigger] post[i] == pre[i]
    &&& result == (if acted < pre.len() {
        Err::<Seq<MessageView>, Fault>(pre[acted].process(pre[acted].queue(), tick)->Err_0)
    } else {
        Ok::<Seq<MessageView>, Fault>(gathered(pre, tick))
    })
}

/// The step of delivering one request: the voter that it is addressed to,
/// the first of that name, takes it in, and its answers become messages from
/// it. A message to nobody and a message that is no request are failures.
pub open spec fn request_delivered(
    pre: Seq<Voter>,
    message: MessageView,
    tick: TriggerAtTick,
    post: Seq<Voter>,
    result: Result<Seq<MessageView>, Fault>,
) -> bool {
    let at = voters_before(pre, message.receiver) as int;
    match message.content {
        PayloadView::Response(_) => post == pre && result == Err::<Seq<MessageView>, Fault>(
            Fault::WrongPayload,
        ),
        PayloadView::Request(request) => {
            if at >= pre.len() {
                post == pre && result == Err::<Seq<MessageView>, Fault>(Fault::UnknownVoter)
            } else {
                &&& post.len() == pre.len()
                &&& forall|i: int| 0 <= i < pre.len() && i != at ==> #[trigger] post[i] == pre[i]
                &&& exists|answers: Result<Seq<(Name, ResponseView)>, Fault>|
                    {
                        &&& #[trigger] request_step(
                            pre[at],
                            message.sender,
                            request,
                            tick,
                            post[at],
                            answers,
                        )
                        &&& result == (match answers {
                            Ok(given) => Ok::<Seq<MessageView>, Fault>(
                                as_messages(message.receiver, given),
                            ),
                            Err(fault) => Err::<Seq<MessageView>, Fault>(fault),
                        })
                    }
            }
        },
    }
}

/// Marks the voters and the result that a delivery has come to on its way.
/// It holds of all of them.
pub open spec fn on_the_way<R>(voters: Seq<Voter>, so_far: Result<R, Fault>) -> bool {
    true
}

/// The step of delivering requests, one after the other, until one fails:
/// the messages in answer to them, in their order.
pub open spec fn requests_delivered(
    pre: Seq<Voter>,
    messages: Seq<MessageView>,
    tick: TriggerAtTick,
    post: Seq<Voter>,
    result: Result<Seq<MessageView>, Fault>,
) -> bool
    decreases messages.len(),
{
    if messages.len() == 0 {
        post == pre && result == Ok::<Seq<MessageView>, Fault>(Seq::empty())
    } else {
        exists|between: Seq<Voter>, earlier: Result<Seq<MessageView>, Fault>|
            {
                &&& #[trigger] on_the_way(between, earlier)
                &&& requests_delivered(pre, messages.drop_last(), tick, between, earlier)
                &&& match earlier {
                    Err(fault) => post == between && result == Err::<Seq<MessageView>, Fault>(
                        fault,
                    ),
                    Ok(answers) => exists|last: Result<Seq<MessageView>, Fault>|
                        {
                            &&& #[trigger] request_delivered(
                                between,
                                messages.last(),
                                tick,
                                post,
                                last,
                            )
                            &&& result == (match last {
                                Ok(more) => Ok::<Seq<MessageView>, Fault>(answers + more),
                                Err(fault) => Err::<Seq<MessageView>, Fault>(fault),
                            })
                        },
                }
            }
    }
}

/// The step of delivering one response: the voter that it is addressed to,
/// the first of that name, takes it in. A message to nobody and a message
/// that is no response are failures.
pub open spec fn response_delivered(
    pre: Seq<Voter>,
    message: MessageView,
    tick: TriggerAtTick,
    post: Seq<Voter>,
    result: Result<(), Fault>,
) -> bool {
    let at = voters_before(pre, message.receiver) as int;
    match message.content {
        PayloadView::Request(_) => post == pre && result == Err::<(), Fault>(Fault::WrongPayload),
        PayloadView::Response(response) => {
            if at >= pre.len() {
                post == pre && result == Err::<(), Fault>(Fault::UnknownVoter)
            } else {
                &&& post.len() == pre.len()
                &&& forall|i: int| 0 <= i < pre.len() && i != at ==> #[trigger] post[i] == pre[i]
                &&& response_step(pre[at], message.sender, response, tick, post[at], result)
            }
        },
    }
}

/// The step of delivering responses, one after the other, until one fails.
pub open spec fn responses_delivered(
    pre: Seq<Voter>,
    messages: Seq<MessageView>,
    tick: TriggerAtTick,
    post: Seq<Voter>,
    result: Result<(), Fault>,
) -> bool
    decreases messages.len(),
{
    if messages.len() == 0 {
        post == pre && result == Ok::<(), Fault>(())
    } else {
        exists|between: Seq<Voter>, earlier: Result<(), Fault>|
            {
                &&& #[trigger] on_the_way(between, earlier)
                &&& responses_delivered(pre, messages.drop_last(), tick, between, earlier)
                &&& match earlier {
                    Err(fault) => post == between && result == Err::<(), Fault>(fault),
                    Ok(_) => response_delivered(between, messages.last(), tick, post, result),
                }
            }
    }
}

/// Everything that the voters have detected, voter by voter.
pub open spec fn detected_among(voters: Seq<Voter>) -> Seq<DetectedView>
    decreases voters.len(),
{
    if voters.len() == 0 {
        Seq::empty()
    } else {
        detected_among(voters.drop_last()) + crate::voter::detected_by(voters.last().runs())
    }
}

/// Messages as the contracts see it.
pub open spec fn messages_view(result: Result<Vec<Message>, Fault>) -> Result<
    Seq<MessageView>,
    Fault,
> {
    match result {
        Ok(messages) => Ok(messages.deep_view()),
        Err(fault) => Err(fault),
    }
}

/// Every one of the voters is well formed.
pub open spec fn all_wf(voters: Seq<Voter>) -> bool {
    forall|i: int| 0 <= i < voters.len() ==> (#[trigger] voters[i]).wf()
}

/// Once the delivery of requests has failed, going on does not mend it.
pub proof fn lemma_request_failure_stays(
    pre: Seq<Voter>,
    messages: Seq<MessageView>,
    upto: int,
    tick: TriggerAtTick,
    post: Seq<Voter>,
    fault: Fault,
)
    requires
        0 <= upto <= messages.len(),
        requests_delivered(
            pre,
            messages.subrange(0, upto),
            tick,
            post,
            Err::<Seq<MessageView>, Fault>(fault),
        ),
    ensures
        requests_delivered(pre, messages, tick, post, Err::<Seq<MessageView>, Fault>(fault)),
    decreases messages.len() - upto,
{
    if upto == messages.len() {
        assert(messages.subrange(0, upto) == messages);
    } else {
        let longer = messages.subrange(0, upto + 1);
        assert(longer.drop_last() == messages.subrange(0, upto));
        let earlier = Err::<Seq<MessageView>, Fault>(fault);
        assert(requests_delivered(pre, longer.drop_last(), tick, post, earlier));
        assert(on_the_way(post, earlier));
        assert(requests_delivered(pre, longer, tick, post, Err::<Seq<MessageView>, Fault>(fault)));
        lemma_request_failure_stays(pre, messages, upto + 1, tick, post, fault);
    }
}

/// Once the delivery of responses has failed, going on does not mend it.
pub proof fn lemma_response_failure_stays(
    pre: Seq<Voter>,
    messages: Seq<MessageView>,
    upto: int,
    tick: TriggerAtTick,
    post: Seq<Voter>,
    fault: Fault,
)
    requires
        0 <= upto <= messages.len(),
        responses_delivered(pre, messages.subrange(0, upto), tick, post, Err::<(), Fault>(fault)),
    ensures
        responses_delivered(pre, messages, tick, post, Err::<(), Fault>(fault)),
    decreases messages.len() - upto,
{
    if upto == messages.len() {
        assert(messages.subrange(0, upto) == messages);
    } else {
        let longer = messages.subrange(0, upto + 1);
        assert(longer.drop_last() == messages.subrange(0, upto));
        assert(responses_delivered(pre, longer.drop_last(), tick, post, Err::<(), Fault>(fault)));
        assert(on_the_way(post, Err::<(), Fault>(fault)));
        assert(responses_delivered(pre, longer, tick, post, Err::<(), Fault>(fault)));
        lemma_response_failure_stays(pre, messages, upto + 1, tick, post, fault);
    }
}

impl World {
    /// The voters, in the order in which the scheduler visits them: that of
    /// their names.
    pub closed spec fn participants(&self) -> Seq<Voter> {
        self.voters@
    }

    /// The tick that the scheduler is at.
    pub closed spec fn now(&self) -> TriggerAtTick {
        self.current_tick
    }

    /// Every voter is well formed, and the voters stand in ascending order
    /// of their names, each name once.
    pub open spec fn wf(&self) -> bool {
        &&& all_wf(self.participants())
        &&& in_name_order(self.participants())
    }

    /// A scheduler at tick 0 for the voters `voters`. It visits them in
    /// ascending order of their names; of voters of one name it keeps the
    /// last.
    pub fn new(voters: Vec<Voter>) -> (world: Self)
        ensures
            world.participants() == seated(voters@),
            in_name_order(world.participants()),
            all_wf(voters@) ==> world.wf(),
            world.now() == 0,
    {
        let ghost all = voters@;
        let mut waiting = voters;
        let mut placed: Vec<Voter> = Vec::new();
        let ghost mut done: int = 0;
        assert(all.subrange(0, 0) =~= Seq::<Voter>::empty());
        assert(all.subrange(0, all.len() as int) == all);
        while waiting.len() > 0
            invariant
                0 <= done <= all.len(),
                waiting@ == all.subrange(done, all.len() as int),
                placed@ == seated(all.subrange(0, done)),
                in_name_order(placed@),
            decreases waiting.len(),
        {
            let voter = waiting.remove(0);
            let ghost before = placed@;
            proof {
                let next = all.subrange(0, done + 1);
                assert(next.drop_last() == all.subrange(0, done));
                assert(next.last() == all[done]);
                assert(voter == all[done]);
                assert(waiting@ =~= all.subrange(done + 1, all.len() as int));
                lemma_seat_keeps_order(before, voter);
            }
            let mut at: usize = 0;
            assert(before.subrange(0, before.len() as int) == before);
            while at < placed.len() && name_before(placed[at].id.as_str(), voter.id.as_str())
                invariant
                    at <= placed.len(),
                    before == placed@,
                    names_below(before, voter.id@) == at + names_below(
                        before.subrange(at as int, before.len() as int),
                        voter.id@,
                    ),
                decreases placed.len() - at,
            {
                let ghost rest = before.subrange(at as int, before.len() as int);
                assert(rest[0] == before[at as int]);
                assert(rest.drop_first() == before.subrange(at + 1, before.len() as int));
                at += 1;
            }
            proof {
                let rest = before.subrange(at as int, before.len() as int);
                if at < placed.len() {
                    assert(rest[0] == before[at as int]);
                }
            }
            if at < placed.len() && same_name(placed[at].id.as_str(), voter.id.as_str()) {
                placed[at] = voter;
                assert(placed@ =~= before.update(at as int, voter));
            } else {
                placed.insert(at, voter);
            }
            proof {
                done = done + 1;
            }
        }
        proof {
            assert(all.subrange(0, done) == all);
            lemma_seated_in_order(all);
        }
        Self { voters: placed, current_tick: 0 }
    }

    /// Goes on to the next tick.
    pub fn tick(&mut self)
        requires
            old(self).now() < usize::MAX,
        ensures
            final(self).now() == old(self).now() + 1,
            final(self).participants() == old(self).participants(),
    {
        self.current_tick += 1;
    }

    /// The voters, in the order in which the scheduler visits them: that of
    /// their names.
    pub fn voters(&self) -> (all: &Vec<Voter>)
        ensures
            all@ == self.participants(),
    {
        &self.voters
    }

    /// The tick that the scheduler is at.
    pub fn current_tick(&self) -> (tick: usize)
        ensures
            tick == self.now(),
    {
        self.current_tick
    }

    /// Whether the scheduler has done all its ticks.
    pub fn completed(&self) -> (done: bool)
        ensures
            done == (self.now() >= MAX_TICKS),
    {
        self.current_tick >= MAX_TICKS
    }

    /// Lets every voter carry out its actions that are due, one voter after
    /// the other, and returns the messages that they send.
    pub fn process_actions(&mut self) -> (result: Result<Vec<Message>, Fault>)
        requires
            old(self).wf(),
        ensures
            final(self).wf(),
            final(self).now() == old(self).now(),
            actions_step(
                old(self).participants(),
                old(self).now(),
                final(self).participants(),
                messages_view(result),
            ),
    {
        let ghost pre = self.voters@;
        let ghost tick = self.current_tick;
        let mut requests: Vec<Message> = Vec::new();
        let mut i: usize = 0;
        assert(pre.subrange(0, 0) =~= Seq::<Voter>::empty());
        assert(requests.deep_view() =~= Seq::<MessageView>::empty());
        assert(pre.subrange(0, pre.len() as int) == pre);
        while i < self.voters.len()
            invariant
                i <= self.voters.len(),
                self.current_tick == tick,
                tick == old(self).now(),
                pre == old(self).participants(),
                self.voters@.len() == pre.len(),
                all_wf(self.voters@),
                in_name_order(self.voters@),
                forall|k: int| 0 <= k < i ==> has_acted(pre[k], tick, #[trigger] self.voters@[k]),
                forall|k: int| i <= k < pre.len() ==> #[trigger] self.voters@[k] == pre[k],
                unfailing_voters(pre, tick) == i + unfailing_voters(
                    pre.subrange(i as int, pre.len() as int),
                    tick,
                ),
                requests.deep_view() == gathered(pre.subrange(0, i as int), tick),
            decreases self.voters.len() - i,
        {
            let ghost rest = pre.subrange(i as int, pre.len() as int);
            assert(rest[0] == pre[i as int]);
            assert(rest.drop_first() == pre.subrange(i + 1, pre.len() as int));
            let ghost next = pre.subrange(0, i + 1);
            assert(next.drop_last() == pre.subrange(0, i as int));
            assert(next.last() == pre[i as int]);
            let ghost voters_before_call = self.voters@;
            match self.voters[i].process_actions(self.current_tick) {
                Ok(mut more) => {
                    let ghost before = requests.deep_view();
                    let ghost added = more.deep_view();
                    requests.append(&mut more);
                    assert(requests.deep_view() =~= before + added);
                    assert(self.voters@ =~= voters_before_call.update(
                        i as int,
                        self.voters@[i as int],
                    ));
                    proof {
                        lemma_same_names_same_order(voters_before_call, self.voters@);
                    }
                },
                Err(fault) => {
                    assert(self.voters@ =~= voters_before_call.update(
                        i as int,
                        self.voters@[i as int],
                    ));
                    assert(self.voters@[i as int] == pre[i as int]);
                    proof {
                        lemma_same_names_same_order(voters_before_call, self.voters@);
                    }
                    return Err(fault);
                },
            }
            i += 1;
        }
        assert(pre.subrange(0, i as int) == pre);
        Ok(requests)
    }

    /// Delivers the requests, one after the other, each to the voter that it
    /// is addressed to, and returns the answers as messages.
    pub fn handle_requests(&mut self, requests: Vec<Message>) -> (result: Result<
        Vec<Message>,
        Fault,
    >)
        requires
            old(self).wf(),
        ensures
            final(self).wf(),
            final(self).now() == old(self).now(),
            requests_delivered(
                old(self).participants(),
                requests.deep_view(),
                old(self).now(),
                final(self).participants(),
                messages_view(result),
            ),
    {
        let ghost pre = self.voters@;
        let ghost tick = self.current_tick;
        let ghost all = requests.deep_view();
        let mut responses: Vec<Message> = Vec::new();
        let mut i: usize = 0;
        assert(all.subrange(0, 0) =~= Seq::<MessageView>::empty());
        assert(responses.deep_view() =~= Seq::<MessageView>::empty());
        while i < requests.len()
            invariant
                i <= requests.len(),
                self.current_tick == tick,
                tick == old(self).now(),
                pre == old(self).participants(),
                all == requests.deep_view(),
                all_wf(self.voters@),
                in_name_order(self.voters@),
                requests_delivered(
                    pre,
                    all.subrange(0, i as int),
                    tick,
                    self.voters@,
                    Ok::<Seq<MessageView>, Fault>(responses.deep_view()),
                ),
            decreases requests.len() - i,
        {
            let ghost next = all.subrange(0, i + 1);
            assert(next.drop_last() == all.subrange(0, i as int));
            assert(next.last() == all[i as int]);
            assert(all[i as int] == requests[i as int].deep_view());
            let ghost between = self.voters@;
            let ghost earlier = Ok::<Seq<MessageView>, Fault>(responses.deep_view());
            assert(on_the_way(between, earlier));
            let delivered = self.deliver_request(&requests[i]);
            match delivered {
                Ok(mut more) => {
                    let ghost before = responses.deep_view();
                    let ghost added = more.deep_view();
                    responses.append(&mut more);
                    assert(responses.deep_view() =~= before + added);
                    assert(request_delivered(
                        between,
                        next.last(),
                        tick,
                        self.voters@,
                        Ok::<Seq<MessageView>, Fault>(added),
                    ));
                    assert(requests_delivered(
                        pre,
                        next,
                        tick,
                        self.voters@,
                        Ok::<Seq<MessageView>, Fault>(responses.deep_view()),
                    ));
                },
                Err(fault) => {
                    assert(request_delivered(
                        between,
                        next.last(),
                        tick,
                        self.voters@,
                        Err::<Seq<MessageView>, Fault>(fault),
                    ));
                    assert(requests_delivered(
                        pre,
                        next,
                        tick,
                        self.voters@,
                        Err::<Seq<MessageView>, Fault>(fault),
                    ));
                    proof {
                        lemma_request_failure_stays(pre, all, i + 1, tick, self.voters@, fault);
                    }
                    return Err(fault);
                },
            }
            i += 1;
        }
        assert(all.subrange(0, i as int) == all);
        Ok(responses)
    }

    /// Delivers one request to the voter that it is addressed to.
    fn deliver_request(&mut self, message: &Message) -> (result: Result<Vec<Message>, Fault>)
        requires
            old(self).wf(),
        ensures
            final(self).wf(),
            final(self).now() == old(self).now(),
            request_delivered(
                old(self).participants(),
                message.deep_view(),
                old(self).now(),
                final(self).participants(),
                messages_view(result),
            ),
    {
        let request = match &message.content {
            Payload::Request(request) => request.clone(),
            Payload::Response(_) => {
                return Err(Fault::WrongPayload);
            },
        };
        let at = self.find_voter(message.receiver.as_str());
        if at >= self.voters.len() {
            return Err(Fault::UnknownVoter);
        }
        let ghost pre = self.voters@;
        let answers = self.voters[at].handle_request(
            (message.sender.clone(), request),
            self.current_tick,
        );
        assert(self.voters@ =~= pre.update(at as int, self.voters@[at as int]));
        proof {
            lemma_same_names_same_order(pre, self.voters@);
        }
        let ghost stepped = crate::voter::answers_view(answers);
        assert(request_step(
            pre[at as int],
            message.deep_view().sender,
            request.deep_view(),
            self.current_tick,
            self.voters@[at as int],
            stepped,
        ));
        match answers {
            Err(fault) => Err(fault),
            Ok(given) => {
                let mut responses: Vec<Message> = Vec::new();
                let ghost wanted = as_messages(message.receiver@, given.deep_view());
                let mut k: usize = 0;
                while k < given.len()
                    invariant
                        k <= given.len(),
                        wanted == as_messages(message.receiver@, given.deep_view()),
                        responses.len() == k,
                        forall|j: int| 0 <= j < k ==> responses[j].deep_view() == wanted[j],
                    decreases given.len() - k,
                {
                    let response = Message {
                        sender: message.receiver.clone(),
                        receiver: given[k].0.clone(),
                        content: Payload::Response(given[k].1.clone()),
                    };
                    assert(given.deep_view()[k as int] == given[k as int].deep_view());
                    responses.push(response);
                    k += 1;
                }
                assert(responses.deep_view() =~= wanted);
                Ok(responses)
            },
        }
    }

    /// Delivers the responses, one after the other, each to the voter that
    /// it is addressed to.
    pub fn handle_responses(&mut self, responses: Vec<Message>) -> (result: Result<(), Fault>)
        requires
            old(self).wf(),
        ensures
            final(self).wf(),
            final(self).now() == old(self).now(),
            responses_delivered(
                old(self).participants(),
                responses.deep_view(),
                old(self).now(),
                final(self).participants(),
                result,
            ),
    {
        let ghost pre = self.voters@;
        let ghost tick = self.current_tick;
        let ghost all = responses.deep_view();
        let mut i: usize = 0;
        assert(all.subrange(0, 0) =~= Seq::<MessageView>::empty());
        while i < responses.len()
            invariant
                i <= responses.len(),
                self.current_tick == tick,
                tick == old(self).now(),
                pre == old(self).participants(),
                all == responses.deep_view(),
                all_wf(self.voters@),
                in_name_order(self.voters@),
                responses_delivered(
                    pre,
                    all.subrange(0, i as int),
                    tick,
                    self.voters@,
                    Ok::<(), Fault>(()),
                ),
            decreases responses.len() - i,
        {
            let ghost next = all.subrange(0, i + 1);
            assert(next.drop_last() == all.subrange(0, i as int));
            assert(next.last() == all[i as int]);
            assert(all[i as int] == responses[i as int].deep_view());
            let ghost between = self.voters@;
            assert(on_the_way(between, Ok::<(), Fault>(())));
            let delivered = self.deliver_response(&responses[i]);
            assert(response_delivered(between, next.last(), tick, self.voters@, delivered));
            assert(responses_delivered(pre, next, tick, self.voters@, delivered));
            match delivered {
                Ok(()) => {},
                Err(fault) => {
                    proof {
                        lemma_response_failure_stays(pre, all, i + 1, tick, self.voters@, fault);
                    }
                    return Err(fault);
                },
            }
            i += 1;
        }
        assert(all.subrange(0, i as int) == all);
        Ok(())
    }

    /// Delivers one response to the voter that it is addressed to.
    fn deliver_response(&mut self, message: &Message) -> (result: Result<(), Fault>)
        requires
            old(self).wf(),
        ensures
            final(self).wf(),
            final(self).now() == old(self).now(),
            response_delivered(
                old(self).participants(),
                message.deep_view(),
                old(self).now(),
                final(self).participants(),
                result,
            ),
    {
        let response = match &message.content {
            Payload::Response(response) => response.clone(),
            Payload::Request(_) => {
                return Err(Fault::WrongPayload);
            },
        };
        let at = self.find_voter(message.receiver.as_str());
        if at >= self.voters.len() {
            return Err(Fault::UnknownVoter);
        }
        let ghost pre = self.voters@;
        let result = self.voters[at].handle_response(
            (message.sender.clone(), response),
            self.current_tick,
        );
        assert(self.voters@ =~= pre.update(at as int, self.voters@[at as int]));
        proof {
            assert(crate::voter::response_keeps(pre[at as int], self.voters@[at as int]));
            lemma_same_names_same_order(pre, self.voters@);
        }
        result
    }

    /// Where the first voter called `name` is.
    fn find_voter(&self, name: &str) -> (at: usize)
        ensures
            at == voters_before(self.participants(), name@),
            at <= self.participants().len(),
    {
        let ghost all = self.voters@;
        let mut at: usize = 0;
        assert(all.subrange(0, all.len() as int) == all);
        while at < self.voters.len() && !same_name(self.voters[at].id.as_str(), name)
            invariant
                at <= self.voters.len(),
                all == self.voters@,
                voters_before(all, name@) == at + voters_before(
                    all.subrange(at as int, all.len() as int),
                    name@,
                ),
            decreases self.voters.len() - at,
        {
            let ghost rest = all.subrange(at as int, all.len() as int);
            assert(rest[0] == all[at as int]);
            assert(rest.drop_first() == all.subrange(at + 1, all.len() as int));
            at += 1;
        }
        proof {
            let rest = all.subrange(at as int, all.len() as int);
            if at < self.voters.len() {
                assert(rest[0] == all[at as int]);
            }
        }
        at
    }

    /// Everything that the voters have detected, voter by voter.
    pub fn equivocations_detected(&self) -> (all: Vec<EquivocationDetected>)
        ensures
            all.deep_view() == detected_among(self.participants()),
    {
        let ghost voters = self.voters@;
        let mut all: Vec<EquivocationDetected> = Vec::new();
        let mut i: usize = 0;
        assert(voters.subrange(0, 0) =~= Seq::<Voter>::empty());
        assert(all.deep_view() =~= Seq::<DetectedView>::empty());
        while i < self.voters.len()
            invariant
                i <= self.voters.len(),
                voters == self.voters@,
                all.deep_view() == detected_among(voters.subrange(0, i as int)),
            decreases self.voters.len() - i,
        {
            let ghost next = voters.subrange(0, i + 1);
            assert(next.drop_last() == voters.subrange(0, i as int));
            assert(next.last() == voters[i as int]);
            let ghost before = all.deep_view();
            let mut more = self.voters[i].equivocations_detected();
            let ghost added = more.deep_view();
            all.append(&mut more);
            assert(all.deep_view() =~= before + added);
            i += 1;
        }
        assert(voters.subrange(0, i as int) == voters);
        all
    }
}

} // verus!
