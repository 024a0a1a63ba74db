//! The interrogation that finds the equivocators behind two conflicting
//! finality certificates.

use std::collections::BTreeMap;
use vstd::prelude::*;
use vstd::std_specs::btree::spec_keys_iter;
use vstd::std_specs::iter::IteratorSpec;
use crate::block::{Block, BlockNumber};
use crate::chain::Chain;
use crate::fault::Fault;
use crate::names::{first_occurrences, same_name, unique_names, Name, VoterId, VoterName};
use crate::voting::{
    check_query_reply_is_valid, clone_names, copy_votes, cross_check_votes, equivocated,
    is_cross_check, names_of, reply_check, voter_names, Ballot, Commit, CommitView, Precommit,
    Prevote, RoundNumber,
};

verus! {

broadcast use {vstd::std_specs::btree::group_btree_axioms, vstd::laws_cmp::group_laws_cmp};

/// A proven equivocation as the contracts see it.
pub struct EquivocationView {
    pub voter: Name,
    pub blocks: Seq<BlockNumber>,
}

/// What the protocol has detected as the contracts see it.
pub enum DetectedView {
    Prevote(Seq<EquivocationView>),
    Precommit(Seq<EquivocationView>),
    InvalidResponse(Name),
}

/// An answer to a query as the contracts see it.
pub enum ReplyView {
    Prevotes(Seq<Ballot>),
    Precommits(Seq<Ballot>),
}

/// The proof that a voter equivocated: the voter, and the different blocks
/// that it voted for in one round, in ascending order.
#[derive(Debug, PartialEq, Eq)]
pub struct Equivocation {
    pub voter: VoterId,
    pub blocks: Vec<BlockNumber>,
}

impl DeepView for Equivocation {
    type V = EquivocationView;

    open spec fn deep_view(&self) -> EquivocationView {
        EquivocationView { voter: self.voter@, blocks: self.blocks@ }
    }
}

/// What the protocol has detected: equivocations among prevotes or among
/// precommits, or an answer that does not show what it is meant to show.
#[derive(Debug, PartialEq, Eq)]
pub enum EquivocationDetected {
    Prevote(Vec<Equivocation>),
    Precommit(Vec<Equivocation>),
    InvalidResponse(VoterId),
}

impl DeepView for EquivocationDetected {
    type V = DetectedView;

    open spec fn deep_view(&self) -> DetectedView {
        match self {
            EquivocationDetected::Prevote(found) => DetectedView::Prevote(found.deep_view()),
            EquivocationDetected::Precommit(found) => DetectedView::Precommit(found.deep_view()),
            EquivocationDetected::InvalidResponse(voter) => DetectedView::InvalidResponse(voter@),
        }
    }
}

/// The answer to a query: the prevotes or the precommits of a round.
#[derive(Debug)]
pub enum QueryResponse {
    Prevotes(Vec<Prevote>),
    Precommits(Vec<Precommit>),
}

impl DeepView for QueryResponse {
    type V = ReplyView;

    open spec fn deep_view(&self) -> ReplyView {
        match self {
            QueryResponse::Prevotes(votes) => ReplyView::Prevotes(votes.deep_view()),
            QueryResponse::Precommits(votes) => ReplyView::Precommits(votes.deep_view()),
        }
    }
}

impl Clone for QueryResponse {
    fn clone(&self) -> (copy: Self)
        ensures
            copy.deep_view() == self.deep_view(),
    {
        match self {
            QueryResponse::Prevotes(votes) => {
                let copy = copy_votes(votes);
                assert(copy.deep_view() =~= votes.deep_view());
                QueryResponse::Prevotes(copy)
            },
            QueryResponse::Precommits(votes) => {
                let copy = copy_votes(votes);
                assert(copy.deep_view() =~= votes.deep_view());
                QueryResponse::Precommits(copy)
            },
        }
    }
}

impl ReplyView {
    /// The votes of the answer, whichever kind they are of.
    pub open spec fn ballots(self) -> Seq<Ballot> {
        match self {
            ReplyView::Prevotes(votes) => votes,
            ReplyView::Precommits(votes) => votes,
        }
    }
}

/// The question to the voters of one round as the contracts see it.
pub struct QueryView {
    pub round: RoundNumber,
    pub receivers: Seq<Name>,
    pub block_not_included: BlockNumber,
}

/// The question which prevotes were seen as the contracts see it.
pub struct PrevoteQueryView {
    pub round: RoundNumber,
    pub receivers: Seq<Name>,
}

/// The question to ask next as the contracts see it.
pub enum NextQueryView {
    AskAboutRound(QueryView),
    PrevotesForRound(PrevoteQueryView),
}

/// The question sent to the voters of a round: why did your estimate for the
/// round before `round` not include `block_not_included`?
#[derive(Debug)]
pub struct Query {
    pub round: RoundNumber,
    pub receivers: Vec<VoterId>,
    pub block_not_included: BlockNumber,
}

impl DeepView for Query {
    type V = QueryView;

    open spec fn deep_view(&self) -> QueryView {
        QueryView {
            round: self.round,
            receivers: self.receivers.deep_view(),
            block_not_included: self.block_not_included,
        }
    }
}

impl Clone for Query {
    fn clone(&self) -> (copy: Self)
        ensures
            copy.deep_view() == self.deep_view(),
    {
        Query {
            round: self.round,
            receivers: clone_names(self.receivers.as_slice()),
            block_not_included: self.block_not_included,
        }
    }
}

/// The question sent to those who precommitted for the block that was left
/// out: which prevotes have you seen in `round`?
#[derive(Debug)]
pub struct PrevoteQuery {
    pub round: RoundNumber,
    pub receivers: Vec<VoterId>,
}

impl DeepView for PrevoteQuery {
    type V = PrevoteQueryView;

    open spec fn deep_view(&self) -> PrevoteQueryView {
        PrevoteQueryView { round: self.round, receivers: self.receivers.deep_view() }
    }
}

impl Clone for PrevoteQuery {
    fn clone(&self) -> (copy: Self)
        ensures
            copy.deep_view() == self.deep_view(),
    {
        PrevoteQuery { round: self.round, receivers: clone_names(self.receivers.as_slice()) }
    }
}

/// The question that an answer leads to.
#[derive(Debug)]
pub enum NextQuery {
    AskAboutRound(Query),
    PrevotesForRound(PrevoteQuery),
}

impl DeepView for NextQuery {
    type V = NextQueryView;

    open spec fn deep_view(&self) -> NextQueryView {
        match self {
            NextQuery::AskAboutRound(query) => NextQueryView::AskAboutRound(query.deep_view()),
            NextQuery::PrevotesForRound(query) => NextQueryView::PrevotesForRound(
                query.deep_view(),
            ),
        }
    }
}

impl Clone for NextQuery {
    fn clone(&self) -> (copy: Self)
        ensures
            copy.deep_view() == self.deep_view(),
    {
        match self {
            NextQuery::AskAboutRound(query) => NextQuery::AskAboutRound(query.clone()),
            NextQuery::PrevotesForRound(query) => NextQuery::PrevotesForRound(query.clone()),
        }
    }
}

/// What is known of the querying about one round as the contracts see it.
pub struct QueryStateView {
    pub round: RoundNumber,
    pub voters: Seq<Name>,
    pub responses: Seq<(Name, ReplyView)>,
    pub equivocations: Seq<DetectedView>,
}

/// The state of one run of the protocol as the contracts see it. The round
/// states are filed under their rounds.
pub struct SafetyView {
    pub block_not_included: BlockNumber,
    pub round_not_included: RoundNumber,
    pub commit: CommitView,
    pub querying_rounds: Map<RoundNumber, QueryStateView>,
    pub prevote_queries: Map<RoundNumber, QueryStateView>,
}

/// One more than the highest round number.
pub open spec fn END_OF_ROUNDS() -> nat {
    0x1_0000_0000_0000_0000
}

/// Every state is filed under its own round.
pub open spec fn filed_by_round(states: Map<RoundNumber, QueryStateView>) -> bool {
    forall|round: RoundNumber|
        #![trigger states[round]]
        states.contains_key(round) ==> states[round].round == round
}

/// The state of a round about which the voters `voters` are asked and no
/// answer has come yet.
pub open spec fn fresh_state(round: RoundNumber, voters: Seq<Name>) -> QueryStateView {
    QueryStateView { round, voters, responses: Seq::empty(), equivocations: Seq::empty() }
}

/// How many answers stand at the front that are not from `voter`.
pub open spec fn answers_before(responses: Seq<(Name, ReplyView)>, voter: Name) -> nat
    decreases responses.len(),
{
    if responses.len() == 0 || responses[0].0 == voter {
        0
    } else {
        1 + answers_before(responses.drop_first(), voter)
    }
}

/// The answers with `reply` as the answer of `voter`, in place of the first
/// answer that `voter` gave before, if it gave one, and at the end if not.
pub open spec fn with_reply(responses: Seq<(Name, ReplyView)>, voter: Name, reply: ReplyView) -> Seq<
    (Name, ReplyView),
> {
    let at = answers_before(responses, voter) as int;
    if at < responses.len() {
        responses.update(at, (voter, reply))
    } else {
        responses.push((voter, reply))
    }
}

/// The states with `reply` stored as the answer of `voter` in the state of
/// `round`.
pub open spec fn store_reply(
    states: Map<RoundNumber, QueryStateView>,
    round: RoundNumber,
    voter: Name,
    reply: ReplyView,
) -> Map<RoundNumber, QueryStateView> {
    states.insert(
        round,
        QueryStateView {
            responses: with_reply(states[round].responses, voter, reply),
            ..states[round]
        },
    )
}

/// The states with `detected` added to what the state of `round` has
/// detected.
pub open spec fn record(
    states: Map<RoundNumber, QueryStateView>,
    round: RoundNumber,
    detected: DetectedView,
) -> Map<RoundNumber, QueryStateView> {
    states.insert(
        round,
        QueryStateView {
            equivocations: states[round].equivocations.push(detected),
            ..states[round]
        },
    )
}

/// All the prevotes that the answers hold, answer by answer.
pub open spec fn prevotes_in(responses: Seq<(Name, ReplyView)>) -> Seq<Ballot>
    decreases responses.len(),
{
    if responses.len() == 0 {
        Seq::empty()
    } else {
        prevotes_in(responses.drop_last()) + match responses.last().1 {
            ReplyView::Prevotes(votes) => votes,
            ReplyView::Precommits(_) => Seq::empty(),
        }
    }
}

/// The prevotes given in answer to the query about `round`; none if there
/// was no such query.
pub open spec fn prevotes_answered(states: Map<RoundNumber, QueryStateView>, round: int) -> Seq<
    Ballot,
> {
    if 0 <= round <= RoundNumber::MAX && states.contains_key(round as RoundNumber) {
        prevotes_in(states[round as RoundNumber].responses)
    } else {
        Seq::empty()
    }
}

/// What the state of `round` has detected; nothing if there is no such
/// state.
pub open spec fn detected_in_round(states: Map<RoundNumber, QueryStateView>, round: nat) -> Seq<
    DetectedView,
> {
    if round <= RoundNumber::MAX && states.contains_key(round as RoundNumber) {
        states[round as RoundNumber].equivocations
    } else {
        Seq::empty()
    }
}

/// Everything that the states of the two kinds have detected in the rounds
/// below `bound`, in ascending order of the rounds, and where a round has a
/// state of each kind, the state of the query about the estimate first.
pub open spec fn detected_below(
    queries: Map<RoundNumber, QueryStateView>,
    prevotes: Map<RoundNumber, QueryStateView>,
    bound: nat,
) -> Seq<DetectedView>
    decreases bound,
{
    if bound == 0 {
        Seq::empty()
    } else {
        let round = (bound - 1) as nat;
        detected_below(queries, prevotes, round) + detected_in_round(queries, round)
            + detected_in_round(prevotes, round)
    }
}

/// Rounds without a state add nothing to what was detected.
pub proof fn lemma_rounds_without_state(
    queries: Map<RoundNumber, QueryStateView>,
    prevotes: Map<RoundNumber, QueryStateView>,
    from: nat,
    to: nat,
)
    requires
        from <= to,
        forall|round: RoundNumber|
            from <= round < to ==> !queries.contains_key(round) && !prevotes.contains_key(round),
    ensures
        detected_below(queries, prevotes, to) == detected_below(queries, prevotes, from),
    decreases to - from,
{
    if from < to {
        let round = (to - 1) as nat;
        lemma_rounds_without_state(queries, prevotes, from, round);
        if round <= RoundNumber::MAX {
            assert(!queries.contains_key(round as RoundNumber));
            assert(!prevotes.contains_key(round as RoundNumber));
        }
        assert(detected_below(queries, prevotes, to) =~= detected_below(
            queries,
            prevotes,
            round,
        ));
    }
}

impl SafetyView {
    /// The states of both kinds are filed under their rounds.
    pub open spec fn wf(self) -> bool {
        &&& filed_by_round(self.querying_rounds)
        &&& filed_by_round(self.prevote_queries)
    }

    /// The state after the voters `voters` have been asked about `round`.
    /// What was known of the round before is forgotten.
    pub open spec fn start_query_round(self, round: RoundNumber, voters: Seq<Name>) -> SafetyView {
        SafetyView {
            querying_rounds: self.querying_rounds.insert(round, fresh_state(round, voters)),
            ..self
        }
    }

    /// The question about `round` to the voters `voters`.
    pub open spec fn query_for(self, round: RoundNumber, voters: Seq<Name>) -> QueryView {
        QueryView { round, receivers: voters, block_not_included: self.block_not_included }
    }

    /// The state after `voters` have been asked which prevotes they saw in
    /// `round`. What a query about that round has gathered before is kept.
    pub open spec fn start_prevote_query(self, round: RoundNumber, voters: Seq<Name>) -> SafetyView {
        if self.prevote_queries.contains_key(round) {
            self
        } else {
            SafetyView {
                prevote_queries: self.prevote_queries.insert(round, fresh_state(round, voters)),
                ..self
            }
        }
    }

    /// Everything that the run has detected, in ascending order of the
    /// rounds that the queries were about, whichever kind they were of, and
    /// for each query in the order in which it was found. Where a round has a
    /// query of each kind, what the query about the estimate found comes
    /// first.
    pub open spec fn equivocations_detected(self) -> Seq<DetectedView> {
        detected_below(self.querying_rounds, self.prevote_queries, END_OF_ROUNDS())
    }
}

/// The last step with precommits: the precommits given in answer, together
/// with those of the certificate, are `both`. Finding no equivocation among
/// them is a failure; otherwise what their cross-check finds is recorded with
/// the query state of `round`.
pub open spec fn precommits_checked(
    stored: SafetyView,
    round: RoundNumber,
    both: Seq<Ballot>,
    post: SafetyView,
    result: Result<Option<NextQueryView>, Fault>,
) -> bool {
    if forall|v: Name| !equivocated(both, v) {
        post == stored && result == Err::<Option<NextQueryView>, Fault>(Fault::NoEquivocationFound)
    } else {
        &&& result == Ok::<Option<NextQueryView>, Fault>(None)
        &&& exists|found: Seq<EquivocationView>|
            #![trigger is_cross_check(both, found)]
            is_cross_check(both, found) && post == SafetyView {
                querying_rounds: record(
                    stored.querying_rounds,
                    round,
                    DetectedView::Precommit(found),
                ),
                ..stored
            }
    }
}

/// The state with `found` recorded with the prevote query state of `round`,
/// unless it is on record there already.
pub open spec fn recorded_once(
    stored: SafetyView,
    round: RoundNumber,
    found: Seq<EquivocationView>,
) -> SafetyView {
    if stored.prevote_queries[round].equivocations.contains(DetectedView::Prevote(found)) {
        stored
    } else {
        SafetyView {
            prevote_queries: record(stored.prevote_queries, round, DetectedView::Prevote(found)),
            ..stored
        }
    }
}

/// The last step with prevotes: the prevotes seen, together with those given
/// in answer before, are `both`. Finding no equivocation among them is a
/// failure; otherwise what their cross-check finds is recorded with the
/// prevote query state of `round`, unless it is on record there already.
pub open spec fn prevotes_checked(
    stored: SafetyView,
    round: RoundNumber,
    both: Seq<Ballot>,
    post: SafetyView,
    result: Result<(), Fault>,
) -> bool {
    if forall|v: Name| !equivocated(both, v) {
        post == stored && result == Err::<(), Fault>(Fault::NoEquivocationFound)
    } else {
        &&& result == Ok::<(), Fault>(())
        &&& exists|found: Seq<EquivocationView>|
            #![trigger is_cross_check(both, found)]
            is_cross_check(both, found) && post == recorded_once(stored, round, found)
    }
}

/// The step that an answer to a query about an estimate makes: from the
/// state `pre`, with the ledger `blocks`, the answer `reply` of `voter` to the
/// query about `round` leads to the state `post` and to `result`.
///
/// An answer for a round that nobody was asked about, and one that the
/// ledger cannot be searched for, change nothing and fail. An invalid answer
/// is recorded as such, and that is all. A valid answer is stored. If its
/// round is the one after the round that finalized the block left out,
/// precommits are cross-checked against the certificate of that block, and
/// what is found is recorded, while finding nothing is a failure; prevotes
/// lead to the question to those who signed the certificate, which prevotes
/// they saw. For any other round the voters of the answer are asked about
/// the round before, unless that was done already; round 0 has no round
/// before it, and a valid answer about it is a failure.
pub open spec fn add_response_step(
    pre: SafetyView,
    blocks: Map<BlockNumber, Block>,
    round: RoundNumber,
    voter: Name,
    reply: ReplyView,
    post: SafetyView,
    result: Result<Option<NextQueryView>, Fault>,
) -> bool {
    if !pre.querying_rounds.contains_key(round) {
        post == pre && result == Err::<Option<NextQueryView>, Fault>(Fault::UnknownRound)
    } else {
        match reply_check(
            blocks,
            reply.ballots(),
            pre.block_not_included,
            pre.querying_rounds[round].voters,
        ) {
            Err(e) => post == pre && result == Err::<Option<NextQueryView>, Fault>(
                Fault::Ledger(e),
            ),
            Ok(false) => {
                &&& post == SafetyView {
                    querying_rounds: record(
                        pre.querying_rounds,
                        round,
                        DetectedView::InvalidResponse(voter),
                    ),
                    ..pre
                }
                &&& result == Ok::<Option<NextQueryView>, Fault>(None)
            },
            Ok(true) => {
                let stored = SafetyView {
                    querying_rounds: store_reply(pre.querying_rounds, round, voter, reply),
                    ..pre
                };
                if round == pre.round_not_included + 1 {
                    match reply {
                        ReplyView::Precommits(votes) => precommits_checked(
                            stored,
                            round,
                            votes + pre.commit.precommits,
                            post,
                            result,
                        ),
                        ReplyView::Prevotes(_) => {
                            let signers = first_occurrences(voter_names(pre.commit.precommits));
                            let before = (round - 1) as RoundNumber;
                            &&& post == stored.start_prevote_query(before, signers)
                            &&& result == Ok::<Option<NextQueryView>, Fault>(
                                Some(
                                    NextQueryView::PrevotesForRound(
                                        PrevoteQueryView { round: before, receivers: signers },
                                    ),
                                ),
                            )
                        },
                    }
                } else if round == 0 {
                    post == stored && result == Err::<Option<NextQueryView>, Fault>(
                        Fault::NoEarlierRound,
                    )
                } else if stored.querying_rounds.contains_key((round - 1) as RoundNumber) {
                    post == stored && result == Ok::<Option<NextQueryView>, Fault>(None)
                } else {
                    let before = (round - 1) as RoundNumber;
                    let voters = first_occurrences(voter_names(reply.ballots()));
                    &&& post == stored.start_query_round(before, voters)
                    &&& result == Ok::<Option<NextQueryView>, Fault>(
                        Some(NextQueryView::AskAboutRound(stored.query_for(before, voters))),
                    )
                }
            },
        }
    }
}

/// The step that an answer to a query about prevotes makes: from the state
/// `pre`, the answer `reply` of `voter` to the query about `round` leads to
/// the state `post` and to `result`.
///
/// An answer for a round that nobody was asked about changes nothing and
/// fails. Any other answer is stored. Precommits are a failure. Prevotes are
/// cross-checked against the prevotes given in answer to the query about the
/// estimate of the round after `round`; finding nothing is a failure, and
/// what is found is recorded unless it is on record for this round already.
pub open spec fn add_prevote_response_step(
    pre: SafetyView,
    round: RoundNumber,
    voter: Name,
    reply: ReplyView,
    post: SafetyView,
    result: Result<(), Fault>,
) -> bool {
    if !pre.prevote_queries.contains_key(round) {
        post == pre && result == Err::<(), Fault>(Fault::UnknownRound)
    } else {
        let stored = SafetyView {
            prevote_queries: store_reply(pre.prevote_queries, round, voter, reply),
            ..pre
        };
        match reply {
            ReplyView::Precommits(_) => post == stored && result == Err::<(), Fault>(
                Fault::UnexpectedResponse,
            ),
            ReplyView::Prevotes(seen) => prevotes_checked(
                stored,
                round,
                seen + prevotes_answered(pre.querying_rounds, round + 1),
                post,
                result,
            ),
        }
    }
}

/// What came of an answer as the contracts see it.
pub open spec fn outcome_view(result: Result<Option<NextQuery>, Fault>) -> Result<
    Option<NextQueryView>,
    Fault,
> {
    match result {
        Ok(Some(next)) => Ok(Some(next.deep_view())),
        Ok(None) => Ok(None),
        Err(fault) => Err(fault),
    }
}

impl Equivocation {
    /// Whether the two name the same voter and list the same blocks.
    pub fn same_as(&self, other: &Equivocation) -> (same: bool)
        ensures
            same == (self.deep_view() == other.deep_view()),
    {
        if !same_name(self.voter.as_str(), other.voter.as_str()) {
            return false;
        }
        if self.blocks.len() != other.blocks.len() {
            return false;
        }
        let mut i: usize = 0;
        while i < self.blocks.len()
            invariant
                i <= self.blocks.len(),
                self.blocks.len() == other.blocks.len(),
                forall|k: int| 0 <= k < i ==> self.blocks[k] == other.blocks[k],
            decreases self.blocks.len() - i,
        {
            if self.blocks[i] != other.blocks[i] {
                return false;
            }
            i += 1;
        }
        assert(self.blocks@ =~= other.blocks@);
        true
    }
}

/// Whether the two lists hold the same proofs in the same order.
fn same_equivocations(a: &Vec<Equivocation>, b: &Vec<Equivocation>) -> (same: bool)
    ensures
        same == (a.deep_view() == b.deep_view()),
{
    if a.len() != b.len() {
        assert(a.deep_view().len() != b.deep_view().len());
        return false;
    }
    let mut i: usize = 0;
    while i < a.len()
        invariant
            i <= a.len(),
            a.len() == b.len(),
            forall|k: int| 0 <= k < i ==> a[k].deep_view() == b[k].deep_view(),
        decreases a.len() - i,
    {
        if !a[i].same_as(&b[i]) {
            let ghost k = i as int;
            assert(a.deep_view()[k] != b.deep_view()[k]);
            return false;
        }
        i += 1;
    }
    assert(a.deep_view() =~= b.deep_view());
    true
}

impl EquivocationDetected {
    /// Whether the two are of the same kind and hold the same.
    pub fn same_as(&self, other: &EquivocationDetected) -> (same: bool)
        ensures
            same == (self.deep_view() == other.deep_view()),
    {
        match (self, other) {
            (EquivocationDetected::Prevote(a), EquivocationDetected::Prevote(b)) => {
                same_equivocations(a, b)
            },
            (EquivocationDetected::Precommit(a), EquivocationDetected::Precommit(b)) => {
                same_equivocations(a, b)
            },
            (
                EquivocationDetected::InvalidResponse(a),
                EquivocationDetected::InvalidResponse(b),
            ) => same_name(a.as_str(), b.as_str()),
            _ => false,
        }
    }

}

impl Clone for EquivocationDetected {
    fn clone(&self) -> (copy: Self)
        ensures
            copy.deep_view() == self.deep_view(),
    {
        match self {
            EquivocationDetected::Prevote(found) => EquivocationDetected::Prevote(
                copy_equivocations(found),
            ),
            EquivocationDetected::Precommit(found) => EquivocationDetected::Precommit(
                copy_equivocations(found),
            ),
            EquivocationDetected::InvalidResponse(voter) => EquivocationDetected::InvalidResponse(
                voter.clone(),
            ),
        }
    }
}

impl Clone for Equivocation {
    fn clone(&self) -> (copy: Self)
        ensures
            copy.deep_view() == self.deep_view(),
    {
        Equivocation { voter: self.voter.clone(), blocks: copy_votes(&self.blocks) }
    }
}

/// A copy of the proofs.
fn copy_equivocations(found: &Vec<Equivocation>) -> (copy: Vec<Equivocation>)
    ensures
        copy.deep_view() == found.deep_view(),
{
    let mut copy: Vec<Equivocation> = Vec::new();
    let mut i: usize = 0;
    while i < found.len()
        invariant
            i <= found.len(),
            copy.len() == i,
            forall|k: int| 0 <= k < i ==> copy[k].deep_view() == found[k].deep_view(),
        decreases found.len() - i,
    {
        copy.push(found[i].clone());
        i += 1;
    }
    assert(copy.deep_view() =~= found.deep_view());
    copy
}

/// Whether `detected` is among `list`.
fn is_on_record(list: &Vec<EquivocationDetected>, detected: &EquivocationDetected) -> (found: bool)
    ensures
        found == list.deep_view().contains(detected.deep_view()),
{
    let mut i: usize = 0;
    while i < list.len()
        invariant
            i <= list.len(),
            forall|k: int| 0 <= k < i ==> list.deep_view()[k] != detected.deep_view(),
        decreases list.len() - i,
    {
        if list[i].same_as(detected) {
            assert(list.deep_view()[i as int] == detected.deep_view());
            return true;
        }
        i += 1;
    }
    false
}

impl QueryResponse {
    /// Who cast the votes of the answer, vote by vote.
    pub fn ids(&self) -> (names: Vec<VoterName>)
        ensures
            names.deep_view() == voter_names(self.deep_view().ballots()),
    {
        match self {
            QueryResponse::Prevotes(votes) => {
                let mut names: Vec<VoterName> = Vec::new();
                let mut i: usize = 0;
                while i < votes.len()
                    invariant
                        i <= votes.len(),
                        names.len() == i,
                        forall|k: int| 0 <= k < i ==> names[k]@ == votes[k].id@,
                    decreases votes.len() - i,
                {
                    names.push(votes[i].id);
                    i += 1;
                }
                assert(names.deep_view() =~= voter_names(self.deep_view().ballots()));
                names
            },
            QueryResponse::Precommits(votes) => {
                let mut names: Vec<VoterName> = Vec::new();
                let mut i: usize = 0;
                while i < votes.len()
                    invariant
                        i <= votes.len(),
                        names.len() == i,
                        forall|k: int| 0 <= k < i ==> names[k]@ == votes[k].id@,
                    decreases votes.len() - i,
                {
                    names.push(votes[i].id);
                    i += 1;
                }
                assert(names.deep_view() =~= voter_names(self.deep_view().ballots()));
                names
            },
        }
    }

    /// The blocks that the votes of the answer are for, vote by vote.
    pub fn target_numbers(&self) -> (numbers: Vec<BlockNumber>)
        ensures
            numbers@ == self.deep_view().ballots().map_values(|b: Ballot| b.target),
    {
        match self {
            QueryResponse::Prevotes(votes) => {
                let mut numbers: Vec<BlockNumber> = Vec::new();
                let mut i: usize = 0;
                while i < votes.len()
                    invariant
                        i <= votes.len(),
                        numbers.len() == i,
                        forall|k: int| 0 <= k < i ==> numbers[k] == votes[k].target_number,
                    decreases votes.len() - i,
                {
                    numbers.push(votes[i].target_number);
                    i += 1;
                }
                assert(numbers@ =~= self.deep_view().ballots().map_values(|b: Ballot| b.target));
                numbers
            },
            QueryResponse::Precommits(votes) => {
                let mut numbers: Vec<BlockNumber> = Vec::new();
                let mut i: usize = 0;
                while i < votes.len()
                    invariant
                        i <= votes.len(),
                        numbers.len() == i,
                        forall|k: int| 0 <= k < i ==> numbers[k] == votes[k].target_number,
                    decreases votes.len() - i,
                {
                    numbers.push(votes[i].target_number);
                    i += 1;
                }
                assert(numbers@ =~= self.deep_view().ballots().map_values(|b: Ballot| b.target));
                numbers
            },
        }
    }

    /// The different voters that the answer names, each where it is first
    /// named.
    pub fn voters(&self) -> (names: Vec<VoterId>)
        ensures
            names.deep_view() == first_occurrences(voter_names(self.deep_view().ballots())),
    {
        match self {
            QueryResponse::Prevotes(votes) => {
                assert(crate::voting::ballots_of(votes@) =~= votes.deep_view());
                unique_names(names_of(votes))
            },
            QueryResponse::Precommits(votes) => {
                assert(crate::voting::ballots_of(votes@) =~= votes.deep_view());
                unique_names(names_of(votes))
            },
        }
    }
}

/// What is known of the querying about one round: who was asked, what they
/// answered, and what was detected.
#[derive(Debug)]
struct QueryState {
    round: RoundNumber,
    voters: Vec<VoterId>,
    // The latest answer of each voter who answered, in the order in which
    // they first answered.
    responses: Vec<(VoterId, QueryResponse)>,
    equivocations: Vec<EquivocationDetected>,
}

impl DeepView for QueryState {
    type V = QueryStateView;

    closed spec fn deep_view(&self) -> QueryStateView {
        QueryStateView {
            round: self.round,
            voters: self.voters.deep_view(),
            responses: self.responses.deep_view(),
            equivocations: self.equivocations.deep_view(),
        }
    }
}

/// The states as the contracts see them.
spec fn states_view(states: Map<RoundNumber, QueryState>) -> Map<
    RoundNumber,
    QueryStateView,
> {
    states.map_values(|state: QueryState| state.deep_view())
}

/// The round numbers are strictly ascending.
pub open spec fn rounds_ascend(rounds: Seq<RoundNumber>) -> bool {
    forall|i: int, j: int| 0 <= i < j < rounds.len() ==> rounds[i] < rounds[j]
}

/// Puts `round` into the ascending rounds `rounds`, unless it is there.
fn insert_round(rounds: &mut Vec<RoundNumber>, round: RoundNumber)
    requires
        rounds_ascend(old(rounds)@),
    ensures
        rounds_ascend(final(rounds)@),
        forall|r: RoundNumber|
            final(rounds)@.contains(r) <==> (old(rounds)@.contains(r) || r == round),
{
    let ghost before = rounds@;
    let mut at: usize = 0;
    while at < rounds.len() && rounds[at] < round
        invariant
            at <= rounds.len(),
            rounds@ == before,
            forall|k: int| 0 <= k < at ==> before[k] < round,
        decreases rounds.len() - at,
    {
        at += 1;
    }
    if at < rounds.len() && rounds[at] == round {
        assert(before.contains(round));
        return ;
    }
    rounds.insert(at, round);
    proof {
        let after = rounds@;
        assert forall|r: RoundNumber| after.contains(r) <==> (before.contains(r) || r
            == round) by {
            if after.contains(r) {
                let k = choose|k: int| 0 <= k < after.len() && after[k] == r;
                if k < at {
                    assert(before[k] == r);
                } else if k > at {
                    assert(before[k - 1] == r);
                }
            }
            if before.contains(r) {
                let b = choose|b: int| 0 <= b < before.len() && before[b] == r;
                if b < at {
                    assert(after[b] == r);
                } else {
                    assert(after[b + 1] == r);
                }
            }
            if r == round {
                assert(after[at as int] == r);
            }
        }
    }
}

/// Puts the rounds that have a state in `states` into the ascending rounds
/// `rounds`.
fn insert_rounds_of(states: &BTreeMap<RoundNumber, QueryState>, rounds: &mut Vec<RoundNumber>)
    requires
        rounds_ascend(old(rounds)@),
    ensures
        rounds_ascend(final(rounds)@),
        final(rounds)@.to_set() == old(rounds)@.to_set().union(states@.dom()),
{
    let ghost before = rounds@;
    let keys = states.keys();
    let ghost all = keys.remaining();
    proof {
        vstd::std_specs::btree::axiom_spec_keys_iter(states);
    }
    assert(keys == spec_keys_iter(states));
    assert(all.unref().to_set() == states@.dom());
    assert(rounds@.to_set() =~= before.to_set().union(all.unref().take(0).to_set()));
    for round in iter: keys
        invariant
            iter.seq() == all,
            rounds_ascend(rounds@),
            rounds@.to_set() == before.to_set().union(
                all.unref().take(iter.index() as int).to_set(),
            ),
    {
        let ghost seen = all.unref().take(iter.index() as int);
        let ghost more = all.unref().take(iter.index() + 1);
        assert(more == seen.push(*round));
        let ghost so_far = rounds@;
        insert_round(rounds, *round);
        proof {
            assert(more.to_set() =~= seen.to_set().insert(*round)) by {
                assert forall|r: RoundNumber| more.contains(r) <==> (seen.contains(r) || r
                    == *round) by {
                    if seen.contains(r) {
                        let k = choose|k: int| 0 <= k < seen.len() && seen[k] == r;
                        assert(more[k] == r);
                    }
                    if r == *round {
                        assert(more[seen.len() as int] == r);
                    }
                    if more.contains(r) {
                        let k = choose|k: int| 0 <= k < more.len() && more[k] == r;
                        if k < seen.len() {
                            assert(seen[k] == r);
                        }
                    }
                }
            }
            assert(rounds@.to_set() =~= so_far.to_set().insert(*round));
            assert(rounds@.to_set() =~= before.to_set().union(more.to_set()));
        }
    }
    proof {
        assert(all.unref().take(all.len() as int) == all.unref());
    }
}

/// Adds `detected` to what the state of `round` has detected.
fn record_with(
    states: &mut BTreeMap<RoundNumber, QueryState>,
    round: RoundNumber,
    detected: EquivocationDetected,
)
    requires
        old(states)@.contains_key(round),
    ensures
        final(states)@.dom() == old(states)@.dom(),
        states_view(final(states)@) == record(
            states_view(old(states)@),
            round,
            detected.deep_view(),
        ),
{
    let ghost before = states@;
    match states.remove(&round) {
        Some(state) => {
            let mut state = state;
            let ghost found = state.equivocations.deep_view();
            state.equivocations.push(detected);
            assert(state.equivocations.deep_view() =~= found.push(detected.deep_view()));
            states.insert(round, state);
            assert(states@.dom() =~= before.dom());
            assert(states_view(states@) =~= record(
                states_view(before),
                round,
                detected.deep_view(),
            ));
        },
        None => {},
    }
}

/// Stores `reply` as the answer of `voter` in the state of `round`.
fn store_with(
    states: &mut BTreeMap<RoundNumber, QueryState>,
    round: RoundNumber,
    voter: VoterId,
    reply: QueryResponse,
)
    requires
        old(states)@.contains_key(round),
    ensures
        final(states)@.dom() == old(states)@.dom(),
        states_view(final(states)@) == store_reply(
            states_view(old(states)@),
            round,
            voter@,
            reply.deep_view(),
        ),
{
    let ghost before = states@;
    match states.remove(&round) {
        Some(state) => {
            let mut state = state;
            put_reply(&mut state.responses, voter, reply);
            states.insert(round, state);
            assert(states@.dom() =~= before.dom());
            assert(states_view(states@) =~= store_reply(
                states_view(before),
                round,
                voter@,
                reply.deep_view(),
            ));
        },
        None => {},
    }
}

/// Files a fresh state under `round`, in place of the state that `round`
/// had, if it had one.
fn put_fresh_round(
    states: &mut BTreeMap<RoundNumber, QueryState>,
    round: RoundNumber,
    voters: Vec<VoterId>,
)
    ensures
        states_view(final(states)@) == states_view(old(states)@).insert(
            round,
            fresh_state(round, voters.deep_view()),
        ),
{
    let ghost before = states@;
    let fresh = QueryState { round, voters, responses: Vec::new(), equivocations: Vec::new() };
    assert(fresh.deep_view().responses =~= Seq::<(Name, ReplyView)>::empty());
    assert(fresh.deep_view().equivocations =~= Seq::<DetectedView>::empty());
    assert(fresh.deep_view() == fresh_state(round, voters.deep_view()));
    states.insert(round, fresh);
    assert(states_view(states@) =~= states_view(before).insert(round, fresh.deep_view()));
}

/// Stores `reply` as the answer of `voter`, in place of the answer that
/// `voter` gave before, if it gave one.
fn put_reply(responses: &mut Vec<(VoterId, QueryResponse)>, voter: VoterId, reply: QueryResponse)
    ensures
        final(responses).deep_view() == with_reply(
            old(responses).deep_view(),
            voter@,
            reply.deep_view(),
        ),
{
    let ghost before = responses.deep_view();
    let mut at: usize = 0;
    assert(before.subrange(0, before.len() as int) == before);
    while at < responses.len() && !same_name(responses[at].0.as_str(), voter.as_str())
        invariant
            at <= responses.len(),
            before == responses.deep_view(),
            answers_before(before, voter@) == at + answers_before(
                before.subrange(at as int, before.len() as int),
                voter@,
            ),
        decreases responses.len() - at,
    {
        let ghost rest = before.subrange(at as int, before.len() as int);
        assert(rest[0] == before[at as int]);
        assert(before[at as int] == responses[at as int].deep_view());
        assert(rest.drop_first() == before.subrange(at + 1, before.len() as int));
        at += 1;
    }
    proof {
        let rest = before.subrange(at as int, before.len() as int);
        if at < responses.len() {
            assert(rest[0] == before[at as int]);
            assert(before[at as int] == responses[at as int].deep_view());
        }
    }
    let entry = (voter, reply);
    if at < responses.len() {
        responses[at] = entry;
        assert(responses.deep_view() =~= before.update(at as int, entry.deep_view()));
    } else {
        responses.push(entry);
        assert(responses.deep_view() =~= before.push(entry.deep_view()));
    }
}

/// All the prevotes that the answers hold, answer by answer.
fn prevotes_of(responses: &Vec<(VoterId, QueryResponse)>) -> (votes: Vec<Prevote>)
    ensures
        votes.deep_view() == prevotes_in(responses.deep_view()),
{
    let ghost all = responses.deep_view();
    let mut votes: Vec<Prevote> = Vec::new();
    let mut i: usize = 0;
    assert(votes.deep_view() =~= Seq::<Ballot>::empty());
    assert(all.subrange(0, 0) =~= Seq::<(Name, ReplyView)>::empty());
    while i < responses.len()
        invariant
            i <= responses.len(),
            all == responses.deep_view(),
            votes.deep_view() == prevotes_in(all.subrange(0, i as int)),
        decreases responses.len() - i,
    {
        let ghost next = all.subrange(0, i + 1);
        assert(next.drop_last() == all.subrange(0, i as int));
        assert(next.last() == all[i as int]);
        assert(all[i as int] == responses[i as int].deep_view());
        match &responses[i].1 {
            QueryResponse::Prevotes(more) => {
                let ghost before = votes.deep_view();
                let mut k: usize = 0;
                while k < more.len()
                    invariant
                        k <= more.len(),
                        votes.deep_view() == before + more.deep_view().subrange(0, k as int),
                    decreases more.len() - k,
                {
                    let ghost so_far = votes.deep_view();
                    votes.push(more[k]);
                    assert(votes.deep_view() =~= so_far.push(more[k as int]@));
                    assert(more.deep_view().subrange(0, k + 1) =~= more.deep_view().subrange(
                        0,
                        k as int,
                    ).push(more[k as int]@));
                    k += 1;
                }
                assert(more.deep_view().subrange(0, k as int) == more.deep_view());
            },
            QueryResponse::Precommits(_) => {
                assert(votes.deep_view() + Seq::<Ballot>::empty() =~= votes.deep_view());
            },
        }
        i += 1;
    }
    assert(all.subrange(0, i as int) == all);
    votes
}

/// Adds to `all` a copy of everything that `state` has detected.
fn add_detected(state: &QueryState, all: &mut Vec<EquivocationDetected>)
    ensures
        final(all).deep_view() == old(all).deep_view() + state.deep_view().equivocations,
{
    let ghost before = all.deep_view();
    let more = &state.equivocations;
    let mut k: usize = 0;
    assert(before + more.deep_view().subrange(0, 0) =~= before);
    while k < more.len()
        invariant
            k <= more.len(),
            all.deep_view() == before + more.deep_view().subrange(0, k as int),
        decreases more.len() - k,
    {
        let ghost so_far = all.deep_view();
        let copy = more[k].clone();
        all.push(copy);
        assert(all.deep_view() =~= so_far.push(copy.deep_view()));
        assert(more.deep_view().subrange(0, k + 1) =~= more.deep_view().subrange(
            0,
            k as int,
        ).push(more[k as int].deep_view()));
        k += 1;
    }
    assert(more.deep_view().subrange(0, k as int) == more.deep_view());
}

/// One run of the protocol: it starts from a block that a later certificate
/// left out, and asks its way back, round by round, to the round after the
/// one that finalized that block.
#[derive(Debug)]
pub struct AccountableSafety {
    block_not_included: BlockNumber,
    round_for_block_not_included: RoundNumber,
    commit_for_block_not_included: Commit,
    querying_rounds: BTreeMap<RoundNumber, QueryState>,
    prevote_queries: BTreeMap<RoundNumber, QueryState>,
}

impl DeepView for AccountableSafety {
    type V = SafetyView;

    closed spec fn deep_view(&self) -> SafetyView {
        SafetyView {
            block_not_included: self.block_not_included,
            round_not_included: self.round_for_block_not_included,
            commit: self.commit_for_block_not_included.deep_view(),
            querying_rounds: states_view(self.querying_rounds@),
            prevote_queries: states_view(self.prevote_queries@),
        }
    }
}

impl AccountableSafety {
    /// The run is well formed: its round states are filed under their
    /// rounds.
    pub open spec fn wf(&self) -> bool {
        self.deep_view().wf()
    }

    /// Starts a run about the block `block_not_included`, which was
    /// finalized in `round_for_block_not_included` by
    /// `commit_for_block_not_included`. Nobody has been asked yet.
    pub fn start(
        block_not_included: BlockNumber,
        round_for_block_not_included: RoundNumber,
        commit_for_block_not_included: Commit,
    ) -> (run: Self)
        ensures
            run.wf(),
            run.deep_view() == (SafetyView {
                block_not_included,
                round_not_included: round_for_block_not_included,
                commit: commit_for_block_not_included.deep_view(),
                querying_rounds: Map::empty(),
                prevote_queries: Map::empty(),
            }),
    {
        let run = Self {
            block_not_included,
            round_for_block_not_included,
            commit_for_block_not_included,
            querying_rounds: BTreeMap::new(),
            prevote_queries: BTreeMap::new(),
        };
        assert(states_view(run.querying_rounds@) =~= Map::<RoundNumber, QueryStateView>::empty());
        assert(states_view(run.prevote_queries@) =~= Map::<RoundNumber, QueryStateView>::empty());
        run
    }

    /// Registers that `voters` are asked why their estimate for the round
    /// before `round` did not include the block left out, and returns the
    /// question. What was known of `round` before is forgotten.
    pub fn start_query_round(&mut self, round: RoundNumber, voters: Vec<VoterId>) -> (query: Query)
        requires
            old(self).wf(),
        ensures
            final(self).wf(),
            final(self).deep_view() == old(self).deep_view().start_query_round(
                round,
                voters.deep_view(),
            ),
            query.deep_view() == old(self).deep_view().query_for(round, voters.deep_view()),
    {
        let receivers = clone_names(voters.as_slice());
        put_fresh_round(&mut self.querying_rounds, round, voters);
        Query { round, receivers, block_not_included: self.block_not_included }
    }

    /// Takes in the answer `query_response` of `voter` to the query about
    /// `round`, and returns the question to ask next, if the answer leads to
    /// one.
    pub fn add_response(
        &mut self,
        round: RoundNumber,
        voter: VoterId,
        query_response: QueryResponse,
        chain: &Chain,
    ) -> (result: Result<Option<NextQuery>, Fault>)
        requires
            old(self).wf(),
            chain.wf(),
        ensures
            final(self).wf(),
            add_response_step(
                old(self).deep_view(),
                chain.blocks(),
                round,
                voter@,
                query_response.deep_view(),
                final(self).deep_view(),
                outcome_view(result),
            ),
    {
        let ghost pre = self.deep_view();
        let ghost reply = query_response.deep_view();
        let checked = match self.querying_rounds.get(&round) {
            Some(state) => check_query_reply_is_valid(
                &query_response,
                self.block_not_included,
                state.voters.as_slice(),
                chain,
            ),
            None => {
                return Err(Fault::UnknownRound);
            },
        };
        let valid = match checked {
            Ok(valid) => valid,
            Err(e) => {
                return Err(Fault::Ledger(e));
            },
        };
        if !valid {
            let detected = EquivocationDetected::InvalidResponse(voter);
            record_with(&mut self.querying_rounds, round, detected);
            return Ok(None);
        }
        store_with(&mut self.querying_rounds, round, voter, query_response.clone());
        let ghost stored = SafetyView {
            querying_rounds: store_reply(pre.querying_rounds, round, voter@, reply),
            ..pre
        };
        assert(self.deep_view() == stored);
        assert(stored.wf());

        if round > 0 && round - 1 == self.round_for_block_not_included {
            match query_response {
                QueryResponse::Precommits(precommits) => {
                    let ghost both = precommits.deep_view()
                        + self.commit_for_block_not_included.precommits.deep_view();
                    assert(crate::voting::ballots_of(precommits@) =~= precommits.deep_view());
                    assert(crate::voting::ballots_of(
                        self.commit_for_block_not_included.precommits@,
                    ) =~= self.commit_for_block_not_included.precommits.deep_view());
                    match cross_check_votes(
                        precommits,
                        copy_votes(&self.commit_for_block_not_included.precommits),
                    ) {
                        None => {
                            assert(precommits_checked(
                                stored,
                                round,
                                both,
                                self.deep_view(),
                                Err::<Option<NextQueryView>, Fault>(Fault::NoEquivocationFound),
                            ));
                            Err(Fault::NoEquivocationFound)
                        },
                        Some(found) => {
                            proof {
                                crate::voting::lemma_proof_names_equivocator(
                                    both,
                                    found.deep_view()[0],
                                );
                            }
                            let ghost shown = found.deep_view();
                            record_with(
                                &mut self.querying_rounds,
                                round,
                                EquivocationDetected::Precommit(found),
                            );
                            proof {
                                assert(is_cross_check(both, shown));
                                assert(self.deep_view() == SafetyView {
                                    querying_rounds: record(
                                        stored.querying_rounds,
                                        round,
                                        DetectedView::Precommit(shown),
                                    ),
                                    ..stored
                                });
                                assert(precommits_checked(
                                    stored,
                                    round,
                                    both,
                                    self.deep_view(),
                                    Ok::<Option<NextQueryView>, Fault>(None),
                                ));
                            }
                            Ok(None)
                        },
                    }
                },
                QueryResponse::Prevotes(_) => {
                    assert(crate::voting::ballots_of(
                        self.commit_for_block_not_included.precommits@,
                    ) =~= self.commit_for_block_not_included.precommits.deep_view());
                    let signers = unique_names(
                        names_of(&self.commit_for_block_not_included.precommits),
                    );
                    let receivers = clone_names(signers.as_slice());
                    if !self.prevote_queries.contains_key(&(round - 1)) {
                        put_fresh_round(&mut self.prevote_queries, round - 1, signers);
                    }
                    let query = PrevoteQuery { round: round - 1, receivers };
                    Ok(Some(NextQuery::PrevotesForRound(query)))
                },
            }
        } else if round == 0 {
            Err(Fault::NoEarlierRound)
        } else if self.querying_rounds.contains_key(&(round - 1)) {
            Ok(None)
        } else {
            let voters = query_response.voters();
            let query = self.start_query_round(round - 1, voters);
            Ok(Some(NextQuery::AskAboutRound(query)))
        }
    }

    /// Takes in the answer `query_response` of `voter` to the question which
    /// prevotes were seen in `round`.
    pub fn add_prevote_response(
        &mut self,
        round: RoundNumber,
        voter: VoterId,
        query_response: QueryResponse,
    ) -> (result: Result<(), Fault>)
        requires
            old(self).wf(),
        ensures
            final(self).wf(),
            add_prevote_response_step(
                old(self).deep_view(),
                round,
                voter@,
                query_response.deep_view(),
                final(self).deep_view(),
                result,
            ),
    {
        let ghost pre = self.deep_view();
        let ghost reply = query_response.deep_view();
        if !self.prevote_queries.contains_key(&round) {
            return Err(Fault::UnknownRound);
        }
        store_with(&mut self.prevote_queries, round, voter, query_response.clone());
        let ghost stored = SafetyView {
            prevote_queries: store_reply(pre.prevote_queries, round, voter@, reply),
            ..pre
        };
        assert(self.deep_view() == stored);
        assert(stored.wf());
        match query_response {
            QueryResponse::Precommits(_) => Err(Fault::UnexpectedResponse),
            QueryResponse::Prevotes(seen) => {
                let answered = if round < RoundNumber::MAX {
                    match self.querying_rounds.get(&(round + 1)) {
                        Some(next) => prevotes_of(&next.responses),
                        None => Vec::new(),
                    }
                } else {
                    Vec::new()
                };
                assert(answered.deep_view() =~= prevotes_answered(pre.querying_rounds, round + 1));
                let ghost both = seen.deep_view() + answered.deep_view();
                assert(crate::voting::ballots_of(seen@) =~= seen.deep_view());
                assert(crate::voting::ballots_of(answered@) =~= answered.deep_view());
                match cross_check_votes(seen, answered) {
                    None => {
                        assert(prevotes_checked(
                            stored,
                            round,
                            both,
                            self.deep_view(),
                            Err::<(), Fault>(Fault::NoEquivocationFound),
                        ));
                        Err(Fault::NoEquivocationFound)
                    },
                    Some(found) => {
                        proof {
                            crate::voting::lemma_proof_names_equivocator(both, found.deep_view()[0]);
                        }
                        let ghost shown = found.deep_view();
                        let detected = EquivocationDetected::Prevote(found);
                        assert(self.prevote_queries@.contains_key(round));
                        let known = match self.prevote_queries.get(&round) {
                            Some(state) => {
                                assert(stored.prevote_queries[round] == state.deep_view());
                                is_on_record(&state.equivocations, &detected)
                            },
                            None => true,
                        };
                        if !known {
                            record_with(&mut self.prevote_queries, round, detected);
                        }
                        assert(is_cross_check(both, shown));
                        assert(self.deep_view() == recorded_once(stored, round, shown));
                        assert(prevotes_checked(
                            stored,
                            round,
                            both,
                            self.deep_view(),
                            Ok::<(), Fault>(()),
                        ));
                        Ok(())
                    },
                }
            },
        }
    }

    /// Everything that the run has detected, in ascending order of the
    /// rounds that the queries were about, whichever kind they were of, and
    /// for each query in the order in which it was found. Where a round has a
    /// query of each kind, what the query about the estimate found comes
    /// first.
    pub fn equivocations_detected(&self) -> (all: Vec<EquivocationDetected>)
        ensures
            all.deep_view() == self.deep_view().equivocations_detected(),
    {
        let ghost queries = states_view(self.querying_rounds@);
        let ghost prevotes = states_view(self.prevote_queries@);
        let mut rounds: Vec<RoundNumber> = Vec::new();
        insert_rounds_of(&self.querying_rounds, &mut rounds);
        insert_rounds_of(&self.prevote_queries, &mut rounds);
        assert(rounds@.to_set() =~= self.querying_rounds@.dom().union(
            self.prevote_queries@.dom(),
        ));
        let mut all: Vec<EquivocationDetected> = Vec::new();
        let mut k: usize = 0;
        let ghost mut bound: nat = 0;
        assert(all.deep_view() =~= Seq::<DetectedView>::empty());
        while k < rounds.len()
            invariant
                k <= rounds.len(),
                queries == states_view(self.querying_rounds@),
                prevotes == states_view(self.prevote_queries@),
                rounds_ascend(rounds@),
                rounds@.to_set() == self.querying_rounds@.dom().union(
                    self.prevote_queries@.dom(),
                ),
                bound <= END_OF_ROUNDS(),
                k < rounds.len() ==> bound <= rounds[k as int],
                forall|j: int| 0 <= j < k ==> rounds[j] < bound,
                all.deep_view() == detected_below(queries, prevotes, bound),
            decreases rounds.len() - k,
        {
            let round = rounds[k];
            proof {
                assert forall|r: RoundNumber| bound <= r < round implies !queries.contains_key(r)
                    && !prevotes.contains_key(r) by {
                    if self.querying_rounds@.contains_key(r) || self.prevote_queries@.contains_key(
                        r,
                    ) {
                        assert(rounds@.to_set().contains(r));
                        assert(rounds@.contains(r));
                        let j = choose|j: int| 0 <= j < rounds@.len() && rounds@[j] == r;
                        if j < k {
                            assert(rounds[j] < bound);
                        } else if j > k {
                            assert(rounds[k as int] < rounds[j]);
                        }
                    }
                }
                lemma_rounds_without_state(queries, prevotes, bound, round as nat);
            }
            let ghost before = all.deep_view();
            match self.querying_rounds.get(&round) {
                Some(state) => {
                    add_detected(state, &mut all);
                },
                None => {
                    assert(all.deep_view() + Seq::<DetectedView>::empty() =~= all.deep_view());
                },
            }
            let ghost middle = all.deep_view();
            assert(middle == before + detected_in_round(queries, round as nat));
            match self.prevote_queries.get(&round) {
                Some(state) => {
                    add_detected(state, &mut all);
                },
                None => {
                    assert(all.deep_view() + Seq::<DetectedView>::empty() =~= all.deep_view());
                },
            }
            assert(all.deep_view() == middle + detected_in_round(prevotes, round as nat));
            proof {
                bound = (round + 1) as nat;
                assert(all.deep_view() == detected_below(queries, prevotes, bound));
            }
            k += 1;
        }
        proof {
            assert forall|r: RoundNumber| bound <= r < END_OF_ROUNDS() implies !queries.contains_key(
                r,
            ) && !prevotes.contains_key(r) by {
                if self.querying_rounds@.contains_key(r) || self.prevote_queries@.contains_key(r) {
                    assert(rounds@.to_set().contains(r));
                    assert(rounds@.contains(r));
                    let j = choose|j: int| 0 <= j < rounds@.len() && rounds@[j] == r;
                    assert(rounds[j] < bound);
                }
            }
            lemma_rounds_without_state(queries, prevotes, bound, END_OF_ROUNDS());
        }
        all
    }
}

} // verus!
