//! What a voter has resolved to do at a later tick.

use vstd::prelude::*;
use crate::block::BlockNumber;
use crate::message::{Request, RequestView};
use crate::names::{Name, VoterId};
use crate::protocol::{PrevoteQuery, PrevoteQueryView, Query, QueryView};

verus! {

/// The tick at or after which an action is due.
pub type TriggerAtTick = usize;

/// An action as the contracts see it.
pub enum ActionView {
    BroadcastCommits,
    SendBlock(Name, BlockNumber),
    RequeueRequest((Name, RequestView)),
    AskVotersAboutEstimate(QueryView),
    AskVotersWhichPrevotesSeen(PrevoteQueryView),
}

#[derive(Debug)]
pub enum Action {
    /// Send every known certificate to every other voter.
    BroadcastCommits,
    /// Send the chain of the block to the voter.
    SendBlock(VoterId, BlockNumber),
    /// Take up again the request of the voter, which had to wait.
    RequeueRequest((VoterId, Request)),
    /// Put the question about an estimate to its receivers.
    AskVotersAboutEstimate(Query),
    /// Put the question about the prevotes seen to its receivers.
    AskVotersWhichPrevotesSeen(PrevoteQuery),
}

impl DeepView for Action {
    type V = ActionView;

    open spec fn deep_view(&self) -> ActionView {
        match self {
            Action::BroadcastCommits => ActionView::BroadcastCommits,
            Action::SendBlock(voter, block) => ActionView::SendBlock(voter@, *block),
            Action::RequeueRequest(request) => ActionView::RequeueRequest(
                (request.0@, request.1.deep_view()),
            ),
            Action::AskVotersAboutEstimate(query) => ActionView::AskVotersAboutEstimate(
                query.deep_view(),
            ),
            Action::AskVotersWhichPrevotesSeen(query) => ActionView::AskVotersWhichPrevotesSeen(
                query.deep_view(),
            ),
        }
    }
}

impl Clone for Action {
    fn clone(&self) -> (copy: Self)
        ensures
            copy.deep_view() == self.deep_view(),
    {
        match self {
            Action::BroadcastCommits => Action::BroadcastCommits,
            Action::SendBlock(voter, block) => Action::SendBlock(voter.clone(), *block),
            Action::RequeueRequest(request) => Action::RequeueRequest(
                (request.0.clone(), request.1.clone()),
            ),
            Action::AskVotersAboutEstimate(query) => Action::AskVotersAboutEstimate(query.clone()),
            Action::AskVotersWhichPrevotesSeen(query) => Action::AskVotersWhichPrevotesSeen(
                query.clone(),
            ),
        }
    }
}

} // verus!
