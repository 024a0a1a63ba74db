//! The messages that voters exchange.

use vstd::prelude::*;
use crate::block::{Block, BlockNumber};
use crate::names::{Name, VoterId};
use crate::protocol::{QueryResponse, ReplyView};
use crate::voting::{copy_votes, Commit, CommitView, RoundNumber};

verus! {

/// A request as the contracts see it.
pub enum RequestView {
    HereIsCommit(RoundNumber, CommitView),
    HereAreBlocks(Seq<Block>),
    WhyDidEstimateForRoundNotIncludeBlock(RoundNumber, BlockNumber),
    WhichPrevotesSeenInRound(RoundNumber),
}

/// A response as the contracts see it.
pub enum ResponseView {
    RequestBlock(BlockNumber),
    ExplainEstimate(RoundNumber, ReplyView),
    PrevotesSeen(RoundNumber, ReplyView),
}

/// What a message carries as the contracts see it.
pub enum PayloadView {
    Request(RequestView),
    Response(ResponseView),
}

/// A message as the contracts see it.
pub struct MessageView {
    pub sender: Name,
    pub receiver: Name,
    pub content: PayloadView,
}

/// What one voter asks of another, or tells it unasked.
#[derive(Debug)]
pub enum Request {
    /// The block of the certificate was finalized in the given round.
    HereIsCommit(RoundNumber, Commit),
    /// Blocks of a chain, oldest first.
    HereAreBlocks(Vec<Block>),
    /// Why did your estimate for the round before the given round not
    /// include the given block?
    WhyDidEstimateForRoundNotIncludeBlock(RoundNumber, BlockNumber),
    /// Which prevotes have you seen in the given round?
    WhichPrevotesSeenInRound(RoundNumber),
}

impl DeepView for Request {
    type V = RequestView;

    open spec fn deep_view(&self) -> RequestView {
        match self {
            Request::HereIsCommit(round, commit) => RequestView::HereIsCommit(
                *round,
                commit.deep_view(),
            ),
            Request::HereAreBlocks(blocks) => RequestView::HereAreBlocks(blocks@),
            Request::WhyDidEstimateForRoundNotIncludeBlock(round, block) => {
                RequestView::WhyDidEstimateForRoundNotIncludeBlock(*round, *block)
            },
            Request::WhichPrevotesSeenInRound(round) => RequestView::WhichPrevotesSeenInRound(
                *round,
            ),
        }
    }
}

impl Clone for Request {
    fn clone(&self) -> (copy: Self)
        ensures
            copy.deep_view() == self.deep_view(),
    {
        match self {
            Request::HereIsCommit(round, commit) => Request::HereIsCommit(*round, commit.clone()),
            Request::HereAreBlocks(blocks) => Request::HereAreBlocks(copy_votes(blocks)),
            Request::WhyDidEstimateForRoundNotIncludeBlock(round, block) => {
                Request::WhyDidEstimateForRoundNotIncludeBlock(*round, *block)
            },
            Request::WhichPrevotesSeenInRound(round) => Request::WhichPrevotesSeenInRound(*round),
        }
    }
}

/// What a voter answers.
#[derive(Debug)]
pub enum Response {
    /// Send me the chain of the given block.
    RequestBlock(BlockNumber),
    /// The votes that explain the estimate asked about in the given round.
    ExplainEstimate(RoundNumber, QueryResponse),
    /// The prevotes seen in the given round.
    PrevotesSeen(RoundNumber, QueryResponse),
}

impl DeepView for Response {
    type V = ResponseView;

    open spec fn deep_view(&self) -> ResponseView {
        match self {
            Response::RequestBlock(block) => ResponseView::RequestBlock(*block),
            Response::ExplainEstimate(round, reply) => ResponseView::ExplainEstimate(
                *round,
                reply.deep_view(),
            ),
            Response::PrevotesSeen(round, reply) => ResponseView::PrevotesSeen(
                *round,
                reply.deep_view(),
            ),
        }
    }
}

impl Clone for Response {
    fn clone(&self) -> (copy: Self)
        ensures
            copy.deep_view() == self.deep_view(),
    {
        match self {
            Response::RequestBlock(block) => Response::RequestBlock(*block),
            Response::ExplainEstimate(round, reply) => Response::ExplainEstimate(
                *round,
                reply.clone(),
            ),
            Response::PrevotesSeen(round, reply) => Response::PrevotesSeen(*round, reply.clone()),
        }
    }
}

/// What a message carries.
#[derive(Debug)]
pub enum Payload {
    Request(Request),
    Response(Response),
}

impl DeepView for Payload {
    type V = PayloadView;

    open spec fn deep_view(&self) -> PayloadView {
        match self {
            Payload::Request(request) => PayloadView::Request(request.deep_view()),
            Payload::Response(response) => PayloadView::Response(response.deep_view()),
        }
    }
}

impl Clone for Payload {
    fn clone(&self) -> (copy: Self)
        ensures
            copy.deep_view() == self.deep_view(),
    {
        match self {
            Payload::Request(request) => Payload::Request(request.clone()),
            Payload::Response(response) => Payload::Response(response.clone()),
        }
    }
}

impl Payload {
    /// The request, if this is one.
    pub fn request(&self) -> (found: Option<&Request>)
        ensures
            match found {
                Some(request) => *self == Payload::Request(*request),
                None => self is Response,
            },
    {
        match self {
            Payload::Request(request) => Some(request),
            Payload::Response(..) => None,
        }
    }

    /// The response, if this is one.
    pub fn response(&self) -> (found: Option<&Response>)
        ensures
            match found {
                Some(response) => *self == Payload::Response(*response),
                None => self is Request,
            },
    {
        match self {
            Payload::Request(..) => None,
            Payload::Response(response) => Some(response),
        }
    }
}

/// A message from one voter to another.
#[derive(Debug)]
pub struct Message {
    pub sender: VoterId,
    pub receiver: VoterId,
    pub content: Payload,
}

impl DeepView for Message {
    type V = MessageView;

    open spec fn deep_view(&self) -> MessageView {
        MessageView {
            sender: self.sender@,
            receiver: self.receiver@,
            content: self.content.deep_view(),
        }
    }
}

} // verus!
