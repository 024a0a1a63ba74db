//! The ways in which an operation of the protocol can break off.
//!
//! These are broken preconditions of the simulated network, not faults of a
//! remote voter: the operation that meets one stops at once and reports it.

use vstd::prelude::*;
use crate::chain::ChainError;

verus! {

#[derive(Clone, Copy, Debug, PartialEq, Eq, Structural)]
pub enum Fault {
    /// The ledger refused an operation.
    Ledger(ChainError),
    /// A vote names a voter who is not in the voter set.
    NotAMember,
    /// An answer came for a round about which nobody was asked.
    UnknownRound,
    /// The round before the one asked about does not exist.
    NoEarlierRound,
    /// No votes are on record for the round that a query is about.
    NoVotesRecorded,
    /// Not exactly one of the recorded histories of a round answers a query.
    AmbiguousEstimate,
    /// The last step of the protocol was reached and no voter was found to
    /// have voted twice.
    NoEquivocationFound,
    /// An answer holds the wrong kind of votes.
    UnexpectedResponse,
    /// A block came in that differs from the block known under its number.
    BlockMismatch,
    /// A certificate came in that differs from the one known for its block.
    CommitMismatch,
    /// An answer came in and no instance of the protocol is running.
    NoActiveInstance,
    /// A message is addressed to a voter who does not exist.
    UnknownVoter,
    /// A message that is no request was handed in as one, or the reverse.
    WrongPayload,
    /// The tick is so late that nothing can be put off from it.
    OutOfTicks,
}

} // verus!
