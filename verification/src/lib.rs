//! Accountable safety for a GRANDPA-style finality gadget.
//!
//! When two blocks on different forks are both finalized, more than a third of
//! the voters must have voted twice in some round. This crate tracks the
//! ledger of blocks and finality certificates, and runs the round-by-round
//! interrogation that turns two conflicting certificates into named
//! equivocators.

pub mod action;
pub mod block;
pub mod chain;
pub mod fault;
pub mod message;
pub mod names;
pub mod protocol;
pub mod voter;
pub mod voting;
pub mod world;
