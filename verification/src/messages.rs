//! Network-facing message envelopes and the typed events the event builder
//! hands to the state machine.

use vstd::prelude::*;
use crate::types::{NodeId, BlockId};
use crate::qc::{Qc, Block, Vote, Timeout, TimeoutQc, NewView};

verus! {

/// A vote, with its sender and the certificate it may complete.
#[derive(Clone, Copy, Debug)]
pub struct VoteMsg {
    pub voter: NodeId,
    pub vote: Vote,
    pub qc: Option<Qc>,
}

/// A new-view vote, with its sender.
#[derive(Clone, Copy, Debug)]
pub struct NewViewMsg {
    pub voter: NodeId,
    pub vote: NewView,
}

/// A timeout signal, with its sender.
#[derive(Clone, Copy, Debug)]
pub struct TimeoutMsg {
    pub voter: NodeId,
    pub vote: Timeout,
}

/// A timeout certificate on the wire.
#[derive(Clone, Copy, Debug)]
pub struct TimeoutQcMsg {
    pub source: NodeId,
    pub qc: TimeoutQc,
}

/// A proposal fragment: the serialized block, and the id and view it claims.
#[derive(Clone, Debug)]
pub struct ProposalChunkMsg {
    pub chunk: Vec<u8>,
    pub proposal: BlockId,
    pub view: u64,
}

/// Everything a node can receive from the network.
#[derive(Clone, Debug)]
pub enum CarnotMessage {
    Proposal(ProposalChunkMsg),
    Vote(VoteMsg),
    NewView(NewViewMsg),
    Timeout(TimeoutMsg),
    TimeoutQc(TimeoutQcMsg),
    LocalTimeout,
}

/// Semantically typed events for the state machine.
#[derive(Clone, Debug)]
pub enum Event {
    Proposal { block: Block },
    Approve { qc: Qc, block: Block, votes: Vec<Vote> },
    NewView { timeout_qc: TimeoutQc, new_views: Vec<NewView> },
    TimeoutQc { timeout_qc: TimeoutQc },
    RootTimeout { timeouts: Vec<Timeout> },
    ProposeBlock { qc: Qc },
    LocalTimeout,
}

} // verus!
