//! Blocks, votes, timeouts and quorum certificates.

use vstd::prelude::*;
use crate::types::{NodeId, BlockId};
use crate::committee::Committee;

verus! {

/// Quorum certificate over a block.
#[derive(Clone, Copy, Debug)]
pub struct StandardQc {
    pub view: u64,
    pub id: BlockId,
}

impl StandardQc {
    /// The certificate the genesis block carries: view 0 over the zero id.
    pub fn genesis() -> (r: StandardQc)
        ensures
            r.view == 0,
            r.id@ == Seq::<u8>::new(32, |i: int| 0u8),
    {
        StandardQc { view: 0, id: BlockId::zero() }
    }
}

impl PartialEq for StandardQc {
    fn eq(&self, other: &StandardQc) -> (r: bool) {
        self.view == other.view && self.id == other.id
    }
}

impl Eq for StandardQc {

}

impl vstd::std_specs::cmp::PartialEqSpecImpl for StandardQc {
    open spec fn obeys_eq_spec() -> bool {
        true
    }

    open spec fn eq_spec(&self, other: &StandardQc) -> bool {
        *self == *other
    }
}

/// Quorum certificate over a view timeout, wrapping the highest standard
/// certificate seen by the aggregators.
#[derive(Clone, Copy, Debug)]
pub struct AggregateQc {
    pub view: u64,
    pub high_qc: StandardQc,
}

impl PartialEq for AggregateQc {
    fn eq(&self, other: &AggregateQc) -> (r: bool) {
        self.view == other.view && self.high_qc == other.high_qc
    }
}

impl Eq for AggregateQc {

}

impl vstd::std_specs::cmp::PartialEqSpecImpl for AggregateQc {
    open spec fn obeys_eq_spec() -> bool {
        true
    }

    open spec fn eq_spec(&self, other: &AggregateQc) -> bool {
        *self == *other
    }
}

/// Tagged union of the two certificate kinds.
#[derive(Clone, Copy, Debug)]
pub enum Qc {
    Standard(StandardQc),
    Aggregate(AggregateQc),
}

impl Qc {
    /// The view this certificate certifies.
    pub open spec fn view_spec(&self) -> u64 {
        match *self {
            Qc::Standard(q) => q.view,
            Qc::Aggregate(a) => a.view,
        }
    }

    /// The standard certificate inside: itself, or the aggregate's high qc.
    pub open spec fn high_qc_spec(&self) -> StandardQc {
        match *self {
            Qc::Standard(q) => q,
            Qc::Aggregate(a) => a.high_qc,
        }
    }

    /// The id of the block this certificate points at.
    pub open spec fn block_spec(&self) -> BlockId {
        self.high_qc_spec().id
    }

    pub fn view(&self) -> (r: u64)
        ensures
            r == self.view_spec(),
    {
        match self {
            Qc::Standard(q) => q.view,
            Qc::Aggregate(a) => a.view,
        }
    }

    pub fn high_qc(&self) -> (r: StandardQc)
        ensures
            r == self.high_qc_spec(),
    {
        match self {
            Qc::Standard(q) => *q,
            Qc::Aggregate(a) => a.high_qc,
        }
    }

    pub fn block(&self) -> (r: BlockId)
        ensures
            r == self.block_spec(),
    {
        self.high_qc().id
    }
}

impl PartialEq for Qc {
    fn eq(&self, other: &Qc) -> (r: bool) {
        match (self, other) {
            (Qc::Standard(a), Qc::Standard(b)) => *a == *b,
            (Qc::Aggregate(a), Qc::Aggregate(b)) => *a == *b,
            _ => false,
        }
    }
}

impl Eq for Qc {

}

impl vstd::std_specs::cmp::PartialEqSpecImpl for Qc {
    open spec fn obeys_eq_spec() -> bool {
        true
    }

    open spec fn eq_spec(&self, other: &Qc) -> bool {
        *self == *other
    }
}

/// Proposal header: a block is its id, its view, and the certificate over
/// its parent.
#[derive(Clone, Copy, Debug)]
pub struct Block {
    pub id: BlockId,
    pub view: u64,
    pub parent_qc: Qc,
}

impl Block {
    /// The id of this block's parent: the block its certificate points at.
    pub open spec fn parent_spec(&self) -> BlockId {
        self.parent_qc.block_spec()
    }

    pub fn parent(&self) -> (r: BlockId)
        ensures
            r == self.parent_spec(),
    {
        self.parent_qc.block()
    }

    /// The genesis block: zero id, view 0, certified by the genesis qc.
    pub fn genesis() -> (r: Block)
        ensures
            r.view == 0,
            r.id@ == Seq::<u8>::new(32, |i: int| 0u8),
            r.parent_qc == Qc::Standard(StandardQc { view: 0u64, id: r.id }),
    {
        let id = BlockId::zero();
        let b = Block { id, view: 0, parent_qc: Qc::Standard(StandardQc { view: 0, id }) };
        proof {
            crate::types::lemma_block_id_ext(b.id, id);
        }
        b
    }
}

impl PartialEq for Block {
    fn eq(&self, other: &Block) -> (r: bool) {
        self.id == other.id && self.view == other.view && self.parent_qc == other.parent_qc
    }
}

impl Eq for Block {

}

impl vstd::std_specs::cmp::PartialEqSpecImpl for Block {
    open spec fn obeys_eq_spec() -> bool {
        true
    }

    open spec fn eq_spec(&self, other: &Block) -> bool {
        *self == *other
    }
}

/// A signed endorsement of one block in one view.
#[derive(Clone, Copy, Debug)]
pub struct Vote {
    pub view: u64,
    pub block: BlockId,
}

impl PartialEq for Vote {
    fn eq(&self, other: &Vote) -> (r: bool) {
        self.view == other.view && self.block == other.block
    }
}

impl Eq for Vote {

}

impl vstd::std_specs::cmp::PartialEqSpecImpl for Vote {
    open spec fn obeys_eq_spec() -> bool {
        true
    }

    open spec fn eq_spec(&self, other: &Vote) -> bool {
        *self == *other
    }
}

/// One node's timeout signal for a view.
#[derive(Clone, Copy, Debug)]
pub struct Timeout {
    pub view: u64,
    pub sender: NodeId,
    pub high_qc: StandardQc,
}

impl PartialEq for Timeout {
    fn eq(&self, other: &Timeout) -> (r: bool) {
        self.view == other.view && self.sender == other.sender && self.high_qc == other.high_qc
    }
}

impl Eq for Timeout {

}

impl vstd::std_specs::cmp::PartialEqSpecImpl for Timeout {
    open spec fn obeys_eq_spec() -> bool {
        true
    }

    open spec fn eq_spec(&self, other: &Timeout) -> bool {
        *self == *other
    }
}

/// Proof that the root committee observed a timeout of `view`.
#[derive(Clone, Copy, Debug)]
pub struct TimeoutQc {
    pub view: u64,
    pub high_qc: StandardQc,
    pub sender: NodeId,
}

impl PartialEq for TimeoutQc {
    fn eq(&self, other: &TimeoutQc) -> (r: bool) {
        self.view == other.view && self.high_qc == other.high_qc && self.sender == other.sender
    }
}

impl Eq for TimeoutQc {

}

impl vstd::std_specs::cmp::PartialEqSpecImpl for TimeoutQc {
    open spec fn obeys_eq_spec() -> bool {
        true
    }

    open spec fn eq_spec(&self, other: &TimeoutQc) -> bool {
        *self == *other
    }
}

/// A vote for entering the view after a timeout.
#[derive(Clone, Copy, Debug)]
pub struct NewView {
    pub view: u64,
    pub sender: NodeId,
    pub timeout_qc: TimeoutQc,
    pub high_qc: StandardQc,
}

impl PartialEq for NewView {
    fn eq(&self, other: &NewView) -> (r: bool) {
        self.view == other.view && self.sender == other.sender && self.timeout_qc
            == other.timeout_qc && self.high_qc == other.high_qc
    }
}

impl Eq for NewView {

}

impl vstd::std_specs::cmp::PartialEqSpecImpl for NewView {
    open spec fn obeys_eq_spec() -> bool {
        true
    }

    open spec fn eq_spec(&self, other: &NewView) -> bool {
        *self == *other
    }
}

/// What a transition hands to the network layer.
#[derive(Clone, Copy, Debug)]
pub enum Payload {
    Vote(Vote),
    Timeout(Timeout),
    NewView(NewView),
}

/// An outbound effect of a transition: a payload for a committee, or a
/// broadcast to everyone.
#[derive(Debug)]
pub enum Output {
    Send { to: Committee, payload: Payload },
    BroadcastTimeoutQc { timeout_qc: TimeoutQc },
    BroadcastProposal { proposal: Block },
}

} // verus!
