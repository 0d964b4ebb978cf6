//! Vote tallying: duplicate and membership checks over a stream of votes,
//! a standard certificate once the threshold is reached.

use vstd::prelude::*;
use crate::types::NodeId;
use crate::committee::Committee;
use crate::qc::{StandardQc, Qc, Vote};
use crate::messages::VoteMsg;

verus! {

/// Why the tally stopped without a certificate.
#[derive(Debug)]
pub enum CarnotTallyError {
    /// A vote was rejected; the message says why.
    InvalidVote(String),
    /// The stream ended before the threshold was reached.
    InsufficientVotes,
}

/// The reasons a tally can stop, as the proofs see them.
#[derive(Clone, Copy, PartialEq, Eq, Structural, Debug)]
pub enum TallyErrKind {
    InvalidView,
    DoubleVote,
    NonParticipant,
    Insufficient,
}

/// The message text carried by each rejection.
pub open spec fn tally_err_msg(k: TallyErrKind) -> Seq<char> {
    match k {
        TallyErrKind::InvalidView => "Invalid view"@,
        TallyErrKind::DoubleVote => "Double voted node"@,
        TallyErrKind::NonParticipant => "Non-participating node"@,
        TallyErrKind::Insufficient => ""@,
    }
}

/// The returned error matches the spec-level kind.
pub open spec fn err_matches(e: CarnotTallyError, k: TallyErrKind) -> bool {
    match e {
        CarnotTallyError::InvalidVote(m) => k != TallyErrKind::Insufficient && m@
            == tally_err_msg(k),
        CarnotTallyError::InsufficientVotes => k == TallyErrKind::Insufficient,
    }
}

/// What the whole tally of a vote sequence yields: the certificate and the
/// accepted votes, or the first failure.
pub open spec fn tally_run(
    pn: Set<NodeId>,
    threshold: int,
    view: u64,
    msgs: Seq<VoteMsg>,
    seen: Set<NodeId>,
    acc: Seq<Vote>,
) -> Result<(Qc, Seq<Vote>), TallyErrKind>
    decreases msgs.len(),
{
    if msgs.len() == 0 {
        Err(TallyErrKind::Insufficient)
    } else {
        let m = msgs.first();
        if m.vote.view != view {
            Err(TallyErrKind::InvalidView)
        } else if seen.contains(m.voter) {
            Err(TallyErrKind::DoubleVote)
        } else if !pn.contains(m.voter) {
            Err(TallyErrKind::NonParticipant)
        } else if acc.len() + 1 >= threshold {
            Ok(
                (
                    Qc::Standard(StandardQc { view: m.vote.view, id: m.vote.block }),
                    acc.push(m.vote),
                ),
            )
        } else {
            tally_run(pn, threshold, view, msgs.drop_first(), seen.insert(m.voter), acc.push(m.vote))
        }
    }
}

/// Tally configuration: the threshold to reach and who may vote.
#[derive(Clone, Debug)]
pub struct CarnotTallySettings {
    pub threshold: usize,
    pub participating_nodes: Committee,
}

/// The tally engine.
#[derive(Clone, Debug)]
pub struct CarnotTally {
    pub settings: CarnotTallySettings,
}

/// The accumulator of a running tally: voters seen, votes kept.
pub struct TallyState {
    pub seen: Committee,
    pub outcome: Vec<Vote>,
}

impl TallyState {
    pub open spec fn inv(&self) -> bool {
        self.seen.inv()
    }

    pub fn new() -> (r: TallyState)
        ensures
            r.seen@ == Seq::<NodeId>::empty(),
            r.outcome@ == Seq::<Vote>::empty(),
            r.inv(),
    {
        TallyState { seen: Committee::new(), outcome: Vec::new() }
    }
}

impl CarnotTally {
    pub fn new(settings: CarnotTallySettings) -> (r: CarnotTally)
        ensures
            r.settings == settings,
    {
        CarnotTally { settings }
    }

    /// Feed one vote into a running tally. A vote for another view, a second
    /// vote from one voter, and a vote from outside the participant set are
    /// each rejected with their reason, and the accumulator stays as it was.
    /// An accepted vote is recorded; the one that reaches the threshold
    /// yields the certificate and the votes, and clears the accumulator.
    pub fn tally_vote(&self, view: u64, state: &mut TallyState, msg: VoteMsg) -> (r: Result<
        Option<(Qc, Vec<Vote>)>,
        CarnotTallyError,
    >)
        requires
            old(state).inv(),
        ensures
            final(state).inv(),
            msg.vote.view != view ==> ({
                &&& r matches Err(e)
                &&& err_matches(e, TallyErrKind::InvalidView)
                &&& *final(state) == *old(state)
            }),
            msg.vote.view == view && old(state).seen@.contains(msg.voter) ==> ({
                &&& r matches Err(e)
                &&& err_matches(e, TallyErrKind::DoubleVote)
                &&& *final(state) == *old(state)
            }),
            msg.vote.view == view && !old(state).seen@.contains(msg.voter)
                && !self.settings.participating_nodes@.contains(msg.voter) ==> ({
                &&& r matches Err(e)
                &&& err_matches(e, TallyErrKind::NonParticipant)
                &&& *final(state) == *old(state)
            }),
            msg.vote.view == view && !old(state).seen@.contains(msg.voter)
                && self.settings.participating_nodes@.contains(msg.voter) && old(
                state,
            ).outcome@.len() + 1 >= self.settings.threshold ==> ({
                &&& r matches Ok(o)
                &&& o matches Some(p)
                &&& p.0 == Qc::Standard(StandardQc { view: msg.vote.view, id: msg.vote.block })
                &&& p.1@ == old(state).outcome@.push(msg.vote)
                &&& final(state).seen@ == Seq::<NodeId>::empty()
                &&& final(state).outcome@ == Seq::<Vote>::empty()
            }),
            msg.vote.view == view && !old(state).seen@.contains(msg.voter)
                && self.settings.participating_nodes@.contains(msg.voter) && old(
                state,
            ).outcome@.len() + 1 < self.settings.threshold ==> ({
                &&& r matches Ok(o)
                &&& (o is None)
                &&& final(state).seen@.to_set() == old(state).seen@.to_set().insert(msg.voter)
                &&& final(state).outcome@ == old(state).outcome@.push(msg.vote)
            }),
    {
        if msg.vote.view != view {
            return Err(CarnotTallyError::InvalidVote("Invalid view".to_string()));
        }
        if state.seen.contains(&msg.voter) {
            return Err(CarnotTallyError::InvalidVote("Double voted node".to_string()));
        }
        if !self.settings.participating_nodes.contains(&msg.voter) {
            return Err(CarnotTallyError::InvalidVote("Non-participating node".to_string()));
        }
        let th = self.settings.threshold;
        if th == 0 || state.outcome.len() >= th - 1 {
            let mut votes_out: Vec<Vote> = Vec::new();
            let mut j: usize = 0;
            while j < state.outcome.len()
                invariant
                    0 <= j <= state.outcome@.len(),
                    votes_out@ == state.outcome@.subrange(0, j as int),
                decreases state.outcome@.len() - j,
            {
                votes_out.push(state.outcome[j]);
                proof {
                    assert(state.outcome@.subrange(0, j + 1) =~= state.outcome@.subrange(
                        0,
                        j as int,
                    ).push(state.outcome@[j as int]));
                }
                j += 1;
            }
            proof {
                assert(state.outcome@.subrange(0, state.outcome@.len() as int) =~= state.outcome@);
            }
            votes_out.push(msg.vote);
            state.seen = Committee::new();
            state.outcome = Vec::new();
            return Ok(
                Some(
                    (
                        Qc::Standard(StandardQc { view: msg.vote.view, id: msg.vote.block }),
                        votes_out,
                    ),
                ),
            );
        }
        state.seen.insert(msg.voter);
        state.outcome.push(msg.vote);
        Ok(None)
    }

    /// Tally a whole sequence of votes: the first rejection stops the tally,
    /// reaching the threshold yields the certificate, and a sequence that
    /// runs out first yields `InsufficientVotes`.
    pub fn tally(&self, view: u64, votes: Vec<VoteMsg>) -> (r: Result<
        (Qc, Vec<Vote>),
        CarnotTallyError,
    >)
        ensures
            ({
                let spec_r = tally_run(
                    self.settings.participating_nodes@.to_set(),
                    self.settings.threshold as int,
                    view,
                    votes@,
                    Set::<NodeId>::empty(),
                    Seq::<Vote>::empty(),
                );
                match spec_r {
                    Ok(p) => {
                        &&& r matches Ok(q)
                        &&& q.0 == p.0
                        &&& q.1@ == p.1
                    },
                    Err(k) => {
                        &&& r matches Err(e)
                        &&& err_matches(e, k)
                    },
                }
            }),
    {
        let ghost pn = self.settings.participating_nodes@.to_set();
        let ghost th = self.settings.threshold as int;
        let mut state = TallyState::new();
        let mut i: usize = 0;
        proof {
            assert(votes@.skip(0) =~= votes@);
            assert(state.seen@.to_set() =~= Set::<NodeId>::empty());
        }
        while i < votes.len()
            invariant
                state.inv(),
                0 <= i <= votes@.len(),
                pn == self.settings.participating_nodes@.to_set(),
                th == self.settings.threshold as int,
                tally_run(pn, th, view, votes@, Set::<NodeId>::empty(), Seq::<Vote>::empty())
                    == tally_run(pn, th, view, votes@.skip(i as int), state.seen@.to_set(), state.outcome@),
            decreases votes@.len() - i,
        {
            let msg = votes[i];
            proof {
                assert(votes@.skip(i as int).first() == votes@[i as int]);
                assert(votes@.skip(i as int).drop_first() =~= votes@.skip(i + 1));
            }
            let res = self.tally_vote(view, &mut state, msg);
            match res {
                Ok(Some(p)) => {
                    return Ok(p);
                },
                Ok(None) => {},
                Err(e) => {
                    return Err(e);
                },
            }
            i += 1;
        }
        proof {
            assert(votes@.skip(votes@.len() as int) =~= Seq::<VoteMsg>::empty());
        }
        Err(CarnotTallyError::InsufficientVotes)
    }
}

} // verus!
