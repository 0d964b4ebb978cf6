//! Event dispatch: the decisions one step of a node takes for each typed
//! event, as verified functions from engine state and event to outbound
//! effects. A proposal is taken with `take_block` and voted on with
//! `cast_vote`; the other events each have their handler. Every handler
//! keeps the node's view, voted view and high certificate monotone, and a
//! vote goes out only through the vote-once guard.

use vstd::prelude::*;
use crate::qc::{StandardQc, Block, Vote, Timeout, TimeoutQc, NewView, Payload, Output};
use crate::engine::{Carnot, fold_max_qc, lemma_sb_at};
use crate::codec::{block_id_tag, derive_block_id};

verus! {

/// The largest of `own` and the high certificates of `ts`, by view; a tie
/// keeps the earlier one.
pub open spec fn max_timeout_qc(ts: Seq<Timeout>, own: StandardQc) -> StandardQc
    decreases ts.len(),
{
    if ts.len() == 0 {
        own
    } else {
        let m = max_timeout_qc(ts.drop_last(), own);
        if ts.last().high_qc.view > m.view {
            ts.last().high_qc
        } else {
            m
        }
    }
}

/// The maximum is one of the candidates and dominates all of them.
pub proof fn lemma_max_timeout_qc(ts: Seq<Timeout>, own: StandardQc)
    ensures
        own.view <= max_timeout_qc(ts, own).view,
        forall|i: int|
            0 <= i < ts.len() ==> (#[trigger] ts[i]).high_qc.view <= max_timeout_qc(ts, own).view,
        max_timeout_qc(ts, own) == own || exists|i: int|
            0 <= i < ts.len() && (#[trigger] ts[i]).high_qc == max_timeout_qc(ts, own),
    decreases ts.len(),
{
    if ts.len() > 0 {
        lemma_max_timeout_qc(ts.drop_last(), own);
        let r = max_timeout_qc(ts, own);
        assert forall|i: int| 0 <= i < ts.len() implies (#[trigger] ts[i]).high_qc.view
            <= r.view by {
            if i < ts.len() - 1 {
                assert(ts.drop_last()[i] == ts[i]);
            }
        }
        let m = max_timeout_qc(ts.drop_last(), own);
        if !(ts.last().high_qc.view > m.view) && m != own {
            let i = choose|i: int|
                0 <= i < ts.drop_last().len() && (#[trigger] ts.drop_last()[i]).high_qc == m;
            assert(ts[i].high_qc == m);
        }
    }
}

/// The highest standard certificate among the aggregated timeout signals and
/// the node's own; what a root member wraps into the timeout certificate.
pub fn max_high_qc(timeouts: &Vec<Timeout>, own: StandardQc) -> (r: StandardQc)
    ensures
        r == max_timeout_qc(timeouts@, own),
        own.view <= r.view,
        forall|i: int| 0 <= i < timeouts@.len() ==> (#[trigger] timeouts@[i]).high_qc.view <= r.view,
        r == own || exists|i: int|
            0 <= i < timeouts@.len() && (#[trigger] timeouts@[i]).high_qc == r,
{
    let mut best = own;
    let mut i: usize = 0;
    proof {
        assert(timeouts@.subrange(0, 0) =~= Seq::<Timeout>::empty());
    }
    while i < timeouts.len()
        invariant
            0 <= i <= timeouts@.len(),
            best == max_timeout_qc(timeouts@.subrange(0, i as int), own),
        decreases timeouts@.len() - i,
    {
        let t = timeouts[i];
        proof {
            let upto = timeouts@.subrange(0, i + 1);
            assert(upto.drop_last() =~= timeouts@.subrange(0, i as int));
            assert(upto.last() == timeouts@[i as int]);
        }
        if t.high_qc.view > best.view {
            best = t.high_qc;
        }
        i += 1;
    }
    proof {
        assert(timeouts@.subrange(0, timeouts@.len() as int) =~= timeouts@);
        lemma_max_timeout_qc(timeouts@, own);
    }
    best
}

/// Vote for a safe block above the voted-view guard; only what the
/// dispatch needs of `approve_block` is restated here.
#[verifier::spinoff_prover]
#[verifier::rlimit(100)]
pub fn cast_vote(engine: &mut Carnot, block: Block) -> (r: Output)
    requires
        old(engine).wf(),
        old(engine).has_block(block.id),
        old(engine).get_block(block.id) == block,
        block.view > old(engine).highest_voted_view,
    ensures
        final(engine).wf(),
        final(engine).id == old(engine).id,
        final(engine).overlay == old(engine).overlay,
        final(engine).current_view == old(engine).current_view,
        final(engine).blocks() == old(engine).blocks(),
        final(engine).local_high_qc == old(engine).local_high_qc,
        final(engine).last_view_timeout_qc == old(engine).last_view_timeout_qc,
        final(engine).highest_voted_view == block.view,
        ({
            &&& r matches Output::Send { to, payload }
            &&& to@ == old(engine).overlay.parent_committee_view(old(engine).id)
            &&& payload == Payload::Vote(Vote { view: block.view, block: block.id })
        }),
{
    engine.approve_block(block)
}

/// Store a proposal by the acceptance rule; only what the dispatch needs of
/// `receive_block` is restated here.
#[verifier::spinoff_prover]
#[verifier::rlimit(100)]
pub fn take_block(engine: &mut Carnot, block: Block) -> (r: Result<(), ()>)
    requires
        old(engine).wf(),
    ensures
        final(engine).wf(),
        final(engine).id == old(engine).id,
        final(engine).overlay == old(engine).overlay,
        final(engine).current_view >= old(engine).current_view,
        final(engine).highest_voted_view == old(engine).highest_voted_view,
        final(engine).local_high_qc.view >= old(engine).local_high_qc.view,
        (r is Ok) <==> old(engine).accepts(block),
        (r is Err) ==> *final(engine) == *old(engine),
        (r is Ok) ==> final(engine).current_view == block.view,
        (r is Ok) ==> final(engine).has_block(block.id) && final(engine).get_block(block.id)
            == block,
{
    let r = engine.receive_block(block);
    proof {
        if r is Ok {
            if old(engine).has_block(block.id) {
            } else {
                lemma_sb_at(engine.blocks(), engine.blocks().len() - 1);
            }
        }
    }
    r
}

/// Enough new-view votes arrived for a timeout certificate: enter the view
/// after it; the leader of the view after that sends the aggregated
/// new-view vote on.
#[verifier::spinoff_prover]
#[verifier::rlimit(100)]
pub fn on_new_view_event(engine: &mut Carnot, timeout_qc: TimeoutQc, new_views: Vec<NewView>) -> (
    out: Vec<Output>)
    requires
        old(engine).wf(),
    ensures
        final(engine).wf(),
        final(engine).id == old(engine).id,
        final(engine).overlay == old(engine).overlay,
        final(engine).current_view >= old(engine).current_view,
        final(engine).highest_voted_view >= old(engine).highest_voted_view,
        final(engine).local_high_qc.view >= old(engine).local_high_qc.view,
        ({
            let enabled = timeout_qc.view < u64::MAX - 1 && old(engine).highest_voted_view
                < timeout_qc.view + 1 && old(engine).current_view <= timeout_qc.view + 1;
            let leads = old(engine).id == old(engine).overlay.nodes@[(timeout_qc.view + 2) as int
                % old(engine).overlay.nodes@.len() as int];
            &&& (!enabled ==> *final(engine) == *old(engine) && out@.len() == 0)
            &&& (enabled ==> {
                &&& final(engine).current_view == timeout_qc.view + 1
                &&& final(engine).highest_voted_view == timeout_qc.view + 1
                &&& (leads ==> {
                    &&& out@.len() == 1
                    &&& out@[0] matches Output::Send { to, payload }
                    &&& to@ == old(engine).overlay.node_committee_view(old(engine).id)
                    &&& payload == Payload::NewView(
                        NewView {
                            view: (timeout_qc.view + 1) as u64,
                            sender: old(engine).id,
                            timeout_qc,
                            high_qc: fold_max_qc(new_views@, timeout_qc.high_qc),
                        },
                    )
                })
                &&& (!leads ==> out@.len() == 0)
            })
        }),
{
    let mut out: Vec<Output> = Vec::new();
    if timeout_qc.view < u64::MAX - 1 && engine.highest_voted_view < timeout_qc.view + 1
        && engine.current_view <= timeout_qc.view + 1 {
        let o = engine.approve_new_view(timeout_qc, new_views);
        if engine.is_leader_for_view(timeout_qc.view + 2) {
            out.push(o);
        }
    }
    out
}

/// The node observed a certificate and may be the next-view leader: if so,
/// broadcast the proposal built over it.
#[verifier::spinoff_prover]
#[verifier::rlimit(100)]
pub fn on_propose_block(engine: &mut Carnot, qc: crate::qc::Qc) -> (out: Vec<Output>)
    requires
        old(engine).wf(),
    ensures
        final(engine).wf(),
        *final(engine) == *old(engine),
        ({
            let lv = qc.view_spec() + 1;
            let leads = qc.view_spec() < u64::MAX && old(engine).id
                == old(engine).overlay.nodes@[lv % old(engine).overlay.nodes@.len() as int];
            &&& (leads ==> {
                &&& out@.len() == 1
                &&& out@[0] matches Output::BroadcastProposal { proposal }
                &&& proposal.view == lv
                &&& proposal.parent_qc == qc
                &&& proposal.id@ == block_id_tag(lv as u64, qc)
            })
            &&& (!leads ==> out@.len() == 0)
        }),
{
    let mut out: Vec<Output> = Vec::new();
    let qv = qc.view();
    if qv < u64::MAX {
        if engine.is_leader_for_view(qv + 1) {
            let id = derive_block_id(qv + 1, &qc);
            let proposal = Block { id, view: qv + 1, parent_qc: qc };
            out.push(Output::BroadcastProposal { proposal });
        }
    }
    out
}

/// A timeout certificate arrived: move past the timed-out view as
/// `receive_timeout_qc` says, and hand the node's own new-view vote,
/// carrying its high certificate, to its committee.
#[verifier::spinoff_prover]
#[verifier::rlimit(100)]
pub fn on_timeout_qc_event(engine: &mut Carnot, timeout_qc: TimeoutQc) -> (out: Vec<Output>)
    requires
        old(engine).wf(),
    ensures
        final(engine).wf(),
        final(engine).id == old(engine).id,
        final(engine).overlay == old(engine).overlay,
        final(engine).current_view >= old(engine).current_view,
        final(engine).highest_voted_view == old(engine).highest_voted_view,
        final(engine).local_high_qc == old(engine).local_high_qc,
        timeout_qc.view == u64::MAX ==> *final(engine) == *old(engine) && out@.len() == 0,
        timeout_qc.view < u64::MAX ==> ({
            &&& (timeout_qc.view >= old(engine).current_view ==> final(engine).current_view
                == timeout_qc.view + 1 && final(engine).last_view_timeout_qc == Some(timeout_qc))
            &&& (timeout_qc.view < old(engine).current_view ==> *final(engine) == *old(engine))
            &&& out@.len() == 1
            &&& out@[0] matches Output::Send { to, payload }
            &&& to@ == old(engine).overlay.node_committee_view(old(engine).id)
            &&& payload == Payload::NewView(
                NewView {
                    view: (timeout_qc.view + 1) as u64,
                    sender: old(engine).id,
                    timeout_qc,
                    high_qc: old(engine).local_high_qc,
                },
            )
        }),
{
    let mut out: Vec<Output> = Vec::new();
    if timeout_qc.view < u64::MAX {
        let high_qc = engine.high_qc();
        engine.receive_timeout_qc(timeout_qc);
        let me = engine.id();
        let to = engine.self_committee();
        out.push(
            Output::Send {
                to,
                payload: Payload::NewView(
                    NewView { view: timeout_qc.view + 1, sender: me, timeout_qc, high_qc },
                ),
            },
        );
    }
    out
}

/// The root committee aggregated enough timeout signals: a root member
/// broadcasts the timeout certificate carrying the highest certificate among
/// the signals and its own.
#[verifier::spinoff_prover]
#[verifier::rlimit(100)]
pub fn on_root_timeout(engine: &mut Carnot, timeouts: Vec<Timeout>) -> (out: Vec<Output>)
    requires
        old(engine).wf(),
    ensures
        final(engine).wf(),
        *final(engine) == *old(engine),
        old(engine).overlay.in_committee(0, old(engine).id) ==> ({
            &&& out@.len() == 1
            &&& out@[0] matches Output::BroadcastTimeoutQc { timeout_qc }
            &&& timeout_qc == (TimeoutQc {
                view: old(engine).current_view,
                high_qc: max_timeout_qc(timeouts@, old(engine).local_high_qc),
                sender: old(engine).id,
            })
        }),
        !old(engine).overlay.in_committee(0, old(engine).id) ==> out@.len() == 0,
{
    let mut out: Vec<Output> = Vec::new();
    if engine.is_member_of_root_committee() {
        let high_qc = max_high_qc(&timeouts, engine.high_qc());
        out.push(
            Output::BroadcastTimeoutQc {
                timeout_qc: TimeoutQc { view: engine.current_view(), high_qc, sender: engine.id() },
            },
        );
    }
    out
}

/// The view timer fired: give up voting in this view; a root member hands a
/// timeout signal to the root committee.
#[verifier::spinoff_prover]
#[verifier::rlimit(100)]
pub fn on_local_timeout(engine: &mut Carnot) -> (out: Vec<Output>)
    requires
        old(engine).wf(),
    ensures
        final(engine).wf(),
        final(engine).id == old(engine).id,
        final(engine).overlay == old(engine).overlay,
        final(engine).current_view == old(engine).current_view,
        final(engine).local_high_qc == old(engine).local_high_qc,
        final(engine).highest_voted_view == (if old(engine).current_view > old(
            engine,
        ).highest_voted_view {
            old(engine).current_view
        } else {
            old(engine).highest_voted_view
        }),
        old(engine).overlay.in_committee(0, old(engine).id) ==> ({
            &&& out@.len() == 1
            &&& out@[0] matches Output::Send { to, payload }
            &&& to@ == old(engine).overlay.committee_seq(0)
            &&& payload == Payload::Timeout(
                Timeout {
                    view: old(engine).current_view,
                    sender: old(engine).id,
                    high_qc: old(engine).local_high_qc,
                },
            )
        }),
        !old(engine).overlay.in_committee(0, old(engine).id) ==> out@.len() == 0,
{
    let mut out: Vec<Output> = Vec::new();
    match engine.local_timeout() {
        Some(o) => out.push(o),
        None => {},
    }
    out
}

} // verus!
