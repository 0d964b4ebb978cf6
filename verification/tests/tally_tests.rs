use carnot_engine::committee::Committee;
use carnot_engine::messages::VoteMsg;
use carnot_engine::qc::{Qc, StandardQc, Vote};
use carnot_engine::tally::{CarnotTally, CarnotTallyError, CarnotTallySettings, TallyState};
use carnot_engine::types::{BlockId, NodeId};

fn voter(i: u8) -> NodeId {
    NodeId::new([i; 32])
}

fn participants(n: u8) -> Committee {
    let mut c = Committee::new();
    for i in 0..n {
        c.insert(voter(i));
    }
    c
}

fn vote_msg(i: u8, view: u64, block: BlockId) -> VoteMsg {
    VoteMsg {
        voter: voter(i),
        vote: Vote { view, block },
        qc: None,
    }
}

#[test]
fn vote_tally_happy_path() {
    // committee size 4, threshold 3: three distinct valid votes yield one
    // certificate carrying exactly those votes, and clear the accumulator
    let tally = CarnotTally::new(CarnotTallySettings {
        threshold: 3,
        participating_nodes: participants(4),
    });
    let block = BlockId::new([0x42; 32]);
    let mut state = TallyState::new();

    assert!(matches!(
        tally.tally_vote(5, &mut state, vote_msg(0, 5, block)),
        Ok(None)
    ));
    assert!(matches!(
        tally.tally_vote(5, &mut state, vote_msg(1, 5, block)),
        Ok(None)
    ));
    let out = tally.tally_vote(5, &mut state, vote_msg(2, 5, block));
    match out {
        Ok(Some((qc, votes))) => {
            assert_eq!(qc, Qc::Standard(StandardQc { view: 5, id: block }));
            assert_eq!(votes.len(), 3);
            for v in &votes {
                assert_eq!(*v, Vote { view: 5, block });
            }
        }
        other => panic!("expected a certificate, got {other:?}"),
    }
    // accumulator cleared
    assert_eq!(state.seen.len(), 0);
    assert_eq!(state.outcome.len(), 0);
}

#[test]
fn double_vote_rejection() {
    let tally = CarnotTally::new(CarnotTallySettings {
        threshold: 3,
        participating_nodes: participants(4),
    });
    let block = BlockId::new([0x42; 32]);
    let mut state = TallyState::new();

    assert!(matches!(
        tally.tally_vote(5, &mut state, vote_msg(0, 5, block)),
        Ok(None)
    ));
    let err = tally.tally_vote(5, &mut state, vote_msg(0, 5, block));
    match err {
        Err(CarnotTallyError::InvalidVote(msg)) => assert_eq!(msg, "Double voted node"),
        other => panic!("expected a double-vote rejection, got {other:?}"),
    }
    // accumulator size remains 1
    assert_eq!(state.seen.len(), 1);
    assert_eq!(state.outcome.len(), 1);
}

#[test]
fn wrong_view_and_non_participant_rejections() {
    let tally = CarnotTally::new(CarnotTallySettings {
        threshold: 3,
        participating_nodes: participants(4),
    });
    let block = BlockId::new([0x42; 32]);
    let mut state = TallyState::new();

    match tally.tally_vote(5, &mut state, vote_msg(0, 6, block)) {
        Err(CarnotTallyError::InvalidVote(msg)) => assert_eq!(msg, "Invalid view"),
        other => panic!("expected a view rejection, got {other:?}"),
    }
    match tally.tally_vote(5, &mut state, vote_msg(9, 5, block)) {
        Err(CarnotTallyError::InvalidVote(msg)) => assert_eq!(msg, "Non-participating node"),
        other => panic!("expected a participant rejection, got {other:?}"),
    }
}

#[test]
fn whole_stream_tally() {
    let tally = CarnotTally::new(CarnotTallySettings {
        threshold: 2,
        participating_nodes: participants(4),
    });
    let block = BlockId::new([1; 32]);
    let msgs = vec![vote_msg(0, 3, block), vote_msg(1, 3, block)];
    let (qc, votes) = tally.tally(3, msgs).expect("threshold should be reached");
    assert_eq!(qc, Qc::Standard(StandardQc { view: 3, id: block }));
    assert_eq!(votes.len(), 2);

    // a stream that ends early yields InsufficientVotes
    let msgs = vec![vote_msg(0, 3, block)];
    assert!(matches!(
        tally.tally(3, msgs),
        Err(CarnotTallyError::InsufficientVotes)
    ));
}
