use carnot_engine::engine::Carnot;
use carnot_engine::overlay::{DefaultShuffler, RoundRobin, TreeOverlay, TreeOverlaySettings};
use carnot_engine::qc::{Block, Output, Payload, Qc, StandardQc, TimeoutQc};
use carnot_engine::sim::StalledViewWard;
use carnot_engine::timeout::TimeoutHandler;
use carnot_engine::types::{BlockId, NodeId};

fn make_nodes() -> Vec<NodeId> {
    (0..10).map(|i| NodeId::new([i as u8; 32])).collect()
}

fn make_overlay(nodes: &[NodeId]) -> TreeOverlay {
    TreeOverlay::new(TreeOverlaySettings {
        nodes: nodes.to_vec(),
        current_leader: nodes[0],
        entropy: [0; 32],
        number_of_committees: 3,
        leader: RoundRobin::new(),
        shuffer: DefaultShuffler,
    })
}

fn block(id: u8, view: u64, parent: &Block) -> Block {
    Block {
        id: BlockId::new([id; 32]),
        view,
        parent_qc: Qc::Standard(StandardQc {
            view: parent.view,
            id: parent.id,
        }),
    }
}

#[test]
fn happy_path_three_chain_commit() {
    let nodes = make_nodes();
    let overlay = make_overlay(&nodes);
    let genesis = Block::genesis();
    let me = *overlay.leader();
    let mut engine = Carnot::from_genesis(me, genesis, overlay);

    let b1 = block(1, 1, &genesis);
    let b2 = block(2, 2, &b1);
    let b3 = block(3, 3, &b2);

    assert!(engine.receive_block(b1).is_ok());
    assert_eq!(engine.current_view(), 1);
    assert!(engine.receive_block(b2).is_ok());
    assert_eq!(engine.current_view(), 2);
    assert!(engine.receive_block(b3).is_ok());
    assert_eq!(engine.current_view(), 3);
    assert_eq!(engine.high_qc().view, 2);

    // voting for b3 commits its grandparent b1 by the three-chain rule
    let out = engine.approve_block(b3);
    assert_eq!(engine.highest_voted_view(), 3);
    assert_eq!(engine.latest_committed_view(), 1);
    assert_eq!(engine.latest_committed_block().id, b1.id);
    match out {
        Output::Send { payload: Payload::Vote(v), .. } => {
            assert_eq!(v.view, 3);
            assert_eq!(v.block, b3.id);
        }
        other => panic!("expected a vote, got {other:?}"),
    }

    // the committed chain runs back to genesis in view order
    let committed = engine.committed_blocks();
    assert_eq!(committed.len(), 2);
    assert_eq!(committed[0], b1.id);
    assert_eq!(committed[1], Block::genesis().id);
}

#[test]
fn equivocating_block_is_rejected() {
    let nodes = make_nodes();
    let overlay = make_overlay(&nodes);
    let genesis = Block::genesis();
    let mut engine = Carnot::from_genesis(nodes[0], genesis, overlay);

    let b1 = block(1, 1, &genesis);
    let b1_conflict = block(9, 1, &genesis);
    assert!(engine.receive_block(b1).is_ok());
    assert!(engine.receive_block(b1_conflict).is_err());
    // re-delivery of the same block is accepted and changes nothing
    assert!(engine.receive_block(b1).is_ok());
    assert_eq!(engine.blocks_in_view(1).len(), 1);
}

#[test]
fn timeout_recovery_advances_every_node() {
    // at view v, inject a local timeout into every root member, aggregate
    // their timeout signals, and drive everyone to view v + 1
    let nodes = make_nodes();
    let genesis = Block::genesis();
    let mut engines: Vec<Carnot> = nodes
        .iter()
        .map(|id| Carnot::from_genesis(*id, genesis, make_overlay(&nodes)))
        .collect();
    let v = 0;

    let mut timeouts = Vec::new();
    for engine in engines.iter_mut() {
        if engine.is_member_of_root_committee() {
            match engine.local_timeout() {
                Some(Output::Send { payload: Payload::Timeout(t), .. }) => timeouts.push(t),
                other => panic!("a root member must emit a timeout, got {other:?}"),
            }
        } else {
            assert!(engine.local_timeout().is_none());
        }
    }
    assert_eq!(timeouts.len(), 4);
    for t in &timeouts {
        assert_eq!(t.view, v);
    }

    // the timeout certificate carries the highest qc among the participants
    let high_qc = timeouts
        .iter()
        .map(|t| t.high_qc)
        .max_by_key(|qc| qc.view)
        .unwrap();
    let timeout_qc = TimeoutQc {
        view: v,
        high_qc,
        sender: timeouts[0].sender,
    };

    for engine in engines.iter_mut() {
        engine.receive_timeout_qc(timeout_qc);
        assert_eq!(engine.current_view(), v + 1);
        assert_eq!(engine.last_view_timeout_qc(), Some(timeout_qc));
    }
}

#[test]
fn approve_new_view_carries_highest_qc() {
    let nodes = make_nodes();
    let overlay = make_overlay(&nodes);
    let genesis = Block::genesis();
    let mut engine = Carnot::from_genesis(nodes[0], genesis, overlay);

    let tq = TimeoutQc {
        view: 0,
        high_qc: StandardQc {
            view: 0,
            id: genesis.id,
        },
        sender: nodes[0],
    };
    engine.receive_timeout_qc(tq);
    assert_eq!(engine.current_view(), 1);

    let out = engine.approve_new_view(tq, Vec::new());
    assert_eq!(engine.current_view(), 1);
    assert_eq!(engine.highest_voted_view(), 1);
    match out {
        Output::Send { payload: Payload::NewView(nv), .. } => {
            assert_eq!(nv.view, 1);
            assert_eq!(nv.high_qc, tq.high_qc);
            assert_eq!(nv.timeout_qc, tq);
        }
        other => panic!("expected a new-view vote, got {other:?}"),
    }
}

#[test]
fn timeout_handler_counts_down_per_view() {
    let mut handler = TimeoutHandler::new(100);
    assert!(!handler.step(1, 40));
    assert!(!handler.is_timeout(1));
    assert!(!handler.step(1, 40));
    assert!(handler.step(1, 40));
    assert!(handler.is_timeout(1));
    // other views are untouched
    assert!(!handler.is_timeout(2));
    handler.prune_by_view(1);
    assert!(!handler.is_timeout(1));
}

#[test]
fn rebase_threshold() {
    let mut stalled = StalledViewWard::new(2);

    let views_one = vec![10u64];
    // increase the criterion, 1
    assert!(!stalled.analyze_views(&views_one));
    // increase the criterion, 2
    assert!(!stalled.analyze_views(&views_one));
    // increase the criterion, 3 > threshold 2, so true
    assert!(stalled.analyze_views(&views_one));

    // push a new one, so the criterion is reset to 0
    let views_two = vec![10u64, 20u64];
    assert!(!stalled.analyze_views(&views_two));

    // increase the criterion, 2
    assert!(!stalled.analyze_views(&views_two));
    // increase the criterion, 3 > threshold 2, so true
    assert!(stalled.analyze_views(&views_two));
}
