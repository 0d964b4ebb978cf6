use carnot_engine::committee::Committee;
use carnot_engine::overlay::{DefaultShuffler, RoundRobin, TreeOverlay, TreeOverlaySettings};
use carnot_engine::types::NodeId;

fn make_nodes() -> Vec<NodeId> {
    (0..10).map(|i| NodeId::new([i as u8; 32])).collect()
}

fn make_overlay(nodes: &[NodeId]) -> TreeOverlay {
    TreeOverlay::new(TreeOverlaySettings {
        nodes: nodes.to_vec(),
        current_leader: nodes[0],
        entropy: [0; 32],
        number_of_committees: 3,
        leader: RoundRobin::new(),
        shuffer: DefaultShuffler,
    })
}

#[test]
fn test_carnot_overlay_leader() {
    let nodes = make_nodes();
    let overlay = make_overlay(&nodes);

    assert_eq!(*overlay.leader(), nodes[0]);
}

#[test]
fn test_next_leader_is_advance_current_leader() {
    let nodes = make_nodes();
    let mut overlay = make_overlay(&nodes);

    let leader = overlay.next_leader();
    overlay = overlay.advance([1; 32], RoundRobin::new());

    assert_eq!(leader, *overlay.leader());
}

#[test]
fn test_root_committee() {
    let nodes = make_nodes();
    let overlay = make_overlay(&nodes);
    let shuffled = overlay.nodes().clone();

    let mut expected_root = Committee::new();
    expected_root.insert(shuffled[9]);
    expected_root.extend_nodes(&shuffled[0..3].to_vec());

    assert_eq!(overlay.root_committee(), expected_root);
}

#[test]
fn test_leaf_committees() {
    let nodes = make_nodes();
    let overlay = make_overlay(&nodes);
    let shuffled = overlay.nodes().clone();

    let mut leaf_committees: Vec<Vec<[u8; 32]>> = overlay
        .leaf_committees(NodeId::new([0; 32]))
        .into_iter()
        .map(|s| {
            let mut vec: Vec<[u8; 32]> = s.members().iter().map(|n| n.bytes()).collect();
            vec.sort();
            vec
        })
        .collect();
    leaf_committees.sort();
    let mut c1: Vec<[u8; 32]> = shuffled[3..6].iter().map(|n| n.bytes()).collect();
    c1.sort();
    let mut c2: Vec<[u8; 32]> = shuffled[6..9].iter().map(|n| n.bytes()).collect();
    c2.sort();
    let mut expected = vec![c1, c2];
    expected.sort();
    assert_eq!(leaf_committees, expected);
}

#[test]
fn test_super_majority_threshold_for_leaf() {
    let nodes = make_nodes();
    let overlay = make_overlay(&nodes);
    let shuffled = overlay.nodes().clone();

    assert_eq!(overlay.super_majority_threshold(shuffled[8]), 0);
}

#[test]
fn test_super_majority_threshold_for_root_member() {
    let nodes = make_nodes();
    let overlay = make_overlay(&nodes);
    let shuffled = overlay.nodes().clone();

    assert_eq!(overlay.super_majority_threshold(shuffled[0]), 3);
}

#[test]
fn test_leader_super_majority_threshold() {
    let nodes = make_nodes();
    let overlay = make_overlay(&nodes);

    assert_eq!(
        overlay.leader_super_majority_threshold(NodeId::new([0; 32])),
        7
    );
}

#[test]
fn test_single_committee_is_root_and_leaf() {
    let nodes = make_nodes();
    let overlay = TreeOverlay::new(TreeOverlaySettings {
        nodes: nodes.clone(),
        current_leader: nodes[0],
        entropy: [0; 32],
        number_of_committees: 1,
        leader: RoundRobin::new(),
        shuffer: DefaultShuffler,
    });
    let shuffled = overlay.nodes().clone();

    // one committee holds everyone, is the root, and is a leaf
    assert_eq!(overlay.root_committee().len(), 10);
    assert!(overlay.is_member_of_root_committee(shuffled[0]));
    assert!(overlay.is_member_of_leaf_committee(shuffled[0]));
    // leaves aggregate over no children
    assert_eq!(overlay.super_majority_threshold(shuffled[0]), 0);
    // two thirds of all ten nodes, plus one
    assert_eq!(overlay.leader_super_majority_threshold(shuffled[0]), 7);
}

#[test]
fn test_overlay_deterministic_rebuild() {
    let nodes = make_nodes();
    let o1 = make_overlay(&nodes);
    let o2 = make_overlay(&nodes);

    assert_eq!(o1.nodes(), o2.nodes());
    assert_eq!(o1.root_committee(), o2.root_committee());
    assert_eq!(*o1.leader(), *o2.leader());
    let leaves1 = o1.leaf_committees(nodes[0]);
    let leaves2 = o2.leaf_committees(nodes[0]);
    assert_eq!(leaves1.len(), leaves2.len());
    for (a, b) in leaves1.iter().zip(leaves2.iter()) {
        assert_eq!(a, b);
    }
}

#[test]
fn test_shuffle_permutes_nodes() {
    let nodes = make_nodes();
    let overlay = make_overlay(&nodes);
    let shuffled = overlay.nodes().clone();

    // same members as supplied
    let mut original: Vec<[u8; 32]> = nodes.iter().map(|n| n.bytes()).collect();
    let mut permuted: Vec<[u8; 32]> = shuffled.iter().map(|n| n.bytes()).collect();
    let plain = permuted.clone();
    original.sort();
    permuted.sort();
    assert_eq!(original, permuted);
    // and in a genuinely shuffled order
    let unshuffled: Vec<[u8; 32]> = nodes.iter().map(|n| n.bytes()).collect();
    assert_ne!(plain, unshuffled);
}

#[test]
fn test_parent_of_root_member_is_root() {
    let nodes = make_nodes();
    let overlay = make_overlay(&nodes);
    let shuffled = overlay.nodes().clone();

    assert_eq!(overlay.parent_committee(shuffled[0]), overlay.root_committee());
    assert!(overlay.is_child_of_root_committee(shuffled[3]));
    // an unknown node has an empty committee
    assert!(overlay.node_committee(NodeId::new([0xAB; 32])).is_empty());
}
