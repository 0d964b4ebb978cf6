use carnot_engine::codec::{
    deserialize_block, deserialize_qc, deserialize_timeout_qc, deserialize_vote, serialize_block,
    serialize_qc, serialize_timeout_qc, serialize_vote,
};
use carnot_engine::qc::{AggregateQc, Block, Qc, StandardQc, TimeoutQc, Vote};
use carnot_engine::types::{BlockId, NodeId};

#[test]
fn qc_round_trip() {
    let std_qc = Qc::Standard(StandardQc {
        view: 7,
        id: BlockId::new([3; 32]),
    });
    let bytes = serialize_qc(&std_qc);
    assert_eq!(bytes.len(), 41);
    assert_eq!(deserialize_qc(&bytes), Some(std_qc));

    let agg_qc = Qc::Aggregate(AggregateQc {
        view: 9,
        high_qc: StandardQc {
            view: 8,
            id: BlockId::new([4; 32]),
        },
    });
    let bytes = serialize_qc(&agg_qc);
    assert_eq!(bytes.len(), 49);
    assert_eq!(deserialize_qc(&bytes), Some(agg_qc));
}

#[test]
fn block_round_trip() {
    let block = Block {
        id: BlockId::new([1; 32]),
        view: 3,
        parent_qc: Qc::Standard(StandardQc {
            view: 2,
            id: BlockId::new([2; 32]),
        }),
    };
    let bytes = serialize_block(&block);
    assert_eq!(deserialize_block(&bytes), Some(block));
}

#[test]
fn vote_round_trip() {
    let vote = Vote {
        view: 11,
        block: BlockId::new([0xEE; 32]),
    };
    let bytes = serialize_vote(&vote);
    assert_eq!(deserialize_vote(&bytes), Some(vote));
}

#[test]
fn timeout_qc_round_trip() {
    let tq = TimeoutQc {
        view: 5,
        high_qc: StandardQc {
            view: 4,
            id: BlockId::new([9; 32]),
        },
        sender: NodeId::new([7; 32]),
    };
    let bytes = serialize_timeout_qc(&tq);
    assert_eq!(deserialize_timeout_qc(&bytes), Some(tq));
}

#[test]
fn wire_format_is_big_endian_with_tag() {
    let qc = Qc::Standard(StandardQc {
        view: 0x0102030405060708,
        id: BlockId::new([0xAA; 32]),
    });
    let bytes = serialize_qc(&qc);
    // tag byte, then the view big-endian, then the 32 id bytes
    assert_eq!(bytes[0], 0);
    assert_eq!(&bytes[1..9], &[1, 2, 3, 4, 5, 6, 7, 8]);
    assert_eq!(&bytes[9..41], &[0xAA; 32]);
}

#[test]
fn truncated_input_is_rejected() {
    let vote = Vote {
        view: 1,
        block: BlockId::new([5; 32]),
    };
    let mut bytes = serialize_vote(&vote);
    bytes.pop();
    assert_eq!(deserialize_vote(&bytes), None);
    let qc = Qc::Standard(StandardQc {
        view: 1,
        id: BlockId::new([5; 32]),
    });
    let mut bytes = serialize_qc(&qc);
    bytes[0] = 9;
    assert_eq!(deserialize_qc(&bytes), None);
}
