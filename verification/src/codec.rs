//! Canonical wire format for certificates, blocks and votes: fixed-width
//! big-endian integers, 32-byte identifiers, and a one-byte variant tag for
//! certificates. Deserializing the serialization of a value yields that
//! value; both directions are stated on every reader.

use vstd::prelude::*;
use crate::types::{NodeId, BlockId, lemma_node_id_ext, lemma_block_id_ext};
use crate::qc::{StandardQc, AggregateQc, Qc, Block, Vote, TimeoutQc};

verus! {

broadcast use crate::types::lemma_node_id_len, crate::types::lemma_block_id_len;

/// The value written big-endian in an 8-byte sequence.
pub open spec fn be_val(s: Seq<u8>) -> u64 {
    vstd::bytes::spec_u64_from_le_bytes(s.reverse())
}

/// The 8 bytes of `x`, big-endian.
pub open spec fn u64_be(x: u64) -> Seq<u8> {
    vstd::bytes::spec_u64_to_le_bytes(x).reverse()
}

pub proof fn lemma_be_round(x: u64)
    ensures
        u64_be(x).len() == 8,
        be_val(u64_be(x)) == x,
{
    vstd::bytes::lemma_auto_spec_u64_to_from_le_bytes();
    let le = vstd::bytes::spec_u64_to_le_bytes(x);
    assert(le.reverse().reverse() =~= le);
}

pub proof fn lemma_be_complete(s: Seq<u8>)
    requires
        s.len() == 8,
    ensures
        u64_be(be_val(s)) == s,
{
    vstd::bytes::lemma_auto_spec_u64_to_from_le_bytes();
    assert(s.reverse().len() == 8);
    assert(vstd::bytes::spec_u64_to_le_bytes(vstd::bytes::spec_u64_from_le_bytes(s.reverse()))
        == s.reverse());
    assert(s.reverse().reverse() =~= s);
}

pub open spec fn ser_standard_qc(q: StandardQc) -> Seq<u8> {
    u64_be(q.view) + q.id@
}

pub open spec fn ser_aggregate_qc(a: AggregateQc) -> Seq<u8> {
    u64_be(a.view) + ser_standard_qc(a.high_qc)
}

pub open spec fn ser_qc(c: Qc) -> Seq<u8> {
    match c {
        Qc::Standard(q) => seq![0u8] + ser_standard_qc(q),
        Qc::Aggregate(a) => seq![1u8] + ser_aggregate_qc(a),
    }
}

/// Length of a serialized certificate: tag plus variant body.
pub open spec fn ser_qc_len(c: Qc) -> int {
    match c {
        Qc::Standard(_) => 41,
        Qc::Aggregate(_) => 49,
    }
}

pub open spec fn ser_vote(v: Vote) -> Seq<u8> {
    u64_be(v.view) + v.block@
}

pub open spec fn ser_timeout_qc(t: TimeoutQc) -> Seq<u8> {
    u64_be(t.view) + ser_standard_qc(t.high_qc) + t.sender@
}

pub open spec fn ser_block(b: Block) -> Seq<u8> {
    b.id@ + u64_be(b.view) + ser_qc(b.parent_qc)
}

pub proof fn lemma_ser_standard_qc_len(q: StandardQc)
    ensures
        ser_standard_qc(q).len() == 40,
{
    lemma_be_round(q.view);
}

pub proof fn lemma_ser_aggregate_qc_len(a: AggregateQc)
    ensures
        ser_aggregate_qc(a).len() == 48,
{
    lemma_be_round(a.view);
    lemma_ser_standard_qc_len(a.high_qc);
}

pub proof fn lemma_ser_qc_len(c: Qc)
    ensures
        ser_qc(c).len() == ser_qc_len(c),
{
    match c {
        Qc::Standard(q) => lemma_ser_standard_qc_len(q),
        Qc::Aggregate(a) => lemma_ser_aggregate_qc_len(a),
    }
}

pub proof fn lemma_ser_vote_len(v: Vote)
    ensures
        ser_vote(v).len() == 40,
{
    lemma_be_round(v.view);
}

pub proof fn lemma_ser_timeout_qc_len(t: TimeoutQc)
    ensures
        ser_timeout_qc(t).len() == 80,
{
    lemma_be_round(t.view);
    lemma_ser_standard_qc_len(t.high_qc);
}

pub proof fn lemma_ser_block_len(b: Block)
    ensures
        ser_block(b).len() == 40 + ser_qc_len(b.parent_qc),
{
    lemma_be_round(b.view);
    lemma_ser_qc_len(b.parent_qc);
}

/// Append the 8 big-endian bytes of `x`.
fn push_u64_be(out: &mut Vec<u8>, x: u64)
    ensures
        final(out)@ == old(out)@ + u64_be(x),
{
    let le = vstd::bytes::u64_to_le_bytes(x);
    proof {
        vstd::bytes::lemma_auto_spec_u64_to_from_le_bytes();
    }
    let mut j: usize = 0;
    while j < 8
        invariant
            0 <= j <= 8,
            le@ == vstd::bytes::spec_u64_to_le_bytes(x),
            le@.len() == 8,
            out@.len() == old(out)@.len() + j,
            forall|m: int| 0 <= m < old(out)@.len() ==> #[trigger] out@[m] == old(out)@[m],
            forall|m: int|
                old(out)@.len() <= m < out@.len() ==> #[trigger] out@[m] == le@[7 - (m - old(
                    out,
                )@.len())],
        decreases 8 - j,
    {
        out.push(le[7 - j]);
        j += 1;
    }
    proof {
        assert(out@ =~= old(out)@ + u64_be(x));
    }
}

/// Append a 32-byte identifier.
fn push_bytes32(out: &mut Vec<u8>, b: [u8; 32])
    ensures
        final(out)@ == old(out)@ + b@,
{
    let mut j: usize = 0;
    while j < 32
        invariant
            0 <= j <= 32,
            b@.len() == 32,
            out@.len() == old(out)@.len() + j,
            forall|m: int| 0 <= m < old(out)@.len() ==> #[trigger] out@[m] == old(out)@[m],
            forall|m: int|
                old(out)@.len() <= m < out@.len() ==> #[trigger] out@[m] == b@[m - old(
                    out,
                )@.len()],
        decreases 32 - j,
    {
        out.push(b[j]);
        j += 1;
    }
    proof {
        assert(out@ =~= old(out)@ + b@);
    }
}

/// The big-endian value at `pos`.
fn read_u64_be(bytes: &Vec<u8>, pos: usize) -> (r: u64)
    requires
        pos + 8 <= bytes@.len(),
    ensures
        r == be_val(bytes@.subrange(pos as int, pos as int + 8)),
{
    let n = bytes.len();
    let mut le: Vec<u8> = Vec::new();
    let mut m: usize = 0;
    while m < 8
        invariant
            0 <= m <= 8,
            pos + 8 <= bytes@.len(),
            n == bytes@.len(),
            le@.len() == m,
            forall|k: int| 0 <= k < m ==> #[trigger] le@[k] == bytes@[pos + 7 - k],
        decreases 8 - m,
    {
        le.push(bytes[pos + 7 - m]);
        m += 1;
    }
    proof {
        assert(le@ =~= bytes@.subrange(pos as int, pos as int + 8).reverse());
    }
    vstd::bytes::u64_from_le_bytes(le.as_slice())
}

/// The 32 bytes at `pos`.
fn read_bytes32(bytes: &Vec<u8>, pos: usize) -> (r: [u8; 32])
    requires
        pos + 32 <= bytes@.len(),
    ensures
        r@ == bytes@.subrange(pos as int, pos as int + 32),
{
    let n = bytes.len();
    let mut r = [0u8; 32];
    let mut m: usize = 0;
    proof {
        broadcast use vstd::array::group_array_axioms;

    }
    while m < 32
        invariant
            0 <= m <= 32,
            pos + 32 <= bytes@.len(),
            n == bytes@.len(),
            r@.len() == 32,
            forall|k: int| 0 <= k < m ==> #[trigger] r@[k] == bytes@[pos + k],
        decreases 32 - m,
    {
        proof {
            broadcast use vstd::array::group_array_axioms;

        }
        r[m] = bytes[pos + m];
        m += 1;
    }
    proof {
        assert(r@ =~= bytes@.subrange(pos as int, pos as int + 32));
    }
    r
}

pub fn serialize_standard_qc(q: &StandardQc) -> (r: Vec<u8>)
    ensures
        r@ == ser_standard_qc(*q),
{
    let mut out: Vec<u8> = Vec::new();
    push_u64_be(&mut out, q.view);
    push_bytes32(&mut out, q.id.bytes());
    proof {
        lemma_be_round(q.view);
        assert(out@ =~= ser_standard_qc(*q));
    }
    out
}

pub fn serialize_aggregate_qc(a: &AggregateQc) -> (r: Vec<u8>)
    ensures
        r@ == ser_aggregate_qc(*a),
{
    let mut out: Vec<u8> = Vec::new();
    push_u64_be(&mut out, a.view);
    push_u64_be(&mut out, a.high_qc.view);
    push_bytes32(&mut out, a.high_qc.id.bytes());
    proof {
        lemma_be_round(a.view);
        lemma_be_round(a.high_qc.view);
        assert(out@ =~= ser_aggregate_qc(*a));
    }
    out
}

pub fn serialize_qc(c: &Qc) -> (r: Vec<u8>)
    ensures
        r@ == ser_qc(*c),
{
    let mut out: Vec<u8> = Vec::new();
    match c {
        Qc::Standard(q) => {
            out.push(0u8);
            push_u64_be(&mut out, q.view);
            push_bytes32(&mut out, q.id.bytes());
        },
        Qc::Aggregate(a) => {
            out.push(1u8);
            push_u64_be(&mut out, a.view);
            push_u64_be(&mut out, a.high_qc.view);
            push_bytes32(&mut out, a.high_qc.id.bytes());
        },
    }
    proof {
        lemma_be_round(c.view_spec());
        lemma_be_round(c.high_qc_spec().view);
        assert(out@ =~= ser_qc(*c));
    }
    out
}

pub fn serialize_vote(v: &Vote) -> (r: Vec<u8>)
    ensures
        r@ == ser_vote(*v),
{
    let mut out: Vec<u8> = Vec::new();
    push_u64_be(&mut out, v.view);
    push_bytes32(&mut out, v.block.bytes());
    proof {
        lemma_be_round(v.view);
        assert(out@ =~= ser_vote(*v));
    }
    out
}

pub fn serialize_timeout_qc(t: &TimeoutQc) -> (r: Vec<u8>)
    ensures
        r@ == ser_timeout_qc(*t),
{
    let mut out: Vec<u8> = Vec::new();
    push_u64_be(&mut out, t.view);
    push_u64_be(&mut out, t.high_qc.view);
    push_bytes32(&mut out, t.high_qc.id.bytes());
    push_bytes32(&mut out, t.sender.bytes());
    proof {
        lemma_be_round(t.view);
        lemma_be_round(t.high_qc.view);
        assert(out@ =~= ser_timeout_qc(*t));
    }
    out
}

pub fn serialize_block(b: &Block) -> (r: Vec<u8>)
    ensures
        r@ == ser_block(*b),
{
    let mut out: Vec<u8> = Vec::new();
    push_bytes32(&mut out, b.id.bytes());
    push_u64_be(&mut out, b.view);
    let qc = serialize_qc(&b.parent_qc);
    let mut m: usize = 0;
    let ghost mid = out@;
    while m < qc.len()
        invariant
            0 <= m <= qc@.len(),
            out@ == mid + qc@.subrange(0, m as int),
        decreases qc@.len() - m,
    {
        out.push(qc[m]);
        proof {
            assert(qc@.subrange(0, m + 1) =~= qc@.subrange(0, m as int).push(qc@[m as int]));
            assert(mid + qc@.subrange(0, m + 1) =~= (mid + qc@.subrange(0, m as int)).push(
                qc@[m as int],
            ));
        }
        m += 1;
    }
    proof {
        lemma_be_round(b.view);
        assert(qc@.subrange(0, qc@.len() as int) =~= qc@);
        assert(out@ =~= ser_block(*b));
    }
    out
}

/// Read a standard certificate at `pos`: its 8-byte view, then its block id.
pub fn deserialize_standard_qc_at(bytes: &Vec<u8>, pos: usize) -> (r: Option<(StandardQc, usize)>)
    requires
        pos <= bytes@.len(),
    ensures
        (r is None) ==> pos + 40 > bytes@.len(),
        r matches Some(p) ==> p.1 == pos + 40 && pos + 40 <= bytes@.len() && bytes@.subrange(
            pos as int,
            pos + 40,
        ) == ser_standard_qc(p.0),
        forall|q: StandardQc|
            pos + 40 <= bytes@.len() && bytes@.subrange(pos as int, pos + 40)
                == ser_standard_qc(q) ==> r == Some((q, (pos + 40) as usize)),
{
    if bytes.len() < 40 || pos > bytes.len() - 40 {
        return None;
    }
    let view = read_u64_be(bytes, pos);
    let id = BlockId::new(read_bytes32(bytes, pos + 8));
    let q = StandardQc { view, id };
    proof {
        lemma_be_complete(bytes@.subrange(pos as int, pos as int + 8));
        assert(bytes@.subrange(pos as int, pos + 40) =~= bytes@.subrange(pos as int, pos as int + 8)
            + bytes@.subrange(pos + 8, pos + 40));
        assert(bytes@.subrange(pos as int, pos + 40) == ser_standard_qc(q));
        assert forall|q2: StandardQc|
            bytes@.subrange(pos as int, pos + 40) == ser_standard_qc(q2) implies q2 == q by {
            lemma_be_round(q2.view);
            assert(ser_standard_qc(q2).subrange(0, 8) =~= u64_be(q2.view));
            assert(ser_standard_qc(q2).subrange(8, 40) =~= q2.id@);
            assert(bytes@.subrange(pos as int, pos as int + 8) =~= ser_standard_qc(q2).subrange(
                0,
                8,
            ));
            assert(bytes@.subrange(pos + 8, pos + 40) =~= ser_standard_qc(q2).subrange(8, 40));
            assert(q2.view == view);
            lemma_block_id_ext(q2.id, id);
        }
    }
    Some((q, pos + 40))
}

/// Read an aggregate certificate at `pos`: its view, then its high qc.
pub fn deserialize_aggregate_qc_at(bytes: &Vec<u8>, pos: usize) -> (r: Option<(AggregateQc, usize)>)
    requires
        pos <= bytes@.len(),
    ensures
        (r is None) ==> pos + 48 > bytes@.len(),
        r matches Some(p) ==> p.1 == pos + 48 && pos + 48 <= bytes@.len() && bytes@.subrange(
            pos as int,
            pos + 48,
        ) == ser_aggregate_qc(p.0),
        forall|a: AggregateQc|
            pos + 48 <= bytes@.len() && bytes@.subrange(pos as int, pos + 48)
                == ser_aggregate_qc(a) ==> r == Some((a, (pos + 48) as usize)),
{
    if bytes.len() < 48 || pos > bytes.len() - 48 {
        return None;
    }
    let view = read_u64_be(bytes, pos);
    let high_view = read_u64_be(bytes, pos + 8);
    let id = BlockId::new(read_bytes32(bytes, pos + 16));
    let a = AggregateQc { view, high_qc: StandardQc { view: high_view, id } };
    proof {
        lemma_be_complete(bytes@.subrange(pos as int, pos as int + 8));
        lemma_be_complete(bytes@.subrange(pos + 8, pos + 16));
        assert(bytes@.subrange(pos as int, pos + 48) =~= bytes@.subrange(pos as int, pos as int + 8)
            + (bytes@.subrange(pos + 8, pos + 16) + bytes@.subrange(pos + 16, pos + 48)));
        assert(bytes@.subrange(pos as int, pos + 48) == ser_aggregate_qc(a));
        assert forall|a2: AggregateQc|
            bytes@.subrange(pos as int, pos + 48) == ser_aggregate_qc(a2) implies a2 == a by {
            lemma_be_round(a2.view);
            lemma_be_round(a2.high_qc.view);
            let s2 = ser_aggregate_qc(a2);
            assert(s2.subrange(0, 8) =~= u64_be(a2.view));
            assert(s2.subrange(8, 16) =~= u64_be(a2.high_qc.view));
            assert(s2.subrange(16, 48) =~= a2.high_qc.id@);
            assert(bytes@.subrange(pos as int, pos as int + 8) =~= s2.subrange(0, 8));
            assert(bytes@.subrange(pos + 8, pos + 16) =~= s2.subrange(8, 16));
            assert(bytes@.subrange(pos + 16, pos + 48) =~= s2.subrange(16, 48));
            assert(a2.view == view && a2.high_qc.view == high_view);
            lemma_block_id_ext(a2.high_qc.id, id);
        }
    }
    Some((a, pos + 48))
}

/// Read a certificate at `pos`: the variant tag, then the variant body.
pub fn deserialize_qc_at(bytes: &Vec<u8>, pos: usize) -> (r: Option<(Qc, usize)>)
    requires
        pos <= bytes@.len(),
    ensures
        r matches Some(p) ==> pos + ser_qc_len(p.0) == p.1 && p.1 <= bytes@.len()
            && bytes@.subrange(pos as int, p.1 as int) == ser_qc(p.0),
        forall|c: Qc|
            pos + ser_qc_len(c) <= bytes@.len() && bytes@.subrange(
                pos as int,
                pos + ser_qc_len(c),
            ) == ser_qc(c) ==> r == Some((c, (pos + ser_qc_len(c)) as usize)),
{
    if pos >= bytes.len() {
        proof {
            assert forall|c: Qc|
                !(pos + ser_qc_len(c) <= bytes@.len() && bytes@.subrange(
                    pos as int,
                    pos + ser_qc_len(c),
                ) == ser_qc(c)) by {
                assert(ser_qc_len(c) >= 41);
            }
        }
        return None;
    }
    let tag = bytes[pos];
    if tag == 0 {
        match deserialize_standard_qc_at(bytes, pos + 1) {
            Some((q, n)) => {
                let c = Qc::Standard(q);
                proof {
                    assert(bytes@.subrange(pos as int, n as int) =~= seq![bytes@[pos as int]]
                        + bytes@.subrange(pos + 1, n as int));
                    assert(bytes@.subrange(pos as int, n as int) == ser_qc(c));
                    assert forall|c2: Qc|
                        pos + ser_qc_len(c2) <= bytes@.len() && bytes@.subrange(
                            pos as int,
                            pos + ser_qc_len(c2),
                        ) == ser_qc(c2) implies c2 == c by {
                        let s2 = ser_qc(c2);
                        assert(s2[0] == bytes@[pos as int]);
                        match c2 {
                            Qc::Standard(q2) => {
                                assert(bytes@.subrange(pos + 1, pos + 41) =~= ser_qc(c2).subrange(
                                    1,
                                    41,
                                ));
                                assert(ser_qc(c2).subrange(1, 41) =~= ser_standard_qc(q2));
                            },
                            Qc::Aggregate(_) => {
                                assert(s2[0] == 1);
                            },
                        }
                    }
                }
                Some((c, n))
            },
            None => {
                proof {
                    assert forall|c2: Qc|
                        !(pos + ser_qc_len(c2) <= bytes@.len() && bytes@.subrange(
                            pos as int,
                            pos + ser_qc_len(c2),
                        ) == ser_qc(c2)) by {
                        if pos + ser_qc_len(c2) <= bytes@.len() && bytes@.subrange(
                            pos as int,
                            pos + ser_qc_len(c2),
                        ) == ser_qc(c2) {
                            match c2 {
                                Qc::Standard(_) => {
                                    assert(pos + 1 + 40 <= bytes@.len());
                                },
                                Qc::Aggregate(_) => {
                                    assert(ser_qc(c2)[0] == 1 && bytes@[pos as int] == 0);
                                },
                            }
                        }
                    }
                }
                None
            },
        }
    } else if tag == 1 {
        match deserialize_aggregate_qc_at(bytes, pos + 1) {
            Some((a, n)) => {
                let c = Qc::Aggregate(a);
                proof {
                    assert(bytes@.subrange(pos as int, n as int) =~= seq![bytes@[pos as int]]
                        + bytes@.subrange(pos + 1, n as int));
                    assert(bytes@.subrange(pos as int, n as int) == ser_qc(c));
                    assert forall|c2: Qc|
                        pos + ser_qc_len(c2) <= bytes@.len() && bytes@.subrange(
                            pos as int,
                            pos + ser_qc_len(c2),
                        ) == ser_qc(c2) implies c2 == c by {
                        let s2 = ser_qc(c2);
                        assert(s2[0] == bytes@[pos as int]);
                        match c2 {
                            Qc::Aggregate(a2) => {
                                assert(bytes@.subrange(pos + 1, pos + 49) =~= ser_qc(c2).subrange(
                                    1,
                                    49,
                                ));
                                assert(ser_qc(c2).subrange(1, 49) =~= ser_aggregate_qc(a2));
                            },
                            Qc::Standard(_) => {
                                assert(s2[0] == 0);
                            },
                        }
                    }
                }
                Some((c, n))
            },
            None => {
                proof {
                    assert forall|c2: Qc|
                        !(pos + ser_qc_len(c2) <= bytes@.len() && bytes@.subrange(
                            pos as int,
                            pos + ser_qc_len(c2),
                        ) == ser_qc(c2)) by {
                        if pos + ser_qc_len(c2) <= bytes@.len() && bytes@.subrange(
                            pos as int,
                            pos + ser_qc_len(c2),
                        ) == ser_qc(c2) {
                            match c2 {
                                Qc::Aggregate(_) => {
                                    assert(pos + 1 + 48 <= bytes@.len());
                                },
                                Qc::Standard(_) => {
                                    assert(ser_qc(c2)[0] == 0 && bytes@[pos as int] == 1);
                                },
                            }
                        }
                    }
                }
                None
            },
        }
    } else {
        proof {
            assert forall|c2: Qc|
                !(pos + ser_qc_len(c2) <= bytes@.len() && bytes@.subrange(
                    pos as int,
                    pos + ser_qc_len(c2),
                ) == ser_qc(c2)) by {
                if pos + ser_qc_len(c2) <= bytes@.len() && bytes@.subrange(
                    pos as int,
                    pos + ser_qc_len(c2),
                ) == ser_qc(c2) {
                    assert(ser_qc(c2)[0] == 0 || ser_qc(c2)[0] == 1);
                    assert(bytes@[pos as int] == ser_qc(c2)[0]);
                }
            }
        }
        None
    }
}

/// A serialized certificate, whole: `Some` exactly on serializations.
pub fn deserialize_qc(bytes: &Vec<u8>) -> (r: Option<Qc>)
    ensures
        r matches Some(c) ==> bytes@ == ser_qc(c),
        forall|c: Qc| bytes@ == ser_qc(c) ==> r == Some(c),
{
    match deserialize_qc_at(bytes, 0) {
        Some((c, n)) => {
            if n == bytes.len() {
                proof {
                    assert(bytes@.subrange(0, bytes@.len() as int) =~= bytes@);
                    assert forall|c2: Qc| bytes@ == ser_qc(c2) implies c2 == c by {
                        lemma_ser_qc_len(c2);
                        assert(bytes@.subrange(0, ser_qc_len(c2)) =~= bytes@);
                    }
                }
                Some(c)
            } else {
                proof {
                    assert forall|c2: Qc| bytes@ != ser_qc(c2) by {
                        if bytes@ == ser_qc(c2) {
                            lemma_ser_qc_len(c2);
                            assert(bytes@.subrange(0, ser_qc_len(c2)) =~= bytes@);
                        }
                    }
                }
                None
            }
        },
        None => {
            proof {
                assert forall|c2: Qc| bytes@ != ser_qc(c2) by {
                    if bytes@ == ser_qc(c2) {
                        lemma_ser_qc_len(c2);
                        assert(bytes@.subrange(0, ser_qc_len(c2)) =~= bytes@);
                    }
                }
            }
            None
        },
    }
}

/// Read a vote at `pos`: its view, then the block id it endorses.
pub fn deserialize_vote_at(bytes: &Vec<u8>, pos: usize) -> (r: Option<(Vote, usize)>)
    requires
        pos <= bytes@.len(),
    ensures
        (r is None) ==> pos + 40 > bytes@.len(),
        r matches Some(p) ==> p.1 == pos + 40 && pos + 40 <= bytes@.len() && bytes@.subrange(
            pos as int,
            pos + 40,
        ) == ser_vote(p.0),
        forall|v: Vote|
            pos + 40 <= bytes@.len() && bytes@.subrange(pos as int, pos + 40) == ser_vote(v)
                ==> r == Some((v, (pos + 40) as usize)),
{
    if bytes.len() < 40 || pos > bytes.len() - 40 {
        return None;
    }
    let view = read_u64_be(bytes, pos);
    let block = BlockId::new(read_bytes32(bytes, pos + 8));
    let v = Vote { view, block };
    proof {
        lemma_be_complete(bytes@.subrange(pos as int, pos as int + 8));
        assert(bytes@.subrange(pos as int, pos + 40) =~= bytes@.subrange(pos as int, pos as int + 8)
            + bytes@.subrange(pos + 8, pos + 40));
        assert(bytes@.subrange(pos as int, pos + 40) == ser_vote(v));
        assert forall|v2: Vote|
            bytes@.subrange(pos as int, pos + 40) == ser_vote(v2) implies v2 == v by {
            lemma_be_round(v2.view);
            assert(ser_vote(v2).subrange(0, 8) =~= u64_be(v2.view));
            assert(ser_vote(v2).subrange(8, 40) =~= v2.block@);
            assert(bytes@.subrange(pos as int, pos as int + 8) =~= ser_vote(v2).subrange(0, 8));
            assert(bytes@.subrange(pos + 8, pos + 40) =~= ser_vote(v2).subrange(8, 40));
            assert(v2.view == view);
            lemma_block_id_ext(v2.block, block);
        }
    }
    Some((v, pos + 40))
}

/// A serialized vote, whole.
pub fn deserialize_vote(bytes: &Vec<u8>) -> (r: Option<Vote>)
    ensures
        r matches Some(v) ==> bytes@ == ser_vote(v),
        forall|v: Vote| bytes@ == ser_vote(v) ==> r == Some(v),
{
    proof {
        assert forall|v2: Vote| bytes@ == ser_vote(v2) implies bytes@.len() == 40 by {
            lemma_ser_vote_len(v2);
        }
    }
    match deserialize_vote_at(bytes, 0) {
        Some((v, n)) => {
            if n == bytes.len() {
                proof {
                    assert(bytes@.subrange(0, bytes@.len() as int) =~= bytes@);
                }
                Some(v)
            } else {
                proof {
                    assert forall|v2: Vote| bytes@ != ser_vote(v2) by {
                        if bytes@ == ser_vote(v2) {
                            assert(bytes@.subrange(0, 40) =~= bytes@);
                        }
                    }
                }
                None
            }
        },
        None => {
            proof {
                assert forall|v2: Vote| bytes@ != ser_vote(v2) by {
                    if bytes@ == ser_vote(v2) {
                        assert(bytes@.subrange(0, 40) =~= bytes@);
                    }
                }
            }
            None
        },
    }
}

/// Read a timeout certificate at `pos`: view, high qc, sender.
pub fn deserialize_timeout_qc_at(bytes: &Vec<u8>, pos: usize) -> (r: Option<(TimeoutQc, usize)>)
    requires
        pos <= bytes@.len(),
    ensures
        (r is None) ==> pos + 80 > bytes@.len(),
        r matches Some(p) ==> p.1 == pos + 80 && pos + 80 <= bytes@.len() && bytes@.subrange(
            pos as int,
            pos + 80,
        ) == ser_timeout_qc(p.0),
        forall|t: TimeoutQc|
            pos + 80 <= bytes@.len() && bytes@.subrange(pos as int, pos + 80) == ser_timeout_qc(
                t,
            ) ==> r == Some((t, (pos + 80) as usize)),
{
    if bytes.len() < 80 || pos > bytes.len() - 80 {
        return None;
    }
    let view = read_u64_be(bytes, pos);
    let high_view = read_u64_be(bytes, pos + 8);
    let id = BlockId::new(read_bytes32(bytes, pos + 16));
    let sender = NodeId::new(read_bytes32(bytes, pos + 48));
    let t = TimeoutQc { view, high_qc: StandardQc { view: high_view, id }, sender };
    proof {
        lemma_be_complete(bytes@.subrange(pos as int, pos as int + 8));
        lemma_be_complete(bytes@.subrange(pos + 8, pos + 16));
        assert(bytes@.subrange(pos as int, pos + 80) =~= (bytes@.subrange(
            pos as int,
            pos as int + 8,
        ) + (bytes@.subrange(pos + 8, pos + 16) + bytes@.subrange(pos + 16, pos + 48)))
            + bytes@.subrange(pos + 48, pos + 80));
        assert(bytes@.subrange(pos as int, pos + 80) == ser_timeout_qc(t));
        assert forall|t2: TimeoutQc|
            bytes@.subrange(pos as int, pos + 80) == ser_timeout_qc(t2) implies t2 == t by {
            lemma_be_round(t2.view);
            lemma_be_round(t2.high_qc.view);
            let s2 = ser_timeout_qc(t2);
            assert(s2.subrange(0, 8) =~= u64_be(t2.view));
            assert(s2.subrange(8, 16) =~= u64_be(t2.high_qc.view));
            assert(s2.subrange(16, 48) =~= t2.high_qc.id@);
            assert(s2.subrange(48, 80) =~= t2.sender@);
            assert(bytes@.subrange(pos as int, pos as int + 8) =~= s2.subrange(0, 8));
            assert(bytes@.subrange(pos + 8, pos + 16) =~= s2.subrange(8, 16));
            assert(bytes@.subrange(pos + 16, pos + 48) =~= s2.subrange(16, 48));
            assert(bytes@.subrange(pos + 48, pos + 80) =~= s2.subrange(48, 80));
            assert(t2.view == view && t2.high_qc.view == high_view);
            lemma_block_id_ext(t2.high_qc.id, id);
            lemma_node_id_ext(t2.sender, sender);
        }
    }
    Some((t, pos + 80))
}

/// A serialized timeout certificate, whole.
pub fn deserialize_timeout_qc(bytes: &Vec<u8>) -> (r: Option<TimeoutQc>)
    ensures
        r matches Some(t) ==> bytes@ == ser_timeout_qc(t),
        forall|t: TimeoutQc| bytes@ == ser_timeout_qc(t) ==> r == Some(t),
{
    proof {
        assert forall|t2: TimeoutQc| bytes@ == ser_timeout_qc(t2) implies bytes@.len() == 80 by {
            lemma_ser_timeout_qc_len(t2);
        }
    }
    match deserialize_timeout_qc_at(bytes, 0) {
        Some((t, n)) => {
            if n == bytes.len() {
                proof {
                    assert(bytes@.subrange(0, bytes@.len() as int) =~= bytes@);
                }
                Some(t)
            } else {
                proof {
                    assert forall|t2: TimeoutQc| bytes@ != ser_timeout_qc(t2) by {
                        if bytes@ == ser_timeout_qc(t2) {
                            assert(bytes@.subrange(0, 80) =~= bytes@);
                        }
                    }
                }
                None
            }
        },
        None => {
            proof {
                assert forall|t2: TimeoutQc| bytes@ != ser_timeout_qc(t2) by {
                    if bytes@ == ser_timeout_qc(t2) {
                        assert(bytes@.subrange(0, 80) =~= bytes@);
                    }
                }
            }
            None
        },
    }
}

/// Read a block at `pos`: its id, its view, then its parent certificate.
pub fn deserialize_block_at(bytes: &Vec<u8>, pos: usize) -> (r: Option<(Block, usize)>)
    requires
        pos <= bytes@.len(),
    ensures
        r matches Some(p) ==> p.1 <= bytes@.len() && pos + 40 <= p.1 && bytes@.subrange(
            pos as int,
            p.1 as int,
        ) == ser_block(p.0) && p.1 == pos + 40 + ser_qc_len(p.0.parent_qc),
        forall|b: Block|
            pos + 40 + ser_qc_len(b.parent_qc) <= bytes@.len() && bytes@.subrange(
                pos as int,
                pos + 40 + ser_qc_len(b.parent_qc),
            ) == ser_block(b) ==> r == Some((b, (pos + 40 + ser_qc_len(b.parent_qc)) as usize)),
{
    if bytes.len() < 40 || pos > bytes.len() - 40 {
        proof {
            assert forall|b: Block|
                !(pos + 40 + ser_qc_len(b.parent_qc) <= bytes@.len()) by {
                assert(ser_qc_len(b.parent_qc) >= 41);
            }
        }
        return None;
    }
    let id = BlockId::new(read_bytes32(bytes, pos));
    let view = read_u64_be(bytes, pos + 32);
    match deserialize_qc_at(bytes, pos + 40) {
        Some((parent_qc, n)) => {
            let b = Block { id, view, parent_qc };
            proof {
                lemma_be_complete(bytes@.subrange(pos + 32, pos + 40));
                assert(bytes@.subrange(pos as int, n as int) =~= (bytes@.subrange(
                    pos as int,
                    pos + 32,
                ) + bytes@.subrange(pos + 32, pos + 40)) + bytes@.subrange(pos + 40, n as int));
                assert(bytes@.subrange(pos as int, n as int) == ser_block(b));
                assert forall|b2: Block|
                    pos + 40 + ser_qc_len(b2.parent_qc) <= bytes@.len() && bytes@.subrange(
                        pos as int,
                        pos + 40 + ser_qc_len(b2.parent_qc),
                    ) == ser_block(b2) implies b2 == b && pos + 40 + ser_qc_len(b2.parent_qc)
                    == n by {
                    lemma_be_round(b2.view);
                    lemma_ser_qc_len(b2.parent_qc);
                    let e2 = pos + 40 + ser_qc_len(b2.parent_qc);
                    let s2 = ser_block(b2);
                    assert(s2.subrange(0, 32) =~= b2.id@);
                    assert(s2.subrange(32, 40) =~= u64_be(b2.view));
                    assert(s2.subrange(40, s2.len() as int) =~= ser_qc(b2.parent_qc));
                    assert(bytes@.subrange(pos as int, pos + 32) =~= s2.subrange(0, 32));
                    assert(bytes@.subrange(pos + 32, pos + 40) =~= s2.subrange(32, 40));
                    assert(bytes@.subrange(pos + 40, e2 as int) =~= s2.subrange(
                        40,
                        s2.len() as int,
                    ));
                    assert(b2.view == view);
                    lemma_block_id_ext(b2.id, id);
                    assert(bytes@.subrange(pos + 40, e2 as int) == ser_qc(b2.parent_qc));
                }
            }
            Some((b, n))
        },
        None => {
            proof {
                assert forall|b2: Block|
                    !(pos + 40 + ser_qc_len(b2.parent_qc) <= bytes@.len() && bytes@.subrange(
                        pos as int,
                        pos + 40 + ser_qc_len(b2.parent_qc),
                    ) == ser_block(b2)) by {
                    if pos + 40 + ser_qc_len(b2.parent_qc) <= bytes@.len() && bytes@.subrange(
                        pos as int,
                        pos + 40 + ser_qc_len(b2.parent_qc),
                    ) == ser_block(b2) {
                        let e2 = pos + 40 + ser_qc_len(b2.parent_qc);
                        let s2 = ser_block(b2);
                        lemma_be_round(b2.view);
                        lemma_ser_qc_len(b2.parent_qc);
                        assert(s2.subrange(40, s2.len() as int) =~= ser_qc(b2.parent_qc));
                        assert(bytes@.subrange(pos + 40, e2 as int) =~= s2.subrange(
                            40,
                            s2.len() as int,
                        ));
                        assert(bytes@.subrange(pos + 40, e2 as int) == ser_qc(b2.parent_qc));
                    }
                }
            }
            None
        },
    }
}

/// A serialized block, whole.
pub fn deserialize_block(bytes: &Vec<u8>) -> (r: Option<Block>)
    ensures
        r matches Some(b) ==> bytes@ == ser_block(b),
        forall|b: Block| bytes@ == ser_block(b) ==> r == Some(b),
{
    proof {
        assert forall|b2: Block|
            bytes@ == ser_block(b2) implies bytes@.len() == 40 + ser_qc_len(b2.parent_qc) by {
            lemma_ser_block_len(b2);
        }
    }
    match deserialize_block_at(bytes, 0) {
        Some((b, n)) => {
            if n == bytes.len() {
                proof {
                    assert(bytes@.subrange(0, bytes@.len() as int) =~= bytes@);
                }
                Some(b)
            } else {
                proof {
                    assert forall|b2: Block| bytes@ != ser_block(b2) by {
                        if bytes@ == ser_block(b2) {
                            assert(bytes@.subrange(0, 40 + ser_qc_len(b2.parent_qc)) =~= bytes@);
                        }
                    }
                }
                None
            }
        },
        None => {
            proof {
                assert forall|b2: Block| bytes@ != ser_block(b2) by {
                    if bytes@ == ser_block(b2) {
                        assert(bytes@.subrange(0, 40 + ser_qc_len(b2.parent_qc)) =~= bytes@);
                    }
                }
            }
            None
        },
    }
}

/// The id a leader derives for a fresh proposal: digest of the proposal's
/// view and parent certificate.
pub open spec fn block_id_tag(view: u64, qc: Qc) -> Seq<u8> {
    crate::tree::tag_bytes(crate::tree::fnv64(u64_be(view) + ser_qc(qc)))
}

/// Derive a proposal id from its header content.
pub fn derive_block_id(view: u64, parent_qc: &Qc) -> (r: BlockId)
    ensures
        r@ == block_id_tag(view, *parent_qc),
{
    let mut buf: Vec<u8> = Vec::new();
    push_u64_be(&mut buf, view);
    let qc_bytes = serialize_qc(parent_qc);
    let mut m: usize = 0;
    let ghost mid = buf@;
    while m < qc_bytes.len()
        invariant
            0 <= m <= qc_bytes@.len(),
            buf@ == mid + qc_bytes@.subrange(0, m as int),
        decreases qc_bytes@.len() - m,
    {
        buf.push(qc_bytes[m]);
        proof {
            assert(qc_bytes@.subrange(0, m + 1) =~= qc_bytes@.subrange(0, m as int).push(
                qc_bytes@[m as int],
            ));
            assert(mid + qc_bytes@.subrange(0, m + 1) =~= (mid + qc_bytes@.subrange(
                0,
                m as int,
            )).push(qc_bytes@[m as int]));
        }
        m += 1;
    }
    proof {
        assert(qc_bytes@.subrange(0, qc_bytes@.len() as int) =~= qc_bytes@);
        assert(buf@ =~= u64_be(view) + ser_qc(*parent_qc));
    }
    let h = crate::tree::fnv64_of(&buf);
    BlockId::new(crate::tree::tag32(h))
}

} // verus!
