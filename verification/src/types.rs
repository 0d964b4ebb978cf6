//! Identity types: 32-byte node, committee and block identifiers, with a
//! total byte-lexicographic order on node identifiers.

use vstd::prelude::*;

verus! {

/// Lexicographic "less or equal" on byte sequences.
pub open spec fn bytes_le(a: Seq<u8>, b: Seq<u8>) -> bool
    decreases a.len(),
{
    if a.len() == 0 {
        true
    } else if b.len() == 0 {
        false
    } else if a[0] < b[0] {
        true
    } else if a[0] > b[0] {
        false
    } else {
        bytes_le(a.drop_first(), b.drop_first())
    }
}

pub proof fn lemma_bytes_le_total(a: Seq<u8>, b: Seq<u8>)
    ensures
        bytes_le(a, b) || bytes_le(b, a),
    decreases a.len(),
{
    if a.len() != 0 && b.len() != 0 && a[0] == b[0] {
        lemma_bytes_le_total(a.drop_first(), b.drop_first());
    }
}

pub proof fn lemma_bytes_le_antisym(a: Seq<u8>, b: Seq<u8>)
    requires
        bytes_le(a, b),
        bytes_le(b, a),
    ensures
        a == b,
    decreases a.len(),
{
    if a.len() == 0 {
        assert(b.len() == 0);
        assert(a =~= b);
    } else {
        lemma_bytes_le_antisym(a.drop_first(), b.drop_first());
        assert(a =~= seq![a[0]].add(a.drop_first()));
        assert(b =~= seq![b[0]].add(b.drop_first()));
    }
}

pub proof fn lemma_bytes_le_trans(a: Seq<u8>, b: Seq<u8>, c: Seq<u8>)
    requires
        bytes_le(a, b),
        bytes_le(b, c),
    ensures
        bytes_le(a, c),
    decreases a.len(),
{
    if a.len() != 0 && b.len() != 0 && c.len() != 0 && a[0] == b[0] && b[0] == c[0] {
        lemma_bytes_le_trans(a.drop_first(), b.drop_first(), c.drop_first());
    }
}

/// Compare two 32-byte arrays lexicographically; `r` says whether `a <= b`.
pub fn bytes32_le(a: &[u8; 32], b: &[u8; 32]) -> (r: bool)
    ensures
        r == bytes_le(a@, b@),
{
    let mut i: usize = 0;
    proof {
        assert(a@.skip(0) =~= a@);
        assert(b@.skip(0) =~= b@);
    }
    while i < 32
        invariant
            0 <= i <= 32,
            a@.len() == 32,
            b@.len() == 32,
            forall|k: int| 0 <= k < i ==> a@[k] == b@[k],
            bytes_le(a@, b@) == bytes_le(a@.skip(i as int), b@.skip(i as int)),
        decreases 32 - i,
    {
        let x = a[i];
        let y = b[i];
        proof {
            let sa = a@.skip(i as int);
            let sb = b@.skip(i as int);
            assert(sa[0] == a@[i as int]);
            assert(sb[0] == b@[i as int]);
            assert(sa.drop_first() =~= a@.skip(i + 1));
            assert(sb.drop_first() =~= b@.skip(i + 1));
        }
        if x < y {
            return true;
        }
        if x > y {
            return false;
        }
        i += 1;
    }
    proof {
        assert(a@.skip(32) =~= Seq::<u8>::empty());
    }
    true
}

/// Equality of two 32-byte arrays.
pub fn bytes32_eq(a: &[u8; 32], b: &[u8; 32]) -> (r: bool)
    ensures
        r == (a@ == b@),
{
    let mut i: usize = 0;
    while i < 32
        invariant
            0 <= i <= 32,
            a@.len() == 32,
            b@.len() == 32,
            forall|k: int| 0 <= k < i ==> a@[k] == b@[k],
        decreases 32 - i,
    {
        if a[i] != b[i] {
            return false;
        }
        i += 1;
    }
    proof {
        assert(a@ =~= b@);
    }
    true
}

/// 32-byte opaque validator identifier; total order and equality by bytes.
#[derive(Clone, Copy, Debug)]
pub struct NodeId {
    bytes: [u8; 32],
}

impl View for NodeId {
    type V = Seq<u8>;

    closed spec fn view(&self) -> Seq<u8> {
        self.bytes@
    }
}

impl NodeId {
    pub fn new(val: [u8; 32]) -> (r: NodeId)
        ensures
            r@ == val@,
    {
        NodeId { bytes: val }
    }

    pub fn bytes(&self) -> (r: [u8; 32])
        ensures
            r@ == self@,
    {
        self.bytes
    }
}

/// A node identifier is 32 bytes.
pub broadcast proof fn lemma_node_id_len(a: NodeId)
    ensures
        (#[trigger] a@).len() == 32,
{
    broadcast use vstd::array::group_array_axioms;

}

/// Two node identifiers with the same bytes are the same identifier.
pub broadcast proof fn lemma_node_id_ext(a: NodeId, b: NodeId)
    requires
        #[trigger] a@ == #[trigger] b@,
    ensures
        a == b,
{
    broadcast use vstd::array::group_array_axioms;

    assert(a.bytes =~= b.bytes);
}

impl PartialEq for NodeId {
    fn eq(&self, other: &NodeId) -> (r: bool) {
        proof {
            if self@ == other@ {
                lemma_node_id_ext(*self, *other);
            }
        }
        bytes32_eq(&self.bytes, &other.bytes)
    }
}

impl Eq for NodeId {

}

impl vstd::std_specs::cmp::PartialEqSpecImpl for NodeId {
    open spec fn obeys_eq_spec() -> bool {
        true
    }

    open spec fn eq_spec(&self, other: &NodeId) -> bool {
        *self == *other
    }
}

/// Order on node identifiers: byte-lexicographic "less or equal".
pub open spec fn node_le(a: NodeId, b: NodeId) -> bool {
    bytes_le(a@, b@)
}

/// Strict order on node identifiers.
pub open spec fn node_lt(a: NodeId, b: NodeId) -> bool {
    node_le(a, b) && a != b
}

/// Exec comparison matching `node_le`.
pub fn node_le_exec(a: &NodeId, b: &NodeId) -> (r: bool)
    ensures
        r == node_le(*a, *b),
{
    bytes32_le(&a.bytes, &b.bytes)
}

/// The byte order on node identifiers is total.
pub proof fn lemma_node_le_total(a: NodeId, b: NodeId)
    ensures
        node_le(a, b) || node_le(b, a),
        (node_le(a, b) && node_le(b, a)) ==> a == b,
{
    lemma_bytes_le_total(a@, b@);
    if node_le(a, b) && node_le(b, a) {
        lemma_bytes_le_antisym(a@, b@);
        lemma_node_id_ext(a, b);
    }
}

/// 32-byte committee tag, derived deterministically from the members.
#[derive(Clone, Copy, Debug)]
pub struct CommitteeId {
    bytes: [u8; 32],
}

impl View for CommitteeId {
    type V = Seq<u8>;

    closed spec fn view(&self) -> Seq<u8> {
        self.bytes@
    }
}

impl CommitteeId {
    pub fn new(val: [u8; 32]) -> (r: CommitteeId)
        ensures
            r@ == val@,
    {
        CommitteeId { bytes: val }
    }

    pub fn bytes(&self) -> (r: [u8; 32])
        ensures
            r@ == self@,
    {
        self.bytes
    }
}

/// A committee tag is 32 bytes.
pub broadcast proof fn lemma_committee_id_len(a: CommitteeId)
    ensures
        (#[trigger] a@).len() == 32,
{
    broadcast use vstd::array::group_array_axioms;

}

/// Two committee tags with the same bytes are the same tag.
pub broadcast proof fn lemma_committee_id_ext(a: CommitteeId, b: CommitteeId)
    requires
        #[trigger] a@ == #[trigger] b@,
    ensures
        a == b,
{
    broadcast use vstd::array::group_array_axioms;

    assert(a.bytes =~= b.bytes);
}

impl PartialEq for CommitteeId {
    fn eq(&self, other: &CommitteeId) -> (r: bool) {
        proof {
            if self@ == other@ {
                lemma_committee_id_ext(*self, *other);
            }
        }
        bytes32_eq(&self.bytes, &other.bytes)
    }
}

impl Eq for CommitteeId {

}

impl vstd::std_specs::cmp::PartialEqSpecImpl for CommitteeId {
    open spec fn obeys_eq_spec() -> bool {
        true
    }

    open spec fn eq_spec(&self, other: &CommitteeId) -> bool {
        *self == *other
    }
}

/// Opaque 32-byte block hash.
#[derive(Clone, Copy, Debug)]
pub struct BlockId {
    bytes: [u8; 32],
}

impl View for BlockId {
    type V = Seq<u8>;

    closed spec fn view(&self) -> Seq<u8> {
        self.bytes@
    }
}

impl BlockId {
    pub fn new(val: [u8; 32]) -> (r: BlockId)
        ensures
            r@ == val@,
    {
        BlockId { bytes: val }
    }

    pub fn bytes(&self) -> (r: [u8; 32])
        ensures
            r@ == self@,
    {
        self.bytes
    }

    /// Identifier of the genesis block: all zeroes.
    pub fn zero() -> (r: BlockId)
        ensures
            r@ == Seq::<u8>::new(32, |i: int| 0u8),
    {
        let r = BlockId { bytes: [0u8; 32] };
        proof {
            broadcast use vstd::array::group_array_axioms;

            assert(r.bytes@ =~= Seq::<u8>::new(32, |i: int| 0u8));
        }
        r
    }
}

/// A block identifier is 32 bytes.
pub broadcast proof fn lemma_block_id_len(a: BlockId)
    ensures
        (#[trigger] a@).len() == 32,
{
    broadcast use vstd::array::group_array_axioms;

}

/// Two block identifiers with the same bytes are the same identifier.
pub broadcast proof fn lemma_block_id_ext(a: BlockId, b: BlockId)
    requires
        #[trigger] a@ == #[trigger] b@,
    ensures
        a == b,
{
    broadcast use vstd::array::group_array_axioms;

    assert(a.bytes =~= b.bytes);
}

impl PartialEq for BlockId {
    fn eq(&self, other: &BlockId) -> (r: bool) {
        proof {
            if self@ == other@ {
                lemma_block_id_ext(*self, *other);
            }
        }
        bytes32_eq(&self.bytes, &other.bytes)
    }
}

impl Eq for BlockId {

}

impl vstd::std_specs::cmp::PartialEqSpecImpl for BlockId {
    open spec fn obeys_eq_spec() -> bool {
        true
    }

    open spec fn eq_spec(&self, other: &BlockId) -> bool {
        *self == *other
    }
}

} // verus!
