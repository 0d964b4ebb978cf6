//! The committee tree: the shuffled validator set is cut into `c` committees
//! arranged as a binary heap (children of index `i` at `2i+1` and `2i+2`),
//! each committee tagged with a digest of its member bytes.

use vstd::prelude::*;
use crate::types::{NodeId, CommitteeId};
use crate::committee::{Committee, strict_sorted, lemma_strict_sorted_distinct};
use crate::partition::part_size;

verus! {

/// The bytes of a sequence of members, concatenated in order.
#[verifier::opaque]
pub open spec fn members_bytes(s: Seq<NodeId>) -> Seq<u8>
    decreases s.len(),
{
    if s.len() == 0 {
        Seq::<u8>::empty()
    } else {
        members_bytes(s.drop_last()) + s.last()@
    }
}

/// One step of the FNV-style fold used for committee tags.
pub open spec fn fnv_step(h: u64, b: u8) -> u64 {
    vstd::wrapping::u64_specs::wrapping_mul(h ^ (b as u64), 0x100000001b3u64)
}

/// FNV-style 64-bit digest of a byte sequence.
#[verifier::opaque]
pub open spec fn fnv64(s: Seq<u8>) -> u64
    decreases s.len(),
{
    if s.len() == 0 {
        0xcbf29ce484222325u64
    } else {
        fnv_step(fnv64(s.drop_last()), s.last())
    }
}

/// A 64-bit digest spread into a 32-byte tag: the digest's eight bytes,
/// the rest zero.
pub open spec fn tag_bytes(h: u64) -> Seq<u8> {
    vstd::bytes::spec_u64_to_le_bytes(h) + Seq::new(24, |i: int| 0u8)
}

/// 32-byte committee tag: digest of the member bytes in sorted order.
pub open spec fn committee_tag(members: Seq<NodeId>) -> Seq<u8> {
    tag_bytes(fnv64(members_bytes(members)))
}

/// The FNV-style digest of a byte vector.
pub fn fnv64_of(buf: &Vec<u8>) -> (h: u64)
    ensures
        h == fnv64(buf@),
{
    let mut h: u64 = 0xcbf29ce484222325u64;
    let mut p: usize = 0;
    proof {
        reveal(fnv64);
        assert(buf@.subrange(0, 0) =~= Seq::<u8>::empty());
    }
    while p < buf.len()
        invariant
            0 <= p <= buf@.len(),
            h == fnv64(buf@.subrange(0, p as int)),
        decreases buf@.len() - p,
    {
        h = (h ^ (buf[p] as u64)).wrapping_mul(0x100000001b3u64);
        proof {
            reveal(fnv64);
            let upto = buf@.subrange(0, p + 1);
            assert(upto.drop_last() =~= buf@.subrange(0, p as int));
            assert(upto.last() == buf@[p as int]);
        }
        p += 1;
    }
    proof {
        assert(buf@.subrange(0, buf@.len() as int) =~= buf@);
    }
    h
}

/// Spread a digest into a 32-byte tag.
pub fn tag32(h: u64) -> (r: [u8; 32])
    ensures
        r@ == tag_bytes(h),
{
    let le = vstd::bytes::u64_to_le_bytes(h);
    let mut tag = [0u8; 32];
    let mut q: usize = 0;
    proof {
        broadcast use vstd::array::group_array_axioms;

        vstd::bytes::lemma_auto_spec_u64_to_from_le_bytes();
        assert(tag@ =~= Seq::new(32, |i: int| 0u8));
    }
    while q < 8
        invariant
            0 <= q <= 8,
            le@ == vstd::bytes::spec_u64_to_le_bytes(h),
            le@.len() == 8,
            tag@.len() == 32,
            forall|m: int| 0 <= m < q ==> tag@[m] == le@[m],
            forall|m: int| q <= m < 32 ==> tag@[m] == 0u8,
        decreases 8 - q,
    {
        proof {
            broadcast use vstd::array::group_array_axioms;

        }
        tag[q] = le[q];
        q += 1;
    }
    proof {
        assert(tag@ =~= tag_bytes(h));
    }
    tag
}

/// Global index of member `m` of committee `k`: the `k`-th chunk of whole
/// shares, and, for the first `n % c` committees, one element from the tail
/// of the shuffled sequence.
pub open spec fn part_index(n: nat, c: nat, k: nat, m: int) -> int {
    if m < n / c {
        (k * (n / c)) as int + m
    } else {
        (c * (n / c) + k) as int
    }
}

/// The members committee `k` holds, in layout order.
pub open spec fn part_members(nodes: Seq<NodeId>, c: nat, k: nat) -> Seq<NodeId> {
    Seq::new(
        part_size(nodes.len(), c, k) as nat,
        |m: int| nodes[part_index(nodes.len(), c, k, m)],
    )
}

/// Every member index of a committee falls inside the whole sequence.
pub proof fn lemma_part_index_bounds(n: nat, c: nat, k: nat, m: int)
    requires
        1 <= c <= n,
        k < c,
        0 <= m < part_size(n, c, k),
    ensures
        0 <= part_index(n, c, k, m) < n,
{
    let q = n / c;
    let rem = n % c;
    vstd::arithmetic::div_mod::lemma_fundamental_div_mod(n as int, c as int);
    vstd::arithmetic::div_mod::lemma_mod_bound(n as int, c as int);
    assert(n as int == (c as int) * (q as int) + rem as int);
    if m < q {
        assert((k as int) * (q as int) + m < (k as int + 1) * (q as int)) by (nonlinear_arith)
            requires
                0 <= m < q,
        ;
        assert((k as int + 1) * (q as int) <= (c as int) * (q as int)) by (nonlinear_arith)
            requires
                k as int + 1 <= c as int,
                q >= 0,
        ;
        assert((k as int) * (q as int) >= 0) by (nonlinear_arith)
            requires
                k >= 0,
                q >= 0,
        ;
    } else {
        assert(k < rem);
    }
}

/// Distinct member slots map to distinct global indices.
pub proof fn lemma_part_index_inj(n: nat, c: nat, k1: nat, m1: int, k2: nat, m2: int)
    requires
        1 <= c <= n,
        k1 < c,
        k2 < c,
        0 <= m1 < part_size(n, c, k1),
        0 <= m2 < part_size(n, c, k2),
        !(k1 == k2 && m1 == m2),
    ensures
        part_index(n, c, k1, m1) != part_index(n, c, k2, m2),
{
    let q = n / c;
    vstd::arithmetic::div_mod::lemma_fundamental_div_mod(n as int, c as int);
    vstd::arithmetic::div_mod::lemma_mod_bound(n as int, c as int);
    if m1 < q && m2 < q {
        if part_index(n, c, k1, m1) == part_index(n, c, k2, m2) {
            assert((k1 as int) * (q as int) + m1 == (k2 as int) * (q as int) + m2);
            assert(k1 == k2) by (nonlinear_arith)
                requires
                    (k1 as int) * (q as int) + m1 == (k2 as int) * (q as int) + m2,
                    0 <= m1 < q,
                    0 <= m2 < q,
                    k1 >= 0,
                    k2 >= 0,
            ;
        }
    } else if m1 < q && m2 >= q {
        assert((k1 as int) * (q as int) + m1 < (c as int) * (q as int)) by (nonlinear_arith)
            requires
                0 <= m1 < q,
                k1 as int + 1 <= c as int,
        ;
    } else if m1 >= q && m2 < q {
        assert((k2 as int) * (q as int) + m2 < (c as int) * (q as int)) by (nonlinear_arith)
            requires
                0 <= m2 < q,
                k2 as int + 1 <= c as int,
        ;
    } else {
        assert(k1 != k2);
    }
}

/// Committee tree built from the shuffled sequence `nodes` cut into `c` parts.
pub struct Tree {
    /// Tag of each committee, by committee index.
    pub inner_committees: Vec<CommitteeId>,
    /// Members of each committee, by committee index.
    pub membership_committees: Vec<Committee>,
}

/// Well-formedness of a tree with respect to the shuffled sequence it was cut from.
pub open spec fn tree_wf(t: Tree, nodes: Seq<NodeId>, c: nat) -> bool {
    &&& 1 <= c <= nodes.len()
    &&& nodes.no_duplicates()
    &&& t.inner_committees@.len() == c
    &&& t.membership_committees@.len() == c
    &&& forall|k: int|
        0 <= k < c ==> (#[trigger] t.membership_committees@[k]).inv()
    &&& forall|k: int|
        0 <= k < c ==> (#[trigger] t.membership_committees@[k])@.to_set() == part_members(
            nodes,
            c,
            k as nat,
        ).to_set()
    &&& forall|k: int|
        0 <= k < c ==> (#[trigger] t.membership_committees@[k])@.len() == part_size(
            nodes.len(),
            c,
            k as nat,
        )
    &&& forall|k: int|
        0 <= k < c ==> (#[trigger] t.inner_committees@[k])@ == committee_tag(
            t.membership_committees@[k]@,
        )
}

/// Digest of a committee's members; the tag is a function of the members alone.
pub fn committee_id_of(c: &Committee) -> (id: CommitteeId)
    ensures
        id@ == committee_tag(c@),
{
    let ms = c.members();
    let mut buf: Vec<u8> = Vec::new();
    let mut i: usize = 0;
    proof {
        reveal(members_bytes);
        assert(ms@.subrange(0, 0) =~= Seq::<NodeId>::empty());
        assert(buf@ =~= members_bytes(ms@.subrange(0, 0)));
    }
    while i < ms.len()
        invariant
            0 <= i <= ms@.len(),
            buf@ == members_bytes(ms@.subrange(0, i as int)),
        decreases ms@.len() - i,
    {
        let b = ms[i].bytes();
        let ghost before = buf@;
        let mut j: usize = 0;
        while j < 32
            invariant
                0 <= j <= 32,
                b@.len() == 32,
                buf@ == before + b@.subrange(0, j as int),
            decreases 32 - j,
        {
            buf.push(b[j]);
            proof {
                assert(b@.subrange(0, j + 1) =~= b@.subrange(0, j as int).push(b@[j as int]));
                assert(before + b@.subrange(0, j + 1) =~= (before + b@.subrange(0, j as int)).push(
                    b@[j as int],
                ));
            }
            j += 1;
        }
        proof {
            reveal(members_bytes);
            assert(b@.subrange(0, 32) =~= b@);
            assert(b@ == ms@[i as int]@);
            let upto = ms@.subrange(0, i + 1);
            assert(upto.drop_last() =~= ms@.subrange(0, i as int));
            assert(upto.last() == ms@[i as int]);
            assert(buf@ == members_bytes(upto));
        }
        i += 1;
    }
    proof {
        assert(ms@.subrange(0, ms@.len() as int) =~= ms@);
    }
    let h = fnv64_of(&buf);
    CommitteeId::new(tag32(h))
}

impl Tree {
    /// Cut the shuffled sequence into `number_of_committees` front-loaded
    /// parts and tag each resulting committee.
    pub fn new(nodes: &Vec<NodeId>, number_of_committees: usize) -> (t: Tree)
        requires
            1 <= number_of_committees <= nodes@.len(),
            nodes@.no_duplicates(),
        ensures
            tree_wf(t, nodes@, number_of_committees as nat),
    {
        let n = nodes.len();
        let c = number_of_committees;
        let base = n / c;
        let rem = n % c;
        proof {
            vstd::arithmetic::div_mod::lemma_fundamental_div_mod(n as int, c as int);
            vstd::arithmetic::div_mod::lemma_mod_bound(n as int, c as int);
        }
        let mut inner: Vec<CommitteeId> = Vec::new();
        let mut membership: Vec<Committee> = Vec::new();
        let mut k: usize = 0;
        while k < c
            invariant
                1 <= c <= n,
                n == nodes@.len(),
                nodes@.no_duplicates(),
                base == n as nat / c as nat,
                rem == n as nat % c as nat,
                n == c * base + rem,
                0 <= k <= c,
                inner@.len() == k,
                membership@.len() == k,
                forall|j: int| 0 <= j < k ==> (#[trigger] membership@[j]).inv(),
                forall|j: int|
                    0 <= j < k ==> (#[trigger] membership@[j])@.to_set() == part_members(
                        nodes@,
                        c as nat,
                        j as nat,
                    ).to_set(),
                forall|j: int|
                    0 <= j < k ==> (#[trigger] membership@[j])@.len() == part_size(
                        n as nat,
                        c as nat,
                        j as nat,
                    ),
                forall|j: int|
                    0 <= j < k ==> (#[trigger] inner@[j])@ == committee_tag(membership@[j]@),
            decreases c - k,
        {
            proof {
                assert((k as int) * (base as int) + (base as int) == (k as int + 1) * (
                base as int)) by (nonlinear_arith);
                assert((k as int + 1) * (base as int) <= (c as int) * (base as int))
                    by (nonlinear_arith)
                    requires
                        k as int + 1 <= c as int,
                        base >= 0,
                ;
                assert((k as int) * (base as int) >= 0) by (nonlinear_arith)
                    requires
                        k >= 0,
                        base >= 0,
                ;
            }
            let start = k * base;
            let mut seg: Vec<NodeId> = Vec::new();
            let mut i: usize = 0;
            while i < base
                invariant
                    0 <= i <= base,
                    n == nodes@.len(),
                    start == k * base,
                    start + base <= n,
                    seg@.len() == i,
                    forall|m: int| 0 <= m < i ==> #[trigger] seg@[m] == nodes@[start + m],
                decreases base - i,
            {
                seg.push(nodes[start + i]);
                i += 1;
            }
            if k < rem {
                proof {
                    assert(c * base + k < n);
                }
                seg.push(nodes[c * base + k]);
            }
            proof {
                assert(seg@ =~= part_members(nodes@, c as nat, k as nat));
            }
            let com = Committee::from_nodes(&seg);
            proof {
                // the segment inherits distinctness from the whole sequence
                assert(seg@.no_duplicates()) by {
                    assert forall|p: int, q: int|
                        0 <= p < seg@.len() && 0 <= q < seg@.len() && p != q implies seg@[p]
                        != seg@[q] by {
                        lemma_part_index_bounds(n as nat, c as nat, k as nat, p);
                        lemma_part_index_bounds(n as nat, c as nat, k as nat, q);
                        lemma_part_index_inj(n as nat, c as nat, k as nat, p, k as nat, q);
                    }
                }
                seg@.unique_seq_to_set();
                lemma_strict_sorted_distinct(com@);
                assert(com@.no_duplicates());
                com@.unique_seq_to_set();
                assert(com@.len() == part_size(n as nat, c as nat, k as nat));
            }
            let id = committee_id_of(&com);
            membership.push(com);
            inner.push(id);
            k += 1;
        }
        Tree { inner_committees: inner, membership_committees: membership }
    }

    /// The committee at index 0.
    pub fn root_committee(&self) -> (r: &Committee)
        requires
            self.membership_committees@.len() >= 1,
        ensures
            *r == self.membership_committees@[0],
    {
        &self.membership_committees[0]
    }

    /// Index of the committee holding `id`, if any; scans in index order.
    pub fn committee_idx_by_member(&self, id: &NodeId) -> (r: Option<usize>)
        ensures
            match r {
                Some(k) => k < self.membership_committees@.len()
                    && self.membership_committees@[k as int]@.contains(*id),
                None => forall|k: int|
                    0 <= k < self.membership_committees@.len()
                        ==> !(#[trigger] self.membership_committees@[k])@.contains(*id),
            },
    {
        let mut k: usize = 0;
        while k < self.membership_committees.len()
            invariant
                0 <= k <= self.membership_committees@.len(),
                forall|j: int|
                    0 <= j < k ==> !(#[trigger] self.membership_committees@[j])@.contains(*id),
            decreases self.membership_committees@.len() - k,
        {
            if self.membership_committees[k].contains(id) {
                return Some(k);
            }
            k += 1;
        }
        None
    }

    /// The committee at index `k`.
    pub fn committee_at(&self, k: usize) -> (r: &Committee)
        requires
            k < self.membership_committees@.len(),
        ensures
            *r == self.membership_committees@[k as int],
    {
        &self.membership_committees[k]
    }

    /// The tag of the committee at index `k`.
    pub fn committee_id_at(&self, k: usize) -> (r: CommitteeId)
        requires
            k < self.inner_committees@.len(),
        ensures
            r == self.inner_committees@[k as int],
    {
        self.inner_committees[k]
    }

    /// Number of committees.
    pub fn committee_count(&self) -> (r: usize)
        ensures
            r == self.membership_committees@.len(),
    {
        self.membership_committees.len()
    }

    /// Index of the first committee whose tag equals `id`, if any.
    pub fn committee_idx_by_id(&self, id: &CommitteeId) -> (r: Option<usize>)
        ensures
            match r {
                Some(k) => k < self.inner_committees@.len() && self.inner_committees@[k as int]@
                    == id@,
                None => forall|j: int|
                    0 <= j < self.inner_committees@.len() ==> (#[trigger] self.inner_committees@[j])@
                        != id@,
            },
    {
        let mut k: usize = 0;
        while k < self.inner_committees.len()
            invariant
                0 <= k <= self.inner_committees@.len(),
                forall|j: int| 0 <= j < k ==> (#[trigger] self.inner_committees@[j])@ != id@,
            decreases self.inner_committees@.len() - k,
        {
            if self.inner_committees[k] == *id {
                return Some(k);
            }
            proof {
                if self.inner_committees@[k as int]@ == id@ {
                    crate::types::lemma_committee_id_ext(self.inner_committees@[k as int], *id);
                }
            }
            k += 1;
        }
        None
    }
}

/// Distinct committees hold disjoint member sets.
pub proof fn lemma_tree_disjoint(t: Tree, nodes: Seq<NodeId>, c: nat, j: int, k: int)
    requires
        tree_wf(t, nodes, c),
        0 <= j < k < c,
    ensures
        t.membership_committees@[j]@.to_set().intersect(t.membership_committees@[k]@.to_set())
            =~= Set::<NodeId>::empty(),
{
    let sj = t.membership_committees@[j]@.to_set();
    let sk = t.membership_committees@[k]@.to_set();
    assert forall|x: NodeId| !(sj.contains(x) && sk.contains(x)) by {
        if sj.contains(x) && sk.contains(x) {
            let pj = part_members(nodes, c, j as nat);
            let pk = part_members(nodes, c, k as nat);
            assert(pj.to_set().contains(x));
            assert(pk.to_set().contains(x));
            let a = choose|a: int| 0 <= a < pj.len() && pj[a] == x;
            let b = choose|b: int| 0 <= b < pk.len() && pk[b] == x;
            let ia = part_index(nodes.len(), c, j as nat, a);
            let ib = part_index(nodes.len(), c, k as nat, b);
            lemma_part_index_bounds(nodes.len(), c, j as nat, a);
            lemma_part_index_bounds(nodes.len(), c, k as nat, b);
            lemma_part_index_inj(nodes.len(), c, j as nat, a, k as nat, b);
            assert(nodes[ia] == x && nodes[ib] == x);
            assert(nodes[ia] != nodes[ib]);
        }
    }
}

/// The committees of a well-formed tree cover the whole shuffled sequence.
pub proof fn lemma_tree_covers(t: Tree, nodes: Seq<NodeId>, c: nat, x: NodeId)
    requires
        tree_wf(t, nodes, c),
    ensures
        nodes.to_set().contains(x) <==> exists|k: int|
            0 <= k < c && (#[trigger] t.membership_committees@[k])@.to_set().contains(x),
{
    let n = nodes.len();
    let q = n / c;
    let rem = n % c;
    vstd::arithmetic::div_mod::lemma_fundamental_div_mod(n as int, c as int);
    vstd::arithmetic::div_mod::lemma_mod_bound(n as int, c as int);
    if nodes.to_set().contains(x) {
        let i = choose|i: int| 0 <= i < nodes.len() && nodes[i] == x;
        if i < (c * q) as int {
            vstd::arithmetic::div_mod::lemma_fundamental_div_mod(i, q as int);
            vstd::arithmetic::div_mod::lemma_mod_bound(i, q as int);
            let k = i / q as int;
            let m = i % q as int;
            assert(i == (q as int) * k + m);
            assert(0 <= k < c) by (nonlinear_arith)
                requires
                    i == (q as int) * k + m,
                    0 <= m < q,
                    0 <= i < (c as int) * (q as int),
                    q >= 1,
                    c >= 1,
            ;
            let kn = k as nat;
            assert(kn * q == (q as int) * k) by (nonlinear_arith)
                requires
                    kn == k,
                    q >= 0,
            ;
            assert(part_index(n, c, k as nat, m) == i);
            let p = part_members(nodes, c, k as nat);
            assert(p[m] == x);
            assert(p.to_set().contains(x));
            assert(t.membership_committees@[k]@.to_set().contains(x));
        } else {
            let k = i - (c * q) as int;
            assert(0 <= k < rem);
            assert(part_index(n, c, k as nat, q as int) == i);
            let p = part_members(nodes, c, k as nat);
            assert(p[q as int] == x);
            assert(p.to_set().contains(x));
            assert(t.membership_committees@[k]@.to_set().contains(x));
        }
    }
    if exists|k: int| 0 <= k < c && (#[trigger] t.membership_committees@[k])@.to_set().contains(x) {
        let k = choose|k: int|
            0 <= k < c && (#[trigger] t.membership_committees@[k])@.to_set().contains(x);
        let p = part_members(nodes, c, k as nat);
        assert(p.to_set().contains(x));
        let a = choose|a: int| 0 <= a < p.len() && p[a] == x;
        lemma_part_index_bounds(nodes.len(), c, k as nat, a);
        assert(nodes[part_index(nodes.len(), c, k as nat, a)] == x);
        assert(nodes.to_set().contains(x));
    }
}

} // verus!
