//! The tree overlay: a deterministic assignment of the validator set to a
//! binary tree of committees, built from a 32-byte entropy seed, with
//! structural queries for membership, ancestry and vote thresholds.

use vstd::prelude::*;
use crate::types::{NodeId, lemma_committee_id_ext};
use crate::committee::{Committee, lemma_strict_sorted_unique};
use crate::tree::{Tree, tree_wf, part_members, committee_tag, lemma_tree_disjoint, lemma_tree_covers};
use crate::partition::{part_size, lemma_two_thirds};

verus! {

/// Name for the result of rand's seeded shuffle: a permutation of `nodes`
/// determined by `nodes` and the 32-byte `entropy` alone.
pub uninterp spec fn shuffled_of(nodes: Seq<NodeId>, entropy: Seq<u8>) -> Seq<NodeId>;

/// Name for the result of rand's seeded pick: the element drawn from `nodes`
/// determined by `nodes` and the 32-byte `entropy` alone.
pub uninterp spec fn picked_of(nodes: Seq<NodeId>, entropy: Seq<u8>) -> NodeId;

/// Relies on rand::rngs::StdRng::from_seed and rand::seq::SliceRandom::shuffle:
/// a Fisher-Yates pass driven by a PRNG seeded from `entropy` alone, so the
/// result is a permutation of `nodes` and a function of `nodes` and `entropy`.
#[verifier::external_body]
fn shuffle_nodes(nodes: Vec<NodeId>, entropy: &[u8; 32]) -> (r: Vec<NodeId>)
    ensures
        r@ == shuffled_of(nodes@, entropy@),
        r@.to_multiset() == nodes@.to_multiset(),
{
    let mut nodes = nodes;
    let mut rng = <rand::rngs::StdRng as rand::SeedableRng>::from_seed(*entropy);
    rand::seq::SliceRandom::shuffle(nodes.as_mut_slice(), &mut rng);
    nodes
}

/// Relies on rand::seq::SliceRandom::choose with a PRNG seeded from `entropy`:
/// on a non-empty slice it returns Some element of the slice, a function of
/// the slice and the entropy alone.
#[verifier::external_body]
fn pick_node(nodes: &Vec<NodeId>, entropy: &[u8; 32]) -> (r: NodeId)
    requires
        nodes@.len() > 0,
    ensures
        r == picked_of(nodes@, entropy@),
        nodes@.contains(r),
{
    let mut rng = <rand::rngs::StdRng as rand::SeedableRng>::from_seed(*entropy);
    *rand::seq::SliceRandom::choose(nodes.as_slice(), &mut rng).unwrap()
}

/// Copy of a node vector.
pub fn copy_nodes(v: &Vec<NodeId>) -> (r: Vec<NodeId>)
    ensures
        r@ == v@,
{
    let mut r: Vec<NodeId> = Vec::new();
    let mut i: usize = 0;
    while i < v.len()
        invariant
            0 <= i <= v@.len(),
            r@ == v@.subrange(0, i as int),
        decreases v@.len() - i,
    {
        r.push(v[i]);
        proof {
            assert(v@.subrange(0, i + 1) =~= v@.subrange(0, i as int).push(v@[i as int]));
        }
        i += 1;
    }
    proof {
        assert(v@.subrange(0, v@.len() as int) =~= v@);
    }
    r
}

/// Round-robin leader selection marker; the overlay itself resolves leaders
/// from entropy, so this carries no state.
#[derive(Clone, Copy, Debug)]
pub struct RoundRobin;

impl RoundRobin {
    pub fn new() -> RoundRobin {
        RoundRobin
    }
}

/// The default shuffler: rand's seeded Fisher-Yates pass.
#[derive(Clone, Copy, Debug)]
pub struct DefaultShuffler;

impl DefaultShuffler {
    /// Shuffle `nodes` with a PRNG seeded from `entropy`.
    pub fn shuffle(&self, nodes: Vec<NodeId>, entropy: &[u8; 32]) -> (r: Vec<NodeId>)
        ensures
            r@ == shuffled_of(nodes@, entropy@),
            r@.to_multiset() == nodes@.to_multiset(),
    {
        shuffle_nodes(nodes, entropy)
    }
}

/// Everything the overlay is built from.
pub struct TreeOverlaySettings {
    pub nodes: Vec<NodeId>,
    pub current_leader: NodeId,
    pub entropy: [u8; 32],
    pub number_of_committees: usize,
    pub leader: RoundRobin,
    pub shuffer: DefaultShuffler,
}

/// Committee index `k` has no children among `c` committees.
pub open spec fn is_leaf_idx(c: nat, k: nat) -> bool {
    2 * k + 1 >= c
}

/// Parent index in the binary heap layout; the root is its own parent.
pub open spec fn parent_idx(k: nat) -> nat {
    if k == 0 {
        0
    } else {
        ((k - 1) as nat) / 2
    }
}

/// The overlay: shuffled nodes, their committee tree, and the current leader.
pub struct TreeOverlay {
    pub entropy: [u8; 32],
    pub number_of_committees: usize,
    pub nodes: Vec<NodeId>,
    pub current_leader: NodeId,
    pub carnot_tree: Tree,
    pub leader: RoundRobin,
    pub shuffer: DefaultShuffler,
}

impl TreeOverlay {
    /// Number of committees, as the proofs see it.
    pub open spec fn c(&self) -> nat {
        self.number_of_committees as nat
    }

    /// Members of committee `k`.
    pub open spec fn committee_seq(&self, k: int) -> Seq<NodeId> {
        self.carnot_tree.membership_committees@[k]@
    }

    /// `x` sits in committee `k`.
    pub open spec fn in_committee(&self, k: int, x: NodeId) -> bool {
        self.committee_seq(k).contains(x)
    }

    /// `x` sits in a committee without children.
    pub open spec fn is_leaf_member(&self, x: NodeId) -> bool {
        exists|k: int|
            0 <= k < self.c() && is_leaf_idx(self.c(), k as nat) && self.in_committee(k, x)
    }

    /// `x` sits in some committee.
    pub open spec fn is_member(&self, x: NodeId) -> bool {
        exists|k: int| 0 <= k < self.c() && self.in_committee(k, x)
    }

    /// The index of the committee holding `x` (unique in a well-formed overlay).
    pub open spec fn member_idx_spec(&self, x: NodeId) -> int {
        choose|k: int| 0 <= k < self.c() && self.in_committee(k, x)
    }

    /// Members of the committee holding `x`; empty when `x` is unknown.
    pub open spec fn node_committee_view(&self, x: NodeId) -> Seq<NodeId> {
        if self.is_member(x) {
            self.committee_seq(self.member_idx_spec(x))
        } else {
            Seq::<NodeId>::empty()
        }
    }

    /// Members of the parent committee of the one holding `x`; the root's
    /// parent is the root itself; empty when `x` is unknown.
    pub open spec fn parent_committee_view(&self, x: NodeId) -> Seq<NodeId> {
        if self.is_member(x) {
            self.committee_seq(parent_idx(self.member_idx_spec(x) as nat) as int)
        } else {
            Seq::<NodeId>::empty()
        }
    }

    /// Size of committee `k`, or zero past the end.
    pub open spec fn committee_size_or_zero(&self, k: int) -> nat {
        if 0 <= k < self.c() {
            self.committee_seq(k).len()
        } else {
            0
        }
    }

    /// Well-formedness: the tree was cut from the shuffled sequence.
    pub open spec fn inv(&self) -> bool {
        tree_wf(self.carnot_tree, self.nodes@, self.c())
    }

    /// The overlay is what `new` builds from these settings.
    pub open spec fn built_from(
        &self,
        nodes0: Seq<NodeId>,
        leader0: NodeId,
        entropy0: Seq<u8>,
        c: nat,
    ) -> bool {
        &&& self.nodes@ == shuffled_of(nodes0, entropy0)
        &&& self.nodes@.to_multiset() == nodes0.to_multiset()
        &&& self.current_leader == leader0
        &&& self.c() == c
        &&& self.entropy@ == entropy0
        &&& tree_wf(self.carnot_tree, self.nodes@, c)
    }

    /// Build the overlay: shuffle, cut into committees, tag them.
    pub fn new(settings: TreeOverlaySettings) -> (o: TreeOverlay)
        requires
            1 <= settings.number_of_committees <= settings.nodes@.len(),
            settings.nodes@.no_duplicates(),
        ensures
            o.built_from(
                settings.nodes@,
                settings.current_leader,
                settings.entropy@,
                settings.number_of_committees as nat,
            ),
            o.inv(),
    {
        let TreeOverlaySettings {
            nodes,
            current_leader,
            entropy,
            number_of_committees,
            leader,
            shuffer,
        } = settings;
        let ghost nodes0 = nodes@;
        let shuffled = shuffle_nodes(nodes, &entropy);
        proof {
            broadcast use vstd::seq_lib::group_to_multiset_ensures;

            assert(shuffled@.len() == shuffled@.to_multiset().len());
            assert(nodes0.len() == nodes0.to_multiset().len());
            nodes0.lemma_multiset_has_no_duplicates();
            shuffled@.lemma_multiset_has_no_duplicates_conv();
        }
        let carnot_tree = Tree::new(&shuffled, number_of_committees);
        TreeOverlay {
            entropy,
            number_of_committees,
            nodes: shuffled,
            current_leader,
            carnot_tree,
            leader,
            shuffer,
        }
    }

    /// The shuffled validator sequence this overlay was cut from.
    pub fn nodes(&self) -> (r: &Vec<NodeId>)
        ensures
            r@ == self.nodes@,
    {
        &self.nodes
    }

    /// The committee at the root of the tree.
    pub fn root_committee(&self) -> (r: Committee)
        requires
            self.inv(),
        ensures
            r@ == self.committee_seq(0),
            r.inv(),
    {
        self.carnot_tree.root_committee().duplicate()
    }

    pub fn is_member_of_root_committee(&self, id: NodeId) -> (r: bool)
        requires
            self.inv(),
        ensures
            r == self.in_committee(0, id),
    {
        self.carnot_tree.root_committee().contains(&id)
    }

    /// Distinct committees of a well-formed overlay share no member.
    pub proof fn lemma_member_unique(&self, k1: int, k2: int, x: NodeId)
        requires
            self.inv(),
            0 <= k1 < self.c(),
            0 <= k2 < self.c(),
            self.in_committee(k1, x),
            self.in_committee(k2, x),
        ensures
            k1 == k2,
    {
        if k1 < k2 {
            lemma_tree_disjoint(self.carnot_tree, self.nodes@, self.c(), k1, k2);
            assert(self.committee_seq(k1).to_set().contains(x));
            assert(self.committee_seq(k2).to_set().contains(x));
            assert(self.committee_seq(k1).to_set().intersect(
                self.committee_seq(k2).to_set(),
            ).contains(x));
        } else if k2 < k1 {
            lemma_tree_disjoint(self.carnot_tree, self.nodes@, self.c(), k2, k1);
            assert(self.committee_seq(k1).to_set().contains(x));
            assert(self.committee_seq(k2).to_set().contains(x));
            assert(self.committee_seq(k2).to_set().intersect(
                self.committee_seq(k1).to_set(),
            ).contains(x));
        }
    }

    /// A committee containing `x` fixes `member_idx_spec(x)`.
    pub proof fn lemma_member_idx(&self, k: int, x: NodeId)
        requires
            self.inv(),
            0 <= k < self.c(),
            self.in_committee(k, x),
        ensures
            self.is_member(x),
            self.member_idx_spec(x) == k,
    {
        assert(self.is_member(x));
        let km = self.member_idx_spec(x);
        assert(0 <= km < self.c() && self.in_committee(km, x));
        self.lemma_member_unique(k, km, x);
    }

    /// Committee indices at and past `c/2` are exactly the leaves.
    pub proof fn lemma_leaf_range(&self, k: nat)
        requires
            k < self.c(),
        ensures
            is_leaf_idx(self.c(), k) <==> k >= self.c() / 2,
    {
        vstd::arithmetic::div_mod::lemma_fundamental_div_mod(self.c() as int, 2);
        vstd::arithmetic::div_mod::lemma_mod_bound(self.c() as int, 2);
    }

    pub fn is_member_of_leaf_committee(&self, id: NodeId) -> (r: bool)
        requires
            self.inv(),
        ensures
            r == self.is_leaf_member(id),
    {
        let c = self.number_of_committees;
        let mut k: usize = c / 2;
        proof {
            assert forall|j: nat| j < self.c() implies (is_leaf_idx(self.c(), j) <==> j >= self.c()
                / 2) by {
                self.lemma_leaf_range(j);
            }
        }
        while k < c
            invariant
                self.inv(),
                c == self.number_of_committees,
                c / 2 <= k <= c,
                forall|j: nat|
                    j < self.c() ==> (is_leaf_idx(self.c(), j) <==> j >= self.c() / 2),
                forall|j: int| c / 2 <= j < k ==> !self.in_committee(j, id),
            decreases c - k,
        {
            if self.carnot_tree.committee_at(k).contains(&id) {
                proof {
                    assert(self.in_committee(k as int, id));
                    assert(is_leaf_idx(self.c(), k as nat));
                }
                return true;
            }
            k += 1;
        }
        proof {
            assert forall|j: int|
                0 <= j < self.c() && is_leaf_idx(self.c(), j as nat) implies !self.in_committee(
                j,
                id,
            ) by {
                assert(j >= self.c() / 2);
            }
        }
        false
    }

    /// The committee holding `id`; empty when `id` is unknown.
    pub fn node_committee(&self, id: NodeId) -> (r: Committee)
        requires
            self.inv(),
        ensures
            r@ == self.node_committee_view(id),
            r.inv(),
    {
        match self.carnot_tree.committee_idx_by_member(&id) {
            Some(k) => {
                proof {
                    self.lemma_member_idx(k as int, id);
                }
                self.carnot_tree.committee_at(k).duplicate()
            },
            None => Committee::new(),
        }
    }

    /// The parent committee of the one holding `id`; the root's parent is the
    /// root itself; empty when `id` is unknown.
    pub fn parent_committee(&self, id: NodeId) -> (r: Committee)
        requires
            self.inv(),
        ensures
            r@ == self.parent_committee_view(id),
            r.inv(),
    {
        match self.carnot_tree.committee_idx_by_member(&id) {
            Some(k) => {
                proof {
                    self.lemma_member_idx(k as int, id);
                }
                let p = if k == 0 {
                    0
                } else {
                    (k - 1) / 2
                };
                proof {
                    assert(p as nat == parent_idx(k as nat));
                    assert(p <= k);
                }
                self.carnot_tree.committee_at(p).duplicate()
            },
            None => Committee::new(),
        }
    }

    pub fn is_child_of_root_committee(&self, id: NodeId) -> (r: bool)
        requires
            self.inv(),
        ensures
            r == (self.parent_committee_view(id) == self.committee_seq(0)),
    {
        let pc = self.parent_committee(id);
        let rc = self.root_committee();
        pc == rc
    }

    pub fn is_member_of_child_committee(&self, parent: NodeId, child: NodeId) -> (r: bool)
        requires
            self.inv(),
        ensures
            r == (self.is_member(parent) && self.parent_committee_view(child)
                == self.node_committee_view(parent)),
    {
        let child_parent = self.parent_committee(child);
        match self.carnot_tree.committee_idx_by_member(&parent) {
            Some(k) => {
                proof {
                    self.lemma_member_idx(k as int, parent);
                }
                let pc = self.carnot_tree.committee_at(k);
                child_parent == *pc
            },
            None => false,
        }
    }

    /// The committees at `2i+1` and `2i+2` for the committee `i` holding `id`,
    /// left first; empty when `id` is unknown or sits in a leaf.
    pub fn child_committees(&self, id: NodeId) -> (r: Vec<Committee>)
        requires
            self.inv(),
        ensures
            !self.is_member(id) ==> r@.len() == 0,
            self.is_member(id) ==> {
                let k = self.member_idx_spec(id);
                &&& r@.len() == (if 2 * k + 1 < self.c() {
                    1int
                } else {
                    0int
                }) + (if 2 * k + 2 < self.c() {
                    1int
                } else {
                    0int
                })
                &&& 2 * k + 1 < self.c() ==> r@[0]@ == self.committee_seq(2 * k + 1)
                &&& 2 * k + 2 < self.c() ==> r@[1]@ == self.committee_seq(2 * k + 2)
            },
            forall|m: int| 0 <= m < r@.len() ==> (#[trigger] r@[m]).inv(),
    {
        let mut r: Vec<Committee> = Vec::new();
        match self.carnot_tree.committee_idx_by_member(&id) {
            Some(k) => {
                proof {
                    self.lemma_member_idx(k as int, id);
                }
                let c = self.number_of_committees;
                if k < c / 2 {
                    let l = 2 * k + 1;
                    if l < c {
                        r.push(self.carnot_tree.committee_at(l).duplicate());
                    }
                    if l + 1 < c {
                        r.push(self.carnot_tree.committee_at(l + 1).duplicate());
                    }
                } else {
                    proof {
                        vstd::arithmetic::div_mod::lemma_fundamental_div_mod(c as int, 2);
                        vstd::arithmetic::div_mod::lemma_mod_bound(c as int, 2);
                        assert(2 * (k as int) + 1 >= self.c());
                    }
                }
                r
            },
            None => r,
        }
    }

    /// Every committee without children, by ascending index.
    pub fn leaf_committees(&self, _id: NodeId) -> (r: Vec<Committee>)
        requires
            self.inv(),
        ensures
            r@.len() == self.c() - self.c() / 2,
            forall|m: int|
                0 <= m < r@.len() ==> (#[trigger] r@[m])@ == self.committee_seq(
                    self.c() as int / 2 + m,
                ),
            forall|m: int| 0 <= m < r@.len() ==> (#[trigger] r@[m]).inv(),
    {
        let c = self.number_of_committees;
        let mut r: Vec<Committee> = Vec::new();
        let mut k: usize = c / 2;
        while k < c
            invariant
                self.inv(),
                c == self.number_of_committees,
                c / 2 <= k <= c,
                r@.len() == k - c / 2,
                forall|m: int|
                    0 <= m < r@.len() ==> (#[trigger] r@[m])@ == self.committee_seq(
                        c as int / 2 + m,
                    ),
                forall|m: int| 0 <= m < r@.len() ==> (#[trigger] r@[m]).inv(),
            decreases c - k,
        {
            r.push(self.carnot_tree.committee_at(k).duplicate());
            k += 1;
        }
        r
    }

    /// The leader the next overlay will carry: drawn from this overlay's
    /// stored (already shuffled) node sequence by a PRNG seeded from this
    /// overlay's entropy, so one overlay always names the same next leader.
    pub fn next_leader(&self) -> (r: NodeId)
        requires
            self.inv(),
        ensures
            r == picked_of(self.nodes@, self.entropy@),
            self.nodes@.contains(r),
    {
        pick_node(&self.nodes, &self.entropy)
    }

    /// `0` for members of leaf committees; otherwise two thirds of the
    /// member's committee, plus one.
    pub fn super_majority_threshold(&self, id: NodeId) -> (r: usize)
        requires
            self.inv(),
            self.is_member(id),
        ensures
            ({
                let k = self.member_idx_spec(id);
                r == if is_leaf_idx(self.c(), k as nat) {
                    0int
                } else {
                    2 * self.committee_seq(k).len() as int / 3 + 1
                }
            }),
    {
        let leafy = self.is_member_of_leaf_committee(id);
        if leafy {
            proof {
                let kl = choose|k: int|
                    0 <= k < self.c() && is_leaf_idx(self.c(), k as nat) && self.in_committee(
                        k,
                        id,
                    );
                self.lemma_member_idx(kl, id);
            }
            return 0;
        }
        proof {
            let km = self.member_idx_spec(id);
            assert(0 <= km < self.c() && self.in_committee(km, id));
            assert(!is_leaf_idx(self.c(), km as nat));
        }
        match self.carnot_tree.committee_idx_by_member(&id) {
            Some(k) => {
                proof {
                    self.lemma_member_idx(k as int, id);
                }
                let len = self.carnot_tree.committee_at(k).len();
                let q = len / 3;
                let rm = len % 3;
                proof {
                    lemma_two_thirds(len as nat);
                    vstd::arithmetic::div_mod::lemma_fundamental_div_mod(len as int, 3);
                    vstd::arithmetic::div_mod::lemma_mod_bound(len as int, 3);
                    assert(len as int == 3 * (q as int) + rm as int);
                    if q >= 2 {
                        assert(2 * (q as int) + 2 <= 3 * (q as int));
                    } else {
                        assert(2 * (q as int) + 2 <= 5);
                        assert(usize::MAX >= 0xffff_ffff);
                    }
                }
                let extra: usize = if rm == 2 {
                    1
                } else {
                    0
                };
                2 * q + extra + 1
            },
            None => {
                proof {
                    assert(self.in_committee(self.member_idx_spec(id), id));
                    assert(false);
                }
                0
            },
        }
    }

    /// Two thirds of the root committee and both of its children, plus one.
    pub fn leader_super_majority_threshold(&self, _id: NodeId) -> (r: usize)
        requires
            self.inv(),
        ensures
            r == 2 * (self.committee_size_or_zero(0) + self.committee_size_or_zero(1)
                + self.committee_size_or_zero(2)) as int / 3 + 1,
    {
        let c = self.number_of_committees;
        let s0 = self.carnot_tree.committee_at(0).len();
        let s1 = if 1 < c {
            self.carnot_tree.committee_at(1).len()
        } else {
            0
        };
        let s2 = if 2 < c {
            self.carnot_tree.committee_at(2).len()
        } else {
            0
        };
        let n = self.nodes.len();
        proof {
            self.lemma_committee_sizes_bounded();
            assert(s0 + s1 + s2 <= n);
        }
        let s = s0 + s1 + s2;
        let q = s / 3;
        let rm = s % 3;
        proof {
            lemma_two_thirds(s as nat);
            vstd::arithmetic::div_mod::lemma_fundamental_div_mod(s as int, 3);
            vstd::arithmetic::div_mod::lemma_mod_bound(s as int, 3);
            assert(s as int == 3 * (q as int) + rm as int);
            if q >= 2 {
                assert(2 * (q as int) + 2 <= 3 * (q as int));
            } else {
                assert(2 * (q as int) + 2 <= 5);
                assert(usize::MAX >= 0xffff_ffff);
            }
        }
        let extra: usize = if rm == 2 {
            1
        } else {
            0
        };
        2 * q + extra + 1
    }

    /// The first three committees together hold at most all nodes.
    proof fn lemma_committee_sizes_bounded(&self)
        requires
            self.inv(),
        ensures
            self.committee_size_or_zero(0) + self.committee_size_or_zero(1)
                + self.committee_size_or_zero(2) <= self.nodes@.len(),
    {
        let n = self.nodes@.len();
        let c = self.c();
        let q = n / c;
        let rem = n % c;
        vstd::arithmetic::div_mod::lemma_fundamental_div_mod(n as int, c as int);
        vstd::arithmetic::div_mod::lemma_mod_bound(n as int, c as int);
        assert(n as int == (c as int) * (q as int) + rem as int);
        assert forall|k: int| 0 <= k < c implies self.committee_size_or_zero(k) == part_size(
            n,
            c,
            k as nat,
        ) by {}
        if c >= 3 {
            assert(3 * (q as int) <= (c as int) * (q as int)) by (nonlinear_arith)
                requires
                    c >= 3,
                    q >= 0,
            ;
        } else if c == 2 {
            assert((c as int) * (q as int) == 2 * (q as int)) by (nonlinear_arith)
                requires
                    c == 2,
            ;
        } else {
            assert((c as int) * (q as int) == q as int) by (nonlinear_arith)
                requires
                    c == 1,
            ;
        }
    }

    /// Build the next view's overlay: same validator set, fresh entropy, and
    /// the leader this overlay already determined.
    pub fn advance(&self, entropy: [u8; 32], leader: RoundRobin) -> (o: TreeOverlay)
        requires
            self.inv(),
        ensures
            o.built_from(
                self.nodes@,
                picked_of(self.nodes@, self.entropy@),
                entropy@,
                self.c(),
            ),
            o.inv(),
    {
        let next = self.next_leader();
        proof {
            crate::committee::lemma_strict_sorted_distinct(self.committee_seq(0));
        }
        TreeOverlay::new(
            TreeOverlaySettings {
                nodes: copy_nodes(&self.nodes),
                current_leader: next,
                entropy,
                number_of_committees: self.number_of_committees,
                leader,
                shuffer: self.shuffer,
            },
        )
    }

    /// The leader of a view: round robin over the shuffled node sequence.
    pub fn leader_for_view(&self, view: u64) -> (r: NodeId)
        requires
            self.inv(),
        ensures
            r == self.nodes@[view as int % self.nodes@.len() as int],
    {
        let n = self.nodes.len();
        let idx = (view % (n as u64)) as usize;
        self.nodes[idx]
    }

    pub fn is_leader(&self, id: &NodeId) -> (r: bool)
        ensures
            r == (*id == self.current_leader),
    {
        *id == self.current_leader
    }

    pub fn leader(&self) -> (r: &NodeId)
        ensures
            *r == self.current_leader,
    {
        &self.current_leader
    }
}

/// Members of committees without children.
pub open spec fn leaf_members(o: TreeOverlay) -> Set<NodeId> {
    Set::new(
        |x: NodeId|
            exists|k: int|
                0 <= k < o.c() && is_leaf_idx(o.c(), k as nat) && o.in_committee(k, x),
    )
}

/// Members of committees with children.
pub open spec fn internal_members(o: TreeOverlay) -> Set<NodeId> {
    Set::new(
        |x: NodeId|
            exists|k: int|
                0 <= k < o.c() && !is_leaf_idx(o.c(), k as nat) && o.in_committee(k, x),
    )
}

/// Leaf members and internal members partition the validator set: together
/// they are all the nodes, and no node is both.
pub proof fn lemma_leaf_internal_partition(o: TreeOverlay)
    requires
        o.inv(),
    ensures
        leaf_members(o).union(internal_members(o)) =~= o.nodes@.to_set(),
        leaf_members(o).intersect(internal_members(o)) =~= Set::<NodeId>::empty(),
{
    assert forall|x: NodeId| leaf_members(o).union(internal_members(o)).contains(x) implies o.nodes@
        .to_set().contains(x) by {
        lemma_tree_covers(o.carnot_tree, o.nodes@, o.c(), x);
        let k = choose|k: int| 0 <= k < o.c() && o.in_committee(k, x);
        assert(o.committee_seq(k).to_set().contains(x));
    }
    assert forall|x: NodeId| o.nodes@.to_set().contains(x) implies leaf_members(o).union(
        internal_members(o),
    ).contains(x) by {
        lemma_tree_covers(o.carnot_tree, o.nodes@, o.c(), x);
        let k = choose|k: int|
            0 <= k < o.c() && (#[trigger] o.carnot_tree.membership_committees@[k])@.to_set()
                .contains(x);
        assert(o.in_committee(k, x));
        if is_leaf_idx(o.c(), k as nat) {
            assert(leaf_members(o).contains(x));
        } else {
            assert(internal_members(o).contains(x));
        }
    }
    assert forall|x: NodeId| !(leaf_members(o).contains(x) && internal_members(o).contains(x)) by {
        if leaf_members(o).contains(x) && internal_members(o).contains(x) {
            let k1 = choose|k: int|
                0 <= k < o.c() && is_leaf_idx(o.c(), k as nat) && o.in_committee(k, x);
            let k2 = choose|k: int|
                0 <= k < o.c() && !is_leaf_idx(o.c(), k as nat) && o.in_committee(k, x);
            o.lemma_member_unique(k1, k2, x);
        }
    }
}

/// Two overlays built from the same nodes, leader, entropy and committee
/// count are structurally identical.
pub proof fn lemma_overlay_deterministic(
    o1: TreeOverlay,
    o2: TreeOverlay,
    nodes0: Seq<NodeId>,
    leader0: NodeId,
    entropy0: Seq<u8>,
    c: nat,
)
    requires
        o1.built_from(nodes0, leader0, entropy0, c),
        o2.built_from(nodes0, leader0, entropy0, c),
    ensures
        o1.nodes@ == o2.nodes@,
        o1.current_leader == o2.current_leader,
        o1.c() == o2.c(),
        o1.carnot_tree.membership_committees@.len() == o2.carnot_tree.membership_committees@.len(),
        forall|k: int| 0 <= k < c ==> o1.committee_seq(k) == o2.committee_seq(k),
        forall|k: int|
            0 <= k < c ==> o1.carnot_tree.inner_committees@[k] == o2.carnot_tree.inner_committees@[k],
{
    assert(o1.nodes@ == shuffled_of(nodes0, entropy0));
    assert(o2.nodes@ == shuffled_of(nodes0, entropy0));
    assert forall|k: int| 0 <= k < c implies o1.committee_seq(k) == o2.committee_seq(k) by {
        assert(o1.committee_seq(k).to_set() == part_members(o1.nodes@, c, k as nat).to_set());
        assert(o2.committee_seq(k).to_set() == part_members(o2.nodes@, c, k as nat).to_set());
        lemma_strict_sorted_unique(o1.committee_seq(k), o2.committee_seq(k));
    }
    assert forall|k: int| 0 <= k < c implies o1.carnot_tree.inner_committees@[k]
        == o2.carnot_tree.inner_committees@[k] by {
        assert(o1.carnot_tree.inner_committees@[k]@ == committee_tag(o1.committee_seq(k)));
        assert(o2.carnot_tree.inner_committees@[k]@ == committee_tag(o2.committee_seq(k)));
        lemma_committee_id_ext(
            o1.carnot_tree.inner_committees@[k],
            o2.carnot_tree.inner_committees@[k],
        );
    }
}

} // verus!
