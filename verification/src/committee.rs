//! A committee: an ordered set of node identifiers, kept as a strictly
//! sorted vector so that equal member sets are represented identically.

use vstd::prelude::*;
use crate::types::{
    NodeId, node_le, node_lt, lemma_node_le_total, lemma_bytes_le_trans, lemma_bytes_le_antisym,
    lemma_node_id_ext, node_le_exec,
};

verus! {

/// Strictly increasing by the byte order: sorted and free of duplicates.
pub open spec fn strict_sorted(s: Seq<NodeId>) -> bool {
    forall|i: int, j: int| 0 <= i < j < s.len() ==> node_lt(#[trigger] s[i], #[trigger] s[j])
}

pub proof fn lemma_node_lt_trans(a: NodeId, b: NodeId, c: NodeId)
    requires
        node_lt(a, b),
        node_lt(b, c),
    ensures
        node_lt(a, c),
{
    lemma_bytes_le_trans(a@, b@, c@);
    if a == c {
        lemma_bytes_le_antisym(a@, b@);
        lemma_node_id_ext(a, b);
    }
}

/// A strictly sorted sequence mentions each identifier at most once.
pub proof fn lemma_strict_sorted_distinct(s: Seq<NodeId>)
    requires
        strict_sorted(s),
    ensures
        forall|i: int, j: int| 0 <= i < j < s.len() ==> s[i] != s[j],
{
}

/// Two strictly sorted sequences over the same member set are equal.
pub proof fn lemma_strict_sorted_unique(a: Seq<NodeId>, b: Seq<NodeId>)
    requires
        strict_sorted(a),
        strict_sorted(b),
        a.to_set() == b.to_set(),
    ensures
        a == b,
    decreases a.len(),
{
    broadcast use vstd::seq_lib::group_seq_lib_default;

    if a.len() == 0 {
        if b.len() > 0 {
            assert(b.to_set().contains(b[0]));
            assert(a.to_set().contains(b[0]));
        }
        assert(a =~= b);
    } else {
        assert(a.to_set().contains(a[0]));
        assert(b.to_set().contains(a[0]));
        let j = choose|j: int| 0 <= j < b.len() && b[j] == a[0];
        assert(b.to_set().contains(b[0]));
        assert(a.to_set().contains(b[0]));
        let i = choose|i: int| 0 <= i < a.len() && a[i] == b[0];
        if j > 0 {
            assert(node_lt(b[0], b[j]));
            if i > 0 {
                assert(node_lt(a[0], a[i]));
                lemma_node_lt_trans(a[0], a[i], b[j]);
                assert(node_lt(a[0], a[0]));
            } else {
                assert(node_lt(b[0], a[0]) && a[0] == a[i] && a[i] == b[0]);
            }
            assert(false);
        }
        assert(b.len() > 0 && b[0] == a[0]);
        let at = a.drop_first();
        let bt = b.drop_first();
        assert forall|x: NodeId| at.to_set().contains(x) implies bt.to_set().contains(x) by {
            let k = choose|k: int| 0 <= k < at.len() && at[k] == x;
            assert(a[k + 1] == x);
            assert(a.to_set().contains(x));
            assert(b.to_set().contains(x));
            let m = choose|m: int| 0 <= m < b.len() && b[m] == x;
            if m == 0 {
                assert(node_lt(a[0], a[k + 1]));
                assert(x == a[0]);
            } else {
                assert(bt[m - 1] == x);
                assert(bt.to_set().contains(x));
            }
        }
        assert forall|x: NodeId| bt.to_set().contains(x) implies at.to_set().contains(x) by {
            let k = choose|k: int| 0 <= k < bt.len() && bt[k] == x;
            assert(b[k + 1] == x);
            assert(b.to_set().contains(x));
            assert(a.to_set().contains(x));
            let m = choose|m: int| 0 <= m < a.len() && a[m] == x;
            if m == 0 {
                assert(node_lt(b[0], b[k + 1]));
                assert(x == b[0]);
            } else {
                assert(at[m - 1] == x);
                assert(at.to_set().contains(x));
            }
        }
        assert(at.to_set() =~= bt.to_set());
        lemma_strict_sorted_unique(at, bt);
        assert(a =~= seq![a[0]].add(at));
        assert(b =~= seq![b[0]].add(bt));
    }
}

/// Ordered set of `NodeId`, the unit of vote aggregation.
#[derive(Clone, Debug)]
pub struct Committee {
    members: Vec<NodeId>,
}

impl View for Committee {
    type V = Seq<NodeId>;

    closed spec fn view(&self) -> Seq<NodeId> {
        self.members@
    }
}

impl Committee {
    /// Well-formed: members strictly sorted, hence unique.
    pub open spec fn inv(&self) -> bool {
        strict_sorted(self@)
    }

    /// Member set, the committee's identity.
    pub open spec fn member_set(&self) -> Set<NodeId> {
        self@.to_set()
    }

    pub fn new() -> (r: Committee)
        ensures
            r@ == Seq::<NodeId>::empty(),
            r.inv(),
    {
        Committee { members: Vec::new() }
    }

    pub fn len(&self) -> (r: usize)
        ensures
            r == self@.len(),
    {
        self.members.len()
    }

    pub fn is_empty(&self) -> (r: bool)
        ensures
            r == (self@.len() == 0),
    {
        self.members.len() == 0
    }

    pub fn contains(&self, n: &NodeId) -> (r: bool)
        ensures
            r == self@.contains(*n),
    {
        let mut i: usize = 0;
        while i < self.members.len()
            invariant
                0 <= i <= self.members@.len(),
                forall|k: int| 0 <= k < i ==> self.members@[k] != *n,
            decreases self.members@.len() - i,
        {
            if self.members[i] == *n {
                return true;
            }
            i += 1;
        }
        false
    }

    /// Insert keeping the strict order; inserting a present member changes nothing.
    pub fn insert(&mut self, n: NodeId)
        requires
            old(self).inv(),
        ensures
            final(self).inv(),
            final(self)@.to_set() == old(self)@.to_set().insert(n),
            final(self)@.len() <= old(self)@.len() + 1,
            old(self)@.contains(n) ==> final(self)@ == old(self)@,
    {
        let ghost orig = self.members@;
        let mut i: usize = 0;
        while i < self.members.len() && !node_le_exec(&n, &self.members[i])
            invariant
                self.members@ == orig,
                0 <= i <= orig.len(),
                forall|k: int| 0 <= k < i ==> node_lt(#[trigger] orig[k], n),
            decreases orig.len() - i,
        {
            proof {
                lemma_node_le_total(n, orig[i as int]);
            }
            i += 1;
        }
        if i < self.members.len() {
            let same = self.members[i] == n;
            if same {
                proof {
                    assert(orig.contains(n));
                    assert(orig.to_set() =~= orig.to_set().insert(n));
                }
                return;
            }
        }
        proof {
            if orig.contains(n) {
                let k = choose|k: int| 0 <= k < orig.len() && orig[k] == n;
                if k < i {
                    assert(node_lt(orig[k], n));
                } else {
                    if k > i {
                        assert(node_lt(orig[i as int], orig[k]));
                        assert(node_le(n, orig[i as int]));
                        lemma_node_le_total(n, orig[i as int]);
                        lemma_bytes_le_antisym(n@, orig[i as int]@);
                        lemma_node_id_ext(n, orig[i as int]);
                    }
                }
                assert(false);
            }
        }
        self.members.insert(i, n);
        proof {
            let now = self.members@;
            assert(now == orig.insert(i as int, n));
            assert forall|p: int, q: int| 0 <= p < q < now.len() implies node_lt(
                #[trigger] now[p],
                #[trigger] now[q],
            ) by {
                if p < i && q == i {
                    assert(now[p] == orig[p] && now[q] == n);
                } else if p == i && q > i {
                    assert(now[p] == n && now[q] == orig[q - 1]);
                    assert(node_le(n, orig[i as int]));
                    assert(n != orig[i as int]);
                    if q - 1 == i {
                    } else {
                        assert(node_lt(orig[i as int], orig[q - 1]));
                        assert(node_lt(n, orig[i as int]));
                        lemma_node_lt_trans(n, orig[i as int], orig[q - 1]);
                    }
                } else if p < i && q > i {
                    assert(now[p] == orig[p] && now[q] == orig[q - 1]);
                    assert(node_lt(orig[p], n));
                    if q - 1 == i {
                    } else {
                        assert(node_lt(n, orig[i as int]));
                        lemma_node_lt_trans(orig[p], n, orig[i as int]);
                        assert(node_lt(orig[i as int], orig[q - 1]));
                        lemma_node_lt_trans(orig[p], orig[i as int], orig[q - 1]);
                    }
                } else if p < i && q < i {
                    assert(now[p] == orig[p] && now[q] == orig[q]);
                } else {
                    assert(p > i || (p == i && q <= i) || p > q || (p >= i && q > i));
                    if p > i && q > i {
                        assert(now[p] == orig[p - 1] && now[q] == orig[q - 1]);
                    }
                }
            }
            assert forall|x: NodeId| now.to_set().contains(x) implies orig.to_set().insert(
                n,
            ).contains(x) by {
                let k = choose|k: int| 0 <= k < now.len() && now[k] == x;
                if k < i {
                    assert(orig[k] == x);
                } else if k == i {
                    assert(x == n);
                } else {
                    assert(orig[k - 1] == x);
                }
            }
            assert forall|x: NodeId| orig.to_set().insert(n).contains(x) implies now.to_set()
                .contains(x) by {
                if x == n {
                    assert(now[i as int] == n);
                } else {
                    let k = choose|k: int| 0 <= k < orig.len() && orig[k] == x;
                    if k < i {
                        assert(now[k] == x);
                    } else {
                        assert(now[k + 1] == x);
                    }
                }
            }
            assert(now.to_set() =~= orig.to_set().insert(n));
        }
    }

    /// Committee over the given identifiers, duplicates collapsed.
    pub fn from_nodes(v: &Vec<NodeId>) -> (r: Committee)
        ensures
            r.inv(),
            r@.to_set() == v@.to_set(),
            r@.len() <= v@.len(),
    {
        let mut r = Committee::new();
        let mut i: usize = 0;
        proof {
            assert(v@.subrange(0, 0) =~= Seq::<NodeId>::empty());
            assert(r@.to_set() =~= v@.subrange(0, 0).to_set());
        }
        while i < v.len()
            invariant
                r.inv(),
                0 <= i <= v@.len(),
                r@.to_set() == v@.subrange(0, i as int).to_set(),
                r@.len() <= i,
            decreases v@.len() - i,
        {
            r.insert(v[i]);
            proof {
                assert(v@.subrange(0, i + 1) =~= v@.subrange(0, i as int).push(v@[i as int]));
                v@.subrange(0, i as int).lemma_push_to_set_commute(v@[i as int]);
            }
            i += 1;
        }
        proof {
            assert(v@.subrange(0, v@.len() as int) =~= v@);
        }
        r
    }

    /// Insert every identifier of `v`.
    pub fn extend_nodes(&mut self, v: &Vec<NodeId>)
        requires
            old(self).inv(),
        ensures
            final(self).inv(),
            final(self)@.to_set() == old(self)@.to_set().union(v@.to_set()),
    {
        let mut i: usize = 0;
        proof {
            assert(v@.subrange(0, 0) =~= Seq::<NodeId>::empty());
            assert(self@.to_set() =~= old(self)@.to_set().union(v@.subrange(0, 0).to_set()));
        }
        while i < v.len()
            invariant
                self.inv(),
                0 <= i <= v@.len(),
                self@.to_set() == old(self)@.to_set().union(v@.subrange(0, i as int).to_set()),
            decreases v@.len() - i,
        {
            self.insert(v[i]);
            proof {
                assert(v@.subrange(0, i + 1) =~= v@.subrange(0, i as int).push(v@[i as int]));
                v@.subrange(0, i as int).lemma_push_to_set_commute(v@[i as int]);
                assert(old(self)@.to_set().union(v@.subrange(0, i as int).to_set()).insert(
                    v@[i as int],
                ) =~= old(self)@.to_set().union(v@.subrange(0, i + 1).to_set()));
            }
            i += 1;
        }
        proof {
            assert(v@.subrange(0, v@.len() as int) =~= v@);
        }
    }

    /// A committee with the same members.
    pub fn duplicate(&self) -> (r: Committee)
        ensures
            r@ == self@,
    {
        Committee { members: self.members() }
    }

    /// The members, in their sorted order.
    pub fn members(&self) -> (r: Vec<NodeId>)
        ensures
            r@ == self@,
    {
        let mut r: Vec<NodeId> = Vec::new();
        let mut i: usize = 0;
        while i < self.members.len()
            invariant
                0 <= i <= self.members@.len(),
                r@ == self.members@.subrange(0, i as int),
            decreases self.members@.len() - i,
        {
            r.push(self.members[i]);
            proof {
                assert(self.members@.subrange(0, i + 1) =~= self.members@.subrange(
                    0,
                    i as int,
                ).push(self.members@[i as int]));
            }
            i += 1;
        }
        proof {
            assert(self.members@.subrange(0, self.members@.len() as int) =~= self.members@);
        }
        r
    }
}

impl PartialEq for Committee {
    fn eq(&self, other: &Committee) -> (r: bool) {
        if self.members.len() != other.members.len() {
            return false;
        }
        let mut i: usize = 0;
        while i < self.members.len()
            invariant
                0 <= i <= self.members@.len(),
                self.members@.len() == other.members@.len(),
                forall|k: int| 0 <= k < i ==> self.members@[k] == other.members@[k],
            decreases self.members@.len() - i,
        {
            if self.members[i] != other.members[i] {
                return false;
            }
            i += 1;
        }
        proof {
            assert(self.members@ =~= other.members@);
        }
        true
    }
}

impl Eq for Committee {

}

impl vstd::std_specs::cmp::PartialEqSpecImpl for Committee {
    open spec fn obeys_eq_spec() -> bool {
        true
    }

    open spec fn eq_spec(&self, other: &Committee) -> bool {
        self@ == other@
    }
}

} // verus!
