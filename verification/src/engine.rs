//! The Carnot consensus state machine: one node's view of the protocol.
//! Every transition mutates the state in place and says in its contract how
//! the new state relates to the old one; none of them panics.

use vstd::prelude::*;
use crate::types::{NodeId, BlockId};
use crate::committee::Committee;
use crate::qc::{StandardQc, Qc, Block, Vote, Timeout, TimeoutQc, NewView, Payload, Output};
use crate::overlay::TreeOverlay;

verus! {

/// Some block of `s` carries this id.
pub open spec fn sb_has(s: Seq<Block>, id: BlockId) -> bool {
    exists|i: int| 0 <= i < s.len() && s[i].id == id
}

/// Index of the block of `s` with this id (unique when ids are unique).
pub open spec fn sb_idx(s: Seq<Block>, id: BlockId) -> int {
    choose|i: int| 0 <= i < s.len() && s[i].id == id
}

/// The block of `s` with this id.
pub open spec fn sb_get(s: Seq<Block>, id: BlockId) -> Block {
    s[sb_idx(s, id)]
}

/// No two blocks of `s` share an id.
pub open spec fn sb_unique(s: Seq<Block>) -> bool {
    forall|i: int, j: int|
        0 <= i < j < s.len() ==> (#[trigger] s[i]).id != (#[trigger] s[j]).id
}

/// With unique ids, the block found for `s[i].id` is `s[i]` itself.
pub proof fn lemma_sb_at(s: Seq<Block>, i: int)
    requires
        sb_unique(s),
        0 <= i < s.len(),
    ensures
        sb_has(s, s[i].id),
        sb_idx(s, s[i].id) == i,
        sb_get(s, s[i].id) == s[i],
{
    assert(sb_has(s, s[i].id));
    let j = sb_idx(s, s[i].id);
    assert(0 <= j < s.len() && s[j].id == s[i].id);
    if i < j {
        assert(s[i].id != s[j].id);
    } else if j < i {
        assert(s[j].id != s[i].id);
    }
}

/// Pushing a fresh block moves no existing lookup.
pub proof fn lemma_sb_push(s: Seq<Block>, b: Block, id: BlockId)
    requires
        sb_unique(s.push(b)),
        sb_has(s, id),
    ensures
        sb_has(s.push(b), id),
        sb_get(s.push(b), id) == sb_get(s, id),
{
    assert(sb_unique(s)) by {
        assert forall|i: int, j: int|
            0 <= i < j < s.len() implies (#[trigger] s[i]).id != (#[trigger] s[j]).id by {
            assert(s.push(b)[i] == s[i]);
            assert(s.push(b)[j] == s[j]);
        }
    }
    let w = sb_idx(s, id);
    assert(0 <= w < s.len() && s[w].id == id);
    assert(s.push(b)[w] == s[w]);
    lemma_sb_at(s.push(b), w);
    lemma_sb_at(s, w);
}

/// The largest of `acc` and the high certificates of `nvs`, by view.
pub open spec fn fold_max_qc(nvs: Seq<NewView>, acc: StandardQc) -> StandardQc
    decreases nvs.len(),
{
    if nvs.len() == 0 {
        acc
    } else {
        let m = fold_max_qc(nvs.drop_last(), acc);
        if nvs.last().high_qc.view > m.view {
            nvs.last().high_qc
        } else {
            m
        }
    }
}

/// Per-node protocol state.
pub struct Carnot {
    pub id: NodeId,
    pub current_view: u64,
    pub highest_voted_view: u64,
    pub local_high_qc: StandardQc,
    pub safe_blocks: Vec<Block>,
    pub last_view_timeout_qc: Option<TimeoutQc>,
    pub latest_committed_block: Block,
    pub overlay: TreeOverlay,
}

impl Carnot {
    pub open spec fn blocks(&self) -> Seq<Block> {
        self.safe_blocks@
    }

    pub open spec fn has_block(&self, id: BlockId) -> bool {
        sb_has(self.blocks(), id)
    }

    pub open spec fn get_block(&self, id: BlockId) -> Block {
        sb_get(self.blocks(), id)
    }

    /// Every non-genesis safe block has its parent among the safe blocks, at
    /// a strictly smaller view.
    pub open spec fn parents_ok(&self) -> bool {
        forall|i: int|
            0 <= i < self.blocks().len() && (#[trigger] self.blocks()[i]).view > 0 ==> {
                &&& sb_has(self.blocks(), self.blocks()[i].parent_spec())
                &&& sb_get(self.blocks(), self.blocks()[i].parent_spec()).view
                    < self.blocks()[i].view
            }
    }

    /// Well-formedness, established by `from_genesis` and kept by every
    /// transition.
    pub open spec fn wf(&self) -> bool {
        &&& sb_unique(self.blocks())
        &&& self.parents_ok()
        &&& self.overlay.inv()
        &&& self.has_block(self.latest_committed_block.id)
        &&& self.get_block(self.latest_committed_block.id) == self.latest_committed_block
    }

    /// The view of the most recently committed block.
    pub open spec fn latest_committed_view_spec(&self) -> u64 {
        self.latest_committed_block.view
    }

    /// Initial state: view 0, the genesis block safe and committed.
    pub fn from_genesis(id: NodeId, genesis_block: Block, overlay: TreeOverlay) -> (r: Carnot)
        requires
            overlay.inv(),
            genesis_block.view == 0,
        ensures
            r.wf(),
            r.id == id,
            r.current_view == 0,
            r.highest_voted_view == 0,
            r.local_high_qc == (StandardQc { view: 0u64, id: genesis_block.id }),
            r.blocks() == seq![genesis_block],
            (r.last_view_timeout_qc is None),
            r.latest_committed_block == genesis_block,
            r.overlay == overlay,
    {
        let r = Carnot {
            id,
            current_view: 0,
            highest_voted_view: 0,
            local_high_qc: StandardQc { view: 0, id: genesis_block.id },
            safe_blocks: vec![genesis_block],
            last_view_timeout_qc: None,
            latest_committed_block: genesis_block,
            overlay,
        };
        proof {
            assert(r.blocks() =~= seq![genesis_block]);
            lemma_sb_at(r.blocks(), 0);
        }
        r
    }

    /// Find the safe block with this id.
    pub fn find_block(&self, id: &BlockId) -> (r: Option<Block>)
        requires
            sb_unique(self.blocks()),
        ensures
            match r {
                Some(b) => self.has_block(*id) && b == self.get_block(*id),
                None => !self.has_block(*id),
            },
    {
        let mut i: usize = 0;
        while i < self.safe_blocks.len()
            invariant
                sb_unique(self.blocks()),
                0 <= i <= self.blocks().len(),
                forall|j: int| 0 <= j < i ==> (#[trigger] self.blocks()[j]).id != *id,
            decreases self.blocks().len() - i,
        {
            if self.safe_blocks[i].id == *id {
                proof {
                    lemma_sb_at(self.blocks(), i as int);
                }
                return Some(self.safe_blocks[i]);
            }
            i += 1;
        }
        None
    }

    /// `block` would equivocate: a different safe block sits at its view.
    pub open spec fn equivocates(&self, block: Block) -> bool {
        exists|i: int|
            0 <= i < self.blocks().len() && (#[trigger] self.blocks()[i]).view == block.view
                && self.blocks()[i].id != block.id
    }

    /// `receive_block` accepts exactly these blocks: the parent is safe, the
    /// parent certificate sits one view below the block (so a recovery block
    /// carrying an aggregate certificate is admitted), the parent block is
    /// strictly older, the block is not older than the current view, nothing
    /// at its view conflicts, and a block re-delivered under a known id is
    /// unchanged.
    pub open spec fn accepts(&self, block: Block) -> bool {
        &&& self.has_block(block.parent_spec())
        &&& block.parent_qc.view_spec() + 1 == block.view
        &&& self.get_block(block.parent_spec()).view < block.view
        &&& block.view >= self.current_view
        &&& !self.equivocates(block)
        &&& self.has_block(block.id) ==> self.get_block(block.id) == block
    }

    /// Take a proposal into the safe blocks. On acceptance the block is
    /// stored, the high certificate rises to the parent certificate when that
    /// one is higher, and the current view follows the block's view. A
    /// rejected block changes nothing.
    #[verifier::rlimit(60)]
    pub fn receive_block(&mut self, block: Block) -> (r: Result<(), ()>)
        requires
            old(self).wf(),
        ensures
            final(self).wf(),
            (r is Ok) <==> old(self).accepts(block),
            final(self).id == old(self).id,
            final(self).highest_voted_view == old(self).highest_voted_view,
            final(self).overlay == old(self).overlay,
            final(self).latest_committed_block == old(self).latest_committed_block,
            final(self).last_view_timeout_qc == old(self).last_view_timeout_qc,
            final(self).current_view >= old(self).current_view,
            final(self).local_high_qc.view >= old(self).local_high_qc.view,
            (r is Err) ==> *final(self) == *old(self),
            (r is Ok) ==> final(self).blocks() == (if old(self).has_block(block.id) {
                old(self).blocks()
            } else {
                old(self).blocks().push(block)
            }),
            (r is Ok) ==> final(self).current_view == block.view,
            (r is Ok) ==> final(self).local_high_qc == (if block.parent_qc.high_qc_spec().view
                > old(self).local_high_qc.view {
                block.parent_qc.high_qc_spec()
            } else {
                old(self).local_high_qc
            }),
    {
        let parent = match self.find_block(&block.parent()) {
            Some(p) => p,
            None => {
                return Err(());
            },
        };
        let qc_view = block.parent_qc.view();
        if !(qc_view < u64::MAX && qc_view + 1 == block.view && parent.view < block.view
            && block.view >= self.current_view) {
            return Err(());
        }
        // reject a second block at the same view
        let mut i: usize = 0;
        while i < self.safe_blocks.len()
            invariant
                *self == *old(self),
                old(self).wf(),
                0 <= i <= self.blocks().len(),
                forall|j: int|
                    0 <= j < i ==> !((#[trigger] self.blocks()[j]).view == block.view
                        && self.blocks()[j].id != block.id),
            decreases self.blocks().len() - i,
        {
            if self.safe_blocks[i].view == block.view && !(self.safe_blocks[i].id == block.id) {
                proof {
                    assert(old(self).equivocates(block));
                }
                return Err(());
            }
            i += 1;
        }
        match self.find_block(&block.id) {
            Some(existing) => {
                if !(existing == block) {
                    return Err(());
                }
            },
            None => {
                let ghost before = self.blocks();
                self.safe_blocks.push(block);
                proof {
                    let now = self.blocks();
                    assert(now == before.push(block));
                    assert forall|a: int, b: int|
                        0 <= a < b < now.len() implies (#[trigger] now[a]).id
                        != (#[trigger] now[b]).id by {
                        if b == now.len() - 1 {
                            if now[a].id == block.id {
                                assert(before[a].id == block.id);
                                assert(sb_has(before, block.id));
                            }
                        } else {
                            assert(before[a].id != before[b].id);
                        }
                    }
                    assert forall|a: int|
                        0 <= a < now.len() && (#[trigger] now[a]).view > 0 implies {
                        &&& sb_has(now, now[a].parent_spec())
                        &&& sb_get(now, now[a].parent_spec()).view < now[a].view
                    } by {
                        if a < now.len() - 1 {
                            assert(now[a] == before[a]);
                            assert(sb_has(before, before[a].parent_spec()));
                            lemma_sb_push(before, block, before[a].parent_spec());
                        } else {
                            assert(now[a] == block);
                            assert(sb_has(before, block.parent_spec()));
                            lemma_sb_push(before, block, block.parent_spec());
                        }
                    }
                    lemma_sb_push(before, block, old(self).latest_committed_block.id);
                }
            },
        }
        // raise the high certificate when the parent certificate is higher
        let pq = block.parent_qc.high_qc();
        if pq.view > self.local_high_qc.view {
            self.local_high_qc = pq;
        }
        // the view follows the accepted proposal
        if block.view > self.current_view {
            self.current_view = block.view;
        }
        Ok(())
    }

    /// The chain `grandparent <- parent <- block` sits in the safe blocks
    /// with consecutive views.
    pub open spec fn three_chain(&self, block: Block) -> bool {
        &&& self.has_block(block.parent_spec())
        &&& {
            let p = self.get_block(block.parent_spec());
            &&& block.view == p.view + 1
            &&& self.has_block(p.parent_spec())
            &&& {
                let g = self.get_block(p.parent_spec());
                p.view == g.view + 1
            }
        }
    }

    /// The grandparent of `block` through the safe blocks.
    pub open spec fn grandparent_spec(&self, block: Block) -> Block {
        self.get_block(self.get_block(block.parent_spec()).parent_spec())
    }

    /// Vote for a safe block: raise the highest voted view to the block's
    /// view, commit the grandparent when the three-chain rule fires, and hand
    /// the vote to the parent committee.
    #[verifier::rlimit(100)]
    pub fn approve_block(&mut self, block: Block) -> (r: Output)
        requires
            old(self).wf(),
            old(self).has_block(block.id),
            old(self).get_block(block.id) == block,
            block.view > old(self).highest_voted_view,
        ensures
            final(self).wf(),
            final(self).id == old(self).id,
            final(self).current_view == old(self).current_view,
            final(self).local_high_qc == old(self).local_high_qc,
            final(self).blocks() == old(self).blocks(),
            final(self).overlay == old(self).overlay,
            final(self).last_view_timeout_qc == old(self).last_view_timeout_qc,
            final(self).highest_voted_view == block.view,
            final(self).latest_committed_block == (if old(self).three_chain(block) && old(
                self,
            ).grandparent_spec(block).view > old(self).latest_committed_view_spec() {
                old(self).grandparent_spec(block)
            } else {
                old(self).latest_committed_block
            }),
            ({
                &&& r matches Output::Send { to, payload }
                &&& to@ == old(self).overlay.parent_committee_view(old(self).id)
                &&& payload == Payload::Vote(Vote { view: block.view, block: block.id })
            }),
    {
        self.highest_voted_view = block.view;
        // three-chain commit: grandparent of the approved block
        if let Some(parent) = self.find_block(&block.parent()) {
            if parent.view < u64::MAX && block.view == parent.view + 1 {
                if let Some(grandparent) = self.find_block(&parent.parent()) {
                    if grandparent.view < u64::MAX && parent.view == grandparent.view + 1
                        && grandparent.view > self.latest_committed_block.view {
                        self.latest_committed_block = grandparent;
                        proof {
                            lemma_sb_at(
                                self.blocks(),
                                sb_idx(
                                    self.blocks(),
                                    sb_get(self.blocks(), block.parent_spec()).parent_spec(),
                                ),
                            );
                        }
                    }
                }
            }
        }
        let to = self.overlay.parent_committee(self.id);
        Output::Send { to, payload: Payload::Vote(Vote { view: block.view, block: block.id }) }
    }

    /// A timeout certificate for the current view or later moves the node to
    /// the view after it and records the certificate; a stale one changes
    /// nothing.
    pub fn receive_timeout_qc(&mut self, timeout_qc: TimeoutQc)
        requires
            old(self).wf(),
            timeout_qc.view < u64::MAX,
        ensures
            final(self).wf(),
            final(self).current_view >= old(self).current_view,
            final(self).highest_voted_view == old(self).highest_voted_view,
            timeout_qc.view >= old(self).current_view ==> {
                &&& final(self).current_view == timeout_qc.view + 1
                &&& final(self).last_view_timeout_qc == Some(timeout_qc)
            },
            timeout_qc.view < old(self).current_view ==> *final(self) == *old(self),
            final(self).id == old(self).id,
            final(self).local_high_qc == old(self).local_high_qc,
            final(self).blocks() == old(self).blocks(),
            final(self).overlay == old(self).overlay,
            final(self).latest_committed_block == old(self).latest_committed_block,
    {
        if timeout_qc.view >= self.current_view {
            self.current_view = timeout_qc.view + 1;
            self.last_view_timeout_qc = Some(timeout_qc);
        }
    }

    /// Vote for the view after a timeout: move there, guard against a second
    /// vote in it, and hand the new-view vote, carrying the highest
    /// certificate seen among the aggregated votes, to the node's committee.
    pub fn approve_new_view(&mut self, timeout_qc: TimeoutQc, new_views: Vec<NewView>) -> (r:
        Output)
        requires
            old(self).wf(),
            timeout_qc.view < u64::MAX,
            old(self).highest_voted_view < timeout_qc.view + 1,
            old(self).current_view <= timeout_qc.view + 1,
        ensures
            final(self).wf(),
            final(self).id == old(self).id,
            final(self).current_view == timeout_qc.view + 1,
            final(self).highest_voted_view == timeout_qc.view + 1,
            final(self).blocks() == old(self).blocks(),
            final(self).overlay == old(self).overlay,
            final(self).latest_committed_block == old(self).latest_committed_block,
            final(self).last_view_timeout_qc == old(self).last_view_timeout_qc,
            final(self).current_view >= old(self).current_view,
            final(self).highest_voted_view >= old(self).highest_voted_view,
            final(self).local_high_qc.view >= old(self).local_high_qc.view,
            final(self).local_high_qc == (if fold_max_qc(new_views@, timeout_qc.high_qc).view
                > old(self).local_high_qc.view {
                fold_max_qc(new_views@, timeout_qc.high_qc)
            } else {
                old(self).local_high_qc
            }),
            ({
                &&& r matches Output::Send { to, payload }
                &&& to@ == old(self).overlay.node_committee_view(old(self).id)
                &&& payload == Payload::NewView(
                    NewView {
                        view: (timeout_qc.view + 1) as u64,
                        sender: old(self).id,
                        timeout_qc,
                        high_qc: fold_max_qc(new_views@, timeout_qc.high_qc),
                    },
                )
            }),
    {
        let mut high = timeout_qc.high_qc;
        let mut i: usize = 0;
        proof {
            assert(new_views@.subrange(0, 0) =~= Seq::<NewView>::empty());
        }
        while i < new_views.len()
            invariant
                0 <= i <= new_views@.len(),
                high == fold_max_qc(new_views@.subrange(0, i as int), timeout_qc.high_qc),
            decreases new_views@.len() - i,
        {
            let nv = new_views[i];
            proof {
                let upto = new_views@.subrange(0, i + 1);
                assert(upto.drop_last() =~= new_views@.subrange(0, i as int));
                assert(upto.last() == new_views@[i as int]);
            }
            if nv.high_qc.view > high.view {
                high = nv.high_qc;
            }
            i += 1;
        }
        proof {
            assert(new_views@.subrange(0, new_views@.len() as int) =~= new_views@);
        }
        let next_view = timeout_qc.view + 1;
        self.current_view = next_view;
        self.highest_voted_view = next_view;
        if high.view > self.local_high_qc.view {
            self.local_high_qc = high;
        }
        let to = self.overlay.node_committee(self.id);
        Output::Send {
            to,
            payload: Payload::NewView(
                NewView { view: next_view, sender: self.id, timeout_qc, high_qc: high },
            ),
        }
    }

    /// The view timer fired: give up voting in this view, and, as a root
    /// member, hand a timeout signal to the root committee.
    pub fn local_timeout(&mut self) -> (r: Option<Output>)
        requires
            old(self).wf(),
        ensures
            final(self).wf(),
            final(self).highest_voted_view == (if old(self).current_view > old(
                self,
            ).highest_voted_view {
                old(self).current_view
            } else {
                old(self).highest_voted_view
            }),
            final(self).highest_voted_view >= old(self).highest_voted_view,
            final(self).id == old(self).id,
            final(self).current_view == old(self).current_view,
            final(self).local_high_qc == old(self).local_high_qc,
            final(self).blocks() == old(self).blocks(),
            final(self).overlay == old(self).overlay,
            final(self).latest_committed_block == old(self).latest_committed_block,
            final(self).last_view_timeout_qc == old(self).last_view_timeout_qc,
            old(self).overlay.in_committee(0, old(self).id) ==> ({
                &&& r matches Some(o)
                &&& o matches Output::Send { to, payload }
                &&& to@ == old(self).overlay.committee_seq(0)
                &&& payload == Payload::Timeout(
                    Timeout {
                        view: old(self).current_view,
                        sender: old(self).id,
                        high_qc: old(self).local_high_qc,
                    },
                )
            }),
            !old(self).overlay.in_committee(0, old(self).id) ==> (r is None),
    {
        if self.current_view > self.highest_voted_view {
            self.highest_voted_view = self.current_view;
        }
        if self.overlay.is_member_of_root_committee(self.id) {
            let to = self.overlay.root_committee();
            Some(
                Output::Send {
                    to,
                    payload: Payload::Timeout(
                        Timeout {
                            view: self.current_view,
                            sender: self.id,
                            high_qc: self.local_high_qc,
                        },
                    ),
                },
            )
        } else {
            None
        }
    }

    /// The committed chain: the latest committed block and its ancestors,
    /// newest first, down to the genesis block. Each entry is safe, each
    /// later entry is the parent of the one before it, and the views fall
    /// strictly along the chain.
    pub fn committed_blocks(&self) -> (r: Vec<BlockId>)
        requires
            self.wf(),
        ensures
            r@.len() >= 1,
            r@[0] == self.latest_committed_block.id,
            forall|i: int| 0 <= i < r@.len() ==> self.has_block(#[trigger] r@[i]),
            forall|i: int|
                0 <= i < r@.len() - 1 ==> #[trigger] r@[i + 1] == self.get_block(
                    r@[i],
                ).parent_spec(),
            forall|i: int|
                0 <= i < r@.len() - 1 ==> self.get_block(#[trigger] r@[i + 1]).view
                    < self.get_block(r@[i]).view,
            self.get_block(r@[r@.len() - 1]).view == 0,
    {
        let mut r: Vec<BlockId> = Vec::new();
        let mut cur: Block = self.latest_committed_block;
        r.push(cur.id);
        while cur.view > 0
            invariant
                self.wf(),
                self.has_block(cur.id),
                self.get_block(cur.id) == cur,
                r@.len() >= 1,
                r@[r@.len() - 1] == cur.id,
                r@[0] == self.latest_committed_block.id,
                forall|i: int| 0 <= i < r@.len() ==> self.has_block(#[trigger] r@[i]),
                forall|i: int|
                    0 <= i < r@.len() - 1 ==> #[trigger] r@[i + 1] == self.get_block(
                        r@[i],
                    ).parent_spec(),
                forall|i: int|
                    0 <= i < r@.len() - 1 ==> self.get_block(#[trigger] r@[i + 1]).view
                        < self.get_block(r@[i]).view,
            decreases cur.view,
        {
            proof {
                let k = sb_idx(self.blocks(), cur.id);
                assert(0 <= k < self.blocks().len() && self.blocks()[k] == cur);
                assert(sb_has(self.blocks(), cur.parent_spec()));
            }
            let p = match self.find_block(&cur.parent()) {
                Some(p) => p,
                None => {
                    proof {
                        assert(false);
                    }
                    cur
                },
            };
            r.push(p.id);
            cur = p;
        }
        r
    }

    /// Blocks sitting at exactly this view.
    pub fn blocks_in_view(&self, view: u64) -> (r: Vec<Block>)
        requires
            self.wf(),
        ensures
            forall|i: int|
                0 <= i < r@.len() ==> (#[trigger] r@[i]).view == view && self.blocks().contains(
                    r@[i],
                ),
            forall|j: int|
                0 <= j < self.blocks().len() && (#[trigger] self.blocks()[j]).view == view
                    ==> r@.contains(self.blocks()[j]),
    {
        let mut r: Vec<Block> = Vec::new();
        let mut i: usize = 0;
        while i < self.safe_blocks.len()
            invariant
                0 <= i <= self.blocks().len(),
                forall|m: int|
                    0 <= m < r@.len() ==> (#[trigger] r@[m]).view == view
                        && self.blocks().contains(r@[m]),
                forall|j: int|
                    0 <= j < i && (#[trigger] self.blocks()[j]).view == view ==> r@.contains(
                        self.blocks()[j],
                    ),
            decreases self.blocks().len() - i,
        {
            if self.safe_blocks[i].view == view {
                let ghost before = r@;
                r.push(self.safe_blocks[i]);
                proof {
                    assert(self.blocks().contains(self.blocks()[i as int]));
                    assert(r@ == before.push(self.blocks()[i as int]));
                    assert(r@[r@.len() - 1] == self.blocks()[i as int]);
                    assert forall|j: int|
                        0 <= j < i + 1 && (#[trigger] self.blocks()[j]).view
                            == view implies r@.contains(self.blocks()[j]) by {
                        if j < i {
                            let m = choose|m: int| 0 <= m < before.len() && before[m]
                                == self.blocks()[j];
                            assert(r@[m] == self.blocks()[j]);
                        } else {
                            assert(r@[r@.len() - 1] == self.blocks()[j]);
                        }
                    }
                }
            }
            i += 1;
        }
        r
    }

    // ---- read-only views of the state ----

    pub fn id(&self) -> (r: NodeId)
        ensures
            r == self.id,
    {
        self.id
    }

    pub fn current_view(&self) -> (r: u64)
        ensures
            r == self.current_view,
    {
        self.current_view
    }

    pub fn highest_voted_view(&self) -> (r: u64)
        ensures
            r == self.highest_voted_view,
    {
        self.highest_voted_view
    }

    pub fn high_qc(&self) -> (r: StandardQc)
        ensures
            r == self.local_high_qc,
    {
        self.local_high_qc
    }

    pub fn latest_committed_block(&self) -> (r: Block)
        ensures
            r == self.latest_committed_block,
    {
        self.latest_committed_block
    }

    pub fn latest_committed_view(&self) -> (r: u64)
        ensures
            r == self.latest_committed_view_spec(),
    {
        self.latest_committed_block.view
    }

    pub fn last_view_timeout_qc(&self) -> (r: Option<TimeoutQc>)
        ensures
            r == self.last_view_timeout_qc,
    {
        self.last_view_timeout_qc
    }

    pub fn overlay(&self) -> (r: &TreeOverlay)
        ensures
            r == &self.overlay,
    {
        &self.overlay
    }

    pub fn is_member_of_root_committee(&self) -> (r: bool)
        requires
            self.wf(),
        ensures
            r == self.overlay.in_committee(0, self.id),
    {
        self.overlay.is_member_of_root_committee(self.id)
    }

    pub fn root_committee(&self) -> (r: Committee)
        requires
            self.wf(),
        ensures
            r@ == self.overlay.committee_seq(0),
    {
        self.overlay.root_committee()
    }

    pub fn parent_committee(&self) -> (r: Committee)
        requires
            self.wf(),
        ensures
            r@ == self.overlay.parent_committee_view(self.id),
    {
        self.overlay.parent_committee(self.id)
    }

    pub fn self_committee(&self) -> (r: Committee)
        requires
            self.wf(),
        ensures
            r@ == self.overlay.node_committee_view(self.id),
    {
        self.overlay.node_committee(self.id)
    }

    pub fn child_committees(&self) -> (r: Vec<Committee>)
        requires
            self.wf(),
        ensures
            !self.overlay.is_member(self.id) ==> r@.len() == 0,
            self.overlay.is_member(self.id) ==> ({
                let k = self.overlay.member_idx_spec(self.id);
                &&& r@.len() == (if 2 * k + 1 < self.overlay.c() {
                    1int
                } else {
                    0int
                }) + (if 2 * k + 2 < self.overlay.c() {
                    1int
                } else {
                    0int
                })
                &&& 2 * k + 1 < self.overlay.c() ==> r@[0]@ == self.overlay.committee_seq(2 * k + 1)
                &&& 2 * k + 2 < self.overlay.c() ==> r@[1]@ == self.overlay.committee_seq(2 * k + 2)
            }),
            forall|m: int| 0 <= m < r@.len() ==> (#[trigger] r@[m]).inv(),
    {
        self.overlay.child_committees(self.id)
    }

    /// The leader of `view`: round robin over the shuffled node sequence.
    pub fn leader(&self, view: u64) -> (r: NodeId)
        requires
            self.wf(),
        ensures
            r == self.overlay.nodes@[view as int % self.overlay.nodes@.len() as int],
    {
        self.overlay.leader_for_view(view)
    }

    pub fn is_leader_for_view(&self, view: u64) -> (r: bool)
        requires
            self.wf(),
        ensures
            r == (self.id == self.overlay.nodes@[view as int % self.overlay.nodes@.len() as int]),
    {
        let l = self.overlay.leader_for_view(view);
        self.id == l
    }

    pub fn super_majority_threshold(&self) -> (r: usize)
        requires
            self.wf(),
            self.overlay.is_member(self.id),
        ensures
            ({
                let k = self.overlay.member_idx_spec(self.id);
                r == if crate::overlay::is_leaf_idx(self.overlay.c(), k as nat) {
                    0int
                } else {
                    2 * self.overlay.committee_seq(k).len() as int / 3 + 1
                }
            }),
    {
        self.overlay.super_majority_threshold(self.id)
    }

    pub fn leader_super_majority_threshold(&self) -> (r: usize)
        requires
            self.wf(),
        ensures
            r == 2 * (self.overlay.committee_size_or_zero(0) + self.overlay.committee_size_or_zero(
                1,
            ) + self.overlay.committee_size_or_zero(2)) as int / 3 + 1,
    {
        self.overlay.leader_super_majority_threshold(self.id)
    }
}

/// A node never casts two votes in one view: a vote only goes out for a view
/// above the highest voted view, which the transition then raises to that
/// view. Two successive approvals therefore vote at strictly increasing
/// views, and never for two different blocks in the same view.
pub proof fn lemma_no_double_vote(pre: Carnot, mid: Carnot, b1: Block, b2: Block)
    requires
        b1.view > pre.highest_voted_view,
        mid.highest_voted_view == b1.view,
        b2.view > mid.highest_voted_view,
    ensures
        b2.view > b1.view,
        !(b1.view == b2.view && b1.id != b2.id),
{
}

} // verus!
