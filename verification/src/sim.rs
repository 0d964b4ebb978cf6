//! Simulation-side helpers: the stalled-view ward that watches node views
//! through a checksum, a cache interface for node state, and the settings of
//! the file subscriber.

use vstd::prelude::*;
use crate::types::NodeId;

verus! {

/// Name for crc32fast's checksum: a function of the bytes alone.
pub uninterp spec fn crc32_of(bytes: Seq<u8>) -> u32;

/// Relies on crc32fast::hash: the CRC-32 checksum of the bytes.
#[verifier::external_body]
fn crc32(bytes: &Vec<u8>) -> (r: u32)
    ensures
        r == crc32_of(bytes@),
{
    crc32fast::hash(bytes.as_slice())
}

/// The big-endian bytes of a sequence of views, concatenated.
pub open spec fn views_bytes(views: Seq<u64>) -> Seq<u8>
    decreases views.len(),
{
    if views.len() == 0 {
        Seq::<u8>::empty()
    } else {
        views_bytes(views.drop_last()) + crate::codec::u64_be(views.last())
    }
}

/// Checksum of the views of a node population, as the ward consumes it.
pub fn checksum_views(views: &Vec<u64>) -> (r: u32)
    ensures
        r == crc32_of(views_bytes(views@)),
{
    let mut buf: Vec<u8> = Vec::new();
    let mut i: usize = 0;
    proof {
        assert(views@.subrange(0, 0) =~= Seq::<u64>::empty());
        assert(buf@ =~= views_bytes(views@.subrange(0, 0)));
    }
    while i < views.len()
        invariant
            0 <= i <= views@.len(),
            buf@ == views_bytes(views@.subrange(0, i as int)),
        decreases views@.len() - i,
    {
        let ghost before = buf@;
        let le = vstd::bytes::u64_to_le_bytes(views[i]);
        proof {
            vstd::bytes::lemma_auto_spec_u64_to_from_le_bytes();
        }
        let mut j: usize = 0;
        while j < 8
            invariant
                0 <= j <= 8,
                le@ == vstd::bytes::spec_u64_to_le_bytes(views@[i as int]),
                le@.len() == 8,
                0 <= i < views@.len(),
                buf@.len() == before.len() + j,
                forall|m: int| 0 <= m < before.len() ==> #[trigger] buf@[m] == before[m],
                forall|m: int|
                    before.len() <= m < buf@.len() ==> #[trigger] buf@[m] == le@[7 - (m
                        - before.len())],
            decreases 8 - j,
        {
            buf.push(le[7 - j]);
            j += 1;
        }
        proof {
            assert(buf@ =~= before + crate::codec::u64_be(views@[i as int]));
            let upto = views@.subrange(0, i + 1);
            assert(upto.drop_last() =~= views@.subrange(0, i as int));
            assert(upto.last() == views@[i as int]);
        }
        i += 1;
    }
    proof {
        assert(views@.subrange(0, views@.len() as int) =~= views@);
    }
    crc32(&buf)
}

/// Watches for a stalled run: when the same checkpoint checksum is seen over
/// and over, the criterion grows until it passes the threshold.
#[derive(Clone, Debug)]
pub struct StalledViewWard {
    /// The checksum last seen, once one has been.
    pub consecutive_viewed_checkpoint: Option<u32>,
    /// How many times in a row it has been seen again.
    pub criterion: usize,
    /// How many repetitions mean the run has stalled.
    pub threshold: usize,
}

impl StalledViewWard {
    pub fn new(threshold: usize) -> (r: StalledViewWard)
        ensures
            (r.consecutive_viewed_checkpoint is None),
            r.criterion == 0,
            r.threshold == threshold,
    {
        StalledViewWard { consecutive_viewed_checkpoint: None, criterion: 0, threshold }
    }

    /// Record one checkpoint checksum: a repetition grows the criterion, a
    /// fresh checksum resets it, the first one only registers.
    pub fn update_state(&mut self, cks: u32)
        requires
            old(self).criterion < usize::MAX,
        ensures
            final(self).threshold == old(self).threshold,
            match old(self).consecutive_viewed_checkpoint {
                Some(cp) => {
                    &&& final(self).consecutive_viewed_checkpoint == Some(cks)
                    &&& final(self).criterion == (if cks == cp {
                        old(self).criterion + 1
                    } else {
                        0int
                    })
                },
                None => {
                    &&& final(self).consecutive_viewed_checkpoint == Some(cks)
                    &&& final(self).criterion == old(self).criterion
                },
            },
    {
        match self.consecutive_viewed_checkpoint {
            Some(cp) => {
                if cks == cp {
                    self.criterion = self.criterion + 1;
                } else {
                    self.consecutive_viewed_checkpoint = Some(cks);
                    // reset the criterion
                    self.criterion = 0;
                }
            },
            None => {
                self.consecutive_viewed_checkpoint = Some(cks);
            },
        }
    }

    /// Feed the views of the whole population and say whether the run looks
    /// stalled: the criterion, updated with their checksum, passed the
    /// threshold.
    pub fn analyze_views(&mut self, views: &Vec<u64>) -> (r: bool)
        requires
            old(self).criterion < usize::MAX,
        ensures
            final(self).threshold == old(self).threshold,
            ({
                let cks = crc32_of(views_bytes(views@));
                &&& final(self).consecutive_viewed_checkpoint == Some(cks)
                &&& final(self).criterion == (match old(self).consecutive_viewed_checkpoint {
                    Some(cp) => if cks == cp {
                        old(self).criterion + 1
                    } else {
                        0int
                    },
                    None => old(self).criterion as int,
                })
                &&& r == (final(self).criterion >= final(self).threshold)
            }),
    {
        let cks = checksum_views(views);
        self.update_state(cks);
        self.criterion >= self.threshold
    }
}

/// A cache of per-node state, updated as the simulation steps nodes.
pub trait StateCache<S> {
    /// Record the state of one node at its current view.
    fn update(&mut self, id: NodeId, view: u64, state: S);

    /// Record a batch of node states.
    fn update_many(&mut self, entries: Vec<(NodeId, u64, S)>);
}

/// Where the settings subscriber writes its records.
#[derive(Clone, Debug)]
pub struct SettingsSubscriberSettings {
    pub path: String,
}

} // verus!
