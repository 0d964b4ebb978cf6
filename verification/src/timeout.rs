//! Per-view timers: each view owns a countdown, milliseconds granularity.

use vstd::prelude::*;

verus! {

/// The countdown recorded for `view`, if any.
pub open spec fn tv_has(s: Seq<(u64, u64)>, view: u64) -> bool {
    exists|i: int| 0 <= i < s.len() && s[i].0 == view
}

pub open spec fn tv_idx(s: Seq<(u64, u64)>, view: u64) -> int {
    choose|i: int| 0 <= i < s.len() && s[i].0 == view
}

pub open spec fn tv_get(s: Seq<(u64, u64)>, view: u64) -> u64 {
    s[tv_idx(s, view)].1
}

pub open spec fn tv_unique(s: Seq<(u64, u64)>) -> bool {
    forall|i: int, j: int|
        0 <= i < j < s.len() ==> (#[trigger] s[i]).0 != (#[trigger] s[j]).0
}

/// With unique keys, the entry found for `s[i].0` is `s[i]` itself.
pub proof fn lemma_tv_at(s: Seq<(u64, u64)>, i: int)
    requires
        tv_unique(s),
        0 <= i < s.len(),
    ensures
        tv_has(s, s[i].0),
        tv_idx(s, s[i].0) == i,
        tv_get(s, s[i].0) == s[i].1,
{
    assert(tv_has(s, s[i].0));
    let j = tv_idx(s, s[i].0);
    if i < j {
        assert(s[i].0 != s[j].0);
    } else if j < i {
        assert(s[j].0 != s[i].0);
    }
}

/// Arms one countdown per view and deducts elapsed time from it.
pub struct TimeoutHandler {
    /// The countdown every view starts from, in milliseconds.
    pub timeout: u64,
    /// Remaining time per view.
    pub per_view: Vec<(u64, u64)>,
}

impl TimeoutHandler {
    pub open spec fn inv(&self) -> bool {
        tv_unique(self.per_view@)
    }

    pub fn new(timeout: u64) -> (r: TimeoutHandler)
        ensures
            r.timeout == timeout,
            r.per_view@ == Seq::<(u64, u64)>::empty(),
            r.inv(),
    {
        TimeoutHandler { timeout, per_view: Vec::new() }
    }

    /// Deduct `elapsed` from the countdown of `view`, arming it with the
    /// configured timeout first if this view is new; say whether it reached
    /// zero.
    pub fn step(&mut self, view: u64, elapsed: u64) -> (r: bool)
        requires
            old(self).inv(),
        ensures
            final(self).inv(),
            final(self).timeout == old(self).timeout,
            ({
                let before = if tv_has(old(self).per_view@, view) {
                    tv_get(old(self).per_view@, view)
                } else {
                    old(self).timeout
                };
                let after = if before >= elapsed {
                    (before - elapsed) as u64
                } else {
                    0u64
                };
                &&& tv_has(final(self).per_view@, view)
                &&& tv_get(final(self).per_view@, view) == after
                &&& r == (after == 0)
            }),
            forall|v: u64|
                v != view ==> (tv_has(final(self).per_view@, v) == tv_has(old(self).per_view@, v)
                    && (tv_has(old(self).per_view@, v) ==> tv_get(final(self).per_view@, v)
                    == tv_get(old(self).per_view@, v))),
    {
        let mut i: usize = 0;
        let n = self.per_view.len();
        while i < n
            invariant
                old(self).inv(),
                *self == *old(self),
                n == self.per_view@.len(),
                0 <= i <= n,
                forall|j: int| 0 <= j < i ==> (#[trigger] self.per_view@[j]).0 != view,
            decreases n - i,
        {
            if self.per_view[i].0 == view {
                let before = self.per_view[i].1;
                let after = if before >= elapsed {
                    before - elapsed
                } else {
                    0
                };
                self.per_view[i] = (view, after);
                proof {
                    lemma_tv_at(old(self).per_view@, i as int);
                    assert(tv_unique(self.per_view@)) by {
                        assert forall|a: int, b: int|
                            0 <= a < b < self.per_view@.len() implies (#[trigger] self.per_view@[a]).0
                            != (#[trigger] self.per_view@[b]).0 by {
                            assert(old(self).per_view@[a].0 != old(self).per_view@[b].0);
                        }
                    }
                    lemma_tv_at(self.per_view@, i as int);
                    assert forall|v: u64| v != view implies (tv_has(self.per_view@, v) == tv_has(
                        old(self).per_view@,
                        v,
                    ) && (tv_has(old(self).per_view@, v) ==> tv_get(self.per_view@, v) == tv_get(
                        old(self).per_view@,
                        v,
                    ))) by {
                        if tv_has(old(self).per_view@, v) {
                            let k = tv_idx(old(self).per_view@, v);
                            lemma_tv_at(old(self).per_view@, k);
                            assert(self.per_view@[k].0 == v);
                            lemma_tv_at(self.per_view@, k);
                        }
                        if tv_has(self.per_view@, v) {
                            let k = tv_idx(self.per_view@, v);
                            assert(old(self).per_view@[k].0 == v);
                            lemma_tv_at(old(self).per_view@, k);
                        }
                    }
                }
                return after == 0;
            }
            i += 1;
        }
        let before = self.timeout;
        let after = if before >= elapsed {
            before - elapsed
        } else {
            0
        };
        let ghost prior = self.per_view@;
        self.per_view.push((view, after));
        proof {
            assert(self.per_view@ == prior.push((view, after)));
            assert(tv_unique(self.per_view@)) by {
                assert forall|a: int, b: int|
                    0 <= a < b < self.per_view@.len() implies (#[trigger] self.per_view@[a]).0
                    != (#[trigger] self.per_view@[b]).0 by {
                    if b < self.per_view@.len() - 1 {
                        assert(prior[a].0 != prior[b].0);
                    } else {
                        assert(self.per_view@[a] == prior[a]);
                    }
                }
            }
            lemma_tv_at(self.per_view@, self.per_view@.len() - 1);
            assert forall|v: u64| v != view implies (tv_has(self.per_view@, v) == tv_has(prior, v)
                && (tv_has(prior, v) ==> tv_get(self.per_view@, v) == tv_get(prior, v))) by {
                if tv_has(prior, v) {
                    let k = tv_idx(prior, v);
                    lemma_tv_at(prior, k);
                    assert(self.per_view@[k].0 == v);
                    lemma_tv_at(self.per_view@, k);
                }
                if tv_has(self.per_view@, v) {
                    let k = tv_idx(self.per_view@, v);
                    assert(k < self.per_view@.len() - 1);
                    assert(prior[k].0 == v);
                    lemma_tv_at(prior, k);
                }
            }
        }
        after == 0
    }

    /// Whether the countdown of `view` has run out.
    pub fn is_timeout(&self, view: u64) -> (r: bool)
        requires
            self.inv(),
        ensures
            r == (tv_has(self.per_view@, view) && tv_get(self.per_view@, view) == 0),
    {
        let mut i: usize = 0;
        let n = self.per_view.len();
        while i < n
            invariant
                self.inv(),
                n == self.per_view@.len(),
                0 <= i <= n,
                forall|j: int| 0 <= j < i ==> (#[trigger] self.per_view@[j]).0 != view,
            decreases n - i,
        {
            if self.per_view[i].0 == view {
                proof {
                    lemma_tv_at(self.per_view@, i as int);
                }
                return self.per_view[i].1 == 0;
            }
            i += 1;
        }
        false
    }

    /// Drop every countdown at or below `view`.
    pub fn prune_by_view(&mut self, view: u64)
        requires
            old(self).inv(),
        ensures
            final(self).inv(),
            final(self).timeout == old(self).timeout,
            forall|v: u64|
                tv_has(final(self).per_view@, v) <==> (tv_has(old(self).per_view@, v) && v > view),
            forall|v: u64|
                tv_has(final(self).per_view@, v) ==> tv_get(final(self).per_view@, v) == tv_get(
                    old(self).per_view@,
                    v,
                ),
    {
        let mut kept: Vec<(u64, u64)> = Vec::new();
        let mut i: usize = 0;
        let n = self.per_view.len();
        while i < n
            invariant
                old(self).inv(),
                *self == *old(self),
                n == self.per_view@.len(),
                0 <= i <= n,
                forall|m: int|
                    0 <= m < kept@.len() ==> ((#[trigger] kept@[m]).0 > view && tv_has(
                        self.per_view@,
                        kept@[m].0,
                    ) && tv_get(self.per_view@, kept@[m].0) == kept@[m].1 && tv_idx(
                        self.per_view@,
                        kept@[m].0,
                    ) < i),
                forall|j: int|
                    0 <= j < i && (#[trigger] self.per_view@[j]).0 > view ==> kept@.contains(
                        self.per_view@[j],
                    ),
                tv_unique(kept@),
            decreases n - i,
        {
            if self.per_view[i].0 > view {
                let ghost prior = kept@;
                kept.push(self.per_view[i]);
                proof {
                    assert(kept@ == prior.push(self.per_view@[i as int]));
                    assert(kept@[kept@.len() - 1] == self.per_view@[i as int]);
                    lemma_tv_at(self.per_view@, i as int);
                    assert(tv_unique(kept@)) by {
                        assert forall|a: int, b: int|
                            0 <= a < b < kept@.len() implies (#[trigger] kept@[a]).0
                            != (#[trigger] kept@[b]).0 by {
                            if b == kept@.len() - 1 {
                                assert(kept@[a] == prior[a]);
                                if kept@[a].0 == self.per_view@[i as int].0 {
                                    lemma_tv_at(self.per_view@, i as int);
                                    assert(tv_idx(self.per_view@, kept@[a].0) < i);
                                    assert(false);
                                }
                            } else {
                                assert(prior[a].0 != prior[b].0);
                            }
                        }
                    }
                    assert forall|j: int|
                        0 <= j < i + 1 && (#[trigger] self.per_view@[j]).0 > view implies kept@
                        .contains(self.per_view@[j]) by {
                        if j < i {
                            assert(prior.contains(self.per_view@[j]));
                            let m = choose|m: int| 0 <= m < prior.len() && prior[m]
                                == self.per_view@[j];
                            assert(kept@[m] == self.per_view@[j]);
                        } else {
                            assert(kept@[kept@.len() - 1] == self.per_view@[j]);
                        }
                    }
                }
            }
            i += 1;
        }
        self.per_view = kept;
        proof {
            assert forall|v: u64|
                tv_has(self.per_view@, v) <==> (tv_has(old(self).per_view@, v) && v > view) by {
                if tv_has(self.per_view@, v) {
                    let m = tv_idx(self.per_view@, v);
                    assert(self.per_view@[m].0 == v && self.per_view@[m].0 > view);
                    assert(tv_has(old(self).per_view@, self.per_view@[m].0));
                }
                if tv_has(old(self).per_view@, v) && v > view {
                    let j = tv_idx(old(self).per_view@, v);
                    assert(old(self).per_view@[j].0 > view);
                    assert(self.per_view@.contains(old(self).per_view@[j]));
                    let m = choose|m: int| 0 <= m < self.per_view@.len() && self.per_view@[m]
                        == old(self).per_view@[j];
                    assert(self.per_view@[m].0 == v);
                }
            }
            assert forall|v: u64|
                tv_has(self.per_view@, v) implies tv_get(self.per_view@, v) == tv_get(
                old(self).per_view@,
                v,
            ) by {
                let m = tv_idx(self.per_view@, v);
                lemma_tv_at(self.per_view@, m);
                assert(tv_get(old(self).per_view@, self.per_view@[m].0) == self.per_view@[m].1);
            }
        }
    }
}

} // verus!
