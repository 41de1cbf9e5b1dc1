//! Batch orchestration over units of work (one wishlist or one product).
//!
//! Each unit walks `Pending → Scraping → Extracting → Persisting` and ends
//! `Done` or `Failed`; a failure at any stage marks only that unit and the
//! batch continues. At most `limit` units are in flight at once — scraping
//! is the expensive, rate-limited stage, so the window is the batch's one
//! piece of synchronization. The driver around this module performs the
//! actual work between `start_next` and `advance` calls.

use vstd::prelude::*;

verus! {

/// Where one unit of work stands.
#[derive(Debug, Clone, Copy, PartialEq, Eq, Structural)]
pub enum UnitStage {
    Pending,
    Scraping,
    Extracting,
    Persisting,
    Done,
    Failed,
}

/// A unit holding one of the in-flight stages.
pub open spec fn is_active(s: UnitStage) -> bool {
    s == UnitStage::Scraping || s == UnitStage::Extracting || s == UnitStage::Persisting
}

pub open spec fn active_pred() -> spec_fn(UnitStage) -> bool {
    |s: UnitStage| is_active(s)
}

pub open spec fn done_pred() -> spec_fn(UnitStage) -> bool {
    |s: UnitStage| s == UnitStage::Done
}

pub open spec fn failed_pred() -> spec_fn(UnitStage) -> bool {
    |s: UnitStage| s == UnitStage::Failed
}

pub open spec fn count_where(s: Seq<UnitStage>, f: spec_fn(UnitStage) -> bool) -> int
    decreases s.len(),
{
    if s.len() == 0 {
        0
    } else {
        count_where(s.drop_last(), f) + if f(s.last()) {
            1int
        } else {
            0int
        }
    }
}

pub proof fn lemma_count_bounds(s: Seq<UnitStage>, f: spec_fn(UnitStage) -> bool)
    ensures
        0 <= count_where(s, f) <= s.len(),
    decreases s.len(),
{
    if s.len() > 0 {
        lemma_count_bounds(s.drop_last(), f);
    }
}

pub proof fn lemma_count_update(s: Seq<UnitStage>, f: spec_fn(UnitStage) -> bool, k: int, v: UnitStage)
    requires
        0 <= k < s.len(),
    ensures
        count_where(s.update(k, v), f) == count_where(s, f) - (if f(s[k]) {
            1int
        } else {
            0int
        }) + (if f(v) {
            1int
        } else {
            0int
        }),
    decreases s.len(),
{
    let t = s.update(k, v);
    if k == s.len() - 1 {
        assert(t.drop_last() =~= s.drop_last());
        assert(t.last() == v);
        assert(s.last() == s[k]);
    } else {
        assert(t.drop_last() =~= s.drop_last().update(k, v));
        assert(t.last() == s.last());
        assert(s.drop_last()[k] == s[k]);
        lemma_count_update(s.drop_last(), f, k, v);
    }
}

/// The next stage of a unit when its current step finishes: success moves it
/// forward, failure ends it at `Failed` whatever the stage.
pub open spec fn spec_advance(s: UnitStage, ok: bool) -> UnitStage {
    if !ok {
        UnitStage::Failed
    } else {
        match s {
            UnitStage::Scraping => UnitStage::Extracting,
            UnitStage::Extracting => UnitStage::Persisting,
            UnitStage::Persisting => UnitStage::Done,
            other => other,
        }
    }
}

/// One batch of units with its concurrency window.
pub struct Batch {
    pub stages: Vec<UnitStage>,
    pub limit: usize,
}

impl Batch {
    /// The window bound holds: never more in-flight units than the limit.
    pub open spec fn inv(self) -> bool {
        &&& self.limit >= 1
        &&& count_where(self.stages@, active_pred()) <= self.limit
    }

    /// A fresh batch of `n` pending units under a window of `limit`.
    pub fn new(n: usize, limit: usize) -> (r: Batch)
        requires
            limit >= 1,
        ensures
            r.inv(),
            r.limit == limit,
            r.stages@.len() == n,
            forall|k: int| 0 <= k < n ==> r.stages@[k] == UnitStage::Pending,
    {
        let mut stages: Vec<UnitStage> = Vec::new();
        let mut i: usize = 0;
        while i < n
            invariant
                i <= n,
                stages@.len() == i,
                forall|k: int| 0 <= k < i ==> stages@[k] == UnitStage::Pending,
                count_where(stages@, active_pred()) == 0,
            decreases n - i,
        {
            let ghost prev = stages@;
            stages.push(UnitStage::Pending);
            proof {
                assert(stages@.drop_last() =~= prev);
                assert(!active_pred()(UnitStage::Pending));
            }
            i = i + 1;
        }
        Batch { stages, limit }
    }

    fn count_active(&self) -> (r: usize)
        ensures
            r == count_where(self.stages@, active_pred()),
    {
        proof {
            lemma_count_bounds(self.stages@, active_pred());
        }
        let mut r: usize = 0;
        let mut i: usize = 0;
        while i < self.stages.len()
            invariant
                i <= self.stages@.len(),
                r == count_where(self.stages@.take(i as int), active_pred()),
                r <= i,
            decreases self.stages@.len() - i,
        {
            let ghost ti = self.stages@.take(i as int);
            let ghost ti1 = self.stages@.take(i + 1);
            proof {
                assert(ti1.drop_last() =~= ti);
                assert(ti1.last() == self.stages@[i as int]);
            }
            let s = self.stages[i];
            let active = match s {
                UnitStage::Scraping => true,
                UnitStage::Extracting => true,
                UnitStage::Persisting => true,
                _ => false,
            };
            if active {
                r = r + 1;
            }
            i = i + 1;
        }
        proof {
            assert(self.stages@.take(i as int) =~= self.stages@);
        }
        r
    }

    /// Starts the first pending unit if the window has a free slot; the unit
    /// enters `Scraping`.
    pub fn start_next(&mut self) -> (r: Option<usize>)
        requires
            old(self).inv(),
        ensures
            final(self).inv(),
            final(self).limit == old(self).limit,
            r matches Some(i) ==> {
                &&& (i as int) < old(self).stages@.len()
                &&& old(self).stages@[i as int] == UnitStage::Pending
                &&& final(self).stages@ == old(self).stages@.update(i as int, UnitStage::Scraping)
                &&& count_where(old(self).stages@, active_pred()) < old(self).limit
                &&& forall|k: int|
                    0 <= k < i ==> (#[trigger] old(self).stages@[k]) != UnitStage::Pending
            },
            r is None ==> {
                &&& *final(self) == *old(self)
                &&& (count_where(old(self).stages@, active_pred()) >= old(self).limit || forall|
                    k: int,
                |
                    0 <= k < old(self).stages@.len() ==> (#[trigger] old(self).stages@[k])
                        != UnitStage::Pending)
            },
    {
        let active = self.count_active();
        if active >= self.limit {
            return None;
        }
        let mut i: usize = 0;
        while i < self.stages.len()
            invariant
                *self == *old(self),
                i <= self.stages@.len(),
                forall|k: int| 0 <= k < i ==> (#[trigger] self.stages@[k]) != UnitStage::Pending,
                count_where(self.stages@, active_pred()) < self.limit,
                self.inv(),
            decreases self.stages@.len() - i,
        {
            let pending = match self.stages[i] {
                UnitStage::Pending => true,
                _ => false,
            };
            if pending {
                let ghost before = self.stages@;
                self.stages.remove(i);
                self.stages.insert(i, UnitStage::Scraping);
                proof {
                    assert(self.stages@ =~= before.update(i as int, UnitStage::Scraping));
                    lemma_count_update(before, active_pred(), i as int, UnitStage::Scraping);
                }
                return Some(i);
            }
            i = i + 1;
        }
        None
    }

    /// Records the outcome of one step of an in-flight unit: forward on
    /// success, `Failed` on failure. Other units are untouched, so one
    /// failure never blocks the rest of the batch.
    pub fn advance(&mut self, i: usize, ok: bool)
        requires
            old(self).inv(),
            (i as int) < old(self).stages@.len(),
            is_active(old(self).stages@[i as int]),
        ensures
            final(self).inv(),
            final(self).limit == old(self).limit,
            final(self).stages@ == old(self).stages@.update(
                i as int,
                spec_advance(old(self).stages@[i as int], ok),
            ),
    {
        let cur = self.stages[i];
        let next = if !ok {
            UnitStage::Failed
        } else {
            match cur {
                UnitStage::Scraping => UnitStage::Extracting,
                UnitStage::Extracting => UnitStage::Persisting,
                UnitStage::Persisting => UnitStage::Done,
                other => other,
            }
        };
        let ghost before = self.stages@;
        self.stages.remove(i);
        self.stages.insert(i, next);
        proof {
            assert(self.stages@ =~= before.update(i as int, next));
            lemma_count_update(before, active_pred(), i as int, next);
        }
    }

    /// How many units ended `Done`.
    pub fn done_count(&self) -> (r: usize)
        ensures
            r == count_where(self.stages@, done_pred()),
    {
        proof {
            lemma_count_bounds(self.stages@, done_pred());
        }
        let mut r: usize = 0;
        let mut i: usize = 0;
        while i < self.stages.len()
            invariant
                i <= self.stages@.len(),
                r == count_where(self.stages@.take(i as int), done_pred()),
                r <= i,
            decreases self.stages@.len() - i,
        {
            let ghost ti = self.stages@.take(i as int);
            let ghost ti1 = self.stages@.take(i + 1);
            proof {
                assert(ti1.drop_last() =~= ti);
                assert(ti1.last() == self.stages@[i as int]);
            }
            let is_done = match self.stages[i] {
                UnitStage::Done => true,
                _ => false,
            };
            if is_done {
                r = r + 1;
            }
            i = i + 1;
        }
        proof {
            assert(self.stages@.take(i as int) =~= self.stages@);
        }
        r
    }

    /// How many units ended `Failed`.
    pub fn failed_count(&self) -> (r: usize)
        ensures
            r == count_where(self.stages@, failed_pred()),
    {
        proof {
            lemma_count_bounds(self.stages@, failed_pred());
        }
        let mut r: usize = 0;
        let mut i: usize = 0;
        while i < self.stages.len()
            invariant
                i <= self.stages@.len(),
                r == count_where(self.stages@.take(i as int), failed_pred()),
                r <= i,
            decreases self.stages@.len() - i,
        {
            let ghost ti = self.stages@.take(i as int);
            let ghost ti1 = self.stages@.take(i + 1);
            proof {
                assert(ti1.drop_last() =~= ti);
                assert(ti1.last() == self.stages@[i as int]);
            }
            let is_failed = match self.stages[i] {
                UnitStage::Failed => true,
                _ => false,
            };
            if is_failed {
                r = r + 1;
            }
            i = i + 1;
        }
        proof {
            assert(self.stages@.take(i as int) =~= self.stages@);
        }
        r
    }

    /// The indices of the units that ended `Failed`, in order; one
    /// operational alert goes out per entry.
    pub fn failed_units(&self) -> (r: Vec<usize>)
        ensures
            r@.len() == count_where(self.stages@, failed_pred()),
            forall|m: int|
                0 <= m < r@.len() ==> (#[trigger] r@[m]) < self.stages@.len()
                    && self.stages@[r@[m] as int] == UnitStage::Failed,
            forall|k: int|
                0 <= k < self.stages@.len() && (#[trigger] self.stages@[k]) == UnitStage::Failed
                    ==> r@.contains(k as usize),
    {
        let mut out: Vec<usize> = Vec::new();
        let mut i: usize = 0;
        while i < self.stages.len()
            invariant
                i <= self.stages@.len(),
                out@.len() == count_where(self.stages@.take(i as int), failed_pred()),
                forall|m: int|
                    0 <= m < out@.len() ==> (#[trigger] out@[m]) < i && self.stages@[out@[m] as int]
                        == UnitStage::Failed,
                forall|k: int|
                    0 <= k < i && (#[trigger] self.stages@[k]) == UnitStage::Failed
                        ==> out@.contains(k as usize),
            decreases self.stages@.len() - i,
        {
            let ghost ti = self.stages@.take(i as int);
            let ghost ti1 = self.stages@.take(i + 1);
            proof {
                assert(ti1.drop_last() =~= ti);
                assert(ti1.last() == self.stages@[i as int]);
            }
            let ghost prev = out@;
            let is_failed = match self.stages[i] {
                UnitStage::Failed => true,
                _ => false,
            };
            if is_failed {
                out.push(i);
                proof {
                    assert(out@ == prev.push(i as usize));
                    assert forall|k: int|
                        0 <= k < i + 1 && (#[trigger] self.stages@[k]) == UnitStage::Failed
                        implies out@.contains(k as usize) by {
                        if k < i {
                            assert(prev.contains(k as usize));
                            let w = choose|w: int| 0 <= w < prev.len() && prev[w] == k as usize;
                            assert(out@[w] == k as usize);
                        } else {
                            assert(out@[out@.len() - 1] == k as usize);
                        }
                    };
                }
            }
            i = i + 1;
        }
        proof {
            assert(self.stages@.take(i as int) =~= self.stages@);
        }
        out
    }
}

} // verus!
