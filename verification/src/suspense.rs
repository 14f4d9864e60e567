//! The state of a suspense boundary: the suspensions it waits for.
//!
//! A suspension is identified by a number; two messages about the same
//! suspension carry the same number.

use vstd::prelude::*;

verus! {

/// A message to a suspense boundary.
#[derive(Debug, Clone, Copy, PartialEq, Eq, Structural)]
pub enum BaseSuspenseMsg {
    /// A child suspended; `resumed` tells whether that suspension already
    /// resumed.
    Suspend { suspension: u64, resumed: bool },
    /// A suspension resumed.
    Resume { suspension: u64 },
}

/// The suspensions a suspense boundary waits for, each once.
pub struct BaseSuspense {
    suspensions: Vec<u64>,
}

/// The suspensions, without the given one.
pub open spec fn without(s: Seq<u64>, id: u64) -> Seq<u64>
    decreases s.len(),
{
    if s.len() == 0 {
        s
    } else {
        let r = without(s.drop_last(), id);
        if s.last() == id {
            r
        } else {
            r.push(s.last())
        }
    }
}

impl View for BaseSuspense {
    type V = Seq<u64>;

    closed spec fn view(&self) -> Seq<u64> {
        self.suspensions@
    }
}

impl BaseSuspense {
    /// Each suspension is held once.
    pub open spec fn wf(&self) -> bool {
        self@.no_duplicates()
    }

    /// A boundary that waits for nothing.
    pub fn create() -> (b: BaseSuspense)
        ensures
            b@ == Seq::<u64>::empty(),
            b.wf(),
    {
        BaseSuspense { suspensions: Vec::new() }
    }

    /// Handles a message; returns whether the boundary must render again.
    /// A suspension that already resumed or is already held is ignored;
    /// a new one is added at the end. A resumed one is removed.
    pub fn update(&mut self, msg: BaseSuspenseMsg) -> (changed: bool)
        requires
            old(self).wf(),
        ensures
            final(self).wf(),
            match msg {
                BaseSuspenseMsg::Suspend { suspension, resumed } => if resumed || old(
                    self,
                )@.contains(suspension) {
                    !changed && final(self)@ == old(self)@
                } else {
                    changed && final(self)@ == old(self)@.push(suspension)
                },
                BaseSuspenseMsg::Resume { suspension } => final(self)@ == without(
                    old(self)@,
                    suspension,
                ) && changed == old(self)@.contains(suspension),
            },
    {
        match msg {
            BaseSuspenseMsg::Suspend { suspension, resumed } => {
                if resumed {
                    return false;
                }
                if self.holds(suspension) {
                    return false;
                }
                self.suspensions.push(suspension);
                proof {
                    assert(self@.no_duplicates()) by {
                        assert forall|i: int, j: int|
                            0 <= i < self@.len() && 0 <= j < self@.len() && i != j implies self@[i]
                            != self@[j] by {
                            if i < old(self)@.len() && j < old(self)@.len() {
                                assert(old(self)@[i] != old(self)@[j]);
                            }
                        }
                    }
                }
                true
            },
            BaseSuspenseMsg::Resume { suspension } => {
                let ghost before = self@;
                let mut kept: Vec<u64> = Vec::new();
                let mut i: usize = 0;
                while i < self.suspensions.len()
                    invariant
                        before == self@,
                        before.no_duplicates(),
                        i <= before.len(),
                        kept@ == without(before.take(i as int), suspension),
                    decreases self.suspensions.len() - i,
                {
                    let x = self.suspensions[i];
                    proof {
                        assert(before.take(i + 1).drop_last() =~= before.take(i as int));
                        assert(before.take(i + 1).last() == x);
                    }
                    if x != suspension {
                        kept.push(x);
                    }
                    i = i + 1;
                }
                let changed = kept.len() != self.suspensions.len();
                proof {
                    assert(before.take(before.len() as int) =~= before);
                    let w = without(before, suspension);
                    lemma_without_len(before, suspension);
                    if before.contains(suspension) {
                        let j = choose|j: int| 0 <= j < before.len() && before[j] == suspension;
                        lemma_filter_shorter(before, suspension, j);
                    } else {
                        lemma_filter_all(before, suspension);
                    }
                    assert(w.no_duplicates()) by {
                        lemma_filter_no_duplicates(before, suspension);
                    }
                }
                self.suspensions = kept;
                changed
            },
        }
    }

    /// True when the boundary waits for the suspension.
    pub fn holds(&self, suspension: u64) -> (r: bool)
        ensures
            r == self@.contains(suspension),
    {
        let mut i: usize = 0;
        while i < self.suspensions.len()
            invariant
                i <= self@.len(),
                forall|t: int| 0 <= t < i ==> self@[t] != suspension,
            decreases self.suspensions.len() - i,
        {
            if self.suspensions[i] == suspension {
                proof {
                    assert(self@[i as int] == suspension);
                }
                return true;
            }
            i = i + 1;
        }
        false
    }

    /// True while the boundary waits for some suspension: the fallback is
    /// shown.
    pub fn is_suspended(&self) -> (r: bool)
        ensures
            r == (self@.len() > 0),
    {
        self.suspensions.len() > 0
    }
}

proof fn lemma_filter_all(s: Seq<u64>, id: u64)
    requires
        !s.contains(id),
    ensures
        without(s, id) == s,
    decreases s.len(),
{
    if s.len() > 0 {
        assert(!s.drop_last().contains(id)) by {
            if s.drop_last().contains(id) {
                let j = choose|j: int| 0 <= j < s.drop_last().len() && s.drop_last()[j] == id;
                assert(s[j] == id);
            }
        }
        lemma_filter_all(s.drop_last(), id);
        assert(s.last() != id) by {
            assert(s[s.len() - 1] == s.last());
        }
        assert(s.drop_last().push(s.last()) =~= s);
    }
}

proof fn lemma_without_len(s: Seq<u64>, id: u64)
    ensures
        without(s, id).len() <= s.len(),
    decreases s.len(),
{
    if s.len() > 0 {
        lemma_without_len(s.drop_last(), id);
    }
}

proof fn lemma_filter_shorter(s: Seq<u64>, id: u64, j: int)
    requires
        0 <= j < s.len(),
        s[j] == id,
    ensures
        without(s, id).len() < s.len(),
    decreases s.len(),
{
    lemma_without_len(s.drop_last(), id);
    if j == s.len() - 1 {
    } else {
        assert(s.drop_last()[j] == id);
        lemma_filter_shorter(s.drop_last(), id, j);
    }
}

proof fn lemma_without_subset(s: Seq<u64>, id: u64, x: u64)
    ensures
        without(s, id).contains(x) ==> s.contains(x),
    decreases s.len(),
{
    if s.len() > 0 {
        let init = s.drop_last();
        lemma_without_subset(init, id, x);
        let w0 = without(init, id);
        if without(s, id).contains(x) {
            let k = choose|k: int| 0 <= k < without(s, id).len() && without(s, id)[k] == x;
            if s.last() != id && k == w0.len() {
                assert(s[s.len() - 1] == x);
            } else {
                assert(w0[k] == x);
                let t = choose|t: int| 0 <= t < init.len() && init[t] == x;
                assert(s[t] == x);
            }
        }
    }
}

proof fn lemma_filter_no_duplicates(s: Seq<u64>, id: u64)
    requires
        s.no_duplicates(),
    ensures
        without(s, id).no_duplicates(),
    decreases s.len(),
{
    if s.len() > 0 {
        let init = s.drop_last();
        assert(init.no_duplicates()) by {
            assert forall|a: int, b: int| 0 <= a < init.len() && 0 <= b < init.len() && a != b implies init[a]
                != init[b] by {
                assert(s[a] != s[b]);
            }
        }
        lemma_filter_no_duplicates(init, id);
        let w0 = without(init, id);
        if s.last() != id {
            let w = w0.push(s.last());
            assert forall|a: int, b: int| 0 <= a < w.len() && 0 <= b < w.len() && a != b implies w[a]
                != w[b] by {
                if a < w0.len() && b < w0.len() {
                } else if a == w0.len() {
                    lemma_without_subset(init, id, w0[b]);
                    assert(w0.contains(w0[b]));
                    let k = choose|k: int| 0 <= k < init.len() && init[k] == w0[b];
                    assert(s[k] != s[s.len() - 1]);
                } else {
                    lemma_without_subset(init, id, w0[a]);
                    assert(w0.contains(w0[a]));
                    let k = choose|k: int| 0 <= k < init.len() && init[k] == w0[a];
                    assert(s[k] != s[s.len() - 1]);
                }
            }
        }
    }
}

/// A suspension that suspends and then resumes leaves the boundary as it
/// was: it no longer waits for it.
pub proof fn lemma_suspend_then_resume(s: Seq<u64>, id: u64)
    requires
        s.no_duplicates(),
        !s.contains(id),
    ensures
        without(s.push(id), id) == s,
{
    assert(s.push(id).drop_last() =~= s);
    lemma_filter_all(s, id);
}

} // verus!
