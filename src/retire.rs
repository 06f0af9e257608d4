use vstd::prelude::*;

verus! {

/// The snapshots that were displaced from being current and wait until no
/// protection record announces them.
pub struct RetireStore {
    entries: Vec<usize>,
}

impl View for RetireStore {
    type V = Seq<usize>;

    closed spec fn view(&self) -> Seq<usize> {
        self.entries@
    }
}

impl RetireStore {
    pub fn new() -> (r: RetireStore)
        ensures
            r@ == Seq::<usize>::empty(),
    {
        RetireStore { entries: Vec::new() }
    }

    /// Queues one more retired handle, after those already queued.
    pub fn push(&mut self, handle: usize)
        ensures
            final(self)@ == old(self)@.push(handle),
    {
        self.entries.push(handle);
    }

    pub fn len(&self) -> (r: usize)
        ensures
            r == self@.len(),
    {
        self.entries.len()
    }

    /// Keeps, in order, the entries that `keep` holds, in a single filtering
    /// pass, and hands back, in order, those it drops.
    pub fn retain_in(&mut self, keep: &Vec<usize>) -> (dropped: Vec<usize>)
        ensures
            final(self)@ == old(self)@.filter(|h: usize| keep@.contains(h)),
            dropped@ == old(self)@.filter(|h: usize| !keep@.contains(h)),
    {
        let ghost kept_pred = |h: usize| keep@.contains(h);
        let ghost drop_pred = |h: usize| !keep@.contains(h);
        let mut kept: Vec<usize> = Vec::new();
        let mut dropped: Vec<usize> = Vec::new();
        let n = self.entries.len();
        let mut i: usize = 0;
        while i < n
            invariant
                n == self.entries@.len(),
                self.entries@ == old(self)@,
                i <= n,
                kept_pred == (|h: usize| keep@.contains(h)),
                drop_pred == (|h: usize| !keep@.contains(h)),
                kept@ == self.entries@.take(i as int).filter(kept_pred),
                dropped@ == self.entries@.take(i as int).filter(drop_pred),
            decreases n - i,
        {
            let h = self.entries[i];
            let held = contains(keep, h);
            proof {
                let s = self.entries@.take(i as int + 1);
                assert(s.drop_last() == self.entries@.take(i as int));
                assert(s.last() == h);
                reveal(Seq::filter);
                assert(s.filter(kept_pred) == if keep@.contains(h) {
                    self.entries@.take(i as int).filter(kept_pred).push(h)
                } else {
                    self.entries@.take(i as int).filter(kept_pred)
                });
                assert(s.filter(drop_pred) == if !keep@.contains(h) {
                    self.entries@.take(i as int).filter(drop_pred).push(h)
                } else {
                    self.entries@.take(i as int).filter(drop_pred)
                });
            }
            if held {
                kept.push(h);
            } else {
                dropped.push(h);
            }
            i = i + 1;
        }
        proof {
            assert(self.entries@.take(n as int) == self.entries@);
        }
        self.entries = kept;
        dropped
    }
}

/// Filtering keeps a sequence free of duplicates.
pub proof fn lemma_filter_no_duplicates(s: Seq<usize>, pred: spec_fn(usize) -> bool)
    requires
        s.no_duplicates(),
    ensures
        s.filter(pred).no_duplicates(),
    decreases s.len(),
{
    reveal(Seq::filter);
    if s.len() > 0 {
        let rest = s.drop_last();
        assert(rest.no_duplicates());
        lemma_filter_no_duplicates(rest, pred);
        if rest.filter(pred).contains(s.last()) {
            rest.lemma_filter_contains_rev(pred, s.last());
            let k = choose|k: int| 0 <= k < rest.len() && rest[k] == s.last();
            assert(s[k] == s[s.len() - 1]);
        }
    }
}

/// Whether `v` holds `x`, by a linear search.
pub fn contains(v: &Vec<usize>, x: usize) -> (r: bool)
    ensures
        r == v@.contains(x),
{
    let mut i: usize = 0;
    while i < v.len()
        invariant
            i <= v@.len(),
            forall|j: int| 0 <= j < i ==> v@[j] != x,
        decreases v@.len() - i,
    {
        if v[i] == x {
            return true;
        }
        i = i + 1;
    }
    false
}

} // verus!
