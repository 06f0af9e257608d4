use crate::retire::{contains, RetireStore};
use vstd::prelude::*;

verus! {

/// A protection record: the snapshot handle a reader announces, whether the
/// record is leased to a reader, and whether the announcement was confirmed
/// against the current handle.
#[derive(Clone, Copy)]
pub struct HazardNode {
    pub hazard: Option<usize>,
    pub active: bool,
    pub validated: bool,
}

impl HazardNode {
    /// A record freshly leased to a reader: nothing announced yet.
    pub open spec fn leased() -> HazardNode {
        HazardNode { hazard: None, active: true, validated: false }
    }

    /// A record that no reader holds.
    pub open spec fn idle() -> HazardNode {
        HazardNode { hazard: None, active: false, validated: false }
    }

    /// A free record announces nothing; a confirmed one is leased and
    /// announces a handle.
    pub open spec fn well_formed(self) -> bool {
        &&& !self.active ==> self.hazard is None
        &&& self.validated ==> self.active && self.hazard is Some
    }

    pub fn new() -> (r: HazardNode)
        ensures
            r == HazardNode::leased(),
    {
        HazardNode { hazard: None, active: true, validated: false }
    }
}

/// The registry of protection records. Records are only ever added, and a
/// released record is reused by a later reader.
pub struct HazardList {
    nodes: Vec<HazardNode>,
}

impl View for HazardList {
    type V = Seq<HazardNode>;

    closed spec fn view(&self) -> Seq<HazardNode> {
        self.nodes@
    }
}

/// Whether some record of `s` is free.
pub open spec fn has_free(s: Seq<HazardNode>) -> bool {
    exists|i: int| 0 <= i < s.len() && !s[i].active
}

/// The index of the first free record of `s`, or its length if none is free.
pub open spec fn first_free(s: Seq<HazardNode>) -> int
    decreases s.len(),
{
    if s.len() == 0 {
        0
    } else if !s[0].active {
        0
    } else {
        1 + first_free(s.subrange(1, s.len() as int))
    }
}

/// Whether some record of `s` announces `h`.
pub open spec fn announces(s: Seq<HazardNode>, h: usize) -> bool {
    exists|i: int| 0 <= i < s.len() && s[i].hazard == Some(h)
}

/// The records after one is leased and later released again.
pub open spec fn after_lease(s: Seq<HazardNode>) -> Seq<HazardNode> {
    if has_free(s) {
        s
    } else {
        s.push(HazardNode::idle())
    }
}

pub(crate) proof fn lemma_first_free(s: Seq<HazardNode>)
    ensures
        0 <= first_free(s) <= s.len(),
        forall|j: int| 0 <= j < first_free(s) ==> s[j].active,
        has_free(s) <==> first_free(s) < s.len(),
        first_free(s) < s.len() ==> !s[first_free(s)].active,
    decreases s.len(),
{
    if s.len() > 0 && s[0].active {
        let t = s.subrange(1, s.len() as int);
        lemma_first_free(t);
        assert forall|j: int| 0 <= j < first_free(s) implies s[j].active by {
            if j > 0 {
                assert(s[j] == t[j - 1]);
            }
        }
        if has_free(s) {
            let i = choose|i: int| 0 <= i < s.len() && !s[i].active;
            assert(!t[i - 1].active);
        }
        if has_free(t) {
            let i = choose|i: int| 0 <= i < t.len() && !t[i].active;
            assert(!s[i + 1].active);
        }
    }
}

impl HazardList {
    pub open spec fn well_formed(&self) -> bool {
        forall|i: int| 0 <= i < self@.len() ==> #[trigger] self@[i].well_formed()
    }

    pub fn new() -> (r: HazardList)
        ensures
            r@ == Seq::<HazardNode>::empty(),
            r.well_formed(),
    {
        HazardList { nodes: Vec::new() }
    }

    pub fn len(&self) -> (r: usize)
        ensures
            r == self@.len(),
    {
        self.nodes.len()
    }

    pub fn get(&self, rec: usize) -> (r: HazardNode)
        requires
            rec < self@.len(),
        ensures
            r == self@[rec as int],
    {
        self.nodes[rec]
    }

    /// Leases a record to a reader: the first free record if there is one,
    /// else a new record added after the others.
    pub fn acquire(&mut self) -> (r: usize)
        requires
            old(self).well_formed(),
        ensures
            final(self).well_formed(),
            r == first_free(old(self)@),
            has_free(old(self)@) ==> final(self)@ == old(self)@.update(r as int, HazardNode::leased()),
            !has_free(old(self)@) ==> final(self)@ == old(self)@.push(HazardNode::leased()),
    {
        let n = self.nodes.len();
        let mut i: usize = 0;
        while i < n
            invariant
                n == self.nodes@.len(),
                self.nodes@ == old(self)@,
                i <= n,
                old(self).well_formed(),
                forall|j: int| 0 <= j < i ==> self.nodes@[j].active,
            decreases n - i,
        {
            proof {
                lemma_first_free(old(self)@);
            }
            if !self.nodes[i].active {
                assert(i as int == first_free(old(self)@));
                self.nodes[i] = HazardNode::new();
                return i;
            }
            i = i + 1;
        }
        proof {
            lemma_first_free(old(self)@);
        }
        self.nodes.push(HazardNode::new());
        n
    }

    /// Releases a record: its announcement is cleared before it is marked free.
    pub fn release(&mut self, rec: usize)
        requires
            old(self).well_formed(),
            rec < old(self)@.len(),
        ensures
            final(self).well_formed(),
            final(self)@ == old(self)@.update(rec as int, HazardNode::idle()),
    {
        let mut node = self.nodes[rec];
        node.hazard = None;
        node.validated = false;
        node.active = false;
        self.nodes[rec] = node;
    }

    /// Announces `h` in a leased record; the announcement is not confirmed yet.
    pub fn announce(&mut self, rec: usize, h: usize)
        requires
            old(self).well_formed(),
            rec < old(self)@.len(),
            old(self)@[rec as int].active,
        ensures
            final(self).well_formed(),
            final(self)@ == old(self)@.update(
                rec as int,
                HazardNode { hazard: Some(h), active: true, validated: false },
            ),
    {
        self.nodes[rec] = HazardNode { hazard: Some(h), active: true, validated: false };
    }

    /// Marks the announcement of a leased record as confirmed.
    pub fn confirm(&mut self, rec: usize)
        requires
            old(self).well_formed(),
            rec < old(self)@.len(),
            old(self)@[rec as int].active,
            old(self)@[rec as int].hazard is Some,
        ensures
            final(self).well_formed(),
            final(self)@ == old(self)@.update(
                rec as int,
                HazardNode { validated: true, ..old(self)@[rec as int] },
            ),
    {
        let mut node = self.nodes[rec];
        node.validated = true;
        self.nodes[rec] = node;
    }

    /// Every handle that some record announces, each once.
    pub fn announced(&self) -> (r: Vec<usize>)
        ensures
            forall|h: usize| r@.contains(h) <==> announces(self@, h),
    {
        let mut r: Vec<usize> = Vec::new();
        let n = self.nodes.len();
        let mut i: usize = 0;
        while i < n
            invariant
                n == self@.len(),
                i <= n,
                forall|h: usize| r@.contains(h) <==> announces(self@.take(i as int), h),
            decreases n - i,
        {
            let ghost before = self@.take(i as int);
            let ghost after = self@.take(i as int + 1);
            proof {
                assert forall|h: usize| announces(after, h) <==> (announces(before, h) || self@[i as int].hazard == Some(h)) by {
                    if announces(after, h) {
                        let j = choose|j: int| 0 <= j < after.len() && after[j].hazard == Some(h);
                        if j < i {
                            assert(before[j] == after[j]);
                        }
                    }
                    if announces(before, h) {
                        let j = choose|j: int| 0 <= j < before.len() && before[j].hazard == Some(h);
                        assert(after[j] == before[j]);
                    }
                    if self@[i as int].hazard == Some(h) {
                        assert(after[i as int] == self@[i as int]);
                    }
                }
            }
            let ghost r0 = r@;
            match self.nodes[i].hazard {
                Some(h) => {
                    if !contains(&r, h) {
                        r.push(h);
                        assert(forall|x: usize| r@.contains(x) <==> (r0.contains(x) || x == h)) by {
                            assert forall|x: usize| r0.contains(x) implies r@.contains(x) by {
                                let k = choose|k: int| 0 <= k < r0.len() && r0[k] == x;
                                assert(r@[k] == x);
                            }
                            assert(r@[r0.len() as int] == h);
                        }
                    }
                },
                None => {},
            }
            assert(forall|x: usize| r@.contains(x) <==> (r0.contains(x) || self@[i as int].hazard == Some(x)));
            assert forall|x: usize| r@.contains(x) <==> announces(after, x) by {
                assert(r0.contains(x) <==> announces(before, x));
            }
            i = i + 1;
        }
        proof {
            assert(self@.take(n as int) == self@);
        }
        r
    }

    /// Reclamation scan against `store`: collects every announced handle,
    /// keeps queued those that are announced, and hands back, in order, those
    /// that no record announces, which may now be freed.
    pub fn scan(&self, store: &mut RetireStore) -> (freed: Vec<usize>)
        ensures
            final(store)@ == old(store)@.filter(|h: usize| announces(self@, h)),
            freed@ == old(store)@.filter(|h: usize| !announces(self@, h)),
    {
        let protected = self.announced();
        let freed = store.retain_in(&protected);
        proof {
            let a = |h: usize| protected@.contains(h);
            let b = |h: usize| announces(self@, h);
            let c = |h: usize| !protected@.contains(h);
            let d = |h: usize| !announces(self@, h);
            assert(a =~= b);
            assert(c =~= d);
        }
        freed
    }
}

} // verus!
