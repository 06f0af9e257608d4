use crate::hazard::{after_lease, announces, first_free, has_free, HazardList, HazardNode};
use crate::retire::{lemma_filter_no_duplicates, RetireStore};
use std::collections::HashMap;
use std::hash::Hash;
use vstd::prelude::*;
use vstd::std_specs::hash::obeys_key_model;

verus! {

broadcast use vstd::std_specs::hash::group_hash_axioms;

/// How many retired snapshots are queued before a reclamation scan runs.
pub const RETIRE_LIMIT: usize = 5;

/// A writer's private copy of a snapshot with one write applied, together with
/// the handle of the snapshot it was copied from.
pub struct Draft<K, V> {
    base: usize,
    contents: HashMap<K, V>,
}

impl<K, V> Draft<K, V> {
    pub closed spec fn base(&self) -> usize {
        self.base
    }

    pub closed spec fn contents(&self) -> Map<K, V> {
        self.contents@
    }
}

/// A read-mostly map. Each version of its contents is an immutable snapshot
/// held in a slot of an arena and named by a handle; `current` names the
/// snapshot new readers see. Writers publish a changed copy by a
/// compare-and-swap on `current`; displaced snapshots are retired and freed
/// once no protection record announces them.
pub struct WRRMMap<K, V> {
    current: usize,
    slots: Vec<Option<HashMap<K, V>>>,
    hazard_list: HazardList,
    retired: RetireStore,
}

impl<K, V> WRRMMap<K, V> {
    /// The handle of the current snapshot.
    pub closed spec fn current(&self) -> usize {
        self.current
    }

    /// Whether the snapshot named `h` is allocated and not freed.
    pub closed spec fn is_live(&self, h: usize) -> bool {
        h < self.slots@.len() && self.slots@[h as int] is Some
    }

    /// The contents of the snapshot named `h`.
    pub closed spec fn snapshot(&self, h: usize) -> Map<K, V> {
        self.slots@[h as int].unwrap()@
    }

    /// The protection records of the registry.
    pub closed spec fn records(&self) -> Seq<HazardNode> {
        self.hazard_list@
    }

    /// The handles queued for reclamation, oldest first.
    pub closed spec fn retired(&self) -> Seq<usize> {
        self.retired@
    }

    /// Whether some protection record announces `h`.
    pub open spec fn protects(&self, h: usize) -> bool {
        announces(self.records(), h)
    }

    /// The queue of retired handles is short, or no longer than the registry.
    pub open spec fn retired_bounded(&self) -> bool {
        self.retired().len() < RETIRE_LIMIT || self.retired().len() <= self.records().len()
    }

    pub closed spec fn well_formed(&self) -> bool {
        &&& self.inv()
        &&& self.retired_bounded()
    }

    closed spec fn inv(&self) -> bool {
        &&& obeys_key_model::<K>()
        &&& self.is_live(self.current)
        &&& self.hazard_list.well_formed()
        &&& self.retired@.no_duplicates()
        &&& forall|i: int|
            0 <= i < self.retired@.len() ==> self.is_live(#[trigger] self.retired@[i])
                && self.retired@[i] != self.current
        &&& forall|i: int|
            0 <= i < self.hazard_list@.len() && #[trigger] self.hazard_list@[i].validated
                ==> self.is_live(self.hazard_list@[i].hazard.unwrap())
    }

    /// Every snapshot that is live both before and after keeps its contents.
    pub open spec fn keeps_snapshots(&self, before: &Self) -> bool {
        forall|h: usize|
            before.is_live(h) && self.is_live(h) ==> #[trigger] self.snapshot(h) == before.snapshot(h)
    }

    /// The same snapshots are live, with the same contents.
    pub open spec fn same_snapshots(&self, before: &Self) -> bool {
        &&& forall|h: usize| #[trigger] self.is_live(h) == before.is_live(h)
        &&& self.keeps_snapshots(before)
    }

    /// Only the snapshots queued in `q` were freed, and at most the current
    /// snapshot is new.
    pub open spec fn frees_only(&self, before: &Self, q: Seq<usize>) -> bool {
        &&& forall|h: usize| before.is_live(h) && !self.is_live(h) ==> q.contains(h)
        &&& forall|h: usize| self.is_live(h) && !before.is_live(h) ==> h == self.current()
    }

    /// What becomes of the queue `q` of retired handles: below the limit it
    /// stays queued; at the limit it is scanned, the announced handles stay
    /// queued in order and the others are freed.
    pub open spec fn retire_outcome(&self, before: &Self, q: Seq<usize>) -> bool {
        if q.len() < RETIRE_LIMIT {
            &&& self.retired() == q
            &&& forall|h: usize| q.contains(h) ==> self.is_live(h) == before.is_live(h)
        } else {
            &&& self.retired() == q.filter(|h: usize| before.protects(h))
            &&& forall|h: usize| q.contains(h) && !before.protects(h) ==> !self.is_live(h)
        }
    }
}

/// A queue of distinct handles that are all announced is no longer than the
/// registry that announces them.
proof fn lemma_announced_bound(records: Seq<HazardNode>, q: Seq<usize>)
    requires
        q.no_duplicates(),
        forall|i: int| 0 <= i < q.len() ==> announces(records, #[trigger] q[i]),
    ensures
        q.len() <= records.len(),
{
    let hs = records.map_values(
        |n: HazardNode|
            match n.hazard {
                Some(x) => x,
                None => 0usize,
            },
    );
    assert(q.to_set().subset_of(hs.to_set())) by {
        assert forall|x: usize| q.to_set().contains(x) implies hs.to_set().contains(x) by {
            assert(q.contains(x));
            let k = choose|k: int| 0 <= k < q.len() && q[k] == x;
            assert(announces(records, q[k]));
            let i = choose|i: int| 0 <= i < records.len() && records[i].hazard == Some(x);
            assert(hs[i] == x);
            assert(hs.contains(x));
        }
    }
    vstd::seq_lib::seq_to_set_is_finite(hs);
    vstd::set_lib::lemma_len_subset(q.to_set(), hs.to_set());
    hs.lemma_cardinality_of_set();
    q.unique_seq_to_set();
}

/// The contents after the writes of `writes`, in order, are applied to `m`.
pub open spec fn apply_writes<K, V>(m: Map<K, V>, writes: Seq<(K, V)>) -> Map<K, V>
    decreases writes.len(),
{
    if writes.len() == 0 {
        m
    } else {
        apply_writes(m, writes.drop_last()).insert(writes.last().0, writes.last().1)
    }
}

/// Read-your-writes: after a sequence of writes, a key holds the value of the
/// last write to it.
pub proof fn lemma_read_your_writes<K, V>(m: Map<K, V>, writes: Seq<(K, V)>, i: int)
    requires
        0 <= i < writes.len(),
        forall|j: int| i < j < writes.len() ==> #[trigger] writes[j].0 != writes[i].0,
    ensures
        apply_writes(m, writes).contains_key(writes[i].0),
        apply_writes(m, writes)[writes[i].0] == writes[i].1,
    decreases writes.len(),
{
    if i < writes.len() - 1 {
        let rest = writes.drop_last();
        assert forall|j: int| i < j < rest.len() implies #[trigger] rest[j].0 != rest[i].0 by {
            assert(rest[j] == writes[j]);
        }
        lemma_read_your_writes(m, rest, i);
        assert(writes[writes.len() - 1].0 != writes[i].0);
    }
}

/// Overwriting a key twice leaves one entry, with the second value, and no
/// more entries than after the first write.
pub proof fn lemma_overwrite<K, V>(m: Map<K, V>, k: K, v1: V, v2: V)
    requires
        m.dom().finite(),
    ensures
        m.insert(k, v1).insert(k, v2) == m.insert(k, v2),
        m.insert(k, v1).insert(k, v2).dom().len() == m.insert(k, v1).dom().len(),
        m.insert(k, v1).insert(k, v2)[k] == v2,
{
    assert(m.insert(k, v1).insert(k, v2) =~= m.insert(k, v2));
    assert(m.insert(k, v1).insert(k, v2).dom() =~= m.insert(k, v1).dom());
}

/// The snapshot that a confirmed record announces is live: it cannot have
/// been freed, so reading it is safe.
pub proof fn lemma_confirmed_is_live<K, V>(m: &WRRMMap<K, V>, rec: int)
    requires
        m.well_formed(),
        0 <= rec < m.records().len(),
        m.records()[rec].validated,
    ensures
        m.records()[rec].hazard is Some,
        m.is_live(m.records()[rec].hazard.unwrap()),
        m.protects(m.records()[rec].hazard.unwrap()),
{
    assert(m.hazard_list@[rec].well_formed());
}

/// Snapshot isolation: across steps that keep a confirmed record in place and
/// keep the contents of every live snapshot, as writes and scans do, the
/// reader holding the record sees one unchanged snapshot.
pub proof fn lemma_confirmed_read_is_stable<K, V>(
    before: &WRRMMap<K, V>,
    after: &WRRMMap<K, V>,
    rec: int,
)
    requires
        before.well_formed(),
        after.well_formed(),
        0 <= rec < before.records().len(),
        rec < after.records().len(),
        before.records()[rec].validated,
        after.records()[rec] == before.records()[rec],
        after.keeps_snapshots(before),
    ensures
        after.is_live(after.records()[rec].hazard.unwrap()),
        after.snapshot(after.records()[rec].hazard.unwrap()) == before.snapshot(
            before.records()[rec].hazard.unwrap(),
        ),
{
    lemma_confirmed_is_live(before, rec);
    lemma_confirmed_is_live(after, rec);
}

/// Eventual reclamation: once every reader has released its record, a scan
/// leaves nothing queued, so every retired snapshot has been freed.
pub proof fn lemma_quiet_scan_frees_all<K, V>(before: &WRRMMap<K, V>, after: &WRRMMap<K, V>)
    requires
        before.well_formed(),
        forall|i: int| 0 <= i < before.records().len() ==> !(#[trigger] before.records()[i]).active,
        after.retired() == before.retired().filter(|h: usize| before.protects(h)),
        forall|h: usize| before.retired().contains(h) && !before.protects(h) ==> !after.is_live(h),
    ensures
        after.retired().len() == 0,
        forall|i: int| 0 <= i < before.retired().len() ==> !after.is_live(#[trigger] before.retired()[i]),
{
    broadcast use vstd::seq_lib::group_filter_ensures;

    assert forall|h: usize| !before.protects(h) by {
        if before.protects(h) {
            let i = choose|i: int| 0 <= i < before.records().len() && before.records()[i].hazard == Some(h);
            assert(before.hazard_list@[i].well_formed());
        }
    }
    if after.retired().len() > 0 {
        let pred = |h: usize| before.protects(h);
        assert(pred(before.retired().filter(pred)[0]));
    }
    assert forall|i: int| 0 <= i < before.retired().len() implies !after.is_live(#[trigger] before.retired()[i]) by {
        assert(before.retired().contains(before.retired()[i]));
    }
}

/// The queue of retired snapshots stays bounded: it is shorter than the
/// limit, or no longer than the registry of protection records.
pub proof fn lemma_retired_bounded<K, V>(m: &WRRMMap<K, V>)
    requires
        m.well_formed(),
    ensures
        m.retired().len() < RETIRE_LIMIT || m.retired().len() <= m.records().len(),
        forall|i: int| 0 <= i < m.retired().len() ==> m.is_live(#[trigger] m.retired()[i]),
{
}

impl<K, V> View for WRRMMap<K, V> {
    type V = Map<K, V>;

    closed spec fn view(&self) -> Map<K, V> {
        self.snapshot(self.current)
    }
}

impl<K: Clone + Eq + Hash, V: Clone> WRRMMap<K, V> {
    /// An empty map: one empty current snapshot, no protection records and
    /// nothing retired. Keys must hash and compare consistently.
    pub fn new() -> (r: Self)
        requires
            obeys_key_model::<K>(),
        ensures
            r.well_formed(),
            r@ == Map::<K, V>::empty(),
            r.records() == Seq::<HazardNode>::empty(),
            r.retired() == Seq::<usize>::empty(),
    {
        let mut slots: Vec<Option<HashMap<K, V>>> = Vec::new();
        slots.push(Some(HashMap::new()));
        WRRMMap { current: 0, slots, hazard_list: HazardList::new(), retired: RetireStore::new() }
    }

    /// Reads the current handle.
    pub fn load_current(&self) -> (r: usize)
        ensures
            r == self.current(),
    {
        self.current
    }

    /// Puts `contents` into a free slot, the first one or else a new one.
    fn allocate(&mut self, contents: HashMap<K, V>) -> (r: usize)
        ensures
            r <= old(self).slots@.len(),
            !old(self).is_live(r),
            r < old(self).slots@.len() ==> final(self).slots@ == old(self).slots@.update(
                r as int,
                Some(contents),
            ),
            r == old(self).slots@.len() ==> final(self).slots@ == old(self).slots@.push(
                Some(contents),
            ),
            final(self).current == old(self).current,
            final(self).hazard_list == old(self).hazard_list,
            final(self).retired == old(self).retired,
    {
        let n = self.slots.len();
        let mut i: usize = 0;
        while i < n
            invariant
                *self == *old(self),
                n == self.slots@.len(),
                i <= n,
                forall|j: int| 0 <= j < i ==> self.slots@[j] is Some,
            decreases n - i,
        {
            if self.slots[i].is_none() {
                self.slots[i] = Some(contents);
                return i;
            }
            i = i + 1;
        }
        self.slots.push(Some(contents));
        n
    }

    /// Reclamation scan: every retired snapshot that no record announces is
    /// freed and leaves the queue; the announced ones stay queued in order.
    pub fn scan(&mut self)
        requires
            old(self).well_formed(),
        ensures
            final(self).well_formed(),
            final(self).current() == old(self).current(),
            final(self).records() == old(self).records(),
            final(self).retired() == old(self).retired().filter(|h: usize| old(self).protects(h)),
            forall|h: usize| old(self).retired().contains(h) && !old(self).protects(h) ==> !final(self).is_live(h),
            forall|h: usize| !old(self).retired().contains(h) ==> final(self).is_live(h) == old(self).is_live(h),
            final(self).keeps_snapshots(old(self)),
            final(self)@ == old(self)@,
    {
        self.reclaim();
    }

    fn reclaim(&mut self)
        requires
            old(self).inv(),
        ensures
            final(self).inv(),
            final(self).retired_bounded(),
            final(self).current() == old(self).current(),
            final(self).records() == old(self).records(),
            final(self).retired() == old(self).retired().filter(|h: usize| old(self).protects(h)),
            forall|h: usize| old(self).retired().contains(h) && !old(self).protects(h) ==> !final(self).is_live(h),
            forall|h: usize| !old(self).retired().contains(h) ==> final(self).is_live(h) == old(self).is_live(h),
            final(self).keeps_snapshots(old(self)),
            final(self)@ == old(self)@,
    {
        let ghost q = self.retired@;
        let ghost pre = self.slots@;
        let freed = self.hazard_list.scan(&mut self.retired);
        let ghost keep = |h: usize| announces(self.hazard_list@, h);
        let ghost drop = |h: usize| !announces(self.hazard_list@, h);
        proof {
            broadcast use vstd::seq_lib::group_filter_ensures;

            lemma_filter_no_duplicates(q, keep);
            assert forall|h: usize| freed@.contains(h) implies q.contains(h) && !self.protects(h) by {
                q.lemma_filter_contains_rev(drop, h);
                let k = choose|k: int| 0 <= k < freed@.len() && freed@[k] == h;
                assert(drop(freed@[k]));
            }
            assert forall|h: usize| freed@.contains(h) implies (h as int) < pre.len() && h != self.current by {
                q.lemma_filter_contains_rev(drop, h);
                let k = choose|k: int| 0 <= k < q.len() && q[k] == h;
                assert(old(self).is_live(old(self).retired@[k]));
            }
            assert forall|h: usize| q.contains(h) && !self.protects(h) implies freed@.contains(h) by {
                let k = choose|k: int| 0 <= k < q.len() && q[k] == h;
                assert(drop(q[k]));
            }
        }
        let n = freed.len();
        let mut i: usize = 0;
        while i < n
            invariant
                n == freed@.len(),
                i <= n,
                self.current == old(self).current,
                self.hazard_list == old(self).hazard_list,
                self.retired@ == q.filter(keep),
                keep == (|h: usize| announces(self.hazard_list@, h)),
                self.slots@.len() == pre.len(),
                forall|j: int| 0 <= j < i ==> self.slots@[freed@[j] as int] is None,
                forall|h: int|
                    0 <= h < pre.len() && !freed@.take(i as int).contains(h as usize)
                        ==> #[trigger] self.slots@[h] == pre[h],
                forall|h: usize| freed@.contains(h) ==> (h as int) < pre.len() && h != self.current,
            decreases n - i,
        {
            let h = freed[i];
            assert(freed@.contains(h));
            self.slots[h] = None;
            proof {
                assert forall|j: int| 0 <= j < i + 1 implies self.slots@[freed@[j] as int] is None by {
                    assert(freed@.contains(freed@[j]));
                }
                assert forall|x: int|
                    0 <= x < pre.len() && !freed@.take(i as int + 1).contains(x as usize)
                    implies #[trigger] self.slots@[x] == pre[x] by {
                    assert(freed@.take(i as int + 1)[i as int] == h);
                    if freed@.take(i as int).contains(x as usize) {
                        let k = choose|k: int| 0 <= k < i && freed@.take(i as int)[k] == x as usize;
                        assert(freed@.take(i as int + 1)[k] == x as usize);
                    }
                }
            }
            i = i + 1;
        }
        proof {
            assert(freed@.take(n as int) == freed@);
            assert(keep =~= (|h: usize| old(self).protects(h)));
            assert forall|h: usize| old(self).retired().contains(h) && !old(self).protects(h)
                implies !self.is_live(h) by {
                let k = choose|k: int| 0 <= k < freed@.len() && freed@[k] == h;
            }
            assert forall|i: int| 0 <= i < self.retired@.len() implies self.is_live(
                #[trigger] self.retired@[i],
            ) && self.retired@[i] != self.current by {
                let h = self.retired@[i];
                assert(keep(h));
                q.lemma_filter_contains_rev(keep, h);
                assert(!freed@.contains(h));
                let k = choose|k: int| 0 <= k < q.len() && q[k] == h;
                assert(old(self).is_live(q[k]));
            }
            assert forall|i: int|
                0 <= i < self.hazard_list@.len() && #[trigger] self.hazard_list@[i].validated
                implies self.is_live(self.hazard_list@[i].hazard.unwrap()) by {
                let h = self.hazard_list@[i].hazard.unwrap();
                assert(self.hazard_list@[i].well_formed());
                assert(self.protects(h));
                assert(old(self).is_live(h));
            }
            assert forall|h: usize| !old(self).retired().contains(h) implies self.is_live(h)
                == old(self).is_live(h) by {
                if (h as int) < pre.len() {
                    assert(!freed@.contains(h));
                }
            }
            assert forall|h: usize| old(self).is_live(h) && self.is_live(h) implies #[trigger] self.snapshot(
                h,
            ) == old(self).snapshot(h) by {
                if freed@.contains(h) {
                    let k = choose|k: int| 0 <= k < freed@.len() && freed@[k] == h;
                }
            }
            assert forall|i: int| 0 <= i < self.retired@.len() implies announces(
                self.hazard_list@,
                #[trigger] self.retired@[i],
            ) by {
                assert(keep(self.retired@[i]));
            }
            lemma_announced_bound(self.hazard_list@, self.retired@);
        }
    }

    /// Queues a displaced snapshot for reclamation; once the queue holds
    /// `RETIRE_LIMIT` entries a scan runs.
    pub fn retire(&mut self, old_handle: usize)
        requires
            old(self).well_formed(),
            old(self).is_live(old_handle),
            old_handle != old(self).current(),
            !old(self).retired().contains(old_handle),
        ensures
            final(self).well_formed(),
            final(self).current() == old(self).current(),
            final(self).records() == old(self).records(),
            final(self).retire_outcome(old(self), old(self).retired().push(old_handle)),
            final(self).frees_only(old(self), old(self).retired().push(old_handle)),
            final(self).keeps_snapshots(old(self)),
            final(self)@ == old(self)@,
    {
        let ghost q = self.retired@.push(old_handle);
        self.retired.push(old_handle);
        proof {
            assert forall|i: int| 0 <= i < self.retired@.len() implies self.is_live(
                #[trigger] self.retired@[i],
            ) && self.retired@[i] != self.current by {
                if i < old(self).retired@.len() {
                    assert(self.retired@[i] == old(self).retired@[i]);
                }
            }
        }
        if self.retired.len() >= RETIRE_LIMIT {
            let ghost mid = *self;
            self.reclaim();
            assert((|h: usize| mid.protects(h)) =~= (|h: usize| old(self).protects(h)));
        }
    }

    /// First half of a write: copies the current snapshot and applies the
    /// write to the copy, which no reader can see.
    pub fn begin_update(&self, key: K, val: V) -> (d: Draft<K, V>)
        requires
            self.well_formed(),
        ensures
            d.base() == self.current(),
            d.contents() == self@.insert(key, val),
    {
        let p = self.current;
        match &self.slots[p] {
            Some(m) => {
                let mut contents = m.clone();
                contents.insert(key, val);
                Draft { base: p, contents }
            },
            None => {
                assert(false);
                Draft { base: p, contents: HashMap::new() }
            },
        }
    }

    /// Second half of a write: the compare-and-swap. When the current handle
    /// is still the one the draft was copied from, the draft becomes the new
    /// current snapshot and the displaced one is retired; otherwise nothing
    /// changes, the draft is dropped and the writer must start again. Writers
    /// retry without bound: some writer always succeeds, but a given writer
    /// may lose any number of times (lock-free, not wait-free).
    pub fn try_publish(&mut self, draft: Draft<K, V>) -> (r: bool)
        requires
            old(self).well_formed(),
        ensures
            final(self).well_formed(),
            r == (draft.base() == old(self).current()),
            final(self).records() == old(self).records(),
            final(self).keeps_snapshots(old(self)),
            !r ==> final(self).current() == old(self).current() && final(self).retired() == old(
                self,
            ).retired() && final(self).same_snapshots(old(self)),
            r ==> final(self)@ == draft.contents() && !old(self).is_live(final(self).current())
                && final(self).retire_outcome(old(self), old(self).retired().push(old(self).current()))
                && final(self).frees_only(old(self), old(self).retired().push(old(self).current())),
    {
        if self.current != draft.base {
            return false;
        }
        let p = self.current;
        let n = self.allocate(draft.contents);
        self.current = n;
        let ghost mid = *self;
        proof {
            assert(forall|h: usize| h != n ==> mid.is_live(h) == old(self).is_live(h));
            assert(forall|h: usize| h != n && (h as int) < old(self).slots@.len() ==> mid.slots@[h as int] == old(self).slots@[h as int]);
            assert forall|i: int| 0 <= i < self.retired@.len() implies self.is_live(
                #[trigger] self.retired@[i],
            ) && self.retired@[i] != self.current by {
                assert(old(self).is_live(old(self).retired@[i]));
            }
            assert forall|i: int|
                0 <= i < self.hazard_list@.len() && #[trigger] self.hazard_list@[i].validated
                implies self.is_live(self.hazard_list@[i].hazard.unwrap()) by {
                assert(old(self).hazard_list@[i].validated);
            }
            assert(!self.retired@.contains(p)) by {
                if self.retired@.contains(p) {
                    let k = choose|k: int| 0 <= k < self.retired@.len() && self.retired@[k] == p;
                    assert(old(self).retired@[k] != old(self).current);
                }
            }
        }
        self.retire(p);
        proof {
            let q = old(self).retired().push(p);
            assert((|h: usize| mid.protects(h)) =~= (|h: usize| old(self).protects(h)));
            assert(self@ == draft.contents());
            assert(!old(self).is_live(self.current()));
            assert forall|h: usize| old(self).is_live(h) && self.is_live(h) implies #[trigger] self.snapshot(h)
                == old(self).snapshot(h) by {
                assert(mid.is_live(h));
                assert(self.snapshot(h) == mid.snapshot(h));
            }
            assert forall|h: usize| old(self).is_live(h) && !self.is_live(h) implies q.contains(h) by {
                assert(mid.is_live(h));
            }
            assert forall|h: usize| self.is_live(h) && !old(self).is_live(h) implies h == self.current() by {
                assert(mid.is_live(h));
            }
            if q.len() < RETIRE_LIMIT {
                assert forall|h: usize| q.contains(h) implies self.is_live(h) == old(self).is_live(h) by {
                    if h == n {
                        let k = choose|k: int| 0 <= k < q.len() && q[k] == h;
                        if k < old(self).retired@.len() {
                            assert(old(self).is_live(old(self).retired@[k]));
                        }
                    }
                }
            }
        }
        true
    }

    /// Writes `val` under `key`: copies the current snapshot, applies the
    /// write and publishes the copy, then retires the displaced snapshot.
    /// Readers see either the old or the new snapshot, never a mixture.
    pub fn update(&mut self, key: K, val: V)
        requires
            old(self).well_formed(),
        ensures
            final(self).well_formed(),
            final(self)@ == old(self)@.insert(key, val),
            final(self).records() == old(self).records(),
            final(self).keeps_snapshots(old(self)),
            !old(self).is_live(final(self).current()),
            final(self).retire_outcome(old(self), old(self).retired().push(old(self).current())),
            final(self).frees_only(old(self), old(self).retired().push(old(self).current())),
    {
        let draft = self.begin_update(key, val);
        let published = self.try_publish(draft);
        assert(published);
    }

    /// How many retired snapshots wait for reclamation.
    pub fn retired_len(&self) -> (r: usize)
        ensures
            r == self.retired().len(),
    {
        self.retired.len()
    }

    /// How many protection records the registry holds.
    pub fn record_count(&self) -> (r: usize)
        ensures
            r == self.records().len(),
    {
        self.hazard_list.len()
    }

    /// Whether the snapshot named `h` is allocated and not freed.
    pub fn snapshot_is_live(&self, h: usize) -> (r: bool)
        ensures
            r == self.is_live(h),
    {
        h < self.slots.len() && self.slots[h].is_some()
    }

    /// Leases a protection record to a reader: the first free one, or a new
    /// one when all are leased.
    pub fn acquire(&mut self) -> (rec: usize)
        requires
            old(self).well_formed(),
        ensures
            final(self).well_formed(),
            rec == first_free(old(self).records()),
            rec < final(self).records().len(),
            final(self).records()[rec as int] == HazardNode::leased(),
            has_free(old(self).records()) ==> final(self).records() == old(self).records().update(
                rec as int,
                HazardNode::leased(),
            ),
            !has_free(old(self).records()) ==> final(self).records() == old(self).records().push(
                HazardNode::leased(),
            ),
            final(self).current() == old(self).current(),
            final(self).retired() == old(self).retired(),
            final(self).same_snapshots(old(self)),
    {
        let rec = self.hazard_list.acquire();
        proof {
            crate::hazard::lemma_first_free(old(self).records());
            assert forall|i: int|
                0 <= i < self.hazard_list@.len() && #[trigger] self.hazard_list@[i].validated
                implies self.is_live(self.hazard_list@[i].hazard.unwrap()) by {
                if i < old(self).hazard_list@.len() && i != rec {
                    assert(old(self).hazard_list@[i].validated);
                }
            }
        }
        rec
    }

    /// Announces `h` in the reader's record `rec`. The announcement protects
    /// `h` from reclamation but is not yet confirmed.
    pub fn announce(&mut self, rec: usize, h: usize)
        requires
            old(self).well_formed(),
            rec < old(self).records().len(),
            old(self).records()[rec as int].active,
        ensures
            final(self).well_formed(),
            final(self).records() == old(self).records().update(
                rec as int,
                HazardNode { hazard: Some(h), active: true, validated: false },
            ),
            final(self).current() == old(self).current(),
            final(self).retired() == old(self).retired(),
            final(self).same_snapshots(old(self)),
    {
        self.hazard_list.announce(rec, h);
        proof {
            assert forall|i: int|
                0 <= i < self.hazard_list@.len() && #[trigger] self.hazard_list@[i].validated
                implies self.is_live(self.hazard_list@[i].hazard.unwrap()) by {
                assert(old(self).hazard_list@[i].validated);
            }
        }
    }

    /// Reloads the current handle and compares it with the announcement of
    /// `rec`. When they are equal the announcement is confirmed: the snapshot
    /// was current after it was announced, so no scan can have freed it, and
    /// none will while it stays announced. Otherwise the reader must announce
    /// again.
    pub fn validate(&mut self, rec: usize) -> (r: bool)
        requires
            old(self).well_formed(),
            rec < old(self).records().len(),
            old(self).records()[rec as int].active,
        ensures
            final(self).well_formed(),
            r == (old(self).records()[rec as int].hazard == Some(old(self).current())),
            r ==> final(self).records() == old(self).records().update(
                rec as int,
                HazardNode { validated: true, ..old(self).records()[rec as int] },
            ),
            !r ==> final(self).records() == old(self).records(),
            final(self).current() == old(self).current(),
            final(self).retired() == old(self).retired(),
            final(self).same_snapshots(old(self)),
    {
        let node = self.hazard_list.get(rec);
        if node.hazard == Some(self.current) {
            self.hazard_list.confirm(rec);
            proof {
                assert forall|i: int|
                    0 <= i < self.hazard_list@.len() && #[trigger] self.hazard_list@[i].validated
                    implies self.is_live(self.hazard_list@[i].hazard.unwrap()) by {
                    if i != rec {
                        assert(old(self).hazard_list@[i].validated);
                    }
                }
            }
            true
        } else {
            false
        }
    }

    /// Looks `key` up in the snapshot that the confirmed record `rec`
    /// announces, and returns a clone of the value found.
    pub fn read(&self, rec: usize, key: &K) -> (r: Option<V>)
        requires
            self.well_formed(),
            rec < self.records().len(),
            self.records()[rec as int].validated,
        ensures
            self.is_live(self.records()[rec as int].hazard.unwrap()),
            r is None <==> !self.snapshot(self.records()[rec as int].hazard.unwrap()).contains_key(*key),
            r is Some ==> cloned(
                self.snapshot(self.records()[rec as int].hazard.unwrap())[*key],
                r.unwrap(),
            ),
    {
        let node = self.hazard_list.get(rec);
        assert(self.hazard_list@[rec as int].well_formed());
        let h = match node.hazard {
            Some(h) => h,
            None => 0,
        };
        match &self.slots[h] {
            Some(m) => m.get(key).cloned(),
            None => None,
        }
    }

    /// Gives the record `rec` back: its announcement is cleared, then it is
    /// marked free for reuse.
    pub fn release(&mut self, rec: usize)
        requires
            old(self).well_formed(),
            rec < old(self).records().len(),
        ensures
            final(self).well_formed(),
            final(self).records() == old(self).records().update(rec as int, HazardNode::idle()),
            final(self).current() == old(self).current(),
            final(self).retired() == old(self).retired(),
            final(self).same_snapshots(old(self)),
    {
        self.hazard_list.release(rec);
        proof {
            assert forall|i: int|
                0 <= i < self.hazard_list@.len() && #[trigger] self.hazard_list@[i].validated
                implies self.is_live(self.hazard_list@[i].hazard.unwrap()) by {
                assert(old(self).hazard_list@[i].validated);
            }
        }
    }

    /// Looks `key` up in the current snapshot and returns a clone of the value
    /// found. A record is leased, the current handle announced and confirmed,
    /// the snapshot read, and the record released.
    pub fn get(&mut self, key: &K) -> (r: Option<V>)
        requires
            old(self).well_formed(),
        ensures
            final(self).well_formed(),
            r is None <==> !old(self)@.contains_key(*key),
            r is Some ==> cloned(old(self)@[*key], r.unwrap()),
            final(self)@ == old(self)@,
            final(self).records() == after_lease(old(self).records()),
            final(self).current() == old(self).current(),
            final(self).retired() == old(self).retired(),
            final(self).same_snapshots(old(self)),
    {
        let rec = self.acquire();
        let p = self.load_current();
        self.announce(rec, p);
        let confirmed = self.validate(rec);
        assert(confirmed);
        let r = self.read(rec, key);
        self.release(rec);
        proof {
            let s = old(self).records();
            crate::hazard::lemma_first_free(s);
            if has_free(s) {
                assert(s[rec as int].well_formed());
                assert(self.records() =~= s);
            } else {
                assert(self.records() =~= s.push(HazardNode::idle()));
            }
        }
        r
    }
}

} // verus!
