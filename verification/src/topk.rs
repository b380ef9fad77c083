//! Bounded retention of the largest entries in a stream.
//!
//! [`TopK`] is the scanner's retention structure: a fixed-capacity store
//! keyed by entry size. Offering an entry either stores it (spare room),
//! replaces the current minimum (when the entry is strictly larger), or
//! discards it — so peak space is bounded by the capacity however many
//! entries the stream holds, and the store always holds the largest of
//! them. Ties are broken in favour of what is already stored.

use vstd::prelude::*;
use vstd::multiset::Multiset;
use crate::ranked::{is_top_selection, lemma_subset_equal_len, sorted_desc_by};
use crate::scanner::{models_of, size_key, DirectoryEntry, EntryModel};

verus! {

/// A fixed-capacity store of the largest [`DirectoryEntry`] values offered
/// so far, in no particular order.
pub struct TopK {
    entries: Vec<DirectoryEntry>,
    capacity: usize,
    offered_log: Ghost<Multiset<EntryModel>>,
}

impl TopK {
    /// Everything ever offered to this store.
    pub closed spec fn offered(self) -> Multiset<EntryModel> {
        self.offered_log@
    }

    /// What the store holds right now.
    pub closed spec fn kept(self) -> Seq<EntryModel> {
        models_of(self.entries@)
    }

    /// The fixed capacity.
    pub closed spec fn cap(self) -> int {
        self.capacity as int
    }

    /// The retention invariant: the store holds as many entries as were
    /// offered, up to capacity; everything held was offered; and anything
    /// offered but not held is no larger than anything held.
    pub open spec fn wf(self) -> bool {
        &&& self.kept().len() == if self.offered().len() <= self.cap() {
            self.offered().len() as int
        } else {
            self.cap()
        }
        &&& self.kept().to_multiset().subset_of(self.offered())
        &&& forall|x: EntryModel|
            #[trigger] self.offered().count(x) > self.kept().to_multiset().count(x)
                ==> (forall|i: int|
                0 <= i < self.kept().len() ==> x.size <= #[trigger] self.kept()[i].size)
    }

    /// An empty store of the given capacity.
    pub fn new(capacity: usize) -> (r: TopK)
        ensures
            r.wf(),
            r.cap() == capacity,
            r.offered() =~= Multiset::<EntryModel>::empty(),
    {
        broadcast use vstd::multiset::group_multiset_axioms;
        broadcast use vstd::seq_lib::group_to_multiset_ensures;

        let r = TopK { entries: Vec::new(), capacity, offered_log: Ghost(Multiset::empty()) };
        proof {
            assert(r.kept() =~= Seq::<EntryModel>::empty());
            assert(r.kept().to_multiset().len() == 0);
        }
        r
    }

    /// Offer one entry: keep it if there is spare room, let it displace the
    /// current minimum if it is strictly larger, and discard it otherwise.
    pub fn offer(&mut self, e: DirectoryEntry)
        requires
            old(self).wf(),
        ensures
            final(self).wf(),
            final(self).cap() == old(self).cap(),
            final(self).offered() =~= old(self).offered().insert(e@),
    {
        broadcast use vstd::multiset::group_multiset_axioms;
        broadcast use vstd::seq_lib::group_to_multiset_ensures;

        let ghost em = e@;
        let ghost oldkept = self.kept();
        let ghost oldoff = self.offered();

        if self.entries.len() < self.capacity {
            // Spare room: nothing has ever been discarded, and still is not.
            proof {
                lemma_subset_equal_len(oldkept.to_multiset(), oldoff);
            }
            self.entries.push(e);
            proof {
                self.offered_log@ = oldoff.insert(em);
                oldkept.to_multiset_ensures();
                assert(self.kept() =~= oldkept.push(em));
                assert(self.kept().to_multiset() =~= oldkept.to_multiset().insert(em));
                assert forall|x: EntryModel| #[trigger]
                    self.offered().count(x) == self.kept().to_multiset().count(x) by {
                    assert(oldoff.count(x) == oldkept.to_multiset().count(x));
                }
            }
        } else if self.entries.len() == 0 {
            // Zero capacity: nothing is ever kept.
            proof {
                self.offered_log@ = oldoff.insert(em);
                assert(self.kept() =~= oldkept);
            }
        } else {
            // Full: find the current minimum.
            let mut m: usize = 0;
            let mut i: usize = 1;
            while i < self.entries.len()
                invariant
                    m < i <= self.entries.len(),
                    forall|j: int|
                        0 <= j < i ==> self.entries@[m as int].size
                            <= #[trigger] self.entries@[j].size,
                decreases self.entries.len() - i,
            {
                if self.entries[i].size < self.entries[m].size {
                    m = i;
                }
                i += 1;
            }
            let ghost minm = oldkept[m as int];
            proof {
                assert forall|j: int| 0 <= j < oldkept.len() implies minm.size
                    <= #[trigger] oldkept[j].size by {
                    assert(oldkept[j] == self.entries@[j]@);
                }
            }
            if e.size > self.entries[m].size {
                // Strictly larger than the minimum: displace it.
                let _dropped = self.entries.remove(m);
                self.entries.push(e);
                proof {
                    self.offered_log@ = oldoff.insert(em);
                    let shifted = oldkept.remove(m as int);
                    oldkept.to_multiset_ensures();
                    shifted.to_multiset_ensures();
                    assert(self.kept() =~= shifted.push(em));
                    assert(shifted.to_multiset() =~= oldkept.to_multiset().remove(minm));
                    assert(self.kept().to_multiset() =~= oldkept.to_multiset().remove(minm).insert(
                        em,
                    ));
                    assert(oldoff.len() >= oldkept.len()) by {
                        oldkept.to_multiset_ensures();
                        assert(oldkept.to_multiset().len() == oldkept.len());
                    }
                    assert forall|x: EntryModel| #[trigger]
                        self.offered().count(x) > self.kept().to_multiset().count(x) implies (
                    forall|i2: int|
                        0 <= i2 < self.kept().len() ==> x.size <= #[trigger] self.kept()[i2].size)
                        by {
                        // Anything now missing is the displaced minimum or was
                        // already missing before; either way it is at most the
                        // old minimum, which everything now kept matches or
                        // exceeds.
                        assert(em.size > minm.size);
                        if x != minm {
                            assert(oldoff.count(x) > oldkept.to_multiset().count(x));
                        }
                        assert(x.size <= minm.size);
                        assert forall|i2: int|
                            0 <= i2 < self.kept().len() implies x.size
                            <= #[trigger] self.kept()[i2].size by {
                            if i2 == self.kept().len() - 1 {
                                assert(self.kept()[i2] == em);
                            } else {
                                assert(self.kept()[i2] == shifted[i2]);
                                if i2 < m {
                                    assert(shifted[i2] == oldkept[i2]);
                                } else {
                                    assert(shifted[i2] == oldkept[i2 + 1]);
                                }
                            }
                        }
                    }
                }
            } else {
                // No larger than the minimum: discard it.
                proof {
                    self.offered_log@ = oldoff.insert(em);
                    assert(self.kept() =~= oldkept);
                    assert(oldoff.len() >= oldkept.len()) by {
                        oldkept.to_multiset_ensures();
                        assert(oldkept.to_multiset().len() == oldkept.len());
                    }
                    assert forall|x: EntryModel| #[trigger]
                        self.offered().count(x) > self.kept().to_multiset().count(x) implies (
                    forall|i2: int|
                        0 <= i2 < self.kept().len() ==> x.size <= #[trigger] self.kept()[i2].size)
                        by {
                        if x == em {
                            assert(x.size <= minm.size);
                        } else {
                            assert(oldoff.count(x) > oldkept.to_multiset().count(x));
                            assert(x.size <= minm.size);
                        }
                        assert forall|i2: int|
                            0 <= i2 < self.kept().len() implies x.size
                            <= #[trigger] self.kept()[i2].size by {
                            assert(self.kept()[i2] == oldkept[i2]);
                        }
                    }
                }
            }
        }
    }

    /// Drain the store: every entry it holds, sorted by non-increasing
    /// size — a top-`capacity` selection of everything ever offered.
    pub fn into_sorted_desc(self) -> (r: Vec<DirectoryEntry>)
        requires
            self.wf(),
        ensures
            is_top_selection(
                models_of(r@),
                self.offered(),
                self.cap(),
                size_key(),
            ),
    {
        broadcast use vstd::multiset::group_multiset_axioms;
        broadcast use vstd::seq_lib::group_to_multiset_ensures;

        let ghost off = self.offered();
        let ghost capg = self.cap();
        let TopK { entries: mut rest, capacity: _capacity, offered_log: _log } = self;
        let ghost orig = models_of(rest@);
        let mut out: Vec<DirectoryEntry> = Vec::new();
        proof {
            assert(models_of(out@) =~= Seq::<EntryModel>::empty());
        }
        while rest.len() > 0
            invariant
                models_of(out@).to_multiset().add(
                    models_of(rest@).to_multiset(),
                ) =~= orig.to_multiset(),
                sorted_desc_by(models_of(out@), size_key()),
                forall|x: EntryModel, i: int|
                    #![trigger models_of(rest@).to_multiset().count(x),
                        models_of(out@)[i]]
                    models_of(rest@).to_multiset().count(x) > 0 && 0 <= i
                        < out@.len() ==> x.size <= models_of(out@)[i].size,
            decreases rest.len(),
        {
            let ghost krest = models_of(rest@);
            let ghost kout = models_of(out@);
            // Find the largest remaining entry.
            let mut m: usize = 0;
            let mut i: usize = 1;
            while i < rest.len()
                invariant
                    m < i <= rest.len(),
                    forall|j: int| 0 <= j < i ==> #[trigger] rest@[j].size <= rest@[m as int].size,
                decreases rest.len() - i,
            {
                if rest[i].size > rest[m].size {
                    m = i;
                }
                i += 1;
            }
            let ghost maxm = krest[m as int];
            proof {
                assert forall|j: int| 0 <= j < krest.len() implies #[trigger] krest[j].size
                    <= maxm.size by {
                    assert(krest[j] == rest@[j]@);
                }
            }
            let e = rest.remove(m);
            out.push(e);
            proof {
                assert(models_of(rest@) =~= krest.remove(m as int));
                assert(models_of(out@) =~= kout.push(maxm));
                krest.to_multiset_ensures();
                kout.to_multiset_ensures();
                assert(krest.remove(m as int).to_multiset() =~= krest.to_multiset().remove(maxm));
                let krest2 = krest.remove(m as int);
                let kout2 = kout.push(maxm);
                assert forall|x: EntryModel, i2: int|
                    #![trigger krest2.to_multiset().count(x), kout2[i2]]
                    krest2.to_multiset().count(x) > 0 && 0 <= i2 < kout2.len() implies x.size
                    <= kout2[i2].size by {
                    assert(krest.to_multiset().count(x) > 0);
                    if i2 == kout2.len() - 1 {
                        assert(kout2[i2] == maxm);
                        krest.to_multiset_ensures();
                        assert(krest.contains(x));
                        let jx = choose|jx: int| 0 <= jx < krest.len() && krest[jx] == x;
                        assert(krest[jx].size <= maxm.size);
                    } else {
                        assert(kout2[i2] == kout[i2]);
                        assert(krest.to_multiset().count(x) > 0);
                    }
                }
                assert(sorted_desc_by(kout2, size_key())) by {
                    assert forall|a: int, b: int|
                        #![trigger size_key()(kout2[a]), size_key()(kout2[b])]
                        0 <= a <= b < kout2.len() implies size_key()(kout2[a]) >= size_key()(
                        kout2[b],
                    ) by {
                        if b < kout.len() {
                            assert(size_key()(kout[a]) >= size_key()(kout[b]));
                        } else if a < kout.len() {
                            assert(kout2[b] == maxm);
                            assert(krest.to_multiset().count(maxm) > 0) by {
                                krest.to_multiset_ensures();
                                assert(krest.contains(maxm));
                            }
                            assert(maxm.size <= kout[a].size);
                        }
                    }
                }
            }
        }
        proof {
            let kout = models_of(out@);
            let kseq = orig;
            kout.to_multiset_ensures();
            kseq.to_multiset_ensures();
            assert(models_of(rest@) =~= Seq::<EntryModel>::empty());
            assert(models_of(rest@).to_multiset() =~= Multiset::<
                EntryModel,
            >::empty());
            assert(kout.to_multiset() =~= kseq.to_multiset());
            assert(kout.to_multiset().len() == kout.len());
            assert(kseq.to_multiset().len() == kseq.len());
            // The output is a reordering of what was kept, so the selection
            // bound carries over from the retention invariant.
            assert forall|x: EntryModel| #[trigger] off.count(x) > kout.to_multiset().count(x)
                implies (forall|i: int|
                0 <= i < kout.len() ==> size_key()(x) <= #[trigger] size_key()(kout[i])) by {
                assert(off.count(x) > kseq.to_multiset().count(x));
                assert forall|i: int| 0 <= i < kout.len() implies size_key()(x)
                    <= #[trigger] size_key()(kout[i]) by {
                    assert(kout.to_multiset().count(kout[i]) > 0) by {
                        assert(kout.contains(kout[i]));
                    }
                    assert(kseq.to_multiset().count(kout[i]) > 0);
                    assert(kseq.contains(kout[i]));
                    let j = choose|j: int| 0 <= j < kseq.len() && kseq[j] == kout[i];
                    assert(x.size <= kseq[j].size);
                }
            }
        }
        out
    }
}

} // verus!
