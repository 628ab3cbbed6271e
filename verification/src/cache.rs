//! The selection cache: a bounded associative store from opaque,
//! process-unique identifiers to resolved file lists, kept in recency
//! order.  Inserting past capacity evicts the least-recently-used
//! entry; a successful lookup refreshes the entry's recency.  Entries
//! live only for the process lifetime.

use vstd::prelude::*;
use crate::text::clone_strings;

verus! {

/// The capacity the server configures its cache with.
pub const DEFAULT_CAPACITY: usize = 100;

/// One stored selection: its identifier and its resolved file list.
struct CacheSlot {
    id: u64,
    files: Vec<String>,
}

/// A bounded store of selections, least recently used first.
pub struct SelectionCache {
    entries: Vec<CacheSlot>,
    next_id: u64,
    cap: usize,
}

/// `m` holds an entry with identifier `id`.
pub open spec fn has_id(m: Seq<(u64, Seq<Seq<char>>)>, id: u64) -> bool {
    exists|i: int| 0 <= i < m.len() && m[i].0 == id
}

/// The position of the entry with identifier `id`.
pub open spec fn idx_of(m: Seq<(u64, Seq<Seq<char>>)>, id: u64) -> int {
    choose|i: int| 0 <= i < m.len() && m[i].0 == id
}

impl SelectionCache {
    /// The stored entries, least recently used first: each an
    /// identifier with its file list.
    pub closed spec fn model(&self) -> Seq<(u64, Seq<Seq<char>>)> {
        self.entries@.map_values(|s: CacheSlot| (s.id, s.files@.map_values(|f: String| f@)))
    }

    /// The identifier the next insertion will be given.
    pub closed spec fn spec_next_id(&self) -> u64 {
        self.next_id
    }

    /// The fixed capacity.
    pub closed spec fn spec_cap(&self) -> nat {
        self.cap as nat
    }

    /// The cache's invariant: a positive capacity that the store never
    /// exceeds, and pairwise-distinct identifiers, all below the next
    /// one to be handed out.
    pub open spec fn wf(&self) -> bool {
        &&& self.spec_cap() > 0
        &&& self.model().len() <= self.spec_cap()
        &&& (forall|i: int, j: int|
            0 <= i < j < self.model().len() ==> self.model()[i].0 != self.model()[j].0)
        &&& (forall|i: int|
            0 <= i < self.model().len() ==> (#[trigger] self.model()[i]).0 < self.spec_next_id())
    }

    /// An empty cache of capacity `cap`.
    pub fn new(cap: usize) -> (c: SelectionCache)
        requires
            cap > 0,
        ensures
            c.wf(),
            c.model() == Seq::<(u64, Seq<Seq<char>>)>::empty(),
            c.spec_next_id() == 0,
            c.spec_cap() == cap as nat,
    {
        let c = SelectionCache { entries: Vec::new(), next_id: 0, cap };
        proof {
            assert(c.model() =~= Seq::<(u64, Seq<Seq<char>>)>::empty());
        }
        c
    }

    /// Stores a file list under a fresh identifier and returns that
    /// identifier, evicting the least-recently-used entry if the cache
    /// is full.
    pub fn insert(&mut self, files: Vec<String>) -> (id: u64)
        requires
            old(self).wf(),
            old(self).spec_next_id() < u64::MAX,
        ensures
            final(self).wf(),
            id == old(self).spec_next_id(),
            final(self).spec_next_id() == old(self).spec_next_id() + 1,
            final(self).spec_cap() == old(self).spec_cap(),
            forall|j: int|
                0 <= j < old(self).model().len() ==> (#[trigger] old(self).model()[j]).0 != id,
            final(self).model() == (if old(self).model().len() == old(self).spec_cap() {
                old(self).model().drop_first()
            } else {
                old(self).model()
            }).push((id, files@.map_values(|f: String| f@))),
    {
        let ghost pre = self.model();
        if self.entries.len() == self.cap {
            self.entries.remove(0);
            proof {
                assert forall|j: int| 0 <= j < self.model().len() implies self.model()[j]
                    == pre.drop_first()[j] by {
                    assert(self.entries@[j] == old(self).entries@[j + 1]);
                }
                assert(self.model() =~= pre.drop_first());
            }
        }
        let ghost kept = self.model();
        let id = self.next_id;
        self.next_id = self.next_id + 1;
        self.entries.push(CacheSlot { id, files });
        proof {
            assert forall|j: int| 0 <= j < self.model().len() - 1 implies self.model()[j] == kept[
                j
            ] by {
                assert(self.entries@[j] == old(self).entries@[j + (pre.len() - kept.len())]);
            }
            assert(self.model()[self.model().len() - 1] == (
                id,
                files@.map_values(|f: String| f@),
            ));
            assert(self.model() =~= kept.push((id, files@.map_values(|f: String| f@))));
        }
        id
    }

    /// Returns a copy of the file list stored under `id`, if any, and
    /// marks that entry as the most recently used.  An unknown or
    /// already-evicted identifier yields nothing and changes nothing.
    pub fn lookup(&mut self, id: u64) -> (r: Option<Vec<String>>)
        requires
            old(self).wf(),
        ensures
            final(self).wf(),
            final(self).spec_next_id() == old(self).spec_next_id(),
            final(self).spec_cap() == old(self).spec_cap(),
            match r {
                None => final(self).model() == old(self).model() && !has_id(
                    old(self).model(),
                    id,
                ),
                Some(files) => {
                    &&& has_id(old(self).model(), id)
                    &&& files@.map_values(|f: String| f@) == old(self).model()[idx_of(
                        old(self).model(),
                        id,
                    )].1
                    &&& final(self).model() == old(self).model().remove(
                        idx_of(old(self).model(), id),
                    ).push(old(self).model()[idx_of(old(self).model(), id)])
                },
            },
    {
        let ghost pre = self.model();
        proof {
            assert(forall|a: int, b: int|
                0 <= a < b < pre.len() ==> pre[a].0 != pre[b].0) by {
                assert(forall|a: int, b: int|
                    0 <= a < b < old(self).model().len() ==> old(self).model()[a].0 != old(
                        self,
                    ).model()[b].0);
            }
        }
        let mut i: usize = 0;
        while i < self.entries.len()
            invariant
                i <= self.entries@.len(),
                self.model() == pre,
                *self == *old(self),
                forall|j: int| 0 <= j < i ==> (#[trigger] pre[j]).0 != id,
                forall|a: int, b: int| 0 <= a < b < pre.len() ==> pre[a].0 != pre[b].0,
                forall|j: int|
                    0 <= j < pre.len() ==> (#[trigger] pre[j]).0 < old(self).spec_next_id(),
                old(self).wf(),
            decreases self.entries@.len() - i,
        {
            if self.entries[i].id == id {
                proof {
                    assert(pre[i as int].0 == id);
                    assert(has_id(pre, id));
                    let k = idx_of(pre, id);
                    assert(0 <= k < pre.len() && pre[k].0 == id);
                    if k < i {
                        assert(pre[k].0 != pre[i as int].0);
                        assert(false);
                    } else if k > i {
                        assert(pre[i as int].0 != pre[k].0);
                        assert(false);
                    }
                }
                let slot = self.entries.remove(i);
                let copy = clone_strings(&slot.files);
                self.entries.push(slot);
                proof {
                    let n = pre.len();
                    assert forall|j: int| 0 <= j < n - 1 implies self.model()[j] == pre.remove(
                        i as int,
                    )[j] by {
                        if j < i {
                            assert(self.entries@[j] == old(self).entries@[j]);
                        } else {
                            assert(self.entries@[j] == old(self).entries@[j + 1]);
                        }
                    }
                    assert(self.model()[n - 1] == pre[i as int]);
                    assert(self.model() =~= pre.remove(i as int).push(pre[i as int]));
                    let m = self.model();
                    assert forall|a: int, b: int| 0 <= a < b < m.len() implies m[a].0 != m[b].0 by {
                        let sa: int = if a < i {
                            a
                        } else if a < n - 1 {
                            a + 1
                        } else {
                            i as int
                        };
                        let sb: int = if b < i {
                            b
                        } else if b < n - 1 {
                            b + 1
                        } else {
                            i as int
                        };
                        assert(m[a] == pre[sa]);
                        assert(m[b] == pre[sb]);
                        assert(sa != sb);
                        if sa < sb {
                            assert(pre[sa].0 != pre[sb].0);
                        } else {
                            assert(pre[sb].0 != pre[sa].0);
                        }
                    }
                    assert forall|j: int| 0 <= j < m.len() implies (#[trigger] m[j]).0 < self
                        .spec_next_id() by {
                        if j < n - 1 {
                            assert(m[j] == pre.remove(i as int)[j]);
                        } else {
                            assert(m[j] == pre[i as int]);
                        }
                    }
                }
                return Some(copy);
            }
            i = i + 1;
        }
        proof {
            if has_id(pre, id) {
                let k = idx_of(pre, id);
                assert(pre[k].0 == id);
                assert(false);
            }
        }
        None
    }

    /// Whether another selection can still be given a fresh
    /// identifier.
    pub fn can_insert(&self) -> (r: bool)
        ensures
            r == (self.spec_next_id() < u64::MAX),
    {
        self.next_id < u64::MAX
    }

    /// How many selections are stored.
    pub fn len(&self) -> (n: usize)
        ensures
            n == self.model().len(),
    {
        self.entries.len()
    }
}

} // verus!
