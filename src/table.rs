//! An id-keyed table of embeddings stored in dense slots.
//!
//! Slots let the indexes walk every entry and keep per-entry side arrays,
//! while the hash map finds an id's slot in constant time.
use vstd::prelude::*;
use vstd::hash_map::StringHashMap;
use crate::index::IndexHit;

verus! {

pub(crate) struct EmbeddingTable {
    pub(crate) ids: Vec<String>,
    pub(crate) data: Vec<Vec<u32>>,
    pub(crate) slots: StringHashMap<usize>,
}

impl EmbeddingTable {
    /// Every slot is named by its id, and every id names its slot.
    pub(crate) open spec fn wf(&self) -> bool {
        &&& self.ids@.len() == self.data@.len()
        &&& self.slots@.dom().finite()
        &&& self.slots@.len() == self.ids@.len()
        &&& forall|i: int|
            0 <= i < self.ids@.len() ==> self.slots@.contains_key(#[trigger] self.ids@[i]@)
                && self.slots@[self.ids@[i]@] == i
        &&& forall|k: Seq<char>|
            #[trigger] self.slots@.contains_key(k) ==> self.slots@[k] < self.ids@.len()
                && self.ids@[self.slots@[k] as int]@ == k
    }

    /// The embedding stored under each id.
    pub(crate) open spec fn map(&self) -> Map<Seq<char>, Seq<u32>> {
        Map::new(
            |k: Seq<char>| self.slots@.contains_key(k),
            |k: Seq<char>| self.data@[self.slots@[k] as int]@,
        )
    }

    pub(crate) proof fn lemma_map_len(&self)
        requires
            self.wf(),
        ensures
            self.map().dom() == self.slots@.dom(),
            self.map().dom().finite(),
            self.map().len() == self.ids@.len(),
    {
        assert(self.map().dom() =~= self.slots@.dom());
    }

    pub(crate) proof fn lemma_ids_distinct(&self, i: int, j: int)
        requires
            self.wf(),
            0 <= i < self.ids@.len(),
            0 <= j < self.ids@.len(),
            i != j,
        ensures
            self.ids@[i]@ != self.ids@[j]@,
    {
        assert(self.slots@[self.ids@[i]@] == i);
        assert(self.slots@[self.ids@[j]@] == j);
    }

    pub(crate) fn new() -> (r: EmbeddingTable)
        ensures
            r.wf(),
            r.map() == Map::<Seq<char>, Seq<u32>>::empty(),
            r.ids@.len() == 0,
    {
        let r = EmbeddingTable { ids: Vec::new(), data: Vec::new(), slots: StringHashMap::new() };
        assert(r.map() =~= Map::<Seq<char>, Seq<u32>>::empty());
        r
    }

    pub(crate) fn len(&self) -> (r: usize)
        requires
            self.wf(),
        ensures
            r == self.ids@.len(),
            r == self.map().len(),
    {
        proof {
            self.lemma_map_len();
        }
        self.ids.len()
    }

    /// The slot that holds `id`, if any.
    pub(crate) fn slot_of(&self, id: &str) -> (r: Option<usize>)
        requires
            self.wf(),
        ensures
            r is None <==> !self.map().contains_key(id@),
            r matches Some(i) ==> i < self.ids@.len() && self.ids@[i as int]@ == id@
                && self.slots@[id@] == i,
    {
        match self.slots.get(id) {
            Some(i) => Some(*i),
            None => None,
        }
    }

    /// Stores `v` under `id`, replacing what was there. Returns the slot used
    /// and whether the id is new; a new id takes the next slot.
    pub(crate) fn upsert(&mut self, id: String, v: Vec<u32>) -> (r: (usize, bool))
        requires
            old(self).wf(),
            old(self).ids@.len() < usize::MAX,
        ensures
            final(self).wf(),
            final(self).map() == old(self).map().insert(id@, v@),
            r.1 == !old(self).map().contains_key(id@),
            r.1 ==> r.0 == old(self).ids@.len() && final(self).ids@ == old(self).ids@.push(id)
                && final(self).data@ == old(self).data@.push(v),
            !r.1 ==> r.0 < old(self).ids@.len() && final(self).ids@ == old(self).ids@
                && final(self).data@ == old(self).data@.update(r.0 as int, v),
            old(self).slots@.contains_key(id@) ==> r.0 == old(self).slots@[id@],
    {
        let ghost pre = *self;
        let ghost kv = id@;
        let ghost vv = v@;
        match self.slot_of(id.as_str()) {
            Some(i) => {
                self.data.set(i, v);
                proof {
                    assert(self.map() =~= pre.map().insert(kv, vv)) by {
                        assert forall|k: Seq<char>| #[trigger]
                            self.map().contains_key(k) implies self.map()[k] == pre.map().insert(
                            kv,
                            vv,
                        )[k] by {
                            if k != kv {
                                assert(self.slots@[k] != i);
                            }
                        }
                    }
                }
                (i, false)
            },
            None => {
                let n = self.ids.len();
                self.slots.insert(id.clone(), n);
                self.ids.push(id);
                self.data.push(v);
                proof {
                    assert forall|j: int| 0 <= j < self.ids@.len() implies #[trigger]
                        self.slots@.contains_key(self.ids@[j]@) && self.slots@[self.ids@[j]@]
                            == j by {
                        if j < n {
                            assert(pre.slots@.contains_key(pre.ids@[j]@));
                        }
                    }
                    assert(self.map() =~= pre.map().insert(kv, vv)) by {
                        assert forall|k: Seq<char>| #[trigger]
                            self.map().contains_key(k) implies self.map()[k] == pre.map().insert(
                            kv,
                            vv,
                        )[k] by {
                            if k != kv {
                                assert(pre.slots@.contains_key(k));
                            }
                        }
                    }
                }
                (n, true)
            },
        }
    }

    /// Removes `id`. The last slot moves into the freed one; returns the freed
    /// slot, or `None` where the id was absent.
    pub(crate) fn remove(&mut self, id: &str) -> (r: Option<usize>)
        requires
            old(self).wf(),
        ensures
            final(self).wf(),
            final(self).map() == old(self).map().remove(id@),
            r is Some <==> old(self).map().contains_key(id@),
            r matches Some(s) ==> s < old(self).ids@.len() && old(self).ids@[s as int]@ == id@
                && final(self).ids@ == old(self).ids@.update(s as int, old(self).ids@.last()).drop_last()
                && final(self).data@ == old(self).data@.update(s as int, old(self).data@.last()).drop_last(),
            r is None ==> *final(self) == *old(self),
    {
        let ghost pre = *self;
        match self.slot_of(id) {
            None => None,
            Some(s) => {
                let last = self.ids.len() - 1;
                let _ = self.ids.swap_remove(s);
                let _ = self.data.swap_remove(s);
                self.slots.remove(id);
                if s < last {
                    let moved = self.ids[s].clone();
                    self.slots.insert(moved, s);
                }
                proof {
                    let kv = id@;
                    assert(pre.slots@.remove(kv).dom() =~= pre.slots@.dom().remove(kv));
                    if s < last {
                        let mv = pre.ids@[last as int]@;
                        pre.lemma_ids_distinct(s as int, last as int);
                        assert(pre.slots@.remove(kv).contains_key(mv));
                    }
                    assert forall|j: int| 0 <= j < self.ids@.len() implies #[trigger]
                        self.slots@.contains_key(self.ids@[j]@) && self.slots@[self.ids@[j]@]
                            == j by {
                        if j != s {
                            assert(pre.slots@.contains_key(pre.ids@[j]@));
                            pre.lemma_ids_distinct(j, s as int);
                            if s < last {
                                pre.lemma_ids_distinct(j, last as int);
                            }
                        }
                    }
                    assert forall|k: Seq<char>| #[trigger]
                        self.slots@.contains_key(k) implies self.slots@[k] < self.ids@.len()
                            && self.ids@[self.slots@[k] as int]@ == k by {
                        if s < last && k == pre.ids@[last as int]@ {
                        } else {
                            assert(pre.slots@.contains_key(k) && k != kv);
                            assert(pre.slots@[k] != s);
                            if pre.slots@[k] == last {
                                assert(k == pre.ids@[last as int]@);
                            }
                        }
                    }
                    assert(self.map() =~= pre.map().remove(kv)) by {
                        assert forall|k: Seq<char>| #[trigger]
                            self.map().contains_key(k) implies self.map()[k] == pre.map().remove(
                            kv,
                        )[k] by {
                            if s < last && k == pre.ids@[last as int]@ {
                            } else {
                                assert(pre.slots@.contains_key(k));
                                if pre.slots@[k] == last {
                                    assert(k == pre.ids@[last as int]@);
                                }
                            }
                        }
                    }
                }
                Some(s)
            },
        }
    }

    /// The first `limit` entries of a (slot, score) buffer as hits, in order.
    pub(crate) fn hits(&self, buf: &Vec<(usize, u32)>, limit: usize) -> (r: Vec<IndexHit>)
        requires
            self.wf(),
            forall|u: int| 0 <= u < buf@.len() ==> (#[trigger] buf@[u]).0 < self.ids@.len(),
        ensures
            r@.len() == if limit < buf@.len() { limit as int } else { buf@.len() as int },
            forall|u: int|
                0 <= u < r@.len() ==> (#[trigger] r@[u]).id@ == self.ids@[buf@[u].0 as int]@
                    && r@[u].score == buf@[u].1,
    {
        let mut r: Vec<IndexHit> = Vec::new();
        let mut t: usize = 0;
        while t < buf.len() && t < limit
            invariant
                self.wf(),
                t <= buf@.len(),
                t <= limit,
                r@.len() == t,
                forall|u: int| 0 <= u < buf@.len() ==> (#[trigger] buf@[u]).0 < self.ids@.len(),
                forall|u: int|
                    0 <= u < t ==> (#[trigger] r@[u]).id@ == self.ids@[buf@[u].0 as int]@
                        && r@[u].score == buf@[u].1,
            decreases buf@.len() - t,
        {
            let slot = buf[t].0;
            r.push(IndexHit { id: self.ids[slot].clone(), score: buf[t].1 });
            t = t + 1;
        }
        r
    }

    pub(crate) fn clear(&mut self)
        ensures
            final(self).wf(),
            final(self).map() == Map::<Seq<char>, Seq<u32>>::empty(),
            final(self).ids@.len() == 0,
    {
        *self = EmbeddingTable::new();
    }
}

} // verus!
