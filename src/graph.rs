//! The approximate index: a single-layer navigable proximity graph.
//!
//! Each node keeps an ordered list of neighbour ids. Insertion searches the
//! graph for the new vector's closest nodes, links it to the best
//! `max_connections` of them and links them back, cutting a neighbour's list
//! to its first `max_connections` ids when it grows past them. Removal drops
//! the node and strips its id from its neighbours' lists; no edge is repaired.
use vstd::prelude::*;
use crate::index::{
    agrees, descending, distinct_ids, distinct_slots, has_id, holds_slot, insert_ranked,
    lemma_admit_step, lemma_swap_remove_holds, only_worse_left_out, ranked, scored_as, IndexHit,
};
use crate::table::EmbeddingTable;

verus! {

pub const DEFAULT_MAX_CONNECTIONS: usize = 16;

pub const DEFAULT_EF_CONSTRUCTION: usize = 200;

/// The least frontier width a query search uses.
pub const MIN_SEARCH_WIDTH: usize = 50;

/// A neighbour list after `id` is appended to it, where the cap leaves room;
/// a full list keeps its first `cap` ids and so drops the new one.
pub open spec fn linked_back(list: Seq<Seq<char>>, id: Seq<char>, cap: nat) -> Seq<Seq<char>> {
    if list.len() < cap {
        list.push(id)
    } else {
        list
    }
}

/// How many entries of `s` are still false.
pub open spec fn unvisited(s: Seq<bool>) -> nat
    decreases s.len(),
{
    if s.len() == 0 {
        0
    } else {
        unvisited(s.drop_last()) + if s.last() {
            0nat
        } else {
            1nat
        }
    }
}

proof fn lemma_unvisited_bounds(s: Seq<bool>)
    ensures
        unvisited(s) <= s.len(),
        (forall|i: int| 0 <= i < s.len() ==> !s[i]) ==> unvisited(s) == s.len(),
    decreases s.len(),
{
    if s.len() > 0 {
        lemma_unvisited_bounds(s.drop_last());
    }
}

proof fn lemma_visit(s: Seq<bool>, i: int)
    requires
        0 <= i < s.len(),
        !s[i],
    ensures
        unvisited(s.update(i, true)) + 1 == unvisited(s),
    decreases s.len(),
{
    if i == s.len() - 1 {
        assert(s.update(i, true).drop_last() =~= s.drop_last());
    } else {
        lemma_visit(s.drop_last(), i);
        assert(s.update(i, true).drop_last() =~= s.drop_last().update(i, true));
    }
}

/// The position of a best-scoring entry of a non-empty buffer.
fn best_position(buf: &Vec<(usize, u32)>) -> (r: usize)
    requires
        buf@.len() > 0,
    ensures
        r < buf@.len(),
        forall|i: int| 0 <= i < buf@.len() ==> buf@[r as int].1 >= buf@[i].1,
{
    let mut best: usize = 0;
    let mut i: usize = 1;
    while i < buf.len()
        invariant
            0 < i <= buf@.len(),
            best < i,
            forall|j: int| 0 <= j < i ==> buf@[best as int].1 >= buf@[j].1,
        decreases buf@.len() - i,
    {
        if buf[i].1 > buf[best].1 {
            best = i;
        }
        i = i + 1;
    }
    best
}

/// The ids of a list of strings.
pub open spec fn ids_of(list: Seq<String>) -> Seq<Seq<char>> {
    list.map_values(|x: String| x@)
}

/// `list` without `id`.
pub open spec fn stripped(list: Seq<Seq<char>>, id: Seq<char>) -> Seq<Seq<char>> {
    list.filter(|x: Seq<char>| x != id)
}

proof fn lemma_stripped_twice(list: Seq<Seq<char>>, id: Seq<char>)
    ensures
        stripped(stripped(list, id), id) == stripped(list, id),
    decreases list.len(),
{
    reveal(Seq::filter);
    if list.len() > 0 {
        lemma_stripped_twice(list.drop_last(), id);
        let f = stripped(list.drop_last(), id);
        if list.last() != id {
            assert(f.push(list.last()).drop_last() =~= f);
        }
    }
}

/// `list` without the ids equal to `id`, in order.
fn without(list: &Vec<String>, id: &str) -> (r: Vec<String>)
    ensures
        ids_of(r@) == stripped(ids_of(list@), id@),
        r@.len() <= list@.len(),
{
    let key = id.to_owned();
    let ghost all = ids_of(list@);
    let mut r: Vec<String> = Vec::new();
    let mut i: usize = 0;
    while i < list.len()
        invariant
            i <= list@.len(),
            all == ids_of(list@),
            key@ == id@,
            r@.len() <= i,
            ids_of(r@) == stripped(all.take(i as int), id@),
        decreases list@.len() - i,
    {
        let ghost before = r@;
        proof {
            reveal(Seq::filter);
            assert(all.take(i + 1).drop_last() =~= all.take(i as int));
            assert(all.take(i + 1).last() == list@[i as int]@);
        }
        if !list[i].eq(&key) {
            r.push(list[i].clone());
            assert(ids_of(r@) =~= ids_of(before).push(list@[i as int]@));
        }
        i = i + 1;
    }
    assert(all.take(all.len() as int) =~= all);
    r
}

/// An approximate nearest-neighbour index over a proximity graph.
pub struct HnswIndex {
    table: EmbeddingTable,
    links: Vec<Vec<String>>,
    entry_point: Option<String>,
    max_connections: usize,
    ef_construction: usize,
}

impl View for HnswIndex {
    type V = Map<Seq<char>, Seq<u32>>;

    closed spec fn view(&self) -> Map<Seq<char>, Seq<u32>> {
        self.table.map()
    }
}

impl HnswIndex {
    /// The table is consistent, each node has a neighbour list of at most
    /// `max_connections` ids, and the entry point is a stored id exactly
    /// when the graph is not empty.
    pub closed spec fn wf(&self) -> bool {
        &&& self.table.wf()
        &&& self.links@.len() == self.table.ids@.len()
        &&& self.max_connections > 0
        &&& self.ef_construction > 0
        &&& forall|i: int|
            0 <= i < self.links@.len() ==> (#[trigger] self.links@[i])@.len()
                <= self.max_connections
        &&& (self.entry_point is None <==> self.table.ids@.len() == 0)
        &&& (self.entry_point matches Some(e) ==> self.table.map().contains_key(e@))
    }

    /// The fan-out cap of every neighbour list.
    pub closed spec fn spec_max_connections(&self) -> usize {
        self.max_connections
    }

    /// The frontier width used while inserting.
    pub closed spec fn spec_ef_construction(&self) -> usize {
        self.ef_construction
    }

    /// Each stored id's neighbour list, as ids. A listed id may no longer
    /// be stored: removal does not repair the lists of nodes it did not
    /// link to.
    pub closed spec fn neighbors(&self) -> Map<Seq<char>, Seq<Seq<char>>> {
        Map::new(
            |k: Seq<char>| self.table.slots@.contains_key(k),
            |k: Seq<char>| self.links@[self.table.slots@[k] as int]@.map_values(|s: String| s@),
        )
    }

    /// The id every traversal starts from; none exactly when the graph is
    /// empty.
    pub closed spec fn spec_entry_point(&self) -> Option<Seq<char>> {
        match self.entry_point {
            Some(e) => Some(e@),
            None => None,
        }
    }

    /// What a well-formed graph guarantees to its users.
    pub proof fn lemma_wf(&self)
        requires
            self.wf(),
        ensures
            self@.dom().finite(),
            self.degrees_bounded(),
            self.neighbors().dom() == self@.dom(),
            self.spec_entry_point() is None <==> self@.len() == 0,
            self.spec_entry_point() matches Some(e) ==> self@.contains_key(e),
    {
        self.lemma_degrees_bounded();
        self.table.lemma_map_len();
    }

    /// No neighbour list is longer than the fan-out cap.
    pub open spec fn degrees_bounded(&self) -> bool {
        forall|k: Seq<char>|
            #[trigger] self.neighbors().contains_key(k) ==> self.neighbors()[k].len()
                <= self.spec_max_connections()
    }

    proof fn lemma_degrees_bounded(&self)
        requires
            self.wf(),
        ensures
            self.degrees_bounded(),
            self.neighbors().dom() == self@.dom(),
    {
        assert(self.neighbors().dom() =~= self@.dom());
        assert forall|k: Seq<char>| #[trigger] self.neighbors().contains_key(k) implies self.neighbors()[k].len()
            <= self.spec_max_connections() by {
            let i = self.table.slots@[k] as int;
            assert(self.links@[i]@.len() <= self.max_connections);
        }
    }

    /// An empty graph with the default fan-out and construction width. The
    /// dimension is not needed: it is the caller's to enforce.
    pub fn new(_dimensions: usize) -> (r: HnswIndex)
        ensures
            r.wf(),
            r@ == Map::<Seq<char>, Seq<u32>>::empty(),
            r.spec_max_connections() == DEFAULT_MAX_CONNECTIONS,
            r.spec_ef_construction() == DEFAULT_EF_CONSTRUCTION,
            r.degrees_bounded(),
            r@.dom().finite(),
            r.spec_entry_point() is None,
    {
        let r = HnswIndex {
            table: EmbeddingTable::new(),
            links: Vec::new(),
            entry_point: None,
            max_connections: DEFAULT_MAX_CONNECTIONS,
            ef_construction: DEFAULT_EF_CONSTRUCTION,
        };
        proof {
            r.lemma_wf();
        }
        r
    }

    pub fn size(&self) -> (r: usize)
        requires
            self.wf(),
        ensures
            r == self@.len(),
    {
        self.table.len()
    }

    pub fn clear(&mut self)
        requires
            old(self).wf(),
        ensures
            final(self).wf(),
            final(self)@ == Map::<Seq<char>, Seq<u32>>::empty(),
            final(self).spec_max_connections() == old(self).spec_max_connections(),
            final(self).spec_ef_construction() == old(self).spec_ef_construction(),
            final(self).degrees_bounded(),
            final(self)@.dom().finite(),
            final(self).spec_entry_point() is None,
    {
        self.table.clear();
        self.links = Vec::new();
        self.entry_point = None;
        proof {
            self.lemma_wf();
        }
    }

    /// `next` is this graph after `embedding` was added under `id`: the
    /// contents gain the entry; the new node lists distinct, previously
    /// stored ids, at least one unless the graph was empty; each of them gets
    /// `id` appended where its list has room, and no other list changes; an
    /// empty graph takes `id` as its entry point.
    pub open spec fn added(&self, next: HnswIndex, id: Seq<char>, embedding: Seq<u32>) -> bool {
        &&& (next.wf())
        &&& (next@ == self@.insert(id, embedding))
        &&& (next.spec_max_connections() == self.spec_max_connections())
        &&& (next.spec_ef_construction() == self.spec_ef_construction())
        &&& (next.degrees_bounded())
        &&& (self@.len() == 0 ==> next.neighbors()[id].len() == 0)
        &&& (self@.len() > 0 ==> next.neighbors()[id].len() > 0)
        &&& (forall|j: int|
            0 <= j < next.neighbors()[id].len() ==> self@.contains_key(
                #[trigger] next.neighbors()[id][j],
            ))
        &&& (next.neighbors()[id].no_duplicates())
        &&& (forall|n: Seq<char>|
            self.neighbors().contains_key(n) && n != id ==> #[trigger] next.neighbors()[n]
                == if next.neighbors()[id].contains(n) {
                linked_back(self.neighbors()[n], id, self.spec_max_connections() as nat)
            } else {
                self.neighbors()[n]
            })
        &&& (next.spec_entry_point() == if self.spec_entry_point() is None {
            Some(id)
        } else {
            self.spec_entry_point()
        })
        &&& (next@.dom().finite())
    }

    /// `next` is this graph after `id` was removed, `r` telling whether it
    /// was stored: the lists of its former neighbours lose `id`, no other
    /// list changes, and a removed entry point is replaced by a stored id.
    pub open spec fn removed(&self, next: HnswIndex, id: Seq<char>, r: bool) -> bool {
        &&& (next.wf())
        &&& (r == self@.contains_key(id))
        &&& (next@ == self@.remove(id))
        &&& (next@.dom().finite())
        &&& (next.spec_max_connections() == self.spec_max_connections())
        &&& (next.spec_ef_construction() == self.spec_ef_construction())
        &&& (next.degrees_bounded())
        &&& (!r ==> next == *self)
        &&& (forall|n: Seq<char>|
            #[trigger] next.neighbors().contains_key(n) ==> next.neighbors()[n]
                == if r && self.neighbors()[id].contains(n) {
                stripped(self.neighbors()[n], id)
            } else {
                self.neighbors()[n]
            })
        &&& (self.spec_entry_point() != Some(id) ==> next.spec_entry_point()
            == self.spec_entry_point())
        &&& (self.spec_entry_point() == Some(id) ==> (next.spec_entry_point() is None
            <==> next@.len() == 0))
        &&& (next.spec_entry_point() matches Some(e) ==> next@.contains_key(e))
    }

    /// Adds `embedding` under `id`, linking it to the closest nodes found
    /// from the entry point. Re-adding an id replaces its embedding and its
    /// neighbour list.
    pub fn add_vector<F: Fn(&Vec<u32>, &Vec<u32>) -> u32>(
        &mut self,
        id: &str,
        embedding: &Vec<u32>,
        similarity: &F,
    )
        requires
            old(self).wf(),
            old(self)@.len() < usize::MAX,
            forall|a: &Vec<u32>, b: &Vec<u32>| similarity.requires((a, b)),
        ensures
            old(self).added(*final(self), id@, embedding@),
    {
        proof {
            self.table.lemma_map_len();
        }
        let found = match &self.entry_point {
            None => {
                let _ = self.table.upsert(id.to_owned(), embedding.clone());
                self.links.push(Vec::new());
                self.entry_point = Some(id.to_owned());
                proof {
                    self.lemma_degrees_bounded();
                    self.table.lemma_map_len();
                    assert(self.table.ids@[0]@ == id@);
                    assert(self.table.slots@[id@] == 0);
                    assert(self.neighbors()[id@] =~= Seq::<Seq<char>>::empty());
                    assert(old(self).neighbors().dom() =~= Set::<Seq<char>>::empty());
                }
                return ;
            },
            Some(ep) => self.table.slot_of(ep.as_str()),
        };
        let entry_slot = match found {
            Some(s) => s,
            None => 0,
        };
        let (frontier, Ghost(_seen), Ghost(_calls)) = self.search_layer(
            embedding,
            entry_slot,
            self.ef_construction,
            similarity,
        );
        let max = self.max_connections;
        let mut selected: Vec<String> = Vec::new();
        let mut t: usize = 0;
        while t < frontier.len() && t < max
            invariant
                self.wf(),
                max == self.max_connections,
                self.table == old(self).table,
                self.entry_point == old(self).entry_point,
                self.ef_construction == old(self).ef_construction,
                t <= max,
                t <= frontier@.len(),
                selected@.len() == t,
                forall|u: int|
                    0 <= u < t ==> (#[trigger] selected@[u])@ == self.table.ids@[frontier@[u].0 as int]@,
                forall|u: int| 0 <= u < frontier@.len() ==> (#[trigger] frontier@[u]).0 < self.table.ids@.len(),
                distinct_slots(frontier@),
                self.links@.len() == old(self).links@.len(),
                forall|i: int|
                    0 <= i < self.links@.len() ==> (#[trigger] self.links@[i])@.map_values(
                        |x: String| x@,
                    ) == if holds_slot(frontier@.take(t as int), i) {
                        linked_back(old(self).links@[i]@.map_values(|x: String| x@), id@, max as nat)
                    } else {
                        old(self).links@[i]@.map_values(|x: String| x@)
                    },
            decreases frontier@.len() - t,
        {
            let s = frontier[t].0;
            let ghost before = self.links@;
            selected.push(self.table.ids[s].clone());
            self.links[s].push(id.to_owned());
            if self.links[s].len() > max {
                self.links[s].truncate(max);
            }
            proof {
                let v = |x: String| x@;
                assert(!holds_slot(frontier@.take(t as int), s as int)) by {
                    if holds_slot(frontier@.take(t as int), s as int) {
                        let w = choose|w: int| 0 <= w < t && #[trigger] frontier@.take(t as int)[w].0 == s;
                        assert(frontier@[w].0 == frontier@[t as int].0);
                    }
                }
                assert(before[s as int]@.map_values(v) == old(self).links@[s as int]@.map_values(v));
                assert(old(self).links@[s as int]@.len() <= max);
                if old(self).links@[s as int]@.len() < max {
                    assert(self.links@[s as int]@.map_values(v) =~= before[s as int]@.map_values(v).push(id@));
                } else {
                    assert(self.links@[s as int]@.map_values(v) =~= before[s as int]@.map_values(v));
                }
                assert forall|i: int| 0 <= i < self.links@.len() implies (#[trigger] self.links@[i])@.map_values(
                    |x: String| x@,
                ) == if holds_slot(frontier@.take(t + 1), i) {
                    linked_back(old(self).links@[i]@.map_values(|x: String| x@), id@, max as nat)
                } else {
                    old(self).links@[i]@.map_values(|x: String| x@)
                } by {
                    if i == s {
                        assert(frontier@.take(t + 1)[t as int].0 == s);
                    } else {
                        assert(self.links@[i] == before[i]);
                        if holds_slot(frontier@.take(t + 1), i) {
                            let w = choose|w: int| 0 <= w < t + 1 && #[trigger] frontier@.take(t + 1)[w].0 == i;
                            assert(frontier@.take(t as int)[w].0 == i);
                        }
                        if holds_slot(frontier@.take(t as int), i) {
                            let w = choose|w: int| 0 <= w < t && #[trigger] frontier@.take(t as int)[w].0 == i;
                            assert(frontier@.take(t + 1)[w].0 == i);
                        }
                    }
                }
            }
            t = t + 1;
        }
        let ghost pre = self.table;
        let ghost chosen = selected@;
        proof {
            assert forall|u: int| 0 <= u < chosen.len() implies old(self)@.contains_key(
                (#[trigger] chosen[u])@,
            ) by {
                assert(pre.slots@.contains_key(pre.ids@[frontier@[u].0 as int]@));
            }
        }
        let ghost l1 = self.links@;
        let (slot, added) = self.table.upsert(id.to_owned(), embedding.clone());
        if added {
            self.links.push(selected);
        } else {
            self.links.set(slot, selected);
        }
        proof {
            self.lemma_degrees_bounded();
            self.table.lemma_map_len();
            assert(self.table.ids@[slot as int]@ == id@);
            assert(self.table.slots@[id@] == slot);
            assert(self.neighbors()[id@] =~= chosen.map_values(|s: String| s@));
            if old(self)@.len() > 0 {
                assert(frontier@.len() > 0);
                assert(t > 0);
            }
            let nb = self.neighbors()[id@];
            assert forall|a: int, b: int| 0 <= a < b < nb.len() implies nb[a] != nb[b] by {
                pre.lemma_ids_distinct(frontier@[a].0 as int, frontier@[b].0 as int);
            }
            assert forall|n: Seq<char>|
                old(self).neighbors().contains_key(n) && n != id@ implies #[trigger] self.neighbors()[n]
                    == if self.neighbors()[id@].contains(n) {
                    linked_back(old(self).neighbors()[n], id@, old(self).spec_max_connections() as nat)
                } else {
                    old(self).neighbors()[n]
                } by {
                let i = pre.slots@[n] as int;
                assert(pre.ids@[i]@ == n);
                assert(self.table.ids@[i] == pre.ids@[i]);
                assert(self.table.slots@[n] == i);
                assert(i != slot);
                assert(self.links@[i] == l1[i]);
                if self.neighbors()[id@].contains(n) {
                    let u = choose|u: int| 0 <= u < nb.len() && nb[u] == n;
                    assert(chosen[u]@ == n);
                    if frontier@[u].0 != i {
                        pre.lemma_ids_distinct(frontier@[u].0 as int, i);
                    }
                    assert(frontier@.take(t as int)[u].0 == i);
                } else if holds_slot(frontier@.take(t as int), i) {
                    let u = choose|u: int| 0 <= u < t && #[trigger] frontier@.take(t as int)[u].0 == i;
                    assert(nb[u] == chosen[u]@);
                    assert(nb[u] == n);
                }
            }
        }
    }

    /// Removes `id`; true iff it was stored. Its neighbours forget it, and a
    /// removed entry point is replaced by the node in the first slot.
    pub fn remove_vector(&mut self, id: &str) -> (r: bool)
        requires
            old(self).wf(),
        ensures
            old(self).removed(*final(self), id@, r),
    {
        proof {
            self.lemma_degrees_bounded();
            self.table.lemma_map_len();
        }
        let key = id.to_owned();
        match self.table.slot_of(id) {
            None => {
                assert(self@.remove(id@) =~= self@);
                false
            },
            Some(s) => {
                let ghost last = self.links@.len() - 1;
                let nbrs = self.links.swap_remove(s);
                let _ = self.table.remove(id);
                let ghost l0 = self.links@;
                let ghost t0 = self.table;
                proof {
                    assert(old(self).table.slots@[id@] == s);
                    assert(old(self).neighbors()[id@] == ids_of(nbrs@));
                    assert forall|n: Seq<char>| #[trigger] self.table.slots@.contains_key(n) implies ids_of(
                        l0[self.table.slots@[n] as int]@,
                    ) == old(self).neighbors()[n] by {
                        let i = self.table.slots@[n] as int;
                        assert(self.table.ids@[i]@ == n);
                        if i == s {
                            assert(old(self).table.ids@[last]@ == n);
                            assert(old(self).table.slots@[n] == last);
                        } else {
                            assert(old(self).table.ids@[i]@ == n);
                            assert(old(self).table.slots@[n] == i);
                        }
                    }
                }
                let mut j: usize = 0;
                while j < nbrs.len()
                    invariant
                        self.table.wf(),
                        self.links@.len() == self.table.ids@.len(),
                        l0.len() == self.links@.len(),
                        self.table == t0,
                        self.table.map() == old(self).table.map().remove(id@),
                        self.max_connections == old(self).max_connections,
                        self.ef_construction == old(self).ef_construction,
                        self.entry_point == old(self).entry_point,
                        forall|i: int|
                            0 <= i < self.links@.len() ==> (#[trigger] self.links@[i])@.len()
                                <= self.max_connections,
                        j <= nbrs@.len(),
                        forall|i: int|
                            0 <= i < self.links@.len() ==> ids_of((#[trigger] self.links@[i])@) == if exists|u: int|
                                0 <= u < j && self.table.slots@.contains_key(#[trigger] nbrs@[u]@)
                                    && self.table.slots@[nbrs@[u]@] == i {
                                stripped(ids_of(l0[i]@), id@)
                            } else {
                                ids_of(l0[i]@)
                            },
                    decreases nbrs@.len() - j,
                {
                    let ghost before = self.links@;
                    match self.table.slot_of(nbrs[j].as_str()) {
                        Some(ns) => {
                            let kept = without(&self.links[ns], id);
                            self.links.set(ns, kept);
                            proof {
                                lemma_stripped_twice(ids_of(l0[ns as int]@), id@);
                            }
                        },
                        None => {},
                    }
                    proof {
                        assert forall|i: int| 0 <= i < self.links@.len() implies ids_of(
                            (#[trigger] self.links@[i])@,
                        ) == if exists|u: int|
                            0 <= u < j + 1 && self.table.slots@.contains_key(#[trigger] nbrs@[u]@)
                                && self.table.slots@[nbrs@[u]@] == i {
                            stripped(ids_of(l0[i]@), id@)
                        } else {
                            ids_of(l0[i]@)
                        } by {
                            let here = self.table.slots@.contains_key(nbrs@[j as int]@)
                                && self.table.slots@[nbrs@[j as int]@] == i;
                            if !here {
                                assert(self.links@[i] == before[i]);
                                if exists|u: int|
                                    0 <= u < j + 1 && self.table.slots@.contains_key(#[trigger] nbrs@[u]@)
                                        && self.table.slots@[nbrs@[u]@] == i {
                                    let u = choose|u: int|
                                        0 <= u < j + 1 && self.table.slots@.contains_key(#[trigger] nbrs@[u]@)
                                            && self.table.slots@[nbrs@[u]@] == i;
                                    assert(u < j);
                                }
                            }
                        }
                    }
                    j = j + 1;
                }
                let was_entry = match &self.entry_point {
                    Some(e) => e.eq(&key),
                    None => false,
                };
                if was_entry {
                    if self.table.len() > 0 {
                        self.entry_point = Some(self.table.ids[0].clone());
                    } else {
                        self.entry_point = None;
                    }
                }
                proof {
                    self.table.lemma_map_len();
                    old(self).table.lemma_map_len();
                    assert(self@ == self.table.map());
                    assert(old(self)@ == old(self).table.map());
                    assert(self@ == old(self)@.remove(id@));
                    if !was_entry {
                        if self.entry_point is Some {
                            let e = self.entry_point->0;
                            assert(e@ != id@);
                            assert(old(self).table.map().contains_key(e@));
                            assert(self.table.map().contains_key(e@));
                            assert(self.table.slots@.contains_key(e@));
                        }
                    } else if self.table.ids@.len() > 0 {
                        assert(self.table.slots@.contains_key(self.table.ids@[0]@));
                    }
                    self.lemma_degrees_bounded();
                    assert forall|n: Seq<char>| #[trigger] self.neighbors().contains_key(n) implies self.neighbors()[n]
                        == if old(self).neighbors()[id@].contains(n) {
                        stripped(old(self).neighbors()[n], id@)
                    } else {
                        old(self).neighbors()[n]
                    } by {
                        let i = self.table.slots@[n] as int;
                        assert(self.table.ids@[i]@ == n);
                        assert(ids_of(l0[i]@) == old(self).neighbors()[n]);
                        assert(self.neighbors()[n] == ids_of(self.links@[i]@));
                        let nv = old(self).neighbors()[id@];
                        if nv.contains(n) {
                            let u = choose|u: int| 0 <= u < nv.len() && nv[u] == n;
                            assert(nbrs@[u]@ == n);
                            assert(self.table.slots@.contains_key(nbrs@[u]@) && self.table.slots@[nbrs@[u]@] == i);
                        } else if exists|u: int|
                            0 <= u < nbrs@.len() && self.table.slots@.contains_key(#[trigger] nbrs@[u]@)
                                && self.table.slots@[nbrs@[u]@] == i {
                            let u = choose|u: int|
                                0 <= u < nbrs@.len() && self.table.slots@.contains_key(#[trigger] nbrs@[u]@)
                                    && self.table.slots@[nbrs@[u]@] == i;
                            assert(self.table.ids@[i]@ == nbrs@[u]@);
                            assert(nv[u] == n);
                        }
                    }
                }
                true
            },
        }
    }

    /// All stored ids among the first `upto` entries of slot `i`'s
    /// neighbour list have their slots in `seen`.
    spec fn expanded(&self, seen: Map<int, u32>, i: int, upto: int) -> bool {
        forall|x: int|
            0 <= x < upto && self.table.slots@.contains_key(#[trigger] self.links@[i]@[x]@)
                ==> seen.contains_key(self.table.slots@[self.links@[i]@[x]@] as int)
    }

    /// Ids reachable from the entry point in at most `steps` hops along
    /// neighbour lists.
    pub open spec fn reach(&self, steps: nat) -> Set<Seq<char>>
        decreases steps,
    {
        if steps == 0 {
            match self.spec_entry_point() {
                Some(e) => Set::empty().insert(e),
                None => Set::empty(),
            }
        } else {
            let prev = self.reach((steps - 1) as nat);
            prev.union(
                Set::new(
                    |y: Seq<char>|
                        self@.contains_key(y) && exists|x: Seq<char>|
                            prev.contains(x) && self.neighbors().contains_key(x)
                                && #[trigger] self.neighbors()[x].contains(y),
                ),
            )
        }
    }

    /// `y` can be reached from the entry point along neighbour lists.
    pub open spec fn reachable(&self, y: Seq<char>) -> bool {
        exists|steps: nat| #[trigger] self.reach(steps).contains(y)
    }

    proof fn lemma_reach_seen(&self, seen: Map<int, u32>, steps: nat)
        requires
            self.wf(),
            self.entry_point is Some,
            seen.contains_key(self.table.slots@[self.entry_point->0@] as int),
            forall|i: int|
                #[trigger] seen.contains_key(i) ==> 0 <= i < self.links@.len() && self.expanded(
                    seen,
                    i,
                    self.links@[i]@.len() as int,
                ),
        ensures
            forall|y: Seq<char>|
                #[trigger] self.reach(steps).contains(y) ==> self.table.slots@.contains_key(y)
                    && seen.contains_key(self.table.slots@[y] as int),
        decreases steps,
    {
        self.table.lemma_map_len();
        if steps > 0 {
            self.lemma_reach_seen(seen, (steps - 1) as nat);
            let prev = self.reach((steps - 1) as nat);
            assert forall|y: Seq<char>| #[trigger] self.reach(steps).contains(y) implies self.table.slots@.contains_key(y)
                && seen.contains_key(self.table.slots@[y] as int) by {
                if !prev.contains(y) {
                    let x = choose|x: Seq<char>|
                        prev.contains(x) && self.neighbors().contains_key(x)
                            && #[trigger] self.neighbors()[x].contains(y);
                    let i = self.table.slots@[x] as int;
                    let nb = self.neighbors()[x];
                    let q = choose|q: int| 0 <= q < nb.len() && nb[q] == y;
                    assert(self.links@[i]@[q]@ == y);
                    assert(self.table.slots@.contains_key(self.links@[i]@[q]@));
                }
            }
        }
    }

    /// `r` answers a search for the `k` ids closest to `query`: at most `k`
    /// stored ids, best first, each once, with the scores `similarity` gave
    /// them. A shorter answer holds every id reachable from the entry point;
    /// where the graph is smaller than the search width, every reachable id
    /// left out scores no higher than the last one returned.
    pub open spec fn search_answers<F: Fn(&Vec<u32>, &Vec<u32>) -> u32>(
        &self,
        similarity: F,
        query: &Vec<u32>,
        k: usize,
        r: Seq<IndexHit>,
    ) -> bool {
        &&& (r.len() <= k)
        &&& (k > 0 && self@.len() > 0 ==> r.len() > 0)
        &&& (descending(r))
        &&& (distinct_ids(r))
        &&& (forall|i: int|
            0 <= i < r.len() ==> self@.contains_key(#[trigger] r[i].id@) && scored_as(
                similarity,
                query,
                self@[r[i].id@],
                r[i].score,
            ))
        &&& (r.len() < k ==> forall|y: Seq<char>| #[trigger] self.reachable(y) ==> has_id(r, y))
        &&& (k > 0 && (self@.len() < k || self@.len() < MIN_SEARCH_WIDTH) ==> forall|y: Seq<char>|
            #[trigger] self.reachable(y) && !has_id(r, y) ==> r.len() == k && exists|s: u32|
                scored_as(similarity, query, self@[y], s) && s <= r.last().score)
    }

    /// Up to `k` ids close to `query`, best first: the first `k` entries of
    /// the frontier that a traversal of width `max(k, MIN_SEARCH_WIDTH)`
    /// reaches from the entry point. An empty graph gives no result.
    pub fn search<F: Fn(&Vec<u32>, &Vec<u32>) -> u32>(
        &self,
        query: &Vec<u32>,
        k: usize,
        similarity: &F,
    ) -> (r: Vec<IndexHit>)
        requires
            self.wf(),
            forall|a: &Vec<u32>, b: &Vec<u32>| similarity.requires((a, b)),
        ensures
            self.search_answers(*similarity, query, k, r@),
    {
        proof {
            self.table.lemma_map_len();
        }
        match &self.entry_point {
            None => {
                proof {
                    assert forall|y: Seq<char>| #[trigger] self.reachable(y) implies has_id(
                        Seq::<IndexHit>::empty(),
                        y,
                    ) by {
                        let st = choose|st: nat| #[trigger] self.reach(st).contains(y);
                        self.lemma_reach_empty(st);
                    }
                }
                Vec::new()
            },
            Some(ep) => {
                let entry_slot = match self.table.slot_of(ep.as_str()) {
                    Some(s) => s,
                    None => 0,
                };
                let width = if k > MIN_SEARCH_WIDTH {
                    k
                } else {
                    MIN_SEARCH_WIDTH
                };
                let (frontier, Ghost(seen), Ghost(calls)) = self.search_layer(
                    query,
                    entry_slot,
                    width,
                    similarity,
                );
                let r = self.table.hits(&frontier, k);
                proof {
                    assert forall|u: int, v: int| 0 <= u < v < r@.len() implies r@[u].id@
                        != r@[v].id@ by {
                        self.table.lemma_ids_distinct(frontier@[u].0 as int, frontier@[v].0 as int);
                    }
                    assert forall|u: int| 0 <= u < r@.len() implies self@.contains_key(
                        #[trigger] r@[u].id@,
                    ) && scored_as(*similarity, query, self@[r@[u].id@], r@[u].score) by {
                        let slot = frontier@[u].0 as int;
                        assert(self.table.slots@.contains_key(self.table.ids@[slot]@));
                        assert(similarity.ensures(
                            (query, &self.table.data@[slot]),
                            frontier@[u].1,
                        ));
                    }
                    if frontier@.len() < width {
                        self.lemma_reach_seen(seen, 0);
                        assert forall|y: Seq<char>| #[trigger] self.reachable(y) implies holds_slot(
                            frontier@,
                            self.table.slots@[y] as int,
                        ) && self.table.slots@.contains_key(y) by {
                            let st = choose|st: nat| #[trigger] self.reach(st).contains(y);
                            self.lemma_reach_seen(seen, st);
                        }
                    }
                    if r@.len() < k {
                        assert forall|y: Seq<char>| #[trigger] self.reachable(y) implies has_id(r@, y) by {
                            let q = choose|q: int|
                                0 <= q < frontier@.len() && #[trigger] frontier@[q].0 == self.table.slots@[y] as int;
                            assert(r@[q].id@ == self.table.ids@[frontier@[q].0 as int]@);
                            assert(r@[q].id@ == y);
                        }
                    }
                    if k > 0 && (self@.len() < k || self@.len() < MIN_SEARCH_WIDTH) {
                        assert(frontier@.len() < width);
                        assert forall|y: Seq<char>|
                            #[trigger] self.reachable(y) && !has_id(r@, y) implies r@.len() == k && exists|s: u32|
                            scored_as(*similarity, query, self@[y], s) && s <= r@.last().score by {
                            let slot = self.table.slots@[y] as int;
                            let q = choose|q: int| 0 <= q < frontier@.len() && #[trigger] frontier@[q].0 == slot;
                            if q < r@.len() {
                                assert(r@[q].id@ == y);
                                assert(has_id(r@, y));
                            }
                            assert(r@.len() == k);
                            assert(frontier@[q].1 <= frontier@[k - 1].1);
                            assert(r@.last().score == frontier@[k - 1].1);
                            assert(similarity.ensures((query, &self.table.data@[slot]), frontier@[q].1));
                            assert(scored_as(*similarity, query, self@[y], frontier@[q].1));
                        }
                    }
                }
                r
            },
        }
    }

    proof fn lemma_reach_empty(&self, steps: nat)
        requires
            self.entry_point is None,
        ensures
            self.reach(steps) == Set::<Seq<char>>::empty(),
        decreases steps,
    {
        if steps > 0 {
            self.lemma_reach_empty((steps - 1) as nat);
            assert(self.reach(steps) =~= Set::<Seq<char>>::empty());
        }
    }

    /// Best-first traversal from `entry`, keeping the `width` best-scoring
    /// nodes seen. A node's neighbours are examined when it is the best
    /// remaining candidate; the walk stops when that candidate scores below
    /// the frontier's worst member. The frontier comes back best first,
    /// with the scores of every node seen and the order they were scored in.
    fn search_layer<F: Fn(&Vec<u32>, &Vec<u32>) -> u32>(
        &self,
        query: &Vec<u32>,
        entry: usize,
        width: usize,
        similarity: &F,
    ) -> (r: (Vec<(usize, u32)>, Ghost<Map<int, u32>>, Ghost<Seq<int>>))
        requires
            self.wf(),
            entry < self.table.ids@.len(),
            width > 0,
            forall|a: &Vec<u32>, b: &Vec<u32>| similarity.requires((a, b)),
        ensures
            0 < r.0@.len() <= width,
            r.0@.len() <= self.table.ids@.len(),
            ranked(r.0@),
            distinct_slots(r.0@),
            forall|t: int|
                0 <= t < r.0@.len() ==> (#[trigger] r.0@[t]).0 < self.table.ids@.len()
                    && similarity.ensures((query, &self.table.data@[r.0@[t].0 as int]), r.0@[t].1),
            agrees(r.0@, r.1@),
            r.1@.contains_key(entry as int),
            forall|i: int|
                #[trigger] r.1@.contains_key(i) ==> 0 <= i < self.table.ids@.len()
                    && similarity.ensures((query, &self.table.data@[i]), r.1@[i]),
            only_worse_left_out(r.0@, r.1@, width as nat),
            r.0@.len() < width ==> forall|i: int|
                #[trigger] r.1@.contains_key(i) ==> self.expanded(r.1@, i, self.links@[i]@.len() as int),
            r.2@.no_duplicates(),
            forall|c: int| 0 <= c < r.2@.len() ==> r.1@.contains_key(#[trigger] r.2@[c]),
            forall|i: int| #[trigger] r.1@.contains_key(i) ==> r.2@.contains(i),
    {
        let n = self.table.len();
        let mut visited: Vec<bool> = Vec::new();
        let mut i: usize = 0;
        while i < n
            invariant
                i <= n,
                visited@.len() == i,
                forall|j: int| 0 <= j < i ==> !visited@[j],
            decreases n - i,
        {
            visited.push(false);
            i = i + 1;
        }
        let s0 = similarity(query, &self.table.data[entry]);
        proof {
            lemma_unvisited_bounds(visited@);
            lemma_visit(visited@, entry as int);
        }
        visited.set(entry, true);
        let ghost mut seen: Map<int, u32> = Map::empty().insert(entry as int, s0);
        let ghost mut calls: Seq<int> = seq![entry as int];
        let mut candidates: Vec<(usize, u32)> = Vec::new();
        candidates.push((entry, s0));
        let mut frontier: Vec<(usize, u32)> = Vec::new();
        frontier.push((entry, s0));
        let mut stop = false;
        proof {
            assert(calls[0] == entry as int);
            assert(frontier@[0].0 == entry);
            assert(candidates@[0].0 == entry);
            assert(holds_slot(frontier@, entry as int));
            assert(holds_slot(candidates@, entry as int));
        }
        while !stop && candidates.len() > 0
            invariant
                self.wf(),
                n == self.table.ids@.len(),
                width > 0,
                forall|a: &Vec<u32>, b: &Vec<u32>| similarity.requires((a, b)),
                visited@.len() == n,
                forall|j: int| 0 <= j < n ==> (visited@[j] <==> #[trigger] seen.contains_key(j)),
                forall|j: int|
                    #[trigger] seen.contains_key(j) ==> 0 <= j < n && similarity.ensures(
                        (query, &self.table.data@[j]),
                        seen[j],
                    ),
                seen.contains_key(entry as int),
                calls.no_duplicates(),
                forall|c: int| 0 <= c < calls.len() ==> seen.contains_key(#[trigger] calls[c]),
                forall|j: int| #[trigger] seen.contains_key(j) ==> calls.contains(j),
                agrees(candidates@, seen),
                agrees(frontier@, seen),
                ranked(frontier@),
                distinct_slots(frontier@),
                0 < frontier@.len() <= width,
                frontier@.len() + unvisited(visited@) <= n,
                only_worse_left_out(frontier@, seen, width as nat),
                frontier@.len() < width ==> forall|t: int|
                    0 <= t < candidates@.len() ==> holds_slot(frontier@, (#[trigger] candidates@[t]).0 as int),
                frontier@.len() < width ==> forall|j: int|
                    #[trigger] seen.contains_key(j) ==> holds_slot(candidates@, j) || self.expanded(
                        seen,
                        j,
                        self.links@[j]@.len() as int,
                    ),
                stop ==> frontier@.len() == width,
            decreases unvisited(visited@) + candidates@.len(),
        {
            let b = best_position(&candidates);
            let ghost c_before = candidates@;
            let c = candidates.swap_remove(b);
            proof {
                assert(seen.contains_key(c.0 as int));
                assert forall|t: int| 0 <= t < candidates@.len() implies seen.contains_key(
                    (#[trigger] candidates@[t]).0 as int,
                ) && seen[candidates@[t].0 as int] == candidates@[t].1 && (frontier@.len() < width
                    ==> holds_slot(frontier@, candidates@[t].0 as int)) by {
                    if t == b {
                        assert(candidates@[t] == c_before[c_before.len() - 1]);
                    } else {
                        assert(candidates@[t] == c_before[t]);
                    }
                }
                if frontier@.len() < width {
                    assert forall|j: int| #[trigger] seen.contains_key(j) && j != c.0 implies holds_slot(
                        candidates@,
                        j,
                    ) || self.expanded(seen, j, self.links@[j]@.len() as int) by {
                        if holds_slot(c_before, j) {
                            lemma_swap_remove_holds(c_before, b as int, j);
                        }
                    }
                    let q = choose|q: int| 0 <= q < frontier@.len() && #[trigger] frontier@[q].0 == c.0;
                    assert(frontier@[q].1 == c.1);
                    assert(frontier@[q].1 >= frontier@[frontier@.len() - 1].1);
                }
            }
            if c.1 < frontier[frontier.len() - 1].1 {
                stop = true;
            } else {
                let ghost bound = unvisited(visited@) + candidates@.len();
                let cs = c.0;
                let nbrs = &self.links[cs];
                let mut j: usize = 0;
                while j < nbrs.len()
                    invariant
                        self.wf(),
                        n == self.table.ids@.len(),
                        width > 0,
                        forall|a: &Vec<u32>, b: &Vec<u32>| similarity.requires((a, b)),
                        cs < n,
                        nbrs@ == self.links@[cs as int]@,
                        visited@.len() == n,
                        forall|j: int| 0 <= j < n ==> (visited@[j] <==> #[trigger] seen.contains_key(j)),
                        forall|j: int|
                            #[trigger] seen.contains_key(j) ==> 0 <= j < n && similarity.ensures(
                                (query, &self.table.data@[j]),
                                seen[j],
                            ),
                        seen.contains_key(entry as int),
                        seen.contains_key(cs as int),
                        calls.no_duplicates(),
                        forall|c: int| 0 <= c < calls.len() ==> seen.contains_key(#[trigger] calls[c]),
                        forall|j: int| #[trigger] seen.contains_key(j) ==> calls.contains(j),
                        agrees(candidates@, seen),
                        agrees(frontier@, seen),
                        ranked(frontier@),
                        distinct_slots(frontier@),
                        0 < frontier@.len() <= width,
                        frontier@.len() + unvisited(visited@) <= n,
                        only_worse_left_out(frontier@, seen, width as nat),
                        frontier@.len() < width ==> forall|t: int|
                            0 <= t < candidates@.len() ==> holds_slot(frontier@, (#[trigger] candidates@[t]).0 as int),
                        frontier@.len() < width ==> forall|j: int|
                            #[trigger] seen.contains_key(j) && j != cs ==> holds_slot(candidates@, j) || self.expanded(
                                seen,
                                j,
                                self.links@[j]@.len() as int,
                            ),
                        frontier@.len() < width ==> self.expanded(seen, cs as int, j as int),
                        j <= nbrs@.len(),
                        unvisited(visited@) + candidates@.len() <= bound,
                    decreases nbrs@.len() - j,
                {
                    match self.table.slot_of(nbrs[j].as_str()) {
                        Some(ns) => {
                            if !visited[ns] {
                                let ghost v0 = visited@;
                                let ghost seen0 = seen;
                                let ghost f0 = frontier@;
                                let ghost c0 = candidates@;
                                proof {
                                    lemma_visit(visited@, ns as int);
                                }
                                visited.set(ns, true);
                                let s = similarity(query, &self.table.data[ns]);
                                let ghost calls0 = calls;
                                proof {
                                    seen = seen.insert(ns as int, s);
                                    calls = calls.push(ns as int);
                                    assert(calls.drop_last() == calls0);
                                    assert forall|c: int| 0 <= c < calls.len() implies seen.contains_key(
                                        #[trigger] calls[c],
                                    ) by {
                                        if c < calls.len() - 1 {
                                            assert(seen0.contains_key(calls.drop_last()[c]));
                                        }
                                    }
                                    assert forall|jj: int| #[trigger] seen.contains_key(jj) implies calls.contains(jj) by {
                                        if jj != ns {
                                            assert(seen0.contains_key(jj));
                                            assert(calls0.contains(jj));
                                            let c = choose|c: int| 0 <= c < calls0.len() && calls0[c] == jj;
                                            assert(calls[c] == jj);
                                        } else {
                                            assert(calls[calls.len() - 1] == jj);
                                        }
                                    }
                                    assert(!calls.drop_last().contains(ns as int)) by {
                                        if calls.drop_last().contains(ns as int) {
                                            let c = choose|c: int| 0 <= c < calls.len() - 1 && calls.drop_last()[c] == ns;
                                            assert(seen0.contains_key(calls.drop_last()[c]));
                                        }
                                    }
                                    assert(calls.no_duplicates()) by {
                                        assert forall|a: int, bb: int| 0 <= a < bb < calls.len() implies calls[a] != calls[bb] by {
                                            if bb == calls.len() - 1 {
                                                assert(calls.drop_last()[a] == calls[a]);
                                            } else {
                                                assert(calls.drop_last()[a] == calls[a]);
                                                assert(calls.drop_last()[bb] == calls[bb]);
                                            }
                                        }
                                    }
                                    assert(agrees(c0, seen)) by {
                                        assert forall|t: int| 0 <= t < c0.len() implies seen.contains_key(
                                            (#[trigger] c0[t]).0 as int,
                                        ) && seen[c0[t].0 as int] == c0[t].1 by {
                                            assert(seen0.contains_key(c0[t].0 as int));
                                        }
                                    }
                                }
                                if frontier.len() < width || s > frontier[frontier.len() - 1].1 {
                                    candidates.push((ns, s));
                                    let p = insert_ranked(&mut frontier, (ns, s));
                                    if frontier.len() > width {
                                        let _ = frontier.pop();
                                    }
                                    proof {
                                        lemma_admit_step(f0, frontier@, seen0, (ns, s), p as int, width as nat);
                                        assert(frontier@.len() >= f0.len());
                                        assert(agrees(candidates@, seen)) by {
                                            assert forall|t: int| 0 <= t < candidates@.len() implies seen.contains_key(
                                                (#[trigger] candidates@[t]).0 as int,
                                            ) && seen[candidates@[t].0 as int] == candidates@[t].1 by {
                                                if t < c0.len() {
                                                    assert(candidates@[t] == c0[t]);
                                                }
                                            }
                                        }
                                        if frontier@.len() < width {
                                            assert forall|t: int| 0 <= t < candidates@.len() implies holds_slot(
                                                frontier@,
                                                (#[trigger] candidates@[t]).0 as int,
                                            ) by {
                                                if t < c0.len() {
                                                    assert(candidates@[t] == c0[t]);
                                                    assert(holds_slot(f0, c0[t].0 as int));
                                                }
                                            }
                                            assert(candidates@[c0.len() as int].0 == ns);
                                            assert forall|jj: int| #[trigger] seen.contains_key(jj) && jj != cs implies holds_slot(
                                                candidates@,
                                                jj,
                                            ) || self.expanded(seen, jj, self.links@[jj]@.len() as int) by {
                                                if jj == ns {
                                                    assert(candidates@[c0.len() as int].0 == ns);
                                                } else {
                                                    assert(seen0.contains_key(jj));
                                                    if holds_slot(c0, jj) {
                                                        let t = choose|t: int| 0 <= t < c0.len() && #[trigger] c0[t].0 == jj;
                                                        assert(candidates@[t] == c0[t]);
                                                    }
                                                }
                                            }
                                        }
                                    }
                                } else {
                                    proof {
                                        assert(f0.len() == width);
                                        assert(only_worse_left_out(frontier@, seen, width as nat)) by {
                                            assert forall|jj: int| #[trigger] seen.contains_key(jj) && !holds_slot(frontier@, jj)
                                                implies frontier@.len() == width && seen[jj] <= frontier@.last().1 by {
                                                if jj != ns {
                                                    assert(seen0.contains_key(jj));
                                                }
                                            }
                                        }
                                        assert(agrees(frontier@, seen)) by {
                                            assert forall|t: int| 0 <= t < frontier@.len() implies seen.contains_key(
                                                (#[trigger] frontier@[t]).0 as int,
                                            ) && seen[frontier@[t].0 as int] == frontier@[t].1 by {
                                                assert(seen0.contains_key(frontier@[t].0 as int));
                                            }
                                        }
                                    }
                                }
                            }
                        },
                        None => {},
                    }
                    j = j + 1;
                }
            }
        }
        proof {
            if frontier@.len() < width {
                assert(!stop);
                assert(candidates@.len() == 0);
                assert forall|jj: int| #[trigger] seen.contains_key(jj) implies self.expanded(
                    seen,
                    jj,
                    self.links@[jj]@.len() as int,
                ) by {
                    if holds_slot(candidates@, jj) {
                    }
                }
            }
            lemma_unvisited_bounds(visited@);
            assert forall|t: int| 0 <= t < frontier@.len() implies (#[trigger] frontier@[t]).0 < n
                && similarity.ensures((query, &self.table.data@[frontier@[t].0 as int]), frontier@[t].1) by {
                assert(seen.contains_key(frontier@[t].0 as int));
            }
        }
        (frontier, Ghost(seen), Ghost(calls))
    }
}

} // verus!
