//! The exact index: every stored embedding is scored against the query.
use vstd::prelude::*;
use crate::index::{
    descending, distinct_ids, has_id, holds_slot, insert_ranked, ranked, scored_as, IndexHit,
};
use crate::table::EmbeddingTable;

verus! {

/// An exact, brute-force index from ids to embeddings.
pub struct FlatIndex {
    table: EmbeddingTable,
}

impl View for FlatIndex {
    type V = Map<Seq<char>, Seq<u32>>;

    closed spec fn view(&self) -> Map<Seq<char>, Seq<u32>> {
        self.table.map()
    }
}

impl FlatIndex {
    pub closed spec fn wf(&self) -> bool {
        self.table.wf()
    }

    pub fn new() -> (r: FlatIndex)
        ensures
            r.wf(),
            r@ == Map::<Seq<char>, Seq<u32>>::empty(),
            r@.dom().finite(),
    {
        FlatIndex { table: EmbeddingTable::new() }
    }

    /// The contents of a well-formed index are finite.
    pub proof fn lemma_finite(&self)
        requires
            self.wf(),
        ensures
            self@.dom().finite(),
    {
        self.table.lemma_map_len();
    }

    /// Stores `embedding` under `id`, replacing an earlier one.
    pub fn add_vector(&mut self, id: &str, embedding: &Vec<u32>)
        requires
            old(self).wf(),
            old(self)@.len() < usize::MAX,
        ensures
            final(self).wf(),
            final(self)@ == old(self)@.insert(id@, embedding@),
            final(self)@.dom().finite(),
    {
        proof {
            self.table.lemma_map_len();
        }
        let _ = self.table.upsert(id.to_owned(), embedding.clone());
        proof {
            self.table.lemma_map_len();
        }
    }

    /// Removes `id`; true iff it was stored.
    pub fn remove_vector(&mut self, id: &str) -> (r: bool)
        requires
            old(self).wf(),
        ensures
            final(self).wf(),
            r == old(self)@.contains_key(id@),
            final(self)@ == old(self)@.remove(id@),
            final(self)@.dom().finite(),
    {
        let r = self.table.remove(id).is_some();
        proof {
            self.table.lemma_map_len();
        }
        r
    }

    pub fn size(&self) -> (r: usize)
        requires
            self.wf(),
        ensures
            r == self@.len(),
    {
        self.table.len()
    }

    pub fn clear(&mut self)
        ensures
            final(self).wf(),
            final(self)@ == Map::<Seq<char>, Seq<u32>>::empty(),
            final(self)@.dom().finite(),
    {
        self.table.clear();
    }

    /// `r` answers a search for the `k` ids closest to `query`: the `k` best
    /// stored ids (all of them where fewer are stored), best first, each
    /// once, with the scores `similarity` gave them; every stored id left out
    /// scores no higher than the last one returned.
    pub open spec fn search_answers<F: Fn(&Vec<u32>, &Vec<u32>) -> u32>(
        &self,
        similarity: F,
        query: &Vec<u32>,
        k: usize,
        r: Seq<IndexHit>,
    ) -> bool {
        &&& (r.len() == if k < self@.len() { k as nat } else { self@.len() })
        &&& (descending(r))
        &&& (distinct_ids(r))
        &&& (forall|i: int|
            0 <= i < r.len() ==> self@.contains_key(#[trigger] r[i].id@) && scored_as(
                similarity,
                query,
                self@[r[i].id@],
                r[i].score,
            ))
        &&& (forall|id: Seq<char>|
            k > 0 && self@.contains_key(id) && !has_id(r, id) ==> exists|s: u32|
                scored_as(similarity, query, self@[id], s) && s <= r.last().score)
    }

    /// The `k` best-scoring entries for `query`, best first; `similarity`
    /// scores the query against each stored embedding exactly once.
    pub fn search<F: Fn(&Vec<u32>, &Vec<u32>) -> u32>(
        &self,
        query: &Vec<u32>,
        k: usize,
        similarity: &F,
    ) -> (r: Vec<IndexHit>)
        requires
            self.wf(),
            forall|a: &Vec<u32>, b: &Vec<u32>| similarity.requires((a, b)),
        ensures
            self.search_answers(*similarity, query, k, r@),
    {
        proof {
            self.table.lemma_map_len();
        }
        let n = self.table.len();
        let mut buf: Vec<(usize, u32)> = Vec::new();
        let ghost mut scores: Seq<u32> = Seq::empty();
        let mut i: usize = 0;
        if k > 0 {
            while i < n
                invariant
                    self.table.wf(),
                    n == self.table.ids@.len(),
                    k > 0,
                    i <= n,
                    scores.len() == i,
                    forall|a: &Vec<u32>, b: &Vec<u32>| similarity.requires((a, b)),
                    forall|j: int|
                        0 <= j < i ==> #[trigger] similarity.ensures(
                            (query, &self.table.data@[j]),
                            scores[j],
                        ),
                    ranked(buf@),
                    buf@.len() == if k < i { k as int } else { i as int },
                    forall|t: int|
                        0 <= t < buf@.len() ==> buf@[t].0 < i && scores[buf@[t].0 as int]
                            == buf@[t].1,
                    forall|t: int, u: int|
                        0 <= t < u < buf@.len() ==> buf@[t].0 != buf@[u].0,
                    forall|j: int|
                        0 <= j < i && !holds_slot(buf@, j)
                            ==> buf@.len() == k && scores[j] <= buf@[k - 1].1,
                decreases n - i,
            {
                let s = similarity(query, &self.table.data[i]);
                let ghost old_buf = buf@;
                let ghost old_scores = scores;
                let p = insert_ranked(&mut buf, (i, s));
                proof {
                    scores = scores.push(s);
                }
                if buf.len() > k {
                    let _ = buf.pop();
                    proof {
                        assert(old_buf.len() == k);
                        assert(buf@.len() == k);
                        assert(buf@[k - 1].1 >= old_buf[k - 1].1) by {
                            if p < k - 1 {
                                assert(buf@[k - 1] == old_buf[k - 2]);
                            } else if p == k - 1 {
                                assert(buf@[k - 1].1 == s);
                            } else {
                                assert(buf@[k - 1] == old_buf[k - 1]);
                            }
                        }
                        let popped = old_buf.insert(p as int, (i, s))[k as int];
                        assert(popped.1 <= buf@[k - 1].1);
                        assert forall|j: int|
                            0 <= j <= i && !holds_slot(buf@, j) implies (#[trigger] scores[j])
                            <= buf@[k - 1].1 by {
                            if j == popped.0 {
                                if p == k {
                                    assert(j == i);
                                } else {
                                    assert(old_buf[k - 1] == popped);
                                }
                            } else if j < i {
                                assert(!holds_slot(old_buf, j)) by {
                                    if holds_slot(old_buf, j) {
                                        let t = choose|t: int|
                                            0 <= t < old_buf.len() && old_buf[t].0 == j;
                                        if t < p {
                                            assert(buf@[t] == old_buf[t]);
                                        } else if t < k - 1 {
                                            assert(buf@[t + 1] == old_buf[t]);
                                        } else {
                                            assert(old_buf[t] == popped);
                                        }
                                    }
                                }
                                assert(old_scores[j] <= old_buf[k - 1].1);
                            } else {
                                assert(buf@[p as int].0 == i);
                            }
                        }
                    }
                } else {
                    proof {
                        assert forall|j: int| 0 <= j <= i implies #[trigger] holds_slot(buf@, j) by {
                            if j < i {
                                if !holds_slot(old_buf, j) {
                                    assert(old_scores[j] <= old_buf[k - 1].1);
                                    assert(false);
                                }
                                let t0 = choose|t: int| 0 <= t < old_buf.len() && old_buf[t].0 == j;
                                if t0 < p {
                                    assert(buf@[t0] == old_buf[t0]);
                                } else {
                                    assert(buf@[t0 + 1] == old_buf[t0]);
                                }
                            } else {
                                assert(buf@[p as int].0 == i);
                            }
                        }
                    }
                }
                i = i + 1;
            }
        }
        let r = self.table.hits(&buf, k);
        proof {
            assert forall|u: int, v: int| 0 <= u < v < r@.len() implies r@[u].id@ != r@[v].id@ by {
                self.table.lemma_ids_distinct(buf@[u].0 as int, buf@[v].0 as int);
            }
            assert forall|u: int| 0 <= u < r@.len() implies self@.contains_key(
                #[trigger] r@[u].id@,
            ) && scored_as(*similarity, query, self@[r@[u].id@], r@[u].score) by {
                let slot = buf@[u].0 as int;
                assert(self.table.slots@.contains_key(self.table.ids@[slot]@));
                assert(similarity.ensures((query, &self.table.data@[slot]), scores[slot]));
            }
            assert forall|id: Seq<char>|
                k > 0 && self@.contains_key(id) && !has_id(r@, id) implies exists|s: u32|
                scored_as(*similarity, query, self@[id], s) && s <= r@.last().score by {
                let slot = self.table.slots@[id] as int;
                assert(!holds_slot(buf@, slot)) by {
                    if holds_slot(buf@, slot) {
                        let u = choose|u: int| 0 <= u < buf@.len() && buf@[u].0 == slot;
                        assert(r@[u].id@ == id);
                        assert(has_id(r@, id));
                    }
                }
                assert(i == n);
                assert(buf@.len() == k);
                assert(r@.last().score == buf@[k - 1].1);
                assert(scores[slot] <= buf@[k - 1].1);
                assert(similarity.ensures((query, &self.table.data@[slot]), scores[slot]));
                assert(scored_as(*similarity, query, self@[id], scores[slot]));
            }
        }
        r
    }
}

} // verus!
