//! The index a database is built with: one of the two variants, chosen once.
use vstd::prelude::*;
use crate::flat::FlatIndex;
use crate::graph::HnswIndex;
use crate::index::{descending, distinct_ids, has_id, scored_as, IndexHit};

verus! {

/// The contents after adding `embeddings[i]` under `ids[i]` to `start`,
/// in order.
pub open spec fn after_adds(
    start: Map<Seq<char>, Seq<u32>>,
    ids: Seq<Seq<char>>,
    embeddings: Seq<Seq<u32>>,
) -> Map<Seq<char>, Seq<u32>>
    decreases ids.len(),
{
    if ids.len() == 0 || embeddings.len() == 0 {
        start
    } else {
        after_adds(start, ids.drop_last(), embeddings.drop_last()).insert(
            ids.last(),
            embeddings.last(),
        )
    }
}

/// Adding vectors under `n` distinct ids to an empty index leaves it with
/// size `n`.
pub proof fn lemma_distinct_adds_size(ids: Seq<Seq<char>>, embeddings: Seq<Seq<u32>>)
    requires
        ids.len() == embeddings.len(),
        ids.no_duplicates(),
    ensures
        after_adds(Map::empty(), ids, embeddings).dom().finite(),
        after_adds(Map::empty(), ids, embeddings).len() == ids.len(),
        forall|i: int| 0 <= i < ids.len() ==> after_adds(Map::empty(), ids, embeddings).contains_key(#[trigger] ids[i]),
    decreases ids.len(),
{
    if ids.len() > 0 {
        let rest = ids.drop_last();
        lemma_distinct_adds_size(rest, embeddings.drop_last());
        let m = after_adds(Map::empty(), rest, embeddings.drop_last());
        assert forall|k: Seq<char>| m.contains_key(k) implies rest.contains(k) by {
            lemma_adds_domain(rest, embeddings.drop_last(), k);
        }
        assert(!rest.contains(ids.last())) by {
            if rest.contains(ids.last()) {
                let j = choose|j: int| 0 <= j < rest.len() && rest[j] == ids.last();
                assert(ids[j] == ids[ids.len() - 1]);
            }
        }
        assert forall|i: int| 0 <= i < ids.len() implies after_adds(Map::empty(), ids, embeddings).contains_key(#[trigger] ids[i]) by {
            if i < ids.len() - 1 {
                assert(m.contains_key(rest[i]));
            }
        }
    }
}

proof fn lemma_adds_domain(ids: Seq<Seq<char>>, embeddings: Seq<Seq<u32>>, k: Seq<char>)
    requires
        ids.len() == embeddings.len(),
        after_adds(Map::empty(), ids, embeddings).contains_key(k),
    ensures
        ids.contains(k),
    decreases ids.len(),
{
    if ids.len() > 0 && k != ids.last() {
        lemma_adds_domain(ids.drop_last(), embeddings.drop_last(), k);
        let j = choose|j: int| 0 <= j < ids.len() - 1 && ids.drop_last()[j] == k;
        assert(ids[j] == k);
    }
}

/// Removing an id twice: the second removal finds nothing and changes
/// nothing. Removing an absent id finds nothing and changes nothing.
pub proof fn lemma_remove_idempotent(contents: Map<Seq<char>, Seq<u32>>, id: Seq<char>)
    ensures
        !contents.remove(id).contains_key(id),
        contents.remove(id).remove(id) == contents.remove(id),
        !contents.contains_key(id) ==> contents.remove(id) == contents,
{
    assert(contents.remove(id).remove(id) =~= contents.remove(id));
    if !contents.contains_key(id) {
        assert(contents.remove(id) =~= contents);
    }
}

/// After `id` is removed, no search result can carry it: every hit names an
/// id the index still holds.
pub proof fn lemma_removed_id_not_found(
    before: Map<Seq<char>, Seq<u32>>,
    id: Seq<char>,
    hits: Seq<IndexHit>,
)
    requires
        forall|i: int| 0 <= i < hits.len() ==> before.remove(id).contains_key(#[trigger] hits[i].id@),
    ensures
        !has_id(hits, id),
{
    if has_id(hits, id) {
        let i = choose|i: int| 0 <= i < hits.len() && #[trigger] hits[i].id@ == id;
        assert(before.remove(id).contains_key(hits[i].id@));
    }
}

/// The index strategies a database can be built with.
pub enum VectorIndex {
    /// Exact: every stored embedding is scored.
    Flat(FlatIndex),
    /// Approximate: a proximity graph is walked from its entry point.
    Graph(HnswIndex),
}

impl View for VectorIndex {
    type V = Map<Seq<char>, Seq<u32>>;

    open spec fn view(&self) -> Map<Seq<char>, Seq<u32>> {
        match self {
            VectorIndex::Flat(f) => f@,
            VectorIndex::Graph(g) => g@,
        }
    }
}

impl VectorIndex {
    pub open spec fn wf(&self) -> bool {
        match self {
            VectorIndex::Flat(f) => f.wf(),
            VectorIndex::Graph(g) => g.wf(),
        }
    }

    /// `next` is this index, of the same variant, after `embedding` was
    /// stored under `id`.
    pub open spec fn added(&self, next: VectorIndex, id: Seq<char>, embedding: Seq<u32>) -> bool {
        match (*self, next) {
            (VectorIndex::Flat(a), VectorIndex::Flat(b)) => b.wf() && b@ == a@.insert(id, embedding)
                && b@.dom().finite(),
            (VectorIndex::Graph(a), VectorIndex::Graph(b)) => a.added(b, id, embedding),
            _ => false,
        }
    }

    /// `next` is this index, of the same variant, after `id` was removed,
    /// `r` telling whether it was stored.
    pub open spec fn removed(&self, next: VectorIndex, id: Seq<char>, r: bool) -> bool {
        match (*self, next) {
            (VectorIndex::Flat(a), VectorIndex::Flat(b)) => b.wf() && r == a@.contains_key(id) && b@
                == a@.remove(id) && b@.dom().finite(),
            (VectorIndex::Graph(a), VectorIndex::Graph(b)) => a.removed(b, id, r),
            _ => false,
        }
    }

    /// `r` answers a search for the `k` ids closest to `query`, as the
    /// variant promises.
    pub open spec fn search_answers<F: Fn(&Vec<u32>, &Vec<u32>) -> u32>(
        &self,
        similarity: F,
        query: &Vec<u32>,
        k: usize,
        r: Seq<IndexHit>,
    ) -> bool {
        match self {
            VectorIndex::Flat(f) => f.search_answers(similarity, query, k, r),
            VectorIndex::Graph(g) => g.search_answers(similarity, query, k, r),
        }
    }

    /// The contents of a well-formed index are finite.
    pub proof fn lemma_finite(&self)
        requires
            self.wf(),
        ensures
            self@.dom().finite(),
    {
        match self {
            VectorIndex::Flat(f) => f.lemma_finite(),
            VectorIndex::Graph(g) => g.lemma_wf(),
        }
    }

    /// Stores `embedding` under `id`.
    pub fn add_vector<F: Fn(&Vec<u32>, &Vec<u32>) -> u32>(
        &mut self,
        id: &str,
        embedding: &Vec<u32>,
        similarity: &F,
    )
        requires
            old(self).wf(),
            old(self)@.len() < usize::MAX,
            forall|a: &Vec<u32>, b: &Vec<u32>| similarity.requires((a, b)),
        ensures
            final(self).wf(),
            final(self)@ == old(self)@.insert(id@, embedding@),
            final(self)@.dom().finite(),
            old(self).added(*final(self), id@, embedding@),
    {
        match self {
            VectorIndex::Flat(f) => f.add_vector(id, embedding),
            VectorIndex::Graph(g) => g.add_vector(id, embedding, similarity),
        }
    }

    /// Removes `id`; true iff it was stored.
    pub fn remove_vector(&mut self, id: &str) -> (r: bool)
        requires
            old(self).wf(),
        ensures
            final(self).wf(),
            r == old(self)@.contains_key(id@),
            final(self)@ == old(self)@.remove(id@),
            final(self)@.dom().finite(),
            old(self).removed(*final(self), id@, r),
    {
        match self {
            VectorIndex::Flat(f) => f.remove_vector(id),
            VectorIndex::Graph(g) => g.remove_vector(id),
        }
    }

    /// Up to `k` stored ids for `query`, best first.
    pub fn search<F: Fn(&Vec<u32>, &Vec<u32>) -> u32>(
        &self,
        query: &Vec<u32>,
        k: usize,
        similarity: &F,
    ) -> (r: Vec<IndexHit>)
        requires
            self.wf(),
            forall|a: &Vec<u32>, b: &Vec<u32>| similarity.requires((a, b)),
        ensures
            r@.len() <= k,
            k > 0 && self@.len() > 0 ==> r@.len() > 0,
            descending(r@),
            distinct_ids(r@),
            forall|i: int|
                0 <= i < r@.len() ==> self@.contains_key(#[trigger] r@[i].id@) && scored_as(
                    *similarity,
                    query,
                    self@[r@[i].id@],
                    r@[i].score,
                ),
            self.search_answers(*similarity, query, k, r@),
    {
        match self {
            VectorIndex::Flat(f) => f.search(query, k, similarity),
            VectorIndex::Graph(g) => g.search(query, k, similarity),
        }
    }

    pub fn size(&self) -> (r: usize)
        requires
            self.wf(),
        ensures
            r == self@.len(),
    {
        match self {
            VectorIndex::Flat(f) => f.size(),
            VectorIndex::Graph(g) => g.size(),
        }
    }

    pub fn clear(&mut self)
        requires
            old(self).wf(),
        ensures
            final(self).wf(),
            final(self)@ == Map::<Seq<char>, Seq<u32>>::empty(),
            final(self)@.dom().finite(),
            *final(self) is Flat <==> *old(self) is Flat,
    {
        match self {
            VectorIndex::Flat(f) => f.clear(),
            VectorIndex::Graph(g) => g.clear(),
        }
    }
}

} // verus!
