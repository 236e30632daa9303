//! The database's own decisions, kept apart from the store they coordinate
//! with: which records are accepted, what the index holds, which candidates
//! become results, and what the statistics report.
//!
//! A driver performs the store calls and feeds their outcomes back here:
//! an insert is `validate_record`, then the store write, then `index_vector`; a search
//! takes `search_candidates` (or `collection_candidates`), fetches each one
//! the `ResultFilter` still wants, and offers it the fetched record.
use vstd::prelude::*;
use std::collections::HashMap;
use crate::backend::VectorIndex;
use crate::error::VectorError;
use crate::graph::HnswIndex;
use crate::index::{descending, distinct_ids, scored_as, IndexHit};
use crate::record::Vector;
use crate::similarity::DistanceMetric;

verus! {

/// How many candidates a plain search asks the index for, per wanted result.
pub const SEARCH_OVERFETCH: usize = 2;

/// How many candidates a collection search asks for, per wanted result.
pub const COLLECTION_OVERFETCH: usize = 5;

/// The embedding length the default graph index is sized for.
pub const DEFAULT_DIMENSIONS: usize = 768;

/// One search answer: an id, its score key and the record's metadata.
#[derive(Debug, Clone)]
pub struct SearchResult {
    pub id: String,
    pub score: u32,
    pub metadata: Option<HashMap<String, String>>,
}

/// What the database reports about itself.
#[derive(Debug, Clone, Copy, PartialEq, Eq)]
pub struct DatabaseStats {
    pub total_vectors: usize,
    pub dimensions: usize,
    pub storage_size_bytes: usize,
}

/// The statistics as the request layer reports them.
#[derive(Debug, Clone, Copy, PartialEq, Eq)]
pub struct StatsResponse {
    pub total_vectors: usize,
    pub dimensions: usize,
    pub storage_size_bytes: usize,
}

impl StatsResponse {
    pub fn from_stats(stats: DatabaseStats) -> (r: StatsResponse)
        ensures
            r.total_vectors == stats.total_vectors,
            r.dimensions == stats.dimensions,
            r.storage_size_bytes == stats.storage_size_bytes,
    {
        StatsResponse {
            total_vectors: stats.total_vectors,
            dimensions: stats.dimensions,
            storage_size_bytes: stats.storage_size_bytes,
        }
    }
}

/// The outcome of accepting an embedding of length `len` when the fixed
/// dimension is `dims`: the verdict and the dimension afterwards. The first
/// accepted embedding fixes the dimension; later ones must match it.
pub open spec fn validation(dims: Option<usize>, len: usize) -> (Result<(), VectorError>, Option<usize>) {
    match dims {
        Some(d) => if d == len {
            (Ok(()), Some(d))
        } else {
            (Err(VectorError::DimensionMismatch { expected: d, actual: len }), Some(d))
        },
        None => (Ok(()), Some(len)),
    }
}

/// Once the first accepted record has fixed the dimension, a record of any
/// other length is refused with `DimensionMismatch`, and the dimension stays.
pub proof fn lemma_dimension_fixed(dims: Option<usize>, first: usize, second: usize)
    requires
        validation(dims, first).0 is Ok,
        second != first,
    ensures
        validation(dims, first).1 == Some(first),
        validation(validation(dims, first).1, second) == (
        Err::<(), VectorError>(VectorError::DimensionMismatch { expected: first, actual: second }),
        Some(first),
        ),
{
}

/// `n` times `factor`, or the largest `usize` where that does not fit.
pub open spec fn scaled(n: usize, factor: usize) -> usize {
    if n * factor <= usize::MAX {
        (n * factor) as usize
    } else {
        usize::MAX
    }
}

fn scale(n: usize, factor: usize) -> (r: usize)
    requires
        factor > 0,
    ensures
        r == scaled(n, factor),
{
    if n <= usize::MAX / factor {
        proof {
            assert(n * factor <= usize::MAX) by (nonlinear_arith)
                requires
                    n <= usize::MAX / factor,
                    factor > 0,
            ;
        }
        n * factor
    } else {
        proof {
            assert(n * factor > usize::MAX) by (nonlinear_arith)
                requires
                    n > usize::MAX / factor,
                    factor > 0,
            ;
        }
        usize::MAX
    }
}

/// The dimension the statistics report.
pub open spec fn reported_dimensions(
    dims: Option<usize>,
    total_vectors: usize,
    first_dimensions: Option<usize>,
) -> usize {
    match dims {
        Some(d) => d,
        None => if total_vectors == 0 {
            0
        } else {
            match first_dimensions {
                Some(d) => d,
                None => 0,
            }
        },
    }
}

/// The index side of a vector database.
pub struct VectorDatabase {
    index: VectorIndex,
    distance_metric: DistanceMetric,
    dimensions: Option<usize>,
}

impl VectorDatabase {
    pub open spec fn wf(&self) -> bool {
        self.spec_index().wf()
    }

    /// The index the database is built on.
    pub closed spec fn spec_index(&self) -> VectorIndex {
        self.index
    }

    /// The ids and embeddings the index holds.
    pub open spec fn indexed(&self) -> Map<Seq<char>, Seq<u32>> {
        self.spec_index()@
    }

    /// The metric the database is configured with.
    pub closed spec fn spec_distance_metric(&self) -> DistanceMetric {
        self.distance_metric
    }

    /// The fixed dimension, if one has been fixed.
    pub closed spec fn spec_dimensions(&self) -> Option<usize> {
        self.dimensions
    }

    /// A database over an empty graph index, with no dimension fixed.
    pub fn new() -> (r: VectorDatabase)
        ensures
            r.wf(),
            r.indexed() == Map::<Seq<char>, Seq<u32>>::empty(),
            r.spec_dimensions() is None,
            r.spec_distance_metric() == DistanceMetric::Cosine,
            r.spec_index() matches VectorIndex::Graph(g) && g.spec_entry_point() is None,
    {
        VectorDatabase::with_index(VectorIndex::Graph(HnswIndex::new(DEFAULT_DIMENSIONS)))
    }

    /// A database over the given index, with no dimension fixed.
    pub fn with_index(index: VectorIndex) -> (r: VectorDatabase)
        requires
            index.wf(),
        ensures
            r.wf(),
            r.spec_index() == index,
            r.indexed() == index@,
            r.spec_dimensions() is None,
            r.spec_distance_metric() == DistanceMetric::Cosine,
    {
        VectorDatabase { index, distance_metric: DistanceMetric::Cosine, dimensions: None }
    }

    pub fn dimensions(&self) -> (r: Option<usize>)
        ensures
            r == self.spec_dimensions(),
    {
        self.dimensions
    }

    /// The configured metric. Both indexes rank by cosine similarity
    /// whatever it is.
    pub fn distance_metric(&self) -> (r: DistanceMetric)
        ensures
            r == self.spec_distance_metric(),
    {
        self.distance_metric
    }

    /// How many records the index holds.
    pub fn indexed_count(&self) -> (r: usize)
        requires
            self.wf(),
        ensures
            r == self.indexed().len(),
    {
        self.index.size()
    }

    /// Whether `record` may be stored, without fixing a dimension: the
    /// verdict `validate_record` would give.
    pub fn check_record(&self, record: &Vector) -> (r: Result<(), VectorError>)
        ensures
            r == validation(self.spec_dimensions(), record.data@.len() as usize).0,
    {
        let len = record.data.len();
        match self.dimensions {
            Some(d) => if d == len {
                Ok(())
            } else {
                Err(VectorError::DimensionMismatch { expected: d, actual: len })
            },
            None => Ok(()),
        }
    }

    /// Validates `record` before it is stored: once a dimension is fixed,
    /// a record of another length fails with `DimensionMismatch` and changes
    /// nothing; otherwise the record's length becomes the fixed dimension.
    pub fn validate_record(&mut self, record: &Vector) -> (r: Result<(), VectorError>)
        ensures
            (r, final(self).spec_dimensions()) == validation(
                old(self).spec_dimensions(),
                record.data@.len() as usize,
            ),
            final(self).spec_index() == old(self).spec_index(),
            final(self).wf() == old(self).wf(),
            final(self).spec_distance_metric() == old(self).spec_distance_metric(),
    {
        let len = record.data.len();
        match self.dimensions {
            Some(d) => if d == len {
                Ok(())
            } else {
                Err(VectorError::DimensionMismatch { expected: d, actual: len })
            },
            None => {
                self.dimensions = Some(len);
                Ok(())
            },
        }
    }

    /// Adds a stored record to the index.
    pub fn index_vector<F: Fn(&Vec<u32>, &Vec<u32>) -> u32>(
        &mut self,
        record: &Vector,
        similarity: &F,
    )
        requires
            old(self).wf(),
            old(self).indexed().len() < usize::MAX,
            forall|a: &Vec<u32>, b: &Vec<u32>| similarity.requires((a, b)),
        ensures
            final(self).wf(),
            final(self).indexed() == old(self).indexed().insert(record.id@, record.data@),
            old(self).spec_index().added(final(self).spec_index(), record.id@, record.data@),
            final(self).spec_dimensions() == old(self).spec_dimensions(),
            final(self).spec_distance_metric() == old(self).spec_distance_metric(),
    {
        self.index.add_vector(record.id.as_str(), &record.data, similarity);
    }

    fn candidates<F: Fn(&Vec<u32>, &Vec<u32>) -> u32>(
        &self,
        query: &Vec<u32>,
        wanted: usize,
        similarity: &F,
    ) -> (r: Vec<IndexHit>)
        requires
            self.wf(),
            forall|a: &Vec<u32>, b: &Vec<u32>| similarity.requires((a, b)),
        ensures
            r@.len() <= wanted,
            self.spec_index().search_answers(*similarity, query, wanted, r@),
            wanted > 0 && self.indexed().len() > 0 ==> r@.len() > 0,
            descending(r@),
            distinct_ids(r@),
            forall|i: int|
                0 <= i < r@.len() ==> self.indexed().contains_key(#[trigger] r@[i].id@)
                    && scored_as(*similarity, query, self.indexed()[r@[i].id@], r@[i].score),
    {
        self.index.search(query, wanted, similarity)
    }

    /// The index's candidates for a search wanting `k` results: it asks for
    /// `SEARCH_OVERFETCH` times `k`, best first.
    pub fn search_candidates<F: Fn(&Vec<u32>, &Vec<u32>) -> u32>(
        &self,
        query: &Vec<u32>,
        k: usize,
        similarity: &F,
    ) -> (r: Vec<IndexHit>)
        requires
            self.wf(),
            forall|a: &Vec<u32>, b: &Vec<u32>| similarity.requires((a, b)),
        ensures
            r@.len() <= scaled(k, SEARCH_OVERFETCH),
            self.spec_index().search_answers(*similarity, query, scaled(k, SEARCH_OVERFETCH), r@),
            k > 0 && self.indexed().len() > 0 ==> r@.len() > 0,
            descending(r@),
            distinct_ids(r@),
            forall|i: int|
                0 <= i < r@.len() ==> self.indexed().contains_key(#[trigger] r@[i].id@)
                    && scored_as(*similarity, query, self.indexed()[r@[i].id@], r@[i].score),
    {
        self.candidates(query, scale(k, SEARCH_OVERFETCH), similarity)
    }

    /// The index's candidates for a collection search wanting `k` results:
    /// it asks for `COLLECTION_OVERFETCH` times `k`, since the collection
    /// filter discards more.
    pub fn collection_candidates<F: Fn(&Vec<u32>, &Vec<u32>) -> u32>(
        &self,
        query: &Vec<u32>,
        k: usize,
        similarity: &F,
    ) -> (r: Vec<IndexHit>)
        requires
            self.wf(),
            forall|a: &Vec<u32>, b: &Vec<u32>| similarity.requires((a, b)),
        ensures
            r@.len() <= scaled(k, COLLECTION_OVERFETCH),
            self.spec_index().search_answers(*similarity, query, scaled(k, COLLECTION_OVERFETCH), r@),
            k > 0 && self.indexed().len() > 0 ==> r@.len() > 0,
            descending(r@),
            distinct_ids(r@),
            forall|i: int|
                0 <= i < r@.len() ==> self.indexed().contains_key(#[trigger] r@[i].id@)
                    && scored_as(*similarity, query, self.indexed()[r@[i].id@], r@[i].score),
    {
        self.candidates(query, scale(k, COLLECTION_OVERFETCH), similarity)
    }

    /// Completes a delete once the store has answered: the index drops `id`
    /// only where the store had it. Returns the store's answer.
    pub fn apply_delete(&mut self, id: &str, existed_in_store: bool) -> (r: bool)
        requires
            old(self).wf(),
        ensures
            final(self).wf(),
            r == existed_in_store,
            final(self).indexed() == if existed_in_store {
                old(self).indexed().remove(id@)
            } else {
                old(self).indexed()
            },
            existed_in_store ==> old(self).spec_index().removed(
                final(self).spec_index(),
                id@,
                old(self).indexed().contains_key(id@),
            ),
            !existed_in_store ==> final(self).spec_index() == old(self).spec_index(),
            final(self).spec_dimensions() == old(self).spec_dimensions(),
            final(self).spec_distance_metric() == old(self).spec_distance_metric(),
    {
        if existed_in_store {
            let _ = self.index.remove_vector(id);
        }
        existed_in_store
    }

    /// Whether the statistics need a sampled record to report a dimension.
    pub fn needs_dimension_sample(&self, total_vectors: usize) -> (r: bool)
        ensures
            r == (self.spec_dimensions() is None && total_vectors > 0),
    {
        self.dimensions.is_none() && total_vectors > 0
    }

    /// The statistics, from the store's counts and, where needed, the
    /// length of one sampled record.
    pub fn stats(
        &self,
        total_vectors: usize,
        storage_size_bytes: usize,
        first_dimensions: Option<usize>,
    ) -> (r: DatabaseStats)
        ensures
            r == (DatabaseStats {
                total_vectors,
                dimensions: reported_dimensions(
                    self.spec_dimensions(),
                    total_vectors,
                    first_dimensions,
                ),
                storage_size_bytes,
            }),
    {
        let dimensions = match self.dimensions {
            Some(d) => d,
            None => if total_vectors == 0 {
                0
            } else {
                match first_dimensions {
                    Some(d) => d,
                    None => 0,
                }
            },
        };
        DatabaseStats { total_vectors, dimensions, storage_size_bytes }
    }
}

} // verus!
