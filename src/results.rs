//! Turning index candidates into search results.
//!
//! Candidates are offered in the index's order, each with the record the
//! store returned for it. A candidate becomes a result when it scores at
//! least the threshold, its record still exists and, for a collection
//! search, the record carries exactly that collection tag. Offering stops
//! mattering once `k` results are kept; results keep the index's order.
use vstd::prelude::*;
use crate::database::SearchResult;
use crate::index::{descending, distinct_ids, IndexHit};
use crate::record::Vector;

verus! {

/// `record` is tagged with `collection`, or no collection is asked for.
pub open spec fn in_collection(collection: Option<String>, record: Vector) -> bool {
    match collection {
        None => true,
        Some(c) => record.collection matches Some(t) && t@ == c@,
    }
}

/// The result a candidate yields with its record.
pub open spec fn result_of(hit: IndexHit, record: Vector) -> SearchResult {
    SearchResult { id: hit.id, score: hit.score, metadata: record.metadata }
}

/// The results kept from offering `hits[i]` with `records[i]`, in order,
/// to a fresh filter for `k` results at or above `threshold` (within
/// `collection`, where one is given).
pub open spec fn kept(
    k: usize,
    threshold: u32,
    collection: Option<String>,
    hits: Seq<IndexHit>,
    records: Seq<Option<Vector>>,
) -> Seq<SearchResult>
    decreases hits.len(),
{
    if hits.len() == 0 || records.len() != hits.len() {
        Seq::empty()
    } else {
        let prev = kept(k, threshold, collection, hits.drop_last(), records.drop_last());
        if prev.len() < k && hits.last().score >= threshold && (records.last() matches Some(v)
            && in_collection(collection, v)) {
            prev.push(result_of(hits.last(), records.last()->0))
        } else {
            prev
        }
    }
}

/// `r` comes from one of `hits`, with its id and score, whose record was
/// found and lies in `collection` (where one is asked for).
pub open spec fn drawn_from(
    hits: Seq<IndexHit>,
    records: Seq<Option<Vector>>,
    collection: Option<String>,
    r: SearchResult,
) -> bool {
    exists|j: int|
        0 <= j < hits.len() && #[trigger] hits[j].id == r.id && hits[j].score == r.score
            && (records[j] matches Some(v) && in_collection(collection, v))
}

/// Offering candidates best first yields results best first: at most `k`
/// of them, each at or above the threshold, each drawn from a candidate
/// whose record lies in the collection, and no id twice where the
/// candidates have none twice.
pub proof fn lemma_kept_in_order(
    k: usize,
    threshold: u32,
    collection: Option<String>,
    hits: Seq<IndexHit>,
    records: Seq<Option<Vector>>,
)
    requires
        records.len() == hits.len(),
        descending(hits),
    ensures
        ({
            let r = kept(k, threshold, collection, hits, records);
            &&& r.len() <= k
            &&& forall|i: int| 0 <= i < r.len() ==> (#[trigger] r[i]).score >= threshold
            &&& forall|i: int| 0 <= i < r.len() ==> drawn_from(hits, records, collection, #[trigger] r[i])
            &&& forall|i: int, j: int| 0 <= i < j < r.len() ==> r[i].score >= r[j].score
            &&& distinct_ids(hits) ==> forall|i: int, j: int|
                0 <= i < j < r.len() ==> r[i].id@ != r[j].id@
        }),
    decreases hits.len(),
{
    if hits.len() > 0 {
        let h = hits.drop_last();
        let rs = records.drop_last();
        let n = hits.len() - 1;
        assert(descending(h));
        assert(distinct_ids(hits) ==> distinct_ids(h));
        lemma_kept_in_order(k, threshold, collection, h, rs);
        let prev = kept(k, threshold, collection, h, rs);
        let cur = kept(k, threshold, collection, hits, records);
        assert forall|i: int| 0 <= i < prev.len() implies drawn_from(
            hits,
            records,
            collection,
            #[trigger] prev[i],
        ) && prev[i].score >= hits.last().score && (distinct_ids(hits) ==> prev[i].id@
            != hits.last().id@) by {
            let j = choose|j: int|
                0 <= j < h.len() && #[trigger] h[j].id == prev[i].id && h[j].score == prev[i].score
                    && (rs[j] matches Some(v) && in_collection(collection, v));
            assert(hits[j] == h[j]);
            assert(records[j] == rs[j]);
        }
        if cur != prev {
            assert(cur == prev.push(result_of(hits.last(), records.last()->0)));
            assert forall|i: int| 0 <= i < cur.len() implies drawn_from(
                hits,
                records,
                collection,
                #[trigger] cur[i],
            ) by {
                if i == prev.len() {
                    assert(hits[n].id == cur[i].id);
                } else {
                    assert(cur[i] == prev[i]);
                }
            }
            if distinct_ids(hits) {
                assert forall|i: int, j: int| 0 <= i < j < cur.len() implies cur[i].id@ != cur[j].id@ by {
                    if j == prev.len() {
                        assert(cur[i] == prev[i]);
                    } else {
                        assert(cur[i] == prev[i]);
                        assert(cur[j] == prev[j]);
                    }
                }
            }
        }
    }
}

/// Collects search results from candidates and their fetched records.
pub struct ResultFilter {
    k: usize,
    threshold: u32,
    collection: Option<String>,
    results: Vec<SearchResult>,
}

impl ResultFilter {
    pub closed spec fn spec_k(&self) -> usize {
        self.k
    }

    pub closed spec fn spec_threshold(&self) -> u32 {
        self.threshold
    }

    pub closed spec fn spec_collection(&self) -> Option<String> {
        self.collection
    }

    /// The results kept so far, in the order they were offered.
    pub closed spec fn spec_results(&self) -> Seq<SearchResult> {
        self.results@
    }

    /// At most `k` results are kept, each scoring at least the threshold.
    pub closed spec fn wf(&self) -> bool {
        &&& self.results@.len() <= self.k
        &&& forall|i: int| 0 <= i < self.results@.len() ==> (#[trigger] self.results@[i]).score
            >= self.threshold
    }

    /// Whether a candidate with `hit` and `record` becomes the next result.
    pub open spec fn accepts(&self, hit: IndexHit, record: Option<Vector>) -> bool {
        &&& self.spec_results().len() < self.spec_k()
        &&& hit.score >= self.spec_threshold()
        &&& record matches Some(v) && in_collection(self.spec_collection(), v)
    }

    /// A filter that holds the results kept from `hits` with `records`
    /// holds, after one more offer, those kept from the longer sequences:
    /// offering candidates one by one computes `kept`.
    pub proof fn lemma_offer_extends_kept(
        &self,
        hits: Seq<IndexHit>,
        records: Seq<Option<Vector>>,
        hit: IndexHit,
        record: Option<Vector>,
    )
        requires
            records.len() == hits.len(),
            self.spec_results() == kept(
                self.spec_k(),
                self.spec_threshold(),
                self.spec_collection(),
                hits,
                records,
            ),
        ensures
            kept(
                self.spec_k(),
                self.spec_threshold(),
                self.spec_collection(),
                hits.push(hit),
                records.push(record),
            ) == if self.accepts(hit, record) {
                self.spec_results().push(result_of(hit, record->0))
            } else {
                self.spec_results()
            },
    {
        assert(hits.push(hit).drop_last() =~= hits);
        assert(records.push(record).drop_last() =~= records);
    }

    /// A filter for a plain search: `k` results at or above `threshold`.
    pub fn new(k: usize, threshold: u32) -> (r: ResultFilter)
        ensures
            r.wf(),
            r.spec_k() == k,
            r.spec_threshold() == threshold,
            r.spec_collection() is None,
            r.spec_results() == Seq::<SearchResult>::empty(),
    {
        ResultFilter { k, threshold, collection: None, results: Vec::new() }
    }

    /// A filter for a search within `collection`.
    pub fn in_collection(k: usize, threshold: u32, collection: String) -> (r: ResultFilter)
        ensures
            r.wf(),
            r.spec_k() == k,
            r.spec_threshold() == threshold,
            r.spec_collection() == Some(collection),
            r.spec_results() == Seq::<SearchResult>::empty(),
    {
        ResultFilter { k, threshold, collection: Some(collection), results: Vec::new() }
    }

    /// Whether `k` results are kept; no later candidate can change them.
    pub fn is_full(&self) -> (r: bool)
        ensures
            r == (self.spec_results().len() >= self.spec_k()),
    {
        self.results.len() >= self.k
    }

    /// Whether the record of a candidate scoring `score` is worth fetching:
    /// the filter is not full and the score reaches the threshold.
    pub fn wants(&self, score: u32) -> (r: bool)
        ensures
            r == (self.spec_results().len() < self.spec_k() && score >= self.spec_threshold()),
    {
        self.results.len() < self.k && score >= self.threshold
    }

    /// Offers the next candidate with the record fetched for it (`None`
    /// where the store no longer has it).
    pub fn offer(&mut self, hit: IndexHit, record: Option<Vector>)
        requires
            old(self).wf(),
        ensures
            final(self).wf(),
            final(self).spec_k() == old(self).spec_k(),
            final(self).spec_threshold() == old(self).spec_threshold(),
            final(self).spec_collection() == old(self).spec_collection(),
            final(self).spec_results() == if old(self).accepts(hit, record) {
                old(self).spec_results().push(result_of(hit, record->0))
            } else {
                old(self).spec_results()
            },
    {
        if self.results.len() >= self.k || hit.score < self.threshold {
            return ;
        }
        match record {
            None => {},
            Some(v) => {
                let matches = match &self.collection {
                    None => true,
                    Some(c) => match &v.collection {
                        Some(t) => t.eq(c),
                        None => false,
                    },
                };
                if matches {
                    self.results.push(
                        SearchResult { id: hit.id, score: hit.score, metadata: v.metadata },
                    );
                }
            },
        }
    }

    /// The results kept, best first as the index ranked them.
    pub fn into_results(self) -> (r: Vec<SearchResult>)
        ensures
            r@ == self.spec_results(),
    {
        self.results
    }
}

} // verus!
