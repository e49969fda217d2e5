//! Search requests and results.
use vstd::prelude::*;

use crate::document::{DocId, Document, IdModel, Include};
use crate::filter::{Filter, FilterModel};
use crate::index::{IndexKind, SearchParams};
use crate::persistence::segment;
use crate::search::Metric;
use crate::vector::VectorView;

verus! {

/// A similarity query.
#[derive(Debug, Clone)]
pub struct SearchRequest<'a> {
    /// The query vector.
    pub vector: VectorView<'a>,
    /// How many results to return.
    pub top_k: usize,
    /// Override the collection's metric.
    ///
    /// Rarely wanted, and worth knowing the cost: the cached reciprocal norms in the row
    /// directory were computed for the collection's own metric, so an override that needs
    /// different precomputation gains nothing from them.
    pub metric: Option<Metric>,
    /// Discard results scoring below this, as the bits of a single-precision number. Inclusive.
    ///
    /// In score space, where higher is better: for `L2`, whose scores are negated squared
    /// distances, a threshold of -100 keeps everything within a squared distance of 100.
    pub min_score: Option<u32>,
    /// Which parts of each matching document to return.
    pub parts: Include,
    /// Per-index knobs, ignored by indexes they do not apply to.
    pub params: SearchParams,
    /// What a document's metadata must satisfy, if anything.
    pub filter: Option<&'a Filter>,
}

impl<'a> SearchRequest<'a> {
    /// A query for the `top_k` nearest documents.
    pub fn new(vector: VectorView<'a>, top_k: usize) -> (r: Self)
        ensures
            r == (SearchRequest {
                vector,
                top_k,
                metric: None,
                min_score: None,
                parts: Include { vector: false, metadata: true, content: false },
                params: SearchParams { ef_search: None, n_probe: None },
                filter: None,
            }),
    {
        SearchRequest {
            vector,
            top_k,
            metric: None,
            min_score: None,
            parts: Include::default(),
            params: SearchParams::default(),
            filter: None,
        }
    }

    /// Score with a metric other than the collection's.
    #[must_use]
    pub fn with_metric(self, metric: Metric) -> (r: Self)
        ensures
            r == (SearchRequest { metric: Some(metric), ..self }),
    {
        SearchRequest { metric: Some(metric), ..self }
    }

    /// Discard anything scoring below `min_score`.
    #[must_use]
    pub fn with_min_score(self, min_score: u32) -> (r: Self)
        ensures
            r == (SearchRequest { min_score: Some(min_score), ..self }),
    {
        SearchRequest { min_score: Some(min_score), ..self }
    }

    /// Choose what to return for each hit.
    #[must_use]
    pub fn with_include(self, parts: Include) -> (r: Self)
        ensures
            r == (SearchRequest { parts, ..self }),
    {
        SearchRequest { parts, ..self }
    }

    /// Set per-index knobs.
    #[must_use]
    pub fn with_params(self, params: SearchParams) -> (r: Self)
        ensures
            r == (SearchRequest { params, ..self }),
    {
        SearchRequest { params, ..self }
    }

    /// Consider only documents whose metadata satisfies `filter`.
    #[must_use]
    pub fn with_filter(self, filter: &'a Filter) -> (r: Self)
        ensures
            r == (SearchRequest { filter: Some(filter), ..self }),
    {
        SearchRequest { filter: Some(filter), ..self }
    }

    /// What the request asks of a document's metadata.
    pub open spec fn asked(self) -> Option<FilterModel> {
        match self.filter {
            Some(f) => Some(f@),
            None => None,
        }
    }
}

/// One matching document.
#[derive(Debug, PartialEq)]
pub struct Hit {
    /// The document's id.
    pub id: DocId,
    /// The bits of its score. Always higher-is-better, whatever the metric.
    pub score: u32,
    /// The bits of the metric-native distance, where the metric defines one.
    ///
    /// `None` for the inner product, which is a similarity with no corresponding distance.
    /// Inventing one would be worse than admitting it.
    pub distance: Option<u32>,
    /// The document itself, as far as the request asked for it.
    pub document: Option<Document>,
}

/// What a search did, beyond its results.
#[derive(Debug, Clone, Copy, PartialEq, Eq, Structural)]
pub struct SearchStats {
    /// Which index answered.
    pub index_kind: IndexKind,
    /// Whether the results are ground truth.
    ///
    /// Surfaced so an approximate result is never mistaken for an exact one: the distinction
    /// matters enormously when someone is debugging why a document they expected is missing.
    pub exact: bool,
    /// Rows offered to the selector, including those rejected by a threshold.
    pub considered: u64,
    /// Rows the index actually examined.
    pub scanned: u64,
    /// Rows skipped because they were deleted or filtered out.
    pub skipped: u64,
}

/// The result of a search.
#[derive(Debug, PartialEq)]
pub struct SearchResponse {
    /// Matches, best first; ties broken by ascending id.
    pub hits: Vec<Hit>,
    /// What the search did.
    pub stats: SearchStats,
}

/// The ids of hits, in order.
pub open spec fn hit_ids(hits: Seq<Hit>) -> Seq<IdModel> {
    hits.map_values(|h: Hit| h.id@)
}

impl SearchResponse {
    /// How many matches were returned.
    pub fn len(&self) -> (r: usize)
        ensures
            r == self.hits@.len(),
    {
        self.hits.len()
    }

    /// Whether nothing matched.
    pub fn is_empty(&self) -> (r: bool)
        ensures
            r == (self.hits@.len() == 0),
    {
        self.hits.len() == 0
    }

    /// Just the ids, best first.
    pub fn ids(&self) -> (r: Vec<DocId>)
        ensures
            segment::id_models(r@) == hit_ids(self.hits@),
            r@.len() == self.hits@.len(),
            forall|i: int| 0 <= i < r@.len() ==> (#[trigger] r@[i])@ == self.hits@[i].id@,
    {
        let mut out: Vec<DocId> = Vec::new();
        let mut i: usize = 0;
        assert(segment::id_models(out@) =~= hit_ids(self.hits@).take(0));
        while i < self.hits.len()
            invariant
                i <= self.hits@.len(),
                segment::id_models(out@) == hit_ids(self.hits@).take(i as int),
            decreases self.hits.len() - i,
        {
            let ghost before = out@;
            let id: DocId = self.hits[i].id.clone();
            out.push(id);
            proof {
                let all = hit_ids(self.hits@);
                assert(all.take(i + 1) =~= all.take(i as int).push(all[i as int]));
                assert(segment::id_models(out@) =~= segment::id_models(before).push(id@));
            }
            i += 1;
        }
        assert(hit_ids(self.hits@).take(i as int) =~= hit_ids(self.hits@));
        proof {
            assert(segment::id_models(out@).len() == out@.len());
            assert forall|k: int| 0 <= k < out@.len() implies (#[trigger] out@[k])@
                == self.hits@[k].id@ by {
                assert(segment::id_models(out@)[k] == out@[k]@);
            }
        }
        out
    }
}

} // verus!
