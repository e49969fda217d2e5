//! What the hits of a search are, told by what was asked for and by what a reader sees.
use vstd::multiset::*;
use vstd::prelude::*;
use vstd::seq_lib::*;

use crate::api::collection::laws;
use crate::api::collection::reading_laws;
use crate::api::collection::search;
use crate::api::collection::search_laws;
use crate::api::collection::CollModel;
use crate::api::search::{SearchRequest, SearchResponse};
use crate::document::{IdModel, Include};
use crate::error::DbError;
use crate::filter::eval;
use crate::filter::FilterModel;
use crate::float;
use crate::float_laws;
use crate::format::catalog::Metric;
use crate::format::segment::vectors;
use crate::format::value::ValueModel;
use crate::index;
use crate::index::SourceRow;
use crate::search::topk::Candidate;
use crate::write::memtable;
use crate::write::memtable::Slot;
use crate::write::memtable_laws;
use crate::write::source::BUFFERED;

verus! {

/// The metadata that a filter is held against: what a reader sees of the document, and no fields
/// where it has none.
pub open spec fn seen_fields(c: CollModel, id: IdModel) -> Seq<(Seq<char>, ValueModel)> {
    match c.visible(id) {
        Some(v) => match v.metadata {
            Some(m) => m,
            None => Seq::empty(),
        },
        None => Seq::empty(),
    }
}

/// Where the fields of a current row can be read, they are what a reader sees of its document.
proof fn lemma_fields_are_seen(c: CollModel, x: SourceRow)
    requires
        c.wf(),
        search_laws::numbered(c),
        c.candidates(None).contains(x),
        c.fields_of(x.row) is Some,
    ensures
        c.fields_of(x.row)->0 == seen_fields(c, c.document_of(x.row)),
{
    search::lemma_candidates_are_there(c, None, x);
    let id = c.document_of(x.row);
    if search::number_of(x.row) == BUFFERED {
        let k = search::place_of(x.row);
        memtable_laws::lemma_live_rows_are_current(c.memtable, c.memtable.rows.len(), k);
        let n = choose|n: int|
            0 <= n < c.memtable.rows.len() && #[trigger] c.memtable.rows[n] == c.memtable.live()[k]
                && c.memtable.found(c.memtable.rows[n].id) == Some(Slot::Row(n as usize));
        assert(c.memtable.found(id) == Some(Slot::Row(n as usize)));
    } else {
        assert(c.is_current(x.row));
        assert(c.located(id) is Some);
    }
}

/// A row that a filtered search considers is one that a search without a filter considers.
proof fn lemma_unfiltered(c: CollModel, f: FilterModel, x: SourceRow)
    requires
        c.candidates(Some(f)).contains(x),
    ensures
        c.candidates(None).contains(x),
        c.fields_of(x.row) matches Some(m) && eval::satisfied(f, m),
{
    search_laws::lemma_filter_narrows(c, f);
    let p = |r: SourceRow| c.fields_of(r.row) matches Some(m) && eval::satisfied(f, m);
    let all = c.candidates(None);
    all.lemma_filter_contains_rev(p, x);
    all.lemma_filter_pred(p, choose|i: int| 0 <= i < all.filter(p).len() && all.filter(p)[i] == x);
}

proof fn lemma_no_failure(c: CollModel, hits: Seq<Candidate>, parts: Include)
    requires
        parts.vector || parts.metadata || parts.content ==> {
            &&& c.wf()
            &&& c.memtable.held()
            &&& forall|id: IdModel| #[trigger] laws::readable(c.segments, id)
        },
    ensures
        search::read_failure(c, hits, parts) is None,
    decreases hits.len(),
{
    if hits.len() > 0 {
        lemma_no_failure(c, hits.drop_last(), parts);
        if parts.vector || parts.metadata || parts.content {
            let id = c.document_of(hits.last().row);
            assert(laws::readable(c.segments, id));
            reading_laws::lemma_read_gives_the_parts_asked_for(c, id, parts);
        }
    }
}

/// A search that is not refused is answered: always where it asks for nothing of the documents, and
/// otherwise wherever what is stored can be read.
pub proof fn lemma_search_is_answered<
    F: Fn(Metric, &[u32], &[u8], u32) -> u32,
    D: Fn(Metric, u32) -> Option<u32>,
>(
    c: CollModel,
    request: SearchRequest<'_>,
    score: F,
    distance: D,
    offers: Seq<Candidate>,
    placed: Seq<Candidate>,
    r: Result<SearchResponse, DbError>,
)
    requires
        search::is_answer(c, request, score, distance, offers, placed, r),
        request.parts.vector || request.parts.metadata || request.parts.content ==> {
            &&& c.wf()
            &&& c.memtable.held()
            &&& forall|id: IdModel| #[trigger] laws::readable(c.segments, id)
        },
    ensures
        r is Ok,
        r->Ok_0.stats.exact,
{
    lemma_no_failure(c, placed, request.parts);
}

/// Every hit is what was asked for: a document that a reader sees, whose metadata satisfies the
/// filter, scored by the metric that was asked for (the collection's where none was) on the vector
/// that a reader sees, at or above the threshold as a number; with the distance for that score, and
/// with just those parts of the document that were asked for. There are never more hits than that.
pub proof fn lemma_hits_meet_the_request<
    F: Fn(Metric, &[u32], &[u8], u32) -> u32,
    D: Fn(Metric, u32) -> Option<u32>,
>(
    c: CollModel,
    request: SearchRequest<'_>,
    score: F,
    distance: D,
    offers: Seq<Candidate>,
    placed: Seq<Candidate>,
    r: Result<SearchResponse, DbError>,
    metric: Metric,
    i: int,
)
    requires
        c.wf(),
        search_laws::numbered(c),
        c.memtable.held(),
        search::is_answer(c, request, score, distance, offers, placed, r),
        r is Ok,
        request.metric is Some ==> metric == request.metric->0,
        request.metric is None ==> metric == c.catalog.metric,
        0 <= i < r->Ok_0.hits@.len(),
        laws::readable(c.segments, r->Ok_0.hits@[i].id@),
    ensures
        ({
            let h = r->Ok_0.hits@[i];
            &&& r->Ok_0.hits@.len() <= request.top_k
            &&& c.visible(h.id@) is Some
            &&& request.filter is Some ==> eval::satisfied(
                (*request.filter->0)@,
                seen_fields(c, h.id@),
            )
            &&& request.min_score is Some && float::finite32(request.min_score->0)
                && float::finite32(h.score) ==> float_laws::value32(h.score) >= float_laws::value32(
                request.min_score->0,
            ) && float::key32(h.score) >= float::key32(request.min_score->0)
            &&& exists|q: &[u32], b: &[u8]|
                q@ == request.vector.components() && b@ == c.visible(h.id@)->0.vector
                    && #[trigger] call_ensures(
                    score,
                    (metric, q, b, c.visible(h.id@)->0.inv_norm),
                    h.score,
                )
            &&& call_ensures(distance, (metric, h.score), h.distance)
            &&& !request.parts.vector && !request.parts.metadata && !request.parts.content
                ==> h.document is None
            &&& request.parts.vector || request.parts.metadata || request.parts.content
                ==> h.document is Some && h.document->0@.id == h.id@
                && reading_laws::holds_parts(
                h.document->0@,
                request.parts,
                vectors::components(c.visible(h.id@)->0.vector),
                c.visible(h.id@)->0.metadata,
                c.visible(h.id@)->0.content,
            )
        }),
{
    broadcast use group_multiset_axioms;
    broadcast use group_to_multiset_ensures;

    let h = r->Ok_0.hits@[i];
    let rows = c.candidates(request.asked());
    let k = search_laws::lemma_hits_were_scored(c, request, score, distance, offers, placed, r, i);
    let x = rows[k];
    assert(rows.contains(x));
    assert(search::is_hit(
        c,
        distance,
        search::metric_of(c, request),
        request.parts,
        placed[i],
        h,
    ));
    assert(placed[i].row == x.row);
    search_laws::lemma_candidates_are_visible(c, request.asked(), x);
    assert(search::metric_of(c, request) == metric);
    assert(index::score_of(score, metric, request.vector.components(), x, offers[k].score));
    let (q, b) = choose|q: &[u32], b: &[u8]|
        q@ == request.vector.components() && b@ == x.bytes && #[trigger] call_ensures(
            score,
            (metric, q, b, x.inv_norm),
            offers[k].score,
        );
    assert(call_ensures(score, (metric, q, b, c.visible(h.id@)->0.inv_norm), h.score));
    if let Some(f) = request.filter {
        lemma_unfiltered(c, f@, x);
        lemma_fields_are_seen(c, x);
    }
    if let Some(min) = request.min_score {
        float_laws::lemma_less32_is_less(h.score, min);
    }
    assert(placed.len() == placed.to_multiset().len());
    let kept = search::best(request, offers);
    assert(kept.len() == kept.to_multiset().len());
    reading_laws::lemma_read_gives_the_parts_asked_for(c, h.id@, request.parts);
}

/// Every document that a reader sees and whose metadata satisfies the filter is considered, with the
/// vector that a reader sees.
pub proof fn lemma_every_match_is_considered(
    c: CollModel,
    asked: Option<FilterModel>,
    id: IdModel,
) -> (x: SourceRow)
    requires
        c.wf(),
        search_laws::numbered(c),
        c.memtable.held(),
        laws::readable(c.segments, id),
        c.visible(id) is Some,
        asked is Some ==> eval::satisfied(asked->0, seen_fields(c, id)),
    ensures
        c.candidates(asked).contains(x),
        c.document_of(x.row) == id,
        x.bytes == c.visible(id)->0.vector,
        x.inv_norm == c.visible(id)->0.inv_norm,
{
    let x = search_laws::lemma_every_document_is_considered(c, id);
    if let Some(f) = asked {
        search::lemma_candidates_are_there(c, None, x);
        assert(c.fields_of(x.row) is Some) by {
            if search::number_of(x.row) != BUFFERED {
                assert(c.is_current(x.row));
            }
        }
        lemma_fields_are_seen(c, x);
        search_laws::lemma_filter_narrows(c, f);
        let p = |r: SourceRow| c.fields_of(r.row) matches Some(m) && eval::satisfied(f, m);
        let all = c.candidates(None);
        let k = choose|k: int| 0 <= k < all.len() && all[k] == x;
        assert(p(all[k]));
        all.lemma_filter_contains(p, k);
    }
    x
}

/// Nothing that was asked for is left out: a document that a reader sees and whose metadata
/// satisfies the filter gets a score; and where that is a number at or above the threshold, the
/// document is among the hits, or as many hits as were asked for are there and none of them scores
/// a smaller number.
pub proof fn lemma_no_match_is_left_out<
    F: Fn(Metric, &[u32], &[u8], u32) -> u32,
    D: Fn(Metric, u32) -> Option<u32>,
>(
    c: CollModel,
    request: SearchRequest<'_>,
    score: F,
    distance: D,
    offers: Seq<Candidate>,
    placed: Seq<Candidate>,
    r: Result<SearchResponse, DbError>,
    metric: Metric,
    id: IdModel,
) -> (s: u32)
    requires
        c.wf(),
        search_laws::numbered(c),
        c.memtable.held(),
        search::is_answer(c, request, score, distance, offers, placed, r),
        r is Ok,
        request.metric is Some ==> metric == request.metric->0,
        request.metric is None ==> metric == c.catalog.metric,
        laws::readable(c.segments, id),
        c.visible(id) is Some,
        request.filter is Some ==> eval::satisfied((*request.filter->0)@, seen_fields(c, id)),
    ensures
        ({
            let hits = r->Ok_0.hits@;
            &&& exists|q: &[u32], b: &[u8]|
                q@ == request.vector.components() && b@ == c.visible(id)->0.vector
                    && #[trigger] call_ensures(
                    score,
                    (metric, q, b, c.visible(id)->0.inv_norm),
                    s,
                )
            &&& float::finite32(s) && (request.min_score is None || (float::finite32(
                request.min_score->0,
            ) && float_laws::value32(s) >= float_laws::value32(request.min_score->0))) ==> {
                ||| exists|i: int|
                    0 <= i < hits.len() && (#[trigger] hits[i]).id@ == id && hits[i].score == s
                ||| hits.len() == request.top_k && forall|i: int|
                    0 <= i < hits.len() && float::finite32(hits[i].score) ==> float_laws::value32(
                        (#[trigger] hits[i]).score,
                    ) >= float_laws::value32(s)
            }
        }),
{
    let x = lemma_every_match_is_considered(c, request.asked(), id);
    let rows = c.candidates(request.asked());
    let k = choose|k: int| 0 <= k < rows.len() && rows[k] == x;
    let y = offers[k];
    let hits = r->Ok_0.hits@;
    assert(search::metric_of(c, request) == metric);
    assert(y.row == rows[k].row && index::score_of(
        score,
        metric,
        request.vector.components(),
        rows[k],
        y.score,
    ));
    let (q, b) = choose|q: &[u32], b: &[u8]|
        q@ == request.vector.components() && b@ == x.bytes && #[trigger] call_ensures(
            score,
            (metric, q, b, x.inv_norm),
            y.score,
        );
    assert(call_ensures(score, (metric, q, b, c.visible(id)->0.inv_norm), y.score));
    assert(offers.contains(y));
    if float::finite32(y.score) && (request.min_score is None || (float::finite32(
        request.min_score->0,
    ) && float_laws::value32(y.score) >= float_laws::value32(request.min_score->0))) {
        if let Some(min) = request.min_score {
            float_laws::lemma_less32_is_less(y.score, min);
        }
        search_laws::lemma_nothing_better_is_left_out(
            c,
            request,
            score,
            distance,
            offers,
            placed,
            r,
            y,
        );
        lemma_placed_hits(c, request, distance, offers, placed, r, y);
    }
    y.score
}

proof fn lemma_placed_hits<D: Fn(Metric, u32) -> Option<u32>>(
    c: CollModel,
    request: SearchRequest<'_>,
    distance: D,
    offers: Seq<Candidate>,
    placed: Seq<Candidate>,
    r: Result<SearchResponse, DbError>,
    y: Candidate,
)
    requires
        search::is_answer_from(c, request, true, distance, offers, placed, r),
        r is Ok,
        float::finite32(y.score),
        placed.contains(y) || (placed.len() == request.top_k && forall|i: int|
            0 <= i < placed.len() ==> float::rank32((#[trigger] placed[i]).score) >= float::rank32(
                y.score,
            )),
    ensures
        ({
            let hits = r->Ok_0.hits@;
            ||| exists|i: int|
                0 <= i < hits.len() && (#[trigger] hits[i]).id@ == c.document_of(y.row)
                    && hits[i].score == y.score
            ||| hits.len() == request.top_k && forall|i: int|
                0 <= i < hits.len() && float::finite32(hits[i].score) ==> float_laws::value32(
                    (#[trigger] hits[i]).score,
                ) >= float_laws::value32(y.score)
        }),
{
    let hits = r->Ok_0.hits@;
    let metric = search::metric_of(c, request);
    if placed.contains(y) {
        let i = choose|i: int| 0 <= i < placed.len() && placed[i] == y;
        assert(search::is_hit(c, distance, metric, request.parts, placed[i], hits[i]));
        assert(hits[i].id@ == c.document_of(y.row) && hits[i].score == y.score);
    } else {
        assert forall|i: int| 0 <= i < hits.len() && float::finite32(hits[i].score) implies
            float_laws::value32((#[trigger] hits[i]).score) >= float_laws::value32(y.score) by {
            assert(search::is_hit(c, distance, metric, request.parts, placed[i], hits[i]));
            assert(float::rank32(placed[i].score) >= float::rank32(y.score));
            float_laws::lemma_rank32_is_order(hits[i].score, y.score);
        }
    }
}

/// Of two hits the one that comes first scores no smaller a number, and where the scores are the
/// same it has the lesser id; no document comes twice.
pub proof fn lemma_hits_descend<
    F: Fn(Metric, &[u32], &[u8], u32) -> u32,
    D: Fn(Metric, u32) -> Option<u32>,
>(
    c: CollModel,
    request: SearchRequest<'_>,
    score: F,
    distance: D,
    offers: Seq<Candidate>,
    placed: Seq<Candidate>,
    r: Result<SearchResponse, DbError>,
    i: int,
    j: int,
)
    requires
        c.wf(),
        search_laws::numbered(c),
        search::is_answer(c, request, score, distance, offers, placed, r),
        r is Ok,
        0 <= i < j < r->Ok_0.hits@.len(),
    ensures
        ({
            let a = r->Ok_0.hits@[i];
            let b = r->Ok_0.hits@[j];
            &&& a.id@ != b.id@
            &&& float::finite32(a.score) && float::finite32(b.score) ==> float_laws::value32(
                a.score,
            ) >= float_laws::value32(b.score)
            &&& a.score == b.score ==> crate::document::id_lt(a.id@, b.id@)
        }),
{
    let a = r->Ok_0.hits@[i];
    let b = r->Ok_0.hits@[j];
    assert(search::is_hit(
        c,
        distance,
        search::metric_of(c, request),
        request.parts,
        placed[i],
        a,
    ));
    assert(search::is_hit(
        c,
        distance,
        search::metric_of(c, request),
        request.parts,
        placed[j],
        b,
    ));
    search_laws::lemma_hits_are_distinct_and_ordered(
        c,
        request,
        score,
        distance,
        offers,
        placed,
        r,
        i,
        j,
    );
    if float::finite32(a.score) && float::finite32(b.score) {
        float_laws::lemma_rank32_is_order(a.score, b.score);
    }
}

/// A search says how many documents it considered: as many as there are candidates, the rest of the
/// rows being skipped.
pub proof fn lemma_statistics_add_up<
    F: Fn(Metric, &[u32], &[u8], u32) -> u32,
    D: Fn(Metric, u32) -> Option<u32>,
>(
    c: CollModel,
    request: SearchRequest<'_>,
    score: F,
    distance: D,
    offers: Seq<Candidate>,
    placed: Seq<Candidate>,
    r: Result<SearchResponse, DbError>,
)
    requires
        search::is_answer(c, request, score, distance, offers, placed, r),
        r is Ok,
        c.every_row().len() <= u64::MAX,
    ensures
        ({
            let s = r->Ok_0.stats;
            &&& s.exact
            &&& s.considered == c.candidates(request.asked()).len()
            &&& s.scanned == c.candidates(request.asked()).len()
            &&& s.skipped + s.considered == c.every_row().len()
        }),
{
    c.every_row().lemma_filter_len(|x: SourceRow| c.qualifies(request.asked(), x.row));
}

} // verus!
