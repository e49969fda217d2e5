//! What holds of every search.
use vstd::multiset::*;
use vstd::prelude::*;
use vstd::seq_lib::*;

use crate::api::collection;
use crate::api::collection::laws;
use crate::api::collection::search;
use crate::api::collection::CollModel;
use crate::api::search::{SearchRequest, SearchResponse};
use crate::document;
use crate::document::RowId;
use crate::error::DbError;
use crate::filter::eval;
use crate::filter::laws as filter_laws;
use crate::filter::FilterModel;
use crate::float;
use crate::format::catalog::Metric;
use crate::index::SourceRow;
use crate::persistence::source;
use crate::search::topk;
use crate::search::topk::Candidate;
use crate::write::memtable;
use crate::write::memtable::Slot;
use crate::write::memtable_laws;
use crate::write::source as buffered;
use crate::write::source::BUFFERED;

verus! {

/// Whether row numbers have room for everything that a collection holds.
pub open spec fn numbered(c: CollModel) -> bool {
    &&& c.segments.len() < u32::MAX
    &&& c.memtable.rows.len() <= u32::MAX
    &&& c.memtable.live().len() <= u32::MAX
}

/// The rows of an older segment are among those of all segments.
proof fn lemma_row_is_below(c: CollModel, s: int, i: int, n: nat)
    requires
        0 <= s < n <= c.segments.len(),
        0 <= i < search::segment_rows(c, s).len(),
    ensures
        search::rows_below(c, n).contains(search::segment_rows(c, s)[i]),
    decreases n,
{
    let front = search::rows_below(c, (n - 1) as nat);
    let here = search::segment_rows(c, n - 1);
    let all = search::rows_below(c, n);
    assert(all == front + here);
    if s == n - 1 {
        assert(all[front.len() + i] == here[i]);
    } else {
        lemma_row_is_below(c, s, i, (n - 1) as nat);
        let k = choose|k: int| 0 <= k < front.len() && front[k] == search::segment_rows(c, s)[i];
        assert(all[k] == front[k]);
    }
}

/// Every document that can be read is considered by a search, with the vector that a reader sees,
/// whether it is buffered or in a segment.
pub proof fn lemma_every_document_is_considered(c: CollModel, id: document::IdModel) -> (x:
    SourceRow)
    requires
        c.wf(),
        numbered(c),
        c.memtable.held(),
        laws::readable(c.segments, id),
        c.visible(id) is Some,
    ensures
        c.candidates(None).contains(x),
        c.document_of(x.row) == id,
        x.bytes == c.visible(id)->0.vector,
        x.inv_norm == c.visible(id)->0.inv_norm,
{
    let p = |r: SourceRow| c.qualifies(None, r.row);
    let all = c.every_row();
    let below = search::rows_below(c, c.segments.len());
    let tail = buffered::buffered_rows(c.memtable);
    memtable::lemma_slot_of(c.memtable, id);
    collection::lemma_newest(c.segments, id);
    let x = match c.memtable.found(id) {
        Some(Slot::Row(i)) => {
            memtable_laws::lemma_present_documents_are_live(c.memtable, id, i);
            let live = c.memtable.live();
            let k = choose|k: int| 0 <= k < live.len() && live[k] == c.memtable.rows[i as int];
            let x = tail[k];
            assert(x.row == source::row_id(BUFFERED, k));
            assert(search::number_of(x.row) == BUFFERED && search::place_of(x.row) == k);
            assert(c.memtable.vector(c.memtable.rows[i as int]) is Some);
            assert(all[below.len() + k] == x);
            assert(p(all[below.len() + k]));
            all.lemma_filter_contains(p, below.len() + k);
            x
        },
        _ => {
            let (s, row) = collection::newest(c.segments, id)->0;
            let here = search::segment_rows(c, s as int);
            let x = here[row as int];
            assert(c.segments[s as int].wf());
            assert(x.row == source::row_id(s as u32, row as int));
            assert(search::number_of(x.row) == s && search::place_of(x.row) == row);
            lemma_row_is_below(c, s as int, row as int, c.segments.len());
            let k = choose|k: int| 0 <= k < below.len() && below[k] == x;
            assert(all[k] == x);
            assert(p(all[k]));
            all.lemma_filter_contains(p, k);
            x
        },
    };
    x
}

/// What a search considers of a document is the version that a reader sees.
pub proof fn lemma_candidates_are_visible(c: CollModel, asked: Option<FilterModel>, x: SourceRow)
    requires
        c.wf(),
        numbered(c),
        c.memtable.held(),
        c.candidates(asked).contains(x),
    ensures
        c.visible(c.document_of(x.row)) matches Some(v) && v.vector == x.bytes && v.inv_norm
            == x.inv_norm,
{
    search::lemma_candidates_are_there(c, asked, x);
    let all = c.every_row();
    let below = search::rows_below(c, c.segments.len());
    let tail = buffered::buffered_rows(c.memtable);
    let i = choose|i: int| 0 <= i < all.len() && all[i] == x;
    if i < below.len() {
        assert(below[i] == x);
        assert(below.contains(x));
        let (s, k) = lemma_row_is_somewhere(c, x, c.segments.len());
        assert(c.segments[s].wf());
        assert(x.row == source::row_id(s as u32, k));
        assert(search::number_of(x.row) == s && search::place_of(x.row) == k);
    } else {
        let k = i - below.len();
        assert(tail[k] == x);
        assert(x.row == source::row_id(BUFFERED, k));
        assert(search::number_of(x.row) == BUFFERED && search::place_of(x.row) == k);
        memtable_laws::lemma_live_rows_are_current(c.memtable, c.memtable.rows.len(), k);
        let n = choose|n: int|
            0 <= n < c.memtable.rows.len() && #[trigger] c.memtable.rows[n] == c.memtable.live()[k]
                && c.memtable.found(c.memtable.rows[n].id) == Some(Slot::Row(n as usize));
        assert(c.memtable.vector(c.memtable.rows[n]) is Some);
    }
}

/// A row of the segments is a row of one of them.
proof fn lemma_row_is_somewhere(c: CollModel, x: SourceRow, n: nat) -> (r: (int, int))
    requires
        n <= c.segments.len(),
        search::rows_below(c, n).contains(x),
    ensures
        0 <= r.0 < n,
        0 <= r.1 < search::segment_rows(c, r.0).len(),
        search::segment_rows(c, r.0)[r.1] == x,
    decreases n,
{
    let all = search::rows_below(c, n);
    let i = choose|i: int| 0 <= i < all.len() && all[i] == x;
    assert(n > 0);
    let front = search::rows_below(c, (n - 1) as nat);
    let here = search::segment_rows(c, n - 1);
    assert(all == front + here);
    if i < front.len() {
        assert(front[i] == x);
        assert(front.contains(x));
        lemma_row_is_somewhere(c, x, (n - 1) as nat)
    } else {
        assert(here[i - front.len()] == x);
        (n - 1, i - front.len())
    }
}

/// Two current rows of one document are the same row.
pub proof fn lemma_one_row_per_document(c: CollModel, a: RowId, b: RowId)
    requires
        c.wf(),
        numbered(c),
        c.has_row(a),
        c.has_row(b),
        c.is_current(a),
        c.is_current(b),
        c.document_of(a) == c.document_of(b),
    ensures
        a == b,
{
    let na = search::number_of(a);
    let nb = search::number_of(b);
    let pa = search::place_of(a);
    let pb = search::place_of(b);
    let live = c.memtable.live();
    if na == BUFFERED {
        memtable_laws::lemma_live_rows_are_current(c.memtable, c.memtable.rows.len(), pa);
    }
    if nb == BUFFERED {
        memtable_laws::lemma_live_rows_are_current(c.memtable, c.memtable.rows.len(), pb);
    }
    if na == BUFFERED && nb == BUFFERED {
        if pa < pb {
            memtable_laws::lemma_live_rows_are_distinct(c.memtable, pa, pb);
        }
        if pb < pa {
            memtable_laws::lemma_live_rows_are_distinct(c.memtable, pb, pa);
        }
    }
    assert(na == nb && pa == pb);
    assert(a.0 == na * 0x1_0000_0000 + pa);
    assert(b.0 == nb * 0x1_0000_0000 + pb);
}

/// Whether no two rows of a list have the same id.
pub open spec fn rows_differ(s: Seq<SourceRow>) -> bool {
    forall|i: int, j: int| 0 <= i < j < s.len() ==> (#[trigger] s[i]).row != (#[trigger] s[j]).row
}

proof fn lemma_rows_below_differ(c: CollModel, n: nat)
    requires
        c.wf(),
        numbered(c),
        n <= c.segments.len(),
    ensures
        rows_differ(search::rows_below(c, n)),
        forall|i: int|
            0 <= i < search::rows_below(c, n).len() ==> search::number_of(
                (#[trigger] search::rows_below(c, n)[i]).row,
            ) < n,
    decreases n,
{
    if n > 0 {
        lemma_rows_below_differ(c, (n - 1) as nat);
        let front = search::rows_below(c, (n - 1) as nat);
        let here = search::segment_rows(c, n - 1);
        let all = search::rows_below(c, n);
        assert(all == front + here);
        assert(c.segments[n - 1].wf());
        assert forall|k: int| 0 <= k < here.len() implies search::number_of(
            (#[trigger] here[k]).row,
        ) == n - 1 && search::place_of(here[k].row) == k by {
            assert(here[k].row == source::row_id((n - 1) as u32, k));
        }
        assert forall|i: int| 0 <= i < all.len() implies search::number_of((#[trigger] all[i]).row)
            < n by {
            if i < front.len() {
                assert(all[i] == front[i]);
            } else {
                assert(all[i] == here[i - front.len()]);
            }
        }
        assert forall|i: int, j: int| 0 <= i < j < all.len() implies (#[trigger] all[i]).row != (
        #[trigger] all[j]).row by {
            if j < front.len() {
                assert(all[i] == front[i] && all[j] == front[j]);
            } else if i < front.len() {
                assert(all[i] == front[i] && all[j] == here[j - front.len()]);
            } else {
                assert(all[i] == here[i - front.len()] && all[j] == here[j - front.len()]);
            }
        }
    }
}

proof fn lemma_every_row_differs(c: CollModel)
    requires
        c.wf(),
        numbered(c),
    ensures
        rows_differ(c.every_row()),
{
    lemma_rows_below_differ(c, c.segments.len());
    let front = search::rows_below(c, c.segments.len());
    let here = buffered::buffered_rows(c.memtable);
    let all = c.every_row();
    assert forall|k: int| 0 <= k < here.len() implies search::number_of((#[trigger] here[k]).row)
        == BUFFERED && search::place_of(here[k].row) == k by {
        assert(here[k].row == source::row_id(BUFFERED, k));
    }
    assert forall|i: int, j: int| 0 <= i < j < all.len() implies (#[trigger] all[i]).row != (
    #[trigger] all[j]).row by {
        if j < front.len() {
            assert(all[i] == front[i] && all[j] == front[j]);
        } else if i < front.len() {
            assert(all[i] == front[i] && all[j] == here[j - front.len()]);
        } else {
            assert(all[i] == here[i - front.len()] && all[j] == here[j - front.len()]);
        }
    }
}

proof fn lemma_filtered_rows_differ(s: Seq<SourceRow>, p: spec_fn(SourceRow) -> bool)
    requires
        rows_differ(s),
    ensures
        rows_differ(s.filter(p)),
    decreases s.len(),
{
    reveal(Seq::filter);
    if s.len() > 0 {
        let front = s.drop_last();
        assert forall|i: int, j: int| 0 <= i < j < front.len() implies (#[trigger] front[i]).row
            != (#[trigger] front[j]).row by {
            assert(front[i] == s[i] && front[j] == s[j]);
        }
        lemma_filtered_rows_differ(front, p);
        if p(s.last()) {
            let all = s.filter(p);
            assert forall|i: int, j: int| 0 <= i < j < all.len() implies (#[trigger] all[i]).row
                != (#[trigger] all[j]).row by {
                let kept = front.filter(p);
                assert(all[i] == kept[i]);
                if j < kept.len() {
                    assert(all[j] == kept[j]);
                } else {
                    assert(kept.contains(kept[i]));
                    front.lemma_filter_contains_rev(p, kept[i]);
                    let k = choose|k: int| 0 <= k < front.len() && front[k] == kept[i];
                    assert(s[k] == kept[i]);
                    assert(s[s.len() - 1] == all[j]);
                }
            }
        }
    }
}

/// A search considers no row twice.
pub proof fn lemma_no_row_is_considered_twice(c: CollModel, asked: Option<FilterModel>)
    requires
        c.wf(),
        numbered(c),
    ensures
        rows_differ(c.candidates(asked)),
{
    lemma_every_row_differs(c);
    lemma_filtered_rows_differ(c.every_row(), |r: SourceRow| c.qualifies(asked, r.row));
}

/// Each hit is a candidate that was scored.
pub proof fn lemma_hits_were_scored<
    F: Fn(Metric, &[u32], &[u8], u32) -> u32,
    D: Fn(Metric, u32) -> Option<u32>,
>(
    c: CollModel,
    request: SearchRequest<'_>,
    score: F,
    distance: D,
    offers: Seq<Candidate>,
    placed: Seq<Candidate>,
    r: Result<SearchResponse, DbError>,
    i: int,
) -> (k: int)
    requires
        search::is_answer(c, request, score, distance, offers, placed, r),
        0 <= i < placed.len(),
    ensures
        0 <= k < offers.len(),
        offers[k] == placed[i],
        offers[k].row == c.candidates(request.asked())[k].row,
        topk::reaches(placed[i].score, request.min_score),
{
    broadcast use group_multiset_axioms;
    broadcast use group_to_multiset_ensures;

    let x = placed[i];
    assert(placed.contains(x));
    assert(placed.to_multiset().count(x) > 0);
    let kept = search::best(request, offers);
    assert(kept.contains(x));
    let all = topk::ranking(offers, request.min_score);
    topk::lemma_ranking(offers, request.min_score);
    let j = choose|j: int| 0 <= j < kept.len() && kept[j] == x;
    assert(all[j] == x);
    assert(all.contains(x));
    assert(all.to_multiset().count(x) > 0);
    assert(offers.to_multiset().count(x) > 0);
    assert(offers.contains(x));
    choose|k: int| 0 <= k < offers.len() && offers[k] == x
}

proof fn lemma_offers_differ(rows: Seq<SourceRow>, offers: Seq<Candidate>)
    requires
        rows_differ(rows),
        offers.len() == rows.len(),
        forall|i: int| 0 <= i < rows.len() ==> (#[trigger] offers[i]).row == rows[i].row,
    ensures
        offers.no_duplicates(),
        forall|i: int, j: int|
            0 <= i < j < offers.len() ==> (#[trigger] offers[i]).row != (#[trigger] offers[j]).row,
{
    assert forall|i: int, j: int| 0 <= i < j < offers.len() implies (#[trigger] offers[i]).row != (
    #[trigger] offers[j]).row by {
        assert(rows[i].row != rows[j].row);
    }
}

/// No row comes back twice.
proof fn lemma_placed_differ(
    request: SearchRequest<'_>,
    offers: Seq<Candidate>,
    placed: Seq<Candidate>,
)
    requires
        offers.no_duplicates(),
        placed.to_multiset() == search::best(request, offers).to_multiset(),
    ensures
        placed.no_duplicates(),
{
    broadcast use group_multiset_axioms;
    broadcast use group_to_multiset_ensures;

    let all = topk::ranking(offers, request.min_score);
    let kept = search::best(request, offers);
    topk::lemma_ranking(offers, request.min_score);
    offers.lemma_multiset_has_no_duplicates();
    assert forall|x: Candidate| all.to_multiset().contains(x) implies all.to_multiset().count(x)
        == 1 by {
        assert(offers.to_multiset().contains(x));
    }
    all.lemma_multiset_has_no_duplicates_conv();
    assert(kept.no_duplicates()) by {
        assert forall|i: int, j: int| 0 <= i < kept.len() && 0 <= j < kept.len() && i
            != j implies kept[i] != kept[j] by {
            assert(kept[i] == all[i] && kept[j] == all[j]);
        }
    }
    kept.lemma_multiset_has_no_duplicates();
    placed.lemma_multiset_has_no_duplicates_conv();
}

/// A document comes back at most once, and of two hits the one that comes first scores higher or,
/// where their scores are the same, has the lesser id.
pub proof fn lemma_hits_are_distinct_and_ordered<
    F: Fn(Metric, &[u32], &[u8], u32) -> u32,
    D: Fn(Metric, u32) -> Option<u32>,
>(
    c: CollModel,
    request: SearchRequest<'_>,
    score: F,
    distance: D,
    offers: Seq<Candidate>,
    placed: Seq<Candidate>,
    r: Result<SearchResponse, DbError>,
    i: int,
    j: int,
)
    requires
        c.wf(),
        numbered(c),
        search::is_answer(c, request, score, distance, offers, placed, r),
        0 <= i < j < placed.len(),
    ensures
        c.document_of(placed[i].row) != c.document_of(placed[j].row),
        search::hit_before(c, placed[i], placed[j]),
{
    let rows = c.candidates(request.asked());
    lemma_no_row_is_considered_twice(c, request.asked());
    lemma_offers_differ(rows, offers);
    lemma_placed_differ(request, offers, placed);
    let a = lemma_hits_were_scored(c, request, score, distance, offers, placed, r, i);
    let b = lemma_hits_were_scored(c, request, score, distance, offers, placed, r, j);
    assert(a != b);
    assert(rows.contains(rows[a]) && rows.contains(rows[b]));
    search::lemma_candidates_are_there(c, request.asked(), rows[a]);
    search::lemma_candidates_are_there(c, request.asked(), rows[b]);
    if c.document_of(placed[i].row) == c.document_of(placed[j].row) {
        lemma_one_row_per_document(c, placed[i].row, placed[j].row);
        assert(offers[a].row == offers[b].row);
        if a < b {
            assert(offers[a].row != offers[b].row);
        } else {
            assert(offers[b].row != offers[a].row);
        }
    }
    assert(!search::hit_before(c, placed[j], placed[i]));
    float::lemma_rank32_injective(placed[i].score, placed[j].score);
    document::lemma_ids_are_ordered(
        c.document_of(placed[i].row),
        c.document_of(placed[j].row),
        c.document_of(placed[i].row),
    );
}

/// Nothing better is left out: a candidate that reaches the threshold comes back, or as many hits
/// as were asked for do and none of them scores lower.
pub proof fn lemma_nothing_better_is_left_out<
    F: Fn(Metric, &[u32], &[u8], u32) -> u32,
    D: Fn(Metric, u32) -> Option<u32>,
>(
    c: CollModel,
    request: SearchRequest<'_>,
    score: F,
    distance: D,
    offers: Seq<Candidate>,
    placed: Seq<Candidate>,
    r: Result<SearchResponse, DbError>,
    x: Candidate,
)
    requires
        search::is_answer(c, request, score, distance, offers, placed, r),
        offers.contains(x),
        topk::reaches(x.score, request.min_score),
    ensures
        placed.contains(x) || (placed.len() == request.top_k && forall|i: int|
            0 <= i < placed.len() ==> float::rank32((#[trigger] placed[i]).score) >= float::rank32(
                x.score,
            )),
{
    broadcast use group_multiset_axioms;
    broadcast use group_to_multiset_ensures;

    let t = topk::TopKModel {
        k: request.top_k,
        min_score: request.min_score,
        kept: Seq::empty(),
        considered: 0,
    };
    topk::lemma_nothing_better_is_dropped(t, offers, x);
    topk::lemma_collects_the_best(t, offers);
    let kept = search::best(request, offers);
    assert(kept == topk::after(t, offers).kept);
    if kept.contains(x) {
        assert(kept.to_multiset().count(x) > 0);
        assert(placed.to_multiset().count(x) > 0);
    } else {
        assert(placed.len() == placed.to_multiset().len());
        assert(kept.len() == kept.to_multiset().len());
        assert forall|i: int| 0 <= i < placed.len() implies float::rank32(
            (#[trigger] placed[i]).score,
        ) >= float::rank32(x.score) by {
            assert(placed.contains(placed[i]));
            assert(placed.to_multiset().count(placed[i]) > 0);
            assert(kept.contains(placed[i]));
            let k = choose|k: int| 0 <= k < kept.len() && kept[k] == placed[i];
            assert(topk::not_worse(kept[k], x));
        }
    }
}

/// A filter narrows what a search considers without reordering it.
pub proof fn lemma_filter_narrows(c: CollModel, f: FilterModel)
    ensures
        c.candidates(Some(f)) == c.candidates(None).filter(
            |r: SourceRow| c.fields_of(r.row) matches Some(m) && eval::satisfied(f, m),
        ),
{
    lemma_filtered_twice(
        c.every_row(),
        |r: SourceRow| c.qualifies(None, r.row),
        |r: SourceRow| c.fields_of(r.row) matches Some(m) && eval::satisfied(f, m),
        |r: SourceRow| c.qualifies(Some(f), r.row),
    );
}

proof fn lemma_filtered_twice(
    s: Seq<SourceRow>,
    p: spec_fn(SourceRow) -> bool,
    q: spec_fn(SourceRow) -> bool,
    both: spec_fn(SourceRow) -> bool,
)
    requires
        forall|x: SourceRow| #[trigger] both(x) == (p(x) && q(x)),
    ensures
        s.filter(both) == s.filter(p).filter(q),
    decreases s.len(),
{
    reveal(Seq::filter);
    if s.len() > 0 {
        lemma_filtered_twice(s.drop_last(), p, q, both);
        let x = s.last();
        assert(both(x) == (p(x) && q(x)));
        if p(x) {
            assert(s.drop_last().filter(p).push(x).drop_last() =~= s.drop_last().filter(p));
        }
    }
}

/// A filter that matches everything changes nothing, where the metadata of every row can be read.
pub proof fn lemma_empty_conjunction_changes_nothing(c: CollModel)
    requires
        forall|r: SourceRow| #[trigger] c.every_row().contains(r) ==> c.fields_of(r.row) is Some,
    ensures
        c.candidates(Some(FilterModel::And(Seq::empty()))) == c.candidates(None),
{
    let f = FilterModel::And(Seq::empty());
    let p = |r: SourceRow| c.qualifies(None, r.row);
    let q = |r: SourceRow| c.qualifies(Some(f), r.row);
    assert forall|i: int| 0 <= i < c.every_row().len() implies p(#[trigger] c.every_row()[i]) == q(
        c.every_row()[i],
    ) by {
        let r = c.every_row()[i];
        assert(c.every_row().contains(r));
        filter_laws::lemma_empty_combinators(Seq::empty(), c.fields_of(r.row)->0);
    }
    lemma_same_test(c.every_row(), p, q);
}

proof fn lemma_same_test(
    s: Seq<SourceRow>,
    p: spec_fn(SourceRow) -> bool,
    q: spec_fn(SourceRow) -> bool,
)
    requires
        forall|i: int| 0 <= i < s.len() ==> p(#[trigger] s[i]) == q(s[i]),
    ensures
        s.filter(p) == s.filter(q),
    decreases s.len(),
{
    reveal(Seq::filter);
    if s.len() > 0 {
        let front = s.drop_last();
        assert forall|i: int| 0 <= i < front.len() implies p(#[trigger] front[i]) == q(front[i]) by {
            assert(front[i] == s[i]);
        }
        lemma_same_test(front, p, q);
        assert(p(s[s.len() - 1]) == q(s[s.len() - 1]));
    }
}

} // verus!
