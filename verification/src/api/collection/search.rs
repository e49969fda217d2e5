//! Searching a collection.
//!
//! Every row that is the current version of its document is scored, wherever it is: a document
//! written a moment ago is as searchable as one that was folded into a segment. Rows are ranked
//! by score; hits with the same score come back by ascending id.
use vstd::multiset::*;
use vstd::prelude::*;
use vstd::seq_lib::*;

use crate::api::access;
use crate::api::access::Access;
use crate::api::collection;
use crate::api::collection::{CollModel, Collection, Located};
use crate::api::search::{Hit, SearchRequest, SearchResponse, SearchStats};
use crate::document;
use crate::document::{DocId, Document, DocumentModel, IdModel, Include, RowId};
use crate::error;
use crate::error::convert;
use crate::error::{DbError, ErrorModel, ValidationModel};
use crate::filter;
use crate::filter::eval;
use crate::filter::FilterModel;
use crate::float;
use crate::format::catalog::Metric;
use crate::format::segment::vectors;
use crate::format::value::ValueModel;
use crate::index;
use crate::index::{
    AllLive, Budget, ExactScan, IndexKind, LiveSet, RowPredicate, SearchCtx, SourceRow, VectorIndex,
    VectorSource,
};
use crate::path;
use crate::persistence::flush;
use crate::persistence::segment;
use crate::persistence::source;
use crate::persistence::source::{SegmentFilter, SegmentSource};
use crate::search::topk;
use crate::search::topk::{Candidate, TopK, TopKModel};
use crate::validation::{check_top_k, MAX_TOP_K};
use crate::write::source as buffered;
use crate::write::source::{BufferedFilter, BufferedSource, BUFFERED};

verus! {

/// The rows of the segment at index `s`.
pub open spec fn segment_rows(c: CollModel, s: int) -> Seq<SourceRow> {
    match vectors::vector_data(c.segments[s].vec_bytes, c.segments[s].stride() as int) {
        Ok(d) => source::segment_rows(c.segments[s], s as u32, d),
        Err(_) => Seq::empty(),
    }
}

/// The rows of the first `n` segments, oldest first.
pub open spec fn rows_below(c: CollModel, n: nat) -> Seq<SourceRow>
    decreases n,
{
    if n == 0 {
        Seq::empty()
    } else {
        rows_below(c, (n - 1) as nat) + segment_rows(c, n - 1)
    }
}

/// The number of the segment that a row is in.
pub open spec fn number_of(row: RowId) -> int {
    row.0 as int / 0x1_0000_0000
}

/// The place of a row in its segment.
pub open spec fn place_of(row: RowId) -> int {
    row.0 as int % 0x1_0000_0000
}

impl CollModel {
    /// Every row there is to scan: those of the segments, oldest first, then the buffered ones.
    pub open spec fn every_row(self) -> Seq<SourceRow> {
        rows_below(self, self.segments.len()) + buffered::buffered_rows(self.memtable)
    }

    /// Whether there is a row with this id.
    pub open spec fn has_row(self, row: RowId) -> bool {
        if number_of(row) == BUFFERED {
            place_of(row) < self.memtable.live().len()
        } else {
            &&& number_of(row) < self.segments.len()
            &&& place_of(row) < self.segments[number_of(row)].ids.len()
        }
    }

    /// The document that a row is a version of.
    pub open spec fn document_of(self, row: RowId) -> IdModel {
        if number_of(row) == BUFFERED {
            self.memtable.live()[place_of(row)].id
        } else {
            self.segments[number_of(row)].ids[place_of(row)]
        }
    }

    /// The metadata stored with a row, where it can be read.
    pub open spec fn fields_of(self, row: RowId) -> Option<Seq<(Seq<char>, ValueModel)>> {
        if number_of(row) == BUFFERED {
            Some(buffered::buffered_fields(self.memtable.live()[place_of(row)]))
        } else {
            match self.segments[number_of(row)].record(place_of(row) as u32) {
                Ok(r) => Some(segment::record_fields(r)),
                Err(_) => None,
            }
        }
    }

    /// Whether a row is the current version of its document.
    pub open spec fn is_current(self, row: RowId) -> bool {
        number_of(row) == BUFFERED || self.located(self.document_of(row)) == Some(
            Located::Segment(number_of(row) as usize, place_of(row) as u32),
        )
    }

    /// Whether a search considers a row: it is current, and its metadata satisfies the filter.
    pub open spec fn qualifies(self, filter: Option<FilterModel>, row: RowId) -> bool {
        self.is_current(row) && match filter {
            Some(f) => self.fields_of(row) matches Some(m) && eval::satisfied(f, m),
            None => true,
        }
    }

    /// The rows that a search considers.
    pub open spec fn candidates(self, filter: Option<FilterModel>) -> Seq<SourceRow> {
        self.every_row().filter(|r: SourceRow| self.qualifies(filter, r.row))
    }
}

/// The current rows of one segment.
pub struct Current<'a> {
    collection: &'a Collection,
    number: usize,
}

impl<'a> Current<'a> {
    /// The collection.
    pub closed spec fn spec_collection(self) -> CollModel {
        self.collection@
    }

    /// The segment's index.
    pub closed spec fn spec_number(self) -> usize {
        self.number
    }

    /// The current rows of the segment at index `number`.
    pub fn new(collection: &'a Collection, number: usize) -> (r: Self)
        ensures
            r.spec_collection() == collection@,
            r.spec_number() == number,
    {
        Current { collection, number }
    }
}

impl<'a> LiveSet for Current<'a> {
    open spec fn live(&self, row: RowId) -> bool {
        &&& number_of(row) == self.spec_number()
        &&& number_of(row) != BUFFERED
        &&& self.spec_collection().has_row(row)
        &&& self.spec_collection().is_current(row)
    }

    fn is_live(&self, row: RowId) -> (r: bool) {
        if row.segment() as usize != self.number || row.segment() == BUFFERED || self.number
            >= self.collection.segments.len() {
            return false;
        }
        assert(self.collection@.segments[self.number as int]
            == self.collection.segments@[self.number as int]@);
        match self.collection.segments[self.number].id_at(row.row()) {
            None => false,
            Some(id) => match self.collection.locate(id) {
                Some(Located::Segment(index, at)) => index == self.number && at == row.row(),
                _ => false,
            },
        }
    }
}

/// The rows that an index admits are those that a test selects, where the two agree on each row.
proof fn lemma_admitted_is_filtered<L: LiveSet, P: RowPredicate>(
    ctx: SearchCtx<'_, L, P>,
    rows: Seq<SourceRow>,
    p: spec_fn(SourceRow) -> bool,
)
    requires
        forall|i: int| 0 <= i < rows.len() ==> ctx.admitted((#[trigger] rows[i]).row) == p(rows[i]),
    ensures
        index::admitted_rows(ctx, rows) == rows.filter(p),
    decreases rows.len(),
{
    reveal(Seq::filter);
    if rows.len() > 0 {
        let front = rows.drop_last();
        assert forall|i: int| 0 <= i < front.len() implies ctx.admitted((#[trigger] front[i]).row)
            == p(front[i]) by {
            assert(front[i] == rows[i]);
        }
        lemma_admitted_is_filtered(ctx, front, p);
        assert(ctx.admitted(rows[rows.len() - 1].row) == p(rows[rows.len() - 1]));
    }
}

/// What a scan of one segment admits is what a search considers of it.
proof fn lemma_segment_admits(
    ctx: SearchCtx<'_, Current<'_>, SegmentFilter<'_>>,
    c: CollModel,
    s: int,
    asked: Option<FilterModel>,
)
    requires
        c.wf(),
        0 <= s < c.segments.len() < u32::MAX,
        ctx.live.spec_collection() == c,
        ctx.live.spec_number() == s,
        match asked {
            Some(f) => {
                &&& ctx.filter matches Some(t)
                &&& t.spec_segment() == c.segments[s]
                &&& t.spec_number() == s
                &&& t.spec_filter() == f
            },
            None => ctx.filter is None,
        },
    ensures
        index::admitted_rows(ctx, segment_rows(c, s)) == segment_rows(c, s).filter(
            |x: SourceRow| c.qualifies(asked, x.row),
        ),
{
    let all = segment_rows(c, s);
    let p = |x: SourceRow| c.qualifies(asked, x.row);
    assert(c.segments[s].wf());
    assert forall|i: int| 0 <= i < all.len() implies ctx.admitted((#[trigger] all[i]).row) == p(
        all[i],
    ) by {
        lemma_segment_admits_row(ctx, c, s, asked, i);
    }
    lemma_admitted_is_filtered(ctx, all, p);
}

proof fn lemma_segment_admits_row(
    ctx: SearchCtx<'_, Current<'_>, SegmentFilter<'_>>,
    c: CollModel,
    s: int,
    asked: Option<FilterModel>,
    i: int,
)
    requires
        c.wf(),
        0 <= s < c.segments.len() < u32::MAX,
        0 <= i < segment_rows(c, s).len(),
        ctx.live.spec_collection() == c,
        ctx.live.spec_number() == s,
        match asked {
            Some(f) => {
                &&& ctx.filter matches Some(t)
                &&& t.spec_segment() == c.segments[s]
                &&& t.spec_number() == s
                &&& t.spec_filter() == f
            },
            None => ctx.filter is None,
        },
    ensures
        ctx.admitted(segment_rows(c, s)[i].row) == c.qualifies(asked, segment_rows(c, s)[i].row),
{
    let row = segment_rows(c, s)[i].row;
    assert(c.segments[s].wf());
    assert(row == source::row_id(s as u32, i));
    assert(i < c.segments[s].ids.len());
    assert(number_of(row) == s);
    assert(place_of(row) == i);
    assert(ctx.live.live(row) == c.is_current(row));
    if let Some(t) = ctx.filter {
        assert(t.selects(row) == (c.fields_of(row) matches Some(m) && eval::satisfied(asked->0, m)));
    }
}

/// The rows of the first `n` sources: the segments, oldest first, and then what is buffered.
pub open spec fn rows_upto(c: CollModel, n: nat) -> Seq<SourceRow> {
    if n <= c.segments.len() {
        rows_below(c, n)
    } else {
        c.every_row()
    }
}

/// How many rows of the first `n` sources a search considers.
pub open spec fn considered_upto(c: CollModel, asked: Option<FilterModel>, n: nat) -> nat {
    rows_upto(c, n).filter(|x: SourceRow| c.qualifies(asked, x.row)).len()
}

/// How many candidates an exact search of the first `n` sources charges to a budget.
///
/// The sources are scanned one after the other, each up to the first check that the budget
/// refuses, and none behind that check.
pub open spec fn charged_upto(c: CollModel, asked: Option<FilterModel>, b: Budget, n: nat) -> nat
    decreases n,
{
    if n == 0 {
        0
    } else {
        let before = considered_upto(c, asked, (n - 1) as nat);
        if n > 1 && b.refuses(before) {
            charged_upto(c, asked, b, (n - 1) as nat)
        } else {
            before + index::examined_rows(
                b.spent(before),
                (considered_upto(c, asked, n) - before) as nat,
            )
        }
    }
}

/// How many candidates an exact search charges to a budget.
pub open spec fn charged(c: CollModel, asked: Option<FilterModel>, b: Budget) -> nat {
    charged_upto(c, asked, b, c.segments.len() + 1)
}

/// Whether a search was cancelled where it may be: with as much charged as the budget allows, or
/// with no more than that where it was told to stop.
pub open spec fn cancelled<C: Fn() -> bool>(
    c: CollModel,
    asked: Option<FilterModel>,
    stop: C,
    b0: Budget,
    b1: Budget,
) -> bool {
    exists|k: nat|
        {
            &&& b1 == #[trigger] b0.spent(k)
            &&& k <= charged(c, asked, b0)
            &&& index::may_stop(stop) || (b0.refuses(c.candidates(asked).len()) && k == charged(
                c,
                asked,
                b0,
            ))
        }
}

/// Whether some rows of a list were offered.
pub open spec fn picked(rows: Seq<SourceRow>, t0: TopKModel, t1: TopKModel) -> bool {
    exists|offers: Seq<Candidate>| #[trigger]
        index::among(rows, offers) && t1 == topk::after(t0, offers)
}

/// More sources are considered, and charged, as far as the budget goes.
proof fn lemma_charged(c: CollModel, asked: Option<FilterModel>, b: Budget, m: nat, n: nat)
    requires
        m <= n <= c.segments.len() + 1,
    ensures
        considered_upto(c, asked, m) <= considered_upto(c, asked, n),
        charged_upto(c, asked, b, n) <= considered_upto(c, asked, n),
        charged_upto(c, asked, b, m) <= charged_upto(c, asked, b, n),
        m > 0 && b.refuses(considered_upto(c, asked, m)) ==> charged_upto(c, asked, b, n)
            == charged_upto(c, asked, b, m),
    decreases n,
{
    let p = |x: SourceRow| c.qualifies(asked, x.row);
    if n > 0 {
        let before = considered_upto(c, asked, (n - 1) as nat);
        if n <= c.segments.len() {
            lemma_below_grows(c, p, (n - 1) as nat, n);
        } else {
            Seq::filter_distributes_over_add(
                rows_below(c, c.segments.len()),
                buffered::buffered_rows(c.memtable),
                p,
            );
        }
        lemma_charged(
            c,
            asked,
            b,
            if m < n {
                m
            } else {
                (n - 1) as nat
            },
            (n - 1) as nat,
        );
        index::lemma_examined(b.spent(before), (considered_upto(c, asked, n) - before) as nat);
        if m < n && m > 0 && b.refuses(considered_upto(c, asked, m)) {
            index::lemma_refuses_more(b, considered_upto(c, asked, m), before);
        }
    }
}

/// A search is cancelled only where it is told to stop, or where the rows that qualify are more than
/// its budget has left. It is charged for no more rows than qualify, and its limits stay as they are.
pub proof fn lemma_cancelled_for_a_reason<C: Fn() -> bool>(
    c: CollModel,
    asked: Option<FilterModel>,
    stop: C,
    b0: Budget,
    b1: Budget,
)
    requires
        cancelled(c, asked, stop, b0, b1),
        b0.examined + c.candidates(asked).len() <= u64::MAX,
    ensures
        call_ensures(stop, (), true) || b0.stop || (b0.max_scanned is Some && b0.examined
            + c.candidates(asked).len() > b0.max_scanned->0),
        b0.examined <= b1.examined <= b0.examined + c.candidates(asked).len(),
        b1.max_scanned == b0.max_scanned,
        b1.stop == b0.stop,
{
    lemma_charged(c, asked, b0, c.segments.len() + 1, c.segments.len() + 1);
}

/// A scan of the source behind the first `s` that was cancelled cancels the search there.
proof fn lemma_cancelled<C: Fn() -> bool>(
    c: CollModel,
    asked: Option<FilterModel>,
    stop: C,
    b0: Budget,
    b1: Budget,
    s: nat,
    k: nat,
)
    requires
        s <= c.segments.len(),
        s > 0 ==> !b0.refuses(considered_upto(c, asked, s)),
        index::halted(
            (considered_upto(c, asked, s + 1) - considered_upto(c, asked, s)) as nat,
            stop,
            b0.spent(considered_upto(c, asked, s)),
            b1,
            k,
        ),
        considered_upto(c, asked, s) <= considered_upto(c, asked, s + 1),
    ensures
        cancelled(c, asked, stop, b0, b1),
{
    let before = considered_upto(c, asked, s);
    let here = (considered_upto(c, asked, s + 1) - before) as nat;
    lemma_charged(c, asked, b0, s + 1, c.segments.len() + 1);
    index::lemma_spent(b0, before, k);
    index::lemma_spent(b0, before, here);
    assert(b1 == b0.spent(before + k));
    if !index::may_stop(stop) {
        index::lemma_refuses_more(b0, before + here, c.candidates(asked).len());
    }
}

impl Collection {
    /// Scan one segment.
    fn scan_segment<
        I: VectorIndex,
        F: Fn(Metric, &[u32], &[u8], u32) -> u32,
        C: Fn() -> bool,
    >(
        &self,
        s: usize,
        rows: &SegmentSource<'_>,
        request: &SearchRequest<'_>,
        metric: Metric,
        query: &[u32],
        index: &I,
        score: &F,
        stop: &C,
        budget: &mut Budget,
        out: &mut TopK,
    ) -> (r: Result<(), DbError>)
        requires
            self@.wf(),
            s < self@.segments.len() < u32::MAX,
            rows.spec_segment() == self@.segments[s as int],
            rows.spec_number() == s,
            rows.rows() == segment_rows(self@, s as int),
            request.top_k > 0,
            index::scores_anything(*score),
            index::can_poll(*stop),
        ensures
            picked(
                segment_rows(self@, s as int).filter(
                    |x: SourceRow| self@.qualifies(request.asked(), x.row),
                ),
                old(out)@,
                final(out)@,
            ),
            index.exact() ==> index::is_scan(
                segment_rows(self@, s as int).filter(
                    |x: SourceRow| self@.qualifies(request.asked(), x.row),
                ),
                *score,
                metric,
                query@,
                *stop,
                *old(budget),
                *final(budget),
                old(out)@,
                final(out)@,
                r,
            ),
    {
        let live = Current::new(self, s);
        let test = match request.filter {
            Some(f) => Some(SegmentFilter::new(&self.segments[s], s as u32, f)),
            None => None,
        };
        let ctx: SearchCtx<'_, Current<'_>, SegmentFilter<'_>> = SearchCtx {
            query,
            top_k: request.top_k,
            metric,
            live: &live,
            filter: match &test {
                Some(t) => Some(t),
                None => None,
            },
            min_score: request.min_score,
            params: request.params,
        };
        let ghost all = rows.rows();
        let ghost p = |x: SourceRow| self@.qualifies(request.asked(), x.row);
        proof {
            assert(self@.segments[s as int] == self.segments@[s as int]@);
            lemma_segment_admits(ctx, self@, s as int, request.asked());
        }
        let r = index.search(&ctx, rows, score, stop, budget, out);
        proof {
            let offers = choose|offers: Seq<Candidate>| #[trigger]
                index::offered(ctx, rows.rows(), offers) && out@ == topk::after(old(out)@, offers);
            assert(index::among(all.filter(p), offers));
        }
        r
    }

    /// Scan what is buffered.
    fn scan_buffered<
        I: VectorIndex,
        F: Fn(Metric, &[u32], &[u8], u32) -> u32,
        C: Fn() -> bool,
    >(
        &self,
        rows: &BufferedSource<'_>,
        request: &SearchRequest<'_>,
        metric: Metric,
        query: &[u32],
        index: &I,
        score: &F,
        stop: &C,
        budget: &mut Budget,
        out: &mut TopK,
    ) -> (r: Result<(), DbError>)
        requires
            rows.spec_table() == self@.memtable,
            self@.memtable.live().len() <= u32::MAX,
            request.top_k > 0,
            index::scores_anything(*score),
            index::can_poll(*stop),
        ensures
            picked(
                buffered::buffered_rows(self@.memtable).filter(
                    |x: SourceRow| self@.qualifies(request.asked(), x.row),
                ),
                old(out)@,
                final(out)@,
            ),
            index.exact() ==> index::is_scan(
                buffered::buffered_rows(self@.memtable).filter(
                    |x: SourceRow| self@.qualifies(request.asked(), x.row),
                ),
                *score,
                metric,
                query@,
                *stop,
                *old(budget),
                *final(budget),
                old(out)@,
                final(out)@,
                r,
            ),
    {
        let live = AllLive;
        let test = match request.filter {
            Some(f) => Some(BufferedFilter::new(rows, f)),
            None => None,
        };
        let ctx: SearchCtx<'_, AllLive, BufferedFilter<'_, '_>> = SearchCtx {
            query,
            top_k: request.top_k,
            metric,
            live: &live,
            filter: match &test {
                Some(t) => Some(t),
                None => None,
            },
            min_score: request.min_score,
            params: request.params,
        };
        let ghost all = rows.rows();
        let ghost p = |x: SourceRow| self@.qualifies(request.asked(), x.row);
        proof {
            assert forall|i: int| 0 <= i < all.len() implies ctx.admitted((#[trigger] all[i]).row)
                == p(all[i]) by {
                assert(all[i].row == source::row_id(BUFFERED, i));
                assert(number_of(all[i].row) == BUFFERED);
                assert(place_of(all[i].row) == i);
            }
            lemma_admitted_is_filtered(ctx, all, p);
        }
        let r = index.search(&ctx, rows, score, stop, budget, out);
        proof {
            let offers = choose|offers: Seq<Candidate>| #[trigger]
                index::offered(ctx, rows.rows(), offers) && out@ == topk::after(old(out)@, offers);
            assert(index::among(all.filter(p), offers));
        }
        r
    }
}

/// Why the first `n` segments cannot be scanned, if they cannot: the first whose vectors cannot
/// be read.
pub open spec fn unreadable(c: CollModel, n: nat) -> Option<ErrorModel>
    decreases n,
{
    if n == 0 {
        None
    } else {
        match unreadable(c, (n - 1) as nat) {
            Some(e) => Some(e),
            None => match vectors::vector_data(
                c.segments[n - 1].vec_bytes,
                c.segments[n - 1].stride() as int,
            ) {
                Ok(_) => None,
                Err(e) => Some(convert::reported(e, path::root_text())),
            },
        }
    }
}

proof fn lemma_unreadable(c: CollModel, m: nat, n: nat)
    requires
        m <= n,
        unreadable(c, m) is Some,
    ensures
        unreadable(c, n) == unreadable(c, m),
    decreases n,
{
    if m < n {
        lemma_unreadable(c, m, (n - 1) as nat);
    }
}

/// There are no more rows than the segments have room for.
proof fn lemma_rows_below(c: CollModel, n: nat)
    requires
        c.wf(),
        n <= c.segments.len(),
    ensures
        rows_below(c, n).len() <= n * u32::MAX,
    decreases n,
{
    if n > 0 {
        lemma_rows_below(c, (n - 1) as nat);
        assert(c.segments[n - 1].wf());
        assert(segment_rows(c, n - 1).len() <= c.segments[n - 1].ids.len());
        assert((n - 1) * u32::MAX + u32::MAX == n * u32::MAX) by (nonlinear_arith);
    }
}

/// Offering two lists one after the other is offering them at once.
proof fn lemma_offered_joined(t: TopKModel, a: Seq<Candidate>, b: Seq<Candidate>)
    ensures
        topk::after(topk::after(t, a), b) == topk::after(t, a + b),
    decreases b.len(),
{
    if b.len() == 0 {
        assert(a + b =~= a);
    } else {
        lemma_offered_joined(t, a, b.drop_last());
        assert((a + b).drop_last() =~= a + b.drop_last());
    }
}

/// Two scored lists make one.
proof fn lemma_scored_joined<F: Fn(Metric, &[u32], &[u8], u32) -> u32>(
    score: F,
    metric: Metric,
    query: Seq<u32>,
    ra: Seq<SourceRow>,
    a: Seq<Candidate>,
    rb: Seq<SourceRow>,
    b: Seq<Candidate>,
)
    requires
        index::scored(score, metric, query, ra, a),
        index::scored(score, metric, query, rb, b),
    ensures
        index::scored(score, metric, query, ra + rb, a + b),
{
    let rows = ra + rb;
    let offers = a + b;
    assert forall|i: int| 0 <= i < rows.len() implies (#[trigger] offers[i]).row == rows[i].row
        && index::score_of(score, metric, query, rows[i], offers[i].score) by {
        if i < a.len() {
            assert(offers[i] == a[i]);
        } else {
            assert(offers[i] == b[i - a.len()]);
        }
    }
}

/// Whether a scan collected these candidates: rows of a list, and all of them in order where the
/// index is exact.
pub open spec fn collected<F: Fn(Metric, &[u32], &[u8], u32) -> u32>(
    rows: Seq<SourceRow>,
    exact: bool,
    score: F,
    metric: Metric,
    query: Seq<u32>,
    t0: TopKModel,
    t1: TopKModel,
    offers: Seq<Candidate>,
) -> bool {
    &&& index::among(rows, offers)
    &&& exact ==> index::scored(score, metric, query, rows, offers)
    &&& t1 == topk::after(t0, offers)
}

/// What a scan that ran to its end collected.
proof fn lemma_collected<F: Fn(Metric, &[u32], &[u8], u32) -> u32, C: Fn() -> bool>(
    rows: Seq<SourceRow>,
    exact: bool,
    score: F,
    metric: Metric,
    query: Seq<u32>,
    stop: C,
    b0: Budget,
    b1: Budget,
    t0: TopKModel,
    t1: TopKModel,
) -> (offers: Seq<Candidate>)
    requires
        picked(rows, t0, t1),
        exact ==> index::is_scan(
            rows,
            score,
            metric,
            query,
            stop,
            b0,
            b1,
            t0,
            t1,
            Ok::<(), DbError>(()),
        ),
    ensures
        collected(rows, exact, score, metric, query, t0, t1, offers),
{
    if exact {
        let offers = choose|offers: Seq<Candidate>| #[trigger]
            index::scored(score, metric, query, rows, offers) && t1 == topk::after(t0, offers);
        assert forall|i: int| 0 <= i < offers.len() implies index::holds_row(
            rows,
            (#[trigger] offers[i]).row,
        ) by {
            assert(rows[i].row == offers[i].row);
        }
        offers
    } else {
        choose|offers: Seq<Candidate>| #[trigger]
            index::among(rows, offers) && t1 == topk::after(t0, offers)
    }
}

/// Where a scan that was cancelled was.
proof fn lemma_halted<F: Fn(Metric, &[u32], &[u8], u32) -> u32, C: Fn() -> bool>(
    rows: Seq<SourceRow>,
    score: F,
    metric: Metric,
    query: Seq<u32>,
    stop: C,
    b0: Budget,
    b1: Budget,
    t0: TopKModel,
    t1: TopKModel,
    r: Result<(), DbError>,
) -> (k: nat)
    requires
        r is Err,
        index::is_scan(rows, score, metric, query, stop, b0, b1, t0, t1, r),
    ensures
        index::halted(rows.len(), stop, b0, b1, k),
{
    let (k, offers) = choose|k: nat, offers: Seq<Candidate>|
        #![trigger index::halted(rows.len(), stop, b0, b1, k), topk::after(t0, offers)]
        index::halted(rows.len(), stop, b0, b1, k) && index::scored(
            score,
            metric,
            query,
            rows.take(k as int),
            offers,
        ) && t1 == topk::after(t0, offers);
    k
}

/// What two scans one after the other collected is what one scan of both lists would have.
proof fn lemma_collected_joined<F: Fn(Metric, &[u32], &[u8], u32) -> u32>(
    ra: Seq<SourceRow>,
    rb: Seq<SourceRow>,
    exact: bool,
    score: F,
    metric: Metric,
    query: Seq<u32>,
    t0: TopKModel,
    t1: TopKModel,
    t2: TopKModel,
    a: Seq<Candidate>,
    b: Seq<Candidate>,
)
    requires
        collected(ra, exact, score, metric, query, t0, t1, a),
        collected(rb, exact, score, metric, query, t1, t2, b),
    ensures
        collected(ra + rb, exact, score, metric, query, t0, t2, a + b),
{
    let rows = ra + rb;
    let offers = a + b;
    lemma_offered_joined(t0, a, b);
    if exact {
        lemma_scored_joined(score, metric, query, ra, a, rb, b);
    }
    assert forall|i: int| 0 <= i < offers.len() implies index::holds_row(
        rows,
        (#[trigger] offers[i]).row,
    ) by {
        if i < a.len() {
            assert(offers[i] == a[i]);
            let k = choose|k: int| 0 <= k < ra.len() && (#[trigger] ra[k]).row == a[i].row;
            assert(rows[k] == ra[k]);
        } else {
            assert(offers[i] == b[i - a.len()]);
            let k = choose|k: int|
                0 <= k < rb.len() && (#[trigger] rb[k]).row == b[i - a.len()].row;
            assert(rows[ra.len() + k] == rb[k]);
        }
    }
}

/// As many candidates are counted as were offered, up to the largest count there is.
proof fn lemma_considered(t: TopKModel, offers: Seq<Candidate>)
    ensures
        topk::after(t, offers).considered == if t.considered + offers.len() > u64::MAX {
            u64::MAX as int
        } else {
            t.considered + offers.len()
        },
    decreases offers.len(),
{
    if offers.len() > 0 {
        lemma_considered(t, offers.drop_last());
    }
}

impl Collection {
    /// The rows of every segment.
    fn segment_sources(&self) -> (r: Result<Vec<SegmentSource<'_>>, DbError>)
        requires
            self@.wf(),
            self@.segments.len() < u32::MAX,
        ensures
            match unreadable(self@, self@.segments.len()) {
                Some(e) => error::failed(r, e),
                None => {
                    &&& r matches Ok(v)
                    &&& v@.len() == self@.segments.len()
                    &&& forall|i: int|
                        0 <= i < v@.len() ==> is_source(self@, i, #[trigger] v@[i])
                },
            },
    {
        let mut out: Vec<SegmentSource<'_>> = Vec::new();
        let mut s: usize = 0;
        while s < self.segments.len()
            invariant
                s <= self.segments@.len(),
                self@.segments.len() == self.segments@.len(),
                self@.segments.len() < u32::MAX,
                self@.segments == flush::segment_models(self.segments@),
                unreadable(self@, s as nat) is None,
                out@.len() == s,
                forall|i: int| 0 <= i < s ==> is_source(self@, i, #[trigger] out@[i]),
            decreases self.segments.len() - s,
        {
            assert(self@.segments[s as int] == self.segments@[s as int]@);
            match SegmentSource::new(&self.segments[s], s as u32) {
                Ok(x) => {
                    assert(is_source(self@, s as int, x));
                    out.push(x);
                },
                Err(e) => {
                    proof {
                        lemma_unreadable(self@, (s + 1) as nat, self@.segments.len());
                    }
                    return Err(e);
                },
            }
            s += 1;
        }
        Ok(out)
    }

    /// Scan everything, and say how many rows there are.
    #[verifier::spinoff_prover]
    #[verifier::rlimit(60)]
    fn scan_all<
        I: VectorIndex,
        F: Fn(Metric, &[u32], &[u8], u32) -> u32,
        C: Fn() -> bool,
    >(
        &self,
        sources: &Vec<SegmentSource<'_>>,
        rest: &BufferedSource<'_>,
        request: &SearchRequest<'_>,
        metric: Metric,
        query: &[u32],
        index: &I,
        score: &F,
        stop: &C,
        budget: &mut Budget,
        out: &mut TopK,
    ) -> (r: Result<u64, DbError>)
        requires
            self@.wf(),
            self@.segments.len() < u32::MAX,
            self@.memtable.live().len() <= u32::MAX,
            sources@.len() == self@.segments.len(),
            forall|i: int| 0 <= i < sources@.len() ==> is_source(self@, i, #[trigger] sources@[i]),
            rest.spec_table() == self@.memtable,
            request.top_k > 0,
            index::scores_anything(*score),
            index::can_poll(*stop),
        ensures
            ({
                let rows = self@.candidates(request.asked());
                match r {
                    Ok(n) => {
                        &&& n == self@.every_row().len()
                        &&& index.exact() ==> !old(budget).refuses(rows.len()) && *final(budget)
                            == old(budget).spent(rows.len())
                        &&& exists|offers: Seq<Candidate>| #[trigger]
                            collected(
                                rows,
                                index.exact(),
                                *score,
                                metric,
                                query@,
                                old(out)@,
                                final(out)@,
                                offers,
                            )
                    },
                    Err(_) => index.exact() ==> error::failed(r, ErrorModel::Cancelled)
                        && cancelled(
                        self@,
                        request.asked(),
                        *stop,
                        *old(budget),
                        *final(budget),
                    ),
                }
            }),
    {
        let ghost p = |x: SourceRow| self@.qualifies(request.asked(), x.row);
        let ghost asked = request.asked();
        let ghost exact = index.exact();
        let ghost b0 = *budget;
        let ghost t0 = out@;
        let ghost mut offers = Seq::<Candidate>::empty();
        let ghost all = self@.candidates(asked);
        let ghost tail = buffered::buffered_rows(self@.memtable);
        let mut total: u64 = 0;
        let mut s: usize = 0;
        proof {
            reveal(Seq::filter);
            index::lemma_spent(b0, 0, 0);
            assert(rows_below(self@, 0).filter(p) =~= Seq::<SourceRow>::empty());
        }
        while s < sources.len()
            invariant
                s <= sources@.len(),
                self@.wf(),
                sources@.len() == self@.segments.len(),
                self@.segments.len() < u32::MAX,
                forall|i: int|
                    0 <= i < sources@.len() ==> is_source(self@, i, #[trigger] sources@[i]),
                request.top_k > 0,
                index::scores_anything(*score),
                index::can_poll(*stop),
                asked == request.asked(),
                exact == index.exact(),
                p == (|x: SourceRow| self@.qualifies(asked, x.row)),
                all == self@.candidates(asked),
                total == rows_below(self@, s as nat).len(),
                collected(
                    rows_below(self@, s as nat).filter(p),
                    exact,
                    *score,
                    metric,
                    query@,
                    t0,
                    out@,
                    offers,
                ),
                exact ==> *budget == b0.spent(considered_upto(self@, asked, s as nat)),
                exact && s > 0 ==> !b0.refuses(considered_upto(self@, asked, s as nat)),
                b0 == *old(budget),
                t0 == old(out)@,
            decreases sources.len() - s,
        {
            let ghost below = rows_below(self@, s as nat);
            let ghost here = segment_rows(self@, s as int);
            proof {
                lemma_rows_below(self@, (s + 1) as nat);
                assert(rows_below(self@, (s + 1) as nat) == below + here);
                Seq::filter_distributes_over_add(below, here, p);
                index::lemma_spent(b0, below.filter(p).len(), here.filter(p).len());
                assert((s + 1) * u32::MAX <= u64::MAX) by (nonlinear_arith)
                    requires
                        s + 1 < u32::MAX,
                ;
                assert(is_source(self@, s as int, sources@[s as int]));
                assert(considered_upto(self@, asked, (s + 1) as nat) == considered_upto(
                    self@,
                    asked,
                    s as nat,
                ) + here.filter(p).len());
            }
            let ghost t1 = out@;
            let ghost b1 = *budget;
            let r = self.scan_segment(
                s,
                &sources[s],
                request,
                metric,
                query,
                index,
                score,
                stop,
                budget,
                out,
            );
            match r {
                Ok(()) => {},
                Err(e) => {
                    proof {
                        if exact {
                            let k = lemma_halted(
                                here.filter(p),
                                *score,
                                metric,
                                query@,
                                *stop,
                                b1,
                                *budget,
                                t1,
                                out@,
                                r,
                            );
                            lemma_cancelled(self@, asked, *stop, b0, *budget, s as nat, k);
                        }
                    }
                    return Err(e);
                },
            }
            proof {
                let more = lemma_collected(
                    here.filter(p),
                    exact,
                    *score,
                    metric,
                    query@,
                    *stop,
                    b1,
                    *budget,
                    t1,
                    out@,
                );
                lemma_collected_joined(
                    below.filter(p),
                    here.filter(p),
                    exact,
                    *score,
                    metric,
                    query@,
                    t0,
                    t1,
                    out@,
                    offers,
                    more,
                );
                offers = offers + more;
            }
            total = total + sources[s].len() as u64;
            s += 1;
        }
        let ghost below = rows_below(self@, self@.segments.len());
        let ghost t1 = out@;
        let ghost b1 = *budget;
        proof {
            lemma_rows_below(self@, self@.segments.len());
            assert(below.len() + tail.len() <= u64::MAX) by {
                assert(self@.segments.len() * u32::MAX + u32::MAX <= u64::MAX) by (nonlinear_arith)
                    requires
                        self@.segments.len() < u32::MAX,
                ;
            }
            Seq::filter_distributes_over_add(below, tail, p);
            assert(all == below.filter(p) + tail.filter(p));
            index::lemma_spent(b0, below.filter(p).len(), tail.filter(p).len());
        }
        let r = self.scan_buffered(rest, request, metric, query, index, score, stop, budget, out);
        match r {
            Ok(()) => {},
            Err(e) => {
                proof {
                    if exact {
                        let k = lemma_halted(
                                tail.filter(p),
                                *score,
                                metric,
                                query@,
                                *stop,
                                b1,
                                *budget,
                                t1,
                                out@,
                                r,
                            );
                        lemma_cancelled(
                            self@,
                            asked,
                            *stop,
                            b0,
                            *budget,
                            self@.segments.len(),
                            k,
                        );
                    }
                }
                return Err(e);
            },
        }
        proof {
            let more = lemma_collected(
                tail.filter(p),
                exact,
                *score,
                metric,
                query@,
                *stop,
                b1,
                *budget,
                t1,
                out@,
            );
            lemma_collected_joined(
                below.filter(p),
                tail.filter(p),
                exact,
                *score,
                metric,
                query@,
                t0,
                t1,
                out@,
                offers,
                more,
            );
        }
        total = total + rest.len() as u64;
        Ok(total)
    }
}

/// Whether something hands out the rows of the segment at index `s`.
pub open spec fn is_source(c: CollModel, s: int, x: SegmentSource<'_>) -> bool {
    &&& x.spec_segment() == c.segments[s]
    &&& x.spec_number() == s
    &&& x.rows() == segment_rows(c, s)
}

/// What a search considers of the first segments only grows with more of them.
proof fn lemma_below_grows(c: CollModel, p: spec_fn(SourceRow) -> bool, m: nat, n: nat)
    requires
        m <= n,
    ensures
        rows_below(c, m).filter(p).len() <= rows_below(c, n).filter(p).len(),
    decreases n,
{
    if m < n {
        lemma_below_grows(c, p, m, (n - 1) as nat);
        Seq::filter_distributes_over_add(
            rows_below(c, (n - 1) as nat),
            segment_rows(c, n - 1),
            p,
        );
    }
}

/// Whether one hit comes before another: by score, and by ascending id where the scores are the
/// same.
pub open spec fn hit_before(c: CollModel, a: Candidate, b: Candidate) -> bool {
    float::rank32(a.score) > float::rank32(b.score) || (a.score == b.score && document::id_lt(
        c.document_of(a.row),
        c.document_of(b.row),
    ))
}

/// Whether hits stand in the order they are returned in.
pub open spec fn in_order(c: CollModel, s: Seq<Candidate>) -> bool {
    forall|i: int, j: int|
        0 <= i < j < s.len() ==> !hit_before(c, #[trigger] s[j], #[trigger] s[i])
}

/// Whether every candidate names a row that is there.
pub open spec fn rows_known(c: CollModel, s: Seq<Candidate>) -> bool {
    forall|i: int| 0 <= i < s.len() ==> c.has_row((#[trigger] s[i]).row)
}

/// A hit that comes before one comes before whatever that one does not follow.
proof fn lemma_hits_are_ordered(c: CollModel, x: Candidate, a: Candidate, b: Candidate)
    ensures
        hit_before(c, x, a) ==> !hit_before(c, a, x),
        hit_before(c, x, a) && !hit_before(c, b, a) ==> hit_before(c, x, b),
{
    float::lemma_rank32_injective(x.score, a.score);
    float::lemma_rank32_injective(a.score, b.score);
    document::lemma_ids_are_ordered(
        c.document_of(x.row),
        c.document_of(a.row),
        c.document_of(b.row),
    );
    document::lemma_ids_are_ordered(
        c.document_of(x.row),
        c.document_of(a.row),
        c.document_of(x.row),
    );
    document::lemma_ids_are_ordered(
        c.document_of(a.row),
        c.document_of(b.row),
        c.document_of(a.row),
    );
}

/// Whether a hit carries its document, or part of it.
pub open spec fn carries(parts: Include) -> bool {
    parts.vector || parts.metadata || parts.content
}

/// The document that a hit carries, as far as it was asked for.
pub open spec fn hit_document(c: CollModel, h: Candidate, parts: Include) -> Result<
    Option<DocumentModel>,
    ErrorModel,
> {
    if carries(parts) {
        c.read(c.document_of(h.row), parts)
    } else {
        Ok(None)
    }
}

/// The first failure to read the document of a hit, if there is one.
pub open spec fn read_failure(c: CollModel, hits: Seq<Candidate>, parts: Include) -> Option<
    ErrorModel,
>
    decreases hits.len(),
{
    if hits.len() == 0 {
        None
    } else {
        match read_failure(c, hits.drop_last(), parts) {
            Some(e) => Some(e),
            None => match hit_document(c, hits.last(), parts) {
                Ok(_) => None,
                Err(e) => Some(e),
            },
        }
    }
}

/// Whether a hit is what a candidate turns into.
pub open spec fn is_hit<D: Fn(Metric, u32) -> Option<u32>>(
    c: CollModel,
    distance: D,
    metric: Metric,
    parts: Include,
    from: Candidate,
    h: Hit,
) -> bool {
    &&& h.id@ == c.document_of(from.row)
    &&& h.score == from.score
    &&& call_ensures(distance, (metric, from.score), h.distance)
    &&& match hit_document(c, from, parts) {
        Ok(Some(d)) => h.document matches Some(x) && x@ == d,
        Ok(None) => h.document is None,
        Err(_) => false,
    }
}

proof fn lemma_read_failure(c: CollModel, hits: Seq<Candidate>, parts: Include, n: int)
    requires
        0 <= n <= hits.len(),
        read_failure(c, hits.take(n), parts) is Some,
    ensures
        read_failure(c, hits, parts) == read_failure(c, hits.take(n), parts),
    decreases hits.len(),
{
    if n < hits.len() {
        assert(hits.drop_last().take(n) =~= hits.take(n));
        lemma_read_failure(c, hits.drop_last(), parts, n);
    } else {
        assert(hits.take(n) =~= hits);
    }
}

impl Collection {
    /// The document that a row is a version of.
    fn document_at<'a>(&'a self, rest: &'a BufferedSource<'_>, row: RowId) -> (r: &'a DocId)
        requires
            self@.wf(),
            rest.spec_table() == self@.memtable,
            self@.has_row(row),
        ensures
            r@ == self@.document_of(row),
    {
        if row.segment() == BUFFERED {
            let held = rest.document(row.row() as usize);
            return &held.id;
        }
        assert(self@.segments[number_of(row)] == self.segments@[number_of(row)]@);
        match self.segments[row.segment() as usize].id_at(row.row()) {
            Some(id) => id,
            None => {
                assert(false);
                &rest.document(0).id
            },
        }
    }

    /// Whether one hit comes before another.
    fn comes_first(&self, rest: &BufferedSource<'_>, a: Candidate, b: Candidate) -> (r: bool)
        requires
            self@.wf(),
            rest.spec_table() == self@.memtable,
            self@.has_row(a.row),
            self@.has_row(b.row),
        ensures
            r == hit_before(self@, a, b),
    {
        float::rank_of32(a.score) > float::rank_of32(b.score) || (a.score == b.score
            && self.document_at(rest, a.row).before(self.document_at(rest, b.row)))
    }

    /// Put hits into the order they are returned in.
    fn ordered(&self, rest: &BufferedSource<'_>, kept: &Vec<Candidate>) -> (r: Vec<Candidate>)
        requires
            self@.wf(),
            rest.spec_table() == self@.memtable,
            rows_known(self@, kept@),
        ensures
            r@.to_multiset() == kept@.to_multiset(),
            in_order(self@, r@),
            rows_known(self@, r@),
    {
        let mut out: Vec<Candidate> = Vec::new();
        let mut i: usize = 0;
        assert(kept@.take(0) =~= Seq::<Candidate>::empty());
        while i < kept.len()
            invariant
                i <= kept@.len(),
                self@.wf(),
                rest.spec_table() == self@.memtable,
                rows_known(self@, kept@),
                rows_known(self@, out@),
                in_order(self@, out@),
                out@.to_multiset() == kept@.take(i as int).to_multiset(),
            decreases kept.len() - i,
        {
            let x: Candidate = kept[i];
            let mut at: usize = out.len();
            while at > 0 && self.comes_first(rest, x, out[at - 1])
                invariant
                    at <= out@.len(),
                    self@.wf(),
                    rest.spec_table() == self@.memtable,
                    self@.has_row(x.row),
                    rows_known(self@, out@),
                    forall|j: int| at <= j < out@.len() ==> hit_before(self@, x, #[trigger] out@[j]),
                decreases at,
            {
                at -= 1;
            }
            let ghost before = out@;
            proof {
                assert forall|j: int| 0 <= j < at implies !hit_before(
                    self@,
                    x,
                    #[trigger] before[j],
                ) by {
                    if j < at - 1 {
                        assert(!hit_before(self@, before[at - 1], before[j]));
                        lemma_hits_are_ordered(self@, x, before[j], before[at - 1]);
                    }
                }
                assert forall|j: int| at <= j < before.len() implies !hit_before(
                    self@,
                    #[trigger] before[j],
                    x,
                ) by {
                    lemma_hits_are_ordered(self@, x, before[j], before[j]);
                }
                assert(kept@.take(i + 1) =~= kept@.take(i as int).push(x));
                to_multiset_build(kept@.take(i as int), x);
                to_multiset_insert(before, at as int, x);
            }
            out.insert(at, x);
            proof {
                let now = out@;
                assert(now =~= before.insert(at as int, x));
                assert forall|a: int, b: int| 0 <= a < b < now.len() implies !hit_before(
                    self@,
                    #[trigger] now[b],
                    #[trigger] now[a],
                ) by {
                    if a < at && b > at {
                        assert(now[a] == before[a] && now[b] == before[b - 1]);
                    } else if a > at {
                        assert(now[a] == before[a - 1] && now[b] == before[b - 1]);
                    } else if a == at {
                        assert(now[b] == before[b - 1]);
                    }
                }
                assert forall|j: int| 0 <= j < now.len() implies self@.has_row(
                    (#[trigger] now[j]).row,
                ) by {
                    if j < at {
                        assert(now[j] == before[j]);
                    } else if j > at {
                        assert(now[j] == before[j - 1]);
                    }
                }
            }
            i += 1;
        }
        assert(kept@.take(i as int) =~= kept@);
        out
    }

    /// What ordered candidates turn into.
    fn hits<D: Fn(Metric, u32) -> Option<u32>>(
        &self,
        access: Access,
        rest: &BufferedSource<'_>,
        placed: &Vec<Candidate>,
        metric: Metric,
        parts: Include,
        distance: &D,
    ) -> (r: Result<Vec<Hit>, DbError>)
        requires
            self@.wf(),
            !access.closed,
            rest.spec_table() == self@.memtable,
            rows_known(self@, placed@),
            measures_anything(*distance),
        ensures
            match read_failure(self@, placed@, parts) {
                Some(e) => error::failed(r, e),
                None => {
                    &&& r matches Ok(v)
                    &&& v@.len() == placed@.len()
                    &&& forall|i: int|
                        0 <= i < v@.len() ==> is_hit(
                            self@,
                            *distance,
                            metric,
                            parts,
                            placed@[i],
                            #[trigger] v@[i],
                        )
                },
            },
    {
        let mut out: Vec<Hit> = Vec::new();
        let mut i: usize = 0;
        assert(placed@.take(0) =~= Seq::<Candidate>::empty());
        while i < placed.len()
            invariant
                i <= placed@.len(),
                self@.wf(),
                !access.closed,
                rest.spec_table() == self@.memtable,
                rows_known(self@, placed@),
                measures_anything(*distance),
                read_failure(self@, placed@.take(i as int), parts) is None,
                out@.len() == i,
                forall|k: int|
                    0 <= k < i ==> is_hit(
                        self@,
                        *distance,
                        metric,
                        parts,
                        placed@[k],
                        #[trigger] out@[k],
                    ),
            decreases placed.len() - i,
        {
            let x: Candidate = placed[i];
            let id: DocId = self.document_at(rest, x.row).clone();
            proof {
                let next = placed@.take(i + 1);
                assert(next.drop_last() =~= placed@.take(i as int));
                assert(next.last() == x);
            }
            let document: Option<Document> = if parts.vector || parts.metadata || parts.content {
                match self.get_with(access, &id, parts) {
                    Ok(d) => d,
                    Err(e) => {
                        proof {
                            lemma_read_failure(self@, placed@, parts, i + 1);
                        }
                        return Err(e);
                    },
                }
            } else {
                None
            };
            let h = Hit { id, score: x.score, distance: distance(metric, x.score), document };
            assert(is_hit(self@, *distance, metric, parts, placed@[i as int], h));
            out.push(h);
            i += 1;
        }
        assert(placed@.take(i as int) =~= placed@);
        Ok(out)
    }
}

/// Whether a distance function can be called on anything.
pub open spec fn measures_anything<D: Fn(Metric, u32) -> Option<u32>>(distance: D) -> bool {
    forall|m: Metric, s: u32| #[trigger] call_requires(distance, (m, s))
}

/// The metric that a request is scored with.
pub open spec fn metric_of(c: CollModel, request: SearchRequest<'_>) -> Metric {
    match request.metric {
        Some(m) => m,
        None => c.catalog.metric,
    }
}

/// Why a search is refused before anything is scanned, if it is.
pub open spec fn search_refused(
    c: CollModel,
    access: Access,
    request: SearchRequest<'_>,
) -> Option<ErrorModel> {
    if access.closed {
        Some(access::closed())
    } else if !(0 < request.top_k <= MAX_TOP_K) {
        Some(
            ErrorModel::Validation(
                ValidationModel::TopKOutOfRange { requested: request.top_k, max: MAX_TOP_K },
            ),
        )
    } else {
        match request.vector.refused(c.catalog.name, c.catalog.dimension) {
            Some(e) => Some(e),
            None => match filter_refused(request.asked()) {
                Some(e) => Some(e),
                None => unreadable(c, c.segments.len()),
            },
        }
    }
}

/// Why a filter is refused, if there is one and it is.
pub open spec fn filter_refused(asked: Option<FilterModel>) -> Option<ErrorModel> {
    match asked {
        Some(f) => filter::refused(f),
        None => None,
    }
}

/// The best of the candidates that were offered.
pub open spec fn best(request: SearchRequest<'_>, offers: Seq<Candidate>) -> Seq<Candidate> {
    topk::first(topk::ranking(offers, request.min_score), request.top_k as nat)
}

/// What a search that ran to its end did, with `n` candidates offered by the index.
pub open spec fn stats_of(c: CollModel, exact: bool, n: nat) -> SearchStats {
    let considered = if n > u64::MAX {
        u64::MAX
    } else {
        n as u64
    };
    SearchStats {
        index_kind: IndexKind::Flat,
        exact,
        considered,
        scanned: considered,
        skipped: if considered > c.every_row().len() {
            0
        } else {
            (c.every_row().len() - considered) as u64
        },
    }
}

/// Whether a result is the answer that the candidates offered by an index give: the best of them
/// come back in order, each with what was asked for of its document.
pub open spec fn is_answer_from<D: Fn(Metric, u32) -> Option<u32>>(
    c: CollModel,
    request: SearchRequest<'_>,
    exact: bool,
    distance: D,
    offers: Seq<Candidate>,
    placed: Seq<Candidate>,
    r: Result<SearchResponse, DbError>,
) -> bool {
    &&& placed.to_multiset() == best(request, offers).to_multiset()
    &&& in_order(c, placed)
    &&& match read_failure(c, placed, request.parts) {
        Some(e) => error::failed(r, e),
        None => {
            &&& r matches Ok(x)
            &&& x.hits@.len() == placed.len()
            &&& forall|i: int|
                0 <= i < placed.len() ==> is_hit(
                    c,
                    distance,
                    metric_of(c, request),
                    request.parts,
                    placed[i],
                    #[trigger] x.hits@[i],
                )
            &&& x.stats == stats_of(c, exact, offers.len())
        },
    }
}

/// Whether a result is the answer to a request: every candidate was scored, and the best of them
/// come back in order, each with what was asked for of its document.
pub open spec fn is_answer<
    F: Fn(Metric, &[u32], &[u8], u32) -> u32,
    D: Fn(Metric, u32) -> Option<u32>,
>(
    c: CollModel,
    request: SearchRequest<'_>,
    score: F,
    distance: D,
    offers: Seq<Candidate>,
    placed: Seq<Candidate>,
    r: Result<SearchResponse, DbError>,
) -> bool {
    &&& index::scored(
        score,
        metric_of(c, request),
        request.vector.components(),
        c.candidates(request.asked()),
        offers,
    )
    &&& is_answer_from(c, request, true, distance, offers, placed, r)
}

/// Every row that is scanned is there.
proof fn lemma_every_row_is_there(c: CollModel, n: nat)
    requires
        c.wf(),
        n <= c.segments.len() < u32::MAX,
        c.memtable.live().len() <= u32::MAX,
    ensures
        forall|x: SourceRow| #[trigger] rows_below(c, n).contains(x) ==> c.has_row(x.row),
        forall|x: SourceRow| #[trigger]
            buffered::buffered_rows(c.memtable).contains(x) ==> c.has_row(x.row),
    decreases n,
{
    let tail = buffered::buffered_rows(c.memtable);
    assert forall|x: SourceRow| #[trigger] tail.contains(x) implies c.has_row(x.row) by {
        let i = choose|i: int| 0 <= i < tail.len() && tail[i] == x;
        assert(tail[i].row == source::row_id(BUFFERED, i));
        assert(number_of(x.row) == BUFFERED && place_of(x.row) == i);
    }
    if n > 0 {
        lemma_every_row_is_there(c, (n - 1) as nat);
        let front = rows_below(c, (n - 1) as nat);
        let here = segment_rows(c, n - 1);
        assert forall|x: SourceRow| #[trigger] rows_below(c, n).contains(x) implies c.has_row(
            x.row,
        ) by {
            let i = choose|i: int| 0 <= i < (front + here).len() && (front + here)[i] == x;
            if i < front.len() {
                assert(front[i] == x);
                assert(front.contains(x));
            } else {
                let k = i - front.len();
                assert(c.segments[n - 1].wf());
                assert(here[k].row == source::row_id((n - 1) as u32, k));
                assert(number_of(x.row) == n - 1 && place_of(x.row) == k);
            }
        }
    }
}

/// Every candidate of a search names a row that is there.
pub proof fn lemma_candidates_are_there(c: CollModel, asked: Option<FilterModel>, x: SourceRow)
    requires
        c.wf(),
        c.segments.len() < u32::MAX,
        c.memtable.live().len() <= u32::MAX,
        c.candidates(asked).contains(x),
    ensures
        c.every_row().contains(x),
        c.has_row(x.row),
        c.qualifies(asked, x.row),
{
    let p = |r: SourceRow| c.qualifies(asked, r.row);
    let all = c.every_row();
    all.lemma_filter_contains_rev(p, x);
    all.lemma_filter_pred(p, choose|i: int| 0 <= i < all.filter(p).len() && all.filter(p)[i] == x);
    lemma_every_row_is_there(c, c.segments.len());
    let below = rows_below(c, c.segments.len());
    let tail = buffered::buffered_rows(c.memtable);
    let i = choose|i: int| 0 <= i < all.len() && all[i] == x;
    if i < below.len() {
        assert(below[i] == x);
        assert(below.contains(x));
    } else {
        assert(tail[i - below.len()] == x);
        assert(tail.contains(x));
    }
}

/// The best candidates are among those that were offered.
proof fn lemma_best_were_offered(request: SearchRequest<'_>, offers: Seq<Candidate>, x: Candidate)
    requires
        best(request, offers).contains(x),
    ensures
        offers.contains(x),
{
    broadcast use group_multiset_axioms;
    broadcast use group_to_multiset_ensures;

    topk::lemma_ranking(offers, request.min_score);
    let all = topk::ranking(offers, request.min_score);
    let i = choose|i: int| 0 <= i < best(request, offers).len() && best(request, offers)[i] == x;
    assert(all[i] == x);
    assert(all.contains(x));
    assert(all.to_multiset().count(x) > 0);
    assert(offers.to_multiset().count(x) > 0);
}

impl Collection {
    /// Find the documents nearest to a query.
    ///
    /// As [`Collection::search_with_budget`], without a limit on how many are examined.
    ///
    /// # Errors
    /// As [`Collection::search_with_budget`].
    pub fn search<
        F: Fn(Metric, &[u32], &[u8], u32) -> u32,
        D: Fn(Metric, u32) -> Option<u32>,
    >(
        &self,
        access: Access,
        request: &SearchRequest<'_>,
        score: &F,
        distance: &D,
    ) -> (r: Result<SearchResponse, DbError>)
        requires
            self@.wf(),
            self@.segments.len() < u32::MAX,
            self@.memtable.live().len() <= u32::MAX,
            index::scores_anything(*score),
            measures_anything(*distance),
        ensures
            match search_refused(self@, access, *request) {
                Some(e) => error::failed(r, e),
                None => exists|offers: Seq<Candidate>, placed: Seq<Candidate>| #[trigger]
                    is_answer(self@, *request, *score, *distance, offers, placed, r),
            },
    {
        let mut budget = Budget::unlimited();
        self.search_with_budget(access, request, score, distance, &mut budget)
    }

    /// Find the documents nearest to a query, giving up where the budget runs out.
    ///
    /// `score` says how well a stored vector matches, higher being better, from the metric, the
    /// query's components, the vector's bytes and its reciprocal norm; `distance` turns a score
    /// into the metric's own distance, where it has one. Floats are passed as their bits.
    ///
    /// # Errors
    /// [`crate::error::ValidationError`] for a query of the wrong shape, a `top_k` out of range
    /// or a filter that is too complex; [`DbError::Cancelled`] if the budget was exhausted; or any
    /// corruption error.
    pub fn search_with_budget<
        F: Fn(Metric, &[u32], &[u8], u32) -> u32,
        D: Fn(Metric, u32) -> Option<u32>,
    >(
        &self,
        access: Access,
        request: &SearchRequest<'_>,
        score: &F,
        distance: &D,
        budget: &mut Budget,
    ) -> (r: Result<SearchResponse, DbError>)
        requires
            self@.wf(),
            self@.segments.len() < u32::MAX,
            self@.memtable.live().len() <= u32::MAX,
            index::scores_anything(*score),
            measures_anything(*distance),
        ensures
            match search_refused(self@, access, *request) {
                Some(e) => error::failed(r, e) && *final(budget) == *old(budget),
                None => {
                    let n = self@.candidates(request.asked()).len();
                    if old(budget).refuses(n) {
                        &&& error::failed(r, ErrorModel::Cancelled)
                        &&& *final(budget) == old(budget).spent(
                            charged(self@, request.asked(), *old(budget)),
                        )
                    } else {
                        &&& *final(budget) == old(budget).spent(n)
                        &&& exists|offers: Seq<Candidate>, placed: Seq<Candidate>| #[trigger]
                            is_answer(self@, *request, *score, *distance, offers, placed, r)
                    }
                },
            },
    {
        let never = || -> (b: bool)
            ensures
                !b,
            { false };
        self.search_with_index(
            access,
            request,
            &ExactScan::new(),
            score,
            distance,
            &never,
            budget,
        )
    }

    /// Find the documents nearest to a query with an index of the caller's, giving up where the
    /// budget runs out or `stop`, which is polled, says so.
    ///
    /// The index is asked about each segment, oldest first, and then about what is buffered. Its
    /// candidates are rows that the request admits; where it is exact they are all of them, and
    /// the answer is that of [`Collection::search_with_budget`].
    ///
    /// # Errors
    /// As [`Collection::search_with_budget`], and [`DbError::Cancelled`] too where `stop` said to
    /// stop; or whatever the index reports.
    pub fn search_with_index<
        I: VectorIndex,
        F: Fn(Metric, &[u32], &[u8], u32) -> u32,
        D: Fn(Metric, u32) -> Option<u32>,
        C: Fn() -> bool,
    >(
        &self,
        access: Access,
        request: &SearchRequest<'_>,
        index: &I,
        score: &F,
        distance: &D,
        stop: &C,
        budget: &mut Budget,
    ) -> (r: Result<SearchResponse, DbError>)
        requires
            self@.wf(),
            self@.segments.len() < u32::MAX,
            self@.memtable.live().len() <= u32::MAX,
            index::scores_anything(*score),
            measures_anything(*distance),
            index::can_poll(*stop),
        ensures
            match search_refused(self@, access, *request) {
                Some(e) => error::failed(r, e) && *final(budget) == *old(budget),
                None => {
                    let rows = self@.candidates(request.asked());
                    &&& r is Ok ==> exists|offers: Seq<Candidate>, placed: Seq<Candidate>|
                        index::among(rows, offers) && #[trigger] is_answer_from(
                            self@,
                            *request,
                            index.exact(),
                            *distance,
                            offers,
                            placed,
                            r,
                        )
                    &&& index.exact() ==> {
                        ||| {
                            &&& error::failed(r, ErrorModel::Cancelled)
                            &&& cancelled(
                                self@,
                                request.asked(),
                                *stop,
                                *old(budget),
                                *final(budget),
                            )
                        }
                        ||| {
                            &&& !old(budget).refuses(rows.len())
                            &&& *final(budget) == old(budget).spent(rows.len())
                            &&& exists|offers: Seq<Candidate>, placed: Seq<Candidate>| #[trigger]
                                is_answer(self@, *request, *score, *distance, offers, placed, r)
                        }
                    }
                },
            },
    {
        match access.check_open() {
            Ok(()) => {},
            Err(e) => {
                return Err(e);
            },
        }
        match check_top_k(request.top_k) {
            Ok(()) => {},
            Err(e) => {
                return Err(e);
            },
        }
        match request.vector.validate(self.name(), self.dimension()) {
            Ok(()) => {},
            Err(e) => {
                return Err(e);
            },
        }
        if let Some(f) = request.filter {
            match f.validate() {
                Ok(()) => {},
                Err(e) => {
                    return Err(e);
                },
            }
        }
        let sources = match self.segment_sources() {
            Ok(v) => v,
            Err(e) => {
                return Err(e);
            },
        };
        let rest = BufferedSource::new(&self.memtable);
        let metric: Metric = match request.metric {
            Some(m) => m,
            None => self.catalog.metric,
        };
        let query: Vec<u32> = request.vector.to_f32();
        let mut top = TopK::new(request.top_k).with_min_score(request.min_score);
        let ghost t0 = top@;
        let total: u64 = match self.scan_all(
            &sources,
            &rest,
            request,
            metric,
            query.as_slice(),
            index,
            score,
            stop,
            budget,
            &mut top,
        ) {
            Ok(n) => n,
            Err(e) => {
                return Err(e);
            },
        };
        let ghost rows = self@.candidates(request.asked());
        let ghost exact = index.exact();
        let ghost offers = choose|offers: Seq<Candidate>| #[trigger]
            collected(rows, exact, *score, metric, query@, t0, top@, offers);
        proof {
            self@.every_row().lemma_filter_len(
                |x: SourceRow| self@.qualifies(request.asked(), x.row),
            );
            lemma_considered(t0, offers);
            topk::lemma_collects_the_best(t0, offers);
        }
        let considered: u64 = top.considered();
        let kept = top.into_sorted();
        proof {
            assert(kept@ == best(*request, offers));
            assert forall|i: int| 0 <= i < kept@.len() implies self@.has_row(
                (#[trigger] kept@[i]).row,
            ) by {
                assert(best(*request, offers).contains(kept@[i]));
                lemma_best_were_offered(*request, offers, kept@[i]);
                let k = choose|k: int| 0 <= k < offers.len() && offers[k] == kept@[i];
                assert(index::holds_row(rows, offers[k].row));
                let j = choose|j: int| 0 <= j < rows.len() && (#[trigger] rows[j]).row == offers[k].row;
                assert(rows.contains(rows[j]));
                lemma_candidates_are_there(self@, request.asked(), rows[j]);
            }
        }
        let placed = self.ordered(&rest, &kept);
        let hits = match self.hits(access, &rest, &placed, metric, request.parts, distance) {
            Ok(v) => v,
            Err(e) => {
                let r: Result<SearchResponse, DbError> = Err(e);
                assert(is_answer_from(self@, *request, exact, *distance, offers, placed@, r));
                assert(exact ==> is_answer(self@, *request, *score, *distance, offers, placed@, r));
                return r;
            },
        };
        let stats = SearchStats {
            index_kind: index.kind(),
            exact: index.is_exact(),
            considered,
            scanned: considered,
            skipped: if considered > total {
                0
            } else {
                total - considered
            },
        };
        let r: Result<SearchResponse, DbError> = Ok(SearchResponse { hits, stats });
        assert(is_answer_from(self@, *request, exact, *distance, offers, placed@, r));
        assert(exact ==> is_answer(self@, *request, *score, *distance, offers, placed@, r));
        r
    }
}

} // verus!
