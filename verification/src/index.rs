//! The index abstraction.
//!
//! An index makes exactly three assumptions, all of which hold for a flat scan, inverted files,
//! graphs and product quantisation alike:
//!
//! 1. It can produce approximate or exact nearest neighbours for a query.
//! 2. It can be built from a stream and snapshotted to opaque blocks.
//! 3. It respects a live set and an optional row predicate at query time.
//!
//! It does not assume that the index fits in memory, that inserts are cheap, that deletes are
//! supported natively, or that results are exact.
use vstd::prelude::*;

use crate::document::RowId;
use crate::error;
use crate::error::{DbError, ErrorModel};
use crate::search::topk;
use crate::search::topk::{Candidate, TopK, TopKModel};
use crate::search::Metric;

verus! {

/// Which algorithm an index implements.
#[derive(Debug, Clone, Copy, PartialEq, Eq, Hash, Structural)]
pub enum IndexKind {
    /// Exact brute-force scan.
    Flat,
}

impl IndexKind {
    /// A stable lowercase name, used in file names and statistics.
    pub fn name(self) -> (r: &'static str)
        ensures
            r@ == "flat"@,
    {
        match self {
            IndexKind::Flat => "flat",
        }
    }
}

/// Per-query knobs. Indexes ignore what does not apply to them.
///
/// One struct rather than a per-index type so a caller can pass the same request to any index
/// and get the best that index can do.
#[derive(Debug, Clone, Copy, PartialEq, Eq, Structural)]
pub struct SearchParams {
    /// Candidate list size for graph indexes. Ignored by a flat scan.
    pub ef_search: Option<usize>,
    /// Partitions to probe for inverted-file indexes. Ignored by a flat scan.
    pub n_probe: Option<usize>,
}

impl SearchParams {
    /// Set the candidate list size for graph indexes.
    #[must_use]
    pub fn with_ef_search(self, ef: usize) -> (r: Self)
        ensures
            r == (SearchParams { ef_search: Some(ef), n_probe: self.n_probe }),
    {
        SearchParams { ef_search: Some(ef), n_probe: self.n_probe }
    }

    /// Set the number of partitions to probe for inverted-file indexes.
    #[must_use]
    pub fn with_n_probe(self, probes: usize) -> (r: Self)
        ensures
            r == (SearchParams { ef_search: self.ef_search, n_probe: Some(probes) }),
    {
        SearchParams { ef_search: self.ef_search, n_probe: Some(probes) }
    }
}

impl Default for SearchParams {
    fn default() -> (r: Self)
        ensures
            r == (SearchParams { ef_search: None, n_probe: None }),
    {
        SearchParams { ef_search: None, n_probe: None }
    }
}

/// Whether a row is still alive.
///
/// Passed in rather than held inside an index, so a delete is cheap everywhere and only
/// compaction pays to reclaim the space. It also means an approximate index that cannot remove
/// a node still returns correct results.
pub trait LiveSet {
    /// Whether this row is live.
    spec fn live(&self, row: RowId) -> bool;

    /// Whether this row is live.
    fn is_live(&self, row: RowId) -> (r: bool)
        ensures
            r == self.live(row),
    ;
}

/// Everything is live. Used when a caller has already filtered the rows it offers.
#[derive(Debug, Clone, Copy)]
pub struct AllLive;

impl LiveSet for AllLive {
    open spec fn live(&self, row: RowId) -> bool {
        true
    }

    fn is_live(&self, row: RowId) -> (r: bool) {
        true
    }
}

/// An arbitrary per-row test, such as a compiled metadata filter.
pub trait RowPredicate {
    /// Whether this row should be considered.
    spec fn selects(&self, row: RowId) -> bool;

    /// Whether this row should be considered.
    fn matches(&self, row: RowId) -> (r: bool)
        ensures
            r == self.selects(row),
    ;
}

/// Cooperative cancellation and a scan ceiling.
///
/// The engine spawns no threads, so a long search cannot be interrupted from outside. Instead
/// the index checks this periodically. The budget belongs to the search while it runs, so what is
/// set here is set before; to abandon a search that is under way, say when the user navigates
/// away, hand it a function to poll, which [`Budget::check`] calls at every check.
#[derive(Debug, Clone, Copy, PartialEq, Eq, Structural)]
pub struct Budget {
    /// Whether the operation was asked to stop.
    pub stop: bool,
    /// Candidates examined so far.
    pub examined: u64,
    /// The most candidates to examine.
    pub max_scanned: Option<u64>,
}

impl Budget {
    /// The candidates examined once `n` more are, at most the largest count there is.
    pub open spec fn plus(self, n: nat) -> u64 {
        if self.examined + n > u64::MAX {
            u64::MAX
        } else {
            (self.examined + n) as u64
        }
    }

    /// Whether examining `n` more candidates goes beyond the budget.
    pub open spec fn refuses(self, n: nat) -> bool {
        self.stop || (self.max_scanned matches Some(max) && self.plus(n) > max)
    }

    /// The budget once `n` more candidates have been examined.
    pub open spec fn spent(self, n: nat) -> Budget {
        Budget { examined: self.plus(n), ..self }
    }

    /// An unlimited budget.
    pub fn unlimited() -> (r: Self)
        ensures
            r == (Budget { stop: false, examined: 0, max_scanned: None }),
    {
        Budget { stop: false, examined: 0, max_scanned: None }
    }

    /// A budget that gives up after examining `max` candidates.
    pub fn with_max_scanned(max: u64) -> (r: Self)
        ensures
            r == (Budget { stop: false, examined: 0, max_scanned: Some(max) }),
    {
        Budget { stop: false, examined: 0, max_scanned: Some(max) }
    }

    /// Ask the operations that are given this budget from now on to stop.
    pub fn cancel(&mut self)
        ensures
            *final(self) == (Budget { stop: true, ..*old(self) }),
    {
        self.stop = true;
    }

    /// Whether cancellation was requested.
    pub fn is_cancelled(&self) -> (r: bool)
        ensures
            r == self.stop,
    {
        self.stop
    }

    /// Candidates examined so far.
    pub fn scanned(&self) -> (r: u64)
        ensures
            r == self.examined,
    {
        self.examined
    }

    /// Record progress and check whether to continue.
    ///
    /// # Errors
    /// [`DbError::Cancelled`] if cancellation was requested or the ceiling was passed. The
    /// progress is recorded either way.
    pub fn charge(&mut self, candidates: u64) -> (r: Result<(), DbError>)
        ensures
            *final(self) == old(self).spent(candidates as nat),
            if old(self).refuses(candidates as nat) {
                error::failed(r, ErrorModel::Cancelled)
            } else {
                r is Ok
            },
    {
        let total: u64 = self.examined.saturating_add(candidates);
        self.examined = total;
        if self.stop {
            return Err(DbError::Cancelled);
        }
        if let Some(max) = self.max_scanned {
            if total > max {
                return Err(DbError::Cancelled);
            }
        }
        Ok(())
    }
}

/// Whether a function that is polled for whether to stop can be called.
pub open spec fn can_poll<C: Fn() -> bool>(stop: C) -> bool {
    call_requires(stop, ())
}

/// Whether a function that is polled may answer that it is time to stop.
pub open spec fn may_stop<C: Fn() -> bool>(stop: C) -> bool {
    call_ensures(stop, (), true)
}

impl Budget {
    /// Record progress, and check the budget and `stop` for whether to continue.
    ///
    /// # Errors
    /// [`DbError::Cancelled`] if cancellation was requested, the ceiling was passed, or `stop` says
    /// to stop. The progress is recorded either way.
    pub fn check<C: Fn() -> bool>(&mut self, candidates: u64, stop: &C) -> (r: Result<(), DbError>)
        requires
            can_poll(*stop),
        ensures
            *final(self) == old(self).spent(candidates as nat),
            match r {
                Ok(()) => !old(self).refuses(candidates as nat) && call_ensures(*stop, (), false),
                Err(_) => error::failed(r, ErrorModel::Cancelled) && (old(self).refuses(
                    candidates as nat,
                ) || may_stop(*stop)),
            },
    {
        match self.charge(candidates) {
            Ok(()) => {},
            Err(e) => {
                return Err(e);
            },
        }
        if stop() {
            return Err(DbError::Cancelled);
        }
        Ok(())
    }
}

impl Default for Budget {
    fn default() -> (r: Self)
        ensures
            r == (Budget { stop: false, examined: 0, max_scanned: None }),
    {
        Budget::unlimited()
    }
}

/// One row that an index can score.
pub struct SourceRow {
    /// The row.
    pub row: RowId,
    /// Its stored vector.
    pub bytes: Seq<u8>,
    /// The bits of its cached reciprocal norm.
    pub inv_norm: u32,
}

/// Rows an index can score, and how to fetch one.
///
/// Vectors are handed over as raw bytes with their cached reciprocal norm, because that is how
/// they sit in a segment file.
pub trait VectorSource {
    /// The rows, in a stable order.
    spec fn rows(&self) -> Seq<SourceRow>;

    /// The dimension every row has.
    spec fn row_dimension(&self) -> u32;

    /// The dimension every row has.
    fn dimension(&self) -> (r: u32)
        ensures
            r == self.row_dimension(),
    ;

    /// How many rows are available.
    fn len(&self) -> (r: usize)
        ensures
            r == self.rows().len(),
    ;

    /// Whether there are no rows.
    fn is_empty(&self) -> (r: bool)
        ensures
            r == (self.rows().len() == 0),
    {
        self.len() == 0
    }

    /// Row number `i` in that order: its id, its stored vector and its reciprocal norm.
    fn row_at(&self, i: usize) -> (r: (RowId, &[u8], u32))
        requires
            i < self.rows().len(),
        ensures
            r.0 == self.rows()[i as int].row,
            r.1@ == self.rows()[i as int].bytes,
            r.2 == self.rows()[i as int].inv_norm,
    ;

    /// Fetch one row, for indexes that traverse rather than scan.
    fn vector(&self, row: RowId) -> (r: Option<(&[u8], u32)>)
        ensures
            match r {
                Some(v) => exists|i: int|
                    0 <= i < self.rows().len() && (#[trigger] self.rows()[i]).row == row
                        && self.rows()[i].bytes == v.0@ && self.rows()[i].inv_norm == v.1,
                None => forall|i: int|
                    0 <= i < self.rows().len() ==> (#[trigger] self.rows()[i]).row != row,
            },
    ;
}

/// Everything an index needs to answer one query, but for the rows and the budget.
pub struct SearchCtx<'a, L: LiveSet, P: RowPredicate> {
    /// The components of the query, as bits.
    pub query: &'a [u32],
    /// How many results to return.
    pub top_k: usize,
    /// The metric to score with.
    pub metric: Metric,
    /// Which rows are still alive.
    pub live: &'a L,
    /// An optional additional test, such as a metadata filter.
    pub filter: Option<&'a P>,
    /// The bits of the lowest score to keep, inclusive.
    pub min_score: Option<u32>,
    /// Per-index knobs.
    pub params: SearchParams,
}

impl<'a, L: LiveSet, P: RowPredicate> SearchCtx<'a, L, P> {
    /// Whether a row should be scored at all.
    pub open spec fn admitted(self, row: RowId) -> bool {
        self.live.live(row) && match self.filter {
            Some(f) => f.selects(row),
            None => true,
        }
    }

    /// Whether a row should be scored at all.
    pub fn admits(&self, row: RowId) -> (r: bool)
        ensures
            r == self.admitted(row),
    {
        self.live.is_live(row) && match self.filter {
            Some(f) => f.matches(row),
            None => true,
        }
    }
}

/// What an index reports about itself.
#[derive(Debug, Clone, Copy, PartialEq, Eq, Structural)]
pub struct IndexStats {
    /// Which algorithm.
    pub kind: IndexKind,
    /// Rows the index covers.
    pub rows: usize,
    /// Approximate memory the index itself occupies, excluding the vectors.
    pub memory_bytes: usize,
}

impl IndexStats {
    /// Report an index's counters.
    pub fn new(kind: IndexKind, rows: usize, memory_bytes: usize) -> (r: Self)
        ensures
            r == (IndexStats { kind, rows, memory_bytes }),
    {
        IndexStats { kind, rows, memory_bytes }
    }
}

/// The rows of a list that a query admits, in order.
pub open spec fn admitted_rows<L: LiveSet, P: RowPredicate>(
    ctx: SearchCtx<'_, L, P>,
    rows: Seq<SourceRow>,
) -> Seq<SourceRow>
    decreases rows.len(),
{
    if rows.len() == 0 {
        Seq::empty()
    } else if ctx.admitted(rows.last().row) {
        admitted_rows(ctx, rows.drop_last()).push(rows.last())
    } else {
        admitted_rows(ctx, rows.drop_last())
    }
}

/// Whether candidates are rows scored by a function, one for one.
pub open spec fn scored<F: Fn(Metric, &[u32], &[u8], u32) -> u32>(
    score: F,
    metric: Metric,
    query: Seq<u32>,
    rows: Seq<SourceRow>,
    offers: Seq<Candidate>,
) -> bool {
    &&& offers.len() == rows.len()
    &&& forall|i: int|
        0 <= i < rows.len() ==> (#[trigger] offers[i]).row == rows[i].row && score_of(
            score,
            metric,
            query,
            rows[i],
            offers[i].score,
        )
}

/// Whether a function may give a row this score against a query.
pub open spec fn score_of<F: Fn(Metric, &[u32], &[u8], u32) -> u32>(
    score: F,
    metric: Metric,
    query: Seq<u32>,
    row: SourceRow,
    bits: u32,
) -> bool {
    exists|q: &[u32], b: &[u8]|
        q@ == query && b@ == row.bytes && #[trigger] call_ensures(
            score,
            (metric, q, b, row.inv_norm),
            bits,
        )
}

/// Whether a scoring function can be called on anything.
pub open spec fn scores_anything<F: Fn(Metric, &[u32], &[u8], u32) -> u32>(score: F) -> bool {
    forall|m: Metric, q: &[u32], b: &[u8], n: u32| #[trigger] call_requires(score, (m, q, b, n))
}

/// Candidates examined between budget checks.
///
/// Small enough that a cancelled search stops promptly, large enough to keep the check out of
/// the inner loop.
pub const BUDGET_STRIDE: u64 = 1024;

/// How many of `n` admitted rows a scan examines under a budget: all of them, or up to the first
/// check that the budget refuses.
pub open spec fn examined_rows(b: Budget, n: nat) -> nat {
    first_refused(b, 0, n)
}

/// The first check at or beyond `at` that the budget refuses, or `n` where none before it does.
pub open spec fn first_refused(b: Budget, at: nat, n: nat) -> nat
    decreases n - at,
{
    if at + BUDGET_STRIDE > n {
        n
    } else if b.refuses(at + BUDGET_STRIDE as nat) {
        at + BUDGET_STRIDE as nat
    } else {
        first_refused(b, at + BUDGET_STRIDE as nat, n)
    }
}

/// Whether a scan of `n` admitted rows was cancelled where it may be: at a check, and no later
/// than the first that the budget refuses. Where nothing else says to stop, it is that one.
pub open spec fn halted<C: Fn() -> bool>(n: nat, stop: C, b0: Budget, b1: Budget, k: nat) -> bool {
    &&& k <= examined_rows(b0, n)
    &&& k == n || k % (BUDGET_STRIDE as nat) == 0
    &&& b1 == b0.spent(k)
    &&& may_stop(stop) || (b0.refuses(n) && k == examined_rows(b0, n))
}

/// What an exact scan of the rows that a query admits did.
///
/// Where it ran to its end, every row was scored and offered, and charged to the budget. Where it
/// was cancelled, so were those up to the check at which it was.
pub open spec fn is_scan<F: Fn(Metric, &[u32], &[u8], u32) -> u32, C: Fn() -> bool>(
    rows: Seq<SourceRow>,
    score: F,
    metric: Metric,
    query: Seq<u32>,
    stop: C,
    b0: Budget,
    b1: Budget,
    t0: TopKModel,
    t1: TopKModel,
    r: Result<(), DbError>,
) -> bool {
    match r {
        Ok(()) => {
            &&& !b0.refuses(rows.len())
            &&& call_ensures(stop, (), false)
            &&& b1 == b0.spent(rows.len())
            &&& exists|offers: Seq<Candidate>| #[trigger]
                scored(score, metric, query, rows, offers) && t1 == topk::after(t0, offers)
        },
        Err(_) => {
            &&& error::failed(r, ErrorModel::Cancelled)
            &&& exists|k: nat, offers: Seq<Candidate>|
                #![trigger halted(rows.len(), stop, b0, b1, k), topk::after(t0, offers)]
                halted(rows.len(), stop, b0, b1, k) && scored(
                    score,
                    metric,
                    query,
                    rows.take(k as int),
                    offers,
                ) && t1 == topk::after(t0, offers)
        },
    }
}

/// Whether candidates are rows of a list that a query admits.
pub open spec fn offered<L: LiveSet, P: RowPredicate>(
    ctx: SearchCtx<'_, L, P>,
    rows: Seq<SourceRow>,
    offers: Seq<Candidate>,
) -> bool {
    among(admitted_rows(ctx, rows), offers)
}

/// Whether candidates are rows of a list.
pub open spec fn among(rows: Seq<SourceRow>, offers: Seq<Candidate>) -> bool {
    forall|i: int| 0 <= i < offers.len() ==> holds_row(rows, (#[trigger] offers[i]).row)
}

/// Whether a row is among the rows of a list.
pub open spec fn holds_row(rows: Seq<SourceRow>, row: RowId) -> bool {
    exists|k: int| 0 <= k < rows.len() && (#[trigger] rows[k]).row == row
}

/// A nearest-neighbour index.
///
/// An index need not be exact, nor fit in memory, nor look at every row. It must respect the
/// live set and the row predicate of a query. One that says it is exact scores every row that the
/// query admits, in order, and checks the budget every [`BUDGET_STRIDE`] rows and at the end.
pub trait VectorIndex {
    /// Whether results are ground truth.
    spec fn exact(&self) -> bool;

    /// Which algorithm this is.
    fn kind(&self) -> (r: IndexKind);

    /// Whether results are ground truth.
    ///
    /// Surfaced to callers, so an approximate result is never mistaken for an exact one.
    fn is_exact(&self) -> (r: bool)
        ensures
            r == self.exact(),
    ;

    /// Find the best `ctx.top_k` rows, offering them to `out`. `stop` is polled for whether to
    /// give up.
    ///
    /// # Errors
    /// [`DbError::Cancelled`] if the budget was exhausted or `stop` said to stop.
    fn search<
        S: VectorSource,
        L: LiveSet,
        P: RowPredicate,
        F: Fn(Metric, &[u32], &[u8], u32) -> u32,
        C: Fn() -> bool,
    >(
        &self,
        ctx: &SearchCtx<'_, L, P>,
        source: &S,
        score: &F,
        stop: &C,
        budget: &mut Budget,
        out: &mut TopK,
    ) -> (r: Result<(), DbError>)
        requires
            scores_anything(*score),
            can_poll(*stop),
        ensures
            exists|offers: Seq<Candidate>| #[trigger]
                offered(*ctx, source.rows(), offers) && final(out)@ == topk::after(
                    old(out)@,
                    offers,
                ),
            self.exact() && ctx.top_k > 0 ==> is_scan(
                admitted_rows(*ctx, source.rows()),
                *score,
                ctx.metric,
                ctx.query@,
                *stop,
                *old(budget),
                *final(budget),
                old(out)@,
                final(out)@,
                r,
            ),
    ;

    /// Counters.
    fn stats(&self) -> (r: IndexStats);
}

/// The always-available exact scan.
///
/// Every row is scored. That is the correctness baseline everything else is compared to. It
/// holds no state and stores no vectors: it scans whatever [`VectorSource`] the query supplies,
/// so there is nothing to keep in step with the data, and a collection is searchable the instant
/// it opens.
#[derive(Debug, Clone, Copy)]
pub struct ExactScan;

impl ExactScan {
    /// Create one. It holds no state.
    pub fn new() -> (r: Self) {
        ExactScan
    }
}

impl VectorIndex for ExactScan {
    open spec fn exact(&self) -> bool {
        true
    }

    fn kind(&self) -> (r: IndexKind)
        ensures
            r == IndexKind::Flat,
    {
        IndexKind::Flat
    }

    fn is_exact(&self) -> (r: bool) {
        true
    }

    fn stats(&self) -> (r: IndexStats)
        ensures
            r == (IndexStats { kind: IndexKind::Flat, rows: 0, memory_bytes: 0 }),
    {
        IndexStats::new(IndexKind::Flat, 0, 0)
    }

    /// Find the best rows, offering every admitted one to `out` with the score that `score`
    /// gives the query's metric and components, its vector and its reciprocal norm.
    ///
    /// Dead and filtered-out rows are skipped before scoring, not after: the score is the
    /// expensive part and there is no reason to pay it for a row that cannot be returned.
    ///
    /// # Errors
    /// [`DbError::Cancelled`] if the budget was exhausted or `stop` said to stop.
    fn search<
        S: VectorSource,
        L: LiveSet,
        P: RowPredicate,
        F: Fn(Metric, &[u32], &[u8], u32) -> u32,
        C: Fn() -> bool,
    >(
        &self,
        ctx: &SearchCtx<'_, L, P>,
        source: &S,
        score: &F,
        stop: &C,
        budget: &mut Budget,
        out: &mut TopK,
    ) -> (r: Result<(), DbError>)
        ensures
            ctx.top_k == 0 ==> r is Ok && *final(budget) == *old(budget) && final(out)@ == old(
                out,
            )@,
    {
        if ctx.top_k == 0 {
            proof {
                let none = Seq::<Candidate>::empty();
                assert(offered(*ctx, source.rows(), none));
                assert(out@ == topk::after(out@, none));
            }
            return Ok(());
        }
        let n: usize = source.len();
        let mut i: usize = 0;
        let mut since_check: u64 = 0;
        let ghost all = admitted_rows(*ctx, source.rows());
        let ghost mut offers = Seq::<Candidate>::empty();
        let ghost b0 = *budget;
        proof {
            assert(source.rows().take(0) =~= Seq::empty());
            lemma_spent(b0, 0, 0);
        }
        while i < n
            invariant
                i <= n,
                n == source.rows().len(),
                since_check < BUDGET_STRIDE,
                since_check <= offers.len(),
                offers.len() == admitted_rows(*ctx, source.rows().take(i as int)).len(),
                scored(
                    *score,
                    ctx.metric,
                    ctx.query@,
                    admitted_rows(*ctx, source.rows().take(i as int)),
                    offers,
                ),
                out@ == topk::after(old(out)@, offers),
                all == admitted_rows(*ctx, source.rows()),
                b0 == *old(budget),
                *budget == b0.spent((offers.len() - since_check) as nat),
                first_refused(b0, 0, all.len()) == first_refused(
                    b0,
                    (offers.len() - since_check) as nat,
                    all.len(),
                ),
                offers.len() - since_check > 0 ==> !b0.refuses(
                    (offers.len() - since_check) as nat,
                ),
                ctx.top_k > 0,
                scores_anything(*score),
                can_poll(*stop),
                (offers.len() - since_check) % (BUDGET_STRIDE as int) == 0,
            decreases n - i,
        {
            let (row, bytes, inv_norm) = source.row_at(i);
            let ghost upto = source.rows().take(i as int);
            let ghost next = source.rows().take(i + 1);
            proof {
                assert(next.drop_last() =~= upto);
                assert(next.last() == source.rows()[i as int]);
                lemma_admitted_prefix(*ctx, source.rows(), i + 1);
            }
            i += 1;
            if !ctx.admits(row) {
                continue ;
            }
            let bits: u32 = score(ctx.metric, ctx.query, bytes, inv_norm);
            out.offer(row, bits);
            proof {
                let c = Candidate { row, score: bits };
                let before = offers;
                assert(call_ensures(*score, (ctx.metric, ctx.query, bytes, inv_norm), bits));
                assert(score_of(*score, ctx.metric, ctx.query@, source.rows()[i - 1], bits));
                offers = before.push(c);
                assert(offers.drop_last() =~= before);
                let rows = admitted_rows(*ctx, next);
                assert(rows == admitted_rows(*ctx, upto).push(source.rows()[i - 1]));
                assert(scored(*score, ctx.metric, ctx.query@, rows, offers)) by {
                    assert forall|j: int| 0 <= j < rows.len() implies (#[trigger] offers[j]).row
                        == rows[j].row && score_of(
                        *score,
                        ctx.metric,
                        ctx.query@,
                        rows[j],
                        offers[j].score,
                    ) by {
                        if j < before.len() {
                            assert(before[j].row == admitted_rows(*ctx, upto)[j].row);
                        }
                    }
                }
            }
            since_check += 1;
            if since_check >= BUDGET_STRIDE {
                proof {
                    lemma_spent(b0, (offers.len() - since_check) as nat, since_check as nat);
                }
                match budget.check(since_check, stop) {
                    Ok(()) => {},
                    Err(e) => {
                        proof {
                            if b0.refuses(offers.len()) {
                                lemma_refuses_more(b0, offers.len(), all.len());
                            }
                            lemma_first_refused(b0, offers.len(), all.len());
                            assert(halted(all.len(), *stop, b0, *budget, offers.len()));
                            assert(all.take(offers.len() as int) =~= admitted_rows(*ctx, next));
                            assert(scored(
                                *score,
                                ctx.metric,
                                ctx.query@,
                                all.take(offers.len() as int),
                                offers,
                            ));
                            lemma_scored_is_offered(
                                *ctx,
                                source.rows(),
                                offers.len() as int,
                                *score,
                                offers,
                            );
                        }
                        return Err(e);
                    },
                }
                since_check = 0;
            }
        }
        proof {
            assert(source.rows().take(i as int) =~= source.rows());
            assert(all.take(all.len() as int) =~= all);
            lemma_spent(b0, (offers.len() - since_check) as nat, since_check as nat);
            assert(scored(*score, ctx.metric, ctx.query@, all.take(all.len() as int), offers));
            assert(first_refused(b0, 0, all.len()) == all.len());
            lemma_scored_is_offered(*ctx, source.rows(), all.len() as int, *score, offers);
        }
        let r = budget.check(since_check, stop);
        proof {
            if r is Err {
                assert(halted(all.len(), *stop, b0, *budget, all.len()));
            }
        }
        r
    }
}

impl Default for ExactScan {
    fn default() -> (r: Self) {
        ExactScan
    }
}

/// Spending in two steps is spending at once.
pub proof fn lemma_spent(b: Budget, m: nat, n: nat)
    ensures
        b.spent(0) == b,
        b.spent(m).spent(n) == b.spent(m + n),
        b.spent(m).refuses(n) == b.refuses(m + n),
{
}

/// A scan examines no more rows than there are.
pub proof fn lemma_examined(b: Budget, n: nat)
    ensures
        examined_rows(b, n) <= n,
{
    lemma_first_refused(b, 0, n);
}

proof fn lemma_first_refused(b: Budget, at: nat, n: nat)
    requires
        at <= n,
    ensures
        at <= first_refused(b, at, n) <= n,
    decreases n - at,
{
    if at + BUDGET_STRIDE <= n && !b.refuses(at + BUDGET_STRIDE as nat) {
        lemma_first_refused(b, at + BUDGET_STRIDE as nat, n);
    }
}

/// A budget that refuses some number of candidates refuses any larger number.
pub proof fn lemma_refuses_more(b: Budget, m: nat, n: nat)
    requires
        b.refuses(m),
        m <= n,
    ensures
        b.refuses(n),
{
}

/// The rows admitted from the first rows are the first of the rows admitted.
proof fn lemma_admitted_prefix<L: LiveSet, P: RowPredicate>(
    ctx: SearchCtx<'_, L, P>,
    rows: Seq<SourceRow>,
    i: int,
)
    requires
        0 <= i <= rows.len(),
    ensures
        admitted_rows(ctx, rows.take(i)).len() <= admitted_rows(ctx, rows).len(),
        admitted_rows(ctx, rows.take(i)) == admitted_rows(ctx, rows).take(
            admitted_rows(ctx, rows.take(i)).len() as int,
        ),
    decreases rows.len(),
{
    if i == rows.len() {
        assert(rows.take(i) =~= rows);
        assert(admitted_rows(ctx, rows).take(admitted_rows(ctx, rows).len() as int)
            =~= admitted_rows(ctx, rows));
    } else {
        let front = rows.drop_last();
        lemma_admitted_prefix(ctx, front, i);
        assert(front.take(i) =~= rows.take(i));
        let k = admitted_rows(ctx, rows.take(i)).len() as int;
        assert(admitted_rows(ctx, rows).take(k) =~= admitted_rows(ctx, front).take(k));
    }
}

/// Every admitted row comes from the list and is admitted by the query.
pub proof fn lemma_admitted_rows<L: LiveSet, P: RowPredicate>(
    ctx: SearchCtx<'_, L, P>,
    rows: Seq<SourceRow>,
    i: int,
)
    requires
        0 <= i < admitted_rows(ctx, rows).len(),
    ensures
        ctx.admitted(admitted_rows(ctx, rows)[i].row),
        rows.contains(admitted_rows(ctx, rows)[i]),
    decreases rows.len(),
{
    let front = rows.drop_last();
    let x = admitted_rows(ctx, rows)[i];
    if i < admitted_rows(ctx, front).len() {
        lemma_admitted_rows(ctx, front, i);
        let k = choose|k: int| 0 <= k < front.len() && front[k] == x;
        assert(rows[k] == x);
    } else {
        assert(rows[rows.len() - 1] == x);
    }
}

/// What a scan scores is what an index may offer.
proof fn lemma_scored_is_offered<
    L: LiveSet,
    P: RowPredicate,
    F: Fn(Metric, &[u32], &[u8], u32) -> u32,
>(ctx: SearchCtx<'_, L, P>, rows: Seq<SourceRow>, n: int, score: F, offers: Seq<Candidate>)
    requires
        0 <= n <= admitted_rows(ctx, rows).len(),
        scored(score, ctx.metric, ctx.query@, admitted_rows(ctx, rows).take(n), offers),
    ensures
        offered(ctx, rows, offers),
{
    assert forall|i: int| 0 <= i < offers.len() implies holds_row(
        admitted_rows(ctx, rows),
        (#[trigger] offers[i]).row,
    ) by {
        assert(offers[i].row == admitted_rows(ctx, rows).take(n)[i].row);
        assert(admitted_rows(ctx, rows)[i].row == offers[i].row);
    }
}

/// No dead row and no filtered-out row is ever offered by a scan, whatever its score.
pub proof fn lemma_scan_offers_admitted_rows_only<
    L: LiveSet,
    P: RowPredicate,
    F: Fn(Metric, &[u32], &[u8], u32) -> u32,
>(ctx: SearchCtx<'_, L, P>, rows: Seq<SourceRow>, n: int, score: F, offers: Seq<Candidate>, i: int)
    requires
        0 <= n <= admitted_rows(ctx, rows).len(),
        scored(score, ctx.metric, ctx.query@, admitted_rows(ctx, rows).take(n), offers),
        0 <= i < offers.len(),
    ensures
        ctx.admitted(offers[i].row),
{
    lemma_admitted_rows(ctx, rows, i);
    assert(offers[i].row == admitted_rows(ctx, rows).take(n)[i].row);
}

/// A budget with a ceiling refuses exactly what goes beyond it, one without refuses nothing, and one
/// that was cancelled refuses everything. What was examined is added up.
pub proof fn lemma_budgets_have_their_ceiling(b: Budget, n: nat)
    requires
        b.examined + n <= u64::MAX,
    ensures
        b.stop ==> b.refuses(n),
        !b.stop && b.max_scanned is None ==> !b.refuses(n),
        !b.stop && b.max_scanned is Some ==> (b.refuses(n) <==> b.examined + n > b.max_scanned->0),
        b.spent(n).examined == b.examined + n,
        b.spent(n).stop == b.stop,
        b.spent(n).max_scanned == b.max_scanned,
{
}

/// A scan that a budget cuts short stops at the first check that the budget refuses: checks come
/// every 1,024 rows and at the end.
pub proof fn lemma_scan_stops_at_the_first_refusal(b: Budget, n: nat)
    ensures
        ({
            let k = examined_rows(b, n);
            &&& k <= n
            &&& k < n ==> k > 0 && k % 1024 == 0 && b.refuses(k)
            &&& forall|j: nat| 0 < j < k && j % 1024 == 0 ==> !#[trigger] b.refuses(j)
        }),
{
    lemma_stops(b, 0, n);
}

proof fn lemma_stops(b: Budget, at: nat, n: nat)
    requires
        at <= n,
        at % 1024 == 0,
        forall|j: nat| 0 < j <= at && j % 1024 == 0 ==> !#[trigger] b.refuses(j),
    ensures
        ({
            let k = first_refused(b, at, n);
            &&& k <= n
            &&& k < n ==> k > 0 && k % 1024 == 0 && b.refuses(k)
            &&& forall|j: nat| 0 < j < k && j % 1024 == 0 ==> !#[trigger] b.refuses(j)
        }),
    decreases n - at,
{
    let next = at + BUDGET_STRIDE as nat;
    if next > n {
        assert forall|j: nat| 0 < j < n && j % 1024 == 0 implies !#[trigger] b.refuses(j) by {
            assert(j <= at);
        }
    } else if b.refuses(next) {
        assert forall|j: nat| 0 < j < next && j % 1024 == 0 implies !#[trigger] b.refuses(j) by {
            assert(j <= at);
        }
    } else {
        assert forall|j: nat| 0 < j <= next && j % 1024 == 0 implies !#[trigger] b.refuses(j) by {
            assert(j <= at || j == next);
        }
        lemma_stops(b, next, n);
    }
}

} // verus!
