//! Bounded top-K selection.
//!
//! The best `k` candidates are kept in order, best first, so deciding whether a new candidate
//! belongs is one comparison with the last.
//!
//! # Determinism
//!
//! Equal scores are broken by ascending [`RowId`], so the same query against the same database
//! returns the same rows in the same order, every time, whatever order they were offered in.
//!
//! Two vectors that are mathematically tied usually do not produce bit-identical scores, so the
//! tie-break seldom fires for them. That is deterministic (the same arithmetic gives the same
//! answer on every machine), merely not intuitive.
//!
//! When more than `k` documents tie at the cutoff, which of them is returned is decided by row
//! order. That is stable for a given database, but it is unrelated to id order and can change
//! after a compaction rewrites rows.
use vstd::multiset::*;
use vstd::prelude::*;
use vstd::relations::*;
use vstd::seq_lib::*;

use crate::document::RowId;
use crate::float;

verus! {

/// One candidate.
#[derive(Debug, Clone, Copy, PartialEq, Eq, Structural)]
pub struct Candidate {
    /// The row.
    pub row: RowId,
    /// The bits of its score, higher being better.
    pub score: u32,
}

/// Whether one candidate ranks before another: by score, in the total order of floats, and by
/// ascending row where the scores are the same.
pub open spec fn better(a: Candidate, b: Candidate) -> bool {
    float::rank32(a.score) > float::rank32(b.score) || (a.score == b.score && a.row.0 < b.row.0)
}

/// Whether one candidate ranks before another or is the same.
pub open spec fn not_worse(a: Candidate, b: Candidate) -> bool {
    better(a, b) || a == b
}

/// Whether candidates stand best first.
pub open spec fn ranked(s: Seq<Candidate>) -> bool {
    forall|i: int, j: int| 0 <= i < j < s.len() ==> not_worse(#[trigger] s[i], #[trigger] s[j])
}

/// A list of candidates with one more put in its place, behind all that it does not beat.
pub open spec fn inserted(s: Seq<Candidate>, c: Candidate) -> Seq<Candidate>
    decreases s.len(),
{
    if s.len() == 0 || !better(c, s.last()) {
        s.push(c)
    } else {
        inserted(s.drop_last(), c).push(s.last())
    }
}

/// The first `k` of a list.
pub open spec fn first(s: Seq<Candidate>, k: nat) -> Seq<Candidate> {
    if s.len() <= k {
        s
    } else {
        s.take(k as int)
    }
}

/// What a collector holds.
pub struct TopKModel {
    /// How many it keeps.
    pub k: usize,
    /// The lowest score it keeps, if there is a threshold.
    pub min_score: Option<u32>,
    /// The candidates it has kept, best first.
    pub kept: Seq<Candidate>,
    /// How many it has been offered.
    pub considered: u64,
}

/// Whether a score reaches the threshold. The threshold itself does.
pub open spec fn reaches(score: u32, min_score: Option<u32>) -> bool {
    match min_score {
        Some(min) => !float::less32(score, min),
        None => true,
    }
}

/// A count with one more, stopping at the largest.
pub open spec fn one_more(n: u64) -> u64 {
    if n == u64::MAX {
        n
    } else {
        (n + 1) as u64
    }
}

impl TopKModel {
    /// What the collector holds after one more candidate is offered.
    pub open spec fn offered(self, c: Candidate) -> TopKModel {
        TopKModel {
            kept: if reaches(c.score, self.min_score) {
                first(inserted(self.kept, c), self.k as nat)
            } else {
                self.kept
            },
            considered: one_more(self.considered),
            ..self
        }
    }

    /// Whether a candidate offered now would be kept.
    pub open spec fn would_keep(self, c: Candidate) -> bool {
        &&& self.k > 0
        &&& reaches(c.score, self.min_score)
        &&& self.kept.len() < self.k || better(c, self.kept.last())
    }
}

/// What a collector holds after a list of candidates is offered one by one.
pub open spec fn after(t: TopKModel, offers: Seq<Candidate>) -> TopKModel
    decreases offers.len(),
{
    if offers.len() == 0 {
        t
    } else {
        after(t, offers.drop_last()).offered(offers.last())
    }
}

/// Collects the best `k` candidates seen.
#[derive(Debug)]
pub struct TopK {
    k: usize,
    kept: Vec<Candidate>,
    min_score: Option<u32>,
    considered: u64,
}

impl View for TopK {
    type V = TopKModel;

    closed spec fn view(&self) -> TopKModel {
        TopKModel {
            k: self.k,
            min_score: self.min_score,
            kept: self.kept@,
            considered: self.considered,
        }
    }
}

fn is_better(a: Candidate, b: Candidate) -> (r: bool)
    ensures
        r == better(a, b),
{
    float::rank_of32(a.score) > float::rank_of32(b.score) || (a.score == b.score && a.row.0
        < b.row.0)
}

/// Where a candidate is put.
proof fn lemma_inserted(s: Seq<Candidate>, c: Candidate, i: int)
    requires
        0 <= i <= s.len(),
        forall|j: int| i <= j < s.len() ==> better(c, #[trigger] s[j]),
        i > 0 ==> !better(c, s[i - 1]),
    ensures
        inserted(s, c) == s.insert(i, c),
    decreases s.len(),
{
    if i == s.len() {
        assert(s.insert(i, c) =~= s.push(c));
    } else {
        lemma_inserted(s.drop_last(), c, i);
        assert(s.insert(i, c) =~= s.drop_last().insert(i, c).push(s.last()));
    }
}

impl TopK {
    #[verifier::type_invariant]
    spec fn bounded(self) -> bool {
        self.kept@.len() <= self.k
    }

    /// Keep the best `k`. A `k` of zero collects nothing.
    pub fn new(k: usize) -> (r: Self)
        ensures
            r@ == (TopKModel { k, min_score: None, kept: Seq::empty(), considered: 0 }),
    {
        let kept: Vec<Candidate> = Vec::new();
        TopK { k, kept, min_score: None, considered: 0 }
    }

    /// Discard candidates scoring below `min_score`, inclusive of the threshold itself.
    #[must_use]
    pub fn with_min_score(self, min_score: Option<u32>) -> (r: Self)
        ensures
            r@ == (TopKModel { min_score, ..self@ }),
    {
        proof {
            use_type_invariant(&self);
        }
        TopK { k: self.k, kept: self.kept, min_score, considered: self.considered }
    }

    /// How many candidates were offered, including those rejected.
    pub fn considered(&self) -> (r: u64)
        ensures
            r == self@.considered,
    {
        self.considered
    }

    /// Candidates currently kept.
    pub fn len(&self) -> (r: usize)
        ensures
            r == self@.kept.len(),
            r <= self@.k,
    {
        proof {
            use_type_invariant(self);
        }
        self.kept.len()
    }

    /// Whether nothing has been kept.
    pub fn is_empty(&self) -> (r: bool)
        ensures
            r == (self@.kept.len() == 0),
    {
        self.kept.len() == 0
    }

    /// Whether the collector is full, so the cutoff is meaningful.
    pub fn is_full(&self) -> (r: bool)
        ensures
            r == (self@.kept.len() == self@.k),
    {
        proof {
            use_type_invariant(self);
        }
        self.kept.len() >= self.k
    }

    /// The lowest score currently kept, once full.
    ///
    /// An index can use this to prune: a candidate that cannot beat this cannot be in the
    /// result. `None` until the collector is full, because until then everything qualifies.
    pub fn cutoff(&self) -> (r: Option<u32>)
        ensures
            r == if self@.kept.len() == self@.k && self@.k > 0 {
                Some(self@.kept.last().score)
            } else {
                None
            },
    {
        if self.is_full() && self.kept.len() > 0 {
            Some(self.kept[self.kept.len() - 1].score)
        } else {
            None
        }
    }

    /// Offer a candidate. Returns whether it was kept.
    pub fn offer(&mut self, row: RowId, score: u32) -> (r: bool)
        ensures
            final(self)@ == old(self)@.offered(Candidate { row, score }),
            r == old(self)@.would_keep(Candidate { row, score }),
    {
        proof {
            use_type_invariant(&*self);
        }
        self.considered = self.considered.saturating_add(1);
        let c = Candidate { row, score };
        if let Some(min) = self.min_score {
            if float::is_less32(score, min) {
                return false;
            }
        }
        let ghost s = self.kept@;
        let mut i: usize = self.kept.len();
        while i > 0 && is_better(c, self.kept[i - 1])
            invariant
                i <= s.len(),
                s == self.kept@,
                forall|j: int| i <= j < s.len() ==> better(c, #[trigger] s[j]),
            decreases i,
        {
            i -= 1;
        }
        proof {
            lemma_inserted(s, c, i as int);
        }
        if i >= self.k {
            // Behind everything kept, and there is no room left.
            assert(s.len() == self.k);
            assert(s.insert(i as int, c).take(self.k as int) =~= s);
            return false;
        }
        let mut kept: Vec<Candidate> = Vec::new();
        std::mem::swap(&mut kept, &mut self.kept);
        kept.insert(i, c);
        if kept.len() > self.k {
            kept.pop();
            assert(kept@ =~= s.insert(i as int, c).take(self.k as int));
        }
        self.kept = kept;
        true
    }

    /// Drain into a vector sorted best-first, ties broken by ascending row.
    pub fn into_sorted(self) -> (r: Vec<Candidate>)
        ensures
            r@ == self@.kept,
    {
        self.kept
    }
}

/// Ranking is a total order in which only a candidate itself ties with it.
proof fn lemma_total_order()
    ensures
        total_ordering(|a: Candidate, b: Candidate| not_worse(a, b)),
{
    let leq = |a: Candidate, b: Candidate| not_worse(a, b);
    assert forall|a: Candidate, b: Candidate| #[trigger] leq(a, b) && #[trigger] leq(b, a) implies a
        == b by {
        float::lemma_rank32_injective(a.score, b.score);
    }
    assert(reflexive(leq));
    assert(antisymmetric(leq));
    assert(transitive(leq));
    assert forall|a: Candidate, b: Candidate| #[trigger] leq(a, b) || #[trigger] leq(b, a) by {
        float::lemma_rank32_injective(a.score, b.score);
    }
    assert(strongly_connected(leq));
}

/// Putting a candidate in its place keeps a list ranked, and adds the candidate to its contents.
pub proof fn lemma_insert_ranked(s: Seq<Candidate>, c: Candidate)
    requires
        ranked(s),
    ensures
        ranked(inserted(s, c)),
        inserted(s, c).to_multiset() == s.to_multiset().insert(c),
        inserted(s, c).len() == s.len() + 1,
    decreases s.len(),
{
    broadcast use group_to_multiset_ensures;

    if s.len() == 0 || !better(c, s.last()) {
        if s.len() > 0 {
            float::lemma_rank32_injective(s.last().score, c.score);
            assert forall|i: int| 0 <= i < s.len() implies not_worse(#[trigger] s[i], c) by {
                if i < s.len() - 1 {
                    assert(not_worse(s[i], s[s.len() - 1]));
                }
            }
        }
    } else {
        let front = s.drop_last();
        let last = s.last();
        lemma_insert_ranked(front, c);
        let t = inserted(front, c);
        assert(front.push(last) =~= s);
        assert forall|i: int| 0 <= i < t.len() implies not_worse(#[trigger] t[i], last) by {
            assert(t.to_multiset().contains(t[i]));
            if t[i] != c {
                assert(front.to_multiset().contains(t[i]));
                let k = choose|k: int| 0 <= k < front.len() && front[k] == t[i];
                assert(not_worse(s[k], s[s.len() - 1]));
            }
        }
        assert(t.push(last).to_multiset() =~= s.to_multiset().insert(c));
    }
}

/// Cutting a ranked list short before or after a candidate is put in leaves the same first `k`.
proof fn lemma_insert_then_cut(s: Seq<Candidate>, c: Candidate, k: nat)
    requires
        ranked(s),
    ensures
        first(inserted(first(s, k), c), k) == first(inserted(s, c), k),
    decreases s.len(),
{
    if s.len() > k {
        let front = s.drop_last();
        let short = first(s, k);
        lemma_inserted_len(front, c);
        if better(c, s.last()) {
            lemma_insert_then_cut(front, c, k);
            assert(first(front, k) =~= short);
            assert(first(inserted(s, c), k) =~= first(inserted(front, c), k));
        } else {
            if k > 0 {
                assert(not_worse(s[k - 1], s[s.len() - 1]));
                assert(short.last() == s[k - 1]);
                assert(!better(c, short.last()));
            }
            assert(first(short.push(c), k) =~= short);
            assert(first(s.push(c), k) =~= short);
        }
    }
}

proof fn lemma_inserted_len(s: Seq<Candidate>, c: Candidate)
    ensures
        inserted(s, c).len() == s.len() + 1,
    decreases s.len(),
{
    if s.len() > 0 && better(c, s.last()) {
        lemma_inserted_len(s.drop_last(), c);
    }
}

/// Every offered candidate that reaches the threshold, best first.
pub open spec fn ranking(offers: Seq<Candidate>, min_score: Option<u32>) -> Seq<Candidate>
    decreases offers.len(),
{
    if offers.len() == 0 {
        Seq::empty()
    } else if reaches(offers.last().score, min_score) {
        inserted(ranking(offers.drop_last(), min_score), offers.last())
    } else {
        ranking(offers.drop_last(), min_score)
    }
}

/// The ranking of a list of offers is ranked and holds exactly those that reach the threshold.
pub proof fn lemma_ranking(offers: Seq<Candidate>, min_score: Option<u32>)
    ensures
        ranked(ranking(offers, min_score)),
        ranking(offers, min_score).to_multiset() == offers.to_multiset().filter(
            |c: Candidate| reaches(c.score, min_score),
        ),
    decreases offers.len(),
{
    broadcast use group_multiset_axioms;
    broadcast use group_to_multiset_ensures;

    let p = |c: Candidate| reaches(c.score, min_score);
    if offers.len() == 0 {
        assert(ranking(offers, min_score).to_multiset() =~= offers.to_multiset().filter(p));
    } else {
        let front = offers.drop_last();
        let c = offers.last();
        lemma_ranking(front, min_score);
        assert(front.push(c) =~= offers);
        assert(offers.to_multiset() =~= front.to_multiset().insert(c));
        if reaches(c.score, min_score) {
            lemma_insert_ranked(ranking(front, min_score), c);
        }
        assert(ranking(offers, min_score).to_multiset() =~= offers.to_multiset().filter(p));
    }
}

/// A fresh collector keeps exactly the best `k` of what it was offered: the first `k` of the
/// ranking.
pub proof fn lemma_collects_the_best(t: TopKModel, offers: Seq<Candidate>)
    requires
        t.kept.len() == 0,
    ensures
        after(t, offers).kept == first(ranking(offers, t.min_score), t.k as nat),
        after(t, offers).k == t.k,
        after(t, offers).min_score == t.min_score,
    decreases offers.len(),
{
    if offers.len() == 0 {
        assert(t.kept =~= first(ranking(offers, t.min_score), t.k as nat));
    } else {
        let front = offers.drop_last();
        lemma_collects_the_best(t, front);
        lemma_ranking(front, t.min_score);
        lemma_insert_then_cut(ranking(front, t.min_score), offers.last(), t.k as nat);
    }
}

/// The result does not depend on the order in which candidates are offered.
pub proof fn lemma_offer_order_is_irrelevant(
    t: TopKModel,
    offers: Seq<Candidate>,
    shuffled: Seq<Candidate>,
)
    requires
        t.kept.len() == 0,
        offers.to_multiset() == shuffled.to_multiset(),
    ensures
        after(t, offers).kept == after(t, shuffled).kept,
{
    lemma_collects_the_best(t, offers);
    lemma_collects_the_best(t, shuffled);
    lemma_ranking(offers, t.min_score);
    lemma_ranking(shuffled, t.min_score);
    lemma_total_order();
    let leq = |a: Candidate, b: Candidate| not_worse(a, b);
    lemma_sorted_unique(
        ranking(offers, t.min_score),
        ranking(shuffled, t.min_score),
        leq,
    );
}

/// What is kept is ranked best first, and nothing that was offered, reaches the threshold and
/// was not kept beats anything that was.
pub proof fn lemma_nothing_better_is_dropped(t: TopKModel, offers: Seq<Candidate>, c: Candidate)
    requires
        t.kept.len() == 0,
        offers.contains(c),
        reaches(c.score, t.min_score),
    ensures
        ranked(after(t, offers).kept),
        after(t, offers).kept.contains(c) || (after(t, offers).kept.len() == t.k && forall|i: int|
            0 <= i < t.k ==> not_worse(#[trigger] after(t, offers).kept[i], c)),
{
    broadcast use group_multiset_axioms;
    broadcast use group_to_multiset_ensures;

    lemma_collects_the_best(t, offers);
    lemma_ranking(offers, t.min_score);
    let all = ranking(offers, t.min_score);
    let kept = after(t, offers).kept;
    assert(ranked(kept)) by {
        assert forall|i: int, j: int| 0 <= i < j < kept.len() implies not_worse(
            #[trigger] kept[i],
            #[trigger] kept[j],
        ) by {
            assert(kept[i] == all[i] && kept[j] == all[j]);
        }
    }
    assert(offers.to_multiset().contains(c));
    assert(all.to_multiset().contains(c));
    let at = choose|at: int| 0 <= at < all.len() && all[at] == c;
    if at < kept.len() {
        assert(kept[at] == c);
    } else {
        assert forall|i: int| 0 <= i < t.k implies not_worse(#[trigger] kept[i], c) by {
            assert(kept[i] == all[i]);
        }
    }
}

} // verus!
