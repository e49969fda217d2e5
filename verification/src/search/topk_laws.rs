//! What a collector keeps, told by the numbers that scores are.
use vstd::multiset::*;
use vstd::prelude::*;
use vstd::seq_lib::*;

use crate::float;
use crate::float_laws;
use crate::search::topk;
use crate::search::topk::{Candidate, TopKModel};

verus! {

/// No candidate that a collector keeps scores below its threshold as a number, and every one of them
/// was offered.
pub proof fn lemma_kept_scores_reach_the_threshold(
    t: TopKModel,
    offers: Seq<Candidate>,
    i: int,
)
    requires
        t.kept.len() == 0,
        0 <= i < topk::after(t, offers).kept.len(),
    ensures
        offers.contains(topk::after(t, offers).kept[i]),
        t.min_score matches Some(min) ==> float::finite32(min) && float::finite32(
            topk::after(t, offers).kept[i].score,
        ) ==> float_laws::value32(topk::after(t, offers).kept[i].score) >= float_laws::value32(min)
            && float::key32(topk::after(t, offers).kept[i].score) >= float::key32(min),
{
    broadcast use group_multiset_axioms;
    broadcast use group_to_multiset_ensures;

    let x = topk::after(t, offers).kept[i];
    topk::lemma_collects_the_best(t, offers);
    topk::lemma_ranking(offers, t.min_score);
    let all = topk::ranking(offers, t.min_score);
    assert(all[i] == x);
    assert(all.contains(x));
    assert(all.to_multiset().count(x) > 0);
    assert(offers.to_multiset().count(x) > 0);
    if let Some(min) = t.min_score {
        float_laws::lemma_less32_is_less(x.score, min);
        float_laws::lemma_less32_is_less(min, x.score);
    }
}

/// A candidate whose number reaches the threshold is kept, or as many as there is room for are, none
/// of them a smaller number and none of the same score from a later row.
pub proof fn lemma_reaching_scores_are_kept(t: TopKModel, offers: Seq<Candidate>, j: int)
    requires
        t.kept.len() == 0,
        0 <= j < offers.len(),
        float::finite32(offers[j].score),
        t.min_score matches Some(min) ==> float::finite32(min) && float_laws::value32(
            offers[j].score,
        ) >= float_laws::value32(min),
    ensures
        topk::after(t, offers).kept.contains(offers[j]) || (topk::after(t, offers).kept.len() == t.k && (
        forall|i: int|
            0 <= i < t.k && float::finite32(topk::after(t, offers).kept[i].score)
                ==> float_laws::value32((#[trigger] topk::after(t, offers).kept[i]).score)
                >= float_laws::value32(offers[j].score)) && (forall|i: int|
            0 <= i < t.k && (#[trigger] topk::after(t, offers).kept[i]).score == offers[j].score
                ==> topk::after(t, offers).kept[i].row.0 <= offers[j].row.0)),
{
    let c = offers[j];
    let kept = topk::after(t, offers).kept;
    assert(offers.contains(c));
    if let Some(min) = t.min_score {
        float_laws::lemma_less32_is_less(c.score, min);
    }
    topk::lemma_nothing_better_is_dropped(t, offers, c);
    if !kept.contains(c) {
        assert forall|i: int| 0 <= i < t.k && float::finite32(kept[i].score) implies
            float_laws::value32((#[trigger] kept[i]).score) >= float_laws::value32(c.score) by {
            assert(topk::not_worse(kept[i], c));
            float_laws::lemma_rank32_is_order(kept[i].score, c.score);
        }
        assert forall|i: int| 0 <= i < t.k && (#[trigger] kept[i]).score == c.score implies
            kept[i].row.0 <= c.row.0 by {
            assert(topk::not_worse(kept[i], c));
        }
    }
}

/// What is kept stands by descending number, and by ascending row where the scores are the same, and
/// there is never more of it than was asked for.
pub proof fn lemma_kept_scores_descend(t: TopKModel, offers: Seq<Candidate>, i: int, j: int)
    requires
        t.kept.len() == 0,
        0 <= i < j < topk::after(t, offers).kept.len(),
    ensures
        topk::after(t, offers).kept.len() <= t.k,
        ({
            let a = topk::after(t, offers).kept[i];
            let b = topk::after(t, offers).kept[j];
            &&& float::finite32(a.score) && float::finite32(b.score) ==> float_laws::value32(
                a.score,
            ) >= float_laws::value32(b.score)
            &&& a.score == b.score ==> a.row.0 <= b.row.0
        }),
{
    let kept = topk::after(t, offers).kept;
    topk::lemma_collects_the_best(t, offers);
    topk::lemma_ranking(offers, t.min_score);
    let all = topk::ranking(offers, t.min_score);
    assert(kept[i] == all[i] && kept[j] == all[j]);
    assert(topk::not_worse(all[i], all[j]));
    if float::finite32(kept[i].score) && float::finite32(kept[j].score) {
        float_laws::lemma_rank32_is_order(kept[i].score, kept[j].score);
    }
}

/// Offering a candidate says it was kept exactly where it is then among what is kept once more than
/// before, and it counts as considered either way.
pub proof fn lemma_offer_says_whether_it_kept(t: TopKModel, c: Candidate)
    requires
        topk::ranked(t.kept),
        t.kept.len() <= t.k,
    ensures
        t.would_keep(c) == (t.offered(c).kept.to_multiset().count(c) > t.kept.to_multiset().count(
            c,
        )),
        t.considered < u64::MAX ==> t.offered(c).considered == t.considered + 1,
{
    broadcast use group_multiset_axioms;
    broadcast use group_to_multiset_ensures;

    let s = topk::inserted(t.kept, c);
    let before = t.kept.to_multiset().count(c);
    topk::lemma_insert_ranked(t.kept, c);
    assert(s.to_multiset().count(c) == before + 1);
    if topk::reaches(c.score, t.min_score) {
        if s.len() > t.k {
            let cut = s.take(t.k as int);
            assert(cut =~= s.drop_last());
            assert(cut.push(s.last()) =~= s);
            assert(s.to_multiset() =~= cut.to_multiset().insert(s.last()));
            assert(t.offered(c).kept == cut);
            if t.k == 0 {
                assert(t.kept =~= Seq::<Candidate>::empty());
                assert(cut =~= t.kept);
            } else if topk::better(c, t.kept.last()) {
                assert(s.last() == t.kept.last());
                assert(s.last() != c);
                assert(cut.to_multiset().count(c) == before + 1);
            } else {
                assert(s == t.kept.push(c));
                assert(cut =~= t.kept);
            }
        } else {
            assert(t.offered(c).kept == s);
        }
    } else {
        assert(t.offered(c).kept == t.kept);
    }
}

} // verus!
