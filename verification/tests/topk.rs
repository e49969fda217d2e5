use vdb::document::RowId;
use vdb::search::topk::{Candidate, TopK};

fn row(i: u32) -> RowId {
    RowId::new(0, i)
}

fn offer(top: &mut TopK, row: RowId, score: f32) -> bool {
    top.offer(row, score.to_bits())
}

#[test]
fn keeps_the_highest_scores() {
    let mut top = TopK::new(3);
    for (i, score) in [0.1f32, 0.9, 0.5, 0.7, 0.2].into_iter().enumerate() {
        offer(&mut top, row(i as u32), score);
    }
    let out = top.into_sorted();
    assert_eq!(out.len(), 3);
    assert_eq!(
        out.iter().map(|c| f32::from_bits(c.score)).collect::<Vec<_>>(),
        vec![0.9, 0.7, 0.5]
    );
}

#[test]
fn returns_everything_when_fewer_candidates_than_k() {
    let mut top = TopK::new(10);
    offer(&mut top, row(0), 1.0);
    offer(&mut top, row(1), 2.0);
    let out = top.into_sorted();
    assert_eq!(out.len(), 2);
    assert_eq!(f32::from_bits(out[0].score), 2.0);
}

#[test]
fn an_empty_collector_yields_nothing() {
    assert!(TopK::new(5).into_sorted().is_empty());
    assert!(TopK::new(0).into_sorted().is_empty());
}

/// A `k` of zero must collect nothing rather than panicking or keeping one.
#[test]
fn zero_k_keeps_nothing() {
    let mut top = TopK::new(0);
    assert!(!offer(&mut top, row(0), 1.0));
    assert!(top.is_empty());
    assert_eq!(top.considered(), 1);
}

/// Determinism: equal scores resolve by ascending row, in a fixed order, every time.
#[test]
fn ties_break_on_ascending_row() {
    let mut top = TopK::new(3);
    for i in [7u32, 2, 9, 1, 5] {
        offer(&mut top, row(i), 0.5);
    }
    let out = top.into_sorted();
    assert_eq!(
        out.iter().map(|c| c.row.row()).collect::<Vec<_>>(),
        vec![1, 2, 5]
    );
}

#[test]
fn the_same_candidates_in_any_order_give_the_same_result() {
    let scores: Vec<(u32, f32)> = (0..50)
        .map(|i| (i, ((i * 37) % 11) as f32 / 11.0))
        .collect();

    let mut forward = TopK::new(7);
    for (i, s) in &scores {
        offer(&mut forward, row(*i), *s);
    }
    let mut backward = TopK::new(7);
    for (i, s) in scores.iter().rev() {
        offer(&mut backward, row(*i), *s);
    }
    assert_eq!(forward.into_sorted(), backward.into_sorted());
}

#[test]
fn min_score_is_inclusive() {
    let mut top = TopK::new(10).with_min_score(Some(0.5f32.to_bits()));
    assert!(offer(&mut top, row(0), 0.5), "the threshold itself must qualify");
    assert!(!offer(&mut top, row(1), 0.49));
    assert!(offer(&mut top, row(2), 0.6));
    let out = top.into_sorted();
    assert_eq!(out.len(), 2);
    assert_eq!(top_scores(&out), vec![0.6, 0.5]);
    // Rejected candidates still count as considered, which is what makes the statistic
    // useful for judging filter selectivity.
}

#[test]
fn considered_counts_every_offer() {
    let mut top = TopK::new(1).with_min_score(Some(10.0f32.to_bits()));
    for i in 0..25 {
        offer(&mut top, row(i), 0.0);
    }
    assert_eq!(top.considered(), 25);
    assert!(top.is_empty());
}

#[test]
fn the_cutoff_appears_only_once_full_and_tracks_the_worst_kept() {
    let mut top = TopK::new(2);
    assert_eq!(top.cutoff().map(f32::from_bits), None);
    offer(&mut top, row(0), 1.0);
    assert_eq!(top.cutoff().map(f32::from_bits), None, "not full yet");
    offer(&mut top, row(1), 3.0);
    assert_eq!(top.cutoff().map(f32::from_bits), Some(1.0));
    offer(&mut top, row(2), 2.0);
    assert_eq!(
        top.cutoff().map(f32::from_bits),
        Some(2.0),
        "the cutoff should rise as better rows arrive"
    );
    assert!(top.is_full());
}

/// Mathematically-tied vectors of different magnitude are not bit-identical, and rank by
/// their computed scores rather than by row. Pinned so the behaviour is a decision rather
/// than an accident.
#[test]
fn scores_that_differ_by_rounding_still_rank_by_score() {
    let mut top = TopK::new(2);
    offer(&mut top, row(5), 1.000_000_1);
    offer(&mut top, row(2), 0.999_999_94);
    let out = top.into_sorted();
    assert_eq!(
        out[0].row.row(),
        5,
        "the marginally higher score ranks first"
    );

    // Whatever the order of arrival.
    let mut reversed = TopK::new(2);
    offer(&mut reversed, row(2), 0.999_999_94);
    offer(&mut reversed, row(5), 1.000_000_1);
    assert_eq!(reversed.into_sorted()[0].row.row(), 5);
}

#[test]
fn exactly_equal_scores_do_resolve_by_row() {
    let mut top = TopK::new(2);
    offer(&mut top, row(9), 0.5);
    offer(&mut top, row(3), 0.5);
    assert_eq!(top.into_sorted()[0].row.row(), 3);
}

#[test]
fn negative_scores_order_correctly() {
    // L2 produces negative scores throughout, so this is the normal case for that metric.
    let mut top = TopK::new(2);
    offer(&mut top, row(0), -100.0);
    offer(&mut top, row(1), -1.0);
    offer(&mut top, row(2), -50.0);
    let out = top.into_sorted();
    assert_eq!(top_scores(&out), vec![-1.0, -50.0]);
}

#[test]
fn rows_from_different_segments_order_by_segment_then_row() {
    let mut top = TopK::new(3);
    offer(&mut top, RowId::new(1, 0), 0.5);
    offer(&mut top, RowId::new(0, 9), 0.5);
    offer(&mut top, RowId::new(0, 1), 0.5);
    let out = top.into_sorted();
    assert_eq!(
        out.iter()
            .map(|c| (c.row.segment(), c.row.row()))
            .collect::<Vec<_>>(),
        vec![(0, 1), (0, 9), (1, 0)]
    );
}

/// Not reachable through the public API — vectors are validated finite — but the heap must
/// remain a total order regardless, rather than panicking or corrupting its invariant.
#[test]
fn a_nan_score_does_not_break_the_heap() {
    let mut top = TopK::new(2);
    offer(&mut top, row(0), f32::NAN);
    offer(&mut top, row(1), 1.0);
    offer(&mut top, row(2), 2.0);
    let out = top.into_sorted();
    assert_eq!(out.len(), 2);
    assert!(out.iter().any(|c| f32::from_bits(c.score) == 2.0));
}

fn top_scores(out: &[Candidate]) -> Vec<f32> {
    out.iter().map(|c| f32::from_bits(c.score)).collect()
}
