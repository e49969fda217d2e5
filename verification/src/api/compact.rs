//! What compaction reports.
use vstd::prelude::*;

use crate::count;

verus! {

/// What compaction did.
#[derive(Debug, Clone, Copy, PartialEq, Eq, Structural)]
pub struct CompactReport {
    /// Segments whose live rows were copied, and which are gone.
    pub segments_rewritten: usize,
    /// Segments that hold them now.
    pub segments_created: usize,
    /// Dead rows that are gone.
    pub rows_reclaimed: usize,
}

impl Default for CompactReport {
    fn default() -> (r: Self)
        ensures
            r == (CompactReport { segments_rewritten: 0, segments_created: 0, rows_reclaimed: 0 }),
    {
        CompactReport { segments_rewritten: 0, segments_created: 0, rows_reclaimed: 0 }
    }
}

/// One report and then another.
pub open spec fn joined(a: CompactReport, b: CompactReport) -> CompactReport {
    CompactReport {
        segments_rewritten: count::capped((a.segments_rewritten + b.segments_rewritten) as nat),
        segments_created: count::capped((a.segments_created + b.segments_created) as nat),
        rows_reclaimed: count::capped((a.rows_reclaimed + b.rows_reclaimed) as nat),
    }
}

/// Reports one after the other.
pub open spec fn summed(rs: Seq<CompactReport>) -> CompactReport
    decreases rs.len(),
{
    if rs.len() == 0 {
        CompactReport { segments_rewritten: 0, segments_created: 0, rows_reclaimed: 0 }
    } else {
        joined(summed(rs.drop_last()), rs.last())
    }
}

/// What compacting every collection did, given what compacting each of them did.
pub fn compact(reports: &Vec<CompactReport>) -> (r: CompactReport)
    ensures
        r == summed(reports@),
{
    let mut total = CompactReport::default();
    let mut i: usize = 0;
    assert(reports@.take(0) =~= Seq::<CompactReport>::empty());
    while i < reports.len()
        invariant
            i <= reports@.len(),
            total == summed(reports@.take(i as int)),
        decreases reports.len() - i,
    {
        let report: CompactReport = reports[i];
        assert(reports@.take(i + 1).drop_last() =~= reports@.take(i as int));
        total = CompactReport {
            segments_rewritten: total.segments_rewritten.saturating_add(
                report.segments_rewritten,
            ),
            segments_created: total.segments_created.saturating_add(report.segments_created),
            rows_reclaimed: total.rows_reclaimed.saturating_add(report.rows_reclaimed),
        };
        i += 1;
    }
    assert(reports@.take(i as int) =~= reports@);
    total
}

} // verus!
