//! Rewriting segments without their dead rows.
//!
//! [`Collection::compact`] builds a segment from the live rows of all the others. Once its files
//! are written, [`Collection::replace`] takes it in, as read back, in their place. The manifest
//! entry that it gives is committed, and only then are the files of the old segments deleted: a
//! crash before the commit leaves the new segment as an orphan, and one after it leaves the old
//! ones.
use vstd::prelude::*;

use crate::api::access::Access;
use crate::api::collection;
use crate::api::collection::checkpoint;
use crate::api::collection::laws;
use crate::api::collection::{count_rows, CollModel, Collection};
use crate::api::compact::CompactReport;
use crate::count;
use crate::document::IdModel;
use crate::error;
use crate::error::{DbError, ErrorModel};
use crate::format::manifest::{CollectionEntry, SegmentRef};
use crate::persistence::flush;
use crate::persistence::flush::{compact_segments, FlushResult, SegmentImage};
use crate::persistence::flush_laws;
use crate::persistence::segment;
use crate::persistence::segment::{SegmentData, SegmentFiles, SegmentModel};

verus! {

/// What is to be committed once segments have been rewritten.
#[derive(Debug)]
pub struct CompactCommit {
    /// The collection's new manifest entry.
    pub entry: CollectionEntry,
    /// Segments whose files are to be deleted after the commit.
    pub discard: Vec<u64>,
    /// What was done.
    pub report: CompactReport,
}

/// The ids of segments.
pub open spec fn ids_of(ms: Seq<SegmentModel>) -> Seq<u64> {
    ms.map_values(|m: SegmentModel| m.id)
}

/// What rewriting `before` rows of `n` segments as `after` rows did.
pub open spec fn report_of(n: nat, before: nat, after: u32) -> CompactReport {
    CompactReport {
        segments_rewritten: n as usize,
        segments_created: if after > 0 {
            1
        } else {
            0
        },
        rows_reclaimed: if before >= after {
            count::capped((before - after) as nat)
        } else {
            0
        },
    }
}

impl Collection {
    /// Build a segment from the live rows of all segments. There is nothing to do without a
    /// segment, or while writes are buffered that have yet to be folded into one.
    ///
    /// # Errors
    /// Any format or corruption error, or [`crate::error::LifecycleError`] for a handle that may
    /// not write.
    pub fn compact(&self, access: Access) -> (r: Result<
        Option<(FlushResult, SegmentImage)>,
        DbError,
    >)
        ensures
            match access.refused("compact") {
                Some(e) => error::failed(r, e),
                None => if self@.segments.len() == 0 || self@.memtable.index.len() > 0 {
                    r matches Ok(o) && o is None
                } else {
                    match flush::shape_refused(self@.catalog) {
                        Some(e) => error::failed(r, e),
                        None => match flush::compacted(
                            self@.catalog.dtype.stride(self@.catalog.dimension),
                            self@.segments,
                        ) {
                            Err(e) => error::failed(r, e),
                            Ok(b) => {
                                &&& r matches Ok(Some((result, image)))
                                &&& result.segment == (SegmentRef {
                                    id: self@.next_segment_id,
                                    rows: b.entries.len() as u32,
                                    del_generation: 0,
                                })
                                &&& b.entries.len() <= flush::most_rows()
                                &&& b.entries.len() == segment::live_on_disk(self@.segments)
                                &&& flush::is_image(image, b)
                                &&& flush::is_placed(self@.catalog) && flush_laws::single(
                                    self@.segments,
                                ) && flush_laws::of_kind(self@.catalog.id_kind, self@.segments)
                                    ==> flush_laws::reads_back(
                                    self@.catalog,
                                    result.segment,
                                    image,
                                    flush_laws::copies(self@.segments),
                                )
                            },
                        },
                    }
                },
            },
    {
        match access.check_writable("compact") {
            Ok(()) => {},
            Err(e) => {
                return Err(e);
            },
        }
        if self.segments.len() == 0 || !self.memtable.is_empty() {
            return Ok(None);
        }
        match compact_segments(&self.catalog, self.next_segment_id, &self.segments) {
            Ok(p) => Ok(Some(p)),
            Err(e) => Err(e),
        }
    }

    /// Take in a segment in place of all the others, `files` being what its files hold, and give
    /// what is to be committed. Where no row was left, there is no segment at all.
    ///
    /// # Errors
    /// Any corruption error.
    pub fn replace(&mut self, result: FlushResult, files: SegmentFiles) -> (r: Result<
        CompactCommit,
        DbError,
    >)
        requires
            old(self)@.wf(),
            old(self)@.next_segment_id < u64::MAX,
        ensures
            final(self)@.wf(),
            ({
                let c = old(self)@;
                let before = ids_of(c.segments);
                let report = report_of(
                    c.segments.len(),
                    collection::rows_on_disk(c.segments),
                    result.segment.rows,
                );
                if result.segment.rows > 0 {
                    match segment::opened(c.catalog, result.segment, files) {
                        Err(e) => error::failed(r, e) && final(self)@ == c,
                        Ok(m) => {
                            &&& r matches Ok(commit)
                            &&& final(self)@ == (CollModel {
                                segments: seq![m],
                                next_segment_id: (c.next_segment_id + 1) as u64,
                                ..c
                            })
                            &&& commit.entry@ == checkpoint::entry_of(
                                final(self)@,
                                seq![result.segment],
                            )
                            &&& commit.discard@ == before
                            &&& commit.report == report
                        },
                    }
                } else {
                    &&& r matches Ok(commit)
                    &&& final(self)@ == (CollModel {
                        segments: Seq::empty(),
                        next_segment_id: (c.next_segment_id + 1) as u64,
                        ..c
                    })
                    &&& commit.entry@ == checkpoint::entry_of(final(self)@, Seq::empty())
                    &&& commit.discard@ == before.push(result.segment.id)
                    &&& commit.report == report
                }
            }),
            r matches Ok(commit) ==> {
                &&& commit.entry@.name == old(self)@.catalog.name
                &&& commit.entry@.segments.len() == final(self)@.segments.len()
                &&& forall|i: int|
                    #![trigger commit.entry@.segments[i]]
                    0 <= i < final(self)@.segments.len() ==> commit.entry@.segments[i].id
                        == final(self)@.segments[i].id && commit.entry@.segments[i].rows
                        == final(self)@.segments[i].ids.len()
                &&& forall|i: int|
                    0 <= i < old(self)@.segments.len() ==> commit.discard@.contains(
                        (#[trigger] old(self)@.segments[i]).id,
                    )
            },
    {
        let ghost given = files;
        let rows: u128 = count_rows(&self.segments);
        let n: usize = self.segments.len();
        let mut discard: Vec<u64> = segment_ids(&self.segments);
        let mut kept: Vec<SegmentData> = Vec::new();
        let mut refs: Vec<SegmentRef> = Vec::new();
        if result.segment.rows > 0 {
            match SegmentData::open(&self.catalog, &result.segment, files) {
                Ok(s) => {
                    kept.push(s);
                    assert(flush::segment_models(kept@) =~= seq![s@]);
                },
                Err(e) => {
                    return Err(e);
                },
            }
            refs.push(result.segment);
            assert(refs@ =~= seq![result.segment]);
        } else {
            discard.push(result.segment.id);
            assert(flush::segment_models(kept@) =~= Seq::<SegmentModel>::empty());
            assert(refs@ =~= Seq::<SegmentRef>::empty());
        }
        let reclaimed: u128 = if rows >= result.segment.rows as u128 {
            rows - result.segment.rows as u128
        } else {
            0
        };
        let report = CompactReport {
            segments_rewritten: n,
            segments_created: if result.segment.rows > 0 {
                1
            } else {
                0
            },
            rows_reclaimed: if reclaimed > usize::MAX as u128 {
                usize::MAX
            } else {
                reclaimed as usize
            },
        };
        proof {
            if result.segment.rows > 0 {
                segment::lemma_opened_shape(self@.catalog, result.segment, given);
            }
            let gone = old(self)@.segments;
            assert forall|i: int| 0 <= i < gone.len() implies discard@.contains(
                (#[trigger] gone[i]).id,
            ) by {
                assert(ids_of(gone)[i] == gone[i].id);
                assert(discard@[i] == gone[i].id);
            }
        }
        self.segments = kept;
        self.next_segment_id = self.next_segment_id + 1;
        let entry = self.entry_for(refs);
        Ok(CompactCommit { entry, discard, report })
    }
}

/// The ids of open segments.
fn segment_ids(segments: &Vec<SegmentData>) -> (r: Vec<u64>)
    ensures
        r@ == ids_of(flush::segment_models(segments@)),
{
    let ghost all = ids_of(flush::segment_models(segments@));
    let mut out: Vec<u64> = Vec::new();
    let mut i: usize = 0;
    while i < segments.len()
        invariant
            i <= segments@.len(),
            all == ids_of(flush::segment_models(segments@)),
            out@ == all.take(i as int),
        decreases segments.len() - i,
    {
        out.push(segments[i].id());
        assert(all.take(i + 1) =~= all.take(i as int).push(segments@[i as int]@.id));
        i += 1;
    }
    assert(all.take(i as int) =~= all);
    out
}

/// Rewriting segments loses no document and brings none back: what a reader sees of each is the
/// same once one segment with the live rows stands in place of all.
pub proof fn lemma_compaction_keeps_documents(
    c: CollModel,
    stride: nat,
    m: SegmentModel,
    id: IdModel,
)
    requires
        c.wf(),
        flush::compacted(stride, c.segments) is Ok,
        flush_laws::holds(m, flush_laws::copies(c.segments)),
    ensures
        (CollModel { segments: seq![m], ..c }).visible(id) == c.visible(id),
        flush_laws::copies(c.segments).len() == 0 ==> (CollModel {
            segments: Seq::empty(),
            ..c
        }).visible(id) == c.visible(id),
{
    let segs = c.segments;
    let rows = flush_laws::copies(segs);
    let one = seq![m];
    collection::lemma_newest(segs, id);
    assert(one.drop_last() =~= Seq::<SegmentModel>::empty());
    assert(one.last() == m);
    assert(collection::newest(Seq::<SegmentModel>::empty(), id) is None);
    match collection::newest(segs, id) {
        Some((s, row)) => {
            flush_laws::lemma_every_live_row_is_copied(segs, s as int, row as int);
            flush_laws::lemma_rows_were_copied(stride, segs, s as int, row as int);
            let copy = flush::copied_row(segs[s as int], row)->Ok_0;
            let k = choose|k: int| 0 <= k < rows.len() && rows[k] == copy;
            assert(rows[k].id == id);
            assert(m.ids[k] == id);
            assert(m.live(k));
            segment::lemma_row_of(m, k);
            assert(m.vector(k as u32) == Ok::<Option<Seq<u8>>, ErrorModel>(Some(rows[k].vector)));
            assert(collection::newest(one, id) == Some((0usize, k as u32)));
            assert(laws::stored_version(m, k as u32) == laws::stored_version(
                segs[s as int],
                row,
            ));
        },
        None => {
            if collection::newest(one, id) is Some {
                let row = m.row_of(id)->0;
                let k = choose|k: int| 0 <= k < m.ids.len() && m.ids[k] == id;
                segment::lemma_row_of(m, k);
                assert(rows[k].id == id);
                flush_laws::lemma_only_live_rows_are_copied(segs, k);
                let (s, r) = choose|s: int, r: int|
                    0 <= s < segs.len() && 0 <= r < segs[s].ids.len() && #[trigger] segs[s].live(r)
                        && rows[k] == flush::copied_row(segs[s], r as u32)->Ok_0;
                flush_laws::lemma_rows_were_copied(stride, segs, s, r);
                assert(segs[s].wf());
                assert(segs[s].ids[r] == id);
                assert(collection::live_somewhere(segs, id));
            }
        },
    }
}

} // verus!
