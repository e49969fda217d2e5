//! Opening: the segments, then the log replayed over them.
use vstd::prelude::*;

use crate::api::collection::lifetime_laws;
use crate::api::collection::{CollModel, Collection};
use crate::api::config::DatabaseConfig;
use crate::error;
use crate::error::convert;
use crate::error::{DbError, ErrorModel};
use crate::format::catalog::{Catalog, CatalogModel};
use crate::format::manifest::{CollectionEntry, SegmentRef};
use crate::format::wal;
use crate::format::wal::{FrameModel, WalTail};
use crate::path::DbPath;
use crate::persistence::flush;
use crate::persistence::flush_laws;
use crate::persistence::layout;
use crate::persistence::recovery;
use crate::persistence::recovery::{replay_into, ReplayReport};
use crate::persistence::segment;
use crate::persistence::segment::{SegmentData, SegmentFiles, SegmentModel};
use crate::persistence::wal as writer;
use crate::persistence::wal::{LogModel, WalWriter};
use crate::vector::VectorDType;
use crate::write::memtable::{MemModel, Memtable};

verus! {

/// Whether a segment is named.
pub open spec fn names(refs: Seq<SegmentRef>, id: u64) -> bool {
    exists|i: int| 0 <= i < refs.len() && (#[trigger] refs[i]).id == id
}

/// The segments among those on disk that nothing names, in order.
pub open spec fn unnamed(refs: Seq<SegmentRef>, listed: Seq<u64>) -> Seq<u64>
    decreases listed.len(),
{
    if listed.len() == 0 {
        Seq::empty()
    } else if names(refs, listed.last()) {
        unnamed(refs, listed.drop_last())
    } else {
        unnamed(refs, listed.drop_last()).push(listed.last())
    }
}

/// The segments that files hold, or the first failure.
pub open spec fn open_segments(
    c: CatalogModel,
    refs: Seq<SegmentRef>,
    files: Seq<SegmentFiles>,
) -> Result<Seq<SegmentModel>, ErrorModel>
    decreases refs.len(),
{
    if refs.len() == 0 {
        Ok(Seq::empty())
    } else {
        match open_segments(c, refs.drop_last(), files.drop_last()) {
            Err(e) => Err(e),
            Ok(ms) => match segment::opened(c, refs.last(), files.last()) {
                Err(e) => Err(e),
                Ok(m) => Ok(ms.push(m)),
            },
        }
    }
}

/// The id after the highest of segments.
pub open spec fn next_id(refs: Seq<SegmentRef>) -> u64
    decreases refs.len(),
{
    if refs.len() == 0 {
        1
    } else {
        let n = next_id(refs.drop_last());
        if refs.last().id >= n {
            (refs.last().id + 1) as u64
        } else {
            n
        }
    }
}

/// The sequence after the highest in a log.
pub open spec fn next_sequence(report: ReplayReport) -> u64 {
    if report.last_sequence == u64::MAX {
        u64::MAX
    } else {
        (report.last_sequence + 1) as u64
    }
}

/// The transaction after the highest in a log, committed or not.
pub open spec fn next_txn(report: ReplayReport) -> u64 {
    if report.last_txn == u64::MAX {
        u64::MAX
    } else {
        (report.last_txn + 1) as u64
    }
}

/// Whether the next group of a log takes in nothing that is in the log already: its id lies above
/// every id there. The last id of all is never given to a group.
pub open spec fn is_numbered(fs: Seq<FrameModel>, log: LogModel) -> bool {
    &&& log.next_txn > 0
    &&& log.next_txn == u64::MAX || writer::ids_below(fs, log.next_txn)
}

/// Where a log has to be cut before anything is appended to it, if it has to be.
///
/// A torn tail is discarded so the next append starts at a frame boundary; leaving it would put a
/// partial frame in the middle of the log, which recovery would then read as corruption rather
/// than as the interrupted write it was.
pub open spec fn cut_of(report: ReplayReport, read_only: bool) -> Option<u64> {
    if report.truncated_tail && !read_only {
        Some(report.valid_bytes)
    } else {
        None
    }
}

/// An opened collection.
#[derive(Debug)]
pub struct Opened {
    /// The collection.
    pub collection: Collection,
    /// Where its log has to be cut before anything is appended to it, if it has to be.
    pub truncate_log: Option<u64>,
}

/// Whether opening turned out as it should, once the segments are open and the log has been
/// replayed with `replay` as its outcome.
pub open spec fn is_opened(
    r: Result<Opened, DbError>,
    replay: Result<ReplayReport, DbError>,
    c: CatalogModel,
    refs: Seq<SegmentRef>,
    segments: Seq<SegmentModel>,
    memtable: MemModel,
    log_len: nat,
    config: DatabaseConfig,
) -> bool {
    match replay {
        Err(e) => error::failed(r, e@),
        Ok(report) => {
            let cut = cut_of(report, config.read_only);
            &&& r matches Ok(o)
            &&& o.truncate_log == cut
            &&& o.collection@ == (CollModel {
                catalog: c,
                memtable,
                segments,
                log: LogModel {
                    path: layout::wal_text(c.name, 1),
                    next_sequence: next_sequence(report),
                    next_txn: next_txn(report),
                    bytes: match cut {
                        Some(n) => n,
                        None => log_len as u64,
                    },
                    durability: config.durability,
                    unsynced: false,
                },
                next_segment_id: next_id(refs),
                flush_threshold: config.flush_threshold_bytes,
            })
            &&& o.collection@.wf()
        },
    }
}

proof fn lemma_open_segments_err(
    c: CatalogModel,
    refs: Seq<SegmentRef>,
    files: Seq<SegmentFiles>,
    k: int,
)
    requires
        0 <= k <= refs.len(),
        refs.len() == files.len(),
        open_segments(c, refs.take(k), files.take(k)) is Err,
    ensures
        open_segments(c, refs, files) == open_segments(c, refs.take(k), files.take(k)),
    decreases refs.len(),
{
    if k == refs.len() {
        assert(refs.take(k) =~= refs);
        assert(files.take(k) =~= files);
    } else {
        assert(refs.drop_last().take(k) =~= refs.take(k));
        assert(files.drop_last().take(k) =~= files.take(k));
        lemma_open_segments_err(c, refs.drop_last(), files.drop_last(), k);
    }
}

/// The segments on disk that an entry does not name.
///
/// Segment files nothing points at are aborted flushes. Removing them keeps a later flush from
/// colliding with a stale id.
pub fn orphans(entry: &CollectionEntry, listed: &Vec<u64>) -> (r: Vec<u64>)
    ensures
        r@ == unnamed(entry.segments@, listed@),
{
    let mut out: Vec<u64> = Vec::new();
    let mut i: usize = 0;
    assert(listed@.take(0) =~= Seq::<u64>::empty());
    while i < listed.len()
        invariant
            i <= listed@.len(),
            out@ == unnamed(entry.segments@, listed@.take(i as int)),
        decreases listed.len() - i,
    {
        proof {
            let next = listed@.take(i + 1);
            assert(next.drop_last() =~= listed@.take(i as int));
        }
        if !is_named(&entry.segments, listed[i]) {
            out.push(listed[i]);
        }
        i += 1;
    }
    assert(listed@.take(i as int) =~= listed@);
    out
}

fn is_named(refs: &Vec<SegmentRef>, id: u64) -> (r: bool)
    ensures
        r == names(refs@, id),
{
    let mut i: usize = 0;
    while i < refs.len()
        invariant
            i <= refs@.len(),
            forall|k: int| 0 <= k < i ==> (#[trigger] refs@[k]).id != id,
        decreases refs.len() - i,
    {
        if refs[i].id == id {
            assert(refs@[i as int].id == id);
            return true;
        }
        i += 1;
    }
    false
}

fn highest_next(refs: &Vec<SegmentRef>) -> (r: u64)
    requires
        forall|i: int| 0 <= i < refs@.len() ==> (#[trigger] refs@[i]).id < u64::MAX,
    ensures
        r == next_id(refs@),
{
    let mut n: u64 = 1;
    let mut i: usize = 0;
    assert(refs@.take(0) =~= Seq::<SegmentRef>::empty());
    while i < refs.len()
        invariant
            i <= refs@.len(),
            n == next_id(refs@.take(i as int)),
            forall|i: int| 0 <= i < refs@.len() ==> (#[trigger] refs@[i]).id < u64::MAX,
        decreases refs.len() - i,
    {
        proof {
            let next = refs@.take(i + 1);
            assert(next.drop_last() =~= refs@.take(i as int));
            assert(refs@[i as int].id < u64::MAX);
        }
        if refs[i].id >= n {
            n = refs[i].id + 1;
        }
        i += 1;
    }
    assert(refs@.take(i as int) =~= refs@);
    n
}

fn open_all(catalog: &Catalog, refs: &Vec<SegmentRef>, files: Vec<SegmentFiles>) -> (r: Result<
    Vec<SegmentData>,
    DbError,
>)
    requires
        files@.len() == refs@.len(),
    ensures
        match open_segments(catalog@, refs@, files@) {
            Ok(ms) => {
                &&& r matches Ok(v)
                &&& flush::segment_models(v@) == ms
                &&& forall|i: int| 0 <= i < ms.len() ==> (#[trigger] ms[i]).wf()
                &&& v@.len() == ms.len()
            },
            Err(e) => error::failed(r, e),
        },
{
    let ghost all = files@;
    let mut out: Vec<SegmentData> = Vec::new();
    let mut rest = files;
    let mut i: usize = 0;
    assert(refs@.take(0) =~= Seq::<SegmentRef>::empty());
    assert(all.take(0) =~= Seq::<SegmentFiles>::empty());
    assert(flush::segment_models(out@) =~= Seq::<SegmentModel>::empty());
    assert(rest@ =~= all.skip(0));
    while i < refs.len()
        invariant
            i <= refs@.len(),
            all == files@,
            all.len() == refs@.len(),
            rest@ == all.skip(i as int),
            open_segments(catalog@, refs@.take(i as int), all.take(i as int)) == Ok::<
                Seq<SegmentModel>,
                ErrorModel,
            >(flush::segment_models(out@)),
            forall|k: int| 0 <= k < out@.len() ==> (#[trigger] out@[k])@.wf(),
        decreases refs.len() - i,
    {
        let ghost before = out@;
        proof {
            let next = refs@.take(i + 1);
            assert(next.drop_last() =~= refs@.take(i as int));
            let more = all.take(i + 1);
            assert(more.drop_last() =~= all.take(i as int));
            assert(rest@[0] == all[i as int]);
        }
        let f: SegmentFiles = rest.remove(0);
        match SegmentData::open(catalog, &refs[i], f) {
            Ok(s) => {
                out.push(s);
                assert(flush::segment_models(out@) =~= flush::segment_models(before).push(s@));
            },
            Err(e) => {
                proof {
                    lemma_open_segments_err(catalog@, refs@, all, i + 1);
                }
                return Err(e);
            },
        }
        assert(rest@ =~= all.skip(i + 1));
        i += 1;
    }
    assert(refs@.take(i as int) =~= refs@);
    assert(all.take(i as int) =~= all);
    Ok(out)
}

impl Collection {
    /// Open a collection: its segments, then its log replayed over them. `files` are the contents
    /// of the files of each segment that `entry` names, in its order; `log` is what the log
    /// holds, which is nothing where there is none; `norm` gives the bits of the reciprocal norm
    /// of a stored vector.
    ///
    /// # Errors
    /// Any corruption error.
    pub fn open<F: Fn(&[u8]) -> u32>(
        catalog: Catalog,
        entry: &CollectionEntry,
        files: Vec<SegmentFiles>,
        log: &[u8],
        config: DatabaseConfig,
        norm: F,
    ) -> (r: Result<Opened, DbError>)
        requires
            files@.len() == entry.segments@.len(),
            forall|i: int|
                0 <= i < entry.segments@.len() ==> (#[trigger] entry.segments@[i]).id < u64::MAX,
            forall|b: &[u8]| #[trigger] call_requires(norm, (b,)),
        ensures
            match open_segments(catalog@, entry.segments@, files@) {
                Err(e) => error::failed(r, e),
                Ok(segments) => match layout::path_of(layout::wal_text(catalog@.name, 1)) {
                    Err(e) => error::failed(r, e),
                    Ok(path) => match wal::scanned(log@, 0).1 {
                        WalTail::Corrupt { reason, .. } => error::failed(
                            r,
                            convert::reported(reason, path),
                        ),
                        _ => exists|replay: Result<ReplayReport, DbError>, memtable: MemModel|
                            {
                                &&& #[trigger] recovery::replay_outcome(
                                    norm,
                                    catalog@.id_kind,
                                    recovery::committed_frames(log@),
                                    MemModel::empty(catalog@.dimension, VectorDType::F32),
                                    memtable,
                                    replay,
                                )
                                &&& replay matches Ok(report) ==> recovery::reports(report, log@)
                                &&& is_opened(
                                    r,
                                    replay,
                                    catalog@,
                                    entry.segments@,
                                    segments,
                                    memtable,
                                    log@.len(),
                                    config,
                                )
                            },
                    },
                },
            },
            r matches Ok(o) ==> is_numbered(wal::scanned(log@, 0).0, o.collection@.log),
            r matches Ok(o) ==> flush::is_placed(catalog@) && catalog@.dimension > 0
                && flush_laws::single(o.collection@.segments) ==> lifetime_laws::sound(
                o.collection@,
            ),
    {
        let ghost opened_files = files@;
        let segments = match open_all(&catalog, &entry.segments, files) {
            Ok(s) => s,
            Err(e) => {
                return Err(e);
            },
        };
        let path: DbPath = match layout::wal_file(catalog.name.as_str(), 1) {
            Ok(p) => p,
            Err(e) => {
                return Err(e);
            },
        };
        let mut memtable = Memtable::new(catalog.dimension, VectorDType::F32);
        let ghost empty = memtable@;
        let ghost given = norm;
        let replay = replay_into(log, &path, catalog.id_kind, norm, &mut memtable);
        let ghost outcome = replay;
        let report: ReplayReport = match replay {
            Ok(report) => report,
            Err(e) => {
                return Err(e);
            },
        };
        let truncate_log: Option<u64> = if report.truncated_tail && !config.read_only {
            Some(report.valid_bytes)
        } else {
            None
        };
        let bytes: u64 = match truncate_log {
            Some(n) => n,
            None => log.len() as u64,
        };
        let first: u64 = report.last_sequence.saturating_add(1);
        proof {
            recovery::lemma_highest_txn(wal::scanned(log@, 0).0);
        }
        let first_txn: u64 = report.last_txn.saturating_add(1);
        let wal = WalWriter::open(path, bytes, first, first_txn, config.durability);
        let next_segment_id: u64 = highest_next(&entry.segments);
        // Reading the length establishes that the memtable is consistent.
        let _ = memtable.len();
        assert(segments.len() == segments@.len());
        let collection = Collection {
            catalog,
            memtable,
            segments,
            wal,
            next_segment_id,
            flush_threshold: config.flush_threshold_bytes,
        };
        assert(log.len() == log@.len());
        proof {
            let c = collection@;
            if flush::is_placed(c.catalog) && c.catalog.dimension > 0 && flush_laws::single(
                c.segments,
            ) {
                lifetime_laws::lemma_opened_is_sound(
                    c,
                    entry.segments@,
                    opened_files,
                    log@,
                    given,
                    outcome,
                );
            }
        }
        Ok(Opened { collection, truncate_log })
    }
}

} // verus!
