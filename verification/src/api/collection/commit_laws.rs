//! What a flush, a compaction and a reopen leave on disk and in the manifest.
use vstd::prelude::*;

use crate::api::collection;
use crate::api::collection::checkpoint;
use crate::api::collection::compaction;
use crate::api::collection::crash_laws;
use crate::api::collection::durable_laws;
use crate::api::collection::open;
use crate::api::collection::open::Opened;
use crate::api::collection::CollModel;
use crate::api::compact;
use crate::api::compact::CompactReport;
use crate::api::config::DatabaseConfig;
use crate::document::IdModel;
use crate::error::DbError;
use crate::format::block;
use crate::format::error::FormatError;
use crate::format::header::HEADER_LEN;
use crate::format::manifest::SegmentRef;
use crate::format::segment::tombstones;
use crate::format::segment::tombstones::BitmapModel;
use crate::format::wal;
use crate::format::wal::FrameModel;
use crate::format::wal_laws;
use crate::persistence::recovery;
use crate::persistence::recovery::ReplayReport;
use crate::persistence::segment;
use crate::persistence::segment::SegmentModel;
use crate::write::memtable::MemModel;

verus! {

/// The manifest names a segment by what it is: its id, its rows, and the generation of its bitmap.
pub proof fn lemma_segments_are_named_as_they_are(ms: Seq<SegmentModel>, i: int)
    requires
        0 <= i < ms.len(),
        ms[i].ids.len() <= u32::MAX,
    ensures
        checkpoint::refs_of(ms).len() == ms.len(),
        checkpoint::refs_of(ms)[i].id == ms[i].id,
        checkpoint::refs_of(ms)[i].rows == ms[i].ids.len(),
        checkpoint::refs_of(ms)[i].del_generation == ms[i].tombstones.generation,
{
}

/// The manifest entry of a collection has its name, the segments that are named, the highest
/// sequence that is folded into them, and as many live documents and rows as they have.
pub proof fn lemma_entry_is_as_the_collection_is(c: CollModel, refs: Seq<SegmentRef>)
    ensures
        ({
            let e = checkpoint::entry_of(c, refs);
            &&& e.name == c.catalog.name
            &&& e.segments == refs
            &&& e.index_snapshot is None
            &&& c.log.next_sequence > 0 ==> e.last_applied_wal + 1 == c.log.next_sequence
            &&& segment::live_on_disk(c.segments) <= u64::MAX ==> e.live_count
                == segment::live_on_disk(c.segments)
            &&& checkpoint::rows_named(refs) <= u64::MAX ==> e.total_rows
                == checkpoint::rows_named(refs)
        }),
{
}

/// Rows and live rows are counted segment by segment: one more segment adds its own, and takes none
/// away.
pub proof fn lemma_segments_are_counted_one_by_one(
    refs: Seq<SegmentRef>,
    r: SegmentRef,
    ms: Seq<SegmentModel>,
    m: SegmentModel,
)
    ensures
        checkpoint::rows_named(Seq::empty()) == 0,
        checkpoint::rows_named(refs.push(r)) == checkpoint::rows_named(refs) + r.rows,
        segment::live_on_disk(Seq::empty()) == 0,
        segment::live_on_disk(ms.push(m)) == segment::live_on_disk(ms) + m.tombstones.live_rows(),
        collection::rows_on_disk(Seq::empty()) == 0,
        collection::rows_on_disk(ms.push(m)) == collection::rows_on_disk(ms) + m.ids.len(),
{
    assert(refs.push(r).drop_last() =~= refs);
    assert(ms.push(m).drop_last() =~= ms);
}

/// The live rows of a bitmap are as many as there are rows whose bit is set.
pub proof fn lemma_live_rows_are_set_bits(t: BitmapModel, n: nat)
    requires
        n <= t.rows,
    ensures
        t.live_below(n) == Seq::new(n, |i: int| i).filter(|i: int| t.live(i)).len(),
    decreases n,
{
    reveal(Seq::filter);
    let all = Seq::new(n, |i: int| i);
    if n > 0 {
        lemma_live_rows_are_set_bits(t, (n - 1) as nat);
        assert(all.drop_last() =~= Seq::new((n - 1) as nat, |i: int| i));
        assert(all.last() == n - 1);
    } else {
        assert(all =~= Seq::<int>::empty());
    }
}

/// A bitmap that a flush changes moves on to the next generation; one that it leaves as it is keeps
/// its generation.
pub proof fn lemma_generations_move_on(a: SegmentModel, b: SegmentModel, ids: Seq<IdModel>)
    requires
        checkpoint::superseded(a, b, ids),
    ensures
        (exists|i: int| 0 <= i < a.ids.len() && #[trigger] a.live(i) && ids.contains(a.ids[i]))
            && a.tombstones.generation < u32::MAX ==> b.tombstones.generation
            == a.tombstones.generation + 1,
        (forall|i: int|
            0 <= i < a.ids.len() && #[trigger] a.live(i) ==> !ids.contains(a.ids[i]))
            ==> b.tombstones.generation == a.tombstones.generation && forall|i: int|
            0 <= i < a.ids.len() ==> #[trigger] b.live(i) == a.live(i),
{
    if forall|i: int| 0 <= i < a.ids.len() && #[trigger] a.live(i) ==> !ids.contains(a.ids[i]) {
        assert(!checkpoint::touched(a, ids));
    }
}

/// Every bitmap that a flush changes is written, under its segment's id, and reads back as what it
/// now is.
pub proof fn lemma_changed_bitmaps_are_written(
    a: Seq<SegmentModel>,
    b: Seq<SegmentModel>,
    ids: Seq<IdModel>,
    s: int,
) -> (k: int)
    requires
        checkpoint::all_superseded(a, b, ids),
        0 <= s < a.len(),
        exists|i: int| 0 <= i < a[s].ids.len() && #[trigger] a[s].live(i) && ids.contains(
            a[s].ids[i],
        ),
        tombstones::bitmap_bytes(b[s].tombstones).len() + HEADER_LEN + block::TRAILER_LEN
            <= usize::MAX,
    ensures
        0 <= k < checkpoint::changed_files(a, b, ids).len(),
        checkpoint::changed_files(a, b, ids)[k].segment == a[s].id,
        tombstones::decoded(checkpoint::changed_files(a, b, ids)[k].bytes) == Ok::<
            BitmapModel,
            FormatError,
        >(b[s].tombstones),
    decreases a.len(),
{
    let files = checkpoint::changed_files(a, b, ids);
    let af = a.drop_last();
    let bf = b.drop_last();
    assert(checkpoint::superseded(a[s], b[s], ids));
    assert(checkpoint::touched(a[s], ids));
    let before = checkpoint::changed_files(af, bf, ids);
    if s == a.len() - 1 {
        tombstones::lemma_bitmap_round_trip(b[s].tombstones);
        before.len() as int
    } else {
        assert(checkpoint::all_superseded(af, bf, ids)) by {
            assert forall|t: int| 0 <= t < af.len() implies checkpoint::superseded(
                #[trigger] af[t],
                bf[t],
                ids,
            ) by {
                assert(checkpoint::superseded(a[t], b[t], ids));
            }
        }
        assert(af[s] == a[s] && bf[s] == b[s]);
        let k = lemma_changed_bitmaps_are_written(af, bf, ids, s);
        assert(files[k] == before[k]);
        k
    }
}

/// A bitmap that is written belongs to a segment, and is that segment's.
pub proof fn lemma_only_bitmaps_of_segments_are_written(
    a: Seq<SegmentModel>,
    b: Seq<SegmentModel>,
    ids: Seq<IdModel>,
    k: int,
) -> (s: int)
    requires
        checkpoint::all_superseded(a, b, ids),
        0 <= k < checkpoint::changed_files(a, b, ids).len(),
    ensures
        0 <= s < a.len(),
        checkpoint::changed_files(a, b, ids)[k].segment == a[s].id,
        exists|i: int| 0 <= i < a[s].ids.len() && #[trigger] a[s].live(i) && ids.contains(
            a[s].ids[i],
        ),
    decreases a.len(),
{
    let af = a.drop_last();
    let bf = b.drop_last();
    let before = checkpoint::changed_files(af, bf, ids);
    if k < before.len() {
        assert(checkpoint::all_superseded(af, bf, ids)) by {
            assert forall|t: int| 0 <= t < af.len() implies checkpoint::superseded(
                #[trigger] af[t],
                bf[t],
                ids,
            ) by {
                assert(checkpoint::superseded(a[t], b[t], ids));
            }
        }
        let s = lemma_only_bitmaps_of_segments_are_written(af, bf, ids, k);
        assert(af[s] == a[s]);
        s
    } else {
        assert(checkpoint::touched(a[a.len() - 1], ids));
        a.len() - 1
    }
}

/// A compaction reports the segments that it rewrote, whether it made one, and the rows that are
/// gone.
pub proof fn lemma_compaction_reports_what_it_did(n: nat, before: nat, after: u32)
    requires
        n <= usize::MAX,
        after <= before <= usize::MAX,
    ensures
        ({
            let r = compaction::report_of(n, before, after);
            &&& r.segments_rewritten == n
            &&& r.segments_created == 0 <==> after == 0
            &&& r.segments_created <= 1
            &&& r.rows_reclaimed + after == before
        }),
{
}

/// The report over several collections is the sum of theirs.
pub proof fn lemma_reports_add_up(rs: Seq<CompactReport>, r: CompactReport)
    ensures
        compact::summed(Seq::empty()) == (CompactReport {
            segments_rewritten: 0,
            segments_created: 0,
            rows_reclaimed: 0,
        }),
        ({
            let a = compact::summed(rs);
            let b = compact::summed(rs.push(r));
            &&& a.segments_rewritten + r.segments_rewritten <= usize::MAX ==> b.segments_rewritten
                == a.segments_rewritten + r.segments_rewritten
            &&& a.segments_created + r.segments_created <= usize::MAX ==> b.segments_created
                == a.segments_created + r.segments_created
            &&& a.rows_reclaimed + r.rows_reclaimed <= usize::MAX ==> b.rows_reclaimed
                == a.rows_reclaimed + r.rows_reclaimed
        }),
{
    assert(rs.push(r).drop_last() =~= rs);
}

/// The next segment gets an id above every one that the manifest names, and no higher than that
/// takes.
pub proof fn lemma_next_segment_is_new(refs: Seq<SegmentRef>)
    requires
        forall|i: int| 0 <= i < refs.len() ==> (#[trigger] refs[i]).id < u64::MAX,
    ensures
        open::next_id(refs) >= 1,
        forall|i: int| 0 <= i < refs.len() ==> (#[trigger] refs[i]).id < open::next_id(refs),
        open::next_id(refs) == 1 || exists|i: int|
            0 <= i < refs.len() && (#[trigger] refs[i]).id + 1 == open::next_id(refs),
    decreases refs.len(),
{
    if refs.len() > 0 {
        let front = refs.drop_last();
        assert forall|i: int| 0 <= i < front.len() implies (#[trigger] front[i]).id < u64::MAX by {
            assert(front[i] == refs[i]);
        }
        lemma_next_segment_is_new(front);
        assert(refs[refs.len() - 1].id < u64::MAX);
        let n = open::next_id(refs);
        assert forall|i: int| 0 <= i < refs.len() implies (#[trigger] refs[i]).id < n by {
            if i < front.len() {
                assert(front[i] == refs[i]);
            }
        }
        if n != 1 && n == open::next_id(front) {
            let i = choose|i: int|
                0 <= i < front.len() && (#[trigger] front[i]).id + 1 == open::next_id(front);
            assert(refs[i] == front[i]);
        } else if n != 1 {
            assert(refs[refs.len() - 1].id + 1 == n);
        }
    }
}

/// The highest sequence of a log is that of one of its frames, and no frame has a higher one.
pub proof fn lemma_highest_sequence(fs: Seq<FrameModel>)
    ensures
        forall|i: int| 0 <= i < fs.len() ==> (#[trigger] fs[i]).sequence <= recovery::highest(fs),
        fs.len() == 0 ==> recovery::highest(fs) == 0,
        recovery::highest(fs) == 0 || exists|i: int|
            0 <= i < fs.len() && (#[trigger] fs[i]).sequence == recovery::highest(fs),
        recovery::highest_txn(fs) == 0 || exists|i: int|
            0 <= i < fs.len() && (#[trigger] fs[i]).txn_id == recovery::highest_txn(fs),
    decreases fs.len(),
{
    if fs.len() > 0 {
        let front = fs.drop_last();
        let n = fs.len() - 1;
        lemma_highest_sequence(front);
        assert forall|i: int| 0 <= i < fs.len() implies (#[trigger] fs[i]).sequence
            <= recovery::highest(fs) by {
            if i < n {
                assert(front[i] == fs[i]);
            }
        }
        if recovery::highest(fs) != 0 && recovery::highest(fs) == recovery::highest(front) {
            let i = choose|i: int|
                0 <= i < front.len() && (#[trigger] front[i]).sequence == recovery::highest(front);
            assert(fs[i] == front[i]);
        } else if recovery::highest(fs) != 0 {
            assert(fs[n].sequence == recovery::highest(fs));
        }
        if recovery::highest_txn(fs) != 0 && recovery::highest_txn(fs) == recovery::highest_txn(
            front,
        ) {
            let i = choose|i: int|
                0 <= i < front.len() && (#[trigger] front[i]).txn_id == recovery::highest_txn(
                    front,
                );
            assert(fs[i] == front[i]);
        } else if recovery::highest_txn(fs) != 0 {
            assert(fs[n].txn_id == recovery::highest_txn(fs));
        }
    }
}

/// What an open makes of the files that it is given: the collection has the specification and the
/// segments that were read, what its log says is buffered, and a log that goes on where it ends:
/// behind its last whole frame where it was torn and may be written to, with the next sequence and
/// the next group above every one in it, and with the next segment above every one that is named.
pub proof fn lemma_open_goes_on_where_the_log_ends(
    r: Result<Opened, DbError>,
    report: ReplayReport,
    c: CollModel,
    refs: Seq<SegmentRef>,
    memtable: MemModel,
    log: Seq<u8>,
    config: DatabaseConfig,
)
    requires
        open::is_opened(
            r,
            Ok::<ReplayReport, DbError>(report),
            c.catalog,
            refs,
            c.segments,
            memtable,
            log.len(),
            config,
        ),
        recovery::reports(report, log),
        !(wal::scanned(log, 0).1 is Corrupt),
        log.len() <= u64::MAX,
        forall|i: int| 0 <= i < refs.len() ==> (#[trigger] refs[i]).id < u64::MAX,
    ensures
        r is Ok,
        ({
            let o = r->Ok_0;
            let e = o.collection@;
            let (fs, tail, end) = wal::scanned(log, 0);
            &&& e.catalog == c.catalog
            &&& e.segments == c.segments
            &&& e.memtable == memtable
            &&& tail is Torn && !config.read_only ==> o.truncate_log == Some(end as u64)
                && e.log.bytes == end
            &&& !(tail is Torn) || config.read_only ==> o.truncate_log is None && e.log.bytes
                == log.len()
            &&& tail is Clean ==> e.log.bytes == end
            &&& forall|i: int|
                0 <= i < fs.len() && fs[i].sequence < u64::MAX ==> (#[trigger] fs[i]).sequence
                    < e.log.next_sequence
            &&& fs.len() == 0 ==> e.log.next_sequence == 1
            &&& forall|i: int| 0 <= i < refs.len() ==> (#[trigger] refs[i]).id < e.next_segment_id
            &&& e.log.durability == config.durability
            &&& !e.log.unsynced
            &&& e.flush_threshold == config.flush_threshold_bytes
        }),
{
    lemma_highest_sequence(wal::scanned(log, 0).0);
    lemma_next_segment_is_new(refs);
    wal_laws::lemma_scan_is_canonical(log, 0);
}

/// Opening a collection's files on a handle that may write is a reopen of it.
pub proof fn lemma_open_is_a_reopen(
    c: CollModel,
    r: Result<Opened, DbError>,
    report: ReplayReport,
    refs: Seq<SegmentRef>,
    log: Seq<u8>,
    norms: Seq<u32>,
    config: DatabaseConfig,
)
    requires
        c.memtable.dimension == c.catalog.dimension,
        open::is_opened(
            r,
            Ok::<ReplayReport, DbError>(report),
            c.catalog,
            refs,
            c.segments,
            crash_laws::reopened(c, c.segments, log, norms).memtable,
            log.len(),
            config,
        ),
        recovery::reports(report, log),
        !(wal::scanned(log, 0).1 is Corrupt),
        log.len() <= u64::MAX,
        !config.read_only,
    ensures
        r is Ok,
        durable_laws::is_reopen(c, log, norms, r->Ok_0.collection@),
{
    wal_laws::lemma_scan_is_canonical(log, 0);
    recovery::lemma_highest_txn(wal::scanned(log, 0).0);
}

} // verus!
