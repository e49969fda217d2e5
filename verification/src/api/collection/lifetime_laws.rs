//! What holds of a collection from its creation on, whatever is done with it.
//!
//! A collection that was created, written to, flushed, compacted and reopened is sound: what is
//! buffered can be stored, no document is live twice, and every file has a place. Whatever is done
//! to a sound collection leaves a sound one.
use vstd::prelude::*;
use vstd::utf8::*;

use crate::api::collection;
use crate::api::collection::checkpoint;
use crate::api::collection::compaction;
use crate::api::collection::count_laws;
use crate::api::collection::crash_laws;
use crate::api::collection::laws;
use crate::api::collection::log_laws;
use crate::api::collection::open;
use crate::api::collection::staging;
use crate::api::collection::staging::ChangeModel;
use crate::api::collection::CollModel;
use crate::api::config::SpecModel;
use crate::document;
use crate::document::{IdKind, IdModel};
use crate::error::{DbError, ErrorModel};
use crate::format::catalog::CatalogModel;
use crate::format::cursor;
use crate::format::manifest::SegmentRef;
use crate::format::segment::meta;
use crate::format::value;
use crate::format::value::ValueModel;
use crate::format::value_laws;
use crate::format::wal;
use crate::format::wal::{FrameModel, OpModel};
use crate::format::wal_laws;
use crate::persistence::catalog;
use crate::persistence::flush;
use crate::persistence::flush::SegmentImage;
use crate::persistence::flush_laws;
use crate::persistence::layout_laws;
use crate::persistence::recovery;
use crate::persistence::recovery::ReplayReport;
use crate::persistence::recovery_laws;
use crate::persistence::segment;
use crate::persistence::segment::{SegmentFiles, SegmentModel};
use crate::persistence::wal::LogModel;
use crate::validation;
use crate::vector::VectorDType;
use crate::write::memtable;
use crate::write::memtable::{MemModel, RowModel};
use crate::write::memtable_laws;

verus! {

/// Whether a buffered row can be stored: its id is of the kind that the collection uses, and its
/// metadata can be written.
pub open spec fn row_sound(kind: IdKind, row: RowModel) -> bool {
    &&& document::of_kind(row.id, kind)
    &&& row.metadata matches Some(m) ==> value::storable(ValueModel::Object(m), 1)
}

/// Whether everything that is buffered can be stored.
pub open spec fn buffer_sound(kind: IdKind, m: MemModel) -> bool {
    &&& m.held()
    &&& m.fits()
    &&& forall|i: int| 0 <= i < m.rows.len() ==> row_sound(kind, #[trigger] m.rows[i])
}

/// Whether a collection is as its own operations leave it: its name makes paths, what it buffers
/// can be stored, and no document is live in two of its segments.
pub open spec fn sound(c: CollModel) -> bool {
    &&& c.wf()
    &&& flush::is_placed(c.catalog)
    &&& c.catalog.dimension > 0
    &&& buffer_sound(c.catalog.id_kind, c.memtable)
    &&& flush_laws::single(c.segments)
    &&& flush_laws::of_kind(c.catalog.id_kind, c.segments)
}

/// A collection that holds nothing yet is sound.
pub proof fn lemma_new_collection_is_sound(c: CollModel)
    requires
        c.wf(),
        validation::name_rejected(encode_utf8(c.catalog.name)) is None,
        c.catalog.dimension > 0,
        c.memtable == MemModel::empty(c.catalog.dimension, VectorDType::F32),
        c.segments.len() == 0,
    ensures
        sound(c),
{
}

/// A specification that is not refused is written and read back, and the collection that is made
/// of it is sound from the start.
pub proof fn lemma_created_collection_is_sound(spec: SpecModel, now_ms: u64, c: CollModel)
    requires
        spec.refused() is None,
        c.wf(),
        c.catalog == spec.catalog(now_ms),
        c.memtable == MemModel::empty(spec.dimension, VectorDType::F32),
        c.segments.len() == 0,
    ensures
        catalog::written(c.catalog) is Ok,
        catalog::read(spec.name, Some(catalog::written(c.catalog)->Ok_0.bytes)) == Ok::<
            CatalogModel,
            ErrorModel,
        >(c.catalog),
        sound(c),
{
    layout_laws::lemma_accepted_spec_is_written(spec, now_ms);
    lemma_new_collection_is_sound(c);
}

proof fn lemma_changes_keep_rows(kind: IdKind, stride: nat, m: MemModel, cs: Seq<ChangeModel>)
    requires
        forall|i: int| 0 <= i < m.rows.len() ==> row_sound(kind, #[trigger] m.rows[i]),
        log_laws::all_recoverable(kind, stride, cs),
    ensures
        forall|i: int|
            0 <= i < staging::applied(m, cs).rows.len() ==> row_sound(
                kind,
                #[trigger] staging::applied(m, cs).rows[i],
            ),
    decreases cs.len(),
{
    if cs.len() > 0 {
        let front = cs.drop_last();
        assert forall|i: int| 0 <= i < front.len() implies log_laws::recoverable(
            kind,
            stride,
            #[trigger] front[i],
        ) by {
            assert(front[i] == cs[i]);
        }
        lemma_changes_keep_rows(kind, stride, m, front);
        let mid = staging::applied(m, front);
        let n = staging::applied(m, cs);
        assert(log_laws::recoverable(kind, stride, cs[cs.len() - 1]));
        assert forall|i: int| 0 <= i < n.rows.len() implies row_sound(kind, #[trigger] n.rows[i]) by {
            if i < mid.rows.len() {
                assert(n.rows[i] == mid.rows[i]);
            }
        }
    }
}

/// Whatever the writes of a collection stage leaves it sound once it is applied.
pub proof fn lemma_write_keeps_sound(c: CollModel, cs: Seq<ChangeModel>)
    requires
        sound(c),
        log_laws::all_recoverable(
            c.catalog.id_kind,
            VectorDType::F32.stride(c.catalog.dimension),
            cs,
        ),
        staging::applied(c.memtable, cs).fits(),
    ensures
        sound(CollModel { memtable: staging::applied(c.memtable, cs), ..c }),
{
    let stride = VectorDType::F32.stride(c.catalog.dimension);
    assert(staging::sized(cs, stride)) by {
        assert forall|i: int| 0 <= i < cs.len() implies match #[trigger] cs[i] {
            ChangeModel::Put { vector, .. } => vector.len() == stride,
            ChangeModel::Delete { .. } => true,
        } by {
            assert(log_laws::recoverable(c.catalog.id_kind, stride, cs[i]));
        }
    }
    laws::lemma_changes_seen(c.memtable, cs, IdModel::U64(0));
    lemma_changes_keep_rows(c.catalog.id_kind, stride, c.memtable, cs);
}

proof fn lemma_frame_parts_are_short(f: FrameModel)
    requires
        wal::frame_fits(f),
    ensures
        f.op matches OpModel::Put { metadata, .. } ==> metadata.len() <= u64::MAX,
{
    if let OpModel::Put { id, vector, metadata, content } = f.op {
        reveal(wal::body_bytes);
        assert(cursor::blob_bytes(metadata).len() >= metadata.len());
        assert(wal::payload_bytes(f.op).len() >= cursor::blob_bytes(metadata).len());
        assert(wal::body_bytes(f).len() >= wal::payload_bytes(f.op).len());
    }
}

proof fn lemma_replay_keeps_rows(kind: IdKind, m: MemModel, fs: Seq<FrameModel>, norms: Seq<u32>)
    requires
        forall|i: int| 0 <= i < m.rows.len() ==> row_sound(kind, #[trigger] m.rows[i]),
        wal_laws::all_fit(fs),
        recovery::replayed(m, kind, fs, norms) is Ok,
    ensures
        forall|i: int|
            0 <= i < recovery::replayed(m, kind, fs, norms)->Ok_0.rows.len() ==> row_sound(
                kind,
                #[trigger] recovery::replayed(m, kind, fs, norms)->Ok_0.rows[i],
            ),
    decreases fs.len(),
{
    if fs.len() > 0 {
        let front = fs.drop_last();
        assert forall|i: int| 0 <= i < front.len() implies wal::frame_fits(
            #[trigger] front[i],
        ) by {
            assert(front[i] == fs[i]);
        }
        lemma_replay_keeps_rows(kind, m, front, norms.drop_last());
        let mid = recovery::replayed(m, kind, front, norms.drop_last())->Ok_0;
        let n = recovery::replayed(m, kind, fs, norms)->Ok_0;
        let f = fs[fs.len() - 1];
        assert(fs.last() == f);
        lemma_frame_parts_are_short(f);
        if let OpModel::Put { id, vector, metadata, content } = f.op {
            if metadata.len() > 0 {
                value_laws::lemma_value_canonical(metadata);
            }
        }
        assert forall|i: int| 0 <= i < n.rows.len() implies row_sound(kind, #[trigger] n.rows[i]) by {
            if i < mid.rows.len() {
                assert(n.rows[i] == mid.rows[i]);
            }
        }
    }
}

proof fn lemma_committed_fit(fs: Seq<FrameModel>, k: int)
    requires
        wal_laws::all_fit(fs),
        0 <= k <= fs.len(),
    ensures
        wal_laws::all_fit(wal::committed_prefix(fs, k)),
    decreases k,
{
    if k > 0 {
        lemma_committed_fit(fs, k - 1);
        assert(wal::frame_fits(fs[k - 1]));
    }
}

/// Whatever a log holds, what is replayed of it can be stored, as long as it fits into memory.
pub proof fn lemma_replayed_is_sound(
    kind: IdKind,
    dimension: u32,
    dtype: VectorDType,
    log: Seq<u8>,
    norms: Seq<u32>,
)
    requires
        log.len() <= u64::MAX,
        recovery::replayed(
            MemModel::empty(dimension, dtype),
            kind,
            recovery::committed_frames(log),
            norms,
        ) is Ok,
        recovery::replayed(
            MemModel::empty(dimension, dtype),
            kind,
            recovery::committed_frames(log),
            norms,
        )->Ok_0.fits(),
    ensures
        ({
            let m = recovery::replayed(
                MemModel::empty(dimension, dtype),
                kind,
                recovery::committed_frames(log),
                norms,
            )->Ok_0;
            &&& buffer_sound(kind, m)
            &&& m.wf()
            &&& m.dimension == dimension
            &&& m.dtype == dtype
        }),
{
    let empty = MemModel::empty(dimension, dtype);
    let fs = wal::scanned(log, 0).0;
    wal_laws::lemma_scan_is_canonical(log, 0);
    lemma_committed_fit(fs, fs.len() as int);
    lemma_replay_keeps_rows(kind, empty, recovery::committed_frames(log), norms);
    recovery_laws::lemma_last_write_wins(
        empty,
        kind,
        recovery::committed_frames(log),
        norms,
        IdModel::U64(0),
    );
}

/// The documents of opened segments have ids of their collection's kind.
pub proof fn lemma_opened_segments_are_of_kind(
    c: CatalogModel,
    refs: Seq<SegmentRef>,
    files: Seq<SegmentFiles>,
)
    requires
        refs.len() == files.len(),
        open::open_segments(c, refs, files) is Ok,
    ensures
        flush_laws::of_kind(c.id_kind, open::open_segments(c, refs, files)->Ok_0),
    decreases refs.len(),
{
    if refs.len() > 0 {
        lemma_opened_segments_are_of_kind(c, refs.drop_last(), files.drop_last());
        let few = open::open_segments(c, refs.drop_last(), files.drop_last())->Ok_0;
        let all = open::open_segments(c, refs, files)->Ok_0;
        assert forall|s: int, i: int|
            0 <= s < all.len() && 0 <= i < all[s].ids.len() implies document::of_kind(
            #[trigger] all[s].ids[i],
            c.id_kind,
        ) by {
            if s < few.len() {
                assert(all[s] == few[s]);
            } else {
                segment::lemma_opened_ids_are_of_kind(c, refs.last(), files.last(), i);
            }
        }
    }
}

/// A collection that was opened from its files is sound, as long as its name makes paths and no
/// document is live in two of its segments.
pub proof fn lemma_opened_is_sound<F: Fn(&[u8]) -> u32>(
    c: CollModel,
    refs: Seq<SegmentRef>,
    files: Seq<SegmentFiles>,
    log: Seq<u8>,
    norm: F,
    r: Result<ReplayReport, DbError>,
)
    requires
        c.wf(),
        flush::is_placed(c.catalog),
        c.catalog.dimension > 0,
        flush_laws::single(c.segments),
        refs.len() == files.len(),
        open::open_segments(c.catalog, refs, files) == Ok::<Seq<SegmentModel>, ErrorModel>(
            c.segments,
        ),
        recovery::replay_outcome(
            norm,
            c.catalog.id_kind,
            recovery::committed_frames(log),
            MemModel::empty(c.catalog.dimension, VectorDType::F32),
            c.memtable,
            r,
        ),
        r is Ok,
        c.memtable.fits(),
        log.len() <= u64::MAX,
    ensures
        sound(c),
{
    lemma_opened_segments_are_of_kind(c.catalog, refs, files);
    let norms = recovery::lemma_replay_succeeded(
        norm,
        c.catalog.id_kind,
        recovery::committed_frames(log),
        MemModel::empty(c.catalog.dimension, VectorDType::F32),
        c.memtable,
        r,
    );
    lemma_replayed_is_sound(
        c.catalog.id_kind,
        c.catalog.dimension,
        VectorDType::F32,
        log,
        norms,
    );
}

/// A reopen leaves a sound collection sound, whatever its log holds, as long as it can be replayed
/// and fits into memory.
pub proof fn lemma_reopen_keeps_sound(c: CollModel, log: Seq<u8>, norms: Seq<u32>)
    requires
        sound(c),
        log.len() <= u64::MAX,
        recovery::replayed(
            MemModel::empty(c.memtable.dimension, c.memtable.dtype),
            c.catalog.id_kind,
            recovery::committed_frames(log),
            norms,
        ) is Ok,
        crash_laws::reopened(c, c.segments, log, norms).memtable.fits(),
    ensures
        sound(crash_laws::reopened(c, c.segments, log, norms)),
{
    lemma_replayed_is_sound(
        c.catalog.id_kind,
        c.memtable.dimension,
        c.memtable.dtype,
        log,
        norms,
    );
}

/// What folding the buffered writes of a sound collection into a segment writes is read back: row
/// `i` of the new segment is the `i`-th live row, with its id, vector, norm, metadata and content,
/// every row is live, and there are as many as the segment's reference says.
pub proof fn lemma_flushed_memtable_reads_back(
    c: CollModel,
    id: u64,
    image: SegmentImage,
    files: SegmentFiles,
)
    requires
        sound(c),
        flush::flushed(
            c.memtable,
            c.catalog.dtype.stride(c.catalog.dimension),
            c.memtable.live(),
        ) is Ok,
        flush::is_image(
            image,
            flush::flushed(
                c.memtable,
                c.catalog.dtype.stride(c.catalog.dimension),
                c.memtable.live(),
            )->Ok_0,
        ),
        flush_laws::is_written(files, image),
    ensures
        ({
            let b = flush::flushed(
                c.memtable,
                c.catalog.dtype.stride(c.catalog.dimension),
                c.memtable.live(),
            )->Ok_0;
            let seg = SegmentRef { id, rows: b.entries.len() as u32, del_generation: 0 };
            &&& b.entries.len() == c.memtable.live().len()
            &&& segment::opened(c.catalog, seg, files) is Ok
            &&& flush_laws::holds(
                segment::opened(c.catalog, seg, files)->Ok_0,
                flush::flushed_rows(c.memtable),
            )
        }),
{
    let m = c.memtable;
    assert forall|i: int| 0 <= i < m.live().len() implies document::of_kind(
        (#[trigger] m.live()[i]).id,
        c.catalog.id_kind,
    ) && meta::record_storable(flush::row_record(m.live()[i])) by {
        memtable_laws::lemma_live_rows_are_current(m, m.rows.len(), i);
        let k = choose|k: int|
            0 <= k < m.rows.len() && #[trigger] m.rows[k] == m.live()[i] && m.found(m.rows[k].id)
                == Some(memtable::Slot::Row(k as usize));
        assert(row_sound(c.catalog.id_kind, m.rows[k]));
    }
    flush_laws::lemma_flushed_reads_back(c.catalog, id, m, image);
    assert(flush_laws::is_written(files, image));
}

/// What the steps of a flush make of a collection: a segment is built from what is buffered, older
/// copies are marked as dead, the segment is taken in as read back where it has a row, and the
/// memtable and the log are emptied.
pub open spec fn is_flush(
    c: CollModel,
    image: SegmentImage,
    files: SegmentFiles,
    left: Seq<SegmentModel>,
    d: CollModel,
) -> bool {
    let m = c.memtable;
    let built = flush::flushed(m, c.catalog.dtype.stride(c.catalog.dimension), m.live());
    let seg = SegmentRef {
        id: c.next_segment_id,
        rows: built->Ok_0.entries.len() as u32,
        del_generation: 0,
    };
    &&& built is Ok
    &&& built->Ok_0.entries.len() <= flush::most_rows()
    &&& flush::is_image(image, built->Ok_0)
    &&& flush_laws::is_written(files, image)
    &&& checkpoint::all_superseded(
        c.segments,
        left,
        checkpoint::taken(m, memtable::deleted(m.index)),
    )
    &&& d == (CollModel {
        segments: if seg.rows > 0 {
            left.push(segment::opened(c.catalog, seg, files)->Ok_0)
        } else {
            left
        },
        memtable: MemModel::empty(m.dimension, m.dtype),
        next_segment_id: (c.next_segment_id + 1) as u64,
        log: LogModel { next_txn: 1, bytes: 0, unsynced: false, ..c.log },
        ..c
    })
}

/// A flush keeps every document: a reader sees the same of each, the count is the same, nothing
/// is buffered any more, and each document is live in exactly one segment.
pub proof fn lemma_flush_keeps_every_document(
    c: CollModel,
    image: SegmentImage,
    files: SegmentFiles,
    left: Seq<SegmentModel>,
    d: CollModel,
)
    requires
        sound(c),
        is_flush(c, image, files, left, d),
        d.segments.len() <= usize::MAX,
    ensures
        sound(d),
        forall|id: IdModel| #[trigger] d.visible(id) == c.visible(id),
        forall|id: IdModel| (#[trigger] d.located(id) is Some) == (c.located(id) is Some),
        d.live_documents() == c.live_documents(),
        d.live_documents() == segment::live_on_disk(d.segments),
        d.memtable.index.len() == 0,
{
    let m = c.memtable;
    let kind = c.catalog.id_kind;
    let ids = checkpoint::taken(m, memtable::deleted(m.index));
    let b = flush::flushed(m, c.catalog.dtype.stride(c.catalog.dimension), m.live())->Ok_0;
    let seg = SegmentRef {
        id: c.next_segment_id,
        rows: b.entries.len() as u32,
        del_generation: 0,
    };
    lemma_flushed_memtable_reads_back(c, c.next_segment_id, image, files);
    let new = segment::opened(c.catalog, seg, files)->Ok_0;
    assert forall|s: int| 0 <= s < left.len() implies (#[trigger] left[s]).wf() && left[s].ids
        == c.segments[s].ids by {
        assert(checkpoint::superseded(c.segments[s], left[s], ids));
    }
    laws::lemma_flush_keeps_single(m, c.segments, left, new);
    assert forall|s: int| 0 <= s < d.segments.len() implies (#[trigger] d.segments[s]).wf() by {
        if s < left.len() {
            assert(d.segments[s] == left[s]);
        }
    }
    assert forall|s: int, i: int|
        0 <= s < d.segments.len() && 0 <= i < d.segments[s].ids.len() implies document::of_kind(
        #[trigger] d.segments[s].ids[i],
        kind,
    ) by {
        if s < left.len() {
            assert(d.segments[s] == left[s]);
            assert(document::of_kind(c.segments[s].ids[i], kind));
        } else {
            segment::lemma_opened_ids_are_of_kind(c.catalog, seg, files, i);
        }
    }
    assert(sound(d));
    assert forall|id: IdModel| #[trigger] d.visible(id) == c.visible(id) by {
        let mid = CollModel { segments: left, ..c };
        laws::lemma_supersede_keeps_documents(c, left, id);
        if seg.rows > 0 {
            let end = CollModel { segments: left.push(new), ..c };
            laws::lemma_receive_keeps_documents(mid, new, id);
            laws::lemma_checkpoint_keeps_documents(end, c.segments, left, new, id);
        } else {
            laws::lemma_tombstone_checkpoint_keeps_documents(mid, c.segments, id);
        }
    }
    assert forall|id: IdModel| (#[trigger] d.located(id) is Some) == (c.located(id) is Some) by {
        assert(d.visible(id) == c.visible(id));
        laws::lemma_located_is_visible(c, id);
        laws::lemma_located_is_visible(d, id);
    }
    lemma_same_documents_same_count(c, d);
    assert(d.memtable.live().len() == 0);
}

/// Two collections that locate the same documents count as many, where nothing is buffered in the
/// second.
proof fn lemma_same_documents_same_count(c: CollModel, d: CollModel)
    requires
        sound(c),
        sound(d),
        d.memtable.index.len() == 0,
        forall|id: IdModel| (#[trigger] d.located(id) is Some) == (c.located(id) is Some),
    ensures
        d.live_documents() == c.live_documents(),
{
    let ids = count_laws::all_live(d.segments);
    count_laws::lemma_all_live(d.segments);
    assert forall|id: IdModel| #[trigger] ids.contains(id) == (d.located(id) is Some) by {
        collection::lemma_newest(d.segments, id);
    }
    assert forall|id: IdModel| #[trigger] ids.contains(id) == (c.located(id) is Some) by {
        assert((d.located(id) is Some) == (c.located(id) is Some));
    }
    count_laws::lemma_count_is_number_of_documents(c, ids);
    count_laws::lemma_count_is_number_of_documents(d, ids);
}

/// The count of a sound collection is the number of its documents.
pub proof fn lemma_sound_count_is_number_of_documents(c: CollModel, ids: Seq<IdModel>)
    requires
        sound(c),
        ids.no_duplicates(),
        forall|id: IdModel| #[trigger] ids.contains(id) == (c.located(id) is Some),
    ensures
        c.live_documents() == ids.len(),
{
    count_laws::lemma_count_is_number_of_documents(c, ids);
}

/// What rewriting the segments of a sound collection writes is read back: the new segment has the
/// live rows of the old ones, in order, each with its id, vector, norm and record, every row is
/// live, and there are as many as were.
pub proof fn lemma_compacted_segments_read_back(
    c: CollModel,
    id: u64,
    image: SegmentImage,
    files: SegmentFiles,
)
    requires
        sound(c),
        flush::compacted(c.catalog.dtype.stride(c.catalog.dimension), c.segments) is Ok,
        flush::is_image(
            image,
            flush::compacted(c.catalog.dtype.stride(c.catalog.dimension), c.segments)->Ok_0,
        ),
        flush_laws::is_written(files, image),
    ensures
        ({
            let b = flush::compacted(
                c.catalog.dtype.stride(c.catalog.dimension),
                c.segments,
            )->Ok_0;
            let seg = SegmentRef { id, rows: b.entries.len() as u32, del_generation: 0 };
            &&& b.entries.len() == segment::live_on_disk(c.segments)
            &&& segment::opened(c.catalog, seg, files) is Ok
            &&& flush_laws::holds(
                segment::opened(c.catalog, seg, files)->Ok_0,
                flush_laws::copies(c.segments),
            )
        }),
{
    flush_laws::lemma_compacted_reads_back(c.catalog, id, c.segments, image);
    assert(flush_laws::is_written(files, image));
}

/// What rewriting the segments of a collection makes of it: one segment, as read back, in place of
/// them all, or none where no row was left.
pub open spec fn is_compaction(
    c: CollModel,
    image: SegmentImage,
    files: SegmentFiles,
    d: CollModel,
) -> bool {
    let built = flush::compacted(c.catalog.dtype.stride(c.catalog.dimension), c.segments);
    let seg = SegmentRef {
        id: c.next_segment_id,
        rows: built->Ok_0.entries.len() as u32,
        del_generation: 0,
    };
    &&& c.memtable.index.len() == 0
    &&& built is Ok
    &&& built->Ok_0.entries.len() <= flush::most_rows()
    &&& flush::is_image(image, built->Ok_0)
    &&& flush_laws::is_written(files, image)
    &&& d == (CollModel {
        segments: if seg.rows > 0 {
            seq![segment::opened(c.catalog, seg, files)->Ok_0]
        } else {
            Seq::empty()
        },
        next_segment_id: (c.next_segment_id + 1) as u64,
        ..c
    })
}

/// A compaction keeps every document: a reader sees the same of each, and the count is the same.
pub proof fn lemma_compaction_keeps_every_document(
    c: CollModel,
    image: SegmentImage,
    files: SegmentFiles,
    d: CollModel,
)
    requires
        sound(c),
        is_compaction(c, image, files, d),
    ensures
        sound(d),
        forall|id: IdModel| #[trigger] d.visible(id) == c.visible(id),
        forall|id: IdModel| (#[trigger] d.located(id) is Some) == (c.located(id) is Some),
        d.live_documents() == c.live_documents(),
{
    let stride = c.catalog.dtype.stride(c.catalog.dimension);
    let b = flush::compacted(stride, c.segments)->Ok_0;
    let seg = SegmentRef {
        id: c.next_segment_id,
        rows: b.entries.len() as u32,
        del_generation: 0,
    };
    let new = segment::opened(c.catalog, seg, files)->Ok_0;
    lemma_compacted_segments_read_back(c, c.next_segment_id, image, files);
    lemma_compaction_keeps_sound(c, image, files, d);
    flush_laws::lemma_compaction_is_build(stride, c.segments);
    flush_laws::lemma_built_len(stride, flush_laws::copies(c.segments));
    assert forall|id: IdModel| #[trigger] d.visible(id) == c.visible(id) by {
        compaction::lemma_compaction_keeps_documents(c, stride, new, id);
        let one = CollModel { segments: d.segments, ..c };
        assert(d.visible(id) == one.visible(id));
    }
    assert forall|id: IdModel| (#[trigger] d.located(id) is Some) == (c.located(id) is Some) by {
        assert(d.visible(id) == c.visible(id));
        laws::lemma_located_is_visible(c, id);
        laws::lemma_located_is_visible(d, id);
    }
    lemma_same_documents_same_count(c, d);
}

proof fn lemma_compaction_keeps_sound(
    c: CollModel,
    image: SegmentImage,
    files: SegmentFiles,
    d: CollModel,
)
    requires
        sound(c),
        is_compaction(c, image, files, d),
    ensures
        sound(d),
{
    let b = flush::compacted(c.catalog.dtype.stride(c.catalog.dimension), c.segments)->Ok_0;
    let seg = SegmentRef {
        id: c.next_segment_id,
        rows: b.entries.len() as u32,
        del_generation: 0,
    };
    lemma_compacted_segments_read_back(c, c.next_segment_id, image, files);
    assert forall|s: int, i: int|
        0 <= s < d.segments.len() && 0 <= i < d.segments[s].ids.len() implies document::of_kind(
        #[trigger] d.segments[s].ids[i],
        c.catalog.id_kind,
    ) by {
        segment::lemma_opened_ids_are_of_kind(c.catalog, seg, files, i);
    }
}

} // verus!
