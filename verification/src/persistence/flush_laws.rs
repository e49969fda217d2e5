//! What holds of written segments.
use vstd::prelude::*;
use vstd::utf8::*;

use crate::document;
use crate::document::{IdKind, IdModel};
use crate::error::ErrorModel;
use crate::float;
use crate::format::block;
use crate::format::catalog::CatalogModel;
use crate::format::crc32c;
use crate::format::cursor;
use crate::format::error::FormatError;
use crate::format::header;
use crate::format::header::{FileKind, HEADER_LEN};
use crate::format::le;
use crate::format::manifest::SegmentRef;
use crate::format::segment::directory;
use crate::format::segment::meta;
use crate::format::segment::meta::RecordModel;
use crate::format::segment::tombstones;
use crate::format::segment::tombstones::BitmapModel;
use crate::format::segment::vectors;
use crate::format::segment::vectors::VECTOR_PAD;
use crate::persistence::flush;
use crate::persistence::flush::{BuildModel, SegmentImage, SegmentRow};
use crate::persistence::layout::SegmentFile;
use crate::persistence::layout_laws;
use crate::persistence::segment;
use crate::persistence::segment::{SegmentFiles, SegmentModel};
use crate::validation;
use crate::write::memtable::MemModel;
use crate::write::memtable_laws;

verus! {

/// The vectors of rows.
pub open spec fn row_vectors(rows: Seq<SegmentRow>) -> Seq<Seq<u8>> {
    rows.map_values(|r: SegmentRow| r.vector)
}

/// The ids of rows.
pub open spec fn row_ids(rows: Seq<SegmentRow>) -> Seq<IdModel> {
    rows.map_values(|r: SegmentRow| r.id)
}

/// Whether a segment being built lists a row at a place.
spec fn lists(b: BuildModel, i: int, row: SegmentRow) -> bool {
    let e = b.entries[i];
    let id = document::id_bytes(row.id);
    let pushed = meta::record_pushed(row.record, e.meta_offset as nat);
    &&& e.inv_norm == row.inv_norm
    &&& float::finite32(e.inv_norm)
    &&& e.id_len == id.len()
    &&& e.id_offset + e.id_len <= b.heap.len()
    &&& b.heap.subrange(e.id_offset as int, e.id_offset + e.id_len) == id
    &&& pushed is Ok
    &&& e.meta_len == pushed->Ok_0.1
    &&& e.meta_len == pushed->Ok_0.0.len()
    &&& e.meta_offset + e.meta_len <= b.payload.len()
    &&& b.payload.subrange(e.meta_offset as int, e.meta_offset + e.meta_len) == pushed->Ok_0.0
}

proof fn lemma_still_lists(b: BuildModel, row: SegmentRow, i: int, listed: SegmentRow)
    requires
        flush::with_row(b, row) is Ok,
        0 <= i < b.entries.len(),
        lists(b, i, listed),
    ensures
        lists(flush::with_row(b, row)->Ok_0, i, listed),
{
    let c = flush::with_row(b, row)->Ok_0;
    let e = b.entries[i];
    assert(c.entries[i] == e);
    assert(c.heap.subrange(e.id_offset as int, e.id_offset + e.id_len) =~= b.heap.subrange(
        e.id_offset as int,
        e.id_offset + e.id_len,
    ));
    assert(c.payload.subrange(e.meta_offset as int, e.meta_offset + e.meta_len)
        =~= b.payload.subrange(e.meta_offset as int, e.meta_offset + e.meta_len));
}

proof fn lemma_now_lists(b: BuildModel, row: SegmentRow)
    requires
        flush::with_row(b, row) is Ok,
        b.payload.len() <= u64::MAX,
    ensures
        lists(flush::with_row(b, row)->Ok_0, b.entries.len() as int, row),
{
    let c = flush::with_row(b, row)->Ok_0;
    let e = c.entries[b.entries.len() as int];
    let (s, n) = meta::record_pushed(row.record, b.payload.len())->Ok_0;
    let id = document::id_bytes(row.id);
    assert(c.heap.subrange(e.id_offset as int, e.id_offset + e.id_len) =~= id);
    assert(c.payload.subrange(e.meta_offset as int, e.meta_offset + e.meta_len) =~= s);
}

proof fn lemma_built(stride: nat, rows: Seq<SegmentRow>)
    requires
        flush::built(stride, rows) is Ok,
        flush::built(stride, rows)->Ok_0.payload.len() <= u64::MAX,
    ensures
        ({
            let b = flush::built(stride, rows)->Ok_0;
            &&& b.stride == stride
            &&& b.data == vectors::joined_rows(row_vectors(rows))
            &&& b.entries.len() == rows.len()
            &&& b.entries.len() <= flush::most_rows()
            &&& forall|i: int| 0 <= i < rows.len() ==> lists(b, i, #[trigger] rows[i])
            &&& forall|i: int| 0 <= i < rows.len() ==> (#[trigger] rows[i]).vector.len() == stride
        }),
    decreases rows.len(),
{
    let b = flush::built(stride, rows)->Ok_0;
    if rows.len() == 0 {
        assert(b.data =~= vectors::joined_rows(row_vectors(rows)));
    } else {
        let front = rows.drop_last();
        let a = flush::built(stride, front)->Ok_0;
        assert(b == flush::with_row(a, rows.last())->Ok_0);
        assert(a.payload.len() <= b.payload.len());
        lemma_built(stride, front);
        assert(row_vectors(rows).drop_last() =~= row_vectors(front));
        assert forall|i: int| 0 <= i < rows.len() implies lists(b, i, #[trigger] rows[i]) by {
            if i < rows.len() - 1 {
                assert(front[i] == rows[i]);
                lemma_still_lists(a, rows.last(), i, rows[i]);
            } else {
                lemma_now_lists(a, rows.last());
            }
        }
        assert forall|i: int| 0 <= i < rows.len() implies (#[trigger] rows[i]).vector.len()
            == stride by {
            if i < rows.len() - 1 {
                assert(front[i] == rows[i]);
            }
        }
    }
}

proof fn lemma_ids_read(
    name: Seq<char>,
    kind: IdKind,
    raw: spec_fn(int) -> Seq<u8>,
    ids: Seq<IdModel>,
    n: nat,
)
    requires
        n <= ids.len(),
        forall|i: int| 0 <= i < ids.len() ==> document::of_kind(#[trigger] ids[i], kind),
        forall|i: int| 0 <= i < ids.len() ==> raw(i) == document::id_bytes(#[trigger] ids[i]),
        forall|i: int, j: int| 0 <= i < j < ids.len() ==> #[trigger] ids[i] != #[trigger] ids[j],
    ensures
        segment::read_ids(name, kind, raw, n) == Ok::<Seq<IdModel>, ErrorModel>(
            ids.take(n as int),
        ),
    decreases n,
{
    if n == 0 {
        assert(ids.take(0) =~= Seq::<IdModel>::empty());
    } else {
        lemma_ids_read(name, kind, raw, ids, (n - 1) as nat);
        let before = ids.take(n - 1);
        let id = ids[n - 1];
        document::lemma_id_round_trip(id, kind);
        assert(!before.contains(id)) by {
            if before.contains(id) {
                let i = choose|i: int| 0 <= i < before.len() && before[i] == id;
                assert(ids[i] != ids[n - 1]);
            }
        }
        assert(ids.take(n as int) =~= before.push(id));
    }
}

/// The files that an image is written as.
pub open spec fn is_written(f: SegmentFiles, image: SegmentImage) -> bool {
    &&& f.held(SegmentFile::Vectors) == Some(image.vectors@)
    &&& f.held(SegmentFile::Directory) == Some(image.directory@)
    &&& f.held(SegmentFile::Metadata) == Some(image.metadata@)
    &&& f.held(SegmentFile::Tombstones) == Some(image.tombstones@)
}

/// Whether a collection's name makes paths for a segment's files.
pub open spec fn placeable(name: Seq<char>, id: u64) -> bool {
    &&& segment::file_path(name, id, SegmentFile::Vectors) is Ok
    &&& segment::file_path(name, id, SegmentFile::Directory) is Ok
    &&& segment::file_path(name, id, SegmentFile::Metadata) is Ok
    &&& segment::file_path(name, id, SegmentFile::Tombstones) is Ok
}

/// Rows that a collection can hold: ids of its kind, each once, and records that can be stored.
pub open spec fn holdable(c: CatalogModel, rows: Seq<SegmentRow>) -> bool {
    &&& forall|i: int| 0 <= i < rows.len() ==> document::of_kind((#[trigger] rows[i]).id, c.id_kind)
    &&& forall|i: int| 0 <= i < rows.len() ==> meta::record_storable((#[trigger] rows[i]).record)
    &&& forall|i: int, j: int|
        0 <= i < j < rows.len() ==> (#[trigger] rows[i]).id != (#[trigger] rows[j]).id
}

/// Whether no document has a live row in two segments.
pub open spec fn single(segs: Seq<SegmentModel>) -> bool {
    forall|s: int, t: int, i: int, j: int|
        0 <= s < t < segs.len() && 0 <= i < segs[s].ids.len() && 0 <= j < segs[t].ids.len()
            && #[trigger] segs[s].live(i) && #[trigger] segs[t].live(j) ==> segs[s].ids[i]
            != segs[t].ids[j]
}

/// Whether the documents of segments have ids of a kind.
pub open spec fn of_kind(kind: IdKind, segs: Seq<SegmentModel>) -> bool {
    forall|s: int, i: int|
        0 <= s < segs.len() && 0 <= i < segs[s].ids.len() ==> document::of_kind(
            #[trigger] segs[s].ids[i],
            kind,
        )
}

/// Whether an open segment holds exactly these rows, all live.
pub open spec fn holds(m: SegmentModel, rows: Seq<SegmentRow>) -> bool {
    &&& m.ids == row_ids(rows)
    &&& m.wf()
    &&& forall|i: int|
        #![trigger rows[i]]
        0 <= i < rows.len() ==> {
            &&& m.live(i)
            &&& m.vector(i as u32) == Ok::<Option<Seq<u8>>, ErrorModel>(Some(rows[i].vector))
            &&& m.record(i as u32) == Ok::<RecordModel, ErrorModel>(rows[i].record)
            &&& m.entries[i].inv_norm == rows[i].inv_norm
        }
}

proof fn lemma_record_back(b: BuildModel, i: int, row: SegmentRow)
    requires
        0 <= i < b.entries.len(),
        lists(b, i, row),
        meta::record_storable(row.record),
        b.payload.len() <= usize::MAX,
    ensures
        meta::record_at(b.payload, b.entries[i]) == Ok::<RecordModel, FormatError>(row.record),
{
    let e = b.entries[i];
    let before = b.payload.take(e.meta_offset as int);
    let after = b.payload.skip(e.meta_offset + e.meta_len);
    let s = meta::record_pushed(row.record, e.meta_offset as nat)->Ok_0.0;
    assert(before.len() == e.meta_offset);
    assert(b.payload =~= before + s + after);
    meta::lemma_record_found_again(before, row.record, after, e);
}

/// The segment that a build's files make, where they can be told apart.
spec fn made(c: CatalogModel, id: u64, image: SegmentImage, b: BuildModel) -> SegmentModel {
    SegmentModel {
        id,
        dimension: c.dimension,
        dtype: c.dtype,
        vec_bytes: image.vectors@,
        meta_payload: b.payload,
        entries: b.entries,
        ids: segment::read_ids(
            c.name,
            c.id_kind,
            segment::raw_ids(directory::table_bytes(b.entries), b.heap),
            b.entries.len(),
        )->Ok_0,
        tombstones: tombstones::fresh(b.entries.len() as u32, 0),
    }
}

proof fn lemma_parts_open(
    c: CatalogModel,
    seg: SegmentRef,
    f: SegmentFiles,
    payload: Seq<u8>,
    dir: (Seq<u8>, Seq<u8>),
    bitmap: BitmapModel,
)
    requires
        placeable(c.name, seg.id),
        f.held(SegmentFile::Vectors) is Some,
        f.held(SegmentFile::Directory) is Some,
        f.held(SegmentFile::Metadata) is Some,
        f.held(SegmentFile::Tombstones) is Some,
        block::opened(f.held(SegmentFile::Metadata)->0, FileKind::Metadata) == Ok::<
            Seq<u8>,
            FormatError,
        >(payload),
        directory::opened_directory(f.held(SegmentFile::Directory)->0) == Ok::<
            (Seq<u8>, Seq<u8>),
            FormatError,
        >(dir),
        tombstones::decoded(f.held(SegmentFile::Tombstones)->0) == Ok::<BitmapModel, FormatError>(
            bitmap,
        ),
    ensures
        segment::opened(c, seg, f) == segment::assembled(
            c,
            seg,
            f.held(SegmentFile::Vectors)->0,
            payload,
            dir,
            bitmap,
        ),
{
    reveal(segment::opened);
}

proof fn lemma_files_open(
    c: CatalogModel,
    id: u64,
    image: SegmentImage,
    f: SegmentFiles,
    b: BuildModel,
)
    requires
        flush::is_image(image, b),
        is_written(f, image),
        placeable(c.name, id),
        directory::entries_sound(b.entries, b.heap.len() as int),
        b.entries.len() <= flush::most_rows(),
        segment::read_ids(
            c.name,
            c.id_kind,
            segment::raw_ids(directory::table_bytes(b.entries), b.heap),
            b.entries.len(),
        ) is Ok,
    ensures
        segment::opened(
            c,
            SegmentRef { id, rows: b.entries.len() as u32, del_generation: 0 },
            f,
        ) == Ok::<SegmentModel, ErrorModel>(made(c, id, image, b)),
{
    let n = b.entries.len();
    let seg = SegmentRef { id, rows: n as u32, del_generation: 0 };
    let table = directory::table_bytes(b.entries);
    let t = tombstones::fresh(n as u32, 0);
    lemma_image_parts(image, b);
    lemma_parts_open(c, seg, f, b.payload, (table, b.heap), t);
    lemma_assembled(c, seg, image.vectors@, b, t);
}

proof fn lemma_assembled(
    c: CatalogModel,
    seg: SegmentRef,
    vec_bytes: Seq<u8>,
    b: BuildModel,
    t: BitmapModel,
)
    requires
        b.entries.len() <= u32::MAX,
        seg.rows == b.entries.len(),
        t.rows == b.entries.len(),
        directory::table_bytes(b.entries).len() == 24 * b.entries.len(),
        forall|i: int|
            0 <= i < b.entries.len() ==> #[trigger] directory::table_entry(
                directory::table_bytes(b.entries),
                i,
            ) == Some(b.entries[i]),
        segment::read_ids(
            c.name,
            c.id_kind,
            segment::raw_ids(directory::table_bytes(b.entries), b.heap),
            b.entries.len(),
        ) is Ok,
    ensures
        segment::assembled(
            c,
            seg,
            vec_bytes,
            b.payload,
            (directory::table_bytes(b.entries), b.heap),
            t,
        ) == Ok::<SegmentModel, ErrorModel>(
            SegmentModel {
                id: seg.id,
                dimension: c.dimension,
                dtype: c.dtype,
                vec_bytes,
                meta_payload: b.payload,
                entries: b.entries,
                ids: segment::read_ids(
                    c.name,
                    c.id_kind,
                    segment::raw_ids(directory::table_bytes(b.entries), b.heap),
                    b.entries.len(),
                )->Ok_0,
                tombstones: t,
            },
        ),
{
    let table = directory::table_bytes(b.entries);
    let n = b.entries.len();
    assert(table.len() / 24 == n);
    assert(segment::table_entries(table) =~= b.entries) by {
        assert forall|i: int| 0 <= i < n implies #[trigger] segment::table_entries(table)[i]
            == b.entries[i] by {
            assert(directory::table_entry(table, i) == Some(b.entries[i]));
        }
    }
}

proof fn lemma_image_parts(image: SegmentImage, b: BuildModel)
    requires
        flush::is_image(image, b),
        directory::entries_sound(b.entries, b.heap.len() as int),
        b.entries.len() <= flush::most_rows(),
    ensures
        block::opened(image.metadata@, FileKind::Metadata) == Ok::<Seq<u8>, FormatError>(b.payload),
        directory::opened_directory(image.directory@) == Ok::<(Seq<u8>, Seq<u8>), FormatError>(
            (directory::table_bytes(b.entries), b.heap),
        ),
        tombstones::decoded(image.tombstones@) == Ok::<BitmapModel, FormatError>(
            tombstones::fresh(b.entries.len() as u32, 0),
        ),
        directory::table_bytes(b.entries).len() == 24 * b.entries.len(),
        forall|i: int|
            0 <= i < b.entries.len() ==> #[trigger] directory::table_entry(
                directory::table_bytes(b.entries),
                i,
            ) == Some(b.entries[i]),
{
    lemma_image_sizes(image, b);
    assert(image.metadata@ + Seq::<u8>::empty() =~= image.metadata@);
    block::lemma_block_round_trip(FileKind::Metadata, b.payload, Seq::empty());
    directory::lemma_directory_round_trip(b.entries, b.heap);
    tombstones::lemma_fresh_is_live(b.entries.len() as u32, 0);
    tombstones::lemma_bitmap_round_trip(tombstones::fresh(b.entries.len() as u32, 0));
}

proof fn lemma_ids_back(c: CatalogModel, rows: Seq<SegmentRow>, b: BuildModel)
    requires
        holdable(c, rows),
        b.entries.len() == rows.len(),
        forall|i: int| 0 <= i < rows.len() ==> lists(b, i, #[trigger] rows[i]),
        directory::entries_sound(b.entries, b.heap.len() as int),
        forall|i: int|
            0 <= i < b.entries.len() ==> #[trigger] directory::table_entry(
                directory::table_bytes(b.entries),
                i,
            ) == Some(b.entries[i]),
    ensures
        segment::read_ids(
            c.name,
            c.id_kind,
            segment::raw_ids(directory::table_bytes(b.entries), b.heap),
            rows.len(),
        ) == Ok::<Seq<IdModel>, ErrorModel>(row_ids(rows)),
{
    let ids = row_ids(rows);
    let table = directory::table_bytes(b.entries);
    let raw = segment::raw_ids(table, b.heap);
    assert forall|i: int| 0 <= i < ids.len() implies document::of_kind(
        #[trigger] ids[i],
        c.id_kind,
    ) by {
        assert(ids[i] == rows[i].id);
    }
    assert forall|i: int| 0 <= i < ids.len() implies raw(i) == document::id_bytes(
        #[trigger] ids[i],
    ) by {
        assert(ids[i] == rows[i].id);
        assert(lists(b, i, rows[i]));
        assert(directory::table_entry(table, i) == Some(b.entries[i]));
    }
    assert forall|i: int, j: int| 0 <= i < j < ids.len() implies #[trigger] ids[i]
        != #[trigger] ids[j] by {
        assert(rows[i].id != rows[j].id);
    }
    lemma_ids_read(c.name, c.id_kind, raw, ids, rows.len());
    assert(ids.take(rows.len() as int) =~= ids);
}

proof fn lemma_row_back(
    m: SegmentModel,
    rows: Seq<SegmentRow>,
    b: BuildModel,
    i: int,
)
    requires
        0 <= i < rows.len() <= u32::MAX,
        m.stride() > 0,
        forall|j: int| 0 <= j < rows.len() ==> (#[trigger] rows[j]).vector.len() == m.stride(),
        b.data == vectors::joined_rows(row_vectors(rows)),
        m.vec_bytes == vectors::vector_file_bytes(b.data),
        b.data.len() + VECTOR_PAD + HEADER_LEN + block::TRAILER_LEN <= usize::MAX,
        m.entries == b.entries,
        m.meta_payload == b.payload,
        b.payload.len() <= usize::MAX,
        b.entries.len() == rows.len(),
        lists(b, i, rows[i]),
        meta::record_storable(rows[i].record),
    ensures
        m.vector(i as u32) == Ok::<Option<Seq<u8>>, ErrorModel>(Some(rows[i].vector)),
        m.record(i as u32) == Ok::<RecordModel, ErrorModel>(rows[i].record),
        m.entries[i].inv_norm == rows[i].inv_norm,
{
    lemma_record_back(b, i, rows[i]);
    let vs = row_vectors(rows);
    assert forall|j: int| 0 <= j < vs.len() implies (#[trigger] vs[j]).len() == m.stride() by {
        assert(vs[j] == rows[j].vector);
    }
    vectors::lemma_vector_file_round_trip(vs, m.stride() as int, i);
    assert(vs[i] == rows[i].vector);
}

/// What was written as a segment is read back row for row: the same ids, vectors, norms and
/// records in the same order, every row live.
pub proof fn lemma_segment_reads_back(
    c: CatalogModel,
    id: u64,
    rows: Seq<SegmentRow>,
    image: SegmentImage,
    f: SegmentFiles,
)
    requires
        c.dtype.stride(c.dimension) > 0,
        flush::built(c.dtype.stride(c.dimension), rows) is Ok,
        flush::is_image(image, flush::built(c.dtype.stride(c.dimension), rows)->Ok_0),
        is_written(f, image),
        placeable(c.name, id),
        holdable(c, rows),
    ensures
        ({
            let seg = SegmentRef { id, rows: rows.len() as u32, del_generation: 0 };
            &&& segment::opened(c, seg, f) is Ok
            &&& segment::opened(c, seg, f)->Ok_0.id == id
            &&& holds(segment::opened(c, seg, f)->Ok_0, rows)
        }),
{
    let stride = c.dtype.stride(c.dimension);
    let b = flush::built(stride, rows)->Ok_0;
    lemma_image_sizes(image, b);
    lemma_built(stride, rows);
    assert(directory::entries_sound(b.entries, b.heap.len() as int)) by {
        assert forall|i: int| 0 <= i < b.entries.len() implies float::finite32(
            (#[trigger] b.entries[i]).inv_norm,
        ) && b.entries[i].id_offset + b.entries[i].id_len <= b.heap.len() by {
            assert(lists(b, i, rows[i]));
        }
    }
    directory::lemma_directory_round_trip(b.entries, b.heap);
    lemma_ids_back(c, rows, b);
    lemma_files_open(c, id, image, f, b);
    let m = made(c, id, image, b);
    tombstones::lemma_fresh_is_live(rows.len() as u32, 0);
    assert forall|i: int, j: int| 0 <= i < j < m.ids.len() implies #[trigger] m.ids[i]
        != #[trigger] m.ids[j] by {
        assert(rows[i].id != rows[j].id);
    }
    assert forall|i: int|
        #![trigger rows[i]]
        0 <= i < rows.len() implies {
        &&& m.live(i)
        &&& m.vector(i as u32) == Ok::<Option<Seq<u8>>, ErrorModel>(Some(rows[i].vector))
        &&& m.record(i as u32) == Ok::<RecordModel, ErrorModel>(rows[i].record)
        &&& m.entries[i].inv_norm == rows[i].inv_norm
    } by {
        lemma_row_back(m, rows, b, i);
    }
}

/// The rows that copying the live ones of the first `n` rows of a segment gives.
pub open spec fn copies_below(m: SegmentModel, n: nat) -> Seq<SegmentRow>
    decreases n,
{
    if n == 0 {
        Seq::empty()
    } else if m.live(n - 1) {
        copies_below(m, (n - 1) as nat).push(flush::copied_row(m, (n - 1) as u32)->Ok_0)
    } else {
        copies_below(m, (n - 1) as nat)
    }
}

/// The rows that copying the live ones of segments gives.
pub open spec fn copies(ms: Seq<SegmentModel>) -> Seq<SegmentRow>
    decreases ms.len(),
{
    if ms.len() == 0 {
        Seq::empty()
    } else {
        copies(ms.drop_last()) + copies_below(ms.last(), ms.last().ids.len())
    }
}

proof fn lemma_copy_is_build(
    stride: nat,
    before: Seq<SegmentRow>,
    b: BuildModel,
    m: SegmentModel,
    n: nat,
)
    requires
        flush::built(stride, before) == Ok::<BuildModel, FormatError>(b),
        flush::with_rows(b, m, n) is Ok,
    ensures
        flush::built(stride, before + copies_below(m, n)) == Ok::<BuildModel, FormatError>(
            flush::with_rows(b, m, n)->Ok_0,
        ),
        forall|r: int|
            0 <= r < n && m.live(r) ==> (#[trigger] flush::copied_row(m, r as u32)) is Ok,
    decreases n,
{
    if n == 0 {
        assert(before + copies_below(m, n) =~= before);
    } else {
        lemma_copy_is_build(stride, before, b, m, (n - 1) as nat);
        if m.live(n - 1) {
            let rows = before + copies_below(m, n);
            assert(rows.drop_last() =~= before + copies_below(m, (n - 1) as nat));
            assert(rows.last() == flush::copied_row(m, (n - 1) as u32)->Ok_0);
        }
    }
}

/// A compaction that succeeds makes the segment of exactly the live rows of its sources.
pub proof fn lemma_compaction_is_build(stride: nat, ms: Seq<SegmentModel>)
    requires
        flush::compacted(stride, ms) is Ok,
    ensures
        flush::built(stride, copies(ms)) == Ok::<BuildModel, FormatError>(
            flush::compacted(stride, ms)->Ok_0,
        ),
    decreases ms.len(),
{
    if ms.len() > 0 {
        let front = ms.drop_last();
        lemma_compaction_is_build(stride, front);
        lemma_copy_is_build(
            stride,
            copies(front),
            flush::compacted(stride, front)->Ok_0,
            ms.last(),
            ms.last().ids.len(),
        );
    }
}

/// Every live row could be copied where rewriting succeeded.
pub proof fn lemma_rows_were_copied(stride: nat, ms: Seq<SegmentModel>, s: int, row: int)
    requires
        flush::compacted(stride, ms) is Ok,
        0 <= s < ms.len(),
        0 <= row < ms[s].ids.len(),
        ms[s].live(row),
    ensures
        flush::copied_row(ms[s], row as u32) is Ok,
    decreases ms.len(),
{
    let front = ms.drop_last();
    if s < front.len() {
        assert(front[s] == ms[s]);
        lemma_rows_were_copied(stride, front, s, row);
    } else {
        lemma_row_was_copied(
            flush::compacted(stride, front)->Ok_0,
            ms.last(),
            ms.last().ids.len(),
            row,
        );
    }
}

proof fn lemma_row_was_copied(b: BuildModel, m: SegmentModel, n: nat, row: int)
    requires
        flush::with_rows(b, m, n) is Ok,
        0 <= row < n,
        m.live(row),
    ensures
        flush::copied_row(m, row as u32) is Ok,
    decreases n,
{
    if row < n - 1 {
        lemma_row_was_copied(b, m, (n - 1) as nat, row);
    }
}

proof fn lemma_copy_of(m: SegmentModel, n: nat, r: int)
    requires
        0 <= r < n,
        m.live(r),
    ensures
        exists|k: int|
            0 <= k < copies_below(m, n).len() && copies_below(m, n)[k] == flush::copied_row(
                m,
                r as u32,
            )->Ok_0,
    decreases n,
{
    let all = copies_below(m, n);
    if r == n - 1 {
        assert(all[all.len() - 1] == flush::copied_row(m, r as u32)->Ok_0);
    } else {
        lemma_copy_of(m, (n - 1) as nat, r);
        let before = copies_below(m, (n - 1) as nat);
        let k = choose|k: int|
            0 <= k < before.len() && before[k] == flush::copied_row(m, r as u32)->Ok_0;
        assert(all[k] == before[k]);
    }
}

/// Every live row of every source of a compaction is among the rows that it copies.
pub proof fn lemma_every_live_row_is_copied(ms: Seq<SegmentModel>, s: int, r: int)
    requires
        0 <= s < ms.len(),
        0 <= r < ms[s].ids.len(),
        ms[s].live(r),
    ensures
        exists|k: int|
            0 <= k < copies(ms).len() && copies(ms)[k] == flush::copied_row(
                ms[s],
                r as u32,
            )->Ok_0,
    decreases ms.len(),
{
    let front = copies(ms.drop_last());
    let back = copies_below(ms.last(), ms.last().ids.len());
    let row = flush::copied_row(ms[s], r as u32)->Ok_0;
    if s == ms.len() - 1 {
        lemma_copy_of(ms[s], ms[s].ids.len(), r);
        let k = choose|k: int| 0 <= k < back.len() && back[k] == row;
        assert(copies(ms)[front.len() + k] == row);
    } else {
        assert(ms.drop_last()[s] == ms[s]);
        lemma_every_live_row_is_copied(ms.drop_last(), s, r);
        let k = choose|k: int| 0 <= k < front.len() && front[k] == row;
        assert(copies(ms)[k] == row);
    }
}

proof fn lemma_copied_from(m: SegmentModel, n: nat, k: int)
    requires
        0 <= k < copies_below(m, n).len(),
    ensures
        exists|r: int|
            0 <= r < n && #[trigger] m.live(r) && copies_below(m, n)[k] == flush::copied_row(
                m,
                r as u32,
            )->Ok_0,
    decreases n,
{
    let all = copies_below(m, n);
    if m.live(n - 1) && k == all.len() - 1 {
        assert(all[k] == flush::copied_row(m, (n - 1) as u32)->Ok_0);
    } else {
        lemma_copied_from(m, (n - 1) as nat, k);
        let before = copies_below(m, (n - 1) as nat);
        assert(all[k] == before[k]);
    }
}

/// Every row that a compaction copies is a live row of one of its sources.
pub proof fn lemma_only_live_rows_are_copied(ms: Seq<SegmentModel>, k: int)
    requires
        0 <= k < copies(ms).len(),
    ensures
        exists|s: int, r: int|
            0 <= s < ms.len() && 0 <= r < ms[s].ids.len() && #[trigger] ms[s].live(r)
                && copies(ms)[k] == flush::copied_row(ms[s], r as u32)->Ok_0,
    decreases ms.len(),
{
    let front = copies(ms.drop_last());
    if k < front.len() {
        lemma_only_live_rows_are_copied(ms.drop_last(), k);
        let (s, r) = choose|s: int, r: int|
            0 <= s < ms.drop_last().len() && 0 <= r < ms.drop_last()[s].ids.len()
                && #[trigger] ms.drop_last()[s].live(r) && front[k] == flush::copied_row(
                ms.drop_last()[s],
                r as u32,
            )->Ok_0;
        assert(ms.drop_last()[s] == ms[s]);
        assert(ms[s].live(r));
    } else {
        lemma_copied_from(ms.last(), ms.last().ids.len(), k - front.len());
        let r = choose|r: int|
            0 <= r < ms.last().ids.len() && #[trigger] ms.last().live(r) && copies_below(
                ms.last(),
                ms.last().ids.len(),
            )[k - front.len()] == flush::copied_row(ms.last(), r as u32)->Ok_0;
        assert(ms[ms.len() - 1].live(r));
    }
}

/// A file that is there fits into memory, and so does what it holds.
proof fn lemma_image_sizes(image: SegmentImage, b: BuildModel)
    requires
        flush::is_image(image, b),
    ensures
        b.payload.len() + HEADER_LEN + block::TRAILER_LEN <= usize::MAX,
        directory::directory_bytes(b.entries, b.heap).len() + HEADER_LEN + block::TRAILER_LEN
            <= usize::MAX,
        b.data.len() + VECTOR_PAD + HEADER_LEN + block::TRAILER_LEN <= usize::MAX,
        tombstones::bitmap_bytes(tombstones::fresh(b.entries.len() as u32, 0)).len() + HEADER_LEN
            + block::TRAILER_LEN <= usize::MAX,
{
    lemma_block_len(FileKind::Metadata, b.payload);
    lemma_block_len(FileKind::Directory, directory::directory_bytes(b.entries, b.heap));
    lemma_block_len(FileKind::Vectors, cursor::zeros(32) + b.data);
    lemma_block_len(
        FileKind::Deleted,
        tombstones::bitmap_bytes(tombstones::fresh(b.entries.len() as u32, 0)),
    );
    assert(image.metadata.len() == image.metadata@.len());
    assert(image.directory.len() == image.directory@.len());
    assert(image.vectors.len() == image.vectors@.len());
    assert(image.tombstones.len() == image.tombstones@.len());
}

proof fn lemma_block_len(kind: FileKind, payload: Seq<u8>)
    ensures
        block::block_bytes(kind, payload).len() == payload.len() + HEADER_LEN + block::TRAILER_LEN,
{
    header::lemma_header_len(block::block_header(kind, payload.len()));
    le::lemma_le_fixed(crc32c::crc32c_of(payload) as nat);
}

/// Whether the files of an image, written and opened again, are a segment of exactly these rows:
/// the same ids, vectors, norms and records in the same order, every row live.
pub open spec fn reads_back(
    c: CatalogModel,
    seg: SegmentRef,
    image: SegmentImage,
    rows: Seq<SegmentRow>,
) -> bool {
    forall|f: SegmentFiles| #[trigger]
        is_written(f, image) ==> {
            &&& segment::opened(c, seg, f) is Ok
            &&& segment::opened(c, seg, f)->Ok_0.id == seg.id
            &&& holds(segment::opened(c, seg, f)->Ok_0, rows)
        }
}

/// Building a segment lists each row once.
pub proof fn lemma_built_len(stride: nat, rows: Seq<SegmentRow>)
    requires
        flush::built(stride, rows) is Ok,
    ensures
        flush::built(stride, rows)->Ok_0.entries.len() == rows.len(),
    decreases rows.len(),
{
    if rows.len() > 0 {
        lemma_built_len(stride, rows.drop_last());
    }
}

/// What a flush of a memtable writes is read back: row `i` of the new segment is the `i`-th live
/// row, and there are as many as the segment's reference says.
pub proof fn lemma_flushed_reads_back(c: CatalogModel, id: u64, m: MemModel, image: SegmentImage)
    requires
        validation::name_rejected(encode_utf8(c.name)) is None,
        c.dtype.stride(c.dimension) > 0,
        m.wf(),
        m.rows.len() <= usize::MAX,
        forall|i: int|
            0 <= i < m.live().len() ==> document::of_kind((#[trigger] m.live()[i]).id, c.id_kind),
        forall|i: int|
            0 <= i < m.live().len() ==> meta::record_storable(
                flush::row_record(#[trigger] m.live()[i]),
            ),
        flush::flushed(m, c.dtype.stride(c.dimension), m.live()) is Ok,
        flush::is_image(
            image,
            flush::flushed(m, c.dtype.stride(c.dimension), m.live())->Ok_0,
        ),
    ensures
        flush::flushed(m, c.dtype.stride(c.dimension), m.live())->Ok_0.entries.len()
            == m.live().len(),
        reads_back(
            c,
            SegmentRef { id, rows: m.live().len() as u32, del_generation: 0 },
            image,
            flush::flushed_rows(m),
        ),
{
    let stride = c.dtype.stride(c.dimension);
    let rows = flush::flushed_rows(m);
    flush::lemma_flush_is_build(m, stride, m.live());
    lemma_built_len(stride, rows);
    layout_laws::lemma_valid_name_is_placeable(c.name, id);
    assert(holdable(c, rows)) by {
        assert forall|i: int| 0 <= i < rows.len() implies document::of_kind(
            (#[trigger] rows[i]).id,
            c.id_kind,
        ) && meta::record_storable(rows[i].record) by {
            assert(rows[i] == flush::flushed_row(m, m.live()[i]));
        }
        assert forall|i: int, j: int| 0 <= i < j < rows.len() implies (#[trigger] rows[i]).id != (
        #[trigger] rows[j]).id by {
            memtable_laws::lemma_live_rows_are_distinct(m, i, j);
        }
    }
    assert forall|f: SegmentFiles| #[trigger] is_written(f, image) implies {
        let seg = SegmentRef { id, rows: m.live().len() as u32, del_generation: 0 };
        &&& segment::opened(c, seg, f) is Ok
        &&& segment::opened(c, seg, f)->Ok_0.id == seg.id
        &&& holds(segment::opened(c, seg, f)->Ok_0, rows)
    } by {
        lemma_segment_reads_back(c, id, rows, image, f);
    }
}

proof fn lemma_copies_below_len(m: SegmentModel, n: nat)
    ensures
        copies_below(m, n).len() == m.tombstones.live_below(n),
    decreases n,
{
    if n > 0 {
        lemma_copies_below_len(m, (n - 1) as nat);
    }
}

/// As many rows are copied as are live.
pub proof fn lemma_copies_len(ms: Seq<SegmentModel>)
    requires
        forall|s: int| 0 <= s < ms.len() ==> (#[trigger] ms[s]).wf(),
    ensures
        copies(ms).len() == segment::live_on_disk(ms),
    decreases ms.len(),
{
    if ms.len() > 0 {
        let front = ms.drop_last();
        assert forall|s: int| 0 <= s < front.len() implies (#[trigger] front[s]).wf() by {
            assert(ms[s].wf());
        }
        lemma_copies_len(front);
        assert(ms[ms.len() - 1].wf());
        lemma_copies_below_len(ms.last(), ms.last().ids.len());
    }
}

proof fn lemma_copies_below_differ(m: SegmentModel, n: nat, i: int, j: int)
    requires
        m.wf(),
        n <= m.ids.len(),
        forall|r: int|
            0 <= r < n && m.live(r) ==> (#[trigger] flush::copied_row(m, r as u32)) is Ok,
        0 <= i < j < copies_below(m, n).len(),
    ensures
        copies_below(m, n)[i].id != copies_below(m, n)[j].id,
    decreases n,
{
    let few = copies_below(m, (n - 1) as nat);
    if m.live(n - 1) && j == few.len() {
        lemma_copied_from(m, (n - 1) as nat, i);
        let r = choose|r: int|
            0 <= r < n - 1 && #[trigger] m.live(r) && few[i] == flush::copied_row(
                m,
                r as u32,
            )->Ok_0;
        assert(flush::copied_row(m, r as u32) is Ok);
        assert(flush::copied_row(m, (n - 1) as u32) is Ok);
        assert(m.ids[r] != m.ids[n - 1]);
    } else {
        lemma_copies_below_differ(m, (n - 1) as nat, i, j);
    }
}

/// Fewer segments have a document live in two of them no more than all have.
pub proof fn lemma_single_front(ms: Seq<SegmentModel>)
    requires
        single(ms),
        ms.len() > 0,
    ensures
        single(ms.drop_last()),
{
    let front = ms.drop_last();
    assert forall|s: int, t: int, a: int, b: int|
        0 <= s < t < front.len() && 0 <= a < front[s].ids.len() && 0 <= b < front[t].ids.len()
            && #[trigger] front[s].live(a) && #[trigger] front[t].live(b) implies front[s].ids[a]
        != front[t].ids[b] by {
        assert(ms[s].live(a));
        assert(ms[t].live(b));
    }
}

/// The document of a row that was copied from the first `n` rows of a segment is live there.
proof fn lemma_copy_is_live(m: SegmentModel, n: nat, k: int) -> (r: int)
    requires
        0 <= k < copies_below(m, n).len(),
        n <= m.ids.len() <= u32::MAX,
        forall|r: int|
            0 <= r < n && m.live(r) ==> (#[trigger] flush::copied_row(m, r as u32)) is Ok,
    ensures
        0 <= r < n,
        m.live(r),
        copies_below(m, n)[k].id == m.ids[r],
{
    lemma_copied_from(m, n, k);
    let r = choose|r: int|
        0 <= r < n && #[trigger] m.live(r) && copies_below(m, n)[k] == flush::copied_row(
            m,
            r as u32,
        )->Ok_0;
    assert(flush::copied_row(m, r as u32) is Ok);
    r
}

/// Where no document is live in two segments, no two copied rows are of the same document.
proof fn lemma_copies_differ(stride: nat, ms: Seq<SegmentModel>, i: int, j: int)
    requires
        flush::compacted(stride, ms) is Ok,
        forall|s: int| 0 <= s < ms.len() ==> (#[trigger] ms[s]).wf(),
        single(ms),
        0 <= i < j < copies(ms).len(),
    ensures
        copies(ms)[i].id != copies(ms)[j].id,
    decreases ms.len(),
{
    let front = ms.drop_last();
    let last = ms.last();
    let few = copies(front);
    let at = ms.len() - 1;
    assert(ms[at].wf());
    assert forall|r: int| 0 <= r < last.ids.len() && last.live(r) implies (
    #[trigger] flush::copied_row(last, r as u32)) is Ok by {
        lemma_rows_were_copied(stride, ms, at, r);
    }
    if j < few.len() {
        assert forall|s: int| 0 <= s < front.len() implies (#[trigger] front[s]).wf() by {
            assert(ms[s].wf());
        }
        lemma_single_front(ms);
        lemma_copies_differ(stride, front, i, j);
    } else if i >= few.len() {
        lemma_copies_below_differ(last, last.ids.len(), i - few.len(), j - few.len());
    } else {
        let q = lemma_copy_is_live(last, last.ids.len(), j - few.len());
        let (s, r) = lemma_copied_where(stride, front, i);
        assert(front[s] == ms[s]);
        assert(ms[s].wf());
        assert(ms[s].live(r));
        assert(ms[at].live(q));
    }
}

/// The document of a row that was copied is live in a source.
proof fn lemma_copied_where(stride: nat, ms: Seq<SegmentModel>, k: int) -> (at: (int, int))
    requires
        flush::compacted(stride, ms) is Ok,
        0 <= k < copies(ms).len(),
    ensures
        0 <= at.0 < ms.len(),
        0 <= at.1 < ms[at.0].ids.len(),
        ms[at.0].live(at.1),
        copies(ms)[k] == flush::copied_row(ms[at.0], at.1 as u32)->Ok_0,
        flush::copied_row(ms[at.0], at.1 as u32) is Ok,
        copies(ms)[k].id == ms[at.0].ids[(at.1 as u32) as int],
{
    lemma_only_live_rows_are_copied(ms, k);
    let (s, r) = choose|s: int, r: int|
        0 <= s < ms.len() && 0 <= r < ms[s].ids.len() && #[trigger] ms[s].live(r) && copies(ms)[k]
            == flush::copied_row(ms[s], r as u32)->Ok_0;
    lemma_rows_were_copied(stride, ms, s, r);
    (s, r)
}

/// What rewriting segments writes is read back, where no document is live in two of them: the new
/// segment has exactly the live rows of the old ones, in order.
pub proof fn lemma_compacted_reads_back(
    c: CatalogModel,
    id: u64,
    ms: Seq<SegmentModel>,
    image: SegmentImage,
)
    requires
        validation::name_rejected(encode_utf8(c.name)) is None,
        c.dtype.stride(c.dimension) > 0,
        forall|s: int| 0 <= s < ms.len() ==> (#[trigger] ms[s]).wf(),
        single(ms),
        of_kind(c.id_kind, ms),
        flush::compacted(c.dtype.stride(c.dimension), ms) is Ok,
        flush::is_image(image, flush::compacted(c.dtype.stride(c.dimension), ms)->Ok_0),
    ensures
        flush::compacted(c.dtype.stride(c.dimension), ms)->Ok_0.entries.len()
            == segment::live_on_disk(ms),
        reads_back(
            c,
            SegmentRef { id, rows: segment::live_on_disk(ms) as u32, del_generation: 0 },
            image,
            copies(ms),
        ),
{
    let stride = c.dtype.stride(c.dimension);
    let rows = copies(ms);
    lemma_compaction_is_build(stride, ms);
    lemma_built_len(stride, rows);
    lemma_copies_len(ms);
    layout_laws::lemma_valid_name_is_placeable(c.name, id);
    assert(holdable(c, rows)) by {
        assert forall|i: int| 0 <= i < rows.len() implies document::of_kind(
            (#[trigger] rows[i]).id,
            c.id_kind,
        ) && meta::record_storable(rows[i].record) by {
            let (s, r) = lemma_copied_where(stride, ms, i);
            assert(ms[s].wf());
            assert(document::of_kind(ms[s].ids[r], c.id_kind));
            meta::lemma_read_record_is_storable(ms[s].meta_payload, ms[s].entries[r]);
        }
        assert forall|i: int, j: int| 0 <= i < j < rows.len() implies (#[trigger] rows[i]).id != (
        #[trigger] rows[j]).id by {
            lemma_copies_differ(stride, ms, i, j);
        }
    }
    assert forall|f: SegmentFiles| #[trigger] is_written(f, image) implies {
        let seg = SegmentRef { id, rows: rows.len() as u32, del_generation: 0 };
        &&& segment::opened(c, seg, f) is Ok
        &&& segment::opened(c, seg, f)->Ok_0.id == seg.id
        &&& holds(segment::opened(c, seg, f)->Ok_0, rows)
    } by {
        lemma_segment_reads_back(c, id, rows, image, f);
    }
}

} // verus!
