//! Writing segments.
//!
//! # Write ordering
//!
//! A flush writes all four files and syncs each, and only then does the caller commit a manifest
//! naming the new segment. A crash before that commit leaves the files on disk with nothing
//! pointing at them: orphans, which the next open deletes. A crash after it leaves a complete
//! segment. There is no visible state in between.
use vstd::prelude::*;
use vstd::utf8::*;

use crate::bytes;
use crate::document;
use crate::document::{DocId, IdKind, IdModel};
use crate::error;
use crate::error::convert;
use crate::error::convert::from_format_at;
use crate::error::{DbError, ErrorModel};
use crate::float;
use crate::format::block;
use crate::format::catalog::{Catalog, CatalogModel};
use crate::format::error::{FormatError, MalformedKind};
use crate::format::header::FileKind;
use crate::format::manifest::SegmentRef;
use crate::format::segment::directory;
use crate::format::segment::directory::{DirectoryWriter, RowEntry};
use crate::format::segment::meta;
use crate::format::segment::meta::{MetaRecord, MetaWriter, RecordModel};
use crate::format::segment::tombstones;
use crate::format::segment::tombstones::Tombstones;
use crate::format::segment::vectors;
use crate::format::segment::vectors::VectorBlockWriter;
use crate::format::value::{Value, ValueModel};
use crate::path;
use crate::path::DbPath;
use crate::persistence::flush_laws;
use crate::persistence::segment;
use crate::persistence::segment::{broken, SegmentData, SegmentModel};
use crate::text;
use crate::validation;
use crate::write::memtable;
use crate::write::memtable::{MemModel, Memtable, RowModel};

verus! {

/// What a flush produced.
#[derive(Debug)]
pub struct FlushResult {
    /// The new segment, ready to be named in a manifest commit.
    pub segment: SegmentRef,
    /// Documents deleted in the memtable that may still exist in older segments.
    ///
    /// A flush cannot resolve these itself: a tombstone for a document the memtable never held
    /// refers to a row in some other segment, and finding it needs the collection's id map.
    /// Returned rather than silently dropped.
    pub pending_deletions: Vec<DocId>,
}

/// The contents of a new segment's files.
#[derive(Debug)]
pub struct SegmentImage {
    /// The fixed-stride vectors.
    pub vectors: Vec<u8>,
    /// The row directory.
    pub directory: Vec<u8>,
    /// The metadata and content records.
    pub metadata: Vec<u8>,
    /// The live and dead rows.
    pub tombstones: Vec<u8>,
}

/// One row of a segment.
pub struct SegmentRow {
    pub id: IdModel,
    pub vector: Seq<u8>,
    pub inv_norm: u32,
    pub record: RecordModel,
}

/// A segment being built.
pub struct BuildModel {
    /// Bytes per vector.
    pub stride: nat,
    /// The vectors.
    pub data: Seq<u8>,
    /// The row table.
    pub entries: Seq<RowEntry>,
    /// The ids.
    pub heap: Seq<u8>,
    /// The records.
    pub payload: Seq<u8>,
}

impl BuildModel {
    /// Nothing yet.
    pub open spec fn empty(stride: nat) -> BuildModel {
        BuildModel {
            stride,
            data: Seq::empty(),
            entries: Seq::empty(),
            heap: Seq::empty(),
            payload: Seq::empty(),
        }
    }
}

/// The most rows a directory can count.
pub open spec fn most_rows() -> nat {
    178_956_969
}

/// Why a row's id cannot be listed, if it cannot.
pub open spec fn listing_refused(b: BuildModel, id: Seq<u8>, inv_norm: u32) -> Option<FormatError> {
    if id.len() > u16::MAX {
        Some(vectors::inconsistent(b.heap.len() as u64, "id length"))
    } else if b.heap.len() > u32::MAX {
        Some(vectors::inconsistent(b.heap.len() as u64, "id heap size"))
    } else if !float::finite32(inv_norm) {
        Some(FormatError::Malformed { offset: 0, kind: MalformedKind::NonFiniteFloat })
    } else if b.entries.len() >= most_rows() {
        Some(vectors::inconsistent(0, "row count"))
    } else {
        None
    }
}

/// A segment with one more row, or why the row is refused.
pub open spec fn with_row(b: BuildModel, row: SegmentRow) -> Result<BuildModel, FormatError> {
    if row.vector.len() != b.stride {
        Err(vectors::inconsistent(b.data.len() as u64, "row stride"))
    } else {
        match meta::record_pushed(row.record, b.payload.len()) {
            Err(e) => Err(e),
            Ok((s, n)) => {
                let id = document::id_bytes(row.id);
                match listing_refused(b, id, row.inv_norm) {
                    Some(e) => Err(e),
                    None => Ok(
                        BuildModel {
                            stride: b.stride,
                            data: b.data + row.vector,
                            entries: b.entries.push(
                                RowEntry {
                                    meta_offset: b.payload.len() as u64,
                                    meta_len: n,
                                    inv_norm: row.inv_norm,
                                    id_offset: b.heap.len() as u32,
                                    id_len: id.len() as u16,
                                    flags: 0,
                                },
                            ),
                            heap: b.heap + id,
                            payload: b.payload + s,
                        },
                    ),
                }
            },
        }
    }
}

/// The segment that rows make, or why one of them is refused.
pub open spec fn built(stride: nat, rows: Seq<SegmentRow>) -> Result<BuildModel, FormatError>
    decreases rows.len(),
{
    if rows.len() == 0 {
        Ok(BuildModel::empty(stride))
    } else {
        match built(stride, rows.drop_last()) {
            Err(e) => Err(e),
            Ok(b) => with_row(b, rows.last()),
        }
    }
}

/// Whether an image holds the files of a segment.
pub open spec fn is_image(image: SegmentImage, b: BuildModel) -> bool {
    &&& image.vectors@ == vectors::vector_file_bytes(b.data)
    &&& image.directory@ == block::block_bytes(
        FileKind::Directory,
        directory::directory_bytes(b.entries, b.heap),
    )
    &&& image.metadata@ == block::block_bytes(FileKind::Metadata, b.payload)
    &&& image.tombstones@ == block::block_bytes(
        FileKind::Deleted,
        tombstones::bitmap_bytes(tombstones::fresh(b.entries.len() as u32, 0)),
    )
}

/// Builds the four files of a segment row by row.
struct SegmentBuilder {
    vectors: VectorBlockWriter,
    directory: DirectoryWriter,
    meta: MetaWriter,
}

impl View for SegmentBuilder {
    type V = BuildModel;

    closed spec fn view(&self) -> BuildModel {
        BuildModel {
            stride: self.vectors.spec_stride() as nat,
            data: self.vectors.spec_data(),
            entries: self.directory.spec_entries(),
            heap: self.directory.spec_heap(),
            payload: self.meta@,
        }
    }
}

/// Why a segment of this shape cannot be built, if it cannot.
pub open spec fn shape_refused(c: CatalogModel) -> Option<ErrorModel> {
    if c.dimension == 0 {
        Some(convert::reported(vectors::zero_field("dimension"), path::root_text()))
    } else if c.dtype.stride(c.dimension) == 0 {
        Some(convert::reported(vectors::zero_field("stride"), path::root_text()))
    } else {
        None
    }
}

impl SegmentBuilder {
    /// The rows are counted once each.
    spec fn counted(self) -> bool {
        &&& self.vectors.spec_rows() == self@.entries.len()
        &&& self@.entries.len() <= most_rows()
    }

    fn new(catalog: &Catalog) -> (r: Result<Self, DbError>)
        ensures
            match shape_refused(catalog@) {
                Some(e) => error::failed(r, e),
                None => {
                    &&& r matches Ok(b)
                    &&& b@ == BuildModel::empty(catalog.dtype.stride(catalog.dimension))
                    &&& b.counted()
                },
            },
    {
        match VectorBlockWriter::new(catalog.dimension, catalog.row_stride()) {
            Ok(vectors) => Ok(
                SegmentBuilder {
                    vectors,
                    directory: DirectoryWriter::new(),
                    meta: MetaWriter::new(),
                },
            ),
            Err(e) => Err(from_format_at(e, &DbPath::root())),
        }
    }

    /// Add one row. A builder that refused a row is not used again.
    fn add(&mut self, id: &DocId, vector: &[u8], inv_norm: u32, record: &MetaRecord) -> (r: Result<
        (),
        DbError,
    >)
        requires
            old(self).counted(),
        ensures
            ({
                let row = SegmentRow { id: id@, vector: vector@, inv_norm, record: record@ };
                match with_row(old(self)@, row) {
                    Ok(b) => r is Ok && final(self)@ == b && final(self).counted(),
                    Err(e) => error::failed(r, convert::reported(e, path::root_text())),
                }
            }),
            r is Ok ==> meta::record_storable(record@),
    {
        match self.vectors.push_row(vector) {
            Ok(_) => {},
            Err(e) => {
                return Err(from_format_at(e, &DbPath::root()));
            },
        }
        let (offset, len): (u64, u32) = match self.meta.push(record) {
            Ok(p) => p,
            Err(e) => {
                return Err(from_format_at(e, &DbPath::root()));
            },
        };
        let bytes = id.to_bytes();
        if bytes.len() <= 65_535 && self.directory.rows() >= 178_956_969 {
            // The format counts the row table's bytes in 32 bits.
            let refusal = match self.directory.push(bytes.as_slice(), offset, len, inv_norm) {
                Ok(_) => FormatError::Malformed {
                    offset: 0,
                    kind: MalformedKind::Inconsistent { field: "row count" },
                },
                Err(e) => e,
            };
            return Err(from_format_at(refusal, &DbPath::root()));
        }
        match self.directory.push(bytes.as_slice(), offset, len, inv_norm) {
            Ok(_) => Ok(()),
            Err(e) => Err(from_format_at(e, &DbPath::root())),
        }
    }

    /// The rows added.
    fn rows(&self) -> (r: u32)
        requires
            self.counted(),
        ensures
            r == self@.entries.len(),
    {
        self.vectors.rows()
    }

    fn finish(self) -> (r: SegmentImage)
        requires
            self.counted(),
        ensures
            is_image(r, self@),
    {
        let rows: u32 = self.vectors.rows();
        let tombstones = Tombstones::all_live(rows, 0);
        SegmentImage {
            vectors: self.vectors.finish(),
            directory: self.directory.finish(),
            metadata: self.meta.finish(),
            tombstones: tombstones.encode(),
        }
    }
}

/// How an id reads in a report of a broken invariant.
pub open spec fn id_debug(id: IdModel) -> Seq<char> {
    match id {
        IdModel::Str(s) => "Str("@ + text::quoted(s) + ")"@,
        IdModel::U64(v) => "U64("@ + text::decimal(v as nat) + ")"@,
    }
}

pub fn push_id_debug(out: &mut String, id: &DocId)
    ensures
        final(out)@ == old(out)@ + id_debug(id@),
{
    match id {
        DocId::Str(s) => {
            out.append("Str(");
            text::push_quoted(out, s.as_str());
            out.append(")");
        },
        DocId::U64(v) => {
            out.append("U64(");
            text::push_decimal(out, *v);
            out.append(")");
        },
    }
    assert(out@ =~= old(out)@ + id_debug(id@));
}

/// The error for a buffered row without a vector.
pub open spec fn no_vector(id: IdModel) -> ErrorModel {
    segment::internal("memtable row "@ + id_debug(id) + " has no vector bytes"@)
}

/// The record that a buffered row is stored with.
pub open spec fn row_record(row: RowModel) -> RecordModel {
    RecordModel {
        metadata: match row.metadata {
            Some(m) => Some(ValueModel::Object(m)),
            None => None,
        },
        content: row.content,
    }
}

/// The segment row that a buffered row becomes, where the memtable has its vector.
pub open spec fn flushed_row(m: MemModel, row: RowModel) -> SegmentRow {
    SegmentRow {
        id: row.id,
        vector: m.vector(row)->0,
        inv_norm: row.inv_norm,
        record: row_record(row),
    }
}

/// Whether a collection's name makes paths for its files.
pub open spec fn is_placed(c: CatalogModel) -> bool {
    validation::name_rejected(encode_utf8(c.name)) is None
}

/// Whether the documents of buffered rows have ids of a kind.
pub open spec fn live_of_kind(m: MemModel, kind: IdKind) -> bool {
    forall|i: int|
        0 <= i < m.live().len() ==> document::of_kind((#[trigger] m.live()[i]).id, kind)
}

/// The rows that a flush writes.
pub open spec fn flushed_rows(m: MemModel) -> Seq<SegmentRow> {
    m.live().map_values(|r: RowModel| flushed_row(m, r))
}

/// What flushing buffered rows in order makes, or the first failure.
pub open spec fn flushed(m: MemModel, stride: nat, rows: Seq<RowModel>) -> Result<
    BuildModel,
    ErrorModel,
>
    decreases rows.len(),
{
    if rows.len() == 0 {
        Ok(BuildModel::empty(stride))
    } else {
        match flushed(m, stride, rows.drop_last()) {
            Err(e) => Err(e),
            Ok(b) => if m.vector(rows.last()) is None {
                Err(no_vector(rows.last().id))
            } else {
                match with_row(b, flushed_row(m, rows.last())) {
                    Ok(c) => Ok(c),
                    Err(e) => Err(convert::reported(e, path::root_text())),
                }
            },
        }
    }
}

proof fn lemma_flushed_err(m: MemModel, stride: nat, rows: Seq<RowModel>, k: int)
    requires
        0 <= k <= rows.len(),
        flushed(m, stride, rows.take(k)) is Err,
    ensures
        flushed(m, stride, rows) == flushed(m, stride, rows.take(k)),
    decreases rows.len(),
{
    if k == rows.len() {
        assert(rows.take(k) =~= rows);
    } else {
        assert(rows.drop_last().take(k) =~= rows.take(k));
        lemma_flushed_err(m, stride, rows.drop_last(), k);
    }
}

/// A flush that succeeds makes the segment of exactly the rows flushed.
pub proof fn lemma_flush_is_build(m: MemModel, stride: nat, rows: Seq<RowModel>)
    requires
        flushed(m, stride, rows) is Ok,
    ensures
        built(stride, rows.map_values(|r: RowModel| flushed_row(m, r))) == Ok::<
            BuildModel,
            FormatError,
        >(flushed(m, stride, rows)->Ok_0),
    decreases rows.len(),
{
    let out = rows.map_values(|r: RowModel| flushed_row(m, r));
    if rows.len() > 0 {
        lemma_flush_is_build(m, stride, rows.drop_last());
        assert(out.drop_last() =~= rows.drop_last().map_values(
            |r: RowModel| flushed_row(m, r),
        ));
    }
}

/// A copy of borrowed ids.
fn own_ids(ids: &Vec<&DocId>) -> (r: Vec<DocId>)
    ensures
        segment::id_models(r@) == memtable::ref_ids(ids@),
{
    let mut out: Vec<DocId> = Vec::new();
    let mut i: usize = 0;
    assert(segment::id_models(out@) =~= memtable::ref_ids(ids@).take(0));
    while i < ids.len()
        invariant
            i <= ids@.len(),
            segment::id_models(out@) == memtable::ref_ids(ids@).take(i as int),
        decreases ids.len() - i,
    {
        let ghost before = out@;
        let id: DocId = ids[i].clone();
        out.push(id);
        proof {
            let all = memtable::ref_ids(ids@);
            assert(all.take(i + 1) =~= all.take(i as int).push(all[i as int]));
            assert(segment::id_models(out@) =~= segment::id_models(before).push(id@));
        }
        i += 1;
    }
    assert(memtable::ref_ids(ids@).take(i as int) =~= memtable::ref_ids(ids@));
    out
}

fn record_of(row: &memtable::MemRow) -> (r: MetaRecord)
    ensures
        r@ == row_record(row@),
{
    MetaRecord {
        metadata: match &row.metadata {
            Some(m) => Some(Value::Object(m.as_map().clone())),
            None => None,
        },
        content: bytes::copy_option(&row.content),
    }
}

/// Fold a memtable's live rows into a new segment.
///
/// # Errors
/// Any format error.
pub fn flush_memtable(catalog: &Catalog, segment_id: u64, memtable: &Memtable) -> (r: Result<
    (FlushResult, SegmentImage),
    DbError,
>)
    ensures
        match shape_refused(catalog@) {
            Some(e) => error::failed(r, e),
            None => match flushed(
                memtable@,
                catalog.dtype.stride(catalog.dimension),
                memtable@.live(),
            ) {
                Err(e) => error::failed(r, e),
                Ok(b) => {
                    &&& r matches Ok((result, image))
                    &&& result.segment == (SegmentRef {
                        id: segment_id,
                        rows: b.entries.len() as u32,
                        del_generation: 0,
                    })
                    &&& b.entries.len() <= most_rows()
                    &&& b.entries.len() == memtable@.live().len()
                    &&& segment::id_models(result.pending_deletions@) == memtable::deleted(
                        memtable@.index,
                    )
                    &&& is_image(image, b)
                    &&& is_placed(catalog@) && live_of_kind(memtable@, catalog.id_kind)
                        ==> flush_laws::reads_back(
                        catalog@,
                        result.segment,
                        image,
                        flushed_rows(memtable@),
                    )
                },
            },
        },
{
    let mut builder = match SegmentBuilder::new(catalog) {
        Ok(b) => b,
        Err(e) => {
            return Err(e);
        },
    };
    // Reading the length establishes that the memtable is consistent.
    let _ = memtable.len();
    let rows = memtable.live_rows();
    let ghost live = memtable@.live();
    let ghost stride = catalog.dtype.stride(catalog.dimension);
    let mut i: usize = 0;
    assert(live.take(0) =~= Seq::<RowModel>::empty());
    while i < rows.len()
        invariant
            i <= rows@.len(),
            live == memtable@.live(),
            live == memtable::ref_models(rows@),
            live.len() == rows@.len(),
            stride == catalog.dtype.stride(catalog.dimension),
            shape_refused(catalog@) is None,
            builder.counted(),
            memtable@.wf(),
            memtable@.fits(),
            forall|j: int|
                0 <= j < i ==> meta::record_storable(row_record(#[trigger] live[j])),
            flushed(memtable@, stride, live.take(i as int)) == Ok::<BuildModel, ErrorModel>(
                builder@,
            ),
        decreases rows.len() - i,
    {
        let row = rows[i];
        proof {
            let next = live.take(i + 1);
            assert(next.drop_last() =~= live.take(i as int));
            assert(next.last() == row@);
        }
        let vector = match memtable.vector_bytes(row) {
            Some(b) => b,
            None => {
                let mut message = "memtable row ".to_owned();
                push_id_debug(&mut message, &row.id);
                message.append(" has no vector bytes");
                proof {
                    lemma_flushed_err(memtable@, stride, live, i + 1);
                }
                return Err(broken(message));
            },
        };
        let record = record_of(row);
        match builder.add(&row.id, vector, row.inv_norm, &record) {
            Ok(()) => {},
            Err(e) => {
                proof {
                    lemma_flushed_err(memtable@, stride, live, i + 1);
                }
                return Err(e);
            },
        }
        i += 1;
    }
    assert(live.take(i as int) =~= live);
    let count: u32 = builder.rows();
    let image = builder.finish();
    let deleted = memtable.deleted_ids();
    proof {
        lemma_flush_is_build(memtable@, stride, live);
        flush_laws::lemma_built_len(stride, flushed_rows(memtable@));
        if is_placed(catalog@) && live_of_kind(memtable@, catalog.id_kind) {
            flush_laws::lemma_flushed_reads_back(catalog@, segment_id, memtable@, image);
        }
    }
    Ok(
        (
            FlushResult {
                segment: SegmentRef { id: segment_id, rows: count, del_generation: 0 },
                pending_deletions: own_ids(&deleted),
            },
            image,
        ),
    )
}

/// The error for a row that is live but lacks something.
pub open spec fn incomplete(id: u64, row: u32) -> ErrorModel {
    segment::internal(
        "segment "@ + text::decimal(id as nat) + " row "@ + text::decimal(row as nat)
            + " is live but incomplete"@,
    )
}

/// The segment row that a row of an old segment is copied as, or why it cannot be.
pub open spec fn copied_row(m: SegmentModel, row: u32) -> Result<SegmentRow, ErrorModel> {
    match m.vector(row) {
        Err(e) => Err(e),
        Ok(None) => Err(incomplete(m.id, row)),
        Ok(Some(vector)) => match m.record(row) {
            Err(e) => Err(e),
            Ok(record) => Ok(
                SegmentRow {
                    id: m.ids[row as int],
                    vector,
                    inv_norm: m.entries[row as int].inv_norm,
                    record,
                },
            ),
        },
    }
}

/// A segment being built with one more row copied into it.
pub open spec fn with_copy(b: BuildModel, m: SegmentModel, row: u32) -> Result<
    BuildModel,
    ErrorModel,
> {
    match m.vector(row) {
        Err(e) => Err(e),
        Ok(None) => Err(incomplete(m.id, row)),
        Ok(Some(vector)) => if vector.len() != b.stride {
            Err(
                convert::reported(
                    vectors::inconsistent(b.data.len() as u64, "row stride"),
                    path::root_text(),
                ),
            )
        } else {
            match copied_row(m, row) {
                Err(e) => Err(e),
                Ok(copy) => match with_row(b, copy) {
                    Ok(c) => Ok(c),
                    Err(e) => Err(convert::reported(e, path::root_text())),
                },
            }
        },
    }
}

/// A segment being built with the live ones of the first `n` rows of an old segment copied into
/// it.
pub open spec fn with_rows(b: BuildModel, m: SegmentModel, n: nat) -> Result<BuildModel, ErrorModel>
    decreases n,
{
    if n == 0 {
        match vectors::vector_data(m.vec_bytes, m.stride() as int) {
            Ok(_) => Ok(b),
            Err(e) => Err(convert::reported(e, path::root_text())),
        }
    } else {
        match with_rows(b, m, (n - 1) as nat) {
            Err(e) => Err(e),
            Ok(c) => if m.live(n - 1) {
                with_copy(c, m, (n - 1) as u32)
            } else {
                Ok(c)
            },
        }
    }
}

/// What copying the live rows of segments one after the other makes, or the first failure.
pub open spec fn compacted(stride: nat, ms: Seq<SegmentModel>) -> Result<BuildModel, ErrorModel>
    decreases ms.len(),
{
    if ms.len() == 0 {
        Ok(BuildModel::empty(stride))
    } else {
        match compacted(stride, ms.drop_last()) {
            Err(e) => Err(e),
            Ok(b) => with_rows(b, ms.last(), ms.last().ids.len()),
        }
    }
}

/// What open segments hold.
pub open spec fn segment_models(segs: Seq<SegmentData>) -> Seq<SegmentModel> {
    segs.map_values(|s: SegmentData| s@)
}

proof fn lemma_with_rows_err(b: BuildModel, m: SegmentModel, k: nat, n: nat)
    requires
        k <= n,
        with_rows(b, m, k) is Err,
    ensures
        with_rows(b, m, n) == with_rows(b, m, k),
    decreases n,
{
    if k < n {
        lemma_with_rows_err(b, m, k, (n - 1) as nat);
    }
}

proof fn lemma_compacted_err(stride: nat, ms: Seq<SegmentModel>, k: int)
    requires
        0 <= k <= ms.len(),
        compacted(stride, ms.take(k)) is Err,
    ensures
        compacted(stride, ms) == compacted(stride, ms.take(k)),
    decreases ms.len(),
{
    if k == ms.len() {
        assert(ms.take(k) =~= ms);
    } else {
        assert(ms.drop_last().take(k) =~= ms.take(k));
        lemma_compacted_err(stride, ms.drop_last(), k);
    }
}

/// Copy the live rows of one segment into a builder.
fn copy_segment(builder: &mut SegmentBuilder, seg: &SegmentData) -> (r: Result<(), DbError>)
    requires
        old(builder).counted(),
    ensures
        match with_rows(old(builder)@, seg@, seg@.ids.len()) {
            Ok(b) => r is Ok && final(builder)@ == b && final(builder).counted(),
            Err(e) => error::failed(r, e),
        },
        seg@.wf(),
{
    let rows: u32 = seg.rows();
    let block = match seg.vectors() {
        Ok(b) => b,
        Err(e) => {
            proof {
                lemma_with_rows_err(builder@, seg@, 0, seg@.ids.len());
            }
            return Err(e);
        },
    };
    let ghost start = builder@;
    let mut row: u32 = 0;
    while row < rows
        invariant
            row <= rows,
            rows == seg@.ids.len(),
            seg@.wf(),
            builder.counted(),
            block.wf(),
            block.spec_stride() == seg@.stride(),
            vectors::vector_data(seg@.vec_bytes, seg@.stride() as int) == Ok::<
                Seq<u8>,
                FormatError,
            >(block.spec_data()),
            start == old(builder)@,
            with_rows(start, seg@, row as nat) == Ok::<BuildModel, ErrorModel>(builder@),
        decreases rows - row,
    {
        if seg.is_live(row) {
            let id = match seg.id_at(row) {
                Some(id) => id,
                None => {
                    assert(false);
                    return Err(broken("row without an id".to_owned()));
                },
            };
            let inv_norm: u32 = match seg.inv_norm(row) {
                Some(n) => n,
                None => {
                    assert(false);
                    return Err(broken("row without a norm".to_owned()));
                },
            };
            let vector = match block.row(row) {
                Some(b) => b,
                None => {
                    let mut message = "segment ".to_owned();
                    text::push_decimal(&mut message, seg.id());
                    message.append(" row ");
                    text::push_decimal(&mut message, row as u64);
                    message.append(" is live but incomplete");
                    proof {
                        lemma_with_rows_err(start, seg@, row as nat + 1, rows as nat);
                    }
                    return Err(broken(message));
                },
            };
            // A vector of the wrong length is refused before the row's record is looked at.
            let record = match seg.meta_record(row) {
                Ok(r) => r,
                Err(e) => {
                    proof {
                        lemma_with_rows_err(start, seg@, row as nat + 1, rows as nat);
                    }
                    return match builder.vectors.push_row(vector) {
                        Ok(_) => Err(e),
                        Err(f) => Err(from_format_at(f, &DbPath::root())),
                    };
                },
            };
            match builder.add(id, vector, inv_norm, &record) {
                Ok(()) => {},
                Err(e) => {
                    proof {
                        lemma_with_rows_err(start, seg@, row as nat + 1, rows as nat);
                    }
                    return Err(e);
                },
            }
        }
        row += 1;
    }
    Ok(())
}

/// Rewrite the live rows of several segments into one new segment.
///
/// The rows are copied verbatim (same bytes, same cached norms), so compaction cannot change
/// what a search returns. Only the dead rows disappear.
///
/// Written but not committed: the caller commits a manifest naming the new segment and dropping
/// the old ones, and only then deletes the old files. A crash before the commit leaves the new
/// segment as an orphan; a crash after it leaves the old ones as orphans. Both are cleaned up on
/// the next open, and neither is ever visible as data.
///
/// # Errors
/// Any format error.
pub fn compact_segments(catalog: &Catalog, new_id: u64, sources: &Vec<SegmentData>) -> (r: Result<
    (FlushResult, SegmentImage),
    DbError,
>)
    ensures
        match shape_refused(catalog@) {
            Some(e) => error::failed(r, e),
            None => match compacted(
                catalog.dtype.stride(catalog.dimension),
                segment_models(sources@),
            ) {
                Err(e) => error::failed(r, e),
                Ok(b) => {
                    &&& r matches Ok((result, image))
                    &&& result.segment == (SegmentRef {
                        id: new_id,
                        rows: b.entries.len() as u32,
                        del_generation: 0,
                    })
                    &&& b.entries.len() <= most_rows()
                    &&& b.entries.len() == segment::live_on_disk(segment_models(sources@))
                    &&& result.pending_deletions@.len() == 0
                    &&& is_image(image, b)
                    &&& is_placed(catalog@) && flush_laws::single(segment_models(sources@))
                        && flush_laws::of_kind(catalog.id_kind, segment_models(sources@))
                        ==> flush_laws::reads_back(
                        catalog@,
                        result.segment,
                        image,
                        flush_laws::copies(segment_models(sources@)),
                    )
                },
            },
        },
{
    let mut builder = match SegmentBuilder::new(catalog) {
        Ok(b) => b,
        Err(e) => {
            return Err(e);
        },
    };
    let ghost stride = catalog.dtype.stride(catalog.dimension);
    let ghost ms = segment_models(sources@);
    let mut i: usize = 0;
    assert(ms.take(0) =~= Seq::<SegmentModel>::empty());
    while i < sources.len()
        invariant
            i <= sources@.len(),
            ms == segment_models(sources@),
            stride == catalog.dtype.stride(catalog.dimension),
            shape_refused(catalog@) is None,
            builder.counted(),
            compacted(stride, ms.take(i as int)) == Ok::<BuildModel, ErrorModel>(builder@),
            forall|s: int| 0 <= s < i ==> (#[trigger] ms[s]).wf(),
        decreases sources.len() - i,
    {
        proof {
            let next = ms.take(i + 1);
            assert(next.drop_last() =~= ms.take(i as int));
            assert(next.last() == sources@[i as int]@);
        }
        match copy_segment(&mut builder, &sources[i]) {
            Ok(()) => {},
            Err(e) => {
                proof {
                    lemma_compacted_err(stride, ms, i + 1);
                }
                return Err(e);
            },
        }
        i += 1;
    }
    assert(ms.take(i as int) =~= ms);
    let count: u32 = builder.rows();
    let image = builder.finish();
    proof {
        flush_laws::lemma_compaction_is_build(stride, ms);
        flush_laws::lemma_built_len(stride, flush_laws::copies(ms));
        flush_laws::lemma_copies_len(ms);
        if is_placed(catalog@) && flush_laws::single(ms) && flush_laws::of_kind(
            catalog.id_kind,
            ms,
        ) {
            flush_laws::lemma_compacted_reads_back(catalog@, new_id, ms, image);
        }
    }
    Ok(
        (
            FlushResult {
                segment: SegmentRef { id: new_id, rows: count, del_generation: 0 },
                pending_deletions: Vec::new(),
            },
            image,
        ),
    )
}

} // verus!
