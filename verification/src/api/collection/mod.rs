//! The collection handle: where documents are actually written and read.
//!
//! A collection is what its log, its memtable and its segments say. Reading the files, appending
//! to the log and committing are done by whoever drives it; each step here takes what was read
//! and says what is to be written.
use vstd::prelude::*;

pub mod checkpoint;
pub mod commit_laws;
pub mod compaction;
pub mod count_laws;
pub mod crash_laws;
pub mod durable_laws;
pub mod hit_laws;
pub mod laws;
pub mod lifetime_laws;
pub mod log_laws;
pub mod open;
pub mod owed_laws;
pub mod reading_laws;
pub mod search;
pub mod search_laws;
pub mod staging;
pub mod verify;

use crate::api::access;
use crate::api::access::Access;
use crate::bytes;
use crate::document;
use crate::document::{DocId, Document, DocumentModel, IdModel, Include};
use crate::error;
use crate::error::{
    DbError, ErrorModel, InternalError, InternalModel, NotFoundError, NotFoundModel,
};
use crate::format::catalog::{Catalog, CatalogModel, IdKind, IndexSpec, Metric};
use crate::format::segment::vectors;
use crate::idmap;
use crate::idmap::IdMap;
use crate::metadata;
use crate::metadata::Metadata;
use crate::persistence::flush;
use crate::persistence::segment;
use crate::persistence::segment::{SegmentData, SegmentModel};
use crate::persistence::wal::{LogModel, WalWriter};
use crate::vector::{VectorDType, VectorView};
use crate::write::memtable;
use crate::write::memtable::{Lookup, MemModel, Memtable, MemRow, RowModel, Slot};
use crate::write::memtable_laws;

verus! {

/// Where a document currently lives.
#[derive(Debug, Clone, Copy, PartialEq, Eq, Structural)]
pub enum Located {
    /// Buffered in the memtable.
    Memtable,
    /// In a segment, at this index into the segment list and this row.
    Segment(usize, u32),
}

/// What a collection holds.
pub struct CollModel {
    /// The immutable specification.
    pub catalog: CatalogModel,
    /// Writes not yet folded into a segment.
    pub memtable: MemModel,
    /// The segments, oldest first.
    pub segments: Seq<SegmentModel>,
    /// The log.
    pub log: LogModel,
    /// The id that the next segment gets.
    pub next_segment_id: u64,
    /// The memtable size at which it is folded into a segment.
    pub flush_threshold: usize,
}

/// The newest live row of a document in segments, if there is one.
pub open spec fn newest(segs: Seq<SegmentModel>, id: IdModel) -> Option<(usize, u32)>
    decreases segs.len(),
{
    if segs.len() == 0 {
        None
    } else {
        let row = segs.last().row_of(id);
        if row is Some && segs.last().live(row->0 as int) {
            Some(((segs.len() - 1) as usize, row->0))
        } else {
            newest(segs.drop_last(), id)
        }
    }
}

/// The error for a buffered row whose vector is gone.
pub open spec fn lost_vector(id: IdModel) -> ErrorModel {
    ErrorModel::Internal(
        InternalModel {
            message: "memtable row "@ + flush::id_debug(id) + " lost its vector"@,
            location: "api",
        },
    )
}

/// A buffered document as a read asked for it.
pub open spec fn read_buffered(m: MemModel, row: RowModel, parts: Include) -> Result<
    DocumentModel,
    ErrorModel,
> {
    if parts.vector && m.vector(row) is None {
        Err(lost_vector(row.id))
    } else {
        Ok(
            DocumentModel {
                id: row.id,
                vector: if parts.vector {
                    Some(vectors::components(m.vector(row)->0))
                } else {
                    None
                },
                metadata: match row.metadata {
                    Some(m) => if parts.metadata {
                        m
                    } else {
                        Seq::empty()
                    },
                    None => Seq::empty(),
                },
                content: if parts.content {
                    row.content
                } else {
                    None
                },
            },
        )
    }
}

/// Whether some segment holds a live row of a document.
pub open spec fn segment_has(segs: Seq<SegmentModel>, id: IdModel) -> bool {
    newest(segs, id) is Some
}

/// Rows in segments, live and dead alike.
pub open spec fn rows_on_disk(segs: Seq<SegmentModel>) -> nat
    decreases segs.len(),
{
    if segs.len() == 0 {
        0
    } else {
        rows_on_disk(segs.drop_last()) + segs.last().ids.len()
    }
}

/// How many of a list of documents have a live row in some segment.
pub open spec fn overlap(segs: Seq<SegmentModel>, ids: Seq<IdModel>) -> nat
    decreases ids.len(),
{
    if ids.len() == 0 {
        0
    } else {
        overlap(segs, ids.drop_last()) + if segment_has(segs, ids.last()) {
            1nat
        } else {
            0nat
        }
    }
}

/// The documents of buffered rows.
pub open spec fn ids_of(rows: Seq<RowModel>) -> Seq<IdModel> {
    rows.map_values(|r: RowModel| r.id)
}

/// A count as a 64-bit number: the largest one where it does not fit.
pub open spec fn capped(n: int) -> u64 {
    if n < 0 {
        0
    } else if n > u64::MAX {
        u64::MAX
    } else {
        n as u64
    }
}

impl CollModel {
    /// Where a document lives: the memtable shadows the segments, and a newer segment an older
    /// one.
    pub open spec fn located(self, id: IdModel) -> Option<Located> {
        match self.memtable.found(id) {
            Some(Slot::Deleted) => None,
            Some(Slot::Row(_)) => Some(Located::Memtable),
            None => match newest(self.segments, id) {
                Some((index, row)) => Some(Located::Segment(index, row)),
                None => None,
            },
        }
    }

    /// A document as a read asked for it.
    pub open spec fn read(self, id: IdModel, parts: Include) -> Result<
        Option<DocumentModel>,
        ErrorModel,
    > {
        match self.memtable.found(id) {
            Some(Slot::Deleted) => Ok(None),
            Some(Slot::Row(i)) => match read_buffered(
                self.memtable,
                self.memtable.rows[i as int],
                parts,
            ) {
                Ok(d) => Ok(Some(d)),
                Err(e) => Err(e),
            },
            None => match newest(self.segments, id) {
                Some((index, row)) => segment::read_document(
                    self.segments[index as int],
                    row,
                    parts,
                ),
                None => Ok(None),
            },
        }
    }

    /// Live documents: the live rows of the segments and of the memtable, less the rows that the
    /// memtable overwrites and those that it deletes.
    pub open spec fn live_documents(self) -> int {
        segment::live_on_disk(self.segments) + self.memtable.live().len() - overlap(
            self.segments,
            ids_of(self.memtable.live()),
        ) - overlap(self.segments, memtable::deleted(self.memtable.index))
    }

    /// The memtable and the segments have the shape that the specification says.
    pub open spec fn wf(self) -> bool {
        &&& self.memtable.dimension == self.catalog.dimension
        &&& self.memtable.dtype == VectorDType::F32
        &&& self.memtable.wf()
        &&& self.log.next_txn > 0
        &&& self.segments.len() <= usize::MAX
        &&& forall|i: int| 0 <= i < self.segments.len() ==> (#[trigger] self.segments[i]).wf()
    }
}

/// A collection.
#[derive(Debug)]
pub struct Collection {
    catalog: Catalog,
    memtable: Memtable,
    segments: Vec<SegmentData>,
    wal: WalWriter,
    next_segment_id: u64,
    flush_threshold: usize,
}

impl View for Collection {
    type V = CollModel;

    closed spec fn view(&self) -> CollModel {
        CollModel {
            catalog: self.catalog@,
            memtable: self.memtable@,
            segments: flush::segment_models(self.segments@),
            log: self.wal@,
            next_segment_id: self.next_segment_id,
            flush_threshold: self.flush_threshold,
        }
    }
}

/// Counters for one collection.
#[derive(Debug, PartialEq)]
pub struct CollectionStats {
    /// The collection's name.
    pub name: String,
    /// The immutable specification.
    pub dimension: u32,
    /// How similarity is measured.
    pub metric: Metric,
    /// How components are stored.
    pub dtype: VectorDType,
    /// How documents are identified.
    pub id_kind: IdKind,
    /// Which index it is searched with.
    pub index: IndexSpec,
    /// Live documents.
    pub live_documents: u64,
    /// Rows in segments, live and dead alike.
    pub total_rows: u64,
    /// How many segments there are.
    pub segments: usize,
    /// Documents buffered in the memtable.
    pub buffered_documents: usize,
    /// The memtable's approximate size.
    pub memtable_bytes: usize,
    /// Dead rows in segments, which compaction would reclaim.
    pub dead_rows: u64,
}

/// The newest live row of a document in the first `n` segments, if there is one.
fn newest_row(segments: &Vec<SegmentData>, id: &DocId) -> (r: Option<(usize, u32)>)
    ensures
        r == newest(flush::segment_models(segments@), id@),
        match r {
            Some((index, row)) => {
                &&& index < segments@.len()
                &&& row < segments@[index as int]@.ids.len()
                &&& segments@[index as int]@.ids[row as int] == id@
            },
            None => true,
        },
{
    let ghost all = flush::segment_models(segments@);
    let mut n: usize = segments.len();
    assert(all.take(n as int) =~= all);
    while n > 0
        invariant
            n <= segments@.len(),
            all == flush::segment_models(segments@),
            newest(all, id@) == newest(all.take(n as int), id@),
        decreases n,
    {
        proof {
            let front = all.take(n as int);
            assert(front.last() == segments@[n - 1]@);
            assert(front.drop_last() =~= all.take(n - 1));
        }
        if let Some(row) = segments[n - 1].row_of(id) {
            if segments[n - 1].is_live(row) {
                return Some((n - 1, row));
            }
        }
        n -= 1;
    }
    None
}

impl Collection {
    /// The collection's immutable specification.
    pub fn catalog(&self) -> (r: &Catalog)
        ensures
            r@ == self@.catalog,
    {
        &self.catalog
    }

    /// The collection's name.
    pub fn name(&self) -> (r: &str)
        ensures
            r@ == self@.catalog.name,
    {
        self.catalog.name.as_str()
    }

    /// Its vector dimension.
    pub fn dimension(&self) -> (r: u32)
        ensures
            r == self@.catalog.dimension,
    {
        self.catalog.dimension
    }

    /// The log that its writes go to first.
    pub fn log(&self) -> (r: &WalWriter)
        ensures
            r@ == self@.log,
    {
        &self.wal
    }

    /// The id that its next segment will carry.
    pub fn next_segment_id(&self) -> (r: u64)
        ensures
            r == self@.next_segment_id,
    {
        self.next_segment_id
    }

    /// Find where a document currently lives, respecting shadowing.
    ///
    /// The memtable wins, because it holds the newest state; a tombstone there means the document
    /// is gone even if a segment still holds a live row for it. Then the newest segment first: an
    /// overwrite that has been flushed twice without an intervening supersede would otherwise
    /// return the older copy.
    pub fn locate(&self, id: &DocId) -> (r: Option<Located>)
        ensures
            r == self@.located(id@),
    {
        match self.memtable.get(id) {
            Some(Lookup::Deleted) => {
                return None;
            },
            Some(Lookup::Present(_)) => {
                return Some(Located::Memtable);
            },
            None => {},
        }
        match newest_row(&self.segments, id) {
            Some((index, row)) => Some(Located::Segment(index, row)),
            None => None,
        }
    }

    /// Fetch a document, with its metadata.
    ///
    /// # Errors
    /// Any corruption error, or [`crate::error::LifecycleError::DatabaseClosed`].
    pub fn get(&self, access: Access, id: &DocId) -> (r: Result<Option<Document>, DbError>)
        requires
            self@.wf(),
        ensures
            is_read(
                r,
                access,
                self@,
                id@,
                Include { vector: false, metadata: true, content: false },
            ),
    {
        self.get_with(access, id, Include::default())
    }

    /// Fetch a document, choosing what to return.
    ///
    /// Vectors are opt-in: at 768 dimensions each one is 3 KB, so returning them by default would
    /// make a hundred-document read fetch 300 KB nobody asked for.
    ///
    /// # Errors
    /// Any corruption error, or [`crate::error::LifecycleError::DatabaseClosed`].
    pub fn get_with(&self, access: Access, id: &DocId, parts: Include) -> (r: Result<
        Option<Document>,
        DbError,
    >)
        requires
            self@.wf(),
        ensures
            is_read(r, access, self@, id@, parts),
    {
        match access.check_open() {
            Ok(()) => {},
            Err(e) => {
                return Err(e);
            },
        }
        match self.memtable.get(id) {
            Some(Lookup::Deleted) => Ok(None),
            Some(Lookup::Present(row)) => match self.buffered(row, parts) {
                Ok(d) => Ok(Some(d)),
                Err(e) => Err(e),
            },
            None => match newest_row(&self.segments, id) {
                Some((index, row)) => {
                    assert(self@.segments[index as int] == self.segments@[index as int]@);
                    self.segments[index].document(row, parts)
                },
                None => Ok(None),
            },
        }
    }

    /// Read a document out of the memtable.
    fn buffered(&self, row: &MemRow, parts: Include) -> (r: Result<Document, DbError>)
        requires
            self@.wf(),
        ensures
            match read_buffered(self@.memtable, row@, parts) {
                Ok(m) => r matches Ok(d) && d@ == m,
                Err(e) => error::failed(r, e),
            },
    {
        let vector: Option<Vec<u32>> = if parts.vector {
            match self.memtable.vector_bytes(row) {
                Some(b) => match VectorView::raw(VectorDType::F32, b, self.catalog.dimension) {
                    Ok(v) => Some(v.to_f32()),
                    Err(e) => {
                        return Err(e);
                    },
                },
                None => {
                    let mut message = "memtable row ".to_owned();
                    flush::push_id_debug(&mut message, &row.id);
                    message.append(" lost its vector");
                    return Err(DbError::Internal(InternalError { message, location: "api" }));
                },
            }
        } else {
            None
        };
        let metadata: Metadata = match &row.metadata {
            Some(m) => if parts.metadata {
                m.clone()
            } else {
                Metadata::new()
            },
            None => Metadata::new(),
        };
        let content: Option<Vec<u8>> = if parts.content {
            bytes::copy_option(&row.content)
        } else {
            None
        };
        let d = Document { id: row.id.clone(), vector, metadata, content };
        assert(d@.metadata =~= read_buffered(self@.memtable, row@, parts)->Ok_0.metadata);
        Ok(d)
    }

    /// Whether a document exists.
    ///
    /// # Errors
    /// [`crate::error::LifecycleError::DatabaseClosed`].
    pub fn contains(&self, access: Access, id: &DocId) -> (r: Result<bool, DbError>)
        ensures
            if access.closed {
                error::failed(r, access::closed())
            } else {
                r matches Ok(b) && b == (self@.located(id@) is Some)
            },
    {
        match access.check_open() {
            Ok(()) => Ok(self.locate(id).is_some()),
            Err(e) => Err(e),
        }
    }

    /// Fetch a document, failing if it does not exist.
    ///
    /// # Errors
    /// [`NotFoundError::Document`], or as [`Collection::get`].
    pub fn require(&self, access: Access, id: &DocId) -> (r: Result<Document, DbError>)
        requires
            self@.wf(),
        ensures
            if access.closed {
                error::failed(r, access::closed())
            } else {
                match self@.read(id@, Include { vector: false, metadata: true, content: false }) {
                    Err(e) => error::failed(r, e),
                    Ok(None) => error::failed(
                        r,
                        ErrorModel::NotFound(
                            NotFoundModel::Document {
                                collection: self@.catalog.name,
                                id: document::id_text(id@),
                            },
                        ),
                    ),
                    Ok(Some(d)) => r matches Ok(x) && x@ == d,
                }
            },
    {
        match self.get(access, id) {
            Err(e) => Err(e),
            Ok(Some(d)) => Ok(d),
            Ok(None) => Err(
                DbError::NotFound(
                    NotFoundError::Document {
                        collection: self.catalog.name.clone(),
                        id: id.display(),
                    },
                ),
            ),
        }
    }

    /// Live documents.
    ///
    /// # Errors
    /// [`crate::error::LifecycleError::DatabaseClosed`].
    pub fn count(&self, access: Access) -> (r: Result<u64, DbError>)
        ensures
            if access.closed {
                error::failed(r, access::closed())
            } else {
                r matches Ok(n) && n == capped(self@.live_documents())
            },
    {
        match access.check_open() {
            Ok(()) => Ok(self.live_count()),
            Err(e) => Err(e),
        }
    }

    /// Live documents, counting the memtable's shadowing of segment rows.
    ///
    /// A memtable entry that shadows a live segment row must not be counted twice, and a
    /// tombstone must subtract the row it hides.
    fn live_count(&self) -> (r: u64)
        ensures
            r == capped(self@.live_documents()),
    {
        let on_disk: u128 = count_live(&self.segments);
        let rows = self.memtable.live_rows();
        let deleted = self.memtable.deleted_ids();
        let mut shadowed: u128 = 0;
        let mut i: usize = 0;
        let ghost segs = self@.segments;
        let ghost live = ids_of(self@.memtable.live());
        let ghost gone = memtable::deleted(self@.memtable.index);
        assert(live.len() == rows@.len());
        assert(live.take(0) =~= Seq::<IdModel>::empty());
        while i < rows.len()
            invariant
                i <= rows@.len(),
                segs == flush::segment_models(self.segments@),
                live == ids_of(memtable::ref_models(rows@)),
                live.len() == rows@.len(),
                shadowed == overlap(segs, live.take(i as int)),
                shadowed <= i,
            decreases rows.len() - i,
        {
            proof {
                let next = live.take(i + 1);
                assert(next.drop_last() =~= live.take(i as int));
                assert(next.last() == rows@[i as int]@.id);
            }
            if newest_row(&self.segments, &rows[i].id).is_some() {
                shadowed += 1;
            }
            i += 1;
        }
        assert(live.take(i as int) =~= live);
        let mut hidden: u128 = 0;
        let mut j: usize = 0;
        assert(gone.len() == deleted@.len());
        assert(gone.take(0) =~= Seq::<IdModel>::empty());
        while j < deleted.len()
            invariant
                j <= deleted@.len(),
                segs == flush::segment_models(self.segments@),
                gone == memtable::ref_ids(deleted@),
                gone.len() == deleted@.len(),
                hidden == overlap(segs, gone.take(j as int)),
                hidden <= j,
            decreases deleted.len() - j,
        {
            proof {
                let next = gone.take(j + 1);
                assert(next.drop_last() =~= gone.take(j as int));
                assert(next.last() == deleted@[j as int]@);
            }
            if newest_row(&self.segments, deleted[j]).is_some() {
                hidden += 1;
            }
            j += 1;
        }
        assert(gone.take(j as int) =~= gone);
        assert(self.segments.len() == self.segments@.len());
        assert(rows.len() == rows@.len());
        let seen: u128 = on_disk + rows.len() as u128;
        let unseen: u128 = shadowed + hidden;
        if seen < unseen {
            return 0;
        }
        let n: u128 = seen - unseen;
        if n > u64::MAX as u128 {
            u64::MAX
        } else {
            n as u64
        }
    }

    /// Every live document id, sorted.
    ///
    /// It materialises every id, so it is not the shape a large collection should be iterated
    /// with.
    ///
    /// # Errors
    /// [`crate::error::LifecycleError::DatabaseClosed`].
    pub fn ids(&self, access: Access) -> (r: Result<Vec<DocId>, DbError>)
        requires
            self@.wf(),
        ensures
            if access.closed {
                error::failed(r, access::closed())
            } else {
                &&& r matches Ok(v)
                &&& forall|i: int, j: int|
                    0 <= i < j < v@.len() ==> document::id_lt(
                        #[trigger] segment::id_models(v@)[i],
                        #[trigger] segment::id_models(v@)[j],
                    )
                &&& forall|id: IdModel| #[trigger]
                    segment::id_models(v@).contains(id) == (self@.located(id) is Some)
            },
    {
        match access.check_open() {
            Ok(()) => {},
            Err(e) => {
                return Err(e);
            },
        }
        Ok(self.every_id())
    }

    /// Counters for this collection.
    ///
    /// # Errors
    /// [`crate::error::LifecycleError::DatabaseClosed`].
    pub fn stats(&self, access: Access) -> (r: Result<CollectionStats, DbError>)
        ensures
            if access.closed {
                error::failed(r, access::closed())
            } else {
                &&& r matches Ok(s)
                &&& s.name@ == self@.catalog.name
                &&& s.dimension == self@.catalog.dimension
                &&& s.metric == self@.catalog.metric
                &&& s.dtype == self@.catalog.dtype
                &&& s.id_kind == self@.catalog.id_kind
                &&& s.index == self@.catalog.index
                &&& s.live_documents == capped(self@.live_documents())
                &&& s.total_rows == capped(rows_on_disk(self@.segments) as int)
                &&& s.segments == self@.segments.len()
                &&& s.buffered_documents == self@.memtable.live().len()
                &&& s.memtable_bytes == self@.memtable.size()
                &&& s.dead_rows == capped(
                    rows_on_disk(self@.segments) - segment::live_on_disk(self@.segments),
                )
            },
    {
        match access.check_open() {
            Ok(()) => {},
            Err(e) => {
                return Err(e);
            },
        }
        let total: u128 = count_rows(&self.segments);
        let live: u128 = count_live(&self.segments);
        let dead: u128 = if total >= live {
            total - live
        } else {
            0
        };
        Ok(
            CollectionStats {
                name: self.catalog.name.clone(),
                dimension: self.catalog.dimension,
                metric: self.catalog.metric,
                dtype: self.catalog.dtype,
                id_kind: self.catalog.id_kind,
                index: self.catalog.index,
                live_documents: self.live_count(),
                total_rows: fitted(total),
                segments: self.segments.len(),
                buffered_documents: self.memtable.len(),
                memtable_bytes: self.memtable.byte_size(),
                dead_rows: fitted(dead),
            },
        )
    }
}

/// A count as a 64-bit number: the largest one where it does not fit.
pub fn fitted(n: u128) -> (r: u64)
    ensures
        r == capped(n as int),
{
    if n > u64::MAX as u128 {
        u64::MAX
    } else {
        n as u64
    }
}

/// Live rows in segments.
fn count_live(segments: &Vec<SegmentData>) -> (r: u128)
    ensures
        r == segment::live_on_disk(flush::segment_models(segments@)),
        r <= u32::MAX * segments@.len(),
{
    let ghost all = flush::segment_models(segments@);
    let mut n: u128 = 0;
    let mut i: usize = 0;
    assert(all.take(0) =~= Seq::<SegmentModel>::empty());
    while i < segments.len()
        invariant
            i <= segments@.len(),
            all == flush::segment_models(segments@),
            n == segment::live_on_disk(all.take(i as int)),
            n <= u32::MAX * i,
        decreases segments.len() - i,
    {
        proof {
            let next = all.take(i + 1);
            assert(next.drop_last() =~= all.take(i as int));
            assert(next.last() == segments@[i as int]@);
        }
        n = n + segments[i].live_count() as u128;
        i += 1;
    }
    assert(all.take(i as int) =~= all);
    n
}

/// Rows in segments.
fn count_rows(segments: &Vec<SegmentData>) -> (r: u128)
    ensures
        r == rows_on_disk(flush::segment_models(segments@)),
        r <= u32::MAX * segments@.len(),
{
    let ghost all = flush::segment_models(segments@);
    let mut n: u128 = 0;
    let mut i: usize = 0;
    assert(all.take(0) =~= Seq::<SegmentModel>::empty());
    while i < segments.len()
        invariant
            i <= segments@.len(),
            all == flush::segment_models(segments@),
            n == rows_on_disk(all.take(i as int)),
            n <= u32::MAX * i,
        decreases segments.len() - i,
    {
        proof {
            let next = all.take(i + 1);
            assert(next.drop_last() =~= all.take(i as int));
            assert(next.last() == segments@[i as int]@);
        }
        n = n + segments[i].rows() as u128;
        i += 1;
    }
    assert(all.take(i as int) =~= all);
    n
}

/// Whether a read turned out as it should.
pub open spec fn is_read(
    r: Result<Option<Document>, DbError>,
    access: Access,
    c: CollModel,
    id: IdModel,
    parts: Include,
) -> bool {
    if access.closed {
        error::failed(r, access::closed())
    } else {
        match c.read(id, parts) {
            Ok(Some(m)) => r matches Ok(Some(d)) && d@ == m,
            Ok(None) => r matches Ok(o) && o is None,
            Err(e) => error::failed(r, e),
        }
    }
}

/// Whether some segment holds a live row of a document, told row by row.
pub open spec fn live_somewhere(segs: Seq<SegmentModel>, id: IdModel) -> bool {
    exists|s: int, row: int|
        0 <= s < segs.len() && 0 <= row < segs[s].ids.len() && #[trigger] segs[s].live(row)
            && segs[s].ids[row] == id
}

/// The newest live row is there exactly where some segment holds one.
pub proof fn lemma_newest(segs: Seq<SegmentModel>, id: IdModel)
    requires
        forall|i: int| 0 <= i < segs.len() ==> (#[trigger] segs[i]).wf(),
        segs.len() <= usize::MAX,
    ensures
        segment_has(segs, id) == live_somewhere(segs, id),
        newest(segs, id) matches Some((s, row)) ==> {
            &&& s < segs.len()
            &&& row < segs[s as int].ids.len()
            &&& segs[s as int].ids[row as int] == id
            &&& segs[s as int].live(row as int)
        },
    decreases segs.len(),
{
    if segs.len() > 0 {
        let front = segs.drop_last();
        let last = segs.last();
        assert forall|i: int| 0 <= i < front.len() implies (#[trigger] front[i]).wf() by {
            assert(front[i] == segs[i]);
        }
        lemma_newest(front, id);
        let row = last.row_of(id);
        assert(segs[segs.len() - 1].wf());
        if row is Some && last.live(row->0 as int) {
            let i = choose|i: int| 0 <= i < last.ids.len() && last.ids[i] == id;
            assert(last.ids[i] == id);
            assert(last.ids.len() <= u32::MAX);
            assert(segs[segs.len() - 1].live(i));
        } else {
            if live_somewhere(segs, id) {
                let (s, k) = choose|s: int, k: int|
                    0 <= s < segs.len() && 0 <= k < segs[s].ids.len() && #[trigger] segs[s].live(
                        k,
                    ) && segs[s].ids[k] == id;
                if s == segs.len() - 1 {
                    segment::lemma_row_of(last, k);
                } else {
                    assert(front[s] == segs[s]);
                    assert(front[s].live(k));
                }
            }
            if live_somewhere(front, id) {
                let (s, k) = choose|s: int, k: int|
                    0 <= s < front.len() && 0 <= k < front[s].ids.len() && #[trigger] front[s].live(
                        k,
                    ) && front[s].ids[k] == id;
                assert(segs[s] == front[s]);
                assert(segs[s].live(k));
            }
        }
    }
}

impl Collection {
    /// Every live document id, sorted.
    fn every_id(&self) -> (r: Vec<DocId>)
        requires
            self@.wf(),
        ensures
            forall|i: int, j: int|
                0 <= i < j < r@.len() ==> document::id_lt(
                    #[trigger] segment::id_models(r@)[i],
                    #[trigger] segment::id_models(r@)[j],
                ),
            forall|id: IdModel| #[trigger]
                segment::id_models(r@).contains(id) == (self@.located(id) is Some),
    {
        let mut found: IdMap<bool> = IdMap::new();
        let ghost segs = self@.segments;
        let mut s: usize = 0;
        while s < self.segments.len()
            invariant
                s <= self.segments@.len(),
                self@.wf(),
                segs == self@.segments,
                segs == flush::segment_models(self.segments@),
                idmap::ids_ascend(found@),
                forall|id: IdModel| #[trigger]
                    idmap::lookup(found@, id) is Some == (self@.memtable.found(id) is None
                        && live_somewhere(segs.take(s as int), id)),
            decreases self.segments.len() - s,
        {
            self.collect(s, &mut found);
            s += 1;
        }
        assert(segs.take(s as int) =~= segs);
        let rows = self.memtable.live_rows();
        let ghost live = self@.memtable.live();
        let ghost start = found@;
        let mut i: usize = 0;
        while i < rows.len()
            invariant
                i <= rows@.len(),
                live == memtable::ref_models(rows@),
                idmap::ids_ascend(found@),
                forall|id: IdModel| #[trigger]
                    idmap::lookup(found@, id) is Some == (idmap::lookup(start, id) is Some || exists|
                        k: int,
                    |
                        0 <= k < i && (#[trigger] live[k]).id == id),
            decreases rows.len() - i,
        {
            let ghost before = found@;
            let id = rows[i].id.clone();
            let ghost x = id@;
            proof {
                idmap::lemma_placed(before, x, true);
                assert(live[i as int].id == x);
            }
            let _ = found.insert(id, true);
            let _ = found.len();
            i += 1;
        }
        let out = keys(&found);
        assert forall|id: IdModel| #[trigger]
            segment::id_models(out@).contains(id) == (self@.located(id) is Some) by {
            lemma_newest(segs, id);
            memtable::lemma_slot_of(self@.memtable, id);
            idmap::lemma_lookup_found(found@, id);
            if let Some(Slot::Row(k)) = self@.memtable.found(id) {
                memtable_laws::lemma_present_documents_are_live(
                    self@.memtable,
                    id,
                    k,
                );
                let n = choose|n: int|
                    0 <= n < live.len() && live[n] == self@.memtable.rows[k as int];
                assert(live[n].id == id);
            }
            if exists|k: int| 0 <= k < live.len() && (#[trigger] live[k]).id == id {
                let k = choose|k: int| 0 <= k < live.len() && (#[trigger] live[k]).id == id;
                memtable_laws::lemma_live_rows_are_current(
                    self@.memtable,
                    self@.memtable.rows.len(),
                    k,
                );
            }
        }
        out
    }

    /// Add the live documents of one segment that the memtable does not know.
    fn collect(&self, s: usize, found: &mut IdMap<bool>)
        requires
            self@.wf(),
            s < self@.segments.len(),
            idmap::ids_ascend(old(found)@),
            forall|id: IdModel| #[trigger]
                idmap::lookup(old(found)@, id) is Some == (self@.memtable.found(id) is None
                    && live_somewhere(self@.segments.take(s as int), id)),
        ensures
            idmap::ids_ascend(final(found)@),
            forall|id: IdModel| #[trigger]
                idmap::lookup(final(found)@, id) is Some == (self@.memtable.found(id) is None
                    && live_somewhere(self@.segments.take(s + 1), id)),
    {
        let seg = &self.segments[s];
        let rows: u32 = seg.rows();
        let ghost start = found@;
        let mut row: u32 = 0;
        while row < rows
            invariant
                row <= rows,
                rows == seg@.ids.len(),
                idmap::ids_ascend(found@),
                forall|id: IdModel| #[trigger]
                    idmap::lookup(found@, id) is Some == (idmap::lookup(start, id) is Some || (
                    self@.memtable.found(id) is None && exists|k: int|
                        0 <= k < row && #[trigger] seg@.live(k) && seg@.ids[k] == id)),
            decreases rows - row,
        {
            let ghost before = found@;
            if seg.is_live(row) {
                if let Some(id) = seg.id_at(row) {
                    // Skip anything the memtable supersedes, so an overwritten document is not
                    // reported twice.
                    if self.memtable.get(id).is_none() {
                        let ghost x = id@;
                        proof {
                            idmap::lemma_placed(before, x, true);
                            assert(seg@.live(row as int));
                        }
                        let _ = found.insert(id.clone(), true);
                        let _ = found.len();
                    }
                }
            }
            row += 1;
        }
        proof {
            let segs = self@.segments;
            let now = segs.take(s + 1);
            let was = segs.take(s as int);
            assert(now[s as int] == seg@);
            assert forall|id: IdModel| #[trigger]
                idmap::lookup(found@, id) is Some == (self@.memtable.found(id) is None
                    && live_somewhere(now, id)) by {
                lemma_live_in_more(segs, s as int, id);
            }
        }
    }
}

/// One more segment adds the documents of its live rows.
pub proof fn lemma_live_in_more(segs: Seq<SegmentModel>, s: int, id: IdModel)
    requires
        0 <= s < segs.len(),
    ensures
        live_somewhere(segs.take(s + 1), id) == (live_somewhere(segs.take(s), id) || exists|k: int|
            0 <= k < segs[s].ids.len() && #[trigger] segs[s].live(k) && segs[s].ids[k] == id),
{
    let now = segs.take(s + 1);
    let was = segs.take(s);
    if live_somewhere(now, id) {
        let (a, k) = choose|a: int, k: int|
            0 <= a < now.len() && 0 <= k < now[a].ids.len() && #[trigger] now[a].live(k)
                && now[a].ids[k] == id;
        if a < s {
            assert(was[a] == now[a]);
            assert(was[a].live(k));
        } else {
            assert(segs[s].live(k));
        }
    }
    if live_somewhere(was, id) {
        let (a, k) = choose|a: int, k: int|
            0 <= a < was.len() && 0 <= k < was[a].ids.len() && #[trigger] was[a].live(k)
                && was[a].ids[k] == id;
        assert(now[a] == was[a]);
        assert(now[a].live(k));
    }
    if exists|k: int| 0 <= k < segs[s].ids.len() && #[trigger] segs[s].live(k) && segs[s].ids[k]
        == id {
        let k = choose|k: int|
            0 <= k < segs[s].ids.len() && #[trigger] segs[s].live(k) && segs[s].ids[k] == id;
        assert(now[s].live(k));
    }
}

/// The ids of a map, in order.
fn keys(map: &IdMap<bool>) -> (r: Vec<DocId>)
    ensures
        r@.len() == map@.len(),
        forall|i: int, j: int|
            0 <= i < j < r@.len() ==> document::id_lt(
                #[trigger] segment::id_models(r@)[i],
                #[trigger] segment::id_models(r@)[j],
            ),
        forall|id: IdModel| #[trigger]
            segment::id_models(r@).contains(id) == (idmap::lookup(map@, id) is Some),
{
    let n: usize = map.len();
    let mut out: Vec<DocId> = Vec::new();
    let mut i: usize = 0;
    while i < n
        invariant
            i <= n,
            n == map@.len(),
            out@.len() == i,
            forall|k: int| 0 <= k < i ==> (#[trigger] out@[k])@ == map@[k].0,
        decreases n - i,
    {
        out.push(map.id_at(i).clone());
        i += 1;
    }
    proof {
        let ids = segment::id_models(out@);
        assert forall|a: int, b: int| 0 <= a < b < ids.len() implies document::id_lt(
            #[trigger] ids[a],
            #[trigger] ids[b],
        ) by {
            assert(ids[a] == map@[a].0);
            assert(ids[b] == map@[b].0);
        }
        assert forall|id: IdModel| #[trigger]
            ids.contains(id) == (idmap::lookup(map@, id) is Some) by {
            idmap::lemma_lookup_found(map@, id);
            if ids.contains(id) {
                let k = choose|k: int| 0 <= k < ids.len() && ids[k] == id;
                assert(map@[k].0 == id);
                idmap::lemma_lookup_at(map@, k);
            }
            if idmap::lookup(map@, id) is Some {
                let v = idmap::lookup(map@, id)->0;
                let k = choose|k: int| 0 <= k < map@.len() && #[trigger] map@[k] == (id, v);
                assert(ids[k] == id);
            }
        }
    }
    out
}

} // verus!
