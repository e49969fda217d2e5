//! Reading segments.
//!
//! A segment is immutable once written, apart from its tombstone bitmap. That is what lets
//! readers work without locks: a reader scanning a segment cannot race a writer, because
//! writers only ever create new segments.
//!
//! The contents of a segment's files come in as plain byte strings.
use vstd::prelude::*;
use vstd::slice::slice_to_vec;

use crate::bytes;
use crate::document;
use crate::document::{DocId, Document, DocumentModel, IdKind, IdModel, Include};
use crate::error;
use crate::error::convert;
use crate::error::convert::from_format_at;
use crate::error::{
    CorruptionError, CorruptionModel, DbError, ErrorModel, InternalError, InternalModel,
};
use crate::format::block;
use crate::format::catalog::{Catalog, CatalogModel};
use crate::format::manifest::SegmentRef;
use crate::format::segment::directory;
use crate::format::segment::directory::{Directory, RowEntry};
use crate::format::segment::meta;
use crate::format::segment::meta::{MetaBlock, MetaRecord, RecordModel};
use crate::format::segment::tombstones;
use crate::format::segment::tombstones::{BitmapModel, Tombstones};
use crate::format::segment::vectors;
use crate::format::segment::vectors::VectorBlock;
use crate::format::value::{Value, ValueModel};
use crate::idmap;
use crate::idmap::IdMap;
use crate::metadata::Metadata;
use crate::path;
use crate::path::DbPath;
use crate::persistence::layout;
use crate::persistence::layout::SegmentFile;
use crate::text;
use crate::vector::VectorDType;

verus! {

/// The contents of a segment's files, each as far as it was there.
#[derive(Debug)]
pub struct SegmentFiles {
    /// The fixed-stride vectors.
    pub vectors: Option<Vec<u8>>,
    /// The row directory.
    pub directory: Option<Vec<u8>>,
    /// The metadata and content records.
    pub metadata: Option<Vec<u8>>,
    /// The live and dead rows.
    pub tombstones: Option<Vec<u8>>,
}

impl SegmentFiles {
    /// The contents of one of the files.
    pub open spec fn held(self, which: SegmentFile) -> Option<Seq<u8>> {
        match which {
            SegmentFile::Vectors => bytes::option_bytes(self.vectors),
            SegmentFile::Directory => bytes::option_bytes(self.directory),
            SegmentFile::Metadata => bytes::option_bytes(self.metadata),
            SegmentFile::Tombstones => bytes::option_bytes(self.tombstones),
        }
    }

    /// The contents of one of the files.
    pub fn file(&self, which: SegmentFile) -> (r: &Option<Vec<u8>>)
        ensures
            bytes::option_bytes(*r) == self.held(which),
    {
        match which {
            SegmentFile::Vectors => &self.vectors,
            SegmentFile::Directory => &self.directory,
            SegmentFile::Metadata => &self.metadata,
            SegmentFile::Tombstones => &self.tombstones,
        }
    }
}

/// The error for a file that the manifest promised and that is not there.
pub open spec fn missing(collection: Seq<char>, segment: u64) -> ErrorModel {
    ErrorModel::Corruption(CorruptionModel::MissingSegment { collection, segment })
}

/// Live rows in segments.
pub open spec fn live_on_disk(segs: Seq<SegmentModel>) -> nat
    decreases segs.len(),
{
    if segs.len() == 0 {
        0
    } else {
        live_on_disk(segs.drop_last()) + segs.last().tombstones.live_rows()
    }
}

/// The error for files that disagree.
pub open spec fn inconsistent(collection: Seq<char>, detail: Seq<char>) -> ErrorModel {
    ErrorModel::Corruption(CorruptionModel::InconsistentIndex { collection, detail })
}

/// The error for a broken invariant.
pub open spec fn internal(message: Seq<char>) -> ErrorModel {
    ErrorModel::Internal(InternalModel { message, location: "persistence" })
}

/// A broken invariant.
pub fn broken(message: String) -> (r: DbError)
    ensures
        r@ == internal(message@),
{
    DbError::Internal(InternalError { message, location: "persistence" })
}

/// The path of one of a segment's files, or the error for a name that makes none.
pub open spec fn file_path(name: Seq<char>, id: u64, which: SegmentFile) -> Result<
    Seq<char>,
    ErrorModel,
> {
    layout::path_of(layout::segment_text(name, id, which))
}

/// What the row counts of three files that disagree are reported as.
pub open spec fn counts_text(manifest: u32, directory: u32, bitmap: u32) -> Seq<char> {
    "manifest says "@ + text::decimal(manifest as nat) + " rows, directory says "@ + text::decimal(
        directory as nat,
    ) + ", bitmap covers "@ + text::decimal(bitmap as nat)
}

/// What an id that occurs twice is reported as.
pub open spec fn duplicate_text(id: IdModel, row: u32) -> Seq<char> {
    "duplicate id "@ + text::quoted(document::id_text(id)) + " at row "@ + text::decimal(row as nat)
}

/// What a segment holds.
pub struct SegmentModel {
    pub id: u64,
    pub dimension: u32,
    pub dtype: VectorDType,
    /// The whole `.vec` file.
    pub vec_bytes: Seq<u8>,
    /// The records of the `.meta` file.
    pub meta_payload: Seq<u8>,
    /// The row table.
    pub entries: Seq<RowEntry>,
    /// The document of each row.
    pub ids: Seq<IdModel>,
    pub tombstones: BitmapModel,
}

impl SegmentModel {
    /// Bytes per stored vector.
    pub open spec fn stride(self) -> nat {
        self.dtype.stride(self.dimension)
    }

    /// Whether a row is live.
    pub open spec fn live(self, row: int) -> bool {
        self.tombstones.live(row)
    }

    /// The row of a document, whether or not it is live.
    pub open spec fn row_of(self, id: IdModel) -> Option<u32> {
        if exists|i: int| 0 <= i < self.ids.len() && self.ids[i] == id {
            Some((choose|i: int| 0 <= i < self.ids.len() && self.ids[i] == id) as u32)
        } else {
            None
        }
    }

    /// As many ids as entries, each once, and a bitmap that covers them.
    pub open spec fn wf(self) -> bool {
        &&& self.entries.len() == self.ids.len()
        &&& self.tombstones.rows == self.ids.len()
        &&& self.tombstones.wf()
        &&& forall|i: int, j: int|
            0 <= i < j < self.ids.len() ==> #[trigger] self.ids[i] != #[trigger] self.ids[j]
    }

    /// The record of a row. A row that is not there has none.
    pub open spec fn record(self, row: u32) -> Result<RecordModel, ErrorModel> {
        if row < self.entries.len() {
            match meta::record_at(self.meta_payload, self.entries[row as int]) {
                Ok(r) => Ok(r),
                Err(e) => Err(convert::reported(e, path::root_text())),
            }
        } else {
            Ok(RecordModel { metadata: None, content: None })
        }
    }

    /// The stored vector of a row, where there is one.
    pub open spec fn vector(self, row: u32) -> Result<Option<Seq<u8>>, ErrorModel> {
        match vectors::vector_data(self.vec_bytes, self.stride() as int) {
            Ok(d) => if row < d.len() / self.stride() {
                Ok(Some(vectors::row_bytes(d, self.stride() as int, row as int)))
            } else {
                Ok(None)
            },
            Err(e) => Err(convert::reported(e, path::root_text())),
        }
    }
}

/// The fields of a record's metadata. A record without a map of fields has none.
pub open spec fn record_fields(r: RecordModel) -> Seq<(Seq<char>, ValueModel)> {
    match r.metadata {
        Some(ValueModel::Object(m)) => m,
        _ => Seq::empty(),
    }
}

/// The error for a row of the directory that the vector block lacks.
pub open spec fn lacks_vector(row: u32) -> ErrorModel {
    internal(
        "row "@ + text::decimal(row as nat) + " is in the directory but not the vector block"@,
    )
}

/// The parts of a record that a read asked for.
pub open spec fn read_record(m: SegmentModel, row: u32, parts: Include) -> Result<
    (Seq<(Seq<char>, ValueModel)>, Option<Seq<u8>>),
    ErrorModel,
> {
    if parts.metadata || parts.content {
        match m.record(row) {
            Err(e) => Err(e),
            Ok(r) => Ok(
                (
                    if parts.metadata {
                        record_fields(r)
                    } else {
                        Seq::empty()
                    },
                    if parts.content {
                        r.content
                    } else {
                        None
                    },
                ),
            ),
        }
    } else {
        Ok((Seq::empty(), None))
    }
}

/// The components that a read asked for.
pub open spec fn read_vector(m: SegmentModel, row: u32, parts: Include) -> Result<
    Option<Seq<u32>>,
    ErrorModel,
> {
    if parts.vector {
        match m.vector(row) {
            Err(e) => Err(e),
            Ok(None) => Err(lacks_vector(row)),
            Ok(Some(b)) => Ok(Some(vectors::components(b))),
        }
    } else {
        Ok(None)
    }
}

/// The document at a row as a read asked for it: nothing for a dead row.
pub open spec fn read_document(m: SegmentModel, row: u32, parts: Include) -> Result<
    Option<DocumentModel>,
    ErrorModel,
> {
    if !m.live(row as int) {
        Ok(None)
    } else {
        match read_record(m, row, parts) {
            Err(e) => Err(e),
            Ok((metadata, content)) => match read_vector(m, row, parts) {
                Err(e) => Err(e),
                Ok(vector) => Ok(
                    Some(DocumentModel { id: m.ids[row as int], vector, metadata, content }),
                ),
            },
        }
    }
}

/// The ids of the first `n` rows of a directory, or what is wrong with the first that cannot be
/// read or occurs twice.
pub open spec fn read_ids(
    name: Seq<char>,
    kind: IdKind,
    raw: spec_fn(int) -> Seq<u8>,
    n: nat,
) -> Result<Seq<IdModel>, ErrorModel>
    decreases n,
{
    if n == 0 {
        Ok(Seq::empty())
    } else {
        match read_ids(name, kind, raw, (n - 1) as nat) {
            Err(e) => Err(e),
            Ok(ids) => match document::id_of(kind, raw(n - 1)) {
                Err(e) => Err(e),
                Ok(id) => if ids.contains(id) {
                    Err(inconsistent(name, duplicate_text(id, (n - 1) as u32)))
                } else {
                    Ok(ids.push(id))
                },
            },
        }
    }
}

/// The raw id of each row of a directory's table and heap.
pub open spec fn raw_ids(table: Seq<u8>, heap: Seq<u8>) -> spec_fn(int) -> Seq<u8> {
    |i: int|
        {
            let e = directory::table_entry(table, i)->0;
            heap.subrange(e.id_offset as int, e.id_offset + e.id_len)
        }
}

/// The entries of a directory's table.
pub open spec fn table_entries(table: Seq<u8>) -> Seq<RowEntry> {
    Seq::new((table.len() / 24) as nat, |i: int| directory::table_entry(table, i)->0)
}

/// One of a segment's files and its path, or why it cannot be had.
pub open spec fn required(c: CatalogModel, id: u64, which: SegmentFile, held: Option<Seq<u8>>) -> Result<
    (Seq<u8>, Seq<char>),
    ErrorModel,
> {
    match file_path(c.name, id, which) {
        Err(e) => Err(e),
        Ok(p) => match held {
            None => Err(missing(c.name, id)),
            Some(b) => Ok((b, p)),
        },
    }
}

/// The segment that a directory, a bitmap and the rest make, or why they make none.
pub open spec fn assembled(
    c: CatalogModel,
    seg: SegmentRef,
    vec_bytes: Seq<u8>,
    meta_payload: Seq<u8>,
    dir: (Seq<u8>, Seq<u8>),
    bitmap: BitmapModel,
) -> Result<SegmentModel, ErrorModel> {
    let rows = (dir.0.len() / 24) as u32;
    if rows != seg.rows || bitmap.rows != seg.rows {
        Err(inconsistent(c.name, counts_text(seg.rows, rows, bitmap.rows)))
    } else {
        match read_ids(c.name, c.id_kind, raw_ids(dir.0, dir.1), rows as nat) {
            Err(e) => Err(e),
            Ok(ids) => Ok(
                SegmentModel {
                    id: seg.id,
                    dimension: c.dimension,
                    dtype: c.dtype,
                    vec_bytes,
                    meta_payload,
                    entries: table_entries(dir.0),
                    ids,
                    tombstones: bitmap,
                },
            ),
        }
    }
}

/// The segment that four files hold, or the first thing wrong with them.
#[verifier::opaque]
pub open spec fn opened(c: CatalogModel, seg: SegmentRef, f: SegmentFiles) -> Result<
    SegmentModel,
    ErrorModel,
> {
    match required(c, seg.id, SegmentFile::Vectors, f.held(SegmentFile::Vectors)) {
        Err(e) => Err(e),
        Ok((vec_bytes, _)) => match required(
            c,
            seg.id,
            SegmentFile::Directory,
            f.held(SegmentFile::Directory),
        ) {
            Err(e) => Err(e),
            Ok((dir, dir_path)) => match required(
                c,
                seg.id,
                SegmentFile::Metadata,
                f.held(SegmentFile::Metadata),
            ) {
                Err(e) => Err(e),
                Ok((records, meta_path)) => match block::opened(
                    records,
                    SegmentFile::Metadata.spec_kind(),
                ) {
                    Err(e) => Err(convert::reported(e, meta_path)),
                    Ok(payload) => match required(
                        c,
                        seg.id,
                        SegmentFile::Tombstones,
                        f.held(SegmentFile::Tombstones),
                    ) {
                        Err(e) => Err(e),
                        Ok((del, del_path)) => match directory::opened_directory(dir) {
                            Err(e) => Err(convert::reported(e, dir_path)),
                            Ok(d) => match tombstones::decoded(del) {
                                Err(e) => Err(convert::reported(e, del_path)),
                                Ok(t) => assembled(c, seg, vec_bytes, payload, d, t),
                            },
                        },
                    },
                },
            },
        },
    }
}

/// An open segment, with its four blocks read into memory.
///
/// The metadata file's payload is stored with header and trailer already stripped, because a
/// filtered scan reads one record per candidate row.
#[derive(Debug)]
pub struct SegmentData {
    id: u64,
    stride: usize,
    dtype: VectorDType,
    dimension: u32,
    vec_bytes: Vec<u8>,
    meta_payload: Vec<u8>,
    entries: Vec<RowEntry>,
    ids: Vec<DocId>,
    by_id: IdMap<u32>,
    tombstones: Tombstones,
}

/// What a list of ids holds.
pub open spec fn id_models(ids: Seq<DocId>) -> Seq<IdModel> {
    ids.map_values(|id: DocId| id@)
}

impl View for SegmentData {
    type V = SegmentModel;

    closed spec fn view(&self) -> SegmentModel {
        SegmentModel {
            id: self.id,
            dimension: self.dimension,
            dtype: self.dtype,
            vec_bytes: self.vec_bytes@,
            meta_payload: self.meta_payload@,
            entries: self.entries@,
            ids: id_models(self.ids@),
            tombstones: self.tombstones@,
        }
    }
}

/// Whether a map finds the row of every document, and of no other.
pub open spec fn finds_rows(map: Seq<(IdModel, u32)>, ids: Seq<IdModel>) -> bool {
    &&& forall|i: int| 0 <= i < ids.len() ==> idmap::lookup(map, #[trigger] ids[i]) == Some(i as u32)
    &&& forall|x: IdModel|
        match #[trigger] idmap::lookup(map, x) {
            Some(r) => r < ids.len() && ids[r as int] == x,
            None => true,
        }
}

fn present(held: &Option<Vec<u8>>, collection: &str, id: u64, which: SegmentFile) -> (r: Result<
    DbPath,
    DbError,
>)
    ensures
        match file_path(collection@, id, which) {
            Err(e) => error::failed(r, e),
            Ok(p) => match bytes::option_bytes(*held) {
                None => error::failed(r, missing(collection@, id)),
                Some(_) => r matches Ok(q) && q@ == p && held is Some,
            },
        },
{
    let path = match layout::segment_file(collection, id, which) {
        Ok(p) => p,
        Err(e) => {
            return Err(e);
        },
    };
    match held {
        Some(_) => Ok(path),
        None => Err(
            DbError::Corruption(
                CorruptionError::MissingSegment { collection: collection.to_owned(), segment: id },
            ),
        ),
    }
}

fn counts_message(manifest: u32, directory: u32, bitmap: u32) -> (r: String)
    ensures
        r@ == counts_text(manifest, directory, bitmap),
{
    let mut out = "manifest says ".to_owned();
    text::push_decimal(&mut out, manifest as u64);
    out.append(" rows, directory says ");
    text::push_decimal(&mut out, directory as u64);
    out.append(", bitmap covers ");
    text::push_decimal(&mut out, bitmap as u64);
    out
}

fn duplicate_message(id: &DocId, row: u32) -> (r: String)
    ensures
        r@ == duplicate_text(id@, row),
{
    let mut out = "duplicate id ".to_owned();
    text::push_quoted(&mut out, id.display().as_str());
    out.append(" at row ");
    text::push_decimal(&mut out, row as u64);
    out
}

proof fn lemma_read_ids_err(
    name: Seq<char>,
    kind: IdKind,
    raw: spec_fn(int) -> Seq<u8>,
    k: nat,
    n: nat,
)
    requires
        k <= n,
        read_ids(name, kind, raw, k) is Err,
    ensures
        read_ids(name, kind, raw, n) == read_ids(name, kind, raw, k),
    decreases n,
{
    if k < n {
        lemma_read_ids_err(name, kind, raw, k, (n - 1) as nat);
    }
}

/// As many ids are read as rows are asked for, each once.
pub proof fn lemma_read_ids(name: Seq<char>, kind: IdKind, raw: spec_fn(int) -> Seq<u8>, n: nat)
    requires
        read_ids(name, kind, raw, n) is Ok,
    ensures
        ({
            let ids = read_ids(name, kind, raw, n)->Ok_0;
            &&& ids.len() == n
            &&& forall|i: int, j: int|
                0 <= i < j < ids.len() ==> #[trigger] ids[i] != #[trigger] ids[j]
            &&& forall|i: int|
                0 <= i < ids.len() ==> document::id_of(kind, raw(i)) == Ok::<IdModel, ErrorModel>(
                    #[trigger] ids[i],
                )
        }),
    decreases n,
{
    if n > 0 {
        lemma_read_ids(name, kind, raw, (n - 1) as nat);
        let front = read_ids(name, kind, raw, (n - 1) as nat)->Ok_0;
        let ids = read_ids(name, kind, raw, n)->Ok_0;
        assert forall|i: int, j: int| 0 <= i < j < ids.len() implies #[trigger] ids[i]
            != #[trigger] ids[j] by {
            if j < front.len() {
                assert(front[i] != front[j]);
            } else {
                assert(front[i] == ids[i]);
                assert(front.contains(ids[i]));
            }
        }
        assert forall|i: int| 0 <= i < ids.len() implies document::id_of(kind, raw(i)) == Ok::<
            IdModel,
            ErrorModel,
        >(#[trigger] ids[i]) by {
            if i < front.len() {
                assert(front[i] == ids[i]);
            }
        }
    }
}

/// Read the row table of a directory once: its entries, its ids and a map from id to row.
fn read_table(name: &str, kind: IdKind, dir: &Directory<'_>) -> (r: Result<
    (Vec<RowEntry>, Vec<DocId>, IdMap<u32>),
    DbError,
>)
    requires
        dir.wf(),
        0 <= dir.spec_rows() <= u32::MAX,
    ensures
        ({
            let raw = raw_ids(dir.spec_table(), dir.spec_heap());
            match read_ids(name@, kind, raw, dir.spec_rows() as nat) {
                Err(e) => error::failed(r, e),
                Ok(ids) => {
                    &&& r matches Ok((entries, list, map))
                    &&& entries@ == table_entries(dir.spec_table())
                    &&& id_models(list@) == ids
                    &&& finds_rows(map@, ids)
                },
            }
        }),
{
    let rows: u32 = dir.rows();
    let ghost raw = raw_ids(dir.spec_table(), dir.spec_heap());
    let ghost table = table_entries(dir.spec_table());
    let mut entries: Vec<RowEntry> = Vec::new();
    let mut ids: Vec<DocId> = Vec::new();
    let mut by_id: IdMap<u32> = IdMap::new();
    let mut row: u32 = 0;
    proof {
        assert(table.take(0) =~= entries@);
        assert(id_models(ids@) =~= Seq::<IdModel>::empty());
    }
    while row < rows
        invariant
            row <= rows,
            rows == dir.spec_rows(),
            dir.wf(),
            raw == raw_ids(dir.spec_table(), dir.spec_heap()),
            table == table_entries(dir.spec_table()),
            entries@ == table.take(row as int),
            read_ids(name@, kind, raw, row as nat) == Ok::<Seq<IdModel>, ErrorModel>(
                id_models(ids@),
            ),
            ids@.len() == row,
            finds_rows(by_id@, id_models(ids@)),
        decreases rows - row,
    {
        let entry: RowEntry = match dir.entry(row) {
            Some(e) => e,
            None => {
                assert(false);
                return Err(broken("directory entry vanished".to_owned()));
            },
        };
        let bytes = match dir.id(row) {
            Some(b) => b,
            None => {
                assert(false);
                return Err(broken("directory id vanished".to_owned()));
            },
        };
        assert(bytes@ == raw(row as int));
        let ghost before = id_models(ids@);
        let id = match DocId::from_bytes(kind, bytes) {
            Ok(id) => id,
            Err(e) => {
                proof {
                    lemma_read_ids_err(name@, kind, raw, row as nat + 1, rows as nat);
                }
                return Err(e);
            },
        };
        let seen: Option<u32> = by_id.get(&id);
        if seen.is_some() {
            proof {
                assert(before[seen->0 as int] == id@);
                assert(before.contains(id@));
                lemma_read_ids_err(name@, kind, raw, row as nat + 1, rows as nat);
            }
            return Err(
                DbError::Corruption(
                    CorruptionError::InconsistentIndex {
                        collection: name.to_owned(),
                        detail: duplicate_message(&id, row),
                    },
                ),
            );
        }
        proof {
            if before.contains(id@) {
                let k = choose|k: int| 0 <= k < before.len() && before[k] == id@;
                assert(idmap::lookup(by_id@, before[k]) == Some(k as u32));
            }
        }
        let ghost was = by_id@;
        let ghost key = id@;
        // Reading the length establishes that the map is sorted.
        let _ = by_id.len();
        by_id.insert(id.clone(), row);
        entries.push(entry);
        ids.push(id);
        proof {
            idmap::lemma_placed(was, key, row);
            let after = id_models(ids@);
            assert(after =~= before.push(key));
            assert(table.take(row + 1) =~= table.take(row as int).push(entry));
            assert forall|i: int| 0 <= i < after.len() implies idmap::lookup(
                by_id@,
                #[trigger] after[i],
            ) == Some(i as u32) by {
                if i < before.len() {
                    assert(after[i] == before[i]);
                    assert(before.contains(before[i]));
                }
            }
            assert forall|x: IdModel|
                match #[trigger] idmap::lookup(by_id@, x) {
                    Some(r) => r < after.len() && after[r as int] == x,
                    None => true,
                } by {
                if x != key {
                    assert(idmap::lookup(by_id@, x) == idmap::lookup(was, x));
                }
            }
        }
        row += 1;
    }
    assert(table.take(rows as int) =~= table);
    Ok((entries, ids, by_id))
}

impl SegmentData {
    #[verifier::type_invariant]
    spec fn consistent(self) -> bool {
        &&& self@.wf()
        &&& self.ids@.len() <= u32::MAX
        &&& self.stride == self@.stride()
        &&& finds_rows(self.by_id@, self@.ids)
    }

    /// Open a segment named by a manifest entry.
    ///
    /// # Errors
    /// [`CorruptionError::MissingSegment`] if a file the manifest promised is absent,
    /// [`CorruptionError::InconsistentIndex`] if the manifest, the directory and the bitmap do
    /// not agree about how many rows exist or an id occurs twice, or any other corruption.
    pub fn open(catalog: &Catalog, seg: &SegmentRef, files: SegmentFiles) -> (r: Result<
        Self,
        DbError,
    >)
        ensures
            match opened(catalog@, *seg, files) {
                Ok(m) => r matches Ok(s) && s@ == m && m.wf(),
                Err(e) => error::failed(r, e),
            },
    {
        proof {
            reveal(opened);
        }
        let name = catalog.name.as_str();
        match present(&files.vectors, name, seg.id, SegmentFile::Vectors) {
            Ok(_) => {},
            Err(e) => {
                return Err(e);
            },
        }
        let dir_path = match present(&files.directory, name, seg.id, SegmentFile::Directory) {
            Ok(p) => p,
            Err(e) => {
                return Err(e);
            },
        };
        let meta_path = match present(&files.metadata, name, seg.id, SegmentFile::Metadata) {
            Ok(p) => p,
            Err(e) => {
                return Err(e);
            },
        };
        let meta_bytes = files.metadata.unwrap();
        let meta_payload = match MetaBlock::open(meta_bytes.as_slice()) {
            Ok(m) => slice_to_vec(m.payload()),
            Err(e) => {
                return Err(from_format_at(e, &meta_path));
            },
        };
        let del_path = match present(&files.tombstones, name, seg.id, SegmentFile::Tombstones) {
            Ok(p) => p,
            Err(e) => {
                return Err(e);
            },
        };
        let dir_bytes = files.directory.unwrap();
        let directory = match Directory::open(dir_bytes.as_slice()) {
            Ok(d) => d,
            Err(e) => {
                return Err(from_format_at(e, &dir_path));
            },
        };
        let del_bytes = files.tombstones.unwrap();
        let tombstones = match Tombstones::decode(del_bytes.as_slice()) {
            Ok(t) => t,
            Err(e) => {
                return Err(from_format_at(e, &del_path));
            },
        };
        let rows: u32 = directory.rows();
        // A disagreement means one of the three is from a different flush, which would make
        // every row index mean something different depending on which file answered.
        if rows != seg.rows || tombstones.rows != seg.rows {
            return Err(
                DbError::Corruption(
                    CorruptionError::InconsistentIndex {
                        collection: name.to_owned(),
                        detail: counts_message(seg.rows, rows, tombstones.rows),
                    },
                ),
            );
        }
        let (entries, ids, by_id) = match read_table(name, catalog.id_kind, &directory) {
            Ok(t) => t,
            Err(e) => {
                return Err(e);
            },
        };
        proof {
            lemma_read_ids(
                name@,
                catalog.id_kind,
                raw_ids(directory.spec_table(), directory.spec_heap()),
                rows as nat,
            );
        }
        Ok(
            SegmentData {
                id: seg.id,
                stride: catalog.row_stride(),
                dtype: catalog.dtype,
                dimension: catalog.dimension,
                vec_bytes: files.vectors.unwrap(),
                meta_payload,
                entries,
                ids,
                by_id,
                tombstones,
            },
        )
    }

    /// The segment's id.
    pub fn id(&self) -> (r: u64)
        ensures
            r == self@.id,
    {
        self.id
    }

    /// Components in every vector.
    pub fn dimension(&self) -> (r: u32)
        ensures
            r == self@.dimension,
    {
        self.dimension
    }

    /// Rows in the segment, live and dead alike.
    pub fn rows(&self) -> (r: u32)
        ensures
            r == self@.ids.len(),
            self@.wf(),
    {
        proof {
            use_type_invariant(self);
        }
        self.ids.len() as u32
    }

    /// Live rows.
    pub fn live_count(&self) -> (r: u32)
        ensures
            r == self@.tombstones.live_rows(),
    {
        self.tombstones.live_count()
    }

    /// Whether a row is live.
    pub fn is_live(&self, row: u32) -> (r: bool)
        ensures
            r == self@.live(row as int),
    {
        self.tombstones.is_live(row)
    }

    /// Find a document's row, whether or not it is live.
    pub fn row_of(&self, id: &DocId) -> (r: Option<u32>)
        ensures
            r == self@.row_of(id@),
            self@.wf(),
            match r {
                Some(row) => row < self@.ids.len() && self@.ids[row as int] == id@,
                None => !self@.ids.contains(id@),
            },
    {
        proof {
            use_type_invariant(self);
            if exists|i: int| 0 <= i < self@.ids.len() && self@.ids[i] == id@ {
                let i = choose|i: int| 0 <= i < self@.ids.len() && self@.ids[i] == id@;
                assert(idmap::lookup(self.by_id@, self@.ids[i]) == Some(i as u32));
            }
        }
        self.by_id.get(id)
    }

    /// A row's id.
    pub fn id_at(&self, row: u32) -> (r: Option<&DocId>)
        ensures
            if row < self@.ids.len() {
                r matches Some(id) && id@ == self@.ids[row as int]
            } else {
                r is None
            },
    {
        proof {
            use_type_invariant(self);
        }
        if (row as usize) < self.ids.len() {
            Some(&self.ids[row as usize])
        } else {
            None
        }
    }

    /// The bits of a row's cached reciprocal norm.
    pub fn inv_norm(&self, row: u32) -> (r: Option<u32>)
        ensures
            r == if row < self@.entries.len() {
                Some(self@.entries[row as int].inv_norm)
            } else {
                None
            },
    {
        if (row as usize) < self.entries.len() {
            Some(self.entries[row as usize].inv_norm)
        } else {
            None
        }
    }

    /// The vector block, for scanning.
    ///
    /// # Errors
    /// [`CorruptionError`] if the block's header or extent is wrong.
    pub fn vectors(&self) -> (r: Result<VectorBlock<'_>, DbError>)
        ensures
            match vectors::vector_data(self@.vec_bytes, self@.stride() as int) {
                Ok(d) => r matches Ok(b) && b.wf() && b.spec_data() == d && b.spec_stride()
                    == self@.stride(),
                Err(e) => error::failed(r, convert::reported(e, path::root_text())),
            },
    {
        proof {
            use_type_invariant(self);
        }
        match VectorBlock::open(self.vec_bytes.as_slice(), self.stride) {
            Ok(b) => Ok(b),
            Err(e) => Err(from_format_at(e, &DbPath::root())),
        }
    }

    /// Mark a row dead. Returns whether it changed.
    pub fn kill(&mut self, row: u32) -> (r: bool)
        ensures
            r == old(self)@.live(row as int),
            final(self)@ == (SegmentModel { tombstones: final(self)@.tombstones, ..old(self)@ }),
            final(self)@.wf(),
            final(self)@.tombstones.rows == old(self)@.tombstones.rows,
            final(self)@.tombstones.generation == old(self)@.tombstones.generation,
            forall|i: int| #[trigger]
                final(self)@.live(i) == (old(self)@.live(i) && i != row),
    {
        proof {
            use_type_invariant(&*self);
        }
        let mut t = self.tombstones.copy();
        let r: bool = t.kill(row);
        self.tombstones = t;
        proof {
            assert forall|i: int| #[trigger] self@.live(i) == (old(self)@.live(i) && i != row) by {
                assert(self@.tombstones.live(i) == (old(self)@.tombstones.live(i) && i != row));
            }
        }
        r
    }

    /// The tombstone bitmap, for persisting after deletions.
    pub fn tombstones(&self) -> (r: &Tombstones)
        ensures
            r@ == self@.tombstones,
    {
        &self.tombstones
    }

    /// The tombstone bitmap's file once its generation is bumped, and the new generation.
    ///
    /// The bitmap is the only mutable part of a segment, and the only reason a delete does not
    /// rewrite hundreds of megabytes.
    pub fn persist_tombstones(&mut self) -> (r: (u32, Vec<u8>))
        ensures
            ({
                let t = BitmapModel {
                    generation: if old(self)@.tombstones.generation == u32::MAX {
                        u32::MAX
                    } else {
                        (old(self)@.tombstones.generation + 1) as u32
                    },
                    ..old(self)@.tombstones
                };
                &&& final(self)@ == (SegmentModel { tombstones: t, ..old(self)@ })
                &&& final(self)@.wf()
                &&& r.0 == t.generation
                &&& r.1@ == block::block_bytes(
                    SegmentFile::Tombstones.spec_kind(),
                    tombstones::bitmap_bytes(t),
                )
            }),
    {
        proof {
            use_type_invariant(&*self);
        }
        let mut t = self.tombstones.copy();
        t.generation = t.generation.saturating_add(1);
        let bytes = t.encode();
        let generation: u32 = t.generation;
        self.tombstones = t;
        (generation, bytes)
    }

    /// A row's stored record, metadata and content together.
    ///
    /// # Errors
    /// [`CorruptionError`] if the directory points outside the metadata file.
    pub fn meta_record(&self, row: u32) -> (r: Result<MetaRecord, DbError>)
        ensures
            match self@.record(row) {
                Ok(m) => r matches Ok(v) && v@ == m,
                Err(e) => error::failed(r, e),
            },
    {
        if (row as usize) >= self.entries.len() {
            return Ok(MetaRecord { metadata: None, content: None });
        }
        match MetaBlock::from_payload(self.meta_payload.as_slice()).record(
            &self.entries[row as usize],
        ) {
            Ok(r) => Ok(r),
            Err(e) => Err(from_format_at(e, &DbPath::root())),
        }
    }

    /// Read just a row's metadata.
    ///
    /// # Errors
    /// [`CorruptionError`] if the directory points outside the metadata file.
    pub fn metadata(&self, row: u32) -> (r: Result<Metadata, DbError>)
        ensures
            match self@.record(row) {
                Ok(m) => r matches Ok(v) && v@ == record_fields(m),
                Err(e) => error::failed(r, e),
            },
    {
        match self.meta_record(row) {
            Ok(record) => Ok(fields_of(record.metadata)),
            Err(e) => Err(e),
        }
    }

    /// Read a document out of the segment.
    ///
    /// Returns `None` for a dead row, so callers cannot accidentally resurrect a deleted
    /// document by asking for it by row.
    ///
    /// # Errors
    /// [`CorruptionError`] if the directory points outside the metadata file, or the vector
    /// block is short.
    pub fn document(&self, row: u32, parts: Include) -> (r: Result<Option<Document>, DbError>)
        ensures
            match read_document(self@, row, parts) {
                Ok(Some(m)) => r matches Ok(Some(d)) && d@ == m,
                Ok(None) => r matches Ok(o) && o is None,
                Err(e) => error::failed(r, e),
            },
    {
        proof {
            use_type_invariant(self);
        }
        if !self.is_live(row) {
            return Ok(None);
        }
        let id = self.ids[row as usize].clone();
        let mut metadata = Metadata::new();
        assert(metadata@ =~= Seq::empty());
        let mut content: Option<Vec<u8>> = None;
        if parts.metadata || parts.content {
            let record = match self.meta_record(row) {
                Ok(r) => r,
                Err(e) => {
                    return Err(e);
                },
            };
            if parts.metadata {
                metadata = fields_of(record.metadata);
            }
            if parts.content {
                content = record.content;
            }
        }
        let vector: Option<Vec<u32>> = if parts.vector {
            let block = match self.vectors() {
                Ok(b) => b,
                Err(e) => {
                    return Err(e);
                },
            };
            match block.row_f32(row) {
                Some(v) => Some(v),
                None => {
                    let mut message = "row ".to_owned();
                    text::push_decimal(&mut message, row as u64);
                    message.append(" is in the directory but not the vector block");
                    return Err(broken(message));
                },
            }
        } else {
            None
        };
        Ok(Some(Document { id, vector, metadata, content }))
    }
}

fn fields_of(v: Option<Value>) -> (r: Metadata)
    ensures
        r@ == (match meta::option_value(v) {
            Some(ValueModel::Object(m)) => m,
            _ => Seq::empty(),
        }),
{
    match v {
        Some(Value::Object(m)) => Metadata::from_map(m),
        _ => {
            let m = Metadata::new();
            assert(m@ =~= Seq::empty());
            m
        },
    }
}

/// Whether the checksum of one of a segment's files holds, or what is wrong with it.
pub open spec fn file_verified(name: Seq<char>, id: u64, which: SegmentFile, held: Option<Seq<u8>>) -> Result<
    (),
    ErrorModel,
> {
    match file_path(name, id, which) {
        Err(e) => Err(e),
        Ok(p) => match held {
            None => Err(missing(name, id)),
            Some(b) => match block::decoded(b, which.spec_kind()) {
                Ok(_) => Ok(()),
                Err(e) => Err(convert::reported(e, p)),
            },
        },
    }
}

/// Whether the checksums of all of a segment's files hold, or the first thing wrong with them.
pub open spec fn files_verified(name: Seq<char>, id: u64, f: SegmentFiles) -> Result<(), ErrorModel> {
    match file_verified(name, id, SegmentFile::Vectors, f.held(SegmentFile::Vectors)) {
        Err(e) => Err(e),
        Ok(_) => match file_verified(
            name,
            id,
            SegmentFile::Directory,
            f.held(SegmentFile::Directory),
        ) {
            Err(e) => Err(e),
            Ok(_) => match file_verified(
                name,
                id,
                SegmentFile::Metadata,
                f.held(SegmentFile::Metadata),
            ) {
                Err(e) => Err(e),
                Ok(_) => file_verified(
                    name,
                    id,
                    SegmentFile::Tombstones,
                    f.held(SegmentFile::Tombstones),
                ),
            },
        },
    }
}

fn verify_file(name: &str, id: u64, which: SegmentFile, held: &Option<Vec<u8>>) -> (r: Result<
    (),
    DbError,
>)
    ensures
        match file_verified(name@, id, which, bytes::option_bytes(*held)) {
            Ok(_) => r is Ok,
            Err(e) => error::failed(r, e),
        },
{
    let path = match present(held, name, id, which) {
        Ok(p) => p,
        Err(e) => {
            return Err(e);
        },
    };
    match held {
        Some(b) => match block::verify_block(b.as_slice(), which.kind()) {
            Ok(()) => Ok(()),
            Err(e) => Err(from_format_at(e, &path)),
        },
        None => Ok(()),
    }
}

/// Verify every checksum in a segment's files.
///
/// Not done on open (reading a whole vector block to answer "may I open this?" would make
/// startup unusable on a large collection), so it is a separate, explicit operation.
///
/// # Errors
/// [`CorruptionError::ChecksumMismatch`] naming the file that failed.
pub fn verify_checksums(name: &str, id: u64, files: &SegmentFiles) -> (r: Result<(), DbError>)
    ensures
        match files_verified(name@, id, *files) {
            Ok(_) => r is Ok,
            Err(e) => error::failed(r, e),
        },
{
    match verify_file(name, id, SegmentFile::Vectors, &files.vectors) {
        Ok(()) => {},
        Err(e) => {
            return Err(e);
        },
    }
    match verify_file(name, id, SegmentFile::Directory, &files.directory) {
        Ok(()) => {},
        Err(e) => {
            return Err(e);
        },
    }
    match verify_file(name, id, SegmentFile::Metadata, &files.metadata) {
        Ok(()) => {},
        Err(e) => {
            return Err(e);
        },
    }
    verify_file(name, id, SegmentFile::Tombstones, &files.tombstones)
}

/// A dead row is never read back, whatever a read asks for.
pub proof fn lemma_dead_rows_stay_dead(m: SegmentModel, row: u32, parts: Include)
    requires
        !m.live(row as int),
    ensures
        read_document(m, row, parts) == Ok::<Option<DocumentModel>, ErrorModel>(None),
{
}

/// In a segment each document has one row.
pub proof fn lemma_row_of(m: SegmentModel, row: int)
    requires
        m.wf(),
        0 <= row < m.ids.len() <= u32::MAX,
    ensures
        m.row_of(m.ids[row]) == Some(row as u32),
{
    let i = choose|i: int| 0 <= i < m.ids.len() && m.ids[i] == m.ids[row];
    assert(m.ids[i] == m.ids[row]);
    if i < row {
        assert(m.ids[i] != m.ids[row]);
    } else if row < i {
        assert(m.ids[row] != m.ids[i]);
    }
}

proof fn lemma_read_ids_kind(name: Seq<char>, kind: IdKind, raw: spec_fn(int) -> Seq<u8>, n: nat)
    requires
        read_ids(name, kind, raw, n) is Ok,
    ensures
        forall|i: int|
            0 <= i < read_ids(name, kind, raw, n)->Ok_0.len() ==> document::of_kind(
                #[trigger] read_ids(name, kind, raw, n)->Ok_0[i],
                kind,
            ),
    decreases n,
{
    if n > 0 {
        lemma_read_ids_kind(name, kind, raw, (n - 1) as nat);
    }
}

/// The documents of an open segment have ids of the kind that its collection uses.
pub proof fn lemma_opened_ids_are_of_kind(c: CatalogModel, seg: SegmentRef, f: SegmentFiles, i: int)
    requires
        opened(c, seg, f) is Ok,
        0 <= i < opened(c, seg, f)->Ok_0.ids.len(),
    ensures
        document::of_kind(opened(c, seg, f)->Ok_0.ids[i], c.id_kind),
{
    reveal(opened);
    let dir = required(c, seg.id, SegmentFile::Directory, f.held(SegmentFile::Directory))->Ok_0.0;
    let d = directory::opened_directory(dir)->Ok_0;
    lemma_read_ids_kind(c.name, c.id_kind, raw_ids(d.0, d.1), (d.0.len() / 24) as u32 as nat);
}

/// An open segment has the id that it is named by, and as many rows as its reference says.
pub proof fn lemma_opened_shape(c: CatalogModel, seg: SegmentRef, f: SegmentFiles)
    ensures
        opened(c, seg, f) matches Ok(m) ==> m.id == seg.id && m.ids.len() == seg.rows && m.dimension
            == c.dimension,
{
    reveal(opened);
    if let Ok(m) = opened(c, seg, f) {
        let dir = required(
            c,
            seg.id,
            SegmentFile::Directory,
            f.held(SegmentFile::Directory),
        )->Ok_0.0;
        let d = directory::opened_directory(dir)->Ok_0;
        lemma_read_ids_len(c.name, c.id_kind, raw_ids(d.0, d.1), (d.0.len() / 24) as u32 as nat);
    }
}

proof fn lemma_read_ids_len(name: Seq<char>, kind: IdKind, raw: spec_fn(int) -> Seq<u8>, n: nat)
    requires
        read_ids(name, kind, raw, n) is Ok,
    ensures
        read_ids(name, kind, raw, n)->Ok_0.len() == n,
    decreases n,
{
    if n > 0 {
        lemma_read_ids_len(name, kind, raw, (n - 1) as nat);
    }
}

} // verus!
