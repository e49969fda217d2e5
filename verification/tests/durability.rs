//! The full durability loop: write, flush, commit, reopen — and crash at every step of it.
//!
//! The interesting orderings are a crash between writing a segment and committing the manifest
//! that names it, and one between committing and checkpointing the log.

use std::cell::{Cell, RefCell};
use std::collections::BTreeMap;
use std::rc::Rc;

use vdb::api::collection::open::orphans;
use vdb::document::{DocId, Include};
use vdb::error::{DbError, StorageError, StorageOp};
use vdb::format::catalog::{Catalog, IdKind, IndexSpec, Metric, VectorDType};
use vdb::format::manifest::{CollectionEntry, Manifest, SegmentRef, Slot};
use vdb::format::value::Value;
use vdb::format::wal::WalOp;
use vdb::metadata::Metadata;
use vdb::path::DbPath;
use vdb::persistence::catalog::{read_catalog, write_catalog};
use vdb::persistence::flush::{flush_memtable, FlushResult};
use vdb::persistence::layout;
use vdb::persistence::layout::SegmentFile;
use vdb::persistence::manifest::ManifestStore;
use vdb::persistence::recovery::replay_into;
use vdb::persistence::segment::{SegmentData, SegmentFiles};
use vdb::persistence::wal::WalWriter;
use vdb::persistence::Durability;
use vdb::vector::VectorView;
use vdb::write::memtable::Memtable;

/// What goes wrong with one operation.
#[derive(Clone, Copy, Debug)]
enum Fault {
    /// The process dies: this operation and everything after it fails.
    Crash,
}

#[derive(Default)]
struct Files {
    current: BTreeMap<String, Vec<u8>>,
}

/// Files held in memory, with a fault injected at one of the operations that change them. Clones
/// share the files, not the fault.
#[derive(Clone)]
struct MemoryStorage {
    files: Rc<RefCell<Files>>,
    ops: Rc<Cell<u64>>,
    dead: Rc<Cell<bool>>,
    fault: Option<(u64, Fault)>,
}

fn failed(path: &DbPath, operation: StorageOp) -> DbError {
    DbError::Storage(StorageError::Io {
        path: path.clone(),
        operation,
        detail: "injected".to_owned(),
    })
}

impl MemoryStorage {
    fn new() -> Self {
        MemoryStorage {
            files: Rc::new(RefCell::new(Files::default())),
            ops: Rc::new(Cell::new(0)),
            dead: Rc::new(Cell::new(false)),
            fault: None,
        }
    }

    /// The same files, with a fault at an operation counted from here.
    fn failing_at(&self, index: u64, fault: Fault) -> Self {
        MemoryStorage {
            files: self.files.clone(),
            ops: Rc::new(Cell::new(0)),
            dead: Rc::new(Cell::new(false)),
            fault: Some((index, fault)),
        }
    }

    fn op_count(&self) -> u64 {
        self.ops.get()
    }

    /// Count an operation, and fail it where it has to fail.
    fn begin(&self, path: &DbPath, operation: StorageOp) -> Result<(), DbError> {
        if self.dead.get() {
            return Err(failed(path, operation));
        }
        let index = self.ops.get();
        self.ops.set(index + 1);
        match self.fault {
            Some((at, Fault::Crash)) if at == index => {
                self.dead.set(true);
                Err(failed(path, operation))
            }
            _ => Ok(()),
        }
    }

    fn create_dir_all(&self, path: &DbPath) -> Result<(), DbError> {
        self.begin(path, StorageOp::CreateDir)
    }

    fn write(&self, path: &DbPath, bytes: &[u8]) -> Result<(), DbError> {
        self.begin(path, StorageOp::Write)?;
        self.files
            .borrow_mut()
            .current
            .insert(path.as_str().to_owned(), bytes.to_vec());
        Ok(())
    }

    /// Append, and say where the bytes went.
    fn append(&self, path: &DbPath, bytes: &[u8]) -> Result<u64, DbError> {
        self.begin(path, StorageOp::Append)?;
        let mut files = self.files.borrow_mut();
        let file = files.current.entry(path.as_str().to_owned()).or_default();
        let offset = file.len() as u64;
        file.extend_from_slice(bytes);
        Ok(offset)
    }

    fn sync(&self, path: &DbPath) -> Result<(), DbError> {
        self.begin(path, StorageOp::Sync)
    }

    fn truncate(&self, path: &DbPath, len: usize) -> Result<(), DbError> {
        self.begin(path, StorageOp::Truncate)?;
        if let Some(file) = self.files.borrow_mut().current.get_mut(path.as_str()) {
            file.truncate(len);
        }
        Ok(())
    }

    fn remove_file(&self, path: &DbPath) -> Result<(), DbError> {
        self.begin(path, StorageOp::Remove)?;
        self.files.borrow_mut().current.remove(path.as_str());
        Ok(())
    }

    fn read(&self, path: &DbPath) -> Option<Vec<u8>> {
        self.files.borrow().current.get(path.as_str()).cloned()
    }
}

/// The bits of a list of components.
fn bits(values: &[f32]) -> Vec<u32> {
    values.iter().map(|v| v.to_bits()).collect()
}

/// The bits of the reciprocal of a stored vector's norm, zero for the zero vector.
fn stored_norm(row: &[u8]) -> u32 {
    let squares: f32 = row
        .chunks_exact(4)
        .map(|c| f32::from_le_bytes([c[0], c[1], c[2], c[3]]))
        .map(|v| v * v)
        .sum();
    let n = squares.sqrt();
    if n > 0.0 && n.is_finite() {
        (1.0 / n).to_bits()
    } else {
        0.0f32.to_bits()
    }
}

fn norm_of(values: &[f32]) -> u32 {
    stored_norm(&VectorView::floats(&bits(values)).to_bytes())
}

fn floats(values: &[u32]) -> Vec<f32> {
    values.iter().map(|b| f32::from_bits(*b)).collect()
}

const NAME: &str = "products";
const DIM: u32 = 2;
const ID_KIND: IdKind = IdKind::Str { max_len: 64 };

fn catalog() -> Catalog {
    Catalog {
        name: NAME.to_owned(),
        dimension: DIM,
        metric: Metric::Cosine,
        dtype: VectorDType::F32,
        id_kind: ID_KIND,
        index: IndexSpec::Flat,
        created_at_ms: 1_000,
    }
}

fn put(id: &str, values: [f32; 2]) -> WalOp {
    WalOp::Put {
        id: id.as_bytes().to_vec(),
        vector: VectorView::floats(&bits(&values)).to_bytes(),
        metadata: vec![],
        content: None,
    }
}

fn wal_path() -> DbPath {
    layout::wal_file(NAME, 1).unwrap()
}

/// Everything a reopen reconstructs.
struct Recovered {
    /// Live documents, id to vector.
    live: BTreeMap<String, Vec<f32>>,
    /// Segment files present on disk but named by no manifest.
    orphans: Vec<u64>,
}

/// Make a file durable.
fn put_file(storage: &MemoryStorage, path: &DbPath, bytes: &[u8]) -> Result<(), DbError> {
    storage.write(path, bytes)?;
    storage.sync(path)
}

fn load_manifest(storage: &MemoryStorage) -> Result<Option<ManifestStore>, DbError> {
    let a = storage.read(&layout::manifest(Slot::A)?);
    let b = storage.read(&layout::manifest(Slot::B)?);
    ManifestStore::load(a.as_deref(), b.as_deref())
}

fn commit(
    storage: &MemoryStorage,
    store: &mut ManifestStore,
    next: Manifest,
    now_ms: u64,
) -> Result<(), DbError> {
    let pending = store.commit(next, now_ms)?;
    put_file(storage, &layout::manifest(pending.slot)?, &pending.bytes)?;
    store.adopt(pending);
    Ok(())
}

fn stored_catalog(storage: &MemoryStorage) -> Result<Catalog, DbError> {
    read_catalog(NAME, &storage.read(&layout::catalog(NAME)?))
}

fn segment_ids(storage: &MemoryStorage) -> Result<Vec<u64>, DbError> {
    let prefix = format!("{}/", layout::segments_dir(NAME)?.as_str());
    let names: Vec<String> = storage
        .files
        .borrow()
        .current
        .keys()
        .filter_map(|n| n.strip_prefix(&prefix))
        .map(str::to_owned)
        .collect();
    Ok(layout::list_segment_ids(&names))
}

fn segment_path(id: u64, which: SegmentFile) -> Result<DbPath, DbError> {
    layout::segment_file(NAME, id, which)
}

fn open_segment(
    storage: &MemoryStorage,
    cat: &Catalog,
    seg_ref: &SegmentRef,
) -> Result<SegmentData, DbError> {
    let files = SegmentFiles {
        vectors: storage.read(&segment_path(seg_ref.id, SegmentFile::Vectors)?),
        directory: storage.read(&segment_path(seg_ref.id, SegmentFile::Directory)?),
        metadata: storage.read(&segment_path(seg_ref.id, SegmentFile::Metadata)?),
        tombstones: storage.read(&segment_path(seg_ref.id, SegmentFile::Tombstones)?),
    };
    SegmentData::open(cat, seg_ref, files)
}

fn remove_segment(storage: &MemoryStorage, id: u64) -> Result<(), DbError> {
    for which in [
        SegmentFile::Vectors,
        SegmentFile::Directory,
        SegmentFile::Metadata,
        SegmentFile::Tombstones,
    ] {
        storage.remove_file(&segment_path(id, which)?)?;
    }
    Ok(())
}

fn flush_to(
    storage: &MemoryStorage,
    cat: &Catalog,
    id: u64,
    memtable: &Memtable,
) -> Result<FlushResult, DbError> {
    let (result, image) = flush_memtable(cat, id, memtable)?;
    put_file(storage, &segment_path(id, SegmentFile::Vectors)?, &image.vectors)?;
    put_file(storage, &segment_path(id, SegmentFile::Directory)?, &image.directory)?;
    put_file(storage, &segment_path(id, SegmentFile::Metadata)?, &image.metadata)?;
    put_file(storage, &segment_path(id, SegmentFile::Tombstones)?, &image.tombstones)?;
    Ok(result)
}

fn replay(storage: &MemoryStorage, memtable: &mut Memtable) -> Result<(), DbError> {
    let log = storage.read(&wal_path()).unwrap_or_default();
    let report = replay_into(&log, &wal_path(), ID_KIND, stored_norm, memtable)?;
    if report.truncated_tail {
        storage.truncate(&wal_path(), report.valid_bytes as usize)?;
    }
    Ok(())
}

/// Create a database: catalog, first manifest, empty collection entry.
fn create(storage: &MemoryStorage) -> Result<(), DbError> {
    storage.create_dir_all(&layout::collections_dir()?)?;
    let pending = write_catalog(&catalog())?;
    storage.create_dir_all(&pending.dir)?;
    put_file(storage, &pending.path, &pending.bytes)?;
    storage.create_dir_all(&layout::wal_dir(NAME)?)?;
    let first = ManifestStore::create([1u8; 16], 1_000)?;
    put_file(storage, &layout::manifest(first.slot)?, &first.bytes)?;
    let mut store = ManifestStore::adopted(first);
    let mut m = store.current().clone();
    m.collections.push(CollectionEntry {
        name: NAME.to_owned(),
        segments: vec![],
        index_snapshot: None,
        last_applied_wal: 0,
        live_count: 0,
        total_rows: 0,
    });
    commit(storage, &mut store, m, 1_001)
}

/// Reopen: read the manifest, open its segments, replay the log over them, clean up orphans.
fn reopen(storage: &MemoryStorage, clean_orphans: bool) -> Result<Recovered, DbError> {
    let nothing = Recovered {
        live: BTreeMap::new(),
        orphans: vec![],
    };
    let Some(store) = load_manifest(storage)? else {
        return Ok(nothing);
    };
    let Some(entry) = store.current().collection(NAME) else {
        return Ok(nothing);
    };
    let cat = stored_catalog(storage)?;

    // Segment files present but unreferenced are aborted flushes.
    let orphans = orphans(entry, &segment_ids(storage)?);
    if clean_orphans {
        for id in &orphans {
            remove_segment(storage, *id)?;
        }
    }

    let mut live: BTreeMap<String, Vec<f32>> = BTreeMap::new();
    for seg_ref in &entry.segments {
        let seg = open_segment(storage, &cat, seg_ref)?;
        for row in 0..seg.rows() {
            if let Some(doc) = seg.document(row, Include::everything())? {
                live.insert(doc.id.display(), floats(&doc.vector.unwrap_or_default()));
            }
        }
    }

    // The log is replayed *over* the segments. Replaying frames already folded into a segment
    // is harmless because both operations are idempotent — which is exactly what makes it safe
    // to commit the manifest before checkpointing the log.
    let mut memtable = Memtable::new(cat.dimension, VectorDType::F32);
    replay(storage, &mut memtable)?;
    for row in memtable.live_rows() {
        let bytes = memtable.vector_bytes(row).unwrap();
        let v = VectorView::raw(VectorDType::F32, bytes, cat.dimension)?.to_f32();
        live.insert(row.id.display(), floats(&v));
    }
    for id in memtable.deleted_ids() {
        live.remove(&id.display());
    }

    Ok(Recovered { live, orphans })
}

/// Write some documents to the log, then fold them into a segment and commit.
fn write_and_flush(
    storage: &MemoryStorage,
    ops: Vec<WalOp>,
    segment_id: u64,
) -> Result<(), DbError> {
    let cat = stored_catalog(storage)?;

    let len = storage.read(&wal_path()).map_or(0, |b| b.len() as u64);
    let mut w = WalWriter::open(wal_path(), len, 1, 1, Durability::Batch);
    for op in &ops {
        let pending = w.append(op.clone())?;
        let offset = storage.append(&wal_path(), &pending.bytes)?;
        w.landed(&pending, offset)?;
    }
    storage.sync(&wal_path())?;
    w.sync();

    // Rebuild the memtable from the log, exactly as recovery would, so the flush cannot depend
    // on in-memory state a crashed process would not have had.
    let mut memtable = Memtable::new(cat.dimension, VectorDType::F32);
    replay(storage, &mut memtable)?;

    let result = flush_to(storage, &cat, segment_id, &memtable)?;

    let mut store = load_manifest(storage)?.expect("a manifest must exist");
    let mut manifest = store.current().clone();
    let mut segments: Vec<SegmentRef> = manifest
        .collection(NAME)
        .map(|c| c.segments.clone())
        .unwrap_or_default();

    // Apply deletions to the segments that actually hold the rows.
    for id in &result.pending_deletions {
        for seg_ref in segments.iter_mut() {
            let mut seg = open_segment(storage, &cat, seg_ref)?;
            if let Some(row) = seg.row_of(id) {
                if seg.kill(row) {
                    let (generation, bytes) = seg.persist_tombstones();
                    let del = segment_path(seg_ref.id, SegmentFile::Tombstones)?;
                    put_file(storage, &del, &bytes)?;
                    seg_ref.del_generation = generation;
                }
            }
        }
    }
    if result.segment.rows > 0 {
        segments.push(result.segment);
    } else {
        remove_segment(storage, segment_id)?;
    }

    let total_rows: u64 = segments.iter().map(|s| u64::from(s.rows)).sum();
    let mut live_count = 0u64;
    for seg_ref in &segments {
        live_count += u64::from(open_segment(storage, &cat, seg_ref)?.live_count());
    }
    manifest.collections = vec![CollectionEntry {
        name: NAME.to_owned(),
        segments,
        index_snapshot: None,
        last_applied_wal: 0,
        live_count,
        total_rows,
    }];
    commit(storage, &mut store, manifest, 2_000)?;

    // Checkpoint last. A crash before this leaves the log holding frames already in the
    // segment, which replay reapplies harmlessly.
    storage.truncate(&wal_path(), 0)?;
    storage.sync(&wal_path())
}

// ---------------------------------------------------------------------------

#[test]
fn write_flush_and_reopen_returns_what_was_written() {
    let mem = MemoryStorage::new();
    create(&mem).unwrap();
    write_and_flush(&mem, vec![put("a", [1.0, 0.0]), put("b", [0.0, 1.0])], 1).unwrap();

    let r = reopen(&mem, false).unwrap();
    assert_eq!(r.live.len(), 2);
    assert_eq!(r.live["a"], vec![1.0, 0.0]);
    assert_eq!(r.live["b"], vec![0.0, 1.0]);
    assert!(r.orphans.is_empty());

    // And the log was checkpointed, so a second reopen does not double-count.
    assert_eq!(reopen(&mem, false).unwrap().live.len(), 2);
}

#[test]
fn several_flushes_accumulate_into_several_segments() {
    let mem = MemoryStorage::new();
    create(&mem).unwrap();
    write_and_flush(&mem, vec![put("a", [1.0, 0.0])], 1).unwrap();
    write_and_flush(&mem, vec![put("b", [0.0, 1.0])], 2).unwrap();
    write_and_flush(&mem, vec![put("c", [1.0, 1.0])], 3).unwrap();

    let store = load_manifest(&mem).unwrap().unwrap();
    let entry = store.current().collection(NAME).unwrap();
    assert_eq!(entry.segments.len(), 3);
    assert_eq!(entry.total_rows, 3);
    assert_eq!(entry.live_count, 3);
    assert_eq!(reopen(&mem, false).unwrap().live.len(), 3);
}

/// A delete of a document living in an older segment must reach that segment's bitmap.
#[test]
fn a_delete_reaches_a_document_in_an_earlier_segment() {
    let mem = MemoryStorage::new();
    create(&mem).unwrap();
    write_and_flush(&mem, vec![put("a", [1.0, 0.0]), put("b", [0.0, 1.0])], 1).unwrap();
    write_and_flush(&mem, vec![WalOp::Delete { id: b"a".to_vec() }], 2).unwrap();

    let r = reopen(&mem, false).unwrap();
    assert_eq!(r.live.keys().collect::<Vec<_>>(), vec!["b"]);

    let store = load_manifest(&mem).unwrap().unwrap();
    let entry = store.current().collection(NAME).unwrap();
    assert_eq!(entry.live_count, 1);
    assert_eq!(
        entry.total_rows, 2,
        "the dead row is still on disk until compaction"
    );
    assert_eq!(
        entry.segments[0].del_generation, 1,
        "the bitmap was rewritten"
    );
}

#[test]
fn overwriting_a_document_in_an_earlier_segment_returns_the_newer_value() {
    let mem = MemoryStorage::new();
    create(&mem).unwrap();
    write_and_flush(&mem, vec![put("a", [1.0, 0.0])], 1).unwrap();
    write_and_flush(&mem, vec![put("a", [9.0, 9.0])], 2).unwrap();

    let r = reopen(&mem, false).unwrap();
    assert_eq!(r.live["a"], vec![9.0, 9.0], "the later segment must win");
}

/// The sweep over the whole cycle.
#[test]
fn crashing_anywhere_in_the_write_flush_commit_cycle_stays_recoverable() {
    // Two legal outcomes: the flush committed, or it did not.
    let before: BTreeMap<String, Vec<f32>> =
        [("a".to_owned(), vec![1.0, 0.0])].into_iter().collect();
    let after: BTreeMap<String, Vec<f32>> = [
        ("a".to_owned(), vec![1.0, 0.0]),
        ("b".to_owned(), vec![0.0, 1.0]),
    ]
    .into_iter()
    .collect();

    // Size the sweep against a clean run.
    let probe = MemoryStorage::new();
    let counting = probe.clone();
    create(&counting).unwrap();
    write_and_flush(&counting, vec![put("a", [1.0, 0.0])], 1).unwrap();
    let base = counting.op_count();
    write_and_flush(&counting, vec![put("b", [0.0, 1.0])], 2).unwrap();
    let total = counting.op_count();
    assert!(
        total - base > 8,
        "the flush cycle should touch several files: {}",
        total - base
    );

    for index in base..total {
        let mem = MemoryStorage::new();
        create(&mem).unwrap();
        write_and_flush(&mem, vec![put("a", [1.0, 0.0])], 1).unwrap();

        let faulty = mem.failing_at(index - base, Fault::Crash);
        let _ = write_and_flush(&faulty, vec![put("b", [0.0, 1.0])], 2);

        let r = reopen(&mem, true).unwrap_or_else(|e| {
            panic!(
                "crash at cycle operation {} was unrecoverable: {e:?}",
                index - base
            )
        });
        assert!(
            r.live == before || r.live == after,
            "crash at cycle operation {}: recovered {:?}, expected one of {:?} / {:?}",
            index - base,
            r.live,
            before,
            after
        );

        // Whatever happened, the database must still be usable afterwards.
        write_and_flush(&mem, vec![put("c", [2.0, 2.0])], 3)
            .unwrap_or_else(|e| panic!("database unusable after a crash at {}: {e:?}", index - base));
        assert!(reopen(&mem, true).unwrap().live.contains_key("c"));
    }
}

/// A crash between writing a segment and committing the manifest leaves files nothing points
/// at. They must be removed, not left to accumulate or — worse — be picked up by a later flush
/// that reuses the id.
#[test]
fn an_aborted_flush_leaves_orphan_files_that_reopening_removes() {
    let mem = MemoryStorage::new();
    create(&mem).unwrap();
    write_and_flush(&mem, vec![put("a", [1.0, 0.0])], 1).unwrap();

    // Write a segment's files without ever committing a manifest naming it.
    let cat = stored_catalog(&mem).unwrap();
    let mut memtable = Memtable::new(DIM, VectorDType::F32);
    memtable
        .put_view(
            DocId::from("ghost"),
            VectorView::floats(&bits(&[7.0, 7.0])),
            norm_of(&[7.0, 7.0]),
            None,
            None,
        )
        .unwrap();
    flush_to(&mem, &cat, 99, &memtable).unwrap();
    assert!(segment_ids(&mem).unwrap().contains(&99));

    let r = reopen(&mem, true).unwrap();
    assert_eq!(r.orphans, vec![99]);
    assert!(
        !r.live.contains_key("ghost"),
        "an uncommitted segment must be invisible"
    );
    assert!(
        !segment_ids(&mem).unwrap().contains(&99),
        "the orphan should have been cleaned up"
    );
}

/// A segment the manifest promises but which is not on disk is data loss, and must be reported
/// rather than quietly skipped. Silently opening a database with a missing segment would show
/// the user a collection that has lost documents with no indication anything went wrong.
#[test]
fn a_missing_segment_is_reported_not_skipped() {
    let mem = MemoryStorage::new();
    create(&mem).unwrap();
    write_and_flush(&mem, vec![put("a", [1.0, 0.0]), put("b", [0.0, 1.0])], 1).unwrap();

    mem.remove_file(&layout::segment_file(NAME, 1, SegmentFile::Vectors).unwrap())
        .unwrap();

    match reopen(&mem, false) {
        Err(e) => {
            assert!(e.is_corruption(), "expected corruption, got {e:?}");
            assert!(
                e.message().contains("products"),
                "should name the collection: {e:?}"
            );
        }
        Ok(r) => panic!("a missing segment was skipped, recovering {:?}", r.live),
    }
}

/// The row count in the manifest, the directory and the bitmap must agree, or every row index
/// means something different depending on which file answered.
#[test]
fn a_segment_whose_files_disagree_about_row_count_is_rejected() {
    let mem = MemoryStorage::new();
    create(&mem).unwrap();
    write_and_flush(&mem, vec![put("a", [1.0, 0.0]), put("b", [0.0, 1.0])], 1).unwrap();

    let mut store = load_manifest(&mem).unwrap().unwrap();
    let mut manifest = store.current().clone();
    manifest.collections[0].segments[0].rows = 5;
    manifest.collections[0].total_rows = 5;
    commit(&mem, &mut store, manifest, 3_000).unwrap();

    match reopen(&mem, false) {
        Err(e) => assert!(e.is_corruption(), "expected corruption, got {e:?}"),
        Ok(r) => panic!(
            "an inconsistent segment was accepted, recovering {:?}",
            r.live
        ),
    }
}

#[test]
fn a_flushed_segment_reads_back_its_metadata_and_content() {
    let mem = MemoryStorage::new();
    create(&mem).unwrap();
    let cat = stored_catalog(&mem).unwrap();

    let mut meta = Metadata::new();
    meta.insert("category", Value::Str("tools".into()));
    meta.insert("price", Value::F64(19.99f64.to_bits()));

    let mut memtable = Memtable::new(DIM, VectorDType::F32);
    memtable
        .put_view(
            DocId::from("full"),
            VectorView::floats(&bits(&[3.0, 4.0])),
            norm_of(&[3.0, 4.0]),
            Some(meta.clone()),
            Some(b"the source text".to_vec()),
        )
        .unwrap();
    memtable
        .put_view(
            DocId::from("bare"),
            VectorView::floats(&bits(&[1.0, 0.0])),
            norm_of(&[1.0, 0.0]),
            None,
            None,
        )
        .unwrap();
    let result = flush_to(&mem, &cat, 1, &memtable).unwrap();

    let seg = open_segment(&mem, &cat, &result.segment).unwrap();
    assert_eq!(seg.rows(), 2);
    assert_eq!(seg.live_count(), 2);

    let row = seg.row_of(&DocId::from("full")).unwrap();
    let doc = seg.document(row, Include::everything()).unwrap().unwrap();
    assert_eq!(doc.metadata, meta);
    assert_eq!(doc.content.as_deref(), Some(b"the source text".as_slice()));
    assert_eq!(doc.vector, Some(bits(&[3.0, 4.0])));
    assert!((f32::from_bits(seg.inv_norm(row).unwrap()) - 0.2).abs() < 1e-6);

    // A bare document reads back with empty metadata, not a failure.
    let bare_row = seg.row_of(&DocId::from("bare")).unwrap();
    let bare = seg.document(bare_row, Include::everything()).unwrap().unwrap();
    assert!(bare.metadata.is_empty());
    assert_eq!(bare.content, None);

    // Only what was asked for comes back.
    let lean = seg.document(row, Include::nothing()).unwrap().unwrap();
    assert!(lean.vector.is_none());
    assert!(lean.metadata.is_empty());
}

#[test]
fn a_dead_row_cannot_be_read_back_by_index() {
    let mem = MemoryStorage::new();
    create(&mem).unwrap();
    let cat = stored_catalog(&mem).unwrap();

    let mut memtable = Memtable::new(DIM, VectorDType::F32);
    memtable
        .put_view(
            DocId::from("doomed"),
            VectorView::floats(&bits(&[1.0, 1.0])),
            norm_of(&[1.0, 1.0]),
            None,
            None,
        )
        .unwrap();
    let result = flush_to(&mem, &cat, 1, &memtable).unwrap();

    let mut seg = open_segment(&mem, &cat, &result.segment).unwrap();
    let row = seg.row_of(&DocId::from("doomed")).unwrap();
    assert!(seg.document(row, Include::everything()).unwrap().is_some());
    assert!(seg.kill(row));
    assert!(
        seg.document(row, Include::everything()).unwrap().is_none(),
        "a deleted document must not be resurrectable by row index"
    );
    assert_eq!(seg.live_count(), 0);
}
