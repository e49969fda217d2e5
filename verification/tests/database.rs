//! The public API, exercised the way an application does: over files held in memory.

use std::cell::{Cell, RefCell};
use std::collections::BTreeMap;
use std::rc::Rc;

use vdb::api::batch::{BatchReport, WriteBatch};
use vdb::api::collection::open::orphans;
use vdb::api::collection::staging::{StagedWrite, UpsertOutcome};
use vdb::api::collection::Collection as Shelf;
use vdb::api::collection::CollectionStats;
use vdb::api::compact::{compact, CompactReport};
use vdb::api::config::{CollectionSpec, DatabaseConfig};
use vdb::api::database::{already_open, plan_open, CollectionInfo, DatabaseStats, OpenPlan, Requested};
use vdb::api::database::{Database as Engine, NewCollection};
use vdb::api::search::{SearchRequest, SearchResponse};
use vdb::api::verify::{CollectionCheck, VerifyLevel, VerifyReport};
use vdb::document::{DocId, Document, DocumentInput, Include, IntoDocId};
use vdb::error::{
    ConflictError, DbError, LifecycleError, NotFoundError, TransactionError, ValidationError,
};
use vdb::filter::Filter;
use vdb::format::catalog::Metric;
use vdb::format::manifest::{CollectionEntry, Slot};
use vdb::format::value::Value;
use vdb::format::FORMAT_VERSION;
use vdb::index::{
    Budget, IndexKind, IndexStats, LiveSet, RowPredicate, SearchCtx, VectorIndex, VectorSource,
};
use vdb::metadata::Metadata;
use vdb::path::DbPath;
use vdb::persistence::catalog::read_catalog;
use vdb::persistence::layout;
use vdb::persistence::layout::SegmentFile;
use vdb::persistence::manifest::{ManifestStore, PendingCommit};
use vdb::persistence::segment::SegmentFiles;
use vdb::persistence::Durability;
use vdb::search::topk::TopK;
use vdb::vector::{VectorDType, VectorView};

// ---------------------------------------------------------------------------
// floats
// ---------------------------------------------------------------------------

/// The bits of a list of components.
fn bits(values: &[f32]) -> Vec<u32> {
    values.iter().map(|v| v.to_bits()).collect()
}

fn floats(row: &[u8]) -> Vec<f32> {
    row.chunks_exact(4)
        .map(|c| f32::from_le_bytes([c[0], c[1], c[2], c[3]]))
        .collect()
}

/// The reciprocal of a vector's norm, zero for the zero vector.
fn inv_norm(values: &[f32]) -> f32 {
    let n = values.iter().map(|v| v * v).sum::<f32>().sqrt();
    if n > 0.0 && n.is_finite() {
        1.0 / n
    } else {
        0.0
    }
}

fn stored_norm(row: &[u8]) -> u32 {
    inv_norm(&floats(row)).to_bits()
}

/// Higher is better, whatever the metric.
fn similarity(metric: Metric, query: &[f32], row: &[f32], row_inv_norm: f32) -> f32 {
    let mut dot = 0.0f32;
    let mut squares = 0.0f32;
    for (q, x) in query.iter().zip(row.iter()) {
        dot += q * x;
        squares += (q - x) * (q - x);
    }
    match metric {
        Metric::Cosine => dot * inv_norm(query) * row_inv_norm,
        Metric::Dot => dot,
        Metric::L2 => -squares,
    }
}

fn score(metric: Metric, query: &[u32], row: &[u8], row_inv_norm: u32) -> u32 {
    let q: Vec<f32> = query.iter().map(|b| f32::from_bits(*b)).collect();
    similarity(metric, &q, &floats(row), f32::from_bits(row_inv_norm)).to_bits()
}

fn distance(metric: Metric, score: u32) -> Option<u32> {
    let s = f32::from_bits(score);
    match metric {
        Metric::Cosine => Some((1.0 - s).to_bits()),
        Metric::L2 => Some((-s).max(0.0).sqrt().to_bits()),
        Metric::Dot => None,
    }
}

// ---------------------------------------------------------------------------
// storage
// ---------------------------------------------------------------------------

/// Files held in memory. Clones share them.
#[derive(Clone, Debug)]
struct MemoryStorage {
    files: Rc<RefCell<BTreeMap<String, Vec<u8>>>>,
    locked: Rc<Cell<bool>>,
    /// What was there after each change, while changes are recorded.
    history: Rc<RefCell<Option<Vec<BTreeMap<String, Vec<u8>>>>>>,
}

impl MemoryStorage {
    fn new() -> Self {
        MemoryStorage {
            files: Rc::new(RefCell::new(BTreeMap::new())),
            locked: Rc::new(Cell::new(false)),
            history: Rc::new(RefCell::new(None)),
        }
    }

    /// Files that do not change with these: what a process finds that starts after a crash.
    fn holding(files: BTreeMap<String, Vec<u8>>) -> Self {
        let storage = MemoryStorage::new();
        *storage.files.borrow_mut() = files;
        storage
    }

    fn record(&self) {
        *self.history.borrow_mut() = Some(vec![self.files.borrow().clone()]);
    }

    fn recorded(&self) -> Vec<BTreeMap<String, Vec<u8>>> {
        self.history.borrow_mut().take().unwrap_or_default()
    }

    fn changed(&self) {
        if let Some(history) = self.history.borrow_mut().as_mut() {
            history.push(self.files.borrow().clone());
        }
    }

    fn read(&self, path: &DbPath) -> Option<Vec<u8>> {
        self.files.borrow().get(path.as_str()).cloned()
    }

    fn write(&self, path: &DbPath, bytes: &[u8]) {
        self.files
            .borrow_mut()
            .insert(path.as_str().to_owned(), bytes.to_vec());
        self.changed();
    }

    /// Append, and say where the bytes went.
    fn append(&self, path: &DbPath, bytes: &[u8]) -> u64 {
        let mut files = self.files.borrow_mut();
        let file = files.entry(path.as_str().to_owned()).or_default();
        let offset = file.len() as u64;
        file.extend_from_slice(bytes);
        drop(files);
        self.changed();
        offset
    }

    fn truncate(&self, path: &DbPath, len: u64) {
        if let Some(file) = self.files.borrow_mut().get_mut(path.as_str()) {
            file.truncate(len as usize);
        }
        self.changed();
    }

    fn has_file(&self, path: &DbPath) -> bool {
        self.files.borrow().contains_key(path.as_str())
    }

    fn remove_file(&self, path: &DbPath) {
        self.files.borrow_mut().remove(path.as_str());
        self.changed();
    }

    fn remove_dir(&self, path: &DbPath) {
        let prefix = format!("{}/", path.as_str());
        self.files
            .borrow_mut()
            .retain(|name, _| !name.starts_with(&prefix));
    }

    /// The names right below a directory.
    fn list(&self, path: &DbPath) -> Vec<String> {
        let prefix = format!("{}/", path.as_str());
        let mut names: Vec<String> = self
            .files
            .borrow()
            .keys()
            .filter_map(|name| name.strip_prefix(&prefix))
            .map(|rest| rest.split('/').next().unwrap_or("").to_owned())
            .collect();
        names.dedup();
        names
    }

    fn file_paths(&self) -> Vec<String> {
        self.files.borrow().keys().cloned().collect()
    }

    fn segment(&self, name: &str, id: u64) -> Result<SegmentFiles, DbError> {
        Ok(SegmentFiles {
            vectors: self.read(&layout::segment_file(name, id, SegmentFile::Vectors)?),
            directory: self.read(&layout::segment_file(name, id, SegmentFile::Directory)?),
            metadata: self.read(&layout::segment_file(name, id, SegmentFile::Metadata)?),
            tombstones: self.read(&layout::segment_file(name, id, SegmentFile::Tombstones)?),
        })
    }

    fn remove_segment(&self, name: &str, id: u64) -> Result<(), DbError> {
        for which in [
            SegmentFile::Vectors,
            SegmentFile::Directory,
            SegmentFile::Metadata,
            SegmentFile::Tombstones,
        ] {
            self.remove_file(&layout::segment_file(name, id, which)?);
        }
        Ok(())
    }

    fn commit(&self, commit: &PendingCommit) -> Result<(), DbError> {
        self.write(&layout::manifest(commit.slot)?, &commit.bytes);
        Ok(())
    }
}

// ---------------------------------------------------------------------------
// handles
// ---------------------------------------------------------------------------

#[derive(Debug)]
struct State {
    storage: MemoryStorage,
    engine: Engine,
    holds_lock: bool,
}

impl Drop for State {
    fn drop(&mut self) {
        if self.holds_lock {
            self.storage.locked.set(false);
        }
    }
}

/// A database handle.
#[derive(Clone, Debug)]
struct Database(Rc<RefCell<State>>);

/// A collection handle.
#[derive(Clone, Debug)]
struct Collection {
    db: Database,
    name: String,
}

const NOW: u64 = 1_700_000_000_000;

fn open_shelf(
    storage: &MemoryStorage,
    entry: &CollectionEntry,
    config: DatabaseConfig,
) -> Result<Shelf, DbError> {
    let name = entry.name.as_str();
    let catalog = read_catalog(name, &storage.read(&layout::catalog(name)?))?;
    let listed = layout::list_segment_ids(&storage.list(&layout::segments_dir(name)?));
    if !config.read_only {
        for id in orphans(entry, &listed) {
            storage.remove_segment(name, id)?;
        }
    }
    let mut files = Vec::new();
    for s in &entry.segments {
        files.push(storage.segment(name, s.id)?);
    }
    let wal = layout::wal_file(name, 1)?;
    let log = storage.read(&wal).unwrap_or_default();
    let opened = Shelf::open(catalog, entry, files, &log, config, stored_norm)?;
    if let Some(len) = opened.truncate_log {
        storage.truncate(&wal, len);
    }
    Ok(opened.collection)
}

impl Database {
    fn open(storage: MemoryStorage, config: DatabaseConfig) -> Result<Self, DbError> {
        config.validate()?;
        let holds_lock = !config.read_only;
        if holds_lock {
            if storage.locked.get() {
                return Err(already_open("memory", "another handle"));
            }
            storage.locked.set(true);
        }
        let built = Self::load(&storage, config);
        if built.is_err() && holds_lock {
            storage.locked.set(false);
        }
        let engine = built?;
        Ok(Database(Rc::new(RefCell::new(State {
            storage,
            engine,
            holds_lock,
        }))))
    }

    fn load(storage: &MemoryStorage, config: DatabaseConfig) -> Result<Engine, DbError> {
        let a = storage.read(&layout::manifest(Slot::A)?);
        let b = storage.read(&layout::manifest(Slot::B)?);
        let occupied = !storage.list(&layout::collections_dir()?).is_empty();
        let store = match plan_open(&config, a.as_deref(), b.as_deref(), occupied, "memory", NOW, 0)?
        {
            OpenPlan::Existing(store) => store,
            OpenPlan::Fresh(commit) => {
                storage.commit(&commit)?;
                ManifestStore::adopted(commit)
            }
        };
        let mut engine = Engine::start(config, store);
        let entries = engine.manifest().collections.clone();
        for entry in &entries {
            let shelf = open_shelf(storage, entry, config)?;
            engine.register(shelf);
        }
        Ok(engine)
    }

    fn is_open(&self) -> bool {
        self.0.borrow().engine.is_open()
    }

    fn close(&self) -> Result<(), DbError> {
        let result = self.flush();
        let mut state = self.0.borrow_mut();
        state.engine.close();
        if state.holds_lock {
            state.holds_lock = false;
            state.storage.locked.set(false);
        }
        result
    }

    fn handle(&self, name: &str) -> Collection {
        Collection {
            db: self.clone(),
            name: name.to_owned(),
        }
    }

    fn add(&self, new: NewCollection) -> Result<Collection, DbError> {
        let mut state = self.0.borrow_mut();
        state.storage.write(&new.file.path, &new.file.bytes);
        state.storage.commit(&new.commit)?;
        state.engine.committed(new.commit);
        let config = state.engine.config();
        let shelf = open_shelf(&state.storage, &new.entry, config)?;
        state.engine.register(shelf);
        drop(state);
        Ok(self.handle(&new.entry.name))
    }

    fn create_collection(&self, spec: CollectionSpec) -> Result<Collection, DbError> {
        let new = self.0.borrow().engine.create_collection(spec, NOW)?;
        self.add(new)
    }

    fn get_or_create_collection(&self, spec: CollectionSpec) -> Result<Collection, DbError> {
        let name = spec.name.clone();
        let requested = self.0.borrow().engine.get_or_create_collection(spec, NOW)?;
        match requested {
            Requested::Existing(_) => Ok(self.handle(&name)),
            Requested::New(new) => self.add(new),
        }
    }

    fn open_collection(&self, name: &str) -> Result<Collection, DbError> {
        self.0.borrow().engine.open_collection(name)?;
        Ok(self.handle(name))
    }

    fn drop_collection(&self, name: &str) -> Result<(), DbError> {
        let mut state = self.0.borrow_mut();
        let dropped = state.engine.drop_collection(name, NOW)?;
        state.storage.commit(&dropped.commit)?;
        state.engine.committed(dropped.commit);
        state.engine.forget(name);
        state.storage.remove_dir(&dropped.dir);
        Ok(())
    }

    fn list_collections(&self) -> Result<Vec<CollectionInfo>, DbError> {
        self.0.borrow().engine.list_collections()
    }

    fn stats(&self) -> Result<DatabaseStats, DbError> {
        self.0.borrow().engine.stats(true)
    }

    fn flush(&self) -> Result<(), DbError> {
        let names: Vec<String> = {
            let state = self.0.borrow();
            (0..state.engine.len())
                .map(|i| state.engine.collection_at(i).name().to_owned())
                .collect()
        };
        for name in names {
            self.handle(&name).flush()?;
        }
        Ok(())
    }

    fn verify(&self, level: VerifyLevel) -> Result<VerifyReport, DbError> {
        let state = self.0.borrow();
        let mut checks: Vec<CollectionCheck> = Vec::new();
        for entry in &state.engine.manifest().collections {
            let mut files = Vec::new();
            for s in &entry.segments {
                files.push(state.storage.segment(&entry.name, s.id)?);
            }
            let shelf = state.engine.open_collection(&entry.name)?;
            checks.push(shelf.verify(level, &files));
        }
        let listed = state.storage.list(&layout::collections_dir()?);
        state.engine.verify(level, checks, &listed)
    }
}

impl Collection {
    fn with<T>(
        &self,
        f: impl FnOnce(&Shelf, vdb::api::access::Access) -> Result<T, DbError>,
    ) -> Result<T, DbError> {
        let state = self.db.0.borrow();
        let i = state.engine.find(&self.name).expect("the collection is open");
        f(state.engine.collection_at(i), state.engine.access())
    }

    /// Log a write and apply it, folding into a segment where that is due.
    fn land(&self, staged: StagedWrite) -> Result<(), DbError> {
        let due = {
            let mut state = self.db.0.borrow_mut();
            let i = state.engine.find(&self.name).expect("the collection is open");
            let wal = layout::wal_file(&self.name, 1)?;
            let offset = state.storage.append(&wal, &staged.append.bytes);
            let shelf = state.engine.collection_mut(i);
            shelf.landed(&staged, offset)?;
            if staged.append.sync {
                shelf.synced();
            }
            shelf.complete(staged)?
        };
        if due {
            self.flush()?;
        }
        Ok(())
    }

    fn insert(&self, doc: DocumentInput<'_>) -> Result<(), DbError> {
        let norm = stored_norm(&doc.vector.to_bytes());
        let staged = self.with(|c, access| c.insert(access, doc, norm))?;
        self.land(staged)
    }

    fn upsert(&self, doc: DocumentInput<'_>) -> Result<UpsertOutcome, DbError> {
        let norm = stored_norm(&doc.vector.to_bytes());
        let (staged, outcome) = self.with(|c, access| c.upsert(access, doc, norm))?;
        self.land(staged)?;
        Ok(outcome)
    }

    fn delete<I: IntoDocId>(&self, id: I) -> Result<bool, DbError> {
        let (staged, existed) = self.with(|c, access| c.delete(access, id))?;
        if let Some(staged) = staged {
            self.land(staged)?;
        }
        Ok(existed)
    }

    fn write_batch(&self, batch: WriteBatch) -> Result<BatchReport, DbError> {
        let (staged, report) = {
            let mut state = self.db.0.borrow_mut();
            let access = state.engine.access();
            let i = state.engine.find(&self.name).expect("the collection is open");
            state
                .engine
                .collection_mut(i)
                .write_batch(access, batch, stored_norm)?
        };
        if let Some(staged) = staged {
            self.land(staged)?;
        }
        Ok(report)
    }

    fn flush(&self) -> Result<(), DbError> {
        let Some((result, image)) = self.with(|c, access| c.flush(access))? else {
            return Ok(());
        };
        let mut state = self.db.0.borrow_mut();
        let storage = state.storage.clone();
        let name = self.name.as_str();
        let id = result.segment.id;
        let path = |which: SegmentFile| layout::segment_file(name, id, which);
        storage.write(&path(SegmentFile::Vectors)?, &image.vectors);
        storage.write(&path(SegmentFile::Directory)?, &image.directory);
        storage.write(&path(SegmentFile::Metadata)?, &image.metadata);
        storage.write(&path(SegmentFile::Tombstones)?, &image.tombstones);
        let i = state.engine.find(name).expect("the collection is open");
        let shelf = state.engine.collection_mut(i);
        for file in shelf.supersede(&result) {
            let del = layout::segment_file(name, file.segment, SegmentFile::Tombstones)?;
            storage.write(&del, &file.bytes);
        }
        let commit = shelf.receive(result, storage.segment(name, id)?)?;
        if let Some(empty) = commit.discard {
            storage.remove_segment(name, empty)?;
        }
        let pending = state.engine.commit_collection(commit.entry, NOW)?;
        storage.commit(&pending)?;
        state.engine.committed(pending);
        storage.truncate(&layout::wal_file(name, 1)?, 0);
        state.engine.collection_mut(i).checkpointed();
        Ok(())
    }

    fn get(&self, id: &DocId) -> Result<Option<Document>, DbError> {
        self.with(|c, access| c.get(access, id))
    }

    fn get_with(&self, id: &DocId, parts: Include) -> Result<Option<Document>, DbError> {
        self.with(|c, access| c.get_with(access, id, parts))
    }

    fn contains(&self, id: &DocId) -> Result<bool, DbError> {
        self.with(|c, access| c.contains(access, id))
    }

    fn require(&self, id: &DocId) -> Result<Document, DbError> {
        self.with(|c, access| c.require(access, id))
    }

    fn count(&self) -> Result<u64, DbError> {
        self.with(|c, access| c.count(access))
    }

    fn ids(&self) -> Result<Vec<DocId>, DbError> {
        self.with(|c, access| c.ids(access))
    }

    fn stats(&self) -> Result<CollectionStats, DbError> {
        self.with(|c, access| c.stats(access))
    }

    fn search(&self, request: &SearchRequest<'_>) -> Result<SearchResponse, DbError> {
        self.with(|c, access| c.search(access, request, &score, &distance))
    }

    fn search_with_budget(
        &self,
        request: &SearchRequest<'_>,
        budget: &mut Budget,
    ) -> Result<SearchResponse, DbError> {
        self.with(|c, access| c.search_with_budget(access, request, &score, &distance, budget))
    }

    fn search_with_index<I: VectorIndex, C: Fn() -> bool>(
        &self,
        request: &SearchRequest<'_>,
        index: &I,
        stop: &C,
        budget: &mut Budget,
    ) -> Result<SearchResponse, DbError> {
        self.with(|c, access| {
            c.search_with_index(access, request, index, &score, &distance, stop, budget)
        })
    }
}

const DIM: u32 = 4;

fn open(storage: MemoryStorage) -> Database {
    Database::open(storage, DatabaseConfig::default()).unwrap()
}

fn fresh() -> (MemoryStorage, Database) {
    let mem = MemoryStorage::new();
    let db = open(mem.clone());
    (mem, db)
}

fn spec(name: &str) -> CollectionSpec {
    CollectionSpec::new(name, DIM, Metric::Cosine)
}

fn vector(seed: f32) -> [f32; 4] {
    [seed, seed + 1.0, seed + 2.0, seed + 3.0]
}

fn insert(c: &Collection, id: &str, seed: f32) {
    let v = vector(seed);
    c.insert(DocumentInput::new(id, VectorView::floats(&bits(&v))))
        .unwrap();
}

// ---------------------------------------------------------------------------
// lifecycle
// ---------------------------------------------------------------------------

#[test]
fn opening_an_empty_storage_creates_a_database() {
    let (_mem, db) = fresh();
    assert!(db.is_open());
    let stats = db.stats().unwrap();
    assert_eq!(stats.collections, 0);
    assert_eq!(stats.format_version, FORMAT_VERSION);
    assert!(stats.manifest_sequence >= 1);
    db.close().unwrap();
}

#[test]
fn refusing_to_create_reports_that_nothing_is_there() {
    let mem = MemoryStorage::new();
    let config = DatabaseConfig::default().create_if_missing(false);
    match Database::open(mem, config) {
        Err(DbError::Lifecycle(LifecycleError::DatabaseNotFound { .. })) => {}
        other => panic!("expected DatabaseNotFound, got {other:?}"),
    }
}

/// The advisory lock: it prevents accidents, which is what it claims to do.
#[test]
fn a_second_writer_cannot_open_the_same_database() {
    let mem = MemoryStorage::new();
    let first = open(mem.clone());
    match Database::open(mem.clone(), DatabaseConfig::default()) {
        Err(DbError::Lifecycle(LifecycleError::DatabaseAlreadyOpen { .. })) => {}
        other => panic!("expected DatabaseAlreadyOpen, got {other:?}"),
    }
    first.close().unwrap();
    // Once closed, the lock is released.
    open(mem).close().unwrap();
}

/// A read-only handle takes no lock, so a database can be inspected while an app has it open.
#[test]
fn a_reader_can_open_a_database_that_a_writer_holds() {
    let mem = MemoryStorage::new();
    let writer = open(mem.clone());
    let c = writer.create_collection(spec("docs")).unwrap();
    insert(&c, "a", 1.0);
    writer.flush().unwrap();

    let config = DatabaseConfig::default().read_only(true);
    let reader = Database::open(mem.clone(), config).unwrap();
    assert_eq!(reader.open_collection("docs").unwrap().count().unwrap(), 1);

    // And it refuses to write.
    match reader.create_collection(spec("nope")) {
        Err(DbError::Lifecycle(LifecycleError::ReadOnly { .. })) => {}
        other => panic!("expected ReadOnly, got {other:?}"),
    }
    let rc = reader.open_collection("docs").unwrap();
    let v = vector(9.0);
    assert!(matches!(
        rc.insert(DocumentInput::new("b", VectorView::floats(&bits(&v)))),
        Err(DbError::Lifecycle(LifecycleError::ReadOnly { .. }))
    ));
    reader.close().unwrap();
    writer.close().unwrap();
}

#[test]
fn a_read_only_handle_that_also_creates_is_a_configuration_error() {
    let mem = MemoryStorage::new();
    let config = DatabaseConfig::default()
        .read_only(true)
        .create_if_missing(true);
    assert!(Database::open(mem, config).is_err());
}

#[test]
fn using_a_collection_after_close_reports_the_database_is_closed() {
    let (_mem, db) = fresh();
    let c = db.create_collection(spec("docs")).unwrap();
    db.close().unwrap();
    let v = vector(1.0);
    assert!(matches!(
        c.insert(DocumentInput::new("a", VectorView::floats(&bits(&v)))),
        Err(DbError::Lifecycle(LifecycleError::DatabaseClosed))
    ));
    assert!(matches!(
        c.count(),
        Err(DbError::Lifecycle(LifecycleError::DatabaseClosed))
    ));
}

// ---------------------------------------------------------------------------
// collections
// ---------------------------------------------------------------------------

#[test]
fn collections_can_be_created_listed_and_dropped() {
    let (_mem, db) = fresh();
    db.create_collection(spec("zebra")).unwrap();
    db.create_collection(spec("apple")).unwrap();

    let listed: Vec<String> = db
        .list_collections()
        .unwrap()
        .into_iter()
        .map(|c| c.name)
        .collect();
    assert_eq!(
        listed,
        vec!["apple", "zebra"],
        "listing should be sorted, not hash-ordered"
    );

    db.drop_collection("zebra").unwrap();
    assert_eq!(db.list_collections().unwrap().len(), 1);
    assert!(matches!(
        db.open_collection("zebra"),
        Err(DbError::NotFound(NotFoundError::Collection { .. }))
    ));
    assert!(matches!(
        db.drop_collection("zebra"),
        Err(DbError::NotFound(NotFoundError::Collection { .. }))
    ));
}

#[test]
fn creating_a_collection_twice_is_a_conflict() {
    let (_mem, db) = fresh();
    db.create_collection(spec("docs")).unwrap();
    assert!(matches!(
        db.create_collection(spec("docs")),
        Err(DbError::Conflict(ConflictError::CollectionExists { .. }))
    ));
}

/// Returning a collection whose shape differs from what was asked for would produce results
/// that look plausible and are wrong.
#[test]
fn get_or_create_refuses_a_collection_whose_shape_differs() {
    let (_mem, db) = fresh();
    db.create_collection(spec("docs")).unwrap();

    db.get_or_create_collection(spec("docs"))
        .expect("an identical spec should be accepted");

    let different_dim = CollectionSpec::new("docs", DIM + 1, Metric::Cosine);
    assert!(db.get_or_create_collection(different_dim).is_err());

    let different_metric = CollectionSpec::new("docs", DIM, Metric::L2);
    assert!(db.get_or_create_collection(different_metric).is_err());

    let different_ids = CollectionSpec::new("docs", DIM, Metric::Cosine).with_u64_ids();
    assert!(db.get_or_create_collection(different_ids).is_err());
}

#[test]
fn a_hostile_collection_name_is_refused() {
    let (_mem, db) = fresh();
    for bad in ["..", "a/b", "", "with space", "café"] {
        assert!(
            db.create_collection(CollectionSpec::new(bad, DIM, Metric::Cosine))
                .is_err(),
            "{bad:?} was accepted"
        );
    }
}

#[test]
fn a_zero_or_oversized_dimension_is_refused() {
    let (_mem, db) = fresh();
    assert!(db
        .create_collection(CollectionSpec::new("a", 0, Metric::Cosine))
        .is_err());
    assert!(db
        .create_collection(CollectionSpec::new("b", 1, Metric::Cosine))
        .is_ok());
}

// ---------------------------------------------------------------------------
// documents
// ---------------------------------------------------------------------------

#[test]
fn insert_get_and_count() {
    let (_mem, db) = fresh();
    let c = db.create_collection(spec("docs")).unwrap();
    assert_eq!(c.count().unwrap(), 0);
    assert!(c.get(&DocId::from("missing")).unwrap().is_none());

    insert(&c, "a", 1.0);
    insert(&c, "b", 2.0);
    assert_eq!(c.count().unwrap(), 2);
    assert!(c.contains(&DocId::from("a")).unwrap());

    let doc = c
        .get_with(&DocId::from("a"), Include::everything())
        .unwrap()
        .unwrap();
    assert_eq!(doc.id, DocId::from("a"));
    assert_eq!(doc.vector, Some(bits(&vector(1.0))));
    assert_eq!(c.ids().unwrap(), vec![DocId::from("a"), DocId::from("b")]);
}

#[test]
fn inserting_a_duplicate_id_is_a_conflict_but_upsert_replaces() {
    let (_mem, db) = fresh();
    let c = db.create_collection(spec("docs")).unwrap();
    insert(&c, "a", 1.0);

    let v = vector(2.0);
    match c.insert(DocumentInput::new("a", VectorView::floats(&bits(&v)))) {
        Err(DbError::Conflict(ConflictError::DuplicateId { id, collection })) => {
            assert_eq!(id, "a");
            assert_eq!(collection, "docs");
        }
        other => panic!("expected DuplicateId, got {other:?}"),
    }

    assert_eq!(
        c.upsert(DocumentInput::new("a", VectorView::floats(&bits(&v))))
            .unwrap(),
        UpsertOutcome::Updated
    );
    let w = vector(3.0);
    assert_eq!(
        c.upsert(DocumentInput::new("new", VectorView::floats(&bits(&w))))
            .unwrap(),
        UpsertOutcome::Inserted
    );
    assert_eq!(c.count().unwrap(), 2);
    let doc = c
        .get_with(&DocId::from("a"), Include::everything())
        .unwrap()
        .unwrap();
    assert_eq!(doc.vector, Some(bits(&vector(2.0))));
}

#[test]
fn delete_reports_whether_the_document_existed() {
    let (_mem, db) = fresh();
    let c = db.create_collection(spec("docs")).unwrap();
    insert(&c, "a", 1.0);

    assert!(c.delete("a").unwrap());
    assert!(
        !c.delete("a").unwrap(),
        "deleting twice is a no-op, not an error"
    );
    assert!(!c.delete("never-existed").unwrap());
    assert_eq!(c.count().unwrap(), 0);
    assert!(c.get(&DocId::from("a")).unwrap().is_none());
    assert!(c.ids().unwrap().is_empty());
}

#[test]
fn a_wrong_dimension_names_the_collection_and_both_dimensions() {
    let (_mem, db) = fresh();
    let c = db.create_collection(spec("docs")).unwrap();
    let short = [1.0f32, 2.0];
    match c.insert(DocumentInput::new("a", VectorView::floats(&bits(&short)))) {
        Err(DbError::Validation(ValidationError::InvalidVectorDimension {
            collection,
            expected,
            actual,
        })) => {
            assert_eq!(collection, "docs");
            assert_eq!(expected, DIM);
            assert_eq!(actual, 2);
        }
        other => panic!("expected InvalidVectorDimension, got {other:?}"),
    }
    assert_eq!(
        c.count().unwrap(),
        0,
        "a rejected write must leave nothing behind"
    );
}

#[test]
fn a_non_finite_component_is_refused() {
    let (_mem, db) = fresh();
    let c = db.create_collection(spec("docs")).unwrap();
    let bad = [1.0f32, 2.0, f32::NAN, 4.0];
    assert!(c
        .insert(DocumentInput::new("a", VectorView::floats(&bits(&bad))))
        .is_err());
    assert_eq!(c.count().unwrap(), 0);
}

#[test]
fn metadata_and_content_survive_a_round_trip() {
    let (_mem, db) = fresh();
    let c = db.create_collection(spec("docs")).unwrap();

    let mut meta = Metadata::new();
    meta.insert("category", Value::Str("tools".into()));
    meta.insert("price", Value::F64(19.99f64.to_bits()));
    meta.insert(
        "tags",
        Value::Array(vec![Value::Str("a".into()), Value::Str("b".into())]),
    );

    let v = vector(1.0);
    c.insert(
        DocumentInput::new("a", VectorView::floats(&bits(&v)))
            .with_metadata(meta.clone())
            .with_content(b"the source text"),
    )
    .unwrap();

    let doc = c
        .get_with(&DocId::from("a"), Include::everything())
        .unwrap()
        .unwrap();
    assert_eq!(doc.metadata, meta);
    assert_eq!(doc.content.as_deref(), Some(b"the source text".as_slice()));

    // And after a flush, out of a segment rather than the memtable.
    c.flush().unwrap();
    let doc = c
        .get_with(&DocId::from("a"), Include::everything())
        .unwrap()
        .unwrap();
    assert_eq!(doc.metadata, meta);
    assert_eq!(doc.content.as_deref(), Some(b"the source text".as_slice()));
}

#[test]
fn vectors_are_opt_in_on_reads() {
    let (_mem, db) = fresh();
    let c = db.create_collection(spec("docs")).unwrap();
    insert(&c, "a", 1.0);
    assert!(c.get(&DocId::from("a")).unwrap().unwrap().vector.is_none());
    assert!(c
        .get_with(&DocId::from("a"), Include::everything())
        .unwrap()
        .unwrap()
        .vector
        .is_some());
}

// ---------------------------------------------------------------------------
// batches
// ---------------------------------------------------------------------------

#[test]
fn a_batch_applies_every_operation() {
    let (_mem, db) = fresh();
    let c = db.create_collection(spec("docs")).unwrap();
    insert(&c, "existing", 1.0);

    let a = vector(2.0);
    let b = vector(3.0);
    let mut batch = WriteBatch::new();
    batch
        .upsert(DocumentInput::new("a", VectorView::floats(&bits(&a))))
        .upsert(DocumentInput::new("existing", VectorView::floats(&bits(&b))))
        .delete("gone");

    let report = c.write_batch(batch).unwrap();
    assert_eq!(report.inserted, 1);
    assert_eq!(report.updated, 1);
    assert_eq!(report.missing_deletes, 1);
    assert_eq!(report.changed(), 2);
    assert_eq!(c.count().unwrap(), 2);
}

/// The promise of a batch: a failure part-way through leaves nothing applied.
#[test]
fn an_invalid_operation_aborts_the_whole_batch() {
    let (_mem, db) = fresh();
    let c = db.create_collection(spec("docs")).unwrap();

    let good = vector(1.0);
    let short = [1.0f32];
    let mut batch = WriteBatch::new();
    batch
        .upsert(DocumentInput::new("good-1", VectorView::floats(&bits(&good))))
        .upsert(DocumentInput::new("bad", VectorView::floats(&bits(&short))))
        .upsert(DocumentInput::new("good-2", VectorView::floats(&bits(&good))));

    match c.write_batch(batch) {
        Err(DbError::Transaction(TransactionError::Aborted {
            failed_at,
            total_ops,
            ..
        })) => {
            assert_eq!(failed_at, 1);
            assert_eq!(total_ops, 3);
        }
        other => panic!("expected Aborted, got {other:?}"),
    }
    assert_eq!(
        c.count().unwrap(),
        0,
        "nothing from an aborted batch may be applied"
    );
    assert!(!c.contains(&DocId::from("good-1")).unwrap());
}

#[test]
fn an_empty_batch_is_a_no_op() {
    let (_mem, db) = fresh();
    let c = db.create_collection(spec("docs")).unwrap();
    let report = c.write_batch(WriteBatch::new()).unwrap();
    assert_eq!(report.changed(), 0);
    assert_eq!(c.count().unwrap(), 0);
}

// ---------------------------------------------------------------------------
// persistence
// ---------------------------------------------------------------------------

#[test]
fn everything_survives_a_close_and_reopen() {
    let mem = MemoryStorage::new();
    {
        let db = open(mem.clone());
        let c = db.create_collection(spec("docs")).unwrap();
        for i in 0..20 {
            insert(&c, &format!("doc-{i:02}"), i as f32);
        }
        c.delete("doc-05").unwrap();
        db.close().unwrap();
    }

    let db = open(mem);
    let c = db.open_collection("docs").unwrap();
    assert_eq!(c.count().unwrap(), 19);
    assert!(!c.contains(&DocId::from("doc-05")).unwrap());
    let doc = c
        .get_with(&DocId::from("doc-07"), Include::everything())
        .unwrap()
        .unwrap();
    assert_eq!(doc.vector, Some(bits(&vector(7.0))));
    db.close().unwrap();
}

/// A handle dropped without `close()` must lose nothing that was logged — the situation an
/// application is in when the OS kills it, or when a `?` returns early past the close.
#[test]
fn writes_survive_a_handle_that_was_never_closed() {
    let mem = MemoryStorage::new();
    {
        let db = open(mem.clone());
        let c = db.create_collection(spec("docs")).unwrap();
        insert(&c, "a", 1.0);
        insert(&c, "b", 2.0);
        // No close and no flush: the handle simply goes out of scope. Nothing was written to a
        // segment, so everything here has to come back out of the log.
        drop(c);
        drop(db);
    }
    let db = open(mem);
    let c = db.open_collection("docs").unwrap();
    assert_eq!(c.count().unwrap(), 2);
    assert!(c.contains(&DocId::from("b")).unwrap());
    db.close().unwrap();
}

/// A flush supersedes earlier copies, so a document is never live in two segments with two
/// different vectors.
#[test]
fn overwriting_across_flushes_does_not_leave_two_live_copies() {
    let (_mem, db) = fresh();
    let c = db.create_collection(spec("docs")).unwrap();

    insert(&c, "a", 1.0);
    c.flush().unwrap();
    let v = vector(9.0);
    c.upsert(DocumentInput::new("a", VectorView::floats(&bits(&v))))
        .unwrap();
    c.flush().unwrap();

    assert_eq!(
        c.count().unwrap(),
        1,
        "the document must be live in exactly one segment"
    );
    assert_eq!(c.ids().unwrap(), vec![DocId::from("a")]);
    let doc = c
        .get_with(&DocId::from("a"), Include::everything())
        .unwrap()
        .unwrap();
    assert_eq!(
        doc.vector,
        Some(bits(&vector(9.0))),
        "the newer value must win"
    );

    let stats = c.stats().unwrap();
    assert_eq!(stats.live_documents, 1);
    assert_eq!(
        stats.total_rows, 2,
        "the superseded row is still on disk until compaction"
    );
    assert!(
        stats.dead_rows as f64 / stats.total_rows as f64 > 0.4,
        "the dead row should be visible in the stats"
    );
}

#[test]
fn a_delete_of_a_flushed_document_survives_a_reopen() {
    let mem = MemoryStorage::new();
    {
        let db = open(mem.clone());
        let c = db.create_collection(spec("docs")).unwrap();
        insert(&c, "a", 1.0);
        insert(&c, "b", 2.0);
        c.flush().unwrap();
        c.delete("a").unwrap();
        c.flush().unwrap();
        db.close().unwrap();
    }
    let db = open(mem);
    let c = db.open_collection("docs").unwrap();
    assert_eq!(c.count().unwrap(), 1);
    assert!(!c.contains(&DocId::from("a")).unwrap());
    db.close().unwrap();
}

#[test]
fn crossing_the_flush_threshold_produces_a_segment_automatically() {
    let mem = MemoryStorage::new();
    let config = DatabaseConfig::default()
        .flush_threshold_bytes(2_000)
        .durability(Durability::Batch);
    let db = Database::open(mem.clone(), config).unwrap();
    let c = db.create_collection(spec("docs")).unwrap();

    for i in 0..200 {
        insert(&c, &format!("doc-{i:03}"), i as f32);
    }
    let stats = c.stats().unwrap();
    assert!(
        stats.segments > 0,
        "the memtable should have flushed on its own"
    );
    assert_eq!(stats.live_documents, 200);
    assert_eq!(c.count().unwrap(), 200);

    db.close().unwrap();
    let db = open(mem);
    assert_eq!(db.open_collection("docs").unwrap().count().unwrap(), 200);
    db.close().unwrap();
}

#[test]
fn dropping_a_collection_removes_its_files_and_survives_a_reopen() {
    let mem = MemoryStorage::new();
    {
        let db = open(mem.clone());
        let c = db.create_collection(spec("doomed")).unwrap();
        insert(&c, "a", 1.0);
        c.flush().unwrap();
        db.create_collection(spec("kept")).unwrap();
        db.drop_collection("doomed").unwrap();
        db.close().unwrap();
    }
    assert!(
        !mem.file_paths().iter().any(|p| p.contains("doomed")),
        "dropping should have removed the files: {:?}",
        mem.file_paths()
    );
    let db = open(mem);
    let names: Vec<String> = db
        .list_collections()
        .unwrap()
        .into_iter()
        .map(|c| c.name)
        .collect();
    assert_eq!(names, vec!["kept"]);
    db.close().unwrap();
}

#[test]
fn database_stats_aggregate_every_collection() {
    let (_mem, db) = fresh();
    let a = db.create_collection(spec("a")).unwrap();
    let b = db.create_collection(spec("b")).unwrap();
    insert(&a, "1", 1.0);
    insert(&a, "2", 2.0);
    insert(&b, "1", 3.0);
    a.flush().unwrap();

    let stats = db.stats().unwrap();
    assert_eq!(stats.collections, 2);
    assert_eq!(stats.live_documents, 3);
    assert!(
        stats.durable_sync,
        "the memory backend declares durable sync"
    );
    assert!(!stats.read_only);
}

#[test]
fn u64_ids_work_end_to_end() {
    let mem = MemoryStorage::new();
    {
        let db = open(mem.clone());
        let c = db
            .create_collection(spec("numeric").with_u64_ids())
            .unwrap();
        let v = vector(1.0);
        c.insert(DocumentInput::new(42u64, VectorView::floats(&bits(&v))))
            .unwrap();
        // A string id in a numeric collection is a mismatch, not a coercion.
        assert!(c
            .insert(DocumentInput::new("42", VectorView::floats(&bits(&v))))
            .is_err());
        db.close().unwrap();
    }
    let db = open(mem);
    let c = db.open_collection("numeric").unwrap();
    assert!(c.contains(&DocId::U64(42)).unwrap());
    assert_eq!(c.count().unwrap(), 1);
    db.close().unwrap();
}

/// Treating an empty slot as "no database" must never let
/// the engine create a fresh manifest over collections that already exist. Losing a 200-byte
/// manifest is recoverable; silently orphaning every document because of it is not.
#[test]
fn a_missing_manifest_over_existing_collections_is_reported_not_overwritten() {
    let mem = MemoryStorage::new();
    {
        let db = open(mem.clone());
        let c = db.create_collection(spec("docs")).unwrap();
        insert(&c, "precious", 1.0);
        c.flush().unwrap();
        db.close().unwrap();
    }
    // Lose both manifest slots, as a botched backup or a partial copy would.
    for slot in ["MANIFEST-A", "MANIFEST-B"] {
        let path = DbPath::parse(slot).unwrap();
        if mem.has_file(&path) {
            mem.remove_file(&path);
        }
    }

    match Database::open(mem.clone(), DatabaseConfig::default()) {
        Err(e) => {
            assert!(e.is_corruption(), "expected corruption, got {e:?}");
            assert!(e.message().contains("collections"), "{e:?}");
        }
        Ok(db) => panic!(
            "created a fresh database over existing data: {:?}",
            db.list_collections().unwrap()
        ),
    }
    // The data is still on disk, which is the whole point of refusing.
    assert!(mem.file_paths().iter().any(|p| p.contains("docs")));
}

// ---------------------------------------------------------------------------
// search
// ---------------------------------------------------------------------------

fn engine(mem: &MemoryStorage) -> Database {
    Database::open(mem.clone(), DatabaseConfig::default()).unwrap()
}

fn collection(db: &Database, metric: Metric, dim: u32) -> Collection {
    db.create_collection(CollectionSpec::new("docs", dim, metric))
        .unwrap()
}

fn add(c: &Collection, id: &str, v: &[f32]) {
    c.insert(DocumentInput::new(id, VectorView::floats(&bits(v))))
        .unwrap();
}

fn ids(response: &SearchResponse) -> Vec<String> {
    response.hits.iter().map(|h| h.id.display()).collect()
}

fn query(c: &Collection, v: &[f32], k: usize) -> SearchResponse {
    c.search(&SearchRequest::new(VectorView::floats(&bits(v)), k))
        .unwrap()
}

// ---------------------------------------------------------------------------

#[test]
fn finds_the_nearest_documents() {
    let mem = MemoryStorage::new();
    let db = engine(&mem);
    let c = collection(&db, Metric::Cosine, 2);
    add(&c, "east", &[1.0, 0.0]);
    add(&c, "north", &[0.0, 1.0]);
    add(&c, "west", &[-1.0, 0.0]);
    add(&c, "northeast", &[0.7, 0.7]);

    let r = query(&c, &[1.0, 0.0], 2);
    assert_eq!(ids(&r), vec!["east", "northeast"]);
    assert!((f32::from_bits(r.hits[0].score) - 1.0).abs() < 1e-5);
    assert!(r.stats.exact);
    assert_eq!(r.stats.index_kind, IndexKind::Flat);
    db.close().unwrap();
}

#[test]
fn searching_an_empty_collection_returns_nothing_rather_than_failing() {
    let mem = MemoryStorage::new();
    let db = engine(&mem);
    let c = collection(&db, Metric::Cosine, 3);
    let r = query(&c, &[1.0, 0.0, 0.0], 10);
    assert!(r.is_empty());
    assert_eq!(r.stats.considered, 0);
    db.close().unwrap();
}

#[test]
fn asking_for_more_than_exists_returns_everything() {
    let mem = MemoryStorage::new();
    let db = engine(&mem);
    let c = collection(&db, Metric::Cosine, 2);
    add(&c, "a", &[1.0, 0.0]);
    add(&c, "b", &[0.0, 1.0]);
    assert_eq!(query(&c, &[1.0, 0.0], 100).len(), 2);
    db.close().unwrap();
}

/// Unflushed writes must be searchable. A document written a moment ago being invisible until
/// some internal threshold is crossed would be an astonishing thing for a database to do.
#[test]
fn documents_are_searchable_before_and_after_a_flush() {
    let mem = MemoryStorage::new();
    let db = engine(&mem);
    let c = collection(&db, Metric::Cosine, 2);
    add(&c, "buffered", &[1.0, 0.0]);
    assert_eq!(ids(&query(&c, &[1.0, 0.0], 1)), vec!["buffered"]);

    c.flush().unwrap();
    assert_eq!(ids(&query(&c, &[1.0, 0.0], 1)), vec!["buffered"]);

    // And a mix of flushed and buffered rows is searched as one collection.
    add(&c, "fresh", &[0.99, 0.01]);
    let r = query(&c, &[1.0, 0.0], 2);
    assert_eq!(ids(&r), vec!["buffered", "fresh"]);
    db.close().unwrap();
}

#[test]
fn deleted_documents_disappear_from_results() {
    let mem = MemoryStorage::new();
    let db = engine(&mem);
    let c = collection(&db, Metric::Cosine, 2);
    add(&c, "a", &[1.0, 0.0]);
    add(&c, "b", &[0.9, 0.1]);
    c.flush().unwrap();

    c.delete("a").unwrap();
    assert_eq!(ids(&query(&c, &[1.0, 0.0], 5)), vec!["b"]);

    // Still gone after the tombstone is folded into the segment.
    c.flush().unwrap();
    assert_eq!(ids(&query(&c, &[1.0, 0.0], 5)), vec!["b"]);
    db.close().unwrap();
}

/// The overwrite-across-flushes case, seen from search: one document, one hit, the newer vector.
#[test]
fn an_overwritten_document_appears_once_with_its_newer_vector() {
    let mem = MemoryStorage::new();
    let db = engine(&mem);
    let c = collection(&db, Metric::Cosine, 2);
    add(&c, "a", &[1.0, 0.0]);
    c.flush().unwrap();
    c.upsert(DocumentInput::new("a", VectorView::floats(&bits(&[0.0, 1.0]))))
        .unwrap();
    c.flush().unwrap();

    let r = query(&c, &[0.0, 1.0], 10);
    assert_eq!(ids(&r), vec!["a"], "the document must appear exactly once");
    assert!(
        (f32::from_bits(r.hits[0].score) - 1.0).abs() < 1e-5,
        "and with its newer vector"
    );
    db.close().unwrap();
}

#[test]
fn a_buffered_overwrite_shadows_the_flushed_copy() {
    let mem = MemoryStorage::new();
    let db = engine(&mem);
    let c = collection(&db, Metric::Cosine, 2);
    add(&c, "a", &[1.0, 0.0]);
    c.flush().unwrap();
    // Not flushed: the memtable copy must shadow the segment copy during the scan.
    c.upsert(DocumentInput::new("a", VectorView::floats(&bits(&[0.0, 1.0]))))
        .unwrap();

    let r = query(&c, &[1.0, 0.0], 10);
    assert_eq!(ids(&r), vec!["a"]);
    assert!(
        f32::from_bits(r.hits[0].score).abs() < 1e-5,
        "the old vector must not be scored: {r:?}"
    );
    db.close().unwrap();
}

#[test]
fn every_metric_works_end_to_end() {
    for metric in [Metric::Cosine, Metric::Dot, Metric::L2] {
        let mem = MemoryStorage::new();
        let db = engine(&mem);
        let c = collection(&db, metric, 2);
        add(&c, "near", &[1.0, 0.0]);
        add(&c, "far", &[-1.0, 0.0]);

        let r = query(&c, &[1.0, 0.0], 1);
        assert_eq!(ids(&r), vec!["near"], "{metric:?}");

        match metric {
            Metric::Dot => assert!(r.hits[0].distance.is_none(), "Dot defines no distance"),
            _ => assert!(
                r.hits[0].distance.is_some(),
                "{metric:?} should report a distance"
            ),
        }
        db.close().unwrap();
    }
}

#[test]
fn l2_reports_true_euclidean_distance() {
    let mem = MemoryStorage::new();
    let db = engine(&mem);
    let c = collection(&db, Metric::L2, 2);
    add(&c, "p", &[3.0, 4.0]);
    let r = query(&c, &[0.0, 0.0], 1);
    let d = f32::from_bits(r.hits[0].distance.unwrap());
    assert!((d - 5.0).abs() < 1e-4, "distance was {d}");
    assert!(
        (f32::from_bits(r.hits[0].score) + 25.0).abs() < 1e-3,
        "score is -squared_l2"
    );
    db.close().unwrap();
}

#[test]
fn min_score_filters_and_is_inclusive() {
    let mem = MemoryStorage::new();
    let db = engine(&mem);
    let c = collection(&db, Metric::Cosine, 2);
    add(&c, "exact", &[1.0, 0.0]);
    add(&c, "orthogonal", &[0.0, 1.0]);
    add(&c, "opposite", &[-1.0, 0.0]);

    let r = c
        .search(&SearchRequest::new(VectorView::floats(&bits(&[1.0, 0.0])), 10).with_min_score(0.0f32.to_bits()))
        .unwrap();
    let names = ids(&r);
    assert!(names.contains(&"exact".to_owned()));
    assert!(names.contains(&"orthogonal".to_owned()), "0.0 is inclusive");
    assert!(!names.contains(&"opposite".to_owned()));
    db.close().unwrap();
}

#[test]
fn the_metric_can_be_overridden_per_query() {
    let mem = MemoryStorage::new();
    let db = engine(&mem);
    let c = collection(&db, Metric::Cosine, 2);
    add(&c, "short", &[1.0, 0.0]);
    add(&c, "long", &[10.0, 0.0]);

    // Cosine cannot separate them; the inner product ranks by magnitude.
    let r = c
        .search(&SearchRequest::new(VectorView::floats(&bits(&[1.0, 0.0])), 1).with_metric(Metric::Dot))
        .unwrap();
    assert_eq!(ids(&r), vec!["long"]);
    db.close().unwrap();
}

#[test]
fn include_controls_what_comes_back_with_each_hit() {
    let mem = MemoryStorage::new();
    let db = engine(&mem);
    let c = collection(&db, Metric::Cosine, 2);

    let mut meta = Metadata::new();
    meta.insert("kind", Value::Str("tool".into()));
    c.insert(
        DocumentInput::new("a", VectorView::floats(&bits(&[1.0, 0.0])))
            .with_metadata(meta.clone())
            .with_content(b"source text"),
    )
    .unwrap();

    let bare = c
        .search(&SearchRequest::new(VectorView::floats(&bits(&[1.0, 0.0])), 1).with_include(Include::nothing()))
        .unwrap();
    assert!(bare.hits[0].document.is_none());

    let full = c
        .search(&SearchRequest::new(VectorView::floats(&bits(&[1.0, 0.0])), 1).with_include(Include::everything()))
        .unwrap();
    let doc = full.hits[0].document.as_ref().unwrap();
    assert_eq!(doc.metadata, meta);
    assert_eq!(doc.vector, Some(bits(&[1.0, 0.0])));
    assert_eq!(doc.content.as_deref(), Some(b"source text".as_slice()));

    // And the same after a flush, out of a segment rather than the memtable.
    c.flush().unwrap();
    let full = c
        .search(&SearchRequest::new(VectorView::floats(&bits(&[1.0, 0.0])), 1).with_include(Include::everything()))
        .unwrap();
    assert_eq!(full.hits[0].document.as_ref().unwrap().metadata, meta);
    db.close().unwrap();
}

// ---- validation ----

#[test]
fn a_query_of_the_wrong_dimension_is_refused() {
    let mem = MemoryStorage::new();
    let db = engine(&mem);
    let c = collection(&db, Metric::Cosine, 4);
    assert!(c
        .search(&SearchRequest::new(VectorView::floats(&bits(&[1.0, 0.0])), 1))
        .is_err());
    db.close().unwrap();
}

#[test]
fn a_non_finite_query_is_refused() {
    let mem = MemoryStorage::new();
    let db = engine(&mem);
    let c = collection(&db, Metric::Cosine, 2);
    add(&c, "a", &[1.0, 0.0]);
    assert!(c
        .search(&SearchRequest::new(VectorView::floats(&bits(&[f32::NAN, 0.0])), 1))
        .is_err());
    db.close().unwrap();
}

#[test]
fn a_top_k_of_zero_or_beyond_the_limit_is_refused() {
    let mem = MemoryStorage::new();
    let db = engine(&mem);
    let c = collection(&db, Metric::Cosine, 2);
    assert!(c
        .search(&SearchRequest::new(VectorView::floats(&bits(&[1.0, 0.0])), 0))
        .is_err());
    assert!(c
        .search(&SearchRequest::new(VectorView::floats(&bits(&[1.0, 0.0])), 100_000))
        .is_err());
    db.close().unwrap();
}

// ---- ordering and determinism ----

/// The user-visible contract: score descending, ties by ascending id.
#[test]
fn ties_are_broken_by_ascending_id() {
    let mem = MemoryStorage::new();
    let db = engine(&mem);
    let c = collection(&db, Metric::Cosine, 2);
    // Identical vectors inserted in an order that does not match id order.
    for id in ["zulu", "alpha", "mike", "bravo"] {
        add(&c, id, &[1.0, 0.0]);
    }
    let r = query(&c, &[1.0, 0.0], 4);
    assert_eq!(ids(&r), vec!["alpha", "bravo", "mike", "zulu"]);
    db.close().unwrap();
}

#[test]
fn repeating_a_query_returns_exactly_the_same_answer() {
    let mem = MemoryStorage::new();
    let db = engine(&mem);
    let c = collection(&db, Metric::Cosine, 3);
    for i in 0..200 {
        let v = [(i % 7) as f32, (i % 11) as f32, (i % 3) as f32];
        add(&c, &format!("doc-{i:03}"), &v);
    }
    c.flush().unwrap();
    for i in 200..260 {
        let v = [(i % 7) as f32, (i % 11) as f32, (i % 3) as f32];
        add(&c, &format!("doc-{i:03}"), &v);
    }

    let first = query(&c, &[1.0, 2.0, 1.0], 20);
    for _ in 0..5 {
        assert_eq!(ids(&query(&c, &[1.0, 2.0, 1.0], 20)), ids(&first));
    }
    db.close().unwrap();
}

/// Exactness, end to end: the engine's ranking must match one computed independently.
#[test]
fn results_match_an_independently_computed_ranking() {
    let mem = MemoryStorage::new();
    let db = engine(&mem);
    let c = collection(&db, Metric::Cosine, 6);

    let mut seed = 0xFEED_BEEF_1234_5678u64;
    let mut next = || {
        seed ^= seed << 13;
        seed ^= seed >> 7;
        seed ^= seed << 17;
        ((seed >> 40) as f32 / (1u32 << 24) as f32) * 2.0 - 1.0
    };
    let corpus: Vec<(String, Vec<f32>)> = (0..300)
        .map(|i| (format!("doc-{i:03}"), (0..6).map(|_| next()).collect()))
        .collect();
    for (id, v) in &corpus {
        add(&c, id, v);
    }
    // Half on disk, half buffered, so the scan has to cover both.
    c.flush().unwrap();
    for i in 0..40 {
        let v: Vec<f32> = (0..6).map(|_| next()).collect();
        add(&c, &format!("extra-{i:02}"), &v);
    }

    let q: Vec<f32> = (0..6).map(|_| next()).collect();
    let mut expected: Vec<(String, f32)> = c
        .ids()
        .unwrap()
        .into_iter()
        .map(|id| {
            let doc = c.get_with(&id, Include::everything()).unwrap().unwrap();
            let v: Vec<f32> = doc
                .vector
                .unwrap()
                .iter()
                .map(|b| f32::from_bits(*b))
                .collect();
            let s = similarity(Metric::Cosine, &q, &v, inv_norm(&v));
            (id.display(), s)
        })
        .collect();
    expected.sort_by(|a, b| b.1.total_cmp(&a.1).then_with(|| a.0.cmp(&b.0)));
    expected.truncate(15);

    let got = query(&c, &q, 15);
    assert_eq!(
        ids(&got),
        expected
            .iter()
            .map(|(id, _)| id.clone())
            .collect::<Vec<_>>(),
        "the engine's ranking disagreed with an independently computed one"
    );
    db.close().unwrap();
}

// ---- budgets ----

#[test]
fn a_cancelled_search_reports_cancellation() {
    let mem = MemoryStorage::new();
    let db = engine(&mem);
    let c = collection(&db, Metric::Cosine, 2);
    for i in 0..3000 {
        add(&c, &format!("doc-{i:04}"), &[i as f32, 1.0]);
    }
    let mut budget = Budget::unlimited();
    budget.cancel();
    let q = bits(&[1.0, 0.0]);
    let request = SearchRequest::new(VectorView::floats(&q), 5);
    assert!(matches!(
        c.search_with_budget(&request, &mut budget),
        Err(DbError::Cancelled)
    ));
    db.close().unwrap();
}

#[test]
fn a_scan_ceiling_stops_a_search_that_would_be_too_expensive() {
    let mem = MemoryStorage::new();
    let db = engine(&mem);
    let c = collection(&db, Metric::Cosine, 2);
    for i in 0..5000 {
        add(&c, &format!("doc-{i:04}"), &[i as f32, 1.0]);
    }
    let mut budget = Budget::with_max_scanned(1000);
    let q = bits(&[1.0, 0.0]);
    let request = SearchRequest::new(VectorView::floats(&q), 5);
    assert!(c.search_with_budget(&request, &mut budget).is_err());
    db.close().unwrap();
}

// ---- persistence ----

#[test]
fn search_works_after_a_reopen() {
    let mem = MemoryStorage::new();
    {
        let db = engine(&mem);
        let c = collection(&db, Metric::Cosine, 2);
        add(&c, "east", &[1.0, 0.0]);
        add(&c, "north", &[0.0, 1.0]);
        db.close().unwrap();
    }
    let db = engine(&mem);
    let c = db.open_collection("docs").unwrap();
    assert_eq!(ids(&query(&c, &[1.0, 0.0], 1)), vec!["east"]);
    db.close().unwrap();
}

#[test]
fn search_spans_many_segments() {
    let mem = MemoryStorage::new();
    let db = Database::open(
        mem.clone(),
        DatabaseConfig::default().flush_threshold_bytes(512),
    )
    .unwrap();
    let c = collection(&db, Metric::Cosine, 4);
    // Directions spread around a circle, so neighbouring documents are genuinely
    // distinguishable rather than differing below f32 precision.
    let vectors: Vec<[f32; 4]> = (0..300)
        .map(|i| {
            let angle = i as f32 * core::f32::consts::TAU / 300.0;
            [angle.cos(), angle.sin(), 0.25, -0.5]
        })
        .collect();
    for (i, v) in vectors.iter().enumerate() {
        add(&c, &format!("doc-{i:03}"), v);
    }
    assert!(
        c.stats().unwrap().segments > 1,
        "the test needs several segments"
    );
    assert_eq!(c.count().unwrap(), 300);

    // A document scattered across some segment in the middle must be findable by its own
    // vector — which is the thing that would break if a segment were skipped.
    for target in [0usize, 77, 150, 299] {
        let r = query(&c, &vectors[target], 1);
        assert_eq!(ids(&r), vec![format!("doc-{target:03}")], "target {target}");
    }
    assert_eq!(
        query(&c, &vectors[0], 300).len(),
        300,
        "every segment must be scanned"
    );
    db.close().unwrap();
}

#[test]
fn a_search_on_a_collection_of_only_deleted_documents_returns_nothing() {
    let mem = MemoryStorage::new();
    let db = engine(&mem);
    let c = collection(&db, Metric::Cosine, 2);
    for id in ["a", "b", "c"] {
        add(&c, id, &[1.0, 0.0]);
    }
    c.flush().unwrap();
    for id in ["a", "b", "c"] {
        c.delete(id).unwrap();
    }
    assert!(query(&c, &[1.0, 0.0], 10).is_empty());
    c.flush().unwrap();
    assert!(query(&c, &[1.0, 0.0], 10).is_empty());
    assert_eq!(c.count().unwrap(), 0);
    db.close().unwrap();
}

#[test]
fn the_zero_vector_is_searchable_and_scores_zero_under_cosine() {
    let mem = MemoryStorage::new();
    let db = engine(&mem);
    let c = collection(&db, Metric::Cosine, 2);
    add(&c, "zero", &[0.0, 0.0]);
    add(&c, "east", &[1.0, 0.0]);

    let r = query(&c, &[1.0, 0.0], 2);
    assert_eq!(ids(&r), vec!["east", "zero"]);
    assert_eq!(f32::from_bits(r.hits[1].score), 0.0, "the zero vector has no direction");
    assert!(r.hits.iter().all(|h| f32::from_bits(h.score).is_finite()));
    db.close().unwrap();
}

#[test]
fn u64_ids_search_and_tie_break_numerically() {
    let mem = MemoryStorage::new();
    let db = engine(&mem);
    let c = db
        .create_collection(CollectionSpec::new("numeric", 2, Metric::Cosine).with_u64_ids())
        .unwrap();
    for id in [30u64, 10, 20] {
        c.insert(DocumentInput::new(id, VectorView::floats(&bits(&[1.0, 0.0]))))
            .unwrap();
    }
    let r = query(&c, &[1.0, 0.0], 3);
    assert_eq!(
        r.hits.iter().map(|h| h.id.clone()).collect::<Vec<_>>(),
        vec![DocId::U64(10), DocId::U64(20), DocId::U64(30)]
    );
    db.close().unwrap();
}

// ---------------------------------------------------------------------------
// metadata filters
// ---------------------------------------------------------------------------

fn meta(pairs: &[(&str, Value)]) -> Metadata {
    let mut m = Metadata::new();
    for (k, v) in pairs {
        m.insert(k, v.clone());
    }
    m
}

/// Four documents at increasing angles from the query, so ranking and filtering can be told
/// apart: the filter must change *which* documents come back, not their relative order.
fn corpus(db: &Database) -> Collection {
    let c = collection(db, Metric::Cosine, 2);
    let docs: [(&str, [f32; 2], Metadata); 4] = [
        (
            "hammer",
            [1.0, 0.0],
            meta(&[
                ("category", Value::Str("tools".into())),
                ("price", Value::F64(25.0f64.to_bits())),
                ("tags", Value::Array(vec![Value::Str("hand".into())])),
            ]),
        ),
        (
            "saw",
            [0.95, 0.31],
            meta(&[
                ("category", Value::Str("tools".into())),
                ("price", Value::F64(75.0f64.to_bits())),
                (
                    "tags",
                    Value::Array(vec![Value::Str("hand".into()), Value::Str("sharp".into())]),
                ),
            ]),
        ),
        (
            "ball",
            [0.7, 0.7],
            meta(&[
                ("category", Value::Str("toys".into())),
                ("price", Value::F64(5.0f64.to_bits())),
            ]),
        ),
        (
            "kite",
            [0.31, 0.95],
            meta(&[("category", Value::Str("toys".into()))]),
        ),
    ];
    for (id, v, m) in docs {
        c.insert(DocumentInput::new(id, VectorView::floats(&bits(&v))).with_metadata(m))
            .unwrap();
    }
    c
}

fn filtered(c: &Collection, filter: &Filter, k: usize) -> Vec<String> {
    let q = bits(&[1.0, 0.0]);
    let request = SearchRequest::new(VectorView::floats(&q), k).with_filter(filter);
    ids(&c.search(&request).unwrap())
}

#[test]
fn a_filter_narrows_the_result_without_reordering_it() {
    let mem = MemoryStorage::new();
    let db = engine(&mem);
    let c = corpus(&db);

    assert_eq!(
        ids(&query(&c, &[1.0, 0.0], 4)),
        vec!["hammer", "saw", "ball", "kite"]
    );
    let tools = Filter::eq("category", Value::Str("tools".into()));
    assert_eq!(filtered(&c, &tools, 4), vec!["hammer", "saw"]);
    db.close().unwrap();
}

#[test]
fn filters_compose() {
    let mem = MemoryStorage::new();
    let db = engine(&mem);
    let c = corpus(&db);

    let cheap_tools = Filter::eq("category", Value::Str("tools".into()))
        .and(Filter::lt("price", Value::F64(50.0f64.to_bits())));
    assert_eq!(filtered(&c, &cheap_tools, 4), vec!["hammer"]);

    let either = Filter::any(vec![
        Filter::eq("category", Value::Str("toys".into())),
        Filter::gt("price", Value::F64(50.0f64.to_bits())),
    ]);
    assert_eq!(filtered(&c, &either, 4), vec!["saw", "ball", "kite"]);

    let not_tools = Filter::negate(Filter::eq("category", Value::Str("tools".into())));
    assert_eq!(filtered(&c, &not_tools, 4), vec!["ball", "kite"]);
    db.close().unwrap();
}

#[test]
fn a_filter_on_an_absent_field_matches_only_what_the_rules_say() {
    let mem = MemoryStorage::new();
    let db = engine(&mem);
    let c = corpus(&db);

    // "kite" has no price.
    assert_eq!(
        filtered(&c, &Filter::present("price"), 4),
        vec!["hammer", "saw", "ball"]
    );
    assert_eq!(filtered(&c, &Filter::is_null("price"), 4), vec!["kite"]);
    assert_eq!(
        filtered(&c, &Filter::gt("price", Value::F64(0.0f64.to_bits())), 4),
        vec!["hammer", "saw", "ball"]
    );
    db.close().unwrap();
}

#[test]
fn array_membership_and_prefix_filters() {
    let mem = MemoryStorage::new();
    let db = engine(&mem);
    let c = corpus(&db);

    assert_eq!(
        filtered(&c, &Filter::contains("tags", Value::Str("sharp".into())), 4),
        vec!["saw"]
    );
    assert_eq!(
        filtered(&c, &Filter::starts_with("category", "too"), 4),
        vec!["hammer", "saw"]
    );
    db.close().unwrap();
}

#[test]
fn a_filter_matching_nothing_returns_no_hits() {
    let mem = MemoryStorage::new();
    let db = engine(&mem);
    let c = corpus(&db);
    let none = Filter::eq("category", Value::Str("nonexistent".into()));
    let r = c
        .search(&SearchRequest::new(VectorView::floats(&bits(&[1.0, 0.0])), 4).with_filter(&none))
        .unwrap();
    assert!(r.is_empty());
    assert_eq!(r.stats.considered, 0, "nothing should have been scored");
    assert_eq!(r.stats.skipped, 4, "everything should have been skipped");
    db.close().unwrap();
}

#[test]
fn a_filter_matching_everything_changes_nothing() {
    let mem = MemoryStorage::new();
    let db = engine(&mem);
    let c = corpus(&db);
    let all = Filter::all(vec![]);
    assert_eq!(filtered(&c, &all, 4), ids(&query(&c, &[1.0, 0.0], 4)));
    db.close().unwrap();
}

/// `top_k` must count *matching* documents, not scanned ones. Returning three results
/// because the nearest ten happened to be filtered out is a classic and infuriating bug.
#[test]
fn top_k_counts_matches_not_candidates() {
    let mem = MemoryStorage::new();
    let db = engine(&mem);
    let c = collection(&db, Metric::Cosine, 2);
    for i in 0..100 {
        let angle = i as f32 * core::f32::consts::TAU / 100.0;
        let keep = i % 10 == 0;
        c.insert(
            DocumentInput::new(
                format!("doc-{i:03}"),
                VectorView::floats(&bits(&[angle.cos(), angle.sin()])),
            )
            .with_metadata(meta(&[("keep", Value::Bool(keep))])),
        )
        .unwrap();
    }
    let keep = Filter::eq("keep", Value::Bool(true));
    let r = c
        .search(&SearchRequest::new(VectorView::floats(&bits(&[1.0, 0.0])), 5).with_filter(&keep))
        .unwrap();
    assert_eq!(
        r.len(),
        5,
        "should return five matches, not five of the nearest hundred"
    );
    assert_eq!(
        r.stats.considered, 10,
        "only the ten matching rows should be scored"
    );
    assert_eq!(r.stats.skipped, 90);
    db.close().unwrap();
}

#[test]
fn filters_work_across_the_memtable_and_segments_alike() {
    let mem = MemoryStorage::new();
    let db = engine(&mem);
    let c = corpus(&db);
    c.flush().unwrap();

    // A buffered document that also matches.
    c.insert(
        DocumentInput::new("chisel", VectorView::floats(&bits(&[0.99, 0.14]))).with_metadata(meta(&[
            ("category", Value::Str("tools".into())),
            ("price", Value::F64(30.0f64.to_bits())),
        ])),
    )
    .unwrap();

    let tools = Filter::eq("category", Value::Str("tools".into()));
    assert_eq!(filtered(&c, &tools, 5), vec!["hammer", "chisel", "saw"]);
    db.close().unwrap();
}

#[test]
fn a_filter_survives_a_reopen() {
    let mem = MemoryStorage::new();
    {
        let db = engine(&mem);
        corpus(&db);
        db.close().unwrap();
    }
    let db = engine(&mem);
    let c = db.open_collection("docs").unwrap();
    let tools = Filter::eq("category", Value::Str("tools".into()));
    assert_eq!(filtered(&c, &tools, 4), vec!["hammer", "saw"]);
    db.close().unwrap();
}

#[test]
fn filters_combine_with_thresholds_and_metric_overrides() {
    let mem = MemoryStorage::new();
    let db = engine(&mem);
    let c = corpus(&db);

    let tools = Filter::eq("category", Value::Str("tools".into()));
    let r = c
        .search(
            &SearchRequest::new(VectorView::floats(&bits(&[1.0, 0.0])), 10)
                .with_filter(&tools)
                .with_min_score(0.99f32.to_bits()),
        )
        .unwrap();
    assert_eq!(
        ids(&r),
        vec!["hammer"],
        "the threshold applies on top of the filter"
    );
    db.close().unwrap();
}

#[test]
fn an_over_complex_filter_is_refused() {
    let mem = MemoryStorage::new();
    let db = engine(&mem);
    let c = corpus(&db);
    let mut f = Filter::present("category");
    for _ in 0..64 {
        f = Filter::negate(f);
    }
    let q = bits(&[1.0, 0.0]);
    let request = SearchRequest::new(VectorView::floats(&q), 4).with_filter(&f);
    assert!(c.search(&request).is_err());
    db.close().unwrap();
}

/// A document with no metadata at all must not break a filtered scan.
#[test]
fn documents_without_metadata_are_handled() {
    let mem = MemoryStorage::new();
    let db = engine(&mem);
    let c = collection(&db, Metric::Cosine, 2);
    add(&c, "bare", &[1.0, 0.0]);
    c.insert(
        DocumentInput::new("tagged", VectorView::floats(&bits(&[0.9, 0.1])))
            .with_metadata(meta(&[("kind", Value::Str("x".into()))])),
    )
    .unwrap();

    assert_eq!(filtered(&c, &Filter::present("kind"), 5), vec!["tagged"]);
    assert_eq!(filtered(&c, &Filter::is_null("kind"), 5), vec!["bare"]);
    db.close().unwrap();
}

// ---------------------------------------------------------------------------
// integrity and compaction
// ---------------------------------------------------------------------------

impl Collection {
    /// Fold what is buffered, then rewrite the segments without their dead rows.
    fn compact(&self) -> Result<Option<CompactReport>, DbError> {
        self.flush()?;
        let Some((result, image)) = self.with(|c, access| c.compact(access))? else {
            return Ok(None);
        };
        let mut state = self.db.0.borrow_mut();
        let storage = state.storage.clone();
        let name = self.name.as_str();
        let id = result.segment.id;
        let path = |which: SegmentFile| layout::segment_file(name, id, which);
        storage.write(&path(SegmentFile::Vectors)?, &image.vectors);
        storage.write(&path(SegmentFile::Directory)?, &image.directory);
        storage.write(&path(SegmentFile::Metadata)?, &image.metadata);
        storage.write(&path(SegmentFile::Tombstones)?, &image.tombstones);
        let i = state.engine.find(name).expect("the collection is open");
        let files = storage.segment(name, id)?;
        let commit = state.engine.collection_mut(i).replace(result, files)?;
        let pending = state.engine.commit_collection(commit.entry, NOW)?;
        storage.commit(&pending)?;
        state.engine.committed(pending);
        for old in commit.discard {
            storage.remove_segment(name, old)?;
        }
        Ok(Some(commit.report))
    }
}

#[test]
fn compaction_reclaims_dead_rows_and_keeps_every_document() {
    let mem = MemoryStorage::new();
    let db = open(mem.clone());
    let c = db.create_collection(spec("docs")).unwrap();
    for i in 0..10 {
        insert(&c, &format!("doc-{i:02}"), i as f32);
    }
    c.flush().unwrap();
    c.delete("doc-03").unwrap();
    let v = vector(50.0);
    c.upsert(DocumentInput::new("doc-04", VectorView::floats(&bits(&v))))
        .unwrap();
    c.flush().unwrap();
    let before = c.ids().unwrap();
    assert_eq!(c.stats().unwrap().dead_rows, 2);

    let report = c.compact().unwrap().unwrap();
    assert_eq!(report.segments_rewritten, 2);
    assert_eq!(report.segments_created, 1);
    assert_eq!(report.rows_reclaimed, 2);
    assert_eq!(c.ids().unwrap(), before);
    assert_eq!(c.stats().unwrap().segments, 1);
    assert_eq!(c.stats().unwrap().dead_rows, 0);
    let doc = c
        .get_with(&DocId::from("doc-04"), Include::everything())
        .unwrap()
        .unwrap();
    assert_eq!(doc.vector, Some(bits(&v)));
    db.close().unwrap();

    let db = open(mem);
    let c = db.open_collection("docs").unwrap();
    assert_eq!(c.ids().unwrap(), before);
    assert_eq!(ids(&query(&c, &v, 1)).len(), 1);
    db.close().unwrap();
}

#[test]
fn compacting_a_collection_without_live_rows_leaves_no_segment() {
    let (_mem, db) = fresh();
    let c = db.create_collection(spec("docs")).unwrap();
    assert_eq!(c.compact().unwrap(), None, "there is nothing to rewrite");
    insert(&c, "a", 1.0);
    c.flush().unwrap();
    c.delete("a").unwrap();
    let report = c.compact().unwrap().unwrap();
    assert_eq!(report.segments_created, 0);
    assert_eq!(report.rows_reclaimed, 1);
    assert_eq!(c.stats().unwrap().segments, 0);
    assert_eq!(c.count().unwrap(), 0);
    insert(&c, "a", 2.0);
    c.flush().unwrap();
    assert_eq!(c.count().unwrap(), 1);
}

#[test]
fn reports_of_compaction_add_up() {
    let one = CompactReport {
        segments_rewritten: 2,
        segments_created: 1,
        rows_reclaimed: 5,
    };
    let total = compact(&vec![one, CompactReport::default(), one]);
    assert_eq!(total.segments_rewritten, 4);
    assert_eq!(total.segments_created, 2);
    assert_eq!(total.rows_reclaimed, 10);
}

#[test]
fn verification_tells_a_sound_database_from_a_damaged_one() {
    let mem = MemoryStorage::new();
    let db = open(mem.clone());
    let c = db.create_collection(spec("docs")).unwrap();
    insert(&c, "a", 1.0);
    insert(&c, "b", 2.0);
    c.flush().unwrap();
    let sound = db.verify(VerifyLevel::Full).unwrap();
    assert!(sound.errors.is_empty(), "{sound:?}");
    assert!(sound.warnings.is_empty(), "{sound:?}");
    assert_eq!(sound.collections.len(), 1);
    assert_eq!(sound.collections[0].live_documents, 2);

    let path = layout::segment_file("docs", 1, SegmentFile::Vectors).unwrap();
    let mut bytes = mem.read(&path).unwrap();
    let last = bytes.len() - 6;
    bytes[last] ^= 1;
    mem.write(&path, &bytes);
    assert!(db.verify(VerifyLevel::Quick).unwrap().errors.is_empty());
    let damaged = db.verify(VerifyLevel::Full).unwrap();
    assert_eq!(damaged.errors.len(), 1, "{damaged:?}");
    assert!(damaged.errors[0].starts_with("docs: "), "{damaged:?}");

    // A directory that no manifest names is odd, not damage.
    mem.write(&DbPath::parse("collections/stray/catalog").unwrap(), b"");
    let report = db.verify(VerifyLevel::Quick).unwrap();
    assert_eq!(
        report.warnings,
        vec!["collections/stray is on disk but named by no manifest"]
    );
    db.close().unwrap();
    assert!(matches!(
        db.verify(VerifyLevel::Quick),
        Err(DbError::Lifecycle(LifecycleError::DatabaseClosed))
    ));
}

#[test]
fn requiring_an_absent_document_names_it() {
    let (_mem, db) = fresh();
    let c = db.create_collection(spec("docs")).unwrap();
    insert(&c, "a", 1.0);
    assert_eq!(c.require(&DocId::from("a")).unwrap().id, DocId::from("a"));
    match c.require(&DocId::from("b")) {
        Err(DbError::NotFound(NotFoundError::Document { collection, id })) => {
            assert_eq!(collection, "docs");
            assert_eq!(id, "b");
        }
        other => panic!("expected Document, got {other:?}"),
    }
}

/// What a segment file holds is the file itself; whether its vectors can be scanned is found out
/// when it is opened.
#[test]
fn a_segment_cut_short_is_refused_on_open() {
    let mem = MemoryStorage::new();
    {
        let db = open(mem.clone());
        let c = db.create_collection(spec("docs")).unwrap();
        insert(&c, "a", 1.0);
        c.flush().unwrap();
        db.close().unwrap();
    }
    let path = layout::segment_file("docs", 1, SegmentFile::Directory).unwrap();
    let bytes = mem.read(&path).unwrap();
    mem.write(&path, &bytes[..bytes.len() / 2]);
    let e = Database::open(mem, DatabaseConfig::default()).unwrap_err();
    assert!(e.is_corruption(), "{e:?}");
}

#[test]
fn a_torn_batch_leaves_no_trace_after_a_reopen() {
    let mem = MemoryStorage::new();
    {
        let db = open(mem.clone());
        let c = db.create_collection(spec("docs")).unwrap();
        insert(&c, "before", 1.0);
        let mut batch = WriteBatch::new();
        for i in 0..3 {
            let v = vector(i as f32);
            batch.upsert(DocumentInput::new(
                format!("batch-{i}"),
                VectorView::floats(&bits(&v)),
            ));
        }
        c.write_batch(batch).unwrap();
        assert_eq!(c.count().unwrap(), 4);
    }
    let wal = layout::wal_file("docs", 1).unwrap();
    let len = mem.read(&wal).unwrap().len();
    mem.truncate(&wal, len as u64 - 3);
    let db = open(mem.clone());
    let c = db.open_collection("docs").unwrap();
    assert_eq!(c.ids().unwrap(), vec![DocId::from("before")]);
    // The torn tail was cut off, so what is written next is read back.
    insert(&c, "after", 9.0);
    drop(c);
    drop(db);
    let db = open(mem);
    let c = db.open_collection("docs").unwrap();
    assert_eq!(c.count().unwrap(), 2);
    db.close().unwrap();
}

/// The operations that an interrupted batch left in the log are not taken over by the next batch.
#[test]
fn a_batch_after_a_torn_one_does_not_bring_it_back() {
    for cut in [3u64, 60] {
        let mem = MemoryStorage::new();
        {
            let db = open(mem.clone());
            let c = db.create_collection(spec("docs")).unwrap();
            insert(&c, "before", 1.0);
            let mut batch = WriteBatch::new();
            for i in 0..3 {
                let v = vector(i as f32);
                batch.upsert(DocumentInput::new(
                    format!("batch-{i}"),
                    VectorView::floats(&bits(&v)),
                ));
            }
            c.write_batch(batch).unwrap();
        }
        let wal = layout::wal_file("docs", 1).unwrap();
        let len = mem.read(&wal).unwrap().len();
        mem.truncate(&wal, len as u64 - cut);
        for name in ["after", "later"] {
            let db = open(mem.clone());
            let c = db.open_collection("docs").unwrap();
            let v = vector(9.0);
            let mut batch = WriteBatch::new();
            batch.upsert(DocumentInput::new(name, VectorView::floats(&bits(&v))));
            c.write_batch(batch).unwrap();
        }
        let db = open(mem);
        let c = db.open_collection("docs").unwrap();
        assert_eq!(
            c.ids().unwrap(),
            vec![
                DocId::from("after"),
                DocId::from("before"),
                DocId::from("later")
            ]
        );
        db.close().unwrap();
    }
}

/// No document of a collection has an id of the kind it does not use, so there is nothing to
/// delete, and nothing in the log that could be mistaken for another id.
#[test]
fn deleting_an_id_of_the_other_kind_changes_nothing() {
    let mem = MemoryStorage::new();
    {
        let db = open(mem.clone());
        let numbered = db
            .create_collection(spec("numbered").with_u64_ids())
            .unwrap();
        let v = vector(1.0);
        let id = u64::from_le_bytes(*b"document");
        numbered
            .insert(DocumentInput::new(id, VectorView::floats(&bits(&v))))
            .unwrap();
        assert!(!numbered.delete("document").unwrap());
        assert!(!numbered.delete("absent").unwrap());
        let named = db.create_collection(spec("named")).unwrap();
        insert(&named, "document", 1.0);
        assert!(!named.delete(id).unwrap());
        assert!(!named.delete(u64::MAX).unwrap());
        assert_eq!(numbered.count().unwrap(), 1);
        assert_eq!(named.count().unwrap(), 1);
    }
    let db = open(mem);
    assert_eq!(db.open_collection("numbered").unwrap().count().unwrap(), 1);
    assert_eq!(db.open_collection("named").unwrap().count().unwrap(), 1);
    db.close().unwrap();
}

#[test]
fn a_budget_counts_what_was_examined() {
    let mem = MemoryStorage::new();
    let db = engine(&mem);
    let c = collection(&db, Metric::Cosine, 2);
    for i in 0..30 {
        add(&c, &format!("doc-{i:02}"), &[i as f32, 1.0]);
    }
    let q = bits(&[1.0, 0.0]);
    let request = SearchRequest::new(VectorView::floats(&q), 5);
    let mut budget = Budget::with_max_scanned(30);
    let r = c.search_with_budget(&request, &mut budget).unwrap();
    assert_eq!(budget.scanned(), 30);
    assert_eq!(r.stats.scanned, 30);
    assert!(matches!(
        c.search_with_budget(&request, &mut budget),
        Err(DbError::Cancelled)
    ));
    db.close().unwrap();
    let mut fresh_budget = Budget::unlimited();
    assert!(matches!(
        c.search_with_budget(&request, &mut fresh_budget),
        Err(DbError::Lifecycle(LifecycleError::DatabaseClosed))
    ));
    assert_eq!(fresh_budget.scanned(), 0);
}

/// Every document of a database, with all its parts.
fn everything(db: &Database) -> Vec<Document> {
    let c = db.open_collection("docs").unwrap();
    c.ids()
        .unwrap()
        .iter()
        .map(|id| c.get_with(id, Include::everything()).unwrap().unwrap())
        .collect()
}

fn crowded(mem: &MemoryStorage) -> (Database, Collection) {
    let db = open(mem.clone());
    let c = db.create_collection(spec("docs")).unwrap();
    for i in 0..6 {
        insert(&c, &format!("doc-{i}"), i as f32);
    }
    c.flush().unwrap();
    c.delete("doc-1").unwrap();
    let v = vector(70.0);
    c.upsert(DocumentInput::new("doc-2", VectorView::floats(&bits(&v))))
        .unwrap();
    insert(&c, "doc-9", 9.0);
    (db, c)
}

#[test]
fn a_crash_at_any_point_of_a_flush_changes_nothing() {
    let mem = MemoryStorage::new();
    let (db, c) = crowded(&mem);
    let before = everything(&db);
    mem.record();
    c.flush().unwrap();
    let points = mem.recorded();
    assert!(points.len() > 6, "a flush writes several files");
    for (i, files) in points.into_iter().enumerate() {
        let db = open(MemoryStorage::holding(files));
        assert_eq!(everything(&db), before, "after {i} changes on disk");
        assert_eq!(db.open_collection("docs").unwrap().count().unwrap(), 6);
        db.close().unwrap();
    }
}

#[test]
fn a_crash_at_any_point_of_a_compaction_changes_nothing() {
    let mem = MemoryStorage::new();
    let (db, c) = crowded(&mem);
    c.flush().unwrap();
    let before = everything(&db);
    mem.record();
    c.compact().unwrap().unwrap();
    for (i, files) in mem.recorded().into_iter().enumerate() {
        let db = open(MemoryStorage::holding(files));
        assert_eq!(everything(&db), before, "after {i} changes on disk");
        db.close().unwrap();
    }
}

#[test]
fn a_batch_with_a_vector_of_the_wrong_length_is_refused_whole() {
    let (_mem, db) = fresh();
    let c = db.create_collection(spec("docs")).unwrap();
    let torn = VectorView::Raw {
        dtype: VectorDType::F32,
        bytes: &[0; 4],
        dimension: DIM,
    };
    let v = bits(&vector(1.0));
    let mut batch = WriteBatch::new();
    batch.upsert(DocumentInput::new("good", VectorView::floats(&v)));
    batch.upsert(DocumentInput::new("torn", torn));
    match c.write_batch(batch) {
        Err(DbError::Transaction(TransactionError::Aborted {
            failed_at: 1,
            total_ops: 2,
            cause,
        })) => assert!(matches!(
            *cause,
            DbError::Validation(ValidationError::InvalidVectorDimension { actual: 1, .. })
        )),
        other => panic!("expected Aborted, got {other:?}"),
    }
    assert_eq!(c.count().unwrap(), 0);
}

/// An index that gives up after the first admitted row of each source.
#[derive(Debug)]
struct Impatient;

impl VectorIndex for Impatient {
    fn exact(&self) -> bool {
        false
    }

    fn kind(&self) -> IndexKind {
        IndexKind::Flat
    }

    fn is_exact(&self) -> bool {
        false
    }

    fn search<
        S: VectorSource,
        L: LiveSet,
        P: RowPredicate,
        F: Fn(Metric, &[u32], &[u8], u32) -> u32,
        C: Fn() -> bool,
    >(
        &self,
        ctx: &SearchCtx<'_, L, P>,
        source: &S,
        score: &F,
        stop: &C,
        budget: &mut Budget,
        out: &mut TopK,
    ) -> Result<(), DbError> {
        for i in 0..source.len() {
            let (row, bytes, norm) = source.row_at(i);
            if ctx.admits(row) {
                out.offer(row, score(ctx.metric, ctx.query, bytes, norm));
                return budget.check(1, stop);
            }
        }
        Ok(())
    }

    fn stats(&self) -> IndexStats {
        IndexStats::new(IndexKind::Flat, 0, 0)
    }
}

#[test]
fn a_collection_searches_with_the_index_it_is_given() {
    let mem = MemoryStorage::new();
    let db = engine(&mem);
    let c = collection(&db, Metric::Dot, 2);
    for i in 0..4 {
        add(&c, &format!("old-{i}"), &[i as f32, 1.0]);
    }
    c.flush().unwrap();
    c.delete("old-0").unwrap();
    for i in 0..3 {
        add(&c, &format!("new-{i}"), &[10.0 + i as f32, 1.0]);
    }
    let q = bits(&[1.0, 0.0]);
    let request = SearchRequest::new(VectorView::floats(&q), 5);
    let mut budget = Budget::unlimited();
    let r = c
        .search_with_index(&request, &Impatient, &|| false, &mut budget)
        .unwrap();
    assert_eq!(ids(&r), vec!["new-0", "old-1"]);
    assert!(!r.stats.exact);
    assert_eq!(r.stats.considered, 2);
    assert_eq!(budget.scanned(), 2);
    let exact = c.search(&request).unwrap();
    assert!(exact.stats.exact);
    assert_eq!(exact.stats.considered, 6);
    assert_eq!(ids(&exact)[0], "new-2");

    let polls = Cell::new(0);
    let stop = || {
        polls.set(polls.get() + 1);
        polls.get() == 2
    };
    let mut budget = Budget::unlimited();
    assert!(matches!(
        c.search_with_index(&request, &Impatient, &stop, &mut budget),
        Err(DbError::Cancelled)
    ));
    assert_eq!(budget.scanned(), 2);
    db.close().unwrap();
}

/// What a cancelled search charges is fixed: each source up to the check that was refused, and
/// nothing behind it.
#[test]
fn a_cancelled_search_charges_up_to_the_check_that_was_refused() {
    let mem = MemoryStorage::new();
    let db = engine(&mem);
    let c = collection(&db, Metric::Dot, 1);
    for i in 0..1500 {
        add(&c, &format!("a-{i:04}"), &[i as f32]);
    }
    c.flush().unwrap();
    for i in 0..1200 {
        add(&c, &format!("b-{i:04}"), &[i as f32]);
    }
    let q = bits(&[1.0]);
    let request = SearchRequest::new(VectorView::floats(&q), 5);
    for (max, charged) in [(0, 1024), (1024, 1500), (1500, 2524), (2600, 2700)] {
        let mut budget = Budget::with_max_scanned(max);
        assert!(matches!(
            c.search_with_budget(&request, &mut budget),
            Err(DbError::Cancelled)
        ));
        assert_eq!(budget.scanned(), charged);
    }
    db.close().unwrap();
}
