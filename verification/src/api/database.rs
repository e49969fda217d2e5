//! The database handle.
//!
//! A database is its manifest and its collections. What is read, written and committed passes
//! through here as plain bytes; whoever drives it does the reading and writing.
use vstd::prelude::*;

use crate::api::access;
use crate::api::access::Access;
use crate::api::collection;
use crate::api::collection::{CollModel, Collection};
use crate::api::config;
use crate::api::config::{CollectionSpec, DatabaseConfig, SpecModel};
use crate::api::uuid;
use crate::api::verify;
use crate::api::verify::{CollectionCheck, VerifyLevel, VerifyReport};
use crate::bytes;
use crate::document;
use crate::document::{DocId, IdModel};
use crate::error;
use crate::error::{
    ConflictError, ConflictModel, DbError, ErrorModel, LifecycleError, LifecycleModel,
    NotFoundError, NotFoundModel,
};
use crate::format::catalog::{Catalog, CatalogModel, Metric};
use crate::format::le;
use crate::format::manifest;
use crate::format::manifest::{CollectionEntry, EntryModel, Manifest, ManifestModel, Slot};
use crate::format::slots;
use crate::format::FORMAT_VERSION;
use crate::idmap;
use crate::idmap::IdMap;
use crate::path;
use crate::path::DbPath;
use crate::persistence::catalog;
use crate::persistence::catalog::{write_catalog, PendingCatalog, PendingModel};
use crate::persistence::layout;
use crate::persistence::layout_laws;
use crate::persistence::manifest as store;
use crate::persistence::manifest::{ManifestStore, PendingCommit};

verus! {

/// What opening a database starts from.
#[derive(Debug)]
pub enum OpenPlan {
    /// There is a database: this is its manifest.
    Existing(ManifestStore),
    /// There is none: its first manifest has to be written, below a collections directory that
    /// has to be created.
    Fresh(PendingCommit),
}

/// The error for a database that is not there.
pub open spec fn not_found(location: Seq<char>) -> ErrorModel {
    ErrorModel::Lifecycle(LifecycleModel::DatabaseNotFound { path: location })
}

/// Whether opening starts as it should, `a` and `b` being what the manifest slots hold.
pub open spec fn is_plan(
    r: Result<OpenPlan, DbError>,
    config: DatabaseConfig,
    a: Option<Seq<u8>>,
    b: Option<Seq<u8>>,
    occupied: bool,
    location: Seq<char>,
    now_ms: u64,
    count: u64,
) -> bool {
    let x = store::counted(a);
    let y = store::counted(b);
    let first = ManifestModel {
        sequence: 1,
        db_uuid: le::le(now_ms as nat, 8) + le::le(
            uuid::mixed(now_ms, count) as nat,
            8,
        ),
        created_at_ms: now_ms,
        updated_at_ms: now_ms,
        collections: Seq::empty(),
    };
    if config.read_only && config.create_if_missing {
        error::failed(r, config::creates_read_only())
    } else if x is Some || y is Some {
        match slots::chosen(slots::examined(x), slots::examined(y)) {
            Some(c) => r matches Ok(OpenPlan::Existing(s)) && s@ == c,
            None => error::failed(
                r,
                store::no_valid_manifest(path::root_text(), slots::examined(x), slots::examined(y)),
            ),
        }
    } else if !config.create_if_missing {
        error::failed(r, not_found(location))
    } else {
        if occupied {
            error::failed(
                r,
                store::no_valid_manifest(
                    "collections"@,
                    slots::examined(x),
                    slots::examined(y),
                ),
            )
        } else {
            r matches Ok(OpenPlan::Fresh(p)) && store::prepared(Ok(p), Slot::A, first)
        }
    }
}

/// Decide how a database is opened, `a` and `b` being what its manifest slots hold where they
/// exist, and `occupied` whether there is anything in the collections directory. `location` says
/// where the database is; `count` is how many databases this process created before.
///
/// Both manifest slots gone but collections on disk is a damaged database, not an empty
/// directory. Creating a fresh manifest there would present the user with an empty database and
/// orphan everything they had, which is the worst possible response to losing a 200-byte file.
///
/// # Errors
/// [`crate::error::ConfigError`] for settings that contradict each other,
/// [`LifecycleError::DatabaseNotFound`] when nothing exists and nothing is to be created, or
/// [`crate::error::CorruptionError`] when the manifest is damaged.
pub fn plan_open(
    config: &DatabaseConfig,
    a: Option<&[u8]>,
    b: Option<&[u8]>,
    occupied: bool,
    location: &str,
    now_ms: u64,
    count: u64,
) -> (r: Result<OpenPlan, DbError>)
    ensures
        is_plan(
            r,
            *config,
            slots::slice_bytes(a),
            slots::slice_bytes(b),
            occupied,
            location@,
            now_ms,
            count,
        ),
{
    match config.validate() {
        Ok(()) => {},
        Err(e) => {
            return Err(e);
        },
    }
    match ManifestStore::load(a, b) {
        Ok(Some(s)) => {
            return Ok(OpenPlan::Existing(s));
        },
        Ok(None) => {},
        Err(e) => {
            return Err(e);
        },
    }
    if !config.create_if_missing {
        return Err(
            DbError::Lifecycle(LifecycleError::DatabaseNotFound { path: location.to_owned() }),
        );
    }
    let dir = match layout::collections_dir() {
        Ok(d) => d,
        Err(e) => {
            return Err(e);
        },
    };
    if occupied {
        let scan = ManifestStore::scan(a, b);
        return Err(store::report_unreadable(dir, &scan));
    }
    match ManifestStore::create(uuid::new_uuid(now_ms, count), now_ms) {
        Ok(p) => Ok(OpenPlan::Fresh(p)),
        Err(e) => Err(e),
    }
}

/// The error for a database that another handle has open.
///
/// Read-only handles take no lock, so a second process can inspect a database while an
/// application has it open. That is genuinely useful for debugging and cannot corrupt anything,
/// because a read-only handle never writes.
pub fn already_open(location: &str, holder: &str) -> (r: DbError)
    ensures
        r@ == ErrorModel::Lifecycle(
            LifecycleModel::DatabaseAlreadyOpen { path: location@, holder: Some(holder@) },
        ),
{
    DbError::Lifecycle(
        LifecycleError::DatabaseAlreadyOpen {
            path: location.to_owned(),
            holder: Some(holder.to_owned()),
        },
    )
}

/// What a database holds.
pub struct DbModel {
    pub config: DatabaseConfig,
    pub closed: bool,
    pub slot: Slot,
    pub manifest: ManifestModel,
    /// The open collections.
    pub collections: Seq<CollModel>,
}

/// Whether a collection is called so.
pub open spec fn named(c: CollModel, name: Seq<char>) -> bool {
    c.catalog.name == name
}

/// Where a collection stands in a list, if it does.
pub open spec fn place(cs: Seq<CollModel>, name: Seq<char>) -> Option<int>
    decreases cs.len(),
{
    if cs.len() == 0 {
        None
    } else if named(cs.last(), name) {
        Some(cs.len() - 1)
    } else {
        place(cs.drop_last(), name)
    }
}

/// Manifest entries with one of them rewritten, or added.
pub open spec fn with_entry(es: Seq<EntryModel>, e: EntryModel) -> Seq<EntryModel>
    decreases es.len(),
{
    if es.len() == 0 {
        seq![e]
    } else if es[0].name == e.name {
        seq![e] + es.skip(1)
    } else {
        seq![es[0]] + with_entry(es.skip(1), e)
    }
}

/// Manifest entries without those of a collection.
pub open spec fn without_entry(es: Seq<EntryModel>, name: Seq<char>) -> Seq<EntryModel>
    decreases es.len(),
{
    if es.len() == 0 {
        Seq::empty()
    } else if es.last().name == name {
        without_entry(es.drop_last(), name)
    } else {
        without_entry(es.drop_last(), name).push(es.last())
    }
}

/// Collections without one of them.
pub open spec fn without_collection(cs: Seq<CollModel>, name: Seq<char>) -> Seq<CollModel>
    decreases cs.len(),
{
    if cs.len() == 0 {
        Seq::empty()
    } else if named(cs.last(), name) {
        without_collection(cs.drop_last(), name)
    } else {
        without_collection(cs.drop_last(), name).push(cs.last())
    }
}

/// The entry of a collection that holds nothing yet.
pub open spec fn empty_entry(name: Seq<char>) -> EntryModel {
    EntryModel {
        name,
        segments: Seq::empty(),
        index_snapshot: None,
        last_applied_wal: 0,
        live_count: 0,
        total_rows: 0,
    }
}

impl DbModel {
    /// The state of the handle.
    pub open spec fn access(self) -> Access {
        Access { closed: self.closed, read_only: self.config.read_only }
    }

    /// Whether a collection exists.
    pub open spec fn exists_named(self, name: Seq<char>) -> bool {
        place(self.collections, name) is Some
    }

    /// No two collections have the same name, and each is well formed.
    pub open spec fn wf(self) -> bool {
        &&& self.collections.len() <= usize::MAX
        &&& forall|i: int| 0 <= i < self.collections.len() ==> (#[trigger] self.collections[i]).wf()
        &&& forall|i: int, j: int|
            0 <= i < j < self.collections.len() ==> (#[trigger] self.collections[i]).catalog.name
                != (#[trigger] self.collections[j]).catalog.name
    }

    /// The database once a collection is in a later state.
    pub open spec fn with_at(self, i: int, c: CollModel) -> DbModel {
        DbModel { collections: self.collections.update(i, c), ..self }
    }

    /// Whether the commit of a manifest with these collections is prepared, or refused as it
    /// should be.
    pub open spec fn commits(
        self,
        r: Result<PendingCommit, DbError>,
        es: Seq<EntryModel>,
        now_ms: u64,
    ) -> bool {
        store::prepared(
            r,
            manifest::other_slot(self.slot),
            store::stamped(
                self.manifest,
                ManifestModel { collections: es, ..self.manifest },
                now_ms,
            ),
        )
    }
}

/// Open collections as they are.
pub open spec fn collection_models(cs: Seq<Collection>) -> Seq<CollModel> {
    cs.map_values(|c: Collection| c@)
}

/// An open database.
#[derive(Debug)]
pub struct Database {
    config: DatabaseConfig,
    closed: bool,
    manifest: ManifestStore,
    collections: Vec<Collection>,
}

impl View for Database {
    type V = DbModel;

    closed spec fn view(&self) -> DbModel {
        DbModel {
            config: self.config,
            closed: self.closed,
            slot: self.manifest@.0,
            manifest: self.manifest@.1,
            collections: collection_models(self.collections@),
        }
    }
}

/// What creating a collection has to write: its specification, the directory of its log, and
/// then, last, the manifest that names it.
#[derive(Debug)]
pub struct NewCollection {
    /// The specification.
    pub catalog: Catalog,
    /// The specification's file.
    pub file: PendingCatalog,
    /// The directory of its log.
    pub wal_dir: DbPath,
    /// Its manifest entry.
    pub entry: CollectionEntry,
    /// The commit that names it.
    pub commit: PendingCommit,
}

/// What dropping a collection has to write, and then, last, what to remove.
///
/// Manifest first, files second. A crash in between leaves an unreferenced directory, which is
/// recoverable waste; the other order would leave the manifest pointing at files that no longer
/// exist, which is corruption.
#[derive(Debug)]
pub struct DroppedCollection {
    /// The commit that no longer names it.
    pub commit: PendingCommit,
    /// The directory to remove.
    pub dir: DbPath,
}

/// A collection that was asked for.
#[derive(Debug)]
pub enum Requested {
    /// It exists, at this place among the collections.
    Existing(usize),
    /// It has to be created.
    New(NewCollection),
}

/// A collection, as described by [`Database::list_collections`].
#[derive(Debug, PartialEq)]
pub struct CollectionInfo {
    /// The collection's name.
    pub name: String,
    /// Its vector dimension.
    pub dimension: u32,
    /// Its similarity metric.
    pub metric: Metric,
}

/// A description of a collection, independent of how it is held in memory.
pub struct InfoModel {
    pub name: Seq<char>,
    pub dimension: u32,
    pub metric: Metric,
}

impl View for CollectionInfo {
    type V = InfoModel;

    open spec fn view(&self) -> InfoModel {
        InfoModel { name: self.name@, dimension: self.dimension, metric: self.metric }
    }
}

/// The description of a collection.
pub open spec fn info_of(c: CatalogModel) -> InfoModel {
    InfoModel { name: c.name, dimension: c.dimension, metric: c.metric }
}

/// Database-wide counters.
#[derive(Debug, Clone, Copy, PartialEq, Eq, Structural)]
pub struct DatabaseStats {
    /// The on-disk format.
    pub format_version: u16,
    /// The manifest's sequence.
    pub manifest_sequence: u64,
    /// How many collections there are.
    pub collections: usize,
    /// Live documents in all of them.
    pub live_documents: u64,
    /// Rows in all their segments.
    pub total_rows: u64,
    /// Whether the handle never writes.
    pub read_only: bool,
    /// Whether a sync of the storage is a real durability point.
    pub durable_sync: bool,
}

/// Live documents in collections.
pub open spec fn live_in(cs: Seq<CollModel>) -> nat
    decreases cs.len(),
{
    if cs.len() == 0 {
        0
    } else {
        live_in(cs.drop_last()) + collection::capped(cs.last().live_documents()) as nat
    }
}

/// Rows in the segments of collections.
pub open spec fn rows_in(cs: Seq<CollModel>) -> nat
    decreases cs.len(),
{
    if cs.len() == 0 {
        0
    } else {
        rows_in(cs.drop_last()) + collection::capped(
            collection::rows_on_disk(cs.last().segments) as int,
        ) as nat
    }
}

/// The error for a collection that is not there.
pub open spec fn no_collection(name: Seq<char>) -> ErrorModel {
    ErrorModel::NotFound(NotFoundModel::Collection { name })
}

/// The error for a collection that is there already.
pub open spec fn taken(name: Seq<char>) -> ErrorModel {
    ErrorModel::Conflict(ConflictModel::CollectionExists { name })
}

/// Whether creating a collection is prepared, or refused, as it should be.
pub open spec fn is_creation(
    d: DbModel,
    r: Result<NewCollection, DbError>,
    spec: SpecModel,
    now_ms: u64,
) -> bool {
    let c = spec.catalog(now_ms);
    match d.access().refused("create a collection") {
        Some(e) => error::failed(r, e),
        None => match spec.refused() {
            Some(e) => error::failed(r, e),
            None => if d.exists_named(spec.name) {
                error::failed(r, taken(spec.name))
            } else {
                match r {
                    Ok(n) => {
                        &&& n.catalog@ == c
                        &&& catalog::written(c) == Ok::<PendingModel, ErrorModel>(n.file@)
                        &&& n.wal_dir@ == layout::wal_dir_text(spec.name)
                        &&& n.entry@ == empty_entry(spec.name)
                        &&& d.commits(
                            Ok(n.commit),
                            with_entry(d.manifest.collections, empty_entry(spec.name)),
                            now_ms,
                        )
                    },
                    Err(e) => d.commits(
                        Err(e),
                        with_entry(d.manifest.collections, empty_entry(spec.name)),
                        now_ms,
                    ),
                }
            },
        },
    }
}

pub proof fn lemma_place(cs: Seq<CollModel>, name: Seq<char>)
    ensures
        match place(cs, name) {
            Some(i) => 0 <= i < cs.len() && named(cs[i], name) && forall|k: int|
                i < k < cs.len() ==> !named(#[trigger] cs[k], name),
            None => forall|k: int| 0 <= k < cs.len() ==> !named(#[trigger] cs[k], name),
        },
    decreases cs.len(),
{
    if cs.len() > 0 && !named(cs.last(), name) {
        let front = cs.drop_last();
        lemma_place(front, name);
        assert forall|k: int|
            (match place(cs, name) {
                Some(i) => i,
                None => -1,
            }) < k < cs.len() implies !named(#[trigger] cs[k], name) by {
            if k < front.len() {
                assert(front[k] == cs[k]);
            }
        }
    }
}

/// The place of a collection in a list of distinct ones is the only one with its name.
pub proof fn lemma_place_is_unique(d: DbModel, i: int)
    requires
        d.wf(),
        0 <= i < d.collections.len(),
    ensures
        place(d.collections, d.collections[i].catalog.name) == Some(i),
{
    let name = d.collections[i].catalog.name;
    lemma_place(d.collections, name);
    assert(named(d.collections[i], name));
    match place(d.collections, name) {
        Some(j) => {
            if j < i {
                assert(d.collections[j].catalog.name != d.collections[i].catalog.name);
            } else if i < j {
                assert(d.collections[i].catalog.name != d.collections[j].catalog.name);
            }
        },
        None => {},
    }
}

/// Entries with one of them rewritten or added. The first with its name is replaced.
fn place_entry(entries: Vec<CollectionEntry>, entry: CollectionEntry) -> (r: Vec<CollectionEntry>)
    ensures
        manifest::entry_models(r@) == with_entry(manifest::entry_models(entries@), entry@),
{
    let ghost es = manifest::entry_models(entries@);
    let ghost e = entry@;
    let mut out = entries;
    let mut i: usize = 0;
    assert(es.skip(0) =~= es);
    assert(es.take(0) + with_entry(es.skip(0), e) =~= with_entry(es, e));
    while i < out.len()
        invariant
            i <= out@.len(),
            out@ == entries@,
            es == manifest::entry_models(entries@),
            e == entry@,
            es.take(i as int) + with_entry(es.skip(i as int), e) == with_entry(es, e),
        decreases out.len() - i,
    {
        let ghost rest = es.skip(i as int);
        assert(rest[0] == out@[i as int]@);
        assert(rest.skip(1) =~= es.skip(i + 1));
        if bytes::same_str(out[i].name.as_str(), entry.name.as_str()) {
            out.set(i, entry);
            proof {
                let now = manifest::entry_models(out@);
                assert(now =~= es.take(i as int) + (seq![e] + es.skip(i + 1)));
            }
            return out;
        }
        assert(es.take(i + 1) =~= es.take(i as int).push(rest[0]));
        assert(es.take(i + 1) + with_entry(es.skip(i + 1), e) =~= es.take(i as int) + (seq![rest[0]]
            + with_entry(es.skip(i + 1), e)));
        i += 1;
    }
    assert(es.take(i as int) =~= es);
    out.push(entry);
    assert(manifest::entry_models(out@) =~= es + seq![e]);
    out
}

/// Entries without those of a collection.
fn drop_entry(entries: &Vec<CollectionEntry>, name: &str) -> (r: Vec<CollectionEntry>)
    ensures
        manifest::entry_models(r@) == without_entry(manifest::entry_models(entries@), name@),
{
    let ghost es = manifest::entry_models(entries@);
    let mut out: Vec<CollectionEntry> = Vec::new();
    let mut i: usize = 0;
    assert(es.take(0) =~= Seq::<EntryModel>::empty());
    assert(manifest::entry_models(out@) =~= Seq::<EntryModel>::empty());
    while i < entries.len()
        invariant
            i <= entries@.len(),
            es == manifest::entry_models(entries@),
            manifest::entry_models(out@) == without_entry(es.take(i as int), name@),
        decreases entries.len() - i,
    {
        let ghost before = out@;
        proof {
            assert(es.take(i + 1).drop_last() =~= es.take(i as int));
            assert(es.take(i + 1).last() == entries@[i as int]@);
        }
        if !bytes::same_str(entries[i].name.as_str(), name) {
            let e = entries[i].clone();
            out.push(e);
            assert(manifest::entry_models(out@) =~= manifest::entry_models(before).push(e@));
        }
        i += 1;
    }
    assert(es.take(i as int) =~= es);
    out
}

proof fn lemma_update_keeps_names(m: DbModel, i: int, c: CollModel)
    requires
        m.wf(),
        0 <= i < m.collections.len(),
        c.wf(),
        c.catalog.name == m.collections[i].catalog.name,
    ensures
        m.with_at(i, c).wf(),
{
    let now = m.with_at(i, c).collections;
    assert forall|x: int, y: int| 0 <= x < y < now.len() implies (#[trigger] now[x]).catalog.name
        != (#[trigger] now[y]).catalog.name by {
        assert(m.collections[x].catalog.name != m.collections[y].catalog.name);
    }
    assert forall|x: int| 0 <= x < now.len() implies (#[trigger] now[x]).wf() by {
        if x != i {
            assert(m.collections[x].wf());
        }
    }
}

impl Database {
    /// A database with its manifest read, or its first one written, and no collection open yet.
    pub fn start(config: DatabaseConfig, manifest: ManifestStore) -> (r: Self)
        ensures
            r@ == (DbModel {
                config,
                closed: false,
                slot: manifest@.0,
                manifest: manifest@.1,
                collections: Seq::empty(),
            }),
            r@.wf(),
    {
        let collections: Vec<Collection> = Vec::new();
        let r = Database { config, closed: false, manifest, collections };
        assert(r@.collections =~= Seq::<CollModel>::empty());
        r
    }

    /// The state of the handle.
    pub fn access(&self) -> (r: Access)
        ensures
            r == self@.access(),
    {
        Access { closed: self.closed, read_only: self.config.read_only }
    }

    /// How it was opened.
    pub fn config(&self) -> (r: DatabaseConfig)
        ensures
            r == self@.config,
    {
        self.config
    }

    /// The authoritative manifest.
    pub fn manifest(&self) -> (r: &Manifest)
        ensures
            r@ == self@.manifest,
    {
        self.manifest.current()
    }

    /// Whether the handle is still usable.
    pub fn is_open(&self) -> (r: bool)
        ensures
            r == !self@.closed,
    {
        !self.closed
    }

    /// Mark the handle as closed: every later operation on it is refused.
    pub fn close(&mut self)
        ensures
            final(self)@ == (DbModel { closed: true, ..old(self)@ }),
    {
        self.closed = true;
    }

    /// How many collections are open.
    pub fn len(&self) -> (r: usize)
        ensures
            r == self@.collections.len(),
    {
        self.collections.len()
    }

    /// The collection at a place.
    pub fn collection_at(&self, i: usize) -> (r: &Collection)
        requires
            i < self@.collections.len(),
        ensures
            r@ == self@.collections[i as int],
    {
        &self.collections[i]
    }

    /// The collection at a place, to be written to.
    pub fn collection_mut(&mut self, i: usize) -> (r: &mut Collection)
        requires
            i < old(self)@.collections.len(),
        ensures
            r@ == old(self)@.collections[i as int],
            final(self)@ == old(self)@.with_at(i as int, final(r)@),
            old(self)@.wf() ==> r@.wf(),
            old(self)@.wf() && final(r)@.wf() && final(r)@.catalog.name == r@.catalog.name
                ==> final(self)@.wf(),
    {
        let ghost before = self@;
        proof {
            assert forall|c: CollModel|
                before.wf() && c.wf() && c.catalog.name
                    == before.collections[i as int].catalog.name implies #[trigger] before.with_at(
                i as int,
                c,
            ).wf() by {
                lemma_update_keeps_names(before, i as int, c);
            }
        }
        assert forall|x: Collection|
            collection_models(#[trigger] self.collections@.update(i as int, x))
                == before.with_at(i as int, x@).collections by {
            assert(collection_models(self.collections@.update(i as int, x)) =~= before.with_at(
                i as int,
                x@,
            ).collections);
        }
        &mut self.collections[i]
    }

    /// Replace the collection at a place by a later state of itself.
    fn update_at(&mut self, i: usize, c: Collection)
        requires
            old(self)@.wf(),
            i < old(self)@.collections.len(),
            c@.wf(),
            c@.catalog.name == old(self)@.collections[i as int].catalog.name,
        ensures
            final(self)@ == old(self)@.with_at(i as int, c@),
            final(self)@.wf(),
    {
        let ghost m = c@;
        let ghost before = self@;
        self.collections.set(i, c);
        assert(self@.collections =~= before.collections.update(i as int, m));
        proof {
            lemma_update_keeps_names(before, i as int, m);
        }
    }

    /// Where a collection stands, if it is open.
    pub fn find(&self, name: &str) -> (r: Option<usize>)
        ensures
            match place(self@.collections, name@) {
                Some(i) => r matches Some(n) && n == i && n < self@.collections.len(),
                None => r is None,
            },
    {
        let ghost all = self@.collections;
        let mut n: usize = self.collections.len();
        assert(all.take(n as int) =~= all);
        while n > 0
            invariant
                n <= self.collections@.len(),
                all == collection_models(self.collections@),
                place(all, name@) == place(all.take(n as int), name@),
            decreases n,
        {
            proof {
                let front = all.take(n as int);
                assert(front.last() == self.collections@[n - 1]@);
                assert(front.drop_last() =~= all.take(n - 1));
            }
            if bytes::same_str(self.collections[n - 1].name(), name) {
                return Some(n - 1);
            }
            n -= 1;
        }
        None
    }

    /// Take in an opened collection, in place of one of the same name.
    pub fn register(&mut self, c: Collection)
        requires
            old(self)@.wf(),
            c@.wf(),
        ensures
            final(self)@.wf(),
            final(self)@ == (DbModel {
                collections: match place(old(self)@.collections, c@.catalog.name) {
                    Some(i) => old(self)@.collections.update(i, c@),
                    None => old(self)@.collections.push(c@),
                },
                ..old(self)@
            }),
    {
        let ghost m = c@;
        let ghost before = self@;
        proof {
            lemma_place(before.collections, m.catalog.name);
        }
        match self.find(c.name()) {
            Some(i) => {
                self.update_at(i, c);
            },
            None => {
                self.collections.push(c);
                assert(self.collections.len() == self.collections@.len());
                assert(self@.collections =~= before.collections.push(m));
                proof {
                    let now = self@.collections;
                    assert forall|x: int, y: int| 0 <= x < y < now.len() implies (
                    #[trigger] now[x]).catalog.name != (#[trigger] now[y]).catalog.name by {
                        if y < before.collections.len() {
                            assert(before.collections[x].catalog.name
                                != before.collections[y].catalog.name);
                        } else {
                            assert(!named(before.collections[x], m.catalog.name));
                        }
                    }
                    assert forall|x: int| 0 <= x < now.len() implies (#[trigger] now[x]).wf() by {
                        if x < before.collections.len() {
                            assert(before.collections[x].wf());
                        }
                    }
                }
            },
        }
    }

    /// Prepare the commit that rewrites one collection's manifest entry.
    ///
    /// # Errors
    /// Any format error.
    pub fn commit_collection(&self, entry: CollectionEntry, now_ms: u64) -> (r: Result<
        PendingCommit,
        DbError,
    >)
        ensures
            self@.commits(r, with_entry(self@.manifest.collections, entry@), now_ms),
    {
        let mut next = self.manifest.current().clone();
        let ghost e = entry@;
        let ghost m = next@;
        let entries = manifest::copy_entries(&next.collections);
        next.collections = place_entry(entries, entry);
        assert(next@ == (ManifestModel { collections: with_entry(m.collections, e), ..m }));
        self.manifest.commit(next, now_ms)
    }

    /// Move on once a commit has been written.
    pub fn committed(&mut self, commit: PendingCommit)
        ensures
            final(self)@ == (DbModel {
                slot: commit.slot,
                manifest: commit.manifest@,
                ..old(self)@
            }),
    {
        self.manifest.adopt(commit);
    }

    /// Prepare the creation of a collection.
    ///
    /// # Errors
    /// [`ConflictError::CollectionExists`], [`crate::error::ValidationError`] for a bad
    /// specification, or a write that is refused altogether.
    pub fn create_collection(&self, spec: CollectionSpec, now_ms: u64) -> (r: Result<
        NewCollection,
        DbError,
    >)
        ensures
            is_creation(self@, r, spec@, now_ms),
    {
        match self.access().check_writable("create a collection") {
            Ok(()) => {},
            Err(e) => {
                return Err(e);
            },
        }
        match spec.validate() {
            Ok(()) => {},
            Err(e) => {
                return Err(e);
            },
        }
        if self.find(spec.name.as_str()).is_some() {
            return Err(DbError::Conflict(ConflictError::CollectionExists { name: spec.name }));
        }
        let catalog = spec.catalog(now_ms);
        proof {
            layout_laws::lemma_accepted_spec_is_written(spec@, now_ms);
        }
        let file = match write_catalog(&catalog) {
            Ok(f) => f,
            Err(e) => {
                return Err(e);
            },
        };
        let wal_dir = match layout::wal_dir(spec.name.as_str()) {
            Ok(d) => d,
            Err(e) => {
                return Err(e);
            },
        };
        let entry = CollectionEntry {
            name: spec.name.clone(),
            segments: Vec::new(),
            index_snapshot: None,
            last_applied_wal: 0,
            live_count: 0,
            total_rows: 0,
        };
        assert(entry@.segments =~= empty_entry(spec@.name).segments);
        assert(entry@ == empty_entry(spec@.name));
        match self.commit_collection(entry.clone(), now_ms) {
            Ok(commit) => Ok(NewCollection { catalog, file, wal_dir, entry, commit }),
            Err(e) => Err(e),
        }
    }

    /// Open an existing collection.
    ///
    /// # Errors
    /// [`NotFoundError::Collection`] if there is no such collection.
    pub fn open_collection(&self, name: &str) -> (r: Result<&Collection, DbError>)
        ensures
            if self@.closed {
                error::failed(r, access::closed())
            } else {
                match place(self@.collections, name@) {
                    Some(i) => r matches Ok(c) && c@ == self@.collections[i],
                    None => error::failed(r, no_collection(name@)),
                }
            },
    {
        match self.access().check_open() {
            Ok(()) => {},
            Err(e) => {
                return Err(e);
            },
        }
        match self.find(name) {
            Some(i) => Ok(&self.collections[i]),
            None => Err(
                DbError::NotFound(NotFoundError::Collection { name: name.to_owned() }),
            ),
        }
    }

    /// Open a collection, or prepare its creation if it does not exist.
    ///
    /// If it does exist, its specification must match: silently returning a collection with a
    /// different dimension or metric than the caller asked for would produce results that look
    /// plausible and are wrong.
    ///
    /// # Errors
    /// [`ConflictError::CollectionExists`] if an existing collection's shape differs from the
    /// specification, or as [`Database::create_collection`].
    pub fn get_or_create_collection(&self, spec: CollectionSpec, now_ms: u64) -> (r: Result<
        Requested,
        DbError,
    >)
        ensures
            if self@.closed {
                error::failed(r, access::closed())
            } else {
                match place(self@.collections, spec@.name) {
                    Some(i) => if spec@.matches(self@.collections[i].catalog) {
                        r matches Ok(Requested::Existing(n)) && n == i
                    } else {
                        error::failed(r, taken(spec@.name))
                    },
                    None => match r {
                        Ok(Requested::New(n)) => is_creation(self@, Ok(n), spec@, now_ms),
                        Ok(Requested::Existing(_)) => false,
                        Err(e) => is_creation(self@, Err(e), spec@, now_ms),
                    },
                }
            },
    {
        match self.access().check_open() {
            Ok(()) => {},
            Err(e) => {
                return Err(e);
            },
        }
        match self.find(spec.name.as_str()) {
            Some(i) => {
                assert(self.collections@[i as int]@ == self@.collections[i as int]);
                if !spec.matches(self.collections[i].catalog()) {
                    return Err(
                        DbError::Conflict(ConflictError::CollectionExists { name: spec.name }),
                    );
                }
                Ok(Requested::Existing(i))
            },
            None => match self.create_collection(spec, now_ms) {
                Ok(n) => Ok(Requested::New(n)),
                Err(e) => Err(e),
            },
        }
    }

    /// Whether a collection exists.
    ///
    /// # Errors
    /// [`LifecycleError::DatabaseClosed`].
    pub fn collection_exists(&self, name: &str) -> (r: Result<bool, DbError>)
        ensures
            if self@.closed {
                error::failed(r, access::closed())
            } else {
                r matches Ok(b) && b == self@.exists_named(name@)
            },
    {
        match self.access().check_open() {
            Ok(()) => Ok(self.find(name).is_some()),
            Err(e) => Err(e),
        }
    }

    /// Prepare the drop of a collection and everything in it. Irreversible.
    ///
    /// # Errors
    /// [`NotFoundError::Collection`], or a write that is refused altogether.
    pub fn drop_collection(&self, name: &str, now_ms: u64) -> (r: Result<
        DroppedCollection,
        DbError,
    >)
        ensures
            match self@.access().refused("drop a collection") {
                Some(e) => error::failed(r, e),
                None => if !self@.exists_named(name@) {
                    error::failed(r, no_collection(name@))
                } else {
                    let es = without_entry(self@.manifest.collections, name@);
                    match r {
                        Ok(d) => {
                            &&& self@.commits(Ok(d.commit), es, now_ms)
                            &&& layout::path_of(layout::collection_text(name@)) == Ok::<
                                Seq<char>,
                                ErrorModel,
                            >(d.dir@)
                        },
                        Err(e) => self@.commits(Err(e), es, now_ms) || layout::path_of(
                            layout::collection_text(name@),
                        ) == Err::<Seq<char>, ErrorModel>(e@),
                    }
                },
            },
    {
        match self.access().check_writable("drop a collection") {
            Ok(()) => {},
            Err(e) => {
                return Err(e);
            },
        }
        if self.find(name).is_none() {
            return Err(
                DbError::NotFound(NotFoundError::Collection { name: name.to_owned() }),
            );
        }
        let mut next = self.manifest.current().clone();
        let ghost m = next@;
        next.collections = drop_entry(&next.collections, name);
        assert(next@ == (ManifestModel {
            collections: without_entry(m.collections, name@),
            ..m
        }));
        let commit = match self.manifest.commit(next, now_ms) {
            Ok(c) => c,
            Err(e) => {
                return Err(e);
            },
        };
        match layout::collection_dir(name) {
            Ok(dir) => Ok(DroppedCollection { commit, dir }),
            Err(e) => Err(e),
        }
    }

    /// Forget a collection once the manifest no longer names it.
    pub fn forget(&mut self, name: &str)
        requires
            old(self)@.wf(),
        ensures
            final(self)@ == (DbModel {
                collections: without_collection(old(self)@.collections, name@),
                ..old(self)@
            }),
            final(self)@.wf(),
            !final(self)@.exists_named(name@),
    {
        let ghost before = self@;
        proof {
            lemma_without(before, name@);
            lemma_place(before.collections, name@);
        }
        match self.find(name) {
            Some(i) => {
                let ghost was = self.collections@;
                let _ = self.collections.remove(i);
                assert(self@.collections =~= before.collections.remove(i as int));
            },
            None => {},
        }
        proof {
            lemma_place(self@.collections, name@);
            let now = self@.collections;
            assert forall|x: int| 0 <= x < now.len() implies (#[trigger] now[x]).wf() by {
                match place(before.collections, name@) {
                    Some(i) => {
                        assert(now[x] == before.collections[if x < i {
                            x
                        } else {
                            x + 1
                        }]);
                    },
                    None => {
                        assert(before.collections[x].wf());
                    },
                }
            }
        }
    }

    /// Describe every collection, sorted by name, so that listing is deterministic.
    ///
    /// # Errors
    /// [`LifecycleError::DatabaseClosed`].
    pub fn list_collections(&self) -> (r: Result<Vec<CollectionInfo>, DbError>)
        requires
            self@.wf(),
        ensures
            if self@.closed {
                error::failed(r, access::closed())
            } else {
                &&& r matches Ok(v)
                &&& forall|i: int, j: int|
                    0 <= i < j < v@.len() ==> document::id_lt(
                        IdModel::Str((#[trigger] v@[i])@.name),
                        IdModel::Str((#[trigger] v@[j])@.name),
                    )
                &&& v@.len() == self@.collections.len()
                &&& forall|i: int|
                    0 <= i < v@.len() ==> {
                        let p = place(self@.collections, (#[trigger] v@[i])@.name);
                        p is Some && v@[i]@ == info_of(self@.collections[p->0].catalog)
                    }
            },
    {
        match self.access().check_open() {
            Ok(()) => {},
            Err(e) => {
                return Err(e);
            },
        }
        let sorted = self.sorted();
        let mut out: Vec<CollectionInfo> = Vec::new();
        let n: usize = sorted.len();
        let mut i: usize = 0;
        while i < n
            invariant
                i <= n,
                n == sorted@.len(),
                self@.wf(),
                self@.collections == collection_models(self.collections@),
                out@.len() == i,
                sorted_places(sorted@, self@.collections),
                forall|k: int|
                    0 <= k < i ==> (#[trigger] out@[k])@ == info_of(
                        self@.collections[sorted@[k].1 as int].catalog,
                    ),
            decreases n - i,
        {
            let at: usize = sorted.value_at(i);
            assert(places_one(sorted@[i as int], self@.collections));
            assert(self@.collections[at as int] == self.collections@[at as int]@);
            let c = self.collections[at].catalog();
            out.push(
                CollectionInfo {
                    name: c.name.clone(),
                    dimension: c.dimension,
                    metric: c.metric,
                },
            );
            i += 1;
        }
        proof {
            assert forall|x: int, y: int| 0 <= x < y < out@.len() implies document::id_lt(
                IdModel::Str((#[trigger] out@[x])@.name),
                IdModel::Str((#[trigger] out@[y])@.name),
            ) by {
                assert(places_one(sorted@[x], self@.collections));
                assert(places_one(sorted@[y], self@.collections));
            }
            assert forall|x: int| 0 <= x < out@.len() implies {
                let p = place(self@.collections, (#[trigger] out@[x])@.name);
                p is Some && out@[x]@ == info_of(self@.collections[p->0].catalog)
            } by {
                assert(places_one(sorted@[x], self@.collections));
                lemma_place_is_unique(self@, sorted@[x].1 as int);
            }
        }
        Ok(out)
    }

    /// The place of each collection, by ascending name.
    fn sorted(&self) -> (r: IdMap<usize>)
        requires
            self@.wf(),
        ensures
            idmap::ids_ascend(r@),
            sorted_places(r@, self@.collections),
            r@.len() == self@.collections.len(),
    {
        let mut out: IdMap<usize> = IdMap::new();
        let ghost all = self@.collections;
        let mut i: usize = 0;
        while i < self.collections.len()
            invariant
                i <= self.collections@.len(),
                self@.wf(),
                all == self@.collections,
                all == collection_models(self.collections@),
                idmap::ids_ascend(out@),
                out@.len() == i,
                sorted_places(out@, all.take(i as int)),
            decreases self.collections.len() - i,
        {
            let ghost before = out@;
            let name = DocId::Str(self.collections[i].catalog().name.clone());
            let ghost x = name@;
            proof {
                assert(all[i as int] == self.collections@[i as int]@);
                idmap::lemma_placed(before, x, i);
                idmap::lemma_lookup_found(before, x);
                if idmap::lookup(before, x) is Some {
                    let v = idmap::lookup(before, x)->0;
                    let k = choose|k: int| 0 <= k < before.len() && #[trigger] before[k] == (x, v);
                    assert(places_one(before[k], all.take(i as int)));
                    assert(all[v as int].catalog.name != all[i as int].catalog.name);
                }
            }
            let _ = out.insert(name, i);
            let _ = out.len();
            proof {
                let now = out@;
                assert forall|k: int| 0 <= k < now.len() implies places_one(
                    #[trigger] now[k],
                    all.take(i + 1),
                ) by {
                    idmap::lemma_lookup_at(now, k);
                    if now[k].0 != x {
                        let j = choose|j: int| 0 <= j < before.len() && before[j] == now[k];
                        assert(places_one(before[j], all.take(i as int)));
                    }
                }
            }
            i += 1;
        }
        assert(all.take(i as int) =~= all);
        out
    }

    /// Check the database's integrity: put together what checking each collection gave, in the
    /// manifest's order, and what the collections directory lists.
    ///
    /// # Errors
    /// [`LifecycleError::DatabaseClosed`]. Damage found by verification appears in the report.
    pub fn verify(
        &self,
        level: VerifyLevel,
        checks: Vec<CollectionCheck>,
        listed: &Vec<String>,
    ) -> (r: Result<VerifyReport, DbError>)
        requires
            checks@.len() == self@.manifest.collections.len(),
        ensures
            if self@.closed {
                error::failed(r, access::closed())
            } else {
                &&& r matches Ok(report)
                &&& report.level == level
                &&& report@ == verify::reported(
                    self@.manifest.collections,
                    verify::check_models(checks@),
                    error::texts(listed@),
                )
            },
    {
        match self.access().check_open() {
            Ok(()) => {},
            Err(e) => {
                return Err(e);
            },
        }
        let entries = &self.manifest.current().collections;
        assert(entries@.len() == manifest::entry_models(entries@).len());
        Ok(verify::report(level, entries, checks, listed))
    }

    /// Database-wide counters, `durable_sync` being whether a sync of the storage is a real
    /// durability point.
    ///
    /// # Errors
    /// [`LifecycleError::DatabaseClosed`].
    pub fn stats(&self, durable_sync: bool) -> (r: Result<DatabaseStats, DbError>)
        ensures
            if self@.closed {
                error::failed(r, access::closed())
            } else {
                r matches Ok(s) && s == (DatabaseStats {
                    format_version: FORMAT_VERSION,
                    manifest_sequence: self@.manifest.sequence,
                    collections: self@.collections.len() as usize,
                    live_documents: collection::capped(live_in(self@.collections) as int),
                    total_rows: collection::capped(rows_in(self@.collections) as int),
                    read_only: self@.config.read_only,
                    durable_sync,
                })
            },
    {
        let access = self.access();
        match access.check_open() {
            Ok(()) => {},
            Err(e) => {
                return Err(e);
            },
        }
        let ghost all = self@.collections;
        let mut live: u128 = 0;
        let mut total: u128 = 0;
        let mut i: usize = 0;
        assert(all.take(0) =~= Seq::<CollModel>::empty());
        while i < self.collections.len()
            invariant
                i <= self.collections@.len(),
                all == collection_models(self.collections@),
                access == self@.access(),
                !access.closed,
                live == live_in(all.take(i as int)),
                total == rows_in(all.take(i as int)),
                live <= u64::MAX * i,
                total <= u64::MAX * i,
            decreases self.collections.len() - i,
        {
            proof {
                assert(all.take(i + 1).drop_last() =~= all.take(i as int));
                assert(all.take(i + 1).last() == self.collections@[i as int]@);
            }
            match self.collections[i].stats(access) {
                Ok(s) => {
                    assert(live + s.live_documents <= u64::MAX * (i + 1)) by (nonlinear_arith)
                        requires
                            live <= u64::MAX * i,
                            s.live_documents <= u64::MAX,
                    ;
                    assert(total + s.total_rows <= u64::MAX * (i + 1)) by (nonlinear_arith)
                        requires
                            total <= u64::MAX * i,
                            s.total_rows <= u64::MAX,
                    ;
                    live = live + s.live_documents as u128;
                    total = total + s.total_rows as u128;
                },
                Err(e) => {
                    return Err(e);
                },
            }
            i += 1;
        }
        assert(all.take(i as int) =~= all);
        assert(self.collections.len() == self.collections@.len());
        Ok(
            DatabaseStats {
                format_version: FORMAT_VERSION,
                manifest_sequence: self.manifest.current().sequence,
                collections: self.collections.len(),
                live_documents: collection::fitted(live),
                total_rows: collection::fitted(total),
                read_only: self.config.read_only,
                durable_sync,
            },
        )
    }
}

/// Whether an entry says where the collection of its name stands.
pub open spec fn places_one(e: (IdModel, usize), cs: Seq<CollModel>) -> bool {
    e.1 < cs.len() && e.0 == IdModel::Str(cs[e.1 as int].catalog.name)
}

/// Whether every entry says where the collection of its name stands.
pub open spec fn sorted_places(s: Seq<(IdModel, usize)>, cs: Seq<CollModel>) -> bool {
    forall|k: int| 0 <= k < s.len() ==> places_one(#[trigger] s[k], cs)
}

/// Leaving a collection out is removing it from its place.
proof fn lemma_without(d: DbModel, name: Seq<char>)
    requires
        d.wf(),
    ensures
        match place(d.collections, name) {
            Some(i) => without_collection(d.collections, name) == d.collections.remove(i),
            None => without_collection(d.collections, name) == d.collections,
        },
        forall|i: int, j: int|
            #![trigger without_collection(d.collections, name)[i], without_collection(d.collections, name)[j]]
            0 <= i < j < without_collection(d.collections, name).len() ==> without_collection(
                d.collections,
                name,
            )[i].catalog.name != without_collection(d.collections, name)[j].catalog.name,
        forall|k: int|
            0 <= k < without_collection(d.collections, name).len() ==> !named(
                #[trigger] without_collection(d.collections, name)[k],
                name,
            ),
    decreases d.collections.len(),
{
    let cs = d.collections;
    if cs.len() > 0 {
        let front = cs.drop_last();
        let f = DbModel { collections: front, ..d };
        assert forall|i: int, j: int| 0 <= i < j < front.len() implies (
        #[trigger] front[i]).catalog.name != (#[trigger] front[j]).catalog.name by {
            assert(cs[i].catalog.name != cs[j].catalog.name);
        }
        lemma_without(f, name);
        lemma_place(front, name);
        let out = without_collection(cs, name);
        if named(cs.last(), name) {
            match place(front, name) {
                Some(i) => {
                    assert(cs[i].catalog.name != cs[cs.len() - 1].catalog.name);
                },
                None => {},
            }
            assert(cs.remove(cs.len() - 1) =~= front);
        } else {
            match place(front, name) {
                Some(i) => {
                    assert(cs.remove(i) =~= front.remove(i).push(cs.last()));
                },
                None => {
                    assert(front.push(cs.last()) =~= cs);
                },
            }
            let few = without_collection(front, name);
            assert(out == few.push(cs.last()));
            assert forall|i: int, j: int|
                #![trigger out[i], out[j]]
                0 <= i < j < out.len() implies out[i].catalog.name != out[j].catalog.name by {
                if j < few.len() {
                    assert(few[i].catalog.name != few[j].catalog.name);
                } else {
                    assert(few[i] == out[i]);
                    let k: int = match place(front, name) {
                        Some(p) => if i < p {
                            i
                        } else {
                            i + 1
                        },
                        None => i,
                    };
                    assert(few[i] == front[k]);
                    assert(cs[k].catalog.name != cs[cs.len() - 1].catalog.name);
                }
            }
            assert forall|k: int| 0 <= k < out.len() implies !named(#[trigger] out[k], name) by {
                if k < few.len() {
                    assert(few[k] == out[k]);
                }
            }
        }
    }
}

/// A collection that was created is found, and every other as before; one that was dropped is
/// not.
pub proof fn lemma_entry_is_found_again(es: Seq<EntryModel>, e: EntryModel, name: Seq<char>)
    ensures
        verify::names(with_entry(es, e), name) == (verify::names(es, name) || name == e.name),
        verify::names(without_entry(es, e.name), name) == (verify::names(es, name) && name
            != e.name),
{
    lemma_with_entry(es, e, name);
    lemma_without_entry(es, e.name, name);
}

proof fn lemma_with_entry(es: Seq<EntryModel>, e: EntryModel, name: Seq<char>)
    ensures
        verify::names(with_entry(es, e), name) == (verify::names(es, name) || name == e.name),
    decreases es.len(),
{
    let out = with_entry(es, e);
    if es.len() == 0 {
        assert(out[0] == e);
    } else {
        let rest = es.skip(1);
        lemma_with_entry(rest, e, name);
        let tail = if es[0].name == e.name {
            rest
        } else {
            with_entry(rest, e)
        };
        let head = if es[0].name == e.name {
            e
        } else {
            es[0]
        };
        assert(out == seq![head] + tail);
        assert(out[0] == head);
        if verify::names(out, name) {
            let i = choose|i: int| 0 <= i < out.len() && (#[trigger] out[i]).name == name;
            if i > 0 {
                assert(tail[i - 1] == out[i]);
                assert(verify::names(tail, name));
            }
            if i == 0 && es[0].name != e.name {
                assert(es[0].name == name);
            }
        }
        if verify::names(tail, name) {
            let i = choose|i: int| 0 <= i < tail.len() && (#[trigger] tail[i]).name == name;
            assert(out[i + 1] == tail[i]);
        }
        if verify::names(rest, name) {
            let i = choose|i: int| 0 <= i < rest.len() && (#[trigger] rest[i]).name == name;
            assert(es[i + 1] == rest[i]);
        }
        if verify::names(es, name) {
            let i = choose|i: int| 0 <= i < es.len() && (#[trigger] es[i]).name == name;
            if i > 0 {
                assert(rest[i - 1] == es[i]);
            }
        }
    }
}

proof fn lemma_without_entry(es: Seq<EntryModel>, gone: Seq<char>, name: Seq<char>)
    ensures
        verify::names(without_entry(es, gone), name) == (verify::names(es, name) && name != gone),
    decreases es.len(),
{
    if es.len() > 0 {
        let front = es.drop_last();
        let few = without_entry(front, gone);
        let out = without_entry(es, gone);
        lemma_without_entry(front, gone, name);
        if verify::names(out, name) {
            let i = choose|i: int| 0 <= i < out.len() && (#[trigger] out[i]).name == name;
            if i < few.len() {
                assert(few[i] == out[i]);
            } else {
                assert(es[es.len() - 1].name == name);
            }
        }
        if verify::names(few, name) {
            let i = choose|i: int| 0 <= i < few.len() && (#[trigger] few[i]).name == name;
            assert(out[i] == few[i]);
        }
        if verify::names(front, name) {
            let i = choose|i: int| 0 <= i < front.len() && (#[trigger] front[i]).name == name;
            assert(es[i] == front[i]);
        }
        if verify::names(es, name) {
            let i = choose|i: int| 0 <= i < es.len() && (#[trigger] es[i]).name == name;
            if i < front.len() {
                assert(front[i] == es[i]);
            } else if name != gone {
                assert(out[out.len() - 1] == es.last());
            }
        }
    }
}

} // verus!
