//! What holds of every database: what its commits change, and what they leave.
use vstd::prelude::*;
use vstd::utf8::*;

use crate::api::collection;
use crate::api::collection::CollModel;
use crate::api::config::{DatabaseConfig, SpecModel};
use crate::api::database;
use crate::api::database::{DbModel, NewCollection, OpenPlan};
use crate::api::verify;
use crate::api::verify::CheckModel;
use crate::error::DbError;
use crate::format::accept_laws;
use crate::format::catalog::CatalogModel;
use crate::format::manifest;
use crate::format::manifest::{EntryModel, ManifestModel, Slot};
use crate::persistence::manifest as store;
use crate::persistence::manifest::PendingCommit;
use crate::validation;

verus! {

proof fn lemma_with_entry_places(es: Seq<EntryModel>, e: EntryModel)
    ensures
        ({
            let out = database::with_entry(es, e);
            &&& es.len() <= out.len() <= es.len() + 1
            &&& forall|i: int|
                0 <= i < es.len() && (#[trigger] es[i]).name != e.name ==> out[i] == es[i]
            &&& forall|i: int|
                0 <= i < es.len() && (#[trigger] out[i]) != es[i] ==> out[i] == e && es[i].name
                    == e.name
            &&& out.len() > es.len() ==> out[es.len() as int] == e && forall|i: int|
                0 <= i < es.len() ==> (#[trigger] es[i]).name != e.name
            &&& exists|i: int|
                0 <= i < out.len() && #[trigger] out[i] == e && forall|j: int|
                    0 <= j < i ==> (#[trigger] out[j]).name != e.name
        }),
    decreases es.len(),
{
    let out = database::with_entry(es, e);
    if es.len() == 0 {
        assert(out[0] == e);
    } else {
        let rest = es.skip(1);
        if es[0].name == e.name {
            assert(out[0] == e);
            assert forall|i: int| 0 < i < es.len() implies out[i] == #[trigger] es[i] by {
                assert(out[i] == rest[i - 1]);
            }
        } else {
            lemma_with_entry_places(rest, e);
            let tail = database::with_entry(rest, e);
            assert(out[0] == es[0]);
            assert forall|i: int| 0 < i < out.len() implies #[trigger] out[i] == tail[i - 1] by {}
            assert forall|i: int| 0 < i < es.len() implies #[trigger] es[i] == rest[i - 1] by {}
            let k = choose|k: int|
                0 <= k < tail.len() && #[trigger] tail[k] == e && forall|j: int|
                    0 <= j < k ==> (#[trigger] tail[j]).name != e.name;
            assert(out[k + 1] == e);
            assert forall|j: int| 0 <= j < k + 1 implies (#[trigger] out[j]).name != e.name by {
                if j > 0 {
                    assert(out[j] == tail[j - 1]);
                }
            }
        }
    }
}

/// Committing the entry of one collection leaves the entry of every other exactly as it was, at its
/// place, and the first entry under its own name is the one committed. The commit goes to the slot
/// that is not in use, under the next sequence, for the same database.
pub proof fn lemma_commit_rewrites_one_entry(
    d: DbModel,
    p: PendingCommit,
    e: EntryModel,
    now_ms: u64,
)
    requires
        d.commits(
            Ok::<PendingCommit, DbError>(p),
            database::with_entry(d.manifest.collections, e),
            now_ms,
        ),
    ensures
        ({
            let old = d.manifest.collections;
            let new = p.manifest@.collections;
            &&& old.len() <= new.len() <= old.len() + 1
            &&& forall|i: int|
                0 <= i < old.len() && (#[trigger] old[i]).name != e.name ==> new[i] == old[i]
            &&& forall|i: int|
                0 <= i < old.len() && (#[trigger] new[i]) != old[i] ==> new[i] == e && old[i].name
                    == e.name
            &&& new.len() > old.len() ==> new[old.len() as int] == e && forall|i: int|
                0 <= i < old.len() ==> (#[trigger] old[i]).name != e.name
            &&& exists|i: int|
                0 <= i < new.len() && #[trigger] new[i] == e && forall|j: int|
                    0 <= j < i ==> (#[trigger] new[j]).name != e.name
        }),
        p.slot != d.slot,
        d.manifest.sequence < u64::MAX ==> p.manifest@.sequence == d.manifest.sequence + 1,
        p.manifest@.db_uuid == d.manifest.db_uuid,
        p.manifest@.created_at_ms == d.manifest.created_at_ms,
        p.manifest@.updated_at_ms == now_ms,
{
    lemma_with_entry_places(d.manifest.collections, e);
}

/// Committing the entry of a collection succeeds where the entry is sound and the manifest was: it
/// has a name, segments in the order of their ids, as many rows as they have together and no more
/// live documents than rows.
pub proof fn lemma_commit_is_owed(
    d: DbModel,
    r: Result<PendingCommit, DbError>,
    e: EntryModel,
    now_ms: u64,
)
    requires
        d.commits(r, database::with_entry(d.manifest.collections, e), now_ms),
        manifest::checked(d.manifest) is Ok,
        e.name.len() > 0,
        forall|a: int, b: int|
            0 <= a < b < e.segments.len() ==> (#[trigger] e.segments[a]).id < (
            #[trigger] e.segments[b]).id,
        e.total_rows == accept_laws::rows_together(e.segments),
        e.live_count <= e.total_rows,
    ensures
        r is Ok,
{
    let old = d.manifest.collections;
    let new = database::with_entry(old, e);
    let m = store::stamped(d.manifest, ManifestModel { collections: new, ..d.manifest }, now_ms);
    lemma_with_entry_places(old, e);
    accept_laws::lemma_accepted_manifests(d.manifest);
    accept_laws::lemma_accepted_manifests(m);
    assert(m.collections == new);
    assert forall|i: int, j: int|
        0 <= i < new.len() && 0 <= j < new.len() && i != j implies (#[trigger] new[i]).name != (
    #[trigger] new[j]).name by {
        if i < old.len() && j < old.len() {
            assert(old[i].name != old[j].name);
            assert(new[i].name == old[i].name);
            assert(new[j].name == old[j].name);
        } else if i < old.len() {
            assert(new[i].name == old[i].name);
        } else {
            assert(new[j].name == old[j].name);
        }
    }
    assert forall|i: int| #![trigger new[i]] 0 <= i < new.len() implies {
        let c = new[i];
        &&& c.name.len() > 0
        &&& forall|a: int, b: int|
            0 <= a < b < c.segments.len() ==> (#[trigger] c.segments[a]).id < (
            #[trigger] c.segments[b]).id
        &&& c.total_rows == accept_laws::rows_together(c.segments)
        &&& c.live_count <= c.total_rows
    } by {
        if i < old.len() && new[i] == old[i] {
            let c = old[i];
            assert(c.name.len() > 0);
        }
    }
}

/// Committing the drop of a collection succeeds where the manifest was sound.
pub proof fn lemma_drop_is_owed(
    d: DbModel,
    r: Result<PendingCommit, DbError>,
    name: Seq<char>,
    now_ms: u64,
)
    requires
        d.commits(r, database::without_entry(d.manifest.collections, name), now_ms),
        manifest::checked(d.manifest) is Ok,
    ensures
        r is Ok,
{
    let old = d.manifest.collections;
    let new = database::without_entry(old, name);
    let m = store::stamped(d.manifest, ManifestModel { collections: new, ..d.manifest }, now_ms);
    lemma_without_entry_keeps(old, name);
    accept_laws::lemma_accepted_manifests(d.manifest);
    accept_laws::lemma_accepted_manifests(m);
    assert(m.collections == new);
    assert forall|i: int| #![trigger new[i]] 0 <= i < new.len() implies {
        let c = new[i];
        &&& c.name.len() > 0
        &&& forall|a: int, b: int|
            0 <= a < b < c.segments.len() ==> (#[trigger] c.segments[a]).id < (
            #[trigger] c.segments[b]).id
        &&& c.total_rows == accept_laws::rows_together(c.segments)
        &&& c.live_count <= c.total_rows
    } by {
        assert(old.contains(new[i]));
        let k = choose|k: int| 0 <= k < old.len() && old[k] == new[i];
        assert(old[k].name.len() > 0);
    }
}

proof fn lemma_without_entry_keeps(es: Seq<EntryModel>, name: Seq<char>)
    ensures
        forall|i: int|
            0 <= i < database::without_entry(es, name).len() ==> es.contains(
                #[trigger] database::without_entry(es, name)[i],
            ),
        !manifest::names_repeat(es) ==> !manifest::names_repeat(database::without_entry(es, name)),
    decreases es.len(),
{
    if es.len() > 0 {
        let front = es.drop_last();
        let kept = database::without_entry(front, name);
        let out = database::without_entry(es, name);
        lemma_without_entry_keeps(front, name);
        assert forall|i: int| 0 <= i < out.len() implies es.contains(#[trigger] out[i]) by {
            if i < kept.len() {
                assert(front.contains(kept[i]));
                let k = choose|k: int| 0 <= k < front.len() && front[k] == kept[i];
                assert(es[k] == out[i]);
            } else {
                assert(es[es.len() - 1] == out[i]);
            }
        }
        if !manifest::names_repeat(es) {
            assert(!manifest::names_repeat(front)) by {
                if manifest::names_repeat(front) {
                    let (i, j) = choose|i: int, j: int|
                        0 <= i < j < front.len() && (#[trigger] front[i]).name == (
                        #[trigger] front[j]).name;
                    assert(es[i].name == es[j].name);
                }
            }
            if manifest::names_repeat(out) {
                let (i, j) = choose|i: int, j: int|
                    0 <= i < j < out.len() && (#[trigger] out[i]).name == (#[trigger] out[j]).name;
                if j < kept.len() {
                    assert(kept[i].name == kept[j].name);
                } else {
                    assert(front.contains(kept[i]));
                    let k = choose|k: int| 0 <= k < front.len() && front[k] == kept[i];
                    assert(es[k].name == es[es.len() - 1].name);
                }
            }
        }
    }
}

proof fn lemma_without_entry_is_filter(es: Seq<EntryModel>, name: Seq<char>)
    ensures
        database::without_entry(es, name) == es.filter(|e: EntryModel| e.name != name),
    decreases es.len(),
{
    reveal(Seq::filter);
    if es.len() > 0 {
        lemma_without_entry_is_filter(es.drop_last(), name);
    }
}

/// Committing the drop of a collection takes the entries under its name out and leaves the others as
/// they were, in order.
pub proof fn lemma_drop_removes_one_name(d: DbModel, p: PendingCommit, name: Seq<char>, now_ms: u64)
    requires
        d.commits(
            Ok::<PendingCommit, DbError>(p),
            database::without_entry(d.manifest.collections, name),
            now_ms,
        ),
    ensures
        p.manifest@.collections == d.manifest.collections.filter(
            |e: EntryModel| e.name != name,
        ),
        p.slot != d.slot,
        d.manifest.sequence < u64::MAX ==> p.manifest@.sequence == d.manifest.sequence + 1,
        p.manifest@.db_uuid == d.manifest.db_uuid,
        p.manifest@.created_at_ms == d.manifest.created_at_ms,
{
    lemma_without_entry_is_filter(d.manifest.collections, name);
}

/// Forgetting a collection leaves the others as they were, in order.
pub proof fn lemma_forget_keeps_the_rest(cs: Seq<CollModel>, name: Seq<char>)
    ensures
        database::without_collection(cs, name) == cs.filter(
            |c: CollModel| c.catalog.name != name,
        ),
    decreases cs.len(),
{
    reveal(Seq::filter);
    if cs.len() > 0 {
        lemma_forget_keeps_the_rest(cs.drop_last(), name);
    }
}

/// A collection is found exactly under the name that its specification has.
pub proof fn lemma_collections_are_found_by_name(d: DbModel, name: Seq<char>)
    ensures
        d.exists_named(name) == (exists|i: int|
            0 <= i < d.collections.len() && (#[trigger] d.collections[i]).catalog.name == name),
        database::place(d.collections, name) matches Some(i) ==> 0 <= i < d.collections.len()
            && d.collections[i].catalog.name == name,
{
    database::lemma_place(d.collections, name);
    if let Some(i) = database::place(d.collections, name) {
        assert(d.collections[i].catalog.name == name);
    } else if exists|i: int|
        0 <= i < d.collections.len() && (#[trigger] d.collections[i]).catalog.name == name {
        let i = choose|i: int|
            0 <= i < d.collections.len() && (#[trigger] d.collections[i]).catalog.name == name;
        assert(!database::named(d.collections[i], name));
    }
}

/// A collection is created only on a handle that may write, under a name that is not taken and may
/// be used, with a dimension in range; and it has the name, the shape and the time that were given,
/// and nothing in it.
pub proof fn lemma_creation_is_as_asked(
    d: DbModel,
    r: Result<NewCollection, DbError>,
    spec: SpecModel,
    now_ms: u64,
)
    requires
        database::is_creation(d, r, spec, now_ms),
        r is Ok,
    ensures
        !d.closed,
        !d.config.read_only,
        forall|i: int|
            0 <= i < d.collections.len() ==> (#[trigger] d.collections[i]).catalog.name
                != spec.name,
        0 < spec.name.len(),
        validation::name_rejected(encode_utf8(spec.name)) is None,
        0 < spec.dimension <= 65_536,
        ({
            let n = r->Ok_0;
            &&& n.catalog@.name == spec.name
            &&& n.catalog@.dimension == spec.dimension
            &&& n.catalog@.metric == spec.metric
            &&& n.catalog@.dtype == spec.dtype
            &&& n.catalog@.id_kind == spec.id_kind
            &&& n.catalog@.created_at_ms == now_ms
            &&& n.entry@.name == spec.name
            &&& n.entry@.segments.len() == 0
            &&& n.entry@.index_snapshot is None
            &&& n.entry@.live_count == 0
            &&& n.entry@.total_rows == 0
        }),
{
    lemma_collections_are_found_by_name(d, spec.name);
    assert(spec.name.len() > 0) by {
        if spec.name.len() == 0 {
            assert(encode_utf8(spec.name).len() == 0);
        }
    }
}

/// Where a specification that may be used is refused on an open handle that may write, a collection
/// with its name is there, or the manifest cannot hold one more.
pub proof fn lemma_creation_is_owed(
    d: DbModel,
    r: Result<NewCollection, DbError>,
    spec: SpecModel,
    now_ms: u64,
)
    requires
        database::is_creation(d, r, spec, now_ms),
        !d.closed,
        !d.config.read_only,
        validation::name_rejected(encode_utf8(spec.name)) is None,
        0 < spec.dimension <= 65_536,
        forall|i: int|
            0 <= i < d.collections.len() ==> (#[trigger] d.collections[i]).catalog.name
                != spec.name,
    ensures
        r is Ok || exists|m: ManifestModel|
            (#[trigger] manifest::checked(m)) is Err && m.collections.len()
                <= d.manifest.collections.len() + 1 && forall|i: int|
                0 <= i < d.manifest.collections.len() && (
                #[trigger] d.manifest.collections[i]).name != spec.name ==> m.collections[i]
                    == d.manifest.collections[i],
{
    lemma_collections_are_found_by_name(d, spec.name);
    if r is Err {
        let m = store::stamped(
            d.manifest,
            ManifestModel {
                collections: database::with_entry(
                    d.manifest.collections,
                    database::empty_entry(spec.name),
                ),
                ..d.manifest
            },
            now_ms,
        );
        lemma_with_entry_places(d.manifest.collections, database::empty_entry(spec.name));
        assert(manifest::checked(m) is Err);
    }
}

/// An existing collection stands for a specification exactly where it has the dimension, the metric,
/// the component type and the id kind that are asked for.
pub proof fn lemma_matching_collections(spec: SpecModel, c: CatalogModel)
    ensures
        spec.matches(c) <==> spec.dimension == c.dimension && spec.metric == c.metric && spec.dtype
            == c.dtype && spec.id_kind == c.id_kind,
        database::info_of(c).name == c.name,
        database::info_of(c).dimension == c.dimension,
        database::info_of(c).metric == c.metric,
{
}

/// A database is made afresh only where that is asked for and nothing is there: no manifest in
/// either slot and no collection on disk. Where a slot holds a manifest that can be read, that is
/// the database, the one with the higher sequence where both do.
pub proof fn lemma_opening_loses_nothing(
    r: Result<OpenPlan, DbError>,
    config: DatabaseConfig,
    a: Option<Seq<u8>>,
    b: Option<Seq<u8>>,
    occupied: bool,
    location: Seq<char>,
    now_ms: u64,
    count: u64,
)
    requires
        database::is_plan(r, config, a, b, occupied, location, now_ms, count),
    ensures
        r matches Ok(OpenPlan::Fresh(p)) ==> {
            &&& config.create_if_missing
            &&& !config.read_only
            &&& !occupied
            &&& a is None || a->0.len() == 0
            &&& b is None || b->0.len() == 0
            &&& p.manifest@.collections.len() == 0
            &&& p.manifest@.sequence == 1
            &&& p.manifest@.created_at_ms == now_ms
        },
        r matches Ok(OpenPlan::Existing(s)) ==> {
            &&& s@.0 == Slot::A ==> a is Some && manifest::decoded(a->0) == Ok::<
                ManifestModel,
                crate::format::error::FormatError,
            >(s@.1)
            &&& s@.0 == Slot::B ==> b is Some && manifest::decoded(b->0) == Ok::<
                ManifestModel,
                crate::format::error::FormatError,
            >(s@.1)
            &&& a is Some && a->0.len() > 0 && manifest::decoded(a->0) is Ok ==> manifest::decoded(a->0)->Ok_0.sequence <= s@.1.sequence
            &&& b is Some && b->0.len() > 0 && manifest::decoded(b->0) is Ok ==> manifest::decoded(b->0)->Ok_0.sequence <= s@.1.sequence
        },
        !(config.read_only && config.create_if_missing) && a is Some && a->0.len() > 0
            && manifest::decoded(a->0) is Ok ==> r matches Ok(OpenPlan::Existing(_)),
        !(config.read_only && config.create_if_missing) && b is Some && b->0.len() > 0
            && manifest::decoded(b->0) is Ok ==> r matches Ok(OpenPlan::Existing(_)),
{
}

/// One more collection adds its documents and its rows to what is counted, and takes none away.
pub proof fn lemma_counters_add_up(cs: Seq<CollModel>, c: CollModel)
    ensures
        database::live_in(Seq::empty()) == 0,
        database::rows_in(Seq::empty()) == 0,
        0 <= c.live_documents() <= u64::MAX ==> database::live_in(cs.push(c)) == database::live_in(
            cs,
        ) + c.live_documents(),
        collection::rows_on_disk(c.segments) <= u64::MAX ==> database::rows_in(cs.push(c))
            == database::rows_in(cs) + collection::rows_on_disk(c.segments),
{
    assert(cs.push(c).drop_last() =~= cs);
    assert(cs.push(c).last() == c);
}

proof fn lemma_checks(es: Seq<EntryModel>, cs: Seq<CheckModel>)
    requires
        es.len() == cs.len(),
    ensures
        ({
            let r = verify::checked(es, cs);
            &&& r.collections.len() == es.len()
            &&& forall|i: int|
                0 <= i < es.len() ==> (#[trigger] r.collections[i]) == cs[i].result
            &&& r.errors.len() == 0 <==> (forall|i: int|
                0 <= i < es.len() ==> (#[trigger] cs[i]).errors.len() == 0 && es[i].total_rows
                    == cs[i].result.total_rows)
            &&& r.warnings.len() == 0 <==> (forall|i: int|
                0 <= i < es.len() ==> (#[trigger] cs[i]).warnings.len() == 0 && es[i].live_count
                    == cs[i].result.live_documents)
            &&& forall|i: int, k: int|
                0 <= i < es.len() && 0 <= k < cs[i].errors.len() ==> r.errors.contains(
                    #[trigger] cs[i].errors[k],
                )
        }),
    decreases es.len(),
{
    if es.len() > 0 {
        let ef = es.drop_last();
        let cf = cs.drop_last();
        let n = es.len() - 1;
        lemma_checks(ef, cf);
        let before = verify::checked(ef, cf);
        let r = verify::checked(es, cs);
        let joined = before.errors + cs.last().errors;
        assert forall|i: int| 0 <= i < ef.len() implies ef[i] == es[i] && cf[i] == cs[i] by {}
        if r.errors.len() == 0 {
            assert forall|i: int| 0 <= i < es.len() implies (#[trigger] cs[i]).errors.len() == 0
                && es[i].total_rows == cs[i].result.total_rows by {
                if i < n {
                    assert(cf[i].errors.len() == 0);
                }
            }
        } else if forall|i: int|
            0 <= i < es.len() ==> (#[trigger] cs[i]).errors.len() == 0 && es[i].total_rows
                == cs[i].result.total_rows {
            assert(cs[n].errors.len() == 0);
            assert forall|i: int| 0 <= i < ef.len() implies (#[trigger] cf[i]).errors.len() == 0
                && ef[i].total_rows == cf[i].result.total_rows by {
                assert(cs[i].errors.len() == 0);
            }
        }
        if r.warnings.len() == 0 {
            assert forall|i: int| 0 <= i < es.len() implies (#[trigger] cs[i]).warnings.len() == 0
                && es[i].live_count == cs[i].result.live_documents by {
                if i < n {
                    assert(cf[i].warnings.len() == 0);
                }
            }
        } else if forall|i: int|
            0 <= i < es.len() ==> (#[trigger] cs[i]).warnings.len() == 0 && es[i].live_count
                == cs[i].result.live_documents {
            assert(cs[n].warnings.len() == 0);
            assert forall|i: int| 0 <= i < ef.len() implies (#[trigger] cf[i]).warnings.len() == 0
                && ef[i].live_count == cf[i].result.live_documents by {
                assert(cs[i].warnings.len() == 0);
            }
        }
        assert forall|i: int, k: int| 0 <= i < es.len() && 0 <= k < cs[i].errors.len() implies
            r.errors.contains(#[trigger] cs[i].errors[k]) by {
            let x = cs[i].errors[k];
            if i < n {
                assert(before.errors.contains(cf[i].errors[k]));
                let at = choose|at: int| 0 <= at < before.errors.len() && before.errors[at] == x;
                assert(joined[at] == x);
                assert(r.errors[at] == x);
            } else {
                assert(joined[before.errors.len() + k] == x);
                assert(r.errors[before.errors.len() + k] == x);
            }
        }
        assert forall|i: int| 0 <= i < es.len() implies (#[trigger] r.collections[i])
            == cs[i].result by {
            if i < n {
                assert(before.collections[i] == cf[i].result);
            }
        }
    }
}

proof fn lemma_unnamed(es: Seq<EntryModel>, listed: Seq<Seq<char>>)
    ensures
        verify::unnamed_warnings(es, listed).len() == 0 <==> (forall|i: int|
            0 <= i < listed.len() ==> exists|k: int|
                0 <= k < es.len() && (#[trigger] es[k]).name == #[trigger] listed[i]),
    decreases listed.len(),
{
    if listed.len() > 0 {
        let front = listed.drop_last();
        let n = listed.len() - 1;
        lemma_unnamed(es, front);
        if verify::unnamed_warnings(es, listed).len() == 0 {
            assert forall|i: int| 0 <= i < listed.len() implies exists|k: int|
                0 <= k < es.len() && (#[trigger] es[k]).name == #[trigger] listed[i] by {
                if i < n {
                    assert(front[i] == listed[i]);
                } else {
                    assert(verify::names(es, listed[n]));
                }
            }
        } else if forall|i: int|
            0 <= i < listed.len() ==> exists|k: int|
                0 <= k < es.len() && (#[trigger] es[k]).name == #[trigger] listed[i] {
            assert forall|i: int| 0 <= i < front.len() implies exists|k: int|
                0 <= k < es.len() && (#[trigger] es[k]).name == #[trigger] front[i] by {
                assert(front[i] == listed[i]);
            }
            let k = choose|k: int| 0 <= k < es.len() && (#[trigger] es[k]).name == listed[n];
            assert(verify::names(es, listed[n]));
        }
    }
}

/// Verification reports exactly what is wrong: there is no error just where no collection has one
/// and every collection has as many rows as the manifest says, and no warning just where no
/// collection has one, every collection has as many live documents as the manifest says, and every
/// directory is named. Every error of every collection is in the report.
pub proof fn lemma_damage_is_reported(
    es: Seq<EntryModel>,
    cs: Seq<CheckModel>,
    listed: Seq<Seq<char>>,
)
    requires
        es.len() == cs.len(),
    ensures
        ({
            let r = verify::reported(es, cs, listed);
            &&& r.collections.len() == es.len()
            &&& forall|i: int|
                0 <= i < es.len() ==> (#[trigger] r.collections[i]) == cs[i].result
            &&& r.errors.len() == 0 <==> (forall|i: int|
                0 <= i < es.len() ==> (#[trigger] cs[i]).errors.len() == 0 && es[i].total_rows
                    == cs[i].result.total_rows)
            &&& r.warnings.len() == 0 <==> (forall|i: int|
                0 <= i < es.len() ==> (#[trigger] cs[i]).warnings.len() == 0 && es[i].live_count
                    == cs[i].result.live_documents) && (forall|i: int|
                0 <= i < listed.len() ==> exists|k: int|
                    0 <= k < es.len() && (#[trigger] es[k]).name == #[trigger] listed[i])
            &&& forall|i: int, k: int|
                0 <= i < es.len() && 0 <= k < cs[i].errors.len() ==> r.errors.contains(
                    #[trigger] cs[i].errors[k],
                )
        }),
{
    lemma_checks(es, cs);
    lemma_unnamed(es, listed);
}

} // verus!
