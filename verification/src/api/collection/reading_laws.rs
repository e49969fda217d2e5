//! What a read gives back of a write, part by part.
use vstd::prelude::*;

use crate::api::batch::BatchModel;
use crate::api::collection;
use crate::api::collection::count_laws;
use crate::api::collection::laws;
use crate::api::collection::staging;
use crate::api::collection::staging::{ChangeModel, StagedWrite};
use crate::api::collection::CollModel;
use crate::document::{DocumentInput, DocumentModel, IdModel, Include};
use crate::error::{DbError, ErrorModel};
use crate::format::segment::vectors;
use crate::format::value::ValueModel;
use crate::persistence::recovery;
use crate::persistence::segment;
use crate::persistence::segment::SegmentModel;
use crate::vector;
use crate::vector::VectorView;
use crate::write::memtable;
use crate::write::memtable::Slot;

verus! {

/// Whether a document that was read holds just the parts that were asked for of a vector, metadata
/// and content: each where it was asked for, whatever was asked for besides.
pub open spec fn holds_parts(
    d: DocumentModel,
    parts: Include,
    components: Seq<u32>,
    metadata: Option<Seq<(Seq<char>, ValueModel)>>,
    content: Option<Seq<u8>>,
) -> bool {
    &&& parts.vector ==> d.vector == Some(components)
    &&& !parts.vector ==> d.vector is None
    &&& parts.metadata && metadata is Some ==> d.metadata == metadata->0
    &&& parts.metadata && metadata is None ==> d.metadata.len() == 0
    &&& !parts.metadata ==> d.metadata.len() == 0
    &&& parts.content ==> d.content == content
    &&& !parts.content ==> d.content is None
}

/// A read of a document gives the version that is visible, and of it exactly the parts that were
/// asked for, each independently of the other two. A document that is not visible is not read.
pub proof fn lemma_read_gives_the_parts_asked_for(c: CollModel, id: IdModel, parts: Include)
    requires
        c.wf(),
        c.memtable.held(),
        laws::readable(c.segments, id),
    ensures
        match c.visible(id) {
            None => c.read(id, parts) == Ok::<Option<DocumentModel>, ErrorModel>(None),
            Some(v) => {
                &&& c.read(id, parts) matches Ok(Some(d))
                &&& d.id == id
                &&& parts.vector ==> d.vector == Some(vectors::components(v.vector))
                &&& !parts.vector ==> d.vector is None
                &&& parts.metadata && v.metadata is Some ==> d.metadata == v.metadata->0
                &&& parts.metadata && v.metadata is None ==> d.metadata.len() == 0
                &&& !parts.metadata ==> d.metadata.len() == 0
                &&& parts.content ==> d.content == v.content
                &&& !parts.content ==> d.content is None
            },
        },
{
    memtable::lemma_slot_of(c.memtable, id);
    if let Some(Slot::Row(i)) = c.memtable.found(id) {
        assert(c.memtable.vector(c.memtable.rows[i as int]) is Some);
    }
    collection::lemma_newest(c.segments, id);
}

/// A document that was written is read back as it was given, in whatever parts are asked for: the
/// components, the metadata and the content that the write had. It is scored by the reciprocal norm
/// that came with it. Every other document is as it was.
pub proof fn lemma_written_document_reads_back(
    c: CollModel,
    doc: DocumentInput<'_>,
    inv_norm: u32,
    s: StagedWrite,
    parts: Include,
    other: IdModel,
)
    requires
        c.wf(),
        c.memtable.held(),
        staging::is_staged(c, staging::put_of(doc, inv_norm), Ok::<StagedWrite, DbError>(s)),
        staging::sized(
            staging::change_models(s.changes@),
            c.memtable.dtype.stride(c.memtable.dimension),
        ),
        staging::applied(c.memtable, staging::change_models(s.changes@)).fits(),
        laws::readable(c.segments, doc.id@),
        laws::readable(c.segments, other),
        other != doc.id@,
    ensures
        ({
            let d = CollModel {
                memtable: staging::applied(c.memtable, staging::change_models(s.changes@)),
                ..c
            };
            &&& d.located(doc.id@) is Some
            &&& d.visible(doc.id@) is Some
            &&& d.visible(doc.id@)->0.inv_norm == inv_norm
            &&& d.read(doc.id@, parts) matches Ok(Some(got))
            &&& got.id == doc.id@
            &&& holds_parts(
                got,
                parts,
                match doc.vector {
                    VectorView::F32(values) => values@,
                    VectorView::Raw { bytes, .. } => vectors::components(bytes@),
                },
                match doc.metadata {
                    Some(m) => Some(m@),
                    None => None,
                },
                match doc.content {
                    Some(b) => Some(b@),
                    None => None,
                },
            )
            &&& d.read(other, parts) == c.read(other, parts)
            &&& d.located(other) is Some == (c.located(other) is Some)
        }),
{
    let cs = staging::change_models(s.changes@);
    let change = staging::put_of(doc, inv_norm);
    let d = CollModel { memtable: staging::applied(c.memtable, cs), ..c };
    assert(cs == seq![change]);
    assert(cs.last() == change);
    assert(cs.drop_last() =~= Seq::<ChangeModel>::empty());
    laws::lemma_changes_seen(c.memtable, cs, doc.id@);
    laws::lemma_changes_seen(c.memtable, cs, other);
    assert(laws::last_change(cs.drop_last(), other) is None);
    vector::lemma_stored_components(doc.vector);
    lemma_read_gives_the_parts_asked_for(d, doc.id@, parts);
    lemma_read_gives_the_parts_asked_for(d, other, parts);
    lemma_read_gives_the_parts_asked_for(c, other, parts);
    lemma_same_version_same_read(c, d, other, parts);
    laws::lemma_located_is_visible(d, doc.id@);
    laws::lemma_located_is_visible(d, other);
    laws::lemma_located_is_visible(c, other);
}

/// A reader cannot tell two collections apart by a document of which the same version is visible.
pub proof fn lemma_same_version_same_read(a: CollModel, b: CollModel, id: IdModel, parts: Include)
    requires
        a.wf(),
        b.wf(),
        a.memtable.held(),
        b.memtable.held(),
        laws::readable(a.segments, id),
        laws::readable(b.segments, id),
        a.visible(id) == b.visible(id),
    ensures
        a.read(id, parts) == b.read(id, parts),
{
    lemma_read_gives_the_parts_asked_for(a, id, parts);
    lemma_read_gives_the_parts_asked_for(b, id, parts);
    if let Some(v) = a.visible(id) {
        let x = a.read(id, parts)->Ok_0->0;
        let y = b.read(id, parts)->Ok_0->0;
        assert(x.metadata =~= y.metadata);
        assert(x == y);
    }
}

/// A document that was deleted is gone: it is not read, in whatever parts, and not located.
pub proof fn lemma_deleted_document_is_gone(
    c: CollModel,
    id: IdModel,
    s: StagedWrite,
    parts: Include,
)
    requires
        c.wf(),
        c.memtable.held(),
        staging::is_staged(c, ChangeModel::Delete { id }, Ok::<StagedWrite, DbError>(s)),
        staging::applied(c.memtable, staging::change_models(s.changes@)).fits(),
    ensures
        ({
            let d = CollModel {
                memtable: staging::applied(c.memtable, staging::change_models(s.changes@)),
                ..c
            };
            &&& d.read(id, parts) == Ok::<Option<DocumentModel>, ErrorModel>(None)
            &&& d.located(id) is None
        }),
{
    let cs = staging::change_models(s.changes@);
    let change = ChangeModel::Delete { id };
    assert(cs == seq![change]);
    assert(cs.last() == change);
    laws::lemma_changes_seen(c.memtable, cs, id);
}

/// The changes of a batch that come last for a document decide what is read of it: what it wrote,
/// or nothing where it deleted it.
pub proof fn lemma_batch_reads_back<F: Fn(&[u8]) -> u32>(
    c: CollModel,
    norm: F,
    ops: Seq<BatchModel>,
    cs: Seq<ChangeModel>,
    i: int,
    parts: Include,
)
    requires
        c.wf(),
        c.memtable.held(),
        staging::all_realized(norm, ops, cs),
        staging::sized(cs, c.memtable.dtype.stride(c.memtable.dimension)),
        staging::applied(c.memtable, cs).fits(),
        0 <= i < ops.len(),
        forall|j: int| i < j < ops.len() ==> id_in(#[trigger] ops[j]) != id_in(ops[i]),
        laws::readable(c.segments, id_in(ops[i])),
    ensures
        ({
            let d = CollModel { memtable: staging::applied(c.memtable, cs), ..c };
            match ops[i] {
                BatchModel::Upsert { id, vector, metadata, content } => {
                    &&& d.read(id, parts) matches Ok(Some(got))
                    &&& got.id == id
                    &&& holds_parts(got, parts, vectors::components(vector), metadata, content)
                },
                BatchModel::Delete { id } => d.read(id, parts) == Ok::<
                    Option<DocumentModel>,
                    ErrorModel,
                >(None),
            }
        }),
{
    let id = id_in(ops[i]);
    let d = CollModel { memtable: staging::applied(c.memtable, cs), ..c };
    laws::lemma_changes_seen(c.memtable, cs, id);
    assert forall|j: int| 0 <= j < cs.len() implies laws::change_effect(#[trigger] cs[j]).0
        == id_in(ops[j]) by {
        assert(staging::realizes(norm, ops[j], cs[j]));
    }
    lemma_last_change_at(cs, i, id);
    assert(staging::realizes(norm, ops[i], cs[i]));
    lemma_read_gives_the_parts_asked_for(d, id, parts);
}

/// What a batch writes is scored by the reciprocal norm of its own vector.
pub proof fn lemma_batch_is_scored_by_its_vectors<F: Fn(&[u8]) -> u32>(
    c: CollModel,
    norm: F,
    ops: Seq<BatchModel>,
    cs: Seq<ChangeModel>,
    i: int,
)
    requires
        c.wf(),
        c.memtable.held(),
        staging::all_realized(norm, ops, cs),
        staging::sized(cs, c.memtable.dtype.stride(c.memtable.dimension)),
        staging::applied(c.memtable, cs).fits(),
        0 <= i < ops.len(),
        forall|j: int| i < j < ops.len() ==> id_in(#[trigger] ops[j]) != id_in(ops[i]),
        ops[i] is Upsert,
    ensures
        ({
            let d = CollModel { memtable: staging::applied(c.memtable, cs), ..c };
            &&& d.visible(id_in(ops[i])) is Some
            &&& exists|b: &[u8]|
                b@ == ops[i]->vector && #[trigger] call_ensures(
                    norm,
                    (b,),
                    d.visible(id_in(ops[i]))->0.inv_norm,
                )
        }),
{
    let id = id_in(ops[i]);
    laws::lemma_changes_seen(c.memtable, cs, id);
    assert forall|j: int| 0 <= j < cs.len() implies laws::change_effect(#[trigger] cs[j]).0
        == id_in(ops[j]) by {
        assert(staging::realizes(norm, ops[j], cs[j]));
    }
    lemma_last_change_at(cs, i, id);
    assert(staging::realizes(norm, ops[i], cs[i]));
    let d = CollModel { memtable: staging::applied(c.memtable, cs), ..c };
    assert(d.visible(id) == laws::change_effect(cs[i]).1);
    assert(recovery::norm_of(norm, ops[i]->vector, d.visible(id)->0.inv_norm));
}

/// The document that an operation is about.
pub open spec fn id_in(op: BatchModel) -> IdModel {
    match op {
        BatchModel::Upsert { id, .. } => id,
        BatchModel::Delete { id } => id,
    }
}

proof fn lemma_last_change_at(cs: Seq<ChangeModel>, i: int, id: IdModel)
    requires
        0 <= i < cs.len(),
        laws::change_effect(cs[i]).0 == id,
        forall|j: int| i < j < cs.len() ==> laws::change_effect(#[trigger] cs[j]).0 != id,
    ensures
        laws::last_change(cs, id) == Some(laws::change_effect(cs[i]).1),
    decreases cs.len(),
{
    if i < cs.len() - 1 {
        assert(laws::change_effect(cs[cs.len() - 1]).0 != id);
        let front = cs.drop_last();
        assert forall|j: int| i < j < front.len() implies laws::change_effect(
            #[trigger] front[j],
        ).0 != id by {
            assert(front[j] == cs[j]);
        }
        lemma_last_change_at(front, i, id);
    }
}

/// A batch leaves every document that none of its operations is about as it was.
pub proof fn lemma_batch_leaves_the_rest<F: Fn(&[u8]) -> u32>(
    c: CollModel,
    norm: F,
    ops: Seq<BatchModel>,
    cs: Seq<ChangeModel>,
    id: IdModel,
    parts: Include,
)
    requires
        c.wf(),
        c.memtable.held(),
        staging::all_realized(norm, ops, cs),
        staging::sized(cs, c.memtable.dtype.stride(c.memtable.dimension)),
        staging::applied(c.memtable, cs).fits(),
        forall|j: int| 0 <= j < ops.len() ==> id_in(#[trigger] ops[j]) != id,
        laws::readable(c.segments, id),
    ensures
        (CollModel { memtable: staging::applied(c.memtable, cs), ..c }).read(id, parts) == c.read(
            id,
            parts,
        ),
{
    let d = CollModel { memtable: staging::applied(c.memtable, cs), ..c };
    laws::lemma_changes_seen(c.memtable, cs, id);
    assert forall|j: int| 0 <= j < cs.len() implies laws::change_effect(#[trigger] cs[j]).0
        != id by {
        assert(staging::realizes(norm, ops[j], cs[j]));
        assert(id_in(ops[j]) != id);
    }
    lemma_no_change(cs, id);
    lemma_same_version_same_read(c, d, id, parts);
}

proof fn lemma_no_change(cs: Seq<ChangeModel>, id: IdModel)
    requires
        forall|j: int| 0 <= j < cs.len() ==> laws::change_effect(#[trigger] cs[j]).0 != id,
    ensures
        laws::last_change(cs, id) is None,
    decreases cs.len(),
{
    if cs.len() > 0 {
        let front = cs.drop_last();
        assert(laws::change_effect(cs[cs.len() - 1]).0 != id);
        assert forall|j: int| 0 <= j < front.len() implies laws::change_effect(
            #[trigger] front[j],
        ).0 != id by {
            assert(front[j] == cs[j]);
        }
        lemma_no_change(front, id);
    }
}

/// The count that is given is the number of documents, and the rows that are counted as dead are
/// those of all rows that are not live.
pub proof fn lemma_counters_add_up(c: CollModel, ids: Seq<IdModel>)
    requires
        c.wf(),
        c.memtable.fits(),
        crate::persistence::flush_laws::single(c.segments),
        ids.no_duplicates(),
        forall|id: IdModel| #[trigger] ids.contains(id) == (c.located(id) is Some),
        ids.len() <= u64::MAX,
        collection::rows_on_disk(c.segments) <= u64::MAX,
    ensures
        collection::capped(c.live_documents()) == ids.len(),
        collection::capped(collection::rows_on_disk(c.segments) as int) == total(c.segments),
        collection::capped(
            collection::rows_on_disk(c.segments) - segment::live_on_disk(c.segments),
        ) + count_laws::all_live(c.segments).len() == total(c.segments),
{
    count_laws::lemma_count_is_number_of_documents(c, ids);
    count_laws::lemma_all_live(c.segments);
    lemma_total(c.segments);
}

/// How many rows segments have, the documents of all of them put behind one another.
pub open spec fn total(segs: Seq<SegmentModel>) -> nat {
    segs.map_values(|m: SegmentModel| m.ids).flatten().len()
}

proof fn lemma_total(segs: Seq<SegmentModel>)
    requires
        forall|s: int| 0 <= s < segs.len() ==> (#[trigger] segs[s]).wf(),
    ensures
        collection::rows_on_disk(segs) == total(segs),
        segment::live_on_disk(segs) <= total(segs),
    decreases segs.len(),
{
    let ids = segs.map_values(|m: SegmentModel| m.ids);
    if segs.len() > 0 {
        let front = segs.drop_last();
        assert forall|s: int| 0 <= s < front.len() implies (#[trigger] front[s]).wf() by {
            assert(segs[s].wf());
        }
        lemma_total(front);
        assert(ids.drop_last() =~= front.map_values(|m: SegmentModel| m.ids));
        assert(ids =~= ids.drop_last().push(segs.last().ids));
        ids.lemma_flatten_and_flatten_alt_are_equivalent();
        ids.drop_last().lemma_flatten_and_flatten_alt_are_equivalent();
        assert(segs[segs.len() - 1].wf());
        crate::format::segment::tombstones::lemma_live_rows_bound(
            segs.last().tombstones,
            segs.last().ids.len(),
        );
    } else {
        assert(ids =~= Seq::<Seq<IdModel>>::empty());
        assert(ids.flatten() =~= Seq::<IdModel>::empty());
    }
}

} // verus!
