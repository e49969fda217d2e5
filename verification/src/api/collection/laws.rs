//! What holds of every collection.
use vstd::prelude::*;

use crate::api::collection;
use crate::api::collection::checkpoint;
use crate::api::collection::staging;
use crate::api::collection::staging::ChangeModel;
use crate::api::collection::CollModel;
use crate::document::{DocumentModel, IdModel, Include};
use crate::error::ErrorModel;
use crate::format::segment::meta::RecordModel;
use crate::format::segment::tombstones;
use crate::format::segment::vectors;
use crate::format::value::ValueModel;
use crate::persistence::flush;
use crate::persistence::flush_laws;
use crate::persistence::segment::SegmentModel;
use crate::write::memtable;
use crate::write::memtable::{MemModel, Slot};
use crate::write::memtable_laws;
use crate::write::memtable_laws::Version;

verus! {

/// The fields of a stored record, where it has some.
pub open spec fn stored_fields(r: RecordModel) -> Option<Seq<(Seq<char>, ValueModel)>> {
    match r.metadata {
        Some(ValueModel::Object(m)) => Some(m),
        _ => None,
    }
}

/// The version of a document that a segment's row holds.
pub open spec fn stored_version(m: SegmentModel, row: u32) -> Version {
    Version {
        vector: m.vector(row)->Ok_0->0,
        inv_norm: m.entries[row as int].inv_norm,
        metadata: stored_fields(m.record(row)->Ok_0),
        content: m.record(row)->Ok_0.content,
    }
}

/// The version of a document that segments hold, if one does.
pub open spec fn stored(segs: Seq<SegmentModel>, id: IdModel) -> Option<Version> {
    match collection::newest(segs, id) {
        Some((s, row)) => Some(stored_version(segs[s as int], row)),
        None => None,
    }
}

impl CollModel {
    /// The version of a document that a reader sees, if there is one: the memtable's where it
    /// knows the document, and otherwise the newest stored one.
    pub open spec fn visible(self, id: IdModel) -> Option<Version> {
        match self.memtable.seen(id) {
            Some(v) => v,
            None => stored(self.segments, id),
        }
    }
}

/// A document is located exactly where a version of it is visible.
pub proof fn lemma_located_is_visible(c: CollModel, id: IdModel)
    ensures
        c.located(id) is Some == (c.visible(id) is Some),
{
}

/// Whether the files of a document's newest stored row can be read.
pub open spec fn readable(segs: Seq<SegmentModel>, id: IdModel) -> bool {
    collection::newest(segs, id) matches Some((s, row)) ==> {
        &&& segs[s as int].vector(row) is Ok
        &&& segs[s as int].vector(row)->Ok_0 is Some
        &&& segs[s as int].record(row) is Ok
    }
}

/// A read gives back the version that is visible.
pub proof fn lemma_read_is_visible(c: CollModel, id: IdModel)
    requires
        c.wf(),
        c.memtable.held(),
        readable(c.segments, id),
    ensures
        ({
            let all = Include { vector: true, metadata: true, content: true };
            match c.visible(id) {
                None => c.read(id, all) == Ok::<Option<DocumentModel>, ErrorModel>(None),
                Some(v) => c.read(id, all) == Ok::<Option<DocumentModel>, ErrorModel>(
                    Some(
                        DocumentModel {
                            id,
                            vector: Some(vectors::components(v.vector)),
                            metadata: match v.metadata {
                                Some(m) => m,
                                None => Seq::empty(),
                            },
                            content: v.content,
                        },
                    ),
                ),
            }
        }),
{
    memtable::lemma_slot_of(c.memtable, id);
    if let Some(Slot::Row(i)) = c.memtable.found(id) {
        assert(c.memtable.vector(c.memtable.rows[i as int]) is Some);
    }
    collection::lemma_newest(c.segments, id);
}

/// What a change makes visible: which document, and the version of it.
pub open spec fn change_effect(c: ChangeModel) -> (IdModel, Option<Version>) {
    match c {
        ChangeModel::Put { id, vector, inv_norm, metadata, content } => (
            id,
            Some(Version { vector, inv_norm, metadata, content }),
        ),
        ChangeModel::Delete { id } => (id, None),
    }
}

/// What the last change of a document leaves of it, where one of a list is about it.
pub open spec fn last_change(cs: Seq<ChangeModel>, id: IdModel) -> Option<Option<Version>>
    decreases cs.len(),
{
    if cs.len() == 0 {
        None
    } else if change_effect(cs.last()).0 == id {
        Some(change_effect(cs.last()).1)
    } else {
        last_change(cs.drop_last(), id)
    }
}

/// One change sets what is seen of its document, and of no other.
pub proof fn lemma_one_change(m: MemModel, c: ChangeModel, id: IdModel)
    requires
        m.wf(),
        m.held(),
        staging::sized(seq![c], m.dtype.stride(m.dimension)),
        staging::changed(m, c).fits(),
    ensures
        ({
            let n = staging::changed(m, c);
            &&& n.wf()
            &&& n.held()
            &&& m.fits()
            &&& n.dimension == m.dimension
            &&& n.dtype == m.dtype
            &&& n.seen(id) == if change_effect(c).0 == id {
                Some(change_effect(c).1)
            } else {
                m.seen(id)
            }
        }),
{
    let n = staging::changed(m, c);
    assert(seq![c][0] == c);
    match c {
        ChangeModel::Put { id: x, vector, inv_norm, metadata, content } => {
            assert(n.rows.len() == m.rows.len() + 1);
            assert(n.arena.len() == m.arena.len() + vector.len());
            memtable_laws::lemma_seen_after_write(m, x, vector, inv_norm, metadata, content, id);
        },
        ChangeModel::Delete { id: x } => {
            memtable_laws::lemma_seen_after_delete(m, x, id);
        },
    }
}

/// After changes each document is seen as the last change of it left it, and every other as it
/// was.
pub proof fn lemma_changes_seen(m: MemModel, cs: Seq<ChangeModel>, id: IdModel)
    requires
        m.wf(),
        m.held(),
        staging::sized(cs, m.dtype.stride(m.dimension)),
        staging::applied(m, cs).fits(),
    ensures
        ({
            let n = staging::applied(m, cs);
            &&& n.wf()
            &&& n.held()
            &&& m.fits()
            &&& n.dimension == m.dimension
            &&& n.dtype == m.dtype
            &&& n.seen(id) == match last_change(cs, id) {
                Some(v) => Some(v),
                None => m.seen(id),
            }
        }),
    decreases cs.len(),
{
    if cs.len() > 0 {
        let front = cs.drop_last();
        let mid = staging::applied(m, front);
        let n = staging::applied(m, cs);
        match cs.last() {
            ChangeModel::Put { id: x, vector, inv_norm, metadata, content } => {
                assert(n.rows.len() == mid.rows.len() + 1);
                assert(n.arena.len() == mid.arena.len() + vector.len());
            },
            ChangeModel::Delete { id: x } => {},
        }
        assert(staging::sized(front, m.dtype.stride(m.dimension))) by {
            assert forall|i: int| 0 <= i < front.len() implies match #[trigger] front[i] {
                ChangeModel::Put { vector, .. } => vector.len() == m.dtype.stride(m.dimension),
                ChangeModel::Delete { .. } => true,
            } by {
                assert(front[i] == cs[i]);
            }
        }
        lemma_changes_seen(m, front, id);
        assert(cs[cs.len() - 1] == cs.last());
        lemma_one_change(mid, cs.last(), id);
    }
}

/// A write is visible as soon as it is applied: each document is as the last change of it left
/// it, and every document that no change is about is as it was.
pub proof fn lemma_write_is_visible(c: CollModel, cs: Seq<ChangeModel>, id: IdModel)
    requires
        c.wf(),
        c.memtable.held(),
        staging::sized(cs, c.memtable.dtype.stride(c.memtable.dimension)),
        staging::applied(c.memtable, cs).fits(),
    ensures
        (CollModel { memtable: staging::applied(c.memtable, cs), ..c }).visible(id)
            == match last_change(cs, id) {
            Some(v) => v,
            None => c.visible(id),
        },
{
    lemma_changes_seen(c.memtable, cs, id);
}

/// Killing the rows of some documents in segments leaves what is stored of every other.
pub proof fn lemma_supersede_keeps_the_rest(
    a: Seq<SegmentModel>,
    b: Seq<SegmentModel>,
    ids: Seq<IdModel>,
    id: IdModel,
)
    requires
        checkpoint::all_superseded(a, b, ids),
        a.len() <= usize::MAX,
        !ids.contains(id),
        forall|s: int| 0 <= s < a.len() ==> (#[trigger] a[s]).wf(),
    ensures
        collection::newest(b, id) == collection::newest(a, id),
        stored(b, id) == stored(a, id),
    decreases a.len(),
{
    if a.len() > 0 {
        let x = a.last();
        let y = b.last();
        let af = a.drop_last();
        let bf = b.drop_last();
        assert(checkpoint::superseded(a[a.len() - 1], b[a.len() - 1], ids));
        assert(a[a.len() - 1].wf());
        assert(checkpoint::all_superseded(af, bf, ids)) by {
            assert forall|s: int| 0 <= s < af.len() implies checkpoint::superseded(
                #[trigger] af[s],
                bf[s],
                ids,
            ) by {
                assert(checkpoint::superseded(a[s], b[s], ids));
            }
        }
        assert forall|s: int| 0 <= s < af.len() implies (#[trigger] af[s]).wf() by {
            assert(a[s].wf());
        }
        lemma_supersede_keeps_the_rest(af, bf, ids, id);
        assert(x.row_of(id) == y.row_of(id));
        if x.row_of(id) is Some {
            let i = choose|i: int| 0 <= i < x.ids.len() && x.ids[i] == id;
            assert(x.ids[i] == id);
            assert(y.live(i) == (x.live(i) && !ids.contains(x.ids[i])));
        }
        collection::lemma_newest(a, id);
        collection::lemma_newest(af, id);
        if let Some((s, row)) = collection::newest(af, id) {
            assert(af[s as int] == a[s as int]);
            assert(bf[s as int] == b[s as int]);
        }
        if let Some((s, row)) = collection::newest(a, id) {
            assert(checkpoint::superseded(a[s as int], b[s as int], ids));
            lemma_same_version(a[s as int], b[s as int], row);
        }
    } else {
        assert(a =~= Seq::<SegmentModel>::empty());
        assert(b =~= Seq::<SegmentModel>::empty());
    }
}

/// A row's version does not depend on which rows are live.
pub proof fn lemma_same_version(a: SegmentModel, b: SegmentModel, row: u32)
    requires
        b == (SegmentModel { tombstones: b.tombstones, ..a }),
    ensures
        stored_version(a, row) == stored_version(b, row),
{
    assert(a.stride() == b.stride());
    assert(a.vector(row) == b.vector(row));
    assert(a.record(row) == b.record(row));
}

/// Documents whose rows were killed have none left.
pub proof fn lemma_superseded_is_gone(
    a: Seq<SegmentModel>,
    b: Seq<SegmentModel>,
    ids: Seq<IdModel>,
    id: IdModel,
)
    requires
        checkpoint::all_superseded(a, b, ids),
        a.len() <= usize::MAX,
        ids.contains(id),
    ensures
        collection::newest(b, id) is None,
        stored(b, id) is None,
{
    assert forall|s: int| 0 <= s < b.len() implies (#[trigger] b[s]).wf() by {
        assert(checkpoint::superseded(a[s], b[s], ids));
    }
    collection::lemma_newest(b, id);
    if collection::live_somewhere(b, id) {
        let (s, row) = choose|s: int, row: int|
            0 <= s < b.len() && 0 <= row < b[s].ids.len() && #[trigger] b[s].live(row)
                && b[s].ids[row] == id;
        assert(checkpoint::superseded(a[s], b[s], ids));
    }
}

/// The documents that a flush takes over are exactly those that the memtable knows.
pub proof fn lemma_taken_is_known(m: MemModel, id: IdModel)
    requires
        m.wf(),
        m.rows.len() <= usize::MAX,
    ensures
        checkpoint::taken(m, memtable::deleted(m.index)).contains(id) == (m.found(id) is Some),
{
    let live = collection::ids_of(m.live());
    let gone = memtable::deleted(m.index);
    let all = checkpoint::taken(m, gone);
    memtable_laws::lemma_deleted_ids(m.index, id);
    if all.contains(id) {
        let k = choose|k: int| 0 <= k < all.len() && all[k] == id;
        if k < live.len() {
            assert(m.live()[k].id == id);
            memtable_laws::lemma_live_rows_are_current(m, m.rows.len(), k);
        } else {
            assert(gone[k - live.len()] == id);
        }
    }
    match m.found(id) {
        Some(Slot::Row(i)) => {
            memtable_laws::lemma_present_documents_are_live(m, id, i);
            memtable::lemma_slot_of(m, id);
            let k = choose|k: int| 0 <= k < m.live().len() && m.live()[k] == m.rows[i as int];
            assert(all[k] == id);
        },
        Some(Slot::Deleted) => {
            let k = choose|k: int| 0 <= k < gone.len() && gone[k] == id;
            assert(all[live.len() + k] == id);
        },
        None => {},
    }
}

/// Marking older copies as dead changes nothing that a reader sees: the memtable still shadows
/// them.
pub proof fn lemma_supersede_keeps_documents(c: CollModel, b: Seq<SegmentModel>, id: IdModel)
    requires
        c.wf(),
        c.memtable.fits(),
        checkpoint::all_superseded(
            c.segments,
            b,
            checkpoint::taken(c.memtable, memtable::deleted(c.memtable.index)),
        ),
    ensures
        (CollModel { segments: b, ..c }).visible(id) == c.visible(id),
{
    lemma_taken_is_known(c.memtable, id);
    if c.memtable.found(id) is None {
        lemma_supersede_keeps_the_rest(
            c.segments,
            b,
            checkpoint::taken(c.memtable, memtable::deleted(c.memtable.index)),
            id,
        );
    }
}

proof fn lemma_new_segment_knows(m: MemModel, seg: SegmentModel, id: IdModel)
    requires
        m.wf(),
        m.fits(),
        flush_laws::holds(seg, flush::flushed_rows(m)),
    ensures
        seg.row_of(id) is Some == (m.found(id) matches Some(Slot::Row(_))),
        seg.row_of(id) matches Some(row) ==> {
            &&& seg.live(row as int)
            &&& Some(Some(stored_version(seg, row))) == m.seen(id)
        },
{
    let rows = flush::flushed_rows(m);
    let live = m.live();
    assert(seg.ids.len() == live.len());
    if seg.row_of(id) is Some {
        let k = choose|k: int| 0 <= k < seg.ids.len() && seg.ids[k] == id;
        assert(seg.ids[k] == id);
        assert(rows[k].id == id);
        assert(live[k].id == id);
        memtable_laws::lemma_live_rows_are_current(m, m.rows.len(), k);
        let i = choose|i: int|
            0 <= i < m.rows.len() && #[trigger] m.rows[i] == live[k] && m.found(m.rows[i].id)
                == Some(Slot::Row(i as usize));
        assert(m.found(id) == Some(Slot::Row(i as usize)));
        assert(rows[k] == flush::flushed_row(m, live[k]));
        assert(seg.ids.len() == seg.tombstones.rows);
        assert(seg.row_of(id) == Some(k as u32));
        let v = stored_version(seg, k as u32);
        assert(v == m.version(m.rows[i]));
    }
    if let Some(Slot::Row(i)) = m.found(id) {
        memtable_laws::lemma_present_documents_are_live(m, id, i);
        memtable::lemma_slot_of(m, id);
        let k = choose|k: int| 0 <= k < live.len() && live[k] == m.rows[i as int];
        assert(rows[k].id == id);
        assert(seg.ids[k] == id);
    }
}

/// Taking in the new segment changes nothing that a reader sees: the memtable still shadows it.
pub proof fn lemma_receive_keeps_documents(c: CollModel, seg: SegmentModel, id: IdModel)
    requires
        c.wf(),
        c.memtable.fits(),
        flush_laws::holds(seg, flush::flushed_rows(c.memtable)),
    ensures
        (CollModel { segments: c.segments.push(seg), ..c }).visible(id) == c.visible(id),
{
    lemma_new_segment_knows(c.memtable, seg, id);
    let more = c.segments.push(seg);
    assert(more.drop_last() =~= c.segments);
    assert(more.last() == seg);
    if c.memtable.found(id) is None {
        collection::lemma_newest(c.segments, id);
        if let Some((s, row)) = collection::newest(c.segments, id) {
            assert(more[s as int] == c.segments[s as int]);
        }
    }
}

/// Emptying the memtable once its documents are in a segment, and the older copies are dead,
/// changes nothing that a reader sees.
pub proof fn lemma_checkpoint_keeps_documents(
    c: CollModel,
    old_segments: Seq<SegmentModel>,
    superseded: Seq<SegmentModel>,
    seg: SegmentModel,
    id: IdModel,
)
    requires
        c.wf(),
        c.memtable.fits(),
        c.segments == superseded.push(seg),
        checkpoint::all_superseded(
            old_segments,
            superseded,
            checkpoint::taken(c.memtable, memtable::deleted(c.memtable.index)),
        ),
        flush_laws::holds(seg, flush::flushed_rows(c.memtable)),
    ensures
        (CollModel {
            memtable: MemModel::empty(c.memtable.dimension, c.memtable.dtype),
            ..c
        }).visible(id) == c.visible(id),
{
    let ids = checkpoint::taken(c.memtable, memtable::deleted(c.memtable.index));
    lemma_taken_is_known(c.memtable, id);
    lemma_new_segment_knows(c.memtable, seg, id);
    assert(c.segments.drop_last() =~= superseded);
    assert(c.segments.last() == seg);
    if c.memtable.found(id) == Some(Slot::Deleted) {
        lemma_superseded_is_gone(old_segments, superseded, ids, id);
    }
    if c.memtable.found(id) is Some && c.memtable.found(id) != Some(Slot::Deleted) {
        assert(c.segments[c.segments.len() - 1] == seg);
    }
}

/// A memtable that holds only tombstones leaves no segment: emptying it once the rows that it
/// deleted are dead changes nothing that a reader sees.
pub proof fn lemma_tombstone_checkpoint_keeps_documents(
    c: CollModel,
    old_segments: Seq<SegmentModel>,
    id: IdModel,
)
    requires
        c.wf(),
        c.memtable.fits(),
        c.memtable.live().len() == 0,
        checkpoint::all_superseded(
            old_segments,
            c.segments,
            checkpoint::taken(c.memtable, memtable::deleted(c.memtable.index)),
        ),
    ensures
        (CollModel {
            memtable: MemModel::empty(c.memtable.dimension, c.memtable.dtype),
            ..c
        }).visible(id) == c.visible(id),
{
    let ids = checkpoint::taken(c.memtable, memtable::deleted(c.memtable.index));
    lemma_taken_is_known(c.memtable, id);
    match c.memtable.found(id) {
        Some(Slot::Deleted) => {
            lemma_superseded_is_gone(old_segments, c.segments, ids, id);
        },
        Some(Slot::Row(i)) => {
            memtable_laws::lemma_present_documents_are_live(c.memtable, id, i);
        },
        None => {},
    }
}

/// A flush leaves each document live in one segment: what it writes is dead everywhere else.
pub proof fn lemma_flush_keeps_single(
    m: MemModel,
    a: Seq<SegmentModel>,
    b: Seq<SegmentModel>,
    seg: SegmentModel,
)
    requires
        m.wf(),
        m.fits(),
        flush_laws::single(a),
        checkpoint::all_superseded(
            a,
            b,
            checkpoint::taken(m, memtable::deleted(m.index)),
        ),
        flush_laws::holds(seg, flush::flushed_rows(m)),
    ensures
        flush_laws::single(b),
        flush_laws::single(b.push(seg)),
{
    let ids = checkpoint::taken(m, memtable::deleted(m.index));
    assert forall|s: int, t: int, i: int, j: int|
        0 <= s < t < b.len() && 0 <= i < b[s].ids.len() && 0 <= j < b[t].ids.len()
            && #[trigger] b[s].live(i) && #[trigger] b[t].live(j) implies b[s].ids[i]
        != b[t].ids[j] by {
        assert(checkpoint::superseded(a[s], b[s], ids));
        assert(checkpoint::superseded(a[t], b[t], ids));
        assert(a[s].live(i));
        assert(a[t].live(j));
    }
    let more = b.push(seg);
    assert forall|s: int, t: int, i: int, j: int|
        0 <= s < t < more.len() && 0 <= i < more[s].ids.len() && 0 <= j < more[t].ids.len()
            && #[trigger] more[s].live(i) && #[trigger] more[t].live(j) implies more[s].ids[i]
        != more[t].ids[j] by {
        if t < b.len() {
            assert(b[s].live(i));
            assert(b[t].live(j));
        } else {
            assert(checkpoint::superseded(a[s], b[s], ids));
            assert(b[s].live(i));
            assert(!ids.contains(a[s].ids[i]));
            lemma_taken_is_known(m, a[s].ids[i]);
            lemma_new_segment_knows(m, seg, a[s].ids[i]);
        }
    }
}

/// Of the copies of a document in segments, the one in the newest segment counts: no segment behind
/// it has a live row of the document.
pub proof fn lemma_newest_copy_counts(segs: Seq<SegmentModel>, id: IdModel, t: int, i: int)
    requires
        forall|s: int| 0 <= s < segs.len() ==> (#[trigger] segs[s]).wf(),
        segs.len() <= usize::MAX,
        0 <= t < segs.len(),
        0 <= i < segs[t].ids.len(),
        segs[t].live(i),
        segs[t].ids[i] == id,
    ensures
        collection::newest(segs, id) matches Some((s, row)) && t <= s && segs[s as int].live(
            row as int,
        ) && segs[s as int].ids[row as int] == id && (t == s ==> row == i),
    decreases segs.len(),
{
    let front = segs.drop_last();
    let last = segs.last();
    let n = segs.len() - 1;
    assert(segs[n].wf());
    collection::lemma_newest(segs, id);
    if t == n {
        crate::persistence::segment::lemma_row_of(last, i);
    } else {
        assert forall|s: int| 0 <= s < front.len() implies (#[trigger] front[s]).wf() by {
            assert(segs[s].wf());
        }
        assert(front[t] == segs[t]);
        lemma_newest_copy_counts(front, id, t, i);
        if let Some(row) = last.row_of(id) {
            if last.live(row as int) {
                assert(collection::newest(segs, id) == Some((n as usize, row)));
            }
        }
    }
}

} // verus!
