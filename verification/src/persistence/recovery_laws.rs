//! What holds of every replay.
use vstd::prelude::*;

use crate::document;
use crate::document::{IdKind, IdModel};
use crate::format::wal;
use crate::format::wal::{FrameModel, OpModel};
use crate::persistence::recovery;
use crate::write::memtable::MemModel;
use crate::write::memtable_laws;
use crate::write::memtable_laws::Version;

verus! {

/// What a frame does: which document it is about, and the version that it leaves of it, if any.
/// A commit record does nothing.
pub open spec fn effect(kind: IdKind, f: FrameModel, norm: u32) -> Option<
    (IdModel, Option<Version>),
> {
    match f.op {
        OpModel::Put { id, vector, metadata, content } => Some(
            (
                document::id_of(kind, id)->Ok_0,
                Some(
                    Version {
                        vector,
                        inv_norm: norm,
                        metadata: recovery::logged_metadata(metadata)->Ok_0,
                        content,
                    },
                ),
            ),
        ),
        OpModel::Delete { id } => Some((document::id_of(kind, id)->Ok_0, None)),
        OpModel::Commit { .. } => None,
    }
}

/// What the last frame about a document leaves of it, where there is such a frame.
pub open spec fn last_effect(
    kind: IdKind,
    fs: Seq<FrameModel>,
    norms: Seq<u32>,
    id: IdModel,
) -> Option<Option<Version>>
    decreases fs.len(),
{
    if fs.len() == 0 {
        None
    } else {
        match effect(kind, fs.last(), norms.last()) {
            Some((x, v)) => if x == id {
                Some(v)
            } else {
                last_effect(kind, fs.drop_last(), norms.drop_last(), id)
            },
            None => last_effect(kind, fs.drop_last(), norms.drop_last(), id),
        }
    }
}

/// Applying a frame sets the document that it is about to what it leaves of it, and no other.
pub proof fn lemma_frame_applied(m: MemModel, kind: IdKind, f: FrameModel, norm: u32, id: IdModel)
    requires
        m.wf(),
        m.held(),
        recovery::stepped(m, kind, f, norm) is Ok,
        recovery::stepped(m, kind, f, norm)->Ok_0.fits(),
    ensures
        ({
            let n = recovery::stepped(m, kind, f, norm)->Ok_0;
            &&& n.wf()
            &&& n.held()
            &&& n.dimension == m.dimension
            &&& n.dtype == m.dtype
            &&& m.fits()
            &&& n.seen(id) == match effect(kind, f, norm) {
                Some((x, v)) => if x == id {
                    Some(v)
                } else {
                    m.seen(id)
                },
                None => m.seen(id),
            }
        }),
{
    let n = recovery::stepped(m, kind, f, norm)->Ok_0;
    match f.op {
        OpModel::Put { id: raw, vector, metadata, content } => {
            let x = document::id_of(kind, raw)->Ok_0;
            let meta = recovery::logged_metadata(metadata)->Ok_0;
            assert(n == m.with(x, vector, norm, meta, content));
            assert(n.rows.len() == m.rows.len() + 1);
            assert(n.arena.len() == m.arena.len() + vector.len());
            memtable_laws::lemma_seen_after_write(m, x, vector, norm, meta, content, id);
        },
        OpModel::Delete { id: raw } => {
            let x = document::id_of(kind, raw)->Ok_0;
            memtable_laws::lemma_seen_after_delete(m, x, id);
        },
        OpModel::Commit { .. } => {},
    }
}

/// The last write wins: after a replay each document is as the last frame about it left it, and a
/// document that no frame is about is as it was.
pub proof fn lemma_last_write_wins(
    m: MemModel,
    kind: IdKind,
    fs: Seq<FrameModel>,
    norms: Seq<u32>,
    id: IdModel,
)
    requires
        m.wf(),
        m.held(),
        recovery::replayed(m, kind, fs, norms) is Ok,
        recovery::replayed(m, kind, fs, norms)->Ok_0.fits(),
    ensures
        ({
            let n = recovery::replayed(m, kind, fs, norms)->Ok_0;
            &&& n.wf()
            &&& n.held()
            &&& n.dimension == m.dimension
            &&& n.dtype == m.dtype
            &&& n.seen(id) == match last_effect(kind, fs, norms, id) {
                Some(v) => Some(v),
                None => m.seen(id),
            }
        }),
    decreases fs.len(),
{
    if fs.len() > 0 {
        let front = fs.drop_last();
        let mid = recovery::replayed(m, kind, front, norms.drop_last())->Ok_0;
        let n = recovery::replayed(m, kind, fs, norms)->Ok_0;
        lemma_step_grows(mid, kind, fs.last(), norms.last());
        lemma_last_write_wins(m, kind, front, norms.drop_last(), id);
        lemma_frame_applied(mid, kind, fs.last(), norms.last(), id);
    }
}

proof fn lemma_step_grows(m: MemModel, kind: IdKind, f: FrameModel, norm: u32)
    requires
        recovery::stepped(m, kind, f, norm) is Ok,
        recovery::stepped(m, kind, f, norm)->Ok_0.fits(),
    ensures
        m.fits(),
{
    match f.op {
        OpModel::Put { id, vector, metadata, content } => {
            let n = recovery::stepped(m, kind, f, norm)->Ok_0;
            assert(n.rows.len() == m.rows.len() + 1);
            assert(n.arena.len() == m.arena.len() + vector.len());
        },
        _ => {},
    }
}

/// A replay leaves the shape of a memtable as it is.
pub proof fn lemma_replay_keeps_shape(
    m: MemModel,
    kind: IdKind,
    fs: Seq<FrameModel>,
    norms: Seq<u32>,
)
    requires
        recovery::replayed(m, kind, fs, norms) is Ok,
    ensures
        recovery::replayed(m, kind, fs, norms)->Ok_0.dimension == m.dimension,
        recovery::replayed(m, kind, fs, norms)->Ok_0.dtype == m.dtype,
{
    lemma_replays_anywhere(m, m, kind, fs, norms);
}

/// Whether frames apply does not depend on what they are applied to.
proof fn lemma_replays_anywhere(
    a: MemModel,
    b: MemModel,
    kind: IdKind,
    fs: Seq<FrameModel>,
    norms: Seq<u32>,
)
    requires
        a.dimension == b.dimension,
        a.dtype == b.dtype,
        recovery::replayed(a, kind, fs, norms) is Ok,
    ensures
        recovery::replayed(b, kind, fs, norms) is Ok,
        recovery::replayed(a, kind, fs, norms)->Ok_0.dimension == a.dimension,
        recovery::replayed(a, kind, fs, norms)->Ok_0.dtype == a.dtype,
        recovery::replayed(b, kind, fs, norms)->Ok_0.dimension == a.dimension,
        recovery::replayed(b, kind, fs, norms)->Ok_0.dtype == a.dtype,
    decreases fs.len(),
{
    if fs.len() > 0 {
        lemma_replays_anywhere(a, b, kind, fs.drop_last(), norms.drop_last());
    }
}

/// Replay is idempotent: applying a log again, to a memtable that it was already applied to,
/// succeeds and changes what is seen of no document.
pub proof fn lemma_replay_is_idempotent(
    m: MemModel,
    kind: IdKind,
    fs: Seq<FrameModel>,
    norms: Seq<u32>,
    id: IdModel,
)
    requires
        m.wf(),
        m.held(),
        recovery::replayed(m, kind, fs, norms) is Ok,
        ({
            let once = recovery::replayed(m, kind, fs, norms)->Ok_0;
            &&& once.fits()
            &&& recovery::replayed(once, kind, fs, norms)->Ok_0.fits()
        }),
    ensures
        ({
            let once = recovery::replayed(m, kind, fs, norms)->Ok_0;
            let twice = recovery::replayed(once, kind, fs, norms);
            &&& twice is Ok
            &&& twice->Ok_0.seen(id) == once.seen(id)
        }),
{
    let once = recovery::replayed(m, kind, fs, norms)->Ok_0;
    lemma_replays_anywhere(m, m, kind, fs, norms);
    lemma_replays_anywhere(m, once, kind, fs, norms);
    lemma_last_write_wins(m, kind, fs, norms, id);
    lemma_last_write_wins(once, kind, fs, norms, id);
}

/// What is committed in a log is every operation that stands alone or whose group has a commit
/// record behind it, in order, and nothing else. Operations are counted without commit records.
pub proof fn lemma_committed_work(fs: Seq<FrameModel>, k: nat)
    requires
        k <= fs.len(),
    ensures
        wal::committed_prefix(fs, k as int) == Seq::new(k, |i: int| i).filter(
            |i: int|
                !(fs[i].op is Commit) && (fs[i].txn_id == 0 || exists|j: int|
                    i < j < fs.len() && (#[trigger] fs[j]).op is Commit && fs[j].txn_id
                        == fs[i].txn_id),
        ).map_values(|i: int| fs[i]),
        recovery::operations(fs) == fs.filter(|f: FrameModel| !(f.op is Commit)).len(),
    decreases k,
{
    lemma_operations(fs);
    lemma_committed_indices(fs, k);
}

proof fn lemma_operations(fs: Seq<FrameModel>)
    ensures
        recovery::operations(fs) == fs.filter(|f: FrameModel| !(f.op is Commit)).len(),
    decreases fs.len(),
{
    reveal(Seq::filter);
    if fs.len() > 0 {
        lemma_operations(fs.drop_last());
    }
}

proof fn lemma_committed_indices(fs: Seq<FrameModel>, k: nat)
    requires
        k <= fs.len(),
    ensures
        wal::committed_prefix(fs, k as int) == Seq::new(k, |i: int| i).filter(
            |i: int|
                !(fs[i].op is Commit) && (fs[i].txn_id == 0 || exists|j: int|
                    i < j < fs.len() && (#[trigger] fs[j]).op is Commit && fs[j].txn_id
                        == fs[i].txn_id),
        ).map_values(|i: int| fs[i]),
    decreases k,
{
    reveal(Seq::filter);
    let p = |i: int|
        !(fs[i].op is Commit) && (fs[i].txn_id == 0 || exists|j: int|
            i < j < fs.len() && (#[trigger] fs[j]).op is Commit && fs[j].txn_id == fs[i].txn_id);
    let all = Seq::new(k, |i: int| i);
    let get = |i: int| fs[i];
    if k > 0 {
        lemma_committed_indices(fs, (k - 1) as nat);
        let front = Seq::new((k - 1) as nat, |i: int| i);
        assert(all.drop_last() =~= front);
        assert(all.last() == k - 1);
        assert(wal::counts(fs, k - 1) == p(k - 1)) by {
            if wal::commit_follows(fs, fs[k - 1].txn_id, k as int) {
                let j = choose|j: int|
                    k <= j < fs.len() && (#[trigger] fs[j]).op is Commit && fs[j].txn_id == fs[k
                        - 1].txn_id;
                assert(k - 1 < j);
            }
            if exists|j: int|
                k - 1 < j < fs.len() && (#[trigger] fs[j]).op is Commit && fs[j].txn_id == fs[k
                    - 1].txn_id {
                let j = choose|j: int|
                    k - 1 < j < fs.len() && (#[trigger] fs[j]).op is Commit && fs[j].txn_id == fs[k
                        - 1].txn_id;
                assert(k <= j);
            }
        }
        if p(k - 1) {
            assert(all.filter(p) == front.filter(p).push(k - 1));
            assert(all.filter(p).map_values(get) =~= front.filter(p).map_values(get).push(
                fs[k - 1],
            ));
        } else {
            assert(all.filter(p) == front.filter(p));
        }
    } else {
        assert(all =~= Seq::<int>::empty());
        assert(all.filter(p).map_values(get) =~= Seq::<FrameModel>::empty());
    }
}

} // verus!
