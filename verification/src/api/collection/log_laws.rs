//! What the log says of a collection: replaying it gives back what was written.
use vstd::prelude::*;

use crate::api::collection::laws;
use crate::api::collection::open;
use crate::api::collection::staging;
use crate::api::collection::staging::ChangeModel;
use crate::document;
use crate::document::{IdKind, IdModel};
use crate::error::ErrorModel;
use crate::format::value;
use crate::format::value::ValueModel;
use crate::format::value_laws;
use crate::format::wal;
use crate::format::wal::{FrameModel, OpModel, WalTail};
use crate::format::wal_laws;
use crate::metadata;
use crate::persistence::recovery;
use crate::persistence::recovery_laws;
use crate::persistence::wal as log;
use crate::persistence::wal::LogModel;
use crate::vector::VectorDType;
use crate::write::memtable::MemModel;

verus! {

/// Whether a change is one that a collection can log and read back: an id of its kind, a vector of
/// its length, and metadata that can be stored.
pub open spec fn recoverable(kind: IdKind, stride: nat, c: ChangeModel) -> bool {
    match c {
        ChangeModel::Put { id, vector, inv_norm, metadata, content } => {
            &&& document::of_kind(id, kind)
            &&& vector.len() == stride
            &&& metadata matches Some(m) ==> value::storable(ValueModel::Object(m), 1)
                && value::encoding(ValueModel::Object(m)).len() <= u64::MAX
        },
        ChangeModel::Delete { id } => document::of_kind(id, kind),
    }
}

/// Whether every change of a list can be logged and read back.
pub open spec fn all_recoverable(kind: IdKind, stride: nat, cs: Seq<ChangeModel>) -> bool {
    forall|i: int| 0 <= i < cs.len() ==> recoverable(kind, stride, #[trigger] cs[i])
}

/// The reciprocal norms of changes.
pub open spec fn change_norms(cs: Seq<ChangeModel>) -> Seq<u32> {
    cs.map_values(
        |c: ChangeModel|
            match c {
                ChangeModel::Put { inv_norm, .. } => inv_norm,
                ChangeModel::Delete { .. } => 0u32,
            },
    )
}

/// Whether a memtable shows what replaying frames into an empty one would.
pub open spec fn agrees(m: MemModel, kind: IdKind, fs: Seq<FrameModel>, norms: Seq<u32>) -> bool {
    let empty = MemModel::empty(m.dimension, m.dtype);
    &&& norms.len() == fs.len()
    &&& recovery::replayed(empty, kind, fs, norms) is Ok
    &&& forall|id: IdModel| #[trigger]
        recovery::replayed(empty, kind, fs, norms)->Ok_0.seen(id) == m.seen(id)
}

proof fn lemma_metadata_back(m: Option<Seq<(Seq<char>, ValueModel)>>)
    requires
        m matches Some(f) ==> value::storable(ValueModel::Object(f), 1) && value::encoding(
            ValueModel::Object(f),
        ).len() <= u64::MAX,
    ensures
        recovery::logged_metadata(staging::logged(m)) == Ok::<
            Option<Seq<(Seq<char>, ValueModel)>>,
            ErrorModel,
        >(m),
{
    if let Some(f) = m {
        let v = ValueModel::Object(f);
        value_laws::lemma_written_of_storable(v, 1, 0);
        value_laws::lemma_value_round_trip(v);
        value_laws::lemma_encoding_nonempty(v);
    }
}

/// A logged change does what the change does.
proof fn lemma_frame_is_change(
    n: MemModel,
    kind: IdKind,
    c: ChangeModel,
    sequence: u64,
    txn_id: u64,
    norm: u32,
)
    requires
        recoverable(kind, n.dtype.stride(n.dimension), c),
        c matches ChangeModel::Put { inv_norm, .. } ==> norm == inv_norm,
    ensures
        recovery::stepped(
            n,
            kind,
            FrameModel { sequence, txn_id, op: staging::change_op(c) },
            norm,
        ) == Ok::<MemModel, ErrorModel>(staging::changed(n, c)),
{
    match c {
        ChangeModel::Put { id, vector, inv_norm, metadata, content } => {
            document::lemma_id_round_trip(id, kind);
            lemma_metadata_back(metadata);
        },
        ChangeModel::Delete { id } => {
            document::lemma_id_round_trip(id, kind);
        },
    }
}

/// Replaying frames behind others is replaying them into what the others made.
proof fn lemma_replay_joined(
    m: MemModel,
    kind: IdKind,
    a: Seq<FrameModel>,
    na: Seq<u32>,
    b: Seq<FrameModel>,
    nb: Seq<u32>,
)
    requires
        na.len() == a.len(),
        nb.len() == b.len(),
        recovery::replayed(m, kind, a, na) is Ok,
    ensures
        recovery::replayed(m, kind, a + b, na + nb) == recovery::replayed(
            recovery::replayed(m, kind, a, na)->Ok_0,
            kind,
            b,
            nb,
        ),
    decreases b.len(),
{
    if b.len() == 0 {
        assert(a + b =~= a);
        assert(na + nb =~= na);
    } else {
        lemma_replay_joined(m, kind, a, na, b.drop_last(), nb.drop_last());
        assert((a + b).drop_last() =~= a + b.drop_last());
        assert((na + nb).drop_last() =~= na + nb.drop_last());
        assert((a + b).last() == b.last());
        assert((na + nb).last() == nb.last());
    }
}

/// The frames of changes, numbered from `sequence`.
pub open spec fn frames_of(cs: Seq<ChangeModel>, sequence: u64, txn_id: u64) -> Seq<FrameModel> {
    log::member_frames(staging::change_ops(cs), sequence, txn_id)
}

proof fn lemma_replay_changes(
    n: MemModel,
    kind: IdKind,
    cs: Seq<ChangeModel>,
    sequence: u64,
    txn_id: u64,
)
    requires
        all_recoverable(kind, n.dtype.stride(n.dimension), cs),
    ensures
        recovery::replayed(n, kind, frames_of(cs, sequence, txn_id), change_norms(cs)) == Ok::<
            MemModel,
            (ErrorModel, MemModel),
        >(staging::applied(n, cs)),
        staging::applied(n, cs).dimension == n.dimension,
        staging::applied(n, cs).dtype == n.dtype,
    decreases cs.len(),
{
    let fs = frames_of(cs, sequence, txn_id);
    let norms = change_norms(cs);
    if cs.len() > 0 {
        let front = cs.drop_last();
        assert forall|i: int| 0 <= i < front.len() implies recoverable(
            kind,
            n.dtype.stride(n.dimension),
            #[trigger] front[i],
        ) by {
            assert(front[i] == cs[i]);
        }
        lemma_replay_changes(n, kind, front, sequence, txn_id);
        assert(fs.drop_last() =~= frames_of(front, sequence, txn_id));
        assert(norms.drop_last() =~= change_norms(front));
        let c = cs.last();
        assert(cs[cs.len() - 1] == c);
        let mid = staging::applied(n, front);
        lemma_frame_is_change(mid, kind, c, fs.last().sequence, txn_id, norms.last());
        assert(fs.last() == (FrameModel {
            sequence: fs.last().sequence,
            txn_id,
            op: staging::change_op(c),
        }));
    }
}

/// What a list of changes leaves depends only on what was seen before.
proof fn lemma_same_changes(a: MemModel, b: MemModel, cs: Seq<ChangeModel>, id: IdModel)
    requires
        a.wf(),
        a.held(),
        b.wf(),
        b.held(),
        a.dimension == b.dimension,
        a.dtype == b.dtype,
        staging::sized(cs, a.dtype.stride(a.dimension)),
        staging::applied(a, cs).fits(),
        staging::applied(b, cs).fits(),
        a.seen(id) == b.seen(id),
    ensures
        staging::applied(a, cs).seen(id) == staging::applied(b, cs).seen(id),
{
    laws::lemma_changes_seen(a, cs, id);
    laws::lemma_changes_seen(b, cs, id);
}

/// Changes that are applied and logged leave the memtable showing what a replay of the log would:
/// applying them to a memtable that agrees with the frames before gives one that agrees with the
/// frames after.
pub proof fn lemma_logged_changes_agree(
    m: MemModel,
    kind: IdKind,
    before: Seq<FrameModel>,
    norms: Seq<u32>,
    cs: Seq<ChangeModel>,
    sequence: u64,
    txn_id: u64,
)
    requires
        m.wf(),
        m.held(),
        agrees(m, kind, before, norms),
        all_recoverable(kind, m.dtype.stride(m.dimension), cs),
        staging::applied(m, cs).fits(),
        recovery::replayed(
            MemModel::empty(m.dimension, m.dtype),
            kind,
            before + frames_of(cs, sequence, txn_id),
            norms + change_norms(cs),
        )->Ok_0.fits(),
    ensures
        agrees(
            staging::applied(m, cs),
            kind,
            before + frames_of(cs, sequence, txn_id),
            norms + change_norms(cs),
        ),
{
    let empty = MemModel::empty(m.dimension, m.dtype);
    let n = recovery::replayed(empty, kind, before, norms)->Ok_0;
    let more = frames_of(cs, sequence, txn_id);
    let with = change_norms(cs);
    recovery_laws::lemma_replay_keeps_shape(empty, kind, before, norms);
    lemma_replay_joined(empty, kind, before, norms, more, with);
    lemma_replay_changes(n, kind, cs, sequence, txn_id);
    lemma_replay_changes(m, kind, cs, sequence, txn_id);
    let after = staging::applied(n, cs);
    assert(recovery::replayed(empty, kind, before + more, norms + with) == Ok::<
        MemModel,
        (ErrorModel, MemModel),
    >(after));
    assert(staging::sized(cs, m.dtype.stride(m.dimension))) by {
        assert forall|i: int| 0 <= i < cs.len() implies match #[trigger] cs[i] {
            ChangeModel::Put { vector, .. } => vector.len() == m.dtype.stride(m.dimension),
            ChangeModel::Delete { .. } => true,
        } by {
            assert(recoverable(kind, m.dtype.stride(m.dimension), cs[i]));
        }
    }
    lemma_empty_is_sound(m.dimension, m.dtype);
    lemma_applied_grows(n, cs);
    assert forall|id: IdModel| #[trigger] after.seen(id) == staging::applied(m, cs).seen(id) by {
        recovery_laws::lemma_last_write_wins(empty, kind, before, norms, id);
        lemma_same_changes(n, m, cs, id);
    }
}

proof fn lemma_empty_is_sound(dimension: u32, dtype: VectorDType)
    ensures
        MemModel::empty(dimension, dtype).wf(),
        MemModel::empty(dimension, dtype).held(),
        MemModel::empty(dimension, dtype).fits(),
{
    let m = MemModel::empty(dimension, dtype);
    assert(m.live() =~= Seq::empty());
}

proof fn lemma_applied_grows(m: MemModel, cs: Seq<ChangeModel>)
    requires
        staging::applied(m, cs).fits(),
    ensures
        m.fits(),
    decreases cs.len(),
{
    if cs.len() > 0 {
        let front = cs.drop_last();
        let mid = staging::applied(m, front);
        let n = staging::applied(m, cs);
        match cs.last() {
            ChangeModel::Put { id, vector, inv_norm, metadata, content } => {
                assert(n.rows.len() == mid.rows.len() + 1);
                assert(n.arena.len() == mid.arena.len() + vector.len());
            },
            ChangeModel::Delete { id } => {},
        }
        lemma_applied_grows(m, front);
    }
}

/// The operations of a log that belong to committed work.
pub open spec fn committed(fs: Seq<FrameModel>) -> Seq<FrameModel> {
    wal::committed_prefix(fs, fs.len() as int)
}

/// Whether frames are standalone, or of groups numbered from `txn_id` on.
pub open spec fn numbered_from(fs: Seq<FrameModel>, txn_id: u64) -> bool {
    forall|i: int|
        0 <= i < fs.len() ==> (#[trigger] fs[i]).txn_id == 0 || fs[i].txn_id >= txn_id
}

/// A standalone operation leaves the numbering of a log's groups as it is.
pub proof fn lemma_standalone_keeps_numbering(fs: Seq<FrameModel>, f: FrameModel, log: LogModel)
    requires
        open::is_numbered(fs, log),
        f.txn_id == 0,
    ensures
        open::is_numbered(fs.push(f), log),
        numbered_from(seq![f], log.next_txn),
{
    let all = fs.push(f);
    if log.next_txn != u64::MAX {
        assert forall|i: int| 0 <= i < all.len() implies (#[trigger] all[i]).txn_id
            < log.next_txn by {
            if i < fs.len() {
                assert(all[i] == fs[i]);
            }
        }
    }
}

/// A group takes the next number, and the one after it is then the next, whatever part of the
/// group reached the log.
pub proof fn lemma_group_keeps_numbering(
    fs: Seq<FrameModel>,
    ops: Seq<OpModel>,
    sequence: u64,
    k: int,
    log: LogModel,
)
    requires
        open::is_numbered(fs, log),
        log.next_txn < u64::MAX,
        0 <= k <= ops.len() + 1,
    ensures
        ({
            let group = log::group_frames(ops, sequence, log.next_txn);
            let next = LogModel { next_txn: (log.next_txn + 1) as u64, ..log };
            &&& open::is_numbered(fs + group.take(k), next)
            &&& numbered_from(group, log.next_txn)
        }),
{
    let group = log::group_frames(ops, sequence, log.next_txn);
    let all = fs + group.take(k);
    let next = (log.next_txn + 1) as u64;
    assert forall|i: int| 0 <= i < all.len() implies (#[trigger] all[i]).txn_id < next by {
        if i < fs.len() {
            assert(all[i] == fs[i]);
        } else {
            assert(all[i] == group[i - fs.len()]);
        }
    }
}

/// What is committed in a log stays so, and nothing more of it becomes committed, whatever groups
/// with higher numbers follow.
pub proof fn lemma_committed_apart(fs: Seq<FrameModel>, later: Seq<FrameModel>, next: u64)
    requires
        log::ids_below(fs, next),
        numbered_from(later, next),
    ensures
        committed(fs + later) == committed(fs) + committed(later),
{
    let all = fs + later;
    let n = fs.len() as int;
    assert forall|i: int| 0 <= i < n implies wal::counts(all, i) == wal::counts(fs, i) by {
        assert(all[i] == fs[i]);
        let txn = fs[i].txn_id;
        if wal::commit_follows(fs, txn, i + 1) {
            let j = choose|j: int|
                i + 1 <= j < fs.len() && (#[trigger] fs[j]).op is Commit && fs[j].txn_id == txn;
            assert(all[j] == fs[j]);
        }
        if txn != 0 && wal::commit_follows(all, txn, i + 1) {
            let j = choose|j: int|
                i + 1 <= j < all.len() && (#[trigger] all[j]).op is Commit && all[j].txn_id == txn;
            if j >= n {
                assert(all[j] == later[j - n]);
            }
            assert(fs[j] == all[j]);
        }
    }
    lemma_committed_same(fs, all, n);
    lemma_committed_behind(fs, later, later.len());
}

proof fn lemma_committed_behind(fs: Seq<FrameModel>, later: Seq<FrameModel>, k: nat)
    requires
        k <= later.len(),
    ensures
        ({
            let all = fs + later;
            wal::committed_prefix(all, (fs.len() + k) as int) == wal::committed_prefix(
                all,
                fs.len() as int,
            ) + wal::committed_prefix(later, k as int)
        }),
    decreases k,
{
    let all = fs + later;
    let n = fs.len() as int;
    let front = wal::committed_prefix(all, n);
    if k == 0 {
        assert(front + wal::committed_prefix(later, 0) =~= front);
    } else {
        lemma_committed_behind(fs, later, (k - 1) as nat);
        let i = n + k - 1;
        let txn = later[k - 1].txn_id;
        assert(all[i] == later[k - 1]);
        if wal::commit_follows(all, txn, i + 1) {
            let j = choose|j: int|
                i + 1 <= j < all.len() && (#[trigger] all[j]).op is Commit && all[j].txn_id == txn;
            assert(later[j - n] == all[j]);
        }
        if wal::commit_follows(later, txn, k as int) {
            let j = choose|j: int|
                k <= j < later.len() && (#[trigger] later[j]).op is Commit && later[j].txn_id
                    == txn;
            assert(all[n + j] == later[j]);
        }
        assert(wal::counts(all, i) == wal::counts(later, k - 1));
        let tail = wal::committed_prefix(later, k - 1);
        if wal::counts(later, k - 1) {
            assert((front + tail).push(all[i]) =~= front + tail.push(later[k - 1]));
        }
    }
}

/// What an interrupted batch left in the log stays without a trace, whatever is written later: no
/// later batch commits any of it.
///
/// `torn` is the part of the batch that reached the log, and `next` the number of the next group
/// when the log is opened again.
pub proof fn lemma_torn_batch_stays_without_a_trace(
    fs: Seq<FrameModel>,
    torn: Seq<FrameModel>,
    later: Seq<FrameModel>,
    next: u64,
)
    requires
        forall|i: int|
            0 <= i < torn.len() ==> (#[trigger] torn[i]).txn_id != 0 && !(torn[i].op is Commit),
        log::ids_below(fs + torn, next),
        numbered_from(later, next),
    ensures
        committed(fs + torn + later) == committed(fs) + committed(later),
{
    let before = fs + torn;
    lemma_committed_apart(before, later, next);
    assert forall|i: int| 0 <= i < fs.len() implies wal::counts(before, i) == wal::counts(
        fs,
        i,
    ) by {
        lemma_commit_follows_same(fs, torn, i);
    }
    lemma_committed_same(fs, before, fs.len() as int);
    assert forall|i: int| fs.len() <= i < before.len() implies !(#[trigger] wal::counts(
        before,
        i,
    )) by {
        assert(before[i] == torn[i - fs.len()]);
        assert forall|j: int| i + 1 <= j < before.len() implies !((
        #[trigger] before[j]).op is Commit) by {
            assert(before[j] == torn[j - fs.len()]);
        }
    }
    lemma_uncounted_tail(before, fs.len() as int, before.len() as int);
}

/// A standalone operation appended to a log counts, and changes nothing about what came before.
pub proof fn lemma_standalone_is_committed(fs: Seq<FrameModel>, f: FrameModel)
    requires
        f.txn_id == 0,
        !(f.op is Commit),
    ensures
        ({
            let all = fs.push(f);
            wal::committed_prefix(all, all.len() as int) == committed(fs).push(f)
        }),
{
    let all = fs.push(f);
    let n = fs.len() as int;
    assert(wal::counts(all, n));
    assert forall|i: int| 0 <= i < n implies wal::counts(all, i) == wal::counts(fs, i) by {
        lemma_commit_follows_same(fs, seq![f], i);
        assert(fs + seq![f] =~= all);
    }
    lemma_committed_same(fs, all, n);
}

/// Behind frames without a commit record, the same operations count.
proof fn lemma_commit_follows_same(fs: Seq<FrameModel>, more: Seq<FrameModel>, i: int)
    requires
        0 <= i < fs.len(),
        forall|j: int| 0 <= j < more.len() ==> !((#[trigger] more[j]).op is Commit),
    ensures
        wal::counts(fs + more, i) == wal::counts(fs, i),
{
    let all = fs + more;
    let txn = fs[i].txn_id;
    assert(all[i] == fs[i]);
    if wal::commit_follows(all, txn, i + 1) {
        let j = choose|j: int|
            i + 1 <= j < all.len() && (#[trigger] all[j]).op is Commit && all[j].txn_id == txn;
        if j >= fs.len() {
            assert(all[j] == more[j - fs.len()]);
        }
        assert(fs[j] == all[j]);
    }
    if wal::commit_follows(fs, txn, i + 1) {
        let j = choose|j: int|
            i + 1 <= j < fs.len() && (#[trigger] fs[j]).op is Commit && fs[j].txn_id == txn;
        assert(all[j] == fs[j]);
    }
}

proof fn lemma_committed_same(fs: Seq<FrameModel>, all: Seq<FrameModel>, k: int)
    requires
        0 <= k <= fs.len() <= all.len(),
        forall|i: int| 0 <= i < k ==> #[trigger] all[i] == fs[i],
        forall|i: int| 0 <= i < k ==> wal::counts(all, i) == wal::counts(fs, i),
    ensures
        wal::committed_prefix(all, k) == wal::committed_prefix(fs, k),
    decreases k,
{
    if k > 0 {
        lemma_committed_same(fs, all, k - 1);
        assert(all[k - 1] == fs[k - 1]);
        assert(wal::counts(all, k - 1) == wal::counts(fs, k - 1));
    }
}

/// A whole group appended to a log counts, every operation of it, and changes nothing about what
/// came before.
pub proof fn lemma_group_is_committed(
    fs: Seq<FrameModel>,
    ops: Seq<OpModel>,
    sequence: u64,
    txn_id: u64,
)
    requires
        log::ids_below(fs, txn_id),
        forall|i: int| 0 <= i < ops.len() ==> !(#[trigger] ops[i] is Commit),
    ensures
        ({
            let all = fs + log::group_frames(ops, sequence, txn_id);
            wal::committed_prefix(all, all.len() as int) == committed(fs) + log::member_frames(ops, sequence, txn_id)
        }),
{
    let group = log::group_frames(ops, sequence, txn_id);
    let members = log::member_frames(ops, sequence, txn_id);
    let all = fs + group;
    let n = fs.len() as int;
    let at = n + ops.len();
    assert(all[at] == group[ops.len() as int]);
    assert(all[at].op is Commit);
    assert forall|i: int| 0 <= i < n implies wal::counts(all, i) == wal::counts(fs, i) by {
        assert(all[i] == fs[i]);
        let txn = fs[i].txn_id;
        if wal::commit_follows(fs, txn, i + 1) {
            let j = choose|j: int|
                i + 1 <= j < fs.len() && (#[trigger] fs[j]).op is Commit && fs[j].txn_id == txn;
            assert(all[j] == fs[j]);
        }
        if wal::commit_follows(all, txn, i + 1) {
            let j = choose|j: int|
                i + 1 <= j < all.len() && (#[trigger] all[j]).op is Commit && all[j].txn_id == txn;
            if j >= n {
                assert(all[j] == group[j - n]);
                assert(group[j - n].txn_id == txn_id);
            }
            assert(fs[j] == all[j]);
        }
    }
    lemma_committed_same(fs, all, n);
    lemma_members_counted(fs, ops, sequence, txn_id, ops.len());
    assert(!wal::counts(all, at));
    assert(members.take(ops.len() as int) =~= members);
    assert(all.len() == at + 1);
}

proof fn lemma_members_counted(
    fs: Seq<FrameModel>,
    ops: Seq<OpModel>,
    sequence: u64,
    txn_id: u64,
    k: nat,
)
    requires
        k <= ops.len(),
        forall|i: int| 0 <= i < ops.len() ==> !(#[trigger] ops[i] is Commit),
    ensures
        ({
            let all = fs + log::group_frames(ops, sequence, txn_id);
            wal::committed_prefix(all, (fs.len() + k) as int) == wal::committed_prefix(all, fs.len() as int)
                + log::member_frames(ops, sequence, txn_id).take(k as int)
        }),
    decreases k,
{
    let group = log::group_frames(ops, sequence, txn_id);
    let members = log::member_frames(ops, sequence, txn_id);
    let all = fs + group;
    if k == 0 {
        assert(members.take(0) =~= Seq::<FrameModel>::empty());
        assert(wal::committed_prefix(all, fs.len() as int) + members.take(0)
            =~= wal::committed_prefix(all, fs.len() as int));
    } else {
        lemma_members_counted(fs, ops, sequence, txn_id, (k - 1) as nat);
        let i = fs.len() + k - 1;
        assert(all[i] == group[k - 1]);
        assert(group[k - 1] == members[k - 1]);
        assert(ops[k - 1] == members[k - 1].op);
        log::lemma_whole_group_counts(fs, ops, sequence, txn_id, Seq::empty(), k - 1);
        assert(fs + group + Seq::<FrameModel>::empty() =~= all);
        assert(members.take(k as int) =~= members.take(k - 1).push(members[k - 1]));
        assert(wal::committed_prefix(all, fs.len() as int) + members.take(k as int) =~= (
        wal::committed_prefix(all, fs.len() as int) + members.take(k - 1)).push(members[k - 1]));
    }
}

/// What a write appends to a log is what a later scan of it reads back, behind what was there.
pub proof fn lemma_append_is_scanned(fs: Seq<FrameModel>, more: Seq<FrameModel>)
    requires
        wal_laws::all_fit(fs),
        wal_laws::all_fit(more),
        wal_laws::log_bytes(fs).len() + wal_laws::log_bytes(more).len() <= u64::MAX,
    ensures
        ({
            let b = wal_laws::log_bytes(fs) + wal_laws::log_bytes(more);
            wal::scanned(b, 0) == (fs + more, WalTail::Clean, b.len() as int)
        }),
{
    wal_laws::lemma_log_split(fs, more);
    assert(wal_laws::all_fit(fs + more)) by {
        assert forall|i: int| 0 <= i < (fs + more).len() implies wal::frame_fits(
            #[trigger] (fs + more)[i],
        ) by {
            if i >= fs.len() {
                assert((fs + more)[i] == more[i - fs.len()]);
            }
        }
    }
    wal_laws::lemma_log_round_trip(fs + more);
}

/// A write that was logged and applied survives a reopen: replaying the log with its frame at the
/// end shows every document as the memtable does.
pub proof fn lemma_write_survives_reopen(
    m: MemModel,
    kind: IdKind,
    fs: Seq<FrameModel>,
    norms: Seq<u32>,
    c: ChangeModel,
    sequence: u64,
)
    requires
        m.wf(),
        m.held(),
        wal_laws::all_fit(fs),
        agrees(m, kind, committed(fs), norms),
        recoverable(kind, m.dtype.stride(m.dimension), c),
        ({
            let f = FrameModel { sequence, txn_id: 0, op: staging::change_op(c) };
            &&& wal::frame_fits(f)
            &&& wal_laws::log_bytes(fs).len() + wal::frame_bytes(f).len() <= u64::MAX
            &&& staging::changed(m, c).fits()
            &&& recovery::replayed(
                MemModel::empty(m.dimension, m.dtype),
                kind,
                committed(fs).push(f),
                norms + change_norms(seq![c]),
            )->Ok_0.fits()
        }),
    ensures
        ({
            let f = FrameModel { sequence, txn_id: 0, op: staging::change_op(c) };
            let b = wal_laws::log_bytes(fs) + wal::frame_bytes(f);
            &&& !(wal::scanned(b, 0).1 is Corrupt)
            &&& agrees(
                staging::changed(m, c),
                kind,
                recovery::committed_frames(b),
                norms + change_norms(seq![c]),
            )
        }),
{
    let f = FrameModel { sequence, txn_id: 0, op: staging::change_op(c) };
    let before = committed(fs);
    let cs = seq![c];
    assert(cs.drop_last() =~= Seq::<ChangeModel>::empty());
    assert(cs.last() == c);
    assert(staging::applied(m, cs.drop_last()) == m);
    assert(staging::applied(m, cs) == staging::changed(m, c));
    assert(frames_of(cs, sequence, 0) =~= seq![f]);
    assert(before + seq![f] =~= before.push(f));
    assert(fs + seq![f] =~= fs.push(f));
    wal_laws::lemma_log_one(f);
    lemma_append_is_scanned(fs, seq![f]);
    lemma_standalone_is_committed(fs, f);
    lemma_logged_changes_agree(m, kind, before, norms, cs, sequence, 0);
}

/// A batch that was logged and applied survives a reopen, all of it.
pub proof fn lemma_batch_survives_reopen(
    m: MemModel,
    kind: IdKind,
    fs: Seq<FrameModel>,
    norms: Seq<u32>,
    cs: Seq<ChangeModel>,
    sequence: u64,
    txn_id: u64,
)
    requires
        m.wf(),
        m.held(),
        wal_laws::all_fit(fs),
        log::ids_below(fs, txn_id),
        agrees(m, kind, committed(fs), norms),
        all_recoverable(kind, m.dtype.stride(m.dimension), cs),
        ({
            let group = log::group_frames(staging::change_ops(cs), sequence, txn_id);
            &&& wal_laws::all_fit(group)
            &&& wal_laws::log_bytes(fs).len() + wal_laws::log_bytes(group).len() <= u64::MAX
            &&& staging::applied(m, cs).fits()
            &&& recovery::replayed(
                MemModel::empty(m.dimension, m.dtype),
                kind,
                committed(fs) + frames_of(cs, sequence, txn_id),
                norms + change_norms(cs),
            )->Ok_0.fits()
        }),
    ensures
        ({
            let group = log::group_frames(staging::change_ops(cs), sequence, txn_id);
            let b = wal_laws::log_bytes(fs) + wal_laws::log_bytes(group);
            &&& !(wal::scanned(b, 0).1 is Corrupt)
            &&& agrees(
                staging::applied(m, cs),
                kind,
                recovery::committed_frames(b),
                norms + change_norms(cs),
            )
        }),
{
    let ops = staging::change_ops(cs);
    let group = log::group_frames(ops, sequence, txn_id);
    let before = committed(fs);
    assert forall|i: int| 0 <= i < ops.len() implies !(#[trigger] ops[i] is Commit) by {
        assert(ops[i] == staging::change_op(cs[i]));
    }
    lemma_append_is_scanned(fs, group);
    lemma_group_is_committed(fs, ops, sequence, txn_id);
    lemma_logged_changes_agree(m, kind, before, norms, cs, sequence, txn_id);
}

/// A batch whose append was cut short by a crash leaves no trace: what a reopen replays is what
/// was there before it.
pub proof fn lemma_torn_batch_leaves_no_trace(
    fs: Seq<FrameModel>,
    ops: Seq<OpModel>,
    sequence: u64,
    txn_id: u64,
    n: int,
)
    requires
        ({
            let group = log::group_frames(ops, sequence, txn_id);
            &&& wal_laws::all_fit(fs)
            &&& wal_laws::all_fit(group)
            &&& 0 <= n < wal_laws::log_bytes(group).len()
            &&& wal_laws::log_bytes(fs).len() + wal_laws::log_bytes(group).len() <= u64::MAX
        }),
        txn_id != 0,
        forall|i: int| 0 <= i < ops.len() ==> !(#[trigger] ops[i] is Commit),
    ensures
        ({
            let group = log::group_frames(ops, sequence, txn_id);
            let b = wal_laws::log_bytes(fs) + wal_laws::log_bytes(group).take(n);
            &&& !(wal::scanned(b, 0).1 is Corrupt)
            &&& recovery::committed_frames(b) == committed(fs)
        }),
{
    let group = log::group_frames(ops, sequence, txn_id);
    let b = wal_laws::log_bytes(fs) + wal_laws::log_bytes(group).take(n);
    let k = log::lemma_torn_group_is_discarded(fs, ops, sequence, txn_id, n);
    let all = wal::scanned(b, 0).0;
    let head = group.take(k);
    assert(all == fs + head);
    assert forall|j: int| 0 <= j < head.len() implies !((#[trigger] head[j]).op is Commit) by {
        assert(head[j] == group[j]);
        assert(ops[j] == group[j].op);
    }
    assert forall|i: int| 0 <= i < fs.len() implies wal::counts(all, i) == wal::counts(fs, i) by {
        lemma_commit_follows_same(fs, head, i);
    }
    lemma_committed_same(fs, all, fs.len() as int);
    lemma_uncounted_tail(all, fs.len() as int, all.len() as int);
}

/// A batch whose append was cut short by a crash never comes back: with the log cut at the end of
/// its last whole frame, as a reopen cuts it, and then written to by groups with higher numbers,
/// what is replayed is what was there before the batch and what was written after the crash.
pub proof fn lemma_torn_batch_never_comes_back(
    fs: Seq<FrameModel>,
    ops: Seq<OpModel>,
    sequence: u64,
    txn_id: u64,
    n: int,
    later: Seq<FrameModel>,
    next: u64,
)
    requires
        ({
            let group = log::group_frames(ops, sequence, txn_id);
            let b = wal_laws::log_bytes(fs) + wal_laws::log_bytes(group).take(n);
            &&& wal_laws::all_fit(fs)
            &&& wal_laws::all_fit(group)
            &&& wal_laws::all_fit(later)
            &&& 0 <= n < wal_laws::log_bytes(group).len()
            &&& wal_laws::log_bytes(fs).len() + wal_laws::log_bytes(group).len()
                + wal_laws::log_bytes(later).len() <= u64::MAX
            &&& log::ids_below(wal::scanned(b, 0).0, next)
        }),
        txn_id != 0,
        forall|i: int| 0 <= i < ops.len() ==> !(#[trigger] ops[i] is Commit),
        numbered_from(later, next),
    ensures
        ({
            let group = log::group_frames(ops, sequence, txn_id);
            let b = wal_laws::log_bytes(fs) + wal_laws::log_bytes(group).take(n);
            let end = wal::scanned(b, 0).2;
            let c = b.take(end) + wal_laws::log_bytes(later);
            &&& !(wal::scanned(c, 0).1 is Corrupt)
            &&& recovery::committed_frames(c) == committed(fs) + committed(later)
        }),
{
    let group = log::group_frames(ops, sequence, txn_id);
    let b = wal_laws::log_bytes(fs) + wal_laws::log_bytes(group).take(n);
    let k = log::lemma_torn_group_is_discarded(fs, ops, sequence, txn_id, n);
    let torn = group.take(k);
    let whole = fs + torn;
    assert forall|i: int| 0 <= i < torn.len() implies (#[trigger] torn[i]).txn_id != 0 && !(
    torn[i].op is Commit) by {
        assert(torn[i] == group[i]);
        assert(ops[i] == group[i].op);
    }
    lemma_append_is_scanned(whole, later);
    lemma_torn_batch_stays_without_a_trace(fs, torn, later, next);
}

proof fn lemma_uncounted_tail(fs: Seq<FrameModel>, from: int, k: int)
    requires
        0 <= from <= k <= fs.len(),
        forall|i: int| from <= i < fs.len() ==> !(#[trigger] wal::counts(fs, i)),
    ensures
        wal::committed_prefix(fs, k) == wal::committed_prefix(fs, from),
    decreases k,
{
    if k > from {
        lemma_uncounted_tail(fs, from, k - 1);
        assert(!wal::counts(fs, k - 1));
    }
}

} // verus!
