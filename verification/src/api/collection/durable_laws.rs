//! What the log keeps of a collection: whatever was written is there after a crash, and whatever
//! was not wholly written is not, for as long as the collection lives.
//!
//! A collection is durable with a log where replaying the log shows what the collection has
//! buffered. Every write, every flush and every reopen leaves it so, and a reopen shows every
//! document as it was.
use vstd::prelude::*;

use crate::api::batch::BatchModel;
use crate::api::collection::crash_laws;
use crate::api::collection::lifetime_laws;
use crate::api::collection::log_laws;
use crate::api::collection::open;
use crate::api::collection::staging;
use crate::api::collection::staging::ChangeModel;
use crate::api::collection::CollModel;
use crate::document::IdModel;
use crate::format::wal;
use crate::format::wal::{FrameModel, OpModel};
use crate::format::wal_laws;
use crate::persistence::flush::SegmentImage;
use crate::persistence::recovery;
use crate::persistence::segment::{SegmentFiles, SegmentModel};
use crate::persistence::wal as log;
use crate::persistence::wal::LogModel;
use crate::vector::VectorDType;
use crate::write::memtable::MemModel;

verus! {

/// Whether a collection's log is made of these frames, and replaying them shows what is buffered.
///
/// `norms` are the reciprocal norms of the committed operations' vectors.
pub open spec fn durable(c: CollModel, fs: Seq<FrameModel>, norms: Seq<u32>) -> bool {
    &&& lifetime_laws::sound(c)
    &&& open::is_numbered(fs, c.log)
    &&& wal_laws::all_fit(fs)
    &&& wal_laws::log_bytes(fs).len() == c.log.bytes
    &&& log_laws::agrees(c.memtable, c.catalog.id_kind, log_laws::committed(fs), norms)
}

/// Whether what a replay of frames makes fits into memory.
pub open spec fn replay_fits(c: CollModel, fs: Seq<FrameModel>, norms: Seq<u32>) -> bool {
    recovery::replayed(
        MemModel::empty(c.memtable.dimension, c.memtable.dtype),
        c.catalog.id_kind,
        log_laws::committed(fs),
        norms,
    )->Ok_0.fits()
}

/// A collection that holds nothing is durable with an empty log.
pub proof fn lemma_empty_is_durable(c: CollModel)
    requires
        lifetime_laws::sound(c),
        c.memtable == MemModel::empty(c.catalog.dimension, VectorDType::F32),
        c.log.bytes == 0,
    ensures
        durable(c, Seq::empty(), Seq::empty()),
{
    let fs = Seq::<FrameModel>::empty();
    assert(log_laws::committed(fs) == fs);
    assert(wal_laws::log_bytes(fs).len() == 0);
}

/// A write that landed in the log and was applied stays durable.
pub proof fn lemma_write_is_durable(
    c: CollModel,
    fs: Seq<FrameModel>,
    norms: Seq<u32>,
    change: ChangeModel,
    d: CollModel,
)
    requires
        durable(c, fs, norms),
        log_laws::recoverable(
            c.catalog.id_kind,
            VectorDType::F32.stride(c.catalog.dimension),
            change,
        ),
        wal::frame_fits(staging::standalone(c, change)),
        c.log.bytes + wal::frame_bytes(staging::standalone(c, change)).len() <= u64::MAX,
        d == (CollModel {
            memtable: staging::applied(c.memtable, seq![change]),
            log: LogModel {
                next_sequence: d.log.next_sequence,
                bytes: (c.log.bytes + wal::frame_bytes(
                    staging::standalone(c, change),
                ).len()) as u64,
                unsynced: d.log.unsynced,
                ..c.log
            },
            ..c
        }),
        d.memtable.fits(),
        replay_fits(
            d,
            fs.push(staging::standalone(c, change)),
            norms + log_laws::change_norms(seq![change]),
        ),
    ensures
        durable(
            d,
            fs.push(staging::standalone(c, change)),
            norms + log_laws::change_norms(seq![change]),
        ),
{
    let f = staging::standalone(c, change);
    let cs = seq![change];
    let kind = c.catalog.id_kind;
    let stride = VectorDType::F32.stride(c.catalog.dimension);
    assert(log_laws::all_recoverable(kind, stride, cs));
    lifetime_laws::lemma_write_keeps_sound(c, cs);
    log_laws::lemma_standalone_keeps_numbering(fs, f, c.log);
    log_laws::lemma_standalone_is_committed(fs, f);
    wal_laws::lemma_log_one(f);
    wal_laws::lemma_log_split(fs, seq![f]);
    assert(fs + seq![f] =~= fs.push(f));
    let before = log_laws::committed(fs);
    assert(log_laws::frames_of(cs, c.log.next_sequence, 0) =~= seq![f]);
    assert(before + seq![f] =~= before.push(f));
    log_laws::lemma_logged_changes_agree(
        c.memtable,
        kind,
        before,
        norms,
        cs,
        c.log.next_sequence,
        0,
    );
}

/// A batch that landed in the log and was applied stays durable, all of it.
pub proof fn lemma_batch_is_durable(
    c: CollModel,
    fs: Seq<FrameModel>,
    norms: Seq<u32>,
    cs: Seq<ChangeModel>,
    d: CollModel,
)
    requires
        durable(c, fs, norms),
        c.log.next_txn < u64::MAX,
        log_laws::all_recoverable(
            c.catalog.id_kind,
            VectorDType::F32.stride(c.catalog.dimension),
            cs,
        ),
        ({
            let group = log::group_frames(
                staging::change_ops(cs),
                c.log.next_sequence,
                c.log.next_txn,
            );
            &&& wal_laws::all_fit(group)
            &&& c.log.bytes + wal_laws::log_bytes(group).len() <= u64::MAX
            &&& d == (CollModel {
                memtable: staging::applied(c.memtable, cs),
                log: LogModel {
                    next_sequence: d.log.next_sequence,
                    next_txn: (c.log.next_txn + 1) as u64,
                    bytes: (c.log.bytes + wal_laws::log_bytes(group).len()) as u64,
                    unsynced: d.log.unsynced,
                    ..c.log
                },
                ..c
            })
            &&& d.memtable.fits()
            &&& replay_fits(d, fs + group, norms + log_laws::change_norms(cs))
        }),
    ensures
        durable(
            d,
            fs + log::group_frames(
                staging::change_ops(cs),
                c.log.next_sequence,
                c.log.next_txn,
            ),
            norms + log_laws::change_norms(cs),
        ),
{
    let ops = staging::change_ops(cs);
    let group = log::group_frames(ops, c.log.next_sequence, c.log.next_txn);
    let kind = c.catalog.id_kind;
    assert forall|i: int| 0 <= i < ops.len() implies !(#[trigger] ops[i] is Commit) by {
        assert(ops[i] == staging::change_op(cs[i]));
    }
    lifetime_laws::lemma_write_keeps_sound(c, cs);
    log_laws::lemma_group_keeps_numbering(
        fs,
        ops,
        c.log.next_sequence,
        group.len() as int,
        c.log,
    );
    assert(group.take(group.len() as int) =~= group);
    log_laws::lemma_group_is_committed(fs, ops, c.log.next_sequence, c.log.next_txn);
    wal_laws::lemma_log_split(fs, group);
    assert(wal_laws::all_fit(fs + group)) by {
        assert forall|i: int| 0 <= i < (fs + group).len() implies wal::frame_fits(
            #[trigger] (fs + group)[i],
        ) by {
            if i >= fs.len() {
                assert((fs + group)[i] == group[i - fs.len()]);
            }
        }
    }
    log_laws::lemma_logged_changes_agree(
        c.memtable,
        kind,
        log_laws::committed(fs),
        norms,
        cs,
        c.log.next_sequence,
        c.log.next_txn,
    );
}

/// What a batch is logged as is what its changes are logged as.
pub proof fn lemma_batch_logs_its_changes<F: Fn(&[u8]) -> u32>(
    norm: F,
    c: CollModel,
    ops: Seq<BatchModel>,
    cs: Seq<ChangeModel>,
)
    requires
        staging::all_realized(norm, ops, cs),
    ensures
        staging::batch_frames(c, ops) == log::group_frames(
            staging::change_ops(cs),
            c.log.next_sequence,
            c.log.next_txn,
        ),
{
    let logged = ops.map_values(|op: BatchModel| staging::batch_op(op));
    assert forall|i: int| 0 <= i < logged.len() implies #[trigger] logged[i]
        == staging::change_ops(cs)[i] by {
        assert(staging::realizes(norm, ops[i], cs[i]));
    }
    assert(logged =~= staging::change_ops(cs));
}

/// A flush leaves a collection durable with an empty log, and keeps every document.
pub proof fn lemma_flush_is_durable(
    c: CollModel,
    image: SegmentImage,
    files: SegmentFiles,
    left: Seq<SegmentModel>,
    d: CollModel,
)
    requires
        lifetime_laws::sound(c),
        lifetime_laws::is_flush(c, image, files, left, d),
        d.segments.len() <= usize::MAX,
    ensures
        durable(d, Seq::empty(), Seq::empty()),
        forall|id: IdModel| #[trigger] d.visible(id) == c.visible(id),
{
    lifetime_laws::lemma_flush_keeps_every_document(c, image, files, left, d);
    lemma_empty_is_durable(d);
}

/// What a reopen makes of a collection whose segments are on disk and whose log holds `b`: the log
/// is replayed, cut behind its last whole frame, and numbered on.
pub open spec fn is_reopen(c: CollModel, b: Seq<u8>, norms: Seq<u32>, e: CollModel) -> bool {
    &&& e.wf()
    &&& e.catalog == c.catalog
    &&& e.segments == c.segments
    &&& e.memtable == crash_laws::reopened(c, c.segments, b, norms).memtable
    &&& e.log.bytes == wal::scanned(b, 0).2
    &&& open::is_numbered(wal::scanned(b, 0).0, e.log)
}

/// A reopen of a log of which nothing more is committed than a collection has buffered.
proof fn lemma_reopened(
    c: CollModel,
    fs: Seq<FrameModel>,
    norms: Seq<u32>,
    b: Seq<u8>,
    e: CollModel,
)
    requires
        durable(c, fs, norms),
        b.len() <= u64::MAX,
        recovery::committed_frames(b) == log_laws::committed(fs),
        is_reopen(c, b, norms, e),
        e.memtable.fits(),
    ensures
        durable(e, wal::scanned(b, 0).0, norms),
        forall|id: IdModel| #[trigger] e.visible(id) == c.visible(id),
{
    let whole = wal::scanned(b, 0).0;
    lifetime_laws::lemma_reopen_keeps_sound(c, b, norms);
    wal_laws::lemma_scan_is_canonical(b, 0);
    assert(log_laws::committed(whole) == log_laws::committed(fs));
    assert forall|id: IdModel| #[trigger] e.visible(id) == c.visible(id) by {
        assert(e.memtable.seen(id) == c.memtable.seen(id));
    }
}

/// A crash inside the append of a batch loses nothing and leaves nothing of the batch: after the
/// reopen every document is as it was before the batch, and the collection is durable, so that
/// this stays so whatever is written next. With nothing of the batch in the log this is what any
/// restart shows.
pub proof fn lemma_reopen_after_torn_batch(
    c: CollModel,
    fs: Seq<FrameModel>,
    norms: Seq<u32>,
    ops: Seq<OpModel>,
    n: int,
    e: CollModel,
)
    requires
        durable(c, fs, norms),
        forall|i: int| 0 <= i < ops.len() ==> !(#[trigger] ops[i] is Commit),
        ({
            let group = log::group_frames(ops, c.log.next_sequence, c.log.next_txn);
            let b = wal_laws::log_bytes(fs) + wal_laws::log_bytes(group).take(n);
            &&& wal_laws::all_fit(group)
            &&& 0 <= n < wal_laws::log_bytes(group).len()
            &&& c.log.bytes + wal_laws::log_bytes(group).len() <= u64::MAX
            &&& is_reopen(c, b, norms, e)
        }),
        e.memtable.fits(),
    ensures
        ({
            let group = log::group_frames(ops, c.log.next_sequence, c.log.next_txn);
            let b = wal_laws::log_bytes(fs) + wal_laws::log_bytes(group).take(n);
            &&& !(wal::scanned(b, 0).1 is Corrupt)
            &&& durable(e, wal::scanned(b, 0).0, norms)
        }),
        forall|id: IdModel| #[trigger] e.visible(id) == c.visible(id),
{
    let group = log::group_frames(ops, c.log.next_sequence, c.log.next_txn);
    let b = wal_laws::log_bytes(fs) + wal_laws::log_bytes(group).take(n);
    log_laws::lemma_torn_batch_leaves_no_trace(
        fs,
        ops,
        c.log.next_sequence,
        c.log.next_txn,
        n,
    );
    lemma_reopened(c, fs, norms, b, e);
}

/// A crash inside the append of a single write loses nothing but that write.
pub proof fn lemma_reopen_after_torn_write(
    c: CollModel,
    fs: Seq<FrameModel>,
    norms: Seq<u32>,
    change: ChangeModel,
    n: int,
    e: CollModel,
)
    requires
        durable(c, fs, norms),
        ({
            let f = staging::standalone(c, change);
            let b = wal_laws::log_bytes(fs) + wal::frame_bytes(f).take(n);
            &&& wal::frame_fits(f)
            &&& 0 < n < wal::frame_bytes(f).len()
            &&& c.log.bytes + wal::frame_bytes(f).len() <= u64::MAX
            &&& is_reopen(c, b, norms, e)
        }),
        e.memtable.fits(),
    ensures
        ({
            let f = staging::standalone(c, change);
            let b = wal_laws::log_bytes(fs) + wal::frame_bytes(f).take(n);
            &&& !(wal::scanned(b, 0).1 is Corrupt)
            &&& wal::scanned(b, 0).0 == fs
            &&& durable(e, fs, norms)
        }),
        forall|id: IdModel| #[trigger] e.visible(id) == c.visible(id),
{
    let f = staging::standalone(c, change);
    let b = wal_laws::log_bytes(fs) + wal::frame_bytes(f).take(n);
    wal_laws::lemma_log_cut(fs, f, n);
    lemma_reopened(c, fs, norms, b, e);
}

} // verus!
