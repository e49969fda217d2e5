//! Rebuilding a memtable from its log.
use vstd::prelude::*;

use crate::bytes;
use crate::document;
use crate::document::{DocId, IdKind};
use crate::error;
use crate::error::convert;
use crate::error::convert::from_format_at;
use crate::error::{DbError, ErrorModel};
use crate::format::value;
use crate::format::value::ValueModel;
use crate::format::wal;
use crate::format::wal::{FrameModel, OpModel, WalFrame, WalOp, WalTail};
use crate::metadata;
use crate::metadata::Metadata;
use crate::path;
use crate::path::DbPath;
use crate::vector;
use crate::write::memtable::{MemModel, Memtable};

verus! {

/// What a replay found and did.
#[derive(Debug, Clone, Copy, PartialEq, Eq, Structural)]
pub struct ReplayReport {
    /// Operations applied.
    pub applied: usize,
    /// Operations of groups that were never committed, and so were discarded.
    pub rolled_back: usize,
    /// The highest sequence in the log, or 0 where it holds no frame.
    pub last_sequence: u64,
    /// The highest transaction id in the log, committed or not, or 0 where it holds no group.
    pub last_txn: u64,
    /// Bytes covered by complete frames: where the log should be truncated to.
    pub valid_bytes: u64,
    /// Whether the log ended inside a frame.
    pub truncated_tail: bool,
}

/// The metadata that a logged operation carries, or why it cannot be read. No bytes are no
/// metadata.
pub open spec fn logged_metadata(b: Seq<u8>) -> Result<
    Option<Seq<(Seq<char>, ValueModel)>>,
    ErrorModel,
> {
    if b.len() == 0 {
        Ok(None)
    } else {
        match value::decoded(b) {
            Ok(ValueModel::Object(m)) => Ok(Some(m)),
            Ok(_) => Err(convert::reported(metadata::not_a_map(), path::root_text())),
            Err(e) => Err(convert::reported(e, path::root_text())),
        }
    }
}

/// What applying one frame makes of a memtable, `norm` being the reciprocal norm of its vector,
/// or why it cannot be applied.
pub open spec fn stepped(m: MemModel, kind: IdKind, f: FrameModel, norm: u32) -> Result<
    MemModel,
    ErrorModel,
> {
    match f.op {
        OpModel::Put { id, vector, metadata, content } => match document::id_of(kind, id) {
            Err(e) => Err(e),
            Ok(id) => match logged_metadata(metadata) {
                Err(e) => Err(e),
                Ok(meta) => if vector.len() == m.dtype.stride(m.dimension) {
                    Ok(m.with(id, vector, norm, meta, content))
                } else {
                    Err(
                        vector::wrong_dimension(
                            "<input>"@,
                            m.dimension,
                            (vector.len() / 4) as u32,
                        ),
                    )
                },
            },
        },
        OpModel::Delete { id } => match document::id_of(kind, id) {
            Err(e) => Err(e),
            Ok(id) => Ok(m.without(id)),
        },
        OpModel::Commit { .. } => Ok(m),
    }
}

/// What applying frames in order makes of a memtable, or the first failure and what had been
/// applied before it.
pub open spec fn replayed(m: MemModel, kind: IdKind, fs: Seq<FrameModel>, norms: Seq<u32>) -> Result<
    MemModel,
    (ErrorModel, MemModel),
>
    decreases fs.len(),
{
    if fs.len() == 0 {
        Ok(m)
    } else {
        match replayed(m, kind, fs.drop_last(), norms.drop_last()) {
            Err(e) => Err(e),
            Ok(n) => match stepped(n, kind, fs.last(), norms.last()) {
                Ok(o) => Ok(o),
                Err(e) => Err((e, n)),
            },
        }
    }
}

/// Whether a function may give a vector this reciprocal norm.
pub open spec fn norm_of<F: Fn(&[u8]) -> u32>(norm: F, vector: Seq<u8>, bits: u32) -> bool {
    exists|b: &[u8]| b@ == vector && #[trigger] call_ensures(norm, (b,), bits)
}

/// Whether numbers are the reciprocal norms that a function gives the vectors of frames.
pub open spec fn normed<F: Fn(&[u8]) -> u32>(norm: F, fs: Seq<FrameModel>, norms: Seq<u32>) -> bool {
    &&& norms.len() == fs.len()
    &&& forall|i: int|
        0 <= i < fs.len() ==> match (#[trigger] fs[i]).op {
            OpModel::Put { vector, .. } => norm_of(norm, vector, norms[i]),
            _ => true,
        }
}

/// How many of a list of frames are operations rather than commit records.
pub open spec fn operations(fs: Seq<FrameModel>) -> nat
    decreases fs.len(),
{
    if fs.len() == 0 {
        0
    } else {
        operations(fs.drop_last()) + if fs.last().op is Commit {
            0nat
        } else {
            1nat
        }
    }
}

/// The highest sequence of a list of frames, or 0.
pub open spec fn highest(fs: Seq<FrameModel>) -> u64
    decreases fs.len(),
{
    if fs.len() == 0 {
        0
    } else if fs.last().sequence > highest(fs.drop_last()) {
        fs.last().sequence
    } else {
        highest(fs.drop_last())
    }
}

/// The highest transaction id in a log, or 0 where it holds no group.
pub open spec fn highest_txn(fs: Seq<FrameModel>) -> u64
    decreases fs.len(),
{
    if fs.len() == 0 {
        0
    } else if fs.last().txn_id > highest_txn(fs.drop_last()) {
        fs.last().txn_id
    } else {
        highest_txn(fs.drop_last())
    }
}

/// The frames of a log that belong to committed work.
pub open spec fn committed_frames(b: Seq<u8>) -> Seq<FrameModel> {
    let fs = wal::scanned(b, 0).0;
    wal::committed_prefix(fs, fs.len() as int)
}

fn read_metadata(b: &Vec<u8>) -> (r: Result<Option<Metadata>, DbError>)
    ensures
        match logged_metadata(b@) {
            Ok(m) => r matches Ok(v) && metadata::option_metadata(v) == m,
            Err(e) => error::failed(r, e),
        },
{
    if b.len() == 0 {
        return Ok(None);
    }
    match Metadata::decode(b.as_slice()) {
        Ok(m) => Ok(Some(m)),
        Err(e) => Err(e),
    }
}

/// Apply one frame.
fn apply(memtable: &mut Memtable, kind: IdKind, frame: &WalFrame, norm: u32) -> (r: Result<
    (),
    DbError,
>)
    requires
        old(memtable)@.wf(),
    ensures
        final(memtable)@.wf(),
        match stepped(old(memtable)@, kind, frame@, norm) {
            Ok(m) => r is Ok && final(memtable)@ == m,
            Err(e) => error::failed(r, e) && final(memtable)@ == old(memtable)@,
        },
{
    match &frame.op {
        WalOp::Put { id, vector, metadata, content } => {
            let id = match DocId::from_bytes(kind, id.as_slice()) {
                Ok(id) => id,
                Err(e) => {
                    return Err(e);
                },
            };
            let metadata = match read_metadata(metadata) {
                Ok(m) => m,
                Err(e) => {
                    return Err(e);
                },
            };
            match memtable.put_bytes(
                id,
                vector.as_slice(),
                norm,
                metadata,
                bytes::copy_option(content),
            ) {
                Ok(_) => Ok(()),
                Err(e) => Err(e),
            }
        },
        WalOp::Delete { id } => {
            let id = match DocId::from_bytes(kind, id.as_slice()) {
                Ok(id) => id,
                Err(e) => {
                    return Err(e);
                },
            };
            memtable.delete(id);
            Ok(())
        },
        WalOp::Commit { .. } => Ok(()),
    }
}

fn count_operations(frames: &Vec<WalFrame>) -> (r: usize)
    ensures
        r == operations(wal::frame_models(frames@)),
        r <= frames@.len(),
{
    let ghost fs = wal::frame_models(frames@);
    let mut n: usize = 0;
    let mut i: usize = 0;
    while i < frames.len()
        invariant
            i <= frames@.len(),
            fs == wal::frame_models(frames@),
            n == operations(fs.take(i as int)),
            n <= i,
        decreases frames.len() - i,
    {
        proof {
            let next = fs.take(i + 1);
            assert(next.drop_last() =~= fs.take(i as int));
            assert(next.last() == frames@[i as int]@);
        }
        match &frames[i].op {
            WalOp::Commit { .. } => {},
            _ => {
                n += 1;
            },
        }
        i += 1;
    }
    assert(fs.take(i as int) =~= fs);
    n
}

fn highest_sequence(frames: &Vec<WalFrame>) -> (r: u64)
    ensures
        r == highest(wal::frame_models(frames@)),
{
    let ghost fs = wal::frame_models(frames@);
    let mut most: u64 = 0;
    let mut i: usize = 0;
    while i < frames.len()
        invariant
            i <= frames@.len(),
            fs == wal::frame_models(frames@),
            most == highest(fs.take(i as int)),
        decreases frames.len() - i,
    {
        proof {
            let next = fs.take(i + 1);
            assert(next.drop_last() =~= fs.take(i as int));
            assert(next.last() == frames@[i as int]@);
        }
        if frames[i].sequence > most {
            most = frames[i].sequence;
        }
        i += 1;
    }
    assert(fs.take(i as int) =~= fs);
    most
}

fn last_group(frames: &Vec<WalFrame>) -> (r: u64)
    ensures
        r == highest_txn(wal::frame_models(frames@)),
{
    let ghost fs = wal::frame_models(frames@);
    let mut most: u64 = 0;
    let mut i: usize = 0;
    while i < frames.len()
        invariant
            i <= frames@.len(),
            fs == wal::frame_models(frames@),
            most == highest_txn(fs.take(i as int)),
        decreases frames.len() - i,
    {
        proof {
            let next = fs.take(i + 1);
            assert(next.drop_last() =~= fs.take(i as int));
            assert(next.last() == frames@[i as int]@);
        }
        if frames[i].txn_id > most {
            most = frames[i].txn_id;
        }
        i += 1;
    }
    assert(fs.take(i as int) =~= fs);
    most
}

/// No transaction id in a log exceeds the highest.
pub proof fn lemma_highest_txn(fs: Seq<FrameModel>)
    ensures
        forall|i: int| 0 <= i < fs.len() ==> (#[trigger] fs[i]).txn_id <= highest_txn(fs),
    decreases fs.len(),
{
    if fs.len() > 0 {
        let front = fs.drop_last();
        lemma_highest_txn(front);
        assert forall|i: int| 0 <= i < fs.len() implies (#[trigger] fs[i]).txn_id <= highest_txn(
            fs,
        ) by {
            if i < front.len() {
                assert(front[i] == fs[i]);
            }
        }
    }
}

/// Committed work is among the operations of a log.
proof fn lemma_committed_len(fs: Seq<FrameModel>, k: int)
    requires
        0 <= k <= fs.len(),
    ensures
        wal::committed_prefix(fs, k).len() <= operations(fs.take(k)),
    decreases k,
{
    if k > 0 {
        lemma_committed_len(fs, k - 1);
        assert(fs.take(k).drop_last() =~= fs.take(k - 1));
        assert(fs.take(k).last() == fs[k - 1]);
    }
}

/// Whether a report says what a log holds.
pub open spec fn reports(report: ReplayReport, b: Seq<u8>) -> bool {
    let (fs, tail, end) = wal::scanned(b, 0);
    &&& report.applied == committed_frames(b).len()
    &&& report.applied + report.rolled_back == operations(fs)
    &&& report.last_sequence == highest(fs)
    &&& report.last_txn == highest_txn(fs)
    &&& report.valid_bytes == end
    &&& report.truncated_tail == (tail is Torn)
}

/// Whether a replay of committed frames turned out as it should: all of them applied, or the
/// first failure reported with what came before it applied.
pub open spec fn replay_outcome<F: Fn(&[u8]) -> u32>(
    norm: F,
    kind: IdKind,
    fs: Seq<FrameModel>,
    before: MemModel,
    after: MemModel,
    r: Result<ReplayReport, DbError>,
) -> bool {
    exists|n: int, norms: Seq<u32>|
        0 <= n <= fs.len() && #[trigger] normed(norm, fs.take(n), norms) && match replayed(
            before,
            kind,
            fs.take(n),
            norms,
        ) {
            Ok(m) => r is Ok && n == fs.len() && after == m,
            Err(f) => error::failed(r, f.0) && after == f.1,
        }
}

/// A replay that succeeded applied every frame.
pub proof fn lemma_replay_succeeded<F: Fn(&[u8]) -> u32>(
    norm: F,
    kind: IdKind,
    fs: Seq<FrameModel>,
    before: MemModel,
    after: MemModel,
    r: Result<ReplayReport, DbError>,
) -> (norms: Seq<u32>)
    requires
        replay_outcome(norm, kind, fs, before, after, r),
        r is Ok,
    ensures
        normed(norm, fs, norms),
        replayed(before, kind, fs, norms) == Ok::<MemModel, (ErrorModel, MemModel)>(after),
{
    let (n, norms) = choose|n: int, norms: Seq<u32>|
        0 <= n <= fs.len() && #[trigger] normed(norm, fs.take(n), norms) && match replayed(
            before,
            kind,
            fs.take(n),
            norms,
        ) {
            Ok(m) => r is Ok && n == fs.len() && after == m,
            Err(f) => error::failed(r, f.0) && after == f.1,
        };
    assert(fs.take(fs.len() as int) =~= fs);
    norms
}

/// Apply a log's committed work to a memtable. `norm` gives the reciprocal norm of a stored
/// vector.
///
/// A log that ends inside a frame was cut by a crash: what came before is applied. A complete
/// frame that is damaged is another matter, and is reported rather than silently discarded.
///
/// # Errors
/// [`crate::error::CorruptionError`] for a damaged frame, or whatever makes an operation
/// inapplicable.
pub fn replay_into<F: Fn(&[u8]) -> u32>(
    log: &[u8],
    path: &DbPath,
    id_kind: IdKind,
    norm: F,
    memtable: &mut Memtable,
) -> (r: Result<ReplayReport, DbError>)
    requires
        forall|b: &[u8]| #[trigger] call_requires(norm, (b,)),
    ensures
        match wal::scanned(log@, 0).1 {
            WalTail::Corrupt { reason, .. } => error::failed(r, convert::reported(reason, path@))
                && final(memtable)@ == old(memtable)@,
            _ => replay_outcome(
                norm,
                id_kind,
                committed_frames(log@),
                old(memtable)@,
                final(memtable)@,
                r,
            ),
        },
        final(memtable)@.dimension == old(memtable)@.dimension,
        final(memtable)@.dtype == old(memtable)@.dtype,
        r matches Ok(report) ==> reports(report, log@),
{
    let scan = wal::scan(log);
    let truncated_tail: bool = match scan.tail {
        WalTail::Corrupt { offset: _, reason } => {
            return Err(from_format_at(reason, path));
        },
        WalTail::Torn { .. } => true,
        WalTail::Clean => false,
    };
    let frames = scan.committed();
    let ghost all = wal::scanned(log@, 0).0;
    let ghost fs = committed_frames(log@);
    let ghost before = memtable@;
    let ghost mut norms = Seq::<u32>::empty();
    // Reading the length establishes that the memtable is consistent.
    let _ = memtable.len();
    let mut i: usize = 0;
    proof {
        assert(fs.take(0) =~= Seq::<FrameModel>::empty());
        assert(wal::borrowed_models(frames@) == fs);
        assert(fs.len() == frames@.len());
    }
    while i < frames.len()
        invariant
            i <= frames@.len(),
            fs == wal::borrowed_models(frames@),
            fs == committed_frames(log@),
            fs.len() == frames@.len(),
            memtable@.wf(),
            before == old(memtable)@,
            memtable@.dimension == before.dimension,
            memtable@.dtype == before.dtype,
            normed(norm, fs.take(i as int), norms),
            replayed(before, id_kind, fs.take(i as int), norms) == Ok::<
                MemModel,
                (ErrorModel, MemModel),
            >(memtable@),
            !(wal::scanned(log@, 0).1 is Corrupt),
            forall|b: &[u8]| #[trigger] call_requires(norm, (b,)),
        decreases frames.len() - i,
    {
        let frame: &WalFrame = frames[i];
        let bits: u32 = match &frame.op {
            WalOp::Put { vector, .. } => norm(vector.as_slice()),
            _ => 0,
        };
        let ghost was = norms;
        proof {
            norms = was.push(bits);
            let next = fs.take(i + 1);
            assert(next.drop_last() =~= fs.take(i as int));
            assert(next.last() == frame@);
            assert(norms.drop_last() =~= was);
            assert(normed(norm, next, norms)) by {
                assert forall|j: int| 0 <= j < next.len() implies match (#[trigger] next[j]).op {
                    OpModel::Put { vector, .. } => norm_of(norm, vector, norms[j]),
                    _ => true,
                } by {
                    if j < i {
                        assert(next[j] == fs.take(i as int)[j]);
                    } else {
                        assert(next[j] == frame@);
                    }
                }
            }
        }
        match apply(memtable, id_kind, frame, bits) {
            Ok(()) => {},
            Err(e) => {
                let ghost out = Err::<ReplayReport, DbError>(e);
                assert(replay_outcome(norm, id_kind, fs, before, memtable@, out)) by {
                    assert(normed(norm, fs.take(i + 1), norms));
                }
                return Err(e);
            },
        }
        i += 1;
    }
    let total: usize = count_operations(&scan.frames);
    let applied: usize = frames.len();
    proof {
        lemma_committed_len(all, all.len() as int);
        assert(all.take(all.len() as int) =~= all);
        assert(fs.take(i as int) =~= fs);
    }
    let report = ReplayReport {
        applied,
        rolled_back: total - applied,
        last_sequence: highest_sequence(&scan.frames),
        last_txn: last_group(&scan.frames),
        valid_bytes: scan.valid_bytes,
        truncated_tail,
    };
    let ghost out = Ok::<ReplayReport, DbError>(report);
    assert(replay_outcome(norm, id_kind, fs, before, memtable@, out)) by {
        assert(normed(norm, fs.take(fs.len() as int), norms));
    }
    Ok(report)
}

} // verus!
