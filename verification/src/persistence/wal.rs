//! Writing the write-ahead log.
//!
//! The frame format lives in [`crate::format::wal`]; this is the part that turns operations into
//! the bytes to append, and it is where the durability policy is applied.
//!
//! # The one rule that makes batches atomic
//!
//! A transaction group is written with a single append. The commit record is the last frame in
//! that buffer, so any interruption leaves the commit record absent, and replay discards the
//! whole group. If the group were appended frame by frame, the intermediate frames would already
//! be durable and every future reader would have to reason about them.
//!
//! An append is first prepared as a [`PendingAppend`]; the writer moves on once its bytes have
//! landed.
use vstd::prelude::*;

use crate::error;
use crate::error::convert;
use crate::error::convert::from_format_at;
use crate::error::{DbError, ErrorModel, StorageError, StorageModel, StorageOp};
use crate::format::cursor::Writer;
use crate::format::wal;
use crate::format::wal::{FrameModel, OpModel, WalFrame, WalOp};
use crate::format::wal_laws;
use crate::path::DbPath;
use crate::persistence::recovery;
use crate::persistence::Durability;
use crate::text;

verus! {

/// Bytes ready to be appended to a log.
#[derive(Debug)]
pub struct PendingAppend {
    /// The bytes.
    pub bytes: Vec<u8>,
    /// The sequence the next frame will carry once they have landed.
    pub next_sequence: u64,
    /// Whether to sync once they have landed.
    pub sync: bool,
}

/// What a log writer knows.
pub struct LogModel {
    pub path: Seq<char>,
    pub next_sequence: u64,
    pub next_txn: u64,
    pub bytes: u64,
    pub durability: Durability,
    pub unsynced: bool,
}

/// Appends frames to one log file.
///
/// Transaction 0 marks a standalone operation, so a group never gets it.
#[derive(Debug)]
pub struct WalWriter {
    path: DbPath,
    next_sequence: u64,
    next_txn: u64,
    bytes: u64,
    durability: Durability,
    /// Whether anything has been appended since the last successful sync.
    unsynced: bool,
}

impl View for WalWriter {
    type V = LogModel;

    closed spec fn view(&self) -> LogModel {
        LogModel {
            path: self.path@,
            next_sequence: self.next_sequence,
            next_txn: self.next_txn,
            bytes: self.bytes,
            durability: self.durability,
            unsynced: self.unsynced,
        }
    }
}

/// Whether every transaction id in a log lies below `txn_id`, so that a group with that id shares
/// it with nothing that is there.
pub open spec fn ids_below(fs: Seq<FrameModel>, txn_id: u64) -> bool {
    forall|i: int| 0 <= i < fs.len() ==> (#[trigger] fs[i]).txn_id < txn_id
}

/// What a list of operations does.
pub open spec fn op_models(ops: Seq<WalOp>) -> Seq<OpModel> {
    ops.map_values(|op: WalOp| op@)
}

/// The frames of a group before its commit record.
pub open spec fn member_frames(ops: Seq<OpModel>, sequence: u64, txn_id: u64) -> Seq<FrameModel> {
    Seq::new(
        ops.len(),
        |i: int| FrameModel { sequence: (sequence + i) as u64, txn_id, op: ops[i] },
    )
}

/// The frames of a group: its operations in consecutive sequence, and the commit record.
pub open spec fn group_frames(ops: Seq<OpModel>, sequence: u64, txn_id: u64) -> Seq<FrameModel> {
    member_frames(ops, sequence, txn_id).push(
        FrameModel {
            sequence: (sequence + ops.len()) as u64,
            txn_id,
            op: OpModel::Commit { op_count: ops.len() as u64 },
        },
    )
}

/// The error for an append that landed somewhere other than the end of the log.
pub open spec fn misplaced(path: Seq<char>, offset: u64, bytes: u64) -> ErrorModel {
    ErrorModel::Storage(
        StorageModel::Io {
            path,
            operation: StorageOp::Append,
            detail: "append landed at "@ + text::decimal(offset as nat) + " but the log is "@
                + text::decimal(bytes as nat) + " bytes; another writer?"@,
        },
    )
}

/// The error for a frame too large to be written.
pub open spec fn too_large(path: Seq<char>) -> ErrorModel {
    convert::reported(wal::frame_too_large(), path)
}

impl WalWriter {
    #[verifier::type_invariant]
    closed spec fn numbers_groups(self) -> bool {
        self.next_txn > 0
    }

    /// A writer for the log at `path`, which is `bytes` long.
    ///
    /// `first_sequence` is the sequence the next frame will carry; recovery passes one past the
    /// highest sequence it replayed, so numbering stays monotonic across restarts. `first_txn` is
    /// the transaction the next group will be; recovery passes one past the highest in the log,
    /// so that a new group never takes in what an interrupted one left behind.
    pub fn open(
        path: DbPath,
        bytes: u64,
        first_sequence: u64,
        first_txn: u64,
        durability: Durability,
    ) -> (r: Self)
        requires
            first_txn > 0,
        ensures
            r@ == (LogModel {
                path: path@,
                next_sequence: first_sequence,
                next_txn: first_txn,
                bytes,
                durability,
                unsynced: false,
            }),
    {
        WalWriter {
            path,
            next_sequence: first_sequence,
            next_txn: first_txn,
            bytes,
            durability,
            unsynced: false,
        }
    }

    /// The sequence the next frame will carry.
    pub fn next_sequence(&self) -> (r: u64)
        ensures
            r == self@.next_sequence,
    {
        self.next_sequence
    }

    /// The transaction the next group will be.
    pub fn next_txn(&self) -> (r: u64)
        ensures
            r == self@.next_txn,
            r > 0,
    {
        proof {
            use_type_invariant(self);
        }
        self.next_txn
    }

    /// Bytes in the log.
    pub fn bytes(&self) -> (r: u64)
        ensures
            r == self@.bytes,
    {
        self.bytes
    }

    /// The log's file.
    pub fn path(&self) -> (r: &DbPath)
        ensures
            r@ == self@.path,
    {
        &self.path
    }

    /// How aggressively writes are made durable.
    pub fn durability(&self) -> (r: Durability)
        ensures
            r == self@.durability,
    {
        self.durability
    }

    /// Whether anything is pending a sync.
    pub fn is_unsynced(&self) -> (r: bool)
        ensures
            r == self@.unsynced,
    {
        self.unsynced
    }

    /// Prepare one standalone operation.
    ///
    /// # Errors
    /// A format error if the operation is too large to frame.
    pub fn append(&self, op: WalOp) -> (r: Result<PendingAppend, DbError>)
        requires
            self@.next_sequence < u64::MAX,
        ensures
            ({
                let f = FrameModel { sequence: self@.next_sequence, txn_id: 0, op: op@ };
                if wal::frame_fits(f) {
                    &&& r matches Ok(p)
                    &&& p.bytes@ == wal::frame_bytes(f)
                    &&& p.next_sequence == self@.next_sequence + 1
                    &&& p.sync == (self@.durability == Durability::Full)
                } else {
                    error::failed(r, too_large(self@.path))
                }
            }),
    {
        let frame = WalFrame::standalone(self.next_sequence, op);
        match frame.encode() {
            Ok(bytes) => Ok(
                PendingAppend {
                    bytes,
                    next_sequence: self.next_sequence + 1,
                    sync: self.durability.syncs_every_write(),
                },
            ),
            Err(e) => Err(from_format_at(e, &self.path)),
        }
    }

    /// Prepare a group of operations followed by their commit record, as one write.
    ///
    /// Returns the transaction id with it. Replay applies the group only if the commit record
    /// survived, which is what makes a batch all-or-nothing across a crash. The transaction id
    /// is used up even where the group turns out not to fit.
    ///
    /// # Errors
    /// A format error if a frame cannot be built.
    pub fn append_group(&mut self, ops: &Vec<WalOp>) -> (r: Result<(u64, PendingAppend), DbError>)
        requires
            old(self)@.next_sequence + ops@.len() < u64::MAX,
            old(self)@.next_txn < u64::MAX,
        ensures
            old(self)@.next_txn > 0,
            final(self)@ == (LogModel {
                next_txn: (old(self)@.next_txn + 1) as u64,
                ..old(self)@
            }),
            ({
                let fs = group_frames(
                    op_models(ops@),
                    old(self)@.next_sequence,
                    old(self)@.next_txn,
                );
                if wal_laws::all_fit(fs) {
                    &&& r matches Ok((txn, p))
                    &&& txn == old(self)@.next_txn
                    &&& p.bytes@ == wal_laws::log_bytes(fs)
                    &&& p.next_sequence == old(self)@.next_sequence + ops@.len() + 1
                    &&& p.sync == (old(self)@.durability != Durability::Relaxed)
                } else {
                    error::failed(r, too_large(old(self)@.path))
                }
            }),
    {
        proof {
            use_type_invariant(&*self);
        }
        let txn_id: u64 = self.next_txn;
        self.next_txn = txn_id + 1;
        let op_count: u64 = ops.len() as u64;
        let ghost fs = group_frames(op_models(ops@), self.next_sequence, txn_id);
        let mut w = Writer::new();
        let mut i: usize = 0;
        assert(fs.take(0) =~= Seq::<FrameModel>::empty());
        assert(w@ =~= wal_laws::log_bytes(fs.take(0)));
        while i < ops.len()
            invariant
                i <= ops@.len(),
                fs == group_frames(op_models(ops@), self.next_sequence, txn_id),
                self.next_sequence + ops@.len() < u64::MAX,
                w@ == wal_laws::log_bytes(fs.take(i as int)),
                forall|j: int| 0 <= j < i ==> wal::frame_fits(#[trigger] fs[j]),
                self@ == (LogModel { next_txn: (txn_id + 1) as u64, ..old(self)@ }),
                txn_id == old(self)@.next_txn,
                txn_id > 0,
            decreases ops.len() - i,
        {
            let frame = WalFrame::in_txn(self.next_sequence + i as u64, txn_id, ops[i].clone());
            proof {
                assert(frame@ == fs[i as int]);
                let next = fs.take(i + 1);
                assert(next.drop_last() =~= fs.take(i as int));
                assert(next.last() == fs[i as int]);
            }
            match frame.append_to(&mut w) {
                Ok(()) => {},
                Err(e) => {
                    return Err(from_format_at(e, &self.path));
                },
            }
            i += 1;
        }
        let commit = WalFrame::in_txn(
            self.next_sequence + op_count,
            txn_id,
            WalOp::Commit { op_count },
        );
        proof {
            assert(commit@ == fs[i as int]);
            assert(fs.drop_last() =~= fs.take(i as int));
            assert(fs.last() == commit@);
        }
        match commit.append_to(&mut w) {
            Ok(()) => {},
            Err(e) => {
                return Err(from_format_at(e, &self.path));
            },
        }
        Ok(
            (
                txn_id,
                PendingAppend {
                    bytes: w.finish(),
                    next_sequence: self.next_sequence + op_count + 1,
                    sync: self.durability.syncs_on_commit(),
                },
            ),
        )
    }

    /// Move on after an append landed at `offset`.
    ///
    /// A log whose append landed somewhere other than the end means another writer is active on
    /// the same file, which the single-writer lock is supposed to prevent. Detect it here rather
    /// than discovering interleaved frames during recovery.
    ///
    /// # Errors
    /// [`StorageError::Io`] if the append landed anywhere but at the end.
    pub fn landed(&mut self, pending: &PendingAppend, offset: u64) -> (r: Result<(), DbError>)
        requires
            old(self)@.bytes + pending.bytes@.len() <= u64::MAX,
        ensures
            if offset == old(self)@.bytes {
                &&& r is Ok
                &&& final(self)@ == (LogModel {
                    next_sequence: pending.next_sequence,
                    bytes: (old(self)@.bytes + pending.bytes@.len()) as u64,
                    unsynced: true,
                    ..old(self)@
                })
            } else {
                &&& error::failed(r, misplaced(old(self)@.path, offset, old(self)@.bytes))
                &&& final(self)@ == old(self)@
            },
    {
        proof {
            use_type_invariant(&*self);
        }
        if offset != self.bytes {
            let mut detail = "append landed at ".to_owned();
            text::push_decimal(&mut detail, offset);
            detail.append(" but the log is ");
            text::push_decimal(&mut detail, self.bytes);
            detail.append(" bytes; another writer?");
            return Err(
                DbError::Storage(
                    StorageError::Io {
                        path: self.path.clone(),
                        operation: StorageOp::Append,
                        detail,
                    },
                ),
            );
        }
        self.bytes = self.bytes + pending.bytes.len() as u64;
        self.unsynced = true;
        self.next_sequence = pending.next_sequence;
        Ok(())
    }

    /// Move on after a sync.
    pub fn sync(&mut self)
        ensures
            final(self)@ == (LogModel { unsynced: false, ..old(self)@ }),
    {
        proof {
            use_type_invariant(&*self);
        }
        self.unsynced = false;
    }
}

/// How many whole frames the first `n` bytes of a list of frames hold.
proof fn lemma_cut_point(fs: Seq<FrameModel>, n: int) -> (k: int)
    requires
        0 <= n < wal_laws::log_bytes(fs).len(),
    ensures
        0 <= k < fs.len(),
        wal_laws::log_bytes(fs.take(k)).len() <= n < wal_laws::log_bytes(fs.take(k)).len()
            + wal::frame_bytes(fs[k]).len(),
        wal_laws::log_bytes(fs).take(n) == wal_laws::log_bytes(fs.take(k)) + wal::frame_bytes(
            fs[k],
        ).take(n - wal_laws::log_bytes(fs.take(k)).len()),
    decreases fs.len(),
{
    let front = fs.drop_last();
    let before = wal_laws::log_bytes(front);
    let all = wal_laws::log_bytes(fs);
    if n < before.len() {
        let k = lemma_cut_point(front, n);
        assert(front.take(k) =~= fs.take(k));
        assert(all.take(n) =~= before.take(n));
        k
    } else {
        assert(fs.take(fs.len() - 1) =~= front);
        assert(all.take(n) =~= before + wal::frame_bytes(fs.last()).take(n - before.len()));
        fs.len() - 1
    }
}

/// A group whose append was cut short anywhere applies none of itself: what is read back is the
/// log before it, followed by some whole operations of the group of which none belongs to
/// committed work.
pub proof fn lemma_torn_group_is_discarded(
    log: Seq<FrameModel>,
    ops: Seq<OpModel>,
    sequence: u64,
    txn_id: u64,
    n: int,
) -> (k: int)
    requires
        ({
            let group = group_frames(ops, sequence, txn_id);
            &&& wal_laws::all_fit(log)
            &&& wal_laws::all_fit(group)
            &&& 0 <= n < wal_laws::log_bytes(group).len()
            &&& wal_laws::log_bytes(log).len() + wal_laws::log_bytes(group).len() <= u64::MAX
        }),
        txn_id != 0,
        forall|i: int| 0 <= i < ops.len() ==> !(#[trigger] ops[i] is Commit),
    ensures
        ({
            let group = group_frames(ops, sequence, txn_id);
            let b = wal_laws::log_bytes(log) + wal_laws::log_bytes(group).take(n);
            let (fs, tail, end) = wal::scanned(b, 0);
            &&& 0 <= k < group.len()
            &&& fs == log + group.take(k)
            &&& 0 <= end <= b.len()
            &&& b.take(end) == wal_laws::log_bytes(fs)
            &&& wal_laws::all_fit(fs)
            &&& !(tail is Corrupt)
            &&& forall|i: int| log.len() <= i < fs.len() ==> !(#[trigger] wal::counts(fs, i))
        }),
{
    let group = group_frames(ops, sequence, txn_id);
    let k = lemma_cut_point(group, n);
    let head = group.take(k);
    let whole = log + head;
    let rest = n - wal_laws::log_bytes(head).len();
    wal_laws::lemma_log_split(log, head);
    assert(wal_laws::all_fit(whole)) by {
        assert forall|i: int| 0 <= i < whole.len() implies wal::frame_fits(
            #[trigger] whole[i],
        ) by {
            if i >= log.len() {
                assert(whole[i] == group[i - log.len()]);
            }
        }
    }
    let b = wal_laws::log_bytes(log) + wal_laws::log_bytes(group).take(n);
    let f = group[k];
    assert(b =~= wal_laws::log_bytes(whole) + wal::frame_bytes(f).take(rest));
    let upto = group.take(k + 1);
    wal_laws::lemma_log_split(upto, group.skip(k + 1));
    assert(upto + group.skip(k + 1) =~= group);
    assert(upto.drop_last() =~= head);
    if rest == 0 {
        assert(b =~= wal_laws::log_bytes(whole));
        wal_laws::lemma_log_round_trip(whole);
    } else {
        wal_laws::lemma_log_cut(whole, f, rest);
    }
    let fs = wal::scanned(b, 0).0;
    assert(b.take(wal::scanned(b, 0).2) =~= wal_laws::log_bytes(whole));
    assert forall|i: int| log.len() <= i < fs.len() implies !(#[trigger] wal::counts(fs, i)) by {
        assert(fs[i] == group[i - log.len()]);
        assert forall|j: int| i + 1 <= j < fs.len() implies !((#[trigger] fs[j]).op is Commit) by {
            assert(fs[j] == group[j - log.len()]);
            assert(ops[j - log.len()] == group[j - log.len()].op);
        }
    }
    k
}

/// A group whose append completed applies all of itself: every one of its operations belongs to
/// committed work, whatever is appended behind it.
pub proof fn lemma_whole_group_counts(
    log: Seq<FrameModel>,
    ops: Seq<OpModel>,
    sequence: u64,
    txn_id: u64,
    later: Seq<FrameModel>,
    i: int,
)
    requires
        0 <= i < ops.len(),
        !(ops[i] is Commit),
    ensures
        wal::counts(
            log + group_frames(ops, sequence, txn_id) + later,
            log.len() + i,
        ),
{
    let group = group_frames(ops, sequence, txn_id);
    let fs = log + group + later;
    let at = (log.len() + ops.len()) as int;
    assert(fs[at] == group[ops.len() as int]);
    assert(fs[log.len() + i] == group[i]);
    assert(fs[at].op is Commit);
}

/// What a group of operations is written as is one frame more than it has operations: each with
/// the group's id, which is that of no standalone operation, in consecutive sequence, and a commit
/// record that counts them at the end. Cut anywhere before its end, nothing of it is committed.
pub proof fn lemma_group_is_framed(ops: Seq<OpModel>, sequence: u64, txn_id: u64, n: int)
    requires
        wal_laws::all_fit(group_frames(ops, sequence, txn_id)),
        wal_laws::log_bytes(group_frames(ops, sequence, txn_id)).len() <= u64::MAX,
        txn_id != 0,
        sequence + ops.len() <= u64::MAX,
        forall|i: int| 0 <= i < ops.len() ==> !(#[trigger] ops[i] is Commit),
        0 <= n < wal_laws::log_bytes(group_frames(ops, sequence, txn_id)).len(),
    ensures
        ({
            let b = wal_laws::log_bytes(group_frames(ops, sequence, txn_id));
            let (fs, tail, end) = wal::scanned(b, 0);
            &&& tail is Clean
            &&& end == b.len()
            &&& fs.len() == ops.len() + 1
            &&& forall|i: int|
                0 <= i < ops.len() ==> #[trigger] fs[i] == (FrameModel {
                    sequence: (sequence + i) as u64,
                    txn_id,
                    op: ops[i],
                })
            &&& fs[ops.len() as int] == (FrameModel {
                sequence: (sequence + ops.len()) as u64,
                txn_id,
                op: OpModel::Commit { op_count: ops.len() as u64 },
            })
            &&& recovery::committed_frames(b.take(n)) == Seq::<FrameModel>::empty()
        }),
{
    let group = group_frames(ops, sequence, txn_id);
    let b = wal_laws::log_bytes(group);
    let none = Seq::<FrameModel>::empty();
    wal_laws::lemma_log_round_trip(group);
    let _ = lemma_torn_group_is_discarded(none, ops, sequence, txn_id, n);
    assert(wal_laws::log_bytes(none) + b.take(n) =~= b.take(n));
    let fs = wal::scanned(b.take(n), 0).0;
    lemma_none_counted(fs, fs.len() as int);
}

proof fn lemma_none_counted(fs: Seq<FrameModel>, k: int)
    requires
        0 <= k <= fs.len(),
        forall|i: int| 0 <= i < fs.len() ==> !(#[trigger] wal::counts(fs, i)),
    ensures
        wal::committed_prefix(fs, k) == Seq::<FrameModel>::empty(),
    decreases k,
{
    if k > 0 {
        lemma_none_counted(fs, k - 1);
        assert(!wal::counts(fs, k - 1));
    }
}

} // verus!
