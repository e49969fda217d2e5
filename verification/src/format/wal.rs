//! The write-ahead log.
//!
//! Every mutation is appended here and made durable before it is visible, so a process that
//! dies at any instant can be replayed back to a consistent state.
//!
//! # Frame layout
//!
//! ```text
//! [ body_len u32 ][ crc32c u32 over body ][ body ]
//!
//! body = sequence varint
//!        txn_id   varint      (0 = a standalone operation)
//!        op       u8
//!        payload  (per op)
//! ```
//!
//! # Torn tails are expected, corruption is not
//!
//! A process killed mid-append leaves a partial frame at the end of the file. That is normal,
//! and recovery truncates it. But a frame that is *fully present* and fails its checksum or its
//! structure means the bytes were written and are wrong, which is a different diagnosis
//! entirely. [`scan`] distinguishes the two by which failure it hits.
//!
//! # Atomic batches
//!
//! Operations sharing a `txn_id` are applied only if a matching [`WalOp::Commit`] frame follows
//! them. A crash part-way through a batch therefore rolls the whole batch back, because the
//! commit record never made it to disk.
use vstd::prelude::*;
use vstd::slice::{slice_subrange, slice_to_vec};

use crate::bytes;
use crate::format::crc32c;
use crate::format::cursor;
use crate::format::cursor::{Cursor, Reader, Writer};
use crate::format::error::{FormatError, MalformedKind};
use crate::format::le;
use crate::format::varint;

verus! {

/// Bytes of framing before each body: length and checksum.
pub const FRAME_HEADER_LEN: usize = 8;

/// Largest body a single frame may declare: 64 MiB.
///
/// A bound on how much a corrupt length prefix can make a reader consider. It is generous
/// enough for a large vector with metadata and small enough that a garbage value is rejected
/// rather than acted on.
pub const MAX_FRAME_BODY: u32 = 67_108_864;

const OP_PUT: u8 = 1;

const OP_DELETE: u8 = 2;

const OP_COMMIT: u8 = 3;

/// What a frame does, independent of how it is held in memory.
pub enum OpModel {
    Put { id: Seq<u8>, vector: Seq<u8>, metadata: Seq<u8>, content: Option<Seq<u8>> },
    Delete { id: Seq<u8> },
    Commit { op_count: u64 },
}

/// A log record, independent of how it is held in memory.
pub struct FrameModel {
    pub sequence: u64,
    pub txn_id: u64,
    pub op: OpModel,
}

/// What a frame does.
#[derive(Debug, PartialEq, Eq)]
pub enum WalOp {
    /// Insert or replace a document.
    Put {
        /// The document id, interpreted according to the collection's `IdKind`.
        id: Vec<u8>,
        /// Raw vector bytes in the collection's dtype.
        vector: Vec<u8>,
        /// Encoded metadata map; empty when there is none.
        metadata: Vec<u8>,
        /// Optional opaque payload, such as the source text.
        content: Option<Vec<u8>>,
    },
    /// Remove a document.
    Delete {
        /// The document id.
        id: Vec<u8>,
    },
    /// Close a transaction group, making everything in it applicable.
    Commit {
        /// How many operations the group contained, so replay can verify it saw them all.
        op_count: u64,
    },
}

impl View for WalOp {
    type V = OpModel;

    open spec fn view(&self) -> OpModel {
        match *self {
            WalOp::Put { id, vector, metadata, content } => OpModel::Put {
                id: id@,
                vector: vector@,
                metadata: metadata@,
                content: bytes::option_bytes(content),
            },
            WalOp::Delete { id } => OpModel::Delete { id: id@ },
            WalOp::Commit { op_count } => OpModel::Commit { op_count },
        }
    }
}

impl Clone for WalOp {
    fn clone(&self) -> (r: Self)
        ensures
            r@ == self@,
    {
        match self {
            WalOp::Put { id, vector, metadata, content } => WalOp::Put {
                id: slice_to_vec(id.as_slice()),
                vector: slice_to_vec(vector.as_slice()),
                metadata: slice_to_vec(metadata.as_slice()),
                content: bytes::copy_option(content),
            },
            WalOp::Delete { id } => WalOp::Delete { id: slice_to_vec(id.as_slice()) },
            WalOp::Commit { op_count } => WalOp::Commit { op_count: *op_count },
        }
    }
}

/// The code of an operation.
pub open spec fn code_of(op: OpModel) -> u8 {
    match op {
        OpModel::Put { .. } => 1,
        OpModel::Delete { .. } => 2,
        OpModel::Commit { .. } => 3,
    }
}

impl WalOp {
    fn code(&self) -> (r: u8)
        ensures
            r == code_of(self@),
    {
        match self {
            WalOp::Put { .. } => OP_PUT,
            WalOp::Delete { .. } => OP_DELETE,
            WalOp::Commit { .. } => OP_COMMIT,
        }
    }
}

/// One log record.
#[derive(Debug, PartialEq, Eq)]
pub struct WalFrame {
    /// Monotonically increasing within a collection's log.
    pub sequence: u64,
    /// Transaction group, or 0 for a standalone operation.
    pub txn_id: u64,
    /// The operation.
    pub op: WalOp,
}

impl View for WalFrame {
    type V = FrameModel;

    open spec fn view(&self) -> FrameModel {
        FrameModel { sequence: self.sequence, txn_id: self.txn_id, op: self.op@ }
    }
}

impl Clone for WalFrame {
    fn clone(&self) -> (r: Self)
        ensures
            r@ == self@,
    {
        WalFrame { sequence: self.sequence, txn_id: self.txn_id, op: self.op.clone() }
    }
}

/// The payload of an operation.
pub open spec fn payload_bytes(op: OpModel) -> Seq<u8> {
    match op {
        OpModel::Put { id, vector, metadata, content } => cursor::blob_bytes(id)
            + cursor::blob_bytes(vector) + cursor::blob_bytes(metadata) + match content {
            Some(c) => seq![1u8] + cursor::blob_bytes(c),
            None => seq![0u8],
        },
        OpModel::Delete { id } => cursor::blob_bytes(id),
        OpModel::Commit { op_count } => varint::varint(op_count as nat),
    }
}

/// The body of a frame.
#[verifier::opaque]
pub open spec fn body_bytes(f: FrameModel) -> Seq<u8> {
    varint::varint(f.sequence as nat) + varint::varint(f.txn_id as nat) + seq![code_of(f.op)]
        + payload_bytes(f.op)
}

/// The bytes of a frame, framing and all.
#[verifier::opaque]
pub open spec fn frame_bytes(f: FrameModel) -> Seq<u8> {
    let body = body_bytes(f);
    le::le(body.len(), 4) + le::le(crc32c::crc32c_of(body) as nat, 4) + body
}

/// Whether a frame is small enough to be written.
pub open spec fn frame_fits(f: FrameModel) -> bool {
    body_bytes(f).len() <= MAX_FRAME_BODY
}

/// The error for a frame too large to be written.
pub open spec fn frame_too_large() -> FormatError {
    FormatError::Malformed {
        offset: 0,
        kind: MalformedKind::Inconsistent { field: "frame body length" },
    }
}

/// The optional content of a put.
pub open spec fn parsed_content(c: Cursor) -> Result<(Option<Seq<u8>>, Cursor), FormatError> {
    match c.u8() {
        Ok((flag, c1)) => if flag == 0 {
            Ok((None, c1))
        } else if flag == 1 {
            match c1.blob() {
                Ok((b, c2)) => Ok((Some(b), c2)),
                Err(e) => Err(e),
            }
        } else {
            Err(
                c1.malformed(
                    MalformedKind::UnknownDiscriminant { field: "content flag", value: flag },
                ),
            )
        },
        Err(e) => Err(e),
    }
}

/// The operation at a cursor.
#[verifier::opaque]
pub open spec fn parsed_op(c: Cursor) -> Result<(OpModel, Cursor), FormatError> {
    match c.u8() {
        Ok((code, c1)) => if code == 1 {
            match c1.blob() {
                Ok((id, c2)) => match c2.blob() {
                    Ok((vector, c3)) => match c3.blob() {
                        Ok((metadata, c4)) => match parsed_content(c4) {
                            Ok((content, c5)) => Ok(
                                (OpModel::Put { id, vector, metadata, content }, c5),
                            ),
                            Err(e) => Err(e),
                        },
                        Err(e) => Err(e),
                    },
                    Err(e) => Err(e),
                },
                Err(e) => Err(e),
            }
        } else if code == 2 {
            match c1.blob() {
                Ok((id, c2)) => Ok((OpModel::Delete { id }, c2)),
                Err(e) => Err(e),
            }
        } else if code == 3 {
            match c1.varint() {
                Ok((op_count, c2)) => Ok((OpModel::Commit { op_count }, c2)),
                Err(e) => Err(e),
            }
        } else {
            Err(
                c.malformed(MalformedKind::UnknownDiscriminant { field: "wal op", value: code }),
            )
        },
        Err(e) => Err(e),
    }
}

/// The frame whose whole body lies at a cursor.
#[verifier::opaque]
pub open spec fn parsed_body(c: Cursor) -> Result<FrameModel, FormatError> {
    match c.varint() {
        Ok((sequence, c1)) => match c1.varint() {
            Ok((txn_id, c2)) => match parsed_op(c2) {
                Ok((op, c3)) => match c3.end("wal frame body") {
                    Ok(()) => Ok(FrameModel { sequence, txn_id, op }),
                    Err(e) => Err(e),
                },
                Err(e) => Err(e),
            },
            Err(e) => Err(e),
        },
        Err(e) => Err(e),
    }
}

/// What is reported of a body that does not parse. A body that ends too early is damage, not a
/// torn tail: every byte its frame promised is there.
pub open spec fn body_error(e: FormatError) -> FormatError {
    match e {
        FormatError::Truncated { offset, .. } => FormatError::Malformed {
            offset,
            kind: MalformedKind::Inconsistent { field: "wal frame body" },
        },
        _ => e,
    }
}

/// The frame at the front of `b`, which begins at offset `base` of the log, and its length.
#[verifier::opaque]
pub open spec fn decoded_frame(b: Seq<u8>, base: int) -> Result<(FrameModel, int), FormatError> {
    let c = Cursor { data: b, pos: 0, base };
    match c.uint(4) {
        Ok((len, c1)) => match c1.uint(4) {
            Ok((stored, c2)) => if len > MAX_FRAME_BODY {
                Err(
                    FormatError::LengthExceedsInput {
                        offset: base as u64,
                        claimed: len as u64,
                        available: MAX_FRAME_BODY as u64,
                    },
                )
            } else {
                match c2.bytes(len as int) {
                    Ok((body, _)) => if crc32c::crc32c_of(body) != stored {
                        Err(
                            FormatError::ChecksumMismatch {
                                offset: base as u64,
                                expected: stored as u32,
                                found: crc32c::crc32c_of(body),
                            },
                        )
                    } else {
                        match parsed_body(
                            Cursor { data: body, pos: 0, base: base + FRAME_HEADER_LEN },
                        ) {
                            Ok(f) => Ok((f, FRAME_HEADER_LEN + len)),
                            Err(e) => Err(body_error(e)),
                        }
                    },
                    Err(e) => Err(e),
                }
            },
            Err(e) => Err(e),
        },
        Err(e) => Err(e),
    }
}

/// How many bytes at the front of `b` decide which frame is there: its header and the body that the
/// header declares, as far as there are as many.
pub open spec fn frame_extent(b: Seq<u8>) -> int {
    let declared = le::un_le(b.subrange(0, 4)) as int;
    if b.len() < FRAME_HEADER_LEN {
        b.len() as int
    } else if declared > MAX_FRAME_BODY {
        FRAME_HEADER_LEN as int
    } else if FRAME_HEADER_LEN + declared < b.len() {
        FRAME_HEADER_LEN + declared
    } else {
        b.len() as int
    }
}

/// What lies behind a frame does not matter to reading it.
pub proof fn lemma_frame_extent(b: Seq<u8>, base: int)
    ensures
        0 <= frame_extent(b) <= b.len(),
        decoded_frame(b.take(frame_extent(b)), base) == decoded_frame(b, base),
{
    reveal(decoded_frame);
    let e = frame_extent(b);
    let a = b.take(e);
    if e < b.len() {
        assert(a.subrange(0, 4) =~= b.subrange(0, 4));
        assert(a.subrange(4, 8) =~= b.subrange(4, 8));
        assert(a.subrange(8, e) =~= b.subrange(8, e));
    } else {
        assert(a =~= b);
    }
}

impl WalFrame {
    /// A standalone (immediately durable) operation.
    pub fn standalone(sequence: u64, op: WalOp) -> (r: Self)
        ensures
            r@ == (FrameModel { sequence, txn_id: 0, op: op@ }),
    {
        WalFrame { sequence, txn_id: 0, op }
    }

    /// An operation belonging to a transaction group.
    pub fn in_txn(sequence: u64, txn_id: u64, op: WalOp) -> (r: Self)
        ensures
            r@ == (FrameModel { sequence, txn_id, op: op@ }),
    {
        WalFrame { sequence, txn_id, op }
    }

    /// Encode the frame, framing and all.
    ///
    /// # Errors
    /// [`MalformedKind::Inconsistent`] if the body would exceed [`MAX_FRAME_BODY`].
    pub fn encode(&self) -> (r: Result<Vec<u8>, FormatError>)
        ensures
            if frame_fits(self@) {
                r matches Ok(b) && b@ == frame_bytes(self@)
            } else {
                r == Err::<Vec<u8>, FormatError>(frame_too_large())
            },
    {
        let mut w = Writer::new();
        match self.append_to(&mut w) {
            Ok(()) => {
                assert(Seq::<u8>::empty() + frame_bytes(self@) =~= frame_bytes(self@));
                Ok(w.finish())
            },
            Err(e) => Err(e),
        }
    }

    /// Append the frame to a writer, for batching several appends into one write.
    ///
    /// # Errors
    /// As [`WalFrame::encode`]. Nothing is appended then.
    pub fn append_to(&self, out: &mut Writer) -> (r: Result<(), FormatError>)
        ensures
            if frame_fits(self@) {
                r == Ok::<(), FormatError>(()) && final(out)@ == old(out)@ + frame_bytes(self@)
            } else {
                r == Err::<(), FormatError>(frame_too_large()) && final(out)@ == old(out)@
            },
    {
        proof {
            reveal(body_bytes);
            reveal(frame_bytes);
        }
        let mut body = Writer::new();
        body.varint(self.sequence);
        body.varint(self.txn_id);
        body.u8(self.op.code());
        match &self.op {
            WalOp::Put { id, vector, metadata, content } => {
                body.blob(id.as_slice());
                body.blob(vector.as_slice());
                body.blob(metadata.as_slice());
                match content {
                    Some(c) => {
                        body.u8(1);
                        body.blob(c.as_slice());
                    },
                    None => {
                        body.u8(0);
                    },
                }
            },
            WalOp::Delete { id } => {
                body.blob(id.as_slice());
            },
            WalOp::Commit { op_count } => {
                body.varint(*op_count);
            },
        }
        assert(body@ =~= body_bytes(self@));
        let len: usize = body.len();
        if len as u64 > MAX_FRAME_BODY as u64 {
            return Err(
                FormatError::Malformed {
                    offset: 0,
                    kind: MalformedKind::Inconsistent { field: "frame body length" },
                },
            );
        }
        out.u32(len as u32);
        out.u32(crc32c::crc32c(body.as_slice()));
        out.raw(body.as_slice());
        assert(out@ =~= old(out)@ + frame_bytes(self@));
        Ok(())
    }

    /// Decode one frame from the front of `bytes`, returning it and its total encoded length. What
    /// lies behind the frame is not looked at.
    ///
    /// # Errors
    /// [`FormatError::Truncated`] for an incomplete frame (a torn tail), or another
    /// [`FormatError`] for a complete but damaged one.
    pub fn decode_at(bytes: &[u8], base: u64) -> (r: Result<(Self, usize), FormatError>)
        requires
            base + frame_extent(bytes@) <= u64::MAX,
        ensures
            match decoded_frame(bytes@, base as int) {
                Ok((f, n)) => r matches Ok((frame, len)) && frame@ == f && len == n && 0 < n
                    <= bytes@.len(),
                Err(e) => r == Err::<(WalFrame, usize), FormatError>(e),
            },
    {
        proof {
            lemma_frame_extent(bytes@, base as int);
            if bytes@.len() >= 8 {
                le::lemma_pow256_values();
                le::lemma_le_of_un_le(bytes@.subrange(0, 4));
            }
        }
        if bytes.len() < FRAME_HEADER_LEN {
            assert(bytes@.take(bytes@.len() as int) =~= bytes@);
            return WalFrame::decode_front(bytes, base);
        }
        let declared: u64 = le::read_le(slice_subrange(bytes, 0, 4));
        let body: usize = if declared > MAX_FRAME_BODY as u64 {
            0
        } else {
            declared as usize
        };
        let extent: usize = if body < bytes.len() - FRAME_HEADER_LEN {
            FRAME_HEADER_LEN + body
        } else {
            bytes.len()
        };
        assert(bytes@.take(extent as int) =~= bytes@.subrange(0, extent as int));
        WalFrame::decode_front(slice_subrange(bytes, 0, extent), base)
    }

    /// Decode the frame at the front of `bytes`.
    fn decode_front(bytes: &[u8], base: u64) -> (r: Result<(Self, usize), FormatError>)
        requires
            base + bytes@.len() <= u64::MAX,
        ensures
            match decoded_frame(bytes@, base as int) {
                Ok((f, n)) => r matches Ok((frame, len)) && frame@ == f && len == n && 0 < n
                    <= bytes@.len(),
                Err(e) => r == Err::<(WalFrame, usize), FormatError>(e),
            },
    {
        proof {
            reveal(decoded_frame);
        }
        let mut r = Reader::with_base(bytes, base);
        let body_len: u32 = match r.u32() {
            Ok(v) => v,
            Err(e) => {
                return Err(e);
            },
        };
        let stored_crc: u32 = match r.u32() {
            Ok(v) => v,
            Err(e) => {
                return Err(e);
            },
        };
        if body_len > MAX_FRAME_BODY {
            return Err(
                FormatError::LengthExceedsInput {
                    offset: base,
                    claimed: body_len as u64,
                    available: MAX_FRAME_BODY as u64,
                },
            );
        }
        // Not enough bytes for the declared body is the torn-tail signal, so it must surface as
        // Truncated rather than as a length inconsistency.
        let body = match r.bytes(body_len as usize) {
            Ok(b) => b,
            Err(e) => {
                return Err(e);
            },
        };
        let computed: u32 = crc32c::crc32c(body);
        if computed != stored_crc {
            return Err(
                FormatError::ChecksumMismatch {
                    offset: base,
                    expected: stored_crc,
                    found: computed,
                },
            );
        }
        let mut b = Reader::with_base(body, base + FRAME_HEADER_LEN as u64);
        match read_body(&mut b) {
            Ok(frame) => Ok((frame, FRAME_HEADER_LEN + body_len as usize)),
            Err(FormatError::Truncated { offset, .. }) => Err(
                FormatError::Malformed {
                    offset,
                    kind: MalformedKind::Inconsistent { field: "wal frame body" },
                },
            ),
            Err(e) => Err(e),
        }
    }
}

fn read_body(b: &mut Reader<'_>) -> (r: Result<WalFrame, FormatError>)
    requires
        old(b)@.valid(),
    ensures
        match parsed_body(old(b)@) {
            Ok(f) => r matches Ok(frame) && frame@ == f,
            Err(e) => r == Err::<WalFrame, FormatError>(e),
        },
{
    proof {
        reveal(parsed_body);
    }
    let sequence: u64 = match b.varint() {
        Ok(v) => v,
        Err(e) => {
            return Err(e);
        },
    };
    let txn_id: u64 = match b.varint() {
        Ok(v) => v,
        Err(e) => {
            return Err(e);
        },
    };
    let op = match read_op(b) {
        Ok(op) => op,
        Err(e) => {
            return Err(e);
        },
    };
    match b.expect_end("wal frame body") {
        Ok(()) => Ok(WalFrame { sequence, txn_id, op }),
        Err(e) => Err(e),
    }
}

fn read_op(b: &mut Reader<'_>) -> (r: Result<WalOp, FormatError>)
    requires
        old(b)@.valid(),
    ensures
        final(b)@.valid(),
        match parsed_op(old(b)@) {
            Ok((op, c)) => r matches Ok(v) && v@ == op && final(b)@ == c,
            Err(e) => r == Err::<WalOp, FormatError>(e),
        },
{
    proof {
        reveal(parsed_op);
    }
    let op_at: u64 = b.offset();
    let code: u8 = match b.u8() {
        Ok(v) => v,
        Err(e) => {
            return Err(e);
        },
    };
    if code == OP_PUT {
        let id = match b.blob() {
            Ok(v) => slice_to_vec(v),
            Err(e) => {
                return Err(e);
            },
        };
        let vector = match b.blob() {
            Ok(v) => slice_to_vec(v),
            Err(e) => {
                return Err(e);
            },
        };
        let metadata = match b.blob() {
            Ok(v) => slice_to_vec(v),
            Err(e) => {
                return Err(e);
            },
        };
        let flag: u8 = match b.u8() {
            Ok(v) => v,
            Err(e) => {
                return Err(e);
            },
        };
        let content: Option<Vec<u8>> = if flag == 0 {
            None
        } else if flag == 1 {
            match b.blob() {
                Ok(v) => Some(slice_to_vec(v)),
                Err(e) => {
                    return Err(e);
                },
            }
        } else {
            return Err(
                FormatError::Malformed {
                    offset: b.offset(),
                    kind: MalformedKind::UnknownDiscriminant { field: "content flag", value: flag },
                },
            );
        };
        Ok(WalOp::Put { id, vector, metadata, content })
    } else if code == OP_DELETE {
        match b.blob() {
            Ok(v) => Ok(WalOp::Delete { id: slice_to_vec(v) }),
            Err(e) => Err(e),
        }
    } else if code == OP_COMMIT {
        match b.varint() {
            Ok(op_count) => Ok(WalOp::Commit { op_count }),
            Err(e) => Err(e),
        }
    } else {
        Err(
            FormatError::Malformed {
                offset: op_at,
                kind: MalformedKind::UnknownDiscriminant { field: "wal op", value: code },
            },
        )
    }
}

/// How a log ended.
#[derive(Debug, Clone, Copy, PartialEq, Eq)]
pub enum WalTail {
    /// Every byte was a complete, valid frame.
    Clean,
    /// The last frame was incomplete: a write interrupted by process death.
    ///
    /// Expected, not an error. Recovery truncates the log here and carries on.
    Torn {
        /// Where the incomplete frame began.
        offset: u64,
        /// Bytes after that point.
        trailing_bytes: usize,
    },
    /// A complete frame failed its checksum or its structure.
    ///
    /// The bytes reached the disk and are wrong, which is damage rather than an interrupted
    /// write, and is reported to the caller rather than silently discarded.
    Corrupt {
        /// Where the bad frame began.
        offset: u64,
        /// What was wrong with it.
        reason: FormatError,
    },
}

/// The result of reading a log file.
#[derive(Debug, PartialEq, Eq)]
pub struct WalScan {
    /// Frames decoded, in file order.
    pub frames: Vec<WalFrame>,
    /// How the log ended.
    pub tail: WalTail,
    /// Bytes covered by complete, valid frames: where the log should be truncated to.
    pub valid_bytes: u64,
}

/// What a list of frames holds.
pub open spec fn frame_models(frames: Seq<WalFrame>) -> Seq<FrameModel> {
    frames.map_values(|f: WalFrame| f@)
}

/// What reading a log from `at` on yields: its frames, how it ended, and where the last complete
/// frame ends.
pub open spec fn scanned(b: Seq<u8>, at: int) -> (Seq<FrameModel>, WalTail, int)
    decreases b.len() - at,
{
    if at < 0 || at >= b.len() {
        (Seq::empty(), WalTail::Clean, at)
    } else {
        match decoded_frame(b.skip(at), at) {
            Ok((f, n)) => {
                proof {
                    reveal(decoded_frame);
                }
                let (fs, tail, end) = scanned(b, at + n);
                (seq![f] + fs, tail, end)
            },
            Err(e) => if e is Truncated {
                (
                    Seq::empty(),
                    WalTail::Torn { offset: at as u64, trailing_bytes: (b.len() - at) as usize },
                    at,
                )
            } else {
                (Seq::empty(), WalTail::Corrupt { offset: at as u64, reason: e }, at)
            },
        }
    }
}

/// Read every frame in a log file's payload.
///
/// Stops at the first frame that does not decode, and reports whether that was a torn tail or
/// real corruption.
pub fn scan(bytes: &[u8]) -> (r: WalScan)
    ensures
        frame_models(r.frames@) == scanned(bytes@, 0).0,
        r.tail == scanned(bytes@, 0).1,
        r.valid_bytes == scanned(bytes@, 0).2,
        r.valid_bytes <= bytes@.len(),
{
    let mut frames: Vec<WalFrame> = Vec::new();
    let mut offset: usize = 0;
    let ghost whole = scanned(bytes@, 0);
    assert(frame_models(frames@) + whole.0 =~= whole.0);
    assert(bytes.len() == bytes@.len());
    while offset < bytes.len()
        invariant
            offset <= bytes@.len(),
            bytes@.len() <= usize::MAX,
            whole == scanned(bytes@, 0),
            frame_models(frames@) + scanned(bytes@, offset as int).0 == whole.0,
            scanned(bytes@, offset as int).1 == whole.1,
            scanned(bytes@, offset as int).2 == whole.2,
        decreases bytes.len() - offset,
    {
        let rest = slice_subrange(bytes, offset, bytes.len());
        assert(rest@ =~= bytes@.skip(offset as int));
        match WalFrame::decode_at(rest, offset as u64) {
            Ok((frame, len)) => {
                let ghost before = frames@;
                let ghost after = scanned(bytes@, offset + len);
                frames.push(frame);
                proof {
                    assert(frame_models(frames@) =~= frame_models(before).push(frame@));
                    assert(frame_models(before) + (seq![frame@] + after.0) =~= frame_models(
                        frames@,
                    ) + after.0);
                }
                offset = offset + len;
            },
            Err(e) => {
                assert(frame_models(frames@) + Seq::<FrameModel>::empty() =~= frame_models(frames@));
                let tail = if e.is_truncation() {
                    WalTail::Torn { offset: offset as u64, trailing_bytes: rest.len() }
                } else {
                    WalTail::Corrupt { offset: offset as u64, reason: e }
                };
                return WalScan { frames, tail, valid_bytes: offset as u64 };
            },
        }
    }
    assert(frame_models(frames@) + Seq::<FrameModel>::empty() =~= frame_models(frames@));
    WalScan { frames, tail: WalTail::Clean, valid_bytes: offset as u64 }
}

/// Whether a commit of group `txn` stands in `fs` at `from` or later.
pub open spec fn commit_follows(fs: Seq<FrameModel>, txn: u64, from: int) -> bool {
    exists|j: int|
        from <= j < fs.len() && (#[trigger] fs[j]).op is Commit && fs[j].txn_id == txn
}

/// Whether frame `i` of a log belongs to committed work: a standalone operation, or one of a
/// group whose commit follows it.
pub open spec fn counts(fs: Seq<FrameModel>, i: int) -> bool {
    !(fs[i].op is Commit) && (fs[i].txn_id == 0 || commit_follows(fs, fs[i].txn_id, i + 1))
}

/// Those of the first `k` frames of a log that belong to committed work.
pub open spec fn committed_prefix(fs: Seq<FrameModel>, k: int) -> Seq<FrameModel>
    decreases k,
{
    if k <= 0 {
        Seq::empty()
    } else if counts(fs, k - 1) {
        committed_prefix(fs, k - 1).push(fs[k - 1])
    } else {
        committed_prefix(fs, k - 1)
    }
}

/// What a list of borrowed frames holds.
pub open spec fn borrowed_models(frames: Seq<&WalFrame>) -> Seq<FrameModel> {
    frames.map_values(|f: &WalFrame| f@)
}

impl WalScan {
    /// Frames belonging to committed work only, in file order.
    ///
    /// Standalone frames (`txn_id == 0`) always count. Frames in a transaction group count only
    /// if that group's [`WalOp::Commit`] frame follows them, which is what makes a batch
    /// all-or-nothing across a crash.
    pub fn committed(&self) -> (r: Vec<&WalFrame>)
        ensures
            borrowed_models(r@) == committed_prefix(
                frame_models(self.frames@),
                self.frames@.len() as int,
            ),
    {
        let mut out: Vec<&WalFrame> = Vec::new();
        let ghost fs = frame_models(self.frames@);
        let mut i: usize = 0;
        assert(borrowed_models(out@) =~= committed_prefix(fs, 0));
        while i < self.frames.len()
            invariant
                i <= self.frames@.len(),
                fs == frame_models(self.frames@),
                fs.len() == self.frames@.len(),
                borrowed_models(out@) == committed_prefix(fs, i as int),
            decreases self.frames.len() - i,
        {
            let frame = &self.frames[i];
            assert(fs[i as int] == frame@);
            let is_commit: bool = matches!(frame.op, WalOp::Commit { .. });
            if !is_commit && (frame.txn_id == 0 || self.commit_after(frame.txn_id, i + 1)) {
                let ghost before = out@;
                out.push(frame);
                assert(borrowed_models(out@) =~= borrowed_models(before).push(frame@));
            }
            i += 1;
        }
        out
    }

    /// Whether a commit of group `txn` stands at `from` or later.
    fn commit_after(&self, txn: u64, from: usize) -> (r: bool)
        requires
            from <= self.frames@.len(),
        ensures
            r == commit_follows(frame_models(self.frames@), txn, from as int),
    {
        let ghost fs = frame_models(self.frames@);
        let mut j: usize = from;
        while j < self.frames.len()
            invariant
                from <= j <= self.frames@.len(),
                fs == frame_models(self.frames@),
                fs.len() == self.frames@.len(),
                forall|k: int|
                    from <= k < j ==> !((#[trigger] fs[k]).op is Commit && fs[k].txn_id == txn),
            decreases self.frames.len() - j,
        {
            let frame = &self.frames[j];
            assert(fs[j as int] == frame@);
            if frame.txn_id == txn && matches!(frame.op, WalOp::Commit { .. }) {
                return true;
            }
            j += 1;
        }
        false
    }
}

} // verus!
