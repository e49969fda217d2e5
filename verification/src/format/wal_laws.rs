//! The laws of the write-ahead log: what was appended is read back, a log cut anywhere keeps its
//! complete frames, and a batch is all or nothing.
use vstd::prelude::*;

use crate::format::crc32c;
use crate::format::cursor;
use crate::format::cursor::Cursor;
use crate::format::error::FormatError;
use crate::format::le;
use crate::format::varint;
use crate::format::wal;
use crate::format::wal::{FrameModel, OpModel, WalTail, FRAME_HEADER_LEN};

verus! {

proof fn lemma_content(c: Cursor, content: Option<Seq<u8>>)
    requires
        c.valid(),
        c.at(
            match content {
                Some(b) => seq![1u8] + cursor::blob_bytes(b),
                None => seq![0u8],
            },
        ),
    ensures
        wal::parsed_content(c) matches Ok((x, d)) && x == content && d == c.advance(
            (match content {
                Some(b) => seq![1u8] + cursor::blob_bytes(b),
                None => seq![0u8],
            }).len() as int,
        ),
{
    match content {
        Some(b) => {
            cursor::lemma_at_split(c, seq![1u8], cursor::blob_bytes(b));
            assert(c.data.subrange(c.pos, c.pos + 1)[0] == c.data[c.pos]);
            cursor::lemma_blob(c.advance(1), b);
        },
        None => {
            assert(c.data.subrange(c.pos, c.pos + 1)[0] == c.data[c.pos]);
        },
    }
}

/// Reading where an operation was written gives the operation.
proof fn lemma_op(c: Cursor, op: OpModel)
    requires
        c.valid(),
        c.at(seq![wal::code_of(op)] + wal::payload_bytes(op)),
    ensures
        wal::parsed_op(c) == Ok::<(OpModel, Cursor), FormatError>(
            (op, c.advance((seq![wal::code_of(op)] + wal::payload_bytes(op)).len() as int)),
        ),
{
    reveal(wal::parsed_op);
    let payload = wal::payload_bytes(op);
    cursor::lemma_at_split(c, seq![wal::code_of(op)], payload);
    assert(c.data.subrange(c.pos, c.pos + 1)[0] == c.data[c.pos]);
    let c1 = c.advance(1);
    match op {
        OpModel::Put { id, vector, metadata, content } => {
            let tail = match content {
                Some(b) => seq![1u8] + cursor::blob_bytes(b),
                None => seq![0u8],
            };
            let x = cursor::blob_bytes(id);
            let y = cursor::blob_bytes(vector);
            let z = cursor::blob_bytes(metadata);
            cursor::lemma_at_split(c1, x + y + z, tail);
            cursor::lemma_at_split(c1, x + y, z);
            cursor::lemma_at_split(c1, x, y);
            cursor::lemma_blob(c1, id);
            let c2 = c1.advance(x.len() as int);
            cursor::lemma_blob(c2, vector);
            let c3 = c2.advance(y.len() as int);
            cursor::lemma_blob(c3, metadata);
            let c4 = c3.advance(z.len() as int);
            lemma_content(c4, content);
        },
        OpModel::Delete { id } => {
            cursor::lemma_blob(c1, id);
        },
        OpModel::Commit { op_count } => {
            cursor::lemma_varint(c1, op_count);
        },
    }
}

/// What was read as an operation is exactly what writing it gives.
proof fn lemma_op_read(c: Cursor)
    requires
        c.valid(),
        wal::parsed_op(c) is Ok,
    ensures
        ({
            let (op, d) = wal::parsed_op(c)->Ok_0;
            let s = seq![wal::code_of(op)] + wal::payload_bytes(op);
            c.at(s) && d == c.advance(s.len() as int) && d.valid()
        }),
{
    reveal(wal::parsed_op);
    let (code, c1) = c.u8()->Ok_0;
    assert(c.data.subrange(c.pos, c.pos + 1) =~= seq![code]);
    if code == 1 {
        let (id, c2) = c1.blob()->Ok_0;
        cursor::lemma_blob_read(c1);
        let (vector, c3) = c2.blob()->Ok_0;
        cursor::lemma_blob_read(c2);
        let (metadata, c4) = c3.blob()->Ok_0;
        cursor::lemma_blob_read(c3);
        let (content, c5) = wal::parsed_content(c4)->Ok_0;
        let (flag, c4a) = c4.u8()->Ok_0;
        assert(c4.data.subrange(c4.pos, c4.pos + 1) =~= seq![flag]);
        let x = cursor::blob_bytes(id);
        let y = cursor::blob_bytes(vector);
        let z = cursor::blob_bytes(metadata);
        let tail = match content {
            Some(b) => seq![1u8] + cursor::blob_bytes(b),
            None => seq![0u8],
        };
        if flag == 1 {
            cursor::lemma_blob_read(c4a);
            cursor::lemma_at_join(c4, seq![1u8], cursor::blob_bytes(content->0));
        }
        cursor::lemma_at_join(c1, x, y);
        cursor::lemma_at_join(c1, x + y, z);
        cursor::lemma_at_join(c1, x + y + z, tail);
        cursor::lemma_at_join(c, seq![code], x + y + z + tail);
    } else if code == 2 {
        cursor::lemma_blob_read(c1);
        cursor::lemma_at_join(c, seq![code], cursor::blob_bytes(c1.blob()->Ok_0.0));
    } else {
        cursor::lemma_varint_read(c1);
        cursor::lemma_at_join(c, seq![code], varint::varint(c1.varint()->Ok_0.0 as nat));
    }
}

proof fn lemma_body(f: FrameModel, base: int)
    requires
        0 <= base,
        base + wal::body_bytes(f).len() <= u64::MAX,
    ensures
        wal::parsed_body(Cursor { data: wal::body_bytes(f), pos: 0, base }) == Ok::<
            FrameModel,
            FormatError,
        >(f),
{
    reveal(wal::parsed_body);
    reveal(wal::body_bytes);
    let c = Cursor { data: wal::body_bytes(f), pos: 0, base };
    let s = varint::varint(f.sequence as nat);
    let t = varint::varint(f.txn_id as nat);
    let o = seq![wal::code_of(f.op)] + wal::payload_bytes(f.op);
    assert(wal::body_bytes(f) =~= s + (t + o));
    assert(c.data.subrange(0, c.data.len() as int) =~= c.data);
    cursor::lemma_at_split(c, s, t + o);
    cursor::lemma_varint(c, f.sequence);
    let c1 = c.advance(s.len() as int);
    cursor::lemma_at_split(c1, t, o);
    cursor::lemma_varint(c1, f.txn_id);
    let c2 = c1.advance(t.len() as int);
    lemma_op(c2, f.op);
}

proof fn lemma_body_read(body: Seq<u8>, base: int)
    requires
        0 <= base,
        base + body.len() <= u64::MAX,
        wal::parsed_body(Cursor { data: body, pos: 0, base }) is Ok,
    ensures
        body == wal::body_bytes(wal::parsed_body(Cursor { data: body, pos: 0, base })->Ok_0),
{
    reveal(wal::parsed_body);
    reveal(wal::body_bytes);
    let c = Cursor { data: body, pos: 0, base };
    let f = wal::parsed_body(c)->Ok_0;
    let s = varint::varint(f.sequence as nat);
    let t = varint::varint(f.txn_id as nat);
    let o = seq![wal::code_of(f.op)] + wal::payload_bytes(f.op);
    cursor::lemma_varint_read(c);
    let c1 = c.varint()->Ok_0.1;
    cursor::lemma_varint_read(c1);
    let c2 = c1.varint()->Ok_0.1;
    lemma_op_read(c2);
    cursor::lemma_at_join(c1, t, o);
    cursor::lemma_at_join(c, s, t + o);
    assert(body.subrange(0, body.len() as int) =~= body);
    assert(wal::body_bytes(f) =~= s + (t + o));
}

/// The length of a frame.
pub proof fn lemma_frame_len(f: FrameModel)
    requires
        wal::frame_fits(f),
    ensures
        wal::frame_bytes(f).len() == FRAME_HEADER_LEN + wal::body_bytes(f).len(),
{
    reveal(wal::frame_bytes);
    le::lemma_le_fixed(wal::body_bytes(f).len());
    le::lemma_le_fixed(crc32c::crc32c_of(wal::body_bytes(f)) as nat);
}

/// A frame survives being appended and read back, whatever follows it.
pub proof fn lemma_frame_round_trip(f: FrameModel, rest: Seq<u8>, base: int)
    requires
        wal::frame_fits(f),
        0 <= base,
        base + wal::frame_bytes(f).len() <= u64::MAX,
    ensures
        wal::decoded_frame(wal::frame_bytes(f) + rest, base) == Ok::<(FrameModel, int), FormatError>(
            (f, wal::frame_bytes(f).len() as int),
        ),
        wal::frame_extent(wal::frame_bytes(f) + rest) == wal::frame_bytes(f).len(),
{
    reveal(wal::frame_bytes);
    reveal(wal::decoded_frame);
    let body = wal::body_bytes(f);
    let crc = crc32c::crc32c_of(body);
    let b = wal::frame_bytes(f) + rest;
    let c = Cursor { data: b, pos: 0, base };
    lemma_frame_len(f);
    le::lemma_pow256_values();
    le::lemma_le_fixed(body.len());
    le::lemma_le_fixed(crc as nat);
    assert(b.subrange(0, 4) =~= le::le(body.len(), 4));
    cursor::lemma_uint(c, body.len(), 4);
    let c1 = c.advance(4);
    assert(b.subrange(4, 8) =~= le::le(crc as nat, 4));
    cursor::lemma_uint(c1, crc as nat, 4);
    assert(b.subrange(8, 8 + body.len() as int) =~= body);
    lemma_body(f, base + FRAME_HEADER_LEN);
}

/// What decodes as a frame is exactly what appending that frame writes.
pub proof fn lemma_frame_canonical(b: Seq<u8>, base: int)
    requires
        0 <= base,
        base + b.len() <= u64::MAX,
        wal::decoded_frame(b, base) is Ok,
    ensures
        ({
            let (f, n) = wal::decoded_frame(b, base)->Ok_0;
            &&& 0 < n <= b.len()
            &&& b.take(n) == wal::frame_bytes(f)
            &&& wal::frame_fits(f)
        }),
{
    reveal(wal::frame_bytes);
    reveal(wal::decoded_frame);
    let (f, n) = wal::decoded_frame(b, base)->Ok_0;
    let c = Cursor { data: b, pos: 0, base };
    le::lemma_pow256_values();
    cursor::lemma_uint_read(c, 4);
    let c1 = c.uint(4)->Ok_0.1;
    cursor::lemma_uint_read(c1, 4);
    let len = c.uint(4)->Ok_0.0;
    let stored = c1.uint(4)->Ok_0.0;
    le::lemma_le_fixed(len);
    le::lemma_le_fixed(stored);
    let body = b.subrange(8, n);
    lemma_body_read(body, base + FRAME_HEADER_LEN);
    assert(b.take(n) =~= b.subrange(0, 4) + b.subrange(4, 8) + body);
}

/// A frame that is not all there is reported as a truncation, never as damage.
pub proof fn lemma_frame_cut(f: FrameModel, n: int, base: int)
    requires
        wal::frame_fits(f),
        0 <= n < wal::frame_bytes(f).len(),
        0 <= base,
        base + wal::frame_bytes(f).len() <= u64::MAX,
    ensures
        wal::decoded_frame(wal::frame_bytes(f).take(n), base) is Err,
        wal::decoded_frame(wal::frame_bytes(f).take(n), base)->Err_0 is Truncated,
{
    reveal(wal::frame_bytes);
    reveal(wal::decoded_frame);
    let body = wal::body_bytes(f);
    let b = wal::frame_bytes(f).take(n);
    let c = Cursor { data: b, pos: 0, base };
    lemma_frame_len(f);
    le::lemma_pow256_values();
    le::lemma_le_fixed(body.len());
    le::lemma_le_fixed(crc32c::crc32c_of(body) as nat);
    if n >= 4 {
        assert(b.subrange(0, 4) =~= le::le(body.len(), 4));
        cursor::lemma_uint(c, body.len(), 4);
    }
}

/// A changed byte in the body of a frame is told apart from a frame that was cut: it is a
/// checksum that does not match, whatever follows.
pub proof fn lemma_frame_damage_caught(f: FrameModel, i: int, x: u8, rest: Seq<u8>, base: int)
    requires
        wal::frame_fits(f),
        FRAME_HEADER_LEN <= i < wal::frame_bytes(f).len(),
        x != wal::frame_bytes(f)[i],
        0 <= base,
        base + wal::frame_bytes(f).len() <= u64::MAX,
    ensures
        wal::decoded_frame(wal::frame_bytes(f).update(i, x) + rest, base) == Err::<
            (FrameModel, int),
            FormatError,
        >(
            FormatError::ChecksumMismatch {
                offset: base as u64,
                expected: crc32c::crc32c_of(wal::body_bytes(f)),
                found: crc32c::crc32c_of(wal::body_bytes(f).update(i - FRAME_HEADER_LEN, x)),
            },
        ),
        wal::frame_extent(wal::frame_bytes(f).update(i, x) + rest) == wal::frame_bytes(f).len(),
{
    reveal(wal::frame_bytes);
    reveal(wal::decoded_frame);
    let body = wal::body_bytes(f);
    let changed = body.update(i - FRAME_HEADER_LEN, x);
    let crc = crc32c::crc32c_of(body);
    let b = wal::frame_bytes(f).update(i, x) + rest;
    let c = Cursor { data: b, pos: 0, base };
    lemma_frame_len(f);
    le::lemma_pow256_values();
    le::lemma_le_fixed(body.len());
    le::lemma_le_fixed(crc as nat);
    assert(b.subrange(0, 4) =~= le::le(body.len(), 4));
    cursor::lemma_uint(c, body.len(), 4);
    assert(b.subrange(4, 8) =~= le::le(crc as nat, 4));
    cursor::lemma_uint(c.advance(4), crc as nat, 4);
    assert(b.subrange(8, 8 + body.len() as int) =~= changed);
    crc32c::lemma_crc_detects_byte_change(body, i - FRAME_HEADER_LEN, x);
}

/// A document without content and one with empty content are logged differently, and each is read
/// back as what it was.
pub proof fn lemma_no_content_is_not_empty_content(
    sequence: u64,
    txn_id: u64,
    id: Seq<u8>,
    vector: Seq<u8>,
    metadata: Seq<u8>,
)
    requires
        ({
            let f = without_content(sequence, txn_id, id, vector, metadata);
            let g = with_content(sequence, txn_id, id, vector, metadata, Seq::empty());
            &&& wal::frame_fits(f)
            &&& wal::frame_fits(g)
        }),
    ensures
        ({
            let f = without_content(sequence, txn_id, id, vector, metadata);
            let g = with_content(sequence, txn_id, id, vector, metadata, Seq::empty());
            &&& wal::frame_bytes(f) != wal::frame_bytes(g)
            &&& wal::decoded_frame(wal::frame_bytes(f), 0) == Ok::<(FrameModel, int), FormatError>(
                (f, wal::frame_bytes(f).len() as int),
            )
            &&& wal::decoded_frame(wal::frame_bytes(g), 0) == Ok::<(FrameModel, int), FormatError>(
                (g, wal::frame_bytes(g).len() as int),
            )
        }),
{
    let f = without_content(sequence, txn_id, id, vector, metadata);
    let g = with_content(sequence, txn_id, id, vector, metadata, Seq::empty());
    let none = Seq::<u8>::empty();
    lemma_frame_len(f);
    lemma_frame_len(g);
    lemma_frame_round_trip(f, none, 0);
    lemma_frame_round_trip(g, none, 0);
    assert(wal::frame_bytes(f) + none =~= wal::frame_bytes(f));
    assert(wal::frame_bytes(g) + none =~= wal::frame_bytes(g));
}

/// A document's write without content.
pub open spec fn without_content(
    sequence: u64,
    txn_id: u64,
    id: Seq<u8>,
    vector: Seq<u8>,
    metadata: Seq<u8>,
) -> FrameModel {
    FrameModel { sequence, txn_id, op: OpModel::Put { id, vector, metadata, content: None } }
}

/// A document's write with content.
pub open spec fn with_content(
    sequence: u64,
    txn_id: u64,
    id: Seq<u8>,
    vector: Seq<u8>,
    metadata: Seq<u8>,
    content: Seq<u8>,
) -> FrameModel {
    FrameModel {
        sequence,
        txn_id,
        op: OpModel::Put { id, vector, metadata, content: Some(content) },
    }
}

/// The bytes of a log: its frames, one after the other.
pub open spec fn log_bytes(fs: Seq<FrameModel>) -> Seq<u8>
    decreases fs.len(),
{
    if fs.len() == 0 {
        Seq::empty()
    } else {
        log_bytes(fs.drop_last()) + wal::frame_bytes(fs.last())
    }
}

/// Whether every frame is small enough to be written.
pub open spec fn all_fit(fs: Seq<FrameModel>) -> bool {
    forall|i: int| 0 <= i < fs.len() ==> wal::frame_fits(#[trigger] fs[i])
}

/// The log of two lists of frames is the log of the one followed by that of the other.
pub proof fn lemma_log_split(a: Seq<FrameModel>, b: Seq<FrameModel>)
    ensures
        log_bytes(a + b) == log_bytes(a) + log_bytes(b),
    decreases b.len(),
{
    if b.len() == 0 {
        assert(a + b =~= a);
        assert(log_bytes(a) + log_bytes(b) =~= log_bytes(a));
    } else {
        lemma_log_split(a, b.drop_last());
        assert((a + b).drop_last() =~= a + b.drop_last());
        assert(log_bytes(a) + log_bytes(b) =~= log_bytes(a) + log_bytes(b.drop_last())
            + wal::frame_bytes(b.last()));
    }
}

/// A log of one frame is that frame.
pub proof fn lemma_log_one(f: FrameModel)
    ensures
        log_bytes(seq![f]) == wal::frame_bytes(f),
{
    assert(seq![f].drop_last() =~= Seq::<FrameModel>::empty());
    assert(log_bytes(seq![f].drop_last()) =~= Seq::<u8>::empty());
    assert(log_bytes(seq![f]) =~= wal::frame_bytes(f));
}

/// Scanning on from where `fs` was appended finds `fs` first, then what follows.
pub proof fn lemma_scan_through(b: Seq<u8>, at: int, fs: Seq<FrameModel>)
    requires
        b.len() <= u64::MAX,
        all_fit(fs),
        0 <= at,
        at + log_bytes(fs).len() <= b.len(),
        b.subrange(at, at + log_bytes(fs).len()) == log_bytes(fs),
    ensures
        ({
            let whole = wal::scanned(b, at);
            let rest = wal::scanned(b, at + log_bytes(fs).len());
            whole.0 == fs + rest.0 && whole.1 == rest.1 && whole.2 == rest.2
        }),
    decreases fs.len(),
{
    if fs.len() == 0 {
        assert(fs + wal::scanned(b, at).0 =~= wal::scanned(b, at).0);
    } else {
        let f = fs[0];
        let tail = fs.skip(1);
        let w = wal::frame_bytes(f);
        lemma_log_one(f);
        lemma_log_split(seq![f], tail);
        assert(fs =~= seq![f] + tail);
        lemma_frame_len(f);
        let all = b.subrange(at, at + log_bytes(fs).len());
        assert(b.skip(at) =~= w + b.skip(at + w.len())) by {
            assert(w =~= all.take(w.len() as int));
        }
        lemma_frame_round_trip(f, b.skip(at + w.len()), at);
        let next = at + w.len();
        assert(b.subrange(next, next + log_bytes(tail).len()) =~= log_bytes(tail)) by {
            assert(all.skip(w.len() as int) =~= log_bytes(tail));
            assert(all.skip(w.len() as int) =~= b.subrange(next, next + log_bytes(tail).len()));
        }
        assert(all_fit(tail));
        lemma_scan_through(b, next, tail);
        let rest = wal::scanned(b, at + log_bytes(fs).len());
        assert(seq![f] + (tail + rest.0) =~= fs + rest.0);
    }
}

/// Everything appended to a log is read back, in order, and the log is clean.
pub proof fn lemma_log_round_trip(fs: Seq<FrameModel>)
    requires
        all_fit(fs),
        log_bytes(fs).len() <= u64::MAX,
    ensures
        wal::scanned(log_bytes(fs), 0) == (fs, WalTail::Clean, log_bytes(fs).len() as int),
{
    let b = log_bytes(fs);
    assert(b.subrange(0, b.len() as int) =~= b);
    lemma_scan_through(b, 0, fs);
    assert(fs + Seq::<FrameModel>::empty() =~= fs);
}

/// A log cut inside a frame keeps every complete frame before the cut and is torn there, never
/// corrupt: exactly the frames before the interrupted write survive.
pub proof fn lemma_log_cut(fs: Seq<FrameModel>, f: FrameModel, n: int)
    requires
        all_fit(fs),
        wal::frame_fits(f),
        0 < n < wal::frame_bytes(f).len(),
        log_bytes(fs).len() + wal::frame_bytes(f).len() <= u64::MAX,
    ensures
        wal::scanned(log_bytes(fs) + wal::frame_bytes(f).take(n), 0) == (
            fs,
            WalTail::Torn { offset: log_bytes(fs).len() as u64, trailing_bytes: n as usize },
            log_bytes(fs).len() as int,
        ),
{
    let b = log_bytes(fs) + wal::frame_bytes(f).take(n);
    let at = log_bytes(fs).len() as int;
    assert(b.subrange(0, at) =~= log_bytes(fs));
    lemma_scan_through(b, 0, fs);
    assert(b.skip(at) =~= wal::frame_bytes(f).take(n));
    lemma_frame_cut(f, n, at);
    assert(fs + Seq::<FrameModel>::empty() =~= fs);
}

/// Whatever a scan accepts re-encodes to exactly the bytes it was read from, and no scan claims
/// more than the log holds.
pub proof fn lemma_scan_is_canonical(b: Seq<u8>, at: int)
    requires
        b.len() <= u64::MAX,
        0 <= at <= b.len(),
    ensures
        ({
            let (fs, _, end) = wal::scanned(b, at);
            &&& at <= end <= b.len()
            &&& all_fit(fs)
            &&& b.subrange(at, end) == log_bytes(fs)
        }),
        wal::scanned(b, at).1 is Clean ==> wal::scanned(b, at).2 == b.len(),
    decreases b.len() - at,
{
    let (fs, tail, end) = wal::scanned(b, at);
    if at < b.len() && wal::decoded_frame(b.skip(at), at) is Ok {
        lemma_frame_canonical(b.skip(at), at);
        let (f, n) = wal::decoded_frame(b.skip(at), at)->Ok_0;
        lemma_scan_is_canonical(b, at + n);
        let rest = wal::scanned(b, at + n).0;
        assert(b.skip(at).take(n) =~= b.subrange(at, at + n));
        lemma_log_one(f);
        lemma_log_split(seq![f], rest);
        assert(b.subrange(at, end) =~= b.subrange(at, at + n) + b.subrange(at + n, end));
        assert forall|i: int| 0 <= i < fs.len() implies wal::frame_fits(#[trigger] fs[i]) by {
            if i > 0 {
                assert(fs[i] == rest[i - 1]);
            }
        }
    } else {
        assert(b.subrange(at, end) =~= Seq::<u8>::empty());
    }
}

/// Damage never goes unnoticed: two different logs never give the same clean scan.
pub proof fn lemma_clean_scan_determines_bytes(a: Seq<u8>, b: Seq<u8>)
    requires
        a.len() <= u64::MAX,
        b.len() <= u64::MAX,
        wal::scanned(a, 0).1 is Clean,
        wal::scanned(b, 0).1 is Clean,
        wal::scanned(a, 0).0 == wal::scanned(b, 0).0,
    ensures
        a == b,
{
    lemma_scan_is_canonical(a, 0);
    lemma_scan_is_canonical(b, 0);
    assert(a.subrange(0, a.len() as int) =~= a);
    assert(b.subrange(0, b.len() as int) =~= b);
}

/// A batch is all or nothing: of a log that survives up to its first `k` frames, an operation of
/// a group belongs to committed work exactly when the group's commit survived too.
pub proof fn lemma_batch_is_atomic(fs: Seq<FrameModel>, m: int, k: int, i: int)
    requires
        0 <= i < m < fs.len(),
        0 <= i < k <= fs.len(),
        fs[m].op is Commit,
        fs[m].txn_id != 0,
        fs[i].txn_id == fs[m].txn_id,
        !(fs[i].op is Commit),
        forall|j: int|
            0 <= j < fs.len() && (#[trigger] fs[j]).op is Commit && fs[j].txn_id == fs[m].txn_id
                ==> j == m,
    ensures
        wal::counts(fs.take(k), i) <==> m < k,
{
    let gs = fs.take(k);
    assert(gs[i] == fs[i]);
    if m < k {
        assert(gs[m] == fs[m]);
    } else {
        assert forall|j: int| i + 1 <= j < gs.len() implies !((#[trigger] gs[j]).op is Commit
            && gs[j].txn_id == fs[m].txn_id) by {
            assert(gs[j] == fs[j]);
        }
    }
}

/// Standalone operations belong to committed work however the log was cut behind them.
pub proof fn lemma_standalone_counts(fs: Seq<FrameModel>, k: int, i: int)
    requires
        0 <= i < k <= fs.len(),
        fs[i].txn_id == 0,
        !(fs[i].op is Commit),
    ensures
        wal::counts(fs.take(k), i),
{
    assert(fs.take(k)[i] == fs[i]);
}

} // verus!
