//! The law of the manifest encoding: encode and decode are inverses.
use vstd::prelude::*;

use crate::format::block;
use crate::format::cursor;
use crate::format::cursor::Cursor;
use crate::format::error::FormatError;
use crate::format::header::{FileKind, HEADER_LEN};
use crate::format::le;
use crate::format::manifest;
use crate::format::manifest::{EntryModel, ManifestModel, SegmentRef};
use crate::format::varint;

verus! {

proof fn lemma_zeros(c: Cursor, n: nat)
    requires
        c.at(cursor::zeros(n)),
    ensures
        c.reserved(n as int) == Ok::<((), Cursor), FormatError>(((), c.advance(n as int))),
{
    assert(cursor::zeros(n).len() == n);
}

proof fn lemma_segment(c: Cursor, s: SegmentRef, at: u64)
    requires
        c.valid(),
        c.at(manifest::segment_bytes(s)),
    ensures
        manifest::parsed_segment(c, at) == Ok::<(SegmentRef, Cursor), FormatError>(
            (s, c.advance(manifest::segment_bytes(s).len() as int)),
        ),
        manifest::segment_bytes(s).len() >= 6,
{
    let x = varint::varint(s.id as nat);
    let y = le::le(s.rows as nat, 4);
    let z = varint::varint(s.del_generation as nat);
    le::lemma_le_fixed(s.rows as nat);
    le::lemma_pow256_values();
    varint::lemma_varint_len_u64(s.id);
    varint::lemma_varint_len_u64(s.del_generation as u64);
    cursor::lemma_at_split(c, x + y, z);
    cursor::lemma_at_split(c, x, y);
    cursor::lemma_varint(c, s.id);
    let c1 = c.advance(x.len() as int);
    cursor::lemma_uint(c1, s.rows as nat, 4);
    let c2 = c1.advance(4);
    cursor::lemma_varint(c2, s.del_generation as u64);
}

proof fn lemma_segments(c: Cursor, ss: Seq<SegmentRef>, at: u64)
    requires
        c.valid(),
        c.at(manifest::segments_bytes(ss)),
    ensures
        manifest::parsed_segments(c, ss.len(), at) == Ok::<(Seq<SegmentRef>, Cursor), FormatError>(
            (ss, c.advance(manifest::segments_bytes(ss).len() as int)),
        ),
        manifest::segments_bytes(ss).len() >= 6 * ss.len(),
    decreases ss.len(),
{
    if ss.len() > 0 {
        let front = manifest::segments_bytes(ss.drop_last());
        cursor::lemma_at_split(c, front, manifest::segment_bytes(ss.last()));
        lemma_segments(c, ss.drop_last(), at);
        lemma_segment(c.advance(front.len() as int), ss.last(), at);
        assert(ss.drop_last().push(ss.last()) =~= ss);
    } else {
        assert(ss =~= Seq::<SegmentRef>::empty());
    }
}

proof fn lemma_entry_tail(c: Cursor, e: EntryModel)
    requires
        c.valid(),
        c.at(manifest::entry_tail_bytes(e)),
        e.index_snapshot != Some(u64::MAX),
    ensures
        manifest::parsed_entry_tail(e.name, e.segments, c) == Ok::<
            (EntryModel, Cursor),
            FormatError,
        >((e, c.advance(manifest::entry_tail_bytes(e).len() as int))),
        manifest::entry_tail_bytes(e).len() >= 8,
{
    let code = manifest::snapshot_code(e.index_snapshot);
    let p = varint::varint(code as nat);
    let q = varint::varint(e.last_applied_wal as nat);
    let r = varint::varint(e.live_count as nat);
    let s = varint::varint(e.total_rows as nat);
    let z = cursor::zeros(4);
    varint::lemma_varint_len_u64(code);
    varint::lemma_varint_len_u64(e.last_applied_wal);
    varint::lemma_varint_len_u64(e.live_count);
    varint::lemma_varint_len_u64(e.total_rows);
    cursor::lemma_at_split(c, p + q + r + s, z);
    cursor::lemma_at_split(c, p + q + r, s);
    cursor::lemma_at_split(c, p + q, r);
    cursor::lemma_at_split(c, p, q);
    cursor::lemma_varint(c, code);
    let c1 = c.advance(p.len() as int);
    cursor::lemma_varint(c1, e.last_applied_wal);
    let c2 = c1.advance(q.len() as int);
    cursor::lemma_varint(c2, e.live_count);
    let c3 = c2.advance(r.len() as int);
    cursor::lemma_varint(c3, e.total_rows);
    let c4 = c3.advance(s.len() as int);
    lemma_zeros(c4, 4);
}

proof fn lemma_entry(c: Cursor, e: EntryModel)
    requires
        c.valid(),
        c.at(manifest::entry_bytes(e)),
        e.index_snapshot != Some(u64::MAX),
    ensures
        manifest::parsed_entry(c) == Ok::<(EntryModel, Cursor), FormatError>(
            (e, c.advance(manifest::entry_bytes(e).len() as int)),
        ),
        manifest::entry_bytes(e).len() >= 8,
{
    let name = cursor::string_bytes(e.name);
    let n = varint::varint(e.segments.len());
    let ss = manifest::segments_bytes(e.segments);
    let tail = manifest::entry_tail_bytes(e);
    cursor::lemma_at_split(c, name + n + ss, tail);
    cursor::lemma_at_split(c, name + n, ss);
    cursor::lemma_at_split(c, name, n);
    cursor::lemma_string(c, e.name);
    let c1 = c.advance(name.len() as int);
    let c2 = c1.advance(n.len() as int);
    lemma_segments(c2, e.segments, c1.offset());
    cursor::lemma_varint(c1, e.segments.len() as u64);
    let c3 = c2.advance(ss.len() as int);
    lemma_entry_tail(c3, e);
}

/// Whether every snapshot id leaves room for its code.
pub open spec fn snapshots_fit(es: Seq<EntryModel>) -> bool {
    forall|i: int| 0 <= i < es.len() ==> (#[trigger] es[i]).index_snapshot != Some(u64::MAX)
}

proof fn lemma_entries(c: Cursor, es: Seq<EntryModel>)
    requires
        c.valid(),
        c.at(manifest::entries_bytes(es)),
        snapshots_fit(es),
    ensures
        manifest::parsed_entries(c, es.len()) == Ok::<(Seq<EntryModel>, Cursor), FormatError>(
            (es, c.advance(manifest::entries_bytes(es).len() as int)),
        ),
        manifest::entries_bytes(es).len() >= 8 * es.len(),
    decreases es.len(),
{
    if es.len() > 0 {
        let front = manifest::entries_bytes(es.drop_last());
        cursor::lemma_at_split(c, front, manifest::entry_bytes(es.last()));
        assert(snapshots_fit(es.drop_last())) by {
            assert forall|i: int| 0 <= i < es.drop_last().len() implies (
            #[trigger] es.drop_last()[i]).index_snapshot != Some(u64::MAX) by {
                assert(es.drop_last()[i] == es[i]);
            }
        }
        lemma_entries(c, es.drop_last());
        lemma_entry(c.advance(front.len() as int), es.last());
        assert(es.drop_last().push(es.last()) =~= es);
    } else {
        assert(es =~= Seq::<EntryModel>::empty());
    }
}

proof fn lemma_manifest_payload(m: ManifestModel)
    requires
        m.db_uuid.len() == 16,
        snapshots_fit(m.collections),
        manifest::manifest_bytes(m).len() <= u64::MAX,
    ensures
        manifest::parsed_manifest(manifest::manifest_bytes(m)) == Ok::<ManifestModel, FormatError>(
            m,
        ),
{
    let b = manifest::manifest_bytes(m);
    let c = Cursor { data: b, pos: 0, base: 0 };
    let s = le::le(m.sequence as nat, 8);
    let x = le::le(m.created_at_ms as nat, 8);
    let y = le::le(m.updated_at_ms as nat, 8);
    let head = manifest::manifest_head_bytes(m);
    let n = varint::varint(m.collections.len());
    let es = manifest::entries_bytes(m.collections);
    let z = cursor::zeros(8);
    le::lemma_pow256_values();
    le::lemma_le_fixed(m.sequence as nat);
    le::lemma_le_fixed(m.created_at_ms as nat);
    le::lemma_le_fixed(m.updated_at_ms as nat);
    assert(b.subrange(0, b.len() as int) =~= b);
    cursor::lemma_at_split(c, head + n + es, z);
    cursor::lemma_at_split(c, head + n, es);
    cursor::lemma_at_split(c, head, n);
    cursor::lemma_at_split(c, s + m.db_uuid + x, y);
    cursor::lemma_at_split(c, s + m.db_uuid, x);
    cursor::lemma_at_split(c, s, m.db_uuid);
    cursor::lemma_uint(c, m.sequence as nat, 8);
    let c1 = c.advance(8);
    let c2 = c1.advance(16);
    cursor::lemma_uint(c2, m.created_at_ms as nat, 8);
    let c3 = c2.advance(8);
    cursor::lemma_uint(c3, m.updated_at_ms as nat, 8);
    let c4 = c3.advance(8);
    let c5 = c4.advance(n.len() as int);
    lemma_entries(c5, m.collections);
    cursor::lemma_varint(c4, m.collections.len() as u64);
    let c6 = c5.advance(es.len() as int);
    lemma_zeros(c6, 8);
}

/// A manifest that keeps its rules survives being written and read back. The one value that does
/// not is a snapshot id of `u64::MAX`, whose code has no room left.
pub proof fn lemma_manifest_round_trip(m: ManifestModel)
    requires
        m.db_uuid.len() == 16,
        manifest::checked(m) is Ok,
        snapshots_fit(m.collections),
        manifest::manifest_bytes(m).len() + HEADER_LEN + block::TRAILER_LEN <= usize::MAX,
    ensures
        manifest::decoded(block::block_bytes(FileKind::Manifest, manifest::manifest_bytes(m)))
            == Ok::<ManifestModel, FormatError>(m),
{
    let p = manifest::manifest_bytes(m);
    let b = block::block_bytes(FileKind::Manifest, p);
    block::lemma_block_round_trip(FileKind::Manifest, p, Seq::empty());
    assert(b + Seq::<u8>::empty() =~= b);
    lemma_manifest_payload(m);
}

} // verus!
