//! Which files are accepted, told by their bytes.
use vstd::prelude::*;

use crate::document::IdKind;
use crate::format::block;
use crate::format::catalog;
use crate::format::catalog::{CatalogModel, Metric};
use crate::format::crc32c;
use crate::format::cursor;
use crate::format::error::FormatError;
use crate::format::header;
use crate::format::header::FileKind;
use crate::format::le;
use crate::format::manifest;
use crate::format::manifest::{EntryModel, ManifestModel, SegmentRef};
use crate::format::value;
use crate::format::value::ValueModel;
use crate::format::wal;
use crate::format::wal::{FrameModel, OpModel, WalTail, FRAME_HEADER_LEN};
use crate::format::wal_laws;
use crate::format::MAGIC_PREFIX;

verus! {

/// A header is accepted exactly where it is complete, begins with the magic of a file that is known,
/// has the checksum that it says, a version and flags that can be read, a length that it has, and
/// nothing in its reserved bytes.
pub proof fn lemma_accepted_headers(b: Seq<u8>)
    ensures
        header::decoded_any(b) is Ok <==> {
            &&& b.len() >= 32
            &&& b.take(4) == MAGIC_PREFIX@
            &&& exists|k: FileKind| #[trigger] header::tag_of(k) == b.subrange(4, 8)
            &&& le::un_le(b.subrange(24, 28)) == crc32c::crc32c_of(b.take(24))
            &&& le::un_le(b.subrange(8, 10)) as u16 == 1
            &&& (le::un_le(b.subrange(10, 12)) as u16) < 4
            &&& le::un_le(b.subrange(12, 16)) as u32 >= 32
            &&& b.subrange(28, 32) == cursor::zeros(4)
        },
        header::decoded_any(b) matches Ok(h) ==> {
            &&& header::tag_of(h.kind) == b.subrange(4, 8)
            &&& h.version == le::un_le(b.subrange(8, 10)) as u16
            &&& h.header_len == le::un_le(b.subrange(12, 16)) as u32
            &&& h.payload_len == le::un_le(b.subrange(16, 24)) as u64
        },
{
    let tag = b.subrange(4, 8);
    if exists|k: FileKind| header::tag_of(k) == tag {
        let k = choose|k: FileKind| header::tag_of(k) == tag;
        assert(header::tag_of(k) == tag);
    }
}

/// A file of some kind is read exactly where its header is accepted and says that kind, it is as
/// long as the header says, and the checksum behind its payload is the payload's. What is read is
/// then the payload, every byte of it.
pub proof fn lemma_accepted_files(b: Seq<u8>, kind: FileKind)
    ensures
        block::decoded(b, kind) is Ok <==> {
            &&& header::decoded_any(b) is Ok
            &&& header::decoded_any(b)->Ok_0.kind == kind
            &&& ({
                let h = header::decoded_any(b)->Ok_0;
                let start = h.header_len as int;
                let end = start + h.payload_len;
                &&& end + 4 <= b.len()
                &&& end + 4 <= usize::MAX
                &&& le::un_le(b.subrange(end, end + 4)) == crc32c::crc32c_of(
                    b.subrange(start, end),
                )
            })
        },
        block::decoded(b, kind) is Ok ==> ({
            let h = header::decoded_any(b)->Ok_0;
            block::decoded(b, kind)->Ok_0 == b.subrange(
                h.header_len as int,
                h.header_len + h.payload_len,
            )
        }),
{
}

/// A collection's catalog is accepted exactly where the collection has a name and its vectors have
/// between one and 65536 components.
pub proof fn lemma_accepted_catalogs(c: CatalogModel)
    ensures
        catalog::checked(c) is Ok <==> c.name.len() > 0 && 1 <= c.dimension <= 65_536,
{
}

/// What is stored begins with the number that its kind has, whatever it holds: values, the operations
/// of a log, metrics and kinds of ids.
pub proof fn lemma_stored_numbers(v: ValueModel, op: OpModel, c: CatalogModel)
    ensures
        value::encoding(v).len() > 0,
        value::encoding(v)[0] == match v {
            ValueModel::Null => 0u8,
            ValueModel::Bool(b) => if b {
                2u8
            } else {
                1u8
            },
            ValueModel::I64(_) => 3u8,
            ValueModel::F64(_) => 4u8,
            ValueModel::Str(_) => 5u8,
            ValueModel::Bytes(_) => 6u8,
            ValueModel::Array(_) => 7u8,
            ValueModel::Object(_) => 8u8,
        },
        wal::code_of(op) == match op {
            OpModel::Put { .. } => 1u8,
            OpModel::Delete { .. } => 2u8,
            OpModel::Commit { .. } => 3u8,
        },
        catalog::catalog_bytes(c).len() >= 24,
        le::un_le(catalog::catalog_bytes(c).take(4)) == c.dimension,
        catalog::catalog_bytes(c)[4] == match c.metric {
            Metric::Cosine => 0u8,
            Metric::Dot => 1u8,
            Metric::L2 => 2u8,
        },
        catalog::catalog_bytes(c)[6] == match c.id_kind {
            IdKind::Str { .. } => 0u8,
            IdKind::U64 => 1u8,
        },
{
    le::lemma_pow256_values();
    le::lemma_un_le_of_le(c.dimension as nat, 4);
    le::lemma_un_le_of_le(catalog::id_limit(c.id_kind) as nat, 4);
    le::lemma_un_le_of_le(c.created_at_ms as nat, 8);
    assert(catalog::catalog_bytes(c).take(4) =~= le::le(c.dimension as nat, 4));
}

/// The rows of segments, added up.
pub open spec fn rows_together(ss: Seq<SegmentRef>) -> int {
    ss.fold_left(0int, |sum: int, s: SegmentRef| sum + s.rows)
}

proof fn lemma_rows_together(ss: Seq<SegmentRef>)
    ensures
        manifest::rows_of(ss) == rows_together(ss),
    decreases ss.len(),
{
    reveal(Seq::fold_left);
    if ss.len() > 0 {
        lemma_rows_together(ss.drop_last());
    }
}

proof fn lemma_entries(cs: Seq<EntryModel>)
    ensures
        manifest::entries_checked(cs) is Ok <==> forall|i: int|
            0 <= i < cs.len() ==> manifest::entry_checked(#[trigger] cs[i]) is Ok,
    decreases cs.len(),
{
    if cs.len() > 0 {
        let front = cs.drop_last();
        lemma_entries(front);
        assert forall|i: int| 0 <= i < front.len() implies front[i] == #[trigger] cs[i] by {}
        assert(cs.last() == cs[cs.len() - 1]);
        if manifest::entries_checked(cs) is Ok {
            assert forall|i: int| 0 <= i < cs.len() implies manifest::entry_checked(
                #[trigger] cs[i],
            ) is Ok by {
                if i < front.len() {
                    assert(manifest::entry_checked(front[i]) is Ok);
                }
            }
        }
    }
}

/// A manifest is accepted exactly where no two of its collections have one name and each of them has
/// a name, segments in the order of their ids, as many rows as its segments have together, and no
/// more live documents than rows.
pub proof fn lemma_accepted_manifests(m: ManifestModel)
    ensures
        manifest::checked(m) is Ok <==> {
            &&& forall|i: int, j: int|
                0 <= i < m.collections.len() && 0 <= j < m.collections.len() && i != j ==> (
                #[trigger] m.collections[i]).name != (#[trigger] m.collections[j]).name
            &&& forall|i: int| #![trigger m.collections[i]]
                0 <= i < m.collections.len() ==> {
                    let c = m.collections[i];
                    &&& c.name.len() > 0
                    &&& forall|a: int, b: int|
                        0 <= a < b < c.segments.len() ==> (#[trigger] c.segments[a]).id < (
                        #[trigger] c.segments[b]).id
                    &&& c.total_rows == rows_together(c.segments)
                    &&& c.live_count <= c.total_rows
                }
        },
{
    let cs = m.collections;
    lemma_entries(cs);
    assert forall|i: int| 0 <= i < cs.len() implies manifest::rows_of((#[trigger] cs[i]).segments)
        == rows_together(cs[i].segments) by {
        lemma_rows_together(cs[i].segments);
    }
}

/// A complete frame with a changed byte is damage, not an interrupted write, wherever in the log it
/// stands: what is before it is read, and it is reported, with where it begins.
pub proof fn lemma_damaged_frame_is_reported(
    fs: Seq<FrameModel>,
    f: FrameModel,
    i: int,
    x: u8,
    rest: Seq<u8>,
)
    requires
        wal_laws::all_fit(fs),
        wal::frame_fits(f),
        FRAME_HEADER_LEN <= i < wal::frame_bytes(f).len(),
        x != wal::frame_bytes(f)[i],
        wal_laws::log_bytes(fs).len() + wal::frame_bytes(f).len() + rest.len() <= u64::MAX,
    ensures
        ({
            let b = wal_laws::log_bytes(fs) + (wal::frame_bytes(f).update(i, x) + rest);
            let (got, tail, end) = wal::scanned(b, 0);
            &&& got == fs
            &&& end == wal_laws::log_bytes(fs).len()
            &&& tail matches WalTail::Corrupt { offset, reason } && offset == end && (reason matches
                FormatError::ChecksumMismatch { .. })
        }),
{
    let at = wal_laws::log_bytes(fs).len() as int;
    let bad = wal::frame_bytes(f).update(i, x) + rest;
    let b = wal_laws::log_bytes(fs) + bad;
    assert(b.subrange(0, at) =~= wal_laws::log_bytes(fs));
    wal_laws::lemma_scan_through(b, 0, fs);
    assert(b.skip(at) =~= bad);
    wal_laws::lemma_frame_damage_caught(f, i, x, rest, at);
    assert(fs + Seq::<FrameModel>::empty() =~= fs);
}

} // verus!
