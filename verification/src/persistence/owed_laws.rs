//! What can be stored is stored: a segment of rows that no rule refuses is built, so that a flush of
//! them, and a rewrite of segments that can be read, succeed.
use vstd::prelude::*;

use crate::document;
use crate::error::ErrorModel;
use crate::format::catalog::CatalogModel;
use crate::format::error::FormatError;
use crate::format::segment::meta;
use crate::format::segment::meta::RecordModel;
use crate::format::segment::vectors;
use crate::format::value;
use crate::format::value_laws;
use crate::format::varint;
use crate::persistence::flush;
use crate::persistence::flush::{BuildModel, SegmentRow};
use crate::persistence::flush_laws;
use crate::persistence::segment::SegmentModel;
use crate::write::memtable::{MemModel, RowModel};

verus! {

/// The bytes of the ids of rows, added up.
pub open spec fn id_bytes_together(rows: Seq<SegmentRow>) -> nat
    decreases rows.len(),
{
    if rows.len() == 0 {
        0
    } else {
        id_bytes_together(rows.drop_last()) + document::id_bytes(rows.last().id).len()
    }
}

/// Whether a row can be stored in a segment whose vectors take so many bytes: its vector takes as
/// many, its norm is a finite number, its id is of at most 65535 bytes, its metadata can be written,
/// and it has no more than 4 GiB of metadata and content.
pub open spec fn row_fits(row: SegmentRow, stride: nat) -> bool {
    &&& row.vector.len() == stride
    &&& row.inv_norm % 0x8000_0000 < 0x7f80_0000
    &&& document::id_bytes(row.id).len() <= 65_535
    &&& record_fits(row.record)
}

/// Whether a record can be stored.
pub open spec fn record_fits(r: RecordModel) -> bool {
    &&& r.metadata is Some ==> value::storable(r.metadata->0, 1)
    &&& (match r.metadata {
        Some(v) => value::encoding(v).len(),
        None => 0,
    }) + (match r.content {
        Some(c) => c.len(),
        None => 0,
    }) <= 4_294_967_274
}

/// A record that can be stored is written, whichever of its parts it has.
pub proof fn lemma_record_is_written(r: RecordModel, at: nat)
    requires
        record_fits(r),
    ensures
        meta::record_pushed(r, at) is Ok,
{
    if let Some(v) = r.metadata {
        value_laws::lemma_written_of_storable(v, 1, 0);
        varint::lemma_varint_len_u64(value::encoding(v).len() as u64);
    }
    if let Some(c) = r.content {
        varint::lemma_varint_len_u64(c.len() as u64);
    }
}

/// A segment of up to 178956969 rows that can be stored, with up to 4 GiB of ids, is built.
pub proof fn lemma_segment_is_built(stride: nat, rows: Seq<SegmentRow>)
    requires
        rows.len() <= 178_956_969,
        forall|i: int| 0 <= i < rows.len() ==> row_fits(#[trigger] rows[i], stride),
        id_bytes_together(rows) <= u32::MAX,
    ensures
        flush::built(stride, rows) is Ok,
        flush::built(stride, rows)->Ok_0.entries.len() == rows.len(),
        flush::built(stride, rows)->Ok_0.heap.len() == id_bytes_together(rows),
        flush::built(stride, rows)->Ok_0.stride == stride,
    decreases rows.len(),
{
    if rows.len() > 0 {
        let front = rows.drop_last();
        assert forall|i: int| 0 <= i < front.len() implies row_fits(#[trigger] front[i], stride) by {
            assert(front[i] == rows[i]);
        }
        lemma_segment_is_built(stride, front);
        let row = rows[rows.len() - 1];
        assert(row_fits(row, stride));
        lemma_record_is_written(row.record, flush::built(stride, front)->Ok_0.payload.len());
    }
}

proof fn lemma_flushed(m: MemModel, stride: nat, rows: Seq<RowModel>)
    requires
        forall|i: int| 0 <= i < rows.len() ==> m.vector(#[trigger] rows[i]) is Some,
        flush::built(stride, rows.map_values(|r: RowModel| flush::flushed_row(m, r))) is Ok,
    ensures
        flush::flushed(m, stride, rows) == Ok::<BuildModel, ErrorModel>(
            flush::built(stride, rows.map_values(|r: RowModel| flush::flushed_row(m, r)))->Ok_0,
        ),
    decreases rows.len(),
{
    let out = rows.map_values(|r: RowModel| flush::flushed_row(m, r));
    if rows.len() > 0 {
        let front = rows.drop_last();
        assert(out.drop_last() =~= front.map_values(|r: RowModel| flush::flushed_row(m, r)));
        assert(m.vector(rows[rows.len() - 1]) is Some);
        assert forall|i: int| 0 <= i < front.len() implies m.vector(#[trigger] front[i]) is Some by {
            assert(front[i] == rows[i]);
        }
        lemma_flushed(m, stride, front);
    }
}

/// A flush succeeds, and writes a row for each document that is buffered, where every such document
/// can be stored.
pub proof fn lemma_flush_is_owed(c: CatalogModel, m: MemModel)
    requires
        1 <= c.dimension <= 65_536,
        m.live().len() <= 178_956_969,
        forall|i: int| 0 <= i < m.live().len() ==> m.vector(#[trigger] m.live()[i]) is Some,
        forall|i: int|
            0 <= i < m.live().len() ==> row_fits(
                flush::flushed_row(m, #[trigger] m.live()[i]),
                c.dtype.stride(c.dimension),
            ),
        id_bytes_together(flush::flushed_rows(m)) <= u32::MAX,
    ensures
        flush::shape_refused(c) is None,
        flush::flushed(m, c.dtype.stride(c.dimension), m.live()) is Ok,
        flush::flushed(m, c.dtype.stride(c.dimension), m.live())->Ok_0.entries.len()
            == m.live().len(),
{
    let stride = c.dtype.stride(c.dimension);
    let rows = flush::flushed_rows(m);
    assert forall|i: int| 0 <= i < rows.len() implies row_fits(#[trigger] rows[i], stride) by {
        assert(rows[i] == flush::flushed_row(m, m.live()[i]));
    }
    lemma_segment_is_built(stride, rows);
    lemma_flushed(m, stride, m.live());
}

proof fn lemma_built_front(stride: nat, a: Seq<SegmentRow>, b: Seq<SegmentRow>)
    requires
        flush::built(stride, a + b) is Ok,
    ensures
        flush::built(stride, a) is Ok,
    decreases b.len(),
{
    if b.len() == 0 {
        assert(a + b =~= a);
    } else {
        assert((a + b).drop_last() =~= a + b.drop_last());
        lemma_built_front(stride, a, b.drop_last());
    }
}

proof fn lemma_copied(
    stride: nat,
    before: Seq<SegmentRow>,
    b: BuildModel,
    m: SegmentModel,
    n: nat,
)
    requires
        n <= m.ids.len() <= u32::MAX,
        flush::built(stride, before) == Ok::<BuildModel, FormatError>(b),
        vectors::vector_data(m.vec_bytes, m.stride() as int) is Ok,
        forall|r: int|
            0 <= r < n && m.live(r) ==> (#[trigger] flush::copied_row(m, r as u32)) is Ok,
        flush::built(stride, before + flush_laws::copies_below(m, n)) is Ok,
    ensures
        flush::with_rows(b, m, n) == Ok::<BuildModel, ErrorModel>(
            flush::built(stride, before + flush_laws::copies_below(m, n))->Ok_0,
        ),
    decreases n,
{
    if n == 0 {
        assert(before + flush_laws::copies_below(m, n) =~= before);
    } else {
        let k = (n - 1) as nat;
        let rows = before + flush_laws::copies_below(m, n);
        if m.live(n - 1) {
            assert(flush::copied_row(m, k as u32) is Ok);
            assert(rows.drop_last() =~= before + flush_laws::copies_below(m, k));
            assert(rows.last() == flush::copied_row(m, k as u32)->Ok_0);
            lemma_copied(stride, before, b, m, k);
        } else {
            lemma_copied(stride, before, b, m, k);
        }
    }
}

/// Rewriting segments succeeds, and writes what is live in them, where every live row can be read
/// and stored.
pub proof fn lemma_compaction_is_owed(stride: nat, ms: Seq<SegmentModel>)
    requires
        forall|s: int| #![trigger ms[s]]
            0 <= s < ms.len() ==> {
                &&& ms[s].ids.len() <= u32::MAX
                &&& vectors::vector_data(ms[s].vec_bytes, ms[s].stride() as int) is Ok
                &&& forall|r: int|
                    0 <= r < ms[s].ids.len() && ms[s].live(r) ==> (#[trigger] flush::copied_row(
                        ms[s],
                        r as u32,
                    )) is Ok
            },
        flush_laws::copies(ms).len() <= 178_956_969,
        forall|i: int|
            0 <= i < flush_laws::copies(ms).len() ==> row_fits(
                #[trigger] flush_laws::copies(ms)[i],
                stride,
            ),
        id_bytes_together(flush_laws::copies(ms)) <= u32::MAX,
    ensures
        flush::compacted(stride, ms) is Ok,
        flush::compacted(stride, ms)->Ok_0.entries.len() == flush_laws::copies(ms).len(),
{
    lemma_segment_is_built(stride, flush_laws::copies(ms));
    lemma_compacted(stride, ms);
}

proof fn lemma_compacted(stride: nat, ms: Seq<SegmentModel>)
    requires
        forall|s: int| #![trigger ms[s]]
            0 <= s < ms.len() ==> {
                &&& ms[s].ids.len() <= u32::MAX
                &&& vectors::vector_data(ms[s].vec_bytes, ms[s].stride() as int) is Ok
                &&& forall|r: int|
                    0 <= r < ms[s].ids.len() && ms[s].live(r) ==> (#[trigger] flush::copied_row(
                        ms[s],
                        r as u32,
                    )) is Ok
            },
        flush::built(stride, flush_laws::copies(ms)) is Ok,
    ensures
        flush::compacted(stride, ms) == Ok::<BuildModel, ErrorModel>(
            flush::built(stride, flush_laws::copies(ms))->Ok_0,
        ),
    decreases ms.len(),
{
    if ms.len() > 0 {
        let front = ms.drop_last();
        let last = ms[ms.len() - 1];
        assert(last == ms.last());
        assert forall|s: int| 0 <= s < front.len() implies front[s] == #[trigger] ms[s] by {}
        lemma_built_front(
            stride,
            flush_laws::copies(front),
            flush_laws::copies_below(last, last.ids.len()),
        );
        lemma_compacted(stride, front);
        lemma_copied(
            stride,
            flush_laws::copies(front),
            flush::compacted(stride, front)->Ok_0,
            last,
            last.ids.len(),
        );
    }
}

} // verus!
