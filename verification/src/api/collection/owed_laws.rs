//! What is accepted is done: a write, a deletion or a batch that no rule refuses is staged.
use vstd::prelude::*;

use crate::api::access::Access;
use crate::api::batch::{BatchModel, BatchReport};
use crate::api::collection::staging;
use crate::api::collection::staging::{ChangeModel, StagedWrite};
use crate::api::collection::CollModel;
use crate::document;
use crate::document::{DocumentInput, IdKind, IdModel};
use crate::error::DbError;
use crate::format::le;
use crate::format::varint;
use crate::format::wal;
use crate::format::wal::{FrameModel, OpModel};
use crate::format::wal_laws;

verus! {

proof fn lemma_id_size(id: IdModel, kind: IdKind)
    requires
        document::id_refused(id, kind) is None,
    ensures
        document::id_bytes(id).len() <= 512,
{
    if let IdModel::U64(v) = id {
        le::lemma_pow256_values();
        le::lemma_un_le_of_le(v as nat, 8);
    }
}

/// An operation of ordinary size fits a frame of the log: a write with an id of up to 512 bytes, a
/// vector of up to 65536 components, metadata of up to 1 MiB and content of up to 16 MiB, and a
/// deletion of any id of up to 16 MiB.
pub proof fn lemma_ordinary_operations_fit(f: FrameModel)
    requires
        match f.op {
            OpModel::Put { id, vector, metadata, content } => {
                &&& id.len() <= 512
                &&& vector.len() <= 262_144
                &&& metadata.len() <= 1_048_576
                &&& content is Some ==> content->0.len() <= 16_777_216
            },
            OpModel::Delete { id } => id.len() <= 16_777_216,
            OpModel::Commit { .. } => true,
        },
    ensures
        wal::frame_fits(f),
{
    reveal(wal::body_bytes);
    varint::lemma_varint_len_u64(f.sequence);
    varint::lemma_varint_len_u64(f.txn_id);
    match f.op {
        OpModel::Put { id, vector, metadata, content } => {
            varint::lemma_varint_len_u64(id.len() as u64);
            varint::lemma_varint_len_u64(vector.len() as u64);
            varint::lemma_varint_len_u64(metadata.len() as u64);
            if let Some(c) = content {
                varint::lemma_varint_len_u64(c.len() as u64);
            }
        },
        OpModel::Delete { id } => {
            varint::lemma_varint_len_u64(id.len() as u64);
        },
        OpModel::Commit { op_count } => {
            varint::lemma_varint_len_u64(op_count);
        },
    }
}

/// A document that is not refused is staged, whatever it holds.
pub proof fn lemma_accepted_write_is_staged(
    c: CollModel,
    doc: DocumentInput<'_>,
    inv_norm: u32,
    r: Result<StagedWrite, DbError>,
)
    requires
        doc.refused(c.catalog.name, c.catalog.dimension, c.catalog.id_kind) is None,
        doc.vector.stored().len() <= 262_144,
        staging::is_staged(c, staging::put_of(doc, inv_norm), r),
    ensures
        r is Ok,
{
    lemma_id_size(doc.id@, c.catalog.id_kind);
    lemma_ordinary_operations_fit(staging::standalone(c, staging::put_of(doc, inv_norm)));
}

/// A deletion is staged for every id of up to 16 MiB.
pub proof fn lemma_deletion_is_staged(c: CollModel, id: IdModel, r: Result<StagedWrite, DbError>)
    requires
        document::id_bytes(id).len() <= 16_777_216,
        staging::is_staged(c, ChangeModel::Delete { id }, r),
    ensures
        r is Ok,
{
    lemma_ordinary_operations_fit(staging::standalone(c, ChangeModel::Delete { id }));
}

proof fn lemma_batch_fits(c: CollModel, ops: Seq<BatchModel>)
    requires
        c.catalog.dimension <= 65_536,
        forall|i: int| 0 <= i < ops.len() ==> staging::op_refused(c, #[trigger] ops[i]) is None,
    ensures
        wal_laws::all_fit(staging::batch_frames(c, ops)),
{
    let fs = staging::batch_frames(c, ops);
    assert forall|i: int| 0 <= i < fs.len() implies wal::frame_fits(#[trigger] fs[i]) by {
        if i < ops.len() {
            assert(fs[i].op == staging::batch_op(ops[i]));
            assert(staging::op_refused(c, ops[i]) is None);
            match ops[i] {
                BatchModel::Upsert { id, .. } => {
                    lemma_id_size(id, c.catalog.id_kind);
                },
                BatchModel::Delete { id } => {
                    lemma_id_size(id, c.catalog.id_kind);
                },
            }
        }
        lemma_ordinary_operations_fit(fs[i]);
    }
}

/// A batch of up to 100000 operations of which none is refused is staged, all of it.
pub proof fn lemma_accepted_batch_is_staged<F: Fn(&[u8]) -> u32>(
    norm: F,
    before: CollModel,
    access: Access,
    ops: Seq<BatchModel>,
    r: Result<(Option<StagedWrite>, BatchReport), DbError>,
    after: CollModel,
)
    requires
        staging::is_batch(norm, before, access, ops, r, after),
        !access.closed,
        !access.read_only,
        before.catalog.dimension <= 65_536,
        0 < ops.len() <= 100_000,
        forall|i: int| 0 <= i < ops.len() ==> staging::op_refused(before, #[trigger] ops[i]) is None,
    ensures
        r is Ok,
        r->Ok_0.0 is Some,
        r->Ok_0.0->0.changes@.len() == ops.len(),
{
    lemma_batch_fits(before, ops);
    staging::lemma_first_refused_is(before, ops);
}

} // verus!
