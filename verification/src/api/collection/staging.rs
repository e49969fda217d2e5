//! Writing: decide, log, apply.
//!
//! A write is staged first: everything that can refuse it does so here, and what is left is the
//! bytes to append to the log. Only once those have landed is it applied. A write that is visible
//! but not logged would vanish on the next open, which is the one failure a database must never
//! have.
use vstd::prelude::*;
use vstd::slice::slice_to_vec;

use crate::api::access::Access;
use crate::api::batch;
use crate::api::batch::{BatchModel, BatchOp, BatchReport, WriteBatch};
use crate::api::collection::lifetime_laws;
use crate::api::collection::log_laws;
use crate::api::collection::{CollModel, Collection};
use crate::bytes;
use crate::document;
use crate::document::{own_slice, DocId, DocumentInput, IdKind, IdModel, IntoDocId};
use crate::error;
use crate::error::{
    ConflictError, ConflictModel, DbError, ErrorModel, TransactionError, TransactionModel,
    ValidationModel,
};
use crate::format::segment::vectors;
use crate::format::value;
use crate::format::value::ValueModel;
use crate::format::value_laws;
use crate::format::wal;
use crate::format::wal::{FrameModel, OpModel, WalOp};
use crate::format::wal_laws;
use crate::metadata;
use crate::metadata::{copy_metadata, Metadata};
use crate::persistence::recovery;
use crate::persistence::wal as log;
use crate::persistence::wal::{LogModel, PendingAppend};
use crate::persistence::Durability;
use crate::validation::MAX_BATCH_OPS;
use crate::vector;
use crate::vector::{VectorDType, VectorView};
use crate::write::memtable::{MemModel, Memtable};

verus! {

/// What an upsert did.
#[derive(Debug, Clone, Copy, PartialEq, Eq, Structural)]
pub enum UpsertOutcome {
    /// The document did not previously exist.
    Inserted,
    /// An existing document was replaced.
    Updated,
}

/// One change to the memtable.
#[derive(Debug)]
pub enum Change {
    /// Insert or replace a document.
    Put {
        /// The document's id.
        id: DocId,
        /// Its vector, in stored byte form.
        vector: Vec<u8>,
        /// The bits of the reciprocal of its vector's norm.
        inv_norm: u32,
        /// Its metadata, if any.
        metadata: Option<Metadata>,
        /// Its content, if any.
        content: Option<Vec<u8>>,
    },
    /// Remove a document.
    Delete {
        /// The document's id.
        id: DocId,
    },
}

/// A change, independent of how it is held in memory.
#[allow(inconsistent_fields)]
pub enum ChangeModel {
    Put {
        id: IdModel,
        vector: Seq<u8>,
        inv_norm: u32,
        metadata: Option<Seq<(Seq<char>, ValueModel)>>,
        content: Option<Seq<u8>>,
    },
    Delete { id: IdModel },
}

impl View for Change {
    type V = ChangeModel;

    open spec fn view(&self) -> ChangeModel {
        match self {
            Change::Put { id, vector, inv_norm, metadata, content } => ChangeModel::Put {
                id: id@,
                vector: vector@,
                inv_norm: *inv_norm,
                metadata: metadata::option_metadata(*metadata),
                content: bytes::option_bytes(*content),
            },
            Change::Delete { id } => ChangeModel::Delete { id: id@ },
        }
    }
}

/// What a list of changes does.
pub open spec fn change_models(changes: Seq<Change>) -> Seq<ChangeModel> {
    changes.map_values(|c: Change| c@)
}

/// A memtable with one more change.
pub open spec fn changed(m: MemModel, c: ChangeModel) -> MemModel {
    match c {
        ChangeModel::Put { id, vector, inv_norm, metadata, content } => m.with(
            id,
            vector,
            inv_norm,
            metadata,
            content,
        ),
        ChangeModel::Delete { id } => m.without(id),
    }
}

/// A memtable with changes applied in order.
pub open spec fn applied(m: MemModel, cs: Seq<ChangeModel>) -> MemModel
    decreases cs.len(),
{
    if cs.len() == 0 {
        m
    } else {
        changed(applied(m, cs.drop_last()), cs.last())
    }
}

/// Whether every vector of a list of changes is of the length that a collection stores.
pub open spec fn sized(cs: Seq<ChangeModel>, stride: nat) -> bool {
    forall|i: int|
        0 <= i < cs.len() ==> match #[trigger] cs[i] {
            ChangeModel::Put { vector, .. } => vector.len() == stride,
            ChangeModel::Delete { .. } => true,
        }
}

/// Whether a change is the first of a list whose vector is not of the length that a collection
/// stores.
pub open spec fn first_unsized(cs: Seq<ChangeModel>, k: int, stride: nat) -> bool {
    &&& 0 <= k < cs.len()
    &&& sized(cs.take(k), stride)
    &&& cs[k] matches ChangeModel::Put { vector, .. } && vector.len() != stride
}

/// The error for a change whose vector is not of the length that a collection stores.
pub open spec fn unsized_error(c: ChangeModel, dimension: u32) -> ErrorModel {
    vector::wrong_dimension("<input>"@, dimension, (c->vector.len() / 4) as u32)
}

/// The metadata bytes that a write logs. No metadata is no bytes.
pub open spec fn logged(m: Option<Seq<(Seq<char>, ValueModel)>>) -> Seq<u8> {
    match m {
        Some(m) => metadata::encoded(m)->Ok_0,
        None => Seq::empty(),
    }
}

/// What a change is logged as.
pub open spec fn change_op(c: ChangeModel) -> OpModel {
    match c {
        ChangeModel::Put { id, vector, inv_norm, metadata, content } => OpModel::Put {
            id: document::id_bytes(id),
            vector,
            metadata: logged(metadata),
            content,
        },
        ChangeModel::Delete { id } => OpModel::Delete { id: document::id_bytes(id) },
    }
}

/// What changes are logged as.
pub open spec fn change_ops(cs: Seq<ChangeModel>) -> Seq<OpModel> {
    cs.map_values(|c: ChangeModel| change_op(c))
}

/// A write that is ready to be logged.
#[derive(Debug)]
pub struct StagedWrite {
    /// What to append to the log.
    pub append: PendingAppend,
    /// What to apply once it has landed.
    pub changes: Vec<Change>,
}

/// The frame that a standalone change is logged as.
pub open spec fn standalone(c: CollModel, change: ChangeModel) -> FrameModel {
    FrameModel { sequence: c.log.next_sequence, txn_id: 0, op: change_op(change) }
}

/// Whether a standalone change is staged as it should be: refused where its frame is too large,
/// and otherwise ready to be logged.
pub open spec fn is_staged(c: CollModel, change: ChangeModel, r: Result<StagedWrite, DbError>) -> bool {
    if wal::frame_fits(standalone(c, change)) {
        &&& r matches Ok(s)
        &&& s.append.bytes@ == wal::frame_bytes(standalone(c, change))
        &&& s.append.next_sequence == c.log.next_sequence + 1
        &&& s.append.sync == (c.log.durability == Durability::Full)
        &&& change_models(s.changes@) == seq![change]
    } else {
        error::failed(r, log::too_large(c.log.path))
    }
}

/// The error for an id that is taken.
pub open spec fn duplicate(collection: Seq<char>, id: IdModel) -> ErrorModel {
    ErrorModel::Conflict(
        ConflictModel::DuplicateId { collection, id: document::id_text(id) },
    )
}

/// The change that writing a document makes.
pub open spec fn put_of(doc: DocumentInput<'_>, inv_norm: u32) -> ChangeModel {
    ChangeModel::Put {
        id: doc.id@,
        vector: doc.vector.stored(),
        inv_norm,
        metadata: metadata::option_metadata(doc.metadata),
        content: document::option_slice(doc.content),
    }
}

/// Why an operation of a batch is refused, if it is.
pub open spec fn op_refused(c: CollModel, op: BatchModel) -> Option<ErrorModel> {
    match op {
        BatchModel::Upsert { id, vector, metadata, content } => match document::id_refused(
            id,
            c.catalog.id_kind,
        ) {
            Some(e) => Some(e),
            None => if vector.len() != VectorDType::F32.stride(c.catalog.dimension) {
                Some(
                    vector::wrong_dimension(
                        "<input>"@,
                        c.catalog.dimension,
                        (vector.len() / 4) as u32,
                    ),
                )
            } else {
                match vector::non_finite(
                    vectors::components(vector),
                ) {
                    Some(e) => Some(e),
                    None => match document::metadata_refused(metadata) {
                        Some(e) => Some(e),
                        None => document::content_refused(content),
                    },
                }
            },
        },
        BatchModel::Delete { id } => document::id_refused(id, c.catalog.id_kind),
    }
}

/// The first operation that is refused, or how many there are where none is.
pub open spec fn first_refused(c: CollModel, ops: Seq<BatchModel>) -> nat
    decreases ops.len(),
{
    if ops.len() == 0 {
        0
    } else {
        let n = first_refused(c, ops.drop_last());
        if n < ops.len() - 1 {
            n
        } else if op_refused(c, ops.last()) is Some {
            (ops.len() - 1) as nat
        } else {
            ops.len()
        }
    }
}

/// The error for a batch one of whose operations is refused.
pub open spec fn aborted(failed_at: nat, total_ops: nat, cause: ErrorModel) -> ErrorModel {
    ErrorModel::Transaction(
        TransactionModel::Aborted {
            failed_at: failed_at as usize,
            total_ops: total_ops as usize,
            cause: Box::new(cause),
        },
    )
}

/// What a batch does, told against the collection before it.
pub open spec fn tally(c: CollModel, ops: Seq<BatchModel>) -> BatchReport
    decreases ops.len(),
{
    if ops.len() == 0 {
        BatchReport { inserted: 0, updated: 0, deleted: 0, missing_deletes: 0 }
    } else {
        let t = tally(c, ops.drop_last());
        let existed = c.located(batch::op_id(ops.last())) is Some;
        match ops.last() {
            BatchModel::Upsert { .. } => if existed {
                BatchReport { updated: (t.updated + 1) as usize, ..t }
            } else {
                BatchReport { inserted: (t.inserted + 1) as usize, ..t }
            },
            BatchModel::Delete { .. } => if existed {
                BatchReport { deleted: (t.deleted + 1) as usize, ..t }
            } else {
                BatchReport { missing_deletes: (t.missing_deletes + 1) as usize, ..t }
            },
        }
    }
}

/// Whether a change is what an operation of a batch makes, with a reciprocal norm that `norm`
/// gives.
pub open spec fn realizes<F: Fn(&[u8]) -> u32>(norm: F, op: BatchModel, c: ChangeModel) -> bool {
    match op {
        BatchModel::Upsert { id, vector, metadata, content } => match c {
            ChangeModel::Put {
                id: i,
                vector: v,
                inv_norm,
                metadata: m,
                content: b,
            } => i == id && v == vector && m == metadata && b == content && recovery::norm_of(
                norm,
                vector,
                inv_norm,
            ),
            ChangeModel::Delete { .. } => false,
        },
        BatchModel::Delete { id } => c == (ChangeModel::Delete { id }),
    }
}

/// Whether changes are what the operations of a batch make, one for one.
pub open spec fn all_realized<F: Fn(&[u8]) -> u32>(
    norm: F,
    ops: Seq<BatchModel>,
    cs: Seq<ChangeModel>,
) -> bool {
    &&& cs.len() == ops.len()
    &&& forall|i: int| 0 <= i < ops.len() ==> realizes(norm, #[trigger] ops[i], cs[i])
}

/// What an operation of a batch is logged as.
pub open spec fn batch_op(op: BatchModel) -> OpModel {
    match op {
        BatchModel::Upsert { id, vector, metadata, content } => OpModel::Put {
            id: document::id_bytes(id),
            vector,
            metadata: logged(metadata),
            content,
        },
        BatchModel::Delete { id } => OpModel::Delete { id: document::id_bytes(id) },
    }
}

/// The frames that a batch is logged as.
pub open spec fn batch_frames(c: CollModel, ops: Seq<BatchModel>) -> Seq<FrameModel> {
    log::group_frames(
        ops.map_values(|op: BatchModel| batch_op(op)),
        c.log.next_sequence,
        c.log.next_txn,
    )
}

proof fn lemma_first_refused(c: CollModel, ops: Seq<BatchModel>, k: int)
    requires
        0 <= k < ops.len(),
        first_refused(c, ops.take(k)) == k,
        op_refused(c, ops[k]) is Some,
    ensures
        first_refused(c, ops) == k,
    decreases ops.len(),
{
    if k == ops.len() - 1 {
        assert(ops.drop_last() =~= ops.take(k));
    } else {
        assert(ops.drop_last().take(k) =~= ops.take(k));
        lemma_first_refused(c, ops.drop_last(), k);
    }
}

pub proof fn lemma_none_refused(c: CollModel, ops: Seq<BatchModel>, k: int)
    requires
        0 <= k < ops.len(),
        first_refused(c, ops) == ops.len(),
    ensures
        op_refused(c, ops[k]) is None,
    decreases ops.len(),
{
    lemma_first_refused_bound(c, ops.drop_last());
    if k < ops.len() - 1 {
        lemma_none_refused(c, ops.drop_last(), k);
    }
}

proof fn lemma_first_refused_bound(c: CollModel, ops: Seq<BatchModel>)
    ensures
        first_refused(c, ops) <= ops.len(),
    decreases ops.len(),
{
    if ops.len() > 0 {
        lemma_first_refused_bound(c, ops.drop_last());
    }
}

/// Whether the keys of metadata ascend, at every depth.
pub open spec fn in_order(m: Option<Seq<(Seq<char>, ValueModel)>>) -> bool {
    m matches Some(m) ==> value::sorted_throughout(ValueModel::Object(m))
}

/// Metadata that is not refused can be written, in few enough bytes.
proof fn lemma_logged_metadata(m: Option<Seq<(Seq<char>, ValueModel)>>)
    requires
        document::metadata_refused(m) is None,
        in_order(m),
    ensures
        m matches Some(m) ==> value::storable(ValueModel::Object(m), 1) && value::encoding(
            ValueModel::Object(m),
        ).len() <= u64::MAX,
{
    if let Some(m) = m {
        value_laws::lemma_storable_of_written(ValueModel::Object(m), 1, 0);
    }
}

/// Whether the keys of the metadata that an operation writes ascend, at every depth.
spec fn op_in_order(op: BatchModel) -> bool {
    op matches BatchModel::Upsert { metadata, .. } ==> in_order(metadata)
}

/// Where an operation of a batch is refused, the first that is has none refused before it.
pub proof fn lemma_first_refused_is(c: CollModel, ops: Seq<BatchModel>)
    ensures
        first_refused(c, ops) <= ops.len(),
        first_refused(c, ops) < ops.len() ==> op_refused(
            c,
            ops[first_refused(c, ops) as int],
        ) is Some,
        forall|i: int|
            0 <= i < first_refused(c, ops) ==> op_refused(c, #[trigger] ops[i]) is None,
    decreases ops.len(),
{
    if ops.len() > 0 {
        let front = ops.drop_last();
        lemma_first_refused_is(c, front);
        assert forall|i: int| 0 <= i < first_refused(c, ops) implies op_refused(
            c,
            #[trigger] ops[i],
        ) is None by {
            if i < front.len() {
                assert(front[i] == ops[i]);
            }
        }
    }
}

/// The metadata bytes that a write logs.
fn log_metadata(m: &Option<Metadata>) -> (r: Result<Vec<u8>, DbError>)
    requires
        document::metadata_refused(metadata::option_metadata(*m)) is None,
    ensures
        r matches Ok(b) && b@ == logged(metadata::option_metadata(*m)),
        in_order(metadata::option_metadata(*m)),
{
    match m {
        Some(m) => m.encode(),
        None => Ok(Vec::new()),
    }
}

/// Whether a batch gets as far as the log: writing is allowed, it has operations but not too many,
/// and none of them is refused.
pub open spec fn is_accepted(c: CollModel, access: Access, ops: Seq<BatchModel>) -> bool {
    &&& access.refused("write a batch") is None
    &&& 0 < ops.len() <= MAX_BATCH_OPS
    &&& first_refused(c, ops) == ops.len()
}

/// Whether a batch turned out as it should: it was refused altogether, it was aborted at the first
/// operation that is refused, or every operation of it was staged.
pub open spec fn is_batch<F: Fn(&[u8]) -> u32>(
    norm: F,
    before: CollModel,
    access: Access,
    ops: Seq<BatchModel>,
    r: Result<(Option<StagedWrite>, BatchReport), DbError>,
    after: CollModel,
) -> bool {
    let refused = first_refused(before, ops);
    let fs = batch_frames(before, ops);
    let used = CollModel {
        log: LogModel { next_txn: (before.log.next_txn + 1) as u64, ..before.log },
        ..before
    };
    match access.refused("write a batch") {
        Some(e) => error::failed(r, e) && after == before,
        None => if ops.len() > MAX_BATCH_OPS {
            &&& error::failed(
                r,
                ErrorModel::Validation(
                    ValidationModel::BatchTooLarge {
                        ops: ops.len() as usize,
                        max: MAX_BATCH_OPS,
                    },
                ),
            )
            &&& after == before
        } else if ops.len() == 0 {
            &&& r matches Ok((s, report))
            &&& s is None
            &&& report == tally(before, ops)
            &&& after == before
        } else if refused < ops.len() {
            &&& error::failed(
                r,
                aborted(
                    refused,
                    ops.len(),
                    op_refused(before, ops[refused as int])->0,
                ),
            )
            &&& after == before
        } else if !wal_laws::all_fit(fs) {
            &&& error::failed(r, log::too_large(before.log.path))
            &&& after == used
        } else {
            &&& r matches Ok((Some(s), report))
            &&& report == tally(before, ops)
            &&& s.append.bytes@ == wal_laws::log_bytes(fs)
            &&& s.append.next_sequence == before.log.next_sequence + ops.len() + 1
            &&& s.append.sync == (before.log.durability != Durability::Relaxed)
            &&& all_realized(norm, ops, change_models(s.changes@))
            &&& sized(
                change_models(s.changes@),
                VectorDType::F32.stride(before.catalog.dimension),
            )
            &&& log_laws::all_recoverable(
                before.catalog.id_kind,
                VectorDType::F32.stride(before.catalog.dimension),
                change_models(s.changes@),
            )
            &&& after == used
        },
    }
}

/// A batch is all or nothing: where an operation is refused, and none before it is, the batch is
/// aborted with its index, the number of operations and the reason, nothing is staged that could
/// be appended to the log, and the collection is as it was.
pub proof fn lemma_batch_aborts_at_first_refusal<F: Fn(&[u8]) -> u32>(
    norm: F,
    before: CollModel,
    access: Access,
    ops: Seq<BatchModel>,
    r: Result<(Option<StagedWrite>, BatchReport), DbError>,
    after: CollModel,
    i: int,
)
    requires
        is_batch(norm, before, access, ops, r, after),
        access.refused("write a batch") is None,
        ops.len() <= MAX_BATCH_OPS,
        0 <= i < ops.len(),
        op_refused(before, ops[i]) is Some,
        forall|j: int| 0 <= j < i ==> op_refused(before, #[trigger] ops[j]) is None,
    ensures
        error::failed(
            r,
            ErrorModel::Transaction(
                TransactionModel::Aborted {
                    failed_at: i as usize,
                    total_ops: ops.len() as usize,
                    cause: Box::new(op_refused(before, ops[i])->0),
                },
            ),
        ),
        after == before,
{
    lemma_none_refused_before(before, ops, i);
    lemma_first_refused(before, ops, i);
}

/// The report of a batch counts each operation once, under what it did: writes of documents that
/// were not there, writes of documents that were, deletions of documents that were there, and
/// deletions of documents that were not, each told by the collection before the batch.
pub proof fn lemma_report_counts_outcomes<F: Fn(&[u8]) -> u32>(
    norm: F,
    before: CollModel,
    access: Access,
    ops: Seq<BatchModel>,
    r: Result<(Option<StagedWrite>, BatchReport), DbError>,
    after: CollModel,
)
    requires
        is_batch(norm, before, access, ops, r, after),
        r is Ok,
        ops.len() <= usize::MAX,
    ensures
        ({
            let report = r->Ok_0.1;
            &&& report.inserted == ops.filter(
                |op: BatchModel|
                    op matches BatchModel::Upsert { id, .. } && before.located(id) is None,
            ).len()
            &&& report.updated == ops.filter(
                |op: BatchModel|
                    op matches BatchModel::Upsert { id, .. } && before.located(id) is Some,
            ).len()
            &&& report.deleted == ops.filter(
                |op: BatchModel|
                    op matches BatchModel::Delete { id } && before.located(id) is Some,
            ).len()
            &&& report.missing_deletes == ops.filter(
                |op: BatchModel|
                    op matches BatchModel::Delete { id } && before.located(id) is None,
            ).len()
            &&& report.inserted + report.updated + report.deleted + report.missing_deletes
                == ops.len()
        }),
{
    lemma_tally_counts(before, ops);
}

proof fn lemma_tally_counts(c: CollModel, ops: Seq<BatchModel>)
    requires
        ops.len() <= usize::MAX,
    ensures
        ({
            let report = tally(c, ops);
            &&& report.inserted == ops.filter(
                |op: BatchModel|
                    op matches BatchModel::Upsert { id, .. } && c.located(id) is None,
            ).len()
            &&& report.updated == ops.filter(
                |op: BatchModel|
                    op matches BatchModel::Upsert { id, .. } && c.located(id) is Some,
            ).len()
            &&& report.deleted == ops.filter(
                |op: BatchModel| op matches BatchModel::Delete { id } && c.located(id) is Some,
            ).len()
            &&& report.missing_deletes == ops.filter(
                |op: BatchModel| op matches BatchModel::Delete { id } && c.located(id) is None,
            ).len()
            &&& report.inserted + report.updated + report.deleted + report.missing_deletes
                == ops.len()
        }),
    decreases ops.len(),
{
    reveal(Seq::filter);
    if ops.len() > 0 {
        lemma_tally_counts(c, ops.drop_last());
    }
}

proof fn lemma_none_refused_before(c: CollModel, ops: Seq<BatchModel>, k: int)
    requires
        0 <= k <= ops.len(),
        forall|j: int| 0 <= j < k ==> op_refused(c, #[trigger] ops[j]) is None,
    ensures
        first_refused(c, ops.take(k)) == k,
    decreases k,
{
    if k > 0 {
        lemma_none_refused_before(c, ops, k - 1);
        assert(ops.take(k).drop_last() =~= ops.take(k - 1));
        assert(ops.take(k).last() == ops[k - 1]);
    }
}

impl Collection {
    fn check(&self, doc: &DocumentInput<'_>) -> (r: Result<(), DbError>)
        ensures
            match doc.refused(self@.catalog.name, self@.catalog.dimension, self@.catalog.id_kind) {
                Some(e) => error::failed(r, e),
                None => r is Ok,
            },
    {
        doc.validate(self.catalog.name.as_str(), self.catalog.dimension, self.catalog.id_kind)
    }

    /// Stage a document's write. It has been checked.
    fn stage_put(&self, doc: DocumentInput<'_>, inv_norm: u32) -> (r: Result<StagedWrite, DbError>)
        requires
            self@.log.next_sequence < u64::MAX,
            document::metadata_refused(metadata::option_metadata(doc.metadata)) is None,
            doc.vector.wf(),
            doc.vector.spec_dimension() == self@.catalog.dimension,
            document::of_kind(doc.id@, self@.catalog.id_kind),
        ensures
            is_staged(self@, put_of(doc, inv_norm), r),
            r matches Ok(s) ==> log_laws::all_recoverable(
                self@.catalog.id_kind,
                VectorDType::F32.stride(self@.catalog.dimension),
                change_models(s.changes@),
            ),
            r matches Ok(s) ==> sized(
                change_models(s.changes@),
                VectorDType::F32.stride(self@.catalog.dimension),
            ),
    {
        let ghost change = put_of(doc, inv_norm);
        let encoded: Vec<u8> = match log_metadata(&doc.metadata) {
            Ok(b) => b,
            Err(e) => {
                return Err(e);
            },
        };
        let op = WalOp::Put {
            id: doc.id.to_bytes(),
            vector: doc.vector.to_bytes(),
            metadata: encoded,
            content: own_slice(doc.content),
        };
        assert(op@ == change_op(change));
        let append = match self.wal.append(op) {
            Ok(p) => p,
            Err(e) => {
                return Err(e);
            },
        };
        let vector: Vec<u8> = doc.vector.to_bytes();
        proof {
            if let VectorView::F32(values) = doc.vector {
                vectors::lemma_components_round_trip(values@);
            }
            assert(vector.len() == vector@.len());
            assert(vector@.len() == VectorDType::F32.stride(self@.catalog.dimension));
        }
        let mut changes: Vec<Change> = Vec::new();
        changes.push(
            Change::Put {
                id: doc.id,
                vector,
                inv_norm,
                metadata: doc.metadata,
                content: own_slice(doc.content),
            },
        );
        assert(change_models(changes@) =~= seq![change]);
        proof {
            lemma_logged_metadata(metadata::option_metadata(doc.metadata));
        }
        Ok(StagedWrite { append, changes })
    }

    /// Stage the insertion of a document, which fails if its id already exists. `inv_norm` is the
    /// bits of the reciprocal of its vector's norm. A vector given as raw bytes has as many as its
    /// dimension takes, which [`VectorView::raw`] sees to.
    ///
    /// # Errors
    /// [`ConflictError::DuplicateId`], any validation error, or a write that is refused
    /// altogether.
    pub fn insert(&self, access: Access, doc: DocumentInput<'_>, inv_norm: u32) -> (r: Result<
        StagedWrite,
        DbError,
    >)
        requires
            self@.log.next_sequence < u64::MAX,
            doc.vector.wf(),
        ensures
            r matches Ok(s) ==> log_laws::all_recoverable(
                self@.catalog.id_kind,
                VectorDType::F32.stride(self@.catalog.dimension),
                change_models(s.changes@),
            ),
            r matches Ok(s) ==> sized(
                change_models(s.changes@),
                VectorDType::F32.stride(self@.catalog.dimension),
            ),
            match access.refused("insert") {
                Some(e) => error::failed(r, e),
                None => match doc.refused(
                    self@.catalog.name,
                    self@.catalog.dimension,
                    self@.catalog.id_kind,
                ) {
                    Some(e) => error::failed(r, e),
                    None => if self@.located(doc.id@) is Some {
                        error::failed(r, duplicate(self@.catalog.name, doc.id@))
                    } else {
                        is_staged(self@, put_of(doc, inv_norm), r)
                    },
                },
            },
    {
        match access.check_writable("insert") {
            Ok(()) => {},
            Err(e) => {
                return Err(e);
            },
        }
        match self.check(&doc) {
            Ok(()) => {},
            Err(e) => {
                return Err(e);
            },
        }
        if self.locate(&doc.id).is_some() {
            return Err(
                DbError::Conflict(
                    ConflictError::DuplicateId {
                        collection: self.catalog.name.clone(),
                        id: doc.id.display(),
                    },
                ),
            );
        }
        self.stage_put(doc, inv_norm)
    }

    /// Stage the insertion or replacement of a document.
    ///
    /// # Errors
    /// Any validation error, or a write that is refused altogether.
    pub fn upsert(&self, access: Access, doc: DocumentInput<'_>, inv_norm: u32) -> (r: Result<
        (StagedWrite, UpsertOutcome),
        DbError,
    >)
        requires
            self@.log.next_sequence < u64::MAX,
            doc.vector.wf(),
        ensures
            r matches Ok((s, _)) ==> log_laws::all_recoverable(
                self@.catalog.id_kind,
                VectorDType::F32.stride(self@.catalog.dimension),
                change_models(s.changes@),
            ),
            r matches Ok((s, _)) ==> sized(
                change_models(s.changes@),
                VectorDType::F32.stride(self@.catalog.dimension),
            ),
            match access.refused("upsert") {
                Some(e) => error::failed(r, e),
                None => match doc.refused(
                    self@.catalog.name,
                    self@.catalog.dimension,
                    self@.catalog.id_kind,
                ) {
                    Some(e) => error::failed(r, e),
                    None => if wal::frame_fits(standalone(self@, put_of(doc, inv_norm))) {
                        &&& r matches Ok((s, outcome))
                        &&& is_staged(self@, put_of(doc, inv_norm), Ok(s))
                        &&& outcome == if self@.located(doc.id@) is Some {
                            UpsertOutcome::Updated
                        } else {
                            UpsertOutcome::Inserted
                        }
                    } else {
                        error::failed(r, log::too_large(self@.log.path))
                    },
                },
            },
    {
        match access.check_writable("upsert") {
            Ok(()) => {},
            Err(e) => {
                return Err(e);
            },
        }
        match self.check(&doc) {
            Ok(()) => {},
            Err(e) => {
                return Err(e);
            },
        }
        let existed: bool = self.locate(&doc.id).is_some();
        match self.stage_put(doc, inv_norm) {
            Ok(s) => Ok(
                (
                    s,
                    if existed {
                        UpsertOutcome::Updated
                    } else {
                        UpsertOutcome::Inserted
                    },
                ),
            ),
            Err(e) => Err(e),
        }
    }

    /// Stage the removal of a document. Returns whether it existed.
    ///
    /// Deleting an absent document is a no-op, not an error: making it one would force every
    /// caller doing idempotent cleanup to match on the error and ignore it. An id of the kind that
    /// this collection does not use names no document of it, and has nothing to be logged: in the
    /// log its bytes would read as another id, or as none.
    ///
    /// # Errors
    /// A write that is refused altogether.
    pub fn delete<I: IntoDocId>(&self, access: Access, id: I) -> (r: Result<
        (Option<StagedWrite>, bool),
        DbError,
    >)
        requires
            self@.log.next_sequence < u64::MAX,
        ensures
            r matches Ok((Some(s), _)) ==> log_laws::all_recoverable(
                self@.catalog.id_kind,
                VectorDType::F32.stride(self@.catalog.dimension),
                change_models(s.changes@),
            ),
            r matches Ok((Some(s), _)) ==> sized(
                change_models(s.changes@),
                VectorDType::F32.stride(self@.catalog.dimension),
            ),
            match access.refused("delete") {
                Some(e) => error::failed(r, e),
                None => {
                    let change = ChangeModel::Delete { id: id.id_model() };
                    if !document::of_kind(id.id_model(), self@.catalog.id_kind) {
                        r matches Ok((None, false))
                    } else if wal::frame_fits(standalone(self@, change)) {
                        &&& r matches Ok((Some(s), existed))
                        &&& is_staged(self@, change, Ok(s))
                        &&& existed == (self@.located(id.id_model()) is Some)
                    } else {
                        error::failed(r, log::too_large(self@.log.path))
                    }
                },
            },
    {
        match access.check_writable("delete") {
            Ok(()) => {},
            Err(e) => {
                return Err(e);
            },
        }
        let ghost change = ChangeModel::Delete { id: id.id_model() };
        let id = id.into_doc_id();
        let usable: bool = match (&id, self.catalog.id_kind) {
            (DocId::Str(_), IdKind::Str { .. }) => true,
            (DocId::U64(_), IdKind::U64) => true,
            _ => false,
        };
        if !usable {
            return Ok((None, false));
        }
        let existed: bool = self.locate(&id).is_some();
        let append = match self.wal.append(WalOp::Delete { id: id.to_bytes() }) {
            Ok(p) => p,
            Err(e) => {
                return Err(e);
            },
        };
        let mut changes: Vec<Change> = Vec::new();
        changes.push(Change::Delete { id });
        assert(change_models(changes@) =~= seq![change]);
        Ok((Some(StagedWrite { append, changes }), existed))
    }

    fn check_op(&self, op: &BatchOp) -> (r: Result<(), DbError>)
        ensures
            match op_refused(self@, op@) {
                Some(e) => error::failed(r, e),
                None => r is Ok,
            },
    {
        match op {
            BatchOp::Upsert { id, vector, metadata, content } => {
                match id.validate(self.catalog.id_kind) {
                    Ok(()) => {},
                    Err(e) => {
                        return Err(e);
                    },
                }
                let view = match VectorView::raw(
                    VectorDType::F32,
                    vector.as_slice(),
                    self.catalog.dimension,
                ) {
                    Ok(v) => v,
                    Err(e) => {
                        return Err(e);
                    },
                };
                match view.validate(self.catalog.name.as_str(), self.catalog.dimension) {
                    Ok(()) => {},
                    Err(e) => {
                        return Err(e);
                    },
                }
                if let Some(m) = metadata {
                    match m.validate() {
                        Ok(()) => {},
                        Err(e) => {
                            return Err(e);
                        },
                    }
                }
                match content {
                    Some(c) => document::check_content(Some(c.as_slice())),
                    None => Ok(()),
                }
            },
            BatchOp::Delete { id } => id.validate(self.catalog.id_kind),
        }
    }

    /// Check every operation of a batch.
    fn check_ops(&self, ops: &Vec<BatchOp>) -> (r: Result<(), DbError>)
        ensures
            ({
                let ms = batch::op_models(ops@);
                let n = first_refused(self@, ms);
                if n < ms.len() {
                    error::failed(r, aborted(n, ms.len(), op_refused(self@, ms[n as int])->0))
                } else {
                    r is Ok && n == ms.len()
                }
            }),
    {
        let ghost ms = batch::op_models(ops@);
        let mut i: usize = 0;
        assert(ms.take(0) =~= Seq::<BatchModel>::empty());
        while i < ops.len()
            invariant
                i <= ops@.len(),
                ms == batch::op_models(ops@),
                first_refused(self@, ms.take(i as int)) == i,
            decreases ops.len() - i,
        {
            proof {
                let next = ms.take(i + 1);
                assert(next.drop_last() =~= ms.take(i as int));
                assert(next.last() == ops@[i as int]@);
            }
            match self.check_op(&ops[i]) {
                Ok(()) => {},
                Err(e) => {
                    proof {
                        lemma_first_refused(self@, ms, i as int);
                    }
                    return Err(
                        DbError::Transaction(
                            TransactionError::Aborted {
                                failed_at: i,
                                total_ops: ops.len(),
                                cause: Box::new(e),
                            },
                        ),
                    );
                },
            }
            i += 1;
        }
        assert(ms.take(i as int) =~= ms);
        Ok(())
    }

    /// What a batch is logged as, and what it does.
    fn log_ops(&self, ops: &Vec<BatchOp>) -> (r: Result<(Vec<WalOp>, BatchReport), DbError>)
        requires
            first_refused(self@, batch::op_models(ops@)) == ops@.len(),
        ensures
            ({
                let ms = batch::op_models(ops@);
                &&& r matches Ok((w, report))
                &&& log::op_models(w@) == ms.map_values(|op: BatchModel| batch_op(op))
                &&& forall|j: int| 0 <= j < ms.len() ==> op_in_order(#[trigger] ms[j])
                &&& report == tally(self@, ms)
                &&& report.inserted + report.updated + report.deleted + report.missing_deletes
                    == ms.len()
            }),
    {
        let ghost ms = batch::op_models(ops@);
        let ghost all = ms.map_values(|op: BatchModel| batch_op(op));
        let mut out: Vec<WalOp> = Vec::new();
        let mut report = BatchReport::default();
        let mut i: usize = 0;
        assert(log::op_models(out@) =~= all.take(0));
        assert(ms.take(0) =~= Seq::<BatchModel>::empty());
        while i < ops.len()
            invariant
                i <= ops@.len(),
                ms == batch::op_models(ops@),
                all == ms.map_values(|op: BatchModel| batch_op(op)),
                first_refused(self@, ms) == ms.len(),
                log::op_models(out@) == all.take(i as int),
                forall|j: int| 0 <= j < i ==> op_in_order(#[trigger] ms[j]),
                report == tally(self@, ms.take(i as int)),
                report.inserted + report.updated + report.deleted + report.missing_deletes == i,
            decreases ops.len() - i,
        {
            let ghost before = out@;
            proof {
                let next = ms.take(i + 1);
                assert(next.drop_last() =~= ms.take(i as int));
                assert(next.last() == ops@[i as int]@);
                lemma_none_refused(self@, ms, i as int);
                assert(all.take(i + 1) =~= all.take(i as int).push(all[i as int]));
                assert(all[i as int] == batch_op(ops@[i as int]@));
            }
            let op = &ops[i];
            let existed: bool = self.locate(op.id()).is_some();
            let logged: WalOp = match op {
                BatchOp::Upsert { id, vector, metadata, content } => {
                    if existed {
                        report.updated = report.updated + 1;
                    } else {
                        report.inserted = report.inserted + 1;
                    }
                    let encoded: Vec<u8> = match log_metadata(metadata) {
                        Ok(b) => b,
                        Err(e) => {
                            return Err(e);
                        },
                    };
                    WalOp::Put {
                        id: id.to_bytes(),
                        vector: slice_to_vec(vector.as_slice()),
                        metadata: encoded,
                        content: bytes::copy_option(content),
                    }
                },
                BatchOp::Delete { id } => {
                    if existed {
                        report.deleted = report.deleted + 1;
                    } else {
                        report.missing_deletes = report.missing_deletes + 1;
                    }
                    WalOp::Delete { id: id.to_bytes() }
                },
            };
            out.push(logged);
            assert(log::op_models(out@) =~= log::op_models(before).push(logged@));
            i += 1;
        }
        assert(ms.take(i as int) =~= ms);
        assert(all.take(i as int) =~= all);
        Ok((out, report))
    }

    /// Stage a batch: every operation, or none of them. An empty batch stages nothing. `norm`
    /// gives the bits of the reciprocal norm of a stored vector.
    ///
    /// Everything is validated before anything is written. A batch that fails half-way through
    /// validation must not have logged its first half: that is the whole promise.
    ///
    /// # Errors
    /// [`TransactionError::Aborted`] naming the operation that failed, with nothing staged, or a
    /// batch that is refused altogether.
    pub fn write_batch<F: Fn(&[u8]) -> u32>(
        &mut self,
        access: Access,
        batch: WriteBatch,
        norm: F,
    ) -> (r: Result<(Option<StagedWrite>, BatchReport), DbError>)
        requires
            forall|b: &[u8]| #[trigger] call_requires(norm, (b,)),
            is_accepted(old(self)@, access, batch@) ==> old(self)@.log.next_sequence + batch@.len()
                < u64::MAX && old(self)@.log.next_txn < u64::MAX,
        ensures
            is_batch(norm, old(self)@, access, batch@, r, final(self)@),
    {
        match access.check_writable("write a batch") {
            Ok(()) => {},
            Err(e) => {
                return Err(e);
            },
        }
        match batch.validate() {
            Ok(()) => {},
            Err(e) => {
                return Err(e);
            },
        }
        if batch.is_empty() {
            return Ok((None, BatchReport::default()));
        }
        let ghost ms = batch@;
        let ops = batch.into_ops();
        assert(ops@.len() == ms.len());
        match self.check_ops(&ops) {
            Ok(()) => {},
            Err(e) => {
                return Err(e);
            },
        }
        let (logged, report) = match self.log_ops(&ops) {
            Ok(p) => p,
            Err(e) => {
                return Err(e);
            },
        };
        assert(logged@.len() == log::op_models(logged@).len());
        let ghost before = self@;
        let append = match self.wal.append_group(&logged) {
            Ok((_, p)) => p,
            Err(e) => {
                return Err(e);
            },
        };
        proof {
            assert forall|i: int| 0 <= i < ms.len() implies op_refused(
                before,
                #[trigger] ms[i],
            ) is None by {
                lemma_none_refused(before, ms, i);
            }
        }
        let changes = realize(ops, norm);
        proof {
            let cs = change_models(changes@);
            let stride = VectorDType::F32.stride(before.catalog.dimension);
            assert forall|i: int| 0 <= i < cs.len() implies match #[trigger] cs[i] {
                ChangeModel::Put { vector, .. } => vector.len() == stride,
                ChangeModel::Delete { .. } => true,
            } by {
                assert(realizes(norm, ms[i], cs[i]));
                assert(op_refused(before, ms[i]) is None);
            }
            assert forall|i: int| 0 <= i < cs.len() implies log_laws::recoverable(
                before.catalog.id_kind,
                stride,
                #[trigger] cs[i],
            ) by {
                assert(realizes(norm, ms[i], cs[i]));
                assert(op_refused(before, ms[i]) is None);
                assert(op_in_order(ms[i]));
                if let BatchModel::Upsert { metadata, .. } = ms[i] {
                    lemma_logged_metadata(metadata);
                }
            }
        }
        Ok((Some(StagedWrite { append, changes }), report))
    }

    /// Move on after a write was appended to the log at `offset`.
    ///
    /// # Errors
    /// [`crate::error::StorageError::Io`] if it landed anywhere but at the end of the log.
    pub fn landed(&mut self, staged: &StagedWrite, offset: u64) -> (r: Result<(), DbError>)
        requires
            old(self)@.log.bytes + staged.append.bytes@.len() <= u64::MAX,
        ensures
            if offset == old(self)@.log.bytes {
                &&& r is Ok
                &&& final(self)@ == (CollModel {
                    log: LogModel {
                        next_sequence: staged.append.next_sequence,
                        bytes: (old(self)@.log.bytes + staged.append.bytes@.len()) as u64,
                        unsynced: true,
                        ..old(self)@.log
                    },
                    ..old(self)@
                })
            } else {
                &&& error::failed(
                    r,
                    log::misplaced(old(self)@.log.path, offset, old(self)@.log.bytes),
                )
                &&& final(self)@ == old(self)@
            },
    {
        self.wal.landed(&staged.append, offset)
    }

    /// Move on after the log was synced.
    pub fn synced(&mut self)
        ensures
            final(self)@ == (CollModel {
                log: LogModel { unsynced: false, ..old(self)@.log },
                ..old(self)@
            }),
    {
        self.wal.sync();
    }

    /// Make a logged write visible. Returns whether the memtable has grown to the size at which
    /// it should be flushed.
    ///
    /// # Errors
    /// [`crate::error::ValidationError::InvalidVectorDimension`] for a vector whose bytes are not
    /// those of its declared dimension, with what came before it applied.
    pub fn complete(&mut self, staged: StagedWrite) -> (r: Result<bool, DbError>)
        requires
            old(self)@.wf(),
        ensures
            final(self)@.wf(),
            ({
                let c = old(self)@;
                let cs = change_models(staged.changes@);
                let stride = VectorDType::F32.stride(c.catalog.dimension);
                if sized(cs, stride) {
                    &&& final(self)@ == (CollModel { memtable: applied(c.memtable, cs), ..c })
                    &&& r matches Ok(full)
                    &&& full == (final(self)@.memtable.size() >= c.flush_threshold)
                } else {
                    exists|k: int| #[trigger]
                        first_unsized(cs, k, stride) && error::failed(
                            r,
                            unsized_error(cs[k], c.catalog.dimension),
                        ) && final(self)@ == (CollModel {
                            memtable: applied(c.memtable, cs.take(k)),
                            ..c
                        })
                }
            }),
            lifetime_laws::sound(old(self)@) && log_laws::all_recoverable(
                old(self)@.catalog.id_kind,
                VectorDType::F32.stride(old(self)@.catalog.dimension),
                change_models(staged.changes@),
            ) ==> lifetime_laws::sound(final(self)@),
    {
        let ghost before = self@;
        let ghost cs = change_models(staged.changes@);
        let ghost stride = VectorDType::F32.stride(before.catalog.dimension);
        proof {
            if log_laws::all_recoverable(before.catalog.id_kind, stride, cs) {
                assert forall|i: int| 0 <= i < cs.len() implies match #[trigger] cs[i] {
                    ChangeModel::Put { vector, .. } => vector.len() == stride,
                    ChangeModel::Delete { .. } => true,
                } by {
                    assert(log_laws::recoverable(before.catalog.id_kind, stride, cs[i]));
                }
            }
        }
        match apply_changes(&mut self.memtable, staged.changes) {
            Ok(()) => {},
            Err(e) => {
                return Err(e);
            },
        }
        // Reading the length establishes that the memtable fits into memory.
        let _ = self.memtable.len();
        proof {
            if lifetime_laws::sound(before) && log_laws::all_recoverable(
                before.catalog.id_kind,
                stride,
                cs,
            ) {
                lifetime_laws::lemma_write_keeps_sound(before, cs);
            }
        }
        Ok(self.memtable.byte_size() >= self.flush_threshold)
    }
}

/// The changes that a batch makes.
fn realize<F: Fn(&[u8]) -> u32>(ops: Vec<BatchOp>, norm: F) -> (r: Vec<Change>)
    requires
        forall|b: &[u8]| #[trigger] call_requires(norm, (b,)),
    ensures
        all_realized(norm, batch::op_models(ops@), change_models(r@)),
{
    let ghost ms = batch::op_models(ops@);
    let mut out: Vec<Change> = Vec::new();
    let mut i: usize = 0;
    while i < ops.len()
        invariant
            i <= ops@.len(),
            ms == batch::op_models(ops@),
            forall|b: &[u8]| #[trigger] call_requires(norm, (b,)),
            out@.len() == i,
            forall|k: int| 0 <= k < i ==> realizes(norm, #[trigger] ms[k], out@[k]@),
        decreases ops.len() - i,
    {
        let ghost before = out@;
        assert(ms[i as int] == ops@[i as int]@);
        let change: Change = match &ops[i] {
            BatchOp::Upsert { id, vector, metadata, content } => {
                let inv_norm: u32 = norm(vector.as_slice());
                assert(recovery::norm_of(norm, vector@, inv_norm));
                Change::Put {
                    id: id.clone(),
                    vector: slice_to_vec(vector.as_slice()),
                    inv_norm,
                    metadata: copy_metadata(metadata),
                    content: bytes::copy_option(content),
                }
            },
            BatchOp::Delete { id } => Change::Delete { id: id.clone() },
        };
        assert(realizes(norm, ms[i as int], change@));
        out.push(change);
        assert forall|k: int| 0 <= k < i + 1 implies realizes(
            norm,
            #[trigger] ms[k],
            out@[k]@,
        ) by {
            if k < i {
                assert(out@[k] == before[k]);
            }
        }
        i += 1;
    }
    assert(all_realized(norm, ms, change_models(out@))) by {
        let cs = change_models(out@);
        assert forall|k: int| 0 <= k < ms.len() implies realizes(norm, #[trigger] ms[k], cs[k]) by {
            assert(cs[k] == out@[k]@);
        }
    }
    out
}

/// Apply changes in order, up to the first that cannot be.
fn apply_changes(memtable: &mut Memtable, changes: Vec<Change>) -> (r: Result<(), DbError>)
    requires
        old(memtable)@.wf(),
    ensures
        final(memtable)@.wf(),
        final(memtable)@.dimension == old(memtable)@.dimension,
        final(memtable)@.dtype == old(memtable)@.dtype,
        ({
            let m = old(memtable)@;
            let cs = change_models(changes@);
            let stride = m.dtype.stride(m.dimension);
            if sized(cs, stride) {
                r is Ok && final(memtable)@ == applied(m, cs)
            } else {
                exists|k: int| #[trigger]
                    first_unsized(cs, k, stride) && error::failed(
                        r,
                        unsized_error(cs[k], m.dimension),
                    ) && final(memtable)@ == applied(m, cs.take(k))
            }
        }),
{
    let ghost cs = change_models(changes@);
    let ghost before = memtable@;
    let ghost stride = before.dtype.stride(before.dimension);
    let mut i: usize = 0;
    assert(cs.take(0) =~= Seq::<ChangeModel>::empty());
    while i < changes.len()
        invariant
            i <= changes@.len(),
            cs == change_models(changes@),
            before == old(memtable)@,
            stride == before.dtype.stride(before.dimension),
            sized(cs.take(i as int), stride),
            memtable@ == applied(before, cs.take(i as int)),
            memtable@.wf(),
            memtable@.dimension == before.dimension,
            memtable@.dtype == before.dtype,
        decreases changes.len() - i,
    {
        let ghost next = cs.take(i + 1);
        proof {
            assert(next.drop_last() =~= cs.take(i as int));
            assert(next.last() == changes@[i as int]@);
            assert(cs[i as int] == changes@[i as int]@);
        }
        match &changes[i] {
            Change::Put { id, vector, inv_norm, metadata, content } => {
                match memtable.put_bytes(
                    id.clone(),
                    vector.as_slice(),
                    *inv_norm,
                    copy_metadata(metadata),
                    bytes::copy_option(content),
                ) {
                    Ok(_) => {},
                    Err(e) => {
                        proof {
                            assert(first_unsized(cs, i as int, stride));
                        }
                        return Err(e);
                    },
                }
            },
            Change::Delete { id } => {
                let _ = memtable.delete(id.clone());
            },
        }
        assert(sized(next, stride)) by {
            assert forall|k: int| 0 <= k < next.len() implies match #[trigger] next[k] {
                ChangeModel::Put { vector, .. } => vector.len() == stride,
                ChangeModel::Delete { .. } => true,
            } by {
                if k < i {
                    assert(cs.take(i as int)[k] == next[k]);
                }
            }
        }
        i += 1;
    }
    assert(cs.take(i as int) =~= cs);
    Ok(())
}

/// When a write is made safe follows from the durability that was asked for: with `Full` every write
/// is synced, with `Batch` every batch is and no other write, with `Relaxed` none is.
pub proof fn lemma_durability_decides_what_is_synced<F: Fn(&[u8]) -> u32>(
    norm: F,
    c: CollModel,
    change: ChangeModel,
    s: StagedWrite,
    access: Access,
    ops: Seq<BatchModel>,
    r: Result<(Option<StagedWrite>, BatchReport), DbError>,
    after: CollModel,
)
    ensures
        is_staged(c, change, Ok::<StagedWrite, DbError>(s)) ==> (s.append.sync <==> c.log.durability
            is Full),
        is_batch(norm, c, access, ops, r, after) && r is Ok && r->Ok_0.0 is Some ==> (
        r->Ok_0.0->0.append.sync <==> c.log.durability is Full || c.log.durability is Batch),
{
}

/// A write takes the next sequence of the log and moves it on by as many frames as it appends: one,
/// or one for each operation of a batch and one for its commit.
pub proof fn lemma_sequences_move_on<F: Fn(&[u8]) -> u32>(
    norm: F,
    c: CollModel,
    change: ChangeModel,
    s: StagedWrite,
    access: Access,
    ops: Seq<BatchModel>,
    r: Result<(Option<StagedWrite>, BatchReport), DbError>,
    after: CollModel,
)
    requires
        ops.len() <= u32::MAX,
    ensures
        is_staged(c, change, Ok::<StagedWrite, DbError>(s)) ==> s.append.next_sequence
            == c.log.next_sequence + 1 && s.append.bytes@ == wal::frame_bytes(
            FrameModel {
                sequence: c.log.next_sequence,
                txn_id: 0,
                op: match change {
                    ChangeModel::Put { id, vector, metadata, content, .. } => OpModel::Put {
                        id: document::id_bytes(id),
                        vector,
                        metadata: match metadata {
                            Some(m) => metadata::encoded(m)->Ok_0,
                            None => Seq::empty(),
                        },
                        content,
                    },
                    ChangeModel::Delete { id } => OpModel::Delete { id: document::id_bytes(id) },
                },
            },
        ),
        is_batch(norm, c, access, ops, r, after) && r is Ok && r->Ok_0.0 is Some ==> r->Ok_0.0->0
            .append.next_sequence == c.log.next_sequence + ops.len() + 1,
{
}

} // verus!
