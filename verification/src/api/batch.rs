//! Atomic write batches.
//!
//! Batches rather than interactive transactions: an interactive transaction needs either a write
//! lock held for the transaction's lifetime, letting an application deadlock its own database by
//! forgetting to commit, or full multi-version concurrency. Batches cover the real workload,
//! which is "ingest a lot of embeddings, then query".
//!
//! A batch is buffered in memory and written as a single append, so its commit record cannot
//! become durable separately from what it commits.
use vstd::prelude::*;

use crate::bytes;
use crate::document;
use crate::document::{own_slice, DocId, DocumentInput, IdModel, IntoDocId};
use crate::error;
use crate::error::{DbError, ErrorModel, ValidationModel};
use crate::format::value::ValueModel;
use crate::metadata;
use crate::metadata::{copy_metadata, Metadata};
use crate::validation::{check_batch_size, MAX_BATCH_OPS};

verus! {

/// One operation in a batch.
///
/// Owned rather than borrowed, unlike [`DocumentInput`]: a batch outlives the call that builds
/// it, so it cannot hold references into the caller's buffers.
#[derive(Debug, PartialEq)]
pub enum BatchOp {
    /// Insert or replace a document.
    Upsert {
        /// The document's id.
        id: DocId,
        /// Its vector, in stored byte form.
        vector: Vec<u8>,
        /// Its metadata, if any.
        metadata: Option<Metadata>,
        /// Its content, if any.
        content: Option<Vec<u8>>,
    },
    /// Remove a document.
    Delete {
        /// The document's id.
        id: DocId,
    },
}

/// An operation, independent of how it is held in memory.
#[allow(inconsistent_fields)]
pub enum BatchModel {
    Upsert {
        id: IdModel,
        vector: Seq<u8>,
        metadata: Option<Seq<(Seq<char>, ValueModel)>>,
        content: Option<Seq<u8>>,
    },
    Delete { id: IdModel },
}

impl View for BatchOp {
    type V = BatchModel;

    open spec fn view(&self) -> BatchModel {
        match self {
            BatchOp::Upsert { id, vector, metadata, content } => BatchModel::Upsert {
                id: id@,
                vector: vector@,
                metadata: metadata::option_metadata(*metadata),
                content: bytes::option_bytes(*content),
            },
            BatchOp::Delete { id } => BatchModel::Delete { id: id@ },
        }
    }
}

/// The document an operation concerns.
pub open spec fn op_id(op: BatchModel) -> IdModel {
    match op {
        BatchModel::Upsert { id, .. } => id,
        BatchModel::Delete { id } => id,
    }
}

/// What a list of operations does.
pub open spec fn op_models(ops: Seq<BatchOp>) -> Seq<BatchModel> {
    ops.map_values(|op: BatchOp| op@)
}

impl BatchOp {
    /// The document this operation concerns.
    pub fn id(&self) -> (r: &DocId)
        ensures
            r@ == op_id(self@),
            match *self {
                BatchOp::Upsert { id, .. } => r@ == id@,
                BatchOp::Delete { id } => r@ == id@,
            },
    {
        match self {
            BatchOp::Upsert { id, .. } => id,
            BatchOp::Delete { id } => id,
        }
    }
}

impl Clone for BatchOp {
    fn clone(&self) -> (r: Self)
        ensures
            r@ == self@,
    {
        match self {
            BatchOp::Upsert { id, vector, metadata, content } => BatchOp::Upsert {
                id: id.clone(),
                vector: vstd::slice::slice_to_vec(vector.as_slice()),
                metadata: copy_metadata(metadata),
                content: bytes::copy_option(content),
            },
            BatchOp::Delete { id } => BatchOp::Delete { id: id.clone() },
        }
    }
}

/// A set of writes applied atomically: all of them, or none.
#[derive(Debug, PartialEq)]
pub struct WriteBatch {
    ops: Vec<BatchOp>,
}

impl View for WriteBatch {
    type V = Seq<BatchModel>;

    closed spec fn view(&self) -> Seq<BatchModel> {
        op_models(self.ops@)
    }
}

impl WriteBatch {
    /// An empty batch.
    pub fn new() -> (r: Self)
        ensures
            r@ == Seq::<BatchModel>::empty(),
    {
        let r = WriteBatch { ops: Vec::new() };
        assert(r@ =~= Seq::<BatchModel>::empty());
        r
    }

    /// An empty batch with room for `capacity` operations.
    pub fn with_capacity(capacity: usize) -> (r: Self)
        ensures
            r@ == Seq::<BatchModel>::empty(),
    {
        let r = WriteBatch { ops: Vec::with_capacity(capacity) };
        assert(r@ =~= Seq::<BatchModel>::empty());
        r
    }

    /// Add an insert-or-replace.
    pub fn upsert(&mut self, doc: DocumentInput<'_>) -> (r: &mut Self)
        ensures
            r@ == old(self)@.push(
                BatchModel::Upsert {
                    id: doc.id@,
                    vector: doc.vector.stored(),
                    metadata: metadata::option_metadata(doc.metadata),
                    content: document::option_slice(doc.content),
                },
            ),
            *final(self) == *final(r),
    {
        let op = BatchOp::Upsert {
            id: doc.id,
            vector: doc.vector.to_bytes(),
            metadata: doc.metadata,
            content: own_slice(doc.content),
        };
        let ghost m = op@;
        self.ops.push(op);
        assert(self@ =~= old(self)@.push(m));
        self
    }

    /// Add a deletion.
    pub fn delete<I: IntoDocId>(&mut self, id: I) -> (r: &mut Self)
        ensures
            r@ == old(self)@.push(BatchModel::Delete { id: id.id_model() }),
            *final(self) == *final(r),
    {
        let op = BatchOp::Delete { id: id.into_doc_id() };
        let ghost m = op@;
        self.ops.push(op);
        assert(self@ =~= old(self)@.push(m));
        self
    }

    /// Operations in the batch.
    pub fn len(&self) -> (r: usize)
        ensures
            r == self@.len(),
    {
        self.ops.len()
    }

    /// Whether the batch is empty. An empty batch is legal and is a no-op.
    pub fn is_empty(&self) -> (r: bool)
        ensures
            r == (self@.len() == 0),
    {
        self.ops.len() == 0
    }

    /// The operations.
    pub fn ops(&self) -> (r: &[BatchOp])
        ensures
            op_models(r@) == self@,
    {
        self.ops.as_slice()
    }

    /// Consume the batch, yielding its operations.
    pub fn into_ops(self) -> (r: Vec<BatchOp>)
        ensures
            op_models(r@) == self@,
    {
        self.ops
    }

    /// Check the batch's size against the engine's limit.
    ///
    /// # Errors
    /// [`crate::error::ValidationError::BatchTooLarge`].
    pub fn validate(&self) -> (r: Result<(), DbError>)
        ensures
            r is Ok == (self@.len() <= MAX_BATCH_OPS),
            self@.len() > MAX_BATCH_OPS ==> error::failed(
                r,
                ErrorModel::Validation(
                    ValidationModel::BatchTooLarge {
                        ops: self@.len() as usize,
                        max: MAX_BATCH_OPS,
                    },
                ),
            ),
    {
        check_batch_size(self.ops.len())
    }
}

impl Default for WriteBatch {
    fn default() -> (r: Self)
        ensures
            r@ == Seq::<BatchModel>::empty(),
    {
        WriteBatch::new()
    }
}

/// What a batch did.
#[derive(Debug, Clone, Copy, PartialEq, Eq, Structural)]
pub struct BatchReport {
    /// Documents that did not previously exist.
    pub inserted: usize,
    /// Documents that replaced an existing one.
    pub updated: usize,
    /// Documents removed.
    pub deleted: usize,
    /// Deletions that matched nothing. Not an error (deleting an absent document is a no-op),
    /// but worth reporting, because a large number usually means the caller's ids are wrong.
    pub missing_deletes: usize,
}

impl BatchReport {
    /// Operations that changed something.
    pub fn changed(&self) -> (r: usize)
        requires
            self.inserted + self.updated + self.deleted <= usize::MAX,
        ensures
            r == self.inserted + self.updated + self.deleted,
    {
        self.inserted + self.updated + self.deleted
    }
}

impl Default for BatchReport {
    fn default() -> (r: Self)
        ensures
            r == (BatchReport { inserted: 0, updated: 0, deleted: 0, missing_deletes: 0 }),
    {
        BatchReport { inserted: 0, updated: 0, deleted: 0, missing_deletes: 0 }
    }
}

} // verus!
