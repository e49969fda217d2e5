use std::collections::HashSet;
use vdb::error::code::all_codes;
use vdb::error::{
    ConfigError, ConflictError, CorruptionError, DbError, IdRejection, IndexError, InternalError,
    LifecycleError, NameRejection, NonFiniteKind, NotFoundError, Recoverability, ResourceError,
    StorageError, StorageOp, TransactionError, ValidationError,
};
use vdb::path::{DbPath, PathRejection};

/// An internal error with a message.
fn internal(message: &str) -> DbError {
    DbError::Internal(InternalError {
        message: message.to_owned(),
        location: "tests",
    })
}


#[test]
fn codes_are_unique() {
    let mut seen: HashSet<u32> = HashSet::new();
    for (code, name, _) in all_codes() {
        assert!(
            seen.insert(code.0),
            "duplicate error code {} on {name}",
            code.0
        );
    }
}

#[test]
fn codes_are_banded_consistently() {
    for (code, name, _) in all_codes() {
        let band = code.band();
        assert!(
            (1..=9).contains(&band),
            "{name} has code {} outside the bands",
            code.0
        );
    }
}

/// Every error the engine can produce must resolve to a code that exists in the table.
#[test]
fn every_variant_maps_to_a_registered_code() {
    let known: HashSet<u32> = all_codes().iter().map(|(c, _, _)| c.0).collect();
    for e in sample_of_every_variant() {
        assert!(
            known.contains(&e.code().0),
            "{e:?} produced unregistered code {}",
            e.code().0
        );
    }
}

/// The property that makes error messages useful: they name the thing that went wrong.
#[test]
fn messages_include_their_context() {
    let e = DbError::Validation(ValidationError::InvalidVectorDimension {
        collection: "products".into(),
        expected: 768,
        actual: 384,
    });
    let s = e.message();
    assert!(s.contains("products"), "{s}");
    assert!(s.contains("768"), "{s}");
    assert!(s.contains("384"), "{s}");
    assert!(s.contains("VDB-4003"), "{s}");
}

#[test]
fn corruption_messages_render_magic_readably() {
    let e = DbError::Corruption(CorruptionError::BadMagic {
        path: DbPath::parse("MANIFEST-A").unwrap(),
        expected: *b"VDB1MANI",
        found: [0x00, 0x01, b'V', b'D', b'B', 0xff, 0x00, 0x00],
    });
    let s = e.message();
    assert!(s.contains("VDB1MANI"), "{s}");
    assert!(s.contains("\\x00\\x01VDB\\xff"), "{s}");
}

#[test]
fn recoverability_classifies_the_cases_sdks_care_about() {
    assert_eq!(
        DbError::Validation(ValidationError::TopKOutOfRange {
            requested: 0,
            max: 10_000
        })
        .recoverability(),
        Recoverability::UserError
    );
    assert_eq!(
        DbError::Corruption(CorruptionError::MissingSegment {
            collection: "c".into(),
            segment: 7
        })
        .recoverability(),
        Recoverability::NeedsRepair
    );
    assert_eq!(DbError::Cancelled.recoverability(), Recoverability::Retryable);
    assert_eq!(
        internal("invariant broken").recoverability(),
        Recoverability::Fatal
    );
}

#[test]
fn is_corruption_only_for_corruption() {
    assert!(DbError::Corruption(CorruptionError::MissingSegment {
        collection: "c".into(),
        segment: 1
    })
    .is_corruption());
    assert!(!DbError::Cancelled.is_corruption());
}

/// One instance of each leaf.
fn sample_of_every_variant() -> Vec<DbError> {
    let p = DbPath::parse("f").unwrap();
    vec![
        DbError::Config(ConfigError::InvalidDatabasePath {
            path: "x".into(),
            reason: "r".into(),
        }),
        DbError::Config(ConfigError::InvalidField {
            field: "top_k",
            value: "0".into(),
            constraint: "> 0",
        }),
        DbError::Config(ConfigError::UnsupportedByBackend {
            requested: "mmap",
            missing_capability: "mmap",
        }),
        DbError::Lifecycle(LifecycleError::DatabaseAlreadyOpen {
            path: "x".into(),
            holder: None,
        }),
        DbError::Lifecycle(LifecycleError::DatabaseNotFound { path: "x".into() }),
        DbError::Lifecycle(LifecycleError::DatabaseClosed),
        DbError::Lifecycle(LifecycleError::ReadOnly {
            operation: "insert",
        }),
        DbError::Lifecycle(LifecycleError::NotADatabase { path: "x".into() }),
        DbError::NotFound(NotFoundError::Collection { name: "c".into() }),
        DbError::NotFound(NotFoundError::Document {
            collection: "c".into(),
            id: "d".into(),
        }),
        DbError::NotFound(NotFoundError::Index {
            collection: "c".into(),
            kind: "flat".into(),
        }),
        DbError::Conflict(ConflictError::CollectionExists { name: "c".into() }),
        DbError::Conflict(ConflictError::DuplicateId {
            collection: "c".into(),
            id: "d".into(),
        }),
        DbError::Validation(ValidationError::InvalidVectorDimension {
            collection: "c".into(),
            expected: 3,
            actual: 4,
        }),
        DbError::Validation(ValidationError::InvalidVectorData {
            reason: NonFiniteKind::Nan,
            index: 0,
        }),
        DbError::Validation(ValidationError::InvalidDimension {
            dimension: 0,
            max: 65_536,
        }),
        DbError::Validation(ValidationError::InvalidDocumentId {
            reason: IdRejection::Empty,
            len: 0,
            max: 512,
        }),
        DbError::Validation(ValidationError::InvalidCollectionName {
            name: "..".into(),
            reason: NameRejection::Reserved,
        }),
        DbError::Validation(ValidationError::InvalidPath {
            path: "..".into(),
            reason: PathRejection::Empty,
        }),
        DbError::Validation(ValidationError::MetadataTooLarge {
            field: "f".into(),
            size: 1,
            max: 0,
        }),
        DbError::Validation(ValidationError::MetadataDepthExceeded { depth: 17, max: 16 }),
        DbError::Validation(ValidationError::TopKOutOfRange {
            requested: 0,
            max: 1,
        }),
        DbError::Validation(ValidationError::FilterTooComplex {
            nodes: 1,
            depth: 1,
            max_nodes: 0,
            max_depth: 0,
        }),
        DbError::Validation(ValidationError::BatchTooLarge { ops: 1, max: 0 }),
        DbError::Index(IndexError::OperationFailed {
            kind: "flat".into(),
            operation: "add",
            detail: "d".into(),
        }),
        DbError::Index(IndexError::BuildFailed {
            kind: "flat".into(),
            detail: "d".into(),
        }),
        DbError::Index(IndexError::KindUnavailable {
            kind: "hnsw".into(),
            available: vec!["flat".into()],
        }),
        DbError::Storage(StorageError::Io {
            path: p.clone(),
            operation: StorageOp::Read,
            detail: "d".into(),
        }),
        DbError::Storage(StorageError::PermissionDenied {
            path: p.clone(),
            operation: StorageOp::Open,
        }),
        DbError::Storage(StorageError::InsufficientStorage {
            required: 1,
            available: Some(0),
        }),
        DbError::Storage(StorageError::NotFound { path: p.clone() }),
        DbError::Storage(StorageError::AlreadyExists { path: p.clone() }),
        DbError::Storage(StorageError::Unsupported {
            operation: StorageOp::MemoryMap,
            backend: "memory",
        }),
        DbError::Storage(StorageError::LockUnavailable { path: p.clone() }),
        DbError::Corruption(CorruptionError::BadMagic {
            path: p.clone(),
            expected: *b"VDB1MANI",
            found: [0; 8],
        }),
        DbError::Corruption(CorruptionError::ChecksumMismatch {
            path: p.clone(),
            offset: 0,
            expected: 1,
            found: 2,
        }),
        DbError::Corruption(CorruptionError::TruncatedFile {
            path: p.clone(),
            expected_len: 2,
            actual_len: 1,
        }),
        DbError::Corruption(CorruptionError::NoValidManifest {
            path: p.clone(),
            slot_a: "bad crc".into(),
            slot_b: "missing".into(),
        }),
        DbError::Corruption(CorruptionError::MissingSegment {
            collection: "c".into(),
            segment: 1,
        }),
        DbError::Corruption(CorruptionError::UnsupportedFormatVersion {
            path: p.clone(),
            found: 2,
            min_readable: 1,
            current: 1,
        }),
        DbError::Corruption(CorruptionError::MalformedStructure {
            path: p.clone(),
            offset: 0,
            detail: "d".into(),
        }),
        DbError::Corruption(CorruptionError::InconsistentIndex {
            collection: "c".into(),
            detail: "d".into(),
        }),
        DbError::Transaction(TransactionError::Aborted {
            failed_at: 1,
            total_ops: 2,
            cause: Box::new(DbError::Cancelled),
        }),
        DbError::Transaction(TransactionError::WriteConflict {
            collection: "c".into(),
            id: "d".into(),
        }),
        DbError::ResourceExhausted(ResourceError::LimitReached {
            resource: "batch",
            requested: 2,
            limit: 1,
        }),
        DbError::ResourceExhausted(ResourceError::OutOfMemory { requested: 1 }),
        DbError::Cancelled,
        internal("boom"),
    ]
}

/// Nothing is worse than an error whose message is empty.
#[test]
fn every_variant_renders_non_empty() {
    for e in sample_of_every_variant() {
        let s = e.message();
        assert!(s.len() > 10, "{e:?} rendered as {s:?}");
        assert!(s.starts_with("[VDB-"), "{s}");
    }
}
