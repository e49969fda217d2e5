//! Stable numeric error codes.
//!
//! These cross the foreign-function boundary and are part of the public contract. Two rules:
//!
//! 1. **Codes are append-only.** A released code keeps its meaning forever.
//! 2. **Codes are never reused.** If a variant is removed, its code is retired, not recycled.
//!
//! Bands mirror the error tree so a caller can classify by range without an exhaustive match.
use vstd::prelude::*;

use crate::error::{
    ConfigError, ConfigModel, ConflictError, ConflictModel, CorruptionError, CorruptionModel, DbError,
    ErrorModel, IndexError, IndexErrorModel, LifecycleError, LifecycleModel, NotFoundError,
    NotFoundModel, Recoverability, StorageError, StorageModel, TransactionError, TransactionModel,
    ValidationError, ValidationModel,
};
use crate::text;

verus! {

/// A stable, machine-matchable identifier for a failure.
#[derive(Debug, Clone, Copy, PartialEq, Eq, PartialOrd, Ord, Hash, Structural)]
pub struct ErrorCode(pub u32);

/// The configured database path was unusable.
pub const INVALID_DATABASE_PATH: u32 = 1001;

/// A configuration field was outside its permitted range.
pub const INVALID_CONFIG: u32 = 1002;

/// The storage backend cannot support the requested configuration.
pub const UNSUPPORTED_CONFIGURATION: u32 = 1003;

/// Another handle (or another process) already has this database open.
pub const DATABASE_ALREADY_OPEN: u32 = 2001;

/// The database directory does not exist and `create_if_missing` was false.
pub const DATABASE_NOT_FOUND: u32 = 2002;

/// The handle has been closed.
pub const DATABASE_CLOSED: u32 = 2003;

/// A write was attempted on a read-only handle.
pub const READ_ONLY: u32 = 2004;

/// The database directory exists but is not a vdb database.
pub const NOT_A_DATABASE: u32 = 2005;

/// No collection with that name.
pub const COLLECTION_NOT_FOUND: u32 = 3001;

/// No document with that id.
pub const DOCUMENT_NOT_FOUND: u32 = 3002;

/// No index snapshot of that kind.
pub const INDEX_NOT_FOUND: u32 = 3003;

/// A collection with that name already exists.
pub const COLLECTION_ALREADY_EXISTS: u32 = 4001;

/// A document with that id already exists and the operation was `insert`, not `upsert`.
pub const DUPLICATE_ID: u32 = 4002;

/// The vector's dimension does not match the collection's.
pub const INVALID_VECTOR_DIMENSION: u32 = 4003;

/// The vector contained a NaN or infinite component.
pub const INVALID_VECTOR_DATA: u32 = 4004;

/// The document id was empty, over-long, or not valid UTF-8.
pub const INVALID_DOCUMENT_ID: u32 = 4005;

/// The collection name was empty, over-long, or used illegal characters.
pub const INVALID_COLLECTION_NAME: u32 = 4006;

/// A metadata value or document exceeded a size limit.
pub const METADATA_TOO_LARGE: u32 = 4007;

/// Metadata nesting exceeded the depth limit.
pub const METADATA_DEPTH_EXCEEDED: u32 = 4008;

/// `top_k` was zero or above the limit.
pub const TOP_K_OUT_OF_RANGE: u32 = 4009;

/// The filter had too many nodes or was nested too deeply.
pub const FILTER_TOO_COMPLEX: u32 = 4010;

/// A batch exceeded the operation limit.
pub const BATCH_TOO_LARGE: u32 = 4011;

/// A path component was empty, relative, over-long, or contained a separator.
pub const INVALID_PATH: u32 = 4012;

/// A dimension was zero or above the limit.
pub const INVALID_DIMENSION: u32 = 4013;

/// The underlying storage reported an I/O failure.
pub const STORAGE_IO: u32 = 5001;

/// The operating system denied access.
pub const PERMISSION_DENIED: u32 = 5002;

/// The storage volume is full.
pub const INSUFFICIENT_STORAGE: u32 = 5003;

/// The file does not exist.
pub const FILE_NOT_FOUND: u32 = 5004;

/// The file already exists and the mode required creating it.
pub const FILE_ALREADY_EXISTS: u32 = 5005;

/// The backend does not implement a capability the engine needs.
pub const STORAGE_UNSUPPORTED: u32 = 5006;

/// A lock could not be acquired.
pub const LOCK_UNAVAILABLE: u32 = 5007;

/// A file did not begin with the expected magic bytes.
pub const BAD_MAGIC: u32 = 6001;

/// A CRC did not match the data it covers.
pub const CHECKSUM_MISMATCH: u32 = 6002;

/// A file ended before its declared length.
pub const TRUNCATED_FILE: u32 = 6003;

/// Neither manifest slot was readable.
pub const NO_VALID_MANIFEST: u32 = 6004;

/// A segment referenced by the manifest is missing.
pub const MISSING_SEGMENT: u32 = 6005;

/// The file format version is outside the readable range.
pub const UNSUPPORTED_FORMAT_VERSION: u32 = 6006;

/// A structural field held a value the format does not define.
pub const MALFORMED_STRUCTURE: u32 = 6007;

/// The index disagrees with the data it indexes; rebuild required.
pub const INCONSISTENT_INDEX: u32 = 6008;

/// The index rejected an operation it cannot perform.
pub const INDEX_OPERATION_FAILED: u32 = 7001;

/// Index construction failed.
pub const INDEX_BUILD_FAILED: u32 = 7002;

/// The requested index kind is not compiled into this build.
pub const INDEX_KIND_UNAVAILABLE: u32 = 7003;

/// The batch was rolled back; no operation in it was applied.
pub const BATCH_ABORTED: u32 = 8001;

/// A conflicting write was committed concurrently.
pub const WRITE_CONFLICT: u32 = 8002;

/// The operation was cancelled through its `Budget`.
pub const CANCELLED: u32 = 9001;

/// A resource limit was reached.
pub const RESOURCE_EXHAUSTED: u32 = 9002;

/// The operation is not implemented in this version.
pub const UNSUPPORTED_OPERATION: u32 = 9003;

/// An invariant broke. This is a bug in vdb; please report it.
pub const INTERNAL: u32 = 9999;

/// How a code is written: `VDB-` and at least four digits.
pub open spec fn code_text(code: u32) -> Seq<char> {
    "VDB-"@ + text::padded(code as nat, 4)
}

/// What the band of a code means.
pub open spec fn band_text(code: u32) -> Seq<char> {
    match code / 1000 {
        1 => "configuration"@,
        2 => "lifecycle"@,
        3 => "not found"@,
        4 => "conflict and validation"@,
        5 => "storage"@,
        6 => "corruption"@,
        7 => "index and search"@,
        8 => "transaction"@,
        9 => "internal and resource"@,
        _ => "unassigned"@,
    }
}

impl ErrorCode {
    /// The band this code belongs to, e.g. `4` for validation errors.
    pub fn band(self) -> (r: u32)
        ensures
            r == self.0 / 1000,
    {
        self.0 / 1000
    }

    /// What this code's band means, for grouping in documentation and in a caller's own
    /// classification.
    ///
    /// Derived from the band rather than listed per code, because the bands are the contract:
    /// a caller that does not recognise a specific code can still tell storage trouble from a
    /// validation mistake.
    pub fn band_name(self) -> (r: &'static str)
        ensures
            r@ == band_text(self.0),
    {
        match self.band() {
            1 => "configuration",
            2 => "lifecycle",
            3 => "not found",
            4 => "conflict and validation",
            5 => "storage",
            6 => "corruption",
            7 => "index and search",
            8 => "transaction",
            9 => "internal and resource",
            _ => "unassigned",
        }
    }

    /// The code as it is written in messages.
    pub fn text(self) -> (r: String)
        ensures
            r@ == code_text(self.0),
    {
        let mut out = "VDB-".to_owned();
        text::push_padded(&mut out, self.0 as u64, 4);
        out
    }
}

/// The code of a failure.
pub open spec fn code_of(e: ErrorModel) -> u32 {
    match e {
        ErrorModel::Config(x) => match x {
            ConfigModel::InvalidDatabasePath { .. } => INVALID_DATABASE_PATH,
            ConfigModel::InvalidField { .. } => INVALID_CONFIG,
            ConfigModel::UnsupportedByBackend { .. } => UNSUPPORTED_CONFIGURATION,
        },
        ErrorModel::Lifecycle(x) => match x {
            LifecycleModel::DatabaseAlreadyOpen { .. } => DATABASE_ALREADY_OPEN,
            LifecycleModel::DatabaseNotFound { .. } => DATABASE_NOT_FOUND,
            LifecycleModel::DatabaseClosed => DATABASE_CLOSED,
            LifecycleModel::ReadOnly { .. } => READ_ONLY,
            LifecycleModel::NotADatabase { .. } => NOT_A_DATABASE,
        },
        ErrorModel::NotFound(x) => match x {
            NotFoundModel::Collection { .. } => COLLECTION_NOT_FOUND,
            NotFoundModel::Document { .. } => DOCUMENT_NOT_FOUND,
            NotFoundModel::Index { .. } => INDEX_NOT_FOUND,
        },
        ErrorModel::Conflict(x) => match x {
            ConflictModel::CollectionExists { .. } => COLLECTION_ALREADY_EXISTS,
            ConflictModel::DuplicateId { .. } => DUPLICATE_ID,
        },
        ErrorModel::Validation(x) => match x {
            ValidationModel::InvalidVectorDimension { .. } => INVALID_VECTOR_DIMENSION,
            ValidationModel::InvalidVectorData { .. } => INVALID_VECTOR_DATA,
            ValidationModel::InvalidDimension { .. } => INVALID_DIMENSION,
            ValidationModel::InvalidDocumentId { .. } => INVALID_DOCUMENT_ID,
            ValidationModel::InvalidCollectionName { .. } => INVALID_COLLECTION_NAME,
            ValidationModel::InvalidPath { .. } => INVALID_PATH,
            ValidationModel::MetadataTooLarge { .. } => METADATA_TOO_LARGE,
            ValidationModel::MetadataDepthExceeded { .. } => METADATA_DEPTH_EXCEEDED,
            ValidationModel::TopKOutOfRange { .. } => TOP_K_OUT_OF_RANGE,
            ValidationModel::FilterTooComplex { .. } => FILTER_TOO_COMPLEX,
            ValidationModel::BatchTooLarge { .. } => BATCH_TOO_LARGE,
        },
        ErrorModel::Index(x) => match x {
            IndexErrorModel::OperationFailed { .. } => INDEX_OPERATION_FAILED,
            IndexErrorModel::BuildFailed { .. } => INDEX_BUILD_FAILED,
            IndexErrorModel::KindUnavailable { .. } => INDEX_KIND_UNAVAILABLE,
        },
        ErrorModel::Storage(x) => match x {
            StorageModel::Io { .. } => STORAGE_IO,
            StorageModel::PermissionDenied { .. } => PERMISSION_DENIED,
            StorageModel::InsufficientStorage { .. } => INSUFFICIENT_STORAGE,
            StorageModel::NotFound { .. } => FILE_NOT_FOUND,
            StorageModel::AlreadyExists { .. } => FILE_ALREADY_EXISTS,
            StorageModel::Unsupported { .. } => STORAGE_UNSUPPORTED,
            StorageModel::LockUnavailable { .. } => LOCK_UNAVAILABLE,
        },
        ErrorModel::Corruption(x) => match x {
            CorruptionModel::BadMagic { .. } => BAD_MAGIC,
            CorruptionModel::ChecksumMismatch { .. } => CHECKSUM_MISMATCH,
            CorruptionModel::TruncatedFile { .. } => TRUNCATED_FILE,
            CorruptionModel::NoValidManifest { .. } => NO_VALID_MANIFEST,
            CorruptionModel::MissingSegment { .. } => MISSING_SEGMENT,
            CorruptionModel::UnsupportedFormatVersion { .. } => UNSUPPORTED_FORMAT_VERSION,
            CorruptionModel::MalformedStructure { .. } => MALFORMED_STRUCTURE,
            CorruptionModel::InconsistentIndex { .. } => INCONSISTENT_INDEX,
        },
        ErrorModel::Transaction(x) => match x {
            TransactionModel::Aborted { .. } => BATCH_ABORTED,
            TransactionModel::WriteConflict { .. } => WRITE_CONFLICT,
        },
        ErrorModel::ResourceExhausted(_) => RESOURCE_EXHAUSTED,
        ErrorModel::Cancelled => CANCELLED,
        ErrorModel::Internal(_) => INTERNAL,
    }
}

/// How a caller should react to a failure.
pub open spec fn reaction_to(e: ErrorModel) -> Recoverability {
    match e {
        ErrorModel::Config(_) | ErrorModel::Validation(_) | ErrorModel::Conflict(_)
        | ErrorModel::NotFound(_) => Recoverability::UserError,
        ErrorModel::Lifecycle(LifecycleModel::DatabaseAlreadyOpen { .. }) =>
            Recoverability::Retryable,
        ErrorModel::Lifecycle(_) => Recoverability::Fatal,
        ErrorModel::Storage(StorageModel::LockUnavailable { .. })
        | ErrorModel::Storage(StorageModel::Io { .. })
        | ErrorModel::Storage(StorageModel::InsufficientStorage { .. }) =>
            Recoverability::Retryable,
        ErrorModel::Storage(_) => Recoverability::Fatal,
        ErrorModel::Index(_) | ErrorModel::Corruption(_) => Recoverability::NeedsRepair,
        ErrorModel::Transaction(_) | ErrorModel::ResourceExhausted(_) | ErrorModel::Cancelled =>
            Recoverability::Retryable,
        ErrorModel::Internal(_) => Recoverability::Fatal,
    }
}

impl DbError {
    /// The stable numeric code for this failure.
    pub fn code(&self) -> (r: ErrorCode)
        ensures
            r.0 == code_of(self@),
    {
        let n: u32 = match self {
            DbError::Config(x) => match x {
                ConfigError::InvalidDatabasePath { .. } => INVALID_DATABASE_PATH,
                ConfigError::InvalidField { .. } => INVALID_CONFIG,
                ConfigError::UnsupportedByBackend { .. } => UNSUPPORTED_CONFIGURATION,
            },
            DbError::Lifecycle(x) => match x {
                LifecycleError::DatabaseAlreadyOpen { .. } => DATABASE_ALREADY_OPEN,
                LifecycleError::DatabaseNotFound { .. } => DATABASE_NOT_FOUND,
                LifecycleError::DatabaseClosed => DATABASE_CLOSED,
                LifecycleError::ReadOnly { .. } => READ_ONLY,
                LifecycleError::NotADatabase { .. } => NOT_A_DATABASE,
            },
            DbError::NotFound(x) => match x {
                NotFoundError::Collection { .. } => COLLECTION_NOT_FOUND,
                NotFoundError::Document { .. } => DOCUMENT_NOT_FOUND,
                NotFoundError::Index { .. } => INDEX_NOT_FOUND,
            },
            DbError::Conflict(x) => match x {
                ConflictError::CollectionExists { .. } => COLLECTION_ALREADY_EXISTS,
                ConflictError::DuplicateId { .. } => DUPLICATE_ID,
            },
            DbError::Validation(x) => match x {
                ValidationError::InvalidVectorDimension { .. } => INVALID_VECTOR_DIMENSION,
                ValidationError::InvalidVectorData { .. } => INVALID_VECTOR_DATA,
                ValidationError::InvalidDimension { .. } => INVALID_DIMENSION,
                ValidationError::InvalidDocumentId { .. } => INVALID_DOCUMENT_ID,
                ValidationError::InvalidCollectionName { .. } => INVALID_COLLECTION_NAME,
                ValidationError::InvalidPath { .. } => INVALID_PATH,
                ValidationError::MetadataTooLarge { .. } => METADATA_TOO_LARGE,
                ValidationError::MetadataDepthExceeded { .. } => METADATA_DEPTH_EXCEEDED,
                ValidationError::TopKOutOfRange { .. } => TOP_K_OUT_OF_RANGE,
                ValidationError::FilterTooComplex { .. } => FILTER_TOO_COMPLEX,
                ValidationError::BatchTooLarge { .. } => BATCH_TOO_LARGE,
            },
            DbError::Index(x) => match x {
                IndexError::OperationFailed { .. } => INDEX_OPERATION_FAILED,
                IndexError::BuildFailed { .. } => INDEX_BUILD_FAILED,
                IndexError::KindUnavailable { .. } => INDEX_KIND_UNAVAILABLE,
            },
            DbError::Storage(x) => match x {
                StorageError::Io { .. } => STORAGE_IO,
                StorageError::PermissionDenied { .. } => PERMISSION_DENIED,
                StorageError::InsufficientStorage { .. } => INSUFFICIENT_STORAGE,
                StorageError::NotFound { .. } => FILE_NOT_FOUND,
                StorageError::AlreadyExists { .. } => FILE_ALREADY_EXISTS,
                StorageError::Unsupported { .. } => STORAGE_UNSUPPORTED,
                StorageError::LockUnavailable { .. } => LOCK_UNAVAILABLE,
            },
            DbError::Corruption(x) => match x {
                CorruptionError::BadMagic { .. } => BAD_MAGIC,
                CorruptionError::ChecksumMismatch { .. } => CHECKSUM_MISMATCH,
                CorruptionError::TruncatedFile { .. } => TRUNCATED_FILE,
                CorruptionError::NoValidManifest { .. } => NO_VALID_MANIFEST,
                CorruptionError::MissingSegment { .. } => MISSING_SEGMENT,
                CorruptionError::UnsupportedFormatVersion { .. } => UNSUPPORTED_FORMAT_VERSION,
                CorruptionError::MalformedStructure { .. } => MALFORMED_STRUCTURE,
                CorruptionError::InconsistentIndex { .. } => INCONSISTENT_INDEX,
            },
            DbError::Transaction(x) => match x {
                TransactionError::Aborted { .. } => BATCH_ABORTED,
                TransactionError::WriteConflict { .. } => WRITE_CONFLICT,
            },
            DbError::ResourceExhausted(_) => RESOURCE_EXHAUSTED,
            DbError::Cancelled => CANCELLED,
            DbError::Internal(_) => INTERNAL,
        };
        ErrorCode(n)
    }

    /// How a caller should react.
    pub fn recoverability(&self) -> (r: Recoverability)
        ensures
            r == reaction_to(self@),
    {
        match self {
            DbError::Config(_) | DbError::Validation(_) | DbError::Conflict(_) | DbError::NotFound(
                _,
            ) => Recoverability::UserError,
            DbError::Lifecycle(LifecycleError::DatabaseAlreadyOpen { .. }) =>
                Recoverability::Retryable,
            DbError::Lifecycle(_) => Recoverability::Fatal,
            DbError::Storage(StorageError::LockUnavailable { .. })
            | DbError::Storage(StorageError::Io { .. })
            | DbError::Storage(StorageError::InsufficientStorage { .. }) =>
                Recoverability::Retryable,
            DbError::Storage(_) => Recoverability::Fatal,
            // An index is derived data: it can always be rebuilt from the segments.
            DbError::Index(_) | DbError::Corruption(_) => Recoverability::NeedsRepair,
            DbError::Transaction(_) | DbError::ResourceExhausted(_) | DbError::Cancelled =>
                Recoverability::Retryable,
            DbError::Internal(_) => Recoverability::Fatal,
        }
    }

    /// Whether this failure indicates damaged persisted data.
    pub fn is_corruption(&self) -> (r: bool)
        ensures
            r == (self@ is Corruption),
    {
        matches!(self, DbError::Corruption(_))
    }
}

/// Every released code, in ascending order.
pub const RELEASED: [u32; 48] = [
    INVALID_DATABASE_PATH,
    INVALID_CONFIG,
    UNSUPPORTED_CONFIGURATION,
    DATABASE_ALREADY_OPEN,
    DATABASE_NOT_FOUND,
    DATABASE_CLOSED,
    READ_ONLY,
    NOT_A_DATABASE,
    COLLECTION_NOT_FOUND,
    DOCUMENT_NOT_FOUND,
    INDEX_NOT_FOUND,
    COLLECTION_ALREADY_EXISTS,
    DUPLICATE_ID,
    INVALID_VECTOR_DIMENSION,
    INVALID_VECTOR_DATA,
    INVALID_DOCUMENT_ID,
    INVALID_COLLECTION_NAME,
    METADATA_TOO_LARGE,
    METADATA_DEPTH_EXCEEDED,
    TOP_K_OUT_OF_RANGE,
    FILTER_TOO_COMPLEX,
    BATCH_TOO_LARGE,
    INVALID_PATH,
    INVALID_DIMENSION,
    STORAGE_IO,
    PERMISSION_DENIED,
    INSUFFICIENT_STORAGE,
    FILE_NOT_FOUND,
    FILE_ALREADY_EXISTS,
    STORAGE_UNSUPPORTED,
    LOCK_UNAVAILABLE,
    BAD_MAGIC,
    CHECKSUM_MISMATCH,
    TRUNCATED_FILE,
    NO_VALID_MANIFEST,
    MISSING_SEGMENT,
    UNSUPPORTED_FORMAT_VERSION,
    MALFORMED_STRUCTURE,
    INCONSISTENT_INDEX,
    INDEX_OPERATION_FAILED,
    INDEX_BUILD_FAILED,
    INDEX_KIND_UNAVAILABLE,
    BATCH_ABORTED,
    WRITE_CONFLICT,
    CANCELLED,
    RESOURCE_EXHAUSTED,
    UNSUPPORTED_OPERATION,
    INTERNAL,
];

/// What each code is called, in the order of [`RELEASED`].
pub const NAMES: [&'static str; 48] = [
    "INVALID_DATABASE_PATH",
    "INVALID_CONFIG",
    "UNSUPPORTED_CONFIGURATION",
    "DATABASE_ALREADY_OPEN",
    "DATABASE_NOT_FOUND",
    "DATABASE_CLOSED",
    "READ_ONLY",
    "NOT_A_DATABASE",
    "COLLECTION_NOT_FOUND",
    "DOCUMENT_NOT_FOUND",
    "INDEX_NOT_FOUND",
    "COLLECTION_ALREADY_EXISTS",
    "DUPLICATE_ID",
    "INVALID_VECTOR_DIMENSION",
    "INVALID_VECTOR_DATA",
    "INVALID_DOCUMENT_ID",
    "INVALID_COLLECTION_NAME",
    "METADATA_TOO_LARGE",
    "METADATA_DEPTH_EXCEEDED",
    "TOP_K_OUT_OF_RANGE",
    "FILTER_TOO_COMPLEX",
    "BATCH_TOO_LARGE",
    "INVALID_PATH",
    "INVALID_DIMENSION",
    "STORAGE_IO",
    "PERMISSION_DENIED",
    "INSUFFICIENT_STORAGE",
    "FILE_NOT_FOUND",
    "FILE_ALREADY_EXISTS",
    "STORAGE_UNSUPPORTED",
    "LOCK_UNAVAILABLE",
    "BAD_MAGIC",
    "CHECKSUM_MISMATCH",
    "TRUNCATED_FILE",
    "NO_VALID_MANIFEST",
    "MISSING_SEGMENT",
    "UNSUPPORTED_FORMAT_VERSION",
    "MALFORMED_STRUCTURE",
    "INCONSISTENT_INDEX",
    "INDEX_OPERATION_FAILED",
    "INDEX_BUILD_FAILED",
    "INDEX_KIND_UNAVAILABLE",
    "BATCH_ABORTED",
    "WRITE_CONFLICT",
    "CANCELLED",
    "RESOURCE_EXHAUSTED",
    "UNSUPPORTED_OPERATION",
    "INTERNAL",
];

/// What each code means, in the order of [`RELEASED`].
pub const MEANINGS: [&'static str; 48] = [
    "The configured database path was unusable.",
    "A configuration field was outside its permitted range.",
    "The storage backend cannot support the requested configuration.",
    "Another handle (or another process) already has this database open.",
    "The database directory does not exist and `create_if_missing` was false.",
    "The handle has been closed.",
    "A write was attempted on a read-only handle.",
    "The database directory exists but is not a vdb database.",
    "No collection with that name.",
    "No document with that id.",
    "No index snapshot of that kind.",
    "A collection with that name already exists.",
    "A document with that id already exists and the operation was `insert`, not `upsert`.",
    "The vector's dimension does not match the collection's.",
    "The vector contained a NaN or infinite component.",
    "The document id was empty, over-long, or not valid UTF-8.",
    "The collection name was empty, over-long, or used illegal characters.",
    "A metadata value or document exceeded a size limit.",
    "Metadata nesting exceeded the depth limit.",
    "`top_k` was zero or above the limit.",
    "The filter had too many nodes or was nested too deeply.",
    "A batch exceeded the operation limit.",
    "A path component was empty, relative, over-long, or contained a separator.",
    "A dimension was zero or above the limit.",
    "The underlying storage reported an I/O failure.",
    "The operating system denied access.",
    "The storage volume is full.",
    "The file does not exist.",
    "The file already exists and the mode required creating it.",
    "The backend does not implement a capability the engine needs.",
    "A lock could not be acquired.",
    "A file did not begin with the expected magic bytes.",
    "A CRC did not match the data it covers.",
    "A file ended before its declared length.",
    "Neither manifest slot was readable.",
    "A segment referenced by the manifest is missing.",
    "The file format version is outside the readable range.",
    "A structural field held a value the format does not define.",
    "The index disagrees with the data it indexes; rebuild required.",
    "The index rejected an operation it cannot perform.",
    "Index construction failed.",
    "The requested index kind is not compiled into this build.",
    "The batch was rolled back; no operation in it was applied.",
    "A conflicting write was committed concurrently.",
    "The operation was cancelled through its `Budget`.",
    "A resource limit was reached.",
    "The operation is not implemented in this version.",
    "An invariant broke. This is a bug in vdb; please report it.",
];

/// Every code with its name and what it means.
pub fn all_codes() -> (r: Vec<(ErrorCode, &'static str, &'static str)>)
    ensures
        r@.len() == RELEASED@.len(),
        forall|i: int|
            0 <= i < r@.len() ==> (#[trigger] r@[i]).0.0 == RELEASED@[i] && r@[i].1 == NAMES@[i]
                && r@[i].2 == MEANINGS@[i],
{
    let mut out: Vec<(ErrorCode, &'static str, &'static str)> = Vec::new();
    let mut i: usize = 0;
    while i < RELEASED.len()
        invariant
            i <= RELEASED@.len(),
            out@.len() == i,
            forall|k: int|
                0 <= k < i ==> (#[trigger] out@[k]).0.0 == RELEASED@[k] && out@[k].1 == NAMES@[k]
                    && out@[k].2 == MEANINGS@[k],
        decreases RELEASED.len() - i,
    {
        out.push((ErrorCode(RELEASED[i]), NAMES[i], MEANINGS[i]));
        i += 1;
    }
    out
}

/// No code is used twice: the released codes strictly ascend.
pub proof fn lemma_codes_are_unique(i: int, j: int)
    requires
        0 <= i < j < RELEASED@.len(),
    ensures
        RELEASED@[i] < RELEASED@[j],
{
}

/// Every code lies in one of the nine bands.
pub proof fn lemma_codes_are_banded(i: int)
    requires
        0 <= i < RELEASED@.len(),
    ensures
        1 <= RELEASED@[i] / 1000 <= 9,
{
}

/// Every failure has a released code.
pub proof fn lemma_every_failure_has_a_code(e: ErrorModel)
    ensures
        exists|i: int| 0 <= i < RELEASED@.len() && #[trigger] RELEASED@[i] == code_of(e),
{
    let c = code_of(e);
    assert(RELEASED@[0] == INVALID_DATABASE_PATH);
    assert(RELEASED@[1] == INVALID_CONFIG);
    assert(RELEASED@[2] == UNSUPPORTED_CONFIGURATION);
    assert(RELEASED@[3] == DATABASE_ALREADY_OPEN);
    assert(RELEASED@[4] == DATABASE_NOT_FOUND);
    assert(RELEASED@[5] == DATABASE_CLOSED);
    assert(RELEASED@[6] == READ_ONLY);
    assert(RELEASED@[7] == NOT_A_DATABASE);
    assert(RELEASED@[8] == COLLECTION_NOT_FOUND);
    assert(RELEASED@[9] == DOCUMENT_NOT_FOUND);
    assert(RELEASED@[10] == INDEX_NOT_FOUND);
    assert(RELEASED@[11] == COLLECTION_ALREADY_EXISTS);
    assert(RELEASED@[12] == DUPLICATE_ID);
    assert(RELEASED@[13] == INVALID_VECTOR_DIMENSION);
    assert(RELEASED@[14] == INVALID_VECTOR_DATA);
    assert(RELEASED@[15] == INVALID_DOCUMENT_ID);
    assert(RELEASED@[16] == INVALID_COLLECTION_NAME);
    assert(RELEASED@[17] == METADATA_TOO_LARGE);
    assert(RELEASED@[18] == METADATA_DEPTH_EXCEEDED);
    assert(RELEASED@[19] == TOP_K_OUT_OF_RANGE);
    assert(RELEASED@[20] == FILTER_TOO_COMPLEX);
    assert(RELEASED@[21] == BATCH_TOO_LARGE);
    assert(RELEASED@[22] == INVALID_PATH);
    assert(RELEASED@[23] == INVALID_DIMENSION);
    assert(RELEASED@[24] == STORAGE_IO);
    assert(RELEASED@[25] == PERMISSION_DENIED);
    assert(RELEASED@[26] == INSUFFICIENT_STORAGE);
    assert(RELEASED@[27] == FILE_NOT_FOUND);
    assert(RELEASED@[28] == FILE_ALREADY_EXISTS);
    assert(RELEASED@[29] == STORAGE_UNSUPPORTED);
    assert(RELEASED@[30] == LOCK_UNAVAILABLE);
    assert(RELEASED@[31] == BAD_MAGIC);
    assert(RELEASED@[32] == CHECKSUM_MISMATCH);
    assert(RELEASED@[33] == TRUNCATED_FILE);
    assert(RELEASED@[34] == NO_VALID_MANIFEST);
    assert(RELEASED@[35] == MISSING_SEGMENT);
    assert(RELEASED@[36] == UNSUPPORTED_FORMAT_VERSION);
    assert(RELEASED@[37] == MALFORMED_STRUCTURE);
    assert(RELEASED@[38] == INCONSISTENT_INDEX);
    assert(RELEASED@[39] == INDEX_OPERATION_FAILED);
    assert(RELEASED@[40] == INDEX_BUILD_FAILED);
    assert(RELEASED@[41] == INDEX_KIND_UNAVAILABLE);
    assert(RELEASED@[42] == BATCH_ABORTED);
    assert(RELEASED@[43] == WRITE_CONFLICT);
    assert(RELEASED@[44] == CANCELLED);
    assert(RELEASED@[45] == RESOURCE_EXHAUSTED);
    assert(RELEASED@[46] == UNSUPPORTED_OPERATION);
    assert(RELEASED@[47] == INTERNAL);
}

/// Damaged data, and nothing else, has a code in the corruption band.
pub proof fn lemma_corruption_band(e: ErrorModel)
    ensures
        (code_of(e) / 1000 == 6) == (e is Corruption),
{
}

/// Each failure has a number of its own, by which callers in any language tell it from every other:
/// these numbers never change.
pub proof fn lemma_codes_tell_failures_apart(e: ErrorModel)
    ensures
        (e matches ErrorModel::Config(ConfigModel::InvalidDatabasePath { .. })) <==> code_of(e) == 1001,
        (e matches ErrorModel::Config(ConfigModel::InvalidField { .. })) <==> code_of(e) == 1002,
        (e matches ErrorModel::Config(ConfigModel::UnsupportedByBackend { .. })) <==> code_of(e) == 1003,
        (e matches ErrorModel::Lifecycle(LifecycleModel::DatabaseAlreadyOpen { .. })) <==> code_of(e) == 2001,
        (e matches ErrorModel::Lifecycle(LifecycleModel::DatabaseNotFound { .. })) <==> code_of(e) == 2002,
        (e matches ErrorModel::Lifecycle(LifecycleModel::DatabaseClosed)) <==> code_of(e) == 2003,
        (e matches ErrorModel::Lifecycle(LifecycleModel::ReadOnly { .. })) <==> code_of(e) == 2004,
        (e matches ErrorModel::Lifecycle(LifecycleModel::NotADatabase { .. })) <==> code_of(e) == 2005,
        (e matches ErrorModel::NotFound(NotFoundModel::Collection { .. })) <==> code_of(e) == 3001,
        (e matches ErrorModel::NotFound(NotFoundModel::Document { .. })) <==> code_of(e) == 3002,
        (e matches ErrorModel::NotFound(NotFoundModel::Index { .. })) <==> code_of(e) == 3003,
        (e matches ErrorModel::Conflict(ConflictModel::CollectionExists { .. })) <==> code_of(e) == 4001,
        (e matches ErrorModel::Conflict(ConflictModel::DuplicateId { .. })) <==> code_of(e) == 4002,
        (e matches ErrorModel::Validation(ValidationModel::InvalidVectorDimension { .. })) <==> code_of(e) == 4003,
        (e matches ErrorModel::Validation(ValidationModel::InvalidVectorData { .. })) <==> code_of(e) == 4004,
        (e matches ErrorModel::Validation(ValidationModel::InvalidDimension { .. })) <==> code_of(e) == 4013,
        (e matches ErrorModel::Validation(ValidationModel::InvalidDocumentId { .. })) <==> code_of(e) == 4005,
        (e matches ErrorModel::Validation(ValidationModel::InvalidCollectionName { .. })) <==> code_of(e) == 4006,
        (e matches ErrorModel::Validation(ValidationModel::InvalidPath { .. })) <==> code_of(e) == 4012,
        (e matches ErrorModel::Validation(ValidationModel::MetadataTooLarge { .. })) <==> code_of(e) == 4007,
        (e matches ErrorModel::Validation(ValidationModel::MetadataDepthExceeded { .. })) <==> code_of(e) == 4008,
        (e matches ErrorModel::Validation(ValidationModel::TopKOutOfRange { .. })) <==> code_of(e) == 4009,
        (e matches ErrorModel::Validation(ValidationModel::FilterTooComplex { .. })) <==> code_of(e) == 4010,
        (e matches ErrorModel::Validation(ValidationModel::BatchTooLarge { .. })) <==> code_of(e) == 4011,
        (e matches ErrorModel::Index(IndexErrorModel::OperationFailed { .. })) <==> code_of(e) == 7001,
        (e matches ErrorModel::Index(IndexErrorModel::BuildFailed { .. })) <==> code_of(e) == 7002,
        (e matches ErrorModel::Index(IndexErrorModel::KindUnavailable { .. })) <==> code_of(e) == 7003,
        (e matches ErrorModel::Storage(StorageModel::Io { .. })) <==> code_of(e) == 5001,
        (e matches ErrorModel::Storage(StorageModel::PermissionDenied { .. })) <==> code_of(e) == 5002,
        (e matches ErrorModel::Storage(StorageModel::InsufficientStorage { .. })) <==> code_of(e) == 5003,
        (e matches ErrorModel::Storage(StorageModel::NotFound { .. })) <==> code_of(e) == 5004,
        (e matches ErrorModel::Storage(StorageModel::AlreadyExists { .. })) <==> code_of(e) == 5005,
        (e matches ErrorModel::Storage(StorageModel::Unsupported { .. })) <==> code_of(e) == 5006,
        (e matches ErrorModel::Storage(StorageModel::LockUnavailable { .. })) <==> code_of(e) == 5007,
        (e matches ErrorModel::Corruption(CorruptionModel::BadMagic { .. })) <==> code_of(e) == 6001,
        (e matches ErrorModel::Corruption(CorruptionModel::ChecksumMismatch { .. })) <==> code_of(e) == 6002,
        (e matches ErrorModel::Corruption(CorruptionModel::TruncatedFile { .. })) <==> code_of(e) == 6003,
        (e matches ErrorModel::Corruption(CorruptionModel::NoValidManifest { .. })) <==> code_of(e) == 6004,
        (e matches ErrorModel::Corruption(CorruptionModel::MissingSegment { .. })) <==> code_of(e) == 6005,
        (e matches ErrorModel::Corruption(CorruptionModel::UnsupportedFormatVersion { .. })) <==> code_of(e) == 6006,
        (e matches ErrorModel::Corruption(CorruptionModel::MalformedStructure { .. })) <==> code_of(e) == 6007,
        (e matches ErrorModel::Corruption(CorruptionModel::InconsistentIndex { .. })) <==> code_of(e) == 6008,
        (e matches ErrorModel::Transaction(TransactionModel::Aborted { .. })) <==> code_of(e) == 8001,
        (e matches ErrorModel::Transaction(TransactionModel::WriteConflict { .. })) <==> code_of(e) == 8002,
        e is ResourceExhausted <==> code_of(e) == 9002,
        e is Cancelled <==> code_of(e) == 9001,
        e is Internal <==> code_of(e) == 9999,
{
}

/// What a caller can do about a failure follows from what it is: mistakes of the caller's are theirs
/// to mend, damaged data needs repair, what may pass is worth another try, and nothing else is.
pub proof fn lemma_reactions(e: ErrorModel)
    ensures
        (e is Config || e is Validation || e is Conflict || e is NotFound) <==> reaction_to(e)
            == Recoverability::UserError,
        (e is Index || e is Corruption) <==> reaction_to(e) == Recoverability::NeedsRepair,
        (e is Transaction || e is ResourceExhausted || e is Cancelled || (
        e matches ErrorModel::Lifecycle(LifecycleModel::DatabaseAlreadyOpen { .. })) || (
        e matches ErrorModel::Storage(StorageModel::LockUnavailable { .. })) || (
        e matches ErrorModel::Storage(StorageModel::Io { .. })) || (
        e matches ErrorModel::Storage(StorageModel::InsufficientStorage { .. }))) <==> reaction_to(e)
            == Recoverability::Retryable,
{
}

} // verus!
