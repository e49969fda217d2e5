//! The error model.
//!
//! One type crosses the public API: [`DbError`]. It is a tree of structured variants, every one
//! of which carries enough context to diagnose the failure without a debugger, and every one of
//! which maps to a stable [`code::ErrorCode`] that survives a foreign-function boundary.
use vstd::prelude::*;

use crate::path::{DbPath, PathRejection};

pub mod code;
pub mod convert;
pub mod message;

verus! {

/// How a caller should react to a failure.
///
/// Bindings use this instead of re-deriving a classification by matching on codes, which is how
/// six of them end up disagreeing about whether something is retryable.
#[derive(Debug, Clone, Copy, PartialEq, Eq, Structural)]
pub enum Recoverability {
    /// The caller passed something invalid. Retrying unchanged will fail identically.
    UserError,
    /// A transient condition. The same call may succeed later.
    Retryable,
    /// The database is damaged; verification and repair or a restore is required.
    NeedsRepair,
    /// Unrecoverable for this handle.
    Fatal,
}

/// Which non-finite float was found.
#[derive(Debug, Clone, Copy, PartialEq, Eq, Structural)]
pub enum NonFiniteKind {
    /// Not a number.
    Nan,
    /// Positive infinity.
    PosInf,
    /// Negative infinity.
    NegInf,
}

/// Why a document id was rejected.
#[derive(Debug, Clone, Copy, PartialEq, Eq, Structural)]
pub enum IdRejection {
    /// The id was empty.
    Empty,
    /// The id exceeded the length limit.
    TooLong,
    /// The id contained a NUL byte or a control character.
    IllegalCharacter,
    /// The id was not valid UTF-8.
    NotUtf8,
}

/// Why a collection name was rejected.
#[derive(Debug, Clone, Copy, PartialEq, Eq, Structural)]
pub enum NameRejection {
    /// The name was empty.
    Empty,
    /// The name exceeded the length limit.
    TooLong,
    /// The name used a character outside `[A-Za-z0-9_-]`.
    IllegalCharacter,
    /// The name was `.` or `..`, which would escape the database root.
    Reserved,
}

/// Which storage operation failed. Kept as an enum so bindings need no string matching.
#[derive(Debug, Clone, Copy, PartialEq, Eq, Structural)]
pub enum StorageOp {
    /// Opening a file.
    Open,
    /// Reading at an offset.
    Read,
    /// Writing at an offset.
    Write,
    /// Appending.
    Append,
    /// Flushing to durable storage.
    Sync,
    /// Truncating.
    Truncate,
    /// Querying length or metadata.
    Metadata,
    /// Removing a file.
    Remove,
    /// Renaming.
    Rename,
    /// Creating a directory.
    CreateDir,
    /// Listing a directory.
    ListDir,
    /// Memory-mapping.
    MemoryMap,
    /// Locking.
    Lock,
}

/// Every failure the engine can report.
#[derive(Debug, PartialEq)]
pub enum DbError {
    /// Bad configuration supplied at open time.
    Config(ConfigError),
    /// The handle is in the wrong state for the operation.
    Lifecycle(LifecycleError),
    /// A named thing does not exist.
    NotFound(NotFoundError),
    /// The operation conflicts with existing data.
    Conflict(ConflictError),
    /// Input failed validation.
    Validation(ValidationError),
    /// An index operation failed.
    Index(IndexError),
    /// The storage backend failed.
    Storage(StorageError),
    /// Persisted bytes are damaged or unreadable.
    Corruption(CorruptionError),
    /// A batch or transaction could not be committed.
    Transaction(TransactionError),
    /// A resource limit was reached.
    ResourceExhausted(ResourceError),
    /// The operation was cancelled through its budget.
    Cancelled,
    /// An invariant broke. A bug in vdb.
    Internal(InternalError),
}

/// An invariant broke. Always a bug in vdb.
#[derive(Debug, PartialEq)]
pub struct InternalError {
    /// What was violated.
    pub message: String,
    /// Where, as `file:line`.
    pub location: &'static str,
}

/// A broken invariant, independent of how it is held in memory.
pub struct InternalModel {
    pub message: Seq<char>,
    pub location: &'static str,
}

/// A failure, independent of how its texts are held in memory.
pub enum ErrorModel {
    Config(ConfigModel),
    Lifecycle(LifecycleModel),
    NotFound(NotFoundModel),
    Conflict(ConflictModel),
    Validation(ValidationModel),
    Index(IndexErrorModel),
    Storage(StorageModel),
    Corruption(CorruptionModel),
    Transaction(TransactionModel),
    ResourceExhausted(ResourceModel),
    Cancelled,
    Internal(InternalModel),
}

/// What an optional string holds.
pub open spec fn option_text(s: Option<String>) -> Option<Seq<char>> {
    match s {
        Some(t) => Some(t@),
        None => None,
    }
}

/// What a list of strings holds.
pub open spec fn texts(s: Seq<String>) -> Seq<Seq<char>> {
    s.map_values(|t: String| t@)
}

impl DbError {
    /// The failure held.
    pub open spec fn model(self) -> ErrorModel
        decreases self,
    {
        match self {
            DbError::Config(e) => ErrorModel::Config(e.model()),
            DbError::Lifecycle(e) => ErrorModel::Lifecycle(e.model()),
            DbError::NotFound(e) => ErrorModel::NotFound(e.model()),
            DbError::Conflict(e) => ErrorModel::Conflict(e.model()),
            DbError::Validation(e) => ErrorModel::Validation(e.model()),
            DbError::Index(e) => ErrorModel::Index(e.model()),
            DbError::Storage(e) => ErrorModel::Storage(e.model()),
            DbError::Corruption(e) => ErrorModel::Corruption(e.model()),
            DbError::Transaction(e) => ErrorModel::Transaction(e.model()),
            DbError::ResourceExhausted(e) => ErrorModel::ResourceExhausted(e.model()),
            DbError::Cancelled => ErrorModel::Cancelled,
            DbError::Internal(e) => ErrorModel::Internal(
                InternalModel { message: e.message@, location: e.location },
            ),
        }
    }
}

impl View for DbError {
    type V = ErrorModel;

    open spec fn view(&self) -> ErrorModel {
        self.model()
    }
}

/// Whether a result failed with the failure `e`.
pub open spec fn failed<T>(r: Result<T, DbError>, e: ErrorModel) -> bool {
    r matches Err(x) && x@ == e
}

/// Bad configuration supplied at open time.
#[allow(inconsistent_fields)]
#[derive(Debug, PartialEq)]
pub enum ConfigError {
    /// The database path was unusable.
    InvalidDatabasePath {
        /// The path as given.
        path: String,
        /// Why it was rejected.
        reason: String,
    },
    /// A configuration field was outside its permitted range.
    InvalidField {
        /// The field name.
        field: &'static str,
        /// The value that was supplied.
        value: String,
        /// The constraint it violated.
        constraint: &'static str,
    },
    /// The storage backend cannot support the requested configuration.
    UnsupportedByBackend {
        /// What was requested.
        requested: &'static str,
        /// The capability the backend does not have.
        missing_capability: &'static str,
    },
}

/// Bad configuration supplied at open time. Independent of how its texts are held in memory.
#[allow(inconsistent_fields)]
pub enum ConfigModel {
    InvalidDatabasePath { path: Seq<char>, reason: Seq<char> },
    InvalidField { field: &'static str, value: Seq<char>, constraint: &'static str },
    UnsupportedByBackend { requested: &'static str, missing_capability: &'static str },
}

impl ConfigError {
    /// The failure held.
    pub open spec fn model(self) -> ConfigModel
    {
        match self {
            ConfigError::InvalidDatabasePath { path, reason } => ConfigModel::InvalidDatabasePath { path: path@, reason: reason@ },
            ConfigError::InvalidField { field, value, constraint } => ConfigModel::InvalidField { field, value: value@, constraint },
            ConfigError::UnsupportedByBackend { requested, missing_capability } => ConfigModel::UnsupportedByBackend { requested, missing_capability },
        }
    }
}

impl View for ConfigError {
    type V = ConfigModel;

    open spec fn view(&self) -> ConfigModel {
        self.model()
    }
}

impl From<ConfigError> for DbError {
    fn from(e: ConfigError) -> (r: Self) {
        DbError::Config(e)
    }
}

impl vstd::std_specs::convert::FromSpecImpl<ConfigError> for DbError {
    open spec fn obeys_from_spec() -> bool {
        true
    }

    open spec fn from_spec(e: ConfigError) -> Self {
        DbError::Config(e)
    }
}

/// The handle is in the wrong state for the operation.
#[allow(inconsistent_fields)]
#[derive(Debug, PartialEq)]
pub enum LifecycleError {
    /// Another handle or process holds the lock.
    DatabaseAlreadyOpen {
        /// The database root.
        path: String,
        /// Owner details, when the lock file could be read.
        holder: Option<String>,
    },
    /// The directory does not exist and `create_if_missing` was false.
    DatabaseNotFound {
        /// The database root.
        path: String,
    },
    /// The handle has been closed.
    DatabaseClosed,
    /// A write was attempted on a read-only handle.
    ReadOnly {
        /// The operation that was attempted.
        operation: &'static str,
    },
    /// The directory exists but holds no recognisable database.
    NotADatabase {
        /// The database root.
        path: String,
    },
}

/// The handle is in the wrong state for the operation. Independent of how its texts are held in memory.
#[allow(inconsistent_fields)]
pub enum LifecycleModel {
    DatabaseAlreadyOpen { path: Seq<char>, holder: Option<Seq<char>> },
    DatabaseNotFound { path: Seq<char> },
    DatabaseClosed,
    ReadOnly { operation: &'static str },
    NotADatabase { path: Seq<char> },
}

impl LifecycleError {
    /// The failure held.
    pub open spec fn model(self) -> LifecycleModel
    {
        match self {
            LifecycleError::DatabaseAlreadyOpen { path, holder } => LifecycleModel::DatabaseAlreadyOpen { path: path@, holder: option_text(holder) },
            LifecycleError::DatabaseNotFound { path } => LifecycleModel::DatabaseNotFound { path: path@ },
            LifecycleError::DatabaseClosed => LifecycleModel::DatabaseClosed,
            LifecycleError::ReadOnly { operation } => LifecycleModel::ReadOnly { operation },
            LifecycleError::NotADatabase { path } => LifecycleModel::NotADatabase { path: path@ },
        }
    }
}

impl View for LifecycleError {
    type V = LifecycleModel;

    open spec fn view(&self) -> LifecycleModel {
        self.model()
    }
}

impl From<LifecycleError> for DbError {
    fn from(e: LifecycleError) -> (r: Self) {
        DbError::Lifecycle(e)
    }
}

impl vstd::std_specs::convert::FromSpecImpl<LifecycleError> for DbError {
    open spec fn obeys_from_spec() -> bool {
        true
    }

    open spec fn from_spec(e: LifecycleError) -> Self {
        DbError::Lifecycle(e)
    }
}

/// A named thing does not exist.
#[allow(inconsistent_fields)]
#[derive(Debug, PartialEq)]
pub enum NotFoundError {
    /// No collection with that name.
    Collection {
        /// The name that was looked up.
        name: String,
    },
    /// No document with that id.
    Document {
        /// The collection searched.
        collection: String,
        /// The id that was looked up.
        id: String,
    },
    /// No index snapshot of that kind.
    Index {
        /// The collection searched.
        collection: String,
        /// The index kind that was looked up.
        kind: String,
    },
}

/// A named thing does not exist. Independent of how its texts are held in memory.
#[allow(inconsistent_fields)]
pub enum NotFoundModel {
    Collection { name: Seq<char> },
    Document { collection: Seq<char>, id: Seq<char> },
    Index { collection: Seq<char>, kind: Seq<char> },
}

impl NotFoundError {
    /// The failure held.
    pub open spec fn model(self) -> NotFoundModel
    {
        match self {
            NotFoundError::Collection { name } => NotFoundModel::Collection { name: name@ },
            NotFoundError::Document { collection, id } => NotFoundModel::Document { collection: collection@, id: id@ },
            NotFoundError::Index { collection, kind } => NotFoundModel::Index { collection: collection@, kind: kind@ },
        }
    }
}

impl View for NotFoundError {
    type V = NotFoundModel;

    open spec fn view(&self) -> NotFoundModel {
        self.model()
    }
}

impl From<NotFoundError> for DbError {
    fn from(e: NotFoundError) -> (r: Self) {
        DbError::NotFound(e)
    }
}

impl vstd::std_specs::convert::FromSpecImpl<NotFoundError> for DbError {
    open spec fn obeys_from_spec() -> bool {
        true
    }

    open spec fn from_spec(e: NotFoundError) -> Self {
        DbError::NotFound(e)
    }
}

/// The operation conflicts with existing data.
#[allow(inconsistent_fields)]
#[derive(Debug, PartialEq)]
pub enum ConflictError {
    /// A collection with that name already exists.
    CollectionExists {
        /// The name that was requested.
        name: String,
    },
    /// A document with that id already exists.
    DuplicateId {
        /// The collection written to.
        collection: String,
        /// The id that collided.
        id: String,
    },
}

/// The operation conflicts with existing data. Independent of how its texts are held in memory.
#[allow(inconsistent_fields)]
pub enum ConflictModel {
    CollectionExists { name: Seq<char> },
    DuplicateId { collection: Seq<char>, id: Seq<char> },
}

impl ConflictError {
    /// The failure held.
    pub open spec fn model(self) -> ConflictModel
    {
        match self {
            ConflictError::CollectionExists { name } => ConflictModel::CollectionExists { name: name@ },
            ConflictError::DuplicateId { collection, id } => ConflictModel::DuplicateId { collection: collection@, id: id@ },
        }
    }
}

impl View for ConflictError {
    type V = ConflictModel;

    open spec fn view(&self) -> ConflictModel {
        self.model()
    }
}

impl From<ConflictError> for DbError {
    fn from(e: ConflictError) -> (r: Self) {
        DbError::Conflict(e)
    }
}

impl vstd::std_specs::convert::FromSpecImpl<ConflictError> for DbError {
    open spec fn obeys_from_spec() -> bool {
        true
    }

    open spec fn from_spec(e: ConflictError) -> Self {
        DbError::Conflict(e)
    }
}

/// Input failed validation.
#[allow(inconsistent_fields)]
#[derive(Debug, PartialEq)]
pub enum ValidationError {
    /// The vector's dimension does not match the collection's.
    InvalidVectorDimension {
        /// The collection written to or searched.
        collection: String,
        /// The dimension the collection was created with.
        expected: u32,
        /// The dimension that was supplied.
        actual: u32,
    },
    /// A vector component was NaN or infinite.
    InvalidVectorData {
        /// Which kind of non-finite value.
        reason: NonFiniteKind,
        /// The position of the first offending component.
        index: usize,
    },
    /// A dimension was zero or above the limit.
    InvalidDimension {
        /// The dimension that was supplied.
        dimension: u32,
        /// The largest permitted dimension.
        max: u32,
    },
    /// The document id was rejected.
    InvalidDocumentId {
        /// Why it was rejected.
        reason: IdRejection,
        /// The length that was supplied, in bytes.
        len: usize,
        /// The largest permitted length, in bytes.
        max: usize,
    },
    /// The collection name was rejected.
    InvalidCollectionName {
        /// The name that was supplied.
        name: String,
        /// Why it was rejected.
        reason: NameRejection,
    },
    /// A path component was rejected.
    InvalidPath {
        /// The path or component that was supplied.
        path: String,
        /// Why it was rejected.
        reason: PathRejection,
    },
    /// A metadata field or document exceeded a size limit.
    MetadataTooLarge {
        /// The field that pushed it over, or `"<document>"` for the whole record.
        field: String,
        /// The size that was supplied, in bytes.
        size: usize,
        /// The limit, in bytes.
        max: usize,
    },
    /// Metadata nesting exceeded the depth limit.
    MetadataDepthExceeded {
        /// The depth that was supplied.
        depth: usize,
        /// The limit.
        max: usize,
    },
    /// `top_k` was zero or above the limit.
    TopKOutOfRange {
        /// The value that was supplied.
        requested: usize,
        /// The limit.
        max: usize,
    },
    /// The filter had too many nodes or was nested too deeply.
    FilterTooComplex {
        /// Node count in the supplied filter.
        nodes: usize,
        /// Nesting depth of the supplied filter.
        depth: usize,
        /// The node limit.
        max_nodes: usize,
        /// The depth limit.
        max_depth: usize,
    },
    /// A batch exceeded the operation limit.
    BatchTooLarge {
        /// The number of operations supplied.
        ops: usize,
        /// The limit.
        max: usize,
    },
}

/// Input failed validation. Independent of how its texts are held in memory.
#[allow(inconsistent_fields)]
pub enum ValidationModel {
    InvalidVectorDimension { collection: Seq<char>, expected: u32, actual: u32 },
    InvalidVectorData { reason: NonFiniteKind, index: usize },
    InvalidDimension { dimension: u32, max: u32 },
    InvalidDocumentId { reason: IdRejection, len: usize, max: usize },
    InvalidCollectionName { name: Seq<char>, reason: NameRejection },
    InvalidPath { path: Seq<char>, reason: PathRejection },
    MetadataTooLarge { field: Seq<char>, size: usize, max: usize },
    MetadataDepthExceeded { depth: usize, max: usize },
    TopKOutOfRange { requested: usize, max: usize },
    FilterTooComplex { nodes: usize, depth: usize, max_nodes: usize, max_depth: usize },
    BatchTooLarge { ops: usize, max: usize },
}

impl ValidationError {
    /// The failure held.
    pub open spec fn model(self) -> ValidationModel
    {
        match self {
            ValidationError::InvalidVectorDimension { collection, expected, actual } => ValidationModel::InvalidVectorDimension { collection: collection@, expected, actual },
            ValidationError::InvalidVectorData { reason, index } => ValidationModel::InvalidVectorData { reason, index },
            ValidationError::InvalidDimension { dimension, max } => ValidationModel::InvalidDimension { dimension, max },
            ValidationError::InvalidDocumentId { reason, len, max } => ValidationModel::InvalidDocumentId { reason, len, max },
            ValidationError::InvalidCollectionName { name, reason } => ValidationModel::InvalidCollectionName { name: name@, reason },
            ValidationError::InvalidPath { path, reason } => ValidationModel::InvalidPath { path: path@, reason },
            ValidationError::MetadataTooLarge { field, size, max } => ValidationModel::MetadataTooLarge { field: field@, size, max },
            ValidationError::MetadataDepthExceeded { depth, max } => ValidationModel::MetadataDepthExceeded { depth, max },
            ValidationError::TopKOutOfRange { requested, max } => ValidationModel::TopKOutOfRange { requested, max },
            ValidationError::FilterTooComplex { nodes, depth, max_nodes, max_depth } => ValidationModel::FilterTooComplex { nodes, depth, max_nodes, max_depth },
            ValidationError::BatchTooLarge { ops, max } => ValidationModel::BatchTooLarge { ops, max },
        }
    }
}

impl View for ValidationError {
    type V = ValidationModel;

    open spec fn view(&self) -> ValidationModel {
        self.model()
    }
}

impl From<ValidationError> for DbError {
    fn from(e: ValidationError) -> (r: Self) {
        DbError::Validation(e)
    }
}

impl vstd::std_specs::convert::FromSpecImpl<ValidationError> for DbError {
    open spec fn obeys_from_spec() -> bool {
        true
    }

    open spec fn from_spec(e: ValidationError) -> Self {
        DbError::Validation(e)
    }
}

/// An index operation failed.
#[allow(inconsistent_fields)]
#[derive(Debug, PartialEq)]
pub enum IndexError {
    /// The index rejected an operation it cannot perform.
    OperationFailed {
        /// The index kind.
        kind: String,
        /// The operation attempted.
        operation: &'static str,
        /// What went wrong.
        detail: String,
    },
    /// Index construction failed.
    BuildFailed {
        /// The index kind.
        kind: String,
        /// What went wrong.
        detail: String,
    },
    /// The requested index kind is not compiled into this build.
    KindUnavailable {
        /// The kind that was requested.
        kind: String,
        /// The kinds this build does provide.
        available: Vec<String>,
    },
}

/// An index operation failed. Independent of how its texts are held in memory.
#[allow(inconsistent_fields)]
pub enum IndexErrorModel {
    OperationFailed { kind: Seq<char>, operation: &'static str, detail: Seq<char> },
    BuildFailed { kind: Seq<char>, detail: Seq<char> },
    KindUnavailable { kind: Seq<char>, available: Seq<Seq<char>> },
}

impl IndexError {
    /// The failure held.
    pub open spec fn model(self) -> IndexErrorModel
    {
        match self {
            IndexError::OperationFailed { kind, operation, detail } => IndexErrorModel::OperationFailed { kind: kind@, operation, detail: detail@ },
            IndexError::BuildFailed { kind, detail } => IndexErrorModel::BuildFailed { kind: kind@, detail: detail@ },
            IndexError::KindUnavailable { kind, available } => IndexErrorModel::KindUnavailable { kind: kind@, available: texts(available@) },
        }
    }
}

impl View for IndexError {
    type V = IndexErrorModel;

    open spec fn view(&self) -> IndexErrorModel {
        self.model()
    }
}

impl From<IndexError> for DbError {
    fn from(e: IndexError) -> (r: Self) {
        DbError::Index(e)
    }
}

impl vstd::std_specs::convert::FromSpecImpl<IndexError> for DbError {
    open spec fn obeys_from_spec() -> bool {
        true
    }

    open spec fn from_spec(e: IndexError) -> Self {
        DbError::Index(e)
    }
}

/// The storage backend failed.
#[allow(inconsistent_fields)]
#[derive(Debug, PartialEq)]
pub enum StorageError {
    /// An I/O failure.
    Io {
        /// The file involved.
        path: DbPath,
        /// The operation attempted.
        operation: StorageOp,
        /// The backend's description of the failure.
        detail: String,
    },
    /// The operating system denied access.
    PermissionDenied {
        /// The file involved.
        path: DbPath,
        /// The operation attempted.
        operation: StorageOp,
    },
    /// The storage volume is full.
    InsufficientStorage {
        /// Bytes the operation needed.
        required: u64,
        /// Bytes available, when the backend can report it.
        available: Option<u64>,
    },
    /// The file does not exist.
    NotFound {
        /// The file involved.
        path: DbPath,
    },
    /// The file exists and the open mode required creating it.
    AlreadyExists {
        /// The file involved.
        path: DbPath,
    },
    /// The backend does not implement a capability the engine needs.
    Unsupported {
        /// The operation attempted.
        operation: StorageOp,
        /// The backend's name.
        backend: &'static str,
    },
    /// A lock could not be acquired.
    LockUnavailable {
        /// The lock file.
        path: DbPath,
    },
}

/// The storage backend failed. Independent of how its texts are held in memory.
#[allow(inconsistent_fields)]
pub enum StorageModel {
    Io { path: Seq<char>, operation: StorageOp, detail: Seq<char> },
    PermissionDenied { path: Seq<char>, operation: StorageOp },
    InsufficientStorage { required: u64, available: Option<u64> },
    NotFound { path: Seq<char> },
    AlreadyExists { path: Seq<char> },
    Unsupported { operation: StorageOp, backend: &'static str },
    LockUnavailable { path: Seq<char> },
}

impl StorageError {
    /// The failure held.
    pub open spec fn model(self) -> StorageModel
    {
        match self {
            StorageError::Io { path, operation, detail } => StorageModel::Io { path: path@, operation, detail: detail@ },
            StorageError::PermissionDenied { path, operation } => StorageModel::PermissionDenied { path: path@, operation },
            StorageError::InsufficientStorage { required, available } => StorageModel::InsufficientStorage { required, available },
            StorageError::NotFound { path } => StorageModel::NotFound { path: path@ },
            StorageError::AlreadyExists { path } => StorageModel::AlreadyExists { path: path@ },
            StorageError::Unsupported { operation, backend } => StorageModel::Unsupported { operation, backend },
            StorageError::LockUnavailable { path } => StorageModel::LockUnavailable { path: path@ },
        }
    }
}

impl View for StorageError {
    type V = StorageModel;

    open spec fn view(&self) -> StorageModel {
        self.model()
    }
}

impl From<StorageError> for DbError {
    fn from(e: StorageError) -> (r: Self) {
        DbError::Storage(e)
    }
}

impl vstd::std_specs::convert::FromSpecImpl<StorageError> for DbError {
    open spec fn obeys_from_spec() -> bool {
        true
    }

    open spec fn from_spec(e: StorageError) -> Self {
        DbError::Storage(e)
    }
}

/// Persisted bytes are damaged or unreadable.
#[allow(inconsistent_fields)]
#[derive(Debug, PartialEq)]
pub enum CorruptionError {
    /// A file did not begin with the expected magic bytes.
    BadMagic {
        /// The file involved.
        path: DbPath,
        /// The magic the reader required.
        expected: [u8; 8],
        /// The magic that was found.
        found: [u8; 8],
    },
    /// A CRC did not match the data it covers.
    ChecksumMismatch {
        /// The file involved.
        path: DbPath,
        /// Byte offset of the block whose CRC failed.
        offset: u64,
        /// The CRC stored in the file.
        expected: u32,
        /// The CRC computed over the bytes read.
        found: u32,
    },
    /// A file ended before its declared length.
    TruncatedFile {
        /// The file involved.
        path: DbPath,
        /// The length the header declared.
        expected_len: u64,
        /// The length the file actually has.
        actual_len: u64,
    },
    /// Neither manifest slot was readable.
    NoValidManifest {
        /// The database root.
        path: DbPath,
        /// Why slot A was rejected.
        slot_a: String,
        /// Why slot B was rejected.
        slot_b: String,
    },
    /// A segment referenced by the manifest is missing.
    MissingSegment {
        /// The collection involved.
        collection: String,
        /// The segment id the manifest referenced.
        segment: u64,
    },
    /// The file format version is outside the readable range.
    UnsupportedFormatVersion {
        /// The file involved.
        path: DbPath,
        /// The version the file declares.
        found: u16,
        /// The oldest version this build can read.
        min_readable: u16,
        /// The version this build writes.
        current: u16,
    },
    /// A structural field held a value the format does not define.
    MalformedStructure {
        /// The file involved.
        path: DbPath,
        /// Byte offset of the field.
        offset: u64,
        /// What the reader expected there.
        detail: String,
    },
    /// The index disagrees with the data it indexes.
    InconsistentIndex {
        /// The collection involved.
        collection: String,
        /// What disagreed.
        detail: String,
    },
}

/// Persisted bytes are damaged or unreadable. Independent of how its texts are held in memory.
#[allow(inconsistent_fields)]
pub enum CorruptionModel {
    BadMagic { path: Seq<char>, expected: [u8; 8], found: [u8; 8] },
    ChecksumMismatch { path: Seq<char>, offset: u64, expected: u32, found: u32 },
    TruncatedFile { path: Seq<char>, expected_len: u64, actual_len: u64 },
    NoValidManifest { path: Seq<char>, slot_a: Seq<char>, slot_b: Seq<char> },
    MissingSegment { collection: Seq<char>, segment: u64 },
    UnsupportedFormatVersion { path: Seq<char>, found: u16, min_readable: u16, current: u16 },
    MalformedStructure { path: Seq<char>, offset: u64, detail: Seq<char> },
    InconsistentIndex { collection: Seq<char>, detail: Seq<char> },
}

impl CorruptionError {
    /// The failure held.
    pub open spec fn model(self) -> CorruptionModel
    {
        match self {
            CorruptionError::BadMagic { path, expected, found } => CorruptionModel::BadMagic { path: path@, expected, found },
            CorruptionError::ChecksumMismatch { path, offset, expected, found } => CorruptionModel::ChecksumMismatch { path: path@, offset, expected, found },
            CorruptionError::TruncatedFile { path, expected_len, actual_len } => CorruptionModel::TruncatedFile { path: path@, expected_len, actual_len },
            CorruptionError::NoValidManifest { path, slot_a, slot_b } => CorruptionModel::NoValidManifest { path: path@, slot_a: slot_a@, slot_b: slot_b@ },
            CorruptionError::MissingSegment { collection, segment } => CorruptionModel::MissingSegment { collection: collection@, segment },
            CorruptionError::UnsupportedFormatVersion { path, found, min_readable, current } => CorruptionModel::UnsupportedFormatVersion { path: path@, found, min_readable, current },
            CorruptionError::MalformedStructure { path, offset, detail } => CorruptionModel::MalformedStructure { path: path@, offset, detail: detail@ },
            CorruptionError::InconsistentIndex { collection, detail } => CorruptionModel::InconsistentIndex { collection: collection@, detail: detail@ },
        }
    }
}

impl View for CorruptionError {
    type V = CorruptionModel;

    open spec fn view(&self) -> CorruptionModel {
        self.model()
    }
}

impl From<CorruptionError> for DbError {
    fn from(e: CorruptionError) -> (r: Self) {
        DbError::Corruption(e)
    }
}

impl vstd::std_specs::convert::FromSpecImpl<CorruptionError> for DbError {
    open spec fn obeys_from_spec() -> bool {
        true
    }

    open spec fn from_spec(e: CorruptionError) -> Self {
        DbError::Corruption(e)
    }
}

/// A batch or transaction could not be committed.
#[allow(inconsistent_fields)]
#[derive(Debug, PartialEq)]
pub enum TransactionError {
    /// The batch was rolled back; nothing in it was applied.
    Aborted {
        /// Index of the operation that failed.
        failed_at: usize,
        /// The number of operations in the batch.
        total_ops: usize,
        /// The failure that caused the abort.
        cause: Box<DbError>,
    },
    /// A conflicting write was committed concurrently.
    WriteConflict {
        /// The collection involved.
        collection: String,
        /// The id that conflicted.
        id: String,
    },
}

/// A batch or transaction could not be committed. Independent of how its texts are held in memory.
#[allow(inconsistent_fields)]
pub enum TransactionModel {
    Aborted { failed_at: usize, total_ops: usize, cause: Box<ErrorModel> },
    WriteConflict { collection: Seq<char>, id: Seq<char> },
}

impl TransactionError {
    /// The failure held.
    pub open spec fn model(self) -> TransactionModel
        decreases self,
    {
        match self {
            TransactionError::Aborted { failed_at, total_ops, cause } => TransactionModel::Aborted { failed_at, total_ops, cause: Box::new((*cause).model()) },
            TransactionError::WriteConflict { collection, id } => TransactionModel::WriteConflict { collection: collection@, id: id@ },
        }
    }
}

impl View for TransactionError {
    type V = TransactionModel;

    open spec fn view(&self) -> TransactionModel {
        self.model()
    }
}

impl From<TransactionError> for DbError {
    fn from(e: TransactionError) -> (r: Self) {
        DbError::Transaction(e)
    }
}

impl vstd::std_specs::convert::FromSpecImpl<TransactionError> for DbError {
    open spec fn obeys_from_spec() -> bool {
        true
    }

    open spec fn from_spec(e: TransactionError) -> Self {
        DbError::Transaction(e)
    }
}

/// A resource limit was reached.
#[allow(inconsistent_fields)]
#[derive(Debug, PartialEq)]
pub enum ResourceError {
    /// A fixed limit was reached.
    LimitReached {
        /// The limit's name.
        resource: &'static str,
        /// The value that was requested.
        requested: u64,
        /// The limit.
        limit: u64,
    },
    /// An allocation would have exceeded what the caller permitted.
    OutOfMemory {
        /// Bytes requested.
        requested: u64,
    },
}

/// A resource limit was reached. Independent of how its texts are held in memory.
#[allow(inconsistent_fields)]
pub enum ResourceModel {
    LimitReached { resource: &'static str, requested: u64, limit: u64 },
    OutOfMemory { requested: u64 },
}

impl ResourceError {
    /// The failure held.
    pub open spec fn model(self) -> ResourceModel
    {
        match self {
            ResourceError::LimitReached { resource, requested, limit } => ResourceModel::LimitReached { resource, requested, limit },
            ResourceError::OutOfMemory { requested } => ResourceModel::OutOfMemory { requested },
        }
    }
}

impl View for ResourceError {
    type V = ResourceModel;

    open spec fn view(&self) -> ResourceModel {
        self.model()
    }
}

impl From<ResourceError> for DbError {
    fn from(e: ResourceError) -> (r: Self) {
        DbError::ResourceExhausted(e)
    }
}

impl vstd::std_specs::convert::FromSpecImpl<ResourceError> for DbError {
    open spec fn obeys_from_spec() -> bool {
        true
    }

    open spec fn from_spec(e: ResourceError) -> Self {
        DbError::ResourceExhausted(e)
    }
}

} // verus!
