//! What every error says to people.
use vstd::prelude::*;

use crate::error::code;
use crate::error::{
    ConfigError, ConfigModel, ConflictError, ConflictModel, CorruptionError, CorruptionModel, DbError,
    ErrorModel, IdRejection, IndexError, IndexErrorModel, LifecycleError, LifecycleModel,
    NameRejection, NonFiniteKind, NotFoundError, NotFoundModel, ResourceError, ResourceModel,
    StorageError, StorageModel, StorageOp, TransactionError, TransactionModel, ValidationError,
    ValidationModel,
};
use crate::error;
use crate::path;
use crate::text;

verus! {

/// Texts with a comma between them.
pub open spec fn joined(s: Seq<Seq<char>>) -> Seq<char>
    decreases s.len(),
{
    if s.len() == 0 {
        Seq::empty()
    } else if s.len() == 1 {
        s[0]
    } else {
        joined(s.drop_last()) + ", "@ + s.last()
    }
}

/// Append texts with a comma between them.
fn push_joined(out: &mut String, s: &Vec<String>)
    ensures
        final(out)@ == old(out)@ + joined(error::texts(s@)),
{
    let ghost all = error::texts(s@);
    let mut i: usize = 0;
    assert(out@ + joined(all.take(0)) =~= out@);
    while i < s.len()
        invariant
            i <= s@.len(),
            all == error::texts(s@),
            out@ == old(out)@ + joined(all.take(i as int)),
        decreases s.len() - i,
    {
        if i > 0 {
            out.append(", ");
        }
        out.append(s[i].as_str());
        proof {
            let next = all.take(i + 1);
            assert(next.drop_last() =~= all.take(i as int));
            assert(next.last() == s@[i as int]@);
            assert(out@ =~= old(out)@ + joined(next));
        }
        i += 1;
    }
    assert(all.take(i as int) =~= all);
}

impl NonFiniteKind {
    /// How this reads in a message.
    pub open spec fn text(self) -> Seq<char> {
        match self {
            NonFiniteKind::Nan => "NaN"@,
            NonFiniteKind::PosInf => "+infinity"@,
            NonFiniteKind::NegInf => "-infinity"@,
        }
    }

    /// How this reads in a message.
    pub fn label(&self) -> (r: &'static str)
        ensures
            r@ == self.text(),
    {
        match self {
            NonFiniteKind::Nan => "NaN",
            NonFiniteKind::PosInf => "+infinity",
            NonFiniteKind::NegInf => "-infinity",
        }
    }
}

impl IdRejection {
    /// How this reads in a message.
    pub open spec fn text(self) -> Seq<char> {
        match self {
            IdRejection::Empty => "is empty"@,
            IdRejection::TooLong => "is too long"@,
            IdRejection::IllegalCharacter => "contains a NUL or control character"@,
            IdRejection::NotUtf8 => "is not valid UTF-8"@,
        }
    }

    /// How this reads in a message.
    pub fn label(&self) -> (r: &'static str)
        ensures
            r@ == self.text(),
    {
        match self {
            IdRejection::Empty => "is empty",
            IdRejection::TooLong => "is too long",
            IdRejection::IllegalCharacter => "contains a NUL or control character",
            IdRejection::NotUtf8 => "is not valid UTF-8",
        }
    }
}

impl NameRejection {
    /// How this reads in a message.
    pub open spec fn text(self) -> Seq<char> {
        match self {
            NameRejection::Empty => "is empty"@,
            NameRejection::TooLong => "is too long"@,
            NameRejection::IllegalCharacter => "contains a character outside [A-Za-z0-9_-]"@,
            NameRejection::Reserved => "is reserved"@,
        }
    }

    /// How this reads in a message.
    pub fn label(&self) -> (r: &'static str)
        ensures
            r@ == self.text(),
    {
        match self {
            NameRejection::Empty => "is empty",
            NameRejection::TooLong => "is too long",
            NameRejection::IllegalCharacter => "contains a character outside [A-Za-z0-9_-]",
            NameRejection::Reserved => "is reserved",
        }
    }
}

impl StorageOp {
    /// How this reads in a message.
    pub open spec fn text(self) -> Seq<char> {
        match self {
            StorageOp::Open => "open"@,
            StorageOp::Read => "read"@,
            StorageOp::Write => "write"@,
            StorageOp::Append => "append"@,
            StorageOp::Sync => "sync"@,
            StorageOp::Truncate => "truncate"@,
            StorageOp::Metadata => "stat"@,
            StorageOp::Remove => "remove"@,
            StorageOp::Rename => "rename"@,
            StorageOp::CreateDir => "create directory"@,
            StorageOp::ListDir => "list directory"@,
            StorageOp::MemoryMap => "memory-map"@,
            StorageOp::Lock => "lock"@,
        }
    }

    /// How this reads in a message.
    pub fn label(&self) -> (r: &'static str)
        ensures
            r@ == self.text(),
    {
        match self {
            StorageOp::Open => "open",
            StorageOp::Read => "read",
            StorageOp::Write => "write",
            StorageOp::Append => "append",
            StorageOp::Sync => "sync",
            StorageOp::Truncate => "truncate",
            StorageOp::Metadata => "stat",
            StorageOp::Remove => "remove",
            StorageOp::Rename => "rename",
            StorageOp::CreateDir => "create directory",
            StorageOp::ListDir => "list directory",
            StorageOp::MemoryMap => "memory-map",
            StorageOp::Lock => "lock",
        }
    }
}

impl ConfigModel {
    /// What the message says.
    pub open spec fn text(self) -> Seq<char>
    {
        match self {
            ConfigModel::InvalidDatabasePath { path, reason } => "invalid database path "@ + text::quoted(path) + ": "@ + reason,
            ConfigModel::InvalidField { field, value, constraint } => "config field `"@ + field@ + "` = "@ + value + ": must be "@ + constraint@,
            ConfigModel::UnsupportedByBackend { requested, missing_capability } => "storage backend cannot provide "@ + requested@ + ": it lacks `"@ + missing_capability@ + "`"@,
        }
    }
}

impl ConfigError {
    /// The message, for people to read.
    pub fn message(&self) -> (r: String)
        ensures
            r@ == self@.text(),
    {
        let mut out = String::new();
        match self {
            ConfigError::InvalidDatabasePath { path, reason } => {
                out.append("invalid database path ");
                text::push_quoted(&mut out, path.as_str());
                out.append(": ");
                out.append(reason.as_str());
            },
            ConfigError::InvalidField { field, value, constraint } => {
                out.append("config field `");
                out.append(field);
                out.append("` = ");
                out.append(value.as_str());
                out.append(": must be ");
                out.append(constraint);
            },
            ConfigError::UnsupportedByBackend { requested, missing_capability } => {
                out.append("storage backend cannot provide ");
                out.append(requested);
                out.append(": it lacks `");
                out.append(missing_capability);
                out.append("`");
            },
        }
        assert(out@ =~= self@.text());
        out
    }
}

impl LifecycleModel {
    /// What the message says.
    pub open spec fn text(self) -> Seq<char>
    {
        match self {
            LifecycleModel::DatabaseAlreadyOpen { path, holder } => "database "@ + text::quoted(path) + " is already open"@ + (match holder { Some(h) => " (held by "@ + h + ")"@, None => Seq::empty() }),
            LifecycleModel::DatabaseNotFound { path } => "no database at "@ + text::quoted(path) + " and `create_if_missing` is false"@,
            LifecycleModel::DatabaseClosed => "database handle is closed"@,
            LifecycleModel::ReadOnly { operation } => "cannot "@ + operation@ + ": the database is open read-only"@,
            LifecycleModel::NotADatabase { path } => text::quoted(path) + " exists but contains no vdb database"@,
        }
    }
}

impl LifecycleError {
    /// The message, for people to read.
    pub fn message(&self) -> (r: String)
        ensures
            r@ == self@.text(),
    {
        let mut out = String::new();
        match self {
            LifecycleError::DatabaseAlreadyOpen { path, holder } => {
                out.append("database ");
                text::push_quoted(&mut out, path.as_str());
                out.append(" is already open");
                if let Some(h) = holder {
                    out.append(" (held by ");
                    out.append(h.as_str());
                    out.append(")");
                }
            },
            LifecycleError::DatabaseNotFound { path } => {
                out.append("no database at ");
                text::push_quoted(&mut out, path.as_str());
                out.append(" and `create_if_missing` is false");
            },
            LifecycleError::DatabaseClosed => {
                out.append("database handle is closed");
            },
            LifecycleError::ReadOnly { operation } => {
                out.append("cannot ");
                out.append(operation);
                out.append(": the database is open read-only");
            },
            LifecycleError::NotADatabase { path } => {
                text::push_quoted(&mut out, path.as_str());
                out.append(" exists but contains no vdb database");
            },
        }
        assert(out@ =~= self@.text());
        out
    }
}

impl NotFoundModel {
    /// What the message says.
    pub open spec fn text(self) -> Seq<char>
    {
        match self {
            NotFoundModel::Collection { name } => "collection "@ + text::quoted(name) + " not found"@,
            NotFoundModel::Document { collection, id } => "document "@ + text::quoted(id) + " not found in collection "@ + text::quoted(collection),
            NotFoundModel::Index { collection, kind } => "no "@ + kind + " index for collection "@ + text::quoted(collection),
        }
    }
}

impl NotFoundError {
    /// The message, for people to read.
    pub fn message(&self) -> (r: String)
        ensures
            r@ == self@.text(),
    {
        let mut out = String::new();
        match self {
            NotFoundError::Collection { name } => {
                out.append("collection ");
                text::push_quoted(&mut out, name.as_str());
                out.append(" not found");
            },
            NotFoundError::Document { collection, id } => {
                out.append("document ");
                text::push_quoted(&mut out, id.as_str());
                out.append(" not found in collection ");
                text::push_quoted(&mut out, collection.as_str());
            },
            NotFoundError::Index { collection, kind } => {
                out.append("no ");
                out.append(kind.as_str());
                out.append(" index for collection ");
                text::push_quoted(&mut out, collection.as_str());
            },
        }
        assert(out@ =~= self@.text());
        out
    }
}

impl ConflictModel {
    /// What the message says.
    pub open spec fn text(self) -> Seq<char>
    {
        match self {
            ConflictModel::CollectionExists { name } => "collection "@ + text::quoted(name) + " already exists"@,
            ConflictModel::DuplicateId { collection, id } => "document "@ + text::quoted(id) + " already exists in collection "@ + text::quoted(collection) + "; use upsert to replace it"@,
        }
    }
}

impl ConflictError {
    /// The message, for people to read.
    pub fn message(&self) -> (r: String)
        ensures
            r@ == self@.text(),
    {
        let mut out = String::new();
        match self {
            ConflictError::CollectionExists { name } => {
                out.append("collection ");
                text::push_quoted(&mut out, name.as_str());
                out.append(" already exists");
            },
            ConflictError::DuplicateId { collection, id } => {
                out.append("document ");
                text::push_quoted(&mut out, id.as_str());
                out.append(" already exists in collection ");
                text::push_quoted(&mut out, collection.as_str());
                out.append("; use upsert to replace it");
            },
        }
        assert(out@ =~= self@.text());
        out
    }
}

impl ValidationModel {
    /// What the message says.
    pub open spec fn text(self) -> Seq<char>
    {
        match self {
            ValidationModel::InvalidVectorDimension { collection, expected, actual } => "collection "@ + text::quoted(collection) + " stores "@ + text::decimal(expected as nat) + "-dimensional vectors, got "@ + text::decimal(actual as nat),
            ValidationModel::InvalidVectorData { reason, index } => "vector component "@ + text::decimal(index as nat) + " is "@ + reason.text(),
            ValidationModel::InvalidDimension { dimension, max } => "dimension "@ + text::decimal(dimension as nat) + " must be between 1 and "@ + text::decimal(max as nat),
            ValidationModel::InvalidDocumentId { reason, len, max } => "document id "@ + reason.text() + " (length "@ + text::decimal(len as nat) + ", maximum "@ + text::decimal(max as nat) + ")"@,
            ValidationModel::InvalidCollectionName { name, reason } => "collection name "@ + text::quoted(name) + " "@ + reason.text(),
            ValidationModel::InvalidPath { path, reason } => "path "@ + text::quoted(path) + " "@ + reason.text(),
            ValidationModel::MetadataTooLarge { field, size, max } => "metadata field "@ + text::quoted(field) + " is "@ + text::decimal(size as nat) + " bytes, maximum is "@ + text::decimal(max as nat),
            ValidationModel::MetadataDepthExceeded { depth, max } => "metadata nested "@ + text::decimal(depth as nat) + " deep, maximum is "@ + text::decimal(max as nat),
            ValidationModel::TopKOutOfRange { requested, max } => "top_k must be between 1 and "@ + text::decimal(max as nat) + ", got "@ + text::decimal(requested as nat),
            ValidationModel::FilterTooComplex { nodes, depth, max_nodes, max_depth } => "filter has "@ + text::decimal(nodes as nat) + " nodes at depth "@ + text::decimal(depth as nat) + "; limits are "@ + text::decimal(max_nodes as nat) + " nodes, depth "@ + text::decimal(max_depth as nat),
            ValidationModel::BatchTooLarge { ops, max } => "batch has "@ + text::decimal(ops as nat) + " operations, maximum is "@ + text::decimal(max as nat),
        }
    }
}

impl ValidationError {
    /// The message, for people to read.
    pub fn message(&self) -> (r: String)
        ensures
            r@ == self@.text(),
    {
        let mut out = String::new();
        match self {
            ValidationError::InvalidVectorDimension { collection, expected, actual } => {
                out.append("collection ");
                text::push_quoted(&mut out, collection.as_str());
                out.append(" stores ");
                text::push_decimal(&mut out, *expected as u64);
                out.append("-dimensional vectors, got ");
                text::push_decimal(&mut out, *actual as u64);
            },
            ValidationError::InvalidVectorData { reason, index } => {
                out.append("vector component ");
                text::push_decimal(&mut out, *index as u64);
                out.append(" is ");
                out.append(reason.label());
            },
            ValidationError::InvalidDimension { dimension, max } => {
                out.append("dimension ");
                text::push_decimal(&mut out, *dimension as u64);
                out.append(" must be between 1 and ");
                text::push_decimal(&mut out, *max as u64);
            },
            ValidationError::InvalidDocumentId { reason, len, max } => {
                out.append("document id ");
                out.append(reason.label());
                out.append(" (length ");
                text::push_decimal(&mut out, *len as u64);
                out.append(", maximum ");
                text::push_decimal(&mut out, *max as u64);
                out.append(")");
            },
            ValidationError::InvalidCollectionName { name, reason } => {
                out.append("collection name ");
                text::push_quoted(&mut out, name.as_str());
                out.append(" ");
                out.append(reason.label());
            },
            ValidationError::InvalidPath { path, reason } => {
                out.append("path ");
                text::push_quoted(&mut out, path.as_str());
                out.append(" ");
                out.append(reason.label());
            },
            ValidationError::MetadataTooLarge { field, size, max } => {
                out.append("metadata field ");
                text::push_quoted(&mut out, field.as_str());
                out.append(" is ");
                text::push_decimal(&mut out, *size as u64);
                out.append(" bytes, maximum is ");
                text::push_decimal(&mut out, *max as u64);
            },
            ValidationError::MetadataDepthExceeded { depth, max } => {
                out.append("metadata nested ");
                text::push_decimal(&mut out, *depth as u64);
                out.append(" deep, maximum is ");
                text::push_decimal(&mut out, *max as u64);
            },
            ValidationError::TopKOutOfRange { requested, max } => {
                out.append("top_k must be between 1 and ");
                text::push_decimal(&mut out, *max as u64);
                out.append(", got ");
                text::push_decimal(&mut out, *requested as u64);
            },
            ValidationError::FilterTooComplex { nodes, depth, max_nodes, max_depth } => {
                out.append("filter has ");
                text::push_decimal(&mut out, *nodes as u64);
                out.append(" nodes at depth ");
                text::push_decimal(&mut out, *depth as u64);
                out.append("; limits are ");
                text::push_decimal(&mut out, *max_nodes as u64);
                out.append(" nodes, depth ");
                text::push_decimal(&mut out, *max_depth as u64);
            },
            ValidationError::BatchTooLarge { ops, max } => {
                out.append("batch has ");
                text::push_decimal(&mut out, *ops as u64);
                out.append(" operations, maximum is ");
                text::push_decimal(&mut out, *max as u64);
            },
        }
        assert(out@ =~= self@.text());
        out
    }
}

impl IndexErrorModel {
    /// What the message says.
    pub open spec fn text(self) -> Seq<char>
    {
        match self {
            IndexErrorModel::OperationFailed { kind, operation, detail } => kind + " index failed to "@ + operation@ + ": "@ + detail,
            IndexErrorModel::BuildFailed { kind, detail } => kind + " index build failed: "@ + detail,
            IndexErrorModel::KindUnavailable { kind, available } => "index kind "@ + text::quoted(kind) + " is not in this build; available: "@ + joined(available),
        }
    }
}

impl IndexError {
    /// The message, for people to read.
    pub fn message(&self) -> (r: String)
        ensures
            r@ == self@.text(),
    {
        let mut out = String::new();
        match self {
            IndexError::OperationFailed { kind, operation, detail } => {
                out.append(kind.as_str());
                out.append(" index failed to ");
                out.append(operation);
                out.append(": ");
                out.append(detail.as_str());
            },
            IndexError::BuildFailed { kind, detail } => {
                out.append(kind.as_str());
                out.append(" index build failed: ");
                out.append(detail.as_str());
            },
            IndexError::KindUnavailable { kind, available } => {
                out.append("index kind ");
                text::push_quoted(&mut out, kind.as_str());
                out.append(" is not in this build; available: ");
                push_joined(&mut out, available);
            },
        }
        assert(out@ =~= self@.text());
        out
    }
}

impl StorageModel {
    /// What the message says.
    pub open spec fn text(self) -> Seq<char>
    {
        match self {
            StorageModel::Io { path, operation, detail } => "failed to "@ + operation.text() + " "@ + path::path_text(path) + ": "@ + detail,
            StorageModel::PermissionDenied { path, operation } => "permission denied trying to "@ + operation.text() + " "@ + path::path_text(path),
            StorageModel::InsufficientStorage { required, available } => "need "@ + text::decimal(required as nat) + " bytes"@ + (match available { Some(a) => ", only "@ + text::decimal(a as nat) + " available"@, None => "; storage is full"@ }),
            StorageModel::NotFound { path } => "file "@ + path::path_text(path) + " not found"@,
            StorageModel::AlreadyExists { path } => "file "@ + path::path_text(path) + " already exists"@,
            StorageModel::Unsupported { operation, backend } => "the "@ + backend@ + " storage backend cannot "@ + operation.text(),
            StorageModel::LockUnavailable { path } => "could not acquire lock "@ + path::path_text(path),
        }
    }
}

impl StorageError {
    /// The message, for people to read.
    pub fn message(&self) -> (r: String)
        ensures
            r@ == self@.text(),
    {
        let mut out = String::new();
        match self {
            StorageError::Io { path, operation, detail } => {
                out.append("failed to ");
                out.append(operation.label());
                out.append(" ");
                out.append(path.shown());
                out.append(": ");
                out.append(detail.as_str());
            },
            StorageError::PermissionDenied { path, operation } => {
                out.append("permission denied trying to ");
                out.append(operation.label());
                out.append(" ");
                out.append(path.shown());
            },
            StorageError::InsufficientStorage { required, available } => {
                out.append("need ");
                text::push_decimal(&mut out, *required as u64);
                out.append(" bytes");
                match available {
                    Some(a) => {
                        out.append(", only ");
                        text::push_decimal(&mut out, *a);
                        out.append(" available");
                    },
                    None => {
                        out.append("; storage is full");
                    },
                }
            },
            StorageError::NotFound { path } => {
                out.append("file ");
                out.append(path.shown());
                out.append(" not found");
            },
            StorageError::AlreadyExists { path } => {
                out.append("file ");
                out.append(path.shown());
                out.append(" already exists");
            },
            StorageError::Unsupported { operation, backend } => {
                out.append("the ");
                out.append(backend);
                out.append(" storage backend cannot ");
                out.append(operation.label());
            },
            StorageError::LockUnavailable { path } => {
                out.append("could not acquire lock ");
                out.append(path.shown());
            },
        }
        assert(out@ =~= self@.text());
        out
    }
}

impl CorruptionModel {
    /// What the message says.
    pub open spec fn text(self) -> Seq<char>
    {
        match self {
            CorruptionModel::BadMagic { path, expected, found } => path::path_text(path) + " is not the expected file kind: magic "@ + text::magic_text(found@) + " != "@ + text::magic_text(expected@),
            CorruptionModel::ChecksumMismatch { path, offset, expected, found } => "checksum mismatch in "@ + path::path_text(path) + " at offset "@ + text::decimal(offset as nat) + ": stored 0x"@ + text::hex(expected as nat, 8) + ", computed 0x"@ + text::hex(found as nat, 8),
            CorruptionModel::TruncatedFile { path, expected_len, actual_len } => path::path_text(path) + " is truncated: header declares "@ + text::decimal(expected_len as nat) + " bytes, file has "@ + text::decimal(actual_len as nat),
            CorruptionModel::NoValidManifest { path, slot_a, slot_b } => "no valid manifest in "@ + path::path_text(path) + ": slot A "@ + slot_a + ", slot B "@ + slot_b,
            CorruptionModel::MissingSegment { collection, segment } => "segment "@ + text::padded(segment as nat, 6) + " of collection "@ + text::quoted(collection) + " is referenced by the manifest but missing"@,
            CorruptionModel::UnsupportedFormatVersion { path, found, min_readable, current } => path::path_text(path) + " is format version "@ + text::decimal(found as nat) + "; this build reads "@ + text::decimal(min_readable as nat) + "..="@ + text::decimal(current as nat),
            CorruptionModel::MalformedStructure { path, offset, detail } => "malformed structure in "@ + path::path_text(path) + " at offset "@ + text::decimal(offset as nat) + ": "@ + detail,
            CorruptionModel::InconsistentIndex { collection, detail } => "index for collection "@ + text::quoted(collection) + " is inconsistent ("@ + detail + "); rebuild it"@,
        }
    }
}

impl CorruptionError {
    /// The message, for people to read.
    pub fn message(&self) -> (r: String)
        ensures
            r@ == self@.text(),
    {
        let mut out = String::new();
        match self {
            CorruptionError::BadMagic { path, expected, found } => {
                out.append(path.shown());
                out.append(" is not the expected file kind: magic ");
                text::push_magic(&mut out, found.as_slice());
                out.append(" != ");
                text::push_magic(&mut out, expected.as_slice());
            },
            CorruptionError::ChecksumMismatch { path, offset, expected, found } => {
                out.append("checksum mismatch in ");
                out.append(path.shown());
                out.append(" at offset ");
                text::push_decimal(&mut out, *offset as u64);
                out.append(": stored 0x");
                text::push_hex(&mut out, *expected as u64, 8);
                out.append(", computed 0x");
                text::push_hex(&mut out, *found as u64, 8);
            },
            CorruptionError::TruncatedFile { path, expected_len, actual_len } => {
                out.append(path.shown());
                out.append(" is truncated: header declares ");
                text::push_decimal(&mut out, *expected_len as u64);
                out.append(" bytes, file has ");
                text::push_decimal(&mut out, *actual_len as u64);
            },
            CorruptionError::NoValidManifest { path, slot_a, slot_b } => {
                out.append("no valid manifest in ");
                out.append(path.shown());
                out.append(": slot A ");
                out.append(slot_a.as_str());
                out.append(", slot B ");
                out.append(slot_b.as_str());
            },
            CorruptionError::MissingSegment { collection, segment } => {
                out.append("segment ");
                text::push_padded(&mut out, *segment, 6);
                out.append(" of collection ");
                text::push_quoted(&mut out, collection.as_str());
                out.append(" is referenced by the manifest but missing");
            },
            CorruptionError::UnsupportedFormatVersion { path, found, min_readable, current } => {
                out.append(path.shown());
                out.append(" is format version ");
                text::push_decimal(&mut out, *found as u64);
                out.append("; this build reads ");
                text::push_decimal(&mut out, *min_readable as u64);
                out.append("..=");
                text::push_decimal(&mut out, *current as u64);
            },
            CorruptionError::MalformedStructure { path, offset, detail } => {
                out.append("malformed structure in ");
                out.append(path.shown());
                out.append(" at offset ");
                text::push_decimal(&mut out, *offset as u64);
                out.append(": ");
                out.append(detail.as_str());
            },
            CorruptionError::InconsistentIndex { collection, detail } => {
                out.append("index for collection ");
                text::push_quoted(&mut out, collection.as_str());
                out.append(" is inconsistent (");
                out.append(detail.as_str());
                out.append("); rebuild it");
            },
        }
        assert(out@ =~= self@.text());
        out
    }
}

impl TransactionModel {
    /// What the message says.
    pub open spec fn text(self) -> Seq<char>
        decreases self,
    {
        match self {
            TransactionModel::Aborted { failed_at, total_ops, cause } => "batch aborted at operation "@ + text::decimal(failed_at as nat) + " of "@ + text::decimal(total_ops as nat) + "; nothing was applied: "@ + cause.text(),
            TransactionModel::WriteConflict { collection, id } => "write conflict on "@ + text::quoted(id) + " in collection "@ + text::quoted(collection),
        }
    }
}

impl TransactionError {
    /// The message, for people to read.
    pub fn message(&self) -> (r: String)
        ensures
            r@ == self@.text(),
        decreases self,
    {
        let mut out = String::new();
        match self {
            TransactionError::Aborted { failed_at, total_ops, cause } => {
                out.append("batch aborted at operation ");
                text::push_decimal(&mut out, *failed_at as u64);
                out.append(" of ");
                text::push_decimal(&mut out, *total_ops as u64);
                out.append("; nothing was applied: ");
                out.append(cause.message().as_str());
            },
            TransactionError::WriteConflict { collection, id } => {
                out.append("write conflict on ");
                text::push_quoted(&mut out, id.as_str());
                out.append(" in collection ");
                text::push_quoted(&mut out, collection.as_str());
            },
        }
        assert(out@ =~= self@.text());
        out
    }
}

impl ResourceModel {
    /// What the message says.
    pub open spec fn text(self) -> Seq<char>
    {
        match self {
            ResourceModel::LimitReached { resource, requested, limit } => resource@ + " limit reached: requested "@ + text::decimal(requested as nat) + ", limit "@ + text::decimal(limit as nat),
            ResourceModel::OutOfMemory { requested } => "allocation of "@ + text::decimal(requested as nat) + " bytes refused"@,
        }
    }
}

impl ResourceError {
    /// The message, for people to read.
    pub fn message(&self) -> (r: String)
        ensures
            r@ == self@.text(),
    {
        let mut out = String::new();
        match self {
            ResourceError::LimitReached { resource, requested, limit } => {
                out.append(resource);
                out.append(" limit reached: requested ");
                text::push_decimal(&mut out, *requested as u64);
                out.append(", limit ");
                text::push_decimal(&mut out, *limit as u64);
            },
            ResourceError::OutOfMemory { requested } => {
                out.append("allocation of ");
                text::push_decimal(&mut out, *requested as u64);
                out.append(" bytes refused");
            },
        }
        assert(out@ =~= self@.text());
        out
    }
}

impl ErrorModel {
    /// What the message says: the code in brackets, then what happened.
    pub open spec fn text(self) -> Seq<char>
        decreases self,
    {
        let what = match self {
            ErrorModel::Config(e) => e.text(),
            ErrorModel::Lifecycle(e) => e.text(),
            ErrorModel::NotFound(e) => e.text(),
            ErrorModel::Conflict(e) => e.text(),
            ErrorModel::Validation(e) => e.text(),
            ErrorModel::Index(e) => e.text(),
            ErrorModel::Storage(e) => e.text(),
            ErrorModel::Corruption(e) => e.text(),
            ErrorModel::Transaction(e) => e.text(),
            ErrorModel::ResourceExhausted(e) => e.text(),
            ErrorModel::Cancelled => "operation cancelled"@,
            ErrorModel::Internal(e) => "internal error at "@ + e.location@ + ": "@ + e.message
                + " (this is a bug in vdb; please report it)"@,
        };
        "["@ + code::code_text(code::code_of(self)) + "] "@ + what
    }
}

impl DbError {
    /// The message, for people to read: the code in brackets, then what happened.
    pub fn message(&self) -> (r: String)
        ensures
            r@ == self@.text(),
        decreases self,
    {
        let mut out = "[".to_owned();
        out.append(self.code().text().as_str());
        out.append("] ");
        match self {
            DbError::Config(e) => {
                out.append(e.message().as_str());
            },
            DbError::Lifecycle(e) => {
                out.append(e.message().as_str());
            },
            DbError::NotFound(e) => {
                out.append(e.message().as_str());
            },
            DbError::Conflict(e) => {
                out.append(e.message().as_str());
            },
            DbError::Validation(e) => {
                out.append(e.message().as_str());
            },
            DbError::Index(e) => {
                out.append(e.message().as_str());
            },
            DbError::Storage(e) => {
                out.append(e.message().as_str());
            },
            DbError::Corruption(e) => {
                out.append(e.message().as_str());
            },
            DbError::Transaction(e) => {
                out.append(e.message().as_str());
            },
            DbError::ResourceExhausted(e) => {
                out.append(e.message().as_str());
            },
            DbError::Cancelled => {
                out.append("operation cancelled");
            },
            DbError::Internal(e) => {
                out.append("internal error at ");
                out.append(e.location);
                out.append(": ");
                out.append(e.message.as_str());
                out.append(" (this is a bug in vdb; please report it)");
            },
        }
        assert(out@ =~= self@.text());
        out
    }
}

} // verus!
