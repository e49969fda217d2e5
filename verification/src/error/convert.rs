//! Attaching files to format-level failures.
use vstd::prelude::*;

use crate::error::{CorruptionError, CorruptionModel, DbError, ErrorModel};
use crate::format::error::FormatError;
use crate::path;
use crate::path::DbPath;
use crate::text;

verus! {

/// What a format-level failure in the file `path` is reported as.
pub open spec fn reported(e: FormatError, path: Seq<char>) -> ErrorModel {
    ErrorModel::Corruption(
        match e {
            FormatError::BadMagic { expected, found } => CorruptionModel::BadMagic {
                path,
                expected,
                found,
            },
            FormatError::UnsupportedVersion { found, min_readable, current } =>
                CorruptionModel::UnsupportedFormatVersion { path, found, min_readable, current },
            FormatError::ChecksumMismatch { offset, expected, found } =>
                CorruptionModel::ChecksumMismatch { path, offset, expected, found },
            FormatError::Truncated { offset, needed, available } => CorruptionModel::TruncatedFile {
                path,
                expected_len: if offset + needed > u64::MAX {
                    u64::MAX
                } else {
                    (offset + needed) as u64
                },
                actual_len: available,
            },
            FormatError::LengthExceedsInput { offset, claimed, available } =>
                CorruptionModel::MalformedStructure {
                path,
                offset,
                detail: "length field claims "@ + text::decimal(claimed as nat) + " bytes, "@
                    + text::decimal(available as nat) + " available"@,
            },
            FormatError::Malformed { offset, kind } => CorruptionModel::MalformedStructure {
                path,
                offset,
                detail: kind.text(),
            },
        },
    )
}

/// Convert a format-level decode failure into a [`DbError`] with no path attached.
///
/// The format layer decodes byte slices and has no concept of a file, so the layer that *does*
/// know the path is responsible for attaching it; see [`from_format_at`]. This pathless form is
/// for decoding buffers that never came from a file, such as metadata handed in by a caller.
pub fn from_format(e: FormatError) -> (r: DbError)
    ensures
        r@ == reported(e, path::root_text()),
{
    from_format_at(e, &DbPath::root())
}

/// Convert a format-level decode failure, attaching the file it came from.
pub fn from_format_at(e: FormatError, path: &DbPath) -> (r: DbError)
    ensures
        r@ == reported(e, path@),
{
    let path = path.clone();
    DbError::Corruption(
        match e {
            FormatError::BadMagic { expected, found } => CorruptionError::BadMagic {
                path,
                expected,
                found,
            },
            FormatError::UnsupportedVersion { found, min_readable, current } =>
                CorruptionError::UnsupportedFormatVersion { path, found, min_readable, current },
            FormatError::ChecksumMismatch { offset, expected, found } =>
                CorruptionError::ChecksumMismatch { path, offset, expected, found },
            FormatError::Truncated { offset, needed, available } => CorruptionError::TruncatedFile {
                path,
                expected_len: offset.saturating_add(needed),
                actual_len: available,
            },
            // A length field that exceeds the input is the condition that turns a naive parser
            // into an out-of-memory crash, so it keeps its own distinct description rather than
            // being folded into "truncated".
            FormatError::LengthExceedsInput { offset, claimed, available } => {
                let mut detail = "length field claims ".to_owned();
                text::push_decimal(&mut detail, claimed);
                detail.append(" bytes, ");
                text::push_decimal(&mut detail, available);
                detail.append(" available");
                CorruptionError::MalformedStructure { path, offset, detail }
            },
            FormatError::Malformed { offset, kind } => CorruptionError::MalformedStructure {
                path,
                offset,
                detail: kind.message(),
            },
        },
    )
}

/// Every format-level failure is damage: it is reported as corruption, whatever the file.
pub proof fn lemma_format_failures_are_corruption(e: FormatError, path: Seq<char>)
    ensures
        reported(e, path) is Corruption,
{
}

/// A failure of the format is reported as the damage that it is, for the file that it is in, with
/// the numbers that were found.
pub proof fn lemma_format_failures_keep_their_numbers(e: FormatError, path: Seq<char>)
    ensures
        match e {
            FormatError::BadMagic { expected, found } => reported(e, path) == ErrorModel::Corruption(
                CorruptionModel::BadMagic { path, expected, found },
            ),
            FormatError::UnsupportedVersion { found, min_readable, current } => reported(e, path)
                == ErrorModel::Corruption(
                CorruptionModel::UnsupportedFormatVersion { path, found, min_readable, current },
            ),
            FormatError::ChecksumMismatch { offset, expected, found } => reported(e, path)
                == ErrorModel::Corruption(
                CorruptionModel::ChecksumMismatch { path, offset, expected, found },
            ),
            FormatError::Truncated { offset, needed, available } => reported(e, path) matches
                ErrorModel::Corruption(
                CorruptionModel::TruncatedFile { path: p, expected_len, actual_len },
            ) && p == path && actual_len == available && (offset + needed <= u64::MAX
                ==> expected_len == offset + needed),
            FormatError::LengthExceedsInput { offset, .. } => reported(e, path) matches
                ErrorModel::Corruption(
                CorruptionModel::MalformedStructure { path: p, offset: o, .. },
            ) && p == path && o == offset,
            FormatError::Malformed { offset, .. } => reported(e, path) matches
                ErrorModel::Corruption(
                CorruptionModel::MalformedStructure { path: p, offset: o, .. },
            ) && p == path && o == offset,
        },
{
}

} // verus!
