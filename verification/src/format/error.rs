//! Why persisted bytes were refused.
use vstd::prelude::*;

use crate::text;

verus! {

/// A structural rule of the format that some bytes break.
#[derive(Debug, Clone, Copy, PartialEq, Eq)]
pub enum MalformedKind {
    /// The magic carries a kind tag this build does not know.
    UnknownFileKind([u8; 4]),
    /// Flag bits this build does not know.
    UnknownFlags(u16),
    /// A header shorter than its fixed part.
    HeaderTooShort,
    /// Reserved bytes that are not zero.
    ReservedNotZero,
    /// A field that contradicts the rest of the structure.
    Inconsistent {
        /// The field.
        field: &'static str,
    },
    /// A field that must not be zero or empty.
    ZeroNotAllowed {
        /// The field.
        field: &'static str,
    },
    /// A NaN or an infinity.
    NonFiniteFloat,
    /// Values nested more deeply than permitted.
    DepthExceeded {
        /// The deepest permitted nesting.
        max: usize,
    },
    /// A value tag this build does not know.
    UnknownValueTag(u8),
    /// Map keys out of order.
    KeysNotSorted,
    /// A key or name that occurs twice.
    DuplicateKey,
    /// An enumeration value this build does not know.
    UnknownDiscriminant {
        /// The field.
        field: &'static str,
        /// What it held.
        value: u8,
    },
    /// Bytes left over after the structure ended.
    TrailingBytes {
        /// The structure.
        what: &'static str,
    },
    /// A string that is not UTF-8.
    InvalidUtf8,
    /// A varint that does not fit in 64 bits.
    VarintOverflow,
    /// A varint encoded in more bytes than necessary.
    VarintNotCanonical,
}

/// Why persisted bytes could not be read or a value could not be written.
#[allow(inconsistent_fields)]
#[derive(Debug, Clone, Copy, PartialEq, Eq)]
pub enum FormatError {
    /// The file does not begin with the expected magic bytes.
    BadMagic {
        /// The magic the reader required.
        expected: [u8; 8],
        /// The magic that was found.
        found: [u8; 8],
    },
    /// The format version is outside the readable range.
    UnsupportedVersion {
        /// The version the file declares.
        found: u16,
        /// The oldest version this build can read.
        min_readable: u16,
        /// The version this build writes.
        current: u16,
    },
    /// A checksum does not match the bytes it covers.
    ChecksumMismatch {
        /// Where the covered bytes begin.
        offset: u64,
        /// The checksum that is stored.
        expected: u32,
        /// The checksum of the bytes as they are.
        found: u32,
    },
    /// The input ended too early.
    Truncated {
        /// Where the missing bytes were wanted.
        offset: u64,
        /// How many bytes were needed.
        needed: u64,
        /// How many there were.
        available: u64,
    },
    /// A length or count field promises more than the input can hold.
    LengthExceedsInput {
        /// Where the field stands.
        offset: u64,
        /// What it claims.
        claimed: u64,
        /// The most it could honestly claim.
        available: u64,
    },
    /// A structural rule is broken.
    Malformed {
        /// Where.
        offset: u64,
        /// Which rule.
        kind: MalformedKind,
    },
}

impl FormatError {
    /// Whether the input merely ended too early.
    pub fn is_truncation(&self) -> (r: bool)
        ensures
            r == (*self is Truncated),
    {
        matches!(self, FormatError::Truncated { .. })
    }
}

/// A malformation of kind `kind` at `offset`.
pub open spec fn malformed(offset: u64, kind: MalformedKind) -> FormatError {
    FormatError::Malformed { offset, kind }
}

impl MalformedKind {
    /// What the message says.
    pub open spec fn text(self) -> Seq<char> {
        match self {
            MalformedKind::UnknownFileKind(tag) => "unknown file kind "@ + text::magic_text(tag@),
            MalformedKind::UnknownFlags(bits) => "unknown flags 0x"@ + text::hex(bits as nat, 4),
            MalformedKind::HeaderTooShort => "header is too short"@,
            MalformedKind::ReservedNotZero => "reserved bytes are not zero"@,
            MalformedKind::Inconsistent { field } => "inconsistent "@ + field@,
            MalformedKind::ZeroNotAllowed { field } => field@ + " must not be zero or empty"@,
            MalformedKind::NonFiniteFloat => "NaN or infinite float"@,
            MalformedKind::DepthExceeded { max } => "nested deeper than "@ + text::decimal(max as nat),
            MalformedKind::UnknownValueTag(tag) => "unknown value tag "@ + text::decimal(tag as nat),
            MalformedKind::KeysNotSorted => "map keys are not sorted"@,
            MalformedKind::DuplicateKey => "duplicate key"@,
            MalformedKind::UnknownDiscriminant { field, value } => "unknown "@ + field@ + " "@ + text::decimal(value as nat),
            MalformedKind::TrailingBytes { what } => "trailing bytes after "@ + what@,
            MalformedKind::InvalidUtf8 => "string is not valid UTF-8"@,
            MalformedKind::VarintOverflow => "varint does not fit in 64 bits"@,
            MalformedKind::VarintNotCanonical => "varint is not in its shortest form"@,
        }
    }

    /// The message, for people to read.
    pub fn message(&self) -> (r: String)
        ensures
            r@ == self.text(),
    {
        let mut out = String::new();
        match self {
            MalformedKind::UnknownFileKind(tag) => {
                out.append("unknown file kind ");
                text::push_magic(&mut out, tag.as_slice());
            },
            MalformedKind::UnknownFlags(bits) => {
                out.append("unknown flags 0x");
                text::push_hex(&mut out, *bits as u64, 4);
            },
            MalformedKind::HeaderTooShort => {
                out.append("header is too short");
            },
            MalformedKind::ReservedNotZero => {
                out.append("reserved bytes are not zero");
            },
            MalformedKind::Inconsistent { field } => {
                out.append("inconsistent ");
                out.append(field);
            },
            MalformedKind::ZeroNotAllowed { field } => {
                out.append(field);
                out.append(" must not be zero or empty");
            },
            MalformedKind::NonFiniteFloat => {
                out.append("NaN or infinite float");
            },
            MalformedKind::DepthExceeded { max } => {
                out.append("nested deeper than ");
                text::push_decimal(&mut out, *max as u64);
            },
            MalformedKind::UnknownValueTag(tag) => {
                out.append("unknown value tag ");
                text::push_decimal(&mut out, *tag as u64);
            },
            MalformedKind::KeysNotSorted => {
                out.append("map keys are not sorted");
            },
            MalformedKind::DuplicateKey => {
                out.append("duplicate key");
            },
            MalformedKind::UnknownDiscriminant { field, value } => {
                out.append("unknown ");
                out.append(field);
                out.append(" ");
                text::push_decimal(&mut out, *value as u64);
            },
            MalformedKind::TrailingBytes { what } => {
                out.append("trailing bytes after ");
                out.append(what);
            },
            MalformedKind::InvalidUtf8 => {
                out.append("string is not valid UTF-8");
            },
            MalformedKind::VarintOverflow => {
                out.append("varint does not fit in 64 bits");
            },
            MalformedKind::VarintNotCanonical => {
                out.append("varint is not in its shortest form");
            },
        }
        assert(out@ =~= self.text());
        out
    }
}

impl FormatError {
    /// What the message says.
    pub open spec fn text(self) -> Seq<char> {
        match self {
            FormatError::BadMagic { expected, found } => "bad magic: expected "@ + text::magic_text(expected@) + ", found "@ + text::magic_text(found@),
            FormatError::UnsupportedVersion { found, min_readable, current } => "format version "@ + text::decimal(found as nat) + " is outside the readable range "@ + text::decimal(min_readable as nat) + "..="@ + text::decimal(current as nat),
            FormatError::ChecksumMismatch { offset, expected, found } => "checksum mismatch at offset "@ + text::decimal(offset as nat) + ": stored 0x"@ + text::hex(expected as nat, 8) + ", computed 0x"@ + text::hex(found as nat, 8),
            FormatError::Truncated { offset, needed, available } => "truncated at offset "@ + text::decimal(offset as nat) + ": needed "@ + text::decimal(needed as nat) + " bytes, "@ + text::decimal(available as nat) + " available"@,
            FormatError::LengthExceedsInput { offset, claimed, available } => "length field at offset "@ + text::decimal(offset as nat) + " claims "@ + text::decimal(claimed as nat) + ", at most "@ + text::decimal(available as nat) + " possible"@,
            FormatError::Malformed { offset, kind } => "malformed at offset "@ + text::decimal(offset as nat) + ": "@ + kind.text(),
        }
    }

    /// The message, for people to read.
    pub fn message(&self) -> (r: String)
        ensures
            r@ == self.text(),
    {
        let mut out = String::new();
        match self {
            FormatError::BadMagic { expected, found } => {
                out.append("bad magic: expected ");
                text::push_magic(&mut out, expected.as_slice());
                out.append(", found ");
                text::push_magic(&mut out, found.as_slice());
            },
            FormatError::UnsupportedVersion { found, min_readable, current } => {
                out.append("format version ");
                text::push_decimal(&mut out, *found as u64);
                out.append(" is outside the readable range ");
                text::push_decimal(&mut out, *min_readable as u64);
                out.append("..=");
                text::push_decimal(&mut out, *current as u64);
            },
            FormatError::ChecksumMismatch { offset, expected, found } => {
                out.append("checksum mismatch at offset ");
                text::push_decimal(&mut out, *offset as u64);
                out.append(": stored 0x");
                text::push_hex(&mut out, *expected as u64, 8);
                out.append(", computed 0x");
                text::push_hex(&mut out, *found as u64, 8);
            },
            FormatError::Truncated { offset, needed, available } => {
                out.append("truncated at offset ");
                text::push_decimal(&mut out, *offset as u64);
                out.append(": needed ");
                text::push_decimal(&mut out, *needed as u64);
                out.append(" bytes, ");
                text::push_decimal(&mut out, *available as u64);
                out.append(" available");
            },
            FormatError::LengthExceedsInput { offset, claimed, available } => {
                out.append("length field at offset ");
                text::push_decimal(&mut out, *offset as u64);
                out.append(" claims ");
                text::push_decimal(&mut out, *claimed as u64);
                out.append(", at most ");
                text::push_decimal(&mut out, *available as u64);
                out.append(" possible");
            },
            FormatError::Malformed { offset, kind } => {
                out.append("malformed at offset ");
                text::push_decimal(&mut out, *offset as u64);
                out.append(": ");
                out.append(kind.message().as_str());
            },
        }
        assert(out@ =~= self.text());
        out
    }
}

} // verus!
