//! The 32-byte header every file begins with.
//!
//! Before a reader interprets one byte of payload it knows: what kind of file this is, what
//! format version wrote it, whether the bytes are compressed or encrypted, how long the header
//! and payload are, and whether the header itself is intact.
//!
//! ```text
//! offset  size  field
//!      0     8  magic: b"VDB1" + a four-byte kind tag
//!      8     2  format_version   (u16 LE)
//!     10     2  flags            (u16 LE)
//!     12     4  header_len       (u32 LE)  allows additive growth without a version bump
//!     16     8  payload_len      (u64 LE)
//!     24     4  header_crc32c    (u32 LE)  over bytes 0..24
//!     28     4  reserved         (must be zero)
//! ```
use vstd::prelude::*;
use vstd::slice::slice_subrange;

use crate::format::crc32c;
use crate::format::cursor;
use crate::format::cursor::{Reader, Writer};
use crate::format::error::{FormatError, MalformedKind};
use crate::format::le;
use crate::format::{FORMAT_VERSION, MAGIC_PREFIX, MIN_READABLE_VERSION};

verus! {

/// Size of the fixed part of the header.
pub const HEADER_LEN: u32 = 32;

/// The number of bytes the header checksum covers.
const CRC_COVERS: usize = 24;

/// Which kind of file this is.
///
/// The tag is part of the magic, so opening a segment file as a manifest fails immediately with
/// a specific error rather than producing nonsense.
#[derive(Debug, Clone, Copy, PartialEq, Eq, Hash, Structural)]
pub enum FileKind {
    /// One of the two manifest slots.
    Manifest,
    /// A collection's immutable specification.
    Catalog,
    /// A write-ahead log segment.
    Wal,
    /// A segment's fixed-stride vector block.
    Vectors,
    /// A segment's row directory.
    Directory,
    /// A segment's metadata and content records.
    Metadata,
    /// A segment's live/tombstone bitmap.
    Deleted,
    /// An index snapshot.
    Index,
}

/// The four-byte tag of a kind.
pub open spec fn tag_of(kind: FileKind) -> Seq<u8> {
    match kind {
        FileKind::Manifest => seq![0x4du8, 0x41, 0x4e, 0x49],
        FileKind::Catalog => seq![0x43u8, 0x41, 0x54, 0x4c],
        FileKind::Wal => seq![0x57u8, 0x41, 0x4c, 0x00],
        FileKind::Vectors => seq![0x56u8, 0x45, 0x43, 0x00],
        FileKind::Directory => seq![0x44u8, 0x49, 0x52, 0x00],
        FileKind::Metadata => seq![0x4du8, 0x45, 0x54, 0x41],
        FileKind::Deleted => seq![0x44u8, 0x45, 0x4c, 0x00],
        FileKind::Index => seq![0x49u8, 0x44, 0x58, 0x00],
    }
}

/// The full eight-byte magic of a kind.
pub open spec fn magic_of(kind: FileKind) -> Seq<u8> {
    MAGIC_PREFIX@ + tag_of(kind)
}

impl FileKind {
    /// Every kind.
    pub const ALL: [FileKind; 8] = [
        FileKind::Manifest,
        FileKind::Catalog,
        FileKind::Wal,
        FileKind::Vectors,
        FileKind::Directory,
        FileKind::Metadata,
        FileKind::Deleted,
        FileKind::Index,
    ];

    /// The four-byte tag that follows [`MAGIC_PREFIX`].
    pub fn tag(self) -> (r: [u8; 4])
        ensures
            r@ == tag_of(self),
    {
        match self {
            FileKind::Manifest => [0x4d, 0x41, 0x4e, 0x49],
            FileKind::Catalog => [0x43, 0x41, 0x54, 0x4c],
            FileKind::Wal => [0x57, 0x41, 0x4c, 0x00],
            FileKind::Vectors => [0x56, 0x45, 0x43, 0x00],
            FileKind::Directory => [0x44, 0x49, 0x52, 0x00],
            FileKind::Metadata => [0x4d, 0x45, 0x54, 0x41],
            FileKind::Deleted => [0x44, 0x45, 0x4c, 0x00],
            FileKind::Index => [0x49, 0x44, 0x58, 0x00],
        }
    }

    /// The full eight-byte magic for this kind.
    pub fn magic(self) -> (r: [u8; 8])
        ensures
            r@ == magic_of(self),
    {
        let p = MAGIC_PREFIX;
        let t = self.tag();
        [p[0], p[1], p[2], p[3], t[0], t[1], t[2], t[3]]
    }
}

/// The kind whose tag is `tag`, if there is one.
pub open spec fn kind_of_tag(tag: Seq<u8>) -> Option<FileKind> {
    if exists|k: FileKind| tag_of(k) == tag {
        Some(choose|k: FileKind| tag_of(k) == tag)
    } else {
        None
    }
}

/// No two kinds share a tag, so a tag names its kind.
pub proof fn lemma_tags_distinct(a: FileKind, b: FileKind)
    ensures
        tag_of(a) == tag_of(b) ==> a == b,
        tag_of(a).len() == 4,
        kind_of_tag(tag_of(a)) == Some(a),
{
    let k = choose|k: FileKind| tag_of(k) == tag_of(a);
    assert(tag_of(k) == tag_of(a));
    lemma_tags_differ(a, b);
    lemma_tags_differ(k, a);
}

proof fn lemma_tags_differ(a: FileKind, b: FileKind)
    ensures
        tag_of(a) == tag_of(b) ==> a == b,
        tag_of(a).len() == 4,
{
    if tag_of(a) == tag_of(b) {
        assert(tag_of(a)[0] == tag_of(b)[0]);
        assert(tag_of(a)[1] == tag_of(b)[1]);
    }
}

/// Header flag bits.
#[derive(Debug, Clone, Copy, PartialEq, Eq, Structural)]
pub struct HeaderFlags(pub u16);

/// The bit that marks a compressed payload.
pub const COMPRESSED_BIT: u16 = 1;

/// The bit that marks an encrypted payload.
pub const ENCRYPTED_BIT: u16 = 2;

impl HeaderFlags {
    /// No flags. The only value version 1 writes.
    pub fn none() -> (r: Self)
        ensures
            r.0 == 0,
    {
        HeaderFlags(0)
    }

    /// The payload is compressed. Reserved; not produced by version 1.
    pub fn compressed() -> (r: Self)
        ensures
            r.0 == COMPRESSED_BIT,
    {
        HeaderFlags(COMPRESSED_BIT)
    }

    /// The payload is encrypted. Reserved; not produced by version 1.
    pub fn encrypted() -> (r: Self)
        ensures
            r.0 == ENCRYPTED_BIT,
    {
        HeaderFlags(ENCRYPTED_BIT)
    }

    /// The raw bits.
    pub fn bits(self) -> (r: u16)
        ensures
            r == self.0,
    {
        self.0
    }

    /// Whether the payload is compressed.
    pub fn is_compressed(self) -> (r: bool)
        ensures
            r == (self.0 % 2 == 1),
    {
        self.0 % 2 == 1
    }

    /// Whether the payload is encrypted.
    pub fn is_encrypted(self) -> (r: bool)
        ensures
            r == (self.0 / 2 % 2 == 1),
    {
        self.0 / 2 % 2 == 1
    }
}

impl Default for HeaderFlags {
    fn default() -> (r: Self)
        ensures
            r.0 == 0,
    {
        HeaderFlags::none()
    }
}

/// A decoded file header.
#[derive(Debug, Clone, Copy, PartialEq, Eq, Structural)]
pub struct FileHeader {
    /// What kind of file this is.
    pub kind: FileKind,
    /// The format version that wrote it.
    pub version: u16,
    /// Payload flags.
    pub flags: HeaderFlags,
    /// Total header length, at least [`HEADER_LEN`].
    pub header_len: u32,
    /// Length of the payload that follows the header.
    pub payload_len: u64,
}

/// The checksummed part of a header.
pub open spec fn header_fields(h: FileHeader) -> Seq<u8> {
    magic_of(h.kind) + le::le(h.version as nat, 2) + le::le(h.flags.0 as nat, 2) + le::le(
        h.header_len as nat,
        4,
    ) + le::le(h.payload_len as nat, 8)
}

/// The bytes of a header.
pub open spec fn header_bytes(h: FileHeader) -> Seq<u8> {
    header_fields(h) + le::le(crc32c::crc32c_of(header_fields(h)) as nat, 4) + cursor::zeros(4)
}

/// A header this build can read.
pub open spec fn readable(h: FileHeader) -> bool {
    &&& MIN_READABLE_VERSION <= h.version <= FORMAT_VERSION
    &&& h.flags.0 < 4
    &&& h.header_len >= HEADER_LEN
}

/// The unsigned field of `n` bytes at `at`.
pub open spec fn field_at(b: Seq<u8>, at: int, n: int) -> nat {
    le::un_le(b.subrange(at, at + n))
}

/// The error for an input that ends inside the `n` bytes at `at`.
pub open spec fn ends_in_field(b: Seq<u8>, at: int, n: int) -> FormatError {
    FormatError::Truncated { offset: at as u64, needed: n as u64, available: (b.len() - at) as u64 }
}

/// The header at the front of `b`, or why there is none: magic first, then the fields, then the
/// checksum over them, then what they say.
pub open spec fn decoded_any(b: Seq<u8>) -> Result<FileHeader, FormatError> {
    let found = [b[0], b[1], b[2], b[3], b[4], b[5], b[6], b[7]];
    let tag = [b[4], b[5], b[6], b[7]];
    if b.len() < 8 {
        Err(
            FormatError::Truncated {
                offset: 0,
                needed: HEADER_LEN as u64,
                available: b.len() as u64,
            },
        )
    } else if b.take(4) != MAGIC_PREFIX@ {
        Err(FormatError::BadMagic { expected: [0x56, 0x44, 0x42, 0x31, 0x3f, 0x3f, 0x3f, 0x3f], found })
    } else if kind_of_tag(b.subrange(4, 8)) is None {
        Err(FormatError::Malformed { offset: 4, kind: MalformedKind::UnknownFileKind(tag) })
    } else if b.len() < 10 {
        Err(ends_in_field(b, 8, 2))
    } else if b.len() < 12 {
        Err(ends_in_field(b, 10, 2))
    } else if b.len() < 16 {
        Err(ends_in_field(b, 12, 4))
    } else if b.len() < 24 {
        Err(ends_in_field(b, 16, 8))
    } else if b.len() < 28 {
        Err(ends_in_field(b, 24, 4))
    } else if field_at(b, 24, 4) != crc32c::crc32c_of(b.take(24)) {
        Err(
            FormatError::ChecksumMismatch {
                offset: 0,
                expected: field_at(b, 24, 4) as u32,
                found: crc32c::crc32c_of(b.take(24)),
            },
        )
    } else {
        let h = FileHeader {
            kind: kind_of_tag(b.subrange(4, 8))->0,
            version: field_at(b, 8, 2) as u16,
            flags: HeaderFlags(field_at(b, 10, 2) as u16),
            header_len: field_at(b, 12, 4) as u32,
            payload_len: field_at(b, 16, 8) as u64,
        };
        if !(MIN_READABLE_VERSION <= h.version <= FORMAT_VERSION) {
            Err(
                FormatError::UnsupportedVersion {
                    found: h.version,
                    min_readable: MIN_READABLE_VERSION,
                    current: FORMAT_VERSION,
                },
            )
        } else if h.flags.0 >= 4 {
            Err(
                FormatError::Malformed {
                    offset: 10,
                    kind: MalformedKind::UnknownFlags(h.flags.0),
                },
            )
        } else if h.header_len < HEADER_LEN {
            Err(FormatError::Malformed { offset: 12, kind: MalformedKind::HeaderTooShort })
        } else if b.len() < 32 {
            Err(ends_in_field(b, 28, 4))
        } else if b.subrange(28, 32) != cursor::zeros(4) {
            Err(FormatError::Malformed { offset: 28, kind: MalformedKind::ReservedNotZero })
        } else {
            Ok(h)
        }
    }
}

/// The header at the front of `b`, which must be of kind `expected`.
pub open spec fn decoded_as(b: Seq<u8>, expected: FileKind) -> Result<FileHeader, FormatError> {
    match decoded_any(b) {
        Ok(h) => if h.kind == expected {
            Ok(h)
        } else {
            Err(FormatError::BadMagic { expected: magic_array(expected), found: magic_array(h.kind) })
        },
        Err(e) => Err(e),
    }
}

/// The magic of a kind, as an array.
pub open spec fn magic_array(kind: FileKind) -> [u8; 8] {
    let t = tag_of(kind);
    [0x56, 0x44, 0x42, 0x31, t[0], t[1], t[2], t[3]]
}

/// The end of the payload that a header promises, or why a file of `file_len` bytes cannot hold
/// it.
pub open spec fn file_len_checked(h: FileHeader, file_len: u64) -> Result<(), FormatError> {
    if h.header_len + h.payload_len > u64::MAX {
        Err(
            FormatError::Malformed {
                offset: 16,
                kind: MalformedKind::Inconsistent { field: "payload_len" },
            },
        )
    } else if file_len < h.header_len + h.payload_len {
        Err(
            FormatError::Truncated {
                offset: h.header_len as u64,
                needed: (h.header_len + h.payload_len) as u64,
                available: file_len,
            },
        )
    } else {
        Ok(())
    }
}

/// The kind whose tag is `tag`.
fn from_tag(tag: [u8; 4]) -> (r: Option<FileKind>)
    ensures
        r == kind_of_tag(tag@),
{
    let all = FileKind::ALL;
    let mut i: usize = 0;
    while i < 8
        invariant
            i <= 8,
            all@ == FileKind::ALL@,
            forall|j: int| 0 <= j < i ==> tag_of(#[trigger] all@[j]) != tag@,
        decreases 8 - i,
    {
        let k = all[i];
        let t = k.tag();
        if t[0] == tag[0] && t[1] == tag[1] && t[2] == tag[2] && t[3] == tag[3] {
            proof {
                assert(t@ =~= tag@);
                lemma_tags_distinct(k, k);
            }
            return Some(k);
        }
        i += 1;
    }
    proof {
        assert forall|k: FileKind| tag_of(k) != tag@ by {
            assert(all@[0] == FileKind::Manifest);
            assert(all@[1] == FileKind::Catalog);
            assert(all@[2] == FileKind::Wal);
            assert(all@[3] == FileKind::Vectors);
            assert(all@[4] == FileKind::Directory);
            assert(all@[5] == FileKind::Metadata);
            assert(all@[6] == FileKind::Deleted);
            assert(all@[7] == FileKind::Index);
        }
    }
    None
}

impl FileHeader {
    /// A version 1 header for `kind` with a payload of `payload_len` bytes.
    pub fn new(kind: FileKind, payload_len: u64) -> (r: Self)
        ensures
            r == (FileHeader {
                kind,
                version: FORMAT_VERSION,
                flags: HeaderFlags(0),
                header_len: HEADER_LEN,
                payload_len,
            }),
    {
        FileHeader {
            kind,
            version: FORMAT_VERSION,
            flags: HeaderFlags::none(),
            header_len: HEADER_LEN,
            payload_len,
        }
    }

    /// Serialize into exactly [`HEADER_LEN`] bytes.
    pub fn encode(&self) -> (r: [u8; 32])
        ensures
            r@ == header_bytes(*self),
    {
        let mut w = Writer::with_capacity(32);
        self.write_to(&mut w);
        proof {
            lemma_header_len(*self);
        }
        let mut out: [u8; 32] = [0u8; 32];
        let src = w.as_slice();
        let mut i: usize = 0;
        while i < 32
            invariant
                i <= 32,
                src@.len() == 32,
                forall|j: int| 0 <= j < i ==> out@[j] == src@[j],
            decreases 32 - i,
        {
            out[i] = src[i];
            i += 1;
        }
        assert(out@ =~= src@);
        out
    }

    /// Append this header to a writer.
    pub fn write_to(&self, w: &mut Writer)
        ensures
            final(w)@ == old(w)@ + header_bytes(*self),
    {
        let mut f = Writer::with_capacity(32);
        let magic = self.kind.magic();
        f.raw(magic.as_slice());
        f.u16(self.version);
        f.u16(self.flags.bits());
        f.u32(self.header_len);
        f.u64(self.payload_len);
        assert(f@ =~= header_fields(*self));
        let crc: u32 = crc32c::crc32c(f.as_slice());
        f.u32(crc);
        f.reserved(4);
        w.raw(f.as_slice());
    }

    /// Decode a header and check that it is the kind the caller expected.
    ///
    /// Checks happen in the order that produces the most useful diagnosis: magic first (is this
    /// even our file?), then the header checksum (are these bytes intact?), then the version
    /// (can we read it?), then structural fields.
    ///
    /// # Errors
    /// [`FormatError::BadMagic`], [`FormatError::ChecksumMismatch`],
    /// [`FormatError::UnsupportedVersion`], [`FormatError::Truncated`], or
    /// [`FormatError::Malformed`].
    pub fn decode(bytes: &[u8], expected: FileKind) -> (r: Result<Self, FormatError>)
        ensures
            r == decoded_as(bytes@, expected),
    {
        let header = match Self::decode_any(bytes) {
            Ok(h) => h,
            Err(e) => {
                return Err(e);
            },
        };
        if header.kind != expected {
            let want = expected.magic();
            let got = header.kind.magic();
            assert(want =~= magic_array(expected));
            assert(got =~= magic_array(header.kind));
            return Err(FormatError::BadMagic { expected: want, found: got });
        }
        Ok(header)
    }

    /// Decode a header without knowing which kind to expect.
    ///
    /// # Errors
    /// As [`FileHeader::decode`].
    pub fn decode_any(bytes: &[u8]) -> (r: Result<Self, FormatError>)
        ensures
            r == decoded_any(bytes@),
    {
        let mut r = Reader::new(bytes);
        let ghost b = bytes@;
        let magic: [u8; 8] = match r.array::<8>() {
            Ok(m) => m,
            Err(_) => {
                return Err(
                    FormatError::Truncated {
                        offset: 0,
                        needed: HEADER_LEN as u64,
                        available: bytes.len() as u64,
                    },
                );
            },
        };
        proof {
            assert(magic =~= [b[0], b[1], b[2], b[3], b[4], b[5], b[6], b[7]]);
        }
        if magic[0] != MAGIC_PREFIX[0] || magic[1] != MAGIC_PREFIX[1] || magic[2] != MAGIC_PREFIX[2]
            || magic[3] != MAGIC_PREFIX[3] {
            let expected = unknown_magic();
            assert(expected =~= [0x56u8, 0x44, 0x42, 0x31, 0x3f, 0x3f, 0x3f, 0x3f]);
            assert(b.take(4)[0] == b[0] && b.take(4)[1] == b[1] && b.take(4)[2] == b[2] && b.take(
                4,
            )[3] == b[3]);
            return Err(FormatError::BadMagic { expected, found: magic });
        }
        assert(b.take(4) =~= MAGIC_PREFIX@);
        let tag: [u8; 4] = [magic[4], magic[5], magic[6], magic[7]];
        proof {
            assert(tag@ =~= b.subrange(4, 8));
            assert(tag =~= [b[4], b[5], b[6], b[7]]);
        }
        let kind = match from_tag(tag) {
            Some(k) => k,
            None => {
                return Err(
                    FormatError::Malformed { offset: 4, kind: MalformedKind::UnknownFileKind(tag) },
                );
            },
        };

        let version: u16 = match r.u16() {
            Ok(v) => v,
            Err(e) => {
                return Err(e);
            },
        };
        let flag_bits: u16 = match r.u16() {
            Ok(v) => v,
            Err(e) => {
                return Err(e);
            },
        };
        let header_len: u32 = match r.u32() {
            Ok(v) => v,
            Err(e) => {
                return Err(e);
            },
        };
        let payload_len: u64 = match r.u64() {
            Ok(v) => v,
            Err(e) => {
                return Err(e);
            },
        };
        let stored_crc: u32 = match r.u32() {
            Ok(v) => v,
            Err(e) => {
                return Err(e);
            },
        };

        // Verify the header's own integrity before trusting any field in it. A header whose
        // length fields are garbage would otherwise send the caller reading at a wild offset.
        let covered = slice_subrange(bytes, 0, CRC_COVERS);
        assert(covered@ =~= b.take(24));
        let computed: u32 = crc32c::crc32c(covered);
        if computed != stored_crc {
            return Err(
                FormatError::ChecksumMismatch { offset: 0, expected: stored_crc, found: computed },
            );
        }
        if version < MIN_READABLE_VERSION || version > FORMAT_VERSION {
            return Err(
                FormatError::UnsupportedVersion {
                    found: version,
                    min_readable: MIN_READABLE_VERSION,
                    current: FORMAT_VERSION,
                },
            );
        }
        if flag_bits >= 4 {
            return Err(
                FormatError::Malformed { offset: 10, kind: MalformedKind::UnknownFlags(flag_bits) },
            );
        }
        if header_len < HEADER_LEN {
            return Err(FormatError::Malformed { offset: 12, kind: MalformedKind::HeaderTooShort });
        }
        match r.reserved(4) {
            Ok(()) => {},
            Err(e) => {
                return Err(e);
            },
        }
        Ok(FileHeader { kind, version, flags: HeaderFlags(flag_bits), header_len, payload_len })
    }

    /// Check that a file is long enough to hold the payload the header promises.
    ///
    /// A header whose extent overflows `u64` cannot describe any real file, so it is malformed.
    ///
    /// # Errors
    /// [`FormatError::Truncated`] if the file is shorter than `header_len + payload_len`, or
    /// [`MalformedKind::Inconsistent`] if that sum overflows.
    pub fn check_file_len(&self, file_len: u64) -> (r: Result<(), FormatError>)
        ensures
            r == file_len_checked(*self, file_len),
    {
        let needed: u64 = match (self.header_len as u64).checked_add(self.payload_len) {
            Some(n) => n,
            None => {
                return Err(
                    FormatError::Malformed {
                        offset: 16,
                        kind: MalformedKind::Inconsistent { field: "payload_len" },
                    },
                );
            },
        };
        if file_len < needed {
            return Err(
                FormatError::Truncated {
                    offset: self.header_len as u64,
                    needed,
                    available: file_len,
                },
            );
        }
        Ok(())
    }
}

/// Placeholder "expected" magic for a file that is not one of ours at all.
fn unknown_magic() -> (r: [u8; 8])
    ensures
        r@ == seq![0x56u8, 0x44, 0x42, 0x31, 0x3f, 0x3f, 0x3f, 0x3f],
{
    [
        MAGIC_PREFIX[0],
        MAGIC_PREFIX[1],
        MAGIC_PREFIX[2],
        MAGIC_PREFIX[3],
        0x3f,
        0x3f,
        0x3f,
        0x3f,
    ]
}

/// A header is [`HEADER_LEN`] bytes, the first 24 of them checksummed.
pub proof fn lemma_header_len(h: FileHeader)
    ensures
        header_fields(h).len() == 24,
        header_bytes(h).len() == HEADER_LEN,
{
    lemma_tags_distinct(h.kind, h.kind);
    le::lemma_le_fixed(h.version as nat);
    le::lemma_le_fixed(h.flags.0 as nat);
    le::lemma_le_fixed(h.header_len as nat);
    le::lemma_le_fixed(h.payload_len as nat);
    le::lemma_le_fixed(crc32c::crc32c_of(header_fields(h)) as nat);
}

/// A readable header survives encoding and decoding, whatever follows it.
pub proof fn lemma_header_round_trip(h: FileHeader, rest: Seq<u8>)
    requires
        readable(h),
    ensures
        decoded_any(header_bytes(h) + rest) == Ok::<FileHeader, FormatError>(h),
{
    let b = header_bytes(h) + rest;
    lemma_header_len(h);
    lemma_tags_distinct(h.kind, h.kind);
    le::lemma_le_fixed(h.version as nat);
    le::lemma_le_fixed(h.flags.0 as nat);
    le::lemma_le_fixed(h.header_len as nat);
    le::lemma_le_fixed(h.payload_len as nat);
    le::lemma_le_fixed(crc32c::crc32c_of(header_fields(h)) as nat);
    assert(b.take(4) =~= MAGIC_PREFIX@);
    assert(b.subrange(4, 8) =~= tag_of(h.kind));
    assert(b.subrange(8, 10) =~= le::le(h.version as nat, 2));
    assert(b.subrange(10, 12) =~= le::le(h.flags.0 as nat, 2));
    assert(b.subrange(12, 16) =~= le::le(h.header_len as nat, 4));
    assert(b.subrange(16, 24) =~= le::le(h.payload_len as nat, 8));
    assert(b.take(24) =~= header_fields(h));
    assert(b.subrange(24, 28) =~= le::le(crc32c::crc32c_of(header_fields(h)) as nat, 4));
    assert(b.subrange(28, 32) =~= cursor::zeros(4));
}

/// What decodes begins with exactly the bytes that encoding the result gives, and is readable: a
/// header has one encoding.
pub proof fn lemma_header_canonical(b: Seq<u8>)
    requires
        decoded_any(b) is Ok,
    ensures
        readable(decoded_any(b)->Ok_0),
        b.len() >= HEADER_LEN,
        b.take(32) == header_bytes(decoded_any(b)->Ok_0),
{
    let h = decoded_any(b)->Ok_0;
    lemma_header_len(h);
    lemma_tags_distinct(h.kind, h.kind);
    assert(tag_of(h.kind) == b.subrange(4, 8));
    le::lemma_pow256_values();
    le::lemma_le_of_un_le(b.subrange(8, 10));
    le::lemma_le_of_un_le(b.subrange(10, 12));
    le::lemma_le_of_un_le(b.subrange(12, 16));
    le::lemma_le_of_un_le(b.subrange(16, 24));
    le::lemma_le_of_un_le(b.subrange(24, 28));
    assert(b.take(24) =~= b.take(4) + b.subrange(4, 8) + b.subrange(8, 10) + b.subrange(10, 12)
        + b.subrange(12, 16) + b.subrange(16, 24));
    assert(b.take(24) =~= header_fields(h));
    assert(b.take(32) =~= b.take(24) + b.subrange(24, 28) + b.subrange(28, 32));
}

/// A file of one kind is never mistaken for another: its header is refused, naming both kinds.
pub proof fn lemma_wrong_kind_refused(h: FileHeader, rest: Seq<u8>, expected: FileKind)
    requires
        readable(h),
        h.kind != expected,
    ensures
        decoded_as(header_bytes(h) + rest, expected) == Err::<FileHeader, FormatError>(
            FormatError::BadMagic { expected: magic_array(expected), found: magic_array(h.kind) },
        ),
        magic_array(expected) != magic_array(h.kind),
{
    lemma_header_round_trip(h, rest);
    lemma_tags_distinct(h.kind, expected);
    if magic_array(expected) == magic_array(h.kind) {
        let a = magic_array(expected)@;
        let b = magic_array(h.kind)@;
        assert(a[4] == b[4] && a[5] == b[5] && a[6] == b[6] && a[7] == b[7]);
        assert(tag_of(h.kind) =~= tag_of(expected));
    }
}

} // verus!
