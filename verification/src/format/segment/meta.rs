//! Metadata and content records.
use vstd::prelude::*;
use vstd::slice::{slice_subrange, slice_to_vec};

use crate::bytes;
use crate::format::block;
use crate::format::cursor;
use crate::format::cursor::{Cursor, Reader, Writer};
use crate::format::error::{FormatError, MalformedKind};
use crate::format::header::FileKind;
use crate::format::segment::directory::RowEntry;
use crate::format::segment::vectors;
use crate::format::value;
use crate::format::value::{Value, ValueModel};
use crate::format::value_laws;

verus! {

/// One row's metadata and content, independent of how they are held in memory.
pub struct RecordModel {
    pub metadata: Option<ValueModel>,
    pub content: Option<Seq<u8>>,
}

/// One row's metadata and optional content.
#[derive(Debug, PartialEq)]
pub struct MetaRecord {
    /// The metadata map, or `None` when the document has none.
    pub metadata: Option<Value>,
    /// Optional opaque payload, such as the source text the vector was derived from.
    pub content: Option<Vec<u8>>,
}

/// What an optional value holds.
pub open spec fn option_value(v: Option<Value>) -> Option<ValueModel> {
    match v {
        Some(x) => Some(x@),
        None => None,
    }
}

impl View for MetaRecord {
    type V = RecordModel;

    open spec fn view(&self) -> RecordModel {
        RecordModel {
            metadata: option_value(self.metadata),
            content: bytes::option_bytes(self.content),
        }
    }
}

impl Default for MetaRecord {
    fn default() -> (r: Self)
        ensures
            r@ == (RecordModel { metadata: None, content: None }),
    {
        MetaRecord { metadata: None, content: None }
    }
}

/// The flag byte of a record: bit 0 for metadata, bit 1 for content.
pub open spec fn record_flags(r: RecordModel) -> u8 {
    if r.metadata is Some {
        if r.content is Some {
            3
        } else {
            1
        }
    } else if r.content is Some {
        2
    } else {
        0
    }
}

/// What follows the metadata of a record.
pub open spec fn content_bytes(r: RecordModel) -> Seq<u8> {
    match r.content {
        Some(c) => cursor::blob_bytes(c),
        None => Seq::empty(),
    }
}

/// The bytes of a record, or why its metadata cannot be written.
pub open spec fn record_written(r: RecordModel) -> Result<Seq<u8>, FormatError> {
    match r.metadata {
        Some(v) => match value::written(v, 1, 0) {
            Ok(m) => Ok(seq![record_flags(r)] + cursor::blob_bytes(m) + content_bytes(r)),
            Err(e) => Err(e),
        },
        None => Ok(seq![record_flags(r)] + content_bytes(r)),
    }
}

/// The metadata at a cursor, where the flags announce it.
pub open spec fn parsed_metadata(c: Cursor, flags: u8) -> Result<
    (Option<ValueModel>, Cursor),
    FormatError,
> {
    if flags % 2 == 1 {
        match c.blob() {
            Ok((b, c1)) => match value::decoded(b) {
                Ok(v) => Ok((Some(v), c1)),
                Err(e) => Err(e),
            },
            Err(e) => Err(e),
        }
    } else {
        Ok((None, c))
    }
}

/// The content at a cursor, where the flags announce it.
pub open spec fn parsed_record_content(c: Cursor, flags: u8) -> Result<
    (Option<Seq<u8>>, Cursor),
    FormatError,
> {
    if flags >= 2 {
        match c.blob() {
            Ok((b, c1)) => Ok((Some(b), c1)),
            Err(e) => Err(e),
        }
    } else {
        Ok((None, c))
    }
}

/// The error for flags that no record has.
pub open spec fn unknown_flags(offset: u64, flags: u8) -> FormatError {
    FormatError::Malformed { offset, kind: MalformedKind::UnknownFlags(flags as u16) }
}

/// The record that a byte string holds, or why there is none. No bytes hold the empty record.
pub open spec fn record_decoded(b: Seq<u8>) -> Result<RecordModel, FormatError> {
    let c = Cursor { data: b, pos: 0, base: 0 };
    if b.len() == 0 {
        Ok(RecordModel { metadata: None, content: None })
    } else if b[0] > 3 {
        Err(unknown_flags(0, b[0]))
    } else {
        match parsed_metadata(c.advance(1), b[0]) {
            Ok((metadata, c1)) => match parsed_record_content(c1, b[0]) {
                Ok((content, c2)) => match c2.end("meta record") {
                    Ok(()) => Ok(RecordModel { metadata, content }),
                    Err(e) => Err(e),
                },
                Err(e) => Err(e),
            },
            Err(e) => Err(e),
        }
    }
}

impl MetaRecord {
    /// Whether this record holds nothing, in which case the directory stores a zero length and
    /// no bytes are written at all.
    pub fn is_empty(&self) -> (r: bool)
        ensures
            r == (self@ == (RecordModel { metadata: None, content: None })),
    {
        self.metadata.is_none() && self.content.is_none()
    }

    /// Encode the record.
    ///
    /// # Errors
    /// Any [`FormatError`] from encoding the metadata value.
    pub fn encode(&self) -> (r: Result<Vec<u8>, FormatError>)
        ensures
            match record_written(self@) {
                Ok(s) => r matches Ok(b) && b@ == s,
                Err(e) => r == Err::<Vec<u8>, FormatError>(e),
            },
            r is Ok ==> record_storable(self@),
    {
        let mut w = Writer::new();
        let mut flags: u8 = 0;
        if self.metadata.is_some() {
            flags = flags + 1;
        }
        if self.content.is_some() {
            flags = flags + 2;
        }
        w.u8(flags);
        if let Some(v) = &self.metadata {
            match v.encode() {
                Ok(encoded) => {
                    w.blob(encoded.as_slice());
                    proof {
                        value_laws::lemma_storable_of_written(v@, 1, 0);
                    }
                },
                Err(e) => {
                    return Err(e);
                },
            }
        }
        if let Some(c) = &self.content {
            w.blob(c.as_slice());
        }
        assert(w@ =~= record_written(self@)->Ok_0);
        Ok(w.finish())
    }

    /// Decode a record from a `(offset, len)` slice of the metadata file.
    ///
    /// # Errors
    /// Any [`FormatError`].
    pub fn decode(bytes: &[u8]) -> (res: Result<Self, FormatError>)
        ensures
            match record_decoded(bytes@) {
                Ok(m) => res matches Ok(r) && r@ == m,
                Err(e) => res == Err::<Self, FormatError>(e),
            },
    {
        if bytes.is_empty() {
            return Ok(MetaRecord { metadata: None, content: None });
        }
        let mut r = Reader::new(bytes);
        let flags: u8 = match r.u8() {
            Ok(v) => v,
            Err(e) => {
                return Err(e);
            },
        };
        if flags > 3 {
            return Err(
                FormatError::Malformed {
                    offset: 0,
                    kind: MalformedKind::UnknownFlags(flags as u16),
                },
            );
        }
        let metadata: Option<Value> = if flags % 2 == 1 {
            match r.blob() {
                Ok(b) => match Value::decode(b) {
                    Ok(v) => Some(v),
                    Err(e) => {
                        return Err(e);
                    },
                },
                Err(e) => {
                    return Err(e);
                },
            }
        } else {
            None
        };
        let content: Option<Vec<u8>> = if flags >= 2 {
            match r.blob() {
                Ok(b) => Some(slice_to_vec(b)),
                Err(e) => {
                    return Err(e);
                },
            }
        } else {
            None
        };
        match r.expect_end("meta record") {
            Ok(()) => Ok(MetaRecord { metadata, content }),
            Err(e) => Err(e),
        }
    }
}

/// Builds a `.meta` file, returning each record's `(offset, len)` for the directory.
#[derive(Debug)]
pub struct MetaWriter {
    payload: Vec<u8>,
}

impl View for MetaWriter {
    type V = Seq<u8>;

    closed spec fn view(&self) -> Seq<u8> {
        self.payload@
    }
}

/// What appending a record behind `at` bytes adds and returns: nothing for the empty record.
pub open spec fn record_pushed(r: RecordModel, at: nat) -> Result<(Seq<u8>, u32), FormatError> {
    if r.metadata is None && r.content is None {
        Ok((Seq::empty(), 0))
    } else {
        match record_written(r) {
            Ok(s) => if s.len() > u32::MAX {
                Err(vectors::inconsistent(at as u64, "record length"))
            } else {
                Ok((s, s.len() as u32))
            },
            Err(e) => Err(e),
        }
    }
}

impl MetaWriter {
    /// An empty metadata file.
    pub fn new() -> (r: Self)
        ensures
            r@ == Seq::<u8>::empty(),
    {
        MetaWriter { payload: Vec::new() }
    }

    /// Append a record, returning where it landed.
    ///
    /// An empty record occupies no bytes: most documents in a vector database have modest
    /// metadata and some have none, and paying a byte per empty record across a million rows is
    /// avoidable.
    ///
    /// # Errors
    /// Any [`FormatError`] from encoding. Nothing is appended then.
    pub fn push(&mut self, record: &MetaRecord) -> (r: Result<(u64, u32), FormatError>)
        ensures
            match record_pushed(record@, old(self)@.len()) {
                Ok((s, n)) => r == Ok::<(u64, u32), FormatError>((old(self)@.len() as u64, n))
                    && final(self)@ == old(self)@ + s,
                Err(e) => r == Err::<(u64, u32), FormatError>(e) && final(self)@ == old(self)@,
            },
            r is Ok ==> record_storable(record@),
    {
        let offset: u64 = self.payload.len() as u64;
        if record.is_empty() {
            assert(self@ + Seq::<u8>::empty() =~= self@);
            return Ok((offset, 0));
        }
        let mut encoded = match record.encode() {
            Ok(b) => b,
            Err(e) => {
                return Err(e);
            },
        };
        let len: u64 = encoded.len() as u64;
        if len > u32::MAX as u64 {
            return Err(
                FormatError::Malformed {
                    offset,
                    kind: MalformedKind::Inconsistent { field: "record length" },
                },
            );
        }
        self.payload.append(&mut encoded);
        Ok((offset, len as u32))
    }

    /// Bytes written so far.
    pub fn len(&self) -> (r: usize)
        ensures
            r == self@.len(),
    {
        self.payload.len()
    }

    /// Whether nothing has been written.
    pub fn is_empty(&self) -> (r: bool)
        ensures
            r == (self@.len() == 0),
    {
        self.payload.len() == 0
    }

    /// Finish the file.
    pub fn finish(self) -> (r: Vec<u8>)
        ensures
            r@ == block::block_bytes(FileKind::Metadata, self@),
    {
        block::encode_block(FileKind::Metadata, self.payload.as_slice())
    }
}

impl Default for MetaWriter {
    fn default() -> (r: Self)
        ensures
            r@ == Seq::<u8>::empty(),
    {
        MetaWriter::new()
    }
}

/// The bytes that an entry points at, or the error where it points outside the payload.
pub open spec fn record_slice(p: Seq<u8>, e: RowEntry) -> Result<Seq<u8>, FormatError> {
    let end = e.meta_offset + e.meta_len;
    if e.meta_offset > usize::MAX {
        Err(
            FormatError::LengthExceedsInput {
                offset: e.meta_offset,
                claimed: e.meta_offset,
                available: p.len() as u64,
            },
        )
    } else if end > usize::MAX {
        Err(
            FormatError::LengthExceedsInput {
                offset: e.meta_offset,
                claimed: e.meta_len as u64,
                available: p.len() as u64,
            },
        )
    } else if end > p.len() {
        Err(
            FormatError::LengthExceedsInput {
                offset: e.meta_offset,
                claimed: end as u64,
                available: p.len() as u64,
            },
        )
    } else {
        Ok(p.subrange(e.meta_offset as int, end))
    }
}

/// The encoded metadata of the row an entry describes, or why it cannot be had.
pub open spec fn metadata_slice(p: Seq<u8>, e: RowEntry) -> Result<Option<Seq<u8>>, FormatError> {
    if e.meta_len == 0 {
        Ok(None)
    } else {
        match record_slice(p, e) {
            Ok(s) => if s[0] > 3 {
                Err(unknown_flags(e.meta_offset, s[0]))
            } else if s[0] % 2 == 0 {
                Ok(None)
            } else {
                match (Cursor { data: s, pos: 1, base: 0 }).blob() {
                    Ok((b, _)) => Ok(Some(b)),
                    Err(err) => Err(err),
                }
            },
            Err(err) => Err(err),
        }
    }
}

/// The record of the row an entry describes, or why it cannot be had.
pub open spec fn record_at(p: Seq<u8>, e: RowEntry) -> Result<RecordModel, FormatError> {
    if e.meta_len == 0 {
        Ok(RecordModel { metadata: None, content: None })
    } else {
        match record_slice(p, e) {
            Ok(s) => record_decoded(s),
            Err(err) => Err(err),
        }
    }
}

/// Read-only view over a `.meta` file.
#[derive(Debug, Clone, Copy)]
pub struct MetaBlock<'a> {
    payload: &'a [u8],
}

impl<'a> View for MetaBlock<'a> {
    type V = Seq<u8>;

    closed spec fn view(&self) -> Seq<u8> {
        self.payload@
    }
}

impl<'a> MetaBlock<'a> {
    /// Open a `.meta` file without verifying its checksum; it can be large.
    ///
    /// # Errors
    /// Any [`FormatError`] from the header.
    pub fn open(bytes: &'a [u8]) -> (r: Result<Self, FormatError>)
        ensures
            match block::opened(bytes@, FileKind::Metadata) {
                Ok(p) => r matches Ok(m) && m@ == p,
                Err(e) => r == Err::<Self, FormatError>(e),
            },
    {
        match block::open_block(bytes, FileKind::Metadata) {
            Ok(payload) => Ok(MetaBlock { payload }),
            Err(e) => Err(e),
        }
    }

    /// Wrap an already-extracted payload.
    ///
    /// A caller that reads a segment once and then serves many rows from it, which is every
    /// filtered scan, should not re-validate the file header per row.
    pub fn from_payload(payload: &'a [u8]) -> (r: Self)
        ensures
            r@ == payload@,
    {
        MetaBlock { payload }
    }

    /// The raw payload, for a caller that wants to hold it directly.
    pub fn payload(&self) -> (r: &'a [u8])
        ensures
            r@ == self@,
    {
        self.payload
    }

    /// Verify the file's checksum.
    ///
    /// # Errors
    /// [`FormatError::ChecksumMismatch`], or whatever keeps the block from being located.
    pub fn verify(bytes: &[u8]) -> (r: Result<(), FormatError>)
        ensures
            match block::decoded(bytes@, FileKind::Metadata) {
                Ok(_) => r == Ok::<(), FormatError>(()),
                Err(e) => r == Err::<(), FormatError>(e),
            },
    {
        block::verify_block(bytes, FileKind::Metadata)
    }

    /// The encoded metadata map for a row, without decoding it.
    ///
    /// What a filtered scan wants: the bytes, so only the fields the filter names get decoded.
    ///
    /// # Errors
    /// [`FormatError::LengthExceedsInput`] if the entry points outside the file, and the errors
    /// of a record whose framing does not parse.
    pub fn metadata_bytes(&self, entry: &RowEntry) -> (r: Result<Option<&'a [u8]>, FormatError>)
        ensures
            match metadata_slice(self@, *entry) {
                Ok(Some(s)) => r matches Ok(Some(b)) && b@ == s,
                Ok(None) => r == Ok::<Option<&'a [u8]>, FormatError>(None),
                Err(e) => r == Err::<Option<&'a [u8]>, FormatError>(e),
            },
    {
        if entry.meta_len == 0 {
            return Ok(None);
        }
        let slice = match self.slice_for(entry) {
            Ok(s) => s,
            Err(e) => {
                return Err(e);
            },
        };
        let mut r = Reader::new(slice);
        let flags: u8 = match r.u8() {
            Ok(v) => v,
            Err(e) => {
                return Err(e);
            },
        };
        if flags > 3 {
            return Err(
                FormatError::Malformed {
                    offset: entry.meta_offset,
                    kind: MalformedKind::UnknownFlags(flags as u16),
                },
            );
        }
        if flags % 2 == 0 {
            return Ok(None);
        }
        match r.blob() {
            Ok(b) => Ok(Some(b)),
            Err(e) => Err(e),
        }
    }

    /// The record's raw bytes within the block.
    fn slice_for(&self, entry: &RowEntry) -> (r: Result<&'a [u8], FormatError>)
        ensures
            match record_slice(self@, *entry) {
                Ok(s) => r matches Ok(b) && b@ == s,
                Err(e) => r == Err::<&'a [u8], FormatError>(e),
            },
    {
        let available: u64 = self.payload.len() as u64;
        if entry.meta_offset > usize::MAX as u64 {
            return Err(
                FormatError::LengthExceedsInput {
                    offset: entry.meta_offset,
                    claimed: entry.meta_offset,
                    available,
                },
            );
        }
        let start: usize = entry.meta_offset as usize;
        let end: usize = match start.checked_add(entry.meta_len as usize) {
            Some(e) => e,
            None => {
                return Err(
                    FormatError::LengthExceedsInput {
                        offset: entry.meta_offset,
                        claimed: entry.meta_len as u64,
                        available,
                    },
                );
            },
        };
        if end > self.payload.len() {
            return Err(
                FormatError::LengthExceedsInput {
                    offset: entry.meta_offset,
                    claimed: end as u64,
                    available,
                },
            );
        }
        Ok(slice_subrange(self.payload, start, end))
    }

    /// Read the record a directory entry points at.
    ///
    /// # Errors
    /// [`FormatError::LengthExceedsInput`] if the entry points outside the file, which means
    /// the directory and the metadata file disagree, and the errors of a record that does not
    /// decode.
    pub fn record(&self, entry: &RowEntry) -> (r: Result<MetaRecord, FormatError>)
        ensures
            match record_at(self@, *entry) {
                Ok(m) => r matches Ok(v) && v@ == m,
                Err(e) => r == Err::<MetaRecord, FormatError>(e),
            },
    {
        if entry.meta_len == 0 {
            return Ok(MetaRecord { metadata: None, content: None });
        }
        match self.slice_for(entry) {
            Ok(s) => MetaRecord::decode(s),
            Err(e) => Err(e),
        }
    }
}

/// Whether a record can be stored.
pub open spec fn record_storable(r: RecordModel) -> bool {
    match r.metadata {
        Some(v) => value::storable(v, 1),
        None => true,
    }
}

/// The bytes of a record's metadata.
spec fn metadata_bytes(r: RecordModel) -> Seq<u8> {
    match r.metadata {
        Some(v) => cursor::blob_bytes(value::encoding(v)),
        None => Seq::empty(),
    }
}

proof fn lemma_metadata_parsed(c: Cursor, r: RecordModel)
    requires
        record_storable(r),
        c.valid(),
        c.at(metadata_bytes(r)),
    ensures
        parsed_metadata(c, record_flags(r)) == Ok::<(Option<ValueModel>, Cursor), FormatError>(
            (r.metadata, c.advance(metadata_bytes(r).len() as int)),
        ),
{
    if let Some(v) = r.metadata {
        cursor::lemma_blob(c, value::encoding(v));
        value_laws::lemma_value_round_trip(v);
    }
}

proof fn lemma_content_parsed(c: Cursor, r: RecordModel)
    requires
        c.valid(),
        c.at(content_bytes(r)),
    ensures
        parsed_record_content(c, record_flags(r)) == Ok::<(Option<Seq<u8>>, Cursor), FormatError>(
            (r.content, c.advance(content_bytes(r).len() as int)),
        ),
{
    if let Some(x) = r.content {
        cursor::lemma_blob(c, x);
    }
}

/// A record that can be stored survives being written and read back.
pub proof fn lemma_record_round_trip(r: RecordModel)
    requires
        record_storable(r),
        record_written(r) is Ok ==> record_written(r)->Ok_0.len() <= u64::MAX,
    ensures
        record_written(r) is Ok,
        record_decoded(record_written(r)->Ok_0) == Ok::<RecordModel, FormatError>(r),
{
    if let Some(v) = r.metadata {
        value_laws::lemma_written_of_storable(v, 1, 0);
    }
    let b = record_written(r)->Ok_0;
    let c = Cursor { data: b, pos: 0, base: 0 };
    let flags = record_flags(r);
    let meta = metadata_bytes(r);
    let tail = content_bytes(r);
    let c0 = c.advance(1);
    let c1 = c0.advance(meta.len() as int);
    assert(b =~= seq![flags] + (meta + tail));
    assert(b.subrange(0, b.len() as int) =~= b);
    cursor::lemma_at_split(c, seq![flags], meta + tail);
    cursor::lemma_at_split(c0, meta, tail);
    lemma_metadata_parsed(c0, r);
    lemma_content_parsed(c1, r);
}

/// A record is found again where the writer said it put it, whatever came before and whatever
/// follows.
pub proof fn lemma_record_found_again(
    before: Seq<u8>,
    r: RecordModel,
    after: Seq<u8>,
    e: RowEntry,
)
    requires
        record_storable(r),
        record_pushed(r, before.len()) is Ok,
        e.meta_offset == before.len(),
        e.meta_len == record_pushed(r, before.len())->Ok_0.1,
        before.len() + record_pushed(r, before.len())->Ok_0.0.len() + after.len() <= usize::MAX,
    ensures
        record_at(before + record_pushed(r, before.len())->Ok_0.0 + after, e) == Ok::<
            RecordModel,
            FormatError,
        >(r),
{
    let s = record_pushed(r, before.len())->Ok_0.0;
    let p = before + s + after;
    if r.metadata is None && r.content is None {
    } else {
        lemma_record_round_trip(r);
        assert(p.subrange(before.len() as int, (before.len() + s.len()) as int) =~= s);
    }
}

/// Whatever is read as a record can be stored again.
pub proof fn lemma_read_record_is_storable(p: Seq<u8>, e: RowEntry)
    requires
        record_at(p, e) is Ok,
    ensures
        record_storable(record_at(p, e)->Ok_0),
{
    if e.meta_len != 0 {
        let s = record_slice(p, e)->Ok_0;
        let c = Cursor { data: s, pos: 0, base: 0 };
        if s.len() > 0 && s[0] % 2 == 1 {
            let b = c.advance(1).blob()->Ok_0.0;
            value_laws::lemma_value_canonical(b);
        }
    }
}

} // verus!
