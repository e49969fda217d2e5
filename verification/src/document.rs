//! Documents, and the two kinds of identifier the engine uses.
//!
//! There are deliberately two: [`DocId`] is what the user supplies and sees, and [`RowId`] is
//! the dense internal handle that indexes, bitmaps and search results use. Keeping them
//! separate is what lets the flat index address rows with an integer instead of comparing
//! strings on every candidate.
use vstd::prelude::*;
use vstd::slice::slice_to_vec;
use vstd::utf8::*;

use crate::bytes;
use crate::bytes::Order;
use crate::error;
use crate::error::{DbError, ErrorModel, IdRejection, ValidationError, ValidationModel};
use crate::format::le;
use crate::format::value::ValueModel;
use crate::metadata;
use crate::metadata::Metadata;
use crate::text;
use crate::validation::{MAX_CONTENT_BYTES, MAX_DOC_ID_LEN};
use crate::vector::VectorView;

pub use crate::format::catalog::IdKind;

verus! {

/// A user-supplied document identifier, unique within its collection.
#[derive(Debug, PartialEq, Eq, PartialOrd, Ord, Hash)]
pub enum DocId {
    /// A UTF-8 string id.
    Str(String),
    /// A 64-bit integer id. Cheaper per document in the in-memory id map, which is the
    /// engine's dominant per-document overhead.
    U64(u64),
}

/// A document identifier, independent of how it is held in memory.
pub enum IdModel {
    Str(Seq<char>),
    U64(u64),
}

impl View for DocId {
    type V = IdModel;

    open spec fn view(&self) -> IdModel {
        match self {
            DocId::Str(s) => IdModel::Str(s@),
            DocId::U64(v) => IdModel::U64(*v),
        }
    }
}

/// Which representation a [`DocId`] uses, without its payload.
#[derive(Debug, Clone, Copy, PartialEq, Eq, Structural)]
pub enum IdKindTag {
    /// A string id.
    Str,
    /// An integer id.
    U64,
}

/// The persisted bytes of an id.
pub open spec fn id_bytes(id: IdModel) -> Seq<u8> {
    match id {
        IdModel::Str(s) => encode_utf8(s),
        IdModel::U64(v) => le::le(v as nat, 8),
    }
}

/// Whether one id comes before another: strings by their bytes, then integers.
pub open spec fn id_lt(a: IdModel, b: IdModel) -> bool {
    match (a, b) {
        (IdModel::Str(x), IdModel::Str(y)) => bytes::lex_lt(encode_utf8(x), encode_utf8(y)),
        (IdModel::U64(x), IdModel::U64(y)) => x < y,
        (IdModel::Str(_), IdModel::U64(_)) => true,
        (IdModel::U64(_), IdModel::Str(_)) => false,
    }
}

/// The error for a rejected id.
pub open spec fn rejected(reason: IdRejection, len: nat, max: usize) -> ErrorModel {
    ErrorModel::Validation(
        ValidationModel::InvalidDocumentId { reason, len: len as usize, max },
    )
}

/// Whether a character is a control character.
pub open spec fn is_control(c: char) -> bool {
    c as u32 <= 0x1f || 0x7f <= c as u32 <= 0x9f
}

/// Whether text holds a control character.
pub open spec fn has_control(s: Seq<char>) -> bool {
    exists|i: int| 0 <= i < s.len() && is_control(#[trigger] s[i])
}

/// The smaller of a collection's own limit and the engine's.
pub open spec fn id_limit(max_len: u32) -> usize {
    if max_len < MAX_DOC_ID_LEN {
        max_len as usize
    } else {
        MAX_DOC_ID_LEN
    }
}

/// Why an id is refused by a collection, if it is.
pub open spec fn id_refused(id: IdModel, kind: IdKind) -> Option<ErrorModel> {
    match (id, kind) {
        (IdModel::Str(s), IdKind::Str { max_len }) => {
            let max = id_limit(max_len);
            let len = encode_utf8(s).len();
            if s.len() == 0 {
                Some(rejected(IdRejection::Empty, 0, max))
            } else if len > max {
                Some(rejected(IdRejection::TooLong, len, max))
            } else if has_control(s) {
                Some(rejected(IdRejection::IllegalCharacter, len, max))
            } else {
                None
            }
        },
        (IdModel::U64(_), IdKind::U64) => None,
        (id, _) => Some(
            rejected(IdRejection::IllegalCharacter, id_bytes(id).len(), MAX_DOC_ID_LEN),
        ),
    }
}

/// The id that persisted bytes stand for in a collection, or why there is none.
pub open spec fn id_of(kind: IdKind, b: Seq<u8>) -> Result<IdModel, ErrorModel> {
    match kind {
        IdKind::Str { .. } => if valid_utf8(b) {
            Ok(IdModel::Str(decode_utf8(b)))
        } else {
            Err(rejected(IdRejection::NotUtf8, b.len(), MAX_DOC_ID_LEN))
        },
        IdKind::U64 => if b.len() == 8 {
            Ok(IdModel::U64(le::un_le(b) as u64))
        } else {
            Err(rejected(IdRejection::IllegalCharacter, b.len(), 8))
        },
    }
}

/// Whether an id is of the kind that a collection uses.
pub open spec fn of_kind(id: IdModel, kind: IdKind) -> bool {
    match kind {
        IdKind::Str { .. } => id is Str,
        IdKind::U64 => id is U64,
    }
}

/// How an id reads.
pub open spec fn id_text(id: IdModel) -> Seq<char> {
    match id {
        IdModel::Str(s) => s,
        IdModel::U64(v) => text::decimal(v as nat),
    }
}

fn reject(reason: IdRejection, len: usize, max: usize) -> (r: DbError)
    ensures
        r@ == rejected(reason, len as nat, max),
{
    DbError::Validation(ValidationError::InvalidDocumentId { reason, len, max })
}

fn text_has_control(s: &str) -> (r: bool)
    ensures
        r == has_control(s@),
{
    let mut found: bool = false;
    let all = s.chars();
    for c in iter: all
        invariant
            iter.seq() == s@,
            iter.index() <= s@.len(),
            found == exists|i: int| 0 <= i < iter.index() && is_control(#[trigger] s@[i]),
    {
        let v: u32 = c as u32;
        if v <= 0x1f || (0x7f <= v && v <= 0x9f) {
            assert(is_control(s@[iter.index() as int]));
            found = true;
        }
    }
    found
}

impl DocId {
    /// Which kind this is.
    pub fn kind(&self) -> (r: IdKindTag)
        ensures
            r == match self@ {
                IdModel::Str(_) => IdKindTag::Str,
                IdModel::U64(_) => IdKindTag::U64,
            },
    {
        match self {
            DocId::Str(_) => IdKindTag::Str,
            DocId::U64(_) => IdKindTag::U64,
        }
    }

    /// The persisted byte form: UTF-8 for strings, eight little-endian bytes for integers.
    ///
    /// The collection's [`IdKind`] says how to read them back, so no per-document tag is stored.
    pub fn to_bytes(&self) -> (r: Vec<u8>)
        ensures
            r@ == id_bytes(self@),
    {
        match self {
            DocId::Str(s) => slice_to_vec(s.as_str().as_bytes()),
            DocId::U64(v) => {
                let mut out: Vec<u8> = Vec::new();
                le::push_le(&mut out, *v, 8);
                assert(Seq::<u8>::empty() + le::le(*v as nat, 8) =~= le::le(*v as nat, 8));
                out
            },
        }
    }

    /// Rebuild from the persisted form.
    ///
    /// # Errors
    /// [`ValidationError::InvalidDocumentId`] if the bytes do not match the collection's kind.
    pub fn from_bytes(kind: IdKind, bytes: &[u8]) -> (r: Result<Self, DbError>)
        ensures
            match id_of(kind, bytes@) {
                Ok(id) => r matches Ok(d) && d@ == id,
                Err(e) => error::failed(r, e),
            },
    {
        assert(bytes@.len() == bytes.len());
        match kind {
            IdKind::Str { .. } => match bytes::text_of(bytes) {
                Some(s) => Ok(DocId::Str(s.to_owned())),
                None => Err(reject(IdRejection::NotUtf8, bytes.len(), MAX_DOC_ID_LEN)),
            },
            IdKind::U64 => {
                if bytes.len() != 8 {
                    return Err(reject(IdRejection::IllegalCharacter, bytes.len(), 8));
                }
                Ok(DocId::U64(le::read_le(bytes)))
            },
        }
    }

    /// Check the id against the engine's limits and the collection's kind.
    ///
    /// Control characters would make ids unprintable in logs and error messages, and a NUL would
    /// truncate them at any C boundary the bindings cross.
    ///
    /// # Errors
    /// [`ValidationError::InvalidDocumentId`], naming why.
    pub fn validate(&self, kind: IdKind) -> (r: Result<(), DbError>)
        ensures
            match id_refused(self@, kind) {
                Some(e) => error::failed(r, e),
                None => r is Ok,
            },
    {
        match (self, kind) {
            (DocId::Str(s), IdKind::Str { max_len }) => {
                let max: usize = if (max_len as u64) < (MAX_DOC_ID_LEN as u64) {
                    max_len as usize
                } else {
                    MAX_DOC_ID_LEN
                };
                let len: usize = s.as_str().as_bytes().len();
                if s.as_str().is_empty() {
                    return Err(reject(IdRejection::Empty, 0, max));
                }
                if len > max {
                    return Err(reject(IdRejection::TooLong, len, max));
                }
                if text_has_control(s.as_str()) {
                    return Err(reject(IdRejection::IllegalCharacter, len, max));
                }
                Ok(())
            },
            (DocId::U64(_), IdKind::U64) => Ok(()),
            (id, _) => Err(
                reject(IdRejection::IllegalCharacter, id.to_bytes().len(), MAX_DOC_ID_LEN),
            ),
        }
    }

    /// A displayable form: the id itself, `note-1` or `42`.
    pub fn display(&self) -> (r: String)
        ensures
            r@ == id_text(self@),
    {
        match self {
            DocId::Str(s) => s.as_str().to_owned(),
            DocId::U64(v) => text::decimal_string(*v),
        }
    }

    /// Whether two ids are the same.
    pub fn same(&self, other: &DocId) -> (r: bool)
        ensures
            r == (self@ == other@),
    {
        match (self, other) {
            (DocId::Str(a), DocId::Str(b)) => bytes::same_str(a.as_str(), b.as_str()),
            (DocId::U64(a), DocId::U64(b)) => *a == *b,
            _ => false,
        }
    }

    /// Whether this id comes before another.
    pub fn before(&self, other: &DocId) -> (r: bool)
        ensures
            r == id_lt(self@, other@),
    {
        match (self, other) {
            (DocId::Str(a), DocId::Str(b)) => {
                proof {
                    bytes::lemma_lex_total(encode_utf8(a@), encode_utf8(b@));
                }
                bytes::compare_str(a.as_str(), b.as_str()) == Order::Less
            },
            (DocId::U64(a), DocId::U64(b)) => *a < *b,
            (DocId::Str(_), DocId::U64(_)) => true,
            (DocId::U64(_), DocId::Str(_)) => false,
        }
    }
}

impl Clone for DocId {
    fn clone(&self) -> (r: Self)
        ensures
            r@ == self@,
    {
        match self {
            DocId::Str(s) => DocId::Str(s.as_str().to_owned()),
            DocId::U64(v) => DocId::U64(*v),
        }
    }
}

/// What can identify a document.
pub trait IntoDocId: Sized {
    /// The id it stands for.
    spec fn id_model(self) -> IdModel;

    /// The id it stands for.
    fn into_doc_id(self) -> (r: DocId)
        ensures
            r@ == self.id_model(),
    ;
}

impl IntoDocId for DocId {
    open spec fn id_model(self) -> IdModel {
        self@
    }

    fn into_doc_id(self) -> (r: DocId) {
        self
    }
}

impl<'a> IntoDocId for &'a str {
    open spec fn id_model(self) -> IdModel {
        IdModel::Str(self@)
    }

    fn into_doc_id(self) -> (r: DocId) {
        DocId::Str(self.to_owned())
    }
}

impl IntoDocId for String {
    open spec fn id_model(self) -> IdModel {
        IdModel::Str(self@)
    }

    fn into_doc_id(self) -> (r: DocId) {
        DocId::Str(self)
    }
}

impl IntoDocId for u64 {
    open spec fn id_model(self) -> IdModel {
        IdModel::U64(self)
    }

    fn into_doc_id(self) -> (r: DocId) {
        DocId::U64(self)
    }
}

impl From<String> for DocId {
    fn from(s: String) -> (r: Self) {
        DocId::Str(s)
    }
}

impl vstd::std_specs::convert::FromSpecImpl<String> for DocId {
    open spec fn obeys_from_spec() -> bool {
        true
    }

    open spec fn from_spec(s: String) -> Self {
        DocId::Str(s)
    }
}

impl From<u64> for DocId {
    fn from(v: u64) -> (r: Self) {
        DocId::U64(v)
    }
}

impl vstd::std_specs::convert::FromSpecImpl<u64> for DocId {
    open spec fn obeys_from_spec() -> bool {
        true
    }

    open spec fn from_spec(v: u64) -> Self {
        DocId::U64(v)
    }
}

impl<'a> From<&'a str> for DocId {
    fn from(s: &'a str) -> (r: Self)
        ensures
            r@ == IdModel::Str(s@),
    {
        DocId::Str(s.to_owned())
    }
}

impl<'a> vstd::std_specs::convert::FromSpecImpl<&'a str> for DocId {
    open spec fn obeys_from_spec() -> bool {
        false
    }

    open spec fn from_spec(s: &'a str) -> Self {
        DocId::U64(0)
    }
}

/// The engine's internal row handle: a segment id and a row index, packed.
///
/// Packed rather than a struct so it fits in a register, sorts naturally by segment then row,
/// and can key a bitmap or a heap entry without a hash.
#[derive(Debug, Clone, Copy, PartialEq, Eq, PartialOrd, Ord, Hash, Structural)]
pub struct RowId(pub u64);

impl RowId {
    /// Build from a segment id and a row index within that segment.
    pub fn new(segment: u32, row: u32) -> (r: Self)
        ensures
            r.0 == segment * 0x1_0000_0000 + row,
    {
        RowId(segment as u64 * 0x1_0000_0000 + row as u64)
    }

    /// The segment this row lives in.
    pub fn segment(self) -> (r: u32)
        ensures
            r == self.0 / 0x1_0000_0000,
    {
        (self.0 / 0x1_0000_0000) as u32
    }

    /// The row's index within its segment.
    pub fn row(self) -> (r: u32)
        ensures
            r == self.0 % 0x1_0000_0000,
    {
        (self.0 % 0x1_0000_0000) as u32
    }

    /// The packed value, for serialization and for index structures.
    pub fn as_u64(self) -> (r: u64)
        ensures
            r == self.0,
    {
        self.0
    }

    /// Rebuild from a packed value.
    pub fn from_u64(v: u64) -> (r: Self)
        ensures
            r.0 == v,
    {
        RowId(v)
    }
}

/// A document being written.
///
/// Borrows its vector and content so nothing is copied before the write-ahead log.
#[derive(Debug)]
pub struct DocumentInput<'a> {
    /// The document's id.
    pub id: DocId,
    /// Its vector.
    pub vector: VectorView<'a>,
    /// Optional metadata.
    pub metadata: Option<Metadata>,
    /// Optional opaque payload, such as the text the vector was derived from.
    pub content: Option<&'a [u8]>,
}

/// The contents of an optional borrowed byte string.
pub open spec fn option_slice(v: Option<&[u8]>) -> Option<Seq<u8>> {
    match v {
        Some(b) => Some(b@),
        None => None,
    }
}

/// A copy of an optional borrowed byte string.
pub fn own_slice(v: Option<&[u8]>) -> (r: Option<Vec<u8>>)
    ensures
        bytes::option_bytes(r) == option_slice(v),
{
    match v {
        Some(b) => Some(slice_to_vec(b)),
        None => None,
    }
}

/// The error for content above the limit.
pub open spec fn content_too_large(size: nat) -> ErrorModel {
    ErrorModel::Validation(
        ValidationModel::MetadataTooLarge {
            field: "<content>"@,
            size: size as usize,
            max: MAX_CONTENT_BYTES,
        },
    )
}

/// Why content is refused, if it is.
pub open spec fn content_refused(content: Option<Seq<u8>>) -> Option<ErrorModel> {
    match content {
        Some(c) => if c.len() > MAX_CONTENT_BYTES {
            Some(content_too_large(c.len()))
        } else {
            None
        },
        None => None,
    }
}

/// Check the size of a document's content.
///
/// # Errors
/// [`ValidationError::MetadataTooLarge`].
pub fn check_content(content: Option<&[u8]>) -> (r: Result<(), DbError>)
    ensures
        match content_refused(option_slice(content)) {
            Some(e) => error::failed(r, e),
            None => r is Ok,
        },
{
    match content {
        Some(c) => {
            assert(c@.len() == c.len());
            if c.len() > MAX_CONTENT_BYTES {
                return Err(
                    DbError::Validation(
                        ValidationError::MetadataTooLarge {
                            field: "<content>".to_owned(),
                            size: c.len(),
                            max: MAX_CONTENT_BYTES,
                        },
                    ),
                );
            }
            Ok(())
        },
        None => Ok(()),
    }
}

impl<'a> DocumentInput<'a> {
    /// Why a document is refused by a collection, if it is: the first complaint about its id,
    /// its vector, its metadata and its content, in that order.
    pub open spec fn refused(self, collection: Seq<char>, dimension: u32, kind: IdKind) -> Option<
        ErrorModel,
    > {
        match id_refused(self.id@, kind) {
            Some(e) => Some(e),
            None => match self.vector.refused(collection, dimension) {
                Some(e) => Some(e),
                None => match metadata_refused(metadata::option_metadata(self.metadata)) {
                    Some(e) => Some(e),
                    None => content_refused(option_slice(self.content)),
                },
            },
        }
    }

    /// A document with just an id and a vector.
    pub fn new<I: IntoDocId>(id: I, vector: VectorView<'a>) -> (r: Self)
        ensures
            r.id@ == id.id_model(),
            r.vector == vector,
            r.metadata is None,
            r.content is None,
    {
        DocumentInput { id: id.into_doc_id(), vector, metadata: None, content: None }
    }

    /// Attach metadata.
    #[must_use]
    pub fn with_metadata(self, metadata: Metadata) -> (r: Self)
        ensures
            r == (DocumentInput { metadata: Some(metadata), ..self }),
    {
        DocumentInput { id: self.id, vector: self.vector, metadata: Some(metadata), content: self.content }
    }

    /// Attach content.
    #[must_use]
    pub fn with_content(self, content: &'a [u8]) -> (r: Self)
        ensures
            r == (DocumentInput { content: Some(content), ..self }),
    {
        DocumentInput { id: self.id, vector: self.vector, metadata: self.metadata, content: Some(content) }
    }

    /// Validate everything about this document against a collection.
    ///
    /// One call, so no write path can validate a subset by accident.
    ///
    /// # Errors
    /// Any [`ValidationError`].
    pub fn validate(&self, collection: &str, dimension: u32, id_kind: IdKind) -> (r: Result<
        (),
        DbError,
    >)
        ensures
            match self.refused(collection@, dimension, id_kind) {
                Some(e) => error::failed(r, e),
                None => r is Ok,
            },
    {
        match self.id.validate(id_kind) {
            Ok(()) => {},
            Err(e) => {
                return Err(e);
            },
        }
        match self.vector.validate(collection, dimension) {
            Ok(()) => {},
            Err(e) => {
                return Err(e);
            },
        }
        if let Some(m) = &self.metadata {
            match m.validate() {
                Ok(()) => {},
                Err(e) => {
                    return Err(e);
                },
            }
        }
        check_content(self.content)
    }
}

/// Why optional metadata is refused, if it is.
pub open spec fn metadata_refused(m: Option<Seq<(Seq<char>, ValueModel)>>) -> Option<ErrorModel> {
    match m {
        Some(m) => metadata::refused(m),
        None => None,
    }
}

/// A document read back out of the database.
#[derive(Debug, PartialEq)]
pub struct Document {
    /// The document's id.
    pub id: DocId,
    /// Its vector as component bits, present only when the read asked for it. It is by far the
    /// largest field.
    pub vector: Option<Vec<u32>>,
    /// Its metadata, empty when it has none.
    pub metadata: Metadata,
    /// Its content, if it has any and the read asked for it.
    pub content: Option<Vec<u8>>,
}

/// A document read back, independent of how it is held in memory.
pub struct DocumentModel {
    pub id: IdModel,
    pub vector: Option<Seq<u32>>,
    pub metadata: Seq<(Seq<char>, ValueModel)>,
    pub content: Option<Seq<u8>>,
}

impl View for Document {
    type V = DocumentModel;

    open spec fn view(&self) -> DocumentModel {
        DocumentModel {
            id: self.id@,
            vector: match self.vector {
                Some(v) => Some(v@),
                None => None,
            },
            metadata: self.metadata@,
            content: bytes::option_bytes(self.content),
        }
    }
}

/// Which parts of a document a read should return.
///
/// Vectors dominate the cost of returning results (at 768 dimensions a hit carries 3 KB), so
/// they are opt-in rather than opt-out.
#[derive(Debug, Clone, Copy, PartialEq, Eq, Structural)]
pub struct Include {
    /// Return the vector.
    pub vector: bool,
    /// Return the metadata.
    pub metadata: bool,
    /// Return the content.
    pub content: bool,
}

impl Include {
    /// Metadata only: the default, and what most searches actually need.
    pub fn metadata_only() -> (r: Self)
        ensures
            r == (Include { vector: false, metadata: true, content: false }),
    {
        Include { vector: false, metadata: true, content: false }
    }

    /// Nothing but ids and scores.
    pub fn nothing() -> (r: Self)
        ensures
            r == (Include { vector: false, metadata: false, content: false }),
    {
        Include { vector: false, metadata: false, content: false }
    }

    /// Everything.
    pub fn everything() -> (r: Self)
        ensures
            r == (Include { vector: true, metadata: true, content: true }),
    {
        Include { vector: true, metadata: true, content: true }
    }
}

impl Default for Include {
    fn default() -> (r: Self)
        ensures
            r == (Include { vector: false, metadata: true, content: false }),
    {
        Include::metadata_only()
    }
}

/// An id survives being written and read back in a collection of its kind.
pub proof fn lemma_id_round_trip(id: IdModel, kind: IdKind)
    requires
        of_kind(id, kind),
    ensures
        id_of(kind, id_bytes(id)) == Ok::<IdModel, ErrorModel>(id),
{
    match id {
        IdModel::Str(s) => {
            encode_utf8_valid_utf8(s);
            encode_utf8_decode_utf8(s);
        },
        IdModel::U64(v) => {
            le::lemma_pow256_values();
            le::lemma_un_le_of_le(v as nat, 8);
        },
    }
}

/// Within one collection, different ids have different bytes.
pub proof fn lemma_id_bytes_tell_apart(a: IdModel, b: IdModel, kind: IdKind)
    requires
        of_kind(a, kind),
        of_kind(b, kind),
        id_bytes(a) == id_bytes(b),
    ensures
        a == b,
{
    lemma_id_round_trip(a, kind);
    lemma_id_round_trip(b, kind);
}

/// Ids are totally ordered: none comes before itself, and of two different ones exactly one
/// comes first.
pub proof fn lemma_ids_are_ordered(a: IdModel, b: IdModel, c: IdModel)
    ensures
        !id_lt(a, a),
        a != b ==> id_lt(a, b) != id_lt(b, a),
        id_lt(a, b) && id_lt(b, c) ==> id_lt(a, c),
{
    if let IdModel::Str(x) = a {
        bytes::lemma_lex_total(encode_utf8(x), encode_utf8(x));
        if let IdModel::Str(y) = b {
            bytes::lemma_utf8_injective(x, y);
            bytes::lemma_lex_total(encode_utf8(x), encode_utf8(y));
            if let IdModel::Str(z) = c {
                if id_lt(a, b) && id_lt(b, c) {
                    bytes::lemma_lex_transitive(encode_utf8(x), encode_utf8(y), encode_utf8(z));
                }
            }
        }
    }
}

/// A row handle gives back the segment and row it was built from, and handles sort by segment
/// first and by row within it.
pub proof fn lemma_row_ids_pack(segment: u32, row: u32, other_segment: u32, other_row: u32)
    ensures
        ({
            let a = segment * 0x1_0000_0000 + row;
            let b = other_segment * 0x1_0000_0000 + other_row;
            &&& a <= u64::MAX
            &&& a / 0x1_0000_0000 == segment
            &&& a % 0x1_0000_0000 == row
            &&& (a < b) == (segment < other_segment || (segment == other_segment && row
                < other_row))
        }),
{
}

/// Ids are ordered as what they are: numbers by size, texts as their bytes stand in a dictionary, and
/// every text before every number.
pub proof fn lemma_ids_stand_in_order(a: IdModel, b: IdModel)
    ensures
        match (a, b) {
            (IdModel::U64(x), IdModel::U64(y)) => id_lt(a, b) <==> x < y,
            (IdModel::Str(x), IdModel::Str(y)) => id_lt(a, b)
                <==> crate::filter::meaning::stands_before(encode_utf8(x), encode_utf8(y)),
            (IdModel::Str(_), IdModel::U64(_)) => id_lt(a, b) && !id_lt(b, a),
            (IdModel::U64(_), IdModel::Str(_)) => !id_lt(a, b) && id_lt(b, a),
        },
{
    if let (IdModel::Str(x), IdModel::Str(y)) = (a, b) {
        crate::filter::meaning::lemma_lex_is_dictionary_order(encode_utf8(x), encode_utf8(y));
    }
}

} // verus!
