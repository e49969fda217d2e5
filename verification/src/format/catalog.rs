//! A collection's specification, written once when the collection is created.
//!
//! ```text
//! offset  size  field
//!      0     4  dimension
//!      4     1  metric
//!      5     1  component type
//!      6     1  id kind
//!      7     1  index
//!      8     4  longest string id, 0 for integer ids
//!     12     4  reserved
//!     16     8  created, milliseconds
//!     24     -  name, a length-prefixed string
//! ```
use vstd::prelude::*;
use vstd::utf8::*;

use crate::format::block;
use crate::format::cursor;
use crate::format::cursor::{Cursor, Reader, Writer};
use crate::format::error::{FormatError, MalformedKind};
use crate::format::header::{FileKind, HEADER_LEN};
use crate::format::le;
use crate::format::segment::vectors;

verus! {

/// The most components a vector may have.
pub const MAX_DIMENSION: u32 = 65_536;

/// How similarity is measured.
#[derive(Debug, Clone, Copy, PartialEq, Eq, Structural)]
pub enum Metric {
    /// The cosine of the angle between two vectors.
    Cosine,
    /// The dot product.
    Dot,
    /// Euclidean distance.
    L2,
}

/// How a vector's components are stored.
#[derive(Debug, Clone, Copy, PartialEq, Eq, Structural)]
pub enum VectorDType {
    /// 32-bit floats, little-endian.
    F32,
}

/// How a collection's documents are identified.
#[derive(Debug, Clone, Copy, PartialEq, Eq, Structural)]
pub enum IdKind {
    /// UTF-8 strings of at most so many bytes.
    Str {
        /// The longest permitted id, in bytes.
        max_len: u32,
    },
    /// 64-bit integers.
    U64,
}

/// Which index a collection is searched with.
#[derive(Debug, Clone, Copy, PartialEq, Eq, Structural)]
pub enum IndexSpec {
    /// An exact scan.
    Flat,
}

/// A collection's specification.
#[derive(Debug, PartialEq)]
pub struct Catalog {
    /// The collection's name.
    pub name: String,
    /// Components in every vector.
    pub dimension: u32,
    /// How similarity is measured.
    pub metric: Metric,
    /// How components are stored.
    pub dtype: VectorDType,
    /// How documents are identified.
    pub id_kind: IdKind,
    /// Which index it is searched with.
    pub index: IndexSpec,
    /// When it was created.
    pub created_at_ms: u64,
}

/// A collection's specification, independent of how it is held in memory.
pub struct CatalogModel {
    pub name: Seq<char>,
    pub dimension: u32,
    pub metric: Metric,
    pub dtype: VectorDType,
    pub id_kind: IdKind,
    pub index: IndexSpec,
    pub created_at_ms: u64,
}

impl View for Catalog {
    type V = CatalogModel;

    open spec fn view(&self) -> CatalogModel {
        CatalogModel {
            name: self.name@,
            dimension: self.dimension,
            metric: self.metric,
            dtype: self.dtype,
            id_kind: self.id_kind,
            index: self.index,
            created_at_ms: self.created_at_ms,
        }
    }
}

impl VectorDType {
    /// Bytes one component takes.
    pub open spec fn size(self) -> nat {
        4
    }

    /// Bytes one component takes.
    pub fn component_size(self) -> (r: usize)
        ensures
            r == self.size(),
    {
        4
    }

    /// Bytes a row of so many components takes, at most the largest machine word.
    pub open spec fn stride(self, dimension: u32) -> nat {
        if dimension * self.size() > usize::MAX {
            usize::MAX as nat
        } else {
            (dimension * self.size()) as nat
        }
    }

    /// Bytes a row of so many components takes.
    pub fn row_stride(self, dimension: u32) -> (r: usize)
        ensures
            r == self.stride(dimension),
    {
        let n: u64 = dimension as u64 * 4;
        if n > usize::MAX as u64 {
            usize::MAX
        } else {
            n as usize
        }
    }
}

/// The stored form of a metric.
pub open spec fn metric_code(m: Metric) -> u8 {
    match m {
        Metric::Cosine => 0,
        Metric::Dot => 1,
        Metric::L2 => 2,
    }
}

/// The stored form of an id kind.
pub open spec fn id_code(k: IdKind) -> u8 {
    match k {
        IdKind::Str { .. } => 0,
        IdKind::U64 => 1,
    }
}

/// The stored longest id: 0 where ids are integers.
pub open spec fn id_limit(k: IdKind) -> u32 {
    match k {
        IdKind::Str { max_len } => max_len,
        IdKind::U64 => 0,
    }
}

/// The bytes of a specification before its name.
pub open spec fn head_bytes(c: CatalogModel) -> Seq<u8> {
    le::le(c.dimension as nat, 4) + seq![metric_code(c.metric), 0u8, id_code(c.id_kind), 0u8]
        + le::le(id_limit(c.id_kind) as nat, 4) + cursor::zeros(4) + le::le(
        c.created_at_ms as nat,
        8,
    )
}

/// The payload of a specification.
pub open spec fn catalog_bytes(c: CatalogModel) -> Seq<u8> {
    head_bytes(c) + cursor::string_bytes(c.name)
}

/// What is wrong with a specification, if anything.
pub open spec fn checked(c: CatalogModel) -> Result<(), FormatError> {
    if c.name.len() == 0 {
        Err(vectors::zero_field("collection name"))
    } else if c.dimension == 0 {
        Err(vectors::zero_field("dimension"))
    } else if c.dimension > MAX_DIMENSION {
        Err(vectors::inconsistent(0, "dimension"))
    } else {
        Ok(())
    }
}

/// The error for a code this build does not know.
pub open spec fn unknown(offset: u64, field: &'static str, value: u8) -> FormatError {
    FormatError::Malformed { offset, kind: MalformedKind::UnknownDiscriminant { field, value } }
}

/// The metric that a code stands for.
pub open spec fn metric_of(code: u8) -> Result<Metric, FormatError> {
    if code == 0 {
        Ok(Metric::Cosine)
    } else if code == 1 {
        Ok(Metric::Dot)
    } else if code == 2 {
        Ok(Metric::L2)
    } else {
        Err(unknown(4, "metric", code))
    }
}

/// The id kind that a code and a limit stand for.
pub open spec fn id_kind_of(code: u8, limit: u32) -> Result<IdKind, FormatError> {
    if code == 0 {
        Ok(IdKind::Str { max_len: limit })
    } else if code == 1 {
        if limit == 0 {
            Ok(IdKind::U64)
        } else {
            Err(vectors::inconsistent(8, "id length limit"))
        }
    } else {
        Err(unknown(6, "id kind", code))
    }
}

/// What the codes of a specification stand for.
pub open spec fn parsed_codes(metric: u8, dtype: u8, id: u8, index: u8, limit: u32) -> Result<
    (Metric, IdKind),
    FormatError,
> {
    match metric_of(metric) {
        Err(e) => Err(e),
        Ok(m) => if dtype != 0 {
            Err(unknown(5, "dtype", dtype))
        } else {
            match id_kind_of(id, limit) {
                Err(e) => Err(e),
                Ok(k) => if index != 0 {
                    Err(unknown(7, "index", index))
                } else {
                    Ok((m, k))
                },
            }
        },
    }
}

/// The specification that a payload holds from its name on, or why it is refused.
pub open spec fn parsed_name(
    c: Cursor,
    dimension: u32,
    codes: (Metric, IdKind),
    created_at_ms: u64,
) -> Result<CatalogModel, FormatError> {
    match c.string() {
        Ok((name, c1)) => match c1.end("catalog") {
            Ok(_) => {
                let m = CatalogModel {
                    name,
                    dimension,
                    metric: codes.0,
                    dtype: VectorDType::F32,
                    id_kind: codes.1,
                    index: IndexSpec::Flat,
                    created_at_ms,
                };
                match checked(m) {
                    Ok(_) => Ok(m),
                    Err(e) => Err(e),
                }
            },
            Err(e) => Err(e),
        },
        Err(e) => Err(e),
    }
}

/// The specification that a payload holds, or why it is refused.
pub open spec fn parsed_catalog(p: Seq<u8>) -> Result<CatalogModel, FormatError> {
    let c = Cursor { data: p, pos: 0, base: 0 };
    match c.uint(4) {
        Ok((dimension, c1)) => match c1.bytes(4) {
            Ok((codes, c2)) => match c2.uint(4) {
                Ok((limit, c3)) => match c3.reserved(4) {
                    Ok((_, c4)) => match c4.uint(8) {
                        Ok((created, c5)) => match parsed_codes(
                            codes[0],
                            codes[1],
                            codes[2],
                            codes[3],
                            limit as u32,
                        ) {
                            Ok(k) => parsed_name(c5, dimension as u32, k, created as u64),
                            Err(e) => Err(e),
                        },
                        Err(e) => Err(e),
                    },
                    Err(e) => Err(e),
                },
                Err(e) => Err(e),
            },
            Err(e) => Err(e),
        },
        Err(e) => Err(e),
    }
}

/// The specification that a catalog file holds, or why it is refused.
pub open spec fn decoded(b: Seq<u8>) -> Result<CatalogModel, FormatError> {
    match block::decoded(b, FileKind::Catalog) {
        Ok(p) => parsed_catalog(p),
        Err(e) => Err(e),
    }
}

fn read_metric(code: u8) -> (r: Result<Metric, FormatError>)
    ensures
        r == metric_of(code),
{
    match code {
        0 => Ok(Metric::Cosine),
        1 => Ok(Metric::Dot),
        2 => Ok(Metric::L2),
        _ => Err(
            FormatError::Malformed {
                offset: 4,
                kind: MalformedKind::UnknownDiscriminant { field: "metric", value: code },
            },
        ),
    }
}

fn read_id_kind(code: u8, limit: u32) -> (r: Result<IdKind, FormatError>)
    ensures
        r == id_kind_of(code, limit),
{
    match code {
        0 => Ok(IdKind::Str { max_len: limit }),
        1 => {
            if limit != 0 {
                return Err(
                    FormatError::Malformed {
                        offset: 8,
                        kind: MalformedKind::Inconsistent { field: "id length limit" },
                    },
                );
            }
            Ok(IdKind::U64)
        },
        _ => Err(
            FormatError::Malformed {
                offset: 6,
                kind: MalformedKind::UnknownDiscriminant { field: "id kind", value: code },
            },
        ),
    }
}

fn read_codes(codes: &[u8], limit: u32) -> (r: Result<(Metric, IdKind), FormatError>)
    requires
        codes@.len() == 4,
    ensures
        r == parsed_codes(codes@[0], codes@[1], codes@[2], codes@[3], limit),
{
    let metric: Metric = match read_metric(codes[0]) {
        Ok(m) => m,
        Err(e) => {
            return Err(e);
        },
    };
    if codes[1] != 0 {
        return Err(
            FormatError::Malformed {
                offset: 5,
                kind: MalformedKind::UnknownDiscriminant { field: "dtype", value: codes[1] },
            },
        );
    }
    let id_kind: IdKind = match read_id_kind(codes[2], limit) {
        Ok(k) => k,
        Err(e) => {
            return Err(e);
        },
    };
    if codes[3] != 0 {
        return Err(
            FormatError::Malformed {
                offset: 7,
                kind: MalformedKind::UnknownDiscriminant { field: "index", value: codes[3] },
            },
        );
    }
    Ok((metric, id_kind))
}

impl Catalog {
    /// Bytes a stored vector takes.
    pub fn row_stride(&self) -> (r: usize)
        ensures
            r == self.dtype.stride(self.dimension),
    {
        self.dtype.row_stride(self.dimension)
    }

    /// Check the specification's own rules.
    ///
    /// # Errors
    /// [`MalformedKind::ZeroNotAllowed`] for an empty name or a dimension of zero,
    /// [`MalformedKind::Inconsistent`] for a dimension above [`MAX_DIMENSION`].
    pub fn validate(&self) -> (r: Result<(), FormatError>)
        ensures
            r == checked(self@),
    {
        if self.name.as_str().is_empty() {
            return Err(
                FormatError::Malformed {
                    offset: 0,
                    kind: MalformedKind::ZeroNotAllowed { field: "collection name" },
                },
            );
        }
        if self.dimension == 0 {
            return Err(
                FormatError::Malformed {
                    offset: 0,
                    kind: MalformedKind::ZeroNotAllowed { field: "dimension" },
                },
            );
        }
        if self.dimension > MAX_DIMENSION {
            return Err(
                FormatError::Malformed {
                    offset: 0,
                    kind: MalformedKind::Inconsistent { field: "dimension" },
                },
            );
        }
        Ok(())
    }

    /// Encode as a complete catalog file.
    ///
    /// # Errors
    /// As [`Catalog::validate`]: what cannot be read back is not written.
    pub fn encode(&self) -> (r: Result<Vec<u8>, FormatError>)
        ensures
            match checked(self@) {
                Ok(_) => r matches Ok(b) && b@ == block::block_bytes(
                    FileKind::Catalog,
                    catalog_bytes(self@),
                ),
                Err(e) => r == Err::<Vec<u8>, FormatError>(e),
            },
    {
        match self.validate() {
            Ok(()) => {},
            Err(e) => {
                return Err(e);
            },
        }
        let mut w = Writer::new();
        w.u32(self.dimension);
        w.u8(
            match self.metric {
                Metric::Cosine => 0,
                Metric::Dot => 1,
                Metric::L2 => 2,
            },
        );
        w.u8(0);
        let (id, limit): (u8, u32) = match self.id_kind {
            IdKind::Str { max_len } => (0, max_len),
            IdKind::U64 => (1, 0),
        };
        w.u8(id);
        w.u8(0);
        w.u32(limit);
        w.reserved(4);
        w.u64(self.created_at_ms);
        assert(w@ =~= head_bytes(self@));
        w.string(self.name.as_str());
        assert(w@ =~= catalog_bytes(self@));
        Ok(block::encode_block(FileKind::Catalog, w.as_slice()))
    }

    /// Decode a catalog file.
    ///
    /// # Errors
    /// Any [`FormatError`].
    pub fn decode(bytes: &[u8]) -> (res: Result<Self, FormatError>)
        ensures
            match decoded(bytes@) {
                Ok(m) => res matches Ok(c) && c@ == m,
                Err(e) => res == Err::<Self, FormatError>(e),
            },
    {
        let payload = match block::decode_block(bytes, FileKind::Catalog) {
            Ok(p) => p,
            Err(e) => {
                return Err(e);
            },
        };
        let mut r = Reader::new(payload);
        let dimension: u32 = match r.u32() {
            Ok(v) => v,
            Err(e) => {
                return Err(e);
            },
        };
        let codes = match r.bytes(4) {
            Ok(v) => v,
            Err(e) => {
                return Err(e);
            },
        };
        let limit: u32 = match r.u32() {
            Ok(v) => v,
            Err(e) => {
                return Err(e);
            },
        };
        match r.reserved(4) {
            Ok(()) => {},
            Err(e) => {
                return Err(e);
            },
        }
        let created_at_ms: u64 = match r.u64() {
            Ok(v) => v,
            Err(e) => {
                return Err(e);
            },
        };
        let (metric, id_kind): (Metric, IdKind) = match read_codes(codes, limit) {
            Ok(k) => k,
            Err(e) => {
                return Err(e);
            },
        };
        let name = match r.string() {
            Ok(s) => s,
            Err(e) => {
                return Err(e);
            },
        };
        match r.expect_end("catalog") {
            Ok(()) => {},
            Err(e) => {
                return Err(e);
            },
        }
        let c = Catalog {
            name: name.to_owned(),
            dimension,
            metric,
            dtype: VectorDType::F32,
            id_kind,
            index: IndexSpec::Flat,
            created_at_ms,
        };
        match c.validate() {
            Ok(()) => Ok(c),
            Err(e) => Err(e),
        }
    }
}

impl Clone for Catalog {
    fn clone(&self) -> (r: Self)
        ensures
            r@ == self@,
    {
        Catalog {
            name: self.name.as_str().to_owned(),
            dimension: self.dimension,
            metric: self.metric,
            dtype: self.dtype,
            id_kind: self.id_kind,
            index: self.index,
            created_at_ms: self.created_at_ms,
        }
    }
}

/// Reading a written specification gives it back.
pub proof fn lemma_catalog_round_trip(c: CatalogModel)
    requires
        checked(c) is Ok,
        catalog_bytes(c).len() + HEADER_LEN + block::TRAILER_LEN <= usize::MAX,
    ensures
        decoded(block::block_bytes(FileKind::Catalog, catalog_bytes(c))) == Ok::<
            CatalogModel,
            FormatError,
        >(c),
{
    let p = catalog_bytes(c);
    let b = block::block_bytes(FileKind::Catalog, p);
    block::lemma_block_round_trip(FileKind::Catalog, p, Seq::empty());
    assert(b + Seq::<u8>::empty() =~= b);
    let at = Cursor { data: p, pos: 0, base: 0 };
    le::lemma_pow256_values();
    le::lemma_le_fixed(c.dimension as nat);
    le::lemma_le_fixed(id_limit(c.id_kind) as nat);
    le::lemma_le_fixed(c.created_at_ms as nat);
    assert(p.subrange(0, 4) =~= le::le(c.dimension as nat, 4));
    cursor::lemma_uint(at, c.dimension as nat, 4);
    let codes = p.subrange(4, 8);
    assert(codes =~= seq![metric_code(c.metric), 0u8, id_code(c.id_kind), 0u8]);
    assert(p.subrange(8, 12) =~= le::le(id_limit(c.id_kind) as nat, 4));
    cursor::lemma_uint(at.advance(8), id_limit(c.id_kind) as nat, 4);
    assert(p.subrange(12, 16) =~= cursor::zeros(4));
    assert(p.subrange(16, 24) =~= le::le(c.created_at_ms as nat, 8));
    cursor::lemma_uint(at.advance(16), c.created_at_ms as nat, 8);
    assert(p.subrange(24, p.len() as int) =~= cursor::string_bytes(c.name));
    cursor::lemma_string(at.advance(24), c.name);
}

} // verus!
