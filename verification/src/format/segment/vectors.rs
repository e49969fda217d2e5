//! The vector block: fixed-stride rows starting on a cache line.
use vstd::prelude::*;
use vstd::slice::{slice_subrange, slice_to_vec};

use crate::float;
use crate::format::block;
use crate::format::cursor;
use crate::format::cursor::Writer;
use crate::format::error::{FormatError, MalformedKind};
use crate::format::header::{FileKind, HEADER_LEN};
use crate::format::le;

verus! {

/// Byte offset at which vector data begins in a `.vec` file.
///
/// 64 rather than 32 so the float array starts on a cache line.
pub const VECTOR_DATA_OFFSET: usize = 64;

/// Padding between the header and the vector data.
pub const VECTOR_PAD: usize = 32;

/// The bytes of a list of 32-bit components.
pub open spec fn component_bytes(values: Seq<u32>) -> Seq<u8>
    decreases values.len(),
{
    if values.len() == 0 {
        Seq::empty()
    } else {
        component_bytes(values.drop_last()) + le::le(values.last() as nat, 4)
    }
}

/// The first component that is a NaN or an infinity, or the number of components if none is.
pub open spec fn first_non_finite(values: Seq<u32>) -> nat
    decreases values.len(),
{
    if values.len() == 0 || !float::finite32(values[0]) {
        0
    } else {
        1 + first_non_finite(values.skip(1))
    }
}

/// Append components, least significant byte first.
pub fn push_components(out: &mut Vec<u8>, values: &[u32])
    ensures
        final(out)@ == old(out)@ + component_bytes(values@),
{
    let mut i: usize = 0;
    assert(out@ + component_bytes(values@.take(0)) =~= out@);
    while i < values.len()
        invariant
            i <= values@.len(),
            out@ == old(out)@ + component_bytes(values@.take(i as int)),
        decreases values.len() - i,
    {
        le::push_le(out, values[i] as u64, 4);
        proof {
            let next = values@.take(i + 1);
            assert(next.drop_last() =~= values@.take(i as int));
            assert(out@ =~= old(out)@ + component_bytes(next));
        }
        i += 1;
    }
    assert(values@.take(i as int) =~= values@);
}

/// The position of the first component that is a NaN or an infinity.
pub fn find_non_finite(values: &[u32]) -> (r: Option<usize>)
    ensures
        match r {
            Some(i) => i == first_non_finite(values@) && i < values@.len(),
            None => first_non_finite(values@) == values@.len(),
        },
{
    let mut i: usize = 0;
    assert(values@.skip(0) =~= values@);
    while i < values.len()
        invariant
            i <= values@.len(),
            first_non_finite(values@) == i + first_non_finite(values@.skip(i as int)),
        decreases values.len() - i,
    {
        if !float::is_finite32(values[i]) {
            return Some(i);
        }
        assert(values@.skip(i as int).skip(1) =~= values@.skip(i + 1));
        i += 1;
    }
    None
}

/// Builds a `.vec` file.
#[derive(Debug)]
pub struct VectorBlockWriter {
    dimension: u32,
    stride: usize,
    rows: u32,
    data: Vec<u8>,
}

/// A zero where the format does not allow one.
pub open spec fn zero_field(field: &'static str) -> FormatError {
    FormatError::Malformed { offset: 0, kind: MalformedKind::ZeroNotAllowed { field } }
}

/// A field at `offset` that contradicts the rest.
pub open spec fn inconsistent(offset: u64, field: &'static str) -> FormatError {
    FormatError::Malformed { offset, kind: MalformedKind::Inconsistent { field } }
}

impl VectorBlockWriter {
    /// Components per vector.
    pub closed spec fn spec_dimension(self) -> u32 {
        self.dimension
    }

    /// Bytes per row.
    pub closed spec fn spec_stride(self) -> usize {
        self.stride
    }

    /// How many rows the writer has counted.
    pub closed spec fn spec_rows(self) -> u32 {
        self.rows
    }

    /// The rows, one after the other.
    pub closed spec fn spec_data(self) -> Seq<u8> {
        self.data@
    }

    /// Start a block for vectors of `dimension` components at `stride` bytes each.
    ///
    /// # Errors
    /// [`MalformedKind::ZeroNotAllowed`] for a zero dimension or stride.
    pub fn new(dimension: u32, stride: usize) -> (r: Result<Self, FormatError>)
        ensures
            if dimension == 0 {
                r == Err::<Self, FormatError>(zero_field("dimension"))
            } else if stride == 0 {
                r == Err::<Self, FormatError>(zero_field("stride"))
            } else {
                r matches Ok(w) && w.spec_dimension() == dimension && w.spec_stride() == stride
                    && w.spec_rows() == 0 && w.spec_data() == Seq::<u8>::empty()
            },
    {
        if dimension == 0 {
            return Err(
                FormatError::Malformed {
                    offset: 0,
                    kind: MalformedKind::ZeroNotAllowed { field: "dimension" },
                },
            );
        }
        if stride == 0 {
            return Err(
                FormatError::Malformed {
                    offset: 0,
                    kind: MalformedKind::ZeroNotAllowed { field: "stride" },
                },
            );
        }
        Ok(VectorBlockWriter { dimension, stride, rows: 0, data: Vec::new() })
    }

    /// Append one row's raw bytes, returning the row's index.
    ///
    /// # Errors
    /// [`MalformedKind::Inconsistent`] if the row is not exactly `stride` bytes.
    pub fn push_row(&mut self, row: &[u8]) -> (r: Result<u32, FormatError>)
        ensures
            final(self).spec_dimension() == old(self).spec_dimension(),
            final(self).spec_stride() == old(self).spec_stride(),
            if row@.len() == old(self).spec_stride() {
                &&& r == Ok::<u32, FormatError>(old(self).spec_rows())
                &&& final(self).spec_data() == old(self).spec_data() + row@
                &&& final(self).spec_rows() == if old(self).spec_rows() == u32::MAX {
                    u32::MAX as int
                } else {
                    old(self).spec_rows() + 1
                }
            } else {
                &&& r == Err::<u32, FormatError>(
                    inconsistent(old(self).spec_data().len() as u64, "row stride"),
                )
                &&& final(self).spec_data() == old(self).spec_data()
                &&& final(self).spec_rows() == old(self).spec_rows()
            },
    {
        if row.len() != self.stride {
            return Err(
                FormatError::Malformed {
                    offset: self.data.len() as u64,
                    kind: MalformedKind::Inconsistent { field: "row stride" },
                },
            );
        }
        let index: u32 = self.rows;
        let mut copy = slice_to_vec(row);
        self.data.append(&mut copy);
        self.rows = self.rows.saturating_add(1);
        Ok(index)
    }

    /// Append one row of 32-bit float components, given as their bits.
    ///
    /// # Errors
    /// [`MalformedKind::Inconsistent`] for the wrong dimension, or
    /// [`MalformedKind::NonFiniteFloat`] for a NaN or infinite component. One such component
    /// would poison every distance computed against that row.
    pub fn push_f32(&mut self, values: &[u32]) -> (r: Result<u32, FormatError>)
        ensures
            final(self).spec_dimension() == old(self).spec_dimension(),
            final(self).spec_stride() == old(self).spec_stride(),
            if values@.len() != old(self).spec_dimension() {
                &&& r == Err::<u32, FormatError>(
                    inconsistent(old(self).spec_data().len() as u64, "dimension"),
                )
                &&& *final(self) == *old(self)
            } else if first_non_finite(values@) < values@.len() {
                &&& r == Err::<u32, FormatError>(
                    FormatError::Malformed {
                        offset: first_non_finite(values@) as u64,
                        kind: MalformedKind::NonFiniteFloat,
                    },
                )
                &&& *final(self) == *old(self)
            } else if component_bytes(values@).len() != old(self).spec_stride() {
                &&& r == Err::<u32, FormatError>(
                    inconsistent(old(self).spec_data().len() as u64, "row stride"),
                )
                &&& final(self).spec_data() == old(self).spec_data()
                &&& final(self).spec_rows() == old(self).spec_rows()
            } else {
                &&& r == Ok::<u32, FormatError>(old(self).spec_rows())
                &&& final(self).spec_data() == old(self).spec_data() + component_bytes(values@)
                &&& final(self).spec_rows() == if old(self).spec_rows() == u32::MAX {
                    u32::MAX as int
                } else {
                    old(self).spec_rows() + 1
                }
            },
    {
        if values.len() as u64 != self.dimension as u64 {
            return Err(
                FormatError::Malformed {
                    offset: self.data.len() as u64,
                    kind: MalformedKind::Inconsistent { field: "dimension" },
                },
            );
        }
        if let Some(pos) = find_non_finite(values) {
            return Err(
                FormatError::Malformed {
                    offset: pos as u64,
                    kind: MalformedKind::NonFiniteFloat,
                },
            );
        }
        let mut row: Vec<u8> = Vec::new();
        push_components(&mut row, values);
        assert(row@ =~= component_bytes(values@));
        self.push_row(row.as_slice())
    }

    /// Rows written so far.
    pub fn rows(&self) -> (r: u32)
        ensures
            r == self.spec_rows(),
    {
        self.rows
    }

    /// Finish the file.
    pub fn finish(self) -> (r: Vec<u8>)
        ensures
            r@ == vector_file_bytes(self.spec_data()),
    {
        // The payload counts the padding as well as the data, so the header alone describes the
        // whole extent of the file.
        let mut payload = Writer::new();
        payload.reserved(VECTOR_PAD);
        payload.raw(self.data.as_slice());
        assert(payload@ =~= cursor::zeros(32) + self.data@);
        block::encode_block(FileKind::Vectors, payload.as_slice())
    }
}

/// The bytes of a `.vec` file.
pub open spec fn vector_file_bytes(data: Seq<u8>) -> Seq<u8> {
    block::block_bytes(FileKind::Vectors, cursor::zeros(32) + data)
}

/// The vector data of a `.vec` file with rows of `stride` bytes, or why it cannot be read.
pub open spec fn vector_data(b: Seq<u8>, stride: int) -> Result<Seq<u8>, FormatError> {
    if stride == 0 {
        Err(zero_field("stride"))
    } else {
        match block::opened(b, FileKind::Vectors) {
            Ok(p) => if p.len() < VECTOR_PAD {
                Err(
                    FormatError::Truncated {
                        offset: HEADER_LEN as u64,
                        needed: VECTOR_PAD as u64,
                        available: p.len() as u64,
                    },
                )
            } else if (p.len() - VECTOR_PAD) % stride != 0 {
                Err(inconsistent(VECTOR_DATA_OFFSET as u64, "vector data length"))
            } else if (p.len() - VECTOR_PAD) / stride > u32::MAX {
                Err(inconsistent(0, "row count"))
            } else {
                Ok(p.skip(VECTOR_PAD as int))
            },
            Err(e) => Err(e),
        }
    }
}

/// Read-only view over a `.vec` file.
///
/// Opening does not verify the payload checksum, because that would mean reading the entire file,
/// which for a large collection is the whole database.
#[derive(Debug, Clone, Copy)]
pub struct VectorBlock<'a> {
    data: &'a [u8],
    stride: usize,
    rows: u32,
}

impl<'a> VectorBlock<'a> {
    /// The rows, one after the other.
    pub closed spec fn spec_data(self) -> Seq<u8> {
        self.data@
    }

    /// Bytes per row.
    pub closed spec fn spec_stride(self) -> int {
        self.stride as int
    }

    /// How many rows there are.
    pub open spec fn spec_rows(self) -> int {
        self.spec_data().len() as int / self.spec_stride()
    }

    /// A whole number of rows, counted.
    pub closed spec fn wf(self) -> bool {
        &&& self.stride > 0
        &&& self.data@.len() == self.rows * self.stride
    }

    /// Open a `.vec` file whose rows are `stride` bytes each.
    ///
    /// # Errors
    /// Any [`FormatError`]; in particular [`MalformedKind::Inconsistent`] if the data length is
    /// not a whole number of rows.
    pub fn open(bytes: &'a [u8], stride: usize) -> (r: Result<Self, FormatError>)
        ensures
            match vector_data(bytes@, stride as int) {
                Ok(d) => r matches Ok(v) && v.wf() && v.spec_data() == d && v.spec_stride()
                    == stride,
                Err(e) => r == Err::<Self, FormatError>(e),
            },
    {
        if stride == 0 {
            return Err(
                FormatError::Malformed {
                    offset: 0,
                    kind: MalformedKind::ZeroNotAllowed { field: "stride" },
                },
            );
        }
        let payload = match block::open_block(bytes, FileKind::Vectors) {
            Ok(p) => p,
            Err(e) => {
                return Err(e);
            },
        };
        if payload.len() < VECTOR_PAD {
            return Err(
                FormatError::Truncated {
                    offset: HEADER_LEN as u64,
                    needed: VECTOR_PAD as u64,
                    available: payload.len() as u64,
                },
            );
        }
        let data = slice_subrange(payload, VECTOR_PAD, payload.len());
        assert(data@ =~= payload@.skip(32));
        if data.len() % stride != 0 {
            return Err(
                FormatError::Malformed {
                    offset: VECTOR_DATA_OFFSET as u64,
                    kind: MalformedKind::Inconsistent { field: "vector data length" },
                },
            );
        }
        let rows: usize = data.len() / stride;
        if rows as u64 > u32::MAX as u64 {
            return Err(
                FormatError::Malformed {
                    offset: 0,
                    kind: MalformedKind::Inconsistent { field: "row count" },
                },
            );
        }
        proof {
            vstd::arithmetic::div_mod::lemma_fundamental_div_mod(
                data@.len() as int,
                stride as int,
            );
            let n = rows as int;
            let k = stride as int;
            assert(k * n == n * k) by (nonlinear_arith);
        }
        Ok(VectorBlock { data, stride, rows: rows as u32 })
    }

    /// Verify the block's checksum. Called by a checksum verification, not on open.
    ///
    /// # Errors
    /// [`FormatError::ChecksumMismatch`], or whatever keeps the block from being located.
    pub fn verify(bytes: &[u8]) -> (r: Result<(), FormatError>)
        ensures
            match block::decoded(bytes@, FileKind::Vectors) {
                Ok(_) => r == Ok::<(), FormatError>(()),
                Err(e) => r == Err::<(), FormatError>(e),
            },
    {
        block::verify_block(bytes, FileKind::Vectors)
    }

    /// Rows in the block.
    pub fn rows(&self) -> (r: u32)
        requires
            self.wf(),
        ensures
            r == self.spec_rows(),
    {
        proof {
            self.lemma_rows();
        }
        self.rows
    }

    proof fn lemma_rows(self)
        requires
            self.wf(),
        ensures
            self.spec_rows() == self.rows,
            self.spec_stride() > 0,
    {
        vstd::arithmetic::div_mod::lemma_div_multiples_vanish(
            self.rows as int,
            self.stride as int,
        );
        let n = self.rows as int;
        let k = self.stride as int;
        assert(k * n == n * k) by (nonlinear_arith);
    }

    /// Whether the block holds no rows.
    pub fn is_empty(&self) -> (r: bool)
        requires
            self.wf(),
        ensures
            r == (self.spec_rows() == 0),
    {
        self.rows() == 0
    }

    /// Raw bytes of one row, or `None` if the index is out of range.
    pub fn row(&self, index: u32) -> (r: Option<&'a [u8]>)
        requires
            self.wf(),
        ensures
            if index < self.spec_rows() {
                r matches Some(b) && b@ == row_bytes(
                    self.spec_data(),
                    self.spec_stride(),
                    index as int,
                )
            } else {
                r is None
            },
    {
        proof {
            self.lemma_rows();
        }
        if index >= self.rows {
            return None;
        }
        proof {
            let i = index as int;
            let n = self.rows as int;
            let k = self.stride as int;
            assert(i * k + k <= n * k) by (nonlinear_arith)
                requires
                    0 <= i < n,
                    0 < k,
            ;
            assert(0 <= i * k) by (nonlinear_arith)
                requires
                    0 <= i,
                    0 < k,
            ;
            assert(self.data.len() == self.data@.len());
        }
        let start: usize = index as usize * self.stride;
        Some(slice_subrange(self.data, start, start + self.stride))
    }

    /// The components of one row as their bits, or `None` if the index is out of range. Bytes
    /// after the last whole component are left out.
    pub fn row_f32(&self, index: u32) -> (r: Option<Vec<u32>>)
        requires
            self.wf(),
        ensures
            if index < self.spec_rows() {
                r matches Some(v) && v@ == components(
                    row_bytes(self.spec_data(), self.spec_stride(), index as int),
                )
            } else {
                r is None
            },
    {
        match self.row(index) {
            Some(row) => Some(read_components(row)),
            None => None,
        }
    }

    /// The whole data region, for a sequential scan.
    pub fn data(&self) -> (r: &'a [u8])
        ensures
            r@ == self.spec_data(),
    {
        self.data
    }
}

/// The bytes of row `i` of data with rows of `stride` bytes.
pub open spec fn row_bytes(data: Seq<u8>, stride: int, i: int) -> Seq<u8> {
    data.subrange(i * stride, i * stride + stride)
}

/// The 32-bit components that a byte string holds.
pub open spec fn components(b: Seq<u8>) -> Seq<u32> {
    Seq::new(b.len() / 4, |i: int| le::un_le(b.subrange(4 * i, 4 * i + 4)) as u32)
}

/// The 32-bit components that a byte string holds.
pub fn read_components(b: &[u8]) -> (r: Vec<u32>)
    ensures
        r@ == components(b@),
{
    let mut out: Vec<u32> = Vec::new();
    let n: usize = b.len() / 4;
    let mut i: usize = 0;
    assert(out@ =~= components(b@).take(0));
    while i < n
        invariant
            i <= n,
            n == b@.len() / 4,
            n == components(b@).len(),
            out@ == components(b@).take(i as int),
        decreases n - i,
    {
        assert(b.len() == b@.len());
        let c = slice_subrange(b, 4 * i, 4 * i + 4);
        proof {
            le::lemma_le_of_un_le(c@);
            le::lemma_pow256_values();
        }
        out.push(le::read_le(c) as u32);
        assert(components(b@).take(i + 1) =~= components(b@).take(i as int).push(
            components(b@)[i as int],
        ));
        i += 1;
    }
    assert(components(b@).take(i as int) =~= components(b@));
    out
}

/// Components survive being written and read back.
pub proof fn lemma_components_round_trip(values: Seq<u32>)
    ensures
        component_bytes(values).len() == 4 * values.len(),
        components(component_bytes(values)) == values,
    decreases values.len(),
{
    let b = component_bytes(values);
    if values.len() > 0 {
        let front = values.drop_last();
        lemma_components_round_trip(front);
        le::lemma_le_fixed(values.last() as nat);
        assert forall|i: int| 0 <= i < values.len() implies #[trigger] components(b)[i]
            == values[i] by {
            if i < front.len() {
                assert(b.subrange(4 * i, 4 * i + 4) =~= component_bytes(front).subrange(
                    4 * i,
                    4 * i + 4,
                ));
                assert(components(component_bytes(front))[i] == front[i]);
            } else {
                assert(b.subrange(4 * i, 4 * i + 4) =~= le::le(values.last() as nat, 4));
            }
        }
        assert(components(b) =~= values);
    } else {
        assert(components(b) =~= values);
    }
}

/// The bytes of rows laid one after the other.
pub open spec fn joined_rows(rows: Seq<Seq<u8>>) -> Seq<u8>
    decreases rows.len(),
{
    if rows.len() == 0 {
        Seq::empty()
    } else {
        joined_rows(rows.drop_last()) + rows.last()
    }
}

proof fn lemma_joined_row(rows: Seq<Seq<u8>>, stride: int, i: int)
    requires
        stride > 0,
        0 <= i < rows.len(),
        forall|j: int| 0 <= j < rows.len() ==> (#[trigger] rows[j]).len() == stride,
    ensures
        joined_rows(rows).len() == rows.len() * stride,
        0 <= i * stride,
        i * stride + stride <= joined_rows(rows).len(),
        row_bytes(joined_rows(rows), stride, i) == rows[i],
    decreases rows.len(),
{
    let n = rows.len() - 1;
    let front = rows.drop_last();
    let all = joined_rows(rows);
    let head = joined_rows(front);
    assert((n + 1) * stride == n * stride + stride) by (nonlinear_arith);
    assert(head.len() == n * stride) by {
        if n > 0 {
            assert forall|j: int| 0 <= j < front.len() implies (#[trigger] front[j]).len()
                == stride by {
                assert(front[j] == rows[j]);
            }
            lemma_joined_row(front, stride, 0);
        } else {
            assert(0 * stride == 0) by (nonlinear_arith);
        }
    }
    assert(0 <= i * stride) by (nonlinear_arith)
        requires
            0 <= i,
            stride > 0,
    ;
    if i == n {
        assert(all.subrange(i * stride, i * stride + stride) =~= rows[i]);
    } else {
        assert forall|j: int| 0 <= j < front.len() implies (#[trigger] front[j]).len() == stride by {
            assert(front[j] == rows[j]);
        }
        lemma_joined_row(front, stride, i);
        assert(all.subrange(i * stride, i * stride + stride) =~= head.subrange(
            i * stride,
            i * stride + stride,
        ));
    }
}

/// What a `.vec` file was written from is what opening it gives, row by row.
pub proof fn lemma_vector_file_round_trip(rows: Seq<Seq<u8>>, stride: int, i: int)
    requires
        stride > 0,
        0 <= i < rows.len() <= u32::MAX,
        forall|j: int| 0 <= j < rows.len() ==> (#[trigger] rows[j]).len() == stride,
        joined_rows(rows).len() + VECTOR_PAD + HEADER_LEN + block::TRAILER_LEN <= usize::MAX,
    ensures
        vector_data(vector_file_bytes(joined_rows(rows)), stride) == Ok::<Seq<u8>, FormatError>(
            joined_rows(rows),
        ),
        joined_rows(rows).len() as int / stride == rows.len(),
        row_bytes(joined_rows(rows), stride, i) == rows[i],
{
    let data = joined_rows(rows);
    let payload = cursor::zeros(32) + data;
    let file = vector_file_bytes(data);
    lemma_joined_row(rows, stride, i);
    block::lemma_block_round_trip(FileKind::Vectors, payload, Seq::empty());
    assert(file + Seq::<u8>::empty() =~= file);
    assert(payload.skip(32) =~= data);
    let n = rows.len() as int;
    vstd::arithmetic::div_mod::lemma_div_multiples_vanish(n, stride);
    vstd::arithmetic::div_mod::lemma_mod_multiples_basic(n, stride);
    assert(n * stride == stride * n) by (nonlinear_arith);
}

} // verus!
