//! Vector representation.
//!
//! A [`VectorView`] borrows its data rather than owning it: nothing is copied until the bytes
//! reach the write-ahead log. Components are held as the bit patterns of 32-bit floats.
//!
//! Two variants rather than one because the two callers want different things: native code has
//! its components at hand and should not have to spell them as bytes, while a binding or a
//! segment file has raw bytes and should not have to decode them.
use vstd::prelude::*;
use vstd::slice::slice_to_vec;

use crate::error;
use crate::error::{DbError, ErrorModel, NonFiniteKind, ValidationError, ValidationModel};
use crate::float;
use crate::format::segment::vectors;
use crate::format::segment::vectors::{find_non_finite, push_components, read_components};
use crate::validation::MAX_DIMENSION;

pub use crate::format::catalog::VectorDType;

verus! {

/// A borrowed vector.
#[derive(Debug, Clone, Copy)]
pub enum VectorView<'a> {
    /// Native components, as their bits.
    F32(&'a [u32]),
    /// Raw bytes in a declared component type, as they arrive from a binding or a segment file.
    Raw {
        /// How the bytes are to be interpreted.
        dtype: VectorDType,
        /// The bytes themselves, as many as `dimension` components take.
        bytes: &'a [u8],
        /// Component count.
        dimension: u32,
    },
}

/// The error for a vector of the wrong dimension.
pub open spec fn wrong_dimension(collection: Seq<char>, expected: u32, actual: u32) -> ErrorModel {
    ErrorModel::Validation(
        ValidationModel::InvalidVectorDimension { collection, expected, actual },
    )
}

/// Which kind of non-finite number a pattern is.
pub open spec fn non_finite_kind(bits: u32) -> NonFiniteKind {
    if float::nan32(bits) {
        NonFiniteKind::Nan
    } else if bits < 0x8000_0000 {
        NonFiniteKind::PosInf
    } else {
        NonFiniteKind::NegInf
    }
}

/// Why components are refused, if they are: the first that is not finite.
pub open spec fn non_finite(values: Seq<u32>) -> Option<ErrorModel> {
    let i = vectors::first_non_finite(values);
    if i < values.len() {
        Some(
            ErrorModel::Validation(
                ValidationModel::InvalidVectorData {
                    reason: non_finite_kind(values[i as int]),
                    index: i as usize,
                },
            ),
        )
    } else {
        None
    }
}

impl<'a> VectorView<'a> {
    /// As many bytes as the components take, and no more components than can be counted.
    pub open spec fn wf(self) -> bool {
        match self {
            VectorView::F32(values) => values@.len() <= u32::MAX,
            VectorView::Raw { dtype, bytes, dimension } => bytes@.len() == dtype.stride(dimension),
        }
    }

    /// The bytes as stored.
    pub open spec fn stored(self) -> Seq<u8> {
        match self {
            VectorView::F32(values) => vectors::component_bytes(values@),
            VectorView::Raw { bytes, .. } => bytes@,
        }
    }

    /// The components.
    pub open spec fn components(self) -> Seq<u32> {
        match self {
            VectorView::F32(values) => values@,
            VectorView::Raw { bytes, .. } => vectors::components(bytes@),
        }
    }

    /// The component count.
    pub open spec fn spec_dimension(self) -> u32 {
        match self {
            VectorView::F32(values) => values@.len() as u32,
            VectorView::Raw { dimension, .. } => dimension,
        }
    }

    /// The component type.
    pub open spec fn spec_dtype(self) -> VectorDType {
        match self {
            VectorView::F32(_) => VectorDType::F32,
            VectorView::Raw { dtype, .. } => dtype,
        }
    }

    /// Why a vector is refused by a collection, if it is.
    pub open spec fn refused(self, collection: Seq<char>, expected: u32) -> Option<ErrorModel> {
        if self.spec_dimension() != expected {
            Some(wrong_dimension(collection, expected, self.spec_dimension()))
        } else {
            non_finite(self.components())
        }
    }

    /// A view over native components.
    pub fn floats(values: &'a [u32]) -> (r: Self)
        ensures
            r == VectorView::F32(values),
    {
        VectorView::F32(values)
    }

    /// A view over raw bytes.
    ///
    /// # Errors
    /// [`ValidationError::InvalidVectorDimension`] if the byte length is not exactly
    /// `dimension * component_size`.
    pub fn raw(dtype: VectorDType, bytes: &'a [u8], dimension: u32) -> (r: Result<Self, DbError>)
        ensures
            if bytes@.len() == dtype.stride(dimension) {
                r matches Ok(v) && v == (VectorView::Raw { dtype, bytes, dimension })
            } else {
                error::failed(
                    r,
                    wrong_dimension("<input>"@, dimension, (bytes@.len() / 4) as u32),
                )
            },
    {
        let expected: usize = dtype.row_stride(dimension);
        assert(bytes@.len() == bytes.len());
        if bytes.len() != expected {
            return Err(
                DbError::Validation(
                    ValidationError::InvalidVectorDimension {
                        collection: "<input>".to_owned(),
                        expected: dimension,
                        actual: (bytes.len() / dtype.component_size()) as u32,
                    },
                ),
            );
        }
        Ok(VectorView::Raw { dtype, bytes, dimension })
    }

    /// Component type.
    pub fn dtype(&self) -> (r: VectorDType)
        ensures
            r == self.spec_dtype(),
    {
        match self {
            VectorView::F32(_) => VectorDType::F32,
            VectorView::Raw { dtype, .. } => *dtype,
        }
    }

    /// Component count.
    pub fn dimension(&self) -> (r: u32)
        ensures
            r == self.spec_dimension(),
    {
        match self {
            VectorView::F32(values) => values.len() as u32,
            VectorView::Raw { dimension, .. } => *dimension,
        }
    }

    /// Whether the vector has no components.
    pub fn is_empty(&self) -> (r: bool)
        ensures
            r == (self.spec_dimension() == 0),
    {
        self.dimension() == 0
    }

    /// Bytes this vector occupies when stored.
    pub fn byte_len(&self) -> (r: usize)
        ensures
            r == self.spec_dtype().stride(self.spec_dimension()),
    {
        self.dtype().row_stride(self.dimension())
    }

    /// Append the stored representation to `out`.
    ///
    /// The single point where a vector is copied. Everything upstream of the log is borrowed.
    pub fn write_bytes(&self, out: &mut Vec<u8>)
        ensures
            final(out)@ == old(out)@ + self.stored(),
    {
        match self {
            VectorView::F32(values) => push_components(out, values),
            VectorView::Raw { bytes, .. } => {
                out.extend_from_slice(bytes);
                assert(out@ =~= old(out)@ + bytes@);
            },
        }
    }

    /// The stored representation as an owned buffer.
    pub fn to_bytes(&self) -> (r: Vec<u8>)
        ensures
            r@ == self.stored(),
    {
        let mut out: Vec<u8> = Vec::new();
        self.write_bytes(&mut out);
        assert(Seq::<u8>::empty() + self.stored() =~= self.stored());
        out
    }

    /// The components, decoding raw bytes if necessary.
    pub fn to_f32(&self) -> (r: Vec<u32>)
        ensures
            r@ == self.components(),
    {
        match self {
            VectorView::F32(values) => slice_to_vec(values),
            VectorView::Raw { bytes, .. } => read_components(bytes),
        }
    }

    /// Check that every component is finite.
    ///
    /// # Errors
    /// [`ValidationError::InvalidVectorData`] naming the position of the first offending
    /// component. One NaN poisons every distance computed against the row, and the resulting
    /// "search returns nothing sensible" is very hard to trace back to the insert that caused it.
    pub fn check_finite(&self) -> (r: Result<(), DbError>)
        ensures
            match non_finite(self.components()) {
                Some(e) => error::failed(r, e),
                None => r is Ok,
            },
    {
        let values = self.to_f32();
        match find_non_finite(values.as_slice()) {
            Some(index) => {
                let bits: u32 = values[index];
                let reason: NonFiniteKind = if bits % 0x8000_0000 > 0x7f80_0000 {
                    NonFiniteKind::Nan
                } else if bits < 0x8000_0000 {
                    NonFiniteKind::PosInf
                } else {
                    NonFiniteKind::NegInf
                };
                Err(DbError::Validation(ValidationError::InvalidVectorData { reason, index }))
            },
            None => Ok(()),
        }
    }

    /// Check the dimension against a collection's.
    ///
    /// # Errors
    /// [`ValidationError::InvalidVectorDimension`] naming the collection and both dimensions.
    pub fn check_dimension(&self, collection: &str, expected: u32) -> (r: Result<(), DbError>)
        ensures
            if self.spec_dimension() == expected {
                r is Ok
            } else {
                error::failed(r, wrong_dimension(collection@, expected, self.spec_dimension()))
            },
    {
        let actual: u32 = self.dimension();
        if actual != expected {
            return Err(
                DbError::Validation(
                    ValidationError::InvalidVectorDimension {
                        collection: collection.to_owned(),
                        expected,
                        actual,
                    },
                ),
            );
        }
        Ok(())
    }

    /// Full validation for a vector about to be written.
    ///
    /// # Errors
    /// As [`VectorView::check_dimension`] and [`VectorView::check_finite`].
    pub fn validate(&self, collection: &str, expected: u32) -> (r: Result<(), DbError>)
        ensures
            match self.refused(collection@, expected) {
                Some(e) => error::failed(r, e),
                None => r is Ok,
            },
    {
        match self.check_dimension(collection, expected) {
            Ok(()) => self.check_finite(),
            Err(e) => Err(e),
        }
    }
}

/// Check that a dimension is one a collection may be created with.
///
/// # Errors
/// [`ValidationError::InvalidDimension`] for zero or above [`MAX_DIMENSION`].
pub fn check_dimension(dimension: u32) -> (r: Result<(), DbError>)
    ensures
        if 0 < dimension <= MAX_DIMENSION {
            r is Ok
        } else {
            error::failed(
                r,
                ErrorModel::Validation(
                    ValidationModel::InvalidDimension { dimension, max: MAX_DIMENSION },
                ),
            )
        },
{
    if dimension == 0 || dimension > MAX_DIMENSION {
        return Err(
            DbError::Validation(
                ValidationError::InvalidDimension { dimension, max: MAX_DIMENSION },
            ),
        );
    }
    Ok(())
}

/// The bytes a vector is stored as read back as its components, whichever way it was given.
pub proof fn lemma_stored_components(v: VectorView<'_>)
    ensures
        vectors::components(v.stored()) == v.components(),
{
    if let VectorView::F32(values) = v {
        vectors::lemma_components_round_trip(values@);
    }
}

} // verus!
