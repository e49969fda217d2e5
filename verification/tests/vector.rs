use vdb::error::{DbError, NonFiniteKind, ValidationError};
use vdb::format::catalog::{VectorDType, MAX_DIMENSION};
use vdb::vector::{check_dimension, VectorView};

/// The bits of a list of components.
fn bits(values: &[f32]) -> Vec<u32> {
    values.iter().map(|v| v.to_bits()).collect()
}

/// The Euclidean norm of a list of components.
fn norm(view: &VectorView<'_>) -> f32 {
    let squares: f32 = view
        .to_f32()
        .iter()
        .map(|b| f32::from_bits(*b) * f32::from_bits(*b))
        .sum();
    squares.sqrt()
}


#[test]
fn f32_and_raw_views_agree() {
    let values = [1.0f32, -2.5, 3.25];
    let stored = bits(&values);
    let owned = VectorView::floats(&stored).to_bytes();
    let raw = VectorView::raw(VectorDType::F32, &owned, 3).unwrap();

    assert_eq!(raw.dimension(), 3);
    assert_eq!(raw.to_f32(), stored);
    assert_eq!(raw.to_bytes(), owned);
    assert_eq!(raw.byte_len(), 12);
    assert!((norm(&raw) - norm(&VectorView::floats(&stored))).abs() < 1e-6);
}

#[test]
fn raw_rejects_a_byte_length_that_is_not_a_whole_number_of_components() {
    assert!(VectorView::raw(VectorDType::F32, &[0u8; 11], 3).is_err());
    assert!(VectorView::raw(VectorDType::F32, &[0u8; 13], 3).is_err());
    assert!(VectorView::raw(VectorDType::F32, &[0u8; 12], 3).is_ok());
}

#[test]
fn an_empty_vector_is_representable_but_has_no_direction() {
    let v = VectorView::floats(&[]);
    assert!(v.is_empty());
    assert_eq!(v.dimension(), 0);
    assert_eq!(norm(&v), 0.0);
}

#[test]
fn check_finite_names_the_offending_component() {
    let v = [1.0f32, 2.0, f32::NAN, 4.0];
    match VectorView::floats(&bits(&v)).check_finite() {
        Err(DbError::Validation(ValidationError::InvalidVectorData { reason, index })) => {
            assert_eq!(reason, NonFiniteKind::Nan);
            assert_eq!(index, 2);
        }
        other => panic!("expected InvalidVectorData, got {other:?}"),
    }
}

#[test]
fn check_finite_distinguishes_the_infinities() {
    for (value, expected) in [
        (f32::INFINITY, NonFiniteKind::PosInf),
        (f32::NEG_INFINITY, NonFiniteKind::NegInf),
    ] {
        let v = [value];
        match VectorView::floats(&bits(&v)).check_finite() {
            Err(DbError::Validation(ValidationError::InvalidVectorData { reason, .. })) => {
                assert_eq!(reason, expected);
            }
            other => panic!("expected {expected:?}, got {other:?}"),
        }
    }
}

#[test]
fn finite_extremes_are_accepted() {
    let v = [f32::MIN, f32::MAX, 0.0, -0.0, f32::MIN_POSITIVE];
    VectorView::floats(&bits(&v)).check_finite().unwrap();
}

#[test]
fn dimension_mismatch_names_the_collection_and_both_dimensions() {
    let v = [1.0f32, 2.0];
    match VectorView::floats(&bits(&v)).check_dimension("products", 768) {
        Err(DbError::Validation(ValidationError::InvalidVectorDimension {
            collection,
            expected,
            actual,
        })) => {
            assert_eq!(collection, "products");
            assert_eq!(expected, 768);
            assert_eq!(actual, 2);
        }
        other => panic!("expected InvalidVectorDimension, got {other:?}"),
    }
}

#[test]
fn dimension_bounds_are_enforced_in_both_directions() {
    assert!(check_dimension(1).is_ok());
    assert!(check_dimension(MAX_DIMENSION).is_ok());
    assert!(check_dimension(0).is_err());
    assert!(check_dimension(MAX_DIMENSION + 1).is_err());
}

#[test]
fn write_bytes_is_little_endian_and_appends() {
    let mut out = vec![0xAAu8];
    VectorView::floats(&bits(&[1.0])).write_bytes(&mut out);
    assert_eq!(out, vec![0xAA, 0x00, 0x00, 0x80, 0x3F]);
}

#[test]
fn iter_f32_matches_to_f32_for_both_variants() {
    let values = [0.5f32, -1.5, 2.0, 100.0];
    let stored = bits(&values);
    let bytes = VectorView::floats(&stored).to_bytes();
    let raw = VectorView::raw(VectorDType::F32, &bytes, 4).unwrap();
    let read = |view: &VectorView<'_>| -> Vec<f32> {
        view.to_f32().iter().map(|b| f32::from_bits(*b)).collect()
    };
    assert_eq!(read(&raw), values.to_vec());
    assert_eq!(read(&VectorView::floats(&stored)), values.to_vec());
}
