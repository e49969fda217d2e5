use vdb::document::{DocId, DocumentInput, Include, RowId};
use vdb::error::{DbError, IdRejection, ValidationError};
use vdb::format::catalog::IdKind;
use vdb::validation::{MAX_CONTENT_BYTES, MAX_DOC_ID_LEN};
use vdb::vector::VectorView;

#[test]
fn row_ids_pack_and_unpack() {
    for (segment, row) in [
        (0u32, 0u32),
        (1, 0),
        (0, 1),
        (7, 12_345),
        (u32::MAX, u32::MAX),
    ] {
        let id = RowId::new(segment, row);
        assert_eq!(id.segment(), segment, "segment for ({segment}, {row})");
        assert_eq!(id.row(), row, "row for ({segment}, {row})");
        assert_eq!(RowId::from_u64(id.as_u64()), id);
    }
}

/// Row ids must sort by segment and then by row, so a scan in id order is a sequential read.
#[test]
fn row_ids_sort_by_segment_then_row() {
    let mut ids = vec![
        RowId::new(2, 0),
        RowId::new(0, 5),
        RowId::new(1, 100),
        RowId::new(0, 1),
        RowId::new(1, 2),
    ];
    ids.sort_unstable();
    assert_eq!(
        ids,
        vec![
            RowId::new(0, 1),
            RowId::new(0, 5),
            RowId::new(1, 2),
            RowId::new(1, 100),
            RowId::new(2, 0),
        ]
    );
}

#[test]
fn doc_ids_round_trip_through_bytes() {
    let s = DocId::Str("doc-1".into());
    assert_eq!(
        DocId::from_bytes(IdKind::Str { max_len: 512 }, &s.to_bytes()).unwrap(),
        s
    );

    let n = DocId::U64(u64::MAX);
    assert_eq!(DocId::from_bytes(IdKind::U64, &n.to_bytes()).unwrap(), n);
    assert_eq!(n.to_bytes().len(), 8);
}

#[test]
fn invalid_utf8_is_not_a_string_id() {
    assert!(matches!(
        DocId::from_bytes(IdKind::Str { max_len: 512 }, &[0xFF, 0xFE]),
        Err(DbError::Validation(ValidationError::InvalidDocumentId {
            reason: IdRejection::NotUtf8,
            ..
        }))
    ));
}

#[test]
fn a_u64_id_must_be_exactly_eight_bytes() {
    assert!(DocId::from_bytes(IdKind::U64, &[0u8; 7]).is_err());
    assert!(DocId::from_bytes(IdKind::U64, &[0u8; 9]).is_err());
    assert!(DocId::from_bytes(IdKind::U64, &[0u8; 8]).is_ok());
}

#[test]
fn empty_and_overlong_string_ids_are_rejected() {
    let kind = IdKind::Str { max_len: 512 };
    assert!(matches!(
        DocId::Str(String::new()).validate(kind),
        Err(DbError::Validation(ValidationError::InvalidDocumentId {
            reason: IdRejection::Empty,
            ..
        }))
    ));

    let at_limit = DocId::Str("x".repeat(512));
    assert!(at_limit.validate(kind).is_ok());

    let over = DocId::Str("x".repeat(513));
    assert!(matches!(
        over.validate(kind),
        Err(DbError::Validation(ValidationError::InvalidDocumentId {
            reason: IdRejection::TooLong,
            ..
        }))
    ));
}

/// A NUL would truncate the id at every C boundary the bindings cross, and a newline would
/// corrupt any log line it appears in.
#[test]
fn control_characters_are_rejected_in_ids() {
    let kind = IdKind::Str { max_len: 512 };
    for bad in ["with\0nul", "with\nnewline", "with\ttab", "\u{7f}"] {
        assert!(
            DocId::Str(bad.to_owned()).validate(kind).is_err(),
            "{bad:?} should be rejected"
        );
    }
    // Ordinary non-ASCII is fine.
    DocId::Str("ünïcödé-🧭".into()).validate(kind).unwrap();
}

#[test]
fn the_collections_max_len_narrows_the_global_limit_but_cannot_widen_it() {
    let strict = IdKind::Str { max_len: 8 };
    assert!(DocId::Str("12345678".into()).validate(strict).is_ok());
    assert!(DocId::Str("123456789".into()).validate(strict).is_err());

    let attempted_widening = IdKind::Str { max_len: u32::MAX };
    let too_long = DocId::Str("x".repeat(MAX_DOC_ID_LEN + 1));
    assert!(
        too_long.validate(attempted_widening).is_err(),
        "a collection must not be able to exceed the engine's own limit"
    );
}

#[test]
fn an_id_of_the_wrong_kind_for_the_collection_is_rejected() {
    assert!(DocId::U64(1).validate(IdKind::Str { max_len: 64 }).is_err());
    assert!(DocId::Str("1".into()).validate(IdKind::U64).is_err());
}

#[test]
fn document_validation_covers_every_field() {
    let values = [1.0f32.to_bits(), 2.0f32.to_bits()];
    let kind = IdKind::Str { max_len: 64 };

    let ok = DocumentInput::new("doc", VectorView::floats(&values));
    ok.validate("c", 2, kind).unwrap();

    // Wrong dimension.
    assert!(DocumentInput::new("doc", VectorView::floats(&values))
        .validate("c", 3, kind)
        .is_err());
    // Bad id.
    assert!(DocumentInput::new("", VectorView::floats(&values))
        .validate("c", 2, kind)
        .is_err());
    // Non-finite component.
    let bad = [1.0f32.to_bits(), f32::NAN.to_bits()];
    assert!(DocumentInput::new("doc", VectorView::floats(&bad))
        .validate("c", 2, kind)
        .is_err());
    // Oversized content.
    let big = vec![0u8; MAX_CONTENT_BYTES + 1];
    assert!(DocumentInput::new("doc", VectorView::floats(&values))
        .with_content(&big)
        .validate("c", 2, kind)
        .is_err());
    // Content exactly at the limit is fine.
    let at_limit = vec![0u8; MAX_CONTENT_BYTES];
    DocumentInput::new("doc", VectorView::floats(&values))
        .with_content(&at_limit)
        .validate("c", 2, kind)
        .unwrap();
}

#[test]
fn include_defaults_to_metadata_only() {
    let d = Include::default();
    assert!(
        !d.vector,
        "vectors are the largest field and must be opt-in"
    );
    assert!(d.metadata);
    assert!(!d.content);
}
