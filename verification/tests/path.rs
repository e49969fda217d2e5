use vdb::error::{DbError, NameRejection, ValidationError};
use vdb::format::manifest::Slot;
use vdb::path::{DbPath, PathRejection};
use vdb::persistence::layout;
use vdb::persistence::layout::SegmentFile;
use vdb::validation::{check_batch_size, check_collection_name, check_top_k, MAX_BATCH_OPS, MAX_TOP_K};

#[test]
fn a_path_stays_inside_the_database() {
    assert_eq!(DbPath::parse("a/b").unwrap().as_str(), "a/b");
    assert_eq!(DbPath::parse(""), Err(PathRejection::Empty));
    assert_eq!(DbPath::parse("a//b"), Err(PathRejection::Empty));
    assert_eq!(DbPath::parse("/etc"), Err(PathRejection::Empty));
    assert_eq!(DbPath::parse(".."), Err(PathRejection::Relative));
    assert_eq!(DbPath::parse("a/../b"), Err(PathRejection::Relative));
    assert_eq!(DbPath::parse("a\\b"), Err(PathRejection::Separator));
    let long = "x".repeat(256);
    assert_eq!(DbPath::parse(&long), Err(PathRejection::TooLong));
    assert!(DbPath::parse(&long[..255]).is_ok());
}

#[test]
fn every_file_has_its_place() {
    assert_eq!(layout::manifest(Slot::A).unwrap().as_str(), "MANIFEST-A");
    assert_eq!(layout::collections_dir().unwrap().as_str(), "collections");
    assert_eq!(
        layout::segment_file("docs", 7, SegmentFile::Vectors)
            .unwrap()
            .as_str(),
        "collections/docs/segments/000007.vec"
    );
    assert_eq!(
        layout::segment_file("docs", 7, SegmentFile::Tombstones)
            .unwrap()
            .as_str(),
        "collections/docs/segments/000007.del"
    );
    assert_eq!(
        layout::wal_file("docs", 1).unwrap().as_str(),
        "collections/docs/wal/000001.wal"
    );
    assert!(matches!(
        layout::catalog(".."),
        Err(DbError::Validation(ValidationError::InvalidPath {
            reason: PathRejection::Relative,
            ..
        }))
    ));
}

#[test]
fn segment_ids_are_read_back_from_file_names() {
    let names: Vec<String> = ["000002.vec", "000001.dir", "000001.vec", "notes.txt", "x.vec"]
        .iter()
        .map(|n| n.to_string())
        .collect();
    assert_eq!(layout::list_segment_ids(&names), vec![1, 2]);
    assert_eq!(layout::segment_id_of("000012.meta"), Some(12));
    assert_eq!(layout::segment_id_of("000012.meta.tmp"), Some(12));
    assert_eq!(layout::segment_id_of("000012"), None, "no extension");
    assert_eq!(layout::segment_id_of("-1.vec"), None);
}

fn rejection(name: &str) -> NameRejection {
    match check_collection_name(name) {
        Err(DbError::Validation(ValidationError::InvalidCollectionName { reason, .. })) => reason,
        other => panic!("{name:?} gave {other:?}"),
    }
}

#[test]
fn a_collection_name_is_rejected_for_a_stated_reason() {
    assert!(check_collection_name("docs-2_b").is_ok());
    assert!(check_collection_name(&"x".repeat(64)).is_ok());
    assert_eq!(rejection(""), NameRejection::Empty);
    assert_eq!(rejection(&"x".repeat(65)), NameRejection::TooLong);
    assert_eq!(rejection(".."), NameRejection::Reserved);
    assert_eq!(rejection("a b"), NameRejection::IllegalCharacter);
    assert_eq!(rejection("café"), NameRejection::IllegalCharacter);
}

#[test]
fn limits_are_inclusive() {
    assert!(check_top_k(1).is_ok());
    assert!(check_top_k(MAX_TOP_K).is_ok());
    assert!(check_top_k(0).is_err());
    assert!(check_top_k(MAX_TOP_K + 1).is_err());
    assert!(check_batch_size(MAX_BATCH_OPS).is_ok());
    assert!(matches!(
        check_batch_size(MAX_BATCH_OPS + 1),
        Err(DbError::Validation(ValidationError::BatchTooLarge { .. }))
    ));
}
