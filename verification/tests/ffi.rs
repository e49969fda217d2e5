use vdb::api::search::{Hit, SearchResponse, SearchStats};
use vdb::document::DocId;
use vdb::error::DbError;
use vdb::ffi::filter::VdbFilter;
use vdb::ffi::results::VdbResults;
use vdb::ffi::{
    borrow_str, decode_id, durability_of, metric_of, open_config, status, vdb_abi_version,
    vdb_format_version, Boundary, VDB_INVALID_ARGUMENT, VDB_INVALID_UTF8, VDB_NULL_POINTER,
};
use vdb::filter::Filter;
use vdb::format::catalog::{IdKind, Metric};
use vdb::format::value::Value;
use vdb::index::IndexKind;
use vdb::persistence::Durability;

#[test]
fn versions_are_fixed() {
    assert_eq!(vdb_abi_version(), 1);
    assert_eq!(vdb_format_version(), 1);
}

#[test]
fn every_failure_has_its_status() {
    assert_eq!(status(&Boundary::Null), VDB_NULL_POINTER);
    assert_eq!(status(&Boundary::Utf8), VDB_INVALID_UTF8);
    assert_eq!(status(&Boundary::InvalidArgument), VDB_INVALID_ARGUMENT);
    assert_eq!(status(&Boundary::Db(DbError::Cancelled)), 9001);
}

#[test]
fn discriminants_outside_their_range_are_refused() {
    assert!(matches!(metric_of(1), Ok(Metric::Cosine)));
    assert!(matches!(metric_of(2), Ok(Metric::L2)));
    assert!(matches!(metric_of(3), Ok(Metric::Dot)));
    assert!(matches!(metric_of(0), Err(Boundary::InvalidArgument)));
    assert!(matches!(durability_of(1), Ok(Durability::Full)));
    assert!(matches!(durability_of(2), Ok(Durability::Batch)));
    assert!(matches!(durability_of(3), Ok(Durability::Relaxed)));
    assert!(matches!(durability_of(99), Err(Boundary::InvalidArgument)));
}

#[test]
fn a_read_only_handle_never_creates() {
    let config = open_config(true, true, 2).ok().unwrap();
    assert!(config.read_only);
    assert!(!config.create_if_missing);
    assert!(config.validate().is_ok());
    assert!(open_config(true, false, 2).ok().unwrap().create_if_missing);
    assert!(matches!(
        open_config(true, false, 0),
        Err(Boundary::InvalidArgument)
    ));
}

#[test]
fn strings_and_ids_are_decoded_as_declared() {
    assert!(matches!(borrow_str(b"docs"), Ok("docs")));
    assert!(matches!(borrow_str(&[0xff]), Err(Boundary::Utf8)));
    let text = IdKind::Str { max_len: 64 };
    assert_eq!(decode_id(text, b"a").ok(), Some(DocId::from("a")));
    assert_eq!(
        decode_id(IdKind::U64, &7u64.to_le_bytes()).ok(),
        Some(DocId::U64(7))
    );
    assert!(matches!(
        decode_id(IdKind::U64, b"short"),
        Err(Boundary::Db(_))
    ));
}

#[test]
fn a_filter_is_built_from_a_balanced_sequence() {
    let mut f = VdbFilter::default();
    assert!(f.finish().is_none());
    f.push_compare("category", 1, Value::Str("tools".to_owned()))
        .ok()
        .unwrap();
    f.push_compare("price", 5, Value::F64(50.0f64.to_bits()))
        .ok()
        .unwrap();
    assert_eq!(f.depth(), 2);
    assert!(f.finish().is_none(), "two expressions are no filter");
    f.combine(1, 2).ok().unwrap();
    assert_eq!(
        f.finish(),
        Some(&Filter::all(vec![
            Filter::eq("category", Value::Str("tools".to_owned())),
            Filter::lt("price", Value::F64(50.0f64.to_bits())),
        ]))
    );
    f.combine(3, 1).ok().unwrap();
    f.push_unary("archived", 1).ok().unwrap();
    f.combine(2, 2).ok().unwrap();
    assert_eq!(f.depth(), 1);
}

#[test]
fn a_malformed_sequence_is_refused() {
    let mut f = VdbFilter::default();
    assert!(matches!(f.combine(1, 0), Err(Boundary::InvalidArgument)));
    assert!(matches!(f.combine(1, 1), Err(Boundary::InvalidArgument)));
    assert!(f.push_compare("n", 7, Value::I64(1)).is_err());
    assert!(f.push_compare("n", 0, Value::I64(1)).is_err());
    assert!(f.push_unary("n", 3).is_err());
    f.push_unary("n", 2).ok().unwrap();
    f.push_unary("m", 2).ok().unwrap();
    assert!(matches!(f.combine(3, 2), Err(Boundary::InvalidArgument)));
    assert_eq!(f.depth(), 2);
}

#[test]
fn results_out_of_range_are_empty_rather_than_errors() {
    let hit = |id: DocId, score: f32| Hit {
        id,
        score: score.to_bits(),
        distance: None,
        document: None,
    };
    let r = VdbResults::new(SearchResponse {
        hits: vec![hit(DocId::from("east"), 0.9), hit(DocId::U64(7), 0.5)],
        stats: SearchStats {
            index_kind: IndexKind::Flat,
            exact: true,
            considered: 2,
            scanned: 2,
            skipped: 0,
        },
    });
    assert_eq!(r.len(), 2);
    assert_eq!(r.score(0), 0.9f32.to_bits());
    assert_eq!(r.id(0), Some(b"east".as_slice()));
    assert_eq!(r.id(1), Some(7u64.to_le_bytes().as_slice()));
    assert_eq!(r.score(99), 0.0f32.to_bits());
    assert_eq!(r.id(99), None);
}
