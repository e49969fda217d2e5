use vdb::api::config::{CollectionSpec, DatabaseConfig};
use vdb::api::uuid::new_uuid;
use vdb::error::{DbError, ValidationError};
use vdb::format::catalog::{Catalog, IdKind, IndexSpec, Metric, VectorDType};
use vdb::format::value::{Value, ValueMap};
use vdb::metadata::Metadata;
use vdb::persistence::catalog::{read_catalog, write_catalog};
use vdb::persistence::index_snapshot::StoredSnapshots;
use vdb::persistence::Durability;

fn catalog() -> Catalog {
    Catalog {
        name: "docs".to_owned(),
        dimension: 3,
        metric: Metric::L2,
        dtype: VectorDType::F32,
        id_kind: IdKind::Str { max_len: 64 },
        index: IndexSpec::Flat,
        created_at_ms: 1_000,
    }
}

#[test]
fn a_catalog_reads_back_what_was_written() {
    let pending = write_catalog(&catalog()).unwrap();
    assert_eq!(pending.path.as_str(), "collections/docs/catalog");
    assert_eq!(
        read_catalog("docs", &Some(pending.bytes.clone())).unwrap(),
        catalog()
    );
    assert_eq!(catalog().row_stride(), 12);

    let mut damaged = pending.bytes;
    let last = damaged.len() - 1;
    damaged[last] ^= 1;
    let e = read_catalog("docs", &Some(damaged)).unwrap_err();
    assert!(e.is_corruption(), "{e:?}");
    assert!(read_catalog("docs", &None).is_err());
}

#[test]
fn a_specification_matches_only_its_own_shape() {
    let spec = CollectionSpec::new("docs", 3, Metric::L2);
    assert!(spec.validate().is_ok());
    let made = spec.catalog(5);
    assert_eq!(made.created_at_ms, 5);
    assert!(spec.matches(&made));
    assert!(!CollectionSpec::new("docs", 4, Metric::L2).matches(&made));
    assert!(!CollectionSpec::new("docs", 3, Metric::Dot).matches(&made));
    assert!(!CollectionSpec::new("docs", 3, Metric::L2)
        .with_u64_ids()
        .matches(&made));
    assert!(matches!(
        CollectionSpec::new("docs", 65_537, Metric::L2).validate(),
        Err(DbError::Validation(ValidationError::InvalidDimension {
            dimension: 65_537,
            max: 65_536
        }))
    ));
}

#[test]
fn defaults_are_what_most_applications_want() {
    let config = DatabaseConfig::default();
    assert!(config.create_if_missing);
    assert!(!config.read_only);
    assert_eq!(config.durability, Durability::Batch);
    assert_eq!(config.flush_threshold_bytes, 8 * 1024 * 1024);
    assert!(!config.read_only(true).create_if_missing);
    let e = config
        .read_only(true)
        .create_if_missing(true)
        .validate()
        .unwrap_err();
    assert_eq!(e.code().0, 1002);
}

#[test]
fn durability_says_when_to_sync() {
    assert!(Durability::Full.syncs_every_write());
    assert!(!Durability::Batch.syncs_every_write());
    assert!(Durability::Batch.syncs_on_commit());
    assert!(!Durability::Relaxed.syncs_on_commit());
    assert_eq!(Durability::default(), Durability::Batch);
}

#[test]
fn a_snapshot_round_trips_and_a_damaged_one_is_no_snapshot() {
    let slot = StoredSnapshots::new("docs", "flat");
    let pending = slot.store(b"graph").unwrap();
    assert_eq!(pending.path.as_str(), slot.path().unwrap().as_str());
    assert_eq!(slot.load(Some(&pending.bytes)), Some(b"graph".to_vec()));
    assert_eq!(slot.load(None), None);
    assert_eq!(slot.load(Some(&[])), None);
    for len in 0..pending.bytes.len() {
        assert_eq!(slot.load(Some(&pending.bytes[..len])), None, "cut at {len}");
    }
    for i in 0..pending.bytes.len() {
        let mut damaged = pending.bytes.clone();
        damaged[i] ^= 0x10;
        assert_eq!(slot.load(Some(&damaged)), None, "flip at {i}");
    }
}

#[test]
fn databases_made_in_the_same_millisecond_still_differ() {
    assert_eq!(new_uuid(1_000, 0), new_uuid(1_000, 0));
    assert_ne!(new_uuid(1_000, 0), new_uuid(1_000, 1));
    assert_ne!(new_uuid(1_000, 0), new_uuid(1_001, 0));
    let mixed = 1_000u64
        .wrapping_mul(0x9E37_79B9_7F4A_7C15)
        .rotate_left(31)
        .wrapping_add(2u64.wrapping_mul(0xBF58_476D_1CE4_E5B9));
    let id = new_uuid(1_000, 2);
    assert_eq!(id[..8], 1_000u64.to_le_bytes());
    assert_eq!(id[8..], mixed.to_le_bytes());
}

#[test]
fn metadata_is_bounded_in_depth_and_size() {
    let mut deep = Value::Null;
    for _ in 0..16 {
        deep = Value::Array(vec![deep]);
    }
    let mut m = Metadata::new();
    m.insert("deep", deep);
    assert!(matches!(
        m.validate(),
        Err(DbError::Validation(ValidationError::MetadataDepthExceeded {
            depth: 18,
            max: 16
        }))
    ));

    let mut m = Metadata::new();
    m.insert("big", Value::Bytes(vec![0; 1_048_577]));
    assert!(matches!(
        m.validate(),
        Err(DbError::Validation(ValidationError::MetadataTooLarge { .. }))
    ));

    let mut m = Metadata::new();
    m.insert("bad", Value::F64(f64::NAN.to_bits()));
    assert!(m.validate().is_err());
}

#[test]
fn metadata_round_trips_and_is_reached_by_path() {
    let mut user = ValueMap::new();
    user.insert("plan".to_owned(), Value::Str("pro".to_owned()));
    let mut m = Metadata::new();
    m.insert("user", Value::Object(user));
    m.insert("count", Value::I64(1));
    m.insert("count", Value::I64(2));
    assert_eq!(m.len(), 2);
    assert_eq!(m.get("count"), Some(&Value::I64(2)));
    assert_eq!(
        m.get_path("user.plan"),
        Some(&Value::Str("pro".to_owned()))
    );
    assert_eq!(m.get_path("count.plan"), None);
    assert_eq!(Metadata::decode(&m.encode().unwrap()).unwrap(), m);
}
