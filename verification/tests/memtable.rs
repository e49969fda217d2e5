use vdb::document::DocId;
use vdb::format::catalog::VectorDType;
use vdb::format::value::Value;
use vdb::metadata::Metadata;
use vdb::vector::VectorView;
use vdb::write::memtable::{Lookup, Memtable};

/// The bits of a list of components.
fn bits(values: &[f32]) -> Vec<u32> {
    values.iter().map(|v| v.to_bits()).collect()
}

/// The bits of the reciprocal of the norm of a list of components, zero for the zero vector.
fn inv_norm(values: &[f32]) -> u32 {
    let n: f32 = values.iter().map(|v| v * v).sum::<f32>().sqrt();
    if n > 0.0 {
        (1.0 / n).to_bits()
    } else {
        0.0f32.to_bits()
    }
}

fn table() -> Memtable {
    Memtable::new(2, VectorDType::F32)
}

fn put(m: &mut Memtable, id: &str, v: [f32; 2]) {
    m.put_view(DocId::from(id), VectorView::floats(&bits(&v)), inv_norm(&v), None, None)
        .unwrap();
}

#[test]
fn an_empty_memtable_reports_itself_empty() {
    let m = table();
    assert!(m.is_empty());
    assert_eq!(m.len(), 0);
    assert_eq!(m.tombstones(), 0);
    assert!(m.live_rows().is_empty());
    assert!(m.get(&DocId::from("nope")).is_none());
}

#[test]
fn put_then_get_round_trips_including_the_vector_bytes() {
    let mut m = table();
    let mut meta = Metadata::new();
    meta.insert("k", Value::I64(7));
    m.put_view(
        DocId::from("a"),
        VectorView::floats(&bits(&[3.0, 4.0])),
        inv_norm(&[3.0, 4.0]),
        Some(meta.clone()),
        Some(b"content".to_vec()),
    )
    .unwrap();

    match m.get(&DocId::from("a")) {
        Some(Lookup::Present(row)) => {
            assert_eq!(row.id, DocId::from("a"));
            assert_eq!(row.metadata.as_ref(), Some(&meta));
            assert_eq!(row.content.as_deref(), Some(b"content".as_slice()));
            assert!(
                (f32::from_bits(row.inv_norm) - 0.2).abs() < 1e-6,
                "norm should be cached on write"
            );
            let bytes = m.vector_bytes(row).unwrap();
            assert_eq!(
                VectorView::raw(VectorDType::F32, bytes, 2)
                    .unwrap()
                    .to_f32(),
                bits(&[3.0, 4.0])
            );
        }
        other => panic!("expected Present, got {other:?}"),
    }
}

#[test]
fn overwriting_supersedes_without_growing_the_live_count() {
    let mut m = table();
    put(&mut m, "a", [1.0, 0.0]);
    put(&mut m, "a", [0.0, 1.0]);
    assert_eq!(m.len(), 1);
    assert_eq!(m.live_rows().len(), 1);

    match m.get(&DocId::from("a")) {
        Some(Lookup::Present(row)) => {
            let bytes = m.vector_bytes(row).unwrap();
            assert_eq!(
                VectorView::raw(VectorDType::F32, bytes, 2)
                    .unwrap()
                    .to_f32(),
                bits(&[0.0, 1.0]),
                "the later write must win"
            );
        }
        other => panic!("expected Present, got {other:?}"),
    }
}

/// A tombstone for a document the memtable never held is the case that matters: it shadows
/// a copy sitting in a segment underneath.
#[test]
fn deleting_an_unknown_document_still_records_a_tombstone() {
    let mut m = table();
    assert!(m.delete(DocId::from("never-seen")));
    assert_eq!(m.tombstones(), 1);
    assert_eq!(m.len(), 0);
    assert_eq!(m.get(&DocId::from("never-seen")), Some(Lookup::Deleted));
    assert_eq!(m.deleted_ids(), vec![&DocId::from("never-seen")]);
}

#[test]
fn deleting_twice_reports_no_further_change() {
    let mut m = table();
    put(&mut m, "a", [1.0, 1.0]);
    assert!(m.delete(DocId::from("a")));
    assert!(!m.delete(DocId::from("a")));
    assert_eq!(m.tombstones(), 1);
    assert_eq!(m.len(), 0);
    assert!(m.live_rows().is_empty());
}

#[test]
fn reinserting_a_deleted_document_clears_its_tombstone() {
    let mut m = table();
    put(&mut m, "a", [1.0, 0.0]);
    m.delete(DocId::from("a"));
    assert_eq!(m.tombstones(), 1);
    put(&mut m, "a", [0.0, 1.0]);
    assert_eq!(m.tombstones(), 0);
    assert_eq!(m.len(), 1);
    assert!(matches!(m.get(&DocId::from("a")), Some(Lookup::Present(_))));
}

/// Determinism: the same sequence of writes must always flush in the same order, or
/// segment bytes stop being reproducible.
#[test]
fn live_rows_are_returned_in_insertion_order_not_hash_order() {
    let ids: Vec<String> = (0..50).map(|i| format!("doc-{i:03}")).collect();
    let mut first = table();
    for id in &ids {
        first
            .put_view(
                DocId::from(id.clone()),
                VectorView::floats(&bits(&[1.0, 2.0])),
                inv_norm(&[1.0, 2.0]),
                None,
                None,
            )
            .unwrap();
    }
    let order: Vec<DocId> = first.live_rows().iter().map(|r| r.id.clone()).collect();
    let expected: Vec<DocId> = ids.iter().cloned().map(DocId::from).collect();
    assert_eq!(order, expected);

    // And the same again from a separately built table.
    let mut second = table();
    for id in &ids {
        second
            .put_view(
                DocId::from(id.clone()),
                VectorView::floats(&bits(&[1.0, 2.0])),
                inv_norm(&[1.0, 2.0]),
                None,
                None,
            )
            .unwrap();
    }
    let order2: Vec<DocId> = second.live_rows().iter().map(|r| r.id.clone()).collect();
    assert_eq!(order, order2);
}

#[test]
fn a_wrong_dimension_is_refused() {
    let mut m = table();
    assert!(m
        .put_view(DocId::from("a"), VectorView::floats(&bits(&[1.0])), inv_norm(&[1.0]), None, None)
        .is_err());
    assert!(m
        .put_bytes(DocId::from("a"), &[0u8; 4], 0, None, None)
        .is_err());
    assert!(m.put_bytes(DocId::from("a"), &[0u8; 8], 0, None, None).is_ok());
    assert_eq!(m.len(), 1);
}

#[test]
fn byte_size_grows_with_the_arena_and_resets_on_clear() {
    let mut m = table();
    let empty = m.byte_size();
    for i in 0..100 {
        put(&mut m, &format!("d{i}"), [1.0, 2.0]);
    }
    assert!(m.byte_size() > empty + 100 * 8);
    m.clear();
    assert_eq!(m.byte_size(), empty);
    assert!(m.is_empty());
}
