use vdb::format::block::encode_block;
use vdb::format::cursor::Writer;
use vdb::format::error::{FormatError, MalformedKind};
use vdb::format::header::FileKind;
use vdb::format::manifest::{CollectionEntry, Manifest, SegmentRef, Slot};
use vdb::format::slots::SlotStatus;

fn uuid() -> [u8; 16] {
    [7u8; 16]
}

fn entry(name: &str, segments: &[(u64, u32)]) -> CollectionEntry {
    let segments: Vec<SegmentRef> = segments
        .iter()
        .map(|&(id, rows)| SegmentRef {
            id,
            rows,
            del_generation: 0,
        })
        .collect();
    let total_rows = segments.iter().map(|s| u64::from(s.rows)).sum();
    CollectionEntry {
        name: name.into(),
        segments,
        index_snapshot: None,
        last_applied_wal: 0,
        live_count: total_rows,
        total_rows,
    }
}

fn sample() -> Manifest {
    Manifest {
        sequence: 42,
        db_uuid: uuid(),
        created_at_ms: 1_700_000_000_000,
        updated_at_ms: 1_700_000_500_000,
        collections: vec![
            entry("products", &[(1, 1000), (2, 512)]),
            CollectionEntry {
                index_snapshot: Some(9),
                last_applied_wal: 12_345,
                live_count: 40,
                ..entry("notes", &[(7, 64)])
            },
        ],
    }
}

#[test]
fn round_trips() {
    let m = sample();
    assert_eq!(Manifest::decode(&m.encode().unwrap()).unwrap(), m);
}

#[test]
fn an_empty_manifest_round_trips() {
    let m = Manifest::new(uuid(), 1);
    assert_eq!(Manifest::decode(&m.encode().unwrap()).unwrap(), m);
    assert_eq!(m.sequence, 1, "sequence 0 must never be a real manifest");
}

#[test]
fn collection_lookup_works() {
    let m = sample();
    assert_eq!(m.collection("notes").unwrap().live_count, 40);
    assert!(m.collection("absent").is_none());
}

// ---- slot selection: the part that decides whether a database opens at all ----

#[test]
fn the_higher_sequence_wins_regardless_of_slot() {
    let older = Manifest {
        sequence: 5,
        ..sample()
    }
    .encode()
    .unwrap();
    let newer = Manifest {
        sequence: 6,
        ..sample()
    }
    .encode()
    .unwrap();

    let scan = Manifest::scan_slots(Some(&older), Some(&newer));
    assert_eq!(scan.chosen.as_ref().unwrap().0, Slot::B);
    assert_eq!(scan.chosen.as_ref().unwrap().1.sequence, 6);
    assert_eq!(scan.next_slot(), Slot::A);

    let scan = Manifest::scan_slots(Some(&newer), Some(&older));
    assert_eq!(scan.chosen.as_ref().unwrap().0, Slot::A);
    assert_eq!(scan.next_slot(), Slot::B);
}

/// The crash-during-commit case: the half-written slot fails its checksum and the intact
/// older slot is used. This is the property the whole dual-slot design exists for.
#[test]
fn a_torn_slot_loses_to_an_intact_older_one() {
    let good = Manifest {
        sequence: 5,
        ..sample()
    }
    .encode()
    .unwrap();
    let mut torn = Manifest {
        sequence: 6,
        ..sample()
    }
    .encode()
    .unwrap();
    let mid = torn.len() / 2;
    torn.truncate(mid); // killed part-way through the write

    let scan = Manifest::scan_slots(Some(&good), Some(&torn));
    let (slot, m) = scan.chosen.as_ref().unwrap();
    assert_eq!(*slot, Slot::A);
    assert_eq!(m.sequence, 5);
    assert!(matches!(scan.b, SlotStatus::Invalid(_)));
    // The next commit overwrites the damaged slot, not the good one.
    assert_eq!(scan.next_slot(), Slot::B);
}

#[test]
fn a_corrupted_slot_loses_even_with_a_higher_sequence() {
    let good = Manifest {
        sequence: 5,
        ..sample()
    }
    .encode()
    .unwrap();
    let mut bad = Manifest {
        sequence: 99,
        ..sample()
    }
    .encode()
    .unwrap();
    let n = bad.len();
    bad[n / 2] ^= 0xFF; // bit rot in the payload

    let scan = Manifest::scan_slots(Some(&good), Some(&bad));
    assert_eq!(scan.chosen.as_ref().unwrap().1.sequence, 5);
}

#[test]
fn a_single_slot_is_enough() {
    let only = sample().encode().unwrap();
    let scan = Manifest::scan_slots(Some(&only), None);
    assert_eq!(scan.chosen.as_ref().unwrap().0, Slot::A);
    assert_eq!(scan.b, SlotStatus::Missing);
    assert_eq!(scan.next_slot(), Slot::B);

    let scan = Manifest::scan_slots(None, Some(&only));
    assert_eq!(scan.chosen.as_ref().unwrap().0, Slot::B);
    assert_eq!(scan.next_slot(), Slot::A);
}

#[test]
fn no_valid_slot_reports_why_for_both() {
    let scan = Manifest::scan_slots(None, Some(b"garbage bytes here"));
    assert!(scan.chosen.is_none());
    assert_eq!(scan.a.describe(), "missing");
    assert!(scan.b.describe().contains("magic"), "{}", scan.b.describe());
    // A fresh database, and a repaired one, both start at slot A.
    assert_eq!(scan.next_slot(), Slot::A);
}

#[test]
fn equal_sequences_resolve_deterministically() {
    let a = sample().encode().unwrap();
    let b = sample().encode().unwrap();
    let first = Manifest::scan_slots(Some(&a), Some(&b));
    let second = Manifest::scan_slots(Some(&a), Some(&b));
    assert_eq!(first.chosen.as_ref().unwrap().0, Slot::A);
    assert_eq!(first, second);
}

#[test]
fn slots_alternate() {
    assert_eq!(Slot::A.other(), Slot::B);
    assert_eq!(Slot::B.other(), Slot::A);
    assert_eq!(Slot::A.file_name(), "MANIFEST-A");
    assert_eq!(Slot::B.file_name(), "MANIFEST-B");
}

// ---- invariants ----

#[test]
fn duplicate_collection_names_are_rejected() {
    let m = Manifest {
        collections: vec![entry("dup", &[(1, 1)]), entry("dup", &[(2, 1)])],
        ..sample()
    };
    assert!(matches!(
        m.encode(),
        Err(FormatError::Malformed {
            kind: MalformedKind::DuplicateKey,
            ..
        })
    ));
}

#[test]
fn out_of_order_segments_are_rejected() {
    let m = Manifest {
        collections: vec![entry("c", &[(5, 1), (2, 1)])],
        ..sample()
    };
    assert!(matches!(
        m.encode(),
        Err(FormatError::Malformed {
            kind: MalformedKind::Inconsistent {
                field: "segment order"
            },
            ..
        })
    ));
}

#[test]
fn counts_that_disagree_with_the_segments_are_rejected() {
    let mut c = entry("c", &[(1, 10)]);
    c.total_rows = 99;
    let m = Manifest {
        collections: vec![c],
        ..sample()
    };
    assert!(m.encode().is_err());

    let mut c = entry("c", &[(1, 10)]);
    c.live_count = 11;
    let m = Manifest {
        collections: vec![c],
        ..sample()
    };
    assert!(m.encode().is_err());
}

#[test]
fn a_manifest_claiming_a_billion_collections_is_refused_before_allocating() {
    let mut w = Writer::new();
    w.u64(1);
    w.raw(&uuid());
    w.u64(0);
    w.u64(0);
    w.varint(1_000_000_000);
    let block = encode_block(FileKind::Manifest, w.as_slice());
    assert!(matches!(
        Manifest::decode(&block),
        Err(FormatError::LengthExceedsInput { .. })
    ));
}

#[test]
fn manifest_truncation_at_every_length_is_an_error() {
    let bytes = sample().encode().unwrap();
    for len in 0..bytes.len() {
        assert!(
            Manifest::decode(&bytes[..len]).is_err(),
            "{len} bytes decoded"
        );
    }
}

#[test]
fn every_single_bit_flip_is_detected() {
    let bytes = sample().encode().unwrap();
    for byte in 0..bytes.len() {
        for bit in 0..8 {
            let mut mutated = bytes.clone();
            mutated[byte] ^= 1u8 << bit;
            assert!(
                Manifest::decode(&mutated).is_err(),
                "flip at byte {byte} bit {bit} slipped through"
            );
        }
    }
}

#[test]
fn manifest_arbitrary_bytes_never_panic() {
    let mut seed = 0x1111_2222_3333_4444u64;
    for _ in 0..20_000 {
        seed ^= seed << 13;
        seed ^= seed >> 7;
        seed ^= seed << 17;
        let len = (seed % 120) as usize;
        let bytes: Vec<u8> = (0..len).map(|i| (seed >> (i % 56)) as u8).collect();
        let _ = Manifest::decode(&bytes);
        let _ = Manifest::scan_slots(Some(&bytes), None);
    }
}
