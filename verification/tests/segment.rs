use vdb::format::block::{encode_block, TRAILER_LEN};
use vdb::format::crc32c::crc32c;
use vdb::format::cursor::Writer;
use vdb::format::error::{FormatError, MalformedKind};
use vdb::format::header::{FileKind, HEADER_LEN};
use vdb::format::segment::directory::{Directory, DirectoryWriter, RowEntry, DIR_PREFIX_LEN};
use vdb::format::segment::meta::{MetaBlock, MetaRecord, MetaWriter};
use vdb::format::segment::tombstones::Tombstones;
use vdb::format::segment::vectors::{VectorBlock, VectorBlockWriter, VECTOR_DATA_OFFSET};
use vdb::format::value::{Value, ValueMap};

/// The components of a row, as the bits they are stored as.
fn bits(values: &[f32]) -> Vec<u32> {
    values.iter().map(|v| v.to_bits()).collect()
}

// ---- .vec ----

#[test]
fn vector_block_round_trips() {
    let mut w = VectorBlockWriter::new(3, 12).unwrap();
    w.push_f32(&bits(&[1.0, 2.0, 3.0])).unwrap();
    w.push_f32(&bits(&[-1.5, 0.0, 2.5])).unwrap();
    assert_eq!(w.rows(), 2);
    let bytes = w.finish();

    let block = VectorBlock::open(&bytes, 12).unwrap();
    assert_eq!(block.rows(), 2);
    assert_eq!(block.row_f32(0).unwrap(), bits(&[1.0, 2.0, 3.0]));
    assert_eq!(block.row_f32(1).unwrap(), bits(&[-1.5, 0.0, 2.5]));
    assert!(block.row(2).is_none());
    VectorBlock::verify(&bytes).unwrap();
}

#[test]
fn vector_data_starts_at_a_cache_line_boundary() {
    let mut w = VectorBlockWriter::new(1, 4).unwrap();
    w.push_f32(&bits(&[1.0])).unwrap();
    let bytes = w.finish();
    assert_eq!(
        &bytes[VECTOR_DATA_OFFSET..VECTOR_DATA_OFFSET + 4],
        &1.0f32.to_le_bytes()
    );
    assert!(bytes[HEADER_LEN as usize..VECTOR_DATA_OFFSET]
        .iter()
        .all(|&b| b == 0));
}

#[test]
fn an_empty_vector_block_is_valid() {
    let bytes = VectorBlockWriter::new(4, 16).unwrap().finish();
    let block = VectorBlock::open(&bytes, 16).unwrap();
    assert_eq!(block.rows(), 0);
    assert!(block.is_empty());
    assert!(block.row(0).is_none());
}

#[test]
fn non_finite_components_cannot_be_written() {
    let mut w = VectorBlockWriter::new(2, 8).unwrap();
    assert!(matches!(
        w.push_f32(&bits(&[1.0, f32::NAN])),
        Err(FormatError::Malformed {
            kind: MalformedKind::NonFiniteFloat,
            offset: 1
        })
    ));
    assert!(w.push_f32(&bits(&[1.0, f32::INFINITY])).is_err());
    assert_eq!(w.rows(), 0, "a rejected row must not be partially written");
}

#[test]
fn the_wrong_dimension_is_refused() {
    let mut w = VectorBlockWriter::new(3, 12).unwrap();
    assert!(w.push_f32(&bits(&[1.0, 2.0])).is_err());
    assert!(w.push_f32(&bits(&[1.0, 2.0, 3.0, 4.0])).is_err());
    assert!(w.push_row(&[0u8; 11]).is_err());
}

#[test]
fn a_zero_dimension_or_stride_is_refused() {
    assert!(VectorBlockWriter::new(0, 4).is_err());
    assert!(VectorBlockWriter::new(4, 0).is_err());
    let bytes = VectorBlockWriter::new(1, 4).unwrap().finish();
    assert!(VectorBlock::open(&bytes, 0).is_err());
}

/// A stride that does not divide the data means the file and the catalog disagree; reading
/// it anyway would silently return misaligned garbage as vectors.
#[test]
fn a_stride_mismatch_is_detected_rather_than_returning_garbage() {
    let mut w = VectorBlockWriter::new(3, 12).unwrap();
    w.push_f32(&bits(&[1.0, 2.0, 3.0])).unwrap();
    let bytes = w.finish();
    assert!(matches!(
        VectorBlock::open(&bytes, 8),
        Err(FormatError::Malformed {
            kind: MalformedKind::Inconsistent {
                field: "vector data length"
            },
            ..
        })
    ));
}

#[test]
fn vector_block_corruption_is_caught_by_verify_but_not_by_open() {
    let mut w = VectorBlockWriter::new(2, 8).unwrap();
    w.push_f32(&bits(&[1.0, 2.0])).unwrap();
    let mut bytes = w.finish();
    bytes[VECTOR_DATA_OFFSET] ^= 0xFF;
    assert!(VectorBlock::open(&bytes, 8).is_ok(), "open must stay cheap");
    assert!(VectorBlock::verify(&bytes).is_err(), "verify must catch it");
}

// ---- .dir ----

#[test]
fn directory_round_trips() {
    let mut w = DirectoryWriter::new();
    w.push(b"doc-one", 0, 10, 0.5f32.to_bits()).unwrap();
    w.push(b"", 10, 0, 1.0f32.to_bits()).unwrap();
    w.push(b"a-much-longer-document-id", 10, 42, 0.25f32.to_bits()).unwrap();
    assert_eq!(w.rows(), 3);
    let bytes = w.finish();

    let dir = Directory::open(&bytes).unwrap();
    assert_eq!(dir.rows(), 3);
    assert_eq!(dir.id(0).unwrap(), b"doc-one");
    assert_eq!(dir.id(1).unwrap(), b"");
    assert_eq!(dir.id(2).unwrap(), b"a-much-longer-document-id");
    let e = dir.entry(2).unwrap();
    assert_eq!(e.meta_offset, 10);
    assert_eq!(e.meta_len, 42);
    assert_eq!(e.inv_norm, 0.25f32.to_bits());
    assert!(dir.entry(3).is_none());
    assert!(dir.id(3).is_none());
}

#[test]
fn an_empty_directory_is_valid() {
    let bytes = DirectoryWriter::new().finish();
    let dir = Directory::open(&bytes).unwrap();
    assert_eq!(dir.rows(), 0);
    assert!(dir.is_empty());
    assert!(dir.entry(0).is_none());
}

#[test]
fn a_non_finite_norm_cannot_be_written() {
    let mut w = DirectoryWriter::new();
    assert!(w.push(b"x", 0, 0, f32::NAN.to_bits()).is_err());
}

/// A corrupt id range must be caught when the directory is opened, so later reads cannot
/// hand back bytes from an unrelated id.
#[test]
fn an_id_range_past_the_heap_is_rejected_on_open() {
    let mut w = DirectoryWriter::new();
    w.push(b"short", 0, 0, 1.0f32.to_bits()).unwrap();
    let mut bytes = w.finish();
    // id_len lives at entry offset 20 within the entry table.
    let id_len_at = HEADER_LEN as usize + DIR_PREFIX_LEN + 20;
    bytes[id_len_at..id_len_at + 2].copy_from_slice(&9999u16.to_le_bytes());
    let payload_len = bytes.len() - HEADER_LEN as usize - TRAILER_LEN;
    let crc = crc32c(&bytes[HEADER_LEN as usize..HEADER_LEN as usize + payload_len]);
    let end = bytes.len();
    bytes[end - 4..].copy_from_slice(&crc.to_le_bytes());

    assert!(matches!(
        Directory::open(&bytes),
        Err(FormatError::LengthExceedsInput { .. })
    ));
}

#[test]
fn a_row_count_that_disagrees_with_the_heap_offset_is_rejected() {
    let mut w = DirectoryWriter::new();
    w.push(b"a", 0, 0, 1.0f32.to_bits()).unwrap();
    let mut bytes = w.finish();
    let rows_at = HEADER_LEN as usize;
    bytes[rows_at..rows_at + 4].copy_from_slice(&5u32.to_le_bytes());
    let payload_len = bytes.len() - HEADER_LEN as usize - TRAILER_LEN;
    let crc = crc32c(&bytes[HEADER_LEN as usize..HEADER_LEN as usize + payload_len]);
    let end = bytes.len();
    bytes[end - 4..].copy_from_slice(&crc.to_le_bytes());

    assert!(matches!(
        Directory::open(&bytes),
        Err(FormatError::Malformed {
            kind: MalformedKind::Inconsistent {
                field: "heap_offset"
            },
            ..
        })
    ));
}

#[test]
fn a_directory_claiming_a_billion_rows_is_refused_before_allocating() {
    let mut w = Writer::new();
    // A row count whose entry table alone would be 24 GB.
    let rows: u32 = 1_000_000_000;
    w.u32(rows);
    w.u32(u32::MAX);
    w.reserved(8);
    let bytes = encode_block(FileKind::Directory, w.as_slice());
    assert!(Directory::open(&bytes).is_err());
}

// ---- .meta ----

#[test]
fn meta_records_round_trip() {
    let mut meta = ValueMap::new();
    meta.insert("category".to_owned(), Value::Str("tools".into()));
    meta.insert("price".to_owned(), Value::F64(9.99f64.to_bits()));

    let records = [
        MetaRecord::default(),
        MetaRecord {
            metadata: Some(Value::Object(meta)),
            content: None,
        },
        MetaRecord {
            metadata: None,
            content: Some(b"just the source text".to_vec()),
        },
        MetaRecord {
            metadata: Some(Value::Object(ValueMap::new())),
            content: Some(b"both".to_vec()),
        },
    ];

    let mut w = MetaWriter::new();
    let locations: Vec<(u64, u32)> = records.iter().map(|r| w.push(r).unwrap()).collect();
    let bytes = w.finish();

    let block = MetaBlock::open(&bytes).unwrap();
    for (record, (offset, len)) in records.iter().zip(locations) {
        let entry = RowEntry {
            meta_offset: offset,
            meta_len: len,
            inv_norm: 1.0f32.to_bits(),
            id_offset: 0,
            id_len: 0,
            flags: 0,
        };
        assert_eq!(&block.record(&entry).unwrap(), record);
    }
    MetaBlock::verify(&bytes).unwrap();
}

#[test]
fn an_empty_record_occupies_no_bytes() {
    let mut w = MetaWriter::new();
    let (_, len) = w.push(&MetaRecord::default()).unwrap();
    assert_eq!(len, 0);
    assert!(w.is_empty());
}

/// The directory and the metadata file are separate files; if they disagree, say so rather
/// than returning whatever bytes happen to be at that offset.
#[test]
fn a_record_pointing_outside_the_file_is_an_error() {
    let mut w = MetaWriter::new();
    w.push(&MetaRecord {
        metadata: None,
        content: Some(b"x".to_vec()),
    })
    .unwrap();
    let bytes = w.finish();
    let block = MetaBlock::open(&bytes).unwrap();

    let entry = RowEntry {
        meta_offset: 9_000,
        meta_len: 10,
        inv_norm: 1.0f32.to_bits(),
        id_offset: 0,
        id_len: 0,
        flags: 0,
    };
    assert!(matches!(
        block.record(&entry),
        Err(FormatError::LengthExceedsInput { .. })
    ));
}

#[test]
fn unknown_record_flags_are_rejected() {
    assert!(matches!(
        MetaRecord::decode(&[0b1000_0000]),
        Err(FormatError::Malformed {
            kind: MalformedKind::UnknownFlags(_),
            ..
        })
    ));
}

// ---- .del ----

#[test]
fn tombstones_round_trip() {
    let mut t = Tombstones::all_live(200, 3);
    assert_eq!(t.live_count(), 200);
    assert!(t.kill(0));
    assert!(t.kill(199));
    assert!(!t.kill(199), "killing twice reports no change");
    assert_eq!(t.live_count(), 198);

    let bytes = t.encode();
    let decoded = Tombstones::decode(&bytes).unwrap();
    assert_eq!(decoded, t);
    assert!(!decoded.is_live(0));
    assert!(decoded.is_live(1));
    assert!(!decoded.is_live(199));
    assert!(
        !decoded.is_live(200),
        "out of range reads as dead, not a panic"
    );
    assert_eq!(decoded.generation, 3);
}

#[test]
fn all_live_ignores_bits_past_the_last_row() {
    for rows in [0u32, 1, 63, 64, 65, 127, 128, 129, 1000] {
        let t = Tombstones::all_live(rows, 0);
        assert_eq!(t.live_count(), rows, "rows = {rows}");
        let decoded = Tombstones::decode(&t.encode()).unwrap();
        assert_eq!(decoded.live_count(), rows);
    }
}

/// A corrupt tail would make the collection claim documents it does not have.
#[test]
fn bits_set_past_the_last_row_are_rejected() {
    let t = Tombstones {
        rows: 10,
        generation: 0,
        words: vec![u64::MAX],
    };
    assert!(matches!(
        Tombstones::decode(&t.encode()),
        Err(FormatError::Malformed {
            kind: MalformedKind::Inconsistent {
                field: "bitmap tail"
            },
            ..
        })
    ));
}

#[test]
fn a_word_count_that_disagrees_with_the_row_count_is_rejected() {
    let t = Tombstones {
        rows: 200,
        generation: 0,
        words: vec![0; 1],
    };
    assert!(matches!(
        Tombstones::decode(&t.encode()),
        Err(FormatError::Malformed {
            kind: MalformedKind::Inconsistent {
                field: "bitmap length"
            },
            ..
        })
    ));
}

#[test]
fn every_block_kind_rejects_truncation_at_every_length() {
    let mut vw = VectorBlockWriter::new(2, 8).unwrap();
    vw.push_f32(&bits(&[1.0, 2.0])).unwrap();
    let vec_bytes = vw.finish();

    let mut dw = DirectoryWriter::new();
    dw.push(b"id", 0, 0, 1.0f32.to_bits()).unwrap();
    let dir_bytes = dw.finish();

    let mut mw = MetaWriter::new();
    mw.push(&MetaRecord {
        metadata: None,
        content: Some(b"c".to_vec()),
    })
    .unwrap();
    let meta_bytes = mw.finish();

    let del_bytes = Tombstones::all_live(100, 1).encode();

    for len in 0..vec_bytes.len() {
        assert!(
            VectorBlock::open(&vec_bytes[..len], 8).is_err(),
            "vec at {len}"
        );
    }
    for len in 0..dir_bytes.len() {
        assert!(Directory::open(&dir_bytes[..len]).is_err(), "dir at {len}");
    }
    for len in 0..meta_bytes.len() {
        assert!(
            MetaBlock::open(&meta_bytes[..len]).is_err(),
            "meta at {len}"
        );
    }
    for len in 0..del_bytes.len() {
        assert!(
            Tombstones::decode(&del_bytes[..len]).is_err(),
            "del at {len}"
        );
    }
}

#[test]
fn segment_arbitrary_bytes_never_panic() {
    let mut seed = 0x0BAD_F00D_1234_5678u64;
    for _ in 0..20_000 {
        seed ^= seed << 13;
        seed ^= seed >> 7;
        seed ^= seed << 17;
        let len = (seed % 128) as usize;
        let bytes: Vec<u8> = (0..len).map(|i| (seed >> (i % 56)) as u8).collect();
        let _ = VectorBlock::open(&bytes, 8);
        if let Ok(d) = Directory::open(&bytes) {
            for i in 0..d.rows().min(64) {
                let _ = d.id(i);
                let _ = d.entry(i);
            }
        }
        if let Ok(m) = MetaBlock::open(&bytes) {
            let entry = RowEntry {
                meta_offset: seed % 256,
                meta_len: (seed % 64) as u32,
                inv_norm: 1.0f32.to_bits(),
                id_offset: 0,
                id_len: 0,
                flags: 0,
            };
            let _ = m.record(&entry);
        }
        let _ = Tombstones::decode(&bytes);
        let _ = MetaRecord::decode(&bytes);
    }
}
