use vdb::format::error::{FormatError, MalformedKind};
use vdb::format::header::{FileHeader, FileKind, HeaderFlags, HEADER_LEN};
use vdb::format::{FORMAT_VERSION, MIN_READABLE_VERSION};

#[test]
fn header_is_exactly_thirty_two_bytes() {
    let h = FileHeader::new(FileKind::Manifest, 100);
    assert_eq!(h.encode().len(), HEADER_LEN as usize);
}

#[test]
fn every_kind_round_trips() {
    for kind in FileKind::ALL {
        let h = FileHeader::new(kind, 4096);
        let decoded = FileHeader::decode(&h.encode(), kind).unwrap();
        assert_eq!(decoded, h, "{kind:?}");
        assert_eq!(decoded.version, FORMAT_VERSION);
        assert_eq!(decoded.payload_len, 4096);
    }
}

#[test]
fn every_kind_has_a_distinct_tag() {
    let mut tags: Vec<[u8; 4]> = FileKind::ALL.iter().map(|k| k.tag()).collect();
    tags.sort_unstable();
    let before = tags.len();
    tags.dedup();
    assert_eq!(tags.len(), before, "two file kinds share a tag");
}

#[test]
fn decode_any_identifies_the_kind() {
    for kind in FileKind::ALL {
        let h = FileHeader::new(kind, 0);
        assert_eq!(FileHeader::decode_any(&h.encode()).unwrap().kind, kind);
    }
}

/// Opening one kind of file as another must fail immediately, not produce nonsense.
#[test]
fn the_wrong_kind_is_rejected() {
    let bytes = FileHeader::new(FileKind::Vectors, 0).encode();
    match FileHeader::decode(&bytes, FileKind::Manifest) {
        Err(FormatError::BadMagic { expected, found }) => {
            assert_eq!(expected, FileKind::Manifest.magic());
            assert_eq!(found, FileKind::Vectors.magic());
        }
        other => panic!("expected BadMagic, got {other:?}"),
    }
}

#[test]
fn a_foreign_file_is_rejected_by_prefix() {
    let mut bytes = [0u8; 32];
    bytes[..8].copy_from_slice(b"SQLite f");
    assert!(matches!(
        FileHeader::decode_any(&bytes),
        Err(FormatError::BadMagic { .. })
    ));
}

#[test]
fn an_unknown_kind_tag_is_named_in_the_error() {
    let mut bytes = FileHeader::new(FileKind::Manifest, 0).encode();
    bytes[4..8].copy_from_slice(b"WHAT");
    match FileHeader::decode_any(&bytes) {
        Err(FormatError::Malformed {
            kind: MalformedKind::UnknownFileKind(tag),
            ..
        }) => {
            assert_eq!(&tag, b"WHAT");
        }
        other => panic!("expected UnknownFileKind, got {other:?}"),
    }
}

/// The header checksum must be verified before any field in it is trusted.
#[test]
fn every_single_bit_flip_in_the_covered_region_is_caught() {
    let original = FileHeader::new(FileKind::Wal, 12_345).encode();
    for byte in 0..24 {
        for bit in 0..8 {
            let mut mutated = original;
            mutated[byte] ^= 1u8 << bit;
            let result = FileHeader::decode_any(&mutated);
            assert!(
                result.is_err(),
                "flip at byte {byte} bit {bit} was not detected: {result:?}"
            );
        }
    }
}

#[test]
fn a_version_from_the_future_is_refused_rather_than_guessed_at() {
    let mut h = FileHeader::new(FileKind::Manifest, 0);
    h.version = FORMAT_VERSION + 1;
    // Re-checksum so the version is the only thing wrong.
    let bytes = h.encode();
    match FileHeader::decode_any(&bytes) {
        Err(FormatError::UnsupportedVersion {
            found,
            min_readable,
            current,
        }) => {
            assert_eq!(found, FORMAT_VERSION + 1);
            assert_eq!(min_readable, MIN_READABLE_VERSION);
            assert_eq!(current, FORMAT_VERSION);
        }
        other => panic!("expected UnsupportedVersion, got {other:?}"),
    }
}

#[test]
fn a_version_below_the_readable_floor_is_refused() {
    let mut h = FileHeader::new(FileKind::Manifest, 0);
    h.version = MIN_READABLE_VERSION.saturating_sub(1);
    if h.version < MIN_READABLE_VERSION {
        assert!(matches!(
            FileHeader::decode_any(&h.encode()),
            Err(FormatError::UnsupportedVersion { .. })
        ));
    }
}

#[test]
fn unknown_flag_bits_are_refused() {
    let mut h = FileHeader::new(FileKind::Manifest, 0);
    h.flags = HeaderFlags(0b1000_0000);
    assert!(matches!(
        FileHeader::decode_any(&h.encode()),
        Err(FormatError::Malformed {
            kind: MalformedKind::UnknownFlags(_),
            ..
        })
    ));
}

#[test]
fn a_header_len_below_the_minimum_is_refused() {
    let mut h = FileHeader::new(FileKind::Manifest, 0);
    h.header_len = 8;
    assert!(matches!(
        FileHeader::decode_any(&h.encode()),
        Err(FormatError::Malformed {
            kind: MalformedKind::HeaderTooShort,
            ..
        })
    ));
}

/// Reserved bytes are only reserved if readers enforce them.
#[test]
fn a_dirty_reserved_field_is_refused() {
    let mut bytes = FileHeader::new(FileKind::Manifest, 0).encode();
    bytes[30] = 0x01; // outside the CRC-covered region, so only the explicit check catches it
    assert!(matches!(
        FileHeader::decode_any(&bytes),
        Err(FormatError::Malformed {
            kind: MalformedKind::ReservedNotZero,
            ..
        })
    ));
}

#[test]
fn truncation_at_every_length_is_an_error_and_never_a_panic() {
    let full = FileHeader::new(FileKind::Metadata, 7).encode();
    for len in 0..full.len() {
        let result = FileHeader::decode_any(&full[..len]);
        assert!(result.is_err(), "a {len}-byte header decoded successfully");
    }
    assert!(FileHeader::decode_any(&full).is_ok());
}

#[test]
fn check_file_len_catches_a_short_file() {
    let h = FileHeader::new(FileKind::Vectors, 1000);
    assert!(h.check_file_len(1032).is_ok());
    assert!(
        h.check_file_len(2000).is_ok(),
        "a longer file is fine; the header bounds it"
    );
    match h.check_file_len(500) {
        Err(FormatError::Truncated {
            needed, available, ..
        }) => {
            assert_eq!(needed, 1032);
            assert_eq!(available, 500);
        }
        other => panic!("expected Truncated, got {other:?}"),
    }
}

/// The sum of the two lengths is checked, so a header claiming an impossible payload is refused.
#[test]
fn a_gigantic_payload_len_is_malformed_rather_than_saturating() {
    let h = FileHeader::new(FileKind::Vectors, u64::MAX);
    match h.check_file_len(u64::MAX) {
        Err(FormatError::Malformed {
            kind:
                MalformedKind::Inconsistent {
                    field: "payload_len",
                },
            ..
        }) => {}
        other => panic!("expected Inconsistent, got {other:?}"),
    }
    // One below the overflow point is merely truncated, not malformed.
    let h = FileHeader::new(FileKind::Vectors, u64::MAX - u64::from(HEADER_LEN));
    assert!(matches!(
        h.check_file_len(64),
        Err(FormatError::Truncated { .. })
    ));
}

#[test]
fn header_arbitrary_bytes_never_panic() {
    let mut seed = 0xC0FF_EE00_1234_5678u64;
    for _ in 0..5000 {
        seed ^= seed << 13;
        seed ^= seed >> 7;
        seed ^= seed << 17;
        let len = (seed % 40) as usize;
        let bytes: Vec<u8> = (0..len).map(|i| (seed >> (i % 56)) as u8).collect();
        let _ = FileHeader::decode_any(&bytes);
        let _ = FileHeader::decode(&bytes, FileKind::Manifest);
    }
}
