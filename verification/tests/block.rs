use vdb::format::block::{decode_block, encode_block, open_block, verify_block};
use vdb::format::error::FormatError;
use vdb::format::header::{FileHeader, FileKind};

#[test]
fn round_trips_any_payload() {
    for payload in [
        vec![],
        vec![0u8],
        (0..=255u8).collect::<Vec<_>>(),
        vec![7u8; 10_000],
    ] {
        let block = encode_block(FileKind::Catalog, &payload);
        assert_eq!(
            decode_block(&block, FileKind::Catalog).unwrap(),
            payload.as_slice()
        );
    }
}

#[test]
fn the_wrong_kind_is_refused() {
    let block = encode_block(FileKind::Catalog, b"x");
    assert!(matches!(
        decode_block(&block, FileKind::Manifest),
        Err(FormatError::BadMagic { .. })
    ));
}

#[test]
fn every_single_bit_flip_anywhere_is_detected() {
    let block = encode_block(FileKind::Deleted, b"the quick brown fox");
    for byte in 0..block.len() {
        for bit in 0..8 {
            let mut mutated = block.clone();
            mutated[byte] ^= 1u8 << bit;
            assert!(
                decode_block(&mutated, FileKind::Deleted).is_err(),
                "flip at byte {byte} bit {bit} slipped through"
            );
        }
    }
}

#[test]
fn block_truncation_at_every_length_is_an_error() {
    let block = encode_block(FileKind::Index, b"payload bytes here");
    for len in 0..block.len() {
        assert!(
            decode_block(&block[..len], FileKind::Index).is_err(),
            "a {len}-byte block decoded"
        );
    }
}

#[test]
fn trailing_bytes_after_the_trailer_are_ignored() {
    // A file may be longer than its block — the header bounds it. Recovery relies on this
    // when a torn write left junk after a complete structure.
    let mut block = encode_block(FileKind::Catalog, b"abc");
    block.extend_from_slice(b"junk after the block");
    assert_eq!(decode_block(&block, FileKind::Catalog).unwrap(), b"abc");
}

#[test]
fn a_payload_len_larger_than_the_file_is_refused() {
    let mut block = encode_block(FileKind::Catalog, b"abc");
    // Rewrite payload_len to something enormous and fix the header checksum.
    let mut header = FileHeader::decode_any(&block).unwrap();
    header.payload_len = u64::MAX / 2;
    block[..32].copy_from_slice(&header.encode());
    assert!(matches!(
        decode_block(&block, FileKind::Catalog),
        Err(FormatError::Truncated { .. })
    ));
}

/// The large-file policy: `open_block` must accept a payload whose checksum is wrong,
/// while `verify_block` must reject it. Otherwise opening a database would mean reading
/// every byte of every vector file.
#[test]
fn open_skips_the_payload_checksum_and_verify_does_not() {
    let mut block = encode_block(FileKind::Vectors, &[1, 2, 3, 4, 5, 6, 7, 8]);
    block[35] ^= 0xFF; // corrupt the payload, leave the header intact

    assert!(open_block(&block, FileKind::Vectors).is_ok());
    assert!(matches!(
        verify_block(&block, FileKind::Vectors),
        Err(FormatError::ChecksumMismatch { .. })
    ));
    assert!(decode_block(&block, FileKind::Vectors).is_err());
}

/// The trailer sits at `header_len + payload_len`, not at the end of the buffer.
#[test]
fn a_block_with_trailing_bytes_still_verifies() {
    let mut block = encode_block(FileKind::Catalog, b"payload");
    block.extend_from_slice(b"trailing junk from a torn write");
    assert!(verify_block(&block, FileKind::Catalog).is_ok());
    assert_eq!(decode_block(&block, FileKind::Catalog).unwrap(), b"payload");
}

#[test]
fn block_arbitrary_bytes_never_panic() {
    let mut seed = 0x5EED_5EED_5EED_5EEDu64;
    for _ in 0..20_000 {
        seed ^= seed << 13;
        seed ^= seed >> 7;
        seed ^= seed << 17;
        let len = (seed % 80) as usize;
        let bytes: Vec<u8> = (0..len).map(|i| (seed >> (i % 56)) as u8).collect();
        for kind in FileKind::ALL {
            let _ = decode_block(&bytes, kind);
            let _ = open_block(&bytes, kind);
            let _ = verify_block(&bytes, kind);
        }
    }
}
