use vdb::format::crc32c::{crc32c, Crc32c};

/// Vectors from RFC 3720 appendix B (iSCSI CRC-32C). If these pass, the polynomial and the
/// bit reflection are both right — which is the only way an on-disk checksum stays stable.
#[test]
fn rfc3720_vectors() {
    assert_eq!(crc32c(&[]), 0x0000_0000);
    assert_eq!(crc32c(&[0u8; 32]), 0x8A91_36AA);
    assert_eq!(crc32c(&[0xFFu8; 32]), 0x62A8_AB43);

    let ascending: Vec<u8> = (0u8..32).collect();
    assert_eq!(crc32c(&ascending), 0x46DD_794E);

    let descending: Vec<u8> = (0u8..32).rev().collect();
    assert_eq!(crc32c(&descending), 0x113F_DB5C);
}

#[test]
fn check_string_vector() {
    assert_eq!(crc32c(b"123456789"), 0xE306_9283);
}

#[test]
fn incremental_matches_one_shot() {
    let data: Vec<u8> = (0..1000u32).map(|i| (i * 7 % 251) as u8).collect();
    let one_shot = crc32c(&data);
    for split in [0usize, 1, 7, 64, 255, 500, 999, 1000] {
        let (a, b) = data.split_at(split);
        let inc = Crc32c::new().update(a).update(b).finish();
        assert_eq!(inc, one_shot, "split at {split}");
    }
}

#[test]
fn resume_continues_a_finished_checksum() {
    let a = b"header-bytes";
    let b = b"body-bytes";
    let combined = Crc32c::new().update(a).update(b).finish();
    let staged = Crc32c::resume(crc32c(a)).update(b).finish();
    assert_eq!(staged, combined);
}

/// The property that matters for corruption detection: any single-bit flip changes the CRC.
#[test]
fn detects_every_single_bit_flip() {
    let original = vec![0xA5u8; 64];
    let baseline = crc32c(&original);
    for byte in 0..original.len() {
        for bit in 0..8 {
            let mut mutated = original.clone();
            mutated[byte] ^= 1u8 << bit;
            assert_ne!(crc32c(&mutated), baseline, "flip at byte {byte} bit {bit}");
        }
    }
}

/// Truncation must not go unnoticed either — a torn write is the common real-world case.
#[test]
fn detects_truncation() {
    let data: Vec<u8> = (0..256u32).map(|i| i as u8).collect();
    let full = crc32c(&data);
    for len in 0..data.len() {
        assert_ne!(crc32c(&data[..len]), full, "truncated to {len}");
    }
}
