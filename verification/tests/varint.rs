use vdb::format::varint::{decode_i64, decode_u64, encode_i64, encode_u64, encoded_len, zigzag, VarintError, MAX_LEN_U64};

fn roundtrip(v: u64) {
    let mut buf = Vec::new();
    let written = encode_u64(v, &mut buf);
    assert_eq!(written, buf.len());
    assert_eq!(written, encoded_len(v), "encoded_len disagrees for {v}");
    let (decoded, consumed) = decode_u64(&buf).unwrap();
    assert_eq!(decoded, v);
    assert_eq!(consumed, written);
}

#[test]
fn round_trips_boundaries() {
    for v in [
        0,
        1,
        127,
        128,
        255,
        256,
        16_383,
        16_384,
        u32::MAX as u64,
        u64::MAX / 2,
        u64::MAX - 1,
        u64::MAX,
    ] {
        roundtrip(v);
    }
}

#[test]
fn round_trips_every_shift_boundary() {
    for bit in 0..64 {
        let v = 1u64 << bit;
        roundtrip(v);
        roundtrip(v.wrapping_sub(1));
    }
}

#[test]
fn max_value_uses_ten_bytes() {
    assert_eq!(encoded_len(u64::MAX), MAX_LEN_U64);
    let mut buf = Vec::new();
    encode_u64(u64::MAX, &mut buf);
    assert_eq!(buf.len(), MAX_LEN_U64);
}

#[test]
fn signed_round_trips() {
    for v in [
        0i64,
        -1,
        1,
        -2,
        2,
        i64::MIN,
        i64::MAX,
        -1_000_000,
        1_000_000,
    ] {
        let mut buf = Vec::new();
        encode_i64(v, &mut buf);
        let (decoded, _) = decode_i64(&buf).unwrap();
        assert_eq!(decoded, v);
    }
}

#[test]
fn zigzag_keeps_small_negatives_small() {
    assert_eq!(encoded_len(zigzag(-1)), 1);
    assert_eq!(encoded_len(zigzag(-64)), 1);
    assert_eq!(encoded_len(zigzag(63)), 1);
}

// ---- the failure paths, which are the whole point of bounding the decoder ----

#[test]
fn rejects_truncation() {
    assert_eq!(decode_u64(&[]), Err(VarintError::Truncated));
    assert_eq!(decode_u64(&[0x80]), Err(VarintError::Truncated));
    assert_eq!(decode_u64(&[0x80, 0x80, 0x80]), Err(VarintError::Truncated));
}

#[test]
fn rejects_overflow() {
    // Eleven continuation bytes can never be valid.
    let buf = [0x80u8; 11];
    assert_eq!(decode_u64(&buf), Err(VarintError::Overflow));
    // Ten bytes whose final byte carries more than one bit overflows 64 bits.
    let mut buf = vec![0x80u8; 9];
    buf.push(0x02);
    assert_eq!(decode_u64(&buf), Err(VarintError::Overflow));
}

#[test]
fn rejects_non_canonical_encodings() {
    // 0 encoded in two bytes.
    assert_eq!(decode_u64(&[0x80, 0x00]), Err(VarintError::NonCanonical));
    // 1 encoded in three bytes.
    assert_eq!(
        decode_u64(&[0x81, 0x80, 0x00]),
        Err(VarintError::NonCanonical)
    );
}

#[test]
fn stops_at_the_value_and_reports_what_it_consumed() {
    let mut buf = Vec::new();
    encode_u64(300, &mut buf);
    buf.extend_from_slice(b"trailing data");
    let (v, n) = decode_u64(&buf).unwrap();
    assert_eq!(v, 300);
    assert_eq!(n, 2);
    assert_eq!(&buf[n..], b"trailing data");
}

/// Exhaustive over a wide range: no input in this space decodes to the wrong value.
#[test]
fn exhaustive_small_range() {
    for v in 0u64..100_000 {
        let mut buf = Vec::new();
        encode_u64(v, &mut buf);
        assert_eq!(decode_u64(&buf).unwrap().0, v);
    }
}
