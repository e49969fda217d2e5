use vdb::format::cursor::{Reader, Writer};
use vdb::format::error::{FormatError, MalformedKind};
use vdb::format::lookup::find_path;
use vdb::format::value::{skip_value, Value, ValueMap, MAX_VALUE_DEPTH};

const NULL: u8 = 0;
const ARRAY: u8 = 7;
const OBJECT: u8 = 8;

fn map(pairs: &[(&str, Value)]) -> Value {
    let mut entries = ValueMap::new();
    for (k, v) in pairs {
        entries.insert((*k).to_owned(), v.clone());
    }
    Value::Object(entries)
}

fn roundtrip(v: &Value) {
    let bytes = v.encode().unwrap();
    let decoded = Value::decode(&bytes).unwrap();
    assert_eq!(&decoded, v, "round-trip changed the value");
    // Canonical: re-encoding the decoded value reproduces the same bytes exactly.
    assert_eq!(
        decoded.encode().unwrap(),
        bytes,
        "encoding is not canonical"
    );
}

#[test]
fn scalars_round_trip() {
    for v in [
        Value::Null,
        Value::Bool(true),
        Value::Bool(false),
        Value::I64(0),
        Value::I64(-1),
        Value::I64(i64::MIN),
        Value::I64(i64::MAX),
        Value::F64(0.0f64.to_bits()),
        Value::F64((-0.0f64).to_bits()),
        Value::F64(f64::MIN.to_bits()),
        Value::F64(f64::MAX.to_bits()),
        Value::F64(core::f64::consts::PI.to_bits()),
        Value::Str(String::new()),
        Value::Str("hello".into()),
        Value::Str("emoji 🧭 and ünïcödé".into()),
        Value::Bytes(vec![]),
        Value::Bytes(vec![0, 255, 128]),
    ] {
        roundtrip(&v);
    }
}

#[test]
fn containers_round_trip() {
    roundtrip(&Value::Array(vec![]));
    roundtrip(&Value::Array(vec![
        Value::I64(1),
        Value::Str("two".into()),
        Value::Null,
    ]));
    roundtrip(&map(&[]));
    roundtrip(&map(&[
        ("category", Value::Str("tools".into())),
        ("in_stock", Value::Bool(true)),
        ("price", Value::F64(19.99f64.to_bits())),
        (
            "tags",
            Value::Array(vec![Value::Str("a".into()), Value::Str("b".into())]),
        ),
    ]));
    roundtrip(&map(&[(
        "user",
        map(&[("plan", Value::Str("pro".into())), ("seats", Value::I64(5))]),
    )]));
}

#[test]
fn booleans_cost_one_byte() {
    assert_eq!(Value::Bool(true).encode().unwrap().len(), 1);
    assert_eq!(Value::Null.encode().unwrap().len(), 1);
}

/// The canonicality property, stated directly: map insertion order must not reach the bytes.
#[test]
fn map_key_order_does_not_affect_the_encoding() {
    let mut a = ValueMap::new();
    a.insert("zebra".to_owned(), Value::I64(1));
    a.insert("apple".to_owned(), Value::I64(2));

    let mut b = ValueMap::new();
    b.insert("apple".to_owned(), Value::I64(2));
    b.insert("zebra".to_owned(), Value::I64(1));

    assert_eq!(
        Value::Object(a).encode().unwrap(),
        Value::Object(b).encode().unwrap()
    );
}

#[test]
fn unsorted_map_keys_are_rejected() {
    // Hand-build a map whose keys descend.
    let mut w = Writer::new();
    w.u8(OBJECT);
    w.varint(2);
    w.string("zebra");
    w.u8(NULL);
    w.string("apple");
    w.u8(NULL);
    let bytes = w.finish();
    assert!(matches!(
        Value::decode(&bytes),
        Err(FormatError::Malformed {
            kind: MalformedKind::KeysNotSorted,
            ..
        })
    ));
}

#[test]
fn duplicate_map_keys_are_rejected() {
    let mut w = Writer::new();
    w.u8(OBJECT);
    w.varint(2);
    w.string("same");
    w.u8(NULL);
    w.string("same");
    w.u8(NULL);
    let bytes = w.finish();
    assert!(matches!(
        Value::decode(&bytes),
        Err(FormatError::Malformed {
            kind: MalformedKind::DuplicateKey,
            ..
        })
    ));
}

#[test]
fn an_unknown_tag_is_rejected_with_its_value() {
    for bad in [9u8, 42, 255] {
        match Value::decode(&[bad]) {
            Err(FormatError::Malformed {
                kind: MalformedKind::UnknownValueTag(t),
                ..
            }) => {
                assert_eq!(t, bad);
            }
            other => panic!("tag {bad} gave {other:?}"),
        }
    }
}

#[test]
fn non_finite_floats_cannot_be_encoded() {
    for bad in [f64::NAN, f64::INFINITY, f64::NEG_INFINITY] {
        assert!(matches!(
            Value::F64(bad.to_bits()).encode(),
            Err(FormatError::Malformed {
                kind: MalformedKind::NonFiniteFloat,
                ..
            })
        ));
    }
}

#[test]
fn depth_is_reported_correctly() {
    assert_eq!(Value::Null.depth(), 1);
    assert_eq!(Value::Array(vec![]).depth(), 1);
    assert_eq!(Value::Array(vec![Value::Null]).depth(), 2);
    assert_eq!(map(&[("a", map(&[("b", Value::Null)]))]).depth(), 3);
}

#[test]
fn nesting_at_the_limit_works_and_one_past_it_does_not() {
    let mut v = Value::Null;
    for _ in 1..MAX_VALUE_DEPTH {
        v = Value::Array(vec![v]);
    }
    assert_eq!(v.depth(), MAX_VALUE_DEPTH);
    roundtrip(&v);

    let too_deep = Value::Array(vec![v]);
    assert!(matches!(
        too_deep.encode(),
        Err(FormatError::Malformed {
            kind: MalformedKind::DepthExceeded { .. },
            ..
        })
    ));
}

/// The attack this defends against: a few hundred bytes of nesting that would otherwise
/// recurse deeply enough to abort the process on a stack overflow.
#[test]
fn hostile_nesting_is_an_error_not_a_stack_overflow() {
    let mut bytes = Vec::new();
    for _ in 0..100_000 {
        bytes.push(ARRAY);
        bytes.push(1); // varint count = 1
    }
    bytes.push(NULL);
    match Value::decode(&bytes) {
        Err(FormatError::Malformed {
            kind: MalformedKind::DepthExceeded { max },
            ..
        }) => {
            assert_eq!(max, MAX_VALUE_DEPTH);
        }
        other => panic!("expected DepthExceeded, got {other:?}"),
    }
}

/// The other resource attack: a tiny input claiming an enormous element count.
#[test]
fn an_absurd_container_count_is_refused_before_allocating() {
    let mut w = Writer::new();
    w.u8(ARRAY);
    w.varint(u64::MAX);
    assert!(matches!(
        Value::decode(w.as_slice()),
        Err(FormatError::LengthExceedsInput { .. })
    ));

    let mut w = Writer::new();
    w.u8(OBJECT);
    w.varint(1_000_000_000);
    assert!(matches!(
        Value::decode(&w.finish()),
        Err(FormatError::LengthExceedsInput { .. })
    ));
}

#[test]
fn trailing_bytes_after_a_value_are_rejected() {
    let mut bytes = Value::I64(7).encode().unwrap();
    bytes.push(0);
    assert!(Value::decode(&bytes).is_err());
}

#[test]
fn truncation_at_every_offset_is_an_error_and_never_a_panic() {
    let value = map(&[
        ("bytes", Value::Bytes(vec![1, 2, 3, 4, 5])),
        (
            "nested",
            Value::Array(vec![Value::I64(-42), Value::Bool(true)]),
        ),
        ("text", Value::Str("a reasonably long string value".into())),
    ]);
    let full = value.encode().unwrap();
    for len in 0..full.len() {
        let result = Value::decode(&full[..len]);
        assert!(result.is_err(), "a {len}-byte prefix decoded successfully");
    }
    assert_eq!(Value::decode(&full).unwrap(), value);
}

#[test]
fn every_single_byte_corruption_is_an_error_or_a_different_value_never_a_panic() {
    let value = map(&[
        ("a", Value::I64(1)),
        ("b", Value::Array(vec![Value::Str("x".into())])),
    ]);
    let full = value.encode().unwrap();
    for i in 0..full.len() {
        for bit in 0..8 {
            let mut mutated = full.clone();
            mutated[i] ^= 1u8 << bit;
            // Either it fails cleanly or it decodes to something; neither may panic, and a
            // successful decode must still re-encode canonically.
            if let Ok(v) = Value::decode(&mutated) {
                let _ = v.encode();
            }
        }
    }
}

#[test]
fn find_path_reads_only_what_it_needs() {
    let v = map(&[
        ("alpha", Value::I64(1)),
        ("bravo", Value::Str("x".repeat(500))),
        ("charlie", Value::Bool(true)),
        ("delta", Value::Array(vec![Value::I64(1), Value::I64(2)])),
    ]);
    let bytes = v.encode().unwrap();

    assert_eq!(find_path(&bytes, "alpha").unwrap(), Some(Value::I64(1)));
    assert_eq!(
        find_path(&bytes, "charlie").unwrap(),
        Some(Value::Bool(true))
    );
    assert_eq!(
        find_path(&bytes, "delta").unwrap(),
        Some(Value::Array(vec![Value::I64(1), Value::I64(2)]))
    );
    assert_eq!(find_path(&bytes, "missing").unwrap(), None);
    // A key that sorts after everything present exercises the early stop.
    assert_eq!(find_path(&bytes, "zulu").unwrap(), None);
}

#[test]
fn find_path_descends_into_nested_maps() {
    let inner = map(&[("plan", Value::Str("pro".into())), ("seats", Value::I64(5))]);
    let v = map(&[("other", Value::I64(9)), ("user", inner)]);
    let bytes = v.encode().unwrap();

    assert_eq!(
        find_path(&bytes, "user.plan").unwrap(),
        Some(Value::Str("pro".into()))
    );
    assert_eq!(
        find_path(&bytes, "user.seats").unwrap(),
        Some(Value::I64(5))
    );
    assert_eq!(find_path(&bytes, "user.missing").unwrap(), None);
    assert_eq!(
        find_path(&bytes, "other.nope").unwrap(),
        None,
        "cannot descend a scalar"
    );
    assert_eq!(find_path(&bytes, "").unwrap(), None);
}

/// The lazy lookup must agree with decoding everything and then looking up — otherwise the
/// optimisation changes what a filter matches, which is far worse than being slow.
#[test]
fn find_path_agrees_with_a_full_decode_for_every_field() {
    let inner = map(&[("a", Value::Null), ("b", Value::F64(1.5f64.to_bits()))]);
    let v = map(&[
        ("bytes", Value::Bytes(vec![1, 2, 3])),
        ("empty_list", Value::Array(vec![])),
        ("list", Value::Array(vec![Value::Str("x".into())])),
        ("nested", inner),
        ("num", Value::I64(-7)),
        ("text", Value::Str("hello".into())),
    ]);
    let bytes = v.encode().unwrap();
    let Value::Object(decoded) = Value::decode(&bytes).unwrap() else {
        panic!("not a map")
    };

    for i in 0..decoded.len() {
        let key = decoded.key_at(i);
        assert_eq!(
            find_path(&bytes, key).unwrap().as_ref(),
            decoded.get(key),
            "field {key}"
        );
    }
    for absent in ["", "zzz", "nested.zzz", "num.zzz", "list.0"] {
        assert_eq!(find_path(&bytes, absent).unwrap(), None, "{absent}");
    }
}

#[test]
fn skipping_a_value_lands_exactly_where_decoding_it_would() {
    for value in [
        Value::Null,
        Value::Bool(true),
        Value::I64(i64::MIN),
        Value::F64(1.5f64.to_bits()),
        Value::Str("some text".into()),
        Value::Bytes(vec![0; 300]),
        Value::Array(vec![Value::I64(1), Value::Str("two".into())]),
        map(&[("a", Value::I64(1)), ("b", Value::Array(vec![Value::Null]))]),
    ] {
        let mut bytes = value.encode().unwrap();
        bytes.extend_from_slice(b"SENTINEL");

        let mut skipping = Reader::new(&bytes);
        skip_value(&mut skipping).unwrap();
        let mut decoding = Reader::new(&bytes);
        Value::read_from(&mut decoding).unwrap();

        assert_eq!(skipping.offset(), decoding.offset(), "{value:?}");
        assert_eq!(skipping.bytes(8).unwrap(), b"SENTINEL", "{value:?}");
    }
}

#[test]
fn the_lazy_path_is_as_strict_as_a_full_decode() {
    // Hostile nesting must be refused while skipping, not just while decoding.
    let mut bytes = Vec::new();
    for _ in 0..100_000 {
        bytes.push(ARRAY);
        bytes.push(1);
    }
    bytes.push(NULL);
    let mut r = Reader::new(&bytes);
    assert!(matches!(
        skip_value(&mut r),
        Err(FormatError::Malformed {
            kind: MalformedKind::DepthExceeded { .. },
            ..
        })
    ));

    // And an absurd container count is refused before allocating.
    let mut w = Writer::new();
    w.u8(ARRAY);
    w.varint(u64::MAX);
    let bytes = w.finish();
    assert!(skip_value(&mut Reader::new(&bytes)).is_err());
}

#[test]
fn value_arbitrary_bytes_never_panic() {
    let mut seed = 0xDEAD_BEEF_CAFE_1234u64;
    for _ in 0..20_000 {
        seed ^= seed << 13;
        seed ^= seed >> 7;
        seed ^= seed << 17;
        let len = (seed % 48) as usize;
        let bytes: Vec<u8> = (0..len).map(|i| (seed >> (i % 56)) as u8).collect();
        if let Ok(v) = Value::decode(&bytes) {
            // Anything that decodes must re-encode to exactly the same bytes.
            assert_eq!(
                v.encode().unwrap(),
                bytes,
                "decode/encode disagreed on {bytes:?}"
            );
        }
    }
}
