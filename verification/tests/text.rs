use vdb::bytes::{compare_bytes, compare_str, text_of, Order};
use vdb::text::{decimal_string, push_hex, push_magic, push_padded, push_quoted};

#[test]
fn numbers_are_written_in_decimal() {
    for n in [0u64, 7, 10, 999, 1_000, u64::MAX] {
        assert_eq!(decimal_string(n), n.to_string());
    }
}

#[test]
fn padding_fills_up_and_never_cuts() {
    let mut out = String::from("#");
    push_padded(&mut out, 42, 6);
    assert_eq!(out, "#000042");
    let mut out = String::new();
    push_padded(&mut out, 1_234_567, 6);
    assert_eq!(out, "1234567");
}

#[test]
fn hexadecimal_keeps_the_low_digits() {
    let mut out = String::new();
    push_hex(&mut out, 0xab, 2);
    push_hex(&mut out, 0x1234, 2);
    assert_eq!(out, "ab34");
}

#[test]
fn a_quoted_string_has_its_special_characters_escaped() {
    let mut out = String::from("id=");
    push_quoted(&mut out, "a\"b\nc");
    assert_eq!(out, "id=\"a\\\"b\\nc\"");
}

#[test]
fn magic_bytes_are_shown_readably() {
    let mut out = String::new();
    push_magic(&mut out, b"VDB1\x00\xff");
    assert_eq!(out, "\"VDB1\\x00\\xff\"");
}

#[test]
fn bytes_are_text_exactly_where_they_are_valid_utf8() {
    assert_eq!(text_of("ünï🧭".as_bytes()), Some("ünï🧭"));
    assert_eq!(text_of(&[]), Some(""));
    assert_eq!(text_of(&[0xff, 0xfe]), None);
    assert_eq!(text_of(&[0xc3]), None, "a character cut short");
    assert_eq!(text_of(&[0xed, 0xa0, 0x80]), None, "a surrogate");
}

#[test]
fn byte_order_is_lexicographic() {
    assert_eq!(compare_bytes(b"a", b"b"), Order::Less);
    assert_eq!(compare_bytes(b"a", b"a"), Order::Equal);
    assert_eq!(compare_bytes(b"ab", b"a"), Order::Greater);
    assert_eq!(compare_bytes(b"", b"a"), Order::Less);
    assert_eq!(compare_str("zebra", "ünï"), Order::Less);
}
