//! Building messages: numbers, checksums and quoted names as text.
use vstd::prelude::*;
use vstd::slice::slice_subrange;
use vstd::utf8::*;

use crate::bytes;

verus! {

/// The text of a digit below sixteen.
pub open spec fn digit_text(d: nat) -> Seq<char> {
    if d == 0 {
        "0"@
    } else if d == 1 {
        "1"@
    } else if d == 2 {
        "2"@
    } else if d == 3 {
        "3"@
    } else if d == 4 {
        "4"@
    } else if d == 5 {
        "5"@
    } else if d == 6 {
        "6"@
    } else if d == 7 {
        "7"@
    } else if d == 8 {
        "8"@
    } else if d == 9 {
        "9"@
    } else if d == 10 {
        "a"@
    } else if d == 11 {
        "b"@
    } else if d == 12 {
        "c"@
    } else if d == 13 {
        "d"@
    } else if d == 14 {
        "e"@
    } else {
        "f"@
    }
}

fn digit(d: u64) -> (r: &'static str)
    requires
        d < 16,
    ensures
        r@ == digit_text(d as nat),
{
    if d == 0 {
        "0"
    } else if d == 1 {
        "1"
    } else if d == 2 {
        "2"
    } else if d == 3 {
        "3"
    } else if d == 4 {
        "4"
    } else if d == 5 {
        "5"
    } else if d == 6 {
        "6"
    } else if d == 7 {
        "7"
    } else if d == 8 {
        "8"
    } else if d == 9 {
        "9"
    } else if d == 10 {
        "a"
    } else if d == 11 {
        "b"
    } else if d == 12 {
        "c"
    } else if d == 13 {
        "d"
    } else if d == 14 {
        "e"
    } else {
        "f"
    }
}

/// A number in decimal.
pub open spec fn decimal(n: nat) -> Seq<char>
    decreases n,
{
    if n < 10 {
        digit_text(n)
    } else {
        decimal(n / 10) + digit_text(n % 10)
    }
}

/// A number in decimal, padded with zeros to at least `w` digits.
pub open spec fn padded(n: nat, w: nat) -> Seq<char>
    decreases w,
{
    if w <= 1 {
        decimal(n)
    } else {
        padded(n / 10, (w - 1) as nat) + digit_text(n % 10)
    }
}

/// The `w` low digits of a number in hexadecimal.
pub open spec fn hex(n: nat, w: nat) -> Seq<char>
    decreases w,
{
    if w == 0 {
        Seq::empty()
    } else {
        hex(n / 16, (w - 1) as nat) + digit_text(n % 16)
    }
}

/// Append a number in decimal.
pub fn push_decimal(out: &mut String, n: u64)
    ensures
        final(out)@ == old(out)@ + decimal(n as nat),
    decreases n,
{
    if n >= 10 {
        push_decimal(out, n / 10);
    }
    out.append(digit(n % 10));
    assert(out@ =~= old(out)@ + decimal(n as nat));
}

/// Append a number in decimal, padded with zeros to at least `w` digits.
pub fn push_padded(out: &mut String, n: u64, w: u32)
    ensures
        final(out)@ == old(out)@ + padded(n as nat, w as nat),
    decreases w,
{
    if w <= 1 {
        push_decimal(out, n);
    } else {
        push_padded(out, n / 10, w - 1);
        out.append(digit(n % 10));
        assert(out@ =~= old(out)@ + padded(n as nat, w as nat));
    }
}

/// Append the `w` low digits of a number in hexadecimal.
pub fn push_hex(out: &mut String, n: u64, w: u32)
    ensures
        final(out)@ == old(out)@ + hex(n as nat, w as nat),
    decreases w,
{
    if w > 0 {
        push_hex(out, n / 16, w - 1);
        out.append(digit(n % 16));
    }
    assert(out@ =~= old(out)@ + hex(n as nat, w as nat));
}

/// A number in decimal.
pub fn decimal_string(n: u64) -> (r: String)
    ensures
        r@ == decimal(n as nat),
{
    let mut out = String::new();
    push_decimal(&mut out, n);
    assert(Seq::<char>::empty() + decimal(n as nat) =~= decimal(n as nat));
    out
}

/// What the `Debug` form of a string is: the string in quotes, with its special characters
/// escaped.
pub uninterp spec fn quoted(s: Seq<char>) -> Seq<char>;

/// The `Debug` form of a string, by way of `format!` and its `{:?}`. Trusted to depend on the
/// string alone.
#[verifier::external_body]
fn debug_form(s: &str) -> (r: String)
    ensures
        r@ == quoted(s@),
{
    format!("{:?}", s)
}

/// Append a string in quotes, with its special characters escaped.
pub fn push_quoted(out: &mut String, s: &str)
    ensures
        final(out)@ == old(out)@ + quoted(s@),
{
    let q = debug_form(s);
    out.append(q.as_str());
}

/// A byte as it appears in a message: itself where it is a visible ASCII character, in
/// hexadecimal otherwise.
pub open spec fn byte_text(b: u8) -> Seq<char> {
    if 0x21 <= b <= 0x7e {
        seq![b as char]
    } else {
        "\\x"@ + hex(b as nat, 2)
    }
}

/// Bytes as they appear in a message.
pub open spec fn bytes_text(s: Seq<u8>) -> Seq<char>
    decreases s.len(),
{
    if s.len() == 0 {
        Seq::empty()
    } else {
        bytes_text(s.drop_last()) + byte_text(s.last())
    }
}

/// Magic bytes as they appear in a message.
pub open spec fn magic_text(s: Seq<u8>) -> Seq<char> {
    "\""@ + bytes_text(s) + "\""@
}

proof fn lemma_ascii(b: u8)
    requires
        b < 128,
    ensures
        encode_utf8(seq![b as char]) == seq![b],
        valid_utf8(seq![b]),
        decode_utf8(seq![b]) == seq![b as char],
{
    let c = seq![b as char];
    assert(is_ascii_chars(c));
    is_ascii_chars_encode_utf8(c);
    assert(encode_utf8(c) =~= seq![b]);
    encode_utf8_valid_utf8(c);
    encode_utf8_decode_utf8(c);
}

/// Append magic bytes readably, so that a mismatch is diagnosable at a glance.
pub fn push_magic(out: &mut String, magic: &[u8])
    ensures
        final(out)@ == old(out)@ + magic_text(magic@),
{
    out.append("\"");
    let ghost head = out@;
    let mut i: usize = 0;
    assert(head + bytes_text(magic@.take(0)) =~= head);
    while i < magic.len()
        invariant
            i <= magic@.len(),
            out@ == head + bytes_text(magic@.take(i as int)),
        decreases magic.len() - i,
    {
        let b: u8 = magic[i];
        let ghost before = out@;
        let mut shown: bool = false;
        if 0x21 <= b && b <= 0x7e {
            let one = slice_subrange(magic, i, i + 1);
            proof {
                assert(one@ =~= seq![b]);
                lemma_ascii(b);
            }
            if let Some(s) = bytes::text_of(one) {
                out.append(s);
                shown = true;
            }
        }
        if !shown {
            out.append("\\x");
            push_hex(out, b as u64, 2);
        }
        proof {
            assert(out@ =~= before + byte_text(b));
            assert(magic@.take(i + 1).drop_last() =~= magic@.take(i as int));
            assert(out@ =~= head + bytes_text(magic@.take(i + 1)));
        }
        i += 1;
    }
    assert(magic@.take(i as int) =~= magic@);
    out.append("\"");
    assert(out@ =~= old(out)@ + magic_text(magic@));
}

} // verus!
