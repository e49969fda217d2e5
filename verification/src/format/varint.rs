//! LEB128 variable-length integers.
//!
//! Used for lengths and ids inside records, where most values are small and a fixed 8 bytes
//! would be mostly zeroes. Every decode is bounded and returns how many bytes it consumed, so a
//! corrupt record cannot walk a reader off the end of a buffer.
use vstd::prelude::*;

verus! {

/// The most bytes a `u64` can occupy: 64 bits at 7 bits per byte.
pub const MAX_LEN_U64: usize = 10;

/// How a varint decode failed.
#[derive(Debug, Clone, Copy, PartialEq, Eq, Structural)]
pub enum VarintError {
    /// The buffer ended mid-value.
    Truncated,
    /// More than [`MAX_LEN_U64`] continuation bytes, or a value that does not fit in 64 bits.
    Overflow,
    /// The value was encoded in more bytes than necessary.
    ///
    /// Rejected because the on-disk format must be canonical: two encodings of the same value
    /// would mean the same logical database could produce two different checksums.
    NonCanonical,
}

/// The encoding of `v`: base-128 digits, least significant first, every byte but the last
/// carrying the continuation bit.
pub open spec fn varint(v: nat) -> Seq<u8>
    decreases v,
{
    if v < 128 {
        seq![v as u8]
    } else {
        seq![(128 + v % 128) as u8] + varint(v / 128)
    }
}

/// How many bytes at the front of `b` carry the continuation bit.
pub open spec fn continuation_run(b: Seq<u8>) -> nat
    decreases b.len(),
{
    if b.len() == 0 || b[0] < 128 {
        0
    } else {
        1 + continuation_run(b.skip(1))
    }
}

/// The number whose base-128 digits, least significant first, are the low seven bits of `s`.
pub open spec fn digits_value(s: Seq<u8>) -> nat
    decreases s.len(),
{
    if s.len() == 0 {
        0
    } else {
        (s[0] % 128) as nat + 128 * digits_value(s.skip(1))
    }
}

/// What decoding the front of `b` yields: the value with the bytes it took, or why there is none.
pub open spec fn decoded(b: Seq<u8>) -> Result<(u64, usize), VarintError> {
    let n = continuation_run(b);
    if n >= MAX_LEN_U64 {
        if b.len() > MAX_LEN_U64 || b[9] % 128 > 1 {
            Err(VarintError::Overflow)
        } else {
            Err(VarintError::Truncated)
        }
    } else if n == b.len() {
        Err(VarintError::Truncated)
    } else if n == 9 && b[9] > 1 {
        Err(VarintError::Overflow)
    } else if n > 0 && b[n as int] == 0 {
        Err(VarintError::NonCanonical)
    } else {
        Ok((digits_value(b.take(n as int + 1)) as u64, (n + 1) as usize))
    }
}

/// `128` to the power `n`.
pub open spec fn pow128(n: nat) -> nat
    decreases n,
{
    if n == 0 {
        1
    } else {
        128 * pow128((n - 1) as nat)
    }
}

proof fn lemma_pow128_values()
    ensures
        pow128(0) == 1,
        pow128(1) == 0x80,
        pow128(8) == 0x100_0000_0000_0000,
        pow128(9) == 0x8000_0000_0000_0000,
{
    reveal_with_fuel(pow128, 10);
}

proof fn lemma_pow128_monotonic(a: nat, b: nat)
    requires
        a <= b,
    ensures
        1 <= pow128(a) <= pow128(b),
    decreases b,
{
    if a < b {
        lemma_pow128_monotonic(a, (b - 1) as nat);
    } else if b > 0 {
        lemma_pow128_monotonic((a - 1) as nat, (b - 1) as nat);
    }
}

/// Appending a digit adds it at the next power of 128.
proof fn lemma_digits_push(s: Seq<u8>, x: u8)
    ensures
        digits_value(s.push(x)) == digits_value(s) + (x % 128) * pow128(s.len()),
        digits_value(s) < pow128(s.len()),
    decreases s.len(),
{
    if s.len() == 0 {
        assert(s.push(x).skip(1) =~= Seq::<u8>::empty());
        assert(digits_value(s.push(x).skip(1)) == 0);
        assert(pow128(0) == 1);
    } else {
        lemma_digits_push(s.skip(1), x);
        assert(s.push(x).skip(1) =~= s.skip(1).push(x));
        let d = digits_value(s.skip(1));
        let p = pow128((s.len() - 1) as nat);
        let k = (x % 128) as nat;
        assert(128 * (d + k * p) == 128 * d + k * (128 * p)) by (nonlinear_arith);
    }
}

/// Canonical digits are exactly what encoding their value gives back.
proof fn lemma_canonical(s: Seq<u8>)
    requires
        s.len() > 0,
        forall|i: int| 0 <= i < s.len() - 1 ==> s[i] >= 128,
        s.last() < 128,
        s.len() > 1 ==> s.last() != 0,
    ensures
        varint(digits_value(s)) == s,
        s.last() != 0 ==> digits_value(s) != 0,
    decreases s.len(),
{
    let t = s.skip(1);
    if s.len() == 1 {
        assert(t =~= Seq::<u8>::empty());
        assert(digits_value(t) == 0);
        assert(varint(digits_value(s)) =~= s);
    } else {
        assert(t.last() == s.last());
        lemma_canonical(t);
        let d = digits_value(t);
        let v = digits_value(s);
        assert(v == (s[0] % 128) as nat + 128 * d);
        assert(v / 128 == d && v % 128 == (s[0] % 128) as nat);
        assert(varint(v) =~= s);
    }
}

/// The shape of an encoding: where it ends, what it is worth, and how its last byte reads.
proof fn lemma_varint_shape(v: nat)
    ensures
        varint(v).len() > 0,
        digits_value(varint(v)) == v,
        forall|i: int| 0 <= i < varint(v).len() - 1 ==> varint(v)[i] >= 128,
        varint(v).last() < 128,
        varint(v).len() > 1 ==> varint(v).last() != 0,
        v >= varint(v).last() * pow128((varint(v).len() - 1) as nat),
    decreases v,
{
    let s = varint(v);
    if v < 128 {
        assert(s.skip(1) =~= Seq::<u8>::empty());
        assert(digits_value(s.skip(1)) == 0);
        assert(pow128(0) == 1);
    } else {
        lemma_varint_shape(v / 128);
        let t = varint(v / 128);
        assert(s.skip(1) =~= t);
        assert(s.last() == t.last());
        let l = t.last() as int;
        let p = pow128((t.len() - 1) as nat) as int;
        assert(l * (128 * p) == 128 * (l * p)) by (nonlinear_arith);
        if t.len() == 1 {
            assert(t[0] == v / 128);
        }
    }
}

/// An encoding fits in as many bytes as its value has base-128 digits.
proof fn lemma_varint_len(v: nat, k: nat)
    requires
        v < pow128(k),
        k >= 1,
    ensures
        varint(v).len() <= k,
    decreases k,
{
    if v >= 128 {
        if k == 1 {
            lemma_pow128_values();
            assert(false);
        }
        lemma_varint_len(v / 128, (k - 1) as nat);
    }
}

/// The encoding of a `u64` is between one and [`MAX_LEN_U64`] bytes long.
pub proof fn lemma_varint_len_u64(v: u64)
    ensures
        1 <= varint(v as nat).len() <= MAX_LEN_U64,
{
    lemma_varint_shape(v as nat);
    lemma_pow128_values();
    assert(pow128(10) == 128 * pow128(9));
    lemma_varint_len(v as nat, 10);
}

proof fn lemma_run_of(s: Seq<u8>, n: nat, rest: Seq<u8>)
    requires
        n < s.len(),
        forall|i: int| 0 <= i < n ==> s[i] >= 128,
        s[n as int] < 128,
    ensures
        continuation_run(s + rest) == n,
    decreases n,
{
    if n > 0 {
        assert((s + rest).skip(1) =~= s.skip(1) + rest);
        lemma_run_of(s.skip(1), (n - 1) as nat, rest);
    }
}

proof fn lemma_run_bytes(b: Seq<u8>)
    ensures
        continuation_run(b) <= b.len(),
        forall|i: int| 0 <= i < continuation_run(b) ==> b[i] >= 128,
        continuation_run(b) < b.len() ==> b[continuation_run(b) as int] < 128,
    decreases b.len(),
{
    if b.len() > 0 && b[0] >= 128 {
        lemma_run_bytes(b.skip(1));
        assert forall|i: int| 0 <= i < continuation_run(b) implies b[i] >= 128 by {
            if i > 0 {
                assert(b.skip(1)[i - 1] == b[i]);
            }
        }
    }
}

/// Decoding an encoding gives the value back, whatever follows it.
pub proof fn lemma_decode_of_encode(v: u64, rest: Seq<u8>)
    ensures
        decoded(varint(v as nat) + rest) == Ok::<(u64, usize), VarintError>(
            (v, varint(v as nat).len() as usize),
        ),
{
    let s = varint(v as nat);
    let b = s + rest;
    lemma_varint_shape(v as nat);
    lemma_varint_len_u64(v);
    lemma_run_of(s, (s.len() - 1) as nat, rest);
    assert(b.take(s.len() as int) =~= s);
    if s.len() == 10 {
        lemma_pow128_values();
        let l = s.last() as int;
        assert(l <= 1) by (nonlinear_arith)
            requires
                l * 0x8000_0000_0000_0000 <= 0xffff_ffff_ffff_ffff,
        ;
    }
}

/// What decodes is exactly the encoding of what it decodes to: no value has two encodings.
pub proof fn lemma_decode_is_canonical(b: Seq<u8>)
    ensures
        match decoded(b) {
            Ok((v, n)) => 1 <= n <= b.len() && b.take(n as int) == varint(v as nat) && n
                == varint(v as nat).len(),
            Err(_) => true,
        },
{
    let n = continuation_run(b);
    if decoded(b) is Ok {
        lemma_run_bytes(b);
        let s = b.take(n as int + 1);
        lemma_canonical(s);
        lemma_value_fits(b);
    }
}

proof fn lemma_value_fits(b: Seq<u8>)
    requires
        decoded(b) is Ok,
    ensures
        digits_value(b.take(continuation_run(b) as int + 1)) <= u64::MAX,
{
    let n = continuation_run(b);
    lemma_run_bytes(b);
    lemma_pow128_values();
    let s = b.take(n as int);
    assert(b.take(n as int + 1) =~= s.push(b[n as int]));
    lemma_digits_push(s, b[n as int]);
    lemma_digits_push(b.take(n as int + 1), 0);
    if n <= 8 {
        lemma_pow128_monotonic(n + 1, 9);
    } else {
        let x = (b[9] % 128) as int;
        assert(x * 0x8000_0000_0000_0000 <= 0x8000_0000_0000_0000) by (nonlinear_arith)
            requires
                0 <= x <= 1,
        ;
    }
}

/// Bytes `value` will occupy when encoded.
pub fn encoded_len(value: u64) -> (len: usize)
    ensures
        len == varint(value as nat).len(),
        1 <= len <= MAX_LEN_U64,
{
    proof {
        lemma_varint_len_u64(value);
    }
    let mut len: usize = 1;
    let mut v: u64 = value / 128;
    while v != 0
        invariant
            1 <= len,
            len + (if v == 0 { 0 } else { varint(v as nat).len() as int }) == varint(
                value as nat,
            ).len(),
            varint(value as nat).len() <= MAX_LEN_U64,
        decreases v,
    {
        proof {
            lemma_varint_len_u64(v);
            lemma_varint_len_u64((v / 128) as u64);
        }
        len += 1;
        v = v / 128;
    }
    len
}

/// Append `value` to `out`, returning how many bytes were written.
pub fn encode_u64(value: u64, out: &mut Vec<u8>) -> (written: usize)
    ensures
        final(out)@ == old(out)@ + varint(value as nat),
        written == varint(value as nat).len(),
{
    proof {
        lemma_varint_len_u64(value);
    }
    let mut v: u64 = value;
    let mut written: usize = 0;
    while v >= 128
        invariant
            written + varint(v as nat).len() == varint(value as nat).len(),
            out@ + varint(v as nat) == old(out)@ + varint(value as nat),
            varint(value as nat).len() <= MAX_LEN_U64,
        decreases v,
    {
        let ghost before = out@;
        let byte: u8 = (128 + v % 128) as u8;
        out.push(byte);
        proof {
            lemma_varint_len_u64(v);
            assert(before.push(byte) + varint((v / 128) as nat) =~= before + varint(v as nat));
        }
        v = v / 128;
        written += 1;
    }
    out.push(v as u8);
    proof {
        assert(varint(v as nat) =~= seq![v as u8]);
    }
    written + 1
}

/// Decode a `u64`, returning the value and the number of bytes consumed.
///
/// # Errors
/// [`VarintError`] if the buffer ends mid-value, the value overflows 64 bits, or the encoding
/// is not canonical.
pub fn decode_u64(buf: &[u8]) -> (r: Result<(u64, usize), VarintError>)
    ensures
        r == decoded(buf@),
{
    let mut value: u64 = 0;
    let mut scale: u64 = 1;
    let mut i: usize = 0;
    while i < buf.len()
        invariant
            i <= buf@.len(),
            i <= MAX_LEN_U64,
            value == digits_value(buf@.take(i as int)),
            i <= 9 ==> scale == pow128(i as nat),
            forall|j: int| 0 <= j < i ==> buf@[j] >= 128,
            i == 10 ==> buf@[9] % 128 <= 1,
        decreases buf.len() - i,
    {
        let byte: u8 = buf[i];
        proof {
            lemma_run_at_least(buf@, i as nat);
        }
        if i >= MAX_LEN_U64 {
            return Err(VarintError::Overflow);
        }
        let payload: u64 = (byte % 128) as u64;
        proof {
            lemma_run_bytes(buf@);
            lemma_pow128_values();
            lemma_pow128_monotonic(i as nat, 9);
            lemma_digits_push(buf@.take(i as int), byte);
            assert(buf@.take(i + 1) =~= buf@.take(i as int).push(byte));
            if byte < 128 {
                lemma_run_of(buf@, i as nat, Seq::empty());
                assert(buf@ + Seq::<u8>::empty() =~= buf@);
            } else {
                lemma_run_at_least(buf@, (i + 1) as nat);
            }
        }
        // The tenth byte may only carry the single remaining bit.
        if i == 9 && payload > 1 {
            return Err(VarintError::Overflow);
        }
        proof {
            let p = payload as int;
            let c = scale as int;
            if i <= 8 {
                lemma_pow128_monotonic(i as nat, 8);
                lemma_pow128_monotonic(i as nat + 1, 9);
                assert(p * c <= 127 * c) by (nonlinear_arith)
                    requires
                        0 <= p <= 127,
                        0 <= c,
                ;
            } else {
                assert(p * c <= c) by (nonlinear_arith)
                    requires
                        0 <= p <= 1,
                        0 <= c,
                ;
            }
            assert(p * c >= 0) by (nonlinear_arith)
                requires
                    0 <= p,
                    0 <= c,
            ;
        }
        value = value + payload * scale;
        if byte < 128 {
            // Canonical form: a multi-byte encoding must not end in a zero payload byte.
            if i > 0 && payload == 0 {
                return Err(VarintError::NonCanonical);
            }
            return Ok((value, i + 1));
        }
        if i < 9 {
            scale = scale * 128;
        }
        i += 1;
    }
    proof {
        lemma_run_at_least(buf@, i as nat);
        lemma_run_bytes(buf@);
    }
    Err(VarintError::Truncated)
}

proof fn lemma_run_at_least(b: Seq<u8>, n: nat)
    requires
        n <= b.len(),
        forall|i: int| 0 <= i < n ==> b[i] >= 128,
    ensures
        continuation_run(b) >= n,
{
    lemma_run_bytes(b);
}

/// Zigzag: the even numbers stand for the non-negative values, the odd ones for the negative.
pub open spec fn zigzag_of(value: int) -> int {
    if value >= 0 {
        2 * value
    } else {
        -2 * value - 1
    }
}

/// The value whose zigzag form is `value`.
pub open spec fn unzigzag_of(value: int) -> int {
    if value % 2 == 0 {
        value / 2
    } else {
        -(value / 2) - 1
    }
}

/// What decoding a signed value from the front of `b` yields.
pub open spec fn decoded_i64(b: Seq<u8>) -> Result<(i64, usize), VarintError> {
    match decoded(b) {
        Ok((v, n)) => Ok((unzigzag_of(v as int) as i64, n)),
        Err(e) => Err(e),
    }
}

/// Zigzag and its reverse undo each other over the whole of `i64` and `u64`.
pub proof fn lemma_zigzag_inverse(value: i64, code: u64)
    ensures
        0 <= zigzag_of(value as int) <= u64::MAX,
        unzigzag_of(zigzag_of(value as int)) == value,
        i64::MIN <= unzigzag_of(code as int) <= i64::MAX,
        zigzag_of(unzigzag_of(code as int)) == code,
{
}

/// A signed value survives encoding and decoding, whatever follows it.
pub proof fn lemma_decode_i64_of_encode(value: i64, rest: Seq<u8>)
    ensures
        decoded_i64(varint(zigzag_of(value as int) as nat) + rest) == Ok::<
            (i64, usize),
            VarintError,
        >((value, varint(zigzag_of(value as int) as nat).len() as usize)),
{
    lemma_zigzag_inverse(value, 0);
    lemma_decode_of_encode(zigzag_of(value as int) as u64, rest);
}

/// Zigzag-encode a signed value so small negatives stay small.
pub fn zigzag(value: i64) -> (r: u64)
    ensures
        r == zigzag_of(value as int),
{
    if value >= 0 {
        (value as u64) * 2
    } else {
        let magnitude: u64 = (-(value + 1)) as u64;
        magnitude * 2 + 1
    }
}

/// Reverse [`zigzag`].
pub fn unzigzag(value: u64) -> (r: i64)
    ensures
        r == unzigzag_of(value as int),
{
    let half: i64 = (value / 2) as i64;
    if value % 2 == 0 {
        half
    } else {
        -half - 1
    }
}

/// Append a signed value.
pub fn encode_i64(value: i64, out: &mut Vec<u8>) -> (written: usize)
    ensures
        final(out)@ == old(out)@ + varint(zigzag_of(value as int) as nat),
        written == varint(zigzag_of(value as int) as nat).len(),
{
    encode_u64(zigzag(value), out)
}

/// Decode a signed value.
///
/// # Errors
/// As [`decode_u64`].
pub fn decode_i64(buf: &[u8]) -> (r: Result<(i64, usize), VarintError>)
    ensures
        r == decoded_i64(buf@),
{
    match decode_u64(buf) {
        Ok((v, n)) => Ok((unzigzag(v), n)),
        Err(e) => Err(e),
    }
}

} // verus!
