//! Bounds-checked reading and writing of the format's primitives.
use vstd::prelude::*;
use vstd::slice::slice_subrange;
use vstd::utf8::*;

use crate::bytes;
use crate::float;
use crate::format::error::{FormatError, MalformedKind};
use crate::format::le;
use crate::format::varint;
use crate::format::varint::VarintError;

verus! {

/// Where a read stands: the input, the position in it, and the offset of the input's first byte
/// in the file it came from.
pub struct Cursor {
    pub data: Seq<u8>,
    pub pos: int,
    pub base: int,
}

/// The bytes of a length-prefixed byte string.
pub open spec fn blob_bytes(s: Seq<u8>) -> Seq<u8> {
    varint::varint(s.len()) + s
}

/// The bytes of a length-prefixed string.
pub open spec fn string_bytes(s: Seq<char>) -> Seq<u8> {
    blob_bytes(encode_utf8(s))
}

/// The bytes of a signed varint.
pub open spec fn varint_i64_bytes(v: i64) -> Seq<u8> {
    varint::varint(varint::zigzag_of(v as int) as nat)
}

/// `n` zero bytes.
pub open spec fn zeros(n: nat) -> Seq<u8> {
    Seq::new(n, |i: int| 0u8)
}

impl Cursor {
    /// A position inside its input, at an offset that fits in 64 bits throughout.
    pub open spec fn valid(self) -> bool {
        0 <= self.pos <= self.data.len() && 0 <= self.base && self.base + self.data.len() <= u64::MAX
    }

    /// How many bytes are left.
    pub open spec fn left(self) -> int {
        self.data.len() - self.pos
    }

    /// The offset of the next byte in the file.
    pub open spec fn offset(self) -> u64 {
        (self.base + self.pos) as u64
    }

    /// The bytes that are left.
    pub open spec fn rest(self) -> Seq<u8> {
        self.data.skip(self.pos)
    }

    /// The same cursor `n` bytes further on.
    pub open spec fn advance(self, n: int) -> Cursor {
        Cursor { pos: self.pos + n, ..self }
    }

    /// Whether the bytes that come next are `s`.
    pub open spec fn at(self, s: Seq<u8>) -> bool {
        &&& 0 <= self.pos
        &&& self.pos + s.len() <= self.data.len()
        &&& self.data.subrange(self.pos, self.pos + s.len()) == s
    }

    /// The error for an input that ends before `n` more bytes.
    pub open spec fn truncated(self, n: int) -> FormatError {
        FormatError::Truncated {
            offset: self.offset(),
            needed: n as u64,
            available: self.left() as u64,
        }
    }

    /// The error for a structural rule broken here.
    pub open spec fn malformed(self, kind: MalformedKind) -> FormatError {
        FormatError::Malformed { offset: self.offset(), kind }
    }

    /// Read `n` raw bytes.
    pub open spec fn bytes(self, n: int) -> Result<(Seq<u8>, Cursor), FormatError> {
        if n <= self.left() {
            Ok((self.data.subrange(self.pos, self.pos + n), self.advance(n)))
        } else {
            Err(self.truncated(n))
        }
    }

    /// Read an unsigned integer of `n` bytes.
    pub open spec fn uint(self, n: int) -> Result<(nat, Cursor), FormatError> {
        match self.bytes(n) {
            Ok((s, c)) => Ok((le::un_le(s), c)),
            Err(e) => Err(e),
        }
    }

    /// Read one byte.
    pub open spec fn u8(self) -> Result<(u8, Cursor), FormatError> {
        if self.left() >= 1 {
            Ok((self.data[self.pos], self.advance(1)))
        } else {
            Err(self.truncated(1))
        }
    }

    /// Read the bits of a finite 32-bit float.
    pub open spec fn float32(self) -> Result<(u32, Cursor), FormatError> {
        match self.uint(4) {
            Ok((v, c)) => if float::finite32(v as u32) {
                Ok((v as u32, c))
            } else {
                Err(self.malformed(MalformedKind::NonFiniteFloat))
            },
            Err(e) => Err(e),
        }
    }

    /// Read the bits of a finite 64-bit float.
    pub open spec fn float64(self) -> Result<(u64, Cursor), FormatError> {
        match self.uint(8) {
            Ok((v, c)) => if float::finite64(v as u64) {
                Ok((v as u64, c))
            } else {
                Err(self.malformed(MalformedKind::NonFiniteFloat))
            },
            Err(e) => Err(e),
        }
    }

    /// What a failed varint read reports.
    pub open spec fn varint_error(self, e: VarintError) -> FormatError {
        match e {
            VarintError::Truncated => self.truncated(self.left() + 1),
            VarintError::Overflow => self.malformed(MalformedKind::VarintOverflow),
            VarintError::NonCanonical => self.malformed(MalformedKind::VarintNotCanonical),
        }
    }

    /// Read an unsigned varint.
    pub open spec fn varint(self) -> Result<(u64, Cursor), FormatError> {
        match varint::decoded(self.rest()) {
            Ok((v, n)) => Ok((v, self.advance(n as int))),
            Err(e) => Err(self.varint_error(e)),
        }
    }

    /// Read a signed varint.
    pub open spec fn varint_i64(self) -> Result<(i64, Cursor), FormatError> {
        match self.varint() {
            Ok((v, c)) => Ok((varint::unzigzag_of(v as int) as i64, c)),
            Err(e) => Err(e),
        }
    }

    /// Read a length-prefixed byte string.
    pub open spec fn blob(self) -> Result<(Seq<u8>, Cursor), FormatError> {
        match self.varint() {
            Ok((n, c)) => if n <= c.left() {
                Ok((c.data.subrange(c.pos, c.pos + n), c.advance(n as int)))
            } else {
                Err(
                    FormatError::LengthExceedsInput {
                        offset: self.offset(),
                        claimed: n,
                        available: c.left() as u64,
                    },
                )
            },
            Err(e) => Err(e),
        }
    }

    /// Where a read of a length-prefixed byte string that fails stands.
    pub open spec fn blob_halt(self) -> Cursor {
        match self.varint() {
            Ok((_, c)) => c,
            Err(_) => self,
        }
    }

    /// Where a read of a length-prefixed string that fails stands.
    pub open spec fn string_halt(self) -> Cursor {
        match self.blob() {
            Ok((_, c)) => c,
            Err(_) => self.blob_halt(),
        }
    }

    /// Where a read of `n` bytes that are then refused stands.
    pub open spec fn bytes_halt(self, n: int) -> Cursor {
        match self.bytes(n) {
            Ok((_, c)) => c,
            Err(_) => self,
        }
    }

    /// Read a length-prefixed string.
    pub open spec fn string(self) -> Result<(Seq<char>, Cursor), FormatError> {
        match self.blob() {
            Ok((s, c)) => if valid_utf8(s) {
                Ok((decode_utf8(s), c))
            } else {
                Err(self.malformed(MalformedKind::InvalidUtf8))
            },
            Err(e) => Err(e),
        }
    }

    /// Read `n` bytes that must all be zero.
    pub open spec fn reserved(self, n: int) -> Result<((), Cursor), FormatError> {
        match self.bytes(n) {
            Ok((s, c)) => if s == zeros(n as nat) {
                Ok(((), c))
            } else {
                Err(self.malformed(MalformedKind::ReservedNotZero))
            },
            Err(e) => Err(e),
        }
    }

    /// Require that nothing is left of `what`.
    pub open spec fn end(self, what: &'static str) -> Result<(), FormatError> {
        if self.left() == 0 {
            Ok(())
        } else {
            Err(self.malformed(MalformedKind::TrailingBytes { what }))
        }
    }
}

/// A position in some input: every read checks that the bytes it wants are there.
#[derive(Debug, Clone, Copy)]
pub struct Reader<'a> {
    bytes: &'a [u8],
    pos: usize,
    base: u64,
}

impl<'a> View for Reader<'a> {
    type V = Cursor;

    closed spec fn view(&self) -> Cursor {
        Cursor { data: self.bytes@, pos: self.pos as int, base: self.base as int }
    }
}

/// What a read that returns `value` did to the reader: `expected` is what it should do, and `halt`
/// where it stands if that is a failure.
pub open spec fn did_read<T>(
    before: Cursor,
    after: Cursor,
    value: Result<T, FormatError>,
    expected: Result<(T, Cursor), FormatError>,
    halt: Cursor,
) -> bool {
    &&& after.valid()
    &&& after.data == before.data
    &&& after.base == before.base
    &&& before.pos <= after.pos
    &&& match expected {
        Ok((v, c)) => value == Ok::<T, FormatError>(v) && after == c,
        Err(e) => value == Err::<T, FormatError>(e) && after == halt,
    }
}

impl<'a> Reader<'a> {
    /// Read from the start of `bytes`.
    pub fn new(bytes: &'a [u8]) -> (r: Self)
        ensures
            r@ == (Cursor { data: bytes@, pos: 0, base: 0 }),
            r@.valid(),
    {
        assert(bytes@.len() == bytes.len());
        Reader { bytes, pos: 0, base: 0 }
    }

    /// Read from the start of `bytes`, which begin at offset `base` of their file.
    pub fn with_base(bytes: &'a [u8], base: u64) -> (r: Self)
        requires
            base + bytes@.len() <= u64::MAX,
        ensures
            r@ == (Cursor { data: bytes@, pos: 0, base: base as int }),
            r@.valid(),
    {
        Reader { bytes, pos: 0, base }
    }

    /// The offset of the next byte in the file.
    pub fn offset(&self) -> (r: u64)
        requires
            self@.valid(),
        ensures
            r == self@.offset(),
    {
        self.base + self.pos as u64
    }

    /// How many bytes are left.
    pub fn remaining(&self) -> (r: usize)
        requires
            self@.valid(),
        ensures
            r == self@.left(),
    {
        self.bytes.len() - self.pos
    }

    /// Read `n` raw bytes.
    pub fn bytes(&mut self, n: usize) -> (r: Result<&'a [u8], FormatError>)
        requires
            old(self)@.valid(),
        ensures
            final(self)@.valid(),
            match old(self)@.bytes(n as int) {
                Ok((s, c)) => r matches Ok(b) && b@ == s && final(self)@ == c,
                Err(e) => r == Err::<&'a [u8], FormatError>(e) && final(self)@ == old(self)@,
            },
    {
        let left: usize = self.bytes.len() - self.pos;
        if n > left {
            return Err(
                FormatError::Truncated {
                    offset: self.base + self.pos as u64,
                    needed: n as u64,
                    available: left as u64,
                },
            );
        }
        let start: usize = self.pos;
        let end: usize = start + n;
        let out = slice_subrange(self.bytes, start, end);
        self.pos = end;
        Ok(out)
    }

    /// Move `n` bytes on.
    pub fn skip(&mut self, n: usize) -> (r: Result<(), FormatError>)
        requires
            old(self)@.valid(),
        ensures
            final(self)@.valid(),
            match old(self)@.bytes(n as int) {
                Ok((_, c)) => r == Ok::<(), FormatError>(()) && final(self)@ == c,
                Err(e) => r == Err::<(), FormatError>(e) && final(self)@ == old(self)@,
            },
    {
        match self.bytes(n) {
            Ok(_) => Ok(()),
            Err(e) => Err(e),
        }
    }

    /// Read one byte.
    pub fn u8(&mut self) -> (r: Result<u8, FormatError>)
        requires
            old(self)@.valid(),
        ensures
            did_read(old(self)@, final(self)@, r, old(self)@.u8(), old(self)@),
    {
        match self.bytes(1) {
            Ok(b) => Ok(b[0]),
            Err(e) => Err(e),
        }
    }

    /// Read a 16-bit unsigned integer.
    pub fn u16(&mut self) -> (r: Result<u16, FormatError>)
        requires
            old(self)@.valid(),
        ensures
            final(self)@.valid(),
            match old(self)@.uint(2) {
                Ok((v, c)) => v <= u16::MAX && r == Ok::<u16, FormatError>(v as u16)
                    && final(self)@ == c,
                Err(e) => r == Err::<u16, FormatError>(e) && final(self)@ == old(self)@,
            },
    {
        match self.bytes(2) {
            Ok(b) => {
                proof {
                    le::lemma_le_of_un_le(b@);
                    le::lemma_pow256_values();
                }
                Ok(le::read_le(b) as u16)
            },
            Err(e) => Err(e),
        }
    }

    /// Read a 32-bit unsigned integer.
    pub fn u32(&mut self) -> (r: Result<u32, FormatError>)
        requires
            old(self)@.valid(),
        ensures
            final(self)@.valid(),
            match old(self)@.uint(4) {
                Ok((v, c)) => v <= u32::MAX && r == Ok::<u32, FormatError>(v as u32)
                    && final(self)@ == c,
                Err(e) => r == Err::<u32, FormatError>(e) && final(self)@ == old(self)@,
            },
    {
        match self.bytes(4) {
            Ok(b) => {
                proof {
                    le::lemma_le_of_un_le(b@);
                    le::lemma_pow256_values();
                }
                Ok(le::read_le(b) as u32)
            },
            Err(e) => Err(e),
        }
    }

    /// Read a 64-bit unsigned integer.
    pub fn u64(&mut self) -> (r: Result<u64, FormatError>)
        requires
            old(self)@.valid(),
        ensures
            final(self)@.valid(),
            match old(self)@.uint(8) {
                Ok((v, c)) => v <= u64::MAX && r == Ok::<u64, FormatError>(v as u64)
                    && final(self)@ == c,
                Err(e) => r == Err::<u64, FormatError>(e) && final(self)@ == old(self)@,
            },
    {
        match self.bytes(8) {
            Ok(b) => {
                proof {
                    le::lemma_le_of_un_le(b@);
                    le::lemma_pow256_values();
                }
                Ok(le::read_le(b))
            },
            Err(e) => Err(e),
        }
    }

    /// Read the bits of a 32-bit float, which must be finite.
    pub fn float32(&mut self) -> (r: Result<u32, FormatError>)
        requires
            old(self)@.valid(),
        ensures
            did_read(old(self)@, final(self)@, r, old(self)@.float32(), old(self)@.bytes_halt(4)),
    {
        let at: u64 = self.offset();
        match self.u32() {
            Ok(v) => if float::is_finite32(v) {
                Ok(v)
            } else {
                Err(FormatError::Malformed { offset: at, kind: MalformedKind::NonFiniteFloat })
            },
            Err(e) => Err(e),
        }
    }

    /// Read the bits of a 64-bit float, which must be finite.
    pub fn float64(&mut self) -> (r: Result<u64, FormatError>)
        requires
            old(self)@.valid(),
        ensures
            did_read(old(self)@, final(self)@, r, old(self)@.float64(), old(self)@.bytes_halt(8)),
    {
        let at: u64 = self.offset();
        match self.u64() {
            Ok(v) => if float::is_finite64(v) {
                Ok(v)
            } else {
                Err(FormatError::Malformed { offset: at, kind: MalformedKind::NonFiniteFloat })
            },
            Err(e) => Err(e),
        }
    }

    /// Read `N` bytes as an array.
    pub fn array<const N: usize>(&mut self) -> (r: Result<[u8; N], FormatError>)
        requires
            old(self)@.valid(),
        ensures
            final(self)@.valid(),
            match old(self)@.bytes(N as int) {
                Ok((s, c)) => r matches Ok(b) && b@ == s && final(self)@ == c,
                Err(e) => r == Err::<[u8; N], FormatError>(e) && final(self)@ == old(self)@,
            },
    {
        match self.bytes(N) {
            Ok(b) => {
                let mut out: [u8; N] = vstd::array::array_fill_for_copy_types(0u8);
                let mut i: usize = 0;
                while i < N
                    invariant
                        i <= N,
                        b@.len() == N,
                        forall|j: int| 0 <= j < i ==> out@[j] == b@[j],
                    decreases N - i,
                {
                    out[i] = b[i];
                    i += 1;
                }
                assert(out@ =~= b@);
                Ok(out)
            },
            Err(e) => Err(e),
        }
    }

    /// Read an unsigned varint.
    pub fn varint(&mut self) -> (r: Result<u64, FormatError>)
        requires
            old(self)@.valid(),
        ensures
            did_read(old(self)@, final(self)@, r, old(self)@.varint(), old(self)@),
    {
        let at: u64 = self.offset();
        let rest = slice_subrange(self.bytes, self.pos, self.bytes.len());
        proof {
            assert(rest@ =~= self@.rest());
            varint::lemma_decode_is_canonical(rest@);
        }
        match varint::decode_u64(rest) {
            Ok((v, n)) => {
                self.pos = self.pos + n;
                Ok(v)
            },
            Err(VarintError::Truncated) => Err(
                FormatError::Truncated {
                    offset: at,
                    needed: rest.len() as u64 + 1,
                    available: rest.len() as u64,
                },
            ),
            Err(VarintError::Overflow) => Err(
                FormatError::Malformed { offset: at, kind: MalformedKind::VarintOverflow },
            ),
            Err(VarintError::NonCanonical) => Err(
                FormatError::Malformed { offset: at, kind: MalformedKind::VarintNotCanonical },
            ),
        }
    }

    /// Read a signed varint.
    pub fn varint_i64(&mut self) -> (r: Result<i64, FormatError>)
        requires
            old(self)@.valid(),
        ensures
            did_read(old(self)@, final(self)@, r, old(self)@.varint_i64(), old(self)@),
    {
        match self.varint() {
            Ok(v) => Ok(varint::unzigzag(v)),
            Err(e) => Err(e),
        }
    }

    /// Read a length-prefixed byte string.
    pub fn blob(&mut self) -> (r: Result<&'a [u8], FormatError>)
        requires
            old(self)@.valid(),
        ensures
            final(self)@.valid(),
            final(self)@.data == old(self)@.data,
            final(self)@.base == old(self)@.base,
            old(self)@.pos <= final(self)@.pos,
            match old(self)@.blob() {
                Ok((s, c)) => r matches Ok(b) && b@ == s && final(self)@ == c,
                Err(e) => r == Err::<&'a [u8], FormatError>(e) && final(self)@ == old(
                    self,
                )@.blob_halt(),
            },
    {
        let at: u64 = self.offset();
        let n: u64 = match self.varint() {
            Ok(n) => n,
            Err(e) => {
                return Err(e);
            },
        };
        let left: u64 = self.remaining() as u64;
        if n > left {
            return Err(
                FormatError::LengthExceedsInput { offset: at, claimed: n, available: left },
            );
        }
        self.bytes(n as usize)
    }

    /// Read a length-prefixed string.
    pub fn string(&mut self) -> (r: Result<&'a str, FormatError>)
        requires
            old(self)@.valid(),
        ensures
            final(self)@.valid(),
            final(self)@.data == old(self)@.data,
            final(self)@.base == old(self)@.base,
            old(self)@.pos <= final(self)@.pos,
            match old(self)@.string() {
                Ok((s, c)) => r matches Ok(b) && b@ == s && final(self)@ == c,
                Err(e) => r == Err::<&'a str, FormatError>(e) && final(self)@ == old(
                    self,
                )@.string_halt(),
            },
    {
        let at: u64 = self.offset();
        match self.blob() {
            Ok(b) => match bytes::text_of(b) {
                Some(s) => Ok(s),
                None => Err(
                    FormatError::Malformed { offset: at, kind: MalformedKind::InvalidUtf8 },
                ),
            },
            Err(e) => Err(e),
        }
    }

    /// Read `n` bytes that must all be zero.
    pub fn reserved(&mut self, n: usize) -> (r: Result<(), FormatError>)
        requires
            old(self)@.valid(),
        ensures
            did_read(
                old(self)@,
                final(self)@,
                r,
                old(self)@.reserved(n as int),
                old(self)@.bytes_halt(n as int),
            ),
    {
        let at: u64 = self.offset();
        match self.bytes(n) {
            Ok(b) => {
                if all_zero(b) {
                    Ok(())
                } else {
                    Err(FormatError::Malformed { offset: at, kind: MalformedKind::ReservedNotZero })
                }
            },
            Err(e) => Err(e),
        }
    }

    /// Require that nothing is left of `what`.
    pub fn expect_end(&self, what: &'static str) -> (r: Result<(), FormatError>)
        requires
            self@.valid(),
        ensures
            r == self@.end(what),
    {
        if self.remaining() == 0 {
            Ok(())
        } else {
            Err(
                FormatError::Malformed {
                    offset: self.offset(),
                    kind: MalformedKind::TrailingBytes { what },
                },
            )
        }
    }
}

/// Whether every byte is zero.
fn all_zero(b: &[u8]) -> (r: bool)
    ensures
        r == (b@ == zeros(b@.len())),
{
    let mut i: usize = 0;
    while i < b.len()
        invariant
            i <= b@.len(),
            forall|j: int| 0 <= j < i ==> b@[j] == 0,
        decreases b.len() - i,
    {
        if b[i] != 0 {
            assert(zeros(b@.len())[i as int] == 0);
            return false;
        }
        i += 1;
    }
    assert(b@ =~= zeros(b@.len()));
    true
}

/// An output buffer that the format's primitives are appended to.
#[derive(Debug)]
pub struct Writer {
    buf: Vec<u8>,
}

impl View for Writer {
    type V = Seq<u8>;

    closed spec fn view(&self) -> Seq<u8> {
        self.buf@
    }
}

impl Writer {
    /// An empty buffer.
    pub fn new() -> (r: Self)
        ensures
            r@ == Seq::<u8>::empty(),
    {
        Writer { buf: Vec::new() }
    }

    /// An empty buffer with room for `n` bytes.
    pub fn with_capacity(n: usize) -> (r: Self)
        ensures
            r@ == Seq::<u8>::empty(),
    {
        Writer { buf: Vec::with_capacity(n) }
    }

    /// Append one byte.
    pub fn u8(&mut self, v: u8)
        ensures
            final(self)@ == old(self)@.push(v),
    {
        self.buf.push(v);
    }

    /// Append a 16-bit unsigned integer.
    pub fn u16(&mut self, v: u16)
        ensures
            final(self)@ == old(self)@ + le::le(v as nat, 2),
    {
        le::push_le(&mut self.buf, v as u64, 2);
    }

    /// Append a 32-bit unsigned integer.
    pub fn u32(&mut self, v: u32)
        ensures
            final(self)@ == old(self)@ + le::le(v as nat, 4),
    {
        le::push_le(&mut self.buf, v as u64, 4);
    }

    /// Append a 64-bit unsigned integer.
    pub fn u64(&mut self, v: u64)
        ensures
            final(self)@ == old(self)@ + le::le(v as nat, 8),
    {
        le::push_le(&mut self.buf, v, 8);
    }

    /// Append raw bytes.
    pub fn raw(&mut self, b: &[u8])
        ensures
            final(self)@ == old(self)@ + b@,
    {
        let mut i: usize = 0;
        while i < b.len()
            invariant
                i <= b@.len(),
                self.buf@ == old(self).buf@ + b@.take(i as int),
            decreases b.len() - i,
        {
            self.buf.push(b[i]);
            assert(b@.take(i + 1) =~= b@.take(i as int).push(b@[i as int]));
            i += 1;
        }
        assert(b@.take(i as int) =~= b@);
    }

    /// Append an unsigned varint.
    pub fn varint(&mut self, v: u64)
        ensures
            final(self)@ == old(self)@ + varint::varint(v as nat),
    {
        varint::encode_u64(v, &mut self.buf);
    }

    /// Append a signed varint.
    pub fn varint_i64(&mut self, v: i64)
        ensures
            final(self)@ == old(self)@ + varint_i64_bytes(v),
    {
        varint::encode_i64(v, &mut self.buf);
    }

    /// Append a length-prefixed byte string.
    pub fn blob(&mut self, b: &[u8])
        ensures
            final(self)@ == old(self)@ + blob_bytes(b@),
    {
        self.varint(b.len() as u64);
        self.raw(b);
        assert(self@ =~= old(self)@ + blob_bytes(b@));
    }

    /// Append a length-prefixed string.
    pub fn string(&mut self, s: &str)
        ensures
            final(self)@ == old(self)@ + string_bytes(s@),
    {
        self.blob(s.as_bytes());
    }

    /// Append `n` zero bytes.
    pub fn reserved(&mut self, n: usize)
        ensures
            final(self)@ == old(self)@ + zeros(n as nat),
    {
        let mut i: usize = 0;
        assert(self.buf@ + zeros(0) =~= self.buf@);
        while i < n
            invariant
                i <= n,
                self.buf@ == old(self).buf@ + zeros(i as nat),
            decreases n - i,
        {
            self.buf.push(0);
            assert(zeros((i + 1) as nat) =~= zeros(i as nat).push(0u8));
            i += 1;
        }
    }

    /// What has been written so far.
    pub fn as_slice(&self) -> (r: &[u8])
        ensures
            r@ == self@,
    {
        self.buf.as_slice()
    }

    /// How many bytes have been written so far.
    pub fn len(&self) -> (r: usize)
        ensures
            r == self@.len(),
    {
        self.buf.len()
    }

    /// The finished bytes.
    pub fn finish(self) -> (r: Vec<u8>)
        ensures
            r@ == self@,
    {
        self.buf
    }
}

/// Bytes that come next as a concatenation come next piece by piece.
pub proof fn lemma_at_split(c: Cursor, a: Seq<u8>, b: Seq<u8>)
    requires
        c.at(a + b),
    ensures
        c.at(a),
        c.advance(a.len() as int).at(b),
        c.advance(a.len() as int).advance(b.len() as int) == c.advance((a + b).len() as int),
{
    let whole = c.data.subrange(c.pos, c.pos + (a + b).len());
    assert(c.data.subrange(c.pos, c.pos + a.len()) =~= whole.take(a.len() as int));
    assert((a + b).take(a.len() as int) =~= a);
    let d = c.advance(a.len() as int);
    assert(d.data.subrange(d.pos, d.pos + b.len()) =~= whole.skip(a.len() as int));
    assert((a + b).skip(a.len() as int) =~= b);
}

/// Bytes that come next piece by piece come next as a concatenation.
pub proof fn lemma_at_join(c: Cursor, a: Seq<u8>, b: Seq<u8>)
    requires
        c.at(a),
        c.advance(a.len() as int).at(b),
    ensures
        c.at(a + b),
        c.advance(a.len() as int).advance(b.len() as int) == c.advance((a + b).len() as int),
{
    let d = c.advance(a.len() as int);
    assert(c.data.subrange(c.pos, c.pos + (a + b).len()) =~= c.data.subrange(
        c.pos,
        c.pos + a.len(),
    ) + d.data.subrange(d.pos, d.pos + b.len()));
}

/// Reading an unsigned integer takes exactly the bytes that writing it gives.
pub proof fn lemma_uint(c: Cursor, v: nat, n: nat)
    requires
        v < le::pow256(n),
        0 <= c.pos <= c.data.len(),
    ensures
        c.at(le::le(v, n)) <==> c.uint(n as int) == Ok::<(nat, Cursor), FormatError>(
            (v, c.advance(n as int)),
        ),
        le::le(v, n).len() == n,
{
    le::lemma_un_le_of_le(v, n);
    if n <= c.left() {
        le::lemma_le_of_un_le(c.data.subrange(c.pos, c.pos + n));
    }
}

/// What an unsigned read returns is what comes next.
pub proof fn lemma_uint_read(c: Cursor, n: nat)
    requires
        0 <= c.pos <= c.data.len(),
        c.uint(n as int) is Ok,
    ensures
        c.at(le::le(c.uint(n as int)->Ok_0.0, n)),
        c.uint(n as int)->Ok_0.1 == c.advance(n as int),
        c.uint(n as int)->Ok_0.0 < le::pow256(n),
{
    le::lemma_le_of_un_le(c.data.subrange(c.pos, c.pos + n));
}

/// Reading a varint takes exactly the bytes that writing it gives.
pub proof fn lemma_varint(c: Cursor, v: u64)
    requires
        0 <= c.pos <= c.data.len(),
    ensures
        c.at(varint::varint(v as nat)) <==> c.varint() == Ok::<(u64, Cursor), FormatError>(
            (v, c.advance(varint::varint(v as nat).len() as int)),
        ),
{
    let s = varint::varint(v as nat);
    varint::lemma_varint_len_u64(v);
    if c.at(s) {
        let tail = c.data.skip(c.pos + s.len());
        assert(c.rest() =~= s + tail);
        varint::lemma_decode_of_encode(v, tail);
    }
    if c.varint() is Ok {
        lemma_varint_read(c);
    }
}

/// What a varint read returns is what comes next.
pub proof fn lemma_varint_read(c: Cursor)
    requires
        0 <= c.pos <= c.data.len(),
        c.varint() is Ok,
    ensures
        c.at(varint::varint(c.varint()->Ok_0.0 as nat)),
        c.varint()->Ok_0.1 == c.advance(varint::varint(c.varint()->Ok_0.0 as nat).len() as int),
        c.varint()->Ok_0.1.pos > c.pos,
{
    let v = c.varint()->Ok_0.0;
    let s = varint::varint(v as nat);
    varint::lemma_decode_is_canonical(c.rest());
    assert(c.rest().take(s.len() as int) =~= c.data.subrange(c.pos, c.pos + s.len()));
}

/// Reading a signed varint takes exactly the bytes that writing it gives.
pub proof fn lemma_varint_i64(c: Cursor, v: i64)
    requires
        0 <= c.pos <= c.data.len(),
    ensures
        c.at(varint_i64_bytes(v)) <==> c.varint_i64() == Ok::<(i64, Cursor), FormatError>(
            (v, c.advance(varint_i64_bytes(v).len() as int)),
        ),
{
    varint::lemma_zigzag_inverse(v, 0);
    lemma_varint(c, varint::zigzag_of(v as int) as u64);
    if c.varint() is Ok {
        lemma_varint_read(c);
        varint::lemma_zigzag_inverse(0, c.varint()->Ok_0.0);
    }
}

/// Reading a byte string takes exactly the bytes that writing it gives.
pub proof fn lemma_blob(c: Cursor, s: Seq<u8>)
    requires
        c.valid(),
        s.len() <= u64::MAX,
    ensures
        c.at(blob_bytes(s)) <==> c.blob() == Ok::<(Seq<u8>, Cursor), FormatError>(
            (s, c.advance(blob_bytes(s).len() as int)),
        ),
{
    let head = varint::varint(s.len());
    if c.at(blob_bytes(s)) {
        lemma_at_split(c, head, s);
        lemma_varint(c, s.len() as u64);
    }
    if c.blob() == Ok::<(Seq<u8>, Cursor), FormatError>((s, c.advance(blob_bytes(s).len() as int))) {
        lemma_blob_read(c);
    }
}

/// What a byte string read returns is what comes next.
pub proof fn lemma_blob_read(c: Cursor)
    requires
        c.valid(),
        c.blob() is Ok,
    ensures
        c.at(blob_bytes(c.blob()->Ok_0.0)),
        c.blob()->Ok_0.1 == c.advance(blob_bytes(c.blob()->Ok_0.0).len() as int),
        c.blob()->Ok_0.1.pos > c.pos,
        c.blob()->Ok_0.1.valid(),
{
    lemma_varint_read(c);
    let (n, d) = c.varint()->Ok_0;
    let s = c.blob()->Ok_0.0;
    assert(s.len() == n);
    lemma_at_join(c, varint::varint(n as nat), s);
}

/// Reading a string takes exactly the bytes that writing it gives.
pub proof fn lemma_string(c: Cursor, s: Seq<char>)
    requires
        c.valid(),
    ensures
        c.at(string_bytes(s)) <==> c.string() == Ok::<(Seq<char>, Cursor), FormatError>(
            (s, c.advance(string_bytes(s).len() as int)),
        ),
{
    encode_utf8_valid_utf8(s);
    encode_utf8_decode_utf8(s);
    if c.at(string_bytes(s)) {
        lemma_blob(c, encode_utf8(s));
    }
    if c.string() is Ok {
        lemma_string_read(c);
    }
}

/// What a string read returns is what comes next.
pub proof fn lemma_string_read(c: Cursor)
    requires
        c.valid(),
        c.string() is Ok,
    ensures
        c.at(string_bytes(c.string()->Ok_0.0)),
        c.string()->Ok_0.1 == c.advance(string_bytes(c.string()->Ok_0.0).len() as int),
        c.string()->Ok_0.1.pos > c.pos,
        c.string()->Ok_0.1.valid(),
{
    lemma_blob_read(c);
    decode_utf8_encode_utf8(c.blob()->Ok_0.0);
}

} // verus!
