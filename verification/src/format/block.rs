//! Checksummed blocks: `header || payload || crc32c(payload)`.
//!
//! The shape every small, whole-file structure uses: the manifest slots, the catalog, the
//! tombstone bitmap, index snapshots. Keeping this in one place means the ordering (write the
//! header, write the payload, checksum the payload, verify before interpreting) cannot drift
//! between structures.
use vstd::prelude::*;
use vstd::slice::slice_subrange;

use crate::format::crc32c;
use crate::format::cursor::Writer;
use crate::format::error::FormatError;
use crate::format::header;
use crate::format::header::{FileHeader, FileKind, HeaderFlags, HEADER_LEN};
use crate::format::le;
use crate::format::FORMAT_VERSION;

verus! {

/// Bytes of checksum appended after the payload.
pub const TRAILER_LEN: usize = 4;

/// The header of a block with a payload of `len` bytes.
pub open spec fn block_header(kind: FileKind, len: nat) -> FileHeader {
    FileHeader {
        kind,
        version: FORMAT_VERSION,
        flags: HeaderFlags(0),
        header_len: HEADER_LEN,
        payload_len: len as u64,
    }
}

/// The bytes of a block.
pub open spec fn block_bytes(kind: FileKind, payload: Seq<u8>) -> Seq<u8> {
    header::header_bytes(block_header(kind, payload.len())) + payload + le::le(
        crc32c::crc32c_of(payload) as nat,
        4,
    )
}

/// Where the payload of a block starts and how long it is, or why it cannot be located.
pub open spec fn located(b: Seq<u8>, kind: FileKind) -> Result<(int, int), FormatError> {
    match header::decoded_as(b, kind) {
        Ok(h) => {
            let end = h.header_len + h.payload_len + TRAILER_LEN;
            if end > usize::MAX {
                Err(
                    FormatError::Truncated {
                        offset: h.header_len as u64,
                        needed: h.payload_len,
                        available: b.len() as u64,
                    },
                )
            } else if b.len() < end {
                Err(
                    FormatError::Truncated {
                        offset: h.header_len as u64,
                        needed: end as u64,
                        available: b.len() as u64,
                    },
                )
            } else {
                Ok((h.header_len as int, h.payload_len as int))
            }
        },
        Err(e) => Err(e),
    }
}

/// The payload of a block, its checksum not looked at.
pub open spec fn opened(b: Seq<u8>, kind: FileKind) -> Result<Seq<u8>, FormatError> {
    match located(b, kind) {
        Ok((start, len)) => Ok(b.subrange(start, start + len)),
        Err(e) => Err(e),
    }
}

/// Whether the payload at `start` has the checksum stored behind it.
pub open spec fn payload_checked(b: Seq<u8>, start: int, len: int) -> Result<(), FormatError> {
    let stored = le::un_le(b.subrange(start + len, start + len + 4));
    let computed = crc32c::crc32c_of(b.subrange(start, start + len));
    if computed != stored {
        Err(
            FormatError::ChecksumMismatch {
                offset: start as u64,
                expected: stored as u32,
                found: computed,
            },
        )
    } else {
        Ok(())
    }
}

/// The payload of a block whose checksum holds, or why there is none.
pub open spec fn decoded(b: Seq<u8>, kind: FileKind) -> Result<Seq<u8>, FormatError> {
    match located(b, kind) {
        Ok((start, len)) => match payload_checked(b, start, len) {
            Ok(()) => Ok(b.subrange(start, start + len)),
            Err(e) => Err(e),
        },
        Err(e) => Err(e),
    }
}

/// Wrap `payload` in a header and a trailing checksum.
pub fn encode_block(kind: FileKind, payload: &[u8]) -> (r: Vec<u8>)
    ensures
        r@ == block_bytes(kind, payload@),
{
    let mut w = Writer::with_capacity(payload.len());
    FileHeader::new(kind, payload.len() as u64).write_to(&mut w);
    w.raw(payload);
    w.u32(crc32c::crc32c(payload));
    assert(w@ =~= block_bytes(kind, payload@));
    w.finish()
}

/// Locate the payload and its trailer within a block, validating the header and all bounds.
///
/// One place computes these offsets, so `open`, `decode` and `verify` cannot disagree about
/// where the payload ends.
fn locate(bytes: &[u8], kind: FileKind) -> (r: Result<(usize, usize), FormatError>)
    ensures
        match located(bytes@, kind) {
            Ok((start, len)) => r matches Ok((s, l)) && s == start && l == len && s + l
                + TRAILER_LEN <= bytes@.len(),
            Err(e) => r == Err::<(usize, usize), FormatError>(e),
        },
{
    let header = match FileHeader::decode(bytes, kind) {
        Ok(h) => h,
        Err(e) => {
            return Err(e);
        },
    };
    let absurd = FormatError::Truncated {
        offset: header.header_len as u64,
        needed: header.payload_len,
        available: bytes.len() as u64,
    };
    if header.payload_len > usize::MAX as u64 {
        return Err(absurd);
    }
    let start: usize = header.header_len as usize;
    let payload_len: usize = header.payload_len as usize;
    let body_end: usize = match start.checked_add(payload_len) {
        Some(e) => e,
        None => {
            return Err(absurd);
        },
    };
    let end: usize = match body_end.checked_add(TRAILER_LEN) {
        Some(e) => e,
        None => {
            return Err(absurd);
        },
    };
    if bytes.len() < end {
        return Err(
            FormatError::Truncated {
                offset: header.header_len as u64,
                needed: end as u64,
                available: bytes.len() as u64,
            },
        );
    }
    Ok((start, payload_len))
}

/// Return a block's payload **without** verifying its checksum.
///
/// Large files (the vector block, the metadata records) use this on open, because checksumming
/// hundreds of megabytes to answer "may I open this database?" would make startup unusable. Their
/// checksums are verified by [`verify_block`]. The header, its own checksum, and every length
/// bound are still validated.
///
/// # Errors
/// [`FormatError::BadMagic`], [`FormatError::Truncated`] or [`FormatError::Malformed`].
pub fn open_block(bytes: &[u8], kind: FileKind) -> (r: Result<&[u8], FormatError>)
    ensures
        match opened(bytes@, kind) {
            Ok(p) => r matches Ok(b) && b@ == p,
            Err(e) => r == Err::<&[u8], FormatError>(e),
        },
{
    match locate(bytes, kind) {
        Ok((start, len)) => Ok(slice_subrange(bytes, start, start + len)),
        Err(e) => Err(e),
    }
}

/// Verify a block and return its payload.
///
/// Order of checks is deliberate: the header validates itself first (so a garbage
/// `payload_len` cannot send us reading at a wild offset), then the payload length is checked
/// against the bytes actually present, then the payload checksum.
///
/// # Errors
/// As [`open_block`], plus [`FormatError::ChecksumMismatch`].
pub fn decode_block(bytes: &[u8], kind: FileKind) -> (r: Result<&[u8], FormatError>)
    ensures
        match decoded(bytes@, kind) {
            Ok(p) => r matches Ok(b) && b@ == p,
            Err(e) => r == Err::<&[u8], FormatError>(e),
        },
{
    match locate(bytes, kind) {
        Ok((start, len)) => match check_payload(bytes, start, len) {
            Ok(()) => Ok(slice_subrange(bytes, start, start + len)),
            Err(e) => Err(e),
        },
        Err(e) => Err(e),
    }
}

/// Verify a block's payload checksum without returning the payload.
///
/// # Errors
/// As [`decode_block`].
pub fn verify_block(bytes: &[u8], kind: FileKind) -> (r: Result<(), FormatError>)
    ensures
        match decoded(bytes@, kind) {
            Ok(_) => r == Ok::<(), FormatError>(()),
            Err(e) => r == Err::<(), FormatError>(e),
        },
{
    match locate(bytes, kind) {
        Ok((start, len)) => check_payload(bytes, start, len),
        Err(e) => Err(e),
    }
}

fn check_payload(bytes: &[u8], start: usize, len: usize) -> (r: Result<(), FormatError>)
    requires
        start + len + TRAILER_LEN <= bytes@.len(),
    ensures
        r == payload_checked(bytes@, start as int, len as int),
{
    assert(bytes.len() == bytes@.len());
    let trailer_at: usize = start + len;
    let payload = slice_subrange(bytes, start, trailer_at);
    let trailer = slice_subrange(bytes, trailer_at, trailer_at + TRAILER_LEN);
    proof {
        le::lemma_le_of_un_le(trailer@);
        le::lemma_pow256_values();
    }
    let stored: u32 = le::read_le(trailer) as u32;
    let computed: u32 = crc32c::crc32c(payload);
    if computed != stored {
        return Err(
            FormatError::ChecksumMismatch {
                offset: start as u64,
                expected: stored,
                found: computed,
            },
        );
    }
    Ok(())
}

/// Where the parts of a block lie, whatever follows it.
pub proof fn lemma_block_layout(kind: FileKind, payload: Seq<u8>, rest: Seq<u8>)
    requires
        payload.len() + HEADER_LEN + TRAILER_LEN <= usize::MAX,
    ensures
        block_bytes(kind, payload).len() == payload.len() + HEADER_LEN + TRAILER_LEN,
        located(block_bytes(kind, payload) + rest, kind) == Ok::<(int, int), FormatError>(
            (HEADER_LEN as int, payload.len() as int),
        ),
        (block_bytes(kind, payload) + rest).subrange(32, 32 + payload.len() as int) == payload,
        le::un_le(
            (block_bytes(kind, payload) + rest).subrange(32 + payload.len() as int, 36 + payload.len() as int),
        ) == crc32c::crc32c_of(payload),
{
    let h = block_header(kind, payload.len());
    let b = block_bytes(kind, payload) + rest;
    let crc = crc32c::crc32c_of(payload);
    header::lemma_header_len(h);
    le::lemma_le_fixed(crc as nat);
    assert(b =~= header::header_bytes(h) + (payload + le::le(crc as nat, 4) + rest));
    header::lemma_header_round_trip(h, payload + le::le(crc as nat, 4) + rest);
    assert(b.subrange(32, 32 + payload.len() as int) =~= payload);
    assert(b.subrange(32 + payload.len() as int, 36 + payload.len() as int) =~= le::le(crc as nat, 4));
}

/// A payload survives being wrapped and unwrapped, and bytes behind the block change nothing.
pub proof fn lemma_block_round_trip(kind: FileKind, payload: Seq<u8>, rest: Seq<u8>)
    requires
        payload.len() + HEADER_LEN + TRAILER_LEN <= usize::MAX,
    ensures
        decoded(block_bytes(kind, payload) + rest, kind) == Ok::<Seq<u8>, FormatError>(payload),
        opened(block_bytes(kind, payload) + rest, kind) == Ok::<Seq<u8>, FormatError>(payload),
{
    lemma_block_layout(kind, payload, rest);
}

/// A block opened as another kind is refused, naming both kinds.
pub proof fn lemma_block_wrong_kind(kind: FileKind, payload: Seq<u8>, other: FileKind)
    requires
        kind != other,
    ensures
        decoded(block_bytes(kind, payload), other) == Err::<Seq<u8>, FormatError>(
            FormatError::BadMagic {
                expected: header::magic_array(other),
                found: header::magic_array(kind),
            },
        ),
{
    let h = block_header(kind, payload.len());
    let tail = payload + le::le(crc32c::crc32c_of(payload) as nat, 4);
    assert(block_bytes(kind, payload) =~= header::header_bytes(h) + tail);
    header::lemma_wrong_kind_refused(h, tail, other);
}

/// A block cut short anywhere is refused.
pub proof fn lemma_block_truncated(kind: FileKind, payload: Seq<u8>, n: int)
    requires
        payload.len() + HEADER_LEN + TRAILER_LEN <= usize::MAX,
        0 <= n < block_bytes(kind, payload).len(),
    ensures
        opened(block_bytes(kind, payload).take(n), kind) is Err,
        decoded(block_bytes(kind, payload).take(n), kind) is Err,
{
    let whole = block_bytes(kind, payload);
    let b = whole.take(n);
    let h = block_header(kind, payload.len());
    lemma_block_layout(kind, payload, Seq::empty());
    assert(whole + Seq::<u8>::empty() =~= whole);
    header::lemma_header_len(h);
    if header::decoded_any(b) is Ok {
        header::lemma_header_canonical(b);
        header::lemma_header_canonical(whole);
        let g = header::decoded_any(b)->Ok_0;
        assert(b.take(32) =~= whole.take(32));
        assert(b.take(32) + Seq::<u8>::empty() =~= b.take(32));
        header::lemma_header_round_trip(g, Seq::empty());
        header::lemma_header_round_trip(h, Seq::empty());
        assert(whole.take(32) =~= header::header_bytes(h));
        assert(header::header_bytes(h) + Seq::<u8>::empty() =~= header::header_bytes(h));
        assert(g == h);
    }
}

/// Damage to any one byte of a payload is caught by its checksum.
pub proof fn lemma_block_damage_caught(kind: FileKind, payload: Seq<u8>, i: int, x: u8)
    requires
        payload.len() + HEADER_LEN + TRAILER_LEN <= usize::MAX,
        0 <= i < payload.len(),
        x != payload[i],
    ensures
        decoded(block_bytes(kind, payload).update(HEADER_LEN + i, x), kind) == Err::<
            Seq<u8>,
            FormatError,
        >(
            FormatError::ChecksumMismatch {
                offset: HEADER_LEN as u64,
                expected: crc32c::crc32c_of(payload),
                found: crc32c::crc32c_of(payload.update(i, x)),
            },
        ),
{
    let whole = block_bytes(kind, payload);
    let b = whole.update(HEADER_LEN + i, x);
    let h = block_header(kind, payload.len());
    let crc = crc32c::crc32c_of(payload);
    let tail = payload.update(i, x) + le::le(crc as nat, 4);
    header::lemma_header_len(h);
    le::lemma_le_fixed(crc as nat);
    assert(b =~= header::header_bytes(h) + tail);
    header::lemma_header_round_trip(h, tail);
    crc32c::lemma_crc_detects_byte_change(payload, i, x);
    assert(b.subrange(32, 32 + payload.len() as int) =~= payload.update(i, x));
    assert(b.subrange(32 + payload.len() as int, 36 + payload.len() as int) =~= le::le(crc as nat, 4));
}

} // verus!
