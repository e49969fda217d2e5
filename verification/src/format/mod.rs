//! The on-disk format: varints, checksums, headers, blocks and the structures built from them.
use vstd::prelude::*;

pub mod accept_laws;
pub mod block;
pub mod catalog;
pub mod crc32c;
pub mod cursor;
pub mod error;
pub mod header;
pub mod le;
pub mod lookup;
pub mod manifest;
pub mod manifest_laws;
pub mod segment;
pub mod slots;
pub mod value;
pub mod value_laws;
pub mod varint;
pub mod wal;
pub mod wal_laws;

verus! {

/// The format version this build writes.
pub const FORMAT_VERSION: u16 = 1;

/// The oldest format version this build reads.
pub const MIN_READABLE_VERSION: u16 = 1;

/// The four bytes every file begins with: `VDB1`.
pub const MAGIC_PREFIX: [u8; 4] = [0x56, 0x44, 0x42, 0x31];

} // verus!
