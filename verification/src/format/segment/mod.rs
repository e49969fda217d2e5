//! Segment files: the four blocks that hold a collection's data.
//!
//! A segment is immutable once written, apart from its tombstone bitmap. That immutability is
//! what makes readers lock-free: a reader scanning a segment cannot race a writer, because
//! writers only ever create new segments.
//!
//! ```text
//! NNNNNN.vec   fixed-stride vectors     row r at VECTOR_DATA_OFFSET + r * stride
//! NNNNNN.dir   row directory            ids, metadata locations, cached norms
//! NNNNNN.meta  metadata and content     addressed by (offset, len) from the directory
//! NNNNNN.del   live bitmap              the only mutable part of a segment
//! ```
pub mod directory;
pub mod meta;
pub mod tombstones;
pub mod vectors;
