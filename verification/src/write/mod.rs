//! Buffered writes.
pub mod memtable;
pub mod memtable_laws;
pub mod source;

pub use crate::write::memtable::Memtable;
