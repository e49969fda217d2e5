//! Durability: the log, recovery, and the policy that decides when bytes must be safe.
use vstd::prelude::*;

pub mod catalog;
pub mod flush;
pub mod flush_laws;
pub mod index_snapshot;
pub mod layout;
pub mod layout_laws;
pub mod manifest;
pub mod owed_laws;
pub mod recovery;
pub mod recovery_laws;
pub mod segment;
pub mod source;
pub mod wal;

verus! {

/// How aggressively writes are made durable.
///
/// The distinction that drives the default: a process crash loses nothing in any of these modes,
/// because the bytes are already in the operating system's page cache and will reach the disk
/// regardless. Only power loss or a kernel panic can lose an unsynced write.
///
/// On a phone, process death is routine and power loss is rare. Paying a sync per write to defend
/// against the rare case, on flash storage where it is expensive and battery matters, is the
/// wrong trade for almost every application. Hence [`Durability::Batch`] as the default rather
/// than [`Durability::Full`].
#[derive(Debug, Clone, Copy, PartialEq, Eq, Structural)]
pub enum Durability {
    /// Sync after every operation. Loses nothing, including to power loss. Slow on mobile flash.
    Full,
    /// Sync on batch commit, on explicit flush, and on close.
    ///
    /// The default. Loses only writes made since the last sync, and only to power loss.
    Batch,
    /// Sync only on explicit flush and on close. For bulk import, where the caller can simply
    /// redo the import.
    Relaxed,
}

impl Default for Durability {
    fn default() -> (r: Self)
        ensures
            r == Durability::Batch,
    {
        Durability::Batch
    }
}

impl Durability {
    /// Whether a single, non-batched write should sync immediately.
    pub fn syncs_every_write(self) -> (r: bool)
        ensures
            r == (self == Durability::Full),
    {
        match self {
            Durability::Full => true,
            _ => false,
        }
    }

    /// Whether committing a batch should sync.
    pub fn syncs_on_commit(self) -> (r: bool)
        ensures
            r == (self != Durability::Relaxed),
    {
        match self {
            Durability::Relaxed => false,
            _ => true,
        }
    }
}

} // verus!
