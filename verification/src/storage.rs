//! What the engine says to the storage underneath.
//!
//! The engine never opens a file itself. Whoever drives it does, and hands the contents over.
use vstd::prelude::*;

verus! {

/// How to open a file.
#[derive(Debug, Clone, Copy, PartialEq, Eq, Structural)]
pub enum OpenMode {
    /// Open for reading. Fails if the file does not exist.
    Read,
    /// Open for reading and writing. Fails if the file does not exist.
    ReadWrite,
    /// Open for reading and writing, creating the file if it does not exist.
    Create,
    /// Create for reading and writing. Fails if the file already exists.
    CreateNew,
}

impl OpenMode {
    /// Whether this mode permits writes.
    pub fn is_writable(self) -> (r: bool)
        ensures
            r == (self != OpenMode::Read),
    {
        match self {
            OpenMode::Read => false,
            _ => true,
        }
    }
}

/// Whether a directory entry is a file or a directory.
#[derive(Debug, Clone, Copy, PartialEq, Eq, Structural)]
pub enum EntryKind {
    /// A regular file.
    File,
    /// A directory.
    Directory,
}

/// One entry of a listed directory.
#[derive(Debug, Clone, PartialEq, Eq)]
pub struct DirEntry {
    /// The entry's name, relative to the directory that was listed.
    pub name: String,
    /// Whether it is a file or a directory.
    pub kind: EntryKind,
}

/// What is known of a path.
#[derive(Debug, Clone, Copy, PartialEq, Eq, Structural)]
pub struct FileMeta {
    /// Length in bytes. Zero for directories.
    pub len: u64,
    /// Whether the path is a file or a directory.
    pub kind: EntryKind,
}

} // verus!
