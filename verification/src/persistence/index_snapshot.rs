//! Storing an index's snapshot on disk.
//!
//! A snapshot is a cache of something the segments already contain, so every failure mode here
//! (a missing file, a truncated one, a checksum that does not match) resolves to "there is no
//! snapshot", and the index rebuilds.
use vstd::prelude::*;
use vstd::slice::slice_to_vec;
use vstd::utf8::*;

use crate::bytes;
use crate::error;
use crate::error::{DbError, ErrorModel};
use crate::format::block;
use crate::format::block::{decode_block, encode_block};
use crate::format::header::{FileKind, HEADER_LEN};
use crate::format::slots;
use crate::path::DbPath;
use crate::persistence::layout;
use crate::persistence::layout_laws;
use crate::validation;

verus! {

/// The largest snapshot file that is read.
///
/// A snapshot far larger than expected is refused rather than allocated: it is a cache, and no
/// cache is worth running out of memory.
pub const MAX_SNAPSHOT_BYTES: u64 = 4_294_967_296;

/// A snapshot that is ready to be written.
#[derive(Debug)]
pub struct PendingSnapshot {
    /// The directory to create first.
    pub dir: DbPath,
    /// The file to overwrite, truncated first: a new snapshot shorter than the old one would
    /// otherwise leave a tail of stale bytes.
    pub path: DbPath,
    /// What to write into it.
    pub bytes: Vec<u8>,
}

/// A snapshot that is ready to be written, independent of how it is held in memory.
pub struct SnapshotModel {
    pub dir: Seq<char>,
    pub path: Seq<char>,
    pub bytes: Seq<u8>,
}

impl View for PendingSnapshot {
    type V = SnapshotModel;

    open spec fn view(&self) -> SnapshotModel {
        SnapshotModel { dir: self.dir@, path: self.path@, bytes: self.bytes@ }
    }
}

/// One collection's snapshot slot.
///
/// One file per kind, overwritten in place. There is no generation number and no rename dance,
/// because there is nothing to protect: a half-written snapshot fails its checksum and is
/// discarded, which is the same outcome as not having one.
#[derive(Debug)]
pub struct StoredSnapshots {
    collection: String,
    kind: &'static str,
}

/// Whether a file of so many bytes is worth reading.
pub open spec fn readable(len: nat) -> bool {
    0 < len <= MAX_SNAPSHOT_BYTES
}

/// The snapshot that a file holds, if it holds one.
pub open spec fn held(b: Seq<u8>) -> Option<Seq<u8>> {
    if readable(b.len()) {
        match block::decoded(b, FileKind::Index) {
            Ok(p) => Some(p),
            Err(_) => None,
        }
    } else {
        None
    }
}

/// Whether a file of so many bytes is worth reading.
pub fn is_readable(len: u64) -> (r: bool)
    ensures
        r == readable(len as nat),
{
    len > 0 && len <= MAX_SNAPSHOT_BYTES
}

impl StoredSnapshots {
    /// The collection that the slot belongs to.
    pub closed spec fn spec_collection(self) -> Seq<char> {
        self.collection@
    }

    /// The kind of index that the slot is for.
    pub closed spec fn spec_kind(self) -> &'static str {
        self.kind
    }

    /// The text of the file's path.
    pub open spec fn spec_text(self) -> Seq<char> {
        layout::index_text(self.spec_collection(), self.spec_kind()@, 0)
    }

    /// The snapshot that the slot's file holds, if it holds one.
    pub open spec fn loaded(self, contents: Option<Seq<u8>>) -> Option<Seq<u8>> {
        match (layout::path_of(self.spec_text()), contents) {
            (Ok(_), Some(b)) => held(b),
            _ => None,
        }
    }

    /// What storing a snapshot writes, or why it cannot be stored.
    pub open spec fn stored(self, payload: Seq<u8>) -> Result<SnapshotModel, ErrorModel> {
        match layout::path_of(layout::index_dir_text(self.spec_collection())) {
            Err(e) => Err(e),
            Ok(dir) => match layout::path_of(self.spec_text()) {
                Err(e) => Err(e),
                Ok(path) => Ok(
                    SnapshotModel {
                        dir,
                        path,
                        bytes: block::block_bytes(FileKind::Index, payload),
                    },
                ),
            },
        }
    }

    /// The slot for `collection`'s index of the given `kind`.
    pub fn new(collection: &str, kind: &'static str) -> (r: Self)
        ensures
            r.spec_collection() == collection@,
            r.spec_kind() == kind,
    {
        StoredSnapshots { collection: collection.to_owned(), kind }
    }

    /// The slot's file.
    ///
    /// # Errors
    /// As [`layout::index_file`].
    pub fn path(&self) -> (r: Result<DbPath, DbError>)
        ensures
            layout::is_path(r, self.spec_text()),
    {
        layout::index_file(self.collection.as_str(), self.kind, 0)
    }

    /// The snapshot that the slot's file holds, `contents` being what is in the file where there
    /// is one that can be read.
    ///
    /// Verified here rather than trusted, because everything downstream indexes into it.
    pub fn load(&self, contents: Option<&[u8]>) -> (r: Option<Vec<u8>>)
        ensures
            bytes::option_bytes(r) == self.loaded(slots::slice_bytes(contents)),
    {
        match self.path() {
            Ok(_) => {},
            Err(_) => {
                return None;
            },
        }
        let b = match contents {
            Some(b) => b,
            None => {
                return None;
            },
        };
        if !is_readable(b.len() as u64) {
            return None;
        }
        match decode_block(b, FileKind::Index) {
            Ok(p) => Some(slice_to_vec(p)),
            Err(_) => None,
        }
    }

    /// What storing a snapshot writes.
    ///
    /// # Errors
    /// [`crate::error::ValidationError`] for a collection whose name makes no path.
    pub fn store(&self, bytes: &[u8]) -> (r: Result<PendingSnapshot, DbError>)
        ensures
            match self.stored(bytes@) {
                Err(e) => error::failed(r, e),
                Ok(m) => r matches Ok(p) && p@ == m,
            },
    {
        let dir = match layout::index_dir(self.collection.as_str()) {
            Ok(d) => d,
            Err(e) => {
                return Err(e);
            },
        };
        let path = match self.path() {
            Ok(p) => p,
            Err(e) => {
                return Err(e);
            },
        };
        Ok(PendingSnapshot { dir, path, bytes: encode_block(FileKind::Index, bytes) })
    }
}

/// What a slot stored it loads again, where the collection's name is not refused, the kind makes a
/// file name and the snapshot is not too large to be read.
pub proof fn lemma_stored_snapshot_is_loaded(slot: StoredSnapshots, payload: Seq<u8>)
    requires
        validation::name_rejected(encode_utf8(slot.spec_collection())) is None,
        layout_laws::names_snapshot(slot.spec_kind()@, 0),
        payload.len() + HEADER_LEN + block::TRAILER_LEN <= MAX_SNAPSHOT_BYTES,
        payload.len() + HEADER_LEN + block::TRAILER_LEN <= usize::MAX,
    ensures
        slot.stored(payload) is Ok,
        slot.loaded(Some(slot.stored(payload)->Ok_0.bytes)) == Some(payload),
        slot.loaded(None) is None,
{
    layout_laws::lemma_snapshot_has_a_valid_path(slot.spec_collection(), slot.spec_kind()@, 0);
    lemma_snapshot_round_trip(payload);
}

/// The file of a stored snapshot holds it.
pub proof fn lemma_snapshot_round_trip(payload: Seq<u8>)
    requires
        payload.len() + HEADER_LEN + block::TRAILER_LEN <= MAX_SNAPSHOT_BYTES,
        payload.len() + HEADER_LEN + block::TRAILER_LEN <= usize::MAX,
    ensures
        held(block::block_bytes(FileKind::Index, payload)) == Some(payload),
{
    let b = block::block_bytes(FileKind::Index, payload);
    assert(b + Seq::<u8>::empty() =~= b);
    block::lemma_block_layout(FileKind::Index, payload, Seq::empty());
    block::lemma_block_round_trip(FileKind::Index, payload, Seq::empty());
}

/// A snapshot cut short anywhere is no snapshot.
pub proof fn lemma_half_written_snapshot_is_discarded(payload: Seq<u8>, n: int)
    requires
        payload.len() + HEADER_LEN + block::TRAILER_LEN <= usize::MAX,
        0 <= n < block::block_bytes(FileKind::Index, payload).len(),
    ensures
        held(block::block_bytes(FileKind::Index, payload).take(n)) is None,
{
    block::lemma_block_truncated(FileKind::Index, payload, n);
}

/// A snapshot with a damaged byte is no snapshot.
pub proof fn lemma_damaged_snapshot_is_discarded(payload: Seq<u8>, i: int, x: u8)
    requires
        payload.len() + HEADER_LEN + block::TRAILER_LEN <= usize::MAX,
        0 <= i < payload.len(),
        x != payload[i],
    ensures
        held(block::block_bytes(FileKind::Index, payload).update(HEADER_LEN + i, x)) is None,
{
    block::lemma_block_damage_caught(FileKind::Index, payload, i, x);
}

} // verus!
