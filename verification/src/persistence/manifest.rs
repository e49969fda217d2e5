//! Reading and committing the database root.
//!
//! Committing is: encode, write to the slot that is not currently authoritative, sync. A crash at
//! any instant leaves at least one intact slot: either the new write completed and wins on
//! sequence, or it did not and fails its checksum, so the old one wins. Writing to the inactive
//! slot is the load-bearing detail: overwriting the live slot would mean a torn write destroys
//! the very state we would otherwise fall back to.
//!
//! The bytes of the slots come in and go out as plain byte strings. A commit is first prepared as
//! a [`PendingCommit`]; the store adopts it once its bytes are on disk.
use vstd::prelude::*;

use crate::error;
use crate::error::convert;
use crate::error::convert::from_format_at;
use crate::error::{CorruptionError, CorruptionModel, DbError, ErrorModel};
use crate::format::block;
use crate::format::header::{FileKind, HEADER_LEN};
use crate::format::manifest;
use crate::format::manifest::{Manifest, ManifestModel, Slot};
use crate::format::manifest_laws;
use crate::format::slots;
use crate::format::slots::{SlotScan, StatusModel};
use crate::path;
use crate::path::DbPath;
use crate::persistence::layout;

verus! {

/// The contents of a slot as they count: a file of zero length is absent, not corrupt.
///
/// A slot is written as truncate-then-write, so a crash between the two leaves an empty file.
/// Reporting that as corruption would make a database that had not finished its very first
/// commit permanently unopenable. It is safe because a commit never targets the authoritative
/// slot.
pub open spec fn counted(b: Option<Seq<u8>>) -> Option<Seq<u8>> {
    match b {
        Some(s) => if s.len() == 0 {
            None
        } else {
            b
        },
        None => None,
    }
}

fn present<'a>(b: Option<&'a [u8]>) -> (r: Option<&'a [u8]>)
    ensures
        slots::slice_bytes(r) == counted(slots::slice_bytes(b)),
        b is None ==> r is None,
{
    match b {
        Some(s) => {
            if s.len() == 0 {
                None
            } else {
                Some(s)
            }
        },
        None => None,
    }
}

/// The error for two slots of which neither is readable. It describes both, so that a user can
/// judge whether their data is recoverable.
pub open spec fn no_valid_manifest(path: Seq<char>, a: StatusModel, b: StatusModel) -> ErrorModel {
    ErrorModel::Corruption(
        CorruptionModel::NoValidManifest {
            path,
            slot_a: slots::status_text(a),
            slot_b: slots::status_text(b),
        },
    )
}

/// The error for two slots of which neither is readable.
pub fn report_unreadable(path: DbPath, scan: &SlotScan) -> (r: DbError)
    ensures
        r@ == no_valid_manifest(path@, scan.a@, scan.b@),
{
    DbError::Corruption(
        CorruptionError::NoValidManifest {
            path,
            slot_a: scan.a.describe(),
            slot_b: scan.b.describe(),
        },
    )
}

/// A commit that is ready to be written.
#[derive(Debug)]
pub struct PendingCommit {
    /// The slot to write.
    pub slot: Slot,
    /// The bytes to write there.
    pub bytes: Vec<u8>,
    /// The manifest they hold.
    pub manifest: Manifest,
}

/// The manifest that a commit of `next` over `current` writes: the next sequence, the same
/// database, the new time.
pub open spec fn stamped(current: ManifestModel, next: ManifestModel, now_ms: u64) -> ManifestModel {
    ManifestModel {
        sequence: if current.sequence == u64::MAX {
            u64::MAX
        } else {
            (current.sequence + 1) as u64
        },
        db_uuid: current.db_uuid,
        created_at_ms: current.created_at_ms,
        updated_at_ms: now_ms,
        collections: next.collections,
    }
}

/// Whether a commit of `m` to `slot` was prepared, or refused as it should be.
pub open spec fn prepared(r: Result<PendingCommit, DbError>, slot: Slot, m: ManifestModel) -> bool {
    match manifest::checked(m) {
        Ok(_) => {
            &&& r matches Ok(p)
            &&& p.slot == slot
            &&& p.manifest@ == m
            &&& p.bytes@ == block::block_bytes(FileKind::Manifest, manifest::manifest_bytes(m))
        },
        Err(e) => error::failed(r, convert::reported(e, slot.text())),
    }
}

fn prepare(slot: Slot, manifest: Manifest) -> (r: Result<PendingCommit, DbError>)
    ensures
        prepared(r, slot, manifest@),
{
    match manifest.encode() {
        Ok(bytes) => Ok(PendingCommit { slot, bytes, manifest }),
        Err(e) => {
            let path = match layout::manifest(slot) {
                Ok(p) => p,
                Err(e) => {
                    return Err(e);
                },
            };
            Err(from_format_at(e, &path))
        },
    }
}

/// Holds the authoritative manifest and knows where the next commit goes.
#[derive(Debug)]
pub struct ManifestStore {
    current: Manifest,
    /// The slot `current` was read from, or written to.
    slot: Slot,
}

impl View for ManifestStore {
    type V = (Slot, ManifestModel);

    closed spec fn view(&self) -> (Slot, ManifestModel) {
        (self.slot, self.current@)
    }
}

impl ManifestStore {
    /// Look at the contents of both slots and adopt the authoritative one.
    ///
    /// Returns `Ok(None)` when neither slot exists, which is a database that has never
    /// committed, not a failure.
    ///
    /// # Errors
    /// [`CorruptionError::NoValidManifest`], describing both slots, when at least one file is
    /// present but none is readable.
    pub fn load(a: Option<&[u8]>, b: Option<&[u8]>) -> (r: Result<Option<Self>, DbError>)
        ensures
            ({
                let x = counted(slots::slice_bytes(a));
                let y = counted(slots::slice_bytes(b));
                if x is None && y is None {
                    r matches Ok(o) && o is None
                } else {
                    match slots::chosen(slots::examined(x), slots::examined(y)) {
                        Some(c) => r matches Ok(Some(s)) && s@ == c,
                        None => error::failed(
                            r,
                            no_valid_manifest(
                                path::root_text(),
                                slots::examined(x),
                                slots::examined(y),
                            ),
                        ),
                    }
                }
            }),
    {
        let x = present(a);
        let y = present(b);
        if x.is_none() && y.is_none() {
            return Ok(None);
        }
        let scan = Manifest::scan_slots(x, y);
        match scan.chosen {
            Some((slot, current)) => Ok(Some(ManifestStore { current, slot })),
            None => Err(
                DbError::Corruption(
                    CorruptionError::NoValidManifest {
                        path: DbPath::root(),
                        slot_a: scan.a.describe(),
                        slot_b: scan.b.describe(),
                    },
                ),
            ),
        }
    }

    /// Examine both slots without adopting one, for verification and inspection.
    pub fn scan(a: Option<&[u8]>, b: Option<&[u8]>) -> (r: SlotScan)
        ensures
            r.a@ == slots::examined(counted(slots::slice_bytes(a))),
            r.b@ == slots::examined(counted(slots::slice_bytes(b))),
            slots::chosen_model(r.chosen) == slots::chosen(r.a@, r.b@),
    {
        Manifest::scan_slots(present(a), present(b))
    }

    /// Prepare the first manifest for a new database. It goes to slot A.
    ///
    /// # Errors
    /// Any format error.
    pub fn create(db_uuid: [u8; 16], now_ms: u64) -> (r: Result<PendingCommit, DbError>)
        ensures
            r is Ok,
            prepared(
                r,
                Slot::A,
                ManifestModel {
                    sequence: 1,
                    db_uuid: db_uuid@,
                    created_at_ms: now_ms,
                    updated_at_ms: now_ms,
                    collections: Seq::empty(),
                },
            ),
    {
        prepare(Slot::A, Manifest::new(db_uuid, now_ms))
    }

    /// The authoritative manifest.
    pub fn current(&self) -> (r: &Manifest)
        ensures
            r@ == self@.1,
    {
        &self.current
    }

    /// Which slot it came from.
    pub fn slot(&self) -> (r: Slot)
        ensures
            r == self@.0,
    {
        self.slot
    }

    /// Prepare the commit of a new manifest, bumping the sequence and targeting the other slot.
    ///
    /// # Errors
    /// Any format error. The store is left unchanged either way, so a caller that retries commits
    /// the same thing rather than skipping a sequence number.
    pub fn commit(&self, next: Manifest, now_ms: u64) -> (r: Result<PendingCommit, DbError>)
        ensures
            prepared(r, manifest::other_slot(self@.0), stamped(self@.1, next@, now_ms)),
    {
        let next = Manifest {
            sequence: self.current.sequence.saturating_add(1),
            db_uuid: self.current.db_uuid,
            created_at_ms: self.current.created_at_ms,
            updated_at_ms: now_ms,
            collections: next.collections,
        };
        prepare(self.slot.other(), next)
    }

    /// The store once a first commit has been written.
    pub fn adopted(pending: PendingCommit) -> (r: Self)
        ensures
            r@ == (pending.slot, pending.manifest@),
    {
        ManifestStore { current: pending.manifest, slot: pending.slot }
    }

    /// Take a commit over once it has been written.
    pub fn adopt(&mut self, pending: PendingCommit)
        ensures
            final(self)@ == (pending.slot, pending.manifest@),
    {
        *self = ManifestStore::adopted(pending);
    }
}

impl Clone for ManifestStore {
    fn clone(&self) -> (r: Self)
        ensures
            r@ == self@,
    {
        ManifestStore { current: self.current.clone(), slot: self.slot }
    }
}

/// A commit that was written is what the next open adopts: with the prepared bytes in the other
/// slot, loading gives the prepared manifest from that slot.
pub proof fn lemma_written_commit_is_loaded(a: Option<Seq<u8>>, b: Option<Seq<u8>>, m: ManifestModel)
    requires
        m.db_uuid.len() == 16,
        manifest::checked(m) is Ok,
        manifest_laws::snapshots_fit(m.collections),
        manifest::manifest_bytes(m).len() + HEADER_LEN + block::TRAILER_LEN <= usize::MAX,
        match slots::chosen(slots::examined(counted(a)), slots::examined(counted(b))) {
            Some((_, old)) => m.sequence > old.sequence,
            None => true,
        },
    ensures
        ({
            let was = slots::chosen(slots::examined(counted(a)), slots::examined(counted(b)));
            let slot = slots::next_after(was);
            let new = Some(
                block::block_bytes(FileKind::Manifest, manifest::manifest_bytes(m)),
            );
            let (x, y) = match slot {
                Slot::A => (new, b),
                Slot::B => (a, new),
            };
            slots::chosen(slots::examined(counted(x)), slots::examined(counted(y))) == Some(
                (slot, m),
            )
        }),
{
    manifest_laws::lemma_manifest_round_trip(m);
    slots::lemma_completed_commit_wins(
        slots::examined(counted(a)),
        slots::examined(counted(b)),
        m,
    );
    let payload = manifest::manifest_bytes(m);
    block::lemma_block_layout(FileKind::Manifest, payload, Seq::empty());
    assert(block::block_bytes(FileKind::Manifest, payload).len() > 0);
}

/// A commit that was interrupted between truncating the slot and writing it loses nothing: the
/// empty file counts as absent, and the manifest that was authoritative still is.
pub proof fn lemma_emptied_slot_is_harmless(a: Option<Seq<u8>>, b: Option<Seq<u8>>)
    requires
        slots::chosen(slots::examined(counted(a)), slots::examined(counted(b))) is Some,
    ensures
        ({
            let was = slots::chosen(slots::examined(counted(a)), slots::examined(counted(b)));
            let empty = Some(Seq::<u8>::empty());
            let (x, y) = match slots::next_after(was) {
                Slot::A => (empty, b),
                Slot::B => (a, empty),
            };
            slots::chosen(slots::examined(counted(x)), slots::examined(counted(y))) == was
        }),
{
    slots::lemma_interrupted_commit_keeps_the_old(
        slots::examined(counted(a)),
        slots::examined(counted(b)),
        StatusModel::Missing,
    );
}

} // verus!
