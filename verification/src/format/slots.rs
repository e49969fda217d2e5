//! Choosing between the two manifest slots.
use vstd::prelude::*;

use crate::format::error::FormatError;
use crate::format::manifest;
use crate::format::manifest::{Manifest, ManifestModel, Slot};
use crate::text;

verus! {

/// What one slot turned out to be, independent of how it is held in memory.
pub enum StatusModel {
    Missing,
    Invalid(FormatError),
    Valid(ManifestModel),
}

/// What one slot turned out to be.
#[derive(Debug, PartialEq, Eq)]
pub enum SlotStatus {
    /// The file was absent. Normal for a database that has only ever committed once.
    Missing,
    /// The file was present but unreadable.
    Invalid(FormatError),
    /// The file decoded.
    Valid(Manifest),
}

impl View for SlotStatus {
    type V = StatusModel;

    open spec fn view(&self) -> StatusModel {
        match *self {
            SlotStatus::Missing => StatusModel::Missing,
            SlotStatus::Invalid(e) => StatusModel::Invalid(e),
            SlotStatus::Valid(m) => StatusModel::Valid(m@),
        }
    }
}

/// What a slot with these bytes is.
pub open spec fn examined(b: Option<Seq<u8>>) -> StatusModel {
    match b {
        None => StatusModel::Missing,
        Some(s) => match manifest::decoded(s) {
            Ok(m) => StatusModel::Valid(m),
            Err(e) => StatusModel::Invalid(e),
        },
    }
}

/// The authoritative slot: the valid one, or of two valid ones the one with the higher sequence,
/// slot A where they are equal.
pub open spec fn chosen(a: StatusModel, b: StatusModel) -> Option<(Slot, ManifestModel)> {
    match (a, b) {
        (StatusModel::Valid(ma), StatusModel::Valid(mb)) => if mb.sequence > ma.sequence {
            Some((Slot::B, mb))
        } else {
            Some((Slot::A, ma))
        },
        (StatusModel::Valid(ma), _) => Some((Slot::A, ma)),
        (_, StatusModel::Valid(mb)) => Some((Slot::B, mb)),
        _ => None,
    }
}

/// Where the next commit goes.
pub open spec fn next_after(c: Option<(Slot, ManifestModel)>) -> Slot {
    match c {
        Some((slot, _)) => manifest::other_slot(slot),
        None => Slot::A,
    }
}

/// How a slot is described where neither is readable.
pub open spec fn status_text(s: StatusModel) -> Seq<char> {
    match s {
        StatusModel::Missing => "missing"@,
        StatusModel::Invalid(e) => e.text(),
        StatusModel::Valid(m) => "valid, sequence "@ + text::decimal(m.sequence as nat),
    }
}

/// The bytes of an optional slice.
pub open spec fn slice_bytes(b: Option<&[u8]>) -> Option<Seq<u8>> {
    match b {
        Some(s) => Some(s@),
        None => None,
    }
}

/// What an optional chosen slot holds.
pub open spec fn chosen_model(c: Option<(Slot, Manifest)>) -> Option<(Slot, ManifestModel)> {
    match c {
        Some((slot, m)) => Some((slot, m@)),
        None => None,
    }
}

impl SlotStatus {
    fn examine(bytes: Option<&[u8]>) -> (r: Self)
        ensures
            r@ == examined(slice_bytes(bytes)),
    {
        match bytes {
            None => SlotStatus::Missing,
            Some(b) => match Manifest::decode(b) {
                Ok(m) => SlotStatus::Valid(m),
                Err(e) => SlotStatus::Invalid(e),
            },
        }
    }

    /// A short description for the error that reports both slots.
    pub fn describe(&self) -> (r: String)
        ensures
            r@ == status_text(self@),
    {
        match self {
            SlotStatus::Missing => "missing".to_owned(),
            SlotStatus::Invalid(e) => e.message(),
            SlotStatus::Valid(m) => {
                let mut out = "valid, sequence ".to_owned();
                text::push_decimal(&mut out, m.sequence);
                out
            },
        }
    }
}

/// The result of examining both slots.
#[derive(Debug, PartialEq, Eq)]
pub struct SlotScan {
    /// The authoritative slot and its manifest, if either slot was readable.
    pub chosen: Option<(Slot, Manifest)>,
    /// What slot A turned out to be.
    pub a: SlotStatus,
    /// What slot B turned out to be.
    pub b: SlotStatus,
}

impl Manifest {
    /// Read both slots and decide which one is authoritative.
    ///
    /// Never fails: a database with two unreadable slots is a real situation the caller has to
    /// report well, so the reasons for both rejections are returned rather than one error
    /// replacing the other.
    pub fn scan_slots(a: Option<&[u8]>, b: Option<&[u8]>) -> (r: SlotScan)
        ensures
            r.a@ == examined(slice_bytes(a)),
            r.b@ == examined(slice_bytes(b)),
            chosen_model(r.chosen) == chosen(r.a@, r.b@),
    {
        let sa = SlotStatus::examine(a);
        let sb = SlotStatus::examine(b);
        let chosen = match (&sa, &sb) {
            (SlotStatus::Valid(ma), SlotStatus::Valid(mb)) => {
                // Equal sequences should be impossible; choosing deterministically means the
                // situation is at least reproducible rather than depending on read order.
                if mb.sequence > ma.sequence {
                    Some((Slot::B, mb.clone()))
                } else {
                    Some((Slot::A, ma.clone()))
                }
            },
            (SlotStatus::Valid(ma), _) => Some((Slot::A, ma.clone())),
            (_, SlotStatus::Valid(mb)) => Some((Slot::B, mb.clone())),
            _ => None,
        };
        SlotScan { chosen, a: sa, b: sb }
    }
}

impl SlotScan {
    /// Where the next commit should be written.
    ///
    /// The slot not currently authoritative, so a crash mid-commit cannot damage the state the
    /// database would otherwise fall back to. With no valid slot at all, A is where a fresh
    /// database starts.
    pub fn next_slot(&self) -> (r: Slot)
        ensures
            r == next_after(chosen_model(self.chosen)),
    {
        match &self.chosen {
            Some((slot, _)) => slot.other(),
            None => Slot::A,
        }
    }
}

/// Both slots with one of them replaced.
pub open spec fn written_to(a: StatusModel, b: StatusModel, slot: Slot, new: StatusModel) -> (
    StatusModel,
    StatusModel,
) {
    match slot {
        Slot::A => (new, b),
        Slot::B => (a, new),
    }
}

/// The next commit never goes to the slot the database would fall back to.
pub proof fn lemma_commit_spares_the_chosen_slot(a: StatusModel, b: StatusModel)
    ensures
        match chosen(a, b) {
            Some((slot, _)) => next_after(chosen(a, b)) != slot,
            None => true,
        },
{
}

/// A commit that completes is what the next open reads: written to the next slot with a higher
/// sequence, the new manifest is authoritative.
pub proof fn lemma_completed_commit_wins(a: StatusModel, b: StatusModel, m: ManifestModel)
    requires
        match chosen(a, b) {
            Some((_, old)) => m.sequence > old.sequence,
            None => true,
        },
    ensures
        ({
            let slot = next_after(chosen(a, b));
            let (x, y) = written_to(a, b, slot, StatusModel::Valid(m));
            chosen(x, y) == Some((slot, m))
        }),
{
}

/// A commit that is interrupted changes nothing: whatever unreadable bytes are left in the next
/// slot, the manifest that was authoritative still is.
pub proof fn lemma_interrupted_commit_keeps_the_old(a: StatusModel, b: StatusModel, left: StatusModel)
    requires
        chosen(a, b) is Some,
        !(left is Valid),
    ensures
        ({
            let (x, y) = written_to(a, b, next_after(chosen(a, b)), left);
            chosen(x, y) == chosen(a, b)
        }),
{
}

/// Of two readable slots the one with the higher sequence is authoritative.
pub proof fn lemma_higher_sequence_wins(a: ManifestModel, b: ManifestModel)
    ensures
        match chosen(StatusModel::Valid(a), StatusModel::Valid(b)) {
            Some((_, m)) => m.sequence >= a.sequence && m.sequence >= b.sequence && (m == a || m
                == b),
            None => false,
        },
{
}

} // verus!
