//! Checking a collection by itself.
use vstd::prelude::*;

use crate::api::collection;
use crate::api::collection::{count_live, count_rows, fitted, CollModel, Collection};
use crate::api::verify::{CollectionCheck, CollectionVerify, VerifyLevel, VerifyModel};
use crate::error;
use crate::error::ErrorModel;
use crate::persistence::flush;
use crate::persistence::layout::SegmentFile;
use crate::persistence::segment;
use crate::persistence::segment::{verify_checksums, SegmentFiles};

verus! {

/// What a damaged segment is reported as.
pub open spec fn damage_text(name: Seq<char>, e: ErrorModel) -> Seq<char> {
    name + ": "@ + e.text()
}

/// The reports on the damaged ones of the first `n` segments, in order.
pub open spec fn damage(c: CollModel, files: Seq<SegmentFiles>, n: nat) -> Seq<Seq<char>>
    decreases n,
{
    if n == 0 {
        Seq::empty()
    } else {
        let before = damage(c, files, (n - 1) as nat);
        match segment::files_verified(c.catalog.name, c.segments[n - 1].id, files[n - 1]) {
            Ok(_) => before,
            Err(e) => before.push(damage_text(c.catalog.name, e)),
        }
    }
}

impl Collection {
    /// Check what the segments hold, and at the full level every checksum of their files, which
    /// are given in the order of the segments.
    pub fn verify(&self, level: VerifyLevel, files: &Vec<SegmentFiles>) -> (r: CollectionCheck)
        requires
            files@.len() == self@.segments.len(),
        ensures
            r@.result == (VerifyModel {
                name: self@.catalog.name,
                live_documents: collection::capped(
                    segment::live_on_disk(self@.segments) as int,
                ),
                total_rows: collection::capped(collection::rows_on_disk(self@.segments) as int),
            }),
            r@.errors == match level {
                VerifyLevel::Quick => Seq::empty(),
                VerifyLevel::Full => damage(self@, files@, files@.len()),
            },
            r@.warnings.len() == 0,
    {
        let result = CollectionVerify {
            name: self.catalog.name.clone(),
            live_documents: fitted(count_live(&self.segments)),
            total_rows: fitted(count_rows(&self.segments)),
        };
        let mut errors: Vec<String> = Vec::new();
        assert(error::texts(errors@) =~= Seq::<Seq<char>>::empty());
        let full: bool = match level {
            VerifyLevel::Full => true,
            VerifyLevel::Quick => false,
        };
        if full {
            let mut i: usize = 0;
            while i < files.len()
                invariant
                    i <= files@.len(),
                    files@.len() == self@.segments.len(),
                    self@.segments == flush::segment_models(self.segments@),
                    error::texts(errors@) == damage(self@, files@, i as nat),
                decreases files.len() - i,
            {
                let ghost before = errors@;
                assert(self@.segments[i as int] == self.segments@[i as int]@);
                match verify_checksums(
                    self.catalog.name.as_str(),
                    self.segments[i].id(),
                    &files[i],
                ) {
                    Ok(()) => {},
                    Err(e) => {
                        let mut t = self.catalog.name.clone();
                        t.append(": ");
                        t.append(e.message().as_str());
                        errors.push(t);
                        assert(error::texts(errors@) =~= error::texts(before).push(t@));
                    },
                }
                i += 1;
            }
        }
        let warnings: Vec<String> = Vec::new();
        CollectionCheck { result, errors, warnings }
    }
}

/// A segment's files are found sound exactly where all four are there, have their places, and read
/// as the kinds that they are.
pub proof fn lemma_sound_files(name: Seq<char>, id: u64, f: SegmentFiles)
    ensures
        segment::files_verified(name, id, f) is Ok <==> forall|which: SegmentFile|
            {
                &&& segment::file_path(name, id, which) is Ok
                &&& (#[trigger] f.held(which)) is Some
                &&& crate::format::block::decoded(f.held(which)->0, which.spec_kind()) is Ok
            },
{
    if segment::files_verified(name, id, f) is Ok {
        assert forall|which: SegmentFile|
            {
                &&& segment::file_path(name, id, which) is Ok
                &&& (#[trigger] f.held(which)) is Some
                &&& crate::format::block::decoded(f.held(which)->0, which.spec_kind()) is Ok
            } by {
            match which {
                SegmentFile::Vectors => {},
                SegmentFile::Directory => {},
                SegmentFile::Metadata => {},
                SegmentFile::Tombstones => {},
            }
        }
    } else if forall|which: SegmentFile|
        {
            &&& segment::file_path(name, id, which) is Ok
            &&& (#[trigger] f.held(which)) is Some
            &&& crate::format::block::decoded(f.held(which)->0, which.spec_kind()) is Ok
        } {
        assert(f.held(SegmentFile::Vectors) is Some);
        assert(f.held(SegmentFile::Directory) is Some);
        assert(f.held(SegmentFile::Metadata) is Some);
        assert(f.held(SegmentFile::Tombstones) is Some);
    }
}

/// A full check reports one line for every segment whose files are not sound, and none where they
/// all are.
pub proof fn lemma_every_damaged_segment_is_reported(
    c: CollModel,
    files: Seq<SegmentFiles>,
    n: nat,
)
    ensures
        damage(c, files, n).len() == Seq::new(n, |i: int| i).filter(
            |i: int|
                segment::files_verified(c.catalog.name, c.segments[i].id, files[i]) is Err,
        ).len(),
    decreases n,
{
    reveal(Seq::filter);
    let all = Seq::new(n, |i: int| i);
    if n > 0 {
        lemma_every_damaged_segment_is_reported(c, files, (n - 1) as nat);
        assert(all.drop_last() =~= Seq::new((n - 1) as nat, |i: int| i));
        assert(all.last() == n - 1);
    } else {
        assert(all =~= Seq::<int>::empty());
    }
}

} // verus!
