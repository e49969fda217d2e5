//! Folding buffered writes into a new segment.
//!
//! A flush goes in steps, and between them whoever drives the collection does the writing:
//!
//! 1. [`Collection::flush`] builds the new segment's files. They are written and synced.
//! 2. [`Collection::supersede`] marks the older copies of what it holds as dead. The bitmaps that
//!    changed are written.
//! 3. [`Collection::receive`] takes the new segment in, as read back, and gives the manifest entry
//!    to commit.
//! 4. Once that is committed and the log has been truncated, [`Collection::checkpointed`] empties
//!    the memtable.
//!
//! The checkpoint comes last. A crash before it leaves the log holding frames already folded into
//! a segment, which replay reapplies harmlessly because put and delete are both idempotent.
use vstd::prelude::*;

use crate::api::access;
use crate::api::access::Access;
use crate::api::collection;
use crate::api::collection::{count_live, fitted, CollModel, Collection};
use crate::document::{DocId, IdModel};
use crate::error;
use crate::error::DbError;
use crate::format::block;
use crate::format::header::FileKind;
use crate::format::manifest::{CollectionEntry, EntryModel, SegmentRef};
use crate::format::segment::tombstones;
use crate::persistence::flush;
use crate::persistence::flush::{flush_memtable, FlushResult, SegmentImage};
use crate::persistence::flush_laws;
use crate::persistence::segment;
use crate::persistence::segment::{SegmentData, SegmentFiles, SegmentModel};
use crate::persistence::wal::{LogModel, WalWriter};
use crate::write::memtable;
use crate::write::memtable::{MemModel, MemRow};

verus! {

/// A bitmap that has to be written.
#[derive(Debug)]
pub struct TombstoneFile {
    /// The segment that it belongs to.
    pub segment: u64,
    /// What to write into its file.
    pub bytes: Vec<u8>,
}

/// A bitmap file, independent of how it is held in memory.
pub struct TombstoneModel {
    pub segment: u64,
    pub bytes: Seq<u8>,
}

impl View for TombstoneFile {
    type V = TombstoneModel;

    open spec fn view(&self) -> TombstoneModel {
        TombstoneModel { segment: self.segment, bytes: self.bytes@ }
    }
}

/// Bitmap files as they are.
pub open spec fn file_models(files: Seq<TombstoneFile>) -> Seq<TombstoneModel> {
    files.map_values(|f: TombstoneFile| f@)
}

/// What a flush has to commit.
#[derive(Debug)]
pub struct FlushCommit {
    /// The collection's new manifest entry.
    pub entry: CollectionEntry,
    /// A segment whose files hold no rows, and so are removed rather than being committed as a
    /// segment nothing can ever match.
    pub discard: Option<u64>,
}

/// Whether a segment holds a live row of one of some documents.
pub open spec fn touched(m: SegmentModel, ids: Seq<IdModel>) -> bool {
    exists|i: int| 0 <= i < m.ids.len() && #[trigger] m.live(i) && ids.contains(m.ids[i])
}

/// The next generation of a bitmap.
pub open spec fn bumped(generation: u32) -> u32 {
    if generation == u32::MAX {
        u32::MAX
    } else {
        (generation + 1) as u32
    }
}

/// Whether `b` is a segment like `a` in which no row of some documents is live any more. The
/// bitmap's generation moves on where that changed anything.
pub open spec fn superseded(a: SegmentModel, b: SegmentModel, ids: Seq<IdModel>) -> bool {
    &&& b == (SegmentModel { tombstones: b.tombstones, ..a })
    &&& b.wf()
    &&& forall|i: int|
        0 <= i < a.ids.len() ==> #[trigger] b.live(i) == (a.live(i) && !ids.contains(a.ids[i]))
    &&& b.tombstones.generation == if touched(a, ids) {
        bumped(a.tombstones.generation)
    } else {
        a.tombstones.generation
    }
}

/// Whether segments are superseded one for one.
pub open spec fn all_superseded(
    a: Seq<SegmentModel>,
    b: Seq<SegmentModel>,
    ids: Seq<IdModel>,
) -> bool {
    &&& a.len() == b.len()
    &&& forall|s: int| 0 <= s < a.len() ==> superseded(#[trigger] a[s], b[s], ids)
}

/// The bitmaps that have to be written once segments `a` have become `b`.
pub open spec fn changed_files(
    a: Seq<SegmentModel>,
    b: Seq<SegmentModel>,
    ids: Seq<IdModel>,
) -> Seq<TombstoneModel>
    decreases a.len(),
{
    if a.len() == 0 {
        Seq::empty()
    } else {
        let before = changed_files(a.drop_last(), b.drop_last(), ids);
        if touched(a.last(), ids) {
            before.push(
                TombstoneModel {
                    segment: a.last().id,
                    bytes: block::block_bytes(
                        FileKind::Deleted,
                        tombstones::bitmap_bytes(b.last().tombstones),
                    ),
                },
            )
        } else {
            before
        }
    }
}

/// The documents that a flush takes over from older segments: those that it writes, and those
/// that were deleted.
pub open spec fn taken(m: MemModel, deletions: Seq<IdModel>) -> Seq<IdModel> {
    collection::ids_of(m.live()) + deletions
}

/// How the manifest names open segments.
pub open spec fn refs_of(ms: Seq<SegmentModel>) -> Seq<SegmentRef> {
    ms.map_values(
        |m: SegmentModel|
            SegmentRef {
                id: m.id,
                rows: m.ids.len() as u32,
                del_generation: m.tombstones.generation,
            },
    )
}

/// Rows that references count.
pub open spec fn rows_named(refs: Seq<SegmentRef>) -> nat
    decreases refs.len(),
{
    if refs.len() == 0 {
        0
    } else {
        rows_named(refs.drop_last()) + refs.last().rows as nat
    }
}

/// The manifest entry of a collection whose segments are named by `refs`.
pub open spec fn entry_of(c: CollModel, refs: Seq<SegmentRef>) -> EntryModel {
    EntryModel {
        name: c.catalog.name,
        segments: refs,
        index_snapshot: None,
        last_applied_wal: if c.log.next_sequence == 0 {
            0
        } else {
            (c.log.next_sequence - 1) as u64
        },
        live_count: collection::capped(segment::live_on_disk(c.segments) as int),
        total_rows: collection::capped(rows_named(refs) as int),
    }
}

/// A copy of the documents of buffered rows followed by others.
fn taken_ids(rows: &Vec<&MemRow>, deletions: &Vec<DocId>) -> (r: Vec<DocId>)
    ensures
        segment::id_models(r@) == collection::ids_of(memtable::ref_models(rows@))
            + segment::id_models(deletions@),
{
    let ghost first = collection::ids_of(memtable::ref_models(rows@));
    let ghost second = segment::id_models(deletions@);
    let mut out: Vec<DocId> = Vec::new();
    let mut i: usize = 0;
    assert(segment::id_models(out@) =~= first.take(0));
    while i < rows.len()
        invariant
            i <= rows@.len(),
            first == collection::ids_of(memtable::ref_models(rows@)),
            segment::id_models(out@) == first.take(i as int),
        decreases rows.len() - i,
    {
        let ghost before = out@;
        let id: DocId = rows[i].id.clone();
        out.push(id);
        proof {
            assert(first.take(i + 1) =~= first.take(i as int).push(first[i as int]));
            assert(segment::id_models(out@) =~= segment::id_models(before).push(id@));
        }
        i += 1;
    }
    let mut j: usize = 0;
    assert(first.take(i as int) =~= first);
    assert(segment::id_models(out@) =~= first + second.take(0));
    while j < deletions.len()
        invariant
            j <= deletions@.len(),
            second == segment::id_models(deletions@),
            segment::id_models(out@) == first + second.take(j as int),
        decreases deletions.len() - j,
    {
        let ghost before = out@;
        let id: DocId = deletions[j].clone();
        out.push(id);
        proof {
            assert(second.take(j + 1) =~= second.take(j as int).push(second[j as int]));
            assert(segment::id_models(out@) =~= segment::id_models(before).push(id@));
            assert(segment::id_models(out@) =~= first + second.take(j + 1));
        }
        j += 1;
    }
    assert(second.take(j as int) =~= second);
    out
}

/// Kill every row of some documents in a segment. Returns whether that changed anything.
fn kill_all(seg: &mut SegmentData, ids: &Vec<DocId>) -> (r: bool)
    ensures
        r == touched(old(seg)@, segment::id_models(ids@)),
        final(seg)@ == (SegmentModel { tombstones: final(seg)@.tombstones, ..old(seg)@ }),
        final(seg)@.wf(),
        final(seg)@.tombstones.rows == old(seg)@.tombstones.rows,
        final(seg)@.tombstones.generation == old(seg)@.tombstones.generation,
        forall|i: int|
            0 <= i < old(seg)@.ids.len() ==> #[trigger] final(seg)@.live(i) == (old(seg)@.live(i)
                && !segment::id_models(ids@).contains(old(seg)@.ids[i])),
{
    let ghost all = segment::id_models(ids@);
    let ghost before = seg@;
    let mut any: bool = false;
    let mut k: usize = 0;
    // Reading the row count establishes that the segment is consistent.
    let _ = seg.rows();
    assert(all.take(0) =~= Seq::<IdModel>::empty());
    while k < ids.len()
        invariant
            k <= ids@.len(),
            all == segment::id_models(ids@),
            before == old(seg)@,
            before.wf(),
            seg@ == (SegmentModel { tombstones: seg@.tombstones, ..before }),
            seg@.wf(),
            seg@.tombstones.rows == before.tombstones.rows,
            seg@.tombstones.generation == before.tombstones.generation,
            forall|i: int|
                0 <= i < before.ids.len() ==> #[trigger] seg@.live(i) == (before.live(i)
                    && !all.take(k as int).contains(before.ids[i])),
            any == touched(before, all.take(k as int)),
        decreases ids.len() - k,
    {
        let ghost now = seg@;
        proof {
            lemma_one_more(all, k as int);
        }
        let found: Option<u32> = seg.row_of(&ids[k]);
        let mut hit: bool = false;
        if let Some(row) = found {
            hit = seg.kill(row);
        }
        proof {
            let few = all.take(k as int);
            let more = all.take(k + 1);
            let id = ids@[k as int]@;
            assert(all[k as int] == id);
            assert forall|i: int| 0 <= i < before.ids.len() implies #[trigger] seg@.live(i) == (
            before.live(i) && !more.contains(before.ids[i])) by {
                assert(now.live(i) == (before.live(i) && !few.contains(before.ids[i])));
                assert(more.contains(before.ids[i]) == (few.contains(before.ids[i])
                    || before.ids[i] == id));
                match found {
                    Some(row) => {
                        if before.ids[i] == id && i != row {
                            assert(before.ids[i] == before.ids[row as int]);
                            if i < row {
                                assert(before.ids[i] != before.ids[row as int]);
                            } else {
                                assert(before.ids[row as int] != before.ids[i]);
                            }
                        }
                    },
                    None => {
                        if before.ids[i] == id {
                            assert(before.ids.contains(id));
                        }
                    },
                }
            }
            assert((any || hit) == touched(before, more)) by {
                if hit {
                    let row = found->0;
                    assert(now.live(row as int));
                    assert(before.live(row as int));
                    assert(more.contains(id));
                }
                if touched(before, few) {
                    let i = choose|i: int|
                        0 <= i < before.ids.len() && #[trigger] before.live(i) && few.contains(
                            before.ids[i],
                        );
                    assert(more.contains(before.ids[i]));
                }
                if touched(before, more) {
                    let i = choose|i: int|
                        0 <= i < before.ids.len() && #[trigger] before.live(i) && more.contains(
                            before.ids[i],
                        );
                    if !few.contains(before.ids[i]) {
                        assert(before.ids[i] == id);
                        assert(before.ids.contains(id));
                        let row = found->0;
                        if i < row {
                            assert(before.ids[i] != before.ids[row as int]);
                        } else if row < i {
                            assert(before.ids[row as int] != before.ids[i]);
                        }
                        assert(now.live(i));
                    } else {
                        assert(touched(before, few));
                    }
                }
            }
        }
        if hit {
            any = true;
        }
        k += 1;
    }
    assert(all.take(k as int) =~= all);
    any
}

proof fn lemma_one_more(all: Seq<IdModel>, k: int)
    requires
        0 <= k < all.len(),
    ensures
        forall|x: IdModel| #[trigger]
            all.take(k + 1).contains(x) == (all.take(k).contains(x) || x == all[k]),
{
    assert forall|x: IdModel| #[trigger]
        all.take(k + 1).contains(x) == (all.take(k).contains(x) || x == all[k]) by {
        let few = all.take(k);
        let more = all.take(k + 1);
        if more.contains(x) {
            let i = choose|i: int| 0 <= i < more.len() && more[i] == x;
            if i < k {
                assert(few[i] == x);
            }
        }
        if few.contains(x) {
            let i = choose|i: int| 0 <= i < few.len() && few[i] == x;
            assert(more[i] == x);
        }
        assert(more[k] == all[k]);
    }
}

/// Supersede one segment. Gives the bitmap to write, where it changed.
fn supersede_one(seg: &mut SegmentData, ids: &Vec<DocId>) -> (r: Option<TombstoneFile>)
    ensures
        superseded(old(seg)@, final(seg)@, segment::id_models(ids@)),
        match r {
            Some(f) => {
                &&& touched(old(seg)@, segment::id_models(ids@))
                &&& f@ == (TombstoneModel {
                    segment: old(seg)@.id,
                    bytes: block::block_bytes(
                        FileKind::Deleted,
                        tombstones::bitmap_bytes(final(seg)@.tombstones),
                    ),
                })
            },
            None => !touched(old(seg)@, segment::id_models(ids@)),
        },
{
    let ghost before = seg@;
    if kill_all(seg, ids) {
        let ghost now = seg@;
        let (_, bytes) = seg.persist_tombstones();
        assert forall|i: int| 0 <= i < before.ids.len() implies #[trigger] seg@.live(i) == (
        before.live(i) && !segment::id_models(ids@).contains(before.ids[i])) by {
            assert(seg@.live(i) == now.live(i));
        }
        return Some(TombstoneFile { segment: seg.id(), bytes });
    }
    None
}

impl Collection {
    /// Build the segment that buffered writes fold into. There is nothing to do where nothing is
    /// buffered, or on a read-only handle.
    ///
    /// # Errors
    /// Any format error, or [`crate::error::LifecycleError::DatabaseClosed`].
    pub fn flush(&self, access: Access) -> (r: Result<
        Option<(FlushResult, SegmentImage)>,
        DbError,
    >)
        ensures
            if access.closed {
                error::failed(r, access::closed())
            } else if access.read_only || self@.memtable.index.len() == 0 {
                r matches Ok(o) && o is None
            } else {
                match flush::shape_refused(self@.catalog) {
                    Some(e) => error::failed(r, e),
                    None => match flush::flushed(
                        self@.memtable,
                        self@.catalog.dtype.stride(self@.catalog.dimension),
                        self@.memtable.live(),
                    ) {
                        Err(e) => error::failed(r, e),
                        Ok(b) => {
                            &&& r matches Ok(Some((result, image)))
                            &&& result.segment == (SegmentRef {
                                id: self@.next_segment_id,
                                rows: b.entries.len() as u32,
                                del_generation: 0,
                            })
                            &&& b.entries.len() <= flush::most_rows()
                            &&& b.entries.len() == self@.memtable.live().len()
                            &&& segment::id_models(result.pending_deletions@)
                                == memtable::deleted(self@.memtable.index)
                            &&& flush::is_image(image, b)
                            &&& flush::is_placed(self@.catalog) && flush::live_of_kind(
                                self@.memtable,
                                self@.catalog.id_kind,
                            ) ==> flush_laws::reads_back(
                                self@.catalog,
                                result.segment,
                                image,
                                flush::flushed_rows(self@.memtable),
                            )
                        },
                    },
                }
            },
    {
        match access.check_open() {
            Ok(()) => {},
            Err(e) => {
                return Err(e);
            },
        }
        if access.read_only || self.memtable.is_empty() {
            return Ok(None);
        }
        match flush_memtable(&self.catalog, self.next_segment_id, &self.memtable) {
            Ok(p) => Ok(Some(p)),
            Err(e) => Err(e),
        }
    }

    /// Mark the older copies of what a flush holds as dead. Gives the bitmaps that have to be
    /// written.
    ///
    /// Every id the new segment carries supersedes any earlier copy, and every tombstone kills
    /// the row it refers to. Without this an overwritten document stays live in two segments at
    /// once, so a count over-reports and a scan returns the same document twice with different
    /// vectors.
    pub fn supersede(&mut self, result: &FlushResult) -> (r: Vec<TombstoneFile>)
        requires
            old(self)@.wf(),
        ensures
            ({
                let ids = taken(
                    old(self)@.memtable,
                    segment::id_models(result.pending_deletions@),
                );
                &&& final(self)@ == (CollModel { segments: final(self)@.segments, ..old(self)@ })
                &&& final(self)@.wf()
                &&& all_superseded(old(self)@.segments, final(self)@.segments, ids)
                &&& file_models(r@) == changed_files(
                    old(self)@.segments,
                    final(self)@.segments,
                    ids,
                )
            }),
    {
        let rows = self.memtable.live_rows();
        let ids = taken_ids(&rows, &result.pending_deletions);
        let ghost all = segment::id_models(ids@);
        let ghost before = self@.segments;
        let ghost whole = self@;
        let mut out: Vec<TombstoneFile> = Vec::new();
        let mut s: usize = 0;
        assert(file_models(out@) =~= changed_files(before.take(0), before.take(0), all));
        while s < self.segments.len()
            invariant
                s <= self.segments@.len(),
                all == segment::id_models(ids@),
                whole == old(self)@,
                whole.wf(),
                before == whole.segments,
                before.len() == self.segments@.len(),
                self@ == (CollModel { segments: self@.segments, ..whole }),
                self@.segments == flush::segment_models(self.segments@),
                forall|k: int| s <= k < before.len() ==> self@.segments[k] == #[trigger] before[k],
                forall|k: int|
                    0 <= k < s ==> superseded(#[trigger] before[k], self@.segments[k], all),
                file_models(out@) == changed_files(
                    before.take(s as int),
                    self@.segments.take(s as int),
                    all,
                ),
            decreases self.segments.len() - s,
        {
            let ghost was = self@.segments;
            let ghost old_out = out@;
            assert(was[s as int] == self.segments@[s as int]@);
            assert(was[s as int] == before[s as int]);
            let file = supersede_one(&mut self.segments[s], &ids);
            proof {
                let now = self@.segments;
                assert(now[s as int] == self.segments@[s as int]@);
                assert forall|k: int| 0 <= k < now.len() && k != s implies now[k] == was[k] by {
                    assert(now[k] == self.segments@[k]@);
                }
                assert(before.take(s + 1).drop_last() =~= before.take(s as int));
                assert(now.take(s + 1).drop_last() =~= was.take(s as int));
                assert(before.take(s + 1).last() == before[s as int]);
                assert(now.take(s + 1).last() == now[s as int]);
            }
            if let Some(f) = file {
                out.push(f);
                assert(file_models(out@) =~= file_models(old_out).push(f@));
            }
            s += 1;
        }
        proof {
            assert(before.take(s as int) =~= before);
            assert(self@.segments.take(s as int) =~= self@.segments);
            assert forall|i: int| 0 <= i < self@.segments.len() implies (
            #[trigger] self@.segments[i]).wf() by {
                assert(superseded(before[i], self@.segments[i], all));
            }
        }
        out
    }

    /// Take in a new segment, `files` being what its files hold, and give what is to be committed.
    /// A memtable holding only tombstones produces no rows, and so no segment.
    ///
    /// # Errors
    /// Any corruption error.
    pub fn receive(&mut self, result: FlushResult, files: SegmentFiles) -> (r: Result<
        FlushCommit,
        DbError,
    >)
        requires
            old(self)@.wf(),
        ensures
            final(self)@.wf(),
            ({
                let old_refs = refs_of(old(self)@.segments);
                if result.segment.rows > 0 {
                    match segment::opened(old(self)@.catalog, result.segment, files) {
                        Err(e) => error::failed(r, e) && final(self)@ == old(self)@,
                        Ok(m) => {
                            &&& r matches Ok(commit)
                            &&& final(self)@ == (CollModel {
                                segments: old(self)@.segments.push(m),
                                ..old(self)@
                            })
                            &&& commit.entry@ == entry_of(
                                final(self)@,
                                old_refs.push(result.segment),
                            )
                            &&& commit.discard is None
                        },
                    }
                } else {
                    &&& r matches Ok(commit)
                    &&& final(self)@ == old(self)@
                    &&& commit.entry@ == entry_of(old(self)@, old_refs)
                    &&& commit.discard == Some(result.segment.id)
                }
            }),
            r matches Ok(commit) ==> {
                &&& commit.entry@.name == old(self)@.catalog.name
                &&& commit.entry@.segments.len() == final(self)@.segments.len()
                &&& forall|i: int|
                    #![trigger commit.entry@.segments[i]]
                    0 <= i < final(self)@.segments.len() ==> commit.entry@.segments[i].id
                        == final(self)@.segments[i].id && commit.entry@.segments[i].rows
                        == final(self)@.segments[i].ids.len()
            },
    {
        let ghost given = files;
        let mut refs = name_segments(&self.segments);
        let mut discard: Option<u64> = None;
        if result.segment.rows > 0 {
            let ghost before = self.segments@;
            match SegmentData::open(&self.catalog, &result.segment, files) {
                Ok(s) => {
                    self.segments.push(s);
                    proof {
                        let now = self@.segments;
                        assert(now =~= old(self)@.segments.push(s@));
                        assert(self.segments.len() == self.segments@.len());
                        assert forall|i: int| 0 <= i < now.len() implies (
                        #[trigger] now[i]).wf() by {
                            if i < old(self)@.segments.len() {
                                assert(now[i] == old(self)@.segments[i]);
                            }
                        }
                    }
                },
                Err(e) => {
                    return Err(e);
                },
            }
            refs.push(result.segment);
        } else {
            discard = Some(result.segment.id);
        }
        proof {
            if result.segment.rows > 0 {
                segment::lemma_opened_shape(old(self)@.catalog, result.segment, given);
            }
            assert forall|i: int| 0 <= i < self@.segments.len() implies (#[trigger] refs@[i]).id
                == self@.segments[i].id && refs@[i].rows == self@.segments[i].ids.len() by {
                assert(self@.segments[i].wf());
            }
        }
        let entry = self.entry_for(refs);
        Ok(FlushCommit { entry, discard })
    }

    /// The manifest entry of the collection, its segments being named by `refs`.
    pub(crate) fn entry_for(&self, refs: Vec<SegmentRef>) -> (r: CollectionEntry)
        ensures
            r@ == entry_of(self@, refs@),
    {
        let total: u128 = count_named(&refs);
        let live: u128 = count_live(&self.segments);
        let next: u64 = self.wal.next_sequence();
        CollectionEntry {
            name: self.catalog.name.clone(),
            segments: refs,
            index_snapshot: None,
            last_applied_wal: if next == 0 {
                0
            } else {
                next - 1
            },
            live_count: fitted(live),
            total_rows: fitted(total),
        }
    }

    /// Move on once the entry has been committed and the log has been truncated: nothing is
    /// buffered any more.
    pub fn checkpointed(&mut self)
        requires
            old(self)@.wf(),
            old(self)@.next_segment_id < u64::MAX,
        ensures
            final(self)@.wf(),
            final(self)@ == (CollModel {
                memtable: MemModel::empty(
                    old(self)@.memtable.dimension,
                    old(self)@.memtable.dtype,
                ),
                next_segment_id: (old(self)@.next_segment_id + 1) as u64,
                log: LogModel { next_txn: 1, bytes: 0, unsynced: false, ..old(self)@.log },
                ..old(self)@
            }),
    {
        self.memtable.clear();
        let _ = self.memtable.len();
        self.next_segment_id = self.next_segment_id + 1;
        self.wal = WalWriter::open(
            self.wal.path().clone(),
            0,
            self.wal.next_sequence(),
            1,
            self.wal.durability(),
        );
    }
}

/// How the manifest names open segments.
fn name_segments(segments: &Vec<SegmentData>) -> (r: Vec<SegmentRef>)
    ensures
        r@ == refs_of(flush::segment_models(segments@)),
{
    let ghost all = refs_of(flush::segment_models(segments@));
    let mut out: Vec<SegmentRef> = Vec::new();
    let mut i: usize = 0;
    assert(out@ =~= all.take(0));
    while i < segments.len()
        invariant
            i <= segments@.len(),
            all == refs_of(flush::segment_models(segments@)),
            out@ == all.take(i as int),
        decreases segments.len() - i,
    {
        let seg = &segments[i];
        out.push(
            SegmentRef {
                id: seg.id(),
                rows: seg.rows(),
                del_generation: seg.tombstones().generation,
            },
        );
        assert(all.take(i + 1) =~= all.take(i as int).push(all[i as int]));
        i += 1;
    }
    assert(all.take(i as int) =~= all);
    out
}

fn count_named(refs: &Vec<SegmentRef>) -> (r: u128)
    ensures
        r == rows_named(refs@),
{
    let mut n: u128 = 0;
    let mut i: usize = 0;
    assert(refs@.take(0) =~= Seq::<SegmentRef>::empty());
    while i < refs.len()
        invariant
            i <= refs@.len(),
            n == rows_named(refs@.take(i as int)),
            n <= u32::MAX * i,
        decreases refs.len() - i,
    {
        assert(refs@.take(i + 1).drop_last() =~= refs@.take(i as int));
        n = n + refs[i].rows as u128;
        i += 1;
    }
    assert(refs@.take(i as int) =~= refs@);
    n
}

} // verus!
