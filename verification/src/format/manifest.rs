//! The manifest: the root of the database, written to two alternating slots.
//!
//! There are two fixed slots, `MANIFEST-A` and `MANIFEST-B`, each self-describing and
//! self-checksumming, each carrying a monotonically increasing sequence number. Committing means
//! writing the slot that is *not* currently in use and syncing it. Opening means reading both and
//! taking the valid one with the higher sequence.
//!
//! A crash at any instant leaves at least one intact slot: either the new write completed (and
//! wins on sequence) or it did not (and fails its checksum, so the old slot wins).
use vstd::prelude::*;
use vstd::utf8::*;

use crate::bytes;
use crate::format::block;
use crate::format::cursor;
use crate::format::cursor::{Cursor, Reader, Writer};
use crate::format::error::{FormatError, MalformedKind};
use crate::format::header::FileKind;
use crate::format::le;
use crate::format::value;
use crate::format::varint;

verus! {

/// Which of the two manifest slots.
#[derive(Debug, Clone, Copy, PartialEq, Eq, Hash, Structural)]
pub enum Slot {
    /// `MANIFEST-A`.
    A,
    /// `MANIFEST-B`.
    B,
}

/// The other slot.
pub open spec fn other_slot(s: Slot) -> Slot {
    match s {
        Slot::A => Slot::B,
        Slot::B => Slot::A,
    }
}

impl Slot {
    /// The other slot: where the next commit goes.
    pub fn other(self) -> (r: Self)
        ensures
            r == other_slot(self),
            r != self,
    {
        match self {
            Slot::A => Slot::B,
            Slot::B => Slot::A,
        }
    }

    /// The file name for this slot.
    pub open spec fn text(self) -> Seq<char> {
        match self {
            Slot::A => "MANIFEST-A"@,
            Slot::B => "MANIFEST-B"@,
        }
    }

    /// The file name for this slot.
    pub fn file_name(self) -> (r: &'static str)
        ensures
            r@ == self.text(),
    {
        match self {
            Slot::A => "MANIFEST-A",
            Slot::B => "MANIFEST-B",
        }
    }
}

/// One segment referenced by a collection.
#[derive(Debug, Clone, Copy, PartialEq, Eq, Structural)]
pub struct SegmentRef {
    /// Segment id; names the `NNNNNN.{vec,dir,meta,del}` files.
    pub id: u64,
    /// Rows the segment holds, live and dead alike.
    pub rows: u32,
    /// Bumped every time the tombstone bitmap is rewritten, so a stale `.del` is detectable.
    pub del_generation: u32,
}

/// What the manifest records about one collection, independent of how it is held in memory.
pub struct EntryModel {
    pub name: Seq<char>,
    pub segments: Seq<SegmentRef>,
    pub index_snapshot: Option<u64>,
    pub last_applied_wal: u64,
    pub live_count: u64,
    pub total_rows: u64,
}

/// The database root record, independent of how it is held in memory.
pub struct ManifestModel {
    pub sequence: u64,
    pub db_uuid: Seq<u8>,
    pub created_at_ms: u64,
    pub updated_at_ms: u64,
    pub collections: Seq<EntryModel>,
}

/// What the manifest records about one collection.
#[derive(Debug, PartialEq, Eq)]
pub struct CollectionEntry {
    /// The collection's name.
    pub name: String,
    /// Its live segments, in ascending id order.
    pub segments: Vec<SegmentRef>,
    /// The current index snapshot id, if one has been written.
    ///
    /// An index is derived data: a missing or unreadable snapshot is a rebuild, never a failure
    /// to open.
    pub index_snapshot: Option<u64>,
    /// Highest WAL sequence already folded into the segments. A log that still holds frames up to
    /// it is replayed all the same: applying them again changes nothing.
    pub last_applied_wal: u64,
    /// Live documents.
    pub live_count: u64,
    /// Rows including tombstones, so the dead ratio, and therefore whether to compact, is known
    /// without reading any segment.
    pub total_rows: u64,
}

impl View for CollectionEntry {
    type V = EntryModel;

    open spec fn view(&self) -> EntryModel {
        EntryModel {
            name: self.name@,
            segments: self.segments@,
            index_snapshot: self.index_snapshot,
            last_applied_wal: self.last_applied_wal,
            live_count: self.live_count,
            total_rows: self.total_rows,
        }
    }
}

/// A copy of a list of segments.
pub fn copy_segments(v: &Vec<SegmentRef>) -> (r: Vec<SegmentRef>)
    ensures
        r@ == v@,
{
    let mut out: Vec<SegmentRef> = Vec::new();
    let mut i: usize = 0;
    while i < v.len()
        invariant
            i <= v@.len(),
            out@ == v@.take(i as int),
        decreases v.len() - i,
    {
        out.push(v[i]);
        assert(v@.take(i + 1) =~= v@.take(i as int).push(v@[i as int]));
        i += 1;
    }
    assert(v@.take(i as int) =~= v@);
    out
}

impl Clone for CollectionEntry {
    fn clone(&self) -> (r: Self)
        ensures
            r@ == self@,
    {
        CollectionEntry {
            name: self.name.as_str().to_owned(),
            segments: copy_segments(&self.segments),
            index_snapshot: self.index_snapshot,
            last_applied_wal: self.last_applied_wal,
            live_count: self.live_count,
            total_rows: self.total_rows,
        }
    }
}

/// The database root record.
#[derive(Debug, PartialEq, Eq)]
pub struct Manifest {
    /// Monotonically increasing. The higher valid slot wins.
    pub sequence: u64,
    /// Identifies this database, so a file copied between databases is detectable.
    pub db_uuid: [u8; 16],
    /// Creation time in milliseconds since the Unix epoch.
    pub created_at_ms: u64,
    /// Last commit time in milliseconds since the Unix epoch.
    pub updated_at_ms: u64,
    /// Every collection in the database.
    pub collections: Vec<CollectionEntry>,
}

/// What a list of collection entries holds.
pub open spec fn entry_models(entries: Seq<CollectionEntry>) -> Seq<EntryModel> {
    entries.map_values(|e: CollectionEntry| e@)
}

impl View for Manifest {
    type V = ManifestModel;

    open spec fn view(&self) -> ManifestModel {
        ManifestModel {
            sequence: self.sequence,
            db_uuid: self.db_uuid@,
            created_at_ms: self.created_at_ms,
            updated_at_ms: self.updated_at_ms,
            collections: entry_models(self.collections@),
        }
    }
}

/// A copy of a list of collection entries.
pub fn copy_entries(v: &Vec<CollectionEntry>) -> (r: Vec<CollectionEntry>)
    ensures
        entry_models(r@) == entry_models(v@),
{
    let mut out: Vec<CollectionEntry> = Vec::new();
    let mut i: usize = 0;
    while i < v.len()
        invariant
            i <= v@.len(),
            entry_models(out@) == entry_models(v@).take(i as int),
        decreases v.len() - i,
    {
        let ghost before = out@;
        out.push(v[i].clone());
        proof {
            assert(entry_models(out@) =~= entry_models(before).push(v@[i as int]@));
            assert(entry_models(v@).take(i + 1) =~= entry_models(v@).take(i as int).push(
                v@[i as int]@,
            ));
        }
        i += 1;
    }
    assert(entry_models(v@).take(i as int) =~= entry_models(v@));
    out
}

impl Clone for Manifest {
    fn clone(&self) -> (r: Self)
        ensures
            r@ == self@,
    {
        Manifest {
            sequence: self.sequence,
            db_uuid: self.db_uuid,
            created_at_ms: self.created_at_ms,
            updated_at_ms: self.updated_at_ms,
            collections: copy_entries(&self.collections),
        }
    }
}

/// Whether two collections share a name.
pub open spec fn names_repeat(cs: Seq<EntryModel>) -> bool {
    exists|i: int, j: int|
        0 <= i < j < cs.len() && (#[trigger] cs[i]).name == (#[trigger] cs[j]).name
}

/// Whether segment ids ascend.
pub open spec fn ids_ascend(ss: Seq<SegmentRef>) -> bool {
    forall|i: int, j: int| 0 <= i < j < ss.len() ==> (#[trigger] ss[i]).id < (#[trigger] ss[j]).id
}

/// All rows of a list of segments.
pub open spec fn rows_of(ss: Seq<SegmentRef>) -> int
    decreases ss.len(),
{
    if ss.len() == 0 {
        0
    } else {
        rows_of(ss.drop_last()) + ss.last().rows
    }
}

/// A rule of the manifest that is broken.
pub open spec fn broken(kind: MalformedKind) -> FormatError {
    FormatError::Malformed { offset: 0, kind }
}

/// Whether a collection entry keeps its rules, or which it breaks first.
pub open spec fn entry_checked(c: EntryModel) -> Result<(), FormatError> {
    if c.name.len() == 0 {
        Err(broken(MalformedKind::ZeroNotAllowed { field: "collection name" }))
    } else if !ids_ascend(c.segments) {
        Err(broken(MalformedKind::Inconsistent { field: "segment order" }))
    } else if c.total_rows != rows_of(c.segments) {
        Err(broken(MalformedKind::Inconsistent { field: "total_rows" }))
    } else if c.live_count > c.total_rows {
        Err(broken(MalformedKind::Inconsistent { field: "live_count" }))
    } else {
        Ok(())
    }
}

/// Whether every entry keeps its rules, or what the first that does not breaks.
pub open spec fn entries_checked(cs: Seq<EntryModel>) -> Result<(), FormatError>
    decreases cs.len(),
{
    if cs.len() == 0 {
        Ok(())
    } else {
        match entries_checked(cs.drop_last()) {
            Ok(()) => entry_checked(cs.last()),
            Err(e) => Err(e),
        }
    }
}

/// Whether a manifest keeps its rules, or which it breaks first.
pub open spec fn checked(m: ManifestModel) -> Result<(), FormatError> {
    if names_repeat(m.collections) {
        Err(broken(MalformedKind::DuplicateKey))
    } else {
        entries_checked(m.collections)
    }
}

/// An optional snapshot id as one number: 0 for none, the id plus one otherwise.
pub open spec fn snapshot_code(s: Option<u64>) -> u64 {
    match s {
        None => 0,
        Some(id) => if id == u64::MAX {
            u64::MAX
        } else {
            (id + 1) as u64
        },
    }
}

/// The bytes of a segment reference.
pub open spec fn segment_bytes(s: SegmentRef) -> Seq<u8> {
    varint::varint(s.id as nat) + le::le(s.rows as nat, 4) + varint::varint(s.del_generation as nat)
}

/// The bytes of a list of segment references.
pub open spec fn segments_bytes(ss: Seq<SegmentRef>) -> Seq<u8>
    decreases ss.len(),
{
    if ss.len() == 0 {
        Seq::empty()
    } else {
        segments_bytes(ss.drop_last()) + segment_bytes(ss.last())
    }
}

/// The bytes that follow the segments of a collection entry.
pub open spec fn entry_tail_bytes(c: EntryModel) -> Seq<u8> {
    varint::varint(snapshot_code(c.index_snapshot) as nat) + varint::varint(
        c.last_applied_wal as nat,
    ) + varint::varint(c.live_count as nat) + varint::varint(c.total_rows as nat) + cursor::zeros(4)
}

/// The bytes of a collection entry.
pub open spec fn entry_bytes(c: EntryModel) -> Seq<u8> {
    cursor::string_bytes(c.name) + varint::varint(c.segments.len()) + segments_bytes(c.segments)
        + entry_tail_bytes(c)
}

/// The bytes of a list of collection entries.
pub open spec fn entries_bytes(cs: Seq<EntryModel>) -> Seq<u8>
    decreases cs.len(),
{
    if cs.len() == 0 {
        Seq::empty()
    } else {
        entries_bytes(cs.drop_last()) + entry_bytes(cs.last())
    }
}

/// The bytes before the collections of a manifest.
pub open spec fn manifest_head_bytes(m: ManifestModel) -> Seq<u8> {
    le::le(m.sequence as nat, 8) + m.db_uuid + le::le(m.created_at_ms as nat, 8) + le::le(
        m.updated_at_ms as nat,
        8,
    )
}

/// The payload of a manifest slot.
pub open spec fn manifest_bytes(m: ManifestModel) -> Seq<u8> {
    manifest_head_bytes(m) + varint::varint(m.collections.len()) + entries_bytes(m.collections)
        + cursor::zeros(8)
}

/// The segment at a cursor, in a list whose count stood at `list_at`.
pub open spec fn parsed_segment(c: Cursor, list_at: u64) -> Result<
    (SegmentRef, Cursor),
    FormatError,
> {
    match c.varint() {
        Ok((id, c1)) => match c1.uint(4) {
            Ok((rows, c2)) => match c2.varint() {
                Ok((gen, c3)) => if gen > u32::MAX {
                    Err(
                        FormatError::Malformed {
                            offset: list_at,
                            kind: MalformedKind::Inconsistent { field: "del_generation" },
                        },
                    )
                } else {
                    Ok((SegmentRef { id, rows: rows as u32, del_generation: gen as u32 }, c3))
                },
                Err(e) => Err(e),
            },
            Err(e) => Err(e),
        },
        Err(e) => Err(e),
    }
}

/// The `n` segments at a cursor.
pub open spec fn parsed_segments(c: Cursor, n: nat, list_at: u64) -> Result<
    (Seq<SegmentRef>, Cursor),
    FormatError,
>
    decreases n,
{
    if n == 0 {
        Ok((Seq::empty(), c))
    } else {
        match parsed_segments(c, (n - 1) as nat, list_at) {
            Ok((ss, c1)) => match parsed_segment(c1, list_at) {
                Ok((s, c2)) => Ok((ss.push(s), c2)),
                Err(e) => Err(e),
            },
            Err(e) => Err(e),
        }
    }
}

/// What follows the segments of an entry.
pub open spec fn parsed_entry_tail(
    name: Seq<char>,
    segments: Seq<SegmentRef>,
    c: Cursor,
) -> Result<(EntryModel, Cursor), FormatError> {
    match c.varint() {
        Ok((snapshot, c1)) => match c1.varint() {
            Ok((last_applied_wal, c2)) => match c2.varint() {
                Ok((live_count, c3)) => match c3.varint() {
                    Ok((total_rows, c4)) => match c4.reserved(4) {
                        Ok((_, c5)) => Ok(
                            (
                                EntryModel {
                                    name,
                                    segments,
                                    index_snapshot: if snapshot == 0 {
                                        None
                                    } else {
                                        Some((snapshot - 1) as u64)
                                    },
                                    last_applied_wal,
                                    live_count,
                                    total_rows,
                                },
                                c5,
                            ),
                        ),
                        Err(e) => Err(e),
                    },
                    Err(e) => Err(e),
                },
                Err(e) => Err(e),
            },
            Err(e) => Err(e),
        },
        Err(e) => Err(e),
    }
}

/// The collection entry at a cursor.
pub open spec fn parsed_entry(c: Cursor) -> Result<(EntryModel, Cursor), FormatError> {
    match c.string() {
        Ok((name, c1)) => match value::counted(c1, 6) {
            Ok((n, c2)) => match parsed_segments(c2, n, c1.offset()) {
                Ok((segments, c3)) => parsed_entry_tail(name, segments, c3),
                Err(e) => Err(e),
            },
            Err(e) => Err(e),
        },
        Err(e) => Err(e),
    }
}

/// The `n` collection entries at a cursor.
pub open spec fn parsed_entries(c: Cursor, n: nat) -> Result<(Seq<EntryModel>, Cursor), FormatError>
    decreases n,
{
    if n == 0 {
        Ok((Seq::empty(), c))
    } else {
        match parsed_entries(c, (n - 1) as nat) {
            Ok((es, c1)) => match parsed_entry(c1) {
                Ok((e, c2)) => Ok((es.push(e), c2)),
                Err(e) => Err(e),
            },
            Err(e) => Err(e),
        }
    }
}

/// The collections of a manifest and what must follow them.
pub open spec fn parsed_collections(c: Cursor) -> Result<Seq<EntryModel>, FormatError> {
    match value::counted(c, 8) {
        Ok((n, c1)) => match parsed_entries(c1, n) {
            Ok((es, c2)) => match c2.reserved(8) {
                Ok((_, c3)) => match c3.end("manifest") {
                    Ok(()) => Ok(es),
                    Err(e) => Err(e),
                },
                Err(e) => Err(e),
            },
            Err(e) => Err(e),
        },
        Err(e) => Err(e),
    }
}

/// The manifest that a slot's payload holds, its rules not yet checked.
pub open spec fn parsed_manifest(p: Seq<u8>) -> Result<ManifestModel, FormatError> {
    let c = Cursor { data: p, pos: 0, base: 0 };
    match c.uint(8) {
        Ok((sequence, c1)) => match c1.bytes(16) {
            Ok((db_uuid, c2)) => match c2.uint(8) {
                Ok((created, c3)) => match c3.uint(8) {
                    Ok((updated, c4)) => match parsed_collections(c4) {
                        Ok(collections) => Ok(
                            ManifestModel {
                                sequence: sequence as u64,
                                db_uuid,
                                created_at_ms: created as u64,
                                updated_at_ms: updated as u64,
                                collections,
                            },
                        ),
                        Err(e) => Err(e),
                    },
                    Err(e) => Err(e),
                },
                Err(e) => Err(e),
            },
            Err(e) => Err(e),
        },
        Err(e) => Err(e),
    }
}

/// The manifest that a slot holds, or why it holds none.
pub open spec fn decoded(b: Seq<u8>) -> Result<ManifestModel, FormatError> {
    match block::decoded(b, FileKind::Manifest) {
        Ok(p) => match parsed_manifest(p) {
            Ok(m) => match checked(m) {
                Ok(()) => Ok(m),
                Err(e) => Err(e),
            },
            Err(e) => Err(e),
        },
        Err(e) => Err(e),
    }
}

proof fn lemma_segments_err(c: Cursor, k: nat, n: nat, at: u64)
    requires
        k <= n,
        parsed_segments(c, k, at) is Err,
    ensures
        parsed_segments(c, n, at) == parsed_segments(c, k, at),
    decreases n,
{
    if k < n {
        lemma_segments_err(c, k, (n - 1) as nat, at);
    }
}

proof fn lemma_entries_err(c: Cursor, k: nat, n: nat)
    requires
        k <= n,
        parsed_entries(c, k) is Err,
    ensures
        parsed_entries(c, n) == parsed_entries(c, k),
    decreases n,
{
    if k < n {
        lemma_entries_err(c, k, (n - 1) as nat);
    }
}

proof fn lemma_entries_checked_err(cs: Seq<EntryModel>, k: int)
    requires
        0 <= k <= cs.len(),
        entries_checked(cs.take(k)) is Err,
    ensures
        entries_checked(cs) == entries_checked(cs.take(k)),
    decreases cs.len(),
{
    if k == cs.len() {
        assert(cs.take(k) =~= cs);
    } else {
        assert(cs.drop_last().take(k) =~= cs.take(k));
        lemma_entries_checked_err(cs.drop_last(), k);
    }
}

fn read_segment(r: &mut Reader<'_>, list_at: u64) -> (res: Result<SegmentRef, FormatError>)
    requires
        old(r)@.valid(),
    ensures
        final(r)@.valid(),
        match parsed_segment(old(r)@, list_at) {
            Ok((m, c)) => res == Ok::<SegmentRef, FormatError>(m) && final(r)@ == c,
            Err(e) => res == Err::<SegmentRef, FormatError>(e),
        },
{
    let id: u64 = match r.varint() {
        Ok(v) => v,
        Err(e) => {
            return Err(e);
        },
    };
    let rows: u32 = match r.u32() {
        Ok(v) => v,
        Err(e) => {
            return Err(e);
        },
    };
    let gen: u64 = match r.varint() {
        Ok(v) => v,
        Err(e) => {
            return Err(e);
        },
    };
    if gen > u32::MAX as u64 {
        return Err(
            FormatError::Malformed {
                offset: list_at,
                kind: MalformedKind::Inconsistent { field: "del_generation" },
            },
        );
    }
    Ok(SegmentRef { id, rows, del_generation: gen as u32 })
}

fn read_segments(r: &mut Reader<'_>, n: usize, list_at: u64) -> (res: Result<
    Vec<SegmentRef>,
    FormatError,
>)
    requires
        old(r)@.valid(),
    ensures
        final(r)@.valid(),
        match parsed_segments(old(r)@, n as nat, list_at) {
            Ok((ss, c)) => res matches Ok(v) && v@ == ss && final(r)@ == c,
            Err(e) => res == Err::<Vec<SegmentRef>, FormatError>(e),
        },
{
    let ghost start = r@;
    let mut out: Vec<SegmentRef> = Vec::new();
    let mut i: usize = 0;
    while i < n
        invariant
            i <= n,
            start == old(r)@,
            r@.valid(),
            parsed_segments(start, i as nat, list_at) == Ok::<
                (Seq<SegmentRef>, Cursor),
                FormatError,
            >((out@, r@)),
        decreases n - i,
    {
        match read_segment(r, list_at) {
            Ok(s) => {
                out.push(s);
            },
            Err(e) => {
                proof {
                    lemma_segments_err(start, (i + 1) as nat, n as nat, list_at);
                }
                return Err(e);
            },
        }
        i += 1;
    }
    Ok(out)
}

fn read_entry(r: &mut Reader<'_>) -> (res: Result<CollectionEntry, FormatError>)
    requires
        old(r)@.valid(),
    ensures
        final(r)@.valid(),
        match parsed_entry(old(r)@) {
            Ok((m, c)) => res matches Ok(v) && v@ == m && final(r)@ == c,
            Err(e) => res == Err::<CollectionEntry, FormatError>(e),
        },
{
    let name = match r.string() {
        Ok(s) => s.to_owned(),
        Err(e) => {
            return Err(e);
        },
    };
    let seg_at: u64 = r.offset();
    let seg_count: usize = match value::read_count(r, 6) {
        Ok(n) => n,
        Err(e) => {
            return Err(e);
        },
    };
    let segments = match read_segments(r, seg_count, seg_at) {
        Ok(v) => v,
        Err(e) => {
            return Err(e);
        },
    };
    let snapshot: u64 = match r.varint() {
        Ok(v) => v,
        Err(e) => {
            return Err(e);
        },
    };
    let index_snapshot: Option<u64> = if snapshot == 0 {
        None
    } else {
        Some(snapshot - 1)
    };
    let last_applied_wal: u64 = match r.varint() {
        Ok(v) => v,
        Err(e) => {
            return Err(e);
        },
    };
    let live_count: u64 = match r.varint() {
        Ok(v) => v,
        Err(e) => {
            return Err(e);
        },
    };
    let total_rows: u64 = match r.varint() {
        Ok(v) => v,
        Err(e) => {
            return Err(e);
        },
    };
    match r.reserved(4) {
        Ok(()) => {},
        Err(e) => {
            return Err(e);
        },
    }
    Ok(CollectionEntry { name, segments, index_snapshot, last_applied_wal, live_count, total_rows })
}

fn read_entries(r: &mut Reader<'_>, n: usize) -> (res: Result<Vec<CollectionEntry>, FormatError>)
    requires
        old(r)@.valid(),
    ensures
        final(r)@.valid(),
        match parsed_entries(old(r)@, n as nat) {
            Ok((es, c)) => res matches Ok(v) && entry_models(v@) == es && final(r)@ == c,
            Err(e) => res == Err::<Vec<CollectionEntry>, FormatError>(e),
        },
{
    let ghost start = r@;
    let mut out: Vec<CollectionEntry> = Vec::new();
    let mut i: usize = 0;
    assert(entry_models(out@) =~= Seq::<EntryModel>::empty());
    while i < n
        invariant
            i <= n,
            start == old(r)@,
            r@.valid(),
            parsed_entries(start, i as nat) == Ok::<(Seq<EntryModel>, Cursor), FormatError>(
                (entry_models(out@), r@),
            ),
        decreases n - i,
    {
        let ghost before = out@;
        match read_entry(r) {
            Ok(e) => {
                out.push(e);
                assert(entry_models(out@) =~= entry_models(before).push(e@));
            },
            Err(e) => {
                proof {
                    lemma_entries_err(start, (i + 1) as nat, n as nat);
                }
                return Err(e);
            },
        }
        i += 1;
    }
    Ok(out)
}

impl CollectionEntry {
    /// Check the rules of one entry.
    fn validate(&self) -> (r: Result<(), FormatError>)
        ensures
            r == entry_checked(self@),
    {
        if self.name.as_str().is_empty() {
            return Err(
                FormatError::Malformed {
                    offset: 0,
                    kind: MalformedKind::ZeroNotAllowed { field: "collection name" },
                },
            );
        }
        // Segments ascend so recovery and compaction agree on an order without having to sort.
        let mut i: usize = 0;
        let mut rows: Option<u64> = Some(0);
        while i < self.segments.len()
            invariant
                i <= self.segments@.len(),
                self@.name.len() != 0,
                ids_ascend(self.segments@.take(i as int)),
                match rows {
                    Some(n) => n == rows_of(self.segments@.take(i as int)),
                    None => rows_of(self.segments@.take(i as int)) > u64::MAX,
                },
            decreases self.segments.len() - i,
        {
            let s = self.segments[i];
            let ghost seen = self.segments@.take(i as int);
            if i > 0 && s.id <= self.segments[i - 1].id {
                assert(!ids_ascend(self.segments@)) by {
                    assert(self.segments@[i - 1].id >= self.segments@[i as int].id);
                }
                return Err(
                    FormatError::Malformed {
                        offset: 0,
                        kind: MalformedKind::Inconsistent { field: "segment order" },
                    },
                );
            }
            rows = match rows {
                Some(n) => n.checked_add(s.rows as u64),
                None => None,
            };
            proof {
                let next = self.segments@.take(i + 1);
                assert(next.drop_last() =~= seen);
                assert forall|a: int, b: int| 0 <= a < b < next.len() implies (#[trigger] next[a]).id
                    < (#[trigger] next[b]).id by {
                    if b == i {
                        if a < i - 1 {
                            assert(seen[a].id < seen[i - 1].id);
                        }
                    } else {
                        assert(next[a] == seen[a] && next[b] == seen[b]);
                    }
                }
            }
            i += 1;
        }
        assert(self.segments@.take(i as int) =~= self.segments@);
        let consistent: bool = match rows {
            Some(n) => n == self.total_rows,
            None => false,
        };
        if !consistent {
            return Err(
                FormatError::Malformed {
                    offset: 0,
                    kind: MalformedKind::Inconsistent { field: "total_rows" },
                },
            );
        }
        if self.live_count > self.total_rows {
            return Err(
                FormatError::Malformed {
                    offset: 0,
                    kind: MalformedKind::Inconsistent { field: "live_count" },
                },
            );
        }
        Ok(())
    }

    fn write_to(&self, w: &mut Writer)
        ensures
            final(w)@ == old(w)@ + entry_bytes(self@),
    {
        w.string(self.name.as_str());
        w.varint(self.segments.len() as u64);
        let ghost head = w@;
        let mut i: usize = 0;
        assert(head + segments_bytes(self.segments@.take(0)) =~= head);
        while i < self.segments.len()
            invariant
                i <= self.segments@.len(),
                w@ == head + segments_bytes(self.segments@.take(i as int)),
            decreases self.segments.len() - i,
        {
            let s = self.segments[i];
            let ghost before = w@;
            w.varint(s.id);
            w.u32(s.rows);
            w.varint(s.del_generation as u64);
            proof {
                let next = self.segments@.take(i + 1);
                assert(next.drop_last() =~= self.segments@.take(i as int));
                assert(w@ =~= before + segment_bytes(s));
                assert(w@ =~= head + segments_bytes(next));
            }
            i += 1;
        }
        assert(self.segments@.take(i as int) =~= self.segments@);
        // Option encoded as 0 = none, n = Some(n - 1), so no separate flag byte is needed and the
        // common "no snapshot yet" case costs one byte.
        match self.index_snapshot {
            None => {
                w.varint(0);
            },
            Some(id) => {
                w.varint(id.saturating_add(1));
            },
        }
        w.varint(self.last_applied_wal);
        w.varint(self.live_count);
        w.varint(self.total_rows);
        w.reserved(4);
        assert(w@ =~= old(w)@ + entry_bytes(self@));
    }
}

impl Manifest {
    /// An empty manifest at sequence 1.
    ///
    /// Sequence starts at 1, not 0, so that "no manifest has ever been written" and "sequence 0"
    /// are never confused.
    pub fn new(db_uuid: [u8; 16], now_ms: u64) -> (r: Self)
        ensures
            r@ == (ManifestModel {
                sequence: 1,
                db_uuid: db_uuid@,
                created_at_ms: now_ms,
                updated_at_ms: now_ms,
                collections: Seq::empty(),
            }),
    {
        let collections: Vec<CollectionEntry> = Vec::new();
        assert(entry_models(collections@) =~= Seq::<EntryModel>::empty());
        Manifest { sequence: 1, db_uuid, created_at_ms: now_ms, updated_at_ms: now_ms, collections }
    }

    /// Look up a collection.
    pub fn collection(&self, name: &str) -> (r: Option<&CollectionEntry>)
        ensures
            match r {
                Some(c) => c@.name == name@ && exists|i: int|
                    0 <= i < self@.collections.len() && #[trigger] self@.collections[i] == c@ && (
                    forall|j: int| 0 <= j < i ==> (#[trigger] self@.collections[j]).name != name@),
                None => forall|i: int|
                    0 <= i < self@.collections.len() ==> (#[trigger] self@.collections[i]).name
                        != name@,
            },
    {
        let mut i: usize = 0;
        while i < self.collections.len()
            invariant
                i <= self.collections@.len(),
                forall|j: int| 0 <= j < i ==> (#[trigger] self@.collections[j]).name != name@,
            decreases self.collections.len() - i,
        {
            let c = &self.collections[i];
            assert(self@.collections[i as int] == c@);
            if bytes::same_str(c.name.as_str(), name) {
                return Some(c);
            }
            i += 1;
        }
        None
    }

    /// Serialize to a complete, checksummed manifest slot.
    ///
    /// # Errors
    /// [`FormatError::Malformed`] if the structure violates an invariant the decoder will
    /// enforce: segments out of order, duplicate collection names, or counts that disagree.
    pub fn encode(&self) -> (r: Result<Vec<u8>, FormatError>)
        ensures
            match checked(self@) {
                Ok(()) => r matches Ok(b) && b@ == block::block_bytes(
                    FileKind::Manifest,
                    manifest_bytes(self@),
                ),
                Err(e) => r == Err::<Vec<u8>, FormatError>(e),
            },
    {
        match self.validate() {
            Ok(()) => {},
            Err(e) => {
                return Err(e);
            },
        }
        let mut w = Writer::new();
        w.u64(self.sequence);
        w.raw(self.db_uuid.as_slice());
        w.u64(self.created_at_ms);
        w.u64(self.updated_at_ms);
        w.varint(self.collections.len() as u64);
        let ghost head = w@;
        assert(head =~= manifest_head_bytes(self@) + varint::varint(self@.collections.len()));
        let mut i: usize = 0;
        assert(head + entries_bytes(self@.collections.take(0)) =~= head);
        while i < self.collections.len()
            invariant
                i <= self.collections@.len(),
                w@ == head + entries_bytes(self@.collections.take(i as int)),
            decreases self.collections.len() - i,
        {
            let ghost before = w@;
            self.collections[i].write_to(&mut w);
            proof {
                let next = self@.collections.take(i + 1);
                assert(next.drop_last() =~= self@.collections.take(i as int));
                assert(next.last() == self.collections@[i as int]@);
                assert(w@ =~= head + entries_bytes(next));
            }
            i += 1;
        }
        assert(self@.collections.take(i as int) =~= self@.collections);
        w.reserved(8);
        assert(w@ =~= manifest_bytes(self@));
        Ok(block::encode_block(FileKind::Manifest, w.as_slice()))
    }

    /// Parse a manifest slot.
    ///
    /// # Errors
    /// Any [`FormatError`].
    pub fn decode(bytes: &[u8]) -> (r: Result<Self, FormatError>)
        ensures
            match decoded(bytes@) {
                Ok(m) => r matches Ok(v) && v@ == m,
                Err(e) => r == Err::<Manifest, FormatError>(e),
            },
    {
        let payload = match block::decode_block(bytes, FileKind::Manifest) {
            Ok(p) => p,
            Err(e) => {
                return Err(e);
            },
        };
        let m = match Self::parse(payload) {
            Ok(m) => m,
            Err(e) => {
                return Err(e);
            },
        };
        match m.validate() {
            Ok(()) => Ok(m),
            Err(e) => Err(e),
        }
    }

    fn parse(payload: &[u8]) -> (res: Result<Self, FormatError>)
        ensures
            match parsed_manifest(payload@) {
                Ok(m) => res matches Ok(v) && v@ == m,
                Err(e) => res == Err::<Manifest, FormatError>(e),
            },
    {
        let mut r = Reader::new(payload);
        let sequence: u64 = match r.u64() {
            Ok(v) => v,
            Err(e) => {
                return Err(e);
            },
        };
        let db_uuid: [u8; 16] = match r.array::<16>() {
            Ok(v) => v,
            Err(e) => {
                return Err(e);
            },
        };
        let created_at_ms: u64 = match r.u64() {
            Ok(v) => v,
            Err(e) => {
                return Err(e);
            },
        };
        let updated_at_ms: u64 = match r.u64() {
            Ok(v) => v,
            Err(e) => {
                return Err(e);
            },
        };
        // A collection entry cannot be shorter than a handful of bytes; refuse a count the
        // remaining input could not possibly supply before allocating for it.
        let count: usize = match value::read_count(&mut r, 8) {
            Ok(n) => n,
            Err(e) => {
                return Err(e);
            },
        };
        let collections = match read_entries(&mut r, count) {
            Ok(v) => v,
            Err(e) => {
                return Err(e);
            },
        };
        match r.reserved(8) {
            Ok(()) => {},
            Err(e) => {
                return Err(e);
            },
        }
        match r.expect_end("manifest") {
            Ok(()) => {},
            Err(e) => {
                return Err(e);
            },
        }
        Ok(Manifest { sequence, db_uuid, created_at_ms, updated_at_ms, collections })
    }

    /// Whether two collections share a name.
    fn has_repeated_name(&self) -> (r: bool)
        ensures
            r == names_repeat(self@.collections),
    {
        let ghost cs = self@.collections;
        let mut i: usize = 0;
        while i < self.collections.len()
            invariant
                i <= self.collections@.len(),
                cs == entry_models(self.collections@),
                forall|a: int, b: int|
                    0 <= a < b < i ==> (#[trigger] cs[a]).name != (#[trigger] cs[b]).name,
            decreases self.collections.len() - i,
        {
            let mut j: usize = 0;
            while j < i
                invariant
                    j <= i < self.collections@.len(),
                    cs == entry_models(self.collections@),
                    forall|a: int| 0 <= a < j ==> (#[trigger] cs[a]).name != cs[i as int].name,
                decreases i - j,
            {
                assert(cs[i as int] == self.collections@[i as int]@);
                assert(cs[j as int] == self.collections@[j as int]@);
                if bytes::same_str(
                    self.collections[j].name.as_str(),
                    self.collections[i].name.as_str(),
                ) {
                    return true;
                }
                j += 1;
            }
            i += 1;
        }
        false
    }

    /// Check the rules that every stored manifest keeps.
    ///
    /// # Errors
    /// [`MalformedKind::DuplicateKey`] for a repeated collection name, and otherwise the first
    /// rule that an entry breaks.
    pub fn validate(&self) -> (r: Result<(), FormatError>)
        ensures
            r == checked(self@),
    {
        if self.has_repeated_name() {
            return Err(FormatError::Malformed { offset: 0, kind: MalformedKind::DuplicateKey });
        }
        let ghost cs = self@.collections;
        let mut i: usize = 0;
        while i < self.collections.len()
            invariant
                i <= self.collections@.len(),
                cs == entry_models(self.collections@),
                cs == self@.collections,
                !names_repeat(cs),
                entries_checked(cs.take(i as int)) == Ok::<(), FormatError>(()),
            decreases self.collections.len() - i,
        {
            proof {
                assert(cs.take(i + 1).drop_last() =~= cs.take(i as int));
                assert(cs.take(i + 1).last() == self.collections@[i as int]@);
            }
            match self.collections[i].validate() {
                Ok(()) => {},
                Err(e) => {
                    proof {
                        lemma_entries_checked_err(cs, i + 1);
                    }
                    return Err(e);
                },
            }
            i += 1;
        }
        assert(cs.take(i as int) =~= cs);
        Ok(())
    }
}

} // verus!
