//! What a crash leaves of a collection: whatever was on disk, a reopen shows what was there.
use vstd::prelude::*;

use crate::api::collection;
use crate::api::collection::checkpoint;
use crate::api::collection::laws;
use crate::api::collection::log_laws;
use crate::api::collection::open;
use crate::api::collection::CollModel;
use crate::document::IdModel;
use crate::error::ErrorModel;
use crate::format::block;
use crate::format::catalog::CatalogModel;
use crate::format::header::{FileKind, HEADER_LEN};
use crate::format::manifest::SegmentRef;
use crate::format::segment::tombstones;
use crate::format::segment::tombstones::BitmapModel;
use crate::format::wal;
use crate::format::wal::FrameModel;
use crate::persistence::flush;
use crate::persistence::flush_laws;
use crate::persistence::layout::SegmentFile;
use crate::persistence::recovery;
use crate::persistence::segment;
use crate::persistence::segment::{SegmentFiles, SegmentModel};
use crate::write::memtable;
use crate::write::memtable::MemModel;

verus! {

/// The collection that a reopen makes of segments and the bytes of a log, where the log can be
/// replayed.
pub open spec fn reopened(
    c: CollModel,
    segments: Seq<SegmentModel>,
    log: Seq<u8>,
    norms: Seq<u32>,
) -> CollModel {
    CollModel {
        segments,
        memtable: recovery::replayed(
            MemModel::empty(c.memtable.dimension, c.memtable.dtype),
            c.catalog.id_kind,
            recovery::committed_frames(log),
            norms,
        )->Ok_0,
        ..c
    }
}

/// Whether the log holds everything that a collection has not yet folded into a segment.
pub open spec fn is_logged(c: CollModel, log: Seq<u8>, norms: Seq<u32>) -> bool {
    log_laws::agrees(c.memtable, c.catalog.id_kind, recovery::committed_frames(log), norms)
}

/// A reopen shows every document as it was when the process died.
pub proof fn lemma_reopen_shows_documents(
    c: CollModel,
    log: Seq<u8>,
    norms: Seq<u32>,
    id: IdModel,
)
    requires
        is_logged(c, log, norms),
    ensures
        reopened(c, c.segments, log, norms).visible(id) == c.visible(id),
{
    let n = reopened(c, c.segments, log, norms);
    assert(n.memtable.seen(id) == c.memtable.seen(id));
}

/// Whether `mix` is segments `a` of which some have already become those of `b`: the bitmaps of a
/// flush, written one after the other.
pub open spec fn partly(
    a: Seq<SegmentModel>,
    b: Seq<SegmentModel>,
    mix: Seq<SegmentModel>,
) -> bool {
    &&& a.len() == mix.len()
    &&& b.len() == mix.len()
    &&& forall|s: int| 0 <= s < mix.len() ==> #[trigger] mix[s] == a[s] || mix[s] == b[s]
}

/// What a crash during a flush can leave: the segments that the manifest names, and the log.
///
/// Before the commit these are the old segments, with some bitmaps rewritten, and the whole log.
/// From the commit on they are the superseded segments and the new one, and the log, until it is
/// truncated.
pub open spec fn left_by_flush(
    before: Seq<SegmentModel>,
    after: Seq<SegmentModel>,
    added: Seq<SegmentModel>,
    log: Seq<u8>,
    found: Seq<SegmentModel>,
    found_log: Seq<u8>,
) -> bool {
    ||| partly(before, after, found) && found_log == log
    ||| found == after + added && found_log == log
    ||| found == after + added && found_log.len() == 0
}

/// What a flush adds: the segment of the memtable's live rows, or nothing where there are none.
pub open spec fn is_added(m: MemModel, added: Seq<SegmentModel>) -> bool {
    if m.live().len() == 0 {
        added.len() == 0
    } else {
        added.len() == 1 && flush_laws::holds(added[0], flush::flushed_rows(m))
    }
}

proof fn lemma_partly_keeps_the_rest(
    a: Seq<SegmentModel>,
    b: Seq<SegmentModel>,
    mix: Seq<SegmentModel>,
    ids: Seq<IdModel>,
    id: IdModel,
)
    requires
        checkpoint::all_superseded(a, b, ids),
        partly(a, b, mix),
        a.len() <= usize::MAX,
        !ids.contains(id),
        forall|s: int| 0 <= s < a.len() ==> (#[trigger] a[s]).wf(),
    ensures
        laws::stored(mix, id) == laws::stored(a, id),
        collection::newest(mix, id) == collection::newest(a, id),
    decreases a.len(),
{
    if a.len() > 0 {
        let last = a.len() - 1;
        let af = a.drop_last();
        let bf = b.drop_last();
        let mf = mix.drop_last();
        assert(checkpoint::all_superseded(af, bf, ids)) by {
            assert forall|s: int| 0 <= s < af.len() implies checkpoint::superseded(
                #[trigger] af[s],
                bf[s],
                ids,
            ) by {
                assert(checkpoint::superseded(a[s], b[s], ids));
            }
        }
        assert(partly(af, bf, mf)) by {
            assert forall|s: int| 0 <= s < mf.len() implies #[trigger] mf[s] == af[s] || mf[s]
                == bf[s] by {
                assert(mix[s] == a[s] || mix[s] == b[s]);
            }
        }
        assert forall|s: int| 0 <= s < af.len() implies (#[trigger] af[s]).wf() by {
            assert(a[s].wf());
        }
        lemma_partly_keeps_the_rest(af, bf, mf, ids, id);
        assert(checkpoint::superseded(a[last], b[last], ids));
        assert(mix[last] == a[last] || mix[last] == b[last]);
        let x = a[last];
        let y = mix[last];
        assert(x.row_of(id) == y.row_of(id));
        if x.row_of(id) is Some {
            let i = choose|i: int| 0 <= i < x.ids.len() && x.ids[i] == id;
            assert(b[last].live(i) == (x.live(i) && !ids.contains(x.ids[i])));
            assert(x.live(i) == y.live(i));
        }
        collection::lemma_newest(a, id);
        collection::lemma_newest(af, id);
        if let Some((s, row)) = collection::newest(a, id) {
            assert(checkpoint::superseded(a[s as int], b[s as int], ids));
            assert(mix[s as int] == a[s as int] || mix[s as int] == b[s as int]);
            laws::lemma_same_version(a[s as int], b[s as int], row);
        }
    } else {
        assert(a =~= Seq::<SegmentModel>::empty());
        assert(mix =~= Seq::<SegmentModel>::empty());
    }
}

proof fn lemma_nothing_to_replay(log: Seq<u8>)
    requires
        log.len() == 0,
    ensures
        recovery::committed_frames(log) == Seq::<FrameModel>::empty(),
{
    assert(wal::scanned(log, 0).0 == Seq::<FrameModel>::empty());
}

/// A crash at any point of a flush loses no document and brings none back: whatever it left on
/// disk, a reopen shows each document as it was before the flush began.
pub proof fn lemma_crash_during_flush_changes_nothing(
    c: CollModel,
    after: Seq<SegmentModel>,
    added: Seq<SegmentModel>,
    log: Seq<u8>,
    found: Seq<SegmentModel>,
    found_log: Seq<u8>,
    norms: Seq<u32>,
    found_norms: Seq<u32>,
    id: IdModel,
)
    requires
        c.wf(),
        c.memtable.fits(),
        is_logged(c, log, norms),
        checkpoint::all_superseded(
            c.segments,
            after,
            checkpoint::taken(c.memtable, memtable::deleted(c.memtable.index)),
        ),
        is_added(c.memtable, added),
        left_by_flush(c.segments, after, added, log, found, found_log),
        found_log == log ==> found_norms == norms,
        found.len() <= usize::MAX,
    ensures
        reopened(c, found, found_log, found_norms).visible(id) == c.visible(id),
{
    let ids = checkpoint::taken(c.memtable, memtable::deleted(c.memtable.index));
    let n = reopened(c, found, found_log, found_norms);
    laws::lemma_taken_is_known(c.memtable, id);
    if found_log == log {
        assert(n.memtable.seen(id) == c.memtable.seen(id));
    }
    if partly(c.segments, after, found) && found_log == log {
        if c.memtable.found(id) is None {
            lemma_partly_keeps_the_rest(c.segments, after, found, ids, id);
        }
    } else {
        laws::lemma_supersede_keeps_documents(c, after, id);
        let mid = CollModel { segments: after, ..c };
        assert forall|s: int| 0 <= s < after.len() implies (#[trigger] after[s]).wf() by {
            assert(checkpoint::superseded(c.segments[s], after[s], ids));
        }
        if added.len() == 1 {
            let seg = added[0];
            assert(added =~= seq![seg]);
            assert(after + added =~= after.push(seg));
            laws::lemma_receive_keeps_documents(mid, seg, id);
        } else {
            assert(after + added =~= after);
        }
        let end = CollModel { segments: found, ..c };
        assert(end.visible(id) == c.visible(id));
        if found_log.len() == 0 {
            lemma_nothing_to_replay(found_log);
            assert(n.memtable == MemModel::empty(c.memtable.dimension, c.memtable.dtype));
            if added.len() == 1 {
                assert(found.drop_last() =~= after);
                assert forall|s: int| 0 <= s < found.len() implies (#[trigger] found[s]).wf() by {
                    if s < after.len() {
                        assert(after[s].wf());
                    }
                }
                laws::lemma_checkpoint_keeps_documents(end, c.segments, after, added[0], id);
            } else {
                laws::lemma_tombstone_checkpoint_keeps_documents(end, c.segments, id);
            }
        }
    }
}

/// A rewritten bitmap is read back: the segment opens with the rows that it left live, and
/// everything else as before.
pub proof fn lemma_bitmap_is_read_back(
    c: CatalogModel,
    seg: SegmentRef,
    f: SegmentFiles,
    m: SegmentModel,
    t: BitmapModel,
    g: SegmentFiles,
    generation: u32,
)
    requires
        segment::opened(c, seg, f) == Ok::<SegmentModel, ErrorModel>(m),
        t.wf(),
        t.rows == seg.rows,
        tombstones::bitmap_bytes(t).len() + HEADER_LEN + block::TRAILER_LEN <= usize::MAX,
        g.held(SegmentFile::Vectors) == f.held(SegmentFile::Vectors),
        g.held(SegmentFile::Directory) == f.held(SegmentFile::Directory),
        g.held(SegmentFile::Metadata) == f.held(SegmentFile::Metadata),
        g.held(SegmentFile::Tombstones) == Some(
            block::block_bytes(FileKind::Deleted, tombstones::bitmap_bytes(t)),
        ),
    ensures
        segment::opened(c, SegmentRef { del_generation: generation, ..seg }, g) == Ok::<
            SegmentModel,
            ErrorModel,
        >(SegmentModel { tombstones: t, ..m }),
{
    reveal(segment::opened);
    tombstones::lemma_bitmap_round_trip(t);
}

/// The segments that are removed on open are exactly those on disk that nothing names, so files of
/// a flush that never committed are gone, and nothing else is.
pub proof fn lemma_orphans_are_unnamed(refs: Seq<SegmentRef>, listed: Seq<u64>, id: u64)
    ensures
        open::unnamed(refs, listed).contains(id) == (listed.contains(id) && !open::names(refs, id)),
        open::unnamed(refs, listed).contains(id) == (listed.contains(id) && forall|i: int|
            0 <= i < refs.len() ==> (#[trigger] refs[i]).id != id),
    decreases listed.len(),
{
    if listed.len() > 0 {
        let front = listed.drop_last();
        let less = open::unnamed(refs, front);
        lemma_orphans_are_unnamed(refs, front, id);
        assert(listed =~= front.push(listed.last()));
        if listed.contains(id) && id != listed.last() {
            let k = choose|k: int| 0 <= k < listed.len() && listed[k] == id;
            assert(front[k] == id);
        }
        if front.contains(id) {
            let k = choose|k: int| 0 <= k < front.len() && front[k] == id;
            assert(listed[k] == id);
        }
        assert(listed[listed.len() - 1] == listed.last());
        let more = less.push(listed.last());
        if less.contains(id) {
            let k = choose|k: int| 0 <= k < less.len() && less[k] == id;
            assert(more[k] == id);
        }
        assert(more[less.len() as int] == listed.last());
        if more.contains(id) && id != listed.last() {
            let k = choose|k: int| 0 <= k < more.len() && more[k] == id;
            assert(less[k] == id);
        }
    }
}

} // verus!
