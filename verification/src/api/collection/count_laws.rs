//! What counting a collection's documents comes to.
use vstd::prelude::*;
use vstd::set_lib::*;

use crate::api::collection;
use crate::api::collection::CollModel;
use crate::document::IdModel;
use crate::document;
use crate::format::segment::tombstones;
use crate::persistence::flush_laws;
use crate::persistence::segment;
use crate::persistence::segment::SegmentModel;
use crate::write::memtable;
use crate::write::memtable::{MemModel, Slot};
use crate::write::memtable_laws;

verus! {

/// The documents of the live ones of the first `n` rows of a segment.
pub open spec fn live_ids(m: SegmentModel, n: nat) -> Seq<IdModel>
    decreases n,
{
    if n == 0 {
        Seq::empty()
    } else if m.live(n - 1) {
        live_ids(m, (n - 1) as nat).push(m.ids[n - 1])
    } else {
        live_ids(m, (n - 1) as nat)
    }
}

/// The documents of the live rows of segments.
pub open spec fn all_live(segs: Seq<SegmentModel>) -> Seq<IdModel>
    decreases segs.len(),
{
    if segs.len() == 0 {
        Seq::empty()
    } else {
        all_live(segs.drop_last()) + live_ids(segs.last(), segs.last().ids.len())
    }
}

proof fn lemma_live_ids(m: SegmentModel, n: nat)
    requires
        m.wf(),
        n <= m.ids.len(),
    ensures
        live_ids(m, n).len() == m.tombstones.live_below(n),
        live_ids(m, n).no_duplicates(),
        forall|id: IdModel| #[trigger]
            live_ids(m, n).contains(id) == (exists|i: int|
                0 <= i < n && #[trigger] m.live(i) && m.ids[i] == id),
    decreases n,
{
    let all = live_ids(m, n);
    if n > 0 {
        let few = live_ids(m, (n - 1) as nat);
        lemma_live_ids(m, (n - 1) as nat);
        if m.live(n - 1) {
            let last = m.ids[n - 1];
            assert(!few.contains(last)) by {
                if few.contains(last) {
                    let i = choose|i: int|
                        0 <= i < n - 1 && #[trigger] m.live(i) && m.ids[i] == last;
                    assert(m.ids[i] != m.ids[n - 1]);
                }
            }
            assert(all == few.push(last));
        }
        assert forall|id: IdModel| #[trigger]
            all.contains(id) == (exists|i: int|
                0 <= i < n && #[trigger] m.live(i) && m.ids[i] == id) by {
            if all.contains(id) {
                let k = choose|k: int| 0 <= k < all.len() && all[k] == id;
                if k < few.len() {
                    assert(few[k] == id);
                    assert(few.contains(id));
                    let i = choose|i: int| 0 <= i < n - 1 && #[trigger] m.live(i) && m.ids[i] == id;
                    assert(m.live(i));
                } else {
                    assert(m.live(n - 1));
                }
            }
            if exists|i: int| 0 <= i < n && #[trigger] m.live(i) && m.ids[i] == id {
                let i = choose|i: int| 0 <= i < n && #[trigger] m.live(i) && m.ids[i] == id;
                if i < n - 1 {
                    assert(few.contains(id));
                    let k = choose|k: int| 0 <= k < few.len() && few[k] == id;
                    assert(all[k] == id);
                } else {
                    assert(all[all.len() - 1] == id);
                }
            }
        }
    }
}

/// Where no document is live in two segments, the documents of their live rows are each listed
/// once, and as many as are counted.
pub proof fn lemma_all_live(segs: Seq<SegmentModel>)
    requires
        forall|s: int| 0 <= s < segs.len() ==> (#[trigger] segs[s]).wf(),
        flush_laws::single(segs),
    ensures
        all_live(segs).len() == segment::live_on_disk(segs),
        all_live(segs).no_duplicates(),
        forall|id: IdModel| #[trigger]
            all_live(segs).contains(id) == collection::live_somewhere(segs, id),
    decreases segs.len(),
{
    if segs.len() > 0 {
        let front = segs.drop_last();
        let last = segs.last();
        let few = all_live(front);
        let more = live_ids(last, last.ids.len());
        let all = all_live(segs);
        assert(segs[segs.len() - 1].wf());
        assert forall|s: int| 0 <= s < front.len() implies (#[trigger] front[s]).wf() by {
            assert(segs[s].wf());
        }
        assert(flush_laws::single(front)) by {
            assert forall|s: int, t: int, i: int, j: int|
                0 <= s < t < front.len() && 0 <= i < front[s].ids.len() && 0 <= j
                    < front[t].ids.len() && #[trigger] front[s].live(i)
                    && #[trigger] front[t].live(j) implies front[s].ids[i] != front[t].ids[j] by {
                assert(segs[s].live(i));
                assert(segs[t].live(j));
            }
        }
        lemma_all_live(front);
        lemma_live_ids(last, last.ids.len());
        assert forall|a: int, b: int| 0 <= a < all.len() && 0 <= b < all.len() && a != b implies all[a]
            != all[b] by {
            if a < few.len() && b < few.len() {
                assert(few[a] != few[b]);
            } else if a >= few.len() && b >= few.len() {
                assert(more[a - few.len()] != more[b - few.len()]);
            } else {
                let x = if a < few.len() {
                    a
                } else {
                    b
                };
                let y = if a < few.len() {
                    b
                } else {
                    a
                };
                if all[x] == all[y] {
                    let id = all[x];
                    assert(few[x] == id);
                    assert(few.contains(id));
                    assert(more[y - few.len()] == id);
                    assert(more.contains(id));
                    let (s, i) = choose|s: int, i: int|
                        0 <= s < front.len() && 0 <= i < front[s].ids.len()
                            && #[trigger] front[s].live(i) && front[s].ids[i] == id;
                    let j = choose|j: int|
                        0 <= j < last.ids.len() && #[trigger] last.live(j) && last.ids[j] == id;
                    assert(segs[s].live(i));
                    assert(segs[segs.len() - 1].live(j));
                }
            }
        }
        assert forall|id: IdModel| #[trigger]
            all.contains(id) == collection::live_somewhere(segs, id) by {
            lemma_contains_either(few, more, id);
            assert(segs.take(segs.len() - 1) =~= front);
            assert(segs.take(segs.len() as int) =~= segs);
            collection::lemma_live_in_more(segs, segs.len() - 1, id);
        }
    }
}

proof fn lemma_contains_either(a: Seq<IdModel>, b: Seq<IdModel>, id: IdModel)
    ensures
        (a + b).contains(id) == (a.contains(id) || b.contains(id)),
{
    let all = a + b;
    if all.contains(id) {
        let k = choose|k: int| 0 <= k < all.len() && all[k] == id;
        if k < a.len() {
            assert(a[k] == id);
        } else {
            assert(b[k - a.len()] == id);
        }
    }
    if a.contains(id) {
        let k = choose|k: int| 0 <= k < a.len() && a[k] == id;
        assert(all[k] == id);
    }
    if b.contains(id) {
        let k = choose|k: int| 0 <= k < b.len() && b[k] == id;
        assert(all[a.len() + k] == id);
    }
}

proof fn lemma_overlap(segs: Seq<SegmentModel>, ids: Seq<IdModel>, on_disk: Set<IdModel>)
    requires
        ids.no_duplicates(),
        forall|id: IdModel| on_disk.contains(id) == #[trigger] collection::segment_has(segs, id),
    ensures
        collection::overlap(segs, ids) == on_disk.intersect(ids.to_set()).len(),
    decreases ids.len(),
{
    broadcast use vstd::seq_lib::seq_to_set_is_finite;

    let hit = on_disk.intersect(ids.to_set());
    if ids.len() == 0 {
        assert(hit =~= Set::<IdModel>::empty());
    } else {
        let front = ids.drop_last();
        let last = ids.last();
        let few = on_disk.intersect(front.to_set());
        lemma_overlap(segs, front, on_disk);
        assert(!front.contains(last)) by {
            if front.contains(last) {
                let k = choose|k: int| 0 <= k < front.len() && front[k] == last;
                assert(ids[k] != ids[ids.len() - 1]);
            }
        }
        assert forall|id: IdModel| ids.contains(id) == (front.contains(id) || id == last) by {
            assert(ids =~= front + seq![last]);
            lemma_contains_either(front, seq![last], id);
            assert(seq![last][0] == last);
            if seq![last].contains(id) {
                let k = choose|k: int| 0 <= k < seq![last].len() && seq![last][k] == id;
            }
        }
        if on_disk.contains(last) {
            assert(hit =~= few.insert(last));
            assert(!few.contains(last));
            assert(few.finite());
        } else {
            assert(hit =~= few);
        }
        assert(on_disk.contains(last) == collection::segment_has(segs, last));
    }
}

proof fn lemma_buffered_ids(m: MemModel)
    requires
        m.wf(),
        m.rows.len() <= usize::MAX,
    ensures
        collection::ids_of(m.live()).no_duplicates(),
        memtable::deleted(m.index).no_duplicates(),
        forall|id: IdModel| #[trigger]
            collection::ids_of(m.live()).contains(id) == (m.found(id) matches Some(Slot::Row(_))),
        forall|id: IdModel| #[trigger]
            memtable::deleted(m.index).contains(id) == (m.found(id) == Some(Slot::Deleted)),
{
    let live = collection::ids_of(m.live());
    let gone = memtable::deleted(m.index);
    assert forall|a: int, b: int| 0 <= a < live.len() && 0 <= b < live.len() && a != b implies live[a]
        != live[b] by {
        if a < b {
            memtable_laws::lemma_live_rows_are_distinct(m, a, b);
        } else {
            memtable_laws::lemma_live_rows_are_distinct(m, b, a);
        }
    }
    assert forall|a: int, b: int| 0 <= a < gone.len() && 0 <= b < gone.len() && a != b implies gone[a]
        != gone[b] by {
        if a < b {
            memtable_laws::lemma_deleted_ids_ascend(m.index, a, b);
        } else {
            memtable_laws::lemma_deleted_ids_ascend(m.index, b, a);
        }
        document::lemma_ids_are_ordered(gone[a], gone[b], gone[a]);
    }
    assert forall|id: IdModel| #[trigger]
        live.contains(id) == (m.found(id) matches Some(Slot::Row(_))) by {
        if live.contains(id) {
            let k = choose|k: int| 0 <= k < live.len() && live[k] == id;
            assert(m.live()[k].id == id);
            memtable_laws::lemma_live_rows_are_current(m, m.rows.len(), k);
        }
        if let Some(Slot::Row(i)) = m.found(id) {
            memtable_laws::lemma_present_documents_are_live(m, id, i);
            memtable::lemma_slot_of(m, id);
            let k = choose|k: int| 0 <= k < m.live().len() && m.live()[k] == m.rows[i as int];
            assert(live[k] == id);
        }
    }
    assert forall|id: IdModel| #[trigger]
        gone.contains(id) == (m.found(id) == Some(Slot::Deleted)) by {
        memtable_laws::lemma_deleted_ids(m.index, id);
    }
}

/// The count is the number of documents: a list that names each document of a collection once is
/// as long as the count, as long as no document is live in two segments.
pub proof fn lemma_count_is_number_of_documents(c: CollModel, ids: Seq<IdModel>)
    requires
        c.wf(),
        c.memtable.fits(),
        flush_laws::single(c.segments),
        ids.no_duplicates(),
        forall|id: IdModel| #[trigger] ids.contains(id) == (c.located(id) is Some),
    ensures
        c.live_documents() == ids.len(),
{
    broadcast use vstd::seq_lib::seq_to_set_is_finite;

    let m = c.memtable;
    let live = collection::ids_of(m.live());
    let gone = memtable::deleted(m.index);
    let disk = all_live(c.segments);
    lemma_all_live(c.segments);
    lemma_buffered_ids(m);
    let l = live.to_set();
    let d = gone.to_set();
    let s = disk.to_set();
    let v = ids.to_set();
    live.unique_seq_to_set();
    gone.unique_seq_to_set();
    disk.unique_seq_to_set();
    ids.unique_seq_to_set();
    assert forall|id: IdModel| s.contains(id) == #[trigger] collection::segment_has(
        c.segments,
        id,
    ) by {
        collection::lemma_newest(c.segments, id);
        assert(disk.contains(id) == collection::live_somewhere(c.segments, id));
    }
    lemma_overlap(c.segments, live, s);
    lemma_overlap(c.segments, gone, s);
    let known = l + d;
    let unknown = s.difference(known);
    assert forall|id: IdModel| v.contains(id) == (l + unknown).contains(id) by {
        assert(ids.contains(id) == (c.located(id) is Some));
        assert(live.contains(id) == (m.found(id) matches Some(Slot::Row(_))));
        assert(gone.contains(id) == (m.found(id) == Some(Slot::Deleted)));
        assert(s.contains(id) == collection::segment_has(c.segments, id));
    }
    assert(v =~= l + unknown);
    assert(l.disjoint(unknown));
    lemma_set_disjoint_lens(l, unknown);
    lemma_set_difference_len(s, known);
    assert(l.disjoint(d)) by {
        assert forall|id: IdModel| l.contains(id) implies !d.contains(id) by {
            assert(live.contains(id));
            assert(gone.contains(id) == (m.found(id) == Some(Slot::Deleted)));
        }
    }
    let sl = s.intersect(l);
    let sd = s.intersect(d);
    assert(s.intersect(known) =~= sl + sd);
    assert(sl.disjoint(sd));
    lemma_set_disjoint_lens(sl, sd);
}

} // verus!
