//! What holds of every sequence of buffered writes.
use vstd::prelude::*;

use crate::document;
use crate::document::IdModel;
use crate::format::value::ValueModel;
use crate::idmap;
use crate::write::memtable;
use crate::write::memtable::{MemModel, RowModel, Slot};

verus! {

/// One version of a document.
pub struct Version {
    pub vector: Seq<u8>,
    pub inv_norm: u32,
    pub metadata: Option<Seq<(Seq<char>, ValueModel)>>,
    pub content: Option<Seq<u8>>,
}

impl MemModel {
    /// The version that a row holds.
    pub open spec fn version(self, row: RowModel) -> Version {
        Version {
            vector: self.vector(row)->0,
            inv_norm: row.inv_norm,
            metadata: row.metadata,
            content: row.content,
        }
    }

    /// What is seen of a document: nothing where the memtable does not know it, and no version
    /// where it was deleted here.
    pub open spec fn seen(self, id: IdModel) -> Option<Option<Version>> {
        match self.found(id) {
            None => None,
            Some(Slot::Deleted) => Some(None),
            Some(Slot::Row(i)) => Some(Some(self.version(self.rows[i as int]))),
        }
    }

    /// Whether the arena holds the vector of every row.
    pub open spec fn held(self) -> bool {
        forall|i: int| 0 <= i < self.rows.len() ==> self.vector(#[trigger] self.rows[i]) is Some
    }

    /// Whether it fits into memory.
    pub open spec fn fits(self) -> bool {
        self.rows.len() <= usize::MAX && self.arena.len() <= usize::MAX
    }
}

/// What is seen of a document that was just written is what was written, and what is seen of any
/// other stays.
pub proof fn lemma_seen_after_write(
    m: MemModel,
    id: IdModel,
    stored: Seq<u8>,
    inv_norm: u32,
    metadata: Option<Seq<(Seq<char>, ValueModel)>>,
    content: Option<Seq<u8>>,
    other: IdModel,
)
    requires
        m.wf(),
        m.held(),
        m.with(id, stored, inv_norm, metadata, content).fits(),
        stored.len() == m.dtype.stride(m.dimension),
    ensures
        ({
            let n = m.with(id, stored, inv_norm, metadata, content);
            &&& n.wf()
            &&& n.held()
            &&& n.seen(other) == if other == id {
                Some(Some(Version { vector: stored, inv_norm, metadata, content }))
            } else {
                m.seen(other)
            }
        }),
{
    let n = m.with(id, stored, inv_norm, metadata, content);
    assert(n.rows.len() == m.rows.len() + 1);
    assert(n.arena.len() == m.arena.len() + stored.len());
    memtable::lemma_with_wf(m, id, stored, inv_norm, metadata, content);
    lemma_write_then_read(m, id, stored, inv_norm, metadata, content, other);
    assert forall|i: int| 0 <= i < n.rows.len() implies n.vector(#[trigger] n.rows[i]) is Some by {
        if i < m.rows.len() {
            lemma_rows_stay(m, id, stored, inv_norm, metadata, content, i);
        }
    }
    memtable::lemma_slot_of(m, other);
    if let Some(Slot::Row(i)) = m.found(other) {
        lemma_rows_stay(m, id, stored, inv_norm, metadata, content, i as int);
    }
}

/// A document that was just deleted is seen as deleted, and what is seen of any other stays.
pub proof fn lemma_seen_after_delete(m: MemModel, id: IdModel, other: IdModel)
    requires
        m.wf(),
        m.held(),
        m.fits(),
    ensures
        m.without(id).wf(),
        m.without(id).held(),
        m.without(id).seen(other) == if other == id {
            Some(None::<Version>)
        } else {
            m.seen(other)
        },
{
    memtable::lemma_without_wf(m, id);
    lemma_delete_shadows(m, id, other);
    let n = m.without(id);
    assert forall|i: int| 0 <= i < n.rows.len() implies n.vector(#[trigger] n.rows[i]) is Some by {
        assert(m.vector(m.rows[i]) is Some);
    }
}

/// A document that was just written is found, as it was written, and nothing else changes: every
/// other document is found, or not, as before.
pub proof fn lemma_write_then_read(
    m: MemModel,
    id: IdModel,
    stored: Seq<u8>,
    inv_norm: u32,
    metadata: Option<Seq<(Seq<char>, ValueModel)>>,
    content: Option<Seq<u8>>,
    other: IdModel,
)
    requires
        m.wf(),
        m.rows.len() < usize::MAX,
        m.arena.len() + stored.len() <= usize::MAX,
        stored.len() == m.dtype.stride(m.dimension),
    ensures
        ({
            let n = m.with(id, stored, inv_norm, metadata, content);
            let row = n.rows.last();
            &&& n.found(id) == Some(Slot::Row(m.rows.len() as usize))
            &&& row.id == id && row.inv_norm == inv_norm && row.metadata == metadata
                && row.content == content
            &&& n.vector(row) == Some(stored)
            &&& other != id ==> n.found(other) == m.found(other)
        }),
{
    let n = m.with(id, stored, inv_norm, metadata, content);
    idmap::lemma_placed(m.index, id, Slot::Row(m.rows.len() as usize));
    let at = m.arena.len() as int;
    assert(n.arena.subrange(at, at + stored.len()) =~= stored);
}

/// Later writes leave earlier rows and their vectors as they were.
pub proof fn lemma_rows_stay(
    m: MemModel,
    id: IdModel,
    stored: Seq<u8>,
    inv_norm: u32,
    metadata: Option<Seq<(Seq<char>, ValueModel)>>,
    content: Option<Seq<u8>>,
    i: int,
)
    requires
        0 <= i < m.rows.len(),
        m.vector(m.rows[i]) is Some,
    ensures
        ({
            let n = m.with(id, stored, inv_norm, metadata, content);
            &&& n.rows[i] == m.rows[i]
            &&& n.vector(n.rows[i]) == m.vector(m.rows[i])
        }),
{
    let n = m.with(id, stored, inv_norm, metadata, content);
    let at = m.rows[i].offset as int;
    let stride = m.dtype.stride(m.dimension);
    assert(n.arena.subrange(at, at + stride) =~= m.arena.subrange(at, at + stride));
}

/// A document that was just deleted is found as deleted, whether or not it was known before, and
/// every other document is found, or not, as before.
pub proof fn lemma_delete_shadows(m: MemModel, id: IdModel, other: IdModel)
    requires
        m.wf(),
    ensures
        m.without(id).found(id) == Some(Slot::Deleted),
        other != id ==> m.without(id).found(other) == m.found(other),
{
    idmap::lemma_placed(m.index, id, Slot::Deleted);
}

/// Deleting a document that is already deleted changes nothing.
pub proof fn lemma_delete_is_idempotent(m: MemModel, id: IdModel)
    requires
        m.wf(),
        m.found(id) == Some(Slot::Deleted),
    ensures
        m.without(id) == m,
{
    lemma_placing_again(m.index, id, Slot::Deleted);
}

/// Storing again what is stored already changes nothing.
proof fn lemma_placing_again(s: Seq<(IdModel, Slot)>, id: IdModel, v: Slot)
    requires
        idmap::ids_ascend(s),
        idmap::lookup(s, id) == Some(v),
    ensures
        idmap::placed(s, id, v) == s,
    decreases s.len(),
{
    let front = s.drop_last();
    idmap::lemma_front_ascends(s);
    if s.last().0 == id {
        assert(front.push((id, v)) =~= s);
    } else {
        idmap::lemma_lookup_found(front, id);
        let i = choose|i: int| 0 <= i < front.len() && #[trigger] front[i] == (id, v);
        assert(document::id_lt(front[i].0, s.last().0));
        lemma_placing_again(front, id, v);
        assert(front.push(s.last()) =~= s);
    }
}

/// Writing a document that was deleted here takes its tombstone away; writing any other leaves
/// the number of tombstones as it was.
pub proof fn lemma_rewrite_clears_the_tombstone(
    m: MemModel,
    id: IdModel,
    stored: Seq<u8>,
    inv_norm: u32,
    metadata: Option<Seq<(Seq<char>, ValueModel)>>,
    content: Option<Seq<u8>>,
)
    requires
        m.wf(),
    ensures
        memtable::deletions(m.with(id, stored, inv_norm, metadata, content).index)
            == memtable::deletions(m.index) - (if m.found(id) == Some(Slot::Deleted) {
            1int
        } else {
            0int
        }),
{
    memtable::lemma_deletions_placed(m.index, id, Slot::Row(m.rows.len() as usize));
}

/// The rows that a flush would fold into a segment are exactly the documents that are present
/// here, each once: a row is live only if it is what its document's lookup finds.
pub proof fn lemma_live_rows_are_current(m: MemModel, n: nat, k: int)
    requires
        m.wf(),
        n <= m.rows.len(),
        0 <= k < m.current_below(n).len(),
    ensures
        exists|i: int|
            0 <= i < n && #[trigger] m.rows[i] == m.current_below(n)[k] && m.found(m.rows[i].id)
                == Some(Slot::Row(i as usize)),
    decreases n,
{
    let front = m.current_below((n - 1) as nat);
    if m.current(n - 1) && k == front.len() {
        assert(m.rows[n - 1] == m.current_below(n)[k]);
    } else {
        lemma_live_rows_are_current(m, (n - 1) as nat, k);
        let i = choose|i: int|
            0 <= i < n - 1 && #[trigger] m.rows[i] == front[k] && m.found(m.rows[i].id) == Some(
                Slot::Row(i as usize),
            );
        assert(m.rows[i] == m.current_below(n)[k]);
    }
}

/// A document that is present here is among the live rows.
pub proof fn lemma_present_documents_are_live(m: MemModel, id: IdModel, i: usize)
    requires
        m.wf(),
        m.found(id) == Some(Slot::Row(i)),
    ensures
        i < m.rows.len(),
        m.live().contains(m.rows[i as int]),
{
    memtable::lemma_slot_of(m, id);
    lemma_current_is_listed(m, i as int, m.rows.len());
}

proof fn lemma_current_is_listed(m: MemModel, i: int, n: nat)
    requires
        0 <= i < n <= m.rows.len(),
        m.current(i),
    ensures
        m.current_below(n).contains(m.rows[i]),
    decreases n,
{
    let front = m.current_below((n - 1) as nat);
    let all = m.current_below(n);
    if i == n - 1 {
        assert(all[all.len() - 1] == m.rows[i]);
    } else {
        lemma_current_is_listed(m, i, (n - 1) as nat);
        let k = choose|k: int| 0 <= k < front.len() && front[k] == m.rows[i];
        assert(all[k] == m.rows[i]);
    }
}

/// No two live rows are of the same document.
pub proof fn lemma_live_rows_are_distinct(m: MemModel, a: int, b: int)
    requires
        m.wf(),
        m.rows.len() <= usize::MAX,
        0 <= a < b < m.live().len(),
    ensures
        m.live()[a].id != m.live()[b].id,
{
    lemma_current_ids_differ(m, m.rows.len(), a, b);
}

proof fn lemma_current_ids_differ(m: MemModel, n: nat, a: int, b: int)
    requires
        m.wf(),
        n <= m.rows.len() <= usize::MAX,
        0 <= a < b < m.current_below(n).len(),
    ensures
        m.current_below(n)[a].id != m.current_below(n)[b].id,
    decreases n,
{
    let front = m.current_below((n - 1) as nat);
    if m.current(n - 1) && b == front.len() {
        lemma_live_rows_are_current(m, (n - 1) as nat, a);
        let i = choose|i: int|
            0 <= i < n - 1 && #[trigger] m.rows[i] == front[a] && m.found(m.rows[i].id) == Some(
                Slot::Row(i as usize),
            );
        if m.rows[i].id == m.rows[n - 1].id {
            assert(Slot::Row(i as usize) == Slot::Row((n - 1) as usize));
        }
    } else {
        lemma_current_ids_differ(m, (n - 1) as nat, a, b);
    }
}

/// The deleted ids are exactly the documents that are found as deleted.
pub proof fn lemma_deleted_ids(s: Seq<(IdModel, Slot)>, id: IdModel)
    requires
        idmap::ids_ascend(s),
    ensures
        memtable::deleted(s).contains(id) == (idmap::lookup(s, id) == Some(Slot::Deleted)),
    decreases s.len(),
{
    if s.len() > 0 {
        let front = s.drop_last();
        let few = memtable::deleted(front);
        let all = memtable::deleted(s);
        idmap::lemma_front_ascends(s);
        lemma_deleted_ids(front, id);
        if s.last().0 == id {
            idmap::lemma_lookup_found(front, id);
            if idmap::lookup(front, id) is Some {
                let v = idmap::lookup(front, id)->0;
                let i = choose|i: int| 0 <= i < front.len() && #[trigger] front[i] == (id, v);
                assert(document::id_lt(front[i].0, s.last().0));
                document::lemma_ids_are_ordered(id, id, id);
            }
        }
        if s.last().1 == Slot::Deleted {
            assert(all == few.push(s.last().0));
            if all.contains(id) {
                let k = choose|k: int| 0 <= k < all.len() && all[k] == id;
                if k < few.len() {
                    assert(few[k] == id);
                }
            }
            if few.contains(id) {
                let k = choose|k: int| 0 <= k < few.len() && few[k] == id;
                assert(all[k] == id);
            }
            if s.last().0 == id {
                assert(all[all.len() - 1] == id);
            }
        }
    }
}

/// The deleted ids ascend.
pub proof fn lemma_deleted_ids_ascend(s: Seq<(IdModel, Slot)>, i: int, j: int)
    requires
        idmap::ids_ascend(s),
        0 <= i < j < memtable::deleted(s).len(),
    ensures
        document::id_lt(memtable::deleted(s)[i], memtable::deleted(s)[j]),
    decreases s.len(),
{
    let front = s.drop_last();
    let few = memtable::deleted(front);
    idmap::lemma_front_ascends(s);
    if s.last().1 == Slot::Deleted && j == few.len() {
        let x = few[i];
        assert(few.contains(x));
        lemma_deleted_ids(front, x);
        idmap::lemma_lookup_found(front, x);
        let k = choose|k: int|
            0 <= k < front.len() && #[trigger] front[k] == (x, Slot::Deleted);
        assert(document::id_lt(front[k].0, s.last().0));
    } else {
        lemma_deleted_ids_ascend(front, i, j);
    }
}

/// Every write adds to the size that decides when to flush at least what it stores: its vector, its
/// content, and something for its metadata and for itself. A deletion takes nothing away.
pub proof fn lemma_size_grows_with_what_is_stored(
    m: MemModel,
    id: IdModel,
    stored: Seq<u8>,
    inv_norm: u32,
    metadata: Option<Seq<(Seq<char>, ValueModel)>>,
    content: Option<Seq<u8>>,
)
    requires
        m.arena.len() + m.extra + 64 * m.rows.len() + stored.len() + 64 + 32 * (match metadata {
            Some(f) => f.len(),
            None => 0,
        }) + (match content {
            Some(b) => b.len(),
            None => 0,
        }) <= usize::MAX,
    ensures
        m.with(id, stored, inv_norm, metadata, content).size() == m.size() + stored.len() + 64 + 32 * (
        match metadata {
            Some(f) => f.len(),
            None => 0,
        }) + (match content {
            Some(b) => b.len(),
            None => 0,
        }),
        m.without(id).size() == m.size(),
        MemModel::empty(m.dimension, m.dtype).size() == 0,
{
}

} // verus!
