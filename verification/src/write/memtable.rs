//! The in-memory buffer of writes not yet folded into a segment.
//!
//! Everything written goes into the log first and here second. The memtable is what makes a
//! write visible to readers immediately without waiting for a segment flush, and it is what
//! recovery rebuilds by replaying the log.
//!
//! Vectors live in one contiguous arena rather than an allocation per document: a million small
//! allocations would cost more in allocator overhead than the vectors themselves.
//!
//! Overwriting a document leaves its old bytes in the arena as garbage. That is deliberate:
//! reclaiming them would mean either compacting the arena or a free list, for a structure whose
//! whole lifetime ends at the next flush. The wasted space is bounded by the flush threshold.
use vstd::prelude::*;
use vstd::slice::slice_subrange;

use crate::bytes;
use crate::count;
use crate::document;
use crate::document::{DocId, IdModel, RowId};
use crate::error;
use crate::error::DbError;
use crate::format::value::ValueModel;
use crate::idmap;
use crate::idmap::IdMap;
use crate::metadata;
use crate::metadata::Metadata;
use crate::vector;
use crate::vector::{VectorDType, VectorView};

verus! {

/// What the memtable knows about a document.
#[derive(Debug, Clone, Copy, PartialEq, Eq, Structural)]
pub enum Slot {
    /// Present, at this row of the memtable.
    Row(usize),
    /// Deleted here. The tombstone must be kept even if the document was never in the
    /// memtable, because it may exist in a segment underneath.
    Deleted,
}

/// One buffered document.
#[derive(Debug, PartialEq)]
pub struct MemRow {
    /// The document's id.
    pub id: DocId,
    /// Where its vector starts in the arena.
    pub offset: usize,
    /// The bits of its cached reciprocal norm, computed once on write rather than on every
    /// search.
    pub inv_norm: u32,
    /// Its metadata, if any.
    pub metadata: Option<Metadata>,
    /// Its content, if any.
    pub content: Option<Vec<u8>>,
}

/// One buffered document, independent of how it is held in memory.
pub struct RowModel {
    pub id: IdModel,
    pub offset: usize,
    pub inv_norm: u32,
    pub metadata: Option<Seq<(Seq<char>, ValueModel)>>,
    pub content: Option<Seq<u8>>,
}

impl View for MemRow {
    type V = RowModel;

    open spec fn view(&self) -> RowModel {
        RowModel {
            id: self.id@,
            offset: self.offset,
            inv_norm: self.inv_norm,
            metadata: metadata::option_metadata(self.metadata),
            content: bytes::option_bytes(self.content),
        }
    }
}

/// What a lookup found.
#[derive(Debug, Clone, Copy, PartialEq)]
pub enum Lookup<'a> {
    /// The document is present in the memtable.
    Present(&'a MemRow),
    /// The document was deleted here, so any older copy in a segment is shadowed.
    Deleted,
}

/// What a memtable holds.
pub struct MemModel {
    /// Components in every vector.
    pub dimension: u32,
    /// How components are stored.
    pub dtype: VectorDType,
    /// Every vector written, one after the other.
    pub arena: Seq<u8>,
    /// Every version of every document written, in the order they were.
    pub rows: Seq<RowModel>,
    /// What is known of each document, by ascending id.
    pub index: Seq<(IdModel, Slot)>,
    /// The approximate size of metadata and content.
    pub extra: usize,
}

/// How many entries are deletions.
pub open spec fn deletions(index: Seq<(IdModel, Slot)>) -> nat
    decreases index.len(),
{
    if index.len() == 0 {
        0
    } else {
        deletions(index.drop_last()) + if index.last().1 == Slot::Deleted {
            1nat
        } else {
            0nat
        }
    }
}

/// The ids of the entries that are deletions, in order.
pub open spec fn deleted(index: Seq<(IdModel, Slot)>) -> Seq<IdModel>
    decreases index.len(),
{
    if index.len() == 0 {
        Seq::empty()
    } else if index.last().1 == Slot::Deleted {
        deleted(index.drop_last()).push(index.last().0)
    } else {
        deleted(index.drop_last())
    }
}

/// What `metadata` and `content` add to the approximate size.
pub open spec fn weight(
    metadata: Option<Seq<(Seq<char>, ValueModel)>>,
    content: Option<Seq<u8>>,
) -> nat {
    let m: nat = match metadata {
        Some(m) => 32 * m.len(),
        None => 0,
    };
    let c: nat = match content {
        Some(c) => c.len(),
        None => 0,
    };
    m + c
}

impl MemModel {
    /// An empty memtable.
    pub open spec fn empty(dimension: u32, dtype: VectorDType) -> MemModel {
        MemModel {
            dimension,
            dtype,
            arena: Seq::empty(),
            rows: Seq::empty(),
            index: Seq::empty(),
            extra: 0,
        }
    }

    /// Whether row `i` is the current version of its document.
    pub open spec fn current(self, i: int) -> bool {
        idmap::lookup(self.index, self.rows[i].id) == Some(Slot::Row(i as usize))
    }

    /// The current versions among the first `n` rows, in the order they were written.
    pub open spec fn current_below(self, n: nat) -> Seq<RowModel>
        decreases n,
    {
        if n == 0 {
            Seq::empty()
        } else if self.current(n - 1) {
            self.current_below((n - 1) as nat).push(self.rows[n - 1])
        } else {
            self.current_below((n - 1) as nat)
        }
    }

    /// The live rows, in the order they were written.
    pub open spec fn live(self) -> Seq<RowModel> {
        self.current_below(self.rows.len())
    }

    /// What is known of a document.
    pub open spec fn found(self, id: IdModel) -> Option<Slot> {
        idmap::lookup(self.index, id)
    }

    /// The stored vector of a row, where the arena holds it.
    pub open spec fn vector(self, row: RowModel) -> Option<Seq<u8>> {
        let stride = self.dtype.stride(self.dimension);
        if row.offset + stride <= self.arena.len() {
            Some(self.arena.subrange(row.offset as int, row.offset + stride))
        } else {
            None
        }
    }

    /// The memtable once a document is written.
    pub open spec fn with(
        self,
        id: IdModel,
        stored: Seq<u8>,
        inv_norm: u32,
        metadata: Option<Seq<(Seq<char>, ValueModel)>>,
        content: Option<Seq<u8>>,
    ) -> MemModel {
        MemModel {
            arena: self.arena + stored,
            rows: self.rows.push(
                RowModel { id, offset: self.arena.len() as usize, inv_norm, metadata, content },
            ),
            index: idmap::placed(self.index, id, Slot::Row(self.rows.len() as usize)),
            extra: count::capped(self.extra as nat + weight(metadata, content)),
            ..self
        }
    }

    /// The memtable once a document is deleted.
    pub open spec fn without(self, id: IdModel) -> MemModel {
        MemModel { index: idmap::placed(self.index, id, Slot::Deleted), ..self }
    }

    /// The approximate heap footprint.
    pub open spec fn size(self) -> usize {
        count::capped(self.arena.len() + self.extra as nat + 64 * self.rows.len())
    }

    /// Ids ascend, and what the index knows agrees with the rows.
    pub open spec fn wf(self) -> bool {
        &&& idmap::ids_ascend(self.index)
        &&& forall|i: int|
            0 <= i < self.index.len() ==> slot_sound(self.rows, #[trigger] self.index[i])
        &&& forall|i: int|
            0 <= i < self.rows.len() ==> idmap::lookup(
                self.index,
                (#[trigger] self.rows[i]).id,
            ) is Some
        &&& self.live().len() + deletions(self.index) == self.index.len()
    }
}

/// Whether an entry names a row that holds its document, if it names one.
pub open spec fn slot_sound(rows: Seq<RowModel>, e: (IdModel, Slot)) -> bool {
    match e.1 {
        Slot::Row(i) => i < rows.len() && rows[i as int].id == e.0,
        Slot::Deleted => true,
    }
}

/// Rows as they are.
pub open spec fn row_models(rows: Seq<MemRow>) -> Seq<RowModel> {
    rows.map_values(|r: MemRow| r@)
}

/// Borrowed rows as they are.
pub open spec fn ref_models(rows: Seq<&MemRow>) -> Seq<RowModel> {
    rows.map_values(|r: &MemRow| r@)
}

/// Borrowed ids as they are.
pub open spec fn ref_ids(ids: Seq<&DocId>) -> Seq<IdModel> {
    ids.map_values(|id: &DocId| id@)
}

/// A buffer of pending writes for one collection.
#[derive(Debug)]
pub struct Memtable {
    dimension: u32,
    dtype: VectorDType,
    stride: usize,
    arena: Vec<u8>,
    rows: Vec<MemRow>,
    index: IdMap<Slot>,
    tombstones: usize,
    extra: usize,
}

impl View for Memtable {
    type V = MemModel;

    closed spec fn view(&self) -> MemModel {
        MemModel {
            dimension: self.dimension,
            dtype: self.dtype,
            arena: self.arena@,
            rows: row_models(self.rows@),
            index: self.index@,
            extra: self.extra,
        }
    }
}

/// Placing an entry changes the number of deletions by what it replaces and what it is.
pub proof fn lemma_deletions_placed(s: Seq<(IdModel, Slot)>, id: IdModel, v: Slot)
    requires
        idmap::ids_ascend(s),
    ensures
        deletions(idmap::placed(s, id, v)) == deletions(s) + (if v == Slot::Deleted {
            1int
        } else {
            0int
        }) - (if idmap::lookup(s, id) == Some(Slot::Deleted) {
            1int
        } else {
            0int
        }),
    decreases s.len(),
{
    let t = idmap::placed(s, id, v);
    if s.len() == 0 {
        assert(t.drop_last() =~= s);
    } else {
        let front = s.drop_last();
        idmap::lemma_front_ascends(s);
        lemma_deletions_placed(front, id, v);
        idmap::lemma_placed(s, id, v);
        document::lemma_ids_are_ordered(id, s.last().0, id);
        if s.last().0 == id {
            assert(t.drop_last() =~= front);
            idmap::lemma_lookup_found(front, id);
        } else if document::id_lt(id, s.last().0) {
            assert(t.drop_last() =~= idmap::placed(front, id, v));
        } else {
            assert(t.drop_last() =~= s);
            assert(t.len() == s.len() + 1);
        }
    }
}

/// The number of current rows after some document's entry changes: it loses the row that the old
/// entry named.
proof fn lemma_current_changes(a: MemModel, b: MemModel, id: IdModel, n: nat)
    requires
        n <= a.rows.len(),
        n <= b.rows.len(),
        forall|i: int| 0 <= i < n ==> #[trigger] a.rows[i] == b.rows[i],
        forall|x: IdModel|
            x != id ==> #[trigger] idmap::lookup(b.index, x) == idmap::lookup(a.index, x),
        match idmap::lookup(b.index, id) {
            Some(Slot::Row(k)) => k >= n,
            _ => true,
        },
        match idmap::lookup(a.index, id) {
            Some(Slot::Row(k)) => k < a.rows.len() && a.rows[k as int].id == id,
            _ => true,
        },
        a.rows.len() <= usize::MAX,
    ensures
        b.current_below(n).len() == a.current_below(n).len() - (match idmap::lookup(a.index, id) {
            Some(Slot::Row(k)) => if k < n {
                1int
            } else {
                0int
            },
            _ => 0int,
        }),
    decreases n,
{
    if n > 0 {
        lemma_current_changes(a, b, id, (n - 1) as nat);
        assert(a.rows[n - 1] == b.rows[n - 1]);
        let x = a.rows[n - 1].id;
        if x != id {
            assert(idmap::lookup(b.index, x) == idmap::lookup(a.index, x));
        }
    }
}

/// Writing a document keeps a memtable well formed.
pub proof fn lemma_with_wf(
    m: MemModel,
    id: IdModel,
    stored: Seq<u8>,
    inv_norm: u32,
    metadata: Option<Seq<(Seq<char>, ValueModel)>>,
    content: Option<Seq<u8>>,
)
    requires
        m.wf(),
        m.rows.len() < usize::MAX,
    ensures
        m.with(id, stored, inv_norm, metadata, content).wf(),
{
    let n = m.rows.len();
    let b = m.with(id, stored, inv_norm, metadata, content);
    let slot = Slot::Row(n as usize);
    idmap::lemma_placed(m.index, id, slot);
    lemma_deletions_placed(m.index, id, slot);
    assert forall|i: int| 0 <= i < b.index.len() implies slot_sound(
        b.rows,
        #[trigger] b.index[i],
    ) by {
        idmap::lemma_lookup_at(b.index, i);
        if b.index[i].0 != id {
            let k = choose|k: int| 0 <= k < m.index.len() && m.index[k] == b.index[i];
            assert(slot_sound(m.rows, m.index[k]));
        }
    }
    assert forall|i: int| 0 <= i < b.rows.len() implies idmap::lookup(
        b.index,
        (#[trigger] b.rows[i]).id,
    ) is Some by {
        if i < n {
            assert(b.rows[i] == m.rows[i]);
        }
    }
    lemma_slot_of(m, id);
    lemma_current_changes(m, b, id, n);
    assert(b.current(n as int));
}

/// Deleting a document keeps a memtable well formed.
pub proof fn lemma_without_wf(m: MemModel, id: IdModel)
    requires
        m.wf(),
        m.rows.len() <= usize::MAX,
    ensures
        m.without(id).wf(),
{
    let b = m.without(id);
    idmap::lemma_placed(m.index, id, Slot::Deleted);
    lemma_deletions_placed(m.index, id, Slot::Deleted);
    assert forall|i: int| 0 <= i < b.index.len() implies slot_sound(
        b.rows,
        #[trigger] b.index[i],
    ) by {
        idmap::lemma_lookup_at(b.index, i);
        if b.index[i].0 != id {
            let k = choose|k: int| 0 <= k < m.index.len() && m.index[k] == b.index[i];
            assert(slot_sound(m.rows, m.index[k]));
        }
    }
    lemma_slot_of(m, id);
    lemma_current_changes(m, b, id, m.rows.len());
}

/// What is found for a document agrees with the rows.
pub proof fn lemma_slot_of(m: MemModel, id: IdModel)
    requires
        m.wf(),
    ensures
        match m.found(id) {
            Some(Slot::Row(k)) => k < m.rows.len() && m.rows[k as int].id == id,
            _ => true,
        },
{
    idmap::lemma_lookup_found(m.index, id);
    if let Some(s) = m.found(id) {
        let i = choose|i: int| 0 <= i < m.index.len() && #[trigger] m.index[i] == (id, s);
        assert(slot_sound(m.rows, m.index[i]));
    }
}

proof fn lemma_deleted_len(s: Seq<(IdModel, Slot)>)
    ensures
        deleted(s).len() == deletions(s),
        deletions(s) <= s.len(),
    decreases s.len(),
{
    if s.len() > 0 {
        lemma_deleted_len(s.drop_last());
    }
}

impl Memtable {
    #[verifier::type_invariant]
    spec fn consistent(self) -> bool {
        &&& self@.wf()
        &&& self.tombstones == deletions(self@.index)
        &&& self.stride == self.dtype.stride(self.dimension)
        &&& self.rows@.len() <= usize::MAX
    }

    /// An empty memtable for a collection of the given shape.
    pub fn new(dimension: u32, dtype: VectorDType) -> (r: Self)
        ensures
            r@ == MemModel::empty(dimension, dtype),
    {
        let arena: Vec<u8> = Vec::new();
        let rows: Vec<MemRow> = Vec::new();
        let index: IdMap<Slot> = IdMap::new();
        assert(row_models(rows@) =~= Seq::<RowModel>::empty());
        Memtable {
            dimension,
            dtype,
            stride: dtype.row_stride(dimension),
            arena,
            rows,
            index,
            tombstones: 0,
            extra: 0,
        }
    }

    /// Vector dimension.
    pub fn dimension(&self) -> (r: u32)
        ensures
            r == self@.dimension,
    {
        self.dimension
    }

    /// Live documents buffered here. Excludes tombstones and superseded versions.
    pub fn len(&self) -> (r: usize)
        ensures
            r == self@.live().len(),
            self@.wf(),
            self@.fits(),
    {
        assert(self.arena.len() == self.arena@.len());
        assert(self.rows.len() == self.rows@.len());
        proof {
            use_type_invariant(self);
            lemma_deleted_len(self@.index);
        }
        self.index.len() - self.tombstones
    }

    /// Whether nothing at all is buffered, tombstones included.
    pub fn is_empty(&self) -> (r: bool)
        ensures
            r == (self@.index.len() == 0),
    {
        self.index.len() == 0
    }

    /// Tombstones buffered here.
    pub fn tombstones(&self) -> (r: usize)
        ensures
            r == deletions(self@.index),
    {
        proof {
            use_type_invariant(self);
        }
        self.tombstones
    }

    /// Approximate heap footprint, used to decide when to flush.
    ///
    /// Approximate on purpose: an exact figure would mean walking every metadata value on every
    /// write. This tracks the parts that actually dominate and ignores per-entry overhead.
    pub fn byte_size(&self) -> (r: usize)
        ensures
            r == self@.size(),
    {
        let rows: usize = count::times(self.rows.len(), 64);
        self.arena.len().saturating_add(self.extra).saturating_add(rows)
    }

    /// Insert or replace a document from raw stored bytes.
    ///
    /// # Errors
    /// [`crate::error::ValidationError`] if the vector's length does not match the collection's
    /// stride.
    pub fn put_bytes(
        &mut self,
        id: DocId,
        vector: &[u8],
        inv_norm: u32,
        metadata: Option<Metadata>,
        content: Option<Vec<u8>>,
    ) -> (r: Result<RowId, DbError>)
        ensures
            final(self)@.wf(),
            if vector@.len() == old(self)@.dtype.stride(old(self)@.dimension) {
                &&& r matches Ok(row)
                &&& row.0 == u32::MAX * 0x1_0000_0000 + (old(self)@.rows.len() as usize as u32)
                &&& final(self)@ == old(self)@.with(
                    id@,
                    vector@,
                    inv_norm,
                    metadata::option_metadata(metadata),
                    bytes::option_bytes(content),
                )
            } else {
                &&& error::failed(
                    r,
                    vector::wrong_dimension(
                        "<input>"@,
                        old(self)@.dimension,
                        (vector@.len() / 4) as u32,
                    ),
                )
                &&& final(self)@ == old(self)@
            },
    {
        proof {
            use_type_invariant(&*self);
        }
        match VectorView::raw(self.dtype, vector, self.dimension) {
            Ok(view) => self.put_view(id, view, inv_norm, metadata, content),
            Err(e) => Err(e),
        }
    }

    /// Insert or replace a document, `inv_norm` being the bits of the reciprocal of its vector's
    /// norm.
    ///
    /// # Errors
    /// [`crate::error::ValidationError`] on a dimension mismatch.
    pub fn put_view(
        &mut self,
        id: DocId,
        vector: VectorView<'_>,
        inv_norm: u32,
        metadata: Option<Metadata>,
        content: Option<Vec<u8>>,
    ) -> (r: Result<RowId, DbError>)
        ensures
            final(self)@.wf(),
            if vector.spec_dimension() == old(self)@.dimension {
                &&& r matches Ok(row)
                &&& row.0 == u32::MAX * 0x1_0000_0000 + (old(self)@.rows.len() as usize as u32)
                &&& final(self)@ == old(self)@.with(
                    id@,
                    vector.stored(),
                    inv_norm,
                    metadata::option_metadata(metadata),
                    bytes::option_bytes(content),
                )
            } else {
                &&& error::failed(
                    r,
                    vector::wrong_dimension(
                        "<memtable>"@,
                        old(self)@.dimension,
                        vector.spec_dimension(),
                    ),
                )
                &&& final(self)@ == old(self)@
            },
    {
        proof {
            use_type_invariant(&*self);
        }
        match vector.check_dimension("<memtable>", self.dimension) {
            Ok(()) => {},
            Err(e) => {
                return Err(e);
            },
        }
        let ghost before = self@;
        let ghost m = metadata::option_metadata(metadata);
        let ghost c = bytes::option_bytes(content);
        let fields: usize = match &metadata {
            Some(m) => count::times(m.len(), 32),
            None => 0,
        };
        let payload: usize = match &content {
            Some(c) => c.len(),
            None => 0,
        };
        let mut table = Memtable::new(self.dimension, self.dtype);
        std::mem::swap(&mut table, self);
        let ghost k = id@;
        let next = table.put_row(id, vector, inv_norm, metadata, content, fields, payload);
        *self = next.0;
        Ok(RowId::new(u32::MAX, next.1 as u32))
    }

    /// The memtable with one more row, and that row's position.
    fn put_row(
        self,
        id: DocId,
        vector: VectorView<'_>,
        inv_norm: u32,
        metadata: Option<Metadata>,
        content: Option<Vec<u8>>,
        fields: usize,
        payload: usize,
    ) -> (r: (Self, usize))
        requires
            count::capped(fields as nat + payload as nat) == count::capped(
                weight(metadata::option_metadata(metadata), bytes::option_bytes(content)),
            ),
        ensures
            r.1 == self@.rows.len(),
            r.0@ == self@.with(
                id@,
                vector.stored(),
                inv_norm,
                metadata::option_metadata(metadata),
                bytes::option_bytes(content),
            ),
            r.0@.wf(),
    {
        proof {
            use_type_invariant(&self);
        }
        let ghost before = self@;
        let ghost m = metadata::option_metadata(metadata);
        let ghost c = bytes::option_bytes(content);
        let ghost k = id@;
        let Memtable { dimension, dtype, stride, arena, rows, index, tombstones, extra } = self;
        let mut arena = arena;
        let mut rows = rows;
        let mut index = index;
        let offset: usize = arena.len();
        vector.write_bytes(&mut arena);
        let at: usize = rows.len();
        let row = MemRow { id: id.clone(), offset, inv_norm, metadata, content };
        let ghost rm = row@;
        let ghost old_rows = rows@;
        rows.push(row);
        assert(rows.len() > at);
        proof {
            assert(row_models(rows@) =~= row_models(old_rows).push(rm));
            lemma_with_wf(before, k, vector.stored(), inv_norm, m, c);
            lemma_deletions_placed(before.index, k, Slot::Row(at));
            lemma_deleted_len(before.index);
        }
        let was = index.insert(id, Slot::Row(at));
        let tombstones: usize = match was {
            // Re-inserting a deleted document clears its tombstone.
            Some(Slot::Deleted) => tombstones - 1,
            _ => tombstones,
        };
        let extra: usize = extra.saturating_add(fields).saturating_add(payload);
        (Memtable { dimension, dtype, stride, arena, rows, index, tombstones, extra }, at)
    }

    /// Record a deletion.
    ///
    /// Returns whether this changed anything here. It always records a tombstone, even for a
    /// document the memtable has never seen: the document may exist in a segment underneath,
    /// and the tombstone is what shadows it.
    pub fn delete(&mut self, id: DocId) -> (r: bool)
        ensures
            final(self)@ == old(self)@.without(id@),
            final(self)@.wf(),
            r == (old(self)@.found(id@) != Some(Slot::Deleted)),
    {
        let mut table = Memtable::new(self.dimension, self.dtype);
        std::mem::swap(&mut table, self);
        let next = table.delete_row(id);
        *self = next.0;
        next.1
    }

    fn delete_row(self, id: DocId) -> (r: (Self, bool))
        ensures
            r.0@ == self@.without(id@),
            r.0@.wf(),
            r.1 == (self@.found(id@) != Some(Slot::Deleted)),
    {
        proof {
            use_type_invariant(&self);
            lemma_without_wf(self@, id@);
            lemma_deletions_placed(self@.index, id@, Slot::Deleted);
            idmap::lemma_placed(self@.index, id@, Slot::Deleted);
        }
        let ghost before = self@;
        let ghost k = id@;
        let Memtable { dimension, dtype, stride, arena, rows, index, tombstones, extra } = self;
        let mut index = index;
        let was = index.insert(id, Slot::Deleted);
        let changed: bool = match was {
            Some(Slot::Deleted) => false,
            _ => true,
        };
        let most: usize = index.len();
        proof {
            lemma_deleted_len(index@);
        }
        let tombstones: usize = if changed {
            tombstones + 1
        } else {
            tombstones
        };
        (Memtable { dimension, dtype, stride, arena, rows, index, tombstones, extra }, changed)
    }

    /// Look a document up.
    pub fn get(&self, id: &DocId) -> (r: Option<Lookup<'_>>)
        ensures
            self@.wf(),
            match self@.found(id@) {
                None => r is None,
                Some(Slot::Deleted) => r == Some(Lookup::Deleted),
                Some(Slot::Row(i)) => {
                    &&& r matches Some(Lookup::Present(row))
                    &&& i < self@.rows.len()
                    &&& row@ == self@.rows[i as int]
                    &&& row@.id == id@
                },
            },
    {
        proof {
            use_type_invariant(self);
            lemma_slot_of(self@, id@);
        }
        match self.index.get(id) {
            None => None,
            Some(Slot::Deleted) => Some(Lookup::Deleted),
            Some(Slot::Row(i)) => Some(Lookup::Present(&self.rows[i])),
        }
    }

    /// A document's vector bytes.
    pub fn vector_bytes(&self, row: &MemRow) -> (r: Option<&[u8]>)
        ensures
            match self@.vector(row@) {
                Some(b) => r matches Some(v) && v@ == b,
                None => r is None,
            },
    {
        proof {
            use_type_invariant(self);
        }
        assert(self.arena.len() == self.arena@.len());
        match row.offset.checked_add(self.stride) {
            Some(end) => {
                if end > self.arena.len() {
                    return None;
                }
                Some(slice_subrange(self.arena.as_slice(), row.offset, end))
            },
            None => None,
        }
    }

    /// Live rows, in insertion order.
    ///
    /// Insertion order rather than id order, so a flush produces byte-identical segments for
    /// an identical sequence of writes.
    pub fn live_rows(&self) -> (r: Vec<&MemRow>)
        ensures
            ref_models(r@) == self@.live(),
            self@.wf(),
    {
        proof {
            use_type_invariant(self);
        }
        let mut out: Vec<&MemRow> = Vec::new();
        let mut i: usize = 0;
        assert(ref_models(out@) =~= self@.current_below(0));
        while i < self.rows.len()
            invariant
                i <= self.rows@.len(),
                self@.rows.len() == self.rows@.len(),
                self@.index == self.index@,
                self@.rows == row_models(self.rows@),
                ref_models(out@) == self@.current_below(i as nat),
            decreases self.rows.len() - i,
        {
            let ghost before = out@;
            assert(self@.rows[i as int] == self.rows@[i as int]@);
            match self.index.get(&self.rows[i].id) {
                Some(Slot::Row(k)) => {
                    if k == i {
                        out.push(&self.rows[i]);
                        assert(ref_models(out@) =~= ref_models(before).push(self@.rows[i as int]));
                    }
                },
                _ => {},
            }
            i += 1;
        }
        out
    }

    /// Ids deleted here, sorted for determinism.
    pub fn deleted_ids(&self) -> (r: Vec<&DocId>)
        ensures
            ref_ids(r@) == deleted(self@.index),
    {
        let mut out: Vec<&DocId> = Vec::new();
        let mut i: usize = 0;
        let n: usize = self.index.len();
        assert(ref_ids(out@) =~= deleted(self.index@.take(0)));
        while i < n
            invariant
                i <= n,
                n == self.index@.len(),
                ref_ids(out@) == deleted(self.index@.take(i as int)),
            decreases n - i,
        {
            let ghost before = out@;
            proof {
                let next = self.index@.take(i + 1);
                assert(next.drop_last() =~= self.index@.take(i as int));
                assert(next.last() == self.index@[i as int]);
            }
            match self.index.value_at(i) {
                Slot::Deleted => {
                    out.push(self.index.id_at(i));
                    assert(ref_ids(out@) =~= ref_ids(before).push(self.index@[i as int].0));
                },
                Slot::Row(_) => {},
            }
            i += 1;
        }
        assert(self.index@.take(n as int) =~= self.index@);
        out
    }

    /// Discard everything.
    pub fn clear(&mut self)
        ensures
            final(self)@ == MemModel::empty(old(self)@.dimension, old(self)@.dtype),
    {
        *self = Memtable::new(self.dimension, self.dtype);
    }
}

} // verus!
