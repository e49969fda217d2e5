//! The memtable as something that an index can scan.
use vstd::prelude::*;

use crate::document::RowId;
use crate::filter::eval;
use crate::filter::{Filter, FilterModel};
use crate::format::value::ValueModel;
use crate::index::{RowPredicate, SourceRow, VectorSource};
use crate::metadata;
use crate::metadata::Metadata;
use crate::persistence::source;
use crate::write::memtable;
use crate::write::memtable::{MemModel, MemRow, Memtable, RowModel};

verus! {

/// The segment number of rows that are in no segment yet.
pub const BUFFERED: u32 = 4_294_967_295;

/// The live rows of a memtable, in the order they were written.
pub open spec fn buffered_rows(m: MemModel) -> Seq<SourceRow> {
    Seq::new(
        m.live().len(),
        |i: int|
            SourceRow {
                row: source::row_id(BUFFERED, i),
                bytes: match m.vector(m.live()[i]) {
                    Some(b) => b,
                    None => Seq::empty(),
                },
                inv_norm: m.live()[i].inv_norm,
            },
    )
}

/// The fields of a buffered document's metadata. A document without metadata has none.
pub open spec fn buffered_fields(row: RowModel) -> Seq<(Seq<char>, ValueModel)> {
    match row.metadata {
        Some(m) => m,
        None => Seq::empty(),
    }
}

/// A memtable's live rows.
pub struct BufferedSource<'a> {
    table: &'a Memtable,
    rows: Vec<&'a MemRow>,
}

impl<'a> BufferedSource<'a> {
    /// The memtable.
    pub closed spec fn spec_table(self) -> MemModel {
        self.table@
    }

    #[verifier::type_invariant]
    spec fn sound(self) -> bool {
        &&& memtable::ref_models(self.rows@) == self.table@.live()
        &&& self.rows@.len() <= u32::MAX
    }

    /// The live rows of a memtable.
    pub fn new(table: &'a Memtable) -> (r: Self)
        requires
            table@.live().len() <= u32::MAX,
        ensures
            r.spec_table() == table@,
    {
        let rows = table.live_rows();
        assert(rows@.len() == memtable::ref_models(rows@).len());
        BufferedSource { table, rows }
    }

    /// The document in live row number `i`.
    pub fn document(&self, i: usize) -> (r: &MemRow)
        requires
            i < self.spec_table().live().len(),
        ensures
            r@ == self.spec_table().live()[i as int],
    {
        proof {
            use_type_invariant(self);
            assert(memtable::ref_models(self.rows@)[i as int] == self.rows@[i as int]@);
        }
        self.rows[i]
    }
}

impl<'a> VectorSource for BufferedSource<'a> {
    open spec fn rows(&self) -> Seq<SourceRow> {
        buffered_rows(self.spec_table())
    }

    open spec fn row_dimension(&self) -> u32 {
        self.spec_table().dimension
    }

    fn dimension(&self) -> (r: u32) {
        self.table.dimension()
    }

    fn len(&self) -> (r: usize) {
        proof {
            use_type_invariant(self);
            assert(memtable::ref_models(self.rows@).len() == self.rows@.len());
        }
        self.rows.len()
    }

    fn row_at(&self, i: usize) -> (r: (RowId, &[u8], u32)) {
        proof {
            use_type_invariant(self);
            assert(memtable::ref_models(self.rows@)[i as int] == self.rows@[i as int]@);
        }
        let bytes: &[u8] = match self.table.vector_bytes(self.rows[i]) {
            Some(b) => b,
            None => {
                assert(Seq::<u8>::empty() =~= (&[])@);
                &[]
            },
        };
        (RowId::new(BUFFERED, i as u32), bytes, self.rows[i].inv_norm)
    }

    fn vector(&self, row: RowId) -> (r: Option<(&[u8], u32)>) {
        proof {
            use_type_invariant(self);
        }
        if row.segment() == BUFFERED && (row.row() as usize) < self.len() {
            let (_, bytes, inv_norm) = self.row_at(row.row() as usize);
            assert(self.rows()[row.0 as int % 0x1_0000_0000].row == row);
            return Some((bytes, inv_norm));
        }
        assert forall|i: int| 0 <= i < self.rows().len() implies (#[trigger] self.rows()[i]).row
            != row by {
            assert(self.rows()[i].row == source::row_id(BUFFERED, i));
            assert(source::row_id(BUFFERED, i).0 / 0x1_0000_0000 == BUFFERED);
            assert(source::row_id(BUFFERED, i).0 % 0x1_0000_0000 == i);
        }
        None
    }
}

/// A metadata filter over the live rows of a memtable.
pub struct BufferedFilter<'a, 'b> {
    source: &'b BufferedSource<'a>,
    filter: &'b Filter,
}

impl<'a, 'b> BufferedFilter<'a, 'b> {
    /// The memtable.
    pub closed spec fn spec_table(self) -> MemModel {
        self.source.spec_table()
    }

    /// What is asked.
    pub closed spec fn spec_filter(self) -> FilterModel {
        self.filter@
    }

    /// A filter over a memtable's live rows.
    pub fn new(source: &'b BufferedSource<'a>, filter: &'b Filter) -> (r: Self)
        ensures
            r.spec_table() == source.spec_table(),
            r.spec_filter() == filter@,
    {
        BufferedFilter { source, filter }
    }
}

impl<'a, 'b> RowPredicate for BufferedFilter<'a, 'b> {
    open spec fn selects(&self, row: RowId) -> bool {
        &&& row.0 / 0x1_0000_0000 == BUFFERED
        &&& row.0 % 0x1_0000_0000 < self.spec_table().live().len()
        &&& eval::satisfied(
            self.spec_filter(),
            buffered_fields(self.spec_table().live()[(row.0 % 0x1_0000_0000) as int]),
        )
    }

    fn matches(&self, row: RowId) -> (r: bool) {
        if row.segment() != BUFFERED || row.row() as usize >= self.source.len() {
            return false;
        }
        let held: &MemRow = self.source.document(row.row() as usize);
        assert(held@.metadata == metadata::option_metadata(held.metadata));
        match &held.metadata {
            Some(m) => eval::matches(self.filter, m),
            None => {
                let none = Metadata::new();
                assert(none@ =~= Seq::empty());
                eval::matches(self.filter, &none)
            },
        }
    }
}

} // verus!
