//! A segment as something that an index can scan.
use vstd::prelude::*;

use crate::document::RowId;
use crate::error;
use crate::error::convert;
use crate::error::DbError;
use crate::filter::eval;
use crate::filter::{Filter, FilterModel};
use crate::format::segment::vectors;
use crate::format::segment::vectors::VectorBlock;
use crate::index::{LiveSet, RowPredicate, SourceRow, VectorSource};
use crate::path;
use crate::persistence::segment;
use crate::persistence::segment::{SegmentData, SegmentModel};

verus! {

/// The id of a row of the segment with this number.
pub open spec fn row_id(number: u32, row: int) -> RowId {
    RowId((number * 0x1_0000_0000 + row) as u64)
}

/// The rows of a segment that have a vector and a norm.
pub open spec fn segment_rows(m: SegmentModel, number: u32, data: Seq<u8>) -> Seq<SourceRow> {
    let held = data.len() as int / m.stride() as int;
    Seq::new(
        (if held < m.ids.len() {
            held
        } else {
            m.ids.len() as int
        }) as nat,
        |i: int|
            SourceRow {
                row: row_id(number, i),
                bytes: vectors::row_bytes(data, m.stride() as int, i),
                inv_norm: m.entries[i].inv_norm,
            },
    )
}

/// A segment's rows, numbered among the segments of a search.
pub struct SegmentSource<'a> {
    segment: &'a SegmentData,
    block: VectorBlock<'a>,
    number: u32,
    rows: u32,
}

impl<'a> SegmentSource<'a> {
    /// The segment.
    pub closed spec fn spec_segment(self) -> SegmentModel {
        self.segment@
    }

    /// Its number among the segments of a search.
    pub closed spec fn spec_number(self) -> u32 {
        self.number
    }

    /// Its vectors.
    pub closed spec fn spec_data(self) -> Seq<u8> {
        self.block.spec_data()
    }

    #[verifier::type_invariant]
    spec fn sound(self) -> bool {
        &&& self.block.wf()
        &&& self.block.spec_stride() == self.segment@.stride()
        &&& self.segment@.wf()
        &&& self.rows <= self.block.spec_rows()
        &&& self.rows <= self.segment@.ids.len()
        &&& self.rows == segment_rows(self.segment@, self.number, self.block.spec_data()).len()
    }

    /// A segment's rows.
    ///
    /// # Errors
    /// A damage report for a vector file that cannot be read.
    pub fn new(segment: &'a SegmentData, number: u32) -> (r: Result<Self, DbError>)
        ensures
            match vectors::vector_data(segment@.vec_bytes, segment@.stride() as int) {
                Ok(d) => r matches Ok(s) && s.spec_segment() == segment@ && s.spec_number()
                    == number && s.spec_data() == d,
                Err(e) => error::failed(r, convert::reported(e, path::root_text())),
            },
    {
        let block = match segment.vectors() {
            Ok(b) => b,
            Err(e) => {
                return Err(e);
            },
        };
        let held: u32 = block.rows();
        let known: u32 = segment.rows();
        let rows: u32 = if held < known {
            held
        } else {
            known
        };
        Ok(SegmentSource { segment, block, number, rows })
    }
}

impl<'a> VectorSource for SegmentSource<'a> {
    open spec fn rows(&self) -> Seq<SourceRow> {
        segment_rows(self.spec_segment(), self.spec_number(), self.spec_data())
    }

    open spec fn row_dimension(&self) -> u32 {
        self.spec_segment().dimension
    }

    fn dimension(&self) -> (r: u32) {
        self.segment.dimension()
    }

    fn len(&self) -> (r: usize) {
        proof {
            use_type_invariant(self);
        }
        self.rows as usize
    }

    fn row_at(&self, i: usize) -> (r: (RowId, &[u8], u32)) {
        proof {
            use_type_invariant(self);
        }
        let row: u32 = i as u32;
        let bytes: &[u8] = match self.block.row(row) {
            Some(b) => b,
            None => {
                assert(false);
                &[]
            },
        };
        let inv_norm: u32 = match self.segment.inv_norm(row) {
            Some(n) => n,
            None => 0,
        };
        (RowId::new(self.number, row), bytes, inv_norm)
    }

    fn vector(&self, row: RowId) -> (r: Option<(&[u8], u32)>) {
        proof {
            use_type_invariant(self);
        }
        if row.segment() == self.number && row.row() < self.rows {
            let (_, bytes, inv_norm) = self.row_at(row.row() as usize);
            assert(self.rows()[row.0 as int % 0x1_0000_0000].row == row);
            return Some((bytes, inv_norm));
        }
        assert forall|i: int| 0 <= i < self.rows().len() implies (#[trigger] self.rows()[i]).row
            != row by {
            assert(self.rows()[i].row == row_id(self.number, i));
            assert(row_id(self.number, i).0 / 0x1_0000_0000 == self.number);
            assert(row_id(self.number, i).0 % 0x1_0000_0000 == i);
        }
        None
    }
}

impl<'a> LiveSet for SegmentSource<'a> {
    open spec fn live(&self, row: RowId) -> bool {
        row.0 / 0x1_0000_0000 == self.spec_number() && self.spec_segment().live(
            (row.0 % 0x1_0000_0000) as int,
        )
    }

    fn is_live(&self, row: RowId) -> (r: bool) {
        row.segment() == self.number && self.segment.is_live(row.row())
    }
}

/// A metadata filter over the rows of a segment.
pub struct SegmentFilter<'a> {
    segment: &'a SegmentData,
    number: u32,
    filter: &'a Filter,
}

impl<'a> SegmentFilter<'a> {
    /// The segment.
    pub closed spec fn spec_segment(self) -> SegmentModel {
        self.segment@
    }

    /// Its number among the segments of a search.
    pub closed spec fn spec_number(self) -> u32 {
        self.number
    }

    /// What is asked.
    pub closed spec fn spec_filter(self) -> FilterModel {
        self.filter@
    }

    /// A filter over a segment's rows.
    pub fn new(segment: &'a SegmentData, number: u32, filter: &'a Filter) -> (r: Self)
        ensures
            r.spec_segment() == segment@,
            r.spec_number() == number,
            r.spec_filter() == filter@,
    {
        SegmentFilter { segment, number, filter }
    }
}

impl<'a> RowPredicate for SegmentFilter<'a> {
    open spec fn selects(&self, row: RowId) -> bool {
        row.0 / 0x1_0000_0000 == self.spec_number() && match self.spec_segment().record(
            (row.0 % 0x1_0000_0000) as u32,
        ) {
            Ok(r) => eval::satisfied(self.spec_filter(), segment::record_fields(r)),
            Err(_) => false,
        }
    }

    fn matches(&self, row: RowId) -> (r: bool) {
        if row.segment() != self.number {
            return false;
        }
        match self.segment.metadata(row.row()) {
            Ok(m) => eval::matches(self.filter, &m),
            Err(_) => false,
        }
    }
}

} // verus!
