//! The row directory: where each row's id and metadata stand, and its cached norm.
use vstd::prelude::*;
use vstd::slice::{slice_subrange, slice_to_vec};

use crate::float;
use crate::format::block;
use crate::format::cursor;
use crate::format::cursor::{Cursor, Reader, Writer};
use crate::format::error::{FormatError, MalformedKind};
use crate::format::header::{FileKind, HEADER_LEN};
use crate::format::le;
use crate::format::segment::vectors;

verus! {

/// Bytes per directory entry.
pub const DIR_ENTRY_LEN: usize = 24;

/// Bytes before the first directory entry.
pub const DIR_PREFIX_LEN: usize = 16;

/// One row's directory entry.
#[derive(Debug, Clone, Copy, PartialEq, Eq, Structural)]
pub struct RowEntry {
    /// Offset of this row's record within the `.meta` file.
    pub meta_offset: u64,
    /// Length of that record; zero when the row has neither metadata nor content.
    pub meta_len: u32,
    /// Cached reciprocal of the vector's L2 norm as its bits, so cosine is a dot product and two
    /// multiplies. Zero for a zero-length vector.
    pub inv_norm: u32,
    /// Offset of the id within the directory's id heap.
    pub id_offset: u32,
    /// Length of the id in bytes.
    pub id_len: u16,
    /// Reserved per-row flags.
    pub flags: u16,
}

/// The bytes of an entry.
pub open spec fn row_entry_bytes(e: RowEntry) -> Seq<u8> {
    le::le(e.meta_offset as nat, 8) + le::le(e.meta_len as nat, 4) + le::le(e.inv_norm as nat, 4)
        + le::le(e.id_offset as nat, 4) + le::le(e.id_len as nat, 2) + le::le(e.flags as nat, 2)
}

/// The bytes of an entry table.
pub open spec fn table_bytes(es: Seq<RowEntry>) -> Seq<u8>
    decreases es.len(),
{
    if es.len() == 0 {
        Seq::empty()
    } else {
        table_bytes(es.drop_last()) + row_entry_bytes(es.last())
    }
}

/// The entry that 24 bytes hold. There is none where the cached norm is not finite: it would
/// silently poison every cosine score.
pub open spec fn entry_of(b: Seq<u8>) -> Option<RowEntry> {
    let e = RowEntry {
        meta_offset: le::un_le(b.subrange(0, 8)) as u64,
        meta_len: le::un_le(b.subrange(8, 12)) as u32,
        inv_norm: le::un_le(b.subrange(12, 16)) as u32,
        id_offset: le::un_le(b.subrange(16, 20)) as u32,
        id_len: le::un_le(b.subrange(20, 22)) as u16,
        flags: le::un_le(b.subrange(22, 24)) as u16,
    };
    if float::finite32(e.inv_norm) {
        Some(e)
    } else {
        None
    }
}

/// The payload of a `.dir` file.
pub open spec fn directory_bytes(es: Seq<RowEntry>, heap: Seq<u8>) -> Seq<u8> {
    le::le(es.len(), 4) + le::le(16 + 24 * es.len(), 4) + cursor::zeros(8) + table_bytes(es) + heap
}

/// Builds a `.dir` file.
#[derive(Debug)]
pub struct DirectoryWriter {
    entries: Vec<RowEntry>,
    heap: Vec<u8>,
}

/// Whether entries are sound for a heap of `heap` bytes.
pub open spec fn entries_sound(es: Seq<RowEntry>, heap: int) -> bool {
    forall|i: int|
        0 <= i < es.len() ==> float::finite32((#[trigger] es[i]).inv_norm) && es[i].id_offset
            + es[i].id_len <= heap
}

/// The ids that entries point at in a heap, in order.
pub open spec fn ids_of(es: Seq<RowEntry>, heap: Seq<u8>) -> Seq<Seq<u8>> {
    Seq::new(
        es.len(),
        |i: int| heap.subrange(es[i].id_offset as int, es[i].id_offset + es[i].id_len),
    )
}

impl DirectoryWriter {
    /// Every norm is finite and every id lies in the heap, which holds of a writer from the start
    /// and of whatever is pushed.
    pub open spec fn wf(self) -> bool {
        entries_sound(self.spec_entries(), self.spec_heap().len() as int)
    }

    /// The entries so far.
    pub closed spec fn spec_entries(self) -> Seq<RowEntry> {
        self.entries@
    }

    /// The ids so far, one after the other.
    pub closed spec fn spec_heap(self) -> Seq<u8> {
        self.heap@
    }

    /// An empty directory.
    pub fn new() -> (r: Self)
        ensures
            r.spec_entries() == Seq::<RowEntry>::empty(),
            r.spec_heap() == Seq::<u8>::empty(),
            r.wf(),
    {
        DirectoryWriter { entries: Vec::new(), heap: Vec::new() }
    }

    /// Append a row, returning its index.
    ///
    /// # Errors
    /// [`MalformedKind::Inconsistent`] if the id is longer than `u16::MAX`, the heap would
    /// overflow `u32` or there are too many rows, and [`MalformedKind::NonFiniteFloat`] for a
    /// norm that is a NaN or an infinity. Nothing is appended then.
    pub fn push(&mut self, id: &[u8], meta_offset: u64, meta_len: u32, inv_norm: u32) -> (r: Result<
        u32,
        FormatError,
    >)
        ensures
            ({
                let n = old(self).spec_entries().len();
                let h = old(self).spec_heap().len();
                let refusal = if id@.len() > u16::MAX {
                    Some(vectors::inconsistent(h as u64, "id length"))
                } else if h > u32::MAX {
                    Some(vectors::inconsistent(h as u64, "id heap size"))
                } else if !float::finite32(inv_norm) {
                    Some(
                        FormatError::Malformed { offset: 0, kind: MalformedKind::NonFiniteFloat },
                    )
                } else if n > u32::MAX {
                    Some(vectors::inconsistent(0, "row count"))
                } else {
                    None
                };
                match refusal {
                    Some(e) => r == Err::<u32, FormatError>(e) && *final(self) == *old(self),
                    None => {
                        &&& r == Ok::<u32, FormatError>(n as u32)
                        &&& final(self).spec_heap() == old(self).spec_heap() + id@
                        &&& old(self).wf() ==> final(self).wf() && ids_of(
                            final(self).spec_entries(),
                            final(self).spec_heap(),
                        ) == ids_of(old(self).spec_entries(), old(self).spec_heap()).push(id@)
                        &&& final(self).spec_entries() == old(self).spec_entries().push(
                            RowEntry {
                                meta_offset,
                                meta_len,
                                inv_norm,
                                id_offset: h as u32,
                                id_len: id@.len() as u16,
                                flags: 0,
                            },
                        )
                    },
                }
            }),
    {
        let at: u64 = self.heap.len() as u64;
        if id.len() > u16::MAX as usize {
            return Err(
                FormatError::Malformed {
                    offset: at,
                    kind: MalformedKind::Inconsistent { field: "id length" },
                },
            );
        }
        if at > u32::MAX as u64 {
            return Err(
                FormatError::Malformed {
                    offset: at,
                    kind: MalformedKind::Inconsistent { field: "id heap size" },
                },
            );
        }
        if !float::is_finite32(inv_norm) {
            return Err(FormatError::Malformed { offset: 0, kind: MalformedKind::NonFiniteFloat });
        }
        let index: u64 = self.entries.len() as u64;
        if index > u32::MAX as u64 {
            return Err(
                FormatError::Malformed {
                    offset: 0,
                    kind: MalformedKind::Inconsistent { field: "row count" },
                },
            );
        }
        let id_len: u16 = id.len() as u16;
        let ghost es = self.entries@;
        let ghost heap = self.heap@;
        let mut copy = slice_to_vec(id);
        self.heap.append(&mut copy);
        self.entries.push(
            RowEntry { meta_offset, meta_len, inv_norm, id_offset: at as u32, id_len, flags: 0 },
        );
        assert(self.heap@ =~= heap + id@);
        assert(self.entries@.drop_last() =~= es);
        proof {
            if entries_sound(es, heap.len() as int) {
                lemma_pushed(es, heap, self.entries@.last(), id@);
                assert(es.push(self.entries@.last()) =~= self.entries@);
            }
        }
        Ok(index as u32)
    }

    /// Rows written so far.
    pub fn rows(&self) -> (r: usize)
        ensures
            r == self.spec_entries().len(),
    {
        self.entries.len()
    }

    /// Finish the file. The format counts the entry table's bytes in 32 bits, so the table must
    /// fit.
    pub fn finish(self) -> (r: Vec<u8>)
        requires
            16 + 24 * self.spec_entries().len() <= u32::MAX,
        ensures
            r@ == block::block_bytes(
                FileKind::Directory,
                directory_bytes(self.spec_entries(), self.spec_heap()),
            ),
    {
        let row_count: u32 = self.entries.len() as u32;
        let heap_offset: u32 = 16 + row_count * 24;
        let mut w = Writer::new();
        w.u32(row_count);
        w.u32(heap_offset);
        w.reserved(8);
        let ghost head = w@;
        let mut i: usize = 0;
        assert(head + table_bytes(self.entries@.take(0)) =~= head);
        while i < self.entries.len()
            invariant
                i <= self.entries@.len(),
                w@ == head + table_bytes(self.entries@.take(i as int)),
            decreases self.entries.len() - i,
        {
            let e = self.entries[i];
            let ghost before = w@;
            w.u64(e.meta_offset);
            w.u32(e.meta_len);
            w.u32(e.inv_norm);
            w.u32(e.id_offset);
            w.u16(e.id_len);
            w.u16(e.flags);
            proof {
                let next = self.entries@.take(i + 1);
                assert(next.drop_last() =~= self.entries@.take(i as int));
                assert(w@ =~= before + row_entry_bytes(e));
                assert(w@ =~= head + table_bytes(next));
            }
            i += 1;
        }
        assert(self.entries@.take(i as int) =~= self.entries@);
        w.raw(self.heap.as_slice());
        assert(w@ =~= directory_bytes(self.entries@, self.heap@));
        block::encode_block(FileKind::Directory, w.as_slice())
    }
}

impl Default for DirectoryWriter {
    fn default() -> (r: Self)
        ensures
            r.spec_entries() == Seq::<RowEntry>::empty(),
            r.spec_heap() == Seq::<u8>::empty(),
            r.wf(),
    {
        DirectoryWriter::new()
    }
}

/// An entry for an id that is put behind the ids so far points at that id, and the others keep
/// theirs.
proof fn lemma_pushed(es: Seq<RowEntry>, heap: Seq<u8>, e: RowEntry, id: Seq<u8>)
    requires
        entries_sound(es, heap.len() as int),
        float::finite32(e.inv_norm),
        e.id_offset == heap.len(),
        e.id_len == id.len(),
    ensures
        entries_sound(es.push(e), (heap + id).len() as int),
        ids_of(es.push(e), heap + id) == ids_of(es, heap).push(id),
{
    let now = ids_of(es.push(e), heap + id);
    let before = ids_of(es, heap);
    assert forall|i: int| 0 <= i < now.len() implies #[trigger] now[i] == before.push(id)[i] by {
        if i < es.len() {
            assert(es.push(e)[i] == es[i]);
            assert(now[i] =~= before[i]);
        } else {
            assert(now[i] =~= id);
        }
    }
    assert(now =~= before.push(id));
}

/// The entry at row `i` of a table.
pub open spec fn table_entry(table: Seq<u8>, i: int) -> Option<RowEntry> {
    entry_of(table.subrange(24 * i, 24 * i + 24))
}

/// The id of row `i` of a table, in a heap.
pub open spec fn id_at(table: Seq<u8>, heap: Seq<u8>, i: int) -> Seq<u8> {
    let e = table_entry(table, i)->0;
    heap.subrange(e.id_offset as int, e.id_offset + e.id_len)
}

/// The number of rows that a directory payload declares.
pub open spec fn row_count(p: Seq<u8>) -> int {
    le::un_le(p.subrange(0, 4)) as int
}

/// Whether a payload is a sound directory: a heap that begins right behind the entries, and for
/// every row an entry whose id lies in it.
pub open spec fn is_directory(p: Seq<u8>) -> bool {
    let end = 16 + 24 * row_count(p);
    &&& 16 <= p.len()
    &&& le::un_le(p.subrange(4, 8)) == end
    &&& p.subrange(8, 16) == cursor::zeros(8)
    &&& end <= p.len()
    &&& end <= usize::MAX
    &&& forall|i: int|
        0 <= i < row_count(p) ==> (#[trigger] row_checked(
            p.subrange(16, end),
            p.len() - end,
            i,
        )) is Ok
}

/// Whether row `i` has an entry whose id lies in a heap of `heap` bytes, or what is wrong with it.
pub open spec fn row_checked(table: Seq<u8>, heap: int, i: int) -> Result<(), FormatError> {
    match table_entry(table, i) {
        Some(e) => if e.id_offset + e.id_len > usize::MAX {
            Err(vectors::inconsistent(0, "id range"))
        } else if e.id_offset + e.id_len > heap {
            Err(
                FormatError::LengthExceedsInput {
                    offset: (16 + 24 * i) as u64,
                    claimed: (e.id_offset + e.id_len) as u64,
                    available: heap as u64,
                },
            )
        } else {
            Ok(())
        },
        None => Err(vectors::inconsistent(0, "entry table")),
    }
}

/// Whether the first `n` rows are sound, or what is wrong with the first that is not.
pub open spec fn rows_checked(table: Seq<u8>, heap: int, n: nat) -> Result<(), FormatError>
    decreases n,
{
    if n == 0 {
        Ok(())
    } else {
        match rows_checked(table, heap, (n - 1) as nat) {
            Ok(()) => row_checked(table, heap, n - 1),
            Err(e) => Err(e),
        }
    }
}

/// The entry table and the id heap of a directory payload, or why it is refused.
pub open spec fn parsed_directory(p: Seq<u8>) -> Result<(Seq<u8>, Seq<u8>), FormatError> {
    let c = Cursor { data: p, pos: 0, base: 0 };
    match c.uint(4) {
        Ok((rows, c1)) => match c1.uint(4) {
            Ok((heap_offset, c2)) => match c2.reserved(8) {
                Ok(_) => {
                    let expected = 16 + 24 * rows as int;
                    if expected > usize::MAX {
                        Err(vectors::inconsistent(0, "row count"))
                    } else if heap_offset != expected {
                        Err(vectors::inconsistent(4, "heap_offset"))
                    } else if expected > p.len() {
                        Err(
                            FormatError::LengthExceedsInput {
                                offset: 0,
                                claimed: expected as u64,
                                available: p.len() as u64,
                            },
                        )
                    } else {
                        let table = p.subrange(16, expected);
                        let heap = p.skip(expected);
                        match rows_checked(table, heap.len() as int, rows) {
                            Ok(()) => Ok((table, heap)),
                            Err(e) => Err(e),
                        }
                    }
                },
                Err(e) => Err(e),
            },
            Err(e) => Err(e),
        },
        Err(e) => Err(e),
    }
}

/// The entry table and the id heap of a `.dir` file, or why it is refused.
pub open spec fn opened_directory(b: Seq<u8>) -> Result<(Seq<u8>, Seq<u8>), FormatError> {
    match block::decoded(b, FileKind::Directory) {
        Ok(p) => parsed_directory(p),
        Err(e) => Err(e),
    }
}

proof fn lemma_rows_checked_err(table: Seq<u8>, heap: int, k: nat, n: nat)
    requires
        k <= n,
        rows_checked(table, heap, k) is Err,
    ensures
        rows_checked(table, heap, n) == rows_checked(table, heap, k),
    decreases n,
{
    if k < n {
        lemma_rows_checked_err(table, heap, k, (n - 1) as nat);
    }
}

proof fn lemma_row_checked(table: Seq<u8>, heap: int, n: nat, i: int)
    requires
        0 <= i < n,
        rows_checked(table, heap, n) is Ok,
    ensures
        row_checked(table, heap, i) is Ok,
    decreases n,
{
    if i < n - 1 {
        lemma_row_checked(table, heap, (n - 1) as nat, i);
    }
}

/// Read-only view over a `.dir` file.
#[derive(Debug, Clone, Copy)]
pub struct Directory<'a> {
    entries: &'a [u8],
    heap: &'a [u8],
    rows: u32,
}

impl<'a> Directory<'a> {
    /// The entry table.
    pub closed spec fn spec_table(self) -> Seq<u8> {
        self.entries@
    }

    /// The id heap.
    pub closed spec fn spec_heap(self) -> Seq<u8> {
        self.heap@
    }

    /// How many rows there are.
    pub open spec fn spec_rows(self) -> int {
        self.spec_table().len() as int / 24
    }

    /// Every row has an entry, and every id lies in the heap.
    pub closed spec fn wf(self) -> bool {
        &&& self.entries@.len() == 24 * self.rows
        &&& rows_checked(self.entries@, self.heap@.len() as int, self.rows as nat) is Ok
    }

    /// The id of row `i`.
    pub open spec fn spec_id(self, i: int) -> Seq<u8> {
        id_at(self.spec_table(), self.spec_heap(), i)
    }

    /// Open and fully validate a `.dir` file.
    ///
    /// The directory is small (24 bytes per row), so its checksum *is* verified on open, and
    /// every entry's id range is bounds-checked here. That costs a linear pass once and means
    /// [`Directory::id`] can never fail afterwards, which removes an error path from the hot
    /// read loop.
    ///
    /// # Errors
    /// Any [`FormatError`].
    pub fn open(bytes: &'a [u8]) -> (res: Result<Self, FormatError>)
        ensures
            match opened_directory(bytes@) {
                Ok((table, heap)) => res matches Ok(d) && d.wf() && d.spec_table() == table
                    && d.spec_heap() == heap,
                Err(e) => res == Err::<Self, FormatError>(e),
            },
    {
        let payload = match block::decode_block(bytes, FileKind::Directory) {
            Ok(p) => p,
            Err(e) => {
                return Err(e);
            },
        };
        let mut r = Reader::new(payload);
        let rows: u32 = match r.u32() {
            Ok(v) => v,
            Err(e) => {
                return Err(e);
            },
        };
        let heap_offset: u32 = match r.u32() {
            Ok(v) => v,
            Err(e) => {
                return Err(e);
            },
        };
        match r.reserved(8) {
            Ok(()) => {},
            Err(e) => {
                return Err(e);
            },
        }
        let expected: u64 = DIR_PREFIX_LEN as u64 + rows as u64 * DIR_ENTRY_LEN as u64;
        if expected > usize::MAX as u64 {
            return Err(
                FormatError::Malformed {
                    offset: 0,
                    kind: MalformedKind::Inconsistent { field: "row count" },
                },
            );
        }
        let expected_heap: usize = expected as usize;
        if heap_offset as u64 != expected {
            return Err(
                FormatError::Malformed {
                    offset: 4,
                    kind: MalformedKind::Inconsistent { field: "heap_offset" },
                },
            );
        }
        if expected_heap > payload.len() {
            return Err(
                FormatError::LengthExceedsInput {
                    offset: 0,
                    claimed: expected,
                    available: payload.len() as u64,
                },
            );
        }
        let entries = slice_subrange(payload, DIR_PREFIX_LEN, expected_heap);
        let heap = slice_subrange(payload, expected_heap, payload.len());
        assert(heap@ =~= payload@.skip(expected_heap as int));
        let dir = Directory { entries, heap, rows };
        match dir.check_rows() {
            Ok(()) => Ok(dir),
            Err(e) => Err(e),
        }
    }

    /// Check every row's entry and id range.
    fn check_rows(&self) -> (res: Result<(), FormatError>)
        requires
            self.entries@.len() == 24 * self.rows,
        ensures
            res == rows_checked(self.entries@, self.heap@.len() as int, self.rows as nat),
    {
        let mut i: u32 = 0;
        while i < self.rows
            invariant
                i <= self.rows,
                self.entries@.len() == 24 * self.rows,
                rows_checked(self.entries@, self.heap@.len() as int, i as nat) == Ok::<
                    (),
                    FormatError,
                >(()),
            decreases self.rows - i,
        {
            proof {
                if row_checked(self.entries@, self.heap@.len() as int, i as int) is Err {
                    lemma_rows_checked_err(
                        self.entries@,
                        self.heap@.len() as int,
                        (i + 1) as nat,
                        self.rows as nat,
                    );
                }
            }
            let entry = match self.read_entry(i) {
                Some(e) => e,
                None => {
                    return Err(
                        FormatError::Malformed {
                            offset: 0,
                            kind: MalformedKind::Inconsistent { field: "entry table" },
                        },
                    );
                },
            };
            let end: u64 = entry.id_offset as u64 + entry.id_len as u64;
            if end > usize::MAX as u64 {
                return Err(
                    FormatError::Malformed {
                        offset: 0,
                        kind: MalformedKind::Inconsistent { field: "id range" },
                    },
                );
            }
            if end > self.heap.len() as u64 {
                assert(DIR_ENTRY_LEN == 24 && DIR_PREFIX_LEN == 16);
                assert(0 <= i * 24 <= 24 * u32::MAX) by (nonlinear_arith)
                    requires
                        0 <= i <= u32::MAX,
                ;
                return Err(
                    FormatError::LengthExceedsInput {
                        offset: DIR_PREFIX_LEN as u64 + i as u64 * DIR_ENTRY_LEN as u64,
                        claimed: end,
                        available: self.heap.len() as u64,
                    },
                );
            }
            i += 1;
        }
        Ok(())
    }

    /// The entry of a row that the table has room for.
    fn read_entry(&self, index: u32) -> (res: Option<RowEntry>)
        requires
            self.entries@.len() == 24 * self.rows,
            index < self.rows,
        ensures
            res == table_entry(self.entries@, index as int),
    {
        assert(self.entries.len() == self.entries@.len());
        let start: usize = index as usize * DIR_ENTRY_LEN;
        let b = slice_subrange(self.entries, start, start + DIR_ENTRY_LEN);
        let e = RowEntry {
            meta_offset: field(b, 0, 8),
            meta_len: field(b, 8, 12) as u32,
            inv_norm: field(b, 12, 16) as u32,
            id_offset: field(b, 16, 20) as u32,
            id_len: field(b, 20, 22) as u16,
            flags: field(b, 22, 24) as u16,
        };
        if float::is_finite32(e.inv_norm) {
            Some(e)
        } else {
            None
        }
    }

    /// Rows in the directory.
    pub fn rows(&self) -> (r: u32)
        requires
            self.wf(),
        ensures
            r == self.spec_rows(),
    {
        self.rows
    }

    /// Whether the directory holds no rows.
    pub fn is_empty(&self) -> (r: bool)
        requires
            self.wf(),
        ensures
            r == (self.spec_rows() == 0),
    {
        self.rows == 0
    }

    /// One row's entry, or `None` if the index is out of range.
    pub fn entry(&self, index: u32) -> (r: Option<RowEntry>)
        requires
            self.wf(),
        ensures
            if index < self.spec_rows() {
                r is Some && r == table_entry(self.spec_table(), index as int)
            } else {
                r is None
            },
    {
        if index >= self.rows {
            return None;
        }
        proof {
            lemma_row_checked(
                self.entries@,
                self.heap@.len() as int,
                self.rows as nat,
                index as int,
            );
        }
        self.read_entry(index)
    }

    /// One row's id. Always succeeds for an in-range index, because [`Directory::open`]
    /// validated every range.
    pub fn id(&self, index: u32) -> (r: Option<&'a [u8]>)
        requires
            self.wf(),
        ensures
            if index < self.spec_rows() {
                r matches Some(b) && b@ == self.spec_id(index as int)
            } else {
                r is None
            },
    {
        match self.entry(index) {
            Some(e) => {
                proof {
                    lemma_row_checked(
                        self.entries@,
                        self.heap@.len() as int,
                        self.rows as nat,
                        index as int,
                    );
                    assert(self.heap.len() == self.heap@.len());
                }
                let start: usize = e.id_offset as usize;
                Some(slice_subrange(self.heap, start, start + e.id_len as usize))
            },
            None => None,
        }
    }
}

/// The unsigned field between two positions.
fn field(b: &[u8], from: usize, to: usize) -> (r: u64)
    requires
        from <= to <= b@.len(),
        to - from <= 8,
    ensures
        r == le::un_le(b@.subrange(from as int, to as int)),
        to - from == 4 ==> r <= u32::MAX,
        to - from == 2 ==> r <= u16::MAX,
{
    let s = slice_subrange(b, from, to);
    proof {
        le::lemma_le_of_un_le(s@);
        le::lemma_pow256_values();
    }
    le::read_le(s)
}

proof fn lemma_entry_round_trip(e: RowEntry)
    requires
        float::finite32(e.inv_norm),
    ensures
        row_entry_bytes(e).len() == 24,
        entry_of(row_entry_bytes(e)) == Some(e),
{
    let b = row_entry_bytes(e);
    le::lemma_le_fixed(e.meta_offset as nat);
    le::lemma_le_fixed(e.meta_len as nat);
    le::lemma_le_fixed(e.inv_norm as nat);
    le::lemma_le_fixed(e.id_offset as nat);
    le::lemma_le_fixed(e.id_len as nat);
    le::lemma_le_fixed(e.flags as nat);
    assert(b.subrange(0, 8) =~= le::le(e.meta_offset as nat, 8));
    assert(b.subrange(8, 12) =~= le::le(e.meta_len as nat, 4));
    assert(b.subrange(12, 16) =~= le::le(e.inv_norm as nat, 4));
    assert(b.subrange(16, 20) =~= le::le(e.id_offset as nat, 4));
    assert(b.subrange(20, 22) =~= le::le(e.id_len as nat, 2));
    assert(b.subrange(22, 24) =~= le::le(e.flags as nat, 2));
}

proof fn lemma_table_entry(es: Seq<RowEntry>, heap: int, i: int)
    requires
        0 <= i < es.len(),
        entries_sound(es, heap),
    ensures
        table_bytes(es).len() == 24 * es.len(),
        table_entry(table_bytes(es), i) == Some(es[i]),
    decreases es.len(),
{
    let front = es.drop_last();
    let all = table_bytes(es);
    lemma_entry_round_trip(es.last());
    assert(es.last() == es[es.len() - 1]);
    assert(entries_sound(front, heap)) by {
        assert forall|j: int| 0 <= j < front.len() implies float::finite32(
            (#[trigger] front[j]).inv_norm,
        ) && front[j].id_offset + front[j].id_len <= heap by {
            assert(front[j] == es[j]);
        }
    }
    if front.len() > 0 {
        lemma_table_entry(front, heap, if i < front.len() {
            i
        } else {
            0
        });
    }
    if i < front.len() {
        assert(all.subrange(24 * i, 24 * i + 24) =~= table_bytes(front).subrange(
            24 * i,
            24 * i + 24,
        ));
    } else {
        assert(all.subrange(24 * i, 24 * i + 24) =~= row_entry_bytes(es.last()));
    }
}

proof fn lemma_rows_sound(es: Seq<RowEntry>, heap: int, n: nat)
    requires
        n <= es.len(),
        entries_sound(es, heap),
        heap <= usize::MAX,
    ensures
        rows_checked(table_bytes(es), heap, n) is Ok,
    decreases n,
{
    if n > 0 {
        lemma_rows_sound(es, heap, (n - 1) as nat);
        lemma_table_entry(es, heap, n - 1);
        assert(es[n - 1].id_offset + es[n - 1].id_len <= heap);
    }
}

/// What a `.dir` file was written from is what opening it gives: every entry, and every id.
pub proof fn lemma_directory_round_trip(es: Seq<RowEntry>, heap: Seq<u8>)
    requires
        entries_sound(es, heap.len() as int),
        16 + 24 * es.len() <= u32::MAX,
        directory_bytes(es, heap).len() + HEADER_LEN + block::TRAILER_LEN <= usize::MAX,
    ensures
        opened_directory(block::block_bytes(FileKind::Directory, directory_bytes(es, heap)))
            == Ok::<(Seq<u8>, Seq<u8>), FormatError>((table_bytes(es), heap)),
        table_bytes(es).len() == 24 * es.len(),
        forall|i: int|
            0 <= i < es.len() ==> #[trigger] table_entry(table_bytes(es), i) == Some(es[i]),
        forall|i: int|
            0 <= i < es.len() ==> #[trigger] id_at(table_bytes(es), heap, i) == ids_of(
                es,
                heap,
            )[i],
{
    let p = directory_bytes(es, heap);
    let b = block::block_bytes(FileKind::Directory, p);
    block::lemma_block_round_trip(FileKind::Directory, p, Seq::empty());
    assert(b + Seq::<u8>::empty() =~= b);
    lemma_payload_round_trip(es, heap);
    assert forall|i: int| 0 <= i < es.len() implies #[trigger] table_entry(table_bytes(es), i)
        == Some(es[i]) by {
        lemma_table_entry(es, heap.len() as int, i);
    }
    assert forall|i: int| 0 <= i < es.len() implies #[trigger] id_at(table_bytes(es), heap, i)
        == ids_of(es, heap)[i] by {
        assert(table_entry(table_bytes(es), i) == Some(es[i]));
    }
}

proof fn lemma_payload_round_trip(es: Seq<RowEntry>, heap: Seq<u8>)
    requires
        entries_sound(es, heap.len() as int),
        16 + 24 * es.len() <= u32::MAX,
        directory_bytes(es, heap).len() <= usize::MAX,
    ensures
        parsed_directory(directory_bytes(es, heap)) == Ok::<(Seq<u8>, Seq<u8>), FormatError>(
            (table_bytes(es), heap),
        ),
        table_bytes(es).len() == 24 * es.len(),
{
    let p = directory_bytes(es, heap);
    let c = Cursor { data: p, pos: 0, base: 0 };
    le::lemma_pow256_values();
    le::lemma_le_fixed(es.len());
    le::lemma_le_fixed(16 + 24 * es.len());
    assert(p.subrange(0, 4) =~= le::le(es.len(), 4));
    cursor::lemma_uint(c, es.len(), 4);
    assert(p.subrange(4, 8) =~= le::le(16 + 24 * es.len(), 4));
    cursor::lemma_uint(c.advance(4), 16 + 24 * es.len(), 4);
    assert(p.subrange(8, 16) =~= cursor::zeros(8));
    if es.len() > 0 {
        lemma_table_entry(es, heap.len() as int, 0);
    }
    assert(p.subrange(16, 16 + 24 * es.len() as int) =~= table_bytes(es));
    assert(p.skip(16 + 24 * es.len() as int) =~= heap);
    lemma_rows_sound(es, heap.len() as int, es.len());
}

/// A `.dir` file opens just where its checksum matches, its heap begins right behind its entries,
/// and every row has an entry whose id lies in the heap. What it opens to is then the entry table
/// and the heap.
pub proof fn lemma_directory_opens_where_sound(b: Seq<u8>)
    ensures
        opened_directory(b) is Ok <==> {
            &&& block::decoded(b, FileKind::Directory) matches Ok(p)
            &&& is_directory(p)
        },
        opened_directory(b) is Ok ==> {
            let p = block::decoded(b, FileKind::Directory)->Ok_0;
            let end = 16 + 24 * row_count(p);
            &&& opened_directory(b)->Ok_0 == (p.subrange(16, end), p.skip(end))
            &&& p.subrange(16, end).len() == 24 * row_count(p)
        },
{
    if let Ok(p) = block::decoded(b, FileKind::Directory) {
        let c = Cursor { data: p, pos: 0, base: 0 };
        let end = 16 + 24 * row_count(p);
        if p.len() >= 16 && end <= p.len() {
            lemma_rows_checked_each(
                p.subrange(16, end),
                p.skip(end).len() as int,
                row_count(p) as nat,
            );
        }
    }
}

proof fn lemma_rows_checked_each(table: Seq<u8>, heap: int, n: nat)
    ensures
        rows_checked(table, heap, n) is Ok <==> (forall|i: int|
            0 <= i < n ==> (#[trigger] row_checked(table, heap, i)) is Ok),
    decreases n,
{
    if n > 0 {
        lemma_rows_checked_each(table, heap, (n - 1) as nat);
        if rows_checked(table, heap, n) is Ok {
            assert forall|i: int| 0 <= i < n implies (#[trigger] row_checked(table, heap, i)) is Ok by {
                if i == n - 1 {
                    assert(row_checked(table, heap, n - 1) is Ok);
                }
            }
        } else if forall|i: int| 0 <= i < n ==> (#[trigger] row_checked(table, heap, i)) is Ok {
            assert(row_checked(table, heap, n - 1) is Ok);
        }
    }
}

} // verus!
