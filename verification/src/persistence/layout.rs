//! Where everything lives below the database root.
//!
//! ```text
//! LOCK
//! MANIFEST-A
//! MANIFEST-B
//! collections/NAME/catalog
//! collections/NAME/segments/NNNNNN.{vec,dir,meta,del}
//! collections/NAME/wal/NNNNNN.wal
//! collections/NAME/index/KIND-NNNNNN.idx
//! ```
use vstd::prelude::*;
use vstd::utf8::*;

use crate::error;
use crate::error::{DbError, ErrorModel, ValidationError, ValidationModel};
use crate::format::header::FileKind;
use crate::format::manifest::Slot;
use crate::path;
use crate::path::DbPath;
use crate::persistence::layout_laws;
use crate::text;

verus! {

/// Which of a segment's four files.
#[derive(Debug, Clone, Copy, PartialEq, Eq, Structural)]
pub enum SegmentFile {
    /// The fixed-stride vectors.
    Vectors,
    /// The row directory.
    Directory,
    /// The metadata and content records.
    Metadata,
    /// The live and dead rows.
    Tombstones,
}

impl SegmentFile {
    /// Every file of a segment.
    pub const ALL: [SegmentFile; 4] = [
        SegmentFile::Vectors,
        SegmentFile::Directory,
        SegmentFile::Metadata,
        SegmentFile::Tombstones,
    ];

    /// The kind that the file's header declares.
    pub open spec fn spec_kind(self) -> FileKind {
        match self {
            SegmentFile::Vectors => FileKind::Vectors,
            SegmentFile::Directory => FileKind::Directory,
            SegmentFile::Metadata => FileKind::Metadata,
            SegmentFile::Tombstones => FileKind::Deleted,
        }
    }

    /// The kind that the file's header declares.
    pub fn kind(self) -> (r: FileKind)
        ensures
            r == self.spec_kind(),
    {
        match self {
            SegmentFile::Vectors => FileKind::Vectors,
            SegmentFile::Directory => FileKind::Directory,
            SegmentFile::Metadata => FileKind::Metadata,
            SegmentFile::Tombstones => FileKind::Deleted,
        }
    }

    /// The end of the file's name.
    pub open spec fn suffix(self) -> Seq<char> {
        match self {
            SegmentFile::Vectors => ".vec"@,
            SegmentFile::Directory => ".dir"@,
            SegmentFile::Metadata => ".meta"@,
            SegmentFile::Tombstones => ".del"@,
        }
    }

    /// The end of the file's name.
    pub fn extension(self) -> (r: &'static str)
        ensures
            r@ == self.suffix(),
    {
        match self {
            SegmentFile::Vectors => ".vec",
            SegmentFile::Directory => ".dir",
            SegmentFile::Metadata => ".meta",
            SegmentFile::Tombstones => ".del",
        }
    }
}

/// The path with a text, or the error for a text that is no path.
pub open spec fn path_of(t: Seq<char>) -> Result<Seq<char>, ErrorModel> {
    match path::path_rejected(encode_utf8(t)) {
        Some(reason) => Err(
            ErrorModel::Validation(ValidationModel::InvalidPath { path: t, reason }),
        ),
        None => Ok(t),
    }
}

/// Whether a result is the path with a text, or the error for it.
pub open spec fn is_path(r: Result<DbPath, DbError>, t: Seq<char>) -> bool {
    match path_of(t) {
        Ok(p) => r matches Ok(q) && q@ == p,
        Err(e) => error::failed(r, e),
    }
}

fn parsed(t: &str) -> (r: Result<DbPath, DbError>)
    ensures
        is_path(r, t@),
{
    match DbPath::parse(t) {
        Ok(p) => Ok(p),
        Err(reason) => Err(
            DbError::Validation(ValidationError::InvalidPath { path: t.to_owned(), reason }),
        ),
    }
}

/// A collection's directory.
pub open spec fn collection_text(name: Seq<char>) -> Seq<char> {
    "collections/"@ + name
}

/// A collection's specification.
pub open spec fn catalog_text(name: Seq<char>) -> Seq<char> {
    collection_text(name) + "/catalog"@
}

/// The directory of a collection's segments.
pub open spec fn segments_text(name: Seq<char>) -> Seq<char> {
    collection_text(name) + "/segments"@
}

/// One file of one segment.
pub open spec fn segment_text(name: Seq<char>, id: u64, which: SegmentFile) -> Seq<char> {
    segments_text(name) + "/"@ + text::padded(id as nat, 6) + which.suffix()
}

/// The directory of a collection's logs.
pub open spec fn wal_dir_text(name: Seq<char>) -> Seq<char> {
    collection_text(name) + "/wal"@
}

/// One log.
pub open spec fn wal_text(name: Seq<char>, number: u64) -> Seq<char> {
    wal_dir_text(name) + "/"@ + text::padded(number as nat, 6) + ".wal"@
}

/// The directory of a collection's index snapshots.
pub open spec fn index_dir_text(name: Seq<char>) -> Seq<char> {
    collection_text(name) + "/index"@
}

/// One index snapshot.
pub open spec fn index_text(name: Seq<char>, kind: Seq<char>, number: u64) -> Seq<char> {
    index_dir_text(name) + "/"@ + kind + "-"@ + text::padded(number as nat, 6) + ".idx"@
}

/// The lock file.
///
/// # Errors
/// None: the name is a path.
pub fn lock() -> (r: Result<DbPath, DbError>)
    ensures
        r matches Ok(p) && p@ == "LOCK"@,
{
    proof {
        layout_laws::lemma_fixed_names_are_paths();
    }
    parsed("LOCK")
}

/// A manifest slot.
///
/// # Errors
/// None: the name is a path.
pub fn manifest(slot: Slot) -> (r: Result<DbPath, DbError>)
    ensures
        r matches Ok(p) && p@ == slot.text(),
{
    proof {
        layout_laws::lemma_fixed_names_are_paths();
    }
    parsed(slot.file_name())
}

/// The directory that holds every collection.
///
/// # Errors
/// None: the name is a path.
pub fn collections_dir() -> (r: Result<DbPath, DbError>)
    ensures
        r matches Ok(p) && p@ == "collections"@,
{
    proof {
        layout_laws::lemma_fixed_names_are_paths();
    }
    parsed("collections")
}

fn collection_prefix(name: &str) -> (r: String)
    ensures
        r@ == collection_text(name@),
{
    let mut t = "collections/".to_owned();
    t.append(name);
    t
}

/// A collection's directory.
///
/// # Errors
/// [`ValidationError::InvalidPath`] if the name cannot be a path component.
pub fn collection_dir(name: &str) -> (r: Result<DbPath, DbError>)
    ensures
        is_path(r, collection_text(name@)),
{
    parsed(collection_prefix(name).as_str())
}

/// A collection's specification.
///
/// # Errors
/// As [`collection_dir`].
pub fn catalog(name: &str) -> (r: Result<DbPath, DbError>)
    ensures
        is_path(r, catalog_text(name@)),
{
    let mut t = collection_prefix(name);
    t.append("/catalog");
    parsed(t.as_str())
}

/// The directory of a collection's segments.
///
/// # Errors
/// As [`collection_dir`].
pub fn segments_dir(name: &str) -> (r: Result<DbPath, DbError>)
    ensures
        is_path(r, segments_text(name@)),
{
    let mut t = collection_prefix(name);
    t.append("/segments");
    parsed(t.as_str())
}

/// One file of one segment.
///
/// # Errors
/// As [`collection_dir`].
pub fn segment_file(name: &str, id: u64, which: SegmentFile) -> (r: Result<DbPath, DbError>)
    ensures
        is_path(r, segment_text(name@, id, which)),
{
    let mut t = collection_prefix(name);
    t.append("/segments");
    t.append("/");
    text::push_padded(&mut t, id, 6);
    t.append(which.extension());
    parsed(t.as_str())
}

/// The directory of a collection's logs.
///
/// # Errors
/// As [`collection_dir`].
pub fn wal_dir(name: &str) -> (r: Result<DbPath, DbError>)
    ensures
        is_path(r, wal_dir_text(name@)),
{
    let mut t = collection_prefix(name);
    t.append("/wal");
    parsed(t.as_str())
}

/// One log.
///
/// # Errors
/// As [`collection_dir`].
pub fn wal_file(name: &str, number: u64) -> (r: Result<DbPath, DbError>)
    ensures
        is_path(r, wal_text(name@, number)),
{
    let mut t = collection_prefix(name);
    t.append("/wal");
    t.append("/");
    text::push_padded(&mut t, number, 6);
    t.append(".wal");
    parsed(t.as_str())
}

/// The directory of a collection's index snapshots.
///
/// # Errors
/// As [`collection_dir`].
pub fn index_dir(name: &str) -> (r: Result<DbPath, DbError>)
    ensures
        is_path(r, index_dir_text(name@)),
{
    let mut t = collection_prefix(name);
    t.append("/index");
    parsed(t.as_str())
}

/// One index snapshot.
///
/// # Errors
/// As [`collection_dir`].
pub fn index_file(name: &str, kind: &str, number: u64) -> (r: Result<DbPath, DbError>)
    ensures
        is_path(r, index_text(name@, kind@, number)),
{
    let mut t = collection_prefix(name);
    t.append("/index");
    t.append("/");
    t.append(kind);
    t.append("-");
    text::push_padded(&mut t, number, 6);
    t.append(".idx");
    parsed(t.as_str())
}

/// Where the first dot of a name stands, or its length where it has none.
pub open spec fn stem_len(name: Seq<u8>) -> nat
    decreases name.len(),
{
    if name.len() == 0 || name[0] == 0x2e {
        0
    } else {
        1 + stem_len(name.skip(1))
    }
}

/// The number that decimal digits stand for.
pub open spec fn digits_value(s: Seq<u8>) -> nat
    decreases s.len(),
{
    if s.len() == 0 {
        0
    } else {
        10 * digits_value(s.drop_last()) + (s.last() - 0x30) as nat
    }
}

/// Whether all of some bytes are decimal digits.
pub open spec fn all_digits(s: Seq<u8>) -> bool {
    forall|i: int| 0 <= i < s.len() ==> 0x30 <= #[trigger] s[i] <= 0x39
}

/// Digits without the plus sign that may stand before them.
pub open spec fn unsigned(s: Seq<u8>) -> Seq<u8> {
    if s.len() > 0 && s[0] == 0x2b {
        s.skip(1)
    } else {
        s
    }
}

/// The segment that a file name belongs to: the number before its first dot.
pub open spec fn segment_named(name: Seq<u8>) -> Option<u64> {
    let n = stem_len(name) as int;
    let digits = unsigned(name.take(n));
    if n < name.len() && digits.len() > 0 && all_digits(digits) && digits_value(digits)
        <= u64::MAX {
        Some(digits_value(digits) as u64)
    } else {
        None
    }
}

/// A number only grows as digits are added.
proof fn lemma_digits_grow(s: Seq<u8>, i: int)
    requires
        0 <= i <= s.len(),
        all_digits(s),
    ensures
        digits_value(s.take(i)) <= digits_value(s),
    decreases s.len(),
{
    if i == s.len() {
        assert(s.take(i) =~= s);
    } else {
        assert(s.drop_last().take(i) =~= s.take(i));
        assert(all_digits(s.drop_last()));
        lemma_digits_grow(s.drop_last(), i);
        assert(0x30 <= s[s.len() - 1]);
    }
}

fn read_digits(s: &[u8], start: usize, end: usize) -> (r: Option<u64>)
    requires
        start <= end <= s@.len(),
    ensures
        ({
            let d = s@.subrange(start as int, end as int);
            r == if d.len() > 0 && all_digits(d) && digits_value(d) <= u64::MAX {
                Some(digits_value(d) as u64)
            } else {
                None
            }
        }),
{
    let ghost d = s@.subrange(start as int, end as int);
    if start == end {
        return None;
    }
    let mut value: u64 = 0;
    let mut i: usize = start;
    assert(d.take(0) =~= Seq::<u8>::empty());
    while i < end
        invariant
            start <= i <= end <= s@.len(),
            d == s@.subrange(start as int, end as int),
            forall|j: int| 0 <= j < i - start ==> 0x30 <= #[trigger] d[j] <= 0x39,
            value == digits_value(d.take(i - start)),
        decreases end - i,
    {
        let b: u8 = s[i];
        assert(d[i - start] == b);
        if b < 0x30 || b > 0x39 {
            return None;
        }
        proof {
            let next = d.take(i + 1 - start);
            assert(next.drop_last() =~= d.take(i - start));
            assert(next.last() == b);
            if all_digits(d) {
                lemma_digits_grow(d, i + 1 - start);
            }
        }
        let digit: u64 = (b - 0x30) as u64;
        value = match value.checked_mul(10) {
            Some(v) => match v.checked_add(digit) {
                Some(w) => w,
                None => {
                    return None;
                },
            },
            None => {
                return None;
            },
        };
        i += 1;
    }
    assert(d.take(end - start) =~= d);
    Some(value)
}

/// The segment that a file name belongs to.
pub fn segment_id_of(name: &str) -> (r: Option<u64>)
    ensures
        r == segment_named(encode_utf8(name@)),
{
    let s = name.as_bytes();
    let mut n: usize = 0;
    assert(s@.skip(0) =~= s@);
    while n < s.len() && s[n] != 0x2e
        invariant
            n <= s@.len(),
            stem_len(s@) == n + stem_len(s@.skip(n as int)),
        decreases s.len() - n,
    {
        assert(s@.skip(n as int).skip(1) =~= s@.skip(n + 1));
        n += 1;
    }
    if n == s.len() {
        return None;
    }
    let start: usize = if n > 0 && s[0] == 0x2b {
        1
    } else {
        0
    };
    proof {
        let stem = s@.take(n as int);
        assert(unsigned(stem) =~= s@.subrange(start as int, n as int));
    }
    read_digits(s, start, n)
}

/// Whether some file name belongs to a segment.
pub open spec fn some_named(names: Seq<String>, id: u64) -> bool {
    exists|i: int| 0 <= i < names.len() && segment_named(encode_utf8((#[trigger] names[i])@)) == Some(id)
}

/// Whether numbers are sorted and none occurs twice.
pub open spec fn ascending(s: Seq<u64>) -> bool {
    forall|i: int, j: int| 0 <= i < j < s.len() ==> #[trigger] s[i] < #[trigger] s[j]
}

/// Add a number to a sorted list, once.
fn add_id(ids: &mut Vec<u64>, id: u64)
    requires
        ascending(old(ids)@),
    ensures
        ascending(final(ids)@),
        forall|x: u64| #[trigger] final(ids)@.contains(x) == (old(ids)@.contains(x) || x == id),
{
    let ghost before = ids@;
    let mut i: usize = 0;
    while i < ids.len() && ids[i] < id
        invariant
            i <= ids@.len(),
            ids@ == before,
            before == old(ids)@,
            forall|j: int| 0 <= j < i ==> #[trigger] before[j] < id,
        decreases ids.len() - i,
    {
        i += 1;
    }
    if i < ids.len() && ids[i] == id {
        assert(before[i as int] == id);
        return ;
    }
    ids.insert(i, id);
    proof {
        let now = before.insert(i as int, id);
        assert forall|a: int, b: int| 0 <= a < b < now.len() implies #[trigger] now[a]
            < #[trigger] now[b] by {
            let x = if a < i { a } else { a - 1 };
            let y = if b < i { b } else { b - 1 };
            if a != i && b != i {
                assert(now[a] == before[x] && now[b] == before[y]);
            } else if a == i {
                assert(now[b] == before[y]);
                if y > i {
                    assert(before[i as int] < before[y]);
                }
            } else {
                assert(now[a] == before[x]);
            }
        }
        assert forall|x: u64| #[trigger] now.contains(x) == (before.contains(x) || x == id) by {
            if now.contains(x) {
                let k = choose|k: int| 0 <= k < now.len() && now[k] == x;
                if k < i {
                    assert(before[k] == x);
                } else if k > i {
                    assert(before[k - 1] == x);
                }
            }
            if before.contains(x) {
                let k = choose|k: int| 0 <= k < before.len() && before[k] == x;
                if k < i {
                    assert(now[k] == x);
                } else {
                    assert(now[k + 1] == x);
                }
            }
            assert(now[i as int] == id);
        }
    }
}

/// Segment ids present among a directory's file names, sorted and deduplicated.
///
/// Recovery compares this against the manifest: ids here but not there are orphans from an
/// interrupted flush and are removed; ids there but not here are missing data and are reported.
pub fn list_segment_ids(names: &Vec<String>) -> (r: Vec<u64>)
    ensures
        ascending(r@),
        forall|id: u64| #[trigger] r@.contains(id) == some_named(names@, id),
{
    let mut ids: Vec<u64> = Vec::new();
    let mut i: usize = 0;
    while i < names.len()
        invariant
            i <= names@.len(),
            ascending(ids@),
            forall|id: u64| #[trigger] ids@.contains(id) == some_named(names@.take(i as int), id),
        decreases names.len() - i,
    {
        let ghost before = ids@;
        let found: Option<u64> = segment_id_of(names[i].as_str());
        if let Some(id) = found {
            add_id(&mut ids, id);
        }
        proof {
            let few = names@.take(i as int);
            let more = names@.take(i + 1);
            assert forall|id: u64| #[trigger] ids@.contains(id) == some_named(more, id) by {
                assert(before.contains(id) == some_named(few, id));
                if some_named(few, id) {
                    let k = choose|k: int|
                        0 <= k < few.len() && segment_named(encode_utf8((#[trigger] few[k])@))
                            == Some(id);
                    assert(more[k] == few[k]);
                }
                if some_named(more, id) {
                    let k = choose|k: int|
                        0 <= k < more.len() && segment_named(encode_utf8((#[trigger] more[k])@))
                            == Some(id);
                    if k < i {
                        assert(few[k] == more[k]);
                    }
                }
                assert(more[i as int] == names@[i as int]);
            }
        }
        i += 1;
    }
    assert(names@.take(i as int) =~= names@);
    ids
}

} // verus!
