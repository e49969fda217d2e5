//! What holds of the paths that a collection's name makes.
use vstd::prelude::*;
use vstd::utf8::*;

use crate::api::config::SpecModel;
use crate::document;
use crate::document::IdModel;
use crate::error::ErrorModel;
use crate::format::catalog::CatalogModel;
use crate::format::le;
use crate::format::manifest::Slot;
use crate::format::varint;
use crate::path;
use crate::path::MAX_COMPONENT_LEN;
use crate::persistence::catalog;
use crate::persistence::flush_laws;
use crate::persistence::layout;
use crate::persistence::layout::SegmentFile;
use crate::persistence::segment;
use crate::text;
use crate::validation;

verus! {

/// Whether bytes make a component that every path may hold.
spec fn plain(c: Seq<u8>) -> bool {
    &&& 0 < c.len() <= MAX_COMPONENT_LEN
    &&& c[0] != 0x2e
    &&& forall|i: int| 0 <= i < c.len() ==> #[trigger] c[i] != 0x2f && c[i] != 0x5c && c[i] != 0
}

/// Whether text is made of characters that a component may hold, none of them a dot at its front.
pub open spec fn plain_text(t: Seq<char>) -> bool {
    &&& is_ascii_chars(t)
    &&& 0 < t.len() <= MAX_COMPONENT_LEN
    &&& t[0] != '.'
    &&& forall|i: int| 0 <= i < t.len() ==> #[trigger] t[i] != '/' && t[i] != '\\' && t[i] != '\0'
}

proof fn lemma_plain_text(t: Seq<char>)
    requires
        plain_text(t),
    ensures
        plain(encode_utf8(t)),
{
    is_ascii_chars_encode_utf8(t);
    let b = encode_utf8(t);
    assert(t[0] as u8 == b[0]);
    assert forall|i: int| 0 <= i < b.len() implies #[trigger] b[i] != 0x2f && b[i] != 0x5c && b[i]
        != 0 by {
        assert(t[i] as u8 == b[i]);
    }
}

/// Text is encoded part by part.
pub proof fn lemma_encode_joined(a: Seq<char>, b: Seq<char>)
    ensures
        encode_utf8(a + b) == encode_utf8(a) + encode_utf8(b),
    decreases a.len(),
{
    if a.len() == 0 {
        assert(a + b =~= b);
        assert(encode_utf8(a) + encode_utf8(b) =~= encode_utf8(b));
    } else {
        lemma_encode_joined(a.drop_first(), b);
        assert((a + b).drop_first() =~= a.drop_first() + b);
        assert(encode_utf8(a) + encode_utf8(b) =~= encode_scalar(a[0] as u32) + (encode_utf8(
            a.drop_first(),
        ) + encode_utf8(b)));
    }
}

proof fn lemma_slash()
    ensures
        encode_utf8("/"@) == seq![0x2fu8],
{
    reveal_strlit("/");
    assert(is_ascii_chars("/"@));
    is_ascii_chars_encode_utf8("/"@);
    assert("/"@[0] as u8 == encode_utf8("/"@)[0]);
    assert(encode_utf8("/"@) =~= seq![0x2fu8]);
}

/// The first component of a path ends at its first slash, or with the path.
proof fn lemma_component_len(c: Seq<u8>, rest: Seq<u8>)
    requires
        forall|i: int| 0 <= i < c.len() ==> #[trigger] c[i] != 0x2f,
        rest.len() == 0 || rest[0] == 0x2f,
    ensures
        path::component_len(c + rest) == c.len(),
    decreases c.len(),
{
    if c.len() == 0 {
        assert(c + rest =~= rest);
    } else {
        let p = c + rest;
        assert(p[0] == c[0]);
        assert(p.skip(1) =~= c.skip(1) + rest);
        assert forall|i: int| 0 <= i < c.skip(1).len() implies #[trigger] c.skip(1)[i] != 0x2f by {
            assert(c.skip(1)[i] == c[i + 1]);
        }
        lemma_component_len(c.skip(1), rest);
    }
}

proof fn lemma_plain_component(c: Seq<u8>)
    requires
        plain(c),
    ensures
        path::component_rejected(c) is None,
        path::path_rejected(c) is None,
{
    assert(!(c =~= seq![0x2eu8]));
    assert(!(c =~= seq![0x2eu8, 0x2eu8]));
    lemma_component_len(c, Seq::empty());
    assert(c + Seq::<u8>::empty() =~= c);
    assert(c.take(c.len() as int) =~= c);
}

/// A path is as good as what follows its first component, where that one is plain.
proof fn lemma_below(c: Seq<char>, rest: Seq<char>)
    requires
        plain(encode_utf8(c)),
    ensures
        path::path_rejected(encode_utf8(c + "/"@ + rest)) == path::path_rejected(
            encode_utf8(rest),
        ),
{
    lemma_slash();
    lemma_encode_joined(c, "/"@);
    lemma_encode_joined(c + "/"@, rest);
    let b = encode_utf8(c);
    let behind = seq![0x2fu8] + encode_utf8(rest);
    let p = encode_utf8(c + "/"@ + rest);
    assert(p =~= b + behind);
    lemma_component_len(b, behind);
    lemma_plain_component(b);
    assert(p.take(b.len() as int) =~= b);
    assert(p.skip(b.len() as int + 1) =~= encode_utf8(rest));
}

/// Digits are plain, and a number has no more of them than it needs.
spec fn digits(t: Seq<char>) -> bool {
    forall|i: int| 0 <= i < t.len() ==> '0' <= #[trigger] t[i] <= '9'
}

proof fn lemma_digit(d: nat)
    requires
        d < 10,
    ensures
        digits(text::digit_text(d)),
        text::digit_text(d).len() == 1,
{
    reveal_strlit("0");
    reveal_strlit("1");
    reveal_strlit("2");
    reveal_strlit("3");
    reveal_strlit("4");
    reveal_strlit("5");
    reveal_strlit("6");
    reveal_strlit("7");
    reveal_strlit("8");
    reveal_strlit("9");
}

spec fn power(k: nat) -> nat
    decreases k,
{
    if k == 0 {
        1
    } else {
        10 * power((k - 1) as nat)
    }
}

proof fn lemma_decimal(n: nat, k: nat)
    requires
        n < power(k),
        k > 0,
    ensures
        digits(text::decimal(n)),
        0 < text::decimal(n).len() <= k,
    decreases k,
{
    lemma_digit(n % 10);
    if n >= 10 {
        assert(k > 1) by {
            if k == 1 {
                reveal_with_fuel(power, 2);
            }
        }
        lemma_decimal(n / 10, (k - 1) as nat);
    }
}

proof fn lemma_padded(n: nat, w: nat, k: nat)
    requires
        n < power(k),
        k > 0,
    ensures
        digits(text::padded(n, w)),
        0 < text::padded(n, w).len() <= k + w,
    decreases w,
{
    if w <= 1 {
        lemma_decimal(n, k);
    } else {
        lemma_digit(n % 10);
        lemma_padded(n / 10, (w - 1) as nat, k);
    }
}

/// A file named by a number and an extension is plain.
proof fn lemma_numbered(number: u64, end: Seq<char>)
    requires
        is_ascii_chars(end),
        end.len() <= 8,
        forall|i: int|
            0 <= i < end.len() ==> #[trigger] end[i] != '/' && end[i] != '\\' && end[i] != '\0',
    ensures
        plain(encode_utf8(text::padded(number as nat, 6) + end)),
{
    reveal_with_fuel(power, 21);
    lemma_padded(number as nat, 6, 20);
    let t = text::padded(number as nat, 6) + end;
    assert forall|i: int| 0 <= i < t.len() implies '\0' <= #[trigger] t[i] <= '\u{7f}' && t[i]
        != '/' && t[i] != '\\' && t[i] != '\0' by {
        if i < text::padded(number as nat, 6).len() {
            assert(t[i] == text::padded(number as nat, 6)[i]);
        } else {
            assert(t[i] == end[i - text::padded(number as nat, 6).len()]);
        }
    }
    lemma_plain_text(t);
}

proof fn lemma_suffix(which: SegmentFile)
    ensures
        is_ascii_chars(which.suffix()),
        which.suffix().len() <= 8,
        forall|i: int|
            0 <= i < which.suffix().len() ==> #[trigger] which.suffix()[i] != '/'
                && which.suffix()[i] != '\\' && which.suffix()[i] != '\0',
{
    reveal_strlit(".vec");
    reveal_strlit(".dir");
    reveal_strlit(".meta");
    reveal_strlit(".del");
}

/// A name that is not refused is a plain component.
proof fn lemma_name(name: Seq<char>)
    requires
        validation::name_rejected(encode_utf8(name)) is None,
    ensures
        plain(encode_utf8(name)),
{
    let b = encode_utf8(name);
    assert forall|i: int| 0 <= i < b.len() implies #[trigger] b[i] != 0x2f && b[i] != 0x5c && b[i]
        != 0 by {
        assert(validation::name_byte(b[i]));
    }
    assert(validation::name_byte(b[0]));
}

/// What lies below a collection's directory is as good a path as its own name.
proof fn lemma_in_collection(name: Seq<char>, rest: Seq<char>)
    requires
        validation::name_rejected(encode_utf8(name)) is None,
    ensures
        path::path_rejected(encode_utf8(layout::collection_text(name))) is None,
        path::path_rejected(encode_utf8(layout::collection_text(name) + "/"@ + rest))
            == path::path_rejected(encode_utf8(rest)),
{
    reveal_strlit("collections/");
    reveal_strlit("collections");
    reveal_strlit("/");
    lemma_plain_text("collections"@);
    lemma_name(name);
    assert("collections/"@ =~= "collections"@ + "/"@);
    lemma_below("collections"@, name);
    lemma_plain_component(encode_utf8(name));
    let tail = name + "/"@ + rest;
    assert(layout::collection_text(name) + "/"@ + rest =~= "collections"@ + "/"@ + tail);
    lemma_below("collections"@, tail);
    lemma_below(name, rest);
}

/// A directory below a collection's, and what lies in it.
proof fn lemma_in_directory(name: Seq<char>, dir: Seq<char>, file: Seq<char>)
    requires
        validation::name_rejected(encode_utf8(name)) is None,
        plain(encode_utf8(dir)),
        plain(encode_utf8(file)),
    ensures
        path::path_rejected(encode_utf8(layout::collection_text(name) + "/"@ + dir)) is None,
        path::path_rejected(encode_utf8(layout::collection_text(name) + "/"@ + dir + "/"@ + file)) is None,
{
    lemma_plain_component(encode_utf8(dir));
    lemma_plain_component(encode_utf8(file));
    lemma_in_collection(name, dir);
    let tail = dir + "/"@ + file;
    lemma_in_collection(name, tail);
    lemma_below(dir, file);
    assert(layout::collection_text(name) + "/"@ + dir + "/"@ + file =~= layout::collection_text(
        name,
    ) + "/"@ + tail);
}

/// A collection whose name is not refused has a place for each of its files: every path that its
/// name makes is one.
pub proof fn lemma_valid_name_has_valid_paths(name: Seq<char>, number: u64, which: SegmentFile)
    requires
        validation::name_rejected(encode_utf8(name)) is None,
    ensures
        layout::path_of(layout::collection_text(name)) is Ok,
        layout::path_of(layout::catalog_text(name)) is Ok,
        layout::path_of(layout::segments_text(name)) is Ok,
        layout::path_of(layout::segment_text(name, number, which)) is Ok,
        layout::path_of(layout::wal_dir_text(name)) is Ok,
        layout::path_of(layout::wal_text(name, number)) is Ok,
        layout::path_of(layout::index_dir_text(name)) is Ok,
{
    reveal_strlit("/");
    reveal_strlit("/catalog");
    reveal_strlit("catalog");
    reveal_strlit("/segments");
    reveal_strlit("segments");
    reveal_strlit("/wal");
    reveal_strlit("wal");
    reveal_strlit("/index");
    reveal_strlit("index");
    reveal_strlit(".wal");
    lemma_plain_text("catalog"@);
    lemma_plain_text("segments"@);
    lemma_plain_text("wal"@);
    lemma_plain_text("index"@);
    let base = layout::collection_text(name);
    let segment = text::padded(number as nat, 6) + which.suffix();
    let log = text::padded(number as nat, 6) + ".wal"@;
    lemma_suffix(which);
    lemma_numbered(number, which.suffix());
    lemma_numbered(number, ".wal"@);
    lemma_in_collection(name, "catalog"@);
    lemma_plain_component(encode_utf8("catalog"@));
    assert(layout::catalog_text(name) =~= base + "/"@ + "catalog"@);
    lemma_in_directory(name, "segments"@, segment);
    assert(layout::segments_text(name) =~= base + "/"@ + "segments"@);
    assert(layout::segment_text(name, number, which) =~= base + "/"@ + "segments"@ + "/"@
        + segment);
    lemma_in_directory(name, "wal"@, log);
    assert(layout::wal_dir_text(name) =~= base + "/"@ + "wal"@);
    assert(layout::wal_text(name, number) =~= base + "/"@ + "wal"@ + "/"@ + log);
    lemma_in_directory(name, "index"@, log);
    assert(layout::index_dir_text(name) =~= base + "/"@ + "index"@);
}

/// The names that every database uses are paths: the directory of its collections, both manifest
/// slots and the lock.
pub proof fn lemma_fixed_names_are_paths()
    ensures
        layout::path_of("collections"@) == Ok::<Seq<char>, ErrorModel>("collections"@),
        forall|slot: Slot|
            layout::path_of(#[trigger] slot.text()) == Ok::<Seq<char>, ErrorModel>(slot.text()),
        layout::path_of("LOCK"@) == Ok::<Seq<char>, ErrorModel>("LOCK"@),
{
    reveal_strlit("collections");
    reveal_strlit("MANIFEST-A");
    reveal_strlit("MANIFEST-B");
    reveal_strlit("LOCK");
    lemma_plain_text("collections"@);
    lemma_plain_component(encode_utf8("collections"@));
    lemma_plain_text("MANIFEST-A"@);
    lemma_plain_component(encode_utf8("MANIFEST-A"@));
    lemma_plain_text("MANIFEST-B"@);
    lemma_plain_component(encode_utf8("MANIFEST-B"@));
    lemma_plain_text("LOCK"@);
    lemma_plain_component(encode_utf8("LOCK"@));
}

/// Whether the kind of an index makes a name for the snapshot with a number: it is plain, and not
/// too long with the number and the extension behind it.
pub open spec fn names_snapshot(kind: Seq<char>, number: u64) -> bool {
    plain_text(kind) && kind.len() + text::padded(number as nat, 6).len() + 5 <= MAX_COMPONENT_LEN
}

/// The kind of the exact scan names a snapshot with any number.
pub proof fn lemma_flat_names_snapshots(number: u64)
    ensures
        names_snapshot("flat"@, number),
{
    reveal_strlit("flat");
    reveal_with_fuel(power, 21);
    lemma_padded(number as nat, 6, 20);
}

/// The snapshots of an index have a place, where the collection's name is not refused and the kind
/// is plain.
pub proof fn lemma_snapshot_has_a_valid_path(name: Seq<char>, kind: Seq<char>, number: u64)
    requires
        validation::name_rejected(encode_utf8(name)) is None,
        names_snapshot(kind, number),
    ensures
        layout::path_of(layout::index_dir_text(name)) == Ok::<Seq<char>, ErrorModel>(
            layout::index_dir_text(name),
        ),
        layout::path_of(layout::index_text(name, kind, number)) == Ok::<Seq<char>, ErrorModel>(
            layout::index_text(name, kind, number),
        ),
{
    reveal_strlit("/");
    reveal_strlit("/index");
    reveal_strlit("index");
    reveal_strlit("-");
    reveal_strlit(".idx");
    reveal_with_fuel(power, 21);
    lemma_padded(number as nat, 6, 20);
    let digits = text::padded(number as nat, 6);
    let front = kind + "-"@;
    let file = front + digits + ".idx"@;
    assert forall|i: int| 0 <= i < file.len() implies '\0' <= #[trigger] file[i] <= '\u{7f}'
        && file[i] != '/' && file[i] != '\\' && file[i] != '\0' by {
        if i < kind.len() {
            assert(file[i] == kind[i]);
        } else if i == kind.len() {
            assert(file[i] == "-"@[0]);
        } else if i < front.len() + digits.len() {
            assert(file[i] == digits[i - front.len()]);
        } else {
            assert(file[i] == ".idx"@[i - front.len() - digits.len()]);
        }
    }
    assert(file[0] == kind[0]);
    lemma_plain_text(file);
    lemma_plain_text("index"@);
    lemma_in_directory(name, "index"@, file);
    let base = layout::collection_text(name);
    assert(layout::index_dir_text(name) =~= base + "/"@ + "index"@);
    assert(layout::index_text(name, kind, number) =~= base + "/"@ + "index"@ + "/"@ + file);
}

/// The files of a segment of a collection whose name is not refused have their places.
pub proof fn lemma_valid_name_is_placeable(name: Seq<char>, id: u64)
    requires
        validation::name_rejected(encode_utf8(name)) is None,
    ensures
        flush_laws::placeable(name, id),
{
    lemma_valid_name_has_valid_paths(name, id, SegmentFile::Vectors);
    lemma_valid_name_has_valid_paths(name, id, SegmentFile::Directory);
    lemma_valid_name_has_valid_paths(name, id, SegmentFile::Metadata);
    lemma_valid_name_has_valid_paths(name, id, SegmentFile::Tombstones);
}

/// The specification of a collection that is not refused is written, and read back as it was, and
/// the collection's log has a place.
pub proof fn lemma_accepted_spec_is_written(spec: SpecModel, now_ms: u64)
    requires
        spec.refused() is None,
    ensures
        catalog::written(spec.catalog(now_ms)) is Ok,
        catalog::read(
            spec.name,
            Some(catalog::written(spec.catalog(now_ms))->Ok_0.bytes),
        ) == Ok::<CatalogModel, ErrorModel>(spec.catalog(now_ms)),
        layout::path_of(layout::wal_dir_text(spec.name)) == Ok::<Seq<char>, ErrorModel>(
            layout::wal_dir_text(spec.name),
        ),
{
    assert(spec.name.len() > 0) by {
        if spec.name.len() == 0 {
            assert(encode_utf8(spec.name).len() == 0);
        }
    }
    lemma_valid_name_has_valid_paths(spec.name, 1, SegmentFile::Vectors);
    lemma_catalog_is_read_back(spec.catalog(now_ms));
}

/// The specification of a collection that may be created is written, and read back as it was; a
/// file that is not there is a loss, and reported as one.
pub proof fn lemma_catalog_is_read_back(c: CatalogModel)
    requires
        validation::name_rejected(encode_utf8(c.name)) is None,
        crate::format::catalog::checked(c) is Ok,
    ensures
        catalog::written(c) is Ok,
        catalog::read(c.name, Some(catalog::written(c)->Ok_0.bytes)) == Ok::<
            CatalogModel,
            ErrorModel,
        >(c),
        catalog::read(c.name, None) == Err::<CatalogModel, ErrorModel>(
            segment::missing(c.name, 0),
        ),
{
    lemma_valid_name_has_valid_paths(c.name, 1, SegmentFile::Vectors);
    varint::lemma_varint_len_u64(encode_utf8(c.name).len() as u64);
    le::lemma_le_fixed(c.dimension as nat);
    le::lemma_le_fixed(crate::format::catalog::id_limit(c.id_kind) as nat);
    le::lemma_le_fixed(c.created_at_ms as nat);
    assert(crate::format::catalog::catalog_bytes(c).len() <= 200);
    crate::format::catalog::lemma_catalog_round_trip(c);
}

proof fn lemma_digit_value(d: nat)
    requires
        d < 10,
    ensures
        text::digit_text(d).len() == 1,
        text::digit_text(d)[0] as u8 == 0x30 + d,
        is_ascii_chars(text::digit_text(d)),
{
    reveal_strlit("0");
    reveal_strlit("1");
    reveal_strlit("2");
    reveal_strlit("3");
    reveal_strlit("4");
    reveal_strlit("5");
    reveal_strlit("6");
    reveal_strlit("7");
    reveal_strlit("8");
    reveal_strlit("9");
}

proof fn lemma_one_more_digit(s: Seq<char>, n: nat, d: nat)
    requires
        d < 10,
        layout::all_digits(encode_utf8(s)),
        layout::digits_value(encode_utf8(s)) == n,
    ensures
        layout::all_digits(encode_utf8(s + text::digit_text(d))),
        layout::digits_value(encode_utf8(s + text::digit_text(d))) == 10 * n + d,
        encode_utf8(s + text::digit_text(d)).len() == encode_utf8(s).len() + 1,
{
    let t = text::digit_text(d);
    lemma_digit_value(d);
    is_ascii_chars_encode_utf8(t);
    lemma_encode_joined(s, t);
    let b = encode_utf8(s + t);
    assert(t[0] as u8 == encode_utf8(t)[0]);
    assert(b.drop_last() =~= encode_utf8(s));
    assert(b.last() == 0x30 + d);
}

proof fn lemma_decimal_value(n: nat)
    ensures
        layout::all_digits(encode_utf8(text::decimal(n))),
        layout::digits_value(encode_utf8(text::decimal(n))) == n,
        encode_utf8(text::decimal(n)).len() > 0,
    decreases n,
{
    let none = Seq::<char>::empty();
    assert(encode_utf8(none) =~= Seq::<u8>::empty());
    if n < 10 {
        lemma_one_more_digit(none, 0, n);
        assert(none + text::digit_text(n) =~= text::digit_text(n));
    } else {
        lemma_decimal_value(n / 10);
        lemma_one_more_digit(text::decimal(n / 10), n / 10, n % 10);
    }
}

/// A number in decimal stands for that number, padded or not.
pub proof fn lemma_padded_value(n: nat, w: nat)
    ensures
        layout::all_digits(encode_utf8(text::padded(n, w))),
        layout::digits_value(encode_utf8(text::padded(n, w))) == n,
        encode_utf8(text::padded(n, w)).len() > 0,
        layout::digits_value(encode_utf8(text::decimal(n))) == n,
    decreases w,
{
    lemma_decimal_value(n);
    if w > 1 {
        lemma_padded_value(n / 10, (w - 1) as nat);
        lemma_one_more_digit(text::padded(n / 10, (w - 1) as nat), n / 10, n % 10);
    }
}

/// A text id reads as it is, and a numeric one as its digits.
pub proof fn lemma_ids_read_as_they_are(s: Seq<char>, v: u64)
    ensures
        document::id_text(IdModel::Str(s)) == s,
        layout::all_digits(encode_utf8(document::id_text(IdModel::U64(v)))),
        layout::digits_value(encode_utf8(document::id_text(IdModel::U64(v)))) == v,
{
    lemma_decimal_value(v as nat);
}

proof fn lemma_stem(a: Seq<u8>, b: Seq<u8>)
    requires
        forall|i: int| 0 <= i < a.len() ==> #[trigger] a[i] != 0x2e,
        b.len() > 0,
        b[0] == 0x2e,
    ensures
        layout::stem_len(a + b) == a.len(),
    decreases a.len(),
{
    let p = a + b;
    if a.len() == 0 {
        assert(p =~= b);
    } else {
        assert(p[0] == a[0]);
        assert(p.skip(1) =~= a.skip(1) + b);
        assert forall|i: int| 0 <= i < a.skip(1).len() implies #[trigger] a.skip(1)[i] != 0x2e by {
            assert(a.skip(1)[i] == a[i + 1]);
        }
        lemma_stem(a.skip(1), b);
    }
}

/// The files of a segment are told by their names to be that segment's, so that no two segments
/// share a file and a listing finds each under its id.
pub proof fn lemma_segment_files_name_their_segment(id: u64, which: SegmentFile)
    ensures
        layout::segment_named(encode_utf8(text::padded(id as nat, 6) + which.suffix())) == Some(id),
{
    let number = text::padded(id as nat, 6);
    let end = which.suffix();
    let a = encode_utf8(number);
    let b = encode_utf8(end);
    lemma_padded_value(id as nat, 6);
    lemma_encode_joined(number, end);
    reveal_strlit(".vec");
    reveal_strlit(".dir");
    reveal_strlit(".meta");
    reveal_strlit(".del");
    lemma_suffix(which);
    is_ascii_chars_encode_utf8(end);
    assert(end[0] as u8 == b[0]);
    lemma_stem(a, b);
    assert((a + b).take(a.len() as int) =~= a);
    assert(a[0] != 0x2b);
}

} // verus!
