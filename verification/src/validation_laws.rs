//! What is accepted and what is refused, told by the values themselves.
use vstd::prelude::*;
use vstd::utf8::*;

use crate::api::access::Access;
use crate::api::batch::{BatchModel, BatchReport};
use crate::api::collection::search;
use crate::api::collection::staging;
use crate::api::collection::staging::StagedWrite;
use crate::api::collection::CollModel;
use crate::api::config::SpecModel;
use crate::api::search::SearchRequest;
use crate::bytes;
use crate::document;
use crate::document::{DocumentInput, IdKind, IdModel};
use crate::error::{
    DbError,
    ErrorModel,
    IdRejection,
    LifecycleModel,
    NameRejection,
    NonFiniteKind,
    ValidationModel,
};
use crate::filter;
use crate::filter::FilterModel;
use crate::float;
use crate::format::segment::vectors;
use crate::format::value;
use crate::format::value::ValueModel;
use crate::format::value_laws;
use crate::format::wal_laws;
use crate::metadata;
use crate::validation;
use crate::vector;
use crate::vector::VectorView;

verus! {

/// Text whose bytes are all below 128 is made of characters below 128.
proof fn lemma_low_bytes(s: Seq<char>)
    requires
        forall|i: int| 0 <= i < encode_utf8(s).len() ==> #[trigger] encode_utf8(s)[i] < 0x80,
    ensures
        is_ascii_chars(s),
    decreases s.len(),
{
    if s.len() > 0 {
        let b = encode_utf8(s);
        let rest = s.drop_first();
        encode_utf8_first_scalar(s);
        let first = b[0];
        assert(first < 0x80);
        assert((first & 0x7f) <= 0x7f) by (bit_vector);
        assert(s[0] as u32 <= 0x7f);
        let head = encode_scalar(s[0] as u32);
        assert(b == head + encode_utf8(rest));
        assert forall|i: int| 0 <= i < encode_utf8(rest).len() implies #[trigger] encode_utf8(
            rest,
        )[i] < 0x80 by {
            assert(encode_utf8(rest)[i] == b[head.len() + i]);
        }
        lemma_low_bytes(rest);
        let code = s[0] as u32;
        char_u32_cast(s[0], code);
        assert(code as char == s[0]);
        assert('\0' <= code as char <= '\u{7f}');
        assert forall|i: int| 0 <= i < s.len() implies '\0' <= #[trigger] s[i] <= '\u{7f}' by {
            if i > 0 {
                assert(s[i] == rest[i - 1]);
            }
        }
    }
}

/// Whether a collection's name may hold a character: a letter or digit of ASCII, `_` or `-`.
pub open spec fn is_name_char(c: char) -> bool {
    ('0' <= c <= '9') || ('A' <= c <= 'Z') || ('a' <= c <= 'z') || c == '_' || c == '-'
}

/// A collection may be named by 1 to 64 letters, digits, `_` and `-`, and by nothing else.
pub proof fn lemma_accepted_names(name: Seq<char>)
    ensures
        validation::name_rejected(encode_utf8(name)) is None <==> 0 < name.len() <= 64
            && forall|i: int| 0 <= i < name.len() ==> is_name_char(#[trigger] name[i]),
{
    let b = encode_utf8(name);
    if validation::name_rejected(b) is None {
        assert forall|i: int| 0 <= i < b.len() implies #[trigger] b[i] < 0x80 by {
            assert(validation::name_byte(b[i]));
        }
        lemma_low_bytes(name);
        is_ascii_chars_encode_utf8(name);
        assert forall|i: int| 0 <= i < name.len() implies is_name_char(#[trigger] name[i]) by {
            assert(name[i] as u8 == b[i]);
            assert(validation::name_byte(b[i]));
        }
    }
    if 0 < name.len() <= 64 && forall|i: int|
        0 <= i < name.len() ==> is_name_char(#[trigger] name[i]) {
        assert(is_ascii_chars(name)) by {
            assert forall|i: int| 0 <= i < name.len() implies '\0' <= #[trigger] name[i]
                <= '\u{7f}' by {
                assert(is_name_char(name[i]));
            }
        }
        is_ascii_chars_encode_utf8(name);
        assert forall|i: int| 0 <= i < b.len() implies validation::name_byte(#[trigger] b[i]) by {
            assert(name[i] as u8 == b[i]);
            assert(is_name_char(name[i]));
        }
        assert(validation::name_byte(b[0]));
    }
}

/// A specification is accepted exactly where its name is and its dimension lies between 1 and
/// 65,536.
pub proof fn lemma_accepted_specifications(spec: SpecModel)
    ensures
        spec.refused() is None <==> validation::name_rejected(encode_utf8(spec.name)) is None && 1
            <= spec.dimension <= 65_536,
{
}

/// An id is accepted exactly where it is of the collection's kind and, being text, is not empty, has
/// at most 512 bytes and no more than the collection allows, and holds no control character.
pub proof fn lemma_accepted_ids(id: IdModel, kind: IdKind)
    ensures
        document::id_refused(id, kind) is None <==> match (id, kind) {
            (IdModel::U64(_), IdKind::U64) => true,
            (IdModel::Str(s), IdKind::Str { max_len }) => {
                &&& s.len() > 0
                &&& encode_utf8(s).len() <= 512
                &&& encode_utf8(s).len() <= max_len
                &&& forall|i: int|
                    0 <= i < s.len() ==> (#[trigger] s[i]) as u32 > 0x1f && !(0x7f <= s[i] as u32
                        <= 0x9f)
            },
            _ => false,
        },
        document::of_kind(id, kind) <==> (id is Str && kind is Str) || (id is U64 && kind is U64),
        document::id_refused(id, kind) matches Some(e) ==> e matches ErrorModel::Validation(
            ValidationModel::InvalidDocumentId { .. },
        ),
        id matches IdModel::Str(s) && s.len() == 0 && kind is Str ==> document::id_refused(id, kind)
            matches Some(
            ErrorModel::Validation(
                ValidationModel::InvalidDocumentId { reason: IdRejection::Empty, .. },
            ),
        ),
{
    if let (IdModel::Str(s), IdKind::Str { max_len }) = (id, kind) {
        if document::has_control(s) {
            let i = choose|i: int| 0 <= i < s.len() && document::is_control(#[trigger] s[i]);
            assert(!(s[i] as u32 > 0x1f && !(0x7f <= s[i] as u32 <= 0x9f)));
        } else {
            assert forall|i: int| 0 <= i < s.len() implies (#[trigger] s[i]) as u32 > 0x1f && !(0x7f
                <= s[i] as u32 <= 0x9f) by {
                assert(!document::is_control(s[i]));
            }
        }
    }
}

proof fn lemma_first_non_finite(v: Seq<u32>)
    ensures
        vectors::first_non_finite(v) <= v.len(),
        forall|i: int|
            0 <= i < vectors::first_non_finite(v) ==> (#[trigger] v[i]) % 0x8000_0000
                < 0x7f80_0000,
        vectors::first_non_finite(v) < v.len() ==> v[vectors::first_non_finite(v) as int]
            % 0x8000_0000 >= 0x7f80_0000,
    decreases v.len(),
{
    if v.len() > 0 && float::finite32(v[0]) {
        let rest = v.skip(1);
        lemma_first_non_finite(rest);
        let n = vectors::first_non_finite(v);
        assert forall|i: int| 0 <= i < n implies (#[trigger] v[i]) % 0x8000_0000 < 0x7f80_0000 by {
            if i > 0 {
                assert(v[i] == rest[i - 1]);
            }
        }
        if n < v.len() {
            assert(v[n as int] == rest[n - 1]);
        }
    }
}

/// A vector is accepted exactly where it has the collection's dimension and every component is a
/// finite number.
pub proof fn lemma_accepted_vectors(v: VectorView<'_>, collection: Seq<char>, dimension: u32)
    ensures
        v.refused(collection, dimension) is None <==> v.spec_dimension() == dimension && forall|
            i: int,
        |
            0 <= i < v.components().len() ==> (#[trigger] v.components()[i]) % 0x8000_0000
                < 0x7f80_0000,
{
    lemma_first_non_finite(v.components());
}

/// A vector that is refused is told apart: by its dimension where that is not the collection's, and
/// otherwise by the first component that is no finite number, its place and which it is.
pub proof fn lemma_refused_vectors(v: VectorView<'_>, collection: Seq<char>, dimension: u32)
    requires
        v.components().len() <= usize::MAX,
        v.refused(collection, dimension) is Some,
    ensures
        v.spec_dimension() != dimension ==> v.refused(collection, dimension)->0
            == ErrorModel::Validation(
            ValidationModel::InvalidVectorDimension {
                collection,
                expected: dimension,
                actual: v.spec_dimension(),
            },
        ),
        v.spec_dimension() == dimension ==> (v.refused(collection, dimension)->0
            matches ErrorModel::Validation(ValidationModel::InvalidVectorData { reason, index })
            && {
            &&& index < v.components().len()
            &&& forall|i: int|
                0 <= i < index ==> (#[trigger] v.components()[i]) % 0x8000_0000 < 0x7f80_0000
            &&& match reason {
                NonFiniteKind::PosInf => v.components()[index as int] == 0x7f80_0000,
                NonFiniteKind::NegInf => v.components()[index as int] == 0xff80_0000,
                NonFiniteKind::Nan => v.components()[index as int] % 0x8000_0000 > 0x7f80_0000,
            }
        }),
{
    lemma_first_non_finite(v.components());
}

/// A name that is refused is told apart: empty, longer than 64 bytes, one of the two names that
/// stand for directories, or with a character that a name may not hold.
pub proof fn lemma_refused_names(name: Seq<u8>)
    ensures
        validation::name_rejected(name) == Some(NameRejection::Empty) <==> name.len() == 0,
        validation::name_rejected(name) == Some(NameRejection::TooLong) <==> name.len() > 64,
        validation::name_rejected(name) == Some(NameRejection::Reserved) <==> name == seq![0x2eu8]
            || name == seq![0x2eu8, 0x2eu8],
{
}

/// A text id that is refused is told apart: empty, longer than the collection allows, or with a
/// control character.
pub proof fn lemma_refused_ids(s: Seq<char>, max_len: u32)
    requires
        document::id_refused(IdModel::Str(s), IdKind::Str { max_len }) is Some,
    ensures
        document::id_refused(IdModel::Str(s), IdKind::Str { max_len })->0
            matches ErrorModel::Validation(ValidationModel::InvalidDocumentId { reason, .. }) && {
            let n = encode_utf8(s).len();
            &&& reason == IdRejection::Empty <==> s.len() == 0
            &&& reason == IdRejection::TooLong <==> s.len() > 0 && (n > max_len || n > 512)
            &&& reason == IdRejection::IllegalCharacter <==> s.len() > 0 && n <= max_len && n <= 512
        },
{
}

/// Content is accepted up to 16 MiB.
pub proof fn lemma_accepted_content(content: Option<Seq<u8>>)
    ensures
        document::content_refused(content) is None <==> content is None || content->0.len()
            <= 16_777_216,
{
}

/// What can be stored: at most sixteen values deep, a number that is finite and any other plain
/// value, a list of what can be stored one deeper, and a map of it whose keys ascend by their bytes.
pub proof fn lemma_storable_values(v: ValueModel, d: nat)
    ensures
        value::storable(v, d) <==> d <= 16 && match v {
            ValueModel::Null => true,
            ValueModel::Bool(_) => true,
            ValueModel::I64(_) => true,
            ValueModel::F64(bits) => bits % 0x8000_0000_0000_0000 < 0x7ff0_0000_0000_0000,
            ValueModel::Str(_) => true,
            ValueModel::Bytes(_) => true,
            ValueModel::Array(xs) => forall|i: int|
                0 <= i < xs.len() ==> value::storable(#[trigger] xs[i], d + 1),
            ValueModel::Object(ps) => {
                &&& forall|i: int, j: int|
                    0 <= i < j < ps.len() ==> bytes::lex_lt(
                        encode_utf8((#[trigger] ps[i]).0),
                        encode_utf8((#[trigger] ps[j]).0),
                    )
                &&& forall|i: int|
                    0 <= i < ps.len() ==> value::storable((#[trigger] ps[i]).1, d + 1)
            },
        },
{
    match v {
        ValueModel::Array(xs) => {
            lemma_storable_all(xs, d + 1);
        },
        ValueModel::Object(ps) => {
            lemma_storable_pairs(ps, d + 1);
        },
        _ => {},
    }
}

proof fn lemma_storable_all(xs: Seq<ValueModel>, d: nat)
    ensures
        value::storable_all(xs, d) <==> forall|i: int|
            0 <= i < xs.len() ==> value::storable(#[trigger] xs[i], d),
    decreases xs.len(),
{
    if xs.len() > 0 {
        let front = xs.drop_last();
        lemma_storable_all(front, d);
        assert forall|i: int| 0 <= i < front.len() implies front[i] == #[trigger] xs[i] by {}
        assert(xs.last() == xs[xs.len() - 1]);
        if value::storable_all(xs, d) {
            assert forall|i: int| 0 <= i < xs.len() implies value::storable(#[trigger] xs[i], d) by {
                if i < front.len() {
                    assert(value::storable(front[i], d));
                }
            }
        }
    }
}

proof fn lemma_storable_pairs(ps: Seq<(Seq<char>, ValueModel)>, d: nat)
    ensures
        value::storable_pairs(ps, d) <==> forall|i: int|
            0 <= i < ps.len() ==> value::storable((#[trigger] ps[i]).1, d),
    decreases ps.len(),
{
    if ps.len() > 0 {
        let front = ps.drop_last();
        lemma_storable_pairs(front, d);
        assert forall|i: int| 0 <= i < front.len() implies front[i] == #[trigger] ps[i] by {}
        assert(ps.last() == ps[ps.len() - 1]);
        if value::storable_pairs(ps, d) {
            assert forall|i: int| 0 <= i < ps.len() implies value::storable(
                (#[trigger] ps[i]).1,
                d,
            ) by {
                if i < front.len() {
                    assert(value::storable(front[i].1, d));
                }
            }
        }
    }
}

/// Metadata whose keys ascend is accepted exactly where it can be stored and takes at most 1 MiB.
pub proof fn lemma_accepted_metadata(m: Seq<(Seq<char>, ValueModel)>)
    requires
        value::sorted_throughout(ValueModel::Object(m)),
    ensures
        metadata::refused(m) is None <==> value::storable(ValueModel::Object(m), 1)
            && value::encoding(ValueModel::Object(m)).len() <= 1_048_576,
{
    let v = ValueModel::Object(m);
    if value::storable(v, 1) {
        value_laws::lemma_written_of_storable(v, 1, 0);
        value_laws::lemma_storable_depth(v, 1);
    }
    if value::written(v, 1, 0) is Ok {
        value_laws::lemma_storable_of_written(v, 1, 0);
    }
}

/// A document is accepted exactly where its id, its vector, its metadata and its content are, each
/// whatever the others are.
pub proof fn lemma_accepted_documents(
    doc: DocumentInput<'_>,
    collection: Seq<char>,
    dimension: u32,
    kind: IdKind,
)
    ensures
        doc.refused(collection, dimension, kind) is None <==> {
            &&& document::id_refused(doc.id@, kind) is None
            &&& doc.vector.refused(collection, dimension) is None
            &&& doc.metadata is Some ==> metadata::refused(doc.metadata->0@) is None
            &&& doc.content is Some ==> document::content_refused(Some(doc.content->0@)) is None
        },
{
}

/// An operation of a batch is accepted exactly where its id is and, where it writes, its vector has
/// the collection's dimension and finite components, its metadata is accepted and its content is.
pub proof fn lemma_accepted_operations(c: CollModel, op: BatchModel)
    requires
        c.catalog.dimension <= 65_536,
    ensures
        staging::op_refused(c, op) is None <==> match op {
            BatchModel::Delete { id } => document::id_refused(id, c.catalog.id_kind) is None,
            BatchModel::Upsert { id, vector, metadata, content } => {
                &&& document::id_refused(id, c.catalog.id_kind) is None
                &&& vector.len() == 4 * c.catalog.dimension
                &&& forall|i: int|
                    0 <= i < vectors::components(vector).len() ==> (#[trigger] vectors::components(
                        vector,
                    )[i]) % 0x8000_0000 < 0x7f80_0000
                &&& metadata is Some ==> metadata::refused(metadata->0) is None
                &&& content is Some ==> document::content_refused(content) is None
            },
        },
{
    if let BatchModel::Upsert { vector, .. } = op {
        lemma_first_non_finite(vectors::components(vector));
    }
}

/// A batch succeeds exactly where writing is allowed, it has at most 100,000 operations, none of
/// them is refused, and its frames fit into the log; with nothing to do it does nothing.
pub proof fn lemma_accepted_batches<F: Fn(&[u8]) -> u32>(
    norm: F,
    before: CollModel,
    access: Access,
    ops: Seq<BatchModel>,
    r: Result<(Option<StagedWrite>, BatchReport), DbError>,
    after: CollModel,
)
    requires
        staging::is_batch(norm, before, access, ops, r, after),
    ensures
        r is Ok <==> {
            &&& !access.closed
            &&& !access.read_only
            &&& ops.len() <= 100_000
            &&& forall|i: int|
                0 <= i < ops.len() ==> staging::op_refused(before, #[trigger] ops[i]) is None
            &&& ops.len() == 0 || wal_laws::all_fit(staging::batch_frames(before, ops))
        },
        ops.len() == 0 && r is Ok ==> r->Ok_0.0 is None && after == before,
        ops.len() > 0 && r is Ok ==> r->Ok_0.0 is Some,
        r is Err ==> after.memtable == before.memtable && after.segments == before.segments
            && after.log.bytes == before.log.bytes && after.log.next_sequence
            == before.log.next_sequence,
{
    if staging::first_refused(before, ops) == ops.len() {
        assert forall|i: int| 0 <= i < ops.len() implies staging::op_refused(
            before,
            #[trigger] ops[i],
        ) is None by {
            staging::lemma_none_refused(before, ops, i);
        }
    } else {
        staging::lemma_first_refused_is(before, ops);
    }
}

/// A filter is accepted up to 1,024 nodes and a depth of 32, where a comparison is one node of depth
/// 1, a negation is one more of each, and a conjunction or disjunction is one node more than its
/// parts have together and nests once more than the deepest of them.
pub proof fn lemma_accepted_filters(f: FilterModel, fs: Seq<FilterModel>, i: int)
    requires
        0 <= i < fs.len(),
    ensures
        filter::refused(f) is None <==> filter::nodes_of(f) <= 1024 && filter::depth_of(f) <= 32,
        filter::nodes_of(FilterModel::Not(Box::new(f))) == 1 + filter::nodes_of(f),
        filter::depth_of(FilterModel::Not(Box::new(f))) == 1 + filter::depth_of(f),
        filter::nodes_of(FilterModel::And(fs)) == 1 + filter::nodes_all(fs),
        filter::nodes_of(FilterModel::Or(fs)) == 1 + filter::nodes_all(fs),
        filter::nodes_all(fs.push(f)) == filter::nodes_all(fs) + filter::nodes_of(f),
        filter::nodes_all(Seq::empty()) == 0,
        filter::depth_of(FilterModel::And(fs)) > filter::depth_of(fs[i]),
        filter::depth_of(FilterModel::Or(fs)) > filter::depth_of(fs[i]),
        exists|k: int|
            0 <= k < fs.len() && filter::depth_of(FilterModel::And(fs)) == 1 + filter::depth_of(
                #[trigger] fs[k],
            ) && filter::depth_of(FilterModel::Or(fs)) == 1 + filter::depth_of(fs[k]),
        !(f is And) && !(f is Or) && !(f is Not) ==> filter::nodes_of(f) == 1 && filter::depth_of(f)
            == 1,
{
    lemma_deepest(fs);
    assert(fs.push(f).drop_last() =~= fs);
}

proof fn lemma_deepest(fs: Seq<FilterModel>)
    ensures
        forall|i: int| 0 <= i < fs.len() ==> filter::depth_of(#[trigger] fs[i]) <= filter::depth_all(
            fs,
        ),
        fs.len() > 0 ==> exists|k: int|
            0 <= k < fs.len() && filter::depth_of(#[trigger] fs[k]) == filter::depth_all(fs),
        fs.len() == 0 ==> filter::depth_all(fs) == 0,
    decreases fs.len(),
{
    if fs.len() > 0 {
        let front = fs.drop_last();
        let n = fs.len() - 1;
        lemma_deepest(front);
        assert forall|i: int| 0 <= i < fs.len() implies filter::depth_of(#[trigger] fs[i])
            <= filter::depth_all(fs) by {
            if i < n {
                assert(front[i] == fs[i]);
            }
        }
        if filter::depth_of(fs[n]) == filter::depth_all(fs) {
        } else {
            assert(front.len() > 0) by {
                if front.len() == 0 {
                    assert(filter::depth_of(fs[n]) == filter::depth_all(fs));
                }
            }
            let k = choose|k: int|
                0 <= k < front.len() && filter::depth_of(#[trigger] front[k]) == filter::depth_all(
                    front,
                );
            assert(fs[k] == front[k]);
        }
    }
}

proof fn lemma_unreadable(c: CollModel, n: nat)
    ensures
        search::unreadable(c, n) is None <==> forall|s: int|
            0 <= s < n ==> (#[trigger] vectors::vector_data(
                c.segments[s].vec_bytes,
                c.segments[s].stride() as int,
            )) is Ok,
    decreases n,
{
    if n > 0 {
        lemma_unreadable(c, (n - 1) as nat);
        if search::unreadable(c, n) is Some && (forall|s: int|
            0 <= s < n ==> (#[trigger] vectors::vector_data(
                c.segments[s].vec_bytes,
                c.segments[s].stride() as int,
            )) is Ok) {
            assert(vectors::vector_data(
                c.segments[n - 1].vec_bytes,
                c.segments[n - 1].stride() as int,
            ) is Ok);
        }
    }
}

/// A search is run exactly where the database is open, between 1 and 10,000 hits are asked for, the
/// query is a vector that the collection accepts, the filter is accepted, and the vectors of every
/// segment can be read.
pub proof fn lemma_accepted_searches(c: CollModel, access: Access, request: SearchRequest<'_>)
    ensures
        search::search_refused(c, access, request) is None <==> {
            &&& !access.closed
            &&& 1 <= request.top_k <= 10_000
            &&& request.vector.refused(c.catalog.name, c.catalog.dimension) is None
            &&& request.filter is Some ==> filter::refused((*request.filter->0)@) is None
            &&& forall|s: int|
                0 <= s < c.segments.len() ==> (#[trigger] vectors::vector_data(
                    c.segments[s].vec_bytes,
                    c.segments[s].stride() as int,
                )) is Ok
        },
{
    lemma_unreadable(c, c.segments.len());
}

/// A handle refuses to write exactly where it is closed or read-only, and says which.
pub proof fn lemma_refused_writes(access: Access, operation: &'static str)
    ensures
        access.refused(operation) is None <==> !access.closed && !access.read_only,
        access.closed ==> access.refused(operation) == Some(
            ErrorModel::Lifecycle(LifecycleModel::DatabaseClosed),
        ),
        !access.closed && access.read_only ==> access.refused(operation) == Some(
            ErrorModel::Lifecycle(LifecycleModel::ReadOnly { operation }),
        ),
{
}

} // verus!
