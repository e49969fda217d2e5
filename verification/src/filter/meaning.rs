//! What a filter asks of a document, told by the values that its field has.
use vstd::arithmetic::power2::*;
use vstd::prelude::*;
use vstd::utf8::*;

use crate::bytes;
use crate::bytes::Order;
use crate::filter;
use crate::filter::eval;
use crate::filter::FilterModel;
use crate::float;
use crate::float_laws;
use crate::format::lookup;
use crate::format::value;
use crate::format::value::ValueModel;
use crate::metadata;
use crate::persistence::layout_laws;

verus! {

/// An integer field compares with an integer as integers do: at least, at most, above, below and
/// equal each mean just that, the boundary included where it is.
pub proof fn lemma_integers_compare(
    p: Seq<char>,
    x: i64,
    y: i64,
    m: Seq<(Seq<char>, ValueModel)>,
)
    requires
        metadata::field_value(m, p) == Some(ValueModel::I64(x)),
    ensures
        eval::satisfied(FilterModel::Lt(p, ValueModel::I64(y)), m) <==> x < y,
        eval::satisfied(FilterModel::Lte(p, ValueModel::I64(y)), m) <==> x <= y,
        eval::satisfied(FilterModel::Gt(p, ValueModel::I64(y)), m) <==> x > y,
        eval::satisfied(FilterModel::Gte(p, ValueModel::I64(y)), m) <==> x >= y,
        eval::satisfied(FilterModel::Eq(p, ValueModel::I64(y)), m) <==> x == y,
        eval::satisfied(FilterModel::Ne(p, ValueModel::I64(y)), m) <==> x != y,
{
}

/// A float field compares with a float as the numbers do that their patterns stand for. With a NaN
/// nothing compares, and nothing is equal to it.
pub proof fn lemma_floats_compare(
    p: Seq<char>,
    x: u64,
    y: u64,
    m: Seq<(Seq<char>, ValueModel)>,
)
    requires
        metadata::field_value(m, p) == Some(ValueModel::F64(x)),
    ensures
        float::finite64(x) && float::finite64(y) ==> {
            let a = float_laws::value64(x);
            let b = float_laws::value64(y);
            &&& eval::satisfied(FilterModel::Lt(p, ValueModel::F64(y)), m) <==> a < b
            &&& eval::satisfied(FilterModel::Lte(p, ValueModel::F64(y)), m) <==> a <= b
            &&& eval::satisfied(FilterModel::Gt(p, ValueModel::F64(y)), m) <==> a > b
            &&& eval::satisfied(FilterModel::Gte(p, ValueModel::F64(y)), m) <==> a >= b
            &&& eval::satisfied(FilterModel::Eq(p, ValueModel::F64(y)), m) <==> a == b
            &&& eval::satisfied(FilterModel::Ne(p, ValueModel::F64(y)), m) <==> a != b
        },
        float::nan64(x) || float::nan64(y) ==> {
            &&& !eval::satisfied(FilterModel::Lt(p, ValueModel::F64(y)), m)
            &&& !eval::satisfied(FilterModel::Lte(p, ValueModel::F64(y)), m)
            &&& !eval::satisfied(FilterModel::Gt(p, ValueModel::F64(y)), m)
            &&& !eval::satisfied(FilterModel::Gte(p, ValueModel::F64(y)), m)
            &&& !eval::satisfied(FilterModel::Eq(p, ValueModel::F64(y)), m)
        },
{
    float_laws::lemma_order64_is_order(x, y);
    float_laws::lemma_order64_is_order(y, x);
}

/// An integer of at most 53 bits and a float compare as the numbers that they are, whichever of
/// them is the field's.
pub proof fn lemma_integers_and_floats_compare(
    p: Seq<char>,
    x: i64,
    y: u64,
    m: Seq<(Seq<char>, ValueModel)>,
)
    requires
        -0x20_0000_0000_0000 < x < 0x20_0000_0000_0000,
        float::finite64(y),
    ensures
        metadata::field_value(m, p) == Some(ValueModel::I64(x)) ==> {
            let a = x * pow2(1074);
            let b = float_laws::value64(y);
            &&& eval::satisfied(FilterModel::Lt(p, ValueModel::F64(y)), m) <==> a < b
            &&& eval::satisfied(FilterModel::Lte(p, ValueModel::F64(y)), m) <==> a <= b
            &&& eval::satisfied(FilterModel::Gt(p, ValueModel::F64(y)), m) <==> a > b
            &&& eval::satisfied(FilterModel::Gte(p, ValueModel::F64(y)), m) <==> a >= b
            &&& eval::satisfied(FilterModel::Eq(p, ValueModel::F64(y)), m) <==> a == b
        },
        metadata::field_value(m, p) == Some(ValueModel::F64(y)) ==> {
            let a = x * pow2(1074);
            let b = float_laws::value64(y);
            &&& eval::satisfied(FilterModel::Lt(p, ValueModel::I64(x)), m) <==> b < a
            &&& eval::satisfied(FilterModel::Lte(p, ValueModel::I64(x)), m) <==> b <= a
            &&& eval::satisfied(FilterModel::Gt(p, ValueModel::I64(x)), m) <==> b > a
            &&& eval::satisfied(FilterModel::Gte(p, ValueModel::I64(x)), m) <==> b >= a
            &&& eval::satisfied(FilterModel::Eq(p, ValueModel::I64(x)), m) <==> b == a
        },
{
    float_laws::lemma_small_integer_is_itself(x);
    float_laws::lemma_order64_is_order(float::nearest64(x) as u64, y);
    float_laws::lemma_order64_is_order(y, float::nearest64(x) as u64);
}

/// An integer of more than 53 bits and a float compare as the numbers that they are wherever these
/// differ by more than one part in two to the 53rd, which is how closely such an integer is told.
/// With a NaN no integer compares.
pub proof fn lemma_large_integers_and_floats_compare(
    p: Seq<char>,
    x: i64,
    y: u64,
    m: Seq<(Seq<char>, ValueModel)>,
)
    requires
        x <= -0x20_0000_0000_0000 || x >= 0x20_0000_0000_0000,
        float::finite64(y) || float::nan64(y),
        float::finite64(y) ==> {
            let apart = x * pow2(1074) - float_laws::value64(y);
            let size = (if x >= 0 {
                x as int
            } else {
                -x
            }) * pow2(1074);
            apart * 0x20_0000_0000_0000 > size || apart * 0x20_0000_0000_0000 < -size
        },
    ensures
        metadata::field_value(m, p) == Some(ValueModel::I64(x)) ==> {
            let a = x * pow2(1074);
            let b = float_laws::value64(y);
            let told = float::finite64(y);
            &&& eval::satisfied(FilterModel::Lt(p, ValueModel::F64(y)), m) <==> told && a < b
            &&& eval::satisfied(FilterModel::Lte(p, ValueModel::F64(y)), m) <==> told && a <= b
            &&& eval::satisfied(FilterModel::Gt(p, ValueModel::F64(y)), m) <==> told && a > b
            &&& eval::satisfied(FilterModel::Gte(p, ValueModel::F64(y)), m) <==> told && a >= b
            &&& !eval::satisfied(FilterModel::Eq(p, ValueModel::F64(y)), m)
        },
        metadata::field_value(m, p) == Some(ValueModel::F64(y)) ==> {
            let a = x * pow2(1074);
            let b = float_laws::value64(y);
            let told = float::finite64(y);
            &&& eval::satisfied(FilterModel::Lt(p, ValueModel::I64(x)), m) <==> told && b < a
            &&& eval::satisfied(FilterModel::Lte(p, ValueModel::I64(x)), m) <==> told && b <= a
            &&& eval::satisfied(FilterModel::Gt(p, ValueModel::I64(x)), m) <==> told && b > a
            &&& eval::satisfied(FilterModel::Gte(p, ValueModel::I64(x)), m) <==> told && b >= a
            &&& !eval::satisfied(FilterModel::Eq(p, ValueModel::I64(x)), m)
        },
{
    float_laws::lemma_large_integer_is_nearest(x);
    float_laws::lemma_order64_is_order(float::nearest64(x) as u64, y);
    float_laws::lemma_order64_is_order(y, float::nearest64(x) as u64);
}

/// Whether one byte string stands before another in a dictionary: it is where they first differ that
/// decides, and where they do not, the shorter comes first.
pub open spec fn stands_before(a: Seq<u8>, b: Seq<u8>) -> bool {
    exists|i: int|
        {
            &&& 0 <= i <= a.len()
            &&& i <= b.len()
            &&& #[trigger] a.take(i) == b.take(i)
            &&& (i == a.len() && i < b.len()) || (i < a.len() && i < b.len() && a[i] < b[i])
        }
}

/// The order of byte strings is that of a dictionary.
pub proof fn lemma_lex_is_dictionary_order(a: Seq<u8>, b: Seq<u8>)
    ensures
        bytes::lex_lt(a, b) == stands_before(a, b),
        bytes::lex_order(a, b) == Order::Equal <==> a == b,
        bytes::lex_order(a, b) == Order::Less <==> stands_before(a, b),
        bytes::lex_order(a, b) == Order::Greater <==> stands_before(b, a),
{
    lemma_lex(a, b);
    lemma_lex(b, a);
    bytes::lemma_lex_total(a, b);
    bytes::lemma_lex_total(b, a);
}

proof fn lemma_lex(a: Seq<u8>, b: Seq<u8>)
    ensures
        bytes::lex_lt(a, b) == stands_before(a, b),
    decreases a.len(),
{
    if a.len() > 0 && b.len() > 0 && a[0] == b[0] {
        let x = a.skip(1);
        let y = b.skip(1);
        lemma_lex(x, y);
        if stands_before(x, y) {
            let i = choose|i: int|
                {
                    &&& 0 <= i <= x.len()
                    &&& i <= y.len()
                    &&& #[trigger] x.take(i) == y.take(i)
                    &&& (i == x.len() && i < y.len()) || (i < x.len() && i < y.len() && x[i] < y[i])
                };
            assert(a.take(i + 1) =~= seq![a[0]] + x.take(i));
            assert(b.take(i + 1) =~= seq![b[0]] + y.take(i));
            assert(a.take(i + 1) == b.take(i + 1));
        }
        if stands_before(a, b) {
            let i = choose|i: int|
                {
                    &&& 0 <= i <= a.len()
                    &&& i <= b.len()
                    &&& #[trigger] a.take(i) == b.take(i)
                    &&& (i == a.len() && i < b.len()) || (i < a.len() && i < b.len() && a[i] < b[i])
                };
            assert(i > 0);
            assert(x.take(i - 1) =~= a.take(i).skip(1));
            assert(y.take(i - 1) =~= b.take(i).skip(1));
            assert(x.take(i - 1) == y.take(i - 1));
        }
    } else {
        assert(a.take(0) =~= b.take(0));
        if stands_before(a, b) {
            let i = choose|i: int|
                {
                    &&& 0 <= i <= a.len()
                    &&& i <= b.len()
                    &&& #[trigger] a.take(i) == b.take(i)
                    &&& (i == a.len() && i < b.len()) || (i < a.len() && i < b.len() && a[i] < b[i])
                };
            if i > 0 {
                assert(a.take(i)[0] == a[0]);
                assert(b.take(i)[0] == b[0]);
            }
        }
        if a.len() == 0 && b.len() > 0 {
            assert(stands_before(a, b));
        }
        if a.len() > 0 && b.len() > 0 && a[0] < b[0] {
            assert(stands_before(a, b));
        }
    }
}

/// A text field is equal to a text that is the same, and compares with one as their bytes stand in a
/// dictionary.
pub proof fn lemma_texts_compare(
    p: Seq<char>,
    s: Seq<char>,
    t: Seq<char>,
    m: Seq<(Seq<char>, ValueModel)>,
)
    requires
        metadata::field_value(m, p) == Some(ValueModel::Str(s)),
    ensures
        ({
            let v = ValueModel::Str(t);
            let before = stands_before(encode_utf8(s), encode_utf8(t));
            let after = stands_before(encode_utf8(t), encode_utf8(s));
            &&& eval::satisfied(FilterModel::Lt(p, v), m) <==> before
            &&& eval::satisfied(FilterModel::Lte(p, v), m) <==> !after
            &&& eval::satisfied(FilterModel::Gt(p, v), m) <==> after
            &&& eval::satisfied(FilterModel::Gte(p, v), m) <==> !before
            &&& eval::satisfied(FilterModel::Eq(p, v), m) <==> s == t
            &&& eval::satisfied(FilterModel::Ne(p, v), m) <==> s != t
        }),
{
    lemma_lex_is_dictionary_order(encode_utf8(s), encode_utf8(t));
    bytes::lemma_lex_total(encode_utf8(s), encode_utf8(t));
}

/// A bytes field is equal to bytes that are the same, and compares as in a dictionary.
pub proof fn lemma_bytes_compare(
    p: Seq<char>,
    s: Seq<u8>,
    t: Seq<u8>,
    m: Seq<(Seq<char>, ValueModel)>,
)
    requires
        metadata::field_value(m, p) == Some(ValueModel::Bytes(s)),
    ensures
        ({
            let v = ValueModel::Bytes(t);
            &&& eval::satisfied(FilterModel::Lt(p, v), m) <==> stands_before(s, t)
            &&& eval::satisfied(FilterModel::Lte(p, v), m) <==> !stands_before(t, s)
            &&& eval::satisfied(FilterModel::Gt(p, v), m) <==> stands_before(t, s)
            &&& eval::satisfied(FilterModel::Gte(p, v), m) <==> !stands_before(s, t)
            &&& eval::satisfied(FilterModel::Eq(p, v), m) <==> s == t
        }),
{
    lemma_lex_is_dictionary_order(s, t);
    bytes::lemma_lex_total(s, t);
}

/// Of the two truth values, `false` comes before `true`.
pub proof fn lemma_truth_values_compare(
    p: Seq<char>,
    x: bool,
    y: bool,
    m: Seq<(Seq<char>, ValueModel)>,
)
    requires
        metadata::field_value(m, p) == Some(ValueModel::Bool(x)),
    ensures
        eval::satisfied(FilterModel::Lt(p, ValueModel::Bool(y)), m) <==> !x && y,
        eval::satisfied(FilterModel::Lte(p, ValueModel::Bool(y)), m) <==> !x || y,
        eval::satisfied(FilterModel::Gt(p, ValueModel::Bool(y)), m) <==> x && !y,
        eval::satisfied(FilterModel::Gte(p, ValueModel::Bool(y)), m) <==> x || !y,
        eval::satisfied(FilterModel::Eq(p, ValueModel::Bool(y)), m) <==> x == y,
{
}

/// What sort of value a value is. Integers and floats are both numbers.
pub open spec fn sort_of(v: ValueModel) -> int {
    match v {
        ValueModel::Null => 0,
        ValueModel::Bool(_) => 1,
        ValueModel::I64(_) => 2,
        ValueModel::F64(_) => 2,
        ValueModel::Str(_) => 3,
        ValueModel::Bytes(_) => 4,
        ValueModel::Array(_) => 5,
        ValueModel::Object(_) => 6,
    }
}

/// Values of different sorts are not equal and do not compare, and neither null, nor lists, nor maps
/// compare with anything: such a comparison is simply not satisfied.
pub proof fn lemma_different_sorts_do_not_compare(
    p: Seq<char>,
    a: ValueModel,
    v: ValueModel,
    m: Seq<(Seq<char>, ValueModel)>,
)
    requires
        metadata::field_value(m, p) == Some(a),
        sort_of(a) != sort_of(v) || sort_of(a) == 0 || sort_of(a) >= 5,
    ensures
        !eval::satisfied(FilterModel::Lt(p, v), m),
        !eval::satisfied(FilterModel::Lte(p, v), m),
        !eval::satisfied(FilterModel::Gt(p, v), m),
        !eval::satisfied(FilterModel::Gte(p, v), m),
        sort_of(a) != sort_of(v) ==> !eval::satisfied(FilterModel::Eq(p, v), m)
            && eval::satisfied(FilterModel::Ne(p, v), m),
        sort_of(a) == 0 && sort_of(v) == 0 ==> eval::satisfied(FilterModel::Eq(p, v), m),
{
}

/// Two lists are equal exactly where they are as long and equal item by item, and two maps where
/// they have the same keys and equal values under them.
pub proof fn lemma_containers_are_equal_by_parts(
    xs: Seq<ValueModel>,
    ys: Seq<ValueModel>,
    ps: Seq<(Seq<char>, ValueModel)>,
    qs: Seq<(Seq<char>, ValueModel)>,
)
    ensures
        eval::same_value(ValueModel::Array(xs), ValueModel::Array(ys)) <==> xs.len() == ys.len()
            && forall|i: int| 0 <= i < xs.len() ==> eval::same_value(#[trigger] xs[i], ys[i]),
        eval::same_value(ValueModel::Object(ps), ValueModel::Object(qs)) <==> ps.len() == qs.len()
            && forall|i: int|
            0 <= i < ps.len() ==> (#[trigger] ps[i]).0 == qs[i].0 && eval::same_value(
                ps[i].1,
                qs[i].1,
            ),
{
    eval::lemma_same_values(xs, ys);
    lemma_same_pairs(ps, qs);
}

proof fn lemma_same_pairs(
    ps: Seq<(Seq<char>, ValueModel)>,
    qs: Seq<(Seq<char>, ValueModel)>,
)
    ensures
        eval::same_pairs(ps, qs) <==> ps.len() == qs.len() && forall|i: int|
            0 <= i < ps.len() ==> (#[trigger] ps[i]).0 == qs[i].0 && eval::same_value(
                ps[i].1,
                qs[i].1,
            ),
    decreases ps.len(),
{
    if ps.len() > 0 && qs.len() > 0 {
        let x = ps.drop_last();
        let y = qs.drop_last();
        lemma_same_pairs(x, y);
        if ps.len() == qs.len() {
            let n = ps.len() - 1;
            if eval::same_pairs(ps, qs) {
                assert forall|i: int| 0 <= i < ps.len() implies (#[trigger] ps[i]).0 == qs[i].0
                    && eval::same_value(ps[i].1, qs[i].1) by {
                    if i < n {
                        assert(x[i].0 == y[i].0 && eval::same_value(x[i].1, y[i].1));
                    }
                }
            } else if forall|i: int|
                0 <= i < ps.len() ==> (#[trigger] ps[i]).0 == qs[i].0 && eval::same_value(
                    ps[i].1,
                    qs[i].1,
                ) {
                assert(ps[n].0 == qs[n].0 && eval::same_value(ps[n].1, qs[n].1));
                assert forall|i: int| 0 <= i < x.len() implies (#[trigger] x[i]).0 == y[i].0
                    && eval::same_value(x[i].1, y[i].1) by {
                    assert(ps[i].0 == qs[i].0);
                }
            }
        }
    }
}

/// Null is equal to what is absent or null, and to nothing else. A field that is there exists,
/// whatever it holds.
pub proof fn lemma_absence(p: Seq<char>, m: Seq<(Seq<char>, ValueModel)>)
    ensures
        ({
            let field = metadata::field_value(m, p);
            let nothing = field is None || field == Some(ValueModel::Null);
            &&& eval::satisfied(FilterModel::Eq(p, ValueModel::Null), m) <==> nothing
            &&& eval::satisfied(FilterModel::IsNull(p), m) <==> nothing
            &&& eval::satisfied(FilterModel::Exists(p), m) <==> field is Some
        }),
{
}

/// A field is in a list of values exactly where it is equal to one of them, and contains a value
/// exactly where it is a list with an item equal to it.
pub proof fn lemma_membership(
    p: Seq<char>,
    v: ValueModel,
    vs: Seq<ValueModel>,
    m: Seq<(Seq<char>, ValueModel)>,
)
    ensures
        eval::satisfied(FilterModel::In(p, vs), m) <==> exists|i: int|
            0 <= i < vs.len() && eval::satisfied(FilterModel::Eq(p, #[trigger] vs[i]), m),
        eval::satisfied(FilterModel::Nin(p, vs), m) <==> forall|i: int|
            0 <= i < vs.len() ==> !eval::satisfied(FilterModel::Eq(p, #[trigger] vs[i]), m),
        eval::satisfied(FilterModel::Contains(p, v), m) <==> exists|xs: Seq<ValueModel>, i: int|
            metadata::field_value(m, p) == Some(ValueModel::Array(xs)) && 0 <= i < xs.len()
                && eval::same_value(#[trigger] xs[i], v),
{
    let field = metadata::field_value(m, p);
    if eval::satisfied(FilterModel::In(p, vs), m) {
        let i = choose|i: int| 0 <= i < vs.len() && eval::equals_value(field, #[trigger] vs[i]);
        assert(eval::satisfied(FilterModel::Eq(p, vs[i]), m));
    }
    if exists|i: int|
        0 <= i < vs.len() && eval::satisfied(FilterModel::Eq(p, #[trigger] vs[i]), m) {
        let i = choose|i: int|
            0 <= i < vs.len() && eval::satisfied(FilterModel::Eq(p, #[trigger] vs[i]), m);
        assert(eval::equals_value(field, vs[i]));
    }
    if eval::satisfied(FilterModel::Contains(p, v), m) {
        let xs = field->0->Array_0;
        assert(field == Some(ValueModel::Array(xs)));
        let i = choose|i: int| 0 <= i < xs.len() && eval::same_value(#[trigger] xs[i], v);
        assert(eval::same_value(xs[i], v));
    }
}

/// A field begins with a text exactly where it is a text whose bytes are those, and then some.
pub proof fn lemma_prefixes(p: Seq<char>, prefix: Seq<char>, m: Seq<(Seq<char>, ValueModel)>)
    ensures
        eval::satisfied(FilterModel::StartsWith(p, prefix), m) <==> exists|s: Seq<char>, rest:
            Seq<u8>| metadata::field_value(m, p) == Some(ValueModel::Str(s))
            && #[trigger] encode_utf8(s) == #[trigger] (encode_utf8(prefix) + rest),
{
    let a = encode_utf8(prefix);
    match metadata::field_value(m, p) {
        Some(ValueModel::Str(s)) => {
            let b = encode_utf8(s);
            if a.is_prefix_of(b) {
                assert(b =~= a + b.skip(a.len() as int));
            }
            if exists|t: Seq<char>, rest: Seq<u8>|
                metadata::field_value(m, p) == Some(ValueModel::Str(t)) && #[trigger] encode_utf8(t)
                    == #[trigger] (a + rest) {
                let (t, rest) = choose|t: Seq<char>, rest: Seq<u8>|
                    metadata::field_value(m, p) == Some(ValueModel::Str(t))
                        && #[trigger] encode_utf8(t) == #[trigger] (a + rest);
                assert(t == s);
                assert(a =~= b.take(a.len() as int));
            }
        },
        _ => {},
    }
}

/// A conjunction asks for every one of its parts, a disjunction for one of them at least, and a
/// negation for the opposite.
pub proof fn lemma_connectives(fs: Seq<FilterModel>, m: Seq<(Seq<char>, ValueModel)>)
    ensures
        eval::satisfied(FilterModel::And(fs), m) <==> forall|i: int|
            0 <= i < fs.len() ==> eval::satisfied(#[trigger] fs[i], m),
        eval::satisfied(FilterModel::Or(fs), m) <==> exists|i: int|
            0 <= i < fs.len() && eval::satisfied(#[trigger] fs[i], m),
        forall|f: FilterModel| #[trigger]
            eval::satisfied(FilterModel::Not(Box::new(f)), m) <==> !eval::satisfied(f, m),
{
    eval::lemma_satisfied_all(fs, m);
    eval::lemma_satisfied_any(fs, m);
}

proof fn lemma_segment_len(a: Seq<u8>, b: Seq<u8>)
    requires
        forall|i: int| 0 <= i < a.len() ==> #[trigger] a[i] != 0x2e,
        b.len() == 0 || b[0] == 0x2e,
    ensures
        lookup::segment_len(a + b) == a.len(),
    decreases a.len(),
{
    let p = a + b;
    if a.len() == 0 {
        assert(p =~= b);
    } else {
        assert(p[0] == a[0]);
        assert(p.skip(1) =~= a.skip(1) + b);
        assert forall|i: int| 0 <= i < a.skip(1).len() implies #[trigger] a.skip(1)[i] != 0x2e by {
            assert(a.skip(1)[i] == a[i + 1]);
        }
        lemma_segment_len(a.skip(1), b);
    }
}

proof fn lemma_only_key(ps: Seq<(Seq<char>, ValueModel)>, i: int, key: Seq<char>)
    requires
        value::keys_ascend(ps),
        0 <= i < ps.len(),
        ps[i].0 == key,
    ensures
        lookup::has_key(ps, encode_utf8(key)),
        lookup::value_under(ps, encode_utf8(key)) == ps[i].1,
{
    let seg = encode_utf8(key);
    let j = choose|j: int| 0 <= j < ps.len() && encode_utf8((#[trigger] ps[j]).0) == seg;
    assert(encode_utf8(ps[i].0) == seg);
    bytes::lemma_utf8_injective(ps[j].0, key);
    bytes::lemma_lex_total(seg, seg);
    if i < j {
        assert(value::key_lt(ps[i].0, ps[j].0));
    } else if j < i {
        assert(value::key_lt(ps[j].0, ps[i].0));
    }
}

/// A path without a dot names the value under that key, where there is one.
pub proof fn lemma_plain_path(m: Seq<(Seq<char>, ValueModel)>, key: Seq<char>)
    requires
        value::keys_ascend(m),
        key.len() > 0,
        forall|i: int| 0 <= i < encode_utf8(key).len() ==> #[trigger] encode_utf8(key)[i] != 0x2e,
    ensures
        forall|i: int|
            0 <= i < m.len() && (#[trigger] m[i]).0 == key ==> metadata::field_value(m, key)
                == Some(m[i].1),
        (forall|i: int| 0 <= i < m.len() ==> (#[trigger] m[i]).0 != key) ==> metadata::field_value(
            m,
            key,
        ) is None,
{
    reveal(metadata::field_value);
    let b = encode_utf8(key);
    lemma_segment_len(b, Seq::empty());
    assert(b + Seq::<u8>::empty() =~= b);
    assert(b.take(b.len() as int) =~= b);
    assert forall|i: int| 0 <= i < m.len() && (#[trigger] m[i]).0 == key implies
        metadata::field_value(m, key) == Some(m[i].1) by {
        lemma_only_key(m, i, key);
    }
    if lookup::has_key(m, b) {
        let j = choose|j: int| 0 <= j < m.len() && encode_utf8((#[trigger] m[j]).0) == b;
        bytes::lemma_utf8_injective(m[j].0, key);
    }
}

/// A path with a dot names, of the map under the key before the dot, what the rest of the path names;
/// where that is no map, or nothing, it names nothing.
pub proof fn lemma_dotted_path(
    m: Seq<(Seq<char>, ValueModel)>,
    key: Seq<char>,
    rest: Seq<char>,
)
    requires
        value::keys_ascend(m),
        rest.len() > 0,
        forall|i: int| 0 <= i < encode_utf8(key).len() ==> #[trigger] encode_utf8(key)[i] != 0x2e,
    ensures
        forall|i: int|
            0 <= i < m.len() && (#[trigger] m[i]).0 == key ==> metadata::field_value(
                m,
                key + seq!['.'] + rest,
            ) == match m[i].1 {
                ValueModel::Object(ps) => metadata::field_value(ps, rest),
                _ => None,
            },
        (forall|i: int| 0 <= i < m.len() ==> (#[trigger] m[i]).0 != key) ==> metadata::field_value(
            m,
            key + seq!['.'] + rest,
        ) is None,
{
    reveal(metadata::field_value);
    reveal_with_fuel(lookup::value_at_path, 3);
    let path = key + seq!['.'] + rest;
    let b = encode_utf8(path);
    let k = encode_utf8(key);
    let dot = seq!['.'];
    assert(is_ascii_chars(dot));
    is_ascii_chars_encode_utf8(dot);
    assert(dot[0] as u8 == encode_utf8(dot)[0]);
    layout_laws::lemma_encode_joined(key, dot);
    layout_laws::lemma_encode_joined(key + dot, rest);
    let behind = encode_utf8(dot) + encode_utf8(rest);
    assert(b =~= k + behind);
    lemma_segment_len(k, behind);
    assert(b.take(k.len() as int) =~= k);
    assert(b.skip(k.len() as int + 1) =~= encode_utf8(rest));
    assert forall|i: int| 0 <= i < m.len() && (#[trigger] m[i]).0 == key implies
        metadata::field_value(m, path) == match m[i].1 {
        ValueModel::Object(ps) => metadata::field_value(ps, rest),
        _ => None,
    } by {
        lemma_only_key(m, i, key);
        assert(path.len() > 0);
    }
    if lookup::has_key(m, k) {
        let j = choose|j: int| 0 <= j < m.len() && encode_utf8((#[trigger] m[j]).0) == k;
        bytes::lemma_utf8_injective(m[j].0, key);
    }
}

/// Whether a document satisfies a filter depends on the fields that the filter reads, and on nothing
/// else.
pub proof fn lemma_only_read_fields_matter(
    f: FilterModel,
    m: Seq<(Seq<char>, ValueModel)>,
    n: Seq<(Seq<char>, ValueModel)>,
)
    requires
        forall|p: Seq<char>| #[trigger]
            filter::reads(f, p) ==> metadata::field_value(m, p) == metadata::field_value(n, p),
    ensures
        eval::satisfied(f, m) == eval::satisfied(f, n),
    decreases f,
{
    match f {
        FilterModel::And(fs) => {
            assert forall|p: Seq<char>| #[trigger] filter::any_reads(fs, p) implies
                metadata::field_value(m, p) == metadata::field_value(n, p) by {
                assert(filter::reads(f, p));
            }
            lemma_only_read_fields_matter_all(fs, m, n);
        },
        FilterModel::Or(fs) => {
            assert forall|p: Seq<char>| #[trigger] filter::any_reads(fs, p) implies
                metadata::field_value(m, p) == metadata::field_value(n, p) by {
                assert(filter::reads(f, p));
            }
            lemma_only_read_fields_matter_all(fs, m, n);
        },
        FilterModel::Not(g) => {
            assert forall|p: Seq<char>| #[trigger] filter::reads(*g, p) implies
                metadata::field_value(m, p) == metadata::field_value(n, p) by {
                assert(filter::reads(f, p));
            }
            lemma_only_read_fields_matter(*g, m, n);
        },
        FilterModel::Eq(p, _) => {
            assert(filter::reads(f, p));
        },
        FilterModel::Ne(p, _) => {
            assert(filter::reads(f, p));
        },
        FilterModel::Gt(p, _) => {
            assert(filter::reads(f, p));
        },
        FilterModel::Gte(p, _) => {
            assert(filter::reads(f, p));
        },
        FilterModel::Lt(p, _) => {
            assert(filter::reads(f, p));
        },
        FilterModel::Lte(p, _) => {
            assert(filter::reads(f, p));
        },
        FilterModel::In(p, _) => {
            assert(filter::reads(f, p));
        },
        FilterModel::Nin(p, _) => {
            assert(filter::reads(f, p));
        },
        FilterModel::Exists(p) => {
            assert(filter::reads(f, p));
        },
        FilterModel::IsNull(p) => {
            assert(filter::reads(f, p));
        },
        FilterModel::StartsWith(p, _) => {
            assert(filter::reads(f, p));
        },
        FilterModel::Contains(p, _) => {
            assert(filter::reads(f, p));
        },
    }
}

proof fn lemma_only_read_fields_matter_all(
    fs: Seq<FilterModel>,
    m: Seq<(Seq<char>, ValueModel)>,
    n: Seq<(Seq<char>, ValueModel)>,
)
    requires
        forall|p: Seq<char>| #[trigger]
            filter::any_reads(fs, p) ==> metadata::field_value(m, p) == metadata::field_value(n, p),
    ensures
        eval::satisfied_all(fs, m) == eval::satisfied_all(fs, n),
        eval::satisfied_any(fs, m) == eval::satisfied_any(fs, n),
    decreases fs,
{
    if fs.len() > 0 {
        let front = fs.drop_last();
        let last = fs.last();
        assert forall|p: Seq<char>| #[trigger] filter::any_reads(front, p) implies
            metadata::field_value(m, p) == metadata::field_value(n, p) by {
            assert(filter::any_reads(fs, p));
        }
        assert forall|p: Seq<char>| #[trigger] filter::reads(last, p) implies metadata::field_value(
            m,
            p,
        ) == metadata::field_value(n, p) by {
            assert(filter::any_reads(fs, p));
        }
        lemma_only_read_fields_matter_all(front, m, n);
        lemma_only_read_fields_matter(last, m, n);
    }
}

/// A comparison reads its own field and no other.
pub proof fn lemma_comparisons_read_one_field(
    p: Seq<char>,
    q: Seq<char>,
    v: ValueModel,
    vs: Seq<ValueModel>,
    s: Seq<char>,
)
    ensures
        filter::reads(FilterModel::Eq(p, v), q) <==> p == q,
        filter::reads(FilterModel::Ne(p, v), q) <==> p == q,
        filter::reads(FilterModel::Gt(p, v), q) <==> p == q,
        filter::reads(FilterModel::Gte(p, v), q) <==> p == q,
        filter::reads(FilterModel::Lt(p, v), q) <==> p == q,
        filter::reads(FilterModel::Lte(p, v), q) <==> p == q,
        filter::reads(FilterModel::In(p, vs), q) <==> p == q,
        filter::reads(FilterModel::Nin(p, vs), q) <==> p == q,
        filter::reads(FilterModel::Exists(p), q) <==> p == q,
        filter::reads(FilterModel::IsNull(p), q) <==> p == q,
        filter::reads(FilterModel::StartsWith(p, s), q) <==> p == q,
        filter::reads(FilterModel::Contains(p, v), q) <==> p == q,
{
}

} // verus!
