//! The laws of the value encoding: encode and decode are exact inverses.
use vstd::prelude::*;
use vstd::utf8::*;

use crate::format::cursor;
use crate::format::cursor::Cursor;
use crate::format::error::FormatError;
use crate::format::le;
use crate::format::value;
use crate::format::value::{ValueModel, MAX_VALUE_DEPTH};
use crate::format::varint;

verus! {

/// A value that can be stored is written as its encoding.
pub proof fn lemma_written_of_storable(v: ValueModel, d: nat, at: nat)
    requires
        value::storable(v, d),
    ensures
        value::written(v, d, at) == Ok::<Seq<u8>, FormatError>(value::encoding(v)),
    decreases v,
{
    match v {
        ValueModel::Array(xs) => {
            let head = seq![7u8] + varint::varint(xs.len());
            lemma_written_all_of_storable(xs, d + 1, at + head.len());
        },
        ValueModel::Object(ps) => {
            let head = seq![8u8] + varint::varint(ps.len());
            lemma_written_pairs_of_storable(ps, d + 1, at + head.len());
        },
        _ => {},
    }
}

proof fn lemma_written_all_of_storable(xs: Seq<ValueModel>, d: nat, at: nat)
    requires
        value::storable_all(xs, d),
    ensures
        value::written_all(xs, d, at) == Ok::<Seq<u8>, FormatError>(value::encoding_all(xs)),
    decreases xs,
{
    if xs.len() > 0 {
        lemma_written_all_of_storable(xs.drop_last(), d, at);
        lemma_written_of_storable(
            xs.last(),
            d,
            at + value::encoding_all(xs.drop_last()).len(),
        );
    }
}

proof fn lemma_written_pairs_of_storable(ps: Seq<(Seq<char>, ValueModel)>, d: nat, at: nat)
    requires
        value::storable_pairs(ps, d),
    ensures
        value::written_pairs(ps, d, at) == Ok::<Seq<u8>, FormatError>(value::encoding_pairs(ps)),
    decreases ps,
{
    if ps.len() > 0 {
        lemma_written_pairs_of_storable(ps.drop_last(), d, at);
        let last = ps.last();
        lemma_written_of_storable(
            last.1,
            d,
            at + value::encoding_pairs(ps.drop_last()).len() + cursor::string_bytes(last.0).len(),
        );
    }
}

/// Only a value that can be stored is written, and as its encoding.
pub proof fn lemma_storable_of_written(v: ValueModel, d: nat, at: nat)
    requires
        value::written(v, d, at) is Ok,
        value::sorted_throughout(v),
    ensures
        value::storable(v, d),
        value::written(v, d, at) == Ok::<Seq<u8>, FormatError>(value::encoding(v)),
    decreases v,
{
    match v {
        ValueModel::Array(xs) => {
            let head = seq![7u8] + varint::varint(xs.len());
            lemma_storable_all_of_written(xs, d + 1, at + head.len());
        },
        ValueModel::Object(ps) => {
            let head = seq![8u8] + varint::varint(ps.len());
            lemma_storable_pairs_of_written(ps, d + 1, at + head.len());
        },
        _ => {},
    }
}

proof fn lemma_storable_all_of_written(xs: Seq<ValueModel>, d: nat, at: nat)
    requires
        value::written_all(xs, d, at) is Ok,
        value::sorted_all(xs),
    ensures
        value::storable_all(xs, d),
        value::written_all(xs, d, at) == Ok::<Seq<u8>, FormatError>(value::encoding_all(xs)),
    decreases xs,
{
    if xs.len() > 0 {
        lemma_storable_all_of_written(xs.drop_last(), d, at);
        lemma_storable_of_written(
            xs.last(),
            d,
            at + value::encoding_all(xs.drop_last()).len(),
        );
    }
}

proof fn lemma_storable_pairs_of_written(ps: Seq<(Seq<char>, ValueModel)>, d: nat, at: nat)
    requires
        value::written_pairs(ps, d, at) is Ok,
        value::sorted_pairs(ps),
    ensures
        value::storable_pairs(ps, d),
        value::written_pairs(ps, d, at) == Ok::<Seq<u8>, FormatError>(value::encoding_pairs(ps)),
    decreases ps,
{
    if ps.len() > 0 {
        lemma_storable_pairs_of_written(ps.drop_last(), d, at);
        let last = ps.last();
        lemma_storable_of_written(
            last.1,
            d,
            at + value::encoding_pairs(ps.drop_last()).len() + cursor::string_bytes(last.0).len(),
        );
    }
}

/// A value that can be stored nests no deeper than permitted.
pub proof fn lemma_storable_depth(v: ValueModel, d: nat)
    requires
        value::storable(v, d),
    ensures
        value::depth_of(v) + d <= MAX_VALUE_DEPTH + 1,
    decreases v,
{
    match v {
        ValueModel::Array(xs) => {
            lemma_storable_all_depth(xs, d + 1);
        },
        ValueModel::Object(ps) => {
            lemma_storable_pairs_depth(ps, d + 1);
        },
        _ => {},
    }
}

proof fn lemma_storable_all_depth(xs: Seq<ValueModel>, d: nat)
    requires
        value::storable_all(xs, d),
        d <= MAX_VALUE_DEPTH + 1,
    ensures
        value::depth_all(xs) + d <= MAX_VALUE_DEPTH + 1,
    decreases xs,
{
    if xs.len() > 0 {
        lemma_storable_all_depth(xs.drop_last(), d);
        lemma_storable_depth(xs.last(), d);
    }
}

proof fn lemma_storable_pairs_depth(ps: Seq<(Seq<char>, ValueModel)>, d: nat)
    requires
        value::storable_pairs(ps, d),
        d <= MAX_VALUE_DEPTH + 1,
    ensures
        value::depth_pairs(ps) + d <= MAX_VALUE_DEPTH + 1,
    decreases ps,
{
    if ps.len() > 0 {
        lemma_storable_pairs_depth(ps.drop_last(), d);
        lemma_storable_depth(ps.last().1, d);
    }
}

/// No value is encoded as nothing.
pub proof fn lemma_encoding_nonempty(v: ValueModel)
    ensures
        value::encoding(v).len() >= 1,
{
}

proof fn lemma_encoding_all_len(xs: Seq<ValueModel>)
    ensures
        value::encoding_all(xs).len() >= xs.len(),
    decreases xs.len(),
{
    if xs.len() > 0 {
        lemma_encoding_all_len(xs.drop_last());
        lemma_encoding_nonempty(xs.last());
    }
}

proof fn lemma_string_nonempty(s: Seq<char>)
    ensures
        cursor::string_bytes(s).len() >= 1,
{
    let n = encode_utf8(s).len();
    assert(varint::varint(n).len() >= 1);
}

proof fn lemma_encoding_pairs_len(ps: Seq<(Seq<char>, ValueModel)>)
    ensures
        value::encoding_pairs(ps).len() >= 2 * ps.len(),
    decreases ps.len(),
{
    if ps.len() > 0 {
        lemma_encoding_pairs_len(ps.drop_last());
        lemma_encoding_nonempty(ps.last().1);
        lemma_string_nonempty(ps.last().0);
    }
}

/// Reading where a storable value is encoded gives the value and moves past its encoding.
pub proof fn lemma_parse_of_encoding(c: Cursor, v: ValueModel, d: nat)
    requires
        c.valid(),
        value::storable(v, d),
        c.at(value::encoding(v)),
    ensures
        value::parsed(c, d) == Ok::<(ValueModel, Cursor), FormatError>(
            (v, c.advance(value::encoding(v).len() as int)),
        ),
    decreases v,
{
    let enc = value::encoding(v);
    let tag = seq![enc[0]];
    let body = enc.skip(1);
    assert(enc =~= tag + body);
    cursor::lemma_at_split(c, tag, body);
    let c1 = c.advance(1);
    assert(c.data.subrange(c.pos, c.pos + 1)[0] == c.data[c.pos]);
    assert(c.u8() == Ok::<(u8, Cursor), FormatError>((enc[0], c1)));
    match v {
        ValueModel::Null => {},
        ValueModel::Bool(_) => {},
        ValueModel::I64(x) => {
            assert(body =~= cursor::varint_i64_bytes(x));
            cursor::lemma_varint_i64(c1, x);
        },
        ValueModel::F64(bits) => {
            assert(body =~= le::le(bits as nat, 8));
            le::lemma_pow256_values();
            cursor::lemma_uint(c1, bits as nat, 8);
        },
        ValueModel::Str(s) => {
            assert(body =~= cursor::string_bytes(s));
            cursor::lemma_string(c1, s);
        },
        ValueModel::Bytes(b) => {
            assert(body =~= cursor::blob_bytes(b));
            cursor::lemma_blob(c1, b);
        },
        ValueModel::Array(xs) => {
            let head = varint::varint(xs.len());
            assert(body =~= head + value::encoding_all(xs));
            cursor::lemma_at_split(c1, head, value::encoding_all(xs));
            lemma_encoding_all_len(xs);
            cursor::lemma_varint(c1, xs.len() as u64);
            let c2 = c1.advance(head.len() as int);
            lemma_parse_all_of_encoding(c2, xs, d + 1);
        },
        ValueModel::Object(ps) => {
            let head = varint::varint(ps.len());
            assert(body =~= head + value::encoding_pairs(ps));
            cursor::lemma_at_split(c1, head, value::encoding_pairs(ps));
            lemma_encoding_pairs_len(ps);
            cursor::lemma_varint(c1, ps.len() as u64);
            let c2 = c1.advance(head.len() as int);
            lemma_parse_pairs_of_encoding(c2, ps, d + 1);
        },
    }
}

proof fn lemma_parse_all_of_encoding(c: Cursor, xs: Seq<ValueModel>, d: nat)
    requires
        c.valid(),
        value::storable_all(xs, d),
        c.at(value::encoding_all(xs)),
    ensures
        value::parsed_all(c, xs.len(), d) == Ok::<(Seq<ValueModel>, Cursor), FormatError>(
            (xs, c.advance(value::encoding_all(xs).len() as int)),
        ),
    decreases xs,
{
    if xs.len() > 0 {
        let front = value::encoding_all(xs.drop_last());
        cursor::lemma_at_split(c, front, value::encoding(xs.last()));
        lemma_parse_all_of_encoding(c, xs.drop_last(), d);
        lemma_parse_of_encoding(c.advance(front.len() as int), xs.last(), d);
        assert(xs.drop_last().push(xs.last()) =~= xs);
    } else {
        assert(xs =~= Seq::<ValueModel>::empty());
    }
}

proof fn lemma_ascend_drop_last(ps: Seq<(Seq<char>, ValueModel)>)
    requires
        value::keys_ascend(ps),
        ps.len() > 0,
    ensures
        value::keys_ascend(ps.drop_last()),
{
    let qs = ps.drop_last();
    assert forall|i: int, j: int| 0 <= i < j < qs.len() implies value::key_lt(
        #[trigger] qs[i].0,
        #[trigger] qs[j].0,
    ) by {
        assert(qs[i] == ps[i] && qs[j] == ps[j]);
    }
}

proof fn lemma_parse_pairs_of_encoding(c: Cursor, ps: Seq<(Seq<char>, ValueModel)>, d: nat)
    requires
        c.valid(),
        value::keys_ascend(ps),
        value::storable_pairs(ps, d),
        c.at(value::encoding_pairs(ps)),
    ensures
        value::parsed_pairs(c, ps.len(), d) == Ok::<
            (Seq<(Seq<char>, ValueModel)>, Cursor),
            FormatError,
        >((ps, c.advance(value::encoding_pairs(ps).len() as int))),
    decreases ps,
{
    if ps.len() > 0 {
        let qs = ps.drop_last();
        let front = value::encoding_pairs(qs);
        let key = cursor::string_bytes(ps.last().0);
        let enc = value::encoding(ps.last().1);
        cursor::lemma_at_split(c, front, key + enc);
        lemma_ascend_drop_last(ps);
        lemma_parse_pairs_of_encoding(c, qs, d);
        let c1 = c.advance(front.len() as int);
        cursor::lemma_at_split(c1, key, enc);
        cursor::lemma_string(c1, ps.last().0);
        if qs.len() > 0 {
            assert(value::key_lt(ps[ps.len() - 2].0, ps[ps.len() - 1].0));
        }
        let c2 = c1.advance(key.len() as int);
        lemma_parse_of_encoding(c2, ps.last().1, d);
        assert(qs.push(ps.last()) =~= ps);
    } else {
        assert(ps =~= Seq::<(Seq<char>, ValueModel)>::empty());
    }
}

/// What a read returns can be stored, and what was read is exactly its encoding.
pub proof fn lemma_parse_is_canonical(c: Cursor, d: nat)
    requires
        c.valid(),
        value::parsed(c, d) is Ok,
    ensures
        value::storable(value::parsed(c, d)->Ok_0.0, d),
        c.at(value::encoding(value::parsed(c, d)->Ok_0.0)),
        value::parsed(c, d)->Ok_0.1 == c.advance(
            value::encoding(value::parsed(c, d)->Ok_0.0).len() as int,
        ),
        value::parsed(c, d)->Ok_0.1.valid(),
    decreases MAX_VALUE_DEPTH + 1 - d, 0nat,
{
    let (v, end) = value::parsed(c, d)->Ok_0;
    let (t, c1) = c.u8()->Ok_0;
    let tag = seq![t];
    assert(c.data.subrange(c.pos, c.pos + 1) =~= tag);
    assert(c.at(tag));
    if t <= 2 {
        assert(value::encoding(v) =~= tag);
    } else if t == 3 {
        let x = c1.varint_i64()->Ok_0.0;
        cursor::lemma_varint_read(c1);
        varint::lemma_zigzag_inverse(0, c1.varint()->Ok_0.0);
        cursor::lemma_at_join(c, tag, cursor::varint_i64_bytes(x));
    } else if t == 4 {
        cursor::lemma_uint_read(c1, 8);
        le::lemma_pow256_values();
        cursor::lemma_at_join(c, tag, le::le(c1.uint(8)->Ok_0.0, 8));
        cursor::lemma_uint(c1, c1.uint(8)->Ok_0.0, 8);
    } else if t == 5 {
        cursor::lemma_string_read(c1);
        cursor::lemma_at_join(c, tag, cursor::string_bytes(c1.string()->Ok_0.0));
    } else if t == 6 {
        cursor::lemma_blob_read(c1);
        cursor::lemma_at_join(c, tag, cursor::blob_bytes(c1.blob()->Ok_0.0));
    } else if t == 7 {
        let (n, c2) = value::counted(c1, 1)->Ok_0;
        cursor::lemma_varint_read(c1);
        lemma_parse_all_is_canonical(c2, n, d + 1);
        let xs = value::parsed_all(c2, n, d + 1)->Ok_0.0;
        cursor::lemma_at_join(c, tag, varint::varint(n));
        cursor::lemma_at_join(c, tag + varint::varint(n), value::encoding_all(xs));
    } else if t == 8 {
        let (n, c2) = value::counted(c1, 2)->Ok_0;
        cursor::lemma_varint_read(c1);
        lemma_parse_pairs_is_canonical(c2, n, d + 1);
        let ps = value::parsed_pairs(c2, n, d + 1)->Ok_0.0;
        cursor::lemma_at_join(c, tag, varint::varint(n));
        cursor::lemma_at_join(c, tag + varint::varint(n), value::encoding_pairs(ps));
    }
}

proof fn lemma_parse_all_is_canonical(c: Cursor, n: nat, d: nat)
    requires
        c.valid(),
        value::parsed_all(c, n, d) is Ok,
    ensures
        value::parsed_all(c, n, d)->Ok_0.0.len() == n,
        value::storable_all(value::parsed_all(c, n, d)->Ok_0.0, d),
        c.at(value::encoding_all(value::parsed_all(c, n, d)->Ok_0.0)),
        value::parsed_all(c, n, d)->Ok_0.1 == c.advance(
            value::encoding_all(value::parsed_all(c, n, d)->Ok_0.0).len() as int,
        ),
        value::parsed_all(c, n, d)->Ok_0.1.valid(),
    decreases MAX_VALUE_DEPTH + 1 - d, n,
{
    if n == 0 {
        assert(c.data.subrange(c.pos, c.pos) =~= Seq::<u8>::empty());
    } else {
        lemma_parse_all_is_canonical(c, (n - 1) as nat, d);
        let (xs, c1) = value::parsed_all(c, (n - 1) as nat, d)->Ok_0;
        lemma_parse_is_canonical(c1, d);
        let x = value::parsed(c1, d)->Ok_0.0;
        cursor::lemma_at_join(c, value::encoding_all(xs), value::encoding(x));
        assert(xs.push(x).drop_last() =~= xs);
    }
}

pub proof fn lemma_parse_pairs_is_canonical(c: Cursor, n: nat, d: nat)
    requires
        c.valid(),
        value::parsed_pairs(c, n, d) is Ok,
    ensures
        value::parsed_pairs(c, n, d)->Ok_0.0.len() == n,
        value::keys_ascend(value::parsed_pairs(c, n, d)->Ok_0.0),
        value::storable_pairs(value::parsed_pairs(c, n, d)->Ok_0.0, d),
        c.at(value::encoding_pairs(value::parsed_pairs(c, n, d)->Ok_0.0)),
        value::parsed_pairs(c, n, d)->Ok_0.1 == c.advance(
            value::encoding_pairs(value::parsed_pairs(c, n, d)->Ok_0.0).len() as int,
        ),
        value::parsed_pairs(c, n, d)->Ok_0.1.valid(),
    decreases MAX_VALUE_DEPTH + 1 - d, n,
{
    if n == 0 {
        assert(c.data.subrange(c.pos, c.pos) =~= Seq::<u8>::empty());
    } else {
        lemma_parse_pairs_is_canonical(c, (n - 1) as nat, d);
        let (ps, c1) = value::parsed_pairs(c, (n - 1) as nat, d)->Ok_0;
        cursor::lemma_string_read(c1);
        let (key, c2) = value::next_key(c1, ps)->Ok_0;
        lemma_parse_is_canonical(c2, d);
        let x = value::parsed(c2, d)->Ok_0.0;
        cursor::lemma_at_join(c1, cursor::string_bytes(key), value::encoding(x));
        cursor::lemma_at_join(
            c,
            value::encoding_pairs(ps),
            cursor::string_bytes(key) + value::encoding(x),
        );
        let qs = ps.push((key, x));
        assert(qs.drop_last() =~= ps);
        value::lemma_keys_push(ps, key, x);
    }
}

/// What was encoded decodes to what it was: anything that can be stored comes back as it was.
pub proof fn lemma_value_round_trip(v: ValueModel)
    requires
        value::storable(v, 1),
        value::encoding(v).len() <= u64::MAX,
    ensures
        value::decoded(value::encoding(v)) == Ok::<ValueModel, FormatError>(v),
{
    let b = value::encoding(v);
    let c = Cursor { data: b, pos: 0, base: 0 };
    assert(b.subrange(0, b.len() as int) =~= b);
    lemma_parse_of_encoding(c, v, 1);
}

/// What decodes is exactly the encoding of what it decodes to: one logical value has exactly one
/// byte representation.
pub proof fn lemma_value_canonical(b: Seq<u8>)
    requires
        b.len() <= u64::MAX,
        value::decoded(b) is Ok,
    ensures
        b == value::encoding(value::decoded(b)->Ok_0),
        value::storable(value::decoded(b)->Ok_0, 1),
{
    let c = Cursor { data: b, pos: 0, base: 0 };
    lemma_parse_is_canonical(c, 1);
    assert(b.subrange(0, b.len() as int) =~= b);
}

} // verus!
