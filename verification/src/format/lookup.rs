//! Reading one field out of encoded metadata without decoding the rest.
use vstd::prelude::*;
use vstd::slice::slice_subrange;
use vstd::utf8::*;

use crate::bytes;
use crate::bytes::Order;
use crate::format::cursor;
use crate::format::cursor::{Cursor, Reader};
use crate::format::error::FormatError;
use crate::format::value;
use crate::format::value::{Value, ValueModel, MAX_VALUE_DEPTH};
use crate::format::value_laws;

verus! {

/// How long the first segment of a dotted path is.
pub open spec fn segment_len(path: Seq<u8>) -> nat
    decreases path.len(),
{
    if path.len() == 0 || path[0] == 0x2e {
        0
    } else {
        1 + segment_len(path.skip(1))
    }
}

/// Where the entry whose key has the UTF-8 bytes `seg` stands, if there is one.
pub open spec fn has_key(ps: Seq<(Seq<char>, ValueModel)>, seg: Seq<u8>) -> bool {
    exists|i: int| 0 <= i < ps.len() && encode_utf8((#[trigger] ps[i]).0) == seg
}

/// The value stored under the key whose UTF-8 bytes are `seg`.
pub open spec fn value_under(ps: Seq<(Seq<char>, ValueModel)>, seg: Seq<u8>) -> ValueModel {
    ps[choose|i: int| 0 <= i < ps.len() && encode_utf8((#[trigger] ps[i]).0) == seg].1
}

/// The value at a dotted path: each segment names a key of the map reached so far.
pub open spec fn value_at_path(v: ValueModel, path: Seq<u8>) -> Option<ValueModel>
    decreases path.len(),
{
    let n = segment_len(path) as int;
    match v {
        ValueModel::Object(ps) => if has_key(ps, path.take(n)) {
            let x = value_under(ps, path.take(n));
            if n >= path.len() {
                Some(x)
            } else {
                value_at_path(x, path.skip(n + 1))
            }
        } else {
            None
        },
        _ => None,
    }
}

/// Where the value under `seg` begins among the `n` entries at a cursor. Keys ascend, so the
/// scan stops as soon as it passes the key it is looking for.
pub open spec fn sought(c: Cursor, n: nat, seg: Seq<u8>) -> Result<Option<Cursor>, FormatError>
    decreases n,
{
    if n == 0 {
        Ok(None)
    } else {
        match c.string() {
            Ok((key, c1)) => match bytes::lex_order(encode_utf8(key), seg) {
                Order::Less => match value::parsed(c1, 1) {
                    Ok((_, c2)) => sought(c2, (n - 1) as nat, seg),
                    Err(e) => Err(e),
                },
                Order::Equal => Ok(Some(c1)),
                Order::Greater => Ok(None),
            },
            Err(e) => Err(e),
        }
    }
}

/// What looking up `path` at a cursor yields: only the entries on the way are read.
pub open spec fn found(c: Cursor, path: Seq<u8>) -> Result<Option<ValueModel>, FormatError>
    decreases path.len(),
{
    let n = segment_len(path) as int;
    match c.u8() {
        Ok((t, c1)) => if t != 8 {
            Ok(None)
        } else {
            match value::counted(c1, 2) {
                Ok((count, c2)) => match sought(c2, count, path.take(n)) {
                    Ok(Some(c3)) => if n >= path.len() {
                        match value::parsed(c3, 1) {
                            Ok((v, _)) => Ok(Some(v)),
                            Err(e) => Err(e),
                        }
                    } else {
                        found(c3, path.skip(n + 1))
                    },
                    Ok(None) => Ok(None),
                    Err(e) => Err(e),
                },
                Err(e) => Err(e),
            }
        },
        Err(e) => Err(e),
    }
}

proof fn lemma_segment_len(path: Seq<u8>)
    ensures
        segment_len(path) <= path.len(),
    decreases path.len(),
{
    if path.len() > 0 && path[0] != 0x2e {
        lemma_segment_len(path.skip(1));
    }
}

/// The end of the segment that starts at `start`.
pub(crate) fn segment_end(path: &[u8], start: usize) -> (r: usize)
    requires
        start <= path@.len(),
    ensures
        r == start + segment_len(path@.skip(start as int)),
        start <= r <= path@.len(),
{
    let mut i: usize = start;
    while i < path.len() && path[i] != 0x2e
        invariant
            start <= i <= path@.len(),
            segment_len(path@.skip(start as int)) == (i - start) + segment_len(
                path@.skip(i as int),
            ),
        decreases path.len() - i,
    {
        assert(path@.skip(i as int).skip(1) =~= path@.skip(i + 1));
        i += 1;
    }
    i
}

/// Move the reader to the value under `seg` among the next `n` entries, if it is there.
fn seek_key(r: &mut Reader<'_>, n: usize, seg: &[u8]) -> (res: Result<bool, FormatError>)
    requires
        old(r)@.valid(),
    ensures
        final(r)@.valid(),
        match sought(old(r)@, n as nat, seg@) {
            Ok(Some(c)) => res == Ok::<bool, FormatError>(true) && final(r)@ == c,
            Ok(None) => res == Ok::<bool, FormatError>(false),
            Err(e) => res == Err::<bool, FormatError>(e),
        },
{
    let mut left: usize = n;
    while left > 0
        invariant
            r@.valid(),
            sought(old(r)@, n as nat, seg@) == sought(r@, left as nat, seg@),
        decreases left,
    {
        let key = match r.string() {
            Ok(k) => k,
            Err(e) => {
                return Err(e);
            },
        };
        match bytes::compare_bytes(key.as_bytes(), seg) {
            Order::Less => match value::skip_value(r) {
                Ok(()) => {},
                Err(e) => {
                    return Err(e);
                },
            },
            Order::Equal => {
                return Ok(true);
            },
            // Keys ascend, so once we are past the target it cannot appear later.
            Order::Greater => {
                return Ok(false);
            },
        }
        left -= 1;
    }
    Ok(false)
}

/// Decode only the value at a dotted path, skipping everything else.
///
/// `bytes` is an encoded map. Returns `None` when the path does not resolve (a missing key, or
/// an attempt to descend into a scalar), which is what a full decode followed by a lookup would
/// give.
///
/// # Errors
/// Any [`FormatError`] from malformed input on the way to the value.
pub fn find_path(bytes: &[u8], path: &str) -> (r: Result<Option<Value>, FormatError>)
    ensures
        if bytes@.len() == 0 || path@.len() == 0 {
            r == Ok::<Option<Value>, FormatError>(None)
        } else {
            match found(Cursor { data: bytes@, pos: 0, base: 0 }, encode_utf8(path@)) {
                Ok(Some(m)) => r matches Ok(Some(v)) && v@ == m,
                Ok(None) => r == Ok::<Option<Value>, FormatError>(None),
                Err(e) => r == Err::<Option<Value>, FormatError>(e),
            }
        },
{
    if bytes.is_empty() || path.is_empty() {
        return Ok(None);
    }
    let p = path.as_bytes();
    let mut r = Reader::new(bytes);
    let mut start: usize = 0;
    let ghost whole = found(r@, p@);
    assert(p@.skip(0) =~= p@);
    loop
        invariant
            bytes@.len() != 0,
            path@.len() != 0,
            start <= p@.len(),
            r@.valid(),
            whole == found(Cursor { data: bytes@, pos: 0, base: 0 }, encode_utf8(path@)),
            whole == found(r@, p@.skip(start as int)),
        decreases p.len() - start,
    {
        let end: usize = segment_end(p, start);
        let seg = slice_subrange(p, start, end);
        proof {
            let q = p@.skip(start as int);
            assert(q.take(segment_len(q) as int) =~= seg@);
            if end < p@.len() {
                assert(q.skip(segment_len(q) as int + 1) =~= p@.skip(end + 1));
            }
        }
        let t: u8 = match r.u8() {
            Ok(t) => t,
            Err(e) => {
                return Err(e);
            },
        };
        if t != value::TAG_OBJECT {
            // Not a map, so there is nothing to descend into.
            return Ok(None);
        }
        let count: usize = match value::read_count(&mut r, 2) {
            Ok(n) => n,
            Err(e) => {
                return Err(e);
            },
        };
        match seek_key(&mut r, count, seg) {
            Ok(true) => {},
            Ok(false) => {
                return Ok(None);
            },
            Err(e) => {
                return Err(e);
            },
        }
        if end == p.len() {
            return match Value::read_from(&mut r) {
                Ok(v) => Ok(Some(v)),
                Err(e) => Err(e),
            };
        }
        // More path to walk: the reader is now positioned at the nested value, which the next
        // iteration requires to be a map.
        start = end + 1;
    }
}

/// What can be read at some depth reads the same at any lesser depth.
proof fn lemma_parse_shallower(c: Cursor, d: nat, e: nat)
    requires
        e <= d,
        value::parsed(c, d) is Ok,
    ensures
        value::parsed(c, e) == value::parsed(c, d),
    decreases MAX_VALUE_DEPTH + 1 - d, 0nat,
{
    let (t, c1) = c.u8()->Ok_0;
    if t == 7 {
        let (n, c2) = value::counted(c1, 1)->Ok_0;
        lemma_parse_all_shallower(c2, n, d + 1, e + 1);
    } else if t == 8 {
        let (n, c2) = value::counted(c1, 2)->Ok_0;
        lemma_parse_pairs_shallower(c2, n, d + 1, e + 1);
    }
}

proof fn lemma_parse_all_shallower(c: Cursor, n: nat, d: nat, e: nat)
    requires
        e <= d,
        value::parsed_all(c, n, d) is Ok,
    ensures
        value::parsed_all(c, n, e) == value::parsed_all(c, n, d),
    decreases MAX_VALUE_DEPTH + 1 - d, n,
{
    if n > 0 {
        lemma_parse_all_shallower(c, (n - 1) as nat, d, e);
        lemma_parse_shallower(value::parsed_all(c, (n - 1) as nat, d)->Ok_0.1, d, e);
    }
}

proof fn lemma_parse_pairs_shallower(c: Cursor, n: nat, d: nat, e: nat)
    requires
        e <= d,
        value::parsed_pairs(c, n, d) is Ok,
    ensures
        value::parsed_pairs(c, n, e) == value::parsed_pairs(c, n, d),
    decreases MAX_VALUE_DEPTH + 1 - d, n,
{
    if n > 0 {
        lemma_parse_pairs_shallower(c, (n - 1) as nat, d, e);
        let (ps, c1) = value::parsed_pairs(c, (n - 1) as nat, d)->Ok_0;
        lemma_parse_shallower(value::next_key(c1, ps)->Ok_0.1, d, e);
    }
}

/// The entries read first are the first of those read.
proof fn lemma_parse_pairs_prefix(c: Cursor, k: nat, n: nat, d: nat)
    requires
        k <= n,
        c.valid(),
        value::parsed_pairs(c, n, d) is Ok,
    ensures
        value::parsed_pairs(c, k, d) is Ok,
        value::parsed_pairs(c, n, d)->Ok_0.0.len() == n,
        value::parsed_pairs(c, k, d)->Ok_0.0 == value::parsed_pairs(c, n, d)->Ok_0.0.take(k as int),
    decreases n,
{
    let ps = value::parsed_pairs(c, n, d)->Ok_0.0;
    value_laws::lemma_parse_pairs_is_canonical(c, n, d);
    if k == n {
        assert(ps.take(k as int) =~= ps);
    } else {
        lemma_parse_pairs_prefix(c, k, (n - 1) as nat, d);
        let qs = value::parsed_pairs(c, (n - 1) as nat, d)->Ok_0.0;
        assert(ps.drop_last() =~= qs);
        assert(ps.take(k as int) =~= qs.take(k as int));
    }
}

/// Seeking among the entries of a map finds the value under a key, or nothing where there is no
/// such key.
#[verifier::spinoff_prover]
#[verifier::rlimit(60)]
proof fn lemma_sought(c: Cursor, k: nat, n: nat, d: nat, seg: Seq<u8>)
    requires
        1 <= d,
        k <= n,
        c.valid(),
        value::parsed_pairs(c, n, d) is Ok,
        forall|i: int|
            0 <= i < k ==> bytes::lex_lt(
                encode_utf8((#[trigger] value::parsed_pairs(c, n, d)->Ok_0.0[i]).0),
                seg,
            ),
    ensures
        ({
            let ps = value::parsed_pairs(c, n, d)->Ok_0.0;
            let at = value::parsed_pairs(c, k, d)->Ok_0.1;
            match sought(at, (n - k) as nat, seg) {
                Ok(Some(c1)) => has_key(ps, seg) && c1.valid() && value::parsed(c1, d) is Ok
                    && value::parsed(c1, d)->Ok_0.0 == value_under(ps, seg),
                Ok(None) => !has_key(ps, seg),
                Err(_) => false,
            }
        }),
    decreases n - k,
{
    let ps = value::parsed_pairs(c, n, d)->Ok_0.0;
    lemma_parse_pairs_prefix(c, k, n, d);
    value_laws::lemma_parse_pairs_is_canonical(c, n, d);
    value_laws::lemma_parse_pairs_is_canonical(c, k, d);
    let at = value::parsed_pairs(c, k, d)->Ok_0.1;
    if k == n {
        assert forall|i: int| 0 <= i < ps.len() implies encode_utf8((#[trigger] ps[i]).0) != seg by {
            bytes::lemma_lex_total(seg, seg);
        }
    } else {
        lemma_parse_pairs_prefix(c, k + 1, n, d);
        value_laws::lemma_parse_pairs_is_canonical(c, k + 1, d);
        let (key, c1) = at.string()->Ok_0;
        cursor::lemma_string_read(at);
        assert(ps.take(k as int + 1).last() == ps[k as int]);
        assert(ps[k as int].0 == key);
        assert(value::parsed(c1, d)->Ok_0.0 == ps[k as int].1);
        lemma_parse_shallower(c1, d, 1);
        bytes::lemma_lex_total(encode_utf8(key), seg);
        if encode_utf8(key) == seg {
            lemma_only_key(ps, k as int, seg);
        } else if bytes::lex_lt(encode_utf8(key), seg) {
            lemma_sought(c, k + 1, n, d, seg);
        } else {
            assert forall|i: int| 0 <= i < ps.len() implies encode_utf8((#[trigger] ps[i]).0)
                != seg by {
                bytes::lemma_lex_total(seg, seg);
                if i > k {
                    assert(value::key_lt(ps[k as int].0, ps[i].0));
                    bytes::lemma_lex_transitive(seg, encode_utf8(key), encode_utf8(ps[i].0));
                }
            }
        }
    }
}

/// In a sorted map a key has one position.
pub(crate) proof fn lemma_only_key(ps: Seq<(Seq<char>, ValueModel)>, k: int, seg: Seq<u8>)
    requires
        value::keys_ascend(ps),
        0 <= k < ps.len(),
        encode_utf8(ps[k].0) == seg,
    ensures
        has_key(ps, seg),
        value_under(ps, seg) == ps[k].1,
{
    let j = choose|i: int| 0 <= i < ps.len() && encode_utf8((#[trigger] ps[i]).0) == seg;
    bytes::lemma_lex_total(seg, seg);
    if j < k {
        assert(value::key_lt(ps[j].0, ps[k].0));
    } else if k < j {
        assert(value::key_lt(ps[k].0, ps[j].0));
    }
}

/// Looking a path up where a value is encoded gives what the value holds at that path.
proof fn lemma_found(c: Cursor, d: nat, path: Seq<u8>)
    requires
        c.valid(),
        value::parsed(c, d) is Ok,
    ensures
        found(c, path) == Ok::<Option<ValueModel>, FormatError>(
            value_at_path(value::parsed(c, d)->Ok_0.0, path),
        ),
    decreases path.len(),
{
    let v = value::parsed(c, d)->Ok_0.0;
    let (t, c1) = c.u8()->Ok_0;
    let n = segment_len(path) as int;
    lemma_segment_len(path);
    if t == 8 {
        let (count, c2) = value::counted(c1, 2)->Ok_0;
        cursor::lemma_varint_read(c1);
        assert(c2.valid());
        lemma_sought(c2, 0, count, d + 1, path.take(n));
        match sought(c2, count, path.take(n)) {
            Ok(Some(c3)) => {
                lemma_parse_shallower(c3, d + 1, 1);
                if n < path.len() {
                    lemma_found(c3, d + 1, path.skip(n + 1));
                }
            },
            _ => {},
        }
    }
}

/// Reading one field lazily is the same as decoding everything and looking the field up.
pub proof fn lemma_find_is_decode_then_lookup(b: Seq<u8>, path: Seq<u8>)
    requires
        b.len() <= u64::MAX,
        value::decoded(b) is Ok,
    ensures
        found(Cursor { data: b, pos: 0, base: 0 }, path) == Ok::<Option<ValueModel>, FormatError>(
            value_at_path(value::decoded(b)->Ok_0, path),
        ),
{
    lemma_found(Cursor { data: b, pos: 0, base: 0 }, 1, path);
}

} // verus!
